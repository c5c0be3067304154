//! Character-level text primitives shared by the frontmatter, title and
//! substitution logic: whitespace, trimming, searching and line structure,
//! each with a specification over `Seq<char>` and an executable form over
//! a `Vec<char>` snapshot of the text.

use vstd::prelude::*;

verus! {

// ---------------------------------------------------------------------
// Specifications
// ---------------------------------------------------------------------

/// The Unicode `White_Space` property, which `char::is_whitespace`,
/// `str::trim`, `str::trim_start` and `str::trim_end` go by.
pub open spec fn is_white(c: char) -> bool {
    ||| ('\u{9}' <= c && c <= '\u{d}')
    ||| c == ' '
    ||| c == '\u{85}'
    ||| c == '\u{a0}'
    ||| c == '\u{1680}'
    ||| ('\u{2000}' <= c && c <= '\u{200a}')
    ||| c == '\u{2028}'
    ||| c == '\u{2029}'
    ||| c == '\u{202f}'
    ||| c == '\u{205f}'
    ||| c == '\u{3000}'
}

/// `s` without its leading whitespace.
pub open spec fn trim_start(s: Seq<char>) -> Seq<char>
    decreases s.len(),
{
    if s.len() > 0 && is_white(s[0]) {
        trim_start(s.drop_first())
    } else {
        s
    }
}

/// `s` without its trailing whitespace.
pub open spec fn trim_end(s: Seq<char>) -> Seq<char>
    decreases s.len(),
{
    if s.len() > 0 && is_white(s.last()) {
        trim_end(s.drop_last())
    } else {
        s
    }
}

/// `s` without leading and trailing whitespace.
pub open spec fn trim(s: Seq<char>) -> Seq<char> {
    trim_end(trim_start(s))
}

/// Index of the first `c` in `s` at or after `i`, or `s.len()` when there
/// is none.
pub open spec fn find_from(s: Seq<char>, c: char, i: int) -> int
    decreases s.len() - i,
{
    if i >= s.len() {
        s.len() as int
    } else if s[i] == c {
        i
    } else {
        find_from(s, c, i + 1)
    }
}

/// Whether `p` occurs in `s` starting at index `i`.
pub open spec fn occurs_at(s: Seq<char>, i: int, p: Seq<char>) -> bool {
    0 <= i && i + p.len() <= s.len() && s.subrange(i, i + p.len()) == p
}

/// Whether `s` begins with `p`.
pub open spec fn starts_with(s: Seq<char>, p: Seq<char>) -> bool {
    occurs_at(s, 0, p)
}

/// Whether `p` occurs anywhere in `s` (`str::contains`).
pub open spec fn contains(s: Seq<char>, p: Seq<char>) -> bool {
    exists|i: int| occurs_at(s, i, p)
}

/// Index just past the line that starts at `i`: past its `'\n'`, or the
/// end of `s` for a last line without one.
pub open spec fn line_end(s: Seq<char>, i: int) -> int {
    let n = find_from(s, '\n', i);
    if n < s.len() {
        n + 1
    } else {
        s.len() as int
    }
}

// ---------------------------------------------------------------------
// Lemmas
// ---------------------------------------------------------------------

/// `find_from` lands on `c` or on the end, and skips no earlier `c`.
pub proof fn lemma_find_from(s: Seq<char>, c: char, i: int)
    requires
        0 <= i <= s.len(),
    ensures
        i <= find_from(s, c, i) <= s.len(),
        find_from(s, c, i) < s.len() ==> s[find_from(s, c, i)] == c,
        forall|j: int| i <= j < find_from(s, c, i) ==> s[j] != c,
    decreases s.len() - i,
{
    if i < s.len() && s[i] != c {
        lemma_find_from(s, c, i + 1);
    }
}

/// Searching a suffix of `s` is searching `s` from where the suffix
/// starts.
pub proof fn lemma_find_from_suffix(s: Seq<char>, c: char, p: int, j: int)
    requires
        0 <= p <= s.len(),
        0 <= j,
    ensures
        find_from(s.subrange(p, s.len() as int), c, j) + p == find_from(s, c, p + j),
    decreases s.len() - p - j,
{
    let t = s.subrange(p, s.len() as int);
    if j < t.len() {
        assert(t[j] == s[p + j]);
        if t[j] != c {
            lemma_find_from_suffix(s, c, p, j + 1);
        }
    }
}

/// `line_end` moves strictly forward from inside the text.
pub proof fn lemma_line_end(s: Seq<char>, i: int)
    requires
        0 <= i < s.len(),
    ensures
        i < line_end(s, i) <= s.len(),
        line_end(s, i) < s.len() ==> s[line_end(s, i) - 1] == '\n',
        forall|j: int| i <= j < line_end(s, i) - 1 ==> s[j] != '\n',
{
    lemma_find_from(s, '\n', i);
}

/// Trimming the start drops exactly the leading run of whitespace.
pub proof fn lemma_trim_start_at(s: Seq<char>, k: int)
    requires
        0 <= k <= s.len(),
        forall|j: int| 0 <= j < k ==> is_white(#[trigger] s[j]),
        k == s.len() || !is_white(s[k]),
    ensures
        trim_start(s) == s.subrange(k, s.len() as int),
    decreases k,
{
    if k == 0 {
        assert(s.subrange(0, s.len() as int) =~= s);
    } else {
        let t = s.drop_first();
        assert forall|j: int| 0 <= j < k - 1 implies is_white(#[trigger] t[j]) by {
            assert(t[j] == s[j + 1]);
        }
        lemma_trim_start_at(t, k - 1);
        assert(t.subrange(k - 1, t.len() as int) =~= s.subrange(k, s.len() as int));
    }
}

/// Trimming the end drops exactly the trailing run of whitespace.
pub proof fn lemma_trim_end_at(s: Seq<char>, k: int)
    requires
        0 <= k <= s.len(),
        forall|j: int| k <= j < s.len() ==> is_white(#[trigger] s[j]),
        k == 0 || !is_white(s[k - 1]),
    ensures
        trim_end(s) == s.subrange(0, k),
    decreases s.len() - k,
{
    if k == s.len() {
        assert(s.subrange(0, s.len() as int) =~= s);
    } else {
        let t = s.drop_last();
        assert forall|j: int| k <= j < t.len() implies is_white(#[trigger] t[j]) by {
            assert(t[j] == s[j]);
        }
        lemma_trim_end_at(t, k);
        assert(t.subrange(0, k) =~= s.subrange(0, k));
    }
}

/// The result of trimming has no whitespace at either end.
pub proof fn lemma_trim_clean(s: Seq<char>)
    ensures
        trim(s).len() > 0 ==> !is_white(trim(s)[0]) && !is_white(trim(s).last()),
    decreases s.len(),
{
    lemma_trim_start_clean(s);
    lemma_trim_end_clean(trim_start(s));
    lemma_trim_end_prefix(trim_start(s));
}

proof fn lemma_trim_start_clean(s: Seq<char>)
    ensures
        trim_start(s).len() > 0 ==> !is_white(trim_start(s)[0]),
    decreases s.len(),
{
    if s.len() > 0 && is_white(s[0]) {
        lemma_trim_start_clean(s.drop_first());
    }
}

proof fn lemma_trim_end_clean(s: Seq<char>)
    ensures
        trim_end(s).len() > 0 ==> !is_white(trim_end(s).last()),
    decreases s.len(),
{
    if s.len() > 0 && is_white(s.last()) {
        lemma_trim_end_clean(s.drop_last());
    }
}

/// Trimming the end keeps a prefix of the text.
pub proof fn lemma_trim_end_prefix(s: Seq<char>)
    ensures
        trim_end(s).len() <= s.len(),
        trim_end(s) == s.subrange(0, trim_end(s).len() as int),
    decreases s.len(),
{
    if s.len() > 0 && is_white(s.last()) {
        lemma_trim_end_prefix(s.drop_last());
        assert(s.drop_last().subrange(0, trim_end(s).len() as int) =~= s.subrange(
            0,
            trim_end(s).len() as int,
        ));
    } else {
        assert(s.subrange(0, s.len() as int) =~= s);
    }
}

/// Trimming the start keeps a suffix of the text.
pub proof fn lemma_trim_start_suffix(s: Seq<char>)
    ensures
        trim_start(s).len() <= s.len(),
        trim_start(s) == s.subrange(s.len() - trim_start(s).len(), s.len() as int),
    decreases s.len(),
{
    if s.len() > 0 && is_white(s[0]) {
        lemma_trim_start_suffix(s.drop_first());
        assert(s.drop_first().subrange(
            s.drop_first().len() - trim_start(s).len(),
            s.drop_first().len() as int,
        ) =~= s.subrange(s.len() - trim_start(s).len(), s.len() as int));
    } else {
        assert(s.subrange(0, s.len() as int) =~= s);
    }
}

// ---------------------------------------------------------------------
// Executable forms
// ---------------------------------------------------------------------

/// Whether `c` has the Unicode `White_Space` property.
pub fn is_white_char(c: char) -> (res: bool)
    ensures
        res == is_white(c),
{
    ('\u{9}' <= c && c <= '\u{d}') || c == ' ' || c == '\u{85}' || c == '\u{a0}' || c
        == '\u{1680}' || ('\u{2000}' <= c && c <= '\u{200a}') || c == '\u{2028}' || c
        == '\u{2029}' || c == '\u{202f}' || c == '\u{205f}' || c == '\u{3000}'
}

/// The characters of `s`, in order.
pub fn chars_of(s: &str) -> (v: Vec<char>)
    ensures
        v@ == s@,
{
    let mut v: Vec<char> = Vec::new();
    for c in it: s.chars()
        invariant
            v@ == it.seq().take(it.index() as int),
    {
        v.push(c);
    }
    v
}

/// Appends `c` to `s` through `String::push`, which adds exactly that
/// character at the end of the string.
#[verifier::external_body]
pub fn push_char(s: &mut String, c: char)
    ensures
        final(s)@ == old(s)@.push(c),
{
    s.push(c);
}

/// Appends the characters `v[from..to]` to `s`.
pub fn push_range(s: &mut String, v: &Vec<char>, from: usize, to: usize)
    requires
        from <= to <= v@.len(),
    ensures
        final(s)@ == old(s)@ + v@.subrange(from as int, to as int),
{
    let mut i = from;
    while i < to
        invariant
            from <= i <= to <= v@.len(),
            s@ == old(s)@ + v@.subrange(from as int, i as int),
        decreases to - i,
    {
        push_char(s, v[i]);
        i = i + 1;
        assert(v@.subrange(from as int, i as int) =~= v@.subrange(from as int, i - 1).push(
            v@[i - 1],
        ));
    }
}

/// A new `String` holding the characters `v[from..to]`.
pub fn string_of_range(v: &Vec<char>, from: usize, to: usize) -> (s: String)
    requires
        from <= to <= v@.len(),
    ensures
        s@ == v@.subrange(from as int, to as int),
{
    let mut s = String::new();
    push_range(&mut s, v, from, to);
    s
}

/// A new `String` holding all of `v`.
pub fn string_of(v: &Vec<char>) -> (s: String)
    ensures
        s@ == v@,
{
    let s = string_of_range(v, 0, v.len());
    assert(v@.subrange(0, v@.len() as int) =~= v@);
    s
}

/// Whether `a` and `b` hold the same characters.
pub fn same_text(a: &str, b: &str) -> (res: bool)
    ensures
        res == (a@ == b@),
{
    let x = chars_of(a);
    let y = chars_of(b);
    if x.len() != y.len() {
        return false;
    }
    let mut i: usize = 0;
    while i < x.len()
        invariant
            x@ == a@,
            y@ == b@,
            x@.len() == y@.len(),
            i <= x@.len(),
            forall|k: int| 0 <= k < i ==> x@[k] == y@[k],
        decreases x@.len() - i,
    {
        if x[i] != y[i] {
            assert(x@[i as int] != y@[i as int]);
            assert(x@ != y@);
            return false;
        }
        i = i + 1;
    }
    assert(x@ =~= y@);
    true
}

/// First index of `c` in `v` at or after `from`, or `v.len()`.
pub fn find_char(v: &Vec<char>, c: char, from: usize) -> (k: usize)
    requires
        from <= v@.len(),
    ensures
        k == find_from(v@, c, from as int),
{
    let mut i = from;
    while i < v.len()
        invariant
            from <= i <= v@.len(),
            find_from(v@, c, from as int) == find_from(v@, c, i as int),
        decreases v@.len() - i,
    {
        if v[i] == c {
            return i;
        }
        i = i + 1;
    }
    i
}

/// Index just past the line of `v` that starts at `from`.
pub fn line_end_at(v: &Vec<char>, from: usize) -> (k: usize)
    requires
        from < v@.len(),
    ensures
        k == line_end(v@, from as int),
        from < k <= v@.len(),
{
    proof {
        lemma_line_end(v@, from as int);
    }
    let n = find_char(v, '\n', from);
    if n < v.len() {
        n + 1
    } else {
        v.len()
    }
}

/// Whether `p` occurs in `v` at index `at`.
pub fn occurs_at_exec(v: &Vec<char>, at: usize, p: &Vec<char>) -> (res: bool)
    ensures
        res == occurs_at(v@, at as int, p@),
{
    if at > v.len() || p.len() > v.len() - at {
        return false;
    }
    let mut j: usize = 0;
    while j < p.len()
        invariant
            at + p@.len() <= v@.len(),
            v@.len() == v.len(),
            j <= p@.len(),
            forall|k: int| 0 <= k < j ==> v@[at + k] == p@[k],
        decreases p@.len() - j,
    {
        assert(at + j < v@.len());
        if v[at + j] != p[j] {
            assert(v@.subrange(at as int, at + p@.len())[j as int] != p@[j as int]);
            return false;
        }
        j = j + 1;
    }
    assert(v@.subrange(at as int, at + p@.len()) =~= p@);
    true
}

/// Whether `p` occurs anywhere in `v`.
pub fn contains_exec(v: &Vec<char>, p: &Vec<char>) -> (res: bool)
    ensures
        res == contains(v@, p@),
{
    if p.len() > v.len() {
        assert forall|i: int| !occurs_at(v@, i, p@) by {}
        return false;
    }
    let last = v.len() - p.len();
    let mut i: usize = 0;
    while i < last
        invariant
            p@.len() <= v@.len(),
            last == v@.len() - p@.len(),
            i <= last,
            forall|k: int| 0 <= k < i ==> !occurs_at(v@, k, p@),
        decreases last - i,
    {
        if occurs_at_exec(v, i, p) {
            return true;
        }
        i = i + 1;
    }
    if occurs_at_exec(v, last, p) {
        return true;
    }
    assert forall|k: int| !occurs_at(v@, k, p@) by {
        if 0 <= k < i {
        }
    }
    false
}

/// First index at or after `from` (and before `to`) that is not
/// whitespace, or `to`; the trimmed start of `v[from..to]`.
pub fn skip_white(v: &Vec<char>, from: usize, to: usize) -> (k: usize)
    requires
        from <= to <= v@.len(),
    ensures
        from <= k <= to,
        trim_start(v@.subrange(from as int, to as int)) == v@.subrange(k as int, to as int),
{
    let mut k = from;
    while k < to && is_white_char(v[k])
        invariant
            from <= k <= to <= v@.len(),
            forall|j: int| from <= j < k ==> is_white(#[trigger] v@[j]),
        decreases to - k,
    {
        k = k + 1;
    }
    proof {
        let s = v@.subrange(from as int, to as int);
        assert forall|j: int| 0 <= j < k - from implies is_white(#[trigger] s[j]) by {
            assert(s[j] == v@[from + j]);
        }
        lemma_trim_start_at(s, k - from);
        assert(s.subrange(k - from, s.len() as int) =~= v@.subrange(k as int, to as int));
    }
    k
}

/// Index past the last non-whitespace character of `v[from..to]`, or
/// `from`; the trimmed end of `v[from..to]`.
pub fn back_white(v: &Vec<char>, from: usize, to: usize) -> (k: usize)
    requires
        from <= to <= v@.len(),
    ensures
        from <= k <= to,
        trim_end(v@.subrange(from as int, to as int)) == v@.subrange(from as int, k as int),
{
    let mut k = to;
    while k > from && is_white_char(v[k - 1])
        invariant
            from <= k <= to <= v@.len(),
            forall|j: int| k <= j < to ==> is_white(#[trigger] v@[j]),
        decreases k - from,
    {
        k = k - 1;
    }
    proof {
        let s = v@.subrange(from as int, to as int);
        assert forall|j: int| k - from <= j < s.len() implies is_white(#[trigger] s[j]) by {
            assert(s[j] == v@[from + j]);
        }
        if k > from {
            assert(s[k - from - 1] == v@[k - 1]);
        }
        lemma_trim_end_at(s, k - from);
        assert(s.subrange(0, k - from) =~= v@.subrange(from as int, k as int));
    }
    k
}

/// Bounds `(a, b)` with `v[a..b]` the trimmed `v[from..to]`.
pub fn trim_bounds(v: &Vec<char>, from: usize, to: usize) -> (r: (usize, usize))
    requires
        from <= to <= v@.len(),
    ensures
        from <= r.0 <= r.1 <= to,
        trim(v@.subrange(from as int, to as int)) == v@.subrange(r.0 as int, r.1 as int),
{
    let a = skip_white(v, from, to);
    let b = back_white(v, a, to);
    (a, b)
}

} // verus!
