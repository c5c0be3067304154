//! Skill-style YAML frontmatter: locating and stripping the
//! leading `---` block, and reading argument names from its
//! `argument-hint`.
//!
//! A prompt MAY open with a `---`-delimited YAML block. Locating the block
//! is structural: it never fails, it either finds a well-delimited block
//! or reports that there is none. Decoding the YAML inside it into a
//! [`Frontmatter`] happens at the edge of the program, with a YAML parser.

use vstd::prelude::*;
use vstd::string::*;
use crate::text::{
    back_white, chars_of, find_char, find_from, lemma_find_from, lemma_find_from_suffix, line_end,
    line_end_at, lemma_line_end, occurs_at_exec, starts_with, string_of_range, trim, trim_bounds,
    trim_end,
};

verus! {

/// The frontmatter fields the distribution consumes. Unknown fields
/// are ignored so prompts can carry additional skill metadata.
#[derive(Debug, Clone, Default, PartialEq, Eq)]
pub struct Frontmatter {
    /// Prompt identifier (kebab-case, matching the directory name in
    /// the skill format).
    pub name: Option<String>,
    /// One-line summary of what the prompt does.
    pub description: Option<String>,
    /// skill argument hint, e.g. `"[topic] [audience]"`.
    pub argument_hint: Option<String>,
}

// ---------------------------------------------------------------------
// Argument names
// ---------------------------------------------------------------------

/// The trimmed contents of the bracketed groups `[...]` of an argument
/// hint, in order; scanning stops at a `[` that is never closed.
pub open spec fn bracket_tokens(s: Seq<char>) -> Seq<Seq<char>>
    decreases s.len(),
{
    let o = find_from(s, '[', 0);
    if o >= s.len() {
        Seq::empty()
    } else {
        let r = s.subrange(o + 1, s.len() as int);
        let c = find_from(r, ']', 0);
        if c >= r.len() {
            Seq::empty()
        } else {
            proof {
                lemma_find_from(s, '[', 0);
                lemma_find_from(r, ']', 0);
            }
            seq![trim(r.subrange(0, c))] + bracket_tokens(r.subrange(c + 1, r.len() as int))
        }
    }
}

/// The non-empty tokens of `tokens`, each kept at its first appearance
/// only.
pub open spec fn first_occurrences(tokens: Seq<Seq<char>>) -> Seq<Seq<char>>
    decreases tokens.len(),
{
    if tokens.len() == 0 {
        Seq::empty()
    } else {
        let prior = first_occurrences(tokens.drop_last());
        let t = tokens.last();
        if t.len() == 0 || prior.contains(t) {
            prior
        } else {
            prior.push(t)
        }
    }
}

/// The argument names a hint declares.
pub open spec fn argument_list(hint: Option<String>) -> Seq<Seq<char>> {
    match hint {
        Some(h) => first_occurrences(bracket_tokens(h@)),
        None => Seq::empty(),
    }
}

/// The names of a `Vec<String>`, as character sequences.
pub open spec fn names_view(names: Seq<String>) -> Seq<Seq<char>> {
    names.map_values(|n: String| n@)
}

/// Whether some appearance of `x` in `tokens` comes before every
/// appearance of `y`.
pub open spec fn appears_before(tokens: Seq<Seq<char>>, x: Seq<char>, y: Seq<char>) -> bool {
    exists|a: int|
        0 <= a < tokens.len() && #[trigger] tokens[a] == x && forall|b: int|
            0 <= b <= a ==> #[trigger] tokens[b] != y
}

/// Argument names are declared once each: the list holds no empty name
/// and no name twice, every name is a token of the hint, every non-empty
/// token of the hint is a name, and names keep the order in which their
/// tokens first appear.
pub proof fn argument_names_are_first_occurrences(tokens: Seq<Seq<char>>)
    ensures
        forall|i: int|
            0 <= i < first_occurrences(tokens).len() ==> #[trigger] first_occurrences(
                tokens,
            )[i].len() > 0,
        forall|i: int, j: int|
            0 <= i < j < first_occurrences(tokens).len() ==> first_occurrences(tokens)[i]
                != first_occurrences(tokens)[j],
        forall|i: int|
            0 <= i < first_occurrences(tokens).len() ==> tokens.contains(
                #[trigger] first_occurrences(tokens)[i],
            ),
        forall|t: Seq<char>|
            tokens.contains(t) && t.len() > 0 ==> #[trigger] first_occurrences(tokens).contains(t),
        forall|i: int, j: int|
            #![trigger first_occurrences(tokens)[i], first_occurrences(tokens)[j]]
            0 <= i < j < first_occurrences(tokens).len() ==> appears_before(
                tokens,
                first_occurrences(tokens)[i],
                first_occurrences(tokens)[j],
            ),
    decreases tokens.len(),
{
    if tokens.len() > 0 {
        let rest = tokens.drop_last();
        argument_names_are_first_occurrences(rest);
        let prior = first_occurrences(rest);
        let t = tokens.last();
        let f = first_occurrences(tokens);
        assert forall|i: int| 0 <= i < f.len() implies tokens.contains(#[trigger] f[i]) by {
            if i < prior.len() {
                let k = choose|k: int| 0 <= k < rest.len() && rest[k] == prior[i];
                assert(tokens[k] == f[i]);
            } else {
                assert(tokens[tokens.len() - 1] == f[i]);
            }
        }
        assert forall|u: Seq<char>| tokens.contains(u) && u.len() > 0 implies #[trigger] f.contains(
            u,
        ) by {
            let k = choose|k: int| 0 <= k < tokens.len() && tokens[k] == u;
            if k < rest.len() {
                assert(rest[k] == u);
                assert(rest.contains(u));
                assert(prior.contains(u));
                let m = choose|m: int| 0 <= m < prior.len() && prior[m] == u;
                assert(f[m] == u);
            } else {
                if prior.contains(u) {
                    let m = choose|m: int| 0 <= m < prior.len() && prior[m] == u;
                    assert(f[m] == u);
                } else {
                    assert(f[f.len() - 1] == u);
                }
            }
        }
        assert forall|i: int, j: int|
            #![trigger f[i], f[j]]
            0 <= i < j < f.len() implies appears_before(tokens, f[i], f[j]) by {
            if j < prior.len() {
                assert(appears_before(rest, prior[i], prior[j]));
                let a = choose|a: int|
                    0 <= a < rest.len() && #[trigger] rest[a] == prior[i] && forall|b: int|
                        0 <= b <= a ==> #[trigger] rest[b] != prior[j];
                assert forall|b: int| 0 <= b <= a implies #[trigger] tokens[b] != f[j] by {
                    assert(tokens[b] == rest[b]);
                }
                assert(tokens[a] == f[i]);
            } else {
                assert(rest.contains(prior[i]));
                let k = choose|k: int| 0 <= k < rest.len() && rest[k] == prior[i];
                assert(tokens[k] == f[i]);
                assert forall|b: int| 0 <= b <= k implies #[trigger] tokens[b] != f[j] by {
                    assert(tokens[b] == rest[b]);
                    if rest[b] == t {
                        assert(rest.contains(t));
                    }
                }
            }
        }
        assert forall|i: int, j: int| 0 <= i < j < f.len() implies f[i] != f[j] by {
            if j >= prior.len() {
                assert(f[i] == prior[i]);
                if f[i] == f[j] {
                    assert(prior.contains(t));
                }
            }
        }
    }
}

/// Scanning a suffix: the tokens of `s` are those before `pos` followed by
/// the tokens of `s[pos..]`, advanced by one bracketed group.
proof fn lemma_bracket_step(s: Seq<char>, pos: int, o: int, c: int)
    requires
        0 <= pos <= s.len(),
        o == find_from(s, '[', pos),
        o < s.len(),
        c == find_from(s, ']', o + 1),
    ensures
        ({
            let tail = s.subrange(pos, s.len() as int);
            if c >= s.len() {
                bracket_tokens(tail) == Seq::<Seq<char>>::empty()
            } else {
                bracket_tokens(tail) == seq![trim(s.subrange(o + 1, c))] + bracket_tokens(
                    s.subrange(c + 1, s.len() as int),
                )
            }
        }),
{
    let tail = s.subrange(pos, s.len() as int);
    lemma_find_from(s, '[', pos);
    lemma_find_from_suffix(s, '[', pos, 0);
    let r = tail.subrange(o - pos + 1, tail.len() as int);
    assert(r =~= s.subrange(o + 1, s.len() as int));
    lemma_find_from(s, ']', o + 1);
    lemma_find_from_suffix(s, ']', o + 1, 0);
    if c < s.len() {
        assert(r.subrange(0, c - o - 1) =~= s.subrange(o + 1, c));
        assert(r.subrange(c - o, r.len() as int) =~= s.subrange(c + 1, s.len() as int));
    }
}

impl Frontmatter {
    /// Argument names extracted from the bracketed tokens of
    /// `argument-hint`, in order of first appearance, deduplicated
    /// (alternative-syntax hints like `add [tag] | remove [tag]`
    /// declare each argument once).
    pub fn argument_names(&self) -> (names: Vec<String>)
        ensures
            names_view(names@) == argument_list(self.argument_hint),
    {
        let mut names: Vec<String> = Vec::new();
        let hint = match &self.argument_hint {
            Some(hint) => hint,
            None => {
                assert(names_view(names@) =~= Seq::<Seq<char>>::empty());
                return names;
            },
        };
        let v = chars_of(hint.as_str());
        let ghost all = bracket_tokens(v@);
        let ghost mut done: Seq<Seq<char>> = Seq::empty();
        let mut pos: usize = 0;
        assert(v@.subrange(0, v@.len() as int) =~= v@);
        assert(names_view(names@) =~= Seq::<Seq<char>>::empty());
        while pos < v.len()
            invariant
                pos <= v@.len(),
                v@ == hint@,
                all == bracket_tokens(v@),
                all == done + bracket_tokens(v@.subrange(pos as int, v@.len() as int)),
                names_view(names@) == first_occurrences(done),
            ensures
                all == done,
                names_view(names@) == first_occurrences(done),
            decreases v@.len() - pos,
        {
            let o = find_char(&v, '[', pos);
            if o >= v.len() {
                proof {
                    lemma_find_from_suffix(v@, '[', pos as int, 0);
                    assert(bracket_tokens(v@.subrange(pos as int, v@.len() as int)) =~= Seq::<
                        Seq<char>,
                    >::empty());
                    assert(done + Seq::<Seq<char>>::empty() =~= done);
                }
                break;
            }
            let c = find_char(&v, ']', o + 1);
            proof {
                lemma_find_from(v@, '[', pos as int);
                lemma_bracket_step(v@, pos as int, o as int, c as int);
                lemma_find_from(v@, ']', o + 1);
            }
            if c >= v.len() {
                assert(done + Seq::<Seq<char>>::empty() =~= done);
                break;
            }
            let (a, b) = trim_bounds(&v, o + 1, c);
            let token = string_of_range(&v, a, b);
            let ghost t = trim(v@.subrange(o + 1, c as int));
            assert(token@ == t);
            let mut seen = false;
            let mut j: usize = 0;
            while j < names.len()
                invariant
                    j <= names@.len(),
                    seen == exists|m: int| 0 <= m < j && names@[m]@ == token@,
                decreases names@.len() - j,
            {
                if names[j] == token {
                    seen = true;
                }
                j = j + 1;
            }
            proof {
                let prior = first_occurrences(done);
                let nv = names_view(names@);
                assert(seen == prior.contains(t)) by {
                    if seen {
                        let m = choose|m: int| 0 <= m < j && names@[m]@ == token@;
                        assert(nv[m] == t);
                    }
                    if prior.contains(t) {
                        let m = choose|m: int| 0 <= m < prior.len() && prior[m] == t;
                        assert(names@[m]@ == nv[m]);
                    }
                }
                assert(done.push(t).drop_last() =~= done);
                assert(all =~= done.push(t) + bracket_tokens(
                    v@.subrange(c + 1, v@.len() as int),
                ));
            }
            if b > a && !seen {
                names.push(token);
                assert(names_view(names@) =~= first_occurrences(done).push(t));
            }
            proof {
                done = done.push(t);
            }
            pos = c + 1;
        }
        names
    }
}

// ---------------------------------------------------------------------
// The frontmatter block
// ---------------------------------------------------------------------

/// The delimiter `---`.
pub open spec fn dashes() -> Seq<char> {
    seq!['-', '-', '-']
}

/// Length of the opening delimiter line (`---` followed directly by
/// `\r\n` or `\n`), when the document opens with one.
pub open spec fn opening_len(md: Seq<char>) -> Option<int> {
    if starts_with(md, seq!['-', '-', '-', '\r', '\n']) {
        Some(5)
    } else if starts_with(md, seq!['-', '-', '-', '\n']) {
        Some(4)
    } else {
        None
    }
}

/// A line that closes the block: exactly `---` once trailing whitespace
/// (including the line break) is removed.
pub open spec fn is_delimiter_line(line: Seq<char>) -> bool {
    trim_end(line) == dashes()
}

/// Start of the first closing line of `body` at or after the line
/// starting at `i`, when there is one.
pub open spec fn closing_line_from(body: Seq<char>, i: int) -> Option<int>
    decreases body.len() - i,
{
    if i < 0 || i >= body.len() {
        None
    } else if is_delimiter_line(body.subrange(i, line_end(body, i))) {
        Some(i)
    } else {
        proof {
            lemma_line_end(body, i);
        }
        closing_line_from(body, line_end(body, i))
    }
}

/// The frontmatter YAML and the rest of the document, when `md` opens
/// with a well-delimited `---` block.
pub open spec fn block_parts(md: Seq<char>) -> Option<(Seq<char>, Seq<char>)> {
    match opening_len(md) {
        None => None,
        Some(k) => {
            let body = md.subrange(k, md.len() as int);
            match closing_line_from(body, 0) {
                None => None,
                Some(i) => Some(
                    (body.subrange(0, i), body.subrange(line_end(body, i), body.len() as int)),
                ),
            }
        },
    }
}

/// `s` without its leading `\r` and `\n` characters.
pub open spec fn trim_line_breaks(s: Seq<char>) -> Seq<char>
    decreases s.len(),
{
    if s.len() > 0 && (s[0] == '\r' || s[0] == '\n') {
        trim_line_breaks(s.drop_first())
    } else {
        s
    }
}

/// The document without its frontmatter block and the line breaks that
/// follow it; the document itself when it has no well-delimited block.
pub open spec fn stripped(md: Seq<char>) -> Seq<char> {
    match block_parts(md) {
        Some((_, rest)) => trim_line_breaks(rest),
        None => md,
    }
}

proof fn lemma_closing_line_from(body: Seq<char>, i: int)
    requires
        0 <= i <= body.len(),
    ensures
        closing_line_from(body, i) matches Some(j) ==> i <= j < body.len() && is_delimiter_line(
            body.subrange(j, line_end(body, j)),
        ),
    decreases body.len() - i,
{
    if i < body.len() && !is_delimiter_line(body.subrange(i, line_end(body, i))) {
        lemma_line_end(body, i);
        lemma_closing_line_from(body, line_end(body, i));
    }
}

proof fn lemma_trim_line_breaks_at(s: Seq<char>, k: int)
    requires
        0 <= k <= s.len(),
        forall|j: int| 0 <= j < k ==> (#[trigger] s[j] == '\r' || s[j] == '\n'),
        k == s.len() || (s[k] != '\r' && s[k] != '\n'),
    ensures
        trim_line_breaks(s) == s.subrange(k, s.len() as int),
    decreases k,
{
    if k == 0 {
        assert(s.subrange(0, s.len() as int) =~= s);
    } else {
        let t = s.drop_first();
        assert forall|j: int| 0 <= j < k - 1 implies (#[trigger] t[j] == '\r' || t[j] == '\n') by {
            assert(t[j] == s[j + 1]);
        }
        lemma_trim_line_breaks_at(t, k - 1);
        assert(t.subrange(k - 1, t.len() as int) =~= s.subrange(k, s.len() as int));
    }
}

proof fn lemma_trim_line_breaks_suffix(s: Seq<char>)
    ensures
        trim_line_breaks(s).len() <= s.len(),
        trim_line_breaks(s) == s.subrange(s.len() - trim_line_breaks(s).len(), s.len() as int),
    decreases s.len(),
{
    if s.len() > 0 && (s[0] == '\r' || s[0] == '\n') {
        lemma_trim_line_breaks_suffix(s.drop_first());
        assert(s.drop_first().subrange(
            s.drop_first().len() - trim_line_breaks(s).len(),
            s.drop_first().len() as int,
        ) =~= s.subrange(s.len() - trim_line_breaks(s).len(), s.len() as int));
    } else {
        assert(s.subrange(0, s.len() as int) =~= s);
    }
}

/// Every line that the walk from `i` passes over before the closing
/// line it finds is no closing line, and that closing line begins a
/// line of its own.
proof fn lemma_lines_before_closing(body: Seq<char>, i: int)
    requires
        0 <= i <= body.len(),
    ensures
        closing_line_from(body, i) matches Some(c) ==> {
            &&& (c > i ==> body[c - 1] == '\n')
            &&& forall|j: int|
                i <= j < c && (j == i || body[j - 1] == '\n') ==> !is_delimiter_line(
                    #[trigger] body.subrange(j, line_end(body, j)),
                )
        },
    decreases body.len() - i,
{
    if i < body.len() && !is_delimiter_line(body.subrange(i, line_end(body, i))) {
        let next = line_end(body, i);
        lemma_line_end(body, i);
        lemma_lines_before_closing(body, next);
        if let Some(c) = closing_line_from(body, i) {
            lemma_closing_line_from(body, next);
            assert forall|j: int|
                i <= j < c && (j == i || body[j - 1] == '\n') implies !is_delimiter_line(
                #[trigger] body.subrange(j, line_end(body, j)),
            ) by {
                if j != i {
                    assert(j >= next);
                }
            }
        }
    }
}

/// Inside a prefix that ends just after a `'\n'`, a line ends where it
/// ends in the whole text.
proof fn lemma_line_end_prefix(body: Seq<char>, c: int, j: int)
    requires
        0 <= j < c <= body.len(),
        body[c - 1] == '\n',
    ensures
        find_from(body.subrange(0, c), '\n', j) == find_from(body, '\n', j),
        find_from(body, '\n', j) < c,
        line_end(body.subrange(0, c), j) == line_end(body, j),
        line_end(body, j) <= c,
        body.subrange(0, c).subrange(j, line_end(body, j)) == body.subrange(j, line_end(body, j)),
    decreases c - j,
{
    let yaml = body.subrange(0, c);
    assert(yaml[j] == body[j]);
    if body[j] != '\n' {
        lemma_line_end_prefix(body, c, j + 1);
    }
    lemma_find_from(body, '\n', j);
    let e = line_end(body, j);
    assert(e == find_from(body, '\n', j) + 1);
    assert(yaml.subrange(j, e) =~= body.subrange(j, e));
}

/// A well-delimited block splits the document into four consecutive
/// parts: the opening `---` line, the YAML, the closing `---` line and
/// the rest; no line of the YAML is itself a closing line.
pub proof fn block_partition(md: Seq<char>)
    ensures
        block_parts(md) matches Some((yaml, rest)) ==> forall|j: int|
            0 <= j < yaml.len() && (j == 0 || yaml[j - 1] == '\n') ==> !is_delimiter_line(
                #[trigger] yaml.subrange(j, line_end(yaml, j)),
            ),
        block_parts(md) matches Some((yaml, rest)) ==> exists|open: Seq<char>, close: Seq<char>|
            {
                &&& (open == seq!['-', '-', '-', '\n'] || open == seq![
                    '-',
                    '-',
                    '-',
                    '\r',
                    '\n',
                ])
                &&& is_delimiter_line(close)
                &&& md == open + yaml + close + rest
                &&& (yaml.len() == 0 || yaml.last() == '\n')
                &&& close.len() > 0
                &&& forall|x: int| 0 <= x < close.len() - 1 ==> close[x] != '\n'
                &&& (rest.len() == 0 || close.last() == '\n')
            },
{
    if let Some((yaml, rest)) = block_parts(md) {
        let k = opening_len(md)->0;
        let body = md.subrange(k, md.len() as int);
        let i = closing_line_from(body, 0)->0;
        lemma_closing_line_from(body, 0);
        lemma_line_end(body, i);
        let open = md.subrange(0, k);
        let close = body.subrange(i, line_end(body, i));
        assert(md =~= open + yaml + close + rest);
        lemma_lines_before_closing(body, 0);
        assert forall|x: int| 0 <= x < close.len() - 1 implies close[x] != '\n' by {
            assert(close[x] == body[i + x]);
        }
        if i > 0 {
            assert(yaml.last() == body[i - 1]);
        }
        if rest.len() > 0 {
            assert(close.last() == body[line_end(body, i) - 1]);
        }
        assert forall|j: int|
            0 <= j < yaml.len() && (j == 0 || yaml[j - 1] == '\n') implies !is_delimiter_line(
            #[trigger] yaml.subrange(j, line_end(yaml, j)),
        ) by {
            lemma_line_end_prefix(body, i, j);
            assert(j == 0 || body[j - 1] == '\n');
            assert(!is_delimiter_line(body.subrange(j, line_end(body, j))));
        }
        if k == 4 {
            assert(open =~= seq!['-', '-', '-', '\n']);
        } else {
            assert(open =~= seq!['-', '-', '-', '\r', '\n']);
        }
    }
}

/// Whether the line of `md` that starts at `p`, after the opening line
/// of length `k`, closes the block.
pub open spec fn closes_block_at(md: Seq<char>, k: int, p: int) -> bool {
    &&& k <= p < md.len()
    &&& (p == k || md[p - 1] == '\n')
    &&& is_delimiter_line(md.subrange(p, line_end(md, p)))
}

/// A document that opens with a `---` line has a block exactly when
/// some later line is `---` (up to trailing whitespace), whatever the
/// lines in between hold.
pub proof fn block_found_iff_closing_line(md: Seq<char>)
    ensures
        opening_len(md) matches Some(k) ==> (block_parts(md) is Some <==> exists|p: int|
            closes_block_at(md, k, p)),
        opening_len(md) is None ==> block_parts(md) is None,
        opening_len(md) is Some <==> (starts_with(md, seq!['-', '-', '-', '\n']) || starts_with(
            md,
            seq!['-', '-', '-', '\r', '\n'],
        )),
{
    if starts_with(md, seq!['-', '-', '-', '\n']) && starts_with(
        md,
        seq!['-', '-', '-', '\r', '\n'],
    ) {
        assert(md.subrange(0, 4)[3] == md.subrange(0, 5)[3]);
    }
    if let Some(k) = opening_len(md) {
        let body = md.subrange(k, md.len() as int);
        assert forall|p: int| k <= p < md.len() implies line_end(md, p) == line_end(body, p - k)
            + k && md.subrange(p, line_end(md, p)) == body.subrange(p - k, line_end(body, p - k))
            by {
            lemma_find_from_suffix(md, '\n', k, p - k);
            lemma_line_end(body, p - k);
            assert(md.subrange(p, line_end(md, p)) =~= body.subrange(p - k, line_end(body, p - k)));
        }
        if block_parts(md) is Some {
            let c = closing_line_from(body, 0)->0;
            lemma_closing_line_from(body, 0);
            lemma_lines_before_closing(body, 0);
            assert(closes_block_at(md, k, c + k));
        }
        if exists|p: int| closes_block_at(md, k, p) {
            let p = choose|p: int| closes_block_at(md, k, p);
            if p > k {
                assert(body[p - k - 1] == md[p - 1]);
            }
            lemma_closing_found(body, 0, p - k);
        }
    }
}

/// The walk from `i0` finds a closing line when a closing line begins a
/// line at or after `i0`.
proof fn lemma_closing_found(body: Seq<char>, i0: int, i: int)
    requires
        0 <= i0 <= i < body.len(),
        i == i0 || body[i - 1] == '\n',
        is_delimiter_line(body.subrange(i, line_end(body, i))),
    ensures
        closing_line_from(body, i0) is Some,
    decreases body.len() - i0,
{
    if !is_delimiter_line(body.subrange(i0, line_end(body, i0))) {
        lemma_line_end(body, i0);
        let next = line_end(body, i0);
        assert(i >= next);
        lemma_closing_found(body, next, i);
    }
}

proof fn lemma_trim_line_breaks_shape(s: Seq<char>)
    ensures
        trim_line_breaks(s).len() <= s.len(),
        trim_line_breaks(s) == s.subrange(s.len() - trim_line_breaks(s).len(), s.len() as int),
        forall|x: int|
            0 <= x < s.len() - trim_line_breaks(s).len() ==> (#[trigger] s[x] == '\r' || s[x]
                == '\n'),
        trim_line_breaks(s).len() > 0 ==> trim_line_breaks(s)[0] != '\r' && trim_line_breaks(
            s,
        )[0] != '\n',
    decreases s.len(),
{
    lemma_trim_line_breaks_suffix(s);
    if s.len() > 0 && (s[0] == '\r' || s[0] == '\n') {
        let t = s.drop_first();
        lemma_trim_line_breaks_shape(t);
        assert forall|x: int| 0 <= x < s.len() - trim_line_breaks(s).len() implies (
        #[trigger] s[x] == '\r' || s[x] == '\n') by {
            if x > 0 {
                assert(s[x] == t[x - 1]);
            }
        }
    }
}

/// Stripping removes exactly the block and the line breaks that follow
/// it: what is left is the rest of the document after the closing line,
/// less its leading `\r` and `\n` characters, and it does not begin
/// with one; a document without a block is kept whole.
pub proof fn strip_removes_block_and_line_breaks(md: Seq<char>)
    ensures
        block_parts(md) is None ==> stripped(md) == md,
        block_parts(md) matches Some((yaml, rest)) ==> {
            &&& stripped(md).len() <= rest.len()
            &&& rest == rest.subrange(0, rest.len() - stripped(md).len()) + stripped(md)
            &&& forall|x: int|
                0 <= x < rest.len() - stripped(md).len() ==> (#[trigger] rest[x] == '\r' || rest[x]
                    == '\n')
            &&& (stripped(md).len() > 0 ==> stripped(md)[0] != '\r' && stripped(md)[0] != '\n')
        },
{
    if let Some((yaml, rest)) = block_parts(md) {
        lemma_trim_line_breaks_shape(rest);
        let n = rest.len() - stripped(md).len();
        assert(rest =~= rest.subrange(0, n) + rest.subrange(n, rest.len() as int));
    }
}

/// Stripping only ever removes a prefix: the result is a suffix of the
/// document.
pub proof fn stripped_is_suffix(md: Seq<char>)
    ensures
        stripped(md).len() <= md.len(),
        stripped(md) == md.subrange(md.len() - stripped(md).len(), md.len() as int),
{
    match block_parts(md) {
        Some((_, rest)) => {
            let k = opening_len(md)->0;
            let body = md.subrange(k, md.len() as int);
            let i = closing_line_from(body, 0)->0;
            lemma_closing_line_from(body, 0);
            lemma_line_end(body, i);
            lemma_trim_line_breaks_suffix(rest);
            let n = stripped(md).len();
            assert(md.subrange(md.len() - n, md.len() as int) =~= rest.subrange(
                rest.len() - n,
                rest.len() as int,
            ));
        },
        None => {
            assert(md.subrange(0, md.len() as int) =~= md);
        },
    }
}

/// A copy of `v[from..to]`.
fn vec_range(v: &Vec<char>, from: usize, to: usize) -> (r: Vec<char>)
    requires
        from <= to <= v@.len(),
    ensures
        r@ == v@.subrange(from as int, to as int),
{
    let mut r: Vec<char> = Vec::new();
    let mut i = from;
    while i < to
        invariant
            from <= i <= to <= v@.len(),
            r@ == v@.subrange(from as int, i as int),
        decreases to - i,
    {
        r.push(v[i]);
        i = i + 1;
        assert(r@ =~= v@.subrange(from as int, i as int));
    }
    r
}

/// Split `markdown` into its frontmatter YAML and the rest of the
/// document, or `None` when the document does not open with a
/// well-delimited `---` block.
///
/// The block opens with a line that is exactly `---` and runs up to the
/// first line that is exactly `---` modulo trailing whitespace.
pub fn split(markdown: &str) -> (res: Option<(&str, &str)>)
    ensures
        match res {
            Some((yaml, rest)) => block_parts(markdown@) == Some((yaml@, rest@)),
            None => block_parts(markdown@) is None,
        },
{
    let v = chars_of(markdown);
    let open5: Vec<char> = vec!['-', '-', '-', '\r', '\n'];
    let open4: Vec<char> = vec!['-', '-', '-', '\n'];
    let k: usize = if occurs_at_exec(&v, 0, &open5) {
        5
    } else if occurs_at_exec(&v, 0, &open4) {
        4
    } else {
        return None;
    };
    assert(open5@ =~= seq!['-', '-', '-', '\r', '\n']);
    assert(open4@ =~= seq!['-', '-', '-', '\n']);
    assert(opening_len(markdown@) == Some(k as int));
    let body = vec_range(&v, k, v.len());
    let mut i: usize = 0;
    while i < body.len()
        invariant
            i <= body@.len(),
            v@ == markdown@,
            k <= v@.len(),
            k + body@.len() == v.len(),
            opening_len(markdown@) == Some(k as int),
            body@ == markdown@.subrange(k as int, markdown@.len() as int),
            closing_line_from(body@, 0) == closing_line_from(body@, i as int),
        decreases body@.len() - i,
    {
        let e = line_end_at(&body, i);
        let t = back_white(&body, i, e);
        if t - i == 3 && body[i] == '-' && body[i + 1] == '-' && body[i + 2] == '-' {
            assert(trim_end(body@.subrange(i as int, e as int)) =~= dashes());
            assert(closing_line_from(body@, i as int) == Some(i as int));
            let yaml = markdown.substring_char(k, k + i);
            let rest = markdown.substring_char(k + e, v.len());
            assert(yaml@ =~= body@.subrange(0, i as int));
            assert(rest@ =~= body@.subrange(e as int, body@.len() as int));
            return Some((yaml, rest));
        }
        assert(trim_end(body@.subrange(i as int, e as int)) != dashes()) by {
            if trim_end(body@.subrange(i as int, e as int)) == dashes() {
                let s2 = body@.subrange(i as int, t as int);
                assert(s2 == dashes());
                assert(s2.len() == 3);
                assert(s2[0] == '-' && s2[1] == '-' && s2[2] == '-');
                assert(s2[0] == body@[i as int]);
                assert(s2[1] == body@[i + 1]);
                assert(s2[2] == body@[i + 2]);
            }
        }
        i = e;
    }
    None
}

/// Return `markdown` without its leading frontmatter block, also
/// dropping the blank lines separating the block from the body.
///
/// Stripping is structural: a well-delimited block is removed even if
/// its YAML would not parse. A document without a (well-formed) block
/// is returned unchanged.
pub fn strip(markdown: &str) -> (res: &str)
    ensures
        res@ == stripped(markdown@),
{
    match split(markdown) {
        Some((_, rest)) => {
            let r = chars_of(rest);
            let mut j: usize = 0;
            while j < r.len() && (r[j] == '\r' || r[j] == '\n')
                invariant
                    j <= r@.len(),
                    forall|m: int| 0 <= m < j ==> (#[trigger] r@[m] == '\r' || r@[m] == '\n'),
                decreases r@.len() - j,
            {
                j = j + 1;
            }
            proof {
                lemma_trim_line_breaks_at(r@, j as int);
            }
            rest.substring_char(j, r.len())
        },
        None => markdown,
    }
}

} // verus!
