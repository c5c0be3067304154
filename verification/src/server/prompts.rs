//! Argument substitution for `prompts/get`, mirroring how a skill runner
//! feeds arguments to a skill.

use vstd::prelude::*;
use crate::server::reply::{McpErrorKind, McpFailure};
use crate::server::repository::PromptEntry;
use crate::server::use_case::{use_case_message, PromptDocument, PromptsUseCaseError};
use crate::text::{
    back_white, chars_of, contains, contains_exec, occurs_at, occurs_at_exec, starts_with,
    string_of, trim_end,
};

verus! {

// ---------------------------------------------------------------------
// Specification
// ---------------------------------------------------------------------

/// The values that were provided, in declared order.
pub open spec fn provided_values(values: Seq<Option<Seq<char>>>) -> Seq<Seq<char>>
    decreases values.len(),
{
    if values.len() == 0 {
        Seq::empty()
    } else {
        let prior = provided_values(values.drop_last());
        match values.last() {
            Some(v) => prior.push(v),
            None => prior,
        }
    }
}

/// `parts` joined by single spaces.
pub open spec fn join_with_space(parts: Seq<Seq<char>>) -> Seq<char>
    decreases parts.len(),
{
    if parts.len() == 0 {
        Seq::empty()
    } else if parts.len() == 1 {
        parts[0]
    } else {
        join_with_space(parts.drop_last()) + seq![' '] + parts.last()
    }
}

/// All provided values joined by a space, in declared order: the text
/// of `$ARGUMENTS`.
pub open spec fn joined_values(values: Seq<Option<Seq<char>>>) -> Seq<char> {
    join_with_space(provided_values(values))
}

/// The decimal digit `d`.
pub open spec fn digit_char(d: nat) -> char {
    ((48 + d) as u8) as char
}

/// The decimal representation of `n`.
pub open spec fn decimal(n: nat) -> Seq<char>
    decreases n,
{
    if n < 10 {
        seq![digit_char(n)]
    } else {
        decimal(n / 10).push(digit_char(n % 10))
    }
}

/// The positional placeholder `$n`.
pub open spec fn positional(n: nat) -> Seq<char> {
    seq!['$'] + decimal(n)
}

/// The placeholder `$ARGUMENTS`.
pub open spec fn arguments_placeholder() -> Seq<char> {
    seq!['$', 'A', 'R', 'G', 'U', 'M', 'E', 'N', 'T', 'S']
}

/// Whether `body` holds `$ARGUMENTS` or one of `$1` … `$count`.
pub open spec fn has_placeholder(body: Seq<char>, count: nat) -> bool {
    ||| contains(body, arguments_placeholder())
    ||| exists|k: int| 1 <= k <= count && #[trigger] contains(body, positional(k as nat))
}

/// The text of a value, empty when it was not provided.
pub open spec fn value_text(v: Option<Seq<char>>) -> Seq<char> {
    match v {
        Some(t) => t,
        None => Seq::empty(),
    }
}

/// The highest `k` in `1..=count` whose placeholder `$k` begins `s`.
pub open spec fn positional_at(s: Seq<char>, count: nat) -> Option<nat>
    decreases count,
{
    if count == 0 {
        None
    } else if starts_with(s, positional(count)) {
        Some(count)
    } else {
        positional_at(s, (count - 1) as nat)
    }
}

/// One left-to-right scan of `s`: at each point, `$ARGUMENTS` becomes
/// `joined`; otherwise the highest declared `$k` found there becomes the
/// value of the k-th declared argument (empty when not provided); any
/// other character is kept. Inserted text is never scanned again.
pub open spec fn scan_placeholders(s: Seq<char>, values: Seq<Option<Seq<char>>>, joined: Seq<
    char,
>) -> Seq<char>
    decreases s.len(),
{
    if s.len() == 0 {
        Seq::empty()
    } else if starts_with(s, arguments_placeholder()) {
        joined + scan_placeholders(
            s.subrange(arguments_placeholder().len() as int, s.len() as int),
            values,
            joined,
        )
    } else {
        match positional_at(s, values.len()) {
            Some(k) => {
                proof {
                    lemma_positional_at(s, values.len());
                }
                value_text(values[k - 1]) + scan_placeholders(
                    s.subrange(positional(k).len() as int, s.len() as int),
                    values,
                    joined,
                )
            },
            None => seq![s[0]] + scan_placeholders(s.drop_first(), values, joined),
        }
    }
}

/// A found placeholder is a declared index that begins the text.
pub proof fn lemma_positional_at(s: Seq<char>, count: nat)
    ensures
        positional_at(s, count) matches Some(k) ==> 1 <= k <= count && starts_with(
            s,
            positional(k),
        ) && positional(k).len() >= 1,
    decreases count,
{
    if count > 0 && !starts_with(s, positional(count)) {
        lemma_positional_at(s, (count - 1) as nat);
    }
}

/// The text of `body` once the values of the declared arguments are
/// substituted:
///
/// - `$ARGUMENTS` becomes all provided values joined by a space;
/// - `$1`, `$2`, … become the value of the n-th declared argument
///   (empty when not provided), the highest declared index winning where
///   several begin at the same place (so `$1` does not clobber `$10`);
/// - values are inserted as given, never scanned for placeholders;
/// - when the body holds no placeholder and the joined values are not
///   empty, they are appended after the body (trailing whitespace
///   trimmed) and a blank line.
pub open spec fn substituted(body: Seq<char>, values: Seq<Option<Seq<char>>>) -> Seq<char> {
    let joined = joined_values(values);
    if !has_placeholder(body, values.len()) {
        if joined.len() == 0 {
            body
        } else {
            trim_end(body) + seq!['\n', '\n'] + joined + seq!['\n']
        }
    } else {
        scan_placeholders(body, values, joined)
    }
}

/// The texts of optional `String` values.
pub open spec fn texts_view(values: Seq<Option<String>>) -> Seq<Option<Seq<char>>> {
    values.map_values(
        |o: Option<String>|
            match o {
                Some(s) => Some(s@),
                None => None,
            },
    )
}

// ---------------------------------------------------------------------
// Executable parts
// ---------------------------------------------------------------------

/// The decimal digit `d`.
fn digit(d: usize) -> (c: char)
    requires
        d < 10,
    ensures
        c == digit_char(d as nat),
{
    ((48u8 + (d as u8)) as char)
}

/// The decimal representation of `n`.
pub fn decimal_chars(n: usize) -> (r: Vec<char>)
    ensures
        r@ == decimal(n as nat),
    decreases n,
{
    if n < 10 {
        vec![digit(n)]
    } else {
        let mut r = decimal_chars(n / 10);
        r.push(digit(n % 10));
        r
    }
}

/// The positional placeholder `$n`.
fn positional_chars(n: usize) -> (r: Vec<char>)
    ensures
        r@ == positional(n as nat),
{
    let mut r: Vec<char> = vec!['$'];
    let mut d = decimal_chars(n);
    r.append(&mut d);
    r
}

/// Appends `v` to `out`.
fn append_chars(out: &mut Vec<char>, v: &Vec<char>)
    ensures
        final(out)@ == old(out)@ + v@,
{
    let mut k: usize = 0;
    let ghost out0 = out@;
    while k < v.len()
        invariant
            k <= v@.len(),
            out@ == out0 + v@.subrange(0, k as int),
        decreases v@.len() - k,
    {
        out.push(v[k]);
        k = k + 1;
        assert(out@ =~= out0 + v@.subrange(0, k as int));
    }
    assert(v@.subrange(0, v@.len() as int) =~= v@);
}

/// Occurring at `i` is beginning the suffix that starts at `i`.
proof fn lemma_occurs_at_suffix(s: Seq<char>, i: int, p: Seq<char>)
    requires
        0 <= i <= s.len(),
    ensures
        occurs_at(s, i, p) == starts_with(s.subrange(i, s.len() as int), p),
{
    let t = s.subrange(i, s.len() as int);
    if occurs_at(s, i, p) {
        assert(t.subrange(0, p.len() as int) =~= s.subrange(i, i + p.len()));
    }
    if starts_with(t, p) {
        assert(t.subrange(0, p.len() as int) =~= s.subrange(i, i + p.len()));
    }
}

/// The highest `k` (or 0 for none) in `1..=pats.len()` whose placeholder
/// `pats[k - 1]` occurs in `b` at `i`.
fn positional_at_exec(b: &Vec<char>, i: usize, pats: &Vec<Vec<char>>) -> (r: usize)
    requires
        i <= b@.len(),
        forall|m: int| 0 <= m < pats@.len() ==> (#[trigger] pats@[m])@ == positional((m + 1) as nat),
    ensures
        r == match positional_at(b@.subrange(i as int, b@.len() as int), pats@.len() as nat) {
            Some(k) => k as int,
            None => 0,
        },
{
    let ghost s = b@.subrange(i as int, b@.len() as int);
    let mut k = pats.len();
    while k > 0
        invariant
            k <= pats@.len(),
            i <= b@.len(),
            s == b@.subrange(i as int, b@.len() as int),
            forall|m: int| 0 <= m < pats@.len() ==> (#[trigger] pats@[m])@ == positional((m + 1) as nat),
            positional_at(s, pats@.len() as nat) == positional_at(s, k as nat),
        decreases k,
    {
        let found = occurs_at_exec(b, i, &pats[k - 1]);
        proof {
            lemma_occurs_at_suffix(b@, i as int, pats@[k - 1]@);
            assert(pats@[k - 1]@ == positional(k as nat));
        }
        if found {
            return k;
        }
        k = k - 1;
    }
    0
}

/// All provided values joined by a space.
fn join_provided(values: &Vec<Option<Vec<char>>>) -> (r: Vec<char>)
    ensures
        r@ == joined_values(
            values@.map_values(
                |o: Option<Vec<char>>|
                    match o {
                        Some(v) => Some(v@),
                        None => None,
                    },
            ),
        ),
{
    let ghost view = values@.map_values(
        |o: Option<Vec<char>>|
            match o {
                Some(v) => Some(v@),
                None => None,
            },
    );
    let mut out: Vec<char> = Vec::new();
    let mut any = false;
    let mut i: usize = 0;
    assert(view.subrange(0, 0) =~= Seq::<Option<Seq<char>>>::empty());
    while i < values.len()
        invariant
            i <= values@.len(),
            view.len() == values@.len(),
            forall|m: int| 0 <= m < values@.len() ==> #[trigger] view[m] == match values@[m] {
                Some(v) => Some(v@),
                None => None::<Seq<char>>,
            },
            out@ == join_with_space(provided_values(view.subrange(0, i as int))),
            any == (provided_values(view.subrange(0, i as int)).len() > 0),
        decreases values@.len() - i,
    {
        let ghost prefix = view.subrange(0, i as int);
        assert(view.subrange(0, i + 1).drop_last() =~= prefix);
        match &values[i] {
            Some(v) => {
                let ghost p = provided_values(prefix);
                assert(provided_values(view.subrange(0, i + 1)) == p.push(v@));
                assert(p.push(v@).drop_last() =~= p);
                if any {
                    out.push(' ');
                }
                let mut k: usize = 0;
                let ghost out0 = out@;
                while k < v.len()
                    invariant
                        k <= v@.len(),
                        out@ == out0 + v@.subrange(0, k as int),
                    decreases v@.len() - k,
                {
                    out.push(v[k]);
                    k = k + 1;
                    assert(out@ =~= out0 + v@.subrange(0, k as int));
                }
                assert(v@.subrange(0, v@.len() as int) =~= v@);
                proof {
                    if p.len() == 0 {
                        assert(p.push(v@).len() == 1);
                        assert(out@ =~= v@);
                    } else {
                        assert(out@ =~= join_with_space(p) + seq![' '] + v@);
                    }
                }
                any = true;
            },
            None => {
                assert(provided_values(view.subrange(0, i + 1)) == provided_values(prefix));
            },
        }
        i = i + 1;
    }
    assert(view.subrange(0, values@.len() as int) =~= view);
    out
}

/// Substitute argument values into `body`: `values[n]` is the text of
/// the value given for the n-th declared argument, `None` when none was
/// given. See [`substituted`] for the rules.
pub fn substitute_values(body: &str, values: &Vec<Option<String>>) -> (res: String)
    ensures
        res@ == substituted(body@, texts_view(values@)),
{
    let ghost tv = texts_view(values@);
    let b = chars_of(body);
    let mut vals: Vec<Option<Vec<char>>> = Vec::new();
    let mut i: usize = 0;
    while i < values.len()
        invariant
            i <= values@.len(),
            vals@.len() == i,
            tv == texts_view(values@),
            forall|m: int| 0 <= m < i ==> #[trigger] tv[m] == match vals@[m] {
                Some(v) => Some(v@),
                None => None::<Seq<char>>,
            },
        decreases values@.len() - i,
    {
        match &values[i] {
            Some(s) => vals.push(Some(chars_of(s.as_str()))),
            None => vals.push(None),
        }
        i = i + 1;
    }
    let ghost vview = vals@.map_values(
        |o: Option<Vec<char>>|
            match o {
                Some(v) => Some(v@),
                None => None,
            },
    );
    assert(vview =~= tv) by {
        assert forall|m: int| 0 <= m < tv.len() implies vview[m] == tv[m] by {
            match vals@[m] {
                Some(v) => {},
                None => {},
            }
        }
    }
    let joined = join_provided(&vals);
    // Is there any placeholder?
    let args_pat: Vec<char> = vec!['$', 'A', 'R', 'G', 'U', 'M', 'E', 'N', 'T', 'S'];
    assert(args_pat@ =~= arguments_placeholder());
    let mut found = contains_exec(&b, &args_pat);
    let mut m: usize = 0;
    while m < vals.len() && !found
        invariant
            m <= vals@.len(),
            vals@.len() == tv.len(),
            found ==> has_placeholder(b@, tv.len()),
            !found ==> !contains(b@, arguments_placeholder()) && forall|j: int|
                1 <= j <= m ==> !#[trigger] contains(b@, positional(j as nat)),
        decreases vals@.len() - m,
    {
        let p = positional_chars(m + 1);
        if contains_exec(&b, &p) {
            assert(contains(b@, positional((m + 1) as nat)));
            assert(has_placeholder(b@, tv.len()));
            found = true;
        }
        m = m + 1;
    }
    assert(found == has_placeholder(b@, tv.len()));
    if !found {
        if joined.len() == 0 {
            return string_of(&b);
        }
        let e = back_white(&b, 0, b.len());
        assert(b@.subrange(0, b@.len() as int) =~= b@);
        let mut out = crate::text::string_of_range(&b, 0, e);
        crate::text::push_char(&mut out, '\n');
        crate::text::push_char(&mut out, '\n');
        crate::text::push_range(&mut out, &joined, 0, joined.len());
        crate::text::push_char(&mut out, '\n');
        assert(joined@.subrange(0, joined@.len() as int) =~= joined@);
        assert(out@ =~= trim_end(b@) + seq!['\n', '\n'] + joined@ + seq!['\n']);
        return out;
    }
    let mut pats: Vec<Vec<char>> = Vec::new();
    let mut m: usize = 0;
    while m < vals.len()
        invariant
            m <= vals@.len(),
            pats@.len() == m,
            forall|j: int| 0 <= j < m ==> (#[trigger] pats@[j])@ == positional((j + 1) as nat),
        decreases vals@.len() - m,
    {
        pats.push(positional_chars(m + 1));
        m = m + 1;
    }
    let empty: Vec<char> = Vec::new();
    let mut out: Vec<char> = Vec::new();
    let mut i: usize = 0;
    assert(b@.subrange(0, b@.len() as int) =~= b@);
    while i < b.len()
        invariant
            i <= b@.len(),
            pats@.len() == vals@.len(),
            vals@.len() == tv.len(),
            empty@.len() == 0,
            args_pat@ == arguments_placeholder(),
            forall|j: int| 0 <= j < pats@.len() ==> (#[trigger] pats@[j])@ == positional((j + 1) as nat),
            forall|j: int| 0 <= j < vals@.len() ==> #[trigger] tv[j] == match vals@[j] {
                Some(v) => Some(v@),
                None => None::<Seq<char>>,
            },
            scan_placeholders(b@, tv, joined@) == out@ + scan_placeholders(
                b@.subrange(i as int, b@.len() as int),
                tv,
                joined@,
            ),
        decreases b@.len() - i,
    {
        let ghost t = b@.subrange(i as int, b@.len() as int);
        let ghost out0 = out@;
        let is_args = occurs_at_exec(&b, i, &args_pat);
        proof {
            lemma_occurs_at_suffix(b@, i as int, args_pat@);
        }
        if is_args {
            append_chars(&mut out, &joined);
            assert(arguments_placeholder().len() == 10);
            assert(t.len() > 0);
            assert(scan_placeholders(t, tv, joined@) == joined@ + scan_placeholders(
                t.subrange(10, t.len() as int),
                tv,
                joined@,
            ));
            assert(t.subrange(10, t.len() as int) =~= b@.subrange(i + 10, b@.len() as int));
            assert(out@ + scan_placeholders(b@.subrange(i + 10, b@.len() as int), tv, joined@)
                =~= out0 + (joined@ + scan_placeholders(
                b@.subrange(i + 10, b@.len() as int),
                tv,
                joined@,
            )));
            i = i + 10;
        } else {
            let k = positional_at_exec(&b, i, &pats);
            if k > 0 {
                proof {
                    lemma_positional_at(t, tv.len());
                }
                let with = match &vals[k - 1] {
                    Some(v) => v,
                    None => &empty,
                };
                assert(with@ == value_text(tv[k - 1])) by {
                    if vals@[k - 1] is None {
                        assert(with@ =~= Seq::<char>::empty());
                    }
                }
                append_chars(&mut out, with);
                let n = pats[k - 1].len();
                assert(pats@[k - 1]@ == positional(k as nat));
                assert(t.len() > 0);
                assert(positional_at(t, tv.len()) == Some(k as nat));
                assert(scan_placeholders(t, tv, joined@) == value_text(tv[k - 1])
                    + scan_placeholders(t.subrange(n as int, t.len() as int), tv, joined@));
                assert(t.subrange(n as int, t.len() as int) =~= b@.subrange(i + n, b@.len() as int));
                assert(out@ + scan_placeholders(b@.subrange(i + n, b@.len() as int), tv, joined@)
                    =~= out0 + (with@ + scan_placeholders(
                    b@.subrange(i + n, b@.len() as int),
                    tv,
                    joined@,
                )));
                i = i + n;
            } else {
                out.push(b[i]);
                proof {
                    lemma_positional_at(t, tv.len());
                }
                assert(positional_at(t, tv.len()) is None);
                assert(scan_placeholders(t, tv, joined@) == seq![t[0]] + scan_placeholders(
                    t.drop_first(),
                    tv,
                    joined@,
                ));
                assert(t.drop_first() =~= b@.subrange(i + 1, b@.len() as int));
                assert(out@ + scan_placeholders(b@.subrange(i + 1, b@.len() as int), tv, joined@)
                    =~= out0 + (seq![b@[i as int]] + scan_placeholders(
                    b@.subrange(i + 1, b@.len() as int),
                    tv,
                    joined@,
                )));
                i = i + 1;
            }
        }
    }
    assert(b@.subrange(i as int, b@.len() as int) =~= Seq::<char>::empty());
    assert(out@ + Seq::<char>::empty() =~= out@);
    string_of(&out)
}

// ---------------------------------------------------------------------
// Arguments as an MCP client sends them
// ---------------------------------------------------------------------

/// The JSON object of a `prompts/get` request's `arguments`.
#[verifier::external_type_specification]
#[verifier::external_body]
#[verifier::reject_recursive_types(K)]
#[verifier::reject_recursive_types(V)]
pub struct ExJsonObject<K, V>(serde_json::Map<K, V>);

/// A JSON value.
#[verifier::external_type_specification]
#[verifier::external_body]
pub struct ExJsonValue(serde_json::Value);

/// What a JSON object holds: each key mapped to its value.
pub uninterp spec fn json_object_entries(
    object: serde_json::Map<String, serde_json::Value>,
) -> Map<Seq<char>, serde_json::Value>;

/// The value stored under `name` in `object` (`serde_json::Map::get`).
/// The contract claims that a value is found exactly when the object
/// holds the key, and that it is the value held there.
#[verifier::external_body]
fn json_get<'a>(object: &'a serde_json::Map<String, serde_json::Value>, name: &String) -> (res:
    Option<&'a serde_json::Value>)
    ensures
        res is Some <==> json_object_entries(*object).dom().contains(name@),
        res matches Some(v) ==> *v == json_object_entries(*object)[name@],
{
    object.get(name.as_str())
}

/// The text of a JSON string value; `None` for a value of any other
/// kind.
pub uninterp spec fn json_string(value: serde_json::Value) -> Option<Seq<char>>;

/// The text of `value` when it is a JSON string (`Value::as_str`). The
/// contract claims that the result is the one [`json_string`] names;
/// which values are strings is not stated beyond that name.
#[verifier::external_body]
fn json_as_str(value: &serde_json::Value) -> (res: Option<&str>)
    ensures
        res is Some <==> json_string(*value) is Some,
        res matches Some(t) ==> json_string(*value) == Some(t@),
{
    value.as_str()
}

/// The compact JSON text of a value.
pub uninterp spec fn json_compact(value: serde_json::Value) -> Seq<char>;

/// The compact JSON text of `value` (`Value`'s `Display`). The contract
/// claims that the result is the one [`json_compact`] names; the JSON
/// syntax itself is not stated.
#[verifier::external_body]
fn json_display(value: &serde_json::Value) -> (res: String)
    ensures
        res@ == json_compact(*value),
{
    value.to_string()
}

/// The substitution text of a JSON argument value: the text itself for
/// a JSON string, the compact JSON rendering for any other value.
pub open spec fn value_text_of(value: serde_json::Value) -> Seq<char> {
    match json_string(value) {
        Some(t) => t,
        None => json_compact(value),
    }
}

/// Render a JSON argument value as substitution text. The MCP spec
/// types prompt arguments as strings; non-string values are tolerated
/// by serializing them compactly.
pub fn value_to_string(value: &serde_json::Value) -> (res: String)
    ensures
        res@ == value_text_of(*value),
{
    match json_as_str(value) {
        Some(text) => text.to_owned(),
        None => json_display(value),
    }
}

/// The text provided for each declared argument, in declared order;
/// `None` for an argument with no value (or no arguments at all).
pub open spec fn declared_values(
    declared: Seq<String>,
    provided: Option<serde_json::Map<String, serde_json::Value>>,
) -> Seq<Option<Seq<char>>> {
    declared.map_values(
        |name: String|
            match provided {
                Some(object) => if json_object_entries(object).dom().contains(name@) {
                    Some(value_text_of(json_object_entries(object)[name@]))
                } else {
                    None
                },
                None => None,
            },
    )
}

/// Substitute argument values into `body`, mirroring how a skill runner
/// feeds arguments to a skill:
///
/// - `$ARGUMENTS` is replaced with all provided values joined by a
///   space, in declared order;
/// - `$1`, `$2`, … are replaced with the value of the n-th declared
///   argument (empty when not provided);
/// - values are inserted as given, never scanned for placeholders;
/// - when the body contains no placeholder and at least one value was
///   provided, the joined values are appended after the body.
///
/// Provided arguments that were not declared are ignored.
pub fn substitute(
    body: &str,
    declared: &[String],
    provided: Option<&serde_json::Map<String, serde_json::Value>>,
) -> (res: String)
    ensures
        res@ == substituted(
            body@,
            declared_values(
                declared@,
                match provided {
                    Some(o) => Some(*o),
                    None => None,
                },
            ),
        ),
{
    let ghost prov = match provided {
        Some(o) => Some(*o),
        None => None,
    };
    let ghost want = declared_values(declared@, prov);
    let mut values: Vec<Option<String>> = Vec::new();
    let mut i: usize = 0;
    while i < declared.len()
        invariant
            i <= declared@.len(),
            values@.len() == i,
            want == declared_values(declared@, prov),
            prov == match provided {
                Some(o) => Some(*o),
                None => None::<serde_json::Map<String, serde_json::Value>>,
            },
            forall|m: int| 0 <= m < i ==> #[trigger] texts_view(values@)[m] == want[m],
        decreases declared@.len() - i,
    {
        let v = match provided {
            Some(object) => match json_get(object, &declared[i]) {
                Some(value) => Some(value_to_string(value)),
                None => None,
            },
            None => None,
        };
        let ghost old_vals = values@;
        values.push(v);
        proof {
            assert forall|m: int| 0 <= m < i + 1 implies #[trigger] texts_view(values@)[m]
                == want[m] by {
                if m < i {
                    assert(values@[m] == old_vals[m]);
                    assert(texts_view(old_vals)[m] == want[m]);
                } else {
                    assert(values@[m] == v);
                }
            }
        }
        i = i + 1;
    }
    assert(texts_view(values@) =~= want);
    substitute_values(body, &values)
}

// ---------------------------------------------------------------------
// Handlers' answers
// ---------------------------------------------------------------------

/// A prompt as listed by `prompts/list`.
#[derive(Debug, Clone, PartialEq, Eq)]
pub struct PromptListing {
    /// The `list.json` name, which addresses the prompt.
    pub name: String,
    /// The display title.
    pub title: Option<String>,
    /// The description, when the index has one.
    pub description: Option<String>,
    /// The declared arguments; omitted when there are none.
    pub arguments: Option<Vec<String>>,
}

/// Project a `list.json` entry onto its MCP prompt. The index already
/// carries the frontmatter-derived metadata, so listing needs no
/// per-prompt fetches.
pub fn prompt_listing(entry: PromptEntry) -> (res: PromptListing)
    ensures
        res.name == entry.name,
        res.title == Some(entry.title),
        res.description == entry.description,
        res.arguments == if entry.arguments@.len() == 0 {
            None
        } else {
            Some(entry.arguments)
        },
{
    let arguments = if entry.arguments.len() == 0 {
        None
    } else {
        Some(entry.arguments)
    };
    PromptListing {
        name: entry.name,
        title: Some(entry.title),
        description: entry.description,
        arguments,
    }
}

/// The answer to `prompts/get`: one user message and the prompt's
/// description.
#[derive(Debug, Clone, PartialEq, Eq)]
pub struct PromptReply {
    /// The text of the user message: the body with arguments substituted.
    pub text: String,
    /// The description from the index, when there is one.
    pub description: Option<String>,
}

/// Answer `prompts/get` for a resolved prompt: substitute the provided
/// argument values into its body, and pass on its description.
pub fn prompt_reply(
    document: PromptDocument,
    provided: Option<&serde_json::Map<String, serde_json::Value>>,
) -> (res: PromptReply)
    ensures
        res.text@ == substituted(
            document.content@,
            declared_values(
                document.entry.arguments@,
                match provided {
                    Some(o) => Some(*o),
                    None => None,
                },
            ),
        ),
        res.description == document.entry.description,
{
    let text = substitute(document.content.as_str(), document.entry.arguments.as_slice(), provided);
    PromptReply { text, description: document.entry.description }
}

/// How a failed `prompts/get` is reported: an unknown name is an
/// invalid-params error (per the MCP spec for `prompts/get`) carrying the
/// name; everything else (network, bad deployment) is an internal error
/// carrying the upstream detail.
pub fn prompt_error(error: &PromptsUseCaseError) -> (f: McpFailure)
    ensures
        f.message@ == use_case_message(*error),
        match *error {
            PromptsUseCaseError::NotFound { name } => {
                &&& f.kind == McpErrorKind::InvalidParams
                &&& f.data matches Some((k, v)) && k@ == "name"@ && v@ == name@
            },
            PromptsUseCaseError::Repository(_) => {
                &&& f.kind == McpErrorKind::InternalError
                &&& f.data is None
            },
        },
{
    match error {
        PromptsUseCaseError::NotFound { name } => McpFailure {
            kind: McpErrorKind::InvalidParams,
            message: error.message(),
            data: Some(("name".to_owned(), name.clone())),
        },
        PromptsUseCaseError::Repository(_) => McpFailure {
            kind: McpErrorKind::InternalError,
            message: error.message(),
            data: None,
        },
    }
}

// ---------------------------------------------------------------------
// Laws
// ---------------------------------------------------------------------

/// Only declared arguments matter: two argument objects that hold the
/// same value (or none) under every declared name substitute
/// identically.
pub proof fn undeclared_arguments_are_ignored(
    body: Seq<char>,
    declared: Seq<String>,
    a: serde_json::Map<String, serde_json::Value>,
    b: serde_json::Map<String, serde_json::Value>,
)
    requires
        forall|i: int|
            0 <= i < declared.len() ==> (json_object_entries(a).dom().contains(
                #[trigger] declared[i]@,
            ) <==> json_object_entries(b).dom().contains(declared[i]@)),
        forall|i: int|
            0 <= i < declared.len() && json_object_entries(a).dom().contains(#[trigger] declared[i]@)
                ==> json_object_entries(a)[declared[i]@] == json_object_entries(b)[declared[i]@],
    ensures
        substituted(body, declared_values(declared, Some(a))) == substituted(
            body,
            declared_values(declared, Some(b)),
        ),
{
    assert(declared_values(declared, Some(a)) =~= declared_values(declared, Some(b)));
}

/// Without any provided value, a body with no placeholder comes back
/// unchanged.
pub proof fn plain_body_without_values_is_unchanged(body: Seq<char>, count: nat)
    requires
        !has_placeholder(body, count),
    ensures
        substituted(body, Seq::new(count, |i: int| None::<Seq<char>>)) == body,
{
    let values = Seq::new(count, |i: int| None::<Seq<char>>);
    lemma_no_values_provided(values);
}

proof fn lemma_no_values_provided(values: Seq<Option<Seq<char>>>)
    requires
        forall|i: int| 0 <= i < values.len() ==> #[trigger] values[i] is None,
    ensures
        provided_values(values).len() == 0,
    decreases values.len(),
{
    if values.len() > 0 {
        lemma_no_values_provided(values.drop_last());
    }
}

/// With no placeholder in the body, the provided values are appended
/// after it, separated by a blank line, and the body's own text is kept
/// up to its trailing whitespace.
pub proof fn plain_body_gets_values_appended(body: Seq<char>, values: Seq<Option<Seq<char>>>)
    requires
        !has_placeholder(body, values.len()),
        joined_values(values).len() > 0,
    ensures
        substituted(body, values) == trim_end(body) + seq!['\n', '\n'] + joined_values(values)
            + seq!['\n'],
        trim_end(body) == body.subrange(0, trim_end(body).len() as int),
{
    crate::text::lemma_trim_end_prefix(body);
}

/// Every character of a decimal representation is a digit.
proof fn lemma_decimal_digits(n: nat)
    ensures
        decimal(n).len() >= 1,
        forall|i: int| 0 <= i < decimal(n).len() ==> '0' <= #[trigger] decimal(n)[i] <= '9',
    decreases n,
{
    if n >= 10 {
        lemma_decimal_digits(n / 10);
    }
}

/// `$ARGUMENTS` becomes the joined values exactly as given: the scan
/// resumes after the placeholder, and the inserted text is not scanned
/// for placeholders again.
pub proof fn arguments_value_is_inserted_verbatim(
    rest: Seq<char>,
    values: Seq<Option<Seq<char>>>,
)
    ensures
        substituted(arguments_placeholder() + rest, values) == joined_values(values)
            + scan_placeholders(rest, values, joined_values(values)),
{
    let body = arguments_placeholder() + rest;
    assert(body.subrange(0, 10) =~= arguments_placeholder());
    assert(occurs_at(body, 0, arguments_placeholder()));
    assert(body.subrange(10, body.len() as int) =~= rest);
}

/// The placeholder of the last declared argument becomes that
/// argument's value exactly as given, and the scan resumes after the
/// placeholder without looking into the inserted text.
pub proof fn positional_value_is_inserted_verbatim(
    rest: Seq<char>,
    values: Seq<Option<Seq<char>>>,
)
    requires
        values.len() >= 1,
    ensures
        substituted(positional(values.len()) + rest, values) == value_text(
            values[values.len() - 1],
        ) + scan_placeholders(rest, values, joined_values(values)),
{
    let n = values.len();
    let p = positional(n);
    let body = p + rest;
    lemma_decimal_digits(n);
    assert(body.subrange(0, p.len() as int) =~= p);
    assert(occurs_at(body, 0, p));
    assert(body[1] == decimal(n)[0]);
    assert(!starts_with(body, arguments_placeholder())) by {
        if starts_with(body, arguments_placeholder()) {
            assert(body.subrange(0, 10)[1] == body[1]);
        }
    }
    assert(positional_at(body, n) == Some(n));
    assert(body.subrange(p.len() as int, body.len() as int) =~= rest);
    let k: int = n as int;
    assert(1 <= k <= n && contains(body, positional(k as nat)));
    assert(has_placeholder(body, n));
    assert(body.len() > 0);
    assert(scan_placeholders(body, values, joined_values(values)) == value_text(values[n - 1])
        + scan_placeholders(rest, values, joined_values(values)));
}

/// Decimal representations grow with the number they stand for.
proof fn lemma_decimal_len_monotone(a: nat, b: nat)
    requires
        a <= b,
    ensures
        decimal(a).len() <= decimal(b).len(),
    decreases b,
{
    lemma_decimal_digits(a);
    lemma_decimal_digits(b);
    if a >= 10 {
        lemma_decimal_len_monotone(a / 10, b / 10);
    }
}

/// Distinct numbers have distinct decimal representations.
proof fn lemma_decimal_injective(a: nat, b: nat)
    requires
        decimal(a) == decimal(b),
    ensures
        a == b,
    decreases a,
{
    if a < 10 && b < 10 {
        assert(decimal(a)[0] == digit_char(a));
        assert(decimal(b)[0] == digit_char(b));
        lemma_digit_char_injective(a, b);
    } else if a < 10 {
        lemma_decimal_digits(b / 10);
        assert(decimal(b).len() == decimal(b / 10).len() + 1);
    } else if b < 10 {
        lemma_decimal_digits(a / 10);
        assert(decimal(a).len() == decimal(a / 10).len() + 1);
    } else {
        assert(decimal(a).last() == digit_char(a % 10));
        assert(decimal(b).last() == digit_char(b % 10));
        assert(decimal(a).drop_last() =~= decimal(a / 10));
        assert(decimal(b).drop_last() =~= decimal(b / 10));
        lemma_digit_char_injective(a % 10, b % 10);
        lemma_decimal_injective(a / 10, b / 10);
        assert(a == 10 * (a / 10) + a % 10);
        assert(b == 10 * (b / 10) + b % 10);
    }
}

proof fn lemma_digit_char_injective(a: nat, b: nat)
    requires
        a < 10,
        b < 10,
        digit_char(a) == digit_char(b),
    ensures
        a == b,
{
    assert(digit_char(a) as u32 == 48 + a);
    assert(digit_char(b) as u32 == 48 + b);
}

/// The placeholder `$k`, followed by anything but a digit, is found as
/// `$k` by the scan whenever `k` is declared.
proof fn lemma_positional_found(k: nat, c: Seq<char>, count: nat)
    requires
        1 <= k <= count,
        c.len() == 0 || !('0' <= c[0] <= '9'),
    ensures
        positional_at(positional(k) + c, count) == Some(k),
    decreases count,
{
    let s = positional(k) + c;
    let pk = positional(k);
    lemma_decimal_digits(k);
    if count == k {
        assert(s.subrange(0, pk.len() as int) =~= pk);
    } else {
        lemma_positional_found(k, c, (count - 1) as nat);
        if starts_with(s, positional(count)) {
            let pj = positional(count);
            lemma_decimal_digits(count);
            lemma_decimal_len_monotone(k, count);
            let dk = decimal(k);
            let dj = decimal(count);
            if dj.len() == dk.len() {
                assert forall|x: int| 0 <= x < dk.len() implies dj[x] == dk[x] by {
                    assert(s.subrange(0, pj.len() as int)[x + 1] == s[x + 1]);
                }
                assert(dj =~= dk);
                lemma_decimal_injective(k, count);
            } else {
                let x = dk.len() as int;
                assert(s.subrange(0, pj.len() as int)[x + 1] == s[x + 1]);
                assert(s[x + 1] == c[0]);
                assert(pj[x + 1] == dj[x]);
            }
        }
    }
}

/// No placeholder begins at a character other than `$`.
proof fn lemma_no_placeholder_here(s: Seq<char>, count: nat)
    requires
        s.len() > 0,
        s[0] != '$',
    ensures
        positional_at(s, count) is None,
        !starts_with(s, arguments_placeholder()),
    decreases count,
{
    if starts_with(s, arguments_placeholder()) {
        assert(s.subrange(0, 10)[0] == s[0]);
    }
    if count > 0 {
        if starts_with(s, positional(count)) {
            assert(s.subrange(0, positional(count).len() as int)[0] == s[0]);
        }
        lemma_no_placeholder_here(s, (count - 1) as nat);
    }
}

/// Text without `$` passes through the scan unchanged.
proof fn lemma_scan_plain(
    a: Seq<char>,
    t: Seq<char>,
    values: Seq<Option<Seq<char>>>,
    joined: Seq<char>,
)
    requires
        !a.contains('$'),
    ensures
        scan_placeholders(a + t, values, joined) == a + scan_placeholders(t, values, joined),
    decreases a.len(),
{
    if a.len() == 0 {
        assert(a + t =~= t);
        assert(a + scan_placeholders(t, values, joined) =~= scan_placeholders(t, values, joined));
    } else {
        let s = a + t;
        assert(s[0] == a[0]);
        lemma_no_placeholder_here(s, values.len());
        assert(s.drop_first() =~= a.drop_first() + t);
        assert(!a.drop_first().contains('$')) by {
            if a.drop_first().contains('$') {
                let x = choose|x: int| 0 <= x < a.drop_first().len() && a.drop_first()[x] == '$';
                assert(a[x + 1] == '$');
            }
        }
        lemma_scan_plain(a.drop_first(), t, values, joined);
        assert(seq![s[0]] + (a.drop_first() + scan_placeholders(t, values, joined)) =~= a
            + scan_placeholders(t, values, joined));
    }
}

/// A declared placeholder `$k` standing alone in plain text (no other
/// `$`, and no digit right after it) is replaced by the value of the
/// k-th declared argument, the empty text when it was not provided;
/// every other character is kept, and nothing is appended.
pub proof fn declared_placeholder_is_replaced(
    a: Seq<char>,
    k: nat,
    c: Seq<char>,
    values: Seq<Option<Seq<char>>>,
)
    requires
        1 <= k <= values.len(),
        !a.contains('$'),
        !c.contains('$'),
        c.len() == 0 || !('0' <= c[0] <= '9'),
    ensures
        substituted(a + positional(k) + c, values) == a + match values[k - 1] {
            Some(text) => text,
            None => Seq::<char>::empty(),
        } + c,
{
    let joined = joined_values(values);
    let pk = positional(k);
    lemma_declared_placeholder_found(a, k, c, values.len());
    lemma_scan_plain(a, pk + c, values, joined);
    lemma_scan_positional(k, c, values, joined);
    lemma_scan_plain(c, Seq::empty(), values, joined);
    assert(c + Seq::<char>::empty() =~= c);
    assert(a + pk + c =~= a + (pk + c));
    assert(a + (value_text(values[k - 1]) + c) =~= a + value_text(values[k - 1]) + c);
}

/// A body holding a declared `$k` holds a placeholder.
proof fn lemma_declared_placeholder_found(a: Seq<char>, k: nat, c: Seq<char>, count: nat)
    requires
        1 <= k <= count,
    ensures
        has_placeholder(a + positional(k) + c, count),
{
    let pk = positional(k);
    let body = a + pk + c;
    assert(body.subrange(a.len() as int, (a.len() + pk.len()) as int) =~= pk);
    assert(occurs_at(body, a.len() as int, pk));
    let ki: int = k as int;
    assert(1 <= ki <= count && contains(body, positional(ki as nat)));
}

/// The scan replaces a leading declared `$k`, not followed by a digit,
/// and goes on after it.
proof fn lemma_scan_positional(
    k: nat,
    c: Seq<char>,
    values: Seq<Option<Seq<char>>>,
    joined: Seq<char>,
)
    requires
        1 <= k <= values.len(),
        c.len() == 0 || !('0' <= c[0] <= '9'),
    ensures
        scan_placeholders(positional(k) + c, values, joined) == value_text(values[k - 1])
            + scan_placeholders(c, values, joined),
{
    let pk = positional(k);
    let s = pk + c;
    lemma_positional_found(k, c, values.len());
    lemma_decimal_digits(k);
    assert(!starts_with(s, arguments_placeholder())) by {
        if starts_with(s, arguments_placeholder()) {
            assert(s.subrange(0, 10)[1] == s[1]);
            assert(s[1] == decimal(k)[0]);
        }
    }
    assert(s.subrange(pk.len() as int, s.len() as int) =~= c);
}

/// The scan replaces a leading `$ARGUMENTS` and goes on after it.
proof fn lemma_scan_arguments(c: Seq<char>, values: Seq<Option<Seq<char>>>, joined: Seq<char>)
    ensures
        scan_placeholders(arguments_placeholder() + c, values, joined) == joined
            + scan_placeholders(c, values, joined),
{
    let s = arguments_placeholder() + c;
    assert(s.subrange(0, 10) =~= arguments_placeholder());
    assert(s.subrange(10, s.len() as int) =~= c);
}

/// `$ARGUMENTS` standing alone in plain text (no other `$`) is replaced
/// by all provided values joined by a space; every other character is
/// kept, and nothing is appended.
pub proof fn arguments_placeholder_is_replaced(
    a: Seq<char>,
    c: Seq<char>,
    values: Seq<Option<Seq<char>>>,
)
    requires
        !a.contains('$'),
        !c.contains('$'),
    ensures
        substituted(a + arguments_placeholder() + c, values) == a + joined_values(values) + c,
{
    let joined = joined_values(values);
    let p = arguments_placeholder();
    let body = a + p + c;
    assert(body =~= a + (p + c));
    assert(body.subrange(a.len() as int, (a.len() + p.len()) as int) =~= p);
    assert(occurs_at(body, a.len() as int, p));
    assert(contains(body, p));
    lemma_scan_plain(a, p + c, values, joined);
    lemma_scan_arguments(c, values, joined);
    lemma_scan_plain(c, Seq::empty(), values, joined);
    assert(c + Seq::<char>::empty() =~= c);
    assert(a + (joined + c) =~= a + joined + c);
}

/// How `$ARGUMENTS` is built up: no declared argument gives the empty
/// text; an argument without a value adds nothing; a provided value
/// (empty text included) follows the earlier provided values after a
/// single space, or stands alone when none came before it.
pub proof fn joined_values_grow_by_space(values: Seq<Option<Seq<char>>>, text: Seq<char>)
    ensures
        joined_values(Seq::empty()) == Seq::<char>::empty(),
        joined_values(values.push(None)) == joined_values(values),
        joined_values(values.push(Some(text))) == if forall|i: int|
            0 <= i < values.len() ==> #[trigger] values[i] is None {
            text
        } else {
            joined_values(values) + seq![' '] + text
        },
{
    assert(values.push(None).drop_last() =~= values);
    assert(values.push(Some(text)).drop_last() =~= values);
    let prior = provided_values(values);
    assert(provided_values(values.push(Some(text))) == prior.push(text));
    assert(prior.push(text).drop_last() =~= prior);
    if forall|i: int| 0 <= i < values.len() ==> #[trigger] values[i] is None {
        lemma_no_values_provided(values);
        assert(prior.push(text).len() == 1);
    } else {
        let i = choose|i: int| 0 <= i < values.len() && !(values[i] is None);
        lemma_provided_nonempty(values, i);
        assert(prior.push(text).len() > 1);
        assert(prior.push(text).last() == text);
    }
}

proof fn lemma_provided_nonempty(values: Seq<Option<Seq<char>>>, i: int)
    requires
        0 <= i < values.len(),
        values[i] is Some,
    ensures
        provided_values(values).len() > 0,
    decreases values.len(),
{
    if i < values.len() - 1 {
        assert(values.drop_last()[i] == values[i]);
        lemma_provided_nonempty(values.drop_last(), i);
    }
}

/// Each declared argument takes the value provided under its own name,
/// rendered as substitution text, and no value when none was provided
/// under that name or no arguments came at all.
pub proof fn declared_argument_takes_its_value(
    declared: Seq<String>,
    provided: Option<serde_json::Map<String, serde_json::Value>>,
    i: int,
)
    requires
        0 <= i < declared.len(),
    ensures
        declared_values(declared, provided).len() == declared.len(),
        provided is None ==> declared_values(declared, provided)[i] is None,
        provided matches Some(o) ==> declared_values(declared, provided)[i] == if json_object_entries(
            o,
        ).dom().contains(declared[i]@) {
            Some(value_text_of(json_object_entries(o)[declared[i]@]))
        } else {
            None
        },
{
}

/// A body in which neither `$ARGUMENTS` nor any declared `$k` occurs is
/// kept as it is when no value was provided, and otherwise gets the
/// joined values appended after its trailing whitespace is trimmed and a
/// blank line.
pub proof fn body_without_placeholders_gets_values_appended(
    body: Seq<char>,
    values: Seq<Option<Seq<char>>>,
)
    requires
        !contains(body, arguments_placeholder()),
        forall|k: int| 1 <= k <= values.len() ==> !#[trigger] contains(body, positional(k as nat)),
    ensures
        substituted(body, values) == if joined_values(values).len() == 0 {
            body
        } else {
            trim_end(body) + seq!['\n', '\n'] + joined_values(values) + seq!['\n']
        },
{
}

} // verus!
