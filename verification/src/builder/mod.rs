//! The static distribution's index: one entry per prompt, with the
//! metadata a server needs to advertise it.
//!
//! Scanning the repository and writing the distribution are file-system
//! work done by the program around this library; what is decided here is
//! which directories count, what each index entry says, and in which
//! order the entries are listed.

/// Skill-style frontmatter handling.
pub mod frontmatter;

use vstd::prelude::*;
use vstd::string::*;
use crate::text::{
    chars_of, find_char, find_from, is_white, lemma_find_from, lemma_trim_clean,
    lemma_trim_end_prefix, lemma_trim_start_suffix, starts_with, trim, trim_bounds, trim_end,
    trim_start,
};
use self::frontmatter::{argument_list, names_view, strip, stripped, Frontmatter};

verus! {

/// A single prompt entry as it appears in `list.json`.
#[derive(Debug, Clone, PartialEq, Eq)]
pub struct PromptEntry {
    /// Prompt identifier: the frontmatter `name`, falling back to the
    /// prompt's directory name.
    pub name: String,
    /// Title taken from the body's first `#` heading; falls back to
    /// `name`.
    pub title: String,
    /// The frontmatter `description`, when present.
    pub description: Option<String>,
    /// Argument names parsed from the frontmatter `argument-hint`, in
    /// positional order. Empty when the prompt takes no arguments.
    pub arguments: Vec<String>,
    /// Path of the markdown file relative to `prompts/`.
    pub path: String,
}

// ---------------------------------------------------------------------
// Titles
// ---------------------------------------------------------------------

/// The title carried by the first line at or after index `i` that is an
/// ATX heading `# ...` with non-blank text, trimmed.
pub open spec fn title_from(s: Seq<char>, i: int) -> Option<Seq<char>>
    decreases s.len() - i,
{
    if i < 0 || i >= s.len() {
        None
    } else {
        let e = find_from(s, '\n', i);
        let line = s.subrange(i, e);
        if starts_with(line, seq!['#', ' ']) && trim(line.subrange(2, line.len() as int)).len()
            > 0 {
            Some(trim(line.subrange(2, line.len() as int)))
        } else if e >= s.len() {
            None
        } else {
            proof {
                lemma_find_from(s, '\n', i);
            }
            title_from(s, e + 1)
        }
    }
}

/// The title of a markdown document: its first `# ` heading.
pub open spec fn title_of(md: Seq<char>) -> Option<Seq<char>> {
    title_from(md, 0)
}

/// Extracts the title from the first ATX `#` heading in `markdown`.
pub fn extract_title(markdown: &str) -> (res: Option<&str>)
    ensures
        match res {
            Some(t) => title_of(markdown@) == Some(t@),
            None => title_of(markdown@) is None,
        },
{
    let v = chars_of(markdown);
    let mut i: usize = 0;
    while i < v.len()
        invariant
            i <= v@.len(),
            v@ == markdown@,
            title_of(markdown@) == title_from(v@, i as int),
        decreases v@.len() - i,
    {
        let e = find_char(&v, '\n', i);
        proof {
            lemma_find_from(v@, '\n', i as int);
        }
        let ghost line = v@.subrange(i as int, e as int);
        let heading = e - i >= 2 && v[i] == '#' && v[i + 1] == ' ';
        assert(heading == starts_with(line, seq!['#', ' '])) by {
            if heading {
                assert(line.subrange(0, 2) =~= seq!['#', ' ']);
            }
            if starts_with(line, seq!['#', ' ']) {
                assert(line.subrange(0, 2)[0] == line[0]);
                assert(line.subrange(0, 2)[1] == line[1]);
            }
        }
        if heading {
            let (a, b) = trim_bounds(&v, i + 2, e);
            assert(line.subrange(2, line.len() as int) =~= v@.subrange(i + 2, e as int));
            if b > a {
                let t = markdown.substring_char(a, b);
                return Some(t);
            }
        }
        if e >= v.len() {
            return None;
        }
        i = e + 1;
    }
    None
}

/// A title is a non-empty piece of a single line with no whitespace at
/// either end.
pub proof fn title_is_trimmed_line(md: Seq<char>)
    ensures
        title_of(md) matches Some(t) ==> {
            &&& t.len() > 0
            &&& !is_white(t[0])
            &&& !is_white(t.last())
            &&& !t.contains('\n')
        },
{
    lemma_title_from(md, 0);
}

/// The text of the line that starts at `i`, when that line is an ATX
/// heading `# ...` with non-blank text: that text, trimmed.
pub open spec fn heading_at(s: Seq<char>, i: int) -> Option<Seq<char>> {
    let line = s.subrange(i, find_from(s, '\n', i));
    if starts_with(line, seq!['#', ' ']) && trim(line.subrange(2, line.len() as int)).len() > 0 {
        Some(trim(line.subrange(2, line.len() as int)))
    } else {
        None
    }
}

/// Whether a line of `s` starts at index `i`.
pub open spec fn is_line_start(s: Seq<char>, i: int) -> bool {
    0 <= i < s.len() && (i == 0 || s[i - 1] == '\n')
}

/// The title is the heading of the earliest heading line: it is the
/// heading of some line, and no line before that one is a heading; a
/// document with no heading line has no title.
pub proof fn title_is_first_heading(md: Seq<char>)
    ensures
        title_of(md) matches Some(t) ==> exists|i: int|
            {
                &&& is_line_start(md, i)
                &&& heading_at(md, i) == Some(t)
                &&& forall|j: int| 0 <= j < i && is_line_start(md, j) ==> (#[trigger] heading_at(md, j)) is None
            },
        title_of(md) is None ==> forall|j: int| is_line_start(md, j) ==> (#[trigger] heading_at(md, j)) is None,
{
    lemma_title_first(md, 0);
}

proof fn lemma_title_first(s: Seq<char>, i: int)
    requires
        0 <= i,
        i == 0 || (i <= s.len() && s[i - 1] == '\n'),
    ensures
        title_from(s, i) matches Some(t) ==> exists|p: int|
            {
                &&& i <= p
                &&& is_line_start(s, p)
                &&& heading_at(s, p) == Some(t)
                &&& forall|j: int| i <= j < p && is_line_start(s, j) ==> (#[trigger] heading_at(s, j)) is None
            },
        title_from(s, i) is None ==> forall|j: int| i <= j && is_line_start(s, j) ==> (#[trigger] heading_at(s, j)) is None,
    decreases s.len() - i,
{
    if i < s.len() {
        let e = find_from(s, '\n', i);
        lemma_find_from(s, '\n', i);
        if heading_at(s, i) is Some {
            assert(is_line_start(s, i));
        } else if e < s.len() {
            lemma_title_first(s, e + 1);
            assert forall|j: int| i <= j <= e && is_line_start(s, j) implies (#[trigger] heading_at(s, j)) is None by {
                if j > i {
                    assert(s[j - 1] != '\n');
                }
            }
            if let Some(t) = title_from(s, i) {
                let p = choose|p: int|
                    {
                        &&& e + 1 <= p
                        &&& is_line_start(s, p)
                        &&& heading_at(s, p) == Some(t)
                        &&& forall|j: int| e + 1 <= j < p && is_line_start(s, j) ==> (#[trigger] heading_at(s, j)) is None
                    };
                assert forall|j: int| i <= j < p && is_line_start(s, j) implies (#[trigger] heading_at(s, j)) is None by {
                    if j > e {
                        assert(e + 1 <= j);
                    }
                }
            }
        } else {
            assert forall|j: int| i <= j && is_line_start(s, j) implies (#[trigger] heading_at(s, j)) is None by {
                if j > i {
                    assert(s[j - 1] != '\n');
                }
            }
        }
    }
}

proof fn lemma_title_from(s: Seq<char>, i: int)
    requires
        0 <= i,
    ensures
        title_from(s, i) matches Some(t) ==> {
            &&& t.len() > 0
            &&& !is_white(t[0])
            &&& !is_white(t.last())
            &&& !t.contains('\n')
        },
    decreases s.len() - i,
{
    if i < s.len() {
        let e = find_from(s, '\n', i);
        lemma_find_from(s, '\n', i);
        let line = s.subrange(i, e);
        if starts_with(line, seq!['#', ' ']) && trim(line.subrange(2, line.len() as int)).len()
            > 0 {
            let u = line.subrange(2, line.len() as int);
            let t = trim(u);
            lemma_trim_clean(u);
            lemma_trim_start_suffix(u);
            lemma_trim_end_prefix(trim_start(u));
            if t.contains('\n') {
                let k = choose|k: int| 0 <= k < t.len() && t[k] == '\n';
                let a = u.len() - trim_start(u).len();
                assert(t[k] == trim_start(u)[k]);
                assert(trim_start(u)[k] == u[a + k]);
                assert(u[a + k] == s[i + 2 + a + k]);
            }
        } else if e < s.len() {
            lemma_title_from(s, e + 1);
        }
    }
}

// ---------------------------------------------------------------------
// Index entries
// ---------------------------------------------------------------------

/// Hidden directories (leading `.`) never hold a prompt of the
/// distribution.
pub fn is_hidden_dir(dir_name: &str) -> (res: bool)
    ensures
        res == (dir_name@.len() > 0 && dir_name@[0] == '.'),
{
    let v = chars_of(dir_name);
    v.len() > 0 && v[0] == '.'
}

/// The prompt's name: the frontmatter `name`, else the directory name.
pub open spec fn entry_name(dir_name: Seq<char>, metadata: Option<Frontmatter>) -> Seq<char> {
    match metadata {
        Some(m) => match m.name {
            Some(n) => n@,
            None => dir_name,
        },
        None => dir_name,
    }
}

/// The frontmatter's `description`, when there is frontmatter with one.
pub open spec fn entry_description(metadata: Option<Frontmatter>) -> Option<String> {
    match metadata {
        Some(m) => m.description,
        None => None,
    }
}

/// Each field of an entry follows its own frontmatter field alone: the
/// description is the frontmatter's description whatever its name and
/// argument hint, the argument hint is the frontmatter's hint whatever
/// its name and description, and the name is the frontmatter's name when
/// it has one, else the directory name, whatever the other fields.
pub proof fn entry_fields_are_independent(dir_name: Seq<char>, m: Frontmatter)
    ensures
        entry_description(Some(m)) == m.description,
        entry_hint(Some(m)) == m.argument_hint,
        entry_name(dir_name, Some(m)) == match m.name {
            Some(n) => n@,
            None => dir_name,
        },
        entry_description(None) is None,
        entry_hint(None) is None,
        entry_name(dir_name, None) == dir_name,
{
}

/// The frontmatter's `argument-hint`, when there is frontmatter with one.
pub open spec fn entry_hint(metadata: Option<Frontmatter>) -> Option<String> {
    match metadata {
        Some(m) => m.argument_hint,
        None => None,
    }
}

/// The index entry and body of the prompt found in directory `dir_name`
/// with markdown `content`, whose frontmatter decoded to `metadata`
/// (`None` when it is missing or not valid YAML).
///
/// The body is the content without its frontmatter block; the name
/// falls back to the directory name, the title to the name; the path is
/// `<name>.md`.
pub fn describe_prompt(dir_name: &str, metadata: Option<Frontmatter>, content: &str) -> (res: (
    PromptEntry,
    String,
))
    ensures
        res.1@ == stripped(content@),
        res.0.name@ == entry_name(dir_name@, metadata),
        res.0.title@ == match title_of(stripped(content@)) {
            Some(t) => t,
            None => entry_name(dir_name@, metadata),
        },
        res.0.description == entry_description(metadata),
        metadata matches Some(m) ==> res.0.description == m.description,
        metadata is None ==> res.0.description is None,
        metadata matches Some(m) ==> (m.name matches Some(n) ==> res.0.name@ == n@),
        names_view(res.0.arguments@) == argument_list(entry_hint(metadata)),
        res.0.path@ == entry_name(dir_name@, metadata) + seq!['.', 'm', 'd'],
{
    let metadata = match metadata {
        Some(m) => m,
        None => Frontmatter { name: None, description: None, argument_hint: None },
    };
    let body: String = strip(content).to_owned();
    let arguments = metadata.argument_names();
    let name: String = match metadata.name {
        Some(n) => n,
        None => dir_name.to_owned(),
    };
    let title: String = match extract_title(body.as_str()) {
        Some(t) => t.to_owned(),
        None => name.clone(),
    };
    let mut path = name.clone();
    path.append(".md");
    proof {
        reveal_strlit(".md");
    }
    assert(path@ =~= name@ + seq!['.', 'm', 'd']);
    (PromptEntry { name, title, description: metadata.description, arguments, path }, body)
}

// ---------------------------------------------------------------------
// Ordering the index
// ---------------------------------------------------------------------

/// Lexicographic order on names by code point, the order of `String`'s
/// `Ord` (UTF-8 byte order agrees with code point order).
pub open spec fn name_le(a: Seq<char>, b: Seq<char>) -> bool
    decreases a.len(),
{
    if a.len() == 0 {
        true
    } else if b.len() == 0 {
        false
    } else if a[0] != b[0] {
        a[0] < b[0]
    } else {
        name_le(a.drop_first(), b.drop_first())
    }
}

/// Whether the index entries are in ascending order of name.
pub open spec fn sorted_by_name(prompts: Seq<(PromptEntry, String)>) -> bool {
    forall|i: int, j: int|
        0 <= i < j < prompts.len() ==> name_le(#[trigger] prompts[i].0.name@, #[trigger] prompts[j].0.name@)
}

/// The entries named `n`.
pub open spec fn named(n: Seq<char>) -> spec_fn((PromptEntry, String)) -> bool {
    |e: (PromptEntry, String)| e.0.name@ == n
}

/// Whether `sorted` keeps, for every name, the entries of that name in
/// the order they had in `unsorted` (a stable order).
pub open spec fn keeps_order_per_name(
    sorted: Seq<(PromptEntry, String)>,
    unsorted: Seq<(PromptEntry, String)>,
) -> bool {
    forall|n: Seq<char>| #[trigger] sorted.filter(named(n)) == unsorted.filter(named(n))
}

/// Every name sorts together with itself.
pub proof fn name_le_reflexive(a: Seq<char>)
    ensures
        name_le(a, a),
    decreases a.len(),
{
    if a.len() > 0 {
        name_le_reflexive(a.drop_first());
    }
}

proof fn lemma_filter_none<A>(s: Seq<A>, pred: spec_fn(A) -> bool)
    requires
        forall|i: int| 0 <= i < s.len() ==> !pred(#[trigger] s[i]),
    ensures
        s.filter(pred) == Seq::<A>::empty(),
    decreases s.len(),
{
    reveal(Seq::filter);
    if s.len() > 0 {
        lemma_filter_none(s.drop_last(), pred);
    } else {
        assert(s =~= Seq::<A>::empty());
    }
}

proof fn lemma_filter_push<A>(s: Seq<A>, x: A, pred: spec_fn(A) -> bool)
    ensures
        s.push(x).filter(pred) == if pred(x) {
            s.filter(pred).push(x)
        } else {
            s.filter(pred)
        },
{
    reveal(Seq::filter);
    assert(s.push(x).drop_last() =~= s);
}

/// Any two names are ordered one way or the other.
pub proof fn name_le_total(a: Seq<char>, b: Seq<char>)
    ensures
        name_le(a, b) || name_le(b, a),
    decreases a.len(),
{
    if a.len() > 0 && b.len() > 0 && a[0] == b[0] {
        name_le_total(a.drop_first(), b.drop_first());
    }
}

/// The order on names is transitive.
pub proof fn name_le_transitive(a: Seq<char>, b: Seq<char>, c: Seq<char>)
    requires
        name_le(a, b),
        name_le(b, c),
    ensures
        name_le(a, c),
    decreases a.len(),
{
    if a.len() > 0 && b.len() > 0 && c.len() > 0 && a[0] == b[0] && b[0] == c[0] {
        name_le_transitive(a.drop_first(), b.drop_first(), c.drop_first());
    }
}

/// Whether name `a` sorts before or together with name `b`.
fn name_le_exec(a: &String, b: &String) -> (res: bool)
    ensures
        res == name_le(a@, b@),
{
    let x = chars_of(a.as_str());
    let y = chars_of(b.as_str());
    let mut i: usize = 0;
    assert(x@.subrange(0, x@.len() as int) =~= x@);
    assert(y@.subrange(0, y@.len() as int) =~= y@);
    while i < x.len() && i < y.len() && x[i] == y[i]
        invariant
            i <= x@.len(),
            i <= y@.len(),
            x@ == a@,
            y@ == b@,
            name_le(a@, b@) == name_le(x@.subrange(i as int, x@.len() as int), y@.subrange(
                i as int,
                y@.len() as int,
            )),
        decreases x@.len() - i,
    {
        proof {
            let xs = x@.subrange(i as int, x@.len() as int);
            let ys = y@.subrange(i as int, y@.len() as int);
            assert(xs.drop_first() =~= x@.subrange(i + 1, x@.len() as int));
            assert(ys.drop_first() =~= y@.subrange(i + 1, y@.len() as int));
        }
        i = i + 1;
    }
    let ghost xs = x@.subrange(i as int, x@.len() as int);
    let ghost ys = y@.subrange(i as int, y@.len() as int);
    if i == x.len() {
        true
    } else if i == y.len() {
        false
    } else {
        assert(xs[0] == x@[i as int] && ys[0] == y@[i as int]);
        x[i] < y[i]
    }
}

/// The entries ordered by name, so that the index is deterministic; the
/// same entries, each as often as before.
pub fn sort_by_name(prompts: Vec<(PromptEntry, String)>) -> (sorted: Vec<(PromptEntry, String)>)
    ensures
        sorted_by_name(sorted@),
        sorted@.to_multiset() == prompts@.to_multiset(),
        keeps_order_per_name(sorted@, prompts@),
{
    broadcast use vstd::multiset::group_multiset_axioms;

    let ghost all = prompts@;
    let mut input = prompts;
    let mut sorted: Vec<(PromptEntry, String)> = Vec::new();
    let ghost mut k: int = 0;
    proof {
        vstd::seq_lib::to_multiset_len(sorted@);
        vstd::multiset::lemma_multiset_empty_len(sorted@.to_multiset());
        assert(sorted@.to_multiset().add(input@.to_multiset()) =~= input@.to_multiset());
        assert(all.subrange(0, 0) =~= Seq::<(PromptEntry, String)>::empty());
        assert(all.subrange(0, all.len() as int) =~= all);
        reveal(Seq::filter);
        assert forall|n: Seq<char>| #[trigger] sorted@.filter(named(n)) == all.subrange(0, 0).filter(
            named(n),
        ) by {
            assert(sorted@ =~= all.subrange(0, 0));
        }
    }
    while input.len() > 0
        invariant
            0 <= k <= all.len(),
            input@ == all.subrange(k, all.len() as int),
            sorted_by_name(sorted@),
            sorted@.to_multiset().add(input@.to_multiset()) == all.to_multiset(),
            forall|n: Seq<char>| #[trigger] sorted@.filter(named(n)) == all.subrange(0, k).filter(named(n)),
        decreases input@.len(),
    {
        let ghost before = input@;
        assert(before[0] == all[k]);
        let item = input.remove(0);
        let mut p = sorted.len();
        while p > 0 && !name_le_exec(&sorted[p - 1].0.name, &item.0.name)
            invariant
                p <= sorted@.len(),
                forall|k: int| p <= k < sorted@.len() ==> !name_le(#[trigger] sorted@[k].0.name@, item.0.name@),
            decreases p,
        {
            p = p - 1;
        }
        let ghost old_sorted = sorted@;
        proof {
            assert forall|k: int| 0 <= k < p implies name_le(#[trigger] old_sorted[k].0.name@, item.0.name@) by {
                if k < p - 1 {
                    name_le_transitive(old_sorted[k].0.name@, old_sorted[p - 1].0.name@, item.0.name@);
                }
            }
            assert forall|k: int| p <= k < old_sorted.len() implies name_le(item.0.name@, #[trigger] old_sorted[k].0.name@) by {
                name_le_total(item.0.name@, old_sorted[k].0.name@);
            }
        }
        sorted.insert(p, item);
        proof {
            let s = sorted@;
            assert forall|i: int, j: int| 0 <= i < j < s.len() implies name_le(#[trigger] s[i].0.name@, #[trigger] s[j].0.name@) by {
                if i < p && j == p {
                } else if i == p && j > p {
                    assert(s[j] == old_sorted[j - 1]);
                } else if i < p && j > p {
                    assert(s[j] == old_sorted[j - 1]);
                    assert(s[i] == old_sorted[i]);
                } else if j < p {
                    assert(s[j] == old_sorted[j]);
                    assert(s[i] == old_sorted[i]);
                } else {
                    assert(s[j] == old_sorted[j - 1]);
                    assert(s[i] == old_sorted[i - 1]);
                }
            }
            vstd::seq_lib::to_multiset_remove(before, 0);
            vstd::seq_lib::to_multiset_insert(old_sorted, p as int, item);
            vstd::seq_lib::to_multiset_contains(before, item);
            assert(before[0] == item);
            assert(before.contains(item));
            assert(before.to_multiset().count(item) > 0);
            assert(old_sorted.to_multiset().insert(item).add(before.to_multiset().remove(item))
                =~= old_sorted.to_multiset().add(before.to_multiset()));
            // Stability: entries of the item's name all sit before `p`.
            let pre = old_sorted.subrange(0, p as int);
            let post = old_sorted.subrange(p as int, old_sorted.len() as int);
            assert(old_sorted =~= pre + post);
            assert(sorted@ =~= pre + seq![item] + post);
            assert(all.subrange(0, k + 1) =~= all.subrange(0, k).push(item));
            assert forall|n: Seq<char>| #[trigger] sorted@.filter(named(n)) == all.subrange(0, k + 1).filter(
                named(n),
            ) by {
                let f = named(n);
                Seq::filter_distributes_over_add(pre, post, f);
                Seq::filter_distributes_over_add(pre + seq![item], post, f);
                Seq::filter_distributes_over_add(pre, seq![item], f);
                lemma_filter_push(all.subrange(0, k), item, f);
                lemma_filter_push(Seq::<(PromptEntry, String)>::empty(), item, f);
                reveal(Seq::filter);
                assert(Seq::<(PromptEntry, String)>::empty().push(item) =~= seq![item]);
                if f(item) {
                    assert forall|i: int| 0 <= i < post.len() implies !f(#[trigger] post[i]) by {
                        assert(post[i] == old_sorted[p + i]);
                        name_le_reflexive(item.0.name@);
                    }
                    lemma_filter_none(post, f);
                    assert(pre.filter(f) + Seq::<(PromptEntry, String)>::empty() =~= pre.filter(f));
                    assert(pre.filter(f) + seq![item] =~= pre.filter(f).push(item));
                } else {
                    assert(pre.filter(f) + Seq::<(PromptEntry, String)>::empty() =~= pre.filter(f));
                }
            }
            k = k + 1;
            assert(input@ =~= all.subrange(k, all.len() as int));
        }
    }
    proof {
        assert(all.subrange(0, k) =~= all);
        vstd::seq_lib::to_multiset_len(input@);
        vstd::multiset::lemma_multiset_empty_len(input@.to_multiset());
        assert(sorted@.to_multiset().add(vstd::multiset::Multiset::empty()) =~= sorted@.to_multiset());
    }
    sorted
}

} // verus!
