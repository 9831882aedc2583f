//! The incremental golden model deduplication: in each set of duplicates, the files inside the
//! directories given by the user are removed but for the one in the last such directory,
//! unless a file in a reference directory remains.

use crate::path::{copy_names, copy_paths, is_root_name, names_equal, names_list_contains, spec_location_parent, FilePath, PathView};
use crate::stages::analyze::output::dupset_file::{ConflictingEntry, ConflictingView, DupSetEntry, DupSetFile, DupSetView};
use crate::stages::build::output::HashTreeFileEntryType;
use crate::stages::dedup::golden_model::cmd::MatchingModel;
use crate::stages::dedup::output::actions::{ActionView, DeduplicationAction};
use vstd::prelude::*;
use vstd::string::*;

verus! {

/// A compiled regular expression.
#[verifier::external_type_specification]
#[verifier::external_body]
pub struct ExRegex(regex::Regex);

/// The error of a pattern that is not a regular expression.
#[verifier::external_type_specification]
#[verifier::external_body]
pub struct ExRegexError(regex::Error);

/// Whether `regex::Regex::new` compiles the pattern.
pub uninterp spec fn regex_compiles(pattern: Seq<char>) -> bool;

/// Calls `regex::Regex::new`: the compiled expression if `pattern` is a regular expression
/// the crate accepts, its error otherwise; which one comes depends on the pattern alone.
#[verifier::external_body]
fn compile_regex(pattern: &str) -> (r: Result<regex::Regex, regex::Error>)
    ensures
        r is Ok == regex_compiles(pattern@),
{
    regex::Regex::new(pattern)
}

/// Whether the regular expression `pattern`, compiled by `regex::Regex::new`, matches
/// somewhere in `text`.
pub uninterp spec fn regex_finds(pattern: Seq<char>, text: Seq<char>) -> bool;

/// A regular expression compiled from its pattern, which is kept beside it. Its fields are
/// private: the only way to make one is `CompiledRegex::compile`, so the expression is always
/// the one compiled from the pattern.
pub struct CompiledRegex {
    regex: regex::Regex,
    pattern: String,
}

impl View for CompiledRegex {
    type V = Seq<char>;

    /// The pattern the expression was compiled from.
    closed spec fn view(&self) -> Seq<char> {
        self.pattern@
    }
}

impl CompiledRegex {
    /// The expression compiled from `pattern`, or the error of a pattern that is not a
    /// regular expression.
    pub fn compile(pattern: &str) -> (r: Result<CompiledRegex, regex::Error>)
        ensures
            r is Ok == regex_compiles(pattern@),
            r matches Ok(c) ==> c@ == pattern@,
    {
        match compile_regex(pattern) {
            Ok(regex) => Ok(CompiledRegex { regex, pattern: pattern.to_owned() }),
            Err(e) => Err(e),
        }
    }
}

/// Calls `regex::Regex::is_match` on the expression compiled from the pattern of `re`: whether
/// it matches somewhere in `text`, which depends on the pattern and the text alone.
#[verifier::external_body]
fn regex_is_match(re: &CompiledRegex, text: &str) -> (r: bool)
    ensures
        r == regex_finds(re@, text@),
{
    re.regex.is_match(text)
}

/// The settings of the incremental golden model deduplication.
pub struct DedupIncrementalGoldenModelSettings {
    /// The analysis file to plan the deduplication for.
    pub input: Vec<String>,
    /// The file to write the deduplication actions to.
    pub output: Vec<String>,
    /// How to match the directories.
    pub matching_model: MatchingModel,
    /// The incremental directories, oldest first.
    pub directories: Vec<String>,
    /// The reference directories.
    pub reference_models: Vec<String>,
}

/// Matches the first component of paths against a directory given by the user.
pub enum Matcher {
    /// A regular expression that must match somewhere in the text.
    Regex(CompiledRegex),
    /// A prefix of the text.
    Plain(String),
    /// Matches every text.
    All,
}

/// A directory given by the user that is not a regular expression.
#[derive(Debug)]
pub struct InvalidDirectory {
    /// The directory as given.
    pub directory: String,
}

/// What the matcher `m` answers for `text`: a plain matcher whether it starts the text, the
/// matcher of everything yes, a regular expression whether it matches somewhere in the text.
pub open spec fn spec_matches(m: Matcher, text: Seq<char>) -> bool {
    match m {
        Matcher::Plain(prefix) => prefix@.is_prefix_of(text),
        Matcher::All => true,
        Matcher::Regex(re) => regex_finds(re@, text),
    }
}

/// `outcome` is what the matcher `m` answers for `text` (`spec_matches`).
pub open spec fn spec_may_match(m: Matcher, text: Seq<char>, outcome: bool) -> bool {
    outcome == spec_matches(m, text)
}

/// Whether `prefix` starts `s`.
pub fn str_starts_with(s: &str, prefix: &str) -> (r: bool)
    ensures
        r == prefix@.is_prefix_of(s@),
{
    let ls = s.unicode_len();
    let lp = prefix.unicode_len();
    if lp > ls {
        return false;
    }
    let mut i: usize = 0;
    while i < lp
        invariant
            lp <= ls,
            ls == s@.len(),
            lp == prefix@.len(),
            i <= lp,
            forall|k: int| 0 <= k < i ==> prefix@[k] == s@[k],
        decreases lp - i,
    {
        if s.get_char(i) != prefix.get_char(i) {
            return false;
        }
        i = i + 1;
    }
    assert(prefix@ =~= s@.take(lp as int));
    true
}

impl Matcher {
    /// The matcher of the directory `text` under the matching model `model`: a regular
    /// expression, or the error if `text` is not one; a plain prefix.
    pub fn new(model: MatchingModel, text: &str) -> (r: Result<Matcher, InvalidDirectory>)
        ensures
            match model {
                MatchingModel::Regex => match r {
                    Ok(m) => regex_compiles(text@) && (m matches Matcher::Regex(re) && re@ == text@),
                    Err(e) => !regex_compiles(text@) && e.directory@ == text@,
                },
                MatchingModel::Plain => r matches Ok(m) && m matches Matcher::Plain(p) && p@ == text@,
            },
    {
        match model {
            MatchingModel::Regex => match CompiledRegex::compile(text) {
                Ok(re) => Ok(Matcher::Regex(re)),
                Err(_) => Err(InvalidDirectory { directory: text.to_owned() }),
            },
            MatchingModel::Plain => Ok(Matcher::Plain(text.to_owned())),
        }
    }

    /// The matcher of everything.
    pub fn all_ref() -> (r: Matcher)
        ensures
            r is All,
    {
        Matcher::All
    }

    /// Whether the matcher matches `path` (see `spec_may_match`).
    pub fn matches(&self, path: &str) -> (r: bool)
        ensures
            spec_may_match(*self, path@, r),
    {
        match self {
            Matcher::Regex(re) => regex_is_match(re, path),
            Matcher::Plain(s) => str_starts_with(path, s.as_str()),
            Matcher::All => true,
        }
    }
}

/// The positions among the first `n` of the files matched last by the directory `i`.
pub open spec fn spec_with_index(idx: Seq<Option<usize>>, i: usize, n: int) -> Seq<int>
    decreases n,
{
    if n <= 0 {
        Seq::empty()
    } else {
        let prev = spec_with_index(idx, i, n - 1);
        if idx[n - 1] == Some(i) {
            prev.push(n - 1)
        } else {
            prev
        }
    }
}

/// The positions of the files matched by the first `m` directories, ordered by the last
/// directory that matches them and then by position.
pub open spec fn spec_relevant(idx: Seq<Option<usize>>, m: int) -> Seq<int>
    decreases m,
{
    if m <= 0 {
        Seq::empty()
    } else {
        spec_relevant(idx, m - 1) + spec_with_index(idx, (m - 1) as usize, idx.len() as int)
    }
}

/// The positions of the files matched by one of the `nd` directories, ordered by the last
/// directory that matches them and then by position.
fn relevant_positions(idx: &Vec<Option<usize>>, nd: usize) -> (r: Vec<usize>)
    ensures
        r@.map_values(|k: usize| k as int) == spec_relevant(idx@, nd as int),
        forall|t: int| 0 <= t < r@.len() ==> #[trigger] r@[t] < idx@.len(),
{
    let mut r: Vec<usize> = Vec::new();
    let mut i: usize = 0;
    assert(r@.map_values(|k: usize| k as int) =~= spec_relevant(idx@, 0));
    while i < nd
        invariant
            i <= nd,
            r@.map_values(|k: usize| k as int) == spec_relevant(idx@, i as int),
            forall|t: int| 0 <= t < r@.len() ==> #[trigger] r@[t] < idx@.len(),
        decreases nd - i,
    {
        let ghost base = r@.map_values(|k: usize| k as int);
        let mut k: usize = 0;
        assert(r@.map_values(|k: usize| k as int) =~= base + spec_with_index(idx@, i, 0));
        while k < idx.len()
            invariant
                k <= idx@.len(),
                r@.map_values(|k: usize| k as int) == base + spec_with_index(idx@, i, k as int),
                forall|t: int| 0 <= t < r@.len() ==> #[trigger] r@[t] < idx@.len(),
            decreases idx@.len() - k,
        {
            let ghost before = r@;
            if idx[k] == Some(i) {
                r.push(k);
                assert(r@.map_values(|k: usize| k as int) =~= before.map_values(|k: usize| k as int).push(k as int));
            }
            k = k + 1;
        }
        i = i + 1;
    }
    r
}

/// The files of a set that remain among its first `n`: those that are not in a directory to
/// remove files from, and the one kept there if no file in a reference directory remains.
pub open spec fn spec_remaining(
    c: Seq<ConflictingView>,
    removable: Seq<ConflictingView>,
    retain: Option<ConflictingView>,
    any_reference: bool,
    n: int,
) -> Seq<ConflictingView>
    decreases n,
{
    if n <= 0 {
        Seq::empty()
    } else {
        let prev = spec_remaining(c, removable, retain, any_reference, n - 1);
        let p = c[n - 1];
        if !removable.contains(p) || (retain == Some(p) && !any_reference) {
            prev.push(p)
        } else {
            prev
        }
    }
}

/// The action removing the file `f` of the set `e`, with the files `remaining` remaining.
pub open spec fn spec_removal(e: DupSetView, f: ConflictingView, remaining: Seq<ConflictingView>) -> ActionView {
    (
        e.0 == HashTreeFileEntryType::Directory,
        f.0,
        remaining.map_values(|p: ConflictingView| p.0),
        e.2,
        e.1,
        f.1,
    )
}

/// The actions removing the files at the first `n` positions of `order`, but the one kept.
pub open spec fn spec_removals(
    e: DupSetView,
    order: Seq<int>,
    retain: Option<ConflictingView>,
    remaining: Seq<ConflictingView>,
    n: int,
) -> Seq<ActionView>
    decreases n,
{
    if n <= 0 {
        Seq::empty()
    } else {
        let prev = spec_removals(e, order, retain, remaining, n - 1);
        let f = e.3[order[n - 1]];
        if retain == Some(f) {
            prev
        } else {
            prev.push(spec_removal(e, f, remaining))
        }
    }
}

/// The actions planned for the set `e`, whose files the `nd` directories match last as `idx`
/// says and the reference directories as `reference` says: the files in the directories are
/// ordered by the last directory that matches them; the last of them is kept; the files
/// remain that are not in a directory, and the kept one if none is in a reference
/// directory. If some file remains, every file in a directory but the kept one is removed;
/// nothing is planned for a set of other files, or for one with no file in a directory or a
/// reference directory.
pub open spec fn spec_set_actions(e: DupSetView, idx: Seq<Option<usize>>, reference: Seq<bool>, nd: int) -> Seq<ActionView> {
    let c = e.3;
    let order = spec_relevant(idx, nd);
    let removable = order.map_values(|k: int| c[k]);
    let retain = if order.len() > 0 {
        Some(c[order.last()])
    } else {
        None
    };
    let any_reference = exists|k: int| 0 <= k < reference.len() && reference[k];
    let remaining = spec_remaining(c, removable, retain, any_reference, c.len() as int);
    if (retain is None && !any_reference) || remaining.len() == 0 || e.0 == HashTreeFileEntryType::Other {
        Seq::empty()
    } else {
        spec_removals(e, order, retain, remaining, order.len() as int)
    }
}

/// Whether two files of a set are the same: same path and modification time.
fn same_conflicting(a: &ConflictingEntry, b: &ConflictingEntry) -> (r: bool)
    ensures
        r == (a.deep_view() == b.deep_view()),
{
    a.modified == b.modified && a.path.same_as(&b.path)
}

/// The actions planned for the set `entry` (see `spec_set_actions`).
pub fn plan_set(entry: &DupSetEntry, idx: &Vec<Option<usize>>, reference: &Vec<bool>, nd: usize) -> (r: Vec<DeduplicationAction>)
    requires
        idx@.len() == entry.conflicting@.len(),
    ensures
        r.deep_view() == spec_set_actions(entry.deep_view(), idx@, reference@, nd as int),
{
    let ghost e = entry.deep_view();
    let ghost c = e.3;
    let c_exec = &entry.conflicting;
    let order = relevant_positions(idx, nd);
    let ghost order_v = order@.map_values(|k: usize| k as int);
    let ghost removable = order_v.map_values(|k: int| c[k]);
    let retain: Option<usize> = if order.len() > 0 {
        Some(order[order.len() - 1])
    } else {
        None
    };
    let ghost retain_v: Option<ConflictingView> = if order_v.len() > 0 {
        Some(c[order_v.last()])
    } else {
        None
    };
    let mut any_reference = false;
    let mut k: usize = 0;
    while k < reference.len()
        invariant
            k <= reference@.len(),
            any_reference == exists|t: int| 0 <= t < k && reference@[t],
        decreases reference@.len() - k,
    {
        if reference[k] {
            any_reference = true;
        }
        k = k + 1;
    }
    let mut remaining: Vec<FilePath> = Vec::new();
    let ghost mut remaining_v: Seq<ConflictingView> = Seq::empty();
    let mut p: usize = 0;
    while p < c_exec.len()
        invariant
            c == c_exec.deep_view(),
            e == entry.deep_view(),
            order_v == order@.map_values(|k: usize| k as int),
            removable == order_v.map_values(|k: int| c[k]),
            forall|t: int| 0 <= t < order@.len() ==> #[trigger] order@[t] < c.len(),
            retain_v == if order_v.len() > 0 {
                Some(c[order_v.last()])
            } else {
                None
            },
            retain == if order@.len() > 0 {
                Some(order@.last())
            } else {
                None::<usize>
            },
            any_reference == exists|t: int| 0 <= t < reference@.len() && reference@[t],
            p <= c.len(),
            remaining_v == spec_remaining(c, removable, retain_v, any_reference, p as int),
            remaining.deep_view() == remaining_v.map_values(|q: ConflictingView| q.0),
        decreases c.len() - p,
    {
        let mut in_removable = false;
        let mut t: usize = 0;
        while t < order.len()
            invariant
                c == c_exec.deep_view(),
                p < c.len(),
                order_v == order@.map_values(|k: usize| k as int),
                removable == order_v.map_values(|k: int| c[k]),
                forall|u: int| 0 <= u < order@.len() ==> #[trigger] order@[u] < c.len(),
                t <= order@.len(),
                in_removable == exists|u: int| 0 <= u < t && removable[u] == c[p as int],
            decreases order@.len() - t,
        {
            let same = same_conflicting(&c_exec[order[t]], &c_exec[p]);
            assert(removable[t as int] == c[order@[t as int] as int]);
            if same {
                in_removable = true;
                assert(removable[t as int] == c[p as int]);
            }
            t = t + 1;
        }
        assert(in_removable == removable.contains(c[p as int])) by {
            if in_removable {
                let u = choose|u: int| 0 <= u < order@.len() && removable[u] == c[p as int];
                assert(removable[u] == c[p as int]);
            }
            if removable.contains(c[p as int]) {
                let u = choose|u: int| 0 <= u < removable.len() && removable[u] == c[p as int];
                assert(0 <= u < order@.len() && removable[u] == c[p as int]);
            }
        }
        proof {
            if order@.len() > 0 {
                assert(order_v.last() == order@.last() as int);
            }
        }
        let kept_one = match retain {
            Some(r) => same_conflicting(&c_exec[r], &c_exec[p]) && !any_reference,
            None => false,
        };
        let ghost before = remaining.deep_view();
        assert(c[p as int] == c_exec@[p as int].deep_view());
        if !in_removable || kept_one {
            remaining.push(c_exec[p].path.duplicate());
            proof {
                remaining_v = remaining_v.push(c[p as int]);
            }
            assert(remaining.deep_view() =~= before.push(c[p as int].0));
            assert(remaining.deep_view() =~= remaining_v.map_values(|q: ConflictingView| q.0));
        }
        p = p + 1;
    }
    let mut actions: Vec<DeduplicationAction> = Vec::new();
    if (retain.is_none() && !any_reference) || remaining.len() == 0 || entry.ftype == HashTreeFileEntryType::Other {
        assert(actions.deep_view() =~= Seq::<ActionView>::empty());
        return actions;
    }
    let mut t: usize = 0;
    assert(actions.deep_view() =~= spec_removals(e, order_v, retain_v, remaining_v, 0));
    while t < order.len()
        invariant
            c == c_exec.deep_view(),
            e == entry.deep_view(),
            c == e.3,
            order_v == order@.map_values(|k: usize| k as int),
            forall|u: int| 0 <= u < order@.len() ==> #[trigger] order@[u] < c.len(),
            retain_v == if order_v.len() > 0 {
                Some(c[order_v.last()])
            } else {
                None
            },
            retain == if order@.len() > 0 {
                Some(order@.last())
            } else {
                None::<usize>
            },
            remaining.deep_view() == remaining_v.map_values(|q: ConflictingView| q.0),
            t <= order@.len(),
            actions.deep_view() == spec_removals(e, order_v, retain_v, remaining_v, t as int),
        decreases order@.len() - t,
    {
        let k = order[t];
        assert(order_v[t as int] == k as int);
        assert(c[k as int] == c_exec@[k as int].deep_view());
        proof {
            if order@.len() > 0 {
                assert(order_v.last() == order@.last() as int);
                assert(c[order@.last() as int] == c_exec@[order@.last() as int].deep_view());
            }
        }
        let skip = match retain {
            Some(r) => same_conflicting(&c_exec[r], &c_exec[k]),
            None => false,
        };
        let ghost before = actions.deep_view();
        if !skip {
            let remaining_duplicates = copy_paths(&remaining);
            let action = if entry.ftype == HashTreeFileEntryType::Directory {
                DeduplicationAction::RemoveDirectory {
                    path: c_exec[k].path.duplicate(),
                    hash: entry.hash.duplicate(),
                    remaining_duplicates,
                    children: entry.size,
                    modification_time: c_exec[k].modified,
                }
            } else {
                DeduplicationAction::RemoveFile {
                    path: c_exec[k].path.duplicate(),
                    hash: entry.hash.duplicate(),
                    remaining_duplicates,
                    size: entry.size,
                    modification_time: c_exec[k].modified,
                }
            };
            actions.push(action);
            assert(actions.deep_view() =~= before.push(spec_removal(e, c[k as int], remaining_v)));
        }
        t = t + 1;
    }
    actions
}

/// The names joined by `/`.
pub open spec fn spec_joined(names: Seq<Seq<char>>) -> Seq<char>
    decreases names.len(),
{
    if names.len() == 0 {
        Seq::empty()
    } else if names.len() == 1 {
        names[0]
    } else {
        spec_joined(names.drop_last()) + seq!['/'] + names.last()
    }
}

/// The text of a location in the file system given by its names: the names joined by `/`,
/// where a leading root name `/` stands alone before the rest.
pub open spec fn spec_names_text(names: Seq<Seq<char>>) -> Seq<char> {
    if names.len() > 0 && names[0] == seq!['/'] {
        seq!['/'] + spec_joined(names.drop_first())
    } else {
        spec_joined(names)
    }
}

/// The text of the location named by `names` (see `spec_names_text`).
pub fn names_text(names: &Vec<String>) -> (r: String)
    ensures
        r@ == spec_names_text(names.deep_view()),
{
    let ghost v = names.deep_view();
    let mut r = String::new();
    let mut start: usize = 0;
    proof {
        reveal_strlit("/");
    }
    if names.len() > 0 && is_root_name(&names[0]) {
        r.append("/");
        start = 1;
    }
    let ghost head = r@;
    let mut i: usize = start;
    assert(v.subrange(start as int, start as int) =~= Seq::<Seq<char>>::empty());
    while i < names.len()
        invariant
            v == names.deep_view(),
            start <= i <= v.len(),
            r@ == head + spec_joined(v.subrange(start as int, i as int)),
            "/"@ == seq!['/'],
        decreases v.len() - i,
    {
        let ghost before = v.subrange(start as int, i as int);
        assert(v.subrange(start as int, i as int + 1).drop_last() =~= before);
        if i > start {
            r.append("/");
        }
        r.append(names[i].as_str());
        proof {
            if i == start {
                assert(before =~= Seq::<Seq<char>>::empty());
            }
        }
        assert(r@ =~= head + spec_joined(v.subrange(start as int, i as int + 1)));
        i = i + 1;
    }
    proof {
        if v.len() > 0 && v[0] == seq!['/'] {
            assert(v.subrange(1, v.len() as int) =~= v.drop_first());
        } else {
            assert(v.subrange(0, v.len() as int) =~= v);
        }
    }
    r
}

/// `found` is what the search for the last of `matchers` that matches `text` may give: the
/// last one that answered yes, all after it having answered no; none if all answered no.
pub open spec fn spec_last_match(matchers: Seq<Matcher>, text: Seq<char>, found: Option<usize>) -> bool {
    match found {
        Some(i) => i < matchers.len() && spec_may_match(matchers[i as int], text, true)
            && forall|j: int| i < j < matchers.len() ==> spec_may_match(#[trigger] matchers[j], text, false),
        None => forall|j: int| 0 <= j < matchers.len() ==> spec_may_match(#[trigger] matchers[j], text, false),
    }
}

/// `any` is what the question whether one of `matchers` matches `text` may give.
pub open spec fn spec_any_match(matchers: Seq<Matcher>, text: Seq<char>, any: bool) -> bool {
    if any {
        exists|j: int| 0 <= j < matchers.len() && spec_may_match(#[trigger] matchers[j], text, true)
    } else {
        forall|j: int| 0 <= j < matchers.len() ==> spec_may_match(#[trigger] matchers[j], text, false)
    }
}

/// The index of the last of `matchers` that matches `text`.
pub fn last_directory_match(matchers: &Vec<Matcher>, text: &str) -> (r: Option<usize>)
    ensures
        spec_last_match(matchers@, text@, r),
{
    let mut i: usize = matchers.len();
    while i > 0
        invariant
            i <= matchers@.len(),
            forall|j: int| i <= j < matchers@.len() ==> spec_may_match(#[trigger] matchers@[j], text@, false),
        decreases i,
    {
        i = i - 1;
        if matchers[i].matches(text) {
            return Some(i);
        }
    }
    None
}

/// Whether one of `matchers` matches `text`.
pub fn any_match(matchers: &Vec<Matcher>, text: &str) -> (r: bool)
    ensures
        spec_any_match(matchers@, text@, r),
{
    let mut i: usize = 0;
    while i < matchers.len()
        invariant
            i <= matchers@.len(),
            forall|j: int| 0 <= j < i ==> spec_may_match(#[trigger] matchers@[j], text@, false),
        decreases matchers@.len() - i,
    {
        if matchers[i].matches(text) {
            assert(spec_may_match(matchers@[i as int], text@, true));
            return true;
        }
        i = i + 1;
    }
    false
}

/// `found` and `reference` are what matching the file at `p` may give: a file with no
/// location matches nothing; otherwise the text of its location in the file system is
/// matched against the directories and the reference directories.
pub open spec fn spec_file_matched(
    p: PathView,
    directories: Seq<Matcher>,
    references: Seq<Matcher>,
    found: Option<usize>,
    reference: bool,
) -> bool {
    if p.len() == 0 {
        found is None && !reference
    } else {
        spec_last_match(directories, spec_names_text(p[0]), found)
            && spec_any_match(references, spec_names_text(p[0]), reference)
    }
}

/// `idx` and `reference` are what matching the files of the set `e` may give.
pub open spec fn spec_set_matched(
    e: DupSetView,
    directories: Seq<Matcher>,
    references: Seq<Matcher>,
    idx: Seq<Option<usize>>,
    reference: Seq<bool>,
) -> bool {
    &&& idx.len() == e.3.len()
    &&& reference.len() == e.3.len()
    &&& forall|k: int| 0 <= k < e.3.len() ==> #[trigger] spec_file_matched(e.3[k].0, directories, references, idx[k], reference[k])
}

/// Matches the files of the set `entry` against the directories and the reference
/// directories: for each file the last directory that matches it and whether a reference
/// directory does.
pub fn match_set(entry: &DupSetEntry, directories: &Vec<Matcher>, references: &Vec<Matcher>) -> (r: (Vec<Option<usize>>, Vec<bool>))
    ensures
        spec_set_matched(entry.deep_view(), directories@, references@, r.0@, r.1@),
{
    let ghost c = entry.conflicting.deep_view();
    let mut idx: Vec<Option<usize>> = Vec::new();
    let mut reference: Vec<bool> = Vec::new();
    let mut k: usize = 0;
    while k < entry.conflicting.len()
        invariant
            c == entry.conflicting.deep_view(),
            k <= c.len(),
            idx@.len() == k,
            reference@.len() == k,
            forall|t: int| 0 <= t < k ==> #[trigger] spec_file_matched(c[t].0, directories@, references@, idx@[t], reference@[t]),
        decreases c.len() - k,
    {
        let path = &entry.conflicting[k].path;
        assert(c[k as int].0 == path@);
        match path.first_component() {
            Some(names) => {
                let text = names_text(names);
                let found = last_directory_match(directories, text.as_str());
                let any = any_match(references, text.as_str());
                idx.push(found);
                reference.push(any);
            },
            None => {
                idx.push(None);
                reference.push(false);
            },
        }
        assert(spec_file_matched(c[k as int].0, directories@, references@, idx@[k as int], reference@[k as int]));
        k = k + 1;
    }
    (idx, reference)
}


/// The actions planned for the first `n` sets of `entries`, one after the other.
pub open spec fn spec_file_actions(
    entries: Seq<DupSetView>,
    idxs: Seq<Seq<Option<usize>>>,
    refs: Seq<Seq<bool>>,
    nd: int,
    n: int,
) -> Seq<ActionView>
    decreases n,
{
    if n <= 0 {
        Seq::empty()
    } else {
        spec_file_actions(entries, idxs, refs, nd, n - 1) + spec_set_actions(entries[n - 1], idxs[n - 1], refs[n - 1], nd)
    }
}

/// Whether one of the ancestors of the location `names` is among `removed`.
pub open spec fn spec_has_removed_ancestor(names: Seq<Seq<char>>, removed: Seq<Seq<Seq<char>>>) -> bool
    decreases names.len(),
{
    match spec_location_parent(names) {
        None => false,
        Some(parent) => removed.contains(parent) || spec_has_removed_ancestor(parent, removed),
    }
}

/// The locations in the file system of the directories that the first `n` actions remove.
pub open spec fn spec_removed_directories(actions: Seq<ActionView>, n: int) -> Seq<Seq<Seq<char>>>
    decreases n,
{
    if n <= 0 {
        Seq::empty()
    } else {
        let prev = spec_removed_directories(actions, n - 1);
        let a = actions[n - 1];
        if a.0 && a.1.len() > 0 {
            prev.push(a.1[0])
        } else {
            prev
        }
    }
}

/// Whether the action `a` stays: it has a location in the file system and no ancestor of
/// that location is among `removed`.
pub open spec fn spec_action_stays(a: ActionView, removed: Seq<Seq<Seq<char>>>) -> bool {
    a.1.len() > 0 && !spec_has_removed_ancestor(a.1[0], removed)
}

/// The first `n` actions that stay.
pub open spec fn spec_staying(actions: Seq<ActionView>, removed: Seq<Seq<Seq<char>>>, n: int) -> Seq<ActionView>
    decreases n,
{
    if n <= 0 {
        Seq::empty()
    } else {
        let prev = spec_staying(actions, removed, n - 1);
        if spec_action_stays(actions[n - 1], removed) {
            prev.push(actions[n - 1])
        } else {
            prev
        }
    }
}

/// The actions without those inside a directory that an action removes.
pub open spec fn spec_without_redundant(actions: Seq<ActionView>) -> Seq<ActionView> {
    spec_staying(actions, spec_removed_directories(actions, actions.len() as int), actions.len() as int)
}

/// Whether one of the ancestors of the location `names` is among `removed`.
fn has_removed_ancestor(names: &Vec<String>, removed: &Vec<Vec<String>>) -> (r: bool)
    ensures
        r == spec_has_removed_ancestor(names.deep_view(), removed.deep_view()),
    decreases names@.len(),
{
    if names.len() == 0 {
        return false;
    }
    if names.len() == 1 && is_root_name(&names[0]) {
        return false;
    }
    let mut parent = copy_names(names);
    parent.pop();
    assert(parent.deep_view() =~= names.deep_view().drop_last());
    if names_list_contains(removed, &parent) {
        true
    } else {
        has_removed_ancestor(&parent, removed)
    }
}

/// The locations in the file system of the directories that `actions` remove.
fn removed_directories(actions: &Vec<DeduplicationAction>) -> (r: Vec<Vec<String>>)
    ensures
        r.deep_view() == spec_removed_directories(actions.deep_view(), actions@.len() as int),
{
    let ghost av = actions.deep_view();
    let mut r: Vec<Vec<String>> = Vec::new();
    let mut i: usize = 0;
    while i < actions.len()
        invariant
            av == actions.deep_view(),
            i <= av.len(),
            r.deep_view() == spec_removed_directories(av, i as int),
        decreases av.len() - i,
    {
        let a = &actions[i];
        assert(av[i as int] == a.deep_view());
        if let DeduplicationAction::RemoveDirectory { path, .. } = a {
            if let Some(first) = path.first_component() {
                let ghost before = r.deep_view();
                r.push(copy_names(first));
                assert(r.deep_view() =~= before.push(av[i as int].1[0]));
            }
        }
        i = i + 1;
    }
    r
}

/// The actions without those inside a directory that an action removes
/// (see `spec_without_redundant`).
pub fn remove_redundant(actions: &Vec<DeduplicationAction>) -> (r: Vec<DeduplicationAction>)
    ensures
        r.deep_view() == spec_without_redundant(actions.deep_view()),
{
    let ghost av = actions.deep_view();
    let removed = removed_directories(actions);
    let ghost rv = removed.deep_view();
    let mut r: Vec<DeduplicationAction> = Vec::new();
    let mut i: usize = 0;
    while i < actions.len()
        invariant
            av == actions.deep_view(),
            rv == removed.deep_view(),
            rv == spec_removed_directories(av, av.len() as int),
            i <= av.len(),
            r.deep_view() == spec_staying(av, rv, i as int),
        decreases av.len() - i,
    {
        let a = &actions[i];
        assert(av[i as int] == a.deep_view());
        let stays = match a.path().first_component() {
            Some(first) => !has_removed_ancestor(first, &removed),
            None => false,
        };
        if stays {
            let ghost before = r.deep_view();
            r.push(a.duplicate());
            assert(r.deep_view() =~= before.push(av[i as int]));
        }
        i = i + 1;
    }
    r
}


/// Whether the action `a` removes the path `q`: `q` is the path of `a`, or `a` removes a
/// directory and the location of `q` in the file system is that directory or lies below it.
pub open spec fn spec_removes_path(a: ActionView, q: PathView) -> bool {
    q == a.1 || (a.0 && a.1.len() > 0 && q.len() > 0 && (q[0] == a.1[0] || spec_has_removed_ancestor(
        q[0],
        seq![a.1[0]],
    )))
}

/// Whether the action `a` removes none of the remaining duplicates of the actions `l`.
pub open spec fn spec_spares_remaining(a: ActionView, l: Seq<ActionView>) -> bool {
    forall|i: int, j: int| 0 <= i < l.len() && 0 <= j < l[i].2.len() ==> !spec_removes_path(a, #[trigger] l[i].2[j])
}

/// The first `n` actions of `l` that remove none of the remaining duplicates of `l`.
pub open spec fn spec_sparing(l: Seq<ActionView>, n: int) -> Seq<ActionView>
    decreases n,
{
    if n <= 0 {
        Seq::empty()
    } else {
        let prev = spec_sparing(l, n - 1);
        if spec_spares_remaining(l[n - 1], l) {
            prev.push(l[n - 1])
        } else {
            prev
        }
    }
}

/// The actions without those that would remove a duplicate that an action leaves behind.
pub open spec fn spec_without_conflicts(l: Seq<ActionView>) -> Seq<ActionView> {
    spec_sparing(l, l.len() as int)
}

/// The plan made of the actions `actions`: those inside a directory that an action removes
/// are left out, and then those that would remove a remaining duplicate.
pub open spec fn spec_plan(actions: Seq<ActionView>) -> Seq<ActionView> {
    spec_without_conflicts(spec_without_redundant(actions))
}

/// Whether the action `a` removes the path `q` (see `spec_removes_path`).
fn removes_path(a: &DeduplicationAction, q: &FilePath) -> (r: bool)
    ensures
        r == spec_removes_path(a.deep_view(), q@),
{
    if q.same_as(a.path()) {
        return true;
    }
    match a {
        DeduplicationAction::RemoveDirectory { path, .. } => match (path.first_component(), q.first_component()) {
            (Some(dir), Some(location)) => {
                if names_equal(location, dir) {
                    true
                } else {
                    let removed = vec![copy_names(dir)];
                    assert(removed.deep_view() =~= seq![dir.deep_view()]);
                    has_removed_ancestor(location, &removed)
                }
            },
            _ => false,
        },
        DeduplicationAction::RemoveFile { .. } => false,
    }
}

/// Whether the action `a` removes none of the remaining duplicates of the actions `l`.
fn spares_remaining(a: &DeduplicationAction, l: &Vec<DeduplicationAction>) -> (r: bool)
    ensures
        r == spec_spares_remaining(a.deep_view(), l.deep_view()),
{
    let ghost lv = l.deep_view();
    let mut i: usize = 0;
    while i < l.len()
        invariant
            lv == l.deep_view(),
            i <= lv.len(),
            forall|i2: int, j: int| 0 <= i2 < i && 0 <= j < lv[i2].2.len() ==> !spec_removes_path(a.deep_view(), #[trigger] lv[i2].2[j]),
        decreases lv.len() - i,
    {
        assert(lv[i as int] == l@[i as int].deep_view());
        let remaining = l[i].remaining_duplicates();
        let mut j: usize = 0;
        while j < remaining.len()
            invariant
                lv == l.deep_view(),
                i < lv.len(),
                remaining.deep_view() == lv[i as int].2,
                j <= remaining@.len(),
                forall|j2: int| 0 <= j2 < j ==> !spec_removes_path(a.deep_view(), #[trigger] lv[i as int].2[j2]),
            decreases remaining@.len() - j,
        {
            assert(remaining.deep_view()[j as int] == remaining@[j as int]@);
            if removes_path(a, &remaining[j]) {
                return false;
            }
            j = j + 1;
        }
        i = i + 1;
    }
    true
}

/// The actions without those that would remove a duplicate that one of them leaves behind
/// (see `spec_without_conflicts`).
pub fn remove_conflicting(actions: &Vec<DeduplicationAction>) -> (r: Vec<DeduplicationAction>)
    ensures
        r.deep_view() == spec_without_conflicts(actions.deep_view()),
{
    let ghost av = actions.deep_view();
    let mut r: Vec<DeduplicationAction> = Vec::new();
    let mut i: usize = 0;
    while i < actions.len()
        invariant
            av == actions.deep_view(),
            i <= av.len(),
            r.deep_view() == spec_sparing(av, i as int),
        decreases av.len() - i,
    {
        let a = &actions[i];
        assert(av[i as int] == a.deep_view());
        if spares_remaining(a, actions) {
            let ghost before = r.deep_view();
            r.push(a.duplicate());
            assert(r.deep_view() =~= before.push(av[i as int]));
        }
        i = i + 1;
    }
    r
}


/// The actions planned for all sets of `file`, whose files the `nd` directories and the
/// reference directories match as `idxs` and `refs` say, set by set; actions inside a
/// directory that another action removes are left out, and so are actions that would remove
/// a duplicate that another action leaves behind (`spec_plan`).
pub fn plan_actions(file: &DupSetFile, idxs: &Vec<Vec<Option<usize>>>, refs: &Vec<Vec<bool>>, nd: usize) -> (r: Vec<DeduplicationAction>)
    requires
        idxs@.len() == file.entries@.len(),
        refs@.len() == file.entries@.len(),
        forall|k: int| 0 <= k < file.entries@.len() ==> #[trigger] idxs@[k]@.len() == file.entries@[k].conflicting@.len(),
    ensures
        r.deep_view() == spec_plan(
            spec_file_actions(file.entries.deep_view(), idxs.deep_view(), refs.deep_view(), nd as int, file.entries@.len() as int),
        ),
{
    let ghost ev = file.entries.deep_view();
    let ghost iv = idxs.deep_view();
    let ghost fv = refs.deep_view();
    let mut all: Vec<DeduplicationAction> = Vec::new();
    let mut k: usize = 0;
    while k < file.entries.len()
        invariant
            ev == file.entries.deep_view(),
            iv == idxs.deep_view(),
            fv == refs.deep_view(),
            idxs@.len() == file.entries@.len(),
            refs@.len() == file.entries@.len(),
            forall|t: int| 0 <= t < file.entries@.len() ==> #[trigger] idxs@[t]@.len() == file.entries@[t].conflicting@.len(),
            k <= ev.len(),
            all.deep_view() == spec_file_actions(ev, iv, fv, nd as int, k as int),
        decreases ev.len() - k,
    {
        let mut set_actions = plan_set(&file.entries[k], &idxs[k], &refs[k], nd);
        assert(ev[k as int] == file.entries@[k as int].deep_view());
        assert(iv[k as int] == idxs@[k as int]@);
        assert(fv[k as int] == refs@[k as int]@);
        let ghost before = all.deep_view();
        let ghost added = set_actions.deep_view();
        all.append(&mut set_actions);
        assert(all.deep_view() =~= before + added);
        k = k + 1;
    }
    let kept = remove_redundant(&all);
    remove_conflicting(&kept)
}

/// `idxs` and `refs` are what matching the files of all sets of `entries` may give.
pub open spec fn spec_file_matched_all(
    entries: Seq<DupSetView>,
    directories: Seq<Matcher>,
    references: Seq<Matcher>,
    idxs: Seq<Seq<Option<usize>>>,
    refs: Seq<Seq<bool>>,
) -> bool {
    &&& idxs.len() == entries.len()
    &&& refs.len() == entries.len()
    &&& forall|k: int| 0 <= k < entries.len() ==> #[trigger] spec_set_matched(entries[k], directories, references, idxs[k], refs[k])
}

/// Plans the deduplication of `file`: the files of each set are matched against the
/// directories, oldest first, and the reference directories, and the actions are planned
/// as `plan_actions` says.
pub fn plan_deduplication(file: &DupSetFile, directories: &Vec<Matcher>, references: &Vec<Matcher>) -> (r: Vec<DeduplicationAction>)
    ensures
        exists|idxs: Seq<Seq<Option<usize>>>, refs: Seq<Seq<bool>>|
            #[trigger] spec_file_matched_all(file.entries.deep_view(), directories@, references@, idxs, refs)
            && r.deep_view() == spec_plan(
                spec_file_actions(file.entries.deep_view(), idxs, refs, directories@.len() as int, file.entries@.len() as int),
            ),
{
    let ghost ev = file.entries.deep_view();
    let mut idxs: Vec<Vec<Option<usize>>> = Vec::new();
    let mut refs: Vec<Vec<bool>> = Vec::new();
    let mut k: usize = 0;
    while k < file.entries.len()
        invariant
            ev == file.entries.deep_view(),
            k <= ev.len(),
            idxs@.len() == k,
            refs@.len() == k,
            forall|t: int| 0 <= t < k ==> #[trigger] idxs@[t]@.len() == file.entries@[t].conflicting@.len(),
            forall|t: int| 0 <= t < k ==> #[trigger] spec_set_matched(ev[t], directories@, references@, idxs@[t]@, refs@[t]@),
        decreases ev.len() - k,
    {
        let (idx, reference) = match_set(&file.entries[k], directories, references);
        assert(ev[k as int] == file.entries@[k as int].deep_view());
        idxs.push(idx);
        refs.push(reference);
        k = k + 1;
    }
    let r = plan_actions(file, &idxs, &refs, directories.len());
    assert(spec_file_matched_all(ev, directories@, references@, idxs.deep_view(), refs.deep_view())) by {
        assert forall|t: int| 0 <= t < ev.len() implies #[trigger] spec_set_matched(ev[t], directories@, references@, idxs.deep_view()[t], refs.deep_view()[t]) by {
            assert(idxs.deep_view()[t] == idxs@[t]@);
            assert(refs.deep_view()[t] == refs@[t]@);
        }
    }
    r
}

/// `m` is the matcher of the directory `text` under the matching model `model`.
pub open spec fn spec_matcher_of(model: MatchingModel, text: Seq<char>, m: Matcher) -> bool {
    match model {
        MatchingModel::Regex => regex_compiles(text) && (m matches Matcher::Regex(re) && re@ == text),
        MatchingModel::Plain => m matches Matcher::Plain(p) && p@ == text,
    }
}

/// The matchers of the directories `texts` under the matching model `model`, or the error
/// of the first one that is not a regular expression.
pub fn directory_matchers(model: MatchingModel, texts: &Vec<String>) -> (r: Result<Vec<Matcher>, InvalidDirectory>)
    ensures
        match r {
            Ok(ms) => ms@.len() == texts@.len() && forall|k: int| 0 <= k < texts@.len()
                ==> #[trigger] spec_matcher_of(model, texts@[k]@, ms@[k]),
            Err(e) => model == MatchingModel::Regex && exists|k: int| 0 <= k < texts@.len()
                && !regex_compiles(#[trigger] texts@[k]@) && e.directory@ == texts@[k]@
                && forall|j: int| 0 <= j < k ==> regex_compiles(#[trigger] texts@[j]@),
        },
{
    let mut ms: Vec<Matcher> = Vec::new();
    let mut k: usize = 0;
    while k < texts.len()
        invariant
            k <= texts@.len(),
            ms@.len() == k,
            forall|t: int| 0 <= t < k ==> #[trigger] spec_matcher_of(model, texts@[t]@, ms@[t]),
            model == MatchingModel::Regex ==> forall|t: int| 0 <= t < k ==> regex_compiles(#[trigger] texts@[t]@),
        decreases texts@.len() - k,
    {
        match Matcher::new(model, texts[k].as_str()) {
            Ok(m) => {
                let ghost before = ms@;
                ms.push(m);
                assert(spec_matcher_of(model, texts@[k as int]@, ms@[k as int]));
                assert forall|t: int| 0 <= t < k + 1 implies #[trigger] spec_matcher_of(model, texts@[t]@, ms@[t]) by {
                    if t < k {
                        assert(ms@[t] == before[t]);
                    }
                }
                assert(model == MatchingModel::Regex ==> regex_compiles(texts@[k as int]@));
            },
            Err(e) => {
                assert(!regex_compiles(texts@[k as int]@));
                return Err(e);
            },
        }
        k = k + 1;
    }
    Ok(ms)
}


/// Every removal planned for a set names the same remaining duplicates.
proof fn lemma_removals_name_remaining(
    e: DupSetView,
    order: Seq<int>,
    retain: Option<ConflictingView>,
    remaining: Seq<ConflictingView>,
    n: int,
)
    ensures
        forall|k: int| 0 <= k < spec_removals(e, order, retain, remaining, n).len()
            ==> (#[trigger] spec_removals(e, order, retain, remaining, n)[k]).2 == remaining.map_values(|p: ConflictingView| p.0),
    decreases n,
{
    if n > 0 {
        lemma_removals_name_remaining(e, order, retain, remaining, n - 1);
        let prev = spec_removals(e, order, retain, remaining, n - 1);
        let f = e.3[order[n - 1]];
        if retain != Some(f) {
            assert forall|k: int| 0 <= k < prev.len() + 1 implies (#[trigger] prev.push(spec_removal(e, f, remaining))[k]).2
                == remaining.map_values(|p: ConflictingView| p.0) by {
                if k < prev.len() {
                    assert(prev.push(spec_removal(e, f, remaining))[k] == prev[k]);
                }
            }
        }
    }
}

/// Every removal planned for a set leaves at least one duplicate of what it removes: the
/// list of remaining duplicates is never empty.
pub proof fn law_set_removals_leave_a_duplicate(e: DupSetView, idx: Seq<Option<usize>>, reference: Seq<bool>, nd: int)
    ensures
        forall|k: int| 0 <= k < spec_set_actions(e, idx, reference, nd).len()
            ==> (#[trigger] spec_set_actions(e, idx, reference, nd)[k]).2.len() > 0,
{
    let c = e.3;
    let order = spec_relevant(idx, nd);
    let removable = order.map_values(|k: int| c[k]);
    let retain = if order.len() > 0 {
        Some(c[order.last()])
    } else {
        None
    };
    let any_reference = exists|k: int| 0 <= k < reference.len() && reference[k];
    let remaining = spec_remaining(c, removable, retain, any_reference, c.len() as int);
    lemma_removals_name_remaining(e, order, retain, remaining, order.len() as int);
}

/// Every action planned for the first `n` sets leaves at least one duplicate.
proof fn lemma_file_actions_leave_a_duplicate(
    entries: Seq<DupSetView>,
    idxs: Seq<Seq<Option<usize>>>,
    refs: Seq<Seq<bool>>,
    nd: int,
    n: int,
)
    ensures
        forall|k: int| 0 <= k < spec_file_actions(entries, idxs, refs, nd, n).len()
            ==> (#[trigger] spec_file_actions(entries, idxs, refs, nd, n)[k]).2.len() > 0,
    decreases n,
{
    if n > 0 {
        lemma_file_actions_leave_a_duplicate(entries, idxs, refs, nd, n - 1);
        law_set_removals_leave_a_duplicate(entries[n - 1], idxs[n - 1], refs[n - 1], nd);
        let prev = spec_file_actions(entries, idxs, refs, nd, n - 1);
        let last = spec_set_actions(entries[n - 1], idxs[n - 1], refs[n - 1], nd);
        assert forall|k: int| 0 <= k < (prev + last).len() implies (#[trigger] (prev + last)[k]).2.len() > 0 by {
            if k >= prev.len() {
                assert((prev + last)[k] == last[k - prev.len()]);
            }
        }
    }
}

/// The actions that stay are among the actions.
proof fn lemma_staying_are_actions(actions: Seq<ActionView>, removed: Seq<Seq<Seq<char>>>, n: int)
    requires
        0 <= n <= actions.len(),
    ensures
        forall|k: int| 0 <= k < spec_staying(actions, removed, n).len()
            ==> exists|j: int| 0 <= j < n && #[trigger] spec_staying(actions, removed, n)[k] == actions[j],
    decreases n,
{
    if n > 0 {
        lemma_staying_are_actions(actions, removed, n - 1);
        let prev = spec_staying(actions, removed, n - 1);
        assert forall|k: int| 0 <= k < spec_staying(actions, removed, n).len()
            implies exists|j: int| 0 <= j < n && #[trigger] spec_staying(actions, removed, n)[k] == actions[j] by {
            if k < prev.len() {
                assert(spec_staying(actions, removed, n)[k] == prev[k]);
                let j = choose|j: int| 0 <= j < n - 1 && prev[k] == actions[j];
                assert(spec_staying(actions, removed, n)[k] == actions[j]);
            } else {
                assert(spec_staying(actions, removed, n)[k] == actions[n - 1]);
            }
        }
    }
}

/// The actions kept by `spec_sparing` are actions of the list that spare its remaining
/// duplicates.
proof fn lemma_sparing_are_sparing(l: Seq<ActionView>, n: int)
    requires
        0 <= n <= l.len(),
    ensures
        forall|k: int| 0 <= k < spec_sparing(l, n).len() ==> exists|j: int| 0 <= j < n
            && #[trigger] spec_sparing(l, n)[k] == l[j] && spec_spares_remaining(l[j], l),
    decreases n,
{
    if n > 0 {
        lemma_sparing_are_sparing(l, n - 1);
        let prev = spec_sparing(l, n - 1);
        assert forall|k: int| 0 <= k < spec_sparing(l, n).len() implies exists|j: int| 0 <= j < n
            && #[trigger] spec_sparing(l, n)[k] == l[j] && spec_spares_remaining(l[j], l) by {
            if k < prev.len() {
                assert(spec_sparing(l, n)[k] == prev[k]);
                let j = choose|j: int| 0 <= j < n - 1 && prev[k] == l[j] && spec_spares_remaining(l[j], l);
                assert(spec_sparing(l, n)[k] == l[j]);
            } else {
                assert(spec_sparing(l, n)[k] == l[n - 1]);
            }
        }
    }
}

/// Every action that the deduplication of a file plans leaves at least one duplicate of
/// what it removes.
pub proof fn law_planned_removals_leave_a_duplicate(
    entries: Seq<DupSetView>,
    idxs: Seq<Seq<Option<usize>>>,
    refs: Seq<Seq<bool>>,
    nd: int,
)
    ensures
        forall|k: int| 0 <= k < spec_plan(spec_file_actions(entries, idxs, refs, nd, entries.len() as int)).len()
            ==> (#[trigger] spec_plan(spec_file_actions(entries, idxs, refs, nd, entries.len() as int))[k]).2.len() > 0,
{
    let all = spec_file_actions(entries, idxs, refs, nd, entries.len() as int);
    let removed = spec_removed_directories(all, all.len() as int);
    let kept = spec_without_redundant(all);
    lemma_file_actions_leave_a_duplicate(entries, idxs, refs, nd, entries.len() as int);
    lemma_staying_are_actions(all, removed, all.len() as int);
    lemma_sparing_are_sparing(kept, kept.len() as int);
    assert forall|k: int| 0 <= k < spec_plan(all).len() implies (#[trigger] spec_plan(all)[k]).2.len() > 0 by {
        let i = choose|i: int| 0 <= i < kept.len() && spec_sparing(kept, kept.len() as int)[k] == kept[i]
            && spec_spares_remaining(kept[i], kept);
        let j = choose|j: int| 0 <= j < all.len() && spec_staying(all, removed, all.len() as int)[i] == all[j];
        assert(all[j].2.len() > 0);
    }
}

/// No action of a plan removes a duplicate that an action of the plan leaves behind: neither
/// its own path nor, for a directory, anything below it is among the remaining duplicates.
pub proof fn law_plan_keeps_remaining_duplicates(actions: Seq<ActionView>)
    ensures
        forall|k: int, i: int, j: int|
            0 <= k < spec_plan(actions).len() && 0 <= i < spec_plan(actions).len() && 0 <= j < spec_plan(actions)[i].2.len()
                ==> !spec_removes_path(#[trigger] spec_plan(actions)[k], #[trigger] spec_plan(actions)[i].2[j]),
{
    let kept = spec_without_redundant(actions);
    let plan = spec_plan(actions);
    lemma_sparing_are_sparing(kept, kept.len() as int);
    assert forall|k: int, i: int, j: int|
        0 <= k < plan.len() && 0 <= i < plan.len() && 0 <= j < plan[i].2.len()
            implies !spec_removes_path(#[trigger] plan[k], #[trigger] plan[i].2[j]) by {
        let a = choose|a: int| 0 <= a < kept.len() && spec_sparing(kept, kept.len() as int)[k] == kept[a]
            && spec_spares_remaining(kept[a], kept);
        let b = choose|b: int| 0 <= b < kept.len() && spec_sparing(kept, kept.len() as int)[i] == kept[b]
            && spec_spares_remaining(kept[b], kept);
        assert(plan[i].2[j] == kept[b].2[j]);
    }
}

/// A location has a removed ancestor exactly when one of its ancestors at any depth, that is
/// one of its proper prefixes (the empty one only for a relative location), is among
/// `removed`.
pub proof fn law_removed_ancestor_at_any_depth(names: Seq<Seq<char>>, removed: Seq<Seq<Seq<char>>>)
    ensures
        spec_has_removed_ancestor(names, removed) <==> exists|k: int|
            0 <= k < names.len() && (k > 0 || names[0] != seq!['/']) && removed.contains(#[trigger] names.take(k)),
    decreases names.len(),
{
    match spec_location_parent(names) {
        None => {
            if exists|k: int| 0 <= k < names.len() && (k > 0 || names[0] != seq!['/']) && removed.contains(#[trigger] names.take(k)) {
                let k = choose|k: int| 0 <= k < names.len() && (k > 0 || names[0] != seq!['/']) && removed.contains(#[trigger] names.take(k));
                assert(false);
            }
        },
        Some(parent) => {
            law_removed_ancestor_at_any_depth(parent, removed);
            let n = names.len();
            assert(parent == names.drop_last());
            assert(names.take(n - 1) =~= parent);
            if spec_has_removed_ancestor(names, removed) {
                if removed.contains(parent) {
                    assert(0 <= n - 1 < n && (n - 1 > 0 || names[0] != seq!['/']) && removed.contains(names.take(n - 1)));
                } else {
                    let k = choose|k: int| 0 <= k < parent.len() && (k > 0 || parent[0] != seq!['/']) && removed.contains(#[trigger] parent.take(k));
                    assert(parent.take(k) =~= names.take(k));
                    assert(k > 0 || names[0] != seq!['/']);
                }
            }
            if exists|k: int| 0 <= k < names.len() && (k > 0 || names[0] != seq!['/']) && removed.contains(#[trigger] names.take(k)) {
                let k = choose|k: int| 0 <= k < names.len() && (k > 0 || names[0] != seq!['/']) && removed.contains(#[trigger] names.take(k));
                if k < n - 1 {
                    assert(parent.take(k) =~= names.take(k));
                    assert(parent[0] == names[0]);
                    assert(0 <= k < parent.len() && (k > 0 || parent[0] != seq!['/']) && removed.contains(parent.take(k)));
                }
            }
        },
    }
}

/// The locations of the directories that the first `n` actions remove are exactly the
/// locations of those actions that remove a directory.
proof fn lemma_removed_directories(actions: Seq<ActionView>, n: int, x: Seq<Seq<char>>)
    requires
        0 <= n <= actions.len(),
    ensures
        spec_removed_directories(actions, n).contains(x) <==> exists|j: int|
            0 <= j < n && (#[trigger] actions[j]).0 && actions[j].1.len() > 0 && actions[j].1[0] == x,
    decreases n,
{
    if n > 0 {
        lemma_removed_directories(actions, n - 1, x);
        let prev = spec_removed_directories(actions, n - 1);
        let a = actions[n - 1];
        if a.0 && a.1.len() > 0 {
            let cur = prev.push(a.1[0]);
            if cur.contains(x) {
                let t = choose|t: int| 0 <= t < cur.len() && cur[t] == x;
                if t < prev.len() {
                    assert(prev[t] == x);
                }
            }
            if prev.contains(x) {
                let t = choose|t: int| 0 <= t < prev.len() && prev[t] == x;
                assert(cur[t] == x);
            }
            if a.1[0] == x {
                assert(cur[prev.len() as int] == x);
            }
        }
    }
}

/// The actions that `spec_staying` keeps are the actions that stay, in order.
proof fn lemma_staying_members(actions: Seq<ActionView>, removed: Seq<Seq<Seq<char>>>, n: int)
    requires
        0 <= n <= actions.len(),
    ensures
        forall|k: int| 0 <= k < spec_staying(actions, removed, n).len() ==> exists|i: int|
            #![trigger actions[i]]
            0 <= i < n && #[trigger] spec_staying(actions, removed, n)[k] === actions[i] && spec_action_stays(actions[i], removed),
        forall|i: int| 0 <= i < n && spec_action_stays(#[trigger] actions[i], removed) ==> spec_staying(actions, removed, n).contains(actions[i]),
    decreases n,
{
    if n > 0 {
        lemma_staying_members(actions, removed, n - 1);
        let prev = spec_staying(actions, removed, n - 1);
        let cur = spec_staying(actions, removed, n);
        assert forall|k: int| 0 <= k < spec_staying(actions, removed, n).len() implies exists|i: int|
            #![trigger actions[i]]
            0 <= i < n && #[trigger] spec_staying(actions, removed, n)[k] === actions[i] && spec_action_stays(actions[i], removed) by {
            if k < prev.len() {
                assert(cur[k] == prev[k]);
                let i = choose|i: int| 0 <= i < n - 1 && #[trigger] prev[k] === actions[i] && spec_action_stays(actions[i], removed);
                assert(cur[k] == actions[i] && spec_action_stays(actions[i], removed));
                assert(0 <= i < n);
            } else {
                assert(spec_action_stays(actions[n - 1], removed));
                assert(cur[k] == actions[n - 1]);
            }
        }
        assert forall|i: int| 0 <= i < n && spec_action_stays(#[trigger] actions[i], removed) implies cur.contains(actions[i]) by {
            if i < n - 1 {
                let k = choose|k: int| 0 <= k < prev.len() && prev[k] == actions[i];
                assert(cur[k] == prev[k]);
            } else {
                assert(cur[cur.len() - 1] == actions[i]);
            }
        }
    } else {
        assert(spec_staying(actions, removed, n).len() == 0);
    }
}

/// Whether the location `loc` lies inside, at any depth, a directory that one of the actions
/// removes: one of its ancestors is the location of such an action.
pub open spec fn spec_inside_removed_directory(loc: Seq<Seq<char>>, actions: Seq<ActionView>) -> bool {
    exists|j: int, m: int|
        0 <= j < actions.len() && actions[j].0 && actions[j].1.len() > 0 && 0 <= m < loc.len() && (m > 0 || loc[0]
            != seq!['/']) && #[trigger] loc.take(m) == #[trigger] actions[j].1[0]
}

/// Leaving out redundant actions keeps exactly the actions with a location that does not
/// lie inside, at any depth, a directory that one of the actions removes.
pub proof fn law_redundant_actions_dropped(actions: Seq<ActionView>)
    ensures
        forall|k: int| 0 <= k < spec_without_redundant(actions).len() ==> exists|i: int|
            #![trigger actions[i]]
            0 <= i < actions.len() && #[trigger] spec_without_redundant(actions)[k] === actions[i] && actions[i].1.len() > 0
                && !spec_inside_removed_directory(actions[i].1[0], actions),
        forall|i: int|
            0 <= i < actions.len() && actions[i].1.len() > 0 && !spec_inside_removed_directory(
                #[trigger] actions[i].1[0],
                actions,
            ) ==> spec_without_redundant(actions).contains(actions[i]),
{
    let n = actions.len() as int;
    let removed = spec_removed_directories(actions, n);
    lemma_staying_members(actions, removed, n);
    assert forall|loc: Seq<Seq<char>>| #[trigger] spec_has_removed_ancestor(loc, removed) == spec_inside_removed_directory(loc, actions) by {
        law_removed_ancestor_at_any_depth(loc, removed);
        if spec_has_removed_ancestor(loc, removed) {
            let m = choose|k: int| 0 <= k < loc.len() && (k > 0 || loc[0] != seq!['/']) && removed.contains(#[trigger] loc.take(k));
            lemma_removed_directories(actions, n, loc.take(m));
            let j = choose|j: int| 0 <= j < n && (#[trigger] actions[j]).0 && actions[j].1.len() > 0 && actions[j].1[0] == loc.take(m);
            assert(loc.take(m) == actions[j].1[0]);
        }
        if spec_inside_removed_directory(loc, actions) {
            let (j, m) = choose|j: int, m: int|
                0 <= j < actions.len() && actions[j].0 && actions[j].1.len() > 0 && 0 <= m < loc.len() && (m > 0 || loc[0]
                    != seq!['/']) && #[trigger] loc.take(m) == #[trigger] actions[j].1[0];
            lemma_removed_directories(actions, n, loc.take(m));
            assert(removed.contains(loc.take(m)));
        }
    }
}

/// Every position among the first `n` whose file the directory `i` matches last is listed.
proof fn lemma_with_index_contains(idx: Seq<Option<usize>>, i: usize, n: int, k: int)
    requires
        0 <= k < n,
        idx[k] == Some(i),
    ensures
        spec_with_index(idx, i, n).contains(k),
    decreases n,
{
    let prev = spec_with_index(idx, i, n - 1);
    if k == n - 1 {
        assert(prev.push(n - 1)[prev.len() as int] == k);
    } else {
        lemma_with_index_contains(idx, i, n - 1, k);
        let t = choose|t: int| 0 <= t < prev.len() && prev[t] == k;
        if idx[n - 1] == Some(i) {
            assert(prev.push(n - 1)[t] == k);
        }
    }
}

/// Every position whose file one of the first `m` directories matches last is listed.
proof fn lemma_relevant_contains(idx: Seq<Option<usize>>, m: int, k: int, d: usize)
    requires
        0 <= k < idx.len(),
        idx[k] == Some(d),
        d < m,
    ensures
        spec_relevant(idx, m).contains(k),
    decreases m,
{
    let prev = spec_relevant(idx, m - 1);
    let cur = spec_with_index(idx, (m - 1) as usize, idx.len() as int);
    if d == m - 1 {
        lemma_with_index_contains(idx, (m - 1) as usize, idx.len() as int, k);
        let t = choose|t: int| 0 <= t < cur.len() && cur[t] == k;
        assert((prev + cur)[prev.len() + t] == k);
    } else {
        lemma_relevant_contains(idx, m - 1, k, d);
        let t = choose|t: int| 0 <= t < prev.len() && prev[t] == k;
        assert((prev + cur)[t] == k);
    }
}

/// Without a file in a reference directory, the kept file remains.
proof fn lemma_remaining_contains_kept(
    c: Seq<ConflictingView>,
    removable: Seq<ConflictingView>,
    retain: Option<ConflictingView>,
    any_reference: bool,
    n: int,
    r: int,
)
    requires
        0 <= r < n <= c.len(),
        retain == Some(c[r]),
        !any_reference,
    ensures
        spec_remaining(c, removable, retain, any_reference, n).contains(c[r]),
    decreases n,
{
    let prev = spec_remaining(c, removable, retain, any_reference, n - 1);
    if r == n - 1 {
        assert(prev.push(c[r])[prev.len() as int] == c[r]);
    } else {
        lemma_remaining_contains_kept(c, removable, retain, any_reference, n - 1, r);
        let t = choose|t: int| 0 <= t < prev.len() && prev[t] == c[r];
        assert(prev.push(c[n - 1])[t] == c[r]);
    }
}

/// Every file at one of the first `n` positions of `order` but the kept one is removed.
proof fn lemma_removals_contain(
    e: DupSetView,
    order: Seq<int>,
    retain: Option<ConflictingView>,
    remaining: Seq<ConflictingView>,
    n: int,
    t: int,
)
    requires
        0 <= t < n <= order.len(),
        retain != Some(e.3[order[t]]),
    ensures
        spec_removals(e, order, retain, remaining, n).contains(spec_removal(e, e.3[order[t]], remaining)),
    decreases n,
{
    let prev = spec_removals(e, order, retain, remaining, n - 1);
    let x = spec_removal(e, e.3[order[t]], remaining);
    if t == n - 1 {
        assert(prev.push(x)[prev.len() as int] == x);
    } else {
        lemma_removals_contain(e, order, retain, remaining, n - 1, t);
        let q = choose|q: int| 0 <= q < prev.len() && prev[q] == x;
        let f = e.3[order[n - 1]];
        if retain != Some(f) {
            assert(prev.push(spec_removal(e, f, remaining))[q] == x);
        }
    }
}

/// In a set of files that are not of the kind "other" (regular files, symlinks, directories),
/// with no file in a reference directory, of any two distinct files that directories match,
/// at least one is removed: only one file of those in directories is kept.
pub proof fn law_matched_duplicates_are_removed(
    e: DupSetView,
    idx: Seq<Option<usize>>,
    reference: Seq<bool>,
    nd: int,
    i: int,
    j: int,
)
    requires
        idx.len() == e.3.len(),
        e.0 != HashTreeFileEntryType::Other,
        forall|k: int| 0 <= k < reference.len() ==> !#[trigger] reference[k],
        0 <= i < e.3.len(),
        0 <= j < e.3.len(),
        e.3[i] != e.3[j],
        idx[i] matches Some(a) && a < nd,
        idx[j] matches Some(b) && b < nd,
    ensures
        exists|k: int|
            0 <= k < spec_set_actions(e, idx, reference, nd).len() && ((#[trigger] spec_set_actions(e, idx, reference, nd)[k]).1
                == e.3[i].0 || spec_set_actions(e, idx, reference, nd)[k].1 == e.3[j].0),
{
    let c = e.3;
    let order = spec_relevant(idx, nd);
    let removable = order.map_values(|k: int| c[k]);
    lemma_relevant_contains(idx, nd, i, idx[i]->0);
    lemma_relevant_contains(idx, nd, j, idx[j]->0);
    lemma_relevant_bounds(idx, nd);
    let ti = choose|t: int| 0 <= t < order.len() && order[t] == i;
    let tj = choose|t: int| 0 <= t < order.len() && order[t] == j;
    assert(order.len() > 0);
    let retain = Some(c[order.last()]);
    let any_reference = exists|k: int| 0 <= k < reference.len() && reference[k];
    assert(!any_reference);
    assert(0 <= order.last() < c.len());
    lemma_remaining_contains_kept(c, removable, retain, any_reference, c.len() as int, order.last());
    let remaining = spec_remaining(c, removable, retain, any_reference, c.len() as int);
    assert(remaining.len() > 0);
    let acts = spec_set_actions(e, idx, reference, nd);
    assert(acts == spec_removals(e, order, retain, remaining, order.len() as int));
    if retain != Some(c[i]) {
        lemma_removals_contain(e, order, retain, remaining, order.len() as int, ti);
        let k = choose|k: int| 0 <= k < acts.len() && acts[k] == spec_removal(e, c[i], remaining);
        assert(acts[k].1 == c[i].0);
    } else {
        lemma_removals_contain(e, order, retain, remaining, order.len() as int, tj);
        let k = choose|k: int| 0 <= k < acts.len() && acts[k] == spec_removal(e, c[j], remaining);
        assert(acts[k].1 == c[j].0);
    }
}

/// Every position listed among the first `n` is one whose file the directory `i` matches
/// last.
proof fn lemma_with_index_members(idx: Seq<Option<usize>>, i: usize, n: int)
    requires
        n <= idx.len(),
    ensures
        forall|t: int| 0 <= t < spec_with_index(idx, i, n).len() ==> 0 <= #[trigger] spec_with_index(idx, i, n)[t] < n
            && idx[spec_with_index(idx, i, n)[t]] == Some(i),
    decreases n,
{
    if n > 0 {
        lemma_with_index_members(idx, i, n - 1);
        let prev = spec_with_index(idx, i, n - 1);
        assert forall|t: int| 0 <= t < spec_with_index(idx, i, n).len() implies 0 <= #[trigger] spec_with_index(idx, i, n)[t] < n
            && idx[spec_with_index(idx, i, n)[t]] == Some(i) by {
            if t < prev.len() {
                assert(spec_with_index(idx, i, n)[t] == prev[t]);
            }
        }
    }
}

/// Every position listed for the first `m` directories is one whose file one of them matches
/// last.
proof fn lemma_relevant_members(idx: Seq<Option<usize>>, m: int)
    ensures
        forall|t: int| 0 <= t < spec_relevant(idx, m).len() ==> 0 <= #[trigger] spec_relevant(idx, m)[t] < idx.len()
            && (idx[spec_relevant(idx, m)[t]] matches Some(d) && d < m),
    decreases m,
{
    if m > 0 {
        lemma_relevant_members(idx, m - 1);
        let prev = spec_relevant(idx, m - 1);
        let cur = spec_with_index(idx, (m - 1) as usize, idx.len() as int);
        lemma_with_index_members(idx, (m - 1) as usize, idx.len() as int);
        assert forall|t: int| 0 <= t < spec_relevant(idx, m).len() implies 0 <= #[trigger] spec_relevant(idx, m)[t] < idx.len()
            && (idx[spec_relevant(idx, m)[t]] matches Some(d) && d < m) by {
            if t < prev.len() {
                assert(spec_relevant(idx, m)[t] == prev[t]);
            } else {
                assert(spec_relevant(idx, m)[t] == cur[t - prev.len()]);
            }
        }
    }
}

/// Every action among the first `n` removals removes the file at one of the first `n`
/// positions of `order`.
proof fn lemma_removals_members(
    e: DupSetView,
    order: Seq<int>,
    retain: Option<ConflictingView>,
    remaining: Seq<ConflictingView>,
    n: int,
)
    requires
        0 <= n <= order.len(),
    ensures
        forall|k: int| 0 <= k < spec_removals(e, order, retain, remaining, n).len() ==> exists|t: int|
            #![trigger order[t]]
            0 <= t < n && #[trigger] spec_removals(e, order, retain, remaining, n)[k] == spec_removal(e, e.3[order[t]], remaining),
    decreases n,
{
    if n > 0 {
        lemma_removals_members(e, order, retain, remaining, n - 1);
        let prev = spec_removals(e, order, retain, remaining, n - 1);
        assert forall|k: int| 0 <= k < spec_removals(e, order, retain, remaining, n).len() implies exists|t: int|
            #![trigger order[t]]
            0 <= t < n && #[trigger] spec_removals(e, order, retain, remaining, n)[k] == spec_removal(e, e.3[order[t]], remaining) by {
            if k < prev.len() {
                assert(spec_removals(e, order, retain, remaining, n)[k] == prev[k]);
                let t = choose|t: int| #![trigger order[t]] 0 <= t < n - 1 && prev[k] == spec_removal(e, e.3[order[t]], remaining);
                assert(order[t] == order[t]);
            } else {
                assert(order[n - 1] == order[n - 1]);
            }
        }
    } else {
        assert(spec_removals(e, order, retain, remaining, n).len() == 0);
    }
}

/// Only files that a directory matches are removed: every action planned for a set removes
/// one of its files that one of the `nd` directories matches, and says that it is a
/// directory exactly when the set is one of directories.
pub proof fn law_only_matched_files_removed(e: DupSetView, idx: Seq<Option<usize>>, reference: Seq<bool>, nd: int)
    requires
        idx.len() == e.3.len(),
    ensures
        forall|k: int| 0 <= k < spec_set_actions(e, idx, reference, nd).len() ==> exists|i: int|
            #![trigger e.3[i]]
            0 <= i < e.3.len() && (idx[i] matches Some(d) && d < nd)
                && (#[trigger] spec_set_actions(e, idx, reference, nd)[k]).1 == e.3[i].0
                && spec_set_actions(e, idx, reference, nd)[k].0 == (e.0 == HashTreeFileEntryType::Directory),
{
    let c = e.3;
    let order = spec_relevant(idx, nd);
    let removable = order.map_values(|k: int| c[k]);
    let retain = if order.len() > 0 {
        Some(c[order.last()])
    } else {
        None
    };
    let any_reference = exists|k: int| 0 <= k < reference.len() && reference[k];
    let remaining = spec_remaining(c, removable, retain, any_reference, c.len() as int);
    let acts = spec_set_actions(e, idx, reference, nd);
    lemma_relevant_members(idx, nd);
    if !((retain is None && !any_reference) || remaining.len() == 0 || e.0 == HashTreeFileEntryType::Other) {
        lemma_removals_members(e, order, retain, remaining, order.len() as int);
        assert forall|k: int| 0 <= k < acts.len() implies exists|i: int|
            #![trigger e.3[i]]
            0 <= i < e.3.len() && (idx[i] matches Some(d) && d < nd) && (#[trigger] acts[k]).1 == e.3[i].0
                && acts[k].0 == (e.0 == HashTreeFileEntryType::Directory) by {
            let t = choose|t: int| #![trigger order[t]] 0 <= t < order.len() && acts[k] == spec_removal(e, e.3[order[t]], remaining);
            let i = order[t];
            assert(spec_relevant(idx, nd)[t] == i);
            assert(e.3[i] == e.3[i]);
        }
    }
}

/// The positions with a given last matching directory lie before `n`.
proof fn lemma_with_index_bounds(idx: Seq<Option<usize>>, i: usize, n: int)
    ensures
        forall|k: int| 0 <= k < spec_with_index(idx, i, n).len() ==> 0 <= #[trigger] spec_with_index(idx, i, n)[k] < n,
    decreases n,
{
    if n > 0 {
        lemma_with_index_bounds(idx, i, n - 1);
        let prev = spec_with_index(idx, i, n - 1);
        if idx[n - 1] == Some(i) {
            assert forall|k: int| 0 <= k < prev.len() + 1 implies 0 <= #[trigger] prev.push(n - 1)[k] < n by {
                if k < prev.len() {
                    assert(prev.push(n - 1)[k] == prev[k]);
                }
            }
        }
    }
}

/// The positions ordered for removal are positions of files.
proof fn lemma_relevant_bounds(idx: Seq<Option<usize>>, m: int)
    ensures
        forall|k: int| 0 <= k < spec_relevant(idx, m).len() ==> 0 <= #[trigger] spec_relevant(idx, m)[k] < idx.len(),
    decreases m,
{
    if m > 0 {
        lemma_relevant_bounds(idx, m - 1);
        lemma_with_index_bounds(idx, (m - 1) as usize, idx.len() as int);
        let prev = spec_relevant(idx, m - 1);
        let last = spec_with_index(idx, (m - 1) as usize, idx.len() as int);
        assert forall|k: int| 0 <= k < (prev + last).len() implies 0 <= #[trigger] (prev + last)[k] < idx.len() by {
            if k >= prev.len() {
                assert((prev + last)[k] == last[k - prev.len()]);
            }
        }
    }
}

/// Whether the file `p` remains (see `spec_remaining`).
pub open spec fn spec_remains(
    removable: Seq<ConflictingView>,
    retain: Option<ConflictingView>,
    any_reference: bool,
    p: ConflictingView,
) -> bool {
    !removable.contains(p) || (retain == Some(p) && !any_reference)
}

/// Every file that remains is a file of the set that remains.
proof fn lemma_remaining_from(
    c: Seq<ConflictingView>,
    removable: Seq<ConflictingView>,
    retain: Option<ConflictingView>,
    any_reference: bool,
    n: int,
)
    ensures
        forall|q: int| 0 <= q < spec_remaining(c, removable, retain, any_reference, n).len() ==> exists|p: int|
            0 <= p < n && #[trigger] spec_remaining(c, removable, retain, any_reference, n)[q] == c[p]
                && spec_remains(removable, retain, any_reference, c[p]),
    decreases n,
{
    if n > 0 {
        lemma_remaining_from(c, removable, retain, any_reference, n - 1);
        let prev = spec_remaining(c, removable, retain, any_reference, n - 1);
        let cur = spec_remaining(c, removable, retain, any_reference, n);
        assert forall|q: int| 0 <= q < cur.len() implies exists|p: int|
            0 <= p < n && #[trigger] cur[q] == c[p] && spec_remains(removable, retain, any_reference, c[p]) by {
            if q < prev.len() {
                assert(cur[q] == prev[q]);
                let p = choose|p: int| 0 <= p < n - 1 && prev[q] == c[p] && spec_remains(removable, retain, any_reference, c[p]);
                assert(cur[q] == c[p]);
            } else {
                assert(cur[q] == c[n - 1]);
            }
        }
    }
}

/// Every removal planned for a set removes a file at an ordered position that is not kept.
proof fn lemma_removals_from(
    e: DupSetView,
    order: Seq<int>,
    retain: Option<ConflictingView>,
    remaining: Seq<ConflictingView>,
    n: int,
)
    ensures
        forall|k: int| 0 <= k < spec_removals(e, order, retain, remaining, n).len() ==> exists|j: int|
            0 <= j < n && #[trigger] spec_removals(e, order, retain, remaining, n)[k] == spec_removal(e, e.3[order[j]], remaining)
                && retain != Some(e.3[order[j]]),
    decreases n,
{
    if n > 0 {
        lemma_removals_from(e, order, retain, remaining, n - 1);
        let prev = spec_removals(e, order, retain, remaining, n - 1);
        let cur = spec_removals(e, order, retain, remaining, n);
        assert forall|k: int| 0 <= k < cur.len() implies exists|j: int|
            0 <= j < n && #[trigger] cur[k] == spec_removal(e, e.3[order[j]], remaining) && retain != Some(e.3[order[j]]) by {
            if k < prev.len() {
                assert(cur[k] == prev[k]);
                let j = choose|j: int| 0 <= j < n - 1 && prev[k] == spec_removal(e, e.3[order[j]], remaining)
                    && retain != Some(e.3[order[j]]);
                assert(cur[k] == spec_removal(e, e.3[order[j]], remaining));
            } else {
                assert(cur[k] == spec_removal(e, e.3[order[n - 1]], remaining));
            }
        }
    }
}

/// The remaining duplicates are not removed: in a set whose files have distinct paths, no
/// planned removal lists the path it removes among the duplicates that remain.
pub proof fn law_removed_path_not_remaining(e: DupSetView, idx: Seq<Option<usize>>, reference: Seq<bool>, nd: int)
    requires
        idx.len() == e.3.len(),
        forall|i: int, j: int| 0 <= i < e.3.len() && 0 <= j < e.3.len() && i != j ==> e.3[i].0 != e.3[j].0,
    ensures
        forall|k: int| 0 <= k < spec_set_actions(e, idx, reference, nd).len()
            ==> !(#[trigger] spec_set_actions(e, idx, reference, nd)[k]).2.contains(spec_set_actions(e, idx, reference, nd)[k].1),
{
    let c = e.3;
    let order = spec_relevant(idx, nd);
    let removable = order.map_values(|k: int| c[k]);
    let retain = if order.len() > 0 {
        Some(c[order.last()])
    } else {
        None
    };
    let any_reference = exists|k: int| 0 <= k < reference.len() && reference[k];
    let remaining = spec_remaining(c, removable, retain, any_reference, c.len() as int);
    let acts = spec_set_actions(e, idx, reference, nd);
    if acts.len() > 0 {
        assert(acts == spec_removals(e, order, retain, remaining, order.len() as int));
        lemma_relevant_bounds(idx, nd);
        lemma_removals_from(e, order, retain, remaining, order.len() as int);
        lemma_remaining_from(c, removable, retain, any_reference, c.len() as int);
        assert forall|k: int| 0 <= k < acts.len() implies !(#[trigger] acts[k]).2.contains(acts[k].1) by {
            let j = choose|j: int| 0 <= j < order.len() && acts[k] == spec_removal(e, c[order[j]], remaining)
                && retain != Some(c[order[j]]);
            let f = c[order[j]];
            assert(removable[j] == f);
            if acts[k].2.contains(acts[k].1) {
                let q = choose|q: int| 0 <= q < acts[k].2.len() && acts[k].2[q] == acts[k].1;
                assert(acts[k].2[q] == remaining[q].0);
                let p = choose|p: int| 0 <= p < c.len() && remaining[q] == c[p] && spec_remains(removable, retain, any_reference, c[p]);
                assert(c[p].0 == f.0);
                assert(p == order[j]);
                assert(removable.contains(f));
            }
        }
    }
}

} // verus!
