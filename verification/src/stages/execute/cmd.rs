//! The decisions of the execute stage: which folder an action's path is found in, which
//! actions are carried out, and what is checked before a file is deleted or moved.

use crate::path::{
    copy_names, is_root_name, lemma_names_view, join_location, location_parent, names_list_contains, spec_join_location,
    spec_location_parent,
};
use crate::stages::dedup::output::actions::{ActionView, DeduplicationAction};
use crate::path::PathView;
use vstd::prelude::*;
use vstd::string::*;

verus! {

/// How duplicates are disposed of.
#[derive(Debug, Clone, Copy, PartialEq, Eq, Structural)]
pub enum ExecuteActionType {
    /// Delete the duplicates.
    DeleteDuplicates,
    /// Move the duplicates into a folder next to them.
    MoveDuplicates,
}

/// What is done with the duplicates.
#[derive(Debug)]
pub enum ExecuteAction {
    /// Delete the duplicates.
    DeleteDuplicates,
    /// Move each duplicate into the folder of this name next to it.
    MoveDuplicates { folder_name: String },
}

/// The settings of the execute stage.
pub struct ExecuteSettings {
    /// The file of actions.
    pub input: Vec<String>,
    /// The folders in which the paths of the actions are looked up.
    pub files: Vec<Vec<String>>,
    /// Only show what would be done.
    pub dry_run: bool,
    /// What is done with the duplicates.
    pub action: ExecuteAction,
    /// Go on when the path of an action is not found.
    pub ignore_errors: bool,
}

/// A text that names no action type.
#[derive(Debug)]
pub struct InvalidActionType {
    /// The text as given.
    pub text: String,
}

/// Whether two texts are equal.
fn str_equal(a: &str, b: &str) -> (r: bool)
    ensures
        r == (a@ == b@),
{
    let n = a.unicode_len();
    if n != b.unicode_len() {
        return false;
    }
    let mut i: usize = 0;
    while i < n
        invariant
            n == a@.len(),
            n == b@.len(),
            i <= n,
            forall|k: int| 0 <= k < i ==> a@[k] == b@[k],
        decreases n - i,
    {
        if a.get_char(i) != b.get_char(i) {
            return false;
        }
        i = i + 1;
    }
    assert(a@ =~= b@);
    true
}

impl ExecuteActionType {
    /// The action type named by `s`: `delete` or `d`, `move` or `m`.
    pub fn parse(s: &str) -> (r: Result<ExecuteActionType, InvalidActionType>)
        ensures
            (s@ == "delete"@ || s@ == "d"@) ==> r == Ok::<ExecuteActionType, InvalidActionType>(ExecuteActionType::DeleteDuplicates),
            (s@ == "move"@ || s@ == "m"@) ==> r == Ok::<ExecuteActionType, InvalidActionType>(ExecuteActionType::MoveDuplicates),
            !(s@ == "delete"@ || s@ == "d"@ || s@ == "move"@ || s@ == "m"@) ==> (r matches Err(e) && e.text@ == s@),
    {
        proof {
            reveal_strlit("delete");
            reveal_strlit("d");
            reveal_strlit("move");
            reveal_strlit("m");
            assert("m"@[0] != "d"@[0]);
            assert("move"@.len() != "delete"@.len());
        }
        if str_equal(s, "delete") || str_equal(s, "d") {
            Ok(ExecuteActionType::DeleteDuplicates)
        } else if str_equal(s, "move") || str_equal(s, "m") {
            Ok(ExecuteActionType::MoveDuplicates)
        } else {
            Err(InvalidActionType { text: s.to_owned() })
        }
    }
}

impl std::str::FromStr for ExecuteActionType {
    type Err = InvalidActionType;

    /// The action type named by `s` (see `parse`).
    fn from_str(s: &str) -> (r: Result<ExecuteActionType, InvalidActionType>)
        ensures
            (s@ == "delete"@ || s@ == "d"@) ==> r == Ok::<ExecuteActionType, InvalidActionType>(ExecuteActionType::DeleteDuplicates),
            (s@ == "move"@ || s@ == "m"@) ==> r == Ok::<ExecuteActionType, InvalidActionType>(ExecuteActionType::MoveDuplicates),
            !(s@ == "delete"@ || s@ == "d"@ || s@ == "move"@ || s@ == "m"@) ==> (r matches Err(e) && e.text@ == s@),
    {
        ExecuteActionType::parse(s)
    }
}

/// The locations at which the path of `action` is looked for, one per folder of `folders`,
/// in order: its location in the file system joined onto the folder. An action whose path
/// has no location in the file system cannot be looked up.
pub fn lookup_locations(action: &DeduplicationAction, folders: &Vec<Vec<String>>) -> (r: Option<Vec<Vec<String>>>)
    ensures
        action.deep_view().1.len() == 0 ==> r is None,
        action.deep_view().1.len() > 0 ==> (r matches Some(v) && v@.len() == folders@.len()
            && forall|k: int| 0 <= k < folders@.len() ==> #[trigger] v@[k].deep_view()
                == spec_join_location(folders@[k].deep_view(), action.deep_view().1[0])),
{
    match action.path().first_component() {
        None => None,
        Some(first) => {
            let mut v: Vec<Vec<String>> = Vec::new();
            let mut k: usize = 0;
            while k < folders.len()
                invariant
                    first.deep_view() == action.deep_view().1[0],
                    k <= folders@.len(),
                    v@.len() == k,
                    forall|t: int| 0 <= t < k ==> #[trigger] v@[t].deep_view()
                        == spec_join_location(folders@[t].deep_view(), first.deep_view()),
                decreases folders@.len() - k,
            {
                v.push(join_location(&folders[k], first));
                k = k + 1;
            }
            Some(v)
        },
    }
}

/// What is done about an action whose path was looked up.
#[derive(Debug, Clone, Copy, PartialEq, Eq, Structural)]
pub enum Resolution {
    /// The path was found at the location of this index.
    Found(usize),
    /// The path was not found; the action is left out.
    Skipped,
    /// The path was not found; the stage stops with an error.
    Failed,
}

/// The first of the looked-up locations that exists; where none does, the action is left
/// out if errors are ignored, and the stage fails otherwise.
pub fn resolve(exists: &Vec<bool>, ignore_errors: bool) -> (r: Resolution)
    ensures
        match r {
            Resolution::Found(k) => k < exists@.len() && exists@[k as int]
                && forall|j: int| 0 <= j < k ==> !#[trigger] exists@[j],
            Resolution::Skipped => ignore_errors && forall|j: int| 0 <= j < exists@.len() ==> !#[trigger] exists@[j],
            Resolution::Failed => !ignore_errors && forall|j: int| 0 <= j < exists@.len() ==> !#[trigger] exists@[j],
        },
{
    let mut k: usize = 0;
    while k < exists.len()
        invariant
            k <= exists@.len(),
            forall|j: int| 0 <= j < k ==> !#[trigger] exists@[j],
        decreases exists@.len() - k,
    {
        if exists[k] {
            return Resolution::Found(k);
        }
        k = k + 1;
    }
    if ignore_errors {
        Resolution::Skipped
    } else {
        Resolution::Failed
    }
}

/// The location `names` followed by all its ancestors, nearest first.
pub open spec fn spec_lineage(names: Seq<Seq<char>>) -> Seq<Seq<Seq<char>>>
    decreases names.len(),
{
    match spec_location_parent(names) {
        None => seq![names],
        Some(parent) => seq![names] + spec_lineage(parent),
    }
}

/// The locations made untouchable by the remaining duplicates at positions `lo` to `hi`:
/// the lineage of the location of each, the last duplicate first.
pub open spec fn spec_untouchable(remaining: Seq<PathView>, lo: int, hi: int) -> Seq<Seq<Seq<char>>>
    decreases hi - lo,
{
    if hi <= lo {
        Seq::empty()
    } else {
        let p = remaining[lo];
        let own = if p.len() > 0 {
            spec_lineage(p[0])
        } else {
            Seq::empty()
        };
        spec_untouchable(remaining, lo + 1, hi) + own
    }
}

/// Appends the lineage of `names` to `out`.
fn push_lineage(names: &Vec<String>, out: &mut Vec<Vec<String>>)
    ensures
        final(out).deep_view() == old(out).deep_view() + spec_lineage(names.deep_view()),
    decreases names@.len(),
{
    let ghost before = out.deep_view();
    out.push(copy_names(names));
    assert(out.deep_view() =~= before + seq![names.deep_view()]);
    match location_parent(names) {
        None => {},
        Some(parent) => {
            proof {
                lemma_names_view(&parent);
                lemma_names_view(names);
            }
            assert(parent@.len() < names@.len());
            push_lineage(&parent, out);
            assert(out.deep_view() =~= before + (seq![names.deep_view()] + spec_lineage(parent.deep_view())));
        },
    }
}

/// What is done about an action in the action phase.
#[derive(Debug, Clone, Copy, PartialEq, Eq, Structural)]
pub enum ActionDecision {
    /// The path leads into an archive; only files in the file system are handled.
    SkipArchive,
    /// The path was not found in any folder.
    SkipUnresolved,
    /// No duplicate would remain.
    SkipAllDuplicates,
    /// The found location is among the untouchable ones.
    SkipUntouchable,
    /// The action goes on to the checks of the entry.
    Proceed,
}

/// The decision about `action`, found at `resolved` if it was found; for an action that
/// leaves duplicates, the locations of the duplicates and all their ancestors become
/// untouchable first, for this action and all that follow.
pub fn decide_action(action: &DeduplicationAction, resolved: Option<&Vec<String>>, untouchable: &mut Vec<Vec<String>>) -> (r: ActionDecision)
    ensures
        ({
            let a = action.deep_view();
            if a.1.len() != 1 {
                r == ActionDecision::SkipArchive && final(untouchable).deep_view() == old(untouchable).deep_view()
            } else if resolved is None {
                r == ActionDecision::SkipUnresolved && final(untouchable).deep_view() == old(untouchable).deep_view()
            } else if a.2.len() == 0 {
                r == ActionDecision::SkipAllDuplicates && final(untouchable).deep_view() == old(untouchable).deep_view()
            } else {
                &&& final(untouchable).deep_view() == old(untouchable).deep_view() + spec_untouchable(a.2, 0, a.2.len() as int)
                &&& r == if final(untouchable).deep_view().contains(resolved.unwrap().deep_view()) {
                    ActionDecision::SkipUntouchable
                } else {
                    ActionDecision::Proceed
                }
            }
        }),
{
    if action.path().len() != 1 {
        return ActionDecision::SkipArchive;
    }
    let location = match resolved {
        None => {
            return ActionDecision::SkipUnresolved;
        },
        Some(location) => location,
    };
    let remaining = action.remaining_duplicates();
    if remaining.len() == 0 {
        return ActionDecision::SkipAllDuplicates;
    }
    let ghost rv = remaining.deep_view();
    let ghost start = untouchable.deep_view();
    let mut i: usize = remaining.len();
    assert(spec_untouchable(rv, rv.len() as int, rv.len() as int) =~= Seq::<Seq<Seq<char>>>::empty());
    assert(untouchable.deep_view() =~= start + spec_untouchable(rv, rv.len() as int, rv.len() as int));
    while i > 0
        invariant
            rv == remaining.deep_view(),
            i <= rv.len(),
            untouchable.deep_view() == start + spec_untouchable(rv, i as int, rv.len() as int),
        decreases i,
    {
        i = i - 1;
        let ghost before = untouchable.deep_view();
        assert(rv[i as int] == remaining@[i as int]@);
        match remaining[i].first_component() {
            Some(first) => {
                push_lineage(first, untouchable);
            },
            None => {},
        }
        assert(untouchable.deep_view() =~= start + spec_untouchable(rv, i as int, rv.len() as int));
    }
    if names_list_contains(untouchable, location) {
        ActionDecision::SkipUntouchable
    } else {
        ActionDecision::Proceed
    }
}

/// The outcome of the checks of a found entry against its action.
#[derive(Debug, Clone, Copy, PartialEq, Eq, Structural)]
pub enum EntryCheck {
    /// The size, or the number of children, differs from the action's.
    SizeMismatch,
    /// The entry lies in a `.git` folder and is left alone; whether its modification time
    /// differs from the action's.
    GitEntry { modification_mismatch: bool },
    /// The entry is disposed of; whether its modification time differs from the action's.
    Proceed { modification_mismatch: bool },
}

/// Whether one of the names of the location is `.git`.
pub open spec fn spec_in_git(names: Seq<Seq<char>>) -> bool {
    exists|k: int| 0 <= k < names.len() && names[k] == seq!['.', 'g', 'i', 't']
}

/// Whether a name is `.git`.
fn is_git_name(name: &String) -> (r: bool)
    ensures
        r == (name@ == seq!['.', 'g', 'i', 't']),
{
    proof {
        reveal_strlit(".git");
    }
    let r = str_equal(name.as_str(), ".git");
    assert(".git"@ =~= seq!['.', 'g', 'i', 't']);
    r
}

/// The checks of the entry found at `location` for `action`, with the size (or number of
/// children) and the modification time the entry has now.
pub fn check_entry(action: &DeduplicationAction, location: &Vec<String>, size: u64, modified: u64) -> (r: EntryCheck)
    ensures
        r == if size != action.deep_view().4 {
            EntryCheck::SizeMismatch
        } else if spec_in_git(location.deep_view()) {
            EntryCheck::GitEntry { modification_mismatch: action.deep_view().5 != modified }
        } else {
            EntryCheck::Proceed { modification_mismatch: action.deep_view().5 != modified }
        },
{
    if size != action.size() {
        return EntryCheck::SizeMismatch;
    }
    let modification_mismatch = action.modification_time() != modified;
    let ghost lv = location.deep_view();
    let mut k: usize = 0;
    while k < location.len()
        invariant
            lv == location.deep_view(),
            size == action.deep_view().4,
            modification_mismatch == (action.deep_view().5 != modified),
            k <= lv.len(),
            forall|j: int| 0 <= j < k ==> lv[j] != seq!['.', 'g', 'i', 't'],
        decreases lv.len() - k,
    {
        assert(lv[k as int] == location@[k as int]@);
        if is_git_name(&location[k]) {
            assert(spec_in_git(lv));
            return EntryCheck::GitEntry { modification_mismatch };
        }
        k = k + 1;
    }
    assert(!spec_in_git(lv));
    EntryCheck::Proceed { modification_mismatch }
}

/// The number of the first `n` children that count: when duplicates are moved, a child named
/// like the folder they are moved into does not; a child without a name always counts.
pub open spec fn spec_counted_children(names: Seq<Option<Seq<char>>>, folder: Option<Seq<char>>, n: int) -> nat
    decreases n,
{
    if n <= 0 {
        0
    } else {
        let counts = match (names[n - 1], folder) {
            (Some(name), Some(f)) => name != f,
            _ => true,
        };
        spec_counted_children(names, folder, n - 1) + if counts {
            1nat
        } else {
            0nat
        }
    }
}

/// The folder that duplicates are moved into, if they are moved.
pub open spec fn spec_move_folder_name(action: ExecuteAction) -> Option<Seq<char>> {
    match action {
        ExecuteAction::MoveDuplicates { folder_name } => Some(folder_name@),
        ExecuteAction::DeleteDuplicates => None,
    }
}

/// The number of children of a directory that count for its size, given their names (see
/// `spec_counted_children`).
pub fn count_children(names: &Vec<Option<String>>, action: &ExecuteAction) -> (r: u64)
    requires
        names@.len() <= u64::MAX,
    ensures
        r == spec_counted_children(names.deep_view(), spec_move_folder_name(*action), names@.len() as int),
{
    let ghost nv = names.deep_view();
    let ghost folder = spec_move_folder_name(*action);
    let mut count: u64 = 0;
    let mut k: usize = 0;
    while k < names.len()
        invariant
            nv == names.deep_view(),
            folder == spec_move_folder_name(*action),
            names@.len() <= u64::MAX,
            k <= nv.len(),
            count == spec_counted_children(nv, folder, k as int),
            count <= k,
        decreases nv.len() - k,
    {
        assert(nv[k as int] == names@[k as int].deep_view());
        let counts = match (&names[k], action) {
            (Some(name), ExecuteAction::MoveDuplicates { folder_name }) => !str_equal(name.as_str(), folder_name.as_str()),
            _ => true,
        };
        if counts {
            count = count + 1;
        }
        k = k + 1;
    }
    count
}

/// The folder next to the entry at `location` that it is moved into: the folder's location
/// `folder` joined onto the parent of the entry; none if the entry has no parent.
pub fn move_folder(location: &Vec<String>, folder: &Vec<String>) -> (r: Option<Vec<String>>)
    ensures
        spec_location_parent(location.deep_view()) is None ==> r is None,
        spec_location_parent(location.deep_view()) matches Some(p) ==> (r matches Some(m)
            && m.deep_view() == spec_join_location(p, folder.deep_view())),
{
    match location_parent(location) {
        None => None,
        Some(parent) => Some(join_location(&parent, folder)),
    }
}

/// The name of the entry at a location: its last name, unless that is the root or `..`.
pub open spec fn spec_entry_name(names: Seq<Seq<char>>) -> Option<Seq<char>> {
    if names.len() == 0 || names.last() == seq!['/'] || names.last() == seq!['.', '.'] {
        None
    } else {
        Some(names.last())
    }
}

/// Where the entry at `location` is moved to inside the folder `folder`: the folder and the
/// entry's name; none if the entry has no name.
pub fn move_target(location: &Vec<String>, folder: &Vec<String>) -> (r: Option<Vec<String>>)
    ensures
        spec_entry_name(location.deep_view()) is None ==> r is None,
        spec_entry_name(location.deep_view()) matches Some(n) ==> (r matches Some(t)
            && t.deep_view() == folder.deep_view().push(n)),
{
    let n = location.len();
    if n == 0 {
        return None;
    }
    let last = &location[n - 1];
    assert(location.deep_view().last() == last@);
    proof {
        reveal_strlit("..");
    }
    if is_root_name(last) || str_equal(last.as_str(), "..") {
        assert(".."@ =~= seq!['.', '.']);
        return None;
    }
    assert(".."@ =~= seq!['.', '.']);
    let mut t = copy_names(folder);
    let ghost before = t.deep_view();
    t.push(last.clone());
    assert(t.deep_view() =~= before.push(last@));
    Some(t)
}

/// Every location in the lineage of the location of a remaining duplicate at a position from
/// `lo` to `hi` is untouchable.
proof fn lemma_untouchable_covers(remaining: Seq<PathView>, lo: int, hi: int, k: int, x: Seq<Seq<char>>)
    requires
        lo <= k < hi,
        remaining[k].len() > 0,
        spec_lineage(remaining[k][0]).contains(x),
    ensures
        spec_untouchable(remaining, lo, hi).contains(x),
    decreases hi - lo,
{
    let p = remaining[lo];
    let own = if p.len() > 0 {
        spec_lineage(p[0])
    } else {
        Seq::empty()
    };
    let rest = spec_untouchable(remaining, lo + 1, hi);
    if k == lo {
        let j = choose|j: int| 0 <= j < own.len() && own[j] == x;
        assert((rest + own)[rest.len() + j] == x);
    } else {
        lemma_untouchable_covers(remaining, lo + 1, hi, k, x);
        let j = choose|j: int| 0 <= j < rest.len() && rest[j] == x;
        assert((rest + own)[j] == x);
    }
}

/// An action that goes on to be carried out never disposes of the location of one of its
/// remaining duplicates, nor of an ancestor of one: when the found location is not among the
/// untouchable locations, it is in the lineage of no remaining duplicate.
pub proof fn law_carried_out_spares_remaining(
    before: Seq<Seq<Seq<char>>>,
    a: ActionView,
    resolved: Seq<Seq<char>>,
    k: int,
)
    requires
        0 <= k < a.2.len(),
        a.2[k].len() > 0,
        !(before + spec_untouchable(a.2, 0, a.2.len() as int)).contains(resolved),
    ensures
        !spec_lineage(a.2[k][0]).contains(resolved),
{
    if spec_lineage(a.2[k][0]).contains(resolved) {
        let u = spec_untouchable(a.2, 0, a.2.len() as int);
        lemma_untouchable_covers(a.2, 0, a.2.len() as int, k, resolved);
        let j = choose|j: int| 0 <= j < u.len() && u[j] == resolved;
        assert((before + u)[before.len() + j] == resolved);
    }
}

} // verus!
