//! Paths of entries in a hash tree. A path is a list of components: the first component is a
//! location in the file system, every further component is a location inside the archive
//! named by the component before it. A component is a list of names.

use vstd::prelude::*;
use vstd::string::*;

verus! {

/// A path in the file system that may lead into (nested) archives.
#[derive(Debug, Clone, PartialEq, Eq, Hash)]
pub struct FilePath {
    /// The components of the path, outermost first.
    pub path: Vec<Vec<String>>,
}

/// The mathematical value of a path: components of names.
pub type PathView = Seq<Seq<Seq<char>>>;

impl View for FilePath {
    type V = PathView;

    open spec fn view(&self) -> PathView {
        self.path.deep_view()
    }
}

impl DeepView for FilePath {
    type V = PathView;

    open spec fn deep_view(&self) -> PathView {
        self@
    }
}

/// The path with `name` appended to its last component.
pub open spec fn spec_join(p: PathView, name: Seq<char>) -> PathView {
    if p.len() == 0 {
        seq![seq![name]]
    } else {
        p.update(p.len() - 1, p.last().push(name))
    }
}

/// The path with all `names` appended to its last component, in order.
pub open spec fn spec_join_all(p: PathView, names: Seq<Seq<char>>) -> PathView
    decreases names.len(),
{
    if names.len() == 0 {
        p
    } else {
        spec_join_all(spec_join(p, names[0]), names.drop_first())
    }
}

/// The names by which the last component of `p` extends the last component of `base`, where
/// both paths have the same number of components, agree on all but the last one, and the last
/// component of `base` is a prefix of the last component of `p`.
pub open spec fn spec_relative_to_last(p: PathView, base: PathView) -> Option<Seq<Seq<char>>> {
    if p.len() == base.len() && p.len() > 0 && p.drop_last() == base.drop_last()
        && base.last().len() <= p.last().len() && p.last().take(base.last().len() as int)
        == base.last() {
        Some(p.last().skip(base.last().len() as int))
    } else {
        None
    }
}

/// The parent of a path: the last name of the last component is dropped; a last component
/// that is left empty is dropped as well, unless it is the only one. A path whose only
/// component is empty has no parent.
pub open spec fn spec_parent(p: PathView) -> Option<PathView> {
    if p.len() == 0 || (p.len() == 1 && p[0].len() == 0) {
        None
    } else if p.last().len() == 0 {
        Some(p.drop_last())
    } else if p.last().len() == 1 && p.len() > 1 {
        Some(p.drop_last())
    } else {
        Some(p.update(p.len() - 1, p.last().drop_last()))
    }
}

/// The view of a path, component by component.
pub proof fn lemma_path_view(p: &FilePath)
    ensures
        p@.len() == p.path@.len(),
        forall|k: int| 0 <= k < p@.len() ==> #[trigger] p@[k] == p.path@[k].deep_view(),
{
}

/// The view of a list of names, name by name.
pub proof fn lemma_names_view(names: &Vec<String>)
    ensures
        names.deep_view().len() == names@.len(),
        forall|k: int| 0 <= k < names@.len() ==> #[trigger] names.deep_view()[k] == names@[k]@,
{
}

/// A copy of a list of names.
pub fn copy_names(names: &Vec<String>) -> (r: Vec<String>)
    ensures
        r.deep_view() == names.deep_view(),
{
    let mut r: Vec<String> = Vec::with_capacity(names.len());
    let mut i: usize = 0;
    while i < names.len()
        invariant
            i <= names@.len(),
            r@ == names@.subrange(0, i as int),
        decreases names@.len() - i,
    {
        r.push(names[i].clone());
        i = i + 1;
        assert(r@ =~= names@.subrange(0, i as int));
    }
    assert(r@ =~= names@);
    r
}

/// Whether two lists of names are equal.
pub fn names_equal(a: &Vec<String>, b: &Vec<String>) -> (r: bool)
    ensures
        r == (a.deep_view() == b.deep_view()),
{
    if a.len() != b.len() {
        assert(a.deep_view().len() != b.deep_view().len());
        return false;
    }
    let mut i: usize = 0;
    while i < a.len()
        invariant
            a@.len() == b@.len(),
            i <= a@.len(),
            forall|k: int| 0 <= k < i ==> a.deep_view()[k] == b.deep_view()[k],
        decreases a@.len() - i,
    {
        if !(a[i] == b[i]) {
            assert(a.deep_view()[i as int] != b.deep_view()[i as int]);
            return false;
        }
        i = i + 1;
    }
    assert(a.deep_view() =~= b.deep_view());
    true
}

/// Whether the names of `prefix` are the first names of `names`.
pub fn names_start_with(names: &Vec<String>, prefix: &Vec<String>) -> (r: bool)
    ensures
        r == (prefix@.len() <= names@.len() && names.deep_view().take(prefix@.len() as int)
            == prefix.deep_view()),
{
    if prefix.len() > names.len() {
        return false;
    }
    let mut i: usize = 0;
    while i < prefix.len()
        invariant
            prefix@.len() <= names@.len(),
            i <= prefix@.len(),
            forall|k: int| 0 <= k < i ==> names.deep_view()[k] == prefix.deep_view()[k],
        decreases prefix@.len() - i,
    {
        if !(names[i] == prefix[i]) {
            assert(names.deep_view().take(prefix@.len() as int)[i as int] != prefix.deep_view()[i as int]);
            return false;
        }
        i = i + 1;
    }
    assert(names.deep_view().take(prefix@.len() as int) =~= prefix.deep_view());
    true
}

/// The names of `names` after its first `n` names.
pub fn names_skip(names: &Vec<String>, n: usize) -> (r: Vec<String>)
    requires
        n <= names@.len(),
    ensures
        r.deep_view() == names.deep_view().skip(n as int),
{
    let mut r: Vec<String> = Vec::new();
    let mut i: usize = n;
    while i < names.len()
        invariant
            n <= i <= names@.len(),
            r@ == names@.subrange(n as int, i as int),
        decreases names@.len() - i,
    {
        r.push(names[i].clone());
        i = i + 1;
        assert(r@ =~= names@.subrange(n as int, i as int));
    }
    assert(r.deep_view() =~= names.deep_view().skip(n as int));
    r
}

impl FilePath {
    /// A path that lies in the file system, not inside an archive.
    pub fn from_realpath(names: &Vec<String>) -> (r: FilePath)
        ensures
            r@ == seq![names.deep_view()],
    {
        let mut path: Vec<Vec<String>> = Vec::new();
        path.push(copy_names(names));
        let r = FilePath { path };
        assert(r@ =~= seq![names.deep_view()]);
        r
    }

    /// The number of components of the path.
    pub fn len(&self) -> (r: usize)
        ensures
            r == self@.len(),
    {
        self.path.len()
    }

    /// A copy of the path.
    pub fn duplicate(&self) -> (r: FilePath)
        ensures
            r@ == self@,
    {
        let mut path: Vec<Vec<String>> = Vec::with_capacity(self.path.len());
        let mut i: usize = 0;
        while i < self.path.len()
            invariant
                i <= self@.len(),
                path@.len() == i,
                forall|k: int| 0 <= k < i ==> #[trigger] path@[k].deep_view() == self.path@[k].deep_view(),
            decreases self@.len() - i,
        {
            path.push(copy_names(&self.path[i]));
            i = i + 1;
        }
        assert(path.deep_view() =~= self@);
        FilePath { path }
    }

    /// Whether two paths are equal.
    pub fn same_as(&self, other: &FilePath) -> (r: bool)
        ensures
            r == (self@ == other@),
    {
        proof {
            lemma_path_view(self);
            lemma_path_view(other);
        }
        if self.path.len() != other.path.len() {
            return false;
        }
        let mut i: usize = 0;
        while i < self.path.len()
            invariant
                self@.len() == other@.len(),
                self@.len() == self.path@.len(),
                forall|k: int| 0 <= k < self@.len() ==> #[trigger] self@[k] == self.path@[k].deep_view(),
                forall|k: int| 0 <= k < other@.len() ==> #[trigger] other@[k] == other.path@[k].deep_view(),
                i <= self@.len(),
                forall|k: int| 0 <= k < i ==> self@[k] == other@[k],
            decreases self@.len() - i,
        {
            if !names_equal(&self.path[i], &other.path[i]) {
                assert(self@[i as int] != other@[i as int]);
                return false;
            }
            i = i + 1;
        }
        assert(self@ =~= other@);
        true
    }

    /// The path of the root of the archive that this path names: a new, empty component.
    pub fn new_archive(&self) -> (r: FilePath)
        ensures
            r@ == self@.push(Seq::<Seq<char>>::empty()),
    {
        let mut r = self.duplicate();
        let empty: Vec<String> = Vec::new();
        assert(empty.deep_view() =~= Seq::<Seq<char>>::empty());
        r.path.push(empty);
        proof {
            lemma_path_view(&r);
            lemma_path_view(self);
        }
        assert(r@ =~= self@.push(Seq::<Seq<char>>::empty()));
        r
    }

    /// The path with `name` appended to its last component.
    pub fn join(&self, name: &String) -> (r: FilePath)
        ensures
            r@ == spec_join(self@, name@),
    {
        let mut r = self.duplicate();
        proof {
            lemma_path_view(self);
            lemma_path_view(&r);
        }
        if r.path.len() == 0 {
            let mut names: Vec<String> = Vec::new();
            names.push(name.clone());
            proof {
                lemma_names_view(&names);
            }
            assert(names.deep_view() =~= seq![name@]);
            r.path.push(names);
            proof {
                lemma_path_view(&r);
            }
            assert(r@ =~= spec_join(self@, name@));
        } else {
            let last = r.path.len() - 1;
            let mut names = copy_names(&r.path[last]);
            let ghost before = names.deep_view();
            proof {
                lemma_names_view(&names);
            }
            names.push(name.clone());
            proof {
                lemma_names_view(&names);
            }
            assert(names.deep_view() =~= before.push(name@));
            r.path.set(last, names);
            proof {
                lemma_path_view(&r);
            }
            assert(r@ =~= spec_join(self@, name@));
        }
        r
    }

    /// The path with all `names` appended to its last component, in order.
    pub fn join_all(&self, names: &Vec<String>) -> (r: FilePath)
        ensures
            r@ == spec_join_all(self@, names.deep_view()),
    {
        let mut r = self.duplicate();
        let ghost d = names.deep_view();
        let mut i: usize = 0;
        assert(d.skip(0) =~= d);
        while i < names.len()
            invariant
                d == names.deep_view(),
                i <= d.len(),
                spec_join_all(self@, d) == spec_join_all(r@, d.skip(i as int)),
            decreases d.len() - i,
        {
            let ghost rest = d.skip(i as int);
            assert(rest[0] == names[i as int]@);
            assert(rest.drop_first() =~= d.skip(i + 1));
            r = r.join(&names[i]);
            i = i + 1;
        }
        assert(d.skip(i as int) =~= Seq::<Seq<char>>::empty());
        r
    }

    /// The last component of the path.
    pub fn last_component(&self) -> (r: Option<&Vec<String>>)
        ensures
            self@.len() == 0 ==> r is None,
            self@.len() > 0 ==> (r matches Some(c) && c.deep_view() == self@.last()),
    {
        if self.path.len() == 0 {
            None
        } else {
            Some(&self.path[self.path.len() - 1])
        }
    }

    /// The first component of the path: its location in the file system.
    pub fn first_component(&self) -> (r: Option<&Vec<String>>)
        ensures
            self@.len() == 0 ==> r is None,
            self@.len() > 0 ==> (r matches Some(c) && c.deep_view() == self@[0]),
    {
        if self.path.len() == 0 {
            None
        } else {
            Some(&self.path[0])
        }
    }

    /// The names by which this path extends `base` inside the last component, see
    /// [spec_relative_to_last].
    pub fn relative_to_last(&self, base: &FilePath) -> (r: Option<Vec<String>>)
        ensures
            spec_relative_to_last(self@, base@) is None ==> r is None,
            spec_relative_to_last(self@, base@) matches Some(rel) ==> (r matches Some(v)
                && v.deep_view() == rel),
    {
        let n = self.path.len();
        if n == 0 || n != base.path.len() {
            return None;
        }
        let mut i: usize = 0;
        while i + 1 < n
            invariant
                n == self@.len(),
                n == base@.len(),
                n > 0,
                i < n,
                forall|k: int| 0 <= k < i ==> self@[k] == base@[k],
            decreases n - i,
        {
            if !names_equal(&self.path[i], &base.path[i]) {
                assert(self@.drop_last()[i as int] != base@.drop_last()[i as int]);
                return None;
            }
            i = i + 1;
        }
        assert(self@.drop_last() =~= base@.drop_last());
        let last = &self.path[n - 1];
        let base_last = &base.path[n - 1];
        if !names_start_with(last, base_last) {
            return None;
        }
        Some(names_skip(last, base_last.len()))
    }

    /// The parent of this path, see [spec_parent].
    pub fn parent(&self) -> (r: Option<FilePath>)
        ensures
            spec_parent(self@) is None ==> r is None,
            spec_parent(self@) matches Some(p) ==> (r matches Some(q) && q@ == p),
    {
        let n = self.path.len();
        if n == 0 || (n == 1 && self.path[0].len() == 0) {
            return None;
        }
        let mut r = self.duplicate();
        proof {
            lemma_path_view(self);
            lemma_path_view(&r);
        }
        let last_len = self.path[n - 1].len();
        if last_len == 0 || (last_len == 1 && n > 1) {
            r.path.pop();
            proof {
                lemma_path_view(&r);
            }
            assert(r@ =~= self@.drop_last());
        } else {
            let mut names = copy_names(&self.path[n - 1]);
            let ghost before = names.deep_view();
            names.pop();
            proof {
                lemma_names_view(&names);
            }
            assert(names.deep_view() =~= before.drop_last());
            r.path.set(n - 1, names);
            proof {
                lemma_path_view(&r);
            }
            assert(r@ =~= self@.update(n - 1, self@.last().drop_last()));
        }
        Some(r)
    }
}

/// Strict lexicographic order of names, character by character.
pub open spec fn chars_lt(a: Seq<char>, b: Seq<char>) -> bool
    decreases a.len(),
{
    if a.len() == 0 {
        b.len() > 0
    } else if b.len() == 0 {
        false
    } else if a[0] != b[0] {
        a[0] < b[0]
    } else {
        chars_lt(a.drop_first(), b.drop_first())
    }
}

/// Strict lexicographic order of lists of names, name by name.
pub open spec fn names_lt(a: Seq<Seq<char>>, b: Seq<Seq<char>>) -> bool
    decreases a.len(),
{
    if a.len() == 0 {
        b.len() > 0
    } else if b.len() == 0 {
        false
    } else if a[0] != b[0] {
        chars_lt(a[0], b[0])
    } else {
        names_lt(a.drop_first(), b.drop_first())
    }
}

/// The order of names is a strict total order.
pub proof fn lemma_chars_lt_order(a: Seq<char>, b: Seq<char>, c: Seq<char>)
    ensures
        !chars_lt(a, a),
        chars_lt(a, b) && chars_lt(b, c) ==> chars_lt(a, c),
        chars_lt(a, b) || chars_lt(b, a) || a == b,
    decreases a.len(),
{
    if a.len() > 0 && b.len() > 0 && c.len() > 0 {
        lemma_chars_lt_order(a.drop_first(), b.drop_first(), c.drop_first());
        if a[0] == b[0] && a.drop_first() == b.drop_first() {
            assert(a =~= seq![a[0]] + a.drop_first());
            assert(b =~= seq![b[0]] + b.drop_first());
        }
    } else if a.len() > 0 && b.len() > 0 {
        lemma_chars_lt_order(a.drop_first(), b.drop_first(), b.drop_first());
        if a[0] == b[0] && a.drop_first() == b.drop_first() {
            assert(a =~= seq![a[0]] + a.drop_first());
            assert(b =~= seq![b[0]] + b.drop_first());
        }
    } else if a.len() > 0 {
        lemma_chars_lt_order(a.drop_first(), a.drop_first(), a.drop_first());
    } else if a.len() == 0 && b.len() == 0 {
        assert(a =~= b);
    }
}

/// The order of lists of names is a strict total order.
pub proof fn lemma_names_lt_order(a: Seq<Seq<char>>, b: Seq<Seq<char>>, c: Seq<Seq<char>>)
    ensures
        !names_lt(a, a),
        names_lt(a, b) && names_lt(b, c) ==> names_lt(a, c),
        names_lt(a, b) || names_lt(b, a) || a == b,
    decreases a.len(),
{
    if a.len() > 0 {
        lemma_chars_lt_order(a[0], a[0], a[0]);
    }
    if a.len() > 0 && b.len() > 0 && c.len() > 0 {
        lemma_names_lt_order(a.drop_first(), b.drop_first(), c.drop_first());
        lemma_chars_lt_order(a[0], b[0], c[0]);
        if a[0] == b[0] && a.drop_first() == b.drop_first() {
            assert(a =~= seq![a[0]] + a.drop_first());
            assert(b =~= seq![b[0]] + b.drop_first());
        }
    } else if a.len() > 0 && b.len() > 0 {
        lemma_names_lt_order(a.drop_first(), b.drop_first(), b.drop_first());
        lemma_chars_lt_order(a[0], b[0], b[0]);
        if a[0] == b[0] && a.drop_first() == b.drop_first() {
            assert(a =~= seq![a[0]] + a.drop_first());
            assert(b =~= seq![b[0]] + b.drop_first());
        }
    } else if a.len() > 0 {
        lemma_names_lt_order(a.drop_first(), a.drop_first(), a.drop_first());
    } else if a.len() == 0 && b.len() == 0 {
        assert(a =~= b);
    }
}

/// Comparing names past a common prefix of length `i` decides as comparing them whole.
proof fn lemma_chars_lt_skip(a: Seq<char>, b: Seq<char>, i: int)
    requires
        0 <= i <= a.len(),
        i <= b.len(),
        a.take(i) == b.take(i),
    ensures
        chars_lt(a, b) == chars_lt(a.skip(i), b.skip(i)),
    decreases i,
{
    if i == 0 {
        assert(a.skip(0) =~= a);
        assert(b.skip(0) =~= b);
    } else {
        assert(a[0] == a.take(i)[0]);
        assert(b[0] == b.take(i)[0]);
        assert(a.drop_first().take(i - 1) =~= a.take(i).drop_first());
        assert(b.drop_first().take(i - 1) =~= b.take(i).drop_first());
        lemma_chars_lt_skip(a.drop_first(), b.drop_first(), i - 1);
        assert(a.drop_first().skip(i - 1) =~= a.skip(i));
        assert(b.drop_first().skip(i - 1) =~= b.skip(i));
    }
}

/// Comparing lists of names past a common prefix of length `i` decides as comparing them
/// whole.
proof fn lemma_names_lt_skip(a: Seq<Seq<char>>, b: Seq<Seq<char>>, i: int)
    requires
        0 <= i <= a.len(),
        i <= b.len(),
        a.take(i) == b.take(i),
    ensures
        names_lt(a, b) == names_lt(a.skip(i), b.skip(i)),
    decreases i,
{
    if i == 0 {
        assert(a.skip(0) =~= a);
        assert(b.skip(0) =~= b);
    } else {
        assert(a[0] == a.take(i)[0]);
        assert(b[0] == b.take(i)[0]);
        assert(a.drop_first().take(i - 1) =~= a.take(i).drop_first());
        assert(b.drop_first().take(i - 1) =~= b.take(i).drop_first());
        lemma_names_lt_skip(a.drop_first(), b.drop_first(), i - 1);
        assert(a.drop_first().skip(i - 1) =~= a.skip(i));
        assert(b.drop_first().skip(i - 1) =~= b.skip(i));
    }
}

/// Whether the name `a` comes strictly before the name `b`.
pub fn name_before(a: &String, b: &String) -> (r: bool)
    ensures
        r == chars_lt(a@, b@),
{
    let x = a.as_str();
    let y = b.as_str();
    let la = x.unicode_len();
    let lb = y.unicode_len();
    let mut i: usize = 0;
    while i < la && i < lb
        invariant
            x@ == a@,
            y@ == b@,
            la == a@.len(),
            lb == b@.len(),
            i <= la,
            i <= lb,
            a@.take(i as int) == b@.take(i as int),
        decreases la - i,
    {
        let c = x.get_char(i);
        let d = y.get_char(i);
        if c != d {
            proof {
                lemma_chars_lt_skip(a@, b@, i as int);
                assert(a@.skip(i as int)[0] == c);
                assert(b@.skip(i as int)[0] == d);
            }
            return c < d;
        }
        assert(a@.take(i + 1) =~= a@.take(i as int).push(c));
        assert(b@.take(i + 1) =~= b@.take(i as int).push(d));
        i = i + 1;
    }
    proof {
        lemma_chars_lt_skip(a@, b@, i as int);
    }
    i < lb
}

/// Whether the list of names `a` comes strictly before the list of names `b`.
pub fn names_before(a: &Vec<String>, b: &Vec<String>) -> (r: bool)
    ensures
        r == names_lt(a.deep_view(), b.deep_view()),
{
    let ghost da = a.deep_view();
    let ghost db = b.deep_view();
    let mut i: usize = 0;
    while i < a.len() && i < b.len()
        invariant
            da == a.deep_view(),
            db == b.deep_view(),
            i <= a@.len(),
            i <= b@.len(),
            da.take(i as int) == db.take(i as int),
        decreases a@.len() - i,
    {
        if !(a[i] == b[i]) {
            proof {
                lemma_names_lt_skip(da, db, i as int);
                assert(da.skip(i as int)[0] == a[i as int]@);
                assert(db.skip(i as int)[0] == b[i as int]@);
            }
            return name_before(&a[i], &b[i]);
        }
        assert(da.take(i + 1) =~= da.take(i as int).push(a[i as int]@));
        assert(db.take(i + 1) =~= db.take(i as int).push(b[i as int]@));
        i = i + 1;
    }
    proof {
        lemma_names_lt_skip(da, db, i as int);
    }
    i < b.len()
}

/// A copy of a list of paths.
pub fn copy_paths(v: &Vec<FilePath>) -> (r: Vec<FilePath>)
    ensures
        r.deep_view() == v.deep_view(),
{
    let mut r: Vec<FilePath> = Vec::with_capacity(v.len());
    let mut i: usize = 0;
    while i < v.len()
        invariant
            i <= v@.len(),
            r@.len() == i,
            forall|k: int| 0 <= k < i ==> (#[trigger] r@[k])@ == v@[k]@,
        decreases v@.len() - i,
    {
        r.push(v[i].duplicate());
        i = i + 1;
    }
    assert(r.deep_view() =~= v.deep_view());
    r
}


/// The parent of a location in the file system given by its names: the last name dropped;
/// the root `/` and the empty location have none.
pub open spec fn spec_location_parent(names: Seq<Seq<char>>) -> Option<Seq<Seq<char>>> {
    if names.len() == 0 || (names.len() == 1 && names[0] == seq!['/']) {
        None
    } else {
        Some(names.drop_last())
    }
}

/// Whether a name is the root of the file system, `/`.
pub fn is_root_name(name: &String) -> (r: bool)
    ensures
        r == (name@ == seq!['/']),
{
    let s = name.as_str();
    if s.unicode_len() != 1 {
        return false;
    }
    let c = s.get_char(0);
    if c == '/' {
        assert(name@ =~= seq!['/']);
        true
    } else {
        false
    }
}

/// Whether `names` is among `list`.
pub fn names_list_contains(list: &Vec<Vec<String>>, names: &Vec<String>) -> (r: bool)
    ensures
        r == list.deep_view().contains(names.deep_view()),
{
    let ghost lv = list.deep_view();
    let mut i: usize = 0;
    while i < list.len()
        invariant
            lv == list.deep_view(),
            i <= lv.len(),
            forall|k: int| 0 <= k < i ==> lv[k] != names.deep_view(),
        decreases lv.len() - i,
    {
        if names_equal(&list[i], names) {
            assert(lv[i as int] == names.deep_view());
            return true;
        }
        i = i + 1;
    }
    false
}

/// The parent of the location `names`, see `spec_location_parent`.
pub fn location_parent(names: &Vec<String>) -> (r: Option<Vec<String>>)
    ensures
        spec_location_parent(names.deep_view()) is None ==> r is None,
        spec_location_parent(names.deep_view()) matches Some(p) ==> (r matches Some(q) && q.deep_view() == p),
{
    if names.len() == 0 {
        return None;
    }
    if names.len() == 1 && is_root_name(&names[0]) {
        return None;
    }
    let mut parent = copy_names(names);
    parent.pop();
    assert(parent.deep_view() =~= names.deep_view().drop_last());
    Some(parent)
}

/// The location `names` joined onto the location `base`: a location that starts at the root
/// replaces the base.
pub open spec fn spec_join_location(base: Seq<Seq<char>>, names: Seq<Seq<char>>) -> Seq<Seq<char>> {
    if names.len() > 0 && names[0] == seq!['/'] {
        names
    } else {
        base + names
    }
}

/// The location `names` joined onto `base`, see `spec_join_location`.
pub fn join_location(base: &Vec<String>, names: &Vec<String>) -> (r: Vec<String>)
    ensures
        r.deep_view() == spec_join_location(base.deep_view(), names.deep_view()),
{
    if names.len() > 0 && is_root_name(&names[0]) {
        return copy_names(names);
    }
    let mut r = copy_names(base);
    let mut i: usize = 0;
    let ghost b = base.deep_view();
    while i < names.len()
        invariant
            b == base.deep_view(),
            i <= names@.len(),
            r.deep_view() == b + names.deep_view().take(i as int),
        decreases names@.len() - i,
    {
        let ghost before = r.deep_view();
        r.push(names[i].clone());
        assert(names.deep_view().take(i as int + 1) =~= names.deep_view().take(i as int).push(names@[i as int]@));
        assert(r.deep_view() =~= before.push(names@[i as int]@));
        i = i + 1;
    }
    assert(names.deep_view().take(names@.len() as int) =~= names.deep_view());
    r
}

} // verus!
