//! Hash values of files and directories, their order and their comparison.

use crate::order::SortKey;
use vstd::prelude::*;

verus! {

/// The hash algorithms a hash tree can be built with. The declaration order is the order of
/// hashes of different algorithms.
#[derive(Debug, Clone, Copy, PartialEq, Eq, Hash, Structural)]
pub enum GeneralHashType {
    SHA512,
    SHA256,
    SHA1,
    XXH64,
    XXH32,
    NULL,
}

/// A hash value: the algorithm that produced it and its digest bytes.
/// The `NULL` hash of files that have no content hash has no digest bytes.
#[derive(Debug, Clone, PartialEq, Eq, Hash)]
pub struct GeneralHash {
    /// The algorithm that produced the hash.
    pub hash_type: GeneralHashType,
    /// The digest bytes.
    pub value: Vec<u8>,
}

/// The mathematical value of a hash: its algorithm and its digest bytes.
pub type HashView = (GeneralHashType, Seq<u8>);

impl View for GeneralHash {
    type V = HashView;

    open spec fn view(&self) -> HashView {
        (self.hash_type, self.value@)
    }
}

impl DeepView for GeneralHash {
    type V = HashView;

    open spec fn deep_view(&self) -> HashView {
        self@
    }
}

/// Position of a hash algorithm in the order of hashes.
pub open spec fn type_rank(t: GeneralHashType) -> int {
    match t {
        GeneralHashType::SHA512 => 0,
        GeneralHashType::SHA256 => 1,
        GeneralHashType::SHA1 => 2,
        GeneralHashType::XXH64 => 3,
        GeneralHashType::XXH32 => 4,
        GeneralHashType::NULL => 5,
    }
}

/// Strict lexicographic order of byte strings.
pub open spec fn bytes_lt(a: Seq<u8>, b: Seq<u8>) -> bool
    decreases a.len(),
{
    if a.len() == 0 {
        b.len() > 0
    } else if b.len() == 0 {
        false
    } else if a[0] != b[0] {
        a[0] < b[0]
    } else {
        bytes_lt(a.drop_first(), b.drop_first())
    }
}

/// Strict order of hashes: first by algorithm, then lexicographically by digest.
pub open spec fn hash_lt(a: HashView, b: HashView) -> bool {
    type_rank(a.0) < type_rank(b.0) || (a.0 == b.0 && bytes_lt(a.1, b.1))
}

/// The hash of an entry that has no content hash.
pub open spec fn null_hash() -> HashView {
    (GeneralHashType::NULL, Seq::empty())
}

/// A sequence of hashes is sorted when no hash is smaller than one before it.
pub open spec fn hashes_sorted(s: Seq<HashView>) -> bool {
    forall|i: int, j: int| 0 <= i < j < s.len() ==> !hash_lt(#[trigger] s[j], #[trigger] s[i])
}

proof fn lemma_bytes_lt_irreflexive(a: Seq<u8>)
    ensures
        !bytes_lt(a, a),
    decreases a.len(),
{
    if a.len() > 0 {
        lemma_bytes_lt_irreflexive(a.drop_first());
    }
}

proof fn lemma_bytes_lt_transitive(a: Seq<u8>, b: Seq<u8>, c: Seq<u8>)
    requires
        bytes_lt(a, b),
        bytes_lt(b, c),
    ensures
        bytes_lt(a, c),
    decreases a.len(),
{
    if a.len() > 0 && b.len() > 0 && c.len() > 0 && a[0] == b[0] && b[0] == c[0] {
        lemma_bytes_lt_transitive(a.drop_first(), b.drop_first(), c.drop_first());
    }
}

proof fn lemma_bytes_lt_total(a: Seq<u8>, b: Seq<u8>)
    ensures
        bytes_lt(a, b) || bytes_lt(b, a) || a == b,
    decreases a.len(),
{
    if a.len() > 0 && b.len() > 0 && a[0] == b[0] {
        lemma_bytes_lt_total(a.drop_first(), b.drop_first());
        if a.drop_first() == b.drop_first() {
            assert(a =~= seq![a[0]] + a.drop_first());
            assert(b =~= seq![b[0]] + b.drop_first());
        }
    } else if a.len() == 0 && b.len() == 0 {
        assert(a =~= b);
    }
}

/// The order of hashes is a strict total order.
pub proof fn lemma_hash_lt_order(a: HashView, b: HashView, c: HashView)
    ensures
        !hash_lt(a, a),
        hash_lt(a, b) && hash_lt(b, c) ==> hash_lt(a, c),
        hash_lt(a, b) || hash_lt(b, a) || a == b,
        hash_lt(a, b) ==> !hash_lt(b, a),
{
    lemma_bytes_lt_irreflexive(a.1);
    if hash_lt(a, b) && hash_lt(b, c) && a.0 == b.0 && b.0 == c.0 {
        lemma_bytes_lt_transitive(a.1, b.1, c.1);
    }
    lemma_bytes_lt_total(a.1, b.1);
    if hash_lt(a, b) && hash_lt(b, a) {
        lemma_bytes_lt_transitive(a.1, b.1, a.1);
    }
}

impl GeneralHash {
    /// The hash of entries that have no content hash.
    pub fn null() -> (r: GeneralHash)
        ensures
            r@ == null_hash(),
    {
        GeneralHash { hash_type: GeneralHashType::NULL, value: Vec::new() }
    }

    /// The algorithm that produced this hash.
    pub fn hash_type(&self) -> (r: GeneralHashType)
        ensures
            r == self@.0,
    {
        self.hash_type
    }

    /// A copy of this hash.
    pub fn duplicate(&self) -> (r: GeneralHash)
        ensures
            r@ == self@,
    {
        let mut value: Vec<u8> = Vec::with_capacity(self.value.len());
        let mut i: usize = 0;
        while i < self.value.len()
            invariant
                i <= self.value@.len(),
                value@ == self.value@.subrange(0, i as int),
            decreases self.value@.len() - i,
        {
            value.push(self.value[i]);
            i = i + 1;
            assert(value@ =~= self.value@.subrange(0, i as int));
        }
        assert(value@ =~= self.value@);
        GeneralHash { hash_type: self.hash_type, value }
    }

    /// Whether two hashes are equal: same algorithm and same digest.
    pub fn same_as(&self, other: &GeneralHash) -> (r: bool)
        ensures
            r == (self@ == other@),
    {
        if self.hash_type != other.hash_type || self.value.len() != other.value.len() {
            return false;
        }
        let mut i: usize = 0;
        while i < self.value.len()
            invariant
                self.value@.len() == other.value@.len(),
                i <= self.value@.len(),
                forall|k: int| 0 <= k < i ==> self.value@[k] == other.value@[k],
            decreases self.value@.len() - i,
        {
            if self.value[i] != other.value[i] {
                return false;
            }
            i = i + 1;
        }
        assert(self.value@ =~= other.value@);
        true
    }

    /// Whether this hash comes strictly before `other` in the order of hashes.
    pub fn less_than(&self, other: &GeneralHash) -> (r: bool)
        ensures
            r == hash_lt(self@, other@),
    {
        let ra = rank(self.hash_type);
        let rb = rank(other.hash_type);
        if ra != rb {
            return ra < rb;
        }
        assert(self.hash_type == other.hash_type);
        let a = &self.value;
        let b = &other.value;
        let mut i: usize = 0;
        assert(a@.skip(0) =~= a@);
        assert(b@.skip(0) =~= b@);
        while i < a.len() && i < b.len()
            invariant
                self.hash_type == other.hash_type,
                a@ == self.value@,
                b@ == other.value@,
                i <= a@.len(),
                i <= b@.len(),
                a@.subrange(0, i as int) == b@.subrange(0, i as int),
                bytes_lt(a@, b@) == bytes_lt(a@.skip(i as int), b@.skip(i as int)),
            decreases a@.len() - i,
        {
            assert(a@.skip(i as int)[0] == a@[i as int]);
            assert(b@.skip(i as int)[0] == b@[i as int]);
            if a[i] != b[i] {
                assert(a@.skip(i as int).len() > 0 && b@.skip(i as int).len() > 0);
                assert(bytes_lt(a@.skip(i as int), b@.skip(i as int)) == (a[i as int] < b[i as int]));
                return a[i] < b[i];
            }
            assert(a@.skip(i as int).drop_first() =~= a@.skip(i + 1));
            assert(b@.skip(i as int).drop_first() =~= b@.skip(i + 1));
            i = i + 1;
            assert(a@.subrange(0, i as int) =~= a@.subrange(0, i - 1).push(a@[i - 1]));
            assert(b@.subrange(0, i as int) =~= b@.subrange(0, i - 1).push(b@[i - 1]));
        }
        i < b.len()
    }
}

/// A copy of a list of hashes.
pub fn copy_hashes(v: &Vec<GeneralHash>) -> (r: Vec<GeneralHash>)
    ensures
        r.deep_view() == v.deep_view(),
{
    let mut r: Vec<GeneralHash> = Vec::with_capacity(v.len());
    let mut i: usize = 0;
    while i < v.len()
        invariant
            i <= v@.len(),
            r@.len() == i,
            forall|k: int| 0 <= k < i ==> #[trigger] r@[k]@ == v@[k]@,
        decreases v@.len() - i,
    {
        r.push(v[i].duplicate());
        i = i + 1;
    }
    assert(r.deep_view() =~= v.deep_view());
    r
}

/// Whether two lists of hashes are equal.
pub fn hashes_equal(a: &Vec<GeneralHash>, b: &Vec<GeneralHash>) -> (r: bool)
    ensures
        r == (a.deep_view() == b.deep_view()),
{
    if a.len() != b.len() {
        assert(a.deep_view().len() != b.deep_view().len());
        return false;
    }
    let mut i: usize = 0;
    while i < a.len()
        invariant
            a@.len() == b@.len(),
            i <= a@.len(),
            forall|k: int| 0 <= k < i ==> (#[trigger] a@[k])@ == b@[k]@,
        decreases a@.len() - i,
    {
        if !a[i].same_as(&b[i]) {
            assert(a.deep_view()[i as int] != b.deep_view()[i as int]);
            return false;
        }
        i = i + 1;
    }
    assert(a.deep_view() =~= b.deep_view());
    true
}

/// A copy of an optional hash.
pub fn copy_optional_hash(h: &Option<GeneralHash>) -> (r: Option<GeneralHash>)
    ensures
        r.deep_view() == h.deep_view(),
{
    match h {
        Some(h) => Some(h.duplicate()),
        None => None,
    }
}

/// Whether two optional hashes are equal.
pub fn optional_hashes_equal(a: &Option<GeneralHash>, b: &Option<GeneralHash>) -> (r: bool)
    ensures
        r == (a.deep_view() == b.deep_view()),
{
    match (a, b) {
        (Some(x), Some(y)) => x.same_as(y),
        (None, None) => true,
        _ => false,
    }
}

impl SortKey for GeneralHash {
    type Key = HashView;

    open spec fn sort_key(&self) -> HashView {
        self@
    }

    open spec fn key_lt(a: HashView, b: HashView) -> bool {
        hash_lt(a, b)
    }

    proof fn lemma_key_order(a: HashView, b: HashView, c: HashView) {
        lemma_hash_lt_order(a, b, c);
    }

    fn comes_before(&self, other: &Self) -> (r: bool) {
        self.less_than(other)
    }
}

fn rank(t: GeneralHashType) -> (r: u8)
    ensures
        r == type_rank(t),
{
    match t {
        GeneralHashType::SHA512 => 0,
        GeneralHashType::SHA256 => 1,
        GeneralHashType::SHA1 => 2,
        GeneralHashType::XXH64 => 3,
        GeneralHashType::XXH32 => 4,
        GeneralHashType::NULL => 5,
    }
}


/// Sorting determines a sequence of hashes by its contents alone: two sorted sequences with
/// the same hashes, counted with multiplicity, are equal. So the hashes of a directory's
/// children, sorted before they are digested, do not depend on the order in which the
/// children were listed.
pub proof fn law_sorted_hashes_determined(s1: Seq<HashView>, s2: Seq<HashView>)
    requires
        hashes_sorted(s1),
        hashes_sorted(s2),
        s1.to_multiset() == s2.to_multiset(),
    ensures
        s1 == s2,
    decreases s1.len(),
{
    broadcast use vstd::seq_lib::group_to_multiset_ensures, vstd::multiset::group_multiset_axioms;

    assert(s1.len() == s1.to_multiset().len());
    assert(s2.len() == s2.to_multiset().len());
    if s1.len() == 0 {
        assert(s1 =~= s2);
    } else {
        let a = s1[0];
        let b = s2[0];
        assert(s1.to_multiset().count(a) > 0);
        assert(s2.contains(a));
        let k = choose|k: int| 0 <= k < s2.len() && s2[k] == a;
        assert(s1.to_multiset().count(b) > 0);
        assert(s1.contains(b));
        let j = choose|j: int| 0 <= j < s1.len() && s1[j] == b;
        lemma_hash_lt_order(a, b, a);
        if k > 0 {
            assert(!hash_lt(s2[k], s2[0]));
        }
        if j > 0 {
            assert(!hash_lt(s1[j], s1[0]));
        }
        assert(a == b);
        let t1 = s1.remove(0);
        let t2 = s2.remove(0);
        assert(t1 =~= s1.drop_first());
        assert(t2 =~= s2.drop_first());
        assert(t1.to_multiset() == s1.to_multiset().remove(a));
        assert(t2.to_multiset() == s2.to_multiset().remove(b));
        assert(hashes_sorted(t1)) by {
            assert forall|i: int, j: int| 0 <= i < j < t1.len() implies !hash_lt(#[trigger] t1[j], #[trigger] t1[i]) by {
                assert(t1[j] == s1[j + 1] && t1[i] == s1[i + 1]);
            }
        }
        assert(hashes_sorted(t2)) by {
            assert forall|i: int, j: int| 0 <= i < j < t2.len() implies !hash_lt(#[trigger] t2[j], #[trigger] t2[i]) by {
                assert(t2[j] == s2[j + 1] && t2[i] == s2[i + 1]);
            }
        }
        law_sorted_hashes_determined(t1, t2);
        assert(s1 =~= s2) by {
            assert forall|i: int| 0 <= i < s1.len() implies s1[i] == s2[i] by {
                if i > 0 {
                    assert(s1[i] == t1[i - 1]);
                    assert(s2[i] == t2[i - 1]);
                }
            }
        }
    }
}

} // verus!
