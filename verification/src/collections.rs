//! Hash-backed tables: label tables holding `String` labels, and the
//! binary-branch tables holding integer ids.  They are backed by
//! `rustc_hash`'s Fx collections; what they contain is named by spec
//! functions so that the verified code above them can be stated exactly.

use rustc_hash::{FxHashMap, FxHashSet};
use vstd::prelude::*;

verus! {

/// Label-interning dictionary: label text to a dense `i32` id.
#[verifier::external_body]
pub struct LabelDict {
    map: FxHashMap<String, i32>,
}

/// What a `LabelDict` holds: label text to id.
pub uninterp spec fn label_dict_entries(d: LabelDict) -> Map<Seq<char>, i32>;

/// A set of labels.
#[verifier::external_body]
pub struct LabelSet {
    set: FxHashSet<String>,
}

/// What a `LabelSet` holds.
pub uninterp spec fn label_set_entries(s: LabelSet) -> Set<Seq<char>>;

/// `FxHashMap::default`: a new map holds no entry.
#[verifier::external_body]
fn dict_empty() -> (r: LabelDict)
    ensures
        label_dict_entries(r).dom() == Set::<Seq<char>>::empty(),
{
    LabelDict { map: FxHashMap::default() }
}

/// `HashMap::get`: the value stored under a key equal to `label`, if any.
/// `String` keys compare equal exactly when their text is equal.
#[verifier::external_body]
fn dict_get(d: &LabelDict, label: &str) -> (r: Option<i32>)
    ensures
        r == (if label_dict_entries(*d).dom().contains(label@) {
            Some(label_dict_entries(*d)[label@])
        } else {
            None::<i32>
        }),
{
    d.map.get(label).copied()
}

/// `HashMap::insert`: afterwards `label` maps to `id`; other entries are kept.
#[verifier::external_body]
fn dict_insert(d: &mut LabelDict, label: String, id: i32)
    ensures
        label_dict_entries(*final(d)) == label_dict_entries(*old(d)).insert(label@, id),
{
    d.map.insert(label, id);
}

/// `HashMap::len`: the number of keys.
#[verifier::external_body]
fn dict_len(d: &LabelDict) -> (r: usize)
    ensures
        r as nat == label_dict_entries(*d).len(),
{
    d.map.len()
}

/// `FxHashSet::default`: a new set is empty.
#[verifier::external_body]
fn set_empty() -> (r: LabelSet)
    ensures
        label_set_entries(r) == Set::<Seq<char>>::empty(),
{
    LabelSet { set: FxHashSet::default() }
}

/// `HashSet::insert`: afterwards the set also holds `label`.
#[verifier::external_body]
fn set_insert(s: &mut LabelSet, label: String)
    ensures
        label_set_entries(*final(s)) == label_set_entries(*old(s)).insert(label@),
{
    s.set.insert(label);
}

/// `HashSet::contains`: whether a label with the same text is held.
#[verifier::external_body]
fn set_contains(s: &LabelSet, label: &str) -> (r: bool)
    ensures
        r == label_set_entries(*s).contains(label@),
{
    s.set.contains(label)
}

impl LabelDict {
    /// The entries as a map from label text to id.
    pub open spec fn entries(&self) -> Map<Seq<char>, i32> {
        label_dict_entries(*self)
    }

    /// Ids are dense: the `len` labels held have the distinct ids `0..len`.
    pub open spec fn wf(&self) -> bool {
        &&& self.entries().dom().finite()
        &&& forall|l: Seq<char>|
            #[trigger] self.entries().dom().contains(l) ==> 0 <= self.entries()[l] < self.entries().len()
        &&& forall|l1: Seq<char>, l2: Seq<char>|
            #[trigger] self.entries().dom().contains(l1) && #[trigger] self.entries().dom().contains(l2)
                && self.entries()[l1] == self.entries()[l2] ==> l1 == l2
    }

    /// An empty dictionary.
    pub fn new() -> (d: LabelDict)
        ensures
            d.wf(),
            d.entries().dom() == Set::<Seq<char>>::empty(),
    {
        dict_empty()
    }

    /// Number of labels interned so far.
    pub fn len(&self) -> (r: usize)
        ensures
            r as nat == self.entries().len(),
    {
        dict_len(self)
    }

    /// Looks up the id of a label.
    pub fn get(&self, label: &str) -> (r: Option<i32>)
        ensures
            r == (if self.entries().dom().contains(label@) {
                Some(self.entries()[label@])
            } else {
                None::<i32>
            }),
    {
        dict_get(self, label)
    }
}

/// The dictionary after interning the labels `ls` into `d` in order: each
/// label not yet present gets the next free id.
pub open spec fn interned(d: Map<Seq<char>, i32>, ls: Seq<Seq<char>>) -> Map<Seq<char>, i32>
    decreases ls.len(),
{
    if ls.len() == 0 {
        d
    } else {
        let p = interned(d, ls.drop_last());
        if p.dom().contains(ls.last()) {
            p
        } else {
            p.insert(ls.last(), p.len() as i32)
        }
    }
}

/// Interning keeps what was there, adds exactly the labels of `ls`, and adds
/// at most one entry per label.
pub proof fn lemma_interned(d: Map<Seq<char>, i32>, ls: Seq<Seq<char>>)
    requires
        d.dom().finite(),
    ensures
        interned(d, ls).dom().finite(),
        interned(d, ls).dom() == d.dom() + ls.to_set(),
        d.submap_of(interned(d, ls)),
        d.len() <= interned(d, ls).len() <= d.len() + ls.len(),
        (forall|i: int| 0 <= i < ls.len() ==> d.dom().contains(#[trigger] ls[i])) ==> interned(d, ls) == d,
    decreases ls.len(),
{
    if ls.len() > 0 {
        let init = ls.drop_last();
        lemma_interned(d, init);
        let p = interned(d, init);
        assert(ls.to_set() =~= init.to_set().insert(ls.last())) by {
            assert forall|x: Seq<char>| ls.to_set().contains(x) implies init.to_set().contains(x) || x == ls.last() by {
                let i = choose|i: int| 0 <= i < ls.len() && ls[i] == x;
                if i < ls.len() - 1 {
                    assert(init[i] == x);
                }
            }
            assert forall|x: Seq<char>| init.to_set().contains(x) implies ls.to_set().contains(x) by {
                let i = choose|i: int| 0 <= i < init.len() && init[i] == x;
                assert(ls[i] == x);
            }
            assert(ls[ls.len() - 1] == ls.last());
        }
        if (forall|i: int| 0 <= i < ls.len() ==> d.dom().contains(#[trigger] ls[i])) {
            assert forall|i: int| 0 <= i < init.len() implies d.dom().contains(#[trigger] init[i]) by {
                assert(ls[i] == init[i]);
            }
            assert(d.dom().contains(ls[ls.len() - 1]));
        }
        if !p.dom().contains(ls.last()) {
            assert(p.insert(ls.last(), p.len() as i32).dom() =~= p.dom().insert(ls.last()));
        }
    }
}

/// Interning two runs of labels is interning the first, then the second.
pub proof fn lemma_interned_concat(d: Map<Seq<char>, i32>, a: Seq<Seq<char>>, b: Seq<Seq<char>>)
    ensures
        interned(d, a + b) == interned(interned(d, a), b),
    decreases b.len(),
{
    if b.len() == 0 {
        assert(a + b =~= a);
    } else {
        assert((a + b).drop_last() =~= a + b.drop_last());
        assert((a + b).last() == b.last());
        lemma_interned_concat(d, a, b.drop_last());
    }
}

/// Interns `label`: returns its id, giving a new label the next free id.
pub fn intern(dict: &mut LabelDict, label: &str) -> (id: i32)
    requires
        old(dict).wf(),
        old(dict).entries().len() < i32::MAX,
    ensures
        final(dict).wf(),
        final(dict).entries().dom().contains(label@),
        final(dict).entries()[label@] == id,
        old(dict).entries().dom().contains(label@) ==> final(dict).entries() == old(dict).entries(),
        !old(dict).entries().dom().contains(label@) ==> {
            &&& id as nat == old(dict).entries().len()
            &&& final(dict).entries() == old(dict).entries().insert(label@, id)
        },
{
    match dict_get(dict, label) {
        Some(id) => id,
        None => {
            let n = dict_len(dict);
            let id = n as i32;
            let ghost before = dict.entries();
            dict_insert(dict, label.to_owned(), id);
            proof {
                let after = dict.entries();
                assert(after.dom() =~= before.dom().insert(label@));
                assert(after.len() == before.len() + 1);
                assert forall|l1: Seq<char>, l2: Seq<char>|
                    #[trigger] after.dom().contains(l1) && #[trigger] after.dom().contains(l2)
                        && after[l1] == after[l2] implies l1 == l2 by {
                    if l1 != label@ && l2 != label@ {
                        assert(before.dom().contains(l1) && before.dom().contains(l2));
                    } else if l1 == label@ && l2 != label@ {
                        assert(before.dom().contains(l2));
                    } else if l2 == label@ && l1 != label@ {
                        assert(before.dom().contains(l1));
                    }
                }
                assert forall|l: Seq<char>| #[trigger] after.dom().contains(l) implies
                    0 <= after[l] < after.len() by {
                    if l != label@ {
                        assert(before.dom().contains(l));
                    }
                }
            }
            id
        },
    }
}

impl LabelSet {
    /// The labels held.
    pub open spec fn entries(&self) -> Set<Seq<char>> {
        label_set_entries(*self)
    }

    /// An empty set.
    pub fn new() -> (s: LabelSet)
        ensures
            s.entries() == Set::<Seq<char>>::empty(),
    {
        set_empty()
    }

    /// Adds a label.
    pub fn insert(&mut self, label: String)
        ensures
            final(self).entries() == old(self).entries().insert(label@),
    {
        set_insert(self, label)
    }

    /// Whether a label is held.
    pub fn contains(&self, label: &str) -> (r: bool)
        ensures
            r == self.entries().contains(label@),
    {
        set_contains(self, label)
    }
}

/// A binary-branch triple: the label ids of a node, of its first child and of
/// its next sibling.
pub type BbTuple = (i32, Option<i32>, Option<i32>);

/// Binary-branch ids: a triple to its id.
#[verifier::external_body]
pub struct BranchIdMap {
    map: FxHashMap<(i32, Option<i32>, Option<i32>), i32>,
}

/// What a `BranchIdMap` holds: triple to id.
pub uninterp spec fn branch_id_entries(m: BranchIdMap) -> Map<(i32, Option<i32>, Option<i32>), i32>;

/// Binary-branch vector: branch id to the number of nodes with that branch.
#[verifier::external_body]
pub struct BranchVector {
    map: FxHashMap<i32, i32>,
}

/// What a `BranchVector` holds: branch id to count.
pub uninterp spec fn branch_vector_entries(v: BranchVector) -> Map<i32, i32>;

/// `FxHashMap::default`: a new map holds no entry.
#[verifier::external_body]
pub(crate) fn branch_ids_empty() -> (r: BranchIdMap)
    ensures
        branch_id_entries(r).dom() == Set::<(i32, Option<i32>, Option<i32>)>::empty(),
{
    BranchIdMap { map: FxHashMap::default() }
}

/// `HashMap::get`: the id stored under an equal triple, if any.
#[verifier::external_body]
pub(crate) fn branch_ids_get(m: &BranchIdMap, key: (i32, Option<i32>, Option<i32>)) -> (r: Option<i32>)
    ensures
        r == (if branch_id_entries(*m).dom().contains(key) {
            Some(branch_id_entries(*m)[key])
        } else {
            None::<i32>
        }),
{
    m.map.get(&key).copied()
}

/// `HashMap::insert`: afterwards `key` maps to `id`; other entries are kept.
#[verifier::external_body]
pub(crate) fn branch_ids_insert(m: &mut BranchIdMap, key: (i32, Option<i32>, Option<i32>), id: i32)
    ensures
        branch_id_entries(*final(m)) == branch_id_entries(*old(m)).insert(key, id),
{
    m.map.insert(key, id);
}

/// `FxHashMap::default`: a new vector holds no entry.
#[verifier::external_body]
pub(crate) fn branch_vector_empty() -> (r: BranchVector)
    ensures
        branch_vector_entries(r).dom() == Set::<i32>::empty(),
{
    BranchVector { map: FxHashMap::default() }
}

/// `HashMap::get`: the count stored under `id`, if any.
#[verifier::external_body]
pub(crate) fn branch_vector_get(v: &BranchVector, id: i32) -> (r: Option<i32>)
    ensures
        r == (if branch_vector_entries(*v).dom().contains(id) {
            Some(branch_vector_entries(*v)[id])
        } else {
            None::<i32>
        }),
{
    v.map.get(&id).copied()
}

/// `HashMap::insert`: afterwards `id` maps to `count`; other entries are kept.
#[verifier::external_body]
pub(crate) fn branch_vector_insert(v: &mut BranchVector, id: i32, count: i32)
    ensures
        branch_vector_entries(*final(v)) == branch_vector_entries(*old(v)).insert(id, count),
{
    v.map.insert(id, count);
}

/// `HashMap::iter`, each entry copied out: every entry exactly once, in the
/// map's own order, which is left open.
#[verifier::external_body]
pub(crate) fn branch_vector_list(v: &BranchVector) -> (r: Vec<(i32, i32)>)
    ensures
        forall|a: int, b: int| 0 <= a < b < r@.len() ==> (#[trigger] r@[a]).0 != (#[trigger] r@[b]).0,
        forall|a: int|
            0 <= a < r@.len() ==> branch_vector_entries(*v).dom().contains((#[trigger] r@[a]).0)
                && branch_vector_entries(*v)[r@[a].0] == r@[a].1,
        forall|k: i32|
            #[trigger] branch_vector_entries(*v).dom().contains(k) ==> exists|a: int| 0 <= a < r@.len() && (#[trigger] r@[a]).0 == k,
{
    v.map.iter().map(|(k, c)| (*k, *c)).collect()
}

/// Label counts: label text to the number of nodes with that label.
#[verifier::external_body]
pub struct LabelCounts {
    map: FxHashMap<String, i32>,
}

/// What a `LabelCounts` holds: label text to count.
pub uninterp spec fn label_count_entries(c: LabelCounts) -> Map<Seq<char>, i32>;

/// `FxHashMap::default`: new counts hold no entry.
#[verifier::external_body]
pub(crate) fn counts_empty() -> (r: LabelCounts)
    ensures
        label_count_entries(r).dom() == Set::<Seq<char>>::empty(),
{
    LabelCounts { map: FxHashMap::default() }
}

/// `HashMap::get`: the count stored under a key equal to `label`, if any.
#[verifier::external_body]
pub(crate) fn counts_get(c: &LabelCounts, label: &str) -> (r: Option<i32>)
    ensures
        r == (if label_count_entries(*c).dom().contains(label@) {
            Some(label_count_entries(*c)[label@])
        } else {
            None::<i32>
        }),
{
    c.map.get(label).copied()
}

/// `HashMap::insert`: afterwards `label` maps to `count`; other entries are
/// kept.
#[verifier::external_body]
pub(crate) fn counts_insert(c: &mut LabelCounts, label: String, count: i32)
    ensures
        label_count_entries(*final(c)) == label_count_entries(*old(c)).insert(label@, count),
{
    c.map.insert(label, count);
}

} // verus!
