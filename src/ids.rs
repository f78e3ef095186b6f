//! The layout-id interner: each distinct layout encoding gets the next
//! integer id, and keeps it for the rest of the compilation.
use vstd::prelude::*;

verus! {

/// The index of `key` in a sequence of distinct keys.
pub open spec fn id_of(keys: Seq<Seq<u64>>, key: Seq<u64>) -> int {
    choose|i: int| 0 <= i < keys.len() && keys[i] == key
}

/// No key occurs twice.
pub open spec fn distinct_keys(keys: Seq<Seq<u64>>) -> bool {
    forall|i: int, j: int| 0 <= i < keys.len() && 0 <= j < keys.len() && i != j ==> keys[i] != keys[j]
}

/// Among distinct keys, the id of a key is the index at which it stands.
pub proof fn lemma_id_of(keys: Seq<Seq<u64>>, i: int)
    requires
        distinct_keys(keys),
        0 <= i < keys.len(),
    ensures
        id_of(keys, keys[i]) == i,
{
    let j = id_of(keys, keys[i]);
    assert(0 <= j < keys.len() && keys[j] == keys[i]);
}

/// Interned layout encodings; a layout's id is the index of its encoding.
pub struct LayoutIds {
    keys: Vec<Vec<u64>>,
}

impl LayoutIds {
    pub closed spec fn view(&self) -> Seq<Seq<u64>> {
        self.keys@.map_values(|k: Vec<u64>| k@)
    }

    pub open spec fn wf(&self) -> bool {
        distinct_keys(self@)
    }

    pub fn new() -> (r: LayoutIds)
        ensures
            r.wf(),
            r@ == Seq::<Seq<u64>>::empty(),
    {
        let r = LayoutIds { keys: Vec::new() };
        assert(r@ =~= Seq::<Seq<u64>>::empty());
        r
    }

    /// The id of `key`, interning it first where it is new.
    pub fn get(&mut self, key: Vec<u64>) -> (id: u64)
        requires
            old(self).wf(),
        ensures
            final(self).wf(),
            id < final(self)@.len(),
            final(self)@[id as int] == key@,
            old(self)@.contains(key@) ==> *final(self) == *old(self),
            !old(self)@.contains(key@) ==> final(self)@ == old(self)@.push(key@),
            !old(self)@.contains(key@) ==> id == old(self)@.len(),
    {
        let mut i: usize = 0;
        while i < self.keys.len()
            invariant
                self.wf(),
                i <= self@.len(),
                forall|k: int| 0 <= k < i ==> self@[k] != key@,
            decreases self@.len() - i,
        {
            if same_words(&self.keys[i], &key) {
                return i as u64;
            }
            i = i + 1;
        }
        let ghost before = self@;
        let n = self.keys.len();
        self.keys.push(key);
        assert(self@ =~= before.push(key@));
        assert(!before.contains(key@));
        n as u64
    }
}

/// Whether two word sequences are equal.
pub fn same_words(a: &Vec<u64>, b: &Vec<u64>) -> (r: bool)
    ensures
        r == (a@ == b@),
{
    if a.len() != b.len() {
        return false;
    }
    let mut i: usize = 0;
    while i < a.len()
        invariant
            a@.len() == b@.len(),
            i <= a@.len(),
            forall|k: int| 0 <= k < i ==> a@[k] == b@[k],
        decreases a@.len() - i,
    {
        if a[i] != b[i] {
            return false;
        }
        i = i + 1;
    }
    assert(a@ =~= b@);
    true
}

} // verus!
