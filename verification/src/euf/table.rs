//! Hash tables behind the registry, the congruence table and the explanation cache.

use vstd::prelude::*;

verus! {

/// A hash table from index lists to indices, held by `hashbrown::HashMap`.
#[verifier::external_body]
#[derive(Debug)]
pub struct IndexTable {
    map: hashbrown::HashMap<Vec<u32>, u32>,
}

/// What a table holds: the stored index of every key, keys taken by their elements.
pub uninterp spec fn table_entries(table: IndexTable) -> Map<Seq<u32>, u32>;

/// `hashbrown::HashMap::new`: a new map is empty.
#[verifier::external_body]
pub(crate) fn table_new() -> (table: IndexTable)
    ensures
        table_entries(table) == (Map::<Seq<u32>, u32>::empty()),
{
    IndexTable { map: hashbrown::HashMap::new() }
}

/// `hashbrown::HashMap::get`: the value stored under the key, if the key is present. Keys are
/// compared by `Eq` of `Vec<u32>`, that is element by element.
#[verifier::external_body]
pub(crate) fn table_get(table: &IndexTable, key: &Vec<u32>) -> (value: Option<u32>)
    ensures
        value == if table_entries(*table).contains_key(key@) {
            Some(table_entries(*table)[key@])
        } else {
            None
        },
{
    table.map.get(key).copied()
}

/// `hashbrown::HashMap::insert`: afterwards the key is present with the new value, and every other
/// key is as before.
#[verifier::external_body]
pub(crate) fn table_insert(table: &mut IndexTable, key: Vec<u32>, value: u32)
    ensures
        table_entries(*final(table)) == table_entries(*old(table)).insert(key@, value),
{
    table.map.insert(key, value);
}

/// `hashbrown::HashMap::remove`: afterwards the key is absent, and every other key is as before.
#[verifier::external_body]
pub(crate) fn table_remove(table: &mut IndexTable, key: &Vec<u32>)
    ensures
        table_entries(*final(table)) == table_entries(*old(table)).remove(key@),
{
    table.map.remove(key);
}

/// `hashbrown::HashMap::clear`: afterwards the map is empty.
#[verifier::external_body]
pub(crate) fn table_clear(table: &mut IndexTable)
    ensures
        table_entries(*final(table)) == (Map::<Seq<u32>, u32>::empty()),
{
    table.map.clear();
}

/// `hashbrown::HashMap::len`: the number of keys that are present.
#[verifier::external_body]
pub(crate) fn table_len(table: &IndexTable) -> (n: usize)
    ensures
        n == table_entries(*table).dom().len(),
{
    table.map.len()
}

/// A set of index pairs, held by `hashbrown::HashSet`.
#[verifier::external_body]
#[derive(Debug)]
pub struct PairSet {
    set: hashbrown::HashSet<(u32, u32)>,
}

/// The pairs in a set.
pub uninterp spec fn pair_members(set: PairSet) -> Set<(u32, u32)>;

/// `hashbrown::HashSet::new`: a new set is empty.
#[verifier::external_body]
pub(crate) fn pairs_new() -> (set: PairSet)
    ensures
        pair_members(set) == Set::<(u32, u32)>::empty(),
{
    PairSet { set: hashbrown::HashSet::new() }
}

/// `hashbrown::HashSet::insert`: adds the pair, and returns whether it was absent.
#[verifier::external_body]
pub(crate) fn pairs_insert(set: &mut PairSet, pair: (u32, u32)) -> (added: bool)
    ensures
        added == !pair_members(*old(set)).contains(pair),
        pair_members(*final(set)) == pair_members(*old(set)).insert(pair),
{
    set.set.insert(pair)
}

/// `hashbrown::HashSet::clear`: afterwards the set is empty.
#[verifier::external_body]
pub(crate) fn pairs_clear(set: &mut PairSet)
    ensures
        pair_members(*final(set)) == Set::<(u32, u32)>::empty(),
{
    set.set.clear();
}

/// Returns a copy of an index list.
pub fn copy_indices(list: &Vec<u32>) -> (copy: Vec<u32>)
    ensures
        copy@ == list@,
{
    let mut copy: Vec<u32> = Vec::new();
    let mut i: usize = 0;
    while i < list.len()
        invariant
            0 <= i <= list.len(),
            copy@ == list@.take(i as int),
        decreases list.len() - i,
    {
        copy.push(list[i]);
        proof {
            assert(list@.take(i as int + 1) =~= list@.take(i as int).push(list@[i as int]));
        }
        i += 1;
    }
    assert(list@.take(list@.len() as int) =~= list@);
    copy
}

/// One canonical table of index lists: every list gets one index, in insertion order.
#[derive(Debug)]
pub struct Interner {
    /// Stored lists in insertion order.
    keys: Vec<Vec<u32>>,
    /// Index of every stored list.
    index: IndexTable,
}

/// Result of one interning attempt.
#[derive(Debug, Clone, Copy, PartialEq, Eq, Structural)]
pub struct Interned {
    /// Index of the canonical stored list.
    pub id: u32,
    /// Whether the list was inserted during this call.
    pub is_new: bool,
}

impl Interner {
    /// The stored lists in insertion order.
    pub closed spec fn lists(&self) -> Seq<Seq<u32>> {
        self.keys@.map_values(|k: Vec<u32>| k@)
    }

    /// Every stored list is indexed once, under its position.
    pub closed spec fn wf(&self) -> bool {
        &&& self.keys.len() <= u32::MAX
        &&& table_entries(self.index).dom() == Set::new(|k: Seq<u32>| self.lists().contains(k))
        &&& forall|i: int|
            0 <= i < self.lists().len() ==> table_entries(self.index)[#[trigger] self.lists()[i]] == i
    }

    /// No list is stored twice.
    pub proof fn lemma_distinct(&self, i: int, j: int)
        requires
            self.wf(),
            0 <= i < self.lists().len(),
            0 <= j < self.lists().len(),
            self.lists()[i] == self.lists()[j],
        ensures
            i == j,
            self.lists().len() <= u32::MAX,
    {
    }

    /// The number of stored lists fits a handle.
    pub proof fn lemma_len(&self)
        requires
            self.wf(),
        ensures
            self.lists().len() <= u32::MAX,
    {
    }

    /// Creates an empty table.
    pub fn new() -> (interner: Self)
        ensures
            interner.wf(),
            interner.lists() == Seq::<Seq<u32>>::empty(),
    {
        let interner = Self { keys: Vec::new(), index: table_new() };
        proof {
            assert(interner.lists() =~= Seq::<Seq<u32>>::empty());
            assert(table_entries(interner.index).dom() =~= Set::new(
                |k: Seq<u32>| interner.lists().contains(k),
            ));
        }
        interner
    }

    /// Finds the index of one stored list.
    pub fn find(&self, key: &Vec<u32>) -> (found: Option<u32>)
        requires
            self.wf(),
        ensures
            found matches Some(id) ==> id < self.lists().len() && self.lists()[id as int] == key@,
            found is None ==> !self.lists().contains(key@),
    {
        let found = table_get(&self.index, key);
        proof {
            if found is Some {
                assert(self.lists().contains(key@));
                let i = choose|i: int| 0 <= i < self.lists().len() && self.lists()[i] == key@;
                assert(table_entries(self.index)[self.lists()[i]] == i);
            } else {
                assert(!table_entries(self.index).dom().contains(key@));
            }
        }
        found
    }

    /// Returns the index of one list, storing the list when it is not stored yet.
    pub fn intern(&mut self, key: Vec<u32>) -> (interned: Interned)
        requires
            old(self).wf(),
            old(self).lists().len() < u32::MAX,
        ensures
            final(self).wf(),
            interned.is_new == !old(self).lists().contains(key@),
            interned.id < final(self).lists().len(),
            final(self).lists()[interned.id as int] == key@,
            final(self).lists() == if interned.is_new {
                old(self).lists().push(key@)
            } else {
                old(self).lists()
            },
            interned.is_new ==> interned.id == old(self).lists().len(),
    {
        if let Some(id) = self.find(&key) {
            return Interned { id, is_new: false };
        }
        let id = self.keys.len() as u32;
        let ghost before = self.lists();
        let ghost entries = table_entries(self.index);
        let copy = copy_indices(&key);
        self.keys.push(copy);
        table_insert(&mut self.index, key, id);
        proof {
            let after = self.lists();
            assert(after =~= before.push(key@));
            assert forall|k: Seq<u32>| after.contains(k) <==> before.contains(k) || k == key@ by {
                if before.contains(k) {
                    let i = choose|i: int| 0 <= i < before.len() && before[i] == k;
                    assert(after[i] == k);
                }
                if after.contains(k) {
                    let i = choose|i: int| 0 <= i < after.len() && after[i] == k;
                    if i < before.len() {
                        assert(before[i] == k);
                    }
                }
                assert(after[before.len() as int] == key@);
            }
            assert(table_entries(self.index).dom() =~= Set::new(
                |k: Seq<u32>| self.lists().contains(k),
            ));
            assert forall|i: int| 0 <= i < after.len() implies table_entries(self.index)[
                #[trigger] after[i]
            ] == i by {
                if i < before.len() {
                    assert(after[i] == before[i]);
                    assert(before.contains(before[i]));
                }
            }
        }
        Interned { id, is_new: true }
    }

    /// Returns one stored list.
    pub fn get(&self, index: usize) -> (key: &Vec<u32>)
        requires
            index < self.lists().len(),
        ensures
            key@ == self.lists()[index as int],
    {
        &self.keys[index]
    }

    /// Returns the number of stored lists.
    pub fn len(&self) -> (n: usize)
        ensures
            n == self.lists().len(),
    {
        self.keys.len()
    }
}

} // verus!
