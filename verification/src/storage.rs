//! Per-type component storage: a map from entities to molecules, kept as a
//! vector of entries sorted strictly by entity.
use vstd::prelude::*;

verus! {

/// A unique identifier for an entity of a [`crate::compound::Compound`].
pub type Entity = u64;

/// A single component value ("molecule") owned by a storage.
pub struct MoleculeCell<T> {
    data: T,
}

impl<T> MoleculeCell<T> {
    /// The component value held by the cell.
    pub closed spec fn value(&self) -> T {
        self.data
    }

    /// Wraps a component value.
    pub fn new(data: T) -> (cell: Self)
        ensures
            cell.value() == data,
    {
        MoleculeCell { data }
    }

    /// Shared access to the component value.
    pub fn read(&self) -> (data: &T)
        ensures
            *data == self.value(),
    {
        &self.data
    }

    /// Exclusive access to the component value; what is written through the
    /// returned reference is the cell's new value.
    pub fn write(&mut self) -> (data: &mut T)
        ensures
            *data == old(self).value(),
            final(self).value() == *final(data),
    {
        &mut self.data
    }
}

/// Storage for all components of one type, indexed by entity.
///
/// The entries are sorted strictly by entity, so each entity has at most one
/// component of the stored type, and iteration visits entities in ascending
/// order.
pub struct MoleculeStorage<T> {
    compounds: Vec<(Entity, MoleculeCell<T>)>,
}

/// The set of the first `i` entities of `entities`.
pub open spec fn prefix_set(entities: Seq<Entity>, i: int) -> Set<Entity> {
    entities.subrange(0, i).to_set()
}

/// The prefix grows by one entity at each step and starts empty.
pub proof fn lemma_prefix_set(entities: Seq<Entity>, i: int)
    requires
        0 <= i < entities.len(),
    ensures
        prefix_set(entities, 0) == Set::<Entity>::empty(),
        prefix_set(entities, i + 1) == prefix_set(entities, i).insert(entities[i]),
{
    assert(entities.subrange(0, 0) =~= Seq::<Entity>::empty());
    assert(prefix_set(entities, 0) =~= Set::<Entity>::empty());
    let a = entities.subrange(0, i);
    let b = entities.subrange(0, i + 1);
    assert(b =~= a.push(entities[i]));
    a.lemma_push_to_set_commute(entities[i]);
}

/// The whole sequence is its own longest prefix.
pub proof fn lemma_prefix_set_all(entities: Seq<Entity>)
    ensures
        forall|e: Entity| prefix_set(entities, entities.len() as int).contains(e) <==> entities.contains(e),
{
    assert(entities.subrange(0, entities.len() as int) =~= entities);
}

/// What a storage gives back after an insertion: the molecule just given
/// to `e`, and for every other entity the molecule it held before.
pub proof fn lemma_get_after_insert<T>(components: Map<Entity, T>, e: Entity, molecule: T, other: Entity)
    requires
        other != e,
    ensures
        components.insert(e, molecule).dom().contains(e),
        components.insert(e, molecule)[e] == molecule,
        components.insert(e, molecule).dom().contains(other) == components.dom().contains(other),
        components.dom().contains(other) ==> components.insert(e, molecule)[other] == components[other],
{
}

/// The entities of a sequence of entries.
pub open spec fn entry_entities<T>(c: Seq<(Entity, MoleculeCell<T>)>) -> Seq<Entity> {
    c.map_values(|p: (Entity, MoleculeCell<T>)| p.0)
}

/// The component values of a sequence of entries.
pub open spec fn entry_values<T>(c: Seq<(Entity, MoleculeCell<T>)>) -> Seq<T> {
    c.map_values(|p: (Entity, MoleculeCell<T>)| p.1.value())
}

/// The map from entities to values that a sequence of entries stands for.
pub open spec fn entry_map<T>(c: Seq<(Entity, MoleculeCell<T>)>) -> Map<Entity, T> {
    Map::new(
        |e: Entity| entry_entities(c).contains(e),
        |e: Entity| entry_values(c)[entry_entities(c).index_of(e)],
    )
}

/// The entries are sorted strictly by entity.
pub open spec fn entries_sorted<T>(c: Seq<(Entity, MoleculeCell<T>)>) -> bool {
    forall|i: int, j: int| 0 <= i < j < c.len() ==> c[i].0 < c[j].0
}

/// In sorted entries each entity occurs once, so the map sends the entity of
/// each position to the value at that position, and holds no other entity.
pub proof fn lemma_entries<T>(c: Seq<(Entity, MoleculeCell<T>)>)
    requires
        entries_sorted(c),
    ensures
        entry_entities(c).len() == c.len(),
        entry_values(c).len() == c.len(),
        forall|i: int, j: int|
            0 <= i < j < c.len() ==> entry_entities(c)[i] < entry_entities(c)[j],
        forall|i: int|
            0 <= i < c.len() ==> #[trigger] entry_map(c).dom().contains(entry_entities(c)[i])
                && entry_map(c)[entry_entities(c)[i]] == entry_values(c)[i],
        forall|e: Entity| #[trigger] entry_map(c).dom().contains(e) <==> entry_entities(c).contains(e),
{
    let s = entry_entities(c);
    assert forall|i: int| 0 <= i < c.len() implies #[trigger] entry_map(c).dom().contains(s[i])
        && entry_map(c)[s[i]] == entry_values(c)[i] by {
        let e = s[i];
        assert(s.contains(e));
        let k = s.index_of(e);
        if k != i {
            if k < i {
                assert(c[k].0 < c[i].0);
            } else {
                assert(c[i].0 < c[k].0);
            }
        }
    }
}

/// Replacing the value at one position keeps the entries sorted and updates
/// the map at that position's entity.
proof fn lemma_entries_update<T>(c: Seq<(Entity, MoleculeCell<T>)>, i: int, v: T)
    requires
        entries_sorted(c),
        0 <= i < c.len(),
    ensures
        entries_sorted(c.update(i, (c[i].0, MoleculeCell { data: v }))),
        entry_entities(c.update(i, (c[i].0, MoleculeCell { data: v }))) == entry_entities(c),
        entry_values(c.update(i, (c[i].0, MoleculeCell { data: v }))) == entry_values(c).update(i, v),
        entry_map(c.update(i, (c[i].0, MoleculeCell { data: v }))) == entry_map(c).insert(c[i].0, v),
{
    let d = c.update(i, (c[i].0, MoleculeCell { data: v }));
    assert(entry_entities(d) =~= entry_entities(c));
    assert(entry_values(d) =~= entry_values(c).update(i, v));
    assert(entries_sorted(d)) by {
        assert forall|a: int, b: int| 0 <= a < b < d.len() implies d[a].0 < d[b].0 by {
            assert(d[a].0 == c[a].0);
            assert(d[b].0 == c[b].0);
        }
    }
    lemma_entries(c);
    lemma_entries(d);
    let key = c[i].0;
    assert(entry_entities(c)[i] == key);
    assert(entry_map(d).dom() =~= entry_map(c).insert(key, v).dom());
    assert forall|x: Entity| #[trigger] entry_map(d).dom().contains(x) implies entry_map(d)[x]
        == entry_map(c).insert(key, v)[x] by {
        let k = choose|k: int| 0 <= k < d.len() && entry_entities(d)[k] == x;
        assert(entry_map(d)[entry_entities(d)[k]] == entry_values(d)[k]);
        assert(entry_map(c)[entry_entities(c)[k]] == entry_values(c)[k]);
        if k != i {
            assert(x != key);
        }
    }
    assert(entry_map(d) =~= entry_map(c).insert(key, v));
}

impl<T> View for MoleculeStorage<T> {
    type V = Map<Entity, T>;

    /// The components of the storage, by entity.
    closed spec fn view(&self) -> Map<Entity, T> {
        entry_map(self.compounds@)
    }
}

impl<T> MoleculeStorage<T> {
    /// The entities that hold a component, in storage order.
    pub closed spec fn entities(&self) -> Seq<Entity> {
        entry_entities(self.compounds@)
    }

    /// The component values, in storage order.
    pub closed spec fn values(&self) -> Seq<T> {
        entry_values(self.compounds@)
    }

    /// The entries are sorted strictly by entity.
    pub closed spec fn wf(&self) -> bool {
        entries_sorted(self.compounds@)
    }

    /// The entities are strictly ascending, every entity of the sequence has a
    /// component in the map, and the map holds nothing else.
    pub proof fn lemma_wf(&self)
        requires
            self.wf(),
        ensures
            self.entities().len() == self.values().len(),
            forall|i: int, j: int|
                0 <= i < j < self.entities().len() ==> self.entities()[i] < self.entities()[j],
            forall|i: int|
                0 <= i < self.entities().len() ==> #[trigger] self@.dom().contains(self.entities()[i])
                    && self@[self.entities()[i]] == self.values()[i],
            forall|e: Entity| #[trigger] self@.dom().contains(e) <==> self.entities().contains(e),
    {
        lemma_entries(self.compounds@);
    }

    /// The entity at position `i` is not among the entities before it.
    pub proof fn lemma_prefix_fresh(&self, i: int)
        requires
            self.wf(),
            0 <= i < self.entities().len(),
        ensures
            !prefix_set(self.entities(), i).contains(self.entities()[i]),
    {
        self.lemma_wf();
        if prefix_set(self.entities(), i).contains(self.entities()[i]) {
            let k = choose|k: int| 0 <= k < i && self.entities().subrange(0, i)[k] == self.entities()[i];
            assert(self.entities()[k] < self.entities()[i]);
        }
    }

    /// Creates an empty storage.
    pub fn new() -> (storage: Self)
        ensures
            storage.wf(),
            storage@ == Map::<Entity, T>::empty(),
            storage.entities() == Seq::<Entity>::empty(),
    {
        let storage = MoleculeStorage { compounds: Vec::new() };
        assert(storage@ =~= Map::<Entity, T>::empty());
        assert(storage.entities() =~= Seq::<Entity>::empty());
        storage
    }

    /// The number of entities that hold a component.
    pub fn len(&self) -> (n: usize)
        ensures
            n == self.entities().len(),
    {
        self.compounds.len()
    }

    /// The entity stored at position `i`.
    pub fn entity_at(&self, i: usize) -> (e: Entity)
        requires
            i < self.entities().len(),
        ensures
            e == self.entities()[i as int],
    {
        self.compounds[i].0
    }

    /// The component stored at position `i`.
    pub fn read_at(&self, i: usize) -> (data: &T)
        requires
            i < self.entities().len(),
        ensures
            *data == self.values()[i as int],
    {
        self.compounds[i].1.read()
    }

    /// Exclusive access to the component stored at position `i`; the entity
    /// order is left as it is.
    pub fn write_at(&mut self, i: usize) -> (data: &mut T)
        requires
            old(self).wf(),
            i < old(self).entities().len(),
        ensures
            *data == old(self).values()[i as int],
            final(self).wf(),
            final(self).entities() == old(self).entities(),
            final(self).values() == old(self).values().update(i as int, *final(data)),
            final(self)@ == old(self)@.insert(old(self).entities()[i as int], *final(data)),
    {
        let ghost before = self.compounds@;
        proof {
            lemma_entries(before);
            assert forall|v: T|
                #![trigger before.update(i as int, (before[i as int].0, MoleculeCell { data: v }))]
                entries_sorted(before.update(i as int, (before[i as int].0, MoleculeCell { data: v })))
                && entry_entities(before.update(i as int, (before[i as int].0, MoleculeCell { data: v })))
                    == entry_entities(before)
                && entry_values(before.update(i as int, (before[i as int].0, MoleculeCell { data: v })))
                    == entry_values(before).update(i as int, v)
                && entry_map(before.update(i as int, (before[i as int].0, MoleculeCell { data: v })))
                    == entry_map(before).insert(before[i as int].0, v) by {
                lemma_entries_update(before, i as int, v);
            }
        }
        let entry = &mut self.compounds[i];
        let data = entry.1.write();
        data
    }

    /// The position of the first entry whose entity is not below `e`.
    fn lower_bound(&self, e: Entity) -> (pos: usize)
        requires
            self.wf(),
        ensures
            pos <= self.entities().len(),
            forall|k: int| 0 <= k < pos ==> self.entities()[k] < e,
            forall|k: int| pos <= k < self.entities().len() ==> self.entities()[k] >= e,
    {
        proof {
            self.lemma_wf();
        }
        let mut lo: usize = 0;
        let mut hi: usize = self.compounds.len();
        while lo < hi
            invariant
                self.wf(),
                0 <= lo <= hi <= self.entities().len(),
                self.entities().len() == self.compounds.len(),
                forall|k: int| 0 <= k < lo ==> self.entities()[k] < e,
                forall|k: int| hi <= k < self.entities().len() ==> self.entities()[k] >= e,
                forall|i: int, j: int|
                    0 <= i < j < self.entities().len() ==> self.entities()[i] < self.entities()[j],
            decreases hi - lo,
        {
            let mid = lo + (hi - lo) / 2;
            if self.compounds[mid].0 < e {
                lo = mid + 1;
            } else {
                hi = mid;
            }
        }
        lo
    }

    /// The position of the component of entity `e`, if it has one.
    pub fn find(&self, e: Entity) -> (pos: Option<usize>)
        requires
            self.wf(),
        ensures
            match pos {
                Some(i) => i < self.entities().len() && self.entities()[i as int] == e,
                None => !self@.dom().contains(e),
            },
            pos is Some <==> self@.dom().contains(e),
    {
        proof {
            self.lemma_wf();
        }
        let i = self.lower_bound(e);
        if i < self.compounds.len() && self.compounds[i].0 == e {
            proof {
                assert(self@.dom().contains(self.entities()[i as int]));
            }
            Some(i)
        } else {
            proof {
                if self.entities().contains(e) {
                    let k = choose|k: int| 0 <= k < self.entities().len() && self.entities()[k] == e;
                    if k < i {
                    } else if k == i {
                    } else {
                        assert(self.entities()[i as int] < self.entities()[k]);
                    }
                }
            }
            None
        }
    }

    /// The component of entity `e`, if it has one.
    pub fn get(&self, e: Entity) -> (data: Option<&T>)
        requires
            self.wf(),
        ensures
            match data {
                Some(d) => self@.dom().contains(e) && *d == self@[e],
                None => !self@.dom().contains(e),
            },
    {
        proof {
            self.lemma_wf();
        }
        match self.find(e) {
            Some(i) => Some(self.read_at(i)),
            None => None,
        }
    }

    /// Gives entity `e` the component `molecule`, replacing the one it held.
    pub fn insert(&mut self, e: Entity, molecule: T)
        requires
            old(self).wf(),
        ensures
            final(self).wf(),
            final(self)@ == old(self)@.insert(e, molecule),
    {
        proof {
            self.lemma_wf();
        }
        let pos = self.lower_bound(e);
        let ghost before = *self;
        if pos < self.compounds.len() && self.compounds[pos].0 == e {
            self.compounds[pos] = (e, MoleculeCell::new(molecule));
            proof {
                assert(self.entities() =~= before.entities());
                assert(self.values() =~= before.values().update(pos as int, molecule));
                self.lemma_wf();
                before.lemma_wf();
                assert(before.entities()[pos as int] == e);
                assert(before@.dom().contains(before.entities()[pos as int]));
                assert(self@.dom() =~= before@.insert(e, molecule).dom());
                assert(self@ =~= before@.insert(e, molecule)) by {
                    assert forall|x: Entity| #[trigger] self@.dom().contains(x) implies self@[x]
                        == before@.insert(e, molecule)[x] by {
                        let k = choose|k: int| 0 <= k < self.entities().len() && self.entities()[k] == x;
                        assert(self@[self.entities()[k]] == self.values()[k]);
                        assert(before@[before.entities()[k]] == before.values()[k]);
                    }
                }
            }
        } else {
            self.compounds.insert(pos, (e, MoleculeCell::new(molecule)));
            proof {
                let n = before.entities().len();
                assert(self.entities() =~= before.entities().insert(pos as int, e));
                assert(self.values() =~= before.values().insert(pos as int, molecule));
                before.lemma_wf();
                assert(pos < n ==> before.entities()[pos as int] > e);
                assert(self.wf()) by {
                    assert forall|i: int, j: int| 0 <= i < j < self.compounds.len() implies self.compounds@[i].0
                        < self.compounds@[j].0 by {
                        assert(self.compounds@[i].0 == self.entities()[i]);
                        assert(self.compounds@[j].0 == self.entities()[j]);
                        if j < pos {
                            assert(self.entities()[i] == before.entities()[i]);
                            assert(self.entities()[j] == before.entities()[j]);
                        } else if j == pos {
                            assert(self.entities()[i] == before.entities()[i]);
                        } else if i < pos {
                            assert(self.entities()[i] == before.entities()[i]);
                            assert(self.entities()[j] == before.entities()[j - 1]);
                        } else if i == pos {
                            assert(self.entities()[j] == before.entities()[j - 1]);
                            if j - 1 > pos {
                                assert(before.entities()[pos as int] < before.entities()[j - 1]);
                            }
                        } else {
                            assert(self.entities()[i] == before.entities()[i - 1]);
                            assert(self.entities()[j] == before.entities()[j - 1]);
                        }
                    }
                }
                self.lemma_wf();
                assert(self@ =~= before@.insert(e, molecule)) by {
                    assert forall|x: Entity| self@.dom().contains(x) <==> before@.insert(e, molecule).dom().contains(x) by {
                        if self.entities().contains(x) {
                            let k = choose|k: int| 0 <= k < self.entities().len() && self.entities()[k] == x;
                            if k < pos {
                                assert(before.entities()[k] == x);
                            } else if k > pos {
                                assert(before.entities()[k - 1] == x);
                            }
                        }
                        if before.entities().contains(x) {
                            let k = choose|k: int| 0 <= k < n && before.entities()[k] == x;
                            if k < pos {
                                assert(self.entities()[k] == x);
                            } else {
                                assert(self.entities()[k + 1] == x);
                            }
                        }
                        if x == e {
                            assert(self.entities()[pos as int] == e);
                        }
                    }
                    assert forall|x: Entity| #[trigger] self@.dom().contains(x) implies self@[x]
                        == before@.insert(e, molecule)[x] by {
                        let k = choose|k: int| 0 <= k < self.entities().len() && self.entities()[k] == x;
                        assert(self@[self.entities()[k]] == self.values()[k]);
                        if k < pos {
                            assert(before@[before.entities()[k]] == before.values()[k]);
                        } else if k > pos {
                            assert(before@[before.entities()[k - 1]] == before.values()[k - 1]);
                        }
                    }
                }
            }
        }
    }
}

} // verus!
