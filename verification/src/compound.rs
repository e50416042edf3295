//! The entity component system: entity creation, change detection and the
//! queries that visit every entity holding a given set of molecules.
//!
//! Each molecule type lives in a [`MoleculeStorage`] of its own; a query is
//! handed the storages it reads or writes. The compound itself owns the entity
//! counter and the change-detection flags of the spawned entities.
use vstd::prelude::*;
use crate::storage::{Entity, MoleculeStorage, prefix_set, lemma_prefix_set, lemma_prefix_set_all};

verus! {

/// The change-detection flag of a spawned entity.
struct Modified(bool);

impl Default for Modified {
    /// A freshly spawned entity counts as modified.
    fn default() -> (m: Self)
        ensures
            m.flag(),
    {
        Modified(true)
    }
}

impl Modified {
    /// The value of the flag.
    pub closed spec fn flag(&self) -> bool {
        self.0
    }

    /// Whether the entity changed since the last change-detecting query.
    fn is_modified(&self) -> (b: bool)
        ensures
            b == self.0,
    {
        self.0
    }

    /// Marks the entity as modified.
    fn set_modified(&mut self)
        ensures
            final(self).0,
    {
        self.0 = true;
    }

    /// Marks the entity as seen by a change-detecting query.
    fn clear_modified(&mut self)
        ensures
            !final(self).0,
    {
        self.0 = false;
    }
}

/// Whether `e` has a change-detection flag and it is set.
pub open spec fn flagged(flags: Map<Entity, bool>, e: Entity) -> bool {
    flags.dom().contains(e) && flags[e]
}

/// The flags `flags` with the flag of every entity of `selection` that has
/// one set to `value`.
pub open spec fn with_flags(flags: Map<Entity, bool>, selection: Set<Entity>, value: bool) -> Map<
    Entity,
    bool,
> {
    Map::new(
        |e: Entity| flags.dom().contains(e),
        |e: Entity|
            if selection.contains(e) {
                value
            } else {
                flags[e]
            },
    )
}

/// Setting the flags of one more entity.
proof fn lemma_with_flags_step(flags: Map<Entity, bool>, selection: Set<Entity>, value: bool, e: Entity)
    ensures
        with_flags(flags, selection.insert(e), value) == (if flags.dom().contains(e) {
            with_flags(flags, selection, value).insert(e, value)
        } else {
            with_flags(flags, selection, value)
        }),
{
    let lhs = with_flags(flags, selection.insert(e), value);
    let rhs = if flags.dom().contains(e) {
        with_flags(flags, selection, value).insert(e, value)
    } else {
        with_flags(flags, selection, value)
    };
    assert(lhs.dom() =~= rhs.dom());
    assert(lhs =~= rhs);
}

/// Visiting the entity at position `i` adds it to the visited part of the
/// selection exactly when it is selected.
proof fn lemma_selection_step(selection: Set<Entity>, keys: Seq<Entity>, i: int)
    requires
        0 <= i < keys.len(),
    ensures
        selection.intersect(prefix_set(keys, i + 1)) == (if selection.contains(keys[i]) {
            selection.intersect(prefix_set(keys, i)).insert(keys[i])
        } else {
            selection.intersect(prefix_set(keys, i))
        }),
{
    lemma_prefix_set(keys, i);
    if selection.contains(keys[i]) {
        assert(selection.intersect(prefix_set(keys, i + 1)) =~= selection.intersect(prefix_set(keys, i)).insert(keys[i]));
    } else {
        assert(selection.intersect(prefix_set(keys, i + 1)) =~= selection.intersect(prefix_set(keys, i)));
    }
}

/// Once every position was visited, the visited part of a selection drawn
/// from the keys is the whole selection.
proof fn lemma_selection_all(selection: Set<Entity>, keys: Seq<Entity>)
    requires
        forall|e: Entity| #[trigger] selection.contains(e) ==> keys.contains(e),
    ensures
        selection.intersect(prefix_set(keys, keys.len() as int)) == selection,
{
    lemma_prefix_set_all(keys);
    assert(selection.intersect(prefix_set(keys, keys.len() as int)) =~= selection);
}

/// The identifier handed out after `n`: the counter moves on by one and
/// wraps around after `u64::MAX`.
pub open spec fn next_id(n: u64) -> u64 {
    if n == u64::MAX {
        0
    } else {
        (n + 1) as u64
    }
}

/// The counter value after `k` entities were created from counter value
/// `start`.
pub open spec fn entity_after(start: u64, k: nat) -> u64
    decreases k,
{
    if k == 0 {
        start
    } else {
        next_id(entity_after(start, (k - 1) as nat))
    }
}

/// Entities are numbered in creation order: after `k` calls of
/// [`Compound::create_entity`] or [`Compound::spawn`] on a compound whose
/// counter stood at `start`, the counter stands at `start + k` modulo 2^64.
pub proof fn lemma_entity_after(start: u64, k: nat)
    ensures
        entity_after(start, k) as int == (start as int + k) % 0x1_0000_0000_0000_0000,
    decreases k,
{
    if k > 0 {
        lemma_entity_after(start, (k - 1) as nat);
        let m: int = 0x1_0000_0000_0000_0000;
        let p = entity_after(start, (k - 1) as nat) as int;
        assert(p == (start as int + k - 1) % m);
        assert((start as int + k) % m == (p + 1) % m) by {
            vstd::arithmetic::div_mod::lemma_add_mod_noop(start as int + k - 1, 1, m);
            vstd::arithmetic::div_mod::lemma_small_mod(1, m as nat);
        }
        if p == u64::MAX as int {
            assert((p + 1) % m == 0) by {
                vstd::arithmetic::div_mod::lemma_mod_self_0(m);
            }
        } else {
            assert((p + 1) % m == p + 1) by {
                vstd::arithmetic::div_mod::lemma_small_mod((p + 1) as nat, m as nat);
            }
        }
    }
}

/// A new compound hands out 0, 1, 2, ... in turn: the entity of its `k`-th
/// creation (counting from 0) is `k`.
pub proof fn lemma_new_compound_ids(k: nat)
    requires
        k <= u64::MAX,
    ensures
        entity_after(0, k) == k,
{
    lemma_entity_after(0, k);
    vstd::arithmetic::div_mod::lemma_small_mod(k, 0x1_0000_0000_0000_0000);
}

/// Entity identifiers are unique: among up to 2^64 successive creations on
/// one compound, no two hand out the same entity.
pub proof fn lemma_created_entities_distinct(start: u64, i: nat, j: nat)
    requires
        i < j,
        j <= u64::MAX,
    ensures
        entity_after(start, i) != entity_after(start, j),
{
    let m: int = 0x1_0000_0000_0000_0000;
    lemma_entity_after(start, i);
    lemma_entity_after(start, j);
    let a = start as int + i;
    let b = start as int + j;
    if a % m == b % m {
        vstd::arithmetic::div_mod::lemma_fundamental_div_mod(a, m);
        vstd::arithmetic::div_mod::lemma_fundamental_div_mod(b, m);
        let qa = a / m;
        let qb = b / m;
        assert(b - a == m * (qb - qa)) by (nonlinear_arith)
            requires
                a == m * qa + a % m,
                b == m * qb + b % m,
                a % m == b % m,
        ;
        assert(0 < b - a < m);
        assert(false) by (nonlinear_arith)
            requires
                b - a == m * (qb - qa),
                0 < b - a < m,
                m > 0,
        ;
    }
}

/// A change-detecting query consumes the change marks of what it selects: a
/// second one over the same selection visits nothing until a writing query
/// or a spawn marks an entity again.
pub proof fn lemma_mod_query_consumes(flags: Map<Entity, bool>, selection: Set<Entity>)
    ensures
        forall|e: Entity| selection.contains(e) ==> !flagged(#[trigger] with_flags(flags, selection, false), e),
        with_flags(with_flags(flags, selection, false), selection, false) == with_flags(flags, selection, false),
{
    assert(with_flags(with_flags(flags, selection, false), selection, false) =~= with_flags(flags, selection, false));
}

/// A writing query marks every selected spawned entity as modified, so the
/// next change-detecting query over the same selection visits each of them.
pub proof fn lemma_mut_query_marks(flags: Map<Entity, bool>, selection: Set<Entity>)
    ensures
        forall|e: Entity|
            selection.contains(e) && flags.dom().contains(e) ==> flagged(#[trigger] with_flags(flags, selection, true), e),
        with_flags(flags, selection, true).dom() == flags.dom(),
{
    assert(with_flags(flags, selection, true).dom() =~= flags.dom());
}

/// The main ECS world: it hands out entity identifiers and keeps the
/// change-detection flag of every spawned entity.
pub struct Compound {
    /// The identifier the next created entity receives.
    num_entities: u64,
    /// The change-detection flags, by entity.
    modified: MoleculeStorage<Modified>,
}

impl Default for Compound {
    /// An empty compound, as [`Compound::new`] makes.
    fn default() -> (compound: Self)
        ensures
            compound.wf(),
            compound.next_entity() == 0,
            compound.flags() == Map::<Entity, bool>::empty(),
    {
        Compound::new()
    }
}

impl Compound {
    /// The identifier the next created entity receives.
    pub closed spec fn next_entity(&self) -> u64 {
        self.num_entities
    }

    /// The change-detection flags of the spawned entities.
    pub closed spec fn flags(&self) -> Map<Entity, bool> {
        self.modified@.map_values(|m: Modified| m.0)
    }

    /// The internal invariant of the compound.
    pub closed spec fn wf(&self) -> bool {
        self.modified.wf()
    }

    /// Creates an empty compound.
    pub fn new() -> (compound: Self)
        ensures
            compound.wf(),
            compound.next_entity() == 0,
            compound.flags() == Map::<Entity, bool>::empty(),
    {
        let compound = Compound { num_entities: 0, modified: MoleculeStorage::new() };
        assert(compound.flags() =~= Map::<Entity, bool>::empty());
        compound
    }

    /// Hands out a new entity identifier: the counter's value, which then
    /// moves on by one (wrapping around after `u64::MAX`).
    pub fn create_entity(&mut self) -> (entity: Entity)
        ensures
            entity == old(self).next_entity(),
            final(self).next_entity() == next_id(old(self).next_entity()),
            final(self).flags() == old(self).flags(),
            final(self).wf() == old(self).wf(),
    {
        let entity_id = self.num_entities;
        self.num_entities = self.num_entities.wrapping_add(1);
        entity_id
    }

    /// Gives `entity` the molecule `molecule` in `storage`, replacing the one
    /// of that type it held.
    pub fn add_molecule<T>(&self, storage: &mut MoleculeStorage<T>, entity: Entity, molecule: T)
        requires
            old(storage).wf(),
        ensures
            final(storage).wf(),
            final(storage)@ == old(storage)@.insert(entity, molecule),
    {
        storage.insert(entity, molecule);
    }

    /// Creates an entity that counts as modified; its molecules are then added
    /// with [`Compound::add_molecule`].
    pub fn spawn(&mut self) -> (entity: Entity)
        requires
            old(self).wf(),
        ensures
            final(self).wf(),
            entity == old(self).next_entity(),
            final(self).next_entity() == next_id(old(self).next_entity()),
            final(self).flags() == old(self).flags().insert(entity, true),
    {
        let entity = self.create_entity();
        self.modified.insert(entity, Modified::default());
        proof {
            assert(self.flags() =~= old(self).flags().insert(entity, true));
        }
        entity
    }

    /// Whether entity `e` has a set change-detection flag.
    fn is_flagged(&self, e: Entity) -> (b: bool)
        requires
            self.wf(),
        ensures
            b == flagged(self.flags(), e),
    {
        proof {
            self.modified.lemma_wf();
        }
        match self.modified.get(e) {
            Some(m) => m.is_modified(),
            None => false,
        }
    }

    /// Sets the change-detection flag of `e` to `value`, if `e` has one.
    fn mark(&mut self, e: Entity, value: bool)
        requires
            old(self).wf(),
        ensures
            final(self).wf(),
            final(self).next_entity() == old(self).next_entity(),
            final(self).flags() == (if old(self).flags().dom().contains(e) {
                old(self).flags().insert(e, value)
            } else {
                old(self).flags()
            }),
    {
        proof {
            self.modified.lemma_wf();
        }
        let ghost before = self.modified;
        match self.modified.find(e) {
            Some(j) => {
                let m = self.modified.write_at(j);
                if value {
                    m.set_modified();
                } else {
                    m.clear_modified();
                }
                proof {
                    self.modified.lemma_wf();
                    let after = self.modified;
                    assert(after.values() == before.values().update(j as int, Modified(value)));
                    assert(self.flags() =~= old(self).flags().insert(e, value)) by {
                        assert(after@.dom() =~= before@.dom());
                        assert forall|x: Entity| #[trigger] after@.dom().contains(x) implies after@[x].0
                            == before@.insert(e, Modified(value))[x].0 by {
                            let k = choose|k: int|
                                0 <= k < after.entities().len() && after.entities()[k] == x;
                            assert(after@[after.entities()[k]] == after.values()[k]);
                            assert(before@[before.entities()[k]] == before.values()[k]);
                        }
                    }
                }
            },
            None => {},
        }
    }

    // Queries over one, two or three molecule types ===================

    /// Visits every entity holding a `T` molecule, handing `f` the entity and its molecule.
    pub fn iter_mol<T, F>(&self, storage: &MoleculeStorage<T>, mut f: F)
        where
            F: FnMut(Entity, &T),
        requires
            storage.wf(),
            forall|e: Entity|
                #![trigger storage@.dom().contains(e)]
                storage@.dom().contains(e) ==> call_requires(f, (e, &storage@[e])),
        ensures
            forall|e: Entity|
                #![trigger storage@.dom().contains(e)]
                storage@.dom().contains(e) ==> call_ensures(f, (e, &storage@[e]), ()),
    {
        let ghost f0 = f;
        let mut i: usize = 0;
        while i < storage.len()
            invariant
                f == f0,
                storage.wf(),
                i <= storage.entities().len(),
                forall|e: Entity|
                    #![trigger storage@.dom().contains(e)]
                    storage@.dom().contains(e) ==> call_requires(f, (e, &storage@[e])),
                forall|e: Entity|
                    #![trigger prefix_set(storage.entities(), i as int).contains(e)]
                    storage@.dom().contains(e) && prefix_set(storage.entities(), i as int).contains(e) ==> call_ensures(f, (e, &storage@[e]), ()),
            decreases storage.entities().len() - i,
        {
            let e = storage.entity_at(i);
            proof {
                lemma_prefix_set(storage.entities(), i as int);
                storage.lemma_prefix_fresh(i as int);
                lemma_selection_step(storage@.dom(), storage.entities(), i as int);
                storage.lemma_wf();
                assert(storage@.dom().contains(storage.entities()[i as int]));
            }
            f(e, storage.read_at(i));
            i = i + 1;
        }
        proof {
            storage.lemma_wf();
            lemma_selection_all(storage@.dom(), storage.entities());
        }
    }

    /// Visits every modified entity holding a `T` molecule, then marks it as seen.
    pub fn iter_mol_mod<T, F>(&mut self, storage: &MoleculeStorage<T>, mut f: F)
        where
            F: FnMut(Entity, &T),
        requires
            old(self).wf(),
            storage.wf(),
            forall|e: Entity|
                #![trigger storage@.dom().contains(e)]
                storage@.dom().contains(e) && flagged(old(self).flags(), e) ==> call_requires(f, (e, &storage@[e])),
        ensures
            forall|e: Entity|
                #![trigger storage@.dom().contains(e)]
                storage@.dom().contains(e) && flagged(old(self).flags(), e) ==> call_ensures(f, (e, &storage@[e]), ()),
            final(self).wf(),
            final(self).next_entity() == old(self).next_entity(),
            final(self).flags() == with_flags(old(self).flags(), storage@.dom(), false),
    {
        let ghost f0 = f;
        let mut i: usize = 0;
        while i < storage.len()
            invariant
                f == f0,
                storage.wf(),
                self.wf(),
                self.next_entity() == old(self).next_entity(),
                i <= storage.entities().len(),
                forall|e: Entity|
                    #![trigger storage@.dom().contains(e)]
                    storage@.dom().contains(e) && flagged(old(self).flags(), e) ==> call_requires(f, (e, &storage@[e])),
                forall|e: Entity|
                    #![trigger prefix_set(storage.entities(), i as int).contains(e)]
                    storage@.dom().contains(e) && prefix_set(storage.entities(), i as int).contains(e) && flagged(old(self).flags(), e) ==> call_ensures(f, (e, &storage@[e]), ()),
                self.flags() == with_flags(old(self).flags(), storage@.dom().intersect(prefix_set(storage.entities(), i as int)), false),
            decreases storage.entities().len() - i,
        {
            let e = storage.entity_at(i);
            proof {
                lemma_prefix_set(storage.entities(), i as int);
                storage.lemma_prefix_fresh(i as int);
                lemma_selection_step(storage@.dom(), storage.entities(), i as int);
                storage.lemma_wf();
                lemma_with_flags_step(old(self).flags(), storage@.dom().intersect(prefix_set(storage.entities(), i as int)), false, e);
                assert(storage@.dom().contains(storage.entities()[i as int]));
            }
            if self.is_flagged(e) {
                f(e, storage.read_at(i));
                self.mark(e, false);
            }
            i = i + 1;
        }
        proof {
            storage.lemma_wf();
            lemma_selection_all(storage@.dom(), storage.entities());
        }
    }

    /// Visits every entity holding a `T` molecule but no `W` molecule.
    pub fn iter_without_mol<W, T, F>(&self, without: &MoleculeStorage<W>, storage: &MoleculeStorage<T>, mut f: F)
        where
            F: FnMut(Entity, &T),
        requires
            without.wf(),
            storage.wf(),
            forall|e: Entity|
                #![trigger storage@.dom().difference(without@.dom()).contains(e)]
                storage@.dom().difference(without@.dom()).contains(e) ==> call_requires(f, (e, &storage@[e])),
        ensures
            forall|e: Entity|
                #![trigger storage@.dom().difference(without@.dom()).contains(e)]
                storage@.dom().difference(without@.dom()).contains(e) ==> call_ensures(f, (e, &storage@[e]), ()),
    {
        let ghost f0 = f;
        let mut i: usize = 0;
        while i < storage.len()
            invariant
                f == f0,
                without.wf(),
                storage.wf(),
                i <= storage.entities().len(),
                forall|e: Entity|
                    #![trigger storage@.dom().difference(without@.dom()).contains(e)]
                    storage@.dom().difference(without@.dom()).contains(e) ==> call_requires(f, (e, &storage@[e])),
                forall|e: Entity|
                    #![trigger prefix_set(storage.entities(), i as int).contains(e)]
                    storage@.dom().difference(without@.dom()).contains(e) && prefix_set(storage.entities(), i as int).contains(e) ==> call_ensures(f, (e, &storage@[e]), ()),
            decreases storage.entities().len() - i,
        {
            let e = storage.entity_at(i);
            proof {
                lemma_prefix_set(storage.entities(), i as int);
                storage.lemma_prefix_fresh(i as int);
                lemma_selection_step(storage@.dom().difference(without@.dom()), storage.entities(), i as int);
                storage.lemma_wf();
                assert(storage@.dom().contains(storage.entities()[i as int]));
            }
            if without.find(e).is_none() {
                f(e, storage.read_at(i));
            }
            i = i + 1;
        }
        proof {
            storage.lemma_wf();
            lemma_selection_all(storage@.dom().difference(without@.dom()), storage.entities());
        }
    }

    /// Visits every modified entity holding a `T` molecule but no `W` molecule, then marks it as seen.
    pub fn iter_without_mol_mod<W, T, F>(&mut self, without: &MoleculeStorage<W>, storage: &MoleculeStorage<T>, mut f: F)
        where
            F: FnMut(Entity, &T),
        requires
            old(self).wf(),
            without.wf(),
            storage.wf(),
            forall|e: Entity|
                #![trigger storage@.dom().difference(without@.dom()).contains(e)]
                storage@.dom().difference(without@.dom()).contains(e) && flagged(old(self).flags(), e) ==> call_requires(f, (e, &storage@[e])),
        ensures
            forall|e: Entity|
                #![trigger storage@.dom().difference(without@.dom()).contains(e)]
                storage@.dom().difference(without@.dom()).contains(e) && flagged(old(self).flags(), e) ==> call_ensures(f, (e, &storage@[e]), ()),
            final(self).wf(),
            final(self).next_entity() == old(self).next_entity(),
            final(self).flags() == with_flags(old(self).flags(), storage@.dom().difference(without@.dom()), false),
    {
        let ghost f0 = f;
        let mut i: usize = 0;
        while i < storage.len()
            invariant
                f == f0,
                without.wf(),
                storage.wf(),
                self.wf(),
                self.next_entity() == old(self).next_entity(),
                i <= storage.entities().len(),
                forall|e: Entity|
                    #![trigger storage@.dom().difference(without@.dom()).contains(e)]
                    storage@.dom().difference(without@.dom()).contains(e) && flagged(old(self).flags(), e) ==> call_requires(f, (e, &storage@[e])),
                forall|e: Entity|
                    #![trigger prefix_set(storage.entities(), i as int).contains(e)]
                    storage@.dom().difference(without@.dom()).contains(e) && prefix_set(storage.entities(), i as int).contains(e) && flagged(old(self).flags(), e) ==> call_ensures(f, (e, &storage@[e]), ()),
                self.flags() == with_flags(old(self).flags(), storage@.dom().difference(without@.dom()).intersect(prefix_set(storage.entities(), i as int)), false),
            decreases storage.entities().len() - i,
        {
            let e = storage.entity_at(i);
            proof {
                lemma_prefix_set(storage.entities(), i as int);
                storage.lemma_prefix_fresh(i as int);
                lemma_selection_step(storage@.dom().difference(without@.dom()), storage.entities(), i as int);
                storage.lemma_wf();
                lemma_with_flags_step(old(self).flags(), storage@.dom().difference(without@.dom()).intersect(prefix_set(storage.entities(), i as int)), false, e);
                assert(storage@.dom().contains(storage.entities()[i as int]));
            }
            if without.find(e).is_none() {
                if self.is_flagged(e) {
                    f(e, storage.read_at(i));
                    self.mark(e, false);
                }
            }
            i = i + 1;
        }
        proof {
            storage.lemma_wf();
            lemma_selection_all(storage@.dom().difference(without@.dom()), storage.entities());
        }
    }

    /// Visits every entity holding a `T` molecule with write access to it, marking the entity as modified.
    pub fn iter_mut_mol<T, F>(&mut self, storage: &mut MoleculeStorage<T>, mut f: F)
        where
            F: FnMut(Entity, &mut T),
        requires
            old(self).wf(),
            old(storage).wf(),
            forall|e: Entity, a1: &mut T|
                old(storage)@.dom().contains(e) && *a1 == old(storage)@[e]
                    ==> call_requires(f, (e, a1)),
        ensures
            final(self).wf(),
            final(self).next_entity() == old(self).next_entity(),
            final(self).flags() == with_flags(old(self).flags(), old(storage)@.dom(), true),
            final(storage).wf(),
            final(storage)@.dom() == old(storage)@.dom(),
            forall|e: Entity|
                #![trigger old(storage)@.dom().contains(e)]
                old(storage)@.dom().contains(e) ==> exists|a1: &mut T|
                    *a1 == old(storage)@[e] && *final(a1) == final(storage)@[e]
                    && call_ensures(f, (e, a1), ()),
    {
        let ghost f0 = f;
        let mut i: usize = 0;
        while i < storage.len()
            invariant
                f == f0,
                storage.wf(),
                self.wf(),
                self.next_entity() == old(self).next_entity(),
                i <= storage.entities().len(),
                storage.entities() == old(storage).entities(),
                storage@.dom() == old(storage)@.dom(),
                forall|e: Entity, a1: &mut T|
                    old(storage)@.dom().contains(e) && *a1 == old(storage)@[e]
                        ==> call_requires(f, (e, a1)),
                self.flags() == with_flags(old(self).flags(), old(storage)@.dom().intersect(prefix_set(old(storage).entities(), i as int)), true),
                forall|e: Entity|
                    old(storage)@.dom().contains(e) && !(old(storage)@.dom().contains(e) && prefix_set(old(storage).entities(), i as int).contains(e)) ==> #[trigger] storage@[e] == old(storage)@[e],
                forall|e: Entity|
                    #![trigger prefix_set(old(storage).entities(), i as int).contains(e)]
                    old(storage)@.dom().contains(e) && prefix_set(old(storage).entities(), i as int).contains(e) ==> exists|a1: &mut T|
                        *a1 == old(storage)@[e] && *final(a1) == storage@[e]
                        && call_ensures(f, (e, a1), ()),
            decreases storage.entities().len() - i,
        {
            let e = storage.entity_at(i);
            proof {
                lemma_prefix_set(old(storage).entities(), i as int);
                storage.lemma_prefix_fresh(i as int);
                lemma_selection_step(old(storage)@.dom(), old(storage).entities(), i as int);
                storage.lemma_wf();
                lemma_with_flags_step(old(self).flags(), old(storage)@.dom().intersect(prefix_set(old(storage).entities(), i as int)), true, e);
                assert(storage@.dom().contains(storage.entities()[i as int]));
            }
            self.mark(e, true);
            f(e, storage.write_at(i));
            i = i + 1;
        }
        proof {
            storage.lemma_wf();
            lemma_selection_all(old(storage)@.dom(), old(storage).entities());
        }
    }

    /// Visits every modified entity holding a `T` molecule with write access to it, then marks it as seen.
    pub fn iter_mut_mol_mod<T, F>(&mut self, storage: &mut MoleculeStorage<T>, mut f: F)
        where
            F: FnMut(Entity, &mut T),
        requires
            old(self).wf(),
            old(storage).wf(),
            forall|e: Entity, a1: &mut T|
                old(storage)@.dom().contains(e) && flagged(old(self).flags(), e) && *a1 == old(storage)@[e]
                    ==> call_requires(f, (e, a1)),
        ensures
            final(self).wf(),
            final(self).next_entity() == old(self).next_entity(),
            final(self).flags() == with_flags(old(self).flags(), old(storage)@.dom(), false),
            final(storage).wf(),
            final(storage)@.dom() == old(storage)@.dom(),
            forall|e: Entity|
                old(storage)@.dom().contains(e) && !(old(storage)@.dom().contains(e) && flagged(old(self).flags(), e)) ==> #[trigger] final(storage)@[e] == old(storage)@[e],
            forall|e: Entity|
                #![trigger old(storage)@.dom().contains(e)]
                old(storage)@.dom().contains(e) && flagged(old(self).flags(), e) ==> exists|a1: &mut T|
                    *a1 == old(storage)@[e] && *final(a1) == final(storage)@[e]
                    && call_ensures(f, (e, a1), ()),
    {
        let ghost f0 = f;
        let mut i: usize = 0;
        while i < storage.len()
            invariant
                f == f0,
                storage.wf(),
                self.wf(),
                self.next_entity() == old(self).next_entity(),
                i <= storage.entities().len(),
                storage.entities() == old(storage).entities(),
                storage@.dom() == old(storage)@.dom(),
                forall|e: Entity, a1: &mut T|
                    old(storage)@.dom().contains(e) && flagged(old(self).flags(), e) && *a1 == old(storage)@[e]
                        ==> call_requires(f, (e, a1)),
                self.flags() == with_flags(old(self).flags(), old(storage)@.dom().intersect(prefix_set(old(storage).entities(), i as int)), false),
                forall|e: Entity|
                    old(storage)@.dom().contains(e) && !(old(storage)@.dom().contains(e) && prefix_set(old(storage).entities(), i as int).contains(e) && flagged(old(self).flags(), e)) ==> #[trigger] storage@[e] == old(storage)@[e],
                forall|e: Entity|
                    #![trigger prefix_set(old(storage).entities(), i as int).contains(e)]
                    old(storage)@.dom().contains(e) && prefix_set(old(storage).entities(), i as int).contains(e) && flagged(old(self).flags(), e) ==> exists|a1: &mut T|
                        *a1 == old(storage)@[e] && *final(a1) == storage@[e]
                        && call_ensures(f, (e, a1), ()),
            decreases storage.entities().len() - i,
        {
            let e = storage.entity_at(i);
            proof {
                lemma_prefix_set(old(storage).entities(), i as int);
                storage.lemma_prefix_fresh(i as int);
                lemma_selection_step(old(storage)@.dom(), old(storage).entities(), i as int);
                storage.lemma_wf();
                lemma_with_flags_step(old(self).flags(), old(storage)@.dom().intersect(prefix_set(old(storage).entities(), i as int)), false, e);
                assert(storage@.dom().contains(storage.entities()[i as int]));
            }
            if self.is_flagged(e) {
                f(e, storage.write_at(i));
                self.mark(e, false);
            }
            i = i + 1;
        }
        proof {
            storage.lemma_wf();
            lemma_selection_all(old(storage)@.dom(), old(storage).entities());
        }
    }

    /// Visits every entity holding a `T` molecule but no `W` molecule with write access, marking the entity as modified.
    pub fn iter_mut_without_mol<W, T, F>(&mut self, without: &MoleculeStorage<W>, storage: &mut MoleculeStorage<T>, mut f: F)
        where
            F: FnMut(Entity, &mut T),
        requires
            old(self).wf(),
            without.wf(),
            old(storage).wf(),
            forall|e: Entity, a1: &mut T|
                old(storage)@.dom().difference(without@.dom()).contains(e) && *a1 == old(storage)@[e]
                    ==> call_requires(f, (e, a1)),
        ensures
            final(self).wf(),
            final(self).next_entity() == old(self).next_entity(),
            final(self).flags() == with_flags(old(self).flags(), old(storage)@.dom().difference(without@.dom()), true),
            final(storage).wf(),
            final(storage)@.dom() == old(storage)@.dom(),
            forall|e: Entity|
                old(storage)@.dom().contains(e) && !(old(storage)@.dom().difference(without@.dom()).contains(e)) ==> #[trigger] final(storage)@[e] == old(storage)@[e],
            forall|e: Entity|
                #![trigger old(storage)@.dom().difference(without@.dom()).contains(e)]
                old(storage)@.dom().difference(without@.dom()).contains(e) ==> exists|a1: &mut T|
                    *a1 == old(storage)@[e] && *final(a1) == final(storage)@[e]
                    && call_ensures(f, (e, a1), ()),
    {
        let ghost f0 = f;
        let mut i: usize = 0;
        while i < storage.len()
            invariant
                f == f0,
                without.wf(),
                storage.wf(),
                self.wf(),
                self.next_entity() == old(self).next_entity(),
                i <= storage.entities().len(),
                storage.entities() == old(storage).entities(),
                storage@.dom() == old(storage)@.dom(),
                forall|e: Entity, a1: &mut T|
                    old(storage)@.dom().difference(without@.dom()).contains(e) && *a1 == old(storage)@[e]
                        ==> call_requires(f, (e, a1)),
                self.flags() == with_flags(old(self).flags(), old(storage)@.dom().difference(without@.dom()).intersect(prefix_set(old(storage).entities(), i as int)), true),
                forall|e: Entity|
                    old(storage)@.dom().contains(e) && !(old(storage)@.dom().difference(without@.dom()).contains(e) && prefix_set(old(storage).entities(), i as int).contains(e)) ==> #[trigger] storage@[e] == old(storage)@[e],
                forall|e: Entity|
                    #![trigger prefix_set(old(storage).entities(), i as int).contains(e)]
                    old(storage)@.dom().difference(without@.dom()).contains(e) && prefix_set(old(storage).entities(), i as int).contains(e) ==> exists|a1: &mut T|
                        *a1 == old(storage)@[e] && *final(a1) == storage@[e]
                        && call_ensures(f, (e, a1), ()),
            decreases storage.entities().len() - i,
        {
            let e = storage.entity_at(i);
            proof {
                lemma_prefix_set(old(storage).entities(), i as int);
                storage.lemma_prefix_fresh(i as int);
                lemma_selection_step(old(storage)@.dom().difference(without@.dom()), old(storage).entities(), i as int);
                storage.lemma_wf();
                lemma_with_flags_step(old(self).flags(), old(storage)@.dom().difference(without@.dom()).intersect(prefix_set(old(storage).entities(), i as int)), true, e);
                assert(storage@.dom().contains(storage.entities()[i as int]));
            }
            if without.find(e).is_none() {
                self.mark(e, true);
                f(e, storage.write_at(i));
            }
            i = i + 1;
        }
        proof {
            storage.lemma_wf();
            lemma_selection_all(old(storage)@.dom().difference(without@.dom()), old(storage).entities());
        }
    }

    /// Visits every modified entity holding a `T` molecule but no `W` molecule with write access, then marks it as seen.
    pub fn iter_mut_without_mol_mod<W, T, F>(&mut self, without: &MoleculeStorage<W>, storage: &mut MoleculeStorage<T>, mut f: F)
        where
            F: FnMut(Entity, &mut T),
        requires
            old(self).wf(),
            without.wf(),
            old(storage).wf(),
            forall|e: Entity, a1: &mut T|
                old(storage)@.dom().difference(without@.dom()).contains(e) && flagged(old(self).flags(), e) && *a1 == old(storage)@[e]
                    ==> call_requires(f, (e, a1)),
        ensures
            final(self).wf(),
            final(self).next_entity() == old(self).next_entity(),
            final(self).flags() == with_flags(old(self).flags(), old(storage)@.dom().difference(without@.dom()), false),
            final(storage).wf(),
            final(storage)@.dom() == old(storage)@.dom(),
            forall|e: Entity|
                old(storage)@.dom().contains(e) && !(old(storage)@.dom().difference(without@.dom()).contains(e) && flagged(old(self).flags(), e)) ==> #[trigger] final(storage)@[e] == old(storage)@[e],
            forall|e: Entity|
                #![trigger old(storage)@.dom().difference(without@.dom()).contains(e)]
                old(storage)@.dom().difference(without@.dom()).contains(e) && flagged(old(self).flags(), e) ==> exists|a1: &mut T|
                    *a1 == old(storage)@[e] && *final(a1) == final(storage)@[e]
                    && call_ensures(f, (e, a1), ()),
    {
        let ghost f0 = f;
        let mut i: usize = 0;
        while i < storage.len()
            invariant
                f == f0,
                without.wf(),
                storage.wf(),
                self.wf(),
                self.next_entity() == old(self).next_entity(),
                i <= storage.entities().len(),
                storage.entities() == old(storage).entities(),
                storage@.dom() == old(storage)@.dom(),
                forall|e: Entity, a1: &mut T|
                    old(storage)@.dom().difference(without@.dom()).contains(e) && flagged(old(self).flags(), e) && *a1 == old(storage)@[e]
                        ==> call_requires(f, (e, a1)),
                self.flags() == with_flags(old(self).flags(), old(storage)@.dom().difference(without@.dom()).intersect(prefix_set(old(storage).entities(), i as int)), false),
                forall|e: Entity|
                    old(storage)@.dom().contains(e) && !(old(storage)@.dom().difference(without@.dom()).contains(e) && prefix_set(old(storage).entities(), i as int).contains(e) && flagged(old(self).flags(), e)) ==> #[trigger] storage@[e] == old(storage)@[e],
                forall|e: Entity|
                    #![trigger prefix_set(old(storage).entities(), i as int).contains(e)]
                    old(storage)@.dom().difference(without@.dom()).contains(e) && prefix_set(old(storage).entities(), i as int).contains(e) && flagged(old(self).flags(), e) ==> exists|a1: &mut T|
                        *a1 == old(storage)@[e] && *final(a1) == storage@[e]
                        && call_ensures(f, (e, a1), ()),
            decreases storage.entities().len() - i,
        {
            let e = storage.entity_at(i);
            proof {
                lemma_prefix_set(old(storage).entities(), i as int);
                storage.lemma_prefix_fresh(i as int);
                lemma_selection_step(old(storage)@.dom().difference(without@.dom()), old(storage).entities(), i as int);
                storage.lemma_wf();
                lemma_with_flags_step(old(self).flags(), old(storage)@.dom().difference(without@.dom()).intersect(prefix_set(old(storage).entities(), i as int)), false, e);
                assert(storage@.dom().contains(storage.entities()[i as int]));
            }
            if without.find(e).is_none() {
                if self.is_flagged(e) {
                    f(e, storage.write_at(i));
                    self.mark(e, false);
                }
            }
            i = i + 1;
        }
        proof {
            storage.lemma_wf();
            lemma_selection_all(old(storage)@.dom().difference(without@.dom()), old(storage).entities());
        }
    }

    /// Visits every entity holding both a `T1` and a `T2` molecule.
    pub fn iter_duo<T1, T2, F>(&self, first: &MoleculeStorage<T1>, second: &MoleculeStorage<T2>, mut f: F)
        where
            F: FnMut(Entity, &T1, &T2),
        requires
            first.wf(),
            second.wf(),
            forall|e: Entity|
                #![trigger first@.dom().intersect(second@.dom()).contains(e)]
                first@.dom().intersect(second@.dom()).contains(e) ==> call_requires(f, (e, &first@[e], &second@[e])),
        ensures
            forall|e: Entity|
                #![trigger first@.dom().intersect(second@.dom()).contains(e)]
                first@.dom().intersect(second@.dom()).contains(e) ==> call_ensures(f, (e, &first@[e], &second@[e]), ()),
    {
        let ghost f0 = f;
        let mut i: usize = 0;
        while i < first.len()
            invariant
                f == f0,
                first.wf(),
                second.wf(),
                i <= first.entities().len(),
                forall|e: Entity|
                    #![trigger first@.dom().intersect(second@.dom()).contains(e)]
                    first@.dom().intersect(second@.dom()).contains(e) ==> call_requires(f, (e, &first@[e], &second@[e])),
                forall|e: Entity|
                    #![trigger prefix_set(first.entities(), i as int).contains(e)]
                    first@.dom().intersect(second@.dom()).contains(e) && prefix_set(first.entities(), i as int).contains(e) ==> call_ensures(f, (e, &first@[e], &second@[e]), ()),
            decreases first.entities().len() - i,
        {
            let e = first.entity_at(i);
            proof {
                lemma_prefix_set(first.entities(), i as int);
                first.lemma_prefix_fresh(i as int);
                lemma_selection_step(first@.dom().intersect(second@.dom()), first.entities(), i as int);
                first.lemma_wf();
                second.lemma_wf();
                assert(first@.dom().contains(first.entities()[i as int]));
            }
            if let Some(v_second) = second.get(e) {
                f(e, first.read_at(i), v_second);
            }
            i = i + 1;
        }
        proof {
            first.lemma_wf();
            lemma_selection_all(first@.dom().intersect(second@.dom()), first.entities());
        }
    }

    /// Visits every modified entity holding both a `T1` and a `T2` molecule, then marks it as seen.
    pub fn iter_duo_mod<T1, T2, F>(&mut self, first: &MoleculeStorage<T1>, second: &MoleculeStorage<T2>, mut f: F)
        where
            F: FnMut(Entity, &T1, &T2),
        requires
            old(self).wf(),
            first.wf(),
            second.wf(),
            forall|e: Entity|
                #![trigger first@.dom().intersect(second@.dom()).contains(e)]
                first@.dom().intersect(second@.dom()).contains(e) && flagged(old(self).flags(), e) ==> call_requires(f, (e, &first@[e], &second@[e])),
        ensures
            forall|e: Entity|
                #![trigger first@.dom().intersect(second@.dom()).contains(e)]
                first@.dom().intersect(second@.dom()).contains(e) && flagged(old(self).flags(), e) ==> call_ensures(f, (e, &first@[e], &second@[e]), ()),
            final(self).wf(),
            final(self).next_entity() == old(self).next_entity(),
            final(self).flags() == with_flags(old(self).flags(), first@.dom().intersect(second@.dom()), false),
    {
        let ghost f0 = f;
        let mut i: usize = 0;
        while i < first.len()
            invariant
                f == f0,
                first.wf(),
                second.wf(),
                self.wf(),
                self.next_entity() == old(self).next_entity(),
                i <= first.entities().len(),
                forall|e: Entity|
                    #![trigger first@.dom().intersect(second@.dom()).contains(e)]
                    first@.dom().intersect(second@.dom()).contains(e) && flagged(old(self).flags(), e) ==> call_requires(f, (e, &first@[e], &second@[e])),
                forall|e: Entity|
                    #![trigger prefix_set(first.entities(), i as int).contains(e)]
                    first@.dom().intersect(second@.dom()).contains(e) && prefix_set(first.entities(), i as int).contains(e) && flagged(old(self).flags(), e) ==> call_ensures(f, (e, &first@[e], &second@[e]), ()),
                self.flags() == with_flags(old(self).flags(), first@.dom().intersect(second@.dom()).intersect(prefix_set(first.entities(), i as int)), false),
            decreases first.entities().len() - i,
        {
            let e = first.entity_at(i);
            proof {
                lemma_prefix_set(first.entities(), i as int);
                first.lemma_prefix_fresh(i as int);
                lemma_selection_step(first@.dom().intersect(second@.dom()), first.entities(), i as int);
                first.lemma_wf();
                second.lemma_wf();
                lemma_with_flags_step(old(self).flags(), first@.dom().intersect(second@.dom()).intersect(prefix_set(first.entities(), i as int)), false, e);
                assert(first@.dom().contains(first.entities()[i as int]));
            }
            if let Some(v_second) = second.get(e) {
                if self.is_flagged(e) {
                    f(e, first.read_at(i), v_second);
                    self.mark(e, false);
                }
            }
            i = i + 1;
        }
        proof {
            first.lemma_wf();
            lemma_selection_all(first@.dom().intersect(second@.dom()), first.entities());
        }
    }

    /// Visits every entity holding a `T1` and a `T2` molecule but no `W` molecule.
    pub fn iter_without_duo<W, T1, T2, F>(&self, without: &MoleculeStorage<W>, first: &MoleculeStorage<T1>, second: &MoleculeStorage<T2>, mut f: F)
        where
            F: FnMut(Entity, &T1, &T2),
        requires
            without.wf(),
            first.wf(),
            second.wf(),
            forall|e: Entity|
                #![trigger first@.dom().intersect(second@.dom()).difference(without@.dom()).contains(e)]
                first@.dom().intersect(second@.dom()).difference(without@.dom()).contains(e) ==> call_requires(f, (e, &first@[e], &second@[e])),
        ensures
            forall|e: Entity|
                #![trigger first@.dom().intersect(second@.dom()).difference(without@.dom()).contains(e)]
                first@.dom().intersect(second@.dom()).difference(without@.dom()).contains(e) ==> call_ensures(f, (e, &first@[e], &second@[e]), ()),
    {
        let ghost f0 = f;
        let mut i: usize = 0;
        while i < first.len()
            invariant
                f == f0,
                without.wf(),
                first.wf(),
                second.wf(),
                i <= first.entities().len(),
                forall|e: Entity|
                    #![trigger first@.dom().intersect(second@.dom()).difference(without@.dom()).contains(e)]
                    first@.dom().intersect(second@.dom()).difference(without@.dom()).contains(e) ==> call_requires(f, (e, &first@[e], &second@[e])),
                forall|e: Entity|
                    #![trigger prefix_set(first.entities(), i as int).contains(e)]
                    first@.dom().intersect(second@.dom()).difference(without@.dom()).contains(e) && prefix_set(first.entities(), i as int).contains(e) ==> call_ensures(f, (e, &first@[e], &second@[e]), ()),
            decreases first.entities().len() - i,
        {
            let e = first.entity_at(i);
            proof {
                lemma_prefix_set(first.entities(), i as int);
                first.lemma_prefix_fresh(i as int);
                lemma_selection_step(first@.dom().intersect(second@.dom()).difference(without@.dom()), first.entities(), i as int);
                first.lemma_wf();
                second.lemma_wf();
                assert(first@.dom().contains(first.entities()[i as int]));
            }
            if without.find(e).is_none() {
                if let Some(v_second) = second.get(e) {
                    f(e, first.read_at(i), v_second);
                }
            }
            i = i + 1;
        }
        proof {
            first.lemma_wf();
            lemma_selection_all(first@.dom().intersect(second@.dom()).difference(without@.dom()), first.entities());
        }
    }

    /// Visits every modified entity holding a `T1` and a `T2` molecule but no `W` molecule, then marks it as seen.
    pub fn iter_without_duo_mod<W, T1, T2, F>(&mut self, without: &MoleculeStorage<W>, first: &MoleculeStorage<T1>, second: &MoleculeStorage<T2>, mut f: F)
        where
            F: FnMut(Entity, &T1, &T2),
        requires
            old(self).wf(),
            without.wf(),
            first.wf(),
            second.wf(),
            forall|e: Entity|
                #![trigger first@.dom().intersect(second@.dom()).difference(without@.dom()).contains(e)]
                first@.dom().intersect(second@.dom()).difference(without@.dom()).contains(e) && flagged(old(self).flags(), e) ==> call_requires(f, (e, &first@[e], &second@[e])),
        ensures
            forall|e: Entity|
                #![trigger first@.dom().intersect(second@.dom()).difference(without@.dom()).contains(e)]
                first@.dom().intersect(second@.dom()).difference(without@.dom()).contains(e) && flagged(old(self).flags(), e) ==> call_ensures(f, (e, &first@[e], &second@[e]), ()),
            final(self).wf(),
            final(self).next_entity() == old(self).next_entity(),
            final(self).flags() == with_flags(old(self).flags(), first@.dom().intersect(second@.dom()).difference(without@.dom()), false),
    {
        let ghost f0 = f;
        let mut i: usize = 0;
        while i < first.len()
            invariant
                f == f0,
                without.wf(),
                first.wf(),
                second.wf(),
                self.wf(),
                self.next_entity() == old(self).next_entity(),
                i <= first.entities().len(),
                forall|e: Entity|
                    #![trigger first@.dom().intersect(second@.dom()).difference(without@.dom()).contains(e)]
                    first@.dom().intersect(second@.dom()).difference(without@.dom()).contains(e) && flagged(old(self).flags(), e) ==> call_requires(f, (e, &first@[e], &second@[e])),
                forall|e: Entity|
                    #![trigger prefix_set(first.entities(), i as int).contains(e)]
                    first@.dom().intersect(second@.dom()).difference(without@.dom()).contains(e) && prefix_set(first.entities(), i as int).contains(e) && flagged(old(self).flags(), e) ==> call_ensures(f, (e, &first@[e], &second@[e]), ()),
                self.flags() == with_flags(old(self).flags(), first@.dom().intersect(second@.dom()).difference(without@.dom()).intersect(prefix_set(first.entities(), i as int)), false),
            decreases first.entities().len() - i,
        {
            let e = first.entity_at(i);
            proof {
                lemma_prefix_set(first.entities(), i as int);
                first.lemma_prefix_fresh(i as int);
                lemma_selection_step(first@.dom().intersect(second@.dom()).difference(without@.dom()), first.entities(), i as int);
                first.lemma_wf();
                second.lemma_wf();
                lemma_with_flags_step(old(self).flags(), first@.dom().intersect(second@.dom()).difference(without@.dom()).intersect(prefix_set(first.entities(), i as int)), false, e);
                assert(first@.dom().contains(first.entities()[i as int]));
            }
            if without.find(e).is_none() {
                if let Some(v_second) = second.get(e) {
                    if self.is_flagged(e) {
                        f(e, first.read_at(i), v_second);
                        self.mark(e, false);
                    }
                }
            }
            i = i + 1;
        }
        proof {
            first.lemma_wf();
            lemma_selection_all(first@.dom().intersect(second@.dom()).difference(without@.dom()), first.entities());
        }
    }

    /// Visits every entity holding a `T1` and a `T2` molecule with write access to both, marking the entity as modified.
    pub fn iter_mut_duo<T1, T2, F>(&mut self, first: &mut MoleculeStorage<T1>, second: &mut MoleculeStorage<T2>, mut f: F)
        where
            F: FnMut(Entity, &mut T1, &mut T2),
        requires
            old(self).wf(),
            old(first).wf(),
            old(second).wf(),
            forall|e: Entity, a1: &mut T1, a2: &mut T2|
                old(first)@.dom().intersect(old(second)@.dom()).contains(e) && *a1 == old(first)@[e] && *a2 == old(second)@[e]
                    ==> call_requires(f, (e, a1, a2)),
        ensures
            final(self).wf(),
            final(self).next_entity() == old(self).next_entity(),
            final(self).flags() == with_flags(old(self).flags(), old(first)@.dom().intersect(old(second)@.dom()), true),
            final(first).wf(),
            final(first)@.dom() == old(first)@.dom(),
            forall|e: Entity|
                old(first)@.dom().contains(e) && !(old(first)@.dom().intersect(old(second)@.dom()).contains(e)) ==> #[trigger] final(first)@[e] == old(first)@[e],
            final(second).wf(),
            final(second)@.dom() == old(second)@.dom(),
            forall|e: Entity|
                old(second)@.dom().contains(e) && !(old(first)@.dom().intersect(old(second)@.dom()).contains(e)) ==> #[trigger] final(second)@[e] == old(second)@[e],
            forall|e: Entity|
                #![trigger old(first)@.dom().intersect(old(second)@.dom()).contains(e)]
                old(first)@.dom().intersect(old(second)@.dom()).contains(e) ==> exists|a1: &mut T1, a2: &mut T2|
                    *a1 == old(first)@[e] && *final(a1) == final(first)@[e]
                    && *a2 == old(second)@[e] && *final(a2) == final(second)@[e]
                    && call_ensures(f, (e, a1, a2), ()),
    {
        let ghost f0 = f;
        let mut i: usize = 0;
        while i < first.len()
            invariant
                f == f0,
                first.wf(),
                second.wf(),
                self.wf(),
                self.next_entity() == old(self).next_entity(),
                i <= first.entities().len(),
                first.entities() == old(first).entities(),
                first@.dom() == old(first)@.dom(),
                second@.dom() == old(second)@.dom(),
                forall|e: Entity, a1: &mut T1, a2: &mut T2|
                    old(first)@.dom().intersect(old(second)@.dom()).contains(e) && *a1 == old(first)@[e] && *a2 == old(second)@[e]
                        ==> call_requires(f, (e, a1, a2)),
                self.flags() == with_flags(old(self).flags(), old(first)@.dom().intersect(old(second)@.dom()).intersect(prefix_set(old(first).entities(), i as int)), true),
                forall|e: Entity|
                    old(first)@.dom().contains(e) && !(old(first)@.dom().intersect(old(second)@.dom()).contains(e) && prefix_set(old(first).entities(), i as int).contains(e)) ==> #[trigger] first@[e] == old(first)@[e],
                forall|e: Entity|
                    old(second)@.dom().contains(e) && !(old(first)@.dom().intersect(old(second)@.dom()).contains(e) && prefix_set(old(first).entities(), i as int).contains(e)) ==> #[trigger] second@[e] == old(second)@[e],
                forall|e: Entity|
                    #![trigger prefix_set(old(first).entities(), i as int).contains(e)]
                    old(first)@.dom().intersect(old(second)@.dom()).contains(e) && prefix_set(old(first).entities(), i as int).contains(e) ==> exists|a1: &mut T1, a2: &mut T2|
                        *a1 == old(first)@[e] && *final(a1) == first@[e]
                        && *a2 == old(second)@[e] && *final(a2) == second@[e]
                        && call_ensures(f, (e, a1, a2), ()),
            decreases first.entities().len() - i,
        {
            let e = first.entity_at(i);
            proof {
                lemma_prefix_set(old(first).entities(), i as int);
                first.lemma_prefix_fresh(i as int);
                lemma_selection_step(old(first)@.dom().intersect(old(second)@.dom()), old(first).entities(), i as int);
                first.lemma_wf();
                second.lemma_wf();
                lemma_with_flags_step(old(self).flags(), old(first)@.dom().intersect(old(second)@.dom()).intersect(prefix_set(old(first).entities(), i as int)), true, e);
                assert(first@.dom().contains(first.entities()[i as int]));
            }
            if let Some(j_second) = second.find(e) {
                self.mark(e, true);
                f(e, first.write_at(i), second.write_at(j_second));
            }
            i = i + 1;
        }
        proof {
            first.lemma_wf();
            lemma_selection_all(old(first)@.dom().intersect(old(second)@.dom()), old(first).entities());
        }
    }

    /// Visits every modified entity holding a `T1` and a `T2` molecule with write access to both, then marks it as seen.
    pub fn iter_mut_duo_mod<T1, T2, F>(&mut self, first: &mut MoleculeStorage<T1>, second: &mut MoleculeStorage<T2>, mut f: F)
        where
            F: FnMut(Entity, &mut T1, &mut T2),
        requires
            old(self).wf(),
            old(first).wf(),
            old(second).wf(),
            forall|e: Entity, a1: &mut T1, a2: &mut T2|
                old(first)@.dom().intersect(old(second)@.dom()).contains(e) && flagged(old(self).flags(), e) && *a1 == old(first)@[e] && *a2 == old(second)@[e]
                    ==> call_requires(f, (e, a1, a2)),
        ensures
            final(self).wf(),
            final(self).next_entity() == old(self).next_entity(),
            final(self).flags() == with_flags(old(self).flags(), old(first)@.dom().intersect(old(second)@.dom()), false),
            final(first).wf(),
            final(first)@.dom() == old(first)@.dom(),
            forall|e: Entity|
                old(first)@.dom().contains(e) && !(old(first)@.dom().intersect(old(second)@.dom()).contains(e) && flagged(old(self).flags(), e)) ==> #[trigger] final(first)@[e] == old(first)@[e],
            final(second).wf(),
            final(second)@.dom() == old(second)@.dom(),
            forall|e: Entity|
                old(second)@.dom().contains(e) && !(old(first)@.dom().intersect(old(second)@.dom()).contains(e) && flagged(old(self).flags(), e)) ==> #[trigger] final(second)@[e] == old(second)@[e],
            forall|e: Entity|
                #![trigger old(first)@.dom().intersect(old(second)@.dom()).contains(e)]
                old(first)@.dom().intersect(old(second)@.dom()).contains(e) && flagged(old(self).flags(), e) ==> exists|a1: &mut T1, a2: &mut T2|
                    *a1 == old(first)@[e] && *final(a1) == final(first)@[e]
                    && *a2 == old(second)@[e] && *final(a2) == final(second)@[e]
                    && call_ensures(f, (e, a1, a2), ()),
    {
        let ghost f0 = f;
        let mut i: usize = 0;
        while i < first.len()
            invariant
                f == f0,
                first.wf(),
                second.wf(),
                self.wf(),
                self.next_entity() == old(self).next_entity(),
                i <= first.entities().len(),
                first.entities() == old(first).entities(),
                first@.dom() == old(first)@.dom(),
                second@.dom() == old(second)@.dom(),
                forall|e: Entity, a1: &mut T1, a2: &mut T2|
                    old(first)@.dom().intersect(old(second)@.dom()).contains(e) && flagged(old(self).flags(), e) && *a1 == old(first)@[e] && *a2 == old(second)@[e]
                        ==> call_requires(f, (e, a1, a2)),
                self.flags() == with_flags(old(self).flags(), old(first)@.dom().intersect(old(second)@.dom()).intersect(prefix_set(old(first).entities(), i as int)), false),
                forall|e: Entity|
                    old(first)@.dom().contains(e) && !(old(first)@.dom().intersect(old(second)@.dom()).contains(e) && prefix_set(old(first).entities(), i as int).contains(e) && flagged(old(self).flags(), e)) ==> #[trigger] first@[e] == old(first)@[e],
                forall|e: Entity|
                    old(second)@.dom().contains(e) && !(old(first)@.dom().intersect(old(second)@.dom()).contains(e) && prefix_set(old(first).entities(), i as int).contains(e) && flagged(old(self).flags(), e)) ==> #[trigger] second@[e] == old(second)@[e],
                forall|e: Entity|
                    #![trigger prefix_set(old(first).entities(), i as int).contains(e)]
                    old(first)@.dom().intersect(old(second)@.dom()).contains(e) && prefix_set(old(first).entities(), i as int).contains(e) && flagged(old(self).flags(), e) ==> exists|a1: &mut T1, a2: &mut T2|
                        *a1 == old(first)@[e] && *final(a1) == first@[e]
                        && *a2 == old(second)@[e] && *final(a2) == second@[e]
                        && call_ensures(f, (e, a1, a2), ()),
            decreases first.entities().len() - i,
        {
            let e = first.entity_at(i);
            proof {
                lemma_prefix_set(old(first).entities(), i as int);
                first.lemma_prefix_fresh(i as int);
                lemma_selection_step(old(first)@.dom().intersect(old(second)@.dom()), old(first).entities(), i as int);
                first.lemma_wf();
                second.lemma_wf();
                lemma_with_flags_step(old(self).flags(), old(first)@.dom().intersect(old(second)@.dom()).intersect(prefix_set(old(first).entities(), i as int)), false, e);
                assert(first@.dom().contains(first.entities()[i as int]));
            }
            if let Some(j_second) = second.find(e) {
                if self.is_flagged(e) {
                    f(e, first.write_at(i), second.write_at(j_second));
                    self.mark(e, false);
                }
            }
            i = i + 1;
        }
        proof {
            first.lemma_wf();
            lemma_selection_all(old(first)@.dom().intersect(old(second)@.dom()), old(first).entities());
        }
    }

    /// Visits every entity holding a `T1` and a `T2` molecule but no `W` molecule with write access, marking the entity as modified.
    pub fn iter_mut_without_duo<W, T1, T2, F>(&mut self, without: &MoleculeStorage<W>, first: &mut MoleculeStorage<T1>, second: &mut MoleculeStorage<T2>, mut f: F)
        where
            F: FnMut(Entity, &mut T1, &mut T2),
        requires
            old(self).wf(),
            without.wf(),
            old(first).wf(),
            old(second).wf(),
            forall|e: Entity, a1: &mut T1, a2: &mut T2|
                old(first)@.dom().intersect(old(second)@.dom()).difference(without@.dom()).contains(e) && *a1 == old(first)@[e] && *a2 == old(second)@[e]
                    ==> call_requires(f, (e, a1, a2)),
        ensures
            final(self).wf(),
            final(self).next_entity() == old(self).next_entity(),
            final(self).flags() == with_flags(old(self).flags(), old(first)@.dom().intersect(old(second)@.dom()).difference(without@.dom()), true),
            final(first).wf(),
            final(first)@.dom() == old(first)@.dom(),
            forall|e: Entity|
                old(first)@.dom().contains(e) && !(old(first)@.dom().intersect(old(second)@.dom()).difference(without@.dom()).contains(e)) ==> #[trigger] final(first)@[e] == old(first)@[e],
            final(second).wf(),
            final(second)@.dom() == old(second)@.dom(),
            forall|e: Entity|
                old(second)@.dom().contains(e) && !(old(first)@.dom().intersect(old(second)@.dom()).difference(without@.dom()).contains(e)) ==> #[trigger] final(second)@[e] == old(second)@[e],
            forall|e: Entity|
                #![trigger old(first)@.dom().intersect(old(second)@.dom()).difference(without@.dom()).contains(e)]
                old(first)@.dom().intersect(old(second)@.dom()).difference(without@.dom()).contains(e) ==> exists|a1: &mut T1, a2: &mut T2|
                    *a1 == old(first)@[e] && *final(a1) == final(first)@[e]
                    && *a2 == old(second)@[e] && *final(a2) == final(second)@[e]
                    && call_ensures(f, (e, a1, a2), ()),
    {
        let ghost f0 = f;
        let mut i: usize = 0;
        while i < first.len()
            invariant
                f == f0,
                without.wf(),
                first.wf(),
                second.wf(),
                self.wf(),
                self.next_entity() == old(self).next_entity(),
                i <= first.entities().len(),
                first.entities() == old(first).entities(),
                first@.dom() == old(first)@.dom(),
                second@.dom() == old(second)@.dom(),
                forall|e: Entity, a1: &mut T1, a2: &mut T2|
                    old(first)@.dom().intersect(old(second)@.dom()).difference(without@.dom()).contains(e) && *a1 == old(first)@[e] && *a2 == old(second)@[e]
                        ==> call_requires(f, (e, a1, a2)),
                self.flags() == with_flags(old(self).flags(), old(first)@.dom().intersect(old(second)@.dom()).difference(without@.dom()).intersect(prefix_set(old(first).entities(), i as int)), true),
                forall|e: Entity|
                    old(first)@.dom().contains(e) && !(old(first)@.dom().intersect(old(second)@.dom()).difference(without@.dom()).contains(e) && prefix_set(old(first).entities(), i as int).contains(e)) ==> #[trigger] first@[e] == old(first)@[e],
                forall|e: Entity|
                    old(second)@.dom().contains(e) && !(old(first)@.dom().intersect(old(second)@.dom()).difference(without@.dom()).contains(e) && prefix_set(old(first).entities(), i as int).contains(e)) ==> #[trigger] second@[e] == old(second)@[e],
                forall|e: Entity|
                    #![trigger prefix_set(old(first).entities(), i as int).contains(e)]
                    old(first)@.dom().intersect(old(second)@.dom()).difference(without@.dom()).contains(e) && prefix_set(old(first).entities(), i as int).contains(e) ==> exists|a1: &mut T1, a2: &mut T2|
                        *a1 == old(first)@[e] && *final(a1) == first@[e]
                        && *a2 == old(second)@[e] && *final(a2) == second@[e]
                        && call_ensures(f, (e, a1, a2), ()),
            decreases first.entities().len() - i,
        {
            let e = first.entity_at(i);
            proof {
                lemma_prefix_set(old(first).entities(), i as int);
                first.lemma_prefix_fresh(i as int);
                lemma_selection_step(old(first)@.dom().intersect(old(second)@.dom()).difference(without@.dom()), old(first).entities(), i as int);
                first.lemma_wf();
                second.lemma_wf();
                lemma_with_flags_step(old(self).flags(), old(first)@.dom().intersect(old(second)@.dom()).difference(without@.dom()).intersect(prefix_set(old(first).entities(), i as int)), true, e);
                assert(first@.dom().contains(first.entities()[i as int]));
            }
            if without.find(e).is_none() {
                if let Some(j_second) = second.find(e) {
                    self.mark(e, true);
                    f(e, first.write_at(i), second.write_at(j_second));
                }
            }
            i = i + 1;
        }
        proof {
            first.lemma_wf();
            lemma_selection_all(old(first)@.dom().intersect(old(second)@.dom()).difference(without@.dom()), old(first).entities());
        }
    }

    /// Visits every entity holding a `T1`, a `T2` and a `T3` molecule.
    pub fn iter_trio<T1, T2, T3, F>(&self, first: &MoleculeStorage<T1>, second: &MoleculeStorage<T2>, third: &MoleculeStorage<T3>, mut f: F)
        where
            F: FnMut(Entity, &T1, &T2, &T3),
        requires
            first.wf(),
            second.wf(),
            third.wf(),
            forall|e: Entity|
                #![trigger first@.dom().intersect(second@.dom()).intersect(third@.dom()).contains(e)]
                first@.dom().intersect(second@.dom()).intersect(third@.dom()).contains(e) ==> call_requires(f, (e, &first@[e], &second@[e], &third@[e])),
        ensures
            forall|e: Entity|
                #![trigger first@.dom().intersect(second@.dom()).intersect(third@.dom()).contains(e)]
                first@.dom().intersect(second@.dom()).intersect(third@.dom()).contains(e) ==> call_ensures(f, (e, &first@[e], &second@[e], &third@[e]), ()),
    {
        let ghost f0 = f;
        let mut i: usize = 0;
        while i < first.len()
            invariant
                f == f0,
                first.wf(),
                second.wf(),
                third.wf(),
                i <= first.entities().len(),
                forall|e: Entity|
                    #![trigger first@.dom().intersect(second@.dom()).intersect(third@.dom()).contains(e)]
                    first@.dom().intersect(second@.dom()).intersect(third@.dom()).contains(e) ==> call_requires(f, (e, &first@[e], &second@[e], &third@[e])),
                forall|e: Entity|
                    #![trigger prefix_set(first.entities(), i as int).contains(e)]
                    first@.dom().intersect(second@.dom()).intersect(third@.dom()).contains(e) && prefix_set(first.entities(), i as int).contains(e) ==> call_ensures(f, (e, &first@[e], &second@[e], &third@[e]), ()),
            decreases first.entities().len() - i,
        {
            let e = first.entity_at(i);
            proof {
                lemma_prefix_set(first.entities(), i as int);
                first.lemma_prefix_fresh(i as int);
                lemma_selection_step(first@.dom().intersect(second@.dom()).intersect(third@.dom()), first.entities(), i as int);
                first.lemma_wf();
                second.lemma_wf();
                third.lemma_wf();
                assert(first@.dom().contains(first.entities()[i as int]));
            }
            if let Some(v_second) = second.get(e) {
                if let Some(v_third) = third.get(e) {
                    f(e, first.read_at(i), v_second, v_third);
                }
            }
            i = i + 1;
        }
        proof {
            first.lemma_wf();
            lemma_selection_all(first@.dom().intersect(second@.dom()).intersect(third@.dom()), first.entities());
        }
    }

    /// Visits every modified entity holding a `T1`, a `T2` and a `T3` molecule, then marks it as seen.
    pub fn iter_trio_mod<T1, T2, T3, F>(&mut self, first: &MoleculeStorage<T1>, second: &MoleculeStorage<T2>, third: &MoleculeStorage<T3>, mut f: F)
        where
            F: FnMut(Entity, &T1, &T2, &T3),
        requires
            old(self).wf(),
            first.wf(),
            second.wf(),
            third.wf(),
            forall|e: Entity|
                #![trigger first@.dom().intersect(second@.dom()).intersect(third@.dom()).contains(e)]
                first@.dom().intersect(second@.dom()).intersect(third@.dom()).contains(e) && flagged(old(self).flags(), e) ==> call_requires(f, (e, &first@[e], &second@[e], &third@[e])),
        ensures
            forall|e: Entity|
                #![trigger first@.dom().intersect(second@.dom()).intersect(third@.dom()).contains(e)]
                first@.dom().intersect(second@.dom()).intersect(third@.dom()).contains(e) && flagged(old(self).flags(), e) ==> call_ensures(f, (e, &first@[e], &second@[e], &third@[e]), ()),
            final(self).wf(),
            final(self).next_entity() == old(self).next_entity(),
            final(self).flags() == with_flags(old(self).flags(), first@.dom().intersect(second@.dom()).intersect(third@.dom()), false),
    {
        let ghost f0 = f;
        let mut i: usize = 0;
        while i < first.len()
            invariant
                f == f0,
                first.wf(),
                second.wf(),
                third.wf(),
                self.wf(),
                self.next_entity() == old(self).next_entity(),
                i <= first.entities().len(),
                forall|e: Entity|
                    #![trigger first@.dom().intersect(second@.dom()).intersect(third@.dom()).contains(e)]
                    first@.dom().intersect(second@.dom()).intersect(third@.dom()).contains(e) && flagged(old(self).flags(), e) ==> call_requires(f, (e, &first@[e], &second@[e], &third@[e])),
                forall|e: Entity|
                    #![trigger prefix_set(first.entities(), i as int).contains(e)]
                    first@.dom().intersect(second@.dom()).intersect(third@.dom()).contains(e) && prefix_set(first.entities(), i as int).contains(e) && flagged(old(self).flags(), e) ==> call_ensures(f, (e, &first@[e], &second@[e], &third@[e]), ()),
                self.flags() == with_flags(old(self).flags(), first@.dom().intersect(second@.dom()).intersect(third@.dom()).intersect(prefix_set(first.entities(), i as int)), false),
            decreases first.entities().len() - i,
        {
            let e = first.entity_at(i);
            proof {
                lemma_prefix_set(first.entities(), i as int);
                first.lemma_prefix_fresh(i as int);
                lemma_selection_step(first@.dom().intersect(second@.dom()).intersect(third@.dom()), first.entities(), i as int);
                first.lemma_wf();
                second.lemma_wf();
                third.lemma_wf();
                lemma_with_flags_step(old(self).flags(), first@.dom().intersect(second@.dom()).intersect(third@.dom()).intersect(prefix_set(first.entities(), i as int)), false, e);
                assert(first@.dom().contains(first.entities()[i as int]));
            }
            if let Some(v_second) = second.get(e) {
                if let Some(v_third) = third.get(e) {
                    if self.is_flagged(e) {
                        f(e, first.read_at(i), v_second, v_third);
                        self.mark(e, false);
                    }
                }
            }
            i = i + 1;
        }
        proof {
            first.lemma_wf();
            lemma_selection_all(first@.dom().intersect(second@.dom()).intersect(third@.dom()), first.entities());
        }
    }

    /// Visits every entity holding a `T1`, a `T2` and a `T3` molecule but no `W` molecule.
    pub fn iter_without_trio<W, T1, T2, T3, F>(&self, without: &MoleculeStorage<W>, first: &MoleculeStorage<T1>, second: &MoleculeStorage<T2>, third: &MoleculeStorage<T3>, mut f: F)
        where
            F: FnMut(Entity, &T1, &T2, &T3),
        requires
            without.wf(),
            first.wf(),
            second.wf(),
            third.wf(),
            forall|e: Entity|
                #![trigger first@.dom().intersect(second@.dom()).intersect(third@.dom()).difference(without@.dom()).contains(e)]
                first@.dom().intersect(second@.dom()).intersect(third@.dom()).difference(without@.dom()).contains(e) ==> call_requires(f, (e, &first@[e], &second@[e], &third@[e])),
        ensures
            forall|e: Entity|
                #![trigger first@.dom().intersect(second@.dom()).intersect(third@.dom()).difference(without@.dom()).contains(e)]
                first@.dom().intersect(second@.dom()).intersect(third@.dom()).difference(without@.dom()).contains(e) ==> call_ensures(f, (e, &first@[e], &second@[e], &third@[e]), ()),
    {
        let ghost f0 = f;
        let mut i: usize = 0;
        while i < first.len()
            invariant
                f == f0,
                without.wf(),
                first.wf(),
                second.wf(),
                third.wf(),
                i <= first.entities().len(),
                forall|e: Entity|
                    #![trigger first@.dom().intersect(second@.dom()).intersect(third@.dom()).difference(without@.dom()).contains(e)]
                    first@.dom().intersect(second@.dom()).intersect(third@.dom()).difference(without@.dom()).contains(e) ==> call_requires(f, (e, &first@[e], &second@[e], &third@[e])),
                forall|e: Entity|
                    #![trigger prefix_set(first.entities(), i as int).contains(e)]
                    first@.dom().intersect(second@.dom()).intersect(third@.dom()).difference(without@.dom()).contains(e) && prefix_set(first.entities(), i as int).contains(e) ==> call_ensures(f, (e, &first@[e], &second@[e], &third@[e]), ()),
            decreases first.entities().len() - i,
        {
            let e = first.entity_at(i);
            proof {
                lemma_prefix_set(first.entities(), i as int);
                first.lemma_prefix_fresh(i as int);
                lemma_selection_step(first@.dom().intersect(second@.dom()).intersect(third@.dom()).difference(without@.dom()), first.entities(), i as int);
                first.lemma_wf();
                second.lemma_wf();
                third.lemma_wf();
                assert(first@.dom().contains(first.entities()[i as int]));
            }
            if without.find(e).is_none() {
                if let Some(v_second) = second.get(e) {
                    if let Some(v_third) = third.get(e) {
                        f(e, first.read_at(i), v_second, v_third);
                    }
                }
            }
            i = i + 1;
        }
        proof {
            first.lemma_wf();
            lemma_selection_all(first@.dom().intersect(second@.dom()).intersect(third@.dom()).difference(without@.dom()), first.entities());
        }
    }

    /// Visits every modified entity holding a `T1`, a `T2` and a `T3` molecule but no `W` molecule, then marks it as seen.
    pub fn iter_without_trio_mod<W, T1, T2, T3, F>(&mut self, without: &MoleculeStorage<W>, first: &MoleculeStorage<T1>, second: &MoleculeStorage<T2>, third: &MoleculeStorage<T3>, mut f: F)
        where
            F: FnMut(Entity, &T1, &T2, &T3),
        requires
            old(self).wf(),
            without.wf(),
            first.wf(),
            second.wf(),
            third.wf(),
            forall|e: Entity|
                #![trigger first@.dom().intersect(second@.dom()).intersect(third@.dom()).difference(without@.dom()).contains(e)]
                first@.dom().intersect(second@.dom()).intersect(third@.dom()).difference(without@.dom()).contains(e) && flagged(old(self).flags(), e) ==> call_requires(f, (e, &first@[e], &second@[e], &third@[e])),
        ensures
            forall|e: Entity|
                #![trigger first@.dom().intersect(second@.dom()).intersect(third@.dom()).difference(without@.dom()).contains(e)]
                first@.dom().intersect(second@.dom()).intersect(third@.dom()).difference(without@.dom()).contains(e) && flagged(old(self).flags(), e) ==> call_ensures(f, (e, &first@[e], &second@[e], &third@[e]), ()),
            final(self).wf(),
            final(self).next_entity() == old(self).next_entity(),
            final(self).flags() == with_flags(old(self).flags(), first@.dom().intersect(second@.dom()).intersect(third@.dom()).difference(without@.dom()), false),
    {
        let ghost f0 = f;
        let mut i: usize = 0;
        while i < first.len()
            invariant
                f == f0,
                without.wf(),
                first.wf(),
                second.wf(),
                third.wf(),
                self.wf(),
                self.next_entity() == old(self).next_entity(),
                i <= first.entities().len(),
                forall|e: Entity|
                    #![trigger first@.dom().intersect(second@.dom()).intersect(third@.dom()).difference(without@.dom()).contains(e)]
                    first@.dom().intersect(second@.dom()).intersect(third@.dom()).difference(without@.dom()).contains(e) && flagged(old(self).flags(), e) ==> call_requires(f, (e, &first@[e], &second@[e], &third@[e])),
                forall|e: Entity|
                    #![trigger prefix_set(first.entities(), i as int).contains(e)]
                    first@.dom().intersect(second@.dom()).intersect(third@.dom()).difference(without@.dom()).contains(e) && prefix_set(first.entities(), i as int).contains(e) && flagged(old(self).flags(), e) ==> call_ensures(f, (e, &first@[e], &second@[e], &third@[e]), ()),
                self.flags() == with_flags(old(self).flags(), first@.dom().intersect(second@.dom()).intersect(third@.dom()).difference(without@.dom()).intersect(prefix_set(first.entities(), i as int)), false),
            decreases first.entities().len() - i,
        {
            let e = first.entity_at(i);
            proof {
                lemma_prefix_set(first.entities(), i as int);
                first.lemma_prefix_fresh(i as int);
                lemma_selection_step(first@.dom().intersect(second@.dom()).intersect(third@.dom()).difference(without@.dom()), first.entities(), i as int);
                first.lemma_wf();
                second.lemma_wf();
                third.lemma_wf();
                lemma_with_flags_step(old(self).flags(), first@.dom().intersect(second@.dom()).intersect(third@.dom()).difference(without@.dom()).intersect(prefix_set(first.entities(), i as int)), false, e);
                assert(first@.dom().contains(first.entities()[i as int]));
            }
            if without.find(e).is_none() {
                if let Some(v_second) = second.get(e) {
                    if let Some(v_third) = third.get(e) {
                        if self.is_flagged(e) {
                            f(e, first.read_at(i), v_second, v_third);
                            self.mark(e, false);
                        }
                    }
                }
            }
            i = i + 1;
        }
        proof {
            first.lemma_wf();
            lemma_selection_all(first@.dom().intersect(second@.dom()).intersect(third@.dom()).difference(without@.dom()), first.entities());
        }
    }

    /// Visits every entity holding a `T1`, a `T2` and a `T3` molecule with write access to all three, marking the entity as modified.
    pub fn iter_mut_trio<T1, T2, T3, F>(&mut self, first: &mut MoleculeStorage<T1>, second: &mut MoleculeStorage<T2>, third: &mut MoleculeStorage<T3>, mut f: F)
        where
            F: FnMut(Entity, &mut T1, &mut T2, &mut T3),
        requires
            old(self).wf(),
            old(first).wf(),
            old(second).wf(),
            old(third).wf(),
            forall|e: Entity, a1: &mut T1, a2: &mut T2, a3: &mut T3|
                old(first)@.dom().intersect(old(second)@.dom()).intersect(old(third)@.dom()).contains(e) && *a1 == old(first)@[e] && *a2 == old(second)@[e] && *a3 == old(third)@[e]
                    ==> call_requires(f, (e, a1, a2, a3)),
        ensures
            final(self).wf(),
            final(self).next_entity() == old(self).next_entity(),
            final(self).flags() == with_flags(old(self).flags(), old(first)@.dom().intersect(old(second)@.dom()).intersect(old(third)@.dom()), true),
            final(first).wf(),
            final(first)@.dom() == old(first)@.dom(),
            forall|e: Entity|
                old(first)@.dom().contains(e) && !(old(first)@.dom().intersect(old(second)@.dom()).intersect(old(third)@.dom()).contains(e)) ==> #[trigger] final(first)@[e] == old(first)@[e],
            final(second).wf(),
            final(second)@.dom() == old(second)@.dom(),
            forall|e: Entity|
                old(second)@.dom().contains(e) && !(old(first)@.dom().intersect(old(second)@.dom()).intersect(old(third)@.dom()).contains(e)) ==> #[trigger] final(second)@[e] == old(second)@[e],
            final(third).wf(),
            final(third)@.dom() == old(third)@.dom(),
            forall|e: Entity|
                old(third)@.dom().contains(e) && !(old(first)@.dom().intersect(old(second)@.dom()).intersect(old(third)@.dom()).contains(e)) ==> #[trigger] final(third)@[e] == old(third)@[e],
            forall|e: Entity|
                #![trigger old(first)@.dom().intersect(old(second)@.dom()).intersect(old(third)@.dom()).contains(e)]
                old(first)@.dom().intersect(old(second)@.dom()).intersect(old(third)@.dom()).contains(e) ==> exists|a1: &mut T1, a2: &mut T2, a3: &mut T3|
                    *a1 == old(first)@[e] && *final(a1) == final(first)@[e]
                    && *a2 == old(second)@[e] && *final(a2) == final(second)@[e]
                    && *a3 == old(third)@[e] && *final(a3) == final(third)@[e]
                    && call_ensures(f, (e, a1, a2, a3), ()),
    {
        let ghost f0 = f;
        let mut i: usize = 0;
        while i < first.len()
            invariant
                f == f0,
                first.wf(),
                second.wf(),
                third.wf(),
                self.wf(),
                self.next_entity() == old(self).next_entity(),
                i <= first.entities().len(),
                first.entities() == old(first).entities(),
                first@.dom() == old(first)@.dom(),
                second@.dom() == old(second)@.dom(),
                third@.dom() == old(third)@.dom(),
                forall|e: Entity, a1: &mut T1, a2: &mut T2, a3: &mut T3|
                    old(first)@.dom().intersect(old(second)@.dom()).intersect(old(third)@.dom()).contains(e) && *a1 == old(first)@[e] && *a2 == old(second)@[e] && *a3 == old(third)@[e]
                        ==> call_requires(f, (e, a1, a2, a3)),
                self.flags() == with_flags(old(self).flags(), old(first)@.dom().intersect(old(second)@.dom()).intersect(old(third)@.dom()).intersect(prefix_set(old(first).entities(), i as int)), true),
                forall|e: Entity|
                    old(first)@.dom().contains(e) && !(old(first)@.dom().intersect(old(second)@.dom()).intersect(old(third)@.dom()).contains(e) && prefix_set(old(first).entities(), i as int).contains(e)) ==> #[trigger] first@[e] == old(first)@[e],
                forall|e: Entity|
                    old(second)@.dom().contains(e) && !(old(first)@.dom().intersect(old(second)@.dom()).intersect(old(third)@.dom()).contains(e) && prefix_set(old(first).entities(), i as int).contains(e)) ==> #[trigger] second@[e] == old(second)@[e],
                forall|e: Entity|
                    old(third)@.dom().contains(e) && !(old(first)@.dom().intersect(old(second)@.dom()).intersect(old(third)@.dom()).contains(e) && prefix_set(old(first).entities(), i as int).contains(e)) ==> #[trigger] third@[e] == old(third)@[e],
                forall|e: Entity|
                    #![trigger prefix_set(old(first).entities(), i as int).contains(e)]
                    old(first)@.dom().intersect(old(second)@.dom()).intersect(old(third)@.dom()).contains(e) && prefix_set(old(first).entities(), i as int).contains(e) ==> exists|a1: &mut T1, a2: &mut T2, a3: &mut T3|
                        *a1 == old(first)@[e] && *final(a1) == first@[e]
                        && *a2 == old(second)@[e] && *final(a2) == second@[e]
                        && *a3 == old(third)@[e] && *final(a3) == third@[e]
                        && call_ensures(f, (e, a1, a2, a3), ()),
            decreases first.entities().len() - i,
        {
            let e = first.entity_at(i);
            proof {
                lemma_prefix_set(old(first).entities(), i as int);
                first.lemma_prefix_fresh(i as int);
                lemma_selection_step(old(first)@.dom().intersect(old(second)@.dom()).intersect(old(third)@.dom()), old(first).entities(), i as int);
                first.lemma_wf();
                second.lemma_wf();
                third.lemma_wf();
                lemma_with_flags_step(old(self).flags(), old(first)@.dom().intersect(old(second)@.dom()).intersect(old(third)@.dom()).intersect(prefix_set(old(first).entities(), i as int)), true, e);
                assert(first@.dom().contains(first.entities()[i as int]));
            }
            if let Some(j_second) = second.find(e) {
                if let Some(j_third) = third.find(e) {
                    self.mark(e, true);
                    f(e, first.write_at(i), second.write_at(j_second), third.write_at(j_third));
                }
            }
            i = i + 1;
        }
        proof {
            first.lemma_wf();
            lemma_selection_all(old(first)@.dom().intersect(old(second)@.dom()).intersect(old(third)@.dom()), old(first).entities());
        }
    }

    /// Visits every modified entity holding a `T1`, a `T2` and a `T3` molecule with write access, then marks it as seen.
    pub fn iter_mut_trio_mod<T1, T2, T3, F>(&mut self, first: &mut MoleculeStorage<T1>, second: &mut MoleculeStorage<T2>, third: &mut MoleculeStorage<T3>, mut f: F)
        where
            F: FnMut(Entity, &mut T1, &mut T2, &mut T3),
        requires
            old(self).wf(),
            old(first).wf(),
            old(second).wf(),
            old(third).wf(),
            forall|e: Entity, a1: &mut T1, a2: &mut T2, a3: &mut T3|
                old(first)@.dom().intersect(old(second)@.dom()).intersect(old(third)@.dom()).contains(e) && flagged(old(self).flags(), e) && *a1 == old(first)@[e] && *a2 == old(second)@[e] && *a3 == old(third)@[e]
                    ==> call_requires(f, (e, a1, a2, a3)),
        ensures
            final(self).wf(),
            final(self).next_entity() == old(self).next_entity(),
            final(self).flags() == with_flags(old(self).flags(), old(first)@.dom().intersect(old(second)@.dom()).intersect(old(third)@.dom()), false),
            final(first).wf(),
            final(first)@.dom() == old(first)@.dom(),
            forall|e: Entity|
                old(first)@.dom().contains(e) && !(old(first)@.dom().intersect(old(second)@.dom()).intersect(old(third)@.dom()).contains(e) && flagged(old(self).flags(), e)) ==> #[trigger] final(first)@[e] == old(first)@[e],
            final(second).wf(),
            final(second)@.dom() == old(second)@.dom(),
            forall|e: Entity|
                old(second)@.dom().contains(e) && !(old(first)@.dom().intersect(old(second)@.dom()).intersect(old(third)@.dom()).contains(e) && flagged(old(self).flags(), e)) ==> #[trigger] final(second)@[e] == old(second)@[e],
            final(third).wf(),
            final(third)@.dom() == old(third)@.dom(),
            forall|e: Entity|
                old(third)@.dom().contains(e) && !(old(first)@.dom().intersect(old(second)@.dom()).intersect(old(third)@.dom()).contains(e) && flagged(old(self).flags(), e)) ==> #[trigger] final(third)@[e] == old(third)@[e],
            forall|e: Entity|
                #![trigger old(first)@.dom().intersect(old(second)@.dom()).intersect(old(third)@.dom()).contains(e)]
                old(first)@.dom().intersect(old(second)@.dom()).intersect(old(third)@.dom()).contains(e) && flagged(old(self).flags(), e) ==> exists|a1: &mut T1, a2: &mut T2, a3: &mut T3|
                    *a1 == old(first)@[e] && *final(a1) == final(first)@[e]
                    && *a2 == old(second)@[e] && *final(a2) == final(second)@[e]
                    && *a3 == old(third)@[e] && *final(a3) == final(third)@[e]
                    && call_ensures(f, (e, a1, a2, a3), ()),
    {
        let ghost f0 = f;
        let mut i: usize = 0;
        while i < first.len()
            invariant
                f == f0,
                first.wf(),
                second.wf(),
                third.wf(),
                self.wf(),
                self.next_entity() == old(self).next_entity(),
                i <= first.entities().len(),
                first.entities() == old(first).entities(),
                first@.dom() == old(first)@.dom(),
                second@.dom() == old(second)@.dom(),
                third@.dom() == old(third)@.dom(),
                forall|e: Entity, a1: &mut T1, a2: &mut T2, a3: &mut T3|
                    old(first)@.dom().intersect(old(second)@.dom()).intersect(old(third)@.dom()).contains(e) && flagged(old(self).flags(), e) && *a1 == old(first)@[e] && *a2 == old(second)@[e] && *a3 == old(third)@[e]
                        ==> call_requires(f, (e, a1, a2, a3)),
                self.flags() == with_flags(old(self).flags(), old(first)@.dom().intersect(old(second)@.dom()).intersect(old(third)@.dom()).intersect(prefix_set(old(first).entities(), i as int)), false),
                forall|e: Entity|
                    old(first)@.dom().contains(e) && !(old(first)@.dom().intersect(old(second)@.dom()).intersect(old(third)@.dom()).contains(e) && prefix_set(old(first).entities(), i as int).contains(e) && flagged(old(self).flags(), e)) ==> #[trigger] first@[e] == old(first)@[e],
                forall|e: Entity|
                    old(second)@.dom().contains(e) && !(old(first)@.dom().intersect(old(second)@.dom()).intersect(old(third)@.dom()).contains(e) && prefix_set(old(first).entities(), i as int).contains(e) && flagged(old(self).flags(), e)) ==> #[trigger] second@[e] == old(second)@[e],
                forall|e: Entity|
                    old(third)@.dom().contains(e) && !(old(first)@.dom().intersect(old(second)@.dom()).intersect(old(third)@.dom()).contains(e) && prefix_set(old(first).entities(), i as int).contains(e) && flagged(old(self).flags(), e)) ==> #[trigger] third@[e] == old(third)@[e],
                forall|e: Entity|
                    #![trigger prefix_set(old(first).entities(), i as int).contains(e)]
                    old(first)@.dom().intersect(old(second)@.dom()).intersect(old(third)@.dom()).contains(e) && prefix_set(old(first).entities(), i as int).contains(e) && flagged(old(self).flags(), e) ==> exists|a1: &mut T1, a2: &mut T2, a3: &mut T3|
                        *a1 == old(first)@[e] && *final(a1) == first@[e]
                        && *a2 == old(second)@[e] && *final(a2) == second@[e]
                        && *a3 == old(third)@[e] && *final(a3) == third@[e]
                        && call_ensures(f, (e, a1, a2, a3), ()),
            decreases first.entities().len() - i,
        {
            let e = first.entity_at(i);
            proof {
                lemma_prefix_set(old(first).entities(), i as int);
                first.lemma_prefix_fresh(i as int);
                lemma_selection_step(old(first)@.dom().intersect(old(second)@.dom()).intersect(old(third)@.dom()), old(first).entities(), i as int);
                first.lemma_wf();
                second.lemma_wf();
                third.lemma_wf();
                lemma_with_flags_step(old(self).flags(), old(first)@.dom().intersect(old(second)@.dom()).intersect(old(third)@.dom()).intersect(prefix_set(old(first).entities(), i as int)), false, e);
                assert(first@.dom().contains(first.entities()[i as int]));
            }
            if let Some(j_second) = second.find(e) {
                if let Some(j_third) = third.find(e) {
                    if self.is_flagged(e) {
                        f(e, first.write_at(i), second.write_at(j_second), third.write_at(j_third));
                        self.mark(e, false);
                    }
                }
            }
            i = i + 1;
        }
        proof {
            first.lemma_wf();
            lemma_selection_all(old(first)@.dom().intersect(old(second)@.dom()).intersect(old(third)@.dom()), old(first).entities());
        }
    }

    /// Visits every entity holding a `T1`, a `T2` and a `T3` molecule but no `W` molecule with write access, marking the entity as modified.
    pub fn iter_mut_without_trio<W, T1, T2, T3, F>(&mut self, without: &MoleculeStorage<W>, first: &mut MoleculeStorage<T1>, second: &mut MoleculeStorage<T2>, third: &mut MoleculeStorage<T3>, mut f: F)
        where
            F: FnMut(Entity, &mut T1, &mut T2, &mut T3),
        requires
            old(self).wf(),
            without.wf(),
            old(first).wf(),
            old(second).wf(),
            old(third).wf(),
            forall|e: Entity, a1: &mut T1, a2: &mut T2, a3: &mut T3|
                old(first)@.dom().intersect(old(second)@.dom()).intersect(old(third)@.dom()).difference(without@.dom()).contains(e) && *a1 == old(first)@[e] && *a2 == old(second)@[e] && *a3 == old(third)@[e]
                    ==> call_requires(f, (e, a1, a2, a3)),
        ensures
            final(self).wf(),
            final(self).next_entity() == old(self).next_entity(),
            final(self).flags() == with_flags(old(self).flags(), old(first)@.dom().intersect(old(second)@.dom()).intersect(old(third)@.dom()).difference(without@.dom()), true),
            final(first).wf(),
            final(first)@.dom() == old(first)@.dom(),
            forall|e: Entity|
                old(first)@.dom().contains(e) && !(old(first)@.dom().intersect(old(second)@.dom()).intersect(old(third)@.dom()).difference(without@.dom()).contains(e)) ==> #[trigger] final(first)@[e] == old(first)@[e],
            final(second).wf(),
            final(second)@.dom() == old(second)@.dom(),
            forall|e: Entity|
                old(second)@.dom().contains(e) && !(old(first)@.dom().intersect(old(second)@.dom()).intersect(old(third)@.dom()).difference(without@.dom()).contains(e)) ==> #[trigger] final(second)@[e] == old(second)@[e],
            final(third).wf(),
            final(third)@.dom() == old(third)@.dom(),
            forall|e: Entity|
                old(third)@.dom().contains(e) && !(old(first)@.dom().intersect(old(second)@.dom()).intersect(old(third)@.dom()).difference(without@.dom()).contains(e)) ==> #[trigger] final(third)@[e] == old(third)@[e],
            forall|e: Entity|
                #![trigger old(first)@.dom().intersect(old(second)@.dom()).intersect(old(third)@.dom()).difference(without@.dom()).contains(e)]
                old(first)@.dom().intersect(old(second)@.dom()).intersect(old(third)@.dom()).difference(without@.dom()).contains(e) ==> exists|a1: &mut T1, a2: &mut T2, a3: &mut T3|
                    *a1 == old(first)@[e] && *final(a1) == final(first)@[e]
                    && *a2 == old(second)@[e] && *final(a2) == final(second)@[e]
                    && *a3 == old(third)@[e] && *final(a3) == final(third)@[e]
                    && call_ensures(f, (e, a1, a2, a3), ()),
    {
        let ghost f0 = f;
        let mut i: usize = 0;
        while i < first.len()
            invariant
                f == f0,
                without.wf(),
                first.wf(),
                second.wf(),
                third.wf(),
                self.wf(),
                self.next_entity() == old(self).next_entity(),
                i <= first.entities().len(),
                first.entities() == old(first).entities(),
                first@.dom() == old(first)@.dom(),
                second@.dom() == old(second)@.dom(),
                third@.dom() == old(third)@.dom(),
                forall|e: Entity, a1: &mut T1, a2: &mut T2, a3: &mut T3|
                    old(first)@.dom().intersect(old(second)@.dom()).intersect(old(third)@.dom()).difference(without@.dom()).contains(e) && *a1 == old(first)@[e] && *a2 == old(second)@[e] && *a3 == old(third)@[e]
                        ==> call_requires(f, (e, a1, a2, a3)),
                self.flags() == with_flags(old(self).flags(), old(first)@.dom().intersect(old(second)@.dom()).intersect(old(third)@.dom()).difference(without@.dom()).intersect(prefix_set(old(first).entities(), i as int)), true),
                forall|e: Entity|
                    old(first)@.dom().contains(e) && !(old(first)@.dom().intersect(old(second)@.dom()).intersect(old(third)@.dom()).difference(without@.dom()).contains(e) && prefix_set(old(first).entities(), i as int).contains(e)) ==> #[trigger] first@[e] == old(first)@[e],
                forall|e: Entity|
                    old(second)@.dom().contains(e) && !(old(first)@.dom().intersect(old(second)@.dom()).intersect(old(third)@.dom()).difference(without@.dom()).contains(e) && prefix_set(old(first).entities(), i as int).contains(e)) ==> #[trigger] second@[e] == old(second)@[e],
                forall|e: Entity|
                    old(third)@.dom().contains(e) && !(old(first)@.dom().intersect(old(second)@.dom()).intersect(old(third)@.dom()).difference(without@.dom()).contains(e) && prefix_set(old(first).entities(), i as int).contains(e)) ==> #[trigger] third@[e] == old(third)@[e],
                forall|e: Entity|
                    #![trigger prefix_set(old(first).entities(), i as int).contains(e)]
                    old(first)@.dom().intersect(old(second)@.dom()).intersect(old(third)@.dom()).difference(without@.dom()).contains(e) && prefix_set(old(first).entities(), i as int).contains(e) ==> exists|a1: &mut T1, a2: &mut T2, a3: &mut T3|
                        *a1 == old(first)@[e] && *final(a1) == first@[e]
                        && *a2 == old(second)@[e] && *final(a2) == second@[e]
                        && *a3 == old(third)@[e] && *final(a3) == third@[e]
                        && call_ensures(f, (e, a1, a2, a3), ()),
            decreases first.entities().len() - i,
        {
            let e = first.entity_at(i);
            proof {
                lemma_prefix_set(old(first).entities(), i as int);
                first.lemma_prefix_fresh(i as int);
                lemma_selection_step(old(first)@.dom().intersect(old(second)@.dom()).intersect(old(third)@.dom()).difference(without@.dom()), old(first).entities(), i as int);
                first.lemma_wf();
                second.lemma_wf();
                third.lemma_wf();
                lemma_with_flags_step(old(self).flags(), old(first)@.dom().intersect(old(second)@.dom()).intersect(old(third)@.dom()).difference(without@.dom()).intersect(prefix_set(old(first).entities(), i as int)), true, e);
                assert(first@.dom().contains(first.entities()[i as int]));
            }
            if without.find(e).is_none() {
                if let Some(j_second) = second.find(e) {
                    if let Some(j_third) = third.find(e) {
                        self.mark(e, true);
                        f(e, first.write_at(i), second.write_at(j_second), third.write_at(j_third));
                    }
                }
            }
            i = i + 1;
        }
        proof {
            first.lemma_wf();
            lemma_selection_all(old(first)@.dom().intersect(old(second)@.dom()).intersect(old(third)@.dom()).difference(without@.dom()), old(first).entities());
        }
    }

    /// Visits every modified entity holding a `T1`, a `T2` and a `T3` molecule but no `W` molecule with write access, then marks it as seen.
    pub fn iter_mut_without_trio_mod<W, T1, T2, T3, F>(&mut self, without: &MoleculeStorage<W>, first: &mut MoleculeStorage<T1>, second: &mut MoleculeStorage<T2>, third: &mut MoleculeStorage<T3>, mut f: F)
        where
            F: FnMut(Entity, &mut T1, &mut T2, &mut T3),
        requires
            old(self).wf(),
            without.wf(),
            old(first).wf(),
            old(second).wf(),
            old(third).wf(),
            forall|e: Entity, a1: &mut T1, a2: &mut T2, a3: &mut T3|
                old(first)@.dom().intersect(old(second)@.dom()).intersect(old(third)@.dom()).difference(without@.dom()).contains(e) && flagged(old(self).flags(), e) && *a1 == old(first)@[e] && *a2 == old(second)@[e] && *a3 == old(third)@[e]
                    ==> call_requires(f, (e, a1, a2, a3)),
        ensures
            final(self).wf(),
            final(self).next_entity() == old(self).next_entity(),
            final(self).flags() == with_flags(old(self).flags(), old(first)@.dom().intersect(old(second)@.dom()).intersect(old(third)@.dom()).difference(without@.dom()), false),
            final(first).wf(),
            final(first)@.dom() == old(first)@.dom(),
            forall|e: Entity|
                old(first)@.dom().contains(e) && !(old(first)@.dom().intersect(old(second)@.dom()).intersect(old(third)@.dom()).difference(without@.dom()).contains(e) && flagged(old(self).flags(), e)) ==> #[trigger] final(first)@[e] == old(first)@[e],
            final(second).wf(),
            final(second)@.dom() == old(second)@.dom(),
            forall|e: Entity|
                old(second)@.dom().contains(e) && !(old(first)@.dom().intersect(old(second)@.dom()).intersect(old(third)@.dom()).difference(without@.dom()).contains(e) && flagged(old(self).flags(), e)) ==> #[trigger] final(second)@[e] == old(second)@[e],
            final(third).wf(),
            final(third)@.dom() == old(third)@.dom(),
            forall|e: Entity|
                old(third)@.dom().contains(e) && !(old(first)@.dom().intersect(old(second)@.dom()).intersect(old(third)@.dom()).difference(without@.dom()).contains(e) && flagged(old(self).flags(), e)) ==> #[trigger] final(third)@[e] == old(third)@[e],
            forall|e: Entity|
                #![trigger old(first)@.dom().intersect(old(second)@.dom()).intersect(old(third)@.dom()).difference(without@.dom()).contains(e)]
                old(first)@.dom().intersect(old(second)@.dom()).intersect(old(third)@.dom()).difference(without@.dom()).contains(e) && flagged(old(self).flags(), e) ==> exists|a1: &mut T1, a2: &mut T2, a3: &mut T3|
                    *a1 == old(first)@[e] && *final(a1) == final(first)@[e]
                    && *a2 == old(second)@[e] && *final(a2) == final(second)@[e]
                    && *a3 == old(third)@[e] && *final(a3) == final(third)@[e]
                    && call_ensures(f, (e, a1, a2, a3), ()),
    {
        let ghost f0 = f;
        let mut i: usize = 0;
        while i < first.len()
            invariant
                f == f0,
                without.wf(),
                first.wf(),
                second.wf(),
                third.wf(),
                self.wf(),
                self.next_entity() == old(self).next_entity(),
                i <= first.entities().len(),
                first.entities() == old(first).entities(),
                first@.dom() == old(first)@.dom(),
                second@.dom() == old(second)@.dom(),
                third@.dom() == old(third)@.dom(),
                forall|e: Entity, a1: &mut T1, a2: &mut T2, a3: &mut T3|
                    old(first)@.dom().intersect(old(second)@.dom()).intersect(old(third)@.dom()).difference(without@.dom()).contains(e) && flagged(old(self).flags(), e) && *a1 == old(first)@[e] && *a2 == old(second)@[e] && *a3 == old(third)@[e]
                        ==> call_requires(f, (e, a1, a2, a3)),
                self.flags() == with_flags(old(self).flags(), old(first)@.dom().intersect(old(second)@.dom()).intersect(old(third)@.dom()).difference(without@.dom()).intersect(prefix_set(old(first).entities(), i as int)), false),
                forall|e: Entity|
                    old(first)@.dom().contains(e) && !(old(first)@.dom().intersect(old(second)@.dom()).intersect(old(third)@.dom()).difference(without@.dom()).contains(e) && prefix_set(old(first).entities(), i as int).contains(e) && flagged(old(self).flags(), e)) ==> #[trigger] first@[e] == old(first)@[e],
                forall|e: Entity|
                    old(second)@.dom().contains(e) && !(old(first)@.dom().intersect(old(second)@.dom()).intersect(old(third)@.dom()).difference(without@.dom()).contains(e) && prefix_set(old(first).entities(), i as int).contains(e) && flagged(old(self).flags(), e)) ==> #[trigger] second@[e] == old(second)@[e],
                forall|e: Entity|
                    old(third)@.dom().contains(e) && !(old(first)@.dom().intersect(old(second)@.dom()).intersect(old(third)@.dom()).difference(without@.dom()).contains(e) && prefix_set(old(first).entities(), i as int).contains(e) && flagged(old(self).flags(), e)) ==> #[trigger] third@[e] == old(third)@[e],
                forall|e: Entity|
                    #![trigger prefix_set(old(first).entities(), i as int).contains(e)]
                    old(first)@.dom().intersect(old(second)@.dom()).intersect(old(third)@.dom()).difference(without@.dom()).contains(e) && prefix_set(old(first).entities(), i as int).contains(e) && flagged(old(self).flags(), e) ==> exists|a1: &mut T1, a2: &mut T2, a3: &mut T3|
                        *a1 == old(first)@[e] && *final(a1) == first@[e]
                        && *a2 == old(second)@[e] && *final(a2) == second@[e]
                        && *a3 == old(third)@[e] && *final(a3) == third@[e]
                        && call_ensures(f, (e, a1, a2, a3), ()),
            decreases first.entities().len() - i,
        {
            let e = first.entity_at(i);
            proof {
                lemma_prefix_set(old(first).entities(), i as int);
                first.lemma_prefix_fresh(i as int);
                lemma_selection_step(old(first)@.dom().intersect(old(second)@.dom()).intersect(old(third)@.dom()).difference(without@.dom()), old(first).entities(), i as int);
                first.lemma_wf();
                second.lemma_wf();
                third.lemma_wf();
                lemma_with_flags_step(old(self).flags(), old(first)@.dom().intersect(old(second)@.dom()).intersect(old(third)@.dom()).difference(without@.dom()).intersect(prefix_set(old(first).entities(), i as int)), false, e);
                assert(first@.dom().contains(first.entities()[i as int]));
            }
            if without.find(e).is_none() {
                if let Some(j_second) = second.find(e) {
                    if let Some(j_third) = third.find(e) {
                        if self.is_flagged(e) {
                            f(e, first.write_at(i), second.write_at(j_second), third.write_at(j_third));
                            self.mark(e, false);
                        }
                    }
                }
            }
            i = i + 1;
        }
        proof {
            first.lemma_wf();
            lemma_selection_all(old(first)@.dom().intersect(old(second)@.dom()).intersect(old(third)@.dom()).difference(without@.dom()), old(first).entities());
        }
    }

}

} // verus!
