//! The store: entity handles, and the tables that hold their components.
use vstd::prelude::*;
use core::any::TypeId;
use crate::archetype::{Archetype, ArchetypeView};
use crate::bundle::{
    canonicalize, keys_of, lemma_listed_keys, lemma_same_components, lists_in_order, staged,
    ComponentSet,
};
use crate::cell::{Cell, Component};
use crate::entity::{Entity, EntityIndex, Location};
use crate::registry::{index_entries, index_get, index_insert, index_new, ArchetypeIndex};
use crate::type_info::{ranks, strictly_increasing, type_rank, TypeInfo};

verus! {

/// Every table is well-formed and has a value in every slot.
spec fn tables_full(tables: Seq<Archetype>) -> bool {
    forall|a: int| 0 <= a < tables.len() ==> (#[trigger] tables[a])@.wf() && tables[a]@.full()
}

/// The index holds each table under its own keys, and nothing else.
spec fn indexed(tables: Seq<Archetype>, index: Map<Seq<int>, usize>) -> bool {
    &&& forall|a: int|
        0 <= a < tables.len() ==> index.contains_key(#[trigger] tables[a]@.keys())
            && index[tables[a]@.keys()] == a
    &&& forall|k: Seq<int>| #[trigger]
        index.contains_key(k) ==> index[k] < tables.len() && tables[index[k] as int]@.keys() == k
}

/// Every valid handle points at a row that names its id.
spec fn located(entities: EntityIndex, tables: Seq<Archetype>) -> bool {
    forall|e: Entity| #[trigger]
        entities@.contains_key(e) ==> {
            let at = entities@[e];
            &&& at.archetype < tables.len()
            &&& at.row < tables[at.archetype as int]@.len()
            &&& tables[at.archetype as int]@.entities[at.row as int] == e.spec_id()
        }
}

/// Every row names the id of a valid handle that points at it.
spec fn owned(entities: EntityIndex, tables: Seq<Archetype>) -> bool {
    forall|a: int, r: int|
        0 <= a < tables.len() && 0 <= r < tables[a]@.len() ==> {
            let e = entities.handle(#[trigger] tables[a]@.entities[r]);
            &&& entities@.contains_key(e)
            &&& entities@[e].archetype == a
            &&& entities@[e].row == r
        }
}

/// The components of each valid handle: those of the row that it points at.
spec fn components(entities: EntityIndex, tables: Seq<Archetype>) -> Map<
    Entity,
    Map<int, Cell>,
> {
    Map::new(
        |e: Entity| entities@.contains_key(e),
        |e: Entity| tables[entities@[e].archetype as int]@.row(entities@[e].row as int),
    )
}

/// A store of entities and their components.
pub struct World {
    entities: EntityIndex,
    archetypes: Vec<Archetype>,
    archetype_index: ArchetypeIndex,
}

impl View for World {
    type V = Map<Entity, Map<int, Cell>>;

    /// The live entities, each with its components by the key of their
    /// type.
    closed spec fn view(&self) -> Map<Entity, Map<int, Cell>> {
        components(self.entities, self.archetypes@)
    }
}

impl World {
    /// The store is consistent: handles, tables and the index of tables
    /// agree with each other.
    pub closed spec fn wf(&self) -> bool {
        &&& self.entities.wf()
        &&& tables_full(self.archetypes@)
        &&& indexed(self.archetypes@, index_entries(self.archetype_index))
        &&& located(self.entities, self.archetypes@)
        &&& owned(self.entities, self.archetypes@)
    }

    /// The handles that were live once and were despawned.
    pub closed spec fn retired(&self) -> Set<Entity> {
        self.entities.retired()
    }

    /// The number of tables.
    pub closed spec fn archetype_count(&self) -> nat {
        self.archetypes@.len()
    }

    /// What table `a` holds.
    pub closed spec fn table(&self, a: int) -> ArchetypeView {
        self.archetypes@[a]@
    }

    /// The keys of the component types of table `a`, in canonical order.
    pub open spec fn signature(&self, a: int) -> Seq<int> {
        self.table(a).keys()
    }

    /// The table that holds the components of `e`.
    pub closed spec fn archetype_of(&self, e: Entity) -> int {
        self.entities@[e].archetype as int
    }

    /// The row of its table that holds the components of `e`.
    pub closed spec fn row_of(&self, e: Entity) -> int {
        self.entities@[e].row as int
    }

    /// Whether one more entity can be spawned: an id waits to be reused, or
    /// a new one still fits in 32 bits.
    pub open spec fn has_room(&self) -> bool {
        self.free_ids().len() > 0 || self.ids() <= u32::MAX
    }

    /// The handle that the next spawn returns.
    pub closed spec fn next_handle(&self) -> Entity {
        self.entities.next_handle()
    }

    /// The number of ids that were ever handed out.
    pub closed spec fn ids(&self) -> nat {
        self.entities.ids()
    }

    /// The ids that wait to be handed out again; the last one goes first.
    pub closed spec fn free_ids(&self) -> Seq<u32> {
        self.entities.free_ids()
    }

    /// The generation that `id` is in.
    pub closed spec fn generation_of(&self, id: u32) -> u32 {
        self.entities.generation_of(id)
    }

    /// What the next handle is: that of the id freed last, in the
    /// generation that this id is in; where no id waits, that of a new id,
    /// in generation 0.
    pub proof fn lemma_next_handle(&self)
        ensures
            self.free_ids().len() > 0 ==> self.next_handle() == Entity::from_parts(
                self.free_ids().last(),
                self.generation_of(self.free_ids().last()),
            ),
            self.free_ids().len() == 0 && self.ids() <= u32::MAX ==> self.next_handle()
                == Entity::from_parts(self.ids() as u32, 0),
    {
        self.entities.lemma_next_handle();
        if self.free_ids().len() > 0 {
            self.entities.lemma_handle_id(self.free_ids().last());
            Entity::lemma_equal(self.next_handle(), self.next_handle());
            Entity::lemma_from_parts(self.free_ids().last(), self.generation_of(self.free_ids().last()));
            Entity::lemma_equal(
                self.next_handle(),
                Entity::from_parts(self.free_ids().last(), self.generation_of(self.free_ids().last())),
            );
        } else if self.ids() <= u32::MAX {
            Entity::lemma_from_parts(self.ids() as u32, 0);
            Entity::lemma_equal(self.next_handle(), Entity::from_parts(self.ids() as u32, 0));
        }
    }

    /// A live entity is in a row of a table of the store. The row names
    /// the id of the handle and holds the components of the entity.
    pub proof fn lemma_location(&self, e: Entity)
        requires
            self.wf(),
            self@.contains_key(e),
        ensures
            0 <= self.archetype_of(e) < self.archetype_count(),
            0 <= self.row_of(e) < self.table(self.archetype_of(e)).len(),
            self.table(self.archetype_of(e)).entities[self.row_of(e)] == e.spec_id(),
            self@[e] == self.table(self.archetype_of(e)).row(self.row_of(e)),
    {
        self.lemma_row_owner(e);
    }

    /// Every table is well-formed and full, and each of its rows holds the
    /// components of one live entity: the one whose id the row names.
    pub proof fn lemma_row(&self, a: int, r: int)
        requires
            self.wf(),
            0 <= a < self.archetype_count(),
            0 <= r < self.table(a).len(),
        ensures
            self.table(a).wf(),
            self.table(a).full(),
            ({
                let id = self.table(a).entities[r];
                let e = Entity::from_parts(id, self.generation_of(id));
                &&& self@.contains_key(e)
                &&& self.archetype_of(e) == a
                &&& self.row_of(e) == r
            }),
    {
        let id = self.archetypes@[a]@.entities[r];
        let e = self.entities.handle(id);
        assert(self.entities@.contains_key(e));
        self.entities.lemma_handle_id(id);
        Entity::lemma_from_parts(id, self.generation_of(id));
        Entity::lemma_equal(e, Entity::from_parts(id, self.generation_of(id)));
    }

    /// The ids that wait were handed out, belong to no live entity, and
    /// each waits once.
    pub proof fn lemma_free_ids(&self, i: int, j: int, e: Entity)
        requires
            self.wf(),
            0 <= i < self.free_ids().len(),
            0 <= j < self.free_ids().len(),
        ensures
            self.free_ids()[i] < self.ids(),
            self@.contains_key(e) ==> e.spec_id() != self.free_ids()[i],
            i != j ==> self.free_ids()[i] != self.free_ids()[j],
    {
        self.entities.lemma_free_ids(i, j);
        if self@.contains_key(e) {
            self.entities.lemma_valid_handle(e);
            self.entities.lemma_is_live(e.spec_id());
        }
    }

    /// A live handle is of an id that was handed out, in the generation
    /// that this id is in.
    pub proof fn lemma_live_handle(&self, e: Entity)
        requires
            self@.contains_key(e),
        ensures
            e.spec_id() < self.ids(),
            self.generation_of(e.spec_id()) == e.spec_generation(),
    {
        self.entities.lemma_valid_handle(e);
    }

    /// What a spawn does: `e` was neither live nor ever despawned, and is now
    /// live with the components that `cells` stage. Every other entity is
    /// as it was.
    pub open spec fn spawned(pre: &World, cells: Seq<Cell>, e: Entity, post: &World) -> bool {
        &&& post.wf()
        &&& !pre@.contains_key(e)
        &&& !pre.retired().contains(e)
        &&& post@ == pre@.insert(e, staged(cells))
        &&& post.retired() == pre.retired()
    }

    /// What a despawn does: it succeeds exactly on a live handle, which is
    /// then live no more and counts as despawned for ever. Every other
    /// entity is as it was.
    pub open spec fn despawned(pre: &World, e: Entity, done: bool, post: &World) -> bool {
        &&& post.wf()
        &&& done == pre@.contains_key(e)
        &&& post@ == pre@.remove(e)
        &&& post.retired() == (if done {
            pre.retired().insert(e)
        } else {
            pre.retired()
        })
    }

    /// One spawn or one despawn leads from `pre` to `post`.
    pub open spec fn step(pre: &World, post: &World) -> bool {
        ||| exists|cells: Seq<Cell>, e: Entity| World::spawned(pre, cells, e, post)
        ||| exists|e: Entity, done: bool| World::despawned(pre, e, done, post)
    }

    /// One spawn or one despawn leads from state `k` to the next.
    pub open spec fn steps_at(states: Seq<World>, k: int) -> bool {
        World::step(&states[k], &states[k + 1])
    }

    /// A history: the states of a store that starts consistent and goes
    /// through spawns and despawns.
    pub open spec fn is_history(states: Seq<World>) -> bool {
        &&& states.len() > 0
        &&& states[0].wf()
        &&& forall|k: int| 0 <= k < states.len() - 1 ==> #[trigger] World::steps_at(states, k)
    }

    /// A handle that was despawned is not live.
    pub proof fn lemma_despawned_is_dead(&self, e: Entity)
        requires
            self.wf(),
            self.retired().contains(e),
        ensures
            !self@.contains_key(e),
    {
        self.entities.lemma_retired_is_invalid(e);
    }

    /// A second despawn of the same handle fails and changes nothing.
    pub proof fn lemma_despawn_once(first: &World, e: Entity, second: &World, again: bool, third: &World)
        requires
            first@.contains_key(e),
            World::despawned(first, e, true, second),
            World::despawned(second, e, again, third),
        ensures
            !again,
            third@ == second@,
            third.retired() == second.retired(),
    {
        assert(third@ =~= second@);
    }

    /// Every state of a history is consistent, and what was despawned at one
    /// state is despawned at every later one.
    pub proof fn lemma_history(states: Seq<World>, i: int, j: int)
        requires
            World::is_history(states),
            0 <= i <= j < states.len(),
        ensures
            states[j].wf(),
            states[i].retired().subset_of(states[j].retired()),
        decreases j,
    {
        if j > 0 {
            let pre = &states[j - 1];
            let post = &states[j];
            assert(World::steps_at(states, j - 1));
            if i < j {
                World::lemma_history(states, i, j - 1);
            }
        }
    }

    /// After a despawn the handle and its copies are live at no later
    /// state, whatever is spawned, and even where the id is handed out
    /// again.
    pub proof fn lemma_despawned_for_ever(states: Seq<World>, i: int, j: int, e: Entity)
        requires
            World::is_history(states),
            0 <= i < j < states.len(),
            World::despawned(&states[i], e, true, &states[i + 1]),
        ensures
            !states[j]@.contains_key(e),
    {
        World::lemma_history(states, i + 1, j);
        assert(states[i + 1].retired().contains(e));
        states[j].lemma_despawned_is_dead(e);
    }

    /// A handle that is live from one state of a history to a later one
    /// resolves to the same components at both: those that it was spawned
    /// with.
    pub proof fn lemma_components_persist(states: Seq<World>, i: int, j: int, e: Entity)
        requires
            World::is_history(states),
            0 <= i <= j < states.len(),
            forall|k: int| i <= k <= j ==> (#[trigger] states[k])@.contains_key(e),
        ensures
            states[j]@[e] == states[i]@[e],
        decreases j - i,
    {
        if i < j {
            World::lemma_components_persist(states, i, j - 1, e);
            let pre = &states[j - 1];
            let post = &states[j];
            assert(World::steps_at(states, j - 1));
            assert(pre@.contains_key(e));
            assert(post@.contains_key(e));
        }
    }

    /// A despawn leaves the components of every other live entity as they
    /// were, and the entity live.
    pub proof fn lemma_despawn_spares(pre: &World, e: Entity, done: bool, post: &World, other: Entity)
        requires
            World::despawned(pre, e, done, post),
            pre@.contains_key(other),
            other != e,
        ensures
            post@.contains_key(other),
            post@[other] == pre@[other],
    {
    }

    /// The component types of a live entity are those of its table.
    pub proof fn lemma_types_of(&self, e: Entity)
        requires
            self.wf(),
            self@.contains_key(e),
        ensures
            0 <= self.archetype_of(e) < self.archetype_count(),
            self.signature(self.archetype_of(e)).to_set() == self@[e].dom(),
    {
        self.lemma_row_owner(e);
        let at = self.entities@[e];
        let table = self.archetypes@[at.archetype as int]@;
        let row = at.row as int;
        let keys = table.keys();
        assert(table.wf() && table.full());
        assert(table.row_full(row));
        assert forall|key: int| keys.to_set().contains(key) == table.row(row).dom().contains(key) by {
            if keys.contains(key) {
                let c = choose|c: int| 0 <= c < keys.len() && keys[c] == key;
                table.lemma_column_of(c);
                assert(table.columns[c][row] is Some);
            }
            if table.row(row).contains_key(key) {
                let c = table.column_of(key);
                assert(keys[c] == key);
            }
        }
        assert(keys.to_set() =~= table.row(row).dom());
    }

    /// Entities with the same component types are in the same table,
    /// whatever the order in which their components were supplied.
    pub proof fn lemma_same_types_same_archetype(&self, a: Entity, b: Entity)
        requires
            self.wf(),
            self@.contains_key(a),
            self@.contains_key(b),
            self@[a].dom() == self@[b].dom(),
        ensures
            self.archetype_of(a) == self.archetype_of(b),
    {
        self.lemma_types_of(a);
        self.lemma_types_of(b);
        self.lemma_signatures(self.archetype_of(a), self.archetype_of(b));
    }

    /// An empty store.
    pub fn new() -> (world: World)
        ensures
            world.wf(),
            world@ == Map::<Entity, Map<int, Cell>>::empty(),
            world.retired() == Set::<Entity>::empty(),
            world.archetype_count() == 0,
            world.ids() == 0,
            world.free_ids() == Seq::<u32>::empty(),
            world.has_room(),
            world.next_handle().spec_id() == 0,
            world.next_handle().spec_generation() == 0,
    {
        let world = World {
            entities: EntityIndex::new(),
            archetypes: Vec::new(),
            archetype_index: index_new(),
        };
        proof {
            assert(world@ =~= Map::<Entity, Map<int, Cell>>::empty());
            world.entities.lemma_next_handle();
        }
        world
    }

    /// Whether one more entity can be spawned.
    pub fn can_spawn(&self) -> (r: bool)
        ensures
            r == self.has_room(),
    {
        self.entities.can_allocate()
    }

    /// The tables, one for each set of component types that was ever
    /// spawned.
    pub fn archetypes(&self) -> (tables: &Vec<Archetype>)
        requires
            self.wf(),
        ensures
            tables@.len() == self.archetype_count(),
            forall|a: int| 0 <= a < tables@.len() ==> (#[trigger] tables@[a])@ == self.table(a),
            forall|a: int| 0 <= a < tables@.len() ==> (#[trigger] tables@[a])@.wf() && tables@[a]@.full(),
    {
        &self.archetypes
    }

    /// Where the components of `entity` are: its table and its row there.
    /// `None` where the handle is not live.
    pub fn location(&self, entity: Entity) -> (at: Option<Location>)
        requires
            self.wf(),
        ensures
            at is Some == self@.contains_key(entity),
            at matches Some(found) ==> {
                &&& found.archetype == self.archetype_of(entity)
                &&& found.row == self.row_of(entity)
                &&& found.archetype < self.archetype_count()
                &&& found.row < self.table(found.archetype as int).len()
                &&& self.table(found.archetype as int).entities[found.row as int] == entity.spec_id()
            },
    {
        proof {
            if self.entities@.contains_key(entity) {
                self.lemma_row_owner(entity);
            }
        }
        self.entities.locate(entity)
    }

    /// Whether `entity` is live.
    pub fn contains(&self, entity: Entity) -> (live: bool)
        ensures
            live == self@.contains_key(entity),
    {
        self.entities.locate(entity).is_some()
    }

    /// Tables that name the same ids in the same rows, and new tables
    /// without rows, agree with the handles as the old tables did.
    proof fn lemma_rows_kept(&self, tables: Seq<Archetype>)
        requires
            self.wf(),
            tables.len() >= self.archetypes@.len(),
            forall|j: int|
                0 <= j < self.archetypes@.len() ==>
                    (#[trigger] tables[j])@.entities == self.archetypes@[j]@.entities,
            forall|j: int| self.archetypes@.len() <= j < tables.len() ==> (#[trigger] tables[j])@.len() == 0,
        ensures
            located(self.entities, tables),
            owned(self.entities, tables),
    {
        assert forall|e: Entity| #[trigger] self.entities@.contains_key(e) implies {
            let at = self.entities@[e];
            &&& at.archetype < tables.len()
            &&& at.row < tables[at.archetype as int]@.len()
            &&& tables[at.archetype as int]@.entities[at.row as int] == e.spec_id()
        } by {
            let at = self.entities@[e];
            assert(tables[at.archetype as int]@.entities == self.archetypes@[at.archetype as int]@.entities);
        }
        assert forall|j: int, r: int| 0 <= j < tables.len() && 0 <= r < tables[j]@.len() implies {
            let e = self.entities.handle(#[trigger] tables[j]@.entities[r]);
            &&& self.entities@.contains_key(e)
            &&& self.entities@[e].archetype == j
            &&& self.entities@[e].row == r
        } by {
            assert(j < self.archetypes@.len());
            assert(tables[j]@.entities[r] == self.archetypes@[j]@.entities[r]);
        }
    }

    /// The number of the table for the component types of `ordered`, which
    /// is made first where the store has none.
    fn archetype_for(&mut self, ordered: &Vec<Cell>) -> (a: usize)
        requires
            old(self).wf(),
            strictly_increasing(keys_of(ordered@)),
        ensures
            final(self).wf(),
            final(self).entities == old(self).entities,
            final(self)@ == old(self)@,
            a < final(self).archetypes@.len(),
            final(self).archetypes@[a as int]@.keys() == keys_of(ordered@),
            final(self).archetypes@.len() >= old(self).archetypes@.len(),
            forall|i: int|
                0 <= i < old(self).archetypes@.len() ==>
                    final(self).archetypes@[i] == old(self).archetypes@[i],
            final(self).archetypes@.len() == (if exists|i: int|
                0 <= i < old(self).archetypes@.len() && #[trigger] old(self).archetypes@[i]@.keys() == keys_of(
                    ordered@,
                ) {
                old(self).archetypes@.len()
            } else {
                old(self).archetypes@.len() + 1
            }),
    {
        let ghost before = *self;
        let mut ids: Vec<TypeId> = Vec::new();
        let mut infos: Vec<TypeInfo> = Vec::new();
        let mut i: usize = 0;
        while i < ordered.len()
            invariant
                i <= ordered.len(),
                ids@.len() == i,
                infos@.len() == i,
                forall|j: int| 0 <= j < i ==> type_rank(#[trigger] ids@[j]) == ordered@[j].key(),
                forall|j: int| 0 <= j < i ==> (#[trigger] infos@[j]).key() == ordered@[j].key(),
            decreases ordered.len() - i,
        {
            let info = ordered[i].info();
            ids.push(info.id());
            infos.push(info);
            i += 1;
        }
        assert(ranks(ids@) =~= keys_of(ordered@));
        assert(crate::type_info::keys_of_types(infos@) =~= keys_of(ordered@));
        match index_get(&self.archetype_index, &ids) {
            Some(a) => {
                assert(self.archetypes@[a as int]@.keys() == keys_of(ordered@));
                a
            },
            None => {
                let table = Archetype::new(infos);
                assert(table@.keys() =~= keys_of(ordered@));
                let a = self.archetypes.len();
                self.archetypes.push(table);
                index_insert(&mut self.archetype_index, ids, a);
                proof {
                    let tables = self.archetypes@;
                    let index = index_entries(self.archetype_index);
                    assert forall|j: int| 0 <= j < a implies #[trigger] tables[j] == before.archetypes@[j] by {}
                    assert forall|j: int| 0 <= j < before.archetypes@.len() implies (
                    #[trigger] before.archetypes@[j])@.keys() != keys_of(ordered@) by {
                        assert(index_entries(before.archetype_index).contains_key(before.archetypes@[j]@.keys()));
                    }
                    assert(tables_full(tables)) by {
                        assert forall|j: int| 0 <= j < tables.len() implies (#[trigger] tables[j])@.wf()
                            && tables[j]@.full() by {
                            if j < a {
                                assert(tables[j] == before.archetypes@[j]);
                            }
                        }
                    }
                    assert(indexed(tables, index)) by {
                        assert forall|j: int| 0 <= j < tables.len() implies index.contains_key(
                            #[trigger] tables[j]@.keys(),
                        ) && index[tables[j]@.keys()] == j by {
                            if j < a {
                                assert(tables[j] == before.archetypes@[j]);
                                assert(before.archetypes@[j]@.keys() != keys_of(ordered@));
                            }
                        }
                        assert forall|k: Seq<int>| #[trigger] index.contains_key(k) implies index[k]
                            < tables.len() && tables[index[k] as int]@.keys() == k by {
                            if k != keys_of(ordered@) {
                                assert(index_entries(before.archetype_index).contains_key(k));
                                assert(tables[index[k] as int] == before.archetypes@[index[k] as int]);
                            }
                        }
                    }
                    assert(self.entities == before.entities);
                    before.lemma_rows_kept(tables);
                    assert(self@ =~= before@) by {
                        assert forall|e: Entity| self.entities@.contains_key(e) implies #[trigger] self@[e]
                            == before@[e] by {
                            let at = self.entities@[e];
                            assert(tables[at.archetype as int] == before.archetypes@[at.archetype as int]);
                        }
                    }
                }
                a
            },
        }
    }

    /// In a consistent store the keys of every table are in canonical
    /// order, and no two tables have the same keys.
    pub proof fn lemma_signatures(&self, a: int, b: int)
        requires
            self.wf(),
            0 <= a < self.archetype_count(),
            0 <= b < self.archetype_count(),
        ensures
            strictly_increasing(self.signature(a)),
            self.signature(a).to_set() == self.signature(b).to_set() ==> a == b,
    {
        let index = index_entries(self.archetype_index);
        assert(self.archetypes@[a]@.wf());
        assert(self.archetypes@[b]@.wf());
        if self.signature(a).to_set() == self.signature(b).to_set() {
            crate::type_info::lemma_canonical_unique(self.signature(a), self.signature(b));
            assert(index[self.archetypes@[a]@.keys()] == a);
            assert(index[self.archetypes@[b]@.keys()] == b);
        }
    }

    /// A table is for the types of a canonical sequence of keys exactly
    /// when it has those keys.
    proof fn lemma_has_archetype(&self, keys: Seq<int>)
        requires
            self.wf(),
            strictly_increasing(keys),
        ensures
            self.has_archetype(keys.to_set()) <==> exists|i: int|
                0 <= i < self.archetypes@.len() && #[trigger] self.archetypes@[i]@.keys() == keys,
    {
        if self.has_archetype(keys.to_set()) {
            let a = choose|a: int|
                0 <= a < self.archetype_count() && #[trigger] self.signature(a).to_set() == keys.to_set();
            self.lemma_signatures(a, a);
            crate::type_info::lemma_canonical_unique(self.signature(a), keys);
            assert(self.archetypes@[a]@.keys() == keys);
        }
        if exists|i: int| 0 <= i < self.archetypes@.len() && #[trigger] self.archetypes@[i]@.keys() == keys {
            let i = choose|i: int| 0 <= i < self.archetypes@.len() && #[trigger] self.archetypes@[i]@.keys() == keys;
            assert(self.signature(i).to_set() == keys.to_set());
        }
    }

    /// Whether some table is for exactly the component types `types`.
    pub open spec fn has_archetype(&self, types: Set<int>) -> bool {
        exists|a: int| 0 <= a < self.archetype_count() && #[trigger] self.signature(a).to_set() == types
    }

    /// Spawns an entity with the components that `cells` stage: one per
    /// type, the last cell of each type. The entity gets the handle of the
    /// id freed last, or of a new id, and its components go to the table
    /// for exactly its types, which is made first where the store has none.
    /// Every other entity keeps its components and its table.
    pub fn spawn_dynamic(&mut self, cells: Vec<Cell>) -> (e: Entity)
        requires
            old(self).wf(),
            old(self).has_room(),
        ensures
            World::spawned(old(self), cells@, e, final(self)),
            e == old(self).next_handle(),
            final(self).ids() == (if old(self).free_ids().len() > 0 {
                old(self).ids()
            } else {
                old(self).ids() + 1
            }),
            final(self).free_ids() == (if old(self).free_ids().len() > 0 {
                old(self).free_ids().drop_last()
            } else {
                old(self).free_ids()
            }),
            forall|id: u32|
                id < old(self).ids() ==>
                    final(self).generation_of(id) == old(self).generation_of(id),
            final(self).archetype_count() == old(self).archetype_count() + (if old(self).has_archetype(
                staged(cells@).dom(),
            ) {
                0nat
            } else {
                1nat
            }),
            forall|a: int|
                0 <= a < old(self).archetype_count() ==>
                    final(self).signature(a) == old(self).signature(a),
            forall|other: Entity|
                old(self)@.contains_key(other) ==>
                    final(self).archetype_of(other) == old(self).archetype_of(other),
            0 <= final(self).archetype_of(e) < final(self).archetype_count(),
            final(self).signature(final(self).archetype_of(e)).to_set() == staged(cells@).dom(),
            forall|other: Entity|
                old(self)@.contains_key(other) ==> final(self).row_of(other) == old(self).row_of(other),
            final(self).row_of(e) == final(self).table(final(self).archetype_of(e)).len() - 1,
            forall|b: int|
                0 <= b < old(self).archetype_count() && b != final(self).archetype_of(e) ==>
                    final(self).table(b) == old(self).table(b),
            final(self).archetype_of(e) < old(self).archetype_count() ==> final(self).table(
                final(self).archetype_of(e),
            ).len() == old(self).table(final(self).archetype_of(e)).len() + 1,
    {
        let ghost before = *self;
        let ordered = canonicalize(cells);
        let ghost listed = ordered@;
        let a = self.archetype_for(&ordered);
        let ghost mid = *self;
        let row = self.archetypes[a].len();
        let e = self.entities.allocate(Location { archetype: a, row });
        let table = &mut self.archetypes[a];
        let ghost t0 = table@;
        table.allocate(e.id());
        let ghost t1 = table@;
        table.store(row, ordered);
        proof {
            let t2 = self.archetypes@[a as int]@;
            let tables = self.archetypes@;
            let capacity = t1.capacity;
            assert(t0 == mid.archetypes@[a as int]@);
            assert(t0.wf() && t0.full());
            assert(t1 == t0.allocated(e.spec_id(), capacity));
            assert(t1.wf());
            t0.lemma_allocated(e.spec_id(), capacity);
            assert(t2.keys() =~= t0.keys());
            assert forall|j: int| 0 <= j < tables.len() && j != a implies
                #[trigger] tables[j] == mid.archetypes@[j] by {}
            assert forall|r: int| 0 <= r < t0.len() implies #[trigger] t2.row(r) == t0.row(r) && t2.entities[r]
                == t0.entities[r] && t2.row_full(r) by {
                assert(t0.row_full(r));
                assert(t1.row(r) == t0.row(r));
                assert(t1.row_full(r));
                assert(t2.row(r) == t1.row(r));
                assert(t2.row_full(r));
                assert(t2.entities[r] == t1.entities[r]);
            }
            assert(tables_full(tables)) by {
                assert forall|j: int| 0 <= j < tables.len() implies (#[trigger] tables[j])@.wf()
                    && tables[j]@.full() by {
                    if j == a {
                        assert forall|r: int|
                            0 <= r < t2.entities.len() implies
                            #[trigger] t2.row_full(r) by {
                            if r < t0.len() {
                                assert(t2.row(r) == t0.row(r));
                            }
                        }
                    } else {
                        assert(tables[j] == mid.archetypes@[j]);
                    }
                }
            }
            let index = index_entries(self.archetype_index);
            assert(indexed(tables, index)) by {
                assert forall|j: int| 0 <= j < tables.len() implies index.contains_key(
                    #[trigger] tables[j]@.keys(),
                ) && index[tables[j]@.keys()] == j by {
                    assert(tables[j]@.keys() == mid.archetypes@[j]@.keys());
                }
                assert forall|k: Seq<int>| #[trigger] index.contains_key(k) implies index[k] < tables.len()
                    && tables[index[k] as int]@.keys() == k by {
                    assert(tables[index[k] as int]@.keys() == mid.archetypes@[index[k] as int]@.keys());
                }
            }
            assert(located(self.entities, tables)) by {
                assert forall|x: Entity| #[trigger] self.entities@.contains_key(x) implies {
                    let at = self.entities@[x];
                    &&& at.archetype < tables.len()
                    &&& at.row < tables[at.archetype as int]@.len()
                    &&& tables[at.archetype as int]@.entities[at.row as int] == x.spec_id()
                } by {
                    if x != e {
                        assert(mid.entities@.contains_key(x));
                        let at = mid.entities@[x];
                        if at.archetype == a {
                            assert(t2.row(at.row as int) == t0.row(at.row as int));
                        } else {
                            assert(tables[at.archetype as int] == mid.archetypes@[at.archetype as int]);
                        }
                    }
                }
            }
            assert(owned(self.entities, tables)) by {
                assert forall|j: int, r: int| 0 <= j < tables.len() && 0 <= r < tables[j]@.len() implies {
                    let x = self.entities.handle(#[trigger] tables[j]@.entities[r]);
                    &&& self.entities@.contains_key(x)
                    &&& self.entities@[x].archetype == j
                    &&& self.entities@[x].row == r
                } by {
                    if j == a && r == row {
                    } else {
                        if j == a {
                            assert(t2.row(r) == t0.row(r));
                        } else {
                            assert(tables[j] == mid.archetypes@[j]);
                        }
                        let id = mid.archetypes@[j]@.entities[r];
                        assert(tables[j]@.entities[r] == id);
                        let x = mid.entities.handle(id);
                        assert(mid.entities@.contains_key(x));
                        mid.entities.lemma_valid_handle(x);
                        mid.entities.lemma_handle_id(id);
                    }
                }
            }
            assert(self@ =~= before@.insert(e, staged(cells@))) by {
                lemma_same_components(listed, t2.row(row as int), staged(cells@));
                assert forall|x: Entity| self.entities@.contains_key(x) && x != e implies #[trigger] self@[x]
                    == mid@[x] by {
                    let at = mid.entities@[x];
                    if at.archetype == a {
                        assert(t2.row(at.row as int) == t0.row(at.row as int));
                    } else {
                        assert(tables[at.archetype as int] == mid.archetypes@[at.archetype as int]);
                    }
                }
            }
            lemma_listed_keys(listed, staged(cells@));
            assert(self.signature(a as int).to_set() == staged(cells@).dom());
            assert forall|j: int|
                0 <= j < before.archetype_count() implies
                self.signature(j) == before.signature(j) by {
                assert(mid.archetypes@[j] == before.archetypes@[j]);
                assert(tables[j]@.keys() == mid.archetypes@[j]@.keys());
            }
            before.lemma_has_archetype(keys_of(listed));
        }
        e
    }

    /// Two valid handles that point at the same row are one handle.
    proof fn lemma_row_owner(&self, x: Entity)
        requires
            self.wf(),
            self.entities@.contains_key(x),
        ensures
            self.entities@[x].archetype < self.archetypes@.len(),
            self.entities@[x].row < self.archetypes@[self.entities@[x].archetype as int]@.len(),
            self.entities.handle(
                self.archetypes@[self.entities@[x].archetype as int]@.entities[self.entities@[x].row as int],
            ) == x,
    {
        self.entities.lemma_valid_handle(x);
    }

    /// Despawns the entity of `entity` and drops its components. Returns
    /// whether `entity` was live; where it was not, nothing changes. The
    /// handle and its copies are never live again. Every other entity keeps
    /// its components and its table, and the store keeps its tables.
    pub fn despawn(&mut self, entity: Entity) -> (despawned: bool)
        requires
            old(self).wf(),
        ensures
            World::despawned(old(self), entity, despawned, final(self)),
            final(self).archetype_count() == old(self).archetype_count(),
            forall|a: int|
                0 <= a < old(self).archetype_count() ==>
                    final(self).signature(a) == old(self).signature(a),
            forall|other: Entity|
                old(self)@.contains_key(other) && other != entity ==> final(self).archetype_of(other)
                    == old(self).archetype_of(other),
            final(self).has_room() == (old(self).has_room() || (despawned && entity.spec_generation()
                < u32::MAX)),
            final(self).ids() == old(self).ids(),
            final(self).free_ids() == (if despawned && entity.spec_generation() < u32::MAX {
                old(self).free_ids().push(entity.spec_id())
            } else {
                old(self).free_ids()
            }),
            forall|id: u32|
                id < old(self).ids() ==> final(self).generation_of(id) == (if despawned && id
                    == entity.spec_id() && entity.spec_generation() < u32::MAX {
                    (entity.spec_generation() + 1) as u32
                } else {
                    old(self).generation_of(id)
                }),
            final(self).next_handle() == (if despawned && entity.spec_generation() < u32::MAX {
                Entity::from_parts(entity.spec_id(), (entity.spec_generation() + 1) as u32)
            } else {
                old(self).next_handle()
            }),
            despawned ==> final(self).table(old(self).archetype_of(entity)) == old(self).table(
                old(self).archetype_of(entity),
            ).removed(old(self).row_of(entity)),
            forall|b: int|
                0 <= b < old(self).archetype_count() && !(despawned && b == old(self).archetype_of(entity))
                    ==> final(self).table(b) == old(self).table(b),
            forall|other: Entity|
                despawned && old(self)@.contains_key(other) && other != entity ==> final(self).row_of(other)
                    == (if old(self).archetype_of(other) == old(self).archetype_of(entity) && old(
                    self,
                ).row_of(other) == old(self).table(old(self).archetype_of(entity)).len() - 1 {
                    old(self).row_of(entity)
                } else {
                    old(self).row_of(other)
                }),
    {
        let ghost before = *self;
        match self.entities.release(entity) {
            None => {
                proof {
                    assert(self.entities == before.entities);
                    assert(self@ =~= before@.remove(entity));
                }
                false
            },
            Some(at) => {
                let ghost released = self.entities;
                proof {
                    before.lemma_row_owner(entity);
                    before.entities.lemma_valid_handle(entity);
                }
                let table = &mut self.archetypes[at.archetype];
                let ghost t0 = table@;
                let moved = table.remove(at.row);
                proof {
                    t0.lemma_removed(at.row as int);
                    if at.row < t0.len() - 1 {
                        let id = t0.entities.last();
                        let h = before.entities.handle(id);
                        assert(id == before.archetypes@[at.archetype as int]@.entities[t0.len() - 1]);
                        assert(before.entities@.contains_key(h));
                        assert(before.entities@[h].row == t0.len() - 1);
                        before.entities.lemma_valid_handle(h);
                        before.entities.lemma_handle_id(id);
                        assert(h != entity);
                        assert(released@.contains_key(h));
                        assert(released.handle(id) == h);
                        released.lemma_is_live(id);
                    }
                }
                match moved {
                    Ok(Some(id)) => {
                        self.entities.relocate(id, at);
                    },
                    _ => {},
                }
                proof {
                    let a = at.archetype as int;
                    let row = at.row as int;
                    let last = t0.len() - 1;
                    let t2 = self.archetypes@[a]@;
                    let tables = self.archetypes@;
                    let index = index_entries(self.archetype_index);
                    assert(t2 == t0.removed(row));
                    assert forall|j: int| 0 <= j < tables.len() && j != a implies
                        #[trigger] tables[j] == before.archetypes@[j] by {}
                    assert(forall|id: u32|
                        id < before.entities.ids() && id != entity.spec_id() ==>
                            self.entities.handle(id) == before.entities.handle(id));
                    assert(tables_full(tables)) by {
                        assert forall|j: int| 0 <= j < tables.len() implies (#[trigger] tables[j])@.wf()
                            && tables[j]@.full() by {
                            if j != a {
                                assert(tables[j] == before.archetypes@[j]);
                            }
                        }
                    }
                    assert(indexed(tables, index)) by {
                        assert forall|j: int| 0 <= j < tables.len() implies index.contains_key(
                            #[trigger] tables[j]@.keys(),
                        ) && index[tables[j]@.keys()] == j by {
                            assert(tables[j]@.keys() == before.archetypes@[j]@.keys());
                        }
                        assert forall|k: Seq<int>| #[trigger] index.contains_key(k) implies index[k]
                            < tables.len() && tables[index[k] as int]@.keys() == k by {
                            assert(tables[index[k] as int]@.keys() == before.archetypes@[index[k] as int]@.keys());
                        }
                    }
                    // where each remaining entity was, and where it is now
                    assert forall|x: Entity| #[trigger] self.entities@.contains_key(x) implies {
                        let was = before.entities@[x];
                        let now = self.entities@[x];
                        &&& before.entities@.contains_key(x)
                        &&& x != entity
                        &&& now.archetype == was.archetype
                        &&& now.archetype < tables.len()
                        &&& now.row < tables[now.archetype as int]@.len()
                        &&& tables[now.archetype as int]@.entities[now.row as int] == x.spec_id()
                        &&& tables[now.archetype as int]@.row(now.row as int)
                            == before.archetypes@[was.archetype as int]@.row(was.row as int)
                    } by {
                        assert(before.entities@.contains_key(x));
                        before.lemma_row_owner(x);
                        let was = before.entities@[x];
                        if was.archetype == a {
                            if was.row == row {
                                assert(x == entity);
                            }
                            if was.row == last {
                                assert(row < last);
                                assert(self.entities@[x] == at);
                            }
                        } else {
                            assert(tables[was.archetype as int] == before.archetypes@[was.archetype as int]);
                        }
                    }
                    assert(located(self.entities, tables));
                    assert(owned(self.entities, tables)) by {
                        assert forall|j: int, r: int| 0 <= j < tables.len() && 0 <= r < tables[j]@.len() implies {
                            let x = self.entities.handle(#[trigger] tables[j]@.entities[r]);
                            &&& self.entities@.contains_key(x)
                            &&& self.entities@[x].archetype == j
                            &&& self.entities@[x].row == r
                        } by {
                            let r0 = if j == a && r == row { last } else { r };
                            if j != a {
                                assert(tables[j] == before.archetypes@[j]);
                            }
                            let id = before.archetypes@[j]@.entities[r0];
                            assert(tables[j]@.entities[r] == id);
                            let x = before.entities.handle(id);
                            assert(before.entities@.contains_key(x));
                            before.entities.lemma_valid_handle(x);
                            before.entities.lemma_handle_id(id);
                            assert(x != entity);
                            assert(id != entity.spec_id());
                        }
                    }
                    assert(self@ =~= before@.remove(entity));
                    assert forall|j: int|
                        0 <= j < before.archetype_count() implies
                        self.signature(j) == before.signature(j) by {
                        assert(tables[j]@.keys() == before.archetypes@[j]@.keys());
                    }
                }
                true
            },
        }
    }

    /// The component of type `ty` of the entity of `entity`: `None` where
    /// the handle is not live or the entity has no such component.
    pub fn get_dynamic(&self, entity: Entity, ty: &TypeInfo) -> (cell: Option<&Cell>)
        requires
            self.wf(),
        ensures
            match cell {
                Some(c) => self@.contains_key(entity) && self@[entity].contains_key(ty.key())
                    && self@[entity][ty.key()] == *c,
                None => !(self@.contains_key(entity) && self@[entity].contains_key(ty.key())),
            },
    {
        match self.entities.locate(entity) {
            None => None,
            Some(at) => {
                proof {
                    self.lemma_row_owner(entity);
                }
                self.archetypes[at.archetype].get_dynamic(ty, at.row)
            },
        }
    }

    /// The component of type `T` of the entity of `entity`: `None` where
    /// the handle is not live or the entity has no component for the
    /// descriptor that `TypeInfo::of` gives for `T`. Else the result is
    /// what `Cell::downcast_ref` gives on that component.
    pub fn get<T: Component>(&self, entity: Entity) -> (value: Option<&T>)
        requires
            self.wf(),
        ensures
            value is Some ==> self@.contains_key(entity),
            exists|ty: TypeInfo| #[trigger]
                call_ensures(TypeInfo::of::<T>, (), ty) && (if self@.contains_key(entity)
                    && self@[entity].contains_key(ty.key()) {
                    call_ensures(Cell::downcast_ref::<T>, (&self@[entity][ty.key()],), value)
                } else {
                    value is None
                }),
    {
        let ty = TypeInfo::of::<T>();
        match self.get_dynamic(entity, &ty) {
            Some(cell) => cell.downcast_ref::<T>(),
            None => None,
        }
    }

    /// Spawns an entity with the components of a bundle. See
    /// `spawn_dynamic`, which this calls with the cells that the bundle
    /// hands over.
    pub fn spawn<B: ComponentSet>(&mut self, components: B) -> (e: Entity)
        requires
            old(self).wf(),
            old(self).has_room(),
        ensures
            exists|cells: Vec<Cell>| #[trigger]
                call_ensures(B::into_cells, (components,), cells) && World::spawned(
                    old(self),
                    cells@,
                    e,
                    final(self),
                ),
            e == old(self).next_handle(),
            final(self).ids() == (if old(self).free_ids().len() > 0 {
                old(self).ids()
            } else {
                old(self).ids() + 1
            }),
            final(self).free_ids() == (if old(self).free_ids().len() > 0 {
                old(self).free_ids().drop_last()
            } else {
                old(self).free_ids()
            }),
            forall|id: u32|
                id < old(self).ids() ==>
                    final(self).generation_of(id) == old(self).generation_of(id),
            final(self).archetype_count() == old(self).archetype_count() + (if old(self).has_archetype(
                final(self)@[e].dom(),
            ) {
                0nat
            } else {
                1nat
            }),
            forall|a: int|
                0 <= a < old(self).archetype_count() ==>
                    final(self).signature(a) == old(self).signature(a),
            forall|other: Entity|
                old(self)@.contains_key(other) ==>
                    final(self).archetype_of(other) == old(self).archetype_of(other),
            0 <= final(self).archetype_of(e) < final(self).archetype_count(),
            final(self).signature(final(self).archetype_of(e)).to_set() == final(self)@[e].dom(),
            forall|other: Entity|
                old(self)@.contains_key(other) ==> final(self).row_of(other) == old(self).row_of(other),
            final(self).row_of(e) == final(self).table(final(self).archetype_of(e)).len() - 1,
            forall|b: int|
                0 <= b < old(self).archetype_count() && b != final(self).archetype_of(e) ==>
                    final(self).table(b) == old(self).table(b),
            final(self).archetype_of(e) < old(self).archetype_count() ==> final(self).table(
                final(self).archetype_of(e),
            ).len() == old(self).table(final(self).archetype_of(e)).len() + 1,
    {
        let cells = components.into_cells();
        let ghost handed = cells;
        let e = self.spawn_dynamic(cells);
        assert(call_ensures(B::into_cells, (components,), handed) && World::spawned(
            old(self),
            handed@,
            e,
            self,
        ));
        e
    }

    /// Table `a` after a write to one component of `row` that keeps the
    /// table's shape.
    spec fn rewritten(before: ArchetypeView, row: int, after: ArchetypeView) -> bool {
        &&& after.wf()
        &&& after.types == before.types
        &&& after.entities == before.entities
        &&& (before.full() ==> after.full())
        &&& forall|r: int| 0 <= r < before.len() && r != row ==> #[trigger] after.row(r) == before.row(r)
        &&& after.row(row).dom() == before.row(row).dom()
    }

    /// With `tables` for its tables the store is consistent, has the same
    /// live entities with the same component types, and differs at most in
    /// the components of `entity`.
    spec fn kept_but(&self, tables: Seq<Archetype>, entity: Entity) -> bool {
        &&& tables_full(tables)
        &&& indexed(tables, index_entries(self.archetype_index))
        &&& located(self.entities, tables)
        &&& owned(self.entities, tables)
        &&& components(self.entities, tables).dom() == self@.dom()
        &&& components(self.entities, tables)[entity].dom() == self@[entity].dom()
        &&& forall|other: Entity|
            self@.contains_key(other) && other != entity ==> components(self.entities, tables)[other]
                == self@[other]
        &&& forall|a: int|
            0 <= a < tables.len() ==> (#[trigger] tables[a])@.keys() == self.archetypes@[a]@.keys()
    }

    /// A store stays consistent when one component of one entity is
    /// written: the entity keeps its types, and the others keep their
    /// components.
    proof fn lemma_rewritten(&self, entity: Entity, table: Archetype)
        requires
            self.wf(),
            self.entities@.contains_key(entity),
            Self::rewritten(
                self.archetypes@[self.entities@[entity].archetype as int]@,
                self.entities@[entity].row as int,
                table@,
            ),
        ensures
            self.kept_but(self.archetypes@.update(self.entities@[entity].archetype as int, table), entity),
            table@ == self.archetypes@[self.entities@[entity].archetype as int]@ ==> components(
                self.entities,
                self.archetypes@.update(self.entities@[entity].archetype as int, table),
            ) == self@,
    {
        let a = self.entities@[entity].archetype as int;
        let row = self.entities@[entity].row as int;
        let t0 = self.archetypes@[a]@;
        let tables = self.archetypes@.update(a, table);
        let index = index_entries(self.archetype_index);
        self.lemma_row_owner(entity);
        assert(table@.keys() =~= t0.keys());
        assert forall|j: int| 0 <= j < tables.len() implies
            (#[trigger] tables[j])@.keys() == self.archetypes@[j]@.keys() by {}
        assert forall|j: int|
            0 <= j < tables.len() implies
            (#[trigger] tables[j])@.wf() && tables[j]@.full() by {
            if j != a {
                assert(tables[j] == self.archetypes@[j]);
            }
        }
        assert forall|k: Seq<int>| #[trigger] index.contains_key(k) implies index[k] < tables.len()
            && tables[index[k] as int]@.keys() == k by {
            assert(tables[index[k] as int]@.keys() == self.archetypes@[index[k] as int]@.keys());
        }
        self.lemma_rows_kept(tables);
        assert(components(self.entities, tables).dom() =~= self@.dom());
        assert forall|other: Entity| self@.contains_key(other) && other != entity implies components(
            self.entities,
            tables,
        )[other] == self@[other] by {
            self.lemma_row_owner(other);
            let at = self.entities@[other];
            if at.archetype == a {
                assert(at.row != row);
            } else {
                assert(tables[at.archetype as int] == self.archetypes@[at.archetype as int]);
            }
        }
        if table@ == t0 {
            assert(components(self.entities, tables) =~= self@);
        }
    }

    /// Writing one component of a live entity changes that component in the
    /// view of the store, and nothing else.
    proof fn lemma_component_written(&self, entity: Entity, ty: TypeInfo, x: Cell, table: Archetype)
        requires
            self.wf(),
            self.entities@.contains_key(entity),
            self@[entity].contains_key(ty.key()),
            x.spec_info() == self@[entity][ty.key()].spec_info(),
            table@ == self.archetypes@[self.entities@[entity].archetype as int]@.stored(
                self.archetypes@[self.entities@[entity].archetype as int]@.column_of(ty.key()),
                self.entities@[entity].row as int,
                x,
            ),
        ensures
            Self::rewritten(
                self.archetypes@[self.entities@[entity].archetype as int]@,
                self.entities@[entity].row as int,
                table@,
            ),
            components(
                self.entities,
                self.archetypes@.update(self.entities@[entity].archetype as int, table),
            ) == self@.insert(entity, self@[entity].insert(ty.key(), x)),
            x == self@[entity][ty.key()] ==> components(
                self.entities,
                self.archetypes@.update(self.entities@[entity].archetype as int, table),
            ) == self@,
    {
        let a = self.entities@[entity].archetype as int;
        let row = self.entities@[entity].row as int;
        let t0 = self.archetypes@[a]@;
        let key = ty.key();
        let col = t0.column_of(key);
        let tables = self.archetypes@.update(a, table);
        self.lemma_row_owner(entity);
        assert(t0.wf() && t0.full());
        assert(t0.get(key, row) is Some);
        assert(t0.has_column(key));
        assert(t0.columns[col][row] == Some(self@[entity][key]));
        assert(x.key() == t0.types[col].key());
        t0.lemma_stored(col, row, x);
        assert(t0.row(row).contains_key(key));
        assert(table@.row(row).dom() =~= t0.row(row).dom());
        assert(Self::rewritten(t0, row, table@));
        self.lemma_rewritten(entity, table);
        let after = components(self.entities, tables);
        let wanted = self@.insert(entity, self@[entity].insert(key, x));
        assert(after.dom() =~= wanted.dom());
        assert forall|e: Entity| after.contains_key(e) implies #[trigger] after[e] == wanted[e] by {
            if e == entity {
                assert(tables[a] == table);
            }
        }
        assert(after =~= wanted);
        if x == self@[entity][key] {
            assert(self@[entity].insert(key, x) =~= self@[entity]);
            assert(wanted =~= self@);
        }
    }

    /// The component of type `T` of the entity of `entity`, for writing:
    /// `None` where the handle is not live or the entity has no component
    /// for the descriptor that `TypeInfo::of` gives for `T`. Else the
    /// result is what `Cell::downcast_mut` gives on a borrow of that
    /// component, and the store is as before but for that component, which
    /// is as the borrow leaves it. Whatever is written, the entity keeps
    /// its component types, and every other entity keeps its components.
    pub fn get_mut<T: Component>(&mut self, entity: Entity) -> (value: Option<&mut T>)
        requires
            old(self).wf(),
        ensures
            old(self)@.contains_key(entity) ==> exists|ty: TypeInfo| #[trigger]
                call_ensures(TypeInfo::of::<T>, (), ty) && (if old(self)@[entity].contains_key(ty.key()) {
                    exists|slot: &mut Cell| #[trigger]
                        call_ensures(Cell::downcast_mut::<T>, (slot,), value) && *slot == old(
                            self,
                        )@[entity][ty.key()] && final(self)@ == old(self)@.insert(
                            entity,
                            old(self)@[entity].insert(ty.key(), *final(slot)),
                        )
                } else {
                    value is None && final(self)@ == old(self)@
                }),
            final(self).wf(),
            value is Some ==> old(self)@.contains_key(entity),
            value is None ==> final(self)@ == old(self)@,
            final(self)@.dom() == old(self)@.dom(),
            old(self)@.contains_key(entity) ==> final(self)@[entity].dom() == old(self)@[entity].dom(),
            forall|other: Entity|
                old(self)@.contains_key(other) && other != entity ==> final(self)@[other] == old(self)@[other],
            final(self).retired() == old(self).retired(),
            final(self).archetype_count() == old(self).archetype_count(),
            forall|a: int|
                0 <= a < old(self).archetype_count() ==>
                    final(self).signature(a) == old(self).signature(a),
            forall|other: Entity| final(self).archetype_of(other) == old(self).archetype_of(other),
            forall|other: Entity| final(self).row_of(other) == old(self).row_of(other),
            forall|b: int|
                0 <= b < old(self).archetype_count() && !(old(self)@.contains_key(entity) && b == old(
                    self,
                ).archetype_of(entity)) ==> final(self).table(b) == old(self).table(b),
            final(self).has_room() == old(self).has_room(),
            final(self).next_handle() == old(self).next_handle(),
            final(self).ids() == old(self).ids(),
            final(self).free_ids() == old(self).free_ids(),
            forall|id: u32| final(self).generation_of(id) == old(self).generation_of(id),
    {
        match self.entities.locate(entity) {
            None => None,
            Some(at) => {
                proof {
                    self.lemma_row_owner(entity);
                    assert forall|table: Archetype|
                        Self::rewritten(self.archetypes@[at.archetype as int]@, at.row as int, table@) implies {
                        let tables = #[trigger] self.archetypes@.update(at.archetype as int, table);
                        &&& self.kept_but(tables, entity)
                        &&& (table@ == self.archetypes@[at.archetype as int]@ ==> components(
                            self.entities,
                            tables,
                        ) == self@)
                    } by {
                        self.lemma_rewritten(entity, table);
                    }
                    let t0 = self.archetypes@[at.archetype as int]@;
                    assert forall|ty: TypeInfo| #[trigger]
                        t0.get(ty.key(), at.row as int) is Some == self@[entity].contains_key(ty.key()) by {}
                    assert forall|table: Archetype, ty: TypeInfo, x: Cell|
                        self@[entity].contains_key(ty.key())
                            && x.spec_info() == self@[entity][ty.key()].spec_info()
                            && table@ == #[trigger] t0.stored(
                            t0.column_of(ty.key()),
                            at.row as int,
                            x,
                        ) implies {
                        let tables = #[trigger] self.archetypes@.update(at.archetype as int, table);
                        components(self.entities, tables) == self@.insert(
                            entity,
                            self@[entity].insert(ty.key(), x),
                        )
                    } by {
                        self.lemma_component_written(entity, ty, x, table);
                    }
                }
                self.archetypes[at.archetype].get_mut::<T>(at.row)
            },
        }
    }
}

} // verus!
