//! Entity handles and the generational index that resolves them.
use vstd::prelude::*;

verus! {

/// A handle to an entity: an id and the generation of that id for which the
/// handle was issued. Two handles are equal when both parts are.
#[derive(Clone, Copy, Debug, Hash, Eq, Ord, PartialEq, PartialOrd, Structural)]
pub struct Entity {
    generation: u32,
    id: u32,
}

impl Entity {
    pub closed spec fn spec_id(&self) -> u32 {
        self.id
    }

    pub closed spec fn spec_generation(&self) -> u32 {
        self.generation
    }

    /// The handle of `id` in `generation`.
    pub closed spec fn from_parts(id: u32, generation: u32) -> Entity {
        Entity { generation, id }
    }

    /// A handle is made of its parts.
    pub proof fn lemma_from_parts(id: u32, generation: u32)
        ensures
            Entity::from_parts(id, generation).spec_id() == id,
            Entity::from_parts(id, generation).spec_generation() == generation,
    {
    }

    /// A handle is its id and its generation, and nothing more.
    pub proof fn lemma_equal(a: Entity, b: Entity)
        ensures
            a == b <==> a.spec_id() == b.spec_id() && a.spec_generation() == b.spec_generation(),
            a == Entity::from_parts(a.spec_id(), a.spec_generation()),
    {
    }

    /// The id that the handle stands for. Ids are reused.
    pub fn id(&self) -> (id: u32)
        ensures
            id == self.spec_id(),
    {
        self.id
    }

    /// The generation of the id for which the handle was issued.
    pub fn generation(&self) -> (generation: u32)
        ensures
            generation == self.spec_generation(),
    {
        self.generation
    }
}

/// Where an entity's components are: a table, and a row of it.
#[derive(Clone, Copy, Debug, PartialEq, Eq, Structural)]
pub struct Location {
    pub archetype: usize,
    pub row: usize,
}

/// What is kept for each id that was ever handed out.
struct EntityMeta {
    generation: u32,
    live: bool,
    location: Location,
}

/// The generational index: which handles are valid, and where their
/// entities are.
///
/// Ids are handed out in increasing order and reused, last freed first. An
/// id starts at generation 0. Releasing a handle adds one to the generation
/// of its id, so that the handle and all its copies stay invalid when the id
/// is handed out again. An id whose generation cannot grow any more is never
/// handed out again.
pub struct EntityIndex {
    metas: Vec<EntityMeta>,
    free: Vec<u32>,
    retired: Ghost<Set<Entity>>,
}

impl View for EntityIndex {
    type V = Map<Entity, Location>;

    /// The valid handles, each with the location of its entity.
    closed spec fn view(&self) -> Map<Entity, Location> {
        Map::new(
            |e: Entity|
                e.id < self.metas@.len() && self.metas@[e.id as int].live
                    && self.metas@[e.id as int].generation == e.generation,
            |e: Entity| self.metas@[e.id as int].location,
        )
    }
}

impl EntityIndex {
    /// The handles that were valid once and were released.
    pub closed spec fn retired(&self) -> Set<Entity> {
        self.retired@
    }

    /// The number of ids that were ever handed out.
    pub closed spec fn ids(&self) -> nat {
        self.metas@.len()
    }

    /// The ids that wait to be handed out again; the last one goes first.
    pub closed spec fn free_ids(&self) -> Seq<u32> {
        self.free@
    }

    /// The generation that `id` is in.
    pub closed spec fn generation_of(&self, id: u32) -> u32 {
        self.metas@[id as int].generation
    }

    /// The handle of `id` in the generation that it is in.
    pub closed spec fn handle(&self, id: u32) -> Entity {
        Entity { id, generation: self.metas@[id as int].generation }
    }

    /// Whether `id` was handed out and has a valid handle.
    pub closed spec fn is_live(&self, id: u32) -> bool {
        id < self.metas@.len() && self.metas@[id as int].live
    }

    /// An id has a valid handle exactly when the handle of the id is valid.
    pub proof fn lemma_is_live(&self, id: u32)
        ensures
            self.is_live(id) <==> id < self.ids() && self@.contains_key(self.handle(id)),
    {
    }

    /// Whether one more handle can be issued: an id waits to be reused, or
    /// a new one still fits in 32 bits.
    pub open spec fn has_room(&self) -> bool {
        self.free_ids().len() > 0 || self.ids() <= u32::MAX
    }

    /// The handle that `allocate` issues next.
    pub closed spec fn next_handle(&self) -> Entity {
        if self.free@.len() > 0 {
            self.handle(self.free@.last())
        } else {
            Entity { id: self.metas@.len() as u32, generation: 0 }
        }
    }

    pub closed spec fn wf(&self) -> bool {
        &&& self.metas@.len() <= u32::MAX + 1
        &&& forall|i: int|
            0 <= i < self.free@.len() ==> (#[trigger] self.free@[i]) < self.metas@.len()
                && !self.metas@[self.free@[i] as int].live
        &&& forall|i: int, j: int|
            0 <= i < j < self.free@.len() ==> #[trigger] self.free@[i] != #[trigger] self.free@[j]
        &&& forall|e: Entity| #[trigger]
            self.retired@.contains(e) ==> e.id < self.metas@.len() && (e.generation
                < self.metas@[e.id as int].generation || (e.generation
                == self.metas@[e.id as int].generation && !self.metas@[e.id as int].live
                && !self.free@.contains(e.id)))
    }

    /// The ids that wait were handed out, have no valid handle, and each
    /// waits once.
    pub proof fn lemma_free_ids(&self, i: int, j: int)
        requires
            self.wf(),
            0 <= i < self.free_ids().len(),
            0 <= j < self.free_ids().len(),
        ensures
            self.free_ids()[i] < self.ids(),
            !self.is_live(self.free_ids()[i]),
            i != j ==> self.free_ids()[i] != self.free_ids()[j],
    {
        if i < j {
            assert(self.free@[i] != self.free@[j]);
        }
        if j < i {
            assert(self.free@[j] != self.free@[i]);
        }
    }

    /// A released handle is never valid again.
    pub proof fn lemma_retired_is_invalid(&self, e: Entity)
        requires
            self.wf(),
            self.retired().contains(e),
        ensures
            !self@.contains_key(e),
    {
    }

    /// A valid handle is the handle of its id; its id was handed out, and is
    /// in the generation of the handle.
    pub proof fn lemma_valid_handle(&self, e: Entity)
        requires
            self@.contains_key(e),
        ensures
            e == self.handle(e.spec_id()),
            e.spec_id() < self.ids(),
            self.generation_of(e.spec_id()) == e.spec_generation(),
    {
    }

    /// The handle of an id has that id.
    pub proof fn lemma_handle_id(&self, id: u32)
        ensures
            self.handle(id).spec_id() == id,
            self.handle(id).spec_generation() == self.generation_of(id),
    {
    }

    /// What the next handle is: that of the id freed last, in the generation
    /// that this id is in; where no id waits, that of a new id, in
    /// generation 0.
    pub proof fn lemma_next_handle(&self)
        ensures
            self.free_ids().len() > 0 ==> self.next_handle() == self.handle(self.free_ids().last()),
            self.free_ids().len() == 0 && self.ids() <= u32::MAX ==> self.next_handle().spec_id()
                == self.ids() && self.next_handle().spec_generation() == 0,
    {
    }

    /// An index without ids.
    pub fn new() -> (index: EntityIndex)
        ensures
            index.wf(),
            index@ == Map::<Entity, Location>::empty(),
            index.retired() == Set::<Entity>::empty(),
            index.ids() == 0,
            index.free_ids() == Seq::<u32>::empty(),
            index.has_room(),
    {
        let index = EntityIndex { metas: Vec::new(), free: Vec::new(), retired: Ghost(Set::empty()) };
        assert(index@ =~= Map::<Entity, Location>::empty());
        index
    }

    /// Whether one more handle can be issued.
    pub fn can_allocate(&self) -> (r: bool)
        ensures
            r == self.has_room(),
    {
        self.free.len() > 0 || self.metas.len() <= u32::MAX as usize
    }

    /// Issues a handle for an entity at `location`: the handle of the id
    /// freed last, or where none waits, of a new id.
    pub fn allocate(&mut self, location: Location) -> (e: Entity)
        requires
            old(self).wf(),
            old(self).has_room(),
        ensures
            final(self).wf(),
            e == old(self).next_handle(),
            !old(self)@.contains_key(e),
            !old(self).retired().contains(e),
            final(self)@ == old(self)@.insert(e, location),
            final(self).retired() == old(self).retired(),
            final(self).free_ids() == (if old(self).free_ids().len() > 0 {
                old(self).free_ids().drop_last()
            } else {
                old(self).free_ids()
            }),
            final(self).ids() == (if old(self).free_ids().len() > 0 {
                old(self).ids()
            } else {
                old(self).ids() + 1
            }),
            forall|id: u32|
                id < old(self).ids() ==>
                    final(self).generation_of(id) == old(self).generation_of(id),
            forall|id: u32| id < old(self).ids() ==> final(self).handle(id) == old(self).handle(id),
            final(self).handle(e.spec_id()) == e,
    {
        let ghost before = *self;
        match self.free.pop() {
            Some(id) => {
                assert(id == before.free@[before.free@.len() - 1]);
                let generation = self.metas[id as usize].generation;
                let e = Entity { generation, id };
                self.metas[id as usize] = EntityMeta { generation, live: true, location };
                assert(self@ =~= before@.insert(e, location));
                assert forall|i: int| 0 <= i < self.free@.len() implies (#[trigger] self.free@[i])
                    < self.metas@.len() && !self.metas@[self.free@[i] as int].live by {
                    assert(self.free@[i] == before.free@[i]);
                    assert(before.free@[i] != before.free@[before.free@.len() - 1]);
                }
                assert forall|x: Entity| #[trigger] self.retired@.contains(x) implies x.id
                    < self.metas@.len() && (x.generation < self.metas@[x.id as int].generation || (
                x.generation == self.metas@[x.id as int].generation && !self.metas@[x.id as int].live
                    && !self.free@.contains(x.id))) by {
                    if x.id != id && !before.free@.contains(x.id) && self.free@.contains(x.id) {
                        let i = choose|i: int| 0 <= i < self.free@.len() && self.free@[i] == x.id;
                        assert(before.free@[i] == x.id);
                    }
                    if x.id == id {
                        assert(before.free@.contains(id));
                    }
                }
                e
            },
            None => {
                let id = self.metas.len() as u32;
                let e = Entity { generation: 0, id };
                self.metas.push(EntityMeta { generation: 0, live: true, location });
                assert(self@ =~= before@.insert(e, location));
                e
            },
        }
    }

    /// Where the entity of `e` is, if `e` is valid.
    pub fn locate(&self, e: Entity) -> (location: Option<Location>)
        ensures
            location == (if self@.contains_key(e) {
                Some(self@[e])
            } else {
                None
            }),
    {
        if (e.id as usize) < self.metas.len() {
            let meta = &self.metas[e.id as usize];
            if meta.live && meta.generation == e.generation {
                return Some(meta.location);
            }
        }
        None
    }

    /// Records that the entity of `id` is now at `location`. Returns whether
    /// `id` has a valid handle; where it has none, nothing changes.
    pub fn relocate(&mut self, id: u32, location: Location) -> (moved: bool)
        requires
            old(self).wf(),
        ensures
            final(self).wf(),
            moved == old(self).is_live(id),
            final(self)@ == (if moved {
                old(self)@.insert(old(self).handle(id), location)
            } else {
                old(self)@
            }),
            final(self).retired() == old(self).retired(),
            final(self).free_ids() == old(self).free_ids(),
            final(self).ids() == old(self).ids(),
            forall|i: u32| i < old(self).ids() ==> final(self).handle(i) == old(self).handle(i),
            forall|i: u32| i < old(self).ids() ==> final(self).generation_of(i) == old(self).generation_of(i),
            final(self).next_handle() == old(self).next_handle(),
            final(self).has_room() == old(self).has_room(),
    {
        let ghost before = *self;
        if (id as usize) >= self.metas.len() || !self.metas[id as usize].live {
            return false;
        }
        let generation = self.metas[id as usize].generation;
        self.metas[id as usize] = EntityMeta { generation, live: true, location };
        assert(self@ =~= before@.insert(before.handle(id), location));
        true
    }

    /// Invalidates `e` and all its copies. Returns where the entity was, or
    /// `None` where `e` was not valid, in which case nothing changes. The id
    /// moves to the next generation and waits to be reused; in the last
    /// generation it is withdrawn instead.
    pub fn release(&mut self, e: Entity) -> (location: Option<Location>)
        requires
            old(self).wf(),
        ensures
            final(self).wf(),
            location == (if old(self)@.contains_key(e) {
                Some(old(self)@[e])
            } else {
                None
            }),
            !old(self)@.contains_key(e) ==> *final(self) == *old(self),
            final(self)@ == old(self)@.remove(e),
            final(self).retired() == (if old(self)@.contains_key(e) {
                old(self).retired().insert(e)
            } else {
                old(self).retired()
            }),
            final(self).ids() == old(self).ids(),
            final(self).free_ids() == (if old(self)@.contains_key(e) && e.spec_generation() < u32::MAX {
                old(self).free_ids().push(e.spec_id())
            } else {
                old(self).free_ids()
            }),
            forall|id: u32|
                id < old(self).ids() ==> final(self).generation_of(id) == (if old(self)@.contains_key(e)
                    && id == e.spec_id() && e.spec_generation() < u32::MAX {
                    (e.spec_generation() + 1) as u32
                } else {
                    old(self).generation_of(id)
                }),
            final(self).has_room() == (old(self).has_room() || (old(self)@.contains_key(e)
                && e.spec_generation() < u32::MAX)),
            forall|id: u32|
                id < old(self).ids() && !(old(self)@.contains_key(e) && id == e.spec_id())
                    ==> final(self).handle(id) == old(self).handle(id),
            final(self).next_handle() == (if old(self)@.contains_key(e) && e.spec_generation() < u32::MAX {
                Entity::from_parts(e.spec_id(), (e.spec_generation() + 1) as u32)
            } else {
                old(self).next_handle()
            }),
    {
        let ghost before = *self;
        if (e.id as usize) >= self.metas.len() {
            assert(self@ =~= before@.remove(e));
            return None;
        }
        let meta = &self.metas[e.id as usize];
        if !meta.live || meta.generation != e.generation {
            assert(self@ =~= before@.remove(e));
            return None;
        }
        let location = meta.location;
        assert(!before.free@.contains(e.id)) by {
            if before.free@.contains(e.id) {
                let i = choose|i: int| 0 <= i < before.free@.len() && before.free@[i] == e.id;
                assert(!before.metas@[before.free@[i] as int].live);
            }
        }
        if e.generation < u32::MAX {
            self.metas[e.id as usize] = EntityMeta { generation: e.generation + 1, live: false, location };
            self.free.push(e.id);
            assert forall|i: int, j: int| 0 <= i < j < self.free@.len() implies #[trigger] self.free@[i]
                != #[trigger] self.free@[j] by {
                if j == self.free@.len() - 1 {
                    assert(before.free@[i] == self.free@[i]);
                    assert(before.free@.contains(self.free@[i]));
                }
            }
        } else {
            self.metas[e.id as usize] = EntityMeta { generation: e.generation, live: false, location };
        }
        self.retired = Ghost(before.retired@.insert(e));
        assert(self@ =~= before@.remove(e));
        assert forall|x: Entity| #[trigger] self.retired@.contains(x) implies x.id < self.metas@.len()
            && (x.generation < self.metas@[x.id as int].generation || (x.generation
            == self.metas@[x.id as int].generation && !self.metas@[x.id as int].live
            && !self.free@.contains(x.id))) by {
            if x != e {
                assert(before.retired@.contains(x));
                if x.id != e.id && self.free@.contains(x.id) && !before.free@.contains(x.id) {
                    let i = choose|i: int| 0 <= i < self.free@.len() && self.free@[i] == x.id;
                    if i < before.free@.len() {
                        assert(before.free@[i] == x.id);
                    }
                }
            } else {
                if e.generation == u32::MAX && self.free@.contains(e.id) {
                    assert(self.free@ == before.free@);
                }
            }
        }
        assert forall|i: int| 0 <= i < self.free@.len() implies (#[trigger] self.free@[i])
            < self.metas@.len() && !self.metas@[self.free@[i] as int].live by {
            if i < before.free@.len() {
                assert(self.free@[i] == before.free@[i]);
            }
        }
        Some(location)
    }
}

} // verus!
