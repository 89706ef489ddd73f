//! Building the components of an entity one by one.
use vstd::prelude::*;
use vstd::arithmetic::power2::is_pow2;
use core::any::TypeId;
use crate::archetype::{Archetype, StoreError};
use crate::arena::{
    is_power_of_two, lemma_divides_through, lemma_multiples_differ, lemma_pow2_divides, max, Arena,
};
use crate::bundle::{
    canonicalize, ids_of, keys_of, lemma_ranks_of_ids, lists_in_order, staged, ComponentSet,
};
use crate::cell::{Cell, Component};
use crate::type_info::{ranks, strictly_increasing, type_rank, TypeInfo};

verus! {

/// A staged component, and the place that the layout gives it in the
/// staging region, as the distance from the end of the region to its first
/// byte.
struct Staged {
    depth: usize,
    cell: Cell,
}

/// Stages the components of one entity, of types chosen at run time.
///
/// The staged values are kept in boxes. Beside them the builder computes the
/// layout of a staging region that would hold them all: each component
/// added gets a place in it, and the region grows as needed. The region
/// itself is not allocated; what the builder holds of it are its size and
/// the offsets. `build` hands the components over as a bundle and leaves
/// the builder empty, with the size of its region kept, ready for the next
/// entity.
pub struct EntityBuilder {
    arena: Arena,
    entries: Vec<Staged>,
}

impl EntityBuilder {
    /// The staged components, in the order in which they were added.
    pub closed spec fn cells(&self) -> Seq<Cell> {
        Seq::new(self.entries@.len(), |i: int| self.entries@[i].cell)
    }

    /// The accounts of the staging region.
    pub closed spec fn arena(&self) -> Arena {
        self.arena
    }

    /// The offset of staged component `i` from the base of the region.
    pub closed spec fn offset_of(&self, i: int) -> int {
        self.arena.spec_len() - self.entries@[i].depth
    }

    /// The region is well-formed, and every staged component has a place in
    /// it that suits its size and alignment and that it shares with no
    /// other.
    pub closed spec fn wf(&self) -> bool {
        &&& self.arena.wf()
        &&& forall|i: int|
            0 <= i < self.entries@.len() ==> {
                let entry = #[trigger] self.entries@[i];
                let info = entry.cell.spec_info();
                &&& is_pow2(info.spec_align() as int)
                &&& info.spec_align() <= self.arena.spec_max_align()
                &&& entry.depth % info.spec_align() == 0
                &&& info.spec_size() <= entry.depth <= self.arena.spec_used()
            }
        &&& forall|i: int, j: int|
            0 <= i < j < self.entries@.len() ==> (#[trigger] self.entries@[i]).depth
                + self.entries@[j].cell.spec_info().spec_size() <= (#[trigger] self.entries@[j]).depth
    }

    /// Whether a component of this size and alignment can be staged: the
    /// alignment is a power of two, and the region, grown if it must, fits
    /// in the address space.
    pub open spec fn can_stage(&self, size: nat, align: nat) -> bool {
        is_pow2(align as int) && self.arena().len_after(size, align) <= usize::MAX
    }

    /// The accounts of the region are well-formed: its size is nothing or
    /// a power of two, and a multiple of the largest alignment.
    pub proof fn lemma_arena(&self)
        requires
            self.wf(),
        ensures
            self.arena().wf(),
    {
    }

    /// The place of every staged component is inside the region and
    /// aligned for its type, and the places of two components do not
    /// overlap: what was added later lies below.
    pub proof fn lemma_layout(&self, i: int, j: int)
        requires
            self.wf(),
            0 <= i < self.cells().len(),
            0 <= j < self.cells().len(),
        ensures
            0 <= self.arena().cursor() <= self.offset_of(i),
            self.offset_of(i) + self.cells()[i].spec_info().spec_size() <= self.arena().spec_len(),
            self.offset_of(i) % (self.cells()[i].spec_info().spec_align() as int) == 0,
            i < j ==> self.offset_of(j) + self.cells()[j].spec_info().spec_size() <= self.offset_of(i),
    {
        let entry = self.entries@[i];
        let align = entry.cell.spec_info().spec_align() as int;
        let len = self.arena.spec_len() as int;
        let most = self.arena.spec_max_align() as int;
        assert(align > 0) by {
            reveal(is_pow2);
        }
        lemma_pow2_divides(align, most);
        lemma_divides_through(len, most, align);
        lemma_multiples_differ(len, entry.depth as int, align);
    }

    /// A builder with nothing staged and no region yet.
    pub fn new() -> (builder: EntityBuilder)
        ensures
            builder.wf(),
            builder.cells() == Seq::<Cell>::empty(),
            builder.arena().spec_len() == 0,
            builder.arena().spec_used() == 0,
            builder.arena().spec_max_align() == crate::arena::MIN_ALIGN,
    {
        let builder = EntityBuilder { arena: Arena::new(), entries: Vec::new() };
        assert(builder.cells() =~= Seq::<Cell>::empty());
        builder
    }

    /// The number of staged components.
    pub fn len(&self) -> (len: usize)
        ensures
            len == self.cells().len(),
    {
        self.entries.len()
    }

    /// The size of the staging region in bytes.
    pub fn arena_len(&self) -> (len: usize)
        ensures
            len == self.arena().spec_len(),
    {
        self.arena.len()
    }

    /// The offset of staged component `i` from the base of the region.
    pub fn offset(&self, i: usize) -> (offset: Option<usize>)
        requires
            self.wf(),
        ensures
            offset == (if i < self.cells().len() {
                Some(self.offset_of(i as int) as usize)
            } else {
                None
            }),
            offset is Some ==> offset->0 == self.offset_of(i as int),
    {
        if i < self.entries.len() {
            proof {
                self.lemma_layout(i as int, i as int);
            }
            Some(self.arena.len() - self.entries[i].depth)
        } else {
            None
        }
    }

    /// Whether a component of this size and alignment can be staged.
    pub fn has_room_for(&self, size: usize, align: usize) -> (r: bool)
        requires
            self.wf(),
        ensures
            r == self.can_stage(size as nat, align as nat),
    {
        proof {
            reveal(is_pow2);
        }
        is_power_of_two(align) && self.arena.can_reserve(size, align)
    }

    /// Stages `cell`: it gets a place below all that is staged, and the
    /// region grows first where it must. What was staged keeps its
    /// distance from the end of the region.
    pub fn add_dynamic(&mut self, cell: Cell) -> (builder: &mut Self)
        requires
            old(self).wf(),
            old(self).can_stage(
                cell.spec_info().spec_size() as nat,
                cell.spec_info().spec_align() as nat,
            ),
        ensures
            *final(self) == *final(builder),
            builder.wf(),
            builder.cells() == old(self).cells().push(cell),
            builder.arena().spec_len() == old(self).arena().len_after(
                cell.spec_info().spec_size() as nat,
                cell.spec_info().spec_align() as nat,
            ),
            builder.arena().spec_max_align() == max(
                old(self).arena().spec_max_align() as int,
                cell.spec_info().spec_align() as int,
            ),
            builder.offset_of(old(self).cells().len() as int) == old(self).arena().offset_after(
                cell.spec_info().spec_size() as nat,
                cell.spec_info().spec_align() as nat,
            ),
            builder.arena().cursor() == builder.offset_of(old(self).cells().len() as int),
            forall|i: int|
                0 <= i < old(self).cells().len() ==> builder.offset_of(i) == old(self).offset_of(i) + (
                builder.arena().spec_len() - old(self).arena().spec_len()),
    {
        let ghost before = *self;
        let info = cell.info();
        let offset = self.arena.reserve(info.size(), info.align());
        let depth = self.arena.len() - offset;
        proof {
            let align = info.spec_align() as int;
            assert(align > 0) by {
                reveal(is_pow2);
            }
            lemma_multiples_differ(self.arena.spec_len() as int, offset as int, align);
        }
        self.entries.push(Staged { depth, cell });
        proof {
            assert(self.cells() =~= before.cells().push(cell));
            assert forall|i: int| 0 <= i < self.entries@.len() implies {
                let entry = #[trigger] self.entries@[i];
                let info = entry.cell.spec_info();
                &&& is_pow2(info.spec_align() as int)
                &&& info.spec_align() <= self.arena.spec_max_align()
                &&& entry.depth % info.spec_align() == 0
                &&& info.spec_size() <= entry.depth <= self.arena.spec_used()
            } by {
                if i < before.entries@.len() {
                    assert(self.entries@[i] == before.entries@[i]);
                }
            }
            assert forall|i: int, j: int| 0 <= i < j < self.entries@.len() implies (
            #[trigger] self.entries@[i]).depth + self.entries@[j].cell.spec_info().spec_size() <= (
            #[trigger] self.entries@[j]).depth by {
                assert(self.entries@[i] == before.entries@[i]);
                if j < before.entries@.len() {
                    assert(self.entries@[j] == before.entries@[j]);
                }
            }
        }
        self
    }

    /// Stages `component`. See `add_dynamic`, which this calls with the
    /// component as a cell.
    pub fn add<T: Component>(&mut self, component: T) -> (builder: &mut Self)
        requires
            old(self).wf(),
            old(self).arena().len_after(vstd::layout::size_of::<T>(), vstd::layout::align_of::<T>())
                <= usize::MAX,
        ensures
            *final(self) == *final(builder),
            builder.wf(),
            builder.cells().len() == old(self).cells().len() + 1,
            builder.cells().drop_last() == old(self).cells(),
            call_ensures(Cell::new::<T>, (component,), builder.cells().last()),
            builder.cells().last().spec_info().spec_size() == vstd::layout::size_of::<T>(),
            builder.cells().last().spec_info().spec_align() == vstd::layout::align_of::<T>(),
            builder.arena().spec_len() == old(self).arena().len_after(
                vstd::layout::size_of::<T>(),
                vstd::layout::align_of::<T>(),
            ),
            builder.arena().spec_max_align() == max(
                old(self).arena().spec_max_align() as int,
                vstd::layout::align_of::<T>() as int,
            ),
            builder.offset_of(old(self).cells().len() as int) == old(self).arena().offset_after(
                vstd::layout::size_of::<T>(),
                vstd::layout::align_of::<T>(),
            ),
            forall|i: int|
                0 <= i < old(self).cells().len() ==> builder.offset_of(i) == old(self).offset_of(i) + (
                builder.arena().spec_len() - old(self).arena().spec_len()),
    {
        broadcast use vstd::layout::align_properties;

        let cell = Cell::new(component);
        let ghost cells = self.cells();
        let builder = self.add_dynamic(cell);
        assert(builder.cells().drop_last() =~= cells);
        builder
    }

    /// Hands over what is staged as a bundle in canonical order: one
    /// component per type, the last one added of each type. The builder is
    /// left empty; its region keeps its size.
    pub fn build(&mut self) -> (built: BuiltEntity)
        requires
            old(self).wf(),
        ensures
            final(self).wf(),
            final(self).cells() == Seq::<Cell>::empty(),
            final(self).arena().spec_len() == old(self).arena().spec_len(),
            final(self).arena().spec_max_align() == old(self).arena().spec_max_align(),
            final(self).arena().spec_used() == 0,
            built.wf(),
            lists_in_order(built.cells(), staged(old(self).cells())),
    {
        let ghost before = *self;
        let mut entries: Vec<Staged> = Vec::new();
        core::mem::swap(&mut self.entries, &mut entries);
        self.arena.reset();
        assert(self.cells() =~= Seq::<Cell>::empty());
        let ghost all = entries@;
        let mut cells: Vec<Cell> = Vec::new();
        for entry in it: entries.into_iter()
            invariant
                it.seq() == all,
                cells@.len() == it.index(),
                forall|i: int| 0 <= i < it.index() ==> cells@[i] == all[i].cell,
        {
            cells.push(entry.cell);
        }
        assert(cells@ =~= before.cells());
        BuiltEntity::new(canonicalize(cells), Ghost(staged(before.cells())))
    }
}

/// The components of one entity, ready to be spawned: one per type, in
/// canonical order.
pub struct BuiltEntity {
    cells: Vec<Cell>,
    ids: Vec<TypeId>,
}

impl BuiltEntity {
    /// The components, in canonical order.
    pub closed spec fn cells(&self) -> Seq<Cell> {
        self.cells@
    }

    /// The identities of the component types, in canonical order.
    pub closed spec fn ids(&self) -> Seq<TypeId> {
        self.ids@
    }

    /// The components are in canonical order, and the identities are those
    /// of their types, in the same order.
    pub open spec fn wf(&self) -> bool {
        &&& strictly_increasing(keys_of(self.cells()))
        &&& self.ids() == ids_of(self.cells())
    }

    /// Bundles of the same component types list the same ranks of
    /// identities, whatever the order in which the components were added.
    pub proof fn lemma_ids_by_types(&self, other: &BuiltEntity)
        requires
            self.wf(),
            other.wf(),
            keys_of(self.cells()).to_set() == keys_of(other.cells()).to_set(),
        ensures
            ranks(self.ids()) == ranks(other.ids()),
            self.ids().len() == other.ids().len(),
    {
        lemma_ranks_of_ids(self.cells());
        lemma_ranks_of_ids(other.cells());
        crate::type_info::lemma_canonical_unique(keys_of(self.cells()), keys_of(other.cells()));
    }

    fn new(cells: Vec<Cell>, Ghost(components): Ghost<Map<int, Cell>>) -> (built: BuiltEntity)
        requires
            lists_in_order(cells@, components),
        ensures
            built.wf(),
            built.cells() == cells@,
    {
        let mut ids: Vec<TypeId> = Vec::new();
        let mut i: usize = 0;
        while i < cells.len()
            invariant
                i <= cells.len(),
                ids@.len() == i,
                forall|j: int| 0 <= j < i ==> #[trigger] ids@[j] == cells@[j].spec_info().spec_id(),
            decreases cells.len() - i,
        {
            ids.push(cells[i].info().id());
            i += 1;
        }
        assert(ids@ =~= ids_of(cells@));
        BuiltEntity { cells, ids }
    }

    /// Calls `f` with the identities of the component types, in canonical
    /// order, and returns what `f` returns.
    pub fn with_ids<R, F: FnOnce(&[TypeId]) -> R>(&self, f: F) -> (r: R)
        requires
            forall|ids: &[TypeId]| ids@ == self.ids() ==> call_requires(f, (ids,)),
        ensures
            exists|ids: &[TypeId]| ids@ == self.ids() && call_ensures(f, (ids,), r),
    {
        f(self.ids.as_slice())
    }

    /// Moves the components into `row` of `archetype`, one into each
    /// column. The table refuses, and stays as it is, where `row` is not
    /// one of its rows or where its column types are not exactly those of
    /// the components; the components are then dropped.
    pub fn store(self, archetype: &mut Archetype, row: usize) -> (result: Result<(), StoreError>)
        requires
            old(archetype)@.wf(),
        ensures
            final(archetype)@.wf(),
            result == (if row >= old(archetype)@.len() {
                Err::<(), StoreError>(StoreError::RowOutOfRange)
            } else if old(archetype)@.keys() != keys_of(self.cells()) {
                Err(StoreError::SignatureMismatch)
            } else {
                Ok(())
            }),
            result is Err ==> final(archetype)@ == old(archetype)@,
            result is Ok ==> {
                &&& final(archetype)@.types == old(archetype)@.types
                &&& final(archetype)@.entities == old(archetype)@.entities
                &&& final(archetype)@.capacity == old(archetype)@.capacity
                &&& final(archetype)@.row_full(row as int)
                &&& lists_in_order(self.cells(), final(archetype)@.row(row as int))
                &&& forall|r: int|
                    0 <= r < old(archetype)@.len() && r != row ==> #[trigger] final(archetype)@.row(r) == old(
                        archetype,
                    )@.row(r)
            },
    {
        if row >= archetype.len() {
            return Err(StoreError::RowOutOfRange);
        }
        let ghost keys = archetype@.keys();
        let types = archetype.types();
        if types.len() != self.cells.len() {
            assert(keys.len() != keys_of(self.cells@).len());
            return Err(StoreError::SignatureMismatch);
        }
        let mut i: usize = 0;
        while i < types.len()
            invariant
                i <= types.len(),
                types@.len() == self.cells@.len(),
                types@ == archetype@.types,
                keys == archetype@.keys(),
                archetype@ == old(archetype)@,
                archetype@.wf(),
                row < archetype@.len(),
                forall|j: int| 0 <= j < i ==> types@[j].key() == self.cells@[j].key(),
            decreases types.len() - i,
        {
            if !types[i].same_type(&self.cells[i].info()) {
                assert(keys[i as int] != keys_of(self.cells@)[i as int]);
                return Err(StoreError::SignatureMismatch);
            }
            i += 1;
        }
        assert(keys =~= keys_of(self.cells@));
        archetype.store(row, self.cells);
        Ok(())
    }

    /// The identities of the component types, in canonical order.
    pub fn type_ids(&self) -> (ids: &Vec<TypeId>)
        ensures
            ids@ == self.ids(),
    {
        &self.ids
    }

    /// The descriptors of the component types, in canonical order.
    pub fn type_info(&self) -> (infos: Vec<TypeInfo>)
        ensures
            infos@.len() == self.cells().len(),
            forall|i: int| 0 <= i < infos@.len() ==> infos@[i] == self.cells()[i].spec_info(),
    {
        let mut infos: Vec<TypeInfo> = Vec::new();
        let mut i: usize = 0;
        while i < self.cells.len()
            invariant
                i <= self.cells.len(),
                infos@.len() == i,
                forall|j: int| 0 <= j < i ==> infos@[j] == self.cells@[j].spec_info(),
            decreases self.cells.len() - i,
        {
            infos.push(self.cells[i].info());
            i += 1;
        }
        infos
    }
}

impl ComponentSet for BuiltEntity {
    fn into_cells(self) -> (cells: Vec<Cell>)
        ensures
            cells@ == self.cells(),
    {
        self.cells
    }
}

} // verus!
