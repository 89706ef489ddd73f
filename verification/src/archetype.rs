//! Columnar storage for the entities that share one set of component types.
use vstd::prelude::*;
use crate::bundle::{keys_of, lists_in_order};
use crate::cell::{Cell, Component};
use crate::type_info::{keys_of_types, strictly_increasing, TypeInfo};

verus! {

/// Why a table refused an operation.
#[derive(Clone, Copy, Debug, PartialEq, Eq, Structural)]
pub enum StoreError {
    /// The row is not one of the table's rows.
    RowOutOfRange,
    /// The table has no column for the component's type.
    MissingColumn,
    /// The bundle's component types are not exactly those of the table.
    SignatureMismatch,
}

/// The smallest capacity, in rows, that a table grows to.
pub const MIN_CAPACITY: usize = 64;

/// What a table holds: its column types in canonical order, the entity id of
/// each row, and for each column one slot per row. A slot is `None` from the
/// moment its row is reserved until a value is stored in it.
#[verifier::ext_equal]
pub struct ArchetypeView {
    pub types: Seq<TypeInfo>,
    pub entities: Seq<u32>,
    pub columns: Seq<Seq<Option<Cell>>>,
    pub capacity: nat,
}

impl ArchetypeView {
    /// The keys of the column types, in column order.
    pub open spec fn keys(self) -> Seq<int> {
        Seq::new(self.types.len(), |c: int| self.types[c].key())
    }

    /// The number of rows.
    pub open spec fn len(self) -> nat {
        self.entities.len()
    }

    /// The column types are in canonical order, every column has one slot per
    /// row, every stored value is of its column's type, and the rows fit in
    /// the capacity.
    pub open spec fn wf(self) -> bool {
        &&& strictly_increasing(self.keys())
        &&& self.columns.len() == self.types.len()
        &&& forall|c: int|
            0 <= c < self.columns.len() ==>
                (#[trigger] self.columns[c]).len() == self.entities.len()
        &&& forall|c: int, r: int|
            0 <= c < self.columns.len() && 0 <= r < self.entities.len() ==> (
            #[trigger] self.columns[c][r] matches Some(cell) ==> cell.key() == self.types[c].key())
        &&& self.entities.len() <= self.capacity
    }

    /// Every slot of `row` holds a value.
    pub open spec fn row_full(self, row: int) -> bool {
        forall|c: int| 0 <= c < self.columns.len() ==> (#[trigger] self.columns[c])[row] is Some
    }

    /// Every slot of every row holds a value.
    pub open spec fn full(self) -> bool {
        forall|r: int| 0 <= r < self.entities.len() ==> #[trigger] self.row_full(r)
    }

    /// Whether some column is of the type with this key.
    pub open spec fn has_column(self, key: int) -> bool {
        exists|c: int| 0 <= c < self.types.len() && #[trigger] self.types[c].key() == key
    }

    /// The column of the type with this key, where there is one.
    pub open spec fn column_of(self, key: int) -> int {
        choose|c: int| 0 <= c < self.types.len() && #[trigger] self.types[c].key() == key
    }

    /// The value that `row` holds for the type with this key, if any.
    pub open spec fn get(self, key: int, row: int) -> Option<Cell> {
        if self.has_column(key) && 0 <= row < self.entities.len() {
            self.columns[self.column_of(key)][row]
        } else {
            None
        }
    }

    /// The components of `row`, by the key of their type.
    pub open spec fn row(self, row: int) -> Map<int, Cell> {
        Map::new(|key: int| self.get(key, row) is Some, |key: int| self.get(key, row)->0)
    }

    /// The table with one more row for entity `id`, all its slots empty, and
    /// with the given capacity.
    pub open spec fn allocated(self, id: u32, capacity: nat) -> ArchetypeView {
        ArchetypeView {
            types: self.types,
            entities: self.entities.push(id),
            columns: Seq::new(self.columns.len(), |c: int| self.columns[c].push(None)),
            capacity,
        }
    }

    /// The table with `cell` in the slot of column `col` and row `row`.
    pub open spec fn stored(self, col: int, row: int, cell: Cell) -> ArchetypeView {
        ArchetypeView {
            types: self.types,
            entities: self.entities,
            columns: self.columns.update(col, self.columns[col].update(row, Some(cell))),
            capacity: self.capacity,
        }
    }

    /// The table without `row`: the last row has taken its place, unless it
    /// was the last row itself.
    pub open spec fn removed(self, row: int) -> ArchetypeView {
        ArchetypeView {
            types: self.types,
            entities: self.entities.update(row, self.entities.last()).drop_last(),
            columns: Seq::new(
                self.columns.len(),
                |c: int| self.columns[c].update(row, self.columns[c].last()).drop_last(),
            ),
            capacity: self.capacity,
        }
    }

    /// The capacity after growing from `capacity`: twice as much, and no less
    /// than `MIN_CAPACITY`; `usize::MAX` where twice as much does not fit.
    pub open spec fn grown(capacity: nat) -> nat {
        if 2 * capacity > usize::MAX {
            usize::MAX as nat
        } else if 2 * capacity < MIN_CAPACITY {
            MIN_CAPACITY as nat
        } else {
            2 * capacity
        }
    }

    /// In a well-formed table a key names at most one column.
    pub proof fn lemma_column_of(self, c: int)
        requires
            self.wf(),
            0 <= c < self.types.len(),
        ensures
            self.has_column(self.types[c].key()),
            self.column_of(self.types[c].key()) == c,
    {
        let key = self.types[c].key();
        let d = self.column_of(key);
        assert(self.keys()[c] == key);
        assert(self.keys()[d] == key);
        if d < c {
            assert(self.keys()[d] < self.keys()[c]);
        }
        if c < d {
            assert(self.keys()[c] < self.keys()[d]);
        }
    }

    /// Reserving a row leaves the rows before it as they were.
    pub proof fn lemma_allocated(self, id: u32, capacity: nat)
        requires
            self.wf(),
            self.len() < capacity,
        ensures
            self.allocated(id, capacity).wf(),
            self.allocated(id, capacity).keys() == self.keys(),
            self.allocated(id, capacity).len() == self.len() + 1,
            self.allocated(id, capacity).entities[self.len() as int] == id,
            forall|r: int|
                0 <= r < self.len() ==> #[trigger] self.allocated(id, capacity).row(r) == self.row(r)
                    && self.allocated(id, capacity).entities[r] == self.entities[r] && (self.row_full(r)
                    ==> self.allocated(id, capacity).row_full(r)),
    {
        let after = self.allocated(id, capacity);
        assert(after.keys() =~= self.keys());
        assert forall|r: int| 0 <= r < self.len() implies #[trigger] after.row(r) == self.row(r)
            && after.entities[r] == self.entities[r] && (self.row_full(r) ==> after.row_full(r)) by {
            assert forall|key: int| after.get(key, r) == self.get(key, r) by {
                if self.has_column(key) {
                    let c = self.column_of(key);
                    assert(after.types[c].key() == key);
                    assert(after.column_of(key) == c);
                    assert(after.columns[c][r] == self.columns[c][r]);
                }
            }
            assert(after.row(r) =~= self.row(r));
            if self.row_full(r) {
                assert forall|c: int|
                    0 <= c < after.columns.len() implies
                    (#[trigger] after.columns[c])[r] is Some by {
                    assert(self.columns[c][r] is Some);
                }
            }
        }
    }

    /// Storing a value of a column's own type keeps the table well-formed,
    /// fills the slot, and changes no other row.
    pub proof fn lemma_stored(self, col: int, row: int, cell: Cell)
        requires
            self.wf(),
            0 <= col < self.types.len(),
            0 <= row < self.len(),
            cell.key() == self.types[col].key(),
        ensures
            self.stored(col, row, cell).wf(),
            self.stored(col, row, cell).keys() == self.keys(),
            self.stored(col, row, cell).get(cell.key(), row) == Some(cell),
            self.stored(col, row, cell).row(row) == self.row(row).insert(cell.key(), cell),
            forall|r: int|
                0 <= r < self.len() && r != row ==>
                    #[trigger] self.stored(col, row, cell).row(r) == self.row(r),
            self.full() ==> self.stored(col, row, cell).full(),
            forall|r: int|
                0 <= r < self.len() && r != row && self.row_full(r) ==>
                    #[trigger] self.stored(col, row, cell).row_full(r),
    {
        let after = self.stored(col, row, cell);
        assert(after.keys() =~= self.keys());
        self.lemma_column_of(col);
        assert forall|key: int, r: int| 0 <= r < self.len() implies #[trigger] after.get(key, r) == (if key
            == cell.key() && r == row {
            Some(cell)
        } else {
            self.get(key, r)
        }) by {
            if self.has_column(key) {
                let c = self.column_of(key);
                assert(after.types[c].key() == key);
                assert(after.has_column(key));
                assert(after.column_of(key) == c);
                if c == col {
                    assert(key == cell.key());
                }
            }
        }
        assert(after.row(row) =~= self.row(row).insert(cell.key(), cell));
        assert forall|r: int|
            0 <= r < self.len() && r != row implies
            #[trigger] after.row(r) == self.row(r) by {
            assert forall|key: int| after.get(key, r) == self.get(key, r) by {}
            assert(after.row(r) =~= self.row(r));
        }
        assert forall|r: int|
            0 <= r < self.len() && r != row && self.row_full(r) implies
            #[trigger] after.row_full(r) by {
            assert forall|c: int|
                0 <= c < after.columns.len() implies
                (#[trigger] after.columns[c])[r] is Some by {
                assert(self.columns[c][r] is Some);
            }
        }
        if self.full() {
            assert forall|r: int| 0 <= r < after.entities.len() implies #[trigger] after.row_full(r) by {
                assert(self.row_full(r));
                assert forall|c: int|
                    0 <= c < after.columns.len() implies
                    (#[trigger] after.columns[c])[r] is Some by {
                    assert(self.columns[c][r] is Some);
                }
            }
        }
    }

    /// Removing a row leaves the other rows as they were; the row that was
    /// last is found where the removed row was.
    pub proof fn lemma_removed(self, row: int)
        requires
            self.wf(),
            0 <= row < self.len(),
        ensures
            self.removed(row).wf(),
            self.removed(row).len() == self.len() - 1,
            self.removed(row).keys() == self.keys(),
            self.full() ==> self.removed(row).full(),
            forall|r: int|
                0 <= r < self.len() - 1 && r != row ==> #[trigger] self.removed(row).row(r) == self.row(r)
                    && self.removed(row).entities[r] == self.entities[r],
            row < self.len() - 1 ==> self.removed(row).row(row) == self.row(self.len() - 1)
                && self.removed(row).entities[row] == self.entities.last(),
    {
        let after = self.removed(row);
        let last = self.len() - 1;
        assert(after.keys() =~= self.keys());
        assert forall|c: int, r: int|
            0 <= c < after.columns.len() && 0 <= r < after.entities.len() implies (
        #[trigger] after.columns[c][r] matches Some(cell) ==> cell.key() == after.types[c].key()) by {
            if r == row {
                assert(after.columns[c][r] == self.columns[c][last]);
            } else {
                assert(after.columns[c][r] == self.columns[c][r]);
            }
        }
        assert(after.wf());
        if self.full() {
            assert forall|r: int| 0 <= r < after.entities.len() implies #[trigger] after.row_full(
                r,
            ) by {
                let src = if r == row { last } else { r };
                assert(self.row_full(src));
                assert forall|c: int| 0 <= c < after.columns.len() implies (
                #[trigger] after.columns[c])[r] is Some by {
                    assert(after.columns[c][r] == self.columns[c][src]);
                    assert(self.columns[c][src] is Some);
                }
            }
        }
        assert forall|r: int| 0 <= r < self.len() - 1 && r != row implies #[trigger] after.row(r)
            == self.row(r) && after.entities[r] == self.entities[r] by {
            assert forall|key: int| after.get(key, r) == self.get(key, r) by {
                if self.has_column(key) {
                    let c = self.column_of(key);
                    assert(after.types[c].key() == key);
                    assert(after.column_of(key) == c);
                    assert(after.columns[c][r] == self.columns[c][r]);
                }
            }
            assert(after.row(r) =~= self.row(r));
        }
        if row < last {
            assert forall|key: int| after.get(key, row) == self.get(key, last) by {
                if self.has_column(key) {
                    let c = self.column_of(key);
                    assert(after.types[c].key() == key);
                    assert(after.column_of(key) == c);
                    assert(after.columns[c][row] == self.columns[c][last]);
                }
            }
            assert(after.row(row) =~= self.row(last));
        }
    }
}

/// A table of component values: one column per component type, one row per
/// entity, and beside them the entity id of each row.
pub struct Archetype {
    types: Vec<TypeInfo>,
    columns: Vec<Vec<Option<Cell>>>,
    entities: Vec<u32>,
    capacity: usize,
}

impl View for Archetype {
    type V = ArchetypeView;

    closed spec fn view(&self) -> ArchetypeView {
        ArchetypeView {
            types: self.types@,
            entities: self.entities@,
            columns: Seq::new(self.columns@.len(), |c: int| self.columns@[c]@),
            capacity: self.capacity as nat,
        }
    }
}

impl Archetype {
    /// An empty table with one column for each of `types`, which are in
    /// canonical order.
    pub fn new(types: Vec<TypeInfo>) -> (table: Archetype)
        requires
            strictly_increasing(keys_of_types(types@)),
        ensures
            table@.wf(),
            table@.types == types@,
            table@.len() == 0,
            table@.capacity == 0,
    {
        let mut columns: Vec<Vec<Option<Cell>>> = Vec::new();
        let mut c: usize = 0;
        while c < types.len()
            invariant
                c <= types.len(),
                columns@.len() == c,
                forall|j: int| 0 <= j < c ==> (#[trigger] columns@[j])@.len() == 0,
            decreases types.len() - c,
        {
            columns.push(Vec::new());
            c += 1;
        }
        let table = Archetype { types, columns, entities: Vec::new(), capacity: 0 };
        assert(table@.keys() =~= keys_of_types(types@));
        table
    }

    /// The number of rows.
    pub fn len(&self) -> (len: usize)
        ensures
            len == self@.len(),
    {
        self.entities.len()
    }

    /// The number of rows that fit before the table grows again.
    pub fn capacity(&self) -> (capacity: usize)
        ensures
            capacity == self@.capacity,
    {
        self.capacity
    }

    /// The column types, in canonical order.
    pub fn types(&self) -> (types: &Vec<TypeInfo>)
        ensures
            types@ == self@.types,
    {
        &self.types
    }

    /// The entity id of `row`.
    pub fn entity_at(&self, row: usize) -> (id: Option<u32>)
        ensures
            id == (if row < self@.len() {
                Some(self@.entities[row as int])
            } else {
                None
            }),
    {
        if row < self.entities.len() {
            Some(self.entities[row])
        } else {
            None
        }
    }

    /// The column that holds the components of type `ty`.
    pub fn column_of(&self, ty: &TypeInfo) -> (col: Option<usize>)
        requires
            self@.wf(),
        ensures
            match col {
                Some(c) => self@.has_column(ty.key()) && c == self@.column_of(ty.key()),
                None => !self@.has_column(ty.key()),
            },
    {
        let mut c: usize = 0;
        while c < self.types.len()
            invariant
                c <= self.types.len(),
                self@.wf(),
                forall|j: int| 0 <= j < c ==> self.types@[j].key() != ty.key(),
            decreases self.types.len() - c,
        {
            if self.types[c].same_type(ty) {
                proof {
                    self@.lemma_column_of(c as int);
                }
                return Some(c);
            }
            c += 1;
        }
        None
    }

    /// Makes room for more rows: the capacity at least doubles, and the rows
    /// stay as they are.
    pub fn grow(&mut self)
        requires
            old(self)@.wf(),
        ensures
            final(self)@ == (ArchetypeView {
                capacity: ArchetypeView::grown(old(self)@.capacity),
                ..old(self)@
            }),
            final(self)@.wf(),
    {
        let ghost before = self@;
        let capacity = if self.capacity > usize::MAX / 2 {
            usize::MAX
        } else if 2 * self.capacity < MIN_CAPACITY {
            MIN_CAPACITY
        } else {
            2 * self.capacity
        };
        let additional = capacity - self.entities.len();
        self.entities.reserve(additional);
        let mut c: usize = 0;
        while c < self.columns.len()
            invariant
                c <= self.columns.len(),
                self@ == before,
            decreases self.columns.len() - c,
        {
            let column = &mut self.columns[c];
            column.reserve(additional);
            c += 1;
            assert(self@.columns =~= before.columns);
        }
        self.capacity = capacity;
        assert(self@.columns =~= before.columns);
    }

    /// Reserves the next row for entity `id`, growing the table first where
    /// it is full. The row's slots are empty; the rows before it stay as they
    /// are.
    pub fn allocate(&mut self, id: u32) -> (row: usize)
        requires
            old(self)@.wf(),
        ensures
            row == old(self)@.len(),
            final(self)@ == old(self)@.allocated(
                id,
                if old(self)@.len() == old(self)@.capacity {
                    ArchetypeView::grown(old(self)@.capacity)
                } else {
                    old(self)@.capacity
                },
            ),
            final(self)@.wf(),
    {
        if self.entities.len() == self.capacity {
            self.grow();
        }
        let ghost before = self@;
        let row = self.entities.len();
        let mut c: usize = 0;
        while c < self.columns.len()
            invariant
                c <= self.columns.len(),
                self.columns@.len() == before.columns.len(),
                self.types@ == before.types,
                self.entities@ == before.entities,
                self.capacity == before.capacity,
                forall|j: int| 0 <= j < c ==> (#[trigger] self.columns@[j])@ == before.columns[j].push(None),
                forall|j: int|
                    c <= j < self.columns@.len() ==>
                        (#[trigger] self.columns@[j])@ == before.columns[j],
            decreases self.columns.len() - c,
        {
            let column = &mut self.columns[c];
            column.push(None);
            c += 1;
        }
        self.entities.push(id);
        assert(self@.columns =~= before.allocated(id, before.capacity).columns);
        assert(self@.keys() =~= before.keys());
        let rows = self.entities.len();
        assert(rows == before.len() + 1);
        row
    }

    /// Stores `cell` in the slot of column `col` and row `row`; what the slot
    /// held before is dropped.
    pub(crate) fn set_slot(&mut self, col: usize, row: usize, cell: Cell)
        requires
            old(self)@.wf(),
            col < old(self)@.types.len(),
            row < old(self)@.len(),
            cell.key() == old(self)@.types[col as int].key(),
        ensures
            final(self)@ == old(self)@.stored(col as int, row as int, cell),
            final(self)@.wf(),
    {
        let ghost before = self@;
        assert(before.columns[col as int].len() == before.entities.len());
        let column = &mut self.columns[col];
        column[row] = Some(cell);
        assert(self@.columns =~= before.stored(col as int, row as int, cell).columns);
        assert(self@.keys() =~= before.keys());
    }

    /// Moves the components of a bundle into `row`, one into each column.
    /// The cells are in canonical order and of the table's types. The other
    /// rows stay as they are.
    pub(crate) fn store(&mut self, row: usize, cells: Vec<Cell>)
        requires
            old(self)@.wf(),
            row < old(self)@.len(),
            keys_of(cells@) == old(self)@.keys(),
        ensures
            final(self)@.wf(),
            final(self)@.types == old(self)@.types,
            final(self)@.entities == old(self)@.entities,
            final(self)@.capacity == old(self)@.capacity,
            final(self)@.row_full(row as int),
            lists_in_order(cells@, final(self)@.row(row as int)),
            forall|r: int|
                0 <= r < old(self)@.len() && r != row ==> #[trigger] final(self)@.row(r) == old(self)@.row(r)
                    && (old(self)@.row_full(r) ==> final(self)@.row_full(r)),
    {
        let ghost before = self@;
        let ghost all = cells@;
        let mut col: usize = 0;
        let count = cells.len();
        assert(all.len() == before.types.len()) by {
            assert(keys_of(all).len() == before.keys().len());
        }
        for cell in it: cells.into_iter()
            invariant
                it.seq() == all,
                col == it.index(),
                count == all.len(),
                before.wf(),
                row < before.len(),
                keys_of(all) == before.keys(),
                all.len() == before.types.len(),
                self@.wf(),
                self@.types == before.types,
                self@.entities == before.entities,
                self@.capacity == before.capacity,
                forall|j: int| 0 <= j < col ==> self@.columns[j][row as int] == Some(all[j]),
                forall|r: int|
                    0 <= r < before.len() && r != row ==> #[trigger] self@.row(r) == before.row(r) && (
                    before.row_full(r) ==> self@.row_full(r)),
        {
            let ghost now = self@;
            proof {
                assert(keys_of(all)[col as int] == before.keys()[col as int]);
                now.lemma_stored(col as int, row as int, cell);
            }
            self.set_slot(col, row, cell);
            col += 1;
        }
        proof {
            let after = self@;
            assert(after.keys() =~= before.keys());
            assert(col == all.len());
            assert forall|c: int|
                0 <= c < after.columns.len() implies
                (#[trigger] after.columns[c])[row as int] is Some by {
                assert(after.columns[c][row as int] == Some(all[c]));
            }
            assert forall|i: int| 0 <= i < all.len() implies after.row(row as int).contains_key(
                #[trigger] all[i].key(),
            ) && after.row(row as int)[all[i].key()] == all[i] by {
                assert(keys_of(all)[i] == after.keys()[i]);
                after.lemma_column_of(i);
            }
            assert forall|key: int| after.row(row as int).contains_key(key) implies exists|i: int|
                0 <= i < all.len() && #[trigger] all[i].key() == key by {
                let c = after.column_of(key);
                assert(keys_of(all)[c] == after.keys()[c]);
                assert(all[c].key() == key);
            }
        }
    }

    /// Moves one component into `row`, into the column of its type. What the
    /// slot held before is dropped. The table refuses, and stays as it is,
    /// where `row` is not one of its rows or where it has no column for the
    /// component's type; the component is then dropped.
    pub fn put_dynamic(&mut self, cell: Cell, row: usize) -> (result: Result<(), StoreError>)
        requires
            old(self)@.wf(),
        ensures
            final(self)@.wf(),
            result == (if row >= old(self)@.len() {
                Err::<(), StoreError>(StoreError::RowOutOfRange)
            } else if !old(self)@.has_column(cell.key()) {
                Err(StoreError::MissingColumn)
            } else {
                Ok(())
            }),
            final(self)@ == (if result is Ok {
                old(self)@.stored(old(self)@.column_of(cell.key()), row as int, cell)
            } else {
                old(self)@
            }),
    {
        if row >= self.entities.len() {
            return Err(StoreError::RowOutOfRange);
        }
        let info = cell.info();
        match self.column_of(&info) {
            None => Err(StoreError::MissingColumn),
            Some(col) => {
                self.set_slot(col, row, cell);
                Ok(())
            },
        }
    }

    /// The component of type `ty` in `row`: `None` where the table has no
    /// such column or row, or where the slot is still empty.
    pub fn get_dynamic(&self, ty: &TypeInfo, row: usize) -> (cell: Option<&Cell>)
        requires
            self@.wf(),
        ensures
            match cell {
                Some(c) => self@.get(ty.key(), row as int) == Some(*c),
                None => self@.get(ty.key(), row as int) is None,
            },
    {
        match self.column_of(ty) {
            None => None,
            Some(col) => {
                if row < self.entities.len() {
                    assert(self.columns@[col as int]@ == self@.columns[col as int]);
                    self.columns[col][row].as_ref()
                } else {
                    None
                }
            },
        }
    }

    /// The component of type `ty` in `row`, for writing. The table stays as
    /// it is but for that slot, which holds what the caller leaves in it.
    pub(crate) fn get_dynamic_mut(&mut self, ty: &TypeInfo, row: usize) -> (cell: Option<&mut Cell>)
        requires
            old(self)@.wf(),
        ensures
            match cell {
                Some(c) => {
                    &&& old(self)@.get(ty.key(), row as int) == Some(*c)
                    &&& final(self)@ =~= old(self)@.stored(
                        old(self)@.column_of(ty.key()),
                        row as int,
                        *final(c),
                    )
                },
                None => old(self)@.get(ty.key(), row as int) is None && final(self)@ == old(self)@,
            },
    {
        match self.column_of(ty) {
            None => None,
            Some(col) => {
                if row < self.entities.len() {
                    assert(self.columns@[col as int]@ == self@.columns[col as int]);
                    if self.columns[col][row].is_some() {
                        let column = &mut self.columns[col];
                        column[row].as_mut()
                    } else {
                        None
                    }
                } else {
                    None
                }
            },
        }
    }

    /// The component of type `T` in `row`: `None` where the table has no
    /// such column or row, or where the slot is still empty. Else the
    /// result is what `Cell::downcast_ref` gives on the component that the
    /// row holds for the descriptor that `TypeInfo::of` gives for `T`.
    pub fn get<T: Component>(&self, row: usize) -> (value: Option<&T>)
        requires
            self@.wf(),
        ensures
            value is Some ==> row < self@.len(),
            exists|ty: TypeInfo| #[trigger]
                call_ensures(TypeInfo::of::<T>, (), ty) && match self@.get(ty.key(), row as int) {
                    Some(cell) => call_ensures(Cell::downcast_ref::<T>, (&cell,), value),
                    None => value is None,
                },
    {
        let ty = TypeInfo::of::<T>();
        match self.get_dynamic(&ty, row) {
            Some(cell) => cell.downcast_ref::<T>(),
            None => None,
        }
    }

    /// The component of type `T` in `row`, for writing: `None` where the
    /// row holds no component for the descriptor that `TypeInfo::of` gives
    /// for `T`. Else the result is what `Cell::downcast_mut` gives on a
    /// borrow of that component, and the table is as before but for that
    /// slot, which holds the component as the borrow leaves it. Whatever is
    /// written, the table keeps its shape: the same rows, the same columns,
    /// and in every slot a value of the type that was there.
    pub fn get_mut<T: Component>(&mut self, row: usize) -> (value: Option<&mut T>)
        requires
            old(self)@.wf(),
        ensures
            exists|ty: TypeInfo| #[trigger]
                call_ensures(TypeInfo::of::<T>, (), ty) && match old(self)@.get(ty.key(), row as int) {
                    Some(cell) => exists|slot: &mut Cell| #[trigger]
                        call_ensures(Cell::downcast_mut::<T>, (slot,), value) && *slot == cell
                            && final(self)@ == old(self)@.stored(
                            old(self)@.column_of(ty.key()),
                            row as int,
                            *final(slot),
                        ),
                    None => value is None && final(self)@ == old(self)@,
                },
            value is Some ==> row < old(self)@.len(),
            value is None ==> final(self)@ == old(self)@,
            final(self)@.wf(),
            final(self)@.types == old(self)@.types,
            final(self)@.entities == old(self)@.entities,
            final(self)@.capacity == old(self)@.capacity,
            old(self)@.full() ==> final(self)@.full(),
            forall|r: int|
                0 <= r < old(self)@.len() && r != row ==>
                    #[trigger] final(self)@.row(r) == old(self)@.row(r),
            final(self)@.row(row as int).dom() == old(self)@.row(row as int).dom(),
    {
        let ty = TypeInfo::of::<T>();
        proof {
            let before = self@;
            let col = before.column_of(ty.key());
            assert forall|x: Cell|
                before.get(ty.key(), row as int) is Some && x.key() == ty.key() implies {
                let after = #[trigger] before.stored(col, row as int, x);
                &&& after.wf()
                &&& (before.full() ==> after.full())
                &&& after.row(row as int).dom() == before.row(row as int).dom()
                &&& forall|r: int|
                    0 <= r < before.len() && r != row ==>
                        #[trigger] after.row(r) == before.row(r)
                &&& (before.get(ty.key(), row as int) == Some(x) ==> after == before)
            } by {
                let after = before.stored(col, row as int, x);
                before.lemma_stored(col, row as int, x);
                assert(before.row(row as int).contains_key(ty.key()));
                assert(after.row(row as int).dom() =~= before.row(row as int).dom());
                if before.get(ty.key(), row as int) == Some(x) {
                    assert(after.columns[col] =~= before.columns[col]);
                    assert(after.columns =~= before.columns);
                }
            }
        }
        match self.get_dynamic_mut(&ty, row) {
            Some(cell) => cell.downcast_mut::<T>(),
            None => None,
        }
    }

    /// Removes `row` and drops its components. Unless it was the last row,
    /// the last row moves into its place, and the id of the entity that
    /// moved is returned. The table refuses, and stays as it is, where `row`
    /// is not one of its rows.
    pub fn remove(&mut self, row: usize) -> (moved: Result<Option<u32>, StoreError>)
        requires
            old(self)@.wf(),
        ensures
            final(self)@.wf(),
            moved == (if row >= old(self)@.len() {
                Err::<Option<u32>, StoreError>(StoreError::RowOutOfRange)
            } else if row == old(self)@.len() - 1 {
                Ok(None)
            } else {
                Ok(Some(old(self)@.entities.last()))
            }),
            final(self)@ == (if row < old(self)@.len() {
                old(self)@.removed(row as int)
            } else {
                old(self)@
            }),
    {
        if row >= self.entities.len() {
            return Err(StoreError::RowOutOfRange);
        }
        let ghost before = self@;
        let last = self.entities.len() - 1;
        let mut c: usize = 0;
        while c < self.columns.len()
            invariant
                c <= self.columns.len(),
                before.wf(),
                row < before.len(),
                self.columns@.len() == before.columns.len(),
                self.types@ == before.types,
                self.entities@ == before.entities,
                self.capacity == before.capacity,
                forall|j: int| 0 <= j < c ==> (#[trigger] self.columns@[j])@ == before.columns[j].update(
                    row as int,
                    before.columns[j].last(),
                ).drop_last(),
                forall|j: int|
                    c <= j < self.columns@.len() ==>
                        (#[trigger] self.columns@[j])@ == before.columns[j],
            decreases self.columns.len() - c,
        {
            assert(before.columns[c as int].len() == before.entities.len());
            let column = &mut self.columns[c];
            column.swap_remove(row);
            c += 1;
        }
        self.entities.swap_remove(row);
        assert(self@.columns =~= before.removed(row as int).columns);
        proof {
            before.lemma_removed(row as int);
        }
        if row < last {
            Ok(Some(self.entities[row]))
        } else {
            Ok(None)
        }
    }
}

} // verus!
