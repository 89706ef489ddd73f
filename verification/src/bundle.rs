//! Bundles: the components that a new entity receives.
use vstd::prelude::*;
use crate::cell::{Cell, Component};
use core::any::TypeId;
use crate::type_info::{ranks, strictly_increasing};

verus! {

/// The type identities of a list of cells, in the same order.
pub open spec fn ids_of(cells: Seq<Cell>) -> Seq<TypeId> {
    Seq::new(cells.len(), |i: int| cells[i].spec_info().spec_id())
}

/// The ranks of the identities of a list of cells are its keys.
pub proof fn lemma_ranks_of_ids(cells: Seq<Cell>)
    ensures
        ranks(ids_of(cells)) == keys_of(cells),
{
    assert forall|i: int| 0 <= i < cells.len() implies ranks(ids_of(cells))[i] == keys_of(cells)[i] by {
        cells[i].spec_info().lemma_key();
    }
    assert(ranks(ids_of(cells)) =~= keys_of(cells));
}

/// The keys of a list of cells, in the same order.
pub open spec fn keys_of(cells: Seq<Cell>) -> Seq<int> {
    Seq::new(cells.len(), |i: int| cells[i].key())
}

/// The components that a list of cells gives an entity, by the key of their
/// type. Each cell in turn is stored under its type and replaces what was
/// stored there: where a type occurs more than once, its last cell counts.
pub open spec fn staged(cells: Seq<Cell>) -> Map<int, Cell>
    decreases cells.len(),
{
    if cells.len() == 0 {
        Map::empty()
    } else {
        staged(cells.drop_last()).insert(cells.last().key(), cells.last())
    }
}

/// `cells` lists the components of `components` in canonical order: each
/// component once, ordered by the key of its type.
pub open spec fn lists_in_order(cells: Seq<Cell>, components: Map<int, Cell>) -> bool {
    &&& strictly_increasing(keys_of(cells))
    &&& forall|i: int|
        0 <= i < cells.len() ==> components.contains_key(#[trigger] cells[i].key())
            && components[cells[i].key()] == cells[i]
    &&& forall|key: int|
        components.contains_key(key) ==> exists|i: int|
            0 <= i < cells.len() && #[trigger] cells[i].key() == key
}

/// The components of a map have one canonical list.
pub proof fn lemma_one_list(a: Seq<Cell>, b: Seq<Cell>, components: Map<int, Cell>)
    requires
        lists_in_order(a, components),
        lists_in_order(b, components),
    ensures
        a == b,
{
    let ka = keys_of(a);
    let kb = keys_of(b);
    assert forall|x: int| ka.to_set().contains(x) == kb.to_set().contains(x) by {
        if ka.contains(x) {
            let i = choose|i: int| 0 <= i < ka.len() && ka[i] == x;
            assert(a[i].key() == x);
            let j = choose|j: int| 0 <= j < b.len() && #[trigger] b[j].key() == x;
            assert(kb[j] == x);
        }
        if kb.contains(x) {
            let i = choose|i: int| 0 <= i < kb.len() && kb[i] == x;
            assert(b[i].key() == x);
            let j = choose|j: int| 0 <= j < a.len() && #[trigger] a[j].key() == x;
            assert(ka[j] == x);
        }
    }
    assert(ka.to_set() =~= kb.to_set());
    crate::type_info::lemma_canonical_unique(ka, kb);
    assert(a.len() == b.len());
    assert forall|i: int| 0 <= i < a.len() implies a[i] == b[i] by {
        assert(ka[i] == kb[i]);
        assert(a[i].key() == b[i].key());
    }
    assert(a =~= b);
}

/// A list in canonical order determines the components that it lists.
pub proof fn lemma_same_components(cells: Seq<Cell>, a: Map<int, Cell>, b: Map<int, Cell>)
    requires
        lists_in_order(cells, a),
        lists_in_order(cells, b),
    ensures
        a == b,
{
    assert forall|key: int| a.contains_key(key) == b.contains_key(key) by {
        if a.contains_key(key) {
            let i = choose|i: int| 0 <= i < cells.len() && #[trigger] cells[i].key() == key;
            assert(b.contains_key(cells[i].key()));
        }
        if b.contains_key(key) {
            let i = choose|i: int| 0 <= i < cells.len() && #[trigger] cells[i].key() == key;
            assert(a.contains_key(cells[i].key()));
        }
    }
    assert forall|key: int| a.contains_key(key) implies a[key] == b[key] by {
        let i = choose|i: int| 0 <= i < cells.len() && #[trigger] cells[i].key() == key;
        assert(a[cells[i].key()] == cells[i]);
        assert(b[cells[i].key()] == cells[i]);
    }
    assert(a =~= b);
}

/// A canonical list stages the components that it lists.
pub proof fn lemma_staged_of_listed(cells: Seq<Cell>, components: Map<int, Cell>)
    requires
        lists_in_order(cells, components),
    ensures
        staged(cells) == components,
{
    assert forall|key: int| staged(cells).contains_key(key) == components.contains_key(key) by {
        lemma_staged_types(cells, key);
        if staged(cells).contains_key(key) {
            let i = choose|i: int| 0 <= i < cells.len() && (#[trigger] cells[i]).key() == key;
            assert(components.contains_key(cells[i].key()));
        }
        if components.contains_key(key) {
            let i = choose|i: int| 0 <= i < cells.len() && #[trigger] cells[i].key() == key;
            assert(cells[i].key() == key);
        }
    }
    assert(staged(cells).dom() =~= components.dom());
    assert forall|key: int| components.contains_key(key) implies #[trigger] staged(cells)[key]
        == components[key] by {
        let i = choose|i: int| 0 <= i < cells.len() && #[trigger] cells[i].key() == key;
        assert forall|j: int| i < j < cells.len() implies (#[trigger] cells[j]).key() != cells[i].key() by {
            assert(keys_of(cells)[i] < keys_of(cells)[j]);
        }
        lemma_staged_last(cells, i);
        assert(components[cells[i].key()] == cells[i]);
    }
    assert(staged(cells) =~= components);
}

/// The keys of a canonical list are the types of the components that it
/// lists.
pub proof fn lemma_listed_keys(cells: Seq<Cell>, components: Map<int, Cell>)
    requires
        lists_in_order(cells, components),
    ensures
        keys_of(cells).to_set() == components.dom(),
{
    let keys = keys_of(cells);
    assert forall|key: int| keys.to_set().contains(key) == components.dom().contains(key) by {
        if keys.contains(key) {
            let i = choose|i: int| 0 <= i < keys.len() && keys[i] == key;
            assert(cells[i].key() == key);
        }
        if components.contains_key(key) {
            let i = choose|i: int| 0 <= i < cells.len() && #[trigger] cells[i].key() == key;
            assert(keys[i] == key);
        }
    }
    assert(keys.to_set() =~= components.dom());
}

/// A type is among the staged components exactly when some cell is of that
/// type.
pub proof fn lemma_staged_types(cells: Seq<Cell>, key: int)
    ensures
        staged(cells).contains_key(key) <==> exists|i: int|
            0 <= i < cells.len() && (#[trigger] cells[i]).key() == key,
    decreases cells.len(),
{
    if cells.len() > 0 {
        let rest = cells.drop_last();
        lemma_staged_types(rest, key);
        if staged(cells).contains_key(key) {
            if cells.last().key() == key {
                assert(cells[cells.len() - 1].key() == key);
            } else {
                let i = choose|i: int| 0 <= i < rest.len() && (#[trigger] rest[i]).key() == key;
                assert(cells[i].key() == key);
            }
        }
        if exists|i: int| 0 <= i < cells.len() && (#[trigger] cells[i]).key() == key {
            let i = choose|i: int| 0 <= i < cells.len() && (#[trigger] cells[i]).key() == key;
            if i < cells.len() - 1 {
                assert(rest[i].key() == key);
            }
        }
    }
}

/// The component staged for a type is the last cell of that type.
pub proof fn lemma_staged_last(cells: Seq<Cell>, i: int)
    requires
        0 <= i < cells.len(),
        forall|j: int| i < j < cells.len() ==> (#[trigger] cells[j]).key() != cells[i].key(),
    ensures
        staged(cells).contains_key(cells[i].key()),
        staged(cells)[cells[i].key()] == cells[i],
    decreases cells.len(),
{
    if i < cells.len() - 1 {
        let rest = cells.drop_last();
        assert(cells[cells.len() - 1].key() != cells[i].key());
        assert(rest[i] == cells[i]);
        assert forall|j: int| i < j < rest.len() implies (#[trigger] rest[j]).key() != rest[i].key() by {
            assert(rest[j] == cells[j]);
        }
        lemma_staged_last(rest, i);
    }
}

/// Which types a list of cells stages depends on the types of the cells
/// alone, not on their order or number.
pub proof fn lemma_types_ignore_order(a: Seq<Cell>, b: Seq<Cell>)
    requires
        keys_of(a).to_set() == keys_of(b).to_set(),
    ensures
        staged(a).dom() == staged(b).dom(),
{
    assert forall|key: int| staged(a).contains_key(key) == staged(b).contains_key(key) by {
        lemma_staged_types(a, key);
        lemma_staged_types(b, key);
        if staged(a).contains_key(key) {
            let i = choose|i: int| 0 <= i < a.len() && (#[trigger] a[i]).key() == key;
            assert(keys_of(a)[i] == key);
            assert(keys_of(a).to_set().contains(key));
            assert(keys_of(b).contains(key));
            let j = choose|j: int| 0 <= j < keys_of(b).len() && keys_of(b)[j] == key;
            assert(b[j].key() == key);
        }
        if staged(b).contains_key(key) {
            let i = choose|i: int| 0 <= i < b.len() && (#[trigger] b[i]).key() == key;
            assert(keys_of(b)[i] == key);
            assert(keys_of(b).to_set().contains(key));
            assert(keys_of(a).contains(key));
            let j = choose|j: int| 0 <= j < keys_of(a).len() && keys_of(a)[j] == key;
            assert(a[j].key() == key);
        }
    }
    assert(staged(a).dom() =~= staged(b).dom());
}

/// No two cells of the list are of the same type.
pub open spec fn distinct_types(cells: Seq<Cell>) -> bool {
    forall|i: int, j: int|
        0 <= i < j < cells.len() ==> (#[trigger] cells[i]).key() != (#[trigger] cells[j]).key()
}

/// Two lists of the same cells, each of another type, stage the same
/// component for `key`, or both none.
proof fn lemma_order_at(a: Seq<Cell>, b: Seq<Cell>, key: int)
    requires
        distinct_types(a),
        distinct_types(b),
        forall|i: int| 0 <= i < a.len() ==> b.contains(#[trigger] a[i]),
        forall|j: int| 0 <= j < b.len() ==> a.contains(#[trigger] b[j]),
    ensures
        staged(a).contains_key(key) == staged(b).contains_key(key),
        staged(a).contains_key(key) ==> staged(b)[key] == staged(a)[key],
{
    lemma_staged_types(a, key);
    lemma_staged_types(b, key);
    if staged(a).contains_key(key) {
        let i = choose|i: int| 0 <= i < a.len() && (#[trigger] a[i]).key() == key;
        lemma_staged_last(a, i);
        assert(b.contains(a[i]));
        let j = choose|j: int| 0 <= j < b.len() && b[j] == a[i];
        lemma_staged_last(b, j);
    }
    if staged(b).contains_key(key) {
        let j = choose|j: int| 0 <= j < b.len() && (#[trigger] b[j]).key() == key;
        assert(a.contains(b[j]));
        let i = choose|i: int| 0 <= i < a.len() && a[i] == b[j];
        lemma_staged_last(a, i);
    }
}

/// Two lists of the same cells, each of another type, stage the same
/// components, whatever the order of the cells.
pub proof fn lemma_order_is_irrelevant(a: Seq<Cell>, b: Seq<Cell>)
    requires
        distinct_types(a),
        distinct_types(b),
        forall|i: int| 0 <= i < a.len() ==> b.contains(#[trigger] a[i]),
        forall|j: int| 0 <= j < b.len() ==> a.contains(#[trigger] b[j]),
    ensures
        staged(a) == staged(b),
{
    assert forall|key: int| staged(a).contains_key(key) == staged(b).contains_key(key) by {
        lemma_order_at(a, b, key);
    }
    assert(staged(a).dom() =~= staged(b).dom());
    assert forall|key: int|
        staged(a).contains_key(key) implies
        #[trigger] staged(a)[key] == staged(b)[key] by {
        lemma_order_at(a, b, key);
    }
    assert(staged(a) =~= staged(b));
}

/// Puts the components of a bundle in canonical order: one cell per type,
/// ordered by the key of the type. Where a type occurs more than once, its
/// last cell is kept and the earlier ones are dropped.
pub fn canonicalize(cells: Vec<Cell>) -> (ordered: Vec<Cell>)
    ensures
        lists_in_order(ordered@, staged(cells@)),
{
    let ghost all = cells@;
    let mut ordered: Vec<Cell> = Vec::new();
    let mut taken: usize = 0;
    for cell in it: cells.into_iter()
        invariant
            it.seq() == all,
            lists_in_order(ordered@, staged(all.take(it.index() as int))),
    {
        let ghost before = ordered@;
        let ghost prefix = all.take(it.index() as int);
        let ghost components = staged(prefix);
        proof {
            assert(all.take(it.index() + 1).drop_last() =~= prefix);
            assert(all.take(it.index() + 1).last() == cell);
        }
        let info = cell.info();
        let mut at: usize = 0;
        while at < ordered.len() && ordered[at].info().precedes(&info)
            invariant
                at <= ordered.len(),
                ordered@ == before,
                info == cell.spec_info(),
                strictly_increasing(keys_of(before)),
                forall|j: int| 0 <= j < at ==> (#[trigger] before[j]).key() < cell.key(),
            decreases ordered.len() - at,
        {
            at += 1;
        }
        proof {
            assert forall|j: int| at < j < before.len() implies (#[trigger] before[j]).key() > cell.key() by {
                assert(keys_of(before)[at as int] < keys_of(before)[j]);
            }
        }
        if at < ordered.len() && ordered[at].info().same_type(&info) {
            ordered[at] = cell;
            proof {
                let after = ordered@;
                let next = components.insert(cell.key(), cell);
                assert forall|i: int, j: int|
                    0 <= i < j < after.len() implies
                    keys_of(after)[i] < keys_of(after)[j] by {
                    assert(keys_of(before)[i] < keys_of(before)[j]);
                }
                assert forall|key: int| next.contains_key(key) implies exists|i: int|
                    0 <= i < after.len() && #[trigger] after[i].key() == key by {
                    if key == cell.key() {
                        assert(after[at as int].key() == key);
                    } else {
                        let i = choose|i: int| 0 <= i < before.len() && #[trigger] before[i].key() == key;
                        assert(after[i].key() == key);
                    }
                }
                assert forall|i: int| 0 <= i < after.len() implies next.contains_key(#[trigger] after[i].key())
                    && next[after[i].key()] == after[i] by {
                    if i != at {
                        assert(after[i] == before[i]);
                        assert(keys_of(before)[i] != keys_of(before)[at as int]);
                    }
                }
            }
        } else {
            ordered.insert(at, cell);
            proof {
                let after = ordered@;
                let next = components.insert(cell.key(), cell);
                assert forall|i: int, j: int|
                    0 <= i < j < after.len() implies
                    keys_of(after)[i] < keys_of(after)[j] by {
                    let bi = if i < at { i } else { i - 1 };
                    let bj = if j < at { j } else { j - 1 };
                    if i != at && j != at {
                        assert(keys_of(before)[bi] < keys_of(before)[bj]);
                    } else if i == at {
                        assert(after[j] == before[bj]);
                        if bj > at {
                            assert(before[bj].key() > cell.key());
                        }
                    } else {
                        assert(after[i] == before[bi]);
                    }
                }
                assert forall|key: int| next.contains_key(key) implies exists|i: int|
                    0 <= i < after.len() && #[trigger] after[i].key() == key by {
                    if key == cell.key() {
                        assert(after[at as int].key() == key);
                    } else {
                        let i = choose|i: int| 0 <= i < before.len() && #[trigger] before[i].key() == key;
                        let ai = if i < at { i } else { i + 1 };
                        assert(after[ai] == before[i]);
                        assert(after[ai].key() == key);
                    }
                }
                assert forall|i: int| 0 <= i < after.len() implies next.contains_key(#[trigger] after[i].key())
                    && next[after[i].key()] == after[i] by {
                    if i != at {
                        let bi = if i < at { i } else { i - 1 };
                        assert(after[i] == before[bi]);
                        if bi < at {
                            assert(before[bi].key() < cell.key());
                        } else if bi > at {
                            assert(before[bi].key() > cell.key());
                        }
                    }
                }
            }
        }
    }
    proof {
        assert(all.take(all.len() as int) =~= all);
    }
    ordered
}

/// A bundle: anything that can hand over the components of a new entity,
/// each as a cell. Tuples of up to fifteen components are bundles, and so is
/// what an `EntityBuilder` builds.
pub trait ComponentSet: Sized {
    /// Hands over the components. The order does not matter.
    fn into_cells(self) -> Vec<Cell>;
}

impl<A: Component> ComponentSet for (A,) {
    fn into_cells(self) -> (cells: Vec<Cell>)
        ensures
            cells@.len() == 1,
            call_ensures(Cell::new::<A>, (self.0,), cells@[0]),
    {
        let mut cells: Vec<Cell> = Vec::new();
        cells.push(Cell::new(self.0));
        cells
    }
}

impl<A: Component, B: Component> ComponentSet for (A, B) {
    fn into_cells(self) -> (cells: Vec<Cell>)
        ensures
            cells@.len() == 2,
            call_ensures(Cell::new::<A>, (self.0,), cells@[0]),
            call_ensures(Cell::new::<B>, (self.1,), cells@[1]),
    {
        let mut cells: Vec<Cell> = Vec::new();
        cells.push(Cell::new(self.0));
        cells.push(Cell::new(self.1));
        cells
    }
}

impl<A: Component, B: Component, C: Component> ComponentSet for (A, B, C) {
    fn into_cells(self) -> (cells: Vec<Cell>)
        ensures
            cells@.len() == 3,
            call_ensures(Cell::new::<A>, (self.0,), cells@[0]),
            call_ensures(Cell::new::<B>, (self.1,), cells@[1]),
            call_ensures(Cell::new::<C>, (self.2,), cells@[2]),
    {
        let mut cells: Vec<Cell> = Vec::new();
        cells.push(Cell::new(self.0));
        cells.push(Cell::new(self.1));
        cells.push(Cell::new(self.2));
        cells
    }
}

impl<A: Component, B: Component, C: Component, D: Component> ComponentSet for (A, B, C, D) {
    fn into_cells(self) -> (cells: Vec<Cell>)
        ensures
            cells@.len() == 4,
            call_ensures(Cell::new::<A>, (self.0,), cells@[0]),
            call_ensures(Cell::new::<B>, (self.1,), cells@[1]),
            call_ensures(Cell::new::<C>, (self.2,), cells@[2]),
            call_ensures(Cell::new::<D>, (self.3,), cells@[3]),
    {
        let mut cells: Vec<Cell> = Vec::new();
        cells.push(Cell::new(self.0));
        cells.push(Cell::new(self.1));
        cells.push(Cell::new(self.2));
        cells.push(Cell::new(self.3));
        cells
    }
}

impl<
    A: Component,
    B: Component,
    C: Component,
    D: Component,
    E: Component,
> ComponentSet for (A, B, C, D, E) {
    fn into_cells(self) -> (cells: Vec<Cell>)
        ensures
            cells@.len() == 5,
            call_ensures(Cell::new::<A>, (self.0,), cells@[0]),
            call_ensures(Cell::new::<B>, (self.1,), cells@[1]),
            call_ensures(Cell::new::<C>, (self.2,), cells@[2]),
            call_ensures(Cell::new::<D>, (self.3,), cells@[3]),
            call_ensures(Cell::new::<E>, (self.4,), cells@[4]),
    {
        let mut cells: Vec<Cell> = Vec::new();
        cells.push(Cell::new(self.0));
        cells.push(Cell::new(self.1));
        cells.push(Cell::new(self.2));
        cells.push(Cell::new(self.3));
        cells.push(Cell::new(self.4));
        cells
    }
}

impl<
    A: Component,
    B: Component,
    C: Component,
    D: Component,
    E: Component,
    F: Component,
> ComponentSet for (A, B, C, D, E, F) {
    fn into_cells(self) -> (cells: Vec<Cell>)
        ensures
            cells@.len() == 6,
            call_ensures(Cell::new::<A>, (self.0,), cells@[0]),
            call_ensures(Cell::new::<B>, (self.1,), cells@[1]),
            call_ensures(Cell::new::<C>, (self.2,), cells@[2]),
            call_ensures(Cell::new::<D>, (self.3,), cells@[3]),
            call_ensures(Cell::new::<E>, (self.4,), cells@[4]),
            call_ensures(Cell::new::<F>, (self.5,), cells@[5]),
    {
        let mut cells: Vec<Cell> = Vec::new();
        cells.push(Cell::new(self.0));
        cells.push(Cell::new(self.1));
        cells.push(Cell::new(self.2));
        cells.push(Cell::new(self.3));
        cells.push(Cell::new(self.4));
        cells.push(Cell::new(self.5));
        cells
    }
}

impl<
    A: Component,
    B: Component,
    C: Component,
    D: Component,
    E: Component,
    F: Component,
    G: Component,
> ComponentSet for (A, B, C, D, E, F, G) {
    fn into_cells(self) -> (cells: Vec<Cell>)
        ensures
            cells@.len() == 7,
            call_ensures(Cell::new::<A>, (self.0,), cells@[0]),
            call_ensures(Cell::new::<B>, (self.1,), cells@[1]),
            call_ensures(Cell::new::<C>, (self.2,), cells@[2]),
            call_ensures(Cell::new::<D>, (self.3,), cells@[3]),
            call_ensures(Cell::new::<E>, (self.4,), cells@[4]),
            call_ensures(Cell::new::<F>, (self.5,), cells@[5]),
            call_ensures(Cell::new::<G>, (self.6,), cells@[6]),
    {
        let mut cells: Vec<Cell> = Vec::new();
        cells.push(Cell::new(self.0));
        cells.push(Cell::new(self.1));
        cells.push(Cell::new(self.2));
        cells.push(Cell::new(self.3));
        cells.push(Cell::new(self.4));
        cells.push(Cell::new(self.5));
        cells.push(Cell::new(self.6));
        cells
    }
}

impl<
    A: Component,
    B: Component,
    C: Component,
    D: Component,
    E: Component,
    F: Component,
    G: Component,
    H: Component,
> ComponentSet for (A, B, C, D, E, F, G, H) {
    fn into_cells(self) -> (cells: Vec<Cell>)
        ensures
            cells@.len() == 8,
            call_ensures(Cell::new::<A>, (self.0,), cells@[0]),
            call_ensures(Cell::new::<B>, (self.1,), cells@[1]),
            call_ensures(Cell::new::<C>, (self.2,), cells@[2]),
            call_ensures(Cell::new::<D>, (self.3,), cells@[3]),
            call_ensures(Cell::new::<E>, (self.4,), cells@[4]),
            call_ensures(Cell::new::<F>, (self.5,), cells@[5]),
            call_ensures(Cell::new::<G>, (self.6,), cells@[6]),
            call_ensures(Cell::new::<H>, (self.7,), cells@[7]),
    {
        let mut cells: Vec<Cell> = Vec::new();
        cells.push(Cell::new(self.0));
        cells.push(Cell::new(self.1));
        cells.push(Cell::new(self.2));
        cells.push(Cell::new(self.3));
        cells.push(Cell::new(self.4));
        cells.push(Cell::new(self.5));
        cells.push(Cell::new(self.6));
        cells.push(Cell::new(self.7));
        cells
    }
}

impl<
    A: Component,
    B: Component,
    C: Component,
    D: Component,
    E: Component,
    F: Component,
    G: Component,
    H: Component,
    I: Component,
> ComponentSet for (A, B, C, D, E, F, G, H, I) {
    fn into_cells(self) -> (cells: Vec<Cell>)
        ensures
            cells@.len() == 9,
            call_ensures(Cell::new::<A>, (self.0,), cells@[0]),
            call_ensures(Cell::new::<B>, (self.1,), cells@[1]),
            call_ensures(Cell::new::<C>, (self.2,), cells@[2]),
            call_ensures(Cell::new::<D>, (self.3,), cells@[3]),
            call_ensures(Cell::new::<E>, (self.4,), cells@[4]),
            call_ensures(Cell::new::<F>, (self.5,), cells@[5]),
            call_ensures(Cell::new::<G>, (self.6,), cells@[6]),
            call_ensures(Cell::new::<H>, (self.7,), cells@[7]),
            call_ensures(Cell::new::<I>, (self.8,), cells@[8]),
    {
        let mut cells: Vec<Cell> = Vec::new();
        cells.push(Cell::new(self.0));
        cells.push(Cell::new(self.1));
        cells.push(Cell::new(self.2));
        cells.push(Cell::new(self.3));
        cells.push(Cell::new(self.4));
        cells.push(Cell::new(self.5));
        cells.push(Cell::new(self.6));
        cells.push(Cell::new(self.7));
        cells.push(Cell::new(self.8));
        cells
    }
}

impl<
    A: Component,
    B: Component,
    C: Component,
    D: Component,
    E: Component,
    F: Component,
    G: Component,
    H: Component,
    I: Component,
    J: Component,
> ComponentSet for (A, B, C, D, E, F, G, H, I, J) {
    fn into_cells(self) -> (cells: Vec<Cell>)
        ensures
            cells@.len() == 10,
            call_ensures(Cell::new::<A>, (self.0,), cells@[0]),
            call_ensures(Cell::new::<B>, (self.1,), cells@[1]),
            call_ensures(Cell::new::<C>, (self.2,), cells@[2]),
            call_ensures(Cell::new::<D>, (self.3,), cells@[3]),
            call_ensures(Cell::new::<E>, (self.4,), cells@[4]),
            call_ensures(Cell::new::<F>, (self.5,), cells@[5]),
            call_ensures(Cell::new::<G>, (self.6,), cells@[6]),
            call_ensures(Cell::new::<H>, (self.7,), cells@[7]),
            call_ensures(Cell::new::<I>, (self.8,), cells@[8]),
            call_ensures(Cell::new::<J>, (self.9,), cells@[9]),
    {
        let mut cells: Vec<Cell> = Vec::new();
        cells.push(Cell::new(self.0));
        cells.push(Cell::new(self.1));
        cells.push(Cell::new(self.2));
        cells.push(Cell::new(self.3));
        cells.push(Cell::new(self.4));
        cells.push(Cell::new(self.5));
        cells.push(Cell::new(self.6));
        cells.push(Cell::new(self.7));
        cells.push(Cell::new(self.8));
        cells.push(Cell::new(self.9));
        cells
    }
}

impl<
    A: Component,
    B: Component,
    C: Component,
    D: Component,
    E: Component,
    F: Component,
    G: Component,
    H: Component,
    I: Component,
    J: Component,
    K: Component,
> ComponentSet for (A, B, C, D, E, F, G, H, I, J, K) {
    fn into_cells(self) -> (cells: Vec<Cell>)
        ensures
            cells@.len() == 11,
            call_ensures(Cell::new::<A>, (self.0,), cells@[0]),
            call_ensures(Cell::new::<B>, (self.1,), cells@[1]),
            call_ensures(Cell::new::<C>, (self.2,), cells@[2]),
            call_ensures(Cell::new::<D>, (self.3,), cells@[3]),
            call_ensures(Cell::new::<E>, (self.4,), cells@[4]),
            call_ensures(Cell::new::<F>, (self.5,), cells@[5]),
            call_ensures(Cell::new::<G>, (self.6,), cells@[6]),
            call_ensures(Cell::new::<H>, (self.7,), cells@[7]),
            call_ensures(Cell::new::<I>, (self.8,), cells@[8]),
            call_ensures(Cell::new::<J>, (self.9,), cells@[9]),
            call_ensures(Cell::new::<K>, (self.10,), cells@[10]),
    {
        let mut cells: Vec<Cell> = Vec::new();
        cells.push(Cell::new(self.0));
        cells.push(Cell::new(self.1));
        cells.push(Cell::new(self.2));
        cells.push(Cell::new(self.3));
        cells.push(Cell::new(self.4));
        cells.push(Cell::new(self.5));
        cells.push(Cell::new(self.6));
        cells.push(Cell::new(self.7));
        cells.push(Cell::new(self.8));
        cells.push(Cell::new(self.9));
        cells.push(Cell::new(self.10));
        cells
    }
}

impl<
    A: Component,
    B: Component,
    C: Component,
    D: Component,
    E: Component,
    F: Component,
    G: Component,
    H: Component,
    I: Component,
    J: Component,
    K: Component,
    L: Component,
> ComponentSet for (A, B, C, D, E, F, G, H, I, J, K, L) {
    fn into_cells(self) -> (cells: Vec<Cell>)
        ensures
            cells@.len() == 12,
            call_ensures(Cell::new::<A>, (self.0,), cells@[0]),
            call_ensures(Cell::new::<B>, (self.1,), cells@[1]),
            call_ensures(Cell::new::<C>, (self.2,), cells@[2]),
            call_ensures(Cell::new::<D>, (self.3,), cells@[3]),
            call_ensures(Cell::new::<E>, (self.4,), cells@[4]),
            call_ensures(Cell::new::<F>, (self.5,), cells@[5]),
            call_ensures(Cell::new::<G>, (self.6,), cells@[6]),
            call_ensures(Cell::new::<H>, (self.7,), cells@[7]),
            call_ensures(Cell::new::<I>, (self.8,), cells@[8]),
            call_ensures(Cell::new::<J>, (self.9,), cells@[9]),
            call_ensures(Cell::new::<K>, (self.10,), cells@[10]),
            call_ensures(Cell::new::<L>, (self.11,), cells@[11]),
    {
        let mut cells: Vec<Cell> = Vec::new();
        cells.push(Cell::new(self.0));
        cells.push(Cell::new(self.1));
        cells.push(Cell::new(self.2));
        cells.push(Cell::new(self.3));
        cells.push(Cell::new(self.4));
        cells.push(Cell::new(self.5));
        cells.push(Cell::new(self.6));
        cells.push(Cell::new(self.7));
        cells.push(Cell::new(self.8));
        cells.push(Cell::new(self.9));
        cells.push(Cell::new(self.10));
        cells.push(Cell::new(self.11));
        cells
    }
}

impl<
    A: Component,
    B: Component,
    C: Component,
    D: Component,
    E: Component,
    F: Component,
    G: Component,
    H: Component,
    I: Component,
    J: Component,
    K: Component,
    L: Component,
    M: Component,
> ComponentSet for (A, B, C, D, E, F, G, H, I, J, K, L, M) {
    fn into_cells(self) -> (cells: Vec<Cell>)
        ensures
            cells@.len() == 13,
            call_ensures(Cell::new::<A>, (self.0,), cells@[0]),
            call_ensures(Cell::new::<B>, (self.1,), cells@[1]),
            call_ensures(Cell::new::<C>, (self.2,), cells@[2]),
            call_ensures(Cell::new::<D>, (self.3,), cells@[3]),
            call_ensures(Cell::new::<E>, (self.4,), cells@[4]),
            call_ensures(Cell::new::<F>, (self.5,), cells@[5]),
            call_ensures(Cell::new::<G>, (self.6,), cells@[6]),
            call_ensures(Cell::new::<H>, (self.7,), cells@[7]),
            call_ensures(Cell::new::<I>, (self.8,), cells@[8]),
            call_ensures(Cell::new::<J>, (self.9,), cells@[9]),
            call_ensures(Cell::new::<K>, (self.10,), cells@[10]),
            call_ensures(Cell::new::<L>, (self.11,), cells@[11]),
            call_ensures(Cell::new::<M>, (self.12,), cells@[12]),
    {
        let mut cells: Vec<Cell> = Vec::new();
        cells.push(Cell::new(self.0));
        cells.push(Cell::new(self.1));
        cells.push(Cell::new(self.2));
        cells.push(Cell::new(self.3));
        cells.push(Cell::new(self.4));
        cells.push(Cell::new(self.5));
        cells.push(Cell::new(self.6));
        cells.push(Cell::new(self.7));
        cells.push(Cell::new(self.8));
        cells.push(Cell::new(self.9));
        cells.push(Cell::new(self.10));
        cells.push(Cell::new(self.11));
        cells.push(Cell::new(self.12));
        cells
    }
}

impl<
    A: Component,
    B: Component,
    C: Component,
    D: Component,
    E: Component,
    F: Component,
    G: Component,
    H: Component,
    I: Component,
    J: Component,
    K: Component,
    L: Component,
    M: Component,
    N: Component,
> ComponentSet for (A, B, C, D, E, F, G, H, I, J, K, L, M, N) {
    fn into_cells(self) -> (cells: Vec<Cell>)
        ensures
            cells@.len() == 14,
            call_ensures(Cell::new::<A>, (self.0,), cells@[0]),
            call_ensures(Cell::new::<B>, (self.1,), cells@[1]),
            call_ensures(Cell::new::<C>, (self.2,), cells@[2]),
            call_ensures(Cell::new::<D>, (self.3,), cells@[3]),
            call_ensures(Cell::new::<E>, (self.4,), cells@[4]),
            call_ensures(Cell::new::<F>, (self.5,), cells@[5]),
            call_ensures(Cell::new::<G>, (self.6,), cells@[6]),
            call_ensures(Cell::new::<H>, (self.7,), cells@[7]),
            call_ensures(Cell::new::<I>, (self.8,), cells@[8]),
            call_ensures(Cell::new::<J>, (self.9,), cells@[9]),
            call_ensures(Cell::new::<K>, (self.10,), cells@[10]),
            call_ensures(Cell::new::<L>, (self.11,), cells@[11]),
            call_ensures(Cell::new::<M>, (self.12,), cells@[12]),
            call_ensures(Cell::new::<N>, (self.13,), cells@[13]),
    {
        let mut cells: Vec<Cell> = Vec::new();
        cells.push(Cell::new(self.0));
        cells.push(Cell::new(self.1));
        cells.push(Cell::new(self.2));
        cells.push(Cell::new(self.3));
        cells.push(Cell::new(self.4));
        cells.push(Cell::new(self.5));
        cells.push(Cell::new(self.6));
        cells.push(Cell::new(self.7));
        cells.push(Cell::new(self.8));
        cells.push(Cell::new(self.9));
        cells.push(Cell::new(self.10));
        cells.push(Cell::new(self.11));
        cells.push(Cell::new(self.12));
        cells.push(Cell::new(self.13));
        cells
    }
}

impl<
    A: Component,
    B: Component,
    C: Component,
    D: Component,
    E: Component,
    F: Component,
    G: Component,
    H: Component,
    I: Component,
    J: Component,
    K: Component,
    L: Component,
    M: Component,
    N: Component,
    O: Component,
> ComponentSet for (A, B, C, D, E, F, G, H, I, J, K, L, M, N, O) {
    fn into_cells(self) -> (cells: Vec<Cell>)
        ensures
            cells@.len() == 15,
            call_ensures(Cell::new::<A>, (self.0,), cells@[0]),
            call_ensures(Cell::new::<B>, (self.1,), cells@[1]),
            call_ensures(Cell::new::<C>, (self.2,), cells@[2]),
            call_ensures(Cell::new::<D>, (self.3,), cells@[3]),
            call_ensures(Cell::new::<E>, (self.4,), cells@[4]),
            call_ensures(Cell::new::<F>, (self.5,), cells@[5]),
            call_ensures(Cell::new::<G>, (self.6,), cells@[6]),
            call_ensures(Cell::new::<H>, (self.7,), cells@[7]),
            call_ensures(Cell::new::<I>, (self.8,), cells@[8]),
            call_ensures(Cell::new::<J>, (self.9,), cells@[9]),
            call_ensures(Cell::new::<K>, (self.10,), cells@[10]),
            call_ensures(Cell::new::<L>, (self.11,), cells@[11]),
            call_ensures(Cell::new::<M>, (self.12,), cells@[12]),
            call_ensures(Cell::new::<N>, (self.13,), cells@[13]),
            call_ensures(Cell::new::<O>, (self.14,), cells@[14]),
    {
        let mut cells: Vec<Cell> = Vec::new();
        cells.push(Cell::new(self.0));
        cells.push(Cell::new(self.1));
        cells.push(Cell::new(self.2));
        cells.push(Cell::new(self.3));
        cells.push(Cell::new(self.4));
        cells.push(Cell::new(self.5));
        cells.push(Cell::new(self.6));
        cells.push(Cell::new(self.7));
        cells.push(Cell::new(self.8));
        cells.push(Cell::new(self.9));
        cells.push(Cell::new(self.10));
        cells.push(Cell::new(self.11));
        cells.push(Cell::new(self.12));
        cells.push(Cell::new(self.13));
        cells.push(Cell::new(self.14));
        cells
    }
}

} // verus!
