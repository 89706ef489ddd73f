//! Type descriptors and the canonical order of component types.
use vstd::prelude::*;
use core::any::TypeId;

verus! {

/// `core::any::TypeId`: the identity of a type, held as an opaque token.
#[verifier::external_type_specification]
#[verifier::external_body]
pub struct ExTypeId(TypeId);

/// The place of a type identity in the order of `TypeId`s.
///
/// `TypeId` is `Eq` and `Ord`: its identities are totally ordered, and two of
/// them compare equal exactly when they are the same identity. `type_rank`
/// numbers the identities along that order, so that comparing two identities
/// is comparing their ranks. Nothing else is known of the numbers.
pub uninterp spec fn type_rank(id: TypeId) -> int;

/// Calls `TypeId::of::<T>()`. Nothing is claimed of the identity returned.
#[verifier::external_body]
fn type_id_of<T: 'static>() -> (id: TypeId) {
    TypeId::of::<T>()
}

/// Calls `==` of `TypeId`. Two identities are equal exactly when their ranks are.
#[verifier::external_body]
fn same_id(a: &TypeId, b: &TypeId) -> (r: bool)
    ensures
        r == (type_rank(*a) == type_rank(*b)),
{
    a == b
}

/// Calls `<` of `TypeId`. One identity is below another exactly when its rank is.
#[verifier::external_body]
fn id_precedes(a: &TypeId, b: &TypeId) -> (r: bool)
    ensures
        r == (type_rank(*a) < type_rank(*b)),
{
    a < b
}

/// The ranks of a sequence of type identities, in the same order.
pub open spec fn ranks(ids: Seq<TypeId>) -> Seq<int> {
    Seq::new(ids.len(), |i: int| type_rank(ids[i]))
}

/// A sequence of keys is canonical when it is strictly increasing: each key
/// occurs once, and the order does not depend on how the keys were supplied.
pub open spec fn strictly_increasing(keys: Seq<int>) -> bool {
    forall|i: int, j: int| 0 <= i < j < keys.len() ==> keys[i] < keys[j]
}

/// A set of keys has at most one canonical sequence.
pub proof fn lemma_canonical_unique(a: Seq<int>, b: Seq<int>)
    requires
        strictly_increasing(a),
        strictly_increasing(b),
        a.to_set() == b.to_set(),
    ensures
        a == b,
    decreases a.len(),
{
    if a.len() == 0 {
        if b.len() > 0 {
            assert(b.to_set().contains(b[0]));
            assert(a.contains(b[0]));
        }
        assert(a =~= b);
    } else {
        assert(a.to_set().contains(a.last()));
        assert(b.contains(a.last()));
        assert(b.len() > 0);
        assert(b.to_set().contains(b.last()));
        assert(a.contains(b.last()));
        assert(a.last() == b.last());
        let a0 = a.drop_last();
        let b0 = b.drop_last();
        assert forall|x: int| a0.to_set().contains(x) == b0.to_set().contains(x) by {
            if a0.contains(x) {
                let i = choose|i: int| 0 <= i < a0.len() && a0[i] == x;
                assert(a[i] == x);
                assert(a.to_set().contains(x));
                assert(b.contains(x));
                let j = choose|j: int| 0 <= j < b.len() && b[j] == x;
                assert(j < b.len() - 1);
                assert(b0[j] == x);
            }
            if b0.contains(x) {
                let i = choose|i: int| 0 <= i < b0.len() && b0[i] == x;
                assert(b[i] == x);
                assert(b.to_set().contains(x));
                assert(a.contains(x));
                let j = choose|j: int| 0 <= j < a.len() && a[j] == x;
                assert(j < a.len() - 1);
                assert(a0[j] == x);
            }
        }
        assert(a0.to_set() =~= b0.to_set());
        lemma_canonical_unique(a0, b0);
        assert(a =~= a0.push(a.last()));
        assert(b =~= b0.push(b.last()));
    }
}

/// The descriptor of a component type: its identity, size and alignment.
///
/// Descriptors are compared by identity alone. The order of their keys is the
/// canonical order of component types.
#[derive(Clone, Copy, Debug)]
pub struct TypeInfo {
    id: TypeId,
    size: usize,
    align: usize,
}

impl TypeInfo {
    /// The key of the described type: the rank of its identity.
    pub closed spec fn key(&self) -> int {
        type_rank(self.id)
    }

    /// The identity of the described type.
    pub closed spec fn spec_id(&self) -> TypeId {
        self.id
    }

    /// The size in bytes of a value of the described type.
    pub closed spec fn spec_size(&self) -> usize {
        self.size
    }

    /// The alignment in bytes of the described type.
    pub closed spec fn spec_align(&self) -> usize {
        self.align
    }

    /// The key is the rank of the identity.
    pub proof fn lemma_key(&self)
        ensures
            self.key() == type_rank(self.spec_id()),
    {
    }

    /// Whether the identity is one that `TypeId::of` gave for `T`.
    pub closed spec fn is_of<T: 'static>(&self) -> bool {
        call_ensures(type_id_of::<T>, (), self.id)
    }

    /// The descriptor of `T`: the identity that `TypeId::of` gives for `T`,
    /// with the size and the alignment of `T`.
    pub fn of<T: 'static>() -> (info: TypeInfo)
        ensures
            info.is_of::<T>(),
            info.spec_size() as nat == vstd::layout::size_of::<T>(),
            info.spec_align() as nat == vstd::layout::align_of::<T>(),
    {
        TypeInfo {
            id: type_id_of::<T>(),
            size: core::mem::size_of::<T>(),
            align: core::mem::align_of::<T>(),
        }
    }

    pub fn id(&self) -> (id: TypeId)
        ensures
            id == self.spec_id(),
            type_rank(id) == self.key(),
    {
        self.id
    }

    pub fn size(&self) -> (size: usize)
        ensures
            size == self.spec_size(),
    {
        self.size
    }

    pub fn align(&self) -> (align: usize)
        ensures
            align == self.spec_align(),
    {
        self.align
    }

    /// Whether both descriptors describe the same type.
    pub fn same_type(&self, other: &TypeInfo) -> (r: bool)
        ensures
            r == (self.key() == other.key()),
    {
        same_id(&self.id, &other.id)
    }

    /// Whether this type comes before `other` in the canonical order.
    pub fn precedes(&self, other: &TypeInfo) -> (r: bool)
        ensures
            r == (self.key() < other.key()),
    {
        id_precedes(&self.id, &other.id)
    }

    /// Whether both descriptors give the same size and alignment.
    pub fn same_layout(&self, other: &TypeInfo) -> (r: bool)
        ensures
            r == (self.spec_size() == other.spec_size() && self.spec_align() == other.spec_align()),
    {
        self.size == other.size && self.align == other.align
    }
}

/// The keys of a list of descriptors, in the same order.
pub open spec fn keys_of_types(types: Seq<TypeInfo>) -> Seq<int> {
    Seq::new(types.len(), |i: int| types[i].key())
}

/// Whether `types` is in canonical order: no type twice, and each before
/// the next.
pub fn in_canonical_order(types: &Vec<TypeInfo>) -> (r: bool)
    ensures
        r == strictly_increasing(keys_of_types(types@)),
{
    let ghost keys = keys_of_types(types@);
    let mut i: usize = 1;
    while i < types.len()
        invariant
            1 <= i,
            keys == keys_of_types(types@),
            forall|a: int, b: int| 0 <= a < b < i && b < keys.len() ==> keys[a] < keys[b],
        decreases types.len() - i,
    {
        if !types[i - 1].precedes(&types[i]) {
            assert(!(keys[i - 1] < keys[i as int]));
            return false;
        }
        assert forall|a: int, b: int| 0 <= a < b < i + 1 && b < keys.len() implies keys[a] < keys[b] by {
            if b == i && a < i - 1 {
                assert(keys[a] < keys[i - 1]);
            }
        }
        i += 1;
    }
    true
}

} // verus!
