//! Per-binding type slots, indexed by binding id.

use vstd::prelude::*;

use std::marker::PhantomData;

use super::error::TypeCheckError;
use super::typed_ast::{Type, TypeView, TypedBinding};
use super::unification::{UNIFY_FUEL, UnificationMap, spec_subst};
use crate::binding_resolution::binding_resolved::{BindingId, ResolvedBinding, TypeBindingId};

verus! {

/// An id that stands for a position in a table.
pub trait Indexable: Sized {
    spec fn spec_index(self) -> nat;

    fn get_index(self) -> (index: usize)
        ensures
            index == self.spec_index(),
    ;

    fn new(val: usize) -> (id: Self)
        ensures
            id.spec_index() == val,
    ;
}

impl Indexable for BindingId {
    open spec fn spec_index(self) -> nat {
        self.0 as nat
    }

    fn get_index(self) -> (index: usize) {
        self.0
    }

    fn new(val: usize) -> (id: Self) {
        BindingId(val)
    }
}

impl Indexable for TypeBindingId {
    open spec fn spec_index(self) -> nat {
        self.0 as nat
    }

    fn get_index(self) -> (index: usize) {
        self.0
    }

    fn new(val: usize) -> (id: Self) {
        TypeBindingId(val)
    }
}

pub open spec fn option_type_view(t: Option<Type>) -> Option<TypeView> {
    match t {
        Some(t) => Some(t@),
        None => None,
    }
}

/// One optional type per binding.
pub struct GenericTypeMap<TBindingId> {
    types: Vec<Option<Type>>,
    marker: PhantomData<TBindingId>,
}

impl<TBindingId: Indexable> GenericTypeMap<TBindingId> {
    pub closed spec fn slots(&self) -> Seq<Option<TypeView>> {
        self.types@.map_values(|t: Option<Type>| option_type_view(t))
    }

    /// `binding_count` empty slots.
    pub fn new(binding_count: usize) -> (map: GenericTypeMap<TBindingId>)
        ensures
            map.slots().len() == binding_count,
            forall|i: int| 0 <= i < binding_count ==> #[trigger] map.slots()[i] is None,
    {
        let mut types: Vec<Option<Type>> = Vec::new();
        let mut i: usize = 0;
        while i < binding_count
            invariant
                0 <= i <= binding_count,
                types@.len() == i,
                forall|j: int| 0 <= j < i ==> #[trigger] types@[j] is None,
            decreases binding_count - i,
        {
            types.push(None);
            i = i + 1;
        }
        GenericTypeMap { types, marker: PhantomData }
    }

    pub fn set(&mut self, id: TBindingId, ty: Type)
        requires
            id.spec_index() < old(self).slots().len(),
        ensures
            final(self).slots() == old(self).slots().update(id.spec_index() as int, Some(ty@)),
    {
        let index = id.get_index();
        self.types.set(index, Some(ty));
        assert(self.slots() =~= old(self).slots().update(id.spec_index() as int, Some(ty@)));
    }

    pub fn get(&self, id: TBindingId) -> (ty: Option<&Type>)
        requires
            id.spec_index() < self.slots().len(),
        ensures
            match ty {
                Some(t) => self.slots()[id.spec_index() as int] == Some(t@),
                None => self.slots()[id.spec_index() as int] is None,
            },
    {
        let index = id.get_index();
        match &self.types[index] {
            Some(t) => Some(t),
            None => None,
        }
    }

    pub fn len(&self) -> (len: usize)
        ensures
            len == self.slots().len(),
    {
        self.types.len()
    }
}

pub type BindingToTypeMap = GenericTypeMap<BindingId>;

pub type TypeBindingToTypeMap = GenericTypeMap<TypeBindingId>;

/// `e` reports the first binding whose slot is empty.
pub open spec fn untyped_reported(
    e: TypeCheckError,
    bindings: Seq<ResolvedBinding>,
    slots: Seq<Option<TypeView>>,
) -> bool {
    exists|i: int|
        0 <= i < bindings.len() && #[trigger] slots[i] is None && (forall|j: int|
            0 <= j < i ==> slots[j] is Some) && e == (TypeCheckError::UntypedBindingAfterTypeCheck {
            name: bindings[i].name,
            span: bindings[i].span,
        })
}

/// Pairs each binding with the type its slot settled on, fully substituted. A binding whose
/// slot was never filled is an internal error, reported for the first such binding.
#[verifier::loop_isolation(false)]
pub fn attach_types_to_bindings<TBindingId: Indexable>(
    bindings: Vec<ResolvedBinding>,
    binding_type_map: &GenericTypeMap<TBindingId>,
    unification_map: &UnificationMap,
) -> (typed: Result<Vec<TypedBinding>, TypeCheckError>)
    requires
        bindings@.len() == binding_type_map.slots().len(),
    ensures
        typed is Ok <==> forall|i: int|
            0 <= i < bindings@.len() ==> #[trigger] binding_type_map.slots()[i] is Some,
        typed matches Ok(typed) ==> typed@.len() == bindings@.len() && forall|i: int|
            0 <= i < bindings@.len() ==> (#[trigger] typed@[i]).name == bindings@[i].name
                && typed@[i].span == bindings@[i].span && typed@[i].ty@ == spec_subst(
                unification_map.nodes(),
                binding_type_map.slots()[i]->0,
                UNIFY_FUEL as nat,
            ),
        typed matches Err(e) ==> untyped_reported(e, bindings@, binding_type_map.slots()),
{
    let mut typed: Vec<TypedBinding> = Vec::new();
    let ghost given = bindings@;
    let mut remaining = bindings;
    let n = remaining.len();
    let mut rest: Vec<ResolvedBinding> = Vec::new();
    // Take the bindings out in order.
    let mut i: usize = n;
    while i > 0
        invariant
            remaining@ == given.take(i as int),
            i <= n,
            n == given.len(),
            rest@.len() == n - i,
            forall|j: int| 0 <= j < n - i ==> #[trigger] rest@[j] == given[n - 1 - j],
        decreases i,
    {
        let b = remaining.pop().unwrap();
        rest.push(b);
        i = i - 1;
        assert(remaining@ =~= given.take(i as int));
    }
    let mut index: usize = 0;
    while index < n
        invariant
            n == given.len(),
            n == binding_type_map.slots().len(),
            0 <= index <= n,
            rest@.len() == n - index,
            forall|j: int| 0 <= j < n - index ==> #[trigger] rest@[j] == given[n - 1 - j],
            typed@.len() == index,
            forall|j: int| 0 <= j < index ==> #[trigger] binding_type_map.slots()[j] is Some,
            forall|j: int|
                0 <= j < index ==> (#[trigger] typed@[j]).name == given[j].name
                    && typed@[j].span == given[j].span && typed@[j].ty@ == spec_subst(
                    unification_map.nodes(),
                    binding_type_map.slots()[j]->0,
                    UNIFY_FUEL as nat,
                ),
        decreases n - index,
    {
        let binding = rest.pop().unwrap();
        match binding_type_map.get(TBindingId::new(index)) {
            Some(ty) => {
                typed.push(
                    TypedBinding {
                        name: binding.name,
                        ty: unification_map.subsitute(ty),
                        span: binding.span,
                    },
                );
            },
            None => {
                assert(binding_type_map.slots()[index as int] is None);
                assert(binding == given[index as int]);
                return Err(
                    TypeCheckError::UntypedBindingAfterTypeCheck {
                        name: binding.name,
                        span: binding.span,
                    },
                );
            },
        }
        index = index + 1;
    }
    Ok(typed)
}

} // verus!
