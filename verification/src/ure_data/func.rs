//! Functions over components, and picking the implementation that fits
//! the containers a group holds.
use vstd::prelude::*;
use vstd::string::*;
use std::any::TypeId;
use std::collections::HashMap;

use super::data::{fnv1a_64, fnv1a_hash_str_64, ComponentId};

verus! {

broadcast use vstd::std_specs::hash::group_hash_axioms;

/// `std::any::TypeId`, compared through `same_type`.
#[verifier::external_type_specification]
#[verifier::external_body]
pub struct ExTypeId(TypeId);

/// Calls `<TypeId as PartialEq>::eq`: type ids are equal exactly when they
/// are the same id.
#[verifier::external_body]
fn same_type(a: &TypeId, b: &TypeId) -> (r: bool)
    ensures
        r == (*a == *b),
{
    a == b
}

/// Why a function could not be implemented for a group.
#[derive(Debug, Clone, Copy, PartialEq, Eq)]
pub enum ImplError {
    MissingComponent,
    InvalidContainers,
}

/// The id of a function: the hash of its name.
#[derive(Debug, Clone, Copy, PartialEq, Eq, Hash)]
pub struct FunctionId {
    inner: u64,
}

impl FunctionId {
    /// The hash that identifies the function.
    pub closed spec fn value(&self) -> u64 {
        self.inner
    }

    /// The id of the function called `name`.
    pub fn new(name: &'static str) -> (id: Self)
        ensures
            id.value() == fnv1a_64(name.spec_bytes()),
    {
        FunctionId { inner: fnv1a_hash_str_64(name) }
    }
}

/// One implementation of a function, for components held in containers of
/// the given types.
pub struct Impl<F> {
    pub component_types: &'static [TypeId],
    pub implementation: F,
}

/// A function over components, with its implementations.
pub struct Func<F: 'static> {
    pub(crate) id: FunctionId,
    pub(crate) components: &'static [ComponentId],
    pub(crate) impls: &'static [Impl<F>],
}

/// The container type held for each component, by component id.
pub type ComponentTypes = HashMap<u64, TypeId>;

/// Whether every component in `ids` has a container.
pub open spec fn all_present(ids: Seq<ComponentId>, types: Map<u64, TypeId>) -> bool {
    forall|i: int| 0 <= i < ids.len() ==> types.contains_key(#[trigger] ids[i].value())
}

/// The container types of the components in `ids`.
pub open spec fn types_of(ids: Seq<ComponentId>, types: Map<u64, TypeId>) -> Seq<TypeId> {
    ids.map_values(|c: ComponentId| types[c.value()])
}

impl<F: Clone> Func<F> {
    /// The id of the function.
    pub closed spec fn id(&self) -> FunctionId {
        self.id
    }

    /// The components the function works on.
    pub closed spec fn components(&self) -> Seq<ComponentId> {
        self.components@
    }

    /// The implementations, in order.
    pub closed spec fn impls(&self) -> Seq<Impl<F>> {
        self.impls@
    }

    pub fn new(id: FunctionId, components: &'static [ComponentId], impls: &'static [Impl<F>]) -> (f: Self)
        ensures
            f.id() == id,
            f.components() == components@,
            f.impls() == impls@,
    {
        Func { id, components, impls }
    }

    /// The first implementation whose container types are those that
    /// `types` holds for the function's components.
    pub fn implement(&self, types: &ComponentTypes) -> (r: Result<F, ImplError>)
        ensures
            !all_present(self.components(), types@) ==> r == Err::<F, ImplError>(ImplError::MissingComponent),
            all_present(self.components(), types@) ==> {
                let want = types_of(self.components(), types@);
                match r {
                    Ok(f) => exists|k: int| {
                        &&& 0 <= k < self.impls().len()
                        &&& #[trigger] self.impls()[k].component_types@ == want
                        &&& forall|j: int| 0 <= j < k ==> self.impls()[j].component_types@ != want
                        &&& cloned(self.impls()[k].implementation, f)
                    },
                    Err(e) => e == ImplError::InvalidContainers
                        && forall|k: int| 0 <= k < self.impls().len()
                            ==> #[trigger] self.impls()[k].component_types@ != want,
                }
            },
    {
        let mut components: Vec<TypeId> = Vec::new();
        let mut i: usize = 0;
        while i < self.components.len()
            invariant
                i <= self.components@.len(),
                components@ == types_of(self.components@.take(i as int), types@),
                all_present(self.components@.take(i as int), types@),
            decreases self.components@.len() - i,
        {
            let key = self.components[i].get();
            match types.get(&key) {
                None => {
                    proof {
                        assert(!types@.contains_key(self.components@[i as int].value()));
                    }
                    return Err(ImplError::MissingComponent);
                },
                Some(t) => {
                    components.push(*t);
                },
            }
            proof {
                assert(self.components@.take(i + 1) =~= self.components@.take(i as int).push(self.components@[i as int]));
                assert(components@ =~= types_of(self.components@.take(i + 1), types@));
            }
            i = i + 1;
        }
        assert(self.components@.take(self.components@.len() as int) =~= self.components@);
        let ghost want = types_of(self.components(), types@);
        let mut k: usize = 0;
        while k < self.impls.len()
            invariant
                k <= self.impls@.len(),
                components@ == want,
                want == types_of(self.components@, types@),
                all_present(self.components@, types@),
                forall|j: int| 0 <= j < k ==> self.impls@[j].component_types@ != want,
            decreases self.impls@.len() - k,
        {
            let candidate = &self.impls[k];
            if Self::same_types(&components, candidate.component_types) {
                let f = candidate.implementation.clone();
                assert(self.impls()[k as int].component_types@ == want);
                return Ok(f);
            }
            k = k + 1;
        }
        Err(ImplError::InvalidContainers)
    }

    /// Whether `a` and `b` hold the same type ids in the same order.
    fn same_types(a: &Vec<TypeId>, b: &[TypeId]) -> (r: bool)
        ensures
            r == (a@ == b@),
    {
        if a.len() != b.len() {
            return false;
        }
        let mut i: usize = 0;
        while i < a.len()
            invariant
                i <= a@.len(),
                a@.len() == b@.len(),
                forall|j: int| 0 <= j < i ==> a@[j] == b@[j],
            decreases a@.len() - i,
        {
            if !same_type(&a[i], &b[i]) {
                return false;
            }
            i = i + 1;
        }
        assert(a@ =~= b@);
        true
    }
}

} // verus!
