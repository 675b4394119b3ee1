//! Kinds of component, and borrows of their containers and elements.
use vstd::prelude::*;
use vstd::string::*;

use super::container::Container;
use super::data::{fnv1a_64, fnv1a_hash_str_64};

verus! {

/// `std::cell::Ref`, a shared borrow of a `RefCell`'s contents.
#[verifier::external_type_specification]
#[verifier::external_body]
#[verifier::reject_recursive_types(T)]
pub struct ExCellRef<'b, T: ?Sized>(std::cell::Ref<'b, T>);

/// `std::cell::RefMut`, a mutable borrow of a `RefCell`'s contents.
#[verifier::external_type_specification]
#[verifier::external_body]
#[verifier::reject_recursive_types(T)]
pub struct ExCellRefMut<'b, T: ?Sized + 'b>(std::cell::RefMut<'b, T>);

/// A kind of component: its id and the container its elements are kept in.
pub trait Component {
    const ID: u64;
    type Container: Container;
}

/// The id of the component called `name`: the FNV-1a hash of its bytes.
pub fn component_id(name: &str) -> (id: u64)
    ensures
        id == fnv1a_64(name.spec_bytes()),
{
    fnv1a_hash_str_64(name)
}

/// A shared borrow of the container of component `C`.
pub struct ContainerRef<'a, C: Component>(pub std::cell::Ref<'a, C::Container>);

/// A mutable borrow of the container of component `C`.
pub struct ContainerMut<'a, C: Component>(pub std::cell::RefMut<'a, C::Container>);

/// A shared view of the elements of component `C`.
pub struct CRef<'a, C: Component>(pub <C::Container as Container>::Ref<'a>) where C::Container: 'a;

/// A mutable view of the elements of component `C`.
pub struct CMut<'a, C: Component>(pub <C::Container as Container>::Mut<'a>) where C::Container: 'a;

} // verus!
