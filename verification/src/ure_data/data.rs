//! Component ids, the commands that grow and shrink groups, and
//! components with their create and delete functions.
use vstd::prelude::*;
use vstd::string::*;
use std::ops::Range;

use super::func::Func;

verus! {

/// The 64-bit FNV-1a hash of `bytes`.
pub open spec fn fnv1a_64(bytes: Seq<u8>) -> u64
    decreases bytes.len(),
{
    if bytes.len() == 0 {
        0xcbf29ce484222325u64
    } else {
        (((fnv1a_64(bytes.drop_last()) ^ (bytes.last() as u64)) as int * 0x100000001b3int)
            % 0x1_0000_0000_0000_0000int) as u64
    }
}

/// Calls `const_fnv1a_hash::fnv1a_hash_str_64`, which hashes the UTF-8 bytes
/// of `name` with 64-bit FNV-1a: starting from the offset basis, each byte is
/// xored in and the hash multiplied by the FNV prime, wrapping.
#[verifier::external_body]
pub(crate) fn fnv1a_hash_str_64(name: &str) -> (h: u64)
    ensures
        h == fnv1a_64(name.spec_bytes()),
{
    const_fnv1a_hash::fnv1a_hash_str_64(name)
}

/// The id of a component: the hash of its name.
#[derive(Debug, Clone, Copy, PartialEq, Eq, Hash)]
pub struct ComponentId {
    inner: u64,
}

impl ComponentId {
    /// The hash that identifies the component.
    pub closed spec fn value(&self) -> u64 {
        self.inner
    }

    /// The id of the component called `name`.
    pub fn new(name: &str) -> (id: Self)
        ensures
            id.value() == fnv1a_64(name.spec_bytes()),
    {
        ComponentId { inner: fnv1a_hash_str_64(name) }
    }

    /// The hash that identifies the component.
    pub fn get(&self) -> (r: u64)
        ensures
            r == self.value(),
    {
        self.inner
    }
}

/// A change to the number of elements of a group.
#[derive(Debug)]
pub enum ComponentCommand {
    /// Creates `num` new elements.
    New { num: usize },
    /// Deletes all elements in `range`.
    ///
    /// Deletes are always `swap_remove` with ordering within the swapped chunk preserved.
    /// To implement this with the `swap_remove` function, reverse the iterator with `range.rev()`.
    Delete { range: Range<usize> },
}

impl Clone for ComponentCommand {
    fn clone(&self) -> (c: Self)
        ensures
            c == *self,
    {
        match self {
            ComponentCommand::New { num } => ComponentCommand::New { num: *num },
            ComponentCommand::Delete { range } => ComponentCommand::Delete { range: range.start..range.end },
        }
    }
}

/// A component: its id, and the functions that create and delete its elements.
pub struct Component<New: 'static, Delete: 'static> {
    pub(crate) id: ComponentId,
    pub(crate) new: &'static Func<New>,
    pub(crate) delete: &'static Func<Delete>,
}

impl<New: 'static, Delete: 'static> Component<New, Delete> {
    /// The id of the component.
    pub closed spec fn id(&self) -> ComponentId {
        self.id
    }

    /// The function that creates elements of the component.
    pub closed spec fn new_func(&self) -> &'static Func<New> {
        self.new
    }

    /// The function that deletes elements of the component.
    pub closed spec fn delete_func(&self) -> &'static Func<Delete> {
        self.delete
    }

    /// The component called `name`.
    pub fn new(name: &str, new: &'static Func<New>, delete: &'static Func<Delete>) -> (c: Self)
        ensures
            c.id().value() == fnv1a_64(name.spec_bytes()),
            c.new_func() == new,
            c.delete_func() == delete,
    {
        Component { id: ComponentId::new(name), new, delete }
    }
}

} // verus!
