//! The payload of a node: one of the two markers, or a value.

use vstd::prelude::*;
use vstd::std_specs::convert::FromSpecImpl;

verus! {

/// What a node of the chain stands for.
#[derive(Hash, PartialEq, Eq, Clone)]
pub enum Item<T> {
    /// The marker every walk sets out from.
    Start,
    /// The marker at which a walk is complete.
    End,
    /// A value that was fed to the chain.
    Data(T),
}

impl<T> Item<T> {
    /// The carried value, if this is not a marker.
    pub fn data(&self) -> (r: Option<&T>)
        ensures
            match r {
                Some(d) => *self == Item::Data(*d),
                None => !(*self is Data),
            },
    {
        match self {
            Item::Data(d) => Some(d),
            _ => None,
        }
    }
}

impl<T> From<T> for Item<T> {
    fn from(value: T) -> (r: Self) {
        Item::Data(value)
    }
}

impl<T> FromSpecImpl<T> for Item<T> {
    open spec fn obeys_from_spec() -> bool {
        true
    }

    open spec fn from_spec(value: T) -> Self {
        Item::Data(value)
    }
}

} // verus!
