//! The payload of every node, with a hash index from value to node.

use vstd::prelude::*;
use std::collections::HashMap;
use std::hash::Hash;
use vstd::std_specs::hash::obeys_key_model;
use crate::item::Item;

verus! {

/// Whether cloning a `T` always gives back an equal value.
pub open spec fn clone_is_exact<T: Clone>() -> bool {
    forall|a: T, b: T| #[trigger] cloned(a, b) ==> a == b
}

/// The items of a chain in node order, searchable by value.
///
/// Its view is the sequence of items; node `i` carries item `i`.
pub struct ItemIndex<T> {
    items: Vec<Item<T>>,
    words: HashMap<T, usize>,
}

impl<T> View for ItemIndex<T> {
    type V = Seq<Item<T>>;

    closed spec fn view(&self) -> Seq<Item<T>> {
        self.items@
    }
}

impl<T: Hash + Eq + Clone> ItemIndex<T> {
    /// The hash index maps exactly the values that nodes carry, each to its
    /// node, and `T` hashes, compares and clones as a plain value.
    pub closed spec fn wf(&self) -> bool {
        &&& obeys_key_model::<T>()
        &&& clone_is_exact::<T>()
        &&& forall|x: T| #[trigger]
            self.words@.contains_key(x) ==> self.words@[x] < self.items@.len()
                && self.items@[self.words@[x] as int] == Item::Data(x)
        &&& forall|i: int|
            0 <= i < self.items@.len() && (#[trigger] self.items@[i]) is Data
                ==> self.words@.contains_key(self.items@[i]->Data_0) && self.words@[self.items@[i]->Data_0]
                == i
    }

    /// An index that holds the two markers, `Start` before `End`.
    pub fn new() -> (r: ItemIndex<T>)
        requires
            obeys_key_model::<T>(),
            clone_is_exact::<T>(),
        ensures
            r.wf(),
            r@ == seq![Item::<T>::Start, Item::<T>::End],
    {
        let mut items: Vec<Item<T>> = Vec::new();
        items.push(Item::Start);
        items.push(Item::End);
        let r = ItemIndex { items, words: HashMap::new() };
        assert(r@ =~= seq![Item::<T>::Start, Item::<T>::End]);
        r
    }

    /// The number of nodes.
    pub fn len(&self) -> (n: usize)
        ensures
            n == self@.len(),
    {
        self.items.len()
    }

    /// The item that node `id` carries.
    pub fn item(&self, id: usize) -> (r: &Item<T>)
        requires
            id < self@.len(),
        ensures
            *r == self@[id as int],
    {
        &self.items[id]
    }

    /// The node that carries the value `x`, if there is one.
    pub fn find(&self, x: &T) -> (r: Option<usize>)
        requires
            self.wf(),
        ensures
            match r {
                Some(id) => id < self@.len() && self@[id as int] == Item::Data(*x),
                None => !self@.contains(Item::Data(*x)),
            },
    {
        match self.words.get(x) {
            Some(id) => Some(*id),
            None => {
                proof {
                    if self@.contains(Item::Data(*x)) {
                        let i = choose|i: int| 0 <= i < self@.len() && self@[i] == Item::Data(*x);
                        assert(self.items@[i] is Data);
                    }
                }
                None
            },
        }
    }

    /// Appends a node that carries the value `x`, which no node carries yet.
    pub fn insert(&mut self, x: T) -> (id: usize)
        requires
            old(self).wf(),
            !old(self)@.contains(Item::Data(x)),
        ensures
            final(self).wf(),
            final(self)@ == old(self)@.push(Item::Data(x)),
            id == old(self)@.len(),
    {
        let id = self.items.len();
        let key = x.clone();
        assert(cloned(x, key));
        proof {
            if self.words@.contains_key(x) {
                assert(self.items@[self.words@[x] as int] == Item::Data(x));
            }
        }
        self.items.push(Item::Data(x));
        self.words.insert(key, id);
        proof {
            assert forall|i: int|
                0 <= i < self.items@.len() && (#[trigger] self.items@[i]) is Data implies self.words@.contains_key(
                self.items@[i]->Data_0,
            ) && self.words@[self.items@[i]->Data_0] == i by {
                if i < id {
                    assert(old(self).items@[i] is Data);
                    assert(old(self).items@[i] == self.items@[i]);
                }
            }
            assert forall|y: T| #[trigger] self.words@.contains_key(y) implies self.words@[y]
                < self.items@.len() && self.items@[self.words@[y] as int] == Item::Data(y) by {
                if y != x {
                    assert(old(self).words@.contains_key(y));
                }
            }
        }
        id
    }
}

} // verus!
