//! One position of the table.
use vstd::prelude::*;

verus! {

/// A table position: empty, or holding a key, its value, the key's hash and
/// its distance to the initial bucket (how many steps past the position its
/// hash selects it sits).
#[derive(Clone)]
pub enum Node<K, V> {
    Empty,
    Occupied { key: K, value: V, hash: u32, dib: usize },
}

impl<K, V> Node<K, V> {
    /// Whether the position holds an entry.
    pub fn has_value(&self) -> (r: bool)
        ensures
            r == (*self is Occupied),
    {
        match self {
            Node::Empty => false,
            Node::Occupied { .. } => true,
        }
    }

    /// The key and value held here, if any.
    pub fn key_value_ref(&self) -> (r: Option<(&K, &V)>)
        ensures
            *self is Empty ==> r is None,
            *self is Occupied ==> r == Some((&self->key, &self->value)),
    {
        match self {
            Node::Empty => None,
            Node::Occupied { key, value, .. } => Some((key, value)),
        }
    }

    /// Leaves the position empty and hands back what it held.
    pub fn take(&mut self) -> (r: Node<K, V>)
        ensures
            r == *old(self),
            *final(self) is Empty,
    {
        let mut r = Node::Empty;
        core::mem::swap(self, &mut r);
        r
    }
}

} // verus!
