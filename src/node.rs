use vstd::prelude::*;

verus! {

/// One representation of a key at one level of the skip list.
///
/// Links are indices into the arena that holds every node of the list.
/// The value is held at level 0 only.
pub struct Node<V> {
    pub score: u64,
    pub data: Option<V>,
    pub level: usize,
    pub prev: Option<usize>,
    pub next: Option<usize>,
    pub tower_above: Option<usize>,
    pub tower_below: Option<usize>,
}

impl<V> Node<V> {
    /// A node with no links, placed at level 0.
    pub fn new(score: u64, data: Option<V>) -> (r: Self)
        ensures
            r.score == score,
            r.data == data,
            r.level == 0,
            r.prev is None,
            r.next is None,
            r.tower_above is None,
            r.tower_below is None,
    {
        Node { score, data, level: 0, prev: None, next: None, tower_above: None, tower_below: None }
    }

    /// The value carried by this node, if any.
    pub fn get(&self) -> (r: Option<&V>)
        ensures
            r is Some <==> self.data is Some,
            r matches Some(v) ==> self.data == Some(*v),
    {
        match &self.data {
            Some(t) => Some(t),
            None => None,
        }
    }
}

/// Where a key belongs within one level: next to the node `position`, on its
/// right when `is_right` holds and on its left otherwise.
#[derive(Clone, Copy)]
pub struct InsertPosition {
    pub position: Option<usize>,
    pub is_right: bool,
    pub level: usize,
}

impl InsertPosition {
    pub fn new(position: Option<usize>, is_right: bool) -> (r: Self)
        ensures
            r.position == position,
            r.is_right == is_right,
            r.level == 0,
    {
        InsertPosition { position, is_right, level: 0 }
    }
}

/// A plain identifier record.
pub struct Segment {
    pub id: u32,
}

} // verus!
