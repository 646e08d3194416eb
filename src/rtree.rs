use vstd::prelude::*;

use crate::layout::is_height;
use crate::rectangle::{Rectangle, envelope_of};

verus! {

/// `r` lists, each once, the indices of the items that meet `q`; every item
/// has an index.
pub open spec fn answers(items: Seq<Rectangle>, q: Rectangle, r: Seq<usize>) -> bool {
    &&& items.len() <= usize::MAX
    &&& r.no_duplicates()
    &&& forall|i: usize| #[trigger] r.contains(i) <==> (i < items.len() && q.meets(items[i as int]))
}

/// A static index over a sequence of rectangles, the items.
pub trait RTree {
    /// The items, in the order the caller gave them.
    spec fn items(&self) -> Seq<Rectangle>;

    spec fn degree_spec(&self) -> nat;

    /// The number of leaves of the packed tree: the items, and the padding
    /// that a presort placed among them.
    spec fn slot_count(&self) -> nat;

    fn is_empty(&self) -> (r: bool)
        ensures
            r == (self.items().len() == 0),
    ;

    /// The number of levels of the tree: none when there are no items.
    fn height(&self) -> (r: usize)
        ensures
            is_height(self.degree_spec() as int, self.slot_count() as int, r as int),
    ;

    fn degree(&self) -> (r: usize)
        ensures
            r == self.degree_spec(),
            r >= 2,
    ;

    /// The envelope of all the items.
    fn envelope(&self) -> (r: Rectangle)
        ensures
            r.same(envelope_of(self.items())),
    ;

    /// The indices of the items that meet `rect`, each once, in no particular order.
    fn query_rect(&self, rect: &Rectangle) -> (r: Vec<usize>)
        ensures
            answers(self.items(), *rect, r@),
    ;
}

} // verus!
