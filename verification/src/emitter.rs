//! The emitter owns the identifier counter and the emitted stream.
//!
//! Every vertex and edge receives a fresh identifier from a counter that
//! starts at 1; the emission order is exactly the call order.

use vstd::prelude::*;

use crate::protocol::{Edge, Element, ID, Payload, Vertex};

verus! {

/// Records the emitted LSIF stream and assigns identifiers.
pub struct Emitter {
    pub next_id: ID,
    pub elements: Vec<Element>,
}

impl Emitter {
    /// The stream emitted so far, in emission order.
    pub open spec fn stream(self) -> Seq<Element> {
        self.elements@
    }

    /// The identifier the next emission will receive.
    pub open spec fn spec_next_id(self) -> ID {
        self.next_id
    }

    /// The identifier counter starts at 1 and always equals one more than
    /// the number of emitted elements, so the element at position `i`
    /// carries identifier `i + 1`: identifiers are unique and strictly
    /// increasing along the stream.
    pub open spec fn wf(self) -> bool {
        &&& self.next_id as int == self.elements@.len() + 1
        &&& forall|i: int|
            0 <= i < self.elements@.len() ==> (#[trigger] self.elements@[i]).id as int == i + 1
    }

    /// Room for `n` more emissions without exhausting the counter.
    pub open spec fn can_emit(self, n: int) -> bool {
        self.next_id as int + n <= u64::MAX as int
    }

    pub fn new() -> (r: Emitter)
        ensures
            r.wf(),
            r.stream() == Seq::<Element>::empty(),
            r.spec_next_id() == 1,
    {
        Emitter { next_id: 1, elements: Vec::new() }
    }

    /// Appends a vertex to the stream and returns its fresh identifier.
    pub fn emit_vertex(&mut self, v: Vertex) -> (id: ID)
        requires
            old(self).wf(),
            old(self).can_emit(1),
        ensures
            final(self).wf(),
            id == old(self).spec_next_id(),
            final(self).spec_next_id() == old(self).spec_next_id() + 1,
            final(self).stream() == old(self).stream().push(
                (Element { id, payload: Payload::Vertex(v) }),
            ),
    {
        let id = self.next_id;
        self.elements.push(Element { id, payload: Payload::Vertex(v) });
        self.next_id = self.next_id + 1;
        id
    }

    /// Appends an edge to the stream and returns its fresh identifier.
    pub fn emit_edge(&mut self, e: Edge) -> (id: ID)
        requires
            old(self).wf(),
            old(self).can_emit(1),
        ensures
            final(self).wf(),
            id == old(self).spec_next_id(),
            final(self).spec_next_id() == old(self).spec_next_id() + 1,
            final(self).stream() == old(self).stream().push(
                (Element { id, payload: Payload::Edge(e) }),
            ),
    {
        let id = self.next_id;
        self.elements.push(Element { id, payload: Payload::Edge(e) });
        self.next_id = self.next_id + 1;
        id
    }

    /// Ends the emission and hands the finished stream to the caller, who
    /// writes it out one element per line.
    pub fn end(self) -> (r: Vec<Element>)
        ensures
            r@ == self.stream(),
    {
        self.elements
    }
}

} // verus!
