//! The LSIF data model: positions, ranges, vertices, edges, and the
//! elements of the emitted stream.

use vstd::prelude::*;

verus! {

/// Identifier of an emitted vertex or edge. Assigned by the emitter,
/// starting at 1, strictly increasing, never reused.
pub type ID = u64;

/// A position in a document: 0-based line and 0-based character offset
/// within the line.
#[derive(Clone, Copy, PartialEq, Eq, Structural, Debug, Hash)]
pub struct Position {
    pub line: u64,
    pub character: u64,
}

/// A half-open interval of text positions in one file.
#[derive(Clone, Copy, PartialEq, Eq, Structural, Debug, Hash)]
pub struct Range {
    pub start: Position,
    pub end: Position,
}

/// An LSIF vertex, one of the labels this indexer emits.
#[derive(Clone, Debug, PartialEq, Eq)]
pub enum Vertex {
    MetaData {
        version: String,
        position_encoding: String,
        project_root: String,
        tool_name: String,
    },
    Document { uri: String, language_id: String },
    Range { range: Range },
    ResultSet,
    DefinitionResult,
    ReferenceResult,
    HoverResult { language: String, value: String },
    Moniker { kind: String, scheme: String, identifier: String },
}

/// The `property` attribute of an `item` edge.
#[derive(Clone, Copy, PartialEq, Eq, Structural, Debug)]
pub enum ItemProperty {
    Plain,
    Definitions,
    References,
}

/// An LSIF edge. `Contains` and `Item` carry several targets; the others
/// carry one.
#[derive(Clone, Debug, PartialEq, Eq)]
pub enum Edge {
    Contains { out_v: ID, in_vs: Vec<ID> },
    Next { out_v: ID, in_v: ID },
    Definition { out_v: ID, in_v: ID },
    References { out_v: ID, in_v: ID },
    Hover { out_v: ID, in_v: ID },
    Moniker { out_v: ID, in_v: ID },
    Item { out_v: ID, in_vs: Vec<ID>, document: ID, property: ItemProperty },
}

/// The payload of one emitted element.
#[derive(Clone, Debug, PartialEq, Eq)]
pub enum Payload {
    Vertex(Vertex),
    Edge(Edge),
}

/// One line of the LSIF dump: an identifier together with a vertex or an
/// edge.
#[derive(Clone, Debug, PartialEq, Eq)]
pub struct Element {
    pub id: ID,
    pub payload: Payload,
}

/// The identifiers an edge refers to: its source, its targets, and the
/// document it is scoped to, if any.
pub open spec fn edge_refs(e: Edge) -> Seq<ID> {
    match e {
        Edge::Contains { out_v, in_vs } => seq![out_v] + in_vs@,
        Edge::Next { out_v, in_v } => seq![out_v, in_v],
        Edge::Definition { out_v, in_v } => seq![out_v, in_v],
        Edge::References { out_v, in_v } => seq![out_v, in_v],
        Edge::Hover { out_v, in_v } => seq![out_v, in_v],
        Edge::Moniker { out_v, in_v } => seq![out_v, in_v],
        Edge::Item { out_v, in_vs, document, property: _ } => (seq![out_v] + in_vs@).push(document),
    }
}

/// True if the stream holds, before position `bound`, a vertex with this
/// identifier satisfying `f`.
pub open spec fn vertex_before(s: Seq<Element>, bound: int, id: ID, f: spec_fn(Vertex) -> bool) -> bool {
    exists|i: int|
        0 <= i < bound && i < s.len() && (#[trigger] s[i]).id == id && match s[i].payload {
            Payload::Vertex(v) => f(v),
            Payload::Edge(_) => false,
        }
}

/// True if the stream holds a vertex with this identifier satisfying `f`.
pub open spec fn has_vertex(s: Seq<Element>, id: ID, f: spec_fn(Vertex) -> bool) -> bool {
    vertex_before(s, s.len() as int, id, f)
}

/// Any vertex at all.
pub open spec fn any_vertex() -> spec_fn(Vertex) -> bool {
    |v: Vertex| true
}

/// A `range` vertex.
pub open spec fn is_range_vertex() -> spec_fn(Vertex) -> bool {
    |v: Vertex| v matches Vertex::Range { .. }
}

/// A `document` vertex.
pub open spec fn is_document_vertex() -> spec_fn(Vertex) -> bool {
    |v: Vertex| v matches Vertex::Document { .. }
}

/// A `resultSet` vertex.
pub open spec fn is_result_set_vertex() -> spec_fn(Vertex) -> bool {
    |v: Vertex| v matches Vertex::ResultSet
}

/// Every identifier an edge at position `i` refers to names a vertex
/// emitted strictly earlier in the stream.
pub open spec fn edge_refs_resolved_at(s: Seq<Element>, i: int) -> bool {
    match s[i].payload {
        Payload::Edge(e) => forall|k: int|
            0 <= k < edge_refs(e).len() ==> vertex_before(s, i, #[trigger] edge_refs(e)[k], any_vertex()),
        Payload::Vertex(_) => true,
    }
}

/// The stream is topologically ordered: every edge's referenced
/// identifiers belong to vertices emitted earlier.
pub open spec fn stream_topologically_ordered(s: Seq<Element>) -> bool {
    forall|i: int| 0 <= i < s.len() ==> #[trigger] edge_refs_resolved_at(s, i)
}

} // verus!
