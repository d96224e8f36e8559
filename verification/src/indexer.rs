//! The indexer: consumes definition events first, then reference events,
//! and assembles the LSIF graph so that every edge follows the vertices it
//! refers to.

use vstd::prelude::*;
use vstd::string::{StrSliceExecFns, StringExecFns};

use crate::cli::Args;
use crate::crawler::{Definition, Reference};
use crate::emitter::Emitter;
use crate::lsif_data_cache::{
    buckets_total, lemma_buckets_total_nonneg, lemma_buckets_total_take_step, DefRecord,
    DocumentRecord, LsifDataCache, RangeSlot, RefBucket,
};
use crate::protocol::{
    any_vertex, edge_refs, has_vertex, is_document_vertex, is_range_vertex, is_result_set_vertex,
    stream_topologically_ordered, Edge, Element, ItemProperty, Payload, Vertex, ID,
};
use crate::uris::{directory_uri, dir_uri_of, file_uri, is_absolute_path, uri_of};

verus! {

/// Pushing an element keeps every vertex the stream already had.
pub proof fn lemma_has_vertex_push(s: Seq<Element>, e: Element, id: ID, f: spec_fn(Vertex) -> bool)
    requires
        has_vertex(s, id, f),
    ensures
        has_vertex(s.push(e), id, f),
{
    let i = choose|i: int|
        0 <= i < s.len() && (#[trigger] s[i]).id == id && match s[i].payload {
            Payload::Vertex(v) => f(v),
            Payload::Edge(_) => false,
        };
    assert(s.push(e)[i] == s[i]);
}

/// Pushing a vertex keeps the stream topologically ordered.
pub proof fn lemma_topo_push_vertex(s: Seq<Element>, e: Element)
    requires
        stream_topologically_ordered(s),
        e.payload is Vertex,
    ensures
        stream_topologically_ordered(s.push(e)),
{
    let s2 = s.push(e);
    assert forall|i: int| 0 <= i < s2.len() implies #[trigger] crate::protocol::edge_refs_resolved_at(
        s2,
        i,
    ) by {
        if i < s.len() {
            assert(crate::protocol::edge_refs_resolved_at(s, i));
            assert(s2[i] == s[i]);
            match s2[i].payload {
                Payload::Edge(edge) => {
                    assert forall|k: int|
                        0 <= k < edge_refs(edge).len() implies crate::protocol::vertex_before(
                        s2,
                        i,
                        #[trigger] edge_refs(edge)[k],
                        any_vertex(),
                    ) by {
                        assert(crate::protocol::vertex_before(s, i, edge_refs(edge)[k], any_vertex()));
                        let w = choose|w: int|
                            0 <= w < i && w < s.len() && (#[trigger] s[w]).id == edge_refs(edge)[k]
                                && match s[w].payload {
                                Payload::Vertex(v) => any_vertex()(v),
                                Payload::Edge(_) => false,
                            };
                        assert(s2[w] == s[w]);
                    }
                },
                Payload::Vertex(_) => {},
            }
        }
    }
}

/// An edge whose referenced identifiers all name vertices of the stream
/// may be appended: the stream stays topologically ordered.
pub proof fn lemma_topo_push_edge(s: Seq<Element>, e: Element)
    requires
        stream_topologically_ordered(s),
        e.payload matches Payload::Edge(edge) && forall|k: int|
            0 <= k < edge_refs(edge).len() ==> has_vertex(
                s,
                #[trigger] edge_refs(edge)[k],
                any_vertex(),
            ),
    ensures
        stream_topologically_ordered(s.push(e)),
{
    let s2 = s.push(e);
    assert forall|i: int| 0 <= i < s2.len() implies #[trigger] crate::protocol::edge_refs_resolved_at(
        s2,
        i,
    ) by {
        if i < s.len() {
            assert(crate::protocol::edge_refs_resolved_at(s, i));
            assert(s2[i] == s[i]);
            match s2[i].payload {
                Payload::Edge(edge) => {
                    assert forall|k: int|
                        0 <= k < edge_refs(edge).len() implies crate::protocol::vertex_before(
                        s2,
                        i,
                        #[trigger] edge_refs(edge)[k],
                        any_vertex(),
                    ) by {
                        assert(crate::protocol::vertex_before(s, i, edge_refs(edge)[k], any_vertex()));
                        let w = choose|w: int|
                            0 <= w < i && w < s.len() && (#[trigger] s[w]).id == edge_refs(edge)[k]
                                && match s[w].payload {
                                Payload::Vertex(v) => any_vertex()(v),
                                Payload::Edge(_) => false,
                            };
                        assert(s2[w] == s[w]);
                    }
                },
                Payload::Vertex(_) => {},
            }
        } else {
            let edge = e.payload->Edge_0;
            assert forall|k: int|
                0 <= k < edge_refs(edge).len() implies crate::protocol::vertex_before(
                s2,
                i,
                #[trigger] edge_refs(edge)[k],
                any_vertex(),
            ) by {
                assert(has_vertex(s, edge_refs(edge)[k], any_vertex()));
                let w = choose|w: int|
                    0 <= w < s.len() && (#[trigger] s[w]).id == edge_refs(edge)[k] && match s[w].payload {
                        Payload::Vertex(v) => any_vertex()(v),
                        Payload::Edge(_) => false,
                    };
                assert(s2[w] == s[w]);
            }
        }
    }
}

/// A document record is backed by the stream: its document vertex and
/// every range identifier it lists have been emitted.
pub open spec fn tracked_doc(s: Seq<Element>, rec: DocumentRecord) -> bool {
    &&& has_vertex(s, rec.info.id, is_document_vertex())
    &&& forall|j: int|
        0 <= j < rec.ranges@.len() ==> has_vertex(
            s,
            (#[trigger] rec.ranges@[j]).id,
            is_range_vertex(),
        )
    &&& forall|j: int|
        0 <= j < rec.info.definition_range_ids@.len() ==> has_vertex(
            s,
            #[trigger] rec.info.definition_range_ids@[j],
            is_range_vertex(),
        )
    &&& forall|j: int|
        0 <= j < rec.info.reference_range_ids@.len() ==> has_vertex(
            s,
            #[trigger] rec.info.reference_range_ids@[j],
            is_range_vertex(),
        )
}

/// A definition record is backed by the stream: document, range, result
/// set, and every bucketed reference range have been emitted.
pub open spec fn tracked_def(s: Seq<Element>, rec: DefRecord) -> bool {
    &&& has_vertex(s, rec.info.document_id, is_document_vertex())
    &&& has_vertex(s, rec.info.range_id, is_range_vertex())
    &&& has_vertex(s, rec.info.result_set_id, is_result_set_vertex())
    &&& forall|b: int|
        0 <= b < rec.info.reference_range_ids@.len() ==> has_vertex(
            s,
            (#[trigger] rec.info.reference_range_ids@[b]).document_id,
            is_document_vertex(),
        )
    &&& forall|b: int, j: int|
        (0 <= b < rec.info.reference_range_ids@.len() && 0 <= j
            < rec.info.reference_range_ids@[b].range_ids@.len()) ==> has_vertex(
            s,
            #[trigger] rec.info.reference_range_ids@[b].range_ids@[j],
            is_range_vertex(),
        )
}

/// Every identifier the cache holds names a vertex of the right label
/// already in the stream.
pub open spec fn cache_tracks(c: LsifDataCache, s: Seq<Element>) -> bool {
    &&& forall|i: int|
        0 <= i < c.documents@.len() ==> tracked_doc(s, #[trigger] c.documents@[i])
    &&& forall|i: int| 0 <= i < c.def_infos@.len() ==> tracked_def(s, #[trigger] c.def_infos@[i])
}

/// The tracking is stable under stream extension.
pub proof fn lemma_cache_tracks_push(c: LsifDataCache, s: Seq<Element>, e: Element)
    requires
        cache_tracks(c, s),
    ensures
        cache_tracks(c, s.push(e)),
{
    assert forall|i: int| 0 <= i < c.documents@.len() implies tracked_doc(
        s.push(e),
        #[trigger] c.documents@[i],
    ) by {
        let rec = c.documents@[i];
        lemma_has_vertex_push(s, e, rec.info.id, is_document_vertex());
        assert forall|j: int| 0 <= j < rec.ranges@.len() implies has_vertex(
            s.push(e),
            (#[trigger] rec.ranges@[j]).id,
            is_range_vertex(),
        ) by {
            lemma_has_vertex_push(s, e, rec.ranges@[j].id, is_range_vertex());
        }
        assert forall|j: int| 0 <= j < rec.info.definition_range_ids@.len() implies has_vertex(
            s.push(e),
            #[trigger] rec.info.definition_range_ids@[j],
            is_range_vertex(),
        ) by {
            lemma_has_vertex_push(s, e, rec.info.definition_range_ids@[j], is_range_vertex());
        }
        assert forall|j: int| 0 <= j < rec.info.reference_range_ids@.len() implies has_vertex(
            s.push(e),
            #[trigger] rec.info.reference_range_ids@[j],
            is_range_vertex(),
        ) by {
            lemma_has_vertex_push(s, e, rec.info.reference_range_ids@[j], is_range_vertex());
        }
    }
    assert forall|i: int| 0 <= i < c.def_infos@.len() implies tracked_def(
        s.push(e),
        #[trigger] c.def_infos@[i],
    ) by {
        let rec = c.def_infos@[i];
        lemma_has_vertex_push(s, e, rec.info.document_id, is_document_vertex());
        lemma_has_vertex_push(s, e, rec.info.range_id, is_range_vertex());
        lemma_has_vertex_push(s, e, rec.info.result_set_id, is_result_set_vertex());
        assert forall|b: int| 0 <= b < rec.info.reference_range_ids@.len() implies has_vertex(
            s.push(e),
            (#[trigger] rec.info.reference_range_ids@[b]).document_id,
            is_document_vertex(),
        ) by {
            lemma_has_vertex_push(s, e, rec.info.reference_range_ids@[b].document_id, is_document_vertex());
        }
        assert forall|b: int, j: int|
            (0 <= b < rec.info.reference_range_ids@.len() && 0 <= j
                < rec.info.reference_range_ids@[b].range_ids@.len()) implies has_vertex(
            s.push(e),
            #[trigger] rec.info.reference_range_ids@[b].range_ids@[j],
            is_range_vertex(),
        ) by {
            lemma_has_vertex_push(
                s,
                e,
                rec.info.reference_range_ids@[b].range_ids@[j],
                is_range_vertex(),
            );
        }
    }
}

/// A document vertex with this URI and language stands in the stream.
pub open spec fn doc_vertex_in(s: Seq<Element>, uri: Seq<char>, lang: Seq<char>) -> bool {
    exists|i: int|
        0 <= i < s.len() && ((#[trigger] s[i]).payload matches Payload::Vertex(Vertex::Document {
            uri: u,
            language_id: l,
        }) && u@ == uri && l@ == lang)
}

pub proof fn lemma_doc_vertex_in_push(s: Seq<Element>, e: Element, uri: Seq<char>, lang: Seq<char>)
    requires
        doc_vertex_in(s, uri, lang),
    ensures
        doc_vertex_in(s.push(e), uri, lang),
{
    let i = choose|i: int|
        0 <= i < s.len() && ((#[trigger] s[i]).payload matches Payload::Vertex(Vertex::Document {
            uri: u,
            language_id: l,
        }) && u@ == uri && l@ == lang);
    assert(s.push(e)[i] == s[i]);
}

/// A vertex of a stream is still a vertex of any pointwise extension.
pub proof fn lemma_vertex_still_there(
    s_old: Seq<Element>,
    s_new: Seq<Element>,
    id: ID,
    f: spec_fn(Vertex) -> bool,
)
    requires
        has_vertex(s_old, id, f),
        s_old.len() <= s_new.len(),
        forall|i: int| 0 <= i < s_old.len() ==> s_new[i] == s_old[i],
    ensures
        has_vertex(s_new, id, f),
{
    let i = choose|i: int|
        0 <= i < s_old.len() && (#[trigger] s_old[i]).id == id && match s_old[i].payload {
            Payload::Vertex(v) => f(v),
            Payload::Edge(_) => false,
        };
    assert(s_new[i] == s_old[i]);
}

/// An edge with two referenced identifiers, both naming emitted vertices,
/// has all its references resolved.
pub proof fn lemma_refs_pair(s: Seq<Element>, a: ID, b: ID, e: Edge)
    requires
        edge_refs(e) == seq![a, b],
        has_vertex(s, a, any_vertex()),
        has_vertex(s, b, any_vertex()),
    ensures
        forall|k: int|
            0 <= k < edge_refs(e).len() ==> has_vertex(s, #[trigger] edge_refs(e)[k], any_vertex()),
{
    assert forall|k: int| 0 <= k < edge_refs(e).len() implies has_vertex(
        s,
        #[trigger] edge_refs(e)[k],
        any_vertex(),
    ) by {
        if k == 0 {
            assert(edge_refs(e)[0] == a);
        } else {
            assert(edge_refs(e)[1] == b);
        }
    }
}

/// The same for an edge with three referenced identifiers.
pub proof fn lemma_refs_triple(s: Seq<Element>, a: ID, b: ID, c: ID, e: Edge)
    requires
        edge_refs(e) == seq![a, b, c],
        has_vertex(s, a, any_vertex()),
        has_vertex(s, b, any_vertex()),
        has_vertex(s, c, any_vertex()),
    ensures
        forall|k: int|
            0 <= k < edge_refs(e).len() ==> has_vertex(s, #[trigger] edge_refs(e)[k], any_vertex()),
{
    assert forall|k: int| 0 <= k < edge_refs(e).len() implies has_vertex(
        s,
        #[trigger] edge_refs(e)[k],
        any_vertex(),
    ) by {
        if k == 0 {
            assert(edge_refs(e)[0] == a);
        } else if k == 1 {
            assert(edge_refs(e)[1] == b);
        } else {
            assert(edge_refs(e)[2] == c);
        }
    }
}

/// A vertex found under a stronger predicate is found under a weaker one.
pub proof fn lemma_has_vertex_weaken(
    s: Seq<Element>,
    id: ID,
    f: spec_fn(Vertex) -> bool,
    g: spec_fn(Vertex) -> bool,
)
    requires
        has_vertex(s, id, f),
        forall|v: Vertex| f(v) ==> #[trigger] g(v),
    ensures
        has_vertex(s, id, g),
{
    let i = choose|i: int|
        0 <= i < s.len() && (#[trigger] s[i]).id == id && match s[i].payload {
            Payload::Vertex(v) => f(v),
            Payload::Edge(_) => false,
        };
    assert(0 <= i < s.len() && s[i].id == id && match s[i].payload {
        Payload::Vertex(v) => g(v),
        Payload::Edge(_) => false,
    });
}

/// The exact elements one indexed definition appends to the stream `s0`,
/// yielding `s`: the range, resultSet, definitionResult, hoverResult (iff
/// a comment is present) and moniker vertices, then the `next`,
/// `textDocument/definition`, `item`, `moniker` and (iff a comment)
/// `textDocument/hover` edges of the star, with their end points named.
pub open spec fn definition_emission(
    s0: Seq<Element>,
    s: Seq<Element>,
    def: Definition,
    lang: Seq<char>,
    doc_id: ID,
) -> bool {
    let n0 = s0.len() as int;
    let nv: int = if def.comment is Some {
        5
    } else {
        4
    };
    &&& s.len() == n0 + 2 * nv
    &&& (s[n0].payload matches Payload::Vertex(Vertex::Range { range }) && range
        == def.location.range@)
    &&& s[n0 + 1].payload == Payload::Vertex(Vertex::ResultSet)
    &&& s[n0 + 2].payload == Payload::Vertex(Vertex::DefinitionResult)
    &&& (def.comment matches Some(c) ==> (s[n0 + 3].payload matches Payload::Vertex(
        Vertex::HoverResult { language, value },
    ) && language@ == lang && value@ == c@))
    &&& (s[n0 + nv - 1].payload matches Payload::Vertex(
        Vertex::Moniker { kind, scheme, identifier },
    ) && kind@ == "local"@ && scheme@ == "zas"@ && identifier@ == crate::crawler::after_last_slash(
        def.location.file_path@,
    ) + ":"@ + def.node_name@)
    &&& s[n0 + nv].payload == Payload::Edge(Edge::Next { out_v: s[n0].id, in_v: s[n0 + 1].id })
    &&& s[n0 + nv + 1].payload == Payload::Edge(
        Edge::Definition { out_v: s[n0 + 1].id, in_v: s[n0 + 2].id },
    )
    &&& (s[n0 + nv + 2].payload matches Payload::Edge(
        Edge::Item { out_v, in_vs, document, property },
    ) && out_v == s[n0 + 2].id && in_vs@ == seq![s[n0].id] && document == doc_id && property
        == ItemProperty::Plain)
    &&& s[n0 + nv + 3].payload == Payload::Edge(
        Edge::Moniker { out_v: s[n0 + 1].id, in_v: s[n0 + nv - 1].id },
    )
    &&& (def.comment is Some ==> s[n0 + 9].payload == Payload::Edge(
        Edge::Hover { out_v: s[n0 + 1].id, in_v: s[n0 + 3].id },
    ))
}

/// The reference-result block of one definition, at position `p` of the
/// stream: one referenceResult vertex, the `textDocument/references`
/// edge from the definition's result set, one `definitions` item edge
/// over its range, and one `references` item edge per bucket carrying
/// exactly that bucket's range identifiers.
pub open spec fn link_block_at(s: Seq<Element>, p: int, d: DefRecord) -> bool {
    &&& s[p].payload == Payload::Vertex(Vertex::ReferenceResult)
    &&& s[p + 1].payload == Payload::Edge(
        Edge::References { out_v: d.info.result_set_id, in_v: s[p].id },
    )
    &&& (s[p + 2].payload matches Payload::Edge(Edge::Item { out_v, in_vs, document, property })
        && out_v == s[p].id && in_vs@ == seq![d.info.range_id] && document == d.info.document_id
        && property == ItemProperty::Definitions)
    &&& forall|b: int|
        0 <= b < d.info.reference_range_ids@.len() ==> ((#[trigger] s[p + 3 + b].payload) matches Payload::Edge(
            Edge::Item { out_v, in_vs, document, property },
        ) && out_v == s[p].id && in_vs@ == d.info.reference_range_ids@[b].range_ids@ && document
            == d.info.reference_range_ids@[b].document_id && property == ItemProperty::References)
}

/// The exact elements one indexed reference appends: its deduplicated
/// range vertex and the `next` edge into its definition's result set.
pub open spec fn reference_emission(
    s0: Seq<Element>,
    s: Seq<Element>,
    r: Reference,
    result_set_id: ID,
) -> bool {
    let n0 = s0.len() as int;
    &&& s.len() == n0 + 2
    &&& (s[n0].payload matches Payload::Vertex(Vertex::Range { range }) && range
        == r.location.range@)
    &&& s[n0 + 1].payload == Payload::Edge(
        Edge::Next { out_v: s[n0].id, in_v: result_set_id },
    )
}

/// How many of the first `d` documents have ranges to list.
pub open spec fn nonempty_docs(docs: Seq<DocumentRecord>, d: int) -> int
    decreases d,
    when d >= 0
{
    if d <= 0 {
        0
    } else {
        nonempty_docs(docs, d - 1) + (
        if docs[d - 1].info.definition_range_ids@.len() + docs[d
            - 1].info.reference_range_ids@.len() > 0 {
            1int
        } else {
            0int
        })
    }
}

/// Counted documents only accumulate.
pub proof fn lemma_nonempty_docs_mono(docs: Seq<DocumentRecord>, a: int, b: int)
    requires
        0 <= a <= b,
    ensures
        nonempty_docs(docs, a) <= nonempty_docs(docs, b),
    decreases b - a,
{
    if a < b {
        lemma_nonempty_docs_mono(docs, a, b - 1);
    }
}

/// The exact elements the `contains` phase appends: one `contains` edge
/// per document with ranges, listing its definition ranges then its
/// reference ranges, and — for a non-empty project — one final
/// `contains` edge from the project over all documents. Documents
/// without ranges contribute nothing.
pub open spec fn contains_emission(
    s0: Seq<Element>,
    s: Seq<Element>,
    docs: Seq<DocumentRecord>,
    project_id: ID,
) -> bool {
    let n0 = s0.len() as int;
    &&& s.len() == n0 + nonempty_docs(docs, docs.len() as int) + (
    if docs.len() > 0 {
        1int
    } else {
        0int
    })
    &&& forall|d: int|
        0 <= d < docs.len() ==> ({
            let lists = (#[trigger] docs[d]).info.definition_range_ids@
                + docs[d].info.reference_range_ids@;
            lists.len() > 0 ==> (s[n0 + nonempty_docs(docs, d)].payload matches Payload::Edge(
                Edge::Contains { out_v, in_vs },
            ) && out_v == docs[d].info.id && in_vs@ == lists)
        })
    &&& docs.len() > 0 ==> (s.last().payload matches Payload::Edge(
        Edge::Contains { out_v, in_vs },
    ) && out_v == project_id && in_vs@.len() == docs.len() && (forall|j: int|
        0 <= j < docs.len() ==> in_vs@[j] == (#[trigger] docs[j]).info.id))
}

/// Emitted document `contains` edges survive a pointwise extension.
proof fn lemma_contains_partial_still(
    s_old: Seq<Element>,
    s_new: Seq<Element>,
    docs: Seq<DocumentRecord>,
    n0: int,
    d: int,
)
    requires
        0 <= n0,
        0 <= d <= docs.len(),
        n0 + nonempty_docs(docs, d) <= s_old.len(),
        s_old.len() <= s_new.len(),
        forall|i: int| 0 <= i < s_old.len() ==> s_new[i] == s_old[i],
        forall|d2: int|
            0 <= d2 < d ==> ({
                let lists = (#[trigger] docs[d2]).info.definition_range_ids@
                    + docs[d2].info.reference_range_ids@;
                lists.len() > 0 ==> (s_old[n0 + nonempty_docs(docs, d2)].payload matches Payload::Edge(
                    Edge::Contains { out_v, in_vs },
                ) && out_v == docs[d2].info.id && in_vs@ == lists)
            }),
    ensures
        forall|d2: int|
            0 <= d2 < d ==> ({
                let lists = (#[trigger] docs[d2]).info.definition_range_ids@
                    + docs[d2].info.reference_range_ids@;
                lists.len() > 0 ==> (s_new[n0 + nonempty_docs(docs, d2)].payload matches Payload::Edge(
                    Edge::Contains { out_v, in_vs },
                ) && out_v == docs[d2].info.id && in_vs@ == lists)
            }),
{
    assert forall|d2: int|
        0 <= d2 < d implies ({
            let lists = (#[trigger] docs[d2]).info.definition_range_ids@
                + docs[d2].info.reference_range_ids@;
            lists.len() > 0 ==> (s_new[n0 + nonempty_docs(docs, d2)].payload matches Payload::Edge(
                Edge::Contains { out_v, in_vs },
            ) && out_v == docs[d2].info.id && in_vs@ == lists)
        }) by {
        let lists = docs[d2].info.definition_range_ids@ + docs[d2].info.reference_range_ids@;
        if lists.len() > 0 {
            lemma_nonempty_docs_mono(docs, 0, d2);
            lemma_nonempty_docs_mono(docs, d2 + 1, d);
            assert(nonempty_docs(docs, d2 + 1) == nonempty_docs(docs, d2) + 1);
            assert(s_new[n0 + nonempty_docs(docs, d2)] == s_old[n0 + nonempty_docs(docs, d2)]);
        }
    }
}

/// Where definition `di`'s block begins, counting from `n0`.
pub open spec fn block_off(n0: int, c: Seq<DefRecord>, di: int) -> int {
    n0 + 3 * di + buckets_total(c.take(di))
}

/// The blocks of the first `di` definitions stand at their offsets.
pub open spec fn blocks_upto(s: Seq<Element>, n0: int, c: Seq<DefRecord>, di: int) -> bool {
    forall|di2: int|
        0 <= di2 < di ==> #[trigger] link_block_at(s, block_off(n0, c, di2), c[di2])
}

/// The exact elements the reference-link phase appends for the cached
/// definitions `c`: one block per definition, at consecutive offsets.
pub open spec fn links_emission(s0: Seq<Element>, s: Seq<Element>, c: Seq<DefRecord>) -> bool {
    &&& s.len() == block_off(s0.len() as int, c, c.len() as int)
    &&& blocks_upto(s, s0.len() as int, c, c.len() as int)
}

/// Block offsets grow with the index.
pub proof fn lemma_block_off_mono(n0: int, c: Seq<DefRecord>, a: int, b: int)
    requires
        0 <= a <= b <= c.len(),
    ensures
        block_off(n0, c, a) <= block_off(n0, c, b),
{
    lemma_buckets_take_mono(c, a, b);
}

/// Established blocks survive a pointwise stream extension.
pub proof fn lemma_blocks_upto_still(
    s_old: Seq<Element>,
    s_new: Seq<Element>,
    n0: int,
    c: Seq<DefRecord>,
    di: int,
)
    requires
        blocks_upto(s_old, n0, c, di),
        0 <= n0,
        0 <= di <= c.len(),
        block_off(n0, c, di) <= s_old.len(),
        s_old.len() <= s_new.len(),
        forall|i: int| 0 <= i < s_old.len() ==> s_new[i] == s_old[i],
    ensures
        blocks_upto(s_new, n0, c, di),
{
    assert forall|di2: int| 0 <= di2 < di implies #[trigger] link_block_at(
        s_new,
        block_off(n0, c, di2),
        c[di2],
    ) by {
        lemma_buckets_total_take_step(c, di2);
        lemma_block_off_mono(n0, c, di2 + 1, di);
        lemma_buckets_total_nonneg(c.take(di2));
        lemma_link_block_still(s_old, s_new, block_off(n0, c, di2), c[di2]);
    }
}

/// A block of a stream is a block of any pointwise extension.
pub proof fn lemma_link_block_still(s_old: Seq<Element>, s_new: Seq<Element>, p: int, d: DefRecord)
    requires
        link_block_at(s_old, p, d),
        0 <= p,
        p + 3 + d.info.reference_range_ids@.len() <= s_old.len(),
        s_old.len() <= s_new.len(),
        forall|i: int| 0 <= i < s_old.len() ==> s_new[i] == s_old[i],
    ensures
        link_block_at(s_new, p, d),
{
    assert(s_new[p] == s_old[p]);
    assert(s_new[p + 1] == s_old[p + 1]);
    assert(s_new[p + 2] == s_old[p + 2]);
    assert forall|b: int|
        0 <= b < d.info.reference_range_ids@.len() implies ((#[trigger] s_new[p + 3 + b].payload) matches Payload::Edge(
            Edge::Item { out_v, in_vs, document, property },
        ) && out_v == s_new[p].id && in_vs@ == d.info.reference_range_ids@[b].range_ids@
            && document == d.info.reference_range_ids@[b].document_id && property
            == ItemProperty::References) by {
        assert(s_new[p + 3 + b] == s_old[p + 3 + b]);
    }
}

/// Partial bucket totals grow with the prefix.
pub proof fn lemma_buckets_take_mono(c: Seq<DefRecord>, a: int, b: int)
    requires
        0 <= a <= b <= c.len(),
    ensures
        buckets_total(c.take(a)) <= buckets_total(c.take(b)),
    decreases b - a,
{
    if a < b {
        lemma_buckets_total_take_step(c, a);
        lemma_buckets_take_mono(c, a + 1, b);
    }
}

/// The bucket total of a prefix never exceeds that of the whole.
pub proof fn lemma_buckets_total_take_le(s: Seq<DefRecord>, i: int)
    requires
        0 <= i <= s.len(),
    ensures
        buckets_total(s.take(i)) <= buckets_total(s),
    decreases s.len() - i,
{
    if i == s.len() {
        assert(s.take(i) =~= s);
    } else {
        lemma_buckets_total_take_step(s, i);
        assert(s[i].info.reference_range_ids@.len() >= 0);
        lemma_buckets_total_take_le(s, i + 1);
    }
}

/// An edge fanning out from `out` to the identifiers `ins` has all its
/// references resolved once each names an emitted vertex.
pub proof fn lemma_refs_fan(s: Seq<Element>, out: ID, ins: Seq<ID>, e: Edge)
    requires
        edge_refs(e) == seq![out] + ins,
        has_vertex(s, out, any_vertex()),
        forall|j: int| 0 <= j < ins.len() ==> has_vertex(s, #[trigger] ins[j], any_vertex()),
    ensures
        forall|k: int|
            0 <= k < edge_refs(e).len() ==> has_vertex(s, #[trigger] edge_refs(e)[k], any_vertex()),
{
    assert forall|k: int| 0 <= k < edge_refs(e).len() implies has_vertex(
        s,
        #[trigger] edge_refs(e)[k],
        any_vertex(),
    ) by {
        if k == 0 {
            assert(edge_refs(e)[0] == out);
        } else {
            assert(edge_refs(e)[k] == ins[k - 1]);
        }
    }
}

/// The same for an item-family edge that also names its document.
pub proof fn lemma_refs_fan_doc(s: Seq<Element>, out: ID, ins: Seq<ID>, doc: ID, e: Edge)
    requires
        edge_refs(e) == (seq![out] + ins).push(doc),
        has_vertex(s, out, any_vertex()),
        has_vertex(s, doc, any_vertex()),
        forall|j: int| 0 <= j < ins.len() ==> has_vertex(s, #[trigger] ins[j], any_vertex()),
    ensures
        forall|k: int|
            0 <= k < edge_refs(e).len() ==> has_vertex(s, #[trigger] edge_refs(e)[k], any_vertex()),
{
    assert forall|k: int| 0 <= k < edge_refs(e).len() implies has_vertex(
        s,
        #[trigger] edge_refs(e)[k],
        any_vertex(),
    ) by {
        if k == 0 {
            assert(edge_refs(e)[0] == out);
        } else if k == ins.len() + 1 {
            assert(edge_refs(e)[k] == doc);
        } else {
            assert(edge_refs(e)[k] == ins[k - 1]);
        }
    }
}

/// A document vertex of a stream is one of any pointwise extension.
pub proof fn lemma_doc_vertex_in_still(
    s_old: Seq<Element>,
    s_new: Seq<Element>,
    uri: Seq<char>,
    lang: Seq<char>,
)
    requires
        doc_vertex_in(s_old, uri, lang),
        s_old.len() <= s_new.len(),
        forall|i: int| 0 <= i < s_old.len() ==> s_new[i] == s_old[i],
    ensures
        doc_vertex_in(s_new, uri, lang),
{
    let i = choose|i: int|
        0 <= i < s_old.len() && ((#[trigger] s_old[i]).payload matches Payload::Vertex(
            Vertex::Document { uri: u, language_id: l },
        ) && u@ == uri && l@ == lang);
    assert(s_new[i] == s_old[i]);
}

/// Copies a list of identifiers.
fn copy_ids(v: &Vec<ID>) -> (r: Vec<ID>)
    ensures
        r@ == v@,
{
    let mut r: Vec<ID> = Vec::new();
    let mut i: usize = 0;
    while i < v.len()
        invariant
            i <= v@.len(),
            r@ == v@.take(i as int),
        decreases v@.len() - i,
    {
        r.push(v[i]);
        proof {
            assert(v@.take(i + 1) =~= v@.take(i as int).push(v@[i as int]));
        }
        i = i + 1;
    }
    proof {
        assert(v@.take(v@.len() as int) =~= v@);
    }
    r
}

/// Generates the LSIF graph for a project.
pub struct Indexer {
    pub emitter: Emitter,
    pub project_id: ID,
    pub cache: LsifDataCache,
}

impl Indexer {
    /// The core invariant: the emitted stream is well-identified and
    /// topologically ordered, the cache is well-formed, and every cached
    /// identifier is backed by an emitted vertex.
    pub open spec fn inv0(self) -> bool {
        &&& self.emitter.wf()
        &&& self.cache.wf()
        &&& cache_tracks(self.cache, self.emitter.stream())
        &&& stream_topologically_ordered(self.emitter.stream())
    }

    /// The full invariant, once the metaData vertex has given the project
    /// its identifier.
    pub open spec fn inv(self) -> bool {
        &&& self.inv0()
        &&& has_vertex(self.emitter.stream(), self.project_id, any_vertex())
    }

    /// Emits a vertex, keeping the invariant.
    fn emit_v(&mut self, v: Vertex) -> (id: ID)
        requires
            old(self).inv0(),
            old(self).emitter.can_emit(1),
        ensures
            final(self).inv0(),
            old(self).inv() ==> final(self).inv(),
            id == old(self).emitter.spec_next_id(),
            final(self).emitter.spec_next_id() == old(self).emitter.spec_next_id() + 1,
            final(self).emitter.stream() == old(self).emitter.stream().push(
                (Element { id, payload: Payload::Vertex(v) }),
            ),
            final(self).cache == old(self).cache,
            final(self).project_id == old(self).project_id,
            has_vertex(final(self).emitter.stream(), id, |vx: Vertex| vx == v),
            forall|i: int|
                0 <= i < old(self).emitter.stream().len()
                    ==> #[trigger] final(self).emitter.stream()[i] == old(self).emitter.stream()[i],
    {
        let id = self.emitter.emit_vertex(v);
        proof {
            let s = old(self).emitter.stream();
            let e = Element { id, payload: Payload::Vertex(v) };
            lemma_cache_tracks_push(self.cache, s, e);
            lemma_topo_push_vertex(s, e);
            if old(self).inv() {
                lemma_has_vertex_push(s, e, old(self).project_id, any_vertex());
            }
            assert(self.emitter.stream()[s.len() as int] == e);
            assert(has_vertex(self.emitter.stream(), id, |vx: Vertex| vx == v));
        }
        id
    }

    /// Emits an edge whose referenced identifiers all name emitted
    /// vertices, keeping the invariant.
    fn emit_e(&mut self, e: Edge) -> (id: ID)
        requires
            old(self).inv0(),
            old(self).emitter.can_emit(1),
            forall|k: int|
                0 <= k < edge_refs(e).len() ==> has_vertex(
                    old(self).emitter.stream(),
                    #[trigger] edge_refs(e)[k],
                    any_vertex(),
                ),
        ensures
            final(self).inv0(),
            old(self).inv() ==> final(self).inv(),
            id == old(self).emitter.spec_next_id(),
            final(self).emitter.spec_next_id() == old(self).emitter.spec_next_id() + 1,
            final(self).emitter.stream() == old(self).emitter.stream().push(
                (Element { id, payload: Payload::Edge(e) }),
            ),
            final(self).cache == old(self).cache,
            final(self).project_id == old(self).project_id,
            forall|i: int|
                0 <= i < old(self).emitter.stream().len()
                    ==> #[trigger] final(self).emitter.stream()[i] == old(self).emitter.stream()[i],
    {
        let id = self.emitter.emit_edge(e);
        proof {
            let s = old(self).emitter.stream();
            let el = Element { id, payload: Payload::Edge(e) };
            lemma_cache_tracks_push(self.cache, s, el);
            lemma_topo_push_edge(s, el);
            if old(self).inv() {
                lemma_has_vertex_push(s, el, old(self).project_id, any_vertex());
            }
        }
        id
    }

    /// Emits the metaData vertex; its identifier doubles as the project
    /// identifier for the final `contains` edge.
    fn emit_metadata_and_project_vertex(&mut self, opt: &Args)
        requires
            old(self).inv0(),
            old(self).emitter.can_emit(1),
            opt.project_root matches Some(root) && is_absolute_path(root@),
        ensures
            final(self).inv(),
            final(self).emitter.spec_next_id() == old(self).emitter.spec_next_id() + 1,
            final(self).cache == old(self).cache,
            final(self).emitter.stream().len() == old(self).emitter.stream().len() + 1,
            final(self).emitter.stream().drop_last() == old(self).emitter.stream(),
            ({
                let el = final(self).emitter.stream().last();
                &&& el.id == old(self).emitter.spec_next_id()
                &&& final(self).project_id == el.id
                &&& el.payload matches Payload::Vertex(Vertex::MetaData {
                    version,
                    position_encoding,
                    project_root,
                    tool_name,
                }) && version@ == "0.1"@ && position_encoding@ == "utf-16"@ && project_root@
                    == dir_uri_of(opt.project_root->0@) && tool_name@ == "universal-lsif"@
            }),
    {
        let root: &String = match &opt.project_root {
            Some(r) => r,
            None => {
                return unreached();
            },
        };
        let uri = directory_uri(root.as_str());
        let id = self.emit_v(
            Vertex::MetaData {
                version: "0.1".to_owned(),
                position_encoding: "utf-16".to_owned(),
                project_root: uri,
                tool_name: "universal-lsif".to_owned(),
            },
        );
        self.project_id = id;
        proof {
            assert(self.emitter.stream().drop_last() =~= old(self).emitter.stream());
            let s = self.emitter.stream();
            assert(s[s.len() - 1].id == id && s[s.len() - 1].payload is Vertex);
            assert(has_vertex(s, id, any_vertex()));
        }
    }

    /// Emits one document vertex per file and caches it under its URI.
    fn emit_documents(&mut self, opt: &Args, files: &Vec<String>)
        requires
            old(self).inv(),
            old(self).emitter.can_emit(files@.len() as int),
            forall|k: int| 0 <= k < files@.len() ==> is_absolute_path((#[trigger] files@[k])@),
            old(self).cache.documents@.len() == 0,
        ensures
            final(self).inv(),
            final(self).project_id == old(self).project_id,
            old(self).emitter.spec_next_id() <= final(self).emitter.spec_next_id() <= old(
                self,
            ).emitter.spec_next_id() + files@.len(),
            final(self).cache.documents@.len() <= old(self).cache.documents@.len()
                + files@.len(),
            final(self).cache.def_infos@ == old(self).cache.def_infos@,
            forall|k: int|
                0 <= k < files@.len() ==> doc_vertex_in(
                    final(self).emitter.stream(),
                    uri_of((#[trigger] files@[k])@),
                    opt.language@,
                ),
            files@.len() == 0 ==> final(self).emitter.stream() == old(self).emitter.stream(),
            files@.len() == 0 ==> final(self).cache == old(self).cache,
            old(self).emitter.stream().len() <= final(self).emitter.stream().len(),
            forall|i: int|
                0 <= i < old(self).emitter.stream().len()
                    ==> #[trigger] final(self).emitter.stream()[i] == old(self).emitter.stream()[i],
            final(self).emitter.stream().len() == old(self).emitter.stream().len()
                + final(self).cache.documents@.len(),
            forall|j: int|
                0 <= j < final(self).cache.documents@.len() ==> ({
                    let rec = #[trigger] final(self).cache.documents@[j];
                    let el = final(self).emitter.stream()[old(self).emitter.stream().len() + j];
                    &&& el.id == rec.info.id
                    &&& (el.payload matches Payload::Vertex(Vertex::Document { uri, language_id })
                        && uri@ == rec.uri@ && language_id@ == opt.language@)
                }),
            forall|k: int|
                0 <= k < files@.len() ==> final(self).cache.has_document(
                    uri_of((#[trigger] files@[k])@),
                ),
    {
        if files.len() == 0 {
            return ;
        }
        let ghost n0g = self.emitter.stream().len() as int;
        let mut k: usize = 0;
        while k < files.len()
            invariant
                self.inv(),
                k <= files@.len(),
                self.project_id == old(self).project_id,
                n0g == old(self).emitter.stream().len() as int,
                old(self).emitter.stream().len() <= self.emitter.stream().len(),
                forall|i: int|
                    0 <= i < old(self).emitter.stream().len()
                        ==> #[trigger] self.emitter.stream()[i] == old(self).emitter.stream()[i],
                forall|k2: int|
                    0 <= k2 < files@.len() ==> is_absolute_path((#[trigger] files@[k2])@),
                old(self).emitter.spec_next_id() <= self.emitter.spec_next_id() <= old(
                    self,
                ).emitter.spec_next_id() + k,
                self.emitter.can_emit(files@.len() - k),
                self.cache.documents@.len() <= old(self).cache.documents@.len() + k,
                self.cache.def_infos@ == old(self).cache.def_infos@,
                forall|k2: int|
                    0 <= k2 < k ==> doc_vertex_in(
                        self.emitter.stream(),
                        uri_of((#[trigger] files@[k2])@),
                        opt.language@,
                    ),
                self.emitter.stream().len() as int == n0g + self.cache.documents@.len(),
                forall|j: int|
                    0 <= j < self.cache.documents@.len() ==> ({
                        let rec = #[trigger] self.cache.documents@[j];
                        let el = self.emitter.stream()[n0g + j];
                        &&& el.id == rec.info.id
                        &&& (el.payload matches Payload::Vertex(Vertex::Document {
                            uri,
                            language_id,
                        }) && uri@ == rec.uri@ && language_id@ == opt.language@)
                    }),
                forall|k2: int|
                    0 <= k2 < k ==> self.cache.has_document(uri_of((#[trigger] files@[k2])@)),
            decreases files@.len() - k,
        {
            let uri = file_uri(files[k].as_str());
            if self.cache.get_document_id(uri.as_str()).is_some() {
                proof {
                    let u = uri_of(files@[k as int]@);
                    let w = self.cache.doc_index(u);
                    assert(self.cache.documents@[w].uri@ == u);
                    assert(self.emitter.stream()[n0g + w].payload matches Payload::Vertex(
                        Vertex::Document { uri: u2, language_id: l2 },
                    ) && u2@ == u && l2@ == opt.language@);
                    assert(doc_vertex_in(self.emitter.stream(), u, opt.language@));
                }
                k = k + 1;
                continue ;
            }
            let uri2 = uri.clone();
            let ghost pre = *self;
            let vtx = Vertex::Document { uri, language_id: opt.language.clone() };
            let ghost gvtx = vtx;
            let id = self.emit_v(vtx);
            proof {
                let s = pre.emitter.stream();
                let el = Element { id, payload: Payload::Vertex(gvtx) };
                assert(self.emitter.stream()[s.len() as int] == el);
                assert(doc_vertex_in(self.emitter.stream(), uri_of(files@[k as int]@), opt.language@));
                assert forall|k2: int| 0 <= k2 < k implies doc_vertex_in(
                    self.emitter.stream(),
                    uri_of((#[trigger] files@[k2])@),
                    opt.language@,
                ) by {
                    lemma_doc_vertex_in_push(s, el, uri_of(files@[k2]@), opt.language@);
                }
            }
            let ghost pre2 = *self;
            self.cache.cache_document(uri2, id);
            proof {
                let s = self.emitter.stream();
                let nrec = self.cache.documents@.last();
                assert(nrec.info.id == id);
                lemma_has_vertex_weaken(
                    s,
                    id,
                    |vx: Vertex| vx == gvtx,
                    is_document_vertex(),
                );
                assert(tracked_doc(s, nrec));
                assert forall|i: int| 0 <= i < self.cache.documents@.len() implies tracked_doc(
                    s,
                    #[trigger] self.cache.documents@[i],
                ) by {
                    if i < pre2.cache.documents@.len() {
                        assert(self.cache.documents@[i] == pre2.cache.documents@[i]);
                    }
                }
                assert(s[n0g + (self.cache.documents@.len() - 1)] == Element {
                    id,
                    payload: Payload::Vertex(gvtx),
                });
                assert forall|j: int|
                    0 <= j < self.cache.documents@.len() implies ({
                        let rec = #[trigger] self.cache.documents@[j];
                        let el = s[n0g + j];
                        &&& el.id == rec.info.id
                        &&& (el.payload matches Payload::Vertex(Vertex::Document {
                            uri,
                            language_id,
                        }) && uri@ == rec.uri@ && language_id@ == opt.language@)
                    }) by {
                    if j < pre2.cache.documents@.len() {
                        assert(self.cache.documents@[j] == pre2.cache.documents@[j]);
                        assert(s[n0g + j] == pre2.emitter.stream()[n0g + j]);
                    }
                }
            }
            k = k + 1;
        }
    }

    /// Emits all vertices and edges of one definition, and caches it for
    /// the `contains` and reference phases. A definition in an unknown
    /// document, or at an already-occupied range slot, contributes
    /// nothing.
    #[verifier::rlimit(100)]
    fn index_definition(&mut self, opt: &Args, def: Definition)
        requires
            old(self).inv(),
            old(self).emitter.can_emit(11),
        ensures
            final(self).inv(),
            final(self).project_id == old(self).project_id,
            old(self).emitter.spec_next_id() <= final(self).emitter.spec_next_id() <= old(
                self,
            ).emitter.spec_next_id() + 11,
            final(self).cache.documents@.len() == old(self).cache.documents@.len(),
            final(self).cache.def_infos@.len() <= old(self).cache.def_infos@.len() + 1,
            buckets_total(final(self).cache.def_infos@) == buckets_total(
                old(self).cache.def_infos@,
            ),
            old(self).emitter.stream().len() <= final(self).emitter.stream().len(),
            forall|i: int|
                0 <= i < old(self).emitter.stream().len()
                    ==> #[trigger] final(self).emitter.stream()[i] == old(self).emitter.stream()[i],
            (!old(self).cache.has_document(def.location.file_path@) || old(self).cache.has_range(
                def.location.file_path@,
                def.location.range@.start,
            )) ==> final(self).emitter == old(self).emitter && final(self).cache == old(
                self,
            ).cache,
            (old(self).cache.has_document(def.location.file_path@) && !old(self).cache.has_range(
                def.location.file_path@,
                def.location.range@.start,
            )) ==> ({
                let uri = def.location.file_path@;
                let range_id = old(self).emitter.spec_next_id();
                let rec = final(self).cache.def_infos@.last();
                let k = old(self).cache.doc_index(uri);
                &&& definition_emission(
                    old(self).emitter.stream(),
                    final(self).emitter.stream(),
                    def,
                    opt.language@,
                    old(self).cache.doc_id(uri),
                )
                &&& final(self).cache.def_infos@.len() == old(self).cache.def_infos@.len() + 1
                &&& final(self).cache.def_infos@.drop_last() == old(self).cache.def_infos@
                &&& rec.location.file_path@ == uri
                &&& rec.location.range@ == def.location.range@
                &&& rec.info.document_id == old(self).cache.doc_id(uri)
                &&& rec.info.range_id == range_id
                &&& rec.info.result_set_id == range_id + 1
                &&& rec.info.reference_range_ids@ == Seq::<RefBucket>::empty()
                &&& (forall|j: int|
                    0 <= j < old(self).cache.documents@.len() && j != k
                        ==> #[trigger] final(self).cache.documents@[j] == old(
                        self,
                    ).cache.documents@[j])
                &&& final(self).cache.documents@[k].uri == old(self).cache.documents@[k].uri
                &&& final(self).cache.documents@[k].info.id == old(
                    self,
                ).cache.documents@[k].info.id
                &&& final(self).cache.documents@[k].info.definition_range_ids@ == old(
                    self,
                ).cache.documents@[k].info.definition_range_ids@.push(range_id)
                &&& final(self).cache.documents@[k].info.reference_range_ids == old(
                    self,
                ).cache.documents@[k].info.reference_range_ids
                &&& final(self).cache.documents@[k].ranges@ == old(
                    self,
                ).cache.documents@[k].ranges@.push(
                    (RangeSlot { start: def.location.range@.start, id: range_id }),
                )
            }),
    {
        let document_id = match self.cache.get_document_id(def.location.file_path.as_str()) {
            Some(id) => id,
            None => {
                return ;
            },
        };
        if self.cache.get_range_id(def.location.file_path.as_str(), &def.location.range).is_some() {
            return ;
        }
        proof {
            let uri = def.location.file_path@;
            let w = self.cache.doc_index(uri);
            assert(tracked_doc(self.emitter.stream(), self.cache.documents@[w]));
            assert(has_vertex(self.emitter.stream(), document_id, is_document_vertex()));
        }
        let ghost s0 = self.emitter.stream();
        let ids = self.emit_definition_star(opt, &def, document_id);
        let range_id = ids.0;
        let result_set_id = ids.1;
        let ghost s_end = self.emitter.stream();
        let ghost pre = *self;
        self.cache.cache_definition(&def, document_id, range_id, result_set_id);
        proof {
            let s = self.emitter.stream();
            let uri = def.location.file_path@;
            let k = pre.cache.doc_index(uri);
            assert forall|i: int| 0 <= i < self.cache.documents@.len() implies tracked_doc(
                s,
                #[trigger] self.cache.documents@[i],
            ) by {
                if i != k {
                    assert(self.cache.documents@[i] == pre.cache.documents@[i]);
                } else {
                    let prec = pre.cache.documents@[k];
                    let nrec = self.cache.documents@[k];
                    assert(tracked_doc(s, prec));
                    assert forall|j: int| 0 <= j < nrec.ranges@.len() implies has_vertex(
                        s,
                        (#[trigger] nrec.ranges@[j]).id,
                        is_range_vertex(),
                    ) by {
                        if j < prec.ranges@.len() {
                            assert(nrec.ranges@[j] == prec.ranges@[j]);
                        } else {
                            assert(nrec.ranges@[j].id == range_id);
                        }
                    }
                    assert forall|j: int|
                        0 <= j < nrec.info.definition_range_ids@.len() implies has_vertex(
                        s,
                        #[trigger] nrec.info.definition_range_ids@[j],
                        is_range_vertex(),
                    ) by {
                        if j < prec.info.definition_range_ids@.len() {
                            assert(nrec.info.definition_range_ids@[j]
                                == prec.info.definition_range_ids@[j]);
                        } else {
                            assert(nrec.info.definition_range_ids@[j] == range_id);
                        }
                    }
                }
            }
            assert forall|i: int| 0 <= i < self.cache.def_infos@.len() implies tracked_def(
                s,
                #[trigger] self.cache.def_infos@[i],
            ) by {
                if i < pre.cache.def_infos@.len() {
                    assert(self.cache.def_infos@[i] == self.cache.def_infos@.drop_last()[i]);
                    assert(self.cache.def_infos@[i] == pre.cache.def_infos@[i]);
                } else {
                    let nrec = self.cache.def_infos@[i];
                    assert(nrec == self.cache.def_infos@.last());
                }
            }
            assert forall|i: int| 0 <= i < s0.len() implies #[trigger] self.emitter.stream()[i]
                == s0[i] by {
                assert(s_end[i] == s0[i]);
            }
        }
    }

    /// Emits the star of one definition, in order: the range, resultSet,
    /// definitionResult, hoverResult (iff a comment is present) and
    /// moniker vertices, then the `next`, `textDocument/definition`,
    /// `item`, `moniker` and (iff a comment) `textDocument/hover` edges.
    /// The cache is untouched; the returned pair is the range and
    /// result-set identifiers.
    #[verifier::rlimit(100)]
    fn emit_definition_star(&mut self, opt: &Args, def: &Definition, document_id: ID) -> (r: (
        ID,
        ID,
    ))
        requires
            old(self).inv(),
            old(self).emitter.can_emit(10),
            has_vertex(old(self).emitter.stream(), document_id, is_document_vertex()),
        ensures
            final(self).inv(),
            final(self).cache == old(self).cache,
            final(self).project_id == old(self).project_id,
            r.0 == old(self).emitter.spec_next_id(),
            r.1 == old(self).emitter.spec_next_id() + 1,
            final(self).emitter.spec_next_id() == old(self).emitter.spec_next_id() + (
            if def.comment is Some {
                10int
            } else {
                8int
            }),
            definition_emission(
                old(self).emitter.stream(),
                final(self).emitter.stream(),
                *def,
                opt.language@,
                document_id,
            ),
            old(self).emitter.stream().len() <= final(self).emitter.stream().len(),
            forall|i: int|
                0 <= i < old(self).emitter.stream().len()
                    ==> #[trigger] final(self).emitter.stream()[i] == old(self).emitter.stream()[i],
            has_vertex(final(self).emitter.stream(), r.0, is_range_vertex()),
            has_vertex(final(self).emitter.stream(), r.1, is_result_set_vertex()),
            has_vertex(final(self).emitter.stream(), document_id, is_document_vertex()),
    {
        let ghost s0 = self.emitter.stream();
        let rv = Vertex::Range { range: def.range() };
        let ghost grv = rv;
        let range_id = self.emit_v(rv);
        let ghost s1 = self.emitter.stream();
        let result_set_id = self.emit_v(Vertex::ResultSet);
        let ghost s2 = self.emitter.stream();
        let def_result_id = self.emit_v(Vertex::DefinitionResult);
        let ghost s3 = self.emitter.stream();
        let ghost mut ghv: Vertex = Vertex::ResultSet;
        let hover_result_id: Option<ID> = match &def.comment {
            Some(c) => {
                let hv = Vertex::HoverResult { language: opt.language.clone(), value: c.clone() };
                proof {
                    ghv = hv;
                }
                Some(self.emit_v(hv))
            },
            None => None,
        };
        let ghost s4 = self.emitter.stream();
        let mv = Vertex::Moniker {
            kind: "local".to_owned(),
            scheme: "zas".to_owned(),
            identifier: def.location.file_name().concat(":").concat(def.node_name.as_str()),
        };
        let ghost gmv = mv;
        let moniker_id = self.emit_v(mv);
        let ghost s5 = self.emitter.stream();
        proof {
            assert forall|i: int| 0 <= i < s4.len() implies s5[i] == s4[i] by {}
            assert forall|i: int| 0 <= i < s3.len() implies s5[i] == s3[i] by {
                assert(s4[i] == s3[i]);
            }
            assert forall|i: int| 0 <= i < s2.len() implies s5[i] == s2[i] by {
                assert(s4[i] == s3[i]);
                assert(s3[i] == s2[i]);
            }
            assert forall|i: int| 0 <= i < s1.len() implies s5[i] == s1[i] by {
                assert(s4[i] == s3[i]);
                assert(s3[i] == s2[i]);
                assert(s2[i] == s1[i]);
            }
            assert forall|i: int| 0 <= i < s0.len() implies s5[i] == s0[i] by {
                assert(s4[i] == s3[i]);
                assert(s3[i] == s2[i]);
                assert(s2[i] == s1[i]);
                assert(s1[i] == s0[i]);
            }
            assert(s1[s0.len() as int] == Element { id: range_id, payload: Payload::Vertex(grv) });
            assert(has_vertex(s1, range_id, is_range_vertex()));
            lemma_vertex_still_there(s1, s5, range_id, is_range_vertex());
            assert(s2[s1.len() as int] == Element {
                id: result_set_id,
                payload: Payload::Vertex(Vertex::ResultSet),
            });
            assert(has_vertex(s2, result_set_id, is_result_set_vertex()));
            lemma_vertex_still_there(s2, s5, result_set_id, is_result_set_vertex());
            assert(s3[s2.len() as int].id == def_result_id && s3[s2.len() as int].payload
                is Vertex);
            assert(has_vertex(s3, def_result_id, any_vertex()));
            lemma_vertex_still_there(s3, s5, def_result_id, any_vertex());
            if hover_result_id is Some {
                assert(s4[s3.len() as int].id == hover_result_id->0 && s4[s3.len() as int].payload
                    is Vertex);
                assert(has_vertex(s4, hover_result_id->0, any_vertex()));
                lemma_vertex_still_there(s4, s5, hover_result_id->0, any_vertex());
            }
            assert(s5[s4.len() as int].id == moniker_id && s5[s4.len() as int].payload is Vertex);
            assert(has_vertex(s5, moniker_id, any_vertex()));
            lemma_vertex_still_there(s0, s5, document_id, is_document_vertex());
            lemma_has_vertex_weaken(s5, range_id, is_range_vertex(), any_vertex());
            lemma_has_vertex_weaken(s5, result_set_id, is_result_set_vertex(), any_vertex());
            lemma_has_vertex_weaken(s5, document_id, is_document_vertex(), any_vertex());
        }
        let next_edge = Edge::Next { out_v: range_id, in_v: result_set_id };
        let definition_edge = Edge::Definition { out_v: result_set_id, in_v: def_result_id };
        let mut item_targets: Vec<ID> = Vec::new();
        item_targets.push(range_id);
        let item_edge = Edge::Item {
            out_v: def_result_id,
            in_vs: item_targets,
            document: document_id,
            property: ItemProperty::Plain,
        };
        let ghost g_item = item_edge;
        let moniker_edge = Edge::Moniker { out_v: result_set_id, in_v: moniker_id };
        proof {
            assert(edge_refs(next_edge) =~= seq![range_id, result_set_id]);
            assert(edge_refs(definition_edge) =~= seq![result_set_id, def_result_id]);
            assert(edge_refs(moniker_edge) =~= seq![result_set_id, moniker_id]);
            assert(edge_refs(g_item) =~= seq![def_result_id, range_id, document_id]);
            self.lemma_star_refs(
                s5,
                range_id,
                result_set_id,
                def_result_id,
                moniker_id,
                document_id,
                hover_result_id,
            );
            lemma_refs_pair(s5, range_id, result_set_id, next_edge);
        }
        self.emit_e(next_edge);
        let ghost t1 = self.emitter.stream();
        proof {
            self.lemma_refresh_star(
                s5,
                t1,
                range_id,
                result_set_id,
                def_result_id,
                moniker_id,
                document_id,
                hover_result_id,
            );
            lemma_refs_pair(t1, result_set_id, def_result_id, definition_edge);
        }
        self.emit_e(definition_edge);
        let ghost t2 = self.emitter.stream();
        proof {
            assert forall|i: int| 0 <= i < s5.len() implies t2[i] == s5[i] by {
                assert(t1[i] == s5[i]);
            }
            self.lemma_refresh_star(
                s5,
                t2,
                range_id,
                result_set_id,
                def_result_id,
                moniker_id,
                document_id,
                hover_result_id,
            );
            lemma_refs_triple(t2, def_result_id, range_id, document_id, g_item);
        }
        self.emit_e(item_edge);
        let ghost t3 = self.emitter.stream();
        proof {
            assert forall|i: int| 0 <= i < s5.len() implies t3[i] == s5[i] by {
                assert(t2[i] == t1[i]);
                assert(t1[i] == s5[i]);
            }
            self.lemma_refresh_star(
                s5,
                t3,
                range_id,
                result_set_id,
                def_result_id,
                moniker_id,
                document_id,
                hover_result_id,
            );
            lemma_refs_pair(t3, result_set_id, moniker_id, moniker_edge);
        }
        self.emit_e(moniker_edge);
        let ghost t4 = self.emitter.stream();
        proof {
            assert forall|i: int| 0 <= i < s5.len() implies t4[i] == s5[i] by {
                assert(t3[i] == t2[i]);
                assert(t2[i] == t1[i]);
                assert(t1[i] == s5[i]);
            }
            self.lemma_refresh_star(
                s5,
                t4,
                range_id,
                result_set_id,
                def_result_id,
                moniker_id,
                document_id,
                hover_result_id,
            );
        }
        if let Some(h) = hover_result_id {
            proof {
                assert(edge_refs(Edge::Hover { out_v: result_set_id, in_v: h }) =~= seq![
                    result_set_id,
                    h,
                ]);
                lemma_refs_pair(t4, result_set_id, h, Edge::Hover { out_v: result_set_id, in_v: h });
            }
            self.emit_e(Edge::Hover { out_v: result_set_id, in_v: h });
        }
        let ghost s_end = self.emitter.stream();
        proof {
            assert forall|i: int| 0 <= i < s5.len() implies s_end[i] == s5[i] by {
                assert(t4[i] == t3[i]);
                assert(t3[i] == t2[i]);
                assert(t2[i] == t1[i]);
                assert(t1[i] == s5[i]);
            }
            lemma_vertex_still_there(s5, s_end, range_id, is_range_vertex());
            lemma_vertex_still_there(s5, s_end, result_set_id, is_result_set_vertex());
            lemma_vertex_still_there(s5, s_end, document_id, is_document_vertex());
        }
        proof {
            // The emitted elements, position by position.
            let n0 = s0.len() as int;
            let nv: int = if def.comment is Some {
                5
            } else {
                4
            };
            assert(s_end.len() == n0 + 2 * nv);
            assert(s1[n0] == Element { id: range_id, payload: Payload::Vertex(grv) });
            assert(s_end[n0] == s5[n0] && s5[n0] == s1[n0]);
            assert(s2[n0 + 1] == Element {
                id: result_set_id,
                payload: Payload::Vertex(Vertex::ResultSet),
            });
            assert(s_end[n0 + 1] == s5[n0 + 1] && s5[n0 + 1] == s2[n0 + 1]);
            assert(s3[n0 + 2] == s3.last());
            assert(s_end[n0 + 2] == s5[n0 + 2] && s5[n0 + 2] == s3[n0 + 2]);
            assert(s3.last().payload == Payload::Vertex(Vertex::DefinitionResult));
            if def.comment is Some {
                assert(s4[n0 + 3] == s4.last());
                assert(s4.last().payload == Payload::Vertex(ghv));
                assert(s_end[n0 + 3] == s5[n0 + 3] && s5[n0 + 3] == s4[n0 + 3]);
            }
            assert(s5[s4.len() as int] == s5.last());
            assert(s5.last().payload == Payload::Vertex(gmv));
            assert(s_end[n0 + nv - 1] == s5[n0 + nv - 1]);
            let p0 = s5.len() as int;
            assert(t1[p0] == t1.last());
            assert(t2[p0] == t1[p0] && t3[p0] == t2[p0] && t4[p0] == t3[p0] && s_end[p0]
                == t4[p0]);
            assert(t1.last().payload == Payload::Edge(
                Edge::Next { out_v: range_id, in_v: result_set_id },
            ));
            assert(t2[p0 + 1] == t2.last());
            assert(t3[p0 + 1] == t2[p0 + 1] && t4[p0 + 1] == t3[p0 + 1] && s_end[p0 + 1] == t4[p0
                + 1]);
            assert(t2.last().payload == Payload::Edge(
                Edge::Definition { out_v: result_set_id, in_v: def_result_id },
            ));
            assert(t3[p0 + 2] == t3.last());
            assert(t4[p0 + 2] == t3[p0 + 2] && s_end[p0 + 2] == t4[p0 + 2]);
            assert(t3.last().payload == Payload::Edge(g_item));
            assert(g_item matches Edge::Item { out_v, in_vs, document, property } && out_v
                == def_result_id && in_vs@ =~= seq![range_id] && document == document_id
                && property == ItemProperty::Plain);
            assert(t4[p0 + 3] == t4.last());
            assert(s_end[p0 + 3] == t4[p0 + 3]);
            assert(t4.last().payload == Payload::Edge(
                Edge::Moniker { out_v: result_set_id, in_v: moniker_id },
            ));
            if def.comment is Some {
                assert(s_end[p0 + 4] == s_end.last());
                assert(s_end.last().payload == Payload::Edge(
                    Edge::Hover { out_v: result_set_id, in_v: hover_result_id->0 },
                ));
            }
            assert(s_end[n0].id == range_id && s_end[n0 + 1].id == result_set_id && s_end[n0
                + 2].id == def_result_id && s_end[n0 + nv - 1].id == moniker_id);
            assert(definition_emission(s0, s_end, *def, opt.language@, document_id));

        }
        (range_id, result_set_id)
    }

    /// Links one reference occurrence to its definition's result set: a
    /// deduplicated range vertex and a `next` edge. A reference whose
    /// definition is not cached (it lies outside the project), whose own
    /// document is unknown, or whose range slot is already taken
    /// contributes nothing.
    #[verifier::rlimit(100)]
    fn index_reference(&mut self, r: Reference)
        requires
            old(self).inv(),
            old(self).emitter.can_emit(2),
        ensures
            final(self).inv(),
            final(self).project_id == old(self).project_id,
            old(self).emitter.spec_next_id() <= final(self).emitter.spec_next_id() <= old(
                self,
            ).emitter.spec_next_id() + 2,
            final(self).cache.documents@.len() == old(self).cache.documents@.len(),
            final(self).cache.def_infos@.len() == old(self).cache.def_infos@.len(),
            buckets_total(final(self).cache.def_infos@) <= buckets_total(
                old(self).cache.def_infos@,
            ) + 1,
            old(self).emitter.stream().len() <= final(self).emitter.stream().len(),
            forall|i: int|
                0 <= i < old(self).emitter.stream().len()
                    ==> #[trigger] final(self).emitter.stream()[i] == old(self).emitter.stream()[i],
            (!old(self).cache.has_def(r.def.location.file_path@, r.def.location.range@.start)
                || !old(self).cache.has_document(r.location.file_path@) || old(
                self,
            ).cache.has_range(r.location.file_path@, r.location.range@.start))
                ==> final(self).emitter == old(self).emitter && final(self).cache == old(
                self,
            ).cache,
            (old(self).cache.has_def(r.def.location.file_path@, r.def.location.range@.start)
                && old(self).cache.has_document(r.location.file_path@) && !old(
                self,
            ).cache.has_range(r.location.file_path@, r.location.range@.start)) ==> ({
                let uri = r.location.file_path@;
                let range_id = old(self).emitter.spec_next_id();
                let doc_id = old(self).cache.doc_id(uri);
                let k = old(self).cache.doc_index(uri);
                let di = old(self).cache.def_index(
                    r.def.location.file_path@,
                    r.def.location.range@.start,
                );
                let old_info = old(self).cache.def_infos@[di].info;
                let new_info = final(self).cache.def_infos@[di].info;
                &&& reference_emission(
                    old(self).emitter.stream(),
                    final(self).emitter.stream(),
                    r,
                    old(self).cache.def_info_of(
                        r.def.location.file_path@,
                        r.def.location.range@.start,
                    ).result_set_id,
                )
                &&& (forall|j: int|
                    0 <= j < old(self).cache.documents@.len() && j != k
                        ==> #[trigger] final(self).cache.documents@[j] == old(
                        self,
                    ).cache.documents@[j])
                &&& final(self).cache.documents@[k].uri == old(self).cache.documents@[k].uri
                &&& final(self).cache.documents@[k].info.id == old(
                    self,
                ).cache.documents@[k].info.id
                &&& final(self).cache.documents@[k].info.definition_range_ids == old(
                    self,
                ).cache.documents@[k].info.definition_range_ids
                &&& final(self).cache.documents@[k].info.reference_range_ids@ == old(
                    self,
                ).cache.documents@[k].info.reference_range_ids@.push(range_id)
                &&& final(self).cache.documents@[k].ranges@ == old(
                    self,
                ).cache.documents@[k].ranges@.push(
                    (RangeSlot { start: r.location.range@.start, id: range_id }),
                )
                &&& (forall|j: int|
                    0 <= j < old(self).cache.def_infos@.len() && j != di
                        ==> #[trigger] final(self).cache.def_infos@[j] == old(
                        self,
                    ).cache.def_infos@[j])
                &&& final(self).cache.def_infos@[di].location == old(
                    self,
                ).cache.def_infos@[di].location
                &&& new_info.document_id == old_info.document_id
                &&& new_info.range_id == old_info.range_id
                &&& new_info.result_set_id == old_info.result_set_id
                &&& (if LsifDataCache::info_has_bucket(old_info, doc_id) {
                    let bi = LsifDataCache::info_bucket_index(old_info, doc_id);
                    &&& new_info.reference_range_ids@.len()
                        == old_info.reference_range_ids@.len()
                    &&& (forall|j: int|
                        0 <= j < old_info.reference_range_ids@.len() && j != bi
                            ==> #[trigger] new_info.reference_range_ids@[j]
                            == old_info.reference_range_ids@[j])
                    &&& new_info.reference_range_ids@[bi].document_id
                        == old_info.reference_range_ids@[bi].document_id
                    &&& new_info.reference_range_ids@[bi].range_ids@
                        == old_info.reference_range_ids@[bi].range_ids@.push(range_id)
                } else {
                    &&& new_info.reference_range_ids@.len() == old_info.reference_range_ids@.len()
                        + 1
                    &&& new_info.reference_range_ids@.drop_last()
                        == old_info.reference_range_ids@
                    &&& new_info.reference_range_ids@.last().document_id == doc_id
                    &&& new_info.reference_range_ids@.last().range_ids@ == seq![range_id]
                })
            }),
    {
        let result_set_id = match self.cache.get_definition_info(&r.def.location) {
            Some(d) => d.result_set_id,
            None => {
                return ;
            },
        };
        proof {
            let di = self.cache.def_index(r.def.location.file_path@, r.def.location.range@.start);
            assert(tracked_def(self.emitter.stream(), self.cache.def_infos@[di]));
            assert(has_vertex(self.emitter.stream(), result_set_id, is_result_set_vertex()));
        }
        if self.cache.get_document_id(r.location.file_path.as_str()).is_none() {
            return ;
        }
        if self.cache.get_range_id(r.location.file_path.as_str(), &r.location.range).is_some() {
            return ;
        }
        let ghost s0 = self.emitter.stream();
        let rv = Vertex::Range { range: r.range() };
        let ghost grv = rv;
        let range_id = self.emit_v(rv);
        let ghost s1 = self.emitter.stream();
        let ghost pre1 = *self;
        proof {
            assert(s1[s0.len() as int] == Element { id: range_id, payload: Payload::Vertex(grv) });
            assert(has_vertex(s1, range_id, is_range_vertex()));
            lemma_vertex_still_there(s0, s1, result_set_id, is_result_set_vertex());
        }
        self.cache.cache_reference_range(&r, range_id);
        proof {
            let uri = r.location.file_path@;
            let k = pre1.cache.doc_index(uri);
            assert forall|i: int| 0 <= i < self.cache.documents@.len() implies tracked_doc(
                s1,
                #[trigger] self.cache.documents@[i],
            ) by {
                if i != k {
                    assert(self.cache.documents@[i] == pre1.cache.documents@[i]);
                } else {
                    let prec = pre1.cache.documents@[k];
                    let nrec = self.cache.documents@[k];
                    assert(tracked_doc(s1, prec));
                    assert forall|j: int| 0 <= j < nrec.ranges@.len() implies has_vertex(
                        s1,
                        (#[trigger] nrec.ranges@[j]).id,
                        is_range_vertex(),
                    ) by {
                        if j < prec.ranges@.len() {
                            assert(nrec.ranges@[j] == prec.ranges@[j]);
                        } else {
                            assert(nrec.ranges@[j].id == range_id);
                        }
                    }
                }
            }
            let next_e = Edge::Next { out_v: range_id, in_v: result_set_id };
            assert(edge_refs(next_e) =~= seq![range_id, result_set_id]);
            lemma_has_vertex_weaken(s1, range_id, is_range_vertex(), any_vertex());
            lemma_has_vertex_weaken(s1, result_set_id, is_result_set_vertex(), any_vertex());
            lemma_refs_pair(s1, range_id, result_set_id, next_e);
        }
        self.emit_e(Edge::Next { out_v: range_id, in_v: result_set_id });
        let ghost s2 = self.emitter.stream();
        let ghost pre2 = *self;
        proof {
            assert(self.cache.has_def(r.def.location.file_path@, r.def.location.range@.start));
            assert(self.cache.has_document(r.location.file_path@)) by {
                let uri = r.location.file_path@;
                let k = pre1.cache.doc_index(uri);
                assert(self.cache.documents@[k].uri@ == uri);
            }
        }
        self.cache.cache_reference(&r.def, &r, range_id);
        proof {
            let uri = r.location.file_path@;
            let k = pre2.cache.doc_index(uri);
            let doc_id = pre2.cache.doc_id(uri);
            let di = pre2.cache.def_index(r.def.location.file_path@, r.def.location.range@.start);
            lemma_vertex_still_there(s1, s2, range_id, is_range_vertex());
            assert forall|i: int| 0 <= i < self.cache.documents@.len() implies tracked_doc(
                s2,
                #[trigger] self.cache.documents@[i],
            ) by {
                if i != k {
                    assert(self.cache.documents@[i] == pre2.cache.documents@[i]);
                } else {
                    let prec = pre2.cache.documents@[k];
                    let nrec = self.cache.documents@[k];
                    assert(tracked_doc(s2, prec));
                    assert forall|j: int|
                        0 <= j < nrec.info.reference_range_ids@.len() implies has_vertex(
                        s2,
                        #[trigger] nrec.info.reference_range_ids@[j],
                        is_range_vertex(),
                    ) by {
                        if j < prec.info.reference_range_ids@.len() {
                            assert(nrec.info.reference_range_ids@[j]
                                == prec.info.reference_range_ids@[j]);
                        } else {
                            assert(nrec.info.reference_range_ids@[j] == range_id);
                        }
                    }
                }
            }
            assert(has_vertex(s2, doc_id, is_document_vertex())) by {
                assert(tracked_doc(s2, self.cache.documents@[k]));
                assert(self.cache.documents@[k].info.id == doc_id);
            }
            assert forall|i: int| 0 <= i < self.cache.def_infos@.len() implies tracked_def(
                s2,
                #[trigger] self.cache.def_infos@[i],
            ) by {
                if i != di {
                    assert(self.cache.def_infos@[i] == pre2.cache.def_infos@[i]);
                } else {
                    let prec = pre2.cache.def_infos@[di];
                    let nrec = self.cache.def_infos@[di];
                    assert(tracked_def(s2, prec));
                    let pb = prec.info.reference_range_ids@;
                    let nb = nrec.info.reference_range_ids@;
                    if LsifDataCache::info_has_bucket(prec.info, doc_id) {
                        let bi = LsifDataCache::info_bucket_index(prec.info, doc_id);
                        assert forall|b: int| 0 <= b < nb.len() implies has_vertex(
                            s2,
                            (#[trigger] nb[b]).document_id,
                            is_document_vertex(),
                        ) by {
                            if b != bi {
                                assert(nb[b] == pb[b]);
                            } else {
                                assert(nb[b].document_id == pb[b].document_id);
                            }
                        }
                        assert forall|b: int, j: int|
                            (0 <= b < nb.len() && 0 <= j < nb[b].range_ids@.len()) implies has_vertex(
                            s2,
                            #[trigger] nb[b].range_ids@[j],
                            is_range_vertex(),
                        ) by {
                            if b != bi {
                                assert(nb[b] == pb[b]);
                            } else {
                                if j < pb[bi].range_ids@.len() {
                                    assert(nb[bi].range_ids@[j] == pb[bi].range_ids@[j]);
                                } else {
                                    assert(nb[bi].range_ids@[j] == range_id);
                                }
                            }
                        }
                    } else {
                        assert forall|b: int| 0 <= b < nb.len() implies has_vertex(
                            s2,
                            (#[trigger] nb[b]).document_id,
                            is_document_vertex(),
                        ) by {
                            if b < pb.len() {
                                assert(nb[b] == nb.drop_last()[b]);
                                assert(nb[b] == pb[b]);
                            } else {
                                assert(nb[b] == nb.last());
                                assert(nb[b].document_id == doc_id);
                            }
                        }
                        assert forall|b: int, j: int|
                            (0 <= b < nb.len() && 0 <= j < nb[b].range_ids@.len()) implies has_vertex(
                            s2,
                            #[trigger] nb[b].range_ids@[j],
                            is_range_vertex(),
                        ) by {
                            if b < pb.len() {
                                assert(nb[b] == nb.drop_last()[b]);
                                assert(nb[b] == pb[b]);
                            } else {
                                assert(nb[b] == nb.last());
                                assert(nb[b].range_ids@ == seq![range_id]);
                                assert(nb[b].range_ids@[j] == range_id);
                            }
                        }
                    }
                }
            }
            // The lookups of the intermediate cache name the same records
            // as the initial one: keys never changed.
            let k0 = old(self).cache.doc_index(uri);
            assert(pre1.cache == old(self).cache);
            assert(pre2.cache.documents@[k0].uri@ == uri);
            pre2.cache.lemma_doc_index_is(k0);
            assert(k == k0);
            assert(pre2.cache.def_infos@ == old(self).cache.def_infos@);
            assert(doc_id == old(self).cache.doc_id(uri));
            // The two appended elements.
            let n0 = s0.len() as int;
            assert(s2[n0] == s1[n0]);
            assert(s2[n0 + 1] == s2.last());
            assert(s2.last().payload == Payload::Edge(
                Edge::Next { out_v: range_id, in_v: result_set_id },
            ));
            assert(s2[n0].id == range_id);
            assert(reference_emission(s0, s2, r, result_set_id));
        }
    }

    /// For each cached definition, emits its ReferenceResult vertex, the
    /// `references` edge from its result set, one `definitions` item edge,
    /// and one `references` item edge per document bucket.
    #[verifier::rlimit(100)]
    fn link_reference_results_to_ranges(&mut self)
        requires
            old(self).inv(),
            old(self).emitter.can_emit(
                3 * old(self).cache.def_infos@.len() + buckets_total(old(self).cache.def_infos@),
            ),
        ensures
            final(self).inv(),
            final(self).project_id == old(self).project_id,
            final(self).cache == old(self).cache,
            old(self).cache.def_infos@.len() == 0 ==> final(self).emitter.stream() == old(
                self,
            ).emitter.stream(),
            final(self).emitter.spec_next_id() as int <= old(self).emitter.spec_next_id() as int
                + 3 * old(self).cache.def_infos@.len() + buckets_total(old(self).cache.def_infos@),
            old(self).emitter.stream().len() <= final(self).emitter.stream().len(),
            forall|i: int|
                0 <= i < old(self).emitter.stream().len()
                    ==> #[trigger] final(self).emitter.stream()[i] == old(self).emitter.stream()[i],
            links_emission(
                old(self).emitter.stream(),
                final(self).emitter.stream(),
                old(self).cache.def_infos@,
            ),
    {
        let ghost n0g = self.emitter.stream().len() as int;
        let n = self.cache.def_infos.len();
        if n == 0 {
            proof {
                lemma_buckets_total_nonneg(self.cache.def_infos@);
                assert(self.cache.def_infos@.take(0) =~= Seq::<DefRecord>::empty());
            }
            return ;
        }
        proof {
            assert(buckets_total(self.cache.def_infos@.take(0)) == 0) by {
                assert(self.cache.def_infos@.take(0) =~= Seq::<DefRecord>::empty());
            }
        }
        let mut di: usize = 0;
        while di < n
            invariant
                self.inv(),
                n == self.cache.def_infos@.len(),
                di <= n,
                self.cache == old(self).cache,
                self.project_id == old(self).project_id,
                n0g == old(self).emitter.stream().len() as int,
                old(self).emitter.stream().len() <= self.emitter.stream().len(),
                forall|i: int|
                    0 <= i < old(self).emitter.stream().len()
                        ==> #[trigger] self.emitter.stream()[i] == old(self).emitter.stream()[i],
                self.emitter.can_emit(
                    3 * (n - di) + buckets_total(self.cache.def_infos@) - buckets_total(
                        self.cache.def_infos@.take(di as int),
                    ),
                ),
                self.emitter.spec_next_id() as int <= old(self).emitter.spec_next_id() as int + 3
                    * di + buckets_total(self.cache.def_infos@.take(di as int)),
                self.emitter.stream().len() as int == block_off(
                    n0g,
                    self.cache.def_infos@,
                    di as int,
                ),
                blocks_upto(self.emitter.stream(), n0g, self.cache.def_infos@, di as int),
            decreases n - di,
        {
            proof {
                lemma_buckets_total_take_le(self.cache.def_infos@, di as int);
                lemma_buckets_total_nonneg(self.cache.def_infos@.take(di as int));
                assert(tracked_def(self.emitter.stream(), self.cache.def_infos@[di as int]));
            }
            let result_set_id = self.cache.def_infos[di].info.result_set_id;
            let range_id = self.cache.def_infos[di].info.range_id;
            let document_id = self.cache.def_infos[di].info.document_id;
            let ghost s0 = self.emitter.stream();
            let ghost p = s0.len() as int;
            let rr_id = self.emit_v(Vertex::ReferenceResult);
            let ghost s1 = self.emitter.stream();
            proof {
                assert(s1[s0.len() as int].id == rr_id && s1[s0.len() as int].payload is Vertex);
                assert(has_vertex(s1, rr_id, any_vertex()));
                lemma_vertex_still_there(s0, s1, result_set_id, is_result_set_vertex());
                lemma_vertex_still_there(s0, s1, range_id, is_range_vertex());
                lemma_vertex_still_there(s0, s1, document_id, is_document_vertex());
                lemma_has_vertex_weaken(s1, result_set_id, is_result_set_vertex(), any_vertex());
                let refs_e = Edge::References { out_v: result_set_id, in_v: rr_id };
                assert(edge_refs(refs_e) =~= seq![result_set_id, rr_id]);
                lemma_refs_pair(s1, result_set_id, rr_id, refs_e);
            }
            self.emit_e(Edge::References { out_v: result_set_id, in_v: rr_id });
            let ghost s2 = self.emitter.stream();
            let mut def_targets: Vec<ID> = Vec::new();
            def_targets.push(range_id);
            let item_def = Edge::Item {
                out_v: rr_id,
                in_vs: def_targets,
                document: document_id,
                property: ItemProperty::Definitions,
            };
            let ghost g_item_def = item_def;
            proof {
                assert forall|i: int| 0 <= i < s1.len() implies s2[i] == s1[i] by {}
                lemma_vertex_still_there(s1, s2, rr_id, any_vertex());
                lemma_vertex_still_there(s0, s1, range_id, is_range_vertex());
                lemma_vertex_still_there(s1, s2, range_id, is_range_vertex());
                lemma_vertex_still_there(s1, s2, document_id, is_document_vertex());
                lemma_has_vertex_weaken(s2, range_id, is_range_vertex(), any_vertex());
                lemma_has_vertex_weaken(s2, document_id, is_document_vertex(), any_vertex());
                assert(edge_refs(g_item_def) =~= seq![rr_id, range_id, document_id]);
                lemma_refs_triple(s2, rr_id, range_id, document_id, g_item_def);
            }
            self.emit_e(item_def);
            let ghost s3 = self.emitter.stream();
            proof {
                assert forall|i: int| 0 <= i < s2.len() implies s3[i] == s2[i] by {}
                lemma_vertex_still_there(s2, s3, rr_id, any_vertex());
                lemma_buckets_total_take_step(self.cache.def_infos@, di as int);
                assert(s1[p] == Element { id: rr_id, payload: Payload::Vertex(Vertex::ReferenceResult) });
                assert(s2[p] == s1[p] && s3[p] == s2[p]);
                assert(s2[p + 1] == s2.last());
                assert(s3[p + 1] == s2[p + 1]);
                assert(s2.last().payload == Payload::Edge(
                    Edge::References { out_v: result_set_id, in_v: rr_id },
                ));
                assert(s3[p + 2] == s3.last());
                assert(s3.last().payload == Payload::Edge(g_item_def));
                assert(g_item_def matches Edge::Item { out_v, in_vs, document, property } && out_v
                    == rr_id && in_vs@ =~= seq![range_id] && document == document_id && property
                    == ItemProperty::Definitions);
                assert forall|i: int| 0 <= i < s0.len() implies s3[i] == s0[i] by {
                    assert(s2[i] == s1[i]);
                    assert(s1[i] == s0[i]);
                }
                lemma_buckets_total_nonneg(self.cache.def_infos@.take(di as int));
                lemma_blocks_upto_still(s0, s3, n0g, self.cache.def_infos@, di as int);
            }
            let m = self.cache.def_infos[di].info.reference_range_ids.len();
            let mut b: usize = 0;
            while b < m
                invariant
                    self.inv(),
                    n == self.cache.def_infos@.len(),
                    di < n,
                    self.cache == old(self).cache,
                    self.project_id == old(self).project_id,
                    n0g == old(self).emitter.stream().len() as int,
                    m == self.cache.def_infos@[di as int].info.reference_range_ids@.len(),
                    b <= m,
                    has_vertex(self.emitter.stream(), rr_id, any_vertex()),
                    old(self).emitter.stream().len() <= self.emitter.stream().len(),
                    forall|i: int|
                        0 <= i < old(self).emitter.stream().len()
                            ==> #[trigger] self.emitter.stream()[i] == old(
                            self,
                        ).emitter.stream()[i],
                    self.emitter.can_emit(
                        (m - b) + 3 * (n - di - 1) + buckets_total(self.cache.def_infos@)
                            - buckets_total(self.cache.def_infos@.take(di as int + 1)),
                    ),
                    self.emitter.spec_next_id() as int <= old(self).emitter.spec_next_id() as int
                        + 3 * (di + 1) + buckets_total(self.cache.def_infos@.take(di as int)) + b,
                    p == block_off(n0g, self.cache.def_infos@, di as int),
                    self.emitter.stream().len() as int == p + 3 + b,
                    self.emitter.stream()[p] == (Element {
                        id: rr_id,
                        payload: Payload::Vertex(Vertex::ReferenceResult),
                    }),
                    self.emitter.stream()[p + 1].payload == Payload::Edge(
                        Edge::References { out_v: result_set_id, in_v: rr_id },
                    ),
                    (self.emitter.stream()[p + 2].payload matches Payload::Edge(
                        Edge::Item { out_v, in_vs, document, property },
                    ) && out_v == rr_id && in_vs@
                        == seq![self.cache.def_infos@[di as int].info.range_id] && document
                        == self.cache.def_infos@[di as int].info.document_id && property
                        == ItemProperty::Definitions),
                    result_set_id == self.cache.def_infos@[di as int].info.result_set_id,
                    forall|b2: int|
                        0 <= b2 < b ==> ((#[trigger] self.emitter.stream()[p + 3 + b2].payload) matches Payload::Edge(
                            Edge::Item { out_v, in_vs, document, property },
                        ) && out_v == rr_id && in_vs@
                            == self.cache.def_infos@[di as int].info.reference_range_ids@[b2].range_ids@
                            && document
                            == self.cache.def_infos@[di as int].info.reference_range_ids@[b2].document_id
                            && property == ItemProperty::References),
                    blocks_upto(self.emitter.stream(), n0g, self.cache.def_infos@, di as int),
                decreases m - b,
            {
                proof {
                    lemma_buckets_total_take_le(self.cache.def_infos@, di as int + 1);
                    assert(tracked_def(self.emitter.stream(), self.cache.def_infos@[di as int]));
                }
                let bucket_doc = self.cache.def_infos[di].info.reference_range_ids[b].document_id;
                let ids = copy_ids(&self.cache.def_infos[di].info.reference_range_ids[b].range_ids);
                let item_ref = Edge::Item {
                    out_v: rr_id,
                    in_vs: ids,
                    document: bucket_doc,
                    property: ItemProperty::References,
                };
                let ghost g_item_ref = item_ref;
                let ghost sb = self.emitter.stream();
                proof {
                    let bucket = self.cache.def_infos@[di as int].info.reference_range_ids@[b as int];
                    lemma_has_vertex_weaken(sb, bucket_doc, is_document_vertex(), any_vertex());
                    assert forall|j: int| 0 <= j < bucket.range_ids@.len() implies has_vertex(
                        sb,
                        #[trigger] bucket.range_ids@[j],
                        any_vertex(),
                    ) by {
                        lemma_has_vertex_weaken(sb, bucket.range_ids@[j], is_range_vertex(), any_vertex());
                    }
                    assert(edge_refs(g_item_ref) =~= (seq![rr_id] + bucket.range_ids@).push(
                        bucket_doc,
                    ));
                    lemma_refs_fan_doc(sb, rr_id, bucket.range_ids@, bucket_doc, g_item_ref);
                }
                self.emit_e(item_ref);
                proof {
                    let sc = self.emitter.stream();
                    lemma_vertex_still_there(sb, sc, rr_id, any_vertex());
                    assert(sc[p + 3 + b] == sc.last());
                    assert(sc.last().payload == Payload::Edge(g_item_ref));
                    assert(g_item_ref matches Edge::Item { out_v, in_vs, document, property }
                        && out_v == rr_id && in_vs@
                        == self.cache.def_infos@[di as int].info.reference_range_ids@[b as int].range_ids@
                        && document
                        == self.cache.def_infos@[di as int].info.reference_range_ids@[b as int].document_id
                        && property == ItemProperty::References);
                    lemma_buckets_total_nonneg(self.cache.def_infos@.take(di as int));
                    lemma_blocks_upto_still(sb, sc, n0g, self.cache.def_infos@, di as int);
                }
                b = b + 1;
            }
            proof {
                lemma_buckets_total_take_step(self.cache.def_infos@, di as int);
                let sc = self.emitter.stream();
                let c = self.cache.def_infos@;
                assert(link_block_at(sc, p, c[di as int]));
                assert forall|di2: int| 0 <= di2 < di + 1 implies #[trigger] link_block_at(
                    sc,
                    block_off(n0g, c, di2),
                    c[di2],
                ) by {
                    if di2 == di as int {
                        assert(block_off(n0g, c, di2) == p);
                    }
                }
            }
            di = di + 1;
        }
        proof {
            assert(self.cache.def_infos@.take(n as int) =~= self.cache.def_infos@);
        }
    }

    /// Emits one `contains` edge per document with ranges, then the
    /// project's `contains` edge over all documents. Empty target lists
    /// are skipped.
    #[verifier::rlimit(100)]
    fn emit_contains(&mut self)
        requires
            old(self).inv(),
            old(self).emitter.can_emit(old(self).cache.documents@.len() as int + 1),
        ensures
            final(self).inv(),
            final(self).project_id == old(self).project_id,
            final(self).cache == old(self).cache,
            old(self).cache.documents@.len() == 0 ==> final(self).emitter.stream() == old(
                self,
            ).emitter.stream(),
            old(self).emitter.stream().len() <= final(self).emitter.stream().len(),
            forall|i: int|
                0 <= i < old(self).emitter.stream().len()
                    ==> #[trigger] final(self).emitter.stream()[i] == old(self).emitter.stream()[i],
            contains_emission(
                old(self).emitter.stream(),
                final(self).emitter.stream(),
                old(self).cache.documents@,
                old(self).project_id,
            ),
    {
        let ghost n0g = self.emitter.stream().len() as int;
        let ndocs = self.cache.documents.len();
        if ndocs == 0 {
            return ;
        }
        let mut d: usize = 0;
        while d < ndocs
            invariant
                self.inv(),
                ndocs == self.cache.documents@.len(),
                d <= ndocs,
                self.cache == old(self).cache,
                self.project_id == old(self).project_id,
                n0g == old(self).emitter.stream().len() as int,
                old(self).emitter.stream().len() <= self.emitter.stream().len(),
                forall|i: int|
                    0 <= i < old(self).emitter.stream().len()
                        ==> #[trigger] self.emitter.stream()[i] == old(self).emitter.stream()[i],
                self.emitter.can_emit((ndocs - d) + 1),
                self.emitter.stream().len() as int == n0g + nonempty_docs(
                    self.cache.documents@,
                    d as int,
                ),
                forall|d2: int|
                    0 <= d2 < d ==> ({
                        let lists = (#[trigger] self.cache.documents@[d2]).info.definition_range_ids@
                            + self.cache.documents@[d2].info.reference_range_ids@;
                        lists.len() > 0 ==> (self.emitter.stream()[n0g + nonempty_docs(
                            self.cache.documents@,
                            d2,
                        )].payload matches Payload::Edge(Edge::Contains { out_v, in_vs }) && out_v
                            == self.cache.documents@[d2].info.id && in_vs@ == lists)
                    }),
            decreases ndocs - d,
        {
            proof {
                assert(tracked_doc(self.emitter.stream(), self.cache.documents@[d as int]));
                lemma_nonempty_docs_mono(self.cache.documents@, 0, d as int);
            }
            let doc_id = self.cache.documents[d].info.id;
            let mut all = copy_ids(&self.cache.documents[d].info.definition_range_ids);
            let mut refs = copy_ids(&self.cache.documents[d].info.reference_range_ids);
            all.append(&mut refs);
            if all.len() > 0 {
                let contains_e = Edge::Contains { out_v: doc_id, in_vs: all };
                let ghost g_contains = contains_e;
                let ghost sb = self.emitter.stream();
                proof {
                    let rec = self.cache.documents@[d as int];
                    let targets = rec.info.definition_range_ids@ + rec.info.reference_range_ids@;
                    lemma_has_vertex_weaken(sb, doc_id, is_document_vertex(), any_vertex());
                    assert forall|j: int| 0 <= j < targets.len() implies has_vertex(
                        sb,
                        #[trigger] targets[j],
                        any_vertex(),
                    ) by {
                        if j < rec.info.definition_range_ids@.len() {
                            assert(targets[j] == rec.info.definition_range_ids@[j]);
                            lemma_has_vertex_weaken(sb, targets[j], is_range_vertex(), any_vertex());
                        } else {
                            assert(targets[j] == rec.info.reference_range_ids@[j - rec.info.definition_range_ids@.len()]);
                            lemma_has_vertex_weaken(sb, targets[j], is_range_vertex(), any_vertex());
                        }
                    }
                    assert(edge_refs(g_contains) =~= seq![doc_id] + targets);
                    lemma_refs_fan(sb, doc_id, targets, g_contains);
                }
                self.emit_e(contains_e);
                proof {
                    let sc = self.emitter.stream();
                    let rec = self.cache.documents@[d as int];
                    let lists = rec.info.definition_range_ids@ + rec.info.reference_range_ids@;
                    assert(sc[n0g + nonempty_docs(self.cache.documents@, d as int)] == sc.last());
                    assert(sc.last().payload == Payload::Edge(g_contains));
                    assert(g_contains matches Edge::Contains { out_v, in_vs } && out_v
                        == rec.info.id && in_vs@ == lists);
                    lemma_contains_partial_still(sb, sc, self.cache.documents@, n0g, d as int);
                }
            }
            d = d + 1;
        }
        let ghost s_edges = self.emitter.stream();
        let mut doc_ids: Vec<ID> = Vec::new();
        let mut d2: usize = 0;
        while d2 < ndocs
            invariant
                self.inv(),
                ndocs == self.cache.documents@.len(),
                d2 <= ndocs,
                doc_ids@.len() == d2 as int,
                forall|j: int|
                    0 <= j < d2 ==> #[trigger] doc_ids@[j]
                        == self.cache.documents@[j].info.id,
                self.cache == old(self).cache,
                self.project_id == old(self).project_id,
                self.emitter.stream() == s_edges,
                self.emitter.can_emit(1),
            decreases ndocs - d2,
        {
            doc_ids.push(self.cache.documents[d2].info.id);
            d2 = d2 + 1;
        }
        let ghost g_doc_ids = doc_ids@;
        let contains_p = Edge::Contains { out_v: self.project_id, in_vs: doc_ids };
        let ghost g_contains_p = contains_p;
        let ghost sb = self.emitter.stream();
        proof {
            let targets = g_contains_p->Contains_in_vs@;
            assert forall|j: int| 0 <= j < targets.len() implies has_vertex(
                sb,
                #[trigger] targets[j],
                any_vertex(),
            ) by {
                assert(targets[j] == self.cache.documents@[j].info.id);
                assert(tracked_doc(sb, self.cache.documents@[j]));
                lemma_has_vertex_weaken(sb, targets[j], is_document_vertex(), any_vertex());
            }
            assert(edge_refs(g_contains_p) =~= seq![self.project_id] + targets);
            lemma_refs_fan(sb, self.project_id, targets, g_contains_p);
        }
        self.emit_e(contains_p);
        proof {
            let sc = self.emitter.stream();
            let docs = self.cache.documents@;
            assert(sc.last().payload == Payload::Edge(g_contains_p));
            assert(g_contains_p matches Edge::Contains { out_v, in_vs } && out_v == self.project_id
                && in_vs@ == g_doc_ids);
            lemma_contains_partial_still(sb, sc, docs, n0g, docs.len() as int);
            assert(contains_emission(
                old(self).emitter.stream(),
                sc,
                docs,
                old(self).project_id,
            ));
        }
    }

    /// Generates an LSIF dump from a project: the metaData vertex first,
    /// one document vertex per file, then every definition event, then
    /// every reference event, the reference results, and the `contains`
    /// edges. The result is the finished stream, one element per output
    /// line: identifiers start at 1 and increase by one per element, and
    /// every edge refers only to vertices emitted before it. An empty
    /// project yields exactly the metaData vertex.
    #[verifier::rlimit(100)]
    pub fn index(opt: Args, files: Vec<String>, defs: Vec<Definition>, refs: Vec<Reference>) -> (r:
        Vec<Element>)
        requires
            opt.project_root matches Some(root) && is_absolute_path(root@),
            forall|k: int| 0 <= k < files@.len() ==> is_absolute_path((#[trigger] files@[k])@),
            files@.len() + defs@.len() + refs@.len() < 0x0100_0000_0000_0000,
        ensures
            forall|i: int| 0 <= i < r@.len() ==> (#[trigger] r@[i]).id == i + 1,
            stream_topologically_ordered(r@),
            r@.len() >= 1,
            r@[0].id == 1,
            (r@[0].payload matches Payload::Vertex(Vertex::MetaData {
                version,
                position_encoding,
                project_root,
                tool_name,
            }) && version@ == "0.1"@ && position_encoding@ == "utf-16"@ && project_root@
                == dir_uri_of(opt.project_root->0@) && tool_name@ == "universal-lsif"@),
            forall|k: int|
                0 <= k < files@.len() ==> doc_vertex_in(r@, uri_of((#[trigger] files@[k])@), opt.language@),
            (files@.len() == 0 && defs@.len() == 0 && refs@.len() == 0) ==> r@.len() == 1,
    {
        let mut ix = Indexer {
            emitter: Emitter::new(),
            project_id: 0,
            cache: LsifDataCache::new(),
        };
        proof {
            assert(stream_topologically_ordered(ix.emitter.stream()));
            assert(cache_tracks(ix.cache, ix.emitter.stream()));
            assert(ix.inv0());
        }
        let ghost f0 = files@.len() as int;
        let ghost d0 = defs@.len() as int;
        let ghost r0 = refs@.len() as int;
        ix.emit_metadata_and_project_vertex(&opt);
        let ghost s_meta = ix.emitter.stream();
        proof {
            assert(s_meta.len() == 1);
            assert(s_meta[0] == s_meta.last());
            assert(buckets_total(ix.cache.def_infos@) == 0);
            assert(ix.emitter.spec_next_id() == 2);
        }
        ix.emit_documents(&opt, &files);
        let ghost s_docs = ix.emitter.stream();
        proof {
            assert(s_docs[0] == s_meta[0]);
            assert(ix.cache.def_infos@ =~= Seq::<DefRecord>::empty());
            assert(buckets_total(ix.cache.def_infos@) == 0);
        }
        let mut pending_defs = defs;
        while pending_defs.len() > 0
            invariant
                ix.inv(),
                pending_defs@.len() <= d0,
                ix.emitter.spec_next_id() as int <= 2 + f0 + 11 * (d0 - pending_defs@.len()),
                ix.cache.documents@.len() <= f0,
                ix.cache.def_infos@.len() <= d0 - pending_defs@.len(),
                buckets_total(ix.cache.def_infos@) == 0,
                0 <= f0 && 0 <= d0 && 0 <= r0,
                f0 + d0 + r0 < 0x0100_0000_0000_0000,
                s_docs.len() <= ix.emitter.stream().len(),
                forall|i: int|
                    0 <= i < s_docs.len() ==> #[trigger] ix.emitter.stream()[i] == s_docs[i],
                d0 == 0 ==> ix.emitter.stream() == s_docs,
            decreases pending_defs@.len(),
        {
            let d = pending_defs.remove(0);
            ix.index_definition(&opt, d);
        }
        let ghost s_defs = ix.emitter.stream();
        let mut pending_refs = refs;
        while pending_refs.len() > 0
            invariant
                ix.inv(),
                pending_refs@.len() <= r0,
                ix.emitter.spec_next_id() as int <= 2 + f0 + 11 * d0 + 2 * (r0
                    - pending_refs@.len()),
                ix.cache.documents@.len() <= f0,
                ix.cache.def_infos@.len() <= d0,
                buckets_total(ix.cache.def_infos@) <= r0 - pending_refs@.len(),
                0 <= f0 && 0 <= d0 && 0 <= r0,
                f0 + d0 + r0 < 0x0100_0000_0000_0000,
                s_defs.len() <= ix.emitter.stream().len(),
                forall|i: int|
                    0 <= i < s_defs.len() ==> #[trigger] ix.emitter.stream()[i] == s_defs[i],
                r0 == 0 ==> ix.emitter.stream() == s_defs,
                s_docs.len() <= s_defs.len(),
                forall|i: int| 0 <= i < s_docs.len() ==> #[trigger] s_defs[i] == s_docs[i],
            decreases pending_refs@.len(),
        {
            let rf = pending_refs.remove(0);
            ix.index_reference(rf);
        }
        let ghost s_refs = ix.emitter.stream();
        proof {
            lemma_buckets_total_nonneg(ix.cache.def_infos@);
        }
        ix.link_reference_results_to_ranges();
        let ghost s_link = ix.emitter.stream();
        ix.emit_contains();
        let r = ix.emitter.end();
        proof {
            assert forall|i: int| 0 <= i < s_docs.len() implies #[trigger] r@[i] == s_docs[i] by {
                assert(r@[i] == s_link[i]);
                assert(s_link[i] == s_refs[i]);
                assert(s_refs[i] == s_defs[i]);
                assert(s_defs[i] == s_docs[i]);
            }
            assert(r@[0] == s_meta[0]);
            assert forall|k: int| 0 <= k < files@.len() implies doc_vertex_in(
                r@,
                uri_of((#[trigger] files@[k])@),
                opt.language@,
            ) by {
                assert forall|i: int| 0 <= i < s_docs.len() implies s_docs[i] == #[trigger] r@[i] by {
                    assert(r@[i] == s_link[i]);
                    assert(s_link[i] == s_refs[i]);
                    assert(s_refs[i] == s_defs[i]);
                    assert(s_defs[i] == s_docs[i]);
                }
                lemma_doc_vertex_in_still(s_docs, r@, uri_of(files@[k]@), opt.language@);
            }
            if files@.len() == 0 && defs@.len() == 0 && refs@.len() == 0 {
                assert(r@.len() == 1);
            }
        }
        r
    }

    /// All identifiers of the definition star name emitted vertices.
    proof fn lemma_star_refs(
        self,
        s: Seq<Element>,
        range_id: ID,
        result_set_id: ID,
        def_result_id: ID,
        moniker_id: ID,
        document_id: ID,
        hover_result_id: Option<ID>,
    )
        requires
            has_vertex(s, range_id, is_range_vertex()),
            has_vertex(s, result_set_id, is_result_set_vertex()),
            has_vertex(s, def_result_id, any_vertex()),
            has_vertex(s, moniker_id, any_vertex()),
            has_vertex(s, document_id, is_document_vertex()),
            hover_result_id matches Some(h) ==> has_vertex(s, h, any_vertex()),
        ensures
            has_vertex(s, range_id, any_vertex()),
            has_vertex(s, result_set_id, any_vertex()),
            has_vertex(s, document_id, any_vertex()),
    {
        lemma_has_vertex_weaken(s, range_id, is_range_vertex(), any_vertex());
        lemma_has_vertex_weaken(s, result_set_id, is_result_set_vertex(), any_vertex());
        lemma_has_vertex_weaken(s, document_id, is_document_vertex(), any_vertex());
    }

    /// Carries the definition star's vertex facts to an extended stream.
    proof fn lemma_refresh_star(
        self,
        s: Seq<Element>,
        s2: Seq<Element>,
        range_id: ID,
        result_set_id: ID,
        def_result_id: ID,
        moniker_id: ID,
        document_id: ID,
        hover_result_id: Option<ID>,
    )
        requires
            has_vertex(s, range_id, is_range_vertex()),
            has_vertex(s, result_set_id, is_result_set_vertex()),
            has_vertex(s, def_result_id, any_vertex()),
            has_vertex(s, moniker_id, any_vertex()),
            has_vertex(s, document_id, is_document_vertex()),
            hover_result_id matches Some(h) ==> has_vertex(s, h, any_vertex()),
            s.len() <= s2.len(),
            forall|i: int| 0 <= i < s.len() ==> s2[i] == s[i],
        ensures
            has_vertex(s2, range_id, is_range_vertex()),
            has_vertex(s2, result_set_id, is_result_set_vertex()),
            has_vertex(s2, def_result_id, any_vertex()),
            has_vertex(s2, moniker_id, any_vertex()),
            has_vertex(s2, document_id, is_document_vertex()),
            hover_result_id matches Some(h) ==> has_vertex(s2, h, any_vertex()),
            has_vertex(s2, range_id, any_vertex()),
            has_vertex(s2, result_set_id, any_vertex()),
            has_vertex(s2, document_id, any_vertex()),
    {
        lemma_vertex_still_there(s, s2, range_id, is_range_vertex());
        lemma_vertex_still_there(s, s2, result_set_id, is_result_set_vertex());
        lemma_vertex_still_there(s, s2, def_result_id, any_vertex());
        lemma_vertex_still_there(s, s2, moniker_id, any_vertex());
        lemma_vertex_still_there(s, s2, document_id, is_document_vertex());
        if hover_result_id is Some {
            lemma_vertex_still_there(s, s2, hover_result_id->0, any_vertex());
        }
        lemma_has_vertex_weaken(s2, range_id, is_range_vertex(), any_vertex());
        lemma_has_vertex_weaken(s2, result_set_id, is_result_set_vertex(), any_vertex());
        lemma_has_vertex_weaken(s2, document_id, is_document_vertex(), any_vertex());
    }
}

} // verus!
