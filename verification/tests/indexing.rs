use universal_lsif::cli::Args;
use universal_lsif::crawler::{classify, CrawlEvent, Definition, GotoResponse, Location,
    LspLocation, Range, Reference};
use universal_lsif::emitter::Emitter;
use universal_lsif::indexer::Indexer;
use universal_lsif::lsp::{handle_message, RpcMessage};
use universal_lsif::protocol::{Edge, Element, ItemProperty, Payload, Position, Vertex};

fn lsif_range(l0: u64, c0: u64, l1: u64, c1: u64) -> universal_lsif::protocol::Range {
    universal_lsif::protocol::Range {
        start: Position { line: l0, character: c0 },
        end: Position { line: l1, character: c1 },
    }
}

fn test_args() -> Args {
    Args {
        init_server_command: "server".to_string(),
        language: "rust".to_string(),
        server_args: None,
        project_root: Some("/p".to_string()),
        output: None,
    }
}

fn definition_at(uri: &str, l: u64, c0: u64, c1: u64, name: &str) -> Definition {
    Definition {
        location: Location {
            file_path: uri.to_string(),
            range: Range::new(lsif_range(l, c0, l, c1)),
        },
        node_name: name.to_string(),
        comment: None,
    }
}

fn count_vertices(out: &[Element], f: impl Fn(&Vertex) -> bool) -> usize {
    out.iter()
        .filter(|e| match &e.payload {
            Payload::Vertex(v) => f(v),
            Payload::Edge(_) => false,
        })
        .count()
}

fn count_edges(out: &[Element], f: impl Fn(&Edge) -> bool) -> usize {
    out.iter()
        .filter(|e| match &e.payload {
            Payload::Edge(ed) => f(ed),
            Payload::Vertex(_) => false,
        })
        .count()
}

#[test]
fn ids_are_monotonic_and_unique() {
    let uri = "file:///p/main.x";
    let def = definition_at(uri, 0, 4, 7, "foo");
    let rf = Reference {
        location: Location {
            file_path: uri.to_string(),
            range: Range::new(lsif_range(1, 10, 1, 13)),
        },
        node_name: "foo".to_string(),
        def: definition_at(uri, 0, 4, 7, "foo"),
    };
    let out = Indexer::index(
        test_args(),
        vec!["/p/main.x".to_string()],
        vec![def],
        vec![rf],
    );
    for (i, e) in out.iter().enumerate() {
        assert_eq!(e.id, i as u64 + 1);
    }
}

#[test]
fn single_definition_and_reference() {
    let uri = "file:///p/main.x";
    let def = definition_at(uri, 0, 4, 7, "foo");
    let rf = Reference {
        location: Location {
            file_path: uri.to_string(),
            range: Range::new(lsif_range(1, 10, 1, 13)),
        },
        node_name: "foo".to_string(),
        def: definition_at(uri, 0, 4, 7, "foo"),
    };
    let out = Indexer::index(
        test_args(),
        vec!["/p/main.x".to_string()],
        vec![def],
        vec![rf],
    );

    assert_eq!(count_vertices(&out, |v| matches!(v, Vertex::Range { .. })), 2);
    assert_eq!(count_vertices(&out, |v| matches!(v, Vertex::ResultSet)), 1);
    assert_eq!(count_vertices(&out, |v| matches!(v, Vertex::DefinitionResult)), 1);
    assert_eq!(count_vertices(&out, |v| matches!(v, Vertex::ReferenceResult)), 1);
    assert_eq!(count_vertices(&out, |v| matches!(v, Vertex::Moniker { .. })), 1);
    assert_eq!(count_vertices(&out, |v| matches!(v, Vertex::HoverResult { .. })), 0);
    assert_eq!(count_edges(&out, |e| matches!(e, Edge::Next { .. })), 2);
    assert_eq!(
        count_edges(&out, |e| matches!(e, Edge::Item { property: ItemProperty::Definitions, .. })),
        1
    );
    assert_eq!(
        count_edges(&out, |e| matches!(e, Edge::Item { property: ItemProperty::References, .. })),
        1
    );

    // The document's contains edge lists both ranges; the project's
    // contains edge lists the document.
    let doc_id = out
        .iter()
        .find_map(|e| match &e.payload {
            Payload::Vertex(Vertex::Document { .. }) => Some(e.id),
            _ => None,
        })
        .unwrap();
    let range_ids: Vec<u64> = out
        .iter()
        .filter_map(|e| match &e.payload {
            Payload::Vertex(Vertex::Range { .. }) => Some(e.id),
            _ => None,
        })
        .collect();
    let mut doc_contains = None;
    let mut project_contains = None;
    for e in &out {
        if let Payload::Edge(Edge::Contains { out_v, in_vs }) = &e.payload {
            if *out_v == doc_id {
                doc_contains = Some(in_vs.clone());
            } else {
                project_contains = Some(in_vs.clone());
            }
        }
    }
    // Definition ranges come before reference ranges in the document's
    // contains edge; the definition's range vertex was emitted first.
    let doc_contains = doc_contains.unwrap();
    assert_eq!(doc_contains, vec![range_ids[0], range_ids[1]]);
    assert_eq!(project_contains.unwrap(), vec![doc_id]);
}

#[test]
fn every_edge_follows_its_vertices() {
    let uri = "file:///p/main.x";
    let def = definition_at(uri, 0, 4, 7, "foo");
    let rf = Reference {
        location: Location {
            file_path: uri.to_string(),
            range: Range::new(lsif_range(1, 10, 1, 13)),
        },
        node_name: "foo".to_string(),
        def: definition_at(uri, 0, 4, 7, "foo"),
    };
    let out = Indexer::index(
        test_args(),
        vec!["/p/main.x".to_string()],
        vec![def],
        vec![rf],
    );
    let mut seen: Vec<u64> = Vec::new();
    for e in &out {
        if let Payload::Edge(ed) = &e.payload {
            let mut refs: Vec<u64> = Vec::new();
            match ed {
                Edge::Contains { out_v, in_vs } => {
                    refs.push(*out_v);
                    refs.extend(in_vs.iter().copied());
                }
                Edge::Next { out_v, in_v }
                | Edge::Definition { out_v, in_v }
                | Edge::References { out_v, in_v }
                | Edge::Hover { out_v, in_v }
                | Edge::Moniker { out_v, in_v } => {
                    refs.push(*out_v);
                    refs.push(*in_v);
                }
                Edge::Item { out_v, in_vs, document, .. } => {
                    refs.push(*out_v);
                    refs.extend(in_vs.iter().copied());
                    refs.push(*document);
                }
            }
            for id in refs {
                assert!(seen.contains(&id), "edge {} refers to unseen vertex {}", e.id, id);
            }
        } else {
            seen.push(e.id);
        }
    }
}

#[test]
fn reference_outside_project_contributes_nothing() {
    let uri = "file:///p/main.x";
    let rf = Reference {
        location: Location {
            file_path: uri.to_string(),
            range: Range::new(lsif_range(1, 10, 1, 13)),
        },
        node_name: "foo".to_string(),
        def: definition_at("file:///elsewhere/lib.x", 3, 0, 3, "foo"),
    };
    let out = Indexer::index(test_args(), vec!["/p/main.x".to_string()], vec![], vec![rf]);
    assert_eq!(count_vertices(&out, |v| matches!(v, Vertex::Range { .. })), 0);
    assert_eq!(count_edges(&out, |e| matches!(e, Edge::Next { .. })), 0);
    // metaData, the document, and the project's contains edge only
    assert_eq!(out.len(), 3);
}

#[test]
fn overlapping_starts_keep_only_the_first() {
    let uri = "file:///p/main.x";
    let first = definition_at(uri, 0, 4, 7, "foo");
    let second = definition_at(uri, 0, 4, 9, "foobar");
    let out = Indexer::index(
        test_args(),
        vec!["/p/main.x".to_string()],
        vec![first, second],
        vec![],
    );
    assert_eq!(count_vertices(&out, |v| matches!(v, Vertex::Range { .. })), 1);
    assert_eq!(count_vertices(&out, |v| matches!(v, Vertex::ResultSet)), 1);
    assert_eq!(count_vertices(&out, |v| matches!(v, Vertex::Moniker { .. })), 1);
}

#[test]
fn failed_query_leaves_other_output_unchanged() {
    // The response to request 7 is an error: it yields no event, so the
    // run's output equals a run that never saw that identifier.
    let outcome = handle_message(RpcMessage::Failure { id: 7 }, 7);
    assert!(matches!(outcome, Some(Err(()))));

    let uri = "file:///p/main.x";
    let with_failure: Vec<Definition> = vec![definition_at(uri, 0, 4, 7, "good")];
    let without: Vec<Definition> = vec![definition_at(uri, 0, 4, 7, "good")];
    let out_a = Indexer::index(test_args(), vec!["/p/main.x".to_string()], with_failure, vec![]);
    let out_b = Indexer::index(test_args(), vec!["/p/main.x".to_string()], without, vec![]);
    assert_eq!(out_a, out_b);
}

#[test]
fn empty_project_yields_only_metadata() {
    let out = Indexer::index(test_args(), vec![], vec![], vec![]);
    assert_eq!(out.len(), 1);
    assert_eq!(out[0].id, 1);
    match &out[0].payload {
        Payload::Vertex(Vertex::MetaData { version, position_encoding, project_root, tool_name }) => {
            assert_eq!(version, "0.1");
            assert_eq!(position_encoding, "utf-16");
            assert_eq!(project_root, "file:///p/");
            assert_eq!(tool_name, "universal-lsif");
        }
        other => panic!("expected a metaData vertex, got {:?}", other),
    }
}

#[test]
fn definition_with_comment_gets_a_hover() {
    let uri = "file:///p/main.x";
    let mut def = definition_at(uri, 0, 4, 7, "foo");
    def.comment = Some("docs".to_string());
    let out = Indexer::index(test_args(), vec!["/p/main.x".to_string()], vec![def], vec![]);
    assert_eq!(count_vertices(&out, |v| matches!(v, Vertex::HoverResult { .. })), 1);
    assert_eq!(count_edges(&out, |e| matches!(e, Edge::Hover { .. })), 1);
}

#[test]
fn moniker_names_file_and_symbol() {
    let uri = "file:///p/main.x";
    let def = definition_at(uri, 0, 4, 7, "foo");
    let out = Indexer::index(test_args(), vec!["/p/main.x".to_string()], vec![def], vec![]);
    let moniker = out
        .iter()
        .find_map(|e| match &e.payload {
            Payload::Vertex(Vertex::Moniker { kind, scheme, identifier }) => {
                Some((kind.clone(), scheme.clone(), identifier.clone()))
            }
            _ => None,
        })
        .unwrap();
    assert_eq!(moniker, ("local".to_string(), "zas".to_string(), "main.x:foo".to_string()));
}

#[test]
fn classification_self_definition() {
    let range = lsif_range(0, 4, 0, 7);
    let resp = GotoResponse::Scalar(LspLocation {
        uri: "file:///p/main.x".to_string(),
        range: lsif_range(0, 4, 0, 7),
    });
    match classify("/p/main.x", "foo".to_string(), range, resp) {
        Some(CrawlEvent::Def(d)) => {
            assert_eq!(d.location.file_path, "file:///p/main.x");
            assert_eq!(d.node_name, "foo");
            assert!(d.comment.is_none());
        }
        other => panic!("expected a definition event, got {:?}", other),
    }
}

#[test]
fn classification_reference_elsewhere() {
    let range = lsif_range(1, 10, 1, 13);
    let resp = GotoResponse::Array(vec![LspLocation {
        uri: "file:///p/lib.x".to_string(),
        range: lsif_range(5, 0, 5, 3),
    }]);
    match classify("/p/main.x", "foo".to_string(), range, resp) {
        Some(CrawlEvent::Ref(r)) => {
            assert_eq!(r.location.file_path, "file:///p/main.x");
            assert_eq!(r.def.location.file_path, "file:///p/lib.x");
            assert_eq!(r.def.node_name, "foo");
        }
        other => panic!("expected a reference event, got {:?}", other),
    }
}

#[test]
fn classification_drops_links_and_empty_answers() {
    let range = lsif_range(0, 0, 0, 3);
    assert!(classify("/p/main.x", "x".to_string(), range, GotoResponse::Link).is_none());
    let range = lsif_range(0, 0, 0, 3);
    assert!(
        classify("/p/main.x", "x".to_string(), range, GotoResponse::Array(vec![])).is_none()
    );
}

#[test]
fn emitter_assigns_fresh_ids_in_order() {
    let mut em = Emitter::new();
    let a = em.emit_vertex(Vertex::ResultSet);
    let b = em.emit_vertex(Vertex::DefinitionResult);
    let c = em.emit_edge(Edge::Next { out_v: a, in_v: b });
    assert_eq!((a, b, c), (1, 2, 3));
    let stream = em.end();
    assert_eq!(stream.len(), 3);
    assert_eq!(stream[2].payload, Payload::Edge(Edge::Next { out_v: 1, in_v: 2 }));
}
