use universal_lsif::cli::{normalize_path, Args};
use universal_lsif::crawler::{Location, Range};
use universal_lsif::lsp::parse_helpers::{parse_header, LspHeader};
use universal_lsif::lsp::{
    handle_message, number_from_id, prepare_lsp_json, read_message, FrameOutcome, RpcId,
    RpcMessage,
};
use universal_lsif::lsif_data_cache::LsifDataCache;
use universal_lsif::protocol::Position;

#[test]
fn header_content_length() {
    match parse_header(b"Content-Length: 42\r\n") {
        Ok(LspHeader::ContentLength(n)) => assert_eq!(n, 42),
        other => panic!("expected a content-length header, got {:?}", other.is_ok()),
    }
}

#[test]
fn header_is_case_insensitive() {
    assert!(matches!(
        parse_header(b"CONTENT-LENGTH: 7\r\n"),
        Ok(LspHeader::ContentLength(7))
    ));
    assert!(matches!(parse_header(b"content-TYPE: utf8\r\n"), Ok(LspHeader::ContentType)));
}

#[test]
fn unknown_header_is_a_fault() {
    assert!(parse_header(b"X-Custom: 1\r\n").is_err());
}

#[test]
fn separator_is_required() {
    assert!(parse_header(b"garbage\r\n").is_err());
}

#[test]
fn unreadable_length_is_a_fault() {
    assert!(parse_header(b"Content-Length: abc\r\n").is_err());
    assert!(parse_header(b"Content-Length: \r\n").is_err());
    assert!(parse_header(b"Content-Length: 99999999999999999999999\r\n").is_err());
}

#[test]
fn read_one_message() {
    let input = b"Content-Length: 5\r\n\r\nhello";
    match read_message(input, 0) {
        FrameOutcome::Frame { body, next } => {
            assert_eq!(body, b"hello".to_vec());
            assert_eq!(next, input.len());
        }
        other => panic!("expected a frame, got incomplete/invalid: {:?}", describe(&other)),
    }
}

#[test]
fn read_message_without_length_is_empty() {
    // A heartbeat frame: a blank line and no Content-Length means a
    // zero-byte body.
    match read_message(b"\r\nrest", 0) {
        FrameOutcome::Frame { body, next } => {
            assert_eq!(body, Vec::<u8>::new());
            assert_eq!(next, 2);
        }
        other => panic!("expected an empty frame, got {:?}", describe(&other)),
    }
}

#[test]
fn read_message_needs_full_body() {
    assert!(matches!(
        read_message(b"Content-Length: 5\r\n\r\nhel", 0),
        FrameOutcome::Incomplete
    ));
    assert!(matches!(read_message(b"Content-Length: 5", 0), FrameOutcome::Incomplete));
}

#[test]
fn read_message_rejects_bad_headers() {
    assert!(matches!(read_message(b"Bogus: 1\r\n\r\n", 0), FrameOutcome::Invalid));
}

#[test]
fn read_message_ignores_content_type() {
    let input = b"Content-Type: utf8\r\nContent-Length: 2\r\n\r\nok";
    match read_message(input, 0) {
        FrameOutcome::Frame { body, next } => {
            assert_eq!(body, b"ok".to_vec());
            assert_eq!(next, input.len());
        }
        other => panic!("expected a frame, got {:?}", describe(&other)),
    }
}

#[test]
fn read_two_messages_in_sequence() {
    let input = b"Content-Length: 2\r\n\r\nabContent-Length: 1\r\n\r\nc";
    let first = read_message(input, 0);
    let next = match first {
        FrameOutcome::Frame { ref body, next } => {
            assert_eq!(body, &b"ab".to_vec());
            next
        }
        ref other => panic!("expected a frame, got {:?}", describe(other)),
    };
    match read_message(input, next) {
        FrameOutcome::Frame { body, next } => {
            assert_eq!(body, b"c".to_vec());
            assert_eq!(next, input.len());
        }
        other => panic!("expected a frame, got {:?}", describe(&other)),
    }
}

fn describe(o: &FrameOutcome) -> &'static str {
    match o {
        FrameOutcome::Incomplete => "incomplete",
        FrameOutcome::Invalid => "invalid",
        FrameOutcome::Frame { .. } => "frame",
    }
}

#[test]
fn framing_round_trip() {
    let body = b"{\"id\":1}".to_vec();
    let framed = prepare_lsp_json(&body);
    assert_eq!(framed, b"Content-Length: 8\r\n\r\n{\"id\":1}".to_vec());
    match read_message(framed.as_slice(), 0) {
        FrameOutcome::Frame { body: b, next } => {
            assert_eq!(b, body);
            assert_eq!(next, framed.len());
        }
        other => panic!("expected a frame, got {:?}", describe(&other)),
    }
}

#[test]
fn numeric_ids() {
    assert_eq!(number_from_id(&RpcId::Num(5)), 5);
    assert_eq!(number_from_id(&RpcId::Str("123".to_string())), 123);
    assert_eq!(number_from_id(&RpcId::Num(0)), 0);
}

#[test]
fn responses_match_the_pending_request() {
    assert!(handle_message(RpcMessage::Request, 3).is_none());
    assert!(handle_message(RpcMessage::Notification, 3).is_none());
    assert!(handle_message(RpcMessage::Success { id: 4, result: "{}".to_string() }, 3).is_none());
    match handle_message(RpcMessage::Success { id: 3, result: "{}".to_string() }, 3) {
        Some(Ok(body)) => assert_eq!(body, "{}"),
        other => panic!("expected the matching success, got {:?}", other),
    }
    assert!(handle_message(RpcMessage::Failure { id: 9 }, 3).is_none());
    assert!(matches!(handle_message(RpcMessage::Failure { id: 3 }, 3), Some(Err(()))));
}

#[test]
fn normalize_resolves_dots() {
    assert_eq!(normalize_path("/a/./b/../c"), "/a/c");
    assert_eq!(normalize_path("a//b/"), "a/b");
    assert_eq!(normalize_path("../x"), "x");
    assert_eq!(normalize_path("/p"), "/p");
}

#[test]
fn canonicalize_fills_defaults() {
    let mut args = Args {
        init_server_command: "server".to_string(),
        language: "go".to_string(),
        server_args: None,
        project_root: Some("/r".to_string()),
        output: None,
    };
    args.canonicalize_paths();
    assert_eq!(args.project_root, Some("/r".to_string()));
    assert_eq!(args.output, Some("/r/dump.json".to_string()));

    let mut args2 = Args {
        init_server_command: "server".to_string(),
        language: "go".to_string(),
        server_args: None,
        project_root: None,
        output: Some("/tmp/./out.json".to_string()),
    };
    args2.canonicalize_paths();
    assert_eq!(args2.project_root, Some(".".to_string()));
    assert_eq!(args2.output, Some("/tmp/out.json".to_string()));
}

#[test]
fn file_name_is_the_last_component() {
    let loc = Location {
        file_path: "file:///a/b/main.rs".to_string(),
        range: Range::new(universal_lsif::protocol::Range {
            start: Position { line: 0, character: 0 },
            end: Position { line: 0, character: 1 },
        }),
    };
    assert_eq!(loc.file_name(), "main.rs");
}

#[test]
fn cache_deduplicates_ranges_by_start() {
    let mut cache = LsifDataCache::new();
    cache.cache_document("file:///p/main.x".to_string(), 2);
    assert_eq!(cache.get_document_id("file:///p/main.x"), Some(2));
    assert_eq!(cache.get_document_id("file:///p/other.x"), None);

    let def = universal_lsif::crawler::Definition {
        location: Location {
            file_path: "file:///p/main.x".to_string(),
            range: Range::new(universal_lsif::protocol::Range {
                start: Position { line: 0, character: 4 },
                end: Position { line: 0, character: 7 },
            }),
        },
        node_name: "foo".to_string(),
        comment: None,
    };
    cache.cache_definition(&def, 2, 3, 4);
    // A range with the same start but another end lands in the same slot.
    let same_start = Range::new(universal_lsif::protocol::Range {
        start: Position { line: 0, character: 4 },
        end: Position { line: 0, character: 9 },
    });
    assert_eq!(cache.get_range_id("file:///p/main.x", &same_start), Some(3));
    let other_start = Range::new(universal_lsif::protocol::Range {
        start: Position { line: 0, character: 5 },
        end: Position { line: 0, character: 9 },
    });
    assert_eq!(cache.get_range_id("file:///p/main.x", &other_start), None);
    assert_eq!(cache.get_definition_info(&def.location).map(|d| d.result_set_id), Some(4));
}
