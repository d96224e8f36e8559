//! The language-server wire protocol, as far as the library decides it:
//! framing of outgoing messages, incremental parsing of incoming frames,
//! and the matching of responses to the pending request.

use vstd::prelude::*;

use crate::lsp::parse_helpers::{
    dec_of, header_kind, header_length, is_digit, is_ws, parse_header, trim_spec, LspHeader,
};

pub mod parse_helpers;

verus! {

/// Configuration for one language: the file extensions worth indexing
/// and the keywords never sent to the server.
#[derive(Debug, Clone)]
pub struct LSConfig {
    pub extensions: Vec<String>,
    pub keywords: Vec<String>,
}

/// The decimal spelling of a number, as bytes.
pub open spec fn dec_repr(n: int) -> Seq<u8>
    decreases n,
    when n >= 0
{
    if n < 10 {
        seq![(48 + n) as u8]
    } else {
        dec_repr(n / 10).push((48 + n % 10) as u8)
    }
}

/// The decimal digits of `n`.
fn dec_bytes(n: usize) -> (r: Vec<u8>)
    ensures
        r@ == dec_repr(n as int),
    decreases n,
{
    if n < 10 {
        let mut v: Vec<u8> = Vec::new();
        v.push(48 + n as u8);
        proof {
            assert(v@ =~= dec_repr(n as int));
        }
        v
    } else {
        let mut v = dec_bytes(n / 10);
        v.push(48 + (n % 10) as u8);
        v
    }
}

/// The bytes of `Content-Length: `.
pub open spec fn content_length_prefix() -> Seq<u8> {
    seq![67u8, 111, 110, 116, 101, 110, 116, 45, 76, 101, 110, 103, 116, 104, 58, 32]
}

/// The frame around a message of `l` body bytes: the length header, a
/// blank line, and nothing else.
pub open spec fn frame_header(l: int) -> Seq<u8> {
    content_length_prefix() + dec_repr(l) + seq![13u8, 10, 13, 10]
}

/// Wraps a message body in its `Content-Length` frame, ready to be
/// written to the server's stdin.
pub fn prepare_lsp_json(msg: &Vec<u8>) -> (r: Vec<u8>)
    ensures
        r@ == frame_header(msg@.len() as int) + msg@,
{
    let mut r: Vec<u8> = Vec::new();
    r.push(67);
    r.push(111);
    r.push(110);
    r.push(116);
    r.push(101);
    r.push(110);
    r.push(116);
    r.push(45);
    r.push(76);
    r.push(101);
    r.push(110);
    r.push(103);
    r.push(116);
    r.push(104);
    r.push(58);
    r.push(32);
    proof {
        assert(r@ =~= content_length_prefix());
    }
    let mut digits = dec_bytes(msg.len());
    r.append(&mut digits);
    r.push(13);
    r.push(10);
    r.push(13);
    r.push(10);
    proof {
        assert(r@ =~= frame_header(msg@.len() as int));
    }
    let mut i: usize = 0;
    let ghost head = r@;
    while i < msg.len()
        invariant
            i <= msg@.len(),
            r@ == head + msg@.take(i as int),
        decreases msg@.len() - i,
    {
        r.push(msg[i]);
        proof {
            assert(head + msg@.take(i + 1) =~= (head + msg@.take(i as int)).push(msg@[i as int]));
        }
        i = i + 1;
    }
    proof {
        assert(msg@.take(msg@.len() as int) =~= msg@);
    }
    r
}

/// The position of the first newline at or after `i`, or -1.
pub open spec fn find_nl(s: Seq<u8>, i: int) -> int
    decreases s.len() - i,
    when i >= 0
{
    if i >= s.len() {
        -1
    } else if s[i] == 10 {
        i
    } else {
        find_nl(s, i + 1)
    }
}

proof fn lemma_find_nl_range(s: Seq<u8>, i: int)
    requires
        0 <= i,
    ensures
        find_nl(s, i) == -1 || (i <= find_nl(s, i) < s.len()),
    decreases s.len() - i,
{
    if i < s.len() && s[i] != 10 {
        lemma_find_nl_range(s, i + 1);
    }
}

/// What parsing one frame from `s` at position `from` yields: more bytes
/// are needed, the headers are faulty, or a complete body.
pub enum FrameOutcome {
    Incomplete,
    Invalid,
    Frame { body: Vec<u8>, next: usize },
}

/// The meaning of the frame grammar: scan header lines until a blank
/// one, remembering the last `Content-Length`; the body is that many
/// bytes after the blank line, zero if no length was given.
pub open spec fn frame_spec(s: Seq<u8>, from: int, len: Option<int>, out: FrameOutcome) -> bool
    decreases s.len() - from,
    when 0 <= from <= s.len()
    via frame_spec_dec
{
    let e = find_nl(s, from);
    if e < 0 {
        out is Incomplete
    } else {
        let line = s.subrange(from, e + 1);
        if trim_spec(line).len() == 0 {
            let l: int = match len {
                Some(v) => v,
                None => 0,
            };
            if e + 1 + l <= s.len() {
                out matches FrameOutcome::Frame { body, next } && body@ == s.subrange(
                    e + 1,
                    e + 1 + l,
                ) && next == e + 1 + l
            } else {
                out is Incomplete
            }
        } else if header_kind(line) == 2 {
            frame_spec(s, e + 1, Some(header_length(line)), out)
        } else if header_kind(line) == 1 {
            frame_spec(s, e + 1, len, out)
        } else {
            out is Invalid
        }
    }
}

#[via_fn]
proof fn frame_spec_dec(s: Seq<u8>, from: int, len: Option<int>, out: FrameOutcome) {
    lemma_find_nl_range(s, from);
}

/// A blank line holds only whitespace.
proof fn lemma_trim_empty(s: Seq<u8>)
    ensures
        (trim_spec(s).len() == 0) == (forall|j: int| 0 <= j < s.len() ==> is_ws(#[trigger] s[j])),
    decreases s.len(),
{
    if s.len() == 0 {
    } else if is_ws(s.first()) {
        let t = s.drop_first();
        lemma_trim_empty(t);
        if trim_spec(t).len() == 0 {
            assert forall|j: int| 0 <= j < s.len() implies is_ws(#[trigger] s[j]) by {
                if j > 0 {
                    assert(t[j - 1] == s[j]);
                    assert(is_ws(t[j - 1]));
                }
            }
        } else {
            let w = choose|j: int| 0 <= j < t.len() && !is_ws(#[trigger] t[j]);
            assert(s[w + 1] == t[w]);
            assert(!is_ws(s[w + 1]));
        }
    } else if is_ws(s.last()) {
        let t = s.drop_last();
        lemma_trim_empty(t);
        if trim_spec(t).len() == 0 {
            assert forall|j: int| 0 <= j < s.len() implies is_ws(#[trigger] s[j]) by {
                if j < s.len() - 1 {
                    assert(t[j] == s[j]);
                    assert(is_ws(t[j]));
                }
            }
        } else {
            let w = choose|j: int| 0 <= j < t.len() && !is_ws(#[trigger] t[j]);
            assert(s[w] == t[w]);
            assert(!is_ws(s[w]));
        }
    } else {
        assert(!is_ws(s[0]));
        assert(trim_spec(s) == s);
    }
}

/// The integer view of a pending length.
pub open spec fn opt_int(o: Option<usize>) -> Option<int> {
    match o {
        Some(v) => Some(v as int),
        None => None,
    }
}

/// Parses one framed message out of `input`, starting at `from`: header
/// lines up to a blank line, then exactly `Content-Length` bytes of
/// body (zero if no length header appeared). `Incomplete` asks the
/// caller to read more bytes and try again; `Invalid` reports a framing
/// fault.
pub fn read_message(input: &[u8], from: usize) -> (r: FrameOutcome)
    requires
        from <= input@.len(),
    ensures
        frame_spec(input@, from as int, Option::<int>::None, r),
{
    let n = input.len();
    let mut pos = from;
    let mut clen: Option<usize> = None;
    loop
        invariant
            from <= pos <= n,
            n == input@.len(),
            forall|o: FrameOutcome|
                #[trigger] frame_spec(input@, from as int, Option::<int>::None, o) == frame_spec(
                    input@,
                    pos as int,
                    opt_int(clen),
                    o,
                ),
        decreases n - pos,
    {
        let mut e = pos;
        while e < n && input[e] != 10
            invariant
                pos <= e <= n,
                n == input@.len(),
                find_nl(input@, pos as int) == find_nl(input@, e as int),
            decreases n - e,
        {
            e = e + 1;
        }
        if e == n {
            return FrameOutcome::Incomplete;
        }
        proof {
            assert(find_nl(input@, pos as int) == e as int);
        }
        let ghost line = input@.subrange(pos as int, e + 1);
        let mut blank = true;
        let mut j = pos;
        while j < e + 1 && blank
            invariant
                pos <= j <= e + 1 <= n,
                n == input@.len(),
                blank ==> forall|j2: int| pos <= j2 < j ==> is_ws(#[trigger] input@[j2]),
                !blank ==> exists|j2: int| pos <= j2 < j && !is_ws(#[trigger] input@[j2]),
            decreases e + 1 - j,
        {
            let b = input[j];
            if !(b == 32 || b == 9 || b == 13 || b == 10) {
                blank = false;
            }
            j = j + 1;
        }
        proof {
            lemma_trim_empty(line);
            assert forall|j2: int| 0 <= j2 < line.len() implies line[j2] == #[trigger] input@[pos
                + j2] by {}
            if blank {
                assert(j == e + 1);
                assert forall|j2: int| 0 <= j2 < line.len() implies is_ws(#[trigger] line[j2]) by {
                    assert(line[j2] == input@[pos + j2]);
                    assert(is_ws(input@[pos + j2]));
                }
                assert(trim_spec(line).len() == 0);
            } else {
                let w = choose|j2: int| pos <= j2 < j && !is_ws(#[trigger] input@[j2]);
                assert(line[w - pos] == input@[w]);
                assert(!is_ws(line[w - pos]));
                assert(trim_spec(line).len() != 0);
            }
        }
        if blank {
            let l: usize = match clen {
                Some(v) => v,
                None => 0,
            };
            proof {
                assert(trim_spec(line).len() == 0);
            }
            if l <= n - (e + 1) {
                let mut body: Vec<u8> = Vec::new();
                let mut bi: usize = 0;
                while bi < l
                    invariant
                        bi <= l,
                        e + 1 + l <= n,
                        n == input@.len(),
                        body@ == input@.subrange(e + 1, e + 1 + bi),
                    decreases l - bi,
                {
                    body.push(input[e + 1 + bi]);
                    proof {
                        assert(input@.subrange(e + 1, e + 1 + bi + 1) =~= input@.subrange(
                            e + 1,
                            e + 1 + bi,
                        ).push(input@[e + 1 + bi]));
                    }
                    bi = bi + 1;
                }
                return FrameOutcome::Frame { body, next: e + 1 + l };
            } else {
                return FrameOutcome::Incomplete;
            }
        }
        proof {
            assert(trim_spec(line).len() != 0);
        }
        let header = match parse_header(&input[pos..e + 1]) {
            Ok(h) => h,
            Err(_) => {
                proof {
                    assert(header_kind(line) == 0) by {
                        if header_kind(line) == 1 || header_kind(line) == 2 {
                            assert(false);
                        }
                    }
                }
                return FrameOutcome::Invalid;
            },
        };
        let ghost old_clen = clen;
        let ghost old_pos = pos;
        match header {
            LspHeader::ContentLength(v) => {
                proof {
                    assert(header_kind(line) == 2) by {
                        if header_kind(line) == 0 || header_kind(line) == 1 {
                            assert(false);
                        }
                    }
                    assert(v == header_length(line));
                }
                clen = Some(v);
            },
            LspHeader::ContentType => {
                proof {
                    assert(header_kind(line) == 1) by {
                        if header_kind(line) == 0 || header_kind(line) == 2 {
                            assert(false);
                        }
                    }
                }
            },
        }
        pos = e + 1;
        proof {
            assert forall|o: FrameOutcome|
                #[trigger] frame_spec(input@, from as int, Option::<int>::None, o) == frame_spec(
                    input@,
                    pos as int,
                    opt_int(clen),
                    o,
                ) by {
                assert(frame_spec(input@, old_pos as int, opt_int(old_clen), o) == frame_spec(
                    input@,
                    pos as int,
                    opt_int(clen),
                    o,
                ));
            }
        }
    }
}

/// A JSON-RPC identifier: a number or a digit string.
#[derive(Debug, Clone)]
pub enum RpcId {
    Num(i64),
    Str(String),
}

/// A digit character.
pub open spec fn is_digit_char(c: char) -> bool {
    '0' <= c && c <= '9'
}

/// The number a digit string spells.
pub open spec fn dec_of_chars(s: Seq<char>) -> int
    decreases s.len(),
{
    if s.len() == 0 {
        0
    } else {
        dec_of_chars(s.drop_last()) * 10 + (s.last() as int - 48)
    }
}

/// An identifier the client can match against its request counter:
/// a non-negative number, or a digit string whose value fits.
pub open spec fn valid_id(id: RpcId) -> bool {
    match id {
        RpcId::Num(n) => n >= 0,
        RpcId::Str(s) => s@.len() > 0 && (forall|i: int|
            0 <= i < s@.len() ==> is_digit_char(#[trigger] s@[i])) && dec_of_chars(s@)
            <= u64::MAX as int,
    }
}

/// The numeric value of an identifier.
pub open spec fn id_value(id: RpcId) -> int {
    match id {
        RpcId::Num(n) => n as int,
        RpcId::Str(s) => dec_of_chars(s@),
    }
}

proof fn lemma_dec_of_chars_grows(s: Seq<char>, k: int)
    requires
        0 <= k <= s.len(),
        forall|i: int| 0 <= i < s.len() ==> is_digit_char(#[trigger] s[i]),
    ensures
        dec_of_chars(s) >= dec_of_chars(s.take(k)),
        dec_of_chars(s.take(k)) >= 0,
    decreases s.len() - k,
{
    if k > 0 || k < s.len() {
        if k == 0 {
            assert(s.take(0) =~= Seq::<char>::empty());
        }
    }
    if k == s.len() {
        assert(s.take(k) =~= s);
        lemma_dec_of_chars_nonneg(s);
    } else {
        lemma_dec_of_chars_grows(s, k + 1);
        assert(s.take(k + 1).drop_last() =~= s.take(k));
        lemma_dec_of_chars_nonneg(s.take(k));
        assert(is_digit_char(s[k]));
        assert(dec_of_chars(s.take(k + 1)) == dec_of_chars(s.take(k)) * 10 + (s[k] as int - 48));
    }
}

proof fn lemma_dec_of_chars_nonneg(s: Seq<char>)
    requires
        forall|i: int| 0 <= i < s.len() ==> is_digit_char(#[trigger] s[i]),
    ensures
        dec_of_chars(s) >= 0,
    decreases s.len(),
{
    if s.len() > 0 {
        assert(forall|i: int|
            0 <= i < s.len() - 1 ==> s.drop_last()[i] == #[trigger] s[i]);
        lemma_dec_of_chars_nonneg(s.drop_last());
    }
}

/// The numeric value of a JSON-RPC identifier, used to match responses
/// to the pending request.
pub fn number_from_id(id: &RpcId) -> (r: u64)
    requires
        valid_id(*id),
    ensures
        r == id_value(*id),
{
    match id {
        RpcId::Num(n) => *n as u64,
        RpcId::Str(s) => {
            let st = s.as_str();
            let n = st.unicode_len();
            let mut acc: u64 = 0;
            let mut i: usize = 0;
            while i < n
                invariant
                    i <= n,
                    n == st@.len(),
                    st@ == s@,
                    valid_id(RpcId::Str(*s)),
                    acc == dec_of_chars(st@.take(i as int)),
                decreases n - i,
            {
                let c = st.get_char(i);
                let d = (c as u32) as u64 - 48;
                proof {
                    assert(is_digit_char(st@[i as int]));
                    assert(st@.take(i + 1).drop_last() =~= st@.take(i as int));
                    lemma_dec_of_chars_grows(st@, i + 1);
                    assert(dec_of_chars(st@.take(i + 1)) <= dec_of_chars(st@) <= u64::MAX as int);
                }
                acc = acc * 10 + d;
                i = i + 1;
            }
            proof {
                assert(st@.take(n as int) =~= st@);
            }
            acc
        },
    }
}

/// A message from the server, classified: its own requests and
/// notifications, a success carrying a result, or an error.
#[derive(Debug)]
pub enum RpcMessage {
    Request,
    Notification,
    Success { id: u64, result: String },
    Failure { id: u64 },
}

/// What the client does with one incoming message while awaiting the
/// response to request `pending`: server-initiated requests and
/// notifications are discarded, as is any response to another request;
/// the matching success yields its result, the matching error a
/// per-query failure.
pub fn handle_message(msg: RpcMessage, pending: u64) -> (r: Option<Result<String, ()>>)
    ensures
        match msg {
            RpcMessage::Request => r is None,
            RpcMessage::Notification => r is None,
            RpcMessage::Success { id, result } => if id == pending {
                r matches Some(Ok(body)) && body@ == result@
            } else {
                r is None
            },
            RpcMessage::Failure { id } => if id == pending {
                r matches Some(Err(e))
            } else {
                r is None
            },
        },
{
    match msg {
        RpcMessage::Request => None,
        RpcMessage::Notification => None,
        RpcMessage::Success { id, result } => if id == pending {
            Some(Ok(result))
        } else {
            None
        },
        RpcMessage::Failure { id } => if id == pending {
            Some(Err(()))
        } else {
            None
        },
    }
}

} // verus!
