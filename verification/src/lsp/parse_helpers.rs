//! Parsing of the header-framed messages a language server writes to its
//! stdout: an HTTP-style header block ended by a blank line, then a body
//! of exactly `Content-Length` bytes.

use vstd::prelude::*;

verus! {

/// A recognized header. `Content-Length` carries the body length;
/// `Content-Type` is accepted and ignored.
pub enum LspHeader {
    ContentType,
    ContentLength(usize),
}

/// A framing fault: a header line without a `": "` separator, an unknown
/// header name, or an unreadable length.
#[derive(Debug, Clone, Copy, PartialEq, Eq, Structural)]
pub struct FrameError {}

/// ASCII whitespace, the characters trimmed off header parts.
pub open spec fn is_ws(b: u8) -> bool {
    b == 32 || b == 9 || b == 13 || b == 10
}

/// ASCII lowercasing of one byte.
pub open spec fn lower(b: u8) -> u8 {
    if 65 <= b && b <= 90 {
        (b + 32) as u8
    } else {
        b
    }
}

/// The bytes with leading and trailing ASCII whitespace removed.
pub open spec fn trim_spec(s: Seq<u8>) -> Seq<u8>
    decreases s.len(),
{
    if s.len() > 0 && is_ws(s.first()) {
        trim_spec(s.drop_first())
    } else if s.len() > 0 && is_ws(s.last()) {
        trim_spec(s.drop_last())
    } else {
        s
    }
}

/// Trimmed and lowercased: how header parts are compared.
pub open spec fn norm(s: Seq<u8>) -> Seq<u8> {
    trim_spec(s).map_values(|b: u8| lower(b))
}

/// The byte spelling of `content-length`.
pub open spec fn content_length_name() -> Seq<u8> {
    seq![99u8, 111, 110, 116, 101, 110, 116, 45, 108, 101, 110, 103, 116, 104]
}

/// The byte spelling of `content-type`.
pub open spec fn content_type_name() -> Seq<u8> {
    seq![99u8, 111, 110, 116, 101, 110, 116, 45, 116, 121, 112, 101]
}

/// The position of the first `": "` at or after `i`, or -1.
pub open spec fn first_sep(s: Seq<u8>, i: int) -> int
    decreases s.len() - i,
    when i >= 0
{
    if i + 2 > s.len() {
        -1
    } else if s[i] == 58 && s[i + 1] == 32 {
        i
    } else {
        first_sep(s, i + 1)
    }
}

/// An ASCII decimal digit.
pub open spec fn is_digit(b: u8) -> bool {
    48 <= b && b <= 57
}

pub open spec fn all_digits(s: Seq<u8>) -> bool {
    forall|i: int| 0 <= i < s.len() ==> is_digit(#[trigger] s[i])
}

/// The number the digits spell.
pub open spec fn dec_of(s: Seq<u8>) -> int
    decreases s.len(),
{
    if s.len() == 0 {
        0
    } else {
        dec_of(s.drop_last()) * 10 + (s.last() - 48)
    }
}

proof fn lemma_dec_of_nonneg(s: Seq<u8>)
    requires
        all_digits(s),
    ensures
        dec_of(s) >= 0,
    decreases s.len(),
{
    if s.len() > 0 {
        assert(all_digits(s.drop_last())) by {
            assert(forall|i: int|
                0 <= i < s.len() - 1 ==> s.drop_last()[i] == #[trigger] s[i]);
        }
        lemma_dec_of_nonneg(s.drop_last());
    }
}

/// What a header line means: no separator or an unknown name is a fault,
/// `content-type` is ignored, `content-length` carries its decimal value
/// if that value is readable and fits.
pub open spec fn header_kind(line: Seq<u8>) -> int {
    let sep = first_sep(line, 0);
    if sep < 0 {
        0  // malformed
    } else {
        let name = norm(line.subrange(0, sep));
        let value = norm(line.subrange(sep + 2, line.len() as int));
        if name == content_type_name() {
            1  // content-type
        } else if name == content_length_name() {
            if value.len() > 0 && all_digits(value) && dec_of(value) <= usize::MAX as int {
                2  // content-length
            } else {
                0
            }
        } else {
            0
        }
    }
}

/// The length a `content-length` line carries.
pub open spec fn header_length(line: Seq<u8>) -> int {
    let sep = first_sep(line, 0);
    dec_of(norm(line.subrange(sep + 2, line.len() as int)))
}

proof fn lemma_trim_range(s: Seq<u8>, lo: int, hi: int)
    requires
        0 <= lo <= hi <= s.len(),
        forall|j: int| 0 <= j < lo ==> is_ws(#[trigger] s[j]),
        forall|j: int| hi <= j < s.len() ==> is_ws(#[trigger] s[j]),
        lo < hi ==> !is_ws(s[lo]) && !is_ws(s[hi - 1]),
    ensures
        trim_spec(s) == s.subrange(lo, hi),
    decreases s.len(),
{
    if s.len() > 0 && is_ws(s.first()) {
        assert(lo > 0 || lo == hi) by {
            if lo == 0 && lo < hi {
                assert(!is_ws(s[0]));
            }
        }
        if lo == hi {
            if lo == 0 {
                lemma_trim_range(s.drop_first(), 0, 0);
                assert(s.drop_first().subrange(0, 0) =~= s.subrange(lo, hi));
            } else {
                lemma_trim_range(s.drop_first(), lo - 1, hi - 1);
                assert(s.drop_first().subrange(lo - 1, hi - 1) =~= s.subrange(lo, hi));
            }
        } else {
            lemma_trim_range(s.drop_first(), lo - 1, hi - 1);
            assert(s.drop_first().subrange(lo - 1, hi - 1) =~= s.subrange(lo, hi));
        }
    } else if s.len() > 0 && is_ws(s.last()) {
        assert(hi < s.len() || lo == hi) by {
            if hi == s.len() && lo < hi {
                assert(!is_ws(s[hi - 1]));
            }
        }
        if lo == hi && hi == s.len() {
            lemma_trim_range(s.drop_last(), lo - 1, hi - 1);
            assert(s.drop_last().subrange(lo - 1, hi - 1) =~= s.subrange(lo, hi));
        } else {
            lemma_trim_range(s.drop_last(), lo, hi);
            assert(s.drop_last().subrange(lo, hi) =~= s.subrange(lo, hi));
        }
    } else {
        assert(lo == 0 && hi == s.len()) by {
            if s.len() > 0 {
                if lo > 0 {
                    assert(is_ws(s[0]));
                }
                if hi < s.len() {
                    assert(is_ws(s[s.len() - 1]));
                }
            }
        }
        assert(s.subrange(0, s.len() as int) =~= s);
    }
}

/// Lowercases one byte.
fn lower_byte(b: u8) -> (r: u8)
    ensures
        r == lower(b),
{
    if 65 <= b && b <= 90 {
        b + 32
    } else {
        b
    }
}

fn ws_byte(b: u8) -> (r: bool)
    ensures
        r == is_ws(b),
{
    b == 32 || b == 9 || b == 13 || b == 10
}

/// The trimmed, lowercased copy of a byte range.
fn normalize_part(s: &[u8], from: usize, to: usize) -> (r: Vec<u8>)
    requires
        from <= to <= s@.len(),
    ensures
        r@ == norm(s@.subrange(from as int, to as int)),
{
    let ghost part = s@.subrange(from as int, to as int);
    let mut lo: usize = from;
    while lo < to && ws_byte(s[lo])
        invariant
            from <= lo <= to <= s@.len(),
            forall|j: int| from <= j < lo ==> is_ws(#[trigger] s@[j]),
        decreases to - lo,
    {
        lo = lo + 1;
    }
    let mut hi: usize = to;
    while hi > lo && ws_byte(s[hi - 1])
        invariant
            lo <= hi <= to <= s@.len(),
            lo >= from,
            forall|j: int| hi <= j < to ==> is_ws(#[trigger] s@[j]),
        decreases hi,
    {
        hi = hi - 1;
    }
    proof {
        assert forall|j: int| 0 <= j < lo - from implies is_ws(#[trigger] part[j]) by {
            assert(part[j] == s@[from + j]);
        }
        assert forall|j: int| hi - from <= j < part.len() implies is_ws(#[trigger] part[j]) by {
            assert(part[j] == s@[from + j]);
        }
        if lo < hi {
            assert(part[lo - from] == s@[lo as int]);
            assert(part[hi - from - 1] == s@[hi - 1]);
        }
        lemma_trim_range(part, lo - from, hi - from);
    }
    let mut r: Vec<u8> = Vec::new();
    let mut i: usize = lo;
    while i < hi
        invariant
            lo <= i <= hi <= s@.len(),
            r@.len() == i - lo,
            forall|j: int| 0 <= j < r@.len() ==> #[trigger] r@[j] == lower(s@[lo + j]),
        decreases hi - i,
    {
        r.push(lower_byte(s[i]));
        i = i + 1;
    }
    proof {
        assert(trim_spec(part) == part.subrange(lo - from, hi - from));
        assert(r@ =~= norm(part)) by {
            assert forall|j: int| 0 <= j < r@.len() implies r@[j] == norm(part)[j] by {
                assert(trim_spec(part)[j] == part[lo - from + j]);
                assert(part[lo - from + j] == s@[lo + j]);
            }
        }
    }
    r
}

/// Reads a decimal number, refusing empty or non-digit input and values
/// that do not fit.
fn parse_decimal(s: &Vec<u8>) -> (r: Option<usize>)
    ensures
        match r {
            Some(v) => s@.len() > 0 && all_digits(s@) && dec_of(s@) <= usize::MAX as int && v
                == dec_of(s@),
            None => !(s@.len() > 0 && all_digits(s@) && dec_of(s@) <= usize::MAX as int),
        },
{
    if s.len() == 0 {
        return None;
    }
    let mut acc: usize = 0;
    let mut i: usize = 0;
    while i < s.len()
        invariant
            i <= s@.len(),
            all_digits(s@.take(i as int)),
            acc == dec_of(s@.take(i as int)),
        decreases s@.len() - i,
    {
        let b = s[i];
        if b < 48 || b > 57 {
            proof {
                assert(!is_digit(s@[i as int]));
            }
            return None;
        }
        let d = (b - 48) as usize;
        if acc > (usize::MAX - d) / 10 {
            proof {
                if all_digits(s@) {
                    assert(s@.take(i + 1).drop_last() =~= s@.take(i as int));
                    assert(dec_of(s@.take(i + 1)) == acc * 10 + d);
                    assert(acc * 10 + d > usize::MAX as int) by (nonlinear_arith)
                        requires
                            acc > (usize::MAX - d) / 10,
                            0 <= d <= 9,
                            acc >= 0,
                    {}
                    lemma_dec_grows(s@, i + 1);
                }
            }
            return None;
        }
        acc = acc * 10 + d;
        proof {
            assert(s@.take(i + 1).drop_last() =~= s@.take(i as int));
            assert(all_digits(s@.take(i + 1))) by {
                assert(forall|j: int|
                    0 <= j < i + 1 ==> s@.take(i + 1)[j] == #[trigger] s@[j]);
                assert(is_digit(s@[i as int]));
            }
        }
        i = i + 1;
    }
    proof {
        assert(s@.take(s@.len() as int) =~= s@);
    }
    Some(acc)
}

/// The value only grows as more digits follow.
proof fn lemma_dec_grows(s: Seq<u8>, k: int)
    requires
        0 <= k <= s.len(),
        all_digits(s),
    ensures
        dec_of(s) >= dec_of(s.take(k)),
    decreases s.len() - k,
{
    if k == s.len() {
        assert(s.take(k) =~= s);
    } else {
        lemma_dec_grows(s, k + 1);
        assert(s.take(k + 1).drop_last() =~= s.take(k));
        assert(all_digits(s.take(k))) by {
            assert(forall|j: int| 0 <= j < k ==> s.take(k)[j] == #[trigger] s[j]);
        }
        lemma_dec_of_nonneg(s.take(k));
        assert(is_digit(s[k]));
        assert(dec_of(s.take(k + 1)) == dec_of(s.take(k)) * 10 + (s[k] - 48));
    }
}

/// Parses one header line. Case is ignored and surrounding whitespace
/// trimmed; a line without `": "`, with an unknown name, or with an
/// unreadable length is a fault.
pub fn parse_header(s: &[u8]) -> (r: Result<LspHeader, FrameError>)
    ensures
        header_kind(s@) == 0 ==> r is Err,
        header_kind(s@) == 1 ==> r matches Ok(LspHeader::ContentType),
        header_kind(s@) == 2 ==> (r matches Ok(LspHeader::ContentLength(l)) && l == header_length(
            s@,
        )),
{
    let n = s.len();
    let sp = match find_sep_idx(s) {
        Some(sp) => sp,
        None => {
            return Err(FrameError {});
        },
    };
    let name = normalize_part(s, 0, sp);
    let value = normalize_part(s, sp + 2, n);
    if is_name(&name, true) {
        match parse_decimal(&value) {
            Some(v) => Ok(LspHeader::ContentLength(v)),
            None => Err(FrameError {}),
        }
    } else if is_name(&name, false) {
        Ok(LspHeader::ContentType)
    } else {
        Err(FrameError {})
    }
}

/// The position of the first `": "` separator, if any.
fn find_sep_idx(s: &[u8]) -> (r: Option<usize>)
    ensures
        match r {
            Some(i) => first_sep(s@, 0) == i as int && i + 2 <= s@.len(),
            None => first_sep(s@, 0) == -1,
        },
{
    let n = s.len();
    let mut i: usize = 0;
    while i < n && i + 1 < n
        invariant
            i <= n,
            n == s@.len(),
            first_sep(s@, 0) == first_sep(s@, i as int),
        decreases n - i,
    {
        if s[i] == 58 && s[i + 1] == 32 {
            return Some(i);
        }
        i = i + 1;
    }
    proof {
        assert(first_sep(s@, i as int) == -1);
    }
    None
}

/// Compares a normalized name against `content-length` (or
/// `content-type`).
fn is_name(v: &Vec<u8>, length: bool) -> (r: bool)
    ensures
        length ==> r == (v@ == content_length_name()),
        !length ==> r == (v@ == content_type_name()),
{
    let prefix_ok = v.len() >= 8 && v[0] == 99 && v[1] == 111 && v[2] == 110 && v[3] == 116
        && v[4] == 101 && v[5] == 110 && v[6] == 116 && v[7] == 45;
    if length {
        let r = prefix_ok && v.len() == 14 && v[8] == 108 && v[9] == 101 && v[10] == 110 && v[11]
            == 103 && v[12] == 116 && v[13] == 104;
        proof {
            if r {
                assert(v@ =~= content_length_name());
            }
            if v@ == content_length_name() {
                assert(v@.len() == 14);
            }
        }
        r
    } else {
        let r = prefix_ok && v.len() == 12 && v[8] == 116 && v[9] == 121 && v[10] == 112 && v[11]
            == 101;
        proof {
            if r {
                assert(v@ =~= content_type_name());
            }
            if v@ == content_type_name() {
                assert(v@.len() == 12);
            }
        }
        r
    }
}

} // verus!
