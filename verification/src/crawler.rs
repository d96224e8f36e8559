//! Candidate identifiers and their classification.
//!
//! The crawler side of the pipeline: a tokenizer that proposes candidate
//! identifiers from a document's text, a keyword filter deciding which
//! candidates are worth a `textDocument/definition` query, and the
//! classification of a server's answer into a definition or a reference
//! event.

use vstd::prelude::*;
use vstd::string::StrSliceExecFns;

use crate::protocol::{Position, Range as LsifRange};
use crate::uris::{file_uri, is_absolute_path, uri_of};

verus! {

/// An identifier occurrence whose resolved definition is itself.
#[derive(Debug, Clone)]
pub struct Definition {
    pub location: Location,
    pub node_name: String,
    pub comment: Option<String>,
}

/// An identifier occurrence whose resolved definition lies elsewhere.
#[derive(Debug, Clone)]
pub struct Reference {
    pub location: Location,
    pub node_name: String,
    pub def: Definition,
}

/// A file URI together with a range: the global address of one syntactic
/// occurrence.
#[derive(Debug, Clone)]
pub struct Location {
    pub file_path: String,
    pub range: Range,
}

/// A range of text. Two ranges in one file sharing a start are treated as
/// the same slot by the per-file deduplication, whatever their ends.
#[derive(Debug, Clone, Copy)]
pub struct Range {
    lsp_range: LsifRange,
}

impl View for Range {
    type V = LsifRange;

    closed spec fn view(&self) -> LsifRange {
        self.lsp_range
    }
}

impl Range {
    pub fn new(lsp_range: LsifRange) -> (r: Range)
        ensures
            r@ == lsp_range,
    {
        Range { lsp_range }
    }

    pub fn range(&self) -> (r: LsifRange)
        ensures
            r == self@,
    {
        self.lsp_range
    }
}

impl Definition {
    pub fn range(&self) -> (r: LsifRange)
        ensures
            r == self.location.range@,
    {
        self.location.range.range()
    }
}

impl Reference {
    pub fn range(&self) -> (r: LsifRange)
        ensures
            r == self.location.range@,
    {
        self.location.range.range()
    }
}

/// The suffix of `s` after its last `'/'`; the whole of `s` if it has
/// none; empty if `s` ends in `'/'`.
pub open spec fn after_last_slash(s: Seq<char>) -> Seq<char>
    decreases s.len(),
{
    if s.len() == 0 {
        s
    } else if s.last() == '/' {
        Seq::empty()
    } else {
        after_last_slash(s.drop_last()).push(s.last())
    }
}

proof fn lemma_after_last_slash(s: Seq<char>, k: int)
    requires
        0 <= k <= s.len(),
        k == 0 || s[k - 1] == '/',
        forall|j: int| k <= j < s.len() ==> s[j] != '/',
    ensures
        after_last_slash(s) == s.subrange(k, s.len() as int),
    decreases s.len(),
{
    if s.len() == 0 {
        assert(after_last_slash(s) =~= s.subrange(0, 0));
    } else if s.last() == '/' {
        assert(k == s.len());
        assert(after_last_slash(s) =~= s.subrange(k, s.len() as int));
    } else {
        assert(k < s.len());
        lemma_after_last_slash(s.drop_last(), k);
        assert(s.drop_last().subrange(k, s.len() - 1) =~= s.subrange(k, s.len() - 1));
        assert(s.subrange(k, s.len() - 1).push(s.last()) =~= s.subrange(k, s.len() as int));
    }
}

impl Location {
    /// The name of the file: the final component of the file path.
    pub fn file_name(&self) -> (r: String)
        ensures
            r@ == after_last_slash(self.file_path@),
    {
        let s = self.file_path.as_str();
        let n = s.unicode_len();
        let mut k: usize = n;
        loop
            invariant
                k <= n,
                n == s@.len(),
                forall|j: int| k <= j < n ==> s@[j] != '/',
            ensures
                k == 0 || s@[k - 1] == '/',
            decreases k,
        {
            if k == 0 {
                break;
            }
            if s.get_char(k - 1) == '/' {
                break;
            }
            k = k - 1;
        }
        proof {
            lemma_after_last_slash(s@, k as int);
        }
        s.substring_char(k, n).to_owned()
    }
}

/// The index of the last `'.'` in a name, or -1 if it has none.
pub open spec fn last_dot(name: Seq<char>) -> int
    decreases name.len(),
{
    if name.len() == 0 {
        -1
    } else if name.last() == '.' {
        name.len() - 1
    } else {
        last_dot(name.drop_last())
    }
}

proof fn lemma_last_dot_at(name: Seq<char>, ld: int)
    requires
        0 <= ld < name.len(),
        name[ld] == '.',
        forall|j: int| ld < j < name.len() ==> name[j] != '.',
    ensures
        last_dot(name) == ld,
    decreases name.len(),
{
    if name.last() != '.' {
        assert(ld < name.len() - 1);
        lemma_last_dot_at(name.drop_last(), ld);
    }
}

proof fn lemma_last_dot_none(name: Seq<char>)
    requires
        forall|j: int| 0 <= j < name.len() ==> name[j] != '.',
    ensures
        last_dot(name) == -1,
    decreases name.len(),
{
    if name.len() > 0 {
        lemma_last_dot_none(name.drop_last());
    }
}

/// A path's final component carries the extension `ext`: the component
/// has a `'.'` past its first character, and what follows the last one
/// reads exactly like `ext`.
pub open spec fn path_has_extension(path: Seq<char>, ext: Seq<char>) -> bool {
    let name = after_last_slash(path);
    let d = last_dot(name);
    d > 0 && name.subrange(d + 1, name.len() as int) == ext
}

/// Whether the file at `path` has the extension `target_ext`.
pub fn has_extension(path: &str, target_ext: &str) -> (r: bool)
    ensures
        r == path_has_extension(path@, target_ext@),
{
    let s = path;
    let n = s.unicode_len();
    let mut k: usize = n;
    loop
        invariant
            k <= n,
            n == s@.len(),
            forall|j: int| k <= j < n ==> s@[j] != '/',
        ensures
            k == 0 || s@[k - 1] == '/',
        decreases k,
    {
        if k == 0 {
            break ;
        }
        if s.get_char(k - 1) == '/' {
            break ;
        }
        k = k - 1;
    }
    proof {
        lemma_after_last_slash(s@, k as int);
    }
    let ghost name = after_last_slash(s@);
    let mut d: usize = n;
    loop
        invariant
            k <= d <= n,
            n == s@.len(),
            forall|j: int| d <= j < n ==> s@[j] != '.',
        ensures
            k <= d <= n,
            d == k || s@[d - 1] == '.',
            forall|j: int| d <= j < n ==> s@[j] != '.',
        decreases d,
    {
        if d == k {
            break ;
        }
        if s.get_char(d - 1) == '.' {
            break ;
        }
        d = d - 1;
    }
    proof {
        assert(name =~= s@.subrange(k as int, n as int));
        if d == k {
            assert forall|j: int| 0 <= j < name.len() implies name[j] != '.' by {
                assert(name[j] == s@[k + j]);
            }
            lemma_last_dot_none(name);
        } else {
            assert(name[d - 1 - k as int] == s@[d - 1]);
            assert forall|j: int| d - 1 - k < j < name.len() implies name[j] != '.' by {
                assert(name[j] == s@[k + j]);
            }
            lemma_last_dot_at(name, d - 1 - k as int);
        }
    }
    if d == k {
        // no dot at all: no extension
        return false;
    }
    if d - 1 == k {
        // the dot opens the name: no extension
        return false;
    }
    let ext = s.substring_char(d, n).to_owned();
    let r = ext.eq(&target_ext.to_owned());
    proof {
        assert(name.subrange(last_dot(name) + 1, name.len() as int) =~= s@.subrange(
            d as int,
            n as int,
        ));
    }
    r
}

/// Whether the file at `path` carries one of the configured extensions.
pub fn matches_extensions(path: &str, extensions: &Vec<String>) -> (r: bool)
    ensures
        r == exists|i: int|
            0 <= i < extensions@.len() && path_has_extension(path@, (#[trigger] extensions@[i])@),
{
    let mut i: usize = 0;
    while i < extensions.len()
        invariant
            i <= extensions@.len(),
            forall|j: int|
                0 <= j < i ==> !path_has_extension(path@, (#[trigger] extensions@[j])@),
        decreases extensions@.len() - i,
    {
        if has_extension(path, extensions[i].as_str()) {
            return true;
        }
        i = i + 1;
    }
    false
}

/// A character the tokenizer counts as part of a word: an ASCII letter,
/// digit, or underscore. This is the library's defined token alphabet;
/// identifiers using characters outside ASCII are not recognized as
/// tokens.
pub open spec fn is_word_char(c: char) -> bool {
    ('a' <= c && c <= 'z') || ('A' <= c && c <= 'Z') || ('0' <= c && c <= '9') || c == '_'
}

/// Where the token whose body continues at `j` ends: word characters
/// extend it, and an apostrophe followed by a word character keeps it
/// going.
pub open spec fn token_end(s: Seq<char>, j: int) -> int
    decreases s.len() - j,
{
    if j < 0 || j >= s.len() {
        j
    } else if is_word_char(s[j]) {
        token_end(s, j + 1)
    } else if s[j] == '\'' && j + 1 < s.len() && is_word_char(s[j + 1]) {
        token_end(s, j + 2)
    } else {
        j
    }
}

proof fn lemma_token_end_ge(s: Seq<char>, j: int)
    ensures
        token_end(s, j) >= j,
    decreases s.len() - j,
{
    if 0 <= j && j < s.len() {
        if is_word_char(s[j]) {
            lemma_token_end_ge(s, j + 1);
        } else if s[j] == '\'' && j + 1 < s.len() && is_word_char(s[j + 1]) {
            lemma_token_end_ge(s, j + 2);
        }
    }
}

proof fn lemma_token_end_le(s: Seq<char>, j: int)
    requires
        j <= s.len(),
    ensures
        token_end(s, j) <= s.len(),
    decreases s.len() - j,
{
    if 0 <= j && j < s.len() {
        if is_word_char(s[j]) {
            lemma_token_end_le(s, j + 1);
        } else if s[j] == '\'' && j + 1 < s.len() && is_word_char(s[j + 1]) {
            lemma_token_end_le(s, j + 2);
        }
    }
}

/// The range on line `line` from character `c0` to character `c1`.
pub open spec fn spec_range(line: int, c0: int, c1: int) -> LsifRange {
    LsifRange {
        start: Position { line: line as u64, character: c0 as u64 },
        end: Position { line: line as u64, character: c1 as u64 },
    }
}

/// The words of `s` from position `i` on, with `line` and `col` the
/// 0-based line and column of position `i`. A word starts at a word
/// character and runs to its token end; everything else is skipped, a
/// newline resetting the column and advancing the line.
pub open spec fn words_from(s: Seq<char>, i: int, line: int, col: int) -> Seq<(Seq<char>, LsifRange)>
    decreases s.len() - i,
    when i >= 0
    via words_from_dec
{
    if i >= s.len() {
        Seq::empty()
    } else if s[i] == '\n' {
        words_from(s, i + 1, line + 1, 0)
    } else if is_word_char(s[i]) {
        let e = token_end(s, i + 1);
        seq![(s.subrange(i, e), spec_range(line, col, col + (e - i)))] + words_from(
            s,
            e,
            line,
            col + (e - i),
        )
    } else {
        words_from(s, i + 1, line, col + 1)
    }
}

#[via_fn]
proof fn words_from_dec(s: Seq<char>, i: int, line: int, col: int) {
    if 0 <= i < s.len() && s[i] != '\n' && is_word_char(s[i]) {
        lemma_token_end_ge(s, i + 1);
        lemma_token_end_le(s, i + 1);
    }
}

/// Every word of `s`, with the range it occupies: what scanning each line
/// for maximal identifier tokens yields, in order.
pub open spec fn spec_words(s: Seq<char>) -> Seq<(Seq<char>, LsifRange)> {
    words_from(s, 0, 0, 0)
}

/// The executable word list agrees with the specified one.
pub open spec fn words_match(r: Seq<(String, Range)>, w: Seq<(Seq<char>, LsifRange)>) -> bool {
    &&& r.len() == w.len()
    &&& forall|i: int|
        0 <= i < r.len() ==> (#[trigger] r[i]).0@ == w[i].0 && r[i].1@ == w[i].1
}

fn word_char(c: char) -> (b: bool)
    ensures
        b == is_word_char(c),
{
    ('a' <= c && c <= 'z') || ('A' <= c && c <= 'Z') || ('0' <= c && c <= '9') || c == '_'
}

/// Scans `text` line by line and returns every identifier token together
/// with its 0-based line/character range. Column offsets count Unicode
/// scalar values from the start of the line; for ASCII text this equals
/// the byte offset, and since tokens hold only ASCII characters, it is
/// the one encoding the library uses throughout.
pub fn get_words(text: String) -> (r: Vec<(String, Range)>)
    ensures
        words_match(r@, spec_words(text@)),
{
    let s = text.as_str();
    let n = s.unicode_len();
    let mut res: Vec<(String, Range)> = Vec::new();
    let mut i: usize = 0;
    let mut line: u64 = 0;
    let mut col: u64 = 0;
    let ghost mut done: Seq<(Seq<char>, LsifRange)> = Seq::empty();
    proof {
        assert(Seq::<(Seq<char>, LsifRange)>::empty() + spec_words(s@) =~= spec_words(s@));
    }
    while i < n
        invariant
            i <= n,
            n == s@.len(),
            line <= i,
            col <= i,
            words_match(res@, done),
            spec_words(s@) == done + words_from(s@, i as int, line as int, col as int),
        decreases n - i,
    {
        let c = s.get_char(i);
        if c == '\n' {
            i = i + 1;
            line = line + 1;
            col = 0;
        } else if word_char(c) {
            let mut e: usize = i + 1;
            loop
                invariant
                    i + 1 <= e <= n,
                    n == s@.len(),
                    token_end(s@, i + 1) == token_end(s@, e as int),
                ensures
                    i + 1 <= e <= n,
                    token_end(s@, i + 1) == e as int,
                decreases n - e,
            {
                if e >= n {
                    break;
                }
                let d = s.get_char(e);
                if word_char(d) {
                    e = e + 1;
                } else if d == '\'' && e + 1 < n && word_char(s.get_char(e + 1)) {
                    e = e + 2;
                } else {
                    break;
                }
            }
            assert(token_end(s@, i + 1) == e as int);
            let w = s.substring_char(i, e).to_owned();
            let c1 = col + (e - i) as u64;
            let rng = LsifRange {
                start: Position { line, character: col },
                end: Position { line, character: c1 },
            };
            res.push((w, Range { lsp_range: rng }));
            proof {
                assert(rng == spec_range(line as int, col as int, col as int + (e - i)));
                let tok = (s@.subrange(i as int, e as int), rng);
                let rest = words_from(s@, e as int, line as int, col as int + (e - i));
                assert(words_from(s@, i as int, line as int, col as int) == seq![tok] + rest);
                assert(done + (seq![tok] + rest) =~= done.push(tok) + rest);
                done = done.push(tok);
            }
            col = c1;
            i = e;
        } else {
            i = i + 1;
            col = col + 1;
        }
    }
    assert(words_from(s@, i as int, line as int, col as int) =~= Seq::empty());
    assert(done + Seq::<(Seq<char>, LsifRange)>::empty() =~= done);
    res
}

/// True if one of the configured keywords reads exactly like `w`.
pub open spec fn is_keyword_in(ks: Seq<String>, w: Seq<char>) -> bool {
    exists|i: int| 0 <= i < ks.len() && ks[i]@ == w
}

fn is_keyword(w: &String, ks: &Vec<String>) -> (b: bool)
    ensures
        b == is_keyword_in(ks@, w@),
{
    let mut i: usize = 0;
    while i < ks.len()
        invariant
            i <= ks@.len(),
            forall|j: int| 0 <= j < i ==> ks@[j]@ != w@,
        decreases ks@.len() - i,
    {
        if ks[i].eq(w) {
            return true;
        }
        i = i + 1;
    }
    false
}

/// The words left after dropping every keyword, in order.
pub open spec fn filtered_words(ws: Seq<(Seq<char>, LsifRange)>, ks: Seq<String>) -> Seq<
    (Seq<char>, LsifRange),
>
    decreases ws.len(),
{
    if ws.len() == 0 {
        Seq::empty()
    } else {
        let rest = filtered_words(ws.drop_first(), ks);
        if is_keyword_in(ks, ws[0].0) {
            rest
        } else {
            seq![ws[0]] + rest
        }
    }
}

proof fn lemma_filtered_words_no_keyword(ws: Seq<(Seq<char>, LsifRange)>, ks: Seq<String>)
    ensures
        forall|i: int|
            0 <= i < filtered_words(ws, ks).len() ==> !is_keyword_in(
                ks,
                (#[trigger] filtered_words(ws, ks)[i]).0,
            ),
    decreases ws.len(),
{
    if ws.len() > 0 {
        lemma_filtered_words_no_keyword(ws.drop_first(), ks);
        let rest = filtered_words(ws.drop_first(), ks);
        if !is_keyword_in(ks, ws[0].0) {
            let whole = seq![ws[0]] + rest;
            assert(filtered_words(ws, ks) == whole);
            assert forall|i: int|
                0 <= i < whole.len() implies !is_keyword_in(ks, (#[trigger] whole[i]).0) by {
                if i == 0 {
                    assert(whole[i] == ws[0]);
                } else {
                    assert(whole[i] == rest[i - 1]);
                }
            }
        }
    }
}

/// The tokens of `text` that are worth a definition query: every word the
/// tokenizer finds except those on the keyword list. No keyword is ever
/// queried.
pub fn query_plan(text: String, keywords: &Vec<String>) -> (r: Vec<(String, Range)>)
    ensures
        words_match(r@, filtered_words(spec_words(text@), keywords@)),
        forall|i: int| 0 <= i < r@.len() ==> !is_keyword_in(keywords@, (#[trigger] r@[i]).0@),
{
    let ghost all = spec_words(text@);
    let mut ws = get_words(text);
    let mut r: Vec<(String, Range)> = Vec::new();
    let ghost mut rem = all;
    let ghost mut done: Seq<(Seq<char>, LsifRange)> = Seq::empty();
    proof {
        assert(done + filtered_words(rem, keywords@) =~= filtered_words(all, keywords@));
    }
    while ws.len() > 0
        invariant
            words_match(ws@, rem),
            words_match(r@, done),
            filtered_words(all, keywords@) == done + filtered_words(rem, keywords@),
            forall|i: int| 0 <= i < r@.len() ==> !is_keyword_in(keywords@, (#[trigger] r@[i]).0@),
        decreases ws@.len(),
    {
        let ghost rem0 = rem;
        let w = ws.remove(0);
        proof {
            assert(w.0@ == rem0[0].0 && w.1@ == rem0[0].1);
        }
        let keep = !is_keyword(&w.0, keywords);
        proof {
            let rest = rem.drop_first();
            assert(filtered_words(rem, keywords@) == if is_keyword_in(keywords@, rem[0].0) {
                filtered_words(rest, keywords@)
            } else {
                seq![rem[0]] + filtered_words(rest, keywords@)
            });
            if !is_keyword_in(keywords@, rem[0].0) {
                assert((done + (seq![rem[0]] + filtered_words(rest, keywords@))) =~= (done.push(
                    rem[0],
                ) + filtered_words(rest, keywords@)));
                done = done.push(rem[0]);
            }
            rem = rest;
        }
        if keep {
            r.push(w);
        }
        proof {
            assert(forall|j: int|
                0 <= j < ws@.len() ==> (#[trigger] ws@[j]).0@ == rem[j].0 && ws@[j].1@ == rem[j].1);
        }
    }
    proof {
        assert(filtered_words(rem, keywords@) =~= Seq::empty());
        assert(done + Seq::<(Seq<char>, LsifRange)>::empty() =~= done);
    }
    r
}

/// A resolved location as the server reports it.
#[derive(Debug, Clone)]
pub struct LspLocation {
    pub uri: String,
    pub range: LsifRange,
}

/// The shapes a `textDocument/definition` answer can take: one location,
/// an array of locations, or location links (which this indexer treats as
/// no answer).
#[derive(Debug)]
pub enum GotoResponse {
    Scalar(LspLocation),
    Array(Vec<LspLocation>),
    Link,
}

/// A classified occurrence, ready for the indexer.
#[derive(Debug)]
pub enum CrawlEvent {
    Def(Definition),
    Ref(Reference),
}

/// The location a response resolves to: the scalar one, or the first of an
/// array; none for an empty array or a link answer.
pub open spec fn first_location(resp: GotoResponse) -> Option<(Seq<char>, LsifRange)> {
    match resp {
        GotoResponse::Scalar(l) => Some((l.uri@, l.range)),
        GotoResponse::Array(v) => if v@.len() == 0 {
            None
        } else {
            Some((v@[0].uri@, v@[0].range))
        },
        GotoResponse::Link => None,
    }
}

/// The resolved location names the queried occurrence itself: same file
/// URI and same start position.
pub open spec fn resolves_to_self(
    file_uri: Seq<char>,
    start: Position,
    def_uri: Seq<char>,
    def_range: LsifRange,
) -> bool {
    def_range.start == start && def_uri == file_uri
}

/// Classifies a server answer for the token `word` at `range` of the file
/// at absolute path `path`. An answer resolving to the token itself is a
/// definition; one resolving elsewhere is a reference carrying a
/// synthesized definition; an empty or link answer is dropped.
pub fn classify(path: &str, word: String, range: LsifRange, resp: GotoResponse) -> (r: Option<
    CrawlEvent,
>)
    requires
        is_absolute_path(path@),
    ensures
        match first_location(resp) {
            None => r is None,
            Some(loc) => {
                let def_uri = loc.0;
                let def_range = loc.1;
                if resolves_to_self(uri_of(path@), range.start, def_uri, def_range) {
                    r matches Some(CrawlEvent::Def(d)) && d.location.file_path@ == def_uri
                        && d.location.range@ == range && d.node_name@ == word@ && d.comment is None
                } else {
                    r matches Some(CrawlEvent::Ref(rf)) && rf.location.file_path@ == uri_of(path@)
                        && rf.location.range@ == range && rf.node_name@ == word@
                        && rf.def.location.file_path@ == def_uri && rf.def.location.range@
                        == def_range && rf.def.node_name@ == word@ && rf.def.comment is None
                }
            },
        },
{
    let def_loc: LspLocation = match resp {
        GotoResponse::Scalar(l) => l,
        GotoResponse::Array(mut v) => {
            if v.len() == 0 {
                return None;
            }
            v.remove(0)
        },
        GotoResponse::Link => {
            return None;
        },
    };
    let my_uri = file_uri(path);
    if def_loc.range.start == range.start && my_uri.eq(&def_loc.uri) {
        Some(
            CrawlEvent::Def(
                Definition {
                    location: Location {
                        file_path: def_loc.uri,
                        range: Range { lsp_range: range },
                    },
                    node_name: word,
                    comment: None,
                },
            ),
        )
    } else {
        Some(
            CrawlEvent::Ref(
                Reference {
                    location: Location { file_path: my_uri, range: Range { lsp_range: range } },
                    node_name: word.clone(),
                    def: Definition {
                        location: Location {
                            file_path: def_loc.uri,
                            range: Range { lsp_range: def_loc.range },
                        },
                        node_name: word,
                        comment: None,
                    },
                },
            ),
        )
    }
}

} // verus!
