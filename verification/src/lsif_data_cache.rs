//! The in-memory index behind the indexer: documents, per-file range
//! deduplication, and definition info keyed by source location.
//!
//! Documents are keyed by URI, range slots by their start position (two
//! ranges in one file sharing a start are the same slot), and definition
//! records by file URI and start position. All keys are unique; each list
//! preserves insertion order.

use vstd::prelude::*;

use crate::crawler::{Definition, Location, Reference};
use crate::protocol::{Position, ID};

verus! {

/// What the cache keeps per document: its vertex identifier and the range
/// identifiers it contains, definition and reference ranges apart, in
/// insertion order.
#[derive(Debug)]
pub struct DocumentInfo {
    pub id: ID,
    pub definition_range_ids: Vec<ID>,
    pub reference_range_ids: Vec<ID>,
}

/// One deduplication slot: a range start and the identifier of the range
/// vertex emitted for it.
#[derive(Debug, Clone, Copy)]
pub struct RangeSlot {
    pub start: Position,
    pub id: ID,
}

/// A document together with its URI key and its range slots.
#[derive(Debug)]
pub struct DocumentRecord {
    pub uri: String,
    pub info: DocumentInfo,
    pub ranges: Vec<RangeSlot>,
}

/// The reference range identifiers of one definition that lie in one
/// document.
#[derive(Debug)]
pub struct RefBucket {
    pub document_id: ID,
    pub range_ids: Vec<ID>,
}

/// What the cache keeps per definition: where it was emitted and the
/// reference ranges pointing at it, bucketed by document.
#[derive(Debug)]
pub struct DefinitionInfo {
    pub document_id: ID,
    pub range_id: ID,
    pub result_set_id: ID,
    pub reference_range_ids: Vec<RefBucket>,
}

/// A definition record keyed by its location.
#[derive(Debug)]
pub struct DefRecord {
    pub location: Location,
    pub info: DefinitionInfo,
}

/// The cache itself.
pub struct LsifDataCache {
    pub documents: Vec<DocumentRecord>,
    pub def_infos: Vec<DefRecord>,
}

/// A record has a slot starting at `start`.
pub open spec fn rec_has_range(r: DocumentRecord, start: Position) -> bool {
    exists|j: int| 0 <= j < r.ranges@.len() && (#[trigger] r.ranges@[j]).start == start
}

/// The identifier of that slot.
pub open spec fn rec_range_id(r: DocumentRecord, start: Position) -> ID {
    r.ranges@[choose|j: int| 0 <= j < r.ranges@.len() && (#[trigger] r.ranges@[j]).start == start].id
}

/// The total number of reference buckets over all definition records.
pub open spec fn buckets_total(s: Seq<DefRecord>) -> int
    decreases s.len(),
{
    if s.len() == 0 {
        0
    } else {
        buckets_total(s.drop_last()) + s.last().info.reference_range_ids@.len()
    }
}

pub proof fn lemma_buckets_total_nonneg(s: Seq<DefRecord>)
    ensures
        buckets_total(s) >= 0,
    decreases s.len(),
{
    if s.len() > 0 {
        lemma_buckets_total_nonneg(s.drop_last());
    }
}

pub proof fn lemma_buckets_total_push(s: Seq<DefRecord>, r: DefRecord)
    ensures
        buckets_total(s.push(r)) == buckets_total(s) + r.info.reference_range_ids@.len(),
{
    assert(s.push(r).drop_last() =~= s);
    assert(s.push(r).last() == r);
}

pub proof fn lemma_buckets_total_update(s: Seq<DefRecord>, i: int, r: DefRecord)
    requires
        0 <= i < s.len(),
    ensures
        buckets_total(s.update(i, r)) == buckets_total(s) - s[i].info.reference_range_ids@.len()
            + r.info.reference_range_ids@.len(),
    decreases s.len(),
{
    if i == s.len() - 1 {
        assert(s.update(i, r).drop_last() =~= s.drop_last());
        assert(s.update(i, r).last() == r);
    } else {
        assert(s.update(i, r).drop_last() =~= s.drop_last().update(i, r));
        assert(s.update(i, r).last() == s.last());
        lemma_buckets_total_update(s.drop_last(), i, r);
    }
}

pub proof fn lemma_buckets_total_take_step(s: Seq<DefRecord>, i: int)
    requires
        0 <= i < s.len(),
    ensures
        buckets_total(s.take(i + 1)) == buckets_total(s.take(i))
            + s[i].info.reference_range_ids@.len(),
{
    assert(s.take(i + 1).drop_last() =~= s.take(i));
    assert(s.take(i + 1).last() == s[i]);
}

impl LsifDataCache {
    /// A document with this URI is cached.
    pub open spec fn has_document(self, uri: Seq<char>) -> bool {
        exists|i: int|
            0 <= i < self.documents@.len() && (#[trigger] self.documents@[i]).uri@ == uri
    }

    /// The position of that document's record.
    pub open spec fn doc_index(self, uri: Seq<char>) -> int {
        choose|i: int|
            0 <= i < self.documents@.len() && (#[trigger] self.documents@[i]).uri@ == uri
    }

    /// That document's record.
    pub open spec fn doc_record(self, uri: Seq<char>) -> DocumentRecord {
        self.documents@[self.doc_index(uri)]
    }

    /// That document's vertex identifier.
    pub open spec fn doc_id(self, uri: Seq<char>) -> ID {
        self.doc_record(uri).info.id
    }

    /// A range slot starting at `start` exists in the file with this URI.
    pub open spec fn has_range(self, uri: Seq<char>, start: Position) -> bool {
        self.has_document(uri) && rec_has_range(self.doc_record(uri), start)
    }

    /// The identifier of that slot.
    pub open spec fn range_id_of(self, uri: Seq<char>, start: Position) -> ID {
        rec_range_id(self.doc_record(uri), start)
    }

    /// The key a location is looked up by: file URI and start position.
    pub open spec fn matches_key(l: Location, uri: Seq<char>, start: Position) -> bool {
        l.file_path@ == uri && l.range@.start == start
    }

    /// A definition record with this key is cached.
    pub open spec fn has_def(self, uri: Seq<char>, start: Position) -> bool {
        exists|i: int|
            0 <= i < self.def_infos@.len() && Self::matches_key(
                (#[trigger] self.def_infos@[i]).location,
                uri,
                start,
            )
    }

    /// The position of that definition record.
    pub open spec fn def_index(self, uri: Seq<char>, start: Position) -> int {
        choose|i: int|
            0 <= i < self.def_infos@.len() && Self::matches_key(
                (#[trigger] self.def_infos@[i]).location,
                uri,
                start,
            )
    }

    /// That definition's cached info.
    pub open spec fn def_info_of(self, uri: Seq<char>, start: Position) -> DefinitionInfo {
        self.def_infos@[self.def_index(uri, start)].info
    }

    /// Well-formedness: all keys unique, every cached definition's
    /// location has a range slot, and within each document the
    /// definition and reference range lists are disjoint.
    pub open spec fn wf(self) -> bool {
        &&& forall|i: int, j: int|
            0 <= i < j < self.documents@.len() ==> (#[trigger] self.documents@[i]).uri@ != (
            #[trigger] self.documents@[j]).uri@
        &&& forall|i: int, j1: int, j2: int|
            (0 <= i < self.documents@.len() && 0 <= j1
                < self.documents@[i].info.definition_range_ids@.len() && 0 <= j2
                < self.documents@[i].info.reference_range_ids@.len()) ==> (
            #[trigger] self.documents@[i].info.definition_range_ids@[j1]) != (
            #[trigger] self.documents@[i].info.reference_range_ids@[j2])
        &&& forall|i: int, j1: int, j2: int|
            (0 <= i < self.documents@.len() && 0 <= j1 < j2
                < self.documents@[i].ranges@.len()) ==> (#[trigger] self.documents@[i].ranges@[j1]).start
                != (#[trigger] self.documents@[i].ranges@[j2]).start
        &&& forall|i: int, j: int|
            0 <= i < j < self.def_infos@.len() ==> !Self::matches_key(
                (#[trigger] self.def_infos@[i]).location,
                (#[trigger] self.def_infos@[j]).location.file_path@,
                self.def_infos@[j].location.range@.start,
            )
        &&& forall|i: int|
            0 <= i < self.def_infos@.len() ==> self.has_range(
                (#[trigger] self.def_infos@[i]).location.file_path@,
                self.def_infos@[i].location.range@.start,
            )
        &&& forall|i: int, j1: int, j2: int|
            (0 <= i < self.def_infos@.len() && 0 <= j1 < j2
                < self.def_infos@[i].info.reference_range_ids@.len()) ==> (
            #[trigger] self.def_infos@[i].info.reference_range_ids@[j1]).document_id != (
            #[trigger] self.def_infos@[i].info.reference_range_ids@[j2]).document_id
    }

    /// With unique URIs, a record found at `i` is the record the lookup
    /// names.
    pub proof fn lemma_doc_index_is(self, i: int)
        requires
            self.wf(),
            0 <= i < self.documents@.len(),
        ensures
            self.doc_index(self.documents@[i].uri@) == i,
            self.has_document(self.documents@[i].uri@),
    {
        let uri = self.documents@[i].uri@;
        assert(self.has_document(uri));
        let k = self.doc_index(uri);
        if k != i {
            if k < i {
                assert(self.documents@[k].uri@ != self.documents@[i].uri@);
            } else {
                assert(self.documents@[i].uri@ != self.documents@[k].uri@);
            }
        }
    }

    /// With unique starts, a slot found at `j` is the slot the lookup
    /// names.
    pub proof fn lemma_range_id_is(self, uri: Seq<char>, i: int, j: int)
        requires
            self.wf(),
            0 <= i < self.documents@.len(),
            self.documents@[i].uri@ == uri,
            0 <= j < self.documents@[i].ranges@.len(),
        ensures
            self.has_range(uri, self.documents@[i].ranges@[j].start),
            self.range_id_of(uri, self.documents@[i].ranges@[j].start)
                == self.documents@[i].ranges@[j].id,
    {
        self.lemma_doc_index_is(i);
        let rec = self.documents@[i];
        let start = rec.ranges@[j].start;
        assert(rec_has_range(rec, start));
        let j2 = choose|j2: int| 0 <= j2 < rec.ranges@.len() && (#[trigger] rec.ranges@[j2]).start == start;
        if j2 != j {
            if j2 < j {
                assert(rec.ranges@[j2].start != rec.ranges@[j].start);
            } else {
                assert(rec.ranges@[j].start != rec.ranges@[j2].start);
            }
        }
    }

    /// With unique keys, a definition record found at `i` is the record
    /// the lookup names.
    pub proof fn lemma_def_index_is(self, i: int)
        requires
            self.wf(),
            0 <= i < self.def_infos@.len(),
        ensures
            self.has_def(
                self.def_infos@[i].location.file_path@,
                self.def_infos@[i].location.range@.start,
            ),
            self.def_index(
                self.def_infos@[i].location.file_path@,
                self.def_infos@[i].location.range@.start,
            ) == i,
    {
        let uri = self.def_infos@[i].location.file_path@;
        let start = self.def_infos@[i].location.range@.start;
        assert(Self::matches_key(self.def_infos@[i].location, uri, start));
        assert(self.has_def(uri, start));
        let k = self.def_index(uri, start);
        if k != i {
            if k < i {
                assert(!Self::matches_key(
                    self.def_infos@[k].location,
                    self.def_infos@[i].location.file_path@,
                    self.def_infos@[i].location.range@.start,
                ));
            } else {
                assert(!Self::matches_key(
                    self.def_infos@[i].location,
                    self.def_infos@[k].location.file_path@,
                    self.def_infos@[k].location.range@.start,
                ));
            }
        }
    }

    pub fn new() -> (r: LsifDataCache)
        ensures
            r.wf(),
            r.documents@ == Seq::<DocumentRecord>::empty(),
            r.def_infos@ == Seq::<DefRecord>::empty(),
    {
        LsifDataCache { documents: Vec::new(), def_infos: Vec::new() }
    }

    /// The position of the document with this URI, if cached.
    fn find_document(&self, filename: &str) -> (r: Option<usize>)
        ensures
            match r {
                Some(i) => i < self.documents@.len() && self.documents@[i as int].uri@ == filename@
                    && self.has_document(filename@),
                None => !self.has_document(filename@),
            },
    {
        let target = filename.to_owned();
        let mut i: usize = 0;
        while i < self.documents.len()
            invariant
                target@ == filename@,
                i <= self.documents@.len(),
                forall|j: int| 0 <= j < i ==> (#[trigger] self.documents@[j]).uri@ != filename@,
            decreases self.documents@.len() - i,
        {
            if self.documents[i].uri.eq(&target) {
                return Some(i);
            }
            i = i + 1;
        }
        None
    }

    /// Registers a document under its URI with empty range lists. A URI
    /// already cached is left as it is.
    pub fn cache_document(&mut self, filename: String, document_id: ID)
        requires
            old(self).wf(),
        ensures
            final(self).wf(),
            final(self).def_infos@ == old(self).def_infos@,
            old(self).has_document(filename@) ==> final(self).documents@ == old(self).documents@,
            !old(self).has_document(filename@) ==> ({
                &&& final(self).documents@.len() == old(self).documents@.len() + 1
                &&& final(self).documents@.drop_last() == old(self).documents@
                &&& final(self).documents@.last().uri@ == filename@
                &&& final(self).documents@.last().info.id == document_id
                &&& final(self).documents@.last().info.definition_range_ids@ == Seq::<ID>::empty()
                &&& final(self).documents@.last().info.reference_range_ids@ == Seq::<ID>::empty()
                &&& final(self).documents@.last().ranges@ == Seq::<RangeSlot>::empty()
            }),
    {
        if self.find_document(filename.as_str()).is_some() {
            return ;
        }
        let rec = DocumentRecord {
            uri: filename,
            info: DocumentInfo {
                id: document_id,
                definition_range_ids: Vec::new(),
                reference_range_ids: Vec::new(),
            },
            ranges: Vec::new(),
        };
        self.documents.push(rec);
        proof {
            assert(self.documents@.drop_last() =~= old(self).documents@);
            assert forall|i: int|
                0 <= i < self.def_infos@.len() implies self.has_range(
                (#[trigger] self.def_infos@[i]).location.file_path@,
                self.def_infos@[i].location.range@.start,
            ) by {
                let uri = self.def_infos@[i].location.file_path@;
                let start = self.def_infos@[i].location.range@.start;
                assert(old(self).has_range(uri, start));
                let k = old(self).doc_index(uri);
                assert(self.documents@[k].uri@ == uri);
                self.lemma_doc_index_is(k);
                assert(rec_has_range(self.documents@[k], start));
            }
        }
    }

    /// The identifier of the document with this URI, if cached.
    pub fn get_document_id(&self, filename: &str) -> (r: Option<ID>)
        requires
            self.wf(),
        ensures
            match r {
                Some(id) => self.has_document(filename@) && id == self.doc_id(filename@),
                None => !self.has_document(filename@),
            },
    {
        match self.find_document(filename) {
            Some(i) => {
                proof {
                    self.lemma_doc_index_is(i as int);
                }
                Some(self.documents[i].info.id)
            },
            None => None,
        }
    }

    /// The cached info of the document with this URI.
    pub fn get_document(&self, filename: &str) -> (r: Option<&DocumentInfo>)
        requires
            self.wf(),
        ensures
            match r {
                Some(d) => self.has_document(filename@) && *d == self.doc_record(filename@).info,
                None => !self.has_document(filename@),
            },
    {
        match self.find_document(filename) {
            Some(i) => {
                proof {
                    self.lemma_doc_index_is(i as int);
                }
                Some(&self.documents[i].info)
            },
            None => None,
        }
    }

    /// Mutable access to the cached info of the document with this URI.
    /// Only the info can change through the returned reference: URI keys
    /// and range slots stay as they were.
    pub fn get_mut_document(&mut self, filename: &str) -> (r: Option<&mut DocumentInfo>)
        requires
            old(self).wf(),
        ensures
            match r {
                Some(d) => ({
                    let k = old(self).doc_index(filename@);
                    &&& old(self).has_document(filename@)
                    &&& *d == old(self).documents@[k].info
                    &&& final(self).documents@.len() == old(self).documents@.len()
                    &&& (forall|j: int|
                        0 <= j < old(self).documents@.len() && j != k
                            ==> #[trigger] final(self).documents@[j] == old(self).documents@[j])
                    &&& final(self).documents@[k].uri == old(self).documents@[k].uri
                    &&& final(self).documents@[k].ranges == old(self).documents@[k].ranges
                    &&& final(self).documents@[k].info == *final(d)
                    &&& final(self).def_infos@ == old(self).def_infos@
                }),
                None => !old(self).has_document(filename@) && *final(self) == *old(self),
            },
    {
        match self.find_document(filename) {
            Some(i) => {
                proof {
                    self.lemma_doc_index_is(i as int);
                }
                Some(&mut self.documents[i].info)
            },
            None => None,
        }
    }

    /// All cached documents, in insertion order.
    pub fn get_documents(&self) -> (r: &Vec<DocumentRecord>)
        ensures
            r@ == self.documents@,
    {
        &self.documents
    }

    /// The identifier of the range slot at `location`'s start in the
    /// file with this URI, if one was cached.
    pub fn get_range_id(&self, filename: &str, location: &crate::crawler::Range) -> (r: Option<ID>)
        requires
            self.wf(),
        ensures
            match r {
                Some(id) => self.has_range(filename@, location@.start) && id == self.range_id_of(
                    filename@,
                    location@.start,
                ),
                None => !self.has_range(filename@, location@.start),
            },
    {
        let doc = match self.find_document(filename) {
            Some(i) => i,
            None => {
                return None;
            },
        };
        proof {
            self.lemma_doc_index_is(doc as int);
        }
        let start = location.range().start;
        let rec = &self.documents[doc];
        let mut j: usize = 0;
        while j < rec.ranges.len()
            invariant
                start == location@.start,
                j <= rec.ranges@.len(),
                forall|j2: int| 0 <= j2 < j ==> (#[trigger] rec.ranges@[j2]).start != start,
                rec == self.documents@[doc as int],
                self.wf(),
                doc < self.documents@.len(),
                self.documents@[doc as int].uri@ == filename@,
            decreases rec.ranges@.len() - j,
        {
            if rec.ranges[j].start == start {
                proof {
                    assert(start == location@.start);
                    assert(self.documents@[doc as int].ranges@[j as int].start == start);
                    self.lemma_range_id_is(filename@, doc as int, j as int);
                    assert(self.has_range(filename@, location@.start));
                    assert(self.range_id_of(filename@, location@.start) == self.documents@[
                        doc as int
                    ].ranges@[j as int].id);
                }
                return Some(rec.ranges[j].id);
            }
            j = j + 1;
        }
        proof {
            self.lemma_doc_index_is(doc as int);
        }
        None
    }

    /// All cached definition records, mutably; the documents stay as they
    /// were.
    pub fn get_mut_def_infos(&mut self) -> (r: &mut Vec<DefRecord>)
        ensures
            *r == old(self).def_infos,
            final(self).def_infos == *final(r),
            final(self).documents == old(self).documents,
    {
        &mut self.def_infos
    }

    /// The position of the definition record with this key, if cached.
    fn find_def(&self, uri: &str, start: Position) -> (r: Option<usize>)
        ensures
            match r {
                Some(i) => i < self.def_infos@.len() && Self::matches_key(
                    self.def_infos@[i as int].location,
                    uri@,
                    start,
                ),
                None => !self.has_def(uri@, start),
            },
    {
        let target = uri.to_owned();
        let mut i: usize = 0;
        while i < self.def_infos.len()
            invariant
                target@ == uri@,
                i <= self.def_infos@.len(),
                forall|j: int|
                    0 <= j < i ==> !Self::matches_key(
                        (#[trigger] self.def_infos@[j]).location,
                        uri@,
                        start,
                    ),
            decreases self.def_infos@.len() - i,
        {
            let rec = &self.def_infos[i];
            if rec.location.file_path.eq(&target) && rec.location.range.range().start == start {
                return Some(i);
            }
            i = i + 1;
        }
        None
    }

    /// The cached info of the definition at this location, looked up by
    /// file URI and start position.
    pub fn get_definition_info(&self, location: &Location) -> (r: Option<&DefinitionInfo>)
        requires
            self.wf(),
        ensures
            match r {
                Some(d) => self.has_def(location.file_path@, location.range@.start) && *d
                    == self.def_info_of(location.file_path@, location.range@.start),
                None => !self.has_def(location.file_path@, location.range@.start),
            },
    {
        let start = location.range.range().start;
        match self.find_def(location.file_path.as_str(), start) {
            Some(i) => {
                proof {
                    self.lemma_def_index_is(i as int);
                }
                Some(&self.def_infos[i].info)
            },
            None => None,
        }
    }

    /// A definition info has a bucket for this document.
    pub open spec fn info_has_bucket(d: DefinitionInfo, doc: ID) -> bool {
        exists|j: int|
            0 <= j < d.reference_range_ids@.len() && (#[trigger] d.reference_range_ids@[j]).document_id
                == doc
    }

    /// The position of that bucket.
    pub open spec fn info_bucket_index(d: DefinitionInfo, doc: ID) -> int {
        choose|j: int|
            0 <= j < d.reference_range_ids@.len() && (#[trigger] d.reference_range_ids@[j]).document_id
                == doc
    }

    /// Registers a freshly emitted definition: its range slot, its place
    /// in its document's definition ranges, and a definition record with
    /// no references yet.
    pub fn cache_definition(
        &mut self,
        def: &Definition,
        document_id: ID,
        range_id: ID,
        result_set_id: ID,
    )
        requires
            old(self).wf(),
            old(self).has_document(def.location.file_path@),
            !old(self).has_range(def.location.file_path@, def.location.range@.start),
            forall|j: int|
                0 <= j < old(self).doc_record(
                    def.location.file_path@,
                ).info.reference_range_ids@.len() ==> #[trigger] old(self).doc_record(
                    def.location.file_path@,
                ).info.reference_range_ids@[j] != range_id,
        ensures
            final(self).wf(),
            ({
                let uri = def.location.file_path@;
                let start = def.location.range@.start;
                let k = old(self).doc_index(uri);
                &&& final(self).documents@.len() == old(self).documents@.len()
                &&& (forall|j: int|
                    0 <= j < old(self).documents@.len() && j != k
                        ==> #[trigger] final(self).documents@[j] == old(self).documents@[j])
                &&& final(self).documents@[k].uri == old(self).documents@[k].uri
                &&& final(self).documents@[k].info.id == old(self).documents@[k].info.id
                &&& final(self).documents@[k].info.definition_range_ids@ == old(
                    self,
                ).documents@[k].info.definition_range_ids@.push(range_id)
                &&& final(self).documents@[k].info.reference_range_ids == old(
                    self,
                ).documents@[k].info.reference_range_ids
                &&& final(self).documents@[k].ranges@ == old(self).documents@[k].ranges@.push(
                    (RangeSlot { start, id: range_id }),
                )
                &&& final(self).def_infos@.len() == old(self).def_infos@.len() + 1
                &&& final(self).def_infos@.drop_last() == old(self).def_infos@
                &&& final(self).def_infos@.last().location.file_path@ == uri
                &&& final(self).def_infos@.last().location.range@ == def.location.range@
                &&& final(self).def_infos@.last().info.document_id == document_id
                &&& final(self).def_infos@.last().info.range_id == range_id
                &&& final(self).def_infos@.last().info.result_set_id == result_set_id
                &&& final(self).def_infos@.last().info.reference_range_ids@ == Seq::<
                    RefBucket,
                >::empty()
                &&& buckets_total(final(self).def_infos@) == buckets_total(old(self).def_infos@)
                &&& final(self).has_def(uri, start)
            }),
    {
        let ghost uri = def.location.file_path@;
        let ghost start_g = def.location.range@.start;
        let i = match self.find_document(def.location.file_path.as_str()) {
            Some(i) => i,
            None => {
                return unreached();
            },
        };
        proof {
            self.lemma_doc_index_is(i as int);
        }
        let start = def.location.range.range().start;
        self.documents[i].ranges.push(RangeSlot { start, id: range_id });
        self.documents[i].info.definition_range_ids.push(range_id);
        let rec = DefRecord {
            location: Location {
                file_path: def.location.file_path.clone(),
                range: def.location.range,
            },
            info: DefinitionInfo {
                document_id,
                range_id,
                result_set_id,
                reference_range_ids: Vec::new(),
            },
        };
        self.def_infos.push(rec);
        proof {
            let prev = *old(self);
            lemma_buckets_total_push(self.def_infos@.drop_last(), self.def_infos@.last());
            assert(self.def_infos@.drop_last() =~= prev.def_infos@);
            assert(forall|j: int|
                0 <= j < prev.documents@.len() ==> (#[trigger] self.documents@[j]).uri@
                    == prev.documents@[j].uri@);
            assert(self.documents@[i as int].uri@ == uri);
            self.lemma_doc_index_is_weak(i as int);
            let last_slot = self.documents@[i as int].ranges@.len() - 1;
            assert(self.documents@[i as int].ranges@[last_slot].start == start_g);
            assert(rec_has_range(self.documents@[i as int], start_g));
            assert(self.has_range(uri, start_g));
            if prev.has_def(uri, start_g) {
                let w = choose|w: int|
                    0 <= w < prev.def_infos@.len() && Self::matches_key(
                        (#[trigger] prev.def_infos@[w]).location,
                        uri,
                        start_g,
                    );
                assert(prev.has_range(
                    prev.def_infos@[w].location.file_path@,
                    prev.def_infos@[w].location.range@.start,
                ));
                assert(false);
            }
            self.lemma_wf_after_growth(prev, i as int);
            assert(Self::matches_key(self.def_infos@.last().location, uri, start_g));
            self.lemma_def_index_is(self.def_infos@.len() - 1);
        }
    }

    /// After a mutation that keeps every document URI, keeps every range
    /// slot (allowing document `k` to gain slots at the end), and appends
    /// at most one definition record whose slot exists, well-formedness
    /// is preserved provided the new keys are fresh.
    proof fn lemma_wf_after_growth(self, prev: LsifDataCache, k: int)
        requires
            prev.wf(),
            0 <= k < prev.documents@.len(),
            self.documents@.len() == prev.documents@.len(),
            forall|j: int|
                0 <= j < prev.documents@.len() ==> (#[trigger] self.documents@[j]).uri@
                    == prev.documents@[j].uri@,
            forall|j: int|
                0 <= j < prev.documents@.len() ==> (#[trigger] self.documents@[j]).ranges@.len()
                    >= prev.documents@[j].ranges@.len(),
            forall|j: int, j2: int|
                0 <= j < prev.documents@.len() && 0 <= j2 < prev.documents@[j].ranges@.len()
                    ==> (#[trigger] self.documents@[j].ranges@[j2]) == prev.documents@[j].ranges@[j2],
            forall|j: int, j2: int|
                (0 <= j < self.documents@.len() && 0 <= j2 < self.documents@[j].ranges@.len()
                    && j2 >= prev.documents@[j].ranges@.len()) ==> !rec_has_range(
                    prev.documents@[j],
                    (#[trigger] self.documents@[j].ranges@[j2]).start,
                ),
            forall|j: int, j1: int, j2: int|
                (0 <= j < self.documents@.len() && prev.documents@[j].ranges@.len() <= j1 < j2
                    < self.documents@[j].ranges@.len()) ==> (
                #[trigger] self.documents@[j].ranges@[j1]).start != (
                #[trigger] self.documents@[j].ranges@[j2]).start,
            self.def_infos@.len() == prev.def_infos@.len() || self.def_infos@.len()
                == prev.def_infos@.len() + 1,
            forall|j: int|
                0 <= j < prev.def_infos@.len() ==> (#[trigger] self.def_infos@[j]).location
                    == prev.def_infos@[j].location && self.def_infos@[j].info.reference_range_ids@.len()
                    >= 0,
            forall|j: int|
                0 <= j < prev.def_infos@.len()
                    ==> (#[trigger] self.def_infos@[j]).info.reference_range_ids
                    == prev.def_infos@[j].info.reference_range_ids,
            self.def_infos@.len() > prev.def_infos@.len() ==> !prev.has_def(
                self.def_infos@.last().location.file_path@,
                self.def_infos@.last().location.range@.start,
            ) && self.has_range(
                self.def_infos@.last().location.file_path@,
                self.def_infos@.last().location.range@.start,
            ) && self.def_infos@.last().info.reference_range_ids@.len() == 0,
            forall|i: int, j1: int, j2: int|
                (0 <= i < self.documents@.len() && 0 <= j1
                    < self.documents@[i].info.definition_range_ids@.len() && 0 <= j2
                    < self.documents@[i].info.reference_range_ids@.len()) ==> (
                #[trigger] self.documents@[i].info.definition_range_ids@[j1]) != (
                #[trigger] self.documents@[i].info.reference_range_ids@[j2]),
        ensures
            self.wf(),
    {
        assert forall|u: int|
            0 <= u < prev.def_infos@.len() implies self.has_range(
            (#[trigger] self.def_infos@[u]).location.file_path@,
            self.def_infos@[u].location.range@.start,
        ) by {
            let uri = prev.def_infos@[u].location.file_path@;
            let start = prev.def_infos@[u].location.range@.start;
            assert(prev.has_range(uri, start));
            let w = prev.doc_index(uri);
            assert(prev.documents@[w].uri@ == uri);
            assert(self.documents@[w].uri@ == uri);
            self.lemma_doc_index_is_weak(w);
            let j2 = choose|j2: int|
                0 <= j2 < prev.documents@[w].ranges@.len() && (#[trigger] prev.documents@[w].ranges@[j2]).start
                    == start;
            assert(self.documents@[w].ranges@[j2].start == start);
            assert(rec_has_range(self.documents@[w], start));
        }
    }

    /// Like `lemma_doc_index_is`, but needing only unique URIs.
    proof fn lemma_doc_index_is_weak(self, i: int)
        requires
            0 <= i < self.documents@.len(),
            forall|i1: int, j1: int|
                0 <= i1 < j1 < self.documents@.len() ==> (#[trigger] self.documents@[i1]).uri@
                    != (#[trigger] self.documents@[j1]).uri@,
        ensures
            self.doc_index(self.documents@[i].uri@) == i,
            self.has_document(self.documents@[i].uri@),
    {
        let uri = self.documents@[i].uri@;
        assert(self.has_document(uri));
        let k = self.doc_index(uri);
        if k != i {
            if k < i {
                assert(self.documents@[k].uri@ != self.documents@[i].uri@);
            } else {
                assert(self.documents@[i].uri@ != self.documents@[k].uri@);
            }
        }
    }

    /// Registers a freshly emitted reference range slot in its document.
    pub fn cache_reference_range(&mut self, r: &Reference, range_id: ID)
        requires
            old(self).wf(),
            old(self).has_document(r.location.file_path@) ==> !old(self).has_range(
                r.location.file_path@,
                r.location.range@.start,
            ),
        ensures
            final(self).wf(),
            final(self).def_infos@ == old(self).def_infos@,
            !old(self).has_document(r.location.file_path@) ==> final(self).documents@ == old(
                self,
            ).documents@,
            old(self).has_document(r.location.file_path@) ==> ({
                let uri = r.location.file_path@;
                let start = r.location.range@.start;
                let k = old(self).doc_index(uri);
                &&& final(self).documents@.len() == old(self).documents@.len()
                &&& (forall|j: int|
                    0 <= j < old(self).documents@.len() && j != k
                        ==> #[trigger] final(self).documents@[j] == old(self).documents@[j])
                &&& final(self).documents@[k].uri == old(self).documents@[k].uri
                &&& final(self).documents@[k].info == old(self).documents@[k].info
                &&& final(self).documents@[k].ranges@ == old(self).documents@[k].ranges@.push(
                    (RangeSlot { start, id: range_id }),
                )
                &&& final(self).has_range(uri, start)
                &&& final(self).range_id_of(uri, start) == range_id
            }),
    {
        let ghost uri = r.location.file_path@;
        let ghost start_g = r.location.range@.start;
        let i = match self.find_document(r.location.file_path.as_str()) {
            Some(i) => i,
            None => {
                // A file that was never cached: a silent no-op.
                return ;
            },
        };
        proof {
            self.lemma_doc_index_is(i as int);
        }
        let start = r.location.range.range().start;
        self.documents[i].ranges.push(RangeSlot { start, id: range_id });
        proof {
            self.lemma_wf_after_growth(*old(self), i as int);
            self.lemma_range_id_is(uri, i as int, self.documents@[i as int].ranges@.len() - 1);
        }
    }

    /// The position of the bucket for this document, if present.
    fn find_bucket(buckets: &Vec<RefBucket>, doc_id: ID) -> (r: Option<usize>)
        ensures
            match r {
                Some(j) => j < buckets@.len() && buckets@[j as int].document_id == doc_id,
                None => forall|j: int|
                    0 <= j < buckets@.len() ==> (#[trigger] buckets@[j]).document_id != doc_id,
            },
    {
        let mut j: usize = 0;
        while j < buckets.len()
            invariant
                j <= buckets@.len(),
                forall|j2: int|
                    0 <= j2 < j ==> (#[trigger] buckets@[j2]).document_id != doc_id,
            decreases buckets@.len() - j,
        {
            if buckets[j].document_id == doc_id {
                return Some(j);
            }
            j = j + 1;
        }
        None
    }

    /// Records one reference to a cached definition: the reference range
    /// joins the definition's bucket for the reference's document and the
    /// reference document's own list.
    pub fn cache_reference(&mut self, def: &Definition, r: &Reference, range_id: ID)
        requires
            old(self).wf(),
            old(self).has_def(def.location.file_path@, def.location.range@.start),
            old(self).has_document(r.location.file_path@),
            forall|j: int|
                0 <= j < old(self).doc_record(
                    r.location.file_path@,
                ).info.definition_range_ids@.len() ==> #[trigger] old(self).doc_record(
                    r.location.file_path@,
                ).info.definition_range_ids@[j] != range_id,
        ensures
            final(self).wf(),
            ({
                let uri = r.location.file_path@;
                let k = old(self).doc_index(uri);
                let doc_id = old(self).doc_id(uri);
                let di = old(self).def_index(def.location.file_path@, def.location.range@.start);
                let old_info = old(self).def_infos@[di].info;
                let new_info = final(self).def_infos@[di].info;
                &&& final(self).documents@.len() == old(self).documents@.len()
                &&& (forall|j: int|
                    0 <= j < old(self).documents@.len() && j != k
                        ==> #[trigger] final(self).documents@[j] == old(self).documents@[j])
                &&& final(self).documents@[k].uri == old(self).documents@[k].uri
                &&& final(self).documents@[k].ranges == old(self).documents@[k].ranges
                &&& final(self).documents@[k].info.id == old(self).documents@[k].info.id
                &&& final(self).documents@[k].info.definition_range_ids == old(
                    self,
                ).documents@[k].info.definition_range_ids
                &&& final(self).documents@[k].info.reference_range_ids@ == old(
                    self,
                ).documents@[k].info.reference_range_ids@.push(range_id)
                &&& final(self).def_infos@.len() == old(self).def_infos@.len()
                &&& (forall|j: int|
                    0 <= j < old(self).def_infos@.len() && j != di
                        ==> #[trigger] final(self).def_infos@[j] == old(self).def_infos@[j])
                &&& final(self).def_infos@[di].location == old(self).def_infos@[di].location
                &&& new_info.document_id == old_info.document_id
                &&& new_info.range_id == old_info.range_id
                &&& new_info.result_set_id == old_info.result_set_id
                &&& (if Self::info_has_bucket(old_info, doc_id) {
                    let b = Self::info_bucket_index(old_info, doc_id);
                    &&& new_info.reference_range_ids@.len()
                        == old_info.reference_range_ids@.len()
                    &&& (forall|j: int|
                        0 <= j < old_info.reference_range_ids@.len() && j != b
                            ==> #[trigger] new_info.reference_range_ids@[j]
                            == old_info.reference_range_ids@[j])
                    &&& new_info.reference_range_ids@[b].document_id
                        == old_info.reference_range_ids@[b].document_id
                    &&& new_info.reference_range_ids@[b].range_ids@
                        == old_info.reference_range_ids@[b].range_ids@.push(range_id)
                } else {
                    &&& new_info.reference_range_ids@.len() == old_info.reference_range_ids@.len()
                        + 1
                    &&& new_info.reference_range_ids@.drop_last()
                        == old_info.reference_range_ids@
                    &&& new_info.reference_range_ids@.last().document_id == doc_id
                    &&& new_info.reference_range_ids@.last().range_ids@ == seq![range_id]
                })
                &&& buckets_total(final(self).def_infos@) <= buckets_total(old(self).def_infos@)
                    + 1
            }),
    {
        let doc_id = match self.get_document_id(r.location.file_path.as_str()) {
            Some(id) => id,
            None => {
                return unreached();
            },
        };
        let start = def.location.range.range().start;
        let di = match self.find_def(def.location.file_path.as_str(), start) {
            Some(i) => i,
            None => {
                return unreached();
            },
        };
        proof {
            self.lemma_def_index_is(di as int);
        }
        let ghost before = *self;
        match Self::find_bucket(&self.def_infos[di].info.reference_range_ids, doc_id) {
            Some(b) => {
                proof {
                    assert(Self::info_has_bucket(before.def_infos@[di as int].info, doc_id));
                    let b2 = Self::info_bucket_index(before.def_infos@[di as int].info, doc_id);
                    if b2 != b as int {
                        if b2 < b as int {
                            assert(before.def_infos@[di as int].info.reference_range_ids@[b2].document_id
                                != before.def_infos@[di as int].info.reference_range_ids@[b as int].document_id);
                        } else {
                            assert(before.def_infos@[di as int].info.reference_range_ids@[b as int].document_id
                                != before.def_infos@[di as int].info.reference_range_ids@[b2].document_id);
                        }
                    }
                }
                self.def_infos[di].info.reference_range_ids[b].range_ids.push(range_id);
            },
            None => {
                let mut ids: Vec<ID> = Vec::new();
                ids.push(range_id);
                self.def_infos[di].info.reference_range_ids.push(
                    RefBucket { document_id: doc_id, range_ids: ids },
                );
                proof {
                    assert(self.def_infos@[di as int].info.reference_range_ids@.drop_last()
                        =~= before.def_infos@[di as int].info.reference_range_ids@);
                }
            },
        }
        proof {
            let updated = self.def_infos@[di as int];
            assert(self.def_infos@ =~= before.def_infos@.update(di as int, updated));
            lemma_buckets_total_update(before.def_infos@, di as int, updated);
        }
        let k = match self.find_document(r.location.file_path.as_str()) {
            Some(i) => i,
            None => {
                return unreached();
            },
        };
        proof {
            self.lemma_doc_index_is_weak(k as int);
            assert(old(self).doc_index(r.location.file_path@) == k as int) by {
                old(self).lemma_doc_index_is(k as int);
            }
        }
        self.documents[k].info.reference_range_ids.push(range_id);
        proof {
            self.lemma_wf_after_reference(*old(self), k as int, di as int);
        }
    }

    /// Well-formedness is preserved by a mutation that keeps every URI,
    /// every range slot, every definition location, and every bucket
    /// document identifier, allowing one definition to gain one fresh
    /// bucket at the end.
    proof fn lemma_wf_after_reference(self, prev: LsifDataCache, k: int, di: int)
        requires
            prev.wf(),
            0 <= k < prev.documents@.len(),
            0 <= di < prev.def_infos@.len(),
            self.documents@.len() == prev.documents@.len(),
            forall|j: int|
                0 <= j < prev.documents@.len() ==> (#[trigger] self.documents@[j]).uri@
                    == prev.documents@[j].uri@,
            forall|j: int|
                0 <= j < prev.documents@.len() ==> (#[trigger] self.documents@[j]).ranges
                    == prev.documents@[j].ranges,
            self.def_infos@.len() == prev.def_infos@.len(),
            forall|j: int|
                0 <= j < prev.def_infos@.len() ==> (#[trigger] self.def_infos@[j]).location
                    == prev.def_infos@[j].location,
            forall|j: int|
                0 <= j < prev.def_infos@.len() && j != di ==> (#[trigger] self.def_infos@[j]).info.reference_range_ids
                    == prev.def_infos@[j].info.reference_range_ids,
            ({
                let pb = prev.def_infos@[di].info.reference_range_ids@;
                let nb = self.def_infos@[di].info.reference_range_ids@;
                &&& (nb.len() == pb.len() || nb.len() == pb.len() + 1)
                &&& (forall|j: int|
                    0 <= j < pb.len() ==> (#[trigger] nb[j]).document_id == pb[j].document_id)
                &&& (nb.len() == pb.len() + 1 ==> forall|j: int|
                    0 <= j < pb.len() ==> (#[trigger] pb[j]).document_id != nb[pb.len() as int].document_id)
            }),
            forall|i: int, j1: int, j2: int|
                (0 <= i < self.documents@.len() && 0 <= j1
                    < self.documents@[i].info.definition_range_ids@.len() && 0 <= j2
                    < self.documents@[i].info.reference_range_ids@.len()) ==> (
                #[trigger] self.documents@[i].info.definition_range_ids@[j1]) != (
                #[trigger] self.documents@[i].info.reference_range_ids@[j2]),
        ensures
            self.wf(),
    {
        assert forall|u: int|
            0 <= u < self.def_infos@.len() implies self.has_range(
            (#[trigger] self.def_infos@[u]).location.file_path@,
            self.def_infos@[u].location.range@.start,
        ) by {
            let uri = prev.def_infos@[u].location.file_path@;
            let start = prev.def_infos@[u].location.range@.start;
            assert(prev.has_range(uri, start));
            let w = prev.doc_index(uri);
            assert(prev.documents@[w].uri@ == uri);
            assert(self.documents@[w].uri@ == uri);
            self.lemma_doc_index_is_weak(w);
            assert(rec_has_range(prev.documents@[w], start));
            let j2 = choose|j2: int|
                0 <= j2 < prev.documents@[w].ranges@.len() && (#[trigger] prev.documents@[w].ranges@[j2]).start
                    == start;
            assert(self.documents@[w].ranges@[j2].start == start);
            assert(rec_has_range(self.documents@[w], start));
        }
    }
}

} // verus!
