//! The dedup/resume controller and the batch writer: identifiers are
//! assigned in corpus order, rows whose identifier is already stored are
//! skipped, and new rows are normalized, encoded and committed in atomic
//! batches.
use crate::codec::encodable;
use crate::codec::spec_enc_case;
use crate::codec::encode_case;
use crate::normalize::clean_field;
use crate::normalize::cleaned_of;
use crate::normalize::doc_ref_of;
use crate::normalize::doc_ref_suffix;
use crate::normalize::paragraphs_of;
use crate::normalize::wrap_paragraphs;
use crate::store::entries_sorted;
use crate::store::keys_disjoint;
use crate::store::lemma_map_of_contains;
use crate::store::map_of;
use crate::store::Store;
use crate::Case;
use crate::CaseView;
use vstd::prelude::*;

verus! {

/// Why an ingestion run aborts; every variant is fatal for the run.
#[derive(Debug, PartialEq, Eq, Structural)]
pub enum IngestError {
    /// A record field does not fit the binary format's length prefix.
    RecordTooLarge,
    /// The document store refused the batch; nothing of it was committed.
    CommitFailed,
    /// An archive could not be read.
    BadArchive,
    /// A tabular entry could not be decoded.
    BadTable,
    /// The corpus has more rows than the identifier space.
    TooManyRows,
}

/// What became of one offered row.
#[derive(Debug, PartialEq, Eq, Structural)]
pub enum RowOutcome {
    /// The identifier already existed in the store: dedup skipped the row.
    Skipped,
    /// The row was normalized and buffered for a later commit.
    Buffered,
    /// The row filled the buffer and the whole batch was committed.
    Committed,
}

/// The record-level normalization applied once at ingestion time: the
/// source link keeps only its trailing reference, the parties field is
/// trimmed with separators widened, and the full text becomes paragraph
/// markup.
pub open spec fn normalized_of(cv: CaseView) -> CaseView {
    CaseView {
        doc_id: doc_ref_of(cv.doc_id),
        case_id: cv.case_id,
        case_name: cv.case_name,
        court: cv.court,
        region: cv.region,
        case_type: cv.case_type,
        procedure: cv.procedure,
        judgment_date: cv.judgment_date,
        public_date: cv.public_date,
        parties: cleaned_of(cv.parties),
        cause: cv.cause,
        legal_basis: cv.legal_basis,
        full_text: paragraphs_of(cv.full_text),
    }
}

/// Applies the record-level normalization.
pub fn normalize_case(c: &Case) -> (n: Case)
    ensures
        n@ == normalized_of(c@),
{
    Case {
        doc_id: doc_ref_suffix(c.doc_id.as_str()),
        case_id: c.case_id.clone(),
        case_name: c.case_name.clone(),
        court: c.court.clone(),
        region: c.region.clone(),
        case_type: c.case_type.clone(),
        procedure: c.procedure.clone(),
        judgment_date: c.judgment_date.clone(),
        public_date: c.public_date.clone(),
        parties: clean_field(c.parties.as_str()),
        cause: c.cause.clone(),
        legal_basis: c.legal_basis.clone(),
        full_text: wrap_paragraphs(c.full_text.as_str()),
    }
}

/// One row of the ingestion model: a present identifier is left alone, an
/// absent one gains the normalized record's encoding.
pub open spec fn ingest_step(m: Map<u32, Seq<u8>>, id: u32, cv: CaseView) -> Map<u32, Seq<u8>> {
    if m.contains_key(id) {
        m
    } else {
        m.insert(id, spec_enc_case(normalized_of(cv)))
    }
}

/// The whole-run model: row `i` is offered under identifier `first + i`.
pub open spec fn ingest_fold(m: Map<u32, Seq<u8>>, rows: Seq<CaseView>, first: int) -> Map<
    u32,
    Seq<u8>,
>
    decreases rows.len(),
{
    if rows.len() == 0 {
        m
    } else {
        ingest_fold(ingest_step(m, first as u32, rows[0]), rows.drop_first(), first + 1)
    }
}

/// How many rows of the run the dedup check skips.
pub open spec fn skip_count(m: Map<u32, Seq<u8>>, rows: Seq<CaseView>, first: int) -> int
    decreases rows.len(),
{
    if rows.len() == 0 {
        0
    } else {
        (if m.contains_key(first as u32) {
            1int
        } else {
            0int
        }) + skip_count(ingest_step(m, first as u32, rows[0]), rows.drop_first(), first + 1)
    }
}

/// The identifier assigned to the row at corpus position `i` when the
/// first row of the run is numbered `first`.
pub open spec fn row_identifier(first: int, i: int) -> int {
    first + i
}

/// Order invariant: of two rows in corpus order, the earlier one always
/// receives the strictly smaller identifier.
pub proof fn lemma_identifier_order(first: int, i: int, j: int)
    requires
        i < j,
    ensures
        row_identifier(first, i) < row_identifier(first, j),
{
}

/// Counts of one ingestion run.
#[derive(Debug, PartialEq, Eq, Structural)]
pub struct IngestStats {
    /// Rows encountered, which is also how far the identifier counter moved.
    pub rows: u32,
    /// Rows skipped because their identifier was already stored.
    pub skipped: u32,
    /// Rows newly stored.
    pub stored: u32,
}

/// The dedup/resume controller and batch writer of one ingestion run.
pub struct Ingestor {
    counter: u32,
    buffer: Vec<(u32, Vec<u8>)>,
    batch_size: usize,
    skipped: u32,
    inserted: u32,
}

impl Ingestor {
    /// The last assigned identifier; the next row gets one more.
    pub closed spec fn spec_counter(&self) -> u32 {
        self.counter
    }

    pub closed spec fn spec_skipped(&self) -> u32 {
        self.skipped
    }

    pub closed spec fn spec_inserted(&self) -> u32 {
        self.inserted
    }

    /// A controller that has not seen any row.
    pub closed spec fn fresh(&self) -> bool {
        &&& self.counter == 0
        &&& self.buffer@.len() == 0
        &&& self.skipped == 0
        &&& self.inserted == 0
        &&& self.batch_size >= 1
    }

    /// The controller fits the store it feeds: the store is well-formed,
    /// the buffer is sorted, holds only identifiers the counter has
    /// passed, none of them stored yet, and a commit fires before the
    /// buffer reaches the batch size.
    pub closed spec fn coupled(&self, store: &Store) -> bool {
        &&& store.wf()
        &&& self.batch_size >= 1
        &&& entries_sorted(self.buffer.deep_view())
        &&& keys_disjoint(store.entries_seq(), self.buffer.deep_view())
        &&& forall|l: int|
            0 <= l < self.buffer@.len() ==> (#[trigger] self.buffer.deep_view()[l]).0
                <= self.counter
        &&& self.buffer@.len() < self.batch_size
        &&& self.skipped <= self.counter
        &&& self.inserted <= self.counter
    }

    /// What a reader would see if the pending buffer were committed now:
    /// the store's map extended by the buffered pairs.
    pub closed spec fn staged(&self, store: &Store) -> Map<u32, Seq<u8>> {
        store@.union_prefer_right(map_of(self.buffer.deep_view()))
    }

    pub fn new(batch_size: usize) -> (n: Ingestor)
        requires
            batch_size >= 1,
        ensures
            n.fresh(),
    {
        Ingestor { counter: 0, buffer: Vec::new(), batch_size, skipped: 0, inserted: 0 }
    }

    /// A fresh controller fits any well-formed store, and stages exactly
    /// what the store already holds.
    pub proof fn lemma_fresh_coupled(&self, store: &Store)
        requires
            self.fresh(),
            store.wf(),
        ensures
            self.coupled(store),
            self.staged(store) == store@,
    {
        assert(self.buffer.deep_view() =~= Seq::<(u32, Seq<u8>)>::empty());
        assert(store@.union_prefer_right(map_of(self.buffer.deep_view())) =~= store@);
    }

    /// Commits the pending buffer as one atomic batch.
    fn flush(&mut self, store: &mut Store) -> (r: Result<(), IngestError>)
        requires
            old(self).coupled(old(store)) || (old(self).buffer@.len() == old(self).batch_size
                && old(self).batch_size >= 1 && old(store).wf() && entries_sorted(
                old(self).buffer.deep_view(),
            ) && keys_disjoint(old(store).entries_seq(), old(self).buffer.deep_view()) && old(
                self,
            ).skipped <= old(self).counter && old(self).inserted <= old(self).counter),
        ensures
            final(self).spec_counter() == old(self).spec_counter(),
            final(self).spec_skipped() == old(self).spec_skipped(),
            final(self).spec_inserted() == old(self).spec_inserted(),
            old(store)@.submap_of(final(store)@),
            !final(store).fault_pending(),
            r is Ok ==> final(self).coupled(final(store)) && final(self).staged(final(store))
                == old(self).staged(old(store)) && final(store)@ == old(self).staged(old(store)),
            r is Err ==> r == Err::<(), IngestError>(IngestError::CommitFailed) && final(store)@
                == old(store)@ && old(store).fault_pending(),
            r is Ok <==> !old(store).fault_pending(),
    {
        let batch = self.buffer.split_off(0);
        proof {
            assert(batch@ =~= old(self).buffer@);
            assert(batch.deep_view() =~~= old(self).buffer.deep_view());
            assert(self.buffer.deep_view() =~= Seq::<(u32, Seq<u8>)>::empty());
        }
        match store.batch_commit(batch) {
            Ok(()) => {
                proof {
                    crate::store::lemma_merge_entries(
                        old(store).entries_seq(),
                        old(self).buffer.deep_view(),
                    );
                    assert(store@ == old(store)@.union_prefer_right(
                        map_of(old(self).buffer.deep_view()),
                    ));
                    assert(self.staged(store) =~= store@);
                    assert forall|k: u32| old(store)@.dom().contains(k) implies store@.dom().contains(
                        k,
                    ) && store@[k] == old(store)@[k] by {
                        lemma_map_of_contains(old(self).buffer.deep_view(), k);
                        lemma_map_of_contains(old(store).entries_seq(), k);
                        assert(!map_of(old(self).buffer.deep_view()).contains_key(k));
                    }
                }
                Ok(())
            },
            Err(_) => Err(IngestError::CommitFailed),
        }
    }

    /// Offers the next corpus row. The row consumes the next identifier
    /// whether or not it is kept; a stored identifier makes it a dedup
    /// skip, otherwise the row is normalized, encoded and buffered, and a
    /// full buffer is committed at once.
    pub fn offer(&mut self, store: &mut Store, c: &Case) -> (r: Result<
        RowOutcome,
        IngestError,
    >)
        requires
            old(self).coupled(old(store)),
            old(self).spec_counter() < u32::MAX,
        ensures
            r matches Ok(o) ==> {
                &&& final(self).coupled(final(store))
                &&& final(self).spec_counter() == old(self).spec_counter() + 1
                &&& final(self).staged(final(store)) == ingest_step(
                    old(self).staged(old(store)),
                    (old(self).spec_counter() + 1) as u32,
                    c@,
                )
                &&& (o == RowOutcome::Skipped <==> old(self).staged(old(store)).contains_key(
                    (old(self).spec_counter() + 1) as u32,
                ))
                &&& final(self).spec_skipped() == old(self).spec_skipped() + (
                if o == RowOutcome::Skipped {
                    1int
                } else {
                    0int
                })
                &&& final(self).spec_inserted() == old(self).spec_inserted() + (
                if o == RowOutcome::Skipped {
                    0int
                } else {
                    1int
                })
            },
            old(store)@.submap_of(final(store)@),
            final(store).fault_pending() ==> old(store).fault_pending(),
            r matches Err(e) ==> final(store)@ == old(store)@ && (e
                == IngestError::RecordTooLarge || e == IngestError::CommitFailed) && (e
                == IngestError::RecordTooLarge ==> !encodable(normalized_of(c@))) && (e
                == IngestError::CommitFailed ==> old(store).fault_pending()),
            !old(store).fault_pending() && encodable(normalized_of(c@)) ==> r is Ok,
    {
        let id = self.counter + 1;
        self.counter = id;
        proof {
            lemma_map_of_contains(self.buffer.deep_view(), id);
            crate::store::lemma_map_of_contains(old(store).entries_seq(), id);
            assert(!map_of(self.buffer.deep_view()).contains_key(id));
            assert(old(self).staged(old(store)).contains_key(id) == old(store)@.contains_key(id));
        }
        if store.contains(id) {
            self.skipped = self.skipped + 1;
            return Ok(RowOutcome::Skipped);
        }
        let n = normalize_case(c);
        let bytes = match encode_case(&n) {
            Some(b) => b,
            None => {
                return Err(IngestError::RecordTooLarge);
            },
        };
        let ghost prebuf = self.buffer.deep_view();
        self.buffer.push((id, bytes));
        self.inserted = self.inserted + 1;
        proof {
            let pair = (id, spec_enc_case(normalized_of(c@)));
            assert(self.buffer.deep_view() =~~= prebuf.push(pair));
            lemma_map_of_push(prebuf, pair);
            assert(self.staged(store) =~= ingest_step(old(self).staged(old(store)), id, c@));
            let nb = self.buffer.deep_view();
            assert forall|l: int, m: int| 0 <= l < m < nb.len() implies nb[l].0 < nb[m].0 by {
                if m < prebuf.len() {
                    assert(nb[l] == prebuf[l] && nb[m] == prebuf[m]);
                } else {
                    assert(nb[m] == pair);
                    if l < prebuf.len() {
                        assert(nb[l] == prebuf[l]);
                        assert(prebuf[l].0 <= old(self).spec_counter());
                    }
                }
            }
            assert(entries_sorted(nb));
            let se = store.entries_seq();
            assert forall|l: int, m: int|
                0 <= l < se.len() && 0 <= m < nb.len() implies se[l].0 != nb[m].0 by {
                if m < prebuf.len() {
                    assert(nb[m] == prebuf[m]);
                } else {
                    assert(nb[m] == pair);
                    assert(!store@.contains_key(id));
                    if se[l].0 == id {
                        assert(exists|x: int| 0 <= x < se.len() && se[x].0 == id);
                    }
                }
            }
            assert(keys_disjoint(se, nb));
        }
        if self.buffer.len() >= self.batch_size {
            match self.flush(store) {
                Ok(()) => Ok(RowOutcome::Committed),
                Err(e) => Err(e),
            }
        } else {
            Ok(RowOutcome::Buffered)
        }
    }

    /// Final flush: after it, everything offered is durably stored.
    pub fn finish(&mut self, store: &mut Store) -> (r: Result<(), IngestError>)
        requires
            old(self).coupled(old(store)),
        ensures
            final(self).spec_counter() == old(self).spec_counter(),
            final(self).spec_skipped() == old(self).spec_skipped(),
            final(self).spec_inserted() == old(self).spec_inserted(),
            old(store)@.submap_of(final(store)@),
            final(store).fault_pending() ==> old(store).fault_pending(),
            r is Ok ==> final(self).coupled(final(store)) && final(store)@ == old(self).staged(
                old(store),
            ) && final(store).wf(),
            r is Err ==> final(store)@ == old(store)@ && old(store).fault_pending(),
            !old(store).fault_pending() ==> r is Ok,
    {
        if self.buffer.len() == 0 {
            proof {
                assert(self.buffer.deep_view() =~= Seq::<(u32, Seq<u8>)>::empty());
                assert(old(self).staged(old(store)) =~= store@);
            }
            return Ok(());
        }
        self.flush(store)
    }

    /// How many rows this run has seen.
    pub fn rows_seen(&self) -> (n: u32)
        ensures
            n == self.spec_counter(),
    {
        self.counter
    }

    /// How many rows the dedup check skipped.
    pub fn skipped_rows(&self) -> (n: u32)
        ensures
            n == self.spec_skipped(),
    {
        self.skipped
    }

    /// How many rows were newly stored or buffered.
    pub fn stored_rows(&self) -> (n: u32)
        ensures
            n == self.spec_inserted(),
    {
        self.inserted
    }

    /// Offers every row of a corpus slice, in corpus order.
    pub fn ingest_rows(&mut self, store: &mut Store, rows: &Vec<Case>) -> (r: Result<
        (),
        IngestError,
    >)
        requires
            old(self).coupled(old(store)),
            old(self).spec_counter() + rows@.len() <= u32::MAX,
        ensures
            r is Ok ==> {
                &&& final(self).coupled(final(store))
                &&& final(self).spec_counter() == old(self).spec_counter() + rows@.len()
                &&& final(self).staged(final(store)) == ingest_fold(
                    old(self).staged(old(store)),
                    rows.deep_view(),
                    old(self).spec_counter() + 1,
                )
                &&& final(self).spec_skipped() == old(self).spec_skipped() + skip_count(
                    old(self).staged(old(store)),
                    rows.deep_view(),
                    old(self).spec_counter() + 1,
                )
                &&& final(self).spec_inserted() == old(self).spec_inserted() + rows@.len()
                    - skip_count(
                    old(self).staged(old(store)),
                    rows.deep_view(),
                    old(self).spec_counter() + 1,
                )
            },
            old(store)@.submap_of(final(store)@),
            final(store).fault_pending() ==> old(store).fault_pending(),
            r matches Err(e) ==> (e == IngestError::RecordTooLarge || e
                == IngestError::CommitFailed),
            !old(store).fault_pending() && (forall|i: int|
                0 <= i < rows.deep_view().len() ==> encodable(
                    normalized_of(#[trigger] rows.deep_view()[i]),
                )) ==> r is Ok,
    {
        let ghost m0 = old(self).staged(old(store));
        let ghost dv = rows.deep_view();
        let ghost first: int = old(self).spec_counter() + 1;
        let mut i: usize = 0;
        proof {
            assert(dv.skip(0) =~= dv);
        }
        while i < rows.len()
            invariant
                i <= rows.len(),
                dv == rows.deep_view(),
                dv.len() == rows@.len(),
                m0 == old(self).staged(old(store)),
                first == old(self).spec_counter() + 1,
                old(self).spec_counter() + rows@.len() <= u32::MAX,
                self.coupled(store),
                self.spec_counter() == old(self).spec_counter() + i,
                ingest_fold(m0, dv, first) == ingest_fold(
                    self.staged(store),
                    dv.skip(i as int),
                    first + i,
                ),
                skip_count(m0, dv, first) == (self.spec_skipped() - old(self).spec_skipped())
                    + skip_count(self.staged(store), dv.skip(i as int), first + i),
                self.spec_skipped() - old(self).spec_skipped() == i - (self.spec_inserted() - old(
                    self,
                ).spec_inserted()),
                old(store)@.submap_of(store@),
                store.fault_pending() ==> old(store).fault_pending(),
            decreases rows.len() - i,
        {
            let c = &rows[i];
            let ghost pre_staged = self.staged(store);
            let ghost pre_store = store@;
            proof {
                assert(dv[i as int] == rows@[i as int]@);
            }
            match self.offer(store, c) {
                Ok(_) => {},
                Err(e) => {
                    proof {
                        if e == IngestError::RecordTooLarge {
                            assert(!encodable(normalized_of(dv[i as int])));
                        } else {
                            assert(old(store).fault_pending());
                        }
                        vstd::map_lib::lemma_submap_of_trans(old(store)@, pre_store, store@);
                    }
                    return Err(e);
                },
            }
            i = i + 1;
            proof {
                vstd::map_lib::lemma_submap_of_trans(old(store)@, pre_store, store@);
            }
            proof {
                assert(dv.skip(i - 1)[0] == dv[i - 1]);
                assert(dv.skip(i - 1).drop_first() =~= dv.skip(i as int));
                assert(ingest_fold(pre_staged, dv.skip(i - 1), first + i - 1) == ingest_fold(
                    ingest_step(pre_staged, (first + i - 1) as u32, dv[i - 1]),
                    dv.skip(i as int),
                    first + i,
                ));
                assert(skip_count(pre_staged, dv.skip(i - 1), first + i - 1) == (
                if pre_staged.contains_key((first + i - 1) as u32) {
                    1int
                } else {
                    0int
                }) + skip_count(
                    ingest_step(pre_staged, (first + i - 1) as u32, dv[i - 1]),
                    dv.skip(i as int),
                    first + i,
                ));
            }
        }
        proof {
            assert(dv.skip(dv.len() as int) =~= Seq::<CaseView>::empty());
        }
        Ok(())
    }

    /// Ingests every record one archive yields, in archive order.
    pub fn ingest_archive(&mut self, store: &mut Store, data: &Vec<u8>) -> (r: Result<
        (),
        IngestError,
    >)
        requires
            old(self).coupled(old(store)),
        ensures
            r is Ok ==> (crate::reader::archive_cases(data@) matches Some(cs) && {
                &&& final(self).coupled(final(store))
                &&& final(self).spec_counter() == old(self).spec_counter() + cs.len()
                &&& final(self).staged(final(store)) == ingest_fold(
                    old(self).staged(old(store)),
                    cs,
                    old(self).spec_counter() + 1,
                )
                &&& final(self).spec_skipped() == old(self).spec_skipped() + skip_count(
                    old(self).staged(old(store)),
                    cs,
                    old(self).spec_counter() + 1,
                )
            }),
            r matches Err(e) ==> ((e == IngestError::BadArchive || e == IngestError::BadTable)
                ==> crate::reader::archive_cases(data@) is None),
            r matches Err(e) ==> (e == IngestError::TooManyRows ==> (
            crate::reader::archive_cases(data@) matches Some(cs) && old(self).spec_counter()
                + cs.len() > u32::MAX)),
            (crate::reader::archive_cases(data@) matches Some(cs) && old(self).spec_counter()
                + cs.len() <= u32::MAX && !old(store).fault_pending() && (forall|i: int|
                0 <= i < cs.len() ==> encodable(normalized_of(#[trigger] cs[i])))) ==> r is Ok,
            old(store)@.submap_of(final(store)@),
            final(store).fault_pending() ==> old(store).fault_pending(),
    {
        let cases = match crate::reader::read_archive_cases(data) {
            Ok(cs) => cs,
            Err(e) => {
                return Err(e);
            },
        };
        if cases.len() as u64 > (u32::MAX - self.counter) as u64 {
            return Err(IngestError::TooManyRows);
        }
        proof {
            assert(crate::reader::archive_cases(data@) == Some(cases.deep_view()));
            assert(cases.deep_view().len() == cases@.len());
        }
        self.ingest_rows(store, &cases)
    }
}

/// One complete ingestion run over a corpus already decoded into rows:
/// every row is offered in order and a final flush commits the rest.
pub fn ingest_corpus(store: &mut Store, rows: &Vec<Case>, batch_size: usize) -> (r: Result<
    IngestStats,
    IngestError,
>)
    requires
        old(store).wf(),
        batch_size >= 1,
        rows@.len() <= u32::MAX,
    ensures
        r matches Ok(st) ==> {
            &&& final(store).wf()
            &&& final(store)@ == ingest_fold(old(store)@, rows.deep_view(), 1)
            &&& st.rows == rows@.len()
            &&& st.skipped as int == skip_count(old(store)@, rows.deep_view(), 1)
            &&& st.stored == rows@.len() - st.skipped
        },
        old(store)@.submap_of(final(store)@),
        final(store).fault_pending() ==> old(store).fault_pending(),
        !old(store).fault_pending() && (forall|i: int|
            0 <= i < rows.deep_view().len() ==> encodable(
                normalized_of(#[trigger] rows.deep_view()[i]),
            )) ==> r is Ok,
{
    let mut ing = Ingestor::new(batch_size);
    proof {
        ing.lemma_fresh_coupled(store);
    }
    match ing.ingest_rows(store, rows) {
        Ok(()) => {},
        Err(e) => {
            return Err(e);
        },
    }
    let ghost mid = store@;
    match ing.finish(store) {
        Ok(()) => {},
        Err(_) => {
            proof {
                vstd::map_lib::lemma_submap_of_trans(old(store)@, mid, store@);
            }
            return Err(IngestError::CommitFailed);
        },
    }
    proof {
        vstd::map_lib::lemma_submap_of_trans(old(store)@, mid, store@);
    }
    let st = IngestStats {
        rows: ing.rows_seen(),
        skipped: ing.skipped_rows(),
        stored: ing.stored_rows(),
    };
    Ok(st)
}

proof fn lemma_fold_preserves(m: Map<u32, Seq<u8>>, rows: Seq<CaseView>, first: int, k: u32)
    requires
        m.contains_key(k),
    ensures
        ingest_fold(m, rows, first).contains_key(k),
        ingest_fold(m, rows, first)[k] == m[k],
    decreases rows.len(),
{
    if rows.len() > 0 {
        lemma_fold_preserves(ingest_step(m, first as u32, rows[0]), rows.drop_first(), first + 1, k);
    }
}

proof fn lemma_fold_covers(m: Map<u32, Seq<u8>>, rows: Seq<CaseView>, first: int, i: int)
    requires
        0 <= i < rows.len(),
    ensures
        ingest_fold(m, rows, first).contains_key((first + i) as u32),
    decreases rows.len(),
{
    let m1 = ingest_step(m, first as u32, rows[0]);
    if i == 0 {
        assert(m1.contains_key(first as u32));
        lemma_fold_preserves(m1, rows.drop_first(), first + 1, first as u32);
    } else {
        lemma_fold_covers(m1, rows.drop_first(), first + 1, i - 1);
        assert(rows.drop_first().len() == rows.len() - 1);
        assert((first + 1) + (i - 1) == first + i);
    }
}

proof fn lemma_fold_noop(m: Map<u32, Seq<u8>>, rows: Seq<CaseView>, first: int)
    requires
        forall|i: int| 0 <= i < rows.len() ==> m.contains_key(#[trigger] ((first + i) as u32)),
    ensures
        ingest_fold(m, rows, first) == m,
    decreases rows.len(),
{
    if rows.len() > 0 {
        assert(m.contains_key((first + 0) as u32));
        assert(ingest_step(m, first as u32, rows[0]) == m);
        assert forall|i: int|
            0 <= i < rows.drop_first().len() implies m.contains_key(
            #[trigger] (((first + 1) + i) as u32),
        ) by {
            assert((first + 1) + i == first + (i + 1));
            assert(m.contains_key((first + (i + 1)) as u32));
        }
        lemma_fold_noop(m, rows.drop_first(), first + 1);
    }
}

/// Idempotence: running the whole ingestion a second time over the same
/// corpus, starting from the first run's result, changes nothing -- every
/// row is skipped by the dedup check.
pub proof fn lemma_ingest_idempotent(m: Map<u32, Seq<u8>>, rows: Seq<CaseView>, first: int)
    ensures
        ingest_fold(ingest_fold(m, rows, first), rows, first) == ingest_fold(m, rows, first),
{
    let m1 = ingest_fold(m, rows, first);
    assert forall|i: int| 0 <= i < rows.len() implies m1.contains_key(#[trigger] ((first + i) as u32)) by {
        lemma_fold_covers(m, rows, first, i);
    }
    lemma_fold_noop(m1, rows, first);
}

/// Pushing a fresh pair onto an entry sequence inserts its key.
proof fn lemma_map_of_push(s: Seq<(u32, Seq<u8>)>, p: (u32, Seq<u8>))
    requires
        forall|l: int| 0 <= l < s.len() ==> (#[trigger] s[l]).0 != p.0,
    ensures
        map_of(s.push(p)) == map_of(s).insert(p.0, p.1),
    decreases s.len(),
{
    if s.len() == 0 {
        assert(s.push(p)[0] == p);
        assert(s.push(p).drop_first() =~= Seq::<(u32, Seq<u8>)>::empty());
        assert(map_of(Seq::<(u32, Seq<u8>)>::empty()) == Map::<u32, Seq<u8>>::empty());
        assert(map_of(s.push(p)) == map_of(s.push(p).drop_first()).insert(p.0, p.1));
        assert(map_of(s.push(p)) =~= map_of(s).insert(p.0, p.1));
    } else {
        assert(s.push(p)[0] == s[0]);
        assert(s.push(p).drop_first() =~= s.drop_first().push(p));
        assert(forall|l: int|
            0 <= l < s.drop_first().len() ==> (#[trigger] s.drop_first()[l]) == s[l + 1]);
        lemma_map_of_push(s.drop_first(), p);
        assert(map_of(s.drop_first()).insert(p.0, p.1).insert(s[0].0, s[0].1) =~= map_of(
            s.drop_first(),
        ).insert(s[0].0, s[0].1).insert(p.0, p.1));
    }
}

} // verus!
