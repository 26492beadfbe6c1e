//! The request controllers: resolving a record by identifier, and the
//! search flow from query input to an assembled page or a streamed export.
use crate::codec::spec_dec_case;
use crate::codec::decode_case;
use crate::digits::dec_str;
use crate::digits::usize_to_string;
use crate::index::IndexEngine;
use crate::normalize::prefix_chars;
use crate::normalize::stripped_of;
use crate::normalize::remove_html_tags;
use crate::normalize::truncate_chars;
use crate::index::query_terms_of;
use crate::query::candidates;
use crate::query::page_of;
use crate::query::rank_hits;
use crate::schema::Searcher;
use crate::store::Store;
use crate::Case;
use crate::CaseView;
use crate::Config;
use vstd::prelude::*;

verus! {

/// The preview length shown for each result.
pub const PREVIEW_CHARS: usize = 240;

/// The page size of interactive display.
pub const PAGE_LIMIT: usize = 20;

#[verifier::external_type_specification]
#[verifier::external_body]
#[verifier::reject_recursive_types(T)]
#[verifier::reject_recursive_types(S)]
pub struct ExIndexSet<T, S>(indexmap::IndexSet<T, S>);

/// What an identifier set holds, in insertion order.
pub uninterp spec fn idset_elems(
    s: indexmap::IndexSet<u32, std::collections::hash_map::RandomState>,
) -> Seq<u32>;

/// Relies on indexmap's `IndexSet::new`: the empty set.
#[verifier::external_body]
fn idset_new() -> (s: indexmap::IndexSet<u32>)
    ensures
        idset_elems(s) == Seq::<u32>::empty(),
{
    indexmap::IndexSet::new()
}

/// Relies on indexmap's `IndexSet::insert`: a new value goes to the end of
/// the insertion order, a present one changes nothing.
#[verifier::external_body]
fn idset_insert(s: &mut indexmap::IndexSet<u32>, x: u32) -> (b: bool)
    ensures
        idset_elems(*final(s)) == (if idset_elems(*old(s)).contains(x) {
            idset_elems(*old(s))
        } else {
            idset_elems(*old(s)).push(x)
        }),
        b == !idset_elems(*old(s)).contains(x),
{
    s.insert(x)
}

/// Relies on indexmap's `IndexSet::iter`: the values in insertion order.
#[verifier::external_body]
fn idset_items(s: &indexmap::IndexSet<u32>) -> (r: Vec<u32>)
    ensures
        r@ == idset_elems(*s),
{
    s.iter().copied().collect()
}

/// First-occurrence deduplication, order kept: what assembling a result
/// page does to the ranked identifiers.
pub open spec fn dedup_from(ids: Seq<u32>, seen: Seq<u32>) -> Seq<u32>
    decreases ids.len(),
{
    if ids.len() == 0 {
        Seq::empty()
    } else if seen.contains(ids[0]) {
        dedup_from(ids.drop_first(), seen)
    } else {
        seq![ids[0]] + dedup_from(ids.drop_first(), seen.push(ids[0]))
    }
}

pub open spec fn dedup_ids(ids: Seq<u32>) -> Seq<u32> {
    dedup_from(ids, Seq::empty())
}

proof fn lemma_dedup_from(ids: Seq<u32>, seen: Seq<u32>)
    ensures
        forall|k: int|
            0 <= k < dedup_from(ids, seen).len() ==> !seen.contains(
                #[trigger] dedup_from(ids, seen)[k],
            ) && ids.contains(dedup_from(ids, seen)[k]),
        forall|i: int, j: int|
            0 <= i < j < dedup_from(ids, seen).len() ==> dedup_from(ids, seen)[i] != dedup_from(
                ids,
                seen,
            )[j],
    decreases ids.len(),
{
    if ids.len() > 0 {
        let rest = ids.drop_first();
        assert(forall|l: int| 0 <= l < rest.len() ==> #[trigger] rest[l] == ids[l + 1]);
        assert forall|x: u32| rest.contains(x) implies ids.contains(x) by {
            let l = choose|l: int| 0 <= l < rest.len() && rest[l] == x;
            assert(ids[l + 1] == x);
        }
        if seen.contains(ids[0]) {
            lemma_dedup_from(rest, seen);
            let d = dedup_from(ids, seen);
            let dr = dedup_from(rest, seen);
            assert(d == dr);
            assert forall|k: int|
                0 <= k < d.len() implies !seen.contains(#[trigger] d[k]) && ids.contains(
                d[k],
            ) by {
                assert(d[k] == dr[k]);
                assert(rest.contains(dr[k]));
            }
            assert(forall|i: int, j: int| 0 <= i < j < d.len() ==> d[i] == dr[i] && d[j] == dr[j]);
        } else {
            lemma_dedup_from(rest, seen.push(ids[0]));
            let d = dedup_from(ids, seen);
            let dr = dedup_from(rest, seen.push(ids[0]));
            assert(d == seq![ids[0]] + dr);
            assert(forall|k: int| 0 <= k < dr.len() ==> #[trigger] d[k + 1] == dr[k]);
            assert(ids.contains(ids[0])) by {
                assert(ids[0] == ids[0]);
            }
            assert forall|k: int|
                0 <= k < d.len() implies !seen.contains(#[trigger] d[k]) && ids.contains(
                d[k],
            ) by {
                if k > 0 {
                    assert(d[k] == dr[k - 1]);
                    assert(!seen.push(ids[0]).contains(dr[k - 1]));
                    if seen.contains(d[k]) {
                        let l = choose|l: int| 0 <= l < seen.len() && seen[l] == d[k];
                        assert(seen.push(ids[0])[l] == d[k]);
                        assert(false);
                    }
                }
            }
            assert forall|i: int, j: int| 0 <= i < j < d.len() implies d[i] != d[j] by {
                if i == 0 {
                    assert(d[j] == dr[j - 1]);
                    assert(!seen.push(ids[0]).contains(dr[j - 1]));
                    assert(seen.push(ids[0]).contains(ids[0])) by {
                        assert(seen.push(ids[0]).last() == ids[0]);
                    }
                } else {
                    assert(d[i] == dr[i - 1] && d[j] == dr[j - 1]);
                }
            }
        }
    }
}

/// Assembly never re-fetches a duplicate: the deduplicated identifier
/// list repeats nothing, and holds only identifiers the ranked page held.
pub proof fn lemma_dedup_no_repeats(ids: Seq<u32>)
    ensures
        forall|i: int, j: int|
            0 <= i < j < dedup_ids(ids).len() ==> dedup_ids(ids)[i] != dedup_ids(ids)[j],
        forall|k: int|
            0 <= k < dedup_ids(ids).len() ==> ids.contains(#[trigger] dedup_ids(ids)[k]),
{
    lemma_dedup_from(ids, Seq::empty());
}

/// Deduplicates identifiers, keeping the first occurrence's position.
pub fn unique_ids(ids: &Vec<u32>) -> (r: Vec<u32>)
    ensures
        r@ == dedup_ids(ids@),
{
    let mut set = idset_new();
    let mut i: usize = 0;
    proof {
        assert(ids@.skip(0) =~= ids@);
        assert(Seq::<u32>::empty() + dedup_from(ids@, idset_elems(set)) =~= dedup_from(
            ids@,
            Seq::<u32>::empty(),
        ));
    }
    while i < ids.len()
        invariant
            i <= ids.len(),
            dedup_ids(ids@) =~= idset_elems(set) + dedup_from(
                ids@.skip(i as int),
                idset_elems(set),
            ),
        decreases ids.len() - i,
    {
        proof {
            assert(ids@.skip(i as int)[0] == ids@[i as int]);
            assert(ids@.skip(i as int).drop_first() =~= ids@.skip(i + 1));
        }
        let ghost pre = idset_elems(set);
        idset_insert(&mut set, ids[i]);
        proof {
            if !pre.contains(ids@[i as int]) {
                assert(idset_elems(set) =~= pre.push(ids@[i as int]));
                assert(pre + (seq![ids@[i as int]] + dedup_from(
                    ids@.skip(i + 1),
                    pre.push(ids@[i as int]),
                )) =~= pre.push(ids@[i as int]) + dedup_from(
                    ids@.skip(i + 1),
                    pre.push(ids@[i as int]),
                ));
            }
        }
        i = i + 1;
    }
    proof {
        assert(ids@.skip(ids@.len() as int) =~= Seq::<u32>::empty());
        assert(idset_elems(set) + Seq::<u32>::empty() =~= idset_elems(set));
    }
    idset_items(&set)
}

/// Resolving one identifier against the document store.
pub open spec fn resolved_of(m: Map<u32, Seq<u8>>, id: u32) -> Option<CaseView> {
    if m.contains_key(id) {
        spec_dec_case(m[id])
    } else {
        None
    }
}

/// Fetches and decodes one record; an identifier the store misses, or a
/// record that does not decode, surfaces as not found.
pub fn fetch_case(store: &Store, id: u32) -> (r: Option<Case>)
    requires
        store.wf(),
    ensures
        r matches Some(c) ==> resolved_of(store@, id) == Some(c@),
        r is Some <==> resolved_of(store@, id) is Some,
{
    match store.get(id) {
        Some(bytes) => decode_case(&bytes),
        None => None,
    }
}

/// The preview derived for interactive display: markup stripped, then
/// truncated to the fixed character count.
pub open spec fn preview_of(cv: CaseView) -> Seq<char> {
    prefix_chars(stripped_of(cv.full_text), PREVIEW_CHARS as int)
}

/// The assembled result list: each identifier resolved against the store;
/// a lookup miss or an undecodable record is silently excluded.
pub open spec fn assembled(m: Map<u32, Seq<u8>>, ids: Seq<u32>) -> Seq<(u32, Seq<char>, CaseView)>
    decreases ids.len(),
{
    if ids.len() == 0 {
        Seq::empty()
    } else {
        let rest = assembled(m, ids.drop_first());
        match resolved_of(m, ids[0]) {
            Some(cv) => seq![(ids[0], preview_of(cv), cv)] + rest,
            None => rest,
        }
    }
}

/// Resolves the deduplicated identifiers to full records with previews.
pub fn assemble_cases(store: &Store, ids: &Vec<u32>) -> (r: Vec<(u32, String, Case)>)
    requires
        store.wf(),
    ensures
        r.deep_view() == assembled(store@, ids@),
{
    let mut out: Vec<(u32, String, Case)> = Vec::new();
    let mut i: usize = 0;
    proof {
        assert(ids@.skip(0) =~= ids@);
    }
    while i < ids.len()
        invariant
            i <= ids.len(),
            store.wf(),
            assembled(store@, ids@) =~~= out.deep_view() + assembled(store@, ids@.skip(i as int)),
        decreases ids.len() - i,
    {
        proof {
            assert(ids@.skip(i as int)[0] == ids@[i as int]);
            assert(ids@.skip(i as int).drop_first() =~= ids@.skip(i + 1));
        }
        let id = ids[i];
        match fetch_case(store, id) {
            Some(c) => {
                let preview = truncate_chars(remove_html_tags(c.full_text.as_str()).as_str(),
                    PREVIEW_CHARS);
                let ghost pre = out.deep_view();
                let ghost cv = c@;
                out.push((id, preview, c));
                proof {
                    assert(out.deep_view() =~~= pre.push((id, preview_of(cv), cv)));
                    assert(pre.push((id, preview_of(cv), cv)) + assembled(
                        store@,
                        ids@.skip(i + 1),
                    ) =~~= pre + (seq![(id, preview_of(cv), cv)] + assembled(
                        store@,
                        ids@.skip(i + 1),
                    )));
                }
            },
            None => {},
        }
        i = i + 1;
    }
    proof {
        assert(ids@.skip(ids@.len() as int) =~= Seq::<u32>::empty());
        assert(out.deep_view() =~~= assembled(store@, ids@));
    }
    out
}

/// What the csv crate writes for the rows: one comma-separated line per
/// row; it depends on the rows alone.
pub uninterp spec fn csv_encoding_of(rows: Seq<Seq<Seq<char>>>) -> Seq<u8>;

/// Relies on csv's `Writer`: encodes the rows, one line each, in order.
#[verifier::external_body]
fn csv_write(rows: &Vec<Vec<String>>) -> (r: Vec<u8>)
    ensures
        r@ == csv_encoding_of(rows.deep_view()),
{
    let mut w = csv::Writer::from_writer(Vec::new());
    for row in rows {
        if w.write_record(row).is_err() {
            return Vec::new();
        }
    }
    w.into_inner().unwrap_or_default()
}

/// The fixed, stable column order of an export.
pub open spec fn header_row() -> Seq<Seq<char>> {
    seq![
        "id"@,
        "url"@,
        "case_id"@,
        "case_name"@,
        "court"@,
        "region"@,
        "case_type"@,
        "procedure"@,
        "judgment_date"@,
        "public_date"@,
        "parties"@,
        "cause"@,
        "legal_basis"@,
        "full_text"@,
    ]
}

/// One export row: the identifier in decimal, then the record's fields in
/// the declared column order.
pub open spec fn export_row(id: u32, cv: CaseView) -> Seq<Seq<char>> {
    seq![
        dec_str(id as int),
        cv.doc_id,
        cv.case_id,
        cv.case_name,
        cv.court,
        cv.region,
        cv.case_type,
        cv.procedure,
        cv.judgment_date,
        cv.public_date,
        cv.parties,
        cv.cause,
        cv.legal_basis,
        cv.full_text,
    ]
}

pub open spec fn export_body_rows(cases: Seq<(u32, Seq<char>, CaseView)>) -> Seq<Seq<Seq<char>>>
    decreases cases.len(),
{
    if cases.len() == 0 {
        Seq::empty()
    } else {
        seq![export_row(cases[0].0, cases[0].2)] + export_body_rows(cases.drop_first())
    }
}

/// The whole export table: header first, one row per resolved result.
pub open spec fn export_rows(cases: Seq<(u32, Seq<char>, CaseView)>) -> Seq<Seq<Seq<char>>> {
    seq![header_row()] + export_body_rows(cases)
}

/// The content-derived export filename, encoding query, total, limit and
/// offset, so identical requests export under identical names.
pub open spec fn export_name(q: Seq<char>, total: int, limit: int, offset: int) -> Seq<char> {
    q + "_"@ + dec_str(total) + "_"@ + dec_str(limit) + "_"@ + dec_str(offset) + ".csv"@
}

fn push_field(row: &mut Vec<String>, s: &String)
    ensures
        final(row).deep_view() == old(row).deep_view().push(s@),
{
    let ghost pre = row.deep_view();
    row.push(s.clone());
    proof {
        assert(row.deep_view() =~~= pre.push(s@));
    }
}

/// Builds the export: the reproducible filename and the encoded rows.
pub fn export_csv(search: &str, total: usize, limit: usize, offset: usize, cases: &Vec<
    (u32, String, Case),
>) -> (r: (String, Vec<u8>))
    ensures
        r.0@ == export_name(search@, total as int, limit as int, offset as int),
        r.1@ == csv_encoding_of(export_rows(cases.deep_view())),
{
    let mut fname = search.to_owned();
    fname.append("_");
    fname.append(usize_to_string(total).as_str());
    fname.append("_");
    fname.append(usize_to_string(limit).as_str());
    fname.append("_");
    fname.append(usize_to_string(offset).as_str());
    fname.append(".csv");
    let mut rows: Vec<Vec<String>> = Vec::new();
    let mut header: Vec<String> = Vec::new();
    header.push(String::from_str("id"));
    header.push(String::from_str("url"));
    header.push(String::from_str("case_id"));
    header.push(String::from_str("case_name"));
    header.push(String::from_str("court"));
    header.push(String::from_str("region"));
    header.push(String::from_str("case_type"));
    header.push(String::from_str("procedure"));
    header.push(String::from_str("judgment_date"));
    header.push(String::from_str("public_date"));
    header.push(String::from_str("parties"));
    header.push(String::from_str("cause"));
    header.push(String::from_str("legal_basis"));
    header.push(String::from_str("full_text"));
    proof {
        assert(header.deep_view() =~~= header_row());
    }
    rows.push(header);
    proof {
        assert(rows.deep_view() =~~= seq![header_row()]);
    }
    let ghost cdv = cases.deep_view();
    let mut i: usize = 0;
    proof {
        assert(cdv.skip(0) =~= cdv);
    }
    while i < cases.len()
        invariant
            i <= cases.len(),
            cdv == cases.deep_view(),
            cdv.len() == cases@.len(),
            export_rows(cdv) =~~= rows.deep_view() + export_body_rows(cdv.skip(i as int)),
        decreases cases.len() - i,
    {
        proof {
            assert(cdv.skip(i as int)[0] == cdv[i as int]);
            assert(cdv.skip(i as int).drop_first() =~= cdv.skip(i + 1));
        }
        let hit = &cases[i];
        let mut row: Vec<String> = Vec::new();
        row.push(usize_to_string(hit.0 as usize));
        proof {
            assert(cdv[i as int].0 == cases@[i as int].0);
            assert(cdv[i as int].2 == cases@[i as int].2@);
            assert(row.deep_view() =~~= seq![dec_str(cdv[i as int].0 as int)]);
        }
        push_field(&mut row, &hit.2.doc_id);
        push_field(&mut row, &hit.2.case_id);
        push_field(&mut row, &hit.2.case_name);
        push_field(&mut row, &hit.2.court);
        push_field(&mut row, &hit.2.region);
        push_field(&mut row, &hit.2.case_type);
        push_field(&mut row, &hit.2.procedure);
        push_field(&mut row, &hit.2.judgment_date);
        push_field(&mut row, &hit.2.public_date);
        push_field(&mut row, &hit.2.parties);
        push_field(&mut row, &hit.2.cause);
        push_field(&mut row, &hit.2.legal_basis);
        push_field(&mut row, &hit.2.full_text);
        proof {
            assert(row.deep_view() =~~= export_row(cdv[i as int].0, cdv[i as int].2));
        }
        let ghost pre = rows.deep_view();
        rows.push(row);
        i = i + 1;
        proof {
            assert(rows.deep_view() =~~= pre.push(export_row(cdv[i - 1].0, cdv[i - 1].2)));
            assert(pre.push(export_row(cdv[i - 1].0, cdv[i - 1].2)) + export_body_rows(
                cdv.skip(i as int),
            ) =~~= pre + (seq![export_row(cdv[i - 1].0, cdv[i - 1].2)] + export_body_rows(
                cdv.skip(i as int),
            )));
        }
    }
    proof {
        assert(cdv.skip(cdv.len() as int) =~= Seq::<(u32, Seq<char>, CaseView)>::empty());
        assert(rows.deep_view() =~~= export_rows(cdv));
    }
    let body = csv_write(&rows);
    (fname, body)
}

/// Export determinism: the filename and the encoded rows are functions of
/// the query, total, limit, offset and the resolved records alone, so two
/// identical export requests produce identically named, identically
/// ordered output.
pub proof fn lemma_export_deterministic(
    q: Seq<char>,
    total: int,
    limit: int,
    offset: int,
    cases: Seq<(u32, Seq<char>, CaseView)>,
    n1: Seq<char>,
    n2: Seq<char>,
    b1: Seq<u8>,
    b2: Seq<u8>,
)
    requires
        n1 == export_name(q, total, limit, offset),
        n2 == export_name(q, total, limit, offset),
        b1 == csv_encoding_of(export_rows(cases)),
        b2 == csv_encoding_of(export_rows(cases)),
    ensures
        n1 == n2,
        b1 == b2,
{
}

/// The raw query-string input of a search request.
#[derive(Debug)]
pub struct QuerySearch {
    pub search: Option<String>,
    pub offset: Option<usize>,
    pub export: Option<bool>,
}

/// An assembled interactive result page.
#[derive(Debug)]
pub struct SearchPage {
    pub search: String,
    pub offset: usize,
    pub total: usize,
    pub cases: Vec<(u32, String, Case)>,
}

/// A single-record display page.
#[derive(Debug)]
pub struct CasePage {
    pub case: Case,
}

/// What a search request produces: a page to render, or a named export.
#[derive(Debug)]
pub enum SearchOutcome {
    Page(SearchPage),
    Export(String, Vec<u8>),
}

/// The requested offset clamped to the configured ceiling.
pub open spec fn eff_offset(requested: Option<usize>, ceiling: usize) -> usize {
    let o = match requested {
        Some(o) => o,
        None => 0usize,
    };
    if o > ceiling {
        ceiling
    } else {
        o
    }
}

/// The query text of a request; absent means empty.
pub open spec fn query_text(requested: Option<Seq<char>>) -> Seq<char> {
    match requested {
        Some(q) => q,
        None => Seq::empty(),
    }
}

/// The identifiers of a hit page, in rank order.
pub open spec fn hit_ids(hits: Seq<(u64, u32)>) -> Seq<u32> {
    hits.map_values(|h: (u64, u32)| h.1)
}

/// The ranked hit page of a query, as the query engine returns it.
pub open spec fn spec_hits(
    engine: &IndexEngine,
    searcher: &Searcher,
    q: Seq<char>,
    limit: int,
    offset: int,
) -> Seq<(u64, u32)> {
    page_of(
        rank_hits(
            candidates(
                engine.committed_seq(),
                searcher.default_fields@,
                searcher.boosts@,
                query_terms_of(engine.spec_stopwords(), q),
            ),
        ),
        offset,
        limit,
    )
}

/// The exact total of a query; an empty query has no matches.
pub open spec fn spec_total(engine: &IndexEngine, searcher: &Searcher, q: Seq<char>) -> int {
    candidates(
        engine.committed_seq(),
        searcher.default_fields@,
        searcher.boosts@,
        query_terms_of(engine.spec_stopwords(), q),
    ).len() as int
}

/// The records a request's hits resolve to: identifiers deduplicated in
/// rank order, each resolved, misses excluded.
pub open spec fn spec_results(
    engine: &IndexEngine,
    searcher: &Searcher,
    store: &Store,
    q: Seq<char>,
    limit: int,
    offset: int,
) -> Seq<(u32, Seq<char>, CaseView)> {
    assembled(store@, dedup_ids(hit_ids(spec_hits(engine, searcher, q, limit, offset))))
}

/// Runs one search request end to end: offset clamped to the ceiling, the
/// export ceiling or the interactive page size as the limit, the query
/// executed when non-empty, identifiers deduplicated and resolved, and
/// the result either assembled for display or exported under its
/// content-derived name. Malformed query text never fails: it simply
/// yields the page its surviving terms produce.
pub fn run_search(
    config: &Config,
    searcher: &Searcher,
    engine: &IndexEngine,
    store: &Store,
    input: QuerySearch,
) -> (r: SearchOutcome)
    requires
        engine.wf(),
        store.wf(),
    ensures
        ({
            let q = query_text(input.search.deep_view());
            let offset = eff_offset(input.offset, config.spec_offset_ceiling());
            let export = input.export == Some(true);
            let limit = if export {
                config.spec_export_ceiling()
            } else {
                PAGE_LIMIT
            };
            let total = if q.len() == 0 {
                0int
            } else {
                spec_total(engine, searcher, q)
            };
            let results = if q.len() == 0 {
                Seq::<(u32, Seq<char>, CaseView)>::empty()
            } else {
                spec_results(engine, searcher, store, q, limit as int, offset as int)
            };
            match r {
                SearchOutcome::Page(p) => {
                    &&& !export
                    &&& p.search@ == q
                    &&& p.offset == offset
                    &&& p.total == total
                    &&& p.cases.deep_view() == results
                },
                SearchOutcome::Export(name, body) => {
                    &&& export
                    &&& name@ == export_name(q, total, limit as int, offset as int)
                    &&& body@ == csv_encoding_of(export_rows(results))
                },
            }
        }),
{
    let mut offset: usize = match input.offset {
        Some(o) => o,
        None => 0,
    };
    let ceiling = config.offset_ceiling();
    if offset > ceiling {
        offset = ceiling;
    }
    let search = match input.search {
        Some(s) => s,
        None => String::new(),
    };
    let export = match input.export {
        Some(e) => e,
        None => false,
    };
    let limit = if export {
        config.export_ceiling()
    } else {
        PAGE_LIMIT
    };
    let mut total: usize = 0;
    let mut cases: Vec<(u32, String, Case)> = Vec::new();
    if !search.as_str().is_empty() {
        let (t, hits) = searcher.search(engine, search.as_str(), limit, offset);
        total = t;
        let mut ids: Vec<u32> = Vec::new();
        let mut i: usize = 0;
        while i < hits.len()
            invariant
                i <= hits.len(),
                ids@ =~= hit_ids(hits@.take(i as int)),
            decreases hits.len() - i,
        {
            ids.push(hits[i].1);
            i = i + 1;
            proof {
                assert(hit_ids(hits@.take(i as int)) =~= hit_ids(hits@.take(i - 1)).push(
                    hits@[i - 1].1,
                ));
            }
        }
        proof {
            assert(hits@.take(hits@.len() as int) =~= hits@);
        }
        let uids = unique_ids(&ids);
        cases = assemble_cases(store, &uids);
    }
    if export {
        let (fname, body) = export_csv(search.as_str(), total, limit, offset, &cases);
        proof {
            if query_text(input.search.deep_view()).len() == 0 {
                assert(cases.deep_view() =~~= Seq::<(u32, Seq<char>, CaseView)>::empty());
            }
        }
        return SearchOutcome::Export(fname, body);
    }
    proof {
        if query_text(input.search.deep_view()).len() == 0 {
            assert(cases.deep_view() =~~= Seq::<(u32, Seq<char>, CaseView)>::empty());
        }
    }
    SearchOutcome::Page(SearchPage { search, offset, total, cases })
}

} // verus!
