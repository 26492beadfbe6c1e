use cases::codec::encode_case;
use cases::controller::export_csv;
use cases::controller::fetch_case;
use cases::controller::run_search;
use cases::controller::unique_ids;
use cases::controller::QuerySearch;
use cases::controller::SearchOutcome;
use cases::index::build_from_store;
use cases::index::IndexEngine;
use cases::ingest::ingest_corpus;
use cases::ingest::normalize_case;
use cases::schema::Field;
use cases::schema::FieldKind;
use cases::schema::Tan;
use cases::store::Store;
use cases::Case;
use cases::Config;

fn blank_case() -> Case {
    Case {
        doc_id: String::new(),
        case_id: String::new(),
        case_name: String::new(),
        court: String::new(),
        region: String::new(),
        case_type: String::new(),
        procedure: String::new(),
        judgment_date: String::new(),
        public_date: String::new(),
        parties: String::new(),
        cause: String::new(),
        legal_basis: String::new(),
        full_text: String::new(),
    }
}

fn test_config() -> Config {
    Config {
        db: String::new(),
        index_path: String::new(),
        index_with_full_text: false,
        addr: String::new(),
        raw_data_path: None,
        export_limit: None,
        max_results: Some(50),
    }
}

/// Five documents with known term distributions over ASCII tokens.
fn five_doc_engine() -> IndexEngine {
    let mut engine = Tan::index("", false);
    let names = [
        "alpha beta",   // 1: both terms
        "alpha",        // 2: only alpha
        "beta",         // 3: only beta
        "alpha beta",   // 4: both terms
        "gamma",        // 5: neither
    ];
    for (i, name) in names.iter().enumerate() {
        let mut c = blank_case();
        c.case_name = name.to_string();
        engine.add_case((i + 1) as u32, &c);
    }
    engine.commit();
    engine
}

#[test]
fn schema_lists_the_fixed_fields() {
    let s = Tan::schema();
    assert_eq!(s.fields.len(), 16);
    assert_eq!(s.fields[0].field, Field::Id);
    assert_eq!(s.fields[0].kind, FieldKind::StoredU64);
    assert_eq!(s.fields[8].field, Field::Year);
    assert_eq!(s.fields[8].kind, FieldKind::IndexedU64);
    assert_eq!(s.fields[15].field, Field::FullText);
}

#[test]
fn searcher_uses_conjunction_and_the_two_boosts() {
    let s = Tan::searcher(false);
    assert!(s.conjunction);
    assert_eq!(s.id, Field::Id);
    assert_eq!(s.boosts, vec![(Field::CaseId, 9), (Field::CaseName, 3)]);
    assert_eq!(s.default_fields.len(), 14);
    let full = Tan::searcher(true);
    assert_eq!(full.default_fields.len(), 15);
    assert_eq!(*full.default_fields.last().unwrap(), Field::FullText);
}

#[test]
fn a_two_term_query_returns_only_documents_with_both_terms() {
    let engine = five_doc_engine();
    let searcher = Tan::searcher(false);
    let (total, hits) = searcher.search(&engine, "alpha beta", 20, 0);
    assert_eq!(total, 2);
    let mut ids: Vec<u32> = hits.iter().map(|h| h.1).collect();
    ids.sort();
    assert_eq!(ids, vec![1, 4]);
    // each single term still reaches its own documents
    let (t_alpha, _) = searcher.search(&engine, "alpha", 20, 0);
    assert_eq!(t_alpha, 3);
    let (t_beta, _) = searcher.search(&engine, "beta", 20, 0);
    assert_eq!(t_beta, 3);
    let (t_gamma, hits_gamma) = searcher.search(&engine, "gamma", 20, 0);
    assert_eq!(t_gamma, 1);
    assert_eq!(hits_gamma[0].1, 5);
}

#[test]
fn an_empty_query_matches_nothing() {
    let engine = five_doc_engine();
    let searcher = Tan::searcher(false);
    let (total, hits) = searcher.search(&engine, "", 20, 0);
    assert_eq!(total, 0);
    assert!(hits.is_empty());
}

#[test]
fn a_boosted_field_match_outranks_a_plain_field_match() {
    let mut engine = Tan::index("", false);
    let mut plain = blank_case();
    plain.cause = "zeta".to_string();
    engine.add_case(7, &plain);
    let mut boosted = blank_case();
    boosted.case_id = "zeta".to_string();
    engine.add_case(8, &boosted);
    engine.commit();
    let searcher = Tan::searcher(false);
    let (total, hits) = searcher.search(&engine, "zeta", 20, 0);
    assert_eq!(total, 2);
    // the case-number match carries boost 9, the cause match weight 1
    assert_eq!(hits[0], (9, 8));
    assert_eq!(hits[1], (1, 7));
}

#[test]
fn uncommitted_documents_stay_invisible() {
    let mut engine = Tan::index("", false);
    let mut c = blank_case();
    c.case_name = "delta".to_string();
    engine.add_case(1, &c);
    let searcher = Tan::searcher(false);
    let (before, _) = searcher.search(&engine, "delta", 20, 0);
    assert_eq!(before, 0);
    engine.commit();
    let (after, _) = searcher.search(&engine, "delta", 20, 0);
    assert_eq!(after, 1);
}

#[test]
fn date_decomposition_matches_numeric_year_queries() {
    let mut engine = Tan::index("", false);
    let mut c = blank_case();
    c.case_name = "datable".to_string();
    c.judgment_date = "1999-12-31".to_string();
    engine.add_case(1, &c);
    engine.commit();
    let searcher = Tan::searcher(false);
    let (total, _) = searcher.search(&engine, "1999", 20, 0);
    assert_eq!(total, 1);
    let (none, _) = searcher.search(&engine, "1998", 20, 0);
    assert_eq!(none, 0);
}

#[test]
fn an_offset_clamped_past_the_total_yields_an_empty_page() {
    // total=7 matching documents, limit 20, offset 100 capped to 50
    let mut engine = Tan::index("", false);
    for i in 0..7u32 {
        let mut c = blank_case();
        c.case_name = "common".to_string();
        engine.add_case(i + 1, &c);
    }
    engine.commit();
    let searcher = Tan::searcher(false);
    let store = Store::new();
    let input = QuerySearch {
        search: Some("common".to_string()),
        offset: Some(100),
        export: None,
    };
    match run_search(&test_config(), &searcher, &engine, &store, input) {
        SearchOutcome::Page(p) => {
            assert_eq!(p.total, 7);
            assert_eq!(p.offset, 50);
            assert!(p.cases.is_empty());
        },
        SearchOutcome::Export(_, _) => panic!("not an export request"),
    }
}

#[test]
fn pagination_respects_offset_and_limit() {
    let mut engine = Tan::index("", false);
    for i in 0..7u32 {
        let mut c = blank_case();
        c.case_name = "common".to_string();
        engine.add_case(i + 1, &c);
    }
    engine.commit();
    let searcher = Tan::searcher(false);
    let (total, page) = searcher.search(&engine, "common", 3, 5);
    assert_eq!(total, 7);
    assert_eq!(page.len(), 2);
    let (_, all) = searcher.search(&engine, "common", 20, 0);
    assert_eq!(all.len(), 7);
    // equal scores keep committed order
    let ids: Vec<u32> = all.iter().map(|h| h.1).collect();
    assert_eq!(ids, vec![1, 2, 3, 4, 5, 6, 7]);
}

#[test]
fn identifiers_deduplicate_keeping_first_positions() {
    assert_eq!(unique_ids(&vec![3, 1, 3, 2, 1]), vec![3, 1, 2]);
    assert_eq!(unique_ids(&Vec::new()), Vec::<u32>::new());
}

#[test]
fn fetch_misses_surface_as_not_found() {
    let store = Store::new();
    assert!(fetch_case(&store, 9).is_none());
}

#[test]
fn exports_are_reproducibly_named_and_ordered() {
    let mut store = Store::new();
    let mut row = blank_case();
    row.case_name = "exportable".to_string();
    row.full_text = "body text".to_string();
    ingest_corpus(&mut store, &vec![row], 10).expect("ingest");
    let mut engine = Tan::index("", false);
    build_from_store(&mut engine, &store, 10000).expect("index");
    let searcher = Tan::searcher(false);
    let config = test_config();
    let ask = || QuerySearch {
        search: Some("exportable".to_string()),
        offset: None,
        export: Some(true),
    };
    let first = run_search(&config, &searcher, &engine, &store, ask());
    let second = run_search(&config, &searcher, &engine, &store, ask());
    match (first, second) {
        (SearchOutcome::Export(n1, b1), SearchOutcome::Export(n2, b2)) => {
            assert_eq!(n1, "exportable_1_10000_0.csv");
            assert_eq!(n1, n2);
            assert_eq!(b1, b2);
            let text = String::from_utf8(b1).expect("utf-8");
            let mut lines = text.lines();
            assert_eq!(
                lines.next().unwrap(),
                "id,url,case_id,case_name,court,region,case_type,procedure,judgment_date,public_date,parties,cause,legal_basis,full_text"
            );
            let row_line = lines.next().unwrap();
            assert!(row_line.starts_with("1,"));
            assert!(row_line.contains("exportable"));
        },
        _ => panic!("both requests must export"),
    }
}

#[test]
fn export_filename_encodes_query_total_limit_offset() {
    let (name, _) = export_csv("q", 7, 20, 100, &Vec::new());
    assert_eq!(name, "q_7_20_100.csv");
}

#[test]
fn end_to_end_ingest_index_query() {
    let mut store = Store::new();
    // identifier 2 is already stored from an interrupted earlier run
    let mut earlier = blank_case();
    earlier.case_name = "needle".to_string();
    earlier.cause = "held over".to_string();
    let pre = encode_case(&normalize_case(&earlier)).unwrap();
    store.batch_commit(vec![(2, pre)]).expect("seed");

    let mut row1 = blank_case();
    row1.case_name = "needle one".to_string();
    let mut row2 = blank_case();
    row2.case_name = "needle".to_string();
    let mut row3 = blank_case();
    row3.case_name = "needle three".to_string();
    let stats = ingest_corpus(&mut store, &vec![row1, row2, row3], 10).expect("ingest");
    assert_eq!(stats.rows, 3);
    assert_eq!(stats.skipped, 1);
    assert_eq!(store.record_count(), 3);

    let mut engine = Tan::index("", false);
    build_from_store(&mut engine, &store, 10000).expect("index");
    let searcher = Tan::searcher(false);
    let (total_one, hits_one) = searcher.search(&engine, "one", 20, 0);
    assert_eq!(total_one, 1);
    assert_eq!(hits_one[0].1, 1);
    let (total_three, hits_three) = searcher.search(&engine, "three", 20, 0);
    assert_eq!(total_three, 1);
    assert_eq!(hits_three[0].1, 3);
    // the duplicate position still resolves to the record held over
    let held = fetch_case(&store, 2).expect("record");
    assert_eq!(held.cause, "held over");
}

#[test]
fn chinese_queries_match_through_the_segmenter() {
    let mut store = Store::new();
    let mut row = blank_case();
    row.case_name = "北京大学诉讼".to_string();
    row.court = "法院".to_string();
    ingest_corpus(&mut store, &vec![row], 10).expect("ingest");
    let mut engine = Tan::index("", false);
    build_from_store(&mut engine, &store, 10000).expect("index");
    let searcher = Tan::searcher(false);
    // the segmenter cuts the name into words; a word-level query matches
    let (total, hits) = searcher.search(&engine, "北京大学", 20, 0);
    assert_eq!(total, 1);
    assert_eq!(hits[0].1, 1);
    let (nothing, _) = searcher.search(&engine, "上海", 20, 0);
    assert_eq!(nothing, 0);
}

#[test]
fn custom_stopwords_are_dropped_from_queries_and_documents() {
    let mut engine = Tan::index("zzfiller", false);
    let mut c = blank_case();
    c.case_name = "zzfiller kept".to_string();
    engine.add_case(1, &c);
    engine.commit();
    let searcher = Tan::searcher(false);
    // a query of only stopwords has no terms and matches nothing
    let (none, _) = searcher.search(&engine, "zzfiller", 20, 0);
    assert_eq!(none, 0);
    let (one, _) = searcher.search(&engine, "kept", 20, 0);
    assert_eq!(one, 1);
}

#[test]
fn the_builtin_chinese_stopword_list_is_applied() {
    let mut engine = Tan::index("", false);
    let mut c = blank_case();
    c.case_name = "光明 的 前途".to_string();
    engine.add_case(1, &c);
    engine.commit();
    let searcher = Tan::searcher(false);
    // the particle is a built-in stopword: alone it leaves no query terms
    let (none, _) = searcher.search(&engine, "的", 20, 0);
    assert_eq!(none, 0);
    let (one, _) = searcher.search(&engine, "前途", 20, 0);
    assert_eq!(one, 1);
}

#[test]
fn an_undecodable_stored_record_aborts_the_index_build() {
    let mut store = Store::new();
    store.batch_commit(vec![(1, vec![1, 2, 3])]).expect("commit");
    let mut engine = Tan::index("", false);
    assert_eq!(
        build_from_store(&mut engine, &store, 10_000).unwrap_err(),
        cases::index::IndexError::BadRecord
    );
}
