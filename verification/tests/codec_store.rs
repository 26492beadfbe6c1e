use cases::codec::decode_case;
use cases::codec::encode_case;
use cases::codec::key_bytes;
use cases::ingest::ingest_corpus;
use cases::ingest::normalize_case;
use cases::ingest::Ingestor;
use cases::ingest::RowOutcome;
use cases::store::Store;
use cases::Case;

fn sample_case(tag: &str) -> Case {
    Case {
        doc_id: format!("https://example/?docId={tag}"),
        case_id: format!("(2020)京01民终{tag}号"),
        case_name: format!("name-{tag}"),
        court: "北京市第一中级人民法院".to_string(),
        region: "北京市".to_string(),
        case_type: "民事案件".to_string(),
        procedure: "二审".to_string(),
        judgment_date: "2020-06-15".to_string(),
        public_date: "2020-07-01".to_string(),
        parties: "甲,乙".to_string(),
        cause: format!("cause-{tag}"),
        legal_basis: "《中华人民共和国民法典》".to_string(),
        full_text: format!("alpha {tag} 判决 如下"),
    }
}

#[test]
fn round_trip_preserves_every_field() {
    let c = sample_case("rt");
    let bytes = encode_case(&c).expect("encodable");
    let back = decode_case(&bytes).expect("decodes");
    assert_eq!(back, c);
}

#[test]
fn round_trip_preserves_empty_fields() {
    let mut c = sample_case("empty");
    c.case_name = String::new();
    c.full_text = String::new();
    let bytes = encode_case(&c).expect("encodable");
    let back = decode_case(&bytes).expect("decodes");
    assert_eq!(back, c);
}

#[test]
fn decoding_rejects_garbage_and_truncation() {
    assert!(decode_case(&vec![1, 2, 3]).is_none());
    assert!(decode_case(&Vec::new()).is_none());
    let c = sample_case("cut");
    let mut bytes = encode_case(&c).unwrap();
    bytes.pop();
    assert!(decode_case(&bytes).is_none());
    let mut extended = encode_case(&c).unwrap();
    extended.push(0);
    assert!(decode_case(&extended).is_none());
}

#[test]
fn store_keys_are_big_endian() {
    assert_eq!(key_bytes(0x01020304), vec![1, 2, 3, 4]);
    assert_eq!(key_bytes(1), vec![0, 0, 0, 1]);
}

#[test]
fn batch_commit_is_atomic_under_an_injected_fault() {
    let mut store = Store::new();
    let b1 = encode_case(&sample_case("a")).unwrap();
    let b2 = encode_case(&sample_case("b")).unwrap();
    store.inject_commit_fault();
    let r = store.batch_commit(vec![(1, b1.clone()), (2, b2.clone())]);
    assert!(r.is_err());
    // no partial subset of the failed batch is observable
    assert_eq!(store.record_count(), 0);
    assert!(!store.contains(1));
    assert!(!store.contains(2));
    // the same batch goes through once the fault has fired
    store.batch_commit(vec![(1, b1), (2, b2)]).expect("commit");
    assert_eq!(store.record_count(), 2);
    assert!(store.contains(1) && store.contains(2));
}

#[test]
fn ingestion_assigns_dense_identifiers_in_corpus_order() {
    let mut store = Store::new();
    let rows = vec![sample_case("one"), sample_case("two"), sample_case("three")];
    let stats = ingest_corpus(&mut store, &rows, 10).expect("ingest");
    assert_eq!(stats.rows, 3);
    assert_eq!(stats.skipped, 0);
    assert_eq!(stats.stored, 3);
    assert_eq!(store.record_count(), 3);
    for (i, row) in rows.iter().enumerate() {
        let id = (i + 1) as u32;
        let stored = decode_case(&store.get(id).expect("present")).expect("decodes");
        assert_eq!(stored, normalize_case(row));
    }
    // corpus order maps to strictly increasing identifiers
    let first = store.entry_at(0).0;
    let second = store.entry_at(1).0;
    let third = store.entry_at(2).0;
    assert!(first < second && second < third);
}

#[test]
fn ingestion_twice_is_a_no_op() {
    let mut store = Store::new();
    let rows = vec![sample_case("p"), sample_case("q")];
    let first = ingest_corpus(&mut store, &rows, 10).expect("first run");
    assert_eq!(first.stored, 2);
    let snapshot: Vec<(u32, Vec<u8>)> = (0..store.record_count()).map(|i| store.entry_at(i)).collect();
    let second = ingest_corpus(&mut store, &rows, 10).expect("second run");
    assert_eq!(second.rows, 2);
    assert_eq!(second.skipped, 2);
    assert_eq!(second.stored, 0);
    assert_eq!(store.record_count(), 2);
    let after: Vec<(u32, Vec<u8>)> = (0..store.record_count()).map(|i| store.entry_at(i)).collect();
    assert_eq!(snapshot, after);
}

#[test]
fn a_stored_identifier_is_skipped_but_still_consumed() {
    let mut store = Store::new();
    // identifier 2 is already durably stored from an earlier run
    let pre = encode_case(&normalize_case(&sample_case("earlier"))).unwrap();
    store.batch_commit(vec![(2, pre)]).expect("seed");
    let rows = vec![sample_case("one"), sample_case("two"), sample_case("three")];
    let stats = ingest_corpus(&mut store, &rows, 10).expect("ingest");
    assert_eq!(stats.rows, 3);
    assert_eq!(stats.skipped, 1);
    assert_eq!(stats.stored, 2);
    assert_eq!(store.record_count(), 3);
    // the skipped row left the earlier record untouched
    let kept = decode_case(&store.get(2).unwrap()).unwrap();
    assert_eq!(kept, normalize_case(&sample_case("earlier")));
    // rows one and three landed under their order-derived identifiers
    assert_eq!(decode_case(&store.get(1).unwrap()).unwrap(), normalize_case(&sample_case("one")));
    assert_eq!(decode_case(&store.get(3).unwrap()).unwrap(), normalize_case(&sample_case("three")));
}

#[test]
fn offer_reports_each_outcome() {
    let mut store = Store::new();
    let pre = encode_case(&normalize_case(&sample_case("seed"))).unwrap();
    store.batch_commit(vec![(1, pre)]).expect("seed");
    let mut ing = Ingestor::new(2);
    let first = ing.offer(&mut store, &sample_case("dup")).expect("offer");
    assert_eq!(first, RowOutcome::Skipped);
    let second = ing.offer(&mut store, &sample_case("new")).expect("offer");
    assert_eq!(second, RowOutcome::Buffered);
    assert!(!store.contains(2));
    ing.finish(&mut store).expect("flush");
    assert!(store.contains(2));
}

#[test]
fn a_failed_final_commit_leaves_the_store_unchanged() {
    let mut store = Store::new();
    let mut ing = Ingestor::new(100);
    ing.offer(&mut store, &sample_case("x")).expect("offer");
    store.inject_commit_fault();
    assert!(ing.finish(&mut store).is_err());
    assert_eq!(store.record_count(), 0);
}

#[test]
fn normalization_reshapes_the_record_once() {
    let n = normalize_case(&sample_case("norm"));
    assert_eq!(n.doc_id, "norm");
    assert_eq!(n.parties, "甲\u{FF0C}乙");
    assert_eq!(n.full_text, "<p>alpha</p><p>norm</p><p>判决</p><p>如下</p>");
    assert_eq!(n.court, "北京市第一中级人民法院");
}
