use std::io::Cursor;
use std::io::Write;

use cases::ingest::ingest_corpus;
use cases::ingest::normalize_case;
use cases::ingest::IngestError;
use cases::ingest::Ingestor;
use cases::reader::case_from_row;
use cases::reader::read_archive_cases;
use cases::store::Store;
use zip::write::SimpleFileOptions;
use zip::ZipWriter;

const HEADER: &str = "原始链接,案号,案件名称,法院,所属地区,案件类型,审理程序,裁判日期,公开日期,当事人,案由,法律依据,全文";

fn zip_with(entries: &[(&str, &str)]) -> Vec<u8> {
    let mut w = ZipWriter::new(Cursor::new(Vec::new()));
    for (name, content) in entries {
        w.start_file(*name, SimpleFileOptions::default()).expect("entry");
        w.write_all(content.as_bytes()).expect("content");
    }
    w.finish().expect("archive").into_inner()
}

#[test]
fn reads_tabular_entries_in_archive_order() {
    let csv_a = format!("{HEADER}\nu1,c1,n1,court1,r1,t1,p1,2020-01-02,2020-02-03,pa1,ca1,lb1,ft one\n");
    let csv_b = format!("{HEADER}\nu2,c2,n2,court2,r2,t2,p2,2021-03-04,2021-04-05,pa2,ca2,lb2,ft two\n");
    let data = zip_with(&[
        ("first.csv", csv_a.as_str()),
        ("notes.txt", "not tabular, ignored"),
        ("second.csv", csv_b.as_str()),
    ]);
    let rows = read_archive_cases(&data).expect("archive reads");
    assert_eq!(rows.len(), 2);
    assert_eq!(rows[0].doc_id, "u1");
    assert_eq!(rows[0].case_id, "c1");
    assert_eq!(rows[0].case_name, "n1");
    assert_eq!(rows[0].court, "court1");
    assert_eq!(rows[0].region, "r1");
    assert_eq!(rows[0].case_type, "t1");
    assert_eq!(rows[0].procedure, "p1");
    assert_eq!(rows[0].judgment_date, "2020-01-02");
    assert_eq!(rows[0].public_date, "2020-02-03");
    assert_eq!(rows[0].parties, "pa1");
    assert_eq!(rows[0].cause, "ca1");
    assert_eq!(rows[0].legal_basis, "lb1");
    assert_eq!(rows[0].full_text, "ft one");
    assert_eq!(rows[1].doc_id, "u2");
    assert_eq!(rows[1].full_text, "ft two");
}

#[test]
fn column_order_does_not_matter() {
    let csv = "案件名称,原始链接,案号,法院,所属地区,案件类型,审理程序,裁判日期,公开日期,当事人,案由,法律依据,全文\n\
               shuffled,u,c,court,r,t,p,2020-01-01,2020-01-02,pa,ca,lb,ft\n";
    let data = zip_with(&[("only.csv", csv)]);
    let rows = read_archive_cases(&data).expect("archive reads");
    assert_eq!(rows.len(), 1);
    assert_eq!(rows[0].case_name, "shuffled");
    assert_eq!(rows[0].doc_id, "u");
}

#[test]
fn a_missing_column_is_fatal_for_the_run() {
    let csv = "案号,案件名称\nc,n\n";
    let data = zip_with(&[("bad.csv", csv)]);
    assert_eq!(read_archive_cases(&data).unwrap_err(), IngestError::BadTable);
}

#[test]
fn bytes_that_are_no_archive_are_refused() {
    assert_eq!(
        read_archive_cases(&vec![0, 1, 2, 3]).unwrap_err(),
        IngestError::BadArchive
    );
}

#[test]
fn a_row_missing_a_mapped_column_fails_to_decode() {
    let header: Vec<String> = vec!["案号".to_string(), "案件名称".to_string()];
    let row: Vec<String> = vec!["c".to_string(), "n".to_string()];
    assert!(case_from_row(&header, &row).is_err());
}

#[test]
fn a_full_row_decodes_under_the_fixed_mapping() {
    let header: Vec<String> = HEADER.split(',').map(str::to_string).collect();
    let row: Vec<String> = vec![
        "u", "c", "n", "court", "r", "t", "p", "2020-01-01", "2020-01-02", "pa", "ca", "lb", "ft",
    ]
    .into_iter()
    .map(str::to_string)
    .collect();
    let c = case_from_row(&header, &row).expect("decodes");
    assert_eq!(c.doc_id, "u");
    assert_eq!(c.full_text, "ft");
}

#[test]
fn an_archive_ingests_end_to_end() {
    let csv = format!(
        "{HEADER}\nhttp://x?docId=ref1,c1,n1,court,r,t,p,2020-01-01,2020-01-02,pa,ca,lb,w1 w2\n\
         http://x?docId=ref2,c2,n2,court,r,t,p,2020-02-01,2020-02-02,pa,ca,lb,w3\n"
    );
    let data = zip_with(&[("corpus.csv", csv.as_str())]);
    let mut store = Store::new();
    let mut ing = Ingestor::new(100);
    ing.ingest_archive(&mut store, &data).expect("ingest");
    ing.finish(&mut store).expect("flush");
    assert_eq!(store.record_count(), 2);
    let first = cases::codec::decode_case(&store.get(1).unwrap()).unwrap();
    assert_eq!(first.doc_id, "ref1");
    assert_eq!(first.full_text, "<p>w1</p><p>w2</p>");
}

#[test]
fn ingesting_the_same_archive_twice_skips_every_row() {
    let csv = format!("{HEADER}\nu1,c1,n1,court,r,t,p,2020-01-01,2020-01-02,pa,ca,lb,ft\n");
    let data = zip_with(&[("corpus.csv", csv.as_str())]);
    let rows = read_archive_cases(&data).expect("reads");
    let mut store = Store::new();
    ingest_corpus(&mut store, &rows, 10).expect("first");
    let stats = ingest_corpus(&mut store, &rows, 10).expect("second");
    assert_eq!(stats.skipped, 1);
    assert_eq!(stats.stored, 0);
    assert_eq!(store.record_count(), 1);
    let stored = cases::codec::decode_case(&store.get(1).unwrap()).unwrap();
    assert_eq!(stored, normalize_case(&rows[0]));
}
