//! The corpus reader: archives arrive as bytes, their tabular entries are
//! decoded row by row into records under a fixed column-name mapping.
use crate::ingest::IngestError;
use crate::Case;
use crate::CaseView;
use vstd::prelude::*;

verus! {

/// What the zip crate lists as the archive's entry names, in archive
/// order; nothing when the bytes are not a readable archive.
pub uninterp spec fn zip_names_of(data: Seq<u8>) -> Option<Seq<Seq<char>>>;

/// What the zip crate extracts as the decompressed bytes of one entry;
/// nothing when the entry cannot be read.
pub uninterp spec fn zip_entry_of(data: Seq<u8>, index: int) -> Option<Seq<u8>>;

/// What the csv crate parses the bytes into: every row including the
/// header row, each as its list of fields; nothing on malformed input.
pub uninterp spec fn csv_rows_of(data: Seq<u8>) -> Option<Seq<Seq<Seq<char>>>>;

/// Relies on zip's `ZipArchive`: lists the entry names of the archive
/// held in the given bytes, in archive order.
#[verifier::external_body]
fn zip_entry_names(data: &Vec<u8>) -> (r: Option<Vec<String>>)
    ensures
        r matches Some(v) ==> zip_names_of(data@) == Some(v.deep_view()),
        r is Some <==> zip_names_of(data@) is Some,
{
    let cursor = std::io::Cursor::new(data.as_slice());
    let archive = zip::ZipArchive::new(cursor).ok()?;
    let mut names: Vec<String> = Vec::new();
    for i in 0..archive.len() {
        names.push(archive.name_for_index(i)?.to_string());
    }
    Some(names)
}

/// Relies on zip's `ZipArchive::by_index`: the decompressed contents of
/// the entry at the given position.
#[verifier::external_body]
fn zip_entry_bytes(data: &Vec<u8>, index: usize) -> (r: Option<Vec<u8>>)
    ensures
        r matches Some(v) ==> zip_entry_of(data@, index as int) == Some(v@),
        r is Some <==> zip_entry_of(data@, index as int) is Some,
{
    let cursor = std::io::Cursor::new(data.as_slice());
    let mut archive = zip::ZipArchive::new(cursor).ok()?;
    let mut file = archive.by_index(index).ok()?;
    let mut out: Vec<u8> = Vec::new();
    std::io::Read::read_to_end(&mut file, &mut out).ok()?;
    Some(out)
}

/// Relies on csv's `Reader`: parses the bytes as comma-separated rows,
/// the header row included, each field as a string.
#[verifier::external_body]
fn csv_rows(data: &Vec<u8>) -> (r: Option<Vec<Vec<String>>>)
    ensures
        r matches Some(rows) ==> csv_rows_of(data@) == Some(rows.deep_view()),
        r is Some <==> csv_rows_of(data@) is Some,
{
    let mut rdr = csv::ReaderBuilder::new().has_headers(false).from_reader(data.as_slice());
    let mut out: Vec<Vec<String>> = Vec::new();
    for rec in rdr.records() {
        let rec = rec.ok()?;
        out.push(rec.iter().map(|f| f.to_string()).collect());
    }
    Some(out)
}

/// The position of the first column with this name, or -1.
pub open spec fn find_col(header: Seq<Seq<char>>, name: Seq<char>) -> int
    decreases header.len(),
{
    if header.len() == 0 {
        -1
    } else if header[0] == name {
        0
    } else {
        let r = find_col(header.drop_first(), name);
        if r < 0 {
            -1
        } else {
            1 + r
        }
    }
}

pub proof fn lemma_find_col(header: Seq<Seq<char>>, name: Seq<char>)
    ensures
        find_col(header, name) == -1 ==> forall|k: int|
            0 <= k < header.len() ==> header[k] != name,
        find_col(header, name) != -1 ==> 0 <= find_col(header, name) < header.len()
            && header.index(find_col(header, name)) == name,
    decreases header.len(),
{
    if header.len() > 0 && header[0] != name {
        lemma_find_col(header.drop_first(), name);
        if find_col(header, name) == -1 {
            assert forall|k: int| 0 <= k < header.len() implies header[k] != name by {
                if k > 0 {
                    assert(header.drop_first()[k - 1] == header[k]);
                }
            }
        } else {
            assert(header.drop_first().index(find_col(header.drop_first(), name))
                == header.index(find_col(header, name)));
        }
    }
}

pub proof fn lemma_find_col_first(header: Seq<Seq<char>>, name: Seq<char>, i: int)
    requires
        0 <= i < header.len(),
        header[i] == name,
        forall|k: int| 0 <= k < i ==> header[k] != name,
    ensures
        find_col(header, name) == i,
    decreases header.len(),
{
    if i > 0 {
        assert(header[0] != name);
        assert(header.drop_first()[i - 1] == header[i]);
        assert(forall|k: int| 0 <= k < i - 1 ==> #[trigger] header.drop_first()[k] == header[k + 1]);
        lemma_find_col_first(header.drop_first(), name, i - 1);
    }
}

/// The named column exists and the row is wide enough to hold it.
pub open spec fn col_ok(header: Seq<Seq<char>>, row: Seq<Seq<char>>, name: Seq<char>) -> bool {
    0 <= find_col(header, name) < row.len()
}

/// The row's value under the first column of this name.
pub open spec fn col_val(header: Seq<Seq<char>>, row: Seq<Seq<char>>, name: Seq<char>) -> Seq<
    char,
> {
    row[find_col(header, name)]
}

/// Picks the row's value under the named column.
fn pick_col(header: &Vec<String>, row: &Vec<String>, name: &str) -> (r: Option<String>)
    ensures
        r matches Some(s) ==> col_ok(header.deep_view(), row.deep_view(), name@) && s@ == col_val(
            header.deep_view(),
            row.deep_view(),
            name@,
        ),
        r is Some <==> col_ok(header.deep_view(), row.deep_view(), name@),
{
    let ghost hd = header.deep_view();
    let target = name.to_owned();
    let mut i: usize = 0;
    while i < header.len()
        invariant
            i <= header.len(),
            hd == header.deep_view(),
            target@ == name@,
            forall|k: int| 0 <= k < i ==> hd[k] != name@,
        decreases header.len() - i,
    {
        if header[i] == target {
            proof {
                assert(hd[i as int] == name@);
                lemma_find_col_first(hd, name@, i as int);
            }
            if i < row.len() {
                let s = row[i].clone();
                proof {
                    assert(row.deep_view()[i as int] == row@[i as int]@);
                }
                return Some(s);
            } else {
                return None;
            }
        }
        i = i + 1;
    }
    proof {
        lemma_find_col(hd, name@);
        if find_col(hd, name@) != -1 {
            assert(hd[find_col(hd, name@)] == name@);
            assert(false);
        }
    }
    None
}

/// Whether every column of the fixed mapping is present in the header and
/// covered by the row.
pub open spec fn row_ok(header: Seq<Seq<char>>, row: Seq<Seq<char>>) -> bool {
    &&& col_ok(header, row, "原始链接"@)
    &&& col_ok(header, row, "案号"@)
    &&& col_ok(header, row, "案件名称"@)
    &&& col_ok(header, row, "法院"@)
    &&& col_ok(header, row, "所属地区"@)
    &&& col_ok(header, row, "案件类型"@)
    &&& col_ok(header, row, "审理程序"@)
    &&& col_ok(header, row, "裁判日期"@)
    &&& col_ok(header, row, "公开日期"@)
    &&& col_ok(header, row, "当事人"@)
    &&& col_ok(header, row, "案由"@)
    &&& col_ok(header, row, "法律依据"@)
    &&& col_ok(header, row, "全文"@)
}

/// One row decoded under the fixed column-name-to-field mapping; a row
/// that misses a column fails to decode, which is fatal for the run.
pub open spec fn row_case(header: Seq<Seq<char>>, row: Seq<Seq<char>>) -> Option<CaseView> {
    if row_ok(header, row) {
        Some(
            CaseView {
                doc_id: col_val(header, row, "原始链接"@),
                case_id: col_val(header, row, "案号"@),
                case_name: col_val(header, row, "案件名称"@),
                court: col_val(header, row, "法院"@),
                region: col_val(header, row, "所属地区"@),
                case_type: col_val(header, row, "案件类型"@),
                procedure: col_val(header, row, "审理程序"@),
                judgment_date: col_val(header, row, "裁判日期"@),
                public_date: col_val(header, row, "公开日期"@),
                parties: col_val(header, row, "当事人"@),
                cause: col_val(header, row, "案由"@),
                legal_basis: col_val(header, row, "法律依据"@),
                full_text: col_val(header, row, "全文"@),
            },
        )
    } else {
        None
    }
}

/// Decodes one table row into a record.
pub fn case_from_row(header: &Vec<String>, row: &Vec<String>) -> (r: Result<Case, IngestError>)
    ensures
        r matches Ok(c) ==> row_case(header.deep_view(), row.deep_view()) == Some(c@),
        r matches Err(e) ==> e == IngestError::BadTable && row_case(
            header.deep_view(),
            row.deep_view(),
        ) is None,
{
    let doc_id = match pick_col(header, row, "原始链接") {
        Some(s) => s,
        None => {
            return Err(IngestError::BadTable);
        },
    };
    let case_id = match pick_col(header, row, "案号") {
        Some(s) => s,
        None => {
            return Err(IngestError::BadTable);
        },
    };
    let case_name = match pick_col(header, row, "案件名称") {
        Some(s) => s,
        None => {
            return Err(IngestError::BadTable);
        },
    };
    let court = match pick_col(header, row, "法院") {
        Some(s) => s,
        None => {
            return Err(IngestError::BadTable);
        },
    };
    let region = match pick_col(header, row, "所属地区") {
        Some(s) => s,
        None => {
            return Err(IngestError::BadTable);
        },
    };
    let case_type = match pick_col(header, row, "案件类型") {
        Some(s) => s,
        None => {
            return Err(IngestError::BadTable);
        },
    };
    let procedure = match pick_col(header, row, "审理程序") {
        Some(s) => s,
        None => {
            return Err(IngestError::BadTable);
        },
    };
    let judgment_date = match pick_col(header, row, "裁判日期") {
        Some(s) => s,
        None => {
            return Err(IngestError::BadTable);
        },
    };
    let public_date = match pick_col(header, row, "公开日期") {
        Some(s) => s,
        None => {
            return Err(IngestError::BadTable);
        },
    };
    let parties = match pick_col(header, row, "当事人") {
        Some(s) => s,
        None => {
            return Err(IngestError::BadTable);
        },
    };
    let cause = match pick_col(header, row, "案由") {
        Some(s) => s,
        None => {
            return Err(IngestError::BadTable);
        },
    };
    let legal_basis = match pick_col(header, row, "法律依据") {
        Some(s) => s,
        None => {
            return Err(IngestError::BadTable);
        },
    };
    let full_text = match pick_col(header, row, "全文") {
        Some(s) => s,
        None => {
            return Err(IngestError::BadTable);
        },
    };
    Ok(
        Case {
            doc_id,
            case_id,
            case_name,
            court,
            region,
            case_type,
            procedure,
            judgment_date,
            public_date,
            parties,
            cause,
            legal_basis,
            full_text,
        },
    )
}

/// The records of one table: the first row is the header, every later row
/// must decode.
pub open spec fn table_cases_from(rows: Seq<Seq<Seq<char>>>, j: int) -> Option<Seq<CaseView>>
    recommends
        1 <= j <= rows.len(),
    decreases rows.len() - j,
{
    if j < 1 || j >= rows.len() {
        Some(Seq::empty())
    } else {
        match row_case(rows[0], rows[j]) {
            Some(cv) => match table_cases_from(rows, j + 1) {
                Some(rest) => Some(seq![cv] + rest),
                None => None,
            },
            None => None,
        }
    }
}

/// The records of one tabular entry; an empty table has none.
pub open spec fn table_cases(rows: Seq<Seq<Seq<char>>>) -> Option<Seq<CaseView>> {
    if rows.len() == 0 {
        Some(Seq::empty())
    } else {
        table_cases_from(rows, 1)
    }
}

/// Decodes a whole table: header row first, then one record per row.
pub fn cases_of_table(rows: &Vec<Vec<String>>) -> (r: Result<Vec<Case>, IngestError>)
    ensures
        r matches Ok(v) ==> table_cases(rows.deep_view()) == Some(v.deep_view()),
        r matches Err(e) ==> e == IngestError::BadTable && table_cases(rows.deep_view()) is None,
{
    let ghost rdv = rows.deep_view();
    let mut out: Vec<Case> = Vec::new();
    if rows.len() == 0 {
        proof {
            assert(out.deep_view() =~= Seq::<CaseView>::empty());
        }
        return Ok(out);
    }
    let mut j: usize = 1;
    while j < rows.len()
        invariant
            1 <= j <= rows.len(),
            rdv == rows.deep_view(),
            rdv.len() == rows@.len(),
            rdv.len() >= 1,
            table_cases_from(rdv, 1) matches Some(all) ==> (table_cases_from(rdv, j as int)
                matches Some(rest) && all == out.deep_view() + rest),
            table_cases_from(rdv, 1) is None <==> table_cases_from(rdv, j as int) is None,
        decreases rows.len() - j,
    {
        proof {
            assert(rdv[0] == rows@[0].deep_view());
            assert(rdv[j as int] == rows@[j as int].deep_view());
        }
        let ghost pre = out.deep_view();
        match case_from_row(&rows[0], &rows[j]) {
            Ok(c) => {
                out.push(c);
                j = j + 1;
                proof {
                    assert(out.deep_view() =~= pre.push(c@));
                    match table_cases_from(rdv, j as int) {
                        Some(rest) => {
                            assert(pre.push(c@) + rest =~= pre + (seq![c@] + rest));
                        },
                        None => {},
                    }
                }
            },
            Err(e) => {
                proof {
                    assert(row_case(rdv[0], rdv[j as int]) is None);
                    assert(table_cases_from(rdv, j as int) is None);
                }
                return Err(IngestError::BadTable);
            },
        }
    }
    proof {
        assert(table_cases_from(rdv, rdv.len() as int) == Some(Seq::<CaseView>::empty()));
        match table_cases_from(rdv, 1) {
            Some(all) => {
                assert(all =~= out.deep_view());
            },
            None => {},
        }
    }
    Ok(out)
}

/// Whether an entry name carries the tabular-data extension.
pub open spec fn is_csv_name(name: Seq<char>) -> bool {
    let n = name.len() as int;
    n >= 4 && name[n - 4] == '.' && name[n - 3] == 'c' && name[n - 2] == 's' && name[n - 1] == 'v'
}

/// Checks the tabular-data extension.
pub fn ends_with_csv(name: &str) -> (b: bool)
    ensures
        b == is_csv_name(name@),
{
    let v = crate::normalize::chars_of(name);
    let n = v.len();
    n >= 4 && v[n - 4] == '.' && v[n - 3] == 'c' && v[n - 2] == 's' && v[n - 1] == 'v'
}

/// The records of the archive's tabular entries from position `i` on,
/// in archive-then-entry-then-row order.
pub open spec fn entries_cases(data: Seq<u8>, names: Seq<Seq<char>>, i: int) -> Option<
    Seq<CaseView>,
>
    decreases names.len() - i,
{
    if i < 0 || i >= names.len() {
        Some(Seq::empty())
    } else if !is_csv_name(names[i]) {
        entries_cases(data, names, i + 1)
    } else {
        match zip_entry_of(data, i) {
            Some(bytes) => match csv_rows_of(bytes) {
                Some(rows) => match table_cases(rows) {
                    Some(cs) => match entries_cases(data, names, i + 1) {
                        Some(rest) => Some(cs + rest),
                        None => None,
                    },
                    None => None,
                },
                None => None,
            },
            None => None,
        }
    }
}

/// Every record the archive yields, or nothing when the archive or one of
/// its tables cannot be decoded.
pub open spec fn archive_cases(data: Seq<u8>) -> Option<Seq<CaseView>> {
    match zip_names_of(data) {
        Some(names) => entries_cases(data, names, 0),
        None => None,
    }
}

/// Reads one archive: the rows of every entry named like tabular data,
/// decoded into records, lazily per entry, in archive order.
pub fn read_archive_cases(data: &Vec<u8>) -> (r: Result<Vec<Case>, IngestError>)
    ensures
        r matches Ok(v) ==> archive_cases(data@) == Some(v.deep_view()),
        r matches Err(e) ==> archive_cases(data@) is None && (e == IngestError::BadArchive || e
            == IngestError::BadTable),
{
    let names = match zip_entry_names(data) {
        Some(n) => n,
        None => {
            return Err(IngestError::BadArchive);
        },
    };
    let ghost nd = names.deep_view();
    let mut out: Vec<Case> = Vec::new();
    let mut i: usize = 0;
    while i < names.len()
        invariant
            i <= names.len(),
            nd == names.deep_view(),
            nd.len() == names@.len(),
            zip_names_of(data@) == Some(nd),
            entries_cases(data@, nd, 0) matches Some(all) ==> (entries_cases(data@, nd, i as int)
                matches Some(rest) && all == out.deep_view() + rest),
            entries_cases(data@, nd, 0) is None <==> entries_cases(data@, nd, i as int) is None,
        decreases names.len() - i,
    {
        proof {
            assert(nd[i as int] == names@[i as int]@);
        }
        if ends_with_csv(names[i].as_str()) {
            let bytes = match zip_entry_bytes(data, i) {
                Some(b) => b,
                None => {
                    return Err(IngestError::BadArchive);
                },
            };
            let rows = match csv_rows(&bytes) {
                Some(rs) => rs,
                None => {
                    return Err(IngestError::BadTable);
                },
            };
            let mut cs = match cases_of_table(&rows) {
                Ok(cs) => cs,
                Err(e) => {
                    return Err(e);
                },
            };
            let ghost pre = out.deep_view();
            let ghost csd = cs.deep_view();
            out.append(&mut cs);
            i = i + 1;
            proof {
                assert(out.deep_view() =~~= pre + csd);
                match entries_cases(data@, nd, i as int) {
                    Some(rest) => {
                        assert((pre + csd) + rest =~= pre + (csd + rest));
                    },
                    None => {},
                }
            }
        } else {
            i = i + 1;
        }
    }
    proof {
        assert(entries_cases(data@, nd, nd.len() as int) == Some(Seq::<CaseView>::empty()));
        match entries_cases(data@, nd, 0) {
            Some(all) => {
                assert(all =~= out.deep_view());
            },
            None => {},
        }
    }
    Ok(out)
}

} // verus!
