use vstd::prelude::*;

pub mod codec;
pub mod controller;
pub mod digits;
pub mod index;
pub mod ingest;
pub mod normalize;
pub mod query;
pub mod reader;
pub mod schema;
pub mod store;

verus! {

/// One legal-case record: the unit of ingestion, storage, search and export.
///
/// The synthetic identifier is not a field: it is assigned by the ingestion
/// controller in corpus order and used as the key of the document store.
#[derive(Debug, PartialEq)]
pub struct Case {
    pub doc_id: String,
    pub case_id: String,
    pub case_name: String,
    pub court: String,
    pub region: String,
    pub case_type: String,
    pub procedure: String,
    pub judgment_date: String,
    pub public_date: String,
    pub parties: String,
    pub cause: String,
    pub legal_basis: String,
    pub full_text: String,
}

/// The mathematical view of a `Case`: each field as a sequence of characters.
pub ghost struct CaseView {
    pub doc_id: Seq<char>,
    pub case_id: Seq<char>,
    pub case_name: Seq<char>,
    pub court: Seq<char>,
    pub region: Seq<char>,
    pub case_type: Seq<char>,
    pub procedure: Seq<char>,
    pub judgment_date: Seq<char>,
    pub public_date: Seq<char>,
    pub parties: Seq<char>,
    pub cause: Seq<char>,
    pub legal_basis: Seq<char>,
    pub full_text: Seq<char>,
}

impl View for Case {
    type V = CaseView;

    open spec fn view(&self) -> CaseView {
        CaseView {
            doc_id: self.doc_id@,
            case_id: self.case_id@,
            case_name: self.case_name@,
            court: self.court@,
            region: self.region@,
            case_type: self.case_type@,
            procedure: self.procedure@,
            judgment_date: self.judgment_date@,
            public_date: self.public_date@,
            parties: self.parties@,
            cause: self.cause@,
            legal_basis: self.legal_basis@,
            full_text: self.full_text@,
        }
    }
}

impl DeepView for Case {
    type V = CaseView;

    open spec fn deep_view(&self) -> CaseView {
        self.view()
    }
}

impl Case {
    /// An empty record, the starting point when a parsed row is assembled.
    pub fn empty() -> (c: Case)
        ensures
            c@ == Case::empty_view(),
    {
        Case {
            doc_id: String::new(),
            case_id: String::new(),
            case_name: String::new(),
            court: String::new(),
            region: String::new(),
            case_type: String::new(),
            procedure: String::new(),
            judgment_date: String::new(),
            public_date: String::new(),
            parties: String::new(),
            cause: String::new(),
            legal_basis: String::new(),
            full_text: String::new(),
        }
    }

    pub open spec fn empty_view() -> CaseView {
        CaseView {
            doc_id: Seq::empty(),
            case_id: Seq::empty(),
            case_name: Seq::empty(),
            court: Seq::empty(),
            region: Seq::empty(),
            case_type: Seq::empty(),
            procedure: Seq::empty(),
            judgment_date: Seq::empty(),
            public_date: Seq::empty(),
            parties: Seq::empty(),
            cause: Seq::empty(),
            legal_basis: Seq::empty(),
            full_text: Seq::empty(),
        }
    }
}

/// Process-wide configuration, constructed once at startup and passed into
/// each component; the core never reads it from a global.
#[derive(Debug)]
pub struct Config {
    /// Location of the document store.
    pub db: String,
    /// Location of the search index.
    pub index_path: String,
    /// Whether the full text is indexed at all.
    pub index_with_full_text: bool,
    /// Address the serving layer binds to.
    pub addr: String,
    /// Directory of archived corpus files, when ingestion is run.
    pub raw_data_path: Option<String>,
    /// Ceiling on rows per export; a default applies when absent.
    pub export_limit: Option<usize>,
    /// Ceiling on the query offset; a default applies when absent.
    pub max_results: Option<usize>,
}

impl Config {
    /// The ceiling on rows per export request.
    pub fn export_ceiling(&self) -> (n: usize)
        ensures
            n == self.spec_export_ceiling(),
    {
        match self.export_limit {
            Some(n) => n,
            None => 10000,
        }
    }

    pub open spec fn spec_export_ceiling(&self) -> usize {
        match self.export_limit {
            Some(n) => n,
            None => 10000,
        }
    }

    /// The ceiling a query offset is clamped to.
    pub fn offset_ceiling(&self) -> (n: usize)
        ensures
            n == self.spec_offset_ceiling(),
    {
        match self.max_results {
            Some(n) => n,
            None => 50000,
        }
    }

    pub open spec fn spec_offset_ceiling(&self) -> usize {
        match self.max_results {
            Some(n) => n,
            None => 50000,
        }
    }
}

/// Everything the serving layer holds: the document store, the index
/// engine's committed snapshot, and the query-side settings.
pub struct AppState {
    pub db: store::Store,
    pub engine: index::IndexEngine,
    pub searcher: schema::Searcher,
}

/// Tuning knobs the document store partition is opened with.
#[derive(Debug, PartialEq, Eq, Structural)]
pub struct PartitionOptions {
    pub max_memtable_size: u64,
    pub separation_threshold: u64,
    pub file_target_size: u64,
}

/// The tuning the case partition uses: a large memtable, with key-value
/// separation for the long full-text values.
pub fn kv_sep_partition_option() -> (o: PartitionOptions)
    ensures
        o.max_memtable_size == 128_000_000u64,
        o.separation_threshold == 750u64,
        o.file_target_size == 256_000_000u64,
{
    PartitionOptions {
        max_memtable_size: 128_000_000,
        separation_threshold: 750,
        file_target_size: 256_000_000,
    }
}

} // verus!
