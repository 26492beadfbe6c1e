//! The index schema: a stored numeric identifier, one tokenized text field
//! per textual attribute, and three numeric sub-fields decomposed from the
//! judgment date; plus the searcher settings the query engine runs with.
use vstd::prelude::*;

verus! {

/// A field of the index schema.
#[derive(Debug, PartialEq, Eq, Structural, Clone, Copy)]
pub enum Field {
    Id,
    CaseId,
    CaseName,
    Court,
    Region,
    CaseType,
    Procedure,
    JudgmentDate,
    Year,
    Month,
    Day,
    PublicDate,
    Parties,
    Cause,
    LegalBasis,
    FullText,
}

impl View for Field {
    type V = Field;

    open spec fn view(&self) -> Field {
        *self
    }
}

impl DeepView for Field {
    type V = Field;

    open spec fn deep_view(&self) -> Field {
        *self
    }
}

/// How a field is held by the index.
#[derive(Debug, PartialEq, Eq, Structural, Clone, Copy)]
pub enum FieldKind {
    /// Stored for retrieval, not tokenized: the identifier.
    StoredU64,
    /// Indexed as a number: the date sub-fields.
    IndexedU64,
    /// Run through the analyzer chain and indexed with frequencies and
    /// positions; not stored.
    TokenizedText,
}

/// One schema entry.
#[derive(Debug, PartialEq, Eq, Structural, Clone, Copy)]
pub struct FieldEntry {
    pub field: Field,
    pub kind: FieldKind,
}

/// The field list of the index.
#[derive(Debug)]
pub struct Schema {
    pub fields: Vec<FieldEntry>,
}

/// The fixed schema, in declaration order.
pub open spec fn spec_schema() -> Seq<FieldEntry> {
    seq![
        FieldEntry { field: Field::Id, kind: FieldKind::StoredU64 },
        FieldEntry { field: Field::CaseId, kind: FieldKind::TokenizedText },
        FieldEntry { field: Field::CaseName, kind: FieldKind::TokenizedText },
        FieldEntry { field: Field::Court, kind: FieldKind::TokenizedText },
        FieldEntry { field: Field::Region, kind: FieldKind::TokenizedText },
        FieldEntry { field: Field::CaseType, kind: FieldKind::TokenizedText },
        FieldEntry { field: Field::Procedure, kind: FieldKind::TokenizedText },
        FieldEntry { field: Field::JudgmentDate, kind: FieldKind::TokenizedText },
        FieldEntry { field: Field::Year, kind: FieldKind::IndexedU64 },
        FieldEntry { field: Field::Month, kind: FieldKind::IndexedU64 },
        FieldEntry { field: Field::Day, kind: FieldKind::IndexedU64 },
        FieldEntry { field: Field::PublicDate, kind: FieldKind::TokenizedText },
        FieldEntry { field: Field::Parties, kind: FieldKind::TokenizedText },
        FieldEntry { field: Field::Cause, kind: FieldKind::TokenizedText },
        FieldEntry { field: Field::LegalBasis, kind: FieldKind::TokenizedText },
        FieldEntry { field: Field::FullText, kind: FieldKind::TokenizedText },
    ]
}

/// The default fields a bare query term is matched against: every indexed
/// field except the identifier, with the full text only when configured.
pub open spec fn spec_default_fields(with_full_text: bool) -> Seq<Field> {
    let base = seq![
        Field::CaseId,
        Field::CaseName,
        Field::Court,
        Field::Region,
        Field::CaseType,
        Field::Cause,
        Field::LegalBasis,
        Field::Parties,
        Field::Procedure,
        Field::JudgmentDate,
        Field::Year,
        Field::Month,
        Field::Day,
        Field::PublicDate,
    ];
    if with_full_text {
        base.push(Field::FullText)
    } else {
        base
    }
}

/// The per-field relevance boosts: exact case-number and case-name matches
/// count for more than matches in narrative fields.
pub open spec fn spec_boosts() -> Seq<(Field, u64)> {
    seq![(Field::CaseId, 9u64), (Field::CaseName, 3u64)]
}

/// The query-side settings: default field set, conjunction by default, the
/// field boosts, and the stored identifier field.
#[derive(Debug)]
pub struct Searcher {
    pub default_fields: Vec<Field>,
    pub boosts: Vec<(Field, u64)>,
    /// Terms combine with AND; this is always set here, recording the
    /// conjunction default the engine's matching implements.
    pub conjunction: bool,
    /// The stored field results are keyed back to the document store by.
    pub id: Field,
}

impl Searcher {
    /// The settings are exactly the configured ones.
    pub open spec fn wf(&self, with_full_text: bool) -> bool {
        &&& self.default_fields.deep_view() == spec_default_fields(with_full_text)
        &&& self.boosts.deep_view() == spec_boosts()
        &&& self.conjunction
        &&& self.id == Field::Id
    }
}

/// The index engine's front door.
pub struct Tan;

impl Tan {
    /// The fixed schema.
    pub fn schema() -> (s: Schema)
        ensures
            s.fields@ == spec_schema(),
    {
        let mut fields: Vec<FieldEntry> = Vec::new();
        fields.push(FieldEntry { field: Field::Id, kind: FieldKind::StoredU64 });
        fields.push(FieldEntry { field: Field::CaseId, kind: FieldKind::TokenizedText });
        fields.push(FieldEntry { field: Field::CaseName, kind: FieldKind::TokenizedText });
        fields.push(FieldEntry { field: Field::Court, kind: FieldKind::TokenizedText });
        fields.push(FieldEntry { field: Field::Region, kind: FieldKind::TokenizedText });
        fields.push(FieldEntry { field: Field::CaseType, kind: FieldKind::TokenizedText });
        fields.push(FieldEntry { field: Field::Procedure, kind: FieldKind::TokenizedText });
        fields.push(FieldEntry { field: Field::JudgmentDate, kind: FieldKind::TokenizedText });
        fields.push(FieldEntry { field: Field::Year, kind: FieldKind::IndexedU64 });
        fields.push(FieldEntry { field: Field::Month, kind: FieldKind::IndexedU64 });
        fields.push(FieldEntry { field: Field::Day, kind: FieldKind::IndexedU64 });
        fields.push(FieldEntry { field: Field::PublicDate, kind: FieldKind::TokenizedText });
        fields.push(FieldEntry { field: Field::Parties, kind: FieldKind::TokenizedText });
        fields.push(FieldEntry { field: Field::Cause, kind: FieldKind::TokenizedText });
        fields.push(FieldEntry { field: Field::LegalBasis, kind: FieldKind::TokenizedText });
        fields.push(FieldEntry { field: Field::FullText, kind: FieldKind::TokenizedText });
        proof {
            assert(fields@ =~= spec_schema());
        }
        Schema { fields }
    }

    /// The query-side settings: conjunction by default, the narrative
    /// fields at weight one, case number boosted ninefold and case name
    /// threefold.
    pub fn searcher(with_full_text: bool) -> (s: Searcher)
        ensures
            s.wf(with_full_text),
    {
        let mut default_fields: Vec<Field> = Vec::new();
        default_fields.push(Field::CaseId);
        default_fields.push(Field::CaseName);
        default_fields.push(Field::Court);
        default_fields.push(Field::Region);
        default_fields.push(Field::CaseType);
        default_fields.push(Field::Cause);
        default_fields.push(Field::LegalBasis);
        default_fields.push(Field::Parties);
        default_fields.push(Field::Procedure);
        default_fields.push(Field::JudgmentDate);
        default_fields.push(Field::Year);
        default_fields.push(Field::Month);
        default_fields.push(Field::Day);
        default_fields.push(Field::PublicDate);
        if with_full_text {
            default_fields.push(Field::FullText);
        }
        let mut boosts: Vec<(Field, u64)> = Vec::new();
        boosts.push((Field::CaseId, 9));
        boosts.push((Field::CaseName, 3));
        proof {
            assert(default_fields.deep_view() =~= spec_default_fields(with_full_text));
            assert(boosts.deep_view() =~= spec_boosts());
        }
        Searcher { default_fields, boosts, conjunction: true, id: Field::Id }
    }
}

} // verus!
