//! The index engine: documents are the analyzed projections of stored
//! records, submitted one at a time and made visible to searches by
//! commits on a cadence.
use crate::codec::decode_case;
use crate::codec::spec_dec_case;
use crate::digits::all_digits;
use crate::digits::dec_val;
use crate::digits::parse_u64_digits;
use crate::normalize::chars_of;
use crate::normalize::dash_segs;
use crate::normalize::folded_of;
use crate::normalize::fold_width;
use crate::normalize::remove_html_tags;
use crate::normalize::split_dashes;
use crate::normalize::split_words;
use crate::normalize::string_of;
use crate::normalize::stripped_of;
use crate::normalize::words_of;
use crate::schema::Field;
use crate::schema::Tan;
use crate::store::Store;
use crate::Case;
use crate::CaseView;
use vstd::prelude::*;
use vstd::string::*;
use vstd::utf8::encode_utf8;

verus! {

/// What the jieba segmenter returns for a text, in order; it depends on
/// the characters alone.
pub uninterp spec fn segments_of(text: Seq<char>) -> Seq<Seq<char>>;

/// Relies on tantivy-jieba's `JiebaTokenizer`: the segmentation of the
/// text, token texts in stream order.
#[verifier::external_body]
fn jieba_segment(text: &str) -> (r: Vec<String>)
    ensures
        r.deep_view() == segments_of(text@),
{
    let mut tokenizer = tantivy_jieba::JiebaTokenizer::new();
    let mut stream = tantivy_tokenizer_api::Tokenizer::token_stream(&mut tokenizer, text);
    let mut out: Vec<String> = Vec::new();
    while tantivy_tokenizer_api::TokenStream::advance(&mut stream) {
        out.push(tantivy_tokenizer_api::TokenStream::token(&stream).text.clone());
    }
    out
}

/// What `stop_words::get` returns for a language code: the built-in list,
/// embedded at compile time, a function of the code alone.
pub uninterp spec fn stopwords_of(lang: Seq<char>) -> Seq<Seq<char>>;

/// Relies on `stop_words::get`: the built-in stopword list for Chinese,
/// whose language code is "zh". The analyzer extends it with the
/// user-supplied custom words.
#[verifier::external_body]
fn chinese_stopwords() -> (r: Vec<String>)
    ensures
        r.deep_view() == stopwords_of("zh"@),
{
    stop_words::get(stop_words::Language::Chinese).iter().map(|w| w.to_string()).collect()
}

/// A token survives the analyzer's filters: not a stopword, and its UTF-8
/// form shorter than the degenerate-token byte limit.
pub open spec fn kept_token(stop: Seq<Seq<char>>, t: Seq<char>) -> bool {
    !stop.contains(t) && encode_utf8(t).len() < 40
}

pub open spec fn filter_tokens(stop: Seq<Seq<char>>, toks: Seq<Seq<char>>) -> Seq<Seq<char>>
    decreases toks.len(),
{
    if toks.len() == 0 {
        Seq::empty()
    } else if kept_token(stop, toks[0]) {
        seq![toks[0]] + filter_tokens(stop, toks.drop_first())
    } else {
        filter_tokens(stop, toks.drop_first())
    }
}

/// The analyzer chain: segmentation, then the stopword filter, then the
/// long-token filter.
pub open spec fn analyze_of(stop: Seq<Seq<char>>, text: Seq<char>) -> Seq<Seq<char>> {
    filter_tokens(stop, segments_of(text))
}

/// The terms of the query pieces, in order: each piece analyzed with the
/// field chain.
pub open spec fn terms_of_pieces(stop: Seq<Seq<char>>, pieces: Seq<Seq<char>>) -> Seq<Seq<char>>
    decreases pieces.len(),
{
    if pieces.len() == 0 {
        Seq::empty()
    } else {
        analyze_of(stop, pieces[0]) + terms_of_pieces(stop, pieces.drop_first())
    }
}

/// What a free-text query parses to: lenient, never failing -- the text is
/// width-folded, split on whitespace, and each piece analyzed.
pub open spec fn query_terms_of(stop: Seq<Seq<char>>, text: Seq<char>) -> Seq<Seq<char>> {
    terms_of_pieces(stop, words_of(folded_of(text)))
}

/// The stopword set and filters the tokenized fields run through.
#[derive(Debug)]
pub struct Analyzer {
    stopwords: Vec<String>,
}

fn contains_string(v: &Vec<String>, t: &String) -> (b: bool)
    ensures
        b == v.deep_view().contains(t@),
{
    let mut i: usize = 0;
    while i < v.len()
        invariant
            i <= v.len(),
            forall|k: int| 0 <= k < i ==> v.deep_view()[k] != t@,
        decreases v.len() - i,
    {
        if v[i].eq(t) {
            proof {
                assert(v.deep_view()[i as int] == t@);
            }
            return true;
        }
        i = i + 1;
    }
    proof {
        if v.deep_view().contains(t@) {
            let k = choose|k: int| 0 <= k < v.deep_view().len() && v.deep_view()[k] == t@;
            assert(false);
        }
    }
    false
}

impl Analyzer {
    pub closed spec fn spec_stopwords(&self) -> Seq<Seq<char>> {
        self.stopwords.deep_view()
    }

    /// Runs one text through the chain.
    pub fn analyze(&self, text: &str) -> (r: Vec<String>)
        ensures
            r.deep_view() == analyze_of(self.spec_stopwords(), text@),
    {
        let ghost stop = self.spec_stopwords();
        let segs = jieba_segment(text);
        let ghost sd = segs.deep_view();
        let mut out: Vec<String> = Vec::new();
        let mut i: usize = 0;
        proof {
            assert(sd.skip(0) =~= sd);
        }
        while i < segs.len()
            invariant
                i <= segs.len(),
                sd == segs.deep_view(),
                sd.len() == segs@.len(),
                stop == self.spec_stopwords(),
                out.deep_view() + filter_tokens(stop, sd.skip(i as int)) =~~= filter_tokens(
                    stop,
                    sd,
                ),
            decreases segs.len() - i,
        {
            proof {
                assert(sd.skip(i as int)[0] == sd[i as int]);
                assert(sd.skip(i as int).drop_first() =~= sd.skip(i + 1));
                assert(sd[i as int] == segs@[i as int]@);
            }
            let tok_bytes = segs[i].as_str().as_bytes_vec();
            proof {
                assert(tok_bytes@.len() == encode_utf8(sd[i as int]).len());
            }
            let keep = !contains_string(&self.stopwords, &segs[i]) && tok_bytes.len() < 40;
            if keep {
                let ghost pre = out.deep_view();
                let t = segs[i].clone();
                out.push(t);
                proof {
                    assert(out.deep_view() =~~= pre.push(sd[i - 0]));
                    assert(pre.push(sd[i as int]) + filter_tokens(stop, sd.skip(i + 1)) =~~= pre + (
                    seq![sd[i as int]] + filter_tokens(stop, sd.skip(i + 1))));
                }
            }
            i = i + 1;
        }
        proof {
            assert(sd.skip(sd.len() as int) =~= Seq::<Seq<char>>::empty());
            assert(out.deep_view() =~~= filter_tokens(stop, sd));
        }
        out
    }
}

/// One index document: the identifier, the analyzed tokens of each
/// non-empty text field, and the numeric date sub-fields.
#[derive(Debug)]
pub struct IndexDoc {
    pub id: u32,
    pub text: Vec<(Field, Vec<String>)>,
    pub nums: Vec<(Field, u64)>,
}

/// The view of an index document.
pub ghost struct DocView {
    pub id: u32,
    pub text: Seq<(Field, Seq<Seq<char>>)>,
    pub nums: Seq<(Field, u64)>,
}

impl View for IndexDoc {
    type V = DocView;

    open spec fn view(&self) -> DocView {
        DocView { id: self.id, text: self.text.deep_view(), nums: self.nums@ }
    }
}

impl DeepView for IndexDoc {
    type V = DocView;

    open spec fn deep_view(&self) -> DocView {
        self.view()
    }
}

/// The entry a text field contributes: nothing when the attribute is the
/// empty string, else its analyzed tokens.
pub open spec fn text_entry(stop: Seq<Seq<char>>, f: Field, text: Seq<char>) -> Seq<
    (Field, Seq<Seq<char>>),
> {
    if text.len() > 0 {
        seq![(f, analyze_of(stop, text))]
    } else {
        Seq::empty()
    }
}

/// A date segment indexes as a number exactly when it parses as one.
pub open spec fn seg_parses(s: Seq<char>) -> bool {
    all_digits(s) && s.len() <= 19
}

pub open spec fn num_entry(f: Field, segs: Seq<Seq<char>>, i: int) -> Seq<(Field, u64)> {
    if 0 <= i < segs.len() && seg_parses(segs[i]) {
        seq![(f, dec_val(segs[i]) as u64)]
    } else {
        Seq::empty()
    }
}

/// The numeric sub-fields decomposed from the judgment date: a sub-field
/// is added only when its segment parses; others are silently omitted.
pub open spec fn spec_date_nums(jd: Seq<char>) -> Seq<(Field, u64)> {
    if jd.len() == 0 {
        Seq::empty()
    } else {
        let segs = dash_segs(jd);
        num_entry(Field::Year, segs, 0) + num_entry(Field::Month, segs, 1) + num_entry(
            Field::Day,
            segs,
            2,
        )
    }
}

/// The text entries of a record's index document, in schema order; the
/// full text is stripped of its markup first and only indexed when
/// configured.
pub open spec fn spec_text_fields(stop: Seq<Seq<char>>, cv: CaseView, wft: bool) -> Seq<
    (Field, Seq<Seq<char>>),
> {
    text_entry(stop, Field::CaseId, cv.case_id) + text_entry(stop, Field::CaseName, cv.case_name)
        + text_entry(stop, Field::Court, cv.court) + text_entry(stop, Field::CaseType, cv.case_type)
        + text_entry(stop, Field::Procedure, cv.procedure) + text_entry(
        stop,
        Field::JudgmentDate,
        cv.judgment_date,
    ) + text_entry(stop, Field::PublicDate, cv.public_date) + text_entry(
        stop,
        Field::Parties,
        cv.parties,
    ) + text_entry(stop, Field::Cause, cv.cause) + text_entry(stop, Field::LegalBasis, cv.legal_basis)
        + (if wft {
        text_entry(stop, Field::FullText, stripped_of(cv.full_text))
    } else {
        Seq::empty()
    })
}

/// The index document of one record.
pub open spec fn spec_build_doc(stop: Seq<Seq<char>>, id: u32, cv: CaseView, wft: bool) -> DocView {
    DocView { id, text: spec_text_fields(stop, cv, wft), nums: spec_date_nums(cv.judgment_date) }
}

/// Why an index build aborts.
#[derive(Debug, PartialEq, Eq, Structural)]
pub enum IndexError {
    /// A stored record failed to decode.
    BadRecord,
}

/// The index engine model: documents in submission order, of which a
/// prefix is committed and visible to searches.
#[derive(Debug)]
pub struct IndexEngine {
    docs: Vec<IndexDoc>,
    committed: usize,
    analyzer: Analyzer,
    with_full_text: bool,
}

impl IndexEngine {
    /// Every document ever submitted, in order.
    pub closed spec fn doc_seq(&self) -> Seq<DocView> {
        self.docs.deep_view()
    }

    /// How many of them a search can see.
    pub closed spec fn committed_count(&self) -> int {
        self.committed as int
    }

    /// The searchable snapshot: the committed prefix.
    pub open spec fn committed_seq(&self) -> Seq<DocView> {
        self.doc_seq().take(self.committed_count())
    }

    pub closed spec fn spec_stopwords(&self) -> Seq<Seq<char>> {
        self.analyzer.spec_stopwords()
    }

    pub closed spec fn spec_with_full_text(&self) -> bool {
        self.with_full_text
    }

    pub open spec fn wf(&self) -> bool {
        0 <= self.committed_count() <= self.doc_seq().len()
    }

    /// The analyzer settings never change after construction.
    pub open spec fn same_settings(&self, other: &IndexEngine) -> bool {
        self.spec_stopwords() == other.spec_stopwords() && self.spec_with_full_text()
            == other.spec_with_full_text()
    }

    /// Submits one document; it stays invisible until the next commit.
    pub fn add_document(&mut self, doc: IndexDoc)
        requires
            old(self).wf(),
        ensures
            final(self).wf(),
            final(self).doc_seq() == old(self).doc_seq().push(doc@),
            final(self).committed_count() == old(self).committed_count(),
            final(self).same_settings(old(self)),
    {
        let ghost pre = self.docs.deep_view();
        self.docs.push(doc);
        proof {
            assert(self.docs.deep_view() =~= pre.push(doc@));
        }
    }

    /// Makes everything submitted so far durably visible to searches.
    pub fn commit(&mut self)
        requires
            old(self).wf(),
        ensures
            final(self).wf(),
            final(self).doc_seq() == old(self).doc_seq(),
            final(self).committed_count() == final(self).doc_seq().len(),
            final(self).same_settings(old(self)),
    {
        self.committed = self.docs.len();
    }

    /// Builds and submits the index document of one record.
    pub fn add_case(&mut self, id: u32, c: &Case)
        requires
            old(self).wf(),
        ensures
            final(self).wf(),
            final(self).doc_seq() == old(self).doc_seq().push(
                spec_build_doc(
                    old(self).spec_stopwords(),
                    id,
                    c@,
                    old(self).spec_with_full_text(),
                ),
            ),
            final(self).committed_count() == old(self).committed_count(),
            final(self).same_settings(old(self)),
    {
        let doc = build_doc(&self.analyzer, id, c, self.with_full_text);
        self.add_document(doc);
    }

    /// How many documents a search can see.
    pub fn committed_len(&self) -> (n: usize)
        requires
            self.wf(),
        ensures
            n == self.committed_count(),
            n <= self.doc_seq().len(),
    {
        self.committed
    }

    /// The committed document at one position.
    pub fn doc_at(&self, i: usize) -> (d: &IndexDoc)
        requires
            self.wf(),
            i < self.committed_count(),
        ensures
            d@ == self.committed_seq()[i as int],
    {
        &self.docs[i]
    }

    /// The query's terms: the text width-folded and split on whitespace,
    /// each piece run through the same analyzer chain the fields were
    /// indexed with.
    pub fn query_terms(&self, text: &str) -> (r: Vec<String>)
        ensures
            r.deep_view() == query_terms_of(self.spec_stopwords(), text@),
    {
        let ghost stop = self.spec_stopwords();
        let folded = fold_width(text);
        let fv = chars_of(folded.as_str());
        let pieces = split_words(&fv);
        let ghost pd = pieces.deep_view();
        let mut out: Vec<String> = Vec::new();
        let mut i: usize = 0;
        proof {
            assert(pd.skip(0) =~= pd);
        }
        while i < pieces.len()
            invariant
                i <= pieces.len(),
                pd == pieces.deep_view(),
                pd.len() == pieces@.len(),
                stop == self.spec_stopwords(),
                out.deep_view() + terms_of_pieces(stop, pd.skip(i as int)) =~~= terms_of_pieces(
                    stop,
                    pd,
                ),
            decreases pieces.len() - i,
        {
            proof {
                assert(pd.skip(i as int)[0] == pd[i as int]);
                assert(pd.skip(i as int).drop_first() =~= pd.skip(i + 1));
                assert(pd[i as int] == pieces@[i as int]@);
            }
            let piece = string_of(&pieces[i]);
            let mut toks = self.analyzer.analyze(piece.as_str());
            let ghost pre = out.deep_view();
            let ghost td = toks.deep_view();
            out.append(&mut toks);
            i = i + 1;
            proof {
                assert(out.deep_view() =~~= pre + td);
                assert((pre + td) + terms_of_pieces(stop, pd.skip(i as int)) =~~= pre + (td
                    + terms_of_pieces(stop, pd.skip(i as int))));
            }
        }
        proof {
            assert(pd.skip(pd.len() as int) =~= Seq::<Seq<char>>::empty());
            assert(out.deep_view() =~~= terms_of_pieces(stop, pd));
        }
        out
    }
}

fn push_text_entry(analyzer: &Analyzer, out: &mut Vec<(Field, Vec<String>)>, f: Field, s: &str)
    ensures
        final(out).deep_view() == old(out).deep_view() + text_entry(
            analyzer.spec_stopwords(),
            f,
            s@,
        ),
{
    let ghost pre = out.deep_view();
    if !s.is_empty() {
        let toks = analyzer.analyze(s);
        out.push((f, toks));
        proof {
            assert(out.deep_view() =~~= pre + text_entry(analyzer.spec_stopwords(), f, s@));
        }
    } else {
        proof {
            assert(out.deep_view() =~~= pre + text_entry(analyzer.spec_stopwords(), f, s@));
        }
    }
}

/// Builds the index document of one record.
fn build_doc(analyzer: &Analyzer, id: u32, c: &Case, wft: bool) -> (d: IndexDoc)
    ensures
        d@ == spec_build_doc(analyzer.spec_stopwords(), id, c@, wft),
{
    let ghost stop = analyzer.spec_stopwords();
    let mut text: Vec<(Field, Vec<String>)> = Vec::new();
    proof {
        assert(text.deep_view() =~~= Seq::<(Field, Seq<Seq<char>>)>::empty());
        assert(Seq::<(Field, Seq<Seq<char>>)>::empty() + text_entry(stop, Field::CaseId, c@.case_id)
            =~~= text_entry(stop, Field::CaseId, c@.case_id));
    }
    push_text_entry(analyzer, &mut text, Field::CaseId, c.case_id.as_str());
    push_text_entry(analyzer, &mut text, Field::CaseName, c.case_name.as_str());
    push_text_entry(analyzer, &mut text, Field::Court, c.court.as_str());
    push_text_entry(analyzer, &mut text, Field::CaseType, c.case_type.as_str());
    push_text_entry(analyzer, &mut text, Field::Procedure, c.procedure.as_str());
    push_text_entry(analyzer, &mut text, Field::JudgmentDate, c.judgment_date.as_str());
    push_text_entry(analyzer, &mut text, Field::PublicDate, c.public_date.as_str());
    push_text_entry(analyzer, &mut text, Field::Parties, c.parties.as_str());
    push_text_entry(analyzer, &mut text, Field::Cause, c.cause.as_str());
    push_text_entry(analyzer, &mut text, Field::LegalBasis, c.legal_basis.as_str());
    if wft {
        let stripped = remove_html_tags(c.full_text.as_str());
        push_text_entry(analyzer, &mut text, Field::FullText, stripped.as_str());
    }
    proof {
        assert(text.deep_view() =~~= spec_text_fields(stop, c@, wft));
    }
    let mut nums: Vec<(Field, u64)> = Vec::new();
    if !c.judgment_date.as_str().is_empty() {
        let segs = split_dashes(c.judgment_date.as_str());
        let ghost sg = dash_segs(c@.judgment_date);
        push_num_entry(&mut nums, Field::Year, &segs, 0);
        push_num_entry(&mut nums, Field::Month, &segs, 1);
        push_num_entry(&mut nums, Field::Day, &segs, 2);
        proof {
            assert(Seq::<(Field, u64)>::empty() + num_entry(Field::Year, sg, 0) =~= num_entry(
                Field::Year,
                sg,
                0,
            ));
            assert(nums@ =~= spec_date_nums(c@.judgment_date));
        }
    } else {
        proof {
            assert(nums@ =~= spec_date_nums(c@.judgment_date));
        }
    }
    let d = IndexDoc { id, text, nums };
    proof {
        assert(d@ == spec_build_doc(stop, id, c@, wft));
    }
    d
}

fn push_num_entry(out: &mut Vec<(Field, u64)>, f: Field, segs: &Vec<String>, i: usize)
    ensures
        final(out)@ == old(out)@ + num_entry(f, segs.deep_view(), i as int),
{
    let ghost pre = out@;
    if i < segs.len() {
        match parse_u64_digits(segs[i].as_str()) {
            Some(v) => {
                out.push((f, v));
                proof {
                    assert(segs.deep_view()[i as int] == segs@[i as int]@);
                    assert(dec_val(segs.deep_view()[i as int]) as u64 == v);
                    assert(out@ =~= pre + num_entry(f, segs.deep_view(), i as int));
                }
            },
            None => {
                proof {
                    assert(segs.deep_view()[i as int] == segs@[i as int]@);
                    assert(out@ =~= pre + num_entry(f, segs.deep_view(), i as int));
                }
            },
        }
    } else {
        proof {
            assert(out@ =~= pre + num_entry(f, segs.deep_view(), i as int));
        }
    }
}

impl Tan {
    /// Opens the engine: an empty index whose analyzer chain is the
    /// segmenter, the built-in Chinese stopword list extended with the
    /// user-supplied custom words in their given order, and the long-token
    /// filter.
    pub fn index(custom_stopwords: &str, with_full_text: bool) -> (e: IndexEngine)
        ensures
            e.wf(),
            e.doc_seq() == Seq::<DocView>::empty(),
            e.committed_count() == 0,
            e.spec_with_full_text() == with_full_text,
            e.spec_stopwords() == stopwords_of("zh"@) + words_of(custom_stopwords@),
    {
        let mut stop = chinese_stopwords();
        let customv = chars_of(custom_stopwords);
        let words = split_words(&customv);
        let ghost wd = words.deep_view();
        let mut i: usize = 0;
        proof {
            assert(stop.deep_view() + wd.take(0) =~~= stop.deep_view());
        }
        while i < words.len()
            invariant
                i <= words.len(),
                wd == words.deep_view(),
                wd.len() == words@.len(),
                stop.deep_view() =~~= stopwords_of("zh"@) + wd.take(i as int),
            decreases words.len() - i,
        {
            let ghost pre = stop.deep_view();
            let w = string_of(&words[i]);
            proof {
                assert(w@ == wd[i as int]);
            }
            stop.push(w);
            i = i + 1;
            proof {
                assert(stop.deep_view() =~~= pre.push(wd[i - 1]));
                assert(wd.take(i as int) =~= wd.take(i - 1).push(wd[i - 1]));
                assert((stopwords_of("zh"@) + wd.take(i - 1)).push(wd[i - 1]) =~~= stopwords_of(
                    "zh"@,
                ) + wd.take(i as int));
            }
        }
        let e = IndexEngine {
            docs: Vec::new(),
            committed: 0,
            analyzer: Analyzer { stopwords: stop },
            with_full_text,
        };
        proof {
            assert(e.doc_seq() =~= Seq::<DocView>::empty());
            assert(wd.take(wd.len() as int) =~= wd);
            assert(e.spec_stopwords() =~~= stopwords_of("zh"@) + words_of(custom_stopwords@));
        }
        e
    }
}

/// The index documents of a whole store, in key order; nothing when some
/// stored record fails to decode.
pub open spec fn docs_of_store(
    stop: Seq<Seq<char>>,
    entries: Seq<crate::store::StoreEntry>,
    wft: bool,
) -> Option<Seq<DocView>>
    decreases entries.len(),
{
    if entries.len() == 0 {
        Some(Seq::empty())
    } else {
        match spec_dec_case(entries[0].1) {
            Some(cv) => match docs_of_store(stop, entries.drop_first(), wft) {
                Some(rest) => Some(seq![spec_build_doc(stop, entries[0].0, cv, wft)] + rest),
                None => None,
            },
            None => None,
        }
    }
}

/// Feeds every stored record to the index in key order, committing every
/// `cadence` identifiers and once more at the end, so the whole store is
/// visible afterwards.
pub fn build_from_store(engine: &mut IndexEngine, store: &Store, cadence: u32) -> (r: Result<
    (),
    IndexError,
>)
    requires
        old(engine).wf(),
        store.wf(),
        cadence >= 1,
    ensures
        r is Ok ==> (docs_of_store(
            old(engine).spec_stopwords(),
            store.entries_seq(),
            old(engine).spec_with_full_text(),
        ) matches Some(ds) && {
            &&& final(engine).wf()
            &&& final(engine).doc_seq() == old(engine).doc_seq() + ds
            &&& final(engine).committed_count() == final(engine).doc_seq().len()
            &&& final(engine).same_settings(old(engine))
        }),
        r is Err ==> docs_of_store(
            old(engine).spec_stopwords(),
            store.entries_seq(),
            old(engine).spec_with_full_text(),
        ) is None,
{
    let ghost stop = old(engine).spec_stopwords();
    let ghost wft = old(engine).spec_with_full_text();
    let ghost se = store.entries_seq();
    let n = store.record_count();
    let mut i: usize = 0;
    let ghost base = old(engine).doc_seq();
    proof {
        assert(se.skip(0) =~= se);
        assert(base + Seq::<DocView>::empty() =~= base);
    }
    while i < n
        invariant
            i <= n,
            n == se.len(),
            se == store.entries_seq(),
            store.wf(),
            cadence >= 1,
            engine.wf(),
            engine.same_settings(old(engine)),
            stop == old(engine).spec_stopwords(),
            wft == old(engine).spec_with_full_text(),
            base == old(engine).doc_seq(),
            docs_of_store(stop, se.skip(i as int), wft) matches Some(rest) ==> (docs_of_store(
                stop,
                se,
                wft,
            ) matches Some(all) && base + all == engine.doc_seq() + rest),
            docs_of_store(stop, se.skip(i as int), wft) is None ==> docs_of_store(
                stop,
                se,
                wft,
            ) is None,
        decreases n - i,
    {
        let (id, bytes) = store.entry_at(i);
        proof {
            assert(se.skip(i as int)[0] == se[i as int]);
            assert(se.skip(i as int).drop_first() =~= se.skip(i + 1));
        }
        let c = match decode_case(&bytes) {
            Some(c) => c,
            None => {
                return Err(IndexError::BadRecord);
            },
        };
        let ghost pred = engine.doc_seq();
        engine.add_case(id, &c);
        if id % cadence == 0 {
            engine.commit();
        }
        i = i + 1;
        proof {
            match docs_of_store(stop, se.skip(i as int), wft) {
                Some(rest) => {
                    assert(engine.doc_seq() + rest =~= pred + (seq![
                        spec_build_doc(stop, id, c@, wft),
                    ] + rest));
                },
                None => {},
            }
        }
    }
    engine.commit();
    proof {
        assert(se.skip(se.len() as int) =~= Seq::<crate::store::StoreEntry>::empty());
        match docs_of_store(stop, se, wft) {
            Some(all) => {
                assert(engine.doc_seq() + Seq::<DocView>::empty() =~= engine.doc_seq());
                assert(final(engine).doc_seq() =~= base + all);
            },
            None => {},
        }
    }
    Ok(())
}

} // verus!
