//! The query engine: terms combine by conjunction over the default field
//! set, documents score by term frequency weighted with the field boosts,
//! and results come back ranked, paginated, with an exact total count.
use crate::digits::all_digits;
use crate::digits::dec_val;
use crate::digits::parse_u64_digits;
use crate::index::query_terms_of;
use crate::index::DocView;
use crate::index::IndexDoc;
use crate::index::IndexEngine;
use crate::schema::Field;
use crate::schema::Searcher;
use vstd::prelude::*;

verus! {

/// The tokens the document holds in one field: the field's first entry.
pub open spec fn field_tokens(entries: Seq<(Field, Seq<Seq<char>>)>, f: Field) -> Seq<Seq<char>>
    decreases entries.len(),
{
    if entries.len() == 0 {
        Seq::empty()
    } else if entries[0].0 == f {
        entries[0].1
    } else {
        field_tokens(entries.drop_first(), f)
    }
}

/// The document's numeric value in one field, if any.
pub open spec fn num_value(nums: Seq<(Field, u64)>, f: Field) -> Option<u64>
    decreases nums.len(),
{
    if nums.len() == 0 {
        None
    } else if nums[0].0 == f {
        Some(nums[0].1)
    } else {
        num_value(nums.drop_first(), f)
    }
}

/// A field's boost; an unlisted field weighs one.
pub open spec fn boost_of(boosts: Seq<(Field, u64)>, f: Field) -> u64
    decreases boosts.len(),
{
    if boosts.len() == 0 {
        1
    } else if boosts[0].0 == f {
        boosts[0].1
    } else {
        boost_of(boosts.drop_first(), f)
    }
}

/// How often the term occurs among the tokens.
pub open spec fn count_tok(toks: Seq<Seq<char>>, t: Seq<char>) -> int
    decreases toks.len(),
{
    if toks.len() == 0 {
        0
    } else {
        (if toks[0] == t {
            1int
        } else {
            0int
        }) + count_tok(toks.drop_first(), t)
    }
}

/// A term matches a field when it occurs among the field's tokens, or,
/// for the numeric sub-fields, when it reads as the field's number.
pub open spec fn term_in_field(d: DocView, f: Field, t: Seq<char>) -> bool {
    field_tokens(d.text, f).contains(t) || (all_digits(t) && t.len() <= 19 && num_value(d.nums, f)
        == Some(dec_val(t) as u64))
}

pub open spec fn term_in_doc(d: DocView, fields: Seq<Field>, t: Seq<char>) -> bool {
    exists|k: int| 0 <= k < fields.len() && term_in_field(d, #[trigger] fields[k], t)
}

/// Conjunction: the document matches when every term matches somewhere in
/// the default fields; an empty query matches nothing.
pub open spec fn doc_matches(d: DocView, fields: Seq<Field>, terms: Seq<Seq<char>>) -> bool {
    terms.len() > 0 && forall|j: int|
        0 <= j < terms.len() ==> term_in_doc(d, fields, #[trigger] terms[j])
}

/// One term's contribution in one field: boost times term frequency.
pub open spec fn field_score(d: DocView, f: Field, boosts: Seq<(Field, u64)>, t: Seq<char>) -> int {
    boost_of(boosts, f) * count_tok(field_tokens(d.text, f), t)
}

pub open spec fn score_over_fields(
    d: DocView,
    fields: Seq<Field>,
    boosts: Seq<(Field, u64)>,
    t: Seq<char>,
) -> int
    decreases fields.len(),
{
    if fields.len() == 0 {
        0
    } else {
        field_score(d, fields[0], boosts, t) + score_over_fields(d, fields.drop_first(), boosts, t)
    }
}

/// The document's relevance: term frequency weighted by field boost,
/// summed over terms and default fields.
pub open spec fn doc_score(
    d: DocView,
    fields: Seq<Field>,
    boosts: Seq<(Field, u64)>,
    terms: Seq<Seq<char>>,
) -> int
    decreases terms.len(),
{
    if terms.len() == 0 {
        0
    } else {
        score_over_fields(d, fields, boosts, terms[0]) + doc_score(
            d,
            fields,
            boosts,
            terms.drop_first(),
        )
    }
}

/// A mathematical score clamped into the machine score.
pub open spec fn capped(x: int) -> u64 {
    if x > u64::MAX {
        u64::MAX
    } else if x < 0 {
        0
    } else {
        x as u64
    }
}

proof fn lemma_mul_le(a: int, b: int, ca: int, cb: int)
    by (nonlinear_arith)
    requires
        0 <= a <= ca,
        0 <= b <= cb,
    ensures
        a * b <= ca * cb,
{
}

proof fn lemma_mul_nonneg(a: int, b: int)
    by (nonlinear_arith)
    requires
        a >= 0,
        b >= 0,
    ensures
        a * b >= 0,
{
}

pub proof fn lemma_count_nonneg(toks: Seq<Seq<char>>, t: Seq<char>)
    ensures
        0 <= count_tok(toks, t) <= toks.len(),
    decreases toks.len(),
{
    if toks.len() > 0 {
        lemma_count_nonneg(toks.drop_first(), t);
    }
}

pub proof fn lemma_score_over_fields_nonneg(
    d: DocView,
    fields: Seq<Field>,
    boosts: Seq<(Field, u64)>,
    t: Seq<char>,
)
    ensures
        score_over_fields(d, fields, boosts, t) >= 0,
    decreases fields.len(),
{
    if fields.len() > 0 {
        lemma_count_nonneg(field_tokens(d.text, fields[0]), t);
        lemma_mul_nonneg(
            boost_of(boosts, fields[0]) as int,
            count_tok(field_tokens(d.text, fields[0]), t),
        );
        lemma_score_over_fields_nonneg(d, fields.drop_first(), boosts, t);
    }
}

pub proof fn lemma_doc_score_nonneg(
    d: DocView,
    fields: Seq<Field>,
    boosts: Seq<(Field, u64)>,
    terms: Seq<Seq<char>>,
)
    ensures
        doc_score(d, fields, boosts, terms) >= 0,
    decreases terms.len(),
{
    if terms.len() > 0 {
        lemma_score_over_fields_nonneg(d, fields, boosts, terms[0]);
        lemma_doc_score_nonneg(d, fields, boosts, terms.drop_first());
    }
}

proof fn lemma_capped_add(x: int, y: int)
    requires
        x >= 0,
        y >= 0,
    ensures
        capped(capped(x) as int + capped(y) as int) == capped(x + y),
{
}

/// Saturating addition, exact against the clamped mathematical sum.
fn sat_add(a: u64, b: u64) -> (r: u64)
    ensures
        r == capped(a as int + b as int),
{
    if a > u64::MAX - b {
        u64::MAX
    } else {
        a + b
    }
}

/// Saturating multiplication, exact against the clamped product.
fn sat_mul(a: u64, b: u64) -> (r: u64)
    ensures
        r == capped(a as int * b as int),
{
    proof {
        lemma_mul_le(a as int, b as int, u64::MAX as int, u64::MAX as int);
        lemma_mul_nonneg(a as int, b as int);
    }
    let p = (a as u128) * (b as u128);
    if p > u64::MAX as u128 {
        u64::MAX
    } else {
        p as u64
    }
}

/// Looks a field's boost up.
fn boost_lookup(boosts: &Vec<(Field, u64)>, f: Field) -> (r: u64)
    ensures
        r == boost_of(boosts@, f),
{
    let ghost bd = boosts@;
    let mut i: usize = 0;
    proof {
        assert(bd.skip(0) =~= bd);
    }
    while i < boosts.len()
        invariant
            i <= boosts.len(),
            bd == boosts@,
            boost_of(bd, f) == boost_of(bd.skip(i as int), f),
        decreases boosts.len() - i,
    {
        proof {
            assert(bd.skip(i as int)[0] == bd[i as int]);
            assert(bd.skip(i as int).drop_first() =~= bd.skip(i + 1));
        }
        if boosts[i].0 == f {
            return boosts[i].1;
        }
        i = i + 1;
    }
    proof {
        assert(bd.skip(bd.len() as int) =~= Seq::<(Field, u64)>::empty());
    }
    1
}

/// The term frequency of one term in one field of a document.
fn count_in_field(d: &IndexDoc, f: Field, t: &String) -> (c: usize)
    ensures
        c == count_tok(field_tokens(d@.text, f), t@),
{
    let ghost td = d.text.deep_view();
    let mut i: usize = 0;
    proof {
        assert(td.skip(0) =~= td);
        lemma_count_nonneg(field_tokens(td, f), t@);
    }
    while i < d.text.len()
        invariant
            i <= d.text.len(),
            td == d.text.deep_view(),
            td.len() == d.text@.len(),
            field_tokens(td, f) == field_tokens(td.skip(i as int), f),
        decreases d.text.len() - i,
    {
        proof {
            assert(td.skip(i as int)[0] == td[i as int]);
            assert(td.skip(i as int).drop_first() =~= td.skip(i + 1));
            assert(td[i as int].0 == d.text@[i as int].0);
        }
        if d.text[i].0 == f {
            let toks = &d.text[i].1;
            let ghost tv = toks.deep_view();
            proof {
                assert(tv == td[i as int].1);
                assert(field_tokens(td, f) == tv);
                assert(tv.skip(0) =~= tv);
            }
            let mut c: usize = 0;
            let mut j: usize = 0;
            while j < toks.len()
                invariant
                    j <= toks.len(),
                    c <= j,
                    tv == toks.deep_view(),
                    tv.len() == toks@.len(),
                    count_tok(tv, t@) == c + count_tok(tv.skip(j as int), t@),
                decreases toks.len() - j,
            {
                proof {
                    assert(tv.skip(j as int)[0] == tv[j as int]);
                    assert(tv.skip(j as int).drop_first() =~= tv.skip(j + 1));
                    assert(tv[j as int] == toks@[j as int]@);
                }
                if toks[j].eq(t) {
                    c = c + 1;
                }
                j = j + 1;
            }
            proof {
                assert(tv.skip(tv.len() as int) =~= Seq::<Seq<char>>::empty());
            }
            return c;
        }
        i = i + 1;
    }
    proof {
        assert(td.skip(td.len() as int) =~= Seq::<(Field, Seq<Seq<char>>)>::empty());
    }
    0
}

/// The document's numeric value in one field.
fn num_lookup(d: &IndexDoc, f: Field) -> (r: Option<u64>)
    ensures
        r == num_value(d@.nums, f),
{
    let ghost nd = d.nums@;
    let mut i: usize = 0;
    proof {
        assert(nd.skip(0) =~= nd);
    }
    while i < d.nums.len()
        invariant
            i <= d.nums.len(),
            nd == d.nums@,
            num_value(nd, f) == num_value(nd.skip(i as int), f),
        decreases d.nums.len() - i,
    {
        proof {
            assert(nd.skip(i as int)[0] == nd[i as int]);
            assert(nd.skip(i as int).drop_first() =~= nd.skip(i + 1));
        }
        if d.nums[i].0 == f {
            return Some(d.nums[i].1);
        }
        i = i + 1;
    }
    proof {
        assert(nd.skip(nd.len() as int) =~= Seq::<(Field, u64)>::empty());
    }
    None
}

/// Whether one term matches the document in one field.
fn term_in_field_exec(d: &IndexDoc, f: Field, t: &String) -> (b: bool)
    ensures
        b == term_in_field(d@, f, t@),
{
    let c = count_in_field(d, f, t);
    proof {
        lemma_count_contains(field_tokens(d@.text, f), t@);
    }
    if c > 0 {
        return true;
    }
    match parse_u64_digits(t.as_str()) {
        Some(v) => {
            match num_lookup(d, f) {
                Some(w) => v == w,
                None => false,
            }
        },
        None => false,
    }
}

/// A term occurs among tokens exactly when its count is positive.
proof fn lemma_count_contains(toks: Seq<Seq<char>>, t: Seq<char>)
    ensures
        toks.contains(t) <==> count_tok(toks, t) > 0,
    decreases toks.len(),
{
    lemma_count_nonneg(toks, t);
    if toks.len() > 0 {
        lemma_count_contains(toks.drop_first(), t);
        lemma_count_nonneg(toks.drop_first(), t);
        if toks[0] == t {
            assert(toks.contains(t)) by {
                assert(toks[0] == t);
            }
            assert(count_tok(toks, t) > 0);
        } else {
            if toks.contains(t) {
                let k = choose|k: int| 0 <= k < toks.len() && toks[k] == t;
                assert(k > 0);
                assert(toks.drop_first()[k - 1] == t);
                assert(toks.drop_first().contains(t));
            }
            if count_tok(toks, t) > 0 {
                assert(count_tok(toks.drop_first(), t) > 0);
                let k = choose|k: int|
                    0 <= k < toks.drop_first().len() && toks.drop_first()[k] == t;
                assert(toks[k + 1] == t);
                assert(toks.contains(t));
            }
        }
    }
}

/// Whether one term matches the document in any of the fields.
fn term_in_doc_exec(d: &IndexDoc, fields: &Vec<Field>, t: &String) -> (b: bool)
    ensures
        b == term_in_doc(d@, fields@, t@),
{
    let mut k: usize = 0;
    while k < fields.len()
        invariant
            k <= fields.len(),
            forall|l: int| 0 <= l < k ==> !term_in_field(d@, #[trigger] fields@[l], t@),
        decreases fields.len() - k,
    {
        if term_in_field_exec(d, fields[k], t) {
            return true;
        }
        k = k + 1;
    }
    false
}

/// Whether the document matches the whole conjunction.
fn doc_matches_exec(d: &IndexDoc, fields: &Vec<Field>, terms: &Vec<String>) -> (b: bool)
    ensures
        b == doc_matches(d@, fields@, terms.deep_view()),
{
    if terms.len() == 0 {
        return false;
    }
    let mut j: usize = 0;
    while j < terms.len()
        invariant
            j <= terms.len(),
            terms@.len() > 0,
            forall|l: int| 0 <= l < j ==> term_in_doc(d@, fields@, #[trigger] terms.deep_view()[l]),
        decreases terms.len() - j,
    {
        proof {
            assert(terms.deep_view()[j as int] == terms@[j as int]@);
        }
        if !term_in_doc_exec(d, fields, &terms[j]) {
            return false;
        }
        j = j + 1;
    }
    true
}

proof fn lemma_score_fields_snoc(
    d: DocView,
    fields: Seq<Field>,
    boosts: Seq<(Field, u64)>,
    t: Seq<char>,
    f: Field,
)
    ensures
        score_over_fields(d, fields.push(f), boosts, t) == score_over_fields(d, fields, boosts, t)
            + field_score(d, f, boosts, t),
    decreases fields.len(),
{
    if fields.len() == 0 {
        assert(fields.push(f)[0] == f);
        assert(fields.push(f).drop_first() =~= Seq::<Field>::empty());
        assert(score_over_fields(d, Seq::<Field>::empty(), boosts, t) == 0);
        assert(score_over_fields(d, fields.push(f), boosts, t) == field_score(d, f, boosts, t));
    } else {
        assert(fields.push(f)[0] == fields[0]);
        assert(fields.push(f).drop_first() =~= fields.drop_first().push(f));
        lemma_score_fields_snoc(d, fields.drop_first(), boosts, t, f);
        assert(score_over_fields(d, fields.push(f), boosts, t) == field_score(
            d,
            fields[0],
            boosts,
            t,
        ) + score_over_fields(d, fields.drop_first().push(f), boosts, t));
    }
}

proof fn lemma_doc_score_snoc(
    d: DocView,
    fields: Seq<Field>,
    boosts: Seq<(Field, u64)>,
    terms: Seq<Seq<char>>,
    t: Seq<char>,
)
    ensures
        doc_score(d, fields, boosts, terms.push(t)) == doc_score(d, fields, boosts, terms)
            + score_over_fields(d, fields, boosts, t),
    decreases terms.len(),
{
    if terms.len() == 0 {
        assert(terms.push(t)[0] == t);
        assert(terms.push(t).drop_first() =~= Seq::<Seq<char>>::empty());
        assert(doc_score(d, fields, boosts, Seq::<Seq<char>>::empty()) == 0);
        assert(doc_score(d, fields, boosts, terms.push(t)) == score_over_fields(
            d,
            fields,
            boosts,
            t,
        ));
    } else {
        assert(terms.push(t)[0] == terms[0]);
        assert(terms.push(t).drop_first() =~= terms.drop_first().push(t));
        lemma_doc_score_snoc(d, fields, boosts, terms.drop_first(), t);
        assert(doc_score(d, fields, boosts, terms.push(t)) == score_over_fields(
            d,
            fields,
            boosts,
            terms[0],
        ) + doc_score(d, fields, boosts, terms.drop_first().push(t)));
    }
}

/// The document's machine score: the mathematical score clamped.
fn score_doc(d: &IndexDoc, fields: &Vec<Field>, boosts: &Vec<(Field, u64)>, terms: &Vec<String>)
    -> (r: u64)
    ensures
        r == capped(doc_score(d@, fields@, boosts@, terms.deep_view())),
{
    let ghost tds = terms.deep_view();
    let mut acc: u64 = 0;
    let mut j: usize = 0;
    proof {
        assert(tds.take(0) =~= Seq::<Seq<char>>::empty());
    }
    while j < terms.len()
        invariant
            j <= terms.len(),
            tds == terms.deep_view(),
            tds.len() == terms@.len(),
            acc == capped(doc_score(d@, fields@, boosts@, tds.take(j as int))),
        decreases terms.len() - j,
    {
        let t = &terms[j];
        let ghost fds = fields@;
        let mut facc: u64 = 0;
        let mut k: usize = 0;
        proof {
            assert(fds.take(0) =~= Seq::<Field>::empty());
        }
        while k < fields.len()
            invariant
                k <= fields.len(),
                fds == fields@,
                j < terms@.len(),
                t == &terms@[j as int],
                facc == capped(score_over_fields(d@, fds.take(k as int), boosts@, t@)),
            decreases fields.len() - k,
        {
            let b = boost_lookup(boosts, fields[k]);
            let c = count_in_field(d, fields[k], t);
            let weighted = sat_mul(b, c as u64);
            proof {
                lemma_count_nonneg(field_tokens(d@.text, fds[k as int]), t@);
                lemma_score_over_fields_nonneg(d@, fds.take(k as int), boosts@, t@);
                lemma_mul_nonneg(
                    boost_of(boosts@, fds[k as int]) as int,
                    count_tok(field_tokens(d@.text, fds[k as int]), t@),
                );
                lemma_capped_add(
                    score_over_fields(d@, fds.take(k as int), boosts@, t@),
                    field_score(d@, fds[k as int], boosts@, t@),
                );
                lemma_score_fields_snoc(d@, fds.take(k as int), boosts@, t@, fds[k as int]);
                assert(fds.take(k + 1) =~= fds.take(k as int).push(fds[k as int]));
            }
            facc = sat_add(facc, weighted);
            k = k + 1;
        }
        proof {
            assert(fds.take(fds.len() as int) =~= fds);
            lemma_doc_score_nonneg(d@, fds, boosts@, tds.take(j as int));
            lemma_score_over_fields_nonneg(d@, fds, boosts@, t@);
            lemma_capped_add(
                doc_score(d@, fds, boosts@, tds.take(j as int)),
                score_over_fields(d@, fds, boosts@, t@),
            );
            lemma_doc_score_snoc(d@, fds, boosts@, tds.take(j as int), t@);
            assert(tds[j as int] == terms@[j as int]@);
            assert(tds.take(j + 1) =~= tds.take(j as int).push(tds[j as int]));
        }
        acc = sat_add(acc, facc);
        j = j + 1;
    }
    proof {
        assert(tds.take(tds.len() as int) =~= tds);
    }
    acc
}

/// The matching documents, each as its clamped score and identifier, in
/// committed order.
pub open spec fn candidates(
    docs: Seq<DocView>,
    fields: Seq<Field>,
    boosts: Seq<(Field, u64)>,
    terms: Seq<Seq<char>>,
) -> Seq<(u64, u32)>
    decreases docs.len(),
{
    if docs.len() == 0 {
        Seq::empty()
    } else {
        let rest = candidates(docs.drop_first(), fields, boosts, terms);
        if doc_matches(docs[0], fields, terms) {
            seq![(capped(doc_score(docs[0], fields, boosts, terms)), docs[0].id)] + rest
        } else {
            rest
        }
    }
}

/// Every candidate is the clamped score and identifier of some matching
/// document of the snapshot.
pub open spec fn is_hit_of(
    docs: Seq<DocView>,
    fields: Seq<Field>,
    boosts: Seq<(Field, u64)>,
    terms: Seq<Seq<char>>,
    h: (u64, u32),
) -> bool {
    exists|l: int|
        0 <= l < docs.len() && doc_matches(#[trigger] docs[l], fields, terms) && h == (
        capped(doc_score(docs[l], fields, boosts, terms)),
        docs[l].id,
        )
}

pub proof fn lemma_candidates_hits(
    docs: Seq<DocView>,
    fields: Seq<Field>,
    boosts: Seq<(Field, u64)>,
    terms: Seq<Seq<char>>,
)
    ensures
        forall|k: int|
            0 <= k < candidates(docs, fields, boosts, terms).len() ==> is_hit_of(
                docs,
                fields,
                boosts,
                terms,
                #[trigger] candidates(docs, fields, boosts, terms)[k],
            ),
    decreases docs.len(),
{
    if docs.len() > 0 {
        lemma_candidates_hits(docs.drop_first(), fields, boosts, terms);
        let cs = candidates(docs, fields, boosts, terms);
        let rest = candidates(docs.drop_first(), fields, boosts, terms);
        assert forall|k: int| 0 <= k < cs.len() implies is_hit_of(
            docs,
            fields,
            boosts,
            terms,
            #[trigger] cs[k],
        ) by {
            if doc_matches(docs[0], fields, terms) && k == 0 {
                assert(docs[0] == docs.index(0));
            } else {
                let kk = if doc_matches(docs[0], fields, terms) {
                    k - 1
                } else {
                    k
                };
                assert(is_hit_of(docs.drop_first(), fields, boosts, terms, rest[kk]));
                let l = choose|l: int|
                    0 <= l < docs.drop_first().len() && doc_matches(
                        #[trigger] docs.drop_first()[l],
                        fields,
                        terms,
                    ) && rest[kk] == (
                    capped(doc_score(docs.drop_first()[l], fields, boosts, terms)),
                    docs.drop_first()[l].id,
                    );
                assert(docs[l + 1] == docs.drop_first()[l]);
            }
        }
    }
}

/// The position of the first best-scored hit.
pub open spec fn best_idx(s: Seq<(u64, u32)>) -> int
    decreases s.len(),
{
    if s.len() <= 1 {
        0
    } else {
        let r = 1 + best_idx(s.drop_first());
        if s[0].0 >= s[r].0 {
            0
        } else {
            r
        }
    }
}

pub proof fn lemma_best_idx(s: Seq<(u64, u32)>)
    requires
        s.len() > 0,
    ensures
        0 <= best_idx(s) < s.len(),
        forall|k: int| 0 <= k < s.len() ==> (#[trigger] s[k]).0 <= s[best_idx(s)].0,
        forall|k: int| 0 <= k < best_idx(s) ==> (#[trigger] s[k]).0 < s[best_idx(s)].0,
    decreases s.len(),
{
    if s.len() > 1 {
        lemma_best_idx(s.drop_first());
        let r = 1 + best_idx(s.drop_first());
        assert(forall|k: int| 1 <= k < s.len() ==> #[trigger] s[k] == s.drop_first()[k - 1]);
    }
}

/// The ranking: repeatedly the first best-scored hit; score order is kept
/// and equal scores keep their committed order.
pub open spec fn rank_hits(s: Seq<(u64, u32)>) -> Seq<(u64, u32)>
    decreases s.len(),
    via rank_hits_decreases
{
    if s.len() == 0 {
        Seq::empty()
    } else {
        seq![s[best_idx(s)]] + rank_hits(s.remove(best_idx(s)))
    }
}

#[via_fn]
proof fn rank_hits_decreases(s: Seq<(u64, u32)>) {
    if s.len() > 0 {
        lemma_best_idx(s);
    }
}

/// The ranking is a reordering: same length, every element from the
/// input, sorted by score descending.
pub proof fn lemma_rank_hits(s: Seq<(u64, u32)>)
    ensures
        rank_hits(s).len() == s.len(),
        forall|i: int, j: int|
            0 <= i < j < s.len() ==> (#[trigger] rank_hits(s)[i]).0 >= (#[trigger] rank_hits(
                s,
            )[j]).0,
        forall|k: int|
            0 <= k < s.len() ==> exists|l: int|
                0 <= l < s.len() && #[trigger] rank_hits(s)[k] == s[l],
    decreases s.len(),
{
    if s.len() > 0 {
        lemma_best_idx(s);
        let b = best_idx(s);
        let rem = s.remove(b);
        lemma_rank_hits(rem);
        let r = rank_hits(s);
        assert(forall|k: int| 1 <= k < r.len() ==> #[trigger] r[k] == rank_hits(rem)[k - 1]);
        assert(forall|l: int| 0 <= l < b ==> #[trigger] rem[l] == s[l]);
        assert(forall|l: int| b <= l < rem.len() ==> #[trigger] rem[l] == s[l + 1]);
        assert forall|k: int| 0 <= k < s.len() implies exists|l: int|
            0 <= l < s.len() && #[trigger] r[k] == s[l] by {
            if k == 0 {
                assert(r[0] == s[b]);
            } else {
                let l = choose|l: int| 0 <= l < rem.len() && rank_hits(rem)[k - 1] == rem[l];
                if l < b {
                    assert(r[k] == s[l]);
                } else {
                    assert(r[k] == s[l + 1]);
                }
            }
        }
        assert forall|i: int, j: int| 0 <= i < j < s.len() implies (#[trigger] r[i]).0 >= (
        #[trigger] r[j]).0 by {
            if i == 0 {
                let l = choose|l: int| 0 <= l < rem.len() && rank_hits(rem)[j - 1] == rem[l];
                if l < b {
                    assert(rem[l] == s[l]);
                } else {
                    assert(rem[l] == s[l + 1]);
                }
            }
        }
    }
}

/// Sorts the candidates: best score first, equal scores in committed
/// order.
fn rank_candidates(cands: Vec<(u64, u32)>) -> (r: Vec<(u64, u32)>)
    ensures
        r@ == rank_hits(cands@),
{
    let ghost orig = cands@;
    let mut work = cands;
    let mut out: Vec<(u64, u32)> = Vec::new();
    while work.len() > 0
        invariant
            rank_hits(orig) =~= out@ + rank_hits(work@),
        decreases work.len(),
    {
        let mut b: usize = 0;
        let mut k: usize = 1;
        while k < work.len()
            invariant
                b < k <= work.len(),
                forall|l: int| 0 <= l < k ==> (#[trigger] work@[l]).0 <= work@[b as int].0,
                forall|l: int| 0 <= l < b ==> (#[trigger] work@[l]).0 < work@[b as int].0,
            decreases work.len() - k,
        {
            if work[k].0 > work[b].0 {
                b = k;
            }
            k = k + 1;
        }
        proof {
            lemma_best_idx(work@);
            let sb = best_idx(work@);
            if b < sb {
                assert(work@[b as int].0 < work@[sb].0);
                assert(work@[sb].0 <= work@[b as int].0);
                assert(false);
            }
            if sb < b {
                assert(work@[sb].0 < work@[b as int].0);
                assert(work@[b as int].0 <= work@[sb].0);
                assert(false);
            }
            assert(b as int == sb);
        }
        let ghost prew = work@;
        let ghost preo = out@;
        let hit = work.remove(b);
        out.push(hit);
        proof {
            assert(rank_hits(prew) == seq![prew[b as int]] + rank_hits(prew.remove(b as int)));
            assert(out@ =~= preo.push(hit));
            assert(preo + (seq![hit] + rank_hits(work@)) =~= preo.push(hit) + rank_hits(work@));
        }
    }
    proof {
        assert(out@ + rank_hits(work@) =~= out@);
    }
    out
}

/// A page of the ranking: empty past the end, else the ranked hits from
/// `offset` on, at most `limit` of them.
pub open spec fn page_of(s: Seq<(u64, u32)>, offset: int, limit: int) -> Seq<(u64, u32)> {
    if offset >= s.len() {
        Seq::empty()
    } else if offset + limit >= s.len() {
        s.subrange(offset, s.len() as int)
    } else {
        s.subrange(offset, offset + limit)
    }
}

impl Searcher {
    /// Executes a keyword query against the committed snapshot: the exact
    /// number of matching documents, and the requested page of ranked
    /// (score, identifier) hits. Every hit comes from a committed document
    /// matching every term of the query; an offset at or past the total
    /// yields an empty page, not an error.
    pub fn search(&self, engine: &IndexEngine, query: &str, limit: usize, offset: usize) -> (r: (
        usize,
        Vec<(u64, u32)>,
    ))
        requires
            engine.wf(),
        ensures
            ({
                let terms = query_terms_of(engine.spec_stopwords(), query@);
                let cands = candidates(
                    engine.committed_seq(),
                    self.default_fields@,
                    self.boosts@,
                    terms,
                );
                &&& r.0 == cands.len()
                &&& r.1@ == page_of(rank_hits(cands), offset as int, limit as int)
                &&& r.1@.len() <= limit
                &&& (offset >= r.0 ==> r.1@.len() == 0)
                &&& (forall|i: int, j: int|
                    0 <= i < j < r.1@.len() ==> (#[trigger] r.1@[i]).0 >= (#[trigger] r.1@[j]).0)
                &&& (forall|k: int|
                    0 <= k < r.1@.len() ==> is_hit_of(
                        engine.committed_seq(),
                        self.default_fields@,
                        self.boosts@,
                        terms,
                        #[trigger] r.1@[k],
                    ))
            }),
    {
        let terms = engine.query_terms(query);
        let ghost gterms = query_terms_of(engine.spec_stopwords(), query@);
        let ghost docs = engine.committed_seq();
        let n = engine.committed_len();
        let mut cands: Vec<(u64, u32)> = Vec::new();
        let mut i: usize = 0;
        proof {
            assert(docs.skip(0) =~= docs);
        }
        while i < n
            invariant
                i <= n,
                n == docs.len(),
                docs == engine.committed_seq(),
                engine.wf(),
                gterms == terms.deep_view(),
                candidates(docs, self.default_fields@, self.boosts@, gterms) =~= cands@
                    + candidates(
                    docs.skip(i as int),
                    self.default_fields@,
                    self.boosts@,
                    gterms,
                ),
            decreases n - i,
        {
            proof {
                assert(docs.skip(i as int)[0] == docs[i as int]);
                assert(docs.skip(i as int).drop_first() =~= docs.skip(i + 1));
            }
            let d = engine.doc_at(i);
            let ghost prec = cands@;
            if doc_matches_exec(d, &self.default_fields, &terms) {
                let sc = score_doc(d, &self.default_fields, &self.boosts, &terms);
                cands.push((sc, d.id));
                proof {
                    assert(cands@ =~= prec.push((sc, d@.id)));
                    assert(prec.push((sc, d@.id)) + candidates(
                        docs.skip(i + 1),
                        self.default_fields@,
                        self.boosts@,
                        gterms,
                    ) =~= prec + (seq![(sc, d@.id)] + candidates(
                        docs.skip(i + 1),
                        self.default_fields@,
                        self.boosts@,
                        gterms,
                    )));
                }
            }
            i = i + 1;
        }
        proof {
            assert(docs.skip(docs.len() as int) =~= Seq::<DocView>::empty());
            assert(cands@ =~= candidates(docs, self.default_fields@, self.boosts@, gterms));
        }
        let total = cands.len();
        let ghost gcands = cands@;
        let ranked = rank_candidates(cands);
        proof {
            lemma_rank_hits(gcands);
            lemma_candidates_hits(docs, self.default_fields@, self.boosts@, gterms);
        }
        let mut page: Vec<(u64, u32)> = Vec::new();
        let mut k: usize = offset;
        while k < ranked.len() && k - offset < limit
            invariant
                offset <= k <= ranked.len() || (k == offset && offset >= ranked.len()),
                k - offset <= limit,
                page@ =~= if offset >= ranked@.len() {
                    Seq::<(u64, u32)>::empty()
                } else {
                    ranked@.subrange(offset as int, k as int)
                },
            decreases ranked.len() - k,
        {
            let ghost prep = page@;
            page.push(ranked[k]);
            k = k + 1;
            proof {
                assert(ranked@.subrange(offset as int, k as int) =~= ranked@.subrange(
                    offset as int,
                    k - 1,
                ).push(ranked@[k - 1]));
            }
        }
        proof {
            let rk = rank_hits(gcands);
            assert(ranked@ == rk);
            assert(page@ =~= page_of(rk, offset as int, limit as int));
            assert forall|a: int, bq: int| 0 <= a < bq < page@.len() implies (
            #[trigger] page@[a]).0 >= (#[trigger] page@[bq]).0 by {
                assert(page@[a] == rk[offset + a]);
                assert(page@[bq] == rk[offset + bq]);
            }
            assert forall|kk: int| 0 <= kk < page@.len() implies is_hit_of(
                docs,
                self.default_fields@,
                self.boosts@,
                gterms,
                #[trigger] page@[kk],
            ) by {
                assert(page@[kk] == rk[offset + kk]);
                let l = choose|l: int| 0 <= l < gcands.len() && rk[offset + kk] == gcands[l];
                assert(is_hit_of(docs, self.default_fields@, self.boosts@, gterms, gcands[l]));
            }
        }
        (total, page)
    }
}

/// Boost ordering: with one query term, the same term frequency, and
/// matches confined to a single field each, the document whose field
/// carries the greater boost scores strictly higher.
pub proof fn lemma_boost_ordering(
    d1: DocView,
    d2: DocView,
    fields: Seq<Field>,
    boosts: Seq<(Field, u64)>,
    t: Seq<char>,
    f1: Field,
    f2: Field,
    n: int,
)
    requires
        forall|i: int, j: int| 0 <= i < j < fields.len() ==> fields[i] != fields[j],
        fields.contains(f1),
        fields.contains(f2),
        forall|i: int|
            0 <= i < fields.len() ==> count_tok(field_tokens(d1.text, #[trigger] fields[i]), t)
                == (if fields[i] == f1 {
                n
            } else {
                0
            }),
        forall|i: int|
            0 <= i < fields.len() ==> count_tok(field_tokens(d2.text, #[trigger] fields[i]), t)
                == (if fields[i] == f2 {
                n
            } else {
                0
            }),
        boost_of(boosts, f1) > boost_of(boosts, f2),
        n > 0,
    ensures
        doc_score(d1, fields, boosts, seq![t]) > doc_score(d2, fields, boosts, seq![t]),
{
    assert(seq![t].drop_first() =~= Seq::<Seq<char>>::empty());
    assert(seq![t][0] == t);
    assert(doc_score(d1, fields, boosts, Seq::<Seq<char>>::empty()) == 0);
    assert(doc_score(d1, fields, boosts, seq![t]) == score_over_fields(d1, fields, boosts, t));
    assert(doc_score(d2, fields, boosts, Seq::<Seq<char>>::empty()) == 0);
    assert(doc_score(d2, fields, boosts, seq![t]) == score_over_fields(d2, fields, boosts, t));
    lemma_single_field_score(d1, fields, boosts, t, f1, n);
    lemma_single_field_score(d2, fields, boosts, t, f2, n);
    assert(boost_of(boosts, f1) as int * n > boost_of(boosts, f2) as int * n) by (nonlinear_arith)
        requires
            boost_of(boosts, f1) > boost_of(boosts, f2),
            n > 0,
    ;
}

/// When exactly one field holds the term, the score over the fields is
/// that field's boost times the frequency.
proof fn lemma_single_field_score(
    d: DocView,
    fields: Seq<Field>,
    boosts: Seq<(Field, u64)>,
    t: Seq<char>,
    f: Field,
    n: int,
)
    requires
        forall|i: int, j: int| 0 <= i < j < fields.len() ==> fields[i] != fields[j],
        fields.contains(f),
        forall|i: int|
            0 <= i < fields.len() ==> count_tok(field_tokens(d.text, #[trigger] fields[i]), t) == (
            if fields[i] == f {
                n
            } else {
                0
            }),
    ensures
        score_over_fields(d, fields, boosts, t) == boost_of(boosts, f) as int * n,
    decreases fields.len(),
{
    let rest = fields.drop_first();
    assert(forall|i: int| 0 <= i < rest.len() ==> #[trigger] rest[i] == fields[i + 1]);
    if fields[0] == f {
        assert(!rest.contains(f)) by {
            if rest.contains(f) {
                let l = choose|l: int| 0 <= l < rest.len() && rest[l] == f;
                assert(fields[l + 1] == fields[0]);
            }
        }
        lemma_zero_field_score(d, rest, boosts, t);
    } else {
        assert(rest.contains(f)) by {
            let l = choose|l: int| 0 <= l < fields.len() && fields[l] == f;
            assert(rest[l - 1] == f);
        }
        lemma_single_field_score(d, rest, boosts, t, f, n);
    }
}

/// A document with the term in none of the fields scores zero.
proof fn lemma_zero_field_score(
    d: DocView,
    fields: Seq<Field>,
    boosts: Seq<(Field, u64)>,
    t: Seq<char>,
)
    requires
        forall|i: int|
            0 <= i < fields.len() ==> count_tok(field_tokens(d.text, #[trigger] fields[i]), t)
                == 0,
    ensures
        score_over_fields(d, fields, boosts, t) == 0,
    decreases fields.len(),
{
    if fields.len() > 0 {
        assert(forall|i: int|
            0 <= i < fields.drop_first().len() ==> #[trigger] fields.drop_first()[i] == fields[i
                + 1]);
        lemma_zero_field_score(d, fields.drop_first(), boosts, t);
    }
}

} // verus!
