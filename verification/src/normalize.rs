//! Text normalization: paragraph markup for stored full text, markup
//! stripping for previews, query-text width folding, and the record-level
//! cleanups applied at ingestion time.
use vstd::prelude::*;

verus! {

/// The whitespace characters the normalizer splits on: the Unicode
/// White_Space set, from ASCII whitespace through the typographic spaces
/// to the ideographic space.
pub open spec fn is_space(c: char) -> bool {
    c == ' ' || c == '\t' || c == '\n' || c == '\r' || c == '\u{000B}' || c == '\u{000C}'
        || c == '\u{0085}' || c == '\u{00A0}' || c == '\u{1680}' || (0x2000 <= c as u32 && c
        as u32 <= 0x200A) || c == '\u{2028}' || c == '\u{2029}' || c == '\u{202F}' || c
        == '\u{205F}' || c == '\u{3000}'
}

/// Length of the maximal non-space prefix.
pub open spec fn first_word_len(s: Seq<char>) -> int
    decreases s.len(),
{
    if s.len() == 0 || is_space(s[0]) {
        0
    } else {
        1 + first_word_len(s.drop_first())
    }
}

pub proof fn lemma_first_word_len_bounds(s: Seq<char>)
    ensures
        0 <= first_word_len(s) <= s.len(),
        s.len() > 0 && !is_space(s[0]) ==> 1 <= first_word_len(s),
    decreases s.len(),
{
    if s.len() > 0 && !is_space(s[0]) {
        lemma_first_word_len_bounds(s.drop_first());
    }
}

/// The whitespace-separated words of a character sequence, in order.
pub open spec fn words_of(s: Seq<char>) -> Seq<Seq<char>>
    decreases s.len(),
    via words_of_decreases
{
    if s.len() == 0 {
        Seq::empty()
    } else if is_space(s[0]) {
        words_of(s.drop_first())
    } else {
        seq![s.take(first_word_len(s))] + words_of(s.skip(first_word_len(s)))
    }
}

#[via_fn]
proof fn words_of_decreases(s: Seq<char>) {
    lemma_first_word_len_bounds(s);
}

/// Words rejoined with a single space between them.
pub open spec fn join_words(ws: Seq<Seq<char>>) -> Seq<char>
    decreases ws.len(),
{
    if ws.len() == 0 {
        Seq::empty()
    } else if ws.len() == 1 {
        ws[0]
    } else {
        join_words(ws.drop_last()) + seq![' '] + ws.last()
    }
}

/// Each word wrapped in the paragraph delimiters, concatenated.
pub open spec fn wrap_words(ws: Seq<Seq<char>>) -> Seq<char>
    decreases ws.len(),
{
    if ws.len() == 0 {
        Seq::empty()
    } else {
        wrap_words(ws.drop_last()) + "<p>"@ + ws.last() + "</p>"@
    }
}

/// The paragraph markup the normalizer produces for a raw full text.
pub open spec fn paragraphs_of(s: Seq<char>) -> Seq<char> {
    wrap_words(words_of(s))
}

/// Markup with tag bodies dropped; each tag counts as a word boundary.
pub open spec fn strip_tags(s: Seq<char>, in_tag: bool) -> Seq<char>
    decreases s.len(),
{
    if s.len() == 0 {
        Seq::empty()
    } else if in_tag {
        if s[0] == '>' {
            strip_tags(s.drop_first(), false)
        } else {
            strip_tags(s.drop_first(), true)
        }
    } else if s[0] == '<' {
        seq![' '] + strip_tags(s.drop_first(), true)
    } else {
        seq![s[0]] + strip_tags(s.drop_first(), false)
    }
}

/// What stripping markup returns: the text outside tags, split into words
/// and rejoined with single spaces.
pub open spec fn stripped_of(s: Seq<char>) -> Seq<char> {
    join_words(words_of(strip_tags(s, false)))
}

/// Relies on `String::push`: appends exactly the one character.
#[verifier::external_body]
pub(crate) fn push_char(s: &mut String, c: char)
    ensures
        final(s)@ == old(s)@.push(c),
{
    s.push(c);
}

/// The characters of a string slice, in order.
pub fn chars_of(s: &str) -> (v: Vec<char>)
    ensures
        v@ == s@,
{
    let mut v: Vec<char> = Vec::new();
    for c in it: s.chars()
        invariant
            it.seq() == s@,
            v@ == it.seq().take(it.index() as int),
    {
        v.push(c);
    }
    proof {
        assert(v@ =~= s@);
    }
    v
}

/// A string holding exactly the given characters.
pub fn string_of(v: &Vec<char>) -> (s: String)
    ensures
        s@ == v@,
{
    let mut s = String::new();
    let mut i: usize = 0;
    while i < v.len()
        invariant
            i <= v.len(),
            s@ == v@.take(i as int),
        decreases v.len() - i,
    {
        push_char(&mut s, v[i]);
        i = i + 1;
        proof {
            assert(v@.take(i as int) =~= v@.take(i - 1).push(v@[i - 1]));
        }
    }
    proof {
        assert(v@.take(v@.len() as int) =~= v@);
    }
    s
}

/// Whether a character is normalizer whitespace.
pub fn space_char(c: char) -> (b: bool)
    ensures
        b == is_space(c),
{
    let u = c as u32;
    c == ' ' || c == '\t' || c == '\n' || c == '\r' || c == '\u{000B}' || c == '\u{000C}'
        || c == '\u{0085}' || c == '\u{00A0}' || c == '\u{1680}' || (0x2000 <= u && u <= 0x200A)
        || c == '\u{2028}' || c == '\u{2029}' || c == '\u{202F}' || c == '\u{205F}' || c
        == '\u{3000}'
}

proof fn lemma_skip_drop_first(s: Seq<char>, i: int)
    requires
        0 <= i < s.len(),
    ensures
        s.skip(i).drop_first() =~= s.skip(i + 1),
        s.skip(i)[0] == s[i],
{
}

/// Peeling one word off the front of `words_of`.
proof fn lemma_word_peel(s: Seq<char>, start: int, end: int)
    requires
        0 <= start <= end <= s.len(),
        forall|k: int| start <= k < end ==> !is_space(s[k]),
        start < end,
        end == s.len() || is_space(s[end]),
    ensures
        words_of(s.skip(start)) =~= seq![s.subrange(start, end)] + words_of(s.skip(end)),
{
    lemma_first_word_len_eq(s.skip(start), end - start);
    assert(words_of(s.skip(start)) == seq![s.skip(start).take(end - start)] + words_of(
        s.skip(start).skip(end - start),
    ));
    assert(s.skip(start).take(end - start) =~= s.subrange(start, end));
    assert(s.skip(start).skip(end - start) =~= s.skip(end));
}

proof fn lemma_first_word_len_eq(t: Seq<char>, m: int)
    requires
        0 <= m <= t.len(),
        forall|k: int| 0 <= k < m ==> !is_space(t[k]),
        m == t.len() || is_space(t[m]),
    ensures
        first_word_len(t) == m,
    decreases m,
{
    if m == 0 {
    } else {
        assert(!is_space(t[0]));
        lemma_first_word_len_eq(t.drop_first(), m - 1);
    }
}

/// Splitting into words: the executable counterpart of `words_of`.
pub fn split_words(v: &Vec<char>) -> (ws: Vec<Vec<char>>)
    ensures
        ws.deep_view() == words_of(v@),
{
    let mut ws: Vec<Vec<char>> = Vec::new();
    let mut i: usize = 0;
    proof {
        assert(v@.skip(0) =~= v@);
    }
    while i < v.len()
        invariant
            i <= v.len(),
            ws.deep_view() + words_of(v@.skip(i as int)) =~= words_of(v@),
        decreases v.len() - i,
    {
        if space_char(v[i]) {
            proof {
                lemma_skip_drop_first(v@, i as int);
            }
            i = i + 1;
        } else {
            let start = i;
            let mut word: Vec<char> = Vec::new();
            while i < v.len() && !space_char(v[i])
                invariant
                    start <= i <= v.len(),
                    forall|k: int| start <= k < i ==> !is_space(v@[k]),
                    word@ == v@.subrange(start as int, i as int),
                decreases v.len() - i,
            {
                word.push(v[i]);
                i = i + 1;
                proof {
                    assert(v@.subrange(start as int, i as int) =~= v@.subrange(
                        start as int,
                        i - 1,
                    ).push(v@[i - 1]));
                }
            }
            proof {
                lemma_word_peel(v@, start as int, i as int);
            }
            let ghost pre = ws.deep_view();
            ws.push(word);
            proof {
                assert(ws.deep_view() =~~= pre.push(word@));
                assert(pre.push(word@) =~= pre + seq![word@]);
                assert(pre + seq![word@] + words_of(v@.skip(i as int)) =~= pre + (seq![word@]
                    + words_of(v@.skip(i as int))));
            }
        }
    }
    proof {
        assert(v@.skip(v@.len() as int) =~= Seq::<char>::empty());
        assert(ws.deep_view() =~= words_of(v@));
    }
    ws
}

/// Rejoining words with single spaces: the counterpart of `join_words`.
pub fn join_with_spaces(ws: &Vec<Vec<char>>) -> (r: Vec<char>)
    ensures
        r@ == join_words(ws.deep_view()),
{
    let mut r: Vec<char> = Vec::new();
    let mut i: usize = 0;
    while i < ws.len()
        invariant
            i <= ws.len(),
            r@ == join_words(ws.deep_view().take(i as int)),
        decreases ws.len() - i,
    {
        if i > 0 {
            r.push(' ');
        }
        let mut j: usize = 0;
        let w = &ws[i];
        while j < w.len()
            invariant
                j <= w.len(),
                i < ws.len(),
                w == &ws[i as int],
                r@ == if i == 0 {
                    w@.take(j as int)
                } else {
                    join_words(ws.deep_view().take(i as int)) + seq![' '] + w@.take(j as int)
                },
            decreases w.len() - j,
        {
            r.push(w[j]);
            j = j + 1;
            proof {
                assert(w@.take(j as int) =~= w@.take(j - 1).push(w@[j - 1]));
            }
        }
        i = i + 1;
        proof {
            let dv = ws.deep_view();
            assert(dv.take(i as int).drop_last() =~= dv.take(i - 1));
            assert(dv.take(i as int).last() =~= w@);
            assert(w@.take(w@.len() as int) =~= w@);
            if i == 1 {
                assert(join_words(dv.take(1)) == dv.take(1)[0]);
                assert(dv.take(1)[0] == w@);
            }
        }
    }
    proof {
        assert(ws.deep_view().take(ws.deep_view().len() as int) =~= ws.deep_view());
    }
    r
}

/// Full-text normalization: each whitespace-separated token wrapped in
/// paragraph delimiters, ready for storage and later stripping.
pub fn wrap_paragraphs(s: &str) -> (r: String)
    ensures
        r@ == paragraphs_of(s@),
{
    let v = chars_of(s);
    let ws = split_words(&v);
    let mut r = String::new();
    let mut i: usize = 0;
    while i < ws.len()
        invariant
            i <= ws.len(),
            r@ == wrap_words(ws.deep_view().take(i as int)),
        decreases ws.len() - i,
    {
        r.append("<p>");
        let w = &ws[i];
        let mut j: usize = 0;
        while j < w.len()
            invariant
                j <= w.len(),
                i < ws.len(),
                w == &ws[i as int],
                r@ == wrap_words(ws.deep_view().take(i as int)) + "<p>"@ + w@.take(j as int),
            decreases w.len() - j,
        {
            push_char(&mut r, w[j]);
            j = j + 1;
            proof {
                assert(w@.take(j as int) =~= w@.take(j - 1).push(w@[j - 1]));
            }
        }
        r.append("</p>");
        i = i + 1;
        proof {
            let dv = ws.deep_view();
            assert(dv.take(i as int).drop_last() =~= dv.take(i - 1));
            assert(dv.take(i as int).last() =~= w@);
            assert(w@.take(w@.len() as int) =~= w@);
        }
    }
    proof {
        assert(ws.deep_view().take(ws.deep_view().len() as int) =~= ws.deep_view());
    }
    r
}

/// Strips the paragraph markup the normalizer produced and rejoins the
/// words with single spaces, for preview display.
pub fn remove_html_tags(html: &str) -> (r: String)
    ensures
        r@ == stripped_of(html@),
{
    let v = chars_of(html);
    let mut plain: Vec<char> = Vec::new();
    let mut in_tag = false;
    let mut i: usize = 0;
    proof {
        assert(v@.skip(0) =~= v@);
    }
    while i < v.len()
        invariant
            i <= v.len(),
            strip_tags(v@, false) =~= plain@ + strip_tags(v@.skip(i as int), in_tag),
        decreases v.len() - i,
    {
        proof {
            lemma_skip_drop_first(v@, i as int);
        }
        let c = v[i];
        if in_tag {
            if c == '>' {
                in_tag = false;
            }
        } else if c == '<' {
            plain.push(' ');
            in_tag = true;
        } else {
            plain.push(c);
        }
        i = i + 1;
    }
    proof {
        assert(v@.skip(v@.len() as int) =~= Seq::<char>::empty());
        assert(plain@ =~= strip_tags(v@, false));
    }
    let ws = split_words(&plain);
    let joined = join_with_spaces(&ws);
    string_of(&joined)
}

/// Full-width ASCII variants folded to their half-width forms; the
/// ideographic space becomes a plain space.
pub open spec fn fold_char(c: char) -> char {
    if c == '\u{3000}' {
        ' '
    } else if 0xFF01 <= c as u32 && c as u32 <= 0xFF5E {
        ((c as u32 - 0xFEE0) as u8) as char
    } else {
        c
    }
}

pub open spec fn folded_of(s: Seq<char>) -> Seq<char> {
    s.map_values(|c: char| fold_char(c))
}

/// Query-text normalization: full-width/half-width character folding.
pub fn fold_width(s: &str) -> (r: String)
    ensures
        r@ == folded_of(s@),
{
    let v = chars_of(s);
    let mut out = String::new();
    let mut i: usize = 0;
    while i < v.len()
        invariant
            i <= v.len(),
            v@ == s@,
            out@ == folded_of(s@).take(i as int),
        decreases v.len() - i,
    {
        let c = v[i];
        let u = c as u32;
        let f: char = if c == '\u{3000}' {
            ' '
        } else if 0xFF01 <= u && u <= 0xFF5E {
            ((u - 0xFEE0) as u8) as char
        } else {
            c
        };
        push_char(&mut out, f);
        i = i + 1;
        proof {
            assert(folded_of(s@).take(i as int) =~= folded_of(s@).take(i - 1).push(
                fold_char(s@[i - 1]),
            ));
        }
    }
    proof {
        assert(folded_of(s@).take(s@.len() as int) =~= folded_of(s@));
    }
    out
}

pub open spec fn leading_spaces(s: Seq<char>) -> int
    decreases s.len(),
{
    if s.len() == 0 || !is_space(s[0]) {
        0
    } else {
        1 + leading_spaces(s.drop_first())
    }
}

pub open spec fn trailing_spaces(s: Seq<char>) -> int
    decreases s.len(),
{
    if s.len() == 0 || !is_space(s.last()) {
        0
    } else {
        1 + trailing_spaces(s.drop_last())
    }
}

pub proof fn lemma_leading_spaces_bounds(s: Seq<char>)
    ensures
        0 <= leading_spaces(s) <= s.len(),
    decreases s.len(),
{
    if s.len() > 0 && is_space(s[0]) {
        lemma_leading_spaces_bounds(s.drop_first());
    }
}

pub proof fn lemma_trailing_spaces_bounds(s: Seq<char>)
    ensures
        0 <= trailing_spaces(s) <= s.len(),
    decreases s.len(),
{
    if s.len() > 0 && is_space(s.last()) {
        lemma_trailing_spaces_bounds(s.drop_last());
    }
}

/// Whitespace removed from both ends.
pub open spec fn trimmed_of(s: Seq<char>) -> Seq<char> {
    let t = s.skip(leading_spaces(s));
    t.take(t.len() - trailing_spaces(t))
}

/// The display separator replacement: a half-width comma becomes its
/// full-width variant.
pub open spec fn widen_comma(c: char) -> char {
    if c == ',' {
        '\u{FF0C}'
    } else {
        c
    }
}

/// The field-level cleanup: trim, then widen the comma separators.
pub open spec fn cleaned_of(s: Seq<char>) -> Seq<char> {
    trimmed_of(s).map_values(|c: char| widen_comma(c))
}

/// Trims a field and replaces the half-width comma separator with its
/// full-width variant for display.
pub fn clean_field(s: &str) -> (r: String)
    ensures
        r@ == cleaned_of(s@),
{
    let v = chars_of(s);
    let mut start: usize = 0;
    proof {
        assert(v@.skip(0) =~= v@);
    }
    while start < v.len() && space_char(v[start])
        invariant
            start <= v.len(),
            v@ == s@,
            forall|k: int| 0 <= k < start ==> is_space(v@[k]),
            leading_spaces(v@) == start + leading_spaces(v@.skip(start as int)),
        decreases v.len() - start,
    {
        proof {
            lemma_skip_drop_first(v@, start as int);
        }
        start = start + 1;
    }
    let mut end: usize = v.len();
    proof {
        lemma_leading_spaces_bounds(v@.skip(start as int));
        if start < v.len() {
            assert(v@.skip(start as int)[0] == v@[start as int]);
        }
        assert(leading_spaces(v@) == start as int);
        assert(v@.skip(start as int).take(v@.len() - start) =~= v@.skip(start as int));
    }
    let ghost t = v@.skip(start as int);
    while end > start && space_char(v[end - 1])
        invariant
            start <= end <= v.len(),
            v@ == s@,
            t == v@.skip(start as int),
            start < v.len() ==> !is_space(v@[start as int]),
            trailing_spaces(t) == (v@.len() - end) + trailing_spaces(t.take(end - start)),
        decreases end,
    {
        proof {
            let cur = t.take(end - start);
            assert(cur.len() > 0);
            assert(cur.last() == v@[end - 1]);
            assert(cur.drop_last() =~= t.take(end - 1 - start));
        }
        end = end - 1;
    }
    proof {
        let cur = t.take(end - start);
        lemma_trailing_spaces_bounds(cur);
        if end > start {
            assert(cur.last() == v@[end - 1]);
        }
        assert(trailing_spaces(t) == v@.len() - end);
        assert(t.take(t.len() - trailing_spaces(t)) =~= v@.subrange(start as int, end as int));
    }
    let mut out = String::new();
    let mut i: usize = start;
    while i < end
        invariant
            start <= i <= end <= v.len(),
            v@ == s@,
            out@ == v@.subrange(start as int, i as int).map_values(|c: char| widen_comma(c)),
        decreases end - i,
    {
        let c = v[i];
        if c == ',' {
            push_char(&mut out, '\u{FF0C}');
        } else {
            push_char(&mut out, c);
        }
        i = i + 1;
        proof {
            assert(v@.subrange(start as int, i as int).map_values(|c: char| widen_comma(c)) =~= v@
                .subrange(start as int, i - 1).map_values(|c: char| widen_comma(c)).push(
                widen_comma(v@[i - 1]),
            ));
        }
    }
    out
}

/// Everything after the last separator of a reference link; empty when the
/// link holds no separator at all.
pub open spec fn suffix_rec(s: Seq<char>) -> Seq<char>
    decreases s.len(),
{
    if s.len() == 0 {
        Seq::empty()
    } else if s.last() == '=' {
        Seq::empty()
    } else {
        suffix_rec(s.drop_last()).push(s.last())
    }
}

pub open spec fn doc_ref_of(s: Seq<char>) -> Seq<char> {
    if s.contains('=') {
        suffix_rec(s)
    } else {
        Seq::empty()
    }
}

proof fn lemma_suffix_rec(s: Seq<char>, k: int)
    requires
        0 <= k < s.len(),
        s[k] == '=',
        forall|j: int| k < j < s.len() ==> s[j] != '=',
    ensures
        suffix_rec(s) =~= s.skip(k + 1),
    decreases s.len(),
{
    if k == s.len() - 1 {
    } else {
        lemma_suffix_rec(s.drop_last(), k);
        assert(s.drop_last().skip(k + 1).push(s.last()) =~= s.skip(k + 1));
    }
}

/// Keeps only the substring after the last separator of a source link:
/// the document reference the source encodes as a query parameter.
pub fn doc_ref_suffix(s: &str) -> (r: String)
    ensures
        r@ == doc_ref_of(s@),
{
    let v = chars_of(s);
    let mut k: usize = v.len();
    while k > 0
        invariant
            k <= v.len(),
            v@ == s@,
            forall|j: int| k <= j < v@.len() ==> v@[j] != '=',
        decreases k,
    {
        if v[k - 1] == '=' {
            proof {
                lemma_suffix_rec(v@, k - 1);
                assert(v@.contains('='));
            }
            let mut out = String::new();
            let mut i: usize = k;
            while i < v.len()
                invariant
                    k <= i <= v.len(),
                    v@ == s@,
                    out@ == v@.subrange(k as int, i as int),
                decreases v.len() - i,
            {
                push_char(&mut out, v[i]);
                i = i + 1;
                proof {
                    assert(v@.subrange(k as int, i as int) =~= v@.subrange(k as int, i - 1).push(
                        v@[i - 1],
                    ));
                }
            }
            proof {
                assert(v@.subrange(k as int, v@.len() as int) =~= v@.skip(k as int));
            }
            return out;
        }
        k = k - 1;
    }
    proof {
        assert(!v@.contains('='));
    }
    String::new()
}

/// At most the first `n` characters.
pub open spec fn prefix_chars(s: Seq<char>, n: int) -> Seq<char> {
    if s.len() <= n {
        s
    } else {
        s.take(n)
    }
}

/// The first `n` characters of a string, or all of it when shorter.
pub fn truncate_chars(s: &str, n: usize) -> (r: String)
    ensures
        r@ == prefix_chars(s@, n as int),
{
    let v = chars_of(s);
    let mut out = String::new();
    let mut i: usize = 0;
    while i < v.len() && i < n
        invariant
            i <= v.len(),
            i <= n,
            v@ == s@,
            out@ == v@.take(i as int),
        decreases v.len() - i,
    {
        push_char(&mut out, v[i]);
        i = i + 1;
        proof {
            assert(v@.take(i as int) =~= v@.take(i - 1).push(v@[i - 1]));
        }
    }
    proof {
        if v@.len() <= n {
            assert(v@.take(v@.len() as int) =~= v@);
        }
    }
    out
}

/// Length of the maximal prefix without a dash.
pub open spec fn dash_len(s: Seq<char>) -> int
    decreases s.len(),
{
    if s.len() == 0 || s[0] == '-' {
        0
    } else {
        1 + dash_len(s.drop_first())
    }
}

pub proof fn lemma_dash_len_bounds(s: Seq<char>)
    ensures
        0 <= dash_len(s) <= s.len(),
    decreases s.len(),
{
    if s.len() > 0 && s[0] != '-' {
        lemma_dash_len_bounds(s.drop_first());
    }
}

proof fn lemma_dash_len_eq(t: Seq<char>, m: int)
    requires
        0 <= m <= t.len(),
        forall|k: int| 0 <= k < m ==> t[k] != '-',
        m == t.len() || t[m] == '-',
    ensures
        dash_len(t) == m,
    decreases m,
{
    if m > 0 {
        lemma_dash_len_eq(t.drop_first(), m - 1);
    }
}

/// The dash-separated segments of a date string, empty segments kept.
pub open spec fn dash_segs(s: Seq<char>) -> Seq<Seq<char>>
    decreases s.len(),
    via dash_segs_decreases
{
    let l = dash_len(s);
    if l >= s.len() {
        seq![s]
    } else {
        seq![s.take(l)] + dash_segs(s.skip(l + 1))
    }
}

#[via_fn]
proof fn dash_segs_decreases(s: Seq<char>) {
    lemma_dash_len_bounds(s);
}

proof fn lemma_dash_peel(s: Seq<char>, start: int, j: int)
    requires
        0 <= start <= j <= s.len(),
        forall|k: int| start <= k < j ==> s[k] != '-',
        j == s.len() || s[j] == '-',
    ensures
        j == s.len() ==> dash_segs(s.skip(start)) =~~= seq![s.subrange(start, j)],
        j < s.len() ==> dash_segs(s.skip(start)) =~~= seq![s.subrange(start, j)] + dash_segs(
            s.skip(j + 1),
        ),
{
    lemma_dash_len_eq(s.skip(start), j - start);
    if j == s.len() {
        assert(s.skip(start) =~= s.subrange(start, j));
    } else {
        assert(s.skip(start).take(j - start) =~= s.subrange(start, j));
        assert(s.skip(start).skip(j - start + 1) =~= s.skip(j + 1));
    }
}

/// Splits a date string on its dashes; empty segments are kept.
pub fn split_dashes(s: &str) -> (r: Vec<String>)
    ensures
        r.deep_view() == dash_segs(s@),
{
    let v = chars_of(s);
    let mut out: Vec<String> = Vec::new();
    let mut i: usize = 0;
    let mut more = true;
    proof {
        assert(v@.skip(0) =~= v@);
    }
    while more
        invariant
            v@ == s@,
            more ==> i <= v.len(),
            more ==> dash_segs(v@) =~~= out.deep_view() + dash_segs(v@.skip(i as int)),
            !more ==> dash_segs(v@) =~~= out.deep_view(),
        decreases (if more {
            v@.len() - i + 1
        } else {
            0int
        }),
    {
        let start = i;
        let mut j = i;
        let mut word = String::new();
        while j < v.len() && v[j] != '-'
            invariant
                start <= j <= v.len(),
                v@ == s@,
                forall|k: int| start <= k < j ==> v@[k] != '-',
                word@ == v@.subrange(start as int, j as int),
            decreases v.len() - j,
        {
            push_char(&mut word, v[j]);
            j = j + 1;
            proof {
                assert(v@.subrange(start as int, j as int) =~= v@.subrange(
                    start as int,
                    j - 1,
                ).push(v@[j - 1]));
            }
        }
        proof {
            lemma_dash_peel(v@, start as int, j as int);
        }
        let ghost pre = out.deep_view();
        out.push(word);
        proof {
            assert(out.deep_view() =~~= pre.push(word@));
            assert(pre.push(word@) =~= pre + seq![word@]);
            if j < v@.len() {
                assert(pre + seq![word@] + dash_segs(v@.skip(j + 1)) =~~= pre + (seq![word@]
                    + dash_segs(v@.skip(j + 1))));
            }
        }
        if j < v.len() {
            i = j + 1;
        } else {
            more = false;
        }
    }
    out
}

/// Words laid out with a space before and after each: what stripping the
/// paragraph markup leaves before the words are rejoined.
spec fn spaced(ws: Seq<Seq<char>>) -> Seq<char>
    decreases ws.len(),
{
    if ws.len() == 0 {
        Seq::empty()
    } else {
        seq![' '] + ws[0] + seq![' '] + spaced(ws.drop_first())
    }
}

/// `wrap_words` unfolded at the front.
proof fn lemma_wrap_words_cons(ws: Seq<Seq<char>>)
    requires
        ws.len() > 0,
    ensures
        wrap_words(ws) == "<p>"@ + ws[0] + "</p>"@ + wrap_words(ws.drop_first()),
    decreases ws.len(),
{
    if ws.len() == 1 {
        assert(ws.drop_last() =~= Seq::<Seq<char>>::empty());
        assert(ws.drop_first() =~= Seq::<Seq<char>>::empty());
        assert(wrap_words(ws) == wrap_words(ws.drop_last()) + "<p>"@ + ws.last() + "</p>"@);
        assert(wrap_words(ws) =~= "<p>"@ + ws[0] + "</p>"@ + wrap_words(ws.drop_first()));
    } else {
        lemma_wrap_words_cons(ws.drop_last());
        assert(ws.drop_last()[0] == ws[0]);
        assert(ws.drop_last().drop_first() =~= ws.drop_first().drop_last());
        assert(ws.drop_first().last() == ws.last());
        assert(wrap_words(ws) == wrap_words(ws.drop_last()) + "<p>"@ + ws.last() + "</p>"@);
        assert(wrap_words(ws.drop_first()) == wrap_words(ws.drop_first().drop_last()) + "<p>"@
            + ws.drop_first().last() + "</p>"@);
        assert(wrap_words(ws) =~= "<p>"@ + ws[0] + "</p>"@ + wrap_words(ws.drop_first()));
    }
}

/// Plain characters pass through the tag stripper unchanged.
proof fn lemma_strip_plain(w: Seq<char>, t: Seq<char>)
    requires
        forall|i: int| 0 <= i < w.len() ==> w[i] != '<',
    ensures
        strip_tags(w + t, false) == w + strip_tags(t, false),
    decreases w.len(),
{
    if w.len() == 0 {
        assert(w + t =~= t);
        assert(w + strip_tags(t, false) =~= strip_tags(t, false));
    } else {
        assert((w + t)[0] == w[0]);
        assert((w + t).drop_first() =~= w.drop_first() + t);
        assert(forall|i: int|
            0 <= i < w.drop_first().len() ==> #[trigger] w.drop_first()[i] == w[i + 1]);
        lemma_strip_plain(w.drop_first(), t);
        assert(strip_tags(w + t, false) == seq![w[0]] + (w.drop_first() + strip_tags(t, false)));
        assert(seq![w[0]] + (w.drop_first() + strip_tags(t, false)) =~= w + strip_tags(t, false));
    }
}

/// One wrapped word strips to the word between two spaces.
proof fn lemma_strip_chunk(w: Seq<char>, t: Seq<char>)
    requires
        forall|i: int| 0 <= i < w.len() ==> w[i] != '<' && w[i] != '>',
    ensures
        strip_tags("<p>"@ + w + "</p>"@ + t, false) == seq![' '] + w + seq![' '] + strip_tags(
            t,
            false,
        ),
{
    reveal_strlit("<p>");
    reveal_strlit("</p>");
    let a = "<p>"@ + w + "</p>"@ + t;
    assert(a[0] == '<');
    let a1 = a.drop_first();
    assert(a1[0] == a[1] && a[1] == 'p');
    let a2 = a1.drop_first();
    assert(a2[0] == a1[1] && a1[1] == a[2] && a[2] == '>');
    let a3 = a2.drop_first();
    assert(a3 =~= w + ("</p>"@ + t));
    assert(strip_tags(a, false) == seq![' '] + strip_tags(a1, true));
    assert(strip_tags(a1, true) == strip_tags(a2, true));
    assert(strip_tags(a2, true) == strip_tags(a3, false));
    lemma_strip_plain(w, "</p>"@ + t);
    let b = "</p>"@ + t;
    assert(b[0] == '<');
    let b1 = b.drop_first();
    assert(b1 =~= seq!['/'] + (seq!['p', '>'] + t));
    assert(b1[0] == '/');
    let b2 = b1.drop_first();
    assert(b2 =~= seq!['p'] + (seq!['>'] + t));
    assert(b2[0] == 'p');
    let b3 = b2.drop_first();
    assert(b3 =~= seq!['>'] + t);
    assert(b3[0] == '>');
    assert(b3.drop_first() =~= t);
    assert(strip_tags(b, false) == seq![' '] + strip_tags(b1, true));
    assert(strip_tags(b1, true) == strip_tags(b2, true));
    assert(strip_tags(b2, true) == strip_tags(b3, true));
    assert(strip_tags(b3, true) == strip_tags(t, false));
    assert(strip_tags(a, false) =~= seq![' '] + w + seq![' '] + strip_tags(t, false));
}

/// Stripping the markup of a word list leaves the spaced-out words.
proof fn lemma_strip_wrapped(ws: Seq<Seq<char>>)
    requires
        forall|k: int, i: int|
            0 <= k < ws.len() && 0 <= i < ws[k].len() ==> #[trigger] ws[k][i] != '<' && ws[k][i]
                != '>',
    ensures
        strip_tags(wrap_words(ws), false) == spaced(ws),
    decreases ws.len(),
{
    if ws.len() == 0 {
        assert(strip_tags(Seq::<char>::empty(), false) =~= Seq::<char>::empty());
    } else {
        lemma_wrap_words_cons(ws);
        assert(forall|k: int, i: int|
            0 <= k < ws.drop_first().len() && 0 <= i < ws.drop_first()[k].len()
                ==> #[trigger] ws.drop_first()[k][i] == ws[k + 1][i]);
        lemma_strip_wrapped(ws.drop_first());
        assert(forall|i: int| 0 <= i < ws[0].len() ==> #[trigger] ws[0][i] != '<' && ws[0][i]
            != '>');
        lemma_strip_chunk(ws[0], wrap_words(ws.drop_first()));
        assert(wrap_words(ws) =~= "<p>"@ + ws[0] + "</p>"@ + wrap_words(ws.drop_first()));
        assert(strip_tags(wrap_words(ws), false) =~= seq![' '] + ws[0] + seq![' '] + spaced(
            ws.drop_first(),
        ));
    }
}

/// Splitting the spaced-out words recovers the word list.
proof fn lemma_words_of_spaced(ws: Seq<Seq<char>>)
    requires
        forall|k: int| 0 <= k < ws.len() ==> (#[trigger] ws[k]).len() > 0,
        forall|k: int, i: int|
            0 <= k < ws.len() && 0 <= i < ws[k].len() ==> !is_space(#[trigger] ws[k][i]),
    ensures
        words_of(spaced(ws)) == ws,
    decreases ws.len(),
{
    if ws.len() == 0 {
        assert(words_of(spaced(ws)) =~= ws);
    } else {
        let s = spaced(ws);
        let w = ws[0];
        assert(s[0] == ' ');
        let s1 = s.drop_first();
        assert(s1 =~= w + (seq![' '] + spaced(ws.drop_first())));
        assert(words_of(s) == words_of(s1));
        assert(forall|i: int| 0 <= i < w.len() ==> !is_space(#[trigger] s1[i]));
        assert(s1[w.len() as int] == ' ');
        lemma_word_peel(s1, 0, w.len() as int);
        assert(s1.skip(0) =~= s1);
        assert(s1.subrange(0, w.len() as int) =~= w);
        assert(s1.skip(w.len() as int) =~= seq![' '] + spaced(ws.drop_first()));
        let s2 = seq![' '] + spaced(ws.drop_first());
        assert(s2[0] == ' ');
        assert(s2.drop_first() =~= spaced(ws.drop_first()));
        assert(words_of(s2) == words_of(spaced(ws.drop_first())));
        assert(forall|k: int|
            0 <= k < ws.drop_first().len() ==> (#[trigger] ws.drop_first()[k]) == ws[k + 1]);
        lemma_words_of_spaced(ws.drop_first());
        assert(words_of(s) =~= seq![w] + ws.drop_first());
        assert(seq![w] + ws.drop_first() =~= ws);
    }
}

/// The words of any text are non-empty and hold no whitespace.
proof fn lemma_words_of_props(s: Seq<char>)
    ensures
        forall|k: int| 0 <= k < words_of(s).len() ==> (#[trigger] words_of(s)[k]).len() > 0,
        forall|k: int, i: int|
            0 <= k < words_of(s).len() && 0 <= i < words_of(s)[k].len() ==> !is_space(
                #[trigger] words_of(s)[k][i],
            ),
    decreases s.len(),
{
    if s.len() == 0 {
    } else if is_space(s[0]) {
        lemma_words_of_props(s.drop_first());
        assert(words_of(s) == words_of(s.drop_first()));
        assert forall|k: int| 0 <= k < words_of(s).len() implies (
        #[trigger] words_of(s)[k]).len() > 0 by {
            assert(words_of(s)[k] == words_of(s.drop_first())[k]);
        }
        assert forall|k: int, i: int|
            0 <= k < words_of(s).len() && 0 <= i < words_of(s)[k].len() implies !is_space(
            #[trigger] words_of(s)[k][i],
        ) by {
            assert(words_of(s)[k] == words_of(s.drop_first())[k]);
        }
    } else {
        lemma_first_word_len_bounds(s);
        let l = first_word_len(s);
        lemma_first_word_chars(s);
        lemma_words_of_props(s.skip(l));
        let rest = words_of(s.skip(l));
        let all = words_of(s);
        assert(all == seq![s.take(l)] + rest);
        assert forall|k: int| 0 <= k < all.len() implies (#[trigger] all[k]).len() > 0 by {
            if k == 0 {
                assert(all[0] == s.take(l));
            } else {
                assert(all[k] == rest[k - 1]);
                assert(rest[k - 1].len() > 0);
            }
        }
        assert forall|k: int, i: int|
            0 <= k < all.len() && 0 <= i < all[k].len() implies !is_space(
            #[trigger] all[k][i],
        ) by {
            if k == 0 {
                assert(all[0] == s.take(l));
                assert(s.take(l)[i] == s[i]);
                assert(!is_space(s[i]));
            } else {
                assert(all[k] == rest[k - 1]);
                assert(!is_space(rest[k - 1][i]));
            }
        }
    }
}

/// The first word's characters are not whitespace.
proof fn lemma_first_word_chars(s: Seq<char>)
    ensures
        forall|i: int| 0 <= i < first_word_len(s) ==> !is_space(#[trigger] s[i]),
    decreases s.len(),
{
    lemma_first_word_len_bounds(s);
    if s.len() > 0 && !is_space(s[0]) {
        lemma_first_word_chars(s.drop_first());
        lemma_first_word_len_bounds(s.drop_first());
        assert forall|i: int| 0 <= i < first_word_len(s) implies !is_space(#[trigger] s[i]) by {
            if i > 0 {
                assert(first_word_len(s) == 1 + first_word_len(s.drop_first()));
                assert(0 <= i - 1 < first_word_len(s.drop_first()));
                assert(!is_space(s.drop_first()[i - 1]));
                assert(s.drop_first()[i - 1] == s[i]);
            }
        }
    }
}

/// Round trip of the normalizer's markup: wrapping a text whose words hold
/// no tag delimiters, then stripping, yields the words rejoined with
/// single spaces.
pub proof fn lemma_wrap_strip_round_trip(s: Seq<char>)
    requires
        forall|i: int| 0 <= i < s.len() ==> s[i] != '<' && s[i] != '>',
    ensures
        stripped_of(paragraphs_of(s)) == join_words(words_of(s)),
{
    let ws = words_of(s);
    lemma_words_of_props(s);
    lemma_words_of_in_text(s);
    lemma_strip_wrapped(ws);
    lemma_words_of_spaced(ws);
}

/// Every character of every word occurs in the text itself.
proof fn lemma_words_of_in_text(s: Seq<char>)
    ensures
        forall|k: int, i: int|
            0 <= k < words_of(s).len() && 0 <= i < words_of(s)[k].len() ==> s.contains(
                #[trigger] words_of(s)[k][i],
            ),
    decreases s.len(),
{
    if s.len() == 0 {
    } else if is_space(s[0]) {
        lemma_words_of_in_text(s.drop_first());
        assert forall|k: int, i: int|
            0 <= k < words_of(s).len() && 0 <= i < words_of(s)[k].len() implies s.contains(
            #[trigger] words_of(s)[k][i],
        ) by {
            assert(words_of(s) == words_of(s.drop_first()));
            assert(s.drop_first().contains(words_of(s)[k][i]));
            let l = choose|l: int|
                0 <= l < s.drop_first().len() && s.drop_first()[l] == words_of(s)[k][i];
            assert(s[l + 1] == words_of(s)[k][i]);
        }
    } else {
        lemma_first_word_len_bounds(s);
        let l = first_word_len(s);
        lemma_words_of_in_text(s.skip(l));
        let rest = words_of(s.skip(l));
        let all = words_of(s);
        assert(all == seq![s.take(l)] + rest);
        assert forall|k: int, i: int|
            0 <= k < all.len() && 0 <= i < all[k].len() implies s.contains(
            #[trigger] all[k][i],
        ) by {
            if k == 0 {
                assert(all[0] == s.take(l));
                assert(s.take(l)[i] == s[i]);
            } else {
                assert(all[k] == rest[k - 1]);
                assert(s.skip(l).contains(all[k][i]));
                let m = choose|m: int| 0 <= m < s.skip(l).len() && s.skip(l)[m] == all[k][i];
                assert(s[m + l] == all[k][i]);
            }
        }
    }
}

} // verus!
