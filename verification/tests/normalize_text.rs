use cases::normalize::chars_of;
use cases::normalize::clean_field;
use cases::normalize::doc_ref_suffix;
use cases::normalize::fold_width;
use cases::normalize::remove_html_tags;
use cases::normalize::split_dashes;
use cases::normalize::split_words;
use cases::normalize::string_of;
use cases::normalize::truncate_chars;
use cases::normalize::wrap_paragraphs;

#[test]
fn wraps_each_word_in_paragraph_markup() {
    assert_eq!(wrap_paragraphs("a b"), "<p>a</p><p>b</p>");
    assert_eq!(wrap_paragraphs("  one \n two\tthree "), "<p>one</p><p>two</p><p>three</p>");
    assert_eq!(wrap_paragraphs("单词"), "<p>单词</p>");
}

#[test]
fn wrapping_empty_text_yields_empty_markup() {
    assert_eq!(wrap_paragraphs(""), "");
    assert_eq!(wrap_paragraphs(" \t\n"), "");
}

#[test]
fn stripping_markup_rejoins_words_with_spaces() {
    assert_eq!(remove_html_tags("<p>a</p><p>b</p>"), "a b");
    assert_eq!(remove_html_tags("<p>第一段</p><p>第二段</p>"), "第一段 第二段");
    assert_eq!(remove_html_tags(""), "");
    assert_eq!(remove_html_tags("no tags here"), "no tags here");
}

#[test]
fn strip_inverts_wrap_on_plain_text() {
    let text = "alpha beta  gamma";
    assert_eq!(remove_html_tags(&wrap_paragraphs(text)), "alpha beta gamma");
}

#[test]
fn folds_full_width_characters() {
    assert_eq!(fold_width("ＡＢｃ１２"), "ABc12");
    assert_eq!(fold_width("ａ\u{3000}ｂ"), "a b");
    assert_eq!(fold_width("plain"), "plain");
}

#[test]
fn cleans_field_by_trimming_and_widening_commas() {
    assert_eq!(clean_field("  x,y  "), "x\u{FF0C}y");
    assert_eq!(clean_field("   "), "");
    assert_eq!(clean_field("a"), "a");
}

#[test]
fn keeps_only_the_reference_after_the_last_separator() {
    assert_eq!(
        doc_ref_suffix("https://example/index.html?docId=964fc681687d4e47a0a9ace500096dde"),
        "964fc681687d4e47a0a9ace500096dde"
    );
    assert_eq!(doc_ref_suffix("a=b=c"), "c");
    assert_eq!(doc_ref_suffix("no-separator"), "");
    assert_eq!(doc_ref_suffix(""), "");
}

#[test]
fn truncates_previews_by_character_count() {
    assert_eq!(truncate_chars("hello", 3), "hel");
    assert_eq!(truncate_chars("hi", 10), "hi");
    assert_eq!(truncate_chars("中文字符串", 2), "中文");
}

#[test]
fn splits_dates_on_dashes_keeping_empty_segments() {
    assert_eq!(split_dashes("2020-01-02"), vec!["2020", "01", "02"]);
    assert_eq!(split_dashes("a--b"), vec!["a", "", "b"]);
    assert_eq!(split_dashes(""), vec![""]);
    assert_eq!(split_dashes("nodash"), vec!["nodash"]);
}

#[test]
fn splits_words_on_unicode_whitespace() {
    let v = chars_of("one\u{3000}two  three");
    let ws = split_words(&v);
    let words: Vec<String> = ws.iter().map(string_of).collect();
    assert_eq!(words, vec!["one", "two", "three"]);
}
