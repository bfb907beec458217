use newline_normalizer::ToUnixNewlines;
use std::borrow::Cow;

#[test]
fn preserves_lf_only_input() {
    assert_eq!(
        "line1\nline2\nline3".to_unix_newlines(), "line1\nline2\nline3"
    );
}

#[test]
fn converts_crlf_to_lf() {
    assert_eq!(
        "line1\r\nline2\r\nline3".to_unix_newlines(), "line1\nline2\nline3"
    );
}

#[test]
fn converts_cr_to_lf() {
    assert_eq!(
        "line1\rline2\rline3".to_unix_newlines(), "line1\nline2\nline3"
    );
}

#[test]
fn handles_mixed_newlines() {
    assert_eq!(
        "line1\rline2\r\nline3\nline4\r".to_unix_newlines(), "line1\nline2\nline3\nline4\n"
    );
}

#[test]
fn empty_input_returns_borrowed() {
    assert_eq!("".to_unix_newlines(), "");
}

#[test]
fn single_line_crlf() {
    assert_eq!(
        "line\r\n".to_unix_newlines(), "line\n"
    );
}

#[test]
fn single_line_cr() {
    assert_eq!(
        "line\r".to_unix_newlines(), "line\n"
    );
}

#[test]
fn handles_double_cr() {
    assert_eq!(
        "line\r\rline2".to_unix_newlines(), "line\n\nline2"
    );
}

#[test]
fn preserves_unicode_accents() {
    let input = "élève\r\nüber\rcoöperate\nnaïve";
    let expected = "élève\nüber\ncoöperate\nnaïve";
    assert_eq!(input.to_unix_newlines(), expected);
}

#[test]
fn preserves_rtl_text_newlines() {
    let input = "مرحبا\r\nبالعالم\rمرحبا\nبكم";
    let expected = "مرحبا\nبالعالم\nمرحبا\nبكم";
    assert_eq!(input.to_unix_newlines(), expected);
}

#[test]
fn preserves_combining_characters() {
    let input = "a\u{0301}\r\nb\u{0323}\r";
    let expected = "a\u{0301}\nb\u{0323}\n";
    assert_eq!(input.to_unix_newlines(), expected);
}

#[test]
fn preserves_emoji_sequences() {
    let input = "👩‍💻\r\n👨‍🔧\r👩\n";
    let expected = "👩‍💻\n👨‍🔧\n👩\n";
    assert_eq!(input.to_unix_newlines(), expected);
}

#[test]
fn trailing_carriage_return_only() {
    let input = "line1\rline2\r";
    let expected = "line1\nline2\n";
    assert_eq!(input.to_unix_newlines(), expected);
}

#[test]
fn embedded_fullwidth_characters() {
    let input = "a\u{3000}b\r\nc\u{200B}d\r";
    let expected = "a\u{3000}b\nc\u{200B}d\n";
    assert_eq!(input.to_unix_newlines(), expected);
}

#[test]
fn avoid_allocating_for_normal_string() {
    let input = "This is already a normal string,\nno need to run normalizer.\n";
    let result = input.to_unix_newlines();
    assert!(matches!(result, Cow::Borrowed(_)));
    assert_eq!(result, result);
}
