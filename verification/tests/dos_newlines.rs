use newline_normalizer::ToDosNewlines;
use std::borrow::Cow;

#[test]
fn preserves_crlf_only_input() {
    assert_eq!(
        "line1\r\nline2\r\nline3".to_dos_newlines(),
        "line1\r\nline2\r\nline3"
    );
}

#[test]
fn handles_lf_after_crlf() {
    assert_eq!(
        "Это пример параграфа с пробелами и юникодом.\r\n\n    Он".to_dos_newlines(),
        "Это пример параграфа с пробелами и юникодом.\r\n\r\n    Он"
    );
}

#[test]
fn handles_lf_at_start() {
    assert_eq!(
        "\nЭто пример параграфа с пробелами и юникодом.".to_dos_newlines(),
        "\r\nЭто пример параграфа с пробелами и юникодом."
    );
}

#[test]
fn converts_lf_to_crlf() {
    assert_eq!(
        "line1\nline2\nline3".to_dos_newlines(),
        "line1\r\nline2\r\nline3"
    );
}

#[test]
fn converts_cr_to_crlf() {
    assert_eq!(
        "line1\rline2\rline3".to_dos_newlines(),
        "line1\r\nline2\r\nline3"
    );
}

#[test]
fn lib_handles_mixed_newlines() {
    assert_eq!(
        "line1\r\nline2\rline3\nline4\r".to_dos_newlines(),
        "line1\r\nline2\r\nline3\r\nline4\r\n"
    );
}

#[test]
fn lib_empty_input_returns_borrowed() {
    assert_eq!("".to_dos_newlines(), "");
}

#[test]
fn single_line_lf() {
    assert_eq!(
        "line\n".to_dos_newlines(),
        "line\r\n"
    );
}

#[test]
fn lib_single_line_cr() {
    assert_eq!(
        "line\r".to_dos_newlines(),
        "line\r\n"
    );
}

#[test]
fn lib_preserves_unicode_accents() {
    let input = "élève\nüber\rcoöperate\r\nnaïve";
    let expected = "élève\r\nüber\r\ncoöperate\r\nnaïve";
    assert_eq!(input.to_dos_newlines(), expected);
}

#[test]
fn lib_preserves_rtl_text_newlines() {
    let input = "مرحبا\nبالعالم\rمرحبا\r\nبكم";
    let expected = "مرحبا\r\nبالعالم\r\nمرحبا\r\nبكم";
    assert_eq!(input.to_dos_newlines(), expected);
}

#[test]
fn lib_preserves_combining_characters() {
    let input = "a\u{0301}\nb\u{0323}\r";
    let expected = "a\u{0301}\r\nb\u{0323}\r\n";
    assert_eq!(input.to_dos_newlines(), expected);
}

#[test]
fn lib_preserves_emoji_sequences() {
    let input = "👩‍💻\n👨‍🔧\r👩‍🔬\r\n";
    let expected = "👩‍💻\r\n👨‍🔧\r\n👩‍🔬\r\n";
    assert_eq!(input.to_dos_newlines(), expected);
}

#[test]
fn trailing_lone_cr_only() {
    let input = "line1\rline2\r";
    let expected = "line1\r\nline2\r\n";
    assert_eq!(input.to_dos_newlines(), expected);
}

#[test]
fn lib_embedded_fullwidth_characters() {
    let input = "a\u{3000}b\nc\u{200B}d\r";
    let expected = "a\u{3000}b\r\nc\u{200B}d\r\n";
    assert_eq!(input.to_dos_newlines(), expected);
}

#[test]
fn lib_avoid_allocating_for_normal_string() {
    let input = "\r\nThis is already a normal string,\r\nno need to run normalizer.\r\n";
    let result = input.to_dos_newlines();
    assert!(matches!(result, Cow::Borrowed(_)));
    assert_eq!(result, result);
}
