use newline_normalizer::{ToDosNewlines, ToUnixNewlines};
use std::borrow::Cow;

fn samples() -> Vec<&'static str> {
    vec![
        "",
        "plain",
        "\r",
        "\n",
        "\r\n",
        "\r\r",
        "\n\n",
        "\n\r",
        "\r\n\n",
        "\r\r\n",
        "line1\rline2\r\nline3\nline4\r",
        "line1\r\nline2\rline3\nline4\r",
        "élève\r\nüber\rcoöperate\nnaïve",
        "👩‍💻\n👨‍🔧\r👩‍🔬\r\n",
        "a\u{0301}\r\nb\u{0323}\r",
        "\r\nalready\r\ndos\r\n",
    ]
}

fn breaks(text: &str) -> usize {
    let bytes = text.as_bytes();
    let mut count = 0;
    let mut i = 0;
    while i < bytes.len() {
        if bytes[i] == b'\r' {
            count += 1;
            if i + 1 < bytes.len() && bytes[i + 1] == b'\n' {
                i += 1;
            }
        } else if bytes[i] == b'\n' {
            count += 1;
        }
        i += 1;
    }
    count
}

fn plain(text: &str) -> Vec<u8> {
    text.bytes().filter(|b| *b != b'\r' && *b != b'\n').collect()
}

#[test]
fn unix_twice_is_unix_once() {
    for text in samples() {
        let once = text.to_unix_newlines().into_owned();
        let twice = once.to_unix_newlines();
        assert!(matches!(twice, Cow::Borrowed(_)));
        assert_eq!(twice, once);
    }
}

#[test]
fn dos_twice_is_dos_once() {
    for text in samples() {
        let once = text.to_dos_newlines().into_owned();
        let twice = once.to_dos_newlines();
        assert!(matches!(twice, Cow::Borrowed(_)));
        assert_eq!(twice, once);
    }
}

#[test]
fn borrowed_exactly_when_nothing_changes() {
    for text in samples() {
        let unix = text.to_unix_newlines();
        assert_eq!(matches!(unix, Cow::Borrowed(_)), !text.contains('\r'));
        assert_eq!(matches!(unix, Cow::Borrowed(_)), unix == text);
        let dos = text.to_dos_newlines();
        assert_eq!(matches!(dos, Cow::Borrowed(_)), dos == text);
    }
}

#[test]
fn borrowed_result_is_the_same_storage() {
    let text = "one\ntwo\n";
    match text.to_unix_newlines() {
        Cow::Borrowed(kept) => assert!(std::ptr::eq(kept, text)),
        Cow::Owned(_) => panic!("text without a carriage return was rebuilt"),
    }
    let text = "one\r\ntwo\r\n";
    match text.to_dos_newlines() {
        Cow::Borrowed(kept) => assert!(std::ptr::eq(kept, text)),
        Cow::Owned(_) => panic!("well-paired text was rebuilt"),
    }
}

#[test]
fn unix_of_dos_has_one_line_feed_per_break() {
    for text in samples() {
        let dos = text.to_dos_newlines().into_owned();
        let back = dos.to_unix_newlines().into_owned();
        assert_eq!(back, text.to_unix_newlines());
        assert!(!back.contains('\r'));
        assert_eq!(back.matches('\n').count(), breaks(text));
    }
}

#[test]
fn mixed_breaks_counted_once_each() {
    let text = "a\r\nb\rc\nd\r\r\n\n";
    assert_eq!(breaks(text), 6);
    assert_eq!(text.to_dos_newlines(), "a\r\nb\r\nc\r\nd\r\n\r\n\r\n");
    assert_eq!(text.to_dos_newlines().to_unix_newlines(), "a\nb\nc\nd\n\n\n");
}

#[test]
fn bytes_outside_line_breaks_are_kept_in_order() {
    for text in samples() {
        assert_eq!(plain(&text.to_unix_newlines()), plain(text));
        assert_eq!(plain(&text.to_dos_newlines()), plain(text));
    }
}

#[test]
fn unix_never_grows_and_dos_never_shrinks() {
    for text in samples() {
        let unix = text.to_unix_newlines();
        let dos = text.to_dos_newlines();
        assert!(unix.len() <= text.len());
        assert!(text.len() <= 2 * unix.len());
        assert!(text.len() <= dos.len());
        assert!(dos.len() <= 2 * text.len());
    }
}

#[test]
fn exact_lengths() {
    assert_eq!("a\r\nb\rc\nd".to_unix_newlines().len(), 7);
    assert_eq!("a\r\nb\rc\nd".to_dos_newlines().len(), 10);
    assert_eq!("\r\n\r\n".to_unix_newlines().len(), 2);
    assert_eq!("\n\n".to_dos_newlines().len(), 4);
}

#[test]
fn lone_cr_at_the_end_and_lone_lf_at_the_start() {
    assert_eq!("text\r".to_unix_newlines(), "text\n");
    assert_eq!("text\r".to_dos_newlines(), "text\r\n");
    assert_eq!("\ntext".to_dos_newlines(), "\r\ntext");
    assert_eq!("\ntext".to_unix_newlines(), "\ntext");
}

#[test]
fn lf_after_a_pair_gets_a_pair_of_its_own() {
    assert_eq!("\r\n\n".to_dos_newlines(), "\r\n\r\n");
    assert_eq!("a\r\r\nb".to_dos_newlines(), "a\r\n\r\nb");
}

#[test]
fn owned_result_is_valid_text() {
    let text = "日本語\rテキスト\r\n終わり\n";
    let unix = text.to_unix_newlines().into_owned();
    assert_eq!(unix, "日本語\nテキスト\n終わり\n");
    assert_eq!(unix.chars().count(), 13);
    let dos = text.to_dos_newlines().into_owned();
    assert_eq!(dos, "日本語\r\nテキスト\r\n終わり\r\n");
    assert_eq!(dos.chars().count(), 16);
}
