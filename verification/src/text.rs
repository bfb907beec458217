//! Text as characters: what a rewrite of line breaks is on the characters of
//! a text, and why it may be carried out on the bytes of its UTF-8 form. Line
//! breaks are made of one-byte characters only, and no byte of a longer
//! character can be taken for one.

use vstd::prelude::*;
use vstd::utf8::{
    decode_utf8,
    decode_utf8_encode_utf8,
    encode_scalar,
    encode_utf8,
    encode_utf8_decode_utf8,
    encode_utf8_first_scalar,
    encode_utf8_valid_utf8,
    length_of_first_scalar,
    valid_first_scalar,
    valid_utf8,
};
use crate::model::{
    break_len,
    CR,
    dos_eol,
    dos_form,
    is_break_byte,
    is_eol,
    lemma_kept_prefix,
    LF,
    unix_eol,
    unix_form,
    with_breaks,
};

verus! {

/// The error of `String::from_utf8`, which holds the rejected bytes.
#[verifier::external_type_specification]
#[verifier::external_body]
pub struct ExFromUtf8Error(std::string::FromUtf8Error);

/// `String::from_utf8`, taken on trust: it succeeds exactly on valid UTF-8,
/// and the string it returns is made of the very bytes it was given.
pub assume_specification[ String::from_utf8 ](vec: Vec<u8>) -> (r: Result<
    String,
    std::string::FromUtf8Error,
>)
    ensures
        r is Ok <==> valid_utf8(vec@),
        r matches Ok(text) ==> encode_utf8(text@) == vec@,
;

/// The text that the valid UTF-8 bytes `bytes` spell.
pub(crate) fn text_from_bytes(bytes: Vec<u8>) -> (text: String)
    requires
        valid_utf8(bytes@),
    ensures
        encode_utf8(text@) == bytes@,
        text@ == decode_utf8(bytes@),
{
    match String::from_utf8(bytes) {
        Ok(text) => {
            proof {
                encode_utf8_decode_utf8(text@);
            }
            text
        },
        Err(_) => unreached(),
    }
}

/// The number of characters of the line break that `t` starts with: 2 for
/// `\r\n`, 1 for a lone `\r` or `\n`, and 0 where `t` does not start with a
/// line break.
pub open spec fn leading_break(t: Seq<char>) -> int {
    if t.len() == 0 {
        0
    } else if t[0] == '\r' {
        if t.len() > 1 && t[1] == '\n' {
            2
        } else {
            1
        }
    } else if t[0] == '\n' {
        1
    } else {
        0
    }
}

/// The characters of `t` with every line break replaced by `eol`, read from
/// the left: `\r\n` counts as one line break, never as two.
pub open spec fn text_with_breaks(t: Seq<char>, eol: Seq<char>) -> Seq<char>
    decreases t.len(),
{
    if t.len() == 0 {
        t
    } else if leading_break(t) > 0 {
        eol + text_with_breaks(t.skip(leading_break(t)), eol)
    } else {
        seq![t[0]] + text_with_breaks(t.skip(1), eol)
    }
}

/// The characters of `t` with every line break written as `\n`.
pub open spec fn unix_text(t: Seq<char>) -> Seq<char> {
    text_with_breaks(t, seq!['\n'])
}

/// The characters of `t` with every line break written as `\r\n`.
pub open spec fn dos_text(t: Seq<char>) -> Seq<char> {
    text_with_breaks(t, seq!['\r', '\n'])
}

/// No character of `t` is a carriage return.
pub open spec fn text_cr_free(t: Seq<char>) -> bool {
    forall|i: int| 0 <= i < t.len() ==> t[i] != '\r'
}

/// The characters that the bytes of a line terminator spell.
pub open spec fn eol_chars(eol: Seq<u8>) -> Seq<char> {
    if eol == unix_eol() {
        seq!['\n']
    } else {
        seq!['\r', '\n']
    }
}

/// How a character is written in UTF-8, as far as line breaks go: `\r` and
/// `\n` are one byte each, and no byte of any other character is one of them.
pub proof fn lemma_char_bytes(c: char)
    ensures
        1 <= encode_scalar(c as u32).len() <= 4,
        c == '\r' ==> encode_scalar(c as u32) == seq![CR],
        c == '\n' ==> encode_scalar(c as u32) == seq![LF],
        c != '\r' && c != '\n' ==> forall|i: int|
            0 <= i < encode_scalar(c as u32).len() ==> !is_break_byte(
                #[trigger] encode_scalar(c as u32)[i],
            ),
{
    let e = encode_scalar(c as u32);
    let one = seq![c];
    encode_utf8_first_scalar(one);
    assert(one.drop_first() =~= Seq::<char>::empty());
    assert(encode_utf8(one) =~= e) by {
        reveal_with_fuel(encode_utf8, 2);
    }
    assert(valid_first_scalar(e));
    assert(length_of_first_scalar(e) == e.len());
    if e.len() == 1 {
        let b = e[0];
        assert(b <= 0x7f);
        assert((b & 0x7F) == b) by (bit_vector)
            requires
                b <= 0x7f,
        ;
        assert(b as u32 == c as u32);
        if c == '\r' {
            assert(e =~= seq![CR]);
        }
        if c == '\n' {
            assert(e =~= seq![LF]);
        }
    }
}

/// The bytes of a text with `x` put in front are the bytes of `x` followed by
/// the bytes of the text, for `x` of one or two characters.
pub proof fn lemma_bytes_after(x: Seq<char>, t: Seq<char>)
    requires
        1 <= x.len() <= 2,
    ensures
        x.len() == 1 ==> encode_utf8(x + t) == encode_scalar(x[0] as u32) + encode_utf8(t),
        x.len() == 2 ==> encode_utf8(x + t) == encode_scalar(x[0] as u32) + encode_scalar(
            x[1] as u32,
        ) + encode_utf8(t),
{
    let z = x + t;
    if x.len() == 1 {
        assert(z.drop_first() =~= t);
    } else {
        let y = z.drop_first();
        assert(y.drop_first() =~= t);
        assert(z[0] == x[0]);
        assert(y[0] == x[1]);
        assert(encode_utf8(y) == encode_scalar(y[0] as u32) + encode_utf8(y.drop_first()));
        assert(encode_utf8(z) == encode_scalar(z[0] as u32) + encode_utf8(y));
        assert(encode_utf8(z) =~= encode_scalar(x[0] as u32) + (encode_scalar(x[1] as u32)
            + encode_utf8(t)));
    }
}

/// Rewriting the line breaks of a text and rewriting them in its bytes come
/// to the same: the bytes of the rewritten text are the rewritten bytes.
pub proof fn lemma_text_with_breaks_bytes(t: Seq<char>, eol: Seq<u8>)
    requires
        is_eol(eol),
    ensures
        encode_utf8(text_with_breaks(t, eol_chars(eol))) == with_breaks(encode_utf8(t), eol),
    decreases t.len(),
{
    let marks = eol_chars(eol);
    let bytes = encode_utf8(t);
    lemma_char_bytes('\r');
    lemma_char_bytes('\n');
    if t.len() == 0 {
    } else {
        let c = t[0];
        let e = encode_scalar(c as u32);
        let rest = t.drop_first();
        lemma_char_bytes(c);
        assert(rest =~= t.skip(1));
        assert(bytes == e + encode_utf8(rest));
        if rest.len() > 0 {
            lemma_char_bytes(rest[0]);
            assert(encode_utf8(rest) == encode_scalar(rest[0] as u32) + encode_utf8(
                rest.drop_first(),
            ));
            assert(rest.drop_first() =~= t.skip(2));
        }
        let step = leading_break(t);
        if step > 0 {
            assert(e.len() == 1);
            assert(bytes[0] == e[0]);
            if rest.len() > 0 {
                assert(bytes[1] == encode_scalar(rest[0] as u32)[0]);
            } else {
                assert(bytes.len() == 1);
            }
            assert(break_len(bytes) == step);
            assert(bytes.skip(step) =~= encode_utf8(t.skip(step)));
            lemma_text_with_breaks_bytes(t.skip(step), eol);
            lemma_bytes_after(marks, text_with_breaks(t.skip(step), marks));
        } else {
            let head = bytes.take(e.len() as int);
            assert(head =~= e);
            assert forall|i: int| 0 <= i < head.len() implies #[trigger] head[i] != CR && (head[i]
                == LF ==> eol == unix_eol()) by {
                assert(!is_break_byte(e[i]));
            }
            lemma_kept_prefix(bytes, e.len() as int, eol);
            assert(bytes.skip(e.len() as int) =~= encode_utf8(rest));
            lemma_text_with_breaks_bytes(rest, eol);
            lemma_bytes_after(seq![c], text_with_breaks(rest, marks));
        }
    }
}

/// The bytes of the unix text are the unix form of the bytes, and the bytes
/// of the dos text the dos form of the bytes.
pub proof fn lemma_text_bytes(t: Seq<char>)
    ensures
        encode_utf8(unix_text(t)) == unix_form(encode_utf8(t)),
        encode_utf8(dos_text(t)) == dos_form(encode_utf8(t)),
{
    lemma_text_with_breaks_bytes(t, unix_eol());
    lemma_text_with_breaks_bytes(t, dos_eol());
}

/// Rewriting the line breaks of valid UTF-8 gives valid UTF-8: no character
/// of more than one byte is ever cut.
pub proof fn lemma_with_breaks_valid(s: Seq<u8>, eol: Seq<u8>)
    requires
        valid_utf8(s),
        is_eol(eol),
    ensures
        valid_utf8(with_breaks(s, eol)),
{
    decode_utf8_encode_utf8(s);
    lemma_text_with_breaks_bytes(decode_utf8(s), eol);
    encode_utf8_valid_utf8(text_with_breaks(decode_utf8(s), eol_chars(eol)));
}

} // verus!
