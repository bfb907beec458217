//! Rewriting every line break to `\n`.

use vstd::prelude::*;
use vstd::slice::slice_subrange;
use crate::model::{
    break_len,
    CR,
    cr_free,
    kept_by,
    lemma_cr_free_is_unix,
    lemma_kept_prefix,
    lemma_unix_form_cr_free,
    lemma_unix_form_len,
    LF,
    unix_eol,
    unix_form,
};
use crate::search::find_byte_from;
use crate::text::{lemma_text_bytes, text_from_bytes, unix_text};
use std::borrow::Cow;
use vstd::utf8::{encode_utf8, encode_utf8_decode_utf8, encode_utf8_valid_utf8};

verus! {

/// Converts any mix of `\r\n`, `\r` and `\n` line breaks to `\n`.
///
/// Characters of more than one byte, combining marks and emoji sequences pass
/// through untouched.
pub trait ToUnixNewlines {
    /// The text with every line break written as `\n`; borrowed where it
    /// needs no change.
    fn to_unix_newlines(&self) -> Cow<'_, str>;
}

impl ToUnixNewlines for str {
    /// Rewrites `\r\n` and lone `\r` to `\n`. The text itself is handed back,
    /// borrowed, exactly where it holds no `\r`.
    fn to_unix_newlines(&self) -> (r: Cow<'_, str>)
        ensures
            r@ == unix_text(self@),
            encode_utf8(r@) == unix_form(encode_utf8(self@)),
            r is Borrowed <==> cr_free(encode_utf8(self@)),
            r is Borrowed <==> unix_text(self@) == self@,
    {
        proof {
            lemma_text_bytes(self@);
            encode_utf8_decode_utf8(self@);
            encode_utf8_decode_utf8(unix_text(self@));
        }
        match unix_newline_bytes(self.as_bytes()) {
            None => Cow::Borrowed(self),
            Some(out) => {
                proof {
                    encode_utf8_valid_utf8(unix_text(self@));
                }
                Cow::Owned(text_from_bytes(out))
            },
        }
    }
}

/// Rewrites `\r\n` and lone `\r` in `s` to `\n`.
///
/// Returns `None` where `s` holds no `\r`, so that the caller keeps the text
/// it has; otherwise the rebuilt text.
pub fn unix_newline_bytes(s: &[u8]) -> (r: Option<Vec<u8>>)
    ensures
        r is None <==> cr_free(s@),
        r is None <==> unix_form(s@) == s@,
        r matches Some(out) ==> out@ == unix_form(s@),
        r matches Some(out) ==> out@.len() <= s@.len(),
{
    let len = s.len();
    let mut cr: usize = match find_byte_from(CR, s, 0) {
        Some(first) => first,
        None => {
            proof {
                lemma_cr_free_is_unix(s@);
            }
            return None;
        },
    };
    proof {
        lemma_unix_form_cr_free(s@);
        lemma_unix_form_len(s@);
        assert(s@.skip(0) =~= s@);
    }
    let mut out: Vec<u8> = Vec::with_capacity(len);
    let mut pos: usize = 0;
    let mut more = true;
    while more
        invariant
            len == s@.len(),
            pos <= len,
            out@ + unix_form(s@.skip(pos as int)) == unix_form(s@),
            more ==> pos <= cr < len && s@[cr as int] == CR,
            more ==> kept_by(s@.subrange(pos as int, cr as int), unix_eol()),
            !more ==> cr_free(s@.skip(pos as int)),
        decreases len - pos,
    {
        let ghost before = out@;
        let ghost start = pos as int;
        out.extend_from_slice(slice_subrange(s, pos, cr));
        out.push(LF);
        pos = cr + 1;
        if pos < len && s[pos] == LF {
            pos += 1;
        }
        proof {
            let rest = s@.skip(start);
            let at = s@.skip(cr as int);
            assert(rest.take(cr - start) =~= s@.subrange(start, cr as int));
            lemma_kept_prefix(rest, cr - start, unix_eol());
            assert(rest.skip(cr - start) =~= at);
            assert(break_len(at) == pos - cr);
            assert(at.skip(pos - cr) =~= s@.skip(pos as int));
            assert(out@ =~= before + s@.subrange(start, cr as int) + unix_eol());
            assert(out@ + unix_form(s@.skip(pos as int)) =~= before + unix_form(rest));
        }
        match find_byte_from(CR, s, pos) {
            Some(next) => {
                cr = next;
            },
            None => {
                more = false;
            },
        }
    }
    proof {
        lemma_cr_free_is_unix(s@.skip(pos as int));
    }
    if pos < len {
        out.extend_from_slice(slice_subrange(s, pos, len));
        assert(out@ =~= unix_form(s@));
    } else {
        assert(s@.skip(pos as int) =~= Seq::<u8>::empty());
        assert(out@ =~= unix_form(s@));
    }
    Some(out)
}

} // verus!
