//! Rewriting every line break to `\r\n`.

use vstd::prelude::*;
use vstd::slice::slice_subrange;
use crate::model::{
    break_len,
    CR,
    crlf_paired,
    dos_eol,
    dos_form,
    is_break_byte,
    kept_by,
    lemma_dos_form_len,
    lemma_kept_prefix,
    lemma_paired_is_dos,
    lemma_paired_prefix,
    LF,
};
use crate::search::find_either_from;
use crate::text::{dos_text, lemma_text_bytes, text_from_bytes};
use std::borrow::Cow;
use vstd::utf8::{encode_utf8, encode_utf8_decode_utf8, encode_utf8_valid_utf8};

verus! {

/// Converts any mix of `\r\n`, `\r` and `\n` line breaks to `\r\n`.
///
/// Characters of more than one byte, combining marks and emoji sequences pass
/// through untouched.
pub trait ToDosNewlines {
    /// The text with every line break written as `\r\n`; borrowed where it
    /// needs no change.
    fn to_dos_newlines(&self) -> Cow<'_, str>;
}

impl ToDosNewlines for str {
    /// Rewrites lone `\r` and lone `\n` to `\r\n`. The text itself is handed
    /// back, borrowed, exactly where every line break in it already is a
    /// well-formed `\r\n`.
    fn to_dos_newlines(&self) -> (r: Cow<'_, str>)
        ensures
            r@ == dos_text(self@),
            encode_utf8(r@) == dos_form(encode_utf8(self@)),
            r is Borrowed <==> crlf_paired(encode_utf8(self@)),
            r is Borrowed <==> dos_text(self@) == self@,
    {
        proof {
            lemma_text_bytes(self@);
            encode_utf8_decode_utf8(self@);
            encode_utf8_decode_utf8(dos_text(self@));
        }
        match dos_newline_bytes(self.as_bytes()) {
            None => Cow::Borrowed(self),
            Some(out) => {
                proof {
                    encode_utf8_valid_utf8(dos_text(self@));
                }
                Cow::Owned(text_from_bytes(out))
            },
        }
    }
}

/// Where the first line break of `s` stands that is not a well-formed `\r\n`,
/// or `None` where every line break is one.
pub fn first_unpaired_break(s: &[u8]) -> (r: Option<usize>)
    ensures
        r is None <==> crlf_paired(s@),
        r matches Some(at) ==> {
            &&& at < s@.len()
            &&& is_break_byte(s@[at as int])
            &&& break_len(s@.skip(at as int)) == 1
            &&& crlf_paired(s@.take(at as int))
        },
{
    let len = s.len();
    let mut from: usize = 0;
    loop
        invariant
            len == s@.len(),
            from <= len,
            crlf_paired(s@.take(from as int)),
        decreases len - from,
    {
        match find_either_from(LF, CR, s, from) {
            None => {
                proof {
                    let p = s@.take(from as int);
                    assert forall|i: int| 0 <= i < len && #[trigger] s@[i] == CR implies i + 1 < len
                        && s@[i + 1] == LF by {
                        assert(p[i] == CR);
                        assert(p[i + 1] == LF);
                    }
                    assert forall|i: int| 0 <= i < len && #[trigger] s@[i] == LF implies i > 0
                        && s@[i - 1] == CR by {
                        assert(p[i] == LF);
                        assert(p[i - 1] == CR);
                    }
                }
                return None;
            },
            Some(at) => {
                let paired = s[at] == CR && at + 1 < len && s[at + 1] == LF;
                let next: usize = if paired {
                    at + 2
                } else {
                    at
                };
                proof {
                    let p = s@.take(from as int);
                    let q = s@.take(next as int);
                    assert forall|i: int| 0 <= i < q.len() && #[trigger] q[i] == CR implies i + 1
                        < q.len() && q[i + 1] == LF by {
                        if i < from {
                            assert(p[i] == CR);
                            assert(p[i + 1] == LF);
                        }
                    }
                    assert forall|i: int| 0 <= i < q.len() && #[trigger] q[i] == LF implies i > 0
                        && q[i - 1] == CR by {
                        if i < from {
                            assert(p[i] == LF);
                            assert(p[i - 1] == CR);
                        }
                    }
                }
                if paired {
                    from = next;
                } else {
                    proof {
                        lemma_unpaired_grows(s@, at as int);
                        lemma_paired_is_dos(s@);
                    }
                    return Some(at);
                }
            },
        }
    }
}

/// A text with a lone `\r` or `\n` behind a well-paired start is shorter than
/// its dos form.
pub proof fn lemma_unpaired_grows(s: Seq<u8>, at: int)
    requires
        0 <= at < s.len(),
        crlf_paired(s.take(at)),
        break_len(s.skip(at)) == 1,
    ensures
        dos_form(s).len() > s.len(),
{
    lemma_paired_prefix(s, at);
    lemma_dos_form_len(s.skip(at).skip(1));
}

/// Rewrites lone `\r` and lone `\n` in `s` to `\r\n`, and leaves every
/// well-formed `\r\n` as it is.
///
/// Returns `None` where every line break of `s` already is a well-formed
/// `\r\n`, so that the caller keeps the text it has; otherwise the rebuilt
/// text.
pub fn dos_newline_bytes(s: &[u8]) -> (r: Option<Vec<u8>>)
    ensures
        r is None <==> crlf_paired(s@),
        r is None <==> dos_form(s@) == s@,
        r matches Some(out) ==> out@ == dos_form(s@),
        r matches Some(out) ==> s@.len() < out@.len() <= 2 * s@.len(),
{
    let len = s.len();
    proof {
        lemma_paired_is_dos(s@);
        lemma_dos_form_len(s@);
    }
    let mut at: usize = match first_unpaired_break(s) {
        Some(first) => first,
        None => {
            return None;
        },
    };
    proof {
        lemma_unpaired_grows(s@, at as int);
        lemma_paired_prefix(s@, at as int);
        assert(s@.skip(0) =~= s@);
        assert(s@.take(at as int) =~= s@.subrange(0, at as int));
    }
    let mut out: Vec<u8> = Vec::with_capacity(len);
    let mut pos: usize = 0;
    let mut more = true;
    while more
        invariant
            len == s@.len(),
            pos <= len,
            out@ + dos_form(s@.skip(pos as int)) == dos_form(s@),
            more ==> pos <= at < len && is_break_byte(s@[at as int]),
            more ==> dos_form(s@.skip(pos as int)) == s@.subrange(pos as int, at as int) + dos_form(
                s@.skip(at as int),
            ),
            !more ==> kept_by(s@.skip(pos as int), dos_eol()),
        decreases len - pos,
    {
        let ghost before = out@;
        let ghost start = pos as int;
        out.extend_from_slice(slice_subrange(s, pos, at));
        out.push(CR);
        out.push(LF);
        pos = at + 1;
        if s[at] == CR && pos < len && s[pos] == LF {
            pos += 1;
        }
        proof {
            let here = s@.skip(at as int);
            assert(break_len(here) == pos - at);
            assert(here.skip(pos - at) =~= s@.skip(pos as int));
            assert(out@ =~= before + s@.subrange(start, at as int) + dos_eol());
            assert(out@ + dos_form(s@.skip(pos as int)) =~= before + dos_form(s@.skip(start)));
        }
        match find_either_from(LF, CR, s, pos) {
            Some(next) => {
                at = next;
                proof {
                    let rest = s@.skip(pos as int);
                    assert(rest.take(at - pos) =~= s@.subrange(pos as int, at as int));
                    lemma_kept_prefix(rest, at - pos, dos_eol());
                    assert(rest.skip(at - pos) =~= s@.skip(at as int));
                }
            },
            None => {
                more = false;
            },
        }
    }
    proof {
        let rest = s@.skip(pos as int);
        assert(rest.take(rest.len() as int) =~= rest);
        lemma_kept_prefix(rest, rest.len() as int, dos_eol());
        assert(rest.skip(rest.len() as int) =~= Seq::<u8>::empty());
        assert(rest + Seq::<u8>::empty() =~= rest);
    }
    if pos < len {
        out.extend_from_slice(slice_subrange(s, pos, len));
    }
    assert(out@ =~= dos_form(s@));
    Some(out)
}

} // verus!
