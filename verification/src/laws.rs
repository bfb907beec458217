//! What holds of the two rewrites, for every text.

use vstd::prelude::*;
use vstd::utf8::{encode_utf8, encode_utf8_decode_utf8};
use crate::text::{dos_text, leading_break, lemma_text_bytes, text_cr_free, unix_text};
use crate::model::{
    break_count,
    break_len,
    cr_free,
    crlf_paired,
    dos_eol,
    dos_form,
    is_eol,
    lemma_cr_free_is_unix,
    lemma_dos_form_len,
    lemma_dos_form_paired,
    lemma_paired_is_dos,
    lemma_unix_form_cr_free,
    lemma_unix_form_len,
    lf_count,
    line_feed,
    plain,
    plain_bytes,
    unix_eol,
    unix_form,
    with_breaks,
};

verus! {

/// Rewriting a text to `\n` a second time, or to `\r\n` a second time,
/// changes nothing.
pub proof fn text_idempotent(t: Seq<char>)
    ensures
        unix_text(unix_text(t)) == unix_text(t),
        dos_text(dos_text(t)) == dos_text(t),
{
    lemma_text_bytes(t);
    lemma_text_bytes(unix_text(t));
    lemma_text_bytes(dos_text(t));
    unix_form_idempotent(encode_utf8(t));
    dos_form_idempotent(encode_utf8(t));
    encode_utf8_decode_utf8(unix_text(unix_text(t)));
    encode_utf8_decode_utf8(unix_text(t));
    encode_utf8_decode_utf8(dos_text(dos_text(t)));
    encode_utf8_decode_utf8(dos_text(t));
}

/// The unix text holds no `\r`.
pub proof fn unix_text_is_cr_free(t: Seq<char>)
    ensures
        text_cr_free(unix_text(t)),
    decreases t.len(),
{
    if t.len() == 0 {
    } else if leading_break(t) > 0 {
        unix_text_is_cr_free(t.skip(leading_break(t)));
    } else {
        unix_text_is_cr_free(t.skip(1));
    }
}

/// A text is its own unix text exactly when it holds no `\r`.
pub proof fn text_without_cr_is_kept(t: Seq<char>)
    ensures
        text_cr_free(t) <==> unix_text(t) == t,
    decreases t.len(),
{
    if unix_text(t) == t {
        unix_text_is_cr_free(t);
    }
    if text_cr_free(t) && t.len() > 0 {
        let rest = t.skip(1);
        assert forall|i: int| 0 <= i < rest.len() implies rest[i] != '\r' by {
            assert(rest[i] == t[i + 1]);
        }
        text_without_cr_is_kept(rest);
        assert(seq![t[0]] + rest =~= t);
    }
}

/// A text rewritten to `\r\n` and then to `\n` is the text rewritten to `\n`.
pub proof fn text_unix_of_dos(t: Seq<char>)
    ensures
        unix_text(dos_text(t)) == unix_text(t),
{
    lemma_text_bytes(t);
    lemma_text_bytes(dos_text(t));
    unix_of_dos_is_unix(encode_utf8(t));
    encode_utf8_decode_utf8(unix_text(dos_text(t)));
    encode_utf8_decode_utf8(unix_text(t));
}

/// Rewriting to `\n` a second time changes nothing.
pub proof fn unix_form_idempotent(s: Seq<u8>)
    ensures
        unix_form(unix_form(s)) == unix_form(s),
{
    lemma_unix_form_cr_free(s);
    lemma_cr_free_is_unix(unix_form(s));
}

/// Rewriting to `\r\n` a second time changes nothing.
pub proof fn dos_form_idempotent(s: Seq<u8>)
    ensures
        dos_form(dos_form(s)) == dos_form(s),
{
    lemma_dos_form_paired(s);
    lemma_paired_is_dos(dos_form(s));
}

/// A text is its own unix form exactly when it holds no `\r`, and its own
/// dos form exactly when every line break in it is a well-formed `\r\n`.
pub proof fn settled_text_is_kept(s: Seq<u8>)
    ensures
        cr_free(s) <==> unix_form(s) == s,
        crlf_paired(s) <==> dos_form(s) == s,
{
    if cr_free(s) {
        lemma_cr_free_is_unix(s);
    }
    if unix_form(s) == s {
        lemma_unix_form_cr_free(s);
    }
    lemma_paired_is_dos(s);
}

/// Going through the dos form loses nothing: the unix form of the dos form
/// is the unix form of the text itself.
pub proof fn unix_of_dos_is_unix(s: Seq<u8>)
    ensures
        unix_form(dos_form(s)) == unix_form(s),
    decreases s.len(),
{
    if s.len() == 0 {
    } else if break_len(s) > 0 {
        let rest = s.skip(break_len(s));
        let z = dos_eol() + dos_form(rest);
        unix_of_dos_is_unix(rest);
        assert(break_len(z) == 2);
        assert(z.skip(2) =~= dos_form(rest));
    } else {
        let z = seq![s[0]] + dos_form(s.skip(1));
        unix_of_dos_is_unix(s.skip(1));
        assert(break_len(z) == 0);
        assert(z.skip(1) =~= dos_form(s.skip(1)));
    }
}

/// The unix form holds one `\n` for each line break of the text, and no `\r`.
pub proof fn unix_form_counts_breaks(s: Seq<u8>)
    ensures
        lf_count(unix_form(s)) == break_count(s),
        cr_free(unix_form(s)),
    decreases s.len(),
{
    lemma_unix_form_cr_free(s);
    reveal_with_fuel(Seq::filter, 2);
    if s.len() == 0 {
    } else {
        let step = if break_len(s) > 0 {
            break_len(s)
        } else {
            1
        };
        let head = if break_len(s) > 0 {
            unix_eol()
        } else {
            seq![s[0]]
        };
        unix_form_counts_breaks(s.skip(step));
        Seq::filter_distributes_over_add(head, unix_form(s.skip(step)), line_feed());
        assert(head.drop_last() =~= Seq::<u8>::empty());
    }
}

/// However the line breaks of a text are written, its unix form by way of
/// its dos form holds exactly one `\n` for each of them.
pub proof fn one_line_feed_per_break(s: Seq<u8>)
    ensures
        lf_count(unix_form(dos_form(s))) == break_count(s),
        cr_free(unix_form(dos_form(s))),
{
    unix_of_dos_is_unix(s);
    unix_form_counts_breaks(s);
}

/// The bytes that belong to no line break come through either rewrite
/// unchanged and in their order.
pub proof fn plain_bytes_kept(s: Seq<u8>, eol: Seq<u8>)
    requires
        is_eol(eol),
    ensures
        plain_bytes(with_breaks(s, eol)) == plain_bytes(s),
    decreases s.len(),
{
    reveal_with_fuel(Seq::filter, 3);
    if s.len() == 0 {
    } else {
        let step = if break_len(s) > 0 {
            break_len(s)
        } else {
            1
        };
        let head = if break_len(s) > 0 {
            eol
        } else {
            seq![s[0]]
        };
        plain_bytes_kept(s.skip(step), eol);
        Seq::filter_distributes_over_add(head, with_breaks(s.skip(step), eol), plain());
        Seq::filter_distributes_over_add(s.take(step), s.skip(step), plain());
        assert(s.take(step) + s.skip(step) =~= s);
        assert(head.filter(plain()) =~= s.take(step).filter(plain())) by {
            lemma_filter_short(head, plain());
            lemma_filter_short(s.take(step), plain());
        }
    }
}

/// What `filter` keeps of a sequence of one or two items.
pub proof fn lemma_filter_short(x: Seq<u8>, keep: spec_fn(u8) -> bool)
    requires
        1 <= x.len() <= 2,
    ensures
        x.len() == 1 ==> x.filter(keep) == if keep(x[0]) {
            seq![x[0]]
        } else {
            Seq::<u8>::empty()
        },
        x.len() == 2 ==> x.filter(keep) == (if keep(x[0]) {
            seq![x[0]]
        } else {
            Seq::<u8>::empty()
        }) + (if keep(x[1]) {
            seq![x[1]]
        } else {
            Seq::<u8>::empty()
        }),
{
    reveal_with_fuel(Seq::filter, 3);
    if x.len() == 1 {
        assert(x.drop_last() =~= Seq::<u8>::empty());
        assert(x.filter(keep) =~= if keep(x[0]) {
            seq![x[0]]
        } else {
            Seq::<u8>::empty()
        });
    } else {
        let y = x.drop_last();
        assert(y.drop_last() =~= Seq::<u8>::empty());
        assert(y.filter(keep) =~= if keep(x[0]) {
            seq![x[0]]
        } else {
            Seq::<u8>::empty()
        });
        assert(x.filter(keep) =~= (if keep(x[0]) {
            seq![x[0]]
        } else {
            Seq::<u8>::empty()
        }) + (if keep(x[1]) {
            seq![x[1]]
        } else {
            Seq::<u8>::empty()
        }));
    }
}

/// The unix form is no longer than the text and at least half as long; the
/// dos form is no shorter than the text and at most twice as long.
pub proof fn length_bounds(s: Seq<u8>)
    ensures
        unix_form(s).len() <= s.len() <= 2 * unix_form(s).len(),
        s.len() <= dos_form(s).len() <= 2 * s.len(),
{
    lemma_unix_form_len(s);
    lemma_dos_form_len(s);
}

/// The same bounds for a text, counted in the bytes of its UTF-8 form.
pub proof fn text_length_bounds(t: Seq<char>)
    ensures
        encode_utf8(unix_text(t)).len() <= encode_utf8(t).len(),
        encode_utf8(t).len() <= encode_utf8(dos_text(t)).len(),
{
    lemma_text_bytes(t);
    length_bounds(encode_utf8(t));
}

/// Neither rewrite touches a byte outside the line breaks of a text, so the
/// bytes of every other character come through whole and in their order.
pub proof fn text_plain_bytes_kept(t: Seq<char>)
    ensures
        plain_bytes(encode_utf8(unix_text(t))) == plain_bytes(encode_utf8(t)),
        plain_bytes(encode_utf8(dos_text(t))) == plain_bytes(encode_utf8(t)),
{
    lemma_text_bytes(t);
    plain_bytes_kept(encode_utf8(t), unix_eol());
    plain_bytes_kept(encode_utf8(t), dos_eol());
}

} // verus!
