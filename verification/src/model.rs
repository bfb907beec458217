//! The mathematical model: what a line break is, and what a text looks like
//! once every line break has been rewritten to one fixed terminator.

use vstd::prelude::*;

verus! {

/// Carriage return.
pub const CR: u8 = 0x0D;

/// Line feed.
pub const LF: u8 = 0x0A;

/// Is `b` one of the two bytes that line breaks are made of?
pub open spec fn is_break_byte(b: u8) -> bool {
    b == CR || b == LF
}

/// The number of bytes of the line break that `s` starts with: 2 for `\r\n`,
/// 1 for a lone `\r` or `\n`, and 0 where `s` does not start with a line break.
pub open spec fn break_len(s: Seq<u8>) -> int {
    if s.len() == 0 {
        0
    } else if s[0] == CR {
        if s.len() > 1 && s[1] == LF {
            2
        } else {
            1
        }
    } else if s[0] == LF {
        1
    } else {
        0
    }
}

/// `s` with every line break replaced by `eol`, read from the left: `\r\n`
/// counts as one line break, never as two.
pub open spec fn with_breaks(s: Seq<u8>, eol: Seq<u8>) -> Seq<u8>
    decreases s.len(),
{
    if s.len() == 0 {
        s
    } else if break_len(s) > 0 {
        eol + with_breaks(s.skip(break_len(s)), eol)
    } else {
        seq![s[0]] + with_breaks(s.skip(1), eol)
    }
}

/// The unix line terminator, `\n`.
pub open spec fn unix_eol() -> Seq<u8> {
    seq![LF]
}

/// The dos line terminator, `\r\n`.
pub open spec fn dos_eol() -> Seq<u8> {
    seq![CR, LF]
}

/// `s` with every line break written as `\n`.
pub open spec fn unix_form(s: Seq<u8>) -> Seq<u8> {
    with_breaks(s, unix_eol())
}

/// `s` with every line break written as `\r\n`.
pub open spec fn dos_form(s: Seq<u8>) -> Seq<u8> {
    with_breaks(s, dos_eol())
}

/// No byte of `s` is a carriage return.
pub open spec fn cr_free(s: Seq<u8>) -> bool {
    forall|i: int| 0 <= i < s.len() ==> s[i] != CR
}

/// Every line break of `s` is a well-formed `\r\n`: each `\r` is directly
/// followed by `\n`, and each `\n` directly preceded by `\r`.
pub open spec fn crlf_paired(s: Seq<u8>) -> bool {
    &&& forall|i: int| 0 <= i < s.len() && #[trigger] s[i] == CR ==> i + 1 < s.len() && s[i + 1] == LF
    &&& forall|i: int| 0 <= i < s.len() && #[trigger] s[i] == LF ==> i > 0 && s[i - 1] == CR
}

/// The number of line breaks in `s`, `\r\n` counted once.
pub open spec fn break_count(s: Seq<u8>) -> nat
    decreases s.len(),
{
    if s.len() == 0 {
        0
    } else if break_len(s) > 0 {
        1 + break_count(s.skip(break_len(s)))
    } else {
        break_count(s.skip(1))
    }
}

/// The test that picks the bytes that belong to no line break.
pub open spec fn plain() -> spec_fn(u8) -> bool {
    |b: u8| !is_break_byte(b)
}

/// The test that picks the line feeds.
pub open spec fn line_feed() -> spec_fn(u8) -> bool {
    |b: u8| b == LF
}

/// The bytes of `s` that belong to no line break, in their order.
pub open spec fn plain_bytes(s: Seq<u8>) -> Seq<u8> {
    s.filter(plain())
}

/// The number of line feeds in `s`.
pub open spec fn lf_count(s: Seq<u8>) -> nat {
    s.filter(line_feed()).len()
}

/// Is `eol` one of the two line terminators, `\n` or `\r\n`?
pub open spec fn is_eol(eol: Seq<u8>) -> bool {
    eol == unix_eol() || eol == dos_eol()
}

/// A stretch that the rewrite to `eol` leaves as it is: it holds no `\r`, and
/// a `\n` only where `eol` is `\n` itself.
pub open spec fn kept_by(span: Seq<u8>, eol: Seq<u8>) -> bool {
    forall|i: int| 0 <= i < span.len() ==> span[i] != CR && (span[i] == LF ==> eol == unix_eol())
}

/// A stretch at the start of a text that the rewrite to `eol` leaves as it is
/// passes through unchanged, and the rewrite goes on behind it as if the text
/// began there.
pub proof fn lemma_kept_prefix(s: Seq<u8>, k: int, eol: Seq<u8>)
    requires
        0 <= k <= s.len(),
        kept_by(s.take(k), eol),
    ensures
        with_breaks(s, eol) == s.take(k) + with_breaks(s.skip(k), eol),
    decreases k,
{
    if k == 0 {
        assert(s.skip(0) =~= s);
        assert(s.take(0) + with_breaks(s, eol) =~= with_breaks(s, eol));
    } else {
        let t = s.skip(1);
        assert(s.take(k)[0] == s[0]);
        let head = t.take(k - 1);
        assert forall|i: int| 0 <= i < head.len() implies #[trigger] head[i] != CR && (head[i] == LF
            ==> eol == unix_eol()) by {
            assert(head[i] == s.take(k)[i + 1]);
        }
        lemma_kept_prefix(t, k - 1, eol);
        assert(t.skip(k - 1) =~= s.skip(k));
        if s[0] == LF {
            assert(break_len(s) == 1);
            assert(eol == unix_eol());
            assert(eol =~= seq![s[0]]);
        } else {
            assert(break_len(s) == 0);
        }
        assert(seq![s[0]] + (t.take(k - 1) + with_breaks(s.skip(k), eol)) =~= s.take(k)
            + with_breaks(s.skip(k), eol));
    }
}

/// A text without a carriage return is its own unix form.
pub proof fn lemma_cr_free_is_unix(s: Seq<u8>)
    requires
        cr_free(s),
    ensures
        unix_form(s) == s,
{
    assert(s.take(s.len() as int) =~= s);
    lemma_kept_prefix(s, s.len() as int, unix_eol());
    assert(s.skip(s.len() as int) =~= Seq::<u8>::empty());
    assert(s + Seq::<u8>::empty() =~= s);
}

/// The unix form holds no carriage return.
pub proof fn lemma_unix_form_cr_free(s: Seq<u8>)
    ensures
        cr_free(unix_form(s)),
    decreases s.len(),
{
    if s.len() == 0 {
    } else if break_len(s) > 0 {
        lemma_unix_form_cr_free(s.skip(break_len(s)));
    } else {
        lemma_unix_form_cr_free(s.skip(1));
    }
}

/// The unix form is no longer than the text, and at least half as long.
pub proof fn lemma_unix_form_len(s: Seq<u8>)
    ensures
        unix_form(s).len() <= s.len() <= 2 * unix_form(s).len(),
    decreases s.len(),
{
    if s.len() == 0 {
    } else if break_len(s) > 0 {
        lemma_unix_form_len(s.skip(break_len(s)));
    } else {
        lemma_unix_form_len(s.skip(1));
    }
}

/// The dos form is at least as long as the text, and at most twice as long.
pub proof fn lemma_dos_form_len(s: Seq<u8>)
    ensures
        s.len() <= dos_form(s).len() <= 2 * s.len(),
    decreases s.len(),
{
    if s.len() == 0 {
    } else if break_len(s) > 0 {
        lemma_dos_form_len(s.skip(break_len(s)));
    } else {
        lemma_dos_form_len(s.skip(1));
    }
}

/// A well-paired text stays well paired when `\r\n` is put in front of it.
pub proof fn lemma_paired_after_pair(x: Seq<u8>)
    requires
        crlf_paired(x),
    ensures
        crlf_paired(dos_eol() + x),
{
    let y = dos_eol() + x;
    assert forall|i: int| 0 <= i < y.len() && #[trigger] y[i] == CR implies i + 1 < y.len() && y[i
        + 1] == LF by {
        if i >= 2 {
            assert(x[i - 2] == CR);
        }
    }
    assert forall|i: int| 0 <= i < y.len() && #[trigger] y[i] == LF implies i > 0 && y[i - 1]
        == CR by {
        if i >= 2 {
            assert(x[i - 2] == LF);
        }
    }
}

/// A well-paired text stays well paired when a byte that is neither `\r` nor
/// `\n` is put in front of it.
pub proof fn lemma_paired_after_plain(b: u8, x: Seq<u8>)
    requires
        crlf_paired(x),
        !is_break_byte(b),
    ensures
        crlf_paired(seq![b] + x),
{
    let y = seq![b] + x;
    assert forall|i: int| 0 <= i < y.len() && #[trigger] y[i] == CR implies i + 1 < y.len() && y[i
        + 1] == LF by {
        if i >= 1 {
            assert(x[i - 1] == CR);
        }
    }
    assert forall|i: int| 0 <= i < y.len() && #[trigger] y[i] == LF implies i > 0 && y[i - 1]
        == CR by {
        if i >= 1 {
            assert(x[i - 1] == LF);
        }
    }
}

/// Every line break of the dos form is a well-formed `\r\n`.
pub proof fn lemma_dos_form_paired(s: Seq<u8>)
    ensures
        crlf_paired(dos_form(s)),
    decreases s.len(),
{
    if s.len() == 0 {
    } else if break_len(s) > 0 {
        lemma_dos_form_paired(s.skip(break_len(s)));
        lemma_paired_after_pair(dos_form(s.skip(break_len(s))));
    } else {
        lemma_dos_form_paired(s.skip(1));
        lemma_paired_after_plain(s[0], dos_form(s.skip(1)));
    }
}

/// A well-paired stretch at the start of a text passes through the rewrite to
/// `\r\n` unchanged, and the rewrite goes on behind it as if the text began
/// there.
pub proof fn lemma_paired_prefix(s: Seq<u8>, k: int)
    requires
        0 <= k <= s.len(),
        crlf_paired(s.take(k)),
    ensures
        dos_form(s) == s.take(k) + dos_form(s.skip(k)),
    decreases k,
{
    let p = s.take(k);
    if k == 0 {
        assert(s.skip(0) =~= s);
        assert(p + dos_form(s) =~= dos_form(s));
    } else {
        assert(p[0] == s[0]);
        if s[0] == CR {
            assert(p[1] == LF);
            assert(s[1] == LF);
            let t = s.skip(2);
            let q = t.take(k - 2);
            assert forall|i: int| 0 <= i < q.len() && #[trigger] q[i] == CR implies i + 1 < q.len()
                && q[i + 1] == LF by {
                assert(p[i + 2] == CR);
                assert(p[i + 3] == q[i + 1]);
            }
            assert forall|i: int| 0 <= i < q.len() && #[trigger] q[i] == LF implies i > 0 && q[i
                - 1] == CR by {
                assert(p[i + 2] == LF);
                assert(p[i + 1] == CR);
                if i > 0 {
                    assert(p[i + 1] == q[i - 1]);
                }
            }
            lemma_paired_prefix(t, k - 2);
            assert(t.skip(k - 2) =~= s.skip(k));
            assert(dos_eol() + (q + dos_form(s.skip(k))) =~= p + dos_form(s.skip(k)));
        } else {
            assert(s[0] != LF);
            let t = s.skip(1);
            let q = t.take(k - 1);
            assert forall|i: int| 0 <= i < q.len() && #[trigger] q[i] == CR implies i + 1 < q.len()
                && q[i + 1] == LF by {
                assert(p[i + 1] == CR);
                assert(p[i + 2] == q[i + 1]);
            }
            assert forall|i: int| 0 <= i < q.len() && #[trigger] q[i] == LF implies i > 0 && q[i
                - 1] == CR by {
                assert(p[i + 1] == LF);
                assert(p[i] == CR);
                if i > 0 {
                    assert(p[i] == q[i - 1]);
                }
            }
            lemma_paired_prefix(t, k - 1);
            assert(t.skip(k - 1) =~= s.skip(k));
            assert(seq![s[0]] + (q + dos_form(s.skip(k))) =~= p + dos_form(s.skip(k)));
        }
    }
}

/// A text is its own dos form exactly when every line break in it is a
/// well-formed `\r\n`.
pub proof fn lemma_paired_is_dos(s: Seq<u8>)
    ensures
        crlf_paired(s) <==> dos_form(s) == s,
{
    if crlf_paired(s) {
        assert(s.take(s.len() as int) =~= s);
        lemma_paired_prefix(s, s.len() as int);
        assert(s.skip(s.len() as int) =~= Seq::<u8>::empty());
        assert(s + Seq::<u8>::empty() =~= s);
    }
    if dos_form(s) == s {
        lemma_dos_form_paired(s);
    }
}

} // verus!
