//! Text with Windows line endings reads as the same `.obj` file: `'\r'` is ASCII
//! whitespace, so a `"\r\n"` ends a line exactly as `"\n"` does.
use vstd::prelude::*;

use crate::obj::{parse_obj, parse_prefix};
use crate::read_back::{lemma_lines_append, lemma_lines_single, lemma_tokens_append, lemma_tokens_space};
use crate::text::{is_ascii_ws, lemma_line_len, line_len, lines, tokens};

verus! {

/// `s` with every `"\r\n"` replaced by `"\n"`.
pub open spec fn crlf_to_lf(s: Seq<char>) -> Seq<char>
    decreases s.len(),
{
    if s.len() == 0 {
        seq![]
    } else if s.len() >= 2 && s[0] == '\r' && s[1] == '\n' {
        seq!['\n'] + crlf_to_lf(s.skip(2))
    } else {
        seq![s[0]] + crlf_to_lf(s.drop_first())
    }
}

/// Two lists of lines that give the same tokens, line by line.
pub open spec fn same_tokens(ls: Seq<Seq<char>>, ms: Seq<Seq<char>>) -> bool {
    ls.len() == ms.len() && forall|i: int| 0 <= i < ls.len() ==> tokens(#[trigger] ls[i]) == tokens(ms[i])
}

/// A piece without a newline, that does not end a `"\r\n"` with what follows, is kept
/// as it is.
proof fn lemma_crlf_prefix(a: Seq<char>, b: Seq<char>)
    requires
        forall|i: int| 0 <= i < a.len() ==> #[trigger] a[i] != '\n',
        a.len() == 0 || b.len() == 0 || a.last() != '\r' || b[0] != '\n',
    ensures
        crlf_to_lf(a + b) == a + crlf_to_lf(b),
    decreases a.len(),
{
    let t = a + b;
    if a.len() == 0 {
        assert(t =~= b);
        assert(a + crlf_to_lf(b) =~= crlf_to_lf(b));
    } else {
        assert(t[0] == a[0]);
        if t.len() >= 2 {
            if a.len() >= 2 {
                assert(t[1] == a[1]);
            } else {
                assert(a.last() == a[0]);
                assert(t[1] == b[0]);
            }
        }
        let rest = a.drop_first();
        assert(t.drop_first() =~= rest + b);
        assert forall|i: int| 0 <= i < rest.len() implies #[trigger] rest[i] != '\n' by {
            assert(rest[i] == a[i + 1]);
        }
        if rest.len() > 0 {
            assert(rest.last() == a.last());
        }
        lemma_crlf_prefix(rest, b);
        assert(crlf_to_lf(t) == seq![a[0]] + crlf_to_lf(rest + b));
        assert(crlf_to_lf(t) =~= a + crlf_to_lf(b));
    }
}

/// A line break, plain or `"\r\n"`, becomes one `'\n'`.
proof fn lemma_crlf_break(t: Seq<char>)
    ensures
        crlf_to_lf(seq!['\n'] + t) == seq!['\n'] + crlf_to_lf(t),
        crlf_to_lf(seq!['\r', '\n'] + t) == seq!['\n'] + crlf_to_lf(t),
{
    let s = seq!['\n'] + t;
    assert(s[0] == '\n');
    assert(s.drop_first() =~= t);
    let c = seq!['\r', '\n'] + t;
    assert(c[0] == '\r' && c[1] == '\n');
    assert(c.skip(2) =~= t);
}

/// A line and the same line with a `'\r'` after it have the same tokens.
proof fn lemma_tokens_cr(x: Seq<char>)
    ensures
        tokens(x.push('\r')) == tokens(x),
{
    assert(is_ascii_ws('\r'));
    lemma_tokens_append(x, seq!['\r']);
    assert(x + seq!['\r'] =~= x.push('\r'));
    lemma_tokens_space('\r');
    assert(tokens(x) + Seq::<Seq<char>>::empty() =~= tokens(x));
}

/// The lines of `s` and those of `s` with plain line ends give the same tokens.
proof fn lemma_crlf_lines(s: Seq<char>)
    ensures
        same_tokens(lines(crlf_to_lf(s)), lines(s)),
    decreases s.len(),
{
    let c = crlf_to_lf(s);
    if s.len() == 0 {
        assert(c =~= s);
    } else {
        lemma_line_len(s);
        let k = line_len(s);
        if k == s.len() {
            lemma_crlf_prefix(s, Seq::<char>::empty());
            assert(s + Seq::<char>::empty() =~= s);
            assert(crlf_to_lf(Seq::<char>::empty()) =~= Seq::<char>::empty());
            assert(c =~= s);
        } else {
            let x = s.take(k as int);
            let rest = s.skip(k as int + 1);
            assert(lines(s) == seq![x] + lines(rest));
            lemma_crlf_lines(rest);
            let cr = crlf_to_lf(rest);
            // the line as it reads once its line end is plain
            let y = if k > 0 && x.last() == '\r' { x.drop_last() } else { x };
            assert forall|i: int| 0 <= i < y.len() implies #[trigger] y[i] != '\n' by {
                assert(y[i] == s[i]);
            }
            if k > 0 && x.last() == '\r' {
                let b = seq!['\r', '\n'] + rest;
                assert(s =~= y + b);
                if y.len() > 0 {
                    assert(b[0] == '\r');
                }
                lemma_crlf_prefix(y, b);
                lemma_crlf_break(rest);
                assert(x =~= y.push('\r'));
                lemma_tokens_cr(y);
            } else {
                let b = seq!['\n'] + rest;
                assert(s =~= y + b);
                lemma_crlf_prefix(y, b);
                lemma_crlf_break(rest);
            }
            assert(c =~= y.push('\n') + cr);
            lemma_lines_append(y.push('\n'), cr);
            lemma_lines_single(y);
            assert(lines(c) == seq![y] + lines(cr));
            assert(tokens(y) == tokens(x));
            assert forall|i: int| 0 <= i < lines(c).len() implies tokens(#[trigger] lines(c)[i])
                == tokens(lines(s)[i]) by {
                if i > 0 {
                    assert(lines(c)[i] == lines(cr)[i - 1]);
                    assert(lines(s)[i] == lines(rest)[i - 1]);
                }
            }
        }
    }
}

/// Line lists with the same tokens read the same, line by line.
proof fn lemma_same_tokens_prefix(ls: Seq<Seq<char>>, ms: Seq<Seq<char>>, k: nat)
    requires
        same_tokens(ls, ms),
        k <= ls.len(),
    ensures
        parse_prefix(ls, k) == parse_prefix(ms, k),
    decreases k,
{
    if k > 0 {
        lemma_same_tokens_prefix(ls, ms, (k - 1) as nat);
        assert(tokens(ls[k - 1]) == tokens(ms[k - 1]));
    }
}

/// Reading is insensitive to Windows line endings: `'\r'` is ASCII whitespace, so a
/// text reads as the same file, or fails with the same error on the same line, as the
/// text with every `"\r\n"` replaced by `"\n"`.
pub proof fn law_crlf_reads_the_same(s: Seq<char>)
    ensures
        parse_obj(crlf_to_lf(s)) == parse_obj(s),
{
    lemma_crlf_lines(s);
    lemma_same_tokens_prefix(lines(crlf_to_lf(s)), lines(s), lines(s).len());
}

} // verus!
