//! Character-level helpers: strings as character sequences, ASCII-whitespace
//! tokens, line splitting, and the number syntaxes that `.obj` files use.
use vstd::prelude::*;

verus! {

// ------------------------------------------------------------------------------------------
// Strings and character vectors
// ------------------------------------------------------------------------------------------

/// Appends one character with `String::push`; trusted to leave the string's characters
/// followed by `c`, which is what the standard library documents.
#[verifier::external_body]
pub(crate) fn push_char(s: &mut String, c: char)
    ensures
        final(s)@ == old(s)@.push(c),
{
    s.push(c);
}

/// The characters of `s`, in order.
pub fn chars_of(s: &str) -> (v: Vec<char>)
    ensures
        v@ == s@,
{
    let mut v: Vec<char> = Vec::new();
    for c in it: s.chars()
        invariant
            v@ == it.seq().take(it.index() as int),
    {
        v.push(c);
    }
    v
}

/// The string made of the characters `v[start..end]`.
pub fn string_of_range(v: &Vec<char>, start: usize, end: usize) -> (s: String)
    requires
        start <= end <= v.len(),
    ensures
        s@ == v@.subrange(start as int, end as int),
{
    let mut s = String::new();
    let mut i = start;
    while i < end
        invariant
            start <= i <= end <= v.len(),
            s@ == v@.subrange(start as int, i as int),
        decreases end - i,
    {
        push_char(&mut s, v[i]);
        assert(v@.subrange(start as int, i as int).push(v@[i as int]) =~= v@.subrange(
            start as int,
            i + 1,
        ));
        i += 1;
    }
    s
}

/// The string made of all characters of `v`.
pub fn string_of(v: &Vec<char>) -> (s: String)
    ensures
        s@ == v@,
{
    let s = string_of_range(v, 0, v.len());
    assert(v@.subrange(0, v@.len() as int) =~= v@);
    s
}

/// Appends the characters of `w` to `s`.
pub fn append_chars(s: &mut String, w: &Vec<char>)
    ensures
        final(s)@ == old(s)@ + w@,
{
    let ghost start = s@;
    for i in 0..w.len()
        invariant
            s@ == start + w@.take(i as int),
    {
        push_char(s, w[i]);
        assert(start + w@.take(i as int) + seq![w@[i as int]] =~= start + w@.take(i + 1));
    }
    assert(w@.take(w.len() as int) =~= w@);
}

/// True if `a` is the one-character sequence `[c]`.
pub fn is_single(a: &Vec<char>, c: char) -> (r: bool)
    ensures
        r == (a@ == seq![c]),
{
    let r = a.len() == 1 && a[0] == c;
    if r {
        assert(a@ =~= seq![c]);
    }
    r
}

// ------------------------------------------------------------------------------------------
// Whitespace-separated tokens
// ------------------------------------------------------------------------------------------

/// ASCII whitespace, as `char::is_ascii_whitespace` defines it.
pub open spec fn is_ascii_ws(c: char) -> bool {
    c == ' ' || c == '\t' || c == '\n' || c == '\x0C' || c == '\r'
}

pub fn ascii_ws(c: char) -> (r: bool)
    ensures
        r == is_ascii_ws(c),
{
    c == ' ' || c == '\t' || c == '\n' || c == '\x0C' || c == '\r'
}

/// Length of the leading run of characters that are not ASCII whitespace.
pub open spec fn word_len(s: Seq<char>) -> nat
    decreases s.len(),
{
    if s.len() == 0 || is_ascii_ws(s[0]) {
        0
    } else {
        1 + word_len(s.drop_first())
    }
}

pub proof fn lemma_word_len_bounds(s: Seq<char>)
    ensures
        word_len(s) <= s.len(),
        s.len() > 0 && !is_ascii_ws(s[0]) ==> word_len(s) >= 1,
        forall|i: int| 0 <= i < word_len(s) ==> !is_ascii_ws(#[trigger] s[i]),
        word_len(s) < s.len() ==> is_ascii_ws(s[word_len(s) as int]),
    decreases s.len(),
{
    if s.len() > 0 && !is_ascii_ws(s[0]) {
        lemma_word_len_bounds(s.drop_first());
        assert forall|i: int| 0 <= i < word_len(s) implies !is_ascii_ws(#[trigger] s[i]) by {
            if i > 0 {
                assert(s[i] == s.drop_first()[i - 1]);
            }
        }
    }
}

/// `word_len` is the first index that is whitespace (or the end).
pub proof fn lemma_word_len_is(s: Seq<char>, k: nat)
    requires
        k <= s.len(),
        forall|i: int| 0 <= i < k ==> !is_ascii_ws(#[trigger] s[i]),
        k < s.len() ==> is_ascii_ws(s[k as int]),
    ensures
        word_len(s) == k,
    decreases s.len(),
{
    if k > 0 {
        assert(!is_ascii_ws(s[0]));
        assert forall|i: int| 0 <= i < k - 1 implies !is_ascii_ws(#[trigger] s.drop_first()[i]) by {
            assert(s.drop_first()[i] == s[i + 1]);
        }
        if (k - 1) < s.drop_first().len() {
            assert(s.drop_first()[k - 1] == s[k as int]);
        }
        lemma_word_len_is(s.drop_first(), (k - 1) as nat);
    }
}

/// The maximal runs of non-whitespace characters of `s`, in order, as
/// `str::split_ascii_whitespace` yields them.
pub open spec fn tokens(s: Seq<char>) -> Seq<Seq<char>>
    decreases s.len(),
{
    if s.len() == 0 {
        seq![]
    } else if is_ascii_ws(s[0]) {
        tokens(s.drop_first())
    } else {
        proof {
            lemma_word_len_bounds(s);
        }
        seq![s.take(word_len(s) as int)] + tokens(s.skip(word_len(s) as int))
    }
}

/// The character views of a sequence of character vectors.
pub open spec fn views(v: Seq<Vec<char>>) -> Seq<Seq<char>> {
    v.map_values(|t: Vec<char>| t@)
}

/// The tokens of `v[start..end]`.
pub fn tokens_in(v: &Vec<char>, start: usize, end: usize) -> (r: Vec<Vec<char>>)
    requires
        start <= end <= v.len(),
    ensures
        views(r@) == tokens(v@.subrange(start as int, end as int)),
{
    let ghost whole = v@.subrange(start as int, end as int);
    let mut out: Vec<Vec<char>> = Vec::new();
    let mut i = start;
    while i < end
        invariant
            start <= i <= end <= v.len(),
            whole == v@.subrange(start as int, end as int),
            views(out@) + tokens(v@.subrange(i as int, end as int)) == tokens(whole),
        decreases end - i,
    {
        let ghost rest = v@.subrange(i as int, end as int);
        if ascii_ws(v[i]) {
            assert(rest.drop_first() =~= v@.subrange(i + 1, end as int));
            i += 1;
        } else {
            let mut j = i;
            let mut word: Vec<char> = Vec::new();
            while j < end && !ascii_ws(v[j])
                invariant
                    i <= j <= end <= v.len(),
                    word@ == v@.subrange(i as int, j as int),
                    forall|k: int| i <= k < j ==> !is_ascii_ws(#[trigger] v@[k]),
                decreases end - j,
            {
                word.push(v[j]);
                assert(v@.subrange(i as int, j as int).push(v@[j as int]) =~= v@.subrange(
                    i as int,
                    j + 1,
                ));
                j += 1;
            }
            proof {
                assert forall|k: int| 0 <= k < j - i implies !is_ascii_ws(#[trigger] rest[k]) by {
                    assert(rest[k] == v@[i + k]);
                }
                if j < end {
                    assert(rest[j - i] == v@[j as int]);
                }
                lemma_word_len_is(rest, (j - i) as nat);
                assert(rest.take(j - i) =~= word@);
                assert(rest.skip(j - i) =~= v@.subrange(j as int, end as int));
                assert(tokens(rest) == seq![word@] + tokens(v@.subrange(j as int, end as int)));
                assert(views(out@.push(word)) =~= views(out@).push(word@));
                assert(views(out@).push(word@) + tokens(v@.subrange(j as int, end as int))
                    =~= views(out@) + (seq![word@] + tokens(v@.subrange(j as int, end as int))));
            }
            out.push(word);
            i = j;
        }
    }
    proof {
        assert(v@.subrange(end as int, end as int) =~= Seq::<char>::empty());
        assert(views(out@) + Seq::<Seq<char>>::empty() =~= views(out@));
    }
    out
}

// ------------------------------------------------------------------------------------------
// Lines
// ------------------------------------------------------------------------------------------

/// Number of characters before the first `'\n'` (or the length, if there is none).
pub open spec fn line_len(s: Seq<char>) -> nat
    decreases s.len(),
{
    if s.len() == 0 || s[0] == '\n' {
        0
    } else {
        1 + line_len(s.drop_first())
    }
}

pub proof fn lemma_line_len(s: Seq<char>)
    ensures
        line_len(s) <= s.len(),
        forall|i: int| 0 <= i < line_len(s) ==> #[trigger] s[i] != '\n',
        line_len(s) < s.len() ==> s[line_len(s) as int] == '\n',
    decreases s.len(),
{
    if s.len() > 0 && s[0] != '\n' {
        lemma_line_len(s.drop_first());
        assert forall|i: int| 0 <= i < line_len(s) implies #[trigger] s[i] != '\n' by {
            if i > 0 {
                assert(s[i] == s.drop_first()[i - 1]);
            }
        }
    }
}

pub proof fn lemma_line_len_is(s: Seq<char>, k: nat)
    requires
        k <= s.len(),
        forall|i: int| 0 <= i < k ==> #[trigger] s[i] != '\n',
        k < s.len() ==> s[k as int] == '\n',
    ensures
        line_len(s) == k,
    decreases s.len(),
{
    if k > 0 {
        assert forall|i: int| 0 <= i < k - 1 implies #[trigger] s.drop_first()[i] != '\n' by {
            assert(s.drop_first()[i] == s[i + 1]);
        }
        if (k - 1) < s.drop_first().len() {
            assert(s.drop_first()[k - 1] == s[k as int]);
        }
        lemma_line_len_is(s.drop_first(), (k - 1) as nat);
    }
}

/// The lines of `s`: the pieces between `'\n'` characters, where a final empty
/// piece is not a line, as `str::lines` yields them.  (`str::lines` also drops a
/// `'\r'` before each `'\n'`; that character is whitespace, so the tokens of a
/// line are the same either way.)
pub open spec fn lines(s: Seq<char>) -> Seq<Seq<char>>
    decreases s.len(),
{
    if s.len() == 0 {
        seq![]
    } else {
        proof {
            lemma_line_len(s);
        }
        if line_len(s) < s.len() {
            seq![s.take(line_len(s) as int)] + lines(s.skip(line_len(s) as int + 1))
        } else {
            seq![s]
        }
    }
}

/// Index of the first `'\n'` at or after `start`, or `v.len()`.
pub fn line_end(v: &Vec<char>, start: usize) -> (e: usize)
    requires
        start <= v.len(),
    ensures
        start <= e <= v.len(),
        e - start == line_len(v@.skip(start as int)),
{
    let mut e = start;
    while e < v.len() && v[e] != '\n'
        invariant
            start <= e <= v.len(),
            forall|k: int| start <= k < e ==> #[trigger] v@[k] != '\n',
        decreases v.len() - e,
    {
        e += 1;
    }
    proof {
        let s = v@.skip(start as int);
        assert forall|i: int| 0 <= i < e - start implies #[trigger] s[i] != '\n' by {
            assert(s[i] == v@[start + i]);
        }
        if e < v.len() {
            assert(s[e - start] == v@[e as int]);
        }
        lemma_line_len_is(s, (e - start) as nat);
    }
    e
}

// ------------------------------------------------------------------------------------------
// Decimal digits and integers
// ------------------------------------------------------------------------------------------

pub open spec fn is_digit(c: char) -> bool {
    '0' <= c <= '9'
}

pub open spec fn digit_value(c: char) -> int {
    c as int - '0' as int
}

pub open spec fn all_digits(s: Seq<char>) -> bool {
    forall|i: int| 0 <= i < s.len() ==> is_digit(#[trigger] s[i])
}

/// The value of a string of decimal digits.
pub open spec fn digits_value(s: Seq<char>) -> int
    decreases s.len(),
{
    if s.len() == 0 {
        0
    } else {
        digits_value(s.drop_last()) * 10 + digit_value(s.last())
    }
}

pub proof fn lemma_digits_value_nonneg(s: Seq<char>)
    requires
        all_digits(s),
    ensures
        digits_value(s) >= 0,
    decreases s.len(),
{
    if s.len() > 0 {
        lemma_digits_value_nonneg(s.drop_last());
        assert(is_digit(s[s.len() - 1]));
    }
}

/// Longer prefixes of a digit string have values at least as large.
pub proof fn lemma_digits_value_mono(s: Seq<char>, i: int, j: int)
    requires
        all_digits(s),
        0 <= i <= j <= s.len(),
    ensures
        digits_value(s.take(i)) <= digits_value(s.take(j)),
    decreases j - i,
{
    if i < j {
        lemma_digits_value_mono(s, i, j - 1);
        assert(s.take(j).drop_last() =~= s.take(j - 1));
        assert(all_digits(s.take(j - 1)));
        lemma_digits_value_nonneg(s.take(j - 1));
        assert(is_digit(s[j - 1]));
    }
}

/// What `str::parse::<isize>` accepts: an optional `+` or `-`, then one or more
/// decimal digits, with a value in the range of `isize`.
pub open spec fn parse_isize(t: Seq<char>) -> Option<int> {
    let neg = t.len() > 0 && t[0] == '-';
    let digits = if t.len() > 0 && (t[0] == '+' || t[0] == '-') {
        t.drop_first()
    } else {
        t
    };
    if digits.len() == 0 || !all_digits(digits) {
        None
    } else {
        let v = if neg {
            -digits_value(digits)
        } else {
            digits_value(digits)
        };
        if isize::MIN <= v <= isize::MAX {
            Some(v)
        } else {
            None
        }
    }
}

pub fn parse_isize_exec(t: &Vec<char>, len: usize) -> (r: Option<isize>)
    requires
        len <= t.len(),
    ensures
        r == (match parse_isize(t@.take(len as int)) {
            Some(v) => Some(v as isize),
            None => None::<isize>,
        }),
{
    let ghost s = t@.take(len as int);
    if len == 0 {
        return None;
    }
    assert(s[0] == t@[0]);
    let neg = t[0] == '-';
    let first: usize = if t[0] == '+' || t[0] == '-' {
        1
    } else {
        0
    };
    let ghost digits = s.skip(first as int);
    assert(digits =~= if s.len() > 0 && (s[0] == '+' || s[0] == '-') {
        s.drop_first()
    } else {
        s
    });
    if first == len {
        return None;
    }
    // all digits?
    let mut i = first;
    while i < len
        invariant
            first <= i <= len <= t.len(),
            s == t@.take(len as int),
            digits == s.skip(first as int),
            digits == (if s.len() > 0 && (s[0] == '+' || s[0] == '-') {
                s.drop_first()
            } else {
                s
            }),
            forall|k: int| first <= k < i ==> is_digit(#[trigger] t@[k]),
        decreases len - i,
    {
        assert(digits[i - first] == t@[i as int]);
        if !('0' <= t[i] && t[i] <= '9') {
            assert(!is_digit(digits[i - first]));
            assert(!all_digits(digits));
            assert(parse_isize(s).is_none());
            return None;
        }
        i += 1;
    }
    assert(all_digits(digits)) by {
        assert forall|k: int| 0 <= k < digits.len() implies is_digit(#[trigger] digits[k]) by {
            assert(digits[k] == t@[first + k]);
        }
    }
    // magnitude, with an early stop once it is out of range
    let bound: u128 = (isize::MAX as u128) + 1;
    let mut mag: u128 = 0;
    let mut i = first;
    while i < len
        invariant
            first <= i <= len <= t.len(),
            s == t@.take(len as int),
            digits == s.skip(first as int),
            digits == (if s.len() > 0 && (s[0] == '+' || s[0] == '-') {
                s.drop_first()
            } else {
                s
            }),
            all_digits(digits),
            bound == isize::MAX + 1,
            mag == digits_value(digits.take(i - first)),
            mag <= bound,
        decreases len - i,
    {
        proof {
            assert(digits.take(i - first + 1).drop_last() =~= digits.take(i - first));
            assert(digits[i - first] == t@[i as int]);
            assert(is_digit(digits[i - first]));
        }
        let d = (t[i] as u32 - '0' as u32) as u128;
        let next = mag * 10 + d;
        assert(next == digits_value(digits.take(i - first + 1)));
        if next > bound {
            proof {
                lemma_digits_value_mono(digits, i - first + 1, digits.len() as int);
                assert(digits.take(digits.len() as int) =~= digits);
                assert(digits_value(digits) > isize::MAX + 1);
                assert(parse_isize(s).is_none());
            }
            return None;
        }
        mag = next;
        i += 1;
    }
    assert(digits.take(len - first) =~= digits);
    if neg {
        if mag == bound {
            Some(isize::MIN)
        } else {
            Some(-(mag as isize))
        }
    } else {
        if mag == bound {
            None
        } else {
            Some(mag as isize)
        }
    }
}

// ------------------------------------------------------------------------------------------
// Floating-point literal syntax
// ------------------------------------------------------------------------------------------

/// Number of leading ASCII digits.
pub open spec fn digit_run(s: Seq<char>) -> nat
    decreases s.len(),
{
    if s.len() == 0 || !is_digit(s[0]) {
        0
    } else {
        1 + digit_run(s.drop_first())
    }
}

pub proof fn lemma_digit_run(s: Seq<char>)
    ensures
        digit_run(s) <= s.len(),
        forall|i: int| 0 <= i < digit_run(s) ==> is_digit(#[trigger] s[i]),
        digit_run(s) < s.len() ==> !is_digit(s[digit_run(s) as int]),
    decreases s.len(),
{
    if s.len() > 0 && is_digit(s[0]) {
        lemma_digit_run(s.drop_first());
        assert forall|i: int| 0 <= i < digit_run(s) implies is_digit(#[trigger] s[i]) by {
            if i > 0 {
                assert(s[i] == s.drop_first()[i - 1]);
            }
        }
    }
}

pub proof fn lemma_digit_run_is(s: Seq<char>, k: nat)
    requires
        k <= s.len(),
        forall|i: int| 0 <= i < k ==> is_digit(#[trigger] s[i]),
        k < s.len() ==> !is_digit(s[k as int]),
    ensures
        digit_run(s) == k,
    decreases s.len(),
{
    if k > 0 {
        assert forall|i: int| 0 <= i < k - 1 implies is_digit(#[trigger] s.drop_first()[i]) by {
            assert(s.drop_first()[i] == s[i + 1]);
        }
        if (k - 1) < s.drop_first().len() {
            assert(s.drop_first()[k - 1] == s[k as int]);
        }
        lemma_digit_run_is(s.drop_first(), (k - 1) as nat);
    }
}

pub open spec fn lower(c: char) -> char {
    if 'A' <= c <= 'Z' {
        ((c as int) + 32) as char
    } else {
        c
    }
}

/// `s`, lowercased, equals the ASCII word `w`.
pub open spec fn eq_ignore_case(s: Seq<char>, w: Seq<char>) -> bool {
    s.len() == w.len() && forall|i: int| 0 <= i < s.len() ==> lower(#[trigger] s[i]) == w[i]
}

/// An exponent part: empty, or `e`/`E`, an optional sign, and one or more digits.
pub open spec fn is_exponent(r: Seq<char>) -> bool {
    r.len() == 0 || ((r[0] == 'e' || r[0] == 'E') && {
        let t = r.drop_first();
        let u = if t.len() > 0 && (t[0] == '+' || t[0] == '-') {
            t.drop_first()
        } else {
            t
        };
        u.len() > 0 && all_digits(u)
    })
}

/// `Digit* ['.' Digit*] Exp?` with at least one digit before the exponent.
pub open spec fn is_decimal(b: Seq<char>) -> bool {
    let d1 = digit_run(b);
    let r1 = b.skip(d1 as int);
    if r1.len() > 0 && r1[0] == '.' {
        let f = r1.drop_first();
        let d2 = digit_run(f);
        d1 + d2 > 0 && is_exponent(f.skip(d2 as int))
    } else {
        d1 > 0 && is_exponent(r1)
    }
}

/// The syntax that `str::parse::<f64>` accepts: an optional sign, then `inf`,
/// `infinity`, `nan` (in any case) or a decimal number.
pub open spec fn is_float_literal(t: Seq<char>) -> bool {
    let b = if t.len() > 0 && (t[0] == '+' || t[0] == '-') {
        t.drop_first()
    } else {
        t
    };
    eq_ignore_case(b, seq!['i', 'n', 'f']) || eq_ignore_case(
        b,
        seq!['i', 'n', 'f', 'i', 'n', 'i', 't', 'y'],
    ) || eq_ignore_case(b, seq!['n', 'a', 'n']) || is_decimal(b)
}

/// A decimal number with an exponent is a float literal whatever sign the exponent carries:
/// digits, an optional fraction, then `e` or `E`, an explicit `+` or `-` or no sign, and
/// one or more digits (as `printf("%e")` writes `1.0e+00`), with at least one digit before
/// the exponent.
pub proof fn law_float_exponent_signs(a: Seq<char>, b: Seq<char>, d: Seq<char>, e: char, sign: char)
    requires
        all_digits(a),
        all_digits(b),
        all_digits(d),
        d.len() > 0,
        e == 'e' || e == 'E',
        sign == '+' || sign == '-',
    ensures
        a.len() > 0 ==> is_float_literal(a + seq![e, sign] + d),
        a.len() > 0 ==> is_float_literal(a + seq![e] + d),
        a.len() + b.len() > 0 ==> is_float_literal(a + seq!['.'] + b + seq![e, sign] + d),
        a.len() + b.len() > 0 ==> is_float_literal(a + seq!['.'] + b + seq![e] + d),
{
    let r = seq![e, sign] + d;
    assert(r.drop_first() =~= seq![sign] + d);
    assert((seq![sign] + d).drop_first() =~= d);
    assert(is_exponent(r));
    let q = seq![e] + d;
    assert(q.drop_first() =~= d);
    assert(d[0] != '+' && d[0] != '-');
    assert(is_exponent(q));
    if a.len() > 0 {
        lemma_exponent_after_digits(a, r);
        lemma_exponent_after_digits(a, q);
        assert(a + seq![e, sign] + d =~= a + r);
        assert(a + seq![e] + d =~= a + q);
    }
    if a.len() + b.len() > 0 {
        lemma_fraction_after_digits(a, b, r);
        lemma_fraction_after_digits(a, b, q);
        assert(a + seq!['.'] + b + seq![e, sign] + d =~= a + (seq!['.'] + (b + r)));
        assert(a + seq!['.'] + b + seq![e] + d =~= a + (seq!['.'] + (b + q)));
    }
}

/// Digits followed by text that starts with neither a digit nor a sign nor a point:
/// the text is a float literal when that text is an exponent.
proof fn lemma_exponent_after_digits(a: Seq<char>, r: Seq<char>)
    requires
        all_digits(a),
        a.len() > 0,
        r.len() > 0,
        r[0] == 'e' || r[0] == 'E',
        is_exponent(r),
    ensures
        is_float_literal(a + r),
{
    let t = a + r;
    assert(t[0] == a[0]);
    assert forall|i: int| 0 <= i < a.len() implies is_digit(#[trigger] t[i]) by {
        assert(t[i] == a[i]);
    }
    assert(t[a.len() as int] == r[0]);
    lemma_digit_run_is(t, a.len());
    assert(t.skip(a.len() as int) =~= r);
    assert(is_decimal(t));
}

/// Digits, a point, digits and an exponent, with a digit on either side of the point.
proof fn lemma_fraction_after_digits(a: Seq<char>, b: Seq<char>, r: Seq<char>)
    requires
        all_digits(a),
        all_digits(b),
        a.len() + b.len() > 0,
        r.len() > 0,
        r[0] == 'e' || r[0] == 'E',
        is_exponent(r),
    ensures
        is_float_literal(a + (seq!['.'] + (b + r))),
{
    let f = b + r;
    let t = a + (seq!['.'] + f);
    assert(t[0] == if a.len() > 0 { a[0] } else { '.' });
    assert forall|i: int| 0 <= i < a.len() implies is_digit(#[trigger] t[i]) by {
        assert(t[i] == a[i]);
    }
    assert(t[a.len() as int] == '.');
    lemma_digit_run_is(t, a.len());
    let r1 = t.skip(a.len() as int);
    assert(r1 =~= seq!['.'] + f);
    assert(r1.drop_first() =~= f);
    assert forall|i: int| 0 <= i < b.len() implies is_digit(#[trigger] f[i]) by {
        assert(f[i] == b[i]);
    }
    assert(f[b.len() as int] == r[0]);
    lemma_digit_run_is(f, b.len());
    assert(f.skip(b.len() as int) =~= r);
    assert(is_decimal(t));
}

fn lower_exec(c: char) -> (r: char)
    ensures
        r == lower(c),
{
    if 'A' <= c && c <= 'Z' {
        let u = (c as u32 + 32) as u8;
        u as char
    } else {
        c
    }
}

fn eq_ignore_case_exec(s: &Vec<char>, from: usize, w: &Vec<char>) -> (r: bool)
    requires
        from <= s.len(),
    ensures
        r == eq_ignore_case(s@.skip(from as int), w@),
{
    let ghost b = s@.skip(from as int);
    if s.len() - from != w.len() {
        return false;
    }
    for i in 0..w.len()
        invariant
            from <= s.len(),
            s.len() - from == w.len(),
            b == s@.skip(from as int),
            forall|j: int| 0 <= j < i ==> lower(#[trigger] b[j]) == w@[j],
    {
        if lower_exec(s[from + i]) != w[i] {
            assert(b[i as int] == s@[from + i]);
            return false;
        }
        assert(b[i as int] == s@[from + i]);
    }
    true
}

/// Index of the first position at or after `i` that is not a digit.
fn skip_digits(s: &Vec<char>, i: usize) -> (e: usize)
    requires
        i <= s.len(),
    ensures
        i <= e <= s.len(),
        e - i == digit_run(s@.skip(i as int)),
{
    let mut e = i;
    while e < s.len() && '0' <= s[e] && s[e] <= '9'
        invariant
            i <= e <= s.len(),
            forall|k: int| i <= k < e ==> is_digit(#[trigger] s@[k]),
        decreases s.len() - e,
    {
        e += 1;
    }
    proof {
        let t = s@.skip(i as int);
        assert forall|k: int| 0 <= k < e - i implies is_digit(#[trigger] t[k]) by {
            assert(t[k] == s@[i + k]);
        }
        if e < s.len() {
            assert(t[e - i] == s@[e as int]);
        }
        lemma_digit_run_is(t, (e - i) as nat);
    }
    e
}

fn is_exponent_exec(s: &Vec<char>, i: usize) -> (r: bool)
    requires
        i <= s.len(),
    ensures
        r == is_exponent(s@.skip(i as int)),
{
    let ghost r0 = s@.skip(i as int);
    if i == s.len() {
        return true;
    }
    assert(r0[0] == s@[i as int]);
    if !(s[i] == 'e' || s[i] == 'E') {
        return false;
    }
    let mut j = i + 1;
    let ghost t = r0.drop_first();
    assert(t =~= s@.skip(j as int));
    if j < s.len() && (s[j] == '+' || s[j] == '-') {
        assert(t[0] == s@[j as int]);
        j += 1;
        assert(t.drop_first() =~= s@.skip(j as int));
    } else if j < s.len() {
        assert(t[0] == s@[j as int]);
    }
    if j == s.len() {
        return false;
    }
    let e = skip_digits(s, j);
    proof {
        lemma_digit_run(s@.skip(j as int));
        let u = s@.skip(j as int);
        if e == s.len() {
            assert forall|k: int| 0 <= k < u.len() implies is_digit(#[trigger] u[k]) by {}
        } else {
            assert(!is_digit(u[e - j]));
        }
    }
    e == s.len()
}

/// Checks `is_float_literal` for the whole of `s`.
pub fn float_literal(s: &Vec<char>) -> (r: bool)
    ensures
        r == is_float_literal(s@),
{
    let first: usize = if s.len() > 0 && (s[0] == '+' || s[0] == '-') {
        1
    } else {
        0
    };
    let ghost b = s@.skip(first as int);
    assert(b =~= if s@.len() > 0 && (s@[0] == '+' || s@[0] == '-') {
        s@.drop_first()
    } else {
        s@
    });
    let inf = vec!['i', 'n', 'f'];
    let infinity = vec!['i', 'n', 'f', 'i', 'n', 'i', 't', 'y'];
    let nan = vec!['n', 'a', 'n'];
    assert(inf@ =~= seq!['i', 'n', 'f']);
    assert(infinity@ =~= seq!['i', 'n', 'f', 'i', 'n', 'i', 't', 'y']);
    assert(nan@ =~= seq!['n', 'a', 'n']);
    if eq_ignore_case_exec(s, first, &inf) || eq_ignore_case_exec(s, first, &infinity)
        || eq_ignore_case_exec(s, first, &nan) {
        return true;
    }
    let e1 = skip_digits(s, first);
    let d1 = e1 - first;
    proof {
        lemma_digit_run(b);
        assert(b.skip(d1 as int) =~= s@.skip(e1 as int));
    }
    if e1 < s.len() && s[e1] == '.' {
        assert(b.skip(d1 as int)[0] == s@[e1 as int]);
        let e2 = skip_digits(s, e1 + 1);
        proof {
            assert(b.skip(d1 as int).drop_first() =~= s@.skip(e1 + 1));
            assert(s@.skip(e1 + 1).skip(e2 - (e1 + 1)) =~= s@.skip(e2 as int));
        }
        d1 + (e2 - (e1 + 1)) > 0 && is_exponent_exec(s, e2)
    } else {
        if e1 < s.len() {
            assert(b.skip(d1 as int)[0] == s@[e1 as int]);
        }
        d1 > 0 && is_exponent_exec(s, e1)
    }
}

// ------------------------------------------------------------------------------------------
// Decimal formatting
// ------------------------------------------------------------------------------------------

pub open spec fn digit_char(d: nat) -> char {
    ('0' as nat + d) as char
}

/// The decimal representation of `n`, without leading zeros, as `{}` formats it.
pub open spec fn decimal(n: nat) -> Seq<char>
    decreases n,
{
    if n < 10 {
        seq![digit_char(n)]
    } else {
        decimal(n / 10).push(digit_char(n % 10))
    }
}

/// Appends the decimal representation of `n` to `s`.
pub fn push_decimal(s: &mut String, n: usize)
    ensures
        final(s)@ == old(s)@ + decimal(n as nat),
    decreases n,
{
    if n >= 10 {
        push_decimal(s, n / 10);
    }
    let d = (n % 10) as u8;
    let c = (48u8 + d) as char;
    assert(c == digit_char((n % 10) as nat));
    push_char(s, c);
    proof {
        if n >= 10 {
            assert(old(s)@ + decimal((n / 10) as nat) + seq![c] =~= old(s)@ + decimal(n as nat));
        } else {
            assert(old(s)@ + seq![c] =~= old(s)@ + decimal(n as nat));
        }
    }
}

/// The signed decimal representation of `n`, as `{}` formats it.
pub open spec fn signed_decimal(n: int) -> Seq<char> {
    if n < 0 {
        seq!['-'] + decimal((-n) as nat)
    } else {
        decimal(n as nat)
    }
}

/// Appends the signed decimal representation of `n` to `s`.
pub fn push_signed_decimal(s: &mut String, n: isize)
    ensures
        final(s)@ == old(s)@ + signed_decimal(n as int),
{
    if n < 0 {
        push_char(s, '-');
        let m: usize = if n == isize::MIN {
            (isize::MAX as usize) + 1
        } else {
            (-n) as usize
        };
        push_decimal(s, m);
        assert(old(s)@.push('-') + decimal(m as nat) =~= old(s)@ + (seq!['-'] + decimal(
            m as nat,
        )));
    } else {
        push_decimal(s, n as usize);
    }
}

// ------------------------------------------------------------------------------------------
// Joining text
// ------------------------------------------------------------------------------------------

/// The pieces one after another.
pub open spec fn concat(ls: Seq<Seq<char>>) -> Seq<char>
    decreases ls.len(),
{
    if ls.len() == 0 {
        seq![]
    } else {
        concat(ls.drop_last()) + ls.last()
    }
}

/// The pieces separated by single spaces.
pub open spec fn join_spaced(ts: Seq<Seq<char>>) -> Seq<char>
    decreases ts.len(),
{
    if ts.len() == 0 {
        seq![]
    } else if ts.len() == 1 {
        ts[0]
    } else {
        join_spaced(ts.drop_last()) + seq![' '] + ts.last()
    }
}

/// Appends every string of `ls`, in order.
pub fn push_all(s: &mut String, ls: &Vec<String>)
    ensures
        final(s)@ == old(s)@ + concat(ls@.map_values(|l: String| l@)),
{
    let ghost s0 = s@;
    let ghost vs = ls@.map_values(|l: String| l@);
    for k in 0..ls.len()
        invariant
            vs == ls@.map_values(|l: String| l@),
            s@ == s0 + concat(vs.take(k as int)),
    {
        s.append(ls[k].as_str());
        proof {
            assert(vs.take(k + 1).drop_last() =~= vs.take(k as int));
            assert(s0 + concat(vs.take(k as int)) + vs[k as int] =~= s0 + concat(vs.take(k + 1)));
        }
    }
    assert(vs.take(ls@.len() as int) =~= vs);
}

} // verus!
