//! Rendering and parsing of decimal number strings.
//!
//! The store transmits every number as a decimal string. This module
//! renders a [`Decimal`] into that string and parses such a string
//! back, and proves that parsing inverts rendering.

use vstd::prelude::*;
use crate::errors::AwwsyError;
use crate::text::{str_chars, string_from_chars};
use crate::values::Decimal;

verus! {

/// Whether `c` is one of the digits `'0'` through `'9'`.
pub open spec fn is_digit_char(c: char) -> bool {
    48 <= c as int <= 57
}

/// The digit character for a value `0 <= d <= 9`.
pub open spec fn digit_char(d: int) -> char {
    (48 + d) as char
}

/// The numeric value of a digit character.
pub open spec fn digit_val(c: char) -> int {
    c as int - 48
}

/// Whether every character of `s` is a digit.
pub open spec fn all_digits(s: Seq<char>) -> bool {
    forall|i: int| 0 <= i < s.len() ==> is_digit_char(#[trigger] s[i])
}

/// The number that the digit string `s` denotes, most significant
/// digit first.
pub open spec fn digits_val(s: Seq<char>) -> int
    decreases s.len(),
{
    if s.len() == 0 {
        0
    } else {
        digits_val(s.drop_last()) * 10 + digit_val(s.last())
    }
}

/// The shortest digit string of `n`: no leading zero except for `0`
/// itself.
pub open spec fn digits_of(n: nat) -> Seq<char>
    decreases n,
{
    if n < 10 {
        seq![digit_char(n as int)]
    } else {
        digits_of(n / 10).push(digit_char((n % 10) as int))
    }
}

/// `n` zero characters.
pub open spec fn zeros(n: nat) -> Seq<char> {
    Seq::new(n, |i: int| '0')
}

/// `digs` left-padded with zeros up to `width` characters.
pub open spec fn pad_digits(digs: Seq<char>, width: nat) -> Seq<char> {
    if digs.len() >= width {
        digs
    } else {
        zeros((width - digs.len()) as nat) + digs
    }
}

/// The decimal string of `d`: an optional minus sign, then the
/// mantissa's digits with a point placed `scale` digits from the
/// right, padding with zeros so that at least one digit stands before
/// the point. A scale of zero yields a plain integer string.
pub open spec fn spec_render_decimal(d: Decimal) -> Seq<char> {
    let digs = digits_of(d.mantissa as nat);
    let sign: Seq<char> = if d.neg {
        seq!['-']
    } else {
        Seq::empty()
    };
    if d.scale == 0 {
        sign + digs
    } else {
        let p = pad_digits(digs, d.scale as nat + 1);
        let cut = p.len() - d.scale as int;
        sign + p.take(cut) + seq!['.'] + p.skip(cut)
    }
}

/// The index of the first `'.'` in `s`, or `s.len()` if there is
/// none.
pub open spec fn dot_index(s: Seq<char>) -> int
    decreases s.len(),
{
    if s.len() == 0 {
        0
    } else if s[0] == '.' {
        0
    } else {
        1 + dot_index(s.skip(1))
    }
}

/// The decimal that the string `s` denotes, if `s` is a well-formed
/// decimal string: an optional minus sign, one or more digits, then
/// optionally a point followed by one or more digits, whose digits
/// read as one integer fit in a `u64`. Anything else denotes nothing.
pub open spec fn spec_parse_decimal(s: Seq<char>) -> Option<Decimal> {
    let neg = s.len() > 0 && s[0] == '-';
    let body = if neg {
        s.skip(1)
    } else {
        s
    };
    let di = dot_index(body);
    let intd = body.take(di);
    let fracd = if di == body.len() {
        Seq::<char>::empty()
    } else {
        body.skip(di + 1)
    };
    if intd.len() >= 1 && (di == body.len() || fracd.len() >= 1) && all_digits(intd) && all_digits(
        fracd,
    ) && digits_val(intd + fracd) <= u64::MAX && fracd.len() < usize::MAX {
        Some(
            Decimal {
                neg,
                mantissa: digits_val(intd + fracd) as u64,
                scale: fracd.len() as usize,
            },
        )
    } else {
        None
    }
}

/// Where the first dot of `s` stands: not before `dot_index(s)`, and
/// at it if one exists at all.
pub proof fn lemma_dot_index(s: Seq<char>)
    ensures
        0 <= dot_index(s) <= s.len(),
        dot_index(s) < s.len() ==> s[dot_index(s)] == '.',
        forall|j: int| 0 <= j < dot_index(s) ==> s[j] != '.',
    decreases s.len(),
{
    if s.len() > 0 && s[0] != '.' {
        lemma_dot_index(s.skip(1));
        assert forall|j: int| 0 <= j < dot_index(s) implies s[j] != '.' by {
            if j > 0 {
                assert(s.skip(1)[j - 1] == s[j]);
            }
        }
        if dot_index(s) < s.len() {
            assert(s.skip(1)[dot_index(s) - 1] == s[dot_index(s)]);
        }
    }
}

/// A position with no dot before it, and a dot at it unless it is the
/// end, is the first dot's position.
pub proof fn lemma_dot_index_is(s: Seq<char>, i: int)
    requires
        0 <= i <= s.len(),
        forall|j: int| 0 <= j < i ==> s[j] != '.',
        i < s.len() ==> s[i] == '.',
    ensures
        dot_index(s) == i,
{
    lemma_dot_index(s);
    if dot_index(s) < i {
        assert(s[dot_index(s)] != '.');
    }
    if dot_index(s) > i {
        assert(s[i] != '.');
    }
}

/// A digit string denotes a nonnegative number.
pub proof fn lemma_digits_val_nonneg(s: Seq<char>)
    requires
        all_digits(s),
    ensures
        digits_val(s) >= 0,
    decreases s.len(),
{
    if s.len() > 0 {
        assert(all_digits(s.drop_last())) by {
            assert(forall|i: int|
                0 <= i < s.len() - 1 ==> #[trigger] s.drop_last()[i] == s[i]);
        }
        lemma_digits_val_nonneg(s.drop_last());
        assert(is_digit_char(s.last()));
    }
}

/// The digit string of `n` is nonempty, all digits, and denotes `n`.
pub proof fn lemma_digits_of(n: nat)
    ensures
        digits_of(n).len() >= 1,
        all_digits(digits_of(n)),
        digits_val(digits_of(n)) == n,
    decreases n,
{
    if n < 10 {
        let c = digit_char(n as int);
        assert(c as int == 48 + n) by {
            assert(0 <= 48 + n < 0xD800);
        }
        assert(digits_of(n) == seq![c]);
        assert(seq![c].drop_last() =~= Seq::<char>::empty());
        assert(seq![c].last() == c);
        assert(digits_val(seq![c]) == digits_val(Seq::<char>::empty()) * 10 + digit_val(c));
        assert(digit_val(c) == n);
    } else {
        lemma_digits_of(n / 10);
        let c = digit_char((n % 10) as int);
        assert(c as int == 48 + n % 10) by {
            assert(0 <= 48 + n % 10 < 0xD800);
        }
        let prev = digits_of(n / 10);
        assert(digits_of(n) == prev.push(c));
        assert(prev.push(c).drop_last() =~= prev);
        assert(prev.push(c).last() == c);
        assert(digits_val(digits_of(n)) == digits_val(prev) * 10 + (n % 10));
        assert(digits_val(prev) == n / 10);
        assert((n / 10) * 10 + n % 10 == n) by {
            vstd::arithmetic::div_mod::lemma_fundamental_div_mod(n as int, 10);
        }
        assert(forall|i: int|
            0 <= i < prev.len() ==> #[trigger] prev.push(c)[i] == prev[i]);
    }
}

/// Leading zeros do not change the number a digit string denotes.
pub proof fn lemma_digits_val_zeros(z: nat, t: Seq<char>)
    ensures
        digits_val(zeros(z) + t) == digits_val(t),
    decreases t.len(),
{
    if t.len() == 0 {
        assert(zeros(z) + t =~= zeros(z));
        lemma_digits_val_all_zeros(z);
    } else {
        lemma_digits_val_zeros(z, t.drop_last());
        assert((zeros(z) + t).drop_last() =~= zeros(z) + t.drop_last());
        assert((zeros(z) + t).last() == t.last());
    }
}

/// A string of zeros denotes zero.
pub proof fn lemma_digits_val_all_zeros(z: nat)
    ensures
        digits_val(zeros(z)) == 0,
    decreases z,
{
    if z > 0 {
        lemma_digits_val_all_zeros((z - 1) as nat);
        assert(zeros(z).drop_last() =~= zeros((z - 1) as nat));
        assert(zeros(z).last() == '0');
        assert(digit_val('0') == 0);
    }
}

/// The digit character of a value below ten.
fn digit_to_char(d: u64) -> (c: char)
    requires
        d < 10,
    ensures
        c == digit_char(d as int),
{
    let b: u8 = 48 + (d as u8);
    let c = b as char;
    proof {
        assert(c as int == 48 + d);
    }
    c
}

/// Append the digits of `n`, most significant first.
fn push_digits(n: u64, out: &mut Vec<char>)
    ensures
        final (out)@ == old(out)@ + digits_of(n as nat),
    decreases n,
{
    if n < 10 {
        out.push(digit_to_char(n));
        proof {
            assert(out@ =~= old(out)@ + digits_of(n as nat));
        }
    } else {
        push_digits(n / 10, out);
        out.push(digit_to_char(n % 10));
        proof {
            assert(out@ =~= old(out)@ + digits_of(n as nat));
        }
    }
}

/// The characters of the decimal string of `d`.
pub fn render_decimal_chars(d: &Decimal) -> (r: Vec<char>)
    requires
        d.wf(),
    ensures
        r@ == spec_render_decimal(*d),
{
    let mut digs: Vec<char> = Vec::new();
    push_digits(d.mantissa, &mut digs);
    if d.scale == 0 {
        if d.neg {
            let mut out: Vec<char> = Vec::new();
            out.push('-');
            out.append(&mut digs);
            proof {
                assert(out@ =~= spec_render_decimal(*d));
            }
            out
        } else {
            proof {
                assert(digs@ =~= spec_render_decimal(*d));
            }
            digs
        }
    } else {
        let width = d.scale + 1;
        let mut p: Vec<char> = Vec::new();
        if digs.len() < width {
            let pad = width - digs.len();
            let mut k: usize = 0;
            while k < pad
                invariant
                    k <= pad,
                    p@ =~= zeros(k as nat),
                decreases pad - k,
            {
                p.push('0');
                k = k + 1;
            }
            proof {
                assert(p@ =~= zeros((width - digs@.len()) as nat));
            }
        }
        p.append(&mut digs);
        proof {
            assert(p@ =~= pad_digits(digits_of(d.mantissa as nat), d.scale as nat + 1));
        }
        let cut = p.len() - d.scale;
        let mut out: Vec<char> = Vec::new();
        if d.neg {
            out.push('-');
        }
        let ghost sign: Seq<char> = if d.neg {
            seq!['-']
        } else {
            Seq::empty()
        };
        let mut i: usize = 0;
        while i < cut
            invariant
                i <= cut,
                cut <= p@.len(),
                out@ =~= sign + p@.take(i as int),
            decreases cut - i,
        {
            out.push(p[i]);
            i = i + 1;
        }
        out.push('.');
        let mut j: usize = cut;
        while j < p.len()
            invariant
                cut <= j <= p@.len(),
                out@ =~= sign + p@.take(cut as int) + seq!['.'] + p@.subrange(cut as int, j as int),
            decreases p@.len() - j,
        {
            out.push(p[j]);
            j = j + 1;
        }
        proof {
            assert(p@.subrange(cut as int, p@.len() as int) =~= p@.skip(cut as int));
            assert(out@ =~= spec_render_decimal(*d));
        }
        out
    }
}

/// The decimal string of `d`: sign, digits, and a point placed
/// `scale` digits from the right.
pub fn render_decimal(d: &Decimal) -> (r: String)
    requires
        d.wf(),
    ensures
        r@ == spec_render_decimal(*d),
{
    let chars = render_decimal_chars(d);
    string_from_chars(&chars)
}

/// A digit string denotes at least what any of its prefixes denotes.
pub proof fn lemma_digits_val_prefix_le(s: Seq<char>, k: int)
    requires
        all_digits(s),
        0 <= k <= s.len(),
    ensures
        digits_val(s.take(k)) <= digits_val(s),
    decreases s.len(),
{
    if k == s.len() {
        assert(s.take(k) =~= s);
    } else {
        let head = s.drop_last();
        assert(all_digits(head)) by {
            assert(forall|i: int|
                0 <= i < head.len() ==> #[trigger] head[i] == s[i]);
        }
        assert(s.take(k) =~= head.take(k));
        lemma_digits_val_prefix_le(head, k);
        lemma_digits_val_nonneg(head);
        assert(is_digit_char(s.last()));
        assert(digits_val(s) == digits_val(head) * 10 + digit_val(s.last()));
        assert(digits_val(head) * 10 >= digits_val(head));
    }
}

/// The value of a digit character, or nothing for any other
/// character.
fn char_digit(c: char) -> (r: Option<u64>)
    ensures
        match r {
            Some(d) => is_digit_char(c) && d == digit_val(c),
            None => !is_digit_char(c),
        },
{
    match c {
        '0' => Some(0),
        '1' => Some(1),
        '2' => Some(2),
        '3' => Some(3),
        '4' => Some(4),
        '5' => Some(5),
        '6' => Some(6),
        '7' => Some(7),
        '8' => Some(8),
        '9' => Some(9),
        _ => None,
    }
}

/// The value of a digit string, unless it exceeds `u64::MAX`.
fn digits_to_u64(d: &Vec<char>) -> (r: Option<u64>)
    requires
        all_digits(d@),
    ensures
        match r {
            Some(v) => v == digits_val(d@),
            None => digits_val(d@) > u64::MAX,
        },
{
    let n = d.len();
    let mut acc: u64 = 0;
    let mut i: usize = 0;
    while i < n
        invariant
            i <= n,
            n == d@.len(),
            all_digits(d@),
            acc == digits_val(d@.take(i as int)),
        decreases n - i,
    {
        let c = d[i];
        proof {
            assert(is_digit_char(d@[i as int]));
        }
        let dv: u64 = match char_digit(c) {
            Some(x) => x,
            None => {
                proof {
                    assert(false);
                }
                0
            },
        };
        proof {
            assert(dv == digit_val(d@[i as int]));
            assert(d@.take(i + 1).drop_last() =~= d@.take(i as int));
            assert(d@.take(i + 1).last() == d@[i as int]);
            assert(digits_val(d@.take(i + 1)) == digits_val(d@.take(i as int)) * 10 + dv);
        }
        if acc > (u64::MAX - dv) / 10 {
            proof {
                let m = u64::MAX as int;
                vstd::arithmetic::div_mod::lemma_fundamental_div_mod(m - dv, 10);
                assert(acc * 10 + dv > m);
                lemma_digits_val_prefix_le(d@, i + 1);
            }
            return None;
        }
        proof {
            let m = u64::MAX as int;
            vstd::arithmetic::div_mod::lemma_fundamental_div_mod(m - dv, 10);
            assert(acc * 10 + dv <= m);
        }
        acc = acc * 10 + dv;
        i = i + 1;
    }
    proof {
        assert(d@.take(n as int) =~= d@);
    }
    Some(acc)
}

/// The decimal that a character sequence denotes, if any.
pub fn parse_decimal_chars(v: &Vec<char>) -> (r: Option<Decimal>)
    ensures
        r == spec_parse_decimal(v@),
{
    let n = v.len();
    let neg = n > 0 && v[0] == '-';
    let start: usize = if neg {
        1
    } else {
        0
    };
    let ghost body: Seq<char> = if neg {
        v@.skip(1)
    } else {
        v@
    };
    proof {
        assert(body.len() == n - start);
        assert(forall|j: int| 0 <= j < body.len() ==> body[j] == v@[start + j]);
    }
    // find the first dot
    let mut i: usize = start;
    while i < n && v[i] != '.'
        invariant
            start <= i <= n,
            n == v@.len(),
            forall|j: int| start <= j < i ==> v@[j] != '.',
        decreases n - i,
    {
        i = i + 1;
    }
    let dot_present = i < n;
    proof {
        lemma_dot_index_is(body, i - start);
        assert(dot_index(body) == i - start);
    }
    let ghost di = i - start;
    let ghost intd = body.take(di);
    let ghost fracd: Seq<char> = if di == body.len() {
        Seq::<char>::empty()
    } else {
        body.skip(di + 1)
    };
    if i == start {
        proof {
            assert(intd.len() == 0);
        }
        return None;
    }
    if dot_present && i + 1 == n {
        proof {
            assert(di < body.len());
            assert(fracd.len() == 0);
        }
        return None;
    }
    proof {
        assert(intd =~= v@.subrange(start as int, i as int));
        if di < body.len() {
            assert(fracd =~= v@.subrange(i + 1, n as int));
        }
    }
    // collect the digits before the dot
    let mut digits: Vec<char> = Vec::new();
    let mut j: usize = start;
    while j < i
        invariant
            start <= j <= i,
            start < i,
            i <= n,
            n == v@.len(),
            neg == (v@.len() > 0 && v@[0] == '-'),
            start == (if neg {
                1usize
            } else {
                0usize
            }),
            body == (if neg {
                v@.skip(1)
            } else {
                v@
            }),
            di == dot_index(body),
            di == i - start,
            intd == body.take(di),
            intd =~= v@.subrange(start as int, i as int),
            digits@ =~= v@.subrange(start as int, j as int),
            all_digits(digits@),
        decreases i - j,
    {
        let c = v[j];
        if char_digit(c).is_none() {
            proof {
                assert(intd[j - start] == v@[j as int]);
                assert(!is_digit_char(intd[j - start]));
                assert(!all_digits(intd));
            }
            return None;
        }
        let ghost pre = digits@;
        digits.push(c);
        proof {
            assert(is_digit_char(c));
            assert(digits@ == pre.push(c));
            assert forall|k: int| 0 <= k < digits@.len() implies is_digit_char(
                #[trigger] digits@[k],
            ) by {
                if k < pre.len() {
                    assert(digits@[k] == pre[k]);
                } else {
                    assert(digits@[k] == c);
                }
            }
        }
        j = j + 1;
    }
    proof {
        assert(digits@ =~= intd);
    }
    let ghost intd_c = digits@;
    // collect the digits after the dot
    if dot_present {
        let mut j2: usize = i + 1;
        while j2 < n
            invariant
                i + 1 <= j2 <= n,
                i < n,
                start <= i,
                start < i,
                n == v@.len(),
                neg == (v@.len() > 0 && v@[0] == '-'),
                start == (if neg {
                    1usize
                } else {
                    0usize
                }),
                body == (if neg {
                    v@.skip(1)
                } else {
                    v@
                }),
                di == dot_index(body),
                di == i - start,
                di < body.len(),
                fracd == body.skip(di + 1),
                fracd =~= v@.subrange(i + 1, n as int),
                digits@ =~= intd_c + v@.subrange(i + 1, j2 as int),
                all_digits(digits@),
            decreases n - j2,
        {
            let c = v[j2];
            if char_digit(c).is_none() {
                proof {
                    assert(fracd[j2 - i - 1] == v@[j2 as int]);
                    assert(!is_digit_char(fracd[j2 - i - 1]));
                    assert(!all_digits(fracd));
                }
                return None;
            }
            let ghost pre = digits@;
            digits.push(c);
            proof {
                assert(is_digit_char(c));
                assert(digits@ == pre.push(c));
                assert forall|k: int| 0 <= k < digits@.len() implies is_digit_char(
                    #[trigger] digits@[k],
                ) by {
                    if k < pre.len() {
                        assert(digits@[k] == pre[k]);
                    } else {
                        assert(digits@[k] == c);
                    }
                }
            }
            j2 = j2 + 1;
        }
    }
    proof {
        assert(digits@ =~= intd + fracd);
        assert(all_digits(intd)) by {
            assert(forall|k: int| 0 <= k < intd.len() ==> intd[k] == digits@[k]);
        }
        assert(all_digits(fracd)) by {
            assert(forall|k: int|
                0 <= k < fracd.len() ==> fracd[k] == digits@[intd.len() + k]);
        }
    }
    let scale: usize = if dot_present {
        n - i - 1
    } else {
        0
    };
    proof {
        assert(scale == fracd.len());
        assert(fracd.len() < usize::MAX);
    }
    match digits_to_u64(&digits) {
        Some(m) => {
            proof {
                assert(digits_val(intd + fracd) == m);
            }
            Some(Decimal { neg, mantissa: m, scale })
        },
        None => {
            proof {
                assert(digits_val(intd + fracd) > u64::MAX);
            }
            None
        },
    }
}

/// Parse a decimal string: an optional minus sign, one or more
/// digits, and optionally a point followed by one or more digits.
/// Anything else is rejected as unparsable.
pub fn parse_decimal(s: &str) -> (r: Result<Decimal, AwwsyError>)
    ensures
        match r {
            Ok(d) => spec_parse_decimal(s@) == Some(d) && d.wf(),
            Err(e) => spec_parse_decimal(s@) is None && (e matches AwwsyError::ConversionError(m)
                && m@ == "unparsable number"@),
        },
{
    let chars = str_chars(s);
    match parse_decimal_chars(&chars) {
        Some(d) => Ok(d),
        None => Err(AwwsyError::ConversionError(String::from_str("unparsable number"))),
    }
}

/// Parsing inverts rendering: the decimal string of a well-formed
/// decimal denotes exactly that decimal.
pub proof fn lemma_parse_render_decimal(d: Decimal)
    requires
        d.wf(),
    ensures
        spec_parse_decimal(spec_render_decimal(d)) == Some(d),
{
    lemma_digits_of(d.mantissa as nat);
    let digs = digits_of(d.mantissa as nat);
    let s = spec_render_decimal(d);
    let sign: Seq<char> = if d.neg {
        seq!['-']
    } else {
        Seq::empty()
    };
    if d.scale == 0 {
        assert(s == sign + digs);
        if d.neg {
            assert(s[0] == '-');
        } else {
            assert(s =~= digs);
            assert(is_digit_char(s[0]));
            assert(s[0] != '-');
        }
        let neg = s.len() > 0 && s[0] == '-';
        assert(neg == d.neg);
        let body: Seq<char> = if neg {
            s.skip(1)
        } else {
            s
        };
        assert(body =~= digs);
        lemma_dot_index_is(body, body.len() as int);
        let di = dot_index(body);
        assert(di == body.len());
        let intd = body.take(di);
        assert(intd =~= digs);
        let fracd = Seq::<char>::empty();
        assert(intd + fracd =~= digs);
        assert(digits_val(intd + fracd) == d.mantissa);
    } else {
        let width = d.scale as nat + 1;
        let p = pad_digits(digs, width);
        assert(all_digits(p) && p.len() >= width && digits_val(p) == d.mantissa) by {
            if digs.len() >= width {
                assert(p == digs);
            } else {
                let z = (width - digs.len()) as nat;
                assert(p == zeros(z) + digs);
                lemma_digits_val_zeros(z, digs);
                assert(forall|k: int| 0 <= k < z ==> #[trigger] zeros(z)[k] == '0');
                assert(forall|k: int|
                    0 <= k < p.len() ==> is_digit_char(#[trigger] p[k]));
            }
        }
        let cut = p.len() - d.scale as int;
        assert(cut >= 1);
        let a = p.take(cut);
        let b = p.skip(cut);
        assert(s == sign + a + seq!['.'] + b);
        if d.neg {
            assert(s[0] == '-');
        } else {
            assert(s[0] == a[0]);
            assert(is_digit_char(p[0]));
            assert(s[0] != '-');
        }
        let neg = s.len() > 0 && s[0] == '-';
        assert(neg == d.neg);
        let body: Seq<char> = if neg {
            s.skip(1)
        } else {
            s
        };
        assert(body =~= a + seq!['.'] + b);
        assert(forall|j: int| 0 <= j < cut ==> body[j] == #[trigger] p[j]);
        assert(forall|j: int| 0 <= j < cut ==> body[j] != '.');
        assert(body[cut] == '.');
        lemma_dot_index_is(body, cut);
        let di = dot_index(body);
        assert(di == cut);
        assert(di < body.len());
        let intd = body.take(di);
        let fracd = body.skip(di + 1);
        assert(intd =~= a);
        assert(fracd =~= b);
        assert(fracd.len() == d.scale);
        assert(intd + fracd =~= p);
        assert(digits_val(intd + fracd) == d.mantissa);
        assert(all_digits(intd) && all_digits(fracd)) by {
            assert(forall|k: int| 0 <= k < a.len() ==> a[k] == #[trigger] p[k]);
            assert(forall|k: int|
                0 <= k < b.len() ==> b[k] == #[trigger] p[cut + k]);
        }
    }
}

} // verus!
