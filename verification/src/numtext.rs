//! Decimal text: the spec-level decimal representation of unsigned and signed
//! integers, executable formatting and parsing, and the round-trip lemmas the
//! file codec builds on.

use vstd::prelude::*;
use vstd::arithmetic::div_mod::lemma_fundamental_div_mod;

verus! {

pub open spec fn is_dec_digit(c: char) -> bool {
    48 <= c as u32 && c as u32 <= 57
}

pub open spec fn digit_val(c: char) -> nat {
    (c as u32 - 48) as nat
}

pub open spec fn dec_digit_char(d: nat) -> char {
    if d == 0 {
        '0'
    } else if d == 1 {
        '1'
    } else if d == 2 {
        '2'
    } else if d == 3 {
        '3'
    } else if d == 4 {
        '4'
    } else if d == 5 {
        '5'
    } else if d == 6 {
        '6'
    } else if d == 7 {
        '7'
    } else if d == 8 {
        '8'
    } else {
        '9'
    }
}

/// The decimal representation of `n`, most significant digit first.
pub open spec fn dec_rep(n: nat) -> Seq<char>
    decreases n,
{
    if n < 10 {
        seq![dec_digit_char(n)]
    } else {
        dec_rep(n / 10) + seq![dec_digit_char(n % 10)]
    }
}

/// The decimal representation of a signed value: a minus sign for negatives.
pub open spec fn i32_rep(v: int) -> Seq<char> {
    if v < 0 {
        seq!['-'] + dec_rep((-v) as nat)
    } else {
        dec_rep(v as nat)
    }
}

pub proof fn lemma_dec_digit_char_props(d: nat)
    requires
        d < 10,
    ensures
        is_dec_digit(dec_digit_char(d)),
        digit_val(dec_digit_char(d)) == d,
{
}

pub proof fn lemma_dec_rep_props(n: nat)
    ensures
        dec_rep(n).len() >= 1,
        is_dec_digit(dec_rep(n)[0]),
        forall|k: int| 0 <= k < dec_rep(n).len() ==> is_dec_digit(#[trigger] dec_rep(n)[k]),
    decreases n,
{
    if n < 10 {
        lemma_dec_digit_char_props(n);
    } else {
        lemma_dec_rep_props(n / 10);
        lemma_dec_digit_char_props(n % 10);
    }
}

/// Scans a run of decimal digits starting at `i`, folding them onto `acc`;
/// stops at the first non-digit and yields the value with the stop position.
pub open spec fn scan_dec(s: Seq<char>, i: int, acc: nat) -> (nat, int)
    decreases s.len() - i,
{
    if 0 <= i && i < s.len() && is_dec_digit(s[i]) {
        scan_dec(s, i + 1, acc * 10 + digit_val(s[i]))
    } else {
        (acc, i)
    }
}

/// Parses a decimal number at `i`: at least one digit, greedy.
pub open spec fn spec_parse_dec(s: Seq<char>, i: int) -> Option<(nat, int)> {
    if 0 <= i && i < s.len() && is_dec_digit(s[i]) {
        Some(scan_dec(s, i, 0))
    } else {
        None
    }
}

/// `part` occurs in `doc` starting at position `i`.
pub open spec fn has_at(doc: Seq<char>, i: int, part: Seq<char>) -> bool {
    0 <= i && i + part.len() <= doc.len() && doc.subrange(i, i + part.len()) == part
}

pub proof fn lemma_has_at_concat(doc: Seq<char>, i: int, a: Seq<char>, b: Seq<char>)
    ensures
        has_at(doc, i, a + b) <==> (has_at(doc, i, a) && has_at(doc, i + a.len(), b)),
{
    if has_at(doc, i, a + b) {
        assert(doc.subrange(i, i + a.len()) =~= a);
        assert forall|k: int| 0 <= k < b.len() implies doc.subrange(
            i + a.len(),
            i + a.len() + b.len(),
        )[k] == b[k] by {
            assert(doc.subrange(i, i + (a + b).len())[a.len() + k] == (a + b)[a.len() + k]);
        }
        assert(doc.subrange(i + a.len(), i + a.len() + b.len()) =~= b);
    }
    if has_at(doc, i, a) && has_at(doc, i + a.len(), b) {
        assert(doc.subrange(i, i + (a + b).len()) =~= a + b);
    }
}

pub proof fn lemma_has_at_index(doc: Seq<char>, i: int, part: Seq<char>, k: int)
    requires
        has_at(doc, i, part),
        0 <= k < part.len(),
    ensures
        doc[i + k] == part[k],
{
    assert(doc.subrange(i, i + part.len())[k] == doc[i + k]);
}

pub open spec fn pow10(k: nat) -> nat
    decreases k,
{
    if k == 0 {
        1
    } else {
        10 * pow10((k - 1) as nat)
    }
}

/// Scanning across the decimal representation of `n` consumes it entirely and
/// folds `n` onto the accumulator.
pub proof fn lemma_scan_dec_rep(s: Seq<char>, i: int, n: nat, acc: nat)
    requires
        has_at(s, i, dec_rep(n)),
    ensures
        scan_dec(s, i, acc) == scan_dec(
            s,
            i + dec_rep(n).len(),
            acc * pow10(dec_rep(n).len()) + n,
        ),
    decreases n,
{
    if n < 10 {
        lemma_has_at_index(s, i, dec_rep(n), 0);
        lemma_dec_digit_char_props(n);
        assert(scan_dec(s, i, acc) == scan_dec(s, i + 1, acc * 10 + n));
        assert(pow10(0) == 1);
        assert(pow10(1) == 10);
    } else {
        let a = dec_rep(n / 10);
        let b = seq![dec_digit_char(n % 10)];
        lemma_has_at_concat(s, i, a, b);
        lemma_scan_dec_rep(s, i, n / 10, acc);
        let acc1 = acc * pow10(a.len()) + n / 10;
        lemma_has_at_index(s, i + a.len(), b, 0);
        lemma_dec_digit_char_props(n % 10);
        assert(scan_dec(s, i + a.len(), acc1) == scan_dec(s, i + a.len() + 1, acc1 * 10 + n % 10));
        lemma_fundamental_div_mod(n as int, 10);
        assert(pow10(a.len() + 1) == 10 * pow10(a.len()));
        assert(acc1 * 10 + n % 10 == acc * pow10(a.len() + 1) + n) by (nonlinear_arith)
            requires
                acc1 == acc * pow10(a.len()) + n / 10,
                n == 10 * (n / 10) + n % 10,
                pow10(a.len() + 1) == 10 * pow10(a.len()),
        ;
        assert(dec_rep(n).len() == a.len() + 1);
    }
}

/// The scanned value never falls below the accumulator it started with.
pub proof fn lemma_scan_dec_lower(s: Seq<char>, i: int, acc: nat)
    ensures
        scan_dec(s, i, acc).0 >= acc,
    decreases s.len() - i,
{
    if 0 <= i && i < s.len() && is_dec_digit(s[i]) {
        assert(acc * 10 + digit_val(s[i]) >= acc) by (nonlinear_arith);
        lemma_scan_dec_lower(s, i + 1, acc * 10 + digit_val(s[i]));
    }
}

/// Parsing recovers exactly the number whose representation sits at `i`,
/// provided no further digit follows it.
pub proof fn lemma_parse_dec_rep(s: Seq<char>, i: int, n: nat)
    requires
        has_at(s, i, dec_rep(n)),
        i + dec_rep(n).len() == s.len() || !is_dec_digit(s[i + dec_rep(n).len()]),
    ensures
        spec_parse_dec(s, i) == Some((n, i + dec_rep(n).len())),
{
    lemma_dec_rep_props(n);
    lemma_has_at_index(s, i, dec_rep(n), 0);
    lemma_scan_dec_rep(s, i, n, 0);
    assert(0 * pow10(dec_rep(n).len()) == 0) by (nonlinear_arith);
    assert(scan_dec(s, i + dec_rep(n).len(), n) == (n, i + dec_rep(n).len()));
}

/// A signed decimal number at `i`: an optional minus sign, then digits, the
/// value held to the `i32` range.
pub open spec fn spec_parse_i32(s: Seq<char>, i: int) -> Option<(int, int)> {
    if 0 <= i && i < s.len() && s[i] == '-' {
        match spec_parse_dec(s, i + 1) {
            Some((v, j)) => if -(v as int) >= i32::MIN { Some((-(v as int), j)) } else { None },
            None => None,
        }
    } else {
        match spec_parse_dec(s, i) {
            Some((v, j)) => if v <= i32::MAX { Some((v as int, j)) } else { None },
            None => None,
        }
    }
}

/// A whole string as one signed decimal number.
pub open spec fn spec_parse_i32_all(s: Seq<char>) -> Option<int> {
    match spec_parse_i32(s, 0) {
        Some((v, j)) => if j == s.len() { Some(v) } else { None },
        None => None,
    }
}

pub proof fn lemma_parse_i32_rep(s: Seq<char>, i: int, v: int)
    requires
        i32::MIN <= v <= i32::MAX,
        has_at(s, i, i32_rep(v)),
        i + i32_rep(v).len() == s.len() || !is_dec_digit(s[i + i32_rep(v).len()]),
    ensures
        spec_parse_i32(s, i) == Some((v, i + i32_rep(v).len())),
{
    if v < 0 {
        let rep = dec_rep((-v) as nat);
        lemma_has_at_concat(s, i, seq!['-'], rep);
        lemma_has_at_index(s, i, seq!['-'], 0);
        lemma_parse_dec_rep(s, i + 1, (-v) as nat);
    } else {
        lemma_dec_rep_props(v as nat);
        lemma_has_at_index(s, i, dec_rep(v as nat), 0);
        lemma_parse_dec_rep(s, i, v as nat);
    }
}

fn digit_str(d: u128) -> (r: &'static str)
    requires
        d < 10,
    ensures
        r@ == seq![dec_digit_char(d as nat)],
{
    proof {
        reveal_strlit("0");
        reveal_strlit("1");
        reveal_strlit("2");
        reveal_strlit("3");
        reveal_strlit("4");
        reveal_strlit("5");
        reveal_strlit("6");
        reveal_strlit("7");
        reveal_strlit("8");
        reveal_strlit("9");
    }
    let r = if d == 0 {
        "0"
    } else if d == 1 {
        "1"
    } else if d == 2 {
        "2"
    } else if d == 3 {
        "3"
    } else if d == 4 {
        "4"
    } else if d == 5 {
        "5"
    } else if d == 6 {
        "6"
    } else if d == 7 {
        "7"
    } else if d == 8 {
        "8"
    } else {
        "9"
    };
    proof {
        assert(r@ =~= seq![dec_digit_char(d as nat)]);
    }
    r
}

/// Formats `n` in decimal.
pub fn fmt_u128(n: u128) -> (r: String)
    ensures
        r@ == dec_rep(n as nat),
    decreases n,
{
    if n < 10 {
        String::from_str(digit_str(n))
    } else {
        let mut s = fmt_u128(n / 10);
        s.append(digit_str(n % 10));
        s
    }
}

/// Formats a signed value in decimal, with a leading minus for negatives.
pub fn fmt_i32(v: i32) -> (r: String)
    ensures
        r@ == i32_rep(v as int),
{
    if v >= 0 {
        fmt_u128(v as u128)
    } else {
        proof {
            reveal_strlit("-");
        }
        let mut s = String::from_str("-");
        let m = -(v as i64);
        s.append(fmt_u128(m as u128).as_str());
        proof {
            assert("-"@ =~= seq!['-']);
        }
        s
    }
}

/// Parses a decimal number at character position `i`, greedily; `None` when no
/// digit starts there or the value exceeds `u128`.
pub fn parse_dec(s: &str, i: usize) -> (r: Option<(u128, usize)>)
    ensures
        match spec_parse_dec(s@, i as int) {
            Some(vj) => if vj.0 <= u128::MAX {
                r is Some && r->Some_0.0 == vj.0 as u128 && r->Some_0.1 as int == vj.1
            } else {
                r is None
            },
            None => r is None,
        },
{
    let len = s.unicode_len();
    if i >= len {
        return None;
    }
    let c0 = s.get_char(i);
    if !(48 <= c0 as u32 && c0 as u32 <= 57) {
        return None;
    }
    let mut acc: u128 = 0;
    let mut j = i;
    loop
        invariant
            i <= j <= len,
            len == s@.len(),
            scan_dec(s@, i as int, 0) == scan_dec(s@, j as int, acc as nat),
        ensures
            i <= j <= len,
            scan_dec(s@, i as int, 0) == (acc as nat, j as int),
        decreases len - j,
    {
        if j >= len {
            break;
        }
        let c = s.get_char(j);
        if !(48 <= c as u32 && c as u32 <= 57) {
            break;
        }
        let d = (c as u32 - 48) as u128;
        let next = match acc.checked_mul(10) {
            Some(t) => t.checked_add(d),
            None => None,
        };
        match next {
            Some(nv) => {
                acc = nv;
                j = j + 1;
            },
            None => {
                proof {
                    let dv = digit_val(s@[j as int]);
                    assert(acc as nat * 10 + dv > u128::MAX);
                    lemma_scan_dec_lower(s@, j as int + 1, acc as nat * 10 + dv);
                    assert(scan_dec(s@, j as int, acc as nat).0 > u128::MAX);
                }
                return None;
            },
        }
    }
    Some((acc, j))
}

/// Parses a signed decimal number at `i`: an optional minus sign then digits,
/// within the `i32` range.
pub fn parse_i32(s: &str, i: usize) -> (r: Option<(i32, usize)>)
    ensures
        match spec_parse_i32(s@, i as int) {
            Some(vj) => r is Some && r->Some_0.0 as int == vj.0 && r->Some_0.1 as int == vj.1,
            None => r is None,
        },
{
    let len = s.unicode_len();
    if i < len && s.get_char(i) == '-' {
        match parse_dec(s, i + 1) {
            Some((v, j)) => {
                if v <= 2147483648u128 {
                    Some((-(v as i64) as i32, j))
                } else {
                    None
                }
            },
            None => None,
        }
    } else {
        match parse_dec(s, i) {
            Some((v, j)) => {
                if v <= 2147483647u128 {
                    Some((v as i32, j))
                } else {
                    None
                }
            },
            None => None,
        }
    }
}

/// Parses a whole string as one signed decimal number.
pub fn parse_i32_all(s: &str) -> (r: Option<i32>)
    ensures
        match spec_parse_i32_all(s@) {
            Some(v) => r == Some(v as i32),
            None => r is None,
        },
{
    let len = s.unicode_len();
    match parse_i32(s, 0) {
        Some((v, j)) => {
            if j == len {
                Some(v)
            } else {
                None
            }
        },
        None => None,
    }
}

} // verus!
