//! Decimal numerals as character sequences: the specification of the
//! representation, an executable printer and parser, and the lemmas that
//! connect them. The store's file format and its diagnostic messages are
//! built on these.
use vstd::prelude::*;

verus! {

/// The characters `'0'` through `'9'`.
pub open spec fn is_digit(c: char) -> bool {
    48 <= c as int && c as int <= 57
}

/// Numeric value of a digit character.
pub open spec fn digit_val(c: char) -> nat
    recommends
        is_digit(c),
{
    (c as int - 48) as nat
}

/// The digit character for a value below ten.
pub open spec fn digit_char(d: nat) -> char
    recommends
        d < 10,
{
    if d == 0 {
        '0'
    } else if d == 1 {
        '1'
    } else if d == 2 {
        '2'
    } else if d == 3 {
        '3'
    } else if d == 4 {
        '4'
    } else if d == 5 {
        '5'
    } else if d == 6 {
        '6'
    } else if d == 7 {
        '7'
    } else if d == 8 {
        '8'
    } else {
        '9'
    }
}

pub proof fn lemma_digit_char(d: nat)
    requires
        d < 10,
    ensures
        is_digit(digit_char(d)),
        digit_val(digit_char(d)) == d,
{
}

/// The usual decimal numeral of `n`, most significant digit first, with no
/// leading zero except for `n == 0` itself.
pub open spec fn dec_rep(n: nat) -> Seq<char>
    decreases n,
{
    if n < 10 {
        seq![digit_char(n)]
    } else {
        dec_rep(n / 10).push(digit_char(n % 10))
    }
}

/// The numeral of `n`, left-padded with zeroes to at least `w` characters.
pub open spec fn pad_rep(n: nat, w: nat) -> Seq<char> {
    if dec_rep(n).len() >= w {
        dec_rep(n)
    } else {
        Seq::new((w - dec_rep(n).len()) as nat, |i: int| '0') + dec_rep(n)
    }
}

pub open spec fn pow10(k: nat) -> nat
    decreases k,
{
    if k == 0 {
        1
    } else {
        10 * pow10((k - 1) as nat)
    }
}

pub proof fn lemma_dec_first_digit(n: nat)
    ensures
        dec_rep(n).len() >= 1,
        is_digit(dec_rep(n)[0]),
    decreases n,
{
    if n < 10 {
        lemma_digit_char(n);
    } else {
        lemma_dec_first_digit(n / 10);
    }
}

// ---------------------------------------------------------------------------
// Executable printing
// ---------------------------------------------------------------------------
/// The one-character string for a digit value.
fn digit_str(d: u64) -> (r: &'static str)
    requires
        d < 10,
    ensures
        r@ == seq![digit_char(d as nat)],
{
    proof {
        reveal_strlit("0");
        reveal_strlit("1");
        reveal_strlit("2");
        reveal_strlit("3");
        reveal_strlit("4");
        reveal_strlit("5");
        reveal_strlit("6");
        reveal_strlit("7");
        reveal_strlit("8");
        reveal_strlit("9");
    }
    let r = if d == 0 {
        "0"
    } else if d == 1 {
        "1"
    } else if d == 2 {
        "2"
    } else if d == 3 {
        "3"
    } else if d == 4 {
        "4"
    } else if d == 5 {
        "5"
    } else if d == 6 {
        "6"
    } else if d == 7 {
        "7"
    } else if d == 8 {
        "8"
    } else {
        "9"
    };
    proof {
        assert(r@ =~= seq![digit_char(d as nat)]);
    }
    r
}

/// Appends the decimal numeral of `n` to `out`.
pub fn push_dec(out: &mut String, n: u64)
    ensures
        final(out)@ == old(out)@ + dec_rep(n as nat),
    decreases n,
{
    if n < 10 {
        out.append(digit_str(n));
        proof {
            assert(final(out)@ =~= old(out)@ + dec_rep(n as nat));
        }
    } else {
        push_dec(out, n / 10);
        out.append(digit_str(n % 10));
        proof {
            assert(final(out)@ =~= old(out)@ + dec_rep(n as nat));
        }
    }
}

/// Appends the numeral of `n` padded to four characters, as the year of a
/// day key is written.
pub fn push_pad4(out: &mut String, n: u64)
    ensures
        final(out)@ == old(out)@ + pad_rep(n as nat, 4),
{
    proof {
        reveal_strlit("000");
        reveal_strlit("00");
        reveal_strlit("0");
    }
    if n < 10 {
        out.append("000");
    } else if n < 100 {
        out.append("00");
    } else if n < 1000 {
        out.append("0");
    }
    push_dec(out, n);
    proof {
        lemma_dec_len_exact(n as nat);
        assert(final(out)@ =~= old(out)@ + pad_rep(n as nat, 4));
    }
}

/// Appends the numeral of `n` padded to two characters, as the month and
/// day of a day key are written.
pub fn push_pad2(out: &mut String, n: u64)
    ensures
        final(out)@ == old(out)@ + pad_rep(n as nat, 2),
{
    proof {
        reveal_strlit("0");
    }
    if n < 10 {
        out.append("0");
    }
    push_dec(out, n);
    proof {
        lemma_dec_len_exact(n as nat);
        assert(final(out)@ =~= old(out)@ + pad_rep(n as nat, 2));
    }
}

/// The exact digit count of small numerals, as the padded forms need it.
proof fn lemma_dec_len_exact(n: nat)
    ensures
        n < 10 ==> dec_rep(n).len() == 1,
        10 <= n < 100 ==> dec_rep(n).len() == 2,
        100 <= n < 1000 ==> dec_rep(n).len() == 3,
        1000 <= n ==> dec_rep(n).len() >= 4,
{
    if n >= 10 {
        assert(dec_rep(n) == dec_rep(n / 10).push(digit_char(n % 10)));
        if n / 10 >= 10 {
            assert(dec_rep(n / 10) == dec_rep(n / 10 / 10).push(digit_char(n / 10 % 10)));
            if n / 10 / 10 >= 10 {
                assert(dec_rep(n / 10 / 10) == dec_rep(n / 10 / 10 / 10).push(
                    digit_char(n / 10 / 10 % 10),
                ));
                lemma_dec_first_digit(n / 10 / 10 / 10);
            }
        }
    }
}

// ---------------------------------------------------------------------------
// Parsing
// ---------------------------------------------------------------------------
/// Greedy scan of a digit run starting at `i`, folding the digits onto `acc`;
/// yields the value and the index of the first character past the run.
pub open spec fn scan_digits(s: Seq<char>, i: int, acc: nat) -> (nat, int)
    decreases s.len() - i,
    when 0 <= i <= s.len()
{
    if i < s.len() && is_digit(s[i]) {
        scan_digits(s, i + 1, acc * 10 + digit_val(s[i]))
    } else {
        (acc, i)
    }
}

/// A decimal number at `i`: at least one digit, read greedily.
pub open spec fn sp_num(s: Seq<char>, i: int) -> Option<(nat, int)> {
    if 0 <= i < s.len() && is_digit(s[i]) {
        Some(scan_digits(s, i, 0))
    } else {
        None
    }
}

/// Scanning across the numeral of `n` multiplies the accumulator by the
/// corresponding power of ten and adds `n`.
proof fn lemma_scan_over_rep(s: Seq<char>, i: int, n: nat, acc: nat)
    requires
        0 <= i,
        i + dec_rep(n).len() <= s.len(),
        s.subrange(i, i + dec_rep(n).len() as int) == dec_rep(n),
    ensures
        scan_digits(s, i, acc) == scan_digits(
            s,
            i + dec_rep(n).len() as int,
            acc * pow10(dec_rep(n).len()) + n,
        ),
    decreases n,
{
    if n < 10 {
        lemma_digit_char(n);
        assert(s[i] == dec_rep(n)[0]);
        assert(scan_digits(s, i, acc) == scan_digits(s, i + 1, acc * 10 + n));
        assert(pow10(1) == 10) by {
            reveal_with_fuel(pow10, 2);
        }
    } else {
        let hd = dec_rep(n / 10);
        let w = hd.len() as int;
        assert(dec_rep(n) == hd.push(digit_char(n % 10)));
        assert(s.subrange(i, i + w) =~= hd) by {
            assert(forall|k: int|
                0 <= k < w ==> s.subrange(i, i + dec_rep(n).len() as int)[k] == dec_rep(n)[k]);
        }
        lemma_scan_over_rep(s, i, n / 10, acc);
        let mid = acc * pow10(hd.len()) + n / 10;
        assert(s[i + w] == dec_rep(n)[w]);
        lemma_digit_char(n % 10);
        assert(scan_digits(s, i + w, mid) == scan_digits(s, i + w + 1, mid * 10 + n % 10));
        assert(mid * 10 + n % 10 == acc * pow10(dec_rep(n).len()) + n) by {
            assert(pow10(dec_rep(n).len()) == 10 * pow10(hd.len()));
            assert((acc * pow10(hd.len()) + n / 10) * 10 == acc * (10 * pow10(hd.len())) + (n / 10)
                * 10) by (nonlinear_arith);
            assert((n / 10) * 10 + n % 10 == n);
        }
    }
}

/// Zeroes ahead of a numeral leave a zero accumulator unchanged.
proof fn lemma_scan_zeros(s: Seq<char>, i: int, z: nat)
    requires
        0 <= i,
        i + z <= s.len(),
        forall|k: int| i <= k < i + z ==> s[k] == '0',
    ensures
        scan_digits(s, i, 0) == scan_digits(s, i + z, 0),
    decreases z,
{
    if z > 0 {
        assert(s[i] == '0');
        assert(is_digit('0'));
        assert(digit_val('0') == 0);
        assert(scan_digits(s, i, 0) == scan_digits(s, i + 1, 0));
        lemma_scan_zeros(s, i + 1, (z - 1) as nat);
    }
}

/// Parsing at the start of a (possibly zero-padded) numeral of `n`, with no
/// digit directly after it, yields `n` and stops right past it.
pub proof fn lemma_parse_pad(s: Seq<char>, i: int, n: nat, w: nat)
    requires
        0 <= i,
        i + pad_rep(n, w).len() <= s.len(),
        s.subrange(i, i + pad_rep(n, w).len() as int) == pad_rep(n, w),
        i + pad_rep(n, w).len() == s.len() || !is_digit(s[i + pad_rep(n, w).len() as int]),
    ensures
        sp_num(s, i) == Some((n, i + pad_rep(n, w).len() as int)),
{
    let p = pad_rep(n, w);
    let d = dec_rep(n);
    let z = (p.len() - d.len()) as nat;
    lemma_dec_first_digit(n);
    assert(forall|k: int| 0 <= k < p.len() ==> s[i + k] == p[k]) by {
        assert(forall|k: int|
            0 <= k < p.len() ==> s.subrange(i, i + p.len() as int)[k] == p[k]);
    }
    if d.len() >= w {
        assert(p == d);
    } else {
        assert(p == Seq::new(z, |k: int| '0') + d);
        assert(forall|k: int| 0 <= k < z ==> p[k] == '0');
    }
    assert forall|k: int| i <= k < i + z implies s[k] == '0' by {
        assert(s[k] == p[k - i]);
    }
    assert(s[i + z] == p[z as int]);
    assert(p[z as int] == d[0]);
    assert(is_digit(s[i]));
    lemma_scan_zeros(s, i, z);
    assert(s.subrange(i + z, i + z + d.len() as int) =~= d) by {
        assert(forall|k: int| 0 <= k < d.len() ==> p[z + k] == d[k]);
    }
    lemma_scan_over_rep(s, i + z, n, 0);
    assert(0 * pow10(d.len()) == 0) by (nonlinear_arith);
    let e = i + p.len() as int;
    assert(scan_digits(s, e, n) == (n, e));
}

// ---------------------------------------------------------------------------
// Executable parsing
// ---------------------------------------------------------------------------
/// The digit value of a character, if it is one.
fn char_digit(c: char) -> (r: Option<u64>)
    ensures
        r is Some <==> is_digit(c),
        r matches Some(d) ==> d == digit_val(c) && d < 10,
{
    let v = c as u32;
    if 48 <= v && v <= 57 {
        Some((v - 48) as u64)
    } else {
        None
    }
}

/// Reads the decimal number at `i`, if one starts there and its value fits
/// in a `u64`.
pub fn parse_num(s: &str, len: usize, i: usize) -> (r: Option<(u64, usize)>)
    requires
        len == s@.len(),
        i <= len,
    ensures
        sp_num(s@, i as int) is None ==> r is None,
        sp_num(s@, i as int) matches Some(vj) ==> {
            &&& i <= vj.1 <= len
            &&& if vj.0 <= u64::MAX {
                r == Some((vj.0 as u64, vj.1 as usize))
            } else {
                r is None
            }
        },
{
    if i >= len {
        return None;
    }
    let c0 = s.get_char(i);
    if char_digit(c0).is_none() {
        return None;
    }
    let mut j: usize = i;
    let mut acc: u64 = 0;
    let mut big: bool = false;
    let ghost mut gacc: nat = 0;
    loop
        invariant
            len == s@.len(),
            i <= j <= len,
            scan_digits(s@, i as int, 0) == scan_digits(s@, j as int, gacc),
            !big ==> gacc == acc,
            big ==> gacc > u64::MAX,
        ensures
            i <= j <= len,
            scan_digits(s@, i as int, 0) == (gacc, j as int),
            !big ==> gacc == acc,
            big ==> gacc > u64::MAX,
        decreases len - j,
    {
        if j >= len {
            break ;
        }
        let c = s.get_char(j);
        let d = match char_digit(c) {
            Some(d) => d,
            None => { break ; },
        };
        proof {
            assert(scan_digits(s@, j as int, gacc) == scan_digits(
                s@,
                j as int + 1,
                gacc * 10 + digit_val(s@[j as int]),
            ));
            if big {
                assert(gacc * 10 >= gacc) by (nonlinear_arith);
            }
            gacc = gacc * 10 + (d as nat);
        }
        if !big {
            let wide: u128 = acc as u128 * 10 + d as u128;
            if wide > u64::MAX as u128 {
                big = true;
            } else {
                acc = wide as u64;
            }
        }
        j = j + 1;
    }
    proof {
        assert(scan_digits(s@, j as int, gacc) == (gacc, j as int));
    }
    if big {
        None
    } else {
        Some((acc, j))
    }
}

} // verus!
