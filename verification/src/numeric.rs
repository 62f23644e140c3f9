//! Numbers written as text: the digits that the cpio headers hold, and the
//! rule by which text is read back as an unsigned number.

use vstd::prelude::*;

verus! {

/// Value of a character as a digit in bases up to 36: `0`-`9`, then `a`-`z`
/// or `A`-`Z` for 10 to 35.
pub open spec fn digit_of(c: char) -> Option<nat> {
    let n = c as int;
    if 0x30 <= n <= 0x39 {
        Some((n - 0x30) as nat)
    } else if 0x61 <= n <= 0x7a {
        Some((n - 0x61 + 10) as nat)
    } else if 0x41 <= n <= 0x5a {
        Some((n - 0x41 + 10) as nat)
    } else {
        None
    }
}

/// Value of a run of digits in base `radix`, most significant first; `None`
/// where a character is not a digit below `radix`. The empty run is 0.
pub open spec fn digits_value(cs: Seq<char>, radix: nat) -> Option<nat>
    decreases cs.len(),
{
    if cs.len() == 0 {
        Some(0)
    } else {
        match digits_value(cs.drop_last(), radix) {
            Some(v) => match digit_of(cs.last()) {
                Some(d) => if d < radix {
                    Some(v * radix + d)
                } else {
                    None
                },
                None => None,
            },
            None => None,
        }
    }
}

/// The digits of an unsigned number in text: the text without a leading `+`.
pub open spec fn unsigned_digits(cs: Seq<char>) -> Seq<char> {
    if cs.len() > 0 && cs[0] == '+' {
        cs.drop_first()
    } else {
        cs
    }
}

/// Value of the text of an unsigned number in base `radix`: an optional `+`
/// followed by one or more digits, and nothing else.
pub open spec fn text_value(cs: Seq<char>, radix: nat) -> Option<nat> {
    let ds = unsigned_digits(cs);
    if ds.len() == 0 {
        None
    } else {
        digits_value(ds, radix)
    }
}

/// `text_value` where the value is at most `max`, else `None`.
pub open spec fn text_value_upto(cs: Seq<char>, radix: nat, max: nat) -> Option<nat> {
    match text_value(cs, radix) {
        Some(v) => if v <= max {
            Some(v)
        } else {
            None
        },
        None => None,
    }
}

/// Bytes taken one for one as characters.
pub open spec fn bytes_as_chars(b: Seq<u8>) -> Seq<char> {
    b.map_values(|x: u8| x as char)
}

/// Upper-case hexadecimal digit of `d < 16`.
pub open spec fn upper_hex_digit(d: nat) -> u8 {
    if d < 10 {
        (0x30 + d) as u8
    } else {
        (0x37 + d) as u8
    }
}

/// The last `n` hexadecimal digits of `v` in upper case, most significant first.
pub open spec fn upper_hex_digits(v: nat, n: nat) -> Seq<u8>
    decreases n,
{
    if n == 0 {
        Seq::empty()
    } else {
        upper_hex_digits(v / 16, (n - 1) as nat).push(upper_hex_digit(v % 16))
    }
}

/// Octal digits of `v`, most significant first, without leading zeros
/// (`0` is the single digit `0`).
pub open spec fn octal_digits(v: nat) -> Seq<u8>
    decreases v,
{
    if v < 8 {
        seq![(0x30 + v) as u8]
    } else {
        octal_digits(v / 8).push((0x30 + v % 8) as u8)
    }
}

/// A digit of a prefix that fails makes every longer run fail, and a longer
/// run has a value at least that of its prefix.
pub proof fn lemma_digits_prefix(s: Seq<char>, j: int, k: int, radix: nat)
    requires
        0 <= j <= k <= s.len(),
        radix >= 1,
    ensures
        digits_value(s.subrange(0, j), radix) is None ==> digits_value(s.subrange(0, k), radix) is None,
        digits_value(s.subrange(0, j), radix) matches Some(v) ==> (digits_value(s.subrange(0, k), radix) matches Some(w) ==> v <= w),
    decreases k - j,
{
    if j < k {
        lemma_digits_prefix(s, j, k - 1, radix);
        assert(s.subrange(0, k).drop_last() =~= s.subrange(0, k - 1));
        if let Some(v) = digits_value(s.subrange(0, k - 1), radix) {
            assert(v * radix >= v) by (nonlinear_arith)
                requires radix >= 1;
        }
    }
}

/// Value of a byte as a digit, as `digit_of` reads it as a character.
pub fn digit_of_byte(b: u8) -> (r: Option<u32>)
    ensures
        match digit_of(b as char) {
            Some(d) => r == Some(d as u32),
            None => r is None,
        },
{
    if 0x30 <= b && b <= 0x39 {
        Some((b - 0x30) as u32)
    } else if 0x61 <= b && b <= 0x7a {
        Some((b - 0x61 + 10) as u32)
    } else if 0x41 <= b && b <= 0x5a {
        Some((b - 0x41 + 10) as u32)
    } else {
        None
    }
}

/// Reads the text of an unsigned number in base `radix` that fits in a `u32`.
pub fn parse_u32_text(b: &[u8], radix: u32) -> (r: Option<u32>)
    requires
        2 <= radix <= 36,
    ensures
        match text_value_upto(bytes_as_chars(b@), radix as nat, u32::MAX as nat) {
            Some(v) => r == Some(v as u32),
            None => r is None,
        },
{
    let ghost cs = bytes_as_chars(b@);
    let n = b.len();
    if n == 0 {
        return None;
    }
    let start: usize = if b[0] == 0x2b { 1 } else { 0 };
    assert(cs[0] == '+' <==> b@[0] == 0x2b);
    if start == n {
        return None;
    }
    let ghost ds = unsigned_digits(cs);
    assert(ds =~= cs.subrange(start as int, n as int));
    let mut acc: u64 = 0;
    let mut i: usize = start;
    assert(ds.subrange(0, 0) =~= Seq::<char>::empty());
    while i < n
        invariant
            start <= i <= n,
            n == b@.len(),
            start < n,
            cs == bytes_as_chars(b@),
            ds == cs.subrange(start as int, n as int),
            ds == unsigned_digits(cs),
            ds.len() == n - start,
            digits_value(ds.subrange(0, i - start), radix as nat) == Some(acc as nat),
            acc <= u32::MAX,
            2 <= radix <= 36,
        decreases n - i,
    {
        assert(ds.subrange(0, i - start + 1).drop_last() =~= ds.subrange(0, i - start));
        assert(ds.subrange(0, i - start + 1).last() == cs[i as int]);
        assert(cs[i as int] == b@[i as int] as char);
        let d = digit_of_byte(b[i]);
        match d {
            None => {
                proof {
                    assert(digits_value(ds.subrange(0, i - start + 1), radix as nat) is None);
                    lemma_digits_prefix(ds, i - start + 1, ds.len() as int, radix as nat);
                    assert(ds.subrange(0, ds.len() as int) =~= ds);
                }
                return None;
            },
            Some(d) => {
                if d >= radix {
                    proof {
                        assert(digits_value(ds.subrange(0, i - start + 1), radix as nat) is None);
                        lemma_digits_prefix(ds, i - start + 1, ds.len() as int, radix as nat);
                        assert(ds.subrange(0, ds.len() as int) =~= ds);
                    }
                    return None;
                }
                assert(acc * radix <= u32::MAX * 36) by (nonlinear_arith)
                    requires acc <= u32::MAX, radix <= 36;
                let next = acc * (radix as u64) + (d as u64);
                if next > u32::MAX as u64 {
                    proof {
                        lemma_digits_prefix(ds, i - start + 1, ds.len() as int, radix as nat);
                        assert(ds.subrange(0, ds.len() as int) =~= ds);
                    }
                    return None;
                }
                acc = next;
                i = i + 1;
            },
        }
    }
    assert(ds.subrange(0, n - start) =~= ds);
    Some(acc as u32)
}


/// `base` to the power `exp`.
pub open spec fn power(base: nat, exp: nat) -> nat
    decreases exp,
{
    if exp == 0 {
        1
    } else {
        base * power(base, (exp - 1) as nat)
    }
}

/// Powers of a positive base are positive.
pub proof fn lemma_power_positive(base: nat, exp: nat)
    requires
        base > 0,
    ensures
        power(base, exp) > 0,
    decreases exp,
{
    if exp > 0 {
        lemma_power_positive(base, (exp - 1) as nat);
        assert(base * power(base, (exp - 1) as nat) > 0) by (nonlinear_arith)
            requires base > 0, power(base, (exp - 1) as nat) > 0;
    }
}

/// Every character is a digit below `radix`.
pub open spec fn all_digits(cs: Seq<char>, radix: nat) -> bool {
    forall|i: int| 0 <= i < cs.len() ==> ((#[trigger] digit_of(cs[i])) matches Some(d) && d < radix)
}

/// Text made only of digits is read as those digits.
pub proof fn lemma_digits_text(cs: Seq<char>, radix: nat)
    requires
        cs.len() > 0,
        all_digits(cs, radix),
    ensures
        text_value(cs, radix) == digits_value(cs, radix),
{
    assert(digit_of(cs[0]) is Some);
    assert(cs[0] != '+');
}

/// The hexadecimal digits of `v` read back as `v` modulo `16^n`.
pub proof fn lemma_hex_digits_value(v: nat, n: nat)
    ensures
        upper_hex_digits(v, n).len() == n,
        all_digits(bytes_as_chars(upper_hex_digits(v, n)), 16),
        digits_value(bytes_as_chars(upper_hex_digits(v, n)), 16) == Some(v % power(16, n)),
    decreases n,
{
    let cs = bytes_as_chars(upper_hex_digits(v, n));
    if n == 0 {
        assert(cs.len() == 0);
    } else {
        let m = (n - 1) as nat;
        lemma_hex_digits_value(v / 16, m);
        let prefix = upper_hex_digits(v / 16, m);
        let c = upper_hex_digit(v % 16);
        assert(cs =~= bytes_as_chars(prefix).push(c as char));
        assert(cs.drop_last() =~= bytes_as_chars(prefix));
        assert(digit_of(c as char) == Some(v % 16));
        assert forall|i: int| 0 <= i < cs.len() implies ((#[trigger] digit_of(cs[i])) matches Some(d) && d < 16) by {
            if i < cs.len() - 1 {
                assert(cs[i] == bytes_as_chars(prefix)[i]);
            }
        }
        lemma_power_positive(16, m);
        vstd::arithmetic::div_mod::lemma_mod_breakdown(v as int, 16, power(16, m) as int);
        assert(power(16, n) == 16 * power(16, m));
        assert((v / 16) % power(16, m) * 16 == 16 * ((v / 16) % power(16, m))) by (nonlinear_arith);
    }
}

/// The eight hexadecimal digits of a `u32` read back as the same number.
pub proof fn lemma_hex_u32_round_trip(v: u32)
    ensures
        upper_hex_digits(v as nat, 8).len() == 8,
        text_value_upto(bytes_as_chars(upper_hex_digits(v as nat, 8)), 16, u32::MAX as nat) == Some(v as nat),
{
    lemma_hex_digits_value(v as nat, 8);
    reveal_with_fuel(power, 9);
    assert(power(16, 8) == 0x1_0000_0000);
    lemma_digits_text(bytes_as_chars(upper_hex_digits(v as nat, 8)), 16);
}

/// The octal digits of `v` read back as `v`.
pub proof fn lemma_octal_digits_value(v: nat)
    ensures
        octal_digits(v).len() > 0,
        all_digits(bytes_as_chars(octal_digits(v)), 8),
        digits_value(bytes_as_chars(octal_digits(v)), 8) == Some(v),
        text_value(bytes_as_chars(octal_digits(v)), 8) == Some(v),
    decreases v,
{
    let cs = bytes_as_chars(octal_digits(v));
    if v < 8 {
        assert(cs.drop_last() =~= Seq::<char>::empty());
        assert(cs[0] == ((0x30 + v) as u8) as char);
        assert(digit_of(cs[0]) == Some(v));
        assert(cs.last() == cs[0]);
        assert(digits_value(cs.drop_last(), 8) == Some(0nat));
        assert(digits_value(cs, 8) == Some(v));
    } else {
        lemma_octal_digits_value(v / 8);
        let prefix = octal_digits(v / 8);
        let c = (0x30 + v % 8) as u8;
        assert(cs =~= bytes_as_chars(prefix).push(c as char));
        assert(cs.drop_last() =~= bytes_as_chars(prefix));
        assert(digit_of(c as char) == Some(v % 8));
        assert(cs.last() == c as char);
        vstd::arithmetic::div_mod::lemma_fundamental_div_mod(v as int, 8);
        assert(digits_value(cs, 8) == Some(v));
        assert forall|i: int| 0 <= i < cs.len() implies ((#[trigger] digit_of(cs[i])) matches Some(d) && d < 8) by {
            if i < cs.len() - 1 {
                assert(cs[i] == bytes_as_chars(prefix)[i]);
            }
        }
    }
    lemma_digits_text(cs, 8);
}

/// Appends the last `n` hexadecimal digits of `v` in upper case.
pub fn push_upper_hex(v: u32, n: usize, out: &mut Vec<u8>)
    ensures
        final(out)@ == old(out)@ + upper_hex_digits(v as nat, n as nat),
    decreases n,
{
    if n > 0 {
        push_upper_hex(v / 16, n - 1, out);
        let d = (v % 16) as u8;
        let c = if d < 10 { 0x30 + d } else { 0x37 + d };
        out.push(c);
        assert(out@ =~= old(out)@ + upper_hex_digits(v as nat, n as nat));
    } else {
        assert(out@ =~= old(out)@ + upper_hex_digits(v as nat, n as nat));
    }
}

/// Appends the octal digits of `v`.
pub fn push_octal(v: u64, out: &mut Vec<u8>)
    ensures
        final(out)@ == old(out)@ + octal_digits(v as nat),
    decreases v,
{
    if v < 8 {
        out.push(0x30 + v as u8);
    } else {
        push_octal(v / 8, out);
        out.push(0x30 + (v % 8) as u8);
    }
    assert(out@ =~= old(out)@ + octal_digits(v as nat));
}

} // verus!
