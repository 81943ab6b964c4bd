//! Decimal rendering and parsing of integers, shared by the timestamp
//! formatter and the slug codecs.

use vstd::prelude::*;

verus! {

/// The decimal digit character for a value below ten.
pub open spec fn digit_char(d: nat) -> char {
    if d == 0 {
        '0'
    } else if d == 1 {
        '1'
    } else if d == 2 {
        '2'
    } else if d == 3 {
        '3'
    } else if d == 4 {
        '4'
    } else if d == 5 {
        '5'
    } else if d == 6 {
        '6'
    } else if d == 7 {
        '7'
    } else if d == 8 {
        '8'
    } else {
        '9'
    }
}

/// Decimal rendering of a natural number, most significant digit first.
pub open spec fn dec_nat(n: nat) -> Seq<char>
    decreases n,
{
    if n < 10 {
        seq![digit_char(n)]
    } else {
        dec_nat(n / 10) + seq![digit_char(n % 10)]
    }
}

/// Decimal rendering of an integer: a leading '-' for negative values.
pub open spec fn dec_int(v: int) -> Seq<char> {
    if v < 0 {
        seq!['-'] + dec_nat((-v) as nat)
    } else {
        dec_nat(v as nat)
    }
}

/// The characters of a rendered natural are decimal digits.
pub open spec fn is_digit(c: char) -> bool {
    '0' <= c && c <= '9'
}

pub open spec fn digit_val(c: char) -> nat {
    ((c as int) - 48) as nat
}

pub open spec fn all_digits(s: Seq<char>) -> bool {
    forall|i: int| 0 <= i < s.len() ==> is_digit(#[trigger] s[i])
}

/// The value of a sequence of decimal digit characters.
pub open spec fn digits_val(s: Seq<char>) -> nat
    decreases s.len(),
{
    if s.len() == 0 {
        0
    } else {
        digits_val(s.drop_last()) * 10 + digit_val(s.last())
    }
}

pub proof fn lemma_digit_char_val(d: nat)
    requires
        d < 10,
    ensures
        is_digit(digit_char(d)),
        digit_val(digit_char(d)) == d,
{
}

pub proof fn lemma_dec_nat_digits(n: nat)
    ensures
        dec_nat(n).len() >= 1,
        all_digits(dec_nat(n)),
        digits_val(dec_nat(n)) == n,
        dec_nat(n)[0] != '0' || n < 10,
    decreases n,
{
    if n < 10 {
        lemma_digit_char_val(n);
        assert(dec_nat(n) =~= seq![digit_char(n)]);
        assert(dec_nat(n).drop_last() =~= Seq::<char>::empty());
        assert(dec_nat(n).last() == digit_char(n));
        assert(digits_val(Seq::<char>::empty()) == 0);
        assert(digits_val(dec_nat(n)) == digits_val(dec_nat(n).drop_last()) * 10 + digit_val(
            dec_nat(n).last(),
        ));
    } else {
        lemma_dec_nat_digits(n / 10);
        lemma_digit_char_val(n % 10);
        let s = dec_nat(n);
        assert(s =~= dec_nat(n / 10) + seq![digit_char(n % 10)]);
        assert(s.drop_last() =~= dec_nat(n / 10));
        assert(s.last() == digit_char(n % 10));
        assert(digits_val(s) == (n / 10) * 10 + n % 10);
        assert(forall|i: int| 0 <= i < s.len() - 1 ==> s[i] == dec_nat(n / 10)[i]);
        assert(n == (n / 10) * 10 + n % 10);
    }
}

/// Digit characters are ASCII.
pub proof fn lemma_digits_ascii(s: Seq<char>)
    requires
        all_digits(s),
    ensures
        vstd::utf8::is_ascii_chars(s),
{
    assert forall|i: int| 0 <= i < s.len() implies '\0' <= #[trigger] s[i] <= '\u{7f}' by {
        assert(is_digit(s[i]));
    }
}

/// The exact digit string for a value below ten.
fn digit_str(d: u64) -> (r: &'static str)
    requires
        d < 10,
    ensures
        r@ =~= seq![digit_char(d as nat)],
        r@.len() == 1,
{
    proof {
        reveal_strlit("0");
        reveal_strlit("1");
        reveal_strlit("2");
        reveal_strlit("3");
        reveal_strlit("4");
        reveal_strlit("5");
        reveal_strlit("6");
        reveal_strlit("7");
        reveal_strlit("8");
        reveal_strlit("9");
    }
    if d == 0 {
        "0"
    } else if d == 1 {
        "1"
    } else if d == 2 {
        "2"
    } else if d == 3 {
        "3"
    } else if d == 4 {
        "4"
    } else if d == 5 {
        "5"
    } else if d == 6 {
        "6"
    } else if d == 7 {
        "7"
    } else if d == 8 {
        "8"
    } else {
        "9"
    }
}

/// Render a natural number in decimal.
pub fn u64_dec_string(n: u64) -> (s: String)
    ensures
        s@ == dec_nat(n as nat),
    decreases n,
{
    if n < 10 {
        let s = digit_str(n).to_owned();
        assert(s@ =~= dec_nat(n as nat));
        s
    } else {
        let mut s = u64_dec_string(n / 10);
        s.append(digit_str(n % 10));
        assert(s@ =~= dec_nat(n as nat));
        s
    }
}

/// Powers of ten.
pub open spec fn pow10(e: nat) -> nat
    decreases e,
{
    if e == 0 {
        1
    } else {
        10 * pow10((e - 1) as nat)
    }
}

/// Byte-level digit predicates, for parsing the UTF-8 bytes of a string.
pub open spec fn b_is_digit(b: u8) -> bool {
    48 <= b && b <= 57
}

pub open spec fn b_digit_val(b: u8) -> nat {
    ((b as int) - 48) as nat
}

pub open spec fn b_all_digits(s: Seq<u8>) -> bool {
    forall|i: int| 0 <= i < s.len() ==> b_is_digit(#[trigger] s[i])
}

/// The value of a sequence of decimal digit bytes.
pub open spec fn b_digits_val(s: Seq<u8>) -> nat
    decreases s.len(),
{
    if s.len() == 0 {
        0
    } else {
        b_digits_val(s.drop_last()) * 10 + b_digit_val(s.last())
    }
}

/// The bytes of an ASCII character sequence, character by character.
pub open spec fn ascii_bytes(s: Seq<char>) -> Seq<u8> {
    Seq::new(s.len(), |i: int| s[i] as u8)
}

/// Splitting a digit string at `k` splits its value by a power of ten.
pub proof fn lemma_b_digits_split(s: Seq<u8>, k: int)
    requires
        0 <= k <= s.len(),
    ensures
        b_digits_val(s) == b_digits_val(s.take(k)) * pow10((s.len() - k) as nat) + b_digits_val(
            s.skip(k),
        ),
    decreases s.len(),
{
    if k == s.len() {
        assert(s.take(k) =~= s);
        assert(s.skip(k) =~= Seq::<u8>::empty());
        assert(b_digits_val(s.skip(k)) == 0);
        assert(pow10(0) == 1);
        assert(b_digits_val(s.take(k)) * 1 == b_digits_val(s.take(k)));
    } else {
        let dl = s.drop_last();
        lemma_b_digits_split(dl, k);
        assert(s.take(k) =~= dl.take(k));
        assert(s.skip(k).drop_last() =~= dl.skip(k));
        assert(s.skip(k).last() == s.last());
        assert(s.skip(k).len() > 0);
        assert(b_digits_val(s.skip(k)) == b_digits_val(dl.skip(k)) * 10 + b_digit_val(s.last()));
        assert(pow10((s.len() - k) as nat) == 10 * pow10((dl.len() - k) as nat));
        assert(b_digits_val(s) == b_digits_val(dl) * 10 + b_digit_val(s.last()));
        assert(b_digits_val(dl) == b_digits_val(dl.take(k)) * pow10((dl.len() - k) as nat)
            + b_digits_val(dl.skip(k)));
        assert(b_digits_val(dl) * 10 == b_digits_val(dl.take(k)) * (10 * pow10(
            (dl.len() - k) as nat,
        )) + b_digits_val(dl.skip(k)) * 10) by (nonlinear_arith)
            requires
                b_digits_val(dl) == b_digits_val(dl.take(k)) * pow10((dl.len() - k) as nat)
                    + b_digits_val(dl.skip(k)),
        ;
        assert(b_digits_val(s) == b_digits_val(dl) * 10 + b_digit_val(s.last()));
        assert(b_digits_val(s) == b_digits_val(s.take(k)) * pow10((s.len() - k) as nat)
            + b_digits_val(dl.skip(k)) * 10 + b_digit_val(s.last()));
    }
}

/// A string of `n` digits has value below `10^n`.
pub proof fn lemma_b_digits_bound(s: Seq<u8>)
    requires
        b_all_digits(s),
    ensures
        b_digits_val(s) < pow10(s.len() as nat),
    decreases s.len(),
{
    if s.len() == 0 {
    } else {
        let dl = s.drop_last();
        assert(forall|i: int| 0 <= i < dl.len() ==> dl[i] == s[i]);
        lemma_b_digits_bound(dl);
        assert(b_is_digit(s.last()));
        assert(b_digits_val(dl) * 10 <= (pow10(dl.len() as nat) - 1) * 10) by (nonlinear_arith)
            requires
                b_digits_val(dl) <= pow10(dl.len() as nat) - 1,
        ;
    }
}

/// Values of digit strings only grow when digits are appended.
pub proof fn lemma_b_digits_prefix_bound(s: Seq<u8>, k: int)
    requires
        0 <= k <= s.len(),
    ensures
        b_digits_val(s) >= b_digits_val(s.take(k)),
    decreases s.len() - k,
{
    if k == s.len() {
        assert(s.take(k) =~= s);
    } else {
        lemma_b_digits_split(s, k);
        assert(pow10((s.len() - k) as nat) >= 1) by {
            lemma_pow10_pos((s.len() - k) as nat);
        }
        assert(b_digits_val(s.take(k)) * pow10((s.len() - k) as nat) >= b_digits_val(s.take(k)) * 1)
            by (nonlinear_arith)
            requires
                pow10((s.len() - k) as nat) >= 1,
        ;
    }
}

pub proof fn lemma_pow10_pos(e: nat)
    ensures
        pow10(e) >= 1,
    decreases e,
{
    if e > 0 {
        lemma_pow10_pos((e - 1) as nat);
    }
}

pub proof fn lemma_pow10_mono(a: nat, b: nat)
    requires
        a <= b,
    ensures
        pow10(a) <= pow10(b),
    decreases b,
{
    if a < b {
        lemma_pow10_mono(a, (b - 1) as nat);
        lemma_pow10_pos((b - 1) as nat);
    }
}

/// The rendered digits of a natural, read back as bytes, give the
/// natural back.
pub proof fn lemma_dec_nat_bytes_val(n: nat)
    ensures
        ascii_bytes(dec_nat(n)).len() == dec_nat(n).len(),
        b_all_digits(ascii_bytes(dec_nat(n))),
        b_digits_val(ascii_bytes(dec_nat(n))) == n,
    decreases n,
{
    lemma_dec_nat_digits(n);
    if n < 10 {
        let bs = ascii_bytes(dec_nat(n));
        assert(bs.len() == 1);
        assert(bs.drop_last() =~= Seq::<u8>::empty());
        assert(bs.last() == digit_char(n) as u8);
        assert(b_digits_val(Seq::<u8>::empty()) == 0);
        assert(b_digits_val(bs) == b_digits_val(bs.drop_last()) * 10 + b_digit_val(bs.last()));
        assert(b_digit_val(digit_char(n) as u8) == n);
    } else {
        lemma_dec_nat_bytes_val(n / 10);
        let bs = ascii_bytes(dec_nat(n));
        assert(bs.drop_last() =~= ascii_bytes(dec_nat(n / 10)));
        assert(dec_nat(n).last() == digit_char(n % 10));
        assert(bs.last() == digit_char(n % 10) as u8);
        lemma_digit_char_val(n % 10);
        assert(b_digit_val(digit_char(n % 10) as u8) == n % 10);
        assert(b_digits_val(bs) == (n / 10) * 10 + n % 10);
    }
}

/// A parsed signed 64-bit decimal: an optional sign, then digits, with
/// the usual two's-complement range. `None` on any malformed or
/// overflowing token, as the standard integer parser rejects them.
pub open spec fn spec_parse_i64(t: Seq<u8>) -> Option<i64> {
    if t.len() == 0 {
        None
    } else {
        let neg = t[0] == 45;
        let ds = if t[0] == 45 || t[0] == 43 {
            t.drop_first()
        } else {
            t
        };
        if ds.len() == 0 || !b_all_digits(ds) {
            None
        } else {
            let v = b_digits_val(ds);
            if neg {
                if v <= 0x8000_0000_0000_0000 {
                    Some((-(v as int)) as i64)
                } else {
                    None
                }
            } else {
                if v <= 0x7fff_ffff_ffff_ffff {
                    Some(v as i64)
                } else {
                    None
                }
            }
        }
    }
}

/// Parse the bytes `b[lo..hi]` as a signed 64-bit decimal.
pub fn parse_i64_bytes(b: &[u8], lo: usize, hi: usize) -> (r: Option<i64>)
    requires
        lo <= hi <= b@.len(),
    ensures
        r == spec_parse_i64(b@.subrange(lo as int, hi as int)),
{
    let ghost t = b@.subrange(lo as int, hi as int);
    if lo == hi {
        return None;
    }
    let first: u8 = b[lo];
    let neg: bool = first == 45;
    let start: usize = if first == 45 || first == 43 {
        lo + 1
    } else {
        lo
    };
    let ghost ds = if first == 45 || first == 43 {
        t.drop_first()
    } else {
        t
    };
    proof {
        assert(ds =~= b@.subrange(start as int, hi as int));
    }
    if start == hi {
        return None;
    }
    let mut acc: u64 = 0;
    let mut i: usize = start;
    while i < hi
        invariant
            lo <= start <= i <= hi <= b@.len(),
            t == b@.subrange(lo as int, hi as int),
            t.len() > 0,
            t[0] == first,
            neg == (first == 45),
            ds == (if first == 45 || first == 43 {
                t.drop_first()
            } else {
                t
            }),
            ds == b@.subrange(start as int, hi as int),
            b_all_digits(ds.take(i - start)),
            acc as nat == b_digits_val(ds.take(i - start)),
            acc <= 0x8000_0000_0000_0000,
        decreases hi - i,
    {
        let c: u8 = b[i];
        if !(48 <= c && c <= 57) {
            proof {
                assert(ds[i - start] == c);
                assert(!b_all_digits(ds));
                assert(t.len() > 0);
                assert(t[0] == first);
                assert(spec_parse_i64(t) is None);
            }
            return None;
        }
        let d: u64 = (c - 48) as u64;
        if acc > 922_337_203_685_477_580 || (acc == 922_337_203_685_477_580 && d > 8) {
            // The value can only grow with more digits, so it cannot fit.
            proof {
                let k = i + 1 - start;
                assert(ds.take(k).drop_last() =~= ds.take(i - start));
                assert(ds.take(k).last() == c);
                assert(b_digits_val(ds.take(k)) == acc * 10 + d);
                assert(b_digits_val(ds.take(k)) > 0x8000_0000_0000_0000);
                lemma_b_digits_prefix_bound(ds, k);
                assert(b_digits_val(ds) > 0x8000_0000_0000_0000);
                assert(t.len() > 0);
                assert(t[0] == first);
                assert(spec_parse_i64(t) is None);
            }
            return None;
        }
        proof {
            let k = i + 1 - start;
            assert(ds.take(k).drop_last() =~= ds.take(i - start));
            assert(ds.take(k).last() == c);
            assert(b_digits_val(ds.take(k)) == acc * 10 + d);
        }
        acc = acc * 10 + d;
        i = i + 1;
    }
    proof {
        assert(ds.take(hi - start) =~= ds);
    }
    if neg {
        if acc == 0x8000_0000_0000_0000 {
            Some(i64::MIN)
        } else {
            Some(-(acc as i64))
        }
    } else {
        if acc > 0x7fff_ffff_ffff_ffff {
            None
        } else {
            Some(acc as i64)
        }
    }
}

/// Render a signed integer in decimal, with a leading '-' when negative.
pub fn i64_dec_string(v: i64) -> (s: String)
    ensures
        s@ == dec_int(v as int),
{
    if v >= 0 {
        u64_dec_string(v as u64)
    } else {
        let mag: u64 = if v == i64::MIN {
            9223372036854775808u64
        } else {
            (-v) as u64
        };
        assert(mag as nat == -(v as int));
        let mut s = "-".to_owned();
        proof {
            reveal_strlit("-");
        }
        let rest = u64_dec_string(mag);
        s.append(rest.as_str());
        assert(s@ =~= dec_int(v as int));
        s
    }
}

} // verus!
