//! Byte-level codecs shared by the descriptor export format, the handoff
//! files and the wire message: little-endian 64-bit words and unsigned
//! decimal ASCII numbers.

use vstd::prelude::*;

verus! {

/// The eight little-endian bytes of a 64-bit word.
pub open spec fn spec_u64_le(x: u64) -> Seq<u8> {
    seq![
        (x & 0xff) as u8,
        ((x >> 8) & 0xff) as u8,
        ((x >> 16) & 0xff) as u8,
        ((x >> 24) & 0xff) as u8,
        ((x >> 32) & 0xff) as u8,
        ((x >> 40) & 0xff) as u8,
        ((x >> 48) & 0xff) as u8,
        ((x >> 56) & 0xff) as u8,
    ]
}

/// The 64-bit word read from eight little-endian bytes.
pub open spec fn spec_u64_from_le(b: Seq<u8>) -> u64
    recommends
        b.len() == 8,
{
    ((b[0] as u64) | ((b[1] as u64) << 8) | ((b[2] as u64) << 16) | ((b[3] as u64) << 24) | ((
    b[4] as u64) << 32) | ((b[5] as u64) << 40) | ((b[6] as u64) << 48) | ((b[7] as u64) << 56))
}

/// Writing a word and reading it back yields the word.
pub proof fn lemma_u64_le_roundtrip(x: u64)
    ensures
        spec_u64_from_le(spec_u64_le(x)) == x,
{
    assert((((x & 0xff) as u8) as u64) == (x & 0xff)) by (bit_vector);
    assert(((((x >> 8) & 0xff) as u8) as u64) == ((x >> 8) & 0xff)) by (bit_vector);
    assert(((((x >> 16) & 0xff) as u8) as u64) == ((x >> 16) & 0xff)) by (bit_vector);
    assert(((((x >> 24) & 0xff) as u8) as u64) == ((x >> 24) & 0xff)) by (bit_vector);
    assert(((((x >> 32) & 0xff) as u8) as u64) == ((x >> 32) & 0xff)) by (bit_vector);
    assert(((((x >> 40) & 0xff) as u8) as u64) == ((x >> 40) & 0xff)) by (bit_vector);
    assert(((((x >> 48) & 0xff) as u8) as u64) == ((x >> 48) & 0xff)) by (bit_vector);
    assert(((((x >> 56) & 0xff) as u8) as u64) == ((x >> 56) & 0xff)) by (bit_vector);
    assert((x & 0xff) | (((x >> 8) & 0xff) << 8) | (((x >> 16) & 0xff) << 16) | (((x >> 24) & 0xff)
        << 24) | (((x >> 32) & 0xff) << 32) | (((x >> 40) & 0xff) << 40) | (((x >> 48) & 0xff)
        << 48) | (((x >> 56) & 0xff) << 56) == x) by (bit_vector);
}

/// Appends the eight little-endian bytes of `x` to `out`.
pub fn push_u64_le(out: &mut Vec<u8>, x: u64)
    ensures
        final(out)@ == old(out)@ + spec_u64_le(x),
{
    out.push((x & 0xff) as u8);
    out.push(((x >> 8) & 0xff) as u8);
    out.push(((x >> 16) & 0xff) as u8);
    out.push(((x >> 24) & 0xff) as u8);
    out.push(((x >> 32) & 0xff) as u8);
    out.push(((x >> 40) & 0xff) as u8);
    out.push(((x >> 48) & 0xff) as u8);
    out.push(((x >> 56) & 0xff) as u8);
    proof {
        assert(out@ =~= old(out)@ + spec_u64_le(x));
    }
}

/// Reads the eight little-endian bytes at `pos`.
pub fn read_u64_le(b: &Vec<u8>, pos: usize) -> (r: u64)
    requires
        pos + 8 <= b.len(),
    ensures
        r == spec_u64_from_le(b@.subrange(pos as int, pos + 8)),
{
    let r = (b[pos] as u64) | ((b[pos + 1] as u64) << 8u64) | ((b[pos + 2] as u64) << 16u64) | ((
    b[pos + 3] as u64) << 24u64) | ((b[pos + 4] as u64) << 32u64) | ((b[pos + 5] as u64) << 40u64)
        | ((b[pos + 6] as u64) << 48u64) | ((b[pos + 7] as u64) << 56u64);
    proof {
        let s = b@.subrange(pos as int, pos + 8);
        assert(s[0] == b@[pos as int] && s[1] == b@[pos + 1] && s[2] == b@[pos + 2] && s[3] == b@[
            pos + 3
        ] && s[4] == b@[pos + 4] && s[5] == b@[pos + 5] && s[6] == b@[pos + 6] && s[7] == b@[pos
            + 7]);
    }
    r
}

/// `true` for an ASCII decimal digit.
pub open spec fn spec_is_digit(b: u8) -> bool {
    48 <= b <= 57
}

/// The ASCII digit for a value below ten.
pub open spec fn spec_digit(d: u64) -> u8
    recommends
        d < 10,
{
    (48 + d) as u8
}

/// The decimal ASCII rendering of `x`, most significant digit first, no sign
/// and no leading zero.
pub open spec fn spec_dec_u64(x: u64) -> Seq<u8>
    decreases x,
{
    if x < 10 {
        seq![spec_digit(x)]
    } else {
        spec_dec_u64(x / 10).push(spec_digit(x % 10))
    }
}

/// The value of a digit string, most significant digit first.
pub open spec fn spec_digits_val(s: Seq<u8>) -> int
    decreases s.len(),
{
    if s.len() == 0 {
        0
    } else {
        spec_digits_val(s.drop_last()) * 10 + (s.last() - 48)
    }
}

/// `true` when `s` is one or more ASCII decimal digits.
pub open spec fn spec_all_digits(s: Seq<u8>) -> bool {
    s.len() >= 1 && forall|i: int| 0 <= i < s.len() ==> spec_is_digit(#[trigger] s[i])
}

/// The number an ASCII decimal string denotes: an optional leading `+`, then
/// one or more digits, denoting a value that fits 64 bits.
pub open spec fn spec_parse_u64(s: Seq<u8>) -> Option<u64> {
    let digits = if s.len() > 0 && s[0] == 43 {
        s.drop_first()
    } else {
        s
    };
    if spec_all_digits(digits) && spec_digits_val(digits) <= u64::MAX {
        Some(spec_digits_val(digits) as u64)
    } else {
        None
    }
}

/// Every character of a rendering is a digit, and the rendering is non-empty.
pub proof fn lemma_dec_all_digits(x: u64)
    ensures
        spec_all_digits(spec_dec_u64(x)),
    decreases x,
{
    if x < 10 {
    } else {
        lemma_dec_all_digits(x / 10);
        assert forall|i: int| 0 <= i < spec_dec_u64(x).len() implies spec_is_digit(
            #[trigger] spec_dec_u64(x)[i],
        ) by {
            if i < spec_dec_u64(x / 10).len() {
                assert(spec_dec_u64(x)[i] == spec_dec_u64(x / 10)[i]);
            }
        }
    }
}

/// The value of a rendering is the rendered number.
pub proof fn lemma_dec_val(x: u64)
    ensures
        spec_digits_val(spec_dec_u64(x)) == x,
    decreases x,
{
    if x < 10 {
        assert(spec_dec_u64(x) =~= seq![spec_digit(x)]);
        assert(spec_dec_u64(x).drop_last() =~= Seq::<u8>::empty());
        assert(spec_digits_val(Seq::<u8>::empty()) == 0);
        assert(spec_digit(x) == 48 + x);
        assert(spec_digits_val(spec_dec_u64(x)) == spec_digit(x) - 48);
    } else {
        lemma_dec_val(x / 10);
        assert(spec_dec_u64(x).drop_last() =~= spec_dec_u64(x / 10));
        assert(spec_digit(x % 10) == 48 + x % 10);
        assert(spec_digits_val(spec_dec_u64(x)) == (x / 10) * 10 + x % 10);
        assert((x / 10) * 10 + x % 10 == x) by (nonlinear_arith);
    }
}

/// Rendering a number and parsing it back yields the number.
pub proof fn lemma_dec_u64_roundtrip(x: u64)
    ensures
        spec_parse_u64(spec_dec_u64(x)) == Some(x),
{
    lemma_dec_all_digits(x);
    lemma_dec_val(x);
    assert(spec_dec_u64(x)[0] != 43);
}

/// Appends the decimal ASCII rendering of `x` to `out`.
pub fn push_dec_u64(out: &mut Vec<u8>, x: u64)
    ensures
        final(out)@ == old(out)@ + spec_dec_u64(x),
{
    let mut rev: Vec<u8> = Vec::new();
    let mut cur: u64 = x;
    while cur >= 10
        invariant
            spec_dec_u64(x) =~= spec_dec_u64(cur) + rev@.reverse(),
            out@ == old(out)@,
        decreases cur,
    {
        let d: u8 = 48 + ((cur % 10) as u8);
        proof {
            let prev = rev@;
            assert((prev.push(spec_digit(cur % 10))).reverse() =~= seq![spec_digit(cur % 10)]
                + prev.reverse());
            assert(spec_dec_u64(cur) == spec_dec_u64(cur / 10).push(spec_digit(cur % 10)));
            assert(spec_dec_u64(cur / 10).push(spec_digit(cur % 10)) + prev.reverse() =~= spec_dec_u64(
                cur / 10,
            ) + (seq![spec_digit(cur % 10)] + prev.reverse()));
        }
        rev.push(d);
        cur = cur / 10;
    }
    let d: u8 = 48 + ((cur % 10) as u8);
    proof {
        assert(cur % 10 == cur);
        assert(spec_dec_u64(cur) =~= seq![spec_digit(cur)]);
    }
    out.push(d);
    proof {
        assert(out@ =~= old(out)@ + seq![spec_digit(cur)] + rev@.reverse().subrange(0, 0));
    }
    let n = rev.len();
    let mut k: usize = 0;
    while k < n
        invariant
            n == rev@.len(),
            k <= n,
            spec_dec_u64(x) =~= spec_dec_u64(cur) + rev@.reverse(),
            cur < 10,
            spec_dec_u64(cur) =~= seq![spec_digit(cur)],
            out@ == old(out)@ + seq![spec_digit(cur)] + rev@.reverse().subrange(0, k as int),
        decreases n - k,
    {
        let b = rev[n - 1 - k];
        proof {
            assert(rev@.reverse()[k as int] == rev@[n - 1 - k]);
        }
        out.push(b);
        proof {
            assert(out@ =~= old(out)@ + seq![spec_digit(cur)] + rev@.reverse().subrange(
                0,
                k + 1,
            ));
        }
        k = k + 1;
    }
    proof {
        assert(rev@.reverse().subrange(0, n as int) =~= rev@.reverse());
        assert(out@ =~= old(out)@ + spec_dec_u64(x));
    }
}

/// Parses an unsigned decimal number: an optional leading `+`, then one or
/// more digits denoting a value that fits 64 bits.
pub fn parse_dec_u64(s: &Vec<u8>) -> (r: Option<u64>)
    ensures
        r == spec_parse_u64(s@),
{
    let mut start: usize = 0;
    if s.len() > 0 && s[0] == 43 {
        start = 1;
    }
    let ghost digits = if s@.len() > 0 && s@[0] == 43 {
        s@.drop_first()
    } else {
        s@
    };
    proof {
        assert(digits =~= s@.subrange(start as int, s@.len() as int));
    }
    let n = s.len();
    if start == n {
        return None;
    }
    let mut acc: u64 = 0;
    let mut i: usize = start;
    while i < n
        invariant
            start <= i <= n,
            n == s@.len(),
            start < n,
            digits == (if s@.len() > 0 && s@[0] == 43 {
                s@.drop_first()
            } else {
                s@
            }),
            digits =~= s@.subrange(start as int, s@.len() as int),
            forall|j: int| 0 <= j < i - start ==> spec_is_digit(#[trigger] digits[j]),
            acc == spec_digits_val(digits.subrange(0, i - start)),
            spec_digits_val(digits.subrange(0, i - start)) <= u64::MAX,
        decreases n - i,
    {
        let b = s[i];
        if b < 48 || b > 57 {
            proof {
                assert(!spec_is_digit(digits[i - start]));
            }
            return None;
        }
        let d: u64 = (b - 48) as u64;
        if acc > (u64::MAX - d) / 10 {
            proof {
                lemma_digits_val_overflow(digits, i - start, acc, d);
            }
            return None;
        }
        proof {
            assert(acc * 10 + d <= u64::MAX) by (nonlinear_arith)
                requires
                    acc <= (u64::MAX - d) / 10 && d <= 9,
            ;
        }
        acc = acc * 10 + d;
        proof {
            assert(digits.subrange(0, i - start + 1).drop_last() =~= digits.subrange(
                0,
                i - start,
            ));
            assert(digits.subrange(0, i - start + 1).last() == b);
        }
        i = i + 1;
    }
    proof {
        assert(digits.subrange(0, n - start) =~= digits);
        assert(spec_all_digits(digits));
    }
    Some(acc)
}

/// A digit string whose prefix already denotes too large a value denotes a
/// value above `u64::MAX`.
proof fn lemma_digits_val_overflow(digits: Seq<u8>, k: int, acc: u64, d: u64)
    requires
        0 <= k < digits.len(),
        acc == spec_digits_val(digits.subrange(0, k)),
        d == digits[k] - 48,
        spec_is_digit(digits[k]),
        acc > (u64::MAX - d) / 10,
    ensures
        spec_digits_val(digits) > u64::MAX || !spec_all_digits(digits),
{
    if spec_all_digits(digits) {
        assert(acc * 10 + d > u64::MAX) by (nonlinear_arith)
            requires
                d <= 9 && acc > (u64::MAX - d) / 10,
        ;
        assert(digits.subrange(0, k + 1).drop_last() =~= digits.subrange(0, k));
        assert(spec_digits_val(digits.subrange(0, k + 1)) == acc * 10 + d);
        lemma_digits_val_monotone(digits, k + 1);
    }
}

/// The value of an all-digit string is never negative.
proof fn lemma_digits_val_nonneg(digits: Seq<u8>)
    requires
        forall|i: int| 0 <= i < digits.len() ==> spec_is_digit(#[trigger] digits[i]),
    ensures
        spec_digits_val(digits) >= 0,
    decreases digits.len(),
{
    if digits.len() > 0 {
        lemma_digits_val_nonneg(digits.drop_last());
        assert(spec_digits_val(digits.drop_last()) * 10 >= 0) by (nonlinear_arith)
            requires
                spec_digits_val(digits.drop_last()) >= 0,
        ;
    }
}

/// The value of an all-digit string is at least the value of any prefix.
proof fn lemma_digits_val_monotone(digits: Seq<u8>, k: int)
    requires
        0 <= k <= digits.len(),
        forall|i: int| 0 <= i < digits.len() ==> spec_is_digit(#[trigger] digits[i]),
    ensures
        spec_digits_val(digits) >= spec_digits_val(digits.subrange(0, k)),
    decreases digits.len() - k,
{
    if k < digits.len() {
        assert(digits.subrange(0, k + 1).drop_last() =~= digits.subrange(0, k));
        assert(spec_digits_val(digits.subrange(0, k + 1)) == spec_digits_val(
            digits.subrange(0, k),
        ) * 10 + (digits[k] - 48));
        lemma_digits_val_nonneg(digits.subrange(0, k));
        assert(spec_digits_val(digits.subrange(0, k)) * 10 + (digits[k] - 48) >= spec_digits_val(
            digits.subrange(0, k),
        )) by (nonlinear_arith)
            requires
                spec_digits_val(digits.subrange(0, k)) >= 0 && digits[k] >= 48,
        ;
        lemma_digits_val_monotone(digits, k + 1);
    } else {
        assert(digits.subrange(0, k) =~= digits);
    }
}

} // verus!
