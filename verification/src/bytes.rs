//! Byte-string helpers shared by the request parser, the blog renderer and
//! the feed store: prefix tests, appending, and decimal text.
use vstd::prelude::*;

verus! {

/// `n` is a prefix of `h`.
pub open spec fn is_prefix(n: Seq<u8>, h: Seq<u8>) -> bool {
    n.len() <= h.len() && h.subrange(0, n.len() as int) == n
}

/// Whether the byte string `h` begins with the byte string `n`.
pub fn beginstrb(h: &[u8], n: &[u8]) -> (r: bool)
    ensures
        r == is_prefix(n@, h@),
{
    if n.len() > h.len() {
        return false;
    }
    let mut i: usize = 0;
    while i < n.len()
        invariant
            i <= n.len() <= h.len(),
            forall|k: int| 0 <= k < i ==> h@[k] == n@[k],
        decreases n.len() - i,
    {
        if h[i] != n[i] {
            assert(h@.subrange(0, n@.len() as int)[i as int] != n@[i as int]);
            return false;
        }
        i += 1;
    }
    assert(h@.subrange(0, n@.len() as int) =~= n@);
    true
}

/// Whether two byte strings are equal.
pub fn bytes_eq(a: &[u8], b: &[u8]) -> (r: bool)
    ensures
        r == (a@ == b@),
{
    if a.len() != b.len() {
        return false;
    }
    let r = beginstrb(a, b);
    proof {
        if r {
            assert(a@.subrange(0, b@.len() as int) =~= a@);
        } else {
            assert(a@.subrange(0, b@.len() as int) =~= a@);
        }
    }
    r
}

/// Appends all of `src` to `out`.
pub fn push_all(out: &mut Vec<u8>, src: &[u8])
    ensures
        final(out)@ == old(out)@ + src@,
{
    let mut i: usize = 0;
    while i < src.len()
        invariant
            i <= src.len(),
            out@ == old(out)@ + src@.subrange(0, i as int),
        decreases src.len() - i,
    {
        out.push(src[i]);
        i += 1;
        assert(src@.subrange(0, i as int) =~= src@.subrange(0, i - 1) .push(src@[i - 1]));
    }
    assert(src@.subrange(0, src@.len() as int) =~= src@);
}

/// The ASCII digit for a value below ten.
pub open spec fn digit_byte(d: nat) -> u8 {
    (d + 48) as u8
}

/// The decimal digits of `n`, most significant first, without leading
/// zeros; zero has no digits at all.
pub open spec fn digits_of(n: nat) -> Seq<u8>
    decreases n,
{
    if n == 0 {
        seq![]
    } else {
        digits_of(n / 10).push(digit_byte(n % 10))
    }
}

/// The decimal text of `n`, as `to_string` writes it: `0` for zero.
pub open spec fn decimal_text(n: nat) -> Seq<u8> {
    if n == 0 {
        seq![48u8]
    } else {
        digits_of(n)
    }
}

/// The digits of `n`, most significant first; empty for zero.
pub fn digits(n: u64) -> (r: Vec<u8>)
    ensures
        r@ == digits_of(n as nat),
{
    let mut out: Vec<u8> = Vec::new();
    let mut m: u64 = n;
    while m > 0
        invariant
            digits_of(n as nat) == digits_of(m as nat) + out@,
        decreases m,
    {
        let d: u8 = (m % 10) as u8;
        let ghost prev = out@;
        out.insert(0, d + 48);
        proof {
            let q = (m / 10) as nat;
            assert(digits_of(m as nat) == digits_of(q).push(digit_byte((m % 10) as nat)));
            assert(digits_of(q).push(digit_byte((m % 10) as nat)) + prev =~= digits_of(q) + out@);
        }
        m = m / 10;
    }
    assert(digits_of(0) + out@ =~= out@);
    out
}

/// The decimal text of `n`: its digits, or `0` for zero.
pub fn decimal(n: u64) -> (r: Vec<u8>)
    ensures
        r@ == decimal_text(n as nat),
{
    if n == 0 {
        let mut z: Vec<u8> = Vec::new();
        z.push(48u8);
        assert(z@ =~= seq![48u8]);
        z
    } else {
        digits(n)
    }
}

/// Every byte of `s` is an ASCII digit.
pub open spec fn all_digits(s: Seq<u8>) -> bool {
    forall|i: int| 0 <= i < s.len() ==> 48 <= #[trigger] s[i] <= 57
}

/// The number that the digits `s` spell, most significant first.
pub open spec fn digits_value(s: Seq<u8>) -> nat
    decreases s.len(),
{
    if s.len() == 0 {
        0
    } else {
        digits_value(s.drop_last()) * 10 + (s.last() - 48) as nat
    }
}

/// What parsing `s` as an unsigned decimal number bounded by `max` gives:
/// an optional `+`, then at least one digit, and a value not above `max`.
pub open spec fn parse_decimal(s: Seq<u8>, max: nat) -> Option<nat> {
    let d = if s.len() > 0 && s[0] == 43u8 { s.drop_first() } else { s };
    if d.len() > 0 && all_digits(d) && digits_value(d) <= max {
        Some(digits_value(d))
    } else {
        None
    }
}

/// A longer run of digits never spells a smaller number.
pub proof fn lemma_digits_value_prefix(s: Seq<u8>, i: int, j: int)
    requires
        0 <= i <= j <= s.len(),
        all_digits(s),
    ensures
        digits_value(s.subrange(0, i)) <= digits_value(s.subrange(0, j)),
    decreases j - i,
{
    if i < j {
        lemma_digits_value_prefix(s, i, j - 1);
        assert(s.subrange(0, j).drop_last() =~= s.subrange(0, j - 1));
    }
}

/// Parses `s` as a decimal `u64`, as `str::parse::<u64>` does.
pub fn parse_u64(s: &[u8]) -> (r: Option<u64>)
    ensures
        match r {
            Some(v) => parse_decimal(s@, u64::MAX as nat) == Some(v as nat),
            None => parse_decimal(s@, u64::MAX as nat) is None,
        },
{
    let mut start: usize = 0;
    if s.len() > 0 && s[0] == 43u8 {
        start = 1;
    }
    let ghost d = if s@.len() > 0 && s@[0] == 43u8 { s@.drop_first() } else { s@ };
    assert(d =~= s@.subrange(start as int, s@.len() as int));
    if start == s.len() {
        return None;
    }
    let mut acc: u64 = 0;
    let mut i: usize = start;
    while i < s.len()
        invariant
            start <= i <= s.len(),
            d == s@.subrange(start as int, s@.len() as int),
            d == (if s@.len() > 0 && s@[0] == 43u8 { s@.drop_first() } else { s@ }),
            d.len() > 0,
            all_digits(d.subrange(0, i - start)),
            acc as nat == digits_value(d.subrange(0, i - start)),
        decreases s.len() - i,
    {
        let b = s[i];
        proof {
            assert(d.subrange(0, i + 1 - start).drop_last() =~= d.subrange(0, i - start));
        }
        assert(d[i - start] == b);
        if b < 48 || b > 57 {
            assert(!all_digits(d));
            return None;
        }
        let step = acc.checked_mul(10);
        match step {
            None => {
                proof {
                    assert(all_digits(d.subrange(0, i + 1 - start)));
                    if all_digits(d) {
                        lemma_digits_value_prefix(d, i + 1 - start, d.len() as int);
                        assert(d.subrange(0, d.len() as int) =~= d);
                    }
                }
                return None;
            },
            Some(t) => {
                let next = t.checked_add((b - 48) as u64);
                match next {
                    None => {
                        proof {
                            assert(all_digits(d.subrange(0, i + 1 - start)));
                            if all_digits(d) {
                                lemma_digits_value_prefix(d, i + 1 - start, d.len() as int);
                                assert(d.subrange(0, d.len() as int) =~= d);
                            }
                        }
                        return None;
                    },
                    Some(v) => {
                        acc = v;
                    },
                }
            },
        }
        i += 1;
    }
    assert(d.subrange(0, d.len() as int) =~= d);
    Some(acc)
}

/// Parses `s` as a decimal `u32`, as `str::parse::<u32>` does.
pub fn parse_u32(s: &[u8]) -> (r: Option<u32>)
    ensures
        match r {
            Some(v) => parse_decimal(s@, u32::MAX as nat) == Some(v as nat),
            None => parse_decimal(s@, u32::MAX as nat) is None,
        },
{
    match parse_u64(s) {
        Some(v) => {
            if v <= 0xffff_ffffu64 {
                Some(v as u32)
            } else {
                None
            }
        },
        None => None,
    }
}

/// The decimal text of a number spells that number.
pub proof fn lemma_digits_of_value(n: nat)
    ensures
        all_digits(digits_of(n)),
        digits_value(digits_of(n)) == n,
    decreases n,
{
    if n > 0 {
        lemma_digits_of_value(n / 10);
        assert(digits_of(n).drop_last() =~= digits_of(n / 10));
    }
}

/// Writing a number in decimal and parsing it back gives the number.
pub proof fn lemma_decimal_roundtrip(n: nat, max: nat)
    requires
        n <= max,
    ensures
        parse_decimal(decimal_text(n), max) == Some(n),
{
    lemma_digits_of_value(n);
    if n == 0 {
        assert(digits_value(seq![48u8]) == 0) by {
            assert(seq![48u8].drop_last() =~= Seq::<u8>::empty());
        }
    } else {
        assert(digits_of(n).len() > 0);
        assert(48 <= digits_of(n)[0] <= 57);
    }
}

} // verus!
