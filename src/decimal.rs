use vstd::prelude::*;

verus! {

/// The decimal digits of `n`, most significant first.
pub open spec fn decimal(n: nat) -> Seq<u8>
    decreases n,
{
    if n < 10 {
        seq![(0x30 + n) as u8]
    } else {
        decimal(n / 10) + seq![(0x30 + n % 10) as u8]
    }
}

/// Every byte of `s` is an ASCII digit.
pub open spec fn all_digits(s: Seq<u8>) -> bool {
    forall|i: int| 0 <= i < s.len() ==> 0x30 <= #[trigger] s[i] <= 0x39
}

/// The value of the decimal digits `s`.
pub open spec fn digits_value(s: Seq<u8>) -> nat
    decreases s.len(),
{
    if s.len() == 0 {
        0
    } else {
        digits_value(s.drop_last()) * 10 + (s.last() - 0x30) as nat
    }
}

/// What `u32::from_str` gives for `s`: an optional `+` followed by one or
/// more decimal digits whose value fits in `u32`.
pub open spec fn parse_u32(s: Seq<u8>) -> Option<u32> {
    let d = if s.len() > 0 && s[0] == 0x2b { s.drop_first() } else { s };
    if d.len() == 0 || !all_digits(d) || digits_value(d) > u32::MAX {
        None
    } else {
        Some(digits_value(d) as u32)
    }
}

/// Appends the decimal digits of `n` to `out`.
pub fn push_decimal(out: &mut Vec<u8>, n: u32)
    ensures
        final(out)@ == old(out)@ + decimal(n as nat),
    decreases n,
{
    if n >= 10 {
        push_decimal(out, n / 10);
    }
    out.push(0x30 + (n % 10) as u8);
    proof {
        if n >= 10 {
            assert(decimal(n as nat) == decimal((n / 10) as nat) + seq![(0x30 + n % 10) as u8]);
        } else {
            assert(decimal(n as nat) == seq![(0x30 + n) as u8]);
        }
        assert(final(out)@ =~= old(out)@ + decimal(n as nat));
    }
}

proof fn lemma_digits_value_grows(s: Seq<u8>, k: int)
    requires
        0 <= k <= s.len(),
        all_digits(s),
    ensures
        digits_value(s.subrange(0, k)) <= digits_value(s),
    decreases s.len() - k,
{
    if k < s.len() {
        let p = s.subrange(0, k + 1);
        assert(p.drop_last() =~= s.subrange(0, k));
        assert(0x30 <= s[k] <= 0x39);
        assert(digits_value(p) == digits_value(s.subrange(0, k)) * 10 + (p.last() - 0x30) as nat);
        lemma_digits_value_grows(s, k + 1);
    } else {
        assert(s.subrange(0, k) =~= s);
    }
}

/// Parses an unsigned decimal number as `u32::from_str` does.
pub fn parse_u32_exec(s: &[u8]) -> (r: Option<u32>)
    ensures
        r == parse_u32(s@),
{
    let start: usize = if s.len() > 0 && s[0] == 0x2b { 1 } else { 0 };
    let ghost d = if s@.len() > 0 && s@[0] == 0x2b { s@.drop_first() } else { s@ };
    assert(d =~= s@.subrange(start as int, s@.len() as int));
    if start >= s.len() {
        return None;
    }
    let mut i: usize = start;
    while i < s.len()
        invariant
            start <= i <= s@.len(),
            d == s@.subrange(start as int, s@.len() as int),
            d == (if s@.len() > 0 && s@[0] == 0x2b { s@.drop_first() } else { s@ }),
            forall|j: int| start <= j < i ==> 0x30 <= #[trigger] s@[j] <= 0x39,
        decreases s@.len() - i,
    {
        if s[i] < 0x30 || s[i] > 0x39 {
            assert(d[i - start] == s@[i as int]);
            assert(!(0x30 <= d[i - start] <= 0x39));
            assert(!all_digits(d));
            return None;
        }
        i = i + 1;
    }
    assert forall|j: int| 0 <= j < d.len() implies 0x30 <= #[trigger] d[j] <= 0x39 by {
        assert(d[j] == s@[start + j]);
    }
    let mut v: u64 = 0;
    let mut k: usize = start;
    while k < s.len()
        invariant
            start <= k <= s@.len(),
            d == s@.subrange(start as int, s@.len() as int),
            d == (if s@.len() > 0 && s@[0] == 0x2b { s@.drop_first() } else { s@ }),
            all_digits(d),
            v == digits_value(d.subrange(0, k - start)),
            v <= u32::MAX,
        decreases s@.len() - k,
    {
        assert(d[k - start] == s@[k as int]);
        assert(0x30 <= d[k - start] <= 0x39);
        let digit = (s[k] - 0x30) as u64;
        let next = v * 10 + digit;
        proof {
            let p = d.subrange(0, k - start + 1);
            assert(p.drop_last() =~= d.subrange(0, k - start));
            assert(p.last() == s@[k as int]);
            assert(digits_value(p) == next);
        }
        if next > 0xFFFF_FFFFu64 {
            proof { lemma_digits_value_grows(d, k - start + 1); }
            return None;
        }
        v = next;
        k = k + 1;
    }
    assert(d.subrange(0, k - start) =~= d);
    Some(v as u32)
}

} // verus!
