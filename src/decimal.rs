//! Canonical decimal text of integers, as written in log records.
use vstd::prelude::*;

verus! {

/// The ASCII code of `'0'`.
pub const ZERO_BYTE: u8 = 48;

/// The ASCII code of `'-'`.
pub const MINUS_BYTE: u8 = 45;

pub open spec fn is_digit(b: u8) -> bool {
    ZERO_BYTE <= b <= 57
}

/// Decimal digits of a natural number, most significant first, without leading zeros.
pub open spec fn digits(n: nat) -> Seq<u8>
    decreases n,
{
    if n < 10 {
        seq![(ZERO_BYTE + n) as u8]
    } else {
        digits(n / 10).push((ZERO_BYTE + n % 10) as u8)
    }
}

/// The canonical decimal text of an integer: an optional minus sign, then its digits.
pub open spec fn decimal(v: int) -> Seq<u8> {
    if v < 0 {
        seq![MINUS_BYTE] + digits((-v) as nat)
    } else {
        digits(v as nat)
    }
}

/// The number that a string of digits denotes.
pub open spec fn digits_value(s: Seq<u8>) -> int
    decreases s.len(),
{
    if s.len() == 0 {
        0
    } else {
        digits_value(s.drop_last()) * 10 + (s.last() - ZERO_BYTE)
    }
}

pub open spec fn pow10(k: nat) -> int
    decreases k,
{
    if k == 0 {
        1
    } else {
        10 * pow10((k - 1) as nat)
    }
}

pub proof fn lemma_digits(n: nat)
    ensures
        digits_value(digits(n)) == n,
        digits(n).len() >= 1,
        forall|i: int| 0 <= i < digits(n).len() ==> is_digit(#[trigger] digits(n)[i]),
    decreases n,
{
    if n >= 10 {
        lemma_digits(n / 10);
        assert(digits(n).drop_last() =~= digits(n / 10));
        assert(digits(n).last() - ZERO_BYTE == n % 10);
        assert(digits_value(digits(n)) == digits_value(digits(n / 10)) * 10 + n % 10);
        assert((n / 10) * 10 + n % 10 == n) by (nonlinear_arith);
        assert forall|i: int| 0 <= i < digits(n).len() implies is_digit(#[trigger] digits(n)[i]) by {
            if i < digits(n / 10).len() {
                assert(digits(n)[i] == digits(n / 10)[i]);
            }
        }
    } else {
        assert(digits(n).drop_last() =~= Seq::<u8>::empty());
        assert(digits_value(Seq::<u8>::empty()) == 0);
        assert(digits(n).last() - ZERO_BYTE == n);
    }
}

pub proof fn lemma_digits_len(n: nat, k: nat)
    requires
        k >= 1,
        n < pow10(k),
    ensures
        digits(n).len() <= k,
    decreases n,
{
    if n >= 10 {
        assert(k >= 2) by {
            if k == 1 {
                reveal_with_fuel(pow10, 2);
            }
        }
        let k1 = (k - 1) as nat;
        assert(n / 10 < pow10(k1)) by {
            assert(pow10(k) == 10 * pow10(k1));
            assert(n / 10 < pow10(k1)) by (nonlinear_arith)
                requires n < 10 * pow10(k1), pow10(k1) >= 1;
        }
        lemma_pow10_pos(k1);
        lemma_digits_len(n / 10, k1);
    }
}

pub proof fn lemma_pow10_pos(k: nat)
    ensures
        pow10(k) >= 1,
    decreases k,
{
    if k > 0 {
        lemma_pow10_pos((k - 1) as nat);
    }
}

/// Distinct integers have distinct decimal text.
pub proof fn lemma_decimal_injective(a: int, b: int)
    ensures
        decimal(a) == decimal(b) ==> a == b,
{
    if decimal(a) == decimal(b) {
        if a < 0 {
            lemma_digits((-a) as nat);
        } else {
            lemma_digits(a as nat);
        }
        if b < 0 {
            lemma_digits((-b) as nat);
        } else {
            lemma_digits(b as nat);
        }
        if a < 0 && b < 0 {
            assert(digits((-a) as nat) =~= decimal(a).drop_first());
            assert(digits((-b) as nat) =~= decimal(b).drop_first());
        } else if a < 0 {
            assert(is_digit(digits(b as nat)[0]));
        } else if b < 0 {
            assert(is_digit(digits(a as nat)[0]));
        }
    }
}

/// The decimal text holds no byte other than digits and a leading minus sign.
pub proof fn lemma_decimal_bytes(v: int)
    ensures
        decimal(v).len() >= 1,
        forall|i: int| 0 <= i < decimal(v).len() ==> (is_digit(#[trigger] decimal(v)[i]) || decimal(v)[i] == MINUS_BYTE),
{
    if v < 0 {
        lemma_digits((-v) as nat);
        assert forall|i: int| 0 <= i < decimal(v).len() implies (is_digit(#[trigger] decimal(v)[i]) || decimal(v)[i] == MINUS_BYTE) by {
            if i > 0 {
                assert(decimal(v)[i] == digits((-v) as nat)[i - 1]);
            }
        }
    } else {
        lemma_digits(v as nat);
    }
}

fn push_digits(out: &mut Vec<u8>, n: u128)
    ensures
        final(out)@ == old(out)@ + digits(n as nat),
    decreases n,
{
    if n >= 10 {
        push_digits(out, n / 10);
    }
    out.push(ZERO_BYTE + (n % 10) as u8);
    proof {
        if n >= 10 {
            assert(digits(n as nat) == digits((n / 10) as nat).push((ZERO_BYTE + n % 10) as u8));
        }
    }
    assert(final(out)@ =~= old(out)@ + digits(n as nat));
}

/// Appends the canonical decimal text of `v`.
pub fn push_decimal(out: &mut Vec<u8>, v: i128)
    ensures
        final(out)@ == old(out)@ + decimal(v as int),
{
    if v < 0 {
        out.push(MINUS_BYTE);
        let m: u128 = ((-(v + 1)) as u128) + 1;
        push_digits(out, m);
        assert(final(out)@ =~= old(out)@ + decimal(v as int));
    } else {
        push_digits(out, v as u128);
    }
}

/// The integers that every fixed-width integer type of 64 bits or fewer can hold.
pub open spec fn in_wide_range(v: int) -> bool {
    i64::MIN <= v <= u64::MAX
}

/// The magnitude of an integer.
pub open spec fn magnitude(v: int) -> nat {
    if v < 0 {
        (-v) as nat
    } else {
        v as nat
    }
}

proof fn lemma_pow10_20()
    ensures
        pow10(20) == 100000000000000000000int,
{
    reveal_with_fuel(pow10, 21);
}

proof fn lemma_pow10_mono(a: nat, b: nat)
    requires
        a <= b,
    ensures
        pow10(a) <= pow10(b),
    decreases b,
{
    if a < b {
        lemma_pow10_mono(a, (b - 1) as nat);
        lemma_pow10_pos((b - 1) as nat);
    }
}

proof fn lemma_decimal_shape(w: int)
    requires
        in_wide_range(w),
    ensures
        w < 0 ==> decimal(w)[0] == MINUS_BYTE && decimal(w).subrange(1, decimal(w).len() as int) == digits(magnitude(w)),
        w >= 0 ==> decimal(w) == digits(magnitude(w)) && is_digit(decimal(w)[0]),
        1 <= digits(magnitude(w)).len() <= 20,
        forall|i: int| 0 <= i < digits(magnitude(w)).len() ==> is_digit(#[trigger] digits(magnitude(w))[i]),
        digits_value(digits(magnitude(w))) == magnitude(w),
{
    lemma_pow10_20();
    lemma_digits(magnitude(w));
    lemma_digits_len(magnitude(w), 20);
    if w < 0 {
        assert(decimal(w).subrange(1, decimal(w).len() as int) =~= digits(magnitude(w)));
    }
}

fn same_bytes(a: &[u8], b: &[u8]) -> (r: bool)
    ensures
        r == (a@ == b@),
{
    if a.len() != b.len() {
        return false;
    }
    let mut i: usize = 0;
    while i < a.len()
        invariant
            a.len() == b.len(),
            i <= a.len(),
            a@.subrange(0, i as int) == b@.subrange(0, i as int),
        decreases a.len() - i,
    {
        if a[i] != b[i] {
            assert(a@[i as int] != b@[i as int]);
            return false;
        }
        assert(a@.subrange(0, i + 1) =~= a@.subrange(0, i as int).push(a@[i as int]));
        assert(b@.subrange(0, i + 1) =~= b@.subrange(0, i as int).push(b@[i as int]));
        i = i + 1;
    }
    assert(a@ =~= a@.subrange(0, a.len() as int));
    assert(b@ =~= b@.subrange(0, b.len() as int));
    true
}

/// Reads the canonical decimal text of an integer that a type of 64 bits or
/// fewer can hold; anything else is refused.
pub fn parse_decimal(b: &[u8]) -> (r: Option<i128>)
    ensures
        r matches Some(v) ==> decimal(v as int) == b@,
        forall|w: int| in_wide_range(w) && decimal(w) == b@ ==> r == Some(w as i128),
{
    let ghost target: Option<int> = if exists|w: int| in_wide_range(w) && decimal(w) == b@ {
        Some(choose|w: int| in_wide_range(w) && decimal(w) == b@)
    } else {
        None
    };
    proof {
        if let Some(w) = target {
            lemma_decimal_shape(w);
        }
    }
    let n = b.len();
    if n == 0 {
        return None;
    }
    let neg = b[0] == MINUS_BYTE;
    let start: usize = if neg { 1 } else { 0 };
    if n - start == 0 || n - start > 20 {
        return None;
    }
    let mut acc: u128 = 0;
    let mut i: usize = start;
    while i < n
        invariant
            start <= i <= n,
            n == b.len(),
            n - start <= 20,
            (exists|w: int| in_wide_range(w) && decimal(w) == b@) ==> target is Some,
            acc == digits_value(b@.subrange(start as int, i as int)),
            acc < pow10((i - start) as nat),
            target matches Some(w) ==> b@.subrange(start as int, n as int) == digits(magnitude(w)),
            target matches Some(w) ==> forall|j: int| 0 <= j < digits(magnitude(w)).len() ==> is_digit(#[trigger] digits(magnitude(w))[j]),
        decreases n - i,
    {
        let c = b[i];
        if c < ZERO_BYTE || c > 57 {
            proof {
                if let Some(w) = target {
                    assert(b@.subrange(start as int, n as int)[i - start] == c);
                    assert(is_digit(digits(magnitude(w))[i - start]));
                }
            }
            return None;
        }
        proof {
            let s = b@.subrange(start as int, i + 1);
            assert(s.drop_last() =~= b@.subrange(start as int, i as int));
            assert(s.last() == c);
            let k = (i - start) as nat;
            let p = pow10(k);
            assert(pow10(k + 1) == 10 * p);
            let d = c - ZERO_BYTE;
            assert(acc * 10 + d < 10 * p) by (nonlinear_arith)
                requires acc < p, 0 <= d <= 9;
            lemma_pow10_mono(k + 1, 20);
            lemma_pow10_20();
        }
        acc = acc * 10 + (c - ZERO_BYTE) as u128;
        i = i + 1;
    }
    proof {
        lemma_pow10_mono((n - start) as nat, 20);
        lemma_pow10_20();
    }
    let v: i128 = if neg { -(acc as i128) } else { acc as i128 };
    proof {
        if let Some(w) = target {
            if w < 0 {
                assert(neg);
            } else {
                assert(!neg);
            }
            assert(v == w);
        }
    }
    let mut enc: Vec<u8> = Vec::new();
    push_decimal(&mut enc, v);
    assert(enc@ =~= decimal(v as int));
    if same_bytes(enc.as_slice(), b) {
        proof {
            assert forall|w: int| in_wide_range(w) && decimal(w) == b@ implies v == w by {
                lemma_decimal_injective(v as int, w);
            }
        }
        Some(v)
    } else {
        None
    }
}

} // verus!
