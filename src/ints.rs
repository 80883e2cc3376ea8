//! A ready-made transition set for integer states: set, add, subtract,
//! multiply and divide by an operand.
use vstd::prelude::*;
use crate::contract::AppendOnly;
use crate::decimal::{decimal, in_wide_range, is_digit, lemma_decimal_bytes, lemma_decimal_injective, parse_decimal, push_decimal, MINUS_BYTE};

verus! {

/// A change to an integer state. `Assign` replaces the state (its record key
/// is `Set`); the fold of each other variant is the matching
/// arithmetic operator applied in place; where the operator overflows or
/// divides by zero, the fold is undefined. Variants may be added later.
#[non_exhaustive]
#[derive(Debug, PartialEq, Eq, Structural)]
pub enum IntegerTransitions<T> {
    Assign(T),
    Add(T),
    Sub(T),
    Mul(T),
    Div(T),
}

/// The position of a variant in `Assign, Add, Sub, Mul, Div`.
pub open spec fn code_of<T>(t: IntegerTransitions<T>) -> u8 {
    match t {
        IntegerTransitions::Assign(_) => 0,
        IntegerTransitions::Add(_) => 1,
        IntegerTransitions::Sub(_) => 2,
        IntegerTransitions::Mul(_) => 3,
        IntegerTransitions::Div(_) => 4,
    }
}

pub open spec fn operand<T>(t: IntegerTransitions<T>) -> T {
    match t {
        IntegerTransitions::Assign(i) => i,
        IntegerTransitions::Add(i) => i,
        IntegerTransitions::Sub(i) => i,
        IntegerTransitions::Mul(i) => i,
        IntegerTransitions::Div(i) => i,
    }
}

/// The variant's name in ASCII: `Set`, `Add`, `Sub`, `Mul`, `Div`.
pub open spec fn tag_of_code(k: u8) -> Seq<u8> {
    if k == 0 {
        seq![83u8, 101, 116]
    } else if k == 1 {
        seq![65u8, 100, 100]
    } else if k == 2 {
        seq![83u8, 117, 98]
    } else if k == 3 {
        seq![77u8, 117, 108]
    } else {
        seq![68u8, 105, 118]
    }
}

/// `{"<tag>":<v>}`: an object with the variant's name as its one key.
pub open spec fn tagged(k: u8, v: int) -> Seq<u8> {
    seq![123u8, 34] + tag_of_code(k) + seq![34u8, 58] + decimal(v) + seq![125u8]
}

proof fn lemma_parts_determine<T>(a: IntegerTransitions<T>, b: IntegerTransitions<T>)
    ensures
        code_of(a) == code_of(b) && operand(a) == operand(b) ==> a == b,
{
}

proof fn lemma_tagged_injective(k1: u8, v1: int, k2: u8, v2: int)
    requires
        k1 < 5,
        k2 < 5,
    ensures
        tagged(k1, v1) == tagged(k2, v2) ==> k1 == k2 && v1 == v2,
{
    if tagged(k1, v1) == tagged(k2, v2) {
        let l = tagged(k1, v1);
        assert(l.subrange(2, 5) =~= tag_of_code(k1));
        assert(tagged(k2, v2).subrange(2, 5) =~= tag_of_code(k2));
        if k1 != k2 {
            assert(tag_of_code(k1) != tag_of_code(k2)) by {
                assert(tag_of_code(k1)[0] != tag_of_code(k2)[0] || tag_of_code(k1)[1] != tag_of_code(k2)[1]);
            }
        }
        assert(l.subrange(7, l.len() - 1) =~= decimal(v1));
        assert(tagged(k2, v2).subrange(7, l.len() - 1) =~= decimal(v2));
        lemma_decimal_injective(v1, v2);
    }
}

proof fn lemma_tagged_single_line(k: u8, v: int)
    ensures
        forall|i: int| 0 <= i < tagged(k, v).len() ==> #[trigger] tagged(k, v)[i] != 10u8,
{
    lemma_decimal_bytes(v);
    let l = tagged(k, v);
    assert forall|i: int| 0 <= i < l.len() implies #[trigger] l[i] != 10u8 by {
        if 7 <= i < l.len() - 1 {
            assert(l[i] == decimal(v)[i - 7]);
            assert(is_digit(decimal(v)[i - 7]) || decimal(v)[i - 7] == MINUS_BYTE);
        }
    }
}

fn tag_bytes(k: u8) -> (r: Vec<u8>)
    ensures
        r@ == tag_of_code(k),
{
    let r: Vec<u8> = if k == 0 {
        vec![83u8, 101, 116]
    } else if k == 1 {
        vec![65u8, 100, 100]
    } else if k == 2 {
        vec![83u8, 117, 98]
    } else if k == 3 {
        vec![77u8, 117, 108]
    } else {
        vec![68u8, 105, 118]
    };
    assert(r@ =~= tag_of_code(k));
    r
}

fn code<T>(t: &IntegerTransitions<T>) -> (r: u8)
    ensures
        r == code_of(*t),
{
    match t {
        IntegerTransitions::Assign(_) => 0,
        IntegerTransitions::Add(_) => 1,
        IntegerTransitions::Sub(_) => 2,
        IntegerTransitions::Mul(_) => 3,
        IntegerTransitions::Div(_) => 4,
    }
}

fn build<T>(k: u8, v: T) -> (r: IntegerTransitions<T>)
    requires
        k < 5,
    ensures
        code_of(r) == k,
        operand(r) == v,
{
    if k == 0 {
        IntegerTransitions::Assign(v)
    } else if k == 1 {
        IntegerTransitions::Add(v)
    } else if k == 2 {
        IntegerTransitions::Sub(v)
    } else if k == 3 {
        IntegerTransitions::Mul(v)
    } else {
        IntegerTransitions::Div(v)
    }
}

fn encode_tagged(k: u8, v: i128) -> (r: Vec<u8>)
    ensures
        r@ == tagged(k, v as int),
{
    let mut r: Vec<u8> = vec![123u8, 34];
    let tag = tag_bytes(k);
    r.extend_from_slice(tag.as_slice());
    r.push(34);
    r.push(58);
    push_decimal(&mut r, v);
    r.push(125);
    assert(r@ =~= tagged(k, v as int));
    r
}

/// Reads `{"<tag>":<v>}` back into the variant's position and the operand.
fn decode_tagged(b: &[u8]) -> (r: Option<(u8, i128)>)
    ensures
        r matches Some((k, v)) ==> k < 5 && tagged(k, v as int) == b@,
        forall|k: u8, w: int| k < 5 && in_wide_range(w) && tagged(k, w) == b@ ==> r == Some((k, w as i128)),
{
    let ghost target: Option<(u8, int)> = if exists|k: u8, w: int| k < 5 && in_wide_range(w) && tagged(k, w) == b@ {
        Some(choose|k: u8, w: int| k < 5 && in_wide_range(w) && tagged(k, w) == b@)
    } else {
        None
    };
    proof {
        if let Some((k, w)) = target {
            lemma_decimal_bytes(w);
            assert(b@.subrange(2, 5) =~= tag_of_code(k));
            assert(b@.subrange(7, b@.len() - 1) =~= decimal(w));
        }
    }
    let n = b.len();
    if n < 9 || b[0] != 123 || b[1] != 34 || b[5] != 34 || b[6] != 58 || b[n - 1] != 125 {
        return None;
    }
    let mut k: u8 = 0;
    let mut found = false;
    while k < 5 && !found
        invariant
            n == b.len(),
            n >= 9,
            k <= 5,
            found ==> k < 5 && b@.subrange(2, 5) == tag_of_code(k),
            !found ==> forall|j: u8| j < k ==> b@.subrange(2, 5) != tag_of_code(j),
        decreases 5 - k + (if found { 0int } else { 1int }),
    {
        let tag = tag_bytes(k);
        if b[2] == tag[0] && b[3] == tag[1] && b[4] == tag[2] {
            assert(b@.subrange(2, 5) =~= tag_of_code(k));
            found = true;
        } else {
            assert(b@.subrange(2, 5)[0] != tag@[0] || b@.subrange(2, 5)[1] != tag@[1] || b@.subrange(2, 5)[2] != tag@[2]);
            k = k + 1;
        }
    }
    if !found {
        return None;
    }
    let mut digits: Vec<u8> = Vec::new();
    let mut i: usize = 7;
    while i < n - 1
        invariant
            n == b.len(),
            n >= 9,
            7 <= i <= n - 1,
            digits@ == b@.subrange(7, i as int),
        decreases n - 1 - i,
    {
        digits.push(b[i]);
        assert(digits@ =~= b@.subrange(7, i + 1));
        i = i + 1;
    }
    match parse_decimal(digits.as_slice()) {
        Some(v) => {
            assert(b@ =~= tagged(k, v as int));
            proof {
                if let Some((k2, w)) = target {
                    lemma_tagged_injective(k, v as int, k2, w);
                }
                assert forall|k3: u8, w: int| k3 < 5 && in_wide_range(w) && tagged(k3, w) == b@ implies k3 == k && w == v by {
                    lemma_tagged_injective(k, v as int, k3, w);
                }
            }
            Some((k, v))
        },
        None => {
            proof {
                if let Some((k2, w)) = target {
                    if k2 != k {
                        assert(tag_of_code(k2) != tag_of_code(k)) by {
                            assert(tag_of_code(k2)[0] != tag_of_code(k)[0] || tag_of_code(k2)[1] != tag_of_code(k)[1]);
                        }
                    }
                    assert(digits@ == decimal(w));
                }
            }
            None
        },
    }
}

impl AppendOnly for u8 {
    type Transition = IntegerTransitions<u8>;

    open spec fn initial_value() -> u8 {
        0
    }

    open spec fn next(s: u8, t: IntegerTransitions<u8>) -> Option<u8> {
        match t {
            IntegerTransitions::Assign(i) => Some(i),
            IntegerTransitions::Add(i) => s.checked_add(i),
            IntegerTransitions::Sub(i) => s.checked_sub(i),
            IntegerTransitions::Mul(i) => s.checked_mul(i),
            IntegerTransitions::Div(i) => s.checked_div(i),
        }
    }

    open spec fn encoding(t: IntegerTransitions<u8>) -> Seq<u8> {
        tagged(code_of(t), operand(t) as int)
    }

    fn initial() -> (r: u8) {
        0
    }

    fn admissible(s: &u8, t: &IntegerTransitions<u8>) -> (r: bool) {
        match *t {
            IntegerTransitions::Assign(_) => true,
            IntegerTransitions::Add(i) => s.checked_add(i).is_some(),
            IntegerTransitions::Sub(i) => s.checked_sub(i).is_some(),
            IntegerTransitions::Mul(i) => s.checked_mul(i).is_some(),
            IntegerTransitions::Div(i) => s.checked_div(i).is_some(),
        }
    }

    fn update(s: &mut u8, t: IntegerTransitions<u8>) {
        let r = match t {
            IntegerTransitions::Assign(i) => Some(i),
            IntegerTransitions::Add(i) => s.checked_add(i),
            IntegerTransitions::Sub(i) => s.checked_sub(i),
            IntegerTransitions::Mul(i) => s.checked_mul(i),
            IntegerTransitions::Div(i) => s.checked_div(i),
        };
        if let Some(v) = r {
            *s = v;
        }
    }

    fn encode(t: &IntegerTransitions<u8>) -> (r: Vec<u8>) {
        let v = match *t {
            IntegerTransitions::Assign(i) => i,
            IntegerTransitions::Add(i) => i,
            IntegerTransitions::Sub(i) => i,
            IntegerTransitions::Mul(i) => i,
            IntegerTransitions::Div(i) => i,
        };
        encode_tagged(code(t), v as i128)
    }

    fn decode(b: &[u8]) -> (r: Option<IntegerTransitions<u8>>) {
        proof {
            if exists|t: IntegerTransitions<u8>| Self::encoding(t) == b@ {
                let t = choose|t: IntegerTransitions<u8>| Self::encoding(t) == b@;
                assert(in_wide_range(operand(t) as int));
                assert(tagged(code_of(t), operand(t) as int) == b@);
            }
        }
        match decode_tagged(b) {
            Some((k, v)) => {
                if u8::MIN as i128 <= v && v <= u8::MAX as i128 {
                    Some(build(k, v as u8))
                } else {
                    None
                }
            },
            None => None,
        }
    }

    proof fn lemma_encoding_injective(a: IntegerTransitions<u8>, b: IntegerTransitions<u8>) {
        lemma_tagged_injective(code_of(a), operand(a) as int, code_of(b), operand(b) as int);
        lemma_parts_determine(a, b);
    }

    proof fn lemma_encoding_single_line(t: IntegerTransitions<u8>) {
        lemma_tagged_single_line(code_of(t), operand(t) as int);
    }
}

impl AppendOnly for u16 {
    type Transition = IntegerTransitions<u16>;

    open spec fn initial_value() -> u16 {
        0
    }

    open spec fn next(s: u16, t: IntegerTransitions<u16>) -> Option<u16> {
        match t {
            IntegerTransitions::Assign(i) => Some(i),
            IntegerTransitions::Add(i) => s.checked_add(i),
            IntegerTransitions::Sub(i) => s.checked_sub(i),
            IntegerTransitions::Mul(i) => s.checked_mul(i),
            IntegerTransitions::Div(i) => s.checked_div(i),
        }
    }

    open spec fn encoding(t: IntegerTransitions<u16>) -> Seq<u8> {
        tagged(code_of(t), operand(t) as int)
    }

    fn initial() -> (r: u16) {
        0
    }

    fn admissible(s: &u16, t: &IntegerTransitions<u16>) -> (r: bool) {
        match *t {
            IntegerTransitions::Assign(_) => true,
            IntegerTransitions::Add(i) => s.checked_add(i).is_some(),
            IntegerTransitions::Sub(i) => s.checked_sub(i).is_some(),
            IntegerTransitions::Mul(i) => s.checked_mul(i).is_some(),
            IntegerTransitions::Div(i) => s.checked_div(i).is_some(),
        }
    }

    fn update(s: &mut u16, t: IntegerTransitions<u16>) {
        let r = match t {
            IntegerTransitions::Assign(i) => Some(i),
            IntegerTransitions::Add(i) => s.checked_add(i),
            IntegerTransitions::Sub(i) => s.checked_sub(i),
            IntegerTransitions::Mul(i) => s.checked_mul(i),
            IntegerTransitions::Div(i) => s.checked_div(i),
        };
        if let Some(v) = r {
            *s = v;
        }
    }

    fn encode(t: &IntegerTransitions<u16>) -> (r: Vec<u8>) {
        let v = match *t {
            IntegerTransitions::Assign(i) => i,
            IntegerTransitions::Add(i) => i,
            IntegerTransitions::Sub(i) => i,
            IntegerTransitions::Mul(i) => i,
            IntegerTransitions::Div(i) => i,
        };
        encode_tagged(code(t), v as i128)
    }

    fn decode(b: &[u8]) -> (r: Option<IntegerTransitions<u16>>) {
        proof {
            if exists|t: IntegerTransitions<u16>| Self::encoding(t) == b@ {
                let t = choose|t: IntegerTransitions<u16>| Self::encoding(t) == b@;
                assert(in_wide_range(operand(t) as int));
                assert(tagged(code_of(t), operand(t) as int) == b@);
            }
        }
        match decode_tagged(b) {
            Some((k, v)) => {
                if u16::MIN as i128 <= v && v <= u16::MAX as i128 {
                    Some(build(k, v as u16))
                } else {
                    None
                }
            },
            None => None,
        }
    }

    proof fn lemma_encoding_injective(a: IntegerTransitions<u16>, b: IntegerTransitions<u16>) {
        lemma_tagged_injective(code_of(a), operand(a) as int, code_of(b), operand(b) as int);
        lemma_parts_determine(a, b);
    }

    proof fn lemma_encoding_single_line(t: IntegerTransitions<u16>) {
        lemma_tagged_single_line(code_of(t), operand(t) as int);
    }
}

impl AppendOnly for u32 {
    type Transition = IntegerTransitions<u32>;

    open spec fn initial_value() -> u32 {
        0
    }

    open spec fn next(s: u32, t: IntegerTransitions<u32>) -> Option<u32> {
        match t {
            IntegerTransitions::Assign(i) => Some(i),
            IntegerTransitions::Add(i) => s.checked_add(i),
            IntegerTransitions::Sub(i) => s.checked_sub(i),
            IntegerTransitions::Mul(i) => s.checked_mul(i),
            IntegerTransitions::Div(i) => s.checked_div(i),
        }
    }

    open spec fn encoding(t: IntegerTransitions<u32>) -> Seq<u8> {
        tagged(code_of(t), operand(t) as int)
    }

    fn initial() -> (r: u32) {
        0
    }

    fn admissible(s: &u32, t: &IntegerTransitions<u32>) -> (r: bool) {
        match *t {
            IntegerTransitions::Assign(_) => true,
            IntegerTransitions::Add(i) => s.checked_add(i).is_some(),
            IntegerTransitions::Sub(i) => s.checked_sub(i).is_some(),
            IntegerTransitions::Mul(i) => s.checked_mul(i).is_some(),
            IntegerTransitions::Div(i) => s.checked_div(i).is_some(),
        }
    }

    fn update(s: &mut u32, t: IntegerTransitions<u32>) {
        let r = match t {
            IntegerTransitions::Assign(i) => Some(i),
            IntegerTransitions::Add(i) => s.checked_add(i),
            IntegerTransitions::Sub(i) => s.checked_sub(i),
            IntegerTransitions::Mul(i) => s.checked_mul(i),
            IntegerTransitions::Div(i) => s.checked_div(i),
        };
        if let Some(v) = r {
            *s = v;
        }
    }

    fn encode(t: &IntegerTransitions<u32>) -> (r: Vec<u8>) {
        let v = match *t {
            IntegerTransitions::Assign(i) => i,
            IntegerTransitions::Add(i) => i,
            IntegerTransitions::Sub(i) => i,
            IntegerTransitions::Mul(i) => i,
            IntegerTransitions::Div(i) => i,
        };
        encode_tagged(code(t), v as i128)
    }

    fn decode(b: &[u8]) -> (r: Option<IntegerTransitions<u32>>) {
        proof {
            if exists|t: IntegerTransitions<u32>| Self::encoding(t) == b@ {
                let t = choose|t: IntegerTransitions<u32>| Self::encoding(t) == b@;
                assert(in_wide_range(operand(t) as int));
                assert(tagged(code_of(t), operand(t) as int) == b@);
            }
        }
        match decode_tagged(b) {
            Some((k, v)) => {
                if u32::MIN as i128 <= v && v <= u32::MAX as i128 {
                    Some(build(k, v as u32))
                } else {
                    None
                }
            },
            None => None,
        }
    }

    proof fn lemma_encoding_injective(a: IntegerTransitions<u32>, b: IntegerTransitions<u32>) {
        lemma_tagged_injective(code_of(a), operand(a) as int, code_of(b), operand(b) as int);
        lemma_parts_determine(a, b);
    }

    proof fn lemma_encoding_single_line(t: IntegerTransitions<u32>) {
        lemma_tagged_single_line(code_of(t), operand(t) as int);
    }
}

impl AppendOnly for u64 {
    type Transition = IntegerTransitions<u64>;

    open spec fn initial_value() -> u64 {
        0
    }

    open spec fn next(s: u64, t: IntegerTransitions<u64>) -> Option<u64> {
        match t {
            IntegerTransitions::Assign(i) => Some(i),
            IntegerTransitions::Add(i) => s.checked_add(i),
            IntegerTransitions::Sub(i) => s.checked_sub(i),
            IntegerTransitions::Mul(i) => s.checked_mul(i),
            IntegerTransitions::Div(i) => s.checked_div(i),
        }
    }

    open spec fn encoding(t: IntegerTransitions<u64>) -> Seq<u8> {
        tagged(code_of(t), operand(t) as int)
    }

    fn initial() -> (r: u64) {
        0
    }

    fn admissible(s: &u64, t: &IntegerTransitions<u64>) -> (r: bool) {
        match *t {
            IntegerTransitions::Assign(_) => true,
            IntegerTransitions::Add(i) => s.checked_add(i).is_some(),
            IntegerTransitions::Sub(i) => s.checked_sub(i).is_some(),
            IntegerTransitions::Mul(i) => s.checked_mul(i).is_some(),
            IntegerTransitions::Div(i) => s.checked_div(i).is_some(),
        }
    }

    fn update(s: &mut u64, t: IntegerTransitions<u64>) {
        let r = match t {
            IntegerTransitions::Assign(i) => Some(i),
            IntegerTransitions::Add(i) => s.checked_add(i),
            IntegerTransitions::Sub(i) => s.checked_sub(i),
            IntegerTransitions::Mul(i) => s.checked_mul(i),
            IntegerTransitions::Div(i) => s.checked_div(i),
        };
        if let Some(v) = r {
            *s = v;
        }
    }

    fn encode(t: &IntegerTransitions<u64>) -> (r: Vec<u8>) {
        let v = match *t {
            IntegerTransitions::Assign(i) => i,
            IntegerTransitions::Add(i) => i,
            IntegerTransitions::Sub(i) => i,
            IntegerTransitions::Mul(i) => i,
            IntegerTransitions::Div(i) => i,
        };
        encode_tagged(code(t), v as i128)
    }

    fn decode(b: &[u8]) -> (r: Option<IntegerTransitions<u64>>) {
        proof {
            if exists|t: IntegerTransitions<u64>| Self::encoding(t) == b@ {
                let t = choose|t: IntegerTransitions<u64>| Self::encoding(t) == b@;
                assert(in_wide_range(operand(t) as int));
                assert(tagged(code_of(t), operand(t) as int) == b@);
            }
        }
        match decode_tagged(b) {
            Some((k, v)) => {
                if u64::MIN as i128 <= v && v <= u64::MAX as i128 {
                    Some(build(k, v as u64))
                } else {
                    None
                }
            },
            None => None,
        }
    }

    proof fn lemma_encoding_injective(a: IntegerTransitions<u64>, b: IntegerTransitions<u64>) {
        lemma_tagged_injective(code_of(a), operand(a) as int, code_of(b), operand(b) as int);
        lemma_parts_determine(a, b);
    }

    proof fn lemma_encoding_single_line(t: IntegerTransitions<u64>) {
        lemma_tagged_single_line(code_of(t), operand(t) as int);
    }
}

impl AppendOnly for usize {
    type Transition = IntegerTransitions<usize>;

    open spec fn initial_value() -> usize {
        0
    }

    open spec fn next(s: usize, t: IntegerTransitions<usize>) -> Option<usize> {
        match t {
            IntegerTransitions::Assign(i) => Some(i),
            IntegerTransitions::Add(i) => s.checked_add(i),
            IntegerTransitions::Sub(i) => s.checked_sub(i),
            IntegerTransitions::Mul(i) => s.checked_mul(i),
            IntegerTransitions::Div(i) => s.checked_div(i),
        }
    }

    open spec fn encoding(t: IntegerTransitions<usize>) -> Seq<u8> {
        tagged(code_of(t), operand(t) as int)
    }

    fn initial() -> (r: usize) {
        0
    }

    fn admissible(s: &usize, t: &IntegerTransitions<usize>) -> (r: bool) {
        match *t {
            IntegerTransitions::Assign(_) => true,
            IntegerTransitions::Add(i) => s.checked_add(i).is_some(),
            IntegerTransitions::Sub(i) => s.checked_sub(i).is_some(),
            IntegerTransitions::Mul(i) => s.checked_mul(i).is_some(),
            IntegerTransitions::Div(i) => s.checked_div(i).is_some(),
        }
    }

    fn update(s: &mut usize, t: IntegerTransitions<usize>) {
        let r = match t {
            IntegerTransitions::Assign(i) => Some(i),
            IntegerTransitions::Add(i) => s.checked_add(i),
            IntegerTransitions::Sub(i) => s.checked_sub(i),
            IntegerTransitions::Mul(i) => s.checked_mul(i),
            IntegerTransitions::Div(i) => s.checked_div(i),
        };
        if let Some(v) = r {
            *s = v;
        }
    }

    fn encode(t: &IntegerTransitions<usize>) -> (r: Vec<u8>) {
        let v = match *t {
            IntegerTransitions::Assign(i) => i,
            IntegerTransitions::Add(i) => i,
            IntegerTransitions::Sub(i) => i,
            IntegerTransitions::Mul(i) => i,
            IntegerTransitions::Div(i) => i,
        };
        encode_tagged(code(t), v as i128)
    }

    fn decode(b: &[u8]) -> (r: Option<IntegerTransitions<usize>>) {
        proof {
            if exists|t: IntegerTransitions<usize>| Self::encoding(t) == b@ {
                let t = choose|t: IntegerTransitions<usize>| Self::encoding(t) == b@;
                assert(in_wide_range(operand(t) as int));
                assert(tagged(code_of(t), operand(t) as int) == b@);
            }
        }
        match decode_tagged(b) {
            Some((k, v)) => {
                if usize::MIN as i128 <= v && v <= usize::MAX as i128 {
                    Some(build(k, v as usize))
                } else {
                    None
                }
            },
            None => None,
        }
    }

    proof fn lemma_encoding_injective(a: IntegerTransitions<usize>, b: IntegerTransitions<usize>) {
        lemma_tagged_injective(code_of(a), operand(a) as int, code_of(b), operand(b) as int);
        lemma_parts_determine(a, b);
    }

    proof fn lemma_encoding_single_line(t: IntegerTransitions<usize>) {
        lemma_tagged_single_line(code_of(t), operand(t) as int);
    }
}

impl AppendOnly for i8 {
    type Transition = IntegerTransitions<i8>;

    open spec fn initial_value() -> i8 {
        0
    }

    open spec fn next(s: i8, t: IntegerTransitions<i8>) -> Option<i8> {
        match t {
            IntegerTransitions::Assign(i) => Some(i),
            IntegerTransitions::Add(i) => s.checked_add(i),
            IntegerTransitions::Sub(i) => s.checked_sub(i),
            IntegerTransitions::Mul(i) => s.checked_mul(i),
            IntegerTransitions::Div(i) => s.checked_div(i),
        }
    }

    open spec fn encoding(t: IntegerTransitions<i8>) -> Seq<u8> {
        tagged(code_of(t), operand(t) as int)
    }

    fn initial() -> (r: i8) {
        0
    }

    fn admissible(s: &i8, t: &IntegerTransitions<i8>) -> (r: bool) {
        match *t {
            IntegerTransitions::Assign(_) => true,
            IntegerTransitions::Add(i) => s.checked_add(i).is_some(),
            IntegerTransitions::Sub(i) => s.checked_sub(i).is_some(),
            IntegerTransitions::Mul(i) => s.checked_mul(i).is_some(),
            IntegerTransitions::Div(i) => s.checked_div(i).is_some(),
        }
    }

    fn update(s: &mut i8, t: IntegerTransitions<i8>) {
        let r = match t {
            IntegerTransitions::Assign(i) => Some(i),
            IntegerTransitions::Add(i) => s.checked_add(i),
            IntegerTransitions::Sub(i) => s.checked_sub(i),
            IntegerTransitions::Mul(i) => s.checked_mul(i),
            IntegerTransitions::Div(i) => s.checked_div(i),
        };
        if let Some(v) = r {
            *s = v;
        }
    }

    fn encode(t: &IntegerTransitions<i8>) -> (r: Vec<u8>) {
        let v = match *t {
            IntegerTransitions::Assign(i) => i,
            IntegerTransitions::Add(i) => i,
            IntegerTransitions::Sub(i) => i,
            IntegerTransitions::Mul(i) => i,
            IntegerTransitions::Div(i) => i,
        };
        encode_tagged(code(t), v as i128)
    }

    fn decode(b: &[u8]) -> (r: Option<IntegerTransitions<i8>>) {
        proof {
            if exists|t: IntegerTransitions<i8>| Self::encoding(t) == b@ {
                let t = choose|t: IntegerTransitions<i8>| Self::encoding(t) == b@;
                assert(in_wide_range(operand(t) as int));
                assert(tagged(code_of(t), operand(t) as int) == b@);
            }
        }
        match decode_tagged(b) {
            Some((k, v)) => {
                if i8::MIN as i128 <= v && v <= i8::MAX as i128 {
                    Some(build(k, v as i8))
                } else {
                    None
                }
            },
            None => None,
        }
    }

    proof fn lemma_encoding_injective(a: IntegerTransitions<i8>, b: IntegerTransitions<i8>) {
        lemma_tagged_injective(code_of(a), operand(a) as int, code_of(b), operand(b) as int);
        lemma_parts_determine(a, b);
    }

    proof fn lemma_encoding_single_line(t: IntegerTransitions<i8>) {
        lemma_tagged_single_line(code_of(t), operand(t) as int);
    }
}

impl AppendOnly for i16 {
    type Transition = IntegerTransitions<i16>;

    open spec fn initial_value() -> i16 {
        0
    }

    open spec fn next(s: i16, t: IntegerTransitions<i16>) -> Option<i16> {
        match t {
            IntegerTransitions::Assign(i) => Some(i),
            IntegerTransitions::Add(i) => s.checked_add(i),
            IntegerTransitions::Sub(i) => s.checked_sub(i),
            IntegerTransitions::Mul(i) => s.checked_mul(i),
            IntegerTransitions::Div(i) => s.checked_div(i),
        }
    }

    open spec fn encoding(t: IntegerTransitions<i16>) -> Seq<u8> {
        tagged(code_of(t), operand(t) as int)
    }

    fn initial() -> (r: i16) {
        0
    }

    fn admissible(s: &i16, t: &IntegerTransitions<i16>) -> (r: bool) {
        match *t {
            IntegerTransitions::Assign(_) => true,
            IntegerTransitions::Add(i) => s.checked_add(i).is_some(),
            IntegerTransitions::Sub(i) => s.checked_sub(i).is_some(),
            IntegerTransitions::Mul(i) => s.checked_mul(i).is_some(),
            IntegerTransitions::Div(i) => s.checked_div(i).is_some(),
        }
    }

    fn update(s: &mut i16, t: IntegerTransitions<i16>) {
        let r = match t {
            IntegerTransitions::Assign(i) => Some(i),
            IntegerTransitions::Add(i) => s.checked_add(i),
            IntegerTransitions::Sub(i) => s.checked_sub(i),
            IntegerTransitions::Mul(i) => s.checked_mul(i),
            IntegerTransitions::Div(i) => s.checked_div(i),
        };
        if let Some(v) = r {
            *s = v;
        }
    }

    fn encode(t: &IntegerTransitions<i16>) -> (r: Vec<u8>) {
        let v = match *t {
            IntegerTransitions::Assign(i) => i,
            IntegerTransitions::Add(i) => i,
            IntegerTransitions::Sub(i) => i,
            IntegerTransitions::Mul(i) => i,
            IntegerTransitions::Div(i) => i,
        };
        encode_tagged(code(t), v as i128)
    }

    fn decode(b: &[u8]) -> (r: Option<IntegerTransitions<i16>>) {
        proof {
            if exists|t: IntegerTransitions<i16>| Self::encoding(t) == b@ {
                let t = choose|t: IntegerTransitions<i16>| Self::encoding(t) == b@;
                assert(in_wide_range(operand(t) as int));
                assert(tagged(code_of(t), operand(t) as int) == b@);
            }
        }
        match decode_tagged(b) {
            Some((k, v)) => {
                if i16::MIN as i128 <= v && v <= i16::MAX as i128 {
                    Some(build(k, v as i16))
                } else {
                    None
                }
            },
            None => None,
        }
    }

    proof fn lemma_encoding_injective(a: IntegerTransitions<i16>, b: IntegerTransitions<i16>) {
        lemma_tagged_injective(code_of(a), operand(a) as int, code_of(b), operand(b) as int);
        lemma_parts_determine(a, b);
    }

    proof fn lemma_encoding_single_line(t: IntegerTransitions<i16>) {
        lemma_tagged_single_line(code_of(t), operand(t) as int);
    }
}

impl AppendOnly for i32 {
    type Transition = IntegerTransitions<i32>;

    open spec fn initial_value() -> i32 {
        0
    }

    open spec fn next(s: i32, t: IntegerTransitions<i32>) -> Option<i32> {
        match t {
            IntegerTransitions::Assign(i) => Some(i),
            IntegerTransitions::Add(i) => s.checked_add(i),
            IntegerTransitions::Sub(i) => s.checked_sub(i),
            IntegerTransitions::Mul(i) => s.checked_mul(i),
            IntegerTransitions::Div(i) => s.checked_div(i),
        }
    }

    open spec fn encoding(t: IntegerTransitions<i32>) -> Seq<u8> {
        tagged(code_of(t), operand(t) as int)
    }

    fn initial() -> (r: i32) {
        0
    }

    fn admissible(s: &i32, t: &IntegerTransitions<i32>) -> (r: bool) {
        match *t {
            IntegerTransitions::Assign(_) => true,
            IntegerTransitions::Add(i) => s.checked_add(i).is_some(),
            IntegerTransitions::Sub(i) => s.checked_sub(i).is_some(),
            IntegerTransitions::Mul(i) => s.checked_mul(i).is_some(),
            IntegerTransitions::Div(i) => s.checked_div(i).is_some(),
        }
    }

    fn update(s: &mut i32, t: IntegerTransitions<i32>) {
        let r = match t {
            IntegerTransitions::Assign(i) => Some(i),
            IntegerTransitions::Add(i) => s.checked_add(i),
            IntegerTransitions::Sub(i) => s.checked_sub(i),
            IntegerTransitions::Mul(i) => s.checked_mul(i),
            IntegerTransitions::Div(i) => s.checked_div(i),
        };
        if let Some(v) = r {
            *s = v;
        }
    }

    fn encode(t: &IntegerTransitions<i32>) -> (r: Vec<u8>) {
        let v = match *t {
            IntegerTransitions::Assign(i) => i,
            IntegerTransitions::Add(i) => i,
            IntegerTransitions::Sub(i) => i,
            IntegerTransitions::Mul(i) => i,
            IntegerTransitions::Div(i) => i,
        };
        encode_tagged(code(t), v as i128)
    }

    fn decode(b: &[u8]) -> (r: Option<IntegerTransitions<i32>>) {
        proof {
            if exists|t: IntegerTransitions<i32>| Self::encoding(t) == b@ {
                let t = choose|t: IntegerTransitions<i32>| Self::encoding(t) == b@;
                assert(in_wide_range(operand(t) as int));
                assert(tagged(code_of(t), operand(t) as int) == b@);
            }
        }
        match decode_tagged(b) {
            Some((k, v)) => {
                if i32::MIN as i128 <= v && v <= i32::MAX as i128 {
                    Some(build(k, v as i32))
                } else {
                    None
                }
            },
            None => None,
        }
    }

    proof fn lemma_encoding_injective(a: IntegerTransitions<i32>, b: IntegerTransitions<i32>) {
        lemma_tagged_injective(code_of(a), operand(a) as int, code_of(b), operand(b) as int);
        lemma_parts_determine(a, b);
    }

    proof fn lemma_encoding_single_line(t: IntegerTransitions<i32>) {
        lemma_tagged_single_line(code_of(t), operand(t) as int);
    }
}

impl AppendOnly for i64 {
    type Transition = IntegerTransitions<i64>;

    open spec fn initial_value() -> i64 {
        0
    }

    open spec fn next(s: i64, t: IntegerTransitions<i64>) -> Option<i64> {
        match t {
            IntegerTransitions::Assign(i) => Some(i),
            IntegerTransitions::Add(i) => s.checked_add(i),
            IntegerTransitions::Sub(i) => s.checked_sub(i),
            IntegerTransitions::Mul(i) => s.checked_mul(i),
            IntegerTransitions::Div(i) => s.checked_div(i),
        }
    }

    open spec fn encoding(t: IntegerTransitions<i64>) -> Seq<u8> {
        tagged(code_of(t), operand(t) as int)
    }

    fn initial() -> (r: i64) {
        0
    }

    fn admissible(s: &i64, t: &IntegerTransitions<i64>) -> (r: bool) {
        match *t {
            IntegerTransitions::Assign(_) => true,
            IntegerTransitions::Add(i) => s.checked_add(i).is_some(),
            IntegerTransitions::Sub(i) => s.checked_sub(i).is_some(),
            IntegerTransitions::Mul(i) => s.checked_mul(i).is_some(),
            IntegerTransitions::Div(i) => s.checked_div(i).is_some(),
        }
    }

    fn update(s: &mut i64, t: IntegerTransitions<i64>) {
        let r = match t {
            IntegerTransitions::Assign(i) => Some(i),
            IntegerTransitions::Add(i) => s.checked_add(i),
            IntegerTransitions::Sub(i) => s.checked_sub(i),
            IntegerTransitions::Mul(i) => s.checked_mul(i),
            IntegerTransitions::Div(i) => s.checked_div(i),
        };
        if let Some(v) = r {
            *s = v;
        }
    }

    fn encode(t: &IntegerTransitions<i64>) -> (r: Vec<u8>) {
        let v = match *t {
            IntegerTransitions::Assign(i) => i,
            IntegerTransitions::Add(i) => i,
            IntegerTransitions::Sub(i) => i,
            IntegerTransitions::Mul(i) => i,
            IntegerTransitions::Div(i) => i,
        };
        encode_tagged(code(t), v as i128)
    }

    fn decode(b: &[u8]) -> (r: Option<IntegerTransitions<i64>>) {
        proof {
            if exists|t: IntegerTransitions<i64>| Self::encoding(t) == b@ {
                let t = choose|t: IntegerTransitions<i64>| Self::encoding(t) == b@;
                assert(in_wide_range(operand(t) as int));
                assert(tagged(code_of(t), operand(t) as int) == b@);
            }
        }
        match decode_tagged(b) {
            Some((k, v)) => {
                if i64::MIN as i128 <= v && v <= i64::MAX as i128 {
                    Some(build(k, v as i64))
                } else {
                    None
                }
            },
            None => None,
        }
    }

    proof fn lemma_encoding_injective(a: IntegerTransitions<i64>, b: IntegerTransitions<i64>) {
        lemma_tagged_injective(code_of(a), operand(a) as int, code_of(b), operand(b) as int);
        lemma_parts_determine(a, b);
    }

    proof fn lemma_encoding_single_line(t: IntegerTransitions<i64>) {
        lemma_tagged_single_line(code_of(t), operand(t) as int);
    }
}

impl AppendOnly for isize {
    type Transition = IntegerTransitions<isize>;

    open spec fn initial_value() -> isize {
        0
    }

    open spec fn next(s: isize, t: IntegerTransitions<isize>) -> Option<isize> {
        match t {
            IntegerTransitions::Assign(i) => Some(i),
            IntegerTransitions::Add(i) => s.checked_add(i),
            IntegerTransitions::Sub(i) => s.checked_sub(i),
            IntegerTransitions::Mul(i) => s.checked_mul(i),
            IntegerTransitions::Div(i) => s.checked_div(i),
        }
    }

    open spec fn encoding(t: IntegerTransitions<isize>) -> Seq<u8> {
        tagged(code_of(t), operand(t) as int)
    }

    fn initial() -> (r: isize) {
        0
    }

    fn admissible(s: &isize, t: &IntegerTransitions<isize>) -> (r: bool) {
        match *t {
            IntegerTransitions::Assign(_) => true,
            IntegerTransitions::Add(i) => s.checked_add(i).is_some(),
            IntegerTransitions::Sub(i) => s.checked_sub(i).is_some(),
            IntegerTransitions::Mul(i) => s.checked_mul(i).is_some(),
            IntegerTransitions::Div(i) => s.checked_div(i).is_some(),
        }
    }

    fn update(s: &mut isize, t: IntegerTransitions<isize>) {
        let r = match t {
            IntegerTransitions::Assign(i) => Some(i),
            IntegerTransitions::Add(i) => s.checked_add(i),
            IntegerTransitions::Sub(i) => s.checked_sub(i),
            IntegerTransitions::Mul(i) => s.checked_mul(i),
            IntegerTransitions::Div(i) => s.checked_div(i),
        };
        if let Some(v) = r {
            *s = v;
        }
    }

    fn encode(t: &IntegerTransitions<isize>) -> (r: Vec<u8>) {
        let v = match *t {
            IntegerTransitions::Assign(i) => i,
            IntegerTransitions::Add(i) => i,
            IntegerTransitions::Sub(i) => i,
            IntegerTransitions::Mul(i) => i,
            IntegerTransitions::Div(i) => i,
        };
        encode_tagged(code(t), v as i128)
    }

    fn decode(b: &[u8]) -> (r: Option<IntegerTransitions<isize>>) {
        proof {
            if exists|t: IntegerTransitions<isize>| Self::encoding(t) == b@ {
                let t = choose|t: IntegerTransitions<isize>| Self::encoding(t) == b@;
                assert(in_wide_range(operand(t) as int));
                assert(tagged(code_of(t), operand(t) as int) == b@);
            }
        }
        match decode_tagged(b) {
            Some((k, v)) => {
                if isize::MIN as i128 <= v && v <= isize::MAX as i128 {
                    Some(build(k, v as isize))
                } else {
                    None
                }
            },
            None => None,
        }
    }

    proof fn lemma_encoding_injective(a: IntegerTransitions<isize>, b: IntegerTransitions<isize>) {
        lemma_tagged_injective(code_of(a), operand(a) as int, code_of(b), operand(b) as int);
        lemma_parts_determine(a, b);
    }

    proof fn lemma_encoding_single_line(t: IntegerTransitions<isize>) {
        lemma_tagged_single_line(code_of(t), operand(t) as int);
    }
}

} // verus!
