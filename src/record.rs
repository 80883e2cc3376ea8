//! The shape of one log record: `{"tm":"<time>","ts":<transition>}` and a line break.
use vstd::prelude::*;
use crate::contract::AppendOnly;
use crate::decimal::is_digit;

verus! {

pub const NEWLINE: u8 = 10;

pub const QUOTE: u8 = 34;

pub const CLOSE_BRACE: u8 = 125;

/// A byte that the UTC time text of a record may hold: a digit or one of `-+:T.Z`.
pub open spec fn stamp_byte(b: u8) -> bool {
    is_digit(b) || b == 45 || b == 43 || b == 58 || b == 84 || b == 46 || b == 90
}

pub open spec fn digits_at(s: Seq<u8>, a: int, b: int) -> bool {
    forall|i: int| a <= i < b ==> is_digit(#[trigger] s[i])
}

/// The RFC 3339 UTC shape, with the clock part starting at byte `s.len() - 16 - f`
/// and a fraction of `f` bytes, dot included:
/// `YYYY-MM-DDTHH:MM:SS[.d…]Z`, where a year outside 0..9999 is a sign and
/// four or more digits, and the fraction holds one to nine digits.
pub open spec fn stamp_split(s: Seq<u8>, f: int) -> bool {
    let n = s.len() as int;
    let c = n - 16 - f;
    &&& 0 <= f <= 10
    &&& c >= 4
    &&& s[n - 1] == 90
    &&& (f == 0 || (2 <= f && s[n - 1 - f] == 46 && digits_at(s, n - f, n - 1)))
    &&& s[c] == 45 && digits_at(s, c + 1, c + 3)
    &&& s[c + 3] == 45 && digits_at(s, c + 4, c + 6)
    &&& s[c + 6] == 84 && digits_at(s, c + 7, c + 9)
    &&& s[c + 9] == 58 && digits_at(s, c + 10, c + 12)
    &&& s[c + 12] == 58 && digits_at(s, c + 13, c + 15)
    &&& ((c == 4 && digits_at(s, 0, 4)) || (c >= 5 && (s[0] == 43 || s[0] == 45) && digits_at(s, 1, c)))
}

/// A UTC time in RFC 3339 text, as chrono writes it.
pub open spec fn valid_stamp(s: Seq<u8>) -> bool {
    exists|f: int| stamp_split(s, f)
}

/// A time text holds only digits and `-+:T.Z`.
pub proof fn lemma_stamp_bytes(s: Seq<u8>)
    requires
        valid_stamp(s),
    ensures
        forall|i: int| 0 <= i < s.len() ==> stamp_byte(#[trigger] s[i]),
{
    let f = choose|f: int| stamp_split(s, f);
    let n = s.len() as int;
    let c = n - 16 - f;
    assert forall|i: int| 0 <= i < s.len() implies stamp_byte(#[trigger] s[i]) by {
        if i == 0 {
        } else if i < c {
        } else if i < c + 15 {
            if i == c || i == c + 3 || i == c + 6 || i == c + 9 || i == c + 12 {
            } else if i < c + 3 {
                assert(digits_at(s, c + 1, c + 3));
            } else if i < c + 6 {
                assert(digits_at(s, c + 4, c + 6));
            } else if i < c + 9 {
                assert(digits_at(s, c + 7, c + 9));
            } else if i < c + 12 {
                assert(digits_at(s, c + 10, c + 12));
            } else {
                assert(digits_at(s, c + 13, c + 15));
            }
        } else if i < n - 1 {
            if i > n - 1 - f {
                assert(digits_at(s, n - f, n - 1));
            }
        }
    }
}

fn digits_in(s: &[u8], a: usize, b: usize) -> (r: bool)
    requires
        a <= b <= s.len(),
    ensures
        r == digits_at(s@, a as int, b as int),
{
    let mut i: usize = a;
    while i < b
        invariant
            a <= i <= b <= s.len(),
            digits_at(s@, a as int, i as int),
        decreases b - i,
    {
        if s[i] < 48 || s[i] > 57 {
            return false;
        }
        i = i + 1;
    }
    true
}

fn check_split(s: &[u8], f: usize) -> (r: bool)
    requires
        f <= 10,
    ensures
        r == stamp_split(s@, f as int),
{
    let n = s.len();
    if n < 20 + f {
        return false;
    }
    let c = n - 16 - f;
    if s[n - 1] != 90 {
        return false;
    }
    if f != 0 && (f < 2 || s[n - 1 - f] != 46 || !digits_in(s, n - f, n - 1)) {
        return false;
    }
    if s[c] != 45 || !digits_in(s, c + 1, c + 3) || s[c + 3] != 45 || !digits_in(s, c + 4, c + 6) {
        return false;
    }
    if s[c + 6] != 84 || !digits_in(s, c + 7, c + 9) || s[c + 9] != 58 || !digits_in(s, c + 10, c + 12) {
        return false;
    }
    if s[c + 12] != 58 || !digits_in(s, c + 13, c + 15) {
        return false;
    }
    if c == 4 {
        digits_in(s, 0, 4)
    } else {
        (s[0] == 43 || s[0] == 45) && digits_in(s, 1, c)
    }
}

/// Whether `s` is a UTC time in RFC 3339 text.
pub fn is_valid_stamp(s: &[u8]) -> (r: bool)
    ensures
        r == valid_stamp(s@),
{
    let mut f: usize = 0;
    while f <= 10
        invariant
            f <= 11,
            forall|g: int| 0 <= g < f ==> !stamp_split(s@, g),
        decreases 11 - f,
    {
        if check_split(s, f) {
            return true;
        }
        f = f + 1;
    }
    assert forall|g: int| !stamp_split(s@, g) by {
        if 0 <= g < 11 {
        }
    }
    false
}

/// `{"tm":"`
pub open spec fn record_head() -> Seq<u8> {
    seq![123u8, 34, 116, 109, 34, 58, 34]
}

/// `","ts":`
pub open spec fn record_mid() -> Seq<u8> {
    seq![34u8, 44, 34, 116, 115, 34, 58]
}

/// A record without its line break, from the time text and the transition's bytes.
pub open spec fn record_bytes(stamp: Seq<u8>, enc: Seq<u8>) -> Seq<u8> {
    record_head() + stamp + record_mid() + enc + seq![CLOSE_BRACE]
}

/// The line that is appended to the log for `t` at the time `stamp`.
pub open spec fn event_line<A: AppendOnly>(stamp: Seq<u8>, t: A::Transition) -> Seq<u8> {
    record_bytes(stamp, A::encoding(t)).push(NEWLINE)
}

/// `line` is a record of the time text `stamp` and the transition bytes `enc`.
pub open spec fn is_record(line: Seq<u8>, stamp: Seq<u8>, enc: Seq<u8>) -> bool {
    valid_stamp(stamp) && line == record_bytes(stamp, enc)
}

pub open spec fn is_record_of<A: AppendOnly>(line: Seq<u8>, stamp: Seq<u8>, t: A::Transition) -> bool {
    is_record(line, stamp, A::encoding(t))
}

/// The transition that a line (without its line break) records, if it is a record.
pub open spec fn line_transition<A: AppendOnly>(line: Seq<u8>) -> Option<A::Transition> {
    if exists|stamp: Seq<u8>, t: A::Transition| is_record_of::<A>(line, stamp, t) {
        let (stamp, t) = choose|stamp: Seq<u8>, t: A::Transition| is_record_of::<A>(line, stamp, t);
        Some(t)
    } else {
        None
    }
}

/// A record has one reading: its time text and transition bytes are fixed by its bytes.
pub proof fn lemma_record_unique(s1: Seq<u8>, e1: Seq<u8>, s2: Seq<u8>, e2: Seq<u8>)
    requires
        valid_stamp(s1),
        valid_stamp(s2),
        record_bytes(s1, e1) == record_bytes(s2, e2),
    ensures
        s1 == s2,
        e1 == e2,
{
    let l = record_bytes(s1, e1);
    lemma_stamp_bytes(s1);
    lemma_stamp_bytes(s2);
    assert(l[7 + s1.len() as int] == QUOTE);
    assert(record_bytes(s2, e2)[7 + s2.len() as int] == QUOTE);
    if s1.len() < s2.len() {
        assert(l[7 + s1.len() as int] == s2[s1.len() as int]);
        assert(stamp_byte(s2[s1.len() as int]));
    }
    if s2.len() < s1.len() {
        assert(l[7 + s2.len() as int] == s1[s2.len() as int]);
        assert(stamp_byte(s1[s2.len() as int]));
    }
    assert(s1 =~= l.subrange(7, 7 + s1.len() as int));
    assert(s2 =~= l.subrange(7, 7 + s2.len() as int));
    assert(e1 =~= l.subrange(14 + s1.len() as int, l.len() - 1));
    assert(e2 =~= l.subrange(14 + s2.len() as int, l.len() - 1));
}

/// The line of an event holds exactly one line break, at its end.
pub proof fn lemma_event_line_shape<A: AppendOnly>(stamp: Seq<u8>, t: A::Transition)
    requires
        valid_stamp(stamp),
    ensures
        event_line::<A>(stamp, t).last() == NEWLINE,
        forall|i: int| 0 <= i < event_line::<A>(stamp, t).len() - 1 ==> #[trigger] event_line::<A>(stamp, t)[i] != NEWLINE,
        line_transition::<A>(record_bytes(stamp, A::encoding(t))) == Some(t),
{
    let enc = A::encoding(t);
    let l = event_line::<A>(stamp, t);
    A::lemma_encoding_single_line(t);
    lemma_stamp_bytes(stamp);
    assert forall|i: int| 0 <= i < l.len() - 1 implies #[trigger] l[i] != NEWLINE by {
        if 7 <= i < 7 + stamp.len() as int {
            assert(l[i] == stamp[i - 7]);
            assert(stamp_byte(stamp[i - 7]));
        } else if 14 + stamp.len() as int <= i < 14 + stamp.len() as int + enc.len() as int {
            assert(l[i] == enc[i - 14 - stamp.len()]);
        }
    }
    let line = record_bytes(stamp, enc);
    assert(is_record_of::<A>(line, stamp, t));
    let (s2, t2) = choose|s2: Seq<u8>, t2: A::Transition| is_record_of::<A>(line, s2, t2);
    lemma_record_unique(stamp, enc, s2, A::encoding(t2));
    A::lemma_encoding_injective(t, t2);
}

fn record_head_bytes() -> (r: Vec<u8>)
    ensures
        r@ == record_head(),
{
    let r: Vec<u8> = vec![123u8, 34, 116, 109, 34, 58, 34];
    assert(r@ =~= record_head());
    r
}

fn record_mid_bytes() -> (r: Vec<u8>)
    ensures
        r@ == record_mid(),
{
    let r: Vec<u8> = vec![34u8, 44, 34, 116, 115, 34, 58];
    assert(r@ =~= record_mid());
    r
}

/// The line that records `t` at the time `stamp`, line break included.
pub fn event_record<A: AppendOnly>(stamp: &[u8], t: &A::Transition) -> (r: Vec<u8>)
    ensures
        r@ == event_line::<A>(stamp@, *t),
{
    let mut r = record_head_bytes();
    r.extend_from_slice(stamp);
    let mid = record_mid_bytes();
    r.extend_from_slice(mid.as_slice());
    let enc = A::encode(t);
    r.extend_from_slice(enc.as_slice());
    r.push(CLOSE_BRACE);
    r.push(NEWLINE);
    assert(r@ =~= event_line::<A>(stamp@, *t));
    r
}

pub fn is_stamp_byte(b: u8) -> (r: bool)
    ensures
        r == stamp_byte(b),
{
    (48 <= b && b <= 57) || b == 45 || b == 43 || b == 58 || b == 84 || b == 46 || b == 90
}

fn matches_at(line: &[u8], at: usize, pat: &[u8]) -> (r: bool)
    requires
        at + pat.len() <= line.len(),
    ensures
        r == (line@.subrange(at as int, at + pat.len()) == pat@),
{
    let mut i: usize = 0;
    while i < pat.len()
        invariant
            at + pat.len() <= line.len(),
            i <= pat.len(),
            line@.subrange(at as int, at + i) == pat@.subrange(0, i as int),
        decreases pat.len() - i,
    {
        if line[at + i] != pat[i] {
            assert(line@.subrange(at as int, at + pat.len())[i as int] != pat@[i as int]);
            return false;
        }
        assert(line@.subrange(at as int, at + i + 1) =~= line@.subrange(at as int, at + i).push(line@[at + i]));
        assert(pat@.subrange(0, i + 1) =~= pat@.subrange(0, i as int).push(pat@[i as int]));
        i = i + 1;
    }
    assert(pat@ =~= pat@.subrange(0, pat.len() as int));
    true
}

proof fn lemma_record_parts(l: Seq<u8>, st: Seq<u8>, en: Seq<u8>)
    requires
        is_record(l, st, en),
    ensures
        l.len() >= 15 + st.len() + en.len() - 1,
        l.subrange(0, 7) == record_head(),
        l[7 + st.len() as int] == QUOTE,
        forall|k: int| 7 <= k < 7 + st.len() as int ==> #[trigger] l[k] == st[k - 7],
        l.subrange(7 + st.len() as int, 14 + st.len() as int) == record_mid(),
        l.subrange(14 + st.len() as int, l.len() - 1) == en,
        l.last() == CLOSE_BRACE,
{
    assert(l.subrange(0, 7) =~= record_head());
    assert(l.subrange(7 + st.len() as int, 14 + st.len() as int) =~= record_mid());
    assert(l.subrange(14 + st.len() as int, l.len() - 1) =~= en);
}

/// The time text of a record whose transition bytes are `enc`.
pub open spec fn stamp_of(line: Seq<u8>, enc: Seq<u8>) -> Seq<u8> {
    line.subrange(7, line.len() - 8 - enc.len())
}

proof fn lemma_record_reading(l: Seq<u8>, stamp: Seq<u8>, enc: Seq<u8>)
    requires
        is_record(l, stamp, enc),
    ensures
        stamp_of(l, enc) == stamp,
        forall|st: Seq<u8>, en: Seq<u8>| is_record(l, st, en) ==> en == enc,
{
    assert forall|st: Seq<u8>, en: Seq<u8>| is_record(l, st, en) implies en == enc by {
        lemma_record_unique(stamp, enc, st, en);
    }
    assert(stamp_of(l, enc) =~= stamp);
}

/// Takes a record apart: the bytes of its transition.
fn split_record(line: &[u8]) -> (r: Option<Vec<u8>>)
    ensures
        r matches Some(e) ==> is_record(line@, stamp_of(line@, e@), e@),
        forall|stamp: Seq<u8>, enc: Seq<u8>| is_record(line@, stamp, enc) ==> (r matches Some(e) && e@ == enc),
{
    let ghost target: Option<(Seq<u8>, Seq<u8>)> = if exists|stamp: Seq<u8>, enc: Seq<u8>| is_record(line@, stamp, enc) {
        Some(choose|stamp: Seq<u8>, enc: Seq<u8>| is_record(line@, stamp, enc))
    } else {
        None
    };
    let n = line.len();
    let head = record_head_bytes();
    let mid = record_mid_bytes();
    proof {
        if let Some((st, en)) = target {
            lemma_record_parts(line@, st, en);
        }
    }
    if n < 15 || !matches_at(line, 0, head.as_slice()) {
        return None;
    }
    let mut j: usize = 7;
    while j < n && line[j] != QUOTE
        invariant
            7 <= j <= n,
            n == line.len(),
            forall|k: int| 7 <= k < j ==> stamp_byte(#[trigger] line@[k]),
            (exists|stamp: Seq<u8>, enc: Seq<u8>| is_record(line@, stamp, enc)) ==> target is Some,
            target matches Some((st, en)) ==> j <= 7 + st.len() as int && line@[7 + st.len() as int] == QUOTE
                && (forall|k: int| 7 <= k < 7 + st.len() as int ==> #[trigger] line@[k] == st[k - 7]) && valid_stamp(st)
                && 7 + st.len() < n,
        decreases n - j,
    {
        if !is_stamp_byte(line[j]) {
            proof {
                if let Some((st, en)) = target {
                    assert(line@[j as int] == st[j - 7]);
                    lemma_stamp_bytes(st);
                    assert(stamp_byte(st[j - 7]));
                }
            }
            return None;
        }
        proof {
            if let Some((st, en)) = target {
                if j == 7 + st.len() {
                    assert(line@[j as int] == QUOTE);
                }
            }
        }
        j = j + 1;
    }
    proof {
        if let Some((st, en)) = target {
            if j < 7 + st.len() {
                assert(line@[j as int] == st[j - 7]);
                lemma_stamp_bytes(st);
                assert(stamp_byte(st[j - 7]));
            }
        }
    }
    if n - j < 8 || !matches_at(line, j, mid.as_slice()) || line[n - 1] != CLOSE_BRACE {
        return None;
    }
    let mut stamp: Vec<u8> = Vec::new();
    let mut k: usize = 7;
    while k < j
        invariant
            7 <= k <= j <= n,
            n == line.len(),
            stamp@ == line@.subrange(7, k as int),
        decreases j - k,
    {
        stamp.push(line[k]);
        assert(stamp@ =~= line@.subrange(7, k + 1));
        k = k + 1;
    }
    proof {
        if let Some((st, en)) = target {
            assert(st =~= stamp@);
        }
    }
    if !is_valid_stamp(stamp.as_slice()) {
        return None;
    }
    let mut enc: Vec<u8> = Vec::new();
    let mut k: usize = j + 7;
    while k < n - 1
        invariant
            n - j >= 8,
            n == line.len(),
            j + 7 <= k <= n - 1,
            enc@ == line@.subrange(j + 7, k as int),
        decreases n - 1 - k,
    {
        enc.push(line[k]);
        assert(enc@ =~= line@.subrange(j + 7, k + 1));
        k = k + 1;
    }
    proof {
        assert(line@ =~= record_bytes(stamp@, enc@));
        lemma_record_reading(line@, stamp@, enc@);
    }
    Some(enc)
}

/// Reads the transition that a line (without its line break) records.
pub fn parse_record<A: AppendOnly>(line: &[u8]) -> (r: Option<A::Transition>)
    ensures
        r == line_transition::<A>(line@),
{
    let ghost target: Option<(Seq<u8>, A::Transition)> = if exists|stamp: Seq<u8>, t: A::Transition| is_record_of::<A>(line@, stamp, t) {
        Some(choose|stamp: Seq<u8>, t: A::Transition| is_record_of::<A>(line@, stamp, t))
    } else {
        None
    };
    proof {
        if let Some((st, t)) = target {
            assert(is_record(line@, st, A::encoding(t)));
        }
    }
    match split_record(line) {
        None => None,
        Some(enc) => {
            let r = A::decode(enc.as_slice());
            proof {
                let stamp = stamp_of(line@, enc@);
                if r is Some {
                    let t = r->0;
                    assert(is_record_of::<A>(line@, stamp, t));
                    let (s2, t2) = target->0;
                    lemma_record_unique(stamp, A::encoding(t), s2, A::encoding(t2));
                    A::lemma_encoding_injective(t, t2);
                } else if let Some((st, t)) = target {
                    lemma_record_unique(stamp, enc@, st, A::encoding(t));
                }
            }
            r
        },
    }
}

} // verus!
