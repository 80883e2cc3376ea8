//! A state kept in memory and rebuilt from its log: replay and apply.
use vstd::prelude::*;
use crate::clock::now_stamp;
use crate::contract::{AppendOnly, LogSink, WriteError};
use crate::record::{event_line, event_record, lemma_event_line_shape, line_transition, parse_record, record_bytes, valid_stamp, NEWLINE};

verus! {

/// Why a log could not be replayed.
#[derive(Debug, PartialEq, Eq, Structural)]
pub enum ReplayError {
    /// A line is not a record of a transition of the state type.
    Malformed,
    /// A record holds a transition that cannot be folded into the state reached so far.
    Rejected,
}

/// How many bytes the line that starts at `from` holds before its line break
/// (or before the end of `b`).
pub open spec fn line_offset(b: Seq<u8>, from: int) -> nat
    decreases b.len() - from,
{
    if from < 0 || from >= b.len() || b[from] == NEWLINE {
        0
    } else {
        1 + line_offset(b, from + 1)
    }
}

/// Space, tab or carriage return: the bytes that may stand between records
/// besides line breaks.
pub open spec fn is_space(c: u8) -> bool {
    c == 32 || c == 9 || c == 13
}

/// A line that holds only spaces: it stands for no record and is passed over.
pub open spec fn blank(line: Seq<u8>) -> bool {
    forall|i: int| 0 <= i < line.len() ==> is_space(#[trigger] line[i])
}

/// The state reached by folding, into `s`, the records of `b` from byte `from`
/// on, passing over blank lines.
pub open spec fn replay_from<A: AppendOnly>(b: Seq<u8>, from: int, s: A) -> Result<A, ReplayError>
    decreases b.len() + 1 - from,
    via replay_from_decreases::<A>
{
    if from < 0 || from >= b.len() {
        Ok(s)
    } else {
        let e = from + line_offset(b, from);
        if blank(b.subrange(from, e)) {
            replay_from(b, e + 1, s)
        } else {
            match line_transition::<A>(b.subrange(from, e)) {
            None => Err(ReplayError::Malformed),
            Some(t) => match A::next(s, t) {
                None => Err(ReplayError::Rejected),
                Some(s2) => replay_from(b, e + 1, s2),
            },
            }
        }
    }
}

pub proof fn lemma_line_offset_bound(b: Seq<u8>, from: int)
    requires
        0 <= from <= b.len(),
    ensures
        from + line_offset(b, from) <= b.len(),
        from + line_offset(b, from) < b.len() ==> b[from + line_offset(b, from)] == NEWLINE,
        forall|i: int| from <= i < from + line_offset(b, from) ==> #[trigger] b[i] != NEWLINE,
    decreases b.len() - from,
{
    if from < b.len() && b[from] != NEWLINE {
        lemma_line_offset_bound(b, from + 1);
    }
}

#[via_fn]
proof fn replay_from_decreases<A: AppendOnly>(b: Seq<u8>, from: int, s: A) {
    if 0 <= from < b.len() {
        lemma_line_offset_bound(b, from);
    }
}

/// The state that a whole log rebuilds, from the initial value.
pub open spec fn replay<A: AppendOnly>(b: Seq<u8>) -> Result<A, ReplayError> {
    replay_from(b, 0, A::initial_value())
}

/// The state reached by folding `ts` into `s` in order, if every fold is defined.
pub open spec fn fold<A: AppendOnly>(s: A, ts: Seq<A::Transition>) -> Option<A>
    decreases ts.len(),
{
    if ts.len() == 0 {
        Some(s)
    } else {
        match fold(s, ts.drop_last()) {
            Some(s1) => A::next(s1, ts.last()),
            None => None,
        }
    }
}

/// The log that applying `ts` in order writes, record `i` stamped with `stamps[i]`.
pub open spec fn log_of<A: AppendOnly>(stamps: Seq<Seq<u8>>, ts: Seq<A::Transition>) -> Seq<u8>
    decreases ts.len(),
{
    if ts.len() == 0 || stamps.len() != ts.len() {
        Seq::empty()
    } else {
        log_of::<A>(stamps.drop_last(), ts.drop_last()) + event_line::<A>(stamps.last(), ts.last())
    }
}

proof fn lemma_line_offset_at(b: Seq<u8>, from: int, j: int)
    requires
        0 <= from <= j < b.len(),
        b[j] == NEWLINE,
        forall|i: int| from <= i < j ==> b[i] != NEWLINE,
    ensures
        line_offset(b, from) == j - from,
{
    lemma_line_offset_bound(b, from);
    let o = line_offset(b, from) as int;
    if o < j - from {
        assert(b[from + o] == NEWLINE);
    } else if o > j - from {
        assert(b[j] != NEWLINE);
    }
}

proof fn lemma_line_offset_shift(p: Seq<u8>, q: Seq<u8>, i: int)
    requires
        0 <= i,
    ensures
        line_offset(p + q, p.len() + i) == line_offset(q, i),
    decreases q.len() - i,
{
    if i < q.len() {
        assert((p + q)[p.len() + i] == q[i]);
        lemma_line_offset_shift(p, q, i + 1);
    }
}

proof fn lemma_replay_shift<A: AppendOnly>(p: Seq<u8>, q: Seq<u8>, i: int, s: A)
    requires
        0 <= i,
    ensures
        replay_from(p + q, p.len() + i, s) == replay_from(q, i, s),
    decreases q.len() + 1 - i,
{
    if i < q.len() {
        lemma_line_offset_shift(p, q, i);
        lemma_line_offset_bound(q, i);
        let e = i + line_offset(q, i);
        assert((p + q).subrange(p.len() + i, p.len() + e) =~= q.subrange(i, e));
        if blank(q.subrange(i, e)) {
            lemma_replay_shift(p, q, e + 1, s);
        }
        match line_transition::<A>(q.subrange(i, e)) {
            Some(t) => match A::next(s, t) {
                Some(s2) => {
                    lemma_replay_shift(p, q, e + 1, s2);
                },
                None => {},
            },
            None => {},
        }
    }
}

proof fn lemma_line_offset_prefix(p: Seq<u8>, q: Seq<u8>, from: int)
    requires
        0 <= from < p.len(),
        p.last() == NEWLINE,
    ensures
        from + line_offset(p, from) < p.len(),
        line_offset(p + q, from) == line_offset(p, from),
    decreases p.len() - from,
{
    assert((p + q)[from] == p[from]);
    if p[from] != NEWLINE {
        lemma_line_offset_prefix(p, q, from + 1);
    }
}

/// Replaying two logs one after the other, the first ending with a line
/// break, is replaying the second from the state that the first reaches.
pub proof fn lemma_replay_concat<A: AppendOnly>(p: Seq<u8>, q: Seq<u8>, from: int, s: A)
    requires
        0 <= from <= p.len(),
        p.len() == 0 || p.last() == NEWLINE,
    ensures
        replay_from(p + q, from, s) == match replay_from(p, from, s) {
            Ok(s1) => replay_from(q, 0, s1),
            Err(e) => Err(e),
        },
    decreases p.len() - from,
{
    if from == p.len() {
        lemma_replay_shift(p, q, 0, s);
    } else {
        lemma_line_offset_prefix(p, q, from);
        let e = from + line_offset(p, from);
        assert((p + q).subrange(from, e) =~= p.subrange(from, e));
        if blank(p.subrange(from, e)) {
            lemma_replay_concat(p, q, e + 1, s);
        }
        match line_transition::<A>(p.subrange(from, e)) {
            Some(t) => match A::next(s, t) {
                Some(s2) => {
                    lemma_replay_concat(p, q, e + 1, s2);
                },
                None => {},
            },
            None => {},
        }
    }
}

/// Replaying a log with nothing in it folds nothing: the state is the initial value.
pub proof fn lemma_replay_empty<A: AppendOnly>()
    ensures
        replay::<A>(Seq::empty()) == Ok::<A, ReplayError>(A::initial_value()),
{
}

/// Appending the line that `apply` writes for `t` to a log that replays from
/// `start` to `s` gives a log that replays from `start` to `s` with `t` folded in.
pub proof fn lemma_replay_appended<A: AppendOnly>(log: Seq<u8>, start: A, stamp: Seq<u8>, t: A::Transition, s: A)
    requires
        replay_from(log, 0, start) == Ok::<A, ReplayError>(s),
        log.len() == 0 || log.last() == NEWLINE,
        valid_stamp(stamp),
        A::next(s, t) is Some,
    ensures
        replay_from(log + event_line::<A>(stamp, t), 0, start) == Ok::<A, ReplayError>(A::next(s, t).unwrap()),
        (log + event_line::<A>(stamp, t)).last() == NEWLINE,
{
    let l = event_line::<A>(stamp, t);
    let rec = record_bytes(stamp, A::encoding(t));
    lemma_replay_concat(log, l, 0, start);
    lemma_event_line_shape::<A>(stamp, t);
    lemma_line_offset_at(l, 0, rec.len() as int);
    assert(l.subrange(0, rec.len() as int) =~= rec);
    assert(!is_space(rec[0]));
    assert(!blank(rec));
    assert(line_transition::<A>(l.subrange(0, line_offset(l, 0) as int)) == Some(t));
    let s2 = A::next(s, t).unwrap();
    assert(replay_from(l, rec.len() as int + 1, s2) == Ok::<A, ReplayError>(s2));
    assert(replay_from(l, 0, s) == Ok::<A, ReplayError>(s2));
}

/// A log written by applying `ts` in order, one stamped line each, replays
/// with no count or length beside it to the state that folding `ts` into the
/// initial value gives.
pub proof fn lemma_replay_of_applied<A: AppendOnly>(stamps: Seq<Seq<u8>>, ts: Seq<A::Transition>)
    requires
        stamps.len() == ts.len(),
        forall|i: int| 0 <= i < stamps.len() ==> valid_stamp(#[trigger] stamps[i]),
        fold(A::initial_value(), ts) is Some,
    ensures
        replay::<A>(log_of::<A>(stamps, ts)) == Ok::<A, ReplayError>(fold(A::initial_value(), ts).unwrap()),
        log_of::<A>(stamps, ts).len() == 0 || log_of::<A>(stamps, ts).last() == NEWLINE,
    decreases ts.len(),
{
    if ts.len() > 0 {
        let sp = stamps.drop_last();
        let tp = ts.drop_last();
        assert forall|i: int| 0 <= i < sp.len() implies valid_stamp(#[trigger] sp[i]) by {
            assert(sp[i] == stamps[i]);
        }
        lemma_replay_of_applied::<A>(sp, tp);
        let s = fold(A::initial_value(), tp).unwrap();
        assert(valid_stamp(stamps[stamps.len() - 1]));
        lemma_replay_appended::<A>(log_of::<A>(sp, tp), A::initial_value(), stamps.last(), ts.last(), s);
        lemma_event_line_shape::<A>(stamps.last(), ts.last());
    }
}

fn is_blank(line: &[u8]) -> (r: bool)
    ensures
        r == blank(line@),
{
    let mut i: usize = 0;
    while i < line.len()
        invariant
            i <= line.len(),
            forall|k: int| 0 <= k < i ==> is_space(#[trigger] line@[k]),
        decreases line.len() - i,
    {
        let c = line[i];
        if !(c == 32 || c == 9 || c == 13) {
            return false;
        }
        i = i + 1;
    }
    true
}

/// A state kept in memory, each change of which is first appended to a log.
pub struct Database<A, W> {
    state: A,
    writer: W,
    /// The state that the log given at opening rebuilt.
    base: Ghost<A>,
    /// The records that the sink has taken since opening.
    appended: Ghost<Seq<u8>>,
    /// The bytes that the sink held at opening, where it can tell them.
    sink_start: Ghost<Seq<u8>>,
}

impl<A: AppendOnly, W: LogSink> Database<A, W> {
    /// The state held now.
    pub closed spec fn current(&self) -> A {
        self.state
    }

    /// The sink that new records go to.
    pub closed spec fn sink(&self) -> W {
        self.writer
    }

    /// The state that the log given at opening rebuilt.
    pub closed spec fn base(&self) -> A {
        self.base@
    }

    /// The records that the sink has accepted since opening, in order.
    pub closed spec fn appended(&self) -> Seq<u8> {
        self.appended@
    }

    /// The bytes that the sink held at opening, where it can tell them.
    pub closed spec fn sink_start(&self) -> Seq<u8> {
        self.sink_start@
    }

    /// What was appended since opening replays, from the state at opening, to
    /// the state held now, and ends at a record boundary; a sink that can
    /// tell its bytes holds what it held at opening followed by those records.
    pub open spec fn wf(&self) -> bool {
        &&& replay_from(self.appended(), 0, self.base()) == Ok::<A, ReplayError>(self.current())
        &&& (self.appended().len() == 0 || self.appended().last() == NEWLINE)
        &&& (self.sink().contents() is Some ==> self.sink().contents()->0 == self.sink_start() + self.appended())
    }

    /// Opens a database whose state is rebuilt from the log `source`; new
    /// records go to `writer`.
    pub fn new(writer: W, source: &[u8]) -> (r: Result<Self, ReplayError>)
        ensures
            match r {
                Ok(db) => replay::<A>(source@) == Ok::<A, ReplayError>(db.current()) && db.sink() == writer
                    && db.wf() && db.base() == db.current() && db.appended() == Seq::<u8>::empty()
                    && (writer.contents() is Some ==> db.sink_start() == writer.contents()->0),
                Err(e) => replay::<A>(source@) == Err::<A, ReplayError>(e),
            },
            source@.len() == 0 ==> (r matches Ok(db) && db.current() == A::initial_value()),
    {
        let mut db = Database {
            state: A::initial(),
            writer,
            base: Ghost(A::initial_value()),
            appended: Ghost(Seq::empty()),
            sink_start: Ghost(
                match writer.contents() {
                    Some(c) => c,
                    None => Seq::empty(),
                },
            ),
        };
        match db.read(source) {
            Ok(()) => {
                db.base = Ghost(db.state);
                Ok(db)
            },
            Err(e) => Err(e),
        }
    }

    /// Folds every record of `source` into the state, in order.
    fn read(&mut self, source: &[u8]) -> (r: Result<(), ReplayError>)
        ensures
            final(self).writer == old(self).writer,
            final(self).appended == old(self).appended,
            final(self).sink_start == old(self).sink_start,
            match r {
                Ok(()) => replay_from(source@, 0, old(self).state) == Ok::<A, ReplayError>(final(self).state),
                Err(e) => replay_from(source@, 0, old(self).state) == Err::<A, ReplayError>(e),
            },
    {
        let n = source.len();
        let mut pos: usize = 0;
        while pos < n
            invariant
                n == source.len(),
                pos <= n,
                self.writer == old(self).writer,
                self.appended == old(self).appended,
                self.sink_start == old(self).sink_start,
                replay_from(source@, 0, old(self).state) == replay_from(source@, pos as int, self.state),
            decreases n - pos,
        {
            let mut e: usize = pos;
            while e < n && source[e] != NEWLINE
                invariant
                    n == source.len(),
                    pos <= e <= n,
                    pos + line_offset(source@, pos as int) == e + line_offset(source@, e as int),
                decreases n - e,
            {
                e = e + 1;
            }
            let mut line: Vec<u8> = Vec::new();
            let mut k: usize = pos;
            while k < e
                invariant
                    pos <= k <= e <= n,
                    n == source.len(),
                    line@ == source@.subrange(pos as int, k as int),
                decreases e - k,
            {
                line.push(source[k]);
                assert(line@ =~= source@.subrange(pos as int, k + 1));
                k = k + 1;
            }
            proof {
                lemma_line_offset_bound(source@, pos as int);
                assert(e == pos + line_offset(source@, pos as int));
            }
            let ghost before = self.state;
            if !is_blank(line.as_slice()) {
                match parse_record::<A>(line.as_slice()) {
                    None => {
                        return Err(ReplayError::Malformed);
                    },
                    Some(t) => {
                        if !A::admissible(&self.state, &t) {
                            return Err(ReplayError::Rejected);
                        }
                        A::update(&mut self.state, t);
                    },
                }
            }
            assert(replay_from(source@, pos as int, before) == replay_from(source@, e + 1, self.state));
            if e < n {
                pos = e + 1;
            } else {
                pos = e;
            }
        }
        Ok(())
    }

    /// Hands the record of `transition` at the time `stamp` to the sink.
    fn write(&mut self, stamp: &[u8], transition: &A::Transition) -> (r: Result<(), WriteError>)
        ensures
            final(self).state == old(self).state,
            final(self).base == old(self).base,
            final(self).appended == old(self).appended,
            final(self).sink_start == old(self).sink_start,
            final(self).writer.never_fails() == old(self).writer.never_fails(),
            old(self).writer.never_fails() ==> r is Ok,
            final(self).writer.contents() is Some == old(self).writer.contents() is Some,
            old(self).writer.contents() is Some && r is Ok ==> final(self).writer.contents()->0
                == old(self).writer.contents()->0 + event_line::<A>(stamp@, *transition),
            old(self).writer.contents() is Some && r is Err ==> final(self).writer.contents() == old(self).writer.contents(),
    {
        let line = event_record::<A>(stamp, transition);
        self.writer.write_all(line.as_slice())
    }

    /// Appends the record of `transition`, stamped with the time text `stamp`,
    /// and only once the sink has taken it, folds the transition into the state.
    pub fn apply_stamped(&mut self, stamp: &[u8], transition: A::Transition) -> (r: Result<(), WriteError>)
        requires
            old(self).wf(),
            valid_stamp(stamp@),
            A::next(old(self).current(), transition) is Some,
        ensures
            final(self).wf(),
            final(self).base() == old(self).base(),
            final(self).sink_start() == old(self).sink_start(),
            final(self).sink().never_fails() == old(self).sink().never_fails(),
            old(self).sink().never_fails() ==> r is Ok,
            final(self).sink().contents() is Some == old(self).sink().contents() is Some,
            r is Ok ==> A::next(old(self).current(), transition) == Some(final(self).current())
                && final(self).appended() == old(self).appended() + event_line::<A>(stamp@, transition),
            r is Ok && old(self).sink().contents() is Some ==> final(self).sink().contents()->0
                == old(self).sink().contents()->0 + event_line::<A>(stamp@, transition),
            r is Err ==> final(self).current() == old(self).current() && final(self).appended() == old(self).appended()
                && final(self).sink().contents() == old(self).sink().contents(),
    {
        match self.write(stamp, &transition) {
            Ok(()) => {
                proof {
                    lemma_replay_appended::<A>(self.appended@, self.base@, stamp@, transition, self.state);
                }
                let ghost line = event_line::<A>(stamp@, transition);
                A::update(&mut self.state, transition);
                self.appended = Ghost(self.appended@ + line);
                proof {
                    if self.writer.contents() is Some {
                        assert(self.writer.contents()->0 =~= self.sink_start@ + self.appended@);
                    }
                }
                Ok(())
            },
            Err(e) => Err(e),
        }
    }

    /// Appends the record of `transition`, stamped with the current UTC time,
    /// and only once the sink has taken it, folds the transition into the state.
    /// Where the clock gives no such time, nothing is written or changed.
    pub fn apply(&mut self, transition: A::Transition) -> (r: Result<(), WriteError>)
        requires
            old(self).wf(),
            A::next(old(self).current(), transition) is Some,
        ensures
            final(self).wf(),
            final(self).base() == old(self).base(),
            final(self).sink_start() == old(self).sink_start(),
            final(self).sink().contents() is Some == old(self).sink().contents() is Some,
            r is Ok ==> A::next(old(self).current(), transition) == Some(final(self).current())
                && exists|stamp: Seq<u8>| valid_stamp(stamp)
                && final(self).appended() == old(self).appended() + event_line::<A>(stamp, transition)
                && (old(self).sink().contents() is Some ==> final(self).sink().contents()->0
                    == old(self).sink().contents()->0 + event_line::<A>(stamp, transition)),
            r is Err ==> final(self).current() == old(self).current() && final(self).appended() == old(self).appended()
                && final(self).sink().contents() == old(self).sink().contents(),
    {
        match now_stamp() {
            Some(stamp) => self.apply_stamped(stamp.as_slice(), transition),
            None => Err(WriteError::NoClock),
        }
    }

    pub fn state(&self) -> (r: &A)
        ensures
            *r == self.current(),
    {
        &self.state
    }

    pub fn writer(&self) -> (r: &W)
        ensures
            *r == self.sink(),
    {
        &self.writer
    }

    pub fn into_writer(self) -> (r: W)
        ensures
            r == self.sink(),
    {
        self.writer
    }
}

/// Reopening: where the sink can tell its bytes and held, at opening, a log
/// that replays to the state then, its bytes now replay to the state held now.
/// So a database opened on an empty log, with an empty sink, leaves in its sink
/// a log that rebuilds its state.
pub proof fn lemma_reopen<A: AppendOnly, W: LogSink>(db: Database<A, W>)
    requires
        db.wf(),
        db.sink().contents() is Some,
        replay::<A>(db.sink_start()) == Ok::<A, ReplayError>(db.base()),
        db.sink_start().len() == 0 || db.sink_start().last() == NEWLINE,
    ensures
        replay::<A>(db.sink().contents()->0) == Ok::<A, ReplayError>(db.current()),
{
    lemma_replay_concat(db.sink_start(), db.appended(), 0, A::initial_value());
}

} // verus!
