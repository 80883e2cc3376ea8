//! What a state type must offer to be kept in a log, and what a log sink must offer.
use vstd::prelude::*;

verus! {

/// A state that changes only by folding transitions, each of which can be
/// written as a line of bytes and read back.
pub trait AppendOnly: Sized {
    type Transition;

    /// The state before any transition.
    spec fn initial_value() -> Self;

    /// The state after folding `t` into `s`, or `None` where the fold is
    /// undefined for that pair (an arithmetic overflow, a division by zero).
    spec fn next(s: Self, t: Self::Transition) -> Option<Self>;

    /// The bytes that stand for `t` in a log record.
    spec fn encoding(t: Self::Transition) -> Seq<u8>;

    fn initial() -> (r: Self)
        ensures
            r == Self::initial_value(),
    ;

    fn admissible(s: &Self, t: &Self::Transition) -> (r: bool)
        ensures
            r == Self::next(*s, *t) is Some,
    ;

    fn update(s: &mut Self, t: Self::Transition)
        requires
            Self::next(*old(s), t) is Some,
        ensures
            Self::next(*old(s), t) == Some(*final(s)),
    ;

    fn encode(t: &Self::Transition) -> (r: Vec<u8>)
        ensures
            r@ == Self::encoding(*t),
    ;

    fn decode(b: &[u8]) -> (r: Option<Self::Transition>)
        ensures
            r matches Some(t) ==> Self::encoding(t) == b@,
            (exists|t: Self::Transition| Self::encoding(t) == b@) ==> r is Some,
    ;

    /// Two transitions with the same bytes are the same transition.
    proof fn lemma_encoding_injective(a: Self::Transition, b: Self::Transition)
        ensures
            Self::encoding(a) == Self::encoding(b) ==> a == b,
    ;

    /// The bytes of a transition never hold a line break.
    proof fn lemma_encoding_single_line(t: Self::Transition)
        ensures
            forall|i: int| 0 <= i < Self::encoding(t).len() ==> #[trigger] Self::encoding(t)[i] != 10u8,
    ;
}

/// Why a record could not be appended.
#[derive(Debug)]
pub enum WriteError {
    /// The sink refused the bytes.
    Sink { detail: String },
    /// The system clock gave no UTC time that a record can hold.
    NoClock,
}

/// The place where log records are appended: a file opened for appending, a
/// buffer, a pipe.
///
/// A sink may describe itself to the verifier: `contents` gives its bytes
/// where it knows them, and `never_fails` says that it takes every append.
/// A sink that keeps the defaults promises nothing of either.
pub trait LogSink {
    /// The bytes this sink holds, where it can tell them.
    open spec fn contents(&self) -> Option<Seq<u8>> {
        None
    }

    /// Whether every append to this sink succeeds.
    open spec fn never_fails(&self) -> bool {
        false
    }

    /// Appends all of `bytes`, or reports that it could not.
    fn write_all(&mut self, bytes: &[u8]) -> (r: Result<(), WriteError>)
        ensures
            final(self).never_fails() == old(self).never_fails(),
            old(self).never_fails() ==> r is Ok,
            final(self).contents() is Some == old(self).contents() is Some,
            old(self).contents() is Some && r is Ok ==> final(self).contents()->0 == old(self).contents()->0 + bytes@,
            old(self).contents() is Some && r is Err ==> final(self).contents() == old(self).contents(),
    ;
}

impl LogSink for Vec<u8> {
    open spec fn contents(&self) -> Option<Seq<u8>> {
        Some(self@)
    }

    open spec fn never_fails(&self) -> bool {
        true
    }

    fn write_all(&mut self, bytes: &[u8]) -> (r: Result<(), WriteError>) {
        self.extend_from_slice(bytes);
        Ok(())
    }
}

} // verus!
