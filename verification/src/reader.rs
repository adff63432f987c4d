//! The streaming decoder: bytes come in by chunks, records go out one by one.
//!
//! The reader never reads by itself. Its caller hands it bytes with
//! [`JournalBackupReader::refill`] and asks for the next record with
//! [`JournalBackupReader::next`], which answers with a record, with
//! [`Step::NeedInput`] where the bytes at hand end inside a record, or with
//! an error. A caller whose source has run dry stops asking: what is left of
//! a record that never ended is not handed out.

use crate::filter::{filtered_out, Filter};
use crate::message::JournalMessage;
use crate::wire::{
    end_of_msg_of, lemma_item_within, parse_end_of_msg, FieldBytes, ParseError,
};
use vstd::prelude::*;
use vstd::slice::{slice_subrange, slice_to_vec};

verus! {

/// The most bytes that a reader holds unread. A reader that is asked to go
/// on with as many or more in hand gives up.
pub const CEILING: usize = 10_000_000;

/// Why decoding came to an end.
#[derive(Debug, Clone, Copy, PartialEq, Eq, Structural)]
pub enum DecodeError {
    /// The bytes at the head of the buffer are no field and no end of a
    /// record, and no further bytes can make them one.
    Malformed(ParseError),
    /// The unread bytes have reached the ceiling.
    Runaway,
}

/// What a reader hands to its caller.
#[derive(Debug, Clone, PartialEq)]
pub enum Step {
    /// The next record that the filter lets pass.
    Message(JournalMessage),
    /// The bytes at hand end before the record does: refill and ask again.
    NeedInput,
}

/// How one call of [`JournalBackupReader::next`] ends, in records as
/// sequences of fields.
pub enum Outcome {
    /// The call hands out this record.
    Yield(Seq<FieldBytes>),
    /// The call asks for input.
    NeedInput,
    /// The call fails.
    Fail(DecodeError),
}

/// One call of [`JournalBackupReader::next`]: how it ends, and what the
/// reader holds afterwards.
pub struct Run {
    pub outcome: Outcome,
    pub unread: Seq<u8>,
    pub pending: Seq<FieldBytes>,
}

/// What a call of [`JournalBackupReader::next`] does on a reader that holds
/// the bytes `unread` and, of the record under way, the fields `pending`.
///
/// With the ceiling reached the call fails. Else it looks at the head of
/// the unread bytes. A field goes to the record under way, and the call
/// goes on behind it. The end of a record completes the record under way:
/// where the filter lets it pass it is handed out, else it is dropped, and
/// the call goes on with the next record. Where the bytes end before the
/// element at the head does, the call asks for input; where they are
/// malformed, it fails. In both cases the reader stays as it was.
pub open spec fn run(unread: Seq<u8>, pending: Seq<FieldBytes>, filter: Option<Filter>) -> Run
    decreases unread.len(),
    via run_decreases
{
    if unread.len() >= CEILING {
        Run { outcome: Outcome::Fail(DecodeError::Runaway), unread, pending }
    } else {
        match end_of_msg_of(unread) {
            Err(ParseError::Incomplete(_)) => Run { outcome: Outcome::NeedInput, unread, pending },
            Err(e) => Run { outcome: Outcome::Fail(DecodeError::Malformed(e)), unread, pending },
            Ok((k, Some(field))) => run(unread.skip(k), pending.push(field), filter),
            Ok((k, None)) => if filtered_out(filter, pending) {
                run(unread.skip(k), Seq::empty(), filter)
            } else {
                Run {
                    outcome: Outcome::Yield(pending),
                    unread: unread.skip(k),
                    pending: Seq::empty(),
                }
            },
        }
    }
}

#[via_fn]
proof fn run_decreases(unread: Seq<u8>, pending: Seq<FieldBytes>, filter: Option<Filter>) {
    lemma_item_within(unread);
}

/// A call that hands out a record takes bytes off the buffer; every call
/// leaves a tail of the buffer unread.
pub proof fn lemma_run_consumes(unread: Seq<u8>, pending: Seq<FieldBytes>, filter: Option<Filter>)
    ensures
        run(unread, pending, filter).unread.len() <= unread.len(),
        run(unread, pending, filter).outcome is Yield ==> run(unread, pending, filter).unread.len()
            < unread.len(),
    decreases unread.len(),
{
    lemma_item_within(unread);
    if unread.len() < CEILING {
        match end_of_msg_of(unread) {
            Ok((k, Some(field))) => {
                lemma_run_consumes(unread.skip(k), pending.push(field), filter);
            },
            Ok((k, None)) => {
                if filtered_out(filter, pending) {
                    lemma_run_consumes(unread.skip(k), Seq::empty(), filter);
                }
            },
            _ => {},
        }
    }
}

/// What a caller gets who asks a reader for records until it hands out
/// none: the records in the order in which they came, and the call that
/// handed out none, with what the reader then holds.
pub open spec fn drain(unread: Seq<u8>, pending: Seq<FieldBytes>, filter: Option<Filter>) -> (
    Seq<Seq<FieldBytes>>,
    Run,
)
    decreases unread.len(),
    via drain_decreases
{
    let first = run(unread, pending, filter);
    match first.outcome {
        Outcome::Yield(record) => {
            let (more, last) = drain(first.unread, first.pending, filter);
            (seq![record] + more, last)
        },
        _ => (Seq::empty(), first),
    }
}

#[via_fn]
proof fn drain_decreases(unread: Seq<u8>, pending: Seq<FieldBytes>, filter: Option<Filter>) {
    lemma_run_consumes(unread, pending, filter);
}

/// What `res` says, in records as sequences of fields.
pub open spec fn outcome_of(res: Result<Step, DecodeError>) -> Outcome {
    match res {
        Ok(Step::Message(msg)) => Outcome::Yield(msg@),
        Ok(Step::NeedInput) => Outcome::NeedInput,
        Err(e) => Outcome::Fail(e),
    }
}

/// The records that `records` holds, as sequences of fields.
pub open spec fn records_of(records: Seq<JournalMessage>) -> Seq<Seq<FieldBytes>> {
    Seq::new(records.len(), |i: int| records[i]@)
}

/// A failure, where the call that ended a run of calls failed.
pub open spec fn failure_of(outcome: Outcome) -> Option<DecodeError> {
    match outcome {
        Outcome::Fail(e) => Some(e),
        _ => None,
    }
}

/// The fields that `fields` holds, as sequences of bytes.
pub open spec fn fields_of(fields: Seq<(Vec<u8>, Vec<u8>)>) -> Seq<FieldBytes> {
    Seq::new(fields.len(), |i: int| (fields[i].0@, fields[i].1@))
}

/// Decodes a stream of journal records that comes in by chunks.
pub struct JournalBackupReader {
    remainder: Vec<u8>,
    remainder_read: usize,
    pending: Vec<(Vec<u8>, Vec<u8>)>,
    filter: Option<Filter>,
}

impl JournalBackupReader {
    #[verifier::type_invariant]
    spec fn consumed_within(&self) -> bool {
        self.remainder_read <= self.remainder@.len()
    }

    /// All the bytes that the reader holds, decoded or not.
    pub closed spec fn held(&self) -> Seq<u8> {
        self.remainder@
    }

    /// The bytes that came in and were not decoded yet: the tail of those
    /// that the reader holds.
    pub closed spec fn unread(&self) -> Seq<u8> {
        self.remainder@.skip(self.remainder_read as int)
    }

    /// The fields decoded so far of the record under way.
    pub closed spec fn pending(&self) -> Seq<FieldBytes> {
        fields_of(self.pending@)
    }

    /// The filter that the reader was made with.
    pub closed spec fn filter(&self) -> Option<Filter> {
        self.filter
    }

    /// A reader that holds no bytes and no field.
    pub fn new(filter: Option<Filter>) -> (reader: JournalBackupReader)
        ensures
            reader.held() == Seq::<u8>::empty(),
            reader.unread() == Seq::<u8>::empty(),
            reader.pending() == Seq::<FieldBytes>::empty(),
            reader.filter() == filter,
    {
        JournalBackupReader { remainder: Vec::new(), remainder_read: 0, pending: Vec::new(), filter }
    }

    /// The bytes that came in and were not decoded yet. They are the tail
    /// of the bytes that the reader holds.
    pub fn remaining(&self) -> (bytes: &[u8])
        ensures
            bytes@ == self.unread(),
            bytes@.len() <= self.held().len(),
            bytes@ == self.held().skip(self.held().len() - bytes@.len()),
    {
        proof {
            use_type_invariant(self);
        }
        slice_subrange(self.remainder.as_slice(), self.remainder_read, self.remainder.len())
    }

    /// How many bytes the reader holds, decoded or not.
    pub fn buffered(&self) -> (n: usize)
        ensures
            n == self.held().len(),
    {
        self.remainder.len()
    }

    /// Lets go of the bytes that were decoded and takes `chunk` in behind
    /// those that were not. The reader then holds the bytes that were
    /// unread and the chunk, all of them unread, and no byte besides: it
    /// grows by what came in and by nothing else.
    pub fn refill(&mut self, chunk: &[u8])
        ensures
            final(self).held() == old(self).unread() + chunk@,
            final(self).held().len() == old(self).unread().len() + chunk@.len(),
            final(self).unread() == old(self).unread() + chunk@,
            final(self).pending() == old(self).pending(),
            final(self).filter() == old(self).filter(),
    {
        proof {
            use_type_invariant(&*self);
        }
        let mut kept = slice_to_vec(
            slice_subrange(self.remainder.as_slice(), self.remainder_read, self.remainder.len()),
        );
        kept.extend_from_slice(chunk);
        assert(kept@ == old(self).unread() + chunk@);
        self.remainder_read = 0;
        self.remainder = kept;
        assert(self.remainder@.skip(0) == self.remainder@);
    }

    /// Decodes up to the next record that the filter lets pass, and hands
    /// it out. What [`run`] says of the bytes and fields in hand is what
    /// happens.
    pub fn next(&mut self) -> (res: Result<Step, DecodeError>)
        ensures
            outcome_of(res) == run(
                old(self).unread(),
                old(self).pending(),
                old(self).filter(),
            ).outcome,
            final(self).unread() == run(
                old(self).unread(),
                old(self).pending(),
                old(self).filter(),
            ).unread,
            final(self).pending() == run(
                old(self).unread(),
                old(self).pending(),
                old(self).filter(),
            ).pending,
            final(self).held() == old(self).held(),
            final(self).filter() == old(self).filter(),
    {
        proof {
            use_type_invariant(&*self);
        }
        let mut pending: Vec<(Vec<u8>, Vec<u8>)> = Vec::new();
        core::mem::swap(&mut pending, &mut self.pending);
        loop
            invariant
                self.remainder_read <= self.remainder@.len(),
                self.held() == old(self).held(),
                self.filter() == old(self).filter(),
                run(self.unread(), fields_of(pending@), self.filter()) == run(
                    old(self).unread(),
                    old(self).pending(),
                    old(self).filter(),
                ),
            decreases self.remainder@.len() - self.remainder_read,
        {
            let at_hand = self.remainder.len() - self.remainder_read;
            if at_hand >= CEILING {
                self.pending = pending;
                return Err(DecodeError::Runaway);
            }
            let head = slice_subrange(
                self.remainder.as_slice(),
                self.remainder_read,
                self.remainder.len(),
            );
            proof {
                lemma_item_within(head@);
            }
            match parse_end_of_msg(head) {
                Err(ParseError::Incomplete(_)) => {
                    self.pending = pending;
                    return Ok(Step::NeedInput);
                },
                Err(e) => {
                    self.pending = pending;
                    return Err(DecodeError::Malformed(e));
                },
                Ok((rest, Some((name, value)))) => {
                    let taken = head.len() - rest.len();
                    let ghost before = fields_of(pending@);
                    pending.push((slice_to_vec(name), slice_to_vec(value)));
                    assert(fields_of(pending@) == before.push((name@, value@)));
                    assert(head@.skip(taken as int) == self.remainder@.skip(
                        self.remainder_read + taken,
                    ));
                    self.remainder_read = self.remainder_read + taken;
                },
                Ok((rest, None)) => {
                    assert(head@.skip(1) == self.remainder@.skip(self.remainder_read + 1));
                    self.remainder_read = self.remainder_read + 1;
                    let mut fields = Vec::new();
                    core::mem::swap(&mut fields, &mut pending);
                    assert(fields_of(pending@) == Seq::<FieldBytes>::empty());
                    let msg = JournalMessage { fields };
                    if !self.should_filter(&msg) {
                        self.pending = pending;
                        return Ok(Step::Message(msg));
                    }
                },
            }
        }
    }

    /// Decodes all the records that the bytes in hand hold and the filter
    /// lets pass, in their order. Beside them stands the failure that put
    /// an end to decoding; where there is none, the reader has come to the
    /// end of the bytes in hand and asks for input.
    pub fn drain(&mut self) -> (res: (Vec<JournalMessage>, Option<DecodeError>))
        ensures
            records_of(res.0@) == drain(
                old(self).unread(),
                old(self).pending(),
                old(self).filter(),
            ).0,
            res.1 == failure_of(
                drain(old(self).unread(), old(self).pending(), old(self).filter()).1.outcome,
            ),
            final(self).unread() == drain(
                old(self).unread(),
                old(self).pending(),
                old(self).filter(),
            ).1.unread,
            final(self).pending() == drain(
                old(self).unread(),
                old(self).pending(),
                old(self).filter(),
            ).1.pending,
            final(self).held() == old(self).held(),
            final(self).filter() == old(self).filter(),
    {
        let ghost whole = drain(old(self).unread(), old(self).pending(), old(self).filter());
        let mut records: Vec<JournalMessage> = Vec::new();
        loop
            invariant
                self.held() == old(self).held(),
                self.filter() == old(self).filter(),
                whole == drain(old(self).unread(), old(self).pending(), old(self).filter()),
                records_of(records@) + drain(self.unread(), self.pending(), self.filter()).0
                    == whole.0,
                drain(self.unread(), self.pending(), self.filter()).1 == whole.1,
            decreases self.unread().len(),
        {
            let ghost before = records_of(records@);
            let ghost rest = drain(self.unread(), self.pending(), self.filter()).0;
            proof {
                lemma_run_consumes(self.unread(), self.pending(), self.filter());
            }
            match self.next() {
                Ok(Step::Message(msg)) => {
                    let ghost record = msg@;
                    records.push(msg);
                    proof {
                        let later = drain(self.unread(), self.pending(), self.filter()).0;
                        assert(records_of(records@) == before.push(record));
                        assert(before.push(record) + later == before + (seq![record] + later));
                    }
                },
                Ok(Step::NeedInput) => {
                    assert(before + rest == before);
                    return (records, None);
                },
                Err(e) => {
                    assert(before + rest == before);
                    return (records, Some(e));
                },
            }
        }
    }

    /// Whether the reader's filter holds `msg` back.
    pub fn should_filter(&self, msg: &JournalMessage) -> (res: bool)
        ensures
            res == filtered_out(self.filter(), msg@),
    {
        match &self.filter {
            Some(filter) => filter.rejects(msg),
            None => false,
        }
    }
}

} // verus!
