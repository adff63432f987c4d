//! What a reader makes of a whole stream, however the stream comes in.
//!
//! A caller pulls records with [`JournalBackupReader::next`] until the
//! reader asks for input or fails, or has [`JournalBackupReader::drain`] do
//! so. [`drain`] is what such a caller gets. The lemmas say that it does not
//! matter where the stream is cut into chunks, that well-formed records come
//! out as they went in, and that a value declared too long is never handed
//! out.
//!
//! [`JournalBackupReader::next`]: crate::reader::JournalBackupReader::next
//! [`JournalBackupReader::drain`]: crate::reader::JournalBackupReader::drain

use crate::encoding::{
    can_carry, can_carry_all, can_carry_stream, le_bytes, lemma_field_decodes, lemma_le_bytes_spell,
    lemma_name_decodes, valid_name, wire_field, wire_record, wire_stream,
};
use crate::filter::{filtered_out, Filter};
use crate::reader::{drain, lemma_run_consumes, run, DecodeError, Outcome, Run, CEILING};
use crate::wire::{
    end_of_msg_of, lemma_item_stable, lemma_item_within, FieldBytes, ParseError, NEWLINE,
};
use vstd::prelude::*;

verus! {

/// A call that hands out no record leaves the reader where asking again
/// changes nothing: a failure stays the failure that it is, and a call for
/// input is repeated until bytes come in. No call fails for want of bytes.
pub proof fn lemma_run_settles(unread: Seq<u8>, pending: Seq<FieldBytes>, filter: Option<Filter>)
    ensures
        ({
            let first = run(unread, pending, filter);
            &&& !(first.outcome is Yield) ==> run(first.unread, first.pending, filter) == first
            &&& first.outcome matches Outcome::Fail(DecodeError::Malformed(e)) ==> !(e
                is Incomplete)
        }),
    decreases unread.len(),
{
    lemma_item_within(unread);
    if unread.len() < CEILING {
        match end_of_msg_of(unread) {
            Ok((k, Some(field))) => {
                lemma_run_settles(unread.skip(k), pending.push(field), filter);
            },
            Ok((k, None)) => {
                if filtered_out(filter, pending) {
                    lemma_run_settles(unread.skip(k), Seq::empty(), filter);
                }
            },
            _ => {},
        }
    }
}

/// A reader asks for input only while it holds fewer unread bytes than the
/// ceiling. So a reader that is refilled when it asks, by chunks of a given
/// size at most, never holds as many bytes as the ceiling and a chunk
/// together, whatever length a value declares.
pub proof fn lemma_input_asked_below_ceiling(
    unread: Seq<u8>,
    pending: Seq<FieldBytes>,
    filter: Option<Filter>,
)
    ensures
        run(unread, pending, filter).outcome is NeedInput ==> run(
            unread,
            pending,
            filter,
        ).unread.len() < CEILING,
    decreases unread.len(),
{
    lemma_item_within(unread);
    if unread.len() < CEILING {
        match end_of_msg_of(unread) {
            Ok((k, Some(field))) => {
                lemma_input_asked_below_ceiling(unread.skip(k), pending.push(field), filter);
            },
            Ok((k, None)) => {
                if filtered_out(filter, pending) {
                    lemma_input_asked_below_ceiling(unread.skip(k), Seq::empty(), filter);
                }
            },
            _ => {},
        }
    }
}

/// What a caller gets who is handed the stream in two chunks: the records
/// of the first chunk, and, where the reader then asks for input, those
/// that it hands out once the second chunk is in. A reader that fails on
/// the first chunk is not asked again.
pub open spec fn drain_in_two(
    a: Seq<u8>,
    b: Seq<u8>,
    pending: Seq<FieldBytes>,
    filter: Option<Filter>,
) -> (Seq<Seq<FieldBytes>>, Run) {
    let (first, end) = drain(a, pending, filter);
    match end.outcome {
        Outcome::NeedInput => {
            let (second, last) = drain(end.unread + b, end.pending, filter);
            (first + second, last)
        },
        _ => (first, Run { outcome: end.outcome, unread: end.unread + b, pending: end.pending }),
    }
}

/// One call on a buffer does what the same call does on the buffer with
/// more bytes behind it, up to the point where the shorter buffer runs out.
pub proof fn lemma_run_split(
    a: Seq<u8>,
    b: Seq<u8>,
    pending: Seq<FieldBytes>,
    filter: Option<Filter>,
)
    requires
        run(a + b, pending, filter).outcome != Outcome::Fail(DecodeError::Runaway),
    ensures
        ({
            let short = run(a, pending, filter);
            let whole = run(a + b, pending, filter);
            match short.outcome {
                Outcome::NeedInput => whole == run(short.unread + b, short.pending, filter),
                _ => whole == Run {
                    outcome: short.outcome,
                    unread: short.unread + b,
                    pending: short.pending,
                },
            }
        }),
    decreases a.len(),
{
    lemma_item_within(a);
    match end_of_msg_of(a) {
        Err(ParseError::Incomplete(_)) => {},
        Err(e) => {
            lemma_item_stable(a, b);
        },
        Ok((k, Some(field))) => {
            lemma_item_stable(a, b);
            assert((a + b).skip(k) == a.skip(k) + b);
            lemma_run_split(a.skip(k), b, pending.push(field), filter);
        },
        Ok((k, None)) => {
            lemma_item_stable(a, b);
            assert((a + b).skip(k) == a.skip(k) + b);
            if filtered_out(filter, pending) {
                lemma_run_split(a.skip(k), b, Seq::empty(), filter);
            }
        },
    }
}

/// It does not matter where a stream is cut: a caller who is handed it in
/// two chunks gets the records, and the end, that a caller gets who is
/// handed it whole. This holds of every stream that, handed over whole,
/// does not make the reader give up for the number of bytes in hand.
pub proof fn lemma_split_anywhere(
    a: Seq<u8>,
    b: Seq<u8>,
    pending: Seq<FieldBytes>,
    filter: Option<Filter>,
)
    requires
        drain(a + b, pending, filter).1.outcome != Outcome::Fail(DecodeError::Runaway),
    ensures
        drain_in_two(a, b, pending, filter) == drain(a + b, pending, filter),
    decreases a.len(),
{
    let short = run(a, pending, filter);
    let whole = run(a + b, pending, filter);
    lemma_run_split(a, b, pending, filter);
    lemma_run_consumes(a, pending, filter);
    match short.outcome {
        Outcome::Yield(record) => {
            lemma_split_anywhere(short.unread, b, short.pending, filter);
            let (first, end) = drain(short.unread, short.pending, filter);
            match end.outcome {
                Outcome::NeedInput => {
                    let (second, last) = drain(end.unread + b, end.pending, filter);
                    assert(seq![record] + (first + second) == (seq![record] + first) + second);
                },
                _ => {},
            }
        },
        Outcome::NeedInput => {
            let (second, last) = drain(a + b, pending, filter);
            assert(Seq::<Seq<FieldBytes>>::empty() + second == second);
        },
        Outcome::Fail(e) => {},
    }
}

/// A stream that stays below the ceiling never makes the reader give up
/// for the number of bytes in hand.
pub proof fn lemma_below_ceiling(unread: Seq<u8>, pending: Seq<FieldBytes>, filter: Option<Filter>)
    requires
        unread.len() < CEILING,
    ensures
        run(unread, pending, filter).outcome != Outcome::Fail(DecodeError::Runaway),
        drain(unread, pending, filter).1.outcome != Outcome::Fail(DecodeError::Runaway),
    decreases unread.len(),
{
    lemma_item_within(unread);
    lemma_run_consumes(unread, pending, filter);
    match end_of_msg_of(unread) {
        Ok((k, Some(field))) => {
            lemma_below_ceiling(unread.skip(k), pending.push(field), filter);
        },
        Ok((k, None)) => {
            lemma_below_ceiling(unread.skip(k), Seq::empty(), filter);
        },
        _ => {},
    }
    let first = run(unread, pending, filter);
    if first.outcome is Yield {
        lemma_below_ceiling(first.unread, first.pending, filter);
    }
}

/// A reader that comes upon a well-formed record completes the record under
/// way with its fields, whichever form each of them has, and hands it out or
/// drops it as the filter says.
pub proof fn lemma_record_decodes(
    fields: Seq<FieldBytes>,
    binary: Seq<bool>,
    rest: Seq<u8>,
    pending: Seq<FieldBytes>,
    filter: Option<Filter>,
)
    requires
        can_carry_all(fields, binary),
        wire_record(fields, binary).len() + rest.len() < CEILING,
    ensures
        run(wire_record(fields, binary) + rest, pending, filter) == if filtered_out(
            filter,
            pending + fields,
        ) {
            run(rest, Seq::empty(), filter)
        } else {
            Run { outcome: Outcome::Yield(pending + fields), unread: rest, pending: Seq::empty() }
        },
    decreases fields.len(),
{
    let s = wire_record(fields, binary) + rest;
    if fields.len() == 0 {
        assert(s[0] == NEWLINE);
        assert(s.skip(1) == rest);
        assert(pending + fields == pending);
    } else {
        let head = wire_field(fields[0], binary[0]);
        let fields_left = fields.drop_first();
        let binary_left = binary.drop_first();
        let tail = wire_record(fields_left, binary_left) + rest;
        assert(can_carry_all(fields_left, binary_left)) by {
            assert forall|i: int| 0 <= i < fields_left.len() implies can_carry(
                #[trigger] fields_left[i],
                binary_left[i],
            ) by {
                assert(fields_left[i] == fields[i + 1]);
            }
        }
        assert(s == head + tail);
        lemma_field_decodes(fields[0], binary[0], tail);
        assert(s[0] == head[0]);
        assert(s.skip(head.len() as int) == tail);
        lemma_record_decodes(fields_left, binary_left, rest, pending.push(fields[0]), filter);
        assert(pending.push(fields[0]) + fields_left == pending + fields);
    }
}

/// A well-formed stream gives back its records: as many as went in, in
/// their order, field for field, and no record more for the newline that
/// closes the last one. The reader then holds nothing and asks for input.
/// This holds where the filter lets every record pass and the stream stays
/// below the ceiling.
pub proof fn lemma_stream_decodes(
    records: Seq<Seq<FieldBytes>>,
    forms: Seq<Seq<bool>>,
    filter: Option<Filter>,
)
    requires
        can_carry_stream(records, forms),
        forall|i: int| 0 <= i < records.len() ==> !filtered_out(filter, #[trigger] records[i]),
        wire_stream(records, forms).len() < CEILING,
    ensures
        drain(wire_stream(records, forms), Seq::empty(), filter) == (
            records,
            Run { outcome: Outcome::NeedInput, unread: Seq::empty(), pending: Seq::empty() },
        ),
    decreases records.len(),
{
    let none = Seq::<FieldBytes>::empty();
    if records.len() == 0 {
        assert(drain(Seq::empty(), none, filter).0 == records);
    } else {
        let records_left = records.drop_first();
        let forms_left = forms.drop_first();
        let rest = wire_stream(records_left, forms_left);
        assert(can_carry_stream(records_left, forms_left)) by {
            assert forall|i: int| 0 <= i < records_left.len() implies can_carry_all(
                #[trigger] records_left[i],
                forms_left[i],
            ) by {
                assert(records_left[i] == records[i + 1]);
            }
        }
        assert forall|i: int| 0 <= i < records_left.len() implies !filtered_out(
            filter,
            #[trigger] records_left[i],
        ) by {
            assert(records_left[i] == records[i + 1]);
        }
        lemma_record_decodes(records[0], forms[0], rest, none, filter);
        assert(none + records[0] == records[0]);
        lemma_stream_decodes(records_left, forms_left, filter);
        assert(seq![records[0]] + records_left == records);
    }
}

/// Two records one after the other, each closed by its newline, come out as
/// two records in their order, and no third one after them.
pub proof fn lemma_two_records(
    first: Seq<FieldBytes>,
    first_binary: Seq<bool>,
    second: Seq<FieldBytes>,
    second_binary: Seq<bool>,
    filter: Option<Filter>,
)
    requires
        can_carry_all(first, first_binary),
        can_carry_all(second, second_binary),
        !filtered_out(filter, first),
        !filtered_out(filter, second),
        wire_record(first, first_binary).len() + wire_record(second, second_binary).len()
            < CEILING,
    ensures
        drain(
            wire_record(first, first_binary) + wire_record(second, second_binary),
            Seq::empty(),
            filter,
        ) == (
            seq![first, second],
            Run { outcome: Outcome::NeedInput, unread: Seq::empty(), pending: Seq::empty() },
        ),
{
    let records = seq![first, second];
    let forms = seq![first_binary, second_binary];
    reveal_with_fuel(wire_stream, 3);
    assert(records.drop_first().drop_first().len() == 0);
    assert(wire_stream(records, forms) == wire_record(first, first_binary) + wire_record(
        second,
        second_binary,
    ));
    lemma_stream_decodes(records, forms, filter);
}

/// A binary value whose declared length reaches the ceiling is never handed
/// out, whatever follows its length bytes: the reader asks for input as
/// long as it holds fewer bytes than the ceiling, and then gives up.
pub proof fn lemma_oversized_value(
    name: Seq<u8>,
    declared: int,
    tail: Seq<u8>,
    pending: Seq<FieldBytes>,
    filter: Option<Filter>,
)
    requires
        valid_name(name),
        CEILING <= declared <= u64::MAX,
    ensures
        ({
            let unread = name + seq![NEWLINE] + le_bytes(declared) + tail;
            run(unread, pending, filter) == Run {
                outcome: if unread.len() >= CEILING {
                    Outcome::Fail(DecodeError::Runaway)
                } else {
                    Outcome::NeedInput
                },
                unread,
                pending,
            }
        }),
{
    let rest = seq![NEWLINE] + le_bytes(declared) + tail;
    let unread = name + seq![NEWLINE] + le_bytes(declared) + tail;
    assert(unread == name + rest);
    lemma_le_bytes_spell(declared);
    lemma_name_decodes(name, rest);
    let body = rest.skip(1);
    assert(body == le_bytes(declared) + tail);
    assert(body.subrange(0, 8) == le_bytes(declared));
}

} // verus!
