//! The format as a writer would produce it, and the proof that the parsers
//! read back what it writes.
//!
//! Nothing here runs: the library only decodes. The functions say which
//! bytes stand for a field and a record, so that what the decoder does on a
//! well-formed stream can be stated.

use crate::wire::{
    key_of, key_value_of, le_u64, lemma_span_unique, FieldBytes, ParseError, EQUALS, NEWLINE,
};
use vstd::prelude::*;

verus! {

/// A name that the format can carry: one byte or more, none of them `=` or
/// a newline.
pub open spec fn valid_name(name: Seq<u8>) -> bool {
    &&& name.len() > 0
    &&& forall|i: int| 0 <= i < name.len() ==> name[i] != EQUALS && name[i] != NEWLINE
}

/// No byte of `value` is a newline.
pub open spec fn newline_free(value: Seq<u8>) -> bool {
    forall|i: int| 0 <= i < value.len() ==> value[i] != NEWLINE
}

/// The eight bytes that spell `n`, lowest byte first: each is what is left
/// of `n` after the bytes below it were taken off.
pub open spec fn le_bytes(n: int) -> Seq<u8> {
    let n1 = n / 0x100;
    let n2 = n1 / 0x100;
    let n3 = n2 / 0x100;
    let n4 = n3 / 0x100;
    let n5 = n4 / 0x100;
    let n6 = n5 / 0x100;
    let n7 = n6 / 0x100;
    seq![
        (n % 0x100) as u8,
        (n1 % 0x100) as u8,
        (n2 % 0x100) as u8,
        (n3 % 0x100) as u8,
        (n4 % 0x100) as u8,
        (n5 % 0x100) as u8,
        (n6 % 0x100) as u8,
        (n7 % 0x100) as u8,
    ]
}

/// A field in text form.
pub open spec fn text_form(field: FieldBytes) -> Seq<u8> {
    field.0 + seq![EQUALS] + field.1 + seq![NEWLINE]
}

/// A field in binary form.
pub open spec fn binary_form(field: FieldBytes) -> Seq<u8> {
    field.0 + seq![NEWLINE] + le_bytes(field.1.len() as int) + field.1 + seq![NEWLINE]
}

/// A field in the form asked for.
pub open spec fn wire_field(field: FieldBytes, binary: bool) -> Seq<u8> {
    if binary {
        binary_form(field)
    } else {
        text_form(field)
    }
}

/// The format can carry the field in the form asked for: any value in
/// binary form, as far as eight bytes can tell its length, and in text form
/// a value without a newline.
pub open spec fn can_carry(field: FieldBytes, binary: bool) -> bool {
    &&& valid_name(field.0)
    &&& binary ==> field.1.len() <= u64::MAX
    &&& !binary ==> newline_free(field.1)
}

/// Each field of a record can be carried in the form asked for it.
pub open spec fn can_carry_all(fields: Seq<FieldBytes>, binary: Seq<bool>) -> bool {
    &&& binary.len() == fields.len()
    &&& forall|i: int| 0 <= i < fields.len() ==> can_carry(#[trigger] fields[i], binary[i])
}

/// The fields of a record one after the other, each in the form asked for.
pub open spec fn wire_fields(fields: Seq<FieldBytes>, binary: Seq<bool>) -> Seq<u8>
    decreases fields.len(),
{
    if fields.len() == 0 {
        Seq::empty()
    } else {
        wire_field(fields[0], binary[0]) + wire_fields(fields.drop_first(), binary.drop_first())
    }
}

/// A record: its fields, and the newline that closes it.
pub open spec fn wire_record(fields: Seq<FieldBytes>, binary: Seq<bool>) -> Seq<u8> {
    wire_fields(fields, binary) + seq![NEWLINE]
}

/// Each record of a stream can be carried in the forms asked for it.
pub open spec fn can_carry_stream(records: Seq<Seq<FieldBytes>>, forms: Seq<Seq<bool>>) -> bool {
    &&& forms.len() == records.len()
    &&& forall|i: int| 0 <= i < records.len() ==> can_carry_all(#[trigger] records[i], forms[i])
}

/// A stream: its records one after the other.
pub open spec fn wire_stream(records: Seq<Seq<FieldBytes>>, forms: Seq<Seq<bool>>) -> Seq<u8>
    decreases records.len(),
{
    if records.len() == 0 {
        Seq::empty()
    } else {
        wire_record(records[0], forms[0]) + wire_stream(records.drop_first(), forms.drop_first())
    }
}

/// Eight bytes spell the number that they were written for.
pub proof fn lemma_le_bytes_spell(n: int)
    requires
        0 <= n <= u64::MAX,
    ensures
        le_bytes(n).len() == 8,
        le_u64(le_bytes(n)) == n,
{
    let n1 = n / 0x100;
    let n2 = n1 / 0x100;
    let n3 = n2 / 0x100;
    let n4 = n3 / 0x100;
    let n5 = n4 / 0x100;
    let n6 = n5 / 0x100;
    let n7 = n6 / 0x100;
    assert(n == n % 0x100 + 0x100 * n1);
    assert(n1 == n1 % 0x100 + 0x100 * n2);
    assert(n2 == n2 % 0x100 + 0x100 * n3);
    assert(n3 == n3 % 0x100 + 0x100 * n4);
    assert(n4 == n4 % 0x100 + 0x100 * n5);
    assert(n5 == n5 % 0x100 + 0x100 * n6);
    assert(n6 == n6 % 0x100 + 0x100 * n7);
    assert(0 <= n7 < 0x100);
    let s = le_bytes(n);
    assert(s[0] == n % 0x100);
    assert(s[1] == n1 % 0x100);
    assert(s[2] == n2 % 0x100);
    assert(s[3] == n3 % 0x100);
    assert(s[4] == n4 % 0x100);
    assert(s[5] == n5 % 0x100);
    assert(s[6] == n6 % 0x100);
    assert(s[7] == n7);
}

/// A name is read back from the bytes that begin with it and go on with
/// `=` or a newline.
pub proof fn lemma_name_decodes(name: Seq<u8>, rest: Seq<u8>)
    requires
        valid_name(name),
        rest.len() > 0,
        rest[0] == EQUALS || rest[0] == NEWLINE,
    ensures
        key_of(name + rest) == Ok::<(int, Seq<u8>), ParseError>((name.len() as int, name)),
        (name + rest).skip(name.len() as int) == rest,
{
    let s = name + rest;
    assert(s[name.len() as int] == rest[0]);
    lemma_span_unique(s, EQUALS, NEWLINE, name.len() as int);
    assert(s.subrange(0, name.len() as int) == name);
    assert(s.skip(name.len() as int) == rest);
}

/// A field in text form is read back as it was written, whatever follows.
pub proof fn lemma_text_form_decodes(field: FieldBytes, rest: Seq<u8>)
    requires
        can_carry(field, false),
    ensures
        key_value_of(text_form(field) + rest) == Ok::<(int, FieldBytes), ParseError>(
            (text_form(field).len() as int, field),
        ),
{
    let (name, value) = field;
    let tail = seq![EQUALS] + value + seq![NEWLINE] + rest;
    assert(text_form(field) + rest == name + tail);
    lemma_name_decodes(name, tail);
    let body = tail.skip(1);
    assert(body == value + seq![NEWLINE] + rest);
    assert(body[value.len() as int] == NEWLINE);
    lemma_span_unique(body, NEWLINE, NEWLINE, value.len() as int);
    assert(tail.subrange(1, 1 + value.len() as int) == value);
}

/// A field in binary form is read back as it was written, whatever its
/// value holds and whatever follows.
pub proof fn lemma_binary_form_decodes(field: FieldBytes, rest: Seq<u8>)
    requires
        can_carry(field, true),
    ensures
        key_value_of(binary_form(field) + rest) == Ok::<(int, FieldBytes), ParseError>(
            (binary_form(field).len() as int, field),
        ),
{
    let (name, value) = field;
    let n = value.len() as int;
    lemma_le_bytes_spell(n);
    let tail = seq![NEWLINE] + le_bytes(n) + value + seq![NEWLINE] + rest;
    assert(binary_form(field) + rest == name + tail);
    lemma_name_decodes(name, tail);
    let body = tail.skip(1);
    assert(body == le_bytes(n) + value + seq![NEWLINE] + rest);
    assert(body.subrange(0, 8) == le_bytes(n));
    assert(body.subrange(8, 8 + n) == value);
    assert(tail[9 + n] == NEWLINE);
}

/// A field is read back as it was written, in either form.
pub proof fn lemma_field_decodes(field: FieldBytes, binary: bool, rest: Seq<u8>)
    requires
        can_carry(field, binary),
    ensures
        key_value_of(wire_field(field, binary) + rest) == Ok::<(int, FieldBytes), ParseError>(
            (wire_field(field, binary).len() as int, field),
        ),
        wire_field(field, binary).len() > 0,
        wire_field(field, binary)[0] != NEWLINE,
{
    if binary {
        lemma_binary_form_decodes(field, rest);
    } else {
        lemma_text_form_decodes(field, rest);
    }
}

} // verus!
