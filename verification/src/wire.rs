//! The grammar of a message on the wire, and the message that a byte
//! sequence spells.
//!
//! A message is a run of fields. A field is a tag, then a variable-length
//! integer, then, for a length-delimited field, as many payload bytes as
//! that integer says. The tag holds the wire type in its low three bits and
//! the field id above them.

use crate::decimal::{
    decimal_text, decimal_value, is_digit, law_decimal_round_trip, unsigned_digits,
};
use crate::varint::{
    law_varint_round_trip, lemma_varint_bytes_len, lemma_varint_extend, varint_bytes,
    varint_complete, varint_len, varint_value,
};
use vstd::prelude::*;
use vstd::utf8::{
    decode_utf8, encode_utf8, encode_utf8_decode_utf8, encode_utf8_valid_utf8,
    partial_valid_utf8_extend_ascii_block, valid_utf8,
};

verus! {

/// The wire type of a field that holds one variable-length integer.
pub const VARINT: u8 = 0;

/// The wire type of a field that holds a counted run of bytes.
pub const LENGTH_DELIMITED: u8 = 2;

/// One field as it stood in the input.
pub struct Field {
    pub id: u32,
    pub wire_type: u8,
    /// The payload of a length-delimited field as it is; the decimal text of
    /// the number of a variable-length integer field.
    pub value: Seq<u8>,
}

/// What a reader holds: for each field id that occurred, the wire type and
/// value of each occurrence in the order of the input.
pub type Message = Map<u32, Seq<(u8, Seq<u8>)>>;

/// The tag of a field: the id shifted up by three bits within 32, and the
/// wire type below it.
pub open spec fn tag_of(id: u32, wire_type: u8) -> u32
    recommends
        wire_type < 8,
{
    ((id * 8) % 0x1_0000_0000 + wire_type) as u32
}

/// The field id in a tag: all but its low three bits.
pub open spec fn tag_id(tag: u32) -> u32 {
    tag / 8
}

/// The wire type in a tag: its low three bits.
pub open spec fn tag_wire_type(tag: u32) -> u8 {
    (tag % 8) as u8
}

/// The bytes of a variable-length integer field.
pub open spec fn constant_field_bytes(id: u32, value: u64) -> Seq<u8> {
    varint_bytes(tag_of(id, VARINT) as nat) + varint_bytes(value as nat)
}

/// The bytes of a length-delimited field.
pub open spec fn buffer_field_bytes(id: u32, payload: Seq<u8>) -> Seq<u8> {
    varint_bytes(tag_of(id, LENGTH_DELIMITED) as nat) + varint_bytes(payload.len()) + payload
}

/// The field at the front of `s` and the number of bytes it takes, or
/// `None` where `s` ends before the field does or the wire type is neither
/// of the two known ones. The tag counts as far as it fits in 32 bits, the
/// integer after it as far as it fits in 64.
pub open spec fn parse_field(s: Seq<u8>) -> Option<(Field, nat)> {
    if !varint_complete(s) {
        None
    } else {
        let tag = (varint_value(s) % 0x1_0000_0000) as u32;
        let after_tag = s.skip(varint_len(s) as int);
        if !varint_complete(after_tag) {
            None
        } else {
            let constant = varint_value(after_tag) % 0x1_0000_0000_0000_0000;
            let head = varint_len(s) + varint_len(after_tag);
            let rest = s.skip(head as int);
            if tag_wire_type(tag) == VARINT {
                Some(
                    (
                        Field {
                            id: tag_id(tag),
                            wire_type: VARINT,
                            value: decimal_text(constant),
                        },
                        head,
                    ),
                )
            } else if tag_wire_type(tag) == LENGTH_DELIMITED && constant <= rest.len() {
                Some(
                    (
                        Field {
                            id: tag_id(tag),
                            wire_type: LENGTH_DELIMITED,
                            value: rest.take(constant as int),
                        },
                        head + constant,
                    ),
                )
            } else {
                None
            }
        }
    }
}

/// The fields that `s` holds from its first byte to its last, in order, or
/// `None` where any of them fails.
pub open spec fn parse_fields(s: Seq<u8>) -> Option<Seq<Field>>
    decreases s.len(),
    via parse_fields_decreases
{
    if s.len() == 0 {
        Some(Seq::empty())
    } else {
        match parse_field(s) {
            None => None,
            Some((field, taken)) => match parse_fields(s.skip(taken as int)) {
                None => None,
                Some(more) => Some(seq![field] + more),
            },
        }
    }
}

#[via_fn]
proof fn parse_fields_decreases(s: Seq<u8>) {
    if s.len() != 0 && parse_field(s) is Some {
        lemma_parse_field_taken(s);
    }
}

/// The test that a field stands under `id`.
pub open spec fn has_id(id: u32) -> spec_fn(Field) -> bool {
    |field: Field| field.id == id
}

/// What a message keeps of a field: its wire type and its value.
pub open spec fn occurrence_of() -> spec_fn(Field) -> (u8, Seq<u8>) {
    |field: Field| (field.wire_type, field.value)
}

/// The occurrences of `id` among `fields`, in their order.
pub open spec fn occurrences(fields: Seq<Field>, id: u32) -> Seq<(u8, Seq<u8>)> {
    fields.filter(has_id(id)).map_values(occurrence_of())
}

/// The message that a run of fields makes: the ids that occur, each with
/// its occurrences.
pub open spec fn message_of(fields: Seq<Field>) -> Message {
    Map::new(|id: u32| occurrences(fields, id).len() > 0, |id: u32| occurrences(fields, id))
}

/// The message that `s` spells, or `None` where `s` is no run of fields.
pub open spec fn parse_message(s: Seq<u8>) -> Option<Message> {
    match parse_fields(s) {
        Some(fields) => Some(message_of(fields)),
        None => None,
    }
}

/// The value of the first occurrence of `id`, where it has one.
pub open spec fn first_value(message: Message, id: u32) -> Option<Seq<u8>> {
    if message.contains_key(id) && message[id].len() > 0 {
        Some(message[id][0].1)
    } else {
        None
    }
}

/// The text that `bytes` spell, where they are valid UTF-8.
pub open spec fn text_of(bytes: Seq<u8>) -> Option<Seq<char>> {
    if valid_utf8(bytes) {
        Some(decode_utf8(bytes))
    } else {
        None
    }
}

/// Whether an occurrence holds a nested message: it is length-delimited
/// and its payload is itself a run of fields.
pub open spec fn holds_message(occurrence: (u8, Seq<u8>)) -> bool {
    occurrence.0 == LENGTH_DELIMITED && parse_message(occurrence.1) is Some
}

/// A field takes at least two bytes and no more than there are.
pub proof fn lemma_parse_field_taken(s: Seq<u8>)
    requires
        parse_field(s) is Some,
    ensures
        2 <= parse_field(s).unwrap().1 <= s.len(),
{
}

/// A tag keeps what went into it: the wire type always, and the id as long
/// as it fits in the 29 bits above the wire type. Written as a
/// variable-length integer and read back in 32 bits, whatever follows, it is
/// the same tag.
pub proof fn law_tag_round_trip(id: u32, wire_type: u8, rest: Seq<u8>)
    requires
        wire_type < 8,
    ensures
        tag_wire_type(tag_of(id, wire_type)) == wire_type,
        tag_id(tag_of(id, wire_type)) == id % 0x2000_0000,
        id < 0x2000_0000 ==> tag_id(tag_of(id, wire_type)) == id,
        varint_complete(varint_bytes(tag_of(id, wire_type) as nat) + rest),
        varint_value(varint_bytes(tag_of(id, wire_type) as nat) + rest) % 0x1_0000_0000
            == tag_of(id, wire_type),
{
    law_varint_round_trip(tag_of(id, wire_type) as nat, rest);
}

/// A whole field at the front of `a` is the same field with anything after
/// `a`.
pub proof fn lemma_parse_field_extend(a: Seq<u8>, b: Seq<u8>)
    requires
        parse_field(a) is Some,
    ensures
        parse_field(a + b) == parse_field(a),
{
    lemma_varint_extend(a, b);
    let after_tag = a.skip(varint_len(a) as int);
    lemma_varint_extend(after_tag, b);
    let head = varint_len(a) + varint_len(after_tag);
    assert(a.skip(varint_len(a) as int).skip(varint_len(after_tag) as int) =~= a.skip(
        head as int,
    ));
    assert((a + b).skip(varint_len(a) as int).skip(varint_len(after_tag) as int) =~= (a
        + b).skip(head as int));
    let rest = a.skip(head as int);
    assert((a + b).skip(head as int) =~= rest + b);
    let constant = varint_value(after_tag) % 0x1_0000_0000_0000_0000;
    if constant <= rest.len() {
        assert((rest + b).take(constant as int) =~= rest.take(constant as int));
    }
}

/// Messages are read field after field: where `a` is a run of fields, `a`
/// followed by `b` holds the fields of `a` and then those of `b`, and fails
/// exactly where `b` fails.
pub proof fn law_parse_concat(a: Seq<u8>, b: Seq<u8>)
    requires
        parse_fields(a) is Some,
    ensures
        parse_fields(a + b) == match parse_fields(b) {
            Some(more) => Some(parse_fields(a).unwrap() + more),
            None => None,
        },
    decreases a.len(),
{
    if a.len() == 0 {
        assert(a + b =~= b);
        if let Some(more) = parse_fields(b) {
            assert(Seq::<Field>::empty() + more =~= more);
        }
    } else {
        let (field, taken) = parse_field(a).unwrap();
        lemma_parse_field_taken(a);
        lemma_parse_field_extend(a, b);
        assert((a + b).skip(taken as int) =~= a.skip(taken as int) + b);
        law_parse_concat(a.skip(taken as int), b);
        let mine = parse_fields(a.skip(taken as int)).unwrap();
        if let Some(more) = parse_fields(b) {
            assert(seq![field] + (mine + more) =~= (seq![field] + mine) + more);
        }
    }
}

/// What a tag, an integer and the bytes after them are read as.
pub open spec fn field_of_parts(tag: u32, constant: u64, rest: Seq<u8>) -> Option<(Field, nat)> {
    let head = varint_bytes(tag as nat).len() + varint_bytes(constant as nat).len();
    if tag_wire_type(tag) == VARINT {
        Some(
            (
                Field { id: tag_id(tag), wire_type: VARINT, value: decimal_text(constant as nat) },
                head,
            ),
        )
    } else if tag_wire_type(tag) == LENGTH_DELIMITED && constant <= rest.len() {
        Some(
            (
                Field {
                    id: tag_id(tag),
                    wire_type: LENGTH_DELIMITED,
                    value: rest.take(constant as int),
                },
                head + constant as nat,
            ),
        )
    } else {
        None
    }
}

/// The field at the front of an encoded tag, an encoded integer and any
/// bytes after them.
pub proof fn lemma_parse_field_of_parts(tag: u32, constant: u64, rest: Seq<u8>)
    ensures
        parse_field(varint_bytes(tag as nat) + varint_bytes(constant as nat) + rest)
            == field_of_parts(tag, constant, rest),
        (varint_bytes(tag as nat) + varint_bytes(constant as nat) + rest).skip(
            (varint_bytes(tag as nat).len() + varint_bytes(constant as nat).len()) as int,
        ) == rest,
{
    let t = varint_bytes(tag as nat);
    let c = varint_bytes(constant as nat);
    let s = t + c + rest;
    assert(s =~= t + (c + rest));
    law_varint_round_trip(tag as nat, c + rest);
    law_varint_round_trip(constant as nat, rest);
    let after_tag = s.skip(varint_len(s) as int);
    assert(after_tag == c + rest);
    assert(s.skip(t.len() as int).skip(c.len() as int) =~= s.skip((t.len() + c.len()) as int));
    assert(varint_value(s) % 0x1_0000_0000 == tag);
    assert(varint_value(after_tag) % 0x1_0000_0000_0000_0000 == constant);
}

/// A variable-length integer field is read back with its id, as long as
/// the id fits in 29 bits, and with its number as decimal text.
pub proof fn law_parse_constant_field(id: u32, value: u64)
    requires
        id < 0x2000_0000,
    ensures
        parse_fields(constant_field_bytes(id, value)) == Some(
            seq![Field { id, wire_type: VARINT, value: decimal_text(value as nat) }],
        ),
{
    let tag = tag_of(id, VARINT);
    let s = constant_field_bytes(id, value);
    lemma_parse_field_of_parts(tag, value, Seq::empty());
    assert(s =~= s + Seq::<u8>::empty());
    lemma_varint_bytes_len(tag as nat);
    let field = Field { id, wire_type: VARINT, value: decimal_text(value as nat) };
    let taken = parse_field(s).unwrap().1;
    assert(parse_field(s).unwrap().0 == field);
    assert(parse_fields(s.skip(taken as int)) == Some(Seq::<Field>::empty()));
    assert(seq![field] + Seq::<Field>::empty() =~= seq![field]);
}

/// A length-delimited field is read back with its id, as long as the id
/// fits in 29 bits, and with its payload byte for byte.
pub proof fn law_parse_buffer_field(id: u32, payload: Seq<u8>)
    requires
        id < 0x2000_0000,
        payload.len() <= u64::MAX,
    ensures
        parse_fields(buffer_field_bytes(id, payload)) == Some(
            seq![Field { id, wire_type: LENGTH_DELIMITED, value: payload }],
        ),
{
    let tag = tag_of(id, LENGTH_DELIMITED);
    let s = buffer_field_bytes(id, payload);
    lemma_parse_field_of_parts(tag, payload.len() as u64, payload);
    lemma_varint_bytes_len(tag as nat);
    assert(payload.take(payload.len() as int) =~= payload);
    let field = Field { id, wire_type: LENGTH_DELIMITED, value: payload };
    let head = varint_bytes(tag as nat).len() + varint_bytes(payload.len()).len();
    let taken = parse_field(s).unwrap().1;
    assert(parse_field(s).unwrap().0 == field);
    assert(taken == head + payload.len());
    assert(s.skip(head as int).skip(payload.len() as int) =~= s.skip(taken as int));
    assert(s.skip(taken as int) =~= Seq::<u8>::empty());
    assert(parse_fields(s.skip(taken as int)) == Some(Seq::<Field>::empty()));
    assert(seq![field] + Seq::<Field>::empty() =~= seq![field]);
}

/// A length-delimited field without the last byte of its payload is no
/// field.
pub proof fn lemma_truncated_field_rejected(id: u32, payload: Seq<u8>)
    requires
        1 <= payload.len() <= u64::MAX,
    ensures
        buffer_field_bytes(id, payload).drop_last().len() > 0,
        parse_field(buffer_field_bytes(id, payload).drop_last()) is None,
{
    let tag = tag_of(id, LENGTH_DELIMITED);
    let cut = payload.drop_last();
    lemma_parse_field_of_parts(tag, payload.len() as u64, cut);
    lemma_varint_bytes_len(tag as nat);
    assert(buffer_field_bytes(id, payload).drop_last() =~= varint_bytes(tag as nat)
        + varint_bytes(payload.len()) + cut);
}

/// A length-delimited field that lost the last byte of its payload is no
/// field, and neither is any run of fields that ends in it a message.
pub proof fn law_truncated_payload_rejected(before: Seq<u8>, id: u32, payload: Seq<u8>)
    requires
        parse_fields(before) is Some,
        1 <= payload.len() <= u64::MAX,
    ensures
        parse_fields(before + buffer_field_bytes(id, payload).drop_last()) is None,
        parse_message(before + buffer_field_bytes(id, payload).drop_last()) is None,
{
    lemma_truncated_field_rejected(id, payload);
    law_parse_concat(before, buffer_field_bytes(id, payload).drop_last());
}

/// Occurrences keep the order of the fields: those of a run of fields
/// followed by another are those of the first, then those of the second.
pub proof fn law_occurrences_in_order(first: Seq<Field>, second: Seq<Field>, id: u32)
    ensures
        occurrences(first + second, id) == occurrences(first, id) + occurrences(second, id),
{
    Seq::filter_distributes_over_add(first, second, has_id(id));
    let a = first.filter(has_id(id));
    let b = second.filter(has_id(id));
    assert((a + b).map_values(occurrence_of()) =~= a.map_values(occurrence_of()) + b.map_values(
        occurrence_of(),
    ));
}

/// One more field adds one occurrence at the end of the list of its id and
/// leaves the other lists as they are.
pub proof fn lemma_occurrences_push(fields: Seq<Field>, field: Field, id: u32)
    ensures
        occurrences(fields.push(field), id) == if field.id == id {
            occurrences(fields, id).push((field.wire_type, field.value))
        } else {
            occurrences(fields, id)
        },
{
    assert(fields.push(field) =~= fields + seq![field]);
    law_occurrences_in_order(fields, seq![field], id);
    reveal_with_fuel(Seq::filter, 2);
    let one = seq![field];
    assert(one.drop_last() =~= Seq::<Field>::empty());
    if field.id == id {
        assert(one.filter(has_id(id)) =~= one);
        assert(occurrences(one, id) =~= seq![(field.wire_type, field.value)]);
        assert(occurrences(fields, id) + seq![(field.wire_type, field.value)] =~= occurrences(
            fields,
            id,
        ).push((field.wire_type, field.value)));
    } else {
        assert(one.filter(has_id(id)) =~= Seq::<Field>::empty());
        assert(occurrences(one, id) =~= Seq::<(u8, Seq<u8>)>::empty());
        assert(occurrences(fields, id) + Seq::<(u8, Seq<u8>)>::empty() =~= occurrences(
            fields,
            id,
        ));
    }
}

/// Two fields written one after the other under one id are both read back
/// under it, in the order in which they were written.
pub proof fn law_repeated_id_keeps_write_order(a: Seq<u8>, b: Seq<u8>, id: u32)
    requires
        parse_fields(a) is Some,
        parse_fields(b) is Some,
    ensures
        parse_message(a + b) is Some,
        occurrences(parse_fields(a + b).unwrap(), id) == occurrences(parse_fields(a).unwrap(), id)
            + occurrences(parse_fields(b).unwrap(), id),
        parse_message(a + b).unwrap().contains_key(id) ==> parse_message(a + b).unwrap()[id]
            == occurrences(parse_fields(a).unwrap(), id) + occurrences(
            parse_fields(b).unwrap(),
            id,
        ),
{
    law_parse_concat(a, b);
    law_occurrences_in_order(parse_fields(a).unwrap(), parse_fields(b).unwrap(), id);
}

/// No fields make the empty message.
pub proof fn lemma_no_fields_no_message()
    ensures
        forall|id: u32| occurrences(Seq::<Field>::empty(), id) == Seq::<(u8, Seq<u8>)>::empty(),
        message_of(Seq::<Field>::empty()) == Map::<u32, Seq<(u8, Seq<u8>)>>::empty(),
{
    reveal_with_fuel(Seq::filter, 1);
    assert forall|id: u32|
        occurrences(Seq::<Field>::empty(), id) == Seq::<(u8, Seq<u8>)>::empty() by {
        assert(Seq::<Field>::empty().filter(has_id(id)) =~= Seq::<Field>::empty());
        assert(occurrences(Seq::<Field>::empty(), id) =~= Seq::<(u8, Seq<u8>)>::empty());
    }
    assert(message_of(Seq::<Field>::empty()) =~= Map::<u32, Seq<(u8, Seq<u8>)>>::empty());
}

/// The message of a single field: its id alone, with the one occurrence.
pub proof fn lemma_single_field_message(field: Field)
    ensures
        message_of(seq![field]).contains_key(field.id),
        message_of(seq![field])[field.id] == seq![(field.wire_type, field.value)],
        first_value(message_of(seq![field]), field.id) == Some(field.value),
        forall|id: u32| id != field.id ==> !message_of(seq![field]).contains_key(id),
{
    lemma_no_fields_no_message();
    assert(Seq::<Field>::empty().push(field) =~= seq![field]);
    assert forall|id: u32|
        occurrences(seq![field], id) == if field.id == id {
            seq![(field.wire_type, field.value)]
        } else {
            Seq::<(u8, Seq<u8>)>::empty()
        } by {
        lemma_occurrences_push(Seq::empty(), field, id);
        assert(Seq::<(u8, Seq<u8>)>::empty().push((field.wire_type, field.value)) =~= seq![
            (field.wire_type, field.value),
        ]);
    }
}

/// Bytes that spell a number are ASCII, and so they are text.
pub proof fn lemma_number_is_text(bytes: Seq<u8>, max: nat)
    requires
        decimal_value(bytes, max) is Some,
    ensures
        valid_utf8(bytes),
{
    let digits = unsigned_digits(bytes);
    assert forall|i: int| 0 <= i < bytes.len() implies #[trigger] bytes[i] <= 0x7f by {
        if digits.len() == bytes.len() {
            assert(is_digit(digits[i]));
        } else if i > 0 {
            assert(is_digit(digits[i - 1]));
        }
    }
    assert(bytes.subrange(0, 0) =~= Seq::<u8>::empty());
    assert(valid_utf8(bytes.subrange(0, 0)));
    partial_valid_utf8_extend_ascii_block(bytes, 0, bytes.len() as int);
    assert(bytes.subrange(0, bytes.len() as int) =~= bytes);
}

/// A number written as a variable-length integer field is read back as
/// that number by every numeric accessor wide enough to hold it.
pub proof fn law_constant_read_back(id: u32, value: u64, max: nat)
    requires
        id < 0x2000_0000,
        value <= max,
    ensures
        parse_message(constant_field_bytes(id, value)) is Some,
        first_value(parse_message(constant_field_bytes(id, value)).unwrap(), id) == Some(
            decimal_text(value as nat),
        ),
        valid_utf8(decimal_text(value as nat)),
        decimal_value(decimal_text(value as nat), max) == Some(value as nat),
{
    law_parse_constant_field(id, value);
    lemma_single_field_message(
        Field { id, wire_type: VARINT, value: decimal_text(value as nat) },
    );
    law_decimal_round_trip(value as nat, max);
    lemma_number_is_text(decimal_text(value as nat), max);
}

/// A text written as a string field is read back as that text, whatever
/// characters it holds.
pub proof fn law_string_read_back(id: u32, text: Seq<char>)
    requires
        id < 0x2000_0000,
        encode_utf8(text).len() <= u64::MAX,
    ensures
        parse_message(buffer_field_bytes(id, encode_utf8(text))) is Some,
        first_value(parse_message(buffer_field_bytes(id, encode_utf8(text))).unwrap(), id)
            == Some(encode_utf8(text)),
        text_of(encode_utf8(text)) == Some(text),
{
    law_parse_buffer_field(id, encode_utf8(text));
    lemma_single_field_message(
        Field { id, wire_type: LENGTH_DELIMITED, value: encode_utf8(text) },
    );
    encode_utf8_valid_utf8(text);
    encode_utf8_decode_utf8(text);
}

/// A message written as the payload of a field is found under that field
/// as a nested message, byte for byte: nesting loses nothing at any depth.
pub proof fn law_nested_read_back(id: u32, inner: Seq<u8>)
    requires
        id < 0x2000_0000,
        inner.len() <= u64::MAX,
        parse_message(inner) is Some,
    ensures
        parse_message(buffer_field_bytes(id, inner)) is Some,
        parse_message(buffer_field_bytes(id, inner)).unwrap()[id] == seq![
            (LENGTH_DELIMITED, inner),
        ],
        holds_message(parse_message(buffer_field_bytes(id, inner)).unwrap()[id][0]),
{
    law_parse_buffer_field(id, inner);
    lemma_single_field_message(Field { id, wire_type: LENGTH_DELIMITED, value: inner });
}

} // verus!
