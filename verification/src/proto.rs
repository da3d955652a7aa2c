//! The tagged message codec: a writer that composes fields into bytes and a
//! reader that parses bytes into a message once and answers lookups on it.

use crate::buffer_tools::{BufferReader, BufferWriter};
use crate::decimal::{decimal_digits, decimal_value, parse_decimal};
use crate::key_order::lemma_keys_ascending;
use crate::varint::{varint_bytes, varint_len};
use crate::wire::{
    buffer_field_bytes, constant_field_bytes, first_value, holds_message,
    lemma_no_fields_no_message, lemma_number_is_text, lemma_occurrences_push,
    lemma_parse_field_taken, message_of, occurrences, parse_field, parse_fields, parse_message,
    tag_of, text_of, Field, Message, LENGTH_DELIMITED, VARINT,
};
use std::collections::BTreeMap;
use vstd::prelude::*;
use vstd::slice::slice_to_vec;
use vstd::std_specs::btree::spec_keys_iter;
use vstd::std_specs::iter::IteratorSpec;
use vstd::utf8::{decode_utf8_encode_utf8, encode_utf8, encode_utf8_decode_utf8, valid_utf8};

verus! {

/// Composes a message field by field. Every write appends one whole field
/// and changes nothing written before.
pub struct ProtoWriter {
    writer: BufferWriter,
}

impl View for ProtoWriter {
    type V = Seq<u8>;

    /// The bytes of the fields written so far.
    closed spec fn view(&self) -> Seq<u8> {
        self.writer@
    }
}

impl ProtoWriter {
    /// A writer of a message without fields.
    pub fn new() -> (r: ProtoWriter)
        ensures
            r@ == Seq::<u8>::empty(),
    {
        ProtoWriter { writer: BufferWriter::new() }
    }

    /// Appends a length-delimited field: tag, byte count, bytes.
    pub fn write_buffer(&mut self, index: u32, buffer: &Vec<u8>)
        ensures
            final(self)@ == old(self)@ + buffer_field_bytes(index, buffer@),
    {
        let tag: u32 = index << 3 | 2;
        proof {
            assert(tag == ((index as u64 * 8) % 0x1_0000_0000 + 2) as u32) by (bit_vector)
                requires
                    tag == index << 3 | 2,
            ;
            assert(tag == tag_of(index, LENGTH_DELIMITED));
        }
        self.writer.write_var(tag as u64);
        self.writer.write_var(buffer.len() as u64);
        self.writer.write_bytes(buffer.as_slice());
    }

    /// Appends a variable-length integer field: tag, number.
    pub fn write_constant64(&mut self, index: u32, constant: u64)
        ensures
            final(self)@ == old(self)@ + constant_field_bytes(index, constant),
    {
        let tag: u32 = index << 3;
        proof {
            assert(tag == ((index as u64 * 8) % 0x1_0000_0000) as u32) by (bit_vector)
                requires
                    tag == index << 3,
            ;
            assert(tag == tag_of(index, VARINT));
        }
        self.writer.write_var(tag as u64);
        self.writer.write_var(constant);
        proof {
            let written = varint_bytes(tag as nat);
            let number = varint_bytes(constant as nat);
            assert(old(self)@ + written + number =~= old(self)@ + (written + number));
        }
    }

    /// The same for a 32-bit number.
    pub fn write_constant32(&mut self, index: u32, constant: u32)
        ensures
            final(self)@ == old(self)@ + constant_field_bytes(index, constant as u64),
    {
        self.write_constant64(index, constant as u64)
    }

    /// Appends the UTF-8 bytes of `string` as a length-delimited field.
    pub fn write_string(&mut self, index: u32, string: &str)
        ensures
            final(self)@ == old(self)@ + buffer_field_bytes(index, encode_utf8(string@)),
    {
        let bytes: Vec<u8> = slice_to_vec(string.as_bytes());
        self.write_buffer(index, &bytes);
    }

    /// Appends a nested message as a length-delimited field: `func` fills a
    /// fresh writer, and what it wrote becomes the payload.
    pub fn write<T>(&mut self, index: u32, func: T) where T: Fn(&mut ProtoWriter)
        requires
            forall|nested: &mut ProtoWriter|
                nested@ == Seq::<u8>::empty() ==> call_requires(func, (nested,)),
        ensures
            exists|nested: &mut ProtoWriter|
                nested@ == Seq::<u8>::empty() && call_ensures(func, (nested,), ())
                    && final(self)@ == old(self)@ + buffer_field_bytes(
                    index,
                    #[trigger] final(nested)@,
                ),
    {
        let mut writer = ProtoWriter::new();
        func(&mut writer);
        self.write_buffer(index, &writer.close());
    }

    /// Ends the message and hands out its bytes.
    pub fn close(self) -> (r: Vec<u8>)
        ensures
            r@ == self@,
    {
        self.writer.close()
    }
}

/// The error of `String::from_utf8`, carried through and never looked into.
#[verifier::external_type_specification]
#[verifier::external_body]
pub struct ExFromUtf8Error(std::string::FromUtf8Error);

/// `String::from_utf8` checks that the bytes are valid UTF-8 and, where they
/// are, turns the vector into a string of those very bytes; where they are
/// not, it returns an error.
pub assume_specification[ String::from_utf8 ](vec: Vec<u8>) -> (r: Result<
    String,
    std::string::FromUtf8Error,
>)
    ensures
        r is Ok <==> valid_utf8(vec@),
        r matches Ok(string) ==> encode_utf8(string@) == vec@,
;

/// A message parsed from bytes once and for all.
#[derive(Debug)]
pub struct ProtoReader {
    values: BTreeMap<u32, Vec<(u8, Vec<u8>)>>,
}

/// A list of occurrences as plain values: each wire type with the bytes of
/// its value.
pub open spec fn occurrence_views(list: Seq<(u8, Vec<u8>)>) -> Seq<(u8, Seq<u8>)> {
    list.map_values(|occurrence: (u8, Vec<u8>)| (occurrence.0, occurrence.1@))
}

/// The message that a map of occurrence lists stands for.
spec fn message_view(values: Map<u32, Vec<(u8, Vec<u8>)>>) -> Message {
    Map::new(|id: u32| values.contains_key(id), |id: u32| occurrence_views(values[id]@))
}

impl View for ProtoReader {
    type V = Message;

    closed spec fn view(&self) -> Message {
        message_view(self.values@)
    }
}

/// Reads the field at the front of what `reader` has left.
fn read_field(reader: &mut BufferReader) -> (r: Option<(u32, u8, Vec<u8>)>)
    ensures
        match r {
            Some((id, wire_type, value)) => {
                &&& parse_field(old(reader)@) is Some
                &&& parse_field(old(reader)@).unwrap().0 == (Field {
                    id,
                    wire_type,
                    value: value@,
                })
                &&& final(reader)@ == old(reader)@.skip(
                    parse_field(old(reader)@).unwrap().1 as int,
                )
            },
            None => parse_field(old(reader)@) is None,
        },
{
    let ghost left = reader@;
    let tag: u32 = reader.read_var_u32()?;
    let id: u32 = tag >> 3;
    assert(tag & 0x7 < 8) by (bit_vector);
    let wire_type: u8 = (tag & 0x7) as u8;
    let ghost after_tag = reader@;
    let constant: u64 = reader.read_var_u64()?;
    proof {
        assert(id == tag / 8 && wire_type == tag % 8) by (bit_vector)
            requires
                id == tag >> 3,
                wire_type == (tag & 0x7) as u8,
        ;
        let head = varint_len(left) + varint_len(after_tag);
        assert(left.skip(varint_len(left) as int).skip(varint_len(after_tag) as int)
            =~= left.skip(head as int));
    }
    let ghost rest = reader@;
    if wire_type == VARINT {
        Some((id, wire_type, decimal_digits(constant)))
    } else if wire_type == LENGTH_DELIMITED {
        if constant > reader.remaining() as u64 {
            return None;
        }
        let value: Vec<u8> = reader.read_bytes(constant as usize)?;
        proof {
            let head = varint_len(left) + varint_len(after_tag);
            assert(rest.skip(constant as int) =~= left.skip(head + constant));
        }
        Some((id, wire_type, value))
    } else {
        None
    }
}

/// Adds one occurrence at the end of the list of its id.
fn add_occurrence(
    values: &mut BTreeMap<u32, Vec<(u8, Vec<u8>)>>,
    id: u32,
    wire_type: u8,
    value: Vec<u8>,
    Ghost(fields): Ghost<Seq<Field>>,
)
    requires
        message_view(old(values)@) == message_of(fields),
    ensures
        message_view(final(values)@) == message_of(
            fields.push(Field { id, wire_type, value: value@ }),
        ),
{
    let ghost before = values@;
    let ghost field = Field { id, wire_type, value: value@ };
    let mut list: Vec<(u8, Vec<u8>)> = match values.remove(&id) {
        Some(list) => list,
        None => Vec::new(),
    };
    let ghost old_list = list;
    list.push((wire_type, value));
    proof {
        assert(occurrence_views(list@) =~= occurrence_views(old_list@).push((wire_type, value@)));
        assert(message_view(before).contains_key(id) == message_of(fields).contains_key(id));
        if before.contains_key(id) {
            assert(message_view(before)[id] == message_of(fields)[id]);
        } else {
            assert(occurrence_views(old_list@) =~= occurrences(fields, id));
        }
        lemma_occurrences_push(fields, field, id);
        assert(occurrence_views(list@) == occurrences(fields.push(field), id));
    }
    values.insert(id, list);
    proof {
        assert(values@ =~= before.insert(id, list));
        assert(message_view(values@).contains_key(id));
        assert(message_view(values@)[id] == occurrence_views(list@));
        let now = message_view(values@);
        let want = message_of(fields.push(field));
        assert forall|key: u32| now.dom().contains(key) == want.dom().contains(key) by {
            lemma_occurrences_push(fields, field, key);
            assert(message_view(before).dom().contains(key) == message_of(fields).dom().contains(
                key,
            ));
        }
        assert forall|key: u32| now.dom().contains(key) implies now[key] == want[key] by {
            lemma_occurrences_push(fields, field, key);
            if key != id {
                assert(before.contains_key(key));
                assert(message_view(before)[key] == message_of(fields)[key]);
            }
        }
        assert(message_view(values@) =~= message_of(fields.push(field)));
    }
}

impl ProtoReader {
    /// A list is there for an id only once the id has occurred.
    #[verifier::type_invariant]
    spec fn no_empty_list(&self) -> bool {
        forall|id: u32| #[trigger] self.values@.contains_key(id) ==> self.values@[id]@.len() > 0
    }

    /// Parses `buffer` from its first byte to its last. There is a reader
    /// exactly where the whole of it is a run of fields.
    pub fn new(buffer: Vec<u8>) -> (r: Option<ProtoReader>)
        ensures
            match r {
                Some(reader) => parse_message(buffer@) == Some(reader@),
                None => parse_message(buffer@) is None,
            },
    {
        let mut buffer_reader = BufferReader::new(buffer);
        let mut values: BTreeMap<u32, Vec<(u8, Vec<u8>)>> = BTreeMap::new();
        let ghost mut done: Seq<Field> = Seq::empty();
        proof {
            lemma_no_fields_no_message();
            assert(message_view(values@) =~= message_of(done));
            if let Some(more) = parse_fields(buffer@) {
                assert(done + more =~= more);
            }
        }
        loop
            invariant
                parse_fields(buffer@) == match parse_fields(buffer_reader@) {
                    Some(more) => Some(done + more),
                    None => None,
                },
                message_view(values@) == message_of(done),
            decreases buffer_reader@.len(),
        {
            if buffer_reader.is_empty() {
                proof {
                    assert(done + Seq::<Field>::empty() =~= done);
                    assert forall|id: u32| #[trigger] values@.contains_key(id) implies values@[id]@.len()
                        > 0 by {
                        assert(message_view(values@).contains_key(id));
                        assert(message_view(values@)[id].len() > 0);
                    }
                }
                return Some(ProtoReader { values });
            }
            let ghost left = buffer_reader@;
            let (id, wire_type, value) = read_field(&mut buffer_reader)?;
            let ghost field = Field { id, wire_type, value: value@ };
            proof {
                lemma_parse_field_taken(left);
                if let Some(more) = parse_fields(buffer_reader@) {
                    assert(done + (seq![field] + more) =~= done.push(field) + more);
                }
            }
            add_occurrence(&mut values, id, wire_type, value, Ghost(done));
            proof {
                done = done.push(field);
            }
        }
    }

    /// The occurrences of `id` in the order of the input, where it has any.
    pub fn get_values(&self, id: u32) -> (r: Option<&Vec<(u8, Vec<u8>)>>)
        ensures
            match r {
                Some(list) => self@.contains_key(id) && occurrence_views(list@) == self@[id],
                None => !self@.contains_key(id),
            },
    {
        self.values.get(&id)
    }

    /// The value of the first occurrence of `id`, where `id` occurred.
    pub fn get_single_value(&self, id: u32) -> (r: Option<Vec<u8>>)
        ensures
            r is Some <==> self@.contains_key(id),
            match r {
                Some(value) => first_value(self@, id) == Some(value@),
                None => first_value(self@, id) is None,
            },
    {
        proof {
            use_type_invariant(self);
        }
        let list = self.get_values(id)?;
        assert(occurrence_views(list@).len() == list@.len());
        Some(list[0].1.clone())
    }

    /// The value of the first occurrence of `id` as text.
    pub fn get_value_as_string(&self, id: u32) -> (r: Option<String>)
        ensures
            match r {
                Some(string) => first_value(self@, id) is Some && text_of(
                    first_value(self@, id).unwrap(),
                ) == Some(string@),
                None => first_value(self@, id) is None || text_of(
                    first_value(self@, id).unwrap(),
                ) is None,
            },
    {
        let value: Vec<u8> = self.get_single_value(id)?;
        let string: String = String::from_utf8(value).ok()?;
        proof {
            encode_utf8_decode_utf8(string@);
        }
        Some(string)
    }

    /// The value of the first occurrence of `id` as a 32-bit number: the
    /// number that it spells as decimal text.
    pub fn get_value_as_u32(&self, id: u32) -> (r: Option<u32>)
        ensures
            match r {
                Some(number) => first_value(self@, id) is Some && decimal_value(
                    first_value(self@, id).unwrap(),
                    u32::MAX as nat,
                ) == Some(number as nat),
                None => first_value(self@, id) is None || decimal_value(
                    first_value(self@, id).unwrap(),
                    u32::MAX as nat,
                ) is None,
            },
    {
        proof {
            if let Some(value) = first_value(self@, id) {
                if decimal_value(value, u32::MAX as nat) is Some {
                    lemma_number_is_text(value, u32::MAX as nat);
                }
            }
        }
        let string: String = self.get_value_as_string(id)?;
        proof {
            decode_utf8_encode_utf8(first_value(self@, id).unwrap());
        }
        let number: u64 = parse_decimal(string.as_str().as_bytes(), u32::MAX as u64)?;
        Some(number as u32)
    }

    /// The value of the first occurrence of `id` as a 64-bit number: the
    /// number that it spells as decimal text.
    pub fn get_value_as_u64(&self, id: u32) -> (r: Option<u64>)
        ensures
            match r {
                Some(number) => first_value(self@, id) is Some && decimal_value(
                    first_value(self@, id).unwrap(),
                    u64::MAX as nat,
                ) == Some(number as nat),
                None => first_value(self@, id) is None || decimal_value(
                    first_value(self@, id).unwrap(),
                    u64::MAX as nat,
                ) is None,
            },
    {
        proof {
            if let Some(value) = first_value(self@, id) {
                if decimal_value(value, u64::MAX as nat) is Some {
                    lemma_number_is_text(value, u64::MAX as nat);
                }
            }
        }
        let string: String = self.get_value_as_string(id)?;
        proof {
            decode_utf8_encode_utf8(first_value(self@, id).unwrap());
        }
        parse_decimal(string.as_str().as_bytes(), u64::MAX)
    }

    /// Whether `id` occurred at all.
    pub fn has_field(&self, id: u32) -> (r: bool)
        ensures
            r == self@.contains_key(id),
    {
        self.values.contains_key(&id)
    }

    /// Calls `func` with a reader of each nested message under `id`, in the
    /// order of the input. An occurrence that is not length-delimited, or
    /// whose payload is no message, is passed over.
    pub fn read<T>(&self, id: u32, func: T) where T: Fn(ProtoReader)
        requires
            forall|nested: ProtoReader, i: int|
                #![trigger call_requires(func, (nested,)), self@[id][i]]
                self@.contains_key(id) && 0 <= i < self@[id].len() && holds_message(self@[id][i])
                    && parse_message(self@[id][i].1) == Some(nested@) ==> call_requires(
                    func,
                    (nested,),
                ),
        ensures
            forall|i: int|
                self@.contains_key(id) && 0 <= i < self@[id].len() && holds_message(
                    #[trigger] self@[id][i],
                ) ==> exists|nested: ProtoReader|
                    parse_message(self@[id][i].1) == Some(nested@) && #[trigger] call_ensures(
                        func,
                        (nested,),
                        (),
                    ),
    {
        let members = match self.get_values(id) {
            Some(members) => members,
            None => {
                return ;
            },
        };
        let mut index: usize = 0;
        while index < members.len()
            invariant
                index <= members@.len(),
                self@.contains_key(id),
                occurrence_views(members@) == self@[id],
                forall|nested: ProtoReader, i: int|
                    #![trigger call_requires(func, (nested,)), self@[id][i]]
                    self@.contains_key(id) && 0 <= i < self@[id].len() && holds_message(
                        self@[id][i],
                    ) && parse_message(self@[id][i].1) == Some(nested@) ==> call_requires(
                        func,
                        (nested,),
                    ),
                forall|i: int|
                    0 <= i < index && holds_message(#[trigger] self@[id][i]) ==> exists|
                        nested: ProtoReader,
                    |
                        parse_message(self@[id][i].1) == Some(nested@) && #[trigger] call_ensures(
                            func,
                            (nested,),
                            (),
                        ),
            decreases members@.len() - index,
        {
            let member = &members[index];
            assert(self@[id][index as int] == (member.0, member.1@));
            if member.0 == LENGTH_DELIMITED {
                match ProtoReader::new(member.1.clone()) {
                    Some(reader) => {
                        func(reader);
                    },
                    None => {},
                }
            }
            index += 1;
        }
    }

    /// The ids that occurred, each once, in ascending order.
    pub fn ids(&self) -> (r: Vec<u32>)
        ensures
            forall|id: u32| r@.contains(id) <==> self@.contains_key(id),
            forall|i: int, j: int| 0 <= i < j < r@.len() ==> r@[i] < r@[j],
    {
        let mut ids: Vec<u32> = Vec::new();
        for key in iter: self.values.keys()
            invariant
                iter.seq() == spec_keys_iter(&self.values).remaining(),
                ids@ == iter.seq().take(iter.index()).map_values(|key: &u32| *key),
        {
            ids.push(*key);
        }
        proof {
            let keys = spec_keys_iter(&self.values).remaining();
            assert(keys.take(keys.len() as int) =~= keys);
            lemma_keys_ascending(keys, ids@, self.values@.dom());
        }
        ids
    }
}

} // verus!
