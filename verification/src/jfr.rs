//! The trace reader: the calls into `jfrs` that the ingestion of a binary
//! trace makes.
//!
//! What the reader hands out is named, not defined: each call returns what
//! its name says of its arguments, and the contracts of the ingestion
//! speak of these names.

use jfrs::reader::{Chunk, ChunkReader, JfrReader};
use jfrs::reader::event::{Accessor, Event, EventIterator};
use jfrs::reader::value_descriptor::ValueDescriptor;
use std::io::Cursor;
use vstd::prelude::*;

verus! {

/// `jfrs::reader::JfrReader`, the reader of a trace.
#[verifier::external_type_specification]
#[verifier::external_body]
#[verifier::reject_recursive_types(T)]
pub struct ExJfrReader<T>(JfrReader<T>);

/// `std::io::Cursor`, through which the reader reads bytes held in memory.
#[verifier::external_type_specification]
#[verifier::external_body]
#[verifier::reject_recursive_types(T)]
pub struct ExCursor<T>(Cursor<T>);

/// `jfrs::reader::Chunk`, a chunk of a trace with its header, metadata and constant pool.
#[verifier::external_type_specification]
#[verifier::external_body]
pub struct ExChunk(Chunk);

/// `jfrs::reader::ChunkReader`, the reader of the events of a chunk.
#[verifier::external_type_specification]
#[verifier::external_body]
pub struct ExChunkReader(ChunkReader);

/// `jfrs::reader::Error`, why a chunk or an event could not be read.
#[verifier::external_type_specification]
#[verifier::external_body]
pub struct ExReaderError(jfrs::reader::Error);

/// `jfrs::reader::event::EventIterator`, the events of a chunk, one after the other.
#[verifier::external_type_specification]
#[verifier::external_body]
pub struct ExEventIterator<'a, 'b>(EventIterator<'a, 'b>);

/// `jfrs::reader::event::Event`, an event of a chunk.
#[verifier::external_type_specification]
#[verifier::external_body]
pub struct ExEvent<'a>(Event<'a>);

/// `jfrs::reader::event::Accessor`, a value of a chunk with access to its fields.
#[verifier::external_type_specification]
#[verifier::external_body]
pub struct ExAccessor<'a>(Accessor<'a>);

/// `jfrs::reader::value_descriptor::ValueDescriptor`, a decoded value.
#[verifier::external_type_specification]
#[verifier::external_body]
pub struct ExValueDescriptor(ValueDescriptor);

/// The reader that `JfrReader::new` makes over the bytes of a trace.
pub uninterp spec fn reader_of(bytes: Seq<u8>) -> JfrReader<Cursor<Vec<u8>>>;

/// What the next step of `JfrReader::chunks` gives, and the reader as the
/// step leaves it: the next chunk of the trace with the reader of its
/// events, an error where the chunk cannot be read, or nothing at the end
/// of the trace.
pub uninterp spec fn chunk_step(reader: JfrReader<Cursor<Vec<u8>>>) -> (
    Option<Result<(ChunkReader, Chunk), jfrs::reader::Error>>,
    JfrReader<Cursor<Vec<u8>>>,
);

/// Whether the reader returns from every step that can still be made of
/// it, and the iterator over the events of every chunk that it then
/// yields from every step made of that iterator. The reader does not on
/// every input: a size or a count that the bytes give wrongly can make it
/// panic or run without end.
pub uninterp spec fn returns_to_end(reader: JfrReader<Cursor<Vec<u8>>>) -> bool;

/// Whether the event iterator returns from every step that can still be
/// made of it.
pub uninterp spec fn events_return(events: EventIterator<'static, 'static>) -> bool;

/// The fields `start_time_nanos`, `start_ticks` and `ticks_per_second` of
/// the header of a chunk, in this order.
pub uninterp spec fn clock_of(chunk: Chunk) -> (i64, i64, i64);

/// The iterator that `ChunkReader::events` makes over the events of a
/// chunk.
pub uninterp spec fn events_of(reader: ChunkReader, chunk: Chunk) -> EventIterator<'static, 'static>;

/// What the next step of the event iterator gives, and the iterator as the
/// step leaves it: the next event, an error where it cannot be read, or
/// nothing at the end of the chunk.
pub uninterp spec fn event_step(events: EventIterator<'static, 'static>) -> (
    Option<Result<Event<'static>, jfrs::reader::Error>>,
    EventIterator<'static, 'static>,
);

/// The name of the class of an event: what `TypeDescriptor::name` returns
/// for it.
pub uninterp spec fn class_name_of(event: Event<'static>) -> Seq<char>;

/// The accessor of the fields of an event: what `Event::value` returns.
pub uninterp spec fn value_of(event: Event<'static>) -> Accessor<'static>;

/// What `Accessor::get_field` returns: the field of that name, a reference
/// into the constant pool followed to what it refers to; nothing where the
/// field is missing.
pub uninterp spec fn field_of(accessor: Accessor<'static>, name: Seq<char>) -> Option<Accessor<'static>>;

/// What `Accessor::get_field_raw` returns: the field of that name as it is
/// stored, a reference into the constant pool left as it is.
pub uninterp spec fn raw_field_of(accessor: Accessor<'static>, name: Seq<char>) -> Option<
    Accessor<'static>,
>;

/// What `Accessor::as_iter` yields: the elements of an array, or nothing
/// where the value is no array.
pub uninterp spec fn elements_of(accessor: Accessor<'static>) -> Option<Seq<Accessor<'static>>>;

/// The class id and the index of a value that is a reference into the
/// constant pool; nothing for any other value.
pub uninterp spec fn reference_in(accessor: Accessor<'static>) -> Option<(i64, i64)>;

/// What `i64::try_from` makes of a value: the number, where the value is a
/// long.
pub uninterp spec fn long_in(accessor: Accessor<'static>) -> Option<i64>;

/// What `i32::try_from` makes of a value: the number, where the value is
/// an int.
pub uninterp spec fn int_in(accessor: Accessor<'static>) -> Option<i32>;

/// What `<&str>::try_from` makes of a value: the text, where the value is
/// a string.
pub uninterp spec fn text_in(accessor: Accessor<'static>) -> Option<Seq<char>>;

/// The value that refers to the entry of the constant pool with the given
/// class id and index.
pub uninterp spec fn descriptor_of(class_id: i64, constant_index: i64) -> ValueDescriptor;

/// The accessor that `Accessor::new` makes of a value within a chunk.
pub uninterp spec fn accessor_of(chunk: Chunk, value: ValueDescriptor) -> Accessor<'static>;

/// The text of an optional string.
pub open spec fn text_view(text: Option<String>) -> Option<Seq<char>> {
    match text {
        Some(s) => Some(s@),
        None => None,
    }
}

/// `JfrReader::new` over the bytes of a trace held in memory.
#[verifier::external_body]
pub(crate) fn open_reader(bytes: Vec<u8>) -> (r: JfrReader<Cursor<Vec<u8>>>)
    ensures
        r == reader_of(bytes@),
{
    JfrReader::new(Cursor::new(bytes))
}

/// The next item of `JfrReader::chunks`: the next chunk of the trace with
/// the reader of its events, an error where the chunk cannot be read, or
/// nothing at the end of the trace. It is called only on a reader that
/// returns from its steps, and leaves such a reader and, with a chunk, an
/// iterator that returns from its steps.
#[verifier::external_body]
pub(crate) fn next_chunk(reader: &mut JfrReader<Cursor<Vec<u8>>>) -> (r: Option<
    Result<(ChunkReader, Chunk), jfrs::reader::Error>,
>)
    requires
        returns_to_end(*old(reader)),
    ensures
        r == chunk_step(*old(reader)).0,
        *final(reader) == chunk_step(*old(reader)).1,
        returns_to_end(*final(reader)),
        r matches Some(Ok(found)) ==> events_return(events_of(found.0, found.1)),
{
    reader.chunks().next()
}

/// The fields `start_time_nanos`, `start_ticks` and `ticks_per_second` of
/// the chunk's header, in this order.
#[verifier::external_body]
pub(crate) fn chunk_clock(chunk: &Chunk) -> (r: (i64, i64, i64))
    ensures
        r == clock_of(*chunk),
{
    (chunk.header.start_time_nanos, chunk.header.start_ticks, chunk.header.ticks_per_second)
}

/// `ChunkReader::events`: an iterator over the events of the chunk.
#[verifier::external_body]
pub(crate) fn chunk_events<'a, 'b>(reader: &'b mut ChunkReader, chunk: &'a Chunk) -> (r: EventIterator<
    'a,
    'b,
>)
    ensures
        r == events_of(*old(reader), *chunk),
{
    reader.events(chunk)
}

/// The next item of the event iterator: the next event, an error where it
/// cannot be read, or nothing at the end of the chunk. It is called only
/// on an iterator that returns from its steps, and leaves such a one.
#[verifier::external_body]
pub(crate) fn next_event<'a, 'b>(events: &mut EventIterator<'a, 'b>) -> (r: Option<
    Result<Event<'a>, jfrs::reader::Error>,
>)
    requires
        events_return(*old(events)),
    ensures
        r == event_step(*old(events)).0,
        *final(events) == event_step(*old(events)).1,
        events_return(*final(events)),
{
    events.next()
}

/// `TypeDescriptor::name` of the event's class.
#[verifier::external_body]
pub(crate) fn event_class_name<'a>(event: &Event<'a>) -> (r: &'a str)
    ensures
        r@ == class_name_of(*event),
{
    event.class.name()
}

/// `Event::value`: the accessor of the event's fields.
#[verifier::external_body]
pub(crate) fn event_value<'a>(event: &'a Event<'a>) -> (r: Accessor<'a>)
    ensures
        r == value_of(*event),
{
    event.value()
}

/// `Accessor::get_field`: the field of that name, a reference into the
/// constant pool followed to what it refers to; nothing where the field
/// is missing.
#[verifier::external_body]
pub(crate) fn get_field<'a>(accessor: &Accessor<'a>, name: &str) -> (r: Option<Accessor<'a>>)
    ensures
        r == field_of(*accessor, name@),
{
    accessor.get_field(name)
}

/// `Accessor::get_field_raw`: the field of that name as it is stored, a
/// reference into the constant pool left as it is.
#[verifier::external_body]
pub(crate) fn get_field_raw<'a>(accessor: &Accessor<'a>, name: &str) -> (r: Option<Accessor<'a>>)
    ensures
        r == raw_field_of(*accessor, name@),
{
    accessor.get_field_raw(name)
}

/// `Accessor::as_iter`, collected: the elements of an array, or nothing
/// where the value is no array.
#[verifier::external_body]
pub(crate) fn elements<'a>(accessor: Accessor<'a>) -> (r: Option<Vec<Accessor<'a>>>)
    ensures
        r is Some == elements_of(accessor) is Some,
        r is Some ==> r.unwrap()@ == elements_of(accessor).unwrap(),
{
    accessor.as_iter().map(|items| items.collect())
}

/// The class id and the index of a value that is a reference into the
/// constant pool; nothing for any other value.
#[verifier::external_body]
pub(crate) fn pool_reference<'a>(accessor: &Accessor<'a>) -> (r: Option<(i64, i64)>)
    ensures
        r == reference_in(*accessor),
{
    match accessor.value {
        ValueDescriptor::ConstantPool { class_id, constant_index } => Some(
            (*class_id, *constant_index),
        ),
        _ => None,
    }
}

/// `i64::try_from` of the value: the number, where the value is a long.
#[verifier::external_body]
pub(crate) fn as_long<'a>(accessor: &Accessor<'a>) -> (r: Option<i64>)
    ensures
        r == long_in(*accessor),
{
    i64::try_from(accessor.value).ok()
}

/// `i32::try_from` of the value: the number, where the value is an int.
#[verifier::external_body]
pub(crate) fn as_int<'a>(accessor: &Accessor<'a>) -> (r: Option<i32>)
    ensures
        r == int_in(*accessor),
{
    i32::try_from(accessor.value).ok()
}

/// `<&str>::try_from` of the value, copied: the text, where the value is a
/// string.
#[verifier::external_body]
pub(crate) fn as_text<'a>(accessor: &Accessor<'a>) -> (r: Option<String>)
    ensures
        text_view(r) == text_in(*accessor),
{
    <&str>::try_from(accessor.value).ok().map(|s| s.to_string())
}

/// The value that refers to the entry of the constant pool with the given
/// class id and index.
#[verifier::external_body]
pub(crate) fn pool_descriptor(class_id: i64, constant_index: i64) -> (r: ValueDescriptor)
    ensures
        r == descriptor_of(class_id, constant_index),
{
    ValueDescriptor::ConstantPool { class_id, constant_index }
}

/// `Accessor::new`: the accessor of a value within a chunk.
#[verifier::external_body]
pub(crate) fn accessor_at<'a>(chunk: &'a Chunk, value: &'a ValueDescriptor) -> (r: Accessor<'a>)
    ensures
        r == accessor_of(*chunk, *value),
{
    Accessor::new(chunk, value)
}

} // verus!
