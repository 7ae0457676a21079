//! Reading scope records out of one thread's event stream.
//!
//! The records are decoded by `puffin`'s stream reader. What the reader returns for a stream
//! and an offset is not restated here; it goes by the name [`scope_at`]. Everything built on
//! it is stated over that name.

use vstd::prelude::*;

verus! {

/// `puffin::Stream`, the bytes that one thread recorded. Nothing is known of a value but
/// what [`stream_bytes`] names.
#[verifier::external_type_specification]
#[verifier::external_body]
pub struct ExStream(puffin::Stream);

/// One decoded scope record, as plain values.
#[derive(Clone, Copy, Debug)]
pub struct ScopeEvent {
    /// The instrumentation point that emitted the record.
    pub id: u32,
    /// How long the scope ran, its nested scopes included.
    pub duration_ns: i64,
    /// Length in bytes of the dynamic payload carried by the record.
    pub data_len: usize,
    /// Stream offset of the first nested record.
    pub child_begin_position: u64,
    /// Stream offset of the record that follows this one on the same level.
    pub next_sibling_position: u64,
}

/// Why a stream could not be decoded any further.
#[derive(Clone, Copy, Debug, PartialEq, Eq, Structural)]
pub enum DecodeError {
    /// The stream ends in the middle of a record.
    PrematureEnd,
    /// The stream does not hold what a record must hold.
    InvalidStream,
    /// A scope was entered and never left.
    ScopeNeverEnded,
    /// The offset lies beyond the end of the stream.
    InvalidOffset,
    /// The stream is empty.
    Empty,
}

/// The bytes that a stream holds, in order.
pub uninterp spec fn stream_bytes(stream: puffin::Stream) -> Seq<u8>;

/// What `puffin`'s reader yields first when it is placed at `offset` in a stream of these bytes:
/// a record, the end of the level (`Ok(None)`), or a failure.
pub uninterp spec fn scope_at(bytes: Seq<u8>, offset: u64) -> Result<Option<ScopeEvent>, DecodeError>;

/// `puffin::Stream::bytes` hands out the stream's bytes.
pub assume_specification[ puffin::Stream::bytes ](stream: &puffin::Stream) -> (bytes: &[u8])
    ensures
        bytes@ == stream_bytes(*stream),
;

/// The unsigned value of the eight bytes from `at` on, least significant byte first.
pub open spec fn le_u64(bytes: Seq<u8>, at: int) -> int {
    bytes[at] + bytes[at + 1] * 0x100 + bytes[at + 2] * 0x1_0000 + bytes[at + 3] * 0x100_0000
        + bytes[at + 4] * 0x1_0000_0000 + bytes[at + 5] * 0x100_0000_0000 + bytes[at + 6]
        * 0x1_0000_0000_0000 + bytes[at + 7] * 0x100_0000_0000_0000
}

/// The same eight bytes read as a signed number in two's complement.
pub open spec fn le_i64(bytes: Seq<u8>, at: int) -> int {
    let unsigned = le_u64(bytes, at);
    if unsigned < 0x8000_0000_0000_0000 {
        unsigned
    } else {
        unsigned - 0x1_0000_0000_0000_0000
    }
}

/// Whether the numbers written in the record at `offset` can be combined within 64 bits.
///
/// A record opens with `(`, a 4-byte id that is not zero, the 8-byte start time, a 1-byte
/// payload length, the payload, and the 8-byte size of the nested records; after the nested
/// records come `)` and the 8-byte stop time. The reader adds the size to the offset of the
/// nested records and subtracts the start time from the stop time. This holds unless one of
/// the two leaves the range of its type. Where the bytes are not laid out like this the
/// reader does neither, and this holds.
pub open spec fn fields_in_range(bytes: Seq<u8>, offset: u64) -> bool {
    let len = bytes.len() as int;
    let child_begin = offset + 22 + bytes[offset + 13];
    let size = le_u64(bytes, child_begin - 8);
    let child_end = child_begin + size;
    let id_is_zero = bytes[offset + 1] == 0 && bytes[offset + 2] == 0 && bytes[offset + 3] == 0
        && bytes[offset + 4] == 0;
    if offset + 14 <= len && bytes[offset as int] == 0x28 && !id_is_zero && child_begin <= len
        && size != u64::MAX {
        &&& child_end <= u64::MAX
        &&& child_end + 9 <= len && bytes[child_end] == 0x29 ==> le_i64(bytes, child_end + 1)
            - le_i64(bytes, offset + 5) <= i64::MAX
    } else {
        true
    }
}

/// Whether a record read at `offset` lies where a record can lie: its nested records begin
/// after `offset`, its successor begins after them, within the stream, and it did not end
/// before it began.
pub open spec fn well_placed(event: ScopeEvent, offset: u64, len: nat) -> bool {
    &&& offset < event.child_begin_position
    &&& event.child_begin_position < event.next_sibling_position
    &&& event.next_sibling_position <= len
    &&& event.duration_ns >= 0
}

/// What [`read_scope`] returns at `offset`: what the reader yields there, but
/// `InvalidStream` where the record's numbers are out of range or the record is not
/// [`well_placed`].
pub open spec fn read_at(bytes: Seq<u8>, offset: u64) -> Result<Option<ScopeEvent>, DecodeError> {
    if !fields_in_range(bytes, offset) {
        Err(DecodeError::InvalidStream)
    } else {
        match scope_at(bytes, offset) {
            Ok(Some(event)) => if well_placed(event, offset, bytes.len()) {
                Ok(Some(event))
            } else {
                Err(DecodeError::InvalidStream)
            },
            other => other,
        }
    }
}

/// A scope with the scopes nested in it, as far as the stream could be decoded.
pub struct ScopeTree {
    /// The scope's own record.
    pub event: ScopeEvent,
    /// The scopes nested directly in it, in stream order.
    pub children: Seq<ScopeTree>,
    /// Whether decoding reached the end of the nested scopes. Where it failed before,
    /// `children` holds what was decoded until then.
    pub complete: bool,
}

/// What one level of a stream decodes to: its scopes in stream order, up to the first
/// failure, and that failure.
pub struct Decoded {
    pub trees: Seq<ScopeTree>,
    pub error: Option<DecodeError>,
}

/// The scopes of the level that begins at `offset`, each with its nested scopes.
///
/// Decoding goes depth first and ends at the first failure, on whatever level it occurs:
/// the scopes in which it occurred are the last of their levels and are not `complete`.
pub open spec fn decode_level(bytes: Seq<u8>, offset: u64) -> Decoded
    decreases bytes.len() - offset,
{
    match read_at(bytes, offset) {
        Err(error) => Decoded { trees: Seq::empty(), error: Some(error) },
        Ok(None) => Decoded { trees: Seq::empty(), error: None },
        Ok(Some(event)) => {
            let inner = decode_level(bytes, event.child_begin_position);
            if inner.error.is_some() {
                Decoded {
                    trees: seq![ScopeTree { event, children: inner.trees, complete: false }],
                    error: inner.error,
                }
            } else {
                let rest = decode_level(bytes, event.next_sibling_position);
                Decoded {
                    trees: seq![ScopeTree { event, children: inner.trees, complete: true }]
                        + rest.trees,
                    error: rest.error,
                }
            }
        },
    }
}

/// The scope of a given record with the scopes nested in it.
pub open spec fn tree_at(bytes: Seq<u8>, event: ScopeEvent) -> ScopeTree {
    let inner = decode_level(bytes, event.child_begin_position);
    ScopeTree { event, children: inner.trees, complete: inner.error.is_none() }
}

fn read_le_u64(bytes: &[u8], at: usize) -> (value: u64)
    requires
        at + 8 <= bytes@.len(),
    ensures
        value == le_u64(bytes@, at as int),
{
    (bytes[at] as u64) + (bytes[at + 1] as u64) * 0x100 + (bytes[at + 2] as u64) * 0x1_0000 + (
    bytes[at + 3] as u64) * 0x100_0000 + (bytes[at + 4] as u64) * 0x1_0000_0000 + (bytes[at
        + 5] as u64) * 0x100_0000_0000 + (bytes[at + 6] as u64) * 0x1_0000_0000_0000 + (bytes[at
        + 7] as u64) * 0x100_0000_0000_0000
}

fn read_le_i64(bytes: &[u8], at: usize) -> (value: i64)
    requires
        at + 8 <= bytes@.len(),
    ensures
        value == le_i64(bytes@, at as int),
{
    let unsigned = read_le_u64(bytes, at);
    if unsigned < 0x8000_0000_0000_0000 {
        unsigned as i64
    } else {
        ((unsigned - 0x8000_0000_0000_0000) as i64) + i64::MIN
    }
}

/// Decides [`fields_in_range`] from the bytes.
fn check_fields(bytes: &[u8], offset: u64) -> (fit: bool)
    ensures
        fit == fields_in_range(bytes@, offset),
{
    let len = bytes.len();
    if offset >= len as u64 || len - (offset as usize) < 14 {
        return true;
    }
    let start = offset as usize;
    if bytes[start] != 0x28 {
        return true;
    }
    if bytes[start + 1] == 0 && bytes[start + 2] == 0 && bytes[start + 3] == 0 && bytes[start + 4]
        == 0 {
        return true;
    }
    let data_len = bytes[start + 13] as usize;
    if len - start - 14 < data_len + 8 {
        return true;
    }
    let child_begin = start + 22 + data_len;
    let size = read_le_u64(bytes, child_begin - 8);
    if size == u64::MAX {
        return true;
    }
    if size > u64::MAX - (child_begin as u64) {
        return false;
    }
    if size >= (len - child_begin) as u64 || len - child_begin - (size as usize) < 9 {
        return true;
    }
    let child_end = child_begin + size as usize;
    if bytes[child_end] != 0x29 {
        return true;
    }
    let started = read_le_i64(bytes, start + 5);
    let stopped = read_le_i64(bytes, child_end + 1);
    stopped as i128 - started as i128 <= i64::MAX as i128
}

/// Places `puffin`'s `Reader` at `offset` (`Reader::with_offset`) and takes its first item
/// (`Iterator::next`), moving the record's fields into a [`ScopeEvent`] and the error into a
/// [`DecodeError`]. The result is a function of the stream's bytes and the offset, named
/// [`scope_at`]. The reader panics where its arithmetic overflows, so those streams are
/// left out.
#[verifier::external_body]
fn read_raw(stream: &puffin::Stream, offset: u64) -> (read: Result<Option<ScopeEvent>, DecodeError>)
    requires
        fields_in_range(stream_bytes(*stream), offset),
    ensures
        read == scope_at(stream_bytes(*stream), offset),
{
    match puffin::Reader::with_offset(stream, offset).and_then(|mut reader| reader.next().transpose()) {
        Ok(None) => Ok(None),
        Ok(Some(scope)) => Ok(Some(ScopeEvent {
            id: scope.id.0.get(),
            duration_ns: scope.record.duration_ns,
            data_len: scope.record.data.len(),
            child_begin_position: scope.child_begin_position,
            next_sibling_position: scope.next_sibling_position,
        })),
        Err(puffin::Error::PrematureEnd) => Err(DecodeError::PrematureEnd),
        Err(puffin::Error::InvalidStream) => Err(DecodeError::InvalidStream),
        Err(puffin::Error::ScopeNeverEnded) => Err(DecodeError::ScopeNeverEnded),
        Err(puffin::Error::InvalidOffset) => Err(DecodeError::InvalidOffset),
        Err(puffin::Error::Empty) => Err(DecodeError::Empty),
    }
}

/// Reads the record at `offset`, or finds that the level ends there.
///
/// Fails as the reader fails, and with `InvalidStream` on a record whose numbers are out of
/// range or that is not [`well_placed`].
pub fn read_scope(stream: &puffin::Stream, offset: u64) -> (read: Result<
    Option<ScopeEvent>,
    DecodeError,
>)
    ensures
        read == read_at(stream_bytes(*stream), offset),
{
    let bytes = stream.bytes();
    if !check_fields(bytes, offset) {
        return Err(DecodeError::InvalidStream);
    }
    match read_raw(stream, offset) {
        Ok(Some(event)) => {
            if offset < event.child_begin_position && event.child_begin_position
                < event.next_sibling_position && event.next_sibling_position <= bytes.len() as u64
                && event.duration_ns >= 0 {
                Ok(Some(event))
            } else {
                Err(DecodeError::InvalidStream)
            }
        },
        other => other,
    }
}

} // verus!
