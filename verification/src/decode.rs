//! The recursive decoder and its mathematical specification.
//!
//! `spec_decode` states, byte for byte, what one encoded value at a given
//! cursor position means: which tag class it falls in, how many bytes it
//! consumes, and which error a malformed or truncated input earns.
//! `decode_blob_portion_at_position` and `decode_whole_blob` are proved to
//! return exactly what `spec_decode` says.

use vstd::prelude::*;

use crate::data::BufferError;
use crate::data::Error;
use crate::data::ParsedData;
use crate::data::SpecData;
use crate::data::views_of;
use crate::data::lemma_views_of_push;
use crate::source::Blob;
use crate::source::clip_to_usize;
use crate::source::spec_read_byte;
use crate::source::spec_read_slice;
use crate::BORDER_A;
use crate::BORDER_B;
use crate::BORDER_C;
use crate::BORDER_D;

verus! {

/// The unsigned big-endian value of a byte run.
pub open spec fn be_value(s: Seq<u8>) -> nat
    decreases s.len(),
{
    if s.len() == 0 {
        0
    } else {
        be_value(s.drop_last()) * 256 + s.last() as nat
    }
}

/// 256 to the power `len`: the exclusive upper bound of `be_value` on a run
/// of `len` bytes.
pub open spec fn be_bound(len: nat) -> nat
    decreases len,
{
    if len == 0 {
        1
    } else {
        256 * be_bound((len - 1) as nat)
    }
}

pub proof fn lemma_be_bound_mono(a: nat, b: nat)
    requires
        a <= b,
    ensures
        1 <= be_bound(a) <= be_bound(b),
    decreases b,
{
    if a < b {
        lemma_be_bound_mono(a, (b - 1) as nat);
    } else {
        lemma_be_bound_pos(a);
    }
}

pub proof fn lemma_be_bound_pos(a: nat)
    ensures
        1 <= be_bound(a),
    decreases a,
{
    if a > 0 {
        lemma_be_bound_pos((a - 1) as nat);
    }
}

pub proof fn lemma_be_value_bound(s: Seq<u8>)
    ensures
        be_value(s) < be_bound(s.len()),
    decreases s.len(),
{
    if s.len() > 0 {
        lemma_be_value_bound(s.drop_last());
    }
}

/// One value decoded from the visible bytes at `pos`: the tree it denotes
/// and the cursor position just past it, or the failure it earns.
///
/// `bytes` is the whole visible extent of the source; a nested list confines
/// its children to a truncated view, `bytes.take(border)`, so that a child
/// claiming more than the list declared fails instead of reading on.
pub open spec fn spec_decode(bytes: Seq<u8>, pos: nat) -> Result<(SpecData, int), BufferError>
    decreases bytes.len() - pos, 0int,
{
    match spec_read_byte(bytes, pos as int) {
        Err(e) => Err(e),
        Ok(tag) => {
            let p1 = pos + 1;
            if tag < BORDER_A {
                Ok((SpecData::Byte(tag), p1 as int))
            } else if tag < BORDER_B {
                let len = (tag - BORDER_A) as nat;
                match spec_read_slice(bytes, p1 as int, len as int) {
                    Err(e) => Err(e),
                    Ok(payload) => Ok((SpecData::String(payload), p1 + len as int)),
                }
            } else if tag < BORDER_C {
                let info_len = (tag - BORDER_B + 1) as nat;
                match spec_read_slice(bytes, p1 as int, info_len as int) {
                    Err(e) => Err(e),
                    Ok(len_bytes) => {
                        let len = be_value(len_bytes);
                        let p2 = p1 + info_len;
                        match spec_read_slice(bytes, p2 as int, len as int) {
                            Err(e) => Err(e),
                            Ok(payload) => Ok((SpecData::String(payload), p2 + len as int)),
                        }
                    },
                }
            } else if tag < BORDER_D {
                let len = (tag - BORDER_C) as nat;
                let border = p1 + len;
                if border > bytes.len() {
                    Err(
                        BufferError::DataTooShort {
                            position: 0,
                            minimal_length: clip_to_usize(border as int),
                        },
                    )
                } else {
                    match spec_decode_list(bytes.take(border as int), p1) {
                        Err(e) => Err(e),
                        Ok(children) => Ok((SpecData::List(children), border as int)),
                    }
                }
            } else {
                let info_len = (tag - BORDER_D + 1) as nat;
                match spec_read_slice(bytes, p1 as int, info_len as int) {
                    Err(e) => Err(e),
                    Ok(len_bytes) => {
                        let len = be_value(len_bytes);
                        let p2 = p1 + info_len;
                        let border = p2 + len;
                        if border > bytes.len() {
                            Err(
                                BufferError::DataTooShort {
                                    position: 0,
                                    minimal_length: clip_to_usize(border as int),
                                },
                            )
                        } else {
                            match spec_decode_list(bytes.take(border as int), p2) {
                                Err(e) => Err(e),
                                Ok(children) => Ok((SpecData::List(children), border as int)),
                            }
                        }
                    },
                }
            }
        },
    }
}

/// The children of a list: values decoded one after the other from `pos`
/// until the end of the (already truncated) visible bytes is reached exactly.
pub open spec fn spec_decode_list(bytes: Seq<u8>, pos: nat) -> Result<Seq<SpecData>, BufferError>
    decreases bytes.len() - pos, 1int,
{
    if pos >= bytes.len() {
        Ok(Seq::empty())
    } else {
        match spec_decode(bytes, pos) {
            Err(e) => Err(e),
            Ok((child, next)) => {
                if pos < next <= bytes.len() {
                    match spec_decode_list(bytes, next as nat) {
                        Err(e) => Err(e),
                        Ok(rest) => Ok(seq![child] + rest),
                    }
                } else {
                    // Never reached: a decoded value consumes at least its tag
                    // byte and never passes the end (lemma_spec_decode_advances).
                    // The guard keeps the recursion visibly bounded.
                    Err(BufferError::DataTooShort { position: clip_to_usize(pos as int), minimal_length: 1 })
                }
            },
        }
    }
}

/// A successful decode moves the cursor forward, and never past the end of
/// the visible bytes.
pub proof fn lemma_spec_decode_advances(bytes: Seq<u8>, pos: nat)
    ensures
        spec_decode(bytes, pos) matches Ok((v, next)) ==> pos < next <= bytes.len(),
{
}

/// Reads a byte run of at most eight bytes as one unsigned big-endian
/// integer, most significant byte first.
fn be_value_of(bytes: &Vec<u8>) -> (r: u64)
    requires
        bytes@.len() <= 8,
    ensures
        r as nat == be_value(bytes@),
{
    let mut value: u64 = 0;
    let mut i: usize = 0;
    while i < bytes.len()
        invariant
            i <= bytes@.len() <= 8,
            value as nat == be_value(bytes@.take(i as int)),
            (value as nat) < be_bound(i as nat),
        decreases bytes@.len() - i,
    {
        proof {
            lemma_be_bound_mono(i as nat, 7);
            assert(be_bound(8) == 0x10000000000000000) by {
                reveal_with_fuel(be_bound, 9);
            }
            assert(bytes@.take(i as int + 1).drop_last() =~= bytes@.take(i as int));
        }
        value = value * 256 + (bytes[i] as u64);
        i += 1;
    }
    proof {
        assert(bytes@.take(bytes@.len() as int) =~= bytes@);
    }
    value
}

/// Decodes exactly one value starting at the cursor, advancing the cursor
/// past it. Exactly what `spec_decode` says happens, happens: the returned
/// tree, the final cursor and any failure all match it.
pub fn decode_blob_portion_at_position(data: &Blob<'_>, position: &mut usize) -> (r: Result<
    ParsedData,
    Error,
>)
    ensures
        match r {
            Ok(v) => ({
                &&& spec_decode(data@, *old(position) as nat) == Ok::<
                    (SpecData, int),
                    BufferError,
                >((v@, *final(position) as int))
                &&& *old(position) < *final(position) <= data@.len()
            }),
            Err(e) => ({
                &&& e matches Error::Buffer(be)
                &&& spec_decode(data@, *old(position) as nat) == Err::<
                    (SpecData, int),
                    BufferError,
                >(be)
                &&& *old(position) <= *final(position)
            }),
        },
    decreases data@.len() - *position, 0int,
{
    let current_byte = match data.read_byte(*position) {
        Ok(b) => b,
        Err(be) => {
            return Err(Error::Buffer(be));
        },
    };
    *position = *position + 1;

    if current_byte < BORDER_A {
        Ok(ParsedData::Byte(current_byte))
    } else if current_byte < BORDER_B {
        let string_length = (current_byte - BORDER_A) as usize;
        let slice = match data.read_slice(*position, string_length) {
            Ok(s) => s,
            Err(be) => {
                return Err(Error::Buffer(be));
            },
        };
        *position = *position + string_length;
        Ok(ParsedData::String(slice))
    } else if current_byte < BORDER_C {
        let info_length = (current_byte - BORDER_B + 1) as usize;
        let length_bytes = match data.read_slice(*position, info_length) {
            Ok(s) => s,
            Err(be) => {
                return Err(Error::Buffer(be));
            },
        };
        *position = *position + info_length;
        let string_length_wide = be_value_of(&length_bytes);
        if string_length_wide > usize::MAX as u64 {
            // A payload this long cannot even be addressed, let alone served.
            return Err(
                Error::Buffer(
                    BufferError::DataTooShort { position: *position, minimal_length: usize::MAX },
                ),
            );
        }
        let string_length = string_length_wide as usize;
        let slice = match data.read_slice(*position, string_length) {
            Ok(s) => s,
            Err(be) => {
                return Err(Error::Buffer(be));
            },
        };
        *position = *position + string_length;
        Ok(ParsedData::String(slice))
    } else if current_byte < BORDER_D {
        let list_length = (current_byte - BORDER_C) as usize;
        if list_length > usize::MAX - *position {
            // The border would lie beyond the address space, so certainly
            // beyond the source.
            return Err(
                Error::Buffer(BufferError::DataTooShort { position: 0, minimal_length: usize::MAX }),
            );
        }
        let border = *position + list_length;
        let limited = match data.limit_length(border) {
            Ok(b) => b,
            Err(be) => {
                return Err(Error::Buffer(be));
            },
        };
        let list_content = match decode_list_children(&limited, position) {
            Ok(c) => c,
            Err(e) => {
                return Err(e);
            },
        };
        Ok(ParsedData::List(list_content))
    } else {
        let info_length = (current_byte - BORDER_D + 1) as usize;
        let length_bytes = match data.read_slice(*position, info_length) {
            Ok(s) => s,
            Err(be) => {
                return Err(Error::Buffer(be));
            },
        };
        *position = *position + info_length;
        let list_length_wide = be_value_of(&length_bytes);
        if list_length_wide > usize::MAX as u64 {
            // The border would lie beyond the address space, so certainly
            // beyond the source.
            return Err(
                Error::Buffer(BufferError::DataTooShort { position: 0, minimal_length: usize::MAX }),
            );
        }
        let list_length = list_length_wide as usize;
        if list_length > usize::MAX - *position {
            return Err(
                Error::Buffer(BufferError::DataTooShort { position: 0, minimal_length: usize::MAX }),
            );
        }
        let border = *position + list_length;
        let limited = match data.limit_length(border) {
            Ok(b) => b,
            Err(be) => {
                return Err(Error::Buffer(be));
            },
        };
        let list_content = match decode_list_children(&limited, position) {
            Ok(c) => c,
            Err(e) => {
                return Err(e);
            },
        };
        Ok(ParsedData::List(list_content))
    }
}

/// Decodes list children against an already truncated view, one after the
/// other, until the cursor reaches the view's end exactly.
fn decode_list_children<'a>(limited: &Blob<'a>, position: &mut usize) -> (r: Result<
    Vec<ParsedData>,
    Error,
>)
    requires
        *old(position) <= limited@.len(),
    ensures
        match r {
            Ok(children) => ({
                &&& spec_decode_list(limited@, *old(position) as nat) == Ok::<
                    Seq<SpecData>,
                    BufferError,
                >(views_of(children@))
                &&& *final(position) == limited@.len()
                &&& *old(position) <= *final(position)
            }),
            Err(e) => ({
                &&& e matches Error::Buffer(be)
                &&& spec_decode_list(limited@, *old(position) as nat) == Err::<
                    Seq<SpecData>,
                    BufferError,
                >(be)
                &&& *old(position) <= *final(position)
            }),
        },
    decreases limited@.len() - *position, 1int,
{
    let ghost start = *position as nat;
    let border = limited.total_len();
    let mut list_content: Vec<ParsedData> = Vec::new();
    while *position < border
        invariant
            start == *old(position) as nat,
            start <= *position as nat,
            *position <= border,
            border == limited@.len(),
            spec_decode_list(limited@, start) == (match spec_decode_list(
                limited@,
                *position as nat,
            ) {
                Ok(rest) => Ok::<Seq<SpecData>, BufferError>(views_of(list_content@) + rest),
                Err(e) => Err::<Seq<SpecData>, BufferError>(e),
            }),
        decreases border - *position,
    {
        let ghost prev = *position as nat;
        let ghost prev_content = list_content@;
        let parsed_data = match decode_blob_portion_at_position(limited, position) {
            Ok(p) => p,
            Err(e) => {
                return Err(e);
            },
        };
        list_content.push(parsed_data);
        proof {
            lemma_views_of_push(prev_content, parsed_data);
            let ghost tail = spec_decode_list(limited@, *position as nat);
            match tail {
                Ok(rest) => {
                    assert((views_of(prev_content) + (seq![parsed_data@] + rest)) =~= (views_of(
                        list_content@,
                    ) + rest));
                },
                Err(e) => {},
            }
        }
    }
    proof {
        assert(views_of(list_content@) + Seq::<SpecData>::empty() =~= views_of(list_content@));
    }
    Ok(list_content)
}

/// Decodes the source as exactly one value covering all of it: trailing
/// bytes after the decoded value are an error naming where they start.
pub fn decode_whole_blob(data: &Blob<'_>) -> (r: Result<ParsedData, Error>)
    ensures
        match r {
            Ok(v) => spec_decode(data@, 0) == Ok::<(SpecData, int), BufferError>(
                (v@, data@.len() as int),
            ),
            Err(e) => match e {
                Error::Buffer(be) => spec_decode(data@, 0) == Err::<(SpecData, int), BufferError>(
                    be,
                ),
                Error::SomeDataUnused { from } => ({
                    &&& spec_decode(data@, 0) matches Ok((v, end))
                    &&& end == from as int
                    &&& (from as int) < data@.len()
                }),
            },
        },
{
    let mut position: usize = 0;
    let parsed_data = match decode_blob_portion_at_position(data, &mut position) {
        Ok(p) => p,
        Err(e) => {
            return Err(e);
        },
    };
    if position < data.total_len() {
        Err(Error::SomeDataUnused { from: position })
    } else {
        Ok(parsed_data)
    }
}

} // verus!
