//! The byte source: a read-only window over a byte vector.
//!
//! A [`Blob`] couples borrowed bytes with a truncation limit. All reads are
//! checked against that limit, and [`Blob::limit_length`] produces a further
//! truncated window over the same bytes, so a nested structure can be decoded
//! without ever reading past its declared extent.

use vstd::prelude::*;

use crate::data::BufferError;

verus! {

/// `n` if it is addressable, else the largest addressable value. Lengths
/// declared inside the encoding may mathematically exceed the address space;
/// an error report clips them, since no such read can ever succeed.
pub open spec fn clip_to_usize(n: int) -> usize {
    if n > usize::MAX as int {
        usize::MAX
    } else {
        n as usize
    }
}

/// What reading one byte at `position` from the visible bytes yields.
pub open spec fn spec_read_byte(bytes: Seq<u8>, position: int) -> Result<u8, BufferError> {
    if position > bytes.len() {
        Err(
            BufferError::OutOfRange {
                position: position as usize,
                total_length: bytes.len() as usize,
            },
        )
    } else if position + 1 > bytes.len() {
        Err(BufferError::DataTooShort { position: position as usize, minimal_length: 1 })
    } else {
        Ok(bytes[position])
    }
}

/// What reading `slice_len` bytes at `position` from the visible bytes yields.
pub open spec fn spec_read_slice(bytes: Seq<u8>, position: int, slice_len: int) -> Result<
    Seq<u8>,
    BufferError,
> {
    if position > bytes.len() {
        Err(
            BufferError::OutOfRange {
                position: position as usize,
                total_length: bytes.len() as usize,
            },
        )
    } else if position + slice_len > bytes.len() {
        Err(
            BufferError::DataTooShort {
                position: position as usize,
                minimal_length: clip_to_usize(slice_len),
            },
        )
    } else {
        Ok(bytes.subrange(position, position + slice_len))
    }
}

/// A bounded, read-only view of a byte vector.
///
/// The view exposes only the first `limit` bytes of the underlying data;
/// its abstract value (`self@`) is exactly that visible prefix.
pub struct Blob<'a> {
    data: &'a Vec<u8>,
    limit: usize,
}

impl<'a> View for Blob<'a> {
    type V = Seq<u8>;

    closed spec fn view(&self) -> Seq<u8> {
        self.data@.take(self.limit as int)
    }
}

impl<'a> Blob<'a> {
    #[verifier::type_invariant]
    spec fn inv(self) -> bool {
        self.limit <= self.data@.len()
    }

    /// A view of the whole vector.
    pub fn new(data: &'a Vec<u8>) -> (r: Blob<'a>)
        ensures
            r@ == data@,
    {
        let limit = data.len();
        proof {
            assert(data@.take(limit as int) =~= data@);
        }
        Blob { data, limit }
    }

    /// The declared total byte extent of this view.
    pub fn total_len(&self) -> (r: usize)
        ensures
            r == self@.len(),
    {
        proof {
            use_type_invariant(self);
        }
        self.limit
    }

    /// Read the single byte at `position`, or report how the read fails.
    pub fn read_byte(&self, position: usize) -> (r: Result<u8, BufferError>)
        ensures
            r == spec_read_byte(self@, position as int),
            self@.len() <= usize::MAX,
    {
        proof {
            use_type_invariant(self);
        }
        if position > self.limit {
            Err(BufferError::OutOfRange { position, total_length: self.limit })
        } else if position == self.limit {
            Err(BufferError::DataTooShort { position, minimal_length: 1 })
        } else {
            Ok(self.data[position])
        }
    }

    /// Read `slice_len` contiguous bytes starting at `position`, or report
    /// how the read fails.
    pub fn read_slice(&self, position: usize, slice_len: usize) -> (r: Result<Vec<u8>, BufferError>)
        ensures
            match r {
                Ok(v) => spec_read_slice(self@, position as int, slice_len as int) == Ok::<
                    Seq<u8>,
                    BufferError,
                >(v@),
                Err(e) => spec_read_slice(self@, position as int, slice_len as int) == Err::<
                    Seq<u8>,
                    BufferError,
                >(e),
            },
            self@.len() <= usize::MAX,
    {
        proof {
            use_type_invariant(self);
        }
        if position > self.limit {
            Err(BufferError::OutOfRange { position, total_length: self.limit })
        } else if slice_len > self.limit - position {
            Err(BufferError::DataTooShort { position, minimal_length: slice_len })
        } else {
            let mut out: Vec<u8> = Vec::new();
            let mut i: usize = 0;
            while i < slice_len
                invariant
                    i <= slice_len,
                    position + slice_len <= self.limit <= self.data@.len(),
                    out@ == self.data@.subrange(position as int, position + i),
                decreases slice_len - i,
            {
                let byte = self.data[position + i];
                out.push(byte);
                proof {
                    assert(out@ =~= self.data@.subrange(position as int, position + i + 1));
                }
                i += 1;
            }
            proof {
                assert(out@ =~= self@.subrange(position as int, position + slice_len));
            }
            Ok(out)
        }
    }

    /// A further truncated view sharing the same underlying bytes: reads at
    /// or past `new_len` are rejected by the returned view.
    pub fn limit_length(&self, new_len: usize) -> (r: Result<Blob<'a>, BufferError>)
        ensures
            match r {
                Ok(b) => new_len <= self@.len() && b@ == self@.take(new_len as int),
                Err(e) => new_len > self@.len() && e == (BufferError::DataTooShort {
                    position: 0,
                    minimal_length: new_len,
                }),
            },
    {
        proof {
            use_type_invariant(self);
        }
        if new_len > self.limit {
            Err(BufferError::DataTooShort { position: 0, minimal_length: new_len })
        } else {
            proof {
                assert(self.data@.take(new_len as int) =~= self@.take(new_len as int));
            }
            Ok(Blob { data: self.data, limit: new_len })
        }
    }
}

} // verus!
