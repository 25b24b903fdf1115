//! The decoded tree value and the decoder's error taxonomy.

use vstd::prelude::*;

verus! {

/// A decoded tree value: a single scalar byte, an opaque byte string, or an
/// ordered list of nested values.
#[derive(Debug, PartialEq, Eq)]
pub enum ParsedData {
    Byte(u8),
    List(Vec<ParsedData>),
    String(Vec<u8>),
}

/// The mathematical shape of a [`ParsedData`] tree, used in contracts.
pub enum SpecData {
    Byte(u8),
    List(Seq<SpecData>),
    String(Seq<u8>),
}

impl View for ParsedData {
    type V = SpecData;

    open spec fn view(&self) -> SpecData
        decreases self,
    {
        match self {
            ParsedData::Byte(b) => SpecData::Byte(*b),
            ParsedData::String(s) => SpecData::String(s@),
            ParsedData::List(children) => SpecData::List(views_of(children@)),
        }
    }
}

/// The views of a sequence of tree values, element by element.
pub open spec fn views_of(s: Seq<ParsedData>) -> Seq<SpecData>
    decreases s,
{
    if s.len() == 0 {
        Seq::empty()
    } else {
        views_of(s.drop_last()).push(s.last()@)
    }
}

pub proof fn lemma_views_of_push(s: Seq<ParsedData>, d: ParsedData)
    ensures
        views_of(s.push(d)) == views_of(s).push(d@),
{
    assert(s.push(d).drop_last() =~= s);
    assert(s.push(d).last() == d);
}

/// A failed read against the byte source's declared bound.
#[derive(Debug, PartialEq, Eq)]
pub enum BufferError {
    /// `minimal_length` bytes were wanted at `position`, but the visible
    /// bytes end before them.
    DataTooShort { position: usize, minimal_length: usize },
    /// `position` itself lies past the visible extent of `total_length`
    /// bytes.
    OutOfRange { position: usize, total_length: usize },
}

/// Everything that can go wrong while decoding.
#[derive(Debug, PartialEq, Eq)]
pub enum Error {
    /// A read or bounds failure reported by the byte source; fatal to the
    /// whole decode, and the only failure a single-value decode can earn.
    Buffer(BufferError),
    /// The whole-input decode produced a value, but bytes remain from
    /// offset `from` on.
    SomeDataUnused { from: usize },
}

} // verus!
