//! What a conformant encoder emits, and the laws tying it to the decoder.
//!
//! The decoder itself never produces this encoding; the functions here state
//! it mathematically so that the round-trip law can be proved: decoding the
//! encoding of any well-formed tree yields that tree back, consuming exactly
//! its encoding.

use vstd::prelude::*;

use crate::data::BufferError;
use crate::data::SpecData;
use crate::decode::be_bound;
use crate::decode::be_value;
use crate::decode::spec_decode;
use crate::decode::spec_decode_list;
use crate::BORDER_A;
use crate::BORDER_B;
use crate::BORDER_C;
use crate::BORDER_D;
use vstd::arithmetic::div_mod::lemma_fundamental_div_mod;

verus! {

/// The minimal big-endian byte run of value `n`: no leading zero byte,
/// empty for zero.
pub open spec fn be_bytes(n: nat) -> Seq<u8>
    decreases n,
{
    if n == 0 {
        Seq::empty()
    } else {
        be_bytes(n / 256).push((n % 256) as u8)
    }
}

pub proof fn lemma_be_bytes_value(n: nat)
    ensures
        be_value(be_bytes(n)) == n,
    decreases n,
{
    if n > 0 {
        lemma_be_bytes_value(n / 256);
        assert(be_bytes(n / 256).push((n % 256) as u8).drop_last() =~= be_bytes(n / 256));
        lemma_fundamental_div_mod(n as int, 256);
    }
}

pub proof fn lemma_be_bytes_len(n: nat, k: nat)
    requires
        n < be_bound(k),
    ensures
        be_bytes(n).len() <= k,
    decreases k,
{
    if n > 0 {
        lemma_fundamental_div_mod(n as int, 256);
        lemma_be_bytes_len(n / 256, (k - 1) as nat);
    }
}

/// The header a conformant encoder writes before a string payload of
/// `len` bytes.
pub open spec fn string_header(len: nat) -> Seq<u8> {
    if len < 56 {
        seq![(BORDER_A + len) as u8]
    } else {
        seq![(BORDER_B + be_bytes(len).len() - 1) as u8] + be_bytes(len)
    }
}

/// The header a conformant encoder writes before a list whose encoded
/// children take `len` bytes.
pub open spec fn list_header(len: nat) -> Seq<u8> {
    if len < 56 {
        seq![(BORDER_C + len) as u8]
    } else {
        seq![(BORDER_D + be_bytes(len).len() - 1) as u8] + be_bytes(len)
    }
}

/// The encoding of one value under the scheme the decoder accepts.
pub open spec fn spec_encode(v: SpecData) -> Seq<u8>
    decreases v,
{
    match v {
        SpecData::Byte(b) => seq![b],
        SpecData::String(s) => string_header(s.len()) + s,
        SpecData::List(children) => list_header(spec_encode_seq(children).len()) + spec_encode_seq(
            children,
        ),
    }
}

/// The encodings of a run of values, one after the other.
pub open spec fn spec_encode_seq(s: Seq<SpecData>) -> Seq<u8>
    decreases s,
{
    if s.len() == 0 {
        Seq::empty()
    } else {
        spec_encode_seq(s.drop_last()) + spec_encode(s.last())
    }
}

/// Whether a tree can come from a conformant encoder: scalars lie below the
/// first tag border, and every payload length fits the eight-byte
/// length-of-length form.
pub open spec fn spec_wf(v: SpecData) -> bool
    decreases v,
{
    match v {
        SpecData::Byte(b) => b < BORDER_A,
        SpecData::String(s) => s.len() < be_bound(8),
        SpecData::List(children) => spec_encode_seq(children).len() < be_bound(8) && spec_wf_seq(
            children,
        ),
    }
}

/// Whether every tree of a run is well formed.
pub open spec fn spec_wf_seq(s: Seq<SpecData>) -> bool
    decreases s,
{
    if s.len() == 0 {
        true
    } else {
        spec_wf_seq(s.drop_last()) && spec_wf(s.last())
    }
}

pub proof fn lemma_encode_seq_push(s: Seq<SpecData>, v: SpecData)
    ensures
        spec_encode_seq(s.push(v)) == spec_encode_seq(s) + spec_encode(v),
{
    assert(s.push(v).drop_last() =~= s);
}

/// An encoding never is empty: every value writes at least one byte.
pub proof fn lemma_encode_len_pos(v: SpecData)
    ensures
        spec_encode(v).len() >= 1,
{
}

/// A run's encoding is the first value's encoding followed by the rest's.
pub proof fn lemma_encode_seq_first(s: Seq<SpecData>)
    requires
        s.len() > 0,
    ensures
        spec_encode_seq(s) == spec_encode(s[0]) + spec_encode_seq(s.drop_first()),
    decreases s,
{
    if s.len() == 1 {
        assert(s.drop_last() =~= Seq::<SpecData>::empty());
        assert(s.drop_first() =~= Seq::<SpecData>::empty());
        assert(s.last() == s[0]);
        assert(spec_encode_seq(s) =~= spec_encode(s[0]) + spec_encode_seq(s.drop_first()));
    } else {
        let dl = s.drop_last();
        lemma_encode_seq_first(dl);
        assert(dl.drop_first().push(s.last()) =~= s.drop_first());
        lemma_encode_seq_push(dl.drop_first(), s.last());
        assert(dl[0] == s[0]);
        assert((spec_encode(s[0]) + spec_encode_seq(dl.drop_first())) + spec_encode(s.last())
            =~= spec_encode(s[0]) + (spec_encode_seq(dl.drop_first()) + spec_encode(s.last())));
    }
}

/// Well-formedness of a run reaches its first value and all that follow it.
pub proof fn lemma_wf_seq_first(s: Seq<SpecData>)
    requires
        spec_wf_seq(s),
        s.len() > 0,
    ensures
        spec_wf(s[0]),
        spec_wf_seq(s.drop_first()),
    decreases s,
{
    if s.len() == 1 {
        assert(s.last() == s[0]);
        assert(s.drop_first() =~= Seq::<SpecData>::empty());
    } else {
        let dl = s.drop_last();
        lemma_wf_seq_first(dl);
        assert(dl[0] == s[0]);
        assert(dl.drop_first().push(s.last()) =~= s.drop_first());
        assert(s.drop_first().drop_last() =~= dl.drop_first());
        assert(s.drop_first().last() == s.last());
    }
}

proof fn lemma_embedded_index(bytes: Seq<u8>, pos: nat, enc: Seq<u8>, i: int)
    requires
        pos + enc.len() <= bytes.len(),
        bytes.subrange(pos as int, (pos + enc.len()) as int) == enc,
        0 <= i < enc.len(),
    ensures
        bytes[pos + i] == enc[i],
{
    assert(bytes.subrange(pos as int, (pos + enc.len()) as int)[i] == bytes[pos + i]);
}

proof fn lemma_embedded_segment(bytes: Seq<u8>, pos: nat, enc: Seq<u8>, a: nat, b: nat)
    requires
        pos + enc.len() <= bytes.len(),
        bytes.subrange(pos as int, (pos + enc.len()) as int) == enc,
        a <= b <= enc.len(),
    ensures
        bytes.subrange((pos + a) as int, (pos + b) as int) == enc.subrange(a as int, b as int),
{
    assert forall|i: int| 0 <= i < b - a implies bytes.subrange(
        (pos + a) as int,
        (pos + b) as int,
    )[i] == enc.subrange(a as int, b as int)[i] by {
        lemma_embedded_index(bytes, pos, enc, a + i);
        assert(bytes.subrange((pos + a) as int, (pos + b) as int)[i] == bytes[pos + a + i]);
        assert(enc.subrange(a as int, b as int)[i] == enc[a + i]);
    }
    assert(bytes.subrange((pos + a) as int, (pos + b) as int) =~= enc.subrange(
        a as int,
        b as int,
    ));
}

/// Round trip, stated for an encoding embedded anywhere in the visible
/// bytes: decoding at its start yields exactly the encoded tree, and leaves
/// the cursor exactly past the encoding — so a list whose encoded children
/// sum to the declared content length lands exactly on its border.
pub proof fn lemma_decode_encode(v: SpecData, bytes: Seq<u8>, pos: nat)
    requires
        spec_wf(v),
        pos + spec_encode(v).len() <= bytes.len(),
        bytes.subrange(pos as int, (pos + spec_encode(v).len()) as int) == spec_encode(v),
    ensures
        spec_decode(bytes, pos) == Ok::<(SpecData, int), BufferError>(
            (v, (pos + spec_encode(v).len()) as int),
        ),
    decreases v,
{
    let enc = spec_encode(v);
    lemma_embedded_index(bytes, pos, enc, 0);
    match v {
        SpecData::Byte(b) => {
            assert(bytes[pos as int] == b);
        },
        SpecData::String(s) => {
            let hlen = string_header(s.len()).len();
            assert(enc[0] == string_header(s.len())[0]);
            lemma_embedded_segment(bytes, pos, enc, hlen, hlen + s.len());
            assert(enc.subrange(hlen as int, (hlen + s.len()) as int) =~= s);
            if s.len() < 56 {
                assert(bytes[pos as int] == (BORDER_A + s.len()) as u8);
            } else {
                let lb = be_bytes(s.len());
                let k = lb.len();
                lemma_be_bytes_len(s.len(), 8);
                lemma_be_bytes_value(s.len());
                assert(k >= 1);
                assert(string_header(s.len())[0] == seq![(BORDER_B + k - 1) as u8][0]);
                lemma_embedded_segment(bytes, pos, enc, 1, 1 + k);
                assert(enc.subrange(1, (1 + k) as int) =~= lb) by {
                    assert forall|i: int| 0 <= i < k implies enc.subrange(1, (1 + k) as int)[i]
                        == lb[i] by {
                        assert(enc[1 + i] == string_header(s.len())[1 + i]);
                        assert(string_header(s.len())[1 + i] == lb[i]);
                    }
                }
            }
        },
        SpecData::List(children) => {
            let payload = spec_encode_seq(children);
            let plen = payload.len();
            let hlen = list_header(plen).len();
            let cstart = pos + hlen;
            let border = cstart + plen;
            assert(enc[0] == list_header(plen)[0]);
            lemma_embedded_segment(bytes, pos, enc, hlen, hlen + plen);
            assert(enc.subrange(hlen as int, (hlen + plen) as int) =~= payload);
            let inner = bytes.take(border as int);
            assert(inner.subrange(cstart as int, border as int) =~= bytes.subrange(
                cstart as int,
                border as int,
            ));
            if plen < 56 {
                assert(bytes[pos as int] == (BORDER_C + plen) as u8);
            } else {
                let lb = be_bytes(plen);
                let k = lb.len();
                lemma_be_bytes_len(plen, 8);
                lemma_be_bytes_value(plen);
                assert(k >= 1);
                assert(list_header(plen)[0] == seq![(BORDER_D + k - 1) as u8][0]);
                lemma_embedded_segment(bytes, pos, enc, 1, 1 + k);
                assert(enc.subrange(1, (1 + k) as int) =~= lb) by {
                    assert forall|i: int| 0 <= i < k implies enc.subrange(1, (1 + k) as int)[i]
                        == lb[i] by {
                        assert(enc[1 + i] == list_header(plen)[1 + i]);
                        assert(list_header(plen)[1 + i] == lb[i]);
                    }
                }
            }
            lemma_decode_encode_seq(children, inner, cstart);
        },
    }
}

/// Round trip for the children of a list: when the visible bytes from `pos`
/// to their end are exactly the children's encodings, decoding children
/// until the end yields exactly those children.
pub proof fn lemma_decode_encode_seq(children: Seq<SpecData>, bytes: Seq<u8>, pos: nat)
    requires
        spec_wf_seq(children),
        pos + spec_encode_seq(children).len() == bytes.len(),
        bytes.subrange(pos as int, bytes.len() as int) == spec_encode_seq(children),
    ensures
        spec_decode_list(bytes, pos) == Ok::<Seq<SpecData>, BufferError>(children),
    decreases children,
{
    if children.len() == 0 {
        assert(children =~= Seq::<SpecData>::empty());
    } else {
        let first = children[0];
        let rest = children.drop_first();
        lemma_encode_seq_first(children);
        lemma_wf_seq_first(children);
        lemma_encode_len_pos(first);
        let enc = spec_encode_seq(children);
        let l1 = spec_encode(first).len();
        lemma_embedded_segment(bytes, pos, enc, 0, l1 as nat);
        assert(enc.subrange(0, l1 as int) =~= spec_encode(first));
        lemma_decode_encode(first, bytes, pos);
        lemma_embedded_segment(bytes, pos, enc, l1 as nat, enc.len());
        assert(enc.subrange(l1 as int, enc.len() as int) =~= spec_encode_seq(rest));
        assert(bytes.subrange((pos + l1) as int, bytes.len() as int) == spec_encode_seq(rest));
        lemma_decode_encode_seq(rest, bytes, pos + l1);
        assert(seq![first] + rest =~= children);
    }
}

/// Round trip with a conformant encoder: decoding an encoder's whole output
/// yields a tree equal to the one encoded, consuming every byte.
pub proof fn lemma_round_trip(v: SpecData)
    requires
        spec_wf(v),
    ensures
        spec_decode(spec_encode(v), 0) == Ok::<(SpecData, int), BufferError>(
            (v, spec_encode(v).len() as int),
        ),
{
    assert(spec_encode(v).subrange(0, spec_encode(v).len() as int) =~= spec_encode(v));
    lemma_decode_encode(v, spec_encode(v), 0);
}

/// A single byte below the first border decodes to the matching scalar,
/// advancing the cursor by exactly one.
pub proof fn lemma_single_byte(b: u8)
    requires
        b < BORDER_A,
    ensures
        spec_decode(seq![b], 0) == Ok::<(SpecData, int), BufferError>((SpecData::Byte(b), 1)),
{
}

/// A string payload of exactly fifty-six bytes takes the long form: the
/// first long-string tag, one length byte, then the payload — and decoding
/// recovers the exact payload.
pub proof fn lemma_long_string_threshold(s: Seq<u8>)
    requires
        s.len() == 56,
    ensures
        spec_encode(SpecData::String(s)) == seq![BORDER_B, 56u8] + s,
        spec_decode(seq![BORDER_B, 56u8] + s, 0) == Ok::<(SpecData, int), BufferError>(
            (SpecData::String(s), 58),
        ),
{
    assert(be_bytes(56) =~= seq![56u8]) by {
        reveal_with_fuel(be_bytes, 2);
    }
    assert(spec_encode(SpecData::String(s)) =~= seq![BORDER_B, 56u8] + s);
    assert(56 < be_bound(8)) by {
        reveal_with_fuel(be_bound, 9);
    }
    lemma_round_trip(SpecData::String(s));
}

} // verus!

