//! The byte encoding of journal keys and journal records.
//!
//! Numbers are stored as eight bytes, least significant first. Records are
//! stored in the SCALE encoding of their fields, one after the other.

use vstd::prelude::*;
use vstd::bytes::{spec_u64_from_le_bytes, spec_u64_to_le_bytes};
use crate::types::nodes_view;

verus! {

/// The stored form of a journal record of the canonicalization window:
/// the block, its parent, the nodes it inserted and the keys it deleted.
pub uninterp spec fn overlay_record_bytes(
    hash: u64,
    parent: u64,
    inserted: Seq<(u64, Seq<u8>)>,
    deleted: Seq<u64>,
) -> Seq<u8>;

/// What a stored journal record of the canonicalization window decodes to,
/// if it decodes.
pub uninterp spec fn overlay_record_parsed(bytes: Seq<u8>) -> Option<
    (u64, u64, Seq<(u64, Seq<u8>)>, Seq<u64>),
>;

/// The stored form of a journal record of the pruning window: the block,
/// the keys it inserted and the keys it deleted.
pub uninterp spec fn window_record_bytes(hash: u64, inserted: Seq<u64>, deleted: Seq<u64>) -> Seq<
    u8,
>;

/// What a stored journal record of the pruning window decodes to, if it
/// decodes.
pub uninterp spec fn window_record_parsed(bytes: Seq<u8>) -> Option<(u64, Seq<u64>, Seq<u64>)>;

/// The longest collection that a record can hold.
pub open spec fn encodable_len(len: nat) -> bool {
    len <= u32::MAX
}

/// Whether a list of nodes can be stored in a record: neither the list nor
/// any value in it is too long.
pub open spec fn encodable_nodes(inserted: Seq<(u64, Seq<u8>)>) -> bool {
    &&& encodable_len(inserted.len())
    &&& forall|i: int| 0 <= i < inserted.len() ==> encodable_len((#[trigger] inserted[i]).1.len())
}

/// The meta key made of an encoded suffix and the name of the entry.
pub open spec fn meta_key(name: Seq<u8>, data: Seq<u8>) -> Seq<u8> {
    data + name
}

/// The stored form of a block number.
pub open spec fn number_bytes(n: u64) -> Seq<u8> {
    spec_u64_to_le_bytes(n)
}

/// The stored form of two numbers, such as a block with its number or a
/// block number with an index.
pub open spec fn pair_bytes(a: u64, b: u64) -> Seq<u8> {
    spec_u64_to_le_bytes(a) + spec_u64_to_le_bytes(b)
}

/// The number that the first eight bytes hold, if there are eight.
pub open spec fn number_parsed(bytes: Seq<u8>) -> Option<u64> {
    if bytes.len() >= 8 {
        Some(spec_u64_from_le_bytes(bytes.subrange(0, 8)))
    } else {
        None
    }
}

/// The two numbers that the first sixteen bytes hold, if there are sixteen.
pub open spec fn pair_parsed(bytes: Seq<u8>) -> Option<(u64, u64)> {
    if bytes.len() >= 16 {
        Some(
            (
                spec_u64_from_le_bytes(bytes.subrange(0, 8)),
                spec_u64_from_le_bytes(bytes.subrange(8, 16)),
            ),
        )
    } else {
        None
    }
}

/// Calls `parity_scale_codec::Encode::encode` on a `u64`. The codec writes
/// the eight bytes of the number, least significant first.
#[verifier::external_body]
pub(crate) fn encode_number(n: u64) -> (r: Vec<u8>)
    ensures
        r@ == number_bytes(n),
{
    parity_scale_codec::Encode::encode(&n)
}

/// Calls `parity_scale_codec::Encode::encode` on a pair of `u64`. The codec
/// writes the fields of a tuple one after the other, each as its eight
/// bytes, least significant first.
#[verifier::external_body]
pub(crate) fn encode_pair(a: u64, b: u64) -> (r: Vec<u8>)
    ensures
        r@ == pair_bytes(a, b),
{
    parity_scale_codec::Encode::encode(&(a, b))
}

/// Calls `parity_scale_codec::Decode::decode` for a `u64` on the bytes
/// given. The codec reads eight bytes, least significant first, fails when
/// fewer are there, and leaves what follows them unread.
#[verifier::external_body]
pub(crate) fn decode_number(bytes: &[u8]) -> (r: Option<u64>)
    ensures
        r == number_parsed(bytes@),
{
    let mut input = bytes;
    let decoded: Result<u64, parity_scale_codec::Error> = parity_scale_codec::Decode::decode(
        &mut input,
    );
    decoded.ok()
}

/// Calls `parity_scale_codec::Decode::decode` for a pair of `u64` on the
/// bytes given. The codec reads the two fields one after the other, eight
/// bytes each, least significant first, fails when fewer are there, and
/// leaves what follows them unread.
#[verifier::external_body]
pub(crate) fn decode_pair(bytes: &[u8]) -> (r: Option<(u64, u64)>)
    ensures
        r == pair_parsed(bytes@),
{
    let mut input = bytes;
    let decoded: Result<(u64, u64), parity_scale_codec::Error> =
        parity_scale_codec::Decode::decode(&mut input);
    decoded.ok()
}

/// Calls `parity_scale_codec::Encode::encode` on the four fields of a
/// journal record of the canonicalization window. The result is a function
/// of the fields alone and goes by the name [`overlay_record_bytes`]. The
/// codec panics on a collection of more than `u32::MAX` items, which the
/// precondition leaves out. The second clause claims that the codec reads
/// back what it wrote: decoding the result gives the four fields again.
#[verifier::external_body]
pub(crate) fn encode_overlay_record(
    hash: u64,
    parent: u64,
    inserted: &Vec<(u64, Vec<u8>)>,
    deleted: &Vec<u64>,
) -> (r: Vec<u8>)
    requires
        encodable_nodes(nodes_view(inserted@)),
        encodable_len(deleted@.len()),
    ensures
        r@ == overlay_record_bytes(hash, parent, nodes_view(inserted@), deleted@),
        overlay_record_parsed(r@) == Some((hash, parent, nodes_view(inserted@), deleted@)),
{
    parity_scale_codec::Encode::encode(&(hash, parent, inserted, deleted))
}

/// Calls `parity_scale_codec::Decode::decode` for the four fields of a
/// journal record of the canonicalization window. The result is a function
/// of the bytes alone and goes by the name [`overlay_record_parsed`]; a
/// failure of the codec is `None`.
#[verifier::external_body]
pub(crate) fn decode_overlay_record(bytes: &[u8]) -> (r: Option<
    (u64, u64, Vec<(u64, Vec<u8>)>, Vec<u64>),
>)
    ensures
        r matches Some(record) ==> overlay_record_parsed(bytes@) == Some(
            (record.0, record.1, nodes_view(record.2@), record.3@),
        ),
        r is None ==> overlay_record_parsed(bytes@) is None,
{
    let mut input = bytes;
    let decoded: Result<(u64, u64, Vec<(u64, Vec<u8>)>, Vec<u64>), parity_scale_codec::Error> =
        parity_scale_codec::Decode::decode(&mut input);
    decoded.ok()
}

/// Calls `parity_scale_codec::Encode::encode` on the three fields of a
/// journal record of the pruning window. The result is a function of the
/// fields alone and goes by the name [`window_record_bytes`]. The codec
/// panics on a collection of more than `u32::MAX` items, which the
/// precondition leaves out. The second clause claims that the codec reads
/// back what it wrote: decoding the result gives the three fields again.
#[verifier::external_body]
pub(crate) fn encode_window_record(hash: u64, inserted: &Vec<u64>, deleted: &Vec<u64>) -> (r: Vec<
    u8,
>)
    requires
        encodable_len(inserted@.len()),
        encodable_len(deleted@.len()),
    ensures
        r@ == window_record_bytes(hash, inserted@, deleted@),
        window_record_parsed(r@) == Some((hash, inserted@, deleted@)),
{
    parity_scale_codec::Encode::encode(&(hash, inserted, deleted))
}

/// Calls `parity_scale_codec::Decode::decode` for the three fields of a
/// journal record of the pruning window. The result is a function of the
/// bytes alone and goes by the name [`window_record_parsed`]; a failure of
/// the codec is `None`.
#[verifier::external_body]
pub(crate) fn decode_window_record(bytes: &[u8]) -> (r: Option<(u64, Vec<u64>, Vec<u64>)>)
    ensures
        r matches Some(record) ==> window_record_parsed(bytes@) == Some(
            (record.0, record.1@, record.2@),
        ),
        r is None ==> window_record_parsed(bytes@) is None,
{
    let mut input = bytes;
    let decoded: Result<(u64, Vec<u64>, Vec<u64>), parity_scale_codec::Error> =
        parity_scale_codec::Decode::decode(&mut input);
    decoded.ok()
}

/// Builds the meta key of an entry from its name and its encoded suffix.
pub fn to_meta_key(name: &[u8], data: Vec<u8>) -> (r: Vec<u8>)
    ensures
        r@ == meta_key(name@, data@),
{
    let mut buffer = data;
    buffer.extend_from_slice(name);
    buffer
}

} // verus!
