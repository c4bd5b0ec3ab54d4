//! What the snapshot format promises, said of bytes, symbols and orders.

use crate::market::Symbol;
use crate::order::Order;
use crate::snapshot::{Error, Metadata, NextFrame};
use vstd::prelude::*;

verus! {

/// A header is ten bytes: `MACHNSNP` in ASCII, and the version with its lowest byte first.
pub proof fn law_header_layout(version: u16)
    ensures
        ({
            let header = crate::snapshot::header(version);
            &&& header.len() == 10
            &&& header[0] == 'M' as u32
            &&& header[1] == 'A' as u32
            &&& header[2] == 'C' as u32
            &&& header[3] == 'H' as u32
            &&& header[4] == 'N' as u32
            &&& header[5] == 'S' as u32
            &&& header[6] == 'N' as u32
            &&& header[7] == 'P' as u32
            &&& header.skip(8) == crate::encoding::le16(version)
        }),
        crate::snapshot::SUPPORTED_GLOBAL_VERSION == 1,
{
    let header = crate::snapshot::header(version);
    crate::encoding::lemma_le16_tells(version, version);
    assert(header.skip(8) =~= crate::encoding::le16(version));
}

/// A frame is the length of the bytes in four bytes, the lowest first, and the bytes.
pub proof fn law_frame_layout(bytes: Seq<u8>)
    requires
        bytes.len() <= u32::MAX,
    ensures
        crate::snapshot::frame(bytes).len() == 4 + bytes.len(),
        crate::snapshot::frame(bytes).take(4) == crate::encoding::le32(bytes.len() as u32),
        crate::snapshot::frame(bytes).skip(4) == bytes,
{
    vstd::bytes::lemma_auto_spec_u32_to_from_le_bytes();
    let len = crate::encoding::le32(bytes.len() as u32);
    assert(len.len() == 4);
    assert(crate::snapshot::frame(bytes).take(4) =~= len);
    assert(crate::snapshot::frame(bytes).skip(4) =~= bytes);
}

/// A reader finds the end where no length stands, a cut where fewer bytes follow than the length
/// says, and else as many bytes as the length says, and what follows them.
pub proof fn law_next_frame_goes_by_the_length(bytes: Seq<u8>, len: u32)
    requires
        bytes.len() >= 4 ==> bytes.take(4) == crate::encoding::le32(len),
    ensures
        bytes.len() < 4 <==> crate::snapshot::next_frame(bytes) == NextFrame::End,
        bytes.len() >= 4 ==> (bytes.len() < 4 + len <==> crate::snapshot::next_frame(bytes)
            == NextFrame::Cut),
        bytes.len() >= 4 + len ==> {
            &&& crate::snapshot::next_frame(bytes) matches NextFrame::Whole(payload, rest)
            &&& payload.len() == len
            &&& bytes == crate::encoding::le32(len) + payload + rest
        },
{
    vstd::bytes::lemma_auto_spec_u32_to_from_le_bytes();
    assert(crate::encoding::le32(len).len() == 4);
    assert(vstd::bytes::spec_u32_from_le_bytes(crate::encoding::le32(len)) == len);
    if bytes.len() >= 4 + len {
        let payload = bytes.subrange(4, 4 + len);
        let rest = bytes.skip(4 + len);
        assert forall|i: int| 0 <= i < 4 implies bytes[i] == crate::encoding::le32(len)[i] by {
            assert(bytes.take(4)[i] == bytes[i]);
        }
        assert(bytes =~= crate::encoding::le32(len) + payload + rest);
    }
}

/// A file is opened exactly if it begins with the header of the version there is, and a whole frame
/// of at least sixteen bytes, the two numbers of the metadata in front; the reader then stands
/// behind that frame.
pub proof fn law_files_that_are_opened(
    metadata: Metadata,
    more: Seq<u8>,
    rest: Seq<u8>,
    found: Metadata,
    left: Seq<u8>,
)
    requires
        16 + more.len() <= u32::MAX,
    ensures
        ({
            let described = crate::encoding::le64(metadata.latest_seq) + crate::encoding::le64(
                metadata.latest_archived_seq,
            ) + more;
            let bytes = crate::snapshot::header(1) + crate::encoding::le32(
                described.len() as u32,
            ) + described + rest;
            &&& crate::snapshot::opens(bytes, metadata, rest)
            &&& crate::snapshot::opens(bytes, found, left) ==> found == metadata && left == rest
        }),
{
    let described = crate::encoding::le64(metadata.latest_seq) + crate::encoding::le64(
        metadata.latest_archived_seq,
    ) + more;
    let bytes = crate::snapshot::header(1) + crate::encoding::le32(described.len() as u32)
        + described + rest;
    crate::encoding::lemma_le16_tells(1, 1);
    crate::encoding::lemma_le64_tells(metadata.latest_seq, metadata.latest_seq);
    crate::encoding::lemma_le64_tells(metadata.latest_archived_seq, metadata.latest_archived_seq);
    crate::snapshot::law_frames_are_read_back(described, rest);
    assert(bytes.take(10) =~= crate::snapshot::header(1));
    assert(bytes.skip(10) =~= crate::snapshot::frame(described) + rest);
    assert(described.take(16) =~= metadata.bytes());
    if crate::snapshot::opens(bytes, found, left) {
        crate::snapshot::law_written_header_is_read_back(found, left);
        assert(found.bytes() == metadata.bytes());
        crate::snapshot::lemma_metadata_tells(found, metadata);
    }
}

/// A file whose first eight bytes are not the magic ones is refused for that, one of another version
/// for that version, and one too short to tell for its end.
pub proof fn law_headers_that_are_refused(bytes: Seq<u8>, version: u16, e: Error)
    requires
        crate::snapshot::header_fault(bytes, e),
    ensures
        bytes.len() < 8 ==> e is Io,
        bytes.len() >= 8 && bytes.take(8) != crate::snapshot::header(1).take(8) ==> e
            == Error::BadMagic,
        8 <= bytes.len() < 10 && bytes.take(8) == crate::snapshot::header(1).take(8) ==> e is Io,
        bytes.len() >= 10 && bytes.take(10) == crate::snapshot::header(version) ==> version != 1
            && e == Error::UnsupportedGlobalVersion(version),
        bytes.len() >= 10 ==> bytes.take(10) != crate::snapshot::header(1),
{
    assert(crate::snapshot::header(1).take(8) =~= crate::snapshot::magic_bytes());
    if bytes.len() >= 10 && bytes.take(10) == crate::snapshot::header(version) {
        assert(bytes.take(8) =~= crate::snapshot::header(version).take(8));
        assert(crate::snapshot::header(version).take(8) =~= crate::snapshot::magic_bytes());
        let other = e->UnsupportedGlobalVersion_0;
        law_header_layout(version);
        law_header_layout(other);
        crate::encoding::lemma_le16_tells(version, other);
    }
    if bytes.len() >= 10 && bytes.take(10) == crate::snapshot::header(1) {
        assert(bytes.take(8) =~= crate::snapshot::header(1).take(8));
        let other = e->UnsupportedGlobalVersion_0;
        law_header_layout(1);
        law_header_layout(other);
        crate::encoding::lemma_le16_tells(1, other);
    }
}

/// A file that ends before its metadata does is truncated, and one whose metadata has fewer than
/// sixteen bytes fails to decode it.
pub proof fn law_metadata_that_is_refused(bytes: Seq<u8>, len: u32, e: Error)
    requires
        crate::snapshot::metadata_fault(bytes, e),
        bytes.len() >= 4 ==> bytes.take(4) == crate::encoding::le32(len),
    ensures
        bytes.len() < 4 || bytes.len() < 4 + len ==> e == Error::Truncated,
        bytes.len() >= 4 + len ==> len < 16 && e is MetaCodec,
{
    law_next_frame_goes_by_the_length(bytes, len);
}

/// The next batch: none where no length stands, a truncated one where fewer bytes follow than the
/// length says, and in both cases nothing is left to read. Else a batch, or the codec's error, and
/// what follows is left to read either way.
pub proof fn law_next_batch_goes_by_the_length(
    before: Seq<u8>,
    len: u32,
    res: Result<Option<(Symbol, Vec<Order>)>, Error>,
    after: Seq<u8>,
)
    requires
        crate::snapshot::hands_out(before, res, after),
        before.len() >= 4 ==> before.take(4) == crate::encoding::le32(len),
    ensures
        before.len() < 4 ==> res is Ok && res->Ok_0 is None && after.len() == 0,
        4 <= before.len() < 4 + len ==> res is Err && res->Err_0 == Error::Truncated && after.len()
            == 0,
        before.len() >= 4 + len ==> {
            &&& after == before.skip(4 + len)
            &&& res matches Ok(found) ==> found is Some
            &&& res matches Err(e) ==> e is Codec
        },
{
    law_next_frame_goes_by_the_length(before, len);
    if before.len() >= 4 + len {
        let rest = crate::snapshot::next_frame(before)->Whole_1;
        vstd::bytes::lemma_auto_spec_u32_to_from_le_bytes();
        assert(crate::encoding::le32(len).len() == 4);
        assert(before.skip(4 + len) =~= rest);
    }
}

/// Writing a batch leaves what was written before, and puts the batch behind it, its length first.
pub proof fn law_batches_are_put_behind(
    before: Seq<u8>,
    symbol: Seq<char>,
    orders: Seq<Order>,
    after: Seq<u8>,
)
    requires
        crate::snapshot::appends(before, symbol, orders, after),
    ensures
        ({
            let added = after.skip(before.len() as int);
            &&& after == before + added
            &&& added.len() >= 4
            &&& added.take(4) == crate::encoding::le32((added.len() - 4) as u32)
            &&& added.skip(4) == crate::snapshot::batch_payload(symbol, orders)
        }),
{
    let payload = crate::snapshot::batch_payload(symbol, orders);
    law_frame_layout(payload);
    let added = after.skip(before.len() as int);
    assert(added =~= crate::snapshot::frame(payload));
    assert(after =~= before + added);
}

/// A batch that was written is read back with its symbol and its orders, as many of them, in their
/// sequence, and each with every field as it was; what follows the batch is left to read.
pub proof fn law_orders_are_read_back(
    symbol: Seq<char>,
    orders: Seq<Order>,
    before: Seq<u8>,
    written: Seq<u8>,
    rest: Seq<u8>,
    res: Result<Option<(Symbol, Vec<Order>)>, Error>,
    after: Seq<u8>,
    i: int,
)
    requires
        crate::snapshot::appends(before, symbol, orders, written),
        crate::snapshot::hands_out(written.skip(before.len() as int) + rest, res, after),
    ensures
        after == rest,
        match res {
            Ok(Some(batch)) => {
                &&& batch.0@ == symbol
                &&& batch.1@.len() == orders.len()
                &&& 0 <= i < orders.len() ==> {
                    let back = batch.1@[i];
                    &&& back.id == orders[i].id
                    &&& back.user_id@ == orders[i].user_id@
                    &&& back.client_id@ == orders[i].client_id@
                    &&& back.side == orders[i].side
                    &&& back.price == orders[i].price
                    &&& back.executed_price == orders[i].executed_price
                    &&& back.volume == orders[i].volume
                    &&& back.executed_volume == orders[i].executed_volume
                    &&& back.status == orders[i].status
                    &&& back.closed_by == orders[i].closed_by
                }
            },
            _ => false,
        },
{
    let payload = crate::snapshot::batch_payload(symbol, orders);
    assert(written.skip(before.len() as int) =~= crate::snapshot::frame(payload));
    crate::snapshot::law_written_batch_is_read_back(symbol, orders, rest, res, after);
    if let Ok(Some(batch)) = res {
        crate::order::wire::laws::law_images_tell_orders(batch.1@, orders, i);
    }
}

/// A file that is opened begins with the header of the version there is, and a whole frame with the
/// two numbers of the metadata in front; what stands behind that frame is left to read.
pub proof fn law_opened_files_are_in_order(
    bytes: Seq<u8>,
    metadata: Metadata,
    rest: Seq<u8>,
    len: u32,
)
    requires
        crate::snapshot::opens(bytes, metadata, rest),
        bytes.len() >= 14 ==> bytes.subrange(10, 14) == crate::encoding::le32(len),
    ensures
        len >= 16,
        bytes.len() >= 14 + len,
        bytes.take(10) == crate::snapshot::header(1),
        bytes.subrange(14, 22) == crate::encoding::le64(metadata.latest_seq),
        bytes.subrange(22, 30) == crate::encoding::le64(metadata.latest_archived_seq),
        rest == bytes.skip(14 + len),
{
    let tail = bytes.skip(10);
    if tail.len() >= 4 {
        assert(tail.take(4) =~= bytes.subrange(10, 14));
    }
    law_next_frame_goes_by_the_length(tail, len);
    let payload = crate::snapshot::next_frame(tail)->Whole_0;
    vstd::bytes::lemma_auto_spec_u32_to_from_le_bytes();
    assert(crate::encoding::le32(len).len() == 4);
    crate::encoding::lemma_le64_tells(metadata.latest_seq, 0);
    crate::encoding::lemma_le64_tells(metadata.latest_archived_seq, 0);
    assert forall|i: int| 0 <= i < payload.len() implies #[trigger] payload[i] == bytes[14 + i] by {
        assert(tail[4 + i] == payload[i]);
    }
    assert forall|i: int| 0 <= i < 16 implies #[trigger] payload[i] == metadata.bytes()[i] by {
        assert(payload.take(16)[i] == payload[i]);
    }
    assert(bytes.subrange(14, 22) =~= payload.take(8));
    assert(bytes.subrange(22, 30) =~= payload.subrange(8, 16));
    assert(payload.take(8) =~= crate::encoding::le64(metadata.latest_seq));
    assert(payload.subrange(8, 16) =~= crate::encoding::le64(metadata.latest_archived_seq));
    assert(bytes.skip(14 + len) =~= rest);
}

} // verus!
