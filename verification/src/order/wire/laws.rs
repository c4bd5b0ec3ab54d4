//! What the wire format promises, said of orders and bytes.

use crate::market::Symbol;
use crate::order;
use crate::order::Order;
use crate::order::wire::{Error, OrderV1, RawOrder, Side, Status};
use crate::order::wire::layout::OrderImage;
use vstd::prelude::*;

verus! {

/// Sides and statuses have one code each: 0 and 1 for bid and ask; 1, 2 and 3 for open, executed and
/// canceled. No other code is known.
pub proof fn law_codes_are_frozen(image: OrderImage)
    ensures
        Side::Bid.spec_code() == 0,
        Side::Ask.spec_code() == 1,
        Status::Open.spec_code() == 1,
        Status::Executed.spec_code() == 2,
        Status::Canceled.spec_code() == 3,
        crate::order::wire::known_codes(image) <==> {
            &&& image.side == 0 || image.side == 1
            &&& image.status == 1 || image.status == 2 || image.status == 3
        },
{
}

/// An order in the stable schema is the same order, field by field.
pub proof fn law_schema_keeps_every_field(o: Order)
    ensures
        ({
            let w = <OrderV1 as vstd::std_specs::convert::FromSpec<&Order>>::from_spec(&o);
            &&& w.id == o.id
            &&& w.user_id == o.user_id
            &&& w.client_id == o.client_id
            &&& w.side == Side::Bid <==> o.side == order::Side::Bid
            &&& w.price == o.price
            &&& w.executed_price == o.executed_price
            &&& w.volume == o.volume
            &&& w.executed_volume == o.executed_volume
            &&& w.status == Status::Open <==> o.status == order::Status::Open
            &&& w.status == Status::Executed <==> o.status == order::Status::Executed
            &&& w.closed_by == o.closed_by
            &&& <Order as vstd::std_specs::convert::FromSpec<OrderV1>>::from_spec(w) == o
        }),
{
}

/// An order out of the stable schema is the same order, field by field.
pub proof fn law_schema_gives_back_every_field(w: OrderV1)
    ensures
        ({
            let o = <Order as vstd::std_specs::convert::FromSpec<OrderV1>>::from_spec(w);
            &&& o.id == w.id
            &&& o.user_id == w.user_id
            &&& o.client_id == w.client_id
            &&& o.side == order::Side::Bid <==> w.side == Side::Bid
            &&& o.price == w.price
            &&& o.executed_price == w.executed_price
            &&& o.volume == w.volume
            &&& o.executed_volume == w.executed_volume
            &&& o.status == order::Status::Open <==> w.status == Status::Open
            &&& o.status == order::Status::Executed <==> w.status == Status::Executed
            &&& o.closed_by == w.closed_by
            &&& <OrderV1 as vstd::std_specs::convert::FromSpec<&Order>>::from_spec(&o) == w
        }),
{
}

/// What the wire carries of an order is every field of it, side and status by their codes.
pub proof fn law_image_holds_every_field(o: Order)
    ensures
        ({
            let image = crate::order::wire::order_image(o);
            &&& image.id == o.id
            &&& image.user_id == o.user_id@
            &&& image.client_id == o.client_id@
            &&& image.side == if o.side == order::Side::Bid {
                0u8
            } else {
                1u8
            }
            &&& image.price == o.price
            &&& image.executed_price == o.executed_price
            &&& image.volume == o.volume
            &&& image.executed_volume == o.executed_volume
            &&& o.status == order::Status::Open ==> image.status == 1
            &&& o.status == order::Status::Executed ==> image.status == 2
            &&& o.status == order::Status::Canceled ==> image.status == 3
            &&& image.closed_by == o.closed_by
        }),
{
}

/// An order that stands for a raw one has the fields of it, in their sequence.
pub proof fn law_raw_orders_stand_in_sequence(o: Order, raw: RawOrder)
    requires
        crate::order::wire::order_image(o) == crate::order::wire::raw_image(raw),
    ensures
        o.id == raw.0,
        o.user_id@ == raw.1@,
        o.client_id@ == raw.2@,
        o.side == order::Side::Bid <==> raw.3 == 0,
        o.side == order::Side::Ask <==> raw.3 == 1,
        o.price == raw.4,
        o.executed_price == raw.5,
        o.volume == raw.6,
        o.executed_volume == raw.7,
        o.status == order::Status::Open <==> raw.8 == 1,
        o.status == order::Status::Executed <==> raw.8 == 2,
        o.status == order::Status::Canceled <==> raw.8 == 3,
        o.closed_by == raw.9,
{
}

/// Two listings that the wire carries alike are of equally many orders, and agree order by order in
/// every field.
pub proof fn law_images_tell_orders(a: Seq<Order>, b: Seq<Order>, i: int)
    requires
        crate::order::wire::order_images(a) == crate::order::wire::order_images(b),
    ensures
        a.len() == b.len(),
        0 <= i < a.len() ==> {
            &&& a[i].id == b[i].id
            &&& a[i].user_id@ == b[i].user_id@
            &&& a[i].client_id@ == b[i].client_id@
            &&& a[i].side == b[i].side
            &&& a[i].price == b[i].price
            &&& a[i].executed_price == b[i].executed_price
            &&& a[i].volume == b[i].volume
            &&& a[i].executed_volume == b[i].executed_volume
            &&& a[i].status == b[i].status
            &&& a[i].closed_by == b[i].closed_by
        },
{
    assert(crate::order::wire::order_images(a).len() == a.len());
    assert(crate::order::wire::order_images(b).len() == b.len());
    if 0 <= i < a.len() {
        assert(crate::order::wire::order_images(a)[i] == crate::order::wire::order_image(a[i]));
        assert(crate::order::wire::order_images(b)[i] == crate::order::wire::order_image(b[i]));
    }
}

/// Decoding what encoding gave gives equally many orders, and each agrees with the one encoded in
/// every field.
pub proof fn law_decoded_orders_agree(orders: Seq<Order>, res: Result<Vec<Order>, Error>, i: int)
    requires
        crate::order::wire::payload_bytes(crate::order::wire::order_images(orders)).len()
            <= u64::MAX,
        crate::order::wire::decodes(
            crate::order::wire::payload_bytes(crate::order::wire::order_images(orders)),
            res,
        ),
    ensures
        res is Ok,
        res->Ok_0@.len() == orders.len(),
        0 <= i < orders.len() ==> {
            let back = res->Ok_0@[i];
            &&& back.id == orders[i].id
            &&& back.user_id@ == orders[i].user_id@
            &&& back.client_id@ == orders[i].client_id@
            &&& back.side == orders[i].side
            &&& back.price == orders[i].price
            &&& back.executed_price == orders[i].executed_price
            &&& back.volume == orders[i].volume
            &&& back.executed_volume == orders[i].executed_volume
            &&& back.status == orders[i].status
            &&& back.closed_by == orders[i].closed_by
        },
{
    crate::order::wire::law_decoding_gives_back_orders(orders, res);
    law_images_tell_orders(res->Ok_0@, orders, i);
}

/// The checksum is the first eight bytes of the hash of the encoded orders, and no other bytes: as a
/// number whose lowest byte comes first, it is written back as these bytes.
pub proof fn law_checksum_starts_the_hash(encoded: Seq<u8>, hash: Seq<u8>)
    requires
        hash.len() >= 8,
    ensures
        crate::encoding::le64(crate::order::wire::hash_word(hash)) == hash.take(8),
        crate::order::wire::blake3_hash(encoded) == hash ==> crate::encoding::le64(
            crate::order::wire::checksum_of(encoded),
        ) == hash.take(8),
{
    vstd::bytes::lemma_auto_spec_u64_to_from_le_bytes();
    assert(hash.take(8).len() == 8);
}

/// A payload is the schema version, the checksum of the encoded orders, their length, and the
/// encoded orders, which begin with their number.
pub proof fn law_payload_layout(images: Seq<OrderImage>)
    ensures
        ({
            let payload = crate::order::wire::payload_bytes(images);
            let encoded = payload.skip(18);
            &&& payload.len() >= 26
            &&& payload.take(2) == crate::encoding::le16(1)
            &&& payload.subrange(2, 10) == crate::encoding::le64(
                crate::order::wire::checksum_of(encoded),
            )
            &&& payload.subrange(10, 18) == crate::encoding::le64(encoded.len() as u64)
            &&& encoded.take(8) == crate::encoding::le64(images.len() as u64)
        }),
        crate::order::wire::SCHEMA_VERSION == 1,
        crate::order::wire::COMPRESSION_LEVEL == 3,
{
    let encoded = crate::order::wire::layout::orders_bytes(images);
    let payload = crate::order::wire::payload_bytes(images);
    let checksum = crate::order::wire::checksum_of(encoded);
    crate::encoding::lemma_le16_tells(crate::order::wire::SCHEMA_VERSION, 0);
    crate::encoding::lemma_le64_tells(checksum, 0);
    crate::encoding::lemma_le64_tells(encoded.len() as u64, 0);
    crate::encoding::lemma_le64_tells(images.len() as u64, 0);
    assert(payload.skip(18) =~= encoded);
    assert(payload.take(2) =~= crate::encoding::le16(1));
    assert(payload.subrange(2, 10) =~= crate::encoding::le64(checksum));
    assert(payload.subrange(10, 18) =~= crate::encoding::le64(encoded.len() as u64));
    assert(encoded.take(8) =~= crate::encoding::le64(images.len() as u64));
}

/// The encoded orders stand one after the other, in the sequence of the orders: those of two
/// listings together are those of the first, then those of the second.
pub proof fn law_encoded_orders_stand_in_sequence(a: Seq<OrderImage>, b: Seq<OrderImage>)
    ensures
        crate::order::wire::layout::images_bytes(a + b) == crate::order::wire::layout::images_bytes(
            a,
        ) + crate::order::wire::layout::images_bytes(b),
    decreases a.len(),
{
    if a.len() == 0 {
        assert(a + b =~= b);
        assert(Seq::<u8>::empty() + crate::order::wire::layout::images_bytes(b)
            =~= crate::order::wire::layout::images_bytes(b));
    } else {
        law_encoded_orders_stand_in_sequence(a.drop_first(), b);
        assert((a + b).drop_first() =~= a.drop_first() + b);
        assert(a[0].bytes() + (crate::order::wire::layout::images_bytes(a.drop_first())
            + crate::order::wire::layout::images_bytes(b)) =~= a[0].bytes()
            + crate::order::wire::layout::images_bytes(a.drop_first())
            + crate::order::wire::layout::images_bytes(b));
    }
}

/// A payload too short for a version fails to decode, and one of another version is refused for
/// that version, whatever else it holds.
pub proof fn law_other_versions_are_refused(
    payload: Seq<u8>,
    version: u16,
    res: Result<Vec<Order>, Error>,
)
    requires
        payload.len() <= u64::MAX,
        crate::order::wire::decodes(payload, res),
        payload.len() < 2 || payload.take(2) == crate::encoding::le16(version),
        payload.len() >= 2 ==> version != 1,
    ensures
        payload.len() < 2 ==> res is Err && res->Err_0 is BinCode,
        payload.len() >= 2 ==> res is Err && res->Err_0 == Error::UnsupportedVersion(version),
{
    assert forall|c: u64, e: Seq<u8>, images: Seq<OrderImage>| #[trigger]
        crate::order::wire::payload_holds(payload, c, e, images) implies payload.len() >= 2
        && payload.take(2) == crate::encoding::le16(1) by {
        crate::order::wire::layout::lemma_batch_version(payload, 1, c, e);
    }
    crate::encoding::lemma_le16_tells(version, 1);
    if let Err(Error::UnsupportedVersion(other)) = res {
        crate::encoding::lemma_le16_tells(version, other);
    }
}

/// Orders are handed out only under the checksum that belongs to them: a batch of known codes under
/// any other checksum is a mismatch, and one with a code that is not known fails to decode. What
/// stands behind the orders or behind the batch does not matter, but that the checksum covers what
/// stands behind the orders.
pub proof fn law_checksums_are_checked(
    images: Seq<OrderImage>,
    more: Seq<u8>,
    checksum: u64,
    behind: Seq<u8>,
    res: Result<Vec<Order>, Error>,
)
    requires
        ({
            let encoded = crate::order::wire::layout::orders_bytes(images) + more;
            let payload = crate::order::wire::layout::batch_bytes(1, checksum, encoded) + behind;
            &&& payload.len() <= u64::MAX
            &&& crate::order::wire::decodes(payload, res)
        }),
    ensures
        ({
            let encoded = crate::order::wire::layout::orders_bytes(images) + more;
            let known = forall|i: int|
                0 <= i < images.len() ==> (#[trigger] images[i]).side <= 1 && 1 <= images[i].status
                    <= 3;
            &&& !known ==> res is Err && res->Err_0 is BinCode
            &&& known && checksum != crate::order::wire::checksum_of(encoded) ==> res is Err
                && res->Err_0 == Error::ChecksumMismatch
            &&& known && checksum == crate::order::wire::checksum_of(encoded) ==> res is Ok
                && crate::order::wire::order_images(res->Ok_0@) == images
        }),
{
    let encoded = crate::order::wire::layout::orders_bytes(images) + more;
    let batch = crate::order::wire::layout::batch_bytes(1, checksum, encoded);
    let payload = batch + behind;
    assert(batch.is_prefix_of(payload)) by {
        assert(payload.subrange(0, batch.len() as int) =~= batch);
    }
    assert(crate::order::wire::layout::orders_bytes(images).is_prefix_of(encoded)) by {
        assert(encoded.subrange(
            0,
            crate::order::wire::layout::orders_bytes(images).len() as int,
        ) =~= crate::order::wire::layout::orders_bytes(images));
    }
    assert(crate::order::wire::payload_holds(payload, checksum, encoded, images));
    crate::order::wire::layout::lemma_batch_version(payload, 1, checksum, encoded);
    assert(encoded.len() <= payload.len());
    assert forall|c: u64, e: Seq<u8>, other: Seq<OrderImage>| #[trigger]
        crate::order::wire::payload_holds(payload, c, e, other) implies c == checksum && e
        == encoded && other == images by {
        crate::order::wire::layout::law_batches_are_unambiguous(
            payload,
            1,
            c,
            e,
            1,
            checksum,
            encoded,
        );
        crate::order::wire::layout::law_orders_are_unambiguous(encoded, other, images);
    }
    if let Err(Error::UnsupportedVersion(version)) = res {
        crate::encoding::lemma_le16_tells(version, 1);
    }
    if let Ok(orders) = res {
        assert(crate::order::wire::order_images(orders@) == images);
        assert forall|i: int| 0 <= i < images.len() implies (#[trigger] images[i]).side <= 1 && 1
            <= images[i].status <= 3 by {
            assert(images[i] == crate::order::wire::order_image(orders@[i]));
        }
    }
}

/// What a batch of a market decodes to is the symbol that it was written with, and what its content
/// decodes to; where the content cannot be decompressed, that is the error.
pub proof fn law_market_batch_keeps_its_symbol(
    symbol: Seq<char>,
    encoded: Seq<u8>,
    res: Result<(Symbol, Vec<Order>), Error>,
)
    requires
        crate::order::wire::layout::market_bytes(symbol, encoded).len() <= u64::MAX,
        crate::order::wire::decodes_market(
            crate::order::wire::layout::market_bytes(symbol, encoded),
            res,
        ),
    ensures
        res matches Ok(batch) ==> batch.0@ == symbol && crate::order::wire::zstd_decoded(
            encoded,
        ) is Some && crate::order::wire::decodes(
            crate::order::wire::zstd_decoded(encoded)->0,
            Ok(batch.1),
        ),
        crate::order::wire::zstd_decoded(encoded) is None ==> res is Err && res->Err_0 is Io,
        res matches Err(e) ==> {
            ||| crate::order::wire::zstd_decoded(encoded) is None
            ||| crate::order::wire::decodes(crate::order::wire::zstd_decoded(encoded)->0, Err(e))
        },
{
    let bytes = crate::order::wire::layout::market_bytes(symbol, encoded);
    assert forall|s: Seq<char>, e: Seq<u8>| bytes
        == #[trigger] crate::order::wire::layout::market_bytes(s, e) implies s == symbol && e
        == encoded by {
        crate::order::wire::layout::law_market_batches_are_unambiguous(s, e, symbol, encoded);
    }
}

/// A payload of the version there is that does not begin with a batch whose encoded orders begin
/// with orders fails to decode.
pub proof fn law_malformed_payloads_fail(payload: Seq<u8>, res: Result<Vec<Order>, Error>)
    requires
        crate::order::wire::decodes(payload, res),
        payload.len() >= 2,
        payload.take(2) == crate::encoding::le16(1),
        forall|checksum: u64, encoded: Seq<u8>, images: Seq<OrderImage>|
            !((#[trigger] crate::order::wire::layout::batch_bytes(
                1,
                checksum,
                encoded,
            )).is_prefix_of(payload) && (#[trigger] crate::order::wire::layout::orders_bytes(
                images,
            )).is_prefix_of(encoded)),
    ensures
        res is Err,
        res->Err_0 is BinCode,
{
    assert forall|checksum: u64, encoded: Seq<u8>, images: Seq<OrderImage>| !(
    #[trigger] crate::order::wire::payload_holds(payload, checksum, encoded, images)) by {
        let batch = crate::order::wire::layout::batch_bytes(1, checksum, encoded);
        let orders = crate::order::wire::layout::orders_bytes(images);
        assert(!(batch.is_prefix_of(payload) && orders.is_prefix_of(encoded)));
    }
    if let Err(Error::UnsupportedVersion(version)) = res {
        crate::encoding::lemma_le16_tells(version, 1);
    }
}

/// Bytes that are not a symbol and a content, each behind its length, fail to decode as a batch of a
/// market.
pub proof fn law_malformed_market_batches_fail(
    bytes: Seq<u8>,
    res: Result<(Symbol, Vec<Order>), Error>,
)
    requires
        crate::order::wire::decodes_market(bytes, res),
        forall|symbol: Seq<char>, encoded: Seq<u8>|
            bytes != #[trigger] crate::order::wire::layout::market_bytes(symbol, encoded),
    ensures
        res is Err,
        res->Err_0 is BinCode,
{
}

} // verus!
