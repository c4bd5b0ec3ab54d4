//! Binary wire format for orders.
//!
//! This module defines a compact, versioned wire schema used to serialize and
//! deserialize orders for persistence or network transport. The encoding uses
//! bincode with fixed-int encoding, wrapped in zstd compression for smaller
//! payloads. The public Order type is converted into a stable, explicit wire
//! representation (OrderV1) so we can evolve the internal Order struct without
//! breaking backwards compatibility.
//!
//! Encoding pipeline:
//! 1) Order -> OrderV1 (stable schema)
//! 2) bincode (fixint) -> bytes
//! 3) zstd level 3 compression -> final payload
//!
//! Decoding does the reverse. The version field allows forward migration
//! in the future when new fields are added.

use crate::market::Symbol;
use crate::order;
use crate::order::Order;
use crate::order::wire::layout::OrderImage;
use bincode::Options;
use vstd::prelude::*;

pub mod laws;
pub mod layout;

verus! {

/// The only schema version there is.
pub const SCHEMA_VERSION: u16 = 1;

/// The zstd level that batches are compressed with.
pub const COMPRESSION_LEVEL: i32 = 3;

/// `bincode::ErrorKind`, carried through as it is.
#[verifier::external_type_specification]
#[verifier::external_body]
pub struct ExErrorKind(bincode::ErrorKind);

/// `std::io::Error`, carried through as it is.
#[verifier::external_type_specification]
#[verifier::external_body]
pub struct ExIoError(std::io::Error);

/// An order as bincode takes it: the fields of `OrderV1`, side and status as their codes.
pub type RawOrder = (u64, String, String, u8, u64, Option<u64>, u64, u64, u8, Option<u64>);

/// What the wire carries of a raw order.
pub open spec fn raw_image(raw: RawOrder) -> OrderImage {
    OrderImage {
        id: raw.0,
        user_id: raw.1@,
        client_id: raw.2@,
        side: raw.3,
        price: raw.4,
        executed_price: raw.5,
        volume: raw.6,
        executed_volume: raw.7,
        status: raw.8,
        closed_by: raw.9,
    }
}

/// What the wire carries of raw orders.
pub open spec fn raw_images(raws: Seq<RawOrder>) -> Seq<OrderImage> {
    raws.map_values(|raw: RawOrder| raw_image(raw))
}

/// Calls `serialize` of bincode with fixed-int encoding on a list of raw orders, which cannot
/// fail: the list behind its length, the fields of each order one after the other, integers in
/// little endian, texts behind their length, an option behind a byte 0 or 1.
#[verifier::external_body]
fn serialize_orders(orders: &Vec<RawOrder>) -> (res: Result<Vec<u8>, bincode::Error>)
    ensures
        match res {
            Ok(bytes) => bytes@ == layout::orders_bytes(raw_images(orders@)),
            Err(_) => false,
        },
{
    bincode::DefaultOptions::new().with_fixint_encoding().serialize(orders)
}

/// Calls `deserialize` of bincode with fixed-int encoding, trailing bytes allowed, for a list of
/// raw orders: it succeeds exactly on bytes that begin with such a list, and returns that list.
#[verifier::external_body]
fn deserialize_orders(bytes: &[u8]) -> (res: Result<Vec<RawOrder>, bincode::Error>)
    ensures
        match res {
            Ok(raws) => layout::holds_orders(bytes@, raw_images(raws@)),
            Err(_) => forall|images: Seq<OrderImage>|
                !#[trigger] layout::holds_orders(bytes@, images),
        },
{
    bincode::DefaultOptions::new().with_fixint_encoding().allow_trailing_bytes().deserialize(bytes)
}

/// Calls `serialize` of bincode with fixed-int encoding on the fields of a batch, which cannot
/// fail: version and checksum in little endian, then the encoded orders behind their length.
#[verifier::external_body]
fn serialize_batch(version: u16, checksum: u64, orders: &Vec<u8>) -> (res: Result<
    Vec<u8>,
    bincode::Error,
>)
    ensures
        match res {
            Ok(bytes) => bytes@ == layout::batch_bytes(version, checksum, orders@),
            Err(_) => false,
        },
{
    bincode::DefaultOptions::new().with_fixint_encoding().serialize(&(version, checksum, orders))
}

/// Calls `deserialize` of bincode with fixed-int encoding, trailing bytes allowed, for the fields
/// of a batch: it succeeds exactly on bytes that begin with a batch, and returns its fields.
#[verifier::external_body]
fn deserialize_batch(bytes: &[u8]) -> (res: Result<(u16, u64, Vec<u8>), bincode::Error>)
    ensures
        match res {
            Ok(batch) => layout::holds_batch(bytes@, batch.0, batch.1, batch.2@),
            Err(_) => forall|version: u16, checksum: u64, orders: Seq<u8>|
                !#[trigger] layout::holds_batch(bytes@, version, checksum, orders),
        },
{
    bincode::DefaultOptions::new().with_fixint_encoding().allow_trailing_bytes().deserialize(bytes)
}

/// Calls `deserialize` of bincode with fixed-int encoding, trailing bytes allowed, for a number
/// of two bytes: it succeeds exactly if there are two bytes.
#[verifier::external_body]
fn deserialize_version(bytes: &[u8]) -> (res: Result<u16, bincode::Error>)
    ensures
        match res {
            Ok(version) => bytes@.len() >= 2 && bytes@.take(2) == crate::encoding::le16(version),
            Err(_) => bytes@.len() < 2,
        },
{
    bincode::DefaultOptions::new().with_fixint_encoding().allow_trailing_bytes().deserialize(bytes)
}

/// Calls `serialize` of bincode with fixed-int encoding on a symbol and encoded orders, which
/// cannot fail: both behind their lengths.
#[verifier::external_body]
fn serialize_market(symbol: &String, encoded: &Vec<u8>) -> (res: Result<Vec<u8>, bincode::Error>)
    ensures
        match res {
            Ok(bytes) => bytes@ == layout::market_bytes(symbol@, encoded@),
            Err(_) => false,
        },
{
    bincode::DefaultOptions::new().with_fixint_encoding().serialize(&(symbol, encoded))
}

/// Calls `deserialize` of bincode with fixed-int encoding, trailing bytes rejected, for a symbol
/// and encoded orders: it succeeds exactly on the bytes of such a pair, and returns the pair.
#[verifier::external_body]
fn deserialize_market(bytes: &[u8]) -> (res: Result<(String, Vec<u8>), bincode::Error>)
    ensures
        match res {
            Ok(pair) => bytes@ == layout::market_bytes(pair.0@, pair.1@),
            Err(_) => forall|symbol: Seq<char>, encoded: Seq<u8>|
                bytes@ != #[trigger] layout::market_bytes(symbol, encoded),
        },
{
    bincode::DefaultOptions::new().with_fixint_encoding().deserialize(bytes)
}

/// Makes a `bincode::ErrorKind::Custom` of a text. Nothing is claimed of it.
#[verifier::external_body]
fn invalid_value(text: String) -> bincode::Error {
    Box::new(bincode::ErrorKind::Custom(text))
}

/// The hash that `blake3::hash` gives.
pub uninterp spec fn blake3_hash(bytes: Seq<u8>) -> Seq<u8>;

/// Calls `blake3::hash`: 32 bytes, which depend on the input alone.
#[verifier::external_body]
fn blake3(bytes: &[u8]) -> (res: [u8; 32])
    ensures
        res@ == blake3_hash(bytes@),
{
    *blake3::hash(bytes).as_bytes()
}

/// The frame that `zstd::stream::encode_all` gives.
pub uninterp spec fn zstd_encoded(bytes: Seq<u8>, level: i32) -> Seq<u8>;

/// The content that `zstd::stream::decode_all` gives; `None` where it fails.
pub uninterp spec fn zstd_decoded(bytes: Seq<u8>) -> Option<Seq<u8>>;

/// Calls `zstd::stream::encode_all`, which succeeds as long as memory does not run out: the frame
/// depends on the input and the level alone, and its content is the input.
#[verifier::external_body]
fn compress(bytes: &[u8], level: i32) -> (res: Result<Vec<u8>, std::io::Error>)
    ensures
        match res {
            Ok(frame) => {
                &&& frame@ == zstd_encoded(bytes@, level)
                &&& zstd_decoded(frame@) == Some(bytes@)
            },
            Err(_) => false,
        },
{
    zstd::stream::encode_all(bytes, level)
}

/// Calls `zstd::stream::decode_all`: as long as memory does not run out, whether it succeeds, and
/// the content that it then gives, depend on the input alone.
#[verifier::external_body]
fn decompress(bytes: &[u8]) -> (res: Result<Vec<u8>, std::io::Error>)
    ensures
        match res {
            Ok(content) => zstd_decoded(bytes@) == Some(content@),
            Err(_) => zstd_decoded(bytes@) is None,
        },
{
    zstd::stream::decode_all(bytes)
}

/// Wire-level order side.
/// Maps 1:1 to the public Side but is frozen to a specific code for stability.
#[derive(Debug, Copy, Clone, PartialEq, Eq, Structural)]
pub enum Side {
    Bid,
    Ask,
}

impl Side {
    /// The code on the wire.
    pub open spec fn spec_code(self) -> u8 {
        match self {
            Side::Bid => 0,
            Side::Ask => 1,
        }
    }

    /// The code on the wire.
    pub fn code(self) -> (res: u8)
        ensures
            res == self.spec_code(),
    {
        match self {
            Side::Bid => 0,
            Side::Ask => 1,
        }
    }

    /// The side with this code, if there is one.
    pub fn from_code(code: u8) -> (res: Option<Side>)
        ensures
            match res {
                Some(side) => side.spec_code() == code,
                None => code > 1,
            },
    {
        match code {
            0 => Some(Side::Bid),
            1 => Some(Side::Ask),
            _ => None,
        }
    }
}

impl From<order::Side> for Side {
    fn from(s: order::Side) -> (res: Self) {
        match s {
            order::Side::Bid => Side::Bid,
            order::Side::Ask => Side::Ask,
        }
    }
}

impl vstd::std_specs::convert::FromSpecImpl<order::Side> for Side {
    open spec fn obeys_from_spec() -> bool {
        true
    }

    open spec fn from_spec(s: order::Side) -> Self {
        match s {
            order::Side::Bid => Side::Bid,
            order::Side::Ask => Side::Ask,
        }
    }
}

impl From<Side> for order::Side {
    fn from(value: Side) -> (res: Self) {
        match value {
            Side::Bid => order::Side::Bid,
            Side::Ask => order::Side::Ask,
        }
    }
}

impl vstd::std_specs::convert::FromSpecImpl<Side> for order::Side {
    open spec fn obeys_from_spec() -> bool {
        true
    }

    open spec fn from_spec(value: Side) -> Self {
        match value {
            Side::Bid => order::Side::Bid,
            Side::Ask => order::Side::Ask,
        }
    }
}

/// Wire-level order status with a stable numeric representation.
#[derive(Debug, Copy, Clone, PartialEq, Eq, Structural)]
pub enum Status {
    Open,
    Executed,
    Canceled,
}

impl Status {
    /// The code on the wire.
    pub open spec fn spec_code(self) -> u8 {
        match self {
            Status::Open => 1,
            Status::Executed => 2,
            Status::Canceled => 3,
        }
    }

    /// The code on the wire.
    pub fn code(self) -> (res: u8)
        ensures
            res == self.spec_code(),
    {
        match self {
            Status::Open => 1,
            Status::Executed => 2,
            Status::Canceled => 3,
        }
    }

    /// The status with this code, if there is one.
    pub fn from_code(code: u8) -> (res: Option<Status>)
        ensures
            match res {
                Some(status) => status.spec_code() == code,
                None => code == 0 || code > 3,
            },
    {
        match code {
            1 => Some(Status::Open),
            2 => Some(Status::Executed),
            3 => Some(Status::Canceled),
            _ => None,
        }
    }
}

impl From<order::Status> for Status {
    fn from(s: order::Status) -> (res: Self) {
        match s {
            order::Status::Open => Status::Open,
            order::Status::Executed => Status::Executed,
            order::Status::Canceled => Status::Canceled,
        }
    }
}

impl vstd::std_specs::convert::FromSpecImpl<order::Status> for Status {
    open spec fn obeys_from_spec() -> bool {
        true
    }

    open spec fn from_spec(s: order::Status) -> Self {
        match s {
            order::Status::Open => Status::Open,
            order::Status::Executed => Status::Executed,
            order::Status::Canceled => Status::Canceled,
        }
    }
}

impl From<Status> for order::Status {
    fn from(value: Status) -> (res: Self) {
        match value {
            Status::Open => order::Status::Open,
            Status::Executed => order::Status::Executed,
            Status::Canceled => order::Status::Canceled,
        }
    }
}

impl vstd::std_specs::convert::FromSpecImpl<Status> for order::Status {
    open spec fn obeys_from_spec() -> bool {
        true
    }

    open spec fn from_spec(value: Status) -> Self {
        match value {
            Status::Open => order::Status::Open,
            Status::Executed => order::Status::Executed,
            Status::Canceled => order::Status::Canceled,
        }
    }
}

/// Version 1 of the order wire schema.
/// This is intentionally explicit and uses only stable scalar types.
#[derive(Debug)]
pub struct OrderV1 {
    pub id: u64,
    pub user_id: String,
    pub client_id: String,
    pub side: Side,
    pub price: u64,
    pub executed_price: Option<u64>,
    pub volume: u64,
    pub executed_volume: u64,
    pub status: Status,
    pub closed_by: Option<u64>,
}

impl Clone for OrderV1 {
    fn clone(&self) -> (res: Self)
        ensures
            res == *self,
    {
        OrderV1 {
            id: self.id,
            user_id: self.user_id.clone(),
            client_id: self.client_id.clone(),
            side: self.side,
            price: self.price,
            executed_price: self.executed_price,
            volume: self.volume,
            executed_volume: self.executed_volume,
            status: self.status,
            closed_by: self.closed_by,
        }
    }
}

impl From<&Order> for OrderV1 {
    fn from(o: &Order) -> (res: Self) {
        OrderV1 {
            id: o.id,
            user_id: o.user_id.clone(),
            client_id: o.client_id.clone(),
            side: Side::from(o.side),
            price: o.price,
            executed_price: o.executed_price,
            volume: o.volume,
            executed_volume: o.executed_volume,
            status: Status::from(o.status),
            closed_by: o.closed_by,
        }
    }
}

impl vstd::std_specs::convert::FromSpecImpl<&Order> for OrderV1 {
    open spec fn obeys_from_spec() -> bool {
        true
    }

    open spec fn from_spec(o: &Order) -> Self {
        OrderV1 {
            id: o.id,
            user_id: o.user_id,
            client_id: o.client_id,
            side: <Side as vstd::std_specs::convert::FromSpec<order::Side>>::from_spec(o.side),
            price: o.price,
            executed_price: o.executed_price,
            volume: o.volume,
            executed_volume: o.executed_volume,
            status: <Status as vstd::std_specs::convert::FromSpec<order::Status>>::from_spec(
                o.status,
            ),
            closed_by: o.closed_by,
        }
    }
}

impl From<OrderV1> for Order {
    fn from(w: OrderV1) -> (res: Self) {
        Order {
            id: w.id,
            user_id: w.user_id,
            client_id: w.client_id,
            side: order::Side::from(w.side),
            price: w.price,
            executed_price: w.executed_price,
            volume: w.volume,
            executed_volume: w.executed_volume,
            status: order::Status::from(w.status),
            closed_by: w.closed_by,
        }
    }
}

impl vstd::std_specs::convert::FromSpecImpl<OrderV1> for Order {
    open spec fn obeys_from_spec() -> bool {
        true
    }

    open spec fn from_spec(w: OrderV1) -> Self {
        Order {
            id: w.id,
            user_id: w.user_id,
            client_id: w.client_id,
            side: <order::Side as vstd::std_specs::convert::FromSpec<Side>>::from_spec(w.side),
            price: w.price,
            executed_price: w.executed_price,
            volume: w.volume,
            executed_volume: w.executed_volume,
            status: <order::Status as vstd::std_specs::convert::FromSpec<Status>>::from_spec(
                w.status,
            ),
            closed_by: w.closed_by,
        }
    }
}

/// What the wire carries of an order in the stable schema.
pub open spec fn wire_image(w: OrderV1) -> OrderImage {
    OrderImage {
        id: w.id,
        user_id: w.user_id@,
        client_id: w.client_id@,
        side: w.side.spec_code(),
        price: w.price,
        executed_price: w.executed_price,
        volume: w.volume,
        executed_volume: w.executed_volume,
        status: w.status.spec_code(),
        closed_by: w.closed_by,
    }
}

/// What the wire carries of an order.
pub open spec fn order_image(o: Order) -> OrderImage {
    wire_image(<OrderV1 as vstd::std_specs::convert::FromSpec<&Order>>::from_spec(&o))
}

/// What the wire carries of orders.
pub open spec fn order_images(orders: Seq<Order>) -> Seq<OrderImage> {
    orders.map_values(|o: Order| order_image(o))
}

/// The codes for side and status are known.
pub open spec fn known_codes(image: OrderImage) -> bool {
    image.side <= 1 && 1 <= image.status <= 3
}

/// The codes for side and status are known in all of the orders.
pub open spec fn all_known(images: Seq<OrderImage>) -> bool {
    forall|i: int| 0 <= i < images.len() ==> known_codes(#[trigger] images[i])
}

impl OrderV1 {
    /// The fields, with side and status as their codes.
    fn into_raw(self) -> (res: RawOrder)
        ensures
            raw_image(res) == wire_image(self),
    {
        (
            self.id,
            self.user_id,
            self.client_id,
            self.side.code(),
            self.price,
            self.executed_price,
            self.volume,
            self.executed_volume,
            self.status.code(),
            self.closed_by,
        )
    }

    /// The order with these fields, or the name of the first field whose code is not known.
    fn from_raw(raw: &RawOrder) -> (res: Result<OrderV1, String>)
        ensures
            match res {
                Ok(w) => wire_image(w) == raw_image(*raw),
                Err(_) => !known_codes(raw_image(*raw)),
            },
    {
        let side = match Side::from_code(raw.3) {
            Some(side) => side,
            None => {
                return Err("side".to_string());
            },
        };
        let status = match Status::from_code(raw.8) {
            Some(status) => status,
            None => {
                return Err("status".to_string());
            },
        };
        Ok(
            OrderV1 {
                id: raw.0,
                user_id: raw.1.clone(),
                client_id: raw.2.clone(),
                side,
                price: raw.4,
                executed_price: raw.5,
                volume: raw.6,
                executed_volume: raw.7,
                status,
                closed_by: raw.9,
            },
        )
    }
}

/// Encoded orders, with the schema version and a checksum.
#[derive(Debug)]
pub struct OrderBatch {
    pub version: u16,
    pub checksum: u64,
    pub orders: Vec<u8>,
}

/// The checksum of encoded orders: the first eight bytes of their hash, as a number.
pub open spec fn checksum_of(encoded_orders: Seq<u8>) -> u64 {
    hash_word(blake3_hash(encoded_orders))
}

/// The first eight bytes of a hash, as a number, the lowest byte first.
pub open spec fn hash_word(hash: Seq<u8>) -> u64 {
    vstd::bytes::spec_u64_from_le_bytes(hash.take(8))
}

/// The first eight bytes of a hash, as a number, the lowest byte first.
pub fn first_word(hash: &[u8; 32]) -> (res: u64)
    ensures
        res == hash_word(hash@),
{
    let word = vstd::slice::slice_subrange(hash.as_slice(), 0, 8);
    assert(word@ =~= hash@.take(8));
    vstd::bytes::u64_from_le_bytes(word)
}

impl OrderBatch {
    /// The checksum of encoded orders.
    pub fn calc_checksum(encoded_orders: &[u8]) -> (res: u64)
        ensures
            res == checksum_of(encoded_orders@),
    {
        first_word(&blake3(encoded_orders))
    }
}

/// Errors returned by encoding/decoding operations.
#[derive(Debug)]
pub enum Error {
    /// Failed to encode or decode.
    BinCode(bincode::Error),
    /// Failed to compress or decompress.
    Io(std::io::Error),
    /// The schema version is not supported.
    UnsupportedVersion(u16),
    /// The checksum does not match the encoded orders.
    ChecksumMismatch,
}

/// The payload of a batch of orders, before compression.
pub open spec fn payload_bytes(images: Seq<OrderImage>) -> Seq<u8> {
    let encoded = layout::orders_bytes(images);
    layout::batch_bytes(SCHEMA_VERSION, checksum_of(encoded), encoded)
}

/// Encode a batch of orders, without compressing it.
pub fn encode_payload(orders: &[Order]) -> (res: Result<Vec<u8>, Error>)
    ensures
        match res {
            Ok(payload) => payload@ == payload_bytes(order_images(orders@)),
            Err(_) => false,
        },
{
    let mut raws: Vec<RawOrder> = Vec::new();
    while raws.len() < orders.len()
        invariant
            raws@.len() <= orders@.len(),
            forall|i: int|
                0 <= i < raws@.len() ==> raw_image(#[trigger] raws@[i]) == order_image(orders@[i]),
        decreases orders@.len() - raws@.len(),
    {
        raws.push(OrderV1::from(&orders[raws.len()]).into_raw());
    }
    assert(raw_images(raws@) =~= order_images(orders@));
    let encoded_orders = match serialize_orders(&raws) {
        Ok(bytes) => bytes,
        Err(e) => {
            return Err(Error::BinCode(e));
        },
    };
    let checksum = OrderBatch::calc_checksum(encoded_orders.as_slice());
    match serialize_batch(SCHEMA_VERSION, checksum, &encoded_orders) {
        Ok(payload) => Ok(payload),
        Err(e) => Err(Error::BinCode(e)),
    }
}

/// Encode a batch of orders into a compressed binary payload.
///
/// The output is the zstd-compressed bincode bytes of a versioned, checksummed batch.
pub fn encode_orders_batch(orders: &[Order]) -> (res: Result<Vec<u8>, Error>)
    ensures
        match res {
            Ok(bytes) => {
                let payload = payload_bytes(order_images(orders@));
                &&& bytes@ == zstd_encoded(payload, COMPRESSION_LEVEL)
                &&& zstd_decoded(bytes@) == Some(payload)
                &&& payload.len() <= u64::MAX
            },
            Err(_) => false,
        },
{
    let payload = encode_payload(orders)?;
    assert(payload.len() <= u64::MAX);
    match compress(payload.as_slice(), COMPRESSION_LEVEL) {
        Ok(bytes) => Ok(bytes),
        Err(e) => Err(Error::Io(e)),
    }
}

/// The orders of a batch whose encoded orders have the checksum `computed`: a code that is not
/// known comes before a checksum that does not match.
pub fn check_orders(raws: Vec<RawOrder>, checksum: u64, computed: u64) -> (res: Result<
    Vec<Order>,
    Error,
>)
    ensures
        match res {
            Ok(orders) => {
                &&& order_images(orders@) == raw_images(raws@)
                &&& checksum == computed
            },
            Err(Error::BinCode(_)) => !all_known(raw_images(raws@)),
            Err(Error::ChecksumMismatch) => all_known(raw_images(raws@)) && checksum != computed,
            Err(_) => false,
        },
{
    let mut orders: Vec<Order> = Vec::new();
    while orders.len() < raws.len()
        invariant
            orders@.len() <= raws@.len(),
            forall|i: int|
                0 <= i < orders@.len() ==> order_image(#[trigger] orders@[i]) == raw_image(raws@[i]),
        decreases raws@.len() - orders@.len(),
    {
        let ghost at = orders@.len() as int;
        match OrderV1::from_raw(&raws[orders.len()]) {
            Ok(w) => {
                let order = Order::from(w);
                assert(order_image(order) == wire_image(w));
                orders.push(order);
            },
            Err(field) => {
                assert(!known_codes(raw_images(raws@)[at]));
                return Err(
                    Error::BinCode(
                        invalid_value("invalid value: ".to_string().concat(field.as_str())),
                    ),
                );
            },
        }
    }
    assert(order_images(orders@) =~= raw_images(raws@));
    proof {
        assert forall|i: int| 0 <= i < raw_images(raws@).len() implies known_codes(
            #[trigger] raw_images(raws@)[i],
        ) by {
            assert(order_images(orders@)[i] == order_image(orders@[i]));
        }
    }
    if checksum != computed {
        return Err(Error::ChecksumMismatch);
    }
    Ok(orders)
}

/// A payload holds a batch of the supported version, with these orders, under this checksum.
pub open spec fn payload_holds(
    payload: Seq<u8>,
    checksum: u64,
    encoded: Seq<u8>,
    images: Seq<OrderImage>,
) -> bool {
    &&& layout::holds_batch(payload, SCHEMA_VERSION, checksum, encoded)
    &&& layout::holds_orders(encoded, images)
}

/// `res` is what a payload decodes to: the orders of its batch, or the first thing that is
/// wrong with it.
pub open spec fn decodes(payload: Seq<u8>, res: Result<Vec<Order>, Error>) -> bool {
    match res {
        Ok(orders) => exists|checksum: u64, encoded: Seq<u8>|
            {
                &&& #[trigger] payload_holds(payload, checksum, encoded, order_images(orders@))
                &&& checksum == checksum_of(encoded)
            },
        Err(Error::ChecksumMismatch) => exists|
            checksum: u64,
            encoded: Seq<u8>,
            images: Seq<OrderImage>,
        |
            {
                &&& #[trigger] payload_holds(payload, checksum, encoded, images)
                &&& all_known(images)
                &&& checksum != checksum_of(encoded)
            },
        Err(Error::UnsupportedVersion(version)) => {
            &&& payload.len() >= 2
            &&& payload.take(2) == crate::encoding::le16(version)
            &&& version != SCHEMA_VERSION
        },
        Err(Error::BinCode(_)) => payload.len() < 2 || {
            &&& payload.take(2) == crate::encoding::le16(SCHEMA_VERSION)
            &&& forall|checksum: u64, encoded: Seq<u8>, images: Seq<OrderImage>| #[trigger]
                payload_holds(payload, checksum, encoded, images) ==> !all_known(images)
        },
        Err(Error::Io(_)) => false,
    }
}

/// Decode a batch of orders from its payload, decompressed.
pub fn decode_payload(payload: &[u8]) -> (res: Result<Vec<Order>, Error>)
    ensures
        decodes(payload@, res),
{
    let version = match deserialize_version(payload) {
        Ok(version) => version,
        Err(e) => {
            return Err(Error::BinCode(e));
        },
    };
    if version != SCHEMA_VERSION {
        return Err(Error::UnsupportedVersion(version));
    }
    assert(payload.len() <= u64::MAX);
    let batch = match deserialize_batch(payload) {
        Ok(batch) => batch,
        Err(e) => {
            return Err(Error::BinCode(e));
        },
    };
    proof {
        layout::lemma_batch_version(payload@, batch.0, batch.1, batch.2@);
        crate::encoding::lemma_le16_tells(batch.0, version);
    }
    let raws = match deserialize_orders(batch.2.as_slice()) {
        Ok(raws) => raws,
        Err(e) => {
            proof {
                assert forall|checksum: u64, encoded: Seq<u8>, images: Seq<OrderImage>| #[trigger]
                    payload_holds(payload@, checksum, encoded, images) implies false by {
                    lemma_payload_holds_one(payload@, checksum, encoded, batch.1, batch.2@);
                }
            }
            return Err(Error::BinCode(e));
        },
    };
    let computed = OrderBatch::calc_checksum(batch.2.as_slice());
    let ghost images = raw_images(raws@);
    assert(payload_holds(payload@, batch.1, batch.2@, images));
    proof {
        assert(batch.2.len() <= u64::MAX);
        assert forall|checksum: u64, encoded: Seq<u8>, other: Seq<OrderImage>| #[trigger]
            payload_holds(payload@, checksum, encoded, other) implies other == images by {
            lemma_payload_holds_one(payload@, checksum, encoded, batch.1, batch.2@);
            layout::law_orders_are_unambiguous(encoded, other, images);
        }
    }
    check_orders(raws, batch.1, computed)
}

/// A payload holds at most one batch of the supported version.
proof fn lemma_payload_holds_one(
    payload: Seq<u8>,
    checksum1: u64,
    encoded1: Seq<u8>,
    checksum2: u64,
    encoded2: Seq<u8>,
)
    requires
        payload.len() <= u64::MAX,
        layout::holds_batch(payload, SCHEMA_VERSION, checksum1, encoded1),
        layout::holds_batch(payload, SCHEMA_VERSION, checksum2, encoded2),
    ensures
        checksum1 == checksum2,
        encoded1 == encoded2,
{
    layout::law_batches_are_unambiguous(
        payload,
        SCHEMA_VERSION,
        checksum1,
        encoded1,
        SCHEMA_VERSION,
        checksum2,
        encoded2,
    );
}

/// `res` is what a compressed payload decodes to: what its content decodes to, or an I/O error if
/// it cannot be decompressed.
pub open spec fn decodes_frame(bytes: Seq<u8>, res: Result<Vec<Order>, Error>) -> bool {
    match zstd_decoded(bytes) {
        Some(payload) => decodes(payload, res),
        None => res is Err && res->Err_0 is Io,
    }
}

/// Decode a batch of orders from a compressed binary payload produced by
/// encode_orders_batch.
pub fn decode_orders_batch(bytes: &[u8]) -> (res: Result<Vec<Order>, Error>)
    ensures
        decodes_frame(bytes@, res),
{
    match decompress(bytes) {
        Ok(payload) => decode_payload(payload.as_slice()),
        Err(e) => Err(Error::Io(e)),
    }
}

/// Encode a batch of orders of one market: the symbol, and the compressed payload.
pub fn encode_market_batch(symbol: &Symbol, orders: &[Order]) -> (res: Result<Vec<u8>, Error>)
    ensures
        match res {
            Ok(bytes) => {
                let payload = payload_bytes(order_images(orders@));
                let encoded = zstd_encoded(payload, COMPRESSION_LEVEL);
                &&& bytes@ == layout::market_bytes(symbol@, encoded)
                &&& zstd_decoded(encoded) == Some(payload)
                &&& payload.len() <= u64::MAX
            },
            Err(_) => false,
        },
{
    let encoded = encode_orders_batch(orders)?;
    match serialize_market(symbol, &encoded) {
        Ok(bytes) => Ok(bytes),
        Err(e) => Err(Error::BinCode(e)),
    }
}

/// Decode a batch of orders of one market, produced by encode_market_batch.
pub fn decode_market_batch(bytes: &[u8]) -> (res: Result<(Symbol, Vec<Order>), Error>)
    ensures
        decodes_market(bytes@, res),
{
    let (symbol, encoded) = match deserialize_market(bytes) {
        Ok(pair) => pair,
        Err(e) => {
            return Err(Error::BinCode(e));
        },
    };
    proof {
        assert(bytes.len() <= u64::MAX);
        assert forall|s: Seq<char>, e: Seq<u8>| bytes@ == #[trigger] layout::market_bytes(
            s,
            e,
        ) implies s == symbol@ && e == encoded@ by {
            layout::law_market_batches_are_unambiguous(s, e, symbol@, encoded@);
        }
    }
    match decode_orders_batch(encoded.as_slice()) {
        Ok(orders) => Ok((symbol, orders)),
        Err(e) => Err(e),
    }
}

/// `res` is what the bytes of a market's batch decode to: a symbol with the orders of its
/// payload, or the first thing that is wrong.
pub open spec fn decodes_market(
    bytes: Seq<u8>,
    res: Result<(Symbol, Vec<Order>), Error>,
) -> bool {
    if exists|symbol: Seq<char>, encoded: Seq<u8>|
        bytes == #[trigger] layout::market_bytes(symbol, encoded) {
        exists|symbol: Seq<char>, encoded: Seq<u8>|
            {
                &&& bytes == #[trigger] layout::market_bytes(symbol, encoded)
                &&& match res {
                    Ok(batch) => batch.0@ == symbol && decodes_frame(encoded, Ok(batch.1)),
                    Err(e) => decodes_frame(encoded, Err(e)),
                }
            }
    } else {
        res is Err && res->Err_0 is BinCode
    }
}

/// Decoding the payload of a batch gives back its orders, field for field.
pub proof fn law_decoding_gives_back_orders(orders: Seq<Order>, res: Result<Vec<Order>, Error>)
    requires
        payload_bytes(order_images(orders)).len() <= u64::MAX,
        decodes(payload_bytes(order_images(orders)), res),
    ensures
        res matches Ok(back) && order_images(back@) == order_images(orders),
{
    let images = order_images(orders);
    let encoded = layout::orders_bytes(images);
    let checksum = checksum_of(encoded);
    let payload = payload_bytes(images);
    assert(payload_holds(payload, checksum, encoded, images));
    layout::lemma_batch_version(payload, SCHEMA_VERSION, checksum, encoded);
    assert(encoded.len() <= payload.len());
    assert(all_known(images)) by {
        assert forall|i: int| 0 <= i < images.len() implies known_codes(#[trigger] images[i]) by {
            assert(images[i] == order_image(orders[i]));
        }
    }
    assert forall|c: u64, e: Seq<u8>, other: Seq<OrderImage>| #[trigger]
        payload_holds(payload, c, e, other) implies c == checksum && e == encoded && other
        == images by {
        lemma_payload_holds_one(payload, c, e, checksum, encoded);
        layout::law_orders_are_unambiguous(encoded, other, images);
    }
    match res {
        Err(Error::UnsupportedVersion(version)) => {
            crate::encoding::lemma_le16_tells(version, SCHEMA_VERSION);
        },
        _ => {},
    }
}

/// What the wire carries of an order tells all of its fields.
pub proof fn law_image_tells_order(a: Order, b: Order)
    requires
        order_image(a) == order_image(b),
    ensures
        a.id == b.id,
        a.user_id@ == b.user_id@,
        a.client_id@ == b.client_id@,
        a.side == b.side,
        a.price == b.price,
        a.executed_price == b.executed_price,
        a.volume == b.volume,
        a.executed_volume == b.executed_volume,
        a.status == b.status,
        a.closed_by == b.closed_by,
{
}

/// A payload decodes to one thing: two results for it are the same orders, or errors of the same
/// kind.
pub proof fn law_decoding_is_determined(
    payload: Seq<u8>,
    a: Result<Vec<Order>, Error>,
    b: Result<Vec<Order>, Error>,
)
    requires
        payload.len() <= u64::MAX,
        decodes(payload, a),
        decodes(payload, b),
    ensures
        match (a, b) {
            (Ok(x), Ok(y)) => order_images(x@) == order_images(y@),
            (Err(Error::ChecksumMismatch), Err(Error::ChecksumMismatch)) => true,
            (Err(Error::BinCode(_)), Err(Error::BinCode(_))) => true,
            (Err(Error::UnsupportedVersion(v)), Err(Error::UnsupportedVersion(w))) => v == w,
            _ => false,
        },
{
    assert forall|
        c1: u64,
        e1: Seq<u8>,
        i1: Seq<OrderImage>,
        c2: u64,
        e2: Seq<u8>,
        i2: Seq<OrderImage>,
    |
        #[trigger] payload_holds(payload, c1, e1, i1) && #[trigger] payload_holds(
            payload,
            c2,
            e2,
            i2,
        ) implies c1 == c2 && e1 == e2 && i1 == i2 && payload.len() >= 2 && payload.take(2)
        == crate::encoding::le16(SCHEMA_VERSION) by {
        lemma_payload_holds_one(payload, c1, e1, c2, e2);
        layout::lemma_batch_version(payload, SCHEMA_VERSION, c1, e1);
        layout::law_orders_are_unambiguous(e1, i1, i2);
    }
    lemma_orders_known(a);
    lemma_orders_known(b);
    if let Err(Error::UnsupportedVersion(v)) = a {
        crate::encoding::lemma_le16_tells(v, SCHEMA_VERSION);
        if let Err(Error::UnsupportedVersion(w)) = b {
            crate::encoding::lemma_le16_tells(v, w);
        }
    }
    if let Err(Error::UnsupportedVersion(w)) = b {
        crate::encoding::lemma_le16_tells(w, SCHEMA_VERSION);
    }
}

/// The codes of decoded orders are known.
proof fn lemma_orders_known(res: Result<Vec<Order>, Error>)
    ensures
        res matches Ok(orders) ==> all_known(order_images(orders@)),
{
    if let Ok(orders) = res {
        assert forall|i: int| 0 <= i < order_images(orders@).len() implies known_codes(
            #[trigger] order_images(orders@)[i],
        ) by {
            assert(order_images(orders@)[i] == order_image(orders@[i]));
        }
    }
}

} // verus!
