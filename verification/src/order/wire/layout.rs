//! The bytes of the wire format: integers in little endian, texts and lists behind their length.

use vstd::prelude::*;

verus! {

/// What the wire carries of an order. Side and status stand as their codes.
pub struct OrderImage {
    pub id: u64,
    pub user_id: Seq<char>,
    pub client_id: Seq<char>,
    pub side: u8,
    pub price: u64,
    pub executed_price: Option<u64>,
    pub volume: u64,
    pub executed_volume: u64,
    pub status: u8,
    pub closed_by: Option<u64>,
}

/// A text: the number of its bytes, and the bytes.
pub open spec fn text_bytes(text: Seq<char>) -> Seq<u8> {
    crate::encoding::le64(crate::encoding::utf8(text).len() as u64) + crate::encoding::utf8(text)
}

/// A number that may be missing: 0, or 1 and the number.
pub open spec fn option_bytes(value: Option<u64>) -> Seq<u8> {
    match value {
        None => seq![0u8],
        Some(v) => seq![1u8] + crate::encoding::le64(v),
    }
}

impl OrderImage {
    /// The fields, one after the other.
    pub open spec fn bytes(self) -> Seq<u8> {
        crate::encoding::le64(self.id) + (text_bytes(self.user_id) + (text_bytes(self.client_id) + (
        seq![self.side] + (crate::encoding::le64(self.price) + (option_bytes(self.executed_price) + (
        crate::encoding::le64(self.volume) + (crate::encoding::le64(self.executed_volume) + (
        seq![self.status] + option_bytes(self.closed_by)))))))))
    }
}

/// The orders, one after the other.
pub open spec fn images_bytes(images: Seq<OrderImage>) -> Seq<u8>
    decreases images.len(),
{
    if images.len() == 0 {
        Seq::empty()
    } else {
        images[0].bytes() + images_bytes(images.drop_first())
    }
}

/// A list of orders: how many there are, and the orders.
pub open spec fn orders_bytes(images: Seq<OrderImage>) -> Seq<u8> {
    crate::encoding::le64(images.len() as u64) + images_bytes(images)
}

/// A batch: the schema version, the checksum, and the encoded orders behind their length.
pub open spec fn batch_bytes(version: u16, checksum: u64, orders: Seq<u8>) -> Seq<u8> {
    crate::encoding::le16(version) + (crate::encoding::le64(checksum) + (crate::encoding::le64(
        orders.len() as u64,
    ) + orders))
}

/// A batch of one market: its symbol, and the encoded batch behind its length.
pub open spec fn market_bytes(symbol: Seq<char>, encoded: Seq<u8>) -> Seq<u8> {
    text_bytes(symbol) + (crate::encoding::le64(encoded.len() as u64) + encoded)
}

/// `bytes` begins with this list of orders.
pub open spec fn holds_orders(bytes: Seq<u8>, images: Seq<OrderImage>) -> bool {
    orders_bytes(images).is_prefix_of(bytes)
}

/// `bytes` begins with this batch.
pub open spec fn holds_batch(bytes: Seq<u8>, version: u16, checksum: u64, orders: Seq<u8>) -> bool {
    batch_bytes(version, checksum, orders).is_prefix_of(bytes)
}

/// Two sequences that begin with parts of the same length have the same parts and rests.
proof fn lemma_split(a: Seq<u8>, b: Seq<u8>, x: Seq<u8>, y: Seq<u8>)
    requires
        a.len() == b.len(),
        a + x == b + y,
    ensures
        a == b,
        x == y,
{
    assert forall|i: int| 0 <= i < a.len() implies a[i] == b[i] by {
        assert((a + x)[i] == a[i]);
        assert((b + y)[i] == b[i]);
    }
    assert(a =~= b);
    assert((a + x).len() == a.len() + x.len());
    assert((b + y).len() == b.len() + y.len());
    assert forall|i: int| 0 <= i < x.len() implies x[i] == y[i] by {
        assert((a + x)[a.len() + i] == x[i]);
        assert((b + y)[b.len() + i] == y[i]);
    }
    assert(x =~= y);
}

/// A number at the front can be told, and so can what follows it.
proof fn lemma_split_number(a: u64, b: u64, x: Seq<u8>, y: Seq<u8>)
    requires
        crate::encoding::le64(a) + x == crate::encoding::le64(b) + y,
    ensures
        a == b,
        x == y,
{
    vstd::bytes::lemma_auto_spec_u64_to_from_le_bytes();
    assert(crate::encoding::le64(a).len() == 8);
    assert(crate::encoding::le64(b).len() == 8);
    lemma_split(crate::encoding::le64(a), crate::encoding::le64(b), x, y);
}

/// A text at the front can be told, and so can what follows it.
proof fn lemma_split_text(a: Seq<char>, b: Seq<char>, x: Seq<u8>, y: Seq<u8>)
    requires
        text_bytes(a) + x == text_bytes(b) + y,
        (text_bytes(a) + x).len() <= u64::MAX,
    ensures
        a == b,
        x == y,
{
    let ea = crate::encoding::utf8(a);
    let eb = crate::encoding::utf8(b);
    let la = crate::encoding::le64(ea.len() as u64);
    let lb = crate::encoding::le64(eb.len() as u64);
    assert(text_bytes(a) + x =~= la + (ea + x));
    assert(text_bytes(b) + y =~= lb + (eb + y));
    assert((text_bytes(a) + x).len() == la.len() + ea.len() + x.len());
    assert((text_bytes(b) + y).len() == lb.len() + eb.len() + y.len());
    lemma_split_number(ea.len() as u64, eb.len() as u64, ea + x, eb + y);
    lemma_split(ea, eb, x, y);
    vstd::utf8::encode_utf8_decode_utf8(a);
    vstd::utf8::encode_utf8_decode_utf8(b);
}

/// A byte at the front can be told, and so can what follows it.
proof fn lemma_split_byte(a: u8, b: u8, x: Seq<u8>, y: Seq<u8>)
    requires
        seq![a] + x == seq![b] + y,
    ensures
        a == b,
        x == y,
{
    lemma_split(seq![a], seq![b], x, y);
    assert(seq![a][0] == seq![b][0]);
}

/// A number that may be missing can be told at the front, and so can what follows it.
proof fn lemma_split_option(a: Option<u64>, b: Option<u64>, x: Seq<u8>, y: Seq<u8>)
    requires
        option_bytes(a) + x == option_bytes(b) + y,
    ensures
        a == b,
        x == y,
{
    let ra = match a {
        None => x,
        Some(v) => crate::encoding::le64(v) + x,
    };
    let rb = match b {
        None => y,
        Some(v) => crate::encoding::le64(v) + y,
    };
    let ta: u8 = if a is Some {
        1
    } else {
        0
    };
    let tb: u8 = if b is Some {
        1
    } else {
        0
    };
    assert(option_bytes(a) + x =~= seq![ta] + ra);
    assert(option_bytes(b) + y =~= seq![tb] + rb);
    lemma_split_byte(ta, tb, ra, rb);
    if a is Some {
        lemma_split_number(a->0, b->0, x, y);
    }
}

/// An order at the front can be told, and so can what follows it.
proof fn lemma_split_order(a: OrderImage, b: OrderImage, x: Seq<u8>, y: Seq<u8>)
    requires
        a.bytes() + x == b.bytes() + y,
        (a.bytes() + x).len() <= u64::MAX,
    ensures
        a == b,
        x == y,
{
    let a9 = option_bytes(a.closed_by) + x;
    let b9 = option_bytes(b.closed_by) + y;
    let a8 = seq![a.status] + a9;
    let b8 = seq![b.status] + b9;
    let a7 = crate::encoding::le64(a.executed_volume) + a8;
    let b7 = crate::encoding::le64(b.executed_volume) + b8;
    let a6 = crate::encoding::le64(a.volume) + a7;
    let b6 = crate::encoding::le64(b.volume) + b7;
    let a5 = option_bytes(a.executed_price) + a6;
    let b5 = option_bytes(b.executed_price) + b6;
    let a4 = crate::encoding::le64(a.price) + a5;
    let b4 = crate::encoding::le64(b.price) + b5;
    let a3 = seq![a.side] + a4;
    let b3 = seq![b.side] + b4;
    let a2 = text_bytes(a.client_id) + a3;
    let b2 = text_bytes(b.client_id) + b3;
    let a1 = text_bytes(a.user_id) + a2;
    let b1 = text_bytes(b.user_id) + b2;
    assert(a.bytes() + x =~= crate::encoding::le64(a.id) + a1);
    assert(b.bytes() + y =~= crate::encoding::le64(b.id) + b1);
    lemma_split_number(a.id, b.id, a1, b1);
    lemma_split_text(a.user_id, b.user_id, a2, b2);
    lemma_split_text(a.client_id, b.client_id, a3, b3);
    lemma_split_byte(a.side, b.side, a4, b4);
    lemma_split_number(a.price, b.price, a5, b5);
    lemma_split_option(a.executed_price, b.executed_price, a6, b6);
    lemma_split_number(a.volume, b.volume, a7, b7);
    lemma_split_number(a.executed_volume, b.executed_volume, a8, b8);
    lemma_split_byte(a.status, b.status, a9, b9);
    lemma_split_option(a.closed_by, b.closed_by, x, y);
}

/// Orders at the front can be told, if there are equally many, and so can what follows them.
proof fn lemma_split_images(a: Seq<OrderImage>, b: Seq<OrderImage>, x: Seq<u8>, y: Seq<u8>)
    requires
        a.len() == b.len(),
        images_bytes(a) + x == images_bytes(b) + y,
        (images_bytes(a) + x).len() <= u64::MAX,
    ensures
        a == b,
        x == y,
    decreases a.len(),
{
    if a.len() == 0 {
        assert(images_bytes(a) + x =~= x);
        assert(images_bytes(b) + y =~= y);
        assert(a =~= b);
    } else {
        let ra = images_bytes(a.drop_first()) + x;
        let rb = images_bytes(b.drop_first()) + y;
        assert(images_bytes(a) + x =~= a[0].bytes() + ra);
        assert(images_bytes(b) + y =~= b[0].bytes() + rb);
        lemma_split_order(a[0], b[0], ra, rb);
        assert(ra.len() <= (a[0].bytes() + ra).len());
        lemma_split_images(a.drop_first(), b.drop_first(), x, y);
        assert(a =~= seq![a[0]] + a.drop_first());
        assert(b =~= seq![b[0]] + b.drop_first());
    }
}

/// Every order takes at least a byte.
proof fn lemma_images_len(images: Seq<OrderImage>)
    ensures
        images_bytes(images).len() >= images.len(),
    decreases images.len(),
{
    if images.len() > 0 {
        lemma_images_len(images.drop_first());
        assert(images[0].bytes().len() >= 1);
    }
}

/// What comes before the rest of a longer sequence.
proof fn lemma_prefix(part: Seq<u8>, whole: Seq<u8>)
    requires
        part.is_prefix_of(whole),
    ensures
        whole == part + whole.skip(part.len() as int),
{
    assert(whole =~= part + whole.skip(part.len() as int));
}

/// Bytes begin with at most one list of orders.
pub proof fn law_orders_are_unambiguous(bytes: Seq<u8>, a: Seq<OrderImage>, b: Seq<OrderImage>)
    requires
        bytes.len() <= u64::MAX,
        holds_orders(bytes, a),
        holds_orders(bytes, b),
    ensures
        a == b,
{
    lemma_prefix(orders_bytes(a), bytes);
    lemma_prefix(orders_bytes(b), bytes);
    lemma_images_len(a);
    lemma_images_len(b);
    vstd::bytes::lemma_auto_spec_u64_to_from_le_bytes();
    let x = bytes.skip(orders_bytes(a).len() as int);
    let y = bytes.skip(orders_bytes(b).len() as int);
    let ia = images_bytes(a);
    let ib = images_bytes(b);
    assert(bytes =~= crate::encoding::le64(a.len() as u64) + (ia + x));
    assert(bytes =~= crate::encoding::le64(b.len() as u64) + (ib + y));
    lemma_split_number(a.len() as u64, b.len() as u64, ia + x, ib + y);
    lemma_split_images(a, b, x, y);
}

/// Bytes begin with at most one batch.
pub proof fn law_batches_are_unambiguous(
    bytes: Seq<u8>,
    version1: u16,
    checksum1: u64,
    orders1: Seq<u8>,
    version2: u16,
    checksum2: u64,
    orders2: Seq<u8>,
)
    requires
        bytes.len() <= u64::MAX,
        holds_batch(bytes, version1, checksum1, orders1),
        holds_batch(bytes, version2, checksum2, orders2),
    ensures
        version1 == version2,
        checksum1 == checksum2,
        orders1 == orders2,
{
    vstd::bytes::lemma_auto_spec_u16_to_from_le_bytes();
    let a = batch_bytes(version1, checksum1, orders1);
    let b = batch_bytes(version2, checksum2, orders2);
    lemma_prefix(a, bytes);
    lemma_prefix(b, bytes);
    let x = bytes.skip(a.len() as int);
    let y = bytes.skip(b.len() as int);
    let va = crate::encoding::le16(version1);
    let vb = crate::encoding::le16(version2);
    let la = crate::encoding::le64(orders1.len() as u64) + (orders1 + x);
    let lb = crate::encoding::le64(orders2.len() as u64) + (orders2 + y);
    let ca = crate::encoding::le64(checksum1) + la;
    let cb = crate::encoding::le64(checksum2) + lb;
    assert(bytes =~= va + ca);
    assert(bytes =~= vb + cb);
    assert(va.len() == 2 && vb.len() == 2);
    lemma_split(va, vb, ca, cb);
    lemma_split_number(checksum1, checksum2, la, lb);
    lemma_split_number(
        orders1.len() as u64,
        orders2.len() as u64,
        orders1 + x,
        orders2 + y,
    );
    lemma_split(orders1, orders2, x, y);
}

/// The bytes of a market's batch tell its symbol and what is encoded in it.
pub proof fn law_market_batches_are_unambiguous(
    symbol1: Seq<char>,
    encoded1: Seq<u8>,
    symbol2: Seq<char>,
    encoded2: Seq<u8>,
)
    requires
        market_bytes(symbol1, encoded1) == market_bytes(symbol2, encoded2),
        market_bytes(symbol1, encoded1).len() <= u64::MAX,
    ensures
        symbol1 == symbol2,
        encoded1 == encoded2,
{
    let x = crate::encoding::le64(encoded1.len() as u64) + encoded1;
    let y = crate::encoding::le64(encoded2.len() as u64) + encoded2;
    lemma_split_text(symbol1, symbol2, x, y);
    lemma_split_number(encoded1.len() as u64, encoded2.len() as u64, encoded1, encoded2);
}

/// The version stands first in a batch.
pub proof fn lemma_batch_version(bytes: Seq<u8>, version: u16, checksum: u64, orders: Seq<u8>)
    requires
        holds_batch(bytes, version, checksum, orders),
    ensures
        bytes.len() >= 2,
        bytes.take(2) == crate::encoding::le16(version),
{
    vstd::bytes::lemma_auto_spec_u16_to_from_le_bytes();
    let batch = batch_bytes(version, checksum, orders);
    lemma_prefix(batch, bytes);
    assert(crate::encoding::le16(version).len() == 2);
    assert(bytes.take(2) =~= batch.take(2));
    assert(batch.take(2) =~= crate::encoding::le16(version));
}

/// An order stands on the wire as its fields, one after the other: numbers in eight bytes each, the
/// lowest first; texts in UTF-8 behind the number of their bytes; side and status in one byte; and a
/// number that may be missing behind a 1, or as a 0.
pub proof fn law_order_layout(o: OrderImage)
    ensures
        ({
            let user = crate::encoding::utf8(o.user_id);
            let client = crate::encoding::utf8(o.client_id);
            let paid = match o.executed_price {
                Some(price) => seq![1u8] + crate::encoding::le64(price),
                None => seq![0u8],
            };
            let closed = match o.closed_by {
                Some(seq) => seq![1u8] + crate::encoding::le64(seq),
                None => seq![0u8],
            };
            o.bytes() == crate::encoding::le64(o.id) + crate::encoding::le64(user.len() as u64)
                + user + crate::encoding::le64(client.len() as u64) + client + seq![o.side]
                + crate::encoding::le64(o.price) + paid + crate::encoding::le64(o.volume)
                + crate::encoding::le64(o.executed_volume) + seq![o.status] + closed
        }),
{
    let user = crate::encoding::utf8(o.user_id);
    let client = crate::encoding::utf8(o.client_id);
    let tail4 = crate::encoding::le64(o.executed_volume) + (seq![o.status] + option_bytes(
        o.closed_by,
    ));
    let tail3 = option_bytes(o.executed_price) + (crate::encoding::le64(o.volume) + tail4);
    let tail2 = seq![o.side] + (crate::encoding::le64(o.price) + tail3);
    let head = crate::encoding::le64(o.id) + crate::encoding::le64(user.len() as u64) + user
        + crate::encoding::le64(client.len() as u64) + client;
    assert(o.bytes() =~= head + tail2);
    let mid = head + seq![o.side] + crate::encoding::le64(o.price);
    assert(head + tail2 =~= mid + tail3);
    let late = mid + option_bytes(o.executed_price) + crate::encoding::le64(o.volume);
    assert(mid + tail3 =~= late + tail4);
    assert(late + tail4 =~= late + crate::encoding::le64(o.executed_volume) + seq![o.status]
        + option_bytes(o.closed_by));
}

} // verus!
