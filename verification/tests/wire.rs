use chortke::order;
use chortke::order::Order;
use chortke::order::wire::{
    COMPRESSION_LEVEL, Error, OrderBatch, OrderV1, Side, Status, check_orders,
    decode_market_batch, decode_orders_batch, decode_payload, encode_market_batch,
    encode_orders_batch, encode_payload, first_word,
};
use chortke::user;

fn sample_order(id: u64) -> Order {
    Order::new(
        id,
        user::Id::from("u-1".to_string()),
        "c-1".to_string(),
        order::Side::Bid,
        10,
        5,
    )
}

#[test]
fn side_status_conversion_roundtrip() {
    // Side
    let s_bid_back: order::Side = Side::from(order::Side::Bid).into();
    match s_bid_back {
        order::Side::Bid => {}
        _ => panic!("expected Bid"),
    }
    let s_ask_back: order::Side = Side::from(order::Side::Ask).into();
    match s_ask_back {
        order::Side::Ask => {}
        _ => panic!("expected Ask"),
    }

    // Status
    let st_open_back: order::Status = Status::from(order::Status::Open).into();
    match st_open_back {
        order::Status::Open => {}
        _ => panic!("expected Open"),
    }
    let st_exec_back: order::Status =
        Status::from(order::Status::Executed).into();
    match st_exec_back {
        order::Status::Executed => {}
        _ => panic!("expected Executed"),
    }
    let st_cancel_back: order::Status =
        Status::from(order::Status::Canceled).into();
    match st_cancel_back {
        order::Status::Canceled => {}
        _ => panic!("expected Canceled"),
    }
}

#[test]
fn encode_decode_roundtrip_single() {
    let order = sample_order(7);
    let bytes = encode_orders_batch(&[order.clone()]).expect("encode");
    let decoded = decode_orders_batch(&bytes).expect("decode");
    assert_eq!(
        decoded.len(),
        1,
        "decoded vector length mismatch: got {}, expected 1",
        decoded.len()
    );
    let back = &decoded[0];
    assert_eq!(
        back.id, order.id,
        "id mismatch after encode/decode: got {}, expected {}",
        back.id, order.id
    );
    assert_eq!(
        back.user_id, order.user_id,
        "user_id mismatch: got {:?}, expected {:?}",
        back.user_id, order.user_id
    );
    assert_eq!(
        back.client_id, order.client_id,
        "client_id mismatch: got {:?}, expected {:?}",
        back.client_id, order.client_id
    );
    assert_eq!(
        back.side as u8, order.side as u8,
        "side mismatch: got {}, expected {}",
        back.side as u8, order.side as u8
    );
    assert_eq!(
        back.price, order.price,
        "price mismatch: got {}, expected {}",
        back.price, order.price
    );
    assert_eq!(
        back.executed_price, order.executed_price,
        "executed_price mismatch: got {:?}, expected {:?}",
        back.executed_price, order.executed_price
    );
    assert_eq!(
        back.volume, order.volume,
        "volume mismatch: got {}, expected {}",
        back.volume, order.volume
    );
    assert_eq!(
        back.executed_volume, order.executed_volume,
        "executed_volume mismatch: got {}, expected {}",
        back.executed_volume, order.executed_volume
    );
    match (back.status, order.status) {
        (order::Status::Open, order::Status::Open) => {}
        (a, b) => panic!("status mismatch: {:?} != {:?}", a, b),
    }
    assert_eq!(
        back.closed_by, order.closed_by,
        "closed_by mismatch: got {:?}, expected {:?}",
        back.closed_by, order.closed_by
    );
}

#[test]
fn encode_decode_roundtrip_multiple() {
    let orders: Vec<Order> = (1..=5).map(sample_order).collect();
    let bytes = encode_orders_batch(&orders).expect("encode");
    let decoded = decode_orders_batch(&bytes).expect("decode");
    assert_eq!(
        decoded.len(),
        orders.len(),
        "decoded length mismatch: got {}, expected {}",
        decoded.len(),
        orders.len()
    );
    for (a, b) in decoded.iter().zip(orders.iter()) {
        assert_eq!(
            a.id, b.id,
            "order id mismatch at position; got {}, expected {}",
            a.id, b.id
        );
    }
}

#[test]
fn decode_fails_on_corrupted_payload() {
    // Not a valid zstd frame
    let bad = b"not-a-zstd-frame";
    let err = decode_orders_batch(bad).unwrap_err();
    // zstd errors are mapped to Error::Io
    match err {
        Error::Io(_) => {}
        e => panic!("unexpected error variant: {e:?}"),
    }

    // Produce valid zstd but corrupt bincode inside
    let invalid_inside = vec![0xFF, 0xFF, 0xFF, 0xFF];
    let compressed = zstd::stream::encode_all(&invalid_inside[..], 1).expect("zstd");
    let err2 = decode_orders_batch(&compressed).unwrap_err();
    match err2 {
        Error::UnsupportedVersion(_) => {}
        e => panic!("unexpected error variant: {e:?}"),
    }
}

fn full_order() -> Order {
    let mut o = Order::new(
        0x0102,
        "us\u{e9}r".to_string(),
        "".to_string(),
        order::Side::Ask,
        7,
        9,
    );
    o.executed_price = Some(u64::MAX);
    o.executed_volume = 4;
    o.status = order::Status::Canceled;
    o.closed_by = Some(3);
    o
}

fn orders_bytes(side: u8, status: u8) -> Vec<u8> {
    let mut b = vec![1, 0, 0, 0, 0, 0, 0, 0]; // one order
    b.extend_from_slice(&[2, 1, 0, 0, 0, 0, 0, 0]); // id
    b.extend_from_slice(&[5, 0, 0, 0, 0, 0, 0, 0]); // user id
    b.extend_from_slice("us\u{e9}r".as_bytes());
    b.extend_from_slice(&[0; 8]); // client id
    b.push(side);
    b.extend_from_slice(&[7, 0, 0, 0, 0, 0, 0, 0]); // price
    b.push(1); // executed price
    b.extend_from_slice(&[255; 8]);
    b.extend_from_slice(&[9, 0, 0, 0, 0, 0, 0, 0]); // volume
    b.extend_from_slice(&[4, 0, 0, 0, 0, 0, 0, 0]); // executed volume
    b.push(status);
    b.push(1); // closed by
    b.extend_from_slice(&[3, 0, 0, 0, 0, 0, 0, 0]);
    b
}

fn batch_bytes(version: u16, checksum: u64, orders: &[u8]) -> Vec<u8> {
    let mut b = version.to_le_bytes().to_vec();
    b.extend_from_slice(&checksum.to_le_bytes());
    b.extend_from_slice(&(orders.len() as u64).to_le_bytes());
    b.extend_from_slice(orders);
    b
}

#[test]
fn payload_has_the_documented_layout() {
    let orders = orders_bytes(1, 3);
    let expected = batch_bytes(1, OrderBatch::calc_checksum(&orders), &orders);
    assert_eq!(encode_payload(&[full_order()]).expect("encode"), expected);
}

#[test]
fn payload_of_no_orders() {
    let orders = vec![0u8; 8];
    let expected = batch_bytes(1, OrderBatch::calc_checksum(&orders), &orders);
    let payload = encode_payload(&[]).expect("encode");
    assert_eq!(payload, expected);
    assert!(decode_payload(&payload).expect("decode").is_empty());
}

#[test]
fn payload_decodes_to_the_same_order() {
    let payload = encode_payload(&[full_order()]).expect("encode");
    let back = decode_payload(&payload).expect("decode");
    assert_eq!(back.len(), 1);
    let (a, b) = (&back[0], full_order());
    assert_eq!(a.id, b.id);
    assert_eq!(a.user_id, b.user_id);
    assert_eq!(a.client_id, b.client_id);
    assert_eq!(a.side, b.side);
    assert_eq!(a.price, b.price);
    assert_eq!(a.executed_price, b.executed_price);
    assert_eq!(a.volume, b.volume);
    assert_eq!(a.executed_volume, b.executed_volume);
    assert_eq!(a.status, b.status);
    assert_eq!(a.closed_by, b.closed_by);
}

#[test]
fn checksum_is_the_first_word_of_the_hash() {
    // The BLAKE3 hash of no bytes begins with af1349b9f5f9a1a6.
    assert_eq!(OrderBatch::calc_checksum(&[]), 0xa6a1_f9f5_b949_13af);
    let mut hash = [0u8; 32];
    hash[0] = 1;
    hash[7] = 2;
    hash[8] = 3;
    assert_eq!(first_word(&hash), 0x0200_0000_0000_0001);
}

#[test]
fn encoded_batch_is_compressed() {
    let orders: Vec<Order> = (1..=200).map(sample_order).collect();
    let payload = encode_payload(&orders).expect("encode");
    let bytes = encode_orders_batch(&orders).expect("encode");
    assert!(bytes.len() < payload.len() / 4);
    let content = zstd::stream::decode_all(&bytes[..]).expect("zstd");
    assert_eq!(content, payload);
    assert_eq!(
        zstd::stream::encode_all(&payload[..], COMPRESSION_LEVEL).expect("zstd"),
        bytes
    );
}

#[test]
fn payload_without_a_version_is_a_codec_error() {
    for n in [0usize, 1] {
        match decode_payload(&[1, 0][..n]) {
            Err(Error::BinCode(_)) => {}
            other => panic!("expected BinCode, got: {other:?}"),
        }
    }
}

#[test]
fn other_versions_are_unsupported() {
    for version in [0u16, 2, 513, u16::MAX] {
        match decode_payload(&version.to_le_bytes()) {
            Err(Error::UnsupportedVersion(v)) => assert_eq!(v, version),
            other => panic!("expected UnsupportedVersion, got: {other:?}"),
        }
    }
}

#[test]
fn cut_batch_is_a_codec_error() {
    let orders = orders_bytes(0, 1);
    let whole = batch_bytes(1, OrderBatch::calc_checksum(&orders), &orders);
    for n in [2, 9, 17, 18, whole.len() - 1] {
        match decode_payload(&whole[..n]) {
            Err(Error::BinCode(_)) => {}
            other => panic!("expected BinCode for {n} bytes, got: {other:?}"),
        }
    }
}

#[test]
fn unknown_codes_are_codec_errors() {
    for (side, status) in [(2u8, 1u8), (255, 1), (0, 0), (1, 4)] {
        let orders = orders_bytes(side, status);
        // The codes are looked at before the checksum.
        match decode_payload(&batch_bytes(1, 0, &orders)) {
            Err(Error::BinCode(_)) => {}
            other => panic!("expected BinCode for {side} {status}, got: {other:?}"),
        }
    }
}

#[test]
fn invalid_text_and_option_tags_are_codec_errors() {
    let mut text = orders_bytes(0, 1);
    text[24] = 0xff;
    let mut tag = orders_bytes(0, 1);
    let at = tag.len() - 9;
    tag[at] = 2;
    for orders in [text, tag] {
        match decode_payload(&batch_bytes(1, OrderBatch::calc_checksum(&orders), &orders)) {
            Err(Error::BinCode(_)) => {}
            other => panic!("expected BinCode, got: {other:?}"),
        }
    }
}

#[test]
fn lengths_beyond_the_bytes_are_codec_errors() {
    let mut orders = orders_bytes(0, 1);
    orders[16..24].copy_from_slice(&u64::MAX.to_le_bytes());
    match decode_payload(&batch_bytes(1, 0, &orders)) {
        Err(Error::BinCode(_)) => {}
        other => panic!("expected BinCode, got: {other:?}"),
    }
    let mut batch = batch_bytes(1, 0, &orders);
    batch[10..18].copy_from_slice(&u64::MAX.to_le_bytes());
    match decode_payload(&batch) {
        Err(Error::BinCode(_)) => {}
        other => panic!("expected BinCode, got: {other:?}"),
    }
}

#[test]
fn wrong_checksum_is_refused() {
    let orders = orders_bytes(0, 2);
    let right = OrderBatch::calc_checksum(&orders);
    match decode_payload(&batch_bytes(1, right ^ 1, &orders)) {
        Err(Error::ChecksumMismatch) => {}
        other => panic!("expected ChecksumMismatch, got: {other:?}"),
    }
    assert!(decode_payload(&batch_bytes(1, right, &orders)).is_ok());
}

#[test]
fn trailing_bytes_are_ignored() {
    let mut orders = orders_bytes(0, 2);
    orders.extend_from_slice(&[1, 2, 3]);
    let mut batch = batch_bytes(1, OrderBatch::calc_checksum(&orders), &orders);
    batch.extend_from_slice(&[4, 5]);
    assert_eq!(decode_payload(&batch).expect("decode").len(), 1);
}

#[test]
fn check_orders_goes_by_codes_and_then_by_checksum() {
    let raw = |side: u8, status: u8| {
        (
            1u64,
            "u".to_string(),
            "c".to_string(),
            side,
            2u64,
            None,
            3u64,
            0u64,
            status,
            None,
        )
    };
    match check_orders(vec![raw(0, 1), raw(7, 1)], 5, 6) {
        Err(Error::BinCode(_)) => {}
        other => panic!("expected BinCode, got: {other:?}"),
    }
    match check_orders(vec![raw(0, 1)], 5, 6) {
        Err(Error::ChecksumMismatch) => {}
        other => panic!("expected ChecksumMismatch, got: {other:?}"),
    }
    let orders = check_orders(vec![raw(1, 2), raw(0, 3)], 5, 5).expect("orders");
    assert_eq!(orders.len(), 2);
    assert_eq!(orders[0].side, order::Side::Ask);
    assert_eq!(orders[0].status, order::Status::Executed);
    assert_eq!(orders[1].side, order::Side::Bid);
    assert_eq!(orders[1].status, order::Status::Canceled);
}

#[test]
fn wire_codes_are_stable() {
    assert_eq!(Side::Bid.code(), 0);
    assert_eq!(Side::Ask.code(), 1);
    assert_eq!(Status::Open.code(), 1);
    assert_eq!(Status::Executed.code(), 2);
    assert_eq!(Status::Canceled.code(), 3);
    for code in 0..=255u8 {
        assert_eq!(Side::from_code(code).map(|s| s.code()).unwrap_or(code), code);
        assert_eq!(Side::from_code(code).is_some(), code < 2);
        assert_eq!(Status::from_code(code).is_some(), (1..4).contains(&code));
    }
}

#[test]
fn order_v1_carries_every_field() {
    let order = full_order();
    let wire = OrderV1::from(&order);
    assert_eq!(wire.id, 0x0102);
    assert_eq!(wire.side, Side::Ask);
    assert_eq!(wire.status, Status::Canceled);
    let back = Order::from(wire.clone());
    assert_eq!(back.user_id, order.user_id);
    assert_eq!(back.executed_price, order.executed_price);
    assert_eq!(back.closed_by, order.closed_by);
}

#[test]
fn market_batch_carries_symbol_and_orders() {
    let bytes = encode_market_batch(&"BTC".to_string(), &[full_order()]).expect("encode");
    let inner = encode_orders_batch(&[full_order()]).expect("encode");
    let mut expected = vec![3, 0, 0, 0, 0, 0, 0, 0];
    expected.extend_from_slice(b"BTC");
    expected.extend_from_slice(&(inner.len() as u64).to_le_bytes());
    expected.extend_from_slice(&inner);
    assert_eq!(bytes, expected);
    let (symbol, orders) = decode_market_batch(&bytes).expect("decode");
    assert_eq!(symbol, "BTC");
    assert_eq!(orders.len(), 1);
    assert_eq!(orders[0].user_id, "us\u{e9}r");
}

#[test]
fn market_batch_with_wrong_length_is_a_codec_error() {
    let mut bytes = encode_market_batch(&"BTC".to_string(), &[]).expect("encode");
    bytes.push(0);
    match decode_market_batch(&bytes) {
        Err(Error::BinCode(_)) => {}
        other => panic!("expected BinCode, got: {other:?}"),
    }
    bytes.pop();
    bytes.pop();
    match decode_market_batch(&bytes) {
        Err(Error::BinCode(_)) => {}
        other => panic!("expected BinCode, got: {other:?}"),
    }
}

#[test]
fn market_batch_with_a_broken_frame_is_an_io_error() {
    let mut bytes = vec![1, 0, 0, 0, 0, 0, 0, 0, b'X'];
    bytes.extend_from_slice(&[3, 0, 0, 0, 0, 0, 0, 0, 1, 2, 3]);
    match decode_market_batch(&bytes) {
        Err(Error::Io(_)) => {}
        other => panic!("expected Io, got: {other:?}"),
    }
}
