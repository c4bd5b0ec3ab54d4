use chortke::order::{self, Order};
use chortke::order::wire;
use chortke::snapshot::{
    Error as SnapErr, Metadata, SUPPORTED_GLOBAL_VERSION, SnapshotReader, SnapshotWriterBuilder,
    magic,
};
use chortke::user;

fn mk_order(id: u64) -> Order {
    let user_id: user::Id = "user-1".to_string();
    let client_id = format!("c{}", id);
    let side = order::Side::Bid;
    let price: order::Price = 1000 + id;
    let volume: order::Volume = 10 + id;
    Order::new(id, user_id, client_id, side, price, volume)
}

fn header() -> Vec<u8> {
    let mut f = magic().to_vec();
    f.extend_from_slice(&SUPPORTED_GLOBAL_VERSION.to_le_bytes());
    f
}

fn frame(bytes: &[u8]) -> Vec<u8> {
    let len: u32 = bytes.len().try_into().expect("too large");
    let mut f = len.to_le_bytes().to_vec();
    f.extend_from_slice(bytes);
    f
}

#[test]
fn write_read_roundtrip_multiple_batches() {
    // Write two batches
    let meta = Metadata {
        latest_seq: 123,
        latest_archived_seq: 120,
    };
    let mut w = SnapshotWriterBuilder::new("snapshot_test.bin")
        .with_metadata(meta)
        .open()
        .expect("failed to open writer");
    let o1 = mk_order(1);
    let o2 = mk_order(2);
    w.write_order_batch("BTCUSDT".into(), &[o1.clone()])
        .expect("write_batch 1 failed");
    let mut file = w.take_pending();
    w.write_order_batch("BTCUSDT".into(), &[o2.clone()])
        .expect("write_batch 2 failed");
    file.extend(w.finish());

    // Read back batches
    let mut r = SnapshotReader::open(file).expect("open reader failed");
    assert_eq!(
        r.global_version(),
        SUPPORTED_GLOBAL_VERSION,
        "unexpected global version in snapshot"
    );
    assert_eq!(r.metadata(), meta, "metadata mismatch");

    let (s1, b1) = r
        .next_order_batch()
        .expect("reading batch 1 errored")
        .expect("batch 1 missing");
    assert_eq!(b1.len(), 1, "batch 1 length mismatch: got {}", b1.len());
    assert_eq!(
        b1[0].id, 1,
        "batch 1 first order id mismatch: got {}",
        b1[0].id
    );
    assert_eq!(b1[0].client_id, o1.client_id, "batch 1 client_id mismatch");
    assert_eq!(s1, "BTCUSDT", "batch 1 symbol mismatch");

    let (s2, b2) = r
        .next_order_batch()
        .expect("reading batch 2 errored")
        .expect("batch 2 missing");
    assert_eq!(b2.len(), 1, "batch 2 length mismatch: got {}", b2.len());
    assert_eq!(
        b2[0].id, 2,
        "batch 2 first order id mismatch: got {}",
        b2[0].id
    );
    assert_eq!(
        b2[0].price, o2.price,
        "batch 2 price mismatch: got {}",
        b2[0].price
    );
    assert_eq!(s2, "BTCUSDT", "batch 2 symbol mismatch");

    let end = r.next_order_batch().expect("reading end errored");
    assert!(end.is_none(), "expected EOF None, got: {:?}", end);
}

#[test]
fn open_fails_on_bad_magic() {
    // Craft a file with wrong magic
    let mut f = b"BADSIG!!".to_vec();
    f.extend_from_slice(&1u16.to_le_bytes());

    let err = match SnapshotReader::open(f) {
        Ok(_) => panic!("expected BadMagic error, but open succeeded"),
        Err(e) => e,
    };
    match err {
        SnapErr::BadMagic => {}
        other => panic!("expected BadMagic, got: {other:?}"),
    }
}

#[test]
fn open_fails_on_unsupported_version() {
    let mut f = magic().to_vec();
    let bad_ver: u16 = SUPPORTED_GLOBAL_VERSION + 1;
    f.extend_from_slice(&bad_ver.to_le_bytes());

    let err = match SnapshotReader::open(f) {
        Ok(_) => panic!("expected UnsupportedGlobalVersion error, but open succeeded"),
        Err(e) => e,
    };
    match err {
        SnapErr::UnsupportedGlobalVersion(v) => assert_eq!(
            v, bad_ver,
            "unsupported version mismatch: got {} expected {}",
            v, bad_ver
        ),
        other => panic!("expected UnsupportedGlobalVersion, got: {other:?}"),
    }
}

#[test]
fn next_batch_fails_on_truncated_payload() {
    // proper header and valid bincode-encoded metadata (default values)
    let mut f = header();
    let md = Metadata::default();
    let md_bytes =
        bincode::serialize(&(md.latest_seq, md.latest_archived_seq)).expect("serialize metadata");
    f.extend(frame(&md_bytes));
    // one batch of length 10 but do not write the payload
    let len: u32 = 10;
    f.extend_from_slice(&len.to_le_bytes());

    let mut r = SnapshotReader::open(f).expect("open reader failed");
    let err = r
        .next_order_batch()
        .expect_err("expected Truncated error when reading batch");
    match err {
        SnapErr::Truncated => {}
        other => panic!("expected Truncated, got: {other:?}"),
    }
}

#[test]
fn magic_is_the_ascii_text() {
    assert_eq!(&magic(), b"MACHNSNP");
}

#[test]
fn new_writer_holds_header_and_metadata() {
    let b = SnapshotWriterBuilder::new("a/b.bin");
    assert_eq!(b.path(), "a/b.bin");
    let w = b
        .with_metadata(Metadata {
            latest_seq: 258,
            latest_archived_seq: 3,
        })
        .open()
        .expect("open");
    let mut expected = b"MACHNSNP".to_vec();
    expected.extend_from_slice(&[1, 0, 16, 0, 0, 0]);
    expected.extend_from_slice(&[2, 1, 0, 0, 0, 0, 0, 0]);
    expected.extend_from_slice(&[3, 0, 0, 0, 0, 0, 0, 0]);
    assert_eq!(w.finish(), expected);
}

#[test]
fn builder_starts_with_default_metadata() {
    let w = SnapshotWriterBuilder::new("x").open().expect("open");
    let r = SnapshotReader::open(w.finish()).expect("open reader");
    assert_eq!(
        r.metadata(),
        Metadata {
            latest_seq: 0,
            latest_archived_seq: 0
        }
    );
    assert_eq!(r.metadata(), Metadata::default());
}

#[test]
fn take_pending_hands_each_byte_out_once() {
    let mut w = SnapshotWriterBuilder::new("x").open().expect("open");
    assert_eq!(w.take_pending().len(), 30);
    assert!(w.take_pending().is_empty());
    assert!(w.finish().is_empty());
}

#[test]
fn file_cut_in_the_header_is_an_io_error() {
    for n in [0usize, 7, 8, 9] {
        match SnapshotReader::open(header()[..n].to_vec()) {
            Err(SnapErr::Io(e)) => assert_eq!(e.kind(), std::io::ErrorKind::UnexpectedEof),
            Err(e) => panic!("expected Io for {n} bytes, got: {e:?}"),
            Ok(_) => panic!("expected Io for {n} bytes, but open succeeded"),
        }
    }
}

#[test]
fn wrong_magic_comes_before_a_cut_version() {
    match SnapshotReader::open(b"NOTMAGIC".to_vec()) {
        Err(SnapErr::BadMagic) => {}
        Err(e) => panic!("expected BadMagic, got: {e:?}"),
        Ok(_) => panic!("expected BadMagic, but open succeeded"),
    }
}

#[test]
fn missing_or_cut_metadata_is_truncated() {
    let mut cut = header();
    cut.extend_from_slice(&[16, 0, 0, 0, 1, 2, 3]);
    for f in [header(), cut] {
        match SnapshotReader::open(f) {
            Err(SnapErr::Truncated) => {}
            Err(e) => panic!("expected Truncated, got: {e:?}"),
            Ok(_) => panic!("expected Truncated, but open succeeded"),
        }
    }
}

#[test]
fn short_metadata_is_a_codec_error() {
    let mut f = header();
    f.extend(frame(&[0; 15]));
    match SnapshotReader::open(f) {
        Err(SnapErr::MetaCodec(_)) => {}
        Err(e) => panic!("expected MetaCodec, got: {e:?}"),
        Ok(_) => panic!("expected MetaCodec, but open succeeded"),
    }
}

#[test]
fn longer_metadata_is_accepted() {
    let mut f = header();
    f.extend(frame(&[
        5, 0, 0, 0, 0, 0, 0, 0, 4, 0, 0, 0, 0, 0, 0, 0, 99, 99,
    ]));
    let r = SnapshotReader::open(f).expect("open");
    assert_eq!(r.metadata().latest_seq, 5);
    assert_eq!(r.metadata().latest_archived_seq, 4);
}

#[test]
fn stray_bytes_after_the_last_batch_are_the_end() {
    let mut f = SnapshotWriterBuilder::new("x").open().expect("open").finish();
    f.extend_from_slice(&[1, 2, 3]);
    let mut r = SnapshotReader::open(f).expect("open reader");
    assert!(r.next_order_batch().expect("end").is_none());
    assert!(r.next_order_batch().expect("end again").is_none());
}

#[test]
fn unreadable_payload_is_a_codec_error_and_the_next_batch_follows() {
    let mut w = SnapshotWriterBuilder::new("x").open().expect("open");
    let mut f = w.take_pending();
    f.extend(frame(&[1, 2, 3]));
    w.write_order_batch("ETHUSDT".into(), &[mk_order(9)])
        .expect("write");
    f.extend(w.finish());
    let mut r = SnapshotReader::open(f).expect("open reader");
    match r.next_order_batch() {
        Err(SnapErr::Codec(wire::Error::BinCode(_))) => {}
        other => panic!("expected a codec error, got: {other:?}"),
    }
    let (symbol, orders) = r.next_order_batch().expect("read").expect("batch");
    assert_eq!(symbol, "ETHUSDT");
    assert_eq!(orders.len(), 1);
    assert_eq!(orders[0].id, 9);
}

#[test]
fn symbols_may_hold_any_text_and_batches_may_be_empty() {
    let mut w = SnapshotWriterBuilder::new("x").open().expect("open");
    w.write_order_batch("\u{20bf}/\u{20ac}".into(), &[])
        .expect("write");
    w.write_order_batch("".into(), &[mk_order(1), mk_order(2)])
        .expect("write");
    let mut r = SnapshotReader::open(w.finish()).expect("open reader");
    let (symbol, orders) = r.next_order_batch().expect("read").expect("batch");
    assert_eq!(symbol, "\u{20bf}/\u{20ac}");
    assert!(orders.is_empty());
    let (symbol, orders) = r.next_order_batch().expect("read").expect("batch");
    assert_eq!(symbol, "");
    assert_eq!(orders.len(), 2);
    assert!(r.next_order_batch().expect("end").is_none());
}

#[test]
fn a_file_of_many_batches_is_read_back_exactly() {
    let meta = Metadata {
        latest_seq: u64::MAX,
        latest_archived_seq: 7,
    };
    let mut w = SnapshotWriterBuilder::new("many.bin")
        .with_metadata(meta)
        .open()
        .expect("open");
    let mut file = Vec::new();
    for n in 0..6u64 {
        let orders: Vec<Order> = (0..n * 10).map(|i| mk_order(n * 1000 + i)).collect();
        w.write_order_batch(format!("SYM{n}"), &orders).expect("write");
        if n % 2 == 0 {
            file.extend(w.take_pending());
        }
    }
    file.extend(w.finish());

    let mut r = SnapshotReader::open(file).expect("open");
    assert_eq!(r.metadata(), meta);
    for n in 0..6u64 {
        let (symbol, orders) = r.next_order_batch().expect("read").expect("batch");
        assert_eq!(symbol, format!("SYM{n}"));
        assert_eq!(orders.len() as u64, n * 10);
        for (i, order) in orders.iter().enumerate() {
            let expected = mk_order(n * 1000 + i as u64);
            assert_eq!(order.id, expected.id);
            assert_eq!(order.client_id, expected.client_id);
            assert_eq!(order.price, expected.price);
            assert_eq!(order.volume, expected.volume);
        }
    }
    for _ in 0..3 {
        assert!(r.next_order_batch().expect("end").is_none());
    }
}
