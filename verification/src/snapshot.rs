//! Snapshot format for the state of the machine.
//!
//! This module provides a compact, forward-compatible format to persist and
//! restore state including orders, etc. It is intended for periodic snapshots of the machine
//! state, not for an append-only event log. Reading and writing files is left to the caller:
//! a writer hands out bytes, and a reader takes the bytes of a file.
//!
//! File format (little-endian):
//! - 8-byte ASCII magic: `MACHNSNP`
//! - u16 global snapshot version (currently 1)
//! - Metadata (bincode-encoded):
//!   - u32 metadata length M
//!   - M bytes: `bincode`-serialized Metadata
//! - Repeating sequence of batches, each encoded as:
//!   - u32 payload length N
//!   - N bytes payload, a market's symbol and orders, encoded with [`wire`]
//!
//! Versioning and compatibility:
//! - Readers validate the magic and the global version and will refuse to open a file with
//!   an unsupported version. If a future incompatible change is introduced, bump the
//!   global version.
//! - The batch payload is delegated to the `order::wire` codec, which may carry its own
//!   versioning. This module treats the batch bytes as opaque and only length-prefixes
//!   them.
//!
//! Batching semantics:
//! - Orders are written and read in batches. Each call to [`SnapshotWriter::write_order_batch`]
//!   produces a single batch in the file. [`SnapshotReader::next_order_batch`] returns exactly
//!   those batches. When no more data is available, it returns `Ok(None)` (EOF).

use crate::market::Symbol;
use crate::order::{wire, Order};
use crate::sequence::SeqNo;
use vstd::prelude::*;

pub mod laws;

verus! {

/// Errors that can occur while reading or writing snapshot files.
#[derive(Debug)]
pub enum Error {
    /// The file ended within its header, or could not be read or written.
    Io(std::io::Error),
    /// The batch payload failed to encode/decode via the `order::wire` codec.
    Codec(wire::Error),
    /// The file does not start with the expected `MACHNSNP` magic bytes.
    BadMagic,
    /// The snapshot's global version is not recognized by this reader implementation.
    UnsupportedGlobalVersion(u16),
    /// A batch length was read but the expected number of bytes could not be read
    /// (likely due to an unexpected EOF), implying a truncated or corrupt file.
    Truncated,
    /// The encoded batch would exceed `u32::MAX` bytes and cannot be written.
    TooLarge,
    /// Metadata bincode encode/decode failure.
    MetaCodec(bincode::Error),
}

/// The only global snapshot version there is.
pub const SUPPORTED_GLOBAL_VERSION: u16 = 1;

/// The magic bytes at the very start: `MACHNSNP` in ASCII.
pub open spec fn magic_bytes() -> Seq<u8> {
    seq![77u8, 65u8, 67u8, 72u8, 78u8, 83u8, 78u8, 80u8]
}

/// The magic bytes at the very start: `MACHNSNP` in ASCII.
pub fn magic() -> (res: [u8; 8])
    ensures
        res@ == magic_bytes(),
{
    let res: [u8; 8] = [77, 65, 67, 72, 78, 83, 78, 80];
    assert(res@ =~= magic_bytes());
    res
}

/// Metadata persisted in the snapshot header section, immediately after magic and version.
#[derive(Clone, Copy, Debug, PartialEq, Eq, Structural)]
pub struct Metadata {
    /// Highest applied sequence number at the time of snapshot.
    pub latest_seq: SeqNo,
    /// Highest archived sequence number at the time of snapshot (inclusive).
    pub latest_archived_seq: SeqNo,
}

impl Default for Metadata {
    fn default() -> (res: Self)
        ensures
            res == (Metadata { latest_seq: 0, latest_archived_seq: 0 }),
    {
        Metadata { latest_seq: 0, latest_archived_seq: 0 }
    }
}

impl Metadata {
    /// The two numbers, one after the other.
    pub open spec fn bytes(self) -> Seq<u8> {
        crate::encoding::le64(self.latest_seq) + crate::encoding::le64(self.latest_archived_seq)
    }
}

/// Calls `bincode::serialize` on the two numbers of the metadata, which cannot fail: eight bytes
/// each, in little endian.
#[verifier::external_body]
fn serialize_metadata(latest_seq: u64, latest_archived_seq: u64) -> (res: Result<
    Vec<u8>,
    bincode::Error,
>)
    ensures
        match res {
            Ok(bytes) => bytes@ == crate::encoding::le64(latest_seq) + crate::encoding::le64(
                latest_archived_seq,
            ),
            Err(_) => false,
        },
{
    bincode::serialize(&(latest_seq, latest_archived_seq))
}

/// Calls `bincode::deserialize`, which allows trailing bytes, for the two numbers of the metadata:
/// it succeeds exactly if there are sixteen bytes, and reads eight bytes each, in little endian.
#[verifier::external_body]
fn deserialize_metadata(bytes: &[u8]) -> (res: Result<(u64, u64), bincode::Error>)
    ensures
        match res {
            Ok(pair) => bytes@.len() >= 16 && bytes@.take(16) == crate::encoding::le64(pair.0)
                + crate::encoding::le64(pair.1),
            Err(_) => bytes@.len() < 16,
        },
{
    bincode::deserialize(bytes)
}

/// Calls `std::io::Error::from` on the kind for an unexpected end of file. Nothing is claimed of
/// it.
#[verifier::external_body]
fn unexpected_eof() -> std::io::Error {
    std::io::Error::from(std::io::ErrorKind::UnexpectedEof)
}

/// Bytes behind their length.
pub open spec fn frame(bytes: Seq<u8>) -> Seq<u8> {
    crate::encoding::le32(bytes.len() as u32) + bytes
}

/// The header: magic and version.
pub open spec fn header(global_version: u16) -> Seq<u8> {
    magic_bytes() + crate::encoding::le16(global_version)
}

/// What stands next in a file.
pub enum NextFrame {
    /// No length: the file ends here.
    End,
    /// A length, but fewer bytes than it says.
    Cut,
    /// These bytes behind their length; and what follows them.
    Whole(Seq<u8>, Seq<u8>),
}

/// The frame at the start of `bytes`.
pub open spec fn next_frame(bytes: Seq<u8>) -> NextFrame {
    let len = vstd::bytes::spec_u32_from_le_bytes(bytes.take(4));
    if bytes.len() < 4 {
        NextFrame::End
    } else if bytes.len() < 4 + len {
        NextFrame::Cut
    } else {
        NextFrame::Whole(bytes.subrange(4, 4 + len), bytes.skip(4 + len))
    }
}

/// A frame is read back as it was written, whatever follows it.
pub proof fn law_frames_are_read_back(bytes: Seq<u8>, rest: Seq<u8>)
    requires
        bytes.len() <= u32::MAX,
    ensures
        next_frame(frame(bytes) + rest) == NextFrame::Whole(bytes, rest),
{
    let len = bytes.len() as u32;
    let whole = frame(bytes) + rest;
    vstd::bytes::lemma_auto_spec_u32_to_from_le_bytes();
    assert(crate::encoding::le32(len).len() == 4);
    assert(whole.take(4) =~= crate::encoding::le32(len));
    assert(whole.subrange(4, 4 + len) =~= bytes);
    assert(whole.skip(4 + len) =~= rest);
}

/// Appends the header.
fn write_header(out: &mut Vec<u8>, global_version: u16)
    ensures
        final(out)@ == old(out)@ + header(global_version),
{
    let magic = magic();
    let mut version = vstd::bytes::u16_to_le_bytes(global_version);
    let mut magic_vec = vstd::slice::slice_to_vec(magic.as_slice());
    out.append(&mut magic_vec);
    out.append(&mut version);
    assert(out@ =~= old(out)@ + header(global_version));
}

/// Appends bytes behind their length.
fn write_len_prefixed(out: &mut Vec<u8>, bytes: &Vec<u8>) -> (res: Result<(), Error>)
    ensures
        if bytes@.len() <= u32::MAX {
            &&& res == Ok::<(), Error>(())
            &&& final(out)@ == old(out)@ + frame(bytes@)
        } else {
            &&& res == Err::<(), Error>(Error::TooLarge)
            &&& final(out)@ == old(out)@
        },
{
    if bytes.len() > u32::MAX as usize {
        return Err(Error::TooLarge);
    }
    let mut len = vstd::bytes::u32_to_le_bytes(bytes.len() as u32);
    let mut copy = vstd::slice::slice_to_vec(bytes.as_slice());
    out.append(&mut len);
    out.append(&mut copy);
    assert(out@ =~= old(out)@ + frame(bytes@));
    Ok(())
}

/// Appends the metadata, behind its length.
fn write_metadata(out: &mut Vec<u8>, md: &Metadata) -> (res: Result<(), Error>)
    ensures
        res == Ok::<(), Error>(()),
        final(out)@ == old(out)@ + frame(md.bytes()),
{
    let bytes = match serialize_metadata(md.latest_seq, md.latest_archived_seq) {
        Ok(bytes) => bytes,
        Err(e) => {
            return Err(Error::MetaCodec(e));
        },
    };
    proof {
        crate::encoding::lemma_le64_tells(md.latest_seq, md.latest_archived_seq);
        crate::encoding::lemma_le64_tells(md.latest_archived_seq, md.latest_seq);
    }
    write_len_prefixed(out, &bytes)
}

/// Builder to create a [`SnapshotWriter`] for writing a new snapshot file.
///
/// The builder only carries the target path and the metadata. Use
/// [`open`](SnapshotWriterBuilder::open) to get a writer that holds the header.
pub struct SnapshotWriterBuilder<'p> {
    path: &'p str,
    metadata: Metadata,
}

impl<'p> SnapshotWriterBuilder<'p> {
    /// The target path.
    pub closed spec fn target(self) -> Seq<char> {
        self.path@
    }

    /// The metadata that will be written.
    pub closed spec fn described_by(self) -> Metadata {
        self.metadata
    }

    /// Create a new builder targeting the provided filesystem path.
    pub fn new(path: &'p str) -> (res: Self)
        ensures
            res.target() == path@,
            res.described_by() == (Metadata { latest_seq: 0, latest_archived_seq: 0 }),
    {
        SnapshotWriterBuilder { path, metadata: Metadata::default() }
    }

    /// Set snapshot metadata that will be written after the header.
    pub fn with_metadata(self, metadata: Metadata) -> (res: Self)
        ensures
            res.target() == self.target(),
            res.described_by() == metadata,
    {
        SnapshotWriterBuilder { path: self.path, metadata }
    }

    /// The target path.
    pub fn path(&self) -> (res: &'p str)
        ensures
            res@ == self.target(),
    {
        self.path
    }

    /// A [`SnapshotWriter`] that holds the header and the metadata.
    pub fn open(self) -> (res: Result<SnapshotWriter, Error>)
        ensures
            match res {
                Ok(writer) => writer@ == header(SUPPORTED_GLOBAL_VERSION) + frame(
                    self.described_by().bytes(),
                ),
                Err(_) => false,
            },
    {
        let mut pending: Vec<u8> = Vec::new();
        write_header(&mut pending, SUPPORTED_GLOBAL_VERSION);
        assert(pending@ =~= header(SUPPORTED_GLOBAL_VERSION));
        write_metadata(&mut pending, &self.metadata)?;
        Ok(SnapshotWriter { pending })
    }
}

/// Encodes batches of orders into the bytes of a snapshot file.
///
/// A writer is created via [`SnapshotWriterBuilder`]. Each call to
/// [`write_order_batch`](SnapshotWriter::write_order_batch) appends one encoded batch. The bytes
/// are handed out by [`take_pending`](SnapshotWriter::take_pending) on the way, and by
/// [`finish`](SnapshotWriter::finish) at the end.
pub struct SnapshotWriter {
    pending: Vec<u8>,
}

impl View for SnapshotWriter {
    type V = Seq<u8>;

    /// The bytes that have not been handed out yet.
    closed spec fn view(&self) -> Seq<u8> {
        self.pending@
    }
}

/// The payload of a batch.
pub open spec fn batch_payload(symbol: Seq<char>, orders: Seq<Order>) -> Seq<u8> {
    wire::layout::market_bytes(
        symbol,
        wire::zstd_encoded(
            wire::payload_bytes(wire::order_images(orders)),
            wire::COMPRESSION_LEVEL,
        ),
    )
}

impl SnapshotWriter {
    /// Encode and append a batch of orders.
    ///
    /// Errors:
    /// - Returns [`Error::TooLarge`] if the encoded batch exceeds `u32::MAX` bytes.
    pub fn write_order_batch(&mut self, symbol: Symbol, orders: &[Order]) -> (res: Result<
        (),
        Error,
    >)
        ensures
            if batch_payload(symbol@, orders@).len() <= u32::MAX {
                &&& res == Ok::<(), Error>(())
                &&& appends(old(self)@, symbol@, orders@, final(self)@)
            } else {
                &&& res == Err::<(), Error>(Error::TooLarge)
                &&& final(self)@ == old(self)@
            },
    {
        match wire::encode_market_batch(&symbol, orders) {
            Ok(payload) => write_len_prefixed(&mut self.pending, &payload),
            Err(e) => Err(Error::Codec(e)),
        }
    }

    /// The bytes that have not been handed out yet, to be written to the file.
    pub fn take_pending(&mut self) -> (res: Vec<u8>)
        ensures
            res@ == old(self)@,
            final(self)@ == Seq::<u8>::empty(),
    {
        let mut res: Vec<u8> = Vec::new();
        res.append(&mut self.pending);
        assert(res@ =~= old(self)@);
        res
    }

    /// The last bytes to be written to the file, before it is flushed and synced.
    ///
    /// After calling this method the writer is consumed and cannot be used again.
    pub fn finish(self) -> (res: Vec<u8>)
        ensures
            res@ == self@,
    {
        self.pending
    }
}

/// A batch of orders has been appended to `before`, behind its length.
pub open spec fn appends(
    before: Seq<u8>,
    symbol: Seq<char>,
    orders: Seq<Order>,
    after: Seq<u8>,
) -> bool {
    &&& batch_payload(symbol, orders).len() <= u32::MAX
    &&& after == before + frame(batch_payload(symbol, orders))
    &&& decompresses(orders)
}

/// The payload of these orders fits in memory, and decompressing what a batch holds of it gives it
/// back.
pub open spec fn decompresses(orders: Seq<Order>) -> bool {
    let payload = wire::payload_bytes(wire::order_images(orders));
    &&& payload.len() <= u64::MAX
    &&& wire::zstd_decoded(wire::zstd_encoded(payload, wire::COMPRESSION_LEVEL)) == Some(payload)
}

/// Checks the header at the start of a file, and returns the version.
fn read_header(bytes: &[u8]) -> (res: Result<u16, Error>)
    ensures
        match res {
            Ok(version) => {
                &&& version == SUPPORTED_GLOBAL_VERSION
                &&& bytes@.len() >= 10
                &&& bytes@.take(10) == header(version)
            },
            Err(e) => header_fault(bytes@, e),
        },
{
    if bytes.len() < 8 {
        return Err(Error::Io(unexpected_eof()));
    }
    let magic = magic();
    let mut at: usize = 0;
    while at < 8
        invariant
            at <= 8,
            bytes@.len() >= 8,
            magic@ == magic_bytes(),
            forall|i: int| 0 <= i < at ==> bytes@[i] == #[trigger] magic_bytes()[i],
        decreases 8 - at,
    {
        if bytes[at] != magic[at] {
            proof {
                assert(bytes@.take(8)[at as int] == bytes@[at as int]);
            }
            return Err(Error::BadMagic);
        }
        at = at + 1;
    }
    assert(bytes@.take(8) =~= magic_bytes());
    if bytes.len() < 10 {
        return Err(Error::Io(unexpected_eof()));
    }
    let word = vstd::slice::slice_subrange(bytes, 8, 10);
    let version = vstd::bytes::u16_from_le_bytes(word);
    proof {
        vstd::bytes::lemma_auto_spec_u16_to_from_le_bytes();
        assert(crate::encoding::le16(version) == word@);
        assert(bytes@.take(10) =~= header(version));
    }
    if version != SUPPORTED_GLOBAL_VERSION {
        return Err(Error::UnsupportedGlobalVersion(version));
    }
    Ok(version)
}

/// What is wrong with the header of a file: it is too short for the magic bytes, they are others,
/// it is too short for the version, or the version is not supported.
pub open spec fn header_fault(bytes: Seq<u8>, e: Error) -> bool {
    if bytes.len() < 8 {
        e is Io
    } else if bytes.take(8) != magic_bytes() {
        e == Error::BadMagic
    } else if bytes.len() < 10 {
        e is Io
    } else {
        &&& e matches Error::UnsupportedGlobalVersion(version)
        &&& bytes.take(10) == header(version)
        &&& version != SUPPORTED_GLOBAL_VERSION
    }
}

/// A faulty header is not the expected one.
proof fn lemma_header_fault(bytes: Seq<u8>, e: Error)
    requires
        header_fault(bytes, e),
    ensures
        bytes.len() < 10 || bytes.take(10) != header(SUPPORTED_GLOBAL_VERSION),
{
    if bytes.len() >= 10 && bytes.take(10) == header(SUPPORTED_GLOBAL_VERSION) {
        assert(bytes.take(8) =~= header(SUPPORTED_GLOBAL_VERSION).take(8));
        assert(header(SUPPORTED_GLOBAL_VERSION).take(8) =~= magic_bytes());
        let version = e->UnsupportedGlobalVersion_0;
        assert(header(version).skip(8) =~= crate::encoding::le16(version));
        assert(header(SUPPORTED_GLOBAL_VERSION).skip(8) =~= crate::encoding::le16(
            SUPPORTED_GLOBAL_VERSION,
        ));
        crate::encoding::lemma_le16_tells(version, SUPPORTED_GLOBAL_VERSION);
    }
}

/// Reads bytes behind their length, from `at` on. Returns them with the place after them; `None`
/// if the file ends before a length.
fn read_len_prefixed(bytes: &Vec<u8>, at: usize) -> (res: Result<Option<(Vec<u8>, usize)>, Error>)
    requires
        at <= bytes@.len(),
    ensures
        match next_frame(bytes@.skip(at as int)) {
            NextFrame::End => res == Ok::<Option<(Vec<u8>, usize)>, Error>(None),
            NextFrame::Cut => res == Err::<Option<(Vec<u8>, usize)>, Error>(Error::Truncated),
            NextFrame::Whole(payload, rest) => {
                &&& res matches Ok(Some(found))
                &&& found.0@ == payload
                &&& found.1 <= bytes@.len()
                &&& bytes@.skip(found.1 as int) == rest
            },
        },
{
    let ghost rest = bytes@.skip(at as int);
    let left: usize = bytes.len() - at;
    if left < 4 {
        return Ok(None);
    }
    let word = vstd::slice::slice_subrange(bytes.as_slice(), at, at + 4);
    assert(word@ =~= rest.take(4));
    let len: u32 = vstd::bytes::u32_from_le_bytes(word);
    if left - 4 < len as usize {
        return Err(Error::Truncated);
    }
    let start: usize = at + 4;
    let end: usize = start + len as usize;
    let payload = vstd::slice::slice_subrange(bytes.as_slice(), start, end);
    assert(payload@ =~= rest.subrange(4, 4 + len));
    assert(bytes@.skip(end as int) =~= rest.skip(4 + len));
    Ok(Some((vstd::slice::slice_to_vec(payload), end)))
}

/// Reads snapshot files and yields batches of orders.
///
/// Create a reader with [`SnapshotReader::open`], then call
/// [`next_order_batch`](SnapshotReader::next_order_batch) in a loop until it returns `Ok(None)`.
/// You can inspect the snapshot global version via
/// [`global_version`](SnapshotReader::global_version).
pub struct SnapshotReader {
    bytes: Vec<u8>,
    at: usize,
    global_version: u16,
    metadata: Metadata,
}

impl View for SnapshotReader {
    type V = Seq<u8>;

    /// The bytes that have not been read yet.
    closed spec fn view(&self) -> Seq<u8> {
        self.bytes@.skip(self.at as int)
    }
}

/// A file begins with the expected header and this metadata, and `rest` follows them.
pub open spec fn opens(bytes: Seq<u8>, metadata: Metadata, rest: Seq<u8>) -> bool {
    &&& bytes.len() >= 10
    &&& bytes.take(10) == header(SUPPORTED_GLOBAL_VERSION)
    &&& match next_frame(bytes.skip(10)) {
        NextFrame::Whole(payload, after) => {
            &&& payload.len() >= 16
            &&& payload.take(16) == metadata.bytes()
            &&& after == rest
        },
        _ => false,
    }
}

/// `res` is what reading the next batch of `before` gives, and `after` is left: the end, a batch
/// that is cut off, or a batch with what its payload decodes to.
pub open spec fn hands_out(
    before: Seq<u8>,
    res: Result<Option<(Symbol, Vec<Order>)>, Error>,
    after: Seq<u8>,
) -> bool {
    match next_frame(before) {
        NextFrame::End => {
            &&& res == Ok::<Option<(Symbol, Vec<Order>)>, Error>(None)
            &&& after == Seq::<u8>::empty()
        },
        NextFrame::Cut => {
            &&& res == Err::<Option<(Symbol, Vec<Order>)>, Error>(Error::Truncated)
            &&& after == Seq::<u8>::empty()
        },
        NextFrame::Whole(payload, rest) => {
            &&& after == rest
            &&& match res {
                Ok(Some(batch)) => wire::decodes_market(payload, Ok(batch)),
                Ok(None) => false,
                Err(Error::Codec(e)) => wire::decodes_market(payload, Err(e)),
                Err(_) => false,
            }
        },
    }
}

/// What is wrong with the metadata after a header: its frame is missing or cut off, or it is too
/// short.
pub open spec fn metadata_fault(bytes: Seq<u8>, e: Error) -> bool {
    match next_frame(bytes) {
        NextFrame::Whole(payload, _) => payload.len() < 16 && e is MetaCodec,
        _ => e == Error::Truncated,
    }
}

impl SnapshotReader {
    /// The place of the reader lies within the file.
    pub closed spec fn wf(&self) -> bool {
        self.at <= self.bytes@.len()
    }

    /// The metadata of the file.
    pub closed spec fn described_by(&self) -> Metadata {
        self.metadata
    }

    /// The global version of the file.
    pub closed spec fn version(&self) -> u16 {
        self.global_version
    }

    /// Take the bytes of an existing snapshot file and validate its header.
    ///
    /// Errors:
    /// - [`Error::BadMagic`] if the file does not start with the expected magic bytes.
    /// - [`Error::UnsupportedGlobalVersion`] if the version is not supported.
    /// - [`Error::Io`] if the file ends within the header.
    /// - [`Error::Truncated`] if the file ends within the metadata.
    /// - [`Error::MetaCodec`] if the metadata is too short.
    pub fn open(bytes: Vec<u8>) -> (res: Result<Self, Error>)
        ensures
            match res {
                Ok(reader) => {
                    &&& reader.wf()
                    &&& reader.version() == SUPPORTED_GLOBAL_VERSION
                    &&& opens(bytes@, reader.described_by(), reader@)
                },
                Err(e) => if bytes@.len() >= 10 && bytes@.take(10) == header(
                    SUPPORTED_GLOBAL_VERSION,
                ) {
                    metadata_fault(bytes@.skip(10), e)
                } else {
                    header_fault(bytes@, e)
                },
            },
    {
        let global_version = match read_header(bytes.as_slice()) {
            Ok(version) => version,
            Err(e) => {
                proof {
                    lemma_header_fault(bytes@, e);
                }
                return Err(e);
            },
        };
        match read_len_prefixed(&bytes, 10)? {
            Some((payload, at)) => match deserialize_metadata(payload.as_slice()) {
                Ok((latest_seq, latest_archived_seq)) => Ok(
                    SnapshotReader {
                        bytes,
                        at,
                        global_version,
                        metadata: Metadata { latest_seq, latest_archived_seq },
                    },
                ),
                Err(e) => Err(Error::MetaCodec(e)),
            },
            None => Err(Error::Truncated),
        }
    }

    /// Return the validated global snapshot version read from the file header.
    pub fn global_version(&self) -> (res: u16)
        ensures
            res == self.version(),
    {
        self.global_version
    }

    /// Return snapshot metadata read from the file.
    pub fn metadata(&self) -> (res: Metadata)
        ensures
            res == self.described_by(),
    {
        self.metadata
    }

    /// Read and decode the next batch of orders.
    ///
    /// Returns `Ok(None)` on EOF (no more batches). Returns an error if the
    /// batch cannot be read or decoded.
    pub fn next_order_batch(&mut self) -> (res: Result<Option<(Symbol, Vec<Order>)>, Error>)
        requires
            old(self).wf(),
        ensures
            final(self).wf(),
            final(self).version() == old(self).version(),
            final(self).described_by() == old(self).described_by(),
            hands_out(old(self)@, res, final(self)@),
    {
        let found = read_len_prefixed(&self.bytes, self.at);
        match found {
            Ok(Some((payload, at))) => {
                self.at = at;
                match wire::decode_market_batch(payload.as_slice()) {
                    Ok(batch) => Ok(Some(batch)),
                    Err(e) => Err(Error::Codec(e)),
                }
            },
            Ok(None) => {
                self.at = self.bytes.len();
                assert(self@ =~= Seq::<u8>::empty());
                Ok(None)
            },
            Err(e) => {
                self.at = self.bytes.len();
                assert(self@ =~= Seq::<u8>::empty());
                Err(e)
            },
        }
    }
}

/// A file that begins with the header and some metadata is opened, and its reader has that
/// metadata and stands at what follows; no such file is refused.
pub proof fn law_written_header_is_read_back(metadata: Metadata, rest: Seq<u8>)
    ensures
        ({
            let bytes = header(SUPPORTED_GLOBAL_VERSION) + frame(metadata.bytes()) + rest;
            &&& opens(bytes, metadata, rest)
            &&& forall|found: Metadata, left: Seq<u8>| #[trigger]
                opens(bytes, found, left) ==> found == metadata && left == rest
            &&& forall|e: Error| !#[trigger] metadata_fault(bytes.skip(10), e)
        }),
{
    let bytes = header(SUPPORTED_GLOBAL_VERSION) + frame(metadata.bytes()) + rest;
    crate::encoding::lemma_le16_tells(SUPPORTED_GLOBAL_VERSION, SUPPORTED_GLOBAL_VERSION);
    crate::encoding::lemma_le64_tells(metadata.latest_seq, metadata.latest_archived_seq);
    crate::encoding::lemma_le64_tells(metadata.latest_archived_seq, metadata.latest_seq);
    assert(bytes.take(10) =~= header(SUPPORTED_GLOBAL_VERSION));
    assert(bytes.skip(10) =~= frame(metadata.bytes()) + rest);
    law_frames_are_read_back(metadata.bytes(), rest);
    assert(metadata.bytes().take(16) =~= metadata.bytes());
    assert forall|found: Metadata, left: Seq<u8>| #[trigger]
        opens(bytes, found, left) implies found == metadata && left == rest by {
        lemma_metadata_tells(metadata, found);
    }
}

/// The bytes of metadata tell the metadata.
pub proof fn lemma_metadata_tells(a: Metadata, b: Metadata)
    requires
        a.bytes() == b.bytes(),
    ensures
        a == b,
{
    crate::encoding::lemma_le64_tells(a.latest_seq, b.latest_seq);
    crate::encoding::lemma_le64_tells(b.latest_seq, a.latest_seq);
    crate::encoding::lemma_le64_tells(a.latest_archived_seq, b.latest_archived_seq);
    assert(a.bytes().take(8) =~= crate::encoding::le64(a.latest_seq));
    assert(b.bytes().take(8) =~= crate::encoding::le64(b.latest_seq));
    assert(a.bytes().skip(8) =~= crate::encoding::le64(a.latest_archived_seq));
    assert(b.bytes().skip(8) =~= crate::encoding::le64(b.latest_archived_seq));
}

/// `res` is the batch of this symbol and these orders.
pub open spec fn is_batch(
    res: Result<Option<(Symbol, Vec<Order>)>, Error>,
    symbol: Seq<char>,
    orders: Seq<Order>,
) -> bool {
    match res {
        Ok(Some(batch)) => batch.0@ == symbol && wire::order_images(batch.1@)
            == wire::order_images(orders),
        _ => false,
    }
}

/// A batch that was written is read back, whatever follows it: the next call hands out the same
/// symbol and the same orders, and leaves what follows.
pub proof fn law_written_batch_is_read_back(
    symbol: Seq<char>,
    orders: Seq<Order>,
    rest: Seq<u8>,
    res: Result<Option<(Symbol, Vec<Order>)>, Error>,
    after: Seq<u8>,
)
    requires
        batch_payload(symbol, orders).len() <= u32::MAX,
        decompresses(orders),
        hands_out(frame(batch_payload(symbol, orders)) + rest, res, after),
    ensures
        is_batch(res, symbol, orders),
        after == rest,
{
    let bytes = batch_payload(symbol, orders);
    law_frames_are_read_back(bytes, rest);
    let encoded = wire::zstd_encoded(
        wire::payload_bytes(wire::order_images(orders)),
        wire::COMPRESSION_LEVEL,
    );
    assert(bytes == wire::layout::market_bytes(symbol, encoded));
    assert forall|s: Seq<char>, e: Seq<u8>| bytes == #[trigger] wire::layout::market_bytes(
        s,
        e,
    ) implies s == symbol && e == encoded by {
        wire::layout::law_market_batches_are_unambiguous(s, e, symbol, encoded);
    }
    match res {
        Ok(Some(batch)) => {
            wire::law_decoding_gives_back_orders(orders, Ok(batch.1));
        },
        Err(Error::Codec(e)) => {
            wire::law_decoding_gives_back_orders(orders, Err(e));
        },
        _ => {},
    }
}

/// The bytes that these batches stand in, one after the other.
pub open spec fn batches_bytes(batches: Seq<(Seq<char>, Seq<Order>)>) -> Seq<u8>
    decreases batches.len(),
{
    if batches.len() == 0 {
        Seq::empty()
    } else {
        frame(batch_payload(batches[0].0, batches[0].1)) + batches_bytes(batches.drop_first())
    }
}

/// One batch more stands at the end.
proof fn lemma_batches_push(batches: Seq<(Seq<char>, Seq<Order>)>)
    requires
        batches.len() > 0,
    ensures
        batches_bytes(batches) == batches_bytes(batches.drop_last()) + frame(
            batch_payload(batches.last().0, batches.last().1),
        ),
    decreases batches.len(),
{
    let front = batches.drop_last();
    let end = frame(batch_payload(batches.last().0, batches.last().1));
    if batches.len() == 1 {
        assert(batches.drop_first() =~= Seq::empty());
        assert(front =~= Seq::empty());
        assert(batches_bytes(batches) =~= batches_bytes(front) + end);
    } else {
        lemma_batches_push(batches.drop_first());
        assert(batches.drop_first().drop_last() =~= front.drop_first());
        assert(batches_bytes(batches) =~= batches_bytes(front) + end);
    }
}

/// Writing batches one after the other appends their bytes.
proof fn lemma_batches_written(
    batches: Seq<(Seq<char>, Seq<Order>)>,
    written: Seq<Seq<u8>>,
    n: int,
)
    requires
        0 <= n <= batches.len(),
        written.len() == batches.len() + 1,
        forall|i: int|
            #![trigger batches[i]]
            0 <= i < batches.len() ==> appends(
                written[i],
                batches[i].0,
                batches[i].1,
                written[i + 1],
            ),
    ensures
        written[n] == written[0] + batches_bytes(batches.take(n)),
    decreases n,
{
    if n == 0 {
        assert(batches.take(0) =~= Seq::empty());
        assert(written[0] + Seq::<u8>::empty() =~= written[0]);
    } else {
        lemma_batches_written(batches, written, n - 1);
        let some = batches.take(n);
        assert(some.drop_last() =~= batches.take(n - 1));
        assert(some.last() == batches[n - 1]);
        lemma_batches_push(some);
        assert(written[n] =~= written[0] + batches_bytes(some));
    }
}

/// Reading from the bytes of batches hands these batches out, one by one, and then nothing more.
proof fn lemma_batches_read(
    batches: Seq<(Seq<char>, Seq<Order>)>,
    left: Seq<Seq<u8>>,
    results: Seq<Result<Option<(Symbol, Vec<Order>)>, Error>>,
)
    requires
        forall|i: int|
            0 <= i < batches.len() ==> {
                &&& batch_payload((#[trigger] batches[i]).0, batches[i].1).len() <= u32::MAX
                &&& decompresses(batches[i].1)
            },
        left.len() == results.len() + 1,
        left[0] == batches_bytes(batches),
        forall|i: int|
            #![trigger results[i]]
            0 <= i < results.len() ==> hands_out(left[i], results[i], left[i + 1]),
    ensures
        forall|i: int|
            #![trigger results[i]]
            0 <= i < results.len() ==> if i < batches.len() {
                is_batch(results[i], batches[i].0, batches[i].1)
            } else {
                results[i] == Ok::<Option<(Symbol, Vec<Order>)>, Error>(None)
            },
    decreases results.len(),
{
    if results.len() > 0 {
        let more = results.drop_first();
        let then = left.drop_first();
        assert(hands_out(left[0], results[0], left[1]));
        assert forall|i: int| #![trigger more[i]] 0 <= i < more.len() implies hands_out(
            then[i],
            more[i],
            then[i + 1],
        ) by {
            assert(more[i] == results[i + 1]);
        }
        let others = if batches.len() == 0 {
            batches
        } else {
            batches.drop_first()
        };
        if batches.len() > 0 {
            let first = batches[0];
            law_written_batch_is_read_back(
                first.0,
                first.1,
                batches_bytes(others),
                results[0],
                left[1],
            );
            assert forall|i: int| 0 <= i < others.len() implies {
                &&& batch_payload((#[trigger] others[i]).0, others[i].1).len() <= u32::MAX
                &&& decompresses(others[i].1)
            } by {
                assert(others[i] == batches[i + 1]);
            }
        }
        lemma_batches_read(others, then, more);
        assert forall|i: int| #![trigger results[i]] 0 <= i < results.len() implies if i
            < batches.len() {
            is_batch(results[i], batches[i].0, batches[i].1)
        } else {
            results[i] == Ok::<Option<(Symbol, Vec<Order>)>, Error>(None)
        } by {
            if i > 0 {
                assert(results[i] == more[i - 1]);
            }
        }
    }
}

/// Bytes that a writer has handed out before do not change what a batch appends to the whole.
pub proof fn law_handed_out_bytes_come_first(
    handed_out: Seq<u8>,
    before: Seq<u8>,
    symbol: Seq<char>,
    orders: Seq<Order>,
    after: Seq<u8>,
)
    requires
        appends(before, symbol, orders, after),
    ensures
        appends(handed_out + before, symbol, orders, handed_out + after),
{
    assert(handed_out + after =~= handed_out + before + frame(batch_payload(symbol, orders)));
}

/// A file is read back as it was written. `written` is what the writer has handed out and holds
/// after it was opened and after each batch; `found` and `left` are the metadata and the bytes left of a reader of the
/// whole, at first and after each call. The reader has the metadata of the writer; it hands out
/// exactly the batches that were written, neither merged nor split, in the same order; and every
/// call after them says that there are no more.
pub proof fn law_file_is_read_back(
    metadata: Metadata,
    batches: Seq<(Seq<char>, Seq<Order>)>,
    written: Seq<Seq<u8>>,
    found: Metadata,
    left: Seq<Seq<u8>>,
    results: Seq<Result<Option<(Symbol, Vec<Order>)>, Error>>,
)
    requires
        written.len() == batches.len() + 1,
        written[0] == header(SUPPORTED_GLOBAL_VERSION) + frame(metadata.bytes()),
        forall|i: int|
            #![trigger batches[i]]
            0 <= i < batches.len() ==> appends(
                written[i],
                batches[i].0,
                batches[i].1,
                written[i + 1],
            ),
        left.len() == results.len() + 1,
        opens(written.last(), found, left[0]),
        forall|i: int|
            #![trigger results[i]]
            0 <= i < results.len() ==> hands_out(left[i], results[i], left[i + 1]),
    ensures
        found == metadata,
        forall|i: int|
            #![trigger results[i]]
            0 <= i < results.len() ==> if i < batches.len() {
                is_batch(results[i], batches[i].0, batches[i].1)
            } else {
                results[i] == Ok::<Option<(Symbol, Vec<Order>)>, Error>(None)
            },
{
    lemma_batches_written(batches, written, batches.len() as int);
    assert(batches.take(batches.len() as int) =~= batches);
    law_written_header_is_read_back(metadata, batches_bytes(batches));
    lemma_batches_read(batches, left, results);
}

} // verus!
