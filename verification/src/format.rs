//! The on-disk snapshot encodings.
//!
//! A [`FileFormat`] turns one snapshot into bytes and back.  Both
//! implementations write a small self-describing header (so that a stream of
//! one format is rejected by the other as a decode error), binary-encode
//! through [`crate::wire`], and compress the result as one gzip stream
//! through `flate2`.

use vstd::prelude::*;
use crate::error::ErrorReason;
use crate::consolidate::{consolidates, payload_seq, ConsolidatedState};
use crate::state::{BrokerState, BrokerStateView};
use crate::wire::Wire;

verus! {

/// Name for what flate2's `read::GzDecoder` recovers from a byte stream:
/// the decompressed bytes of a valid gzip stream, or nothing.  The result is
/// a function of the input bytes alone.
pub uninterp spec fn gunzip_of(b: Seq<u8>) -> Option<Seq<u8>>;

/// Relies on flate2's `write::GzEncoder` over a `Vec<u8>` sink: compressing
/// into memory cannot fail (every error of the encoder comes from its sink,
/// and writes into a `Vec` are infallible), and the output is one gzip
/// stream that `read::GzDecoder` decompresses back to exactly the bytes
/// that were compressed.
#[verifier::external_body]
fn gzip_compress(data: &[u8]) -> (r: Vec<u8>)
    ensures
        gunzip_of(r@) == Some(data@),
{
    let mut enc = flate2::write::GzEncoder::new(Vec::new(), flate2::Compression::default());
    let _ = std::io::Write::write_all(&mut enc, data);
    enc.finish().unwrap_or(Vec::new())
}

/// Relies on flate2's `read::GzDecoder`: reading it to the end yields the
/// decompressed bytes of the gzip stream the input begins with (bytes after
/// that stream are ignored), and fails on input that does not begin with
/// one; either way the outcome depends on the input bytes alone.
#[verifier::external_body]
fn gzip_decompress(data: &[u8]) -> (r: Option<Vec<u8>>)
    ensures
        r matches Some(p) ==> gunzip_of(data@) == Some(p@),
        r is None ==> gunzip_of(data@) is None,
{
    let mut dec = flate2::read::GzDecoder::new(data);
    let mut out = Vec::new();
    std::io::Read::read_to_end(&mut dec, &mut out).ok()?;
    Some(out)
}

/// Format tag of the direct encoding.
pub const TAG_DIRECT: u8 = 1;

/// Format tag of the consolidated (payload-deduplicating) encoding.
pub const TAG_CONSOLIDATED: u8 = 2;

/// The six header bytes that open every uncompressed stream: a magic number,
/// a layout version and the format tag.
pub open spec fn spec_header(tag: u8) -> Seq<u8> {
    seq![0x4du8, 0x51u8, 0x53u8, 0x54u8, 1u8, tag]
}

/// Appends the header for `tag` to `out`.
fn write_header(out: &mut Vec<u8>, tag: u8)
    ensures
        final(out)@ == old(out)@ + spec_header(tag),
{
    out.push(0x4d);
    out.push(0x51);
    out.push(0x53);
    out.push(0x54);
    out.push(1);
    out.push(tag);
    proof {
        assert(out@ =~= old(out)@ + spec_header(tag));
    }
}

/// Whether `b` begins with the header for `tag`.
fn check_header(b: &[u8], tag: u8) -> (r: bool)
    ensures
        r == (b@.len() >= 6 && b@.subrange(0, 6) == spec_header(tag)),
{
    if b.len() < 6 {
        return false;
    }
    let ok = b[0] == 0x4d && b[1] == 0x51 && b[2] == 0x53 && b[3] == 0x54 && b[4] == 1 && b[5]
        == tag;
    proof {
        if ok {
            assert(b@.subrange(0, 6) =~= spec_header(tag));
        } else {
            assert(b@.subrange(0, 6) != spec_header(tag)) by {
                if b@.subrange(0, 6) == spec_header(tag) {
                    assert(b@.subrange(0, 6)[0] == b@[0]);
                    assert(b@.subrange(0, 6)[1] == b@[1]);
                    assert(b@.subrange(0, 6)[2] == b@[2]);
                    assert(b@.subrange(0, 6)[3] == b@[3]);
                    assert(b@.subrange(0, 6)[4] == b@[4]);
                    assert(b@.subrange(0, 6)[5] == b@[5]);
                }
            }
        }
    }
    ok
}

/// An interchangeable snapshot encoding.
///
/// `spec_decode` is the one specification both directions are held to: what
/// `store` appends decodes to the stored snapshot, and `load` returns
/// exactly what its input decodes to.  Together the two contracts give the
/// round-trip identity `load(store(s)) == s` for every snapshot `s`.
/// `spec_can_store` says which snapshots the format can encode — a store
/// succeeds exactly on those — and `spec_stores` pins the shape of the
/// artifact a successful store writes.
pub trait FileFormat: Sized {
    /// What a byte stream decodes to under this format, if anything.
    spec fn spec_decode(&self, bytes: Seq<u8>) -> Option<BrokerStateView>;

    /// Which snapshots this format can encode at all.
    spec fn spec_can_store(&self, s: BrokerStateView) -> bool;

    /// Whether `bytes` is the artifact this format writes for snapshot `s`
    /// — for the deduplicating format, that the bytes carry an exactly
    /// deduplicated consolidated form of `s`, not merely something that
    /// decodes back to it.
    spec fn spec_stores(&self, bytes: Seq<u8>, s: BrokerStateView) -> bool;

    /// Whether `bytes` parse as this format's artifact but reference a
    /// payload the artifact's table does not hold — the one decode failure
    /// that is an integrity fault rather than a malformed stream.
    spec fn spec_load_missing(&self, bytes: Seq<u8>) -> bool;

    /// Encodes `state` and appends the result to `writer`.  The store
    /// succeeds exactly when the format can encode the snapshot; on success
    /// the appended bytes are the format's artifact for `state` and decode
    /// back to exactly `state`; on failure `writer` is unchanged and the
    /// error is the encode reason, distinguishable from every decode error.
    fn store(&self, writer: &mut Vec<u8>, state: BrokerState) -> (r: Result<(), ErrorReason>)
        ensures
            r is Ok <==> self.spec_can_store(state@),
            r is Ok ==> old(writer)@.is_prefix_of(final(writer)@) && self.spec_decode(
                final(writer)@.skip(old(writer)@.len() as int),
            ) == Some(state@) && self.spec_stores(
                final(writer)@.skip(old(writer)@.len() as int),
                state@,
            ),
            r is Err ==> final(writer)@ == old(writer)@,
            r matches Err(e) ==> e == ErrorReason::Serialize,
    ;

    /// Decodes one snapshot from `reader`, reporting an error exactly when
    /// the bytes decode to nothing under this format: `Deserialize` for
    /// bytes that are not this format's artifact, `MissingPayload` for an
    /// artifact that references a payload its table does not hold.
    fn load(&self, reader: &[u8]) -> (r: Result<BrokerState, ErrorReason>)
        ensures
            r matches Ok(s) ==> self.spec_decode(reader@) == Some(s@),
            r is Err <==> self.spec_decode(reader@) is None,
            r matches Err(e) ==> (!self.spec_load_missing(reader@) ==> e
                == ErrorReason::Deserialize),
            r matches Err(e) ==> (self.spec_load_missing(reader@) ==> e matches
                ErrorReason::MissingPayload(_)),
    ;
}

/// What a byte stream decodes to under the direct format: decompress, check
/// the header, parse one snapshot, and require the stream to end there.
pub open spec fn spec_decode_direct(bytes: Seq<u8>) -> Option<BrokerStateView> {
    match gunzip_of(bytes) {
        None => None,
        Some(p) => if p.len() >= 6 && p.subrange(0, 6) == spec_header(TAG_DIRECT) {
            match <BrokerState as Wire>::wparse(p, 6) {
                None => None,
                Some((s, e)) => if e == p.len() {
                    Some(s)
                } else {
                    None
                },
            }
        } else {
            None
        },
    }
}

/// The direct snapshot format: binary-encode the whole snapshot, then
/// compress.  It is the baseline the consolidated format is measured
/// against.
#[derive(Clone, Debug, Default)]
pub struct BincodeFormat;

impl BincodeFormat {
    /// Builds the direct format.
    pub fn new() -> (r: Self)
        ensures
            r == BincodeFormat,
    {
        BincodeFormat
    }
}

impl FileFormat for BincodeFormat {
    open spec fn spec_decode(&self, bytes: Seq<u8>) -> Option<BrokerStateView> {
        spec_decode_direct(bytes)
    }

    open spec fn spec_can_store(&self, s: BrokerStateView) -> bool {
        true
    }

    open spec fn spec_stores(&self, bytes: Seq<u8>, s: BrokerStateView) -> bool {
        spec_decode_direct(bytes) == Some(s)
    }

    open spec fn spec_load_missing(&self, bytes: Seq<u8>) -> bool {
        false
    }

    fn store(&self, writer: &mut Vec<u8>, state: BrokerState) -> (r: Result<(), ErrorReason>) {
        let ghost sv = state@;
        let mut plain: Vec<u8> = Vec::new();
        write_header(&mut plain, TAG_DIRECT);
        let ghost h = plain@;
        state.wwrite(&mut plain);
        proof {
            assert(h =~= plain@.subrange(0, 6));
        }
        let mut z = gzip_compress(plain.as_slice());
        let ghost w0 = writer@;
        let ghost zv = z@;
        writer.append(&mut z);
        proof {
            assert(writer@.skip(w0.len() as int) =~= zv);
            assert(w0.is_prefix_of(writer@));
            assert(spec_decode_direct(zv) == Some(sv));
        }
        Ok(())
    }

    fn load(&self, reader: &[u8]) -> (r: Result<BrokerState, ErrorReason>) {
        let plain = match gzip_decompress(reader) {
            None => {
                return Err(ErrorReason::Deserialize);
            },
            Some(p) => p,
        };
        if !check_header(plain.as_slice(), TAG_DIRECT) {
            return Err(ErrorReason::Deserialize);
        }
        let mut pos: usize = 6;
        let s = match <BrokerState as Wire>::wread(plain.as_slice(), &mut pos) {
            None => {
                return Err(ErrorReason::Deserialize);
            },
            Some(s) => s,
        };
        if pos != plain.len() {
            return Err(ErrorReason::Deserialize);
        }
        Ok(s)
    }
}

/// Whether `bytes` is the consolidated artifact for snapshot `s`: its
/// decompressed form carries the consolidated-format header followed by
/// exactly one consolidated snapshot that stands in the [`consolidates`]
/// relation to `s` — in particular, its payload table is an exact
/// deduplication of the payloads of `s`.
pub open spec fn spec_stored_consolidated(bytes: Seq<u8>, s: BrokerStateView) -> bool {
    match gunzip_of(bytes) {
        None => false,
        Some(p) => p.len() >= 6 && p.subrange(0, 6) == spec_header(TAG_CONSOLIDATED) && (
        match <ConsolidatedState as Wire>::wparse(p, 6) {
            None => false,
            Some((c, e)) => e == p.len() && consolidates(s, c),
        }),
    }
}

/// Whether `bytes` decompress and parse as a consolidated artifact whose
/// resolution fails: a well-formed stream that references a payload id its
/// table does not hold.
pub open spec fn spec_missing_consolidated(bytes: Seq<u8>) -> bool {
    match gunzip_of(bytes) {
        None => false,
        Some(p) => p.len() >= 6 && p.subrange(0, 6) == spec_header(TAG_CONSOLIDATED) && (
        match <ConsolidatedState as Wire>::wparse(p, 6) {
            None => false,
            Some((c, e)) => e == p.len() && crate::consolidate::spec_resolve(c) is None,
        }),
    }
}

/// What a byte stream decodes to under the consolidated format: decompress,
/// check the header, parse one consolidated snapshot, require the stream to
/// end there, and resolve every payload id through the table.
pub open spec fn spec_decode_consolidated(bytes: Seq<u8>) -> Option<BrokerStateView> {
    match gunzip_of(bytes) {
        None => None,
        Some(p) => if p.len() >= 6 && p.subrange(0, 6) == spec_header(TAG_CONSOLIDATED) {
            match <ConsolidatedState as Wire>::wparse(p, 6) {
                None => None,
                Some((c, e)) => if e == p.len() {
                    crate::consolidate::spec_resolve(c)
                } else {
                    None
                },
            }
        } else {
            None
        },
    }
}

/// The payload-deduplicating snapshot format: consolidate shared payloads
/// into a content-addressed table, binary-encode the consolidated form, then
/// compress.  Loading resolves every payload id back through the table.
#[derive(Clone, Debug, Default)]
pub struct ConsolidatedStateFormat;

impl ConsolidatedStateFormat {
    /// Builds the consolidated format.
    pub fn new() -> (r: Self)
        ensures
            r == ConsolidatedStateFormat,
    {
        ConsolidatedStateFormat
    }
}

impl FileFormat for ConsolidatedStateFormat {
    open spec fn spec_decode(&self, bytes: Seq<u8>) -> Option<BrokerStateView> {
        spec_decode_consolidated(bytes)
    }

    open spec fn spec_can_store(&self, s: BrokerStateView) -> bool {
        payload_seq(s).len() <= u64::MAX
    }

    open spec fn spec_stores(&self, bytes: Seq<u8>, s: BrokerStateView) -> bool {
        spec_stored_consolidated(bytes, s)
    }

    open spec fn spec_load_missing(&self, bytes: Seq<u8>) -> bool {
        spec_missing_consolidated(bytes)
    }

    fn store(&self, writer: &mut Vec<u8>, state: BrokerState) -> (r: Result<(), ErrorReason>) {
        let ghost sv = state@;
        if crate::consolidate::count_payloads(&state).is_none() {
            return Err(ErrorReason::Serialize);
        }
        let c = crate::consolidate::Consolidator::consolidate_state(state);
        let ghost cv = c@;
        let mut plain: Vec<u8> = Vec::new();
        write_header(&mut plain, TAG_CONSOLIDATED);
        let ghost h = plain@;
        c.wwrite(&mut plain);
        proof {
            assert(h =~= plain@.subrange(0, 6));
            crate::consolidate::lemma_consolidate_resolve(sv, cv);
        }
        let mut z = gzip_compress(plain.as_slice());
        let ghost w0 = writer@;
        let ghost zv = z@;
        writer.append(&mut z);
        proof {
            assert(writer@.skip(w0.len() as int) =~= zv);
            assert(w0.is_prefix_of(writer@));
            assert(spec_decode_consolidated(zv) == Some(sv));
            assert(spec_stored_consolidated(zv, sv));
        }
        Ok(())
    }

    fn load(&self, reader: &[u8]) -> (r: Result<BrokerState, ErrorReason>) {
        let plain = match gzip_decompress(reader) {
            None => {
                return Err(ErrorReason::Deserialize);
            },
            Some(p) => p,
        };
        if !check_header(plain.as_slice(), TAG_CONSOLIDATED) {
            return Err(ErrorReason::Deserialize);
        }
        let mut pos: usize = 6;
        let c = match <ConsolidatedState as Wire>::wread(plain.as_slice(), &mut pos) {
            None => {
                return Err(ErrorReason::Deserialize);
            },
            Some(c) => c,
        };
        if pos != plain.len() {
            return Err(ErrorReason::Deserialize);
        }
        match crate::consolidate::Resolver::resolve_state(c) {
            Ok(s) => Ok(s),
            Err(e) => Err(e),
        }
    }
}

} // verus!
