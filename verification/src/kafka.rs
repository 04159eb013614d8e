//! Kafka proxy core: frame codec, in-flight correlation table, selective
//! metadata decode and rewrite.
//!
//! Kafka frames are length-prefixed: a 4-byte big-endian payload length
//! `L`, then `L` bytes of payload.  The proxy forwards frames verbatim,
//! except that `Metadata` response frames — recognised by the correlation
//! id their request registered — are decoded, their broker list rewritten
//! to point at the public tunnels, and re-encoded.

use vstd::prelude::*;

use kafka_protocol::messages::MetadataResponse;
use kafka_protocol::messages::ResponseHeader;
use kafka_protocol::protocol::Decodable;
use kafka_protocol::protocol::Encodable;
use kafka_protocol::protocol::HeaderVersion;
use kafka_protocol::protocol::StrBytes;

use crate::ErrorKind;
use vstd::string::StringSliceAdditionalSpecFns;

use crate::auth::Authenticator;
use crate::proxy_state::ProxyState;
use crate::proxy_state::Url;

verus! {

/// The big-endian value of two bytes.
pub open spec fn be16(b0: u8, b1: u8) -> u16 {
    ((b0 as int) * 0x100 + b1 as int) as u16
}

/// The big-endian value of four bytes.
pub open spec fn be32(b0: u8, b1: u8, b2: u8, b3: u8) -> u32 {
    ((b0 as int) * 0x1000000 + (b1 as int) * 0x10000 + (b2 as int) * 0x100 + b3 as int) as u32
}

/// The payload length a frame's 4-byte prefix announces.
pub open spec fn prefix_len(f: Seq<u8>) -> u32 {
    be32(f[0], f[1], f[2], f[3])
}

/// Whether `f` is exactly one whole frame: the 4-byte prefix plus as many
/// payload bytes as it announces.
pub open spec fn is_complete_frame(f: Seq<u8>) -> bool {
    f.len() >= 4 && f.len() == 4 + prefix_len(f)
}

/// The Kafka API key of the `Metadata` RPC.
pub open spec fn metadata_api_key() -> u16 {
    3
}

/// The API key of a request frame: bytes 4..6, big-endian.
pub open spec fn req_api_key(f: Seq<u8>) -> u16 {
    be16(f[4], f[5])
}

/// The API version of a request frame: bytes 6..8, big-endian.
pub open spec fn req_api_version(f: Seq<u8>) -> i16 {
    be16(f[6], f[7]) as i16
}

/// The correlation id of a request frame: bytes 8..12, big-endian.
pub open spec fn req_correlation_id(f: Seq<u8>) -> u32 {
    be32(f[8], f[9], f[10], f[11])
}

/// The correlation id of a response frame: bytes 4..8, big-endian.
pub open spec fn resp_correlation_id(f: Seq<u8>) -> u32 {
    be32(f[4], f[5], f[6], f[7])
}

/// Whether a frame is a `Metadata` request whose version and correlation
/// id the proxy must register.  Frames too short to carry a request header
/// are never registered.
pub open spec fn is_metadata_request_frame(f: Seq<u8>) -> bool {
    f.len() >= 12 && req_api_key(f) == metadata_api_key()
}

fn read_be16(f: &Vec<u8>, off: usize) -> (r: u16)
    requires
        off + 2 <= f@.len(),
    ensures
        r == be16(f@[off as int], f@[off + 1]),
{
    let n = f.len();
    assert(off + 2 <= n);
    (f[off] as u16) * 0x100 + (f[off + 1] as u16)
}

fn read_be32(f: &Vec<u8>, off: usize) -> (r: u32)
    requires
        off + 4 <= f@.len(),
    ensures
        r == be32(f@[off as int], f@[off + 1], f@[off + 2], f@[off + 3]),
{
    let n = f.len();
    assert(off + 4 <= n);
    (f[off] as u32) * 0x1000000 + (f[off + 1] as u32) * 0x10000 + (f[off + 2] as u32) * 0x100 + (
    f[off + 3] as u32)
}

/// Split one whole frame off the front of a byte stream, if enough bytes
/// are buffered.
pub open spec fn split_one(b: Seq<u8>) -> Option<(Seq<u8>, Seq<u8>)> {
    if b.len() >= 4 && b.len() - 4 >= prefix_len(b) {
        Some((b.take(4 + prefix_len(b) as int), b.skip(4 + prefix_len(b) as int)))
    } else {
        None
    }
}

/// The whole frames at the front of a byte stream, in order.
pub open spec fn frames_of(b: Seq<u8>) -> Seq<Seq<u8>>
    decreases b.len(),
{
    match split_one(b) {
        Some((f, rest)) => seq![f] + frames_of(rest),
        None => Seq::empty(),
    }
}

/// The bytes left after taking every whole frame off the front.
pub open spec fn residue_of(b: Seq<u8>) -> Seq<u8>
    decreases b.len(),
{
    match split_one(b) {
        Some((f, rest)) => residue_of(rest),
        None => b,
    }
}

/// Concatenation of a sequence of frames.
pub open spec fn concat_frames(fs: Seq<Seq<u8>>) -> Seq<u8>
    decreases fs.len(),
{
    if fs.len() == 0 {
        Seq::empty()
    } else {
        fs[0] + concat_frames(fs.drop_first())
    }
}

/// Ordering: splitting a stream into frames loses nothing and reorders
/// nothing — the frames, concatenated in the order they are handed out,
/// followed by the residue, are exactly the input bytes.
pub proof fn lemma_frames_ordered(b: Seq<u8>)
    ensures
        concat_frames(frames_of(b)) + residue_of(b) =~= b,
        forall|i: int|
            0 <= i < frames_of(b).len() ==> is_complete_frame(#[trigger] frames_of(b)[i]),
    decreases b.len(),
{
    match split_one(b) {
        Some((f, rest)) => {
            lemma_frames_ordered(rest);
            assert(frames_of(b) == seq![f] + frames_of(rest));
            assert(frames_of(b).drop_first() =~= frames_of(rest));
            assert(f + rest =~= b);
            assert(is_complete_frame(f)) by {
                assert(f[0] == b[0] && f[1] == b[1] && f[2] == b[2] && f[3] == b[3]);
            }
            assert(concat_frames(frames_of(b)) == f + concat_frames(frames_of(rest)));
            assert forall|i: int|
                0 <= i < frames_of(b).len() implies is_complete_frame(
                #[trigger] frames_of(b)[i],
            ) by {
                if i > 0 {
                    assert(frames_of(b)[i] == frames_of(rest)[i - 1]);
                }
            }
        },
        None => {
            assert(concat_frames(frames_of(b)) =~= Seq::<u8>::empty());
        },
    }
}

/// An incremental splitter of a byte stream into length-prefixed frames.
/// Bytes go in as they arrive from the socket; whole frames come out, in
/// order, with their 4-byte length prefix kept.
pub struct FrameAccumulator {
    buf: Vec<u8>,
}

impl FrameAccumulator {
    /// The bytes received and not yet handed out as frames.
    pub closed spec fn pending(self) -> Seq<u8> {
        self.buf@
    }

    /// Create an empty accumulator.
    pub fn new() -> (a: FrameAccumulator)
        ensures
            a.pending() =~= Seq::<u8>::empty(),
    {
        FrameAccumulator { buf: Vec::new() }
    }

    /// How many bytes are buffered and not yet handed out.  A stream
    /// that ends while this is nonzero ends inside a frame — a framing
    /// error, fatal for the flow.
    pub fn pending_len(&self) -> (n: usize)
        ensures
            n == self.pending().len(),
    {
        self.buf.len()
    }

    /// Feed bytes read from the socket.
    pub fn push_chunk(&mut self, chunk: &[u8])
        ensures
            final(self).pending() =~= old(self).pending() + chunk@,
    {
        let n = chunk.len();
        for k in 0..n
            invariant
                n == chunk@.len(),
                self.buf@ =~= old(self).buf@ + chunk@.take(k as int),
        {
            self.buf.push(chunk[k]);
            proof {
                assert(chunk@.take(k + 1) =~= chunk@.take(k as int).push(chunk@[k as int]));
            }
        }
        proof {
            assert(chunk@.take(n as int) =~= chunk@);
        }
    }

    /// Take the next whole frame off the front, if one is buffered.
    pub fn next_frame(&mut self) -> (r: Option<Vec<u8>>)
        ensures
            match split_one(old(self).pending()) {
                Some(pair) => {
                    &&& r matches Some(f) && f@ == pair.0
                    &&& final(self).pending() == pair.1
                },
                None => {
                    &&& r is None
                    &&& final(self).pending() == old(self).pending()
                },
            },
    {
        if self.buf.len() < 4 {
            return None;
        }
        let l = read_be32(&self.buf, 0);
        if self.buf.len() - 4 < l as usize {
            return None;
        }
        let total = 4 + l as usize;
        let mut frame: Vec<u8> = Vec::new();
        for k in 0..total
            invariant
                total <= self.buf@.len(),
                frame@ =~= self.buf@.take(k as int),
        {
            frame.push(self.buf[k]);
            proof {
                assert(self.buf@.take(k + 1) =~= self.buf@.take(k as int).push(
                    self.buf@[k as int],
                ));
            }
        }
        let n = self.buf.len();
        let mut rest: Vec<u8> = Vec::new();
        for k in total..n
            invariant
                total <= n == self.buf@.len(),
                total <= k <= n,
                rest@ =~= self.buf@.subrange(total as int, k as int),
        {
            rest.push(self.buf[k]);
            proof {
                assert(self.buf@.subrange(total as int, k + 1) =~= self.buf@.subrange(
                    total as int,
                    k as int,
                ).push(self.buf@[k as int]));
            }
        }
        proof {
            assert(frame@ =~= old(self).pending().take(4 + prefix_len(old(self).pending()) as int));
            assert(rest@ =~= old(self).pending().skip(4 + prefix_len(old(self).pending()) as int));
        }
        self.buf = rest;
        Some(frame)
    }
}

/// One in-flight entry: a registered `Metadata` request's correlation id
/// and API version.
struct InflightEntry {
    correlation_id: u32,
    api_version: i16,
}

/// The first version registered for a correlation id, scanning from the
/// front.
pub open spec fn lookup_inflight(s: Seq<(u32, i16)>, k: u32) -> Option<i16>
    decreases s.len(),
{
    if s.len() == 0 {
        None
    } else if s[0].0 == k {
        Some(s[0].1)
    } else {
        lookup_inflight(s.drop_first(), k)
    }
}

/// The per-flow table of in-flight `Metadata` requests, keyed by
/// correlation id.  Only `Metadata` requests are ever inserted; an entry
/// is removed when the matching response is decoded.
pub struct InflightTable {
    entries: Vec<InflightEntry>,
}

impl InflightTable {
    /// The registered (correlation id, version) pairs, oldest first.
    pub closed spec fn entries(self) -> Seq<(u32, i16)> {
        self.entries@.map(|i: int, e: InflightEntry| (e.correlation_id, e.api_version))
    }

    /// The version registered for a correlation id, if any.
    pub open spec fn spec_get(self, k: u32) -> Option<i16> {
        lookup_inflight(self.entries(), k)
    }

    /// Table well-formedness: at most one entry per correlation id.
    pub open spec fn wf(self) -> bool {
        forall|i: int, j: int|
            0 <= i < j < self.entries().len() ==> self.entries()[i].0 != self.entries()[j].0
    }

    /// Create an empty table.
    pub fn new() -> (t: InflightTable)
        ensures
            t.entries() =~= Seq::<(u32, i16)>::empty(),
            t.wf(),
            forall|k: u32| t.spec_get(k) is None,
    {
        InflightTable { entries: Vec::new() }
    }

    /// Register a correlation id with its request's API version.  A second
    /// registration of the same id replaces the version.
    pub fn insert(&mut self, k: u32, v: i16)
        requires
            old(self).wf(),
        ensures
            final(self).wf(),
            final(self).spec_get(k) == Some(v),
            forall|k2: u32| k2 != k ==> final(self).spec_get(k2) == old(self).spec_get(k2),
    {
        let _previous = self.remove(k);
        let ghost pre = self.entries();
        self.entries.push(InflightEntry { correlation_id: k, api_version: v });
        proof {
            assert(self.entries() =~= pre.push((k, v)));
            assert forall|j: int| 0 <= j < pre.len() implies #[trigger] pre[j].0 != k by {
                if pre[j].0 == k {
                    lemma_inflight_found(pre, j);
                }
            }
            lemma_inflight_push(pre, k, v);
            assert forall|a: int, b: int|
                0 <= a < b < self.entries().len() implies self.entries()[a].0
                != self.entries()[b].0 by {
                if b < pre.len() {
                    assert(self.entries()[a] == pre[a] && self.entries()[b] == pre[b]);
                } else {
                    assert(self.entries()[a] == pre[a] && self.entries()[b].0 == k);
                }
            }
        }
    }

    /// Look up the version registered for a correlation id and remove the
    /// entry; `None` for an id that was never registered.
    pub fn remove(&mut self, k: u32) -> (r: Option<i16>)
        requires
            old(self).wf(),
        ensures
            final(self).wf(),
            r == old(self).spec_get(k),
            final(self).spec_get(k) is None,
            forall|k2: u32| k2 != k ==> final(self).spec_get(k2) == old(self).spec_get(k2),
    {
        let n = self.entries.len();
        proof {
            assert(self.entries().skip(0) =~= self.entries());
        }
        for i in 0..n
            invariant
                n == self.entries.len(),
                self == old(self),
                old(self).wf(),
                lookup_inflight(self.entries(), k) == lookup_inflight(
                    self.entries().skip(i as int),
                    k,
                ),
                forall|j: int| 0 <= j < i ==> #[trigger] self.entries()[j].0 != k,
        {
            proof {
                lemma_inflight_step(self.entries(), k, i as int);
            }
            if self.entries[i].correlation_id == k {
                let ghost pre = self.entries();
                let v = self.entries[i].api_version;
                self.entries.remove(i);
                proof {
                    assert(self.entries() =~= pre.remove(i as int));
                    lemma_inflight_remove(pre, i as int);
                }
                return Some(v);
            }
        }
        proof {
            lemma_inflight_absent(self.entries(), k);
        }
        None
    }

    /// The version registered for a correlation id, without removing it.
    pub fn get(&self, k: u32) -> (r: Option<i16>)
        ensures
            r == self.spec_get(k),
    {
        let n = self.entries.len();
        proof {
            assert(self.entries().skip(0) =~= self.entries());
        }
        for i in 0..n
            invariant
                n == self.entries.len(),
                lookup_inflight(self.entries(), k) == lookup_inflight(
                    self.entries().skip(i as int),
                    k,
                ),
        {
            proof {
                lemma_inflight_step(self.entries(), k, i as int);
            }
            if self.entries[i].correlation_id == k {
                return Some(self.entries[i].api_version);
            }
        }
        None
    }
}

/// Scanning past a non-matching entry does not change the lookup result.
proof fn lemma_inflight_step(s: Seq<(u32, i16)>, k: u32, i: int)
    requires
        0 <= i < s.len(),
    ensures
        s[i].0 == k ==> lookup_inflight(s.skip(i), k) == Some(s[i].1),
        s[i].0 != k ==> lookup_inflight(s.skip(i), k) == lookup_inflight(s.skip(i + 1), k),
{
    assert(s.skip(i)[0] == s[i]);
    if s[i].0 != k {
        assert(s.skip(i).drop_first() =~= s.skip(i + 1));
    }
}

/// A key that no entry carries is not found.
proof fn lemma_inflight_absent(s: Seq<(u32, i16)>, k: u32)
    requires
        forall|j: int| 0 <= j < s.len() ==> #[trigger] s[j].0 != k,
    ensures
        lookup_inflight(s, k) is None,
    decreases s.len(),
{
    if s.len() > 0 {
        assert(forall|j: int|
            0 <= j < s.drop_first().len() ==> #[trigger] s.drop_first()[j] == s[j + 1]);
        lemma_inflight_absent(s.drop_first(), k);
    }
}

/// A key that occurs at some index is found by the lookup.
proof fn lemma_inflight_found(s: Seq<(u32, i16)>, i: int)
    requires
        0 <= i < s.len(),
    ensures
        lookup_inflight(s, s[i].0) is Some,
    decreases s.len(),
{
    if s[0].0 != s[i].0 {
        assert(s.drop_first()[i - 1] == s[i]);
        lemma_inflight_found(s.drop_first(), i - 1);
    }
}

/// Appending an entry affects no other key's lookup, and gives the new
/// key its value if it was absent.
proof fn lemma_inflight_push(s: Seq<(u32, i16)>, k: u32, v: i16)
    ensures
        lookup_inflight(s, k) is None ==> lookup_inflight(s.push((k, v)), k) == Some(v),
        forall|k2: u32| k2 != k ==> lookup_inflight(s.push((k, v)), k2) == lookup_inflight(s, k2),
    decreases s.len(),
{
    let t = s.push((k, v));
    if s.len() == 0 {
        assert(t[0] == (k, v));
        assert(t.drop_first() =~= Seq::<(u32, i16)>::empty());
        assert forall|k2: u32| k2 != k implies lookup_inflight(t, k2) == lookup_inflight(
            s,
            k2,
        ) by {
            assert(lookup_inflight(t, k2) == lookup_inflight(t.drop_first(), k2));
        }
    } else {
        assert(t[0] == s[0]);
        assert(t.drop_first() =~= s.drop_first().push((k, v)));
        lemma_inflight_push(s.drop_first(), k, v);
        assert forall|k2: u32| k2 != k implies lookup_inflight(t, k2) == lookup_inflight(
            s,
            k2,
        ) by {
            if s[0].0 == k2 {
            } else {
                assert(lookup_inflight(t, k2) == lookup_inflight(t.drop_first(), k2));
                assert(lookup_inflight(s, k2) == lookup_inflight(s.drop_first(), k2));
            }
        }
    }
}

/// Removing the entry at a matching index clears that key's lookup and no
/// other, provided the keys are unique.
proof fn lemma_inflight_remove(s: Seq<(u32, i16)>, i: int)
    requires
        0 <= i < s.len(),
        forall|a: int, b: int| 0 <= a < b < s.len() ==> s[a].0 != s[b].0,
    ensures
        lookup_inflight(s.remove(i), s[i].0) is None,
        forall|k2: u32| k2 != s[i].0 ==> lookup_inflight(s.remove(i), k2) == lookup_inflight(s, k2),
        forall|a: int, b: int|
            0 <= a < b < s.remove(i).len() ==> s.remove(i)[a].0 != s.remove(i)[b].0,
    decreases s.len(),
{
    let k = s[i].0;
    let t = s.remove(i);
    assert(forall|j: int| 0 <= j < i ==> #[trigger] t[j] == s[j]);
    assert(forall|j: int| i <= j < t.len() ==> #[trigger] t[j] == s[j + 1]);
    if i == 0 {
        assert(t =~= s.drop_first());
        assert forall|j: int| 0 <= j < t.len() implies #[trigger] t[j].0 != k by {
            assert(t[j] == s[j + 1]);
        }
        lemma_inflight_absent(t, k);
    } else {
        assert(t[0] == s[0]);
        assert(s[0].0 != k);
        assert(t.drop_first() =~= s.drop_first().remove(i - 1));
        assert(forall|a: int, b: int|
            0 <= a < b < s.drop_first().len() ==> s.drop_first()[a].0 != s.drop_first()[b].0);
        assert(s.drop_first()[i - 1] == s[i]);
        lemma_inflight_remove(s.drop_first(), i - 1);
        assert forall|k2: u32| k2 != k implies lookup_inflight(t, k2) == lookup_inflight(
            s,
            k2,
        ) by {
            if s[0].0 == k2 {
            } else {
                assert(lookup_inflight(t, k2) == lookup_inflight(t.drop_first(), k2));
                assert(lookup_inflight(s, k2) == lookup_inflight(s.drop_first(), k2));
            }
        }
        assert(lookup_inflight(t, k) == lookup_inflight(t.drop_first(), k));
    }
}


/// The broker endpoints a `MetadataResponse` advertises, in order: each
/// broker's host as characters and its port narrowed to a `u16`.  Opaque
/// to the verifier; the trusted accessors below are its only source of
/// facts.
pub uninterp spec fn metadata_brokers(m: MetadataResponse) -> Seq<(Seq<char>, u16)>;

/// The bytes kafka_protocol emits for a `MetadataResponse` at a version:
/// a function of the response value and the version alone.
pub uninterp spec fn encoded_response_body(m: MetadataResponse, api_version: i16) -> Seq<u8>;

/// Whether kafka_protocol can re-serialize a `MetadataResponse` at a
/// version: a function of the response value and the version alone.
pub uninterp spec fn response_body_encode_ok(m: MetadataResponse, api_version: i16) -> bool;

/// Whether kafka_protocol parses a response header at this version off
/// the front of these bytes: a function of the bytes and the version
/// alone.
pub uninterp spec fn resp_header_ok(bytes: Seq<u8>, api_version: i16) -> bool;

/// How many bytes that response header takes: a function of the bytes
/// and the version alone.
pub uninterp spec fn resp_header_len_of(bytes: Seq<u8>, api_version: i16) -> int;

/// Whether kafka_protocol parses a `MetadataResponse` at this version
/// off the front of these bytes: a function of the bytes and the
/// version alone.
pub uninterp spec fn response_body_decode_ok(bytes: Seq<u8>, api_version: i16) -> bool;

/// The broker endpoints of the `MetadataResponse` parsed off the front
/// of these bytes: a function of the bytes and the version alone.
pub uninterp spec fn decoded_brokers(bytes: Seq<u8>, api_version: i16) -> Seq<(Seq<char>, u16)>;

/// The metadata response versions the decoder understands.
pub open spec fn supported_metadata_version(v: i16) -> bool {
    0 <= v <= 13
}

#[verifier::external_type_specification]
#[verifier::external_body]
pub struct ExMetadataResponse(MetadataResponse);

/// Relies on kafka_protocol's `MetadataResponse::VERSIONS`: the message
/// supports exactly versions 0 through 13.
#[verifier::external_body]
fn metadata_version_in_range(v: i16) -> (r: bool)
    ensures
        r == supported_metadata_version(v),
{
    let range = <MetadataResponse as kafka_protocol::protocol::Message>::VERSIONS;
    range.min <= v && v <= range.max
}

/// Relies on kafka_protocol's `ResponseHeader::decode` at the header
/// version `MetadataResponse::header_version` picks: deterministic in
/// the bytes after the length prefix and the version, it succeeds
/// exactly when those bytes open with a well-formed header, consuming at
/// least the 4-byte correlation id and at most the whole rest.
#[verifier::external_body]
fn response_header_len(frame: &Vec<u8>, api_version: i16) -> (r: Result<usize, ErrorKind>)
    requires
        frame@.len() >= 4,
    ensures
        r is Ok <==> resp_header_ok(frame@.skip(4), api_version),
        r matches Ok(h) ==> 4 <= h && h + 4 <= frame@.len() && h == resp_header_len_of(
            frame@.skip(4),
            api_version,
        ),
        r matches Err(e) ==> e == ErrorKind::Decode,
{
    let mut buf: &[u8] = &frame[4..];
    let before = buf.len();
    match ResponseHeader::decode(&mut buf, MetadataResponse::header_version(api_version)) {
        Ok(_) => Ok(before - buf.len()),
        Err(_) => Err(ErrorKind::Decode),
    }
}

/// Relies on kafka_protocol's `MetadataResponse::decode`: deterministic
/// in the bytes from `offset` on and the version, it succeeds exactly
/// when they open with a well-formed response body at that version, and
/// the advertised brokers are then a function of those bytes alone.
#[verifier::external_body]
fn decode_response_body(frame: &Vec<u8>, offset: usize, api_version: i16) -> (r: Result<
    MetadataResponse,
    ErrorKind,
>)
    requires
        offset <= frame@.len(),
    ensures
        r is Ok <==> response_body_decode_ok(frame@.skip(offset as int), api_version),
        r matches Ok(body) ==> metadata_brokers(body) == decoded_brokers(
            frame@.skip(offset as int),
            api_version,
        ),
        r matches Err(e) ==> e == ErrorKind::Decode,
{
    let mut buf: &[u8] = &frame[offset..];
    MetadataResponse::decode(&mut buf, api_version).map_err(|_| ErrorKind::Decode)
}

/// Whether the codec can fully decode a selected response frame: its
/// header parses at the registered version, and a response body parses
/// right behind it.
pub open spec fn selected_decode_ok(frame: Seq<u8>, api_version: i16) -> bool {
    &&& resp_header_ok(frame.skip(4), api_version)
    &&& response_body_decode_ok(
        frame.skip(4 + resp_header_len_of(frame.skip(4), api_version)),
        api_version,
    )
}

/// Relies on the `brokers` field of kafka_protocol's `MetadataResponse`:
/// its length is the number of advertised brokers.
#[verifier::external_body]
fn broker_count(m: &MetadataResponse) -> (n: usize)
    ensures
        n == metadata_brokers(*m).len(),
{
    m.brokers.len()
}

/// Relies on the `brokers` field of kafka_protocol's `MetadataResponse`:
/// entry `i` holds the advertised host and port of the `i`-th broker.
#[verifier::external_body]
fn broker_at(m: &MetadataResponse, i: usize) -> (b: Url)
    requires
        i < metadata_brokers(*m).len(),
    ensures
        b@ == metadata_brokers(*m)[i as int],
{
    let br = &m.brokers[i];
    Url { host: br.host.as_str().to_owned(), port: br.port as u16 }
}

/// Relies on the `brokers` field of kafka_protocol's `MetadataResponse`
/// and on `StrBytes::from_string`: overwrites the advertised host and
/// port of the `i`-th broker and touches nothing else.
#[verifier::external_body]
fn set_broker_endpoint(m: &mut MetadataResponse, i: usize, host: &String, port: u16)
    requires
        i < metadata_brokers(*old(m)).len(),
    ensures
        metadata_brokers(*final(m)) == metadata_brokers(*old(m)).update(
            i as int,
            (host@, port),
        ),
{
    let br = &mut m.brokers[i];
    br.host = StrBytes::from_string(host.clone());
    br.port = port as i32;
}

/// Relies on kafka_protocol's `MetadataResponse::encode`: serializes the
/// response body at a version, deterministically in the response value.
#[verifier::external_body]
fn encode_response_body(m: &MetadataResponse, api_version: i16) -> (r: Result<Vec<u8>, ErrorKind>)
    ensures
        r matches Ok(out) ==> response_body_encode_ok(*m, api_version) && out@
            == encoded_response_body(*m, api_version),
        r matches Err(e) ==> e == ErrorKind::Encode && !response_body_encode_ok(*m, api_version),
{
    let mut buf: Vec<u8> = Vec::new();
    match m.encode(&mut buf, api_version) {
        Ok(()) => Ok(buf),
        Err(_) => Err(ErrorKind::Encode),
    }
}

/// The big-endian bytes of a 32-bit length.
pub open spec fn u32_be_bytes(n: u32) -> Seq<u8> {
    seq![
        (n / 0x1000000) as u8,
        ((n % 0x1000000) / 0x10000) as u8,
        ((n % 0x10000) / 0x100) as u8,
        (n % 0x100) as u8,
    ]
}

/// Writing a length big-endian and reading it back is the identity.
pub proof fn lemma_u32_be_roundtrip(n: u32)
    ensures
        be32(u32_be_bytes(n)[0], u32_be_bytes(n)[1], u32_be_bytes(n)[2], u32_be_bytes(n)[3]) == n,
{
    let a = n as int;
    let q0 = a / 0x1000000;
    let r0 = a % 0x1000000;
    let r1 = a % 0x10000;
    vstd::arithmetic::div_mod::lemma_fundamental_div_mod(a, 0x1000000);
    vstd::arithmetic::div_mod::lemma_fundamental_div_mod(r0, 0x10000);
    vstd::arithmetic::div_mod::lemma_fundamental_div_mod(r1, 0x100);
    assert(0x10000 * 0x100int == 0x1000000);
    assert(0x100 * 0x100int == 0x10000);
    vstd::arithmetic::div_mod::lemma_mod_mod(a, 0x10000, 0x100);
    vstd::arithmetic::div_mod::lemma_mod_mod(a, 0x100, 0x100);
    vstd::arithmetic::div_mod::lemma_mod_bound(a, 0x1000000);
    vstd::arithmetic::div_mod::lemma_mod_bound(a, 0x10000);
    vstd::arithmetic::div_mod::lemma_mod_bound(a, 0x100);
    vstd::arithmetic::div_mod::lemma_mod_bound(r0, 0x10000);
    vstd::arithmetic::div_mod::lemma_mod_bound(r1, 0x100);
    assert((r0 % 0x10000) % 0x100 == r0 % 0x100) by {
        vstd::arithmetic::div_mod::lemma_mod_mod(r0, 0x100, 0x100);
    }
    assert(r0 % 0x10000 == r1) by {
        assert((a % (0x10000int * 0x100)) % 0x10000 == a % 0x10000);
    }
    assert(q0 <= 255) by {
        vstd::arithmetic::div_mod::lemma_div_is_ordered(a, 0xFFFFFFFF, 0x1000000);
        assert(0xFFFFFFFFint / 0x1000000 == 255);
    }
    assert(r0 / 0x10000 <= 255) by {
        vstd::arithmetic::div_mod::lemma_div_is_ordered(r0, 0xFFFFFF, 0x10000);
        assert(0xFFFFFFint / 0x10000 == 255);
    }
    assert(r1 / 0x100 <= 255) by {
        vstd::arithmetic::div_mod::lemma_div_is_ordered(r1, 0xFFFF, 0x100);
        assert(0xFFFFint / 0x100 == 255);
    }
    assert(r0 / 0x10000 >= 0 && r1 / 0x100 >= 0 && q0 >= 0) by {
        vstd::arithmetic::div_mod::lemma_div_pos_is_pos(a, 0x1000000);
        vstd::arithmetic::div_mod::lemma_div_pos_is_pos(r0, 0x10000);
        vstd::arithmetic::div_mod::lemma_div_pos_is_pos(r1, 0x100);
    }
    let b0 = (n / 0x1000000) as u8;
    let b1 = ((n % 0x1000000) / 0x10000) as u8;
    let b2 = ((n % 0x10000) / 0x100) as u8;
    let b3 = (n % 0x100) as u8;
    assert(b0 as int == q0 && b1 as int == r0 / 0x10000 && b2 as int == r1 / 0x100 && b3 as int
        == a % 0x100);
    assert((b0 as int) * 0x1000000 + (b1 as int) * 0x10000 + (b2 as int) * 0x100 + (b3 as int)
        == a);
}

/// A whole response frame built from a header and a body: the 4-byte
/// big-endian length of what follows, the header bytes, the body bytes.
pub open spec fn wrap_frame(h: Seq<u8>, body: Seq<u8>) -> Seq<u8> {
    u32_be_bytes((h.len() + body.len()) as u32) + h + body
}

/// A decoded downstream item: either a `Metadata` response — its request's
/// API version, its raw header bytes, and its parsed body — or an opaque
/// frame forwarded untouched.
#[derive(Debug)]
pub enum KafkaResponse {
    /// A selectively decoded `Metadata` response.
    Metadata(i16, Vec<u8>, MetadataResponse),
    /// Any other frame, kept byte-for-byte.
    UndecodedResponse(Vec<u8>),
}


/// What `decode` owes for a selected frame, given the registered
/// version: an unsupported version falls through to passthrough; a
/// supported one is decoded — version, header bytes and the body's
/// brokers all pinned — exactly when the frame parses, and fails with a
/// decode error exactly when it does not.
pub open spec fn selected_outcome(
    registered: Option<i16>,
    frame: Seq<u8>,
    r: Result<KafkaResponse, ErrorKind>,
) -> bool {
    match registered {
        Some(v) => match r {
            Ok(item) => match item {
                KafkaResponse::Metadata(version, header, body) => {
                    &&& supported_metadata_version(v)
                    &&& selected_decode_ok(frame, v)
                    &&& version == v
                    &&& header@.len() == resp_header_len_of(frame.skip(4), v)
                    &&& 4 <= header@.len()
                    &&& 4 + header@.len() <= frame.len()
                    &&& header@ == frame.subrange(4, 4 + header@.len() as int)
                    &&& metadata_brokers(body) == decoded_brokers(
                        frame.skip(4 + header@.len() as int),
                        v,
                    )
                },
                KafkaResponse::UndecodedResponse(b) => {
                    &&& !supported_metadata_version(v)
                    &&& b@ == frame
                },
            },
            Err(e) => {
                &&& e == ErrorKind::Decode
                &&& supported_metadata_version(v)
                &&& !selected_decode_ok(frame, v)
            },
        },
        None => true,
    }
}

/// The per-flow codec: tracks in-flight `Metadata` requests and decodes
/// exactly the response frames they announce; everything else passes
/// through untouched.
pub struct KafkaServerCodec {
    inflight: InflightTable,
}

impl KafkaServerCodec {
    /// The registered (correlation id, version) pairs.
    pub closed spec fn inflight_entries(self) -> Seq<(u32, i16)> {
        self.inflight.entries()
    }

    /// The version registered for a correlation id, if any.
    pub closed spec fn registered(self, k: u32) -> Option<i16> {
        self.inflight.spec_get(k)
    }

    /// Codec well-formedness: the in-flight table holds at most one entry
    /// per correlation id.
    pub closed spec fn wf(self) -> bool {
        self.inflight.wf()
    }

    /// Whether the codec decodes this response frame rather than passing
    /// it through: the frame is long enough to carry a correlation id,
    /// and that id is registered.
    pub open spec fn spec_selects(self, f: Seq<u8>) -> bool {
        f.len() >= 8 && self.registered(resp_correlation_id(f)) is Some
    }

    /// Create a codec with an empty in-flight table.
    pub fn new() -> (c: KafkaServerCodec)
        ensures
            c.wf(),
            forall|k: u32| c.registered(k) is None,
    {
        KafkaServerCodec { inflight: InflightTable::new() }
    }

    /// Observe a frame on the request-carrying stream.  A `Metadata`
    /// request registers its correlation id and API version; any other
    /// frame leaves the table untouched.  The frame itself is forwarded
    /// by the caller either way.
    pub fn register_request(&mut self, frame: &Vec<u8>)
        requires
            old(self).wf(),
        ensures
            final(self).wf(),
            is_metadata_request_frame(frame@) ==> {
                &&& final(self).registered(req_correlation_id(frame@)) == Some(
                    req_api_version(frame@),
                )
                &&& forall|k2: u32|
                    k2 != req_correlation_id(frame@) ==> final(self).registered(k2) == old(
                        self,
                    ).registered(k2)
            },
            !is_metadata_request_frame(frame@) ==> *final(self) == *old(self),
    {
        if frame.len() >= 12 {
            let key = read_be16(frame, 4);
            if key == 3 {
                let version_bits = read_be16(frame, 6);
                let corr = read_be32(frame, 8);
                self.inflight.insert(corr, version_bits as i16);
            }
        }
    }

    /// Decode one frame from the response-carrying stream.  A frame whose
    /// correlation id is not registered — or too short to carry one — is
    /// returned as opaque bytes, byte-for-byte.  A registered frame has
    /// its entry removed and is parsed as a `Metadata` response at the
    /// registered version; a version the implementation does not
    /// understand falls through to passthrough, and a malformed payload
    /// at a supported version fails with a decode error.
    pub fn decode(&mut self, frame: Vec<u8>) -> (r: Result<KafkaResponse, ErrorKind>)
        requires
            old(self).wf(),
        ensures
            final(self).wf(),
            !old(self).spec_selects(frame@) ==> {
                &&& *final(self) == *old(self)
                &&& r matches Ok(item) && item matches KafkaResponse::UndecodedResponse(b) && b@
                    == frame@
            },
            old(self).spec_selects(frame@) ==> {
                &&& final(self).registered(resp_correlation_id(frame@)) is None
                &&& forall|k2: u32|
                    k2 != resp_correlation_id(frame@) ==> final(self).registered(k2) == old(
                        self,
                    ).registered(k2)
                &&& selected_outcome(old(self).registered(resp_correlation_id(frame@)), frame@, r)
            },
    {
        if frame.len() < 8 {
            return Ok(KafkaResponse::UndecodedResponse(frame));
        }
        let corr = read_be32(&frame, 4);
        if self.inflight.get(corr).is_none() {
            return Ok(KafkaResponse::UndecodedResponse(frame));
        }
        let version = match self.inflight.remove(corr) {
            Some(v) => v,
            None => vstd::pervasive::unreached(),
        };
        if !metadata_version_in_range(version) {
            return Ok(KafkaResponse::UndecodedResponse(frame));
        }
        let header_len = match response_header_len(&frame, version) {
            Ok(h) => h,
            Err(e) => {
                return Err(e);
            },
        };
        let mut header: Vec<u8> = Vec::new();
        let end = 4 + header_len;
        for k in 4..end
            invariant
                4 <= end && end <= frame@.len(),
                header@ =~= frame@.subrange(4, k as int),
        {
            header.push(frame[k]);
            proof {
                assert(frame@.subrange(4, k + 1) =~= frame@.subrange(4, k as int).push(
                    frame@[k as int],
                ));
            }
        }
        match decode_response_body(&frame, end, version) {
            Ok(body) => Ok(KafkaResponse::Metadata(version, header, body)),
            Err(e) => Err(e),
        }
    }

    /// Re-emit one item for the downstream socket.  Opaque frames come
    /// back byte-for-byte; a decoded `Metadata` response is re-encoded at
    /// its version behind a fresh length prefix, keeping its original
    /// header bytes.
    pub fn encode(&self, item: KafkaResponse) -> (r: Result<Vec<u8>, ErrorKind>)
        ensures
            item matches KafkaResponse::UndecodedResponse(b) ==> r matches Ok(out) && out@ == b@,
            item matches KafkaResponse::Metadata(version, header, body) ==> match r {
                Ok(out) => {
                    &&& response_body_encode_ok(body, version)
                    &&& out@ == wrap_frame(header@, encoded_response_body(body, version))
                    &&& is_complete_frame(out@)
                },
                Err(e) => {
                    &&& e == ErrorKind::Encode
                    &&& (!response_body_encode_ok(body, version) || header@.len()
                        + encoded_response_body(body, version).len() > u32::MAX)
                },
            },
    {
        match item {
            KafkaResponse::UndecodedResponse(bytes) => Ok(bytes),
            KafkaResponse::Metadata(version, header, body) => encode_metadata_frame(
                &header,
                &body,
                version,
            ),
        }
    }
}

/// Re-encode a `Metadata` response behind a fresh length prefix, keeping
/// the given header bytes verbatim.
pub fn encode_metadata_frame(header: &Vec<u8>, m: &MetadataResponse, version: i16) -> (r: Result<
    Vec<u8>,
    ErrorKind,
>)
    ensures
        match r {
            Ok(out) => {
                &&& response_body_encode_ok(*m, version)
                &&& out@ == wrap_frame(header@, encoded_response_body(*m, version))
                &&& is_complete_frame(out@)
            },
            Err(e) => {
                &&& e == ErrorKind::Encode
                &&& (!response_body_encode_ok(*m, version) || header@.len()
                    + encoded_response_body(*m, version).len() > u32::MAX)
            },
        },
{
    let encoded = match encode_response_body(m, version) {
        Ok(b) => b,
        Err(e) => {
            return Err(e);
        },
    };
    if encoded.len() > u32::MAX as usize || header.len() > u32::MAX as usize - encoded.len() {
        return Err(ErrorKind::Encode);
    }
    let total = (header.len() + encoded.len()) as u32;
    let mut out: Vec<u8> = Vec::new();
    out.push((total / 0x1000000) as u8);
    out.push(((total % 0x1000000) / 0x10000) as u8);
    out.push(((total % 0x10000) / 0x100) as u8);
    out.push((total % 0x100) as u8);
    proof {
        assert(out@ =~= u32_be_bytes(total));
    }
    let hn = header.len();
    for k in 0..hn
        invariant
            hn == header@.len(),
            out@ =~= u32_be_bytes(total) + header@.take(k as int),
    {
        out.push(header[k]);
        proof {
            assert(header@.take(k + 1) =~= header@.take(k as int).push(header@[k as int]));
        }
    }
    let en = encoded.len();
    for k in 0..en
        invariant
            en == encoded@.len(),
            out@ =~= u32_be_bytes(total) + header@ + encoded@.take(k as int),
    {
        out.push(encoded[k]);
        proof {
            assert(encoded@.take(k + 1) =~= encoded@.take(k as int).push(encoded@[k as int]));
        }
    }
    proof {
        assert(header@.take(hn as int) =~= header@);
        assert(encoded@.take(en as int) =~= encoded@);
        lemma_u32_be_roundtrip(total);
        assert(out@[0] == u32_be_bytes(total)[0]);
        assert(out@[1] == u32_be_bytes(total)[1]);
        assert(out@[2] == u32_be_bytes(total)[2]);
        assert(out@[3] == u32_be_bytes(total)[3]);
    }
    Ok(out)
}


/// The advertised brokers of a decoded response, as pool keys.
pub fn broker_list(m: &MetadataResponse) -> (r: Vec<Url>)
    ensures
        r@.map(|i: int, u: Url| u@) =~= metadata_brokers(*m),
{
    let n = broker_count(m);
    let mut out: Vec<Url> = Vec::new();
    for i in 0..n
        invariant
            n == metadata_brokers(*m).len(),
            out@.map(|j: int, u: Url| u@) =~= metadata_brokers(*m).take(i as int),
    {
        let ghost pre = out@;
        out.push(broker_at(m, i));
        proof {
            assert(out@.map(|j: int, u: Url| u@) =~= pre.map(|j: int, u: Url| u@).push(
                metadata_brokers(*m)[i as int],
            ));
            assert(metadata_brokers(*m).take(i + 1) =~= metadata_brokers(*m).take(
                i as int,
            ).push(metadata_brokers(*m)[i as int]));
        }
    }
    proof {
        assert(metadata_brokers(*m).take(n as int) =~= metadata_brokers(*m));
    }
    out
}

/// Which brokers of a response still need a tunnel: those not in the
/// pool, each listed once, in order of first appearance.  `seen` carries
/// the ones already selected.
pub open spec fn unknown_rec(
    bs: Seq<(Seq<char>, u16)>,
    st: ProxyState,
    seen: Seq<(Seq<char>, u16)>,
) -> Seq<(Seq<char>, u16)>
    decreases bs.len(),
{
    if bs.len() == 0 {
        Seq::empty()
    } else if st.spec_contains(bs[0]) || seen.contains(bs[0]) {
        unknown_rec(bs.drop_first(), st, seen)
    } else {
        seq![bs[0]] + unknown_rec(bs.drop_first(), st, seen.push(bs[0]))
    }
}

/// Which brokers of a response still need a tunnel.
pub open spec fn unknown_spec(bs: Seq<(Seq<char>, u16)>, st: ProxyState) -> Seq<(Seq<char>, u16)> {
    unknown_rec(bs, st, Seq::empty())
}

fn contains_url(v: &Vec<Url>, u: &Url) -> (r: bool)
    ensures
        r == v@.map(|j: int, x: Url| x@).contains(u@),
{
    let n = v.len();
    for i in 0..n
        invariant
            n == v@.len(),
            forall|j: int| 0 <= j < i ==> (#[trigger] v@[j])@ != u@,
    {
        if &v[i] == u {
            proof {
                assert(v@.map(|j2: int, x: Url| x@)[i as int] == u@);
            }
            return true;
        }
    }
    proof {
        let ms = v@.map(|j2: int, x: Url| x@);
        if ms.contains(u@) {
            let j = choose|j: int| 0 <= j < ms.len() && ms[j] == u@;
            assert(v@[j]@ == u@);
            assert(false);
        }
    }
    false
}

/// Phase-1 discovery selection: the brokers of the list that have no
/// tunnel yet, deduplicated, in order of first appearance.  The caller
/// dials each and records it in the pool before rewriting.
pub fn unknown_brokers(brokers: &Vec<Url>, state: &ProxyState) -> (r: Vec<Url>)
    ensures
        r@.map(|i: int, u: Url| u@) =~= unknown_spec(
            brokers@.map(|i: int, u: Url| u@),
            *state,
        ),
{
    let ghost bs = brokers@.map(|i: int, u: Url| u@);
    let mut out: Vec<Url> = Vec::new();
    let n = brokers.len();
    proof {
        assert(out@.map(|j: int, u: Url| u@) =~= Seq::<(Seq<char>, u16)>::empty());
        assert(bs.skip(0) =~= bs);
        assert(Seq::<(Seq<char>, u16)>::empty() + unknown_rec(bs, *state, Seq::empty())
            =~= unknown_rec(bs, *state, Seq::empty()));
    }
    for i in 0..n
        invariant
            n == brokers@.len(),
            bs == brokers@.map(|i2: int, u: Url| u@),
            unknown_spec(bs, *state) =~= out@.map(|j: int, u: Url| u@) + unknown_rec(
                bs.skip(i as int),
                *state,
                out@.map(|j: int, u: Url| u@),
            ),
    {
        let ghost seen = out@.map(|j: int, u: Url| u@);
        proof {
            assert(bs.skip(i as int)[0] == bs[i as int]);
            assert(bs.skip(i as int).drop_first() =~= bs.skip(i + 1));
            assert(brokers@[i as int]@ == bs[i as int]);
        }
        let u = &brokers[i];
        if state.get_remote_port(u).is_none() && !contains_url(&out, u) {
            let ghost pre = out@;
            out.push(u.clone());
            proof {
                assert(out@.map(|j: int, x: Url| x@) =~= seen.push(bs[i as int]));
                assert(unknown_rec(bs.skip(i as int), *state, seen) == seq![bs[i as int]]
                    + unknown_rec(bs.skip(i + 1), *state, seen.push(bs[i as int])));
                assert(seen + (seq![bs[i as int]] + unknown_rec(
                    bs.skip(i + 1),
                    *state,
                    seen.push(bs[i as int]),
                )) =~= seen.push(bs[i as int]) + unknown_rec(
                    bs.skip(i + 1),
                    *state,
                    seen.push(bs[i as int]),
                ));
            }
        }
    }
    proof {
        assert(bs.skip(n as int) =~= Seq::<(Seq<char>, u16)>::empty());
        assert(out@.map(|j: int, u: Url| u@) + Seq::<(Seq<char>, u16)>::empty() =~= out@.map(
            |j: int, u: Url| u@,
        ));
    }
    out
}

/// Discovery is sound and complete: the selection holds exactly the
/// brokers of the list that the pool lacks, each at most once.
pub proof fn lemma_unknown_brokers(bs: Seq<(Seq<char>, u16)>, st: ProxyState)
    ensures
        forall|j: int|
            0 <= j < bs.len() && !st.spec_contains(#[trigger] bs[j]) ==> unknown_spec(
                bs,
                st,
            ).contains(bs[j]),
        forall|x: (Seq<char>, u16)|
            unknown_spec(bs, st).contains(x) ==> bs.contains(x) && !st.spec_contains(x),
        forall|a: int, b: int|
            0 <= a < b < unknown_spec(bs, st).len() ==> unknown_spec(bs, st)[a] != unknown_spec(
                bs,
                st,
            )[b],
{
    lemma_unknown_rec(bs, st, Seq::empty());
}

#[verifier::rlimit(30)]
proof fn lemma_unknown_rec(bs: Seq<(Seq<char>, u16)>, st: ProxyState, seen: Seq<(Seq<char>, u16)>)
    ensures
        forall|j: int|
            0 <= j < bs.len() && !st.spec_contains(#[trigger] bs[j]) && !seen.contains(bs[j])
                ==> unknown_rec(bs, st, seen).contains(bs[j]),
        forall|x: (Seq<char>, u16)|
            #[trigger] unknown_rec(bs, st, seen).contains(x) ==> bs.contains(x)
                && !st.spec_contains(x) && !seen.contains(x),
        forall|a: int, b: int|
            0 <= a < b < unknown_rec(bs, st, seen).len() ==> unknown_rec(bs, st, seen)[a]
                != unknown_rec(bs, st, seen)[b],
    decreases bs.len(),
{
    if bs.len() == 0 {
    } else {
        let first = bs[0];
        let rest = bs.drop_first();
        assert(forall|j: int| 0 <= j < rest.len() ==> #[trigger] rest[j] == bs[j + 1]);
        if st.spec_contains(first) || seen.contains(first) {
            lemma_unknown_rec(rest, st, seen);
            let r = unknown_rec(bs, st, seen);
            assert forall|j: int|
                0 <= j < bs.len() && !st.spec_contains(#[trigger] bs[j]) && !seen.contains(
                    bs[j],
                ) implies r.contains(bs[j]) by {
                if j > 0 {
                    assert(rest[j - 1] == bs[j]);
                    assert(unknown_rec(rest, st, seen).contains(bs[j]));
                }
            }
            assert forall|x: (Seq<char>, u16)| #[trigger] r.contains(x) implies bs.contains(x)
                && !st.spec_contains(x) && !seen.contains(x) by {
                assert(unknown_rec(rest, st, seen).contains(x));
                assert(rest.contains(x));
                let j = choose|j: int| 0 <= j < rest.len() && rest[j] == x;
                assert(bs[j + 1] == x);
            }
            assert forall|a: int, b: int| 0 <= a < b < r.len() implies r[a] != r[b] by {
                assert(r[a] == unknown_rec(rest, st, seen)[a]);
                assert(r[b] == unknown_rec(rest, st, seen)[b]);
            }
        } else {
            let seen2 = seen.push(first);
            lemma_unknown_rec(rest, st, seen2);
            let tail = unknown_rec(rest, st, seen2);
            let r = unknown_rec(bs, st, seen);
            assert(r == seq![first] + tail);
            assert(r[0] == first);
            assert(forall|j: int| 0 <= j < tail.len() ==> #[trigger] r[j + 1] == tail[j]);
            assert forall|j: int|
                0 <= j < bs.len() && !st.spec_contains(#[trigger] bs[j]) && !seen.contains(
                    bs[j],
                ) implies r.contains(bs[j]) by {
                if j == 0 {
                    assert(r[0] == bs[0]);
                } else {
                    assert(rest[j - 1] == bs[j]);
                    if bs[j] == first {
                        assert(r[0] == bs[j]);
                    } else {
                        assert(!seen2.contains(bs[j])) by {
                            if seen2.contains(bs[j]) {
                                let q = choose|q: int|
                                    0 <= q < seen2.len() && seen2[q] == bs[j];
                                if q < seen.len() {
                                    assert(seen[q] == bs[j]);
                                } else {
                                    assert(seen2[q] == first);
                                }
                            }
                        }
                        assert(tail.contains(bs[j]));
                        let q = choose|q: int| 0 <= q < tail.len() && tail[q] == bs[j];
                        assert(r[q + 1] == bs[j]);
                        assert(r.contains(bs[j]));
                    }
                }
            }
            assert forall|x: (Seq<char>, u16)| #[trigger] r.contains(x) implies bs.contains(x)
                && !st.spec_contains(x) && !seen.contains(x) by {
                let j = choose|j: int| 0 <= j < r.len() && r[j] == x;
                if j == 0 {
                    assert(bs[0] == x);
                } else {
                    assert(tail[j - 1] == x);
                    assert(tail.contains(x));
                    assert(rest.contains(x));
                    let q = choose|q: int| 0 <= q < rest.len() && rest[q] == x;
                    assert(bs[q + 1] == x);
                    assert(!seen2.contains(x));
                    assert(!seen.contains(x)) by {
                        if seen.contains(x) {
                            let p = choose|p: int| 0 <= p < seen.len() && seen[p] == x;
                            assert(seen2[p] == x);
                        }
                    }
                }
            }
            assert forall|a: int, b: int|
                0 <= a < b < r.len() implies r[a] != r[b] by {
                if a == 0 {
                    assert(r[b] == tail[b - 1]);
                    assert(tail.contains(tail[b - 1]));
                    assert(!seen2.contains(tail[b - 1]));
                    if r[b] == first {
                        assert(seen2[seen2.len() - 1] == first);
                        assert(seen2.contains(first));
                    }
                } else {
                    assert(r[a] == tail[a - 1] && r[b] == tail[b - 1]);
                }
            }
        }
    }
}

/// The pool's port for a broker, with 0 standing in for an unknown one.
pub open spec fn forced_port(st: ProxyState, k: (Seq<char>, u16)) -> u16 {
    match st.spec_port(k) {
        Some(p) => p,
        None => 0,
    }
}

/// Whether every broker of the list has a tunnel in the pool.
pub open spec fn all_brokers_known(bs: Seq<(Seq<char>, u16)>, st: ProxyState) -> bool {
    forall|i: int| 0 <= i < bs.len() ==> st.spec_contains(#[trigger] bs[i])
}

/// Phase-2 rewrite, as a value: every broker's host becomes the public
/// host, its port the pool's port for its original address; order and
/// length are untouched.
pub open spec fn rewrite_spec(
    bs: Seq<(Seq<char>, u16)>,
    st: ProxyState,
    host: Seq<char>,
) -> Seq<(Seq<char>, u16)> {
    Seq::new(bs.len(), |i: int| (host, forced_port(st, bs[i])))
}

/// Metadata rewrite idempotence: on a response whose brokers already
/// point at the public host, with the pool recording each one's port for
/// itself, the rewrite changes nothing.
pub proof fn lemma_rewrite_idempotent(bs: Seq<(Seq<char>, u16)>, st: ProxyState, host: Seq<char>)
    requires
        forall|i: int|
            0 <= i < bs.len() ==> (#[trigger] bs[i]).0 == host && st.spec_port(bs[i]) == Some(
                bs[i].1,
            ),
    ensures
        rewrite_spec(bs, st, host) =~= bs,
{
}

/// Rewrite the advertised brokers of a decoded `Metadata` response so
/// that clients connect through the public tunnels: each broker's host
/// becomes the public host, its port the pool's port for its original
/// address.  Fails, leaving the response untouched, exactly when some
/// broker has no tunnel.
pub fn rewrite_metadata(m: &mut MetadataResponse, state: &ProxyState, public_host: &String) -> (r:
    Result<(), ErrorKind>)
    ensures
        r is Ok <==> all_brokers_known(metadata_brokers(*old(m)), *state),
        r is Ok ==> metadata_brokers(*final(m)) =~= rewrite_spec(
            metadata_brokers(*old(m)),
            *state,
            public_host@,
        ),
        r is Err ==> *final(m) == *old(m) && r == Err::<(), ErrorKind>(ErrorKind::UnknownBroker),
{
    let ghost obs = metadata_brokers(*old(m));
    let n = broker_count(m);
    for i in 0..n
        invariant
            *m == *old(m),
            n == metadata_brokers(*m).len(),
            obs == metadata_brokers(*old(m)),
            forall|j: int| 0 <= j < i ==> state.spec_contains(#[trigger] obs[j]),
    {
        let u = broker_at(m, i);
        if state.get_remote_port(&u).is_none() {
            return Err(ErrorKind::UnknownBroker);
        }
    }
    for i in 0..n
        invariant
            n == metadata_brokers(*m).len(),
            obs == metadata_brokers(*old(m)),
            obs.len() == n,
            all_brokers_known(obs, *state),
            metadata_brokers(*m) =~= Seq::new(
                n as nat,
                |j: int|
                    if j < i {
                        (public_host@, forced_port(*state, obs[j]))
                    } else {
                        obs[j]
                    },
            ),
    {
        let u = broker_at(m, i);
        proof {
            assert(u@ == obs[i as int]);
        }
        let p = match state.get_remote_port(&u) {
            Some(p) => p,
            None => vstd::pervasive::unreached(),
        };
        let ghost pre = metadata_brokers(*m);
        set_broker_endpoint(m, i, public_host, p);
        proof {
            assert(metadata_brokers(*m) =~= Seq::new(
                n as nat,
                |j: int|
                    if j < i + 1 {
                        (public_host@, forced_port(*state, obs[j]))
                    } else {
                        obs[j]
                    },
            ));
        }
    }
    proof {
        assert(metadata_brokers(*m) =~= rewrite_spec(obs, *state, public_host@));
    }
    Ok(())
}


/// State structure for the kafka proxy: the public host of the
/// rendezvous server, the optional authenticator, and the broker pool.
/// The network loops around it own the sockets; this type owns the
/// decisions.
pub struct KafkaProxy {
    /// Destination address of the rendezvous server.
    pub to: String,
    /// Optional secret used to authenticate with the rendezvous.
    pub auth: Option<Authenticator>,
    /// The broker pool: which brokers have a tunnel, on which public port.
    pub connections: ProxyState,
}

impl KafkaProxy {
    /// The broker pool.
    pub closed spec fn spec_connections(self) -> ProxyState {
        self.connections
    }

    /// Create a new kafka proxy with an empty pool.
    pub fn new(to: &str, secret: Option<&str>) -> (p: KafkaProxy)
        ensures
            p.to@ == to@,
            match secret {
                Some(s) => p.auth matches Some(a) && a.spec_key() == s.spec_bytes(),
                None => p.auth is None,
            },
            p.spec_connections().entries() =~= Seq::<((Seq<char>, u16), u16)>::empty(),
            p.spec_connections().wf(),
    {
        let auth = match secret {
            Some(s) => Some(Authenticator::new(s)),
            None => None,
        };
        let sec = match secret {
            Some(s) => Some(s.to_owned()),
            None => None,
        };
        KafkaProxy { to: to.to_owned(), auth, connections: ProxyState::new(sec) }
    }

    /// Read access to the broker pool.
    pub fn connections(&self) -> (r: &ProxyState)
        ensures
            *r == self.spec_connections(),
    {
        &self.connections
    }

    /// Record a tunnel for a broker in the pool; see
    /// `ProxyState::insert_broker`.
    pub fn insert_broker(&mut self, broker_local_url: Url, port: u16) -> (added: bool)
        requires
            port != 0,
        ensures
            added == !old(self).spec_connections().spec_contains(broker_local_url@),
            old(self).spec_connections().spec_contains(broker_local_url@)
                ==> final(self).spec_connections().entries()
                == old(self).spec_connections().entries(),
            !old(self).spec_connections().spec_contains(broker_local_url@)
                ==> final(self).spec_connections().entries()
                =~= old(self).spec_connections().entries().push((broker_local_url@, port)),
            old(self).spec_connections().wf() ==> final(self).spec_connections().wf(),
            final(self).spec_connections().spec_port(broker_local_url@) is Some,
            final(self).to == old(self).to,
            final(self).auth == old(self).auth,
    {
        self.connections.insert_broker(broker_local_url, port)
    }

    /// Rewrite the advertised brokers of a decoded `Metadata` response to
    /// point through the public tunnels; see `rewrite_metadata`.  The
    /// caller must first have opened a tunnel for every unknown broker
    /// (`unknown_brokers`) — a broker still missing fails the flow.
    pub fn adapt_metadata(&self, m: &mut MetadataResponse) -> (r: Result<(), ErrorKind>)
        ensures
            r is Ok <==> all_brokers_known(metadata_brokers(*old(m)), self.spec_connections()),
            r is Ok ==> metadata_brokers(*final(m)) =~= rewrite_spec(
                metadata_brokers(*old(m)),
                self.spec_connections(),
                self.to@,
            ),
            r is Err ==> *final(m) == *old(m) && r == Err::<(), ErrorKind>(
                ErrorKind::UnknownBroker,
            ),
    {
        rewrite_metadata(m, &self.connections, &self.to)
    }
}


/// One step of the response-carrying half of a flow, before any tunnel
/// is opened: either the frame passes through untouched, or it is a
/// selected `Metadata` response that still needs tunnels for the listed
/// brokers.
#[derive(Debug)]
pub enum ResponseStep {
    /// Forward these bytes — for an unselected frame, exactly the input.
    Forwarded(Vec<u8>),
    /// A decoded `Metadata` response: its version, raw header bytes,
    /// body, and the brokers that have no tunnel yet, each once, in
    /// order of first appearance.
    NeedTunnels(i16, Vec<u8>, MetadataResponse, Vec<Url>),
}


/// What `process_response_frame` owes for a selected frame, given the
/// registered version: an unsupported version is forwarded untouched; a
/// supported one is decoded — version, header bytes, the body's brokers
/// and the missing-tunnel selection all pinned — exactly when the frame
/// parses, and fails with a decode error exactly when it does not.
pub open spec fn selected_step_outcome(
    pool: ProxyState,
    registered: Option<i16>,
    frame: Seq<u8>,
    r: Result<ResponseStep, ErrorKind>,
) -> bool {
    match registered {
        Some(v) => match r {
            Ok(step) => match step {
                ResponseStep::Forwarded(out) => {
                    &&& !supported_metadata_version(v)
                    &&& out@ == frame
                },
                ResponseStep::NeedTunnels(version, header, body, missing) => {
                    &&& supported_metadata_version(v)
                    &&& selected_decode_ok(frame, v)
                    &&& version == v
                    &&& header@.len() == resp_header_len_of(frame.skip(4), v)
                    &&& 4 <= header@.len()
                    &&& 4 + header@.len() <= frame.len()
                    &&& header@ == frame.subrange(4, 4 + header@.len() as int)
                    &&& metadata_brokers(body) == decoded_brokers(
                        frame.skip(4 + header@.len() as int),
                        v,
                    )
                    &&& missing@.map(|i: int, u: Url| u@) == unknown_spec(
                        metadata_brokers(body),
                        pool,
                    )
                },
            },
            Err(e) => {
                &&& e == ErrorKind::Decode
                &&& supported_metadata_version(v)
                &&& !selected_decode_ok(frame, v)
            },
        },
        None => true,
    }
}

impl KafkaProxy {
    /// Process one frame of the response-carrying stream.  A frame whose
    /// correlation id is not registered is forwarded byte-for-byte
    /// (passthrough fidelity), as is one registered at a version the
    /// implementation does not understand; any other registered frame is
    /// decoded and comes back with the brokers that still need a tunnel.
    /// The caller opens those tunnels, records them, and then calls
    /// `finish_metadata`.
    pub fn process_response_frame(
        &self,
        codec: &mut KafkaServerCodec,
        frame: Vec<u8>,
    ) -> (r: Result<ResponseStep, ErrorKind>)
        requires
            old(codec).wf(),
        ensures
            final(codec).wf(),
            !old(codec).spec_selects(frame@) ==> {
                &&& *final(codec) == *old(codec)
                &&& r matches Ok(s) && s matches ResponseStep::Forwarded(out) && out@ == frame@
            },
            old(codec).spec_selects(frame@) ==> {
                &&& final(codec).registered(resp_correlation_id(frame@)) is None
                &&& forall|k2: u32|
                    k2 != resp_correlation_id(frame@) ==> final(codec).registered(k2) == old(
                        codec,
                    ).registered(k2)
                &&& selected_step_outcome(
                    self.spec_connections(),
                    old(codec).registered(resp_correlation_id(frame@)),
                    frame@,
                    r,
                )
            },
    {
        match codec.decode(frame) {
            Ok(KafkaResponse::UndecodedResponse(bytes)) => Ok(ResponseStep::Forwarded(bytes)),
            Ok(KafkaResponse::Metadata(version, header, body)) => {
                let listed = broker_list(&body);
                let missing = unknown_brokers(&listed, &self.connections);
                Ok(ResponseStep::NeedTunnels(version, header, body, missing))
            },
            Err(e) => Err(e),
        }
    }

    /// Finish a selected `Metadata` response once every missing broker
    /// has a tunnel: rewrite its brokers through the pool and re-encode
    /// it behind a fresh length prefix, keeping the original header
    /// bytes.  A broker still without a tunnel fails the flow with
    /// `UnknownBroker`; a re-serialization failure with `Encode`.
    pub fn finish_metadata(
        &self,
        version: i16,
        header: Vec<u8>,
        m: &mut MetadataResponse,
    ) -> (r: Result<Vec<u8>, ErrorKind>)
        ensures
            !all_brokers_known(metadata_brokers(*old(m)), self.spec_connections()) ==> {
                &&& r == Err::<Vec<u8>, ErrorKind>(ErrorKind::UnknownBroker)
                &&& *final(m) == *old(m)
            },
            all_brokers_known(metadata_brokers(*old(m)), self.spec_connections()) ==> {
                &&& metadata_brokers(*final(m)) =~= rewrite_spec(
                    metadata_brokers(*old(m)),
                    self.spec_connections(),
                    self.to@,
                )
                &&& match r {
                    Ok(out) => {
                        &&& response_body_encode_ok(*final(m), version)
                        &&& out@ == wrap_frame(
                            header@,
                            encoded_response_body(*final(m), version),
                        )
                        &&& is_complete_frame(out@)
                    },
                    Err(e) => {
                        &&& e == ErrorKind::Encode
                        &&& (!response_body_encode_ok(*final(m), version) || header@.len()
                            + encoded_response_body(*final(m), version).len() > u32::MAX)
                    },
                }
            },
    {
        match self.adapt_metadata(m) {
            Ok(()) => {},
            Err(e) => {
                return Err(e);
            },
        }
        encode_metadata_frame(&header, m, version)
    }
}

/// Correlation matching: on a fresh flow, after one request frame is
/// observed, the codec selects a response frame for decoding exactly
/// when that request was a `Metadata` request and the response carries
/// its correlation id — no false positives, no false negatives.
pub proof fn lemma_correlation_matching(
    c0: KafkaServerCodec,
    c1: KafkaServerCodec,
    req: Seq<u8>,
    resp: Seq<u8>,
)
    requires
        forall|k: u32| c0.registered(k) is None,
        is_metadata_request_frame(req) ==> c1.registered(req_correlation_id(req)) == Some(
            req_api_version(req),
        ) && forall|k2: u32|
            k2 != req_correlation_id(req) ==> c1.registered(k2) == c0.registered(k2),
        !is_metadata_request_frame(req) ==> c1 == c0,
        resp.len() >= 8,
    ensures
        c1.spec_selects(resp) <==> is_metadata_request_frame(req) && resp_correlation_id(resp)
            == req_correlation_id(req),
{
    if is_metadata_request_frame(req) {
        if resp_correlation_id(resp) != req_correlation_id(req) {
            assert(c1.registered(resp_correlation_id(resp)) == c0.registered(
                resp_correlation_id(resp),
            ));
        }
    } else {
        assert(c1.registered(resp_correlation_id(resp)) == c0.registered(
            resp_correlation_id(resp),
        ));
    }
}

} // verus!
