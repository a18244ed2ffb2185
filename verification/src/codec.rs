//! Wire codec for the two sync payloads: a causal frontier (a sequence of
//! fixed-width change hashes) and a change batch (a sequence of opaque,
//! length-delimited change records).
//!
//! A frontier is encoded as the plain concatenation of its 32-byte hashes,
//! so a well-formed encoding is exactly one whose length is a whole number
//! of hashes. A change batch is encoded as one length-prefixed frame per
//! change. Both encodings round-trip exactly, including the empty cases.

use vstd::prelude::*;

verus! {

/// The number of bytes in one change hash.
pub const HASH_LEN: usize = 32;

/// A fixed-width, bytewise-equal identifier of one atomic document change.
#[derive(Clone, Debug, PartialEq, Eq)]
pub struct ChangeHash {
    pub bytes: Vec<u8>,
}

impl ChangeHash {
    /// A well-formed identifier holds exactly `HASH_LEN` bytes.
    pub open spec fn wf(self) -> bool {
        self.bytes@.len() == HASH_LEN
    }

    /// Wraps raw bytes as a hash identifier; rejects any other width.
    pub fn new(bytes: Vec<u8>) -> (r: Option<ChangeHash>)
        ensures
            r is Some <==> bytes@.len() == HASH_LEN,
            r matches Some(h) ==> h.bytes@ == bytes@ && h.wf(),
    {
        if bytes.len() == HASH_LEN {
            Some(ChangeHash { bytes })
        } else {
            None
        }
    }
}

/// One atomic document change as it travels on the wire: the opaque byte
/// record produced by the document engine, carried without interpretation.
#[derive(Clone, Debug, PartialEq, Eq)]
pub struct ChangeRecord {
    pub data: Vec<u8>,
}

/// Why a wire payload was rejected.
#[derive(Clone, Copy, Debug, PartialEq, Eq, Structural)]
pub enum DecodeError {
    /// The bytes do not spell a whole number of well-formed records.
    MalformedInput,
}

/// The byte sequences held by a sequence of hash identifiers.
pub open spec fn hash_views(hashes: Seq<ChangeHash>) -> Seq<Seq<u8>> {
    hashes.map_values(|h: ChangeHash| h.bytes@)
}

/// The byte records held by a sequence of wire changes.
pub open spec fn change_views(changes: Seq<ChangeRecord>) -> Seq<Seq<u8>> {
    changes.map_values(|c: ChangeRecord| c.data@)
}

/// The encoding of a frontier: the concatenation of its hashes.
pub open spec fn spec_encode_frontier(hashes: Seq<Seq<u8>>) -> Seq<u8>
    decreases hashes.len(),
{
    if hashes.len() == 0 {
        Seq::empty()
    } else {
        hashes[0] + spec_encode_frontier(hashes.skip(1))
    }
}

/// The decoding of a frontier encoding: its consecutive 32-byte chunks.
/// Meaningful only when the length is a whole number of hashes.
pub open spec fn spec_split_frontier(bytes: Seq<u8>) -> Seq<Seq<u8>>
    decreases bytes.len(),
{
    if bytes.len() < HASH_LEN {
        Seq::empty()
    } else {
        seq![bytes.take(HASH_LEN as int)] + spec_split_frontier(bytes.skip(HASH_LEN as int))
    }
}

proof fn lemma_encode_frontier_push(hashes: Seq<Seq<u8>>, h: Seq<u8>)
    ensures
        spec_encode_frontier(hashes.push(h)) == spec_encode_frontier(hashes) + h,
    decreases hashes.len(),
{
    if hashes.len() == 0 {
        assert(hashes.push(h).skip(1) =~= Seq::<Seq<u8>>::empty());
        assert(spec_encode_frontier(Seq::<Seq<u8>>::empty()) == Seq::<u8>::empty());
        assert(hashes.push(h)[0] == h);
        assert(spec_encode_frontier(hashes.push(h)) =~= spec_encode_frontier(hashes) + h);
    } else {
        assert(hashes.push(h).skip(1) =~= hashes.skip(1).push(h));
        lemma_encode_frontier_push(hashes.skip(1), h);
        assert(spec_encode_frontier(hashes.push(h)) =~= spec_encode_frontier(hashes) + h);
    }
}

/// The length of a frontier encoding: one hash width per hash.
pub proof fn lemma_encode_frontier_len(hashes: Seq<Seq<u8>>)
    requires
        forall|i: int| 0 <= i < hashes.len() ==> #[trigger] hashes[i].len() == HASH_LEN,
    ensures
        spec_encode_frontier(hashes).len() == HASH_LEN * hashes.len(),
    decreases hashes.len(),
{
    if hashes.len() > 0 {
        lemma_encode_frontier_len(hashes.skip(1));
    }
}

/// Round trip: splitting the encoding of any frontier gives back exactly
/// the hashes that were encoded, and the encoding is well-formed.
pub proof fn lemma_frontier_roundtrip(hashes: Seq<Seq<u8>>)
    requires
        forall|i: int| 0 <= i < hashes.len() ==> #[trigger] hashes[i].len() == HASH_LEN,
    ensures
        (spec_encode_frontier(hashes).len() as int) % (HASH_LEN as int) == 0,
        spec_split_frontier(spec_encode_frontier(hashes)) == hashes,
    decreases hashes.len(),
{
    lemma_encode_frontier_len(hashes);
    let enc = spec_encode_frontier(hashes);
    if hashes.len() == 0 {
        assert(spec_split_frontier(enc) =~= hashes);
    } else {
        let rest = hashes.skip(1);
        lemma_frontier_roundtrip(rest);
        lemma_encode_frontier_len(rest);
        assert(enc.take(HASH_LEN as int) =~= hashes[0]);
        assert(enc.skip(HASH_LEN as int) =~= spec_encode_frontier(rest));
        assert(spec_split_frontier(enc) =~= hashes);
    }
}

/// Serializes a frontier for the wire: the concatenation of its hashes.
pub fn serialize_change_hashes(hashes: &Vec<ChangeHash>) -> (r: Vec<u8>)
    requires
        forall|i: int| 0 <= i < hashes@.len() ==> #[trigger] hashes@[i].wf(),
    ensures
        r@ == spec_encode_frontier(hash_views(hashes@)),
{
    let mut out: Vec<u8> = Vec::new();
    let mut i: usize = 0;
    while i < hashes.len()
        invariant
            i <= hashes@.len(),
            forall|k: int| 0 <= k < hashes@.len() ==> #[trigger] hashes@[k].wf(),
            out@ == spec_encode_frontier(hash_views(hashes@).take(i as int)),
        decreases hashes@.len() - i,
    {
        out.extend_from_slice(hashes[i].bytes.as_slice());
        proof {
            let views = hash_views(hashes@);
            lemma_encode_frontier_push(views.take(i as int), views[i as int]);
            assert(views.take(i + 1) =~= views.take(i as int).push(views[i as int]));
        }
        i = i + 1;
    }
    proof {
        assert(hash_views(hashes@).take(hashes@.len() as int) =~= hash_views(hashes@));
    }
    out
}

/// Deserializes a frontier from the wire. Succeeds exactly when the byte
/// length is a whole number of hashes; the result is the sequence of
/// 32-byte hashes in order.
pub fn deserialize_change_hashes(bytes: &Vec<u8>) -> (r: Result<Vec<ChangeHash>, DecodeError>)
    ensures
        r is Ok <==> (bytes@.len() as int) % (HASH_LEN as int) == 0,
        r matches Ok(v) ==> hash_views(v@) == spec_split_frontier(bytes@)
            && forall|i: int| 0 <= i < v@.len() ==> #[trigger] v@[i].wf(),
{
    if bytes.len() % HASH_LEN != 0 {
        return Err(DecodeError::MalformedInput);
    }
    let mut out: Vec<ChangeHash> = Vec::new();
    let mut pos: usize = 0;
    while pos < bytes.len()
        invariant
            pos <= bytes@.len(),
            pos % HASH_LEN == 0,
            (bytes@.len() as int) % (HASH_LEN as int) == 0,
            hash_views(out@) == spec_split_frontier(bytes@.take(pos as int)),
            forall|i: int| 0 <= i < out@.len() ==> #[trigger] out@[i].wf(),
        decreases bytes@.len() - pos,
    {
        assert(bytes@.len() - pos >= HASH_LEN) by {
            assert((bytes@.len() - pos) % (HASH_LEN as int) == 0);
        };
        let mut chunk: Vec<u8> = Vec::new();
        let mut j: usize = 0;
        while j < HASH_LEN
            invariant
                j <= HASH_LEN,
                pos + HASH_LEN <= bytes@.len() <= usize::MAX,
                chunk@ == bytes@.subrange(pos as int, pos + j),
            decreases HASH_LEN - j,
        {
            chunk.push(bytes[pos + j]);
            assert(chunk@ =~= bytes@.subrange(pos as int, pos + j + 1));
            j = j + 1;
        }
        out.push(ChangeHash { bytes: chunk });
        proof {
            lemma_split_prefix_step(bytes@, pos as int);
        }
        pos = pos + HASH_LEN;
    }
    proof {
        assert(bytes@.take(bytes@.len() as int) =~= bytes@);
    }
    Ok(out)
}

/// The eight little-endian bytes of a frame length.
pub open spec fn le64(n: u64) -> Seq<u8> {
    seq![
        n as u8,
        (n >> 8) as u8,
        (n >> 16) as u8,
        (n >> 24) as u8,
        (n >> 32) as u8,
        (n >> 40) as u8,
        (n >> 48) as u8,
        (n >> 56) as u8,
    ]
}

/// The frame length spelled by eight little-endian bytes.
pub open spec fn le64_val(s: Seq<u8>) -> u64 {
    (s[0] as u64) | (s[1] as u64) << 8 | (s[2] as u64) << 16 | (s[3] as u64) << 24 | (
    s[4] as u64) << 32 | (s[5] as u64) << 40 | (s[6] as u64) << 48 | (s[7] as u64) << 56
}

/// Reading back the eight little-endian bytes of a length yields the length.
pub proof fn lemma_le64_roundtrip(n: u64)
    ensures
        le64_val(le64(n)) == n,
{
    assert(((n as u8) as u64) | ((((n >> 8) as u8) as u64) << 8) | ((((n >> 16) as u8) as u64)
        << 16) | ((((n >> 24) as u8) as u64) << 24) | ((((n >> 32) as u8) as u64) << 32) | ((((
    n >> 40) as u8) as u64) << 40) | ((((n >> 48) as u8) as u64) << 48) | ((((n >> 56) as u8)
        as u64) << 56) == n) by (bit_vector);
}

/// The encoding of a change batch: one length-prefixed frame per change.
pub open spec fn spec_encode_changes(frames: Seq<Seq<u8>>) -> Seq<u8>
    decreases frames.len(),
{
    if frames.len() == 0 {
        Seq::empty()
    } else {
        le64(frames[0].len() as u64) + frames[0] + spec_encode_changes(frames.skip(1))
    }
}

/// The decoding of a change batch: the framed records in order, or nothing
/// when a frame is truncated or the prefix bytes are missing.
pub open spec fn spec_decode_changes(bytes: Seq<u8>) -> Option<Seq<Seq<u8>>>
    decreases bytes.len(),
{
    if bytes.len() == 0 {
        Some(Seq::empty())
    } else if bytes.len() < 8 {
        None
    } else {
        let n = le64_val(bytes.take(8)) as int;
        if 8 + n > bytes.len() {
            None
        } else {
            match spec_decode_changes(bytes.skip(8 + n)) {
                None => None,
                Some(rest) => Some(seq![bytes.subrange(8, 8 + n)] + rest),
            }
        }
    }
}

proof fn lemma_encode_changes_push(frames: Seq<Seq<u8>>, f: Seq<u8>)
    ensures
        spec_encode_changes(frames.push(f)) == spec_encode_changes(frames) + le64(
            f.len() as u64,
        ) + f,
    decreases frames.len(),
{
    if frames.len() == 0 {
        assert(frames.push(f).skip(1) =~= Seq::<Seq<u8>>::empty());
        assert(spec_encode_changes(Seq::<Seq<u8>>::empty()) == Seq::<u8>::empty());
        assert(frames.push(f)[0] == f);
        assert(spec_encode_changes(frames.push(f)) =~= spec_encode_changes(frames) + le64(
            f.len() as u64,
        ) + f);
    } else {
        assert(frames.push(f).skip(1) =~= frames.skip(1).push(f));
        lemma_encode_changes_push(frames.skip(1), f);
        assert(spec_encode_changes(frames.push(f)) =~= spec_encode_changes(frames) + le64(
            f.len() as u64,
        ) + f);
    }
}

/// Round trip: decoding the encoding of any change batch gives back
/// exactly the framed records, including the empty batch.
pub proof fn lemma_changes_roundtrip(frames: Seq<Seq<u8>>)
    requires
        forall|i: int| 0 <= i < frames.len() ==> #[trigger] frames[i].len() <= u64::MAX,
    ensures
        spec_decode_changes(spec_encode_changes(frames)) == Some(frames),
    decreases frames.len(),
{
    let enc = spec_encode_changes(frames);
    if frames.len() == 0 {
        assert(spec_decode_changes(enc) =~= Some(frames));
    } else {
        let f = frames[0];
        let rest = frames.skip(1);
        lemma_changes_roundtrip(rest);
        let n = f.len() as u64;
        lemma_le64_roundtrip(n);
        assert(enc.take(8) =~= le64(n));
        assert(enc.len() >= 8 + f.len());
        assert(enc.subrange(8, 8 + n as int) =~= f);
        assert(enc.skip(8 + n as int) =~= spec_encode_changes(rest));
        assert(seq![f] + rest =~= frames);
        assert(spec_decode_changes(enc) == Some(frames));
    }
}

/// Reads a little-endian length prefix out of a payload.
fn read_le64(bytes: &Vec<u8>, pos: usize) -> (r: u64)
    requires
        pos + 8 <= bytes@.len(),
    ensures
        r == le64_val(bytes@.subrange(pos as int, pos + 8)),
{
    let len_bound: usize = bytes.len();
    proof {
        assert(bytes@.len() == len_bound);
    }
    let s = Ghost(bytes@.subrange(pos as int, pos + 8));
    let r = (bytes[pos] as u64) | (bytes[pos + 1] as u64) << 8u64 | (bytes[pos + 2] as u64)
        << 16u64 | (bytes[pos + 3] as u64) << 24u64 | (bytes[pos + 4] as u64) << 32u64 | (
    bytes[pos + 5] as u64) << 40u64 | (bytes[pos + 6] as u64) << 48u64 | (bytes[pos + 7] as u64)
        << 56u64;
    proof {
        assert(s@[0] == bytes@[pos as int]);
        assert(s@[1] == bytes@[pos + 1]);
        assert(s@[2] == bytes@[pos + 2]);
        assert(s@[3] == bytes@[pos + 3]);
        assert(s@[4] == bytes@[pos + 4]);
        assert(s@[5] == bytes@[pos + 5]);
        assert(s@[6] == bytes@[pos + 6]);
        assert(s@[7] == bytes@[pos + 7]);
    }
    r
}

/// Appends the eight little-endian bytes of a frame length.
fn push_le64(out: &mut Vec<u8>, n: u64)
    ensures
        final(out)@ == old(out)@ + le64(n),
{
    out.push(n as u8);
    out.push((n >> 8u64) as u8);
    out.push((n >> 16u64) as u8);
    out.push((n >> 24u64) as u8);
    out.push((n >> 32u64) as u8);
    out.push((n >> 40u64) as u8);
    out.push((n >> 48u64) as u8);
    out.push((n >> 56u64) as u8);
    assert(out@ =~= old(out)@ + le64(n));
}

/// Serializes a change batch for the wire: one length-prefixed frame per
/// change, in order.
pub fn serialize_changes(changes: &Vec<ChangeRecord>) -> (r: Vec<u8>)
    ensures
        r@ == spec_encode_changes(change_views(changes@)),
{
    let mut out: Vec<u8> = Vec::new();
    let mut i: usize = 0;
    while i < changes.len()
        invariant
            i <= changes@.len(),
            out@ == spec_encode_changes(change_views(changes@).take(i as int)),
        decreases changes@.len() - i,
    {
        let n: usize = changes[i].data.len();
        push_le64(&mut out, n as u64);
        out.extend_from_slice(changes[i].data.as_slice());
        proof {
            let views = change_views(changes@);
            lemma_encode_changes_push(views.take(i as int), views[i as int]);
            assert(views.take(i + 1) =~= views.take(i as int).push(views[i as int]));
            assert(out@ =~= spec_encode_changes(views.take(i + 1)));
        }
        i = i + 1;
    }
    proof {
        assert(change_views(changes@).take(changes@.len() as int) =~= change_views(changes@));
    }
    out
}

/// Deserializes a change batch from the wire. Succeeds exactly when the
/// bytes spell whole, length-prefixed frames back to back; the result
/// holds the framed records in order. An empty payload is the empty batch.
pub fn deserialize_changes(bytes: &Vec<u8>) -> (r: Result<Vec<ChangeRecord>, DecodeError>)
    ensures
        r is Ok <==> spec_decode_changes(bytes@) is Some,
        r matches Ok(v) ==> Some(change_views(v@)) == spec_decode_changes(bytes@),
{
    let mut out: Vec<ChangeRecord> = Vec::new();
    let mut pos: usize = 0;
    let len: usize = bytes.len();
    proof {
        assert(bytes@.skip(0) =~= bytes@);
        if spec_decode_changes(bytes@) is Some {
            let rest = spec_decode_changes(bytes@).unwrap();
            assert(change_views(out@) + rest =~= rest);
        }
    }
    while pos < len
        invariant
            pos <= len,
            len == bytes@.len(),
            spec_decode_changes(bytes@) == (match spec_decode_changes(bytes@.skip(pos as int)) {
                None => None::<Seq<Seq<u8>>>,
                Some(rest) => Some(change_views(out@) + rest),
            }),
        decreases len - pos,
    {
        let ghost tail = bytes@.skip(pos as int);
        if len - pos < 8 {
            assert(spec_decode_changes(tail) is None);
            return Err(DecodeError::MalformedInput);
        }
        let n: u64 = read_le64(bytes, pos);
        proof {
            assert(tail.take(8) =~= bytes@.subrange(pos as int, pos + 8));
        }
        if n > (len - pos - 8) as u64 {
            assert(spec_decode_changes(tail) is None);
            return Err(DecodeError::MalformedInput);
        }
        let frame_len: usize = n as usize;
        let start: usize = pos + 8;
        let mut frame: Vec<u8> = Vec::new();
        let mut j: usize = 0;
        while j < frame_len
            invariant
                j <= frame_len,
                start + frame_len <= bytes@.len() <= usize::MAX,
                frame@ == bytes@.subrange(start as int, start + j),
            decreases frame_len - j,
        {
            frame.push(bytes[start + j]);
            assert(frame@ =~= bytes@.subrange(start as int, start + j + 1));
            j = j + 1;
        }
        proof {
            assert(tail.subrange(8, 8 + n as int) =~= bytes@.subrange(
                start as int,
                start + frame_len,
            ));
            assert(tail.skip(8 + n as int) =~= bytes@.skip(start + frame_len));
        }
        let ghost prev = out@;
        out.push(ChangeRecord { data: frame });
        proof {
            assert(change_views(out@) =~= change_views(prev) + seq![frame@]);
            let rest_opt = spec_decode_changes(bytes@.skip(start + frame_len));
            if rest_opt is Some {
                let rest = rest_opt.unwrap();
                assert(spec_decode_changes(tail) == Some(seq![frame@] + rest));
                assert(change_views(prev) + (seq![frame@] + rest) =~= change_views(out@) + rest);
            }
        }
        pos = start + frame_len;
    }
    proof {
        assert(bytes@.skip(len as int) =~= Seq::<u8>::empty());
        assert(spec_decode_changes(Seq::<u8>::empty()) == Some(Seq::<Seq<u8>>::empty()));
        assert(change_views(out@) + Seq::<Seq<u8>>::empty() =~= change_views(out@));
    }
    Ok(out)
}

/// Taking one more whole chunk of the input extends the split by that chunk.
proof fn lemma_split_prefix_step(bytes: Seq<u8>, pos: int)
    requires
        0 <= pos,
        pos % (HASH_LEN as int) == 0,
        pos + HASH_LEN <= bytes.len(),
    ensures
        spec_split_frontier(bytes.take(pos + HASH_LEN))
            == spec_split_frontier(bytes.take(pos)).push(bytes.subrange(pos, pos + HASH_LEN)),
    decreases pos,
{
    if pos == 0 {
        assert(bytes.take(HASH_LEN as int).take(HASH_LEN as int) =~= bytes.take(
            HASH_LEN as int,
        ));
        assert(bytes.take(HASH_LEN as int).skip(HASH_LEN as int) =~= Seq::<u8>::empty());
        assert(bytes.take(0) =~= Seq::<u8>::empty());
        assert(spec_split_frontier(bytes.take(HASH_LEN as int)) =~= spec_split_frontier(
            bytes.take(0),
        ).push(bytes.subrange(0, HASH_LEN as int)));
    } else {
        assert(pos >= HASH_LEN) by {
            assert(pos % (HASH_LEN as int) == 0);
        };
        let tail = bytes.skip(HASH_LEN as int);
        lemma_split_prefix_step(tail, pos - HASH_LEN);
        assert(bytes.take(pos + HASH_LEN).take(HASH_LEN as int) =~= bytes.take(HASH_LEN as int));
        assert(bytes.take(pos).take(HASH_LEN as int) =~= bytes.take(HASH_LEN as int));
        assert(bytes.take(pos + HASH_LEN).skip(HASH_LEN as int) =~= tail.take(pos));
        assert(bytes.take(pos).skip(HASH_LEN as int) =~= tail.take(pos - HASH_LEN));
        assert(tail.subrange(pos - HASH_LEN, pos) =~= bytes.subrange(pos, pos + HASH_LEN));
        assert(spec_split_frontier(bytes.take(pos + HASH_LEN)) =~= spec_split_frontier(
            bytes.take(pos),
        ).push(bytes.subrange(pos, pos + HASH_LEN)));
    }
}

} // verus!
