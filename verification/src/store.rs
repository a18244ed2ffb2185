//! The document store adapter: what the sync logic needs from the
//! external CRDT engine, stated over an abstract model.
//!
//! A document is modelled by the set of content hashes of the changes it
//! has taken in, applied or still queued behind missing dependencies.
//! Changes are immutable and content-addressed, so that set determines
//! everything the sync protocol reads: the heads and the changes missing
//! from a given frontier are named functions of it. The engine itself is
//! trusted only for the contracts written on the wrappers below, each of
//! which makes one engine call.

use vstd::prelude::*;

use crate::codec::ChangeRecord;
use crate::codec::ChangeHash;
use crate::codec::HASH_LEN;
use crate::codec::hash_views;

verus! {

/// Makes the engine's document type usable in signatures; its inside is
/// opaque here.
#[verifier::external_type_specification]
#[verifier::external_body]
pub struct ExAutoCommit(automerge::AutoCommit);

/// Makes the engine's change type usable in signatures; its inside is
/// opaque here.
#[verifier::external_type_specification]
#[verifier::external_body]
pub struct ExChange(automerge::Change);

/// Why the engine refused a batch.
#[derive(Clone, Copy, Debug, PartialEq, Eq, Structural)]
pub enum StoreError {
    /// The engine rejected the batch, for example over a forked actor
    /// sequence number; the document stays usable.
    EngineRejected,
}

/// The content hashes of the changes a document has taken in, applied or
/// queued. Immutable, content-addressed changes make this set the
/// document's history state.
pub uninterp spec fn doc_change_set(d: automerge::AutoCommit) -> Set<Seq<u8>>;

/// Whether the document has no transaction in progress. Every wrapper
/// below leaves the document settled; reading functions change nothing
/// else on a settled document.
pub uninterp spec fn doc_settled(d: automerge::AutoCommit) -> bool;

/// Whether the document tracks its own change graph: it has never been
/// put into an isolated view pinned to caller-chosen heads. An isolated
/// document reports the pinned heads instead of the graph's, so only a
/// tracking document's heads are a function of its change set. Fresh
/// documents track; none of the engine calls wrapped here isolates.
pub uninterp spec fn doc_tracked(d: automerge::AutoCommit) -> bool;

/// The heads of the change graph spanned by the change set `s`: the
/// hashes of its applied changes that no other applied change depends
/// on, in sorted order. A function of the change set alone, since the
/// content hashes determine the graph; the engine reports exactly this
/// for a document that tracks its graph.
pub uninterp spec fn heads_of(s: Set<Seq<u8>>) -> Seq<Seq<u8>>;

/// The hashes of the changes a document with change set `s` holds beyond
/// the given frontier: what the engine serves to a peer that already has
/// `frontier`. A function of the change set and the frontier alone.
pub uninterp spec fn missing_of(s: Set<Seq<u8>>, frontier: Seq<Seq<u8>>) -> Set<Seq<u8>>;

/// The content hash of one engine change value.
pub uninterp spec fn change_hash_of(c: automerge::Change) -> Seq<u8>;

/// The stored byte record of one engine change value.
pub uninterp spec fn change_bytes_of(c: automerge::Change) -> Seq<u8>;

/// The content hash of the change encoded by a byte record, where the
/// record encodes one.
pub uninterp spec fn hash_of_change_bytes(b: Seq<u8>) -> Seq<u8>;

/// Whether a byte record spells one well-formed change: parsing depends
/// on the bytes alone.
pub uninterp spec fn parses_change(b: Seq<u8>) -> bool;

/// The content hashes of a sequence of engine changes, in order.
pub open spec fn change_seq_hashes(cs: Seq<automerge::Change>) -> Seq<Seq<u8>> {
    cs.map_values(|c: automerge::Change| change_hash_of(c))
}

/// The stored byte records of a sequence of engine changes, in order.
pub open spec fn change_seq_bytes(cs: Seq<automerge::Change>) -> Seq<Seq<u8>> {
    cs.map_values(|c: automerge::Change| change_bytes_of(c))
}

/// The content hashes of a batch of wire byte records.
pub open spec fn frame_hashes(frames: Seq<Seq<u8>>) -> Set<Seq<u8>> {
    frames.map_values(|b: Seq<u8>| hash_of_change_bytes(b)).to_set()
}

/// Applying the same batch twice leaves the same heads as applying it
/// once: taking the batch's hashes into the change set a second time
/// changes nothing, and the heads are a function of the change set.
pub proof fn lemma_apply_idempotent(s: Set<Seq<u8>>, batch: Set<Seq<u8>>)
    ensures
        heads_of(s.union(batch).union(batch)) == heads_of(s.union(batch)),
{
    assert(s.union(batch).union(batch) =~= s.union(batch));
}

/// Relies on `automerge::AutoCommit::new`: a fresh document holds no
/// changes and has no transaction open, and the engine reports no heads
/// for it.
#[verifier::external_body]
pub fn new_document() -> (d: automerge::AutoCommit)
    ensures
        doc_change_set(d) == Set::<Seq<u8>>::empty(),
        doc_settled(d),
        doc_tracked(d),
        heads_of(doc_change_set(d)) == Seq::<Seq<u8>>::empty(),
{
    automerge::AutoCommit::new()
}

/// Relies on `automerge::AutoCommit::get_heads`: on a document that
/// tracks its graph it closes any open transaction, which can only add
/// to the change set, and returns the sorted graph heads, each a hash
/// the document holds. Nothing here isolates, so tracking is kept.
#[verifier::external_body]
pub fn document_heads(d: &mut automerge::AutoCommit) -> (r: Vec<ChangeHash>)
    requires
        doc_tracked(*old(d)),
    ensures
        doc_tracked(*final(d)),
        doc_settled(*final(d)),
        doc_change_set(*old(d)).subset_of(doc_change_set(*final(d))),
        doc_settled(*old(d)) ==> doc_change_set(*final(d)) == doc_change_set(*old(d)),
        hash_views(r@) == heads_of(doc_change_set(*final(d))),
        forall|i: int| 0 <= i < r@.len() ==> #[trigger] r@[i].bytes@.len() == HASH_LEN
            && doc_change_set(*final(d)).contains(r@[i].bytes@),
{
    let heads = d.get_heads();
    heads.into_iter().map(|h| ChangeHash { bytes: h.0.to_vec() }).collect()
}

/// Relies on `automerge::AutoCommit::get_changes`: it closes any open
/// transaction, which can only add to the change set, and returns the
/// document's changes beyond the given frontier, each held by the
/// document. A frontier that is exactly the document's heads leaves
/// nothing to serve, and the empty frontier yields the applied history,
/// whose own graph heads are the document's.
#[verifier::external_body]
pub fn document_changes_since(
    d: &mut automerge::AutoCommit,
    frontier: &Vec<ChangeHash>,
) -> (r: Vec<automerge::Change>)
    requires
        forall|i: int| 0 <= i < frontier@.len() ==> #[trigger] frontier@[i].bytes@.len()
            == HASH_LEN,
    ensures
        doc_settled(*final(d)),
        doc_tracked(*old(d)) ==> doc_tracked(*final(d)),
        doc_change_set(*old(d)).subset_of(doc_change_set(*final(d))),
        doc_settled(*old(d)) ==> doc_change_set(*final(d)) == doc_change_set(*old(d)),
        change_seq_hashes(r@).to_set() == missing_of(
            doc_change_set(*final(d)),
            hash_views(frontier@),
        ),
        forall|i: int| 0 <= i < r@.len() ==> doc_change_set(*final(d)).contains(
            #[trigger] change_hash_of(r@[i]),
        ),
        hash_views(frontier@) == heads_of(doc_change_set(*final(d))) ==> r@.len() == 0,
        frontier@.len() == 0 ==> heads_of(change_seq_hashes(r@).to_set()) == heads_of(
            doc_change_set(*final(d)),
        ),
{
    let deps: Vec<automerge::ChangeHash> = frontier.iter().map(
        |h: &ChangeHash|
            {
                let mut raw = [0u8; 32];
                raw.copy_from_slice(h.bytes.as_slice());
                automerge::ChangeHash(raw)
            },
    ).collect();
    d.get_changes(deps.as_slice())
}

/// Relies on `automerge::AutoCommit::apply_changes`: on success every
/// change of the batch is taken in (already-known changes are skipped,
/// so re-application is harmless) and nothing is lost; a batch whose
/// every change the document already holds, the empty batch included,
/// is always accepted, since each is skipped before any check can
/// refuse it; on failure the document stays usable but nothing more is
/// said of its change set.
#[verifier::external_body]
pub fn document_apply(d: &mut automerge::AutoCommit, batch: Vec<automerge::Change>) -> (r: Result<
    (),
    StoreError,
>)
    ensures
        doc_settled(*final(d)),
        doc_tracked(*old(d)) ==> doc_tracked(*final(d)),
        (forall|i: int| 0 <= i < batch@.len() ==> doc_change_set(*old(d)).contains(
            #[trigger] change_hash_of(batch@[i]),
        )) ==> r is Ok,
        r is Ok ==> doc_change_set(*old(d)).subset_of(doc_change_set(*final(d))),
        r is Ok ==> forall|i: int| 0 <= i < batch@.len() ==> doc_change_set(*final(d)).contains(
            #[trigger] change_hash_of(batch@[i]),
        ),
        doc_settled(*old(d)) && r is Ok ==> doc_change_set(*final(d)) == doc_change_set(
            *old(d),
        ).union(change_seq_hashes(batch@).to_set()),
{
    d.apply_changes(batch).map_err(|_| StoreError::EngineRejected)
}

/// Relies on `automerge::Change::from_bytes`: whether a byte record
/// parses depends on the bytes alone, and a record that parses yields
/// the change it encodes, whose content hash is that record's.
#[verifier::external_body]
pub fn parse_change(bytes: &Vec<u8>) -> (r: Option<automerge::Change>)
    ensures
        r is Some <==> parses_change(bytes@),
        r matches Some(c) ==> change_hash_of(c) == hash_of_change_bytes(bytes@),
{
    automerge::Change::from_bytes(bytes.clone()).ok()
}

/// Relies on `automerge::Change::raw_bytes`: the stored byte record of a
/// change, which re-parses to a change with the same content hash.
#[verifier::external_body]
pub fn change_bytes(c: &automerge::Change) -> (r: Vec<u8>)
    ensures
        r@ == change_bytes_of(*c),
        hash_of_change_bytes(r@) == change_hash_of(*c),
{
    c.raw_bytes().to_vec()
}

/// Converts engine changes into wire changes: each one's stored byte
/// record, in order.
pub fn changes_to_wire(cs: &Vec<automerge::Change>) -> (r: Vec<ChangeRecord>)
    ensures
        crate::codec::change_views(r@) == change_seq_bytes(cs@),
        forall|i: int| 0 <= i < r@.len() ==> #[trigger] crate::codec::change_views(r@)[i].len()
            <= usize::MAX,
        forall|i: int| 0 <= i < r@.len() ==> #[trigger] hash_of_change_bytes(
            crate::codec::change_views(r@)[i],
        ) == change_seq_hashes(cs@)[i],
{
    let mut out: Vec<ChangeRecord> = Vec::new();
    let mut i: usize = 0;
    while i < cs.len()
        invariant
            i <= cs@.len(),
            crate::codec::change_views(out@) == change_seq_bytes(cs@).take(i as int),
            forall|k: int| 0 <= k < out@.len() ==> #[trigger] crate::codec::change_views(
                out@,
            )[k].len() <= usize::MAX,
            forall|k: int| 0 <= k < out@.len() ==> #[trigger] hash_of_change_bytes(
                crate::codec::change_views(out@)[k],
            ) == change_seq_hashes(cs@)[k],
        decreases cs@.len() - i,
    {
        let rec = ChangeRecord { data: change_bytes(&cs[i]) };
        let rec_len: usize = rec.data.len();
        proof {
            assert(rec.data@.len() == rec_len);
        }
        let ghost recd = rec.data@;
        let ghost prev = out@;
        out.push(rec);
        proof {
            assert(prev.len() == i) by {
                assert(crate::codec::change_views(prev).len() == i);
            };
            assert(crate::codec::change_views(out@) =~= change_seq_bytes(cs@).take(i + 1)) by {
                assert forall|k: int| 0 <= k < i + 1 implies crate::codec::change_views(out@)[k]
                    == change_seq_bytes(cs@).take(i + 1)[k] by {
                    if k < i {
                        assert(out@[k] == prev[k]);
                        assert(crate::codec::change_views(prev)[k] == change_seq_bytes(
                            cs@,
                        ).take(i as int)[k]);
                    } else {
                        assert(out@[k].data@ == recd);
                    }
                }
            };
        }
        i = i + 1;
    }
    proof {
        assert(change_seq_bytes(cs@).take(cs@.len() as int) =~= change_seq_bytes(cs@));
    }
    out
}

} // verus!
