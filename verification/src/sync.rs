//! The pairwise synchronization logic: serving a peer's request for the
//! changes it is missing, building this node's own pull request, taking
//! a pull reply into the document, planning a pull cycle from the
//! registry's answer, and telling which transport failures deserve a log
//! line. The network itself stays outside; every function here maps
//! plain bytes and state to plain bytes and state.

use vstd::prelude::*;

use crate::codec::ChangeRecord;
use crate::codec::DecodeError;
use crate::codec::HASH_LEN;
use crate::codec::change_views;
use crate::codec::deserialize_change_hashes;
use crate::codec::deserialize_changes;
use crate::codec::hash_views;
use crate::codec::lemma_changes_roundtrip;
use crate::codec::lemma_frontier_roundtrip;
use crate::codec::serialize_change_hashes;
use crate::codec::serialize_changes;
use crate::codec::spec_decode_changes;
use crate::codec::spec_encode_changes;
use crate::codec::spec_encode_frontier;
use crate::codec::spec_split_frontier;
use crate::peer::PeerAddress;
use crate::peer::parse_peer_list;
use crate::peer::spec_render_peer_list;
use crate::registry::HttpResponse;
use crate::store::change_hash_of;
use crate::store::change_seq_bytes;
use crate::store::change_seq_hashes;
use crate::store::changes_to_wire;
use crate::store::doc_change_set;
use crate::store::doc_settled;
use crate::store::doc_tracked;
use crate::store::document_apply;
use crate::store::document_changes_since;
use crate::store::document_heads;
use crate::store::frame_hashes;
use crate::store::hash_of_change_bytes;
use crate::store::heads_of;
use crate::store::missing_of;
use crate::store::parse_change;
use crate::store::parses_change;

verus! {

/// Why a pull reply was not taken into the document.
#[derive(Clone, Copy, Debug, PartialEq, Eq, Structural)]
pub enum SyncError {
    /// The reply bytes do not frame a whole change batch.
    MalformedBatch,
    /// A framed record does not parse as a change.
    BadChange,
    /// The engine refused the batch.
    StoreRejected,
}

/// How a pull attempt failed at the transport, as handed in by the
/// embedding.
#[derive(Clone, Copy, Debug, PartialEq, Eq, Structural)]
pub enum NetFailure {
    /// The peer refused the connection: it is most likely not up yet.
    Refused,
    /// The peer did not answer within the configured bound.
    TimedOut,
    /// Any other transport failure.
    Other,
}

/// The diagnostic body returned when an inbound frontier is malformed.
pub open spec fn msg_bad_frontier() -> Seq<u8> {
    seq![0x62u8, 0x61u8, 0x64u8, 0x20u8, 0x66u8, 0x72u8, 0x6Fu8, 0x6Eu8, 0x74u8, 0x69u8, 0x65u8,
        0x72u8]
}

/// A refused connection is retried silently on the next cycle; every
/// other transport failure earns a log line.
pub fn net_failure_is_logged(f: &NetFailure) -> (r: bool)
    ensures
        r == !(f is Refused),
{
    match f {
        NetFailure::Refused => false,
        NetFailure::TimedOut => true,
        NetFailure::Other => true,
    }
}

/// Serves one inbound sync request: decodes the peer's frontier and
/// answers with the encoded batch of exactly the changes the document
/// holds beyond it. A malformed frontier is answered with status 400 and
/// the document untouched; a well-formed one with status 200.
pub fn serve_changes(doc: &mut automerge::AutoCommit, raw: &Vec<u8>) -> (r: HttpResponse)
    ensures
        (raw@.len() as int) % (HASH_LEN as int) != 0 ==> r.status == 400 && r.body@
            == msg_bad_frontier() && *final(doc) == *old(doc),
        doc_tracked(*old(doc)) ==> doc_tracked(*final(doc)),
        (raw@.len() as int) % (HASH_LEN as int) == 0 ==> ({
            &&& r.status == 200
            &&& doc_settled(*final(doc))
            &&& doc_change_set(*old(doc)).subset_of(doc_change_set(*final(doc)))
            &&& (doc_settled(*old(doc)) ==> doc_change_set(*final(doc)) == doc_change_set(
                *old(doc),
            ))
            &&& exists|cs: Seq<automerge::Change>|
                #[trigger] change_seq_hashes(cs).to_set() == missing_of(
                    doc_change_set(*final(doc)),
                    spec_split_frontier(raw@),
                ) && r.body@ == spec_encode_changes(change_seq_bytes(cs))
                    && spec_decode_changes(r.body@) == Some(change_seq_bytes(cs)) && (forall|
                    i: int,
                |
                    0 <= i < cs.len() ==> #[trigger] hash_of_change_bytes(change_seq_bytes(cs)[i])
                        == change_seq_hashes(cs)[i])
        }),
{
    let frontier = match deserialize_change_hashes(raw) {
        Err(_) => {
            let msg: Vec<u8> = vec![
                0x62, 0x61, 0x64, 0x20, 0x66, 0x72, 0x6F, 0x6E, 0x74, 0x69, 0x65, 0x72,
            ];
            proof {
                assert(msg@ =~= msg_bad_frontier());
            }
            return HttpResponse { status: 400, body: msg };
        },
        Ok(f) => f,
    };
    proof {
        assert forall|i: int| 0 <= i < frontier@.len() implies #[trigger] frontier@[i].bytes@.len()
            == HASH_LEN by {
            assert(frontier@[i].wf());
        }
    }
    let changes = document_changes_since(doc, &frontier);
    let wire = changes_to_wire(&changes);
    let body = serialize_changes(&wire);
    proof {
        assert(change_seq_hashes(changes@).to_set() == missing_of(
            doc_change_set(*doc),
            spec_split_frontier(raw@),
        ));
        assert(body@ == spec_encode_changes(change_seq_bytes(changes@)));
        assert forall|i: int| 0 <= i < change_seq_bytes(changes@).len() implies #[trigger]
            change_seq_bytes(changes@)[i].len() <= u64::MAX by {
            assert(change_views(wire@)[i].len() <= usize::MAX);
        }
        lemma_changes_roundtrip(change_seq_bytes(changes@));
        assert forall|i: int| 0 <= i < changes@.len() implies #[trigger] hash_of_change_bytes(
            change_seq_bytes(changes@)[i],
        ) == change_seq_hashes(changes@)[i] by {
            assert(hash_of_change_bytes(change_views(wire@)[i]) == change_seq_hashes(
                changes@,
            )[i]);
        }
    }
    HttpResponse { status: 200, body }
}

/// Builds this node's pull request: its current heads, encoded as a
/// frontier. The request always decodes back to exactly those heads on
/// the serving side.
pub fn build_pull_request(doc: &mut automerge::AutoCommit) -> (r: Vec<u8>)
    requires
        doc_tracked(*old(doc)),
    ensures
        doc_tracked(*final(doc)),
        doc_settled(*final(doc)),
        doc_change_set(*old(doc)).subset_of(doc_change_set(*final(doc))),
        doc_settled(*old(doc)) ==> doc_change_set(*final(doc)) == doc_change_set(*old(doc)),
        r@ == spec_encode_frontier(heads_of(doc_change_set(*final(doc)))),
        (r@.len() as int) % (HASH_LEN as int) == 0,
        spec_split_frontier(r@) == heads_of(doc_change_set(*final(doc))),
{
    let heads = document_heads(doc);
    let out = serialize_change_hashes(&heads);
    proof {
        assert forall|i: int| 0 <= i < hash_views(heads@).len() implies #[trigger] hash_views(
            heads@,
        )[i].len() == HASH_LEN by {
            assert(heads@[i].bytes@.len() == HASH_LEN);
        }
        lemma_frontier_roundtrip(hash_views(heads@));
    }
    out
}

/// Takes a pull reply into the document: decodes the change batch,
/// parses every framed record, and applies the whole batch at once. The
/// reply is rejected, with the document untouched, when the framing or
/// any single record is malformed; the engine's own refusal leaves the
/// document settled and usable.
pub fn apply_pull_reply(doc: &mut automerge::AutoCommit, raw: &Vec<u8>) -> (r: Result<
    (),
    SyncError,
>)
    ensures
        doc_tracked(*old(doc)) ==> doc_tracked(*final(doc)),
        r == Err::<(), SyncError>(SyncError::MalformedBatch) <==> spec_decode_changes(raw@)
            is None,
        spec_decode_changes(raw@) is None ==> *final(doc) == *old(doc),
        r == Err::<(), SyncError>(SyncError::BadChange) ==> *final(doc) == *old(doc),
        r == Err::<(), SyncError>(SyncError::BadChange) <==> (spec_decode_changes(raw@)
            matches Some(frames) && exists|i: int|
            0 <= i < frames.len() && !parses_change(#[trigger] frames[i])),
        (spec_decode_changes(raw@) matches Some(frames) && (forall|i: int|
            0 <= i < frames.len() ==> parses_change(#[trigger] frames[i])) && (forall|i: int|
            0 <= i < frames.len() ==> doc_change_set(*old(doc)).contains(
                #[trigger] hash_of_change_bytes(frames[i]),
            ))) ==> r is Ok,
        r == Err::<(), SyncError>(SyncError::StoreRejected) ==> doc_settled(*final(doc)),
        r is Ok ==> ({
            &&& doc_settled(*final(doc))
            &&& doc_change_set(*old(doc)).subset_of(doc_change_set(*final(doc)))
            &&& (spec_decode_changes(raw@) matches Some(frames) ==> forall|i: int|
                0 <= i < frames.len() ==> doc_change_set(*final(doc)).contains(
                    #[trigger] hash_of_change_bytes(frames[i]),
                ))
            &&& (spec_decode_changes(raw@) matches Some(frames) ==> (doc_settled(*old(doc))
                ==> doc_change_set(*final(doc)) == doc_change_set(*old(doc)).union(
                    frame_hashes(frames),
                )))
        }),
{
    let decoded = deserialize_changes(raw);
    if decoded.is_err() {
        return Err(SyncError::MalformedBatch);
    }
    let frames = decoded.unwrap();
    proof {
        assert(spec_decode_changes(raw@) is Some);
        assert(spec_decode_changes(raw@).unwrap() == change_views(frames@));
    }
    let mut parsed: Vec<automerge::Change> = Vec::new();
    let mut i: usize = 0;
    while i < frames.len()
        invariant
            i <= frames@.len(),
            spec_decode_changes(raw@) == Some(change_views(frames@)),
            change_seq_hashes(parsed@) == change_views(frames@).take(i as int).map_values(
                |b: Seq<u8>| hash_of_change_bytes(b),
            ),
            forall|k: int| 0 <= k < i ==> parses_change(#[trigger] change_views(frames@)[k]),
        decreases frames@.len() - i,
    {
        let c = match parse_change(&frames[i].data) {
            None => {
                proof {
                    let fr = spec_decode_changes(raw@).unwrap();
                    assert(fr == change_views(frames@));
                    assert(0 <= i < fr.len() && !parses_change(fr[i as int]));
                    assert(exists|k: int|
                        0 <= k < fr.len() && !parses_change(#[trigger] fr[k]));
                }
                return Err(SyncError::BadChange);
            },
            Some(c) => c,
        };
        let ghost prev = parsed@;
        parsed.push(c);
        proof {
            assert(change_seq_hashes(prev).len() == i) by {
                assert(change_views(frames@).take(i as int).len() == i);
            };
            assert(change_seq_hashes(parsed@) =~= change_views(frames@).take(
                i + 1,
            ).map_values(|b: Seq<u8>| hash_of_change_bytes(b))) by {
                assert forall|k: int| 0 <= k < i + 1 implies change_seq_hashes(parsed@)[k]
                    == change_views(frames@).take(i + 1).map_values(
                    |b: Seq<u8>| hash_of_change_bytes(b),
                )[k] by {
                    if k < i {
                        assert(parsed@[k] == prev[k]);
                        assert(change_seq_hashes(prev)[k] == change_views(frames@).take(
                            i as int,
                        ).map_values(|b: Seq<u8>| hash_of_change_bytes(b))[k]);
                    } else {
                        assert(parsed@[k] == c);
                        assert(change_views(frames@)[k] == frames@[k].data@);
                    }
                }
            };
        }
        i = i + 1;
    }
    proof {
        assert(change_views(frames@).take(frames@.len() as int) =~= change_views(frames@));
        let fr = spec_decode_changes(raw@).unwrap();
        assert(fr == change_views(frames@));
        assert(!(exists|k: int| 0 <= k < fr.len() && !parses_change(#[trigger] fr[k]))) by {
            assert forall|k: int| 0 <= k < fr.len() implies parses_change(
                #[trigger] fr[k],
            ) by {
                assert(parses_change(change_views(frames@)[k]));
            }
        };
    }
    let ghost parsed_snapshot = parsed@;
    match document_apply(doc, parsed) {
        Err(_) => {
            proof {
                let fr = spec_decode_changes(raw@).unwrap();
                if (forall|k: int| 0 <= k < fr.len() ==> parses_change(#[trigger] fr[k])) && (
                forall|k: int|
                    0 <= k < fr.len() ==> doc_change_set(*old(doc)).contains(
                        #[trigger] hash_of_change_bytes(fr[k]),
                    )) {
                    assert forall|k: int| 0 <= k < parsed_snapshot.len() implies doc_change_set(
                        *old(doc),
                    ).contains(#[trigger] change_hash_of(parsed_snapshot[k])) by {
                        assert(change_seq_hashes(parsed_snapshot)[k] == change_views(
                            frames@,
                        ).map_values(|b: Seq<u8>| hash_of_change_bytes(b))[k]);
                        assert(doc_change_set(*old(doc)).contains(hash_of_change_bytes(
                            change_views(frames@)[k],
                        )));
                    }
                    assert(false);
                }
            }
            Err(SyncError::StoreRejected)
        },
        Ok(()) => {
            proof {
                assert(spec_decode_changes(raw@).unwrap() == change_views(frames@));
                assert forall|i: int| 0 <= i < change_views(frames@).len() implies doc_change_set(
                    *doc,
                ).contains(#[trigger] hash_of_change_bytes(change_views(frames@)[i])) by {
                    assert(doc_change_set(*doc).contains(change_hash_of(parsed@[i])));
                    assert(change_seq_hashes(parsed@)[i] == change_views(frames@).map_values(
                        |b: Seq<u8>| hash_of_change_bytes(b),
                    )[i]);
                }
            }
            Ok(())
        },
    }
}

/// The peers a pull cycle visits, given the registry's list: every
/// listed address but this node's own, in listed order.
pub open spec fn spec_pull_targets(ps: Seq<PeerAddress>, own: PeerAddress) -> Seq<PeerAddress>
    decreases ps.len(),
{
    if ps.len() == 0 {
        Seq::empty()
    } else if ps[0] == own {
        spec_pull_targets(ps.skip(1), own)
    } else {
        seq![ps[0]] + spec_pull_targets(ps.skip(1), own)
    }
}

proof fn lemma_pull_targets_push(ps: Seq<PeerAddress>, x: PeerAddress, own: PeerAddress)
    ensures
        spec_pull_targets(ps.push(x), own) == (if x == own {
            spec_pull_targets(ps, own)
        } else {
            spec_pull_targets(ps, own) + seq![x]
        }),
    decreases ps.len(),
{
    if ps.len() == 0 {
        assert(ps.push(x).skip(1) =~= Seq::<PeerAddress>::empty());
        assert(ps.push(x)[0] == x);
        assert(spec_pull_targets(Seq::<PeerAddress>::empty(), own) == Seq::<
            PeerAddress,
        >::empty());
        if x == own {
            assert(spec_pull_targets(ps.push(x), own) =~= spec_pull_targets(ps, own));
        } else {
            assert(spec_pull_targets(ps.push(x), own) =~= spec_pull_targets(ps, own) + seq![x]);
        }
    } else {
        assert(ps.push(x).skip(1) =~= ps.skip(1).push(x));
        lemma_pull_targets_push(ps.skip(1), x, own);
        if x == own {
            assert(spec_pull_targets(ps.push(x), own) =~= spec_pull_targets(ps, own));
        } else {
            assert(spec_pull_targets(ps.push(x), own) =~= spec_pull_targets(ps, own) + seq![x]);
        }
    }
}

/// Plans one pull cycle from the registry's answer: parses the peer
/// list and drops this node's own address, keeping the listed order.
/// Exactly the canonical list renders are accepted.
pub fn plan_pull_cycle(raw: &Vec<u8>, own: &PeerAddress) -> (r: Result<
    Vec<PeerAddress>,
    DecodeError,
>)
    ensures
        r matches Ok(v) ==> exists|ps: Seq<PeerAddress>|
            raw@ == #[trigger] spec_render_peer_list(ps) && v@ == spec_pull_targets(ps, *own),
        forall|ps: Seq<PeerAddress>| raw@ == spec_render_peer_list(ps) ==> (r matches Ok(v) && v@
            == spec_pull_targets(ps, *own)),
        r is Err ==> forall|ps: Seq<PeerAddress>| raw@ != spec_render_peer_list(ps),
{
    let list = match parse_peer_list(raw) {
        Err(e) => {
            return Err(e);
        },
        Ok(l) => l,
    };
    let mut targets: Vec<PeerAddress> = Vec::new();
    let mut i: usize = 0;
    while i < list.len()
        invariant
            i <= list@.len(),
            targets@ == spec_pull_targets(list@.take(i as int), *own),
        decreases list@.len() - i,
    {
        proof {
            lemma_pull_targets_push(list@.take(i as int), list@[i as int], *own);
            assert(list@.take(i + 1) =~= list@.take(i as int).push(list@[i as int]));
        }
        if !(list[i] == *own) {
            targets.push(list[i]);
            proof {
                assert(targets@ =~= spec_pull_targets(list@.take(i as int), *own) + seq![
                    list@[i as int],
                ]);
            }
        }
        i = i + 1;
    }
    proof {
        assert(list@.take(list@.len() as int) =~= list@);
    }
    Ok(targets)
}

} // verus!
