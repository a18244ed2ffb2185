//! The peer registry: the rendezvous point nodes register their sync
//! listener address with and query the current peer set from.
//!
//! The registry owns a duplicate-free, insertion-ordered peer list.
//! Registration validates the body as the canonical text of a socket
//! address, adds it at most once, and echoes it back; querying renders
//! the whole set as a JSON array. The transport around these handlers is
//! not part of this type.

use vstd::prelude::*;

use crate::peer::AddressError;
use crate::peer::PeerAddress;
use crate::peer::parse_peer_address;
use crate::peer::render_peer_address;
use crate::peer::render_peer_list;
use crate::peer::spec_render_addr;
use crate::peer::spec_render_peer_list;
use crate::utf8::is_valid_utf8;

verus! {

/// A transport-neutral response: an HTTP-like status code and a body.
pub struct HttpResponse {
    pub status: u16,
    pub body: Vec<u8>,
}

/// The diagnostic body returned when a registration body is not UTF-8.
pub open spec fn msg_not_utf8() -> Seq<u8> {
    seq![0x6Eu8, 0x6Fu8, 0x74u8, 0x20u8, 0x76u8, 0x61u8, 0x6Cu8, 0x69u8, 0x64u8, 0x20u8, 0x75u8,
        0x74u8, 0x66u8, 0x38u8]
}

/// The diagnostic body returned when a registration body is no address.
pub open spec fn msg_invalid_addr() -> Seq<u8> {
    seq![0x69u8, 0x6Eu8, 0x76u8, 0x61u8, 0x6Cu8, 0x69u8, 0x64u8, 0x20u8, 0x73u8, 0x6Fu8, 0x63u8,
        0x6Bu8, 0x65u8, 0x74u8, 0x20u8, 0x61u8, 0x64u8, 0x64u8, 0x72u8]
}

/// What one registration does to the peer list: nothing when the address
/// is already present, else it is appended.
pub open spec fn spec_register(peers: Seq<PeerAddress>, p: PeerAddress) -> Seq<PeerAddress> {
    if peers.contains(p) {
        peers
    } else {
        peers.push(p)
    }
}

/// Registering the same address a second time changes nothing: the peer
/// list keeps exactly one entry for it.
pub proof fn lemma_register_idempotent(peers: Seq<PeerAddress>, p: PeerAddress)
    ensures
        spec_register(spec_register(peers, p), p) == spec_register(peers, p),
{
    if !peers.contains(p) {
        assert(peers.push(p)[peers.len() as int] == p);
        assert(peers.push(p).contains(p));
    }
}

/// Which addresses the peer list holds does not depend on the order in
/// which they were registered: a registration adds the address to the
/// set of entries, whatever came before.
pub proof fn lemma_register_set(peers: Seq<PeerAddress>, p: PeerAddress)
    ensures
        spec_register(peers, p).to_set() == peers.to_set().insert(p),
{
    if peers.contains(p) {
        assert(peers.to_set().contains(p));
        assert(spec_register(peers, p).to_set() =~= peers.to_set().insert(p));
    } else {
        assert forall|q: PeerAddress| peers.push(p).to_set().contains(q) implies
            peers.to_set().insert(p).contains(q) by {
            let i = choose|i: int| 0 <= i < peers.push(p).len() && peers.push(p)[i] == q;
            if i < peers.len() {
                assert(peers[i] == q);
            }
        }
        assert forall|q: PeerAddress| peers.to_set().insert(p).contains(q) implies
            peers.push(p).to_set().contains(q) by {
            if q == p {
                assert(peers.push(p)[peers.len() as int] == q);
            } else {
                let i = choose|i: int| 0 <= i < peers.len() && peers[i] == q;
                assert(peers.push(p)[i] == q);
            }
        }
        assert(spec_register(peers, p).to_set() =~= peers.to_set().insert(p));
    }
}

/// Which addresses the peer list holds is the same whichever of two
/// registrations came first.
pub proof fn lemma_register_order_irrelevant(
    peers: Seq<PeerAddress>,
    p: PeerAddress,
    q: PeerAddress,
)
    ensures
        spec_register(spec_register(peers, p), q).to_set() == spec_register(
            spec_register(peers, q),
            p,
        ).to_set(),
{
    lemma_register_set(peers, p);
    lemma_register_set(spec_register(peers, p), q);
    lemma_register_set(peers, q);
    lemma_register_set(spec_register(peers, q), p);
    assert(peers.to_set().insert(p).insert(q) =~= peers.to_set().insert(q).insert(p));
}

/// The registry's state: the set of peer addresses registered so far,
/// in registration order and without duplicates.
pub struct Registry {
    peers: Vec<PeerAddress>,
}

impl Registry {
    /// The addresses registered so far, in order.
    pub closed spec fn peers_seq(self) -> Seq<PeerAddress> {
        self.peers@
    }

    /// The peer list never holds the same address twice.
    pub open spec fn wf(self) -> bool {
        forall|i: int, j: int|
            0 <= i < j < self.peers_seq().len() ==> #[trigger] self.peers_seq()[i]
                != #[trigger] self.peers_seq()[j]
    }

    /// A fresh registry with no peers.
    pub fn new() -> (r: Registry)
        ensures
            r.peers_seq() == Seq::<PeerAddress>::empty(),
            r.wf(),
    {
        Registry { peers: Vec::new() }
    }

    /// Handles one registration. A body that is exactly the canonical
    /// text of a socket address is accepted: the address joins the peer
    /// set if it is new, and the body is echoed back with status 200.
    /// Anything else leaves the registry unchanged and is answered with
    /// status 400, whose body tells bytes that are not UTF-8 apart from
    /// text that is no address.
    pub fn register_peer(&mut self, body: &Vec<u8>) -> (r: HttpResponse)
        requires
            old(self).wf(),
        ensures
            final(self).wf(),
            forall|p: PeerAddress| body@ == spec_render_addr(p) ==> r.status == 200 && r.body@
                == body@ && final(self).peers_seq() == spec_register(old(self).peers_seq(), p),
            (forall|p: PeerAddress| body@ != spec_render_addr(p)) ==> r.status == 400
                && final(self).peers_seq() == old(self).peers_seq(),
            r.status == 400 && !is_valid_utf8(body@) <==> r.body@ == msg_not_utf8(),
            r.status == 200 || r.status == 400,
    {
        let parsed = parse_peer_address(body);
        match parsed {
            Err(AddressError::NotUtf8) => {
                let msg: Vec<u8> = vec![
                    0x6E, 0x6F, 0x74, 0x20, 0x76, 0x61, 0x6C, 0x69, 0x64, 0x20, 0x75, 0x74, 0x66,
                    0x38,
                ];
                proof {
                    assert(msg@ =~= msg_not_utf8());
                }
                HttpResponse { status: 400, body: msg }
            },
            Err(AddressError::NotAnAddress) => {
                let msg: Vec<u8> = vec![
                    0x69, 0x6E, 0x76, 0x61, 0x6C, 0x69, 0x64, 0x20, 0x73, 0x6F, 0x63, 0x6B, 0x65,
                    0x74, 0x20, 0x61, 0x64, 0x64, 0x72,
                ];
                proof {
                    assert(msg@ =~= msg_invalid_addr());
                    assert(msg_not_utf8() != msg_invalid_addr()) by {
                        assert(msg_not_utf8().len() != msg_invalid_addr().len());
                    };
                }
                HttpResponse { status: 400, body: msg }
            },
            Ok(p) => {
                if !self.contains_peer(p) {
                    let ghost prev = self.peers@;
                    self.peers.push(p);
                    proof {
                        assert(self.peers@ =~= prev.push(p));
                        assert forall|i: int, j: int|
                            0 <= i < j < self.peers@.len() implies #[trigger] self.peers@[i]
                            != #[trigger] self.peers@[j] by {
                            if j == self.peers@.len() - 1 {
                                assert(self.peers@[i] == prev[i]);
                                if prev[i] == p {
                                    assert(prev.contains(p));
                                }
                            }
                        }
                    }
                }
                let echo = render_peer_address(&p);
                proof {
                    assert(echo@ != msg_not_utf8()) by {
                        crate::peer::lemma_render_charset(p);
                        if echo@ == msg_not_utf8() {
                            assert(echo@[0] == 0x6E);
                        }
                    };
                }
                HttpResponse { status: 200, body: echo }
            },
        }
    }

    /// Answers a peer query: status 200 with the full peer set rendered
    /// as a JSON array of address strings, in registration order.
    pub fn get_peers(&self) -> (r: HttpResponse)
        ensures
            r.status == 200,
            r.body@ == spec_render_peer_list(self.peers_seq()),
    {
        HttpResponse { status: 200, body: render_peer_list(&self.peers) }
    }

    /// Whether an address is already registered.
    fn contains_peer(&self, p: PeerAddress) -> (r: bool)
        ensures
            r == self.peers_seq().contains(p),
    {
        let mut i: usize = 0;
        while i < self.peers.len()
            invariant
                i <= self.peers@.len(),
                forall|k: int| 0 <= k < i ==> self.peers@[k] != p,
            decreases self.peers@.len() - i,
        {
            if self.peers[i] == p {
                assert(self.peers@[i as int] == p);
                return true;
            }
            i = i + 1;
        }
        false
    }
}

} // verus!
