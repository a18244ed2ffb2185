use automerge::transaction::Transactable;
use automerge::ActorId;
use automerge::AutoCommit;

use tarsk::codec::serialize_changes;
use tarsk::codec::ChangeRecord;
use tarsk::hub::EventHub;
use tarsk::hub::SyncEvent;
use tarsk::peer::parse_peer_list;
use tarsk::peer::PeerAddress;
use tarsk::state::EditMode;
use tarsk::state::State;
use tarsk::store::document_apply;
use tarsk::store::document_changes_since;
use tarsk::store::document_heads;
use tarsk::store::new_document;
use tarsk::sync::apply_pull_reply;
use tarsk::sync::build_pull_request;
use tarsk::sync::net_failure_is_logged;
use tarsk::sync::plan_pull_cycle;
use tarsk::sync::serve_changes;
use tarsk::sync::NetFailure;
use tarsk::sync::SyncError;

fn addr(a: u8, b: u8, c: u8, d: u8, port: u16) -> PeerAddress {
    PeerAddress { a, b, c, d, port }
}

fn heads_bytes(doc: &mut AutoCommit) -> Vec<Vec<u8>> {
    document_heads(doc).into_iter().map(|h| h.bytes).collect()
}

#[test]
fn test_pull_converges_two_nodes() {
    // Node X holds one change; node Y starts empty and pulls from X.
    let mut x = new_document();
    let _ = x.put(automerge::ROOT, "note", "shared");

    let mut y = new_document();
    assert!(heads_bytes(&mut y).is_empty());

    let request = build_pull_request(&mut y);
    assert!(request.is_empty());

    let reply = serve_changes(&mut x, &request);
    assert_eq!(reply.status, 200);

    assert!(apply_pull_reply(&mut y, &reply.body).is_ok());

    // Y now serves the change itself and reports X's heads.
    assert_eq!(heads_bytes(&mut y), heads_bytes(&mut x));
    let since_start = document_changes_since(&mut y, &Vec::new());
    assert_eq!(since_start.len(), 1);
}

#[test]
fn test_pull_reply_applied_twice_keeps_heads() {
    let mut x = new_document();
    let _ = x.put(automerge::ROOT, "count", 1234);
    let request: Vec<u8> = Vec::new();
    let reply = serve_changes(&mut x, &request);

    let mut y = new_document();
    assert!(apply_pull_reply(&mut y, &reply.body).is_ok());
    let once = heads_bytes(&mut y);
    assert!(apply_pull_reply(&mut y, &reply.body).is_ok());
    let twice = heads_bytes(&mut y);
    assert_eq!(once, twice);
}

#[test]
fn test_apply_batch_twice_directly() {
    let mut x = new_document();
    let _ = x.put(automerge::ROOT, "k", "v");
    let batch = document_changes_since(&mut x, &Vec::new());
    let batch_again = document_changes_since(&mut x, &Vec::new());

    let mut y = new_document();
    assert!(document_apply(&mut y, batch).is_ok());
    let once = heads_bytes(&mut y);
    assert!(document_apply(&mut y, batch_again).is_ok());
    assert_eq!(once, heads_bytes(&mut y));
}

#[test]
fn test_serve_rejects_malformed_frontier() {
    let mut x = new_document();
    let reply = serve_changes(&mut x, &vec![1, 2, 3]);
    assert_eq!(reply.status, 400);
    assert_eq!(reply.body, b"bad frontier".to_vec());
}

#[test]
fn test_serve_up_to_date_peer_gets_empty_batch() {
    let mut x = new_document();
    let _ = x.put(automerge::ROOT, "k", "v");
    let own_request = build_pull_request(&mut x);
    let reply = serve_changes(&mut x, &own_request);
    assert_eq!(reply.status, 200);
    assert_eq!(reply.body, Vec::<u8>::new());
}

#[test]
fn test_empty_pull_reply_is_accepted() {
    let mut y = new_document();
    assert_eq!(apply_pull_reply(&mut y, &Vec::new()), Ok(()));
    assert!(heads_bytes(&mut y).is_empty());
}

#[test]
fn test_pull_reply_malformed_batch() {
    let mut y = new_document();
    assert_eq!(
        apply_pull_reply(&mut y, &vec![9, 0, 0]),
        Err(SyncError::MalformedBatch)
    );
}

#[test]
fn test_pull_reply_bad_change_record() {
    let mut y = new_document();
    let framed = serialize_changes(&vec![ChangeRecord { data: vec![1, 2, 3] }]);
    assert_eq!(
        apply_pull_reply(&mut y, &framed),
        Err(SyncError::BadChange)
    );
}

#[test]
fn test_pull_reply_store_rejects_forked_actor() {
    // Two different first changes by the same actor: the engine refuses
    // the second as a duplicate sequence number.
    let actor = ActorId::from(&[7u8; 16][..]);
    let mut a = AutoCommit::new();
    a.set_actor(actor.clone());
    let _ = a.put(automerge::ROOT, "k", "one");
    let mut b = AutoCommit::new();
    b.set_actor(actor);
    let _ = b.put(automerge::ROOT, "k", "two");

    let mut records = document_changes_since(&mut a, &Vec::new());
    records.extend(document_changes_since(&mut b, &Vec::new()));
    let records: Vec<ChangeRecord> = records
        .iter()
        .map(|c| ChangeRecord {
            data: c.raw_bytes().to_vec(),
        })
        .collect();
    let framed = serialize_changes(&records);

    let mut y = new_document();
    assert_eq!(
        apply_pull_reply(&mut y, &framed),
        Err(SyncError::StoreRejected)
    );
}

#[test]
fn test_plan_pull_cycle_skips_own_address() {
    let own = addr(127, 0, 0, 1, 9001);
    let raw = b"[\"127.0.0.1:9001\",\"127.0.0.1:9002\"]".to_vec();
    let targets = plan_pull_cycle(&raw, &own).unwrap();
    assert_eq!(targets, vec![addr(127, 0, 0, 1, 9002)]);
}

#[test]
fn test_plan_pull_cycle_empty_registry() {
    let own = addr(127, 0, 0, 1, 9001);
    let targets = plan_pull_cycle(&b"[]".to_vec(), &own).unwrap();
    assert!(targets.is_empty());
}

#[test]
fn test_plan_pull_cycle_rejects_noise() {
    let own = addr(127, 0, 0, 1, 9001);
    assert!(plan_pull_cycle(&b"".to_vec(), &own).is_err());
    assert!(plan_pull_cycle(&b"[\"127.0.0.1:9001\",]".to_vec(), &own).is_err());
    assert!(plan_pull_cycle(&b"{\"peers\":[]}".to_vec(), &own).is_err());
}

#[test]
fn test_parse_peer_list_roundtrip() {
    let raw = b"[\"1.2.3.4:5\"]".to_vec();
    assert_eq!(parse_peer_list(&raw).unwrap(), vec![addr(1, 2, 3, 4, 5)]);
}

#[test]
fn test_refused_connection_is_silent() {
    assert!(!net_failure_is_logged(&NetFailure::Refused));
    assert!(net_failure_is_logged(&NetFailure::TimedOut));
    assert!(net_failure_is_logged(&NetFailure::Other));
}

#[test]
fn test_hub_delivers_in_arrival_order() {
    let mut hub = EventHub::new();
    assert!(hub.get_event().is_none());
    hub.send(SyncEvent::Pull);
    hub.send(SyncEvent::Terminal(crossterm::event::Event::Resize(80, 24)));
    hub.send(SyncEvent::Pull);

    assert!(matches!(hub.get_event(), Some(SyncEvent::Pull)));
    assert!(matches!(
        hub.get_event(),
        Some(SyncEvent::Terminal(crossterm::event::Event::Resize(80, 24)))
    ));
    assert!(matches!(hub.get_event(), Some(SyncEvent::Pull)));
    assert!(hub.get_event().is_none());
}

#[test]
fn test_edit_mode_cycles() {
    assert_eq!(EditMode::List.next(), EditMode::Title);
    assert_eq!(EditMode::Title.next(), EditMode::Body);
    assert_eq!(EditMode::Body.next(), EditMode::List);
    assert_eq!(EditMode::List.prev(), EditMode::Body);
    assert_eq!(EditMode::Title.prev(), EditMode::List);
    assert_eq!(EditMode::Body.prev(), EditMode::Title);
}

#[test]
fn test_state_starts_on_list() {
    let state = State::new();
    assert_eq!(state.current_task, 0);
    assert_eq!(state.mode, EditMode::List);
}
