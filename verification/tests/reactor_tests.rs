use mesh_p2p_share::chunking::{ChunkList, CHUNK_SIZE};
use mesh_p2p_share::matching::SourceCooldowns;
use mesh_p2p_share::messages::{ClientMessage, ServerMessage};
use mesh_p2p_share::p2p::{add_shared_file, new_shared_file_info, P2PState};
use mesh_p2p_share::reactor::{handle_client_message, handle_disconnect, Recipient};

fn s(x: &str) -> String {
    x.to_string()
}

/// A list for a file of `total` bytes whose every chunk read came back empty.
fn empty_pieces(total: u64) -> ChunkList {
    let mut l = ChunkList::new(total);
    while l.next_chunk().is_some() {
        l.push(b"").unwrap();
    }
    l
}

fn setup() -> (P2PState, SourceCooldowns, String) {
    let mut st = P2PState::new(s("host"));
    let info = add_shared_file(
        &mut st,
        new_shared_file_info(s("f.iso"), s("/srv/f.iso"), empty_pieces(CHUNK_SIZE * 2)).unwrap(),
    )
    .unwrap();
    (st, SourceCooldowns::new(), info.file_id)
}

#[test]
fn register_replies_with_host_and_files() {
    let (mut st, mut cool, f) = setup();
    let r = handle_client_message(&mut st, &mut cool, &None, ClientMessage::Register { endpoint_id: s("e1") }, 0);
    assert_eq!(r.registered_as, Some(s("e1")));
    assert!(r.rematch);
    assert_eq!(r.outgoing.len(), 2);
    assert!(matches!(r.outgoing[0].to, Recipient::Sender));
    match &r.outgoing[0].message {
        ServerMessage::Registered { endpoint_id, host_endpoint_id } => {
            assert_eq!(endpoint_id, "e1");
            assert_eq!(host_endpoint_id, "host");
        }
        _ => panic!("expected registered"),
    }
    match &r.outgoing[1].message {
        ServerMessage::FileList { files } => {
            assert_eq!(files.len(), 1);
            assert_eq!(files[0].file_id, f);
            assert_eq!(files[0].chunk_count, 2);
        }
        _ => panic!("expected file list"),
    }
    assert!(st.endpoints.contains_key(&s("e1")));
}

#[test]
fn start_download_sends_layout_and_rematches() {
    let (mut st, mut cool, f) = setup();
    handle_client_message(&mut st, &mut cool, &None, ClientMessage::Register { endpoint_id: s("e1") }, 0);
    let r = handle_client_message(
        &mut st,
        &mut cool,
        &Some(s("e1")),
        ClientMessage::StartDownload { endpoint_id: s("e1"), file_id: f.clone() },
        0,
    );
    assert!(r.rematch);
    assert_eq!(r.outgoing.len(), 1);
    match &r.outgoing[0].to {
        Recipient::Endpoint(e) => assert_eq!(e, "e1"),
        _ => panic!("expected the endpoint"),
    }
    assert!(matches!(r.outgoing[0].message, ServerMessage::FileChunksInfo { chunk_count: 2, .. }));
    assert_eq!(st.endpoints.get(&s("e1")).unwrap().file_id, Some(f.clone()));
    let r2 = handle_client_message(
        &mut st,
        &mut cool,
        &Some(s("e1")),
        ClientMessage::StartDownload { endpoint_id: s("e1"), file_id: s("unknown") },
        0,
    );
    assert!(r2.outgoing.is_empty());
}

#[test]
fn signals_are_forwarded_to_their_target() {
    let (mut st, mut cool, _f) = setup();
    let r = handle_client_message(
        &mut st,
        &mut cool,
        &Some(s("e1")),
        ClientMessage::WebRtcSignal { from: s("e1"), to: s("e2"), signal: s("{\"sdp\":\"x\"}") },
        0,
    );
    assert!(!r.rematch);
    match (&r.outgoing[0].to, &r.outgoing[0].message) {
        (Recipient::Endpoint(to), ServerMessage::WebRtcSignal { from, signal }) => {
            assert_eq!(to, "e2");
            assert_eq!(from, "e1");
            assert_eq!(signal, "{\"sdp\":\"x\"}");
        }
        _ => panic!("expected a forwarded signal"),
    }
}

#[test]
fn verify_failures_are_reported_to_the_source() {
    let (mut st, mut cool, f) = setup();
    let msg = || ClientMessage::ChunkVerifyFailed {
        endpoint_id: s("e1"),
        file_id: f.clone(),
        chunk_index: 1,
        source_peer: s("e2"),
    };
    let r = handle_client_message(&mut st, &mut cool, &Some(s("e1")), msg(), 0);
    match (&r.outgoing[0].to, &r.outgoing[0].message) {
        (Recipient::Endpoint(to), ServerMessage::ChunkVerifyFailedNotify { reporter, chunk_index, .. }) => {
            assert_eq!(to, "e2");
            assert_eq!(reporter, "e1");
            assert_eq!(*chunk_index, 1);
        }
        _ => panic!("expected a notification"),
    }
    let r2 = handle_client_message(&mut st, &mut cool, &None, msg(), 0);
    match &r2.outgoing[0].message {
        ServerMessage::ChunkVerifyFailedNotify { reporter, .. } => assert_eq!(reporter, ""),
        _ => panic!("expected a notification"),
    }
}

#[test]
fn rematch_follows_every_status_and_completion_event() {
    let (mut st, mut cool, f) = setup();
    handle_client_message(&mut st, &mut cool, &None, ClientMessage::Register { endpoint_id: s("e1") }, 0);
    let started = handle_client_message(
        &mut st,
        &mut cool,
        &None,
        ClientMessage::TransferStarted { endpoint_id: s("e1"), file_id: f.clone(), chunk_index: 0, is_upload: false },
        0,
    );
    assert!(!started.rematch);
    assert_eq!(st.endpoints.get(&s("e1")).unwrap().download_count, 1);
    let up_done = handle_client_message(
        &mut st,
        &mut cool,
        &None,
        ClientMessage::TransferFinished { endpoint_id: s("e1"), file_id: f.clone(), chunk_index: 0, is_upload: true },
        0,
    );
    assert!(up_done.rematch);
    let down_done = handle_client_message(
        &mut st,
        &mut cool,
        &None,
        ClientMessage::TransferFinished { endpoint_id: s("e1"), file_id: f.clone(), chunk_index: 0, is_upload: false },
        0,
    );
    assert!(down_done.rematch);
    let completed = handle_client_message(
        &mut st,
        &mut cool,
        &None,
        ClientMessage::ChunkCompleted { endpoint_id: s("e1"), file_id: f.clone(), chunk_index: 1 },
        0,
    );
    assert!(completed.rematch);
    let failed = handle_client_message(
        &mut st,
        &mut cool,
        &None,
        ClientMessage::TransferFailed {
            endpoint_id: s("e1"),
            file_id: f.clone(),
            chunk_index: 0,
            source_peer: s("e9"),
            reason: s("idle_timeout"),
        },
        100,
    );
    assert!(failed.rematch);
    assert_eq!(*cool.until.get(&s("e9")).unwrap(), 100 + 20_000);
}

#[test]
fn chunk_requests_are_answered_to_the_sender() {
    let (mut st, mut cool, f) = setup();
    let r = handle_client_message(
        &mut st,
        &mut cool,
        &None,
        ClientMessage::RequestChunk { endpoint_id: s("e1"), file_id: f.clone(), chunk_index: 0 },
        0,
    );
    assert!(matches!(r.outgoing[0].to, Recipient::Sender));
    assert!(matches!(&r.outgoing[0].message, ServerMessage::SuggestPeer { peer_id, .. } if peer_id == "host"));
    let none = handle_client_message(
        &mut st,
        &mut cool,
        &None,
        ClientMessage::RequestChunk { endpoint_id: s("e1"), file_id: s("zzz"), chunk_index: 0 },
        0,
    );
    assert!(none.outgoing.is_empty());
}

#[test]
fn every_status_report_triggers_matching() {
    let (mut st, mut cool, f) = setup();
    handle_client_message(&mut st, &mut cool, &None, ClientMessage::Register { endpoint_id: s("e1") }, 0);
    let report = || ClientMessage::EndpointStatus {
        endpoint_id: s("e1"),
        file_id: f.clone(),
        owned_chunks: vec![1],
        upload_count: 0,
        download_count: 0,
    };
    let first = handle_client_message(&mut st, &mut cool, &None, report(), 0);
    assert!(first.rematch);
    assert!(first.outgoing.is_empty());
    let same = handle_client_message(&mut st, &mut cool, &None, report(), 0);
    assert!(same.rematch);
    let unknown = handle_client_message(
        &mut st,
        &mut cool,
        &None,
        ClientMessage::EndpointStatus {
            endpoint_id: s("ghost"),
            file_id: f.clone(),
            owned_chunks: vec![],
            upload_count: 0,
            download_count: 0,
        },
        0,
    );
    assert!(unknown.rematch);
    assert!(!st.endpoints.contains_key(&s("ghost")));
}

#[test]
fn departure_is_announced_to_every_remaining_endpoint() {
    let (mut st, mut cool, _f) = setup();
    for e in ["e1", "e2", "e3"] {
        handle_client_message(&mut st, &mut cool, &None, ClientMessage::Register { endpoint_id: s(e) }, 0);
    }
    let r = handle_disconnect(&mut st, &s("e2"));
    assert!(!st.endpoints.contains_key(&s("e2")));
    assert!(r.registered_as.is_none());
    assert!(!r.rematch);
    let mut told: Vec<String> = Vec::new();
    for o in &r.outgoing {
        match (&o.to, &o.message) {
            (Recipient::Endpoint(to), ServerMessage::PeerDisconnected { endpoint_id }) => {
                assert_eq!(endpoint_id, "e2");
                told.push(to.clone());
            }
            _ => panic!("expected a departure notice"),
        }
    }
    told.sort();
    assert_eq!(told, vec![s("e1"), s("e3")]);
}
