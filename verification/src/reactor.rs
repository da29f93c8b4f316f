//! The coordinator's reaction to one message from an endpoint: the state
//! change, the messages to send, and whether matching should run again.

use vstd::prelude::*;
use crate::messages::{ClientMessage, ServerMessage, FileListEntry, FileEntryView, listing_of, chunk_infos_of};
use crate::matching::SourceCooldowns;
use crate::p2p::{P2PState, P2PView, FileView, id_is_shared, first_with_id};
use crate::session::{
    registered, with_endpoint, request_answer, status_applied, endpoint_updated, download_started, http_released,
    chunk_added, transfer_counted, transfer_uncounted, failure_handled, cooldowns_after_failure, cools_source,
    register_endpoint, apply_endpoint_status, handle_request_chunk, start_download, chunk_completed,
    transfer_started, transfer_finished, transfer_failed, disconnected, disconnect_endpoint,
};
use crate::table::string_views;

verus! {

/// Who a message goes to.
pub enum Recipient {
    /// The connection the handled message came from.
    Sender,
    /// The endpoint with this identifier, if it is connected.
    Endpoint(String),
}

/// A message to send.
pub struct Outgoing {
    pub to: Recipient,
    pub message: ServerMessage,
}

/// What the connection loop has to do after a message was handled.
pub struct Reaction {
    /// The connection now speaks for this endpoint.
    pub registered_as: Option<String>,
    /// Messages to send, in order.
    pub outgoing: Vec<Outgoing>,
    /// Host HTTP dispatch and peer matching should run now.
    pub rematch: bool,
}

/// `o` goes back to the sender.
pub open spec fn to_sender(o: Outgoing) -> bool {
    o.to matches Recipient::Sender
}

/// `o` goes to endpoint `e`.
pub open spec fn to_endpoint(o: Outgoing, e: Seq<char>) -> bool {
    o.to matches Recipient::Endpoint(x) && x@ == e
}

/// The file listing carried by a message, if it is one.
pub open spec fn listed_files(m: ServerMessage) -> Option<Seq<FileEntryView>> {
    match m {
        ServerMessage::FileList { files } => Some(files@.map_values(|e: FileListEntry| e@)),
        _ => None,
    }
}

/// `m` describes the layout of shared file `f`.
pub open spec fn describes_file(m: ServerMessage, f: FileView) -> bool {
    m matches ServerMessage::FileChunksInfo { file_id, file_name, total_size, chunk_count, chunks }
        && file_id@ == f.file_id && file_name@ == f.file_name && total_size == f.total_size
        && chunk_count == f.chunk_count && chunks@ == chunk_infos_of(f)
}

/// What may be sent to a connection that asked for no answer: nothing.
pub open spec fn nothing_sent(r: Reaction) -> bool {
    r.outgoing@.len() == 0
}

/// Handles one message from the connection that speaks for `connection`
/// (if it has registered), at time `now`.
pub fn handle_client_message(
    state: &mut P2PState,
    cooldowns: &mut SourceCooldowns,
    connection: &Option<String>,
    msg: ClientMessage,
    now: u64,
) -> (r: Reaction)
    requires
        msg matches ClientMessage::TransferStarted { endpoint_id, is_upload, .. } ==> (old(state)@.endpoints.contains_key(
            endpoint_id@,
        ) ==> if is_upload {
            old(state)@.endpoints[endpoint_id@].upload_count < u32::MAX
        } else {
            old(state)@.endpoints[endpoint_id@].download_count < u32::MAX
        }),
        msg matches ClientMessage::TransferFailed { source_peer, .. } ==> (cools_source(old(state)@, source_peer@) ==> now
            <= u64::MAX - crate::matching::SOURCE_COOLDOWN_MS),
    ensures
        ({
            let s = old(state)@;
            match msg {
                ClientMessage::Register { endpoint_id } => {
                    &&& final(state)@ == registered(s, endpoint_id@)
                    &&& final(cooldowns)@ == old(cooldowns)@
                    &&& r.registered_as matches Some(e) && e@ == endpoint_id@
                    &&& r.outgoing@.len() == 2
                    &&& to_sender(r.outgoing@[0])
                    &&& r.outgoing@[0].message matches ServerMessage::Registered { endpoint_id: e, host_endpoint_id: h }
                        && e@ == endpoint_id@ && h@ == s.host
                    &&& to_sender(r.outgoing@[1])
                    &&& listed_files(r.outgoing@[1].message) == Some(s.files.map_values(|f: FileView| listing_of(f)))
                    &&& r.rematch
                },
                ClientMessage::EndpointStatus { endpoint_id, file_id, owned_chunks, upload_count, download_count } => {
                    &&& r.registered_as is None
                    &&& nothing_sent(r)
                    &&& final(cooldowns)@ == old(cooldowns)@
                    &&& r.rematch
                    &&& !s.endpoints.contains_key(endpoint_id@) ==> final(state)@ == s
                    &&& s.endpoints.contains_key(endpoint_id@) ==> final(state)@ == with_endpoint(
                        s,
                        endpoint_id@,
                        status_applied(s.endpoints[endpoint_id@], file_id@, owned_chunks@.to_set(), upload_count, download_count),
                    )
                },
                ClientMessage::RequestChunk { endpoint_id, file_id, chunk_index } => {
                    &&& final(state)@ == s
                    &&& final(cooldowns)@ == old(cooldowns)@
                    &&& r.registered_as is None
                    &&& !r.rematch
                    &&& !id_is_shared(s.files, file_id@) ==> nothing_sent(r)
                    &&& id_is_shared(s.files, file_id@) ==> r.outgoing@.len() == 1 && to_sender(r.outgoing@[0])
                        && request_answer(s, endpoint_id@, file_id@, chunk_index, r.outgoing@[0].message)
                },
                ClientMessage::StartDownload { endpoint_id, file_id } => {
                    &&& final(state)@ == endpoint_updated(s, endpoint_id@, download_started(s.endpoints[endpoint_id@], file_id@))
                    &&& final(cooldowns)@ == old(cooldowns)@
                    &&& r.registered_as is None
                    &&& r.rematch
                    &&& !id_is_shared(s.files, file_id@) ==> nothing_sent(r)
                    &&& forall|i: int| #[trigger] first_with_id(s.files, file_id@, i) ==> r.outgoing@.len() == 1
                        && to_endpoint(r.outgoing@[0], endpoint_id@) && describes_file(r.outgoing@[0].message, s.files[i])
                },
                ClientMessage::ChunkCompleted { endpoint_id, file_id, chunk_index } => {
                    &&& final(state)@ == (P2PView {
                        http: http_released(s.http, endpoint_id@, file_id@, chunk_index),
                        ..endpoint_updated(s, endpoint_id@, chunk_added(s.endpoints[endpoint_id@], file_id@, chunk_index))
                    })
                    &&& final(cooldowns)@ == old(cooldowns)@
                    &&& r.registered_as is None
                    &&& nothing_sent(r)
                    &&& r.rematch
                },
                ClientMessage::WebRtcSignal { from, to, signal } => {
                    &&& final(state)@ == s
                    &&& final(cooldowns)@ == old(cooldowns)@
                    &&& r.registered_as is None
                    &&& !r.rematch
                    &&& r.outgoing@.len() == 1
                    &&& to_endpoint(r.outgoing@[0], to@)
                    &&& r.outgoing@[0].message matches ServerMessage::WebRtcSignal { from: f2, signal: g2 } && f2@ == from@
                        && g2@ == signal@
                },
                ClientMessage::ChunkVerifyFailed { endpoint_id, file_id, chunk_index, source_peer } => {
                    &&& final(state)@ == s
                    &&& final(cooldowns)@ == old(cooldowns)@
                    &&& r.registered_as is None
                    &&& !r.rematch
                    &&& r.outgoing@.len() == 1
                    &&& to_endpoint(r.outgoing@[0], source_peer@)
                    &&& r.outgoing@[0].message matches ServerMessage::ChunkVerifyFailedNotify { file_id: f, chunk_index: c, reporter }
                        && f@ == file_id@ && c == chunk_index && reporter@ == match connection {
                        Some(c) => c@,
                        None => Seq::<char>::empty(),
                    }
                },
                ClientMessage::TransferStarted { endpoint_id, is_upload, .. } => {
                    &&& final(state)@ == endpoint_updated(s, endpoint_id@, transfer_counted(s.endpoints[endpoint_id@], is_upload))
                    &&& final(cooldowns)@ == old(cooldowns)@
                    &&& r.registered_as is None
                    &&& nothing_sent(r)
                    &&& !r.rematch
                },
                ClientMessage::TransferFinished { endpoint_id, is_upload, .. } => {
                    &&& final(state)@ == endpoint_updated(s, endpoint_id@, transfer_uncounted(s.endpoints[endpoint_id@], is_upload))
                    &&& final(cooldowns)@ == old(cooldowns)@
                    &&& r.registered_as is None
                    &&& nothing_sent(r)
                    &&& r.rematch
                },
                ClientMessage::TransferFailed { endpoint_id, file_id, chunk_index, source_peer, .. } => {
                    &&& final(state)@ == failure_handled(s, endpoint_id@, file_id@, chunk_index, source_peer@)
                    &&& final(cooldowns)@ == cooldowns_after_failure(s, old(cooldowns)@, source_peer@, now)
                    &&& r.registered_as is None
                    &&& nothing_sent(r)
                    &&& r.rematch
                },
            }
        }),
{
    let mut outgoing: Vec<Outgoing> = Vec::new();
    match msg {
        ClientMessage::Register { endpoint_id } => {
            register_endpoint(state, &endpoint_id);
            let ghost s1 = state@;
            outgoing.push(Outgoing {
                to: Recipient::Sender,
                message: ServerMessage::Registered {
                    endpoint_id: endpoint_id.clone(),
                    host_endpoint_id: state.host_endpoint_id.clone(),
                },
            });
            let files = state.file_list();
            outgoing.push(Outgoing { to: Recipient::Sender, message: ServerMessage::FileList { files } });
            Reaction { registered_as: Some(endpoint_id), outgoing, rematch: true }
        },
        ClientMessage::EndpointStatus { endpoint_id, file_id, owned_chunks, upload_count, download_count } => {
            apply_endpoint_status(state, &endpoint_id, &file_id, &owned_chunks, upload_count, download_count);
            Reaction { registered_as: None, outgoing, rematch: true }
        },
        ClientMessage::RequestChunk { endpoint_id, file_id, chunk_index } => {
            if let Some(reply) = handle_request_chunk(state, &endpoint_id, &file_id, chunk_index) {
                outgoing.push(Outgoing { to: Recipient::Sender, message: reply });
            }
            Reaction { registered_as: None, outgoing, rematch: false }
        },
        ClientMessage::StartDownload { endpoint_id, file_id } => {
            start_download(state, &endpoint_id, &file_id);
            if let Some(info) = state.file_chunks_info(&file_id) {
                outgoing.push(Outgoing { to: Recipient::Endpoint(endpoint_id), message: info });
            }
            Reaction { registered_as: None, outgoing, rematch: true }
        },
        ClientMessage::ChunkCompleted { endpoint_id, file_id, chunk_index } => {
            chunk_completed(state, &endpoint_id, &file_id, chunk_index);
            Reaction { registered_as: None, outgoing, rematch: true }
        },
        ClientMessage::WebRtcSignal { from, to, signal } => {
            outgoing.push(Outgoing { to: Recipient::Endpoint(to), message: ServerMessage::WebRtcSignal { from, signal } });
            Reaction { registered_as: None, outgoing, rematch: false }
        },
        ClientMessage::ChunkVerifyFailed { endpoint_id: _, file_id, chunk_index, source_peer } => {
            let reporter = match connection {
                Some(c) => c.clone(),
                None => String::new(),
            };
            outgoing.push(Outgoing {
                to: Recipient::Endpoint(source_peer),
                message: ServerMessage::ChunkVerifyFailedNotify { file_id, chunk_index, reporter },
            });
            Reaction { registered_as: None, outgoing, rematch: false }
        },
        ClientMessage::TransferStarted { endpoint_id, file_id: _, chunk_index: _, is_upload } => {
            transfer_started(state, &endpoint_id, is_upload);
            Reaction { registered_as: None, outgoing, rematch: false }
        },
        ClientMessage::TransferFinished { endpoint_id, file_id: _, chunk_index: _, is_upload } => {
            transfer_finished(state, &endpoint_id, is_upload);
            Reaction { registered_as: None, outgoing, rematch: true }
        },
        ClientMessage::TransferFailed { endpoint_id, file_id, chunk_index, source_peer, reason: _ } => {
            transfer_failed(state, cooldowns, &endpoint_id, &file_id, chunk_index, &source_peer, now);
            Reaction { registered_as: None, outgoing, rematch: true }
        },
    }
}

/// The endpoints that the messages `out` are addressed to (the sender
/// counts as the empty identifier).
pub open spec fn recipients(out: Seq<Outgoing>) -> Seq<Seq<char>> {
    out.map_values(
        |o: Outgoing|
            match o.to {
                Recipient::Endpoint(x) => x@,
                Recipient::Sender => Seq::empty(),
            },
    )
}

/// `o` tells an endpoint that `e` has left.
pub open spec fn announces_departure(o: Outgoing, e: Seq<char>) -> bool {
    &&& o.to is Endpoint
    &&& o.message matches ServerMessage::PeerDisconnected { endpoint_id } && endpoint_id@ == e
}

/// The connection that spoke for `endpoint_id` has closed: the endpoint is
/// forgotten with its host HTTP assignment, and every endpoint that
/// remains, other than the host (this coordinator itself), is told once
/// that it left.
pub fn handle_disconnect(state: &mut P2PState, endpoint_id: &String) -> (r: Reaction)
    ensures
        final(state)@ == disconnected(old(state)@, endpoint_id@),
        r.registered_as is None,
        !r.rematch,
        forall|i: int| 0 <= i < r.outgoing@.len() ==> announces_departure(#[trigger] r.outgoing@[i], endpoint_id@),
        recipients(r.outgoing@).no_duplicates(),
        recipients(r.outgoing@).to_set() == final(state)@.endpoints.dom().remove(final(state)@.host),
{
    disconnect_endpoint(state, endpoint_id);
    let keys = state.endpoints.keys();
    let ghost kv = string_views(keys@);
    let ghost s = state@;
    let mut outgoing: Vec<Outgoing> = Vec::new();
    for n in 0..keys.len()
        invariant
            kv == string_views(keys@),
            kv.to_set() == s.endpoints.dom(),
            kv.no_duplicates(),
            s == state@,
            recipients(outgoing@).no_duplicates(),
            forall|i: int| 0 <= i < outgoing@.len() ==> announces_departure(#[trigger] outgoing@[i], endpoint_id@),
            forall|x: Seq<char>| #![trigger recipients(outgoing@).to_set().contains(x)]
                recipients(outgoing@).to_set().contains(x) <==> (kv.take(n as int).contains(x) && x != s.host),
    {
        let k = &keys[n];
        proof {
            assert(kv[n as int] == k@);
            let t0 = kv.take(n as int);
            assert(!t0.contains(k@)) by {
                if t0.contains(k@) {
                    let j = choose|j: int| 0 <= j < t0.len() && t0[j] == k@;
                    assert(kv[j] == kv[n as int]);
                }
            }
        }
        let ghost before = recipients(outgoing@);
        let ghost out0 = outgoing@;
        if !(*k == state.host_endpoint_id) {
            let o = Outgoing {
                to: Recipient::Endpoint(k.clone()),
                message: ServerMessage::PeerDisconnected { endpoint_id: endpoint_id.clone() },
            };
            outgoing.push(o);
            proof {
                assert(outgoing@ == out0.push(o));
                assert(recipients(outgoing@) =~= before.push(k@));
                before.lemma_push_to_set_commute(k@);
                assert(!before.contains(k@)) by {
                    if before.contains(k@) {
                        let j = choose|j: int| 0 <= j < before.len() && before[j] == k@;
                        assert(before.to_set().contains(before[j]));
                    }
                }
                assert forall|i: int| 0 <= i < outgoing@.len() implies announces_departure(
                    #[trigger] outgoing@[i],
                    endpoint_id@,
                ) by {
                    if i < out0.len() {
                        assert(outgoing@[i] == out0[i]);
                    }
                }
            }
        }
        proof {
            let t1 = kv.take(n + 1);
            let t0 = kv.take(n as int);
            assert forall|x: Seq<char>| t1.contains(x) <==> (t0.contains(x) || x == k@) by {
                if t1.contains(x) {
                    let j = choose|j: int| 0 <= j < t1.len() && t1[j] == x;
                    if j < n {
                        assert(t0[j] == x);
                    }
                }
                if t0.contains(x) {
                    let j = choose|j: int| 0 <= j < t0.len() && t0[j] == x;
                    assert(t1[j] == x);
                }
                if x == k@ {
                    assert(t1[n as int] == x);
                }
            }
        }
    }
    proof {
        assert(kv.take(kv.len() as int) =~= kv);
        assert(recipients(outgoing@).to_set() =~= s.endpoints.dom().remove(s.host));
    }
    Reaction { registered_as: None, outgoing, rematch: false }
}

} // verus!
