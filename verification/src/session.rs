//! How the coordinator reacts to each message an endpoint sends, to an
//! endpoint leaving, and to the host's chunk server being asked for data.

use vstd::prelude::*;
use std::collections::HashSet;
use crate::p2p::{EndpointState, EndpointView, P2PState, P2PView, AssignmentView, fresh_endpoint, opt_view};
use crate::table::{StrMap, string_views};
use crate::messages::ServerMessage;
use crate::matching::{SourceCooldowns, SOURCE_COOLDOWN_MS};
use crate::p2p::{id_is_shared, find_file};
use crate::text::{trim_text, trimmed};

verus! {

broadcast use vstd::std_specs::hash::group_hash_axioms;

/// The set of the chunk indices listed in `v`.
fn chunk_set(v: &Vec<u32>) -> (set: HashSet<u32>)
    ensures
        set@ == v@.to_set(),
{
    let mut set: HashSet<u32> = HashSet::new();
    for i in 0..v.len()
        invariant
            set@ == v@.take(i as int).to_set(),
    {
        set.insert(v[i]);
        proof {
            assert(v@.take(i + 1) =~= v@.take(i as int).push(v@[i as int]));
            v@.take(i as int).lemma_push_to_set_commute(v@[i as int]);
        }
    }
    proof {
        assert(v@.take(v@.len() as int) =~= v@);
    }
    set
}

/// The state with endpoint `eid` replaced by `ep`.
pub open spec fn with_endpoint(s: P2PView, eid: Seq<char>, ep: EndpointView) -> P2PView {
    P2PView { endpoints: s.endpoints.insert(eid, ep), ..s }
}

/// After `eid` registers: a fresh record, unless it is already known.
pub open spec fn registered(s: P2PView, eid: Seq<char>) -> P2PView {
    if s.endpoints.contains_key(eid) {
        s
    } else {
        with_endpoint(s, eid, fresh_endpoint(eid))
    }
}

/// An endpoint after a status report: a non-empty file identifier becomes
/// its current file with exactly the reported chunks; the transfer counts
/// are taken as reported.
pub open spec fn status_applied(ep: EndpointView, file_id: Seq<char>, chunks: Set<u32>, up: u32, down: u32) -> EndpointView {
    let ep1 = if file_id.len() > 0 {
        EndpointView { file_id: Some(file_id), owned: ep.owned.insert(file_id, chunks), ..ep }
    } else {
        ep
    };
    EndpointView { upload_count: up, download_count: down, ..ep1 }
}

/// An endpoint after announcing it downloads `f`: `f` is its current file,
/// with an empty chunk record if it had none.
pub open spec fn download_started(ep: EndpointView, f: Seq<char>) -> EndpointView {
    EndpointView {
        file_id: Some(f),
        owned: if ep.owned.contains_key(f) { ep.owned } else { ep.owned.insert(f, Set::empty()) },
        ..ep
    }
}

/// An endpoint after completing chunk `ch` of `f`.
pub open spec fn chunk_added(ep: EndpointView, f: Seq<char>, ch: u32) -> EndpointView {
    EndpointView { owned: ep.owned.insert(f, crate::dispatch::owned_of(ep, f).insert(ch)), ..ep }
}

/// The host HTTP assignments after `eid` is done with chunk `ch` of `f`:
/// its assignment goes if it is that very chunk.
pub open spec fn http_released(http: Map<Seq<char>, AssignmentView>, eid: Seq<char>, f: Seq<char>, ch: u32) -> Map<Seq<char>, AssignmentView> {
    if http.contains_key(eid) && http[eid].file_id == f && http[eid].chunk_index == ch {
        http.remove(eid)
    } else {
        http
    }
}

/// Applies `g` to endpoint `eid` if it is known.
pub open spec fn endpoint_updated(s: P2PView, eid: Seq<char>, ep: EndpointView) -> P2PView {
    if s.endpoints.contains_key(eid) {
        with_endpoint(s, eid, ep)
    } else {
        s
    }
}

/// An endpoint after a transfer begins.
pub open spec fn transfer_counted(ep: EndpointView, is_upload: bool) -> EndpointView {
    if is_upload {
        EndpointView { upload_count: (ep.upload_count + 1) as u32, ..ep }
    } else {
        EndpointView { download_count: (ep.download_count + 1) as u32, ..ep }
    }
}

/// An endpoint after a transfer ends (counts do not go below zero).
pub open spec fn transfer_uncounted(ep: EndpointView, is_upload: bool) -> EndpointView {
    if is_upload {
        EndpointView { upload_count: if ep.upload_count > 0 { (ep.upload_count - 1) as u32 } else { 0 }, ..ep }
    } else {
        EndpointView { download_count: if ep.download_count > 0 { (ep.download_count - 1) as u32 } else { 0 }, ..ep }
    }
}

/// The state after endpoint `eid` leaves.
pub open spec fn disconnected(s: P2PView, eid: Seq<char>) -> P2PView {
    P2PView { endpoints: s.endpoints.remove(eid), http: s.http.remove(eid), ..s }
}

/// Records endpoint `endpoint_id`, unless it is already known.
pub fn register_endpoint(state: &mut P2PState, endpoint_id: &String)
    ensures
        final(state)@ == registered(old(state)@, endpoint_id@),
{
    if !state.endpoints.contains_key(endpoint_id) {
        state.endpoints.insert(endpoint_id.clone(), EndpointState::fresh(endpoint_id.clone()));
    }
}

/// Applies a status report of endpoint `endpoint_id`. Unknown endpoints
/// are ignored.
pub fn apply_endpoint_status(
    state: &mut P2PState,
    endpoint_id: &String,
    file_id: &String,
    owned_chunks: &Vec<u32>,
    upload_count: u32,
    download_count: u32,
)
    ensures
        !old(state)@.endpoints.contains_key(endpoint_id@) ==> final(state)@ == old(state)@,
        old(state)@.endpoints.contains_key(endpoint_id@) ==> {
            let ep = old(state)@.endpoints[endpoint_id@];
            &&& final(state)@ == with_endpoint(
                old(state)@,
                endpoint_id@,
                status_applied(ep, file_id@, owned_chunks@.to_set(), upload_count, download_count),
            )
        },
{
    match state.endpoints.get_mut(endpoint_id) {
        Some(ep) => {
            if !file_id.as_str().is_empty() {
                ep.file_id = Some(file_id.clone());
                ep.owned_chunks.insert(file_id.clone(), chunk_set(owned_chunks));
            }
            ep.upload_count = upload_count;
            ep.download_count = download_count;
        },
        None => {},
    }
}

/// Endpoint `endpoint_id` starts downloading `file_id`.
pub fn start_download(state: &mut P2PState, endpoint_id: &String, file_id: &String)
    ensures
        final(state)@ == endpoint_updated(
            old(state)@,
            endpoint_id@,
            download_started(old(state)@.endpoints[endpoint_id@], file_id@),
        ),
{
    match state.endpoints.get_mut(endpoint_id) {
        Some(ep) => {
            ep.file_id = Some(file_id.clone());
            if !ep.owned_chunks.contains_key(file_id) {
                ep.owned_chunks.insert(file_id.clone(), HashSet::new());
            }
        },
        None => {},
    }
}

/// Endpoint `endpoint_id` holds chunk `chunk_index` of `file_id`; a host
/// HTTP assignment of exactly that chunk to it is over.
pub fn chunk_completed(state: &mut P2PState, endpoint_id: &String, file_id: &String, chunk_index: u32)
    ensures
        final(state)@ == (P2PView {
            http: http_released(old(state)@.http, endpoint_id@, file_id@, chunk_index),
            ..endpoint_updated(
                old(state)@,
                endpoint_id@,
                chunk_added(old(state)@.endpoints[endpoint_id@], file_id@, chunk_index),
            )
        }),
{
    match state.endpoints.get_mut(endpoint_id) {
        Some(ep) => {
            match ep.owned_chunks.get_mut(file_id) {
                Some(set) => {
                    set.insert(chunk_index);
                },
                None => {
                    let mut set: HashSet<u32> = HashSet::new();
                    set.insert(chunk_index);
                    ep.owned_chunks.insert(file_id.clone(), set);
                },
            }
        },
        None => {},
    }
    release_http_chunk(state, endpoint_id, file_id, chunk_index);
}

/// Ends the host HTTP assignment of `endpoint_id` if it is chunk
/// `chunk_index` of `file_id`.
fn release_http_chunk(state: &mut P2PState, endpoint_id: &String, file_id: &String, chunk_index: u32)
    ensures
        final(state)@ == (P2PView { http: http_released(old(state)@.http, endpoint_id@, file_id@, chunk_index), ..old(state)@ }),
{
    let matches = match state.http_assignments.get(endpoint_id) {
        Some(a) => a.file_id == *file_id && a.chunk_index == chunk_index,
        None => false,
    };
    if matches {
        state.http_assignments.remove(endpoint_id);
    }
}

/// Drops the host HTTP assignment of `endpoint_id`, whatever it is (used
/// when the assignment could not be delivered).
pub fn drop_http_assignment(state: &mut P2PState, endpoint_id: &String)
    ensures
        final(state)@ == (P2PView { http: old(state)@.http.remove(endpoint_id@), ..old(state)@ }),
{
    state.http_assignments.remove(endpoint_id);
}

/// Endpoint `endpoint_id` leaves: it is forgotten with its host HTTP
/// assignment.
pub fn disconnect_endpoint(state: &mut P2PState, endpoint_id: &String)
    ensures
        final(state)@ == disconnected(old(state)@, endpoint_id@),
{
    state.endpoints.remove(endpoint_id);
    state.http_assignments.remove(endpoint_id);
}

/// A transfer begins at endpoint `endpoint_id`.
pub fn transfer_started(state: &mut P2PState, endpoint_id: &String, is_upload: bool)
    requires
        old(state)@.endpoints.contains_key(endpoint_id@) ==> if is_upload {
            old(state)@.endpoints[endpoint_id@].upload_count < u32::MAX
        } else {
            old(state)@.endpoints[endpoint_id@].download_count < u32::MAX
        },
    ensures
        final(state)@ == endpoint_updated(
            old(state)@,
            endpoint_id@,
            transfer_counted(old(state)@.endpoints[endpoint_id@], is_upload),
        ),
{
    match state.endpoints.get_mut(endpoint_id) {
        Some(ep) => {
            if is_upload {
                ep.upload_count = ep.upload_count + 1;
            } else {
                ep.download_count = ep.download_count + 1;
            }
        },
        None => {},
    }
}

/// A transfer ends at endpoint `endpoint_id`.
pub fn transfer_finished(state: &mut P2PState, endpoint_id: &String, is_upload: bool)
    ensures
        final(state)@ == endpoint_updated(
            old(state)@,
            endpoint_id@,
            transfer_uncounted(old(state)@.endpoints[endpoint_id@], is_upload),
        ),
{
    match state.endpoints.get_mut(endpoint_id) {
        Some(ep) => {
            if is_upload {
                ep.upload_count = ep.upload_count.saturating_sub(1);
            } else {
                ep.download_count = ep.download_count.saturating_sub(1);
            }
        },
        None => {},
    }
}

/// How many uploads a suggested peer may already run (direct requests).
pub const MAX_SUGGEST_UPLOADS: u32 = 2;

/// How long an endpoint is told to wait before asking again (seconds).
pub const RETRY_WAIT_SECONDS: u32 = 3;

/// The endpoints other than `requester` that hold chunk `ch` of `f`.
pub open spec fn chunk_holders(s: P2PView, requester: Seq<char>, f: Seq<char>, ch: u32) -> Set<Seq<char>> {
    Set::new(
        |e: Seq<char>|
            s.endpoints.contains_key(e) && e != requester && s.endpoints[e].owned.contains_key(f)
                && s.endpoints[e].owned[f].contains(ch),
    )
}

/// `m` answers endpoint `requester` asking where to get chunk `ch` of `f`:
/// a holder with the fewest uploads, if it runs fewer than two; else wait.
pub open spec fn request_answer(s: P2PView, requester: Seq<char>, f: Seq<char>, ch: u32, m: ServerMessage) -> bool {
    let holders = chunk_holders(s, requester, f, ch);
    match m {
        ServerMessage::SuggestPeer { file_id, chunk_index, peer_id } => {
            &&& file_id@ == f
            &&& chunk_index == ch
            &&& holders.contains(peer_id@)
            &&& s.endpoints[peer_id@].upload_count < MAX_SUGGEST_UPLOADS
            &&& forall|e: Seq<char>| #[trigger] holders.contains(e)
                ==> s.endpoints[peer_id@].upload_count <= s.endpoints[e].upload_count
        },
        ServerMessage::WaitAndRetry { file_id, chunk_index, wait_seconds } => {
            &&& file_id@ == f
            &&& chunk_index == ch
            &&& wait_seconds == RETRY_WAIT_SECONDS
            &&& forall|e: Seq<char>| #[trigger] holders.contains(e) ==> s.endpoints[e].upload_count >= MAX_SUGGEST_UPLOADS
        },
        _ => false,
    }
}

/// The answer to endpoint `requester` asking where to get chunk
/// `chunk_index` of `file_id`: nothing if the file is not shared; else the
/// holder with the fewest uploads if it runs fewer than two, else wait.
pub fn handle_request_chunk(state: &P2PState, requester: &String, file_id: &String, chunk_index: u32) -> (r: Option<ServerMessage>)
    ensures
        !id_is_shared(state@.files, file_id@) ==> r is None,
        id_is_shared(state@.files, file_id@) ==> (r matches Some(m) && request_answer(
            state@,
            requester@,
            file_id@,
            chunk_index,
            m,
        )),
{
    if find_file(&state.shared_files, file_id).is_none() {
        return None;
    }
    let ghost s = state@;
    let ghost holders = chunk_holders(s, requester@, file_id@, chunk_index);
    let keys = state.endpoints.keys();
    let ghost kv = string_views(keys@);
    let mut best: Option<usize> = None;
    let mut best_count: u32 = 0;
    for n in 0..keys.len()
        invariant
            kv == string_views(keys@),
            kv.to_set() == s.endpoints.dom(),
            s == state@,
            holders == chunk_holders(s, requester@, file_id@, chunk_index),
            match best {
                Some(b) => b < n && holders.contains(kv[b as int]) && s.endpoints[kv[b as int]].upload_count
                    == best_count,
                None => true,
            },
            forall|j: int| 0 <= j < n && #[trigger] holders.contains(kv[j]) ==> best is Some
                && best_count <= s.endpoints[kv[j]].upload_count,
    {
        let k = &keys[n];
        proof {
            assert(kv[n as int] == k@);
            assert(kv.to_set().contains(kv[n as int]));
        }
        let ep = state.endpoints.get(k).unwrap();
        let holds = !(*k == *requester) && match ep.owned_chunks.get(file_id) {
            Some(set) => set.contains(&chunk_index),
            None => false,
        };
        proof {
            assert(holds == holders.contains(k@));
        }
        if holds {
            let better = match best {
                None => true,
                Some(_) => ep.upload_count < best_count,
            };
            if better {
                best = Some(n);
                best_count = ep.upload_count;
            }
        }
    }
    proof {
        assert forall|e: Seq<char>| #[trigger] holders.contains(e) implies best is Some && best_count
            <= s.endpoints[e].upload_count by {
            assert(kv.to_set().contains(e));
            let j = choose|j: int| 0 <= j < kv.len() && kv[j] == e;
        }
    }
    match best {
        Some(b) => {
            if best_count < MAX_SUGGEST_UPLOADS {
                proof {
                    assert(kv[b as int] == keys@[b as int]@);
                }
                Some(ServerMessage::SuggestPeer {
                    file_id: file_id.clone(),
                    chunk_index,
                    peer_id: keys[b].clone(),
                })
            } else {
                Some(ServerMessage::WaitAndRetry { file_id: file_id.clone(), chunk_index, wait_seconds: RETRY_WAIT_SECONDS })
            }
        },
        None => Some(ServerMessage::WaitAndRetry { file_id: file_id.clone(), chunk_index, wait_seconds: RETRY_WAIT_SECONDS }),
    }
}

/// Why the host refuses to serve a chunk over HTTP.
#[derive(Clone, Copy, Debug, PartialEq, Eq, Structural)]
pub enum HttpChunkRefusal {
    /// The request names no endpoint.
    MissingEndpoint,
    /// The endpoint has no host HTTP assignment.
    NoAssignment,
    /// The request is for another chunk than the one assigned.
    AssignmentMismatch,
    /// The endpoint is already downloading its assigned chunk.
    AlreadyStarted,
}

/// The endpoint named by a request parameter: the parameter without
/// surrounding white space, if anything is left.
pub open spec fn requested_endpoint(param: Option<Seq<char>>) -> Option<Seq<char>> {
    match param {
        Some(p) => if trimmed(p).len() > 0 {
            Some(trimmed(p))
        } else {
            None
        },
        None => None,
    }
}

/// The host serves endpoint `e` its assigned chunk: the assignment is
/// marked begun and the host counts one more upload.
pub open spec fn http_download_begun(s: P2PView, e: Seq<char>) -> P2PView {
    let s1 = P2PView { http: s.http.insert(e, AssignmentView { started: true, ..s.http[e] }), ..s };
    endpoint_updated(s1, s.host, transfer_counted(s.endpoints[s.host], true))
}

/// How the host answers a request for chunk `ch` of `f` from the endpoint
/// named by request parameter `param`: the endpoint, if the chunk is the
/// one assigned to it and not yet begun, else why not.
pub open spec fn http_admission(s: P2PView, param: Option<Seq<char>>, f: Seq<char>, ch: u32) -> Result<Seq<char>, HttpChunkRefusal> {
    match requested_endpoint(param) {
        None => Err(HttpChunkRefusal::MissingEndpoint),
        Some(e) => if !s.http.contains_key(e) {
            Err(HttpChunkRefusal::NoAssignment)
        } else if s.http[e].file_id != f || s.http[e].chunk_index != ch {
            Err(HttpChunkRefusal::AssignmentMismatch)
        } else if s.http[e].started {
            Err(HttpChunkRefusal::AlreadyStarted)
        } else {
            Ok(e)
        },
    }
}

/// Decides whether the host serves chunk `chunk_index` of `file_id` to the
/// endpoint named by `endpoint_param`, changing nothing.
pub fn admit_host_http_request(
    state: &P2PState,
    endpoint_param: &Option<String>,
    file_id: &String,
    chunk_index: u32,
) -> (r: Result<String, HttpChunkRefusal>)
    ensures
        match http_admission(state@, opt_view(*endpoint_param), file_id@, chunk_index) {
            Ok(e) => r matches Ok(id) && id@ == e,
            Err(why) => r == Err::<String, HttpChunkRefusal>(why),
        },
{
    let eid = match endpoint_param {
        None => {
            return Err(HttpChunkRefusal::MissingEndpoint);
        },
        Some(p) => {
            let t = trim_text(p);
            if t.as_str().is_empty() {
                return Err(HttpChunkRefusal::MissingEndpoint);
            }
            t
        },
    };
    match state.http_assignments.get(&eid) {
        None => Err(HttpChunkRefusal::NoAssignment),
        Some(a) => if !(a.file_id == *file_id) || a.chunk_index != chunk_index {
            Err(HttpChunkRefusal::AssignmentMismatch)
        } else if a.started {
            Err(HttpChunkRefusal::AlreadyStarted)
        } else {
            Ok(eid)
        },
    }
}

/// Answers a request for chunk `chunk_index` of `file_id` from the endpoint
/// named by `endpoint_param`: only its assigned chunk, and only once. An
/// admitted request marks the assignment begun and counts one more host
/// upload.
pub fn begin_host_http_download(
    state: &mut P2PState,
    endpoint_param: Option<String>,
    file_id: &String,
    chunk_index: u32,
) -> (r: Result<String, HttpChunkRefusal>)
    requires
        http_admission(old(state)@, opt_view(endpoint_param), file_id@, chunk_index) is Ok
            && old(state)@.endpoints.contains_key(old(state)@.host)
            ==> old(state)@.endpoints[old(state)@.host].upload_count < u32::MAX,
    ensures
        match http_admission(old(state)@, opt_view(endpoint_param), file_id@, chunk_index) {
            Ok(e) => (r matches Ok(id) && id@ == e) && final(state)@ == http_download_begun(old(state)@, e),
            Err(why) => r == Err::<String, HttpChunkRefusal>(why) && final(state)@ == old(state)@,
        },
{
    let eid = match admit_host_http_request(state, &endpoint_param, file_id, chunk_index) {
        Err(why) => {
            return Err(why);
        },
        Ok(e) => e,
    };
    if let Some(a) = state.http_assignments.get_mut(&eid) {
        a.started = true;
    }
    match state.endpoints.get_mut(&state.host_endpoint_id) {
        Some(host) => {
            host.upload_count = host.upload_count + 1;
        },
        None => {},
    }
    Ok(eid)
}

/// The host finished serving a chunk over HTTP: one upload less.
pub fn end_host_http_download(state: &mut P2PState)
    ensures
        final(state)@ == endpoint_updated(
            old(state)@,
            old(state)@.host,
            transfer_uncounted(old(state)@.endpoints[old(state)@.host], true),
        ),
{
    match state.endpoints.get_mut(&state.host_endpoint_id) {
        Some(host) => {
            host.upload_count = host.upload_count.saturating_sub(1);
        },
        None => {},
    }
}

/// A failed transfer cools its source down, unless the source is the
/// host (or unnamed).
pub open spec fn cools_source(s: P2PView, source: Seq<char>) -> bool {
    source.len() > 0 && source != s.host
}

/// After a failed transfer of chunk `ch` of `f` from `source` to `eid`:
/// a failure of the host's HTTP source ends that endpoint's assignment of
/// the chunk.
pub open spec fn failure_handled(s: P2PView, eid: Seq<char>, f: Seq<char>, ch: u32, source: Seq<char>) -> P2PView {
    if !cools_source(s, source) && source == s.host {
        P2PView { http: http_released(s.http, eid, f, ch), ..s }
    } else {
        s
    }
}

/// The cooldowns after a failed transfer from `source` at `now`.
pub open spec fn cooldowns_after_failure(s: P2PView, cool: Map<Seq<char>, u64>, source: Seq<char>, now: u64) -> Map<Seq<char>, u64> {
    if cools_source(s, source) {
        cool.insert(source, (now + SOURCE_COOLDOWN_MS) as u64)
    } else {
        cool
    }
}

/// A transfer of chunk `chunk_index` of `file_id` from `source_peer` to
/// `endpoint_id` failed at `now`.
pub fn transfer_failed(
    state: &mut P2PState,
    cooldowns: &mut SourceCooldowns,
    endpoint_id: &String,
    file_id: &String,
    chunk_index: u32,
    source_peer: &String,
    now: u64,
)
    requires
        cools_source(old(state)@, source_peer@) ==> now <= u64::MAX - SOURCE_COOLDOWN_MS,
    ensures
        final(state)@ == failure_handled(old(state)@, endpoint_id@, file_id@, chunk_index, source_peer@),
        final(cooldowns)@ == cooldowns_after_failure(old(state)@, old(cooldowns)@, source_peer@, now),
{
    let from_host = *source_peer == state.host_endpoint_id;
    if !source_peer.as_str().is_empty() && !from_host {
        cooldowns.until.insert(source_peer.clone(), now + SOURCE_COOLDOWN_MS);
    } else if from_host {
        release_http_chunk(state, endpoint_id, file_id, chunk_index);
    }
}

} // verus!
