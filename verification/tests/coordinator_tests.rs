use mesh_p2p_share::chunking::{chunk_meta, ChunkList, CHUNK_SIZE};
use mesh_p2p_share::dispatch::{host_http_dispatch, HTTP_ASSIGNMENT_TTL_MS, HTTP_STARTED_ASSIGNMENT_TTL_MS};
use mesh_p2p_share::matching::{find_and_assign_matches, SourceCooldowns, SOURCE_COOLDOWN_MS};
use mesh_p2p_share::messages::ServerMessage;
use mesh_p2p_share::p2p::{add_shared_file, new_shared_file_info, remove_shared_file, P2PState, SharedFileInfo};
use mesh_p2p_share::session::{
    admit_host_http_request, apply_endpoint_status, begin_host_http_download, chunk_completed, disconnect_endpoint, drop_http_assignment,
    end_host_http_download, handle_request_chunk, register_endpoint, start_download, transfer_failed,
    transfer_finished, transfer_started, HttpChunkRefusal,
};

fn s(x: &str) -> String {
    x.to_string()
}

/// A shared file of `total` bytes whose first chunk read was `abc` and the
/// others came back empty.
fn file_of(total: u64, path: &str) -> SharedFileInfo {
    let mut l = ChunkList::new(total);
    l.push(b"abc").unwrap();
    while l.next_chunk().is_some() {
        l.push(b"").unwrap();
    }
    new_shared_file_info(s("movie.mkv"), s(path), l).unwrap()
}

fn owned(state: &P2PState, ep: &str, file: &String) -> Vec<u32> {
    let e = state.endpoints.get(&s(ep)).unwrap();
    let mut v: Vec<u32> = match e.owned_chunks.get(file) {
        Some(set) => set.iter().copied().collect(),
        None => Vec::new(),
    };
    v.sort();
    v
}

/// A host sharing one file of three chunks, with downloaders "a" and "b".
fn two_downloaders() -> (P2PState, String) {
    let mut st = P2PState::new(s("host"));
    let info = add_shared_file(&mut st, file_of(2 * CHUNK_SIZE + 1, "/data/movie.mkv")).unwrap();
    let f = info.file_id.clone();
    register_endpoint(&mut st, &s("b"));
    register_endpoint(&mut st, &s("a"));
    start_download(&mut st, &s("a"), &f);
    start_download(&mut st, &s("b"), &f);
    (st, f)
}

#[test]
fn new_state_knows_only_the_host() {
    let st = P2PState::new(s("host"));
    assert!(st.endpoints.contains_key(&s("host")));
    assert_eq!(st.endpoints.keys(), vec![s("host")]);
    let h = st.endpoints.get(&s("host")).unwrap();
    assert_eq!(h.upload_count, 0);
    assert_eq!(h.download_count, 0);
    assert!(h.file_id.is_none());
    assert!(st.shared_files.is_empty());
    assert!(st.http_assignments.is_empty());
    let d = P2PState::default();
    assert!(d.endpoints.is_empty());
    assert_eq!(d.host_endpoint_id, "");
}

#[test]
fn adding_a_file_gives_the_host_every_chunk() {
    let mut st = P2PState::new(s("host"));
    let info = add_shared_file(&mut st, file_of(2 * CHUNK_SIZE + 1, "/data/movie.mkv")).unwrap();
    assert_eq!(info.chunk_count, 3);
    assert_eq!(st.shared_files.len(), 1);
    assert_eq!(owned(&st, "host", &info.file_id), vec![0, 1, 2]);
    let list = st.file_list();
    assert_eq!(list.len(), 1);
    assert_eq!(list[0].file_id, info.file_id);
    assert_eq!(list[0].file_name, "movie.mkv");
    assert_eq!(list[0].total_size, 2 * CHUNK_SIZE + 1);
    assert_eq!(list[0].chunk_count, 3);
}

#[test]
fn adding_the_same_path_twice_is_refused() {
    let mut st = P2PState::new(s("host"));
    add_shared_file(&mut st, file_of(10, "/data/x")).unwrap();
    let again = add_shared_file(&mut st, file_of(10, "/data/x"));
    assert_eq!(again.err().unwrap(), "此檔案已在分享清單中");
    assert_eq!(st.shared_files.len(), 1);
}

#[test]
fn removing_a_file_forgets_everyones_chunks() {
    let (mut st, f) = two_downloaders();
    chunk_completed(&mut st, &s("a"), &f, 1);
    remove_shared_file(&mut st, &s("/data/movie.mkv"));
    assert!(st.shared_files.is_empty());
    assert!(st.endpoints.get(&s("a")).unwrap().owned_chunks.get(&f).is_none());
    assert!(st.endpoints.get(&s("host")).unwrap().owned_chunks.get(&f).is_none());
    remove_shared_file(&mut st, &s("/data/none"));
    assert!(st.shared_files.is_empty());
}

#[test]
fn add_then_remove_restores_the_state() {
    let mut st = P2PState::new(s("host"));
    let kept = add_shared_file(&mut st, file_of(10, "/data/keep")).unwrap();
    let before = owned(&st, "host", &kept.file_id);
    let added = add_shared_file(&mut st, file_of(10, "/data/tmp")).unwrap();
    remove_shared_file(&mut st, &s("/data/tmp"));
    assert_eq!(st.shared_files.len(), 1);
    assert_eq!(st.shared_files[0].file_path, "/data/keep");
    assert_eq!(owned(&st, "host", &kept.file_id), before);
    assert!(st.endpoints.get(&s("host")).unwrap().owned_chunks.get(&added.file_id).is_none());
}

#[test]
fn locating_chunks() {
    let mut st = P2PState::new(s("host"));
    let mut info = file_of(CHUNK_SIZE + 7, "/data/y");
    info.chunks = vec![chunk_meta(0, b"0123"), chunk_meta(1, b"45")];
    let info = add_shared_file(&mut st, info).unwrap();
    let loc = st.locate_chunk(&info.file_id, 1).unwrap();
    assert_eq!(loc.file_path, "/data/y");
    assert_eq!(loc.offset, CHUNK_SIZE);
    assert_eq!(loc.size, 2);
    assert_eq!(st.locate_chunk(&info.file_id, 2).err().unwrap(), "無效的區塊索引");
    assert_eq!(st.locate_chunk(&s("nope"), 0).err().unwrap(), "找不到該檔案");
}

#[test]
fn file_chunks_info_describes_every_chunk() {
    let mut st = P2PState::new(s("host"));
    let mut info = file_of(20, "/data/z");
    info.chunks = vec![chunk_meta(0, b"123456789")];
    let info = add_shared_file(&mut st, info).unwrap();
    match st.file_chunks_info(&info.file_id) {
        Some(ServerMessage::FileChunksInfo { file_id, file_name, total_size, chunk_count, chunks }) => {
            assert_eq!(file_id, info.file_id);
            assert_eq!(file_name, "movie.mkv");
            assert_eq!(total_size, 20);
            assert_eq!(chunk_count, 1);
            assert_eq!(chunks.len(), 1);
            assert_eq!(chunks[0].crc32, 0xCBF4_3926);
            assert_eq!(chunks[0].size, 9);
        }
        _ => panic!("expected file chunks info"),
    }
    assert!(st.file_chunks_info(&s("missing")).is_none());
}

#[test]
fn status_reports_replace_records() {
    let (mut st, f) = two_downloaders();
    apply_endpoint_status(&mut st, &s("a"), &f, &vec![2, 0, 2], 0, 0);
    assert_eq!(owned(&st, "a", &f), vec![0, 2]);
    apply_endpoint_status(&mut st, &s("a"), &f, &vec![0, 2], 1, 0);
    assert_eq!(st.endpoints.get(&s("a")).unwrap().upload_count, 1);
    apply_endpoint_status(&mut st, &s("a"), &s(""), &vec![], 1, 2);
    assert_eq!(owned(&st, "a", &f), vec![0, 2]);
    assert_eq!(st.endpoints.get(&s("a")).unwrap().download_count, 2);
    apply_endpoint_status(&mut st, &s("ghost"), &f, &vec![1], 1, 1);
    assert!(!st.endpoints.contains_key(&s("ghost")));
}

#[test]
fn registering_twice_keeps_the_record() {
    let (mut st, f) = two_downloaders();
    chunk_completed(&mut st, &s("a"), &f, 0);
    register_endpoint(&mut st, &s("a"));
    assert_eq!(owned(&st, "a", &f), vec![0]);
    assert_eq!(st.endpoints.get(&s("a")).unwrap().file_id, Some(f.clone()));
}

#[test]
fn transfer_counts_never_go_below_zero() {
    let (mut st, _f) = two_downloaders();
    transfer_started(&mut st, &s("a"), true);
    transfer_started(&mut st, &s("a"), false);
    assert_eq!(st.endpoints.get(&s("a")).unwrap().upload_count, 1);
    assert_eq!(st.endpoints.get(&s("a")).unwrap().download_count, 1);
    transfer_finished(&mut st, &s("a"), true);
    transfer_finished(&mut st, &s("a"), true);
    assert_eq!(st.endpoints.get(&s("a")).unwrap().upload_count, 0);
    transfer_finished(&mut st, &s("a"), false);
    assert_eq!(st.endpoints.get(&s("a")).unwrap().download_count, 0);
    transfer_started(&mut st, &s("nobody"), true);
    assert!(!st.endpoints.contains_key(&s("nobody")));
}

#[test]
fn host_http_takes_turns_and_spreads_chunks() {
    let (mut st, f) = two_downloaders();
    let d1 = host_http_dispatch(&mut st, 0).unwrap();
    assert_eq!((d1.endpoint_id.as_str(), d1.file_id.as_str(), d1.chunk_index), ("a", f.as_str(), 0));
    assert!(host_http_dispatch(&mut st, 1).is_none());
    chunk_completed(&mut st, &s("a"), &f, 0);
    assert!(st.http_assignments.is_empty());
    let d2 = host_http_dispatch(&mut st, 2).unwrap();
    assert_eq!((d2.endpoint_id.as_str(), d2.chunk_index), ("b", 1));
    chunk_completed(&mut st, &s("b"), &f, 1);
    let d3 = host_http_dispatch(&mut st, 3).unwrap();
    assert_eq!((d3.endpoint_id.as_str(), d3.chunk_index), ("a", 2));
    assert_eq!(*st.file_chunk_cursors.get(&f).unwrap(), 0);
    assert_eq!(st.file_last_http_endpoint.get(&f).unwrap(), "a");
}

#[test]
fn host_http_skips_complete_downloaders_and_the_host() {
    let (mut st, f) = two_downloaders();
    apply_endpoint_status(&mut st, &s("a"), &f, &vec![0, 1, 2], 0, 0);
    let d = host_http_dispatch(&mut st, 0).unwrap();
    assert_eq!(d.endpoint_id, "b");
    assert_eq!(d.chunk_index, 0);
}

#[test]
fn host_http_skips_endpoints_holding_the_cursor_chunk() {
    let (mut st, f) = two_downloaders();
    apply_endpoint_status(&mut st, &s("a"), &f, &vec![0], 0, 0);
    let d = host_http_dispatch(&mut st, 0).unwrap();
    assert_eq!((d.endpoint_id.as_str(), d.chunk_index), ("b", 0));
    assert_eq!(*st.file_chunk_cursors.get(&f).unwrap(), 1);
}

#[test]
fn host_http_waits_while_every_candidate_holds_the_cursor_chunk() {
    let (mut st, f) = two_downloaders();
    disconnect_endpoint(&mut st, &s("b"));
    apply_endpoint_status(&mut st, &s("a"), &f, &vec![0, 1], 0, 0);
    assert!(host_http_dispatch(&mut st, 0).is_none());
    assert!(st.http_assignments.is_empty());
    assert!(st.file_chunk_cursors.get(&f).is_none());
}

#[test]
fn stale_host_http_assignments_expire() {
    let (mut st, f) = two_downloaders();
    let d = host_http_dispatch(&mut st, 1000).unwrap();
    assert_eq!(d.endpoint_id, "a");
    assert!(host_http_dispatch(&mut st, 1000 + HTTP_ASSIGNMENT_TTL_MS).is_none());
    let d2 = host_http_dispatch(&mut st, 1001 + HTTP_ASSIGNMENT_TTL_MS).unwrap();
    assert_eq!(d2.endpoint_id, "b");
    let started = begin_host_http_download(&mut st, Some(s("b")), &f, d2.chunk_index);
    assert_eq!(started, Ok(s("b")));
    let t = 1001 + HTTP_ASSIGNMENT_TTL_MS + HTTP_STARTED_ASSIGNMENT_TTL_MS;
    assert!(host_http_dispatch(&mut st, t).is_none());
    assert!(host_http_dispatch(&mut st, t + 1).is_some());
}

#[test]
fn undeliverable_assignment_is_dropped() {
    let (mut st, _f) = two_downloaders();
    let d = host_http_dispatch(&mut st, 0).unwrap();
    drop_http_assignment(&mut st, &d.endpoint_id);
    assert!(st.http_assignments.is_empty());
}

#[test]
fn host_serves_only_the_assigned_chunk_once() {
    let (mut st, f) = two_downloaders();
    assert_eq!(begin_host_http_download(&mut st, None, &f, 0), Err(HttpChunkRefusal::MissingEndpoint));
    assert_eq!(begin_host_http_download(&mut st, Some(s("   ")), &f, 0), Err(HttpChunkRefusal::MissingEndpoint));
    assert_eq!(begin_host_http_download(&mut st, Some(s("a")), &f, 0), Err(HttpChunkRefusal::NoAssignment));
    let d = host_http_dispatch(&mut st, 0).unwrap();
    assert_eq!(d.chunk_index, 0);
    assert_eq!(begin_host_http_download(&mut st, Some(s("a")), &f, 1), Err(HttpChunkRefusal::AssignmentMismatch));
    assert_eq!(admit_host_http_request(&st, &Some(s(" a\n")), &f, 0), Ok(s("a")));
    assert!(!st.http_assignments.get(&s("a")).unwrap().started);
    assert_eq!(begin_host_http_download(&mut st, Some(s(" a\n")), &f, 0), Ok(s("a")));
    assert_eq!(st.endpoints.get(&s("host")).unwrap().upload_count, 1);
    assert_eq!(begin_host_http_download(&mut st, Some(s("a")), &f, 0), Err(HttpChunkRefusal::AlreadyStarted));
    end_host_http_download(&mut st);
    end_host_http_download(&mut st);
    assert_eq!(st.endpoints.get(&s("host")).unwrap().upload_count, 0);
}

#[test]
fn direct_chunk_requests_are_answered_by_load() {
    let (mut st, f) = two_downloaders();
    assert!(handle_request_chunk(&st, &s("a"), &s("missing"), 0).is_none());
    match handle_request_chunk(&st, &s("a"), &f, 1) {
        Some(ServerMessage::SuggestPeer { peer_id, chunk_index, .. }) => {
            assert_eq!(peer_id, "host");
            assert_eq!(chunk_index, 1);
        }
        _ => panic!("expected a peer suggestion"),
    }
    chunk_completed(&mut st, &s("b"), &f, 1);
    transfer_started(&mut st, &s("host"), true);
    match handle_request_chunk(&st, &s("a"), &f, 1) {
        Some(ServerMessage::SuggestPeer { peer_id, .. }) => assert_eq!(peer_id, "b"),
        _ => panic!("expected a peer suggestion"),
    }
    transfer_started(&mut st, &s("host"), true);
    transfer_started(&mut st, &s("b"), true);
    transfer_started(&mut st, &s("b"), true);
    match handle_request_chunk(&st, &s("a"), &f, 1) {
        Some(ServerMessage::WaitAndRetry { wait_seconds, chunk_index, .. }) => {
            assert_eq!(wait_seconds, 3);
            assert_eq!(chunk_index, 1);
        }
        _ => panic!("expected wait and retry"),
    }
}

#[test]
fn peers_share_what_others_lack() {
    let (mut st, f) = two_downloaders();
    apply_endpoint_status(&mut st, &s("a"), &f, &vec![0, 2], 0, 0);
    apply_endpoint_status(&mut st, &s("b"), &f, &vec![1], 0, 0);
    let mut cool = SourceCooldowns::new();
    let m = find_and_assign_matches(&st, &mut cool, 0);
    assert_eq!(m.len(), 2);
    assert_eq!((m[0].source_id.as_str(), m[0].downloader_id.as_str(), m[0].chunk_index), ("a", "b", 0));
    assert_eq!((m[1].source_id.as_str(), m[1].downloader_id.as_str(), m[1].chunk_index), ("b", "a", 1));
    assert_eq!(m[0].file_id, f);
}

#[test]
fn busy_endpoints_are_not_matched() {
    let (mut st, f) = two_downloaders();
    apply_endpoint_status(&mut st, &s("a"), &f, &vec![0, 2], 0, 0);
    apply_endpoint_status(&mut st, &s("b"), &f, &vec![1], 0, 1);
    let mut cool = SourceCooldowns::new();
    let m = find_and_assign_matches(&st, &mut cool, 0);
    assert_eq!(m.len(), 1);
    assert_eq!((m[0].source_id.as_str(), m[0].downloader_id.as_str()), ("b", "a"));
    apply_endpoint_status(&mut st, &s("b"), &f, &vec![1], 1, 0);
    let m2 = find_and_assign_matches(&st, &mut cool, 0);
    assert_eq!(m2.len(), 1);
    assert_eq!((m2[0].source_id.as_str(), m2[0].downloader_id.as_str()), ("a", "b"));
}

#[test]
fn failed_sources_rest_for_a_while() {
    let (mut st, f) = two_downloaders();
    apply_endpoint_status(&mut st, &s("a"), &f, &vec![0, 2], 0, 0);
    apply_endpoint_status(&mut st, &s("b"), &f, &vec![1], 0, 0);
    let mut cool = SourceCooldowns::new();
    transfer_failed(&mut st, &mut cool, &s("b"), &f, 0, &s("a"), 5000);
    let m = find_and_assign_matches(&st, &mut cool, 5000 + SOURCE_COOLDOWN_MS - 1);
    assert_eq!(m.len(), 1);
    assert_eq!(m[0].source_id, "b");
    let m2 = find_and_assign_matches(&st, &mut cool, 5000 + SOURCE_COOLDOWN_MS);
    assert_eq!(m2.len(), 2);
    assert!(cool.until.is_empty());
}

#[test]
fn host_failure_releases_the_assignment() {
    let (mut st, f) = two_downloaders();
    let d = host_http_dispatch(&mut st, 0).unwrap();
    let mut cool = SourceCooldowns::new();
    transfer_failed(&mut st, &mut cool, &d.endpoint_id, &f, d.chunk_index + 1, &s("host"), 10);
    assert!(!st.http_assignments.is_empty());
    transfer_failed(&mut st, &mut cool, &d.endpoint_id, &f, d.chunk_index, &s("host"), 10);
    assert!(st.http_assignments.is_empty());
    assert!(cool.until.is_empty());
}

#[test]
fn leaving_endpoints_are_forgotten() {
    let (mut st, _f) = two_downloaders();
    let d = host_http_dispatch(&mut st, 0).unwrap();
    disconnect_endpoint(&mut st, &d.endpoint_id);
    assert!(!st.endpoints.contains_key(&d.endpoint_id));
    assert!(st.http_assignments.is_empty());
    let next = host_http_dispatch(&mut st, 1).unwrap();
    assert_ne!(next.endpoint_id, d.endpoint_id);
}
