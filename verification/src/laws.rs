//! Properties that hold of the coordinator as a whole: what each round of
//! dispatch and matching guarantees, what every event keeps, and what one
//! operation undoes of another.

use vstd::prelude::*;
use crate::ids::{
    ascending_ids, ids_ascending, lemma_ascending_ids, lemma_ascending_no_duplicates, id_lt, lemma_id_lt_irreflexive,
    lemma_id_lt_transitive,
};
use crate::p2p::{
    P2PState, P2PView, EndpointView, FileView, AssignmentView, path_is_shared, first_with_path, host_with_file,
    forget_file_chunks, id_is_shared, all_chunks,
};
use crate::dispatch::{
    file_chunk_count, owned_of, live_http, after_dispatch, first_ready_file, turn_order, cursor_chunk, lacks,
    first_lacking, wants_http_chunk, http_candidates, kept_last_http, rotation_start, lemma_mod_once, file_ready,
};
use crate::session::{
    registered, with_endpoint, http_released, failure_handled, http_download_begun, disconnected, endpoint_updated,
    cools_source, cooldowns_after_failure, chunk_added, transfer_counted, transfer_uncounted, status_applied,
    download_started,
};
use crate::messages::{chunk_infos_of, listing_of};
use crate::chunking::{
    CHUNK_SIZE, MAX_SHAREABLE_SIZE, spec_chunk_count, spec_chunk_size, spec_chunk_offset, piece_of, metas_of, file_chunks,
    pieces_fit, crc32_checksum,
};
use crate::matching::{
    greedy_matches, pick_downloader, pair_possible, pair_chunk, first_transferable, source_available,
    peer_ids, live_cooldowns, MatchView, MAX_PEER_UPLOADS, MAX_PEER_DOWNLOADS,
};

verus! {

/// The downloader a source picks is one it may serve.
proof fn lemma_pick_sound(s: P2PView, src: Seq<char>, ds: Seq<Seq<char>>, taken: Set<Seq<char>>)
    ensures
        pick_downloader(s, src, ds, taken) matches Some(d) ==> {
            &&& ds.contains(d)
            &&& d != src
            &&& !taken.contains(d)
            &&& pair_possible(s, src, d)
        },
    decreases ds.len(),
{
    if ds.len() > 0 {
        lemma_pick_sound(s, src, ds.drop_first(), taken);
        if let Some(d) = pick_downloader(s, src, ds.drop_first(), taken) {
            if !(ds[0] != src && !taken.contains(ds[0]) && pair_possible(s, src, ds[0])) {
                let k = choose|k: int| 0 <= k < ds.drop_first().len() && ds.drop_first()[k] == d;
                assert(ds[k + 1] == d);
            }
        }
        if ds[0] != src && !taken.contains(ds[0]) && pair_possible(s, src, ds[0]) {
            assert(ds[0] == ds[0]);
        }
    }
}

/// A sound assignment: the source may upload, is not cooling down, holds
/// the chunk; the downloader is another endpoint, may download, lacks the
/// chunk, which is the lowest such chunk of the file it is downloading.
pub open spec fn match_sound(s: P2PView, cool: Map<Seq<char>, u64>, m: MatchView) -> bool {
    let f = m.file_id;
    let c = file_chunk_count(s.files, f);
    &&& m.source != m.downloader
    &&& s.endpoints.contains_key(m.source)
    &&& s.endpoints.contains_key(m.downloader)
    &&& s.endpoints[m.source].upload_count < MAX_PEER_UPLOADS
    &&& !cool.contains_key(m.source)
    &&& s.endpoints[m.downloader].download_count < MAX_PEER_DOWNLOADS
    &&& s.endpoints[m.downloader].file_id == Some(f)
    &&& m.chunk < c
    &&& s.endpoints[m.source].owned.contains_key(f)
    &&& s.endpoints[m.source].owned[f].contains(m.chunk)
    &&& !owned_of(s.endpoints[m.downloader], f).contains(m.chunk)
    &&& forall|x: u32| x < m.chunk ==> owned_of(s.endpoints[m.downloader], f).contains(x)
        || !s.endpoints[m.source].owned[f].contains(x)
}

/// What the greedy rounds produce, for any lists of sources and downloaders.
proof fn lemma_greedy_sound(
    s: P2PView,
    cool: Map<Seq<char>, u64>,
    srcs: Seq<Seq<char>>,
    all: Seq<Seq<char>>,
    taken: Set<Seq<char>>,
)
    requires
        forall|k: int| 0 <= k < all.len() ==> s.endpoints.contains_key(#[trigger] all[k]),
        forall|k: int| 0 <= k < srcs.len() ==> s.endpoints.contains_key(#[trigger] srcs[k]),
    ensures
        ({
            let res = greedy_matches(s, cool, srcs, all, taken);
            &&& forall|i: int| 0 <= i < res.len() ==> {
                &&& match_sound(s, cool, #[trigger] res[i])
                &&& srcs.contains(res[i].source)
                &&& all.contains(res[i].downloader)
                &&& !taken.contains(res[i].downloader)
            }
            &&& forall|i: int, j: int| 0 <= i < j < res.len() ==> #[trigger] res[i].downloader != #[trigger] res[j].downloader
            &&& srcs.no_duplicates() ==> forall|i: int, j: int| 0 <= i < j < res.len() ==> #[trigger] res[i].source
                != #[trigger] res[j].source
        }),
    decreases srcs.len(),
{
    if srcs.len() > 0 {
        let src = srcs[0];
        let rest = srcs.drop_first();
        assert forall|k: int| 0 <= k < rest.len() implies s.endpoints.contains_key(#[trigger] rest[k]) by {
            assert(rest[k] == srcs[k + 1]);
        }
        let picked = source_available(s, cool, src) && pick_downloader(s, src, all, taken) is Some;
        if picked {
            let d = pick_downloader(s, src, all, taken).unwrap();
            lemma_pick_sound(s, src, all, taken);
            let t2 = taken.insert(d);
            lemma_greedy_sound(s, cool, rest, all, t2);
            let f = s.endpoints[d].file_id.unwrap();
            let c = file_chunk_count(s.files, f);
            let m = MatchView { downloader: d, file_id: f, chunk: pair_chunk(s, src, d), source: src };
            let tail = greedy_matches(s, cool, rest, all, t2);
            let res = greedy_matches(s, cool, srcs, all, taken);
            assert(res == seq![m] + tail);
            let ch = choose|ch: u32| first_transferable(s.endpoints[src].owned[f], owned_of(s.endpoints[d], f), c, ch);
            assert(first_transferable(s.endpoints[src].owned[f], owned_of(s.endpoints[d], f), c, m.chunk));
            let k = choose|k: int| 0 <= k < all.len() && all[k] == d;
            assert(s.endpoints.contains_key(all[k]));
            assert(match_sound(s, cool, m));
            assert forall|i: int| 0 <= i < res.len() implies {
                &&& match_sound(s, cool, #[trigger] res[i])
                &&& srcs.contains(res[i].source)
                &&& all.contains(res[i].downloader)
                &&& !taken.contains(res[i].downloader)
            } by {
                if i == 0 {
                    assert(res[0] == m);
                    assert(srcs[0] == src);
                } else {
                    assert(res[i] == tail[i - 1]);
                    let kk = choose|kk: int| 0 <= kk < rest.len() && rest[kk] == tail[i - 1].source;
                    assert(srcs[kk + 1] == tail[i - 1].source);
                }
            }
            assert forall|i: int, j: int| 0 <= i < j < res.len() implies #[trigger] res[i].downloader
                != #[trigger] res[j].downloader by {
                assert(res[j] == tail[j - 1]);
                if i > 0 {
                    assert(res[i] == tail[i - 1]);
                } else {
                    assert(!t2.contains(tail[j - 1].downloader));
                }
            }
            if srcs.no_duplicates() {
                assert(rest.no_duplicates());
                assert forall|i: int, j: int| 0 <= i < j < res.len() implies #[trigger] res[i].source
                    != #[trigger] res[j].source by {
                    assert(res[j] == tail[j - 1]);
                    if i > 0 {
                        assert(res[i] == tail[i - 1]);
                    } else {
                        let kk = choose|kk: int| 0 <= kk < rest.len() && rest[kk] == tail[j - 1].source;
                        assert(srcs[kk + 1] == tail[j - 1].source);
                    }
                }
            }
        } else {
            lemma_greedy_sound(s, cool, rest, all, taken);
            let tail = greedy_matches(s, cool, rest, all, taken);
            let res = greedy_matches(s, cool, srcs, all, taken);
            assert(res == tail);
            assert forall|i: int| 0 <= i < res.len() implies srcs.contains(#[trigger] res[i].source) by {
                let kk = choose|kk: int| 0 <= kk < rest.len() && rest[kk] == res[i].source;
                assert(srcs[kk + 1] == res[i].source);
            }
        }
    }
}

/// Peer matching is sound: every assignment of a round pairs two distinct
/// connected endpoints other than the host, the source free to upload and
/// not cooling down, the downloader free to download; the chunk is the
/// lowest one the downloader lacks and the source holds of the file the
/// downloader is downloading. No endpoint is assigned twice as downloader,
/// nor twice as source, in one round.
pub proof fn law_peer_matching_sound(state: P2PState, cool: Map<Seq<char>, u64>, now: u64)
    ensures
        ({
            let s = state@;
            let ids = ascending_ids(peer_ids(s));
            let res = greedy_matches(s, live_cooldowns(cool, now), ids, ids, Set::empty());
            &&& forall|i: int| 0 <= i < res.len() ==> {
                &&& match_sound(s, live_cooldowns(cool, now), #[trigger] res[i])
                &&& res[i].source != s.host
                &&& res[i].downloader != s.host
            }
            &&& forall|i: int, j: int| 0 <= i < j < res.len() ==> #[trigger] res[i].downloader != #[trigger] res[j].downloader
            &&& forall|i: int, j: int| 0 <= i < j < res.len() ==> #[trigger] res[i].source != #[trigger] res[j].source
        }),
{
    let s = state@;
    state.endpoints.lemma_finite();
    assert(peer_ids(s).finite()) by {
        assert(peer_ids(s).subset_of(s.endpoints.dom()));
        vstd::set_lib::lemma_len_subset(peer_ids(s), s.endpoints.dom());
    }
    lemma_ascending_ids(peer_ids(s));
    let ids = ascending_ids(peer_ids(s));
    lemma_ascending_no_duplicates(ids);
    assert forall|k: int| 0 <= k < ids.len() implies s.endpoints.contains_key(#[trigger] ids[k]) && ids[k] != s.host by {
        assert(ids.to_set().contains(ids[k]));
    }
    let lc = live_cooldowns(cool, now);
    lemma_greedy_sound(s, lc, ids, ids, Set::empty());
    let res = greedy_matches(s, lc, ids, ids, Set::empty());
    assert forall|i: int| 0 <= i < res.len() implies res[i].source != s.host && res[i].downloader != s.host by {
        let a = choose|a: int| 0 <= a < ids.len() && ids[a] == res[i].source;
        let b = choose|b: int| 0 <= b < ids.len() && ids[b] == res[i].downloader;
    }
}

/// At most one endpoint holds a host HTTP assignment.
pub open spec fn http_exclusive(s: P2PView) -> bool {
    &&& s.http.dom().finite()
    &&& s.http.dom().len() <= 1
}

/// The host serves at most one endpoint over HTTP at a time: dispatch
/// (whatever its outcome) and every event keep that so.
pub proof fn law_host_http_exclusive(
    s: P2PView,
    now: u64,
    e: Seq<char>,
    f: Seq<char>,
    c: u32,
    ch: u32,
    ep: EndpointView,
)
    requires
        http_exclusive(s),
    ensures
        http_exclusive(P2PView { http: live_http(s, now), ..s }),
        http_exclusive(after_dispatch(s, now, e, f, c, ch)),
        http_exclusive(registered(s, e)),
        http_exclusive(with_endpoint(s, e, ep)),
        http_exclusive(endpoint_updated(s, e, ep)),
        http_exclusive(P2PView { http: http_released(s.http, e, f, ch), ..s }),
        http_exclusive(failure_handled(s, e, f, ch, f)),
        http_exclusive(disconnected(s, e)),
        http_exclusive(P2PView { http: s.http.remove(e), ..s }),
        s.http.contains_key(e) ==> http_exclusive(http_download_begun(s, e)),
{
    let live = live_http(s, now);
    assert(live.dom().subset_of(s.http.dom()));
    vstd::set_lib::lemma_len_subset(live.dom(), s.http.dom());
    let one = Map::<Seq<char>, AssignmentView>::empty().insert(
        e,
        AssignmentView { file_id: f, chunk_index: ch, started: false, assigned_at: now },
    );
    assert(one.dom() =~= Set::empty().insert(e));
    assert(s.http.remove(e).dom().subset_of(s.http.dom()));
    vstd::set_lib::lemma_len_subset(s.http.remove(e).dom(), s.http.dom());
    if s.http.contains_key(e) {
        let h2 = http_download_begun(s, e).http;
        assert(h2.dom() =~= s.http.dom());
    }
}

/// What the host hands out over HTTP is needed: the endpoint served is
/// connected, is not the host, is downloading that file and lacks the
/// chunk, which lies within the file.
pub proof fn law_dispatch_serves_need(state: P2PState, now: u64, i: int, k: int)
    requires
        live_http(state@, now).dom() == Set::<Seq<char>>::empty(),
        first_ready_file(state@, i),
        ({
            let s = state@;
            let f = s.files[i].file_id;
            let c = file_chunk_count(s.files, f);
            first_lacking(turn_order(s, f, c), s, f, cursor_chunk(s, f, c), k)
        }),
    ensures
        ({
            let s = state@;
            let f = s.files[i].file_id;
            let c = file_chunk_count(s.files, f);
            let t = turn_order(s, f, c)[k];
            let chunk = cursor_chunk(s, f, c);
            &&& wants_http_chunk(s, t, f, c)
            &&& s.endpoints.contains_key(t)
            &&& t != s.host
            &&& chunk < c
            &&& !owned_of(s.endpoints[t], f).contains(chunk)
        }),
{
    let s = state@;
    let f = s.files[i].file_id;
    let c = file_chunk_count(s.files, f);
    lemma_candidates_listed(state, f, c);
    let q = ascending_ids(http_candidates(s, f, c));
    let n = q.len() as int;
    let st = rotation_start(q, kept_last_http(s), f);
    lemma_rotation_in_range(q, kept_last_http(s), f);
    lemma_mod_once(st + k, n);
    assert(q.to_set().contains(q[(st + k) % n]));
    let cur = s.cursors[f];
    assert(0 <= (cur as int) % (c as int) < c) by (nonlinear_arith)
        requires
            c > 0,
    ;
}

/// The candidates for a file are finitely many, listed in ascending order.
proof fn lemma_candidates_listed(state: P2PState, f: Seq<char>, c: u32)
    ensures
        ids_ascending(ascending_ids(http_candidates(state@, f, c))),
        ascending_ids(http_candidates(state@, f, c)).to_set() == http_candidates(state@, f, c),
{
    let s = state@;
    state.endpoints.lemma_finite();
    assert(http_candidates(s, f, c).subset_of(s.endpoints.dom()));
    vstd::set_lib::lemma_len_subset(http_candidates(s, f, c), s.endpoints.dom());
    lemma_ascending_ids(http_candidates(s, f, c));
}

/// Where the turn starts lies within the candidate list.
proof fn lemma_rotation_in_range(q: Seq<Seq<char>>, last: Map<Seq<char>, Seq<char>>, f: Seq<char>)
    requires
        q.len() > 0,
    ensures
        0 <= rotation_start(q, last, f) < q.len(),
{
    if last.contains_key(f) && q.contains(last[f]) {
        let p = choose|p: int| 0 <= p < q.len() && q[p] == last[f];
        assert(0 <= (p + 1) % (q.len() as int) < q.len()) by (nonlinear_arith)
            requires
                q.len() > 0,
        ;
    }
}

/// Endpoints take turns: when the endpoint served last for a file is still
/// a candidate and another candidate also lacks the cursor chunk, the chunk
/// goes to another endpoint.
pub proof fn law_dispatch_takes_turns(state: P2PState, f: Seq<char>, c: u32, other: Seq<char>, k: int)
    requires
        c > 0,
        kept_last_http(state@).contains_key(f),
        http_candidates(state@, f, c).contains(kept_last_http(state@)[f]),
        http_candidates(state@, f, c).contains(other),
        other != kept_last_http(state@)[f],
        lacks(state@, other, f, cursor_chunk(state@, f, c)),
        first_lacking(turn_order(state@, f, c), state@, f, cursor_chunk(state@, f, c), k),
    ensures
        turn_order(state@, f, c)[k] != kept_last_http(state@)[f],
{
    let s = state@;
    lemma_candidates_listed(state, f, c);
    let q = ascending_ids(http_candidates(s, f, c));
    let last = kept_last_http(s)[f];
    let ch = cursor_chunk(s, f, c);
    let order = turn_order(s, f, c);
    lemma_ascending_no_duplicates(q);
    q.unique_seq_to_set();
    assert(q.to_set().contains(last));
    assert(q.to_set().contains(other));
    let p = choose|p: int| 0 <= p < q.len() && q[p] == last;
    let pe = choose|pe: int| 0 <= pe < q.len() && q[pe] == other;
    let n = q.len() as int;
    assert(pe != p);
    let st = rotation_start(q, kept_last_http(s), f);
    assert(q.contains(last));
    let p0 = choose|p0: int| 0 <= p0 < q.len() && q[p0] == last;
    assert(p0 == p);
    lemma_mod_once(p + 1, n);
    assert(st == if p + 1 < n { p + 1 } else { 0 });
    // the other candidate's place in the turn order comes before the last one's
    let ke = if pe >= st { pe - st } else { pe + n - st };
    lemma_mod_once(st + ke, n);
    assert(order[ke] == q[pe]);
    assert(ke < n - 1);
    if order[k] == last {
        lemma_mod_once(st + k, n);
        assert(q[(st + k) % n] == q[p]);
        assert((st + k) % n == p);
        assert(k == n - 1);
        assert(!lacks(s, order[ke], f, ch));
    }
}

/// A source whose transfer failed rests: during the cooldown that follows,
/// no round of matching uses it as a source.
pub proof fn law_failed_source_rests(
    s: P2PView,
    later: P2PView,
    cool: Map<Seq<char>, u64>,
    source: Seq<char>,
    now: u64,
    t: u64,
)
    requires
        cools_source(s, source),
        now <= u64::MAX - crate::matching::SOURCE_COOLDOWN_MS,
        t < now + crate::matching::SOURCE_COOLDOWN_MS,
    ensures
        !source_available(later, live_cooldowns(cooldowns_after_failure(s, cool, source, now), t), source),
{
}

/// Sharing a file and then unsharing it by its path restores the shared
/// files and the endpoints' records, provided the path was not shared and
/// no endpoint had records of the file's identifier.
pub proof fn law_add_then_remove_restores(s: P2PView, info: FileView)
    requires
        !path_is_shared(s.files, info.file_path),
        forall|e: Seq<char>| #[trigger] s.endpoints.contains_key(e) ==> !s.endpoints[e].owned.contains_key(info.file_id),
    ensures
        ({
            let files1 = s.files.push(info);
            let eps1 = host_with_file(s, info.file_id, info.chunk_count);
            &&& first_with_path(files1, info.file_path, s.files.len() as int)
            &&& files1.remove(s.files.len() as int) == s.files
            &&& forget_file_chunks(eps1, info.file_id) == s.endpoints
        }),
{
    let files1 = s.files.push(info);
    assert(files1.remove(s.files.len() as int) =~= s.files);
    let eps1 = host_with_file(s, info.file_id, info.chunk_count);
    let back = forget_file_chunks(eps1, info.file_id);
    assert forall|e: Seq<char>| #[trigger] back.contains_key(e) implies back[e] == s.endpoints[e] by {
        let ep = s.endpoints[e];
        if e == s.host && s.endpoints.contains_key(s.host) {
            assert(ep.owned.insert(info.file_id, crate::p2p::all_chunks(info.chunk_count)).remove(info.file_id)
                =~= ep.owned);
        } else {
            assert(ep.owned.remove(info.file_id) =~= ep.owned);
        }
    }
    assert(back =~= s.endpoints);
}

/// The host serves an assigned chunk over HTTP once: after it began, the
/// assignment is marked begun, so a repeated request is refused.
pub proof fn law_host_chunk_served_once(s: P2PView, e: Seq<char>)
    requires
        s.http.contains_key(e),
    ensures
        http_download_begun(s, e).http.contains_key(e),
        http_download_begun(s, e).http[e].started,
        http_download_begun(s, e).http[e].file_id == s.http[e].file_id,
        http_download_begun(s, e).http[e].chunk_index == s.http[e].chunk_index,
{
}

/// Registering is idempotent, and keeps what is known of an endpoint.
pub proof fn law_register_idempotent(s: P2PView, e: Seq<char>)
    ensures
        registered(registered(s, e), e) == registered(s, e),
        s.endpoints.contains_key(e) ==> registered(s, e) == s,
        registered(s, e).endpoints.contains_key(e),
{
}

/// An endpoint that left is forgotten with its host HTTP assignment, so no
/// later round serves it or uses it as a source.
pub proof fn law_disconnect_forgets(s: P2PView, e: Seq<char>)
    ensures
        !disconnected(s, e).endpoints.contains_key(e),
        !disconnected(s, e).http.contains_key(e),
        !peer_ids(disconnected(s, e)).contains(e),
        forall|f: Seq<char>, c: u32| !#[trigger] http_candidates(disconnected(s, e), f, c).contains(e),
{
}

/// A completed chunk is recorded: the endpoint then holds it, beside what
/// it held before.
pub proof fn law_completed_chunk_held(ep: EndpointView, f: Seq<char>, ch: u32)
    ensures
        owned_of(chunk_added(ep, f, ch), f) == owned_of(ep, f).insert(ch),
{
}

/// Chunk layout: every chunk before the last is full, the last one holds
/// the rest (it is not empty unless the file is), and there is nothing
/// after the last one.
pub proof fn law_chunk_layout(total: nat, i: nat)
    ensures
        i + 1 < spec_chunk_count(total) ==> spec_chunk_size(total, i) == CHUNK_SIZE,
        total > 0 && i + 1 == spec_chunk_count(total) ==> spec_chunk_size(total, i) > 0,
        i >= spec_chunk_count(total) ==> spec_chunk_size(total, i) == 0,
{
    let n = spec_chunk_count(total);
    let c = CHUNK_SIZE as int;
    if total > 0 {
        assert(n * c >= total && (n - 1) * c < total) by (nonlinear_arith)
            requires
                n == (total + c - 1) / c,
                c == 52428800,
                total > 0,
        ;
        if i + 1 < n {
            assert((i + 1) * c <= (n - 1) * c) by (nonlinear_arith)
                requires
                    i + 1 <= n - 1,
                    c > 0,
            ;
        }
        if i >= n {
            assert(i * c >= n * c) by (nonlinear_arith)
                requires
                    i >= n,
                    c > 0,
            ;
        }
        if i + 1 == n {
            assert(i * c < total);
        }
    } else {
        if i >= 1 {
            assert(i * c >= 0) by (nonlinear_arith)
                requires
                    i >= 1,
                    c > 0,
            ;
        }
    }
}

/// Chunk `j` of a file of `total` bytes lies inside the file, and chunk
/// indices fit in a `u32`.
proof fn lemma_chunk_in_file(total: nat, j: nat)
    requires
        total <= MAX_SHAREABLE_SIZE,
        j < spec_chunk_count(total),
    ensures
        spec_chunk_offset(j) + spec_chunk_size(total, j) <= total,
        spec_chunk_size(total, j) <= CHUNK_SIZE,
        spec_chunk_count(total) <= u32::MAX,
{
    let c = CHUNK_SIZE as int;
    let n = spec_chunk_count(total);
    if total > 0 {
        assert((n - 1) * c < total && n <= 4294967295) by (nonlinear_arith)
            requires
                n == (total + c - 1) / c,
                c == 52428800,
                0 < total <= 4294967295 * c,
        ;
        assert(j * c <= (n - 1) * c) by (nonlinear_arith)
            requires
                j <= n - 1,
                c > 0,
        ;
    }
}

/// Reading a file chunk by chunk describes the file: when the pieces read
/// are the file's chunks, they fit the layout and their descriptions are
/// the file's chunk list, in which entry `j` has index `j`, the layout size
/// of chunk `j`, and the CRC-32 of exactly the bytes at that chunk's offset
/// and size.
pub proof fn law_chunk_list_describes_file(data: Seq<u8>, pieces: Seq<Seq<u8>>)
    requires
        data.len() <= MAX_SHAREABLE_SIZE,
        pieces.len() == spec_chunk_count(data.len()),
        forall|j: int| 0 <= j < pieces.len() ==> #[trigger] pieces[j] == piece_of(data, j as nat),
    ensures
        pieces_fit(data.len(), pieces),
        metas_of(pieces) == file_chunks(data),
        forall|j: int|
            0 <= j < spec_chunk_count(data.len()) ==> {
                let m = #[trigger] file_chunks(data)[j];
                &&& m.index == j
                &&& m.size == spec_chunk_size(data.len(), j as nat)
                &&& m.crc32 == crc32_checksum(
                    data.subrange(spec_chunk_offset(j as nat) as int, spec_chunk_offset(j as nat) + m.size),
                )
            },
{
    let n = spec_chunk_count(data.len());
    assert forall|j: int| 0 <= j < n implies #[trigger] piece_of(data, j as nat).len() == spec_chunk_size(
        data.len(),
        j as nat,
    ) && spec_chunk_size(data.len(), j as nat) <= CHUNK_SIZE && j <= u32::MAX by {
        lemma_chunk_in_file(data.len(), j as nat);
    }
    assert(metas_of(pieces) =~= file_chunks(data));
}

/// The host's records match the shared files: no two shared files have the
/// same path or the same identifier, the host is connected, and the host
/// holds records of exactly the shared files, each with every chunk.
pub open spec fn host_records_match(s: P2PView) -> bool {
    &&& forall|i: int, j: int|
        0 <= i < j < s.files.len() ==> s.files[i].file_path != s.files[j].file_path && s.files[i].file_id
            != s.files[j].file_id
    &&& s.endpoints.contains_key(s.host)
    &&& forall|f: Seq<char>| #[trigger] s.endpoints[s.host].owned.contains_key(f) <==> id_is_shared(s.files, f)
    &&& forall|i: int|
        0 <= i < s.files.len() ==> s.endpoints[s.host].owned[#[trigger] s.files[i].file_id] == all_chunks(
            s.files[i].chunk_count,
        )
}

/// A new coordinator's host records match its (no) shared files.
pub proof fn law_new_state_records_match(s: P2PView, host: Seq<char>)
    requires
        s.files == Seq::<FileView>::empty(),
        s.endpoints == Map::<Seq<char>, EndpointView>::empty().insert(host, crate::p2p::fresh_endpoint(host)),
        s.host == host,
    ensures
        host_records_match(s),
{
}

/// Sharing a file with a path and an identifier not yet shared keeps the
/// host's records matching the shared files (what `add_shared_file` does
/// when it accepts a file).
pub proof fn law_add_keeps_records_matching(s: P2PView, info: FileView, t: P2PView)
    requires
        host_records_match(s),
        !path_is_shared(s.files, info.file_path),
        !id_is_shared(s.files, info.file_id),
        t.files == s.files.push(info),
        t.endpoints == host_with_file(s, info.file_id, info.chunk_count),
        t.host == s.host,
    ensures
        host_records_match(t),
{
    let n = s.files.len() as int;
    assert forall|i: int, j: int| 0 <= i < j < t.files.len() implies t.files[i].file_path != t.files[j].file_path
        && t.files[i].file_id != t.files[j].file_id by {
        if j == n {
            assert(t.files[i] == s.files[i]);
        }
    }
    assert forall|f: Seq<char>| #[trigger] t.endpoints[t.host].owned.contains_key(f) <==> id_is_shared(t.files, f) by {
        if id_is_shared(t.files, f) {
            let i = choose|i: int| 0 <= i < t.files.len() && t.files[i].file_id == f;
            if i < n {
                assert(s.files[i].file_id == f);
            }
        }
        if id_is_shared(s.files, f) {
            let i = choose|i: int| 0 <= i < s.files.len() && s.files[i].file_id == f;
            assert(t.files[i].file_id == f);
        }
        if f == info.file_id {
            assert(t.files[n].file_id == f);
        }
    }
    assert forall|i: int| 0 <= i < t.files.len() implies t.endpoints[t.host].owned[#[trigger] t.files[i].file_id]
        == all_chunks(t.files[i].chunk_count) by {
        if i < n {
            assert(t.files[i] == s.files[i]);
            assert(s.files[i].file_id != info.file_id);
        }
    }
}

/// Unsharing the first file with a given path keeps the host's records
/// matching the shared files (what `remove_shared_file` does).
pub proof fn law_remove_keeps_records_matching(s: P2PView, i: int, t: P2PView)
    requires
        host_records_match(s),
        0 <= i < s.files.len(),
        t.files == s.files.remove(i),
        t.endpoints == forget_file_chunks(s.endpoints, s.files[i].file_id),
        t.host == s.host,
    ensures
        host_records_match(t),
{
    let gone = s.files[i].file_id;
    assert forall|a: int, b: int| 0 <= a < b < t.files.len() implies t.files[a].file_path != t.files[b].file_path
        && t.files[a].file_id != t.files[b].file_id by {
        let a0 = if a < i { a } else { a + 1 };
        let b0 = if b < i { b } else { b + 1 };
        assert(t.files[a] == s.files[a0]);
        assert(t.files[b] == s.files[b0]);
    }
    assert forall|f: Seq<char>| #[trigger] t.endpoints[t.host].owned.contains_key(f) <==> id_is_shared(t.files, f) by {
        if id_is_shared(t.files, f) {
            let a = choose|a: int| 0 <= a < t.files.len() && t.files[a].file_id == f;
            let a0 = if a < i { a } else { a + 1 };
            assert(t.files[a] == s.files[a0]);
            assert(a0 != i);
            assert(id_is_shared(s.files, f));
        }
        if id_is_shared(s.files, f) && f != gone {
            let a0 = choose|a0: int| 0 <= a0 < s.files.len() && s.files[a0].file_id == f;
            assert(a0 != i);
            let a = if a0 < i { a0 } else { a0 - 1 };
            assert(t.files[a] == s.files[a0]);
        }
    }
    assert forall|a: int| 0 <= a < t.files.len() implies t.endpoints[t.host].owned[#[trigger] t.files[a].file_id]
        == all_chunks(t.files[a].chunk_count) by {
        let a0 = if a < i { a } else { a + 1 };
        assert(t.files[a] == s.files[a0]);
        assert(a0 != i);
        assert(s.files[a0].file_id != gone);
    }
}

/// Every endpoint in a file's turn order is one of its candidates.
proof fn lemma_turn_order_in_candidates(state: P2PState, f: Seq<char>, c: u32, k: int)
    requires
        0 <= k < turn_order(state@, f, c).len(),
    ensures
        http_candidates(state@, f, c).contains(turn_order(state@, f, c)[k]),
{
    let s = state@;
    lemma_candidates_listed(state, f, c);
    let q = ascending_ids(http_candidates(s, f, c));
    let n = q.len() as int;
    let st = rotation_start(q, kept_last_http(s), f);
    lemma_rotation_in_range(q, kept_last_http(s), f);
    lemma_mod_once(st + k, n);
    assert(q.to_set().contains(q[(st + k) % n]));
}

/// The host hands a chunk over HTTP only to an endpoint that is downloading
/// that very file: it is connected, it is not the host, its current file is
/// the file, and it does not hold the chunk, which is the file's cursor
/// position (0 if the file has no cursor) taken modulo its chunk count.
pub proof fn law_dispatch_goes_to_a_downloader_of_the_file(state: P2PState, i: int, k: int)
    requires
        first_ready_file(state@, i),
        ({
            let s = state@;
            let f = s.files[i].file_id;
            let c = file_chunk_count(s.files, f);
            first_lacking(turn_order(s, f, c), s, f, cursor_chunk(s, f, c), k)
        }),
    ensures
        ({
            let s = state@;
            let f = s.files[i].file_id;
            let c = file_chunk_count(s.files, f);
            let t = turn_order(s, f, c)[k];
            let ch = cursor_chunk(s, f, c);
            &&& s.endpoints.contains_key(t)
            &&& t != s.host
            &&& s.endpoints[t].file_id == Some(f)
            &&& !(s.endpoints[t].owned.contains_key(f) && s.endpoints[t].owned[f].contains(ch))
            &&& ch as int == if s.cursors.contains_key(f) {
                (s.cursors[f] as int) % (c as int)
            } else {
                0
            }
            &&& ch < c
        }),
{
    let s = state@;
    let f = s.files[i].file_id;
    let c = file_chunk_count(s.files, f);
    lemma_turn_order_in_candidates(state, f, c, k);
    if s.cursors.contains_key(f) {
        let x = s.cursors[f];
        assert(0 <= (x as int) % (c as int) < c) by (nonlinear_arith)
            requires
                c > 0,
        ;
    } else {
        assert((0int % (c as int)) == 0) by (nonlinear_arith)
            requires
                c > 0,
        ;
    }
}

/// While no connected endpoint other than the host is downloading file
/// `f`, no shared file with identifier `f` is ready for host HTTP dispatch,
/// so no chunk of `f` is handed out.
pub proof fn law_no_downloader_no_dispatch(state: P2PState, f: Seq<char>)
    requires
        forall|e: Seq<char>|
            #[trigger] state@.endpoints.contains_key(e) && e != state@.host ==> state@.endpoints[e].file_id != Some(f),
    ensures
        forall|j: int| 0 <= j < state@.files.len() && state@.files[j].file_id == f ==> !file_ready(state@, j),
{
    let s = state@;
    assert forall|j: int| 0 <= j < s.files.len() && s.files[j].file_id == f implies !file_ready(s, j) by {
        let c = file_chunk_count(s.files, f);
        let order = turn_order(s, f, c);
        if file_ready(s, j) {
            let ch = cursor_chunk(s, f, c);
            let k = choose|k: int| 0 <= k < order.len() && #[trigger] lacks(s, order[k], f, ch);
            lemma_turn_order_in_candidates(state, f, c, k);
            assert(s.endpoints.contains_key(order[k]));
        }
    }
}

/// The state after a dispatch of chunk `ch` of `f` (of `c` chunks) to `t`:
/// the only host HTTP assignment is that chunk to `t`, not yet begun and
/// dated `now`; `t` is recorded as served last for `f`; the cursor of `f`
/// moves one past `ch` (wrapping at `c`), other cursors stay; files and
/// endpoints stay.
pub proof fn law_dispatch_effect(s: P2PView, now: u64, t: Seq<char>, f: Seq<char>, c: u32, ch: u32)
    requires
        ch < c,
    ensures
        ({
            let a = after_dispatch(s, now, t, f, c, ch);
            &&& a.http.dom() == Set::<Seq<char>>::empty().insert(t)
            &&& a.http[t].file_id == f
            &&& a.http[t].chunk_index == ch
            &&& !a.http[t].started
            &&& a.http[t].assigned_at == now
            &&& a.last_http.contains_key(f) && a.last_http[f] == t
            &&& a.cursors.contains_key(f)
            &&& a.cursors[f] == if ch + 1 < c { ch + 1 } else { 0 }
            &&& forall|g: Seq<char>| g != f ==> a.cursors.contains_key(g) == s.cursors.contains_key(g) && (s.cursors.contains_key(g) ==> #[trigger] a.cursors[g] == s.cursors[g])
            &&& a.files == s.files
            &&& a.endpoints == s.endpoints
            &&& a.host == s.host
        }),
{
    let a = after_dispatch(s, now, t, f, c, ch);
    assert(a.http.dom() =~= Set::<Seq<char>>::empty().insert(t));
    lemma_mod_once(ch + 1, c as int);
}

/// A file's chunk descriptions are its chunks, entry by entry: entry `j`
/// has the index, size and CRC-32 of chunk record `j`, and there are as
/// many entries as records.
pub proof fn law_chunk_info_matches_chunks(f: FileView)
    ensures
        chunk_infos_of(f).len() == f.chunks.len(),
        forall|j: int|
            0 <= j < f.chunks.len() ==> {
                &&& (#[trigger] chunk_infos_of(f)[j]).index == f.chunks[j].index
                &&& chunk_infos_of(f)[j].size == f.chunks[j].size
                &&& chunk_infos_of(f)[j].crc32 == f.chunks[j].crc32
            },
{
}

/// A file's listing entry carries its identifier, name, size and chunk count.
pub proof fn law_listing_matches_file(f: FileView)
    ensures
        listing_of(f).file_id == f.file_id,
        listing_of(f).file_name == f.file_name,
        listing_of(f).total_size == f.total_size,
        listing_of(f).chunk_count == f.chunk_count,
{
}

/// A status report replaces: with a non-empty file `f`, the endpoint's
/// current file becomes `f` and its record of `f` holds exactly the
/// reported chunks, whatever it held before; records of other files stay.
/// With an empty file the file and records stay. Either way the transfer
/// counts become the reported ones.
pub proof fn law_status_report_replaces_record(ep: EndpointView, f: Seq<char>, chunks: Seq<u32>, up: u32, down: u32)
    ensures
        ({
            let r = status_applied(ep, f, chunks.to_set(), up, down);
            &&& r.upload_count == up
            &&& r.download_count == down
            &&& r.endpoint_id == ep.endpoint_id
            &&& f.len() > 0 ==> {
                &&& r.file_id == Some(f)
                &&& r.owned.contains_key(f)
                &&& forall|x: u32| #[trigger] r.owned[f].contains(x) <==> chunks.contains(x)
                &&& forall|g: Seq<char>|
                    g != f ==> r.owned.contains_key(g) == ep.owned.contains_key(g) && (ep.owned.contains_key(g)
                        ==> #[trigger] r.owned[g] == ep.owned[g])
            }
            &&& f.len() == 0 ==> r.file_id == ep.file_id && r.owned == ep.owned
        }),
{
}

/// Announcing a download of `f` makes `f` the current file and never
/// changes a record the endpoint already has: an existing record of `f`
/// stays as it was, a missing one starts empty, other records stay.
pub proof fn law_start_download_keeps_record(ep: EndpointView, f: Seq<char>)
    ensures
        ({
            let r = download_started(ep, f);
            &&& r.file_id == Some(f)
            &&& r.owned.contains_key(f)
            &&& ep.owned.contains_key(f) ==> r.owned[f] == ep.owned[f]
            &&& !ep.owned.contains_key(f) ==> r.owned[f] == Set::<u32>::empty()
            &&& forall|g: Seq<char>|
                g != f ==> r.owned.contains_key(g) == ep.owned.contains_key(g) && (ep.owned.contains_key(g)
                    ==> #[trigger] r.owned[g] == ep.owned[g])
            &&& r.upload_count == ep.upload_count
            &&& r.download_count == ep.download_count
        }),
{
}

/// Completing chunk `ch` of `f` adds exactly that chunk to the endpoint's
/// record of `f` and changes nothing else.
pub proof fn law_completed_chunk_added_alone(ep: EndpointView, f: Seq<char>, ch: u32)
    ensures
        ({
            let r = chunk_added(ep, f, ch);
            &&& r.owned.contains_key(f)
            &&& r.owned[f].contains(ch)
            &&& forall|x: u32|
                x != ch ==> (#[trigger] r.owned[f].contains(x) <==> (ep.owned.contains_key(f) && ep.owned[f].contains(x)))
            &&& forall|g: Seq<char>|
                g != f ==> r.owned.contains_key(g) == ep.owned.contains_key(g) && (ep.owned.contains_key(g)
                    ==> #[trigger] r.owned[g] == ep.owned[g])
            &&& r.file_id == ep.file_id
            &&& r.upload_count == ep.upload_count
            &&& r.download_count == ep.download_count
        }),
{
}

/// Transfers are counted one by one: a start raises its count by one, a
/// finish lowers a positive count by one (and leaves zero at zero); the
/// other count stays; and finishing a transfer undoes starting it.
pub proof fn law_transfers_counted_one_by_one(ep: EndpointView, is_upload: bool)
    ensures
        ({
            let up = transfer_counted(ep, is_upload);
            let down = transfer_uncounted(ep, is_upload);
            &&& is_upload ==> {
                &&& ep.upload_count < u32::MAX ==> up.upload_count == ep.upload_count + 1
                &&& up.download_count == ep.download_count
                &&& ep.upload_count > 0 ==> down.upload_count + 1 == ep.upload_count
                &&& ep.upload_count == 0 ==> down.upload_count == 0
                &&& down.download_count == ep.download_count
            }
            &&& !is_upload ==> {
                &&& ep.download_count < u32::MAX ==> up.download_count == ep.download_count + 1
                &&& up.upload_count == ep.upload_count
                &&& ep.download_count > 0 ==> down.download_count + 1 == ep.download_count
                &&& ep.download_count == 0 ==> down.download_count == 0
                &&& down.upload_count == ep.upload_count
            }
            &&& up.owned == ep.owned && down.owned == ep.owned
            &&& up.file_id == ep.file_id && down.file_id == ep.file_id
            &&& (if is_upload { ep.upload_count } else { ep.download_count }) < u32::MAX
                ==> transfer_uncounted(up, is_upload) == ep
        }),
{
}

/// Reporting chunk `ch` of `f` done ends the endpoint's host HTTP
/// assignment exactly when it is that chunk of that file; every other
/// assignment stays.
pub proof fn law_http_release_only_that_chunk(http: Map<Seq<char>, AssignmentView>, e: Seq<char>, f: Seq<char>, ch: u32)
    ensures
        ({
            let r = http_released(http, e, f, ch);
            &&& (http.contains_key(e) && http[e].file_id == f && http[e].chunk_index == ch) ==> !r.contains_key(e)
            &&& !(http.contains_key(e) && http[e].file_id == f && http[e].chunk_index == ch) ==> r == http
            &&& forall|x: Seq<char>|
                x != e ==> r.contains_key(x) == http.contains_key(x) && (http.contains_key(x) ==> #[trigger] r[x]
                    == http[x])
        }),
{
}

/// By its own record, endpoint `e` is downloading file `f` (of `c`
/// chunks) and still misses some of it: it is connected, is not the host,
/// its current file is `f`, and it holds fewer than `c` chunks of `f`.
pub open spec fn downloading_short(s: P2PView, e: Seq<char>, f: Seq<char>, c: u32) -> bool {
    &&& s.endpoints.contains_key(e)
    &&& e != s.host
    &&& s.endpoints[e].file_id == Some(f)
    &&& (!s.endpoints[e].owned.contains_key(f) || s.endpoints[e].owned[f].len() < c)
}

/// Endpoint `e` is downloading `f`, misses some of it, and misses chunk `ch`.
pub open spec fn downloading_without(s: P2PView, e: Seq<char>, f: Seq<char>, c: u32, ch: u32) -> bool {
    &&& downloading_short(s, e, f, c)
    &&& !(s.endpoints[e].owned.contains_key(f) && s.endpoints[e].owned[f].contains(ch))
}

/// In an ascending list, a smaller identifier comes earlier.
proof fn lemma_ascending_index_order(q: Seq<Seq<char>>, a: int, b: int)
    requires
        ids_ascending(q),
        0 <= a < q.len(),
        0 <= b < q.len(),
        id_lt(q[a], q[b]),
    ensures
        a < b,
{
    lemma_id_lt_irreflexive(q[a]);
    if b < a {
        lemma_id_lt_transitive(q[a], q[b], q[a]);
    }
}

/// The host's turn passes on in identifier order: with `L` the endpoint
/// served last for the file, if `L` is still downloading it and some
/// endpoint after `L` (in identifier order) lacks the cursor chunk, the
/// chunk goes to the first such endpoint after `L`; otherwise it goes to
/// the first endpoint, in identifier order, that lacks it. Only endpoints
/// downloading the file and missing some of it count.
pub proof fn law_dispatch_turn_follows_last(state: P2PState, i: int, k: int)
    requires
        first_ready_file(state@, i),
        ({
            let s = state@;
            let f = s.files[i].file_id;
            let c = file_chunk_count(s.files, f);
            first_lacking(turn_order(s, f, c), s, f, cursor_chunk(s, f, c), k)
        }),
    ensures
        ({
            let s = state@;
            let f = s.files[i].file_id;
            let c = file_chunk_count(s.files, f);
            let ch = cursor_chunk(s, f, c);
            let t = turn_order(s, f, c)[k];
            let last = s.last_http[f];
            let after_last = s.last_http.contains_key(f) && downloading_short(s, last, f, c) && exists|e: Seq<char>|
                #[trigger] downloading_without(s, e, f, c, ch) && id_lt(last, e);
            &&& downloading_without(s, t, f, c, ch)
            &&& after_last ==> id_lt(last, t) && forall|e: Seq<char>|
                #[trigger] downloading_without(s, e, f, c, ch) && id_lt(last, e) ==> !id_lt(e, t)
            &&& !after_last ==> forall|e: Seq<char>| #[trigger] downloading_without(s, e, f, c, ch) ==> !id_lt(e, t)
        }),
{
    let s = state@;
    let f = s.files[i].file_id;
    let c = file_chunk_count(s.files, f);
    let ch = cursor_chunk(s, f, c);
    let order = turn_order(s, f, c);
    let t = order[k];
    let last = s.last_http[f];
    lemma_candidates_listed(state, f, c);
    let q = ascending_ids(http_candidates(s, f, c));
    let n = q.len() as int;
    lemma_ascending_no_duplicates(q);
    lemma_rotation_in_range(q, kept_last_http(s), f);
    let st = rotation_start(q, kept_last_http(s), f);
    lemma_mod_once(st + k, n);
    let pt = if st + k < n { st + k } else { st + k - n };
    assert(t == q[pt]);
    assert(q.to_set().contains(q[pt]));
    assert(downloading_without(s, t, f, c, ch)) by {
        lemma_turn_order_in_candidates(state, f, c, k);
        assert(lacks(s, order[k], f, ch));
    }
    // every endpoint lacking the chunk is a candidate placed at or after k
    assert forall|e: Seq<char>| #[trigger] downloading_without(s, e, f, c, ch) implies q.contains(e) && {
        let pe = choose|pe: int| 0 <= pe < n && q[pe] == e;
        &&& 0 <= pe < n
        &&& q[pe] == e
        &&& (if pe >= st { pe - st } else { pe + n - st }) >= k
    } by {
        assert(http_candidates(s, f, c).contains(e));
        assert(q.to_set().contains(e));
        let pe = choose|pe: int| 0 <= pe < n && q[pe] == e;
        let ke = if pe >= st { pe - st } else { pe + n - st };
        lemma_mod_once(st + ke, n);
        assert(order[ke] == e);
        assert(lacks(s, order[ke], f, ch));
    }
    // identifier order of candidates is index order
    assert forall|e: Seq<char>| #[trigger] downloading_without(s, e, f, c, ch) && id_lt(e, t) implies {
        let pe = choose|pe: int| 0 <= pe < n && q[pe] == e;
        pe < pt
    } by {
        let pe = choose|pe: int| 0 <= pe < n && q[pe] == e;
        lemma_ascending_index_order(q, pe, pt);
    }
    let has_last = kept_last_http(s).contains_key(f) && q.contains(last);
    if has_last {
        let p = choose|p: int| 0 <= p < q.len() && q[p] == last;
        assert(st == (p + 1) % n);
        lemma_mod_once(p + 1, n);
        assert forall|e: Seq<char>| #[trigger] downloading_without(s, e, f, c, ch) && id_lt(last, e) implies {
            let pe = choose|pe: int| 0 <= pe < n && q[pe] == e;
            pe > p
        } by {
            let pe = choose|pe: int| 0 <= pe < n && q[pe] == e;
            lemma_ascending_index_order(q, p, pe);
        }
        if exists|e: Seq<char>| #[trigger] downloading_without(s, e, f, c, ch) && id_lt(last, e) {
            let e0 = choose|e: Seq<char>| #[trigger] downloading_without(s, e, f, c, ch) && id_lt(last, e);
            assert(downloading_without(s, e0, f, c, ch));
            assert(p < pt);
            assert(id_lt(q[p], q[pt]));
            assert forall|e: Seq<char>| #[trigger] downloading_without(s, e, f, c, ch) && id_lt(last, e) implies !id_lt(
                e,
                t,
            ) by {
                let pe = choose|pe: int| 0 <= pe < n && q[pe] == e;
                assert(pe > p);
            }
            assert(s.last_http.contains_key(f) && downloading_short(s, last, f, c)) by {
                assert(q.to_set().contains(last));
            }
        } else {
            if id_lt(last, t) {
                assert(downloading_without(s, t, f, c, ch));
            }
            if pt > p {
                assert(id_lt(q[p], q[pt]));
            }
            assert forall|e: Seq<char>| #[trigger] downloading_without(s, e, f, c, ch) implies !id_lt(e, t) by {
                let pe = choose|pe: int| 0 <= pe < n && q[pe] == e;
                if pe > p {
                    assert(id_lt(q[p], q[pe]));
                }
            }
        }
    } else {
        assert forall|e: Seq<char>| #[trigger] downloading_without(s, e, f, c, ch) implies !id_lt(e, t) by {
            let pe = choose|pe: int| 0 <= pe < n && q[pe] == e;
        }
        assert(st == 0);
        assert(!(s.last_http.contains_key(f) && downloading_short(s, last, f, c))) by {
            if s.last_http.contains_key(f) && downloading_short(s, last, f, c) {
                assert(s.files[i].file_id == f);
                assert(kept_last_http(s).contains_key(f));
                assert(http_candidates(s, f, c).contains(last));
                assert(q.to_set().contains(last));
            }
        }
    }
}

/// By its own record, `src` can send `d` a chunk of the file `d` is
/// downloading: `d` is free to download, its file is shared and not yet
/// complete at `d`, and `src` holds some chunk of it, within the file, that
/// `d` lacks.
pub open spec fn could_send(s: P2PView, src: Seq<char>, d: Seq<char>) -> bool {
    exists|f: Seq<char>, ch: u32|
        {
            let c = file_chunk_count(s.files, f);
            &&& #[trigger] s.endpoints[d].file_id == Some(f)
            &&& s.endpoints[d].download_count < MAX_PEER_DOWNLOADS
            &&& id_is_shared(s.files, f)
            &&& (!s.endpoints[d].owned.contains_key(f) || s.endpoints[d].owned[f].len() < c)
            &&& ch < c
            &&& s.endpoints[src].owned.contains_key(f)
            &&& #[trigger] s.endpoints[src].owned[f].contains(ch)
            &&& !(s.endpoints[d].owned.contains_key(f) && s.endpoints[d].owned[f].contains(ch))
        }
}

/// If `src` holds a chunk below `c` that `d` lacks, there is a lowest one.
proof fn lemma_least_transferable(src: Set<u32>, d: Set<u32>, c: u32, ch: u32)
    requires
        ch < c,
        src.contains(ch),
        !d.contains(ch),
    ensures
        exists|m: u32| first_transferable(src, d, c, m),
    decreases ch,
{
    if forall|x: u32| x < ch ==> d.contains(x) || !src.contains(x) {
        assert(first_transferable(src, d, c, ch));
    } else {
        let x = choose|x: u32| x < ch && !(d.contains(x) || !src.contains(x));
        lemma_least_transferable(src, d, c, x);
    }
}

/// A source that can send by its record makes the pair possible.
proof fn lemma_could_send_possible(s: P2PView, src: Seq<char>, d: Seq<char>)
    requires
        could_send(s, src, d),
    ensures
        pair_possible(s, src, d),
{
    let (f, ch) = choose|f: Seq<char>, ch: u32|
        {
            let c = file_chunk_count(s.files, f);
            &&& #[trigger] s.endpoints[d].file_id == Some(f)
            &&& s.endpoints[d].download_count < MAX_PEER_DOWNLOADS
            &&& id_is_shared(s.files, f)
            &&& (!s.endpoints[d].owned.contains_key(f) || s.endpoints[d].owned[f].len() < c)
            &&& ch < c
            &&& s.endpoints[src].owned.contains_key(f)
            &&& #[trigger] s.endpoints[src].owned[f].contains(ch)
            &&& !(s.endpoints[d].owned.contains_key(f) && s.endpoints[d].owned[f].contains(ch))
        };
    let c = file_chunk_count(s.files, f);
    lemma_least_transferable(s.endpoints[src].owned[f], owned_of(s.endpoints[d], f), c, ch);
    assert(s.endpoints[src].owned[f].contains(ch));
}

/// When a source's pick finds nobody, nobody in the list could be served.
proof fn lemma_pick_none(s: P2PView, src: Seq<char>, ds: Seq<Seq<char>>, taken: Set<Seq<char>>)
    requires
        pick_downloader(s, src, ds, taken) is None,
    ensures
        forall|j: int|
            0 <= j < ds.len() ==> #[trigger] ds[j] == src || taken.contains(ds[j]) || !pair_possible(s, src, ds[j]),
    decreases ds.len(),
{
    if ds.len() > 0 {
        lemma_pick_none(s, src, ds.drop_first(), taken);
        assert forall|j: int| 0 <= j < ds.len() implies #[trigger] ds[j] == src || taken.contains(ds[j])
            || !pair_possible(s, src, ds[j]) by {
            if j > 0 {
                assert(ds[j] == ds.drop_first()[j - 1]);
            }
        }
    }
}

/// The greedy rounds leave no possible pair between a source that was
/// available but used by none and a downloader that got nothing.
proof fn lemma_greedy_maximal(
    s: P2PView,
    cool: Map<Seq<char>, u64>,
    srcs: Seq<Seq<char>>,
    all: Seq<Seq<char>>,
    taken: Set<Seq<char>>,
    a: int,
    d: Seq<char>,
)
    requires
        0 <= a < srcs.len(),
        all.contains(d),
        d != srcs[a],
        !taken.contains(d),
        source_available(s, cool, srcs[a]),
        forall|i: int|
            0 <= i < greedy_matches(s, cool, srcs, all, taken).len() ==> #[trigger] greedy_matches(
                s,
                cool,
                srcs,
                all,
                taken,
            )[i].source != srcs[a] && greedy_matches(s, cool, srcs, all, taken)[i].downloader != d,
    ensures
        !pair_possible(s, srcs[a], d),
    decreases srcs.len(),
{
    let res = greedy_matches(s, cool, srcs, all, taken);
    let src = srcs[0];
    let rest = srcs.drop_first();
    let picked = source_available(s, cool, src) && pick_downloader(s, src, all, taken) is Some;
    let taken2 = if picked { taken.insert(pick_downloader(s, src, all, taken).unwrap()) } else { taken };
    let res2 = greedy_matches(s, cool, rest, all, taken2);
    if picked {
        assert(res == seq![res[0]] + res2);
        assert(res[0].source == src);
        assert(res[0].downloader == pick_downloader(s, src, all, taken).unwrap());
        assert forall|i: int| 0 <= i < res2.len() implies #[trigger] res2[i].source != srcs[a] && res2[i].downloader
            != d by {
            assert(res2[i] == res[i + 1]);
            assert(0 <= i + 1 < res.len());
            assert(greedy_matches(s, cool, srcs, all, taken)[i + 1].source != srcs[a]);
        }
    } else {
        assert(res == res2);
    }
    if a == 0 {
        assert(!picked) by {
            if picked {
                assert(res[0].source == srcs[0]);
            }
        }
        lemma_pick_none(s, src, all, taken);
        let j = choose|j: int| 0 <= j < all.len() && all[j] == d;
        assert(all[j] == d);
    } else {
        assert(rest[a - 1] == srcs[a]);
        lemma_greedy_maximal(s, cool, rest, all, taken2, a - 1, d);
    }
}

/// A round of peer matching leaves no pair out: when it is over, an
/// endpoint (not the host) that was free to upload, not cooling down, and
/// not used as a source cannot send any chunk to another endpoint (not the
/// host) that got no assignment.
pub proof fn law_peer_matching_maximal(state: P2PState, cool: Map<Seq<char>, u64>, now: u64, src: Seq<char>, d: Seq<char>)
    requires
        ({
            let s = state@;
            let ids = ascending_ids(peer_ids(s));
            let res = greedy_matches(s, live_cooldowns(cool, now), ids, ids, Set::empty());
            &&& s.endpoints.contains_key(src) && src != s.host
            &&& s.endpoints.contains_key(d) && d != s.host
            &&& src != d
            &&& s.endpoints[src].upload_count < MAX_PEER_UPLOADS
            &&& !(cool.contains_key(src) && cool[src] > now)
            &&& forall|i: int| 0 <= i < res.len() ==> #[trigger] res[i].source != src && res[i].downloader != d
        }),
    ensures
        !could_send(state@, src, d),
{
    let s = state@;
    state.endpoints.lemma_finite();
    assert(peer_ids(s).subset_of(s.endpoints.dom()));
    vstd::set_lib::lemma_len_subset(peer_ids(s), s.endpoints.dom());
    lemma_ascending_ids(peer_ids(s));
    let ids = ascending_ids(peer_ids(s));
    assert(ids.to_set().contains(src));
    assert(ids.to_set().contains(d));
    let a = choose|a: int| 0 <= a < ids.len() && ids[a] == src;
    let lc = live_cooldowns(cool, now);
    assert(source_available(s, lc, src));
    lemma_greedy_maximal(s, lc, ids, ids, Set::empty(), a, d);
    if could_send(s, src, d) {
        lemma_could_send_possible(s, src, d);
    }
}

/// Dropping stale host HTTP assignments at `now` keeps exactly those of
/// connected endpoints whose age (zero if dated in the future) is at most
/// 30 seconds, or 300 seconds once begun, each unchanged.
pub proof fn law_stale_assignments_dropped(s: P2PView, now: u64, e: Seq<char>)
    ensures
        live_http(s, now).contains_key(e) <==> {
            &&& s.http.contains_key(e)
            &&& s.endpoints.contains_key(e)
            &&& (if now >= s.http[e].assigned_at { now - s.http[e].assigned_at } else { 0 }) <= if s.http[e].started {
                300_000int
            } else {
                30_000int
            }
        },
        live_http(s, now).contains_key(e) ==> live_http(s, now)[e] == s.http[e],
{
}

/// Registering `e` adds a fresh record (no file, no chunks, no transfers)
/// when `e` is unknown, keeps a known record as it is, and touches no
/// other endpoint nor anything else.
pub proof fn law_register_adds_fresh_record(s: P2PView, e: Seq<char>, x: Seq<char>)
    ensures
        ({
            let r = registered(s, e);
            &&& r.endpoints.contains_key(e)
            &&& !s.endpoints.contains_key(e) ==> {
                &&& r.endpoints[e].endpoint_id == e
                &&& r.endpoints[e].file_id is None
                &&& r.endpoints[e].owned == Map::<Seq<char>, Set<u32>>::empty()
                &&& r.endpoints[e].upload_count == 0
                &&& r.endpoints[e].download_count == 0
            }
            &&& s.endpoints.contains_key(e) ==> r.endpoints[e] == s.endpoints[e]
            &&& x != e ==> r.endpoints.contains_key(x) == s.endpoints.contains_key(x) && (s.endpoints.contains_key(x)
                ==> r.endpoints[x] == s.endpoints[x])
            &&& r.files == s.files && r.http == s.http && r.host == s.host
        }),
{
}

/// An endpoint leaving removes its record and its host HTTP assignment and
/// nothing else: every other endpoint and assignment stays as it was.
pub proof fn law_disconnect_keeps_others(s: P2PView, e: Seq<char>, x: Seq<char>)
    requires
        x != e,
    ensures
        ({
            let r = disconnected(s, e);
            &&& r.endpoints.contains_key(x) == s.endpoints.contains_key(x)
            &&& s.endpoints.contains_key(x) ==> r.endpoints[x] == s.endpoints[x]
            &&& r.http.contains_key(x) == s.http.contains_key(x)
            &&& s.http.contains_key(x) ==> r.http[x] == s.http[x]
            &&& r.files == s.files && r.host == s.host && r.cursors == s.cursors
        }),
{
}

} // verus!
