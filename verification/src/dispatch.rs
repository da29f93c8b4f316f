//! The host's HTTP round-robin dispatch: at most one endpoint at a time
//! downloads a chunk from the host; files are served in order, endpoints
//! take turns, and a per-file cursor spreads the chunks handed out.

use vstd::prelude::*;
use crate::ids::{ascending_ids, ids_ascending, sort_ids};
use crate::p2p::{
    AssignmentView, EndpointView, FileView, P2PState, P2PView, SharedFileInfo,
    HttpChunkAssignment, id_is_shared, find_file,
};
use crate::table::{StrMap, string_views};

verus! {

broadcast use vstd::std_specs::hash::group_hash_axioms;

/// How long a host HTTP assignment that has not begun stays reserved (ms).
pub const HTTP_ASSIGNMENT_TTL_MS: u64 = 30 * 1000;

/// How long a host HTTP assignment that has begun stays reserved (ms).
pub const HTTP_STARTED_ASSIGNMENT_TTL_MS: u64 = 300 * 1000;

/// An assignment is still reserved at time `now`: its age (zero if it seems
/// to lie in the future) is within the limit for its stage.
pub open spec fn assignment_alive(a: AssignmentView, now: u64) -> bool {
    let age: int = if now >= a.assigned_at { now - a.assigned_at } else { 0 };
    age <= if a.started { HTTP_STARTED_ASSIGNMENT_TTL_MS } else { HTTP_ASSIGNMENT_TTL_MS }
}

/// The host HTTP assignments that survive at `now`: those of endpoints
/// still connected and still within their time limit.
pub open spec fn live_http(s: P2PView, now: u64) -> Map<Seq<char>, AssignmentView> {
    Map::new(
        |k: Seq<char>| s.http.contains_key(k) && s.endpoints.contains_key(k) && assignment_alive(s.http[k], now),
        |k: Seq<char>| s.http[k],
    )
}

/// The "last HTTP endpoint" records that survive: those of files still
/// shared that name an endpoint still connected.
pub open spec fn kept_last_http(s: P2PView) -> Map<Seq<char>, Seq<char>> {
    Map::new(
        |f: Seq<char>| s.last_http.contains_key(f) && id_is_shared(s.files, f) && s.endpoints.contains_key(s.last_http[f]),
        |f: Seq<char>| s.last_http[f],
    )
}

/// `i` is the last shared file with identifier `id`.
pub open spec fn last_with_id(files: Seq<FileView>, id: Seq<char>, i: int) -> bool {
    &&& 0 <= i < files.len()
    &&& files[i].file_id == id
    &&& forall|j: int| i < j < files.len() ==> files[j].file_id != id
}

/// The chunk count recorded for file `id`: that of the last shared file
/// carrying the identifier.
pub open spec fn file_chunk_count(files: Seq<FileView>, id: Seq<char>) -> u32 {
    files[choose|i: int| last_with_id(files, id, i)].chunk_count
}

/// The chunks of file `f` that an endpoint holds (none if it has no record).
pub open spec fn owned_of(ep: EndpointView, f: Seq<char>) -> Set<u32> {
    if ep.owned.contains_key(f) {
        ep.owned[f]
    } else {
        Set::empty()
    }
}

/// Endpoint `e` (not the host) is downloading file `f` of `c` chunks and
/// holds fewer than `c` of them.
pub open spec fn wants_http_chunk(s: P2PView, e: Seq<char>, f: Seq<char>, c: u32) -> bool {
    &&& s.endpoints.contains_key(e)
    &&& e != s.host
    &&& s.endpoints[e].file_id == Some(f)
    &&& (!s.endpoints[e].owned.contains_key(f) || s.endpoints[e].owned[f].len() < c)
}

/// The endpoints that could receive a chunk of `f` from the host.
pub open spec fn http_candidates(s: P2PView, f: Seq<char>, c: u32) -> Set<Seq<char>> {
    Set::new(|e: Seq<char>| wants_http_chunk(s, e, f, c))
}

/// Where the turn starts in the ascending candidate list `q`: just after
/// the endpoint that last got a chunk of `f`, if it is still a candidate,
/// else at the first candidate.
pub open spec fn rotation_start(q: Seq<Seq<char>>, last: Map<Seq<char>, Seq<char>>, f: Seq<char>) -> int {
    if last.contains_key(f) && q.contains(last[f]) {
        ((choose|p: int| 0 <= p < q.len() && q[p] == last[f]) + 1) % (q.len() as int)
    } else {
        0
    }
}

/// The candidates for a chunk of `f` from the host, in the order in which
/// they are asked: ascending identifiers, starting just after the endpoint
/// served last for `f` and wrapping around.
pub open spec fn turn_order(s: P2PView, f: Seq<char>, c: u32) -> Seq<Seq<char>> {
    let q = ascending_ids(http_candidates(s, f, c));
    let st = rotation_start(q, kept_last_http(s), f);
    Seq::new(q.len(), |k: int| q[(st + k) % (q.len() as int)])
}

/// The file's cursor: the chunk the host hands out next.
pub open spec fn cursor_of(s: P2PView, f: Seq<char>) -> u32 {
    if s.cursors.contains_key(f) {
        s.cursors[f]
    } else {
        0
    }
}

/// The chunk the cursor of `f` points at, among `c` chunks.
pub open spec fn cursor_chunk(s: P2PView, f: Seq<char>, c: u32) -> u32 {
    ((cursor_of(s, f) as int) % (c as int)) as u32
}

/// Endpoint `e` does not hold chunk `ch` of `f`.
pub open spec fn lacks(s: P2PView, e: Seq<char>, f: Seq<char>, ch: u32) -> bool {
    !owned_of(s.endpoints[e], f).contains(ch)
}

/// `k` is the first position in `order` of an endpoint lacking chunk `ch` of `f`.
pub open spec fn first_lacking(order: Seq<Seq<char>>, s: P2PView, f: Seq<char>, ch: u32, k: int) -> bool {
    &&& 0 <= k < order.len()
    &&& lacks(s, order[k], f, ch)
    &&& forall|k2: int| 0 <= k2 < k ==> !lacks(s, #[trigger] order[k2], f, ch)
}

/// Shared file `i` has chunks, and some candidate lacks its cursor chunk.
pub open spec fn file_ready(s: P2PView, i: int) -> bool {
    let f = s.files[i].file_id;
    let c = file_chunk_count(s.files, f);
    let order = turn_order(s, f, c);
    c > 0 && exists|k: int| 0 <= k < order.len() && #[trigger] lacks(s, order[k], f, cursor_chunk(s, f, c))
}

/// `i` is the first shared file that is ready for dispatch.
pub open spec fn first_ready_file(s: P2PView, i: int) -> bool {
    &&& 0 <= i < s.files.len()
    &&& file_ready(s, i)
    &&& forall|j: int| 0 <= j < i ==> !file_ready(s, j)
}

/// No shared file is ready for dispatch.
pub open spec fn no_ready_file(s: P2PView) -> bool {
    forall|i: int| 0 <= i < s.files.len() ==> !file_ready(s, i)
}

/// For `0 <= x < 2n`, `x mod n` is `x` or `x - n`.
pub proof fn lemma_mod_once(x: int, n: int)
    requires
        n > 0,
        0 <= x < 2 * n,
    ensures
        x % n == if x < n { x } else { x - n },
{
    if x < n {
        assert(x % n == x) by (nonlinear_arith)
            requires
                0 <= x < n,
        ;
    } else {
        assert(x % n == x - n) by (nonlinear_arith)
            requires
                n <= x < 2 * n,
        ;
    }
}

/// Whether an assignment is still reserved at `now`.
fn alive_at(a: &HttpChunkAssignment, now: u64) -> (b: bool)
    ensures
        b == assignment_alive(a@, now),
{
    let age = now.saturating_sub(a.assigned_at);
    let limit = if a.started { HTTP_STARTED_ASSIGNMENT_TTL_MS } else { HTTP_ASSIGNMENT_TTL_MS };
    age <= limit
}

/// Drops the host HTTP assignments that are no longer reserved at `now`.
fn drop_stale_assignments(state: &mut P2PState, now: u64)
    ensures
        final(state)@ == (P2PView { http: live_http(old(state)@, now), ..old(state)@ }),
{
    let keys = state.http_assignments.keys();
    let ghost kv = string_views(keys@);
    let ghost s = state@;
    let mut stale: Vec<String> = Vec::new();
    for n in 0..keys.len()
        invariant
            kv == string_views(keys@),
            kv.to_set() == s.http.dom(),
            state@ == s,
            forall|x: Seq<char>| #![trigger string_views(stale@).to_set().contains(x)]
                string_views(stale@).to_set().contains(x) <==> (kv.take(n as int).contains(x)
                    && !(s.endpoints.contains_key(x) && assignment_alive(s.http[x], now))),
    {
        let k = &keys[n];
        proof {
            assert(kv[n as int] == k@);
            assert(kv.to_set().contains(kv[n as int]));
        }
        let a = state.http_assignments.get(k).unwrap();
        let keep = state.endpoints.contains_key(k) && alive_at(a, now);
        let ghost before = string_views(stale@);
        if !keep {
            stale.push(k.clone());
            proof {
                assert(string_views(stale@) =~= before.push(k@));
                before.lemma_push_to_set_commute(k@);
            }
        }
        proof {
            let t1 = kv.take(n + 1);
            let t0 = kv.take(n as int);
            assert forall|x: Seq<char>| t1.contains(x) <==> (t0.contains(x) || x == k@) by {
                if t1.contains(x) {
                    let j = choose|j: int| 0 <= j < t1.len() && t1[j] == x;
                    if j < n {
                        assert(t0[j] == x);
                    }
                }
                if t0.contains(x) {
                    let j = choose|j: int| 0 <= j < t0.len() && t0[j] == x;
                    assert(t1[j] == x);
                }
                if x == k@ {
                    assert(t1[n as int] == x);
                }
            }
        }
    }
    state.http_assignments.remove_keys(&stale);
    proof {
        assert(kv.take(kv.len() as int) =~= kv);
        assert(state@.http =~= live_http(s, now));
    }
}

/// Drops the "last HTTP endpoint" records of files no longer shared or of
/// endpoints no longer connected.
fn drop_stale_last_http(state: &mut P2PState)
    ensures
        final(state)@ == (P2PView { last_http: kept_last_http(old(state)@), ..old(state)@ }),
{
    let keys = state.file_last_http_endpoint.keys();
    let ghost kv = string_views(keys@);
    let ghost s = state@;
    let mut stale: Vec<String> = Vec::new();
    for n in 0..keys.len()
        invariant
            kv == string_views(keys@),
            kv.to_set() == s.last_http.dom(),
            state@ == s,
            forall|x: Seq<char>| #![trigger string_views(stale@).to_set().contains(x)]
                string_views(stale@).to_set().contains(x) <==> (kv.take(n as int).contains(x)
                    && !(id_is_shared(s.files, x) && s.endpoints.contains_key(s.last_http[x]))),
    {
        let k = &keys[n];
        proof {
            assert(kv[n as int] == k@);
            assert(kv.to_set().contains(kv[n as int]));
        }
        let e = state.file_last_http_endpoint.get(k).unwrap();
        let keep = find_file(&state.shared_files, k).is_some() && state.endpoints.contains_key(e);
        let ghost before = string_views(stale@);
        if !keep {
            stale.push(k.clone());
            proof {
                assert(string_views(stale@) =~= before.push(k@));
                before.lemma_push_to_set_commute(k@);
            }
        }
        proof {
            let t1 = kv.take(n + 1);
            let t0 = kv.take(n as int);
            assert forall|x: Seq<char>| t1.contains(x) <==> (t0.contains(x) || x == k@) by {
                if t1.contains(x) {
                    let j = choose|j: int| 0 <= j < t1.len() && t1[j] == x;
                    if j < n {
                        assert(t0[j] == x);
                    }
                }
                if t0.contains(x) {
                    let j = choose|j: int| 0 <= j < t0.len() && t0[j] == x;
                    assert(t1[j] == x);
                }
                if x == k@ {
                    assert(t1[n as int] == x);
                }
            }
        }
    }
    state.file_last_http_endpoint.remove_keys(&stale);
    proof {
        assert(kv.take(kv.len() as int) =~= kv);
        assert(state@.last_http =~= kept_last_http(s));
    }
}

/// The chunk count recorded for shared file `id`.
pub fn chunk_count_of(files: &Vec<SharedFileInfo>, id: &String) -> (c: u32)
    requires
        id_is_shared(files@.map_values(|f: SharedFileInfo| f@), id@),
    ensures
        c == file_chunk_count(files@.map_values(|f: SharedFileInfo| f@), id@),
{
    let ghost fs = files@.map_values(|f: SharedFileInfo| f@);
    let mut last: usize = 0;
    let mut found = false;
    let mut i: usize = 0;
    while i < files.len()
        invariant
            0 <= i <= files@.len(),
            fs == files@.map_values(|f: SharedFileInfo| f@),
            id_is_shared(fs, id@),
            found ==> last < i && fs[last as int].file_id == id@,
            found ==> forall|j: int| last < j < i ==> fs[j].file_id != id@,
            !found ==> forall|j: int| 0 <= j < i ==> fs[j].file_id != id@,
        decreases files@.len() - i,
    {
        proof {
            assert(fs[i as int] == files@[i as int]@);
        }
        if files[i].file_id == *id {
            last = i;
            found = true;
        }
        i = i + 1;
    }
    proof {
        assert(found);
        assert(last_with_id(fs, id@, last as int));
        let l2 = choose|j: int| last_with_id(fs, id@, j);
        if l2 < last as int {
        } else if l2 > last as int {
        }
        assert(l2 == last as int);
        assert(fs[last as int] == files@[last as int]@);
    }
    files[last].chunk_count
}

/// The endpoints that could receive a chunk of `f` (of `c` chunks) from
/// the host, in ascending order of identifier.
fn collect_http_candidates(state: &P2PState, f: &String, c: u32) -> (q: Vec<String>)
    ensures
        string_views(q@) == ascending_ids(http_candidates(state@, f@, c)),
        ids_ascending(string_views(q@)),
        string_views(q@).to_set() == http_candidates(state@, f@, c),
{
    let keys = state.endpoints.keys();
    let ghost kv = string_views(keys@);
    let ghost s = state@;
    let mut cands: Vec<String> = Vec::new();
    for n in 0..keys.len()
        invariant
            kv == string_views(keys@),
            kv.to_set() == s.endpoints.dom(),
            kv.no_duplicates(),
            s == state@,
            string_views(cands@).no_duplicates(),
            forall|x: Seq<char>| #![trigger string_views(cands@).to_set().contains(x)]
                string_views(cands@).to_set().contains(x) <==> (kv.take(n as int).contains(x)
                    && wants_http_chunk(s, x, f@, c)),
    {
        let k = &keys[n];
        proof {
            assert(kv[n as int] == k@);
            assert(kv.to_set().contains(kv[n as int]));
        }
        let ep = state.endpoints.get(k).unwrap();
        let downloading = match &ep.file_id {
            Some(x) => *x == *f,
            None => false,
        };
        let lacking = match ep.owned_chunks.get(f) {
            None => true,
            Some(h) => h.len() < c as usize,
        };
        let is_host = *k == state.host_endpoint_id;
        let ghost before = string_views(cands@);
        proof {
            let t0 = kv.take(n as int);
            assert(!t0.contains(k@)) by {
                if t0.contains(k@) {
                    let j = choose|j: int| 0 <= j < t0.len() && t0[j] == k@;
                    assert(kv[j] == kv[n as int]);
                }
            }
        }
        if !is_host && downloading && lacking {
            cands.push(k.clone());
            proof {
                assert(string_views(cands@) =~= before.push(k@));
                before.lemma_push_to_set_commute(k@);
                assert(!before.contains(k@)) by {
                    if before.contains(k@) {
                        let j = choose|j: int| 0 <= j < before.len() && before[j] == k@;
                        assert(before.to_set().contains(before[j]));
                    }
                }
            }
        }
        proof {
            let t1 = kv.take(n + 1);
            let t0 = kv.take(n as int);
            assert forall|x: Seq<char>| t1.contains(x) <==> (t0.contains(x) || x == k@) by {
                if t1.contains(x) {
                    let j = choose|j: int| 0 <= j < t1.len() && t1[j] == x;
                    if j < n {
                        assert(t0[j] == x);
                    }
                }
                if t0.contains(x) {
                    let j = choose|j: int| 0 <= j < t0.len() && t0[j] == x;
                    assert(t1[j] == x);
                }
                if x == k@ {
                    assert(t1[n as int] == x);
                }
            }
        }
    }
    proof {
        assert(kv.take(kv.len() as int) =~= kv);
        assert(string_views(cands@).to_set() =~= http_candidates(s, f@, c));
    }
    sort_ids(cands)
}

/// Where the turn starts among the candidates `q` for file `f`.
fn turn_start(q: &Vec<String>, last: &StrMap<String>, f: &String) -> (start: usize)
    requires
        q@.len() > 0,
        ids_ascending(string_views(q@)),
    ensures
        start == rotation_start(string_views(q@), last@, f@),
        start < q@.len(),
{
    let ghost qv = string_views(q@);
    proof {
        crate::ids::lemma_ascending_no_duplicates(qv);
    }
    match last.get(f) {
        None => 0,
        Some(l) => {
            let mut p: usize = 0;
            while p < q.len()
                invariant
                    0 <= p <= q@.len(),
                    qv == string_views(q@),
                    qv.no_duplicates(),
                    last@.contains_key(f@),
                    last@[f@] == l@,
                    forall|j: int| 0 <= j < p ==> qv[j] != l@,
                decreases q@.len() - p,
            {
                proof {
                    assert(qv[p as int] == q@[p as int]@);
                }
                if q[p] == *l {
                    proof {
                        assert(qv.contains(l@));
                        let p2 = choose|j: int| 0 <= j < qv.len() && qv[j] == l@;
                        assert(p2 == p as int);
                    }
                    return (p + 1) % q.len();
                }
                p = p + 1;
            }
            0
        },
    }
}

/// A chunk that the host hands to an endpoint for download over HTTP.
pub struct HttpDispatch {
    /// The endpoint that is to download.
    pub endpoint_id: String,
    /// The file of the chunk.
    pub file_id: String,
    /// The chunk's index.
    pub chunk_index: u32,
}

/// The state after dispatching chunk `chunk` of `f` (of `c` chunks) to `t`.
pub open spec fn after_dispatch(s: P2PView, now: u64, t: Seq<char>, f: Seq<char>, c: u32, chunk: u32) -> P2PView {
    P2PView {
        http: Map::empty().insert(
            t,
            AssignmentView { file_id: f, chunk_index: chunk, started: false, assigned_at: now },
        ),
        last_http: kept_last_http(s).insert(f, t),
        cursors: s.cursors.insert(f, ((chunk + 1) % (c as int)) as u32),
        ..s
    }
}

/// One round of host HTTP dispatch at time `now`.
///
/// Stale assignments are dropped first. While any assignment remains, the
/// host serves nobody new. Otherwise the first shared file whose cursor
/// chunk some candidate lacks is served: the candidates are asked in turn,
/// starting after the endpoint served last for that file; those that hold
/// the cursor chunk are skipped, the first that lacks it gets it, and the
/// cursor moves on by one.
pub fn host_http_dispatch(state: &mut P2PState, now: u64) -> (r: Option<HttpDispatch>)
    ensures
        live_http(old(state)@, now).dom() != Set::<Seq<char>>::empty() ==> {
            &&& r is None
            &&& final(state)@ == (P2PView { http: live_http(old(state)@, now), ..old(state)@ })
        },
        live_http(old(state)@, now).dom() == Set::<Seq<char>>::empty() && no_ready_file(old(state)@) ==> {
            &&& r is None
            &&& final(state)@ == (P2PView {
                http: live_http(old(state)@, now),
                last_http: kept_last_http(old(state)@),
                ..old(state)@
            })
        },
        forall|i: int|
            live_http(old(state)@, now).dom() == Set::<Seq<char>>::empty() && #[trigger] first_ready_file(old(state)@, i)
                ==> {
                let s = old(state)@;
                let f = s.files[i].file_id;
                let c = file_chunk_count(s.files, f);
                let ch = cursor_chunk(s, f, c);
                let order = turn_order(s, f, c);
                &&& r matches Some(d)
                &&& d.file_id@ == f
                &&& d.chunk_index == ch
                &&& exists|k: int| first_lacking(order, s, f, ch, k) && d.endpoint_id@ == order[k]
                &&& final(state)@ == after_dispatch(s, now, d.endpoint_id@, f, c, ch)
            },
{
    let ghost s0 = state@;
    drop_stale_assignments(state, now);
    if !state.http_assignments.is_empty() {
        return None;
    }
    drop_stale_last_http(state);
    let ghost s1 = state@;
    proof {
        assert(s1 == (P2PView { http: live_http(s0, now), last_http: kept_last_http(s0), ..s0 }));
    }
    let n = state.shared_files.len();
    for i in 0..n
        invariant
            n == state.shared_files@.len(),
            s0 == old(state)@,
            state@ == s1,
            s1 == (P2PView { http: live_http(s0, now), last_http: kept_last_http(s0), ..s0 }),
            live_http(s0, now).dom() == Set::<Seq<char>>::empty(),
            forall|j: int| 0 <= j < i ==> !file_ready(s0, j),
    {
        let f = state.shared_files[i].file_id.clone();
        proof {
            assert(s0.files[i as int] == state.shared_files@[i as int]@);
            assert(id_is_shared(s0.files, f@));
        }
        let c = chunk_count_of(&state.shared_files, &f);
        let ghost order = turn_order(s0, f@, c);
        if c > 0 {
            let q = collect_http_candidates(state, &f, c);
            proof {
                assert(http_candidates(s1, f@, c) =~= http_candidates(s0, f@, c));
            }
            let ghost qs = string_views(q@);
            let ch: u32 = match state.file_chunk_cursors.get(&f) {
                Some(x) => {
                    proof {
                        assert(s0.cursors.contains_key(f@) && s0.cursors[f@] == *x);
                        assert(cursor_of(s0, f@) == *x);
                    }
                    *x % c
                },
                None => {
                    proof {
                        assert(cursor_of(s0, f@) == 0);
                        assert((0int % (c as int)) == 0) by (nonlinear_arith)
                            requires
                                c > 0,
                        ;
                    }
                    0
                },
            };
            proof {
                if s0.cursors.contains_key(f@) {
                    let x = s0.cursors[f@];
                    assert(0 <= (x as int) % (c as int) < c) by (nonlinear_arith)
                        requires
                            c > 0,
                    ;
                }
                assert(ch == cursor_chunk(s0, f@, c));
                assert(order.len() == q@.len());
            }
            if q.len() > 0 {
                let start = turn_start(&q, &state.file_last_http_endpoint, &f);
                let len = q.len();
                let mut k: usize = 0;
                while k < len
                    invariant
                        0 <= k <= len,
                        len == q@.len(),
                        start < len,
                        start == rotation_start(qs, kept_last_http(s0), f@),
                        qs == string_views(q@),
                        qs == ascending_ids(http_candidates(s0, f@, c)),
                        qs.to_set() == http_candidates(s0, f@, c),
                        order == turn_order(s0, f@, c),
                        order.len() == len,
                        ch == cursor_chunk(s0, f@, c),
                        c > 0,
                        state@ == s1,
                        s1 == (P2PView { http: live_http(s0, now), last_http: kept_last_http(s0), ..s0 }),
                        forall|k2: int| 0 <= k2 < k ==> !lacks(s0, #[trigger] order[k2], f@, ch),
                        s0 == old(state)@,
                        i < n,
                        n == s0.files.len(),
                        f@ == s0.files[i as int].file_id,
                        c == file_chunk_count(s0.files, f@),
                        live_http(s0, now).dom() == Set::<Seq<char>>::empty(),
                        forall|j: int| 0 <= j < i ==> !file_ready(s0, j),
                    decreases len - k,
                {
                    let idx: usize = if k < len - start { start + k } else { k - (len - start) };
                    proof {
                        lemma_mod_once(start + k, len as int);
                        assert(order[k as int] == qs[idx as int]);
                        assert(qs[idx as int] == q@[idx as int]@);
                        assert(qs.to_set().contains(qs[idx as int]));
                    }
                    let e = &q[idx];
                    let ep = state.endpoints.get(e).unwrap();
                    let held = match ep.owned_chunks.get(&f) {
                        Some(h) => h.contains(&ch),
                        None => false,
                    };
                    proof {
                        assert(held == !lacks(s0, order[k as int], f@, ch));
                    }
                    if !held {
                        let target = e.clone();
                        state.file_last_http_endpoint.insert(f.clone(), target.clone());
                        state.http_assignments.insert(
                            target.clone(),
                            HttpChunkAssignment { file_id: f.clone(), chunk_index: ch, started: false, assigned_at: now },
                        );
                        state.file_chunk_cursors.insert(f.clone(), ((ch as u64 + 1) % (c as u64)) as u32);
                        proof {
                            assert(first_lacking(order, s0, f@, ch, k as int));
                            assert(file_ready(s0, i as int));
                            assert(live_http(s0, now) =~= Map::empty());
                            assert(state@ =~= after_dispatch(s0, now, target@, f@, c, ch));
                            assert(!no_ready_file(s0));
                            assert forall|j: int| #[trigger] first_ready_file(s0, j) implies j == i as int by {
                                if j < i as int {
                                } else if j > i as int {
                                }
                            }
                        }
                        return Some(HttpDispatch { endpoint_id: target, file_id: f, chunk_index: ch });
                    }
                    k = k + 1;
                }
            }
        }
        proof {
            assert(!file_ready(s0, i as int)) by {
                if c > 0 {
                    assert(order.len() == ascending_ids(http_candidates(s0, f@, c)).len());
                }
            }
        }
    }
    None
}

} // verus!
