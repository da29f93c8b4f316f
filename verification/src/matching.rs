//! Peer-to-peer matching: connected endpoints (never the host) that are
//! free to upload hand chunks to endpoints that are free to download, one
//! assignment per source and per downloader in each round.

use vstd::prelude::*;
use std::collections::HashSet;
use crate::ids::{ascending_ids, ids_ascending, sort_ids};
use crate::p2p::{EndpointView, P2PState, P2PView, id_is_shared, find_file};
use crate::dispatch::{file_chunk_count, owned_of, chunk_count_of};
use crate::table::{StrMap, string_views};

verus! {

broadcast use vstd::std_specs::hash::group_hash_axioms;

/// Uploads an endpoint may run at once before it stops being a source.
pub const MAX_PEER_UPLOADS: u32 = 1;

/// Downloads an endpoint may run at once before it stops being a target.
pub const MAX_PEER_DOWNLOADS: u32 = 1;

/// How long a source that failed a transfer is left out (ms).
pub const SOURCE_COOLDOWN_MS: u64 = 20 * 1000;

/// Sources that are temporarily not used, with the time until which each
/// is left out.
pub struct SourceCooldowns {
    pub until: StrMap<u64>,
}

impl View for SourceCooldowns {
    type V = Map<Seq<char>, u64>;

    open spec fn view(&self) -> Map<Seq<char>, u64> {
        self.until@
    }
}

impl SourceCooldowns {
    /// No source is left out.
    pub fn new() -> (c: Self)
        ensures
            c@ == Map::<Seq<char>, u64>::empty(),
    {
        SourceCooldowns { until: StrMap::new() }
    }
}

/// The cooldowns still running at `now`.
pub open spec fn live_cooldowns(c: Map<Seq<char>, u64>, now: u64) -> Map<Seq<char>, u64> {
    Map::new(|k: Seq<char>| c.contains_key(k) && c[k] > now, |k: Seq<char>| c[k])
}

/// The connected endpoints other than the host.
pub open spec fn peer_ids(s: P2PView) -> Set<Seq<char>> {
    Set::new(|e: Seq<char>| s.endpoints.contains_key(e) && e != s.host)
}

/// `src` may serve as a source: it is free to upload and not cooling down.
pub open spec fn source_available(s: P2PView, cool: Map<Seq<char>, u64>, src: Seq<char>) -> bool {
    &&& s.endpoints[src].upload_count < MAX_PEER_UPLOADS
    &&& !cool.contains_key(src)
}

/// `ch` is the lowest chunk below `c` that `d` lacks and `src` holds.
pub open spec fn first_transferable(src: Set<u32>, d: Set<u32>, c: u32, ch: u32) -> bool {
    &&& ch < c
    &&& !d.contains(ch)
    &&& src.contains(ch)
    &&& forall|x: u32| x < ch ==> d.contains(x) || !src.contains(x)
}

/// `src` can send `d` a chunk of the file `d` is downloading: `d` is free
/// to download, its file is shared, has chunks and is not complete at `d`,
/// and `src` holds a chunk of that file which `d` lacks.
pub open spec fn pair_possible(s: P2PView, src: Seq<char>, d: Seq<char>) -> bool {
    let ep = s.endpoints[d];
    let f = ep.file_id.unwrap();
    let c = file_chunk_count(s.files, f);
    &&& ep.download_count < MAX_PEER_DOWNLOADS
    &&& ep.file_id is Some
    &&& id_is_shared(s.files, f)
    &&& c > 0
    &&& owned_of(ep, f).len() < c
    &&& s.endpoints[src].owned.contains_key(f)
    &&& s.endpoints[src].owned[f] != Set::<u32>::empty()
    &&& exists|ch: u32| first_transferable(s.endpoints[src].owned[f], owned_of(ep, f), c, ch)
}

/// The chunk `src` would send `d` (meaningful when the pair is possible).
pub open spec fn pair_chunk(s: P2PView, src: Seq<char>, d: Seq<char>) -> u32 {
    let f = s.endpoints[d].file_id.unwrap();
    choose|ch: u32| first_transferable(s.endpoints[src].owned[f], owned_of(s.endpoints[d], f), file_chunk_count(s.files, f), ch)
}

/// A peer-to-peer assignment, as plain values.
pub struct MatchView {
    pub downloader: Seq<char>,
    pub file_id: Seq<char>,
    pub chunk: u32,
    pub source: Seq<char>,
}

/// The first downloader of `ds` (other than `src`, not yet served) that
/// `src` can send a chunk to.
pub open spec fn pick_downloader(s: P2PView, src: Seq<char>, ds: Seq<Seq<char>>, taken: Set<Seq<char>>) -> Option<Seq<char>>
    decreases ds.len(),
{
    if ds.len() == 0 {
        None
    } else if ds[0] != src && !taken.contains(ds[0]) && pair_possible(s, src, ds[0]) {
        Some(ds[0])
    } else {
        pick_downloader(s, src, ds.drop_first(), taken)
    }
}

/// The assignments made when the sources `srcs` take their turns in order,
/// each picking among `all` the first downloader it can serve.
pub open spec fn greedy_matches(
    s: P2PView,
    cool: Map<Seq<char>, u64>,
    srcs: Seq<Seq<char>>,
    all: Seq<Seq<char>>,
    taken: Set<Seq<char>>,
) -> Seq<MatchView>
    decreases srcs.len(),
{
    if srcs.len() == 0 {
        Seq::empty()
    } else {
        let src = srcs[0];
        let rest = srcs.drop_first();
        if source_available(s, cool, src) && pick_downloader(s, src, all, taken) is Some {
            let d = pick_downloader(s, src, all, taken).unwrap();
            let m = MatchView {
                downloader: d,
                file_id: s.endpoints[d].file_id.unwrap(),
                chunk: pair_chunk(s, src, d),
                source: src,
            };
            seq![m] + greedy_matches(s, cool, rest, all, taken.insert(d))
        } else {
            greedy_matches(s, cool, rest, all, taken)
        }
    }
}

/// One peer-to-peer assignment: `downloader` fetches `chunk_index` of
/// `file_id` from `source_id`.
pub struct PeerAssignment {
    pub downloader_id: String,
    pub file_id: String,
    pub chunk_index: u32,
    pub source_id: String,
}

impl View for PeerAssignment {
    type V = MatchView;

    open spec fn view(&self) -> MatchView {
        MatchView {
            downloader: self.downloader_id@,
            file_id: self.file_id@,
            chunk: self.chunk_index,
            source: self.source_id@,
        }
    }
}

/// Forgets the cooldowns that have run out at `now`.
fn drop_expired_cooldowns(cool: &mut SourceCooldowns, now: u64)
    ensures
        final(cool)@ == live_cooldowns(old(cool)@, now),
{
    let keys = cool.until.keys();
    let ghost kv = string_views(keys@);
    let ghost c0 = cool@;
    let mut expired: Vec<String> = Vec::new();
    for n in 0..keys.len()
        invariant
            kv == string_views(keys@),
            kv.to_set() == c0.dom(),
            cool@ == c0,
            forall|x: Seq<char>| #![trigger string_views(expired@).to_set().contains(x)]
                string_views(expired@).to_set().contains(x) <==> (kv.take(n as int).contains(x) && !(c0[x] > now)),
    {
        let k = &keys[n];
        proof {
            assert(kv[n as int] == k@);
            assert(kv.to_set().contains(kv[n as int]));
        }
        let until = *cool.until.get(k).unwrap();
        let ghost before = string_views(expired@);
        if !(until > now) {
            expired.push(k.clone());
            proof {
                assert(string_views(expired@) =~= before.push(k@));
                before.lemma_push_to_set_commute(k@);
            }
        }
        proof {
            let t1 = kv.take(n + 1);
            let t0 = kv.take(n as int);
            assert forall|x: Seq<char>| t1.contains(x) <==> (t0.contains(x) || x == k@) by {
                if t1.contains(x) {
                    let j = choose|j: int| 0 <= j < t1.len() && t1[j] == x;
                    if j < n {
                        assert(t0[j] == x);
                    }
                }
                if t0.contains(x) {
                    let j = choose|j: int| 0 <= j < t0.len() && t0[j] == x;
                    assert(t1[j] == x);
                }
                if x == k@ {
                    assert(t1[n as int] == x);
                }
            }
        }
    }
    cool.until.remove_keys(&expired);
    proof {
        assert(kv.take(kv.len() as int) =~= kv);
        assert(cool@ =~= live_cooldowns(c0, now));
    }
}

/// The connected endpoints other than the host, in ascending order.
fn sorted_peer_ids(state: &P2PState) -> (q: Vec<String>)
    ensures
        string_views(q@) == ascending_ids(peer_ids(state@)),
        ids_ascending(string_views(q@)),
        string_views(q@).to_set() == peer_ids(state@),
{
    let keys = state.endpoints.keys();
    let ghost kv = string_views(keys@);
    let ghost s = state@;
    let mut peers: Vec<String> = Vec::new();
    for n in 0..keys.len()
        invariant
            kv == string_views(keys@),
            kv.to_set() == s.endpoints.dom(),
            kv.no_duplicates(),
            s == state@,
            string_views(peers@).no_duplicates(),
            forall|x: Seq<char>| #![trigger string_views(peers@).to_set().contains(x)]
                string_views(peers@).to_set().contains(x) <==> (kv.take(n as int).contains(x) && x != s.host),
    {
        let k = &keys[n];
        proof {
            assert(kv[n as int] == k@);
        }
        let ghost before = string_views(peers@);
        proof {
            let t0 = kv.take(n as int);
            assert(!t0.contains(k@)) by {
                if t0.contains(k@) {
                    let j = choose|j: int| 0 <= j < t0.len() && t0[j] == k@;
                    assert(kv[j] == kv[n as int]);
                }
            }
        }
        if !(*k == state.host_endpoint_id) {
            peers.push(k.clone());
            proof {
                assert(string_views(peers@) =~= before.push(k@));
                before.lemma_push_to_set_commute(k@);
                assert(!before.contains(k@)) by {
                    if before.contains(k@) {
                        let j = choose|j: int| 0 <= j < before.len() && before[j] == k@;
                        assert(before.to_set().contains(before[j]));
                    }
                }
            }
        }
        proof {
            let t1 = kv.take(n + 1);
            let t0 = kv.take(n as int);
            assert forall|x: Seq<char>| t1.contains(x) <==> (t0.contains(x) || x == k@) by {
                if t1.contains(x) {
                    let j = choose|j: int| 0 <= j < t1.len() && t1[j] == x;
                    if j < n {
                        assert(t0[j] == x);
                    }
                }
                if t0.contains(x) {
                    let j = choose|j: int| 0 <= j < t0.len() && t0[j] == x;
                    assert(t1[j] == x);
                }
                if x == k@ {
                    assert(t1[n as int] == x);
                }
            }
        }
    }
    proof {
        assert(kv.take(kv.len() as int) =~= kv);
        assert(string_views(peers@).to_set() =~= peer_ids(s));
    }
    sort_ids(peers)
}

/// What `src` can send `d`: the file `d` is downloading and the chunk.
fn try_pair(state: &P2PState, src: &String, d: &String) -> (r: Option<(String, u32)>)
    requires
        state@.endpoints.contains_key(src@),
        state@.endpoints.contains_key(d@),
    ensures
        match r {
            Some(p) => pair_possible(state@, src@, d@) && p.0@ == state@.endpoints[d@].file_id.unwrap()
                && p.1 == pair_chunk(state@, src@, d@),
            None => !pair_possible(state@, src@, d@),
        },
{
    let ghost s = state@;
    let dep = state.endpoints.get(d).unwrap();
    if dep.download_count >= MAX_PEER_DOWNLOADS {
        return None;
    }
    let f = match &dep.file_id {
        None => {
            return None;
        },
        Some(f) => f,
    };
    proof {
        assert(s.endpoints[d@].file_id.unwrap() == f@);
    }
    if find_file(&state.shared_files, f).is_none() {
        return None;
    }
    let c = chunk_count_of(&state.shared_files, f);
    if c == 0 {
        return None;
    }
    let downer = dep.owned_chunks.get(f);
    let ghost dset = owned_of(s.endpoints[d@], f@);
    let dcount: usize = match downer {
        None => 0,
        Some(h) => h.len(),
    };
    proof {
        match downer {
            Some(h) => {
                assert(h@ == dset);
            },
            None => {
                assert(dset =~= Set::<u32>::empty());
            },
        }
    }
    if dcount >= c as usize {
        return None;
    }
    let sep = state.endpoints.get(src).unwrap();
    let sset = match sep.owned_chunks.get(f) {
        None => {
            return None;
        },
        Some(h) => h,
    };
    if sset.is_empty() {
        return None;
    }
    let mut ch: u32 = 0;
    #[verifier::loop_isolation(false)]
    while ch < c
        invariant
            0 <= ch <= c,
            dset == owned_of(s.endpoints[d@], f@),
            s.endpoints[src@].owned.contains_key(f@),
            s.endpoints[src@].owned[f@] == sset@,
            match downer {
                Some(h) => h@ == dset,
                None => dset == Set::<u32>::empty(),
            },
            forall|x: u32| x < ch ==> dset.contains(x) || !sset@.contains(x),
        decreases c - ch,
    {
        let dhas = match downer {
            Some(h) => h.contains(&ch),
            None => false,
        };
        if !dhas && sset.contains(&ch) {
            proof {
                assert(first_transferable(sset@, dset, c, ch));
                let other = pair_chunk(s, src@, d@);
                assert(first_transferable(sset@, dset, c, other));
                if other < ch {
                } else if other > ch {
                }
                assert(other == ch);
            }
            return Some((f.clone(), ch));
        }
        ch = ch + 1;
    }
    proof {
        assert forall|x: u32| !first_transferable(sset@, dset, c, x) by {
            if x < c {
                assert(dset.contains(x) || !sset@.contains(x));
            }
        }
    }
    None
}

/// Whether `x` occurs in `v`.
fn contains_id(v: &Vec<String>, x: &String) -> (b: bool)
    ensures
        b == string_views(v@).contains(x@),
{
    let ghost sv = string_views(v@);
    let mut i: usize = 0;
    while i < v.len()
        invariant
            0 <= i <= v@.len(),
            sv == string_views(v@),
            forall|j: int| 0 <= j < i ==> sv[j] != x@,
        decreases v@.len() - i,
    {
        proof {
            assert(sv[i as int] == v@[i as int]@);
        }
        if v[i] == *x {
            return true;
        }
        i = i + 1;
    }
    false
}

/// The views of a list of assignments.
pub open spec fn match_views(v: Seq<PeerAssignment>) -> Seq<MatchView> {
    v.map_values(|a: PeerAssignment| a@)
}

/// One round of peer-to-peer matching at time `now`.
///
/// Cooldowns that have run out are forgotten. The endpoints other than the
/// host take turns as sources in ascending order of identifier; a source
/// that is free to upload and not cooling down serves the first endpoint,
/// in the same order, that has not been served this round and to which it
/// can send a chunk, namely the lowest chunk that endpoint lacks and the
/// source holds of the file the endpoint is downloading.
pub fn find_and_assign_matches(state: &P2PState, cooldowns: &mut SourceCooldowns, now: u64) -> (out: Vec<PeerAssignment>)
    ensures
        final(cooldowns)@ == live_cooldowns(old(cooldowns)@, now),
        match_views(out@) == greedy_matches(
            state@,
            live_cooldowns(old(cooldowns)@, now),
            ascending_ids(peer_ids(state@)),
            ascending_ids(peer_ids(state@)),
            Set::empty(),
        ),
{
    drop_expired_cooldowns(cooldowns, now);
    let ghost s = state@;
    let ghost cool = cooldowns@;
    let ids = sorted_peer_ids(state);
    let ghost all = string_views(ids@);
    let mut out: Vec<PeerAssignment> = Vec::new();
    let mut taken: Vec<String> = Vec::new();
    proof {
        assert(all.skip(0) =~= all);
        assert(string_views(taken@).to_set() =~= Set::empty());
        assert(match_views(out@) + greedy_matches(s, cool, all.skip(0), all, Set::empty()) =~= greedy_matches(
            s,
            cool,
            all,
            all,
            Set::empty(),
        ));
    }
    let mut n: usize = 0;
    while n < ids.len()
        invariant
            0 <= n <= ids@.len(),
            s == state@,
            cool == cooldowns@,
            all == string_views(ids@),
            all.to_set() == peer_ids(s),
            match_views(out@) + greedy_matches(s, cool, all.skip(n as int), all, string_views(taken@).to_set())
                == greedy_matches(s, cool, all, all, Set::empty()),
        decreases ids@.len() - n,
    {
        let src = &ids[n];
        let ghost taken_set = string_views(taken@).to_set();
        proof {
            assert(all[n as int] == src@);
            assert(all.to_set().contains(all[n as int]));
            assert(all.skip(n as int)[0] == src@);
            assert(all.skip(n as int).drop_first() =~= all.skip(n + 1));
        }
        let sep = state.endpoints.get(src).unwrap();
        let available = sep.upload_count < MAX_PEER_UPLOADS && !cooldowns.until.contains_key(src);
        if available {
            let mut m: usize = 0;
            let mut picked: Option<(usize, String, u32)> = None;
            proof {
                assert(all.skip(0) =~= all);
            }
            while m < ids.len() && picked.is_none()
                invariant
                    0 <= m <= ids@.len(),
                    s == state@,
                    all == string_views(ids@),
                    all.to_set() == peer_ids(s),
                    s.endpoints.contains_key(src@),
                    taken_set == string_views(taken@).to_set(),
                    picked is None ==> pick_downloader(s, src@, all.skip(m as int), taken_set) == pick_downloader(
                        s,
                        src@,
                        all,
                        taken_set,
                    ),
                    picked matches Some(p) ==> {
                        &&& pick_downloader(s, src@, all, taken_set) == Some(all[p.0 as int])
                        &&& p.0 < ids@.len()
                        &&& p.1@ == s.endpoints[all[p.0 as int]].file_id.unwrap()
                        &&& p.2 == pair_chunk(s, src@, all[p.0 as int])
                    },
                decreases ids@.len() - m,
            {
                let d = &ids[m];
                proof {
                    assert(all[m as int] == d@);
                    assert(all.to_set().contains(all[m as int]));
                    assert(all.skip(m as int)[0] == d@);
                    assert(all.skip(m as int).drop_first() =~= all.skip(m + 1));
                }
                if !(*d == *src) && !contains_id(&taken, d) {
                    match try_pair(state, src, d) {
                        Some((f, ch)) => {
                            proof {
                                assert(string_views(taken@).contains(d@) <==> taken_set.contains(d@)) by {
                                    if taken_set.contains(d@) {
                                        let j = choose|j: int| 0 <= j < string_views(taken@).len() && string_views(taken@)[j] == d@;
                                    }
                                }
                            }
                            picked = Some((m, f, ch));
                        },
                        None => {},
                    }
                } else {
                    proof {
                        if d@ != src@ {
                            assert(string_views(taken@).contains(d@));
                            assert(taken_set.contains(d@));
                        }
                    }
                }
                m = m + 1;
            }
            match picked {
                Some((m, f, ch)) => {
                    let d = ids[m].clone();
                    proof {
                        assert(all[m as int] == d@);
                    }
                    let ghost before_taken = string_views(taken@);
                    taken.push(d.clone());
                    let ghost before_out = match_views(out@);
                    let a = PeerAssignment { downloader_id: d, file_id: f, chunk_index: ch, source_id: src.clone() };
                    out.push(a);
                    proof {
                        assert(string_views(taken@) =~= before_taken.push(all[m as int]));
                        before_taken.lemma_push_to_set_commute(all[m as int]);
                        assert(match_views(out@) =~= before_out.push(a@));
                        assert(source_available(s, cool, src@));
                        let rest = all.skip(n + 1);
                        let gm = greedy_matches(s, cool, all.skip(n as int), all, taken_set);
                        assert(gm == seq![a@] + greedy_matches(s, cool, rest, all, taken_set.insert(all[m as int])));
                        assert(match_views(out@) + greedy_matches(s, cool, rest, all, string_views(taken@).to_set())
                            =~= before_out + gm);
                    }
                },
                None => {
                    proof {
                        assert(all.skip(m as int) =~= Seq::<Seq<char>>::empty());
                        assert(pick_downloader(s, src@, all, taken_set) is None);
                    }
                },
            }
        } else {
            proof {
                assert(!source_available(s, cool, src@));
            }
        }
        n = n + 1;
    }
    proof {
        assert(all.skip(ids@.len() as int) =~= Seq::<Seq<char>>::empty());
        assert(match_views(out@) =~= match_views(out@) + Seq::<MatchView>::empty());
    }
    out
}

} // verus!
