//! The coordinator's state: the files the host shares, the endpoints that
//! are connected with the chunks each of them holds, and the host's HTTP
//! dispatch bookkeeping.

use vstd::prelude::*;
use std::collections::HashSet;
use crate::chunking::{ChunkMeta, ChunkList, ChunkListError, CHUNK_SIZE, spec_chunk_count, chunk_count_for, metas_of};
use crate::table::{StrMap, string_views};

verus! {

broadcast use vstd::std_specs::hash::group_hash_axioms;

/// A file offered by the host.
pub struct SharedFileInfo {
    /// Unique identifier of the file.
    pub file_id: String,
    /// Name of the file, as shown to downloaders.
    pub file_name: String,
    /// Path of the file on the host (never sent to downloaders).
    pub file_path: String,
    /// Size of the file in bytes.
    pub total_size: u64,
    /// Number of chunks.
    pub chunk_count: u32,
    /// The chunks, with their sizes and CRC-32s.
    pub chunks: Vec<ChunkMeta>,
}

/// What a shared file is, as plain values.
pub struct FileView {
    pub file_id: Seq<char>,
    pub file_name: Seq<char>,
    pub file_path: Seq<char>,
    pub total_size: u64,
    pub chunk_count: u32,
    pub chunks: Seq<ChunkMeta>,
}

impl View for SharedFileInfo {
    type V = FileView;

    open spec fn view(&self) -> FileView {
        FileView {
            file_id: self.file_id@,
            file_name: self.file_name@,
            file_path: self.file_path@,
            total_size: self.total_size,
            chunk_count: self.chunk_count,
            chunks: self.chunks@,
        }
    }
}

impl Clone for SharedFileInfo {
    fn clone(&self) -> (res: Self)
        ensures
            res@ == self@,
    {
        let mut chunks: Vec<ChunkMeta> = Vec::new();
        for i in 0..self.chunks.len()
            invariant
                chunks@ == self.chunks@.take(i as int),
        {
            chunks.push(self.chunks[i]);
            proof {
                assert(self.chunks@.take(i + 1) =~= self.chunks@.take(i as int).push(self.chunks@[i as int]));
            }
        }
        proof {
            assert(self.chunks@.take(self.chunks@.len() as int) =~= self.chunks@);
        }
        SharedFileInfo {
            file_id: self.file_id.clone(),
            file_name: self.file_name.clone(),
            file_path: self.file_path.clone(),
            total_size: self.total_size,
            chunk_count: self.chunk_count,
            chunks,
        }
    }
}

/// `s` is how `uuid` renders a random (version 4) identifier: 36 characters,
/// lower-case hexadecimal digits in groups of 8, 4, 4, 4 and 12 separated by
/// hyphens, the version digit being `4` and the variant digit one of `8`,
/// `9`, `a`, `b`.
pub open spec fn is_v4_uuid_text(s: Seq<char>) -> bool {
    &&& s.len() == 36
    &&& forall|i: int| 0 <= i < 36 ==> if i == 8 || i == 13 || i == 18 || i == 23 {
        s[i] == '-'
    } else {
        ('0' <= #[trigger] s[i] <= '9') || ('a' <= s[i] <= 'f')
    }
    &&& s[14] == '4'
    &&& (s[19] == '8' || s[19] == '9' || s[19] == 'a' || s[19] == 'b')
}

/// Trusted: `uuid::Uuid::new_v4()` rendered by its `Display` impl. The value
/// is random; what is claimed is only the textual shape every such value
/// has (hyphenated lower-case hexadecimal, version digit 4, variant digit
/// 8, 9, a or b).
#[verifier::external_body]
fn random_file_id() -> (id: String)
    ensures
        is_v4_uuid_text(id@),
{
    uuid::Uuid::new_v4().to_string()
}

/// Describes a file about to be shared, once every chunk of it is read: a
/// fresh random identifier, the chunk count that the file size calls for,
/// and the description of each chunk read.
pub fn new_shared_file_info(file_name: String, file_path: String, list: ChunkList) -> (r: Result<SharedFileInfo, ChunkListError>)
    requires
        list.wf(),
    ensures
        !list.complete() ==> r == Err::<SharedFileInfo, ChunkListError>(ChunkListError::Incomplete),
        list.complete() ==> (r matches Ok(info) && {
            &&& is_v4_uuid_text(info.file_id@)
            &&& info.file_name@ == file_name@
            &&& info.file_path@ == file_path@
            &&& info.total_size == list@.total_size
            &&& info.chunk_count == spec_chunk_count(list@.total_size as nat)
            &&& info.chunks@ == metas_of(list@.pieces)
        }),
{
    let (total_size, chunks) = match list.finish() {
        Ok(t) => t,
        Err(e) => {
            return Err(e);
        },
    };
    let chunk_count = chunk_count_for(total_size);
    Ok(SharedFileInfo { file_id: random_file_id(), file_name, file_path, total_size, chunk_count, chunks })
}

/// The view of an optional string.
pub open spec fn opt_view(o: Option<String>) -> Option<Seq<char>> {
    match o {
        Some(s) => Some(s@),
        None => None,
    }
}

/// What the coordinator knows of one connected endpoint.
pub struct EndpointState {
    /// The endpoint's identifier.
    pub endpoint_id: String,
    /// The file the endpoint is downloading, if any.
    pub file_id: Option<String>,
    /// For each file, the indices of the chunks the endpoint holds.
    pub owned_chunks: StrMap<HashSet<u32>>,
    /// Uploads in progress at the endpoint.
    pub upload_count: u32,
    /// Downloads in progress at the endpoint.
    pub download_count: u32,
}

/// What an endpoint is, as plain values.
pub struct EndpointView {
    pub endpoint_id: Seq<char>,
    pub file_id: Option<Seq<char>>,
    pub owned: Map<Seq<char>, Set<u32>>,
    pub upload_count: u32,
    pub download_count: u32,
}

impl View for EndpointState {
    type V = EndpointView;

    open spec fn view(&self) -> EndpointView {
        EndpointView {
            endpoint_id: self.endpoint_id@,
            file_id: opt_view(self.file_id),
            owned: self.owned_chunks@,
            upload_count: self.upload_count,
            download_count: self.download_count,
        }
    }
}

/// A freshly connected endpoint: no file, no chunk, no transfer.
pub open spec fn fresh_endpoint(id: Seq<char>) -> EndpointView {
    EndpointView {
        endpoint_id: id,
        file_id: None,
        owned: Map::empty(),
        upload_count: 0,
        download_count: 0,
    }
}

impl EndpointState {
    /// A freshly connected endpoint named `endpoint_id`.
    pub fn fresh(endpoint_id: String) -> (ep: Self)
        ensures
            ep@ == fresh_endpoint(endpoint_id@),
    {
        EndpointState {
            endpoint_id,
            file_id: None,
            owned_chunks: StrMap::new(),
            upload_count: 0,
            download_count: 0,
        }
    }
}

/// A chunk that the host has handed to an endpoint for download over HTTP.
pub struct HttpChunkAssignment {
    /// The file of the chunk.
    pub file_id: String,
    /// The chunk's index.
    pub chunk_index: u32,
    /// Whether the endpoint has begun fetching it.
    pub started: bool,
    /// When it was assigned, in milliseconds of the coordinator's clock.
    pub assigned_at: u64,
}

/// What a host HTTP assignment is, as plain values.
pub struct AssignmentView {
    pub file_id: Seq<char>,
    pub chunk_index: u32,
    pub started: bool,
    pub assigned_at: u64,
}

impl View for HttpChunkAssignment {
    type V = AssignmentView;

    open spec fn view(&self) -> AssignmentView {
        AssignmentView {
            file_id: self.file_id@,
            chunk_index: self.chunk_index,
            started: self.started,
            assigned_at: self.assigned_at,
        }
    }
}

/// The whole state the coordinator keeps.
pub struct P2PState {
    /// The files the host shares, in the order they were added.
    pub shared_files: Vec<SharedFileInfo>,
    /// The connected endpoints, by identifier.
    pub endpoints: StrMap<EndpointState>,
    /// The host's own endpoint identifier.
    pub host_endpoint_id: String,
    /// The host HTTP assignment of each endpoint that has one.
    pub http_assignments: StrMap<HttpChunkAssignment>,
    /// For each file, the endpoint that last got one of its chunks over HTTP.
    pub file_last_http_endpoint: StrMap<String>,
    /// For each file, the chunk at which the next HTTP dispatch starts looking.
    pub file_chunk_cursors: StrMap<u32>,
}

/// What the coordinator's state is, as plain values.
pub struct P2PView {
    pub files: Seq<FileView>,
    pub endpoints: Map<Seq<char>, EndpointView>,
    pub host: Seq<char>,
    pub http: Map<Seq<char>, AssignmentView>,
    pub last_http: Map<Seq<char>, Seq<char>>,
    pub cursors: Map<Seq<char>, u32>,
}

impl View for P2PState {
    type V = P2PView;

    open spec fn view(&self) -> P2PView {
        P2PView {
            files: self.shared_files@.map_values(|f: SharedFileInfo| f@),
            endpoints: self.endpoints@,
            host: self.host_endpoint_id@,
            http: self.http_assignments@,
            last_http: self.file_last_http_endpoint@,
            cursors: self.file_chunk_cursors@,
        }
    }
}

/// The chunk indices `0 .. n`.
pub open spec fn all_chunks(n: u32) -> Set<u32> {
    Set::new(|c: u32| c < n)
}

/// The set of chunk indices `0 .. n`.
fn full_chunk_set(n: u32) -> (set: HashSet<u32>)
    ensures
        set@ == all_chunks(n),
{
    let mut set: HashSet<u32> = HashSet::new();
    for i in 0..n
        invariant
            set@ == Set::new(|c: u32| c < i),
    {
        set.insert(i);
        proof {
            assert(set@ =~= Set::new(|c: u32| c < i + 1));
        }
    }
    proof {
        assert(set@ =~= all_chunks(n));
    }
    set
}

impl P2PState {
    /// A coordinator whose only endpoint is the host itself.
    pub fn new(host_endpoint_id: String) -> (s: Self)
        ensures
            s@.files == Seq::<FileView>::empty(),
            s@.endpoints == Map::<Seq<char>, EndpointView>::empty().insert(
                host_endpoint_id@,
                fresh_endpoint(host_endpoint_id@),
            ),
            s@.host == host_endpoint_id@,
            s@.http == Map::<Seq<char>, AssignmentView>::empty(),
            s@.last_http == Map::<Seq<char>, Seq<char>>::empty(),
            s@.cursors == Map::<Seq<char>, u32>::empty(),
    {
        let host_state = EndpointState::fresh(host_endpoint_id.clone());
        let mut endpoints: StrMap<EndpointState> = StrMap::new();
        endpoints.insert(host_endpoint_id.clone(), host_state);
        let s = P2PState {
            shared_files: Vec::new(),
            endpoints,
            host_endpoint_id,
            http_assignments: StrMap::new(),
            file_last_http_endpoint: StrMap::new(),
            file_chunk_cursors: StrMap::new(),
        };
        proof {
            assert(s@.files =~= Seq::<FileView>::empty());
        }
        s
    }

    /// Records that the host holds every chunk `0 .. chunk_count` of
    /// `file_id`, provided the host is among the endpoints.
    pub fn mark_host_owns_file(&mut self, file_id: &String, chunk_count: u32)
        ensures
            final(self)@.files == old(self)@.files,
            final(self)@.host == old(self)@.host,
            final(self)@.http == old(self)@.http,
            final(self)@.last_http == old(self)@.last_http,
            final(self)@.cursors == old(self)@.cursors,
            old(self)@.endpoints.contains_key(old(self)@.host) ==> final(self)@.endpoints
                == old(self)@.endpoints.insert(
                old(self)@.host,
                EndpointView {
                    owned: old(self)@.endpoints[old(self)@.host].owned.insert(file_id@, all_chunks(chunk_count)),
                    ..old(self)@.endpoints[old(self)@.host]
                },
            ),
            !old(self)@.endpoints.contains_key(old(self)@.host) ==> final(self)@.endpoints == old(self)@.endpoints,
    {
        if let Some(host) = self.endpoints.get_mut(&self.host_endpoint_id) {
            let all = full_chunk_set(chunk_count);
            host.owned_chunks.insert(file_id.clone(), all);
        }
    }
}

impl Default for P2PState {
    /// A coordinator with no host identifier, no file and no endpoint.
    fn default() -> (s: Self)
        ensures
            s@.files == Seq::<FileView>::empty(),
            s@.endpoints == Map::<Seq<char>, EndpointView>::empty(),
            s@.host == Seq::<char>::empty(),
            s@.http == Map::<Seq<char>, AssignmentView>::empty(),
            s@.last_http == Map::<Seq<char>, Seq<char>>::empty(),
            s@.cursors == Map::<Seq<char>, u32>::empty(),
    {
        let s = P2PState {
            shared_files: Vec::new(),
            endpoints: StrMap::new(),
            host_endpoint_id: String::new(),
            http_assignments: StrMap::new(),
            file_last_http_endpoint: StrMap::new(),
            file_chunk_cursors: StrMap::new(),
        };
        proof {
            assert(s@.files =~= Seq::<FileView>::empty());
        }
        s
    }
}

/// Some shared file has path `path`.
pub open spec fn path_is_shared(files: Seq<FileView>, path: Seq<char>) -> bool {
    exists|i: int| 0 <= i < files.len() && files[i].file_path == path
}

/// `i` is the first shared file with path `path`.
pub open spec fn first_with_path(files: Seq<FileView>, path: Seq<char>, i: int) -> bool {
    &&& 0 <= i < files.len()
    &&& files[i].file_path == path
    &&& forall|j: int| 0 <= j < i ==> files[j].file_path != path
}

/// `i` is the first shared file with identifier `id`.
pub open spec fn first_with_id(files: Seq<FileView>, id: Seq<char>, i: int) -> bool {
    &&& 0 <= i < files.len()
    &&& files[i].file_id == id
    &&& forall|j: int| 0 <= j < i ==> files[j].file_id != id
}

/// Some shared file has identifier `id`.
pub open spec fn id_is_shared(files: Seq<FileView>, id: Seq<char>) -> bool {
    exists|i: int| 0 <= i < files.len() && files[i].file_id == id
}

/// The endpoints, with every chunk record of file `file_id` forgotten.
pub open spec fn forget_file_chunks(eps: Map<Seq<char>, EndpointView>, file_id: Seq<char>) -> Map<Seq<char>, EndpointView> {
    Map::new(
        |k: Seq<char>| eps.contains_key(k),
        |k: Seq<char>| EndpointView { owned: eps[k].owned.remove(file_id), ..eps[k] },
    )
}

/// The host endpoint after taking every chunk `0 .. n` of `file_id`.
pub open spec fn host_with_file(s: P2PView, file_id: Seq<char>, n: u32) -> Map<Seq<char>, EndpointView> {
    if s.endpoints.contains_key(s.host) {
        s.endpoints.insert(
            s.host,
            EndpointView { owned: s.endpoints[s.host].owned.insert(file_id, all_chunks(n)), ..s.endpoints[s.host] },
        )
    } else {
        s.endpoints
    }
}

/// Where a chunk's bytes lie on the host.
pub struct ChunkLocation {
    /// Path of the file.
    pub file_path: String,
    /// Offset of the chunk in the file.
    pub offset: u64,
    /// Number of bytes of the chunk.
    pub size: u64,
}

/// Position of the first shared file whose path is `path`.
fn find_path(files: &Vec<SharedFileInfo>, path: &String) -> (r: Option<usize>)
    ensures
        match r {
            Some(i) => first_with_path(files@.map_values(|f: SharedFileInfo| f@), path@, i as int),
            None => !path_is_shared(files@.map_values(|f: SharedFileInfo| f@), path@),
        },
{
    let ghost fs = files@.map_values(|f: SharedFileInfo| f@);
    let mut i: usize = 0;
    while i < files.len()
        invariant
            0 <= i <= files@.len(),
            fs == files@.map_values(|f: SharedFileInfo| f@),
            forall|j: int| 0 <= j < i ==> fs[j].file_path != path@,
        decreases files@.len() - i,
    {
        proof {
            assert(fs[i as int] == files@[i as int]@);
        }
        if files[i].file_path == *path {
            return Some(i);
        }
        i = i + 1;
    }
    None
}

/// Position of the first shared file whose identifier is `id`.
pub fn find_file(files: &Vec<SharedFileInfo>, id: &String) -> (r: Option<usize>)
    ensures
        match r {
            Some(i) => first_with_id(files@.map_values(|f: SharedFileInfo| f@), id@, i as int),
            None => !id_is_shared(files@.map_values(|f: SharedFileInfo| f@), id@),
        },
{
    let ghost fs = files@.map_values(|f: SharedFileInfo| f@);
    let mut i: usize = 0;
    while i < files.len()
        invariant
            0 <= i <= files@.len(),
            fs == files@.map_values(|f: SharedFileInfo| f@),
            forall|j: int| 0 <= j < i ==> fs[j].file_id != id@,
        decreases files@.len() - i,
    {
        proof {
            assert(fs[i as int] == files@[i as int]@);
        }
        if files[i].file_id == *id {
            return Some(i);
        }
        i = i + 1;
    }
    None
}

/// Adds `info` to the shared files, unless a file with the same path is
/// already shared; the host then holds every chunk of it.
pub fn add_shared_file(state: &mut P2PState, info: SharedFileInfo) -> (r: Result<SharedFileInfo, String>)
    ensures
        path_is_shared(old(state)@.files, info@.file_path) ==> {
            &&& r matches Err(e) && e@ == "此檔案已在分享清單中"@
            &&& final(state)@ == old(state)@
        },
        !path_is_shared(old(state)@.files, info@.file_path) ==> {
            &&& r matches Ok(x) && x@ == info@
            &&& final(state)@.files == old(state)@.files.push(info@)
            &&& final(state)@.endpoints == host_with_file(old(state)@, info@.file_id, info@.chunk_count)
            &&& final(state)@.host == old(state)@.host
            &&& final(state)@.http == old(state)@.http
            &&& final(state)@.last_http == old(state)@.last_http
            &&& final(state)@.cursors == old(state)@.cursors
        },
{
    if find_path(&state.shared_files, &info.file_path).is_some() {
        return Err("此檔案已在分享清單中".to_string());
    }
    let file_id = info.file_id.clone();
    let chunk_count = info.chunk_count;
    let ghost before = state.shared_files@;
    state.shared_files.push(info.clone());
    proof {
        assert(state.shared_files@.map_values(|f: SharedFileInfo| f@) =~= before.map_values(
            |f: SharedFileInfo| f@,
        ).push(info@));
    }
    state.mark_host_owns_file(&file_id, chunk_count);
    Ok(info)
}

/// Stops sharing the first file whose path is `file_path`, and forgets
/// every endpoint's chunks of it. Nothing changes when no file has that path.
pub fn remove_shared_file(state: &mut P2PState, file_path: &String)
    ensures
        !path_is_shared(old(state)@.files, file_path@) ==> final(state)@ == old(state)@,
        forall|i: int| first_with_path(old(state)@.files, file_path@, i) ==> {
            &&& final(state)@.files == old(state)@.files.remove(i)
            &&& final(state)@.endpoints == forget_file_chunks(old(state)@.endpoints, old(state)@.files[i].file_id)
            &&& final(state)@.host == old(state)@.host
            &&& final(state)@.http == old(state)@.http
            &&& final(state)@.last_http == old(state)@.last_http
            &&& final(state)@.cursors == old(state)@.cursors
        },
{
    let pos = find_path(&state.shared_files, file_path);
    if let Some(pos) = pos {
        let ghost old_files = state@.files;
        let ghost eps0 = state@.endpoints;
        let file_id = state.shared_files[pos].file_id.clone();
        let ghost before = state.shared_files@;
        state.shared_files.remove(pos);
        proof {
            assert(state.shared_files@.map_values(|f: SharedFileInfo| f@) =~= before.map_values(
                |f: SharedFileInfo| f@,
            ).remove(pos as int));
            assert(file_id@ == old_files[pos as int].file_id);
        }
        let keys = state.endpoints.keys();
        let ghost kv = string_views(keys@);
        for n in 0..keys.len()
            invariant
                kv == string_views(keys@),
                kv.to_set() == eps0.dom(),
                kv.no_duplicates(),
                state@.files == old_files.remove(pos as int),
                state@.host == old(state)@.host,
                state@.http == old(state)@.http,
                state@.last_http == old(state)@.last_http,
                state@.cursors == old(state)@.cursors,
                state@.endpoints == Map::new(
                    |k: Seq<char>| eps0.contains_key(k),
                    |k: Seq<char>| if kv.take(n as int).contains(k) {
                        EndpointView { owned: eps0[k].owned.remove(file_id@), ..eps0[k] }
                    } else {
                        eps0[k]
                    },
                ),
        {
            let ghost before_eps = state@.endpoints;
            proof {
                assert(kv[n as int] == keys@[n as int]@);
                assert(kv.to_set().contains(kv[n as int]));
            }
            if let Some(ep) = state.endpoints.get_mut(&keys[n]) {
                ep.owned_chunks.remove(&file_id);
            }
            proof {
                let k = kv[n as int];
                assert(before_eps.contains_key(k));
                assert(state@.endpoints == before_eps.insert(
                    k,
                    EndpointView { owned: before_eps[k].owned.remove(file_id@), ..before_eps[k] },
                ));
                assert(kv.take(n + 1) =~= kv.take(n as int).push(kv[n as int]));
                assert(!kv.take(n as int).contains(kv[n as int]));
                let t1 = kv.take(n + 1);
                let t0 = kv.take(n as int);
                assert forall|x: Seq<char>| t1.contains(x) <==> (t0.contains(x) || x == k) by {
                    if t1.contains(x) {
                        let j = choose|j: int| 0 <= j < t1.len() && t1[j] == x;
                        if j < n {
                            assert(t0[j] == x);
                        }
                    }
                    if t0.contains(x) {
                        let j = choose|j: int| 0 <= j < t0.len() && t0[j] == x;
                        assert(t1[j] == x);
                    }
                    if x == k {
                        assert(t1[n as int] == x);
                    }
                }
                assert(state@.endpoints =~= Map::new(
                    |k: Seq<char>| eps0.contains_key(k),
                    |k: Seq<char>| if kv.take(n + 1).contains(k) {
                        EndpointView { owned: eps0[k].owned.remove(file_id@), ..eps0[k] }
                    } else {
                        eps0[k]
                    },
                ));
            }
        }
        proof {
            assert(kv.take(kv.len() as int) =~= kv);
            assert(state@.endpoints =~= forget_file_chunks(eps0, file_id@));
            assert forall|i: int| first_with_path(old(state)@.files, file_path@, i) implies i == pos as int by {
                if i < pos as int {
                } else if i > pos as int {
                }
            }
        }
    }
}

impl P2PState {
    /// Where the bytes of chunk `chunk_index` of the first shared file with
    /// identifier `file_id` lie.
    pub fn locate_chunk(&self, file_id: &String, chunk_index: u32) -> (r: Result<ChunkLocation, String>)
        ensures
            !id_is_shared(self@.files, file_id@) ==> (r matches Err(e) && e@ == "找不到該檔案"@),
            forall|i: int| #[trigger] first_with_id(self@.files, file_id@, i) ==> {
                let f = self@.files[i];
                if chunk_index < f.chunks.len() {
                    (r matches Ok(loc) && loc.file_path@ == f.file_path && loc.offset == chunk_index * CHUNK_SIZE
                        && loc.size == f.chunks[chunk_index as int].size)
                } else {
                    (r matches Err(e) && e@ == "無效的區塊索引"@)
                }
            },
    {
        match find_file(&self.shared_files, file_id) {
            None => Err("找不到該檔案".to_string()),
            Some(i) => {
                let f = &self.shared_files[i];
                proof {
                    assert(self@.files[i as int] == f@);
                    assert forall|j: int| #[trigger] first_with_id(self@.files, file_id@, j) implies j == i as int by {
                        if j < i as int {} else if j > i as int {}
                    }
                }
                if (chunk_index as usize) < f.chunks.len() {
                    assert(chunk_index as u64 * CHUNK_SIZE <= 4294967295 * CHUNK_SIZE) by (nonlinear_arith)
                        requires
                            chunk_index <= 4294967295,
                            CHUNK_SIZE == 52428800,
                    ;
                    Ok(ChunkLocation {
                        file_path: f.file_path.clone(),
                        offset: chunk_index as u64 * CHUNK_SIZE,
                        size: f.chunks[chunk_index as usize].size,
                    })
                } else {
                    Err("無效的區塊索引".to_string())
                }
            },
        }
    }
}

} // verus!
