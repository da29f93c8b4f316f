//! Messages exchanged with endpoints over the signaling channel, and the
//! file listings the host publishes.

use vstd::prelude::*;
use crate::p2p::{P2PState, SharedFileInfo, FileView, find_file, first_with_id, id_is_shared};

verus! {

/// One shared file, as listed to downloaders.
pub struct FileListEntry {
    pub file_id: String,
    pub file_name: String,
    pub total_size: u64,
    pub chunk_count: u32,
}

/// One chunk of a file, as described to a downloader.
#[derive(Clone, Copy, Debug, PartialEq, Eq, Structural)]
pub struct ChunkInfoEntry {
    pub index: u32,
    pub size: u64,
    pub crc32: u32,
}

/// What a listing entry says, as plain values.
pub struct FileEntryView {
    pub file_id: Seq<char>,
    pub file_name: Seq<char>,
    pub total_size: u64,
    pub chunk_count: u32,
}

impl View for FileListEntry {
    type V = FileEntryView;

    open spec fn view(&self) -> FileEntryView {
        FileEntryView {
            file_id: self.file_id@,
            file_name: self.file_name@,
            total_size: self.total_size,
            chunk_count: self.chunk_count,
        }
    }
}

/// The listing entry of a shared file.
pub open spec fn listing_of(f: FileView) -> FileEntryView {
    FileEntryView { file_id: f.file_id, file_name: f.file_name, total_size: f.total_size, chunk_count: f.chunk_count }
}

/// The chunk descriptions of a shared file.
pub open spec fn chunk_infos_of(f: FileView) -> Seq<ChunkInfoEntry> {
    f.chunks.map_values(|c: crate::chunking::ChunkMeta| ChunkInfoEntry { index: c.index, size: c.size, crc32: c.crc32 })
}

/// A message from an endpoint to the coordinator.
pub enum ClientMessage {
    /// The endpoint announces itself.
    Register { endpoint_id: String },
    /// The endpoint reports the file it works on, its chunks and its transfers.
    EndpointStatus {
        endpoint_id: String,
        file_id: String,
        owned_chunks: Vec<u32>,
        upload_count: u32,
        download_count: u32,
    },
    /// The endpoint asks where to fetch a chunk.
    RequestChunk { endpoint_id: String, file_id: String, chunk_index: u32 },
    /// The endpoint wants to download a file.
    StartDownload { endpoint_id: String, file_id: String },
    /// The endpoint holds a verified copy of a chunk.
    ChunkCompleted { endpoint_id: String, file_id: String, chunk_index: u32 },
    /// A WebRTC signaling payload (JSON text) for another endpoint.
    WebRtcSignal { from: String, to: String, signal: String },
    /// A chunk received from `source_peer` failed its CRC-32 check.
    ChunkVerifyFailed { endpoint_id: String, file_id: String, chunk_index: u32, source_peer: String },
    /// A transfer began at the endpoint.
    TransferStarted { endpoint_id: String, file_id: String, chunk_index: u32, is_upload: bool },
    /// A transfer ended at the endpoint.
    TransferFinished { endpoint_id: String, file_id: String, chunk_index: u32, is_upload: bool },
    /// A transfer from `source_peer` failed.
    TransferFailed { endpoint_id: String, file_id: String, chunk_index: u32, source_peer: String, reason: String },
}

/// A message from the coordinator to an endpoint.
pub enum ServerMessage {
    /// Registration accepted; names the host endpoint.
    Registered { endpoint_id: String, host_endpoint_id: String },
    /// The files the host shares.
    FileList { files: Vec<FileListEntry> },
    /// Fetch the chunk from that peer.
    SuggestPeer { file_id: String, chunk_index: u32, peer_id: String },
    /// Download the chunk from that source (the host over HTTP, or a peer).
    SuggestDownload { file_id: String, chunk_index: u32, source_peer: String },
    /// No source now; ask again after a while.
    WaitAndRetry { file_id: String, chunk_index: u32, wait_seconds: u32 },
    /// The layout of a file, with each chunk's CRC-32.
    FileChunksInfo { file_id: String, file_name: String, total_size: u64, chunk_count: u32, chunks: Vec<ChunkInfoEntry> },
    /// A WebRTC signaling payload (JSON text) from another endpoint.
    WebRtcSignal { from: String, signal: String },
    /// A chunk this endpoint sent failed its check at `reporter`.
    ChunkVerifyFailedNotify { file_id: String, chunk_index: u32, reporter: String },
    /// Endpoint `endpoint_id` has left; transfers with it are over.
    PeerDisconnected { endpoint_id: String },
}

impl P2PState {
    /// The listing of the shared files, in order.
    pub fn file_list(&self) -> (files: Vec<FileListEntry>)
        ensures
            files@.map_values(|e: FileListEntry| e@) == self@.files.map_values(|f: FileView| listing_of(f)),
    {
        let mut files: Vec<FileListEntry> = Vec::new();
        for i in 0..self.shared_files.len()
            invariant
                files@.map_values(|e: FileListEntry| e@) == self@.files.take(i as int).map_values(
                    |f: FileView| listing_of(f),
                ),
        {
            let f = &self.shared_files[i];
            let ghost before = files@;
            let e = FileListEntry {
                file_id: f.file_id.clone(),
                file_name: f.file_name.clone(),
                total_size: f.total_size,
                chunk_count: f.chunk_count,
            };
            files.push(e);
            proof {
                assert(self@.files[i as int] == f@);
                assert(files@.map_values(|e: FileListEntry| e@) =~= before.map_values(|e: FileListEntry| e@).push(e@));
                assert(self@.files.take(i + 1).map_values(|f: FileView| listing_of(f)) =~= self@.files.take(
                    i as int,
                ).map_values(|f: FileView| listing_of(f)).push(listing_of(f@)));
                assert(files@.map_values(|e: FileListEntry| e@) =~= self@.files.take(i + 1).map_values(
                    |f: FileView| listing_of(f),
                ));
            }
        }
        proof {
            assert(self@.files.take(self@.files.len() as int) =~= self@.files);
        }
        files
    }

    /// The layout message for the first shared file with identifier
    /// `file_id`; `None` when no shared file has it.
    pub fn file_chunks_info(&self, file_id: &String) -> (m: Option<ServerMessage>)
        ensures
            !id_is_shared(self@.files, file_id@) ==> m is None,
            forall|i: int| #[trigger] first_with_id(self@.files, file_id@, i) ==> {
                let f = self@.files[i];
                m matches Some(ServerMessage::FileChunksInfo { file_id: id, file_name, total_size, chunk_count, chunks })
                    && id@ == f.file_id && file_name@ == f.file_name && total_size == f.total_size
                    && chunk_count == f.chunk_count && chunks@ == chunk_infos_of(f)
            },
    {
        match find_file(&self.shared_files, file_id) {
            None => None,
            Some(i) => {
                let f = &self.shared_files[i];
                let mut chunks: Vec<ChunkInfoEntry> = Vec::new();
                for j in 0..f.chunks.len()
                    invariant
                        chunks@ == chunk_infos_of(f@).take(j as int),
                {
                    let c = f.chunks[j];
                    chunks.push(ChunkInfoEntry { index: c.index, size: c.size, crc32: c.crc32 });
                    proof {
                        assert(chunks@ =~= chunk_infos_of(f@).take(j + 1));
                    }
                }
                proof {
                    assert(chunk_infos_of(f@).take(f.chunks@.len() as int) =~= chunk_infos_of(f@));
                    assert(self@.files[i as int] == f@);
                    assert forall|j: int| #[trigger] first_with_id(self@.files, file_id@, j) implies j == i as int by {
                        if j < i as int {} else if j > i as int {}
                    }
                }
                Some(ServerMessage::FileChunksInfo {
                    file_id: f.file_id.clone(),
                    file_name: f.file_name.clone(),
                    total_size: f.total_size,
                    chunk_count: f.chunk_count,
                    chunks,
                })
            },
        }
    }
}

} // verus!
