# mesh_p2p_share

The coordinator of a LAN file-sharing host. The host cuts each shared file
into 50 MiB chunks with a CRC-32 each; browsers connect over WebSocket,
report which chunks they hold, and are told where to fetch the next one:
from the host over HTTPS (one downloader at a time, taking turns, handing
out each file's chunks in cursor order) or from another browser over WebRTC.

Layout:

- `src/` — the verified library (Verus).
  - `chunking` — chunk count, offsets and sizes; CRC-32; the chunk list
    of a file, assembled as its chunks are read.
  - `p2p` — the coordinator's state and its view; adding, removing and
    locating shared files.
  - `session` — the effect of each endpoint event on the state.
  - `dispatch` — host HTTP round-robin dispatch.
  - `matching` — peer-to-peer matching with source cooldowns.
  - `reactor` — one incoming message to state change plus messages to send.
  - `laws` — properties that span several operations.
  - `table`, `ids`, `text` — a string-keyed map, identifier order, trimming.
- `tests/` — tests of the library on concrete values.
- `app/` — the program: file reading, the HTTPS/WebSocket server, JSON.
