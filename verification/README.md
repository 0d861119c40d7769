# openmediatransport

Open Media Transport (OMT): video, audio and metadata over TCP, with DNS-SD
and discovery-server source discovery. The protocol logic is written in
Verus and proved against its contracts; sockets, threads, mDNS and the VMX
codec stay in a thin layer of ordinary Rust around it.

## Layout

- `src/` — the verified library:
  - `protocol/` — frame headers and frames (`le`, `frame`), metadata XML
    (`xml`, `metadata`): encoding, parsing and their round trips.
  - `transport/` — frame reassembly from a byte stream (`channel`) and
    buffer pools (`pool`).
  - `codec/fpa1` — the sparse planar float audio payload.
  - `discovery/` — source addresses and their text forms (`address`,
    `document`), DNS-SD names (`mdns`), source lists (`listing`), the
    discovery server's registry (`server`) and client URLs (`client`).
  - `send`, `send_video`, `receive`, `redirect` — the sender's control plane
    and frame assembly, encode planning, the receiver's reconnect and decode
    decisions.
  - `settings` — the `settings.xml` store; `clock` — presentation
    timestamps; `color`, `logging`, `types`, `text`, `error`.
- `tests/` — tests of the library on concrete values.
- `app/` — the I/O around the library: sockets, threads, mDNS, the VMX
  codec, files and environment.
