# qvod

A peer-to-peer video streaming client whose core is verified with Verus.

- `src/` is the verified library: the bencode, metadata-file, link and DHT
  message formats with their round-trip laws; the Kademlia routing table,
  tokens, request handling and searches; the download buffer and the cache
  bookkeeping; tracker requests and replies; the local server's request
  decisions and rate limiter; playback state, playlist and player controls;
  and the reading of `ffmpeg` reports. Calls into `sha1`, `rand`, `dirs` and a
  few `std` functions sit behind small trusted wrappers whose contracts are
  stated in their doc comments.
- `app/` is the command-line program and everything with I/O around the
  library: sockets, HTTP, files, subprocesses, timers, and the parts that work
  with floating-point figures (speeds, progress ratios, frame rates).
- `tests/` exercises the library from outside.
