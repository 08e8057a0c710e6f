# bittorrent

A BitTorrent client whose logic is verified with Verus.

- `src/` is the library. It holds the bencode decoder, metainfo files and magnet links,
  the tracker request and response, the handshake and the frames of the peer protocol,
  the metadata extension, and the state machines that download a piece or a whole file.
  Its functions do no input or output, and each states in its contract what it returns.
- `tests/` runs the library on concrete values, together with the crates it calls.
- `app/` is the command line client: it reads files, talks to trackers and peers, and
  asks the library what to do next.

Facts that hold of several functions at once stand in the library as proof functions
whose names begin with `law_`: that a framed message is read back as it was, that the
blocks of a piece may come in any order, that no piece of a file is lost.

What the library takes from other crates (`bytes`, `fastrand`, `hex`, `reqwest`,
`serde_bencode`, `serde_urlencoded`, `sha1`) it calls through small functions marked
`external_body`. Their contracts are not proved; each says in its comment what is claimed
of the function it calls.
