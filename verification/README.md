# pang_formats

Five byte formats, each written down once as a grammar for the `pang`
grammar-based parser and once as a verified Verus library:

- PNG: signature and chunks, with the CRC/length rewrite that runs when a
  chunk is re-encoded (`src/png.rs`);
- Ethernet frames with optional 802.1Q tag (`src/ethernet_frame.rs`);
- HTTP/1.1 messages (`src/http.rs`);
- IPv4 packets, with and without their options parsed (`src/ipv4.rs`);
- pcap capture files (`src/pcap.rs`).

For each format `src/` holds a spec function that says what the bytes hold,
an executable parser proved to compute it, a serializer, and proofs that a
parsed value gives back exactly the bytes it came from and that a well-formed
value parses back to itself. The decode callbacks that the grammars run (cut
a field whose length another field gives) are verified functions there too;
`src/helper.rs` holds the symbol search that the HTTP callbacks use and
`src/fields.rs` the fixed-width field values.

`app/` builds the `pang` grammars and adapts `pang`'s callback signatures
(derivation-tree contexts, `pang::DecodeError`) to the library's functions.
`tests/` exercises the library on concrete inputs.
