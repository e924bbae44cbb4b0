# lan_mouse

Verified core of lan-mouse's batched input datagram format and of its
clipboard support, written in Verus.

- `src/` is the library; every function there is verified against its
  contract, except one trusted wrapper (`push_char`, around std's
  `String::push`, whose contract states what std documents), and the laws that span several functions (wire-format round
  trip, conservation of coalesced motion, sequence-number window, loop
  suppression of our own clipboard writes, size-limited reading) are proof
  functions in `batch_laws.rs` and `clipboard_laws.rs`.
- `app/` holds what the library cannot: the Wayland clipboard session, the
  sockets, threads and files of clipboard sync, `Display` impls, and the
  floating-point conversions of pointer events.
- `tests/` runs the library on concrete values.
