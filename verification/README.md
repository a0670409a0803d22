# rfb_labs

Two small pieces of Rust, verified with Verus.

* A lending library: items (books, audiobooks, ebooks), members, loans
  with a borrow limit, and late fees. Every operation is specified over a
  mathematical model (`LibraryView`), and the laws in `src/loan_laws.rs`
  prove that each operation keeps an item's loan status and its holder's
  list of borrowed ids in agreement, that refused requests change nothing,
  and that taking an item back undoes lending it.
* A decoder for raw Bitcoin transactions given as hexadecimal text. The
  wire format is written down as a grammar over bytes (`src/decode.rs`),
  the decoder is proved to follow it, and `src/decode_laws.rs` proves that
  the grammar reads back the serialisation the transaction id is computed
  over, and that a SegWit transaction's marker, flag and witnesses change
  nothing of what is decoded.

Layout: `src/` is the verified library, `tests/` its tests, `app/` the
demo program and the JSON output of decoded transactions.
