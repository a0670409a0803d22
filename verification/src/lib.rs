//! A small lending library (items, members, loans and late fees) and a
//! decoder for raw Bitcoin transactions.

pub mod catalogue;
pub mod decode;
pub mod decode_laws;
pub mod error;
pub mod hex_text;
pub mod library;
pub mod loan_laws;
pub mod member;
pub mod text;
pub mod transaction;
pub mod wire;

pub use catalogue::{Item, LoanStatus, LoanTerms, MediaKind};
pub use decode::{
    decode_transaction, hash_row_transaction, parse_transaction_body, push_compact_size,
    read_amount, read_compact_size, read_script_size, read_txid, read_u32, read_u64,
    read_version, read_version_byte, transaction_ends_in_amount, DecodeError,
};
pub use error::LibraryError;
pub use hex_text::{decode_hex, encode_hex, HexError};
pub use library::{Library, MAX_ITEMS_PER_MEMBER};
pub use member::Member;
pub use transaction::{Amount, Input, Output, Transaction, TransactionBody, Txid};
