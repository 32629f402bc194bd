//! A verified codec for the bencode serialization format.
//!
//! Bencode is the byte-oriented format used by BitTorrent metainfo files.
//! It has four kinds of terms: integers (`i-42e`), length-prefixed byte
//! strings (`4:toto`), lists (`l...e`) and dictionaries (`d...e`).
//!
//! The crate offers [`BValue`], the tree of decoded terms, [`BDecoder`],
//! a one-pass recursive-descent parser from bytes to `BValue`, and
//! [`bencode`], the total serializer from `BValue` back to bytes.
//! `roundtrip` proves that decoding an encoded tree gives the tree back.

pub mod bdecoder;
pub mod bencoder;
pub mod bvalue;
pub mod decimal;
pub mod roundtrip;

pub use bdecoder::BDecoder;
pub use bdecoder::ParseErrorKind;
pub use bdecoder::ParseFault;
pub use bencoder::bencode;
pub use bvalue::BValue;
pub use bvalue::SpecValue;
