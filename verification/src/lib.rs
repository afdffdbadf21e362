//! A verified codec for a tagged external term format: a recursive,
//! tag-prefixed binary encoding of dynamically-typed values (integers, atoms,
//! tuples, maps, lists, binaries, big integers, identifiers and closures).

pub mod decoder;
pub mod encoder;
pub mod laws;
pub mod term;
pub mod text;
pub mod wire;

pub use decoder::Decoder;
pub use encoder::Encoder;
pub use term::BigNum;
pub use term::BitBinary;
pub use term::DecodeResult;
pub use term::EncodeResult;
pub use term::ErlTermTag;
pub use term::Error;
pub use term::Eterm;
pub use term::Export;
pub use term::Fun;
pub use term::NewFun;
pub use term::Pid;
pub use term::Port;
pub use term::Reference;
pub use wire::EncodeFlags;
