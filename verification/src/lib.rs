//! A verified core for a small RESP-style key-value server, together with
//! verified building blocks for a Huffman coder (a binary min-heap, a
//! frequency table, a code tree and a code table with its bit-level
//! decoder) and a verified tokenizer for flat JSON objects.
//!
//! The protocol codec turns bytes of text into typed protocol values and
//! back; the command dispatcher interprets a decoded request against a
//! shared store; the store keeps one scalar map and one list map. Socket
//! handling lives outside the library and hands decoded text in and
//! serialized text out.

pub mod codebook;
pub mod command;
pub mod data_type;
pub mod deserializer;
pub mod freq;
pub mod heap;
pub mod laws;
pub mod lexer;
pub mod num;
pub mod server;
pub mod store;
pub mod text;
pub mod tree;

pub use codebook::decompress;
pub use codebook::CodeTable;
pub use command::Command;
pub use data_type::DataType;
pub use deserializer::DeSerializer;
pub use deserializer::FramingError;
pub use freq::create_frequency_table;
pub use freq::FrequencyTable;
pub use heap::Heap;
pub use lexer::LexError;
pub use lexer::Lexer;
pub use lexer::Token;
pub use num::i64_to_string;
pub use num::parse_i64;
pub use server::handle_request;
pub use store::Store;
pub use tree::BTree;
pub use tree::Node;
