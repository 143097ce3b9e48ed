//! DNS message codec.
//!
//! Turns an untrusted byte buffer into a validated message (header, questions,
//! resource records, compressed domain names) and a message back into bytes.
//! Every function states what it returns in its contract, and no function
//! panics or reads out of bounds, whatever the buffer holds.

pub use crate::compression::{encode_name, CompressionDictionary};
pub use crate::error::{DecodeError, EncodeError};
pub use crate::header::{Header, MessageKind, Opcode, ResponseCode};
pub use crate::message::{decode, encode, Message};
pub use crate::name::{decode_name, DomainName};
pub use crate::question::{
    decode_question, encode_question, Question, QuestionClass, QuestionType,
};
pub use crate::resource_record::{
    decode_record, encode_record, RecordClass, RecordType, ResourceRecord,
};

pub mod compression;
pub mod error;
pub mod header;
pub mod message;
pub mod message_proofs;
pub mod name;
pub mod name_proofs;
pub mod question;
pub mod resource_record;
pub mod shared;
pub mod trusted;
pub mod wire;
