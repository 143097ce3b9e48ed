//! Questions: a name and what is asked about it.
//!
//! ```text
//!   0  1  2  3  4  5  6  7  8  9  0  1  2  3  4  5
//! +--+--+--+--+--+--+--+--+--+--+--+--+--+--+--+--+
//! /                     QNAME                     /
//! +--+--+--+--+--+--+--+--+--+--+--+--+--+--+--+--+
//! |                     QTYPE                     |
//! +--+--+--+--+--+--+--+--+--+--+--+--+--+--+--+--+
//! |                     QCLASS                    |
//! +--+--+--+--+--+--+--+--+--+--+--+--+--+--+--+--+
//! ```

use crate::compression::{encode_name, spec_encode_name, CompressionDictionary};
use crate::error::DecodeError;
use crate::name::{
    decode_name, name_field_end, skip_name, spec_decode_name, valid_name, DomainName,
};
use crate::resource_record::{RecordClass, RecordType};
use crate::wire::{be16_at, be16_octets, push_u16, read_u16};
use vstd::prelude::*;

verus! {

/// What kind of record a question asks for.
#[derive(Clone, Copy, Debug, PartialEq, Eq, Structural)]
pub enum QuestionType {
    /// `1` to `16`: records of one type.
    Record(RecordType),
    /// `252`: a transfer of the whole zone.
    ZoneTransferRequest,
    /// `253`: the records that have to do with mailboxes.
    MailBoxRecordRequest,
    /// `254`: the records of mail agents.
    MailAgentRecordRequest,
    /// `255`: all records.
    All,
    /// Any other value, carried as found.
    Unknown(u16),
}

impl QuestionType {
    /// A record type asked for is a known one, and an unknown value has no
    /// variant of its own.
    pub open spec fn wf(self) -> bool {
        match self {
            QuestionType::Record(record_type) => !(record_type is Unknown),
            QuestionType::Unknown(value) => value < 1 || 16 < value < 252 || value > 255,
            _ => true,
        }
    }

    /// The question type that a field value stands for.
    pub open spec fn of_value(value: u16) -> QuestionType {
        if 1 <= value <= 16 {
            QuestionType::Record(RecordType::of_value(value))
        } else if value == 252 {
            QuestionType::ZoneTransferRequest
        } else if value == 253 {
            QuestionType::MailBoxRecordRequest
        } else if value == 254 {
            QuestionType::MailAgentRecordRequest
        } else if value == 255 {
            QuestionType::All
        } else {
            QuestionType::Unknown(value)
        }
    }

    /// The field value that stands for this question type.
    pub open spec fn spec_value(self) -> u16 {
        match self {
            QuestionType::Record(record_type) => record_type.spec_value(),
            QuestionType::ZoneTransferRequest => 252,
            QuestionType::MailBoxRecordRequest => 253,
            QuestionType::MailAgentRecordRequest => 254,
            QuestionType::All => 255,
            QuestionType::Unknown(value) => value,
        }
    }

    /// The question type that a field value stands for.
    pub fn from(value: u16) -> (found: QuestionType)
        ensures
            found == QuestionType::of_value(value),
            found.wf(),
    {
        if 1 <= value && value <= 16 {
            QuestionType::Record(RecordType::from(value))
        } else if value == 252 {
            QuestionType::ZoneTransferRequest
        } else if value == 253 {
            QuestionType::MailBoxRecordRequest
        } else if value == 254 {
            QuestionType::MailAgentRecordRequest
        } else if value == 255 {
            QuestionType::All
        } else {
            QuestionType::Unknown(value)
        }
    }

    /// The field value that stands for this question type.
    pub fn value(&self) -> (value: u16)
        ensures
            value == self.spec_value(),
    {
        match self {
            QuestionType::Record(record_type) => record_type.value(),
            QuestionType::ZoneTransferRequest => 252,
            QuestionType::MailBoxRecordRequest => 253,
            QuestionType::MailAgentRecordRequest => 254,
            QuestionType::All => 255,
            QuestionType::Unknown(value) => *value,
        }
    }

    /// Every field value is the value of the question type it stands for.
    pub proof fn lemma_value_of_value(value: u16)
        ensures
            QuestionType::of_value(value).wf(),
            QuestionType::of_value(value).spec_value() == value,
    {
    }

    /// A well-formed question type is the one its own value stands for.
    pub proof fn lemma_of_value_value(found: QuestionType)
        requires
            found.wf(),
        ensures
            QuestionType::of_value(found.spec_value()) == found,
    {
    }
}

/// Which protocol family a question asks about.
#[derive(Clone, Copy, Debug, PartialEq, Eq, Structural)]
pub enum QuestionClass {
    /// `1` to `4`: records of one class.
    Record(RecordClass),
    /// `255`: any class.
    Any,
    /// Any other value, carried as found.
    Unknown(u16),
}

impl QuestionClass {
    /// A record class asked for is a known one, and an unknown value has no
    /// variant of its own.
    pub open spec fn wf(self) -> bool {
        match self {
            QuestionClass::Record(record_class) => !(record_class is Unknown),
            QuestionClass::Unknown(value) => value < 1 || 4 < value < 255 || value > 255,
            _ => true,
        }
    }

    /// The question class that a field value stands for.
    pub open spec fn of_value(value: u16) -> QuestionClass {
        if 1 <= value <= 4 {
            QuestionClass::Record(RecordClass::of_value(value))
        } else if value == 255 {
            QuestionClass::Any
        } else {
            QuestionClass::Unknown(value)
        }
    }

    /// The field value that stands for this question class.
    pub open spec fn spec_value(self) -> u16 {
        match self {
            QuestionClass::Record(record_class) => record_class.spec_value(),
            QuestionClass::Any => 255,
            QuestionClass::Unknown(value) => value,
        }
    }

    /// The question class that a field value stands for.
    pub fn from(value: u16) -> (found: QuestionClass)
        ensures
            found == QuestionClass::of_value(value),
            found.wf(),
    {
        if 1 <= value && value <= 4 {
            QuestionClass::Record(RecordClass::from(value))
        } else if value == 255 {
            QuestionClass::Any
        } else {
            QuestionClass::Unknown(value)
        }
    }

    /// The field value that stands for this question class.
    pub fn value(&self) -> (value: u16)
        ensures
            value == self.spec_value(),
    {
        match self {
            QuestionClass::Record(record_class) => record_class.value(),
            QuestionClass::Any => 255,
            QuestionClass::Unknown(value) => *value,
        }
    }

    /// Every field value is the value of the question class it stands for.
    pub proof fn lemma_value_of_value(value: u16)
        ensures
            QuestionClass::of_value(value).wf(),
            QuestionClass::of_value(value).spec_value() == value,
    {
    }

    /// A well-formed question class is the one its own value stands for.
    pub proof fn lemma_of_value_value(found: QuestionClass)
        requires
            found.wf(),
        ensures
            QuestionClass::of_value(found.spec_value()) == found,
    {
    }
}

/// The octets of a question after its name.
pub const QUESTION_FIXED_LEN: usize = 4;

/// One entry of the question section.
#[derive(Debug, PartialEq, Eq)]
pub struct Question {
    /// The name asked about.
    pub name: DomainName,
    /// The kind of record asked for.
    pub qtype: QuestionType,
    /// The protocol family asked about.
    pub qclass: QuestionClass,
}

/// What a question says.
pub struct QuestionView {
    /// The labels of the name asked about.
    pub name: Seq<Seq<u8>>,
    /// The kind of record asked for.
    pub qtype: QuestionType,
    /// The protocol family asked about.
    pub qclass: QuestionClass,
}

impl View for Question {
    type V = QuestionView;

    open spec fn view(&self) -> QuestionView {
        QuestionView { name: self.name@, qtype: self.qtype, qclass: self.qclass }
    }
}

impl Clone for Question {
    fn clone(&self) -> (copy: Question)
        ensures
            copy@ == self@,
    {
        Question { name: self.name.clone(), qtype: self.qtype, qclass: self.qclass }
    }
}

/// A question that reading gives back as it is: its name is a name, and its
/// type and class are the variants that their values stand for.
pub open spec fn question_canonical(question: QuestionView) -> bool {
    valid_name(question.name) && question.qtype.wf() && question.qclass.wf()
}

/// The question whose first octet is at `offset`, and the offset after it.
pub open spec fn spec_decode_question(buffer: Seq<u8>, offset: int) -> Result<
    (QuestionView, int),
    DecodeError,
> {
    match spec_decode_name(buffer, offset) {
        Err(e) => Err(e),
        Ok((name, next)) => {
            if next + 4 > buffer.len() {
                Err(DecodeError::Truncated)
            } else {
                Ok(
                    (
                        QuestionView {
                            name,
                            qtype: QuestionType::of_value(be16_at(buffer, next)),
                            qclass: QuestionClass::of_value(be16_at(buffer, next + 2)),
                        },
                        next + 4,
                    ),
                )
            }
        },
    }
}

/// The octets that `question` is written as at `offset` of a message, and the
/// dictionary after that.
pub open spec fn spec_encode_question(
    question: QuestionView,
    offset: int,
    dictionary: Map<Seq<Seq<u8>>, int>,
) -> (Seq<u8>, Map<Seq<Seq<u8>>, int>) {
    let (name, after) = spec_encode_name(question.name, offset, dictionary);
    (
        name + be16_octets(question.qtype.spec_value()) + be16_octets(
            question.qclass.spec_value(),
        ),
        after,
    )
}

/// Splits `input` after the name field at its head: gives what follows the
/// field, and the field.
///
/// The field is the labels, each of 1 to 63 octets after its length octet, up
/// to and with the zero octet or the two octets of a pointer. The pointer is
/// not followed.
pub fn question_name<'a>(input: &'a [u8]) -> (split: Result<(&'a [u8], &'a [u8]), DecodeError>)
    ensures
        match split {
            Ok((rest, field)) => name_field_end(input@, 0, 0) == Ok::<int, DecodeError>(
                field@.len() as int,
            ) && field@ == input@.subrange(0, field@.len() as int) && rest@ == input@.subrange(
                field@.len() as int,
                input@.len() as int,
            ),
            Err(e) => name_field_end(input@, 0, 0) == Err::<int, DecodeError>(e),
        },
{
    match skip_name(input, 0) {
        Ok(end) => Ok(
            (
                vstd::slice::slice_subrange(input, end, input.len()),
                vstd::slice::slice_subrange(input, 0, end),
            ),
        ),
        Err(e) => Err(e),
    }
}

/// Reads the question whose first octet is at `offset` of `full_buffer`, and
/// gives it with the offset after it.
pub fn decode_question(full_buffer: &[u8], offset: usize) -> (decoded: Result<
    (Question, usize),
    DecodeError,
>)
    ensures
        match decoded {
            Ok((question, next)) => spec_decode_question(full_buffer@, offset as int) == Ok::<
                (QuestionView, int),
                DecodeError,
            >((question@, next as int)),
            Err(e) => spec_decode_question(full_buffer@, offset as int) == Err::<
                (QuestionView, int),
                DecodeError,
            >(e),
        },
        decoded matches Ok((question, next)) ==> question_canonical(question@) && offset < next
            <= full_buffer@.len(),
{
    let (name, next) = match decode_name(full_buffer, offset) {
        Ok(found) => found,
        Err(e) => {
            return Err(e);
        },
    };
    if full_buffer.len() - next < QUESTION_FIXED_LEN {
        return Err(DecodeError::Truncated);
    }
    let qtype: QuestionType = QuestionType::from(read_u16(full_buffer, next));
    let qclass: QuestionClass = QuestionClass::from(read_u16(full_buffer, next + 2));
    Ok((Question { name, qtype, qclass }, next + QUESTION_FIXED_LEN))
}

/// Writes `question` as it stands at `offset` of a message, and enters the
/// endings of its name that were written out in the dictionary.
pub fn encode_question(
    question: &Question,
    offset: usize,
    dictionary: &mut CompressionDictionary,
) -> (bytes: Vec<u8>)
    ensures
        (bytes@, final(dictionary)@) == spec_encode_question(
            question@,
            offset as int,
            old(dictionary)@,
        ),
{
    let mut bytes: Vec<u8> = encode_name(&question.name, offset, dictionary);
    push_u16(&mut bytes, question.qtype.value());
    push_u16(&mut bytes, question.qclass.value());
    bytes
}

} // verus!
