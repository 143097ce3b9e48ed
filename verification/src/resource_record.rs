//! Resource records: a name, what kind of data it has, and the data.
//!
//! ```text
//!   0  1  2  3  4  5  6  7  8  9  0  1  2  3  4  5
//! +--+--+--+--+--+--+--+--+--+--+--+--+--+--+--+--+
//! /                      NAME                     /
//! +--+--+--+--+--+--+--+--+--+--+--+--+--+--+--+--+
//! |                      TYPE                     |
//! +--+--+--+--+--+--+--+--+--+--+--+--+--+--+--+--+
//! |                     CLASS                     |
//! +--+--+--+--+--+--+--+--+--+--+--+--+--+--+--+--+
//! |                      TTL                      |
//! |                                               |
//! +--+--+--+--+--+--+--+--+--+--+--+--+--+--+--+--+
//! |                   RDLENGTH                    |
//! +--+--+--+--+--+--+--+--+--+--+--+--+--+--+--+--|
//! /                     RDATA                     /
//! +--+--+--+--+--+--+--+--+--+--+--+--+--+--+--+--+
//! ```

use crate::compression::{encode_name, spec_encode_name, CompressionDictionary};
use crate::error::{DecodeError, EncodeError};
use crate::name::{decode_name, spec_decode_name, valid_name, DomainName};
use crate::wire::{
    be16_at, be16_octets, be32_at, be32_octets, push_bytes, push_u16, push_u32, read_u16, read_u32,
};
use vstd::prelude::*;

verus! {

/// The kind of data a record holds.
#[derive(Clone, Copy, Debug, PartialEq, Eq, Structural)]
pub enum RecordType {
    /// `1`: a host address.
    A,
    /// `2`: an authoritative name server.
    NameServer,
    /// `3`: a mail destination.
    MailDestination,
    /// `4`: a mail forwarder.
    MailForwarder,
    /// `5`: the canonical name for an alias.
    CanonicalName,
    /// `6`: the start of a zone of authority.
    StartOfAuthority,
    /// `7`: a mailbox domain name.
    MailBox,
    /// `8`: a mail group member.
    MailGroup,
    /// `9`: a mail rename domain name.
    MailRename,
    /// `10`: a null record.
    Null,
    /// `11`: a well known service description.
    WellKnownService,
    /// `12`: a domain name pointer.
    Pointer,
    /// `13`: host information.
    HostInfo,
    /// `14`: mailbox or mail list information.
    MailInfo,
    /// `15`: a mail exchange.
    MailExchange,
    /// `16`: text strings.
    Text,
    /// Any other value, carried as found.
    Unknown(u16),
}

impl RecordType {
    /// An unknown type holds a value that has no variant of its own.
    pub open spec fn wf(self) -> bool {
        self matches RecordType::Unknown(value) ==> value < 1 || value > 16
    }

    /// The record type that a field value stands for.
    pub open spec fn of_value(value: u16) -> RecordType {
        if value == 1 {
            RecordType::A
        } else if value == 2 {
            RecordType::NameServer
        } else if value == 3 {
            RecordType::MailDestination
        } else if value == 4 {
            RecordType::MailForwarder
        } else if value == 5 {
            RecordType::CanonicalName
        } else if value == 6 {
            RecordType::StartOfAuthority
        } else if value == 7 {
            RecordType::MailBox
        } else if value == 8 {
            RecordType::MailGroup
        } else if value == 9 {
            RecordType::MailRename
        } else if value == 10 {
            RecordType::Null
        } else if value == 11 {
            RecordType::WellKnownService
        } else if value == 12 {
            RecordType::Pointer
        } else if value == 13 {
            RecordType::HostInfo
        } else if value == 14 {
            RecordType::MailInfo
        } else if value == 15 {
            RecordType::MailExchange
        } else if value == 16 {
            RecordType::Text
        } else {
            RecordType::Unknown(value)
        }
    }

    /// The field value that stands for this record type.
    pub open spec fn spec_value(self) -> u16 {
        match self {
            RecordType::A => 1,
            RecordType::NameServer => 2,
            RecordType::MailDestination => 3,
            RecordType::MailForwarder => 4,
            RecordType::CanonicalName => 5,
            RecordType::StartOfAuthority => 6,
            RecordType::MailBox => 7,
            RecordType::MailGroup => 8,
            RecordType::MailRename => 9,
            RecordType::Null => 10,
            RecordType::WellKnownService => 11,
            RecordType::Pointer => 12,
            RecordType::HostInfo => 13,
            RecordType::MailInfo => 14,
            RecordType::MailExchange => 15,
            RecordType::Text => 16,
            RecordType::Unknown(value) => value,
        }
    }

    /// The record type that a field value stands for.
    pub fn from(value: u16) -> (found: RecordType)
        ensures
            found == RecordType::of_value(value),
            found.wf(),
    {
        match value {
            1 => RecordType::A,
            2 => RecordType::NameServer,
            3 => RecordType::MailDestination,
            4 => RecordType::MailForwarder,
            5 => RecordType::CanonicalName,
            6 => RecordType::StartOfAuthority,
            7 => RecordType::MailBox,
            8 => RecordType::MailGroup,
            9 => RecordType::MailRename,
            10 => RecordType::Null,
            11 => RecordType::WellKnownService,
            12 => RecordType::Pointer,
            13 => RecordType::HostInfo,
            14 => RecordType::MailInfo,
            15 => RecordType::MailExchange,
            16 => RecordType::Text,
            other => RecordType::Unknown(other),
        }
    }

    /// The field value that stands for this record type.
    pub fn value(&self) -> (value: u16)
        ensures
            value == self.spec_value(),
    {
        match self {
            RecordType::A => 1,
            RecordType::NameServer => 2,
            RecordType::MailDestination => 3,
            RecordType::MailForwarder => 4,
            RecordType::CanonicalName => 5,
            RecordType::StartOfAuthority => 6,
            RecordType::MailBox => 7,
            RecordType::MailGroup => 8,
            RecordType::MailRename => 9,
            RecordType::Null => 10,
            RecordType::WellKnownService => 11,
            RecordType::Pointer => 12,
            RecordType::HostInfo => 13,
            RecordType::MailInfo => 14,
            RecordType::MailExchange => 15,
            RecordType::Text => 16,
            RecordType::Unknown(value) => *value,
        }
    }

    /// Every field value is the value of the record type it stands for.
    pub proof fn lemma_value_of_value(value: u16)
        ensures
            RecordType::of_value(value).wf(),
            RecordType::of_value(value).spec_value() == value,
    {
    }

    /// A well-formed record type is the one its own value stands for.
    pub proof fn lemma_of_value_value(found: RecordType)
        requires
            found.wf(),
        ensures
            RecordType::of_value(found.spec_value()) == found,
    {
    }
}

/// The protocol family a record belongs to.
#[derive(Clone, Copy, Debug, PartialEq, Eq, Structural)]
pub enum RecordClass {
    /// `1`: the Internet.
    Internet,
    /// `2`: the CSNET class.
    CSNet,
    /// `3`: the CHAOS class.
    Chaos,
    /// `4`: Hesiod.
    Hesiod,
    /// Any other value, carried as found.
    Unknown(u16),
}

impl RecordClass {
    /// An unknown class holds a value that has no variant of its own.
    pub open spec fn wf(self) -> bool {
        self matches RecordClass::Unknown(value) ==> value < 1 || value > 4
    }

    /// The record class that a field value stands for.
    pub open spec fn of_value(value: u16) -> RecordClass {
        if value == 1 {
            RecordClass::Internet
        } else if value == 2 {
            RecordClass::CSNet
        } else if value == 3 {
            RecordClass::Chaos
        } else if value == 4 {
            RecordClass::Hesiod
        } else {
            RecordClass::Unknown(value)
        }
    }

    /// The field value that stands for this record class.
    pub open spec fn spec_value(self) -> u16 {
        match self {
            RecordClass::Internet => 1,
            RecordClass::CSNet => 2,
            RecordClass::Chaos => 3,
            RecordClass::Hesiod => 4,
            RecordClass::Unknown(value) => value,
        }
    }

    /// The record class that a field value stands for.
    pub fn from(value: u16) -> (found: RecordClass)
        ensures
            found == RecordClass::of_value(value),
            found.wf(),
    {
        match value {
            1 => RecordClass::Internet,
            2 => RecordClass::CSNet,
            3 => RecordClass::Chaos,
            4 => RecordClass::Hesiod,
            other => RecordClass::Unknown(other),
        }
    }

    /// The field value that stands for this record class.
    pub fn value(&self) -> (value: u16)
        ensures
            value == self.spec_value(),
    {
        match self {
            RecordClass::Internet => 1,
            RecordClass::CSNet => 2,
            RecordClass::Chaos => 3,
            RecordClass::Hesiod => 4,
            RecordClass::Unknown(value) => *value,
        }
    }

    /// Every field value is the value of the record class it stands for.
    pub proof fn lemma_value_of_value(value: u16)
        ensures
            RecordClass::of_value(value).wf(),
            RecordClass::of_value(value).spec_value() == value,
    {
    }

    /// A well-formed record class is the one its own value stands for.
    pub proof fn lemma_of_value_value(found: RecordClass)
        requires
            found.wf(),
        ensures
            RecordClass::of_value(found.spec_value()) == found,
    {
    }
}


/// The octets of a record between its name and its data.
pub const RECORD_FIXED_LEN: usize = 10;

/// The most octets the data of a record can have.
pub const MAX_RECORD_DATA_LEN: usize = 65535;

/// One record of the answer, authority or additional section.
#[derive(Debug, PartialEq, Eq)]
pub struct ResourceRecord {
    /// The name the record is about.
    pub name: DomainName,
    /// The kind of data the record holds.
    pub record_type: RecordType,
    /// The protocol family the record belongs to.
    pub record_class: RecordClass,
    /// For how many seconds the record may be kept.
    pub time_to_live: u32,
    /// The data, which this codec does not look into.
    pub record_data: Vec<u8>,
}

/// What a record says.
pub struct RecordView {
    /// The labels of the name the record is about.
    pub name: Seq<Seq<u8>>,
    /// The kind of data the record holds.
    pub record_type: RecordType,
    /// The protocol family the record belongs to.
    pub record_class: RecordClass,
    /// For how many seconds the record may be kept.
    pub time_to_live: u32,
    /// The data.
    pub record_data: Seq<u8>,
}

impl View for ResourceRecord {
    type V = RecordView;

    open spec fn view(&self) -> RecordView {
        RecordView {
            name: self.name@,
            record_type: self.record_type,
            record_class: self.record_class,
            time_to_live: self.time_to_live,
            record_data: self.record_data@,
        }
    }
}

impl Clone for ResourceRecord {
    fn clone(&self) -> (copy: ResourceRecord)
        ensures
            copy@ == self@,
    {
        ResourceRecord {
            name: self.name.clone(),
            record_type: self.record_type,
            record_class: self.record_class,
            time_to_live: self.time_to_live,
            record_data: vstd::slice::slice_to_vec(self.record_data.as_slice()),
        }
    }
}

/// A record that can be written and that reading gives back as it is: its
/// name is a name, its type and class are the variants that their values
/// stand for, and its data fit their length field.
pub open spec fn record_canonical(record: RecordView) -> bool {
    valid_name(record.name) && record.record_type.wf() && record.record_class.wf()
        && record.record_data.len() <= 65535
}

/// The record whose first octet is at `offset`, and the offset after it.
pub open spec fn spec_decode_record(buffer: Seq<u8>, offset: int) -> Result<
    (RecordView, int),
    DecodeError,
> {
    match spec_decode_name(buffer, offset) {
        Err(e) => Err(e),
        Ok((name, next)) => {
            if next + 10 > buffer.len() {
                Err(DecodeError::Truncated)
            } else {
                let length = be16_at(buffer, next + 8);
                if next + 10 + length > buffer.len() {
                    Err(DecodeError::Truncated)
                } else {
                    Ok(
                        (
                            RecordView {
                                name,
                                record_type: RecordType::of_value(be16_at(buffer, next)),
                                record_class: RecordClass::of_value(be16_at(buffer, next + 2)),
                                time_to_live: be32_at(buffer, next + 4),
                                record_data: buffer.subrange(next + 10, next + 10 + length),
                            },
                            next + 10 + length,
                        ),
                    )
                }
            }
        },
    }
}

/// The octets of what follows the name of a record whose data fit their length
/// field.
pub open spec fn record_tail_octets(record: RecordView) -> Seq<u8> {
    be16_octets(record.record_type.spec_value()) + be16_octets(record.record_class.spec_value())
        + be32_octets(record.time_to_live) + be16_octets(record.record_data.len() as u16)
        + record.record_data
}

/// The octets that `record` is written as at `offset` of a message, and the
/// dictionary after that.
pub open spec fn spec_encode_record(
    record: RecordView,
    offset: int,
    dictionary: Map<Seq<Seq<u8>>, int>,
) -> Result<(Seq<u8>, Map<Seq<Seq<u8>>, int>), EncodeError> {
    if record.record_data.len() > 65535 {
        Err(EncodeError::PayloadTooLarge)
    } else {
        let (name, after) = spec_encode_name(record.name, offset, dictionary);
        Ok((name + record_tail_octets(record), after))
    }
}

/// Reads the record whose first octet is at `offset` of `full_buffer`, and
/// gives it with the offset after it.
pub fn decode_record(full_buffer: &[u8], offset: usize) -> (decoded: Result<
    (ResourceRecord, usize),
    DecodeError,
>)
    ensures
        match decoded {
            Ok((record, next)) => spec_decode_record(full_buffer@, offset as int) == Ok::<
                (RecordView, int),
                DecodeError,
            >((record@, next as int)),
            Err(e) => spec_decode_record(full_buffer@, offset as int) == Err::<
                (RecordView, int),
                DecodeError,
            >(e),
        },
        decoded matches Ok((record, next)) ==> record_canonical(record@) && offset < next
            <= full_buffer@.len(),
{
    let (name, next) = match decode_name(full_buffer, offset) {
        Ok(found) => found,
        Err(e) => {
            return Err(e);
        },
    };
    if full_buffer.len() - next < RECORD_FIXED_LEN {
        return Err(DecodeError::Truncated);
    }
    let record_type: RecordType = RecordType::from(read_u16(full_buffer, next));
    let record_class: RecordClass = RecordClass::from(read_u16(full_buffer, next + 2));
    let time_to_live: u32 = read_u32(full_buffer, next + 4);
    let length: usize = read_u16(full_buffer, next + 8) as usize;
    let start: usize = next + RECORD_FIXED_LEN;
    if full_buffer.len() - start < length {
        return Err(DecodeError::Truncated);
    }
    let record_data: Vec<u8> = vstd::slice::slice_to_vec(
        vstd::slice::slice_subrange(full_buffer, start, start + length),
    );
    Ok((ResourceRecord { name, record_type, record_class, time_to_live, record_data }, start + length))
}

/// Writes `record` as it stands at `offset` of a message, and enters the
/// endings of its name that were written out in the dictionary.
///
/// Data of more than 65535 octets are `PayloadTooLarge`, and leave the
/// dictionary as it was.
pub fn encode_record(
    record: &ResourceRecord,
    offset: usize,
    dictionary: &mut CompressionDictionary,
) -> (encoded: Result<Vec<u8>, EncodeError>)
    ensures
        match encoded {
            Ok(bytes) => spec_encode_record(record@, offset as int, old(dictionary)@) == Ok::<
                (Seq<u8>, Map<Seq<Seq<u8>>, int>),
                EncodeError,
            >((bytes@, final(dictionary)@)),
            Err(e) => spec_encode_record(record@, offset as int, old(dictionary)@) == Err::<
                (Seq<u8>, Map<Seq<Seq<u8>>, int>),
                EncodeError,
            >(e) && final(dictionary)@ == old(dictionary)@,
        },
        encoded is Err <==> record@.record_data.len() > 65535,
{
    if record.record_data.len() > MAX_RECORD_DATA_LEN {
        return Err(EncodeError::PayloadTooLarge);
    }
    let mut bytes: Vec<u8> = encode_name(&record.name, offset, dictionary);
    let ghost name = bytes@;
    push_u16(&mut bytes, record.record_type.value());
    push_u16(&mut bytes, record.record_class.value());
    push_u32(&mut bytes, record.time_to_live);
    push_u16(&mut bytes, record.record_data.len() as u16);
    push_bytes(&mut bytes, record.record_data.as_slice());
    assert(bytes@ =~= name + record_tail_octets(record@));
    Ok(bytes)
}

} // verus!
