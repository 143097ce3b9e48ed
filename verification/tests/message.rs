use dns_codec::error::{DecodeError, EncodeError};
use dns_codec::header::{Header, MessageKind, Opcode, ResponseCode};
use dns_codec::message::{decode, encode, Message};
use dns_codec::name::DomainName;
use dns_codec::question::{Question, QuestionClass, QuestionType};
use dns_codec::resource_record::{RecordClass, RecordType, ResourceRecord};

fn domain(texts: &[&str]) -> DomainName {
    DomainName::new(texts.iter().map(|t| t.as_bytes().to_vec()).collect()).unwrap()
}

fn header(id: u16, kind: MessageKind, counts: [u16; 4]) -> Header {
    Header {
        id,
        message_kind: kind,
        opcode: Opcode::Query,
        authoritative_answer: false,
        truncated: false,
        recursion_desired: true,
        recursion_available: false,
        response_code: ResponseCode::NoError,
        question_count: counts[0],
        answer_count: counts[1],
        authority_count: counts[2],
        additional_count: counts[3],
    }
}

fn address(name: &[&str], octets: [u8; 4]) -> ResourceRecord {
    ResourceRecord {
        name: domain(name),
        record_type: RecordType::A,
        record_class: RecordClass::Internet,
        time_to_live: 3600,
        record_data: octets.to_vec(),
    }
}

fn asks(name: &[&str]) -> Question {
    Question {
        name: domain(name),
        qtype: QuestionType::Record(RecordType::A),
        qclass: QuestionClass::Record(RecordClass::Internet),
    }
}

const RESPONSE: [u8; 60] = [
    0x12, 0x34, 0x81, 0x00, 0x00, 0x01, 0x00, 0x01, 0x00, 0x01, 0x00, 0x01, // header
    0x01, b'F', 0x03, b'I', b'S', b'I', 0x04, b'A', b'R', b'P', b'A', 0x00, 0x00, 0x01, 0x00, 0x01,
    0xc0, 0x0c, 0x00, 0x01, 0x00, 0x01, 0x00, 0x00, 0x0e, 0x10, 0x00, 0x04, 10, 0, 0, 52, // answer
    0xc0, 0x12, 0x00, 0x02, 0x00, 0x01, 0x00, 0x00, 0x0e, 0x10, 0x00, 0x00, // authority
    0x00, 0x00, 0x10, 0x00, // start of the additional record, continued below
];

fn response_bytes() -> Vec<u8> {
    let mut bytes = RESPONSE.to_vec();
    bytes.extend_from_slice(&[0x03, 0x00, 0x00, 0x00, 0x00, 0x00, 0x02, b'h', b'i']);
    bytes
}

fn response() -> Message {
    let mut authority = address(&["ARPA"], [0; 4]);
    authority.record_type = RecordType::NameServer;
    authority.record_data = vec![];
    let additional = ResourceRecord {
        name: domain(&[]),
        record_type: RecordType::Text,
        record_class: RecordClass::Chaos,
        time_to_live: 0,
        record_data: b"hi".to_vec(),
    };
    let mut head = header(0x1234, MessageKind::Response, [1, 1, 1, 1]);
    head.recursion_desired = true;
    Message::new(
        head,
        vec![asks(&["F", "ISI", "ARPA"])],
        vec![address(&["F", "ISI", "ARPA"], [10, 0, 0, 52])],
        vec![authority],
        vec![additional],
    )
    .unwrap()
}

#[test]
fn a_message_is_written_section_by_section_with_pointers() {
    assert_eq!(encode(&response()), Ok(response_bytes()));
}

#[test]
fn a_message_is_read_section_by_section() {
    let message = decode(&response_bytes()).unwrap();
    assert_eq!(message, response());
    assert_eq!(message.header().id, 0x1234);
    assert_eq!(message.questions(), &vec![asks(&["F", "ISI", "ARPA"])]);
    assert_eq!(message.answers(), &vec![address(&["F", "ISI", "ARPA"], [10, 0, 0, 52])]);
    assert_eq!(message.authorities().len(), 1);
    assert_eq!(message.authorities()[0].name, domain(&["ARPA"]));
    assert_eq!(message.additionals()[0].record_data, b"hi".to_vec());
}

#[test]
fn octets_after_the_last_record_are_left_alone() {
    let mut bytes = response_bytes();
    bytes.extend_from_slice(&[0xff; 7]);
    assert_eq!(decode(&bytes).unwrap(), response());
}

#[test]
fn a_message_cut_anywhere_is_truncated() {
    let bytes = response_bytes();
    for length in 0..bytes.len() {
        assert_eq!(decode(&bytes[..length]), Err(DecodeError::Truncated));
    }
}

#[test]
fn a_count_beyond_the_entries_is_truncated() {
    for at in [5, 7, 9, 11] {
        let mut bytes = response_bytes();
        bytes[at] += 1;
        assert_eq!(decode(&bytes), Err(DecodeError::Truncated));
    }
    let mut bytes = response_bytes();
    bytes[4] = 0xff;
    bytes[5] = 0xff;
    assert!(decode(&bytes).is_err());
}

#[test]
fn the_failure_of_a_part_is_the_failure_of_the_message() {
    let mut bytes = response_bytes();
    bytes[3] = 0x10;
    assert_eq!(decode(&bytes), Err(DecodeError::ReservedFieldNonZero));
    let mut bytes = response_bytes();
    bytes[12] = 0x41;
    assert_eq!(decode(&bytes), Err(DecodeError::InvalidLabelLength));
    let mut bytes = response_bytes();
    bytes[29] = 28;
    assert_eq!(decode(&bytes), Err(DecodeError::InvalidPointer));
    let mut bytes = response_bytes();
    bytes[29] = 200;
    assert_eq!(decode(&bytes), Err(DecodeError::InvalidPointer));
}

#[test]
fn the_header_alone_is_a_message() {
    let bytes = [0x00, 0x07, 0x00, 0x00, 0, 0, 0, 0, 0, 0, 0, 0];
    let message = decode(&bytes).unwrap();
    assert_eq!(*message.header(), header(7, MessageKind::Query, [0; 4]).with_no_recursion());
    assert!(message.questions().is_empty());
    assert!(message.additionals().is_empty());
    assert_eq!(encode(&message), Ok(bytes.to_vec()));
}

trait NoRecursion {
    fn with_no_recursion(self) -> Self;
}

impl NoRecursion for Header {
    fn with_no_recursion(mut self) -> Self {
        self.recursion_desired = false;
        self
    }
}

#[test]
fn the_counts_written_are_those_of_the_sections() {
    let message = Message::new(
        header(1, MessageKind::Query, [9, 9, 9, 9]),
        vec![asks(&["a"]), asks(&["b", "a"])],
        vec![],
        vec![address(&["a"], [1, 2, 3, 4])],
        vec![],
    )
    .unwrap();
    assert_eq!(message.header().question_count, 9);
    let bytes = encode(&message).unwrap();
    assert_eq!(&bytes[4..12], &[0, 2, 0, 0, 0, 1, 0, 0]);
    let read = decode(&bytes).unwrap();
    assert_eq!(read.header().question_count, 2);
    assert_eq!(read.header().answer_count, 0);
    assert_eq!(read.header().authority_count, 1);
    assert_eq!(read.header().additional_count, 0);
    assert_eq!(read.questions(), message.questions());
    assert_eq!(read.authorities(), message.authorities());
    assert_eq!(
        &bytes[12..],
        &[
            0x01, b'a', 0x00, 0x00, 0x01, 0x00, 0x01, // a
            0x01, b'b', 0xc0, 0x0c, 0x00, 0x01, 0x00, 0x01, // b.a
            0xc0, 0x0c, 0x00, 0x01, 0x00, 0x01, 0x00, 0x00, 0x0e, 0x10, 0x00, 0x04, 1, 2, 3, 4,
        ][..]
    );
}

#[test]
fn a_message_needs_a_well_formed_header_and_countable_sections() {
    let mut bad = header(1, MessageKind::Query, [0; 4]);
    bad.opcode = Opcode::Reserved(16);
    assert!(Message::new(bad, vec![], vec![], vec![], vec![]).is_none());
    let mut bad = header(1, MessageKind::Query, [0; 4]);
    bad.response_code = ResponseCode::Reserved(0);
    assert!(Message::new(bad, vec![], vec![], vec![], vec![]).is_none());

    let good = header(1, MessageKind::Query, [0; 4]);
    let many: Vec<Question> = (0..65536).map(|_| asks(&[])).collect();
    assert!(Message::new(good, many, vec![], vec![], vec![]).is_none());
    let most: Vec<Question> = (0..65535).map(|_| asks(&[])).collect();
    let message = Message::new(good, most, vec![], vec![], vec![]).unwrap();
    let bytes = encode(&message).unwrap();
    assert_eq!(bytes.len(), 12 + 65535 * 5);
    assert_eq!(&bytes[4..6], &[0xff, 0xff]);
    assert_eq!(decode(&bytes).unwrap().questions().len(), 65535);
}

#[test]
fn a_record_too_large_fails_the_message() {
    let mut large = address(&["a"], [0; 4]);
    large.record_data = vec![0; 65536];
    for section in 0..3 {
        let mut sections = vec![vec![address(&["a"], [1; 4])], vec![], vec![]];
        sections[section].push(large.clone());
        let additionals = sections.pop().unwrap();
        let authorities = sections.pop().unwrap();
        let answers = sections.pop().unwrap();
        let message = Message::new(
            header(1, MessageKind::Response, [0; 4]),
            vec![asks(&["a"])],
            answers,
            authorities,
            additionals,
        )
        .unwrap();
        assert_eq!(encode(&message), Err(EncodeError::PayloadTooLarge));
    }
}

#[test]
fn every_message_written_is_read_back_with_its_counts() {
    let names: [&[&str]; 6] = [
        &["www", "example", "com"],
        &["example", "com"],
        &["mail", "example", "com"],
        &["com"],
        &[],
        &["www", "example", "org"],
    ];
    for questions in 0..3usize {
        for answers in 0..4usize {
            for additionals in 0..3usize {
                let message = Message::new(
                    header(
                        (questions * 100 + answers * 10 + additionals) as u16,
                        MessageKind::Response,
                        [questions as u16, answers as u16, 1, additionals as u16],
                    ),
                    (0..questions).map(|i| asks(names[i])).collect(),
                    (0..answers).map(|i| address(names[(i * 2) % 6], [i as u8; 4])).collect(),
                    vec![address(names[5], [9; 4])],
                    (0..additionals).map(|i| address(names[5 - i], [7; 4])).collect(),
                )
                .unwrap();
                let bytes = encode(&message).unwrap();
                assert_eq!(decode(&bytes), Ok(message));
            }
        }
    }
}

#[test]
fn the_codec_is_at_hand_from_the_root() {
    let bytes = response_bytes();
    let message = dns_codec::decode(&bytes).unwrap();
    assert_eq!(dns_codec::encode(&message), Ok(bytes));
    let name = dns_codec::DomainName::new(vec![b"a".to_vec()]).unwrap();
    let mut dictionary = dns_codec::CompressionDictionary::new();
    let written = dns_codec::encode_name(&name, 0, &mut dictionary);
    assert_eq!(dns_codec::decode_name(&written, 0), Ok((name, 3)));
}

#[test]
fn what_is_read_is_written_back_and_read_the_same() {
    let mut state: u32 = 99;
    let mut next = move || {
        state = state.wrapping_mul(1_664_525).wrapping_add(1_013_904_223);
        (state >> 24) as u8
    };
    let mut read = 0;
    for round in 0..20000 {
        let mut bytes = response_bytes();
        let changes = 1 + round % 3;
        for _ in 0..changes {
            let at = 2 + (next() as usize * 256 + next() as usize) % (bytes.len() - 2);
            bytes[at] = next();
        }
        if let Ok(message) = decode(&bytes) {
            read += 1;
            let written = encode(&message).unwrap();
            assert_eq!(decode(&written), Ok(message));
        }
    }
    assert!(read > 100);
}
