use dns_codec::error::DecodeError;
use dns_codec::header::{Header, MessageKind, Opcode, QueryResponse, ResponseCode};

/// A small generator of octets, so that the sweeps below are the same on
/// every run.
struct Octets(u32);

impl Octets {
    fn next(&mut self) -> u8 {
        self.0 = self.0.wrapping_mul(1_664_525).wrapping_add(1_013_904_223);
        (self.0 >> 24) as u8
    }

    fn twelve(&mut self) -> [u8; 12] {
        let mut out = [0u8; 12];
        for slot in out.iter_mut() {
            *slot = self.next();
        }
        out
    }
}

#[test]
fn header_cannot_parse_slice_shorter_than_12() {
    for value in 0..=255u8 {
        let input = [value; 1];
        assert!(Header::parse(&input).is_err());
    }
}

#[test]
fn header_parses_correct_length_slices() {
    let mut octets = Octets(12);
    for second_flags in 0..=255u8 {
        for _ in 0..16 {
            let mut input = octets.twelve();
            input[3] = second_flags;
            if (input[3] & 0b0111_0000) == 0 {
                assert!(Header::parse(&input).is_ok());
            } else {
                assert!(Header::parse(&input).is_err());
            }
        }
    }
}

#[test]
fn id_is_valid_for_all_two_byte_values() {
    for hi in 0..=255u8 {
        for lo in 0..=255u8 {
            let input = [hi, lo];
            Header::id(&input);
        }
    }
}

#[test]
fn qr_value_correct_for_all_u8_values() {
    for input in 0..=255u8 {
        let qr = Header::qr(&input);
        if (input & 0b1000_0000) == 0 {
            assert!(qr == QueryResponse::Query);
        } else {
            assert!(qr == QueryResponse::Response);
        }
    }
}

#[test]
fn opcode_value_correct_for_all_u8_values() {
    for input in 0..=255u8 {
        let opcode = Header::opcode(&input);
        match (input & 0b0111_1000) >> 3 {
            0 => assert!(opcode == Opcode::Query),
            1 => assert!(opcode == Opcode::InverseQuery),
            2 => assert!(opcode == Opcode::ServerStatusRequest),
            x if (3..=15).contains(&x) => assert!(opcode == Opcode::Reserved(x)),
            _ => assert!(false),
        }
    }
}

#[test]
fn aa_value_correct_for_all_u8_values() {
    for input in 0..=255u8 {
        let aa = Header::aa(&input);
        if (input & 0b0000_0100) == 0 {
            assert!(!aa);
        } else {
            assert!(aa);
        }
    }
}

#[test]
fn tc_value_correct_for_all_u8_values() {
    for input in 0..=255u8 {
        let tc = Header::tc(&input);
        if (input & 0b0000_0010) == 0 {
            assert!(!tc);
        } else {
            assert!(tc);
        }
    }
}

#[test]
fn rd_value_correct_for_all_u8_values() {
    for input in 0..=255u8 {
        let rd = Header::rd(&input);
        if (input & 0b0000_0001) == 0 {
            assert!(!rd);
        } else {
            assert!(rd);
        }
    }
}

#[test]
fn ra_value_correct_for_all_u8_values() {
    for input in 0..=255u8 {
        let ra = Header::ra(&input);
        if (input & 0b1000_0000) == 0 {
            assert!(!ra);
        } else {
            assert!(ra);
        }
    }
}

#[test]
fn z_only_valid_when_zero() {
    for input in 0..=255u8 {
        let z = Header::z(&input);
        if (input & 0b0111_0000) == 0 {
            assert!(z.is_ok());
            assert!(z.unwrap() == 0);
        } else {
            assert!(z.is_err());
        }
    }
}

#[test]
fn rcode_value_correct_for_all_u8_values() {
    for input in 0..=255u8 {
        let rcode = Header::rcode(&input);
        match input & 0b0000_1111 {
            0 => assert!(rcode == ResponseCode::NoError),
            1 => assert!(rcode == ResponseCode::FormatError),
            2 => assert!(rcode == ResponseCode::ServerFailure),
            3 => assert!(rcode == ResponseCode::NameError),
            4 => assert!(rcode == ResponseCode::NotImplemented),
            5 => assert!(rcode == ResponseCode::Refused),
            x if (6..=15).contains(&x) => assert!(rcode == ResponseCode::Reserved(x)),
            _ => assert!(false),
        }
    }
}

#[test]
fn qdcount_is_valid_for_all_two_byte_values() {
    for hi in 0..=255u8 {
        for lo in 0..=255u8 {
            let input = [hi, lo];
            Header::qdcount(&input);
        }
    }
}

#[test]
fn ancount_is_valid_for_all_two_byte_values() {
    for hi in 0..=255u8 {
        for lo in 0..=255u8 {
            let input = [hi, lo];
            Header::ancount(&input);
        }
    }
}

#[test]
fn nscount_is_valid_for_all_two_byte_values() {
    for hi in 0..=255u8 {
        for lo in 0..=255u8 {
            let input = [hi, lo];
            Header::nscount(&input);
        }
    }
}

#[test]
fn arcount_is_valid_for_all_two_byte_values() {
    for hi in 0..=255u8 {
        for lo in 0..=255u8 {
            let input = [hi, lo];
            Header::arcount(&input);
        }
    }
}

#[test]
fn every_input_shorter_than_a_header_is_truncated() {
    let mut octets = Octets(7);
    for length in 0..12usize {
        for _ in 0..64 {
            let input: Vec<u8> = (0..length).map(|_| octets.next()).collect();
            assert_eq!(Header::parse(&input), Err(DecodeError::Truncated));
        }
    }
}

#[test]
fn a_set_reserved_bit_is_refused_by_name() {
    for z in 1..8u8 {
        let mut input = [0u8; 12];
        input[3] = z << 4;
        assert_eq!(Header::parse(&input), Err(DecodeError::ReservedFieldNonZero));
        assert_eq!(Header::z(&input[3]), Err(DecodeError::ReservedFieldNonZero));
    }
}

#[test]
fn two_byte_fields_are_big_endian() {
    assert_eq!(Header::parse_two_bytes(&[0x12, 0x34]), 0x1234);
    assert_eq!(Header::id(&[0x00, 0x01, 0xff]), 1);
    assert_eq!(Header::qdcount(&[0xff, 0xfe]), 0xfffe);
    assert_eq!(Header::ancount(&[0x01, 0x00]), 256);
    assert_eq!(Header::nscount(&[0x00, 0x00]), 0);
    assert_eq!(Header::arcount(&[0xff, 0xff]), 65535);
}

#[test]
fn header_fields_are_read_from_their_places() {
    let input = [
        0xab, 0xcd, 0b1110_1101, 0b1000_0011, 0x00, 0x01, 0x00, 0x02, 0x01, 0x00, 0xff, 0xff, 0x99,
    ];
    let header = Header::parse(&input).unwrap();
    assert_eq!(
        header,
        Header {
            id: 0xabcd,
            message_kind: MessageKind::Response,
            opcode: Opcode::Reserved(13),
            authoritative_answer: true,
            truncated: false,
            recursion_desired: true,
            recursion_available: true,
            response_code: ResponseCode::NameError,
            question_count: 1,
            answer_count: 2,
            authority_count: 256,
            additional_count: 65535,
        }
    );
    assert!(header.is_well_formed());
}

#[test]
fn header_is_written_to_its_places() {
    let header = Header {
        id: 0x0102,
        message_kind: MessageKind::Query,
        opcode: Opcode::InverseQuery,
        authoritative_answer: false,
        truncated: true,
        recursion_desired: false,
        recursion_available: false,
        response_code: ResponseCode::Reserved(9),
        question_count: 0x0304,
        answer_count: 0x0506,
        authority_count: 0x0708,
        additional_count: 0x090a,
    };
    assert!(header.is_well_formed());
    assert_eq!(
        header.encode(),
        [0x01, 0x02, 0b0000_1010, 0b0000_1001, 0x03, 0x04, 0x05, 0x06, 0x07, 0x08, 0x09, 0x0a]
    );
}

#[test]
fn opcode_thirteen_is_reserved_and_keeps_its_bits() {
    let flags: u8 = 13 << 3;
    assert_eq!(Header::opcode(&flags), Opcode::Reserved(13));
    let mut input = [0u8; 12];
    input[2] = flags;
    let header = Header::parse(&input).unwrap();
    assert_eq!(header.opcode, Opcode::Reserved(13));
    assert_eq!(header.opcode.value(), 13);
    assert_eq!(header.encode()[2], flags);
    assert_eq!(header.encode(), input);
}

#[test]
fn every_valid_header_is_written_back_as_it_was_read() {
    let mut octets = Octets(2024);
    for _ in 0..4096 {
        let mut input = octets.twelve();
        input[3] &= 0b1000_1111;
        let header = Header::parse(&input).unwrap();
        assert!(header.is_well_formed());
        assert_eq!(header.encode(), input);
    }
    for first in 0..=255u8 {
        for second in 0..=255u8 {
            if second & 0b0111_0000 != 0 {
                continue;
            }
            let input = [0, 0, first, second, 0, 0, 0, 0, 0, 0, 0, 0];
            assert_eq!(Header::parse(&input).unwrap().encode(), input);
        }
    }
}

#[test]
fn every_header_is_read_back_as_it_was_written() {
    for opcode in 0..=15u8 {
        for rcode in 0..=15u8 {
            for flags in 0..32u8 {
                let header = Header {
                    id: 0x8001,
                    message_kind: MessageKind::from(flags & 1 != 0),
                    opcode: Opcode::from(opcode),
                    authoritative_answer: flags & 2 != 0,
                    truncated: flags & 4 != 0,
                    recursion_desired: flags & 8 != 0,
                    recursion_available: flags & 16 != 0,
                    response_code: ResponseCode::from(rcode),
                    question_count: 65535,
                    answer_count: 0,
                    authority_count: 258,
                    additional_count: 7,
                };
                assert_eq!(Header::parse(&header.encode()), Ok(header));
            }
        }
    }
}

#[test]
fn reserved_values_outside_their_range_are_not_well_formed() {
    assert!(Opcode::Reserved(3).is_well_formed());
    assert!(Opcode::Reserved(15).is_well_formed());
    assert!(!Opcode::Reserved(2).is_well_formed());
    assert!(!Opcode::Reserved(16).is_well_formed());
    assert!(ResponseCode::Reserved(6).is_well_formed());
    assert!(!ResponseCode::Reserved(5).is_well_formed());
    assert!(!ResponseCode::Reserved(200).is_well_formed());
    for value in 0..=15u8 {
        assert_eq!(Opcode::from(value).value(), value);
        assert_eq!(ResponseCode::from(value).value(), value);
        assert!(Opcode::from(value).is_well_formed());
        assert!(ResponseCode::from(value).is_well_formed());
    }
}
