use dns_codec::error::DecodeError;
use dns_codec::header::flags::message_kind::{self, MessageKind};
use dns_codec::header::flags::opcode::{self, Opcode};
use dns_codec::header::id::Id;
use dns_codec::header::Header;

#[test]
fn all_u16s_are_valid_ids() {
    for hi in 0..=255u8 {
        for lo in 0..=255u8 {
            let input = u16::from_be_bytes([hi, lo]);
            let slice = &input.to_be_bytes();
            assert!(Id::parse(slice).is_ok());
            let (rest, id) = Id::parse(slice).unwrap();
            assert!(rest.is_empty());
            assert_eq!(id, input);
        }
    }
}

#[test]
fn an_id_takes_two_octets_from_the_front() {
    let input = [0x12, 0x34, 0x56, 0x78];
    let (rest, id) = Id::parse(&input).unwrap();
    assert_eq!(id, 0x1234);
    assert_eq!(rest, &[0x56, 0x78][..]);
    assert_eq!(Id::parse(&[0x12]), Err(DecodeError::Truncated));
    assert_eq!(Id::parse(&[]), Err(DecodeError::Truncated));
    assert_eq!(Id(7), Id(7));
}

#[test]
fn all_u8s_are_valid_message_kinds() {
    for value in 0..=255u8 {
        let slice = &value.to_be_bytes();
        assert!(MessageKind::parse(slice).is_ok());
    }
}

#[test]
fn message_kind_moves_index_forward_by_one() {
    for value in 0..=255u8 {
        let slice = &value.to_be_bytes();
        let ((_, new_index), _) = MessageKind::nom_parse(slice).unwrap();
        assert_eq!(new_index, message_kind::INDEX + 1);
    }
}

#[test]
fn response_is_true_query_is_false() {
    for value in 0..=255u8 {
        let slice = &value.to_be_bytes();
        let (_, qr) = MessageKind::parse(slice).unwrap();
        if value & 0b1000_0000 != 0 {
            assert_eq!(qr, MessageKind::Response);
        } else {
            assert_eq!(qr, MessageKind::Query);
        }
        assert_eq!(qr, Header::qr(&value));
    }
    assert_eq!(MessageKind::from(true), MessageKind::Response);
    assert_eq!(MessageKind::from(false), MessageKind::Query);
    assert!(MessageKind::Response.bit());
    assert!(!MessageKind::Query.bit());
}

#[test]
fn message_kind_does_not_consume_input() {
    for value in 0..=255u8 {
        let input = [value, 0x01, 0x02];
        let (remaining, _) = MessageKind::parse(&input).unwrap();
        assert_eq!(remaining, &input[..]);
        let ((remaining, _), _) = MessageKind::nom_parse(&input).unwrap();
        assert_eq!(remaining, &input[..]);
    }
}

#[test]
fn no_message_kind_without_an_octet() {
    assert_eq!(MessageKind::parse(&[]), Err(DecodeError::Truncated));
    assert_eq!(MessageKind::nom_parse(&[]), Err(DecodeError::Truncated));
    assert_eq!(Opcode::nom_parse(&[]), Err(DecodeError::Truncated));
}

#[test]
fn all_u8s_are_valid_opcodes() {
    for value in 0..=255u8 {
        assert!(Opcode::nom_parse(&[value]).is_ok());
    }
}

#[test]
fn opcode_moves_index_forward_by_four() {
    for value in 0..=255u8 {
        let ((_, new_index), _) = Opcode::nom_parse(&[value]).unwrap();
        assert_eq!(new_index, opcode::INDEX + 4);
    }
}

#[test]
fn opcode_value_matches_input_value() {
    for value in 0..=255u8 {
        let (_, opcode) = Opcode::nom_parse(&[value]).unwrap();
        let expected = match (value & 0b0111_1000) >> 3 {
            0 => Opcode::Query,
            1 => Opcode::InverseQuery,
            2 => Opcode::ServerStatusRequest,
            x => Opcode::Reserved(x),
        };
        assert_eq!(opcode, expected);
        assert_eq!(opcode, Header::opcode(&value));
    }
}

#[test]
fn opcode_does_not_consume_input() {
    for value in 0..=255u8 {
        let input = [value, 0xaa];
        let ((remaining, _), _) = Opcode::nom_parse(&input).unwrap();
        assert_eq!(remaining, &input[..]);
    }
}
