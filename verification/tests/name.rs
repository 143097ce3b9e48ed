use dns_codec::compression::{encode_name, CompressionDictionary};
use dns_codec::error::DecodeError;
use dns_codec::name::{decode_name, skip_name, DomainName};
use dns_codec::question::question_name;

fn labels(texts: &[&str]) -> Vec<Vec<u8>> {
    texts.iter().map(|t| t.as_bytes().to_vec()).collect()
}

fn domain(texts: &[&str]) -> DomainName {
    DomainName::new(labels(texts)).unwrap()
}

const F_ISI_ARPA: [u8; 12] = [0x01, b'F', 0x03, b'I', b'S', b'I', 0x04, b'A', b'R', b'P', b'A', 0x00];

#[test]
fn labels_written_out_are_read_in_order() {
    let (name, next) = decode_name(&F_ISI_ARPA, 0).unwrap();
    assert_eq!(name.labels(), &labels(&["F", "ISI", "ARPA"]));
    assert_eq!(next, 12);
}

#[test]
fn a_pointer_gives_the_labels_it_points_to_and_takes_two_octets() {
    let mut buffer = F_ISI_ARPA.to_vec();
    buffer.extend_from_slice(&[0xaa; 8]);
    buffer.extend_from_slice(&[0xc0, 0x00]);
    buffer.extend_from_slice(&[0x55; 3]);
    assert_eq!(buffer[20], 0xc0);
    let (name, next) = decode_name(&buffer, 20).unwrap();
    assert_eq!(name.labels(), &labels(&["F", "ISI", "ARPA"]));
    assert_eq!(next, 22);
    assert_eq!(name, decode_name(&buffer, 0).unwrap().0);
}

#[test]
fn labels_before_a_pointer_come_first() {
    let mut buffer = vec![0u8; 20];
    buffer.extend_from_slice(&F_ISI_ARPA);
    buffer.extend_from_slice(&[0u8; 8]);
    buffer.extend_from_slice(&[0x03, b'F', b'O', b'O', 0xc0, 20]);
    buffer.extend_from_slice(&[0xc0, 26]);
    buffer.push(0);
    let (foo, next) = decode_name(&buffer, 40).unwrap();
    assert_eq!(foo.labels(), &labels(&["FOO", "F", "ISI", "ARPA"]));
    assert_eq!(next, 46);
    let (arpa, next) = decode_name(&buffer, 46).unwrap();
    assert_eq!(arpa.labels(), &labels(&["ARPA"]));
    assert_eq!(next, 48);
    let (root, next) = decode_name(&buffer, 48).unwrap();
    assert!(root.labels().is_empty());
    assert_eq!(next, 49);
}

#[test]
fn a_pointer_to_itself_or_forward_is_invalid() {
    let mut buffer = vec![0u8; 8];
    buffer.extend_from_slice(&[0xc0, 8]);
    buffer.extend_from_slice(&[0xc0, 12]);
    buffer.extend_from_slice(&[0x00, 0x00]);
    assert_eq!(decode_name(&buffer, 8), Err(DecodeError::InvalidPointer));
    assert_eq!(decode_name(&buffer, 10), Err(DecodeError::InvalidPointer));
    assert_eq!(decode_name(&[0xc0, 0x00], 0), Err(DecodeError::InvalidPointer));
    assert_eq!(decode_name(&[0xff, 0xff, 0x00], 0), Err(DecodeError::InvalidPointer));
}

#[test]
fn a_forward_pointer_after_labels_is_invalid() {
    let buffer = [0x01, b'a', 0xc0, 0x04, 0x00];
    assert_eq!(decode_name(&buffer, 0), Err(DecodeError::InvalidPointer));
    let buffer = [0x00, 0x01, b'a', 0xc0, 0x03];
    assert_eq!(decode_name(&buffer, 1), Err(DecodeError::InvalidPointer));
}

#[test]
fn a_pointer_back_to_where_a_pointer_was_followed_is_invalid() {
    let buffer = [0x03, 0xc0, 0x00, b'a', 0xc0, 0x01];
    assert_eq!(decode_name(&buffer, 1), Err(DecodeError::InvalidPointer));
}

#[test]
fn a_loop_through_labels_ends_as_too_long() {
    let buffer = [0x01, b'a', 0xc0, 0x00];
    assert_eq!(decode_name(&buffer, 2), Err(DecodeError::NameTooLong));
    assert_eq!(decode_name(&buffer, 0), Err(DecodeError::NameTooLong));
}

#[test]
fn reserved_length_bits_are_invalid() {
    assert_eq!(decode_name(&[0x40, 0x00], 0), Err(DecodeError::InvalidLabelLength));
    assert_eq!(decode_name(&[0x7f, 0x00], 0), Err(DecodeError::InvalidLabelLength));
    assert_eq!(decode_name(&[0x80, 0x00], 0), Err(DecodeError::InvalidLabelLength));
    assert_eq!(decode_name(&[0xbf, 0x00], 0), Err(DecodeError::InvalidLabelLength));
    assert_eq!(decode_name(&[0x01, b'a', 0x41], 0), Err(DecodeError::InvalidLabelLength));
}

#[test]
fn a_name_cut_short_is_truncated() {
    assert_eq!(decode_name(&[], 0), Err(DecodeError::Truncated));
    assert_eq!(decode_name(&F_ISI_ARPA, 12), Err(DecodeError::Truncated));
    assert_eq!(decode_name(&F_ISI_ARPA, 1000), Err(DecodeError::Truncated));
    assert_eq!(decode_name(&F_ISI_ARPA[..11], 0), Err(DecodeError::Truncated));
    assert_eq!(decode_name(&F_ISI_ARPA[..9], 0), Err(DecodeError::Truncated));
    assert_eq!(decode_name(&[0x00, 0xc0], 1), Err(DecodeError::Truncated));
    assert_eq!(decode_name(&[0x3f], 0), Err(DecodeError::Truncated));
}

fn long_name(label_lengths: &[usize]) -> Vec<u8> {
    let mut out = Vec::new();
    for (i, len) in label_lengths.iter().enumerate() {
        out.push(*len as u8);
        out.extend(std::iter::repeat(b'a' + (i % 26) as u8).take(*len));
    }
    out.push(0);
    out
}

#[test]
fn the_longest_name_is_read_and_one_octet_more_is_too_long() {
    let fits = long_name(&[63, 63, 63, 62]);
    assert_eq!(fits.len(), 256);
    let (name, next) = decode_name(&fits, 0).unwrap();
    assert_eq!(name.labels().len(), 4);
    assert_eq!(name.labels()[3].len(), 62);
    assert_eq!(next, 256);

    let too_long = long_name(&[63, 63, 63, 63]);
    assert_eq!(decode_name(&too_long, 0), Err(DecodeError::NameTooLong));
    assert_eq!(skip_name(&too_long, 0), Err(DecodeError::NameTooLong));

    let many = long_name(&[1; 128]);
    assert_eq!(decode_name(&many, 0), Err(DecodeError::NameTooLong));
    let most = long_name(&[1; 127]);
    assert_eq!(decode_name(&most, 0).unwrap().1, 255);
}

#[test]
fn a_pointer_chain_counts_toward_the_length() {
    let mut buffer = long_name(&[63, 63, 63]);
    assert_eq!(buffer.len(), 193);
    buffer.extend_from_slice(&[62]);
    buffer.extend(std::iter::repeat(b'z').take(62));
    buffer.extend_from_slice(&[0xc0, 0x00]);
    let (name, next) = decode_name(&buffer, 193).unwrap();
    assert_eq!(name.labels().len(), 4);
    assert_eq!(next, 193 + 63 + 2);

    let mut buffer = long_name(&[63, 63, 63]);
    buffer.extend_from_slice(&[63]);
    buffer.extend(std::iter::repeat(b'z').take(63));
    buffer.extend_from_slice(&[0xc0, 0x00]);
    assert_eq!(decode_name(&buffer, 193), Err(DecodeError::NameTooLong));
}

#[test]
fn labels_are_octets_and_need_not_be_text() {
    let buffer = [0x03, 0x00, 0xff, 0xc0, 0x01, 0x80, 0x00];
    let (name, next) = decode_name(&buffer, 0).unwrap();
    assert_eq!(name.labels(), &vec![vec![0x00, 0xff, 0xc0], vec![0x80]]);
    assert_eq!(next, 7);
}

#[test]
fn a_name_is_made_only_of_valid_labels() {
    assert!(DomainName::new(vec![]).is_some());
    assert!(DomainName::new(labels(&["a"])).is_some());
    assert!(DomainName::new(vec![vec![]]).is_none());
    assert!(DomainName::new(vec![b"a".to_vec(), vec![]]).is_none());
    assert!(DomainName::new(vec![vec![b'x'; 63]]).is_some());
    assert!(DomainName::new(vec![vec![b'x'; 64]]).is_none());
    assert!(DomainName::new(vec![vec![b'x'; 63], vec![b'y'; 63], vec![b'z'; 63], vec![b'w'; 62]])
        .is_some());
    assert!(DomainName::new(vec![vec![b'x'; 63], vec![b'y'; 63], vec![b'z'; 63], vec![b'w'; 63]])
        .is_none());
    let made = DomainName::new(labels(&["www", "example"])).unwrap();
    assert_eq!(made.labels(), &labels(&["www", "example"]));
    assert_eq!(made.clone(), made);
}

#[test]
fn the_name_field_is_split_from_what_follows() {
    let mut input = F_ISI_ARPA.to_vec();
    input.extend_from_slice(&[0x00, 0x01, 0x00, 0x01]);
    let (rest, field) = question_name(&input).unwrap();
    assert_eq!(field, &F_ISI_ARPA[..]);
    assert_eq!(rest, &[0x00, 0x01, 0x00, 0x01][..]);

    let input = [0x03, b'F', b'O', b'O', 0xc0, 0x14, 0x00, 0x01];
    let (rest, field) = question_name(&input).unwrap();
    assert_eq!(field, &[0x03, b'F', b'O', b'O', 0xc0, 0x14][..]);
    assert_eq!(rest, &[0x00, 0x01][..]);

    let (rest, field) = question_name(&[0x00]).unwrap();
    assert_eq!(field, &[0x00][..]);
    assert!(rest.is_empty());
}

#[test]
fn a_name_field_that_is_no_name_is_refused() {
    assert_eq!(question_name(&[]), Err(DecodeError::Truncated));
    assert_eq!(question_name(&[0x02, b'a']), Err(DecodeError::Truncated));
    assert_eq!(question_name(&[0x01, b'a']), Err(DecodeError::Truncated));
    assert_eq!(question_name(&[0xc0]), Err(DecodeError::Truncated));
    assert_eq!(question_name(&[0x01, b'a', 0x40]), Err(DecodeError::InvalidLabelLength));
    assert_eq!(question_name(&[0x80, 0x00]), Err(DecodeError::InvalidLabelLength));
    assert_eq!(question_name(&long_name(&[63, 63, 63, 63])), Err(DecodeError::NameTooLong));
    assert_eq!(skip_name(&F_ISI_ARPA, 2), Ok(12));
    assert_eq!(skip_name(&F_ISI_ARPA, 11), Ok(12));
    assert_eq!(skip_name(&F_ISI_ARPA, 12), Err(DecodeError::Truncated));
}

#[test]
fn a_name_is_written_out_when_nothing_is_known() {
    let mut dictionary = CompressionDictionary::new();
    let bytes = encode_name(&domain(&["F", "ISI", "ARPA"]), 0, &mut dictionary);
    assert_eq!(bytes, F_ISI_ARPA.to_vec());
    assert_eq!(dictionary.lookup(&labels(&["F", "ISI", "ARPA"]), 0), Some(0));
    assert_eq!(dictionary.lookup(&labels(&["F", "ISI", "ARPA"]), 1), Some(2));
    assert_eq!(dictionary.lookup(&labels(&["F", "ISI", "ARPA"]), 2), Some(6));
    assert_eq!(dictionary.lookup(&labels(&["F", "ISI", "ARPA"]), 3), None);
    assert_eq!(dictionary.lookup(&labels(&["ISI", "ARPA"]), 0), Some(2));
    assert_eq!(dictionary.lookup(&labels(&["ISI"]), 0), None);

    let root = encode_name(&domain(&[]), 12, &mut dictionary);
    assert_eq!(root, vec![0x00]);
}

#[test]
fn the_longest_known_ending_becomes_a_pointer() {
    let mut dictionary = CompressionDictionary::new();
    let mut message = vec![0u8; 20];
    let first = encode_name(&domain(&["F", "ISI", "ARPA"]), message.len(), &mut dictionary);
    message.extend_from_slice(&first);
    message.extend_from_slice(&[0u8; 8]);
    assert_eq!(message.len(), 40);

    let second = encode_name(&domain(&["FOO", "F", "ISI", "ARPA"]), message.len(), &mut dictionary);
    assert_eq!(second, vec![0x03, b'F', b'O', b'O', 0xc0, 20]);
    message.extend_from_slice(&second);

    let third = encode_name(&domain(&["ARPA"]), message.len(), &mut dictionary);
    assert_eq!(third, vec![0xc0, 26]);
    message.extend_from_slice(&third);

    let fourth = encode_name(&domain(&["FOO", "F", "ISI", "ARPA"]), message.len(), &mut dictionary);
    assert_eq!(fourth, vec![0xc0, 40]);
    message.extend_from_slice(&fourth);

    let fifth = encode_name(&domain(&["ISI", "F", "ISI", "ARPA"]), message.len(), &mut dictionary);
    assert_eq!(fifth, vec![0x03, b'I', b'S', b'I', 0xc0, 20]);
    message.extend_from_slice(&fifth);

    assert_eq!(decode_name(&message, 40).unwrap(), (domain(&["FOO", "F", "ISI", "ARPA"]), 46));
    assert_eq!(decode_name(&message, 46).unwrap(), (domain(&["ARPA"]), 48));
    assert_eq!(decode_name(&message, 48).unwrap(), (domain(&["FOO", "F", "ISI", "ARPA"]), 50));
    assert_eq!(decode_name(&message, 50).unwrap(), (domain(&["ISI", "F", "ISI", "ARPA"]), 56));
}

#[test]
fn pointers_use_both_of_their_octets() {
    let mut dictionary = CompressionDictionary::new();
    let mut message = vec![0u8; 0x1234];
    let first = encode_name(&domain(&["example", "com"]), message.len(), &mut dictionary);
    message.extend_from_slice(&first);
    let second = encode_name(&domain(&["www", "example", "com"]), message.len(), &mut dictionary);
    assert_eq!(second, vec![0x03, b'w', b'w', b'w', 0xc0 | 0x12, 0x34]);
    let at = message.len();
    message.extend_from_slice(&second);
    assert_eq!(decode_name(&message, at).unwrap(), (domain(&["www", "example", "com"]), at + 6));
}

#[test]
fn what_a_pointer_cannot_name_is_not_entered() {
    let mut dictionary = CompressionDictionary::new();
    let name = domain(&["a", "b"]);
    let bytes = encode_name(&name, 16383, &mut dictionary);
    assert_eq!(bytes, vec![0x01, b'a', 0x01, b'b', 0x00]);
    assert_eq!(dictionary.lookup(name.labels(), 0), Some(16383));
    assert_eq!(dictionary.lookup(name.labels(), 1), None);

    let mut dictionary = CompressionDictionary::new();
    let bytes = encode_name(&name, 16384, &mut dictionary);
    assert_eq!(bytes, vec![0x01, b'a', 0x01, b'b', 0x00]);
    assert_eq!(dictionary.lookup(name.labels(), 0), None);
    let bytes = encode_name(&name, usize::MAX, &mut dictionary);
    assert_eq!(bytes, vec![0x01, b'a', 0x01, b'b', 0x00]);
}

#[test]
fn every_name_written_is_read_back() {
    let names: Vec<Vec<Vec<u8>>> = vec![
        vec![],
        labels(&["a"]),
        labels(&["www", "example", "com"]),
        labels(&["mail", "example", "com"]),
        labels(&["example", "com"]),
        labels(&["com"]),
        labels(&["com", "com", "com"]),
        vec![vec![0u8; 63], vec![0xffu8; 63], vec![0xc0u8; 63], vec![0x40u8; 62]],
        vec![vec![0xffu8; 63], vec![0xc0u8; 63], vec![0x40u8; 62]],
        labels(&["a", "www", "example", "com"]),
    ];
    let mut dictionary = CompressionDictionary::new();
    let mut message = vec![0xeeu8; 12];
    let mut written = Vec::new();
    for each in &names {
        let name = DomainName::new(each.clone()).unwrap();
        let at = message.len();
        let bytes = encode_name(&name, at, &mut dictionary);
        message.extend_from_slice(&bytes);
        written.push((at, message.len(), name));
    }
    for (at, end, name) in &written {
        let (read, next) = decode_name(&message, *at).unwrap();
        assert_eq!(&read, name);
        assert_eq!(next, *end);
    }
    for each in &names {
        let name = DomainName::new(each.clone()).unwrap();
        let plain = encode_name(&name, 0, &mut CompressionDictionary::new());
        assert_eq!(decode_name(&plain, 0).unwrap(), (name, plain.len()));
    }
}
