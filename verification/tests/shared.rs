use dns_codec::compression::{encode_name, CompressionDictionary};
use dns_codec::error::DecodeError;
use dns_codec::name::{decode_name, read_name, DomainName};
use dns_codec::shared::name;
use std::collections::{BTreeMap, HashMap};

fn octets(texts: &[&str]) -> Vec<Vec<u8>> {
    texts.iter().map(|t| t.as_bytes().to_vec()).collect()
}

#[test]
fn name_test() {
    let mut compression_map = std::collections::HashMap::new();
    let mut tr = std::collections::BTreeMap::new();
    let case = [
        0x06, 0x67, 0x6f, 0x6f, 0x67, 0x6c, 0x65, 0x03, 0x63, 0x6f, 0x6d, 0x00,
    ];
    let _ = case;

    let one = [
        0x01, 0x46, 0x03, 0x49, 0x53, 0x49, 0x04, 0x41, 0x52, 0x50, 0x41, 0x03, 0x43, 0x4f, 0x4d,
        0x00,
    ];
    let two = [0x03, 0x46, 0x4f, 0x4f, 0x00];
    println!("{:?}", name(&one, 0, &mut compression_map, &mut tr));
    println!("{:?}", name(&two, 16, &mut compression_map, &mut tr));

    println!("{:?}", &tr.range(0..*compression_map.get(&0).unwrap()));
    println!();
    println!("{:?}", &tr.get(&16).unwrap());
    println!("{:?}", &tr.range(0..*compression_map.get(&0).unwrap()));
    println!();
    println!("{:?}", &tr.range(11..*compression_map.get(&0).unwrap()));
}

#[test]
fn name_gives_the_labels_and_where_the_field_ends() {
    let mut compression_map = HashMap::new();
    let mut tr = BTreeMap::new();
    let input = [
        0x06, 0x67, 0x6f, 0x6f, 0x67, 0x6c, 0x65, 0x03, 0x63, 0x6f, 0x6d, 0x00, 0xff, 0xff,
    ];
    assert_eq!(
        name(&input, 0, &mut compression_map, &mut tr),
        Ok((octets(&["google", "com"]), 12))
    );
    assert_eq!(
        name(&input, 100, &mut compression_map, &mut tr),
        Ok((octets(&["google", "com"]), 112))
    );
}

#[test]
fn name_enters_each_label_under_its_offset() {
    let mut compression_map = HashMap::new();
    let mut tr = BTreeMap::new();
    let one = [
        0x01, 0x46, 0x03, 0x49, 0x53, 0x49, 0x04, 0x41, 0x52, 0x50, 0x41, 0x03, 0x43, 0x4f, 0x4d,
        0x00,
    ];
    let two = [0x03, 0x46, 0x4f, 0x4f, 0x00];
    assert_eq!(
        name(&one, 0, &mut compression_map, &mut tr),
        Ok((octets(&["F", "ISI", "ARPA", "COM"]), 16))
    );
    assert_eq!(name(&two, 16, &mut compression_map, &mut tr), Ok((octets(&["FOO"]), 21)));

    let entered: Vec<(usize, Vec<u8>)> = tr.iter().map(|(k, v)| (*k, v.clone())).collect();
    assert_eq!(
        entered,
        vec![
            (0, b"F".to_vec()),
            (2, b"ISI".to_vec()),
            (6, b"ARPA".to_vec()),
            (11, b"COM".to_vec()),
            (16, b"FOO".to_vec()),
        ]
    );
    assert_eq!(compression_map.len(), 2);
    assert_eq!(compression_map.get(&0), Some(&12));
    assert_eq!(compression_map.get(&16), Some(&17));
}

#[test]
fn name_of_the_root_enters_no_label() {
    let mut compression_map = HashMap::new();
    let mut tr: BTreeMap<usize, Vec<u8>> = BTreeMap::new();
    tr.insert(40, b"kept".to_vec());
    compression_map.insert(40, 9);
    assert_eq!(name(&[0x00], 40, &mut compression_map, &mut tr), Ok((vec![], 41)));
    assert_eq!(tr.len(), 1);
    assert_eq!(tr.get(&40), Some(&b"kept".to_vec()));
    assert_eq!(compression_map.get(&40), Some(&1));
}

#[test]
fn name_replaces_what_stood_under_an_offset_and_keeps_the_rest() {
    let mut compression_map = HashMap::new();
    let mut tr: BTreeMap<usize, Vec<u8>> = BTreeMap::new();
    tr.insert(5, b"old".to_vec());
    tr.insert(6, b"other".to_vec());
    assert_eq!(
        name(&[0x02, 0xc3, 0xa9, 0x00], 5, &mut compression_map, &mut tr),
        Ok((vec![vec![0xc3, 0xa9]], 9))
    );
    assert_eq!(tr.get(&5), Some(&vec![0xc3, 0xa9]));
    assert_eq!(tr.get(&6), Some(&b"other".to_vec()));
    assert_eq!(tr.len(), 2);
    assert_eq!(compression_map.get(&5), Some(&6));
}

#[test]
fn name_takes_labels_of_any_octets() {
    let mut compression_map = HashMap::new();
    let mut tr = BTreeMap::new();
    let input = [0x03, 0x00, 0xff, 0xc0, 0x01, 0x80, 0x00];
    assert_eq!(
        name(&input, 0, &mut compression_map, &mut tr),
        Ok((vec![vec![0x00, 0xff, 0xc0], vec![0x80]], 7))
    );
    assert_eq!(tr.get(&0), Some(&vec![0x00, 0xff, 0xc0]));
    assert_eq!(tr.get(&4), Some(&vec![0x80]));
}

fn fails(input: &[u8], offset: usize) -> DecodeError {
    let mut compression_map = HashMap::new();
    let mut tr: BTreeMap<usize, Vec<u8>> = BTreeMap::new();
    compression_map.insert(7, 7);
    tr.insert(7, vec![7]);
    let error = name(input, offset, &mut compression_map, &mut tr).unwrap_err();
    assert_eq!(compression_map.len(), 1);
    assert_eq!(compression_map.get(&7), Some(&7));
    assert_eq!(tr.len(), 1);
    assert_eq!(tr.get(&7), Some(&vec![7]));
    error
}

#[test]
fn name_cut_short_is_truncated() {
    assert_eq!(fails(&[], 0), DecodeError::Truncated);
    assert_eq!(fails(&[], 20), DecodeError::Truncated);
    assert_eq!(fails(&[0x03, 0x61], 0), DecodeError::Truncated);
    assert_eq!(fails(&[0x01, 0x61], 0), DecodeError::Truncated);
    assert_eq!(fails(&[0x3f], 9), DecodeError::Truncated);
    assert_eq!(fails(&[0x01, 0x61, 0xc0], 0), DecodeError::Truncated);
}

#[test]
fn name_with_reserved_length_bits_is_invalid() {
    assert_eq!(fails(&[0x40, 0x00], 0), DecodeError::InvalidLabelLength);
    assert_eq!(fails(&[0x80, 0x00], 0), DecodeError::InvalidLabelLength);
    assert_eq!(fails(&[0x7f, 0x00], 3), DecodeError::InvalidLabelLength);
    assert_eq!(fails(&[0xbf, 0x00], 3), DecodeError::InvalidLabelLength);
    assert_eq!(fails(&[0x01, 0x61, 0x41, 0x00], 0), DecodeError::InvalidLabelLength);
}

#[test]
fn name_of_more_than_255_octets_is_too_long() {
    let mut input = Vec::new();
    for _ in 0..5 {
        input.push(0x3f);
        input.extend_from_slice(&[0x61; 63]);
    }
    input.push(0);
    assert_eq!(input.len(), 321);
    assert_eq!(fails(&input, 0), DecodeError::NameTooLong);

    let mut longest = Vec::new();
    for _ in 0..3 {
        longest.push(63);
        longest.extend_from_slice(&[b'x'; 63]);
    }
    let mut too_long = longest.clone();
    longest.push(62);
    longest.extend_from_slice(&[b'y'; 62]);
    longest.push(0);
    too_long.push(63);
    too_long.extend_from_slice(&[b'y'; 63]);
    too_long.push(0);
    assert_eq!(fails(&too_long, 0), DecodeError::NameTooLong);

    let mut compression_map = HashMap::new();
    let mut tr = BTreeMap::new();
    let (labels, next) = name(&longest, 7, &mut compression_map, &mut tr).unwrap();
    assert_eq!(labels.len(), 4);
    assert_eq!(next, 7 + 256);
    assert_eq!(tr.keys().copied().collect::<Vec<usize>>(), vec![7, 71, 135, 199]);
    assert_eq!(compression_map.get(&7), Some(&200));
}

#[test]
fn name_with_a_pointer_to_itself_or_forward_is_invalid() {
    assert_eq!(fails(&[0xc0, 0x00], 0), DecodeError::InvalidPointer);
    assert_eq!(fails(&[0xc0, 0x14], 20), DecodeError::InvalidPointer);
    assert_eq!(fails(&[0xc0, 0x15], 20), DecodeError::InvalidPointer);
    assert_eq!(fails(&[0xff, 0xff], 20), DecodeError::InvalidPointer);
    assert_eq!(fails(&[0x01, 0x61, 0xc0, 0x16], 20), DecodeError::InvalidPointer);
    assert_eq!(fails(&[0x01, 0x61, 0xc0, 0x17, 0x00], 20), DecodeError::InvalidPointer);
}

#[test]
fn name_follows_a_pointer_into_the_octets_it_has() {
    let mut compression_map = HashMap::new();
    let mut tr = BTreeMap::new();
    let input = [0x03, 0x01, 0x61, 0x00, 0x01, 0x62, 0xc0, 0x15];
    assert_eq!(
        name(&input, 20, &mut compression_map, &mut tr),
        Ok((vec![vec![0x01, 0x61, 0x00], b"b".to_vec(), b"a".to_vec()], 28))
    );
    assert_eq!(tr.keys().copied().collect::<Vec<usize>>(), vec![20, 24]);
    assert_eq!(tr.get(&24), Some(&b"b".to_vec()));
    assert_eq!(compression_map.get(&20), Some(&25));
    let mut compression_map = HashMap::new();
    let mut tr = BTreeMap::new();
    assert_eq!(
        read_name(&input, 20, 24),
        Ok((vec![b"b".to_vec(), b"a".to_vec()], 28))
    );
    assert_eq!(
        name(&input[4..], 24, &mut compression_map, &mut tr).unwrap_err(),
        DecodeError::Truncated
    );
    assert!(tr.is_empty());
    assert!(compression_map.is_empty());
}

#[test]
fn name_with_a_pointer_back_to_a_followed_pointer_is_invalid() {
    let input = [0x03, 0xc0, 0x0a, b'a', 0xc0, 0x0b];
    assert_eq!(read_name(&input, 10, 11), Err(DecodeError::InvalidPointer));
    assert_eq!(fails(&[0x01, b'a', 0xc0, 0x0a], 10), DecodeError::NameTooLong);
}

#[test]
fn name_with_a_pointer_before_its_octets_wants_them() {
    let mut message = vec![0x01, b'F', 0x03, b'I', b'S', b'I', 0x04, b'A', b'R', b'P', b'A', 0x00];
    message.extend_from_slice(&[0u8; 8]);
    message.extend_from_slice(&[0xc0, 0x00]);
    assert_eq!(fails(&message[20..], 20), DecodeError::Truncated);
    assert_eq!(read_name(&message[20..], 20, 20), Err(DecodeError::Truncated));
    assert_eq!(read_name(&message, 0, 20), Ok((octets(&["F", "ISI", "ARPA"]), 22)));
    assert_eq!(read_name(&message, 0, 0), Ok((octets(&["F", "ISI", "ARPA"]), 12)));
    let (read, next) = decode_name(&message, 20).unwrap();
    assert_eq!(read.labels(), &octets(&["F", "ISI", "ARPA"]));
    assert_eq!(next, 22);
}

#[test]
fn name_reads_back_what_was_written_out() {
    let names: Vec<Vec<Vec<u8>>> = vec![
        vec![],
        octets(&["a"]),
        octets(&["www", "example", "com"]),
        vec![vec![0u8; 63], vec![0xffu8; 63], vec![0xc0u8; 63], vec![0x40u8; 62]],
        vec![vec![0x00], vec![0xc0, 0x00], vec![0x80]],
    ];
    for labels in &names {
        let written =
            encode_name(&DomainName::new(labels.clone()).unwrap(), 16384, &mut CompressionDictionary::new());
        for offset in [0usize, 12, 16384, 1 << 40] {
            let mut compression_map = HashMap::new();
            let mut tr = BTreeMap::new();
            let mut input = written.clone();
            assert_eq!(
                name(&input, offset, &mut compression_map, &mut tr),
                Ok((labels.clone(), offset + written.len()))
            );
            input.extend_from_slice(&[0xee; 5]);
            assert_eq!(
                name(&input, offset, &mut compression_map, &mut tr),
                Ok((labels.clone(), offset + written.len()))
            );
            assert_eq!(tr.len(), labels.len());
        }
    }
}

#[test]
fn name_agrees_with_the_codec_on_every_window() {
    let mut state: u32 = 5;
    let mut next = move || {
        state = state.wrapping_mul(1_664_525).wrapping_add(1_013_904_223);
        (state >> 24) as u8
    };
    let mut read = 0;
    for _ in 0..20000 {
        let length = 1 + (next() % 24) as usize;
        let message: Vec<u8> = (0..length)
            .map(|_| match next() % 6 {
                0 => 0,
                1 => 0xc0,
                2 => 1 + next() % 3,
                _ => next() % 24,
            })
            .collect();
        let start = (next() as usize) % length;
        let whole = decode_name(&message, start);
        assert_eq!(
            read_name(&message, 0, start),
            whole.clone().map(|(found, end)| (found.labels().clone(), end))
        );
        let mut compression_map = HashMap::new();
        let mut tr = BTreeMap::new();
        match name(&message[start..], start, &mut compression_map, &mut tr) {
            Ok((labels, end)) => {
                read += 1;
                let (found, after) = whole.unwrap();
                assert_eq!(found.labels(), &labels);
                assert_eq!(after, end);
            }
            Err(DecodeError::Truncated) => {}
            Err(e) => assert_eq!(whole.unwrap_err(), e),
        }
    }
    assert!(read > 1000);
}
