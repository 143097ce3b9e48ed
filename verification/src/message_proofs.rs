//! What holds of reading back what was written, proved of the specifications
//! of questions, records and messages.

use crate::compression::spec_encode_name;
use crate::error::{DecodeError, EncodeError};
use crate::header::{decode_header, encode_header, lemma_decode_encoded_header, Header};
use crate::message::{
    and_then, lemma_records_written_when_fit, message_canonical, questions_canonical,
    records_canonical, records_fit, spec_decode, spec_decode_questions, spec_decode_records,
    spec_encode, spec_encode_questions, spec_encode_records, MessageView,
};
use crate::name::{labels_from, name_field_end, spec_decode_name};
use crate::name_proofs::{
    dictionary_matches, lemma_encoded_name_decodes, lemma_labels_from_extended,
    lemma_labels_from_valid, lemma_nothing_matches,
};
use crate::question::{
    question_canonical, spec_decode_question, spec_encode_question, QuestionClass, QuestionType,
    QuestionView,
};
use crate::resource_record::{
    record_canonical, record_tail_octets, spec_decode_record, spec_encode_record, RecordClass,
    RecordType, RecordView,
};
use crate::wire::{
    be16_at, be16_octets, be32_at, be32_octets, lemma_be16_of_octets, lemma_be32_of_octets,
};
use vstd::prelude::*;

verus! {

/// Whether `long` starts with `short`.
pub open spec fn starts_with(long: Seq<u8>, short: Seq<u8>) -> bool {
    short.len() <= long.len() && long.subrange(0, short.len() as int) == short
}

/// Every octet of the shorter buffer is the same in the longer.
proof fn lemma_starts_with_index(long: Seq<u8>, short: Seq<u8>)
    requires
        starts_with(long, short),
    ensures
        forall|i: int| 0 <= i < short.len() ==> short[i] == long[i],
{
    assert forall|i: int| 0 <= i < short.len() implies short[i] == long[i] by {
        assert(long.subrange(0, short.len() as int)[i] == long[i]);
    }
}

/// A buffer with more put after it starts with itself.
pub proof fn lemma_starts_with_append(short: Seq<u8>, more: Seq<u8>)
    ensures
        starts_with(short + more, short),
{
    assert((short + more).subrange(0, short.len() as int) =~= short);
}

/// A name field that ends in a buffer ends at the same offset in every buffer
/// that starts with it.
pub proof fn lemma_name_field_end_extended(short: Seq<u8>, long: Seq<u8>, offset: int, used: int)
    requires
        starts_with(long, short),
        name_field_end(short, offset, used) is Ok,
    ensures
        name_field_end(long, offset, used) == name_field_end(short, offset, used),
    decreases short.len() - offset,
{
    lemma_starts_with_index(long, short);
    let octet = short[offset];
    if 1 <= octet <= 63 {
        lemma_name_field_end_extended(short, long, offset + 1 + octet, used + 1 + octet);
    }
}

/// A name read from a buffer is read the same from every buffer that starts
/// with it.
pub proof fn lemma_decode_name_extended(short: Seq<u8>, long: Seq<u8>, start: int)
    requires
        starts_with(long, short),
        spec_decode_name(short, start) is Ok,
    ensures
        spec_decode_name(long, start) == spec_decode_name(short, start),
{
    lemma_labels_from_valid(short, start, Set::empty(), 0);
    lemma_labels_from_extended(short, long, start, Set::empty(), Set::empty(), 0, 0);
    lemma_name_field_end_extended(short, long, start, 0);
}

/// A dictionary that matches a message matches every message that starts with
/// it.
pub proof fn lemma_dictionary_matches_extended(
    dictionary: Map<Seq<Seq<u8>>, int>,
    short: Seq<u8>,
    long: Seq<u8>,
)
    requires
        starts_with(long, short),
        dictionary_matches(dictionary, short),
    ensures
        dictionary_matches(dictionary, long),
{
    reveal(dictionary_matches);
    assert forall|key: Seq<Seq<u8>>| #[trigger] dictionary.contains_key(key) implies {
        &&& 0 <= dictionary[key] < 16384
        &&& labels_from(long, dictionary[key], Set::empty(), 0) == Ok::<Seq<Seq<u8>>, DecodeError>(
            key,
        )
    } by {
        lemma_labels_from_valid(short, dictionary[key], Set::empty(), 0);
        lemma_labels_from_extended(
            short,
            long,
            dictionary[key],
            Set::empty(),
            Set::empty(),
            0,
            0,
        );
    }
}

/// A question read from a buffer is read the same from every buffer that
/// starts with it.
pub proof fn lemma_decode_question_extended(short: Seq<u8>, long: Seq<u8>, offset: int)
    requires
        starts_with(long, short),
        spec_decode_question(short, offset) is Ok,
    ensures
        spec_decode_question(long, offset) == spec_decode_question(short, offset),
{
    lemma_starts_with_index(long, short);
    lemma_decode_name_extended(short, long, offset);
    crate::name::lemma_name_field_end_bounds(short, offset, 0);
}

/// A record read from a buffer is read the same from every buffer that starts
/// with it.
pub proof fn lemma_decode_record_extended(short: Seq<u8>, long: Seq<u8>, offset: int)
    requires
        starts_with(long, short),
        spec_decode_record(short, offset) is Ok,
    ensures
        spec_decode_record(long, offset) == spec_decode_record(short, offset),
{
    lemma_starts_with_index(long, short);
    lemma_decode_name_extended(short, long, offset);
    crate::name::lemma_name_field_end_bounds(short, offset, 0);
    let next = (spec_decode_name(short, offset)->Ok_0).1;
    let length = be16_at(short, next + 8);
    assert(long.subrange(next + 10, next + 10 + length) =~= short.subrange(
        next + 10,
        next + 10 + length,
    ));
}

/// Questions read from a buffer are read the same from every buffer that
/// starts with it.
pub proof fn lemma_decode_questions_extended(
    short: Seq<u8>,
    long: Seq<u8>,
    offset: int,
    count: nat,
)
    requires
        starts_with(long, short),
        spec_decode_questions(short, offset, count) is Ok,
    ensures
        spec_decode_questions(long, offset, count) == spec_decode_questions(short, offset, count),
    decreases count,
{
    if count > 0 {
        lemma_decode_question_extended(short, long, offset);
        let next = (spec_decode_question(short, offset)->Ok_0).1;
        lemma_decode_questions_extended(short, long, next, (count - 1) as nat);
    }
}

/// Records read from a buffer are read the same from every buffer that starts
/// with it.
pub proof fn lemma_decode_records_extended(short: Seq<u8>, long: Seq<u8>, offset: int, count: nat)
    requires
        starts_with(long, short),
        spec_decode_records(short, offset, count) is Ok,
    ensures
        spec_decode_records(long, offset, count) == spec_decode_records(short, offset, count),
    decreases count,
{
    if count > 0 {
        lemma_decode_record_extended(short, long, offset);
        let next = (spec_decode_record(short, offset)->Ok_0).1;
        lemma_decode_records_extended(short, long, next, (count - 1) as nat);
    }
}

/// A canonical question that is written where a message ends is read back from
/// there, up to where the new message ends; and the dictionary that matched the
/// message before matches it after.
pub proof fn lemma_encoded_question_decodes(
    question: QuestionView,
    message: Seq<u8>,
    dictionary: Map<Seq<Seq<u8>>, int>,
)
    requires
        question_canonical(question),
        dictionary_matches(dictionary, message),
    ensures
        ({
            let (bytes, after) = spec_encode_question(question, message.len() as int, dictionary);
            &&& spec_decode_question(message + bytes, message.len() as int) == Ok::<
                (QuestionView, int),
                DecodeError,
            >((question, (message.len() + bytes.len()) as int))
            &&& dictionary_matches(after, message + bytes)
        }),
{
    let here = message.len() as int;
    let (name, after) = spec_encode_name(question.name, here, dictionary);
    let qtype = be16_octets(question.qtype.spec_value());
    let qclass = be16_octets(question.qclass.spec_value());
    let bytes = name + qtype + qclass;
    let named = message + name;
    let whole = message + bytes;
    let next = here + name.len();
    lemma_encoded_name_decodes(question.name, message, dictionary);
    assert(whole =~= named + (qtype + qclass));
    lemma_starts_with_append(named, qtype + qclass);
    lemma_decode_name_extended(named, whole, here);
    lemma_dictionary_matches_extended(after, named, whole);
    lemma_be16_of_octets(question.qtype.spec_value());
    lemma_be16_of_octets(question.qclass.spec_value());
    assert(whole[next] == qtype[0] && whole[next + 1] == qtype[1]);
    assert(whole[next + 2] == qclass[0] && whole[next + 3] == qclass[1]);
    QuestionType::lemma_of_value_value(question.qtype);
    QuestionClass::lemma_of_value_value(question.qclass);
}

/// A canonical record that is written where a message ends is read back from
/// there, up to where the new message ends; and the dictionary that matched the
/// message before matches it after.
pub proof fn lemma_encoded_record_decodes(
    record: RecordView,
    message: Seq<u8>,
    dictionary: Map<Seq<Seq<u8>>, int>,
)
    requires
        record_canonical(record),
        dictionary_matches(dictionary, message),
    ensures
        spec_encode_record(record, message.len() as int, dictionary) is Ok,
        ({
            let (bytes, after) = spec_encode_record(
                record,
                message.len() as int,
                dictionary,
            )->Ok_0;
            &&& spec_decode_record(message + bytes, message.len() as int) == Ok::<
                (RecordView, int),
                DecodeError,
            >((record, (message.len() + bytes.len()) as int))
            &&& dictionary_matches(after, message + bytes)
        }),
{
    let here = message.len() as int;
    let (name, after) = spec_encode_name(record.name, here, dictionary);
    let record_type = be16_octets(record.record_type.spec_value());
    let record_class = be16_octets(record.record_class.spec_value());
    let ttl = be32_octets(record.time_to_live);
    let length = be16_octets(record.record_data.len() as u16);
    let tail = record_tail_octets(record);
    let bytes = name + tail;
    let named = message + name;
    let whole = message + bytes;
    let next = here + name.len();
    lemma_encoded_name_decodes(record.name, message, dictionary);
    assert(whole =~= named + tail);
    lemma_starts_with_append(named, tail);
    lemma_decode_name_extended(named, whole, here);
    lemma_dictionary_matches_extended(after, named, whole);
    lemma_be16_of_octets(record.record_type.spec_value());
    lemma_be16_of_octets(record.record_class.spec_value());
    lemma_be32_of_octets(record.time_to_live);
    lemma_be16_of_octets(record.record_data.len() as u16);
    assert(tail.len() == 10 + record.record_data.len());
    assert(whole[next] == record_type[0] && whole[next + 1] == record_type[1]);
    assert(whole[next + 2] == record_class[0] && whole[next + 3] == record_class[1]);
    assert(whole[next + 4] == ttl[0] && whole[next + 5] == ttl[1] && whole[next + 6] == ttl[2]
        && whole[next + 7] == ttl[3]);
    assert(whole[next + 8] == length[0] && whole[next + 9] == length[1]);
    assert(be16_at(whole, next + 8) == record.record_data.len());
    assert(be32_at(whole, next + 4) == record.time_to_live);
    assert(whole.subrange(next + 10, next + 10 + record.record_data.len())
        =~= record.record_data);
    RecordType::lemma_of_value_value(record.record_type);
    RecordClass::lemma_of_value_value(record.record_class);
}

/// A question read at an offset and the questions read after it are the
/// questions read from that offset, in every buffer that goes on from the
/// question as the others were read.
proof fn lemma_questions_cons_decode(
    first: QuestionView,
    rest: Seq<QuestionView>,
    message: Seq<u8>,
    head: Seq<u8>,
    tail: Seq<u8>,
)
    requires
        spec_decode_question(message + head, message.len() as int) == Ok::<
            (QuestionView, int),
            DecodeError,
        >((first, (message.len() + head.len()) as int)),
        spec_decode_questions(
            message + head + tail,
            (message.len() + head.len()) as int,
            rest.len(),
        ) == Ok::<(Seq<QuestionView>, int), DecodeError>(
            (rest, (message.len() + head.len() + tail.len()) as int),
        ),
    ensures
        spec_decode_questions(
            message + (head + tail),
            message.len() as int,
            (rest.len() + 1) as nat,
        ) == Ok::<(Seq<QuestionView>, int), DecodeError>(
            (seq![first] + rest, (message.len() + head.len() + tail.len()) as int),
        ),
{
    let one = message + head;
    let whole = message + (head + tail);
    assert(whole =~= one + tail);
    lemma_starts_with_append(one, tail);
    lemma_decode_question_extended(one, whole, message.len() as int);
    assert(spec_decode_questions(whole, message.len() as int, (rest.len() + 1) as nat) == and_then(
        seq![first],
        spec_decode_questions(whole, one.len() as int, rest.len()),
    ));
}

/// A record read at an offset and the records read after it are the records
/// read from that offset, in every buffer that goes on from the record as the
/// others were read.
proof fn lemma_records_cons_decode(
    first: RecordView,
    rest: Seq<RecordView>,
    message: Seq<u8>,
    head: Seq<u8>,
    tail: Seq<u8>,
)
    requires
        spec_decode_record(message + head, message.len() as int) == Ok::<
            (RecordView, int),
            DecodeError,
        >((first, (message.len() + head.len()) as int)),
        spec_decode_records(
            message + head + tail,
            (message.len() + head.len()) as int,
            rest.len(),
        ) == Ok::<(Seq<RecordView>, int), DecodeError>(
            (rest, (message.len() + head.len() + tail.len()) as int),
        ),
    ensures
        spec_decode_records(
            message + (head + tail),
            message.len() as int,
            (rest.len() + 1) as nat,
        ) == Ok::<(Seq<RecordView>, int), DecodeError>(
            (seq![first] + rest, (message.len() + head.len() + tail.len()) as int),
        ),
{
    let one = message + head;
    let whole = message + (head + tail);
    assert(whole =~= one + tail);
    lemma_starts_with_append(one, tail);
    lemma_decode_record_extended(one, whole, message.len() as int);
    assert(spec_decode_records(whole, message.len() as int, (rest.len() + 1) as nat) == and_then(
        seq![first],
        spec_decode_records(whole, one.len() as int, rest.len()),
    ));
}

/// All but the first of canonical questions are canonical.
proof fn lemma_rest_of_questions_canonical(questions: Seq<QuestionView>)
    requires
        questions.len() > 0,
        questions_canonical(questions),
    ensures
        question_canonical(questions[0]),
        questions_canonical(questions.drop_first()),
        seq![questions[0]] + questions.drop_first() == questions,
{
    let rest = questions.drop_first();
    assert forall|i: int| 0 <= i < rest.len() implies question_canonical(#[trigger] rest[i]) by {
        assert(rest[i] == questions[i + 1]);
    }
    assert(seq![questions[0]] + rest =~= questions);
}

/// All but the first of canonical records are canonical.
proof fn lemma_rest_of_records_canonical(records: Seq<RecordView>)
    requires
        records.len() > 0,
        records_canonical(records),
    ensures
        record_canonical(records[0]),
        records_canonical(records.drop_first()),
        seq![records[0]] + records.drop_first() == records,
{
    let rest = records.drop_first();
    assert forall|i: int| 0 <= i < rest.len() implies record_canonical(#[trigger] rest[i]) by {
        assert(rest[i] == records[i + 1]);
    }
    assert(seq![records[0]] + rest =~= records);
}

/// Canonical questions that are written where a message ends are read back
/// from there, up to where the new message ends; and the dictionary that
/// matched the message before matches it after.
pub proof fn lemma_encoded_questions_decode(
    questions: Seq<QuestionView>,
    message: Seq<u8>,
    dictionary: Map<Seq<Seq<u8>>, int>,
)
    requires
        questions_canonical(questions),
        dictionary_matches(dictionary, message),
    ensures
        ({
            let (bytes, after) = spec_encode_questions(
                questions,
                message.len() as int,
                dictionary,
            );
            &&& spec_decode_questions(message + bytes, message.len() as int, questions.len())
                == Ok::<(Seq<QuestionView>, int), DecodeError>(
                (questions, (message.len() + bytes.len()) as int),
            )
            &&& dictionary_matches(after, message + bytes)
        }),
    decreases questions.len(),
{
    let here = message.len() as int;
    if questions.len() == 0 {
        assert(message + Seq::<u8>::empty() =~= message);
        assert(questions =~= Seq::<QuestionView>::empty());
    } else {
        let first = questions[0];
        let rest = questions.drop_first();
        lemma_rest_of_questions_canonical(questions);
        let (head, entered) = spec_encode_question(first, here, dictionary);
        let (tail, after) = spec_encode_questions(rest, here + head.len(), entered);
        lemma_encoded_question_decodes(first, message, dictionary);
        lemma_encoded_questions_decode(rest, message + head, entered);
        lemma_questions_cons_decode(first, rest, message, head, tail);
        assert(message + head + tail =~= message + (head + tail));
    }
}

/// Canonical records that are written where a message ends are read back from
/// there, up to where the new message ends; and the dictionary that matched
/// the message before matches it after.
pub proof fn lemma_encoded_records_decode(
    records: Seq<RecordView>,
    message: Seq<u8>,
    dictionary: Map<Seq<Seq<u8>>, int>,
)
    requires
        records_canonical(records),
        dictionary_matches(dictionary, message),
    ensures
        spec_encode_records(records, message.len() as int, dictionary) is Ok,
        ({
            let (bytes, after) = spec_encode_records(
                records,
                message.len() as int,
                dictionary,
            )->Ok_0;
            &&& spec_decode_records(message + bytes, message.len() as int, records.len()) == Ok::<
                (Seq<RecordView>, int),
                DecodeError,
            >((records, (message.len() + bytes.len()) as int))
            &&& dictionary_matches(after, message + bytes)
        }),
    decreases records.len(),
{
    let here = message.len() as int;
    if records.len() == 0 {
        assert(message + Seq::<u8>::empty() =~= message);
        assert(records =~= Seq::<RecordView>::empty());
    } else {
        let first = records[0];
        let rest = records.drop_first();
        lemma_rest_of_records_canonical(records);
        lemma_encoded_record_decodes(first, message, dictionary);
        let (head, entered) = spec_encode_record(first, here, dictionary)->Ok_0;
        lemma_encoded_records_decode(rest, message + head, entered);
        let (tail, after) = spec_encode_records(rest, here + head.len(), entered)->Ok_0;
        lemma_records_cons_decode(first, rest, message, head, tail);
        assert(message + head + tail =~= message + (head + tail));
    }
}

/// The header that a buffer starts with is the header of its first twelve
/// octets.
pub proof fn lemma_decode_header_of_start(header: Seq<u8>, more: Seq<u8>)
    requires
        header.len() == 12,
    ensures
        decode_header(header + more) == decode_header(header),
{
    let whole = header + more;
    assert forall|i: int| 0 <= i < 12 implies whole[i] == header[i] by {}
    assert(be16_at(whole, 0) == be16_at(header, 0));
    assert(be16_at(whole, 4) == be16_at(header, 4));
    assert(be16_at(whole, 6) == be16_at(header, 6));
    assert(be16_at(whole, 8) == be16_at(header, 8));
    assert(be16_at(whole, 10) == be16_at(header, 10));
}

/// Canonical questions written where a message ends are read back from there
/// in every message that goes on from them.
pub proof fn lemma_questions_decode_in_whole(
    questions: Seq<QuestionView>,
    message: Seq<u8>,
    dictionary: Map<Seq<Seq<u8>>, int>,
    more: Seq<u8>,
)
    requires
        questions_canonical(questions),
        dictionary_matches(dictionary, message),
    ensures
        ({
            let (bytes, after) = spec_encode_questions(
                questions,
                message.len() as int,
                dictionary,
            );
            &&& spec_decode_questions(
                message + bytes + more,
                message.len() as int,
                questions.len(),
            ) == Ok::<(Seq<QuestionView>, int), DecodeError>(
                (questions, (message.len() + bytes.len()) as int),
            )
            &&& dictionary_matches(after, message + bytes)
        }),
{
    let (bytes, after) = spec_encode_questions(questions, message.len() as int, dictionary);
    lemma_encoded_questions_decode(questions, message, dictionary);
    lemma_starts_with_append(message + bytes, more);
    lemma_decode_questions_extended(
        message + bytes,
        message + bytes + more,
        message.len() as int,
        questions.len(),
    );
}

/// Canonical records written where a message ends are read back from there in
/// every message that goes on from them.
pub proof fn lemma_records_decode_in_whole(
    records: Seq<RecordView>,
    message: Seq<u8>,
    dictionary: Map<Seq<Seq<u8>>, int>,
    more: Seq<u8>,
)
    requires
        records_canonical(records),
        dictionary_matches(dictionary, message),
    ensures
        spec_encode_records(records, message.len() as int, dictionary) is Ok,
        ({
            let (bytes, after) = spec_encode_records(
                records,
                message.len() as int,
                dictionary,
            )->Ok_0;
            &&& spec_decode_records(message + bytes + more, message.len() as int, records.len())
                == Ok::<(Seq<RecordView>, int), DecodeError>(
                (records, (message.len() + bytes.len()) as int),
            )
            &&& dictionary_matches(after, message + bytes)
        }),
{
    lemma_encoded_records_decode(records, message, dictionary);
    let (bytes, after) = spec_encode_records(records, message.len() as int, dictionary)->Ok_0;
    lemma_starts_with_append(message + bytes, more);
    lemma_decode_records_extended(
        message + bytes,
        message + bytes + more,
        message.len() as int,
        records.len(),
    );
}

/// A buffer in which a header, questions and three sections of records are
/// read one after the other holds the message made of them.
pub proof fn lemma_decode_assembled(
    buffer: Seq<u8>,
    message: MessageView,
    after_questions: int,
    after_answers: int,
    after_authorities: int,
    after_additionals: int,
)
    requires
        decode_header(buffer) == Ok::<Header, DecodeError>(message.header),
        spec_decode_questions(buffer, 12, message.header.question_count as nat) == Ok::<
            (Seq<QuestionView>, int),
            DecodeError,
        >((message.questions, after_questions)),
        spec_decode_records(buffer, after_questions, message.header.answer_count as nat) == Ok::<
            (Seq<RecordView>, int),
            DecodeError,
        >((message.answers, after_answers)),
        spec_decode_records(buffer, after_answers, message.header.authority_count as nat) == Ok::<
            (Seq<RecordView>, int),
            DecodeError,
        >((message.authorities, after_authorities)),
        spec_decode_records(buffer, after_authorities, message.header.additional_count as nat)
            == Ok::<(Seq<RecordView>, int), DecodeError>(
            (message.additionals, after_additionals),
        ),
    ensures
        spec_decode(buffer) == Ok::<MessageView, DecodeError>(message),
{
}

/// A message whose sections are written one after the other, each with the
/// dictionary that the one before left, is written as the header with their
/// counts and their octets in that order.
pub proof fn lemma_encode_assembled(
    message: MessageView,
    questions: Seq<u8>,
    answers: Seq<u8>,
    authorities: Seq<u8>,
    additionals: Seq<u8>,
    after_questions: Map<Seq<Seq<u8>>, int>,
    after_answers: Map<Seq<Seq<u8>>, int>,
    after_authorities: Map<Seq<Seq<u8>>, int>,
    after_additionals: Map<Seq<Seq<u8>>, int>,
)
    requires
        spec_encode_questions(message.questions, 12, Map::empty()) == (questions, after_questions),
        spec_encode_records(message.answers, 12int + questions.len(), after_questions) == Ok::<
            (Seq<u8>, Map<Seq<Seq<u8>>, int>),
            EncodeError,
        >((answers, after_answers)),
        spec_encode_records(
            message.authorities,
            12int + questions.len() + answers.len(),
            after_answers,
        ) == Ok::<(Seq<u8>, Map<Seq<Seq<u8>>, int>), EncodeError>(
            (authorities, after_authorities),
        ),
        spec_encode_records(
            message.additionals,
            12int + questions.len() + answers.len() + authorities.len(),
            after_authorities,
        ) == Ok::<(Seq<u8>, Map<Seq<Seq<u8>>, int>), EncodeError>(
            (additionals, after_additionals),
        ),
    ensures
        spec_encode(message) == Ok::<Seq<u8>, EncodeError>(
            encode_header(message.counted_header()) + questions + answers + authorities
                + additionals,
        ),
{
}

/// Canonical questions written after a header are read back from a message
/// that goes on from them.
proof fn lemma_questions_section_decodes(
    questions: Seq<QuestionView>,
    header: Seq<u8>,
    bytes: Seq<u8>,
    after: Map<Seq<Seq<u8>>, int>,
    more: Seq<u8>,
    whole: Seq<u8>,
)
    requires
        header.len() == 12,
        questions_canonical(questions),
        spec_encode_questions(questions, 12, Map::empty()) == (bytes, after),
        whole == header + bytes + more,
    ensures
        spec_decode_questions(whole, 12, questions.len()) == Ok::<
            (Seq<QuestionView>, int),
            DecodeError,
        >((questions, 12int + bytes.len())),
        dictionary_matches(after, header + bytes),
{
    lemma_nothing_matches(header);
    lemma_questions_decode_in_whole(questions, header, Map::empty(), more);
}

/// Canonical records written where a message ends are read back from a
/// message that goes on from them.
proof fn lemma_records_section_decodes(
    records: Seq<RecordView>,
    message: Seq<u8>,
    dictionary: Map<Seq<Seq<u8>>, int>,
    bytes: Seq<u8>,
    after: Map<Seq<Seq<u8>>, int>,
    more: Seq<u8>,
    whole: Seq<u8>,
)
    requires
        records_canonical(records),
        dictionary_matches(dictionary, message),
        spec_encode_records(records, message.len() as int, dictionary) == Ok::<
            (Seq<u8>, Map<Seq<Seq<u8>>, int>),
            EncodeError,
        >((bytes, after)),
        whole == message + bytes + more,
    ensures
        spec_decode_records(whole, message.len() as int, records.len()) == Ok::<
            (Seq<RecordView>, int),
            DecodeError,
        >((records, (message.len() + bytes.len()) as int)),
        dictionary_matches(after, message + bytes),
{
    lemma_records_decode_in_whole(records, message, dictionary, more);
}

/// Putting sequences together does not depend on where one starts.
proof fn lemma_five_parts(a: Seq<u8>, b: Seq<u8>, c: Seq<u8>, d: Seq<u8>, e: Seq<u8>)
    ensures
        a + b + c + d + e == a + (b + c + d + e),
        a + b + c + d + e == a + b + (c + d + e),
        a + b + c + d + e == a + b + c + (d + e),
        a + b + c + d + e == a + b + c + d + e + Seq::<u8>::empty(),
        (a + b + c + d + e).len() == a.len() + b.len() + c.len() + d.len() + e.len(),
{
    assert(a + b + c + d + e =~= a + (b + c + d + e));
    assert(a + b + c + d + e =~= a + b + (c + d + e));
    assert(a + b + c + d + e =~= a + b + c + (d + e));
    assert(a + b + c + d + e =~= a + b + c + d + e + Seq::<u8>::empty());
}

/// What was written section by section after a header is read back section
/// by section.
proof fn lemma_sections_decode(
    message: MessageView,
    header: Seq<u8>,
    questions: Seq<u8>,
    answers: Seq<u8>,
    authorities: Seq<u8>,
    additionals: Seq<u8>,
    after_questions: Map<Seq<Seq<u8>>, int>,
    after_answers: Map<Seq<Seq<u8>>, int>,
    after_authorities: Map<Seq<Seq<u8>>, int>,
    after_additionals: Map<Seq<Seq<u8>>, int>,
)
    requires
        header.len() == 12,
        questions_canonical(message.questions),
        records_canonical(message.answers),
        records_canonical(message.authorities),
        records_canonical(message.additionals),
        spec_encode_questions(message.questions, 12, Map::empty()) == (questions, after_questions),
        spec_encode_records(message.answers, 12int + questions.len(), after_questions) == Ok::<
            (Seq<u8>, Map<Seq<Seq<u8>>, int>),
            EncodeError,
        >((answers, after_answers)),
        spec_encode_records(
            message.authorities,
            12int + questions.len() + answers.len(),
            after_answers,
        ) == Ok::<(Seq<u8>, Map<Seq<Seq<u8>>, int>), EncodeError>(
            (authorities, after_authorities),
        ),
        spec_encode_records(
            message.additionals,
            12int + questions.len() + answers.len() + authorities.len(),
            after_authorities,
        ) == Ok::<(Seq<u8>, Map<Seq<Seq<u8>>, int>), EncodeError>(
            (additionals, after_additionals),
        ),
    ensures
        ({
            let whole = header + questions + answers + authorities + additionals;
            let a = 12int + questions.len();
            let b = a + answers.len();
            let c = b + authorities.len();
            let d = c + additionals.len();
            &&& spec_decode_questions(whole, 12, message.questions.len()) == Ok::<
                (Seq<QuestionView>, int),
                DecodeError,
            >((message.questions, a))
            &&& spec_decode_records(whole, a, message.answers.len()) == Ok::<
                (Seq<RecordView>, int),
                DecodeError,
            >((message.answers, b))
            &&& spec_decode_records(whole, b, message.authorities.len()) == Ok::<
                (Seq<RecordView>, int),
                DecodeError,
            >((message.authorities, c))
            &&& spec_decode_records(whole, c, message.additionals.len()) == Ok::<
                (Seq<RecordView>, int),
                DecodeError,
            >((message.additionals, d))
        }),
{
    let whole = header + questions + answers + authorities + additionals;
    lemma_five_parts(header, questions, answers, authorities, additionals);
    lemma_questions_section_decodes(
        message.questions,
        header,
        questions,
        after_questions,
        answers + authorities + additionals,
        whole,
    );
    lemma_records_section_decodes(
        message.answers,
        header + questions,
        after_questions,
        answers,
        after_answers,
        authorities + additionals,
        whole,
    );
    lemma_records_section_decodes(
        message.authorities,
        header + questions + answers,
        after_answers,
        authorities,
        after_authorities,
        additionals,
        whole,
    );
    lemma_records_section_decodes(
        message.additionals,
        header + questions + answers + authorities,
        after_authorities,
        additionals,
        after_additionals,
        Seq::empty(),
        whole,
    );
}

/// A canonical message can be written, and what is written is read back as the
/// same message with the counts of its sections in the header.
pub proof fn lemma_encoded_message_decodes(message: MessageView)
    requires
        message_canonical(message),
    ensures
        spec_encode(message) is Ok,
        spec_decode(spec_encode(message)->Ok_0) == Ok::<MessageView, DecodeError>(
            MessageView {
                header: message.counted_header(),
                questions: message.questions,
                answers: message.answers,
                authorities: message.authorities,
                additionals: message.additionals,
            },
        ),
{
    let counted = message.counted_header();
    let read = MessageView {
        header: counted,
        questions: message.questions,
        answers: message.answers,
        authorities: message.authorities,
        additionals: message.additionals,
    };
    let header = encode_header(counted);
    let (questions, d1) = spec_encode_questions(message.questions, 12, Map::empty());
    lemma_records_written(message, questions, d1);
    let a = 12int + questions.len();
    let (answers, d2) = spec_encode_records(message.answers, a, d1)->Ok_0;
    let b = a + answers.len();
    let (authorities, d3) = spec_encode_records(message.authorities, b, d2)->Ok_0;
    let c = b + authorities.len();
    let (additionals, d4) = spec_encode_records(message.additionals, c, d3)->Ok_0;
    let whole = header + questions + answers + authorities + additionals;
    lemma_encode_assembled(message, questions, answers, authorities, additionals, d1, d2, d3, d4);
    assert(header.len() == 12 && decode_header(whole) == Ok::<Header, DecodeError>(counted)) by {
        lemma_decode_encoded_header(counted);
        assert(whole =~= header + (questions + answers + authorities + additionals));
        lemma_decode_header_of_start(header, questions + answers + authorities + additionals);
    }
    lemma_sections_decode(
        message,
        header,
        questions,
        answers,
        authorities,
        additionals,
        d1,
        d2,
        d3,
        d4,
    );
    lemma_decode_assembled(
        whole,
        read,
        12int + questions.len(),
        12int + questions.len() + answers.len(),
        12int + questions.len() + answers.len() + authorities.len(),
        12int + questions.len() + answers.len() + authorities.len() + additionals.len(),
    );
}

/// The records of a canonical message can be written after its questions,
/// section after section.
proof fn lemma_records_written(
    message: MessageView,
    questions: Seq<u8>,
    after_questions: Map<Seq<Seq<u8>>, int>,
)
    requires
        records_canonical(message.answers),
        records_canonical(message.authorities),
        records_canonical(message.additionals),
    ensures
        ({
            let a = 12int + questions.len();
            let answers = spec_encode_records(message.answers, a, after_questions);
            let b = a + (answers->Ok_0).0.len();
            let authorities = spec_encode_records(message.authorities, b, (answers->Ok_0).1);
            let c = b + (authorities->Ok_0).0.len();
            let additionals = spec_encode_records(
                message.additionals,
                c,
                (authorities->Ok_0).1,
            );
            answers is Ok && authorities is Ok && additionals is Ok
        }),
{
    lemma_canonical_records_fit(message.answers);
    lemma_canonical_records_fit(message.authorities);
    lemma_canonical_records_fit(message.additionals);
    let a = 12int + questions.len();
    lemma_records_written_when_fit(message.answers, a, after_questions);
    let (answers, d2) = spec_encode_records(message.answers, a, after_questions)->Ok_0;
    let b = a + answers.len();
    lemma_records_written_when_fit(message.authorities, b, d2);
    let (authorities, d3) = spec_encode_records(message.authorities, b, d2)->Ok_0;
    let c = b + authorities.len();
    lemma_records_written_when_fit(message.additionals, c, d3);
}

/// A question that was read is canonical.
pub proof fn lemma_decoded_question_canonical(buffer: Seq<u8>, offset: int)
    requires
        spec_decode_question(buffer, offset) is Ok,
    ensures
        question_canonical((spec_decode_question(buffer, offset)->Ok_0).0),
{
    crate::name_proofs::lemma_decoded_name_valid(buffer, offset);
    let next = (spec_decode_name(buffer, offset)->Ok_0).1;
    QuestionType::lemma_value_of_value(be16_at(buffer, next));
    QuestionClass::lemma_value_of_value(be16_at(buffer, next + 2));
}

/// A record that was read is canonical.
pub proof fn lemma_decoded_record_canonical(buffer: Seq<u8>, offset: int)
    requires
        spec_decode_record(buffer, offset) is Ok,
    ensures
        record_canonical((spec_decode_record(buffer, offset)->Ok_0).0),
{
    crate::name_proofs::lemma_decoded_name_valid(buffer, offset);
    let next = (spec_decode_name(buffer, offset)->Ok_0).1;
    crate::name::lemma_name_field_end_bounds(buffer, offset, 0);
    RecordType::lemma_value_of_value(be16_at(buffer, next));
    RecordClass::lemma_value_of_value(be16_at(buffer, next + 2));
}

/// Questions that were read are canonical, and as many as were asked for.
pub proof fn lemma_decoded_questions_canonical(buffer: Seq<u8>, offset: int, count: nat)
    requires
        spec_decode_questions(buffer, offset, count) is Ok,
    ensures
        questions_canonical((spec_decode_questions(buffer, offset, count)->Ok_0).0),
        (spec_decode_questions(buffer, offset, count)->Ok_0).0.len() == count,
    decreases count,
{
    if count > 0 {
        let (first, next) = spec_decode_question(buffer, offset)->Ok_0;
        let rest = (spec_decode_questions(buffer, next, (count - 1) as nat)->Ok_0).0;
        lemma_decoded_question_canonical(buffer, offset);
        lemma_decoded_questions_canonical(buffer, next, (count - 1) as nat);
        let all = seq![first] + rest;
        assert forall|i: int| 0 <= i < all.len() implies question_canonical(#[trigger] all[i]) by {
            if i > 0 {
                assert(all[i] == rest[i - 1]);
            }
        }
    }
}

/// Records that were read are canonical, and as many as were asked for.
pub proof fn lemma_decoded_records_canonical(buffer: Seq<u8>, offset: int, count: nat)
    requires
        spec_decode_records(buffer, offset, count) is Ok,
    ensures
        records_canonical((spec_decode_records(buffer, offset, count)->Ok_0).0),
        (spec_decode_records(buffer, offset, count)->Ok_0).0.len() == count,
    decreases count,
{
    if count > 0 {
        let (first, next) = spec_decode_record(buffer, offset)->Ok_0;
        let rest = (spec_decode_records(buffer, next, (count - 1) as nat)->Ok_0).0;
        lemma_decoded_record_canonical(buffer, offset);
        lemma_decoded_records_canonical(buffer, next, (count - 1) as nat);
        let all = seq![first] + rest;
        assert forall|i: int| 0 <= i < all.len() implies record_canonical(#[trigger] all[i]) by {
            if i > 0 {
                assert(all[i] == rest[i - 1]);
            }
        }
    }
}

/// A message that was read is canonical, and each of its sections has as many
/// entries as its header counts.
pub proof fn lemma_decoded_message_canonical(buffer: Seq<u8>)
    requires
        spec_decode(buffer) is Ok,
    ensures
        ({
            let message = spec_decode(buffer)->Ok_0;
            &&& message_canonical(message)
            &&& message.counted_header() == message.header
        }),
{
    let header = decode_header(buffer)->Ok_0;
    crate::header::Opcode::lemma_value_of_value(crate::header::opcode_bits(buffer[2]));
    crate::header::ResponseCode::lemma_value_of_value(crate::header::rcode_bits(buffer[3]));
    lemma_decoded_questions_canonical(buffer, 12, header.question_count as nat);
    let a = (spec_decode_questions(buffer, 12, header.question_count as nat)->Ok_0).1;
    lemma_decoded_records_canonical(buffer, a, header.answer_count as nat);
    let b = (spec_decode_records(buffer, a, header.answer_count as nat)->Ok_0).1;
    lemma_decoded_records_canonical(buffer, b, header.authority_count as nat);
    let c = (spec_decode_records(buffer, b, header.authority_count as nat)->Ok_0).1;
    lemma_decoded_records_canonical(buffer, c, header.additional_count as nat);
}

/// A message that was read can be written, and what is written is read back as
/// the same message.
pub proof fn lemma_decoded_message_round_trip(buffer: Seq<u8>)
    requires
        spec_decode(buffer) is Ok,
    ensures
        spec_encode(spec_decode(buffer)->Ok_0) is Ok,
        spec_decode(spec_encode(spec_decode(buffer)->Ok_0)->Ok_0) == spec_decode(buffer),
{
    lemma_decoded_message_canonical(buffer);
    lemma_encoded_message_decodes(spec_decode(buffer)->Ok_0);
}

/// The data of canonical records fit their length field.
proof fn lemma_canonical_records_fit(records: Seq<RecordView>)
    requires
        records_canonical(records),
    ensures
        records_fit(records),
{
    assert forall|i: int| 0 <= i < records.len() implies (#[trigger] records[i]).record_data.len()
        <= 65535 by {
        assert(record_canonical(records[i]));
    }
}

} // verus!
