//! Whole messages: a header, the questions, and three sections of records.
//!
//! A message is read from the start of a buffer: the header, then as many
//! questions and records as the header announces, one after the other. It is
//! written the same way, with the counts of the header set to what the
//! sections hold, and with one dictionary of names for the whole message.

use crate::compression::CompressionDictionary;
use crate::error::{DecodeError, EncodeError};
use crate::header::{decode_header, encode_header, Header, HEADER_LEN};
use crate::question::{
    decode_question, encode_question, question_canonical, spec_decode_question,
    spec_encode_question, Question, QuestionView,
};
use crate::resource_record::{
    decode_record, encode_record, record_canonical, spec_decode_record, spec_encode_record,
    RecordView, ResourceRecord,
};
use crate::wire::push_bytes;
use vstd::prelude::*;

verus! {

/// The most entries a section can have: what its 16-bit count can say.
pub const MAX_SECTION_LEN: usize = 65535;

/// What a list of questions says.
pub open spec fn questions_view(questions: Seq<Question>) -> Seq<QuestionView> {
    Seq::new(questions.len(), |i: int| questions[i]@)
}

/// What a list of records says.
pub open spec fn records_view(records: Seq<ResourceRecord>) -> Seq<RecordView> {
    Seq::new(records.len(), |i: int| records[i]@)
}

/// What a message says.
pub struct MessageView {
    /// The header, with the counts it was read or made with.
    pub header: Header,
    /// The question section.
    pub questions: Seq<QuestionView>,
    /// The answer section.
    pub answers: Seq<RecordView>,
    /// The authority section.
    pub authorities: Seq<RecordView>,
    /// The additional section.
    pub additionals: Seq<RecordView>,
}

impl MessageView {
    /// A message can be written when its header is well formed and the count of
    /// each section fits in 16 bits.
    pub open spec fn wf(self) -> bool {
        &&& self.header.wf()
        &&& self.questions.len() <= 65535
        &&& self.answers.len() <= 65535
        &&& self.authorities.len() <= 65535
        &&& self.additionals.len() <= 65535
    }

    /// The header with its four counts set to what the sections hold.
    pub open spec fn counted_header(self) -> Header {
        Header {
            id: self.header.id,
            message_kind: self.header.message_kind,
            opcode: self.header.opcode,
            authoritative_answer: self.header.authoritative_answer,
            truncated: self.header.truncated,
            recursion_desired: self.header.recursion_desired,
            recursion_available: self.header.recursion_available,
            response_code: self.header.response_code,
            question_count: self.questions.len() as u16,
            answer_count: self.answers.len() as u16,
            authority_count: self.authorities.len() as u16,
            additional_count: self.additionals.len() as u16,
        }
    }
}

/// Every question is canonical.
pub open spec fn questions_canonical(questions: Seq<QuestionView>) -> bool {
    forall|i: int| 0 <= i < questions.len() ==> question_canonical(#[trigger] questions[i])
}

/// Every record is canonical.
pub open spec fn records_canonical(records: Seq<RecordView>) -> bool {
    forall|i: int| 0 <= i < records.len() ==> record_canonical(#[trigger] records[i])
}

/// A message that can be written and that reading gives back, but for the
/// counts of its header.
pub open spec fn message_canonical(message: MessageView) -> bool {
    &&& message.wf()
    &&& questions_canonical(message.questions)
    &&& records_canonical(message.answers)
    &&& records_canonical(message.authorities)
    &&& records_canonical(message.additionals)
}

/// A message: its header, its questions, and its answer, authority and
/// additional records.
///
/// The header is well formed, and no section has more than 65535 entries.
#[derive(Debug, PartialEq, Eq)]
pub struct Message {
    header: Header,
    questions: Vec<Question>,
    answers: Vec<ResourceRecord>,
    authorities: Vec<ResourceRecord>,
    additionals: Vec<ResourceRecord>,
}

impl View for Message {
    type V = MessageView;

    closed spec fn view(&self) -> MessageView {
        MessageView {
            header: self.header,
            questions: questions_view(self.questions@),
            answers: records_view(self.answers@),
            authorities: records_view(self.authorities@),
            additionals: records_view(self.additionals@),
        }
    }
}

impl Message {
    #[verifier::type_invariant]
    pub closed spec fn well_formed(&self) -> bool {
        self@.wf()
    }

    /// The message with the given header and sections, if its header is well
    /// formed and each section has at most 65535 entries.
    ///
    /// The counts of the header are kept as given; `encode` writes the counts
    /// that the sections have.
    pub fn new(
        header: Header,
        questions: Vec<Question>,
        answers: Vec<ResourceRecord>,
        authorities: Vec<ResourceRecord>,
        additionals: Vec<ResourceRecord>,
    ) -> (message: Option<Message>)
        ensures
            message is Some <==> header.wf() && questions@.len() <= 65535 && answers@.len() <= 65535
                && authorities@.len() <= 65535 && additionals@.len() <= 65535,
            message matches Some(m) ==> m@ == (MessageView {
                header,
                questions: questions_view(questions@),
                answers: records_view(answers@),
                authorities: records_view(authorities@),
                additionals: records_view(additionals@),
            }),
    {
        if header.is_well_formed() && questions.len() <= MAX_SECTION_LEN && answers.len()
            <= MAX_SECTION_LEN && authorities.len() <= MAX_SECTION_LEN && additionals.len()
            <= MAX_SECTION_LEN {
            Some(Message { header, questions, answers, authorities, additionals })
        } else {
            None
        }
    }

    /// The header, with the counts it was read or made with.
    pub fn header(&self) -> (header: &Header)
        ensures
            *header == self@.header,
            self@.wf(),
    {
        proof {
            use_type_invariant(self);
        }
        &self.header
    }

    /// The questions.
    pub fn questions(&self) -> (questions: &Vec<Question>)
        ensures
            questions_view(questions@) == self@.questions,
    {
        &self.questions
    }

    /// The answer records.
    pub fn answers(&self) -> (answers: &Vec<ResourceRecord>)
        ensures
            records_view(answers@) == self@.answers,
    {
        &self.answers
    }

    /// The authority records.
    pub fn authorities(&self) -> (authorities: &Vec<ResourceRecord>)
        ensures
            records_view(authorities@) == self@.authorities,
    {
        &self.authorities
    }

    /// The additional records.
    pub fn additionals(&self) -> (additionals: &Vec<ResourceRecord>)
        ensures
            records_view(additionals@) == self@.additionals,
    {
        &self.additionals
    }
}

/// `first` put before the entries that were read after it, if they were read.
pub open spec fn and_then<T>(first: Seq<T>, rest: Result<(Seq<T>, int), DecodeError>) -> Result<
    (Seq<T>, int),
    DecodeError,
> {
    match rest {
        Ok((entries, end)) => Ok((first + entries, end)),
        Err(e) => Err(e),
    }
}

/// The `count` questions that start at `offset`, and the offset after them.
pub open spec fn spec_decode_questions(buffer: Seq<u8>, offset: int, count: nat) -> Result<
    (Seq<QuestionView>, int),
    DecodeError,
>
    decreases count,
{
    if count == 0 {
        Ok((Seq::empty(), offset))
    } else {
        match spec_decode_question(buffer, offset) {
            Err(e) => Err(e),
            Ok((first, next)) => and_then(
                seq![first],
                spec_decode_questions(buffer, next, (count - 1) as nat),
            ),
        }
    }
}

/// The `count` records that start at `offset`, and the offset after them.
pub open spec fn spec_decode_records(buffer: Seq<u8>, offset: int, count: nat) -> Result<
    (Seq<RecordView>, int),
    DecodeError,
>
    decreases count,
{
    if count == 0 {
        Ok((Seq::empty(), offset))
    } else {
        match spec_decode_record(buffer, offset) {
            Err(e) => Err(e),
            Ok((first, next)) => and_then(
                seq![first],
                spec_decode_records(buffer, next, (count - 1) as nat),
            ),
        }
    }
}

/// The message that `buffer` starts with.
pub open spec fn spec_decode(buffer: Seq<u8>) -> Result<MessageView, DecodeError> {
    match decode_header(buffer) {
        Err(e) => Err(e),
        Ok(header) => match spec_decode_questions(buffer, 12, header.question_count as nat) {
            Err(e) => Err(e),
            Ok((questions, after_questions)) => match spec_decode_records(
                buffer,
                after_questions,
                header.answer_count as nat,
            ) {
                Err(e) => Err(e),
                Ok((answers, after_answers)) => match spec_decode_records(
                    buffer,
                    after_answers,
                    header.authority_count as nat,
                ) {
                    Err(e) => Err(e),
                    Ok((authorities, after_authorities)) => match spec_decode_records(
                        buffer,
                        after_authorities,
                        header.additional_count as nat,
                    ) {
                        Err(e) => Err(e),
                        Ok((additionals, _)) => Ok(
                            MessageView { header, questions, answers, authorities, additionals },
                        ),
                    },
                },
            },
        },
    }
}

/// The octets that `questions` are written as from `offset` of a message on,
/// and the dictionary after that.
pub open spec fn spec_encode_questions(
    questions: Seq<QuestionView>,
    offset: int,
    dictionary: Map<Seq<Seq<u8>>, int>,
) -> (Seq<u8>, Map<Seq<Seq<u8>>, int>)
    decreases questions.len(),
{
    if questions.len() == 0 {
        (Seq::empty(), dictionary)
    } else {
        let (first, entered) = spec_encode_question(questions[0], offset, dictionary);
        let (rest, last) = spec_encode_questions(
            questions.drop_first(),
            offset + first.len(),
            entered,
        );
        (first + rest, last)
    }
}

/// The octets that `records` are written as from `offset` of a message on, and
/// the dictionary after that.
pub open spec fn spec_encode_records(
    records: Seq<RecordView>,
    offset: int,
    dictionary: Map<Seq<Seq<u8>>, int>,
) -> Result<(Seq<u8>, Map<Seq<Seq<u8>>, int>), EncodeError>
    decreases records.len(),
{
    if records.len() == 0 {
        Ok((Seq::empty(), dictionary))
    } else {
        match spec_encode_record(records[0], offset, dictionary) {
            Err(e) => Err(e),
            Ok((first, entered)) => match spec_encode_records(
                records.drop_first(),
                offset + first.len(),
                entered,
            ) {
                Err(e) => Err(e),
                Ok((rest, last)) => Ok((first + rest, last)),
            },
        }
    }
}

/// The octets that say `message`.
pub open spec fn spec_encode(message: MessageView) -> Result<Seq<u8>, EncodeError> {
    let header = encode_header(message.counted_header());
    let (questions, after_questions) = spec_encode_questions(message.questions, 12, Map::empty());
    match spec_encode_records(message.answers, 12int + questions.len(), after_questions) {
        Err(e) => Err(e),
        Ok((answers, after_answers)) => match spec_encode_records(
            message.authorities,
            12int + questions.len() + answers.len(),
            after_answers,
        ) {
            Err(e) => Err(e),
            Ok((authorities, after_authorities)) => match spec_encode_records(
                message.additionals,
                12int + questions.len() + answers.len() + authorities.len(),
                after_authorities,
            ) {
                Err(e) => Err(e),
                Ok((additionals, _)) => Ok(
                    header + questions + answers + authorities + additionals,
                ),
            },
        },
    }
}

/// The data of every record fit their 16-bit length field.
pub open spec fn records_fit(records: Seq<RecordView>) -> bool {
    forall|i: int| 0 <= i < records.len() ==> (#[trigger] records[i]).record_data.len() <= 65535
}

/// Records can be written if and only if the data of each fit their length
/// field; otherwise the payload is too large.
pub proof fn lemma_records_written_when_fit(
    records: Seq<RecordView>,
    offset: int,
    dictionary: Map<Seq<Seq<u8>>, int>,
)
    ensures
        spec_encode_records(records, offset, dictionary) is Ok <==> records_fit(records),
        spec_encode_records(records, offset, dictionary) matches Err(e) ==> e
            == EncodeError::PayloadTooLarge,
    decreases records.len(),
{
    if records.len() > 0 {
        let rest = records.drop_first();
        assert forall|i: int| 0 <= i < rest.len() implies rest[i] == records[i + 1] by {}
        match spec_encode_record(records[0], offset, dictionary) {
            Err(e) => {
                assert(!records_fit(records));
            },
            Ok((first, entered)) => {
                lemma_records_written_when_fit(rest, offset + first.len(), entered);
                if records_fit(rest) {
                    assert forall|i: int| 0 <= i < records.len() implies (#[trigger] records[i]).record_data.len()
                        <= 65535 by {
                        if i > 0 {
                            assert(records[i] == rest[i - 1]);
                        }
                    }
                } else {
                    let i = choose|i: int|
                        0 <= i < rest.len() && !((#[trigger] rest[i]).record_data.len() <= 65535);
                    assert(records[i + 1] == rest[i]);
                }
            },
        }
    }
}

/// Reads `count` questions from `offset` of `full_buffer` on.
fn decode_questions(full_buffer: &[u8], offset: usize, count: u16) -> (decoded: Result<
    (Vec<Question>, usize),
    DecodeError,
>)
    ensures
        match decoded {
            Ok((questions, next)) => spec_decode_questions(
                full_buffer@,
                offset as int,
                count as nat,
            ) == Ok::<(Seq<QuestionView>, int), DecodeError>(
                (questions_view(questions@), next as int),
            ) && questions@.len() == count && questions_canonical(questions_view(questions@)),
            Err(e) => spec_decode_questions(full_buffer@, offset as int, count as nat) == Err::<
                (Seq<QuestionView>, int),
                DecodeError,
            >(e),
        },
{
    let ghost buffer = full_buffer@;
    let mut questions: Vec<Question> = Vec::new();
    let mut current: usize = offset;
    let mut done: u16 = 0;
    assert(questions_view(questions@) =~= Seq::empty());
    assert(forall|rest: Seq<QuestionView>| Seq::<QuestionView>::empty() + rest =~= rest);
    while done < count
        invariant
            buffer == full_buffer@,
            done <= count,
            questions@.len() == done,
            questions_canonical(questions_view(questions@)),
            spec_decode_questions(buffer, offset as int, count as nat) == and_then(
                questions_view(questions@),
                spec_decode_questions(buffer, current as int, (count - done) as nat),
            ),
        decreases count - done,
    {
        let (question, next) = match decode_question(full_buffer, current) {
            Ok(found) => found,
            Err(e) => {
                return Err(e);
            },
        };
        proof {
            let before = questions_view(questions@);
            let after = questions_view(questions@.push(question));
            let rest = spec_decode_questions(buffer, next as int, (count - done - 1) as nat);
            assert(after =~= before.push(question@));
            assert forall|i: int| 0 <= i < after.len() implies question_canonical(
                #[trigger] after[i],
            ) by {
                if i < before.len() {
                    assert(after[i] == before[i]);
                }
            }
            assert(spec_decode_questions(buffer, current as int, (count - done) as nat)
                == and_then(seq![question@], rest));
            assert(and_then(before, and_then(seq![question@], rest)) == and_then(after, rest)) by {
                if let Ok((tail, end)) = rest {
                    assert(before + (seq![question@] + tail) =~= after + tail);
                }
            }
        }
        questions.push(question);
        current = next;
        done = done + 1;
    }
    assert(questions_view(questions@) + Seq::<QuestionView>::empty() =~= questions_view(
        questions@,
    ));
    Ok((questions, current))
}

/// Reads `count` records from `offset` of `full_buffer` on.
fn decode_records(full_buffer: &[u8], offset: usize, count: u16) -> (decoded: Result<
    (Vec<ResourceRecord>, usize),
    DecodeError,
>)
    ensures
        match decoded {
            Ok((records, next)) => spec_decode_records(full_buffer@, offset as int, count as nat)
                == Ok::<(Seq<RecordView>, int), DecodeError>(
                (records_view(records@), next as int),
            ) && records@.len() == count && records_canonical(records_view(records@)),
            Err(e) => spec_decode_records(full_buffer@, offset as int, count as nat) == Err::<
                (Seq<RecordView>, int),
                DecodeError,
            >(e),
        },
{
    let ghost buffer = full_buffer@;
    let mut records: Vec<ResourceRecord> = Vec::new();
    let mut current: usize = offset;
    let mut done: u16 = 0;
    assert(records_view(records@) =~= Seq::empty());
    assert(forall|rest: Seq<RecordView>| Seq::<RecordView>::empty() + rest =~= rest);
    while done < count
        invariant
            buffer == full_buffer@,
            done <= count,
            records@.len() == done,
            records_canonical(records_view(records@)),
            spec_decode_records(buffer, offset as int, count as nat) == and_then(
                records_view(records@),
                spec_decode_records(buffer, current as int, (count - done) as nat),
            ),
        decreases count - done,
    {
        let (record, next) = match decode_record(full_buffer, current) {
            Ok(found) => found,
            Err(e) => {
                return Err(e);
            },
        };
        proof {
            let before = records_view(records@);
            let after = records_view(records@.push(record));
            let rest = spec_decode_records(buffer, next as int, (count - done - 1) as nat);
            assert(after =~= before.push(record@));
            assert forall|i: int| 0 <= i < after.len() implies record_canonical(
                #[trigger] after[i],
            ) by {
                if i < before.len() {
                    assert(after[i] == before[i]);
                }
            }
            assert(spec_decode_records(buffer, current as int, (count - done) as nat) == and_then(
                seq![record@],
                rest,
            ));
            assert(and_then(before, and_then(seq![record@], rest)) == and_then(after, rest)) by {
                if let Ok((tail, end)) = rest {
                    assert(before + (seq![record@] + tail) =~= after + tail);
                }
            }
        }
        records.push(record);
        current = next;
        done = done + 1;
    }
    assert(records_view(records@) + Seq::<RecordView>::empty() =~= records_view(records@));
    Ok((records, current))
}

/// Reads the message that `buffer` starts with.
///
/// What fails in any part fails the whole; octets after the last record are
/// not looked at.
pub fn decode(buffer: &[u8]) -> (decoded: Result<Message, DecodeError>)
    ensures
        match decoded {
            Ok(message) => spec_decode(buffer@) == Ok::<MessageView, DecodeError>(message@),
            Err(e) => spec_decode(buffer@) == Err::<MessageView, DecodeError>(e),
        },
        decoded matches Ok(message) ==> {
            &&& message_canonical(message@)
            &&& message@.questions.len() == message@.header.question_count
            &&& message@.answers.len() == message@.header.answer_count
            &&& message@.authorities.len() == message@.header.authority_count
            &&& message@.additionals.len() == message@.header.additional_count
        },
{
    let header: Header = match Header::parse(buffer) {
        Ok(header) => header,
        Err(e) => {
            return Err(e);
        },
    };
    let (questions, after_questions) = match decode_questions(
        buffer,
        HEADER_LEN,
        header.question_count,
    ) {
        Ok(found) => found,
        Err(e) => {
            return Err(e);
        },
    };
    let (answers, after_answers) = match decode_records(
        buffer,
        after_questions,
        header.answer_count,
    ) {
        Ok(found) => found,
        Err(e) => {
            return Err(e);
        },
    };
    let (authorities, after_authorities) = match decode_records(
        buffer,
        after_answers,
        header.authority_count,
    ) {
        Ok(found) => found,
        Err(e) => {
            return Err(e);
        },
    };
    let (additionals, _) = match decode_records(
        buffer,
        after_authorities,
        header.additional_count,
    ) {
        Ok(found) => found,
        Err(e) => {
            return Err(e);
        },
    };
    Ok(Message { header, questions, answers, authorities, additionals })
}

/// Appends `questions` to `message` as they stand there.
fn write_questions(
    questions: &Vec<Question>,
    message: &mut Vec<u8>,
    dictionary: &mut CompressionDictionary,
)
    ensures
        (final(message)@, final(dictionary)@) == ({
            let (bytes, last) = spec_encode_questions(
                questions_view(questions@),
                old(message)@.len() as int,
                old(dictionary)@,
            );
            (old(message)@ + bytes, last)
        }),
{
    let ghost all = questions_view(questions@);
    let ghost start = message@;
    let ghost initial = dictionary@;
    let ghost whole = spec_encode_questions(all, start.len() as int, initial);
    let mut i: usize = 0;
    assert(all.skip(0) =~= all);
    while i < questions.len()
        invariant
            all == questions_view(questions@),
            whole == spec_encode_questions(all, start.len() as int, initial),
            i <= questions@.len(),
            ({
                let (bytes, last) = spec_encode_questions(
                    all.skip(i as int),
                    message@.len() as int,
                    dictionary@,
                );
                start + whole.0 == message@ + bytes && whole.1 == last
            }),
        decreases questions@.len() - i,
    {
        let ghost rest = all.skip(i as int);
        let ghost before = message@;
        assert(rest[0] == all[i as int]);
        assert(rest.drop_first() =~= all.skip(i as int + 1));
        let bytes: Vec<u8> = encode_question(&questions[i], message.len(), dictionary);
        push_bytes(message, bytes.as_slice());
        proof {
            let tail = spec_encode_questions(
                all.skip(i as int + 1),
                message@.len() as int,
                dictionary@,
            );
            assert(before + (bytes@ + tail.0) =~= message@ + tail.0);
        }
        i = i + 1;
    }
    assert(all.skip(i as int).len() == 0);
    assert(message@ + Seq::<u8>::empty() =~= message@);
}

/// Appends `records` to `message` as they stand there, up to the first whose
/// data do not fit their length field.
fn write_records(
    records: &Vec<ResourceRecord>,
    message: &mut Vec<u8>,
    dictionary: &mut CompressionDictionary,
) -> (written: Result<(), EncodeError>)
    ensures
        match written {
            Ok(_) => spec_encode_records(
                records_view(records@),
                old(message)@.len() as int,
                old(dictionary)@,
            ) matches Ok((bytes, last)) && final(message)@ == old(message)@ + bytes
                && final(dictionary)@ == last,
            Err(e) => spec_encode_records(
                records_view(records@),
                old(message)@.len() as int,
                old(dictionary)@,
            ) == Err::<(Seq<u8>, Map<Seq<Seq<u8>>, int>), EncodeError>(e),
        },
{
    let ghost all = records_view(records@);
    let ghost start = message@;
    let ghost initial = dictionary@;
    let ghost whole = spec_encode_records(all, start.len() as int, initial);
    let mut i: usize = 0;
    assert(all.skip(0) =~= all);
    while i < records.len()
        invariant
            all == records_view(records@),
            start == old(message)@,
            initial == old(dictionary)@,
            whole == spec_encode_records(all, start.len() as int, initial),
            i <= records@.len(),
            match spec_encode_records(all.skip(i as int), message@.len() as int, dictionary@) {
                Ok((bytes, last)) => whole matches Ok((all_bytes, all_last)) && start + all_bytes
                    == message@ + bytes && all_last == last,
                Err(e) => whole == Err::<(Seq<u8>, Map<Seq<Seq<u8>>, int>), EncodeError>(e),
            },
        decreases records@.len() - i,
    {
        let ghost rest = all.skip(i as int);
        let ghost before = message@;
        assert(rest[0] == all[i as int]);
        assert(rest.drop_first() =~= all.skip(i as int + 1));
        let bytes: Vec<u8> = match encode_record(&records[i], message.len(), dictionary) {
            Ok(bytes) => bytes,
            Err(e) => {
                return Err(e);
            },
        };
        push_bytes(message, bytes.as_slice());
        proof {
            let tail = spec_encode_records(
                all.skip(i as int + 1),
                message@.len() as int,
                dictionary@,
            );
            if let Ok((tail_bytes, _)) = tail {
                assert(before + (bytes@ + tail_bytes) =~= message@ + tail_bytes);
            }
        }
        i = i + 1;
    }
    assert(all.skip(i as int).len() == 0);
    assert(message@ + Seq::<u8>::empty() =~= message@);
    Ok(())
}

/// Writes `message` as its octets.
///
/// The counts in the header are those of the sections, whatever the header of
/// `message` holds. One dictionary serves all names. A record whose data are
/// longer than 65535 octets is `PayloadTooLarge`.
pub fn encode(message: &Message) -> (encoded: Result<Vec<u8>, EncodeError>)
    ensures
        match encoded {
            Ok(bytes) => spec_encode(message@) == Ok::<Seq<u8>, EncodeError>(bytes@),
            Err(e) => spec_encode(message@) == Err::<Seq<u8>, EncodeError>(e),
        },
        encoded is Ok <==> records_fit(message@.answers) && records_fit(message@.authorities)
            && records_fit(message@.additionals),
        encoded matches Err(e) ==> e == EncodeError::PayloadTooLarge,
{
    proof {
        use_type_invariant(message);
        let view = message@;
        let (questions, d1) = spec_encode_questions(view.questions, 12, Map::empty());
        lemma_records_written_when_fit(view.answers, 12int + questions.len(), d1);
        if let Ok((answers, d2)) = spec_encode_records(view.answers, 12int + questions.len(), d1) {
            lemma_records_written_when_fit(
                view.authorities,
                12int + questions.len() + answers.len(),
                d2,
            );
            if let Ok((authorities, d3)) = spec_encode_records(
                view.authorities,
                12int + questions.len() + answers.len(),
                d2,
            ) {
                lemma_records_written_when_fit(
                    view.additionals,
                    12int + questions.len() + answers.len() + authorities.len(),
                    d3,
                );
            }
        }
    }
    let header: Header = Header {
        id: message.header.id,
        message_kind: message.header.message_kind,
        opcode: message.header.opcode,
        authoritative_answer: message.header.authoritative_answer,
        truncated: message.header.truncated,
        recursion_desired: message.header.recursion_desired,
        recursion_available: message.header.recursion_available,
        response_code: message.header.response_code,
        question_count: message.questions.len() as u16,
        answer_count: message.answers.len() as u16,
        authority_count: message.authorities.len() as u16,
        additional_count: message.additionals.len() as u16,
    };
    assert(header == message@.counted_header());
    let start: [u8; 12] = header.encode();
    let mut out: Vec<u8> = Vec::new();
    push_bytes(&mut out, start.as_slice());
    let mut dictionary: CompressionDictionary = CompressionDictionary::new();
    write_questions(&message.questions, &mut out, &mut dictionary);
    match write_records(&message.answers, &mut out, &mut dictionary) {
        Err(e) => {
            return Err(e);
        },
        Ok(_) => {},
    }
    match write_records(&message.authorities, &mut out, &mut dictionary) {
        Err(e) => {
            return Err(e);
        },
        Ok(_) => {},
    }
    match write_records(&message.additionals, &mut out, &mut dictionary) {
        Err(e) => {
            return Err(e);
        },
        Ok(_) => {},
    }
    Ok(out)
}

} // verus!
