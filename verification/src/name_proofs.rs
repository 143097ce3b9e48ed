//! What holds of reading and writing names, proved of their specifications.

use crate::compression::{label_octets, plain_octets, pointer_octets, spec_encode_name};
use crate::error::DecodeError;
use crate::name::{
    expanded_len, labels_from, lemma_expanded_len_nonnegative, lemma_window_of_all,
    name_field_end, pointer_target, prepend, spec_decode_name, spec_read_name, valid_label,
    valid_name, window_field_end, window_labels_from,
};
use vstd::prelude::*;

verus! {

/// The first label and the rest take what they take together.
pub proof fn lemma_expanded_len_first(first: Seq<u8>, rest: Seq<Seq<u8>>)
    ensures
        expanded_len(seq![first] + rest) == first.len() + 1 + expanded_len(rest),
        0 <= expanded_len(rest),
{
    assert((seq![first] + rest).drop_first() =~= rest);
    lemma_expanded_len_nonnegative(rest);
}

/// Labels that were read are the labels of a name, and with the labels read
/// before them they take no more than a name can.
pub proof fn lemma_labels_from_valid(buffer: Seq<u8>, offset: int, visited: Set<int>, used: int)
    requires
        0 <= used <= 255,
        labels_from(buffer, offset, visited, used) is Ok,
    ensures
        ({
            let labels = labels_from(buffer, offset, visited, used)->Ok_0;
            &&& forall|i: int| 0 <= i < labels.len() ==> valid_label(#[trigger] labels[i])
            &&& used + expanded_len(labels) <= 255
            &&& 0 <= offset < buffer.len()
        }),
    decreases 255 - used, offset,
{
    let octet = buffer[offset];
    if octet == 0 {
    } else if octet <= 63 {
        let end = offset + 1 + octet;
        let first = buffer.subrange(offset + 1, end);
        let rest = labels_from(buffer, end, visited, used + 1 + octet);
        lemma_labels_from_valid(buffer, end, visited, used + 1 + octet);
        lemma_expanded_len_first(first, rest->Ok_0);
        let labels = seq![first] + rest->Ok_0;
        assert forall|i: int| 0 <= i < labels.len() implies valid_label(#[trigger] labels[i]) by {
            if i > 0 {
                assert(labels[i] == (rest->Ok_0)[i - 1]);
            }
        }
    } else {
        let target = pointer_target(octet, buffer[offset + 1]);
        lemma_labels_from_valid(buffer, target, visited.insert(offset), used);
    }
}

/// A name that was read is a name.
pub proof fn lemma_decoded_name_valid(buffer: Seq<u8>, start: int)
    requires
        spec_decode_name(buffer, start) is Ok,
    ensures
        valid_name((spec_decode_name(buffer, start)->Ok_0).0),
{
    lemma_labels_from_valid(buffer, start, Set::empty(), 0);
}

/// Where labels can be read, the name field has an end.
pub proof fn lemma_field_ends_where_labels_read(
    buffer: Seq<u8>,
    offset: int,
    visited: Set<int>,
    used: int,
)
    requires
        labels_from(buffer, offset, visited, used) is Ok,
    ensures
        name_field_end(buffer, offset, used) is Ok,
    decreases buffer.len() - offset,
{
    let octet = buffer[offset];
    if 1 <= octet <= 63 {
        lemma_field_ends_where_labels_read(buffer, offset + 1 + octet, visited, used + 1 + octet);
    }
}

/// A name is read if and only if its labels are, and for the same reason it is
/// not.
pub proof fn lemma_decode_name_follows_labels(buffer: Seq<u8>, start: int)
    ensures
        match labels_from(buffer, start, Set::empty(), 0) {
            Ok(labels) => spec_decode_name(buffer, start) is Ok && (spec_decode_name(
                buffer,
                start,
            )->Ok_0).0 == labels,
            Err(e) => spec_decode_name(buffer, start) == Err::<(Seq<Seq<u8>>, int), DecodeError>(
                e,
            ),
        },
{
    if labels_from(buffer, start, Set::empty(), 0) is Ok {
        lemma_field_ends_where_labels_read(buffer, start, Set::empty(), 0);
    }
}

/// Labels read from a buffer are read from every buffer that starts with it,
/// whatever was read before them that leaves them room, and whichever pointers
/// beyond the first buffer were followed before.
pub proof fn lemma_labels_from_extended(
    short: Seq<u8>,
    long: Seq<u8>,
    offset: int,
    visited: Set<int>,
    more: Set<int>,
    used: int,
    room: int,
)
    requires
        short.len() <= long.len(),
        long.subrange(0, short.len() as int) == short,
        labels_from(short, offset, visited, used) is Ok,
        forall|x: int| visited.contains(x) ==> more.contains(x),
        forall|x: int| more.contains(x) && !visited.contains(x) ==> x >= short.len(),
        0 <= room,
        room + expanded_len(labels_from(short, offset, visited, used)->Ok_0) <= 255,
    ensures
        labels_from(long, offset, more, room) == labels_from(short, offset, visited, used),
    decreases 255 - used, offset,
{
    assert forall|i: int| 0 <= i < short.len() implies short[i] == long[i] by {
        assert(long.subrange(0, short.len() as int)[i] == long[i]);
    }
    let octet = short[offset];
    if octet == 0 {
    } else if octet <= 63 {
        let end = offset + 1 + octet;
        let first = short.subrange(offset + 1, end);
        let rest = labels_from(short, end, visited, used + 1 + octet);
        assert(long.subrange(offset + 1, end) =~= first);
        lemma_expanded_len_first(first, rest->Ok_0);
        lemma_labels_from_extended(
            short,
            long,
            end,
            visited,
            more,
            used + 1 + octet,
            room + 1 + octet,
        );
    } else {
        let target = pointer_target(octet, short[offset + 1]);
        lemma_labels_from_extended(
            short,
            long,
            target,
            visited.insert(offset),
            more.insert(offset),
            used,
            room,
        );
    }
}

/// Whether reading labels from `offset` comes to read them from `at`, with
/// `seen` the offsets of the pointers followed by then and `taken` the octets
/// that the labels read by then take. `window` holds the octets of the message
/// from offset `base` on.
pub open spec fn reaches(
    window: Seq<u8>,
    base: int,
    offset: int,
    visited: Set<int>,
    used: int,
    at: int,
    seen: Set<int>,
    taken: int,
) -> bool
    decreases 255 - used, offset,
{
    (offset == at && visited =~= seen && used == taken) || if base < 0 || offset < base || offset
        >= base + window.len() {
        false
    } else {
        let octet = window[offset - base];
        if octet == 0 {
            false
        } else if octet <= 63 {
            let end = offset + 1 + octet;
            end <= base + window.len() && used + 1 + octet <= 255 && reaches(
                window,
                base,
                end,
                visited,
                used + 1 + octet,
                at,
                seen,
                taken,
            )
        } else if octet >= 192 {
            offset + 1 < base + window.len() && {
                let target = pointer_target(octet, window[offset + 1 - base]);
                target < offset && !visited.contains(target) && reaches(
                    window,
                    base,
                    target,
                    visited.insert(offset),
                    used,
                    at,
                    seen,
                    taken,
                )
            }
        } else {
            false
        }
    }
}

/// What fails where the reading comes to fails the reading.
pub proof fn lemma_failure_reached(
    window: Seq<u8>,
    base: int,
    offset: int,
    visited: Set<int>,
    used: int,
    at: int,
    seen: Set<int>,
    taken: int,
)
    requires
        reaches(window, base, offset, visited, used, at, seen, taken),
        window_labels_from(window, base, at, seen, taken) is Err,
    ensures
        window_labels_from(window, base, offset, visited, used) == window_labels_from(
            window,
            base,
            at,
            seen,
            taken,
        ),
    decreases 255 - used, offset,
{
    if offset == at && visited =~= seen && used == taken {
    } else {
        let octet = window[offset - base];
        if octet <= 63 {
            lemma_failure_reached(
                window,
                base,
                offset + 1 + octet,
                visited,
                used + 1 + octet,
                at,
                seen,
                taken,
            );
        } else {
            let target = pointer_target(octet, window[offset + 1 - base]);
            lemma_failure_reached(
                window,
                base,
                target,
                visited.insert(offset),
                used,
                at,
                seen,
                taken,
            );
        }
    }
}

/// A pointer that does not point before itself is an invalid pointer, wherever
/// the reading of a name comes to it: in a window of the message, and so in
/// the whole message.
pub proof fn lemma_pointer_not_backward_fails(
    window: Seq<u8>,
    base: int,
    start: int,
    at: int,
    seen: Set<int>,
    taken: int,
)
    requires
        reaches(window, base, start, Set::empty(), 0, at, seen, taken),
        0 <= base <= at,
        at + 1 < base + window.len(),
        window[at - base] >= 192,
        pointer_target(window[at - base], window[at + 1 - base]) >= at,
    ensures
        spec_read_name(window, base, start) == Err::<(Seq<Seq<u8>>, int), DecodeError>(
            DecodeError::InvalidPointer,
        ),
        base == 0 ==> spec_decode_name(window, start) == Err::<(Seq<Seq<u8>>, int), DecodeError>(
            DecodeError::InvalidPointer,
        ),
{
    assert(window_labels_from(window, base, at, seen, taken) == Err::<
        Seq<Seq<u8>>,
        DecodeError,
    >(DecodeError::InvalidPointer));
    lemma_failure_reached(window, base, start, Set::empty(), 0, at, seen, taken);
    lemma_window_of_all(window, start, Set::empty(), 0);
}

/// A pointer to an offset that a pointer was already followed from is an
/// invalid pointer, wherever the reading of a name comes to it: in a window of
/// the message, and so in the whole message.
pub proof fn lemma_pointer_revisiting_fails(
    window: Seq<u8>,
    base: int,
    start: int,
    at: int,
    seen: Set<int>,
    taken: int,
)
    requires
        reaches(window, base, start, Set::empty(), 0, at, seen, taken),
        0 <= base <= at,
        at + 1 < base + window.len(),
        window[at - base] >= 192,
        seen.contains(pointer_target(window[at - base], window[at + 1 - base])),
    ensures
        spec_read_name(window, base, start) == Err::<(Seq<Seq<u8>>, int), DecodeError>(
            DecodeError::InvalidPointer,
        ),
        base == 0 ==> spec_decode_name(window, start) == Err::<(Seq<Seq<u8>>, int), DecodeError>(
            DecodeError::InvalidPointer,
        ),
{
    assert(window_labels_from(window, base, at, seen, taken) == Err::<
        Seq<Seq<u8>>,
        DecodeError,
    >(DecodeError::InvalidPointer));
    lemma_failure_reached(window, base, start, Set::empty(), 0, at, seen, taken);
    lemma_window_of_all(window, start, Set::empty(), 0);
}

/// What a window of the message decides of the labels, every message with
/// that window decides the same: the labels, and every failure but that of an
/// octet the window does not hold.
pub proof fn lemma_window_in_message(
    before: Seq<u8>,
    window: Seq<u8>,
    offset: int,
    visited: Set<int>,
    used: int,
)
    requires
        window_labels_from(window, before.len() as int, offset, visited, used) != Err::<
            Seq<Seq<u8>>,
            DecodeError,
        >(DecodeError::Truncated),
    ensures
        labels_from(before + window, offset, visited, used) == window_labels_from(
            window,
            before.len() as int,
            offset,
            visited,
            used,
        ),
    decreases 255 - used, offset,
{
    let base = before.len() as int;
    let whole = before + window;
    assert forall|i: int| base <= i < base + window.len() implies whole[i] == window[i - base] by {}
    let octet = window[offset - base];
    if octet == 0 {
    } else if octet <= 63 {
        let end = offset + 1 + octet;
        if used + 1 + octet <= 255 {
            assert(whole.subrange(offset + 1, end) =~= window.subrange(
                offset + 1 - base,
                end - base,
            ));
            lemma_window_in_message(before, window, end, visited, used + 1 + octet);
        }
    } else if octet >= 192 {
        let target = pointer_target(octet, window[offset + 1 - base]);
        if target < offset && !visited.contains(target) {
            lemma_window_in_message(before, window, target, visited.insert(offset), used);
        }
    }
}

/// A name field that starts in a window of the message ends where it ends in
/// every message with that window.
pub proof fn lemma_window_field_in_message(
    before: Seq<u8>,
    window: Seq<u8>,
    offset: int,
    used: int,
)
    requires
        before.len() <= offset,
    ensures
        name_field_end(before + window, offset, used) == window_field_end(
            window,
            before.len() as int,
            offset,
            used,
        ),
    decreases before.len() + window.len() - offset,
{
    let base = before.len() as int;
    let whole = before + window;
    assert forall|i: int| base <= i < base + window.len() implies whole[i] == window[i - base] by {}
    if offset < base + window.len() {
        let octet = window[offset - base];
        if 1 <= octet <= 63 {
            let end = offset + 1 + octet;
            if end <= base + window.len() && used + 1 + octet <= 255 {
                lemma_window_field_in_message(before, window, end, used + 1 + octet);
            }
        }
    }
}

/// What is read of a name from the octets of a message from some offset on is
/// what is read of it from the whole message, whatever stands before those
/// octets, unless an octet was wanted that they do not hold.
pub proof fn lemma_read_name_in_message(before: Seq<u8>, window: Seq<u8>, start: int)
    requires
        before.len() <= start,
        spec_read_name(window, before.len() as int, start) != Err::<
            (Seq<Seq<u8>>, int),
            DecodeError,
        >(DecodeError::Truncated),
    ensures
        spec_decode_name(before + window, start) == spec_read_name(
            window,
            before.len() as int,
            start,
        ),
{
    lemma_window_in_message(before, window, start, Set::empty(), 0);
    lemma_window_field_in_message(before, window, start, 0);
}

/// A name written out in full in a window of the message is read from where
/// it stands as its labels, and its field ends after its zero octet.
pub proof fn lemma_plain_octets_read(
    labels: Seq<Seq<u8>>,
    window: Seq<u8>,
    base: int,
    at: int,
    visited: Set<int>,
    used: int,
)
    requires
        valid_name(labels),
        0 <= used,
        used + expanded_len(labels) <= 255,
        0 <= base <= at,
        at - base + plain_octets(labels).len() <= window.len(),
        window.subrange(at - base, at - base + plain_octets(labels).len()) == plain_octets(
            labels,
        ),
    ensures
        window_labels_from(window, base, at, visited, used) == Ok::<Seq<Seq<u8>>, DecodeError>(
            labels,
        ),
        window_field_end(window, base, at, used) == Ok::<int, DecodeError>(
            at + plain_octets(labels).len(),
        ),
    decreases labels.len(),
{
    let plain = plain_octets(labels);
    let here = at - base;
    assert forall|i: int| 0 <= i < plain.len() implies window[here + i] == plain[i] by {
        assert(window.subrange(here, here + plain.len())[i] == window[here + i]);
    }
    if labels.len() == 0 {
        assert(plain[0] == 0);
        assert(labels =~= Seq::<Seq<u8>>::empty());
    } else {
        let first = labels[0];
        let rest = labels.drop_first();
        let head = label_octets(first);
        let tail = plain_octets(rest);
        assert(labels =~= seq![first] + rest);
        lemma_expanded_len_first(first, rest);
        assert(valid_label(first));
        assert(valid_name(rest)) by {
            assert forall|i: int| 0 <= i < rest.len() implies valid_label(#[trigger] rest[i]) by {
                assert(rest[i] == labels[i + 1]);
            }
        }
        assert(plain == head + tail);
        assert(plain[0] == first.len());
        assert(window[here] == first.len() as u8);
        let end = at + 1 + first.len();
        assert(window.subrange(here + 1, here + 1 + first.len()) =~= first) by {
            assert forall|i: int| 0 <= i < first.len() implies window[here + 1 + i]
                == first[i] by {
                assert(plain[1 + i] == first[i]);
            }
        }
        assert(window.subrange(end - base, end - base + tail.len()) =~= tail) by {
            assert forall|i: int| 0 <= i < tail.len() implies window[end - base + i]
                == tail[i] by {
                assert(plain[head.len() + i] == tail[i]);
            }
        }
        lemma_plain_octets_read(rest, window, base, end, visited, used + 1 + first.len());
        assert(window_labels_from(window, base, at, visited, used) == prepend(
            seq![first],
            window_labels_from(window, base, end, visited, used + 1 + first.len()),
        ));
    }
}

/// A name written out in full is read back from the octets it was written as,
/// at whatever offset of a message they stand and whatever follows them; and
/// written out in full is what a name is written as where nothing is known to
/// point to.
pub proof fn lemma_plain_name_read_back(labels: Seq<Seq<u8>>, offset: int, more: Seq<u8>)
    requires
        valid_name(labels),
        0 <= offset,
    ensures
        spec_read_name(plain_octets(labels) + more, offset, offset) == Ok::<
            (Seq<Seq<u8>>, int),
            DecodeError,
        >((labels, offset + plain_octets(labels).len())),
        spec_encode_name(labels, offset, Map::empty()).0 == plain_octets(labels),
{
    lemma_unknown_name_written_plain(labels, offset, Map::empty());
    let plain = plain_octets(labels);
    let window = plain + more;
    assert(window.subrange(0, plain.len() as int) =~= plain);
    lemma_expanded_len_nonnegative(labels);
    lemma_plain_octets_read(labels, window, offset, offset, Set::empty(), 0);
}

/// Where the dictionary knows no ending of a name, the name is written out in
/// full.
pub proof fn lemma_unknown_name_written_plain(
    labels: Seq<Seq<u8>>,
    offset: int,
    dictionary: Map<Seq<Seq<u8>>, int>,
)
    requires
        forall|key: Seq<Seq<u8>>| #[trigger] dictionary.contains_key(key) ==> key.len()
            > labels.len(),
    ensures
        spec_encode_name(labels, offset, dictionary).0 == plain_octets(labels),
    decreases labels.len(),
{
    if labels.len() > 0 {
        let entered = if offset < 16384 {
            dictionary.insert(labels, offset)
        } else {
            dictionary
        };
        lemma_unknown_name_written_plain(
            labels.drop_first(),
            offset + label_octets(labels[0]).len(),
            entered,
        );
    }
}

/// Every entry of the dictionary gives an offset that a pointer can name and
/// at which the message holds the entry's labels.
#[verifier::opaque]
pub open spec fn dictionary_matches(dictionary: Map<Seq<Seq<u8>>, int>, message: Seq<u8>) -> bool {
    forall|key: Seq<Seq<u8>>| #[trigger]
        dictionary.contains_key(key) ==> {
            &&& 0 <= dictionary[key] < 16384
            &&& labels_from(message, dictionary[key], Set::empty(), 0) == Ok::<
                Seq<Seq<u8>>,
                DecodeError,
            >(key)
        }
}

/// The dictionary that knows nothing matches every message.
pub proof fn lemma_nothing_matches(message: Seq<u8>)
    ensures
        dictionary_matches(Map::empty(), message),
{
    reveal(dictionary_matches);
}

/// What is stated of writing the `labels` that end a name after `written`,
/// where `older` is the dictionary as it was before the name was begun and
/// `message` what it matched then.
spec fn suffix_written(
    labels: Seq<Seq<u8>>,
    written: Seq<u8>,
    dictionary: Map<Seq<Seq<u8>>, int>,
    used: int,
) -> bool {
    let (bytes, after) = spec_encode_name(labels, written.len() as int, dictionary);
    let whole = written + bytes;
    &&& labels_from(whole, written.len() as int, Set::empty(), used) == Ok::<
        Seq<Seq<u8>>,
        DecodeError,
    >(labels)
    &&& name_field_end(whole, written.len() as int, used) == Ok::<int, DecodeError>(
        whole.len() as int,
    )
    &&& forall|key: Seq<Seq<u8>>| #[trigger]
        dictionary.contains_key(key) ==> after.contains_key(key) && after[key] == dictionary[key]
    &&& forall|key: Seq<Seq<u8>>| #[trigger]
        after.contains_key(key) && !dictionary.contains_key(key) ==> {
            &&& 0 <= after[key] < 16384
            &&& labels_from(whole, after[key], Set::empty(), 0) == Ok::<
                Seq<Seq<u8>>,
                DecodeError,
            >(key)
        }
}

proof fn lemma_suffix_written(
    labels: Seq<Seq<u8>>,
    written: Seq<u8>,
    dictionary: Map<Seq<Seq<u8>>, int>,
    older: Map<Seq<Seq<u8>>, int>,
    message: Seq<u8>,
    used: int,
)
    requires
        valid_name(labels),
        0 <= used,
        used + expanded_len(labels) <= 255,
        message.len() <= written.len(),
        written.subrange(0, message.len() as int) == message,
        dictionary_matches(older, message),
        forall|key: Seq<Seq<u8>>| #[trigger]
            older.contains_key(key) ==> dictionary.contains_key(key) && dictionary[key]
                == older[key],
        forall|key: Seq<Seq<u8>>| #[trigger]
            dictionary.contains_key(key) && !older.contains_key(key) ==> key.len() > labels.len(),
    ensures
        suffix_written(labels, written, dictionary, used),
    decreases labels.len(),
{
    reveal(dictionary_matches);
    let here = written.len() as int;
    let (bytes, after) = spec_encode_name(labels, here, dictionary);
    let whole = written + bytes;
    if labels.len() == 0 {
        assert(labels =~= Seq::<Seq<u8>>::empty());
        assert(whole[here] == 0);
    } else if dictionary.contains_key(labels) {
        assert(older.contains_key(labels));
        let target = dictionary[labels];
        lemma_labels_from_valid(message, target, Set::empty(), 0);
        assert(bytes == pointer_octets(target));
        assert(whole[here] == (192 + target / 256) as u8);
        assert(whole[here + 1] == (target % 256) as u8);
        assert(pointer_target(whole[here], whole[here + 1]) == target);
        assert(whole.subrange(0, message.len() as int) =~= message);
        lemma_labels_from_extended(
            message,
            whole,
            target,
            Set::empty(),
            Set::<int>::empty().insert(here),
            0,
            used,
        );
    } else {
        let first = labels[0];
        let rest = labels.drop_first();
        let head = label_octets(first);
        let entered = if here < 16384 {
            dictionary.insert(labels, here)
        } else {
            dictionary
        };
        let longer = written + head;
        assert(labels =~= seq![first] + rest);
        lemma_expanded_len_first(first, rest);
        assert(valid_label(first));
        assert(valid_name(rest)) by {
            assert forall|i: int| 0 <= i < rest.len() implies valid_label(#[trigger] rest[i]) by {
                assert(rest[i] == labels[i + 1]);
            }
        }
        assert(longer.subrange(0, message.len() as int) =~= message);
        assert forall|key: Seq<Seq<u8>>| #[trigger] older.contains_key(key) implies entered.contains_key(
            key,
        ) && entered[key] == older[key] by {
            assert(dictionary.contains_key(key));
        }
        lemma_suffix_written(rest, longer, entered, older, message, used + 1 + first.len());
        lemma_suffix_written(rest, longer, entered, older, message, 1 + first.len() as int);
        let (tail, last) = spec_encode_name(rest, longer.len() as int, entered);
        assert(bytes == head + tail);
        assert(after == last);
        assert(whole =~= longer + tail);
        assert(whole[here] == first.len() as u8);
        assert(whole.subrange(here + 1, here + 1 + first.len()) =~= first);
        assert(longer.len() == here + 1 + first.len());
        assert(labels_from(whole, here, Set::empty(), used) == prepend(
            seq![first],
            labels_from(whole, longer.len() as int, Set::empty(), used + 1 + first.len()),
        ));
        assert(labels_from(whole, here, Set::empty(), 0) == prepend(
            seq![first],
            labels_from(whole, longer.len() as int, Set::empty(), 1 + first.len() as int),
        ));
        assert forall|key: Seq<Seq<u8>>| #[trigger] dictionary.contains_key(key) implies after.contains_key(
            key,
        ) && after[key] == dictionary[key] by {
            assert(entered.contains_key(key));
        }
        assert forall|key: Seq<Seq<u8>>| #[trigger]
            after.contains_key(key) && !dictionary.contains_key(key) implies {
            &&& 0 <= after[key] < 16384
            &&& labels_from(whole, after[key], Set::empty(), 0) == Ok::<Seq<Seq<u8>>, DecodeError>(
                key,
            )
        } by {
            if entered.contains_key(key) {
                assert(key == labels);
                assert(after[key] == here);
            }
        }
    }
}

/// A name that is written where a message ends is read back from there, with
/// its field ending where the new message ends; and the dictionary that matched
/// the message before matches it after.
pub proof fn lemma_encoded_name_decodes(
    labels: Seq<Seq<u8>>,
    message: Seq<u8>,
    dictionary: Map<Seq<Seq<u8>>, int>,
)
    requires
        valid_name(labels),
        dictionary_matches(dictionary, message),
    ensures
        ({
            let (bytes, after) = spec_encode_name(labels, message.len() as int, dictionary);
            &&& spec_decode_name(message + bytes, message.len() as int) == Ok::<
                (Seq<Seq<u8>>, int),
                DecodeError,
            >((labels, (message.len() + bytes.len()) as int))
            &&& dictionary_matches(after, message + bytes)
            &&& bytes.len() > 0
        }),
{
    reveal(dictionary_matches);
    let (bytes, after) = spec_encode_name(labels, message.len() as int, dictionary);
    let whole = message + bytes;
    assert(message.subrange(0, message.len() as int) =~= message);
    lemma_expanded_len_nonnegative(labels);
    lemma_suffix_written(labels, message, dictionary, dictionary, message, 0);
    crate::name::lemma_name_field_end_bounds(whole, message.len() as int, 0);
    assert forall|key: Seq<Seq<u8>>| #[trigger] after.contains_key(key) implies {
        &&& 0 <= after[key] < 16384
        &&& labels_from(whole, after[key], Set::empty(), 0) == Ok::<Seq<Seq<u8>>, DecodeError>(
            key,
        )
    } by {
        if dictionary.contains_key(key) {
            assert(after[key] == dictionary[key]);
            lemma_labels_from_valid(message, dictionary[key], Set::empty(), 0);
            assert(whole.subrange(0, message.len() as int) =~= message);
            lemma_labels_from_extended(
                message,
                whole,
                dictionary[key],
                Set::empty(),
                Set::empty(),
                0,
                0,
            );
        }
    }
}

/// A name written at the start of an empty message, with nothing to point to,
/// is read back from its octets.
pub proof fn lemma_plain_name_round_trip(labels: Seq<Seq<u8>>)
    requires
        valid_name(labels),
    ensures
        ({
            let bytes = spec_encode_name(labels, 0, Map::empty()).0;
            spec_decode_name(bytes, 0) == Ok::<(Seq<Seq<u8>>, int), DecodeError>(
                (labels, bytes.len() as int),
            )
        }),
{
    let bytes = spec_encode_name(labels, 0, Map::empty()).0;
    lemma_nothing_matches(Seq::empty());
    lemma_encoded_name_decodes(labels, Seq::empty(), Map::empty());
    assert(Seq::<u8>::empty() + bytes =~= bytes);
}

} // verus!
