//! Domain names: sequences of labels, and how a message carries them.
//!
//! A name is written label by label, each as a length octet from 1 to 63 and
//! that many octets. It ends either with a zero octet or with a two-octet
//! pointer (top bits `11`) to an earlier offset of the message, where the rest
//! of the name is read.

use crate::error::DecodeError;
use std::collections::HashSet;
use vstd::prelude::*;

verus! {

/// The most octets a label can have.
pub const MAX_LABEL_LEN: usize = 63;

/// The most octets the labels of a name can take, one length octet each
/// included.
pub const MAX_NAME_LEN: usize = 255;

/// The smallest octet that starts a pointer.
pub const POINTER_TAG: u8 = 192;

/// The number of offsets that a pointer can name.
pub const POINTER_LIMIT: usize = 16384;

/// What the labels take on the wire: for each its octets and one length octet.
pub open spec fn expanded_len(labels: Seq<Seq<u8>>) -> int
    decreases labels.len(),
{
    if labels.len() == 0 {
        0
    } else {
        labels[0].len() + 1 + expanded_len(labels.drop_first())
    }
}

/// A label has from 1 to 63 octets.
pub open spec fn valid_label(label: Seq<u8>) -> bool {
    1 <= label.len() <= 63
}

/// A name has valid labels that take at most 255 octets together.
pub open spec fn valid_name(labels: Seq<Seq<u8>>) -> bool {
    &&& forall|i: int| 0 <= i < labels.len() ==> valid_label(#[trigger] labels[i])
    &&& expanded_len(labels) <= 255
}

/// The offset that a pointer names: the low six bits of its first octet, then
/// its second octet.
pub open spec fn pointer_target(first: u8, second: u8) -> int {
    (first - 192) * 256 + second
}

/// `prefix` put before the labels that were read after it, if they were read.
pub open spec fn prepend(prefix: Seq<Seq<u8>>, rest: Result<Seq<Seq<u8>>, DecodeError>) -> Result<
    Seq<Seq<u8>>,
    DecodeError,
> {
    match rest {
        Ok(labels) => Ok(prefix + labels),
        Err(e) => Err(e),
    }
}

/// The labels read from `offset` on, where `visited` holds the offsets of the
/// pointers followed so far and the labels read so far take `used` octets.
///
/// A label is read in place. A pointer is followed if it names an offset
/// before its own that is not in `visited`.
pub open spec fn labels_from(buffer: Seq<u8>, offset: int, visited: Set<int>, used: int) -> Result<
    Seq<Seq<u8>>,
    DecodeError,
>
    decreases 255 - used, offset,
{
    if offset < 0 || offset >= buffer.len() {
        Err(DecodeError::Truncated)
    } else {
        let octet = buffer[offset];
        if octet == 0 {
            Ok(Seq::empty())
        } else if octet <= 63 {
            let end = offset + 1 + octet;
            if end > buffer.len() {
                Err(DecodeError::Truncated)
            } else if used + 1 + octet > 255 {
                Err(DecodeError::NameTooLong)
            } else {
                prepend(
                    seq![buffer.subrange(offset + 1, end)],
                    labels_from(buffer, end, visited, used + 1 + octet),
                )
            }
        } else if octet >= 192 {
            if offset + 1 >= buffer.len() {
                Err(DecodeError::Truncated)
            } else {
                let target = pointer_target(octet, buffer[offset + 1]);
                if target >= offset || visited.contains(target) {
                    Err(DecodeError::InvalidPointer)
                } else {
                    labels_from(buffer, target, visited.insert(offset), used)
                }
            }
        } else {
            Err(DecodeError::InvalidLabelLength)
        }
    }
}

/// Where the name field that starts at `offset` ends: after its zero octet, or
/// after its first pointer. The labels before `offset` take `used` octets.
pub open spec fn name_field_end(buffer: Seq<u8>, offset: int, used: int) -> Result<
    int,
    DecodeError,
>
    decreases buffer.len() - offset,
{
    if offset < 0 || offset >= buffer.len() {
        Err(DecodeError::Truncated)
    } else {
        let octet = buffer[offset];
        if octet == 0 {
            Ok(offset + 1)
        } else if octet <= 63 {
            let end = offset + 1 + octet;
            if end > buffer.len() {
                Err(DecodeError::Truncated)
            } else if used + 1 + octet > 255 {
                Err(DecodeError::NameTooLong)
            } else {
                name_field_end(buffer, end, used + 1 + octet)
            }
        } else if octet >= 192 {
            if offset + 1 >= buffer.len() {
                Err(DecodeError::Truncated)
            } else {
                Ok(offset + 2)
            }
        } else {
            Err(DecodeError::InvalidLabelLength)
        }
    }
}

/// The name whose field starts at `start`, and the offset after that field.
pub open spec fn spec_decode_name(buffer: Seq<u8>, start: int) -> Result<
    (Seq<Seq<u8>>, int),
    DecodeError,
> {
    match labels_from(buffer, start, Set::empty(), 0) {
        Ok(labels) => match name_field_end(buffer, start, 0) {
            Ok(end) => Ok((labels, end)),
            Err(e) => Err(e),
        },
        Err(e) => Err(e),
    }
}

/// The labels of a list of byte vectors.
pub open spec fn labels_view(labels: Seq<Vec<u8>>) -> Seq<Seq<u8>> {
    Seq::new(labels.len(), |i: int| labels[i]@)
}

/// A domain name: its labels, from the most specific to the most general.
///
/// Every label has from 1 to 63 octets, and together with one length octet
/// each the labels take at most 255 octets.
#[derive(Debug, PartialEq, Eq)]
pub struct DomainName {
    labels: Vec<Vec<u8>>,
}

impl Clone for DomainName {
    fn clone(&self) -> (copy: DomainName)
        ensures
            copy@ == self@,
    {
        proof {
            use_type_invariant(self);
        }
        let labels: Vec<Vec<u8>> = copy_labels(&self.labels, 0);
        assert(labels_view(self.labels@).skip(0) =~= labels_view(self.labels@));
        DomainName { labels }
    }
}

impl View for DomainName {
    type V = Seq<Seq<u8>>;

    closed spec fn view(&self) -> Seq<Seq<u8>> {
        labels_view(self.labels@)
    }
}

impl DomainName {
    #[verifier::type_invariant]
    pub closed spec fn well_formed(&self) -> bool {
        valid_name(self@)
    }

    /// The name with the given labels, if they are the labels of a name.
    pub fn new(labels: Vec<Vec<u8>>) -> (name: Option<DomainName>)
        ensures
            name is Some <==> valid_name(labels_view(labels@)),
            name matches Some(n) ==> n@ == labels_view(labels@),
    {
        let mut used: usize = 0;
        let mut i: usize = 0;
        proof {
            lemma_expanded_len_prefix(labels_view(labels@), 0);
        }
        while i < labels.len()
            invariant
                i <= labels.len(),
                used == expanded_len(labels_view(labels@).take(i as int)),
                used <= 255,
                forall|j: int| 0 <= j < i ==> valid_label(#[trigger] labels_view(labels@)[j]),
            decreases labels.len() - i,
        {
            let len: usize = labels[i].len();
            proof {
                lemma_expanded_len_prefix(labels_view(labels@), i as int + 1);
                lemma_expanded_len_monotone(labels_view(labels@), i as int + 1);
            }
            if len == 0 || len > MAX_LABEL_LEN {
                assert(!valid_label(labels_view(labels@)[i as int]));
                return None;
            }
            if used + len + 1 > MAX_NAME_LEN {
                return None;
            }
            used = used + len + 1;
            i = i + 1;
        }
        assert(labels_view(labels@).take(i as int) =~= labels_view(labels@));
        Some(DomainName { labels })
    }

    /// The labels of this name.
    pub fn labels(&self) -> (labels: &Vec<Vec<u8>>)
        ensures
            labels_view(labels@) == self@,
            valid_name(self@),
    {
        proof {
            use_type_invariant(self);
        }
        &self.labels
    }
}

/// A copy of the labels from index `from` on.
pub fn copy_labels(labels: &Vec<Vec<u8>>, from: usize) -> (copy: Vec<Vec<u8>>)
    requires
        from <= labels@.len(),
    ensures
        labels_view(copy@) == labels_view(labels@).skip(from as int),
{
    let mut copy: Vec<Vec<u8>> = Vec::new();
    let mut i: usize = from;
    while i < labels.len()
        invariant
            from <= i <= labels.len(),
            copy@.len() == i - from,
            labels_view(copy@) =~= labels_view(labels@).subrange(from as int, i as int),
        decreases labels.len() - i,
    {
        let label: Vec<u8> = vstd::slice::slice_to_vec(labels[i].as_slice());
        proof {
            let wanted = labels_view(labels@).subrange(from as int, i as int + 1);
            let grown = labels_view(copy@.push(label));
            assert(grown.len() == wanted.len());
            assert forall|j: int| 0 <= j < grown.len() implies grown[j] == wanted[j] by {
                if j < copy@.len() {
                    assert(grown[j] == labels_view(copy@)[j]);
                }
            }
            assert(grown =~= wanted);
        }
        copy.push(label);
        i = i + 1;
    }
    assert(labels_view(labels@).subrange(from as int, i as int) =~= labels_view(labels@).skip(
        from as int,
    ));
    copy
}

/// The labels up to `n` take what those up to `n - 1` take and the last.
pub proof fn lemma_expanded_len_prefix(labels: Seq<Seq<u8>>, n: int)
    requires
        0 <= n <= labels.len(),
    ensures
        expanded_len(labels.take(0)) == 0,
        n > 0 ==> expanded_len(labels.take(n)) == expanded_len(labels.take(n - 1)) + labels[n
            - 1].len() + 1,
{
    assert(labels.take(0).len() == 0);
    if n > 0 {
        assert(labels.take(n) =~= labels.take(n - 1).push(labels[n - 1]));
        lemma_expanded_len_push(labels.take(n - 1), labels[n - 1]);
    }
}

/// One more label takes its octets and a length octet more.
pub proof fn lemma_expanded_len_push(labels: Seq<Seq<u8>>, label: Seq<u8>)
    ensures
        expanded_len(labels.push(label)) == expanded_len(labels) + label.len() + 1,
    decreases labels.len(),
{
    if labels.len() == 0 {
        assert(labels.push(label).drop_first() =~= labels);
    } else {
        assert(labels.push(label).drop_first() =~= labels.drop_first().push(label));
        lemma_expanded_len_push(labels.drop_first(), label);
    }
}

/// The first `n` labels take no more than all of them, and nothing takes less
/// than nothing.
pub proof fn lemma_expanded_len_monotone(labels: Seq<Seq<u8>>, n: int)
    requires
        0 <= n <= labels.len(),
    ensures
        0 <= expanded_len(labels.take(n)) <= expanded_len(labels),
    decreases labels.len() - n,
{
    lemma_expanded_len_nonnegative(labels.take(n));
    if n < labels.len() {
        lemma_expanded_len_prefix(labels, n + 1);
        lemma_expanded_len_monotone(labels, n + 1);
    } else {
        assert(labels.take(n) =~= labels);
    }
}

/// Labels never take less than nothing.
pub proof fn lemma_expanded_len_nonnegative(labels: Seq<Seq<u8>>)
    ensures
        0 <= expanded_len(labels),
    decreases labels.len(),
{
    if labels.len() > 0 {
        lemma_expanded_len_nonnegative(labels.drop_first());
    }
}

/// A name field ends after it starts and within the buffer.
pub proof fn lemma_name_field_end_bounds(buffer: Seq<u8>, offset: int, used: int)
    ensures
        name_field_end(buffer, offset, used) matches Ok(end) ==> 0 <= offset < end <= buffer.len(),
    decreases buffer.len() - offset,
{
    if 0 <= offset < buffer.len() {
        let octet = buffer[offset];
        if 1 <= octet <= 63 && offset + 1 + octet <= buffer.len() && used + 1 + octet <= 255 {
            lemma_name_field_end_bounds(buffer, offset + 1 + octet, used + 1 + octet);
        }
    }
}

/// Finds where the name field that starts at `start` ends, without following
/// its pointer.
pub fn skip_name(buffer: &[u8], start: usize) -> (found: Result<usize, DecodeError>)
    ensures
        match found {
            Ok(end) => name_field_end(buffer@, start as int, 0) == Ok::<int, DecodeError>(
                end as int,
            ),
            Err(e) => name_field_end(buffer@, start as int, 0) == Err::<int, DecodeError>(e),
        },
        found matches Ok(end) ==> start < end <= buffer@.len(),
{
    let mut current: usize = start;
    let mut used: usize = 0;
    loop
        invariant
            used <= 255,
            start <= current,
            name_field_end(buffer@, start as int, 0) == name_field_end(
                buffer@,
                current as int,
                used as int,
            ),
        decreases buffer@.len() - current,
    {
        if current >= buffer.len() {
            return Err(DecodeError::Truncated);
        }
        let octet: u8 = buffer[current];
        if octet == 0 {
            return Ok(current + 1);
        } else if octet <= 63 {
            let len: usize = octet as usize;
            if len > buffer.len() - current - 1 {
                return Err(DecodeError::Truncated);
            }
            if used + 1 + len > MAX_NAME_LEN {
                return Err(DecodeError::NameTooLong);
            }
            used = used + 1 + len;
            current = current + 1 + len;
        } else if octet >= POINTER_TAG {
            if current + 1 >= buffer.len() {
                return Err(DecodeError::Truncated);
            }
            return Ok(current + 2);
        } else {
            return Err(DecodeError::InvalidLabelLength);
        }
    }
}

/// The labels read from `offset` on where only a window of the message is at
/// hand: `window` holds the octets of the message from offset `base` on.
///
/// It is `labels_from` with every octet outside the window missing, so that
/// reading one, before the window or after it, is `Truncated`.
pub open spec fn window_labels_from(
    window: Seq<u8>,
    base: int,
    offset: int,
    visited: Set<int>,
    used: int,
) -> Result<Seq<Seq<u8>>, DecodeError>
    decreases 255 - used, offset,
{
    if base < 0 || offset < base || offset >= base + window.len() {
        Err(DecodeError::Truncated)
    } else {
        let octet = window[offset - base];
        if octet == 0 {
            Ok(Seq::empty())
        } else if octet <= 63 {
            let end = offset + 1 + octet;
            if end > base + window.len() {
                Err(DecodeError::Truncated)
            } else if used + 1 + octet > 255 {
                Err(DecodeError::NameTooLong)
            } else {
                prepend(
                    seq![window.subrange(offset + 1 - base, end - base)],
                    window_labels_from(window, base, end, visited, used + 1 + octet),
                )
            }
        } else if octet >= 192 {
            if offset + 1 >= base + window.len() {
                Err(DecodeError::Truncated)
            } else {
                let target = pointer_target(octet, window[offset + 1 - base]);
                if target >= offset || visited.contains(target) {
                    Err(DecodeError::InvalidPointer)
                } else {
                    window_labels_from(window, base, target, visited.insert(offset), used)
                }
            }
        } else {
            Err(DecodeError::InvalidLabelLength)
        }
    }
}

/// Where the name field that starts at `offset` ends, where `window` holds the
/// octets of the message from offset `base` on.
pub open spec fn window_field_end(window: Seq<u8>, base: int, offset: int, used: int) -> Result<
    int,
    DecodeError,
>
    decreases base + window.len() - offset,
{
    if base < 0 || offset < base || offset >= base + window.len() {
        Err(DecodeError::Truncated)
    } else {
        let octet = window[offset - base];
        if octet == 0 {
            Ok(offset + 1)
        } else if octet <= 63 {
            let end = offset + 1 + octet;
            if end > base + window.len() {
                Err(DecodeError::Truncated)
            } else if used + 1 + octet > 255 {
                Err(DecodeError::NameTooLong)
            } else {
                window_field_end(window, base, end, used + 1 + octet)
            }
        } else if octet >= 192 {
            if offset + 1 >= base + window.len() {
                Err(DecodeError::Truncated)
            } else {
                Ok(offset + 2)
            }
        } else {
            Err(DecodeError::InvalidLabelLength)
        }
    }
}

/// The name whose field starts at offset `start` of a message of which
/// `window` holds the octets from offset `base` on, and the offset after that
/// field.
pub open spec fn spec_read_name(window: Seq<u8>, base: int, start: int) -> Result<
    (Seq<Seq<u8>>, int),
    DecodeError,
> {
    match window_labels_from(window, base, start, Set::empty(), 0) {
        Ok(labels) => match window_field_end(window, base, start, 0) {
            Ok(end) => Ok((labels, end)),
            Err(e) => Err(e),
        },
        Err(e) => Err(e),
    }
}

/// With the whole message at hand, reading through a window is reading.
pub proof fn lemma_window_of_all(buffer: Seq<u8>, offset: int, visited: Set<int>, used: int)
    ensures
        window_labels_from(buffer, 0, offset, visited, used) == labels_from(
            buffer,
            offset,
            visited,
            used,
        ),
    decreases 255 - used, offset,
{
    if 0 <= offset < buffer.len() {
        let octet = buffer[offset];
        if 1 <= octet <= 63 {
            let end = offset + 1 + octet;
            if end <= buffer.len() && used + 1 + octet <= 255 {
                lemma_window_of_all(buffer, end, visited, used + 1 + octet);
            }
        } else if octet >= 192 && offset + 1 < buffer.len() {
            let target = pointer_target(octet, buffer[offset + 1]);
            if target < offset && !visited.contains(target) {
                lemma_window_of_all(buffer, target, visited.insert(offset), used);
            }
        }
    }
}

/// With the whole message at hand, a field ends where it ends in the window.
pub proof fn lemma_window_field_of_all(buffer: Seq<u8>, offset: int, used: int)
    ensures
        window_field_end(buffer, 0, offset, used) == name_field_end(buffer, offset, used),
    decreases buffer.len() - offset,
{
    if 0 <= offset < buffer.len() {
        let octet = buffer[offset];
        if 1 <= octet <= 63 {
            let end = offset + 1 + octet;
            if end <= buffer.len() && used + 1 + octet <= 255 {
                lemma_window_field_of_all(buffer, end, used + 1 + octet);
            }
        }
    }
}

/// A name field in a window ends after it starts and within the window.
pub proof fn lemma_window_field_end_bounds(window: Seq<u8>, base: int, offset: int, used: int)
    ensures
        window_field_end(window, base, offset, used) matches Ok(end) ==> 0 <= base <= offset < end
            <= base + window.len(),
    decreases base + window.len() - offset,
{
    if 0 <= base <= offset < base + window.len() {
        let octet = window[offset - base];
        if 1 <= octet <= 63 && offset + 1 + octet <= base + window.len() && used + 1 + octet
            <= 255 {
            lemma_window_field_end_bounds(window, base, offset + 1 + octet, used + 1 + octet);
        }
    }
}

/// Reads the name whose field starts at offset `start` of a message, of which
/// `window` holds the octets from offset `base` on, and gives its labels with
/// the offset after the field.
///
/// Pointers are followed where they lead into the window. An octet that the
/// window does not hold, before it or after it, is `Truncated`.
pub fn read_name(window: &[u8], base: usize, start: usize) -> (read: Result<
    (Vec<Vec<u8>>, usize),
    DecodeError,
>)
    requires
        base + window@.len() <= usize::MAX,
    ensures
        match read {
            Ok((labels, next)) => spec_read_name(window@, base as int, start as int) == Ok::<
                (Seq<Seq<u8>>, int),
                DecodeError,
            >((labels_view(labels@), next as int)),
            Err(e) => spec_read_name(window@, base as int, start as int) == Err::<
                (Seq<Seq<u8>>, int),
                DecodeError,
            >(e),
        },
        read matches Ok((labels, next)) ==> valid_name(labels_view(labels@)) && base <= start
            < next <= base + window@.len(),
{
    broadcast use vstd::std_specs::hash::group_hash_axioms;

    let ghost buffer = window@;
    let ghost first = start as int;
    let ghost low = base as int;
    let mut labels: Vec<Vec<u8>> = Vec::new();
    let mut visited: HashSet<usize> = HashSet::new();
    let ghost mut followed: Set<int> = Set::empty();
    let mut current: usize = start;
    let mut used: usize = 0;
    let mut next: Option<usize> = None;
    assert(labels_view(labels@) =~= Seq::empty());
    assert(forall|rest: Seq<Seq<u8>>| Seq::<Seq<u8>>::empty() + rest =~= rest);
    loop
        invariant
            buffer == window@,
            first == start as int,
            low == base as int,
            low + buffer.len() <= usize::MAX,
            used <= 255,
            used == expanded_len(labels_view(labels@)),
            forall|i: int| 0 <= i < labels.len() ==> valid_label(#[trigger] labels_view(labels@)[i]),
            forall|x: usize| visited@.contains(x) <==> followed.contains(x as int),
            window_labels_from(buffer, low, first, Set::empty(), 0) == prepend(
                labels_view(labels@),
                window_labels_from(buffer, low, current as int, followed, used as int),
            ),
            next is None ==> window_field_end(buffer, low, first, 0) == window_field_end(
                buffer,
                low,
                current as int,
                used as int,
            ),
            next matches Some(n) ==> window_field_end(buffer, low, first, 0) == Ok::<
                int,
                DecodeError,
            >(n as int),
        decreases 255 - used, current,
    {
        if current < base || current - base >= window.len() {
            return Err(DecodeError::Truncated);
        }
        let at: usize = current - base;
        let octet: u8 = window[at];
        if octet == 0 {
            let end: usize = match next {
                Some(n) => n,
                None => current + 1,
            };
            assert(labels_view(labels@) + Seq::<Seq<u8>>::empty() =~= labels_view(labels@));
            proof {
                lemma_window_field_end_bounds(buffer, low, first, 0);
            }
            return Ok((labels, end));
        } else if octet <= 63 {
            let len: usize = octet as usize;
            if len > window.len() - at - 1 {
                return Err(DecodeError::Truncated);
            }
            if used + 1 + len > MAX_NAME_LEN {
                return Err(DecodeError::NameTooLong);
            }
            let end: usize = current + 1 + len;
            let label: Vec<u8> = vstd::slice::slice_to_vec(
                vstd::slice::slice_subrange(window, at + 1, at + 1 + len),
            );
            proof {
                let before = labels_view(labels@);
                let after = labels_view(labels@.push(label));
                let rest = window_labels_from(buffer, low, end as int, followed, used + 1 + len);
                assert(after =~= before.push(label@));
                lemma_expanded_len_push(before, label@);
                assert(window_labels_from(buffer, low, current as int, followed, used as int)
                    == prepend(seq![label@], rest));
                assert(prepend(before, prepend(seq![label@], rest)) == prepend(after, rest)) by {
                    if let Ok(tail) = rest {
                        assert(before + (seq![label@] + tail) =~= after + tail);
                    }
                }
            }
            labels.push(label);
            used = used + 1 + len;
            current = end;
        } else if octet >= POINTER_TAG {
            if at + 1 >= window.len() {
                return Err(DecodeError::Truncated);
            }
            let second: u8 = window[at + 1];
            let target: usize = (octet - POINTER_TAG) as usize * 256 + second as usize;
            if target >= current || visited.contains(&target) {
                return Err(DecodeError::InvalidPointer);
            }
            if next.is_none() {
                next = Some(current + 2);
            }
            visited.insert(current);
            proof {
                followed = followed.insert(current as int);
            }
            current = target;
        } else {
            return Err(DecodeError::InvalidLabelLength);
        }
    }
}

/// Reads the name whose field starts at `start_offset` of `full_buffer`, and
/// gives it with the offset after the field.
///
/// Pointers are followed through the whole buffer; the offset given back is the
/// one after the zero octet, or after the first pointer.
pub fn decode_name(full_buffer: &[u8], start_offset: usize) -> (decoded: Result<
    (DomainName, usize),
    DecodeError,
>)
    ensures
        match decoded {
            Ok((name, next)) => spec_decode_name(full_buffer@, start_offset as int) == Ok::<
                (Seq<Seq<u8>>, int),
                DecodeError,
            >((name@, next as int)),
            Err(e) => spec_decode_name(full_buffer@, start_offset as int) == Err::<
                (Seq<Seq<u8>>, int),
                DecodeError,
            >(e),
        },
        decoded matches Ok((name, next)) ==> valid_name(name@) && start_offset < next
            <= full_buffer@.len(),
{
    let length: usize = full_buffer.len();
    proof {
        assert(length == full_buffer@.len());
        lemma_window_of_all(full_buffer@, start_offset as int, Set::empty(), 0);
        lemma_window_field_of_all(full_buffer@, start_offset as int, 0);
    }
    match read_name(full_buffer, 0, start_offset) {
        Ok((labels, next)) => Ok((DomainName { labels }, next)),
        Err(e) => Err(e),
    }
}

} // verus!
