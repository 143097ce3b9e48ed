//! Reading the name that a run of octets starts with, and keeping track of
//! where in the message each label of its field stands.

use crate::error::DecodeError;
use crate::name::{
    expanded_len, labels_view, read_name, spec_read_name, valid_name, window_labels_from,
};
use std::collections::BTreeMap;
use std::collections::HashMap;
use vstd::prelude::*;

verus! {

/// The labels that are written out from `at` on: every run of 1 to 63 octets
/// after its length octet, up to the first octet that starts no such run.
pub open spec fn written_labels(input: Seq<u8>, at: int) -> Seq<Seq<u8>>
    decreases input.len() - at,
{
    if at < 0 || at >= input.len() {
        Seq::empty()
    } else {
        let octet = input[at];
        if 1 <= octet <= 63 && at + 1 + octet <= input.len() {
            seq![input.subrange(at + 1, at + 1 + octet)] + written_labels(input, at + 1 + octet)
        } else {
            Seq::empty()
        }
    }
}

/// Where the length octet of label `index` stands, counted from the first
/// octet of the name.
pub open spec fn label_start(labels: Seq<Seq<u8>>, index: int) -> int {
    expanded_len(labels.take(index))
}

/// What `name` enters in the compression map for a name at `offset`: one more
/// than the offset of its last label, and 1 for a name without labels.
pub open spec fn end_mark(labels: Seq<Seq<u8>>, offset: int) -> int {
    if labels.len() == 0 {
        1
    } else {
        offset + label_start(labels, labels.len() - 1) + 1
    }
}

/// Whether `key` is the offset in the message of one of the first `count`
/// labels of a name at `offset`.
pub open spec fn is_label_key(labels: Seq<Seq<u8>>, offset: int, count: int, key: int) -> bool {
    exists|i: int| 0 <= i < count && key == offset + #[trigger] label_start(labels, i)
}

/// Whether `held` holds the octets of `label` under `key`.
pub open spec fn has_label(held: Map<usize, Vec<u8>>, key: int, label: Seq<u8>) -> bool {
    &&& 0 <= key <= usize::MAX
    &&& held.contains_key(key as usize)
    &&& held[key as usize]@ == label
}

/// Whether `held` holds each of the first `count` labels of a
/// name at `offset` under the offset of its length octet.
pub open spec fn labels_held(
    held: Map<usize, Vec<u8>>,
    labels: Seq<Seq<u8>>,
    offset: int,
    count: int,
) -> bool {
    forall|i: int|
        0 <= i < count ==> has_label(held, offset + #[trigger] label_start(labels, i), labels[i])
}

/// Whether every key of `after` is a key of `before` or the offset of one of
/// the first `count` labels of a name at `offset`.
pub open spec fn only_labels_added(
    before: Map<usize, Vec<u8>>,
    after: Map<usize, Vec<u8>>,
    labels: Seq<Seq<u8>>,
    offset: int,
    count: int,
) -> bool {
    forall|key: usize| #[trigger]
        after.contains_key(key) ==> before.contains_key(key) || is_label_key(
            labels,
            offset,
            count,
            key as int,
        )
}

/// Whether `after` holds what `before` holds under every key that is not the
/// offset of one of the first `count` labels of a name at `offset`.
pub open spec fn others_kept(
    before: Map<usize, Vec<u8>>,
    after: Map<usize, Vec<u8>>,
    labels: Seq<Seq<u8>>,
    offset: int,
    count: int,
) -> bool {
    forall|key: usize|
        before.contains_key(key) && !is_label_key(labels, offset, count, key as int)
            ==> #[trigger] after.contains_key(key) && after[key] == before[key]
}

/// Whether `after` is `before` with the first `count` labels of a name at
/// `offset` entered, each under the offset of its length octet, and
/// nothing else changed.
pub open spec fn labels_entered(
    before: Map<usize, Vec<u8>>,
    after: Map<usize, Vec<u8>>,
    labels: Seq<Seq<u8>>,
    offset: int,
    count: int,
) -> bool {
    &&& labels_held(after, labels, offset, count)
    &&& only_labels_added(before, after, labels, offset, count)
    &&& others_kept(before, after, labels, offset, count)
}

/// Reads the name that `input` starts with, where `input` holds the octets of
/// a message from `offset` on, and gives its labels with the offset after its
/// field.
///
/// The name is read as `read_name` reads it: a pointer is followed where it
/// leads into `input`, and an octet that `input` does not hold is `Truncated`.
/// Of a name that was read, each label written out in its field is entered in
/// `tr` under the offset of its length octet in the message, and
/// `compression_map` gets under `offset` one more than the offset of the last
/// of them. Where the name is not read, both are left as they were.
pub fn name(
    input: &[u8],
    offset: usize,
    compression_map: &mut HashMap<usize, usize>,
    tr: &mut BTreeMap<usize, Vec<u8>>,
) -> (read: Result<(Vec<Vec<u8>>, usize), DecodeError>)
    requires
        offset + input@.len() <= usize::MAX,
    ensures
        match read {
            Ok((labels, next)) => {
                &&& spec_read_name(input@, offset as int, offset as int) == Ok::<
                    (Seq<Seq<u8>>, int),
                    DecodeError,
                >((labels_view(labels@), next as int))
                &&& valid_name(labels_view(labels@))
                &&& offset < next <= offset + input@.len()
                &&& labels_entered(
                    old(tr)@,
                    final(tr)@,
                    written_labels(input@, 0),
                    offset as int,
                    written_labels(input@, 0).len() as int,
                )
                &&& final(compression_map)@ == old(compression_map)@.insert(
                    offset,
                    end_mark(written_labels(input@, 0), offset as int) as usize,
                )
            },
            Err(e) => {
                &&& spec_read_name(input@, offset as int, offset as int) == Err::<
                    (Seq<Seq<u8>>, int),
                    DecodeError,
                >(e)
                &&& final(tr)@ == old(tr)@
                &&& final(compression_map)@ == old(compression_map)@
            },
        },
{
    broadcast use vstd::std_specs::hash::group_hash_axioms;

    match read_name(input, offset, offset) {
        Ok((labels, next)) => {
            let last: usize = enter_written(input, offset, tr);
            compression_map.insert(offset, last + 1);
            Ok((labels, next))
        },
        Err(e) => Err(e),
    }
}

/// Enters each label that is written out at the start of `input` in `tr`,
/// under the offset of its length octet in the message, and gives the offset
/// of the last of them, or 0 if there is none.
fn enter_written(input: &[u8], offset: usize, tr: &mut BTreeMap<usize, Vec<u8>>) -> (last: usize)
    requires
        offset + input@.len() <= usize::MAX,
    ensures
        labels_entered(
            old(tr)@,
            final(tr)@,
            written_labels(input@, 0),
            offset as int,
            written_labels(input@, 0).len() as int,
        ),
        last == end_mark(written_labels(input@, 0), offset as int) - 1,
        last < offset + input@.len() || last == 0,
{
    let ghost all = written_labels(input@, 0);
    let ghost mut done: int = 0;
    let mut at: usize = 0;
    let mut last: usize = 0;
    proof {
        assert(all.skip(0) =~= all);
        assert(all.take(0) =~= Seq::<Seq<u8>>::empty());
    }
    loop
        invariant
            all == written_labels(input@, 0),
            offset + input@.len() <= usize::MAX,
            0 <= done <= all.len(),
            at <= input@.len(),
            at == label_start(all, done),
            written_labels(input@, at as int) == all.skip(done),
            last == end_mark(all.take(done), offset as int) - 1,
            last < offset + input@.len() || last == 0,
            labels_entered(old(tr)@, tr@, all, offset as int, done),
        decreases input@.len() - at,
    {
        if at >= input.len() {
            proof {
                assert(all.skip(done).len() == 0);
                assert(all.take(done) =~= all);
            }
            return last;
        }
        let octet: u8 = input[at];
        if octet == 0 || octet > 63 || octet as usize > input.len() - at - 1 {
            proof {
                assert(all.skip(done).len() == 0);
                assert(all.take(done) =~= all);
            }
            return last;
        }
        let length: usize = octet as usize;
        let label: Vec<u8> = vstd::slice::slice_to_vec(
            vstd::slice::slice_subrange(input, at + 1, at + 1 + length),
        );
        let ghost entered = label;
        let ghost before = tr@;
        proof {
            let rest = all.skip(done);
            let inner = written_labels(input@, at + 1 + length);
            assert(rest == seq![input@.subrange(at + 1, at + 1 + length)] + inner);
            assert(rest[0] == all[done]);
            assert(inner =~= rest.drop_first());
            assert(rest.drop_first() =~= all.skip(done + 1));
            crate::name::lemma_expanded_len_prefix(all, done + 1);
        }
        enter(tr, offset + at, label);
        last = offset + at;
        proof {
            lemma_label_entered(old(tr)@, before, tr@, all, offset as int, done, entered);
            assert(all.take(done + 1).take(done) =~= all.take(done));
            done = done + 1;
        }
        at = at + 1 + length;
    }
}

/// Enters `label` in `tr` under `key`, in place of what was there.
fn enter(tr: &mut BTreeMap<usize, Vec<u8>>, key: usize, label: Vec<u8>)
    ensures
        final(tr)@ == old(tr)@.insert(key, label),
{
    broadcast use vstd::laws_cmp::group_laws_cmp;

    tr.insert(key, label);
}

/// Entering the next label under its offset enters one label more.
proof fn lemma_label_entered(
    first: Map<usize, Vec<u8>>,
    before: Map<usize, Vec<u8>>,
    after: Map<usize, Vec<u8>>,
    labels: Seq<Seq<u8>>,
    offset: int,
    done: int,
    label: Vec<u8>,
)
    requires
        0 <= done < labels.len(),
        0 <= offset,
        offset + label_start(labels, done) <= usize::MAX,
        labels_entered(first, before, labels, offset, done),
        after == before.insert((offset + label_start(labels, done)) as usize, label),
        label@ == labels[done],
    ensures
        labels_entered(first, after, labels, offset, done + 1),
{
    crate::name::lemma_expanded_len_nonnegative(labels.take(done));
    let key = (offset + label_start(labels, done)) as usize;
    lemma_labels_held(before, after, labels, offset, done, key, label);
    lemma_only_labels_added(first, before, after, labels, offset, done, key, label);
    lemma_others_kept(first, before, after, labels, offset, done, key, label);
}

/// The labels entered before stay, and the new one is there.
proof fn lemma_labels_held(
    before: Map<usize, Vec<u8>>,
    after: Map<usize, Vec<u8>>,
    labels: Seq<Seq<u8>>,
    offset: int,
    done: int,
    key: usize,
    label: Vec<u8>,
)
    requires
        0 <= done < labels.len(),
        key == offset + label_start(labels, done),
        labels_held(before, labels, offset, done),
        after == before.insert(key, label),
        label@ == labels[done],
    ensures
        labels_held(after, labels, offset, done + 1),
{
    assert forall|i: int| 0 <= i < done + 1 implies has_label(
        after,
        offset + #[trigger] label_start(labels, i),
        labels[i],
    ) by {
        if i < done {
            lemma_label_starts_increase(labels, i, done);
            assert(has_label(before, offset + label_start(labels, i), labels[i]));
            let other = (offset + label_start(labels, i)) as usize;
            assert(other != key);
            assert(after.contains_key(other) && after[other] == before[other]);
        } else {
            assert(after.contains_key(key) && after[key] == label);
        }
    }
}

/// The new key is the offset of the next label.
proof fn lemma_only_labels_added(
    first: Map<usize, Vec<u8>>,
    before: Map<usize, Vec<u8>>,
    after: Map<usize, Vec<u8>>,
    labels: Seq<Seq<u8>>,
    offset: int,
    done: int,
    key: usize,
    label: Vec<u8>,
)
    requires
        0 <= done < labels.len(),
        key == offset + label_start(labels, done),
        only_labels_added(first, before, labels, offset, done),
        after == before.insert(key, label),
    ensures
        only_labels_added(first, after, labels, offset, done + 1),
{
    assert forall|k: usize| #[trigger] after.contains_key(k) implies first.contains_key(k)
        || is_label_key(labels, offset, done + 1, k as int) by {
        if k == key {
            assert(0 <= done < done + 1 && k as int == offset + label_start(labels, done));
        } else {
            assert(before.contains_key(k));
            if !first.contains_key(k) {
                assert(is_label_key(labels, offset, done, k as int));
                let i = choose|i: int|
                    0 <= i < done && k as int == offset + #[trigger] label_start(labels, i);
                assert(0 <= i < done + 1 && k as int == offset + label_start(labels, i));
            }
        }
    }
}

/// What stood under other keys still stands there.
proof fn lemma_others_kept(
    first: Map<usize, Vec<u8>>,
    before: Map<usize, Vec<u8>>,
    after: Map<usize, Vec<u8>>,
    labels: Seq<Seq<u8>>,
    offset: int,
    done: int,
    key: usize,
    label: Vec<u8>,
)
    requires
        0 <= done < labels.len(),
        key == offset + label_start(labels, done),
        others_kept(first, before, labels, offset, done),
        after == before.insert(key, label),
    ensures
        others_kept(first, after, labels, offset, done + 1),
{
    assert forall|k: usize|
        first.contains_key(k) && !is_label_key(
            labels,
            offset,
            done + 1,
            k as int,
        ) implies #[trigger] after.contains_key(k) && after[k] == first[k] by {
        if k == key {
            assert(0 <= done < done + 1 && k as int == offset + label_start(labels, done));
            assert(is_label_key(labels, offset, done + 1, k as int));
        }
        if is_label_key(labels, offset, done, k as int) {
            let i = choose|i: int|
                0 <= i < done && k as int == offset + #[trigger] label_start(labels, i);
            assert(0 <= i < done + 1 && k as int == offset + label_start(labels, i));
            assert(is_label_key(labels, offset, done + 1, k as int));
        }
        assert(!is_label_key(labels, offset, done, k as int));
        assert(k != key);
        assert(before.contains_key(k));
        assert(before[k] == first[k]);
    }
}

/// The labels written out at the start of a name that was read are the first
/// of its labels: those that were not reached through a pointer.
pub proof fn lemma_written_labels_are_first(
    input: Seq<u8>,
    base: int,
    at: int,
    visited: Set<int>,
    used: int,
)
    requires
        0 <= base,
        0 <= at,
        window_labels_from(input, base, base + at, visited, used) is Ok,
    ensures
        ({
            let labels = window_labels_from(input, base, base + at, visited, used)->Ok_0;
            let written = written_labels(input, at);
            written.len() <= labels.len() && labels.take(written.len() as int) == written
        }),
    decreases input.len() - at,
{
    let labels = window_labels_from(input, base, base + at, visited, used)->Ok_0;
    let written = written_labels(input, at);
    let octet = input[at];
    if 1 <= octet <= 63 {
        let end = at + 1 + octet;
        let first = input.subrange(at + 1, end);
        let rest = window_labels_from(input, base, base + end, visited, used + 1 + octet)->Ok_0;
        lemma_written_labels_are_first(input, base, end, visited, used + 1 + octet);
        let others = written_labels(input, end);
        assert(labels == seq![first] + rest);
        assert(written == seq![first] + others);
        assert((seq![first] + rest).take(written.len() as int) =~= seq![first] + rest.take(
            others.len() as int,
        ));
    } else {
        assert(labels.take(0) =~= written);
    }
}

/// Later labels start later.
pub proof fn lemma_label_starts_increase(labels: Seq<Seq<u8>>, first: int, second: int)
    requires
        0 <= first < second <= labels.len(),
    ensures
        label_start(labels, first) < label_start(labels, second),
    decreases second - first,
{
    crate::name::lemma_expanded_len_prefix(labels, first + 1);
    crate::name::lemma_expanded_len_nonnegative(labels.take(first));
    if first + 1 < second {
        lemma_label_starts_increase(labels, first + 1, second);
    }
}

} // verus!
