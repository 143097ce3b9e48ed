//! Writing names, with pointers to what a message already holds.
//!
//! While a message is built, a dictionary remembers at which offset each run of
//! labels that ends a name was written. A name whose ending is in the
//! dictionary is written up to that ending, and then a pointer to it.

use crate::name::{labels_view, valid_label, valid_name, DomainName, POINTER_LIMIT};
use crate::wire::push_bytes;
use vstd::prelude::*;

verus! {

/// A label on the wire: its length, then its octets.
pub open spec fn label_octets(label: Seq<u8>) -> Seq<u8> {
    seq![label.len() as u8] + label
}

/// A pointer to `target` on the wire.
pub open spec fn pointer_octets(target: int) -> Seq<u8> {
    seq![(192 + target / 256) as u8, (target % 256) as u8]
}

/// A name written out in full: each label after its length, then a zero
/// octet.
pub open spec fn plain_octets(labels: Seq<Seq<u8>>) -> Seq<u8>
    decreases labels.len(),
{
    if labels.len() == 0 {
        seq![0u8]
    } else {
        label_octets(labels[0]) + plain_octets(labels.drop_first())
    }
}

/// The octets that `labels` are written as at `offset` of a message, and the
/// dictionary after that.
///
/// The longest ending of the name that the dictionary knows becomes a pointer.
/// Every ending before it is written out and entered in the dictionary at its
/// offset, where a pointer can name that offset.
pub open spec fn spec_encode_name(
    labels: Seq<Seq<u8>>,
    offset: int,
    dictionary: Map<Seq<Seq<u8>>, int>,
) -> (Seq<u8>, Map<Seq<Seq<u8>>, int>)
    decreases labels.len(),
{
    if labels.len() == 0 {
        (seq![0u8], dictionary)
    } else if dictionary.contains_key(labels) {
        (pointer_octets(dictionary[labels]), dictionary)
    } else {
        let entered = if offset < 16384 {
            dictionary.insert(labels, offset)
        } else {
            dictionary
        };
        let head = label_octets(labels[0]);
        let (tail, last) = spec_encode_name(labels.drop_first(), offset + head.len(), entered);
        (head + tail, last)
    }
}

/// One ending of a name and the offset it was written at.
struct Entry {
    suffix: Vec<Vec<u8>>,
    offset: u16,
}

/// The endings of names that a message under construction holds, each with the
/// offset it was written at.
pub struct CompressionDictionary {
    entries: Vec<Entry>,
    known: Ghost<Map<Seq<Seq<u8>>, int>>,
}

impl View for CompressionDictionary {
    type V = Map<Seq<Seq<u8>>, int>;

    closed spec fn view(&self) -> Map<Seq<Seq<u8>>, int> {
        self.known@
    }
}

impl CompressionDictionary {
    #[verifier::type_invariant]
    pub closed spec fn well_formed(&self) -> bool {
        &&& forall|i: int|
            0 <= i < self.entries@.len() ==> {
                &&& self.known@.contains_key(labels_view(#[trigger] self.entries@[i].suffix@))
                &&& self.known@[labels_view(self.entries@[i].suffix@)] == self.entries@[i].offset
                &&& self.entries@[i].offset < 16384
            }
        &&& forall|key: Seq<Seq<u8>>| #[trigger]
            self.known@.contains_key(key) ==> exists|i: int|
                0 <= i < self.entries@.len() && labels_view(#[trigger] self.entries@[i].suffix@)
                    == key
    }

    /// A dictionary that knows nothing.
    pub fn new() -> (dictionary: CompressionDictionary)
        ensures
            dictionary@ == Map::<Seq<Seq<u8>>, int>::empty(),
    {
        CompressionDictionary { entries: Vec::new(), known: Ghost(Map::empty()) }
    }

    /// The offset at which the labels from index `from` on were written, if the
    /// dictionary knows them.
    pub fn lookup(&self, labels: &Vec<Vec<u8>>, from: usize) -> (found: Option<u16>)
        requires
            from <= labels@.len(),
        ensures
            found is Some <==> self@.contains_key(labels_view(labels@).skip(from as int)),
            found matches Some(offset) ==> offset == self@[labels_view(labels@).skip(from as int)]
                && offset < 16384,
    {
        proof {
            use_type_invariant(self);
        }
        let ghost key = labels_view(labels@).skip(from as int);
        let mut i: usize = 0;
        while i < self.entries.len()
            invariant
                self.well_formed(),
                from <= labels@.len(),
                key == labels_view(labels@).skip(from as int),
                i <= self.entries@.len(),
                forall|j: int| 0 <= j < i ==> labels_view(#[trigger] self.entries@[j].suffix@) != key,
            decreases self.entries@.len() - i,
        {
            if same_labels(labels, from, &self.entries[i].suffix) {
                return Some(self.entries[i].offset);
            }
            i = i + 1;
        }
        None
    }

    /// Enters the labels from index `from` on as written at `offset`.
    fn enter(&mut self, labels: &Vec<Vec<u8>>, from: usize, offset: u16)
        requires
            from <= labels@.len(),
            offset < 16384,
            !old(self)@.contains_key(labels_view(labels@).skip(from as int)),
        ensures
            final(self)@ == old(self)@.insert(
                labels_view(labels@).skip(from as int),
                offset as int,
            ),
    {
        proof {
            use_type_invariant(&*self);
        }
        let ghost key = labels_view(labels@).skip(from as int);
        let suffix: Vec<Vec<u8>> = crate::name::copy_labels(labels, from);
        let entry: Entry = Entry { suffix, offset };
        let mut taken: CompressionDictionary = CompressionDictionary::new();
        core::mem::swap(self, &mut taken);
        let CompressionDictionary { entries, known } = taken;
        let ghost before = entries@;
        let mut entries: Vec<Entry> = entries;
        entries.push(entry);
        let ghost grown = known@.insert(key, offset as int);
        proof {
            assert forall|i: int| 0 <= i < entries@.len() implies {
                &&& grown.contains_key(labels_view(#[trigger] entries@[i].suffix@))
                &&& grown[labels_view(entries@[i].suffix@)] == entries@[i].offset
                &&& entries@[i].offset < 16384
            } by {
                if i < before.len() {
                    assert(entries@[i] == before[i]);
                    assert(known@.contains_key(labels_view(before[i].suffix@)));
                    assert(labels_view(before[i].suffix@) != key);
                }
            }
            assert forall|k: Seq<Seq<u8>>| #[trigger] grown.contains_key(k) implies exists|i: int|
                0 <= i < entries@.len() && labels_view(#[trigger] entries@[i].suffix@) == k by {
                if k == key {
                    let last = entries@.len() - 1;
                    assert(labels_view(entries@[last].suffix@) == k);
                } else {
                    assert(known@.contains_key(k));
                    let i = choose|i: int|
                        0 <= i < before.len() && labels_view(#[trigger] before[i].suffix@) == k;
                    assert(entries@[i] == before[i]);
                    assert(labels_view(entries@[i].suffix@) == k);
                }
            }
        }
        let ghost next = CompressionDictionary { entries, known: Ghost(grown) };
        assert(next.well_formed()) by {
            assert(next.entries@ == entries@);
            assert(next.known@ == grown);
            assert(forall|i: int|
                0 <= i < next.entries@.len() ==> {
                    &&& next.known@.contains_key(labels_view(#[trigger] next.entries@[i].suffix@))
                    &&& next.known@[labels_view(next.entries@[i].suffix@)]
                        == next.entries@[i].offset
                    &&& next.entries@[i].offset < 16384
                });
        }
        *self = CompressionDictionary { entries, known: Ghost(grown) };
    }
}

/// Whether two byte vectors hold the same octets.
fn same_octets(left: &Vec<u8>, right: &Vec<u8>) -> (same: bool)
    ensures
        same == (left@ == right@),
{
    if left.len() != right.len() {
        return false;
    }
    let mut i: usize = 0;
    while i < left.len()
        invariant
            left@.len() == right@.len(),
            i <= left@.len(),
            forall|j: int| 0 <= j < i ==> left@[j] == right@[j],
        decreases left@.len() - i,
    {
        if left[i] != right[i] {
            return false;
        }
        i = i + 1;
    }
    assert(left@ =~= right@);
    true
}

/// Whether the labels of `left` from index `from` on are the labels of
/// `right`.
fn same_labels(left: &Vec<Vec<u8>>, from: usize, right: &Vec<Vec<u8>>) -> (same: bool)
    requires
        from <= left@.len(),
    ensures
        same == (labels_view(left@).skip(from as int) == labels_view(right@)),
{
    let ghost wanted = labels_view(left@).skip(from as int);
    let ghost given = labels_view(right@);
    if left.len() - from != right.len() {
        assert(wanted.len() != given.len());
        return false;
    }
    let mut i: usize = 0;
    while i < right.len()
        invariant
            from <= left@.len() <= usize::MAX,
            left@.len() - from == right@.len(),
            wanted == labels_view(left@).skip(from as int),
            given == labels_view(right@),
            i <= right@.len(),
            forall|j: int| 0 <= j < i ==> wanted[j] == given[j],
        decreases right@.len() - i,
    {
        if !same_octets(&left[from + i], &right[i]) {
            assert(wanted[i as int] != given[i as int]);
            return false;
        }
        i = i + 1;
    }
    assert(wanted =~= given);
    true
}

/// Writes `name` as it stands at `offset` of a message, and enters what was
/// written out in the dictionary.
///
/// The octets are given back; the caller appends them to the message.
pub fn encode_name(name: &DomainName, offset: usize, dictionary: &mut CompressionDictionary) -> (bytes:
    Vec<u8>)
    ensures
        (bytes@, final(dictionary)@) == spec_encode_name(
            name@,
            offset as int,
            old(dictionary)@,
        ),
{
    let labels: &Vec<Vec<u8>> = name.labels();
    let ghost all = labels_view(labels@);
    let ghost initial = dictionary@;
    let mut out: Vec<u8> = Vec::new();
    let mut i: usize = 0;
    assert(all.skip(0) =~= all);
    assert(Seq::<u8>::empty() + spec_encode_name(all, offset as int, initial).0
        =~= spec_encode_name(all, offset as int, initial).0);
    while i < labels.len()
        invariant
            all == labels_view(labels@),
            all == name@,
            initial == old(dictionary)@,
            valid_name(all),
            i <= labels@.len(),
            out@.len() <= 256 * i,
            spec_encode_name(all, offset as int, initial) == (
                out@ + spec_encode_name(all.skip(i as int), offset + out@.len(), dictionary@).0,
                spec_encode_name(all.skip(i as int), offset + out@.len(), dictionary@).1,
            ),
        decreases labels@.len() - i,
    {
        let ghost rest = all.skip(i as int);
        let ghost here = offset + out@.len();
        assert(rest.len() > 0);
        assert(rest[0] == all[i as int]);
        assert(rest.drop_first() =~= all.skip(i as int + 1));
        match dictionary.lookup(labels, i) {
            Some(target) => {
                let ghost before = out@;
                out.push(192 + (target / 256) as u8);
                out.push((target % 256) as u8);
                assert(out@ =~= before + pointer_octets(target as int));
                return out;
            },
            None => {},
        }
        if offset < POINTER_LIMIT && out.len() < POINTER_LIMIT - offset {
            dictionary.enter(labels, i, (offset + out.len()) as u16);
        }
        let label: &Vec<u8> = &labels[i];
        assert(label@ == all[i as int]);
        assert(valid_label(all[i as int]));
        let ghost before = out@;
        out.push(label.len() as u8);
        push_bytes(&mut out, label.as_slice());
        proof {
            let head = label_octets(label@);
            assert(out@ =~= before + head);
            let tail = spec_encode_name(all.skip(i as int + 1), here + head.len(), dictionary@);
            assert(before + (head + tail.0) =~= out@ + tail.0);
        }
        i = i + 1;
    }
    let ghost before = out@;
    out.push(0);
    assert(all.skip(i as int).len() == 0);
    assert(out@ =~= before + seq![0u8]);
    out
}

} // verus!
