//! Preparing a data set: building the label registry over every annotation,
//! partitioning the annotations into a test set and a training set, and
//! encoding each set as a record stream.
use vstd::prelude::*;
use crate::annotation::Annotation;
use crate::label_map::{added, LabelMap, MAX_LABEL_ID};
use crate::partition::{goes_right, partition_by, partition_with, retain};
use crate::record::frames_of;
use crate::tfrecord::{encoded_example, object_names, opt_bytes, NormalizedBox, RecordBuilder};

verus! {

/// Options of a preparation run.
#[derive(Debug, Clone)]
pub struct PrepareOpts {
    /// Directory searched, recursively, for annotation files.
    pub input: String,
    /// Directory the label map and the record files are written to.
    pub output: String,
    /// Percentage that decides which examples go to the test set.
    pub test_set_ratio: u8,
}

/// An annotation together with what was read for it: the bytes of its image
/// (`None` when the image could not be read) and the normalized box of each
/// of its objects.
#[derive(Debug)]
pub struct LoadedExample {
    pub annotation: Annotation,
    pub image: Option<Vec<u8>>,
    pub boxes: Vec<NormalizedBox>,
}

/// One box per object.
pub open spec fn loaded_wf(e: LoadedExample) -> bool {
    e.boxes@.len() == e.annotation.objects@.len()
}

/// Every example has one box per object.
pub open spec fn all_loaded_wf(examples: Seq<LoadedExample>) -> bool {
    forall|i: int| 0 <= i < examples.len() ==> loaded_wf(#[trigger] examples[i])
}

/// Whether an example goes to the test set: its image was read and its
/// checksum is at or above the threshold of `ratio`.
pub open spec fn in_test_set(e: LoadedExample, ratio: u8) -> bool {
    match e.image {
        Some(b) => goes_right(b@, ratio),
        None => false,
    }
}

/// The set of each example: true for the test set.
pub open spec fn test_flags(examples: Seq<LoadedExample>, ratio: u8) -> Seq<bool> {
    Seq::new(examples.len(), |i: int| in_test_set(examples[i], ratio))
}

/// Splits the examples into a test set and a training set, `(test, train)`,
/// by the checksum of each example's image bytes, as `split` does with
/// `ratio`. An example whose image could not be read goes to the training
/// set. Order is kept within each set.
pub fn split_dataset(input: Vec<LoadedExample>, ratio: u8) -> (r: (
    Vec<LoadedExample>,
    Vec<LoadedExample>,
))
    ensures
        (r.1@, r.0@) == partition_by(input@, test_flags(input@, ratio)),
{
    let mut flags: Vec<bool> = Vec::new();
    let mut i: usize = 0;
    while i < input.len()
        invariant
            i <= input@.len(),
            flags@ == test_flags(input@, ratio).take(i as int),
        decreases input@.len() - i,
    {
        let test = match &input[i].image {
            Some(b) => !retain(b.as_slice(), ratio),
            None => false,
        };
        flags.push(test);
        i = i + 1;
        proof {
            assert(flags@ =~= test_flags(input@, ratio).take(i as int));
        }
    }
    proof {
        assert(flags@ =~= test_flags(input@, ratio));
    }
    let (train, test) = partition_with(input, &flags);
    (test, train)
}

/// Every object label of every example, in order.
pub open spec fn names_of(examples: Seq<LoadedExample>) -> Seq<Seq<char>>
    decreases examples.len(),
{
    if examples.len() == 0 {
        Seq::empty()
    } else {
        names_of(examples.drop_last()) + object_names(examples.last().annotation.objects@)
    }
}

/// The registry after adding each name in turn.
pub open spec fn register_all(labels: Seq<Seq<char>>, names: Seq<Seq<char>>) -> Seq<Seq<char>>
    decreases names.len(),
{
    if names.len() == 0 {
        labels
    } else {
        added(register_all(labels, names.drop_last()), names.last())
    }
}

/// Registering names adds at most one label per name.
pub proof fn lemma_register_all_len(labels: Seq<Seq<char>>, names: Seq<Seq<char>>)
    ensures
        register_all(labels, names).len() <= labels.len() + names.len(),
    decreases names.len(),
{
    if names.len() > 0 {
        lemma_register_all_len(labels, names.drop_last());
    }
}

/// Registering names keeps every label already there under its id, adds
/// every name, adds nothing else, and keeps the labels distinct.
pub proof fn lemma_register_all_covers(labels: Seq<Seq<char>>, names: Seq<Seq<char>>)
    requires
        crate::label_map::distinct_labels(labels),
    ensures
        crate::label_map::distinct_labels(register_all(labels, names)),
        labels.len() <= register_all(labels, names).len(),
        forall|i: int| 0 <= i < labels.len() ==> register_all(labels, names)[i] == labels[i],
        forall|i: int| 0 <= i < names.len() ==> register_all(labels, names).contains(names[i]),
        forall|j: int|
            0 <= j < register_all(labels, names).len() ==> labels.contains(
                register_all(labels, names)[j],
            ) || names.contains(register_all(labels, names)[j]),
    decreases names.len(),
{
    if names.len() > 0 {
        let init = names.drop_last();
        let x = names.last();
        let prev = register_all(labels, init);
        lemma_register_all_covers(labels, init);
        crate::label_map::lemma_registry_laws(prev, x, x);
        let next = register_all(labels, names);
        assert(next == added(prev, x));
        assert(next.contains(x)) by {
            if !prev.contains(x) {
                assert(next[prev.len() as int] == x);
            }
        }
        assert forall|i: int| 0 <= i < names.len() implies next.contains(names[i]) by {
            if i < names.len() - 1 {
                assert(prev.contains(init[i]));
                let k = choose|k: int| 0 <= k < prev.len() && prev[k] == init[i];
                assert(next[k] == names[i]);
            }
        }
        assert forall|j: int| 0 <= j < next.len() implies labels.contains(next[j]) || names.contains(
            next[j],
        ) by {
            if j < prev.len() {
                assert(next[j] == prev[j]);
                if !labels.contains(prev[j]) {
                    let k = choose|k: int| 0 <= k < init.len() && init[k] == prev[j];
                    assert(names[k] == prev[j]);
                }
            } else {
                assert(names[names.len() - 1] == next[j]);
            }
        }
    }
}

/// The registry that every object label of every example gives, in order:
/// each distinct label once, with ids in first-seen order.
pub fn gen_label_map(examples: &Vec<LoadedExample>) -> (r: LabelMap)
    requires
        names_of(examples@).len() < MAX_LABEL_ID,
    ensures
        r.wf(),
        r@ == register_all(Seq::empty(), names_of(examples@)),
{
    let mut label_map = LabelMap::new();
    let mut i: usize = 0;
    while i < examples.len()
        invariant
            i <= examples@.len(),
            names_of(examples@).len() < MAX_LABEL_ID,
            label_map.wf(),
            label_map@ == register_all(Seq::empty(), names_of(examples@.take(i as int))),
        decreases examples@.len() - i,
    {
        let objects = &examples[i].annotation.objects;
        let ghost done = names_of(examples@.take(i as int));
        let ghost current = object_names(objects@);
        proof {
            assert(examples@.take(i + 1).drop_last() =~= examples@.take(i as int));
            lemma_names_of_prefix(examples@, i + 1);
        }
        let mut j: usize = 0;
        while j < objects.len()
            invariant
                j <= objects@.len(),
                current == object_names(objects@),
                (done + current).len() <= names_of(examples@).len(),
                names_of(examples@).len() < MAX_LABEL_ID,
                label_map.wf(),
                label_map@ == register_all(Seq::empty(), done + current.take(j as int)),
            decreases objects@.len() - j,
        {
            proof {
                lemma_register_all_len(Seq::empty(), done + current.take(j as int));
                assert((done + current).len() <= names_of(examples@).len());
            }
            label_map.add(objects[j].name.as_str());
            proof {
                assert((done + current.take(j + 1)).drop_last() =~= done + current.take(j as int));
                assert((done + current.take(j + 1)).last() == current[j as int]);
            }
            j = j + 1;
        }
        proof {
            assert(current.take(j as int) =~= current);
        }
        i = i + 1;
    }
    proof {
        assert(examples@.take(i as int) =~= examples@);
    }
    label_map
}

/// A prefix of the examples has no more names than all of them.
proof fn lemma_names_of_prefix(examples: Seq<LoadedExample>, k: int)
    requires
        0 <= k <= examples.len(),
    ensures
        names_of(examples.take(k)).len() <= names_of(examples).len(),
    decreases examples.len(),
{
    if k < examples.len() {
        lemma_names_of_prefix(examples.drop_last(), k);
        assert(examples.drop_last().take(k) =~= examples.take(k));
    } else {
        assert(examples.take(k) =~= examples);
    }
}

/// The serialized `Example` of each example that yields a record, in order.
pub open spec fn accepted_payloads(examples: Seq<LoadedExample>, labels: Seq<Seq<char>>) -> Seq<
    Seq<u8>,
>
    decreases examples.len(),
{
    if examples.len() == 0 {
        Seq::empty()
    } else {
        let rest = accepted_payloads(examples.drop_last(), labels);
        let e = examples.last();
        match encoded_example(e.annotation, opt_bytes(e.image), e.boxes@, labels) {
            Ok(p) => rest.push(p),
            Err(_) => rest,
        }
    }
}

/// The number of examples that are dropped.
pub open spec fn dropped_count(examples: Seq<LoadedExample>, labels: Seq<Seq<char>>) -> nat
    decreases examples.len(),
{
    if examples.len() == 0 {
        0
    } else {
        let rest = dropped_count(examples.drop_last(), labels);
        let e = examples.last();
        match encoded_example(e.annotation, opt_bytes(e.image), e.boxes@, labels) {
            Ok(_) => rest,
            Err(_) => rest + 1,
        }
    }
}

/// The record stream of one set of examples.
#[derive(Debug)]
pub struct RecordSet {
    /// The framed records, in the order of the examples.
    pub records: Vec<u8>,
    /// How many records were written.
    pub written: usize,
    /// How many examples were dropped.
    pub ignored: usize,
}

/// Encodes a set of examples as a record stream, in order, labelling objects
/// through `label_map`; examples that yield no record are counted as
/// ignored. An empty set gives `None`: no stream is written for it.
pub fn gen_tfrecord(examples: Vec<LoadedExample>, label_map: &LabelMap) -> (r: Option<RecordSet>)
    requires
        label_map.wf(),
        all_loaded_wf(examples@),
    ensures
        examples@.len() == 0 <==> r is None,
        match r {
            Some(set) => {
                &&& set.records@ == frames_of(accepted_payloads(examples@, label_map@))
                &&& set.written == accepted_payloads(examples@, label_map@).len()
                &&& set.ignored == dropped_count(examples@, label_map@)
            },
            None => true,
        },
{
    if examples.len() == 0 {
        return None;
    }
    let ghost all = examples@;
    let ghost labels = label_map@;
    let n: usize = examples.len();
    let mut rest = examples;
    let mut record = RecordBuilder::new(0, label_map.clone());
    let mut written: usize = 0;
    let mut ignored: usize = 0;
    let mut i: usize = 0;
    while rest.len() > 0
        invariant
            all.len() == n,
            all_loaded_wf(all),
            i + rest@.len() == n,
            rest@ == all.subrange(i as int, n as int),
            record.wf(),
            record.labels() == labels,
            record@ == accepted_payloads(all.take(i as int), labels),
            written == record@.len(),
            ignored == dropped_count(all.take(i as int), labels),
            written + ignored == i,
        decreases rest@.len(),
    {
        let e = rest.remove(0);
        proof {
            assert(e == all[i as int]);
            assert(loaded_wf(all[i as int]));
            assert(all.take(i + 1).drop_last() =~= all.take(i as int));
            assert(all.take(i + 1).last() == e);
        }
        match record.add_example(e.annotation, e.image, e.boxes) {
            Ok(()) => {
                written = written + 1;
            },
            Err(_) => {
                ignored = ignored + 1;
            },
        }
        i = i + 1;
        proof {
            assert(rest@ =~= all.subrange(i as int, n as int));
        }
    }
    proof {
        assert(all.take(i as int) =~= all);
    }
    let records = record.take_tfrecord();
    Some(RecordSet { records, written, ignored })
}

/// What a preparation run produces from the parsed annotations.
#[derive(Debug)]
pub struct Prepared {
    /// The registry of every object label.
    pub label_map: LabelMap,
    /// The registry's text form, the content of the label map file.
    pub label_map_text: String,
    /// The test set's record stream; `None` when the test set is empty.
    pub test: Option<RecordSet>,
    /// The training set's record stream; `None` when the training set is empty.
    pub train: Option<RecordSet>,
}

/// Prepares a data set from its parsed annotations, in discovery order: the
/// registry over every object label of every annotation, then the split into
/// a test and a training set by `test_set_ratio`, then the record stream of
/// each non-empty set.
pub fn prepare_dataset(examples: Vec<LoadedExample>, test_set_ratio: u8) -> (r: Prepared)
    requires
        names_of(examples@).len() < MAX_LABEL_ID,
        all_loaded_wf(examples@),
    ensures
        r.label_map.wf(),
        r.label_map@ == register_all(Seq::empty(), names_of(examples@)),
        r.label_map_text@ == crate::label_map::label_map_text(r.label_map@, 0),
        ({
            let (train, test) = partition_by(examples@, test_flags(examples@, test_set_ratio));
            &&& test.len() == 0 <==> r.test is None
            &&& train.len() == 0 <==> r.train is None
            &&& (r.test matches Some(set) ==> set.records@ == frames_of(
                accepted_payloads(test, r.label_map@),
            ))
            &&& (r.train matches Some(set) ==> set.records@ == frames_of(
                accepted_payloads(train, r.label_map@),
            ))
        }),
{
    let label_map = gen_label_map(&examples);
    let label_map_text = label_map.to_text();
    let ghost flags = test_flags(examples@, test_set_ratio);
    proof {
        crate::partition::lemma_partition_complete(examples@, flags);
        lemma_partition_keeps_wf(examples@, flags);
    }
    let (test, train) = split_dataset(examples, test_set_ratio);
    let test = gen_tfrecord(test, &label_map);
    let train = gen_tfrecord(train, &label_map);
    Prepared { label_map, label_map_text, test, train }
}

/// Both sides of a partition hold only examples with one box per object.
proof fn lemma_partition_keeps_wf(examples: Seq<LoadedExample>, flags: Seq<bool>)
    requires
        all_loaded_wf(examples),
        examples.len() == flags.len(),
    ensures
        all_loaded_wf(partition_by(examples, flags).0),
        all_loaded_wf(partition_by(examples, flags).1),
    decreases examples.len(),
{
    if examples.len() > 0 {
        let init = examples.drop_last();
        let f = flags.take(flags.len() - 1);
        assert(all_loaded_wf(init)) by {
            assert forall|i: int| 0 <= i < init.len() implies loaded_wf(#[trigger] init[i]) by {
                assert(init[i] == examples[i]);
            }
        }
        lemma_partition_keeps_wf(init, f);
        crate::partition::lemma_partition_flags_prefix(init, flags);
        assert(loaded_wf(examples[examples.len() - 1]));
    }
}

} // verus!
