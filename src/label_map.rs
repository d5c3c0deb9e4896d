//! The label registry: a stable mapping from label names to integer ids,
//! assigned `1, 2, 3, ...` in first-seen order, and its text form.
use vstd::prelude::*;
use vstd::utf8::encode_utf8;

verus! {

/// The largest id the persisted form can hold (a signed 32-bit integer).
pub const MAX_LABEL_ID: i64 = 0x7FFF_FFFF;

/// No label occurs twice.
pub open spec fn distinct_labels(labels: Seq<Seq<char>>) -> bool {
    forall|i: int, j: int| 0 <= i < j < labels.len() ==> labels[i] != labels[j]
}

/// The registry after adding `label`: unchanged if it is there, else with
/// `label` at the end.
pub open spec fn added(labels: Seq<Seq<char>>, label: Seq<char>) -> Seq<Seq<char>> {
    if labels.contains(label) {
        labels
    } else {
        labels.push(label)
    }
}

/// The id of a registered label: its position plus one.
pub open spec fn id_of(labels: Seq<Seq<char>>, label: Seq<char>) -> int {
    (choose|i: int| 0 <= i < labels.len() && labels[i] == label) + 1
}

/// In a registry of distinct labels, the label at position `i` has id `i + 1`.
pub proof fn lemma_id_of_position(labels: Seq<Seq<char>>, i: int)
    requires
        distinct_labels(labels),
        0 <= i < labels.len(),
    ensures
        id_of(labels, labels[i]) == i + 1,
{
    let k = choose|k: int| 0 <= k < labels.len() && labels[k] == labels[i];
    if k != i {
        if k < i {
            assert(labels[k] != labels[i]);
        } else {
            assert(labels[i] != labels[k]);
        }
    }
}

/// The registry's laws. Adding a label that is already there changes nothing,
/// so adding a label twice gives the same id both times. Ids run `1, 2, 3, ...`
/// in first-seen order: a new label receives the id after the last, and the
/// label at position `i` has id `i + 1`. Distinct labels never share an id.
pub proof fn lemma_registry_laws(labels: Seq<Seq<char>>, a: Seq<char>, b: Seq<char>)
    requires
        distinct_labels(labels),
    ensures
        distinct_labels(added(labels, a)),
        added(added(labels, a), a) == added(labels, a),
        id_of(added(added(labels, a), a), a) == id_of(added(labels, a), a),
        !labels.contains(a) ==> id_of(added(labels, a), a) == labels.len() + 1,
        forall|i: int| 0 <= i < labels.len() ==> id_of(labels, #[trigger] labels[i]) == i + 1,
        labels.contains(a) && labels.contains(b) && a != b ==> id_of(labels, a) != id_of(
            labels,
            b,
        ),
{
    let n = labels.len() as int;
    let next = added(labels, a);
    assert(next.contains(a)) by {
        if !labels.contains(a) {
            assert(next[n] == a);
        }
    }
    assert(distinct_labels(next)) by {
        if !labels.contains(a) {
            assert forall|i: int, j: int| 0 <= i < j < next.len() implies next[i] != next[j] by {
                if j == n {
                    assert(labels[i] != a);
                }
            }
        }
    }
    assert forall|i: int| 0 <= i < labels.len() implies id_of(labels, #[trigger] labels[i]) == i
        + 1 by {
        lemma_id_of_position(labels, i);
    }
    if !labels.contains(a) {
        lemma_id_of_position(next, n);
    }
    if labels.contains(a) && labels.contains(b) && a != b {
        let i = choose|i: int| 0 <= i < labels.len() && labels[i] == a;
        let j = choose|j: int| 0 <= j < labels.len() && labels[j] == b;
        lemma_id_of_position(labels, i);
        lemma_id_of_position(labels, j);
    }
}

/// A registry of labels. The label at position `i` has id `i + 1`.
#[derive(Debug)]
pub struct LabelMap {
    /// The id the next new label receives.
    index: i64,
    /// The labels, in the order they were first added.
    names: Vec<String>,
}

impl View for LabelMap {
    type V = Seq<Seq<char>>;

    /// The labels in first-seen order; a label's id is its position plus one.
    closed spec fn view(&self) -> Seq<Seq<char>> {
        self.names@.map_values(|s: String| s@)
    }
}

impl Clone for LabelMap {
    /// A registry with the same labels, ids and counter.
    fn clone(&self) -> (r: Self)
        ensures
            r@ == self@,
            self.wf() ==> r.wf(),
    {
        let mut names: Vec<String> = Vec::new();
        let mut i: usize = 0;
        while i < self.names.len()
            invariant
                i <= self.names@.len(),
                names@ == self.names@.take(i as int),
            decreases self.names@.len() - i,
        {
            names.push(self.names[i].clone());
            i = i + 1;
            proof {
                assert(names@ =~= self.names@.take(i as int));
            }
        }
        proof {
            assert(names@ =~= self.names@);
        }
        LabelMap { index: self.index, names }
    }
}

impl LabelMap {
    /// The registry's invariant: its labels are distinct and the counter is the
    /// id the next new label receives.
    pub closed spec fn wf(&self) -> bool {
        &&& self.index as int == self.names@.len() + 1
        &&& self.names@.len() <= MAX_LABEL_ID
        &&& distinct_labels(self@)
    }

    /// The registry's labels are distinct.
    pub proof fn lemma_distinct(&self)
        requires
            self.wf(),
        ensures
            distinct_labels(self@),
            self@.len() <= MAX_LABEL_ID,
    {
    }

    /// An empty registry; the first label added receives id 1.
    pub fn new() -> (r: LabelMap)
        ensures
            r.wf(),
            r@ == Seq::<Seq<char>>::empty(),
    {
        let r = LabelMap { index: 1, names: Vec::new() };
        proof {
            assert(r@ =~= Seq::<Seq<char>>::empty());
        }
        r
    }

    /// The number of labels.
    pub fn len(&self) -> (r: usize)
        requires
            self.wf(),
        ensures
            r == self@.len(),
    {
        self.names.len()
    }

    /// The position of `label`, if it is registered.
    fn position(&self, label: &String) -> (r: Option<usize>)
        requires
            self.wf(),
        ensures
            match r {
                Some(i) => i < self@.len() && self@[i as int] == label@,
                None => !self@.contains(label@),
            },
    {
        let mut i: usize = 0;
        while i < self.names.len()
            invariant
                i <= self.names@.len(),
                forall|j: int| 0 <= j < i ==> self@[j] != label@,
            decreases self.names@.len() - i,
        {
            if self.names[i] == *label {
                return Some(i);
            }
            i = i + 1;
        }
        None
    }

    /// Adds `label`, if it is new, under the next id, and returns its id. A
    /// label added again keeps the id it was given first.
    pub fn add(&mut self, label: &str) -> (id: i64)
        requires
            old(self).wf(),
            old(self)@.len() < MAX_LABEL_ID,
        ensures
            final(self).wf(),
            final(self)@ == added(old(self)@, label@),
            1 <= id <= final(self)@.len(),
            final(self)@[id - 1] == label@,
            id == id_of(final(self)@, label@),
    {
        let owned = label.to_owned();
        match self.position(&owned) {
            Some(i) => {
                proof {
                    lemma_id_of_position(self@, i as int);
                }
                (i as i64) + 1
            },
            None => {
                let current = self.index;
                self.names.push(owned);
                self.index = self.index + 1;
                proof {
                    assert(self@ =~= old(self)@.push(label@));
                    lemma_registry_laws(old(self)@, label@, label@);
                    lemma_id_of_position(self@, old(self)@.len() as int);
                }
                current
            },
        }
    }

    /// The id of `label`, or `None` when it is not registered.
    pub fn get(&self, label: &str) -> (r: Option<i64>)
        requires
            self.wf(),
        ensures
            match r {
                Some(id) => 1 <= id <= self@.len() && self@[id - 1] == label@ && id == id_of(
                    self@,
                    label@,
                ),
                None => !self@.contains(label@),
            },
    {
        let owned = label.to_owned();
        match self.position(&owned) {
            Some(i) => {
                proof {
                    lemma_id_of_position(self@, i as int);
                }
                Some((i as i64) + 1)
            },
            None => None,
        }
    }

    /// The text form of the registry: one `item` block per label, in
    /// registry order, with the label's name and id.
    pub fn to_text(&self) -> (r: String)
        requires
            self.wf(),
        ensures
            r@ == label_map_text(self@, 0),
    {
        let mut out = String::new();
        let ghost labels = self@;
        let mut j: usize = 0;
        while j < self.names.len()
            invariant
                labels == self@,
                self.wf(),
                j <= labels.len(),
                out@ + label_map_text(labels, j as int) == label_map_text(labels, 0),
            decreases labels.len() - j,
        {
            let name = &self.names[j];
            let bytes = name.as_str().as_bytes();
            push_item(&mut out, bytes, (j as u32) + 1);
            proof {
                assert(label_map_text(labels, j as int) == item_text(
                    encode_utf8(labels[j as int]),
                    (j + 1) as nat,
                ) + label_map_text(labels, j + 1));
                assert(labels[j as int] == self.names@[j as int]@);
            }
            j = j + 1;
        }
        proof {
            assert(label_map_text(labels, j as int) =~= Seq::<char>::empty());
        }
        out
    }
}

/// The text form of the labels from position `from` on.
pub open spec fn label_map_text(labels: Seq<Seq<char>>, from: int) -> Seq<char>
    decreases labels.len() - from,
{
    if from < 0 || from >= labels.len() {
        Seq::empty()
    } else {
        item_text(encode_utf8(labels[from]), (from + 1) as nat) + label_map_text(labels, from + 1)
    }
}

/// One `item` block: the quoted name and the id, each on a line of its own.
pub open spec fn item_text(name: Seq<u8>, id: nat) -> Seq<char> {
    "item {\n"@ + "  name: "@ + quoted(name) + "\n"@ + "  id: "@ + decimal(id) + "\n"@ + "}\n"@
}

/// The text-format escape of one byte.
pub open spec fn escape_byte(c: u8) -> Seq<char> {
    if c == 10 {
        seq!['\\', 'n']
    } else if c == 13 {
        seq!['\\', 'r']
    } else if c == 9 {
        seq!['\\', 't']
    } else if c == 39 {
        seq!['\\', '\'']
    } else if c == 34 {
        seq!['\\', '"']
    } else if c == 92 {
        seq!['\\', '\\']
    } else if 0x20 <= c <= 0x7e {
        seq![c as char]
    } else {
        seq!['\\', digit_char(c as nat / 64), digit_char(c as nat / 8 % 8), digit_char(c as nat % 8)]
    }
}

/// The text-format escape of a byte sequence.
pub open spec fn escaped(bytes: Seq<u8>) -> Seq<char>
    decreases bytes.len(),
{
    if bytes.len() == 0 {
        Seq::empty()
    } else {
        escaped(bytes.drop_last()) + escape_byte(bytes.last())
    }
}

/// A byte sequence escaped and put between double quotes.
pub open spec fn quoted(bytes: Seq<u8>) -> Seq<char> {
    seq!['"'] + escaped(bytes) + seq!['"']
}

/// The decimal digit for `d` (below ten).
pub open spec fn digit_char(d: nat) -> char {
    if d == 0 {
        '0'
    } else if d == 1 {
        '1'
    } else if d == 2 {
        '2'
    } else if d == 3 {
        '3'
    } else if d == 4 {
        '4'
    } else if d == 5 {
        '5'
    } else if d == 6 {
        '6'
    } else if d == 7 {
        '7'
    } else if d == 8 {
        '8'
    } else {
        '9'
    }
}

/// The decimal form of `n`, without leading zeros.
pub open spec fn decimal(n: nat) -> Seq<char>
    decreases n,
{
    if n < 10 {
        seq![digit_char(n)]
    } else {
        decimal(n / 10) + seq![digit_char(n % 10)]
    }
}

/// Relies on `protobuf::text_format::quote_escape_bytes`: the bytes between
/// double quotes, each escaped as the text format does it.
#[verifier::external_body]
fn quote_bytes(bytes: &[u8]) -> (r: String)
    ensures
        r@ == quoted(bytes@),
{
    protobuf::text_format::quote_escape_bytes(bytes)
}

/// The one-character string of a decimal digit.
fn digit_str(d: u32) -> (r: &'static str)
    requires
        d < 10,
    ensures
        r@ == seq![digit_char(d as nat)],
{
    let r = if d == 0 {
        "0"
    } else if d == 1 {
        "1"
    } else if d == 2 {
        "2"
    } else if d == 3 {
        "3"
    } else if d == 4 {
        "4"
    } else if d == 5 {
        "5"
    } else if d == 6 {
        "6"
    } else if d == 7 {
        "7"
    } else if d == 8 {
        "8"
    } else {
        "9"
    };
    proof {
        reveal_strlit("0");
        reveal_strlit("1");
        reveal_strlit("2");
        reveal_strlit("3");
        reveal_strlit("4");
        reveal_strlit("5");
        reveal_strlit("6");
        reveal_strlit("7");
        reveal_strlit("8");
        reveal_strlit("9");
    }
    r
}

/// Appends the decimal form of `n` to `out`.
fn push_decimal(out: &mut String, n: u32)
    ensures
        final(out)@ == old(out)@ + decimal(n as nat),
    decreases n,
{
    if n >= 10 {
        push_decimal(out, n / 10);
    }
    out.append(digit_str(n % 10));
    proof {
        assert(final(out)@ =~= old(out)@ + decimal(n as nat));
    }
}

/// Appends one `item` block to `out`.
fn push_item(out: &mut String, name: &[u8], id: u32)
    ensures
        final(out)@ == old(out)@ + item_text(name@, id as nat),
{
    out.append("item {\n");
    out.append("  name: ");
    let q = quote_bytes(name);
    out.append(q.as_str());
    out.append("\n");
    out.append("  id: ");
    push_decimal(out, id);
    out.append("\n");
    out.append("}\n");
    proof {
        assert(final(out)@ =~= old(out)@ + item_text(name@, id as nat));
    }
}

} // verus!
