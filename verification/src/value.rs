//! The data model: labels, samples, series and merged result values.
//!
//! Floating-point sample values are carried as their IEEE-754 bit
//! patterns (`u64`): merging never computes with a value, it only moves,
//! deduplicates and orders them, so the bit pattern is a faithful stand-in.

use crate::order::{char_le_fn, chars_le, seq_lex_le, str_le};
use vstd::prelude::*;

verus! {

/// One dimension of a time series.
pub struct Label {
    pub name: String,
    pub value: String,
}

/// Mathematical model of a [`Label`]: both strings as character sequences.
#[verifier::ext_equal]
pub struct LabelModel {
    pub name: Seq<char>,
    pub value: Seq<char>,
}

impl View for Label {
    type V = LabelModel;

    open spec fn view(&self) -> LabelModel {
        LabelModel { name: self.name@, value: self.value@ }
    }
}

impl Clone for Label {
    fn clone(&self) -> (r: Self)
        ensures
            r@ == self@,
    {
        Label { name: self.name.clone(), value: self.value.clone() }
    }
}

/// The model of a whole label set, in the order it was given.
pub open spec fn labels_view(s: Seq<Label>) -> Seq<LabelModel> {
    s.map_values(|l: Label| l@)
}

/// One measured point: a microsecond timestamp and the bit pattern of the
/// measured `f64` value.
#[derive(Clone, Copy, PartialEq, Eq, Structural, Debug)]
pub struct Sample {
    pub timestamp: i64,
    pub value_bits: u64,
}

/// One partial series as a worker reports it: a label set and, depending
/// on the declared result shape, range samples, one instant sample, or a
/// bare scalar value.
pub struct Series {
    pub metric: Vec<Label>,
    pub samples: Vec<Sample>,
    pub sample: Option<Sample>,
    pub scalar_bits: Option<u64>,
}

/// Mathematical model of a [`Series`].
#[verifier::ext_equal]
pub struct SeriesModel {
    pub metric: Seq<LabelModel>,
    pub samples: Seq<Sample>,
    pub sample: Option<Sample>,
    pub scalar_bits: Option<u64>,
}

impl View for Series {
    type V = SeriesModel;

    open spec fn view(&self) -> SeriesModel {
        SeriesModel {
            metric: labels_view(self.metric@),
            samples: self.samples@,
            sample: self.sample,
            scalar_bits: self.scalar_bits,
        }
    }
}

/// A merged series over a time range: samples sorted strictly ascending
/// by timestamp.
pub struct RangeValue {
    pub labels: Vec<Label>,
    pub samples: Vec<Sample>,
}

/// A merged series at one instant.
pub struct InstantValue {
    pub labels: Vec<Label>,
    pub sample: Sample,
}

/// The three shapes a merged query result can take.
pub enum Value {
    Matrix(Vec<RangeValue>),
    Vector(Vec<InstantValue>),
    Scalar(Sample),
}

/// The declared shape of a partial result, already decoded from the wire
/// tag at the boundary; an unrecognized tag decodes to no shape at all.
#[derive(Clone, Copy, PartialEq, Eq, Structural, Debug)]
pub enum ResultType {
    Matrix,
    Vector,
    Scalar,
}

/// How a search can fail.
#[derive(Debug)]
pub enum SearchError {
    /// No healthy worker node was found.
    NoWorkersAvailable,
    /// The requested resolution exceeds the configured cap on points per
    /// series.
    TooManyPoints,
    /// A worker could not be reached at the transport level.
    WorkerUnreachable,
    /// A structured, serializable error code reported by a worker,
    /// propagated verbatim.
    WorkerError(String),
    /// Any other remote failure.
    WorkerExecutionError,
    /// The partial results declared no recognizable result shape.
    InvalidResultShape,
}

// --- canonical order on labels and label sets ---

/// Order on single labels: by name, then by value.
pub open spec fn label_le(a: LabelModel, b: LabelModel) -> bool {
    if a.name == b.name {
        chars_le(a.value, b.value)
    } else {
        chars_le(a.name, b.name)
    }
}

/// The label order as a first-class value, shared by every use site.
pub open spec fn label_le_fn() -> spec_fn(LabelModel, LabelModel) -> bool {
    |a: LabelModel, b: LabelModel| label_le(a, b)
}

/// Order on label sets: lexicographic over the canonical label order.
pub open spec fn labels_le(a: Seq<LabelModel>, b: Seq<LabelModel>) -> bool {
    seq_lex_le(a, b, label_le_fn())
}

pub proof fn lemma_label_le_total_ordering()
    ensures
        vstd::relations::total_ordering(label_le_fn()),
{
    crate::order::lemma_char_le_total_ordering();
    let le = label_le_fn();
    let cle = char_le_fn();
    assert forall|a: LabelModel| #[trigger] le(a, a) by {
        crate::order::lemma_seq_lex_le_refl(a.value, cle);
    }
    assert forall|a: LabelModel, b: LabelModel|
        #[trigger] le(a, b) && #[trigger] le(b, a) implies a == b by {
        if a.name == b.name {
            crate::order::lemma_seq_lex_le_antisym(a.value, b.value, cle);
            assert(a =~= b);
        } else {
            crate::order::lemma_seq_lex_le_antisym(a.name, b.name, cle);
            assert(false);
        }
    }
    assert forall|a: LabelModel, b: LabelModel, c: LabelModel|
        #[trigger] le(a, b) && #[trigger] le(b, c) implies le(a, c) by {
        if a.name == b.name && b.name == c.name {
            crate::order::lemma_seq_lex_le_trans(a.value, b.value, c.value, cle);
        } else if a.name == b.name {
            assert(chars_le(b.name, c.name));
        } else if b.name == c.name {
            assert(chars_le(a.name, b.name));
        } else {
            crate::order::lemma_seq_lex_le_trans(a.name, b.name, c.name, cle);
            if a.name == c.name {
                crate::order::lemma_seq_lex_le_antisym(a.name, b.name, cle);
                assert(false);
            }
        }
    }
    assert forall|a: LabelModel, b: LabelModel| #[trigger] le(a, b) || #[trigger] le(b, a) by {
        if a.name == b.name {
            crate::order::lemma_seq_lex_le_total(a.value, b.value, cle);
        } else {
            crate::order::lemma_seq_lex_le_total(a.name, b.name, cle);
        }
    }
}

// --- executable comparisons deciding the orders above ---

/// Decides equality of two labels' models.
pub fn label_eq(a: &Label, b: &Label) -> (r: bool)
    ensures
        r == (a@ == b@),
{
    let r = a.name.eq(&b.name) && a.value.eq(&b.value);
    proof {
        if r {
            assert(a@ =~= b@);
        }
    }
    r
}

/// Decides `label_le` on the models of two labels.
pub fn label_le_exec(a: &Label, b: &Label) -> (r: bool)
    ensures
        r == label_le(a@, b@),
{
    if a.name.eq(&b.name) {
        str_le(a.value.as_str(), b.value.as_str())
    } else {
        str_le(a.name.as_str(), b.name.as_str())
    }
}

/// Decides equality of the models of two label sets.
pub fn labels_eq(a: &Vec<Label>, b: &Vec<Label>) -> (r: bool)
    ensures
        r == (labels_view(a@) == labels_view(b@)),
{
    if a.len() != b.len() {
        assert(labels_view(a@).len() != labels_view(b@).len());
        return false;
    }
    let n = a.len();
    let mut i: usize = 0;
    while i < n
        invariant
            i <= n,
            n == a@.len() && n == b@.len(),
            forall|j: int| 0 <= j < i ==> labels_view(a@)[j] == labels_view(b@)[j],
        decreases n - i,
    {
        if !label_eq(&a[i], &b[i]) {
            assert(labels_view(a@)[i as int] != labels_view(b@)[i as int]);
            return false;
        }
        i = i + 1;
    }
    proof {
        assert(labels_view(a@) =~= labels_view(b@));
    }
    true
}

/// Decides `labels_le` on the models of two label sets.
pub fn labels_le_exec(a: &Vec<Label>, b: &Vec<Label>) -> (r: bool)
    ensures
        r == labels_le(labels_view(a@), labels_view(b@)),
{
    let av = Ghost(labels_view(a@));
    let bv = Ghost(labels_view(b@));
    let alen = a.len();
    let blen = b.len();
    let mut i: usize = 0;
    loop
        invariant
            i <= alen,
            i <= blen,
            alen == av@.len(),
            blen == bv@.len(),
            av@ == labels_view(a@),
            bv@ == labels_view(b@),
            forall|j: int| 0 <= j < i ==> av@[j] == bv@[j],
        decreases alen - i,
    {
        proof {
            crate::order::lemma_seq_lex_le_skip_prefix(av@, bv@, i as int, label_le_fn());
        }
        if i == alen {
            assert(av@.skip(i as int).len() == 0);
            return true;
        }
        if i == blen {
            assert(av@.skip(i as int).len() != 0 && bv@.skip(i as int).len() == 0);
            return false;
        }
        assert(av@.skip(i as int)[0] == av@[i as int] && bv@.skip(i as int)[0] == bv@[i as int]);
        if !label_eq(&a[i], &b[i]) {
            let r = label_le_exec(&a[i], &b[i]);
            return r;
        }
        i = i + 1;
    }
}

} // verus!
