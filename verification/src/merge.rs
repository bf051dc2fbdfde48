//! The result merger: combines the partial results of all partitions
//! into one value of the declared shape, deduplicating and ordering
//! deterministically.
//!
//! Two partial series describe the same merged series exactly when their
//! label sets are equal as multisets; the canonical sorted label sequence
//! (the signature) decides this.  Within a merged series a
//! later-processed point overwrites an earlier one at the same timestamp
//! (last write wins, in processing order).

use crate::order::{lemma_seq_lex_le_antisym, lemma_seq_lex_le_refl};
use crate::value::{
    label_le, label_le_fn, labels_eq, labels_le, labels_le_exec, labels_view, lemma_label_le_total_ordering,
    InstantValue, Label, LabelModel, RangeValue, Sample, Series, SeriesModel,
};
use vstd::prelude::*;
use vstd::relations::sorted_by;
use vstd::seq_lib::{lemma_multiset_commutative, lemma_sorted_unique};

verus! {

/// The signature of a label set: its labels in canonical order.  Two
/// label sets have equal signatures exactly when they are equal as
/// multisets.
pub open spec fn sig_of(metric: Seq<LabelModel>) -> Seq<LabelModel> {
    metric.sort_by(label_le_fn())
}

pub proof fn lemma_sig_of_ensures(metric: Seq<LabelModel>)
    ensures
        sorted_by(sig_of(metric), label_le_fn()),
        sig_of(metric).to_multiset() == metric.to_multiset(),
{
    lemma_label_le_total_ordering();
    metric.lemma_sort_by_ensures(label_le_fn());
}

/// Signature equality is exactly label-multiset equality.
pub proof fn lemma_sig_eq_iff_multiset_eq(a: Seq<LabelModel>, b: Seq<LabelModel>)
    ensures
        (sig_of(a) == sig_of(b)) <==> (a.to_multiset() == b.to_multiset()),
{
    lemma_label_le_total_ordering();
    lemma_sig_of_ensures(a);
    lemma_sig_of_ensures(b);
    if a.to_multiset() == b.to_multiset() {
        lemma_sorted_unique(sig_of(a), sig_of(b), label_le_fn());
        assert(sig_of(a) == sig_of(b));
    }
}

/// Inserts a label into a canonically sorted label vector, keeping it
/// sorted; the labels held are the old ones plus the new one.
fn insert_label_sorted(v: &mut Vec<Label>, x: Label)
    requires
        sorted_by(labels_view(old(v)@), label_le_fn()),
    ensures
        sorted_by(labels_view(final(v)@), label_le_fn()),
        labels_view(final(v)@).to_multiset() == labels_view(old(v)@).to_multiset().insert(x@),
{
    proof {
        lemma_label_le_total_ordering();
        broadcast use vstd::seq_lib::group_to_multiset_ensures;
    }
    let ghost oldv = labels_view(v@);
    let mut m: usize = 0;
    loop
        invariant
            m <= v@.len(),
            labels_view(v@) == oldv,
            sorted_by(oldv, label_le_fn()),
            forall|i: int| 0 <= i < m ==> label_le(oldv[i], x@),
        ensures
            m <= oldv.len(),
            m == oldv.len() || !label_le(oldv[m as int], x@),
            forall|i: int| 0 <= i < m ==> label_le(oldv[i], x@),
        decreases v@.len() - m,
    {
        if m >= v.len() {
            break ;
        }
        if !crate::value::label_le_exec(&v[m], &x) {
            break ;
        }
        m = m + 1;
    }
    proof {
        if (m as int) < oldv.len() {
            assert(!label_le(oldv[m as int], x@));
            assert forall|j: int| m <= j < oldv.len() implies label_le(x@, oldv[j]) by {
                let le = label_le_fn();
                assert(le(x@, oldv[m as int]) || le(oldv[m as int], x@));
                assert(le(x@, oldv[m as int]));
                if j > m {
                    assert(le(oldv[m as int], oldv[j]));
                    assert(le(x@, oldv[j]));
                }
            }
        }
    }
    v.insert(m, x);
    proof {
        let newv = labels_view(v@);
        assert(newv =~= oldv.take(m as int).push(x@) + oldv.skip(m as int));
        assert(oldv =~= oldv.take(m as int) + oldv.skip(m as int));
        lemma_multiset_commutative(oldv.take(m as int).push(x@), oldv.skip(m as int));
        lemma_multiset_commutative(oldv.take(m as int), oldv.skip(m as int));
        assert(newv.to_multiset() =~= oldv.to_multiset().insert(x@));
        assert forall|i: int, j: int| 0 <= i < j < newv.len() implies label_le_fn()(
            newv[i],
            newv[j],
        ) by {
            let le = label_le_fn();
            if j < m as int {
            } else if i > m as int {
            } else if i == m as int {
                assert(newv[i] == x@);
                assert(newv[j] == oldv[j - 1]);
            } else if j == m as int {
                assert(newv[j] == x@);
                assert(newv[i] == oldv[i]);
            } else {
                assert(newv[i] == oldv[i] && newv[j] == oldv[j - 1]);
                assert(le(oldv[i], oldv[j - 1]) || i == j - 1);
            }
        }
    }
}

/// Sorts a label set into canonical order: the executable form of
/// [`sig_of`].
pub fn canonical_labels(metric: &Vec<Label>) -> (r: Vec<Label>)
    ensures
        labels_view(r@) == sig_of(labels_view(metric@)),
        sorted_by(labels_view(r@), label_le_fn()),
{
    proof {
        lemma_label_le_total_ordering();
        broadcast use vstd::seq_lib::group_to_multiset_ensures;
    }
    let mut out: Vec<Label> = Vec::new();
    let mut k: usize = 0;
    proof {
        assert(labels_view(out@) =~= Seq::<LabelModel>::empty());
        assert(labels_view(metric@).take(0) =~= Seq::<LabelModel>::empty());
        assert(labels_view(out@).to_multiset() =~= labels_view(metric@).take(
            0,
        ).to_multiset());
    }
    while k < metric.len()
        invariant
            k <= metric@.len(),
            sorted_by(labels_view(out@), label_le_fn()),
            labels_view(out@).to_multiset() == labels_view(metric@).take(
                k as int,
            ).to_multiset(),
        decreases metric@.len() - k,
    {
        let x = metric[k].clone();
        proof {
            assert(x@ == labels_view(metric@)[k as int]);
        }
        insert_label_sorted(&mut out, x);
        proof {
            assert(labels_view(metric@).take(k as int + 1) =~= labels_view(metric@).take(
                k as int,
            ).push(labels_view(metric@)[k as int]));
            broadcast use vstd::seq_lib::group_to_multiset_ensures;
        }
        k = k + 1;
    }
    proof {
        assert(labels_view(metric@).take(metric@.len() as int) =~= labels_view(metric@));
        lemma_sig_of_ensures(labels_view(metric@));
        lemma_sorted_unique(labels_view(out@), sig_of(labels_view(metric@)), label_le_fn());
    }
    out
}

// --- timestamp-keyed sample maps ---

/// Samples sorted strictly ascending by timestamp (hence unique
/// timestamps).
pub open spec fn ts_sorted(s: Seq<Sample>) -> bool {
    forall|i: int, j: int|
        0 <= i < j < s.len() ==> (#[trigger] s[i]).timestamp < (#[trigger] s[j]).timestamp
}

/// The timestamp-to-value map a sample sequence denotes when its points
/// are written in order: a later point overwrites an earlier one at the
/// same timestamp.
pub open spec fn samples_map(s: Seq<Sample>) -> Map<int, u64>
    decreases s.len(),
{
    if s.len() == 0 {
        Map::empty()
    } else {
        samples_map(s.drop_last()).insert(s.last().timestamp as int, s.last().value_bits)
    }
}

/// The map's domain is exactly the set of timestamps occurring in the
/// sequence.
pub proof fn lemma_samples_map_dom(s: Seq<Sample>, t: int)
    ensures
        samples_map(s).contains_key(t) <==> exists|j: int|
            0 <= j < s.len() && (#[trigger] s[j]).timestamp == t,
    decreases s.len(),
{
    if s.len() > 0 {
        lemma_samples_map_dom(s.drop_last(), t);
        if samples_map(s).contains_key(t) {
            if s.last().timestamp == t {
                assert(s[s.len() - 1].timestamp == t);
            } else {
                let j = choose|j: int|
                    0 <= j < s.drop_last().len() && (#[trigger] s.drop_last()[j]).timestamp == t;
                assert(s[j].timestamp == t);
            }
        }
        if exists|j: int| 0 <= j < s.len() && (#[trigger] s[j]).timestamp == t {
            let j = choose|j: int| 0 <= j < s.len() && (#[trigger] s[j]).timestamp == t;
            if j < s.len() - 1 {
                assert(s.drop_last()[j].timestamp == t);
            }
        }
    }
}

/// On a sequence with unique timestamps, the map sends each timestamp to
/// that sample's value.
pub proof fn lemma_samples_map_at(s: Seq<Sample>, j: int)
    requires
        ts_sorted(s),
        0 <= j < s.len(),
    ensures
        samples_map(s).contains_key(s[j].timestamp as int),
        samples_map(s)[s[j].timestamp as int] == s[j].value_bits,
    decreases s.len(),
{
    lemma_samples_map_dom(s, s[j].timestamp as int);
    if j == s.len() - 1 {
    } else {
        assert(s[j].timestamp < s.last().timestamp);
        assert(ts_sorted(s.drop_last())) by {
            assert(forall|i1: int, j1: int|
                0 <= i1 < j1 < s.drop_last().len() ==> s.drop_last()[i1] == s[i1]
                    && s.drop_last()[j1] == s[j1]);
        }
        assert(s.drop_last()[j] == s[j]);
        lemma_samples_map_at(s.drop_last(), j);
    }
}

/// Dropping the last (largest-timestamp) point removes exactly its key
/// from the map.
proof fn lemma_samples_map_drop_last(s: Seq<Sample>)
    requires
        ts_sorted(s),
        s.len() > 0,
    ensures
        samples_map(s.drop_last()) =~= samples_map(s).remove(s.last().timestamp as int),
        ts_sorted(s.drop_last()),
{
    assert(ts_sorted(s.drop_last())) by {
        assert(forall|i1: int, j1: int|
            0 <= i1 < j1 < s.drop_last().len() ==> s.drop_last()[i1] == s[i1] && s.drop_last()[j1]
                == s[j1]);
    }
    let t = s.last().timestamp as int;
    lemma_samples_map_dom(s.drop_last(), t);
    if samples_map(s.drop_last()).contains_key(t) {
        let j = choose|j: int|
            0 <= j < s.drop_last().len() && (#[trigger] s.drop_last()[j]).timestamp == t;
        assert(s[j].timestamp < s.last().timestamp);
        assert(false);
    }
}

/// Two sample sequences with unique ascending timestamps denoting the
/// same map are the same sequence.
pub proof fn lemma_ts_sorted_map_unique(a: Seq<Sample>, b: Seq<Sample>)
    requires
        ts_sorted(a),
        ts_sorted(b),
        samples_map(a) == samples_map(b),
    ensures
        a == b,
    decreases a.len(),
{
    if a.len() == 0 {
        if b.len() > 0 {
            lemma_samples_map_at(b, 0);
            lemma_samples_map_dom(a, b[0].timestamp as int);
        }
        assert(a =~= b);
    } else if b.len() == 0 {
        lemma_samples_map_at(a, 0);
        lemma_samples_map_dom(b, a[0].timestamp as int);
    } else {
        // the largest timestamp of each is its last element, so equal
        // maps force equal last elements
        lemma_samples_map_at(a, a.len() - 1);
        lemma_samples_map_at(b, b.len() - 1);
        lemma_samples_map_dom(b, a.last().timestamp as int);
        lemma_samples_map_dom(a, b.last().timestamp as int);
        let ja = choose|j: int|
            0 <= j < a.len() && (#[trigger] a[j]).timestamp == b.last().timestamp;
        let jb = choose|j: int|
            0 <= j < b.len() && (#[trigger] b[j]).timestamp == a.last().timestamp;
        assert(a[ja].timestamp <= a.last().timestamp);
        assert(b[jb].timestamp <= b.last().timestamp);
        assert(a.last().timestamp == b.last().timestamp);
        assert(a.last().value_bits == b.last().value_bits);
        lemma_samples_map_drop_last(a);
        lemma_samples_map_drop_last(b);
        lemma_ts_sorted_map_unique(a.drop_last(), b.drop_last());
        assert(a =~= a.drop_last().push(a.last()));
        assert(b =~= b.drop_last().push(b.last()));
        assert(a =~= b);
    }
}

/// Writes one point into a sample sequence kept sorted by timestamp: a
/// point at a fresh timestamp is inserted in place, a point at an
/// existing timestamp overwrites it.
fn insert_sample(v: &mut Vec<Sample>, s: Sample)
    requires
        ts_sorted(old(v)@),
    ensures
        ts_sorted(final(v)@),
        samples_map(final(v)@) == samples_map(old(v)@).insert(s.timestamp as int, s.value_bits),
{
    let ghost oldv = v@;
    let mut m: usize = 0;
    loop
        invariant
            m <= v@.len(),
            v@ == oldv,
            ts_sorted(oldv),
            forall|i: int| 0 <= i < m ==> (#[trigger] oldv[i]).timestamp < s.timestamp,
        ensures
            m <= oldv.len(),
            v@ == oldv,
            m == oldv.len() || oldv[m as int].timestamp >= s.timestamp,
            forall|i: int| 0 <= i < m ==> (#[trigger] oldv[i]).timestamp < s.timestamp,
        decreases v@.len() - m,
    {
        if m >= v.len() {
            break ;
        }
        if v[m].timestamp >= s.timestamp {
            break ;
        }
        m = m + 1;
    }
    if m < v.len() && v[m].timestamp == s.timestamp {
        // overwrite in place: remove the old point, insert the new one
        v.remove(m);
        v.insert(m, s);
        proof {
            let newv = v@;
            assert(newv =~= oldv.update(m as int, s));
            assert(ts_sorted(newv)) by {
                assert(forall|i: int|
                    0 <= i < newv.len() && i != m ==> newv[i] == oldv[i]);
                assert(newv[m as int].timestamp == oldv[m as int].timestamp);
            }
            assert(samples_map(newv) =~= samples_map(oldv).insert(
                s.timestamp as int,
                s.value_bits,
            )) by {
                assert(exists|j: int| 0 <= j < newv.len() && newv[j] == s) by {
                    assert(newv[m as int] == s);
                }
                assert forall|j: int|
                    0 <= j < newv.len() && (#[trigger] newv[j]).timestamp
                        != s.timestamp implies exists|i: int|
                    0 <= i < oldv.len() && oldv[i] == newv[j] by {
                    assert(j != m);
                    assert(oldv[j] == newv[j]);
                }
                assert forall|i: int|
                    0 <= i < oldv.len() && (#[trigger] oldv[i]).timestamp
                        != s.timestamp implies exists|j: int|
                    0 <= j < newv.len() && newv[j] == oldv[i] by {
                    assert(i != m);
                    assert(newv[i] == oldv[i]);
                }
                lemma_samples_maps_pointwise(oldv, newv, s);
            }
        }
    } else {
        proof {
            if (m as int) < oldv.len() {
                assert(oldv[m as int].timestamp > s.timestamp);
            }
        }
        v.insert(m, s);
        proof {
            let newv = v@;
            assert(newv =~= oldv.take(m as int).push(s) + oldv.skip(m as int));
            assert(ts_sorted(newv)) by {
                assert(forall|i: int| 0 <= i < m ==> newv[i] == oldv[i]);
                assert(newv[m as int] == s);
                assert(forall|i: int|
                    m < i < newv.len() ==> newv[i] == oldv[i - 1]);
                assert(forall|i: int|
                    m <= i < oldv.len() ==> (#[trigger] oldv[i]).timestamp > s.timestamp) by {
                    if (m as int) < oldv.len() {
                        assert(forall|i: int|
                            m < i < oldv.len() ==> oldv[m as int].timestamp < (
                            #[trigger] oldv[i]).timestamp);
                    }
                }
            }
            assert(samples_map(newv) =~= samples_map(oldv).insert(
                s.timestamp as int,
                s.value_bits,
            )) by {
                assert(exists|j: int| 0 <= j < newv.len() && newv[j] == s) by {
                    assert(newv[m as int] == s);
                }
                assert forall|j: int|
                    0 <= j < newv.len() && (#[trigger] newv[j]).timestamp
                        != s.timestamp implies exists|i: int|
                    0 <= i < oldv.len() && oldv[i] == newv[j] by {
                    assert(j != m);
                    if j < m {
                        assert(oldv[j] == newv[j]);
                    } else {
                        assert(oldv[j - 1] == newv[j]);
                    }
                }
                assert forall|i: int|
                    0 <= i < oldv.len() && (#[trigger] oldv[i]).timestamp
                        != s.timestamp implies exists|j: int|
                    0 <= j < newv.len() && newv[j] == oldv[i] by {
                    if i < m {
                        assert(newv[i] == oldv[i]);
                    } else {
                        assert(newv[i + 1] == oldv[i]);
                    }
                }
                lemma_samples_maps_pointwise(oldv, newv, s);
            }
        }
    }
}

/// If `b` is `a` with the point `s` written (same timestamps elsewhere,
/// `s` present, everything else unchanged), then `b`'s map is `a`'s map
/// with `s` inserted.  Stated pointwise over both sorted sequences.
#[verifier::rlimit(50)]
proof fn lemma_samples_maps_pointwise(a: Seq<Sample>, b: Seq<Sample>, s: Sample)
    requires
        ts_sorted(a),
        ts_sorted(b),
        exists|j: int| 0 <= j < b.len() && b[j] == s,
        forall|j: int|
            0 <= j < b.len() && (#[trigger] b[j]).timestamp != s.timestamp ==> exists|i: int|
                0 <= i < a.len() && a[i] == b[j],
        forall|i: int|
            0 <= i < a.len() && (#[trigger] a[i]).timestamp != s.timestamp ==> exists|j: int|
                0 <= j < b.len() && b[j] == a[i],
    ensures
        samples_map(b) =~= samples_map(a).insert(s.timestamp as int, s.value_bits),
{
    let ma = samples_map(a);
    let mb = samples_map(b);
    let goal = ma.insert(s.timestamp as int, s.value_bits);
    let js = choose|j: int| 0 <= j < b.len() && b[j] == s;
    assert forall|k: int| #[trigger] mb.contains_key(k) implies goal.contains_key(k) by {
        lemma_samples_map_dom(b, k);
        if k != s.timestamp as int {
            let j = choose|j: int| 0 <= j < b.len() && (#[trigger] b[j]).timestamp == k;
            let i = choose|i: int| 0 <= i < a.len() && a[i] == b[j];
            lemma_samples_map_dom(a, k);
        }
    }
    assert forall|k: int| #[trigger] goal.contains_key(k) implies mb.contains_key(k) by {
        lemma_samples_map_dom(b, k);
        if k == s.timestamp as int {
            assert(b[js].timestamp == k);
        } else {
            lemma_samples_map_dom(a, k);
            let i = choose|i: int| 0 <= i < a.len() && (#[trigger] a[i]).timestamp == k;
            let j = choose|j: int| 0 <= j < b.len() && b[j] == a[i];
            assert(b[j].timestamp == k);
        }
    }
    assert forall|k: int| #[trigger] mb.contains_key(k) implies mb[k] == goal[k] by {
        lemma_samples_map_dom(b, k);
        if k == s.timestamp as int {
            lemma_samples_map_at(b, js);
        } else {
            let j = choose|j: int| 0 <= j < b.len() && (#[trigger] b[j]).timestamp == k;
            lemma_samples_map_at(b, j);
            let i = choose|i: int| 0 <= i < a.len() && a[i] == b[j];
            lemma_samples_map_at(a, i);
        }
    }
    assert(mb.dom() =~= goal.dom());
    assert(mb =~= goal);
}

} // verus!

verus! {

// --- grouping partial series by signature ---

/// The models of a sequence of partial series.
pub open spec fn series_views(s: Seq<Series>) -> Seq<SeriesModel> {
    s.map_values(|x: Series| x@)
}

/// Some series of `input` has signature `sig`.
pub open spec fn has_sig(input: Seq<SeriesModel>, sig: Seq<LabelModel>) -> bool {
    exists|k: int| 0 <= k < input.len() && sig_of((#[trigger] input[k]).metric) == sig
}

/// The merged timestamp-to-value map of the group with signature `sig`:
/// every series of that group writes its points in processing order, a
/// later write at an equal timestamp overwriting an earlier one.
pub open spec fn matrix_group_map(input: Seq<SeriesModel>, sig: Seq<LabelModel>) -> Map<int, u64>
    decreases input.len(),
{
    if input.len() == 0 {
        Map::empty()
    } else {
        let m = matrix_group_map(input.drop_last(), sig);
        if sig_of(input.last().metric) == sig {
            m.union_prefer_right(samples_map(input.last().samples))
        } else {
            m
        }
    }
}

/// The label set the merged series with signature `sig` carries: that of
/// the last series of its group, verbatim.
pub open spec fn last_labels(input: Seq<SeriesModel>, sig: Seq<LabelModel>) -> Seq<LabelModel>
    decreases input.len(),
{
    if input.len() == 0 {
        Seq::empty()
    } else if sig_of(input.last().metric) == sig {
        input.last().metric
    } else {
        last_labels(input.drop_last(), sig)
    }
}

/// The instant sample the merged series with signature `sig` carries:
/// that of the last series of its group.
pub open spec fn last_sample(input: Seq<SeriesModel>, sig: Seq<LabelModel>) -> Option<Sample>
    decreases input.len(),
{
    if input.len() == 0 {
        None
    } else if sig_of(input.last().metric) == sig {
        input.last().sample
    } else {
        last_sample(input.drop_last(), sig)
    }
}

proof fn lemma_group_absent(input: Seq<SeriesModel>, sig: Seq<LabelModel>)
    requires
        !has_sig(input, sig),
    ensures
        matrix_group_map(input, sig) =~= Map::<int, u64>::empty(),
        last_labels(input, sig) == Seq::<LabelModel>::empty(),
        last_sample(input, sig) is None,
    decreases input.len(),
{
    if input.len() > 0 {
        assert(sig_of(input[input.len() - 1].metric) != sig);
        assert(!has_sig(input.drop_last(), sig)) by {
            if has_sig(input.drop_last(), sig) {
                let k = choose|k: int|
                    0 <= k < input.drop_last().len() && sig_of(
                        (#[trigger] input.drop_last()[k]).metric,
                    ) == sig;
                assert(sig_of(input[k].metric) == sig);
            }
        }
        lemma_group_absent(input.drop_last(), sig);
    }
}

/// Extending the input by one series extends exactly that series' group.
proof fn lemma_group_step(input: Seq<SeriesModel>, k: int, sig: Seq<LabelModel>)
    requires
        0 <= k < input.len(),
    ensures
        sig_of(input[k].metric) == sig ==> matrix_group_map(input.take(k + 1), sig)
            == matrix_group_map(input.take(k), sig).union_prefer_right(
            samples_map(input[k].samples),
        ) && last_labels(input.take(k + 1), sig) == input[k].metric && last_sample(
            input.take(k + 1),
            sig,
        ) == input[k].sample,
        sig_of(input[k].metric) != sig ==> matrix_group_map(input.take(k + 1), sig)
            == matrix_group_map(input.take(k), sig) && last_labels(input.take(k + 1), sig)
            == last_labels(input.take(k), sig) && last_sample(input.take(k + 1), sig)
            == last_sample(input.take(k), sig),
        has_sig(input.take(k + 1), sig) <==> (has_sig(input.take(k), sig) || sig_of(
            input[k].metric,
        ) == sig),
{
    assert(input.take(k + 1).drop_last() =~= input.take(k));
    assert(input.take(k + 1).last() == input[k]);
    if has_sig(input.take(k), sig) {
        let k0 = choose|k0: int|
            0 <= k0 < input.take(k).len() && sig_of((#[trigger] input.take(k)[k0]).metric) == sig;
        assert(input.take(k + 1)[k0] == input[k0]);
        assert(sig_of((input.take(k + 1)[k0]).metric) == sig);
    }
    if sig_of(input[k].metric) == sig {
        assert(sig_of((#[trigger] input.take(k + 1)[k]).metric) == sig);
    }
    if has_sig(input.take(k + 1), sig) && !(sig_of(input[k].metric) == sig) {
        let k0 = choose|k0: int|
            0 <= k0 < input.take(k + 1).len() && sig_of(
                (#[trigger] input.take(k + 1)[k0]).metric,
            ) == sig;
        assert(k0 < k);
        assert(sig_of((#[trigger] input.take(k)[k0]).metric) == sig);
    }
}

proof fn lemma_upr_insert(m0: Map<int, u64>, m1: Map<int, u64>, t: int, v: u64)
    ensures
        m0.union_prefer_right(m1).insert(t, v) =~= m0.union_prefer_right(m1.insert(t, v)),
{
}

/// One group under construction during a matrix merge.
struct MatrixGroup {
    canon: Vec<Label>,
    labels: Vec<Label>,
    samples: Vec<Sample>,
}

spec fn mg_sig(g: MatrixGroup) -> Seq<LabelModel> {
    labels_view(g.canon@)
}

/// The signature of a merged range series.
pub open spec fn rv_sig(rv: RangeValue) -> Seq<LabelModel> {
    sig_of(labels_view(rv.labels@))
}

/// What the matrix merge guarantees: one output series per distinct
/// input signature, in canonical signature order; each output series
/// carries the label set of the last series of its group, and its
/// samples are exactly its group's merged map, sorted strictly ascending
/// by timestamp.
pub open spec fn matrix_merge_post(input: Seq<SeriesModel>, out: Seq<RangeValue>) -> bool {
    &&& forall|g: int| 0 <= g < out.len() ==> ts_sorted((#[trigger] out[g]).samples@)
    &&& forall|g: int|
        0 <= g < out.len() ==> samples_map((#[trigger] out[g]).samples@) == matrix_group_map(
            input,
            rv_sig(out[g]),
        )
    &&& forall|g: int|
        0 <= g < out.len() ==> labels_view((#[trigger] out[g]).labels@) == last_labels(
            input,
            rv_sig(out[g]),
        )
    &&& forall|g: int| 0 <= g < out.len() ==> has_sig(input, rv_sig(#[trigger] out[g]))
    &&& forall|k: int| 0 <= k < input.len() ==> #[trigger] sig_covered(input, out, k)
    &&& forall|g1: int, g2: int|
        0 <= g1 < g2 < out.len() ==> labels_le(rv_sig(#[trigger] out[g1]), rv_sig(#[trigger] out[g2]))
            && rv_sig(out[g1]) != rv_sig(out[g2])
}

/// Input series `k`'s signature appears among the merged output series.
pub open spec fn sig_covered(input: Seq<SeriesModel>, out: Seq<RangeValue>, k: int) -> bool {
    exists|g: int| 0 <= g < out.len() && rv_sig(#[trigger] out[g]) == sig_of(input[k].metric)
}

spec fn groups_inv(gs: Seq<MatrixGroup>, input: Seq<SeriesModel>) -> bool {
    &&& forall|g: int| 0 <= g < gs.len() ==> ts_sorted((#[trigger] gs[g]).samples@)
    &&& forall|g: int|
        0 <= g < gs.len() ==> samples_map((#[trigger] gs[g]).samples@) == matrix_group_map(
            input,
            mg_sig(gs[g]),
        )
    &&& forall|g: int|
        0 <= g < gs.len() ==> labels_view((#[trigger] gs[g]).labels@) == last_labels(
            input,
            mg_sig(gs[g]),
        )
    &&& forall|g: int|
        0 <= g < gs.len() ==> sorted_by(labels_view((#[trigger] gs[g]).canon@), label_le_fn())
    &&& forall|g: int|
        0 <= g < gs.len() ==> sig_of(labels_view((#[trigger] gs[g]).labels@)) == mg_sig(gs[g])
    &&& forall|g: int| 0 <= g < gs.len() ==> has_sig(input, mg_sig(#[trigger] gs[g]))
    &&& forall|k: int|
        0 <= k < input.len() ==> exists|g: int|
            0 <= g < gs.len() && mg_sig(#[trigger] gs[g]) == sig_of(
                (#[trigger] input[k]).metric,
            )
    &&& forall|g1: int, g2: int|
        0 <= g1 < g2 < gs.len() ==> labels_le(mg_sig(#[trigger] gs[g1]), mg_sig(#[trigger] gs[g2]))
            && mg_sig(gs[g1]) != mg_sig(gs[g2])
}

/// Groups all per-series points by signature, merging each group's
/// points in processing order with last-write-wins at equal timestamps,
/// and returns one range series per distinct signature, its samples
/// sorted ascending by timestamp, the series sorted by signature.
#[verifier::rlimit(100)]
pub fn merge_matrix(series: &Vec<Series>) -> (r: Vec<RangeValue>)
    ensures
        matrix_merge_post(series_views(series@), r@),
{
    let ghost input = series_views(series@);
    proof {
        lemma_label_le_total_ordering();
    }
    let mut groups: Vec<MatrixGroup> = Vec::new();
    let mut k: usize = 0;
    proof {
        assert(input.take(0) =~= Seq::<SeriesModel>::empty());
    }
    while k < series.len()
        invariant
            k <= series@.len(),
            input == series_views(series@),
            groups_inv(groups@, input.take(k as int)),
        decreases series@.len() - k,
    {
        let ghost prefix = input.take(k as int);
        let ghost prefix1 = input.take(k as int + 1);
        let c = canonical_labels(&series[k].metric);
        let ghost cs = labels_view(c@);
        proof {
            assert(input[k as int] == series@[k as int]@);
            assert(cs == sig_of(input[k as int].metric));
        }
        proof {
            lemma_label_le_total_ordering();
        }
        let ghost gs0 = groups@;
        let mut m: usize = 0;
        loop
            invariant
                m <= gs0.len(),
                groups@ == gs0,
                cs == labels_view(c@),
                groups_inv(gs0, prefix),
                forall|i: int|
                    0 <= i < m ==> labels_le(mg_sig(#[trigger] gs0[i]), cs) && mg_sig(gs0[i])
                        != cs,
            ensures
                m <= gs0.len(),
                groups@ == gs0,
                forall|i: int|
                    0 <= i < m ==> labels_le(mg_sig(#[trigger] gs0[i]), cs) && mg_sig(gs0[i])
                        != cs,
                m == gs0.len() || !(labels_le(mg_sig(gs0[m as int]), cs) && mg_sig(
                    gs0[m as int],
                ) != cs),
            decreases gs0.len() - m,
        {
            if m >= groups.len() {
                break ;
            }
            let le = labels_le_exec(&groups[m].canon, &c);
            let eq = labels_eq(&groups[m].canon, &c);
            if !le || eq {
                break ;
            }
            m = m + 1;
        }
        let mut found = false;
        if m < groups.len() {
            found = labels_eq(&groups[m].canon, &c);
        }
        let mut g: MatrixGroup;
        if found {
            g = groups.remove(m);
        } else {
            g = MatrixGroup { canon: c, labels: Vec::new(), samples: Vec::new() };
        }
        let ghost gsr = groups@;
        proof {
            let le = label_le_fn();
            // after the optional removal: everything left of m is
            // strictly below the signature, everything at or right of m
            // strictly above it, and the group taken out (or newly made)
            // carries the signature itself with its merged map so far
            if found {
                assert(gsr =~= gs0.remove(m as int));
                assert(mg_sig(g) == cs);
            } else {
                assert(gsr == gs0);
                assert(mg_sig(g) == cs);
                assert(g.samples@ =~= Seq::<Sample>::empty());
                assert forall|i: int| 0 <= i < gs0.len() implies mg_sig(#[trigger] gs0[i])
                    != cs by {
                    if i == m {
                    } else if i > m && (m as int) < gs0.len() {
                        crate::order::lemma_seq_lex_le_total(mg_sig(gs0[m as int]), cs, le);
                        if mg_sig(gs0[i]) == cs {
                            assert(labels_le(mg_sig(gs0[m as int]), mg_sig(gs0[i])));
                        }
                    }
                }
                assert(!has_sig(prefix, cs)) by {
                    if has_sig(prefix, cs) {
                        let k0 = choose|k0: int|
                            0 <= k0 < prefix.len() && sig_of((#[trigger] prefix[k0]).metric) == cs;
                        assert(exists|gi: int|
                            0 <= gi < gs0.len() && mg_sig(#[trigger] gs0[gi]) == sig_of(
                                (#[trigger] prefix[k0]).metric,
                            ));
                    }
                }
                lemma_group_absent(prefix, cs);
            }
            assert(ts_sorted(g.samples@));
            assert(samples_map(g.samples@) == matrix_group_map(prefix, cs));
            assert(sorted_by(labels_view(g.canon@), label_le_fn()));
            // position facts about the remainder
            assert forall|i: int| 0 <= i < gsr.len() implies mg_sig(#[trigger] gsr[i]) != cs && (
            i < m ==> labels_le(mg_sig(gsr[i]), cs)) && (i >= m ==> labels_le(
                cs,
                mg_sig(gsr[i]),
            )) by {
                if found {
                    if i >= m {
                        assert(gsr[i] == gs0[i + 1]);
                        assert(labels_le(mg_sig(gs0[m as int]), mg_sig(gs0[i + 1])));
                    } else {
                        assert(gsr[i] == gs0[i]);
                        crate::order::lemma_seq_lex_le_refl(cs, le);
                    }
                } else {
                    assert(gsr[i] == gs0[i]);
                    if i >= m {
                        crate::order::lemma_seq_lex_le_total(mg_sig(gs0[m as int]), cs, le);
                        assert(labels_le(cs, mg_sig(gs0[m as int])));
                        if i > m {
                            crate::order::lemma_seq_lex_le_trans(
                                cs,
                                mg_sig(gs0[m as int]),
                                mg_sig(gs0[i]),
                                le,
                            );
                        }
                    }
                }
            }
        }
        // fold this series' points into the group, in order
        let ghost ksamples = input[k as int].samples;
        let mut j: usize = 0;
        proof {
            assert(ksamples.take(0) =~= Seq::<Sample>::empty());
            assert(samples_map(g.samples@) =~= matrix_group_map(prefix, cs).union_prefer_right(
                samples_map(ksamples.take(0)),
            ));
        }
        while j < series[k].samples.len()
            invariant
                k < series@.len(),
                input == series_views(series@),
                ksamples == input[k as int].samples,
                ksamples == series@[k as int].samples@,
                j <= ksamples.len(),
                ts_sorted(g.samples@),
                labels_view(g.canon@) == cs,
                sorted_by(labels_view(g.canon@), label_le_fn()),
                samples_map(g.samples@) == matrix_group_map(prefix, cs).union_prefer_right(
                    samples_map(ksamples.take(j as int)),
                ),
            decreases ksamples.len() - j,
        {
            let s = series[k].samples[j];
            proof {
                assert(s == ksamples[j as int]);
            }
            insert_sample(&mut g.samples, s);
            proof {
                assert(ksamples.take(j as int + 1).drop_last() =~= ksamples.take(j as int));
                assert(ksamples.take(j as int + 1).last() == s);
                assert(samples_map(ksamples.take(j as int + 1)) == samples_map(
                    ksamples.take(j as int),
                ).insert(s.timestamp as int, s.value_bits));
                lemma_upr_insert(
                    matrix_group_map(prefix, cs),
                    samples_map(ksamples.take(j as int)),
                    s.timestamp as int,
                    s.value_bits,
                );
            }
            j = j + 1;
        }
        g.labels = clone_labels(&series[k].metric);
        proof {
            assert(ksamples.take(ksamples.len() as int) =~= ksamples);
            lemma_group_step(input, k as int, cs);
            assert(samples_map(g.samples@) == matrix_group_map(prefix1, cs));
            assert(labels_view(g.labels@) == input[k as int].metric);
            assert(labels_view(g.labels@) == last_labels(prefix1, cs));
            assert(sig_of(labels_view(g.labels@)) == cs);
        }
        groups.insert(m, g);
        proof {
            let le = label_le_fn();
            let gs1 = groups@;
            assert(gs1 == gsr.insert(m as int, g));
            assert(gs1.len() == gsr.len() + 1);
            assert(forall|i: int| 0 <= i < m ==> gs1[i] == gsr[i]);
            assert(gs1[m as int] == g);
            assert(forall|i: int| m < i < gs1.len() ==> gs1[i] == gsr[i - 1]);
            assert(has_sig(prefix1, cs)) by {
                assert(prefix1[k as int] == input[k as int]);
                assert(sig_of((#[trigger] prefix1[k as int]).metric) == cs);
            }
            // every untouched group's merged state carries over one step
            assert forall|i: int|
                0 <= i < gs1.len() && i != m implies ts_sorted((#[trigger] gs1[i]).samples@)
                    && samples_map(gs1[i].samples@) == matrix_group_map(prefix1, mg_sig(gs1[i]))
                    && labels_view(gs1[i].labels@) == last_labels(prefix1, mg_sig(gs1[i]))
                    && sorted_by(labels_view(gs1[i].canon@), label_le_fn()) && sig_of(
                    labels_view(gs1[i].labels@),
                ) == mg_sig(gs1[i]) && has_sig(prefix1, mg_sig(gs1[i])) by {
                let i0 = if i < m {
                    i
                } else {
                    i - 1
                };
                assert(gs1[i] == gsr[i0]);
                assert(mg_sig(gsr[i0]) != cs);
                lemma_group_step(input, k as int, mg_sig(gsr[i0]));
                if found {
                    let iorig = if i0 < m {
                        i0
                    } else {
                        i0 + 1
                    };
                    assert(gsr[i0] == gs0[iorig]);
                } else {
                    assert(gsr[i0] == gs0[i0]);
                }
            }
            // the updated group at m
            assert(ts_sorted(gs1[m as int].samples@));
            assert(samples_map(gs1[m as int].samples@) == matrix_group_map(
                prefix1,
                mg_sig(gs1[m as int]),
            ));
            // ordering and distinctness
            assert forall|i1: int, i2: int| 0 <= i1 < i2 < gs1.len() implies labels_le(
                mg_sig(#[trigger] gs1[i1]),
                mg_sig(#[trigger] gs1[i2]),
            ) && mg_sig(gs1[i1]) != mg_sig(gs1[i2]) by {
                if i1 == m {
                    assert(gs1[i2] == gsr[i2 - 1] && i2 - 1 >= m);
                } else if i2 == m {
                    assert(gs1[i1] == gsr[i1] && i1 < m);
                } else {
                    let j1 = if i1 < m {
                        i1
                    } else {
                        i1 - 1
                    };
                    let j2 = if i2 < m {
                        i2
                    } else {
                        i2 - 1
                    };
                    assert(gs1[i1] == gsr[j1] && gs1[i2] == gsr[j2]);
                    if found {
                        let o1 = if j1 < m {
                            j1
                        } else {
                            j1 + 1
                        };
                        let o2 = if j2 < m {
                            j2
                        } else {
                            j2 + 1
                        };
                        assert(gsr[j1] == gs0[o1] && gsr[j2] == gs0[o2]);
                        if j1 == j2 {
                            assert(false);
                        }
                    } else {
                        if j1 == j2 {
                            assert(false);
                        }
                    }
                }
            }
            // every processed series still has its group
            assert forall|k2: int| 0 <= k2 < k as int + 1 implies exists|gi: int|
                0 <= gi < gs1.len() && mg_sig(#[trigger] gs1[gi]) == sig_of(
                    (#[trigger] prefix1[k2]).metric,
                ) by {
                assert(prefix1[k2] == input[k2]);
                if k2 == k as int {
                    assert(mg_sig(gs1[m as int]) == cs);
                } else {
                    assert(prefix[k2] == input[k2]);
                    let gi0 = choose|gi0: int|
                        0 <= gi0 < gs0.len() && mg_sig(#[trigger] gs0[gi0]) == sig_of(
                            (#[trigger] prefix[k2]).metric,
                        );
                    if mg_sig(gs0[gi0]) == cs {
                        assert(mg_sig(gs1[m as int]) == sig_of(prefix1[k2].metric));
                    } else {
                        if found {
                            if gi0 < m {
                                assert(gs1[gi0] == gsr[gi0] && gsr[gi0] == gs0[gi0]);
                            } else if gi0 == m {
                                assert(mg_sig(gs0[gi0]) == cs);
                            } else {
                                assert(gs1[gi0] == gsr[gi0 - 1] && gsr[gi0 - 1] == gs0[gi0]);
                            }
                        } else {
                            if gi0 < m {
                                assert(gs1[gi0] == gsr[gi0] && gsr[gi0] == gs0[gi0]);
                            } else {
                                assert(gs1[gi0 + 1] == gsr[gi0] && gsr[gi0] == gs0[gi0]);
                            }
                        }
                    }
                }
            }
            assert(groups_inv(groups@, prefix1));
        }
        k = k + 1;
    }
    proof {
        assert(input.take(series@.len() as int) =~= input);
    }
    let ghost gsf = groups@;
    let mut out: Vec<RangeValue> = Vec::new();
    let mut t: usize = 0;
    while t < groups.len()
        invariant
            t <= groups@.len(),
            groups@ == gsf,
            groups_inv(gsf, input),
            out@.len() == t,
            forall|i: int|
                0 <= i < t ==> labels_view((#[trigger] out@[i]).labels@) == labels_view(
                    gsf[i].labels@,
                ) && out@[i].samples@ == gsf[i].samples@,
        decreases groups@.len() - t,
    {
        let lab = clone_labels(&groups[t].labels);
        let mut smp: Vec<Sample> = Vec::new();
        let mut u: usize = 0;
        while u < groups[t].samples.len()
            invariant
                t < groups@.len(),
                groups@ == gsf,
                u <= gsf[t as int].samples@.len(),
                smp@ == gsf[t as int].samples@.take(u as int),
            decreases gsf[t as int].samples@.len() - u,
        {
            smp.push(groups[t].samples[u]);
            proof {
                assert(smp@ =~= gsf[t as int].samples@.take(u as int + 1));
            }
            u = u + 1;
        }
        proof {
            assert(smp@ =~= gsf[t as int].samples@);
        }
        out.push(RangeValue { labels: lab, samples: smp });
        proof {
            assert(labels_view(out@[t as int].labels@) == labels_view(gsf[t as int].labels@));
        }
        t = t + 1;
    }
    proof {
        assert forall|g: int| 0 <= g < out@.len() implies rv_sig(#[trigger] out@[g]) == mg_sig(
            gsf[g],
        ) by {
            assert(labels_view(out@[g].labels@) == labels_view(gsf[g].labels@));
        }
        assert forall|k2: int| 0 <= k2 < input.len() implies #[trigger] sig_covered(
            input,
            out@,
            k2,
        ) by {
            let gi = choose|gi: int|
                0 <= gi < gsf.len() && mg_sig(#[trigger] gsf[gi]) == sig_of(
                    (#[trigger] input[k2]).metric,
                );
            assert(0 <= gi < out@.len() && rv_sig(out@[gi]) == sig_of(input[k2].metric));
        }
        assert forall|g: int| 0 <= g < out@.len() implies ts_sorted(
            (#[trigger] out@[g]).samples@,
        ) && samples_map(out@[g].samples@) == matrix_group_map(input, rv_sig(out@[g]))
            && labels_view(out@[g].labels@) == last_labels(input, rv_sig(out@[g])) && has_sig(
            input,
            rv_sig(out@[g]),
        ) by {
            assert(rv_sig(out@[g]) == mg_sig(gsf[g]));
            assert(out@[g].samples@ == gsf[g].samples@);
            assert(ts_sorted((#[trigger] gsf[g]).samples@));
            assert(samples_map(gsf[g].samples@) == matrix_group_map(input, mg_sig(gsf[g])));
            assert(labels_view(gsf[g].labels@) == last_labels(input, mg_sig(gsf[g])));
            assert(has_sig(input, mg_sig(gsf[g])));
        }
        assert forall|g1: int, g2: int| 0 <= g1 < g2 < out@.len() implies labels_le(
            rv_sig(#[trigger] out@[g1]),
            rv_sig(#[trigger] out@[g2]),
        ) && rv_sig(out@[g1]) != rv_sig(out@[g2]) by {
            assert(rv_sig(out@[g1]) == mg_sig(gsf[g1]));
            assert(rv_sig(out@[g2]) == mg_sig(gsf[g2]));
            assert(labels_le(mg_sig(#[trigger] gsf[g1]), mg_sig(#[trigger] gsf[g2])) && mg_sig(
                gsf[g1],
            ) != mg_sig(gsf[g2]));
        }
        assert(matrix_merge_post(input, out@));
    }
    out
}

/// The signature of a merged instant series.
pub open spec fn iv_sig(iv: InstantValue) -> Seq<LabelModel> {
    sig_of(labels_view(iv.labels@))
}

/// Every partial series carries an instant sample (the shape contract of
/// a vector result).
pub open spec fn all_have_sample(input: Seq<SeriesModel>) -> bool {
    forall|k: int| 0 <= k < input.len() ==> (#[trigger] input[k]).sample is Some
}

/// Input series `k`'s signature appears among the merged instant values.
pub open spec fn vsig_covered(input: Seq<SeriesModel>, out: Seq<InstantValue>, k: int) -> bool {
    exists|g: int| 0 <= g < out.len() && iv_sig(#[trigger] out[g]) == sig_of(input[k].metric)
}

/// What the vector merge guarantees: one instant value per distinct
/// input signature, in canonical signature order, each carrying the
/// label set and the sample of the last series of its group.
pub open spec fn vector_merge_post(input: Seq<SeriesModel>, out: Seq<InstantValue>) -> bool {
    &&& forall|g: int|
        0 <= g < out.len() ==> labels_view((#[trigger] out[g]).labels@) == last_labels(
            input,
            iv_sig(out[g]),
        )
    &&& forall|g: int|
        0 <= g < out.len() ==> last_sample(input, iv_sig(#[trigger] out[g])) == Some(
            out[g].sample,
        )
    &&& forall|g: int| 0 <= g < out.len() ==> has_sig(input, iv_sig(#[trigger] out[g]))
    &&& forall|k: int| 0 <= k < input.len() ==> #[trigger] vsig_covered(input, out, k)
    &&& forall|g1: int, g2: int|
        0 <= g1 < g2 < out.len() ==> labels_le(iv_sig(#[trigger] out[g1]), iv_sig(#[trigger] out[g2]))
            && iv_sig(out[g1]) != iv_sig(out[g2])
}

/// One group under construction during a vector merge.
struct VectorGroup {
    canon: Vec<Label>,
    labels: Vec<Label>,
    sample: Sample,
}

spec fn vg_sig(g: VectorGroup) -> Seq<LabelModel> {
    labels_view(g.canon@)
}

spec fn vgroups_inv(gs: Seq<VectorGroup>, input: Seq<SeriesModel>) -> bool {
    &&& forall|g: int|
        0 <= g < gs.len() ==> labels_view((#[trigger] gs[g]).labels@) == last_labels(
            input,
            vg_sig(gs[g]),
        )
    &&& forall|g: int|
        0 <= g < gs.len() ==> last_sample(input, vg_sig(#[trigger] gs[g])) == Some(gs[g].sample)
    &&& forall|g: int|
        0 <= g < gs.len() ==> sorted_by(labels_view((#[trigger] gs[g]).canon@), label_le_fn())
    &&& forall|g: int|
        0 <= g < gs.len() ==> sig_of(labels_view((#[trigger] gs[g]).labels@)) == vg_sig(gs[g])
    &&& forall|g: int| 0 <= g < gs.len() ==> has_sig(input, vg_sig(#[trigger] gs[g]))
    &&& forall|k: int|
        0 <= k < input.len() ==> exists|g: int|
            0 <= g < gs.len() && vg_sig(#[trigger] gs[g]) == sig_of(
                (#[trigger] input[k]).metric,
            )
    &&& forall|g1: int, g2: int|
        0 <= g1 < g2 < gs.len() ==> labels_le(vg_sig(#[trigger] gs[g1]), vg_sig(#[trigger] gs[g2]))
            && vg_sig(gs[g1]) != vg_sig(gs[g2])
}

/// Groups all partial series by signature and keeps, per signature, the
/// last-processed instant sample and label set; the merged instant
/// values come out in canonical signature order.
#[verifier::rlimit(100)]
pub fn merge_vector(series: &Vec<Series>) -> (r: Vec<InstantValue>)
    requires
        all_have_sample(series_views(series@)),
    ensures
        vector_merge_post(series_views(series@), r@),
{
    let ghost input = series_views(series@);
    proof {
        lemma_label_le_total_ordering();
    }
    let mut groups: Vec<VectorGroup> = Vec::new();
    let mut k: usize = 0;
    proof {
        assert(input.take(0) =~= Seq::<SeriesModel>::empty());
    }
    while k < series.len()
        invariant
            k <= series@.len(),
            input == series_views(series@),
            all_have_sample(input),
            vgroups_inv(groups@, input.take(k as int)),
        decreases series@.len() - k,
    {
        let ghost prefix = input.take(k as int);
        let ghost prefix1 = input.take(k as int + 1);
        proof {
            assert(input[k as int] == series@[k as int]@);
        }
        let sm: Sample;
        match series[k].sample {
            Some(x) => {
                sm = x;
            },
            None => {
                proof {
                    assert(input[k as int].sample is Some);
                    assert(false);
                }
                sm = Sample { timestamp: 0, value_bits: 0 };
            },
        }
        let c = canonical_labels(&series[k].metric);
        let ghost cs = labels_view(c@);
        proof {
            assert(cs == sig_of(input[k as int].metric));
            lemma_label_le_total_ordering();
        }
        let ghost gs0 = groups@;
        let mut m: usize = 0;
        loop
            invariant
                m <= gs0.len(),
                groups@ == gs0,
                cs == labels_view(c@),
                vgroups_inv(gs0, prefix),
                forall|i: int|
                    0 <= i < m ==> labels_le(vg_sig(#[trigger] gs0[i]), cs) && vg_sig(gs0[i])
                        != cs,
            ensures
                m <= gs0.len(),
                groups@ == gs0,
                forall|i: int|
                    0 <= i < m ==> labels_le(vg_sig(#[trigger] gs0[i]), cs) && vg_sig(gs0[i])
                        != cs,
                m == gs0.len() || !(labels_le(vg_sig(gs0[m as int]), cs) && vg_sig(
                    gs0[m as int],
                ) != cs),
            decreases gs0.len() - m,
        {
            if m >= groups.len() {
                break ;
            }
            let le = labels_le_exec(&groups[m].canon, &c);
            let eq = labels_eq(&groups[m].canon, &c);
            if !le || eq {
                break ;
            }
            m = m + 1;
        }
        let mut found = false;
        if m < groups.len() {
            found = labels_eq(&groups[m].canon, &c);
        }
        let mut g: VectorGroup;
        if found {
            g = groups.remove(m);
        } else {
            g = VectorGroup { canon: c, labels: Vec::new(), sample: sm };
        }
        let ghost gsr = groups@;
        proof {
            let le = label_le_fn();
            if found {
                assert(gsr =~= gs0.remove(m as int));
                assert(vg_sig(g) == cs);
            } else {
                assert(gsr == gs0);
                assert(vg_sig(g) == cs);
                assert forall|i: int| 0 <= i < gs0.len() implies vg_sig(#[trigger] gs0[i])
                    != cs by {
                    if i == m {
                    } else if i > m && (m as int) < gs0.len() {
                        crate::order::lemma_seq_lex_le_total(vg_sig(gs0[m as int]), cs, le);
                        if vg_sig(gs0[i]) == cs {
                            assert(labels_le(vg_sig(gs0[m as int]), vg_sig(gs0[i])));
                        }
                    }
                }
            }
            assert forall|i: int| 0 <= i < gsr.len() implies vg_sig(#[trigger] gsr[i]) != cs && (
            i < m ==> labels_le(vg_sig(gsr[i]), cs)) && (i >= m ==> labels_le(
                cs,
                vg_sig(gsr[i]),
            )) by {
                if found {
                    if i >= m {
                        assert(gsr[i] == gs0[i + 1]);
                        assert(labels_le(vg_sig(gs0[m as int]), vg_sig(gs0[i + 1])));
                    } else {
                        assert(gsr[i] == gs0[i]);
                        crate::order::lemma_seq_lex_le_refl(cs, le);
                    }
                } else {
                    assert(gsr[i] == gs0[i]);
                    if i >= m {
                        crate::order::lemma_seq_lex_le_total(vg_sig(gs0[m as int]), cs, le);
                        assert(labels_le(cs, vg_sig(gs0[m as int])));
                        if i > m {
                            crate::order::lemma_seq_lex_le_trans(
                                cs,
                                vg_sig(gs0[m as int]),
                                vg_sig(gs0[i]),
                                le,
                            );
                        }
                    }
                }
            }
        }
        g.labels = clone_labels(&series[k].metric);
        g.sample = sm;
        proof {
            lemma_group_step(input, k as int, cs);
            assert(labels_view(g.labels@) == input[k as int].metric);
            assert(labels_view(g.labels@) == last_labels(prefix1, cs));
            assert(sig_of(labels_view(g.labels@)) == cs);
            assert(last_sample(prefix1, cs) == input[k as int].sample);
            assert(input[k as int].sample == Some(sm));
        }
        groups.insert(m, g);
        proof {
            let le = label_le_fn();
            let gs1 = groups@;
            assert(gs1 == gsr.insert(m as int, g));
            assert(gs1.len() == gsr.len() + 1);
            assert(forall|i: int| 0 <= i < m ==> gs1[i] == gsr[i]);
            assert(gs1[m as int] == g);
            assert(forall|i: int| m < i < gs1.len() ==> gs1[i] == gsr[i - 1]);
            assert(has_sig(prefix1, cs)) by {
                assert(prefix1[k as int] == input[k as int]);
                assert(sig_of((#[trigger] prefix1[k as int]).metric) == cs);
            }
            assert forall|i: int|
                0 <= i < gs1.len() && i != m implies labels_view((#[trigger] gs1[i]).labels@)
                    == last_labels(prefix1, vg_sig(gs1[i])) && last_sample(prefix1, vg_sig(gs1[i]))
                    == Some(gs1[i].sample) && sorted_by(labels_view(gs1[i].canon@), label_le_fn())
                    && sig_of(labels_view(gs1[i].labels@)) == vg_sig(gs1[i]) && has_sig(
                    prefix1,
                    vg_sig(gs1[i]),
                ) by {
                let i0 = if i < m {
                    i
                } else {
                    i - 1
                };
                assert(gs1[i] == gsr[i0]);
                assert(vg_sig(gsr[i0]) != cs);
                lemma_group_step(input, k as int, vg_sig(gsr[i0]));
                if found {
                    let iorig = if i0 < m {
                        i0
                    } else {
                        i0 + 1
                    };
                    assert(gsr[i0] == gs0[iorig]);
                } else {
                    assert(gsr[i0] == gs0[i0]);
                }
            }
            assert forall|i1: int, i2: int| 0 <= i1 < i2 < gs1.len() implies labels_le(
                vg_sig(#[trigger] gs1[i1]),
                vg_sig(#[trigger] gs1[i2]),
            ) && vg_sig(gs1[i1]) != vg_sig(gs1[i2]) by {
                if i1 == m {
                    assert(gs1[i2] == gsr[i2 - 1] && i2 - 1 >= m);
                } else if i2 == m {
                    assert(gs1[i1] == gsr[i1] && i1 < m);
                } else {
                    let j1 = if i1 < m {
                        i1
                    } else {
                        i1 - 1
                    };
                    let j2 = if i2 < m {
                        i2
                    } else {
                        i2 - 1
                    };
                    assert(gs1[i1] == gsr[j1] && gs1[i2] == gsr[j2]);
                    if found {
                        let o1 = if j1 < m {
                            j1
                        } else {
                            j1 + 1
                        };
                        let o2 = if j2 < m {
                            j2
                        } else {
                            j2 + 1
                        };
                        assert(gsr[j1] == gs0[o1] && gsr[j2] == gs0[o2]);
                        if j1 == j2 {
                            assert(false);
                        }
                    } else {
                        if j1 == j2 {
                            assert(false);
                        }
                    }
                }
            }
            assert forall|k2: int| 0 <= k2 < k as int + 1 implies exists|gi: int|
                0 <= gi < gs1.len() && vg_sig(#[trigger] gs1[gi]) == sig_of(
                    (#[trigger] prefix1[k2]).metric,
                ) by {
                assert(prefix1[k2] == input[k2]);
                if k2 == k as int {
                    assert(vg_sig(gs1[m as int]) == cs);
                } else {
                    assert(prefix[k2] == input[k2]);
                    let gi0 = choose|gi0: int|
                        0 <= gi0 < gs0.len() && vg_sig(#[trigger] gs0[gi0]) == sig_of(
                            (#[trigger] prefix[k2]).metric,
                        );
                    if vg_sig(gs0[gi0]) == cs {
                        assert(vg_sig(gs1[m as int]) == sig_of(prefix1[k2].metric));
                    } else {
                        if found {
                            if gi0 < m {
                                assert(gs1[gi0] == gsr[gi0] && gsr[gi0] == gs0[gi0]);
                            } else if gi0 == m {
                                assert(vg_sig(gs0[gi0]) == cs);
                            } else {
                                assert(gs1[gi0] == gsr[gi0 - 1] && gsr[gi0 - 1] == gs0[gi0]);
                            }
                        } else {
                            if gi0 < m {
                                assert(gs1[gi0] == gsr[gi0] && gsr[gi0] == gs0[gi0]);
                            } else {
                                assert(gs1[gi0 + 1] == gsr[gi0] && gsr[gi0] == gs0[gi0]);
                            }
                        }
                    }
                }
            }
            assert(vgroups_inv(groups@, prefix1));
        }
        k = k + 1;
    }
    proof {
        assert(input.take(series@.len() as int) =~= input);
    }
    let ghost gsf = groups@;
    let mut out: Vec<InstantValue> = Vec::new();
    let mut t: usize = 0;
    while t < groups.len()
        invariant
            t <= groups@.len(),
            groups@ == gsf,
            vgroups_inv(gsf, input),
            out@.len() == t,
            forall|i: int|
                0 <= i < t ==> labels_view((#[trigger] out@[i]).labels@) == labels_view(
                    gsf[i].labels@,
                ) && out@[i].sample == gsf[i].sample,
        decreases groups@.len() - t,
    {
        let lab = clone_labels(&groups[t].labels);
        let sm = groups[t].sample;
        out.push(InstantValue { labels: lab, sample: sm });
        t = t + 1;
    }
    proof {
        assert forall|g: int| 0 <= g < out@.len() implies iv_sig(#[trigger] out@[g]) == vg_sig(
            gsf[g],
        ) by {
            assert(labels_view(out@[g].labels@) == labels_view(gsf[g].labels@));
        }
        assert forall|k2: int| 0 <= k2 < input.len() implies #[trigger] vsig_covered(
            input,
            out@,
            k2,
        ) by {
            let gi = choose|gi: int|
                0 <= gi < gsf.len() && vg_sig(#[trigger] gsf[gi]) == sig_of(
                    (#[trigger] input[k2]).metric,
                );
            assert(0 <= gi < out@.len() && iv_sig(out@[gi]) == sig_of(input[k2].metric));
        }
        assert forall|g: int| 0 <= g < out@.len() implies labels_view(
            (#[trigger] out@[g]).labels@,
        ) == last_labels(input, iv_sig(out@[g])) && last_sample(input, iv_sig(out@[g])) == Some(
            out@[g].sample,
        ) && has_sig(input, iv_sig(out@[g])) by {
            assert(iv_sig(out@[g]) == vg_sig(gsf[g]));
            assert(labels_view((#[trigger] gsf[g]).labels@) == last_labels(input, vg_sig(gsf[g])));
            assert(last_sample(input, vg_sig(#[trigger] gsf[g])) == Some(gsf[g].sample));
            assert(has_sig(input, vg_sig(gsf[g])));
        }
        assert forall|g1: int, g2: int| 0 <= g1 < g2 < out@.len() implies labels_le(
            iv_sig(#[trigger] out@[g1]),
            iv_sig(#[trigger] out@[g2]),
        ) && iv_sig(out@[g1]) != iv_sig(out@[g2]) by {
            assert(iv_sig(out@[g1]) == vg_sig(gsf[g1]));
            assert(iv_sig(out@[g2]) == vg_sig(gsf[g2]));
            assert(labels_le(vg_sig(#[trigger] gsf[g1]), vg_sig(#[trigger] gsf[g2])) && vg_sig(
                gsf[g1],
            ) != vg_sig(gsf[g2]));
        }
        assert(vector_merge_post(input, out@));
    }
    out
}

/// The scalar a sequence of partial results folds to: the last
/// non-missing sample wins; a bare scalar value overwrites only the
/// value, keeping the previously seen timestamp.
pub open spec fn scalar_fold(input: Seq<SeriesModel>) -> Sample
    decreases input.len(),
{
    if input.len() == 0 {
        Sample { timestamp: 0, value_bits: 0 }
    } else {
        let p = scalar_fold(input.drop_last());
        let l = input.last();
        if l.sample is Some {
            l.sample.unwrap()
        } else if l.scalar_bits is Some {
            Sample { timestamp: p.timestamp, value_bits: l.scalar_bits.unwrap() }
        } else {
            p
        }
    }
}

/// Folds all partial results to one scalar sample, last write wins in
/// processing order.
pub fn merge_scalar(series: &Vec<Series>) -> (r: Sample)
    ensures
        r == scalar_fold(series_views(series@)),
{
    let ghost input = series_views(series@);
    let mut acc = Sample { timestamp: 0, value_bits: 0 };
    let mut k: usize = 0;
    proof {
        assert(input.take(0) =~= Seq::<SeriesModel>::empty());
    }
    while k < series.len()
        invariant
            k <= series@.len(),
            input == series_views(series@),
            acc == scalar_fold(input.take(k as int)),
        decreases series@.len() - k,
    {
        proof {
            assert(input[k as int] == series@[k as int]@);
            assert(input.take(k as int + 1).drop_last() =~= input.take(k as int));
            assert(input.take(k as int + 1).last() == input[k as int]);
        }
        match series[k].sample {
            Some(x) => {
                acc = x;
            },
            None => {
                match series[k].scalar_bits {
                    Some(vb) => {
                        acc = Sample { timestamp: acc.timestamp, value_bits: vb };
                    },
                    None => {},
                }
            },
        }
        k = k + 1;
    }
    proof {
        assert(input.take(series@.len() as int) =~= input);
    }
    acc
}

proof fn lemma_group_concat(a: Seq<SeriesModel>, b: Seq<SeriesModel>, sig: Seq<LabelModel>)
    ensures
        has_sig(a + b, sig) <==> (has_sig(a, sig) || has_sig(b, sig)),
        matrix_group_map(a + b, sig) =~= matrix_group_map(a, sig).union_prefer_right(
            matrix_group_map(b, sig),
        ),
        last_labels(a + b, sig) == if has_sig(b, sig) {
            last_labels(b, sig)
        } else {
            last_labels(a, sig)
        },
    decreases b.len(),
{
    if b.len() == 0 {
        assert(a + b =~= a);
        assert(!has_sig(b, sig)) by {
            if has_sig(b, sig) {
                let k = choose|k: int|
                    0 <= k < b.len() && sig_of((#[trigger] b[k]).metric) == sig;
            }
        }
    } else {
        assert((a + b).drop_last() =~= a + b.drop_last());
        assert((a + b).last() == b.last());
        lemma_group_concat(a, b.drop_last(), sig);
        assert(has_sig(a + b, sig) <==> (has_sig(a + b.drop_last(), sig) || sig_of(
            b.last().metric,
        ) == sig)) by {
            let ab = a + b;
            if has_sig(ab, sig) {
                let k = choose|k: int|
                    0 <= k < ab.len() && sig_of((#[trigger] ab[k]).metric) == sig;
                if k < ab.len() - 1 {
                    assert((a + b.drop_last())[k] == ab[k]);
                    assert(sig_of((#[trigger] (a + b.drop_last())[k]).metric) == sig);
                }
            }
            if has_sig(a + b.drop_last(), sig) {
                let k = choose|k: int|
                    0 <= k < (a + b.drop_last()).len() && sig_of(
                        (#[trigger] (a + b.drop_last())[k]).metric,
                    ) == sig;
                assert(ab[k] == (a + b.drop_last())[k]);
                assert(sig_of((#[trigger] ab[k]).metric) == sig);
            }
            if sig_of(b.last().metric) == sig {
                assert(sig_of((#[trigger] ab[ab.len() - 1]).metric) == sig);
            }
        }
        assert(has_sig(b, sig) <==> (has_sig(b.drop_last(), sig) || sig_of(b.last().metric)
            == sig)) by {
            if has_sig(b, sig) {
                let k = choose|k: int|
                    0 <= k < b.len() && sig_of((#[trigger] b[k]).metric) == sig;
                if k < b.len() - 1 {
                    assert(sig_of((#[trigger] b.drop_last()[k]).metric) == sig);
                }
            }
            if has_sig(b.drop_last(), sig) {
                let k = choose|k: int|
                    0 <= k < b.drop_last().len() && sig_of(
                        (#[trigger] b.drop_last()[k]).metric,
                    ) == sig;
                assert(sig_of((#[trigger] b[k]).metric) == sig);
            }
            if sig_of(b.last().metric) == sig {
                assert(sig_of((#[trigger] b[b.len() - 1]).metric) == sig);
            }
        }
    }
}

/// Merging the input duplicated behaves as merging it once: the same
/// signatures occur, and every signature's merged map and label set are
/// unchanged.  (Last write wins, and the duplicate pass repeats exactly
/// the writes of the first.)
pub proof fn lemma_merge_idempotent_model(input: Seq<SeriesModel>, sig: Seq<LabelModel>)
    ensures
        has_sig(input + input, sig) <==> has_sig(input, sig),
        matrix_group_map(input + input, sig) == matrix_group_map(input, sig),
        last_labels(input + input, sig) == last_labels(input, sig),
{
    lemma_group_concat(input, input, sig);
    assert(matrix_group_map(input, sig).union_prefer_right(matrix_group_map(input, sig))
        =~= matrix_group_map(input, sig));
}

/// Two strictly canonically ordered signature sequences with the same
/// membership are equal.
proof fn lemma_sorted_sigs_unique(x: Seq<Seq<LabelModel>>, y: Seq<Seq<LabelModel>>)
    requires
        forall|i: int, j: int|
            0 <= i < j < x.len() ==> labels_le(#[trigger] x[i], #[trigger] x[j]) && x[i] != x[j],
        forall|i: int, j: int|
            0 <= i < j < y.len() ==> labels_le(#[trigger] y[i], #[trigger] y[j]) && y[i] != y[j],
        forall|e: Seq<LabelModel>| x.contains(e) <==> y.contains(e),
    ensures
        x == y,
    decreases x.len(),
{
    lemma_label_le_total_ordering();
    if x.len() == 0 {
        if y.len() > 0 {
            assert(y.contains(y[0]));
            assert(x.contains(y[0]));
        }
        assert(x =~= y);
    } else if y.len() == 0 {
        assert(x.contains(x[0]));
        assert(y.contains(x[0]));
    } else {
        assert(x.contains(x[0]) && y.contains(y[0]));
        assert(y.contains(x[0]) && x.contains(y[0]));
        let jx = choose|j: int| 0 <= j < y.len() && y[j] == x[0];
        let jy = choose|j: int| 0 <= j < x.len() && x[j] == y[0];
        assert(labels_le(y[0], x[0])) by {
            if jx > 0 {
                assert(labels_le(y[0], y[jx]));
            } else {
                lemma_seq_lex_le_refl(y[0], label_le_fn());
            }
        }
        assert(labels_le(x[0], y[0])) by {
            if jy > 0 {
                assert(labels_le(x[0], x[jy]));
            } else {
                lemma_seq_lex_le_refl(x[0], label_le_fn());
            }
        }
        lemma_seq_lex_le_antisym(x[0], y[0], label_le_fn());
        assert(x[0] == y[0]);
        let xt = x.drop_first();
        let yt = y.drop_first();
        assert(forall|i: int| 0 <= i < xt.len() ==> #[trigger] xt[i] == x[i + 1]);
        assert(forall|i: int| 0 <= i < yt.len() ==> #[trigger] yt[i] == y[i + 1]);
        assert forall|e: Seq<LabelModel>| xt.contains(e) == yt.contains(e) by {
            if xt.contains(e) {
                let i = choose|i: int| 0 <= i < xt.len() && xt[i] == e;
                assert(x[i + 1] == e);
                assert(x.contains(e));
                assert(e != x[0]);
                assert(y.contains(e));
                let j = choose|j: int| 0 <= j < y.len() && y[j] == e;
                assert(j != 0);
                assert(yt[j - 1] == e);
                assert(yt.contains(e));
            }
            if yt.contains(e) {
                let i = choose|i: int| 0 <= i < yt.len() && yt[i] == e;
                assert(y[i + 1] == e);
                assert(y.contains(e));
                assert(e != y[0]);
                assert(x.contains(e));
                let j = choose|j: int| 0 <= j < x.len() && x[j] == e;
                assert(j != 0);
                assert(xt[j - 1] == e);
                assert(xt.contains(e));
            }
        }
        lemma_sorted_sigs_unique(xt, yt);
        assert(x.len() == y.len());
        assert forall|i: int| 0 <= i < x.len() implies x[i] == y[i] by {
            if i > 0 {
                assert(xt[i - 1] == yt[i - 1]);
                assert(x[i] == xt[i - 1]);
                assert(y[i] == yt[i - 1]);
            }
        }
        assert(x =~= y);
    }
}

/// Matrix-merge idempotence: merging a result set together with a
/// duplicate of itself yields the same distinct signatures, and for each
/// of them the same labels and the same sample sequence, as merging it
/// once.
pub proof fn lemma_matrix_merge_idempotent(
    input: Seq<SeriesModel>,
    once: Seq<RangeValue>,
    twice: Seq<RangeValue>,
)
    requires
        matrix_merge_post(input, once),
        matrix_merge_post(input + input, twice),
    ensures
        once.len() == twice.len(),
        forall|g: int|
            0 <= g < once.len() ==> rv_sig(#[trigger] once[g]) == rv_sig(twice[g]) && once[g].samples@
                == twice[g].samples@ && labels_view(once[g].labels@) == labels_view(
                twice[g].labels@,
            ),
{
    let input2 = input + input;
    let x = Seq::new(once.len(), |g: int| rv_sig(once[g]));
    let y = Seq::new(twice.len(), |g: int| rv_sig(twice[g]));
    assert forall|e: Seq<LabelModel>| x.contains(e) == y.contains(e) by {
        lemma_merge_idempotent_model(input, e);
        if x.contains(e) {
            let g = choose|g: int| 0 <= g < x.len() && x[g] == e;
            assert(rv_sig(once[g]) == e);
            assert(has_sig(input, e));
            let k = choose|k: int| 0 <= k < input.len() && sig_of((#[trigger] input[k]).metric) == e;
            assert(input2[k] == input[k]);
            assert(0 <= k < input2.len() && sig_of((#[trigger] input2[k]).metric) == e);
            assert(sig_covered(input2, twice, k));
            let g2 = choose|g2: int|
                0 <= g2 < twice.len() && rv_sig(#[trigger] twice[g2]) == sig_of(input2[k].metric);
            assert(y[g2] == e);
            assert(y.contains(e));
        }
        if y.contains(e) {
            let g = choose|g: int| 0 <= g < y.len() && y[g] == e;
            assert(rv_sig(twice[g]) == e);
            assert(has_sig(input2, e));
            assert(has_sig(input, e));
            let k = choose|k: int| 0 <= k < input.len() && sig_of((#[trigger] input[k]).metric) == e;
            assert(sig_covered(input, once, k));
            let g2 = choose|g2: int|
                0 <= g2 < once.len() && rv_sig(#[trigger] once[g2]) == sig_of(input[k].metric);
            assert(x[g2] == e);
            assert(x.contains(e));
        }
    }
    lemma_sorted_sigs_unique(x, y);
    assert(once.len() == twice.len());
    assert forall|g: int| 0 <= g < once.len() implies rv_sig(#[trigger] once[g]) == rv_sig(
        twice[g],
    ) && once[g].samples@ == twice[g].samples@ && labels_view(once[g].labels@) == labels_view(
        twice[g].labels@,
    ) by {
        assert(x[g] == y[g]);
        let sig = rv_sig(once[g]);
        lemma_merge_idempotent_model(input, sig);
        assert(samples_map(once[g].samples@) == matrix_group_map(input, sig));
        assert(samples_map(twice[g].samples@) == matrix_group_map(input2, sig));
        lemma_ts_sorted_map_unique(once[g].samples@, twice[g].samples@);
        assert(labels_view(once[g].labels@) == last_labels(input, sig));
        assert(labels_view(twice[g].labels@) == last_labels(input2, sig));
    }
}

/// Copies a label vector.
fn clone_labels(v: &Vec<Label>) -> (r: Vec<Label>)
    ensures
        labels_view(r@) == labels_view(v@),
{
    let mut out: Vec<Label> = Vec::new();
    let mut k: usize = 0;
    while k < v.len()
        invariant
            k <= v@.len(),
            out@.len() == k,
            forall|i: int| 0 <= i < k ==> labels_view(out@)[i] == labels_view(v@)[i],
        decreases v@.len() - k,
    {
        out.push(v[k].clone());
        k = k + 1;
    }
    proof {
        assert(labels_view(out@) =~= labels_view(v@));
    }
    out
}

} // verus!
