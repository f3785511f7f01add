//! The nearest-centroid classifier with margin gating.
//!
//! Training computes, per label, the exact mean dosage of that label's
//! examples. Prediction measures the exact distance from the query dosage
//! to every centroid; when one centroid is strictly nearest and the gap to
//! the second-nearest reaches the threshold, the winning label gets the
//! whole confidence, else no decision is made. Two distinct trained labels
//! are required.

use vstd::prelude::*;
use crate::VcfError;
use crate::bytes::{bytes_eq, clone_bytes, seq_views};
use crate::ratio::{Ratio, rat_wf, rat_le, rat_lt, rat_add_opt, rat_div_count_opt,
    rat_sub_abs_opt};

verus! {

/// Views of training pairs.
pub open spec fn tp_views(s: Seq<(Ratio, Vec<u8>)>) -> Seq<(Ratio, Seq<u8>)> {
    s.map_values(|p: (Ratio, Vec<u8>)| (p.0, p.1@))
}

/// Every dosage of the pairs is a well-formed rational.
pub open spec fn tp_wf(s: Seq<(Ratio, Seq<u8>)>) -> bool {
    forall|i: int| 0 <= i < s.len() ==> rat_wf((#[trigger] s[i]).0)
}

/// The distinct labels of the pairs, in first-seen order.
pub open spec fn train_labels(pairs: Seq<(Ratio, Seq<u8>)>) -> Seq<Seq<u8>>
    decreases pairs.len(),
{
    if pairs.len() == 0 {
        Seq::empty()
    } else {
        let p = train_labels(pairs.drop_last());
        if p.contains(pairs.last().1) {
            p
        } else {
            p.push(pairs.last().1)
        }
    }
}

/// How many examples carry label `l`.
pub open spec fn label_count(pairs: Seq<(Ratio, Seq<u8>)>, l: Seq<u8>) -> nat
    decreases pairs.len(),
{
    if pairs.len() == 0 {
        0
    } else {
        label_count(pairs.drop_last(), l) + (if pairs.last().1 == l {
            1nat
        } else {
            0nat
        })
    }
}

/// The checked exact sum of the dosages carrying label `l`.
pub open spec fn label_sum(pairs: Seq<(Ratio, Seq<u8>)>, l: Seq<u8>) -> Option<Ratio>
    decreases pairs.len(),
{
    if pairs.len() == 0 {
        Some(Ratio { num: 0, den: 1 })
    } else {
        let s = label_sum(pairs.drop_last(), l);
        if pairs.last().1 == l {
            match s {
                None => None,
                Some(x) => rat_add_opt(x, pairs.last().0),
            }
        } else {
            s
        }
    }
}

/// The checked centroid of label `l`: the exact mean of its dosages.
pub open spec fn centroid(pairs: Seq<(Ratio, Seq<u8>)>, l: Seq<u8>) -> Option<Ratio> {
    match label_sum(pairs, l) {
        None => None,
        Some(s) => rat_div_count_opt(s, label_count(pairs, l) as u64),
    }
}

/// The per-label centroids in first-seen label order, or `None` when an
/// exact intermediate left the `u64` range.
pub open spec fn freqs_from(
    pairs: Seq<(Ratio, Seq<u8>)>,
    labels: Seq<Seq<u8>>,
    i: int,
) -> Option<Seq<(Seq<u8>, Ratio)>>
    decreases labels.len() - i,
{
    if i < 0 || i >= labels.len() {
        Some(Seq::empty())
    } else {
        match centroid(pairs, labels[i]) {
            None => None,
            Some(c) => match freqs_from(pairs, labels, i + 1) {
                None => None,
                Some(rest) => Some(seq![(labels[i], c)] + rest),
            },
        }
    }
}

/// What training computes: one (label, centroid) row per distinct label.
pub open spec fn frequencies_spec(pairs: Seq<(Ratio, Seq<u8>)>) -> Option<
    Seq<(Seq<u8>, Ratio)>,
> {
    freqs_from(pairs, train_labels(pairs), 0)
}

pub proof fn lemma_label_count_pos(pairs: Seq<(Ratio, Seq<u8>)>, l: Seq<u8>)
    requires
        train_labels(pairs).contains(l),
    ensures
        label_count(pairs, l) >= 1,
    decreases pairs.len(),
{
    if pairs.len() > 0 {
        if pairs.last().1 == l {
        } else {
            assert(train_labels(pairs.drop_last()).contains(l));
            lemma_label_count_pos(pairs.drop_last(), l);
        }
    }
}

/// Computes the per-label mean dosages of the training pairs. Fails with
/// `NumericOverflow` exactly when an exact intermediate leaves `u64`.
pub fn compute_frequencies(pairs: &Vec<(Ratio, Vec<u8>)>) -> (r: Result<
    Vec<(Vec<u8>, Ratio)>,
    VcfError,
>)
    requires
        tp_wf(tp_views(pairs@)),
        pairs@.len() < usize::MAX,
    ensures
        r is Ok <==> frequencies_spec(tp_views(pairs@)) is Some,
        r is Err ==> r->Err_0 == VcfError::NumericOverflow,
        r is Ok ==> {
            let fv = r->Ok_0@.map_values(|p: (Vec<u8>, Ratio)| (p.0@, p.1));
            &&& fv == frequencies_spec(tp_views(pairs@))->Some_0
            &&& forall|j: int| 0 <= j < fv.len() ==> rat_wf((#[trigger] fv[j]).1)
        },
{
    let ghost pv = tp_views(pairs@);
    let mut labels: Vec<Vec<u8>> = Vec::new();
    let mut i: usize = 0;
    while i < pairs.len()
        invariant
            pv == tp_views(pairs@),
            i <= pairs@.len(),
            seq_views(labels@) == train_labels(pv.take(i as int)),
        decreases pairs@.len() - i,
    {
        let ghost prev = labels@;
        proof {
            assert(pv.take(i + 1).drop_last() =~= pv.take(i as int));
            assert(pv.take(i + 1).last() == pv[i as int]);
        }
        if !crate::bytes::bytes_contains(&labels, &pairs[i].1) {
            labels.push(clone_bytes(&pairs[i].1));
            proof {
                assert(seq_views(labels@) =~= seq_views(prev).push(pv[i as int].1));
            }
        }
        i = i + 1;
    }
    proof {
        assert(pv.take(pv.len() as int) == pv);
    }
    let ghost tl = train_labels(pv);
    let mut out: Vec<(Vec<u8>, Ratio)> = Vec::new();
    let mut j: usize = 0;
    while j < labels.len()
        invariant
            pv == tp_views(pairs@),
            tp_wf(pv),
            pairs@.len() < usize::MAX,
            tl == train_labels(pv),
            seq_views(labels@) == tl,
            j <= labels@.len(),
            out@.len() == j,
            freqs_from(pv, tl, 0) is Some <==> freqs_from(pv, tl, j as int) is Some,
            freqs_from(pv, tl, 0) is Some ==> freqs_from(pv, tl, 0)->Some_0 == out@.map_values(
                |p: (Vec<u8>, Ratio)| (p.0@, p.1),
            ) + freqs_from(pv, tl, j as int)->Some_0,
            forall|k: int| 0 <= k < j ==> rat_wf((#[trigger] out@[k]).1),
        decreases labels@.len() - j,
    {
        let ghost lab = tl[j as int];
        let label = clone_bytes(&labels[j]);
        proof {
            assert(label@ == lab);
        }
        let mut sum = Ratio::zero();
        let mut count: u64 = 0;
        let mut k: usize = 0;
        let mut overflow = false;
        while k < pairs.len()
            invariant
                pv == tp_views(pairs@),
                tp_wf(pv),
                pairs@.len() < usize::MAX,
                label@ == lab,
                k <= pairs@.len(),
                count <= k,
                !overflow ==> label_sum(pv.take(k as int), lab) == Some(sum) && rat_wf(sum),
                overflow ==> label_sum(pv.take(k as int), lab) is None,
                count == label_count(pv.take(k as int), lab),
            decreases pairs@.len() - k,
        {
            proof {
                assert(pv.take(k + 1).drop_last() =~= pv.take(k as int));
                assert(pv.take(k + 1).last() == pv[k as int]);
            }
            if bytes_eq(&pairs[k].1, &label) {
                if !overflow {
                    match sum.add(pairs[k].0) {
                        Some(s2) => {
                            sum = s2;
                        },
                        None => {
                            overflow = true;
                        },
                    }
                }
                count = count + 1;
            }
            k = k + 1;
        }
        proof {
            assert(pv.take(pv.len() as int) == pv);
        }
        if overflow {
            proof {
                assert(centroid(pv, lab) is None);
                lemma_freqs_none(pv, tl, 0, j as int);
            }
            return Err(VcfError::NumericOverflow);
        }
        proof {
            lemma_label_count_pos(pv, lab);
            assert(tl.contains(lab));
        }
        match sum.div_count(count) {
            Some(c) => {
                let ghost prev_out = out@;
                out.push((label, c));
                proof {
                    assert(centroid(pv, lab) == Some(c));
                    assert(freqs_from(pv, tl, j as int) is Some <==> freqs_from(
                        pv,
                        tl,
                        j + 1,
                    ) is Some);
                    if freqs_from(pv, tl, 0) is Some {
                        assert(out@.map_values(|p: (Vec<u8>, Ratio)| (p.0@, p.1)) =~= prev_out
                            .map_values(|p: (Vec<u8>, Ratio)| (p.0@, p.1)).push((lab, c)));
                        assert(freqs_from(pv, tl, j as int)->Some_0 == seq![(lab, c)]
                            + freqs_from(pv, tl, j + 1)->Some_0);
                        assert(freqs_from(pv, tl, 0)->Some_0 =~= out@.map_values(
                            |p: (Vec<u8>, Ratio)| (p.0@, p.1),
                        ) + freqs_from(pv, tl, j + 1)->Some_0);
                    }
                }
            },
            None => {
                proof {
                    assert(centroid(pv, lab) is None);
                    lemma_freqs_none(pv, tl, 0, j as int);
                }
                return Err(VcfError::NumericOverflow);
            },
        }
        j = j + 1;
    }
    proof {
        assert(freqs_from(pv, tl, labels@.len() as int) == Some(
            Seq::<(Seq<u8>, Ratio)>::empty(),
        ));
        if freqs_from(pv, tl, 0) is Some {
            assert(freqs_from(pv, tl, 0)->Some_0 =~= out@.map_values(
                |p: (Vec<u8>, Ratio)| (p.0@, p.1),
            ));
        }
    }
    Ok(out)
}

/// A centroid failure at label `j` fails the whole training.
proof fn lemma_freqs_none(pairs: Seq<(Ratio, Seq<u8>)>, labels: Seq<Seq<u8>>, i: int, j: int)
    requires
        0 <= i <= j < labels.len(),
        centroid(pairs, labels[j]) is None,
    ensures
        freqs_from(pairs, labels, i) is None,
    decreases j - i,
{
    if i < j {
        lemma_freqs_none(pairs, labels, i + 1, j);
    }
}

/// The distances from the query dosage to every centroid, in order.
pub open spec fn dists_of(freqs: Seq<(Seq<u8>, Ratio)>, g: Ratio) -> Option<Seq<Ratio>>
    decreases freqs.len(),
{
    if freqs.len() == 0 {
        Some(Seq::empty())
    } else {
        match dists_of(freqs.drop_last(), g) {
            None => None,
            Some(ds) => match rat_sub_abs_opt(g, freqs.last().1) {
                None => None,
                Some(d) => Some(ds.push(d)),
            },
        }
    }
}

/// The index of the smallest distance, the smallest, and the second
/// smallest, scanning from `i` with the given running state.
pub open spec fn scan2(ds: Seq<Ratio>, i: int, bi: int, best: Ratio, second: Ratio) -> (
    int,
    Ratio,
    Ratio,
)
    decreases ds.len() - i,
{
    if i < 0 || i >= ds.len() {
        (bi, best, second)
    } else if rat_lt(ds[i], best) {
        scan2(ds, i + 1, i, ds[i], best)
    } else if rat_lt(ds[i], second) {
        scan2(ds, i + 1, bi, best, ds[i])
    } else {
        scan2(ds, i + 1, bi, best, second)
    }
}

/// The top-two scan of a whole distance list (at least two entries),
/// seeded from its first two entries.
pub open spec fn top2(ds: Seq<Ratio>) -> (int, Ratio, Ratio) {
    if rat_lt(ds[1], ds[0]) {
        scan2(ds, 2, 1, ds[1], ds[0])
    } else {
        scan2(ds, 2, 0, ds[0], ds[1])
    }
}

/// What prediction decides: the winning label when one centroid is
/// strictly nearest and its margin over the second-nearest reaches the
/// threshold; no label otherwise; and `None` for an exact intermediate out
/// of `u64` range.
pub open spec fn predict_spec(freqs: Seq<(Seq<u8>, Ratio)>, thr: Ratio, g: Ratio) -> Option<
    Option<Seq<u8>>,
>
    recommends
        freqs.len() >= 2,
{
    match dists_of(freqs, g) {
        None => None,
        Some(ds) => {
            let t = top2(ds);
            match rat_sub_abs_opt(t.2, t.1) {
                None => None,
                Some(margin) => Some(
                    if rat_lt(t.1, t.2) && rat_le(thr, margin) {
                        Some(freqs[t.0].0)
                    } else {
                        None
                    },
                ),
            }
        },
    }
}

/// Well-formed trained state: every centroid a well-formed rational.
pub open spec fn freqs_wf(freqs: Seq<(Seq<u8>, Ratio)>) -> bool {
    forall|i: int| 0 <= i < freqs.len() ==> rat_wf((#[trigger] freqs[i]).1)
}

/// The trained nearest-centroid model: a margin threshold and one centroid
/// per trained label.
#[derive(Debug)]
pub struct PredictorJoao {
    pub threshold: Ratio,
    pub frequencies: Vec<(Vec<u8>, Ratio)>,
}

impl PredictorJoao {
    /// The trained rows, over views.
    pub open spec fn freqs(&self) -> Seq<(Seq<u8>, Ratio)> {
        self.frequencies@.map_values(|p: (Vec<u8>, Ratio)| (p.0@, p.1))
    }

    /// Predicts for one dosage. Requires at least two trained labels;
    /// fails with `NumericOverflow` exactly when an exact intermediate
    /// leaves `u64`.
    pub fn predict(&self, genotype: Ratio) -> (r: Result<Option<Vec<u8>>, VcfError>)
        requires
            self.frequencies@.len() >= 2,
            freqs_wf(self.freqs()),
            rat_wf(self.threshold),
            rat_wf(genotype),
        ensures
            r is Ok <==> predict_spec(self.freqs(), self.threshold, genotype) is Some,
            r is Err ==> r->Err_0 == VcfError::NumericOverflow,
            r is Ok ==> {
                let d = predict_spec(self.freqs(), self.threshold, genotype)->Some_0;
                &&& (r->Ok_0 is Some <==> d is Some)
                &&& (r->Ok_0 is Some ==> r->Ok_0->Some_0@ == d->Some_0)
            },
    {
        let ghost fr = self.freqs();
        let n = self.frequencies.len();
        let mut ds: Vec<Ratio> = Vec::new();
        let mut i: usize = 0;
        while i < n
            invariant
                fr == self.freqs(),
                freqs_wf(fr),
                rat_wf(genotype),
                n == self.frequencies@.len(),
                i <= n,
                dists_of(fr.take(i as int), genotype) == Some(ds@),
                forall|k: int| 0 <= k < ds@.len() ==> rat_wf(#[trigger] ds@[k]),
            decreases n - i,
        {
            proof {
                assert(fr.take(i + 1).drop_last() =~= fr.take(i as int));
                assert(fr.take(i + 1).last() == fr[i as int]);
            }
            match genotype.sub_abs(self.frequencies[i].1) {
                Some(d) => {
                    ds.push(d);
                },
                None => {
                    proof {
                        assert(dists_of(fr.take(i + 1), genotype) is None);
                        lemma_dists_none(fr, genotype, i + 1);
                    }
                    return Err(VcfError::NumericOverflow);
                },
            }
            i = i + 1;
        }
        proof {
            assert(fr.take(fr.len() as int) == fr);
            lemma_dists_len(fr, genotype);
        }
        let mut bi: usize = 0;
        let mut best: Ratio = ds[0];
        let mut second: Ratio = ds[1];
        if ds[1].lt(ds[0]) {
            bi = 1;
            best = ds[1];
            second = ds[0];
        }
        let mut k: usize = 2;
        while k < n
            invariant
                fr == self.freqs(),
                freqs_wf(fr),
                n == self.frequencies@.len(),
                n == ds@.len(),
                n >= 2,
                2 <= k <= n,
                bi < n,
                rat_wf(best),
                rat_wf(second),
                forall|j: int| 0 <= j < ds@.len() ==> rat_wf(#[trigger] ds@[j]),
                top2(ds@) == scan2(ds@, k as int, bi as int, best, second),
            decreases n - k,
        {
            let d = ds[k];
            if d.lt(best) {
                second = best;
                best = d;
                bi = k;
            } else if d.lt(second) {
                second = d;
            }
            k = k + 1;
        }
        match second.sub_abs(best) {
            None => Err(VcfError::NumericOverflow),
            Some(margin) => {
                if best.lt(second) && self.threshold.le(margin) {
                    Ok(Some(clone_bytes(&self.frequencies[bi].0)))
                } else {
                    Ok(None)
                }
            },
        }
    }
}

/// A successful distance list has one distance per trained row.
pub proof fn lemma_dists_len(freqs: Seq<(Seq<u8>, Ratio)>, g: Ratio)
    requires
        dists_of(freqs, g) is Some,
    ensures
        dists_of(freqs, g)->Some_0.len() == freqs.len(),
    decreases freqs.len(),
{
    if freqs.len() > 0 {
        lemma_dists_len(freqs.drop_last(), g);
    }
}

/// A distance failure in a prefix fails the whole distance list.
proof fn lemma_dists_none(freqs: Seq<(Seq<u8>, Ratio)>, g: Ratio, j: int)
    requires
        0 <= j <= freqs.len(),
        dists_of(freqs.take(j), g) is None,
    ensures
        dists_of(freqs, g) is None,
    decreases freqs.len() - j,
{
    if j < freqs.len() {
        assert(freqs.take(j + 1).drop_last() =~= freqs.take(j));
        lemma_dists_none(freqs, g, j + 1);
    } else {
        assert(freqs.take(j) == freqs);
    }
}

/// Builds trained models with a fixed margin threshold.
pub struct PredictorJoaoFactory {
    pub threshold: Ratio,
}

impl PredictorJoaoFactory {
    /// Trains a model from (dosage, label) pairs.
    pub fn build(&self, genotypes_and_labels: &Vec<(Ratio, Vec<u8>)>) -> (r: Result<
        PredictorJoao,
        VcfError,
    >)
        requires
            rat_wf(self.threshold),
            tp_wf(tp_views(genotypes_and_labels@)),
            genotypes_and_labels@.len() < usize::MAX,
        ensures
            r is Ok <==> frequencies_spec(tp_views(genotypes_and_labels@)) is Some,
            r is Err ==> r->Err_0 == VcfError::NumericOverflow,
            r is Ok ==> {
                &&& r->Ok_0.threshold == self.threshold
                &&& r->Ok_0.freqs() == frequencies_spec(tp_views(genotypes_and_labels@))->Some_0
                &&& freqs_wf(r->Ok_0.freqs())
            },
    {
        match compute_frequencies(genotypes_and_labels) {
            Ok(frequencies) => Ok(
                PredictorJoao { threshold: self.threshold, frequencies },
            ),
            Err(e) => Err(e),
        }
    }
}

} // verus!
