//! The capacity engine: repeated-partition cross-validation that scores,
//! for every variant of the stream, how well its dosages predict the
//! individuals' population labels.
//!
//! Partitions are drawn once per run and reused, unmodified, for every
//! variant of that run. All statistics are exact rationals; the mean
//! accuracy comes with the population variance of the per-repeat
//! accuracies when there is more than one repeat, and a square root for
//! display is left to the caller.

use vstd::prelude::*;
use crate::VcfError;
use crate::bytes::seq_views;
use crate::ratio::{Ratio, rat_wf, rat_lt, rat_add_opt, rat_div_count_opt, rat_sub_abs_opt,
    rat_mul_opt};
use crate::record::{VCFData, RecordModel, rec_wf, rec_field};
use crate::stream::MetadataStage;
use crate::stream::DataStage;
use crate::dosage::{DosageCache, dosage_of, process_variant};
use crate::classifier::{PredictorJoaoFactory, frequencies_spec, predict_spec, train_labels,
    tp_views, tp_wf, freqs_wf, freqs_from};
use crate::population::Population;
use crate::utils::{split, lemma_multiset_bound};

verus! {

/// A draw of individual indices: the training side and the held-out
/// target side.
#[derive(Debug)]
pub struct Partition {
    pub train: Vec<u64>,
    pub target: Vec<u64>,
}

/// Views of a partition list.
pub open spec fn parts_views(s: Seq<Partition>) -> Seq<(Seq<u64>, Seq<u64>)> {
    s.map_values(|p: Partition| (p.train@, p.target@))
}

/// Every index of the partition lies under `n`, and the sides are small
/// enough to enumerate.
pub open spec fn partition_wf(p: (Seq<u64>, Seq<u64>), n: int) -> bool {
    &&& forall|i: int| 0 <= i < p.0.len() ==> #[trigger] p.0[i] < n
    &&& forall|i: int| 0 <= i < p.1.len() ==> #[trigger] p.1[i] < n
    &&& p.0.len() < usize::MAX
    &&& p.1.len() < usize::MAX
}

pub open spec fn partitions_wf(ps: Seq<(Seq<u64>, Seq<u64>)>, n: int) -> bool {
    forall|i: int| 0 <= i < ps.len() ==> partition_wf(#[trigger] ps[i], n)
}

/// The identity index list 0, 1, …, n-1.
pub open spec fn index_identity(n: int) -> Seq<u64> {
    Seq::new(n as nat, |q: int| q as u64)
}

/// The target-set size of a draw over `n` individuals: ⌊n · ratio⌋.
pub open spec fn target_size(n: int, ratio: Ratio) -> int
    recommends
        rat_wf(ratio),
{
    (n * ratio.num) / (ratio.den as int)
}

/// An exact draw over `n` individuals: the target side holds `tsize`
/// indices, and train and target together hold exactly the indices
/// 0..n, each once — so the two sides are disjoint.
pub open spec fn partition_exact(p: (Seq<u64>, Seq<u64>), n: int, tsize: int) -> bool {
    &&& p.1.len() == tsize
    &&& p.0.len() == n - tsize
    &&& p.0.to_multiset().add(p.1.to_multiset()) == index_identity(n).to_multiset()
}

/// A run's draws: one exact, well-formed draw per repeat.
pub open spec fn draws_exact(
    ps: Seq<(Seq<u64>, Seq<u64>)>,
    repeats: int,
    n: int,
    tsize: int,
) -> bool {
    &&& ps.len() == repeats
    &&& partitions_wf(ps, n)
    &&& forall|i: int| 0 <= i < ps.len() ==> partition_exact(#[trigger] ps[i], n, tsize)
}

/// The dosage of a genotype column, under the machine limit on its length.
pub open spec fn safe_dosage(s: Seq<u8>) -> Ratio {
    if s.len() < usize::MAX {
        dosage_of(s)
    } else {
        Ratio { num: 0, den: 1 }
    }
}

/// How many of the first `n_labels` individuals the record carries
/// genotype columns for; individuals beyond the record's columns drop out
/// of that record's evaluation.
pub open spec fn part_count(m: RecordModel, n_labels: int) -> int {
    let cols: int = if m.ranges.len() >= 9 {
        m.ranges.len() - 9
    } else {
        0
    };
    if n_labels <= cols {
        n_labels
    } else {
        cols
    }
}

/// The (dosage, label) training pairs of one record for the given train
/// indices, in index-list order.
pub open spec fn train_pairs(m: RecordModel, labels: Seq<Seq<u8>>, train: Seq<u64>) -> Seq<
    (Ratio, Seq<u8>),
>
    decreases train.len(),
{
    if train.len() == 0 {
        Seq::empty()
    } else {
        let p = train_pairs(m, labels, train.drop_last());
        let ix = train.last() as int;
        if ix < part_count(m, labels.len() as int) {
            p.push((safe_dosage(rec_field(m, 9 + ix)), labels[ix]))
        } else {
            p
        }
    }
}

/// Hits and participating-target count of one trained model on one
/// record: each target whose predicted label equals its true label adds
/// the whole confidence, a no-decision adds nothing.
pub open spec fn target_hits(
    freqs: Seq<(Seq<u8>, Ratio)>,
    thr: Ratio,
    m: RecordModel,
    labels: Seq<Seq<u8>>,
    target: Seq<u64>,
) -> Option<(nat, nat)>
    decreases target.len(),
{
    if target.len() == 0 {
        Some((0, 0))
    } else {
        match target_hits(freqs, thr, m, labels, target.drop_last()) {
            None => None,
            Some(ht) => {
                let ix = target.last() as int;
                if ix < part_count(m, labels.len() as int) {
                    match predict_spec(freqs, thr, safe_dosage(rec_field(m, 9 + ix))) {
                        None => None,
                        Some(d) => Some(
                            (
                                ht.0 + (if d == Some(labels[ix]) {
                                    1nat
                                } else {
                                    0nat
                                }),
                                ht.1 + 1,
                            ),
                        ),
                    }
                } else {
                    Some(ht)
                }
            },
        }
    }
}

/// One repeat's accuracy on one record. Training with fewer than two
/// distinct labels fails loudly; an exact intermediate out of the `u64`
/// range fails with overflow; a repeat without participating targets
/// scores zero.
pub open spec fn repeat_accuracy(
    m: RecordModel,
    labels: Seq<Seq<u8>>,
    part: (Seq<u64>, Seq<u64>),
    thr: Ratio,
) -> Result<Ratio, VcfError> {
    let tp = train_pairs(m, labels, part.0);
    if train_labels(tp).len() < 2 {
        Err(VcfError::TooFewLabels)
    } else {
        match frequencies_spec(tp) {
            None => Err(VcfError::NumericOverflow),
            Some(freqs) => match target_hits(freqs, thr, m, labels, part.1) {
                None => Err(VcfError::NumericOverflow),
                Some(ht) => Ok(
                    if ht.1 == 0 {
                        Ratio { num: 0, den: 1 }
                    } else {
                        Ratio { num: ht.0 as u64, den: ht.1 as u64 }
                    },
                ),
            },
        }
    }
}

/// The per-repeat accuracies of one record, first failure first.
pub open spec fn accuracies(
    m: RecordModel,
    labels: Seq<Seq<u8>>,
    parts: Seq<(Seq<u64>, Seq<u64>)>,
    thr: Ratio,
) -> Result<Seq<Ratio>, VcfError>
    decreases parts.len(),
{
    if parts.len() == 0 {
        Ok(Seq::empty())
    } else {
        match accuracies(m, labels, parts.drop_last(), thr) {
            Err(e) => Err(e),
            Ok(s) => match repeat_accuracy(m, labels, parts.last(), thr) {
                Err(e) => Err(e),
                Ok(a) => Ok(s.push(a)),
            },
        }
    }
}

/// The checked exact sum of a list of rationals.
pub open spec fn rat_sum(s: Seq<Ratio>) -> Option<Ratio>
    decreases s.len(),
{
    if s.len() == 0 {
        Some(Ratio { num: 0, den: 1 })
    } else {
        match rat_sum(s.drop_last()) {
            None => None,
            Some(x) => rat_add_opt(x, s.last()),
        }
    }
}

/// The checked exact mean.
pub open spec fn rat_mean(s: Seq<Ratio>) -> Option<Ratio>
    recommends
        s.len() >= 1,
{
    match rat_sum(s) {
        None => None,
        Some(x) => rat_div_count_opt(x, s.len() as u64),
    }
}

/// The checked exact sum of squared deviations from `mean`.
pub open spec fn dev_sq_sum(s: Seq<Ratio>, mean: Ratio) -> Option<Ratio>
    decreases s.len(),
{
    if s.len() == 0 {
        Some(Ratio { num: 0, den: 1 })
    } else {
        match dev_sq_sum(s.drop_last(), mean) {
            None => None,
            Some(x) => match rat_sub_abs_opt(s.last(), mean) {
                None => None,
                Some(d) => match rat_mul_opt(d, d) {
                    None => None,
                    Some(sq) => rat_add_opt(x, sq),
                },
            },
        }
    }
}

/// The checked exact population variance (the squared population standard
/// deviation: the divisor is the repeat count itself).
pub open spec fn rat_variance(s: Seq<Ratio>, mean: Ratio) -> Option<Ratio>
    recommends
        s.len() >= 1,
{
    match dev_sq_sum(s, mean) {
        None => None,
        Some(x) => rat_div_count_opt(x, s.len() as u64),
    }
}

/// One record's statistic: the mean of its per-repeat accuracies, with
/// the variance of those accuracies when there is more than one repeat.
pub open spec fn capacity_stat(
    m: RecordModel,
    labels: Seq<Seq<u8>>,
    parts: Seq<(Seq<u64>, Seq<u64>)>,
    thr: Ratio,
) -> Result<(Ratio, Option<Ratio>), VcfError> {
    match accuracies(m, labels, parts, thr) {
        Err(e) => Err(e),
        Ok(accs) => match rat_mean(accs) {
            None => Err(VcfError::NumericOverflow),
            Some(mean) => if parts.len() == 1 {
                Ok((mean, None))
            } else {
                match rat_variance(accs, mean) {
                    None => Err(VcfError::NumericOverflow),
                    Some(v) => Ok((mean, Some(v))),
                }
            },
        },
    }
}

/// The capacity rows of the remaining records, appended to the rows
/// already produced: one row per record, in stream order; a record
/// without an identifier column is passed over.
pub open spec fn capacity_from(
    acc: Seq<(Seq<u8>, Ratio, Option<Ratio>)>,
    recs: Seq<RecordModel>,
    labels: Seq<Seq<u8>>,
    parts: Seq<(Seq<u64>, Seq<u64>)>,
    thr: Ratio,
) -> Result<Seq<(Seq<u8>, Ratio, Option<Ratio>)>, VcfError>
    decreases recs.len(),
{
    if recs.len() == 0 {
        Ok(acc)
    } else {
        let m = recs.first();
        if m.ranges.len() < 3 {
            capacity_from(acc, recs.drop_first(), labels, parts, thr)
        } else {
            match capacity_stat(m, labels, parts, thr) {
                Err(e) => Err(e),
                Ok(st) => capacity_from(
                    acc.push((rec_field(m, 2), st.0, st.1)),
                    recs.drop_first(),
                    labels,
                    parts,
                    thr,
                ),
            }
        }
    }
}

/// One row of the capacity report.
#[derive(Debug)]
pub struct CapacityRow {
    pub identifier: Vec<u8>,
    pub mean: Ratio,
    pub variance: Option<Ratio>,
}

/// Views of a row list.
pub open spec fn rows_views(s: Seq<CapacityRow>) -> Seq<(Seq<u8>, Ratio, Option<Ratio>)> {
    s.map_values(|r: CapacityRow| (r.identifier@, r.mean, r.variance))
}

/// A successful training has one centroid row per distinct label.
pub proof fn lemma_freqs_len(
    pairs: Seq<(Ratio, Seq<u8>)>,
    labels: Seq<Seq<u8>>,
    i: int,
)
    requires
        0 <= i <= labels.len(),
        freqs_from(pairs, labels, i) is Some,
    ensures
        freqs_from(pairs, labels, i)->Some_0.len() == labels.len() - i,
    decreases labels.len() - i,
{
    if i < labels.len() {
        lemma_freqs_len(pairs, labels, i + 1);
    }
}

/// One repeat of one record, executably.
fn accuracy_of_repeat(
    record: &VCFData,
    labels: &Vec<Vec<u8>>,
    part: &Partition,
    threshold: Ratio,
    cache: &mut DosageCache,
) -> (r: Result<Ratio, VcfError>)
    requires
        rec_wf(record@),
        rat_wf(threshold),
        old(cache).wf(),
        partition_wf((part.train@, part.target@), labels@.len() as int),
    ensures
        final(cache).wf(),
        r == repeat_accuracy(record@, seq_views(labels@), (part.train@, part.target@), threshold),
        r is Ok ==> rat_wf(r->Ok_0),
        r is Err ==> r->Err_0 == VcfError::TooFewLabels || r->Err_0 == VcfError::NumericOverflow,
{
    let ghost m = record@;
    let ghost lv = seq_views(labels@);
    let nf = record.num_fields();
    let cols: usize = if nf >= 9 {
        nf - 9
    } else {
        0
    };
    let pm: usize = if labels.len() <= cols {
        labels.len()
    } else {
        cols
    };
    proof {
        assert(pm as int == part_count(m, lv.len() as int));
    }
    let mut pairs: Vec<(Ratio, Vec<u8>)> = Vec::new();
    let mut k: usize = 0;
    while k < part.train.len()
        invariant
            rec_wf(m),
            m == record@,
            lv == seq_views(labels@),
            cache.wf(),
            pm as int == part_count(m, lv.len() as int),
            pm <= labels@.len(),
            k <= part.train@.len(),
            partition_wf((part.train@, part.target@), labels@.len() as int),
            tp_views(pairs@) == train_pairs(m, lv, part.train@.take(k as int)),
            pairs@.len() <= k,
            forall|j: int| 0 <= j < pairs@.len() ==> rat_wf((#[trigger] pairs@[j]).0),
        decreases part.train@.len() - k,
    {
        let ghost prev = pairs@;
        proof {
            assert(part.train@.take(k + 1).drop_last() =~= part.train@.take(k as int));
            assert(part.train@.take(k + 1).last() == part.train@[k as int]);
        }
        let ix = part.train[k];
        if ix < pm as u64 {
            let ixu = ix as usize;
            let g = record.genotype(ixu);
            let d: Ratio;
            if g.len() < usize::MAX {
                d = process_variant(cache, &g);
            } else {
                d = Ratio::new(0, 1);
            }
            proof {
                assert(d == safe_dosage(rec_field(m, 9 + ix as int)));
            }
            pairs.push((d, crate::bytes::clone_bytes(&labels[ixu])));
            proof {
                assert(tp_views(pairs@) =~= tp_views(prev).push(
                    (safe_dosage(rec_field(m, 9 + ix as int)), lv[ix as int]),
                ));
            }
        }
        k = k + 1;
    }
    proof {
        assert(part.train@.take(part.train@.len() as int) == part.train@);
        assert(tp_wf(tp_views(pairs@))) by {
            assert(forall|j: int| 0 <= j < pairs@.len()
                ==> rat_wf((#[trigger] tp_views(pairs@)[j]).0));
        }
    }
    let ghost tp = tp_views(pairs@);
    let mut n_labels: usize = 0;
    let mut seen: Vec<Vec<u8>> = Vec::new();
    let mut q: usize = 0;
    while q < pairs.len()
        invariant
            tp == tp_views(pairs@),
            q <= pairs@.len(),
            seq_views(seen@) == train_labels(tp.take(q as int)),
            n_labels == seen@.len(),
            n_labels <= q,
        decreases pairs@.len() - q,
    {
        let ghost prevs = seen@;
        proof {
            assert(tp.take(q + 1).drop_last() =~= tp.take(q as int));
            assert(tp.take(q + 1).last() == tp[q as int]);
        }
        if !crate::bytes::bytes_contains(&seen, &pairs[q].1) {
            seen.push(crate::bytes::clone_bytes(&pairs[q].1));
            n_labels = n_labels + 1;
            proof {
                assert(seq_views(seen@) =~= seq_views(prevs).push(tp[q as int].1));
            }
        }
        q = q + 1;
    }
    proof {
        assert(tp.take(tp.len() as int) == tp);
    }
    if n_labels < 2 {
        return Err(VcfError::TooFewLabels);
    }
    let factory = PredictorJoaoFactory { threshold };
    let predictor = match factory.build(&pairs) {
        Ok(p) => p,
        Err(e) => {
            return Err(e);
        },
    };
    proof {
        lemma_freqs_len(tp, train_labels(tp), 0);
        assert(predictor.frequencies@.len() >= 2);
    }
    let mut hits: u64 = 0;
    let mut total: u64 = 0;
    let mut t: usize = 0;
    while t < part.target.len()
        invariant
            rec_wf(m),
            m == record@,
            lv == seq_views(labels@),
            cache.wf(),
            pm as int == part_count(m, lv.len() as int),
            pm <= labels@.len(),
            partition_wf((part.train@, part.target@), labels@.len() as int),
            t <= part.target@.len(),
            hits <= total <= t,
            tp == train_pairs(m, lv, part.train@),
            train_labels(tp).len() >= 2,
            frequencies_spec(tp) == Some(predictor.freqs()),
            predictor.frequencies@.len() >= 2,
            freqs_wf(predictor.freqs()),
            predictor.threshold == threshold,
            rat_wf(threshold),
            target_hits(predictor.freqs(), threshold, m, lv, part.target@.take(t as int))
                == Some(((hits as nat, total as nat))),
        decreases part.target@.len() - t,
    {
        proof {
            assert(part.target@.take(t + 1).drop_last() =~= part.target@.take(t as int));
            assert(part.target@.take(t + 1).last() == part.target@[t as int]);
        }
        let ix = part.target[t];
        if ix < pm as u64 {
            let ixu = ix as usize;
            let g = record.genotype(ixu);
            let d: Ratio;
            if g.len() < usize::MAX {
                d = process_variant(cache, &g);
            } else {
                d = Ratio::new(0, 1);
            }
            proof {
                assert(d == safe_dosage(rec_field(m, 9 + ix as int)));
            }
            match predictor.predict(d) {
                Err(e) => {
                    proof {
                        assert(target_hits(
                            predictor.freqs(),
                            threshold,
                            m,
                            lv,
                            part.target@.take(t + 1),
                        ) is None);
                        lemma_target_hits_none(
                            predictor.freqs(),
                            threshold,
                            m,
                            lv,
                            part.target@,
                            t + 1,
                        );
                    }
                    return Err(e);
                },
                Ok(Some(l)) => {
                    if crate::bytes::bytes_eq(&l, &labels[ixu]) {
                        hits = hits + 1;
                    }
                    total = total + 1;
                },
                Ok(None) => {
                    total = total + 1;
                },
            }
        }
        t = t + 1;
    }
    proof {
        assert(part.target@.take(part.target@.len() as int) == part.target@);
    }
    if total == 0 {
        Ok(Ratio::new(0, 1))
    } else {
        Ok(Ratio::new(hits, total))
    }
}

/// A prediction failure in a target prefix fails the whole hit count.
proof fn lemma_target_hits_none(
    freqs: Seq<(Seq<u8>, Ratio)>,
    thr: Ratio,
    m: RecordModel,
    labels: Seq<Seq<u8>>,
    target: Seq<u64>,
    j: int,
)
    requires
        0 <= j <= target.len(),
        target_hits(freqs, thr, m, labels, target.take(j)) is None,
    ensures
        target_hits(freqs, thr, m, labels, target) is None,
    decreases target.len() - j,
{
    if j < target.len() {
        assert(target.take(j + 1).drop_last() =~= target.take(j));
        lemma_target_hits_none(freqs, thr, m, labels, target, j + 1);
    } else {
        assert(target.take(j) == target);
    }
}

/// One record's whole statistic, executably: all repeats, then mean and
/// variance.
pub fn process_polymorphism(
    record: &VCFData,
    labels: &Vec<Vec<u8>>,
    partitions: &Vec<Partition>,
    threshold: Ratio,
    cache: &mut DosageCache,
) -> (r: Result<(Ratio, Option<Ratio>), VcfError>)
    requires
        rec_wf(record@),
        rat_wf(threshold),
        old(cache).wf(),
        partitions@.len() >= 1,
        partitions_wf(parts_views(partitions@), labels@.len() as int),
    ensures
        final(cache).wf(),
        r == capacity_stat(
            record@,
            seq_views(labels@),
            parts_views(partitions@),
            threshold,
        ),
        r is Ok ==> rat_wf(r->Ok_0.0),
        r is Err ==> r->Err_0 == VcfError::TooFewLabels || r->Err_0 == VcfError::NumericOverflow,
{
    let ghost m = record@;
    let ghost lv = seq_views(labels@);
    let ghost pv = parts_views(partitions@);
    let mut accs: Vec<Ratio> = Vec::new();
    let mut i: usize = 0;
    while i < partitions.len()
        invariant
            rec_wf(m),
            m == record@,
            lv == seq_views(labels@),
            pv == parts_views(partitions@),
            rat_wf(threshold),
            cache.wf(),
            partitions_wf(pv, labels@.len() as int),
            i <= partitions@.len(),
            accuracies(m, lv, pv.take(i as int), threshold) == Ok::<_, VcfError>(accs@),
            forall|j: int| 0 <= j < accs@.len() ==> rat_wf(#[trigger] accs@[j]),
        decreases partitions@.len() - i,
    {
        let ghost preva = accs@;
        proof {
            assert(pv.take(i + 1).drop_last() =~= pv.take(i as int));
            assert(pv.take(i + 1).last() == pv[i as int]);
            assert(partition_wf(pv[i as int], labels@.len() as int));
        }
        match accuracy_of_repeat(record, labels, &partitions[i], threshold, cache) {
            Ok(a) => {
                accs.push(a);
            },
            Err(e) => {
                proof {
                    lemma_accuracies_err(m, lv, pv, threshold, i as int);
                }
                return Err(e);
            },
        }
        i = i + 1;
    }
    proof {
        assert(pv.take(pv.len() as int) == pv);
    }
    let ghost av = accs@;
    let mut sum = Ratio::zero();
    let mut k: usize = 0;
    while k < accs.len()
        invariant
            av == accs@,
            m == record@,
            lv == seq_views(labels@),
            pv == parts_views(partitions@),
            partitions@.len() >= 1,
            cache.wf(),
            accuracies(m, lv, pv, threshold) == Ok::<_, VcfError>(av),
            forall|j: int| 0 <= j < accs@.len() ==> rat_wf(#[trigger] accs@[j]),
            k <= accs@.len(),
            rat_sum(av.take(k as int)) == Some(sum),
            rat_wf(sum),
        decreases accs@.len() - k,
    {
        proof {
            assert(av.take(k + 1).drop_last() =~= av.take(k as int));
            assert(av.take(k + 1).last() == av[k as int]);
        }
        match sum.add(accs[k]) {
            Some(s2) => {
                sum = s2;
            },
            None => {
                proof {
                    lemma_rat_sum_none(av, k + 1);
                }
                return Err(VcfError::NumericOverflow);
            },
        }
        k = k + 1;
    }
    proof {
        assert(av.take(av.len() as int) == av);
    }
    let mean = match sum.div_count(accs.len() as u64) {
        Some(v) => v,
        None => {
            return Err(VcfError::NumericOverflow);
        },
    };
    if partitions.len() == 1 {
        return Ok((mean, None));
    }
    let mut dev = Ratio::zero();
    let mut k2: usize = 0;
    while k2 < accs.len()
        invariant
            av == accs@,
            m == record@,
            lv == seq_views(labels@),
            pv == parts_views(partitions@),
            partitions@.len() >= 2,
            cache.wf(),
            accuracies(m, lv, pv, threshold) == Ok::<_, VcfError>(av),
            rat_mean(av) == Some(mean),
            forall|j: int| 0 <= j < accs@.len() ==> rat_wf(#[trigger] accs@[j]),
            k2 <= accs@.len(),
            rat_wf(mean),
            dev_sq_sum(av.take(k2 as int), mean) == Some(dev),
            rat_wf(dev),
        decreases accs@.len() - k2,
    {
        proof {
            assert(av.take(k2 + 1).drop_last() =~= av.take(k2 as int));
            assert(av.take(k2 + 1).last() == av[k2 as int]);
        }
        let step = match accs[k2].sub_abs(mean) {
            Some(d) => match d.mul(d) {
                Some(sq) => dev.add(sq),
                None => None,
            },
            None => None,
        };
        match step {
            Some(s2) => {
                dev = s2;
            },
            None => {
                proof {
                    lemma_dev_sum_none(av, mean, k2 + 1);
                }
                return Err(VcfError::NumericOverflow);
            },
        }
        k2 = k2 + 1;
    }
    proof {
        assert(av.take(av.len() as int) == av);
    }
    match dev.div_count(accs.len() as u64) {
        Some(v) => Ok((mean, Some(v))),
        None => Err(VcfError::NumericOverflow),
    }
}

/// A repeat failure at index `j` fails the whole accuracy list.
proof fn lemma_accuracies_err(
    m: RecordModel,
    labels: Seq<Seq<u8>>,
    parts: Seq<(Seq<u64>, Seq<u64>)>,
    thr: Ratio,
    j: int,
)
    requires
        0 <= j < parts.len(),
        accuracies(m, labels, parts.take(j), thr) is Ok,
        repeat_accuracy(m, labels, parts[j], thr) is Err,
    ensures
        accuracies(m, labels, parts, thr) == Err::<Seq<Ratio>, _>(
            repeat_accuracy(m, labels, parts[j], thr)->Err_0,
        ),
    decreases parts.len(),
{
    assert(parts.take(j + 1).drop_last() =~= parts.take(j));
    assert(parts.take(j + 1).last() == parts[j]);
    lemma_accuracies_err_propagate(m, labels, parts, thr, j + 1);
}

/// An accuracy failure on a prefix propagates to the whole list.
proof fn lemma_accuracies_err_propagate(
    m: RecordModel,
    labels: Seq<Seq<u8>>,
    parts: Seq<(Seq<u64>, Seq<u64>)>,
    thr: Ratio,
    j: int,
)
    requires
        0 <= j <= parts.len(),
        accuracies(m, labels, parts.take(j), thr) is Err,
    ensures
        accuracies(m, labels, parts, thr) == accuracies(m, labels, parts.take(j), thr),
    decreases parts.len() - j,
{
    if j < parts.len() {
        assert(parts.take(j + 1).drop_last() =~= parts.take(j));
        lemma_accuracies_err_propagate(m, labels, parts, thr, j + 1);
    } else {
        assert(parts.take(j) == parts);
    }
}

/// A sum failure on a prefix fails the whole sum.
proof fn lemma_rat_sum_none(s: Seq<Ratio>, j: int)
    requires
        0 <= j <= s.len(),
        rat_sum(s.take(j)) is None,
    ensures
        rat_sum(s) is None,
    decreases s.len() - j,
{
    if j < s.len() {
        assert(s.take(j + 1).drop_last() =~= s.take(j));
        lemma_rat_sum_none(s, j + 1);
    } else {
        assert(s.take(j) == s);
    }
}

/// A deviation-sum failure on a prefix fails the whole sum.
proof fn lemma_dev_sum_none(s: Seq<Ratio>, mean: Ratio, j: int)
    requires
        0 <= j <= s.len(),
        dev_sq_sum(s.take(j), mean) is None,
    ensures
        dev_sq_sum(s, mean) is None,
    decreases s.len() - j,
{
    if j < s.len() {
        assert(s.take(j + 1).drop_last() =~= s.take(j));
        lemma_dev_sum_none(s, mean, j + 1);
    } else {
        assert(s.take(j) == s);
    }
}

/// Scores every record of the data stage against fixed partitions: one
/// row per record with an identifier column, in stream order, each the
/// exact statistic of that record. The result is a function of the
/// stream, the labels, the partitions and the threshold alone.
pub fn compute_capacity_with_partitions(
    stream: DataStage,
    labels: &Vec<Vec<u8>>,
    partitions: &Vec<Partition>,
    threshold: Ratio,
    cache: &mut DosageCache,
) -> (r: Result<Vec<CapacityRow>, VcfError>)
    requires
        stream.wf(),
        rat_wf(threshold),
        old(cache).wf(),
        partitions@.len() >= 1,
        partitions_wf(parts_views(partitions@), labels@.len() as int),
    ensures
        final(cache).wf(),
        r is Ok ==> capacity_from(
            Seq::empty(),
            stream.emitted_from(),
            seq_views(labels@),
            parts_views(partitions@),
            threshold,
        ) == Ok::<_, VcfError>(rows_views(r->Ok_0@)),
        r is Err ==> capacity_from(
            Seq::empty(),
            stream.emitted_from(),
            seq_views(labels@),
            parts_views(partitions@),
            threshold,
        ) == Err::<Seq<(Seq<u8>, Ratio, Option<Ratio>)>, _>(r->Err_0),
        r is Err ==> r->Err_0 == VcfError::TooFewLabels || r->Err_0 == VcfError::NumericOverflow,
{
    let ghost em0 = stream.emitted_from();
    let ghost lv = seq_views(labels@);
    let ghost pv = parts_views(partitions@);
    let mut st = stream;
    let mut out: Vec<CapacityRow> = Vec::new();
    proof {
        assert(rows_views(out@) =~= Seq::<(Seq<u8>, Ratio, Option<Ratio>)>::empty());
    }
    loop
        invariant
            em0 == stream.emitted_from(),
            st.wf(),
            rat_wf(threshold),
            cache.wf(),
            lv == seq_views(labels@),
            pv == parts_views(partitions@),
            partitions@.len() >= 1,
            partitions_wf(pv, labels@.len() as int),
            capacity_from(Seq::empty(), em0, lv, pv, threshold) == capacity_from(
                rows_views(out@),
                st.emitted_from(),
                lv,
                pv,
                threshold,
            ),
        decreases st.lines@.len() - st.pos,
    {
        let ghost em_pre = st.emitted_from();
        let nxt = st.next();
        match nxt {
            None => {
                return Ok(out);
            },
            Some(d) => {
                proof {
                    assert(em_pre == seq![d@] + st.emitted_from());
                    assert(em_pre.first() == d@);
                    assert(em_pre.drop_first() =~= st.emitted_from());
                }
                if d.num_fields() < 3 {
                } else {
                    let ident = d.identifier();
                    match process_polymorphism(&d, labels, partitions, threshold, cache) {
                        Err(e) => {
                            return Err(e);
                        },
                        Ok((mean, variance)) => {
                            let ghost prevr = out@;
                            out.push(CapacityRow { identifier: ident, mean, variance });
                            proof {
                                assert(rows_views(out@) =~= rows_views(prevr).push(
                                    (rec_field(d@, 2), mean, variance),
                                ));
                            }
                        },
                    }
                }
            },
        }
    }
}

/// Runs the whole capacity analysis: unfolds the stream, labels the
/// individuals through the registry, draws one random train/target
/// partition per repeat, and scores every record against those fixed
/// partitions. The structural failures mirror the stream exactly; and
/// whatever the generator produced, some list of one exact draw per
/// repeat — target of size ⌊N·ratio⌋, train and target disjoint and
/// together exactly the N individual indices — accounts for the whole
/// outcome, rows and engine failures alike.
pub fn compute_capacity(
    stream: MetadataStage,
    population: &Population,
    repeats: usize,
    ratio: Ratio,
    threshold: Ratio,
    cache: &mut DosageCache,
) -> (r: Result<Vec<CapacityRow>, VcfError>)
    requires
        stream.pos <= stream.lines@.len(),
        crate::filter::steps_wf(crate::filter::steps_model(stream.filters@)),
        population.wf(),
        repeats >= 1,
        rat_wf(ratio),
        rat_lt(Ratio { num: 0, den: 1 }, ratio),
        rat_lt(ratio, Ratio { num: 1, den: 1 }),
        rat_wf(threshold),
        old(cache).wf(),
    ensures
        final(cache).wf(),
        r is Err ==> (r->Err_0 == VcfError::EmptyStream || r->Err_0 == VcfError::MetadataOnly
            || r->Err_0 == VcfError::NoIndividuals || r->Err_0 == VcfError::TooFewLabels
            || r->Err_0 == VcfError::NumericOverflow),
        r == Err::<Vec<CapacityRow>, VcfError>(VcfError::EmptyStream) <==> stream.pos
            == stream.lines@.len(),
        r == Err::<Vec<CapacityRow>, VcfError>(VcfError::MetadataOnly) <==> (stream.pos
            < stream.lines@.len() && crate::stream::header_pos(
            seq_views(stream.lines@),
            stream.pos as int,
        ) == stream.lines@.len()),
        r == Err::<Vec<CapacityRow>, VcfError>(VcfError::NoIndividuals) <==> {
            let ls = seq_views(stream.lines@);
            let hp = crate::stream::header_pos(ls, stream.pos as int);
            stream.pos < ls.len() && hp < ls.len() && crate::stream::header_individuals(
                ls[hp],
            ).len() == 0
        },
        r is Ok ==> {
            let ls = seq_views(stream.lines@);
            let hp = crate::stream::header_pos(ls, stream.pos as int);
            let inds = crate::stream::filters_individuals(
                crate::filter::steps_model(stream.filters@),
                0,
                crate::stream::header_individuals(ls[hp]),
            ).1;
            stream.pos < ls.len() && hp < ls.len() && crate::stream::header_individuals(
                ls[hp],
            ).len() > 0 && inds.len() < usize::MAX
        },
        ({
            let ls = seq_views(stream.lines@);
            let hp = crate::stream::header_pos(ls, stream.pos as int);
            let hdr = ls[hp];
            let fr = crate::stream::filters_individuals(
                crate::filter::steps_model(stream.filters@),
                0,
                crate::stream::header_individuals(hdr),
            );
            let inds = fr.1;
            let lv = Seq::new(
                inds.len(),
                |j: int| crate::population::label_of(population.model(), inds[j]),
            );
            let recs = crate::stream::emitted(
                ls,
                hp + 1,
                crate::stream::header_has_format(hdr),
                fr.0,
            );
            stream.pos < ls.len() && hp < ls.len() && crate::stream::header_individuals(
                hdr,
            ).len() > 0 && inds.len() < usize::MAX
                ==> exists|pv: Seq<(Seq<u64>, Seq<u64>)>|
                    #[trigger] draws_exact(
                        pv,
                        repeats as int,
                        inds.len() as int,
                        target_size(inds.len() as int, ratio),
                    ) && (match r {
                        Ok(rows) => capacity_from(Seq::empty(), recs, lv, pv, threshold)
                            == Ok::<Seq<(Seq<u8>, Ratio, Option<Ratio>)>, VcfError>(
                            rows_views(rows@),
                        ),
                        Err(e) => capacity_from(Seq::empty(), recs, lv, pv, threshold)
                            == Err::<Seq<(Seq<u8>, Ratio, Option<Ratio>)>, VcfError>(e),
                    })
        }),
    {
        proof {
            crate::stream::lemma_header_pos_bounds(seq_views(stream.lines@), stream.pos as int);
        }
        let unfolded = match stream.unfold() {
            Ok(u) => u,
            Err(e) => {
                return Err(e);
            },
        };
        let labels = population.labels(&unfolded.individuals);
        let n = unfolded.individuals.len();
        proof {
            assert(labels@.len() == n);
        }
        if n >= usize::MAX {
            return Err(VcfError::NumericOverflow);
        }
        proof {
            assert((n as int) * (ratio.num as int) <= 0xffff_ffff_ffff_ffff
                * 0xffff_ffff_ffff_ffff) by (nonlinear_arith)
                requires
                    n as int <= 0xffff_ffff_ffff_ffff,
                    ratio.num <= 0xffff_ffff_ffff_ffff,
            ;
            let nn = n as int;
            let num = ratio.num as int;
            let den = ratio.den as int;
            assert(num < den);
            assert(nn * num <= nn * den) by (nonlinear_arith)
                requires
                    0 <= nn,
                    num <= den,
            ;
            vstd::arithmetic::div_mod::lemma_div_is_ordered(nn * num, nn * den, den);
            vstd::arithmetic::div_mod::lemma_div_multiples_vanish(nn, den);
            assert(den * nn == nn * den) by (nonlinear_arith);
            assert((nn * num) / den <= nn);
        }
        let split_index_raw = (((n as u128) * (ratio.num as u128)) / (ratio.den as u128));
        let split_index: usize = if split_index_raw >= n as u128 {
            n
        } else {
            split_index_raw as usize
        };
        proof {
            assert(split_index as int == target_size(n as int, ratio));
        }
        let mut partitions: Vec<Partition> = Vec::new();
        let mut rix: usize = 0;
        while rix < repeats
            invariant
                n < usize::MAX,
                split_index <= n,
                rat_wf(ratio),
                split_index as int == target_size(n as int, ratio),
                rix <= repeats,
                partitions@.len() == rix,
                partitions_wf(parts_views(partitions@), n as int),
                forall|i: int| 0 <= i < rix ==> partition_exact(
                    #[trigger] parts_views(partitions@)[i],
                    n as int,
                    split_index as int,
                ),
            decreases repeats - rix,
        {
            let mut ids: Vec<u64> = Vec::new();
            let mut v: usize = 0;
            while v < n
                invariant
                    n < usize::MAX,
                    v <= n,
                    ids@.len() == v,
                    forall|q: int| 0 <= q < v ==> #[trigger] ids@[q] == q,
                decreases n - v,
            {
                ids.push(v as u64);
                v = v + 1;
            }
            let ghost ids0 = ids@;
            proof {
                assert(ids0 =~= index_identity(n as int));
            }
            let (train, target) = split(ids, split_index);
            proof {
                lemma_multiset_bound(train@, target@, ids0, n as u64);
                assert(partition_wf((train@, target@), n as int));
                assert(partition_exact((train@, target@), n as int, split_index as int));
            }
            let ghost prevp = partitions@;
            partitions.push(Partition { train, target });
            proof {
                assert(parts_views(partitions@) =~= parts_views(prevp).push(
                    (partitions@.last().train@, partitions@.last().target@),
                ));
            }
            rix = rix + 1;
        }
        let r = compute_capacity_with_partitions(
            unfolded.stream,
            &labels,
            &partitions,
            threshold,
            cache,
        );
        proof {
            let ghost lv2 = seq_views(labels@);
            let ghost iv2 = seq_views(unfolded.individuals@);
            assert(lv2 =~= Seq::new(
                iv2.len(),
                |j: int| crate::population::label_of(population.model(), iv2[j]),
            ));
            assert(draws_exact(
                parts_views(partitions@),
                repeats as int,
                iv2.len() as int,
                target_size(iv2.len() as int, ratio),
            ));
        }
        r
    }

} // verus!
