//! The prediction engine: single-partition, whole-genome evidence
//! accumulation. Every variant's classifier votes for each held-out
//! individual; after the stream is exhausted, an individual is called for
//! its best-supported label when the margin over the runner-up reaches
//! the decision threshold (relative to the best total when the threshold
//! lies strictly between zero and one), and is otherwise left uncalled.

use vstd::prelude::*;
use crate::VcfError;
use crate::bytes::{bytes_eq, clone_bytes, seq_views};
use crate::ratio::{Ratio, rat_wf, rat_lt, rat_le};
use crate::record::{VCFData, RecordModel, rec_wf, rec_field};
use crate::stream::{DataStage, MetadataStage};
use crate::dosage::{DosageCache, process_variant};
use crate::capacity::{Partition, partition_wf, partition_exact, index_identity, target_size,
    safe_dosage, part_count, train_pairs, lemma_freqs_len};
use crate::population::{Population, label_of};
use crate::utils::{split, lemma_multiset_bound};
use crate::classifier::{PredictorJoaoFactory, frequencies_spec, predict_spec, train_labels,
    tp_views, tp_wf, freqs_wf};

verus! {

/// Index of the first vote row for label `l`; -1 when absent.
pub open spec fn vote_find(s: Seq<(Seq<u8>, u64)>, l: Seq<u8>) -> int
    decreases s.len(),
{
    if s.len() == 0 {
        -1
    } else if s[0].0 == l {
        0
    } else {
        let r = vote_find(s.drop_first(), l);
        if r < 0 {
            -1
        } else {
            r + 1
        }
    }
}

pub proof fn lemma_vote_find(s: Seq<(Seq<u8>, u64)>, l: Seq<u8>)
    ensures
        -1 <= vote_find(s, l) < s.len(),
        vote_find(s, l) >= 0 ==> s[vote_find(s, l)].0 == l,
        forall|i: int| 0 <= i < vote_find(s, l) ==> (#[trigger] s[i]).0 != l,
        vote_find(s, l) == -1 ==> forall|i: int| 0 <= i < s.len() ==> (#[trigger] s[i]).0 != l,
    decreases s.len(),
{
    if s.len() > 0 && s[0].0 != l {
        lemma_vote_find(s.drop_first(), l);
        let d = s.drop_first();
        let f1 = vote_find(d, l);
        if f1 >= 0 {
            assert(d[f1] == s[f1 + 1]);
        }
        assert forall|i: int| 0 <= i < vote_find(s, l) implies (#[trigger] s[i]).0 != l by {
            if i >= 1 {
                assert(d[i - 1] == s[i]);
            }
        }
        if vote_find(s, l) == -1 {
            assert forall|i: int| 0 <= i < s.len() implies (#[trigger] s[i]).0 != l by {
                if i >= 1 {
                    assert(d[i - 1] == s[i]);
                }
            }
        }
    }
}

/// One more vote for label `l`: the existing row's saturating count is
/// bumped, or a new row is appended.
pub open spec fn bump(s: Seq<(Seq<u8>, u64)>, l: Seq<u8>) -> Seq<(Seq<u8>, u64)> {
    let f = vote_find(s, l);
    if f >= 0 {
        s.update(
            f,
            (
                l,
                if s[f].1 < u64::MAX {
                    (s[f].1 + 1) as u64
                } else {
                    s[f].1
                },
            ),
        )
    } else {
        s.push((l, 1u64))
    }
}

/// The votes one target individual accumulates over the remaining
/// records, continuing from the counts already accumulated: each record
/// trains a classifier on the partition's train indices and, when the
/// individual has a genotype column, votes for the predicted label.
pub open spec fn votes_from(
    counts: Seq<(Seq<u8>, u64)>,
    recs: Seq<RecordModel>,
    labels: Seq<Seq<u8>>,
    train: Seq<u64>,
    thr: Ratio,
    ix: int,
) -> Result<Seq<(Seq<u8>, u64)>, VcfError>
    decreases recs.len(),
{
    if recs.len() == 0 {
        Ok(counts)
    } else {
        let m = recs.first();
        let tp = train_pairs(m, labels, train);
        if train_labels(tp).len() < 2 {
            Err(VcfError::TooFewLabels)
        } else {
            match frequencies_spec(tp) {
                None => Err(VcfError::NumericOverflow),
                Some(freqs) => {
                    if ix < part_count(m, labels.len() as int) {
                        match predict_spec(freqs, thr, safe_dosage(rec_field(m, 9 + ix))) {
                            None => Err(VcfError::NumericOverflow),
                            Some(d) => votes_from(
                                match d {
                                    Some(l) => bump(counts, l),
                                    None => counts,
                                },
                                recs.drop_first(),
                                labels,
                                train,
                                thr,
                                ix,
                            ),
                        }
                    } else {
                        votes_from(counts, recs.drop_first(), labels, train, thr, ix)
                    }
                },
            }
        }
    }
}

/// The best row index, best total and second-best total, scanning from
/// `i` with the given running state. Ties keep the earlier row.
pub open spec fn best2(s: Seq<(Seq<u8>, u64)>, i: int, bi: int, best: u64, second: u64) -> (
    int,
    u64,
    u64,
)
    decreases s.len() - i,
{
    if i < 0 || i >= s.len() {
        (bi, best, second)
    } else if s[i].1 > best {
        best2(s, i + 1, i, s[i].1, best)
    } else if s[i].1 > second {
        best2(s, i + 1, bi, best, s[i].1)
    } else {
        best2(s, i + 1, bi, best, second)
    }
}

/// The final call for one individual's accumulated votes: the
/// best-supported label, when its margin over the runner-up reaches
/// `min_dist` — measured relative to the best total when `min_dist` lies
/// strictly between zero and one — and no call otherwise (in particular,
/// when no vote at all was accumulated).
pub open spec fn call_of(counts: Seq<(Seq<u8>, u64)>, min_dist: Ratio) -> Option<Seq<u8>> {
    if counts.len() == 0 {
        None
    } else {
        let t = best2(counts, 1, 0, counts[0].1, 0);
        let diff: u64 = if t.1 >= t.2 {
            (t.1 - t.2) as u64
        } else {
            0
        };
        let relative = rat_lt(Ratio { num: 0, den: 1 }, min_dist) && rat_lt(
            min_dist,
            Ratio { num: 1, den: 1 },
        );
        let den: u64 = if relative && t.1 >= 1 {
            t.1
        } else {
            1
        };
        if rat_le(min_dist, Ratio { num: diff, den }) {
            Some(counts[t.0].0)
        } else {
            None
        }
    }
}

/// The report rows for the targets from position `j` on: one row per
/// held-out individual, in partition order, holding its identifier, its
/// true label, and its call.
pub open spec fn prediction_rows_from(
    recs: Seq<RecordModel>,
    individuals: Seq<Seq<u8>>,
    labels: Seq<Seq<u8>>,
    part: (Seq<u64>, Seq<u64>),
    thr: Ratio,
    min_dist: Ratio,
    j: int,
) -> Result<Seq<(Seq<u8>, Seq<u8>, Option<Seq<u8>>)>, VcfError>
    decreases part.1.len() - j,
{
    if j < 0 || j >= part.1.len() {
        Ok(Seq::empty())
    } else {
        let ix = part.1[j] as int;
        match votes_from(Seq::empty(), recs, labels, part.0, thr, ix) {
            Err(e) => Err(e),
            Ok(counts) => match prediction_rows_from(
                recs,
                individuals,
                labels,
                part,
                thr,
                min_dist,
                j + 1,
            ) {
                Err(e) => Err(e),
                Ok(rest) => Ok(
                    seq![(individuals[ix], labels[ix], call_of(counts, min_dist))] + rest,
                ),
            },
        }
    }
}

/// An erring target errs the whole report.
proof fn lemma_rows_err(
    recs: Seq<RecordModel>,
    individuals: Seq<Seq<u8>>,
    labels: Seq<Seq<u8>>,
    part: (Seq<u64>, Seq<u64>),
    thr: Ratio,
    min_dist: Ratio,
    j: int,
    j0: int,
)
    requires
        0 <= j <= j0 < part.1.len(),
        votes_from(Seq::empty(), recs, labels, part.0, thr, part.1[j0] as int) is Err,
    ensures
        prediction_rows_from(recs, individuals, labels, part, thr, min_dist, j) is Err,
    decreases j0 - j,
{
    if j < j0 {
        lemma_rows_err(recs, individuals, labels, part, thr, min_dist, j + 1, j0);
    }
}

/// When every target's votes resolve, so does the whole report.
proof fn lemma_rows_ok(
    recs: Seq<RecordModel>,
    individuals: Seq<Seq<u8>>,
    labels: Seq<Seq<u8>>,
    part: (Seq<u64>, Seq<u64>),
    thr: Ratio,
    min_dist: Ratio,
    j: int,
)
    requires
        0 <= j <= part.1.len(),
        forall|k: int| j <= k < part.1.len() ==> votes_from(
            Seq::empty(),
            recs,
            labels,
            part.0,
            thr,
            #[trigger] part.1[k] as int,
        ) is Ok,
    ensures
        prediction_rows_from(recs, individuals, labels, part, thr, min_dist, j) is Ok,
    decreases part.1.len() - j,
{
    if j < part.1.len() {
        lemma_rows_ok(recs, individuals, labels, part, thr, min_dist, j + 1);
    }
}

/// One row of the prediction report.
#[derive(Debug)]
pub struct PredictionRow {
    pub individual: Vec<u8>,
    pub true_label: Vec<u8>,
    pub call: Option<Vec<u8>>,
}

/// Views of a report.
pub open spec fn prow_views(s: Seq<PredictionRow>) -> Seq<(Seq<u8>, Seq<u8>, Option<Seq<u8>>)> {
    s.map_values(
        |r: PredictionRow| (
            r.individual@,
            r.true_label@,
            match r.call {
                Some(v) => Some(v@),
                None => None,
            },
        ),
    )
}

/// Views of one vote table.
pub open spec fn vote_views(s: Seq<(Vec<u8>, u64)>) -> Seq<(Seq<u8>, u64)> {
    s.map_values(|p: (Vec<u8>, u64)| (p.0@, p.1))
}

/// Adds one vote to a table, executably.
fn bump_exec(counts: &mut Vec<(Vec<u8>, u64)>, l: Vec<u8>) -> (nothing: ())
    ensures
        vote_views(final(counts)@) == bump(vote_views(old(counts)@), l@),
{
    let ghost cv = vote_views(counts@);
    proof {
        lemma_vote_find(cv, l@);
    }
    let n = counts.len();
    let mut i: usize = 0;
    while i < n
        invariant
            counts == old(counts),
            cv == vote_views(counts@),
            n == counts@.len(),
            i <= n,
            forall|q: int| 0 <= q < i ==> (#[trigger] cv[q]).0 != l@,
        decreases n - i,
    {
        if bytes_eq(&counts[i].0, &l) {
            proof {
                lemma_vote_find(cv, l@);
                assert(cv[i as int].0 == l@);
                if vote_find(cv, l@) < i {
                    assert(cv[vote_find(cv, l@)].0 != l@);
                }
                if vote_find(cv, l@) > i {
                    assert(cv[i as int].0 != l@);
                }
            }
            let c = counts[i].1;
            let c2: u64 = if c < u64::MAX {
                c + 1
            } else {
                c
            };
            let _old_row = counts.remove(i);
            counts.insert(i, (l, c2));
            proof {
                assert(vote_views(counts@) =~= bump(cv, l@));
            }
            return ;
        }
        i = i + 1;
    }
    proof {
        lemma_vote_find(cv, l@);
        if vote_find(cv, l@) >= 0 {
            assert(cv[vote_find(cv, l@)].0 != l@);
        }
    }
    counts.push((l, 1));
    proof {
        assert(vote_views(counts@) =~= bump(cv, l@));
    }
}

/// Runs the whole prediction analysis against one fixed partition: the
/// report is a function of the stream, the individuals, the labels, the
/// partition and the two thresholds alone, so two runs on the same
/// arguments yield the same calls.
pub fn predict_with_partition(
    stream: DataStage,
    individuals: &Vec<Vec<u8>>,
    labels: &Vec<Vec<u8>>,
    partition: &Partition,
    threshold: Ratio,
    min_dist: Ratio,
    cache: &mut DosageCache,
) -> (r: Result<Vec<PredictionRow>, VcfError>)
    requires
        stream.wf(),
        rat_wf(threshold),
        rat_wf(min_dist),
        old(cache).wf(),
        individuals@.len() == labels@.len(),
        partition_wf((partition.train@, partition.target@), labels@.len() as int),
    ensures
        final(cache).wf(),
        r is Ok <==> prediction_rows_from(
            stream.emitted_from(),
            seq_views(individuals@),
            seq_views(labels@),
            (partition.train@, partition.target@),
            threshold,
            min_dist,
            0,
        ) is Ok,
        r is Ok ==> prow_views(r->Ok_0@) == prediction_rows_from(
            stream.emitted_from(),
            seq_views(individuals@),
            seq_views(labels@),
            (partition.train@, partition.target@),
            threshold,
            min_dist,
            0,
        )->Ok_0,
        r is Err ==> (r->Err_0 == VcfError::TooFewLabels || r->Err_0
            == VcfError::NumericOverflow),
{
    let ghost em0 = stream.emitted_from();
    let ghost iv = seq_views(individuals@);
    let ghost lv = seq_views(labels@);
    let ghost pw = (partition.train@, partition.target@);
    let nt = partition.target.len();
    if nt == 0 {
        let out: Vec<PredictionRow> = Vec::new();
        proof {
            assert(prow_views(out@) =~= Seq::<(Seq<u8>, Seq<u8>, Option<Seq<u8>>)>::empty());
        }
        return Ok(out);
    }
    let mut counts: Vec<Vec<(Vec<u8>, u64)>> = Vec::new();
    let mut ci: usize = 0;
    while ci < nt
        invariant
            ci <= nt,
            counts@.len() == ci,
            forall|q: int| 0 <= q < ci ==> vote_views((#[trigger] counts@[q])@)
                == Seq::<(Seq<u8>, u64)>::empty(),
        decreases nt - ci,
    {
        let fresh: Vec<(Vec<u8>, u64)> = Vec::new();
        proof {
            assert(vote_views(fresh@) =~= Seq::<(Seq<u8>, u64)>::empty());
        }
        counts.push(fresh);
        ci = ci + 1;
    }
    let mut st = stream;
    loop
        invariant
            em0 == stream.emitted_from(),
            iv == seq_views(individuals@),
            lv == seq_views(labels@),
            pw == (partition.train@, partition.target@),
            individuals@.len() == labels@.len(),
            partition_wf(pw, labels@.len() as int),
            nt == partition.target@.len(),
            nt >= 1,
            st.wf(),
            rat_wf(threshold),
            rat_wf(min_dist),
            cache.wf(),
            counts@.len() == nt,
            forall|q: int| 0 <= q < nt ==> votes_from(
                Seq::empty(),
                em0,
                lv,
                pw.0,
                threshold,
                pw.1[q] as int,
            ) == votes_from(
                vote_views((#[trigger] counts@[q])@),
                st.emitted_from(),
                lv,
                pw.0,
                threshold,
                pw.1[q] as int,
            ),
        ensures
            cache.wf(),
            counts@.len() == nt,
            rat_wf(min_dist),
            iv == seq_views(individuals@),
            lv == seq_views(labels@),
            pw == (partition.train@, partition.target@),
            individuals@.len() == labels@.len(),
            partition_wf(pw, labels@.len() as int),
            nt == partition.target@.len(),
            forall|q: int| 0 <= q < nt ==> votes_from(
                Seq::empty(),
                em0,
                lv,
                pw.0,
                threshold,
                pw.1[q] as int,
            ) == Ok::<Seq<(Seq<u8>, u64)>, VcfError>(vote_views((#[trigger] counts@[q])@)),
        decreases st.lines@.len() - st.pos,
    {
        let ghost em_pre = st.emitted_from();
        let nxt = st.next();
        let d = match nxt {
            None => {
                proof {
                    assert forall|q: int| 0 <= q < nt implies votes_from(
                        Seq::empty(),
                        em0,
                        lv,
                        pw.0,
                        threshold,
                        pw.1[q] as int,
                    ) == Ok::<Seq<(Seq<u8>, u64)>, VcfError>(
                        vote_views((#[trigger] counts@[q])@),
                    ) by {
                        assert(em_pre == Seq::<RecordModel>::empty());
                        assert(votes_from(
                            vote_views(counts@[q]@),
                            em_pre,
                            lv,
                            pw.0,
                            threshold,
                            pw.1[q] as int,
                        ) == Ok::<Seq<(Seq<u8>, u64)>, VcfError>(vote_views(counts@[q]@)));
                    }
                }
                break ;
            },
            Some(d) => d,
        };
        proof {
            assert(em_pre == seq![d@] + st.emitted_from());
            assert(em_pre.first() == d@);
            assert(em_pre.drop_first() =~= st.emitted_from());
        }
        let ghost m = d@;
        let nf = d.num_fields();
        let cols: usize = if nf >= 9 {
            nf - 9
        } else {
            0
        };
        let pm: usize = if labels.len() <= cols {
            labels.len()
        } else {
            cols
        };
        proof {
            assert(pm as int == part_count(m, lv.len() as int));
        }
        let mut pairs: Vec<(Ratio, Vec<u8>)> = Vec::new();
        let mut k: usize = 0;
        while k < partition.train.len()
            invariant
                rec_wf(m),
                m == d@,
                lv == seq_views(labels@),
                pw == (partition.train@, partition.target@),
                cache.wf(),
                pm as int == part_count(m, lv.len() as int),
                pm <= labels@.len(),
                partition_wf(pw, labels@.len() as int),
                k <= partition.train@.len(),
                tp_views(pairs@) == train_pairs(m, lv, partition.train@.take(k as int)),
                pairs@.len() <= k,
                forall|j: int| 0 <= j < pairs@.len() ==> rat_wf((#[trigger] pairs@[j]).0),
            decreases partition.train@.len() - k,
        {
            let ghost prevp = pairs@;
            proof {
                assert(partition.train@.take(k + 1).drop_last() =~= partition.train@.take(
                    k as int,
                ));
                assert(partition.train@.take(k + 1).last() == partition.train@[k as int]);
            }
            let ix = partition.train[k];
            if ix < pm as u64 {
                let ixu = ix as usize;
                let g = d.genotype(ixu);
                let dd: Ratio;
                if g.len() < usize::MAX {
                    dd = process_variant(cache, &g);
                } else {
                    dd = Ratio::new(0, 1);
                }
                proof {
                    assert(dd == safe_dosage(rec_field(m, 9 + ix as int)));
                }
                pairs.push((dd, clone_bytes(&labels[ixu])));
                proof {
                    assert(tp_views(pairs@) =~= tp_views(prevp).push(
                        (safe_dosage(rec_field(m, 9 + ix as int)), lv[ix as int]),
                    ));
                }
            }
            k = k + 1;
        }
        proof {
            assert(partition.train@.take(partition.train@.len() as int) == partition.train@);
            assert(tp_wf(tp_views(pairs@))) by {
                assert(forall|j: int| 0 <= j < pairs@.len()
                    ==> rat_wf((#[trigger] tp_views(pairs@)[j]).0));
            }
        }
        let ghost tp = tp_views(pairs@);
        let mut n_labels: usize = 0;
        let mut seen: Vec<Vec<u8>> = Vec::new();
        let mut q: usize = 0;
        while q < pairs.len()
            invariant
                tp == tp_views(pairs@),
                q <= pairs@.len(),
                seq_views(seen@) == train_labels(tp.take(q as int)),
                n_labels == seen@.len(),
                n_labels <= q,
            decreases pairs@.len() - q,
        {
            let ghost prevs = seen@;
            proof {
                assert(tp.take(q + 1).drop_last() =~= tp.take(q as int));
                assert(tp.take(q + 1).last() == tp[q as int]);
            }
            if !crate::bytes::bytes_contains(&seen, &pairs[q].1) {
                seen.push(clone_bytes(&pairs[q].1));
                n_labels = n_labels + 1;
                proof {
                    assert(seq_views(seen@) =~= seq_views(prevs).push(tp[q as int].1));
                }
            }
            q = q + 1;
        }
        proof {
            assert(tp.take(tp.len() as int) == tp);
        }
        if n_labels < 2 {
            proof {
                assert(votes_from(
                    vote_views(counts@[0]@),
                    em_pre,
                    lv,
                    pw.0,
                    threshold,
                    pw.1[0] as int,
                ) is Err);
                lemma_rows_err(em0, iv, lv, pw, threshold, min_dist, 0, 0);
            }
            return Err(VcfError::TooFewLabels);
        }
        let factory = PredictorJoaoFactory { threshold };
        let predictor = match factory.build(&pairs) {
            Ok(p) => p,
            Err(e) => {
                proof {
                    assert(votes_from(
                        vote_views(counts@[0]@),
                        em_pre,
                        lv,
                        pw.0,
                        threshold,
                        pw.1[0] as int,
                    ) is Err);
                    lemma_rows_err(em0, iv, lv, pw, threshold, min_dist, 0, 0);
                }
                return Err(e);
            },
        };
        proof {
            lemma_freqs_len(tp, train_labels(tp), 0);
            assert(predictor.frequencies@.len() >= 2);
        }
        let mut j: usize = 0;
        while j < nt
            invariant
                rec_wf(m),
                m == d@,
                em0 == stream.emitted_from(),
                iv == seq_views(individuals@),
                lv == seq_views(labels@),
                pw == (partition.train@, partition.target@),
                individuals@.len() == labels@.len(),
                partition_wf(pw, labels@.len() as int),
                nt == partition.target@.len(),
                nt >= 1,
                rat_wf(threshold),
                rat_wf(min_dist),
                cache.wf(),
                counts@.len() == nt,
                j <= nt,
                pm as int == part_count(m, lv.len() as int),
                pm <= labels@.len(),
                tp == train_pairs(m, lv, pw.0),
                train_labels(tp).len() >= 2,
                frequencies_spec(tp) == Some(predictor.freqs()),
                predictor.frequencies@.len() >= 2,
                freqs_wf(predictor.freqs()),
                predictor.threshold == threshold,
                em_pre == seq![m] + st.emitted_from(),
                forall|q2: int| j <= q2 < nt ==> votes_from(
                    Seq::empty(),
                    em0,
                    lv,
                    pw.0,
                    threshold,
                    pw.1[q2] as int,
                ) == votes_from(
                    vote_views((#[trigger] counts@[q2])@),
                    em_pre,
                    lv,
                    pw.0,
                    threshold,
                    pw.1[q2] as int,
                ),
                forall|q2: int| 0 <= q2 < j ==> votes_from(
                    Seq::empty(),
                    em0,
                    lv,
                    pw.0,
                    threshold,
                    pw.1[q2] as int,
                ) == votes_from(
                    vote_views((#[trigger] counts@[q2])@),
                    st.emitted_from(),
                    lv,
                    pw.0,
                    threshold,
                    pw.1[q2] as int,
                ),
            decreases nt - j,
        {
            let ix = partition.target[j];
            let ghost cj = vote_views(counts@[j as int]@);
            proof {
                assert(em_pre.first() == m);
                assert(em_pre.drop_first() =~= st.emitted_from());
            }
            if ix < pm as u64 {
                let ixu = ix as usize;
                let g = d.genotype(ixu);
                let dd: Ratio;
                if g.len() < usize::MAX {
                    dd = process_variant(cache, &g);
                } else {
                    dd = Ratio::new(0, 1);
                }
                proof {
                    assert(dd == safe_dosage(rec_field(m, 9 + ix as int)));
                }
                match predictor.predict(dd) {
                    Err(e) => {
                        proof {
                            assert(votes_from(
                                cj,
                                em_pre,
                                lv,
                                pw.0,
                                threshold,
                                pw.1[j as int] as int,
                            ) is Err);
                            lemma_rows_err(
                                em0,
                                iv,
                                lv,
                                pw,
                                threshold,
                                min_dist,
                                0,
                                j as int,
                            );
                        }
                        return Err(e);
                    },
                    Ok(Some(l)) => {
                        let ghost csnap = counts@;
                        let mut cvec = counts.remove(j);
                        bump_exec(&mut cvec, l);
                        counts.insert(j, cvec);
                        proof {
                            assert(counts@ =~= csnap.update(j as int, counts@[j as int]));
                            assert(vote_views(counts@[j as int]@) == bump(cj, l@));
                            assert(votes_from(cj, em_pre, lv, pw.0, threshold, pw.1[j as int]
                                as int) == votes_from(
                                bump(cj, l@),
                                st.emitted_from(),
                                lv,
                                pw.0,
                                threshold,
                                pw.1[j as int] as int,
                            ));
                        }
                    },
                    Ok(None) => {
                        proof {
                            assert(votes_from(cj, em_pre, lv, pw.0, threshold, pw.1[j as int]
                                as int) == votes_from(
                                cj,
                                st.emitted_from(),
                                lv,
                                pw.0,
                                threshold,
                                pw.1[j as int] as int,
                            ));
                        }
                    },
                }
            } else {
                proof {
                    assert(!((pw.1[j as int] as int) < part_count(m, lv.len() as int)));
                    assert(votes_from(cj, em_pre, lv, pw.0, threshold, pw.1[j as int] as int)
                        == votes_from(
                        cj,
                        st.emitted_from(),
                        lv,
                        pw.0,
                        threshold,
                        pw.1[j as int] as int,
                    ));
                }
            }
            j = j + 1;
        }
    }
    proof {
        assert forall|k: int| 0 <= k < pw.1.len() implies votes_from(
            Seq::empty(),
            em0,
            lv,
            pw.0,
            threshold,
            #[trigger] pw.1[k] as int,
        ) is Ok by {
            assert(votes_from(Seq::empty(), em0, lv, pw.0, threshold, pw.1[k] as int)
                == Ok::<Seq<(Seq<u8>, u64)>, VcfError>(vote_views(counts@[k]@)));
        }
        lemma_rows_ok(em0, iv, lv, pw, threshold, min_dist, 0);
    }
    let mut out: Vec<PredictionRow> = Vec::new();
    let mut j2: usize = 0;
    while j2 < nt
        invariant
            em0 == stream.emitted_from(),
            iv == seq_views(individuals@),
            lv == seq_views(labels@),
            pw == (partition.train@, partition.target@),
            individuals@.len() == labels@.len(),
            partition_wf(pw, labels@.len() as int),
            nt == partition.target@.len(),
            rat_wf(min_dist),
            counts@.len() == nt,
            j2 <= nt,
            forall|q: int| 0 <= q < nt ==> votes_from(
                Seq::empty(),
                em0,
                lv,
                pw.0,
                threshold,
                pw.1[q] as int,
            ) == Ok::<_, VcfError>(vote_views((#[trigger] counts@[q])@)),
            prediction_rows_from(em0, iv, lv, pw, threshold, min_dist, j2 as int) is Ok,
            prediction_rows_from(em0, iv, lv, pw, threshold, min_dist, 0) is Ok,
            prediction_rows_from(em0, iv, lv, pw, threshold, min_dist, 0)->Ok_0 == prow_views(
                out@,
            ) + prediction_rows_from(em0, iv, lv, pw, threshold, min_dist, j2 as int)->Ok_0,
        decreases nt - j2,
    {
        let ghost cj = vote_views(counts@[j2 as int]@);
        let ix = partition.target[j2];
        let _nl = labels.len();
        proof {
            assert(pw.1[j2 as int] < labels@.len());
            assert(labels@.len() <= usize::MAX);
            assert(ix as int == ix as usize as int);
        }
        let ixu = ix as usize;
        let cvec = &counts[j2];
        let call: Option<Vec<u8>>;
        let ghost spec_call = call_of(cj, min_dist);
        if cvec.len() == 0 {
            call = None;
            proof {
                assert(spec_call is None);
            }
        } else {
            let mut bi: usize = 0;
            let mut best: u64 = cvec[0].1;
            let mut second: u64 = 0;
            let mut t: usize = 1;
            while t < cvec.len()
                invariant
                    cj == vote_views(cvec@),
                    cvec@.len() >= 1,
                    1 <= t <= cvec@.len(),
                    bi < cvec@.len(),
                    second <= best,
                    best2(cj, t as int, bi as int, best, second) == best2(
                        cj,
                        1,
                        0,
                        cj[0].1,
                        0,
                    ),
                decreases cvec@.len() - t,
            {
                let c = cvec[t].1;
                if c > best {
                    second = best;
                    best = c;
                    bi = t;
                } else if c > second {
                    second = c;
                }
                t = t + 1;
            }
            let diff: u64 = best - second;
            let relative = Ratio::new(0, 1).lt(min_dist) && min_dist.lt(Ratio::new(1, 1));
            let den: u64 = if relative && best >= 1 {
                best
            } else {
                1
            };
            proof {
                let t = best2(cj, 1, 0, cj[0].1, 0);
                assert(t == best2(cj, cvec@.len() as int, bi as int, best, second));
                assert(t.0 == bi as int && t.1 == best && t.2 == second);
            }
            if min_dist.le(Ratio::new(diff, den)) {
                call = Some(clone_bytes(&cvec[bi].0));
                proof {
                    assert(spec_call == Some(cj[bi as int].0));
                }
            } else {
                call = None;
                proof {
                    assert(spec_call is None);
                }
            }
        }
        proof {
            assert((match call {
                Some(v) => Some(v@),
                None => None::<Seq<u8>>,
            }) == spec_call);
        }
        let ghost prevo = out@;
        out.push(
            PredictionRow {
                individual: clone_bytes(&individuals[ixu]),
                true_label: clone_bytes(&labels[ixu]),
                call,
            },
        );
        proof {
            assert(prow_views(out@) =~~= prow_views(prevo).push(
                (iv[ix as int], lv[ix as int], call_of(cj, min_dist)),
            ));
            assert(prediction_rows_from(em0, iv, lv, pw, threshold, min_dist, j2 as int)->Ok_0
                =~~= seq![(iv[ix as int], lv[ix as int], call_of(cj, min_dist))]
                + prediction_rows_from(em0, iv, lv, pw, threshold, min_dist, j2 + 1)->Ok_0);
            assert(prediction_rows_from(em0, iv, lv, pw, threshold, min_dist, 0)->Ok_0
                =~~= prow_views(out@) + prediction_rows_from(
                em0,
                iv,
                lv,
                pw,
                threshold,
                min_dist,
                j2 + 1,
            )->Ok_0);
        }
        j2 = j2 + 1;
    }
    proof {
        assert(prediction_rows_from(em0, iv, lv, pw, threshold, min_dist, nt as int)
            == Ok::<Seq<(Seq<u8>, Seq<u8>, Option<Seq<u8>>)>, VcfError>(Seq::empty()));
        assert(prediction_rows_from(em0, iv, lv, pw, threshold, min_dist, 0)->Ok_0 =~~= prow_views(
            out@,
        ));
    }
    Ok(out)
}

/// Runs the whole prediction analysis: unfolds the stream, labels the
/// individuals through the registry, draws one random train/target
/// partition, and accumulates every variant's evidence against it. The
/// structural failures mirror the stream exactly; and whatever the
/// generator produced, some exact draw — target of size ⌊N·ratio⌋, train
/// and target disjoint and together exactly the N individual indices —
/// accounts for the outcome: the report for a success, a failing report
/// for a failure.
pub fn predict(
    stream: MetadataStage,
    population: &Population,
    ratio: Ratio,
    threshold: Ratio,
    min_dist: Ratio,
    cache: &mut DosageCache,
) -> (r: Result<Vec<PredictionRow>, VcfError>)
    requires
        stream.pos <= stream.lines@.len(),
        crate::filter::steps_wf(crate::filter::steps_model(stream.filters@)),
        population.wf(),
        rat_wf(ratio),
        crate::ratio::rat_lt(Ratio { num: 0, den: 1 }, ratio),
        crate::ratio::rat_lt(ratio, Ratio { num: 1, den: 1 }),
        rat_wf(threshold),
        rat_wf(min_dist),
        old(cache).wf(),
    ensures
        final(cache).wf(),
        r is Err ==> (r->Err_0 == VcfError::EmptyStream || r->Err_0 == VcfError::MetadataOnly
            || r->Err_0 == VcfError::NoIndividuals || r->Err_0 == VcfError::TooFewLabels
            || r->Err_0 == VcfError::NumericOverflow),
        r == Err::<Vec<PredictionRow>, VcfError>(VcfError::EmptyStream) <==> stream.pos
            == stream.lines@.len(),
        r == Err::<Vec<PredictionRow>, VcfError>(VcfError::MetadataOnly) <==> (stream.pos
            < stream.lines@.len() && crate::stream::header_pos(
            seq_views(stream.lines@),
            stream.pos as int,
        ) == stream.lines@.len()),
        r == Err::<Vec<PredictionRow>, VcfError>(VcfError::NoIndividuals) <==> {
            let ls = seq_views(stream.lines@);
            let hp = crate::stream::header_pos(ls, stream.pos as int);
            stream.pos < ls.len() && hp < ls.len() && crate::stream::header_individuals(
                ls[hp],
            ).len() == 0
        },
        r is Ok ==> {
            let ls = seq_views(stream.lines@);
            let hp = crate::stream::header_pos(ls, stream.pos as int);
            let inds = crate::stream::filters_individuals(
                crate::filter::steps_model(stream.filters@),
                0,
                crate::stream::header_individuals(ls[hp]),
            ).1;
            stream.pos < ls.len() && hp < ls.len() && crate::stream::header_individuals(
                ls[hp],
            ).len() > 0 && inds.len() < usize::MAX
        },
        ({
            let ls = seq_views(stream.lines@);
            let hp = crate::stream::header_pos(ls, stream.pos as int);
            let hdr = ls[hp];
            let fr = crate::stream::filters_individuals(
                crate::filter::steps_model(stream.filters@),
                0,
                crate::stream::header_individuals(hdr),
            );
            let inds = fr.1;
            let lv = Seq::new(inds.len(), |j: int| label_of(population.model(), inds[j]));
            let recs = crate::stream::emitted(
                ls,
                hp + 1,
                crate::stream::header_has_format(hdr),
                fr.0,
            );
            stream.pos < ls.len() && hp < ls.len() && crate::stream::header_individuals(
                hdr,
            ).len() > 0 && inds.len() < usize::MAX ==> exists|pv: (Seq<u64>, Seq<u64>)|
                #[trigger] partition_wf(pv, inds.len() as int) && partition_exact(
                    pv,
                    inds.len() as int,
                    target_size(inds.len() as int, ratio),
                ) && (match r {
                    Ok(rows) => prediction_rows_from(recs, inds, lv, pv, threshold, min_dist, 0)
                        == Ok::<Seq<(Seq<u8>, Seq<u8>, Option<Seq<u8>>)>, VcfError>(
                        prow_views(rows@),
                    ),
                    Err(e) => prediction_rows_from(
                        recs,
                        inds,
                        lv,
                        pv,
                        threshold,
                        min_dist,
                        0,
                    ) is Err,
                })
        }),
{
    proof {
        crate::stream::lemma_header_pos_bounds(seq_views(stream.lines@), stream.pos as int);
    }
    let unfolded = match stream.unfold() {
        Ok(u) => u,
        Err(e) => {
            return Err(e);
        },
    };
    let labels = population.labels(&unfolded.individuals);
    let n = unfolded.individuals.len();
    proof {
        assert(labels@.len() == n);
    }
    if n >= usize::MAX {
        return Err(VcfError::NumericOverflow);
    }
    proof {
        assert((n as int) * (ratio.num as int) <= 0xffff_ffff_ffff_ffff
            * 0xffff_ffff_ffff_ffff) by (nonlinear_arith)
            requires
                n as int <= 0xffff_ffff_ffff_ffff,
                ratio.num <= 0xffff_ffff_ffff_ffff,
        ;
        let nn = n as int;
        let num = ratio.num as int;
        let den = ratio.den as int;
        assert(num < den);
        assert(nn * num <= nn * den) by (nonlinear_arith)
            requires
                0 <= nn,
                num <= den,
        ;
        vstd::arithmetic::div_mod::lemma_div_is_ordered(nn * num, nn * den, den);
        vstd::arithmetic::div_mod::lemma_div_multiples_vanish(nn, den);
        assert(den * nn == nn * den) by (nonlinear_arith);
        assert((nn * num) / den <= nn);
    }
    let split_index_raw = (((n as u128) * (ratio.num as u128)) / (ratio.den as u128));
    let split_index: usize = if split_index_raw >= n as u128 {
        n
    } else {
        split_index_raw as usize
    };
    proof {
        assert(split_index as int == target_size(n as int, ratio));
    }
    let mut ids: Vec<u64> = Vec::new();
    let mut v: usize = 0;
    while v < n
        invariant
            n < usize::MAX,
            v <= n,
            ids@.len() == v,
            forall|q: int| 0 <= q < v ==> #[trigger] ids@[q] == q,
        decreases n - v,
    {
        ids.push(v as u64);
        v = v + 1;
    }
    let ghost ids0 = ids@;
    proof {
        assert(ids0 =~= index_identity(n as int));
    }
    let (train, target) = split(ids, split_index);
    proof {
        lemma_multiset_bound(train@, target@, ids0, n as u64);
        assert(partition_wf((train@, target@), n as int));
        assert(partition_exact((train@, target@), n as int, split_index as int));
    }
    let partition = Partition { train, target };
    let r = predict_with_partition(
        unfolded.stream,
        &unfolded.individuals,
        &labels,
        &partition,
        threshold,
        min_dist,
        cache,
    );
    proof {
        let ghost lv2 = seq_views(labels@);
        let ghost iv2 = seq_views(unfolded.individuals@);
        assert(lv2 =~= Seq::new(iv2.len(), |j: int| label_of(population.model(), iv2[j])));
        assert(partition_wf((partition.train@, partition.target@), iv2.len() as int));
        assert(partition_exact(
            (partition.train@, partition.target@),
            iv2.len() as int,
            target_size(iv2.len() as int, ratio),
        ));
    }
    r
}

/// Law: the prediction report is deterministic — two runs on the same
/// records, individuals, labels, fixed partition and thresholds yield
/// identical calls.
pub proof fn lemma_prediction_idempotent(
    recs: Seq<RecordModel>,
    individuals: Seq<Seq<u8>>,
    labels: Seq<Seq<u8>>,
    part: (Seq<u64>, Seq<u64>),
    thr: Ratio,
    min_dist: Ratio,
    r1: Result<Seq<(Seq<u8>, Seq<u8>, Option<Seq<u8>>)>, VcfError>,
    r2: Result<Seq<(Seq<u8>, Seq<u8>, Option<Seq<u8>>)>, VcfError>,
)
    requires
        r1 == prediction_rows_from(recs, individuals, labels, part, thr, min_dist, 0),
        r2 == prediction_rows_from(recs, individuals, labels, part, thr, min_dist, 0),
    ensures
        r1 == r2,
{
}

} // verus!
