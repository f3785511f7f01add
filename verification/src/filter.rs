//! Composable filters over the staged variant stream.
//!
//! A filter has three hooks, each defaulting to identity: one for the
//! metadata list, one for the individual list, one per record. A record
//! hook may pass a (possibly narrowed) record on, silently skip it, or stop
//! the whole stream. A pipe wraps a metadata-stage reader and applies its
//! filters, in registration order, at every stage.

use vstd::prelude::*;
use crate::bytes::{bytes_contains, seq_views, clone_bytes};
use crate::record::{VCFData, RecordModel, rec_wf, rec_field, keep_model};
use crate::stream::MetadataStage;

verus! {

/// What a record hook decides: pass a record on, skip it, or stop the
/// stream.
pub enum DataAction {
    Ignore,
    Stop,
    Data(VCFData),
}

/// Spec-level mirror of a decision, over record models.
pub ghost enum ActionModel {
    Ignore,
    Stop,
    Data(RecordModel),
}

/// The model of a `DataAction`.
pub open spec fn action_model(a: DataAction) -> ActionModel {
    match a {
        DataAction::Ignore => ActionModel::Ignore,
        DataAction::Stop => ActionModel::Stop,
        DataAction::Data(d) => ActionModel::Data(d@),
    }
}

/// The state of one registered filter, over views.
pub ghost enum StepModel {
    Individuals { targets: Seq<Seq<u8>>, indices: Seq<u64> },
    Polymorphism { targets: Seq<Seq<u8>>, count: u64 },
}

/// The three hooks of a filter, each defaulting to identity: transform
/// the metadata list, transform the individual list, and transform, skip
/// or stop on each record. The two built-in filters run through a pipe as
/// `FilterStep` values, whose hooks carry the verified contracts below;
/// this trait is the extension point for further filters.
pub trait Filter {
    fn filter_metadata(&mut self, metadata: Vec<(Vec<u8>, Vec<u8>)>) -> Vec<(Vec<u8>, Vec<u8>)> {
        metadata
    }

    fn filter_individuals(&mut self, individuals: Vec<Vec<u8>>) -> Vec<Vec<u8>> {
        individuals
    }

    fn filter_item(&mut self, item: VCFData) -> DataAction {
        DataAction::Data(item)
    }
}

/// No sequence element repeats.
pub open spec fn distinct_seq(s: Seq<Seq<u8>>) -> bool {
    forall|i: int, j: int| 0 <= i < j < s.len() ==> s[i] != s[j]
}

/// Deduplicates a target list, keeping first occurrences in order.
fn dedup(targets: Vec<Vec<u8>>) -> (r: Vec<Vec<u8>>)
    ensures
        distinct_seq(seq_views(r@)),
        forall|x: Seq<u8>| seq_views(r@).contains(x) <==> seq_views(targets@).contains(x),
{
    let mut out: Vec<Vec<u8>> = Vec::new();
    let mut i: usize = 0;
    while i < targets.len()
        invariant
            i <= targets@.len(),
            distinct_seq(seq_views(out@)),
            forall|x: Seq<u8>| seq_views(out@).contains(x)
                <==> seq_views(targets@).take(i as int).contains(x),
        decreases targets@.len() - i,
    {
        let ghost prevt = seq_views(targets@).take(i as int);
        let ghost prev = out@;
        let ghost t = targets@[i as int]@;
        let ghost curt = seq_views(targets@).take(i + 1);
        proof {
            assert(curt.drop_last() =~= prevt);
            assert(curt.last() == t);
        }
        if !bytes_contains(&out, &targets[i]) {
            out.push(clone_bytes(&targets[i]));
            proof {
                assert(seq_views(out@) =~= seq_views(prev).push(t));
                assert forall|a: int, b: int| 0 <= a < b < seq_views(out@).len()
                    implies seq_views(out@)[a] != seq_views(out@)[b] by {
                    if b == seq_views(out@).len() - 1 {
                        assert(seq_views(prev)[a] == seq_views(out@)[a]);
                        if seq_views(prev)[a] == t {
                            assert(seq_views(prev).contains(t));
                        }
                    }
                }
                assert forall|x: Seq<u8>| seq_views(out@).contains(x) implies curt.contains(
                    x,
                ) by {
                    let u = choose|u: int|
                        0 <= u < seq_views(out@).len() && seq_views(out@)[u] == x;
                    if u < seq_views(prev).len() {
                        assert(seq_views(prev)[u] == x);
                        assert(seq_views(prev).contains(x));
                        assert(prevt.contains(x));
                        let w = choose|w: int| 0 <= w < prevt.len() && prevt[w] == x;
                        assert(curt[w] == x);
                    } else {
                        assert(x == t);
                        assert(curt[i as int] == x);
                    }
                }
                assert forall|x: Seq<u8>| curt.contains(x) implies seq_views(out@).contains(
                    x,
                ) by {
                    let w = choose|w: int| 0 <= w < curt.len() && curt[w] == x;
                    if w < i {
                        assert(prevt[w] == x);
                        assert(prevt.contains(x));
                        assert(seq_views(prev).contains(x));
                        let u = choose|u: int|
                            0 <= u < seq_views(prev).len() && seq_views(prev)[u] == x;
                        assert(seq_views(out@)[u] == x);
                    } else {
                        assert(x == t);
                        assert(seq_views(out@)[seq_views(prev).len() as int] == x);
                    }
                }
            }
        } else {
            proof {
                assert(seq_views(out@).contains(t));
                assert forall|x: Seq<u8>| seq_views(out@).contains(x) implies curt.contains(
                    x,
                ) by {
                    assert(prevt.contains(x));
                    let w = choose|w: int| 0 <= w < prevt.len() && prevt[w] == x;
                    assert(curt[w] == x);
                }
                assert forall|x: Seq<u8>| curt.contains(x) implies seq_views(out@).contains(
                    x,
                ) by {
                    let w = choose|w: int| 0 <= w < curt.len() && curt[w] == x;
                    if w < i {
                        assert(prevt[w] == x);
                        assert(prevt.contains(x));
                    } else {
                        assert(x == t);
                    }
                }
            }
        }
        i = i + 1;
    }
    proof {
        assert(seq_views(targets@).take(targets@.len() as int) == seq_views(targets@));
    }
    out
}

/// Keeps only the individuals whose identifier is in a fixed target set;
/// resolves their column indices once, at the individuals stage, and
/// narrows every later record to those columns.
#[derive(Debug)]
pub struct IndividualsFilter {
    pub individuals: Vec<Vec<u8>>,
    pub indices: Vec<u64>,
}

/// The genotype-column indices whose identifier is in the target set, in
/// ascending order.
pub open spec fn sel_indices(targets: Seq<Seq<u8>>, inds: Seq<Seq<u8>>) -> Seq<u64>
    decreases inds.len(),
{
    if inds.len() == 0 {
        Seq::empty()
    } else {
        let p = sel_indices(targets, inds.drop_last());
        if targets.contains(inds.last()) {
            p.push((inds.len() - 1) as u64)
        } else {
            p
        }
    }
}

/// The identifiers at the selected indices.
pub open spec fn sel_names(targets: Seq<Seq<u8>>, inds: Seq<Seq<u8>>) -> Seq<Seq<u8>> {
    sel_indices(targets, inds).map_values(|ix: u64| inds[ix as int])
}

/// What the individuals-filter record hook does: narrow the record to the
/// resolved columns; a record too short for them is skipped.
pub open spec fn ind_item_spec(indices: Seq<u64>, m: RecordModel) -> ActionModel {
    if m.ranges.len() >= 9 && (forall|k: int|
        0 <= k < indices.len() ==> 9 + #[trigger] indices[k] < m.ranges.len()) {
        ActionModel::Data(keep_model(m, indices))
    } else {
        ActionModel::Ignore
    }
}

impl IndividualsFilter {
    /// This filter's state, over views.
    pub open spec fn model(&self) -> StepModel {
        StepModel::Individuals {
            targets: seq_views(self.individuals@),
            indices: self.indices@,
        }
    }

    /// A filter for the given target individuals.
    pub fn new(individuals: Vec<Vec<u8>>) -> (r: IndividualsFilter)
        ensures
            distinct_seq(seq_views(r.individuals@)),
            forall|x: Seq<u8>| seq_views(r.individuals@).contains(x)
                <==> seq_views(individuals@).contains(x),
            r.indices@ == Seq::<u64>::empty(),
    {
        IndividualsFilter { individuals: dedup(individuals), indices: Vec::new() }
    }

    /// The individuals hook: resolves the retained column indices once and
    /// emits the narrowed identifier list.
    pub fn filter_individuals(&mut self, individuals: Vec<Vec<u8>>) -> (r: Vec<Vec<u8>>)
        ensures
            final(self).individuals == old(self).individuals,
            final(self).indices@ == sel_indices(
                seq_views(old(self).individuals@),
                seq_views(individuals@),
            ),
            seq_views(r@) == sel_names(
                seq_views(old(self).individuals@),
                seq_views(individuals@),
            ),
    {
        let ghost targets = seq_views(self.individuals@);
        let ghost inds = seq_views(individuals@);
        let mut indices: Vec<u64> = Vec::new();
        let mut out: Vec<Vec<u8>> = Vec::new();
        let mut i: usize = 0;
        while i < individuals.len()
            invariant
                self == old(self),
                targets == seq_views(self.individuals@),
                inds == seq_views(individuals@),
                i <= individuals@.len(),
                indices@ == sel_indices(targets, inds.take(i as int)),
                seq_views(out@) == sel_names(targets, inds.take(i as int)),
                forall|k: int| 0 <= k < indices@.len() ==> #[trigger] indices@[k] < i,
            decreases individuals@.len() - i,
        {
            let ghost prev_idx = indices@;
            let ghost prev_out = out@;
            proof {
                assert(inds.take(i + 1).drop_last() =~= inds.take(i as int));
                assert(inds.take(i + 1).last() == inds[i as int]);
            }
            if bytes_contains(&self.individuals, &individuals[i]) {
                indices.push(i as u64);
                out.push(clone_bytes(&individuals[i]));
                proof {
                    assert(seq_views(out@) =~= seq_views(prev_out).push(
                        individuals@[i as int]@,
                    ));
                    assert(targets.contains(inds.take(i + 1).last()));
                    assert(sel_indices(targets, inds.take(i + 1)) == sel_indices(
                        targets,
                        inds.take(i as int),
                    ).push(i as u64));
                    assert(indices@ =~= sel_indices(targets, inds.take(i + 1)));
                    let cur_sel = sel_indices(targets, inds.take(i + 1));
                    let cur_names = cur_sel.map_values(|ix: u64| inds.take(i + 1)[ix as int]);
                    assert forall|k: int| 0 <= k < cur_names.len()
                        implies seq_views(out@)[k] == cur_names[k] by {
                        if k < cur_sel.len() - 1 {
                            assert(seq_views(prev_out)[k] == sel_names(
                                targets,
                                inds.take(i as int),
                            )[k]);
                            assert(prev_idx[k] < i);
                            assert(inds.take(i + 1)[prev_idx[k] as int] == inds.take(i as int)[
                                prev_idx[k] as int]);
                        } else {
                            assert(cur_sel[k] == i as u64);
                            assert(inds.take(i + 1)[i as int] == inds[i as int]);
                        }
                    }
                    assert(seq_views(out@) =~= cur_names);
                }
            } else {
                proof {
                    if targets.contains(inds.take(i + 1).last()) {
                        assert(false);
                    }
                    assert(indices@ =~= sel_indices(targets, inds.take(i + 1)));
                    let cur_sel = sel_indices(targets, inds.take(i + 1));
                    let cur_names = cur_sel.map_values(|ix: u64| inds.take(i + 1)[ix as int]);
                    assert forall|k: int| 0 <= k < cur_names.len()
                        implies seq_views(out@)[k] == cur_names[k] by {
                        assert(seq_views(prev_out)[k] == sel_names(
                            targets,
                            inds.take(i as int),
                        )[k]);
                        assert(prev_idx[k] < i);
                        assert(inds.take(i + 1)[prev_idx[k] as int] == inds.take(i as int)[
                            prev_idx[k] as int]);
                    }
                    assert(seq_views(out@) =~= cur_names);
                }
            }
            i = i + 1;
        }
        proof {
            assert(inds.take(inds.len() as int) == inds);
        }
        self.indices = indices;
        out
    }

    /// The record hook: column narrowing by the resolved indices.
    pub fn filter_item(&self, item: VCFData) -> (r: DataAction)
        requires
            rec_wf(item@),
        ensures
            action_model(r) == ind_item_spec(self.indices@, item@),
            forall|m2: RecordModel| ind_item_spec(self.indices@, item@) == ActionModel::Data(m2)
                ==> rec_wf(m2),
    {
        let nf = item.num_fields();
        let mut ok = nf >= 9;
        let mut k: usize = 0;
        while k < self.indices.len()
            invariant
                k <= self.indices@.len(),
                nf == item@.ranges.len(),
                nf <= usize::MAX,
                ok == (nf >= 9 && forall|j: int|
                    0 <= j < k ==> 9 + #[trigger] self.indices@[j] < item@.ranges.len()),
            decreases self.indices@.len() - k,
        {
            let ix = self.indices[k];
            if !(ix <= u64::MAX - 9 && (nf as u64) > 9 + ix) {
                ok = false;
            }
            k = k + 1;
        }
        if ok {
            DataAction::Data(item.keep(&self.indices))
        } else {
            DataAction::Ignore
        }
    }
}

/// Emits records until a fixed number of distinct target variant
/// identifiers have been seen, then stops the stream.
#[derive(Debug)]
pub struct PolymorphismFilter {
    pub polymorphisms: Vec<Vec<u8>>,
    pub count: u64,
}

/// The polymorphism filter's record hook: stop once every target has been
/// emitted; skip records whose identifier is not a target (or that have no
/// identifier column); emit and count the rest.
pub open spec fn poly_item_spec(targets: Seq<Seq<u8>>, count: u64, m: RecordModel) -> (
    u64,
    ActionModel,
) {
    if count == targets.len() {
        (count, ActionModel::Stop)
    } else if m.ranges.len() < 3 {
        (count, ActionModel::Ignore)
    } else if !targets.contains(rec_field(m, 2)) {
        (count, ActionModel::Ignore)
    } else {
        ((count + 1) as u64, ActionModel::Data(m))
    }
}

impl PolymorphismFilter {
    /// This filter's state, over views.
    pub open spec fn model(&self) -> StepModel {
        StepModel::Polymorphism {
            targets: seq_views(self.polymorphisms@),
            count: self.count,
        }
    }

    /// A filter for the given target variant identifiers.
    pub fn new(polymorphisms: Vec<Vec<u8>>) -> (r: PolymorphismFilter)
        ensures
            distinct_seq(seq_views(r.polymorphisms@)),
            forall|x: Seq<u8>| seq_views(r.polymorphisms@).contains(x)
                <==> seq_views(polymorphisms@).contains(x),
            r.count == 0,
    {
        PolymorphismFilter { polymorphisms: dedup(polymorphisms), count: 0 }
    }

    /// The record hook.
    pub fn filter_item(&mut self, item: VCFData) -> (r: DataAction)
        requires
            rec_wf(item@),
            old(self).count <= old(self).polymorphisms@.len(),
        ensures
            final(self).polymorphisms == old(self).polymorphisms,
            final(self).count == poly_item_spec(
                seq_views(old(self).polymorphisms@),
                old(self).count,
                item@,
            ).0,
            action_model(r) == poly_item_spec(
                seq_views(old(self).polymorphisms@),
                old(self).count,
                item@,
            ).1,
            final(self).count <= final(self).polymorphisms@.len(),
    {
        let n_targets = self.polymorphisms.len();
        if self.count == n_targets as u64 {
            DataAction::Stop
        } else if item.num_fields() < 3 {
            DataAction::Ignore
        } else {
            let ident = item.identifier();
            if !bytes_contains(&self.polymorphisms, &ident) {
                DataAction::Ignore
            } else {
                self.count = self.count + 1;
                DataAction::Data(item)
            }
        }
    }
}

/// One registered filter of a pipe.
#[derive(Debug)]
pub enum FilterStep {
    Individuals(IndividualsFilter),
    Polymorphism(PolymorphismFilter),
}

/// The state of one registered filter, over views.
pub open spec fn step_model(f: FilterStep) -> StepModel {
    match f {
        FilterStep::Individuals(g) => g.model(),
        FilterStep::Polymorphism(g) => g.model(),
    }
}

/// The states of a filter chain.
pub open spec fn steps_model(fs: Seq<FilterStep>) -> Seq<StepModel> {
    fs.map_values(|f: FilterStep| step_model(f))
}

/// Validity of one filter's state: the emitted count never exceeds the
/// number of targets.
pub open spec fn step_wf(sm: StepModel) -> bool {
    match sm {
        StepModel::Individuals { targets, indices } => true,
        StepModel::Polymorphism { targets, count } => count <= targets.len() && targets.len()
            <= u64::MAX,
    }
}

pub open spec fn steps_wf(fs: Seq<StepModel>) -> bool {
    forall|i: int| 0 <= i < fs.len() ==> step_wf(#[trigger] fs[i])
}

/// One filter's record hook, over models: the updated state and the
/// decision.
pub open spec fn step_item(sm: StepModel, m: RecordModel) -> (StepModel, ActionModel) {
    match sm {
        StepModel::Individuals { targets, indices } => (sm, ind_item_spec(indices, m)),
        StepModel::Polymorphism { targets, count } => (
            StepModel::Polymorphism { targets, count: poly_item_spec(targets, count, m).0 },
            poly_item_spec(targets, count, m).1,
        ),
    }
}

/// The whole chain's record hooks, applied in order from filter `i` on: a
/// record flows through every filter while each passes it on; the first
/// skip or stop ends the chain there, leaving the later filters untouched.
pub open spec fn apply_filters_from(fs: Seq<StepModel>, i: int, m: RecordModel) -> (
    Seq<StepModel>,
    ActionModel,
)
    decreases fs.len() - i,
{
    if i < 0 || i >= fs.len() {
        (fs, ActionModel::Data(m))
    } else {
        let f2 = step_item(fs[i], m).0;
        let a = step_item(fs[i], m).1;
        let fs2 = fs.update(i, f2);
        match a {
            ActionModel::Data(m2) => apply_filters_from(fs2, i + 1, m2),
            ActionModel::Ignore => (fs2, ActionModel::Ignore),
            ActionModel::Stop => (fs2, ActionModel::Stop),
        }
    }
}

/// Runs a record through the whole chain, updating the filters in place.
pub fn apply_filters(filters: &mut Vec<FilterStep>, item: VCFData) -> (r: DataAction)
    requires
        steps_wf(steps_model(old(filters)@)),
        rec_wf(item@),
    ensures
        steps_model(final(filters)@) == apply_filters_from(
            steps_model(old(filters)@),
            0,
            item@,
        ).0,
        action_model(r) == apply_filters_from(steps_model(old(filters)@), 0, item@).1,
        steps_wf(steps_model(final(filters)@)),
        forall|m2: RecordModel| apply_filters_from(steps_model(old(filters)@), 0, item@).1
            == ActionModel::Data(m2) ==> rec_wf(m2),
{
    let ghost fs0 = steps_model(filters@);
    let n = filters.len();
    let mut i: usize = 0;
    let mut cur = item;
    loop
        invariant
            fs0 == steps_model(old(filters)@),
            steps_wf(steps_model(filters@)),
            rec_wf(cur@),
            i <= n,
            n == filters@.len(),
            apply_filters_from(fs0, 0, item@) == apply_filters_from(
                steps_model(filters@),
                i as int,
                cur@,
            ),
        decreases n - i,
    {
        if i == n {
            return DataAction::Data(cur);
        }
        let ghost fs_before = steps_model(filters@);
        let mut f = filters.remove(i);
        proof {
            assert(fs_before[i as int] == step_model(f));
            assert(step_wf(fs_before[i as int]));
        }
        let a = match &mut f {
            FilterStep::Individuals(g) => g.filter_item(cur),
            FilterStep::Polymorphism(g) => g.filter_item(cur),
        };
        filters.insert(i, f);
        proof {
            assert(steps_model(filters@) =~= fs_before.update(
                i as int,
                step_item(fs_before[i as int], cur@).0,
            ));
        }
        match a {
            DataAction::Data(d2) => {
                cur = d2;
            },
            DataAction::Ignore => {
                return DataAction::Ignore;
            },
            DataAction::Stop => {
                return DataAction::Stop;
            },
        }
        i = i + 1;
    }
}

/// A pipe: a staged reader with a filter chain on top. It exposes the same
/// staged protocol as the bare reader.
pub struct Pipe {
    pub stage: MetadataStage,
}

impl Pipe {
    /// Wraps a metadata-stage reader.
    pub fn new(inner: MetadataStage) -> (r: Pipe)
        ensures
            r.stage == inner,
    {
        Pipe { stage: inner }
    }

    /// Registers one more filter, after the ones already registered.
    pub fn pipe(self, filter: FilterStep) -> (r: Pipe)
        ensures
            r.stage.lines == self.stage.lines,
            r.stage.pos == self.stage.pos,
            r.stage.filters@ == self.stage.filters@.push(filter),
    {
        let mut stage = self.stage;
        stage.filters.push(filter);
        Pipe { stage }
    }

    /// Hands the staged reader back, filters in place.
    pub fn stream(self) -> (r: MetadataStage)
        ensures
            r == self.stage,
    {
        self.stage
    }
}

/// Whether a filter state is an identifier-subset (polymorphism) filter.
pub open spec fn is_poly(sm: StepModel) -> bool {
    match sm {
        StepModel::Polymorphism { targets, count } => true,
        _ => false,
    }
}

/// How many target identifiers the polymorphism filter has already let
/// through.
pub open spec fn poly_count(sm: StepModel) -> nat {
    match sm {
        StepModel::Polymorphism { targets, count } => count as nat,
        _ => 0,
    }
}

/// The polymorphism filter's target-set size.
pub open spec fn poly_cap(sm: StepModel) -> nat {
    match sm {
        StepModel::Polymorphism { targets, count } => targets.len(),
        _ => 0,
    }
}

/// How one chain application treats a polymorphism filter at position
/// `j`: its target set is fixed, its count never shrinks, and a record
/// only ever comes out of the chain by raising the count of every
/// polymorphism filter at or after the application point by exactly one —
/// which is possible only below the target-set size.
pub proof fn lemma_apply_poly(fs: Seq<StepModel>, i: int, m: RecordModel, j: int)
    requires
        0 <= i <= fs.len(),
        0 <= j < fs.len(),
        steps_wf(fs),
        is_poly(fs[j]),
    ensures
        apply_filters_from(fs, i, m).0.len() == fs.len(),
        steps_wf(apply_filters_from(fs, i, m).0),
        is_poly(apply_filters_from(fs, i, m).0[j]),
        poly_cap(apply_filters_from(fs, i, m).0[j]) == poly_cap(fs[j]),
        poly_count(apply_filters_from(fs, i, m).0[j]) >= poly_count(fs[j]),
        apply_filters_from(fs, i, m).1 is Data && i <= j ==> poly_count(fs[j]) < poly_cap(
            fs[j],
        ) && poly_count(apply_filters_from(fs, i, m).0[j]) == poly_count(fs[j]) + 1,
        j < i ==> apply_filters_from(fs, i, m).0[j] == fs[j],
    decreases fs.len() - i,
{
    if i < fs.len() {
        let f2 = step_item(fs[i], m).0;
        let a = step_item(fs[i], m).1;
        let fs2 = fs.update(i, f2);
        assert(step_wf(fs[i]));
        assert(steps_wf(fs2)) by {
            assert forall|q: int| 0 <= q < fs2.len() implies step_wf(#[trigger] fs2[q]) by {
                if q != i {
                    assert(fs2[q] == fs[q]);
                }
            }
        }
        if j != i {
            assert(fs2[j] == fs[j]);
        } else {
            match fs[j] {
                StepModel::Polymorphism { targets, count } => {
                    if count == targets.len() {
                        assert(a is Stop);
                        assert(poly_count(fs2[j]) == count);
                    } else if m.ranges.len() < 3 {
                        assert(a is Ignore);
                        assert(poly_count(fs2[j]) == count);
                    } else if !targets.contains(rec_field(m, 2)) {
                        assert(a is Ignore);
                        assert(poly_count(fs2[j]) == count);
                    } else {
                        assert(count < targets.len());
                        assert(poly_count(fs2[j]) == count + 1);
                    }
                },
                StepModel::Individuals { targets, indices } => {},
            }
        }
        assert(is_poly(fs2[j]) && poly_cap(fs2[j]) == poly_cap(fs[j]));
        match a {
            ActionModel::Data(m2) => {
                lemma_apply_poly(fs2, i + 1, m2, j);
            },
            ActionModel::Ignore => {},
            ActionModel::Stop => {},
        }
    }
}

} // verus!
