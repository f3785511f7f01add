//! The staged reader of a variant stream: metadata, then individuals, then
//! data rows — in that order only. Each stage's advance operation consumes
//! the stage value and returns the next stage's value, so out-of-order
//! access does not typecheck.
//!
//! The input is the stream's lines, without trailing newlines; the reader
//! walks them by position and produces one record at a time, so no record
//! outlives its iteration step.

use vstd::prelude::*;
use crate::VcfError;
use crate::bytes::{first_at, ranges_from, lemma_ranges_from, split_ranges, copy_range,
    clone_bytes, bytes_eq, seq_views, find_byte_from};
use crate::record::{VCFData, RecordModel, rec_wf, record_of, TAB};
use crate::filter::{FilterStep, DataAction, ActionModel, StepModel, steps_model, steps_wf,
    apply_filters, apply_filters_from, sel_indices, sel_names};

verus! {

/// The equals-sign byte.
pub const EQUALS: u8 = 61;
/// The hash byte; two of them open a metadata line.
pub const HASH: u8 = 35;

/// The literal FORMAT header token.
pub open spec fn format_token() -> Seq<u8> {
    seq![70u8, 79u8, 82u8, 77u8, 65u8, 84u8]
}

/// The views of a pair list.
pub open spec fn pair_views(s: Seq<(Vec<u8>, Vec<u8>)>) -> Seq<(Seq<u8>, Seq<u8>)> {
    s.map_values(|p: (Vec<u8>, Vec<u8>)| (p.0@, p.1@))
}

/// Whether a line is a metadata line: it starts with "##".
pub open spec fn is_meta_line(l: Seq<u8>) -> bool {
    l.len() >= 2 && l[0] == HASH && l[1] == HASH
}

/// The key/value pair of a metadata line: the text after the marker, split
/// at the first '='; a line without '=' has the whole text as key and an
/// empty value.
pub open spec fn meta_pair(l: Seq<u8>) -> (Seq<u8>, Seq<u8>) {
    let c = l.skip(2);
    let e = first_at(c, EQUALS) as int;
    if e < c.len() {
        (c.take(e), c.skip(e + 1))
    } else {
        (c, Seq::empty())
    }
}

/// Index of the first non-metadata line at or after `pos`; the line count
/// when every remaining line is metadata.
pub open spec fn header_pos(lines: Seq<Seq<u8>>, pos: int) -> int
    decreases lines.len() - pos,
{
    if pos < 0 || pos >= lines.len() {
        lines.len() as int
    } else if is_meta_line(lines[pos]) {
        header_pos(lines, pos + 1)
    } else {
        pos
    }
}

/// The header position lies between the cursor and the line count.
pub proof fn lemma_header_pos_bounds(lines: Seq<Seq<u8>>, pos: int)
    requires
        0 <= pos <= lines.len(),
    ensures
        pos <= header_pos(lines, pos) <= lines.len(),
    decreases lines.len() - pos,
{
    if pos < lines.len() && is_meta_line(lines[pos]) {
        lemma_header_pos_bounds(lines, pos + 1);
    }
}

/// The metadata pairs of the lines from `pos` up to the header line.
pub open spec fn meta_pairs(lines: Seq<Seq<u8>>, pos: int) -> Seq<(Seq<u8>, Seq<u8>)>
    decreases lines.len() - pos,
{
    if pos < 0 || pos >= lines.len() {
        Seq::empty()
    } else if is_meta_line(lines[pos]) {
        seq![meta_pair(lines[pos])] + meta_pairs(lines, pos + 1)
    } else {
        Seq::empty()
    }
}

/// The tab-separated fields of the header line.
pub open spec fn header_fields(header: Seq<u8>) -> Seq<Seq<u8>> {
    ranges_from(header, 0, TAB).map_values(
        |rg: (usize, usize)| header.subrange(rg.0 as int, rg.1 as int),
    )
}

/// Whether the header declares a format column: its ninth field is the
/// literal FORMAT token.
pub open spec fn header_has_format(header: Seq<u8>) -> bool {
    header_fields(header).len() > 8 && header_fields(header)[8] == format_token()
}

/// The individual identifiers of the header: every field after the fixed
/// columns, whose count depends on the header layout.
pub open spec fn header_individuals(header: Seq<u8>) -> Seq<Seq<u8>> {
    let start: int = if header_has_format(header) {
        9
    } else {
        8
    };
    if header_fields(header).len() <= start {
        Seq::empty()
    } else {
        header_fields(header).skip(start)
    }
}

/// What each filter's individuals hook does, in registration order: the
/// individual-subset filter resolves and stores its column indices and
/// narrows the list; every other filter leaves the list alone.
pub open spec fn filters_individuals(fs: Seq<StepModel>, i: int, inds: Seq<Seq<u8>>) -> (
    Seq<StepModel>,
    Seq<Seq<u8>>,
)
    decreases fs.len() - i,
{
    if i < 0 || i >= fs.len() {
        (fs, inds)
    } else {
        match fs[i] {
            StepModel::Individuals { targets, indices } => filters_individuals(
                fs.update(
                    i,
                    StepModel::Individuals { targets, indices: sel_indices(targets, inds) },
                ),
                i + 1,
                sel_names(targets, inds),
            ),
            StepModel::Polymorphism { targets, count } => filters_individuals(fs, i + 1, inds),
        }
    }
}

/// The records a data stage still yields: each remaining line is
/// tokenized under the stage's layout and run through the filter chain;
/// passed records are emitted, skipped ones are not, and a stop ends the
/// stream at once, whatever input remains.
pub open spec fn emitted(
    lines: Seq<Seq<u8>>,
    pos: int,
    has_format: bool,
    fs: Seq<StepModel>,
) -> Seq<RecordModel>
    decreases lines.len() - pos,
{
    if pos < 0 || pos >= lines.len() {
        Seq::empty()
    } else {
        let m = record_of(lines[pos], has_format);
        let fs2 = apply_filters_from(fs, 0, m).0;
        match apply_filters_from(fs, 0, m).1 {
            ActionModel::Data(m2) => seq![m2] + emitted(lines, pos + 1, has_format, fs2),
            ActionModel::Ignore => emitted(lines, pos + 1, has_format, fs2),
            ActionModel::Stop => Seq::empty(),
        }
    }
}

/// The metadata stage: the whole stream, not yet advanced past its
/// metadata lines.
pub struct MetadataStage {
    pub lines: Vec<Vec<u8>>,
    pub pos: usize,
    pub filters: Vec<FilterStep>,
}

/// The individuals stage: the buffered header line and the rest of the
/// stream.
pub struct IndividualsStage {
    pub lines: Vec<Vec<u8>>,
    pub pos: usize,
    pub header: Vec<u8>,
    pub filters: Vec<FilterStep>,
}

/// The data stage: a lazy, finite, forward-only sequence of records.
#[derive(Debug)]
pub struct DataStage {
    pub lines: Vec<Vec<u8>>,
    pub pos: usize,
    pub has_format: bool,
    pub filters: Vec<FilterStep>,
}

/// The three stage results of a fully unfolded stream.
#[derive(Debug)]
pub struct StreamUnfolded {
    pub metadata: Vec<(Vec<u8>, Vec<u8>)>,
    pub individuals: Vec<Vec<u8>>,
    pub stream: DataStage,
}

/// Starts the staged protocol on a stream given as its lines (without
/// trailing newlines), with no filters registered.
pub fn from_text_stream(lines: Vec<Vec<u8>>) -> (r: MetadataStage)
    ensures
        r.lines == lines,
        r.pos == 0,
        r.filters@ == Seq::<FilterStep>::empty(),
{
    let r = MetadataStage { lines, pos: 0, filters: Vec::new() };
    proof {
        assert(r.filters@ =~= Seq::<FilterStep>::empty());
    }
    r
}

impl MetadataStage {
    /// Reads the metadata lines into `map` and advances to the individuals
    /// stage. Fails with `EmptyStream` when no line is left at all, and
    /// with `MetadataOnly` when every line is a metadata line. The pairs
    /// read before a failure stay in `map`; the built-in filters leave
    /// metadata untouched.
    pub fn read_metadata(self, map: &mut Vec<(Vec<u8>, Vec<u8>)>) -> (r: Result<
        IndividualsStage,
        VcfError,
    >)
        requires
            self.pos <= self.lines@.len(),
        ensures
            pair_views(final(map)@) == pair_views(old(map)@) + meta_pairs(
                seq_views(self.lines@),
                self.pos as int,
            ),
            r is Ok <==> self.pos < self.lines@.len() && header_pos(
                seq_views(self.lines@),
                self.pos as int,
            ) < self.lines@.len(),
            r is Err ==> r->Err_0 == (if self.pos == self.lines@.len() {
                VcfError::EmptyStream
            } else {
                VcfError::MetadataOnly
            }),
            r is Ok ==> {
                let hp = header_pos(seq_views(self.lines@), self.pos as int);
                &&& r->Ok_0.lines == self.lines
                &&& r->Ok_0.pos == hp + 1
                &&& r->Ok_0.header@ == seq_views(self.lines@)[hp]
                &&& r->Ok_0.filters == self.filters
            },
    {
        let ghost ls = seq_views(self.lines@);
        let ghost pos0 = self.pos as int;
        let MetadataStage { lines, pos, filters } = self;
        if pos == lines.len() {
            proof {
                assert(pair_views(map@) =~= pair_views(map@) + meta_pairs(ls, pos0));
            }
            return Err(VcfError::EmptyStream);
        }
        let mut p: usize = pos;
        loop
            invariant
                ls == seq_views(lines@),
                pos0 == self.pos as int,
                lines == self.lines,
                filters == self.filters,
                pos0 <= p <= lines@.len(),
                pos0 < lines@.len(),
                header_pos(ls, pos0) == header_pos(ls, p as int),
                forall|j: int| pos0 <= j < p ==> is_meta_line(#[trigger] ls[j]),
                pair_views(map@) == pair_views(old(map)@) + collected_pairs(ls, pos0, p as int),
            decreases lines@.len() - p,
        {
            if p == lines.len() {
                proof {
                    assert(meta_pairs(ls, p as int) =~= Seq::<(Seq<u8>, Seq<u8>)>::empty());
                    lemma_meta_pairs_split(ls, pos0, p as int);
                }
                return Err(VcfError::MetadataOnly);
            }
            let line = &lines[p];
            let ll = line.len();
            if ll >= 2 && line[0] == HASH && line[1] == HASH {
                let content = copy_range(line, 2, ll);
                proof {
                    assert(content@ =~= ls[p as int].skip(2));
                }
                let e = find_byte_from(&content, 0, EQUALS);
                proof {
                    assert(content@.skip(0) =~= content@);
                }
                let key: Vec<u8>;
                let val: Vec<u8>;
                if e < content.len() {
                    key = copy_range(&content, 0, e);
                    val = copy_range(&content, e + 1, content.len());
                    proof {
                        assert(key@ =~= ls[p as int].skip(2).take(e as int));
                        assert(val@ =~= ls[p as int].skip(2).skip(e + 1));
                    }
                } else {
                    key = content;
                    val = Vec::new();
                    proof {
                        assert(val@ =~= Seq::<u8>::empty());
                    }
                }
                let ghost prev = map@;
                map.push((key, val));
                proof {
                    assert((key@, val@) == meta_pair(ls[p as int]));
                    assert(pair_views(map@) =~= pair_views(prev).push(meta_pair(ls[p as int])));
                    lemma_collected_step(ls, pos0, p as int);
                }
                p = p + 1;
            } else {
                proof {
                    assert(!is_meta_line(ls[p as int]));
                    assert(header_pos(ls, p as int) == p);
                    assert(meta_pairs(ls, p as int) =~= Seq::<(Seq<u8>, Seq<u8>)>::empty());
                    lemma_meta_pairs_split(ls, pos0, p as int);
                }
                let header = clone_bytes(&lines[p]);
                return Ok(IndividualsStage { lines, pos: p + 1, header, filters });
            }
        }
    }
}

/// The metadata pairs between `pos0` and `p`, all lines in between being
/// metadata lines.
pub open spec fn collected_pairs(lines: Seq<Seq<u8>>, pos0: int, p: int) -> Seq<(Seq<u8>, Seq<u8>)>
    decreases p - pos0,
{
    if pos0 < 0 || pos0 >= p {
        Seq::empty()
    } else {
        seq![meta_pair(lines[pos0])] + collected_pairs(lines, pos0 + 1, p)
    }
}

/// Appending one more parsed pair extends the collection by one line.
proof fn lemma_collected_step(lines: Seq<Seq<u8>>, pos0: int, p: int)
    requires
        0 <= pos0 <= p < lines.len(),
    ensures
        collected_pairs(lines, pos0, p + 1) == collected_pairs(lines, pos0, p).push(
            meta_pair(lines[p]),
        ),
    decreases p - pos0,
{
    if pos0 < p {
        lemma_collected_step(lines, pos0 + 1, p);
        assert(collected_pairs(lines, pos0, p + 1) =~= collected_pairs(lines, pos0, p).push(
            meta_pair(lines[p]),
        ));
    } else {
        assert(collected_pairs(lines, pos0 + 1, p + 1) =~= Seq::<(Seq<u8>, Seq<u8>)>::empty());
        assert(collected_pairs(lines, pos0, p) =~= Seq::<(Seq<u8>, Seq<u8>)>::empty());
        assert(collected_pairs(lines, pos0, p + 1) =~= collected_pairs(lines, pos0, p).push(
            meta_pair(lines[p]),
        ));
    }
}

/// When every line in `[pos0, p)` is metadata, the pairs of the whole tail
/// are the collected ones plus those from `p` on.
proof fn lemma_meta_pairs_split(lines: Seq<Seq<u8>>, pos0: int, p: int)
    requires
        0 <= pos0 <= p <= lines.len(),
        forall|j: int| pos0 <= j < p ==> is_meta_line(#[trigger] lines[j]),
    ensures
        meta_pairs(lines, pos0) == collected_pairs(lines, pos0, p) + meta_pairs(lines, p),
    decreases p - pos0,
{
    if pos0 < p {
        lemma_meta_pairs_split(lines, pos0 + 1, p);
        assert(meta_pairs(lines, pos0) =~= collected_pairs(lines, pos0, p) + meta_pairs(lines, p));
    } else {
        assert(meta_pairs(lines, pos0) =~= collected_pairs(lines, pos0, p) + meta_pairs(lines, p));
    }
}

impl IndividualsStage {
    /// Splits the buffered header line, determines the header layout,
    /// extends `list` with the (filtered) individual identifiers, and
    /// advances to the data stage. Fails with `NoIndividuals` exactly when
    /// the header carries no identifier after its fixed columns.
    pub fn read_individuals(self, list: &mut Vec<Vec<u8>>) -> (r: Result<DataStage, VcfError>)
        requires
            self.pos <= self.lines@.len(),
            steps_wf(steps_model(self.filters@)),
        ensures
            r is Ok <==> header_individuals(self.header@).len() > 0,
            r is Err ==> r->Err_0 == VcfError::NoIndividuals && final(list)@ == old(list)@,
            r is Ok ==> {
                let fr = filters_individuals(
                    steps_model(self.filters@),
                    0,
                    header_individuals(self.header@),
                );
                &&& seq_views(final(list)@) == seq_views(old(list)@) + fr.1
                &&& r->Ok_0.lines == self.lines
                &&& r->Ok_0.pos == self.pos
                &&& r->Ok_0.has_format == header_has_format(self.header@)
                &&& steps_model(r->Ok_0.filters@) == fr.0
                &&& steps_wf(steps_model(r->Ok_0.filters@))
                &&& r->Ok_0.pos <= r->Ok_0.lines@.len()
            },
    {
        let IndividualsStage { lines, pos, header, mut filters } = self;
        let _hl = header.len();
        proof {
            lemma_ranges_from(header@, 0, TAB);
        }
        let rs = split_ranges(&header, TAB);
        let mut has_format = false;
        if rs.len() > 8 {
            let f8 = copy_range(&header, rs[8].0, rs[8].1);
            let fmt: Vec<u8> = vec![70u8, 79u8, 82u8, 77u8, 65u8, 84u8];
            proof {
                assert(fmt@ =~= format_token());
                assert(header_fields(header@)[8] == f8@);
            }
            has_format = bytes_eq(&f8, &fmt);
        }
        proof {
            assert(has_format == header_has_format(header@));
        }
        let start: usize = if has_format {
            9
        } else {
            8
        };
        let ghost hf = header_fields(header@);
        let mut inds: Vec<Vec<u8>> = Vec::new();
        let mut i: usize = start;
        while i < rs.len()
            invariant
                hf == header_fields(header@),
                rs@ == ranges_from(header@, 0, TAB),
                forall|k: int| 0 <= k < rs@.len()
                    ==> (#[trigger] rs@[k]).0 <= rs@[k].1 <= header@.len(),
                start <= i <= rs@.len() || (i == start && start >= rs@.len()),
                start == (if header_has_format(header@) { 9int } else { 8int }),
                hf.len() == rs@.len(),
                seq_views(inds@) == (if i <= hf.len() && start <= i {
                    hf.subrange(start as int, i as int)
                } else {
                    Seq::<Seq<u8>>::empty()
                }),
            decreases rs@.len() - i,
        {
            let ghost prev = inds@;
            let (fs, fe) = rs[i];
            inds.push(copy_range(&header, fs, fe));
            proof {
                assert(seq_views(inds@) =~= seq_views(prev).push(hf[i as int]));
                assert(seq_views(inds@) =~= hf.subrange(start as int, i + 1));
            }
            i = i + 1;
        }
        proof {
            if start < hf.len() {
                assert(seq_views(inds@) =~= hf.skip(start as int));
            }
        }
        if inds.len() == 0 {
            return Err(VcfError::NoIndividuals);
        }
        let ghost fs0 = steps_model(filters@);
        let ghost inds0 = seq_views(inds@);
        proof {
            assert(inds0 == header_individuals(header@));
        }
        let mut cur = inds;
        let n = filters.len();
        let mut j: usize = 0;
        while j < n
            invariant
                fs0 == steps_model(self.filters@),
                inds0 == header_individuals(self.header@),
                steps_wf(steps_model(filters@)),
                j <= n,
                n == filters@.len(),
                filters_individuals(fs0, 0, inds0) == filters_individuals(
                    steps_model(filters@),
                    j as int,
                    seq_views(cur@),
                ),
            decreases n - j,
        {
            let ghost fs_before = steps_model(filters@);
            let ghost cur_before = seq_views(cur@);
            let mut f = filters.remove(j);
            proof {
                assert(fs_before[j as int] == crate::filter::step_model(f));
            }
            match &mut f {
                FilterStep::Individuals(g) => {
                    cur = g.filter_individuals(cur);
                },
                FilterStep::Polymorphism(g) => {},
            }
            filters.insert(j, f);
            proof {
                match fs_before[j as int] {
                    StepModel::Individuals { targets, indices } => {
                        assert(steps_model(filters@) =~= fs_before.update(
                            j as int,
                            StepModel::Individuals {
                                targets,
                                indices: sel_indices(targets, cur_before),
                            },
                        ));
                    },
                    StepModel::Polymorphism { targets, count } => {
                        assert(steps_model(filters@) =~= fs_before);
                    },
                }
            }
            j = j + 1;
        }
        let ghost list0 = list@;
        let ghost cur_final = seq_views(cur@);
        list.append(&mut cur);
        proof {
            assert(seq_views(list@) =~= seq_views(list0) + cur_final);
        }
        Ok(DataStage { lines, pos, has_format, filters })
    }
}

impl DataStage {
    /// Stage validity: the cursor is in range and the filter states are
    /// well formed.
    pub open spec fn wf(&self) -> bool {
        self.pos <= self.lines@.len() && steps_wf(steps_model(self.filters@))
    }

    /// The records this stage still yields.
    pub open spec fn emitted_from(&self) -> Seq<RecordModel> {
        emitted(
            seq_views(self.lines@),
            self.pos as int,
            self.has_format,
            steps_model(self.filters@),
        )
    }

    /// The next record of the filtered stream: the head of what the stage
    /// still yields. `None` means the stream is over — by exhaustion or by
    /// a filter's stop — and stays over.
    pub fn next(&mut self) -> (r: Option<VCFData>)
        requires
            old(self).wf(),
        ensures
            final(self).wf(),
            final(self).lines == old(self).lines,
            final(self).has_format == old(self).has_format,
            match r {
                Some(d) => rec_wf(d@) && old(self).emitted_from() == seq![d@]
                    + final(self).emitted_from() && final(self).pos > old(self).pos,
                None => old(self).emitted_from() == Seq::<RecordModel>::empty()
                    && final(self).pos == final(self).lines@.len(),
            },
    {
        loop
            invariant
                self.wf(),
                self.lines == old(self).lines,
                self.has_format == old(self).has_format,
                self.pos >= old(self).pos,
                old(self).emitted_from() == self.emitted_from(),
            decreases self.lines@.len() - self.pos,
        {
            if self.pos == self.lines.len() {
                return None;
            }
            let ghost pre = *self;
            let line = clone_bytes(&self.lines[self.pos]);
            let d = VCFData::from_line(line, self.has_format);
            proof {
                assert(d@ == record_of(seq_views(pre.lines@)[pre.pos as int], pre.has_format));
            }
            self.pos = self.pos + 1;
            let a = apply_filters(&mut self.filters, d);
            match a {
                DataAction::Data(d2) => {
                    return Some(d2);
                },
                DataAction::Ignore => {},
                DataAction::Stop => {
                    let n = self.lines.len();
                    self.pos = n;
                    return None;
                },
            }
        }
    }
}

impl MetadataStage {
    /// Runs the whole staged protocol: metadata, individuals, and the data
    /// stage handle, in one move.
    pub fn unfold(self) -> (r: Result<StreamUnfolded, VcfError>)
        requires
            self.pos <= self.lines@.len(),
            steps_wf(steps_model(self.filters@)),
        ensures
            r is Ok <==> {
                let ls = seq_views(self.lines@);
                let hp = header_pos(ls, self.pos as int);
                self.pos < ls.len() && hp < ls.len() && header_individuals(ls[hp]).len() > 0
            },
            r is Err ==> r->Err_0 == {
                let ls = seq_views(self.lines@);
                let hp = header_pos(ls, self.pos as int);
                if self.pos >= ls.len() {
                    VcfError::EmptyStream
                } else if hp >= ls.len() {
                    VcfError::MetadataOnly
                } else {
                    VcfError::NoIndividuals
                }
            },
            r is Ok ==> {
                let ls = seq_views(self.lines@);
                let hp = header_pos(ls, self.pos as int);
                let hdr = ls[hp];
                let fr = filters_individuals(
                    steps_model(self.filters@),
                    0,
                    header_individuals(hdr),
                );
                &&& pair_views(r->Ok_0.metadata@) == meta_pairs(ls, self.pos as int)
                &&& seq_views(r->Ok_0.individuals@) == fr.1
                &&& r->Ok_0.stream.lines == self.lines
                &&& r->Ok_0.stream.pos == hp + 1
                &&& r->Ok_0.stream.has_format == header_has_format(hdr)
                &&& steps_model(r->Ok_0.stream.filters@) == fr.0
                &&& r->Ok_0.stream.wf()
            },
    {
        let mut metadata: Vec<(Vec<u8>, Vec<u8>)> = Vec::new();
        let mut individuals: Vec<Vec<u8>> = Vec::new();
        let ghost ls = seq_views(self.lines@);
        let ghost pos0 = self.pos as int;
        proof {
            assert(pair_views(metadata@) =~= Seq::<(Seq<u8>, Seq<u8>)>::empty());
        }
        let stage = match self.read_metadata(&mut metadata) {
            Ok(st) => st,
            Err(e) => {
                return Err(e);
            },
        };
        proof {
            assert(pair_views(metadata@) =~= meta_pairs(ls, pos0));
        }
        let stream = match stage.read_individuals(&mut individuals) {
            Ok(st) => st,
            Err(e) => {
                return Err(e);
            },
        };
        proof {
            assert(seq_views(individuals@) =~= filters_individuals(
                steps_model(self.filters@),
                0,
                header_individuals(ls[header_pos(ls, pos0)]),
            ).1);
        }
        Ok(StreamUnfolded { metadata, individuals, stream })
    }
}

/// Law: with an identifier-subset filter of K targets anywhere in the
/// chain, and whatever other filters stand around it, the stream emits at
/// most K minus the already-matched count more records, however long the
/// input is: every emitted record raises that filter's count, and at K
/// the filter stops the stream at once.
pub proof fn lemma_poly_filter_cap(
    lines: Seq<Seq<u8>>,
    pos: int,
    has_format: bool,
    fs: Seq<StepModel>,
    j: int,
)
    requires
        steps_wf(fs),
        0 <= j < fs.len(),
        crate::filter::is_poly(fs[j]),
    ensures
        emitted(lines, pos, has_format, fs).len() + crate::filter::poly_count(fs[j])
            <= crate::filter::poly_cap(fs[j]),
    decreases lines.len() - pos,
{
    if 0 <= pos < lines.len() {
        let m = record_of(lines[pos], has_format);
        crate::filter::lemma_apply_poly(fs, 0, m, j);
        let fs2 = apply_filters_from(fs, 0, m).0;
        match apply_filters_from(fs, 0, m).1 {
            ActionModel::Data(m2) => {
                lemma_poly_filter_cap(lines, pos + 1, has_format, fs2, j);
            },
            ActionModel::Ignore => {
                lemma_poly_filter_cap(lines, pos + 1, has_format, fs2, j);
            },
            ActionModel::Stop => {},
        }
    }
}

} // verus!
