//! One variant row: an owned line plus one byte range per tab-separated
//! column, in file order: chromosome, position, identifier, reference,
//! alternates, quality, filter, info, format, then one genotype column per
//! individual.
//!
//! Two header layouts exist. With a literal FORMAT column, a data row's
//! ranges are exactly its tab split. Without one, an empty format range is
//! synthesized at the format position, so the column indices stay valid in
//! both layouts.

use vstd::prelude::*;
use crate::bytes::{ranges_from, lemma_ranges_from, split_ranges, copy_range, seq_views};

verus! {

/// Tab byte.
pub const TAB: u8 = 9;
/// Comma byte.
pub const COMMA: u8 = 44;
/// Index of the format column; genotype columns start right after it.
pub const FORMAT_COLUMN: usize = 8;

/// Mathematical model of a record.
pub ghost struct RecordModel {
    pub line: Seq<u8>,
    pub ranges: Seq<(usize, usize)>,
}

/// Every range is a valid subrange of the line.
pub open spec fn rec_wf(m: RecordModel) -> bool {
    &&& m.line.len() <= usize::MAX
    &&& forall|i: int| 0 <= i < m.ranges.len()
        ==> (#[trigger] m.ranges[i]).0 <= m.ranges[i].1 <= m.line.len()
}

/// Content of column `i`.
pub open spec fn rec_field(m: RecordModel, i: int) -> Seq<u8> {
    m.line.subrange(m.ranges[i].0 as int, m.ranges[i].1 as int)
}

/// The genotype columns, i.e. every column after the format column.
pub open spec fn rec_genotypes(m: RecordModel) -> Seq<Seq<u8>> {
    if m.ranges.len() < 9 {
        Seq::empty()
    } else {
        Seq::new((m.ranges.len() - 9) as nat, |k: int| rec_field(m, 9 + k))
    }
}

/// The ranges of a raw data line under the given header layout: its tab
/// split, with an empty format range synthesized when the layout has no
/// format column of its own.
pub open spec fn layout_ranges(line: Seq<u8>, has_format: bool) -> Seq<(usize, usize)> {
    let rs = ranges_from(line, 0, TAB);
    if !has_format && rs.len() >= 9 {
        rs.take(8) + seq![(rs[8].0, rs[8].0)] + rs.skip(8)
    } else {
        rs
    }
}

/// The record a raw data line tokenizes to under the given header layout.
pub open spec fn record_of(line: Seq<u8>, has_format: bool) -> RecordModel {
    RecordModel { line, ranges: layout_ranges(line, has_format) }
}

/// The model a `keep` of the given genotype-column indices produces: the
/// fixed leading columns, then exactly the chosen genotype columns, in the
/// order the indices give them.
pub open spec fn keep_model(m: RecordModel, idxs: Seq<u64>) -> RecordModel {
    RecordModel {
        line: m.line,
        ranges: m.ranges.take(9) + idxs.map_values(|i: u64| m.ranges[9 + i as int]),
    }
}

/// A VCF data line.
pub struct VCFData {
    line: Vec<u8>,
    ranges: Vec<(usize, usize)>,
}

impl View for VCFData {
    type V = RecordModel;

    closed spec fn view(&self) -> RecordModel {
        RecordModel { line: self.line@, ranges: self.ranges@ }
    }
}

impl VCFData {
    /// Builds a record from its parts.
    pub fn new(line: Vec<u8>, ranges: Vec<(usize, usize)>) -> (r: VCFData)
        requires
            forall|i: int| 0 <= i < ranges@.len()
                ==> (#[trigger] ranges@[i]).0 <= ranges@[i].1 <= line@.len(),
        ensures
            r@ == (RecordModel { line: line@, ranges: ranges@ }),
            rec_wf(r@),
    {
        let _len = line.len();
        VCFData { line, ranges }
    }

    /// Tokenizes one raw data line (without its trailing newline) under the
    /// given header layout.
    pub fn from_line(line: Vec<u8>, has_format: bool) -> (r: VCFData)
        ensures
            r@ == record_of(line@, has_format),
            rec_wf(r@),
    {
        let _len = line.len();
        proof {
            lemma_ranges_from(line@, 0, TAB);
        }
        let mut ranges = split_ranges(&line, TAB);
        if !has_format && ranges.len() >= 9 {
            let s = ranges[8].0;
            ranges.insert(8, (s, s));
            proof {
                let rs = ranges_from(line@, 0, TAB);
                assert(ranges@ =~= rs.take(8) + seq![(rs[8].0, rs[8].0)] + rs.skip(8));
            }
        }
        let r = VCFData { line, ranges };
        proof {
            assert(rec_wf(r@));
        }
        r
    }

    /// Number of columns.
    pub fn num_fields(&self) -> (n: usize)
        ensures
            n == self@.ranges.len(),
    {
        self.ranges.len()
    }

    /// Content of column `index`, as an owned copy.
    pub fn field(&self, index: usize) -> (r: Vec<u8>)
        requires
            rec_wf(self@),
            index < self@.ranges.len(),
        ensures
            r@ == rec_field(self@, index as int),
    {
        let (s, e) = self.ranges[index];
        copy_range(&self.line, s, e)
    }

    /// The chromosome column.
    pub fn chromosome(&self) -> (r: Vec<u8>)
        requires
            rec_wf(self@),
            self@.ranges.len() >= 1,
        ensures
            r@ == rec_field(self@, 0),
    {
        self.field(0)
    }

    /// The position column.
    pub fn position(&self) -> (r: Vec<u8>)
        requires
            rec_wf(self@),
            self@.ranges.len() >= 2,
        ensures
            r@ == rec_field(self@, 1),
    {
        self.field(1)
    }

    /// The variant-identifier column.
    pub fn identifier(&self) -> (r: Vec<u8>)
        requires
            rec_wf(self@),
            self@.ranges.len() >= 3,
        ensures
            r@ == rec_field(self@, 2),
    {
        self.field(2)
    }

    /// The reference-allele column.
    pub fn reference(&self) -> (r: Vec<u8>)
        requires
            rec_wf(self@),
            self@.ranges.len() >= 4,
        ensures
            r@ == rec_field(self@, 3),
    {
        self.field(3)
    }

    /// The alternate alleles: the alternate column split on commas.
    pub fn alternatives(&self) -> (r: Vec<Vec<u8>>)
        requires
            rec_wf(self@),
            self@.ranges.len() >= 5,
        ensures
            seq_views(r@) == comma_fields(rec_field(self@, 4)),
    {
        let f = self.field(4);
        let _fl = f.len();
        proof {
            lemma_ranges_from(f@, 0, COMMA);
        }
        let rs = split_ranges(&f, COMMA);
        let mut out: Vec<Vec<u8>> = Vec::new();
        let mut i: usize = 0;
        while i < rs.len()
            invariant
                i <= rs@.len(),
                rs@ == ranges_from(f@, 0, COMMA),
                forall|k: int| 0 <= k < rs@.len()
                    ==> (#[trigger] rs@[k]).0 <= rs@[k].1 <= f@.len(),
                out@.len() == i,
                forall|k: int| 0 <= k < i ==> seq_views(out@)[k] == comma_fields(f@)[k],
            decreases rs@.len() - i,
        {
            let (s, e) = rs[i];
            out.push(copy_range(&f, s, e));
            i = i + 1;
        }
        proof {
            assert(seq_views(out@) =~= comma_fields(rec_field(self@, 4)));
        }
        out
    }

    /// The quality column.
    pub fn quality(&self) -> (r: Vec<u8>)
        requires
            rec_wf(self@),
            self@.ranges.len() >= 6,
        ensures
            r@ == rec_field(self@, 5),
    {
        self.field(5)
    }

    /// The filter column.
    pub fn filter(&self) -> (r: Vec<u8>)
        requires
            rec_wf(self@),
            self@.ranges.len() >= 7,
        ensures
            r@ == rec_field(self@, 6),
    {
        self.field(6)
    }

    /// The info column.
    pub fn info(&self) -> (r: Vec<u8>)
        requires
            rec_wf(self@),
            self@.ranges.len() >= 8,
        ensures
            r@ == rec_field(self@, 7),
    {
        self.field(7)
    }

    /// The format column.
    pub fn format(&self) -> (r: Vec<u8>)
        requires
            rec_wf(self@),
            self@.ranges.len() >= 9,
        ensures
            r@ == rec_field(self@, FORMAT_COLUMN as int),
    {
        self.field(FORMAT_COLUMN)
    }

    /// The genotype column of individual `index`.
    pub fn genotype(&self, index: usize) -> (r: Vec<u8>)
        requires
            rec_wf(self@),
            9 + index < self@.ranges.len(),
        ensures
            r@ == rec_field(self@, 9 + index),
            r@ == rec_genotypes(self@)[index as int],
    {
        let n = self.ranges.len();
        self.field(9 + index)
    }

    /// All genotype columns, in order, as owned copies.
    pub fn genotypes(&self) -> (r: Vec<Vec<u8>>)
        requires
            rec_wf(self@),
        ensures
            seq_views(r@) == rec_genotypes(self@),
    {
        let mut out: Vec<Vec<u8>> = Vec::new();
        if self.ranges.len() < 9 {
            proof {
                assert(seq_views(out@) =~= rec_genotypes(self@));
            }
            return out;
        }
        let mut i: usize = 9;
        while i < self.ranges.len()
            invariant
                rec_wf(self@),
                9 <= i <= self@.ranges.len(),
                out@.len() == i - 9,
                forall|k: int| 0 <= k < i - 9 ==> seq_views(out@)[k] == rec_field(self@, 9 + k),
            decreases self@.ranges.len() - i,
        {
            let ghost prev = out@;
            let (s, e) = self.ranges[i];
            out.push(copy_range(&self.line, s, e));
            proof {
                assert(seq_views(out@) =~= seq_views(prev).push(rec_field(self@, i as int)));
            }
            i = i + 1;
        }
        proof {
            assert(seq_views(out@) =~= rec_genotypes(self@));
        }
        out
    }

    /// Column narrowing: the same owned line, the fixed leading columns, and
    /// exactly the chosen genotype columns in the given order.
    pub fn keep(self, indices: &Vec<u64>) -> (r: VCFData)
        requires
            rec_wf(self@),
            self@.ranges.len() >= 9,
            forall|k: int| 0 <= k < indices@.len()
                ==> 9 + #[trigger] indices@[k] < self@.ranges.len(),
        ensures
            r@ == keep_model(self@, indices@),
            rec_wf(r@),
    {
        let ghost m = self@;
        let _nr = self.ranges.len();
        let mut ranges: Vec<(usize, usize)> = Vec::new();
        let mut i: usize = 0;
        while i < 9
            invariant
                rec_wf(m),
                m == self@,
                m.ranges.len() >= 9,
                i <= 9,
                ranges@ == m.ranges.take(i as int),
            decreases 9 - i,
        {
            ranges.push(self.ranges[i]);
            proof {
                assert(ranges@ =~= m.ranges.take(i + 1));
            }
            i = i + 1;
        }
        let mut j: usize = 0;
        while j < indices.len()
            invariant
                rec_wf(m),
                m == self@,
                m.ranges.len() >= 9,
                j <= indices@.len(),
                m.ranges.len() <= usize::MAX,
                forall|k: int| 0 <= k < indices@.len()
                    ==> 9 + #[trigger] indices@[k] < m.ranges.len(),
                ranges@ == m.ranges.take(9)
                    + indices@.take(j as int).map_values(|ix: u64| m.ranges[9 + ix as int]),
            decreases indices@.len() - j,
        {
            let ix = indices[j];
            proof {
                assert(9 + indices@[j as int] < m.ranges.len());
            }
            ranges.push(self.ranges[9 + ix as usize]);
            proof {
                assert(ranges@ =~= m.ranges.take(9)
                    + indices@.take(j + 1).map_values(|ix: u64| m.ranges[9 + ix as int]));
            }
            j = j + 1;
        }
        proof {
            assert(indices@.take(indices@.len() as int) == indices@);
        }
        VCFData { line: self.line, ranges }
    }
}

/// The comma split of a byte string, as field contents.
pub open spec fn comma_fields(s: Seq<u8>) -> Seq<Seq<u8>> {
    ranges_from(s, 0, COMMA).map_values(|rg: (usize, usize)| s.subrange(rg.0 as int, rg.1 as int))
}

/// Law: tokenizing reproduces the exact original substrings for every
/// column, in both header layouts. The tab split of the line gives the
/// base columns; with a format column of its own the record's columns are
/// exactly those, and without one the record has the same columns with an
/// empty synthesized format column in between, the fixed columns before
/// it and the genotype columns after it unmoved in content.
pub proof fn lemma_tokenize_round_trip(line: Seq<u8>, has_format: bool)
    requires
        line.len() <= usize::MAX,
    ensures
        ({
            let m = record_of(line, has_format);
            let base = ranges_from(line, 0, TAB);
            &&& (has_format || base.len() < 9 ==> m.ranges == base)
            &&& (!has_format && base.len() >= 9 ==> {
                &&& m.ranges.len() == base.len() + 1
                &&& (forall|i: int| 0 <= i < 8 ==> #[trigger] m.ranges[i] == base[i])
                &&& rec_field(m, 8).len() == 0
                &&& (forall|i: int| 9 <= i < m.ranges.len()
                    ==> #[trigger] m.ranges[i] == base[i - 1])
            })
            &&& forall|i: int| 0 <= i < m.ranges.len()
                ==> #[trigger] rec_field(m, i) == line.subrange(
                    m.ranges[i].0 as int,
                    m.ranges[i].1 as int,
                )
        }),
{
    lemma_ranges_from(line, 0, TAB);
    let m = record_of(line, has_format);
    let base = ranges_from(line, 0, TAB);
    if !has_format && base.len() >= 9 {
        assert(m.ranges == base.take(8) + seq![(base[8].0, base[8].0)] + base.skip(8));
        assert(forall|i: int| 0 <= i < 8 ==> #[trigger] m.ranges[i] == base[i]);
        assert(m.ranges[8] == (base[8].0, base[8].0));
        assert(forall|i: int| 9 <= i < m.ranges.len() ==> #[trigger] m.ranges[i] == base[i - 1]);
    }
}

/// Law: narrowing a record to a genotype-column index list puts the
/// genotype that stood at original index `idxs[k]` at new index `k` — for
/// any index subset, in any order.
pub proof fn lemma_keep_genotype(m: RecordModel, idxs: Seq<u64>, k: int)
    requires
        rec_wf(m),
        m.ranges.len() >= 9,
        forall|j: int| 0 <= j < idxs.len() ==> 9 + #[trigger] idxs[j] < m.ranges.len(),
        0 <= k < idxs.len(),
    ensures
        rec_genotypes(keep_model(m, idxs))[k] == rec_genotypes(m)[idxs[k] as int],
{
    let km = keep_model(m, idxs);
    assert(km.ranges.len() == 9 + idxs.len());
    assert(km.ranges[9 + k] == m.ranges[9 + idxs[k] as int]);
    assert(rec_genotypes(km)[k] == rec_field(km, 9 + k));
}

} // verus!
