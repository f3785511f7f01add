//! Genotype-to-dosage decoding, with a memo cache.
//!
//! The allele list of a raw genotype column is the text before the first
//! ':' (the whole text when there is none), split on '|' when one is
//! present, else on '/'. The dosage is the fraction of alleles whose text
//! is not exactly "0". An empty allele list is unparseable and decodes to
//! dosage zero, indistinguishable from an all-reference genotype.

use vstd::prelude::*;
use crate::bytes::{first_at, lemma_first_at, ranges_from, lemma_ranges_from, split_ranges,
    copy_range, find_byte_from};
use crate::ratio::{Ratio, rat_wf};

verus! {

/// Colon byte.
pub const COLON: u8 = 58;
/// Pipe byte.
pub const PIPE: u8 = 124;
/// Slash byte.
pub const SLASH: u8 = 47;
/// The digit zero.
pub const ZERO: u8 = 48;

/// The allele-list part of a raw genotype column.
pub open spec fn allele_part(s: Seq<u8>) -> Seq<u8> {
    let c = first_at(s, COLON);
    if c < s.len() {
        s.take(c as int)
    } else {
        s
    }
}

/// The allele separator of an allele list.
pub open spec fn allele_sep(p: Seq<u8>) -> u8 {
    if p.contains(PIPE) {
        PIPE
    } else {
        SLASH
    }
}

/// The alleles of a nonempty allele list.
pub open spec fn allele_fields(p: Seq<u8>) -> Seq<Seq<u8>> {
    ranges_from(p, 0, allele_sep(p)).map_values(
        |rg: (usize, usize)| p.subrange(rg.0 as int, rg.1 as int),
    )
}

/// How many fields are exactly the literal "0".
pub open spec fn zero_count(fields: Seq<Seq<u8>>) -> nat
    decreases fields.len(),
{
    if fields.len() == 0 {
        0
    } else {
        zero_count(fields.drop_last()) + (if fields.last() == seq![ZERO] {
            1nat
        } else {
            0nat
        })
    }
}

pub proof fn lemma_zero_count_le(fields: Seq<Seq<u8>>)
    ensures
        zero_count(fields) <= fields.len(),
    decreases fields.len(),
{
    if fields.len() > 0 {
        lemma_zero_count_le(fields.drop_last());
    }
}

/// The exact dosage of one raw genotype column: the count of non-reference
/// alleles over the allele count, and zero for an unparseable (empty) list.
pub open spec fn dosage_of(s: Seq<u8>) -> Ratio {
    let p = allele_part(s);
    if p.len() == 0 {
        Ratio { num: 0, den: 1 }
    } else {
        let fields = allele_fields(p);
        Ratio {
            num: (fields.len() - zero_count(fields)) as u64,
            den: fields.len() as u64,
        }
    }
}

/// A dosage is a well-formed fraction in [0, 1].
pub proof fn lemma_dosage_wf(s: Seq<u8>)
    requires
        s.len() < usize::MAX,
    ensures
        rat_wf(dosage_of(s)),
        dosage_of(s).num <= dosage_of(s).den,
{
    let p = allele_part(s);
    if p.len() > 0 {
        lemma_ranges_from(p, 0, allele_sep(p));
        lemma_zero_count_le(allele_fields(p));
    }
}

/// Decodes one raw genotype column from scratch.
fn decode_genotype(s: &Vec<u8>) -> (r: Ratio)
    requires
        s@.len() < usize::MAX,
    ensures
        r == dosage_of(s@),
        rat_wf(r),
{
    proof {
        assert(s@.skip(0) =~= s@);
    }
    let c = find_byte_from(s, 0, COLON);
    let p = copy_range(s, 0, c);
    proof {
        if c < s.len() {
            assert(p@ =~= allele_part(s@));
        } else {
            assert(p@ =~= s@);
        }
    }
    if p.len() == 0 {
        return Ratio::new(0, 1);
    }
    proof {
        assert(p@.skip(0) =~= p@);
    }
    let pipe_pos = find_byte_from(&p, 0, PIPE);
    let sep = if pipe_pos < p.len() {
        proof {
            assert(p@.contains(PIPE));
        }
        PIPE
    } else {
        proof {
            if p@.contains(PIPE) {
                let w = choose|w: int| 0 <= w < p@.len() && p@[w] == PIPE;
                assert(p@[w] != PIPE);
            }
        }
        SLASH
    };
    proof {
        lemma_ranges_from(p@, 0, sep);
    }
    let rs = split_ranges(&p, sep);
    let ghost fields = allele_fields(p@);
    let mut zc: usize = 0;
    let mut i: usize = 0;
    while i < rs.len()
        invariant
            i <= rs@.len(),
            zc <= i,
            rs@ == ranges_from(p@, 0, sep),
            sep == allele_sep(p@),
            fields == allele_fields(p@),
            fields.len() == rs@.len(),
            forall|k: int| 0 <= k < rs@.len()
                ==> (#[trigger] rs@[k]).0 <= rs@[k].1 <= p@.len(),
            zc == zero_count(fields.take(i as int)),
        decreases rs@.len() - i,
    {
        let (fs, fe) = rs[i];
        proof {
            assert(fields[i as int] == p@.subrange(fs as int, fe as int));
            assert(fields.take(i + 1).drop_last() =~= fields.take(i as int));
            assert(fields.take(i + 1).last() == fields[i as int]);
        }
        if fe - fs == 1 && p[fs] == ZERO {
            proof {
                assert(p@.subrange(fs as int, fe as int) =~= seq![ZERO]);
            }
            zc = zc + 1;
        } else {
            proof {
                if p@.subrange(fs as int, fe as int) == seq![ZERO] {
                    assert(p@.subrange(fs as int, fe as int).len() == 1);
                    assert(p@.subrange(fs as int, fe as int)[0] == ZERO);
                }
            }
        }
        i = i + 1;
    }
    proof {
        assert(fields.take(fields.len() as int) == fields);
        lemma_zero_count_le(fields);
    }
    Ratio::new((rs.len() - zc) as u64, rs.len() as u64)
}

/// The process-wide memo cache of decoded dosages, passed explicitly.
/// `misses` counts the decodes that had to derive from scratch.
pub struct DosageCache {
    pub entries: Vec<(Vec<u8>, Ratio)>,
    pub misses: u64,
}

impl DosageCache {
    /// Every cached value is the dosage of its key.
    pub closed spec fn wf(&self) -> bool {
        forall|i: int| 0 <= i < self.entries@.len()
            ==> (#[trigger] self.entries@[i]).1 == dosage_of(self.entries@[i].0@)
                && rat_wf(self.entries@[i].1)
    }

    /// Whether a raw text is already cached.
    pub closed spec fn has_key(&self, k: Seq<u8>) -> bool {
        exists|i: int| 0 <= i < self.entries@.len() && (#[trigger] self.entries@[i]).0@ == k
    }

    /// An empty cache.
    pub fn new() -> (c: DosageCache)
        ensures
            c.wf(),
            c.misses == 0,
            forall|k: Seq<u8>| !c.has_key(k),
    {
        DosageCache { entries: Vec::new(), misses: 0 }
    }
}

/// Decodes a raw genotype column through the cache: the exact dosage comes
/// back in every case, a hit leaves the cache untouched, and only a miss
/// derives from scratch and bumps `misses`.
pub fn process_variant(cache: &mut DosageCache, variant: &Vec<u8>) -> (r: Ratio)
    requires
        old(cache).wf(),
        variant@.len() < usize::MAX,
    ensures
        final(cache).wf(),
        r == dosage_of(variant@),
        rat_wf(r),
        final(cache).has_key(variant@),
        old(cache).has_key(variant@) ==> *final(cache) == *old(cache),
        !old(cache).has_key(variant@) ==> final(cache).misses == (if old(cache).misses
            < u64::MAX {
            (old(cache).misses + 1) as u64
        } else {
            old(cache).misses
        }),
{
    let n = cache.entries.len();
    let mut i: usize = 0;
    while i < n
        invariant
            cache.wf(),
            cache == old(cache),
            n == cache.entries@.len(),
            i <= n,
            forall|j: int| 0 <= j < i ==> (#[trigger] cache.entries@[j]).0@ != variant@,
        decreases n - i,
    {
        if crate::bytes::bytes_eq(&cache.entries[i].0, variant) {
            assert(cache.has_key(variant@));
            return cache.entries[i].1;
        }
        i = i + 1;
    }
    proof {
        if cache.has_key(variant@) {
            let j = choose|j: int| 0 <= j < cache.entries@.len()
                && (#[trigger] cache.entries@[j]).0@ == variant@;
            assert(cache.entries@[j].0@ != variant@);
        }
    }
    let d = decode_genotype(variant);
    let key = copy_range(variant, 0, variant.len());
    cache.entries.push((key, d));
    if cache.misses < u64::MAX {
        cache.misses = cache.misses + 1;
    }
    proof {
        assert(cache.entries@.last().0@ == variant@);
        assert(cache.has_key(variant@));
    }
    d
}

} // verus!
