use vcf_capacity::ratio::Ratio;
use vcf_capacity::record::VCFData;

fn bv(s: &str) -> Vec<u8> {
    s.as_bytes().to_vec()
}

#[test]
fn tokenize_with_format_round_trips_every_column() {
    let line = bv("1\t100\trs1\tA\tG,T\t50\tPASS\tDP=3\tGT\t0|0\t1|0");
    let d = VCFData::from_line(line, true);
    assert_eq!(d.num_fields(), 11);
    assert_eq!(d.chromosome(), bv("1"));
    assert_eq!(d.position(), bv("100"));
    assert_eq!(d.identifier(), bv("rs1"));
    assert_eq!(d.reference(), bv("A"));
    assert_eq!(d.alternatives(), vec![bv("G"), bv("T")]);
    assert_eq!(d.quality(), bv("50"));
    assert_eq!(d.filter(), bv("PASS"));
    assert_eq!(d.info(), bv("DP=3"));
    assert_eq!(d.format(), bv("GT"));
    assert_eq!(d.genotype(0), bv("0|0"));
    assert_eq!(d.genotype(1), bv("1|0"));
    assert_eq!(d.genotypes(), vec![bv("0|0"), bv("1|0")]);
}

#[test]
fn tokenize_without_format_synthesizes_empty_format_column() {
    let line = bv("1\t100\trs1\tA\tG\t50\tPASS\tDP=3\t0|0\t1|0");
    let d = VCFData::from_line(line, false);
    assert_eq!(d.num_fields(), 11);
    assert_eq!(d.chromosome(), bv("1"));
    assert_eq!(d.identifier(), bv("rs1"));
    assert_eq!(d.info(), bv("DP=3"));
    assert_eq!(d.format(), bv(""));
    assert_eq!(d.genotype(0), bv("0|0"));
    assert_eq!(d.genotype(1), bv("1|0"));
}

#[test]
fn keep_reorders_genotypes_by_retained_indices() {
    let line = bv("1\t1\trs9\tA\tG\t.\t.\t.\tGT\tg0\tg1\tg2");
    let d = VCFData::from_line(line, true);
    let kept = d.keep(&vec![2u64, 0u64]);
    assert_eq!(kept.num_fields(), 11);
    assert_eq!(kept.genotype(0), bv("g2"));
    assert_eq!(kept.genotype(1), bv("g0"));
    assert_eq!(kept.identifier(), bv("rs9"));
    assert_eq!(kept.genotypes(), vec![bv("g2"), bv("g0")]);
}

#[test]
fn keep_permutation_of_full_subset() {
    let line = bv("1\t1\trs0\tA\tG\t.\t.\t.\tGT\ta\tb\tc");
    let d = VCFData::from_line(line, true);
    let kept = d.keep(&vec![1u64, 2u64, 0u64]);
    assert_eq!(kept.genotypes(), vec![bv("b"), bv("c"), bv("a")]);
}

#[test]
fn exact_rational_arithmetic() {
    let half = Ratio::new(1, 2);
    let third = Ratio::new(1, 3);
    let s = half.add(third).unwrap();
    assert!(s.eq_value(Ratio::new(5, 6)));
    assert!(third.lt(half));
    assert!(half.le(Ratio::new(2, 4)));
    assert!(Ratio::new(2, 4).eq_value(half));
    let d = half.sub_abs(third).unwrap();
    assert!(d.eq_value(Ratio::new(1, 6)));
    let m = half.mul(third).unwrap();
    assert!(m.eq_value(Ratio::new(1, 6)));
    let q = half.div_count(2).unwrap();
    assert!(q.eq_value(Ratio::new(1, 4)));
}

#[test]
fn rational_overflow_is_reported() {
    let big = Ratio::new(u64::MAX, 3);
    let other = Ratio::new(u64::MAX, 5);
    assert!(big.add(other).is_none());
}
