use vcf_capacity::VcfError;
use vcf_capacity::dosage::{DosageCache, process_variant};
use vcf_capacity::population::Population;
use vcf_capacity::ratio::Ratio;

fn bv(s: &str) -> Vec<u8> {
    s.as_bytes().to_vec()
}

#[test]
fn genotype_decode_exact_values() {
    let mut cache = DosageCache::new();
    assert!(process_variant(&mut cache, &bv("0|0")).eq_value(Ratio::new(0, 1)));
    assert!(process_variant(&mut cache, &bv("1|0")).eq_value(Ratio::new(1, 2)));
    assert!(process_variant(&mut cache, &bv("1/1")).eq_value(Ratio::new(1, 1)));
    assert!(process_variant(&mut cache, &bv("0/1/1")).eq_value(Ratio::new(2, 3)));
    assert!(process_variant(&mut cache, &bv("")).eq_value(Ratio::new(0, 1)));
    assert!(process_variant(&mut cache, &bv(":0|1")).eq_value(Ratio::new(0, 1)));
    assert!(process_variant(&mut cache, &bv("1|0:DP=3")).eq_value(Ratio::new(1, 2)));
}

#[test]
fn decode_cache_hit_does_not_rederive() {
    let mut cache = DosageCache::new();
    assert_eq!(cache.misses, 0);
    let first = process_variant(&mut cache, &bv("1|0"));
    assert_eq!(cache.misses, 1);
    let second = process_variant(&mut cache, &bv("1|0"));
    assert_eq!(cache.misses, 1);
    assert!(first.eq_value(second));
    process_variant(&mut cache, &bv("0|0"));
    assert_eq!(cache.misses, 2);
}

#[test]
fn population_lookup_and_sentinel() {
    let lines = vec![
        bv("HG00096 EUR"),
        bv("# a comment line"),
        bv(""),
        bv("HG00097\tAFR"),
    ];
    let pop = Population::parse(&lines).unwrap();
    assert_eq!(pop.group(&bv("HG00096")), bv("EUR"));
    assert_eq!(pop.group(&bv("HG00097")), bv("AFR"));
    assert_eq!(pop.group(&bv("HG99999")), bv("???"));
    assert!(pop.has_individual(&bv("HG00096")));
    assert!(!pop.has_individual(&bv("HG99999")));
    assert_eq!(pop.individuals(), vec![bv("HG00096"), bv("HG00097")]);
    assert_eq!(
        pop.labels(&vec![bv("HG00097"), bv("HG00000")]),
        vec![bv("AFR"), bv("???")]
    );
}

#[test]
fn population_rejects_one_field_line() {
    let lines = vec![bv("HG00096")];
    assert_eq!(
        Population::parse(&lines).unwrap_err(),
        VcfError::InvalidFormat(0)
    );
}

#[test]
fn population_rejects_three_field_line() {
    let lines = vec![bv("x y"), bv("a b c")];
    assert_eq!(
        Population::parse(&lines).unwrap_err(),
        VcfError::InvalidFormat(1)
    );
}

#[test]
fn population_insert_replaces_and_remove_forgets() {
    let mut pop = Population::new();
    pop.add_individual(bv("i1"), bv("A"));
    pop.add_individual(bv("i1"), bv("B"));
    assert_eq!(pop.group(&bv("i1")), bv("B"));
    pop.remove_individual(&bv("i1"));
    assert_eq!(pop.group(&bv("i1")), bv("???"));
    assert_eq!(pop.groups().len(), 0);
    assert_eq!(pop.items().len(), 0);
}
