use vcf_capacity::VcfError;
use vcf_capacity::capacity::{compute_capacity, compute_capacity_with_partitions, Partition};
use vcf_capacity::classifier::PredictorJoaoFactory;
use vcf_capacity::dosage::DosageCache;
use vcf_capacity::filter::{FilterStep, IndividualsFilter, Pipe, PolymorphismFilter};
use vcf_capacity::population::Population;
use vcf_capacity::predict::predict_with_partition;
use vcf_capacity::ratio::Ratio;
use vcf_capacity::stream::from_text_stream;
use vcf_capacity::utils::{histogram, split};

fn bv(s: &str) -> Vec<u8> {
    s.as_bytes().to_vec()
}

fn tiny_stream() -> Vec<Vec<u8>> {
    vec![
        bv("##source=test"),
        bv("##ref=x"),
        bv("#CHROM\tPOS\tID\tREF\tALT\tQUAL\tFILTER\tINFO\tFORMAT\ti1\ti2\ti3\ti4"),
        bv("1\t1\tvarA\tA\tG\t.\t.\t.\tGT\t0|0\t0|0\t1|1\t1|1"),
        bv("1\t2\tvarB\tA\tG\t.\t.\t.\tGT\t0|1\t0|1\t0|1\t0|1"),
    ]
}

#[test]
fn staged_reader_unfolds_metadata_individuals_and_records() {
    let unfolded = from_text_stream(tiny_stream()).unfold().unwrap();
    assert_eq!(
        unfolded.metadata,
        vec![(bv("source"), bv("test")), (bv("ref"), bv("x"))]
    );
    assert_eq!(
        unfolded.individuals,
        vec![bv("i1"), bv("i2"), bv("i3"), bv("i4")]
    );
    let mut st = unfolded.stream;
    let a = st.next().unwrap();
    assert_eq!(a.identifier(), bv("varA"));
    let b = st.next().unwrap();
    assert_eq!(b.identifier(), bv("varB"));
    assert!(st.next().is_none());
}

#[test]
fn stream_errors_have_their_own_causes() {
    assert_eq!(
        from_text_stream(vec![]).unfold().unwrap_err(),
        VcfError::EmptyStream
    );
    assert_eq!(
        from_text_stream(vec![bv("##k=v")]).unfold().unwrap_err(),
        VcfError::MetadataOnly
    );
    assert_eq!(
        from_text_stream(vec![bv("CHROM\tPOS\tID\tREF\tALT\tQUAL\tFILTER")])
            .unfold()
            .unwrap_err(),
        VcfError::NoIndividuals
    );
}

#[test]
fn classifier_margin_decides_or_abstains() {
    let pairs = vec![
        (Ratio::new(0, 1), bv("A")),
        (Ratio::new(0, 1), bv("A")),
        (Ratio::new(1, 1), bv("B")),
    ];
    let sharp = PredictorJoaoFactory { threshold: Ratio::new(0, 1) }
        .build(&pairs)
        .unwrap();
    assert_eq!(sharp.predict(Ratio::new(1, 10)).unwrap(), Some(bv("A")));
    let cautious = PredictorJoaoFactory { threshold: Ratio::new(6, 10) }
        .build(&pairs)
        .unwrap();
    assert_eq!(cautious.predict(Ratio::new(1, 2)).unwrap(), None);
}

#[test]
fn capacity_scores_correlated_and_uncorrelated_variants() {
    let unfolded = from_text_stream(tiny_stream()).unfold().unwrap();
    let labels = vec![bv("X"), bv("X"), bv("Y"), bv("Y")];
    let partitions = vec![Partition { train: vec![0, 2], target: vec![1, 3] }];
    let mut cache = DosageCache::new();
    let rows = compute_capacity_with_partitions(
        unfolded.stream,
        &labels,
        &partitions,
        Ratio::new(0, 1),
        &mut cache,
    )
    .unwrap();
    assert_eq!(rows.len(), 2);
    assert_eq!(rows[0].identifier, bv("varA"));
    assert!(rows[0].mean.eq_value(Ratio::new(1, 1)));
    assert!(rows[0].variance.is_none());
    assert_eq!(rows[1].identifier, bv("varB"));
    assert!(rows[1].mean.eq_value(Ratio::new(0, 1)));
}

#[test]
fn capacity_variance_is_zero_over_identical_repeats() {
    let unfolded = from_text_stream(tiny_stream()).unfold().unwrap();
    let labels = vec![bv("X"), bv("X"), bv("Y"), bv("Y")];
    let p1 = Partition { train: vec![0, 2], target: vec![1, 3] };
    let p2 = Partition { train: vec![0, 2], target: vec![1, 3] };
    let mut cache = DosageCache::new();
    let rows = compute_capacity_with_partitions(
        unfolded.stream,
        &labels,
        &vec![p1, p2],
        Ratio::new(0, 1),
        &mut cache,
    )
    .unwrap();
    assert!(rows[0].mean.eq_value(Ratio::new(1, 1)));
    assert!(rows[0].variance.unwrap().eq_value(Ratio::new(0, 1)));
}

#[test]
fn capacity_needs_two_trained_labels() {
    let unfolded = from_text_stream(tiny_stream()).unfold().unwrap();
    let labels = vec![bv("X"), bv("X"), bv("X"), bv("X")];
    let partitions = vec![Partition { train: vec![0, 1], target: vec![2, 3] }];
    let mut cache = DosageCache::new();
    let e = compute_capacity_with_partitions(
        unfolded.stream,
        &labels,
        &partitions,
        Ratio::new(0, 1),
        &mut cache,
    )
    .unwrap_err();
    assert_eq!(e, VcfError::TooFewLabels);
}

#[test]
fn capacity_on_empty_input_reports_empty_stream() {
    let pop = Population::new();
    let mut cache = DosageCache::new();
    let e = compute_capacity(
        from_text_stream(vec![]),
        &pop,
        1,
        Ratio::new(1, 2),
        Ratio::new(0, 1),
        &mut cache,
    )
    .unwrap_err();
    assert_eq!(e, VcfError::EmptyStream);
}

fn run_prediction() -> Vec<(Vec<u8>, Vec<u8>, Option<Vec<u8>>)> {
    let unfolded = from_text_stream(tiny_stream()).unfold().unwrap();
    let labels = vec![bv("X"), bv("X"), bv("Y"), bv("Y")];
    let individuals = unfolded.individuals;
    let partition = Partition { train: vec![0, 2], target: vec![1, 3] };
    let mut cache = DosageCache::new();
    let rows = predict_with_partition(
        unfolded.stream,
        &individuals,
        &labels,
        &partition,
        Ratio::new(0, 1),
        Ratio::new(0, 1),
        &mut cache,
    )
    .unwrap();
    rows.into_iter()
        .map(|r| (r.individual, r.true_label, r.call))
        .collect()
}

#[test]
fn prediction_calls_held_out_individuals() {
    let rows = run_prediction();
    assert_eq!(rows.len(), 2);
    assert_eq!(rows[0].0, bv("i2"));
    assert_eq!(rows[0].1, bv("X"));
    assert_eq!(rows[0].2, Some(bv("X")));
    assert_eq!(rows[1].0, bv("i4"));
    assert_eq!(rows[1].1, bv("Y"));
    assert_eq!(rows[1].2, Some(bv("Y")));
}

#[test]
fn prediction_is_idempotent_for_a_fixed_partition() {
    assert_eq!(run_prediction(), run_prediction());
}

#[test]
fn prediction_with_large_min_dist_abstains() {
    let unfolded = from_text_stream(tiny_stream()).unfold().unwrap();
    let labels = vec![bv("X"), bv("X"), bv("Y"), bv("Y")];
    let individuals = unfolded.individuals;
    let partition = Partition { train: vec![0, 2], target: vec![1, 3] };
    let mut cache = DosageCache::new();
    let rows = predict_with_partition(
        unfolded.stream,
        &individuals,
        &labels,
        &partition,
        Ratio::new(0, 1),
        Ratio::new(5, 1),
        &mut cache,
    )
    .unwrap();
    assert_eq!(rows[0].call, None);
    assert_eq!(rows[1].call, None);
}

fn many_variant_stream() -> Vec<Vec<u8>> {
    let mut lines = vec![bv("CHROM\tPOS\tID\tREF\tALT\tQUAL\tFILTER\tINFO\tFORMAT\ti1\ti2")];
    for k in 1..=6 {
        lines.push(bv(&format!("1\t{k}\trs{k}\tA\tG\t.\t.\t.\tGT\t0|0\t1|1")));
    }
    lines
}

#[test]
fn polymorphism_filter_emits_exactly_k_and_stops() {
    let stream = from_text_stream(many_variant_stream());
    let f = PolymorphismFilter::new(vec![bv("rs2"), bv("rs4")]);
    let piped = Pipe::new(stream).pipe(FilterStep::Polymorphism(f)).stream();
    let unfolded = piped.unfold().unwrap();
    let mut st = unfolded.stream;
    assert_eq!(st.next().unwrap().identifier(), bv("rs2"));
    assert_eq!(st.next().unwrap().identifier(), bv("rs4"));
    assert!(st.next().is_none());
    assert!(st.next().is_none());
}

#[test]
fn stacked_filters_narrow_columns_and_cap_the_stream() {
    let stream = from_text_stream(many_variant_stream());
    let keep = IndividualsFilter::new(vec![bv("i2")]);
    let cap = PolymorphismFilter::new(vec![bv("rs1"), bv("rs3"), bv("rs5")]);
    let piped = Pipe::new(stream)
        .pipe(FilterStep::Individuals(keep))
        .pipe(FilterStep::Polymorphism(cap))
        .stream();
    let unfolded = piped.unfold().unwrap();
    assert_eq!(unfolded.individuals, vec![bv("i2")]);
    let mut st = unfolded.stream;
    let mut ids = Vec::new();
    let mut genotypes = Vec::new();
    while let Some(d) = st.next() {
        ids.push(d.identifier());
        genotypes.push(d.genotypes());
    }
    assert_eq!(ids, vec![bv("rs1"), bv("rs3"), bv("rs5")]);
    for g in genotypes {
        assert_eq!(g, vec![bv("1|1")]);
    }
}

#[test]
fn histogram_counts_in_first_seen_order() {
    let items = vec![bv("a"), bv("b"), bv("a"), bv("c"), bv("a"), bv("b")];
    let h = histogram(&items);
    assert_eq!(
        h,
        vec![(bv("a"), 3u64), (bv("b"), 2u64), (bv("c"), 1u64)]
    );
}

#[test]
fn split_partitions_the_values() {
    let items: Vec<u64> = (0..10).collect();
    let (train, target) = split(items, 3);
    assert_eq!(train.len(), 7);
    assert_eq!(target.len(), 3);
    let mut all: Vec<u64> = train.into_iter().chain(target.into_iter()).collect();
    all.sort();
    assert_eq!(all, (0..10).collect::<Vec<u64>>());
}

#[test]
fn metadata_line_without_equals_keeps_whole_key() {
    let lines = vec![
        bv("##fileformat"),
        bv("CHROM\tPOS\tID\tREF\tALT\tQUAL\tFILTER\tINFO\tFORMAT\ti1"),
    ];
    let unfolded = from_text_stream(lines).unfold().unwrap();
    assert_eq!(unfolded.metadata, vec![(bv("fileformat"), bv(""))]);
    assert_eq!(unfolded.individuals, vec![bv("i1")]);
}

#[test]
fn randomized_capacity_fails_loudly_on_single_label_training() {
    let lines = vec![
        bv("CHROM\tPOS\tID\tREF\tALT\tQUAL\tFILTER\tINFO\tFORMAT\ti1\ti2"),
        bv("1\t1\trs1\tA\tG\t.\t.\t.\tGT\t0|0\t1|1"),
    ];
    let mut pop = Population::new();
    pop.add_individual(bv("i1"), bv("X"));
    pop.add_individual(bv("i2"), bv("Y"));
    let mut cache = DosageCache::new();
    // target size is one of two individuals, so training always sees one label
    let e = compute_capacity(
        from_text_stream(lines),
        &pop,
        1,
        Ratio::new(1, 2),
        Ratio::new(0, 1),
        &mut cache,
    )
    .unwrap_err();
    assert_eq!(e, VcfError::TooFewLabels);
}

#[test]
fn randomized_capacity_with_empty_target_scores_zero() {
    let mut pop = Population::new();
    pop.add_individual(bv("i1"), bv("X"));
    pop.add_individual(bv("i2"), bv("X"));
    pop.add_individual(bv("i3"), bv("Y"));
    pop.add_individual(bv("i4"), bv("Y"));
    let mut cache = DosageCache::new();
    // a split ratio this small leaves the target side empty: training sees
    // every individual and each variant scores zero over zero targets
    let rows = compute_capacity(
        from_text_stream(tiny_stream()),
        &pop,
        2,
        Ratio::new(1, 10),
        Ratio::new(0, 1),
        &mut cache,
    )
    .unwrap();
    assert_eq!(rows.len(), 2);
    assert!(rows[0].mean.eq_value(Ratio::new(0, 1)));
    assert!(rows[0].variance.unwrap().eq_value(Ratio::new(0, 1)));
}

#[test]
fn training_overflow_is_reported() {
    let pairs = vec![
        (Ratio::new(u64::MAX - 1, 3), bv("A")),
        (Ratio::new(u64::MAX - 1, 5), bv("A")),
    ];
    let e = PredictorJoaoFactory { threshold: Ratio::new(0, 1) }
        .build(&pairs)
        .unwrap_err();
    assert_eq!(e, VcfError::NumericOverflow);
}
