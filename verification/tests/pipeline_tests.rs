use sbpc::bam::{normalize_count, BamProcessor, BamRecord, GenomicRange};
use sbpc::bayesian::{BayesianModel, GenomicPrior};
use sbpc::cli::Cli;
use sbpc::error::PipelineError;
use sbpc::genome::Genome;
use sbpc::peak_caller::PeakCaller;
use statrs::distribution::{Discrete, NegativeBinomial};

fn record(chrom: &str, pos: u32, unmapped: bool) -> BamRecord {
    BamRecord {
        chrom: chrom.to_string(),
        pos,
        unmapped,
    }
}

fn test_cli(step: u32, mdist: u32, minreads: u32, threshold_ppm: u32, minwidth: u32) -> Cli {
    Cli {
        bam: "treatment.bam".to_string(),
        control: None,
        chromsize: None,
        mdist,
        minreads,
        posterior_threshold_ppm: threshold_ppm,
        step,
        minwidth,
        broad: false,
        verbose: false,
        metrics_file: false,
    }
}

fn nb_ln_pmf(r: f64, p: f64, count: u64) -> f64 {
    match NegativeBinomial::new(r, p) {
        Ok(dist) => dist.ln_pmf(count),
        Err(_) => f64::NEG_INFINITY,
    }
}

fn ln_add_exp(a: f64, b: f64) -> f64 {
    let m = a.max(b);
    if m == f64::NEG_INFINITY {
        m
    } else {
        m + ((a - m).exp() + (b - m).exp()).ln()
    }
}

fn posterior_ppm(count: u64, prior: &GenomicPrior) -> u32 {
    let r = prior.r_num as f64 / prior.r_den as f64;
    let p = prior.p_num as f64 / prior.p_den as f64;
    let joint_signal = nb_ln_pmf(r, p, count) + 0.5f64.ln();
    let joint_noise = nb_ln_pmf(1.0, 0.8, count) + 0.5f64.ln();
    let evidence = ln_add_exp(joint_signal, joint_noise);
    let posterior = (joint_signal - evidence).exp().clamp(0.0, 1.0);
    (posterior * 1_000_000.0).round() as u32
}

/// Scenario: one chromosome of length 1000 at bin width 100 yields the ten
/// bins [0,100) .. [900,1000); with counts [2,3,1,2,50,48,3,2,1,2] and a
/// read floor of 5 only the bins at [400,500) and [500,600) are scored;
/// at a posterior threshold of one half both are significant, merge with
/// gap 0 into one peak [400,600) scored with the higher posterior, and a
/// minimum width of 150 keeps it.
#[test]
fn test_single_chromosome_scenario() {
    let genome = Genome {
        seqnames: vec!["chr1".to_string()],
        lengths: vec![1000],
    };
    let bins = genome.create_bins(100, None);
    assert_eq!(bins.len(), 10);
    for (i, bin) in bins.iter().enumerate() {
        assert_eq!(bin.start, i as u32 * 100);
        assert_eq!(bin.end, (i as u32 + 1) * 100);
    }

    let counts: Vec<u64> = vec![2, 3, 1, 2, 50, 48, 3, 2, 1, 2];
    let bin_counts: Vec<(GenomicRange, u64)> = bins.into_iter().zip(counts).collect();

    let model = BayesianModel::new(500_000, 5);
    let quals = model.qualifying_bins(&bin_counts);
    assert_eq!(quals.len(), 2);
    assert_eq!(quals[0].0.start, 400);
    assert_eq!(quals[0].1, 50);
    assert_eq!(quals[1].0.start, 500);
    assert_eq!(quals[1].1, 48);

    let prior = GenomicPrior::from_bin_counts(&bin_counts);
    let posts: Vec<u32> = quals.iter().map(|(_, c)| posterior_ppm(*c, &prior)).collect();
    let significant = model.identify_significant_bins(&bin_counts, &posts);
    assert_eq!(significant.len(), 2, "both scored bins are significant");

    let caller = PeakCaller::new(
        &test_cli(100, 0, 5, 500_000, 150),
        Genome {
            seqnames: vec!["chr1".to_string()],
            lengths: vec![1000],
        },
        BamProcessor::new(vec![], None),
    );
    let merged = caller.merge_bins_into_peaks(significant, 0);
    assert_eq!(merged.len(), 1, "adjacent significant bins merge");
    assert_eq!(merged[0].start, 400);
    assert_eq!(merged[0].end, 600);
    assert_eq!(merged[0].posterior_ppm, posts[0].max(posts[1]));

    let filtered = caller.filter_peaks_by_width(merged, 150);
    assert_eq!(filtered.len(), 1, "width 200 >= 150 is retained");
}

/// Scenario: control normalization with treatment total 200 and control
/// total 100 scales the control by 2; a bin with treatment count 30 and
/// control count 10 normalizes to round(max(0, 30 - 10 * 2.0)) = 10.
#[test]
fn test_control_normalization_scenario() {
    assert_eq!(normalize_count(30, 10, 200, 100), 10);

    let mut treatment = Vec::new();
    for _ in 0..30 {
        treatment.push(record("chr1", 50, false));
    }
    for _ in 0..170 {
        treatment.push(record("chr1", 5000, false));
    }
    let mut control = Vec::new();
    for _ in 0..10 {
        control.push(record("chr1", 50, false));
    }
    for _ in 0..90 {
        control.push(record("chr1", 5000, false));
    }
    let processor = BamProcessor::new(treatment, Some(control));
    assert_eq!(processor.total_reads(), 200);

    let bins = vec![GenomicRange {
        chrom: "chr1".to_string(),
        start: 0,
        end: 100,
        posterior_ppm: 0,
    }];
    let counts = processor.count_reads_in_bins(&bins);
    assert_eq!(counts.len(), 1);
    assert_eq!(counts[0].1, 10);
}

/// Rounding in normalization is half-up: 5 - 3 * (3/2) = 0.5 rounds to 1,
/// and a deficit clamps at zero.
#[test]
fn test_normalization_rounding_and_clamp() {
    assert_eq!(normalize_count(5, 3, 3, 2), 1);
    assert_eq!(normalize_count(10, 50, 200, 100), 0);
    assert_eq!(normalize_count(7, 0, 200, 100), 7);
    assert_eq!(normalize_count(7, 1, 200, 0), 0);
}

/// Scenario: a header-derived catalog drops `chrUn_gl000220` and `chrM`;
/// only `chr1` and `chr2` remain.
#[test]
fn test_header_catalog_exclusion_scenario() {
    let seqnames = vec![
        "chr1".to_string(),
        "chr2".to_string(),
        "chrUn_gl000220".to_string(),
        "chrM".to_string(),
    ];
    let lengths = vec![248_956_422, 242_193_529, 161_802, 16_569];
    let genome = Genome::from_header(seqnames, lengths).expect("header is not empty");
    assert_eq!(genome.seqnames, vec!["chr1", "chr2"]);
    assert_eq!(genome.lengths, vec![248_956_422, 242_193_529]);
}

#[test]
fn test_from_header_empty_is_parse_error() {
    let err = Genome::from_header(vec![], vec![]).unwrap_err();
    assert!(matches!(err, PipelineError::Parse(_)));
}

#[test]
fn test_from_text_rejects_bad_length() {
    let err = Genome::from_text("chr1\tabc\n").unwrap_err();
    assert!(matches!(err, PipelineError::Parse(_)));
}

#[test]
fn test_from_text_rejects_empty_table() {
    assert!(matches!(
        Genome::from_text(""),
        Err(PipelineError::Parse(_))
    ));
    assert!(matches!(
        Genome::from_text("lonely_token\n\n"),
        Err(PipelineError::Parse(_))
    ));
}

#[test]
fn test_cli_validation() {
    let mut cli = test_cli(0, 1000, 15, 950_000, 150);
    assert!(matches!(
        cli.validate(),
        Err(PipelineError::Config(_))
    ));
    cli.step = 200;
    assert!(cli.validate().is_ok());
    cli.posterior_threshold_ppm = 1_000_001;
    assert!(matches!(
        cli.validate(),
        Err(PipelineError::Config(_))
    ));
}

#[test]
fn test_broad_mode_widens_bins() {
    let mut cli = test_cli(200, 1000, 15, 950_000, 150);
    cli.broad = true;
    cli.adjust_for_broad_peaks();
    assert_eq!(cli.step, 5000);
    assert_eq!(cli.mdist, 1000);
}

/// The posterior threshold is inclusive: a posterior exactly at the
/// threshold is significant, one just below it is not.
#[test]
fn test_threshold_is_inclusive() {
    let model = BayesianModel::new(500_000, 5);
    let bins = vec![(
        GenomicRange {
            chrom: "chr1".to_string(),
            start: 0,
            end: 100,
            posterior_ppm: 0,
        },
        10,
    )];
    let at = model.identify_significant_bins(&bins, &vec![500_000]);
    assert_eq!(at.len(), 1);
    assert_eq!(at[0].posterior_ppm, 500_000);
    let below = model.identify_significant_bins(&bins, &vec![499_999]);
    assert!(below.is_empty());
}

/// The method-of-moments fit is exact: counts [20, 2, 15] give
/// p = 74/518 and r = 2738/1332, unclamped.
#[test]
fn test_prior_fit_exact() {
    let bins: Vec<(GenomicRange, u64)> = vec![20u64, 2, 15]
        .into_iter()
        .enumerate()
        .map(|(i, c)| {
            (
                GenomicRange {
                    chrom: "chr1".to_string(),
                    start: i as u32 * 100,
                    end: (i as u32 + 1) * 100,
                    posterior_ppm: 0,
                },
                c,
            )
        })
        .collect();
    let prior = GenomicPrior::from_bin_counts(&bins);
    assert_eq!(prior.p_num, 74);
    assert_eq!(prior.p_den, 518);
    assert_eq!(prior.r_num, 2738);
    assert_eq!(prior.r_den, 1332);
}

/// Under-dispersed counts fall back to the conservative prior r = 2,
/// p = 3/10.
#[test]
fn test_prior_fit_fallback() {
    let bins: Vec<(GenomicRange, u64)> = vec![5u64, 5]
        .into_iter()
        .enumerate()
        .map(|(i, c)| {
            (
                GenomicRange {
                    chrom: "chr1".to_string(),
                    start: i as u32 * 100,
                    end: (i as u32 + 1) * 100,
                    posterior_ppm: 0,
                },
                c,
            )
        })
        .collect();
    let prior = GenomicPrior::from_bin_counts(&bins);
    assert_eq!((prior.r_num, prior.r_den), (2, 1));
    assert_eq!((prior.p_num, prior.p_den), (3, 10));
}

fn peak(chrom: &str, start: u32, end: u32, ppm: u32) -> GenomicRange {
    GenomicRange {
        chrom: chrom.to_string(),
        start,
        end,
        posterior_ppm: ppm,
    }
}

/// Merging groups per chromosome, bridges gaps up to the limit, and the
/// result is separated by more than the gap; merging it again changes
/// nothing.
#[test]
fn test_merge_separation_and_idempotence() {
    let caller = PeakCaller::new(
        &test_cli(100, 50, 5, 500_000, 0),
        Genome {
            seqnames: vec!["chr1".to_string()],
            lengths: vec![1000],
        },
        BamProcessor::new(vec![], None),
    );
    let bins = vec![
        peak("chr1", 0, 100, 100),
        peak("chr1", 100, 200, 900),
        peak("chr1", 400, 500, 300),
        peak("chr2", 120, 220, 250),
    ];
    let merged = caller.merge_bins_into_peaks(bins, 50);
    assert_eq!(merged.len(), 3);
    assert_eq!((merged[0].start, merged[0].end, merged[0].posterior_ppm), (0, 200, 900));
    assert_eq!((merged[1].start, merged[1].end, merged[1].posterior_ppm), (400, 500, 300));
    assert_eq!(merged[1].chrom, "chr1");
    assert_eq!(merged[2].chrom, "chr2");
    assert!(merged[1].start > merged[0].end + 50, "peaks keep more than the gap apart");

    let again = caller.merge_bins_into_peaks(merged.clone(), 50);
    assert_eq!(again.len(), merged.len());
    for (a, b) in merged.iter().zip(again.iter()) {
        assert_eq!(a.chrom, b.chrom);
        assert_eq!(a.start, b.start);
        assert_eq!(a.end, b.end);
        assert_eq!(a.posterior_ppm, b.posterior_ppm);
    }
}

/// Unsorted input is sorted by start before the sweep.
#[test]
fn test_merge_sorts_first() {
    let caller = PeakCaller::new(
        &test_cli(100, 0, 5, 500_000, 0),
        Genome {
            seqnames: vec!["chr1".to_string()],
            lengths: vec![1000],
        },
        BamProcessor::new(vec![], None),
    );
    let bins = vec![
        peak("chr1", 100, 200, 2),
        peak("chr1", 0, 100, 1),
    ];
    let merged = caller.merge_bins_into_peaks(bins, 0);
    assert_eq!(merged.len(), 1);
    assert_eq!((merged[0].start, merged[0].end, merged[0].posterior_ppm), (0, 200, 2));
}

/// A peak exactly as wide as the minimum stays; a narrower one goes.
#[test]
fn test_width_filter_boundary() {
    let caller = PeakCaller::new(
        &test_cli(100, 0, 5, 500_000, 150),
        Genome {
            seqnames: vec!["chr1".to_string()],
            lengths: vec![1000],
        },
        BamProcessor::new(vec![], None),
    );
    let peaks = vec![peak("chr1", 0, 150, 10), peak("chr1", 300, 449, 10)];
    let kept = caller.filter_peaks_by_width(peaks, 150);
    assert_eq!(kept.len(), 1);
    assert_eq!(kept[0].start, 0);
}

/// The whole verified pipeline, end to end through `call_peaks`.
#[test]
fn test_call_peaks_end_to_end() {
    let mut records = Vec::new();
    // Background: one read per 100-base bin over [0, 1000).
    for i in 0..10 {
        records.push(record("chr1", i * 100 + 10, false));
    }
    // Enriched: forty reads in [400,500) and forty in [500,600).
    for i in 0..40 {
        records.push(record("chr1", 410 + (i % 80), false));
        records.push(record("chr1", 510 + (i % 80), false));
    }
    let genome = Genome {
        seqnames: vec!["chr1".to_string()],
        lengths: vec![1000],
    };
    let cli = test_cli(100, 0, 5, 500_000, 150);
    let caller = PeakCaller::new(&cli, genome, BamProcessor::new(records, None));

    // Score each chromosome's qualifying bins with the statistics stage.
    let mut posts: Vec<Vec<u32>> = Vec::new();
    let counts = caller.count_chromosome("chr1");
    let prior = GenomicPrior::from_bin_counts(&counts);
    let quals = caller.bayesian_model().qualifying_bins(&counts);
    posts.push(quals.iter().map(|(_, c)| posterior_ppm(*c, &prior)).collect());

    let peaks = caller.call_peaks(&posts);
    assert_eq!(peaks.ranges.len(), 1);
    assert_eq!(peaks.ranges[0].chrom, "chr1");
    assert_eq!(peaks.ranges[0].start, 400);
    assert_eq!(peaks.ranges[0].end, 600);
}
