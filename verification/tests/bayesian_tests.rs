use sbpc::bam::GenomicRange;
use sbpc::bayesian::{BayesianModel, GenomicPrior};
use statrs::distribution::{Discrete, NegativeBinomial};

fn range(start: u32, end: u32) -> GenomicRange {
    GenomicRange {
        chrom: "chr1".to_string(),
        start,
        end,
        posterior_ppm: 1_000_000,
    }
}

fn nb_ln_pmf(r: f64, p: f64, count: u64) -> f64 {
    match NegativeBinomial::new(r, p) {
        Ok(dist) => dist.ln_pmf(count),
        Err(_) => f64::NEG_INFINITY,
    }
}

fn ln_add_exp(a: f64, b: f64) -> f64 {
    let m = a.max(b);
    if m == f64::NEG_INFINITY {
        m
    } else {
        m + ((a - m).exp() + (b - m).exp()).ln()
    }
}

/// The floating-point scoring stage: equal priors combine a fitted signal
/// and a fixed background negative binomial; the posterior comes back in
/// parts per million.
fn posterior_ppm(count: u64, prior: &GenomicPrior) -> u32 {
    let r = prior.r_num as f64 / prior.r_den as f64;
    let p = prior.p_num as f64 / prior.p_den as f64;
    let joint_signal = nb_ln_pmf(r, p, count) + 0.5f64.ln();
    let joint_noise = nb_ln_pmf(1.0, 0.8, count) + 0.5f64.ln();
    let evidence = ln_add_exp(joint_signal, joint_noise);
    let posterior = (joint_signal - evidence).exp().clamp(0.0, 1.0);
    (posterior * 1_000_000.0).round() as u32
}

fn score(model: &BayesianModel, bin_counts: &Vec<(GenomicRange, u64)>) -> Vec<u32> {
    let prior = GenomicPrior::from_bin_counts(bin_counts);
    let quals = model.qualifying_bins(bin_counts);
    quals.iter().map(|(_, c)| posterior_ppm(*c, &prior)).collect()
}

#[test]
fn test_identify_significant_bins() {
    let model = BayesianModel::new(50_000, 5);

    let bins = vec![
        (range(0, 100), 20),   // High count, should be significant
        (range(100, 200), 2),  // Low count, should not be significant
        (range(200, 300), 15), // Medium count, might be significant
    ];

    let posts = score(&model, &bins);
    let significant_bins = model.identify_significant_bins(&bins, &posts);

    assert!(
        !significant_bins.is_empty(),
        "Should have at least one significant bin"
    );

    let low_count_bins: Vec<_> = significant_bins
        .iter()
        .filter(|bin| bin.start == 100 && bin.end == 200)
        .collect();

    assert!(
        low_count_bins.is_empty(),
        "Low count bin should not be significant"
    );
}

#[test]
fn test_bayesian_posterior_probability_calculation() {
    let model = BayesianModel::new(50_000, 5);

    let bins = vec![
        (range(0, 100), 50),   // Very high count
        (range(100, 200), 25), // High count
        (range(200, 300), 10), // Medium count
        (range(300, 400), 5),  // Low count
    ];

    let posts = score(&model, &bins);
    let significant_bins = model.identify_significant_bins(&bins, &posts);

    for bin in &significant_bins {
        assert!(
            bin.posterior_ppm <= 1_000_000,
            "Posterior probability should be in range [0, 1], got: {}",
            bin.posterior_ppm
        );
    }

    if significant_bins.len() >= 2 {
        let mut sorted_bins = significant_bins.clone();
        sorted_bins.sort_by(|a, b| a.start.cmp(&b.start));

        for i in 1..sorted_bins.len() {
            let prev_bin = &sorted_bins[i - 1];
            let curr_bin = &sorted_bins[i];

            let prev_count = bins
                .iter()
                .find(|(bin, _)| bin.start == prev_bin.start && bin.end == prev_bin.end)
                .map(|(_, count)| *count)
                .unwrap_or(0);

            let curr_count = bins
                .iter()
                .find(|(bin, _)| bin.start == curr_bin.start && bin.end == curr_bin.end)
                .map(|(_, count)| *count)
                .unwrap_or(0);

            if prev_count > curr_count {
                assert!(
                    prev_bin.posterior_ppm >= curr_bin.posterior_ppm,
                    "Bin with higher count should have higher posterior probability"
                );
            }
        }
    }
}
