use sbpc::bam::GenomicRange;
use sbpc::bayesian::{BayesianModel, GenomicPrior};
use statrs::distribution::{Discrete, NegativeBinomial};

fn range(start: u32, end: u32) -> GenomicRange {
    GenomicRange {
        chrom: "chr1".to_string(),
        start,
        end,
        posterior_ppm: 1_000_000,
    }
}

fn nb_ln_pmf(r: f64, p: f64, count: u64) -> f64 {
    match NegativeBinomial::new(r, p) {
        Ok(dist) => dist.ln_pmf(count),
        Err(_) => f64::NEG_INFINITY,
    }
}

fn ln_add_exp(a: f64, b: f64) -> f64 {
    let m = a.max(b);
    if m == f64::NEG_INFINITY {
        m
    } else {
        m + ((a - m).exp() + (b - m).exp()).ln()
    }
}

fn posterior_ppm(count: u64, prior: &GenomicPrior) -> u32 {
    let r = prior.r_num as f64 / prior.r_den as f64;
    let p = prior.p_num as f64 / prior.p_den as f64;
    let joint_signal = nb_ln_pmf(r, p, count) + 0.5f64.ln();
    let joint_noise = nb_ln_pmf(1.0, 0.8, count) + 0.5f64.ln();
    let evidence = ln_add_exp(joint_signal, joint_noise);
    let posterior = (joint_signal - evidence).exp().clamp(0.0, 1.0);
    (posterior * 1_000_000.0).round() as u32
}

fn score(model: &BayesianModel, bin_counts: &Vec<(GenomicRange, u64)>) -> Vec<u32> {
    let prior = GenomicPrior::from_bin_counts(bin_counts);
    let quals = model.qualifying_bins(bin_counts);
    quals.iter().map(|(_, c)| posterior_ppm(*c, &prior)).collect()
}

#[test]
fn test_bayesian_model_min_reads_filter() {
    let model = BayesianModel::new(50_000, 10);
    let bins = vec![
        (range(0, 100), 5),    // below min_reads
        (range(100, 200), 15), // above min_reads
    ];
    let posts = score(&model, &bins);
    let significant = model.identify_significant_bins(&bins, &posts);
    assert!(significant.iter().all(|bin| bin.start != 0));
}

#[test]
fn test_bayesian_model_posterior_prob_range() {
    let model = BayesianModel::new(50_000, 1);
    let bins = vec![(range(0, 100), 50), (range(100, 200), 25)];
    let posts = score(&model, &bins);
    let significant = model.identify_significant_bins(&bins, &posts);
    for bin in significant {
        assert!(bin.posterior_ppm <= 1_000_000);
    }
}
