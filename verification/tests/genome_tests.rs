use sbpc::genome::Genome;

#[test]
fn test_create_bins() {
    let seqnames = vec!["chr1".to_string(), "chr2".to_string()];
    let lengths = vec![1000, 500];
    let genome = Genome { seqnames, lengths };

    let step = 100;

    // Bins are non-overlapping tiles of width `step`.
    let bins = genome.create_bins(step, None);

    // chr1: 1000/100 = 10 bins, chr2: 500/100 = 5 bins, total = 15
    assert_eq!(bins.len(), 15, "Expected 15 bins for non-overlapping bins");

    assert_eq!(bins[0].chrom, "chr1");
    assert_eq!(bins[0].start, 0);
    assert_eq!(bins[0].end, 100);

    assert_eq!(bins[9].chrom, "chr1");
    assert_eq!(bins[9].start, 900);
    assert_eq!(bins[9].end, 1000);

    assert_eq!(bins[10].chrom, "chr2");
    assert_eq!(bins[10].start, 0);
    assert_eq!(bins[10].end, 100);
}

#[test]
fn test_from_text() {
    let table = "chr1\t1000\nchr2\t500\nchr3\t2000\n";

    let genome = Genome::from_text(table).expect("the table parses");

    assert_eq!(genome.seqnames.len(), 3);
    assert_eq!(genome.lengths.len(), 3);

    assert_eq!(genome.seqnames[0], "chr1");
    assert_eq!(genome.lengths[0], 1000);

    assert_eq!(genome.seqnames[1], "chr2");
    assert_eq!(genome.lengths[1], 500);

    assert_eq!(genome.seqnames[2], "chr3");
    assert_eq!(genome.lengths[2], 2000);
}

#[test]
fn test_filter_known_chromosomes() {
    let seqnames = vec![
        "chr1".to_string(),
        "chr2".to_string(),
        "chrUn_random".to_string(),
        "chr_EBV".to_string(),
        "chrM".to_string(),
    ];
    let lengths = vec![1000, 500, 300, 200, 100];

    let filtered = Genome::filter_known_chromosomes(seqnames, lengths);

    assert_eq!(filtered.seqnames.len(), 2);
    assert_eq!(filtered.lengths.len(), 2);

    assert_eq!(filtered.seqnames[0], "chr1");
    assert_eq!(filtered.lengths[0], 1000);

    assert_eq!(filtered.seqnames[1], "chr2");
    assert_eq!(filtered.lengths[1], 500);
}
