use sbpc::bam::{BamProcessor, BamRecord, GenomicRange};

fn record(chrom: &str, pos: u32, unmapped: bool) -> BamRecord {
    BamRecord {
        chrom: chrom.to_string(),
        pos,
        unmapped,
    }
}

#[test]
fn test_bam_processor_total_reads() {
    let records = vec![
        record("chr1", 10, false),
        record("chr1", 55, false),
        record("chr1", 120, false),
        record("chr2", 40, false),
        record("chr2", 90, true),
    ];
    let processor = BamProcessor::new(records, None);
    let total = processor.total_reads();
    assert!(total > 0, "Total reads should be positive");
    assert_eq!(total, 4, "unmapped records are not counted");
}

#[test]
fn test_count_reads_in_bins_empty() {
    let records = vec![record("chr1", 10, false), record("chr1", 20, false)];
    let processor = BamProcessor::new(records, None);
    let bins: Vec<GenomicRange> = vec![];
    let counts = processor.count_reads_in_bins(&bins);
    assert!(counts.is_empty(), "Counts should be empty for empty bins");
}

#[test]
fn test_count_reads_in_bins_basic() {
    let records = vec![
        record("chr1", 10, false),
        record("chr1", 50, false),
        record("chr1", 150, false),
        record("chr1", 199, false),
        record("chr1", 250, false),
        record("chr2", 50, false),
        record("chr1", 60, true),
    ];
    let processor = BamProcessor::new(records, None);
    let bins = vec![
        GenomicRange {
            chrom: "chr1".to_string(),
            start: 0,
            end: 100,
            posterior_ppm: 1_000_000,
        },
        GenomicRange {
            chrom: "chr1".to_string(),
            start: 100,
            end: 200,
            posterior_ppm: 1_000_000,
        },
    ];
    let counts = processor.count_reads_in_bins(&bins);
    assert_eq!(counts.len(), 2);
    for (bin, _count) in &counts {
        assert_eq!(bin.chrom, "chr1");
        assert!(bin.start < bin.end);
    }
    assert_eq!(counts[0].1, 2, "positions 10 and 50; the unmapped read at 60 is skipped");
    assert_eq!(counts[1].1, 2, "positions 150 and 199; 250 lies past the last bin");
}
