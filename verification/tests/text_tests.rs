use sbpc::text::{parse_u32, str_contains, str_eq, u64_to_string};
use sbpc::utils::{file_extension, file_stem, format_with_commas};

#[test]
fn test_parse_u32_accepts_plain_digits() {
    assert_eq!(parse_u32("42"), Some(42));
    assert_eq!(parse_u32("0"), Some(0));
    assert_eq!(parse_u32("007"), Some(7));
    assert_eq!(parse_u32("4294967295"), Some(u32::MAX));
}

#[test]
fn test_parse_u32_rejects_everything_else() {
    assert_eq!(parse_u32(""), None);
    assert_eq!(parse_u32("+42"), None);
    assert_eq!(parse_u32("-1"), None);
    assert_eq!(parse_u32("12a"), None);
    assert_eq!(parse_u32("4294967296"), None);
    assert_eq!(parse_u32("99999999999999999999"), None);
}

#[test]
fn test_str_helpers() {
    assert!(str_eq("chr1", "chr1"));
    assert!(!str_eq("chr1", "chr2"));
    assert!(str_contains("chrUn_gl000220", "Un"));
    assert!(str_contains("chr_EBV", "EBV"));
    assert!(!str_contains("chr12", "M"));
    assert!(str_contains("anything", ""));
}

#[test]
fn test_u64_to_string() {
    assert_eq!(u64_to_string(0), "0");
    assert_eq!(u64_to_string(9), "9");
    assert_eq!(u64_to_string(1234567890), "1234567890");
}

#[test]
fn test_format_with_commas() {
    assert_eq!(format_with_commas(0), "0");
    assert_eq!(format_with_commas(100), "100");
    assert_eq!(format_with_commas(1000), "1,000");
    assert_eq!(format_with_commas(1234567), "1,234,567");
    assert_eq!(format_with_commas(1000000000), "1,000,000,000");
}

#[test]
fn test_file_stem_and_extension() {
    assert_eq!(file_stem("dir/sample.bam"), Some("sample".to_string()));
    assert_eq!(file_extension("dir/sample.bam"), Some("bam".to_string()));
    assert_eq!(file_stem("archive.tar.gz"), Some("archive.tar".to_string()));
    assert_eq!(file_extension("archive.tar.gz"), Some("gz".to_string()));
    assert_eq!(file_stem(".bashrc"), Some(".bashrc".to_string()));
    assert_eq!(file_extension(".bashrc"), None);
    assert_eq!(file_stem("noext"), Some("noext".to_string()));
    assert_eq!(file_extension("noext"), None);
    assert_eq!(file_stem("dir/"), None);
}
