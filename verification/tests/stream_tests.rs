use seqio::fastq::{fqreader, record, write_records, write_records_gz};
use seqio::utils;

fn rec(id: &str, seq: &str, symbol: &str, qual: &str) -> record {
    record {
        id: String::from(id),
        seq: String::from(seq),
        symbol: String::from(symbol),
        qual: String::from(qual),
    }
}

fn two_records() -> Vec<record> {
    vec![rec("@a desc", "ACGT", "+", "IIII"), rec("@b", "TTGG", "+sep", "FFFF")]
}

#[test]
fn magic_bytes_mean_gzip_whatever_the_name() {
    let data = vec![0x1f, 0x8b, 0x08, 0x00, 0x00];
    assert!(utils::is_gzipped(&data, "plain_name.txt"));
    assert!(utils::is_gzipped(&data, "no_extension"));
}

#[test]
fn gz_name_means_gzip_whatever_the_content() {
    let data = b"not gzip at all".to_vec();
    assert!(utils::is_gzipped(&data, "reads.fq.gz"));
}

#[test]
fn plain_content_and_name_mean_plain() {
    let data = b"@a\nACGT\n+\nIIII\n".to_vec();
    assert!(!utils::is_gzipped(&data, "reads.fq"));
}

#[test]
fn short_content_is_plain_unless_named_gz() {
    let data = vec![0x1f, 0x8b];
    assert!(!utils::is_gzipped(&data, "tiny"));
    assert!(utils::is_gzipped(&data, "tiny.gz"));
}

#[test]
fn output_compression_follows_the_name() {
    assert!(utils::wants_gz_output("out.gz"));
    assert!(utils::wants_gz_output("out.gzip"));
    assert!(!utils::wants_gz_output("out.fq"));
    assert!(!utils::wants_gz_output("gz"));
}

#[test]
fn plain_round_trip_preserves_records() {
    let recs = two_records();
    let bytes = write_records(&recs);
    let mut r = fqreader::new(bytes, false).unwrap();
    assert_eq!(r.read_all(), recs);
}

#[test]
fn gzip_round_trip_preserves_records() {
    let recs = two_records();
    let bytes = write_records_gz(&recs);
    assert!(utils::is_gzipped(&bytes, "anything"));
    let mut r = fqreader::new(bytes, true).unwrap();
    assert_eq!(r.read_all(), recs);
}

#[test]
fn compression_actually_transforms_the_bytes() {
    let recs = two_records();
    let plain = write_records(&recs);
    let packed = write_records_gz(&recs);
    assert_ne!(plain, packed);
    let unpacked = utils::gzip_decompress(&packed).unwrap();
    assert_eq!(unpacked, plain);
}

#[test]
fn corrupt_gzip_input_yields_no_reader() {
    let data = vec![0x1f, 0x8b, 0x08, 0x13, 0x37, 0x00, 0x00];
    assert!(fqreader::new(data, true).is_none());
}

#[test]
fn plain_append_preserves_prior_content() {
    let first = vec![rec("@a", "AA", "+", "II")];
    let second = vec![rec("@b", "CC", "+", "JJ"), rec("@c", "GG", "+", "KK")];
    let mut file = write_records(&first);
    file.extend_from_slice(&write_records(&second));
    let mut r = fqreader::new(file, false).unwrap();
    let got = r.read_all();
    let mut want = first;
    want.extend(second);
    assert_eq!(got, want);
}

#[test]
fn gzip_append_preserves_prior_content() {
    let first = vec![rec("@a", "AA", "+", "II")];
    let second = vec![rec("@b", "CC", "+", "JJ")];
    let mut file = write_records_gz(&first);
    file.extend_from_slice(&write_records_gz(&second));
    let mut r = fqreader::new(file, true).unwrap();
    let got = r.read_all();
    let mut want = first;
    want.extend(second);
    assert_eq!(got, want);
}

#[test]
fn gzip_output_reads_back_through_real_decoder() {
    let recs = two_records();
    let packed = write_records_gz(&recs);
    let mut dec = flate2::read::MultiGzDecoder::new(packed.as_slice());
    let mut unpacked = Vec::new();
    std::io::Read::read_to_end(&mut dec, &mut unpacked).unwrap();
    assert_eq!(unpacked, write_records(&recs));
}
