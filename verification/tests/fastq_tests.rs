use seqio::fastq::{fqreader, record};

fn rec(id: &str, seq: &str, symbol: &str, qual: &str) -> record {
    record {
        id: String::from(id),
        seq: String::from(seq),
        symbol: String::from(symbol),
        qual: String::from(qual),
    }
}

fn demo_bytes() -> Vec<u8> {
    let text = "@readA some description\nACGTACGT\n+\nIIIIIIII\n@readB\nTTGGCCAA\n+\nFFFFFFFF\n";
    text.as_bytes().to_vec()
}

#[test]
fn test1() {
    let recs = fqreader::new(demo_bytes(), false);
    let mut recs = recs.unwrap();
    while let Some(multi) = recs.next() {
        println!("{:?}", multi);
        println!("{}\t{}\t{:?}", multi.name(), multi.len(), multi.desc());
    }
}

#[test]
fn name_and_desc_with_description() {
    let r = rec("readA description text", "ACGT", "+", "IIII");
    assert_eq!(r.name(), "readA");
    assert_eq!(r.desc(), Some("description text"));
}

#[test]
fn name_and_desc_without_description() {
    let r = rec("readA", "ACGT", "+", "IIII");
    assert_eq!(r.name(), "readA");
    assert_eq!(r.desc(), None);
}

#[test]
fn length_ignores_quality_line() {
    let r = rec("readA", "ACGTAC", "+", "II");
    assert_eq!(r.len(), 6);
    let longer_qual = rec("readA", "ACG", "+", "IIIIIIIIII");
    assert_eq!(longer_qual.len(), 3);
}

#[test]
fn empty_record_is_empty() {
    let r = record::new();
    assert_eq!(r.len(), 0);
    assert_eq!(r.name(), "");
    assert_eq!(r.desc(), None);
}

#[test]
fn four_k_lines_give_k_records_in_order() {
    let text = "@a\nAA\n+\nII\n@b\nCC\n+\nJJ\n";
    let mut r = fqreader::new(text.as_bytes().to_vec(), false).unwrap();
    let recs = r.read_all();
    assert_eq!(recs.len(), 2);
    assert_eq!(recs[0], rec("@a", "AA", "+", "II"));
    assert_eq!(recs[1], rec("@b", "CC", "+", "JJ"));
    assert_eq!(r.next(), None);
}

#[test]
fn trailing_partial_group_is_dropped() {
    let text = "@a\nAA\n+\nII\n@b\nCC\n";
    let mut r = fqreader::new(text.as_bytes().to_vec(), false).unwrap();
    let recs = r.read_all();
    assert_eq!(recs.len(), 1);
    assert_eq!(recs[0], rec("@a", "AA", "+", "II"));
}

#[test]
fn empty_input_gives_no_records() {
    let mut r = fqreader::new(Vec::new(), false).unwrap();
    assert_eq!(r.next(), None);
    let mut r2 = fqreader::new(Vec::new(), false).unwrap();
    assert_eq!(r2.read_all().len(), 0);
}

#[test]
fn crlf_line_endings_are_stripped() {
    let text = "@a\r\nAA\r\n+\r\nII\r\n";
    let mut r = fqreader::new(text.as_bytes().to_vec(), false).unwrap();
    let recs = r.read_all();
    assert_eq!(recs.len(), 1);
    assert_eq!(recs[0], rec("@a", "AA", "+", "II"));
}

#[test]
fn undecodable_line_is_skipped() {
    let mut data = Vec::new();
    data.extend_from_slice(b"@a\n");
    data.extend_from_slice(&[0xff, 0xfe, 0x0a]);
    data.extend_from_slice(b"AA\n+\nII\n");
    let mut r = fqreader::new(data, false).unwrap();
    let recs = r.read_all();
    assert_eq!(recs.len(), 1);
    assert_eq!(recs[0], rec("@a", "AA", "+", "II"));
}

#[test]
fn final_line_without_newline_still_counts() {
    let text = "@a\nAA\n+\nII";
    let mut r = fqreader::new(text.as_bytes().to_vec(), false).unwrap();
    let recs = r.read_all();
    assert_eq!(recs.len(), 1);
    assert_eq!(recs[0], rec("@a", "AA", "+", "II"));
}
