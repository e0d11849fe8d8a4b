use std::io::Write;

use flate2::write::GzEncoder;
use flate2::Compression;
use parse_gff3::annotation::GffError;
use parse_gff3::extract::{parse_gff3, split_lines};

fn gzip(data: &[u8]) -> Vec<u8> {
    let mut encoder = GzEncoder::new(Vec::new(), Compression::default());
    encoder.write_all(data).unwrap();
    encoder.finish().unwrap()
}

#[test]
fn split_lines_matches_reader_lines() {
    assert_eq!(split_lines("a\nb"), vec!["a", "b"]);
    assert_eq!(split_lines("a\nb\n"), vec!["a", "b"]);
    assert_eq!(split_lines("a\r\nb\r\n"), vec!["a", "b"]);
    assert_eq!(split_lines("a\n\nb"), vec!["a", "", "b"]);
    assert_eq!(split_lines(""), Vec::<String>::new());
    assert_eq!(split_lines("\n"), vec![""]);
    // A carriage return is stripped only before a line feed.
    assert_eq!(split_lines("a\r"), vec!["a\r"]);
}

#[test]
fn parse_gff3_runs_over_a_compressed_file() {
    let text = "##gff-version 3\n\
                ##sequence-region chr1 1 1000\n\
                # a comment line\n\
                chr1\tensembl_havana\tgene\t100\t200\t.\t+\t.\tID=gene1;Name=FOO\n\
                chr1\thavana\texon\t120\t180\t.\t+\t.\tID=exon1\n";
    let a = parse_gff3(&gzip(text.as_bytes())).unwrap();
    assert_eq!(a.gff_version, 3);
    assert_eq!(a.regions.len(), 1);
    assert_eq!(a.regions[0].name, "chr1");
    assert_eq!(a.regions[0].length, 1000);
    assert_eq!(a.genes.len(), 1);
    assert_eq!(a.genes[0].chromosome, "chr1");
    assert_eq!(a.genes[0].start, 100);
    assert_eq!(a.genes[0].end, 200);
    assert_eq!(a.genes[0].strand, "+");
    assert_eq!(a.genes[0].attrs.get("ID"), Some(&"gene1".to_string()));
    assert_eq!(a.genes[0].attrs.get("Name"), Some(&"FOO".to_string()));
}

#[test]
fn parse_gff3_handles_crlf_lines() {
    let text = "##gff-version 3\r\n##sequence-region chr9 1 42\r\n";
    let a = parse_gff3(&gzip(text.as_bytes())).unwrap();
    assert_eq!(a.gff_version, 3);
    assert_eq!(a.regions.len(), 1);
    assert_eq!(a.regions[0].name, "chr9");
    assert_eq!(a.regions[0].length, 42);
}

#[test]
fn parse_gff3_rejects_data_that_is_not_gzip() {
    let r = parse_gff3(b"plain text, not compressed");
    assert_eq!(r.unwrap_err(), GffError::Decode);
}

#[test]
fn parse_gff3_rejects_compressed_non_text() {
    let r = parse_gff3(&gzip(&[0xff, 0xfe, 0x00, 0x80]));
    assert_eq!(r.unwrap_err(), GffError::Decode);
}

#[test]
fn parse_gff3_aborts_on_a_malformed_version_line() {
    let text = "##gff-version abc\n";
    let r = parse_gff3(&gzip(text.as_bytes()));
    assert_eq!(r.unwrap_err(), GffError::VersionParse);
}

#[test]
fn parse_gff3_aborts_on_a_malformed_attribute() {
    let text = "##gff-version 3\nchr1\tensembl_havana\tgene\t1\t2\t.\t+\t.\tIDgene1\n";
    let r = parse_gff3(&gzip(text.as_bytes()));
    assert_eq!(r.unwrap_err(), GffError::AttributeSplit);
}

#[test]
fn parse_gff3_of_an_empty_file_is_the_initial_annotation() {
    let a = parse_gff3(&gzip(b"")).unwrap();
    assert_eq!(a.gff_version, 0);
    assert!(a.regions.is_empty());
    assert!(a.genes.is_empty());
}
