use parse_gff3::annotation::{parse_annotation, Annotation, Gene, GffError};
use parse_gff3::attrs::Attrs;

fn lines(v: &[&str]) -> Vec<String> {
    v.iter().map(|s| s.to_string()).collect()
}

#[test]
fn version_line_sets_version() {
    let mut a = Annotation::new();
    assert_eq!(a.gff_version, 0);
    assert!(a.process_line("##gff-version 3").is_ok());
    assert_eq!(a.gff_version, 3);
}

#[test]
fn version_last_wins() {
    let mut a = Annotation::new();
    assert!(a.process_line("##gff-version 3").is_ok());
    assert!(a.process_line("##gff-version 7").is_ok());
    assert_eq!(a.gff_version, 7);
}

#[test]
fn version_not_a_number_is_fatal() {
    let mut a = Annotation::new();
    let r = a.process_line("##gff-version abc");
    assert_eq!(r, Err(GffError::VersionParse));
    assert_eq!(a.gff_version, 0);
}

#[test]
fn version_split_is_on_single_spaces() {
    // A double space makes the second token empty, which does not parse.
    let mut a = Annotation::new();
    let r = a.process_line("##gff-version  3");
    assert_eq!(r, Err(GffError::VersionParse));
}

#[test]
fn version_missing_token_is_fatal() {
    let mut a = Annotation::new();
    assert_eq!(a.process_line("##gff-version"), Err(GffError::VersionParse));
}

#[test]
fn region_line_appends_region() {
    let mut a = Annotation::new();
    assert!(a.process_line("##sequence-region chr1 1 1000").is_ok());
    assert_eq!(a.regions.len(), 1);
    assert_eq!(a.regions[0].name, "chr1");
    assert_eq!(a.regions[0].length, 1000);
}

#[test]
fn regions_keep_file_order() {
    let mut a = Annotation::new();
    assert!(a.process_line("##sequence-region chr1 1 1000").is_ok());
    assert!(a.process_line("##sequence-region chr2 1 2500").is_ok());
    assert_eq!(a.regions.len(), 2);
    assert_eq!(a.regions[0].name, "chr1");
    assert_eq!(a.regions[1].name, "chr2");
    assert_eq!(a.regions[1].length, 2500);
}

#[test]
fn region_splits_on_whitespace_runs() {
    let mut a = Annotation::new();
    assert!(a.process_line("##sequence-region \t chrX  \t 1   77").is_ok());
    assert_eq!(a.regions.len(), 1);
    assert_eq!(a.regions[0].name, "chrX");
    assert_eq!(a.regions[0].length, 77);
}

#[test]
fn region_length_is_the_fourth_token() {
    // The fourth whitespace token is kept as the length, even though it is
    // conventionally the end coordinate.
    let mut a = Annotation::new();
    assert!(a.process_line("##sequence-region chr3 100 900").is_ok());
    assert_eq!(a.regions[0].length, 900);
}

#[test]
fn region_bad_length_is_fatal() {
    let mut a = Annotation::new();
    let r = a.process_line("##sequence-region chr1 1 xyz");
    assert_eq!(r, Err(GffError::RegionLengthParse));
    assert!(a.regions.is_empty());
}

#[test]
fn region_missing_tokens_is_fatal() {
    let mut a = Annotation::new();
    assert_eq!(
        a.process_line("##sequence-region chr1"),
        Err(GffError::RegionLengthParse)
    );
}

#[test]
fn gene_line_appends_gene() {
    let mut a = Annotation::new();
    let line = "chr1\tensembl_havana\tgene\t100\t200\t.\t+\t.\tID=gene1;Name=FOO";
    assert!(a.process_line(line).is_ok());
    assert_eq!(a.genes.len(), 1);
    let g = &a.genes[0];
    assert_eq!(g.chromosome, "chr1");
    assert_eq!(g.start, 100);
    assert_eq!(g.end, 200);
    assert_eq!(g.strand, "+");
    assert_eq!(g.attrs.len(), 2);
    assert_eq!(g.attrs.get("ID"), Some(&"gene1".to_string()));
    assert_eq!(g.attrs.get("Name"), Some(&"FOO".to_string()));
    assert_eq!(g.attrs.get("missing"), None);
}

#[test]
fn gene_new_reads_the_columns() {
    let g = Gene::new("2\tensembl_havana\tgene\t-5\t17\t.\t-\t.\tID=g;X=1").unwrap();
    assert_eq!(g.chromosome, "2");
    assert_eq!(g.start, -5);
    assert_eq!(g.end, 17);
    assert_eq!(g.strand, "-");
    assert_eq!(g.attrs.len(), 2);
    assert_eq!(g.attrs.get("X"), Some(&"1".to_string()));
}

#[test]
fn gene_bad_coordinate_is_fatal() {
    let mut a = Annotation::new();
    let line = "chr1\tensembl_havana\tgene\tabc\t200\t.\t+\t.\tID=gene1";
    assert_eq!(a.process_line(line), Err(GffError::GeneCoordinateParse));
    assert!(a.genes.is_empty());
    let line2 = "chr1\tensembl_havana\tgene\t100\t2.5\t.\t+\t.\tID=gene1";
    assert_eq!(a.process_line(line2), Err(GffError::GeneCoordinateParse));
}

#[test]
fn gene_too_few_columns_is_fatal() {
    let mut a = Annotation::new();
    let line = "chr1\tensembl_havana\tgene\t100\t200";
    assert_eq!(a.process_line(line), Err(GffError::GeneColumns));
}

#[test]
fn gene_attribute_without_separator_is_fatal() {
    let mut a = Annotation::new();
    let line = "chr1\tensembl_havana\tgene\t100\t200\t.\t+\t.\tIDgene1";
    assert_eq!(a.process_line(line), Err(GffError::AttributeSplit));
    assert!(a.genes.is_empty());
}

#[test]
fn attribute_value_is_cut_at_the_next_separator() {
    let g = Gene::new("chr1\tensembl_havana\tgene\t1\t2\t.\t+\t.\tA=b=c;D=e").unwrap();
    assert_eq!(g.attrs.get("A"), Some(&"b".to_string()));
    assert_eq!(g.attrs.get("D"), Some(&"e".to_string()));
}

#[test]
fn attribute_duplicate_key_last_wins() {
    let g = Gene::new("chr1\tensembl_havana\tgene\t1\t2\t.\t+\t.\tA=1;A=2").unwrap();
    assert_eq!(g.attrs.len(), 1);
    assert_eq!(g.attrs.get("A"), Some(&"2".to_string()));
}

#[test]
fn unmatched_lines_change_nothing() {
    let mut a = Annotation::new();
    assert!(a.process_line("##gff-version 3").is_ok());
    assert!(a.process_line("##sequence-region chr1 1 1000").is_ok());
    for line in [
        "",
        "# plain comment",
        "### other directive",
        "chr1\thavana\texon\t100\t200\t.\t+\t.\tID=e1",
        "chr1\tensembl_havana\texon\t100\t200\t.\t+\t.\tID=e1",
        "chr1\tensembl\tgene\t100\t200\t.\t+\t.\tID=g1",
        "ensembl_havana\tgene",
    ] {
        assert!(a.process_line(line).is_ok());
    }
    assert_eq!(a.gff_version, 3);
    assert_eq!(a.regions.len(), 1);
    assert!(a.genes.is_empty());
}

#[test]
fn metadata_rules_win_over_the_gene_rule() {
    // A directive line that also contains the gene pattern is handled as a
    // directive, because the prefix rules are checked first.
    let mut a = Annotation::new();
    let line = "##gff-version 4 x\tensembl_havana\tgene\tother";
    assert!(a.process_line(line).is_ok());
    assert_eq!(a.gff_version, 4);
    assert!(a.genes.is_empty());
}

#[test]
fn five_line_round_trip() {
    let input = lines(&[
        "##gff-version 3",
        "##sequence-region chr1 1 1000",
        "# a comment line",
        "chr1\tensembl_havana\tgene\t100\t200\t.\t+\t.\tID=gene1;Name=FOO",
        "chr1\thavana\texon\t120\t180\t.\t+\t.\tID=exon1",
    ]);
    let a = parse_annotation(&input).unwrap();
    assert_eq!(a.gff_version, 3);
    assert_eq!(a.regions.len(), 1);
    assert_eq!(a.regions[0].name, "chr1");
    assert_eq!(a.regions[0].length, 1000);
    assert_eq!(a.genes.len(), 1);
    let g = &a.genes[0];
    assert_eq!(g.chromosome, "chr1");
    assert_eq!(g.start, 100);
    assert_eq!(g.end, 200);
    assert_eq!(g.strand, "+");
    assert_eq!(g.attrs.len(), 2);
    assert_eq!(g.attrs.get("ID"), Some(&"gene1".to_string()));
    assert_eq!(g.attrs.get("Name"), Some(&"FOO".to_string()));
}

#[test]
fn fatal_line_yields_no_partial_output() {
    let input = lines(&[
        "##gff-version 3",
        "##sequence-region chr1 1 1000",
        "##gff-version abc",
        "##sequence-region chr2 1 2000",
    ]);
    assert_eq!(parse_annotation(&input).unwrap_err(), GffError::VersionParse);
}

#[test]
fn empty_input_yields_the_initial_annotation() {
    let a = parse_annotation(&Vec::new()).unwrap();
    assert_eq!(a.gff_version, 0);
    assert!(a.regions.is_empty());
    assert!(a.genes.is_empty());
}

#[test]
fn attrs_insert_and_get() {
    let mut m = Attrs::new();
    assert_eq!(m.len(), 0);
    m.insert("ID".to_string(), "x".to_string());
    m.insert("Name".to_string(), "y".to_string());
    assert_eq!(m.len(), 2);
    assert_eq!(m.get("ID"), Some(&"x".to_string()));
    m.insert("ID".to_string(), "z".to_string());
    assert_eq!(m.len(), 2);
    assert_eq!(m.get("ID"), Some(&"z".to_string()));
    assert_eq!(m.get("id"), None);
}

#[test]
fn parse_attrs_splits_every_token() {
    let a = parse_gff3::annotation::parse_attrs("A=1;B=2;C=").unwrap();
    assert_eq!(a.len(), 3);
    assert_eq!(a.get("A"), Some(&"1".to_string()));
    assert_eq!(a.get("B"), Some(&"2".to_string()));
    assert_eq!(a.get("C"), Some(&"".to_string()));
}

#[test]
fn parse_attrs_without_separator_fails() {
    match parse_gff3::annotation::parse_attrs("A=1;nope") {
        Err(e) => assert_eq!(e, GffError::AttributeSplit),
        Ok(_) => panic!("expected an attribute-split error"),
    }
}
