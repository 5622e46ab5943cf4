use gtf_read_rs::{get_gtf_line_parts, get_unquoted_string, GtfLineAttributes};

fn exon_line(gene: &str, transcript: &str, start: &str, end: &str) -> String {
    format!(
        "chr17\tHAVANA\texon\t{}\t{}\t.\t-\t.\tgene_id \"ENSG1\"; transcript_id \"{}\"; gene_name \"{}\";\n",
        start, end, transcript, gene
    )
}

#[test]
fn it_works() {
    assert_eq!(2 + 2, 4);
}

#[test]
fn parses_a_full_exon_line() {
    let mut line = exon_line("TP53", "T1", "100", "200");
    let before = line.clone();
    let parts = get_gtf_line_parts(&mut line).unwrap();
    assert_eq!(parts.kind, "exon");
    assert_eq!(parts.start_offset, 100);
    assert_eq!(parts.end_offset, 200);
    assert_eq!(parts.gene_name, "TP53");
    assert_eq!(parts.transcript_id, "T1");
    assert_eq!(line, before);
}

#[test]
fn five_fields_give_no_record() {
    let mut line = String::from("chr1\tsrc\texon\t100\t200");
    assert!(get_gtf_line_parts(&mut line).is_none());
}

#[test]
fn eight_fields_give_no_record() {
    let mut line = String::from("chr1\tsrc\texon\t100\t200\t.\t+\t.");
    assert!(get_gtf_line_parts(&mut line).is_none());
}

#[test]
fn empty_line_gives_no_record() {
    let mut line = String::new();
    assert!(get_gtf_line_parts(&mut line).is_none());
}

#[test]
fn non_numeric_start_gives_no_record() {
    let mut line = exon_line("TP53", "T1", "1x0", "200");
    assert!(get_gtf_line_parts(&mut line).is_none());
}

#[test]
fn out_of_range_end_gives_no_record() {
    let mut line = exon_line("TP53", "T1", "100", "2147483648");
    assert!(get_gtf_line_parts(&mut line).is_none());
}

#[test]
fn signed_offsets_are_read() {
    let mut line = exon_line("TP53", "T1", "-2147483648", "+2147483647");
    let parts = get_gtf_line_parts(&mut line).unwrap();
    assert_eq!(parts.start_offset, -2147483648);
    assert_eq!(parts.end_offset, 2147483647);
}

#[test]
fn missing_attributes_give_empty_names() {
    let mut line = String::from("chr1\tsrc\tgene\t5\t9\t.\t+\t.\tgene_id \"X\";");
    let parts = get_gtf_line_parts(&mut line).unwrap();
    assert_eq!(parts.kind, "gene");
    assert_eq!(parts.gene_name, "");
    assert_eq!(parts.transcript_id, "");
}

#[test]
fn repeated_key_keeps_last_value() {
    let mut line = String::from(
        "chr1\tsrc\texon\t1\t2\t.\t+\t.\ttranscript_id \"T9\"; gene_name \"G1\"; transcript_id \"T9\";",
    );
    let parts = get_gtf_line_parts(&mut line).unwrap();
    assert_eq!(parts.transcript_id, "T9");
    assert_eq!(parts.gene_name, "G1");
}

#[test]
fn repeated_key_with_other_value_keeps_the_later() {
    let mut line = String::from(
        "chr1\tsrc\texon\t1\t2\t.\t+\t.\ttranscript_id \"T1\"; gene_name \"G1\"; transcript_id \"T2\"",
    );
    let parts = get_gtf_line_parts(&mut line).unwrap();
    assert_eq!(parts.transcript_id, "T2");
}

#[test]
fn quoted_and_bare_values_agree() {
    let mut quoted = String::from("c\ts\texon\t1\t2\t.\t+\t.\tgene_name \"BRCA1\";");
    let mut bare = String::from("c\ts\texon\t1\t2\t.\t+\t.\tgene_name BRCA1;");
    assert_eq!(get_gtf_line_parts(&mut quoted).unwrap().gene_name, "BRCA1");
    assert_eq!(get_gtf_line_parts(&mut bare).unwrap().gene_name, "BRCA1");
}

#[test]
fn malformed_chunks_are_skipped() {
    let mut line = String::from(
        "c\ts\texon\t1\t2\t.\t+\t.\t ; lonely; ;gene_name  \"G2\" ;  transcript_id T3 ",
    );
    let parts = get_gtf_line_parts(&mut line).unwrap();
    assert_eq!(parts.gene_name, "G2");
    assert_eq!(parts.transcript_id, "T3");
}

#[test]
fn extra_tab_fields_join_the_attributes() {
    let mut line = String::from("c\ts\texon\t1\t2\t.\t+\t.\tgene_name \"G\";\ttranscript_id \"T\";");
    let parts = get_gtf_line_parts(&mut line).unwrap();
    assert_eq!(parts.gene_name, "G");
    assert_eq!(parts.transcript_id, "T");
}

#[test]
fn unquoting_strips_one_enclosing_pair() {
    assert_eq!(get_unquoted_string(String::from("\"BRCA1\"")), "BRCA1");
    assert_eq!(get_unquoted_string(String::from("BRCA1")), "BRCA1");
    assert_eq!(get_unquoted_string(String::from("\"\"x\"\"")), "\"x\"");
    assert_eq!(get_unquoted_string(String::from("\"open")), "\"open");
    assert_eq!(get_unquoted_string(String::from("\"")), "\"");
    assert_eq!(get_unquoted_string(String::from("\"\"")), "");
}

#[test]
fn attribute_pairs_in_order() {
    let a = GtfLineAttributes::new(String::from(" gene_id \"G\"; tag  a b ;x; transcript_id T1"));
    let pairs = a.pairs();
    assert_eq!(pairs.len(), 3);
    assert_eq!(pairs[0], (String::from("gene_id"), String::from("\"G\"")));
    assert_eq!(pairs[1], (String::from("tag"), String::from("a b")));
    assert_eq!(pairs[2], (String::from("transcript_id"), String::from("T1")));
}

#[test]
fn blank_attribute_string_has_no_pairs() {
    let a = GtfLineAttributes::new(String::from("  ;\t; "));
    assert!(a.pairs().is_empty());
}

#[test]
fn no_break_space_separates_key_and_value() {
    let a = GtfLineAttributes::new(String::from("a\u{A0}b"));
    let pairs = a.pairs();
    assert_eq!(pairs.len(), 1);
    assert_eq!(pairs[0], (String::from("a"), String::from("b")));
    let mut line = String::from("c\ts\texon\t1\t2\t.\t+\t.\tgene_name\u{A0}G;");
    assert_eq!(get_gtf_line_parts(&mut line).unwrap().gene_name, "G");
}

#[test]
fn unicode_whitespace_is_trimmed() {
    let a = GtfLineAttributes::new(String::from(
        "\u{3000}gene_name\u{2003}\u{2009}\"G\"\u{85}; \u{2028}transcript_id\u{1680}T\u{202F}",
    ));
    let pairs = a.pairs();
    assert_eq!(pairs.len(), 2);
    assert_eq!(pairs[0], (String::from("gene_name"), String::from("\"G\"")));
    assert_eq!(pairs[1], (String::from("transcript_id"), String::from("T")));
}

#[test]
fn zero_width_space_is_no_whitespace() {
    let a = GtfLineAttributes::new(String::from("a\u{200B}b"));
    assert!(a.pairs().is_empty());
}
