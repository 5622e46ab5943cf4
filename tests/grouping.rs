use gtf_read_rs::{aggregate, Exon, Grouping};

fn exon_line(kind: &str, gene: &str, transcript: &str, start: i32, end: i32) -> String {
    format!(
        "chr17\tHAVANA\t{}\t{}\t{}\t.\t-\t.\tgene_id \"ENSG1\"; transcript_id \"{}\"; gene_name \"{}\";\n",
        kind, start, end, transcript, gene
    )
}

fn exons(pairs: &[(i32, i32)]) -> Vec<Exon> {
    pairs
        .iter()
        .map(|&(s, e)| Exon { start_offset: s, end_offset: e })
        .collect()
}

#[test]
fn two_exons_of_one_transcript() {
    let lines = vec![
        exon_line("exon", "TP53", "T1", 100, 200),
        exon_line("exon", "TP53", "T1", 300, 400),
    ];
    let g = aggregate(&lines, "TP53");
    assert_eq!(g.entries().len(), 1);
    assert_eq!(g.entries()[0].0, "T1");
    assert_eq!(g.entries()[0].1, exons(&[(100, 200), (300, 400)]));
}

#[test]
fn other_gene_is_left_out() {
    let lines = vec![
        exon_line("exon", "TP53", "T1", 100, 200),
        exon_line("exon", "MYC", "M1", 500, 600),
    ];
    let g = aggregate(&lines, "TP53");
    assert_eq!(g.entries().len(), 1);
    assert_eq!(g.entries()[0].0, "T1");
    assert_eq!(g.entries()[0].1, exons(&[(100, 200)]));
}

#[test]
fn other_kinds_are_left_out() {
    let lines = vec![
        exon_line("gene", "TP53", "T1", 1, 1000),
        exon_line("CDS", "TP53", "T1", 120, 180),
        exon_line("Exon", "TP53", "T1", 120, 180),
        exon_line("exon", "TP53", "T1", 100, 200),
    ];
    let g = aggregate(&lines, "TP53");
    assert_eq!(g.entries().len(), 1);
    assert_eq!(g.entries()[0].1, exons(&[(100, 200)]));
}

#[test]
fn gene_name_is_case_sensitive() {
    let lines = vec![exon_line("exon", "tp53", "T1", 100, 200)];
    assert!(aggregate(&lines, "TP53").entries().is_empty());
}

#[test]
fn short_and_broken_lines_are_skipped() {
    let lines = vec![
        String::from("chr1\tsrc\texon\t100\t200"),
        String::from(""),
        String::from("\n"),
        exon_line("exon", "TP53", "T1", 100, 200).replace("\t100\t", "\tabc\t"),
        exon_line("exon", "TP53", "T1", 300, 400),
    ];
    let g = aggregate(&lines, "TP53");
    assert_eq!(g.entries().len(), 1);
    assert_eq!(g.entries()[0].1, exons(&[(300, 400)]));
}

#[test]
fn no_match_gives_empty_grouping() {
    let lines = vec![exon_line("exon", "MYC", "M1", 1, 2)];
    assert!(aggregate(&lines, "TP53").entries().is_empty());
    assert!(aggregate(&Vec::new(), "TP53").entries().is_empty());
}

#[test]
fn interleaved_transcripts_keep_file_order() {
    let lines = vec![
        exon_line("exon", "TP53", "T1", 500, 600),
        exon_line("exon", "TP53", "T2", 10, 20),
        exon_line("exon", "MYC", "T1", 1, 2),
        exon_line("exon", "TP53", "T1", 100, 200),
        exon_line("exon", "TP53", "T2", 5, 8),
    ];
    let g = aggregate(&lines, "TP53");
    let entries = g.entries();
    assert_eq!(entries.len(), 2);
    assert_eq!(entries[0].0, "T1");
    assert_eq!(entries[0].1, exons(&[(500, 600), (100, 200)]));
    assert_eq!(entries[1].0, "T2");
    assert_eq!(entries[1].1, exons(&[(10, 20), (5, 8)]));
    let total: usize = entries.iter().map(|e| e.1.len()).sum();
    assert_eq!(total, 4);
}

#[test]
fn same_lines_give_equal_groupings() {
    let lines = vec![
        exon_line("exon", "TP53", "T1", 100, 200),
        exon_line("exon", "TP53", "T2", 300, 400),
        exon_line("exon", "TP53", "T1", 500, 600),
    ];
    let first = aggregate(&lines, "TP53");
    let second = aggregate(&lines, "TP53");
    assert_eq!(first.entries(), second.entries());
}

#[test]
fn lines_added_one_at_a_time() {
    let mut g = Grouping::new();
    g.add_line(&exon_line("exon", "TP53", "T1", 100, 200), "TP53");
    g.add_line("not a gtf line", "TP53");
    g.add_line(&exon_line("exon", "TP53", "T1", 300, 400), "TP53");
    assert_eq!(g.entries().len(), 1);
    assert_eq!(g.entries()[0].1, exons(&[(100, 200), (300, 400)]));
}

#[test]
fn add_exon_makes_and_extends_entries() {
    let mut g = Grouping::new();
    g.add_exon(String::from("A"), Exon { start_offset: 1, end_offset: 2 });
    g.add_exon(String::from("B"), Exon { start_offset: 3, end_offset: 4 });
    g.add_exon(String::from("A"), Exon { start_offset: 5, end_offset: 6 });
    let entries = g.entries();
    assert_eq!(entries.len(), 2);
    assert_eq!(entries[0].0, "A");
    assert_eq!(entries[0].1, exons(&[(1, 2), (5, 6)]));
    assert_eq!(entries[1].0, "B");
}
