use aedso::alleles::{compare_bytes, insert_allele};
use aedso::config::ConfigError;
use aedso::eds::write_eds;
use aedso::index::{index_event, index_record, loop_records};
use aedso::types::{AppConfig, Index, IndexError, Ingest, SourceEvent, VariantRecord};
use std::cmp::Ordering;

fn config(w: usize) -> AppConfig {
    AppConfig {
        fasta: String::from("ref.fa"),
        vcf: String::from("vars.vcf"),
        verbosity: 0,
        region_start: 0,
        region_end: None,
        output_line_length: w,
    }
}

fn rec(chrom: &str, pos: u64, reference: &str, alts: &[&str]) -> VariantRecord {
    VariantRecord {
        chrom: chrom.as_bytes().to_vec(),
        pos,
        reference: reference.as_bytes().to_vec(),
        alts: alts.iter().map(|a| a.as_bytes().to_vec()).collect(),
    }
}

fn ready(chrom: &str, pos: u64, reference: &str, alts: &[&str]) -> SourceEvent {
    SourceEvent::RecordReady(rec(chrom, pos, reference, alts))
}

fn build(seq_name: &str, events: Vec<SourceEvent>, num_bases: usize) -> Index {
    loop_records(seq_name.as_bytes(), &events, num_bases).unwrap()
}

fn render(reference: &str, index: &Index, w: usize) -> String {
    let seq = reference.as_bytes();
    String::from_utf8(write_eds(&config(w), seq.len(), seq, index)).unwrap()
}

fn alleles(index: &Index, p: usize) -> Vec<String> {
    index.data[&p]
        .iter()
        .map(|a| String::from_utf8(a.clone()).unwrap())
        .collect()
}

fn strip_letters_and_newlines(text: &str) -> String {
    let mut out = String::new();
    let mut depth = 0;
    for c in text.chars() {
        match c {
            '{' => depth += 1,
            '}' => depth -= 1,
            '\n' => {}
            _ if depth == 0 => out.push(c),
            _ => {}
        }
    }
    out
}

fn is_eds(text: &str) -> bool {
    let bytes = text.as_bytes();
    let mut i = 0;
    while i < bytes.len() {
        match bytes[i] {
            b'}' | b',' => return false,
            b'{' => {
                let close = match bytes[i..].iter().position(|&b| b == b'}') {
                    Some(c) => i + c,
                    None => return false,
                };
                let body = &bytes[i + 1..close];
                if body.is_empty() || body.contains(&b'{') || body.contains(&b'\n') {
                    return false;
                }
                if body.split(|&b| b == b',').any(|a| a.is_empty()) {
                    return false;
                }
                i = close + 1;
            }
            _ => i += 1,
        }
    }
    true
}

#[test]
fn empty_variants_wrap_whole_reference() {
    let index = Index::new();
    let out = render("ACGTACGT", &index, 4);
    assert!(out == "ACGT\nACGT" || out == "ACGT\nACGT\n", "{:?}", out);
}

#[test]
fn single_snv() {
    let index = build("X", vec![ready("X", 3, "G", &["T"])], 8);
    assert_eq!(render("ACGTACGT", &index, 80), "AC\n{G,T}GTACGT");
}

#[test]
fn duplicated_site_merges_sorted() {
    let index = build("X", vec![ready("X", 3, "G", &["T"]), ready("X", 3, "G", &["A"])], 8);
    assert_eq!(index.positions, vec![2]);
    assert_eq!(alleles(&index, 2), vec!["A", "G", "T"]);
    assert_eq!(render("ACGTACGT", &index, 80), "AC\n{A,G,T}GTACGT");
}

#[test]
fn position_overrun_stops_ingestion() {
    let events = vec![ready("X", 100, "A", &["C"]), ready("X", 2, "C", &["G"])];
    let index = build("X", events, 10);
    assert!(index.positions.is_empty());
    assert!(index.data.is_empty());
    assert_eq!(render("ACGTACGTAC", &index, 80), "ACGTACGTAC");
}

#[test]
fn overrun_reported_by_record_step() {
    let mut index = Index::new();
    let r = index_record(&rec("X", 11, "A", &["C"]), b"X", 10, &mut index);
    assert_eq!(r, Ok(Ingest::Overrun));
    let r = index_record(&rec("X", 10, "A", &["C"]), b"X", 10, &mut index);
    assert_eq!(r, Ok(Ingest::Indexed));
    assert_eq!(index.positions, vec![9]);
}

#[test]
fn malformed_record_is_skipped() {
    let events = vec![
        ready("X", 2, "C", &["T"]),
        SourceEvent::DecodeError,
        ready("X", 5, "A", &["G"]),
    ];
    let mut index = Index::new();
    let mut skipped = 0;
    for e in &events {
        match index_event(e, b"X", 8, &mut index) {
            Ok(Ingest::Skipped) => skipped += 1,
            Ok(Ingest::Indexed) => {}
            other => panic!("unexpected {:?}", other),
        }
    }
    assert_eq!(skipped, 1);
    assert_eq!(index.positions, vec![1, 4]);
    let whole = build("X", events, 8);
    assert_eq!(whole.positions, vec![1, 4]);
    assert_eq!(alleles(&whole, 1), vec!["C", "T"]);
    assert_eq!(alleles(&whole, 4), vec!["A", "G"]);
}

#[test]
fn line_wrap_before_letter() {
    let index = build("X", vec![ready("X", 6, "A", &["C"])], 10);
    let out = render("AAAAAAAAAA", &index, 3);
    assert!(out.starts_with("AAA\nAA\n{A,C}"), "{:?}", out);
    assert_eq!(out, "AAA\nAA\n{A,C}AAA\nAA");
}

#[test]
fn run_of_exact_width_gets_empty_line() {
    let index = build("X", vec![ready("X", 7, "A", &["C"])], 10);
    assert_eq!(render("AAAAAAAAAA", &index, 3), "AAA\nAAA\n\n{A,C}AAA\nA");
}

#[test]
fn adjacent_variants_emit_empty_line() {
    let index = build("X", vec![ready("X", 3, "G", &["T"]), ready("X", 4, "T", &["A"])], 8);
    assert_eq!(render("ACGTACGT", &index, 80), "AC\n{G,T}G\n{A,T}TACGT");
}

#[test]
fn letter_gains_missing_reference_base() {
    let index = build("X", vec![ready("X", 3, "GT", &["A"])], 8);
    assert_eq!(alleles(&index, 2), vec!["A", "GT"]);
    assert_eq!(render("ACGTACGT", &index, 80), "AC\n{A,GT,G}GTACGT");
}

#[test]
fn other_chromosome_is_ignored() {
    let mut index = Index::new();
    let r = index_record(&rec("Y", 3, "G", &["T"]), b"X", 8, &mut index);
    assert_eq!(r, Ok(Ingest::Ignored));
    assert!(index.positions.is_empty());
    let index = build("X", vec![ready("Y", 3, "G", &["T"]), ready("X", 5, "A", &["C"])], 8);
    assert_eq!(index.positions, vec![4]);
}

#[test]
fn zero_position_is_fatal() {
    let mut index = Index::new();
    let r = index_record(&rec("X", 0, "G", &["T"]), b"X", 8, &mut index);
    assert_eq!(r, Err(IndexError::ZeroPosition));
    let events = vec![ready("X", 2, "C", &["T"]), ready("X", 0, "A", &["G"])];
    assert!(matches!(loop_records(b"X", &events, 8), Err(IndexError::ZeroPosition)));
}

#[test]
fn end_of_stream_finishes() {
    let mut index = Index::new();
    assert_eq!(index_event(&SourceEvent::EndOfStream, b"X", 8, &mut index), Ok(Ingest::Finished));
    let events = vec![ready("X", 2, "C", &["T"]), SourceEvent::EndOfStream, ready("X", 5, "A", &["G"])];
    let index = build("X", events, 8);
    assert_eq!(index.positions, vec![1]);
}

#[test]
fn index_sites_sorted_unique_and_hold_reference() {
    let events = vec![
        ready("X", 4, "T", &["G", "C", "G"]),
        ready("X", 2, "C", &[]),
        ready("X", 4, "TT", &["C", "A"]),
        ready("X", 7, "G", &["GG", "G"]),
        ready("X", 2, "C", &["C"]),
    ];
    let index = build("X", events, 8);
    assert_eq!(index.positions, vec![3, 1, 6]);
    assert_eq!(index.data.len(), 3);
    assert_eq!(alleles(&index, 3), vec!["A", "C", "G", "T", "TT"]);
    assert_eq!(alleles(&index, 1), vec!["C"]);
    assert_eq!(alleles(&index, 6), vec!["G", "GG"]);
    for p in &index.positions {
        let a = &index.data[p];
        assert!(!a.is_empty());
        assert!(a.windows(2).all(|w| w[0] < w[1]));
    }
}

#[test]
fn reference_bytes_outside_letters_are_the_reference() {
    let reference = "ACGTTGCAACGTTGCA";
    let events = vec![
        ready("X", 2, "C", &["A"]),
        ready("X", 5, "TTG", &["T"]),
        ready("X", 5, "T", &["G"]),
        ready("X", 16, "A", &["C", "G"]),
    ];
    let index = build("X", events, reference.len());
    for w in 1..6 {
        let out = render(reference, &index, w);
        assert_eq!(strip_letters_and_newlines(&out), reference);
        assert!(is_eds(&out), "{:?}", out);
    }
}

#[test]
fn output_matches_grammar() {
    let index = build("X", vec![ready("X", 1, "A", &["C", "G"]), ready("X", 8, "T", &["TA"])], 8);
    let out = render("ACGTACGT", &index, 3);
    assert!(is_eds(&out), "{:?}", out);
    assert_eq!(out, "\n{A,C,G}ACG\nTAC\nG\n{T,TA}T");
}

#[test]
fn round_trip_single_identity_record() {
    let reference = "GATTACAGATTACA";
    for p in 0..reference.len() {
        let base = &reference[p..p + 1];
        let index = build("X", vec![ready("X", p as u64 + 1, base, &[base])], reference.len());
        let out = render(reference, &index, 4).replace('\n', "");
        let expected = format!("{}{{{}}}{}", &reference[..p], base, &reference[p..]);
        assert_eq!(out, expected);
    }
}

#[test]
fn rendering_twice_is_identical() {
    let events = || vec![ready("X", 3, "G", &["T"]), ready("X", 6, "C", &["A", "CC"])];
    let a = render("ACGTACGT", &build("X", events(), 8), 2);
    let b = render("ACGTACGT", &build("X", events(), 8), 2);
    assert_eq!(a, b);
}

#[test]
fn sites_out_of_order_stay_well_formed() {
    let index = build("X", vec![ready("X", 5, "A", &["C"]), ready("X", 3, "G", &["T"])], 8);
    assert_eq!(index.positions, vec![4, 2]);
    let out = render("ACGTACGT", &index, 80);
    assert_eq!(out, "ACGT\n{A,C}\n{G,T}GTACGT");
    assert!(is_eds(&out));
}

#[test]
fn compare_bytes_is_lexicographic() {
    assert_eq!(compare_bytes(b"A", b"B"), Ordering::Less);
    assert_eq!(compare_bytes(b"AB", b"A"), Ordering::Greater);
    assert_eq!(compare_bytes(b"", b"A"), Ordering::Less);
    assert_eq!(compare_bytes(b"GT", b"GT"), Ordering::Equal);
    assert_eq!(compare_bytes(b"TA", b"TAA"), Ordering::Less);
    assert_eq!(compare_bytes(b"C", b"AAAA"), Ordering::Greater);
}

#[test]
fn insert_allele_keeps_order_and_drops_repeats() {
    let mut set: Vec<Vec<u8>> = Vec::new();
    for a in ["T", "A", "GT", "A", "G", "T"] {
        insert_allele(&mut set, a.as_bytes().to_vec());
    }
    let got: Vec<&[u8]> = set.iter().map(|a| a.as_slice()).collect();
    assert_eq!(got, vec![&b"A"[..], b"G", b"GT", b"T"]);
}

#[test]
fn config_validation() {
    assert_eq!(config(80).validate(), Ok(()));
    let mut c = config(80);
    c.fasta = String::new();
    assert_eq!(c.validate(), Err(ConfigError::EmptyFastaPath));
    let mut c = config(80);
    c.vcf = String::new();
    assert_eq!(c.validate(), Err(ConfigError::EmptyVcfPath));
    assert_eq!(config(0).validate(), Err(ConfigError::ZeroLineLength));
}

#[test]
fn region_validation() {
    let mut c = config(80);
    assert_eq!(c.check_region(10), Ok(()));
    c.region_start = 3;
    c.region_end = Some(10);
    assert_eq!(c.check_region(10), Ok(()));
    c.region_end = Some(11);
    assert_eq!(c.check_region(10), Err(ConfigError::RegionOutOfRange));
    c.region_end = Some(2);
    assert_eq!(c.check_region(10), Err(ConfigError::RegionOutOfRange));
    c.region_end = None;
    c.region_start = 11;
    assert_eq!(c.check_region(10), Err(ConfigError::RegionOutOfRange));
}
