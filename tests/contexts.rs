use contextcounter::counter::{scan_windows, ContextCounter, ContextKind};
use contextcounter::kmer::{canonicalize, lex_less_than, reverse_complement_of};

const BASES: [u8; 4] = [b'A', b'C', b'G', b'T'];

fn all_kmers(k: usize) -> Vec<Vec<u8>> {
    let mut out: Vec<Vec<u8>> = vec![Vec::new()];
    for _ in 0..k {
        let mut next = Vec::new();
        for prefix in &out {
            for b in BASES {
                let mut v = prefix.clone();
                v.push(b);
                next.push(v);
            }
        }
        out = next;
    }
    out
}

fn counted(kind: ContextKind, seq: &[u8]) -> ContextCounter {
    let mut c = ContextCounter::new(kind);
    c.count_sequence(seq);
    c
}

fn row_count(c: &ContextCounter, category: &[u8]) -> u64 {
    c.render()
        .into_iter()
        .find(|(cat, _)| cat.as_slice() == category)
        .map(|(_, n)| n)
        .expect("category present")
}

#[test]
fn canonical_of_purine_center_is_reverse_complement() {
    assert_eq!(canonicalize(b"CGT"), Some(b"ACG".to_vec()));
    assert_eq!(canonicalize(b"TAC"), Some(b"GTA".to_vec()));
    assert_eq!(canonicalize(b"AAGTT"), Some(b"AACTT".to_vec()));
}

#[test]
fn canonical_of_pyrimidine_center_is_unchanged() {
    assert_eq!(canonicalize(b"ACG"), Some(b"ACG".to_vec()));
    assert_eq!(canonicalize(b"ACA"), Some(b"ACA".to_vec()));
    assert_eq!(canonicalize(b"GGTCC"), Some(b"GGTCC".to_vec()));
}

#[test]
fn canonical_of_dinucleotide_is_lexicographic_minimum() {
    assert_eq!(canonicalize(b"GT"), Some(b"AC".to_vec()));
    assert_eq!(canonicalize(b"AC"), Some(b"AC".to_vec()));
    assert_eq!(canonicalize(b"CG"), Some(b"CG".to_vec()));
    assert_eq!(canonicalize(b"TT"), Some(b"AA".to_vec()));
}

#[test]
fn canonical_is_a_fixed_point() {
    for k in [2usize, 3, 5] {
        for kmer in all_kmers(k) {
            let once = canonicalize(&kmer).unwrap();
            let twice = canonicalize(&once).unwrap();
            assert_eq!(once, twice);
        }
    }
}

#[test]
fn canonical_odd_has_pyrimidine_center() {
    for k in [3usize, 5] {
        for kmer in all_kmers(k) {
            let cat = canonicalize(&kmer).unwrap();
            assert!(cat[k / 2] == b'C' || cat[k / 2] == b'T');
        }
    }
}

#[test]
fn invalid_bytes_are_rejected() {
    assert_eq!(canonicalize(b"ANG"), None);
    assert_eq!(canonicalize(b"acg"), None);
    assert_eq!(canonicalize(b"AC "), None);
    assert_eq!(canonicalize(b"RY"), None);
    assert_eq!(canonicalize(b"ACGTU"), None);
}

#[test]
fn reverse_complement_and_order() {
    assert_eq!(reverse_complement_of(b"AACGT"), b"ACGTT".to_vec());
    assert_eq!(reverse_complement_of(b""), Vec::<u8>::new());
    assert!(lex_less_than(b"AC", b"GT"));
    assert!(!lex_less_than(b"GT", b"AC"));
    assert!(!lex_less_than(b"CG", b"CG"));
}

#[test]
fn category_counts_per_kind() {
    assert_eq!(ContextCounter::new(ContextKind::Dinucleotide).render().len(), 10);
    assert_eq!(ContextCounter::new(ContextKind::Trinucleotide).render().len(), 32);
    assert_eq!(ContextCounter::new(ContextKind::Pentanucleotide).render().len(), 512);
}

#[test]
fn rows_are_sorted_and_start_at_zero() {
    for kind in [
        ContextKind::Dinucleotide,
        ContextKind::Trinucleotide,
        ContextKind::Pentanucleotide,
    ] {
        let rows = ContextCounter::new(kind).render();
        for pair in rows.windows(2) {
            assert!(pair[0].0 < pair[1].0);
        }
        assert!(rows.iter().all(|(cat, n)| *n == 0 && cat.len() == kind.width()));
    }
}

#[test]
fn scenario_acgtac_trinucleotides() {
    let c = counted(ContextKind::Trinucleotide, b"ACGTAC");
    assert_eq!(c.total(), 4);
    // ACG has center C and counts as itself; CGT has center G and counts as ACG
    assert_eq!(row_count(&c, b"ACG"), 2);
    assert_eq!(row_count(&c, b"GTA"), 2);
    assert_eq!(c.count_of(b"CGT"), 2);
    assert_eq!(c.count_of(b"TAC"), 2);
    assert_eq!(c.count_of(b"ACA"), 0);
}

#[test]
fn scenario_window_with_n_is_dropped() {
    let c = counted(ContextKind::Dinucleotide, b"AN A");
    assert_eq!(c.total(), 0);
    let c = counted(ContextKind::Dinucleotide, b"ANAC");
    assert_eq!(c.total(), 1);
    assert_eq!(row_count(&c, b"AC"), 1);
}

#[test]
fn scenario_sequence_shorter_than_window() {
    let c = counted(ContextKind::Pentanucleotide, b"AC");
    assert_eq!(c.total(), 0);
    assert_eq!(
        c.render_table(),
        ContextCounter::new(ContextKind::Pentanucleotide).render_table()
    );
}

#[test]
fn scenario_empty_sequence() {
    for kind in [
        ContextKind::Dinucleotide,
        ContextKind::Trinucleotide,
        ContextKind::Pentanucleotide,
    ] {
        let c = counted(kind, b"");
        assert_eq!(c.total(), 0);
        assert!(c.render().iter().all(|(_, n)| *n == 0));
    }
}

#[test]
fn scenario_pyrimidine_centers_count_as_themselves() {
    let c = counted(ContextKind::Trinucleotide, b"ACCTTCA");
    for w in [&b"ACC"[..], b"CCT", b"CTT", b"TTC", b"TCA"] {
        assert_eq!(canonicalize(w), Some(w.to_vec()));
        assert_eq!(row_count(&c, w), 1);
    }
    assert_eq!(c.total(), 5);
}

#[test]
fn window_count_of_valid_sequence() {
    let seq = b"ACGTTGCAAC";
    assert_eq!(counted(ContextKind::Dinucleotide, seq).total(), 9);
    assert_eq!(counted(ContextKind::Trinucleotide, seq).total(), 8);
    assert_eq!(counted(ContextKind::Pentanucleotide, seq).total(), 6);
    assert_eq!(counted(ContextKind::Pentanucleotide, b"ACGT").total(), 0);
}

#[test]
fn conservation_of_counts() {
    let seq = b"ACGTNNACGTacgtTTGCAN";
    // valid trinucleotide windows start at 0, 1, 6, 7, 14, 15, 16
    let c = counted(ContextKind::Trinucleotide, seq);
    let rendered: u64 = c.render().iter().map(|(_, n)| *n).sum();
    assert_eq!(rendered, 7);
    assert_eq!(c.total(), 7);
}

#[test]
fn increment_drops_invalid_kmers() {
    let mut c = ContextCounter::new(ContextKind::Trinucleotide);
    c.increment(b"GTA");
    c.increment(b"TAC");
    c.increment(b"NAC");
    c.increment(b"tac");
    assert_eq!(c.total(), 2);
    assert_eq!(row_count(&c, b"GTA"), 2);
}

#[test]
fn record_order_does_not_matter() {
    let first = b"ACGTTAGCNNCAT";
    let second = b"GGGATTACA";
    for kind in [
        ContextKind::Dinucleotide,
        ContextKind::Trinucleotide,
        ContextKind::Pentanucleotide,
    ] {
        let mut a = ContextCounter::new(kind);
        a.count_sequence(first);
        a.count_sequence(second);
        let mut b = ContextCounter::new(kind);
        b.count_sequence(second);
        b.count_sequence(first);
        assert_eq!(a.render_table(), b.render_table());
        assert_eq!(
            counted(kind, first).render_table(),
            counted(kind, first).render_table()
        );
    }
}

#[test]
fn rendering_is_idempotent() {
    let c = counted(ContextKind::Trinucleotide, b"ACGTACGTAC");
    assert_eq!(c.render_table(), c.render_table());
    assert_eq!(c.render(), c.render());
}

#[test]
fn table_text_format() {
    let c = counted(ContextKind::Dinucleotide, b"TTTTTTTTTTTTTCACAC");
    let text = String::from_utf8(c.render_table()).unwrap();
    let lines: Vec<&str> = text.lines().collect();
    assert_eq!(lines.len(), 10);
    assert_eq!(lines[0], "AA\t12");
    assert_eq!(lines[1], "AC\t2");
    assert_eq!(lines[4], "CA\t2");
    assert_eq!(lines[9], "TA\t0");
    assert!(text.ends_with('\n'));
    assert!(!lines.iter().any(|l| l.starts_with("TC")));
}

#[test]
fn dinucleotide_categories() {
    let rows = ContextCounter::new(ContextKind::Dinucleotide).render();
    let cats: Vec<String> = rows
        .into_iter()
        .map(|(cat, _)| String::from_utf8(cat).unwrap())
        .collect();
    assert_eq!(
        cats,
        vec!["AA", "AC", "AG", "AT", "CA", "CC", "CG", "GA", "GC", "TA"]
    );
}

#[test]
fn kind_widths() {
    assert_eq!(ContextKind::Dinucleotide.width(), 2);
    assert_eq!(ContextKind::Trinucleotide.width(), 3);
    assert_eq!(ContextKind::Pentanucleotide.width(), 5);
    assert_eq!(
        ContextCounter::new(ContextKind::Pentanucleotide).kind(),
        ContextKind::Pentanucleotide
    );
}

#[test]
fn merged_shards_match_single_pass() {
    let first = b"ACGTTAGCNNCATTTGA";
    let second = b"GGGATTACAC";
    for kind in [
        ContextKind::Dinucleotide,
        ContextKind::Trinucleotide,
        ContextKind::Pentanucleotide,
    ] {
        let mut whole = ContextCounter::new(kind);
        whole.count_sequence(first);
        whole.count_sequence(second);
        let mut a = counted(kind, first);
        let b = counted(kind, second);
        let expected_total = a.total() + b.total();
        a.merge(&b);
        assert_eq!(a.total(), expected_total);
        assert_eq!(a.render_table(), whole.render_table());
    }
}

#[test]
fn merge_adds_per_category() {
    let mut a = counted(ContextKind::Trinucleotide, b"ACGT");
    let b = counted(ContextKind::Trinucleotide, b"CGTT");
    a.merge(&b);
    // ACG, CGT (as ACG), CGT (as ACG), GTT
    assert_eq!(a.count_of(b"ACG"), 3);
    assert_eq!(a.count_of(b"AAC"), 1);
    assert_eq!(a.count_of(b"GTT"), 1);
    assert_eq!(a.total(), 4);
}

#[test]
fn scanner_windows() {
    let w = scan_windows(b"ACGTAC", 3);
    assert_eq!(w, vec![b"ACG".to_vec(), b"CGT".to_vec(), b"GTA".to_vec(), b"TAC".to_vec()]);
    assert_eq!(scan_windows(b"AC", 5).len(), 0);
    assert_eq!(scan_windows(b"", 2).len(), 0);
    assert_eq!(scan_windows(b"ACGTA", 5), vec![b"ACGTA".to_vec()]);
    assert_eq!(scan_windows(b"AN A", 2).len(), 3);
}
