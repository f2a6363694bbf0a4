use angora_search::cond::{SCond, TagSeg};
use angora_search::dict::records_fit;
use angora_search::spans::{collect_words, ranges_fit};

fn seg(begin: u32, end: u32) -> TagSeg {
    TagSeg { sign: false, begin, end }
}

#[test]
fn no_range_gives_no_word() {
    let words = collect_words(&Vec::new(), &b"ABCDEFG".to_vec());
    assert_eq!(words, Vec::<Vec<u8>>::new());
}

#[test]
fn one_range_gives_its_span_and_its_hull() {
    let words = collect_words(&vec![seg(1, 4)], &b"ABCDEFG".to_vec());
    assert_eq!(words, vec![b"BCD".to_vec(), b"BCD".to_vec()]);
}

#[test]
fn adjacent_ranges_are_one_span() {
    let words = collect_words(&vec![seg(0, 3), seg(3, 6)], &b"ABCDEFG".to_vec());
    assert_eq!(words, vec![b"ABCDEF".to_vec(), b"ABCDEF".to_vec()]);
}

#[test]
fn a_gap_keeps_spans_apart() {
    let words = collect_words(&vec![seg(0, 3), seg(4, 6)], &b"ABCDEFG".to_vec());
    assert_eq!(words, vec![b"ABC".to_vec(), b"EF".to_vec(), b"ABCDEF".to_vec()]);
}

#[test]
fn a_chain_of_three_merges_and_a_fourth_starts_anew() {
    let buf = b"0123456789".to_vec();
    let words = collect_words(&vec![seg(1, 2), seg(2, 4), seg(4, 5), seg(7, 9)], &buf);
    assert_eq!(words, vec![b"1234".to_vec(), b"78".to_vec(), b"12345678".to_vec()]);
}

#[test]
fn ranges_merge_only_in_list_order() {
    let buf = b"0123456789".to_vec();
    let words = collect_words(&vec![seg(3, 6), seg(0, 3)], &buf);
    assert_eq!(words, vec![b"345".to_vec(), b"012".to_vec(), b"012345".to_vec()]);
}

#[test]
fn overlapping_ranges_do_not_merge() {
    let buf = b"0123456789".to_vec();
    let words = collect_words(&vec![seg(0, 4), seg(2, 6)], &buf);
    assert_eq!(words, vec![b"0123".to_vec(), b"2345".to_vec(), b"012345".to_vec()]);
}

#[test]
fn an_empty_range_gives_an_empty_word_and_no_hull() {
    let words = collect_words(&vec![seg(2, 2)], &b"ABCDEFG".to_vec());
    assert_eq!(words, vec![Vec::<u8>::new()]);
}

#[test]
fn a_range_may_reach_the_end_of_the_buffer() {
    let words = collect_words(&vec![seg(4, 7)], &b"ABCDEFG".to_vec());
    assert_eq!(words, vec![b"EFG".to_vec(), b"EFG".to_vec()]);
}

#[test]
fn record_keeps_site_and_ranges() {
    let cond = SCond::new(42, vec![seg(1, 2), seg(5, 9)]);
    assert_eq!(cond.cmpid, 42);
    assert_eq!(cond.offsets, vec![seg(1, 2), seg(5, 9)]);
    let empty = SCond::default();
    assert_eq!(empty.cmpid, 0);
    assert!(empty.offsets.is_empty());
    assert_eq!(cond.clone(), cond);
}

#[test]
fn ranges_fit_a_buffer_that_holds_them() {
    assert!(ranges_fit(&Vec::new(), 0));
    assert!(ranges_fit(&vec![seg(0, 0)], 0));
    assert!(ranges_fit(&vec![seg(0, 3), seg(4, 7)], 7));
    assert!(!ranges_fit(&vec![seg(0, 3), seg(4, 8)], 7));
    assert!(!ranges_fit(&vec![seg(3, 2)], 7));
    assert!(!ranges_fit(&vec![seg(0, 1), seg(9, 9)], 7));
}

#[test]
fn records_fit_when_all_their_ranges_do() {
    assert!(records_fit(&Vec::new(), 0));
    assert!(records_fit(&vec![SCond::new(1, Vec::new())], 0));
    let good = SCond::new(1, vec![seg(0, 2), seg(2, 4)]);
    let bad = SCond::new(2, vec![seg(0, 2), seg(2, 5)]);
    assert!(records_fit(&vec![good.clone(), good.clone()], 4));
    assert!(!records_fit(&vec![good.clone(), bad.clone()], 4));
    assert!(!records_fit(&vec![bad.clone(), good.clone()], 4));
    assert!(records_fit(&vec![bad, good], 5));
}
