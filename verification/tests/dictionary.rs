use angora_search::cond::{SCond, TagSeg};
use angora_search::dict::Dict;

fn seg(begin: u32, end: u32) -> TagSeg {
    TagSeg { sign: false, begin, end }
}

fn one(begin: u32, end: u32) -> SCond {
    SCond::new(0, vec![seg(begin, end)])
}

fn counting_buffer() -> Vec<u8> {
    let mut buf = Vec::new();
    for i in 0..200u32 {
        buf.push((i % 251) as u8);
    }
    buf
}

fn total(dict: &Dict) -> usize {
    let mut n = 0;
    let mut idx = 0;
    loop {
        let list = dict.get_list(idx);
        if list.is_empty() {
            return n;
        }
        n += list.len();
        idx += 1;
    }
}

#[test]
fn adjacent_ranges_merge_into_one_token() {
    let mut dict = Dict::new();
    let conds = vec![SCond::new(7, vec![seg(0, 3), seg(3, 6)])];
    dict.filter(conds, b"ABCDEFG".to_vec());
    assert_eq!(dict.get_list(0), vec![b"ABCDEFG"[0..6].to_vec()]);
    assert_eq!(dict.get_list(1), Vec::<Vec<u8>>::new());
    assert_eq!(dict.get_len(), "0,0,0,1,0,0,0,0,");
}

#[test]
fn adjacent_ranges_over_the_whole_buffer_merge_into_it() {
    let mut dict = Dict::new();
    let conds = vec![SCond::new(7, vec![seg(0, 4), seg(4, 7)])];
    dict.filter(conds, b"ABCDEFG".to_vec());
    assert_eq!(dict.get_list(0), vec![b"ABCDEFG".to_vec()]);
    assert_eq!(dict.get_list(1), Vec::<Vec<u8>>::new());
}

#[test]
fn ranges_with_a_gap_give_their_parts_and_their_hull() {
    let mut dict = Dict::new();
    let conds = vec![SCond::new(7, vec![seg(0, 3), seg(4, 6)])];
    dict.filter(conds, b"ABCDEFG".to_vec());
    assert_eq!(dict.get_list(0), vec![b"EF".to_vec()]);
    assert_eq!(dict.get_list(1), vec![b"ABC".to_vec()]);
    assert_eq!(dict.get_list(2), vec![b"ABCDEFG"[0..6].to_vec()]);
    assert_eq!(dict.get_list(3), Vec::<Vec<u8>>::new());
}

#[test]
fn histogram_counts_by_size_class() {
    let mut dict = Dict::new();
    let conds = vec![
        one(0, 1),
        one(1, 3),
        one(3, 7),
        one(7, 11),
        one(11, 19),
        one(19, 51),
        one(51, 179),
    ];
    dict.filter(conds, counting_buffer());
    assert_eq!(dict.length_histogram(), [1, 1, 2, 0, 1, 0, 1, 1]);
    assert_eq!(dict.get_len(), "1,1,2,0,1,0,1,1,");
}

#[test]
fn histogram_class_borders() {
    let mut dict = Dict::new();
    let conds = vec![
        one(0, 5),
        one(0, 7),
        one(0, 15),
        one(0, 16),
        one(0, 31),
        one(0, 127),
        one(0, 128),
        one(0, 200),
    ];
    dict.filter(conds, counting_buffer());
    assert_eq!(dict.length_histogram(), [0, 0, 0, 2, 1, 2, 1, 2]);
    assert_eq!(dict.get_len(), "0,0,0,2,1,2,1,2,");
}

#[test]
fn lengths_zero_and_three_are_in_no_class() {
    let mut dict = Dict::new();
    dict.filter(vec![one(4, 4), one(0, 3)], b"ABCDEFG".to_vec());
    assert_eq!(dict.get_list(0), vec![Vec::<u8>::new()]);
    assert_eq!(dict.get_list(1), vec![b"ABC".to_vec()]);
    assert_eq!(dict.get_len(), "0,0,0,0,0,0,0,0,");
}

#[test]
fn histogram_counts_every_token_of_a_bucket() {
    let mut dict = Dict::new();
    let mut conds = Vec::new();
    for i in 0..12u32 {
        conds.push(one(i, i + 2));
    }
    dict.filter(conds, counting_buffer());
    assert_eq!(dict.get_list(0).len(), 12);
    assert_eq!(dict.get_len(), "0,12,0,0,0,0,0,0,");
}

#[test]
fn new_dictionary_is_empty() {
    let dict = Dict::new();
    assert!(dict.is_empty());
    assert_eq!(dict.get_list(0), Vec::<Vec<u8>>::new());
    assert_eq!(dict.get_len(), "0,0,0,0,0,0,0,0,");
    assert!(Dict::default().is_empty());
}

#[test]
fn filter_without_records_changes_nothing() {
    let mut dict = Dict::new();
    dict.filter(Vec::new(), b"ABC".to_vec());
    assert!(dict.is_empty());
    dict.filter(vec![SCond::new(3, Vec::new())], b"ABC".to_vec());
    assert!(dict.is_empty());
}

#[test]
fn get_list_out_of_range_is_empty() {
    let mut dict = Dict::new();
    dict.filter(vec![one(0, 2)], b"ABC".to_vec());
    assert!(!dict.is_empty());
    assert_eq!(dict.get_list(0), vec![b"AB".to_vec()]);
    assert_eq!(dict.get_list(1), Vec::<Vec<u8>>::new());
    assert_eq!(dict.get_list(usize::MAX), Vec::<Vec<u8>>::new());
}

#[test]
fn a_token_is_kept_once() {
    let mut dict = Dict::new();
    dict.filter(vec![one(0, 2), one(0, 2)], b"ABAB".to_vec());
    assert_eq!(dict.get_list(0), vec![b"AB".to_vec()]);
    dict.filter(vec![one(2, 4)], b"ABAB".to_vec());
    assert_eq!(dict.get_list(0), vec![b"AB".to_vec()]);
    assert_eq!(total(&dict), 1);
}

#[test]
fn a_bucket_keeps_arrival_order() {
    let mut dict = Dict::new();
    dict.filter(vec![one(2, 4), one(0, 2), one(1, 3)], b"ABCD".to_vec());
    assert_eq!(dict.get_list(0), vec![b"CD".to_vec(), b"AB".to_vec(), b"BC".to_vec()]);
}

#[test]
fn buckets_come_in_ascending_length() {
    let mut dict = Dict::new();
    let buf = counting_buffer();
    dict.filter(vec![one(0, 5)], buf.clone());
    dict.filter(vec![one(0, 2)], buf.clone());
    dict.filter(vec![one(0, 9)], buf.clone());
    dict.filter(vec![one(0, 1)], buf.clone());
    dict.filter(vec![one(10, 15)], buf.clone());
    let lengths: Vec<usize> = (0..4).map(|i| dict.get_list(i)[0].len()).collect();
    assert_eq!(lengths, vec![1, 2, 5, 9]);
    assert_eq!(dict.get_list(2), vec![buf[0..5].to_vec(), buf[10..15].to_vec()]);
    assert_eq!(dict.get_list(4), Vec::<Vec<u8>>::new());
}

#[test]
fn a_shorter_token_moves_in_front() {
    let mut dict = Dict::new();
    dict.filter(vec![one(0, 3)], b"ABCD".to_vec());
    assert_eq!(dict.get_list(0), vec![b"ABC".to_vec()]);
    dict.filter(vec![one(0, 1)], b"ABCD".to_vec());
    assert_eq!(dict.get_list(0), vec![b"A".to_vec()]);
    assert_eq!(dict.get_list(1), vec![b"ABC".to_vec()]);
}

#[test]
fn the_dictionary_only_grows() {
    let mut dict = Dict::new();
    let buf = counting_buffer();
    let mut before = total(&dict);
    for round in 0..20u32 {
        let conds = vec![
            SCond::new(round, vec![seg(round, round + 3), seg(round + 3, round + 4)]),
            one(round % 5, round % 5 + 2),
        ];
        dict.filter(conds, buf.clone());
        let after = total(&dict);
        assert!(after >= before);
        before = after;
    }
    assert_eq!(before, 20 + 5);
}

#[test]
fn offering_a_held_token_leaves_its_bucket_as_it_is() {
    let mut dict = Dict::new();
    dict.filter(vec![one(0, 4), one(4, 8)], b"ABCDEFGH".to_vec());
    let bucket = dict.get_list(0);
    assert_eq!(bucket.len(), 2);
    dict.filter(vec![one(4, 8)], b"ABCDEFGH".to_vec());
    dict.filter(vec![one(0, 4)], b"ABCDxxxx".to_vec());
    assert_eq!(dict.get_list(0), bucket);
}

#[test]
fn records_are_cut_from_the_buffer_given() {
    let mut dict = Dict::new();
    dict.filter(vec![one(0, 2)], b"xy".to_vec());
    dict.filter(vec![one(0, 2)], b"zw".to_vec());
    assert_eq!(dict.get_list(0), vec![b"xy".to_vec(), b"zw".to_vec()]);
}

#[test]
fn a_clone_is_a_dictionary_of_its_own() {
    let mut dict = Dict::new();
    dict.filter(vec![one(0, 2)], b"AB".to_vec());
    let copy = dict.clone();
    dict.filter(vec![one(0, 1)], b"AB".to_vec());
    assert_eq!(copy.get_list(0), vec![b"AB".to_vec()]);
    assert_eq!(copy.get_list(1), Vec::<Vec<u8>>::new());
    assert_eq!(dict.get_list(0), vec![b"A".to_vec()]);
    assert_eq!(dict.get_list(1), vec![b"AB".to_vec()]);
}

fn plain_words(offsets: &[TagSeg], buf: &[u8]) -> Vec<Vec<u8>> {
    let mut words = Vec::new();
    let mut i = 0;
    while i < offsets.len() {
        let begin = offsets[i].begin;
        let mut end = offsets[i].end;
        while i + 1 < offsets.len() && offsets[i + 1].begin == end {
            i += 1;
            end = offsets[i].end;
        }
        words.push(buf[begin as usize..end as usize].to_vec());
        i += 1;
    }
    let lowest = offsets.iter().map(|s| s.begin).min();
    let highest = offsets.iter().map(|s| s.end).max();
    if let (Some(lo), Some(hi)) = (lowest, highest) {
        if lo < hi {
            words.push(buf[lo as usize..hi as usize].to_vec());
        }
    }
    words
}

#[test]
fn dictionary_agrees_with_a_plain_model() {
    let mut state: u64 = 0x2545_f491_4f6c_dd1d;
    let mut next = move |bound: u64| {
        state ^= state << 13;
        state ^= state >> 7;
        state ^= state << 17;
        state % bound
    };
    let buf: Vec<u8> = (0..48).map(|_| next(3) as u8).collect();
    let mut dict = Dict::new();
    let mut model: Vec<(usize, Vec<Vec<u8>>)> = Vec::new();
    for round in 0..200u32 {
        let mut conds = Vec::new();
        for _ in 0..next(3) {
            let mut offsets: Vec<TagSeg> = Vec::new();
            for _ in 0..next(5) {
                let begin = match offsets.last() {
                    Some(prev) if next(2) == 0 => prev.end,
                    _ => next(48) as u32,
                };
                let end = (begin + next(6) as u32).min(48);
                offsets.push(seg(begin, end));
            }
            for word in plain_words(&offsets, &buf) {
                match model.iter_mut().find(|(key, _)| *key == word.len()) {
                    Some((_, bucket)) => {
                        if !bucket.contains(&word) {
                            bucket.push(word);
                        }
                    }
                    None => {
                        model.push((word.len(), vec![word]));
                        model.sort_by_key(|(key, _)| *key);
                    }
                }
            }
            conds.push(SCond::new(round, offsets));
        }
        dict.filter(conds, buf.clone());
        for (idx, (_, bucket)) in model.iter().enumerate() {
            assert_eq!(&dict.get_list(idx), bucket);
        }
        assert_eq!(dict.get_list(model.len()), Vec::<Vec<u8>>::new());
        assert_eq!(dict.is_empty(), model.is_empty());
    }
    assert!(model.len() > 5);
    assert!(total(&dict) > 50);
}
