use bulbasaur::depot::SeedInfo;
use bulbasaur::extras::ExtraData;
use bulbasaur::search::afl::{
    apply_mutator, count_splices, havoc_mutation, locate_diffs, needs_splice, splice_at,
    splice_two_vec, AflPhase, AflStep,
};
use bulbasaur::search::afl_mutators::{
    block_bounds, block_kind, block_len, insert_splice_at, interesting_numbers, item_for,
    mut_arith16_add_be, mut_ascii_num, mut_bitflip, mut_bitflip8, mut_byte_add, mut_byte_sub, mut_clone_copy, mut_clone_fixed,
    mut_const_cmp_data, mut_const_cmp_data_be, mut_del, mut_del_one, mut_extra_insert,
    mut_extra_overwrite, mut_insert_ascii_num, mut_insert_one, mut_interesting32, mut_interesting8,
    mut_overwrite_copy, mut_overwrite_fixed, mut_rand8, mut_shuffle, mut_splice_insert,
    mut_splice_overwrite, mut_switch, mut_trace_cmp_data, remove_at, swap_operands_at,
    write_digits_at,
};
use bulbasaur::search::afl_mutators_scheduled::apply_at;
use bulbasaur::search::ascii::{change_number, change_number_at, print_digits};
use bulbasaur::search::edits::{
    copy_over_at, encode, fill, flip_at, replace, reversed, shift_at, shuffle_at, switch_at,
    write_number_at,
};
use bulbasaur::search::{AFLFuzz, AFLMutator, Found, SearchHandler};

fn handler(buf: &[u8]) -> SearchHandler {
    SearchHandler::new(SeedInfo::new(1, 0), buf.to_vec())
}

#[test]
fn replaces_bytes() {
    let mut buf = b"abcdef".to_vec();
    replace(&mut buf, 1, 3, b"XYZ");
    assert_eq!(buf, b"aXYZdef");
    replace(&mut buf, 0, 0, b"");
    assert_eq!(buf, b"aXYZdef");
    assert_eq!(fill(7, 3), vec![7, 7, 7]);
    assert_eq!(reversed(&vec![1, 2, 3]), vec![3, 2, 1]);
}

#[test]
fn numbers_are_encoded() {
    assert_eq!(encode(0x01020304, 4, false), vec![4, 3, 2, 1]);
    assert_eq!(encode(0x01020304, 4, true), vec![1, 2, 3, 4]);
    assert_eq!(encode(0x01020304, 2, true), vec![3, 4]);
    let mut buf = vec![0; 4];
    write_number_at(&mut buf, 1, 0xabcd, 2, false);
    assert_eq!(buf, vec![0, 0xcd, 0xab, 0]);
}

#[test]
fn flips_undo_themselves() {
    let mut buf = vec![0x0f, 0xf0];
    flip_at(&mut buf, 1, 0x18);
    assert_eq!(buf, vec![0x0f, 0xe8]);
    flip_at(&mut buf, 1, 0x18);
    assert_eq!(buf, vec![0x0f, 0xf0]);
}

#[test]
fn shifts_wrap_and_undo_themselves() {
    let mut buf = vec![0xff, 0xff, 0x01];
    shift_at(&mut buf, 0, 2, false, 3, false);
    assert_eq!(buf, vec![0x02, 0x00, 0x01]);
    shift_at(&mut buf, 0, 2, false, 3, true);
    assert_eq!(buf, vec![0xff, 0xff, 0x01]);
    let mut buf = vec![0, 0, 0, 1];
    shift_at(&mut buf, 0, 4, true, 2, true);
    assert_eq!(buf, vec![0xff; 4]);
    let mut buf = vec![0];
    shift_at(&mut buf, 0, 1, false, 1, true);
    assert_eq!(buf, vec![255]);
}

#[test]
fn switches_undo_themselves() {
    let mut buf = b"abcdefgh".to_vec();
    let mut tmp = Vec::new();
    switch_at(&mut buf, 5, 0, 2, &mut tmp);
    assert_eq!(buf, b"fgcdeabh");
    assert_eq!(tmp, b"fg");
    switch_at(&mut buf, 5, 0, 2, &mut tmp);
    assert_eq!(buf, b"abcdefgh");
}

#[test]
fn copies_may_overlap() {
    let mut buf = b"abcdef".to_vec();
    copy_over_at(&mut buf, 0, 1, 4);
    assert_eq!(buf, b"aabcdf");
}

#[test]
fn shuffles_follow_their_picks() {
    let mut buf = b"xabcd".to_vec();
    shuffle_at(&mut buf, 1, &vec![0, 1, 0]);
    // d and a change places, then c stays with b, then b and d.
    assert_eq!(buf.len(), 5);
    assert_eq!(buf[0], b'x');
    let mut sorted = buf.clone();
    sorted.sort();
    assert_eq!(sorted, b"abcdx");
    assert_eq!(buf, b"xcdba");
}

#[test]
fn removes_blocks() {
    let mut buf = b"abcdef".to_vec();
    remove_at(&mut buf, 2, 3);
    assert_eq!(buf, b"abf");
}

#[test]
fn blocks_keep_to_their_limits() {
    assert_eq!(block_bounds(0, 1000), (1, 32));
    assert_eq!(block_bounds(1, 1000), (32, 128));
    assert_eq!(block_bounds(2, 1000), (128, 1000));
    assert_eq!(block_bounds(3, 40000), (1500, 32768));
    assert_eq!(block_bounds(3, 10), (1, 10));
    assert_eq!(block_bounds(1, 32), (1, 32));
}

#[test]
fn draws_decide_on_blocks() {
    assert_eq!([block_kind(0, 0), block_kind(1, 0)], [0, 1]);
    assert_eq!([block_kind(2, 9), block_kind(2, 1), block_kind(2, 0)], [2, 2, 3]);
    assert_eq!(block_len(0, 1000, 0), 1);
    assert_eq!(block_len(1, 1000, 96), 128);
    assert_eq!(block_len(3, 40000, 10), 1510);
    assert_eq!(block_len(3, 10, 9), 10);
    let buf = b"abc".to_vec();
    assert_eq!(item_for(&buf, 2, Some(7)), 7);
    assert_eq!(item_for(&buf, 3, None), b'c');
    assert_eq!(item_for(&buf, 1, None), b'a');
    assert_eq!(item_for(&buf, 0, None), b'a');
}

#[test]
fn interesting_numbers_are_listed() {
    assert_eq!(interesting_numbers(1).len(), 9);
    assert_eq!(interesting_numbers(2).len(), 19);
    assert_eq!(interesting_numbers(4).len(), 27);
    assert_eq!(interesting_numbers(1)[0], -128);
    assert_eq!(interesting_numbers(2)[18], 32767);
    assert_eq!(interesting_numbers(4)[26], 2147483647);
}

#[test]
fn decimal_numbers_change() {
    assert_eq!(change_number(9, 0, 0, 0), 10);
    assert_eq!(change_number(i64::MAX, 0, 0, 0), i64::MIN);
    assert_eq!(change_number(0, 1, 0, 0), -1);
    assert_eq!(change_number(i64::MAX, 2, 0, 0), -2);
    assert_eq!(change_number(-7, 3, 0, 0), -3);
    assert_eq!(change_number(7, 3, 0, 0), 3);
    assert_eq!(change_number(3, 4, 100, 9), 10);
    assert_eq!(change_number(0, 4, 100, 9), 9);
    assert_eq!(change_number(-3, 4, 100, 9), 9);
    assert_eq!(change_number(3, 5, 0, 9), 12);
    assert_eq!(change_number(3, 6, 0, 9), -6);
    assert_eq!(change_number(3, 7, 0, 0), -4);
    assert_eq!(print_digits(0), b"0");
    assert_eq!(print_digits(u64::MAX), b"18446744073709551615");
}

#[test]
fn numbers_in_inputs_change() {
    let mut buf = b"ab99cd".to_vec();
    change_number_at(&mut buf, 0, 0, 0, 0);
    assert_eq!(buf, b"ab100cd");
    let mut buf = b"7 abcd".to_vec();
    change_number_at(&mut buf, 3, 1, 0, 0);
    assert_eq!(buf, b"6 abcd");
    let mut buf = b"x=-5;yy".to_vec();
    change_number_at(&mut buf, 0, 0, 0, 0);
    assert_eq!(buf, b"x=--4;yy");
    let mut buf = b"abcdef".to_vec();
    change_number_at(&mut buf, 2, 0, 0, 0);
    assert_eq!(buf, b"abcdef");
    let mut buf = b"abcdefgh".to_vec();
    change_number_at(&mut buf, 2, 0, 0, 0);
    assert_eq!(buf, b"ab1defgh");
    let mut buf = b"99999999999999999999".to_vec();
    change_number_at(&mut buf, 0, 0, 0, 0);
    assert_eq!(buf, b"1");
    let mut buf = b"9223372036854775807".to_vec();
    change_number_at(&mut buf, 0, 0, 0, 0);
    assert_eq!(buf, b"-9223372036854775808");
}

#[test]
fn digits_are_written() {
    let mut buf = b"abcdefgh".to_vec();
    write_digits_at(&mut buf, 1, 12345, 3);
    assert_eq!(buf, b"a123efgh");
    let mut buf = b"abcdefgh".to_vec();
    write_digits_at(&mut buf, 1, 7, 3);
    assert_eq!(buf, b"a7cdefgh");
}

#[test]
fn operands_are_exchanged() {
    let mut buf = b"..ab..".to_vec();
    assert!(swap_operands_at(&mut buf, 0, &b"ba".to_vec(), &b"XYZ".to_vec()));
    assert_eq!(buf, b"..ZYX..");
    let mut buf = b"..ab..".to_vec();
    assert!(swap_operands_at(&mut buf, 0, &b"ab".to_vec(), &b"XY".to_vec()));
    assert_eq!(buf, b"..XY..");
    let mut buf = b"..XY..".to_vec();
    assert!(swap_operands_at(&mut buf, 0, &b"ab".to_vec(), &b"XY".to_vec()));
    assert_eq!(buf, b"..ab..");
    let mut buf = b"..ab..".to_vec();
    assert!(!swap_operands_at(&mut buf, 3, &b"ab".to_vec(), &b"XY".to_vec()));
    assert_eq!(buf, b"..ab..");
}

#[test]
fn splice_insert_adds_a_byte() {
    let mut buf = b"abcd".to_vec();
    let mut tmp = b"0123456789".to_vec();
    insert_splice_at(&mut buf, &b"WXYZ".to_vec(), 1, 2, 2, &mut tmp);
    assert_eq!(buf, b"abXYcd6");
    assert_eq!(tmp, b"abcd");
    let mut tmp = Vec::new();
    let mut buf = b"abcd".to_vec();
    insert_splice_at(&mut buf, &b"WXYZ".to_vec(), 0, 4, 1, &mut tmp);
    assert_eq!(buf, b"abcdW\0");
}

#[test]
fn short_inputs_are_left_alone() {
    let mut rng = rand::thread_rng();
    let mut tmp = Vec::new();
    let mut empty: Vec<u8> = Vec::new();
    mut_bitflip(&mut empty, &mut rng);
    mut_interesting8(&mut empty, &mut rng);
    mut_rand8(&mut empty, &mut rng);
    mut_byte_add(&mut empty, &mut rng);
    mut_byte_sub(&mut empty, &mut rng);
    mut_bitflip8(&mut empty, &mut rng);
    assert!(empty.is_empty());
    let mut one = vec![5];
    mut_overwrite_copy(&mut one, &mut rng);
    mut_overwrite_fixed(&mut one, &mut rng);
    mut_del(&mut one, &mut rng);
    mut_del_one(&mut one, &mut rng);
    mut_insert_one(&mut one, &mut rng);
    mut_arith16_add_be(&mut one, &mut rng);
    assert_eq!(one, vec![5]);
    let mut three = vec![1, 2, 3];
    mut_switch(&mut three, &mut rng, &mut tmp);
    mut_shuffle(&mut three, &mut rng);
    mut_ascii_num(&mut three, &mut rng, &mut tmp);
    mut_interesting32(&mut three, &mut rng);
    assert_eq!(three, vec![1, 2, 3]);
}

#[test]
fn bit_flips_change_one_bit() {
    let mut rng = rand::thread_rng();
    for _ in 0..200 {
        let mut buf = vec![0u8; 5];
        mut_bitflip(&mut buf, &mut rng);
        let ones: u32 = buf.iter().map(|b| b.count_ones()).sum();
        assert_eq!(ones, 1);
        let mut buf = vec![0u8; 5];
        mut_rand8(&mut buf, &mut rng);
        assert_eq!(buf.iter().filter(|b| **b != 0).count(), 1);
        let mut buf = vec![0u8; 5];
        mut_bitflip8(&mut buf, &mut rng);
        assert_eq!(buf.iter().filter(|b| **b == 255).count(), 1);
    }
}

#[test]
fn operators_change_lengths_as_they_should() {
    let mut rng = rand::thread_rng();
    let mut tmp = Vec::new();
    for _ in 0..100 {
        let base: Vec<u8> = (0..100).collect();
        let mut buf = base.clone();
        mut_clone_copy(&mut buf, &mut rng, &mut tmp);
        assert!(buf.len() > 100 && buf.len() <= 200);
        assert_eq!(tmp, base);
        let mut buf = base.clone();
        mut_clone_fixed(&mut buf, &mut rng, &mut tmp);
        assert!(buf.len() > 100);
        let mut buf = base.clone();
        mut_overwrite_copy(&mut buf, &mut rng);
        assert_eq!(buf.len(), 100);
        assert_ne!(buf, base);
        let mut buf = base.clone();
        mut_overwrite_fixed(&mut buf, &mut rng);
        assert_eq!(buf.len(), 100);
        let mut buf = base.clone();
        mut_switch(&mut buf, &mut rng, &mut tmp);
        let mut sorted = buf.clone();
        sorted.sort();
        assert_eq!(sorted, base);
        assert_ne!(buf, base);
        let mut buf = base.clone();
        mut_shuffle(&mut buf, &mut rng);
        buf.sort();
        assert_eq!(buf, base);
        let mut buf = base.clone();
        mut_del(&mut buf, &mut rng);
        assert!(!buf.is_empty() && buf.len() < 100);
        let mut buf = base.clone();
        mut_del_one(&mut buf, &mut rng);
        assert_eq!(buf.len(), 99);
        let mut buf = base.clone();
        mut_insert_one(&mut buf, &mut rng);
        assert_eq!(buf.len(), 101);
        let mut buf = base.clone();
        mut_insert_ascii_num(&mut buf, &mut rng);
        assert_eq!(buf.len(), 100);
        let other = vec![200u8; 50];
        let mut buf = base.clone();
        mut_splice_overwrite(&mut buf, &other, &mut rng);
        assert_eq!(buf.len(), 100);
        assert!(buf.contains(&200));
        let mut buf = base.clone();
        mut_splice_insert(&mut buf, &other, &mut rng, &mut tmp);
        assert!(buf.len() > 101 && buf.len() <= 151);
    }
}

#[test]
fn tokens_are_put_in() {
    let mut rng = rand::thread_rng();
    let extras = vec![ExtraData::new(b"TOKEN".to_vec())];
    let mut buf = b"abc".to_vec();
    mut_extra_overwrite(&mut buf, &extras, &mut rng);
    assert_eq!(buf, b"abc");
    mut_extra_insert(&mut buf, &extras, &mut rng);
    assert_eq!(buf.len(), 8);
    assert!(buf.windows(5).any(|w| w == b"TOKEN"));
    let mut buf = b"abcde".to_vec();
    mut_extra_overwrite(&mut buf, &extras, &mut rng);
    assert_eq!(buf, b"TOKEN");
    let mut buf = vec![0; 1048576 - 5];
    mut_extra_insert(&mut buf, &extras, &mut rng);
    assert_eq!(buf.len(), 1048576 - 5);
}

#[test]
fn operands_are_put_in() {
    let mut rng = rand::thread_rng();
    let mut h = handler(b"0123");
    let mut buf = b"0123".to_vec();
    mut_const_cmp_data(&mut buf, &h, &mut rng);
    mut_trace_cmp_data(&mut buf, &h, &mut rng);
    assert_eq!(buf, b"0123");
    h.operands.const_numbers.push((0x41424344, 4));
    mut_const_cmp_data(&mut buf, &h, &mut rng);
    assert_eq!(buf, b"DCBA");
    mut_const_cmp_data_be(&mut buf, &h, &mut rng);
    assert_eq!(buf, b"ABCD");
    h.operands.direct_copy_pairs.push((b"BADC".to_vec(), b"1234".to_vec()));
    h.operands.index_to_branch_dict.push(3);
    let mut buf = b"CDAB".to_vec();
    mut_trace_cmp_data(&mut buf, &h, &mut rng);
    assert_eq!(buf, b"4321");
}

#[test]
fn splices_mix_two_inputs() {
    let a = b"aaXaaYaa".to_vec();
    let b = b"aaPaaQaazz".to_vec();
    assert_eq!(locate_diffs(&a, &b, 8), (Some(2), Some(5)));
    assert_eq!(splice_at(&a, &b, 0).unwrap(), b"aaPaaQaazz");
    assert_eq!(splice_at(&a, &b, 1).unwrap(), b"aaXaaQaazz");
    assert_eq!(splice_at(&a, &b, 4).unwrap(), b"aaXaaQaazz");
    assert!(splice_at(&a, &a, 1).is_none());
    assert!(splice_at(&b"a".to_vec(), &b"b".to_vec(), 1).is_none());
    assert!(splice_at(&b"abc".to_vec(), &b"abd".to_vec(), 1).is_none());
    let r = splice_two_vec(&a, &b).unwrap();
    assert_eq!(r.len(), 10);
}

#[test]
fn havoc_applies_its_plan() {
    let mut rng = rand::thread_rng();
    let mut tmp = Vec::new();
    let h = handler(b"0123456789");
    let plan = vec![AFLMutator::InsertOne, AFLMutator::SpliceInsert, AFLMutator::DelOne];
    assert_eq!(count_splices(&plan), 1);
    assert!(needs_splice(AFLMutator::SpliceOverwrite));
    assert!(!needs_splice(AFLMutator::Del));
    let mut buf = h.buf.clone();
    havoc_mutation(&plan, &mut buf, &h, &Vec::new(), &vec![vec![9; 4]], &mut rng, &mut tmp);
    assert!(buf.len() >= 12 && buf.len() <= 15);
    let all = AFLFuzz::new(false, 1).mutators;
    assert_eq!(all.len(), 40);
    for m in all {
        let mut buf = h.buf.clone();
        apply_mutator(m, &mut buf, &h, &Vec::new(), &vec![1; 10], &mut rng, &mut tmp);
        assert!(!buf.is_empty());
    }
}

#[test]
fn havoc_stage_has_its_order() {
    let mut h = handler(b"seed");
    let mut afl = AFLFuzz::new(false, 2);
    afl.begin(&mut h, 100, 3);
    assert_eq!(afl.max_stacking, 8);
    assert_eq!(h.initial_max_execs, 50);
    assert_eq!(h.final_max_execs, 3200);
    assert_eq!(afl.base, b"seed");
    assert_eq!(afl.next_step(&mut h, true), AflStep::Mutate);
    assert_eq!(h.exec_count, 1);
    h.skip = true;
    for i in 0..8 {
        assert_eq!(afl.next_step(&mut h, true), AflStep::FetchSplice);
        if i % 2 == 0 {
            afl.splice(&mut h, &b"seed".to_vec());
            assert!(h.skip);
        } else {
            afl.splice(&mut h, &b"SxyD".to_vec());
            assert!(!h.skip);
            assert_eq!(h.initial_max_execs, 6);
            assert_eq!(h.final_max_execs, 400);
            assert_eq!(afl.base.len(), 4);
            assert_eq!(h.exec_count, 0);
            assert_eq!(afl.next_step(&mut h, true), AflStep::Mutate);
            assert_eq!(h.exec_count, 1);
            h.skip = true;
        }
    }
    assert_eq!(afl.next_step(&mut h, true), AflStep::Done);
    assert_eq!(afl.phase, AflPhase::Splice { tried: 8, mutating: false });
}

#[test]
fn plans_are_drawn() {
    let mut rng = rand::thread_rng();
    let mut afl = AFLFuzz::new(false, 1);
    for _ in 0..50 {
        let k = AFLFuzz::choose_stacking(&mut rng);
        assert!((1..=4).contains(&k));
        afl.max_stacking = 1 << k;
        let plan = afl.choose_mutators(&mut rng);
        assert!(!plan.is_empty() && plan.len() <= 16);
    }
}

#[test]
fn scheduled_havoc_counts_and_credits() {
    let mut rng = rand::thread_rng();
    let h = handler(b"0123456789");
    let mut afl = AFLFuzz::new(true, 1);
    let picks = vec![(28, 0), (28, 9), (27, 3)];
    let mut buf = h.buf.clone();
    let (m, p) =
        afl.havoc_mutation_scheduled(&picks, &mut buf, &h, &Vec::new(), &Vec::new(), &mut rng);
    assert_eq!(buf.len(), 11);
    assert_eq!((m[28], m[27], m[0]), (2, 1, 0));
    assert_eq!((p[0], p[9], p[3], p[1]), (1, 1, 1, 0));
    assert_eq!(afl.mutators_usage_cnt[28], 3);
    assert_eq!(afl.total_usage_cnt, 4);
    let found = Found { has_new_path: true, has_new_edge: true, has_higher_match: false };
    afl.update_ucb_value(found, &m, &p);
    assert_eq!(afl.mutators_value[28], 31);
    assert_eq!(afl.mutators_value[27], 16);
    assert_eq!(afl.mutators_value[0], 1);
    assert_eq!(afl.positions_value[9], 16);
    let none = Found { has_new_path: false, has_new_edge: false, has_higher_match: false };
    afl.update_ucb_value(none, &m, &p);
    assert_eq!(afl.mutators_value[28], 31);
}

#[test]
fn scheduled_operators_keep_to_their_range() {
    let mut rng = rand::thread_rng();
    let mut h = handler(b"x");
    h.operands.direct_copy_pairs.push((b"ab".to_vec(), b"XY".to_vec()));
    h.operands.index_to_branch_dict.push(0);
    let mut tmp = Vec::new();
    let all = AFLFuzz::new(true, 1).mutators;
    let seed: Vec<u8> = (0..105).map(|i| 128 + i as u8).collect();
    let other = vec![7u8; 50];
    // What changes lies at the place, or just before it where the bytes would
    // not fit in.
    for &m in &all {
        for at in [0usize, 1, 50, 100, 103, 104] {
            let mut buf = seed.clone();
            apply_at(m, at, &mut buf, &h, &Vec::new(), &other, &mut rng, &mut tmp);
            let same = seed.iter().zip(&buf).take_while(|(a, b)| a == b).count();
            match m {
                AFLMutator::Switch | AFLMutator::AsciiNum => {},
                _ => assert!(same >= at.min(105 - 8), "{:?} at {}", m, at),
            }
        }
    }
    let mut buf = seed.clone();
    apply_at(AFLMutator::BitFilp8, 42, &mut buf, &h, &Vec::new(), &other, &mut rng, &mut tmp);
    assert_eq!(buf[42], !seed[42]);
    let mut buf = seed.clone();
    apply_at(AFLMutator::DelOne, 104, &mut buf, &h, &Vec::new(), &other, &mut rng, &mut tmp);
    assert_eq!(buf, seed[..104].to_vec());
    let mut buf = b"..ab..ab".to_vec();
    apply_at(AFLMutator::TraceCmpData, 3, &mut buf, &h, &Vec::new(), &other, &mut rng, &mut tmp);
    assert_eq!(buf, b"..ab..XY".to_vec());

    for position in 0..10 {
        let mut afl = AFLFuzz::new(true, 1);
        let hi = if position == 9 { 105 } else { (position + 1) * 10 };
        for _ in 0..20 {
            let mut buf = seed.clone();
            let picks = vec![(0, position)];
            let none = Vec::new();
            afl.havoc_mutation_scheduled(&picks, &mut buf, &h, &Vec::new(), &none, &mut rng);
            let changed: Vec<usize> = (0..105).filter(|&i| buf[i] != seed[i]).collect();
            assert_eq!(changed.len(), 1);
            assert!(position * 10 <= changed[0] && changed[0] < hi);
        }
    }
}
