use fractran::tandem_repeat::{
    as_rep_blocks, find_rep_blocks, find_repeat_info, find_repeat_info_prefix, RepBlock,
    RepeatInfo, ToStringVec,
};
use fractran::transcript::{strip_reps, StrippedBlock, Trans};
use fractran::tandem_repeat::{rep_totals, RepTotals};

fn fails(xs: &[usize]) -> Trans {
    Trans { reg_fail: xs.to_vec() }
}

fn letters(s: &str) -> Vec<Trans> {
    s.bytes().map(|b| Trans { reg_fail: vec![0; (b - b'A') as usize] }).collect()
}

#[test]
fn test_simple() {
    let message = vec![13; 6];
    let result = find_repeat_info(&message);
    let expected = vec![RepeatInfo { start: 0, period: 1, count: 6 }];
    assert_eq!(result, expected);
}

#[test]
fn test_offset() {
    let message = vec![1, 2, 3, 4, 3, 4, 3, 4, 1];
    let result = find_repeat_info(&message);
    let expected = vec![RepeatInfo { start: 2, period: 2, count: 3 }];
    assert_eq!(result, expected);
}

#[test]
fn no_repeat_in_short_or_plain_data() {
    let empty: Vec<u8> = vec![];
    assert_eq!(find_repeat_info(&empty), vec![]);
    assert_eq!(find_repeat_info(&[7]), vec![]);
    assert_eq!(find_repeat_info(&[1, 2, 3, 4, 5]), vec![]);
    assert_eq!(find_repeat_info_prefix(&[1, 2, 1, 3]), None);
}

#[test]
fn prefix_prefers_most_covered_then_shortest_block() {
    // Period 1 covers 2, period 2 covers 4: the longer cover wins.
    assert_eq!(
        find_repeat_info_prefix(&[1, 1, 1, 1]),
        Some(RepeatInfo { start: 0, period: 1, count: 4 })
    );
    assert_eq!(
        find_repeat_info_prefix(&[1, 2, 1, 2, 3]),
        Some(RepeatInfo { start: 0, period: 2, count: 2 })
    );
    // 1,1,2,1,1,2: period 1 covers 2, period 3 covers 6.
    assert_eq!(
        find_repeat_info_prefix(&[1, 1, 2, 1, 1, 2]),
        Some(RepeatInfo { start: 0, period: 3, count: 2 })
    );
}

#[test]
fn repeats_do_not_overlap() {
    let message = vec![5, 5, 5, 1, 2, 1, 2, 9];
    let result = find_repeat_info(&message);
    assert_eq!(
        result,
        vec![
            RepeatInfo { start: 0, period: 1, count: 3 },
            RepeatInfo { start: 3, period: 2, count: 2 },
        ]
    );
    assert_eq!(result[0].size(), 3);
    assert_eq!(result[1].size(), 4);
}

#[test]
fn rep_blocks_rebuild_the_sequence() {
    let data = letters("ABCDCDCDA");
    let blocks = find_rep_blocks(&data);
    assert_eq!(
        blocks,
        vec![
            RepBlock { block: letters("AB"), rep: 1 },
            RepBlock { block: letters("CD"), rep: 3 },
            RepBlock { block: letters("A"), rep: 1 },
        ]
    );
    let mut rebuilt: Vec<Trans> = Vec::new();
    for b in blocks.iter() {
        for _ in 0..b.rep {
            rebuilt.extend(b.block.iter().cloned());
        }
    }
    assert_eq!(rebuilt, data);
}

#[test]
fn as_rep_blocks_of_no_repeats_is_one_block() {
    let data = letters("ABC");
    assert_eq!(as_rep_blocks(&data, vec![]), vec![RepBlock { block: letters("ABC"), rep: 1 }]);
    let none: Vec<Trans> = vec![];
    assert_eq!(as_rep_blocks(&none, vec![]), vec![]);
}

#[test]
fn transitions_render_as_letters() {
    assert_eq!(fails(&[]).to_string_one(), "A");
    assert_eq!(fails(&[3, 1]).to_string_one(), "C");
    assert_eq!(Trans::to_string_vec(&letters("ECBCC")), "ECBCC");
    assert_eq!(Trans::to_string_vec(&vec![]), "");
}

#[test]
fn rep_blocks_render_with_counts() {
    let data = letters("ABCDCDCDA");
    let blocks = find_rep_blocks(&data);
    assert_eq!(blocks[1].to_string_one(), "CD^3");
    assert_eq!(blocks[0].to_string_one(), "AB");
    assert_eq!(RepBlock::to_string_vec(&blocks), "AB CD^3 A");
    let twelve = RepBlock { block: letters("D"), rep: 12 };
    assert_eq!(twelve.to_string_one(), "D^12");
}

#[test]
fn stripped_blocks_keep_only_whether_repeated() {
    let data = letters("ABCDCDCDA");
    let stripped = strip_reps(find_rep_blocks(&data));
    assert_eq!(
        stripped,
        vec![
            StrippedBlock { block: letters("AB"), is_rep: false },
            StrippedBlock { block: letters("CD"), is_rep: true },
            StrippedBlock { block: letters("A"), is_rep: false },
        ]
    );
    assert_eq!(stripped[1].to_string_one(), "CD+");
    assert_eq!(StrippedBlock::to_string_vec(&stripped), "(AB CD+ A)");
    assert_eq!(stripped[1].clone(), stripped[1]);
}

#[test]
fn second_level_repeats_of_blocks() {
    // D^2 EA^2 D^4 EA^4 D^6 EA^6: first level sees the powers, second level
    // sees (D+ EA+) three times.
    let data = letters("DDEAEADDDDEAEAEAEADDDDDDEAEAEAEAEAEA");
    let level0 = strip_reps(find_rep_blocks(&data));
    assert_eq!(StrippedBlock::to_string_vec(&level0), "(D+ EA+ D+ EA+ D+ EA+)");
    let level1 = find_repeat_info(&level0);
    assert_eq!(level1, vec![RepeatInfo { start: 0, period: 2, count: 3 }]);
}

#[test]
fn totals_over_repeats() {
    assert_eq!(
        rep_totals(&vec![]),
        RepTotals { num_blocks: 0, max_rep: 0, size_in_reps: 0, size_in_max_block: 0 }
    );
    let infos = vec![
        RepeatInfo { start: 0, period: 1, count: 3 },
        RepeatInfo { start: 3, period: 2, count: 5 },
        RepeatInfo { start: 20, period: 4, count: 5 },
        RepeatInfo { start: 50, period: 7, count: 2 },
    ];
    // Of the two repeats with five copies the last one counts.
    assert_eq!(
        rep_totals(&infos),
        RepTotals { num_blocks: 4, max_rep: 5, size_in_reps: 3 + 10 + 20 + 14, size_in_max_block: 20 }
    );
}

#[test]
fn long_blocks_are_not_tried() {
    // A block of 101 symbols that stands twice is longer than the window.
    let block: Vec<u32> = (0..101).collect();
    let data: Vec<u32> = block.iter().chain(block.iter()).copied().collect();
    assert_eq!(find_repeat_info(&data), vec![]);
    let block: Vec<u32> = (0..100).collect();
    let data: Vec<u32> = block.iter().chain(block.iter()).copied().collect();
    assert_eq!(find_repeat_info(&data), vec![RepeatInfo { start: 0, period: 100, count: 2 }]);
}
