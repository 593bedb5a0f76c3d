use world_rs::harvest::{
    detect_official_f0_candidates_sub1, fix_step2, get_boundary_list, get_multi_channel_f0,
    interpolation_gaps, make_sorted_order, swap_rows,
};

#[test]
fn make_sorted_order_tie_stability() {
    let boundary_list = vec![10, 20, 10, 30, 5, 15];
    let mut order = vec![0usize, 1, 2];
    make_sorted_order(&boundary_list, 3, &mut order);
    assert_eq!(order, [0, 2, 1]);
    let boundary_list2 = vec![10, 20, 10, 30];
    let mut order2 = vec![0usize, 1];
    make_sorted_order(&boundary_list2, 2, &mut order2);
    assert_eq!(order2, [0, 1]);
}

#[test]
fn make_sorted_order_is_a_permutation() {
    let boundary_list = vec![40, 45, 10, 12, 30, 31, 20, 22];
    let mut order = vec![9usize; 5];
    make_sorted_order(&boundary_list, 4, &mut order);
    let mut seen = order[..4].to_vec();
    seen.sort();
    assert_eq!(seen, vec![0, 1, 2, 3]);
    assert_eq!(order[4], 9);
    // The last slot holds a section with the latest start.
    assert_eq!(order[3], 0);
}

#[test]
fn boundary_list_synthetic_alternation() {
    let f0 = [
        0.0, 0.0, 100.0, 100.0, 100.0, 0.0, 0.0, 200.0, 200.0, 0.0, 0.0,
    ];
    let voiced: Vec<bool> = f0.iter().map(|v| *v > 0.0).collect();
    let mut bl = vec![0i32; 11];
    let n = get_boundary_list(&voiced, &mut bl);
    assert_eq!(n, 4);
    assert_eq!(&bl[..4], &[2, 4, 7, 8]);
}

#[test]
fn boundary_list_closes_sections_at_the_ends() {
    // The first and last frames count as unvoiced.
    let voiced = vec![true, true, true, false, true, true];
    let mut bl = vec![-1i32; 6];
    let n = get_boundary_list(&voiced, &mut bl);
    assert_eq!(n, 4);
    assert_eq!(&bl[..4], &[1, 2, 4, 4]);
    assert_eq!(&bl[4..], &[-1, -1]);
}

#[test]
fn boundary_list_stops_at_capacity() {
    let voiced = vec![false, true, false, true, false];
    let mut bl = vec![0i32; 3];
    let n = get_boundary_list(&voiced, &mut bl);
    assert_eq!(n, 3);
    assert_eq!(bl, vec![1, 1, 3]);
}

#[test]
fn short_sections_are_removed() {
    let f0 = vec![0.0, 100.0, 100.0, 0.0, 120.0, 121.0, 122.0, 123.0, 0.0];
    let voiced: Vec<bool> = f0.iter().map(|v| *v > 0.0).collect();
    let out = fix_step2(&f0, &voiced, 2, 0.0);
    assert_eq!(out, vec![0.0, 0.0, 0.0, 0.0, 120.0, 121.0, 122.0, 123.0, 0.0]);
}

#[test]
fn multi_channel_split() {
    let f0 = vec![0.0, 1.0, 2.0, 0.0, 4.0, 5.0, 0.0];
    let bl = vec![1, 2, 4, 5];
    let multi = get_multi_channel_f0(&f0, 7, &bl, 4, 0.0);
    assert_eq!(multi.len(), 2);
    assert_eq!(multi[0], vec![0.0, 1.0, 2.0, 0.0, 0.0, 0.0, 0.0]);
    assert_eq!(multi[1], vec![0.0, 0.0, 0.0, 0.0, 4.0, 5.0, 0.0]);
}

#[test]
fn swap_rows_moves_boundaries_with_rows() {
    let mut rows = vec![vec![1.0], vec![2.0], vec![3.0]];
    let mut bl = vec![10, 11, 20, 21, 30, 31];
    swap_rows(&mut rows, &mut bl, 0, 2);
    assert_eq!(rows, vec![vec![3.0], vec![2.0], vec![1.0]]);
    assert_eq!(bl, vec![30, 31, 20, 21, 10, 11]);
    // A pair outside the boundary list leaves it untouched.
    let mut short = vec![10, 11];
    swap_rows(&mut rows, &mut short, 0, 1);
    assert_eq!(rows, vec![vec![2.0], vec![3.0], vec![1.0]]);
    assert_eq!(short, vec![10, 11]);
}

#[test]
fn official_candidates_sections() {
    let vuv = vec![0, 1, 1, 0, 0, 1, 0];
    let mut st = vec![0i32; 7];
    let mut ed = vec![0i32; 7];
    let n = detect_official_f0_candidates_sub1(&vuv, &mut st, &mut ed);
    assert_eq!(n, 2);
    assert_eq!(&st[..2], &[1, 5]);
    assert_eq!(&ed[..2], &[3, 6]);
}

#[test]
fn interpolation_gaps_below_threshold() {
    // Sections [1, 2], [5, 6], [15, 16], [17, 18]: gaps of 2, 8 and 0 frames.
    let bl = vec![1, 2, 5, 6, 15, 16, 17, 18];
    assert_eq!(interpolation_gaps(&bl, 8, 3), vec![(2, 5), (16, 17)]);
    assert_eq!(interpolation_gaps(&bl, 8, 9), vec![(2, 5), (6, 15), (16, 17)]);
    assert_eq!(interpolation_gaps(&bl, 2, 9), vec![]);
    // Overlapping sections are not bridged.
    let overlapping = vec![1, 6, 4, 9];
    assert_eq!(interpolation_gaps(&overlapping, 4, 9), vec![]);
}

#[test]
fn official_candidates_need_room_only_for_written_sections() {
    // One section: a single slot in each buffer is enough.
    let vuv = vec![0, 0, 1, 1, 0, 0];
    let mut st = vec![-7i32];
    let mut ed = vec![-7i32];
    assert_eq!(detect_official_f0_candidates_sub1(&vuv, &mut st, &mut ed), 1);
    assert_eq!(st, vec![2]);
    assert_eq!(ed, vec![4]);
    // No transition: nothing is written.
    let flat = vec![0, 0, 0];
    let mut st_empty: Vec<i32> = vec![];
    let mut ed_empty: Vec<i32> = vec![];
    assert_eq!(detect_official_f0_candidates_sub1(&flat, &mut st_empty, &mut ed_empty), 0);
    // A start that is never closed is written to the open slot.
    let open = vec![0, 1, 0, 1];
    let mut st_open = vec![0i32; 2];
    let mut ed_open = vec![9i32];
    assert_eq!(detect_official_f0_candidates_sub1(&open, &mut st_open, &mut ed_open), 1);
    assert_eq!(st_open, vec![1, 3]);
    assert_eq!(ed_open, vec![2]);
}

#[test]
fn multi_channel_split_with_negative_boundaries() {
    let f0 = vec![0.0, 1.0, 2.0, 3.0];
    // A negative start is read as a huge index: the row stays empty.
    // A negative end is read as a huge index: the row runs to the last frame.
    let bl = vec![-1, 2, 2, -1];
    let multi = get_multi_channel_f0(&f0, 4, &bl, 4, 0.0);
    assert_eq!(multi, vec![vec![0.0, 0.0, 0.0, 0.0], vec![0.0, 0.0, 2.0, 3.0]]);
}

#[test]
fn interpolation_gaps_with_negative_boundaries() {
    // The next start -3 is read as a huge index; the gap length -3 - 2 - 1
    // is below the threshold.
    let bl = vec![1, 2, -3, 5];
    assert_eq!(interpolation_gaps(&bl, 4, 3), vec![(2, (-3i64) as usize)]);
    // A negative end is read as a huge index, past every start.
    let bl_end = vec![1, -2, 4, 5];
    assert_eq!(interpolation_gaps(&bl_end, 4, 3), vec![]);
}
