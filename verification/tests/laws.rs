use seq_align::algorithms::{
    get_matrix_table, get_score, get_sequence_table, Algorithm, Direction,
};
use seq_align::error::AlignError;
use seq_align::reconstruction::{
    find_max_indices, get_aligned_sequence, get_alignment_score, get_smith_waterman_sequence,
    reconstruct,
};

const SCORES: [[i32; 4]; 4] = [
    [5, -4, -4, -1],
    [-4, 5, -4, -1],
    [-4, -4, 5, -1],
    [-1, -1, -1, 5],
];

fn build(s1: &str, s2: &str, gap: i32, mode: Algorithm) -> (Vec<Vec<i32>>, Vec<Vec<Vec<Direction>>>) {
    get_sequence_table(s1, s2, gap, |a: char, b: char| get_score(a, b, SCORES), &mode).unwrap()
}

fn strip(row: &str) -> String {
    row.chars().filter(|c| *c != '-').collect()
}

#[test]
fn building_twice_gives_the_same_tables() {
    for mode in [Algorithm::NeedlemanWunsch, Algorithm::SmithWaterman] {
        let first = build("GATTACA", "GCATGCG", -2, mode);
        let second = build("GATTACA", "GCATGCG", -2, mode);
        assert_eq!(first.0, second.0);
        assert_eq!(first.1, second.1);
    }
}

#[test]
fn swapping_the_sequences_transposes_the_scores() {
    for mode in [Algorithm::NeedlemanWunsch, Algorithm::SmithWaterman] {
        let (tab, _) = build("GATTACA", "GCATG", -2, mode);
        let (swapped, _) = build("GCATG", "GATTACA", -2, mode);
        assert_eq!(tab.len(), 8);
        assert_eq!(swapped.len(), 6);
        for i in 0..8 {
            for j in 0..6 {
                assert_eq!(swapped[j][i], tab[i][j]);
            }
        }
    }
}

#[test]
fn global_boundary_accumulates_the_gap_penalty() {
    let (tab, dirs) = build("GATTACA", "GCATG", -3, Algorithm::NeedlemanWunsch);
    for i in 0..8 {
        assert_eq!(tab[i][0], -3 * i as i32);
    }
    for j in 0..6 {
        assert_eq!(tab[0][j], -3 * j as i32);
    }
    assert_eq!(dirs[0][0], vec![]);
    for i in 1..8 {
        assert_eq!(dirs[i][0], vec![Direction::Up]);
    }
    for j in 1..6 {
        assert_eq!(dirs[0][j], vec![Direction::Left]);
    }
}

#[test]
fn local_boundary_is_zero_and_starts() {
    let (tab, dirs) = build("GATTACA", "GCATG", -3, Algorithm::SmithWaterman);
    for i in 0..8 {
        assert_eq!(tab[i][0], 0);
        assert_eq!(dirs[i][0], vec![Direction::Start]);
    }
    for j in 0..6 {
        assert_eq!(tab[0][j], 0);
        assert_eq!(dirs[0][j], vec![Direction::Start]);
    }
}

#[test]
fn tables_have_one_cell_for_each_pair_of_prefixes() {
    for mode in [Algorithm::NeedlemanWunsch, Algorithm::SmithWaterman] {
        let (tab, dirs) = build("GAT", "GCATG", -2, mode);
        assert_eq!(tab.len(), 4);
        assert_eq!(dirs.len(), 4);
        for i in 0..4 {
            assert_eq!(tab[i].len(), 6);
            assert_eq!(dirs[i].len(), 6);
        }
    }
}

#[test]
fn every_tied_branch_is_recorded() {
    let (tab, dirs) = build("TTT", "T", -2, Algorithm::NeedlemanWunsch);
    assert_eq!(tab, vec![vec![0, -2], vec![-2, 5], vec![-4, 3], vec![-6, 1]]);
    assert_eq!(dirs[1][1], vec![Direction::Diagonal]);
    assert_eq!(dirs[2][1], vec![Direction::Diagonal, Direction::Up]);
    assert_eq!(dirs[3][1], vec![Direction::Diagonal, Direction::Up]);
}

#[test]
fn local_zero_keeps_start_beside_tied_branches() {
    // With a gap penalty of 0 the cell (1, 1) of "A" against "C" is clamped to 0,
    // and both gap branches tie with the clamp.
    let (tab, dirs) = build("A", "C", 0, Algorithm::SmithWaterman);
    assert_eq!(tab[1][1], 0);
    assert_eq!(dirs[1][1], vec![Direction::Start, Direction::Up, Direction::Left]);
}

#[test]
fn global_alignments_spell_both_sequences() {
    let s1 = "GATTACA";
    let s2 = "GCATGCG";
    let (_, dirs) = build(s1, s2, -2, Algorithm::NeedlemanWunsch);
    let found = get_aligned_sequence(s1, s2, &dirs, &mut 100).unwrap();
    assert_eq!(found.len(), 3);
    for (a1, a2) in &found {
        assert_eq!(a1.chars().count(), a2.chars().count());
        assert_eq!(strip(a1), s1);
        assert_eq!(strip(a2), s2);
    }
}

#[test]
fn local_alignments_spell_substrings() {
    let s1 = "GATTACA";
    let s2 = "GCATGCG";
    let (tab, dirs) = build(s1, s2, -2, Algorithm::SmithWaterman);
    let found = get_smith_waterman_sequence(s1, s2, &tab, &dirs, 100).unwrap();
    assert!(!found.is_empty());
    for (a1, a2) in &found {
        assert_eq!(a1.chars().count(), a2.chars().count());
        assert!(s1.contains(&strip(a1)));
        assert!(s2.contains(&strip(a2)));
    }
}

#[test]
fn the_cap_is_respected() {
    let s1 = "TTT";
    let s2 = "T";
    let (tab, dirs) = build(s1, s2, -2, Algorithm::NeedlemanWunsch);
    let all = vec![
        (String::from("TTT"), String::from("--T")),
        (String::from("TTT"), String::from("-T-")),
        (String::from("TTT"), String::from("T--")),
    ];
    for k in 0..6usize {
        let mut n = k as u32;
        let found = get_aligned_sequence(s1, s2, &dirs, &mut n).unwrap();
        let expected: Vec<(String, String)> = all.iter().take(k).cloned().collect();
        assert_eq!(found, expected);
        assert_eq!(n as usize, k - found.len());
        let again =
            reconstruct(s1, s2, &tab, &dirs, &Algorithm::NeedlemanWunsch, k as i64).unwrap();
        assert_eq!(again, expected);
    }
}

#[test]
fn a_cap_of_zero_gives_nothing() {
    let (tab, dirs) = build("GATTACA", "GCATGCG", -2, Algorithm::SmithWaterman);
    assert_eq!(
        get_smith_waterman_sequence("GATTACA", "GCATGCG", &tab, &dirs, 0).unwrap(),
        vec![]
    );
    let (_, dirs) = build("GATTACA", "GCATGCG", -2, Algorithm::NeedlemanWunsch);
    let mut n = 0;
    assert_eq!(get_aligned_sequence("GATTACA", "GCATGCG", &dirs, &mut n).unwrap(), vec![]);
    assert_eq!(n, 0);
}

#[test]
fn a_cap_at_or_above_the_number_of_alignments_gives_all_once() {
    let s1 = "GATTACA";
    let s2 = "GCATGCG";
    let (_, dirs) = build(s1, s2, -2, Algorithm::NeedlemanWunsch);
    let all = get_aligned_sequence(s1, s2, &dirs, &mut 100).unwrap();
    assert_eq!(
        all,
        vec![
            (String::from("G-ATTACA"), String::from("GCATG-CG")),
            (String::from("G-ATTACA-"), String::from("GCATG-C-G")),
            (String::from("G-ATTAC-A"), String::from("GCATG-CG-")),
        ]
    );
    let exact = get_aligned_sequence(s1, s2, &dirs, &mut 3).unwrap();
    assert_eq!(exact, all);
    let mut sorted = all.clone();
    sorted.sort();
    sorted.dedup();
    assert_eq!(sorted.len(), 3);
}

#[test]
fn the_count_goes_down_by_the_number_found() {
    let (_, dirs) = build("GATTACA", "GCATGCG", -2, Algorithm::NeedlemanWunsch);
    let mut n = 100;
    let found = get_aligned_sequence("GATTACA", "GCATGCG", &dirs, &mut n).unwrap();
    assert_eq!(found.len(), 3);
    assert_eq!(n, 97);
}

#[test]
fn scenario_global_score_and_alignments() {
    let s1 = "GATTACA";
    let s2 = "GCATGCG";
    let (tab, dirs) = build(s1, s2, -2, Algorithm::NeedlemanWunsch);
    assert_eq!(tab[7][7], 11);
    assert_eq!(get_alignment_score(s1, s2, &tab, &Algorithm::NeedlemanWunsch), Ok(11));
    let found = reconstruct(s1, s2, &tab, &dirs, &Algorithm::NeedlemanWunsch, 100).unwrap();
    assert_eq!(found.len(), 3);
    assert!(found.contains(&(String::from("G-ATTACA"), String::from("GCATG-CG"))));
}

#[test]
fn scenario_local_maximum_and_alignment() {
    let s1 = "GATTACA";
    let s2 = "GCATGCG";
    let (tab, dirs) = build(s1, s2, -2, Algorithm::SmithWaterman);
    assert_eq!(get_alignment_score(s1, s2, &tab, &Algorithm::SmithWaterman), Ok(15));
    assert_eq!(find_max_indices(&tab), vec![(6, 6)]);
    let found = reconstruct(s1, s2, &tab, &dirs, &Algorithm::SmithWaterman, 100).unwrap();
    assert_eq!(found, vec![(String::from("G-ATTAC"), String::from("GCATG-C"))]);
}

#[test]
fn scenario_empty_sequences_give_one_empty_pair() {
    for mode in [Algorithm::NeedlemanWunsch, Algorithm::SmithWaterman] {
        let (tab, dirs) = build("", "", -2, mode);
        assert_eq!(tab, vec![vec![0]]);
        let found = reconstruct("", "", &tab, &dirs, &mode, 10).unwrap();
        assert_eq!(found, vec![(String::new(), String::new())]);
    }
    let (_, dirs) = build("", "", -2, Algorithm::NeedlemanWunsch);
    assert_eq!(
        get_aligned_sequence("", "", &dirs, &mut 10).unwrap(),
        vec![(String::new(), String::new())]
    );
    let (tab, dirs) = build("", "", -2, Algorithm::SmithWaterman);
    assert_eq!(
        get_smith_waterman_sequence("", "", &tab, &dirs, 10).unwrap(),
        vec![(String::new(), String::new())]
    );
}

#[test]
fn scenario_bounded_ties() {
    let s1 = "TTT";
    let s2 = "T";
    let (tab, dirs) = build(s1, s2, -2, Algorithm::NeedlemanWunsch);
    let tied = reconstruct(s1, s2, &tab, &dirs, &Algorithm::NeedlemanWunsch, 100).unwrap();
    assert_eq!(tied.len(), 3);
    let found = reconstruct(s1, s2, &tab, &dirs, &Algorithm::NeedlemanWunsch, 2).unwrap();
    assert_eq!(found.len(), 2);
    assert!(found.iter().all(|pair| tied.contains(pair)));
    assert_ne!(found[0], found[1]);
}

#[test]
fn one_empty_sequence_is_aligned_against_gaps() {
    let (tab, dirs) = build("GAT", "", -2, Algorithm::NeedlemanWunsch);
    assert_eq!(tab, vec![vec![0], vec![-2], vec![-4], vec![-6]]);
    assert_eq!(
        get_aligned_sequence("GAT", "", &dirs, &mut 5).unwrap(),
        vec![(String::from("GAT"), String::from("---"))]
    );
    let (_, dirs) = build("", "CG", -2, Algorithm::NeedlemanWunsch);
    assert_eq!(
        get_aligned_sequence("", "CG", &dirs, &mut 5).unwrap(),
        vec![(String::from("--"), String::from("CG"))]
    );
}

#[test]
fn symbols_outside_the_alphabet_are_rejected() {
    assert_eq!(get_score('A', 'X', SCORES), Err(AlignError::InvalidSymbol));
    assert_eq!(get_score('x', 'A', SCORES), Err(AlignError::InvalidSymbol));
    assert_eq!(get_score('G', 'T', SCORES), Ok(-1));
    assert_eq!(get_score('C', 'C', SCORES), Ok(5));
    for mode in [Algorithm::NeedlemanWunsch, Algorithm::SmithWaterman] {
        let res = get_sequence_table("GAX", "GC", -2, |a: char, b: char| get_score(a, b, SCORES), &mode);
        assert_eq!(res, Err(AlignError::InvalidSymbol));
        assert_eq!(
            get_matrix_table("GA", "G-", -2, SCORES, &mode),
            Some(Err(AlignError::InvalidSymbol))
        );
    }
    // No pair is scored when one sequence is empty.
    let res = get_sequence_table("XYZ", "", -2, |a: char, b: char| get_score(a, b, SCORES), &Algorithm::NeedlemanWunsch);
    assert_eq!(res.unwrap().0, vec![vec![0], vec![-2], vec![-4], vec![-6]]);
}

#[test]
fn the_error_of_the_first_rejected_pair_comes_back() {
    let picky = |a: char, b: char| {
        if a == 'B' {
            Err(AlignError::InvalidCount)
        } else if b == 'Z' {
            Err(AlignError::InvalidDimensions)
        } else {
            Ok(1)
        }
    };
    // Pairs are taken row by row: ('A','Z') comes before ('B','C').
    let res = get_sequence_table("AB", "CZ", -1, picky, &Algorithm::NeedlemanWunsch);
    assert_eq!(res, Err(AlignError::InvalidDimensions));
    let res = get_sequence_table("BA", "CZ", -1, picky, &Algorithm::NeedlemanWunsch);
    assert_eq!(res, Err(AlignError::InvalidCount));
}

#[test]
fn matrix_tables_are_the_tables_of_the_matrix_scores() {
    for mode in [Algorithm::NeedlemanWunsch, Algorithm::SmithWaterman] {
        let direct = build("GATTACA", "GCATGCG", -2, mode);
        let checked = get_matrix_table("GATTACA", "GCATGCG", -2, SCORES, &mode);
        assert_eq!(checked, Some(Ok(direct)));
    }
}

#[test]
fn matrix_tables_are_refused_when_scores_may_overflow() {
    // 5 * 14 fits, i32::MAX * 2 does not.
    assert!(get_matrix_table("A", "A", i32::MAX, SCORES, &Algorithm::NeedlemanWunsch).is_none());
    assert!(get_matrix_table("A", "A", i32::MIN, SCORES, &Algorithm::SmithWaterman).is_none());
    let big = [[i32::MAX, 0, 0, 0], [0; 4], [0; 4], [0; 4]];
    assert!(get_matrix_table("A", "", 0, big, &Algorithm::NeedlemanWunsch).is_some());
    assert!(get_matrix_table("A", "C", 0, big, &Algorithm::NeedlemanWunsch).is_none());
    // Without symbols nothing can overflow.
    assert!(get_matrix_table("", "", i32::MIN, big, &Algorithm::NeedlemanWunsch).is_some());
}

#[test]
fn a_negative_count_is_rejected() {
    let (tab, dirs) = build("GA", "GC", -2, Algorithm::NeedlemanWunsch);
    for mode in [Algorithm::NeedlemanWunsch, Algorithm::SmithWaterman] {
        assert_eq!(
            reconstruct("GA", "GC", &tab, &dirs, &mode, -1),
            Err(AlignError::InvalidCount)
        );
        // The count is looked at before the tables.
        assert_eq!(
            reconstruct("GATT", "GC", &tab, &dirs, &mode, i64::MIN),
            Err(AlignError::InvalidCount)
        );
    }
}

#[test]
fn tables_of_other_sequences_are_rejected() {
    let (tab, dirs) = build("GA", "GC", -2, Algorithm::NeedlemanWunsch);
    assert_eq!(
        get_aligned_sequence("GAT", "GC", &dirs, &mut 5),
        Err(AlignError::InvalidDimensions)
    );
    assert_eq!(
        get_aligned_sequence("GA", "GCA", &dirs, &mut 5),
        Err(AlignError::InvalidDimensions)
    );
    let mut n = 5;
    assert!(get_aligned_sequence("GA", "GCA", &dirs, &mut n).is_err());
    assert_eq!(n, 5);
    let (ltab, ldirs) = build("GA", "GC", -2, Algorithm::SmithWaterman);
    assert_eq!(
        get_smith_waterman_sequence("G", "GC", &ltab, &ldirs, 5),
        Err(AlignError::InvalidDimensions)
    );
    assert_eq!(
        get_smith_waterman_sequence("GAT", "GC", &ltab, &ldirs, 5),
        Err(AlignError::InvalidDimensions)
    );
    assert_eq!(
        get_smith_waterman_sequence("GA", "GC", &ltab, &vec![], 5),
        Err(AlignError::InvalidDimensions)
    );
    for mode in [Algorithm::NeedlemanWunsch, Algorithm::SmithWaterman] {
        assert_eq!(
            reconstruct("GA", "G", &tab, &dirs, &mode, 5),
            Err(AlignError::InvalidDimensions)
        );
        assert_eq!(
            get_alignment_score("GA", "G", &tab, &mode),
            Err(AlignError::InvalidDimensions)
        );
        assert_eq!(
            get_alignment_score("GA", "GC", &vec![], &mode),
            Err(AlignError::InvalidDimensions)
        );
    }
}

#[test]
fn a_larger_direction_table_serves_a_prefix() {
    let (_, dirs) = build("TTT", "T", -2, Algorithm::NeedlemanWunsch);
    assert_eq!(
        get_aligned_sequence("TT", "T", &dirs, &mut 5).unwrap(),
        vec![
            (String::from("TT"), String::from("-T")),
            (String::from("TT"), String::from("T-")),
        ]
    );
}
