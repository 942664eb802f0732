use seq_align::algorithms::{get_score, get_sequence_table, Algorithm};

#[test]
fn algorithms_needleman_wunsch_works() {
    let s1 = "GATTACA";
    let s2 = "GCATGCG";
    let gap_val = -2;
    let scores = [
        [5, -4, -4, -1],
        [-4, 5, -4, -1],
        [-4, -4, 5, -1],
        [-1, -1, -1, 5],
    ];
    let get_score_fn = |c1: char, c2: char| get_score(c1, c2, scores);
    let expected: Vec<Vec<i32>> = vec![
        vec![0, -2, -4, -6, -8, -10, -12, -14],
        vec![-2, 5, 3, 1, -1, -3, -5, -7],
        vec![-4, 3, 1, 8, 6, 4, 2, 0],
        vec![-6, 1, 2, 6, 13, 11, 9, 7],
        vec![-8, -1, 0, 4, 11, 12, 10, 8],
        vec![-10, -3, -2, 5, 9, 10, 8, 6],
        vec![-12, -5, 2, 3, 7, 8, 15, 13],
        vec![-14, -7, 0, 7, 5, 6, 13, 11],
    ];

    let (tab, _) =
        get_sequence_table(s1, s2, gap_val, get_score_fn, &Algorithm::NeedlemanWunsch).unwrap();

    assert_eq!(tab, expected);
}

#[test]
fn algorithms_smith_waterman_works() {
    let s1 = "GATTACA";
    let s2 = "GCATGCG";
    let gap_val = -2;
    let scores = [
        [5, -4, -4, -1],
        [-4, 5, -4, -1],
        [-4, -4, 5, -1],
        [-1, -1, -1, 5],
    ];
    let get_score_fn = |c1: char, c2: char| get_score(c1, c2, scores);
    let expected: Vec<Vec<i32>> = vec![
        vec![0, 0, 0, 0, 0, 0, 0, 0],
        vec![0, 5, 3, 1, 0, 5, 3, 5],
        vec![0, 3, 1, 8, 6, 4, 2, 3],
        vec![0, 1, 2, 6, 13, 11, 9, 7],
        vec![0, 0, 0, 4, 11, 12, 10, 8],
        vec![0, 0, 0, 5, 9, 10, 8, 6],
        vec![0, 0, 5, 3, 7, 8, 15, 13],
        vec![0, 0, 3, 10, 8, 6, 13, 11],
    ];

    let (tab, _) =
        get_sequence_table(s1, s2, gap_val, get_score_fn, &Algorithm::SmithWaterman).unwrap();

    assert_eq!(tab, expected);
}
