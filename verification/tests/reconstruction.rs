use seq_align::algorithms::{get_score, get_sequence_table, Algorithm};
use seq_align::reconstruction::{get_aligned_sequence, get_smith_waterman_sequence};

#[test]
fn reconstruction_needleman_wunsch_works() {
    let s1 = "GATTACA";
    let s2 = "GCATGCG";
    let gap_val = -2;
    let scores = [
        [5, -4, -4, -1],
        [-4, 5, -4, -1],
        [-4, -4, 5, -1],
        [-1, -1, -1, 5],
    ];
    let get_score_fn = |c1: char, c2: char| get_score(c1, c2, scores);

    let (_, dir_tab) =
        get_sequence_table(s1, s2, gap_val, get_score_fn, &Algorithm::NeedlemanWunsch).unwrap();
    let mut aligned = get_aligned_sequence(s1, s2, &dir_tab, &mut 100).unwrap();
    aligned.sort();
    let mut expected = vec![
        (String::from("G-ATTAC-A"), String::from("GCATG-CG-")),
        (String::from("G-ATTACA-"), String::from("GCATG-C-G")),
        (String::from("G-ATTACA"), String::from("GCATG-CG")),
    ];
    expected.sort();

    assert_eq!(aligned, expected);
}

#[test]
fn needleman_wunsch_with_limited_n_works() {
    let s1 = "TTT";
    let s2 = "T";
    let gap_val = -2;
    let scores = [
        [5, -4, -4, -1],
        [-4, 5, -4, -1],
        [-4, -4, 5, -1],
        [-1, -1, -1, 5],
    ];
    let get_score_fn = |c1: char, c2: char| get_score(c1, c2, scores);

    let (_, dir_tab) =
        get_sequence_table(s1, s2, gap_val, get_score_fn, &Algorithm::NeedlemanWunsch).unwrap();
    let mut aligned = get_aligned_sequence(s1, s2, &dir_tab, &mut 2).unwrap();
    aligned.sort();
    // Three alignments tie; the first two in the order of the traceback come out.
    let tied = vec![
        (String::from("TTT"), String::from("--T")),
        (String::from("TTT"), String::from("-T-")),
        (String::from("TTT"), String::from("T--")),
    ];
    let mut expected = vec![tied[0].clone(), tied[1].clone()];
    expected.sort();

    assert_eq!(aligned, expected);
    assert!(aligned.iter().all(|pair| tied.contains(pair)));
}

#[test]
fn reconstruction_smith_waterman_works() {
    let s1 = "GATTACA";
    let s2 = "GCATGCG";
    let gap_val = -2;
    let scores = [
        [5, -4, -4, -1],
        [-4, 5, -4, -1],
        [-4, -4, 5, -1],
        [-1, -1, -1, 5],
    ];
    let get_score_fn = |c1: char, c2: char| get_score(c1, c2, scores);
    let (tab, dir_tab) =
        get_sequence_table(s1, s2, gap_val, get_score_fn, &Algorithm::SmithWaterman).unwrap();

    let aligned = get_smith_waterman_sequence(s1, s2, &tab, &dir_tab, 100).unwrap();
    let expected = vec![(String::from("G-ATTAC"), String::from("GCATG-C"))];

    assert_eq!(aligned, expected);
}

#[test]
fn smith_waterman_with_limited_n_works() {
    let s1 = "TTT";
    let s2 = "T";
    let gap_val = -2;
    let scores = [
        [5, -4, -4, -1],
        [-4, 5, -4, -1],
        [-4, -4, 5, -1],
        [-1, -1, -1, 5],
    ];
    let get_score_fn = |c1: char, c2: char| get_score(c1, c2, scores);
    let (tab, dir_tab) =
        get_sequence_table(s1, s2, gap_val, get_score_fn, &Algorithm::SmithWaterman).unwrap();

    let aligned = get_smith_waterman_sequence(s1, s2, &tab, &dir_tab, 2).unwrap();
    let expected = vec![
        (String::from("T"), String::from("T")),
        (String::from("T"), String::from("T")),
    ];

    assert_eq!(aligned, expected);
}
