//! The request of one run, and the text form of a substitution matrix.

use crate::algorithms::{
    get_matrix_table, is_direction_table, is_score_table, largest_magnitude, matrix_model,
    pairs_in_alphabet, Direction,
};
use crate::reconstruction::{
    final_score, first_n, get_alignment_score, optimal_alignments, reconstruct,
};
use crate::text::symbols_of;
use vstd::pervasive::unreached;
use vstd::prelude::*;

pub use crate::algorithms::Algorithm;

verus! {

/// What one run is asked to do.
#[derive(Debug)]
pub struct Cli {
    /// The largest number of alignments to list.
    pub n: u32,
    /// The gap penalty.
    pub gap: i32,
    /// The first sequence.
    pub s1: String,
    /// The second sequence.
    pub s2: String,
    /// The substitution matrix: four rows set apart by `;`, each of four
    /// integers set apart by `,`.
    pub substitution_matrix: String,
    /// The kind of alignment.
    pub algorithm: Algorithm,
}

/// Why a text is not a substitution matrix.
#[derive(Clone, Copy, Debug, PartialEq, Eq, Structural)]
pub enum MatrixError {
    /// The text does not have four rows.
    RowCount,
    /// A field of a row is not an integer that an `i32` holds.
    Number,
    /// A row does not have four fields.
    ColumnCount,
}

/// The fields of `s` that the separator `sep` sets apart. A text without
/// separator is one field, and a separator at either end sets off an empty
/// field.
pub open spec fn split_on(s: Seq<char>, sep: char) -> Seq<Seq<char>>
    decreases s.len(),
{
    if s.len() == 0 {
        seq![Seq::<char>::empty()]
    } else {
        let before = split_on(s.drop_last(), sep);
        if s.last() == sep {
            before.push(Seq::<char>::empty())
        } else {
            before.drop_last().push(before.last().push(s.last()))
        }
    }
}

/// The value of a decimal digit.
pub open spec fn digit_value(c: char) -> Option<int> {
    if '0' <= c <= '9' {
        Some(c as int - '0' as int)
    } else {
        None
    }
}

/// The number that the first `k` symbols of `s` spell in decimal digits, if
/// all of them are digits.
pub open spec fn digits_upto(s: Seq<char>, k: int) -> Option<int>
    decreases k,
{
    if k <= 0 {
        Some(0int)
    } else {
        match (digits_upto(s, k - 1), digit_value(s[k - 1])) {
            (Some(a), Some(d)) => Some(a * 10 + d),
            _ => None,
        }
    }
}

/// The integer that `s` spells: an optional sign `+` or `-`, then one or more
/// decimal digits and nothing else, with a value that an `i32` holds.
pub open spec fn int_of(s: Seq<char>) -> Option<int> {
    let signed = s.len() > 0 && (s[0] == '-' || s[0] == '+');
    let body = if signed {
        s.skip(1)
    } else {
        s
    };
    if body.len() == 0 {
        None
    } else {
        match digits_upto(body, body.len() as int) {
            Some(v) => {
                let w = if s[0] == '-' {
                    -v
                } else {
                    v
                };
                if i32::MIN <= w <= i32::MAX {
                    Some(w)
                } else {
                    None
                }
            },
            None => None,
        }
    }
}

/// Some field is not an integer.
pub open spec fn has_bad_number(fields: Seq<Seq<char>>) -> bool {
    exists|k: int| 0 <= k < fields.len() && int_of(#[trigger] fields[k]) is None
}

/// The row of a matrix that `s` spells: the integers of its four fields. A
/// field that is no integer is reported before a wrong number of fields.
pub open spec fn row_of(s: Seq<char>) -> Result<Seq<int>, MatrixError> {
    let fields = split_on(s, ',');
    if has_bad_number(fields) {
        Err(MatrixError::Number)
    } else if fields.len() != 4 {
        Err(MatrixError::ColumnCount)
    } else {
        Ok(Seq::new(4, |k: int| int_of(fields[k])->0))
    }
}

/// The first `k` rows, or the error of the first row that is none.
pub open spec fn rows_upto(rows: Seq<Seq<char>>, k: int) -> Result<Seq<Seq<int>>, MatrixError>
    decreases k,
{
    if k <= 0 {
        Ok(Seq::<Seq<int>>::empty())
    } else {
        match rows_upto(rows, k - 1) {
            Err(e) => Err(e),
            Ok(done) => match row_of(rows[k - 1]) {
                Err(e) => Err(e),
                Ok(row) => Ok(done.push(row)),
            },
        }
    }
}

/// The matrix that `s` spells. A wrong number of rows is reported first, then
/// the error of the first row that is none.
pub open spec fn matrix_of(s: Seq<char>) -> Result<Seq<Seq<int>>, MatrixError> {
    let rows = split_on(s, ';');
    if rows.len() != 4 {
        Err(MatrixError::RowCount)
    } else {
        rows_upto(rows, 4)
    }
}

/// The fields of a list with one more field.
proof fn lemma_pushed_field(before: Vec<Vec<char>>, field: Vec<char>, after: Vec<Vec<char>>)
    requires
        after@ == before@.push(field),
    ensures
        after.deep_view() == before.deep_view().push(field@),
{
    assert(field.deep_view() =~= field@);
    assert forall|k: int| 0 <= k < after@.len() implies #[trigger] after.deep_view()[k]
        == before.deep_view().push(field@)[k] by {
        if k < before@.len() {
            assert(after@[k] == before@[k]);
        } else {
            assert(after@[k] == field);
        }
    }
    assert(after.deep_view() =~= before.deep_view().push(field@));
}

/// Splits `s` at each separator.
pub fn split_symbols(s: &Vec<char>, sep: char) -> (fields: Vec<Vec<char>>)
    ensures
        fields.deep_view() == split_on(s@, sep),
{
    let mut fields: Vec<Vec<char>> = Vec::new();
    let mut current: Vec<char> = Vec::new();
    let mut k: usize = 0;
    assert(s@.take(0) =~= Seq::<char>::empty());
    assert(fields.deep_view().push(current@) =~= seq![Seq::<char>::empty()]);
    while k < s.len()
        invariant
            k <= s@.len(),
            fields.deep_view().push(current@) == split_on(s@.take(k as int), sep),
        decreases s@.len() - k,
    {
        let ghost done = fields.deep_view();
        let ghost open = current@;
        let c = s[k];
        proof {
            assert(s@.take(k + 1).drop_last() =~= s@.take(k as int));
            assert(s@.take(k + 1).last() == c);
            assert(done.push(open).drop_last() =~= done);
        }
        if c == sep {
            let ghost earlier = fields;
            fields.push(current);
            proof {
                lemma_pushed_field(earlier, current, fields);
            }
            current = Vec::new();
        } else {
            current.push(c);
        }
        k = k + 1;
    }
    let ghost earlier = fields;
    fields.push(current);
    proof {
        lemma_pushed_field(earlier, current, fields);
        assert(s@.take(k as int) =~= s@);
    }
    fields
}

/// Symbols that are not all digits do not become digits when more follow.
proof fn lemma_digits_stay_rejected(s: Seq<char>, k: int, n: int)
    requires
        0 <= k <= n,
        digits_upto(s, k) is None,
    ensures
        digits_upto(s, n) is None,
    decreases n,
{
    if n > k {
        lemma_digits_stay_rejected(s, k, n - 1);
    }
}

/// The number that digits spell is no less than the number that the first
/// of them spell.
proof fn lemma_digits_grow(s: Seq<char>, k: int, n: int)
    requires
        0 <= k <= n,
        digits_upto(s, n) is Some,
    ensures
        digits_upto(s, k) is Some,
        0 <= digits_upto(s, k)->0 <= digits_upto(s, n)->0,
    decreases n,
{
    if n > k {
        if digits_upto(s, n - 1) is None {
            assert(false);
        }
        lemma_digits_grow(s, k, n - 1);
    } else {
        if k > 0 {
            lemma_digits_grow(s, k - 1, k - 1);
        }
    }
}

/// Reads a decimal digit.
fn digit_of(c: char) -> (d: Option<i64>)
    ensures
        match digit_value(c) {
            Some(v) => d == Some(v as i64),
            None => d is None,
        },
{
    if '0' <= c && c <= '9' {
        Some((c as u32 - '0' as u32) as i64)
    } else {
        None
    }
}

/// Reads an integer: an optional sign, then decimal digits.
pub fn parse_number(field: &Vec<char>) -> (number: Option<i32>)
    ensures
        match int_of(field@) {
            Some(v) => number == Some(v as i32),
            None => number is None,
        },
{
    let n = field.len();
    if n == 0 {
        return None;
    }
    let negative = field[0] == '-';
    let start: usize = if field[0] == '-' || field[0] == '+' {
        1
    } else {
        0
    };
    if start == n {
        return None;
    }
    let ghost body = if start == 1 {
        field@.skip(1)
    } else {
        field@
    };
    let mut acc: i64 = 0;
    let mut k: usize = start;
    while k < n
        invariant
            n == field@.len(),
            start <= k <= n,
            start < n,
            start <= 1,
            start == 1 <==> field@[0] == '-' || field@[0] == '+',
            body == if start == 1 {
                field@.skip(1)
            } else {
                field@
            },
            0 <= acc <= 2147483648,
            digits_upto(body, k - start) == Some(acc as int),
        decreases n - k,
    {
        let c = field[k];
        assert(body[k - start] == c);
        let d = match digit_of(c) {
            Some(d) => d,
            None => {
                proof {
                    assert(digits_upto(body, k - start + 1) is None);
                    lemma_digits_stay_rejected(body, k - start + 1, n - start);
                }
                return None;
            },
        };
        acc = acc * 10 + d;
        assert(digits_upto(body, k - start + 1) == Some(acc as int));
        if acc > 2147483648 {
            proof {
                if digits_upto(body, n - start) is Some {
                    lemma_digits_grow(body, k - start + 1, n - start);
                }
            }
            return None;
        }
        k = k + 1;
    }
    if negative {
        Some((-acc) as i32)
    } else if acc > 2147483647 {
        None
    } else {
        Some(acc as i32)
    }
}

/// A field of a list, seen through the list's view.
proof fn lemma_field_view(fields: &Vec<Vec<char>>, k: int)
    requires
        0 <= k < fields@.len(),
    ensures
        fields.deep_view().len() == fields@.len(),
        fields.deep_view()[k] == fields@[k]@,
{
    assert(fields.deep_view()[k] == fields@[k].deep_view());
    assert(fields@[k].deep_view() =~= fields@[k]@);
}

/// The error of a row stands whatever rows follow.
proof fn lemma_rows_stay_rejected(rows: Seq<Seq<char>>, k: int, n: int)
    requires
        0 <= k <= n,
        rows_upto(rows, k) is Err,
    ensures
        rows_upto(rows, n) == rows_upto(rows, k),
    decreases n,
{
    if n > k {
        lemma_rows_stay_rejected(rows, k, n - 1);
    }
}

/// Reads one row of a matrix: four integers set apart by `,`.
pub fn parse_row(row: &Vec<char>) -> (res: Result<[i32; 4], MatrixError>)
    ensures
        match res {
            Ok(values) => row_of(row@) matches Ok(g) && g.len() == 4 && forall|c: int|
                0 <= c < 4 ==> #[trigger] values[c] == g[c],
            Err(e) => row_of(row@) == Err::<Seq<int>, MatrixError>(e),
        },
{
    let fields = split_symbols(row, ',');
    let ghost texts = fields.deep_view();
    let mut values: Vec<i32> = Vec::new();
    let mut k: usize = 0;
    while k < fields.len()
        invariant
            texts == fields.deep_view(),
            texts == split_on(row@, ','),
            texts.len() == fields@.len(),
            k <= fields@.len(),
            values@.len() == k,
            forall|l: int| 0 <= l < k ==> int_of(#[trigger] texts[l]) == Some(values@[l] as int),
        decreases fields@.len() - k,
    {
        proof {
            lemma_field_view(&fields, k as int);
        }
        match parse_number(&fields[k]) {
            Some(v) => {
                values.push(v);
            },
            None => {
                assert(has_bad_number(texts));
                return Err(MatrixError::Number);
            },
        }
        k = k + 1;
    }
    assert(!has_bad_number(texts));
    if values.len() != 4 {
        return Err(MatrixError::ColumnCount);
    }
    Ok([values[0], values[1], values[2], values[3]])
}

/// Reads a 4x4 substitution matrix from a text such as
/// `1,2,3,4;5,6,7,8;9,10,11,12;13,14,15,16`: four rows set apart by `;`,
/// each of four integers set apart by `,`.
pub fn parse_2d_array(input: &str) -> (res: Result<[[i32; 4]; 4], MatrixError>)
    ensures
        match res {
            Ok(result) => {
                &&& matrix_of(input@) matches Ok(g)
                &&& g.len() == 4
                &&& forall|r: int| 0 <= r < 4 ==> (#[trigger] g[r]).len() == 4
                &&& forall|r: int, c: int|
                    0 <= r < 4 && 0 <= c < 4 ==> #[trigger] result[r][c] == g[r][c]
            },
            Err(e) => matrix_of(input@) == Err::<Seq<Seq<int>>, MatrixError>(e),
        },
{
    let text = symbols_of(input);
    let rows = split_symbols(&text, ';');
    let ghost texts = rows.deep_view();
    if rows.len() != 4 {
        return Err(MatrixError::RowCount);
    }
    let mut result: Vec<[i32; 4]> = Vec::new();
    let mut i: usize = 0;
    while i < 4
        invariant
            texts == rows.deep_view(),
            texts == split_on(input@, ';'),
            texts.len() == 4,
            rows@.len() == 4,
            i <= 4,
            result@.len() == i,
            rows_upto(texts, i as int) is Ok,
            rows_upto(texts, i as int)->Ok_0.len() == i,
            forall|r: int| 0 <= r < i ==> (#[trigger] rows_upto(texts, i as int)->Ok_0[r]).len() == 4,
            forall|r: int, c: int|
                0 <= r < i && 0 <= c < 4 ==> #[trigger] result@[r][c] == rows_upto(
                    texts,
                    i as int,
                )->Ok_0[r][c],
        decreases 4 - i,
    {
        proof {
            lemma_field_view(&rows, i as int);
        }
        let ghost above = rows_upto(texts, i as int)->Ok_0;
        let ghost earlier = result@;
        match parse_row(&rows[i]) {
            Ok(values) => {
                result.push(values);
                proof {
                    let row = row_of(texts[i as int])->Ok_0;
                    assert(rows_upto(texts, i + 1) == Ok::<Seq<Seq<int>>, MatrixError>(
                        above.push(row),
                    ));
                    assert forall|r: int| 0 <= r < i + 1 implies (#[trigger] above.push(row)[r]).len()
                        == 4 by {
                        if r < i {
                            assert(above.push(row)[r] == above[r]);
                        }
                    }
                    assert forall|r: int, c: int| 0 <= r < i + 1 && 0 <= c < 4 implies #[trigger] result@[r][c]
                        == above.push(row)[r][c] by {
                        if r < i {
                            assert(result@[r] == earlier[r]);
                            assert(earlier[r][c] == above[r][c]);
                        } else {
                            assert(result@[r] == values);
                            assert(values[c] == row[c]);
                        }
                    }
                }
            },
            Err(e) => {
                proof {
                    lemma_rows_stay_rejected(texts, i + 1, 4);
                }
                return Err(e);
            },
        }
        i = i + 1;
    }
    let matrix = [result[0], result[1], result[2], result[3]];
    proof {
        let g = rows_upto(texts, 4)->Ok_0;
        assert forall|r: int, c: int| 0 <= r < 4 && 0 <= c < 4 implies #[trigger] matrix[r][c]
            == g[r][c] by {
            assert(matrix[r] == result@[r]);
            assert(result@[r][c] == g[r][c]);
        }
    }
    Ok(matrix)
}

/// What one run yields.
#[derive(Debug)]
pub struct Outcome {
    /// The substitution matrix that the request spells.
    pub scores: [[i32; 4]; 4],
    /// The score table of the two sequences.
    pub tab: Vec<Vec<i32>>,
    /// The direction table of the two sequences.
    pub dir_tab: Vec<Vec<Vec<Direction>>>,
    /// The score of the optimal alignments.
    pub score: i32,
    /// The optimal alignments, as many as were asked for.
    pub aligned: Vec<(String, String)>,
}

/// Why a run yields nothing.
#[derive(Clone, Copy, Debug, PartialEq, Eq, Structural)]
pub enum RunError {
    /// The request does not spell a substitution matrix.
    Matrix(MatrixError),
    /// The scores are so large that an entry of the score table could leave
    /// the range of `i32`.
    ScoreOverflow,
    /// A sequence holds a symbol outside the alphabet.
    InvalidSymbol,
}

/// The text `s` spells the matrix `scores`.
pub open spec fn spells_matrix(s: Seq<char>, scores: [[i32; 4]; 4]) -> bool {
    &&& matrix_of(s) matches Ok(g)
    &&& forall|r: int, c: int| 0 <= r < 4 && 0 <= c < 4 ==> #[trigger] scores[r][c] == g[r][c]
}

/// The scores of `scores` and the gap penalty, taken once for each symbol of
/// the two sequences, stay within the range of `i32`.
pub open spec fn scores_fit(cli: Cli, scores: [[i32; 4]; 4]) -> bool {
    largest_magnitude(cli.gap as int, scores) * (cli.s1@.len() + cli.s2@.len()) <= i32::MAX
}

/// `out` is what the request `cli` asks for: the matrix that the request
/// spells, the two tables of the sequences under that matrix, the score of
/// the optimal alignments, and the first `cli.n` of them.
pub open spec fn is_outcome_of(out: Outcome, cli: Cli) -> bool {
    &&& spells_matrix(cli.substitution_matrix@, out.scores)
    &&& scores_fit(cli, out.scores)
    &&& pairs_in_alphabet(cli.s1@, cli.s2@)
    &&& is_score_table(
        out.tab.deep_view(),
        cli.s1@,
        cli.s2@,
        cli.gap as int,
        matrix_model(out.scores),
        cli.algorithm,
    )
    &&& is_direction_table(
        out.dir_tab.deep_view(),
        cli.s1@,
        cli.s2@,
        cli.gap as int,
        matrix_model(out.scores),
        cli.algorithm,
    )
    &&& out.score == final_score(cli.s1@, cli.s2@, out.tab.deep_view(), cli.algorithm)
    &&& out.aligned.deep_view() == first_n(
        optimal_alignments(
            cli.s1@,
            cli.s2@,
            out.tab.deep_view(),
            out.dir_tab.deep_view(),
            cli.algorithm,
        ),
        cli.n as int,
    )
}

/// Carries out one run: reads the substitution matrix, builds the tables of
/// the two sequences, reads off the score and lists the optimal alignments.
///
/// A text that is no matrix is reported first, then scores that are too
/// large, then a symbol outside the alphabet.
pub fn run(cli: &Cli) -> (res: Result<Outcome, RunError>)
    ensures
        match res {
            Ok(out) => is_outcome_of(out, *cli),
            Err(RunError::Matrix(e)) => matrix_of(cli.substitution_matrix@) == Err::<
                Seq<Seq<int>>,
                MatrixError,
            >(e),
            Err(RunError::ScoreOverflow) => exists|scores: [[i32; 4]; 4]|
                #[trigger] spells_matrix(cli.substitution_matrix@, scores) && !scores_fit(
                    *cli,
                    scores,
                ),
            Err(RunError::InvalidSymbol) => exists|scores: [[i32; 4]; 4]|
                #[trigger] spells_matrix(cli.substitution_matrix@, scores) && scores_fit(
                    *cli,
                    scores,
                ) && !pairs_in_alphabet(cli.s1@, cli.s2@),
        },
{
    let scores = match parse_2d_array(cli.substitution_matrix.as_str()) {
        Ok(scores) => scores,
        Err(e) => {
            return Err(RunError::Matrix(e));
        },
    };
    assert(spells_matrix(cli.substitution_matrix@, scores));
    let s1 = cli.s1.as_str();
    let s2 = cli.s2.as_str();
    let (tab, dir_tab) = match get_matrix_table(s1, s2, cli.gap, scores, &cli.algorithm) {
        None => {
            return Err(RunError::ScoreOverflow);
        },
        Some(Err(_)) => {
            return Err(RunError::InvalidSymbol);
        },
        Some(Ok(tables)) => tables,
    };
    let score = match get_alignment_score(s1, s2, &tab, &cli.algorithm) {
        Ok(score) => score,
        Err(_) => unreached(),
    };
    let aligned = match reconstruct(s1, s2, &tab, &dir_tab, &cli.algorithm, cli.n as i64) {
        Ok(aligned) => aligned,
        Err(_) => unreached(),
    };
    Ok(Outcome { scores, tab, dir_tab, score, aligned })
}

} // verus!
