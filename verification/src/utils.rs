//! The score table as text.

use crate::error::AlignError;
use crate::reconstruction::{has_shape, table_has_shape};
use crate::text::symbols_of;
use vstd::prelude::*;

verus! {

/// The decimal digit of a value from 0 to 9.
pub open spec fn digit_char(d: int) -> char {
    ('0' as int + d) as char
}

/// The decimal digits of a natural number, without leading zeros.
pub open spec fn digits_of(n: nat) -> Seq<char>
    decreases n,
{
    if n < 10 {
        seq![digit_char(n as int)]
    } else {
        digits_of(n / 10).push(digit_char((n % 10) as int))
    }
}

/// An integer in decimal digits, with `-` before a negative one.
pub open spec fn number_text(v: int) -> Seq<char> {
    if v < 0 {
        seq!['-'] + digits_of((-v) as nat)
    } else {
        digits_of(v as nat)
    }
}

/// `k` spaces, none if `k` is negative.
pub open spec fn spaces(k: int) -> Seq<char> {
    Seq::new(
        if k > 0 {
            k as nat
        } else {
            0
        },
        |i: int| ' ',
    )
}

/// A number in a field of width 4, set to the right, and a space after it.
/// A number with more than 4 symbols takes the room it needs.
pub open spec fn number_field(v: int) -> Seq<char> {
    spaces(4 - number_text(v).len()) + number_text(v) + seq![' ']
}

/// A symbol in a field of width 4, set to the left, and a space after it.
pub open spec fn symbol_field(c: char) -> Seq<char> {
    seq![c] + spaces(3) + seq![' ']
}

/// The fields of the first `k` symbols of `s`.
pub open spec fn symbol_fields(s: Seq<char>, k: int) -> Seq<char>
    decreases k,
{
    if k <= 0 {
        Seq::<char>::empty()
    } else {
        symbol_fields(s, k - 1) + symbol_field(s[k - 1])
    }
}

/// The fields of the first `k` numbers of `row`.
pub open spec fn number_fields(row: Seq<i32>, k: int) -> Seq<char>
    decreases k,
{
    if k <= 0 {
        Seq::<char>::empty()
    } else {
        number_fields(row, k - 1) + number_field(row[k - 1] as int)
    }
}

/// The line of row `i` of the table: the symbol of `s1` that the row stands
/// for, a space for the first row, then the entries of the row.
pub open spec fn row_line(s1: Seq<char>, t: Seq<Seq<i32>>, i: int) -> Seq<char> {
    symbol_field(
        if i == 0 {
            ' '
        } else {
            s1[i - 1]
        },
    ) + number_fields(t[i], t[i].len() as int) + seq!['\n']
}

/// The lines of the first `k` rows of the table.
pub open spec fn row_lines(s1: Seq<char>, t: Seq<Seq<i32>>, k: int) -> Seq<char>
    decreases k,
{
    if k <= 0 {
        Seq::<char>::empty()
    } else {
        row_lines(s1, t, k - 1) + row_line(s1, t, k - 1)
    }
}

/// The table as text: a line with the symbols of `s2` above the columns,
/// then one line for each row.
pub open spec fn table_text(s1: Seq<char>, s2: Seq<char>, t: Seq<Seq<i32>>) -> Seq<char> {
    spaces(13) + symbol_fields(s2, s2.len() as int) + seq!['\n'] + row_lines(s1, t, t.len() as int)
}

/// Appends `k` spaces.
fn push_spaces(out: &mut String, k: usize)
    ensures
        final(out)@ == old(out)@ + spaces(k as int),
{
    let mut done: usize = 0;
    assert(out@ =~= old(out)@ + spaces(0));
    while done < k
        invariant
            done <= k,
            out@ == old(out)@ + spaces(done as int),
        decreases k - done,
    {
        out.push(' ');
        done = done + 1;
        assert(out@ =~= old(out)@ + spaces(done as int));
    }
}

/// Appends the field of a symbol.
fn push_symbol_field(out: &mut String, c: char)
    ensures
        final(out)@ == old(out)@ + symbol_field(c),
{
    out.push(c);
    push_spaces(out, 3);
    out.push(' ');
    assert(out@ =~= old(out)@ + symbol_field(c));
}

/// The decimal digits of `n`, from the last to the first.
fn digits_reversed(n: u32) -> (digits: Vec<char>)
    ensures
        digits@.reverse() == digits_of(n as nat),
        1 <= digits@.len() <= 10,
{
    let mut digits: Vec<char> = Vec::new();
    let mut m: u32 = n;
    assert(digits_of(n as nat) =~= digits_of(m as nat) + digits@.reverse());
    assert(pow10(0) == 1);
    while m >= 10
        invariant
            digits_of(n as nat) == digits_of(m as nat) + digits@.reverse(),
            m * pow10(digits@.len()) <= n,
            digits@.len() <= 9,
        decreases m,
    {
        let d = (48u8 + (m % 10) as u8) as char;
        let ghost before = digits@;
        digits.push(d);
        proof {
            assert(before.push(d).reverse() =~= seq![d] + before.reverse());
            assert(digits_of(m as nat) == digits_of((m / 10) as nat).push(d));
            assert(digits_of((m / 10) as nat).push(d) + before.reverse() =~= digits_of(
                (m / 10) as nat,
            ) + (seq![d] + before.reverse()));
            lemma_pow10_step(before.len());
            assert((m / 10) * pow10(digits@.len()) <= n) by (nonlinear_arith)
                requires
                    m * pow10(before.len()) <= n,
                    pow10(digits@.len()) == 10 * pow10(before.len()),
                    0 <= pow10(before.len()),
                    0 <= m,
            ;
            if digits@.len() > 9 {
                lemma_pow10_grows(10, digits@.len());
                assert((m / 10) * pow10(digits@.len()) >= pow10(digits@.len())) by (nonlinear_arith)
                    requires
                        m / 10 >= 1,
                        pow10(digits@.len()) >= 0,
                ;
                assert(pow10(10) == 10_000_000_000) by {
                    reveal_with_fuel(pow10, 11);
                }
            }
        }
        m = m / 10;
    }
    let d = (48u8 + m as u8) as char;
    let ghost before = digits@;
    digits.push(d);
    proof {
        assert(before.push(d).reverse() =~= seq![d] + before.reverse());
    }
    digits
}

/// Ten to the power of `k`.
spec fn pow10(k: nat) -> nat
    decreases k,
{
    if k == 0 {
        1
    } else {
        10 * pow10((k - 1) as nat)
    }
}

/// Each power of ten is ten times the one before, and none is 0.
proof fn lemma_pow10_step(k: nat)
    ensures
        pow10(k + 1) == 10 * pow10(k),
        pow10(k) >= 1,
    decreases k,
{
    if k > 0 {
        lemma_pow10_step((k - 1) as nat);
    }
}

/// The powers of ten grow with the exponent.
proof fn lemma_pow10_grows(k: nat, n: nat)
    requires
        k <= n,
    ensures
        pow10(k) <= pow10(n),
    decreases n,
{
    if k < n {
        lemma_pow10_grows(k, (n - 1) as nat);
        lemma_pow10_step((n - 1) as nat);
    }
}

/// Appends the field of a number.
fn push_number_field(out: &mut String, v: i32)
    ensures
        final(out)@ == old(out)@ + number_field(v as int),
{
    let negative = v < 0;
    let size: u32 = if negative {
        (-(v as i64)) as u32
    } else {
        v as u32
    };
    let digits = digits_reversed(size);
    let width: usize = if negative {
        digits.len() + 1
    } else {
        digits.len()
    };
    let ghost text = number_text(v as int);
    assert(text.len() == width);
    if width < 4 {
        push_spaces(out, 4 - width);
    }
    assert(out@ =~= old(out)@ + spaces(4 - text.len()));
    if negative {
        out.push('-');
    }
    let ghost lead = out@;
    let mut k: usize = digits.len();
    assert(lead + digits@.reverse().take(0) =~= lead);
    while k > 0
        invariant
            k <= digits@.len(),
            out@ == lead + digits@.reverse().take(digits@.len() - k),
        decreases k,
    {
        k = k - 1;
        out.push(digits[k]);
        assert(out@ =~= lead + digits@.reverse().take(digits@.len() - k));
    }
    assert(digits@.reverse().take(digits@.len() as int) =~= digits@.reverse());
    out.push(' ');
    assert(out@ =~= old(out)@ + number_field(v as int));
}

/// Writes the score table as text: a line with the symbols of `s2` above the
/// columns, then one line for each row, with the symbol of `s1` that the row
/// stands for before its entries. Symbols and entries stand in fields of
/// width 4 with a space between them.
///
/// The call fails with `InvalidDimensions` unless the table has one row for
/// each prefix of `s1` and one column for each prefix of `s2`.
pub fn format_tab(s1: &str, s2: &str, tab: &Vec<Vec<i32>>) -> (res: Result<String, AlignError>)
    ensures
        match res {
            Ok(text) => has_shape(tab.deep_view(), s1@.len() as int, s2@.len() as int) && text@
                == table_text(s1@, s2@, tab.deep_view()),
            Err(e) => e == AlignError::InvalidDimensions && !has_shape(
                tab.deep_view(),
                s1@.len() as int,
                s2@.len() as int,
            ),
        },
{
    let a = symbols_of(s1);
    let b = symbols_of(s2);
    if !table_has_shape(tab, a.len(), b.len()) {
        return Err(AlignError::InvalidDimensions);
    }
    let ghost t = tab.deep_view();
    let mut out = String::new();
    push_spaces(&mut out, 13);
    assert(out@ =~= spaces(13) + symbol_fields(b@, 0));
    let mut j: usize = 0;
    while j < b.len()
        invariant
            j <= b@.len(),
            out@ == spaces(13) + symbol_fields(b@, j as int),
        decreases b@.len() - j,
    {
        push_symbol_field(&mut out, b[j]);
        j = j + 1;
        assert(out@ =~= spaces(13) + symbol_fields(b@, j as int));
    }
    out.push('\n');
    let ghost head = out@;
    assert(head =~= spaces(13) + symbol_fields(b@, b@.len() as int) + seq!['\n']);
    assert(out@ =~= head + row_lines(a@, t, 0));
    let mut i: usize = 0;
    while i < tab.len()
        invariant
            t == tab.deep_view(),
            has_shape(t, a@.len() as int, b@.len() as int),
            i <= tab@.len(),
            out@ == head + row_lines(a@, t, i as int),
        decreases tab@.len() - i,
    {
        let row = &tab[i];
        let ghost above = out@;
        proof {
            assert(t[i as int] == tab@[i as int].deep_view());
            assert(t[i as int] =~= row@);
        }
        let label = if i == 0 {
            ' '
        } else {
            a[i - 1]
        };
        push_symbol_field(&mut out, label);
        let ghost lead = out@;
        assert(out@ =~= lead + number_fields(row@, 0));
        let mut c: usize = 0;
        while c < row.len()
            invariant
                c <= row@.len(),
                out@ == lead + number_fields(row@, c as int),
            decreases row@.len() - c,
        {
            push_number_field(&mut out, row[c]);
            c = c + 1;
            assert(out@ =~= lead + number_fields(row@, c as int));
        }
        out.push('\n');
        i = i + 1;
        assert(out@ =~= above + row_line(a@, t, i - 1));
        assert(out@ =~= head + row_lines(a@, t, i as int));
    }
    Ok(out)
}

} // verus!
