//! The grid as text: one line of cells for each row, between separator
//! lines.

use vstd::prelude::*;

verus! {

/// The character for the decimal digit `d`.
pub open spec fn digit(d: nat) -> char {
    if d == 0 {
        '0'
    } else if d == 1 {
        '1'
    } else if d == 2 {
        '2'
    } else if d == 3 {
        '3'
    } else if d == 4 {
        '4'
    } else if d == 5 {
        '5'
    } else if d == 6 {
        '6'
    } else if d == 7 {
        '7'
    } else if d == 8 {
        '8'
    } else {
        '9'
    }
}

/// The decimal digits of `n`, without leading zeros.
pub open spec fn decimal(n: nat) -> Seq<char>
    decreases n,
{
    if n < 10 {
        seq![digit(n)]
    } else {
        decimal(n / 10).push(digit(n % 10))
    }
}

/// `text` with blanks in front of it, so that it fills `width` characters;
/// a longer text is left as it is.
pub open spec fn right_justified(text: Seq<char>, width: nat) -> Seq<char> {
    if text.len() >= width {
        text
    } else {
        Seq::new((width - text.len()) as nat, |i: int| ' ') + text
    }
}

/// The text of one cell: four blanks for an empty cell, else the value
/// right-justified in four characters.
pub open spec fn cell_text(cell: Option<u16>) -> Seq<char> {
    match cell {
        None => seq![' ', ' ', ' ', ' '],
        Some(value) => right_justified(decimal(value as nat), 4),
    }
}

/// The line that separates two rows. It is drawn for four columns, whatever
/// the width of the grid.
pub open spec fn separator() -> Seq<char> {
    seq![
        '+', '-', '-', '-', '-', '+', '-', '-', '-', '-', '+', '-', '-', '-', '-', '+', '-', '-',
        '-', '-', '+', '\n',
    ]
}

/// The cells of a row, each after a bar.
pub open spec fn cells_text(row: Seq<Option<u16>>) -> Seq<char>
    decreases row.len(),
{
    if row.len() == 0 {
        Seq::empty()
    } else {
        cells_text(row.drop_last()) + seq!['|'] + cell_text(row.last())
    }
}

/// The rows, each after a separator line and closed by a bar.
pub open spec fn rows_text(rows: Seq<Seq<Option<u16>>>) -> Seq<char>
    decreases rows.len(),
{
    if rows.len() == 0 {
        Seq::empty()
    } else {
        rows_text(rows.drop_last()) + separator() + cells_text(rows.last()) + seq!['|', '\n']
    }
}

/// The whole grid as text: the rows, and a last separator line.
pub open spec fn rendered(rows: Seq<Seq<Option<u16>>>) -> Seq<char> {
    rows_text(rows) + separator()
}

/// What each cell of `display` holds, as a sequence of rows.
pub open spec fn display_rows(display: Vec<Vec<Option<u16>>>) -> Seq<Seq<Option<u16>>> {
    Seq::new(display@.len(), |r: int| display@[r]@)
}

/// Calls `String::from_iter` through `Iterator::collect`, which builds the
/// string that holds the characters in their order.
#[verifier::external_body]
fn text_of(chars: Vec<char>) -> (text: String)
    ensures
        text@ == chars@,
{
    chars.into_iter().collect()
}

fn digit_char(d: u16) -> (c: char)
    requires
        d < 10,
    ensures
        c == digit(d as nat),
{
    if d == 0 {
        '0'
    } else if d == 1 {
        '1'
    } else if d == 2 {
        '2'
    } else if d == 3 {
        '3'
    } else if d == 4 {
        '4'
    } else if d == 5 {
        '5'
    } else if d == 6 {
        '6'
    } else if d == 7 {
        '7'
    } else if d == 8 {
        '8'
    } else {
        '9'
    }
}

fn decimal_digits(n: u16) -> (digits: Vec<char>)
    ensures
        digits@ == decimal(n as nat),
    decreases n,
{
    if n < 10 {
        let mut digits: Vec<char> = Vec::new();
        digits.push(digit_char(n));
        assert(digits@ =~= seq![digit(n as nat)]);
        digits
    } else {
        let mut digits = decimal_digits(n / 10);
        digits.push(digit_char(n % 10));
        digits
    }
}

fn push_all(out: &mut Vec<char>, text: &Vec<char>)
    ensures
        final(out)@ == old(out)@ + text@,
{
    let mut i: usize = 0;
    while i < text.len()
        invariant
            i <= text@.len(),
            out@ == old(out)@ + text@.subrange(0, i as int),
        decreases text@.len() - i,
    {
        out.push(text[i]);
        assert(text@.subrange(0, i + 1) =~= text@.subrange(0, i as int).push(text@[i as int]));
        i += 1;
    }
    assert(text@.subrange(0, text@.len() as int) =~= text@);
}

fn push_separator(out: &mut Vec<char>)
    ensures
        final(out)@ == old(out)@ + separator(),
{
    let mut k: usize = 0;
    while k < 4
        invariant
            k <= 4,
            out@ == old(out)@ + separator().subrange(0, 5 * k),
        decreases 4 - k,
    {
        out.push('+');
        out.push('-');
        out.push('-');
        out.push('-');
        out.push('-');
        k += 1;
        assert(out@ =~= old(out)@ + separator().subrange(0, 5 * k));
    }
    out.push('+');
    out.push('\n');
    assert(out@ =~= old(out)@ + separator());
}

fn push_cell(out: &mut Vec<char>, cell: Option<u16>)
    ensures
        final(out)@ == old(out)@ + cell_text(cell),
{
    match cell {
        None => {
            out.push(' ');
            out.push(' ');
            out.push(' ');
            out.push(' ');
            assert(out@ =~= old(out)@ + cell_text(cell));
        },
        Some(value) => {
            let digits = decimal_digits(value);
            let mut k: usize = digits.len();
            while k < 4
                invariant
                    out@ == old(out)@ + Seq::new((k - digits@.len()) as nat, |i: int| ' '),
                    digits@.len() <= k,
                    k == digits@.len() || k <= 4,
                decreases 4 - k,
            {
                out.push(' ');
                k += 1;
                assert(out@ =~= old(out)@ + Seq::new((k - digits@.len()) as nat, |i: int| ' '));
            }
            let ghost blanks = Seq::new((k - digits@.len()) as nat, |i: int| ' ');
            push_all(out, &digits);
            assert(decimal(value as nat) == digits@);
            assert(blanks + digits@ =~= right_justified(digits@, 4));
            assert(out@ =~= old(out)@ + cell_text(cell));
        },
    }
}

/// Draws what the cells show as text: before each row a separator line, then
/// the cells of the row, each after a bar and four characters wide, with the
/// value at the right; a bar closes the row, and a separator line the grid.
pub fn render(display: &Vec<Vec<Option<u16>>>) -> (text: String)
    ensures
        text@ == rendered(display_rows(*display)),
{
    let ghost rows = display_rows(*display);
    let mut out: Vec<char> = Vec::new();
    let mut r: usize = 0;
    while r < display.len()
        invariant
            rows == display_rows(*display),
            r <= display@.len(),
            out@ == rows_text(rows.subrange(0, r as int)),
        decreases display@.len() - r,
    {
        let ghost above = out@;
        push_separator(&mut out);
        let row = &display[r];
        let mut c: usize = 0;
        while c < row.len()
            invariant
                c <= row@.len(),
                out@ == above + separator() + cells_text(row@.subrange(0, c as int)),
            decreases row@.len() - c,
        {
            out.push('|');
            push_cell(&mut out, row[c]);
            proof {
                let done = row@.subrange(0, c + 1);
                assert(done.drop_last() =~= row@.subrange(0, c as int));
                assert(out@ =~= above + separator() + cells_text(done));
            }
            c += 1;
        }
        out.push('|');
        out.push('\n');
        proof {
            let done = rows.subrange(0, r + 1);
            assert(done.drop_last() =~= rows.subrange(0, r as int));
            assert(row@.subrange(0, row@.len() as int) =~= row@);
            assert(done.last() == row@);
            assert(out@ =~= rows_text(done));
        }
        r += 1;
    }
    assert(rows.subrange(0, r as int) =~= rows);
    push_separator(&mut out);
    text_of(out)
}

} // verus!
