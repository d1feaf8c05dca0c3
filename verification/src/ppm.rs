//! A pixel grid as text in the plain PPM format.
//!
//! The text opens with the magic number `P3`, the width and the height of
//! the picture and the greatest channel level, 255. Then each row of pixels
//! follows as the decimal levels of its red, green and blue channels, pixel
//! after pixel, separated by single spaces. A row is broken into lines so
//! that no line has more than 70 characters: a level goes on the current
//! line as long as it fits there, and opens a new line when it does not.
use vstd::prelude::*;
use vstd::string::StringExecFns;
use crate::canvas::Canvas;

verus! {

/// The greatest number of characters on a line.
pub const LINE_LIMIT: usize = 70;

/// A pixel as three channel levels, each from 0 (dark) to 255 (full).
#[derive(Clone, Copy, Debug, PartialEq, Eq, Structural)]
pub struct Rgb {
    pub red: u8,
    pub green: u8,
    pub blue: u8,
}

/// The level nearest to `level` among those that a channel can take.
pub open spec fn clamped(level: int) -> int {
    if level < 0 {
        0
    } else if level > 255 {
        255
    } else {
        level
    }
}

impl Rgb {
    /// The pixel whose channels are the given levels, each brought into the
    /// range from 0 to 255: a level below 0 counts as 0, one above 255 as
    /// 255.
    pub fn new(red: i64, green: i64, blue: i64) -> (p: Rgb)
        ensures
            p.red == clamped(red as int),
            p.green == clamped(green as int),
            p.blue == clamped(blue as int),
    {
        Rgb { red: clamp(red), green: clamp(green), blue: clamp(blue) }
    }
}

/// Brings a level into the range of a channel.
pub fn clamp(level: i64) -> (c: u8)
    ensures
        c == clamped(level as int),
{
    if level < 0 {
        0
    } else if level > 255 {
        255
    } else {
        level as u8
    }
}

/// The character of the digit `d`.
pub open spec fn digit(d: nat) -> char {
    (48 + d) as char
}

/// `n` in decimal, without leading zeros.
pub open spec fn decimal(n: nat) -> Seq<char>
    decreases n,
{
    if n < 10 {
        seq![digit(n)]
    } else {
        decimal(n / 10).push(digit(n % 10))
    }
}

/// The channel levels of a row of pixels, in the order in which they are
/// written: red, green and blue of the first pixel, then of the second, and
/// so on.
pub open spec fn levels(row: Seq<Rgb>) -> Seq<u8> {
    Seq::new(
        3 * row.len(),
        |i: int|
            if i % 3 == 0 {
                row[i / 3].red
            } else if i % 3 == 1 {
                row[i / 3].green
            } else {
                row[i / 3].blue
            },
    )
}

/// What stands before a number of `width` characters that comes when the
/// current line holds `used` characters: nothing at the start of a line, a
/// space where the number still fits on the line, a line break where it does
/// not.
pub open spec fn lead(used: nat, width: nat) -> Seq<char> {
    if used == 0 {
        Seq::empty()
    } else if used + 1 + width <= LINE_LIMIT {
        seq![' ']
    } else {
        seq!['\n']
    }
}

/// How many characters the current line holds after that number.
pub open spec fn advance(used: nat, width: nat) -> nat {
    if used == 0 {
        width
    } else if used + 1 + width <= LINE_LIMIT {
        used + 1 + width
    } else {
        width
    }
}

/// The given levels as text, continuing a line that holds `used`
/// characters. The last line is left open.
pub open spec fn wrapped(levels: Seq<u8>, used: nat) -> Seq<char>
    decreases levels.len(),
{
    if levels.len() == 0 {
        Seq::empty()
    } else {
        let number = decimal(levels[0] as nat);
        lead(used, number.len()) + number + wrapped(
            levels.drop_first(),
            advance(used, number.len()),
        )
    }
}

/// A row of pixels as lines of text. A row without pixels gives no text.
pub open spec fn row_text(row: Seq<Rgb>) -> Seq<char> {
    if row.len() == 0 {
        Seq::empty()
    } else {
        wrapped(levels(row), 0).push('\n')
    }
}

/// The rows as text, one after the other.
pub open spec fn body(rows: Seq<Vec<Rgb>>) -> Seq<char>
    decreases rows.len(),
{
    if rows.len() == 0 {
        Seq::empty()
    } else {
        body(rows.drop_last()) + row_text(rows.last()@)
    }
}

/// The three lines that open the text.
pub open spec fn header(width: nat, height: nat) -> Seq<char> {
    seq!['P', '3', '\n'] + decimal(width) + seq![' '] + decimal(height) + seq![
        '\n',
        '2',
        '5',
        '5',
        '\n',
    ]
}

/// A picture of the given size and rows as PPM text.
pub open spec fn ppm(width: nat, height: nat, rows: Seq<Vec<Rgb>>) -> Seq<char> {
    header(width, height) + body(rows)
}

/// Whether no line break stands in `text` from position `i` up to, but not
/// at, position `j`.
pub open spec fn unbroken(text: Seq<char>, i: int, j: int) -> bool {
    forall|k: int| i <= k < j ==> text[k] != '\n'
}

/// Whether no line of `text` has more than `limit` characters: every
/// stretch without a line break is at most that long.
pub open spec fn lines_within(text: Seq<char>, limit: nat) -> bool {
    forall|i: int, j: int|
        0 <= i <= j <= text.len() && #[trigger] unbroken(text, i, j) ==> j - i <= limit
}

/// Whether `text` can follow `used` characters on a line without any line
/// growing beyond the limit.
spec fn continues(text: Seq<char>, used: nat) -> bool {
    forall|i: int, j: int|
        0 <= i <= j <= text.len() && #[trigger] unbroken(text, i, j) ==> j - i <= LINE_LIMIT && (i
            == 0 ==> used + j <= LINE_LIMIT)
}

/// Whether `text` is empty or ends in a line break.
spec fn closed(text: Seq<char>) -> bool {
    text.len() == 0 || text.last() == '\n'
}

/// A number in decimal has at least one character, and each is a digit.
proof fn lemma_decimal_digits(n: nat)
    ensures
        decimal(n).len() >= 1,
        forall|k: int| 0 <= k < decimal(n).len() ==> '0' <= #[trigger] decimal(n)[k] <= '9',
    decreases n,
{
    if n >= 10 {
        lemma_decimal_digits(n / 10);
    }
}

/// A number that fits in 32 bits has at most ten digits.
proof fn lemma_decimal_short(n: nat)
    requires
        n <= u32::MAX,
    ensures
        decimal(n).len() <= 10,
{
    reveal_with_fuel(decimal, 11);
}

/// Levels as text never let a line grow beyond the limit, on whatever line
/// within the limit they start.
proof fn lemma_wrapped_continues(all: Seq<u8>, used: nat)
    requires
        used <= LINE_LIMIT,
    ensures
        continues(wrapped(all, used), used),
    decreases all.len(),
{
    let text = wrapped(all, used);
    if all.len() == 0 {
    } else {
        let number = decimal(all[0] as nat);
        let gap = lead(used, number.len());
        let next = advance(used, number.len());
        let rest = wrapped(all.drop_first(), next);
        lemma_level_width(all[0]);
        lemma_decimal_digits(all[0] as nat);
        lemma_wrapped_continues(all.drop_first(), next);
        let off = gap.len() + number.len();
        assert(text == gap + number + rest);
        assert forall|i: int, j: int|
            0 <= i <= j <= text.len() && #[trigger] unbroken(text, i, j) implies j - i
            <= LINE_LIMIT && (i == 0 ==> used + j <= LINE_LIMIT) by {
            if gap.len() > 0 && gap[0] == '\n' && i == 0 && j > 0 {
                assert(text[0] == '\n');
            }
            if j > off {
                let from = if i > off {
                    i - off
                } else {
                    0
                };
                assert forall|k: int| from <= k < j - off implies rest[k] != '\n' by {
                    assert(text[k + off] == rest[k]);
                }
                assert(unbroken(rest, from, j - off));
            }
        }
    }
}

/// Text whose lines are within the limit and closed, followed by text whose
/// lines are within the limit, has its lines within the limit.
proof fn lemma_lines_join(a: Seq<char>, b: Seq<char>, limit: nat)
    requires
        lines_within(a, limit),
        closed(a),
        lines_within(b, limit),
    ensures
        lines_within(a + b, limit),
{
    let text = a + b;
    assert forall|i: int, j: int|
        0 <= i <= j <= text.len() && #[trigger] unbroken(text, i, j) implies j - i <= limit by {
        if j <= a.len() {
            assert forall|k: int| i <= k < j implies a[k] != '\n' by {
                assert(text[k] == a[k]);
            }
            assert(unbroken(a, i, j));
        } else if i >= a.len() {
            assert forall|k: int| i - a.len() <= k < j - a.len() implies b[k] != '\n' by {
                assert(text[k + a.len()] == b[k]);
            }
            assert(unbroken(b, i - a.len(), j - a.len()));
        } else {
            assert(text[a.len() - 1] == a.last());
        }
    }
}

/// A row as text has its lines within the limit and is closed.
proof fn lemma_row_fits(row: Seq<Rgb>)
    ensures
        lines_within(row_text(row), LINE_LIMIT as nat),
        closed(row_text(row)),
{
    if row.len() > 0 {
        let open = wrapped(levels(row), 0);
        let text = row_text(row);
        lemma_wrapped_continues(levels(row), 0);
        assert forall|i: int, j: int|
            0 <= i <= j <= text.len() && #[trigger] unbroken(text, i, j) implies j - i
            <= LINE_LIMIT by {
            if j > open.len() {
                assert(text[open.len() as int] == '\n');
            } else {
                assert forall|k: int| i <= k < j implies open[k] != '\n' by {
                    assert(text[k] == open[k]);
                }
                assert(unbroken(open, i, j));
            }
        }
    }
}

/// The rows as text have their lines within the limit and are closed.
proof fn lemma_body_fits(rows: Seq<Vec<Rgb>>)
    ensures
        lines_within(body(rows), LINE_LIMIT as nat),
        closed(body(rows)),
    decreases rows.len(),
{
    if rows.len() > 0 {
        lemma_body_fits(rows.drop_last());
        lemma_row_fits(rows.last()@);
        lemma_lines_join(body(rows.drop_last()), row_text(rows.last()@), LINE_LIMIT as nat);
    }
}

/// The opening lines are within the limit and closed.
proof fn lemma_header_fits(width: u32, height: u32)
    ensures
        lines_within(header(width as nat, height as nat), LINE_LIMIT as nat),
        closed(header(width as nat, height as nat)),
{
    let w = decimal(width as nat);
    let h = decimal(height as nat);
    lemma_decimal_short(width as nat);
    lemma_decimal_short(height as nat);
    let text = header(width as nat, height as nat);
    let second: int = (3 + w.len() + 1 + h.len()) as int;
    assert(text.len() == second + 5);
    assert(text[2] == '\n');
    assert(text[second] == '\n');
    assert(text[second + 4] == '\n');
    assert forall|i: int, j: int|
        0 <= i <= j <= text.len() && #[trigger] unbroken(text, i, j) implies j - i
        <= LINE_LIMIT by {
        if i <= 2 && j > 2 {
            assert(text[2] == '\n');
        } else if i <= second && j > second {
            assert(text[second] == '\n');
        }
    }
}

/// No line of a picture's text has more than 70 characters, however wide
/// the picture is.
pub proof fn lemma_lines_fit(width: u32, height: u32, rows: Seq<Vec<Rgb>>)
    ensures
        lines_within(ppm(width as nat, height as nat, rows), LINE_LIMIT as nat),
{
    lemma_header_fits(width, height);
    lemma_body_fits(rows);
    lemma_lines_join(header(width as nat, height as nat), body(rows), LINE_LIMIT as nat);
}

/// The digit `d` as a string.
fn digit_text(d: u32) -> (s: &'static str)
    requires
        d < 10,
    ensures
        s@ == seq![digit(d as nat)],
{
    let s: &'static str = if d == 0 {
        "0"
    } else if d == 1 {
        "1"
    } else if d == 2 {
        "2"
    } else if d == 3 {
        "3"
    } else if d == 4 {
        "4"
    } else if d == 5 {
        "5"
    } else if d == 6 {
        "6"
    } else if d == 7 {
        "7"
    } else if d == 8 {
        "8"
    } else {
        "9"
    };
    proof {
        reveal_strlit("0");
        reveal_strlit("1");
        reveal_strlit("2");
        reveal_strlit("3");
        reveal_strlit("4");
        reveal_strlit("5");
        reveal_strlit("6");
        reveal_strlit("7");
        reveal_strlit("8");
        reveal_strlit("9");
        assert(s@ =~= seq![digit(d as nat)]);
    }
    s
}

/// Writes `n` in decimal at the end of `out`.
fn append_number(out: &mut String, n: u32)
    ensures
        final(out)@ == old(out)@ + decimal(n as nat),
    decreases n,
{
    if n >= 10 {
        append_number(out, n / 10);
    }
    out.append(digit_text(n % 10));
    assert(out@ =~= old(out)@ + decimal(n as nat));
}

/// A level has one to three digits.
proof fn lemma_level_width(level: u8)
    ensures
        decimal(level as nat).len() == if level < 10 {
            1nat
        } else if level < 100 {
            2nat
        } else {
            3nat
        },
{
    reveal_with_fuel(decimal, 4);
}

/// Writes one level at the end of `out`, on the current line if it fits
/// there and on a new line if not. `used` counts the characters of the
/// current line.
fn append_level(out: &mut String, used: &mut usize, level: u8)
    requires
        *old(used) <= LINE_LIMIT,
    ensures
        1 <= *final(used) <= LINE_LIMIT,
        *final(used) == advance(*old(used) as nat, decimal(level as nat).len()),
        final(out)@ == old(out)@ + lead(*old(used) as nat, decimal(level as nat).len()) + decimal(
            level as nat,
        ),
{
    proof {
        lemma_level_width(level);
    }
    let width: usize = if level < 10 {
        1
    } else if level < 100 {
        2
    } else {
        3
    };
    if *used == 0 {
        *used = width;
        assert(out@ =~= old(out)@ + lead(0, width as nat));
    } else if *used + 1 + width <= LINE_LIMIT {
        proof {
            reveal_strlit(" ");
        }
        out.append(" ");
        *used = *used + 1 + width;
        assert(out@ =~= old(out)@ + lead(*old(used) as nat, width as nat));
    } else {
        proof {
            reveal_strlit("\n");
        }
        out.append("\n");
        *used = width;
        assert(out@ =~= old(out)@ + lead(*old(used) as nat, width as nat));
    }
    append_number(out, level as u32);
}

/// The text of the levels from position `k` on is the text of level `k`
/// followed by the text of the levels after it.
proof fn lemma_wrapped_step(all: Seq<u8>, k: int, used: nat)
    requires
        0 <= k < all.len(),
    ensures
        wrapped(all.skip(k), used) == lead(used, decimal(all[k] as nat).len()) + decimal(
            all[k] as nat,
        ) + wrapped(all.skip(k + 1), advance(used, decimal(all[k] as nat).len())),
{
    assert(all.skip(k).drop_first() =~= all.skip(k + 1));
    assert(all.skip(k)[0] == all[k]);
}

/// Text that was written piece by piece is the text before it followed by
/// the pieces joined.
proof fn lemma_joined(start: Seq<char>, a: Seq<char>, b: Seq<char>, rest: Seq<char>)
    ensures
        start + a + b + rest == start + (a + b + rest),
{
    assert(start + a + b + rest =~= start + (a + b + rest));
}

/// Writes a row of pixels at the end of `out`.
fn append_row(out: &mut String, row: &Vec<Rgb>)
    ensures
        final(out)@ == old(out)@ + row_text(row@),
{
    if row.len() == 0 {
        assert(out@ =~= old(out)@ + row_text(row@));
        return ;
    }
    let ghost all = levels(row@);
    let mut used: usize = 0;
    let mut x: usize = 0;
    assert(all.skip(0) =~= all);
    while x < row.len()
        invariant
            x <= row@.len(),
            used <= LINE_LIMIT,
            all == levels(row@),
            out@ + wrapped(all.skip(3 * x), used as nat) == old(out)@ + wrapped(all, 0),
        decreases row@.len() - x,
    {
        let pixel: Rgb = row[x];
        let ghost start = out@;
        let ghost before = used as nat;
        proof {
            assert(all[3 * x] == pixel.red);
            assert(all[3 * x + 1] == pixel.green);
            assert(all[3 * x + 2] == pixel.blue);
            lemma_wrapped_step(all, 3 * x, before);
        }
        append_level(out, &mut used, pixel.red);
        proof {
            lemma_wrapped_step(all, 3 * x + 1, used as nat);
            lemma_joined(
                start,
                lead(before, decimal(pixel.red as nat).len()),
                decimal(pixel.red as nat),
                wrapped(all.skip(3 * x + 1), used as nat),
            );
        }
        let ghost middle = out@;
        let ghost after_red = used as nat;
        assert(middle + wrapped(all.skip(3 * x + 1), after_red) == old(out)@ + wrapped(all, 0));
        append_level(out, &mut used, pixel.green);
        proof {
            lemma_wrapped_step(all, 3 * x + 2, used as nat);
            lemma_joined(
                middle,
                lead(after_red, decimal(pixel.green as nat).len()),
                decimal(pixel.green as nat),
                wrapped(all.skip(3 * x + 2), used as nat),
            );
        }
        let ghost late = out@;
        let ghost after_green = used as nat;
        assert(late + wrapped(all.skip(3 * x + 2), after_green) == old(out)@ + wrapped(all, 0));
        append_level(out, &mut used, pixel.blue);
        proof {
            lemma_joined(
                late,
                lead(after_green, decimal(pixel.blue as nat).len()),
                decimal(pixel.blue as nat),
                wrapped(all.skip(3 * x + 3), used as nat),
            );
        }
        x += 1;
    }
    proof {
        assert(all.skip(3 * x) =~= Seq::<u8>::empty());
        assert(out@ =~= old(out)@ + wrapped(all, 0));
        reveal_strlit("\n");
    }
    out.append("\n");
    assert(out@ =~= old(out)@ + row_text(row@));
}

impl Canvas<Rgb> {
    /// The picture as PPM text.
    pub fn to_ppm(self) -> (text: String)
        ensures
            text@ == ppm(self.width as nat, self.height as nat, self.grid@),
    {
        let mut text: String = String::new();
        proof {
            reveal_strlit("P3\n");
            reveal_strlit(" ");
            reveal_strlit("\n255\n");
        }
        text.append("P3\n");
        append_number(&mut text, self.width);
        text.append(" ");
        append_number(&mut text, self.height);
        text.append("\n255\n");
        assert(text@ =~= header(self.width as nat, self.height as nat));
        let mut y: usize = 0;
        while y < self.grid.len()
            invariant
                y <= self.grid@.len(),
                text@ == header(self.width as nat, self.height as nat) + body(
                    self.grid@.take(y as int),
                ),
            decreases self.grid@.len() - y,
        {
            let ghost before = text@;
            append_row(&mut text, &self.grid[y]);
            proof {
                let longer = self.grid@.take(y + 1);
                assert(longer.drop_last() =~= self.grid@.take(y as int));
                assert(longer.last() == self.grid@[y as int]);
                assert(text@ =~= header(self.width as nat, self.height as nat) + body(longer));
            }
            y += 1;
        }
        assert(self.grid@.take(y as int) =~= self.grid@);
        text
    }
}

} // verus!
