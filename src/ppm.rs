//! Plain-text PPM ("P3") encoding of an image of 8-bit RGB pixels.
//!
//! The text is the header `P3`, the width and height, and the largest
//! channel value 255, each on its own line; then, for each image row, the
//! decimal channel values of its pixels separated by single spaces and
//! broken into lines of at most `LINE_LIMIT` characters (a value is never
//! split). Every line ends with a newline.

use vstd::prelude::*;
use vstd::string::StringExecFns;
use crate::canvas::Canvas;

verus! {

/// The longest line that the encoder writes.
pub const LINE_LIMIT: usize = 70;

/// A pixel as three 8-bit channels.
#[derive(Clone, Copy, Debug, PartialEq, Eq, Structural)]
pub struct Rgb8 {
    pub red: u8,
    pub green: u8,
    pub blue: u8,
}

/// The character of the decimal digit `d`.
pub open spec fn digit_char(d: nat) -> char {
    ((d + 48) as u8) as char
}

/// The decimal numeral of `n`, without leading zeros.
pub open spec fn decimal(n: nat) -> Seq<char>
    decreases n,
{
    if n < 10 {
        seq![digit_char(n)]
    } else {
        decimal(n / 10).push(digit_char(n % 10))
    }
}

/// Channel `k` of `p`: red, green, then blue.
pub open spec fn channel(p: Rgb8, k: int) -> u8 {
    if k == 0 {
        p.red
    } else if k == 1 {
        p.green
    } else {
        p.blue
    }
}

/// The numerals of the channels of row `y` of `c`, pixel by pixel.
pub open spec fn row_tokens(c: Canvas<Rgb8>, y: int) -> Seq<Seq<char>> {
    Seq::new(3 * c.width as nat, |k: int| decimal(channel(c.pixel(k / 3, y), k % 3) as nat))
}

/// The text of `tokens` laid out greedily: each token goes on the current
/// line after a space if the line then stays within `LINE_LIMIT`
/// characters, else it starts a new line. Also gives the length of the last
/// line.
pub open spec fn wrap_tokens(tokens: Seq<Seq<char>>) -> (Seq<char>, nat)
    decreases tokens.len(),
{
    if tokens.len() == 0 {
        (Seq::empty(), 0)
    } else {
        let prev = wrap_tokens(tokens.drop_last());
        let t = tokens.last();
        if tokens.len() == 1 {
            (t, t.len())
        } else if prev.1 + 1 + t.len() <= LINE_LIMIT {
            (prev.0.push(' ') + t, prev.1 + 1 + t.len())
        } else {
            (prev.0.push('\n') + t, t.len())
        }
    }
}

/// The text of row `y` of `c`, ending in a newline.
pub open spec fn row_text(c: Canvas<Rgb8>, y: int) -> Seq<char> {
    wrap_tokens(row_tokens(c, y)).0.push('\n')
}

/// The text of the first `n` rows of `c`.
pub open spec fn rows_text(c: Canvas<Rgb8>, n: nat) -> Seq<char>
    decreases n,
{
    if n == 0 {
        Seq::empty()
    } else {
        rows_text(c, (n - 1) as nat) + row_text(c, n - 1)
    }
}

/// The header of a PPM text for a `width` x `height` image.
pub open spec fn ppm_header(width: nat, height: nat) -> Seq<char> {
    seq!['P', '3', '\n'] + decimal(width) + seq![' '] + decimal(height) + seq!['\n', '2', '5', '5', '\n']
}

/// The PPM text of `c`.
pub open spec fn ppm_text(c: Canvas<Rgb8>) -> Seq<char> {
    ppm_header(c.width as nat, c.height as nat) + rows_text(c, c.height as nat)
}

fn digit_str(d: u8) -> (r: &'static str)
    requires
        d < 10,
    ensures
        r@ == seq![digit_char(d as nat)],
{
    proof {
        reveal_strlit("0");
        reveal_strlit("1");
        reveal_strlit("2");
        reveal_strlit("3");
        reveal_strlit("4");
        reveal_strlit("5");
        reveal_strlit("6");
        reveal_strlit("7");
        reveal_strlit("8");
        reveal_strlit("9");
    }
    match d {
        0 => "0",
        1 => "1",
        2 => "2",
        3 => "3",
        4 => "4",
        5 => "5",
        6 => "6",
        7 => "7",
        8 => "8",
        _ => "9",
    }
}

/// Appends the decimal numeral of `n` to `out`.
fn append_decimal(out: &mut String, n: usize)
    ensures
        final(out)@ == old(out)@ + decimal(n as nat),
    decreases n,
{
    if n >= 10 {
        append_decimal(out, n / 10);
    }
    out.append(digit_str((n % 10) as u8));
    proof {
        if n >= 10 {
            assert(out@ =~= old(out)@ + decimal(n as nat));
        } else {
            assert(out@ =~= old(out)@ + decimal(n as nat));
        }
    }
}

/// The number of characters in the numeral of `v`.
fn decimal_len(v: u8) -> (r: usize)
    ensures
        r == decimal(v as nat).len(),
        1 <= r <= 3,
{
    proof {
        reveal_with_fuel(decimal, 3);
    }
    if v >= 100 {
        3
    } else if v >= 10 {
        2
    } else {
        1
    }
}

/// Writes the numeral of `v` as the next token of a row, given the length
/// `line_len` of the row's current line (`first`: no token yet).
fn append_token(out: &mut String, line_len: &mut usize, first: bool, v: u8)
    requires
        *old(line_len) <= LINE_LIMIT,
    ensures
        *final(line_len) <= LINE_LIMIT,
        first ==> final(out)@ == old(out)@ + decimal(v as nat) && *final(line_len) == decimal(
            v as nat,
        ).len(),
        !first && *old(line_len) + 1 + decimal(v as nat).len() <= LINE_LIMIT ==> final(out)@ == old(
            out,
        )@.push(' ') + decimal(v as nat) && *final(line_len) == *old(line_len) + 1 + decimal(
            v as nat,
        ).len(),
        !first && *old(line_len) + 1 + decimal(v as nat).len() > LINE_LIMIT ==> final(out)@ == old(
            out,
        )@.push('\n') + decimal(v as nat) && *final(line_len) == decimal(v as nat).len(),
{
    proof {
        reveal_strlit(" ");
        reveal_strlit("\n");
    }
    let len = decimal_len(v);
    if first {
        *line_len = len;
    } else if *line_len + 1 + len <= LINE_LIMIT {
        out.append(" ");
        *line_len = *line_len + 1 + len;
    } else {
        out.append("\n");
        *line_len = len;
    }
    append_decimal(out, v as usize);
}

fn channel_of(p: Rgb8, k: usize) -> (r: u8)
    requires
        k < 3,
    ensures
        r == channel(p, k as int),
{
    if k == 0 {
        p.red
    } else if k == 1 {
        p.green
    } else {
        p.blue
    }
}

/// One more token extends the layout as `wrap_tokens` describes.
proof fn lemma_wrap_step(tokens: Seq<Seq<char>>, j: int)
    requires
        0 <= j < tokens.len(),
    ensures
        ({
            let prev = wrap_tokens(tokens.take(j));
            let t = tokens[j];
            wrap_tokens(tokens.take(j + 1)) == if j == 0 {
                (t, t.len())
            } else if prev.1 + 1 + t.len() <= LINE_LIMIT {
                (prev.0.push(' ') + t, prev.1 + 1 + t.len())
            } else {
                (prev.0.push('\n') + t, t.len())
            }
        }),
{
    assert(tokens.take(j + 1).drop_last() =~= tokens.take(j));
}

impl Canvas<Rgb8> {
    /// Appends the text of row `y`.
    fn append_row(&self, out: &mut String, y: usize)
        requires
            self.wf(),
            y < self.height,
        ensures
            final(out)@ == old(out)@ + row_text(*self, y as int),
    {
        let ghost tokens = row_tokens(*self, y as int);
        let mut line_len: usize = 0;
        let mut x: usize = 0;
        while x < self.width
            invariant
                self.wf(),
                y < self.height,
                x <= self.width,
                tokens == row_tokens(*self, y as int),
                line_len <= LINE_LIMIT,
                out@ == old(out)@ + wrap_tokens(tokens.take(3 * x)).0,
                line_len == wrap_tokens(tokens.take(3 * x)).1,
            decreases self.width - x,
        {
            let p = *self.pixel_at(x, y);
            let mut k: usize = 0;
            while k < 3
                invariant
                    self.wf(),
                    x < self.width,
                    k <= 3,
                    tokens == row_tokens(*self, y as int),
                    p == self.pixel(x as int, y as int),
                    line_len <= LINE_LIMIT,
                    out@ == old(out)@ + wrap_tokens(tokens.take(3 * x + k)).0,
                    line_len == wrap_tokens(tokens.take(3 * x + k)).1,
                decreases 3 - k,
            {
                let ghost j = 3 * x + k;
                let ghost before = out@;
                proof {
                    assert(j / 3 == x && j % 3 == k);
                    assert(tokens[j] == decimal(channel(p, k as int) as nat));
                    lemma_wrap_step(tokens, j);
                }
                append_token(out, &mut line_len, x == 0 && k == 0, channel_of(p, k));
                proof {
                    let prev = wrap_tokens(tokens.take(j));
                    assert(before == old(out)@ + prev.0);
                    if j == 0 {
                        assert(out@ =~= old(out)@ + wrap_tokens(tokens.take(j + 1)).0);
                    } else if prev.1 + 1 + tokens[j].len() <= LINE_LIMIT {
                        assert(out@ =~= old(out)@ + wrap_tokens(tokens.take(j + 1)).0);
                    } else {
                        assert(out@ =~= old(out)@ + wrap_tokens(tokens.take(j + 1)).0);
                    }
                }
                k += 1;
            }
            x += 1;
        }
        assert(tokens.take(3 * self.width) =~= tokens);
        proof {
            reveal_strlit("\n");
        }
        out.append("\n");
        assert(out@ =~= old(out)@ + row_text(*self, y as int));
    }

    /// The PPM text of the image.
    pub fn to_ppm(&self) -> (r: String)
        requires
            self.wf(),
        ensures
            r@ == ppm_text(*self),
    {
        proof {
            reveal_strlit("P3\n");
            reveal_strlit(" ");
            reveal_strlit("\n255\n");
        }
        let mut out = String::new();
        out.append("P3\n");
        append_decimal(&mut out, self.width);
        out.append(" ");
        append_decimal(&mut out, self.height);
        out.append("\n255\n");
        let ghost header = ppm_header(self.width as nat, self.height as nat);
        assert(out@ =~= header);
        let mut y: usize = 0;
        while y < self.height
            invariant
                self.wf(),
                y <= self.height,
                header == ppm_header(self.width as nat, self.height as nat),
                out@ == header + rows_text(*self, y as nat),
            decreases self.height - y,
        {
            self.append_row(&mut out, y);
            assert(rows_text(*self, (y + 1) as nat) == rows_text(*self, y as nat) + row_text(*self, y as int));
            assert(out@ =~= header + rows_text(*self, (y + 1) as nat));
            y += 1;
        }
        out
    }
}

impl Rgb8 {
    /// The three channel numerals separated by spaces, as in a PPM row.
    pub fn ppm_value(&self) -> (r: String)
        ensures
            r@ == decimal(self.red as nat) + seq![' '] + decimal(self.green as nat) + seq![' ']
                + decimal(self.blue as nat),
    {
        proof {
            reveal_strlit(" ");
        }
        let mut out = String::new();
        append_decimal(&mut out, self.red as usize);
        out.append(" ");
        append_decimal(&mut out, self.green as usize);
        out.append(" ");
        append_decimal(&mut out, self.blue as usize);
        assert(out@ =~= decimal(self.red as nat) + seq![' '] + decimal(self.green as nat) + seq![' ']
            + decimal(self.blue as nat));
        out
    }
}

} // verus!
