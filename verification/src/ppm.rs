//! Plain-text PPM ("P3") image output.

use vstd::prelude::*;

use crate::lex::{all_digits, digits_value, is_digit, parse_usize, unsigned_part};
use crate::text::string_from_chars;

verus! {

/// The largest color value a PPM channel may hold.
pub const MAX_COLOR_VALUE: u8 = 255;

/// The longest line, in characters, that a PPM file may contain.
pub const MAX_LINE_LENGTH: usize = 70;

/// The character of a decimal digit.
pub open spec fn digit_char(d: nat) -> char {
    (48 + d) as char
}

/// The decimal representation of `n`, without leading zeros.
pub open spec fn decimal(n: nat) -> Seq<char>
    decreases n,
{
    if n < 10 {
        seq![digit_char(n)]
    } else {
        decimal(n / 10).push(digit_char(n % 10))
    }
}

/// The three channel values of a pixel, as decimal words.
pub open spec fn pixel_tokens(p: (u8, u8, u8)) -> Seq<Seq<char>> {
    seq![decimal(p.0 as nat), decimal(p.1 as nat), decimal(p.2 as nat)]
}

/// The words that describe a row of pixels, three per pixel.
pub open spec fn row_tokens(ps: Seq<(u8, u8, u8)>) -> Seq<Seq<char>>
    decreases ps.len(),
{
    if ps.len() == 0 {
        Seq::empty()
    } else {
        row_tokens(ps.drop_last()) + pixel_tokens(ps.last())
    }
}

/// Appends the word `t` to `st`, a text and the length of its last line:
/// separated by a space, or by a line break when the line would otherwise
/// grow past the limit.
pub open spec fn wrap_step(st: (Seq<char>, nat), t: Seq<char>) -> (Seq<char>, nat) {
    if st.1 + t.len() + 1 > MAX_LINE_LENGTH {
        (st.0 + seq!['\n'] + t, t.len())
    } else {
        (st.0 + seq![' '] + t, st.1 + 1 + t.len())
    }
}

/// The words `ts` laid out on lines, with the length of the last line.
pub open spec fn wrap_state(ts: Seq<Seq<char>>) -> (Seq<char>, nat)
    decreases ts.len(),
{
    if ts.len() == 0 {
        (Seq::empty(), 0)
    } else if ts.len() == 1 {
        (ts[0], ts[0].len())
    } else {
        wrap_step(wrap_state(ts.drop_last()), ts.last())
    }
}

/// The words `ts` laid out on lines of bounded length.
pub open spec fn wrap(ts: Seq<Seq<char>>) -> Seq<char> {
    wrap_state(ts).0
}

/// The text of row `r` of a `width`-wide image whose pixels are `ps`.
pub open spec fn row_text(ps: Seq<(u8, u8, u8)>, width: nat, r: int) -> Seq<char> {
    wrap(row_tokens(ps.subrange(width * r, width * r + width)))
}

/// The texts `ls` joined by line breaks.
pub open spec fn join_lines(ls: Seq<Seq<char>>) -> Seq<char>
    decreases ls.len(),
{
    if ls.len() == 0 {
        Seq::empty()
    } else if ls.len() == 1 {
        ls[0]
    } else {
        join_lines(ls.drop_last()) + seq!['\n'] + ls.last()
    }
}

/// The pixel data: one text per row of the image, joined by line breaks.
pub open spec fn body(ps: Seq<(u8, u8, u8)>, width: nat, height: nat) -> Seq<char> {
    join_lines(Seq::new(height, |r: int| row_text(ps, width, r)))
}

/// The header: the format tag, the dimensions and the largest color value.
pub open spec fn header(width: nat, height: nat) -> Seq<char> {
    seq!['P', '3', '\n'] + decimal(width) + seq![' '] + decimal(height) + seq!['\n']
        + decimal(MAX_COLOR_VALUE as nat) + seq!['\n']
}

/// A whole PPM file: header, pixel data, and a final line break.
pub open spec fn ppm_spec(ps: Seq<(u8, u8, u8)>, width: nat, height: nat) -> Seq<char> {
    header(width, height) + body(ps, width, height) + seq!['\n']
}

fn digit(d: usize) -> (c: char)
    requires
        d < 10,
    ensures
        c == digit_char(d as nat),
{
    let b: u8 = 48u8 + (d as u8);
    b as char
}

/// Appends the decimal representation of `n` to `out`.
fn push_decimal(out: &mut Vec<char>, n: usize)
    ensures
        final(out)@ == old(out)@ + decimal(n as nat),
    decreases n,
{
    if n >= 10 {
        push_decimal(out, n / 10);
    }
    out.push(digit(n % 10));
    proof {
        if n >= 10 {
            assert(decimal(n as nat) == decimal((n / 10) as nat).push(digit_char((n % 10) as nat)));
        }
    }
}

/// A color level is written with one to three digits.
pub proof fn lemma_decimal_len_u8(n: nat)
    requires
        n <= 255,
    ensures
        1 <= decimal(n).len() <= 3,
{
    reveal_with_fuel(decimal, 3);
}

proof fn lemma_wrap_state_push(ts: Seq<Seq<char>>, t: Seq<char>)
    ensures
        wrap_state(ts.push(t)) == if ts.len() == 0 {
            (t, t.len())
        } else {
            wrap_step(wrap_state(ts), t)
        },
{
    assert(ts.push(t).drop_last() =~= ts);
    if ts.len() == 0 {
        assert(ts.push(t)[0] == t);
    }
}

/// Appends one word to the line being laid out; `first` marks the first word
/// of a row. Returns the new length of the last line.
fn emit_word(out: &mut Vec<char>, line: usize, first: bool, value: u8, Ghost(base): Ghost<
    Seq<char>>, Ghost(ts): Ghost<Seq<Seq<char>>>) -> (new_line: usize)
    requires
        first <==> ts.len() == 0,
        old(out)@ == base + wrap_state(ts).0,
        ts.len() > 0 ==> line == wrap_state(ts).1,
        line <= MAX_LINE_LENGTH,
    ensures
        final(out)@ == base + wrap_state(ts.push(decimal(value as nat))).0,
        new_line == wrap_state(ts.push(decimal(value as nat))).1,
        new_line <= MAX_LINE_LENGTH,
{
    let ghost t = decimal(value as nat);
    proof {
        lemma_decimal_len_u8(value as nat);
        lemma_wrap_state_push(ts, t);
    }
    let len: usize = if value >= 100 {
        3
    } else if value >= 10 {
        2
    } else {
        1
    };
    proof {
        reveal_with_fuel(decimal, 3);
        assert(len == t.len());
    }
    let ghost before = out@;
    let new_line: usize = if first {
        len
    } else if line + len + 1 > MAX_LINE_LENGTH {
        out.push('\n');
        len
    } else {
        out.push(' ');
        line + 1 + len
    };
    let ghost mid = out@;
    push_decimal(out, value as usize);
    proof {
        if first {
            assert(out@ =~= base + t);
        } else if line + len + 1 > MAX_LINE_LENGTH {
            assert(out@ =~= base + (wrap_state(ts).0 + seq!['\n'] + t));
        } else {
            assert(out@ =~= base + (wrap_state(ts).0 + seq![' '] + t));
        }
    }
    new_line
}

proof fn lemma_row_tokens_len(ps: Seq<(u8, u8, u8)>)
    ensures
        row_tokens(ps).len() == 3 * ps.len(),
    decreases ps.len(),
{
    if ps.len() > 0 {
        lemma_row_tokens_len(ps.drop_last());
    }
}

/// Appends the text of the row of `width` pixels that starts at `start`.
fn push_row(out: &mut Vec<char>, ps: &Vec<(u8, u8, u8)>, start: usize, width: usize)
    requires
        start + width <= ps@.len(),
        width > 0,
    ensures
        final(out)@ == old(out)@ + wrap(row_tokens(ps@.subrange(start as int, start + width))),
{
    let ghost base = out@;
    let ghost row = ps@.subrange(start as int, start + width);
    let mut line: usize = 0;
    let n = ps.len();
    for k in 0..width
        invariant
            n == ps@.len(),
            start + width <= ps@.len(),
            row == ps@.subrange(start as int, start + width),
            out@ == base + wrap_state(row_tokens(row.take(k as int))).0,
            k > 0 ==> line == wrap_state(row_tokens(row.take(k as int))).1,
            line <= MAX_LINE_LENGTH,
    {
        let p = ps[start + k];
        let ghost ts0 = row_tokens(row.take(k as int));
        proof {
            lemma_row_tokens_len(row.take(k as int));
            assert(row.take(k + 1).drop_last() =~= row.take(k as int));
            assert(row[k as int] == p);
        }
        line = emit_word(out, line, k == 0, p.0, Ghost(base), Ghost(ts0));
        let ghost ts1 = ts0.push(decimal(p.0 as nat));
        line = emit_word(out, line, false, p.1, Ghost(base), Ghost(ts1));
        let ghost ts2 = ts1.push(decimal(p.1 as nat));
        line = emit_word(out, line, false, p.2, Ghost(base), Ghost(ts2));
        proof {
            assert(ts2.push(decimal(p.2 as nat)) =~= row_tokens(row.take(k + 1)));
        }
    }
    proof {
        assert(row.take(width as int) =~= row);
    }
}

proof fn lemma_row_in_bounds(w: int, h: int, r: int)
    requires
        0 <= r < h,
        w > 0,
    ensures
        w * r + w <= w * h,
        0 <= w * r,
{
    assert(w * r + w <= w * h) by (nonlinear_arith)
        requires
            0 <= r < h,
            w > 0,
    ;
    assert(0 <= w * r) by (nonlinear_arith)
        requires
            0 <= r,
            w > 0,
    ;
}

/// The PPM text of a `width` by `height` image whose pixels, row by row,
/// hold the channel values `ps`.
pub fn ppm_text(width: usize, height: usize, ps: &Vec<(u8, u8, u8)>) -> (s: String)
    requires
        width > 0,
        ps@.len() == width * height,
    ensures
        s@ == ppm_spec(ps@, width as nat, height as nat),
{
    let mut out: Vec<char> = Vec::new();
    out.push('P');
    out.push('3');
    out.push('\n');
    push_decimal(&mut out, width);
    out.push(' ');
    push_decimal(&mut out, height);
    out.push('\n');
    push_decimal(&mut out, MAX_COLOR_VALUE as usize);
    out.push('\n');
    let ghost hd = out@;
    assert(hd =~= header(width as nat, height as nat));
    let ghost rows = Seq::new(height as nat, |r: int| row_text(ps@, width as nat, r));
    let n = ps.len();
    for r in 0..height
        invariant
            n == ps@.len(),
            ps@.len() == width * height,
            width > 0,
            rows == Seq::new(height as nat, |r: int| row_text(ps@, width as nat, r)),
            out@ == hd + join_lines(rows.take(r as int)),
    {
        proof {
            lemma_row_in_bounds(width as int, height as int, r as int);
            assert(rows.take(r + 1).drop_last() =~= rows.take(r as int));
        }
        if r > 0 {
            out.push('\n');
        }
        let ghost before = out@;
        push_row(&mut out, ps, width * r, width);
        proof {
            if r > 0 {
                assert(out@ =~= hd + (join_lines(rows.take(r as int)) + seq!['\n'] + rows[r as int]));
            } else {
                assert(out@ =~= hd + rows[0]);
            }
        }
    }
    out.push('\n');
    proof {
        assert(rows.take(height as int) =~= rows);
        assert(out@ =~= ppm_spec(ps@, width as nat, height as nat));
    }
    string_from_chars(&out)
}

} // verus!

verus! {

/// No line of `s` is longer than `max` characters: every stretch of more
/// than `max` consecutive characters holds a line break.
pub open spec fn lines_within(s: Seq<char>, max: nat) -> bool {
    forall|i: int, j: int| 0 <= i <= j < s.len() && j - i >= max ==> #[trigger] has_break(s, i, j)
}

/// Some character of `s` between positions `i` and `j` (both included) is a
/// line break.
pub open spec fn has_break(s: Seq<char>, i: int, j: int) -> bool {
    exists|k: int| i <= k <= j && #[trigger] s[k] == '\n'
}

/// A word that can be laid out on a line: short, and without line breaks.
pub open spec fn is_word(t: Seq<char>) -> bool {
    &&& t.len() < MAX_LINE_LENGTH
    &&& forall|k: int| 0 <= k < t.len() ==> #[trigger] t[k] != '\n'
}

/// A laid-out text whose last line, of length `line`, holds no line break and
/// is preceded by one (unless it is the whole text).
pub open spec fn wrapped_ok(st: (Seq<char>, nat)) -> bool {
    let (text, line) = st;
    &&& line <= MAX_LINE_LENGTH
    &&& line <= text.len()
    &&& forall|k: int| text.len() - line <= k < text.len() ==> #[trigger] text[k] != '\n'
    &&& text.len() > line ==> text[text.len() - line - 1] == '\n'
    &&& lines_within(text, MAX_LINE_LENGTH as nat)
}

proof fn lemma_short_lines_within(s: Seq<char>)
    requires
        s.len() <= MAX_LINE_LENGTH,
    ensures
        lines_within(s, MAX_LINE_LENGTH as nat),
{
}

proof fn lemma_wrap_ok(ts: Seq<Seq<char>>)
    requires
        forall|k: int| 0 <= k < ts.len() ==> is_word(#[trigger] ts[k]),
    ensures
        wrapped_ok(wrap_state(ts)),
    decreases ts.len(),
{
    if ts.len() == 1 {
        lemma_short_lines_within(ts[0]);
        assert(is_word(ts[0]));
    } else if ts.len() > 1 {
        let prev = wrap_state(ts.drop_last());
        lemma_wrap_ok(ts.drop_last());
        let t = ts.last();
        assert(is_word(ts[ts.len() - 1]));
        let (text, line) = prev;
        let (ntext, nline) = wrap_step(prev, t);
        let n = text.len() as int;
        assert(ntext.len() == n + 1 + t.len());
        assert forall|k: int| ntext.len() - nline <= k < ntext.len() implies #[trigger] ntext[k]
            != '\n' by {
            if k > n {
                assert(ntext[k] == t[k - n - 1]);
            } else if k < n {
                assert(ntext[k] == text[k]);
            }
        }
        assert forall|i: int, j: int|
            0 <= i <= j < ntext.len() && j - i >= MAX_LINE_LENGTH implies #[trigger] has_break(
                ntext,
                i,
                j,
            ) by {
            if j < n {
                assert(has_break(text, i, j));
                let k = choose|k: int| i <= k <= j && #[trigger] text[k] == '\n';
                assert(ntext[k] == text[k]);
            } else if line + t.len() + 1 > MAX_LINE_LENGTH {
                assert(ntext[n] == '\n');
            } else {
                let p = n - line - 1;
                assert(text[p] == '\n');
                assert(ntext[p] == text[p]);
            }
        }
    }
}

/// `a` and `b` joined by a line break have no line longer than either.
pub proof fn lemma_join_within(a: Seq<char>, b: Seq<char>, max: nat)
    requires
        lines_within(a, max),
        lines_within(b, max),
    ensures
        lines_within(a + seq!['\n'] + b, max),
{
    let s = a + seq!['\n'] + b;
    let n = a.len() as int;
    assert forall|i: int, j: int| 0 <= i <= j < s.len() && j - i >= max implies #[trigger] has_break(
        s,
        i,
        j,
    ) by {
        if j < n {
            assert(has_break(a, i, j));
            let k = choose|k: int| i <= k <= j && #[trigger] a[k] == '\n';
            assert(s[k] == a[k]);
        } else if i > n {
            assert(has_break(b, i - n - 1, j - n - 1));
            let k = choose|k: int| i - n - 1 <= k <= j - n - 1 && #[trigger] b[k] == '\n';
            assert(s[k + n + 1] == b[k]);
        } else {
            assert(s[n] == '\n');
        }
    }
}

proof fn lemma_join_lines_within(ls: Seq<Seq<char>>)
    requires
        forall|k: int| 0 <= k < ls.len() ==> lines_within(#[trigger] ls[k], MAX_LINE_LENGTH as nat),
    ensures
        lines_within(join_lines(ls), MAX_LINE_LENGTH as nat),
    decreases ls.len(),
{
    if ls.len() == 0 {
    } else if ls.len() == 1 {
        assert(lines_within(ls[0], MAX_LINE_LENGTH as nat));
    } else {
        lemma_join_lines_within(ls.drop_last());
        assert(lines_within(ls[ls.len() - 1], MAX_LINE_LENGTH as nat));
        lemma_join_within(join_lines(ls.drop_last()), ls.last(), MAX_LINE_LENGTH as nat);
    }
}

proof fn lemma_decimal_digits(n: nat)
    ensures
        forall|k: int| 0 <= k < decimal(n).len() ==> #[trigger] decimal(n)[k] != '\n',
        decimal(n).len() >= 1,
    decreases n,
{
    if n >= 10 {
        lemma_decimal_digits(n / 10);
        assert forall|k: int| 0 <= k < decimal(n).len() implies #[trigger] decimal(n)[k]
            != '\n' by {
            if k < decimal(n / 10).len() {
                assert(decimal(n)[k] == decimal(n / 10)[k]);
            }
        }
    }
}

proof fn lemma_decimal_len_bound(n: nat, d: nat, p: int)
    requires
        n < p,
        d >= 1,
        p == vstd::arithmetic::power::pow(10, d),
    ensures
        decimal(n).len() <= d,
    decreases d,
{
    vstd::arithmetic::power::lemma_pow_positive(10, d);
    if n >= 10 {
        let p2 = vstd::arithmetic::power::pow(10, (d - 1) as nat);
        if d == 1 {
            vstd::arithmetic::power::lemma_pow1(10);
        } else {
            vstd::arithmetic::power::lemma_pow_adds(10, (d - 1) as nat, 1);
            vstd::arithmetic::power::lemma_pow1(10);
            assert(n / 10 < p2) by (nonlinear_arith)
                requires
                    n < p,
                    p == p2 * 10,
            ;
            lemma_decimal_len_bound(n / 10, (d - 1) as nat, p2);
        }
    }
}

proof fn lemma_usize_decimal_len(n: usize)
    ensures
        decimal(n as nat).len() <= 20,
{
    reveal_with_fuel(vstd::arithmetic::power::pow, 21);
    lemma_decimal_len_bound(n as nat, 20, vstd::arithmetic::power::pow(10, 20));
}

proof fn lemma_row_words(ps: Seq<(u8, u8, u8)>)
    ensures
        forall|k: int| 0 <= k < row_tokens(ps).len() ==> is_word(#[trigger] row_tokens(ps)[k]),
    decreases ps.len(),
{
    if ps.len() > 0 {
        lemma_row_words(ps.drop_last());
        let p = ps.last();
        lemma_decimal_digits(p.0 as nat);
        lemma_decimal_digits(p.1 as nat);
        lemma_decimal_digits(p.2 as nat);
        lemma_decimal_len_u8(p.0 as nat);
        lemma_decimal_len_u8(p.1 as nat);
        lemma_decimal_len_u8(p.2 as nat);
        let rest = row_tokens(ps.drop_last());
        assert forall|k: int| 0 <= k < row_tokens(ps).len() implies is_word(
            #[trigger] row_tokens(ps)[k],
        ) by {
            if k < rest.len() {
                assert(row_tokens(ps)[k] == rest[k]);
            } else {
                assert(row_tokens(ps)[k] == pixel_tokens(p)[k - rest.len()]);
            }
        }
    }
}

/// No line of a PPM file is longer than 70 characters.
pub proof fn lemma_ppm_lines_within(ps: Seq<(u8, u8, u8)>, width: usize, height: usize)
    requires
        width > 0,
        ps.len() == width * height,
    ensures
        lines_within(ppm_spec(ps, width as nat, height as nat), MAX_LINE_LENGTH as nat),
{
    let rows = Seq::new(height as nat, |r: int| row_text(ps, width as nat, r));
    assert forall|r: int| 0 <= r < rows.len() implies lines_within(
        #[trigger] rows[r],
        MAX_LINE_LENGTH as nat,
    ) by {
        let row = ps.subrange(width * r, width * r + width);
        lemma_row_words(row);
        lemma_wrap_ok(row_tokens(row));
    }
    lemma_join_lines_within(rows);
    let b = body(ps, width as nat, height as nat);
    lemma_usize_decimal_len(width);
    lemma_usize_decimal_len(height);
    let tag = seq!['P', '3'];
    let dims = decimal(width as nat) + seq![' '] + decimal(height as nat);
    let maxv = decimal(MAX_COLOR_VALUE as nat);
    lemma_decimal_len_u8(MAX_COLOR_VALUE as nat);
    lemma_short_lines_within(tag);
    lemma_short_lines_within(dims);
    lemma_short_lines_within(maxv);
    lemma_short_lines_within(Seq::<char>::empty());
    let m = MAX_LINE_LENGTH as nat;
    lemma_join_within(tag, dims, m);
    lemma_join_within(tag + seq!['\n'] + dims, maxv, m);
    lemma_join_within(tag + seq!['\n'] + dims + seq!['\n'] + maxv, b, m);
    lemma_join_within(
        tag + seq!['\n'] + dims + seq!['\n'] + maxv + seq!['\n'] + b,
        Seq::<char>::empty(),
        m,
    );
    assert(tag + seq!['\n'] + dims + seq!['\n'] + maxv + seq!['\n'] + b + seq!['\n']
        + Seq::<char>::empty() =~= ppm_spec(ps, width as nat, height as nat));
}

/// Every PPM file ends with a line break.
pub proof fn lemma_ppm_ends_with_newline(ps: Seq<(u8, u8, u8)>, width: nat, height: nat)
    ensures
        ppm_spec(ps, width, height).last() == '\n',
{
}

} // verus!

verus! {

proof fn lemma_decimal_value(n: nat)
    requires
        n <= usize::MAX,
    ensures
        all_digits(decimal(n)),
        digits_value(decimal(n)) == n,
        decimal(n).len() >= 1,
        decimal(n)[0] != '+',
    decreases n,
{
    let c = digit_char(n % 10);
    assert(c as nat == 48 + n % 10);
    assert('0' as nat == 48);
    if n < 10 {
        let d = decimal(n);
        assert(d.drop_last() =~= Seq::<char>::empty());
        assert(d.last() == c);
        assert(digits_value(d) == 10 * digits_value(d.drop_last()) + (c as nat - '0' as nat) as nat);
    }
    if n >= 10 {
        lemma_decimal_value(n / 10);
        let d = decimal(n);
        assert(d.drop_last() =~= decimal(n / 10));
        assert(d.last() == c);
        assert(n == 10 * (n / 10) + n % 10);
        assert(digits_value(d) == 10 * digits_value(d.drop_last()) + (c as nat - '0' as nat) as nat);
        assert forall|i: int| 0 <= i < d.len() implies is_digit(#[trigger] d[i]) by {
            if i < d.len() - 1 {
                assert(d[i] == decimal(n / 10)[i]);
            }
        }
        assert(d[0] == decimal(n / 10)[0]);
    }
}

/// Every number the PPM writer prints reads back, with the reader of face
/// corners, as the same number.
pub proof fn lemma_decimal_reads_back(n: usize)
    ensures
        parse_usize(decimal(n as nat)) == Some(n),
{
    lemma_decimal_value(n as nat);
    assert(unsigned_part(decimal(n as nat)) == decimal(n as nat));
}

} // verus!
