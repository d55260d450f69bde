//! Splitting text into lines and words, and recognizing numbers, the way
//! Rust's standard library does it.

use vstd::prelude::*;

verus! {

/// The views of a sequence of character vectors.
pub open spec fn seqs_view(v: Seq<Vec<char>>) -> Seq<Seq<char>> {
    v.map_values(|w: Vec<char>| w@)
}

/// Unicode white space, as `char::is_whitespace` defines it.
pub open spec fn is_ws(c: char) -> bool {
    let u = c as u32;
    ||| 9 <= u <= 13
    ||| u == 32
    ||| u == 0x85
    ||| u == 0xA0
    ||| u == 0x1680
    ||| 0x2000 <= u <= 0x200A
    ||| u == 0x2028
    ||| u == 0x2029
    ||| u == 0x202F
    ||| u == 0x205F
    ||| u == 0x3000
}

pub fn is_whitespace(c: char) -> (r: bool)
    ensures
        r == is_ws(c),
{
    let u = c as u32;
    (9 <= u && u <= 13) || u == 32 || u == 0x85 || u == 0xA0 || u == 0x1680 || (0x2000 <= u && u
        <= 0x200A) || u == 0x2028 || u == 0x2029 || u == 0x202F || u == 0x205F || u == 0x3000
}

/// The pieces of `s` between occurrences of `sep`, as `str::split` yields
/// them: one more piece than there are separators, empty pieces included.
pub open spec fn split_on(s: Seq<char>, sep: char) -> Seq<Seq<char>>
    decreases s.len(),
{
    if s.len() == 0 {
        seq![Seq::empty()]
    } else {
        let p = split_on(s.drop_last(), sep);
        if s.last() == sep {
            p.push(Seq::empty())
        } else {
            p.update(p.len() - 1, p.last().push(s.last()))
        }
    }
}

/// The pieces of `s` between white-space characters, empty pieces included.
pub open spec fn split_ws(s: Seq<char>) -> Seq<Seq<char>>
    decreases s.len(),
{
    if s.len() == 0 {
        seq![Seq::empty()]
    } else {
        let p = split_ws(s.drop_last());
        if is_ws(s.last()) {
            p.push(Seq::empty())
        } else {
            p.update(p.len() - 1, p.last().push(s.last()))
        }
    }
}

/// The words of `s`, as `str::split_whitespace` yields them: the non-empty
/// pieces between white space.
pub open spec fn words(s: Seq<char>) -> Seq<Seq<char>> {
    nonempty_pieces(split_ws(s))
}

/// The non-empty pieces of `ps`, in order.
pub open spec fn nonempty_pieces(ps: Seq<Seq<char>>) -> Seq<Seq<char>>
    decreases ps.len(),
{
    if ps.len() == 0 {
        Seq::empty()
    } else if ps.last().len() > 0 {
        nonempty_pieces(ps.drop_last()).push(ps.last())
    } else {
        nonempty_pieces(ps.drop_last())
    }
}

/// Splitting on a separator always gives at least one piece.
pub proof fn lemma_split_on_len(s: Seq<char>, sep: char)
    ensures
        split_on(s, sep).len() >= 1,
    decreases s.len(),
{
    if s.len() > 0 {
        lemma_split_on_len(s.drop_last(), sep);
    }
}

/// A text without the separator is a single piece.
pub proof fn lemma_split_on_without_sep(s: Seq<char>, sep: char)
    requires
        !s.contains(sep),
    ensures
        split_on(s, sep) == seq![s],
    decreases s.len(),
{
    if s.len() > 0 {
        assert(!s.drop_last().contains(sep)) by {
            if s.drop_last().contains(sep) {
                let k = choose|k: int| 0 <= k < s.drop_last().len() && s.drop_last()[k] == sep;
                assert(s[k] == sep);
            }
        }
        lemma_split_on_without_sep(s.drop_last(), sep);
        assert(s.last() != sep) by {
            assert(s[s.len() - 1] == s.last());
        }
        assert(s.drop_last().push(s.last()) =~= s);
        let p = seq![s.drop_last()];
        assert(p.update(p.len() - 1, p.last().push(s.last())) =~= seq![s]);
    } else {
        assert(s =~= Seq::<char>::empty());
    }
}

/// Splitting `a`, a separator and `b` gives the pieces of `a` followed by
/// the pieces of `b`.
pub proof fn lemma_split_on_join(a: Seq<char>, b: Seq<char>, sep: char)
    ensures
        split_on(a + seq![sep] + b, sep) == split_on(a, sep) + split_on(b, sep),
    decreases b.len(),
{
    let s = a + seq![sep] + b;
    lemma_split_on_len(a, sep);
    if b.len() == 0 {
        assert(s =~= a.push(sep));
        assert(s.drop_last() =~= a);
        assert(split_on(a, sep).push(Seq::empty()) =~= split_on(a, sep) + split_on(b, sep));
    } else {
        let b1 = b.drop_last();
        lemma_split_on_join(a, b1, sep);
        lemma_split_on_len(b1, sep);
        assert(s.drop_last() =~= a + seq![sep] + b1);
        assert(s.last() == b.last());
        let p = split_on(a, sep);
        let q = split_on(b1, sep);
        if b.last() == sep {
            assert((p + q).push(Seq::empty()) =~= p + q.push(Seq::empty()));
        } else {
            let pq = p + q;
            assert(pq.update(pq.len() - 1, pq.last().push(b.last())) =~= p + q.update(
                q.len() - 1,
                q.last().push(b.last()),
            ));
        }
    }
}

/// Splitting on whitespace always gives at least one piece.
pub proof fn lemma_split_ws_len(s: Seq<char>)
    ensures
        split_ws(s).len() >= 1,
    decreases s.len(),
{
    if s.len() > 0 {
        lemma_split_ws_len(s.drop_last());
    }
}

/// The pieces of `s` between occurrences of `sep`.
pub fn split_chars(s: &Vec<char>, sep: char) -> (parts: Vec<Vec<char>>)
    ensures
        seqs_view(parts@) == split_on(s@, sep),
{
    let mut done: Vec<Vec<char>> = Vec::new();
    let mut cur: Vec<char> = Vec::new();
    for i in 0..s.len()
        invariant
            seqs_view(done@).push(cur@) == split_on(s@.take(i as int), sep),
    {
        let c = s[i];
        let ghost t = s@.take(i + 1);
        proof {
            assert(t.drop_last() =~= s@.take(i as int));
            lemma_split_on_len(s@.take(i as int), sep);
        }
        if c == sep {
            let ghost old_done = done@;
            let ghost old_cur = cur@;
            done.push(cur);
            cur = Vec::new();
            proof {
                assert(seqs_view(done@) =~= seqs_view(old_done).push(old_cur));
            }
            assert(seqs_view(done@).push(cur@) =~= split_on(t, sep));
        } else {
            cur.push(c);
            assert(seqs_view(done@).push(cur@) =~= split_on(t, sep));
        }
    }
    let ghost old_done = done@;
    done.push(cur);
    assert(s@.take(s@.len() as int) =~= s@);
    assert(seqs_view(done@) =~= seqs_view(old_done).push(cur@));
    done
}

/// The words of `s`: its non-empty pieces between white space.
pub fn words_of(s: &Vec<char>) -> (ws: Vec<Vec<char>>)
    ensures
        seqs_view(ws@) == words(s@),
{
    let mut done: Vec<Vec<char>> = Vec::new();
    let mut cur: Vec<char> = Vec::new();
    for i in 0..s.len()
        invariant
            seqs_view(done@) == nonempty_pieces(split_ws(s@.take(i as int)).drop_last()),
            cur@ == split_ws(s@.take(i as int)).last(),
    {
        let c = s[i];
        let ghost t = s@.take(i + 1);
        let ghost p = split_ws(s@.take(i as int));
        proof {
            assert(t.drop_last() =~= s@.take(i as int));
            lemma_split_ws_len(s@.take(i as int));
        }
        if is_whitespace(c) {
            if cur.len() > 0 {
                let ghost old_done = done@;
                let ghost old_cur = cur@;
                done.push(cur);
                proof {
                    assert(seqs_view(done@) =~= seqs_view(old_done).push(old_cur));
                }
            }
            cur = Vec::new();
            proof {
                assert(split_ws(t).drop_last() =~= p);
            }
        } else {
            cur.push(c);
            proof {
                assert(split_ws(t).drop_last() =~= p.drop_last());
            }
        }
    }
    assert(s@.take(s@.len() as int) =~= s@);
    proof {
        lemma_split_ws_len(s@);
    }
    if cur.len() > 0 {
        let ghost old_done = done@;
        let ghost old_cur = cur@;
        done.push(cur);
        proof {
            assert(seqs_view(done@) =~= seqs_view(old_done).push(old_cur));
        }
    }
    done
}

/// `s` without a final carriage return.
pub open spec fn strip_cr(l: Seq<char>) -> Seq<char> {
    if l.len() > 0 && l.last() == '\r' {
        l.drop_last()
    } else {
        l
    }
}

/// The lines of `s`, as `str::lines` yields them: split at line feeds, each
/// line without the carriage return that may precede its line feed, and no
/// empty line after a final line feed.
pub open spec fn lines(s: Seq<char>) -> Seq<Seq<char>> {
    let parts = split_on(s, '\n');
    let n = parts.len();
    let k = if parts[n - 1].len() == 0 {
        n - 1
    } else {
        n as int
    };
    Seq::new(k as nat, |i: int| if i < n - 1 { strip_cr(parts[i]) } else { parts[i] })
}

/// The lines of `s`.
pub fn lines_of(s: &Vec<char>) -> (ls: Vec<Vec<char>>)
    ensures
        seqs_view(ls@) == lines(s@),
{
    let parts = split_chars(s, '\n');
    proof {
        lemma_split_on_len(s@, '\n');
    }
    let n = parts.len();
    let k = if parts[n - 1].len() == 0 {
        n - 1
    } else {
        n
    };
    let mut out: Vec<Vec<char>> = Vec::new();
    for i in 0..k
        invariant
            k <= n,
            n == parts@.len(),
            n >= 1,
            seqs_view(parts@) == split_on(s@, '\n'),
            k == (if split_on(s@, '\n')[n - 1].len() == 0 {
                n - 1
            } else {
                n as int
            }),
            seqs_view(out@) == lines(s@).take(i as int),
    {
        let mut line = parts[i].clone();
        if i + 1 < n && line.len() > 0 && line[line.len() - 1] == '\r' {
            line.pop();
        }
        let ghost old_out = out@;
        out.push(line);
        proof {
            assert(seqs_view(parts@)[i as int] == parts@[i as int]@);
            assert(seqs_view(out@) =~= seqs_view(old_out).push(line@));
            assert(lines(s@).take(i + 1) =~= lines(s@).take(i as int).push(lines(s@)[i as int]));
        }
    }
    assert(lines(s@).take(k as int) =~= lines(s@));
    out
}

proof fn lemma_split_on_count(s: Seq<char>, sep: char)
    ensures
        split_on(s, sep).len() >= 1,
        split_on(s, sep).len() - (if split_on(s, sep).last().len() == 0 {
            1int
        } else {
            0int
        }) <= s.len(),
    decreases s.len(),
{
    lemma_split_on_len(s, sep);
    if s.len() > 0 {
        lemma_split_on_count(s.drop_last(), sep);
    }
}

/// A text has no more lines than characters.
pub proof fn lemma_lines_len(s: Seq<char>)
    ensures
        lines(s).len() <= s.len(),
{
    lemma_split_on_count(s, '\n');
}

/// `s` without white space at its start.
pub open spec fn trim_start(s: Seq<char>) -> Seq<char>
    decreases s.len(),
{
    if s.len() > 0 && is_ws(s[0]) {
        trim_start(s.drop_first())
    } else {
        s
    }
}

/// `s` without white space at its end.
pub open spec fn trim_end(s: Seq<char>) -> Seq<char>
    decreases s.len(),
{
    if s.len() > 0 && is_ws(s.last()) {
        trim_end(s.drop_last())
    } else {
        s
    }
}

/// `s` without white space at either end, as `str::trim` yields it.
pub open spec fn trim(s: Seq<char>) -> Seq<char> {
    trim_end(trim_start(s))
}

/// `s` without white space at either end.
pub fn trim_chars(s: &Vec<char>) -> (r: Vec<char>)
    ensures
        r@ == trim(s@),
{
    let n = s.len();
    let mut a: usize = 0;
    assert(s@.subrange(0, n as int) =~= s@);
    while a < n && is_whitespace(s[a])
        invariant
            a <= n,
            n == s@.len(),
            trim_start(s@.subrange(a as int, n as int)) == trim_start(s@),
        decreases n - a,
    {
        assert(s@.subrange(a + 1, n as int) =~= s@.subrange(a as int, n as int).drop_first());
        a = a + 1;
    }
    let ghost u = s@.subrange(a as int, n as int);
    assert(trim_start(u) == u);
    let mut b: usize = n;
    while b > a && is_whitespace(s[b - 1])
        invariant
            a <= b <= n,
            n == s@.len(),
            u == s@.subrange(a as int, n as int),
            trim_end(s@.subrange(a as int, b as int)) == trim_end(u),
        decreases b - a,
    {
        assert(s@.subrange(a as int, b - 1) =~= s@.subrange(a as int, b as int).drop_last());
        b = b - 1;
    }
    let mut r: Vec<char> = Vec::new();
    let mut j: usize = a;
    while j < b
        invariant
            a <= j <= b <= n,
            n == s@.len(),
            r@ == s@.subrange(a as int, j as int),
        decreases b - j,
    {
        r.push(s[j]);
        assert(r@ =~= s@.subrange(a as int, j + 1));
        j = j + 1;
    }
    r
}

/// Whether `c` is an ASCII decimal digit.
pub open spec fn is_digit(c: char) -> bool {
    '0' <= c <= '9'
}

/// The value of the decimal digits `d`.
pub open spec fn digits_value(d: Seq<char>) -> nat
    decreases d.len(),
{
    if d.len() == 0 {
        0
    } else {
        10 * digits_value(d.drop_last()) + (d.last() as nat - '0' as nat) as nat
    }
}

/// Whether every character of `d` is a decimal digit.
pub open spec fn all_digits(d: Seq<char>) -> bool {
    forall|i: int| 0 <= i < d.len() ==> is_digit(#[trigger] d[i])
}

/// `s` without a leading plus sign.
pub open spec fn unsigned_part(s: Seq<char>) -> Seq<char> {
    if s.len() > 0 && s[0] == '+' {
        s.drop_first()
    } else {
        s
    }
}

/// What `str::parse::<usize>` yields for `s`: an optional plus sign followed
/// by at least one decimal digit, whose value fits in a `usize`.
pub open spec fn parse_usize(s: Seq<char>) -> Option<usize> {
    let d = unsigned_part(s);
    if d.len() > 0 && all_digits(d) && digits_value(d) <= usize::MAX {
        Some(digits_value(d) as usize)
    } else {
        None
    }
}

proof fn lemma_digits_value_grows(d: Seq<char>, j: int)
    requires
        0 <= j <= d.len(),
        all_digits(d),
    ensures
        digits_value(d.take(j)) <= digits_value(d),
    decreases d.len(),
{
    if j < d.len() {
        assert(all_digits(d.drop_last()));
        assert(d.drop_last().take(j) =~= d.take(j));
        lemma_digits_value_grows(d.drop_last(), j);
    } else {
        assert(d.take(j) =~= d);
    }
}

/// The number that `s` spells in decimal, as `str::parse::<usize>` reads it.
pub fn parse_usize_chars(s: &Vec<char>) -> (r: Option<usize>)
    ensures
        r == parse_usize(s@),
{
    let n = s.len();
    let start: usize = if n > 0 && s[0] == '+' {
        1
    } else {
        0
    };
    let ghost d = unsigned_part(s@);
    assert(d =~= s@.subrange(start as int, n as int));
    if start == n {
        return None;
    }
    let mut v: usize = 0;
    let mut i: usize = start;
    while i < n
        invariant
            start <= i <= n,
            n == s@.len(),
            d == s@.subrange(start as int, n as int),
            d == unsigned_part(s@),
            all_digits(d.take(i - start)),
            v == digits_value(d.take(i - start)),
        decreases n - i,
    {
        let c = s[i];
        let ghost k = i - start;
        assert(d.take(k + 1).drop_last() =~= d.take(k));
        assert(d[k] == c);
        if !('0' <= c && c <= '9') {
            assert(!all_digits(d));
            return None;
        }
        let dv = (c as u32 - '0' as u32) as usize;
        if v > (usize::MAX - dv) / 10 {
            proof {
                assert(digits_value(d.take(k + 1)) > usize::MAX) by (nonlinear_arith)
                    requires
                        v > (usize::MAX - dv) / 10,
                        digits_value(d.take(k + 1)) == 10 * v + dv,
                        dv <= 9,
                ;
                if all_digits(d) {
                    lemma_digits_value_grows(d, k + 1);
                }
            }
            return None;
        }
        v = v * 10 + dv;
        i = i + 1;
    }
    assert(d.take(n - start) =~= d);
    Some(v)
}

/// The code of `c`, with ASCII capitals turned into lower case.
pub open spec fn ascii_lower(c: char) -> int {
    let u = c as u32;
    if 65 <= u <= 90 {
        u + 32
    } else {
        u as int
    }
}

/// Whether `s` equals the lower-case `word`, ignoring ASCII case.
pub open spec fn eq_ignore_case(s: Seq<char>, word: Seq<char>) -> bool {
    s.len() == word.len() && forall|i: int| 0 <= i < s.len() ==> ascii_lower(#[trigger] s[i])
        == (word[i] as u32)
}

/// Whether `c` marks an exponent.
pub open spec fn is_exp_mark(c: char) -> bool {
    c == 'e' || c == 'E'
}

/// Digits with at most one decimal point, and at least one digit.
pub open spec fn is_mantissa(m: Seq<char>) -> bool {
    &&& forall|i: int| 0 <= i < m.len() ==> is_digit(#[trigger] m[i]) || m[i] == '.'
    &&& forall|i: int, j: int| 0 <= i < j < m.len() && #[trigger] m[i] == '.' ==> #[trigger] m[j]
        != '.'
    &&& exists|i: int| 0 <= i < m.len() && is_digit(#[trigger] m[i])
}

/// An optional sign followed by at least one digit.
pub open spec fn is_exponent(x: Seq<char>) -> bool {
    let d = if x.len() > 0 && (x[0] == '+' || x[0] == '-') {
        x.drop_first()
    } else {
        x
    };
    d.len() > 0 && all_digits(d)
}

/// A decimal number: a mantissa, optionally followed by an exponent mark and
/// an exponent.
pub open spec fn is_number(u: Seq<char>) -> bool {
    ||| is_mantissa(u)
    ||| exists|k: int|
        0 <= k < u.len() && is_exp_mark(#[trigger] u[k]) && is_mantissa(u.take(k)) && is_exponent(
            u.skip(k + 1),
        )
}

/// `s` without a leading sign.
pub open spec fn unsigned_float(s: Seq<char>) -> Seq<char> {
    if s.len() > 0 && (s[0] == '+' || s[0] == '-') {
        s.drop_first()
    } else {
        s
    }
}

/// Whether `str::parse::<f64>` accepts `s`: an optional sign followed by
/// `inf`, `infinity` or `nan` in any ASCII case, or by a decimal number.
pub open spec fn is_float_literal(s: Seq<char>) -> bool {
    let u = unsigned_float(s);
    ||| eq_ignore_case(u, seq!['i', 'n', 'f'])
    ||| eq_ignore_case(u, seq!['i', 'n', 'f', 'i', 'n', 'i', 't', 'y'])
    ||| eq_ignore_case(u, seq!['n', 'a', 'n'])
    ||| is_number(u)
}

fn is_mantissa_chars(s: &Vec<char>, lo: usize, hi: usize) -> (r: bool)
    requires
        lo <= hi <= s@.len(),
    ensures
        r == is_mantissa(s@.subrange(lo as int, hi as int)),
{
    let ghost m = s@.subrange(lo as int, hi as int);
    let mut dot = false;
    let mut digit = false;
    let mut i: usize = lo;
    while i < hi
        invariant
            lo <= i <= hi <= s@.len(),
            m == s@.subrange(lo as int, hi as int),
            forall|j: int| 0 <= j < i - lo ==> is_digit(#[trigger] m[j]) || m[j] == '.',
            forall|j: int, k: int| 0 <= j < k < i - lo && #[trigger] m[j] == '.' ==> #[trigger] m[k] != '.',
            dot <==> exists|j: int| 0 <= j < i - lo && #[trigger] m[j] == '.',
            digit <==> exists|j: int| 0 <= j < i - lo && is_digit(#[trigger] m[j]),
        decreases hi - i,
    {
        let c = s[i];
        assert(m[i - lo] == c);
        if '0' <= c && c <= '9' {
            digit = true;
        } else if c == '.' {
            if dot {
                let ghost j = choose|j: int| 0 <= j < i - lo && #[trigger] m[j] == '.';
                assert(!(forall|a: int, b: int| 0 <= a < b < m.len() && #[trigger] m[a] == '.' ==> #[trigger] m[b] != '.'));
                return false;
            }
            dot = true;
        } else {
            return false;
        }
        i = i + 1;
    }
    digit
}

fn all_digits_chars(s: &Vec<char>, lo: usize, hi: usize) -> (r: bool)
    requires
        lo <= hi <= s@.len(),
    ensures
        r == all_digits(s@.subrange(lo as int, hi as int)),
{
    let ghost m = s@.subrange(lo as int, hi as int);
    let mut i: usize = lo;
    while i < hi
        invariant
            lo <= i <= hi <= s@.len(),
            m == s@.subrange(lo as int, hi as int),
            forall|j: int| 0 <= j < i - lo ==> is_digit(#[trigger] m[j]),
        decreases hi - i,
    {
        let c = s[i];
        assert(m[i - lo] == c);
        if !('0' <= c && c <= '9') {
            return false;
        }
        i = i + 1;
    }
    true
}

fn is_exponent_chars(s: &Vec<char>, lo: usize, hi: usize) -> (r: bool)
    requires
        lo <= hi <= s@.len(),
    ensures
        r == is_exponent(s@.subrange(lo as int, hi as int)),
{
    let ghost x = s@.subrange(lo as int, hi as int);
    let start = if lo < hi && (s[lo] == '+' || s[lo] == '-') {
        lo + 1
    } else {
        lo
    };
    assert(x.len() > 0 ==> x[0] == s@[lo as int]);
    assert(start > lo ==> x.drop_first() =~= s@.subrange(start as int, hi as int));
    assert(start == lo ==> x =~= s@.subrange(start as int, hi as int));
    start < hi && all_digits_chars(s, start, hi)
}

fn eq_ignore_case_chars(s: &Vec<char>, lo: usize, word: &Vec<char>) -> (r: bool)
    requires
        lo <= s@.len(),
    ensures
        r == eq_ignore_case(s@.subrange(lo as int, s@.len() as int), word@),
{
    let ghost u = s@.subrange(lo as int, s@.len() as int);
    if s.len() - lo != word.len() {
        return false;
    }
    let mut i: usize = 0;
    let n = s.len();
    while i < word.len()
        invariant
            n == s@.len(),
            lo + word@.len() == s@.len(),
            u == s@.subrange(lo as int, s@.len() as int),
            i <= word@.len(),
            forall|j: int| 0 <= j < i ==> ascii_lower(#[trigger] u[j]) == (word@[j] as u32),
        decreases word@.len() - i,
    {
        let c = s[lo + i];
        assert(u[i as int] == c);
        let cu = c as u32;
        let lower = if 65 <= cu && cu <= 90 {
            cu + 32
        } else {
            cu
        };
        if lower != word[i] as u32 {
            return false;
        }
        i = i + 1;
    }
    true
}

/// Whether `str::parse::<f64>` accepts the characters `s`.
pub fn is_float_literal_chars(s: &Vec<char>) -> (r: bool)
    ensures
        r == is_float_literal(s@),
{
    let n = s.len();
    let lo: usize = if n > 0 && (s[0] == '+' || s[0] == '-') {
        1
    } else {
        0
    };
    let ghost u = unsigned_float(s@);
    assert(u =~= s@.subrange(lo as int, n as int));
    let inf = vec!['i', 'n', 'f'];
    let infinity = vec!['i', 'n', 'f', 'i', 'n', 'i', 't', 'y'];
    let nan = vec!['n', 'a', 'n'];
    assert(inf@ =~= seq!['i', 'n', 'f']);
    assert(infinity@ =~= seq!['i', 'n', 'f', 'i', 'n', 'i', 't', 'y']);
    assert(nan@ =~= seq!['n', 'a', 'n']);
    if eq_ignore_case_chars(s, lo, &inf) || eq_ignore_case_chars(s, lo, &infinity)
        || eq_ignore_case_chars(s, lo, &nan) {
        return true;
    }
    let mut k: usize = lo;
    while k < n && !(s[k] == 'e' || s[k] == 'E')
        invariant
            lo <= k <= n,
            n == s@.len(),
            u == s@.subrange(lo as int, n as int),
            forall|j: int| 0 <= j < k - lo ==> !is_exp_mark(#[trigger] u[j]),
        decreases n - k,
    {
        assert(u[k - lo] == s@[k as int]);
        k = k + 1;
    }
    if k == n {
        let r = is_mantissa_chars(s, lo, n);
        proof {
            if exists|k2: int|
                0 <= k2 < u.len() && is_exp_mark(#[trigger] u[k2]) && is_mantissa(u.take(k2))
                    && is_exponent(u.skip(k2 + 1)) {
                let k2 = choose|k2: int|
                    0 <= k2 < u.len() && is_exp_mark(#[trigger] u[k2]) && is_mantissa(u.take(k2))
                        && is_exponent(u.skip(k2 + 1));
                assert(!is_exp_mark(u[k2]));
            }
        }
        r
    } else {
        let ghost ke = (k - lo) as int;
        assert(is_exp_mark(u[ke]));
        assert(u.take(ke) =~= s@.subrange(lo as int, k as int));
        assert(u.skip(ke + 1) =~= s@.subrange(k + 1, n as int));
        let r = is_mantissa_chars(s, lo, k) && is_exponent_chars(s, k + 1, n);
        proof {
            if is_mantissa(u) {
                assert(!(is_digit(u[ke]) || u[ke] == '.'));
            }
            if exists|k2: int|
                0 <= k2 < u.len() && is_exp_mark(#[trigger] u[k2]) && is_mantissa(u.take(k2))
                    && is_exponent(u.skip(k2 + 1)) {
                let k2 = choose|k2: int|
                    0 <= k2 < u.len() && is_exp_mark(#[trigger] u[k2]) && is_mantissa(u.take(k2))
                        && is_exponent(u.skip(k2 + 1));
                if k2 > ke {
                    assert(u.take(k2)[ke] == u[ke]);
                    assert(!(is_digit(u.take(k2)[ke]) || u.take(k2)[ke] == '.'));
                } else if k2 < ke {
                    assert(!is_exp_mark(u[k2]));
                }
                assert(k2 == ke);
            }
        }
        r
    }
}

} // verus!
