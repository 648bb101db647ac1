//! Character-level text handling: whitespace trimming, decimal numbers, line splitting.
use vstd::prelude::*;

verus! {

/// Appends one character to a string: calls `String::push`.
#[verifier::external_body]
pub(crate) fn push_char(s: &mut String, c: char)
    ensures
        final(s)@ == old(s)@.push(c),
{
    s.push(c)
}

/// Unicode `White_Space`, the property that `char::is_whitespace` and `str::trim` go by.
pub open spec fn is_whitespace(c: char) -> bool {
    ||| ('\u{9}' <= c && c <= '\u{d}')
    ||| c == ' '
    ||| c == '\u{85}'
    ||| c == '\u{a0}'
    ||| c == '\u{1680}'
    ||| ('\u{2000}' <= c && c <= '\u{200a}')
    ||| c == '\u{2028}'
    ||| c == '\u{2029}'
    ||| c == '\u{202f}'
    ||| c == '\u{205f}'
    ||| c == '\u{3000}'
}

/// Whether `c` is whitespace, as `char::is_whitespace` says.
pub fn char_is_whitespace(c: char) -> (b: bool)
    ensures
        b == is_whitespace(c),
{
    ('\u{9}' <= c && c <= '\u{d}') || c == ' ' || c == '\u{85}' || c == '\u{a0}' || c == '\u{1680}'
        || ('\u{2000}' <= c && c <= '\u{200a}') || c == '\u{2028}' || c == '\u{2029}' || c
        == '\u{202f}' || c == '\u{205f}' || c == '\u{3000}'
}

/// `s` without its leading whitespace.
pub open spec fn trim_start(s: Seq<char>) -> Seq<char>
    decreases s.len(),
{
    if s.len() > 0 && is_whitespace(s[0]) {
        trim_start(s.drop_first())
    } else {
        s
    }
}

/// `s` without its trailing whitespace.
pub open spec fn trim_end(s: Seq<char>) -> Seq<char>
    decreases s.len(),
{
    if s.len() > 0 && is_whitespace(s.last()) {
        trim_end(s.drop_last())
    } else {
        s
    }
}

/// `s` without leading and trailing whitespace, as `str::trim` gives it.
pub open spec fn trim(s: Seq<char>) -> Seq<char> {
    trim_end(trim_start(s))
}

/// The characters of a string slice, in order.
pub fn chars_of(s: &str) -> (v: Vec<char>)
    ensures
        v@ == s@,
{
    broadcast use vstd::string::group_string_axioms;

    let mut v: Vec<char> = Vec::new();
    for c in it: s.chars()
        invariant
            it.seq() == s@,
            v@ == it.seq().take(it.index() as int),
    {
        v.push(c);
    }
    v
}

} // verus!

verus! {

/// The first index at or after `i` where `s` holds `c`, or `s.len()` when there is none.
pub open spec fn next_index_of(s: Seq<char>, i: int, c: char) -> int
    decreases s.len() - i,
{
    if i >= s.len() || i < 0 {
        s.len() as int
    } else if s[i] == c {
        i
    } else {
        next_index_of(s, i + 1, c)
    }
}

/// The first `c` from `i` on lies between `i` and the end, and nothing before it is `c`.
pub proof fn lemma_next_index_of_bounds(s: Seq<char>, i: int, c: char)
    requires
        0 <= i <= s.len(),
    ensures
        i <= next_index_of(s, i, c) <= s.len(),
        next_index_of(s, i, c) < s.len() ==> s[next_index_of(s, i, c)] == c,
        forall|k: int| i <= k < next_index_of(s, i, c) ==> s[k] != c,
    decreases s.len() - i,
{
    if i < s.len() && s[i] != c {
        lemma_next_index_of_bounds(s, i + 1, c);
    }
}

/// Finds `c` in `v[from..to]`; the result is `to` when it does not occur there.
pub fn find_char(v: &Vec<char>, from: usize, to: usize, c: char) -> (r: usize)
    requires
        from <= to <= v@.len(),
    ensures
        from <= r <= to,
        r < to ==> v@[r as int] == c,
        forall|k: int| from <= k < r ==> v@[k] != c,
        to == v@.len() ==> r == next_index_of(v@, from as int, c),
{
    let mut j = from;
    while j < to && v[j] != c
        invariant
            from <= j <= to <= v@.len(),
            forall|k: int| from <= k < j ==> v@[k] != c,
            to == v@.len() ==> next_index_of(v@, from as int, c) == next_index_of(v@, j as int, c),
        decreases to - j,
    {
        j = j + 1;
    }
    j
}

/// Appends `v[from..to]` to `s`.
pub fn append_range(s: &mut String, v: &Vec<char>, from: usize, to: usize)
    requires
        from <= to <= v@.len(),
    ensures
        final(s)@ == old(s)@ + v@.subrange(from as int, to as int),
{
    let mut i = from;
    while i < to
        invariant
            from <= i <= to <= v@.len(),
            s@ == old(s)@ + v@.subrange(from as int, i as int),
        decreases to - i,
    {
        push_char(s, v[i]);
        assert(v@.subrange(from as int, i + 1) =~= v@.subrange(from as int, i as int).push(v@[i as int]));
        i = i + 1;
    }
}

/// A new string holding `v[from..to]`.
pub fn string_of_range(v: &Vec<char>, from: usize, to: usize) -> (s: String)
    requires
        from <= to <= v@.len(),
    ensures
        s@ == v@.subrange(from as int, to as int),
{
    let mut s = String::new();
    append_range(&mut s, v, from, to);
    s
}

/// The bounds of `v[from..to]` once leading and trailing whitespace are dropped.
pub fn trim_range(v: &Vec<char>, from: usize, to: usize) -> (r: (usize, usize))
    requires
        from <= to <= v@.len(),
    ensures
        from <= r.0 <= r.1 <= to,
        v@.subrange(r.0 as int, r.1 as int) == trim(v@.subrange(from as int, to as int)),
{
    let mut a = from;
    while a < to && char_is_whitespace(v[a])
        invariant
            from <= a <= to <= v@.len(),
            trim_start(v@.subrange(from as int, to as int)) == trim_start(v@.subrange(a as int, to as int)),
        decreases to - a,
    {
        assert(v@.subrange(a as int, to as int).drop_first() =~= v@.subrange(a + 1, to as int));
        a = a + 1;
    }
    assert(trim_start(v@.subrange(a as int, to as int)) == v@.subrange(a as int, to as int));
    let mut b = to;
    while b > a && char_is_whitespace(v[b - 1])
        invariant
            from <= a <= b <= to <= v@.len(),
            trim_end(v@.subrange(a as int, to as int)) == trim_end(v@.subrange(a as int, b as int)),
        decreases b - a,
    {
        assert(v@.subrange(a as int, b as int).drop_last() =~= v@.subrange(a as int, b - 1));
        b = b - 1;
    }
    assert(trim_end(v@.subrange(a as int, b as int)) == v@.subrange(a as int, b as int));
    (a, b)
}

/// Whether `text` holds only whitespace, as `text.trim().is_empty()` says.
pub fn is_blank(text: &str) -> (b: bool)
    ensures
        b == (trim(text@).len() == 0),
{
    let v = chars_of(text);
    let (a, z) = trim_range(&v, 0, v.len());
    assert(v@.subrange(0, v@.len() as int) =~= text@);
    a == z
}

} // verus!

verus! {

/// The character of the decimal digit `d`.
pub open spec fn digit_char(d: int) -> char {
    (d + 48) as char
}

/// Whether `c` is a decimal digit.
pub open spec fn is_digit(c: char) -> bool {
    '0' <= c && c <= '9'
}

/// Whether every character of `s` is a decimal digit.
pub open spec fn all_digits(s: Seq<char>) -> bool {
    forall|i: int| 0 <= i < s.len() ==> #[trigger] is_digit(s[i])
}

/// The number that a string of decimal digits stands for.
pub open spec fn digits_value(s: Seq<char>) -> nat
    decreases s.len(),
{
    if s.len() == 0 {
        0
    } else {
        digits_value(s.drop_last()) * 10 + ((s.last() as int - 48) as nat)
    }
}

/// The shortest decimal writing of `n`, as `u64::to_string` gives it.
pub open spec fn decimal(n: nat) -> Seq<char>
    decreases n,
{
    if n < 10 {
        seq![digit_char(n as int)]
    } else {
        decimal(n / 10).push(digit_char((n % 10) as int))
    }
}

/// What `str::parse::<u64>` gives: an optional `+`, then one or more decimal digits whose
/// value fits in a `u64`.
pub open spec fn parse_u64(s: Seq<char>) -> Option<u64> {
    let d = if s.len() > 0 && s[0] == '+' { s.drop_first() } else { s };
    if d.len() > 0 && all_digits(d) && digits_value(d) <= u64::MAX {
        Some(digits_value(d) as u64)
    } else {
        None
    }
}

/// Appends the decimal writing of `n` to `s`.
pub fn push_decimal(s: &mut String, n: u64)
    ensures
        final(s)@ == old(s)@ + decimal(n as nat),
    decreases n,
{
    if n >= 10 {
        push_decimal(s, n / 10);
    }
    let d: u8 = (n % 10) as u8;
    let c: char = (d + 48u8) as char;
    assert(c == digit_char((n % 10) as int));
    push_char(s, c);
    if n >= 10 {
        assert(decimal(n as nat) == decimal((n / 10) as nat).push(digit_char((n % 10) as int)));
    }
}

/// A decimal writing consists of digits, does not start with `+`, and stands for its number.
pub proof fn lemma_decimal_digits(n: nat)
    ensures
        decimal(n).len() > 0,
        all_digits(decimal(n)),
        decimal(n)[0] != '+',
        digits_value(decimal(n)) == n,
    decreases n,
{
    assert(forall|x: int| 0 <= x < 10 ==> (#[trigger] digit_char(x)) as int == x + 48);
    if n >= 10 {
        lemma_decimal_digits(n / 10);
        let s = decimal(n);
        assert(n == (n / 10) * 10 + n % 10);
        assert(s.drop_last() =~= decimal(n / 10));
        assert(s.last() == digit_char((n % 10) as int));
        assert(digits_value(s) == digits_value(decimal(n / 10)) * 10 + (n % 10));
        assert forall|i: int| 0 <= i < s.len() implies #[trigger] is_digit(s[i]) by {
            if i < s.len() - 1 {
                assert(s[i] == decimal(n / 10)[i]);
            }
        }
    } else {
        let s = decimal(n);
        assert(s.drop_last() =~= Seq::<char>::empty());
        assert(digits_value(s) == digits_value(s.drop_last()) * 10 + ((s.last() as int - 48) as nat));
    }
}

/// Writing a number in decimal and reading it back gives the number.
pub proof fn lemma_parse_decimal(n: u64)
    ensures
        parse_u64(decimal(n as nat)) == Some(n),
{
    lemma_decimal_digits(n as nat);
}

/// The value of a digit string is at least the value of any of its prefixes.
pub proof fn lemma_digits_prefix_le(s: Seq<char>, i: int)
    requires
        0 <= i <= s.len(),
        all_digits(s),
    ensures
        digits_value(s.subrange(0, i)) <= digits_value(s),
    decreases s.len() - i,
{
    if i < s.len() {
        assert(s.drop_last().subrange(0, i) =~= s.subrange(0, i));
        assert(all_digits(s.drop_last())) by {
            assert forall|k: int| 0 <= k < s.drop_last().len() implies #[trigger] is_digit(s.drop_last()[k]) by {
                assert(is_digit(s[k]));
            }
        }
        lemma_digits_prefix_le(s.drop_last(), i);
    } else {
        assert(s.subrange(0, i) =~= s);
    }
}

/// Parses `v[from..to]` as `str::parse::<u64>` does.
pub fn parse_u64_range(v: &Vec<char>, from: usize, to: usize) -> (r: Option<u64>)
    requires
        from <= to <= v@.len(),
    ensures
        r == parse_u64(v@.subrange(from as int, to as int)),
{
    let ghost s = v@.subrange(from as int, to as int);
    let mut start = from;
    if from < to && v[from] == '+' {
        start = from + 1;
    }
    let ghost d = v@.subrange(start as int, to as int);
    assert(d =~= (if s.len() > 0 && s[0] == '+' { s.drop_first() } else { s }));
    if start == to {
        return None;
    }
    let mut acc: u64 = 0;
    let mut i = start;
    while i < to
        invariant
            start <= i <= to <= v@.len(),
            d == v@.subrange(start as int, to as int),
            s == v@.subrange(from as int, to as int),
            d == (if s.len() > 0 && s[0] == '+' { s.drop_first() } else { s }),
            all_digits(v@.subrange(start as int, i as int)),
            acc == digits_value(v@.subrange(start as int, i as int)),
        decreases to - i,
    {
        let c = v[i];
        let ghost pre = v@.subrange(start as int, i as int);
        let ghost next = v@.subrange(start as int, i + 1);
        assert(next.drop_last() =~= pre);
        if c < '0' || c > '9' {
            assert(!is_digit(d[i - start]));
            assert(!all_digits(d));
            return None;
        }
        assert(all_digits(next)) by {
            assert forall|k: int| 0 <= k < next.len() implies #[trigger] is_digit(next[k]) by {
                if k < pre.len() {
                    assert(next[k] == pre[k]);
                }
            }
        }
        let dv: u64 = ((c as u32) - 48) as u64;
        assert(digits_value(next) == digits_value(pre) * 10 + dv);
        if acc > (u64::MAX - dv) / 10 {
            proof {
                assert(digits_value(next) > u64::MAX) by (nonlinear_arith)
                    requires
                        acc > (u64::MAX - dv) / 10,
                        digits_value(next) == acc * 10 + dv,
                        dv < 10,
                ;
                if all_digits(d) {
                    assert(next =~= d.subrange(0, i + 1 - start));
                    lemma_digits_prefix_le(d, i + 1 - start);
                }
            }
            return None;
        }
        assert(acc * 10 + dv <= u64::MAX) by (nonlinear_arith)
            requires
                acc <= (u64::MAX - dv) / 10,
                dv < 10,
        ;
        acc = acc * 10 + dv;
        i = i + 1;
    }
    Some(acc)
}

} // verus!

verus! {

/// `t` without one final `\r`, if it has one.
pub open spec fn strip_cr(t: Seq<char>) -> Seq<char> {
    if t.len() > 0 && t.last() == '\r' {
        t.drop_last()
    } else {
        t
    }
}

/// The lines of `s` from index `i` on, as `BufRead::lines` yields them: `s` is split at each
/// `\n`, a line that a `\n` ends also loses one `\r` before it, and a final `\n` is not
/// followed by an empty line.
pub open spec fn lines_from(s: Seq<char>, i: int) -> Seq<Seq<char>>
    decreases s.len() - i,
{
    if i < 0 || i >= s.len() {
        seq![]
    } else {
        let j = next_index_of(s, i, '\n');
        proof {
            lemma_next_index_of_bounds(s, i, '\n');
        }
        if j >= s.len() {
            seq![s.subrange(i, s.len() as int)]
        } else {
            seq![strip_cr(s.subrange(i, j))] + lines_from(s, j + 1)
        }
    }
}

/// The lines of `s`, as `BufRead::lines` yields them.
pub open spec fn lines(s: Seq<char>) -> Seq<Seq<char>> {
    lines_from(s, 0)
}

/// The bounds in `v` of each of its lines: `v[r[k].0..r[k].1]` is line `k`.
pub fn line_bounds(v: &Vec<char>) -> (r: Vec<(usize, usize)>)
    ensures
        r@.len() == lines(v@).len(),
        forall|k: int|
            0 <= k < r@.len() ==> {
                &&& (#[trigger] r@[k]).0 <= r@[k].1 <= v@.len()
                &&& v@.subrange(r@[k].0 as int, r@[k].1 as int) == lines(v@)[k]
            },
{
    let mut r: Vec<(usize, usize)> = Vec::new();
    let ghost mut got: Seq<Seq<char>> = seq![];
    let mut pos: usize = 0;
    let n = v.len();
    while pos < n
        invariant
            n == v@.len(),
            pos <= n,
            lines(v@) == got + lines_from(v@, pos as int),
            r@.len() == got.len(),
            forall|k: int|
                0 <= k < r@.len() ==> {
                    &&& (#[trigger] r@[k]).0 <= r@[k].1 <= v@.len()
                    &&& v@.subrange(r@[k].0 as int, r@[k].1 as int) == got[k]
                },
        decreases n - pos,
    {
        let j = find_char(v, pos, n, '\n');
        proof {
            lemma_next_index_of_bounds(v@, pos as int, '\n');
        }
        if j == n {
            proof {
                assert(lines_from(v@, pos as int) == seq![v@.subrange(pos as int, n as int)]);
                got = got.push(v@.subrange(pos as int, n as int));
                assert(lines_from(v@, n as int) =~= Seq::<Seq<char>>::empty());
            }
            r.push((pos, n));
            assert(lines(v@) =~= got + lines_from(v@, n as int));
            pos = n;
        } else {
            let mut end = j;
            if j > pos && v[j - 1] == '\r' {
                end = j - 1;
            }
            proof {
                let t = v@.subrange(pos as int, j as int);
                assert(v@.subrange(pos as int, end as int) == strip_cr(t)) by {
                    if t.len() > 0 && t.last() == '\r' {
                        assert(t.drop_last() =~= v@.subrange(pos as int, end as int));
                    }
                }
                assert(lines_from(v@, pos as int) == seq![strip_cr(t)] + lines_from(v@, j + 1));
                got = got.push(strip_cr(t));
            }
            r.push((pos, end));
            assert(lines(v@) =~= got + lines_from(v@, j + 1));
            pos = j + 1;
        }
    }
    assert(lines_from(v@, pos as int) =~= Seq::<Seq<char>>::empty());
    assert(lines(v@) =~= got);
    r
}

} // verus!

verus! {

/// How many times `c` occurs in `s`.
pub open spec fn count_of(s: Seq<char>, c: char) -> nat
    decreases s.len(),
{
    if s.len() == 0 {
        0
    } else {
        count_of(s.drop_last(), c) + (if s.last() == c { 1nat } else { 0nat })
    }
}

/// A position from which no `c` comes before `j`, where `j` is the end or a `c`, finds `j`.
pub proof fn lemma_next_index_of_is(s: Seq<char>, i: int, j: int, c: char)
    requires
        0 <= i <= j <= s.len(),
        forall|k: int| i <= k < j ==> s[k] != c,
        j == s.len() || s[j] == c,
    ensures
        next_index_of(s, i, c) == j,
    decreases j - i,
{
    if i < j {
        lemma_next_index_of_is(s, i + 1, j, c);
    }
}

/// Counts `c` in `v[from..to]`.
pub fn count_char(v: &Vec<char>, from: usize, to: usize, c: char) -> (n: usize)
    requires
        from <= to <= v@.len(),
    ensures
        n == count_of(v@.subrange(from as int, to as int), c),
{
    let mut n: usize = 0;
    let mut i = from;
    while i < to
        invariant
            from <= i <= to <= v@.len(),
            n == count_of(v@.subrange(from as int, i as int), c),
            n <= i - from,
        decreases to - i,
    {
        assert(v@.subrange(from as int, i + 1).drop_last() =~= v@.subrange(from as int, i as int));
        if v[i] == c {
            n = n + 1;
        }
        i = i + 1;
    }
    n
}

} // verus!

verus! {

/// `c` occurs in `a + b` as often as in `a` and `b` together.
pub proof fn lemma_count_concat(a: Seq<char>, b: Seq<char>, c: char)
    ensures
        count_of(a + b, c) == count_of(a, c) + count_of(b, c),
    decreases b.len(),
{
    if b.len() == 0 {
        assert(a + b =~= a);
    } else {
        assert((a + b).drop_last() =~= a + b.drop_last());
        lemma_count_concat(a, b.drop_last(), c);
    }
}

/// A character that occurs nowhere in `s` is counted zero times, and conversely.
pub proof fn lemma_count_zero(s: Seq<char>, c: char)
    ensures
        count_of(s, c) == 0 <==> forall|i: int| 0 <= i < s.len() ==> s[i] != c,
    decreases s.len(),
{
    if s.len() > 0 {
        lemma_count_zero(s.drop_last(), c);
        if count_of(s, c) == 0 {
            assert forall|i: int| 0 <= i < s.len() implies s[i] != c by {
                if i < s.len() - 1 {
                    assert(s[i] == s.drop_last()[i]);
                }
            }
        }
        if forall|i: int| 0 <= i < s.len() ==> s[i] != c {
            assert forall|i: int| 0 <= i < s.drop_last().len() implies s.drop_last()[i] != c by {
                assert(s.drop_last()[i] == s[i]);
            }
        }
    }
}

/// Where `s` holds a character that is no whitespace, trimming leaves something.
pub proof fn lemma_trim_keeps(s: Seq<char>, p: int)
    requires
        0 <= p < s.len(),
        !is_whitespace(s[p]),
    ensures
        trim(s).len() > 0,
{
    lemma_trim_start_keeps(s, p);
    let k = choose|k: int| 0 <= k <= p && trim_start(s) == s.subrange(k, s.len() as int);
    lemma_trim_end_keeps(trim_start(s), p - k);
}

proof fn lemma_trim_start_keeps(s: Seq<char>, p: int)
    requires
        0 <= p < s.len(),
        !is_whitespace(s[p]),
    ensures
        exists|k: int| 0 <= k <= p && trim_start(s) == s.subrange(k, s.len() as int),
    decreases s.len(),
{
    if is_whitespace(s[0]) {
        assert(p > 0);
        assert(s.drop_first()[p - 1] == s[p]);
        lemma_trim_start_keeps(s.drop_first(), p - 1);
        let k = choose|k: int| 0 <= k <= p - 1 && trim_start(s.drop_first()) == s.drop_first().subrange(k, s.drop_first().len() as int);
        assert(s.drop_first().subrange(k, s.drop_first().len() as int) =~= s.subrange(k + 1, s.len() as int));
    } else {
        assert(s.subrange(0, s.len() as int) =~= s);
    }
}

proof fn lemma_trim_end_keeps(t: Seq<char>, q: int)
    requires
        0 <= q < t.len(),
        !is_whitespace(t[q]),
    ensures
        trim_end(t).len() > q,
    decreases t.len(),
{
    if is_whitespace(t.last()) {
        assert(q < t.len() - 1);
        assert(t.drop_last()[q] == t[q]);
        lemma_trim_end_keeps(t.drop_last(), q);
    }
}

/// A sequence that starts and ends with something other than whitespace is its own trim.
pub proof fn lemma_trim_fixed(s: Seq<char>)
    requires
        s.len() > 0,
        !is_whitespace(s[0]),
        !is_whitespace(s.last()),
    ensures
        trim(s) == s,
{
}

/// Reading the lines of `a + b` from inside `b` is reading the lines of `b`.
pub proof fn lemma_lines_shift(a: Seq<char>, b: Seq<char>, i: int)
    requires
        0 <= i,
    ensures
        lines_from(a + b, a.len() + i) == lines_from(b, i),
    decreases b.len() - i,
{
    let s = a + b;
    if i < b.len() {
        lemma_next_index_shift(a, b, i, '\n');
        lemma_next_index_of_bounds(b, i, '\n');
        let j = next_index_of(b, i, '\n');
        if j < b.len() {
            assert(s.subrange(a.len() + i, a.len() + j) =~= b.subrange(i, j));
            lemma_lines_shift(a, b, j + 1);
        } else {
            assert(s.subrange(a.len() + i, s.len() as int) =~= b.subrange(i, b.len() as int));
        }
    }
}

proof fn lemma_next_index_shift(a: Seq<char>, b: Seq<char>, i: int, c: char)
    requires
        0 <= i,
    ensures
        next_index_of(a + b, a.len() + i, c) == a.len() + next_index_of(b, i, c),
    decreases b.len() - i,
{
    if i < b.len() {
        assert((a + b)[a.len() + i] == b[i]);
        if b[i] != c {
            lemma_next_index_shift(a, b, i + 1, c);
        }
    }
}

/// A line without `\n` and not ending in `\r`, followed by `\n` and more text, is the first line.
pub proof fn lemma_lines_first(body: Seq<char>, rest: Seq<char>)
    requires
        forall|i: int| 0 <= i < body.len() ==> body[i] != '\n',
        body.len() > 0 ==> body.last() != '\r',
    ensures
        lines(body + seq!['\n'] + rest) == seq![body] + lines(rest),
{
    let line = body + seq!['\n'];
    let s = line + rest;
    assert forall|k: int| 0 <= k < body.len() implies s[k] != '\n' by {
        assert(s[k] == body[k]);
    }
    assert(s[body.len() as int] == '\n');
    lemma_next_index_of_is(s, 0, body.len() as int, '\n');
    assert(s.subrange(0, body.len() as int) =~= body);
    lemma_lines_shift(line, rest, 0);
    assert(s == body + seq!['\n'] + rest);
}

/// A final line that no newline ends is kept, whole: text with no newline is one line, itself,
/// even when it ends in `\r`.
pub proof fn lemma_lines_last(t: Seq<char>)
    requires
        t.len() > 0,
        forall|k: int| 0 <= k < t.len() ==> t[k] != '\n',
    ensures
        lines(t) == seq![t],
{
    lemma_next_index_of_is(t, 0, t.len() as int, '\n');
    assert(t.subrange(0, t.len() as int) =~= t);
}

/// Text whose last line has no newline: a first line, its newline, and a last line give both lines.
pub proof fn lemma_lines_two(a: Seq<char>, t: Seq<char>)
    requires
        forall|k: int| 0 <= k < a.len() ==> a[k] != '\n',
        a.len() > 0 ==> a.last() != '\r',
        t.len() > 0,
        forall|k: int| 0 <= k < t.len() ==> t[k] != '\n',
    ensures
        lines(a + seq!['\n'] + t) == seq![a, t],
{
    lemma_lines_first(a, t);
    lemma_lines_last(t);
    assert(seq![a] + seq![t] =~= seq![a, t]);
}

} // verus!
