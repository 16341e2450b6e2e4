//! Character-level building blocks shared by the text formats: decimal
//! numbers, splitting on a separator, line breaking and quoted values.
use vstd::prelude::*;
use vstd::utf8::*;

verus! {

// ---------------------------------------------------------------------------
// Decimal digits
// ---------------------------------------------------------------------------

/// The character of a decimal digit.
pub open spec fn digit_char(d: nat) -> char {
    if d == 0 {
        '0'
    } else if d == 1 {
        '1'
    } else if d == 2 {
        '2'
    } else if d == 3 {
        '3'
    } else if d == 4 {
        '4'
    } else if d == 5 {
        '5'
    } else if d == 6 {
        '6'
    } else if d == 7 {
        '7'
    } else if d == 8 {
        '8'
    } else {
        '9'
    }
}

/// The value of a decimal digit character, if it is one.
pub open spec fn digit_of(c: char) -> Option<nat> {
    if c == '0' {
        Some(0)
    } else if c == '1' {
        Some(1)
    } else if c == '2' {
        Some(2)
    } else if c == '3' {
        Some(3)
    } else if c == '4' {
        Some(4)
    } else if c == '5' {
        Some(5)
    } else if c == '6' {
        Some(6)
    } else if c == '7' {
        Some(7)
    } else if c == '8' {
        Some(8)
    } else if c == '9' {
        Some(9)
    } else {
        None
    }
}

pub open spec fn all_digits(s: Seq<char>) -> bool {
    forall|i: int| 0 <= i < s.len() ==> (#[trigger] digit_of(s[i])) is Some
}

/// The number that a string of decimal digits denotes.
pub open spec fn digits_value(s: Seq<char>) -> nat
    decreases s.len(),
{
    if s.len() == 0 {
        0
    } else {
        digits_value(s.drop_last()) * 10 + match digit_of(s.last()) {
            Some(d) => d,
            None => 0,
        }
    }
}

/// The shortest decimal representation of `n`.
pub open spec fn dec(n: nat) -> Seq<char>
    decreases n,
{
    if n < 10 {
        seq![digit_char(n)]
    } else {
        dec(n / 10).push(digit_char(n % 10))
    }
}

/// The decimal representation of a signed number: a minus sign before the
/// digits of a negative one.
pub open spec fn dec_signed(n: int) -> Seq<char> {
    if n < 0 {
        seq!['-'] + dec((-n) as nat)
    } else {
        dec(n as nat)
    }
}

/// A run of digits, at least one, and the number it denotes.
pub open spec fn unsigned_value(s: Seq<char>) -> Option<nat> {
    if s.len() > 0 && all_digits(s) {
        Some(digits_value(s))
    } else {
        None
    }
}

/// What Rust's `u64::from_str` accepts: an optional `+`, then digits whose
/// value fits in 64 bits.
pub open spec fn parse_u64(s: Seq<char>) -> Option<u64> {
    let body = if s.len() > 0 && s[0] == '+' {
        s.drop_first()
    } else {
        s
    };
    match unsigned_value(body) {
        Some(v) => if v <= u64::MAX {
            Some(v as u64)
        } else {
            None
        },
        None => None,
    }
}

/// What Rust's `i64::from_str` accepts: an optional `+` or `-`, then digits
/// whose signed value fits in 64 bits.
pub open spec fn parse_i64(s: Seq<char>) -> Option<i64> {
    if s.len() > 0 && s[0] == '-' {
        match unsigned_value(s.drop_first()) {
            Some(v) => if v <= 0x8000_0000_0000_0000 {
                Some((-v) as i64)
            } else {
                None
            },
            None => None,
        }
    } else {
        let body = if s.len() > 0 && s[0] == '+' {
            s.drop_first()
        } else {
            s
        };
        match unsigned_value(body) {
            Some(v) => if v <= i64::MAX {
                Some(v as i64)
            } else {
                None
            },
            None => None,
        }
    }
}

pub proof fn lemma_dec_digits(n: nat)
    ensures
        dec(n).len() > 0,
        all_digits(dec(n)),
        digits_value(dec(n)) == n,
    decreases n,
{
    if n >= 10 {
        lemma_dec_digits(n / 10);
        let s = dec(n);
        assert(s.drop_last() =~= dec(n / 10));
        assert(s.last() == digit_char(n % 10));
        assert(digit_of(digit_char(n % 10)) == Some(n % 10));
        assert forall|i: int| 0 <= i < s.len() implies (#[trigger] digit_of(s[i])) is Some by {
            if i < s.len() - 1 {
                assert(s[i] == dec(n / 10)[i]);
            }
        }
        assert(digits_value(s) == digits_value(dec(n / 10)) * 10 + n % 10);
        assert((n / 10) * 10 + n % 10 == n) by (nonlinear_arith);
    } else {
        let s = dec(n);
        assert(s.drop_last() =~= Seq::<char>::empty());
        assert(digit_of(digit_char(n)) == Some(n));
        assert(digits_value(s) == digits_value(s.drop_last()) * 10 + n);
        assert(digits_value(Seq::<char>::empty()) == 0);
    }
}

pub proof fn lemma_parse_dec(n: u64)
    ensures
        parse_u64(dec(n as nat)) == Some(n),
{
    lemma_dec_digits(n as nat);
    assert(digit_of(dec(n as nat)[0]) is Some);
}

pub proof fn lemma_parse_dec_signed(n: i64)
    ensures
        parse_i64(dec_signed(n as int)) == Some(n),
{
    if n < 0 {
        let m = (-n) as nat;
        lemma_dec_digits(m);
        assert((seq!['-'] + dec(m)).drop_first() =~= dec(m));
    } else {
        lemma_dec_digits(n as nat);
        assert(digit_of(dec(n as nat)[0]) is Some);
    }
}

pub proof fn lemma_digits_value_prefix(s: Seq<char>, k: int)
    requires
        all_digits(s),
        0 <= k <= s.len(),
    ensures
        digits_value(s.subrange(0, k)) <= digits_value(s),
    decreases s.len() - k,
{
    if k < s.len() {
        lemma_digits_value_prefix(s, k + 1);
        let p = s.subrange(0, k + 1);
        assert(p.drop_last() =~= s.subrange(0, k));
        assert(digit_of(s[k]) is Some);
    } else {
        assert(s.subrange(0, k) =~= s);
    }
}

/// The character of the digit `d`.
pub fn digit_to_char(d: u64) -> (c: char)
    requires
        d < 10,
    ensures
        c == digit_char(d as nat),
{
    match d {
        0 => '0',
        1 => '1',
        2 => '2',
        3 => '3',
        4 => '4',
        5 => '5',
        6 => '6',
        7 => '7',
        8 => '8',
        _ => '9',
    }
}

/// The value of a digit character.
pub fn char_to_digit(c: char) -> (r: Option<u64>)
    ensures
        r matches Some(d) ==> digit_of(c) == Some(d as nat),
        r is None ==> digit_of(c) is None,
{
    match c {
        '0' => Some(0),
        '1' => Some(1),
        '2' => Some(2),
        '3' => Some(3),
        '4' => Some(4),
        '5' => Some(5),
        '6' => Some(6),
        '7' => Some(7),
        '8' => Some(8),
        '9' => Some(9),
        _ => None,
    }
}

/// Relies on `String::push`: the character is appended at the end.
#[verifier::external_body]
pub(crate) fn push_char(s: &mut String, c: char)
    ensures
        final(s)@ == old(s)@.push(c),
{
    s.push(c)
}

/// Appends the decimal representation of `n`.
pub fn push_dec(out: &mut String, n: u64)
    ensures
        final(out)@ == old(out)@ + dec(n as nat),
    decreases n,
{
    if n >= 10 {
        push_dec(out, n / 10);
    }
    push_char(out, digit_to_char(n % 10));
    proof {
        if n >= 10 {
            assert(dec(n as nat) == dec((n / 10) as nat).push(digit_char((n % 10) as nat)));
        }
    }
}

/// Appends the decimal representation of `n + 1`.
pub fn push_dec_succ(out: &mut String, n: u64)
    ensures
        final(out)@ == old(out)@ + dec((n + 1) as nat),
    decreases n,
{
    if n % 10 == 9 {
        push_dec_succ(out, n / 10);
        push_char(out, '0');
        proof {
            assert((n + 1) / 10 == n / 10 + 1 && (n + 1) % 10 == 0) by (nonlinear_arith)
                requires
                    n % 10 == 9,
            ;
            assert(dec((n + 1) as nat) == dec(((n + 1) / 10) as nat).push(digit_char(0)));
        }
    } else {
        if n >= 10 {
            push_dec(out, n / 10);
        }
        push_char(out, digit_to_char(n % 10 + 1));
        proof {
            assert((n + 1) / 10 == n / 10 && (n + 1) % 10 == n % 10 + 1) by (nonlinear_arith)
                requires
                    n % 10 != 9,
            ;
            if n >= 10 {
                assert(dec((n + 1) as nat) == dec(((n + 1) / 10) as nat).push(
                    digit_char(((n + 1) % 10) as nat),
                ));
            }
        }
    }
}

/// Appends the decimal representation of a signed number.
pub fn push_dec_signed(out: &mut String, n: i64)
    ensures
        final(out)@ == old(out)@ + dec_signed(n as int),
{
    if n < 0 {
        push_char(out, '-');
        let m: u64 = ((-(n + 1)) as u64) + 1;
        push_dec(out, m);
    } else {
        push_dec(out, n as u64);
    }
}

/// Reads the run of digits `s[start..end]`; `None` where it is empty, holds
/// another character or denotes more than `limit`.
pub fn parse_digits(s: &[char], start: usize, end: usize, limit: u64) -> (r: Option<u64>)
    requires
        start <= end <= s@.len(),
    ensures
        r == (match unsigned_value(s@.subrange(start as int, end as int)) {
            Some(v) => if v <= limit {
                Some(v as u64)
            } else {
                None::<u64>
            },
            None => None,
        }),
{
    let ghost sub = s@.subrange(start as int, end as int);
    if start == end {
        return None;
    }
    let mut acc: u64 = 0;
    let mut i: usize = start;
    while i < end
        invariant
            start <= i <= end <= s@.len(),
            sub == s@.subrange(start as int, end as int),
            all_digits(s@.subrange(start as int, i as int)),
            acc as nat == digits_value(s@.subrange(start as int, i as int)),
            acc <= limit,
        decreases end - i,
    {
        let ghost pre = s@.subrange(start as int, i as int);
        let ghost next = s@.subrange(start as int, i + 1);
        proof {
            assert(next.drop_last() =~= pre);
        }
        match char_to_digit(s[i]) {
            None => {
                proof {
                    assert(sub[i - start] == s@[i as int]);
                }
                return None;
            },
            Some(d) => {
                assert(all_digits(next)) by {
                    assert forall|j: int| 0 <= j < next.len() implies (#[trigger] digit_of(
                        next[j],
                    )) is Some by {
                        if j < pre.len() {
                            assert(next[j] == pre[j]);
                        }
                    }
                }
                if d > limit || acc > (limit - d) / 10 {
                    proof {
                        assert(digits_value(next) == acc * 10 + d);
                        assert(digits_value(next) > limit) by (nonlinear_arith)
                            requires
                                digits_value(next) == acc * 10 + d,
                                d > limit || acc > (limit - d) / 10,
                        {}
                        if all_digits(sub) {
                            assert(sub.subrange(0, (i + 1 - start) as int) =~= next);
                            lemma_digits_value_prefix(sub, (i + 1 - start) as int);
                        }
                    }
                    return None;
                }
                proof {
                    assert(acc * 10 + d <= limit) by (nonlinear_arith)
                        requires
                            acc <= (limit - d) / 10,
                            d <= limit,
                    {}
                }
                acc = acc * 10 + d;
            },
        }
        i = i + 1;
    }
    proof {
        assert(s@.subrange(start as int, i as int) =~= sub);
    }
    Some(acc)
}

/// Reads `s[start..end]` as Rust reads a `u64`.
pub fn parse_u64_at(s: &[char], start: usize, end: usize) -> (r: Option<u64>)
    requires
        start <= end <= s@.len(),
    ensures
        r == parse_u64(s@.subrange(start as int, end as int)),
{
    let ghost t = s@.subrange(start as int, end as int);
    if start < end && s[start] == '+' {
        assert(t.drop_first() =~= s@.subrange(start + 1, end as int));
        parse_digits(s, start + 1, end, u64::MAX)
    } else {
        parse_digits(s, start, end, u64::MAX)
    }
}

/// Reads `s[start..end]` as Rust reads an `i64`.
pub fn parse_i64_at(s: &[char], start: usize, end: usize) -> (r: Option<i64>)
    requires
        start <= end <= s@.len(),
    ensures
        r == parse_i64(s@.subrange(start as int, end as int)),
{
    let ghost t = s@.subrange(start as int, end as int);
    if start < end && s[start] == '-' {
        assert(t.drop_first() =~= s@.subrange(start + 1, end as int));
        match parse_digits(s, start + 1, end, 0x8000_0000_0000_0000) {
            None => None,
            Some(m) => if m == 0x8000_0000_0000_0000 {
                Some(i64::MIN)
            } else {
                Some(-(m as i64))
            },
        }
    } else if start < end && s[start] == '+' {
        assert(t.drop_first() =~= s@.subrange(start + 1, end as int));
        match parse_digits(s, start + 1, end, i64::MAX as u64) {
            None => None,
            Some(m) => Some(m as i64),
        }
    } else {
        match parse_digits(s, start, end, i64::MAX as u64) {
            None => None,
            Some(m) => Some(m as i64),
        }
    }
}

// ---------------------------------------------------------------------------
// Splitting
// ---------------------------------------------------------------------------

/// The pieces of `s` between occurrences of `sep`, as Rust's `str::split`
/// gives them: one more piece than there are separators.
pub open spec fn split(s: Seq<char>, sep: char) -> Seq<Seq<char>>
    decreases s.len(),
{
    if s.len() == 0 {
        seq![seq![]]
    } else {
        let init = split(s.drop_last(), sep);
        if s.last() == sep {
            init.push(seq![])
        } else {
            init.update(init.len() - 1, init.last().push(s.last()))
        }
    }
}

pub proof fn lemma_split_len(s: Seq<char>, sep: char)
    ensures
        split(s, sep).len() >= 1,
    decreases s.len(),
{
    if s.len() > 0 {
        lemma_split_len(s.drop_last(), sep);
    }
}

/// Text without the separator extends the last piece.
pub proof fn lemma_split_extend(x: Seq<char>, y: Seq<char>, sep: char)
    requires
        !y.contains(sep),
    ensures
        split(x + y, sep) == split(x, sep).update(
            split(x, sep).len() - 1,
            split(x, sep).last() + y,
        ),
    decreases y.len(),
{
    lemma_split_len(x, sep);
    if y.len() == 0 {
        assert(x + y =~= x);
        assert(split(x, sep).last() + y =~= split(x, sep).last());
        assert(split(x, sep).update(split(x, sep).len() - 1, split(x, sep).last())
            =~= split(x, sep));
    } else {
        let y0 = y.drop_last();
        assert(!y0.contains(sep)) by {
            if y0.contains(sep) {
                let k = choose|k: int| 0 <= k < y0.len() && y0[k] == sep;
                assert(y[k] == sep);
            }
        }
        assert(y.last() != sep) by {
            assert(y[y.len() - 1] == y.last());
        }
        lemma_split_extend(x, y0, sep);
        assert((x + y).drop_last() =~= x + y0);
        assert((x + y).last() == y.last());
        lemma_split_len(x + y0, sep);
        let p = split(x, sep);
        let init = split(x + y0, sep);
        assert(init == p.update(p.len() - 1, p.last() + y0));
        assert(init.len() == p.len());
        assert(init.last() == p.last() + y0);
        assert(split(x + y, sep) == init.update(init.len() - 1, init.last().push(y.last())));
        assert(init.last().push(y.last()) =~= p.last() + y);
        assert(split(x + y, sep) =~= p.update(p.len() - 1, p.last() + y));
    }
}

/// A separator closes the last piece and opens an empty one.
pub proof fn lemma_split_sep(x: Seq<char>, sep: char)
    ensures
        split(x.push(sep), sep) == split(x, sep).push(seq![]),
{
    assert(x.push(sep).drop_last() =~= x);
}

/// Splitting text that holds no separator gives the text itself.
pub proof fn lemma_split_none(y: Seq<char>, sep: char)
    requires
        !y.contains(sep),
    ensures
        split(y, sep) == seq![y],
{
    lemma_split_extend(seq![], y, sep);
    assert(seq![] + y =~= y);
    assert(split(Seq::<char>::empty(), sep) == seq![Seq::<char>::empty()]);
    assert(seq![Seq::<char>::empty()].update(0, Seq::<char>::empty() + y) =~= seq![y]);
}

/// Appending a separator and a separator-free piece adds that piece.
pub proof fn lemma_split_push_piece(x: Seq<char>, y: Seq<char>, sep: char)
    requires
        !y.contains(sep),
    ensures
        split(x.push(sep) + y, sep) == split(x, sep).push(y),
{
    lemma_split_sep(x, sep);
    lemma_split_extend(x.push(sep), y, sep);
    let p = split(x, sep);
    assert(p.push(seq![]).update(p.len() as int, Seq::<char>::empty() + y) =~= p.push(y));
}

/// The position of each separator in `s`, in order.
pub fn split_positions(s: &[char], start: usize, end: usize, sep: char) -> (r: Vec<usize>)
    requires
        start <= end <= s@.len(),
    ensures
        r@.len() + 1 == split(s@.subrange(start as int, end as int), sep).len(),
        forall|k: int| 0 <= k < r@.len() ==> start <= #[trigger] r@[k] < end,
        forall|k: int| 0 <= k < r@.len() ==> s@[#[trigger] r@[k] as int] == sep,
        forall|k: int, j: int| 0 <= k < j < r@.len() ==> r@[k] < r@[j],
        forall|k: int|
            0 <= k < split(s@.subrange(start as int, end as int), sep).len() ==> (#[trigger] split(
                s@.subrange(start as int, end as int),
                sep,
            )[k]) == s@.subrange(piece_start(start as int, r@, k), piece_end(end as int, r@, k)),
{
    let mut r: Vec<usize> = Vec::new();
    let mut i: usize = start;
    while i < end
        invariant
            start <= i <= end <= s@.len(),
            r@.len() + 1 == split(s@.subrange(start as int, i as int), sep).len(),
            forall|k: int| 0 <= k < r@.len() ==> start <= #[trigger] r@[k] < i,
            forall|k: int| 0 <= k < r@.len() ==> s@[#[trigger] r@[k] as int] == sep,
            forall|k: int, j: int| 0 <= k < j < r@.len() ==> r@[k] < r@[j],
            forall|k: int|
                0 <= k < split(s@.subrange(start as int, i as int), sep).len() ==> (#[trigger] split(
                    s@.subrange(start as int, i as int),
                    sep,
                )[k]) == s@.subrange(piece_start(start as int, r@, k), piece_end(i as int, r@, k)),
        decreases end - i,
    {
        let ghost old_r = r@;
        let ghost pre = s@.subrange(start as int, i as int);
        let ghost next = s@.subrange(start as int, i + 1);
        assert(next.drop_last() =~= pre);
        assert(next.last() == s@[i as int]);
        if s[i] == sep {
            r.push(i);
            assert forall|k: int|
                0 <= k < split(next, sep).len() implies (#[trigger] split(next, sep)[k])
                == s@.subrange(piece_start(start as int, r@, k), piece_end(i + 1, r@, k)) by {
                if k < old_r.len() {
                    assert(r@[k] == old_r[k]);
                    if k > 0 {
                        assert(r@[k - 1] == old_r[k - 1]);
                    }
                    assert(split(next, sep)[k] == split(pre, sep)[k]);
                } else if k == old_r.len() {
                    if k > 0 {
                        assert(r@[k - 1] == old_r[k - 1]);
                    }
                    assert(split(next, sep)[k] == split(pre, sep)[k]);
                } else {
                    assert(r@[k - 1] == i);
                    assert(s@.subrange(i + 1, i + 1) =~= Seq::<char>::empty());
                }
            }
        } else {
            assert forall|k: int|
                0 <= k < split(next, sep).len() implies (#[trigger] split(next, sep)[k])
                == s@.subrange(piece_start(start as int, r@, k), piece_end(i + 1, r@, k)) by {
                if k < r@.len() {
                    assert(split(next, sep)[k] == split(pre, sep)[k]);
                } else {
                    let a = piece_start(start as int, r@, k);
                    assert(split(pre, sep)[k] == s@.subrange(a, i as int));
                    assert(s@.subrange(a, i as int).push(s@[i as int]) =~= s@.subrange(
                        a,
                        i + 1,
                    ));
                }
            }
        }
        i = i + 1;
    }
    r
}

/// Where piece `k` starts, given the separator positions.
pub open spec fn piece_start(start: int, seps: Seq<usize>, k: int) -> int {
    if k == 0 {
        start
    } else {
        seps[k - 1] + 1
    }
}

/// Where piece `k` ends, given the separator positions.
pub open spec fn piece_end(end: int, seps: Seq<usize>, k: int) -> int {
    if k < seps.len() {
        seps[k] as int
    } else {
        end
    }
}

// ---------------------------------------------------------------------------
// Lines
// ---------------------------------------------------------------------------

/// A line without the carriage return of a `\r\n` ending.
pub open spec fn strip_cr(line: Seq<char>) -> Seq<char> {
    if line.len() > 0 && line.last() == '\r' {
        line.drop_last()
    } else {
        line
    }
}

/// The lines of a text as Rust's `str::lines` gives them: split at `\n`, a
/// `\r` before a `\n` dropped, and no empty line after a final `\n`.
pub open spec fn lines(s: Seq<char>) -> Seq<Seq<char>> {
    let parts = split(s, '\n');
    let full = parts.drop_last().map_values(|p: Seq<char>| strip_cr(p));
    if parts.last().len() == 0 {
        full
    } else {
        full.push(parts.last())
    }
}

/// Each line followed by a line feed.
pub open spec fn terminated(ls: Seq<Seq<char>>) -> Seq<char>
    decreases ls.len(),
{
    if ls.len() == 0 {
        seq![]
    } else {
        terminated(ls.drop_last()) + ls.last().push('\n')
    }
}

/// A line that the line breaking gives back unchanged.
pub open spec fn plain_line(l: Seq<char>) -> bool {
    !l.contains('\n') && !(l.len() > 0 && l.last() == '\r')
}

pub proof fn lemma_split_terminated(ls: Seq<Seq<char>>)
    requires
        forall|i: int| 0 <= i < ls.len() ==> !(#[trigger] ls[i]).contains('\n'),
    ensures
        split(terminated(ls), '\n') == ls.push(seq![]),
    decreases ls.len(),
{
    if ls.len() == 0 {
        assert(split(Seq::<char>::empty(), '\n') =~= seq![Seq::<char>::empty()]);
        assert(ls.push(seq![]) =~= seq![Seq::<char>::empty()]);
    } else {
        let init = ls.drop_last();
        let l = ls.last();
        assert(!l.contains('\n')) by {
            assert(ls[ls.len() - 1] == l);
        }
        lemma_split_terminated(init);
        let t = terminated(init);
        lemma_split_extend(t, l, '\n');
        lemma_split_sep(t + l, '\n');
        assert(terminated(ls) =~= (t + l).push('\n'));
        let p = init.push(Seq::<char>::empty());
        assert(p.update(p.len() - 1, p.last() + l) =~= init.push(l));
        assert(init.push(l) =~= ls);
    }
}

pub proof fn lemma_lines_terminated(ls: Seq<Seq<char>>)
    requires
        forall|i: int| 0 <= i < ls.len() ==> plain_line(#[trigger] ls[i]),
    ensures
        lines(terminated(ls)) == ls,
{
    assert forall|i: int| 0 <= i < ls.len() implies !(#[trigger] ls[i]).contains('\n') by {
        assert(plain_line(ls[i]));
    }
    lemma_split_terminated(ls);
    let parts = ls.push(Seq::<char>::empty());
    assert(parts.drop_last() =~= ls);
    assert(ls.map_values(|p: Seq<char>| strip_cr(p)) =~= ls) by {
        assert forall|i: int| 0 <= i < ls.len() implies strip_cr(ls[i]) == ls[i] by {
            assert(plain_line(ls[i]));
        }
    }
}

pub proof fn lemma_terminated_append(a: Seq<Seq<char>>, b: Seq<Seq<char>>)
    ensures
        terminated(a + b) == terminated(a) + terminated(b),
    decreases b.len(),
{
    if b.len() == 0 {
        assert(a + b =~= a);
        assert(terminated(a) + terminated(b) =~= terminated(a));
    } else {
        lemma_terminated_append(a, b.drop_last());
        assert((a + b).drop_last() =~= a + b.drop_last());
        assert((a + b).last() == b.last());
        assert(terminated(a + b) =~= terminated(a) + terminated(b));
    }
}

/// Breaks `s` into lines; each is given by its start and end.
pub fn line_spans(s: &[char]) -> (r: Vec<(usize, usize)>)
    ensures
        r@.len() == lines(s@).len(),
        forall|k: int|
            0 <= k < r@.len() ==> (#[trigger] r@[k]).0 <= r@[k].1 <= s@.len() && s@.subrange(
                r@[k].0 as int,
                r@[k].1 as int,
            ) == lines(s@)[k],
{
    let seps = split_positions(s, 0, s.len(), '\n');
    let ghost parts = split(s@, '\n');
    assert(s@.subrange(0, s@.len() as int) =~= s@);
    let mut r: Vec<(usize, usize)> = Vec::new();
    let mut k: usize = 0;
    while k < seps.len()
        invariant
            0 <= k <= seps@.len(),
            seps@.len() + 1 == parts.len(),
            parts == split(s@, '\n'),
            forall|j: int| 0 <= j < seps@.len() ==> 0 <= #[trigger] seps@[j] < s@.len(),
            forall|j: int| 0 <= j < seps@.len() ==> s@[#[trigger] seps@[j] as int] == '\n',
            forall|a: int, b: int| 0 <= a < b < seps@.len() ==> seps@[a] < seps@[b],
            forall|j: int|
                0 <= j < parts.len() ==> (#[trigger] parts[j]) == s@.subrange(
                    piece_start(0, seps@, j),
                    piece_end(s@.len() as int, seps@, j),
                ),
            s@.len() <= usize::MAX,
            r@.len() == k,
            forall|j: int|
                0 <= j < k ==> (#[trigger] r@[j]).0 <= r@[j].1 <= s@.len() && s@.subrange(
                    r@[j].0 as int,
                    r@[j].1 as int,
                ) == strip_cr(parts[j]),
        decreases seps@.len() - k,
    {
        let a: usize = if k == 0 {
            0
        } else {
            seps[k - 1] + 1
        };
        let b: usize = seps[k];
        assert(parts[k as int] == s@.subrange(a as int, b as int));
        if k > 0 {
            assert(seps@[k - 1] < seps@[k as int]);
        }
        let e: usize = if a < b && s[b - 1] == '\r' {
            b - 1
        } else {
            b
        };
        proof {
            let p = s@.subrange(a as int, b as int);
            if a < b && s@[b - 1] == '\r' {
                assert(p.last() == s@[b - 1]);
                assert(p.drop_last() =~= s@.subrange(a as int, e as int));
            }
        }
        r.push((a, e));
        k = k + 1;
    }
    let last_start: usize = if seps.len() == 0 {
        0
    } else {
        seps[seps.len() - 1] + 1
    };
    assert(parts.last() == s@.subrange(last_start as int, s@.len() as int));
    if last_start < s.len() {
        r.push((last_start, s.len()));
    }
    assert(r@.len() == lines(s@).len());
    assert forall|j: int| 0 <= j < r@.len() implies (#[trigger] r@[j]).0 <= r@[j].1 <= s@.len()
        && s@.subrange(r@[j].0 as int, r@[j].1 as int) == lines(s@)[j] by {
        if j < seps@.len() {
            assert(lines(s@)[j] == parts.drop_last().map_values(|p: Seq<char>| strip_cr(p))[j]);
        }
    }
    r
}

// ---------------------------------------------------------------------------
// Quoted values
// ---------------------------------------------------------------------------

/// A value wrapped in double quotes, and the text between them.
pub open spec fn unquote(s: Seq<char>) -> Option<Seq<char>> {
    if s.len() >= 2 && s[0] == '"' && s.last() == '"' {
        Some(s.subrange(1, s.len() - 1))
    } else {
        None
    }
}

/// A text wrapped in double quotes.
pub open spec fn quote(s: Seq<char>) -> Seq<char> {
    seq!['"'] + s + seq!['"']
}

pub proof fn lemma_unquote_quote(s: Seq<char>)
    ensures
        unquote(quote(s)) == Some(s),
{
    let q = quote(s);
    assert(q.subrange(1, q.len() - 1) =~= s);
    assert(q.last() == '"');
}

/// The text `s[start..end]` as a `String`.
pub fn collect_string(s: &[char], start: usize, end: usize) -> (r: String)
    requires
        start <= end <= s@.len(),
    ensures
        r@ == s@.subrange(start as int, end as int),
{
    let mut r = String::new();
    let mut i: usize = start;
    while i < end
        invariant
            start <= i <= end <= s@.len(),
            r@ == s@.subrange(start as int, i as int),
        decreases end - i,
    {
        push_char(&mut r, s[i]);
        assert(s@.subrange(start as int, i + 1) =~= s@.subrange(start as int, i as int).push(
            s@[i as int],
        ));
        i = i + 1;
    }
    r
}

/// The text between the quotes of `s[start..end]`, where it is quoted.
pub fn unquote_at(s: &[char], start: usize, end: usize) -> (r: Option<String>)
    requires
        start <= end <= s@.len(),
    ensures
        match unquote(s@.subrange(start as int, end as int)) {
            Some(t) => r matches Some(v) && v@ == t,
            None => r is None,
        },
{
    let ghost t = s@.subrange(start as int, end as int);
    if end - start >= 2 && s[start] == '"' && s[end - 1] == '"' {
        assert(t.last() == s@[end - 1]);
        let v = collect_string(s, start + 1, end - 1);
        assert(t.subrange(1, t.len() - 1) =~= s@.subrange(start + 1, end - 1));
        Some(v)
    } else {
        proof {
            if t.len() >= 2 {
                assert(t[0] == s@[start as int]);
                assert(t.last() == s@[end - 1]);
            }
        }
        None
    }
}

/// The description that `value` holds between the double quotes wrapping
/// it; an error where it is not wrapped so.
pub fn description_trim(value: &str) -> (r: Result<String, ()>)
    ensures
        match unquote(value@) {
            Some(t) => r matches Ok(s) && s@ == t,
            None => r is Err,
        },
{
    let cs = text_chars(value);
    assert(cs@.subrange(0, cs@.len() as int) =~= cs@);
    match unquote_at(cs.as_slice(), 0, cs.len()) {
        Some(s) => Ok(s),
        None => Err(()),
    }
}

/// The characters of a text.
pub fn text_chars(s: &str) -> (r: Vec<char>)
    ensures
        r@ == s@,
{
    let mut v: Vec<char> = Vec::new();
    for c in it: s.chars()
        invariant
            it.seq() == s@,
            v@ == s@.subrange(0, it.index() as int),
    {
        v.push(c);
    }
    assert(v@ =~= s@);
    v
}

/// Relies on `std::str::from_utf8`: it succeeds exactly on valid UTF-8, and
/// the text then holds the characters that the bytes encode.
#[verifier::external_body]
pub(crate) fn utf8_text(b: &[u8]) -> (r: Option<&str>)
    ensures
        r is Some <==> valid_utf8(b@),
        r matches Some(s) ==> s@ == decode_utf8(b@),
{
    std::str::from_utf8(b).ok()
}

/// Appends each byte of `b`.
pub fn push_bytes(out: &mut Vec<u8>, b: &[u8])
    ensures
        final(out)@ == old(out)@ + b@,
{
    let mut i: usize = 0;
    while i < b.len()
        invariant
            0 <= i <= b@.len(),
            out@ == old(out)@ + b@.subrange(0, i as int),
        decreases b@.len() - i,
    {
        out.push(b[i]);
        assert(b@.subrange(0, i + 1) =~= b@.subrange(0, i as int).push(b@[i as int]));
        i = i + 1;
    }
    assert(b@.subrange(0, i as int) =~= b@);
}

/// The UTF-8 encoding of a text, appended.
pub fn push_text(out: &mut Vec<u8>, s: &String)
    ensures
        final(out)@ == old(out)@ + encode_utf8(s@),
{
    push_bytes(out, s.as_str().as_bytes());
}

} // verus!
