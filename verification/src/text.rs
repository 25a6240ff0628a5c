//! Text utilities: decimal numbers, line splitting, token scanning.
//!
//! The spec side speaks about sequences of characters; the exec side
//! works on `&str` through the character view that vstd gives it.

use vstd::prelude::*;
use vstd::string::StrSliceExecFns;
use vstd::string::StringExecFns;

verus! {

pub open spec fn is_digit(c: char) -> bool {
    48 <= c as u32 <= 57
}

pub open spec fn digit_val(c: char) -> int {
    c as u32 - 48
}

pub open spec fn char_of_digit(n: int) -> char {
    if n == 0 { '0' }
    else if n == 1 { '1' }
    else if n == 2 { '2' }
    else if n == 3 { '3' }
    else if n == 4 { '4' }
    else if n == 5 { '5' }
    else if n == 6 { '6' }
    else if n == 7 { '7' }
    else if n == 8 { '8' }
    else { '9' }
}

pub open spec fn all_digits(s: Seq<char>) -> bool {
    forall|i: int| 0 <= i < s.len() ==> is_digit(#[trigger] s[i])
}

/// The number that a sequence of decimal digits denotes.
pub open spec fn dec_val(s: Seq<char>) -> int
    decreases s.len(),
{
    if s.len() == 0 {
        0
    } else {
        dec_val(s.drop_last()) * 10 + digit_val(s.last())
    }
}

/// The canonical decimal rendering of a non-negative number.
pub open spec fn spec_u32_string(n: int) -> Seq<char>
    decreases n,
{
    if n < 10 {
        seq![char_of_digit(n)]
    } else {
        spec_u32_string(n / 10).push(char_of_digit(n % 10))
    }
}

pub fn exec_char_of_digit(n: u32) -> (c: char)
    requires
        n < 10,
    ensures
        c == char_of_digit(n as int),
{
    match n {
        0 => '0',
        1 => '1',
        2 => '2',
        3 => '3',
        4 => '4',
        5 => '5',
        6 => '6',
        7 => '7',
        8 => '8',
        _ => '9',
    }
}

fn exec_is_digit(c: char) -> (r: bool)
    ensures
        r == is_digit(c),
{
    let n = c as u32;
    48 <= n && n <= 57
}

/// Appends the decimal rendering of `n` to `v`.
pub fn push_u32_chars(v: &mut Vec<char>, n: u32)
    ensures
        final(v)@ == old(v)@ + spec_u32_string(n as int),
    decreases n,
{
    if n < 10 {
        v.push(exec_char_of_digit(n));
    } else {
        push_u32_chars(v, n / 10);
        v.push(exec_char_of_digit(n % 10));
    }
}

/// Appends the decimal rendering of `n` to `v`.
pub fn push_dec_chars(v: &mut Vec<char>, n: u128)
    ensures
        final(v)@ == old(v)@ + spec_u32_string(n as int),
    decreases n,
{
    if n < 10 {
        v.push(exec_char_of_digit((n % 10) as u32));
    } else {
        push_dec_chars(v, n / 10);
        v.push(exec_char_of_digit((n % 10) as u32));
    }
}

/// The canonical rendering is made of digits and reads back as `n`.
pub proof fn lemma_u32_string_val(n: int)
    requires
        n >= 0,
    ensures
        all_digits(spec_u32_string(n)),
        dec_val(spec_u32_string(n)) == n,
        spec_u32_string(n).len() >= 1,
    decreases n,
{
    if n < 10 {
        assert(spec_u32_string(n) =~= seq![char_of_digit(n)]);
        let s1 = seq![char_of_digit(n)];
        assert(s1.drop_last() =~= Seq::<char>::empty());
        assert(dec_val(Seq::<char>::empty()) == 0);
        assert(dec_val(s1) == digit_val(char_of_digit(n)));
    } else {
        lemma_u32_string_val(n / 10);
        let pre = spec_u32_string(n / 10);
        let s = pre.push(char_of_digit(n % 10));
        assert(s.drop_last() =~= pre);
        assert(s.last() == char_of_digit(n % 10));
        assert(dec_val(s) == n / 10 * 10 + n % 10);
    }
}

pub proof fn lemma_dec_val_nonneg(s: Seq<char>)
    requires
        all_digits(s),
    ensures
        dec_val(s) >= 0,
    decreases s.len(),
{
    if s.len() > 0 {
        assert(all_digits(s.drop_last()));
        lemma_dec_val_nonneg(s.drop_last());
    }
}

/// A digit string is worth at least any of its prefixes.
pub proof fn lemma_dec_val_prefix(s: Seq<char>, i: int)
    requires
        all_digits(s),
        0 <= i <= s.len(),
    ensures
        dec_val(s.subrange(0, i)) <= dec_val(s),
    decreases s.len() - i,
{
    if i < s.len() {
        lemma_dec_val_prefix(s, i + 1);
        let a = s.subrange(0, i);
        let b = s.subrange(0, i + 1);
        assert(b.drop_last() =~= a);
        assert(all_digits(a));
        lemma_dec_val_nonneg(a);
        assert(dec_val(b) == dec_val(a) * 10 + digit_val(b.last()));
    } else {
        assert(s.subrange(0, i) =~= s);
    }
}

/// What a run of decimal digits parses to: the value, if the run is
/// non-empty, all digits, and within `u32`.
pub open spec fn spec_parse_u32(s: Seq<char>) -> Option<u32> {
    if s.len() >= 1 && all_digits(s) && dec_val(s) <= u32::MAX {
        Some(dec_val(s) as u32)
    } else {
        None
    }
}

/// Parses `s[from..to]` as an unsigned decimal number.
pub fn parse_u32_range(s: &str, from: usize, to: usize) -> (r: Option<u32>)
    requires
        from <= to <= s@.len(),
    ensures
        r == spec_parse_u32(s@.subrange(from as int, to as int)),
{
    let ghost t = s@.subrange(from as int, to as int);
    if from == to {
        return None;
    }
    let mut acc: u64 = 0;
    let mut i: usize = from;
    while i < to
        invariant
            from <= i <= to <= s@.len(),
            t == s@.subrange(from as int, to as int),
            t.len() == to - from,
            all_digits(t.subrange(0, i - from)),
            acc == dec_val(t.subrange(0, i - from)),
            acc <= u32::MAX,
        decreases to - i,
    {
        let c = s.get_char(i);
        assert(c == t[i - from]);
        if !exec_is_digit(c) {
            assert(!all_digits(t));
            return None;
        }
        let d = (c as u32) - 48;
        let ghost pre = t.subrange(0, i - from);
        let ghost cur = t.subrange(0, i + 1 - from);
        assert(cur.drop_last() =~= pre);
        assert(cur.last() == c);
        acc = acc * 10 + (d as u64);
        if acc > u32::MAX as u64 {
            assert(dec_val(cur) > u32::MAX);
            proof {
                if all_digits(t) {
                    lemma_dec_val_prefix(t, i + 1 - from);
                }
            }
            return None;
        }
        i = i + 1;
    }
    assert(t.subrange(0, to - from) =~= t);
    Some(acc as u32)
}

/// First occurrence of `c` in `s[from..to]`.
pub fn find_char(s: &str, from: usize, to: usize, c: char) -> (r: Option<usize>)
    requires
        from <= to <= s@.len(),
    ensures
        match r {
            Some(i) => from <= i < to && s@[i as int] == c && forall|j: int|
                from <= j < i ==> s@[j] != c,
            None => forall|j: int| from <= j < to ==> s@[j] != c,
        },
{
    let mut i: usize = from;
    while i < to
        invariant
            from <= i <= to <= s@.len(),
            forall|j: int| from <= j < i ==> s@[j] != c,
        decreases to - i,
    {
        if s.get_char(i) == c {
            return Some(i);
        }
        i = i + 1;
    }
    None
}

/// Splitting text into lines at every newline character. The result
/// always has one more line than there are newlines; text that ends in
/// a newline therefore ends in an empty line.
pub open spec fn spec_lines(s: Seq<char>) -> Seq<Seq<char>>
    decreases s.len(),
{
    if s.len() == 0 {
        seq![Seq::<char>::empty()]
    } else if s[0] == '\n' {
        seq![Seq::<char>::empty()] + spec_lines(s.drop_first())
    } else {
        let rest = spec_lines(s.drop_first());
        seq![seq![s[0]] + rest[0]] + rest.drop_first()
    }
}

pub proof fn lemma_lines_len(s: Seq<char>)
    ensures
        spec_lines(s).len() >= 1,
    decreases s.len(),
{
    if s.len() > 0 {
        lemma_lines_len(s.drop_first());
    }
}

/// A chunk without newlines followed by a newline is one whole line.
pub proof fn lemma_lines_head(s: Seq<char>, i: int)
    requires
        0 <= i < s.len(),
        s[i] == '\n',
        forall|j: int| 0 <= j < i ==> s[j] != '\n',
    ensures
        spec_lines(s) == seq![s.subrange(0, i)] + spec_lines(s.subrange(i + 1, s.len() as int)),
    decreases i,
{
    lemma_lines_len(s.drop_first());
    if i == 0 {
        assert(s.subrange(0, 0) =~~= Seq::<char>::empty());
        assert(s.subrange(1, s.len() as int) =~~= s.drop_first());
        assert(spec_lines(s) =~~= seq![s.subrange(0, 0)] + spec_lines(
            s.subrange(1, s.len() as int),
        ));
    } else {
        let d = s.drop_first();
        lemma_lines_head(d, i - 1);
        assert(d.subrange(0, i - 1) =~~= s.subrange(1, i));
        assert(d.subrange(i, d.len() as int) =~~= s.subrange(i + 1, s.len() as int));
        let rest = spec_lines(d);
        assert(rest == seq![s.subrange(1, i)] + spec_lines(s.subrange(i + 1, s.len() as int)));
        assert(rest[0] == s.subrange(1, i));
        assert(seq![s[0]] + rest[0] =~~= s.subrange(0, i));
        assert(rest.drop_first() =~~= spec_lines(s.subrange(i + 1, s.len() as int)));
        assert(spec_lines(s) =~~= seq![s.subrange(0, i)] + spec_lines(
            s.subrange(i + 1, s.len() as int),
        ));
    }
}

/// Text without any newline is a single line.
pub proof fn lemma_lines_single(s: Seq<char>)
    requires
        forall|j: int| 0 <= j < s.len() ==> s[j] != '\n',
    ensures
        spec_lines(s) == seq![s],
    decreases s.len(),
{
    if s.len() == 0 {
        assert(spec_lines(s) =~~= seq![s]);
    } else {
        lemma_lines_single(s.drop_first());
        let rest = spec_lines(s.drop_first());
        assert(rest[0] == s.drop_first());
        assert(seq![s[0]] + rest[0] =~~= s);
        assert(rest.drop_first() =~~= Seq::<Seq<char>>::empty());
        assert(spec_lines(s) =~~= seq![s]);
    }
}

/// Lines of a concatenation, when the first part ends in a newline.
pub proof fn lemma_lines_concat(a: Seq<char>, b: Seq<char>)
    requires
        a.len() >= 1,
        a.last() == '\n',
    ensures
        spec_lines(a + b) == spec_lines(a).drop_last() + spec_lines(b),
    decreases a.len(),
{
    lemma_lines_len(b);
    if a.len() == 1 {
        assert(a.drop_first() =~~= Seq::<char>::empty());
        assert(spec_lines(Seq::<char>::empty()) =~~= seq![Seq::<char>::empty()]);
        assert((a + b).drop_first() =~~= b);
        assert(spec_lines(a + b) =~~= seq![Seq::<char>::empty()] + spec_lines(b));
        assert(a.drop_first() =~~= Seq::<char>::empty());
        assert(spec_lines(a) =~~= seq![Seq::<char>::empty(), Seq::<char>::empty()]);
        assert(spec_lines(a).drop_last() =~~= seq![Seq::<char>::empty()]);
    } else {
        let ad = a.drop_first();
        lemma_lines_concat(ad, b);
        lemma_lines_len(ad);
        assert((a + b).drop_first() =~~= ad + b);
        if a[0] == '\n' {
            assert(spec_lines(a + b) =~~= seq![Seq::<char>::empty()] + spec_lines(ad + b));
            assert(spec_lines(a) =~~= seq![Seq::<char>::empty()] + spec_lines(ad));
            assert(spec_lines(a).drop_last() =~~= seq![Seq::<char>::empty()] + spec_lines(
                ad,
            ).drop_last());
            assert(spec_lines(a + b) =~~= spec_lines(a).drop_last() + spec_lines(b));
        } else {
            let rest = spec_lines(ad + b);
            let resta = spec_lines(ad);
            assert(rest == resta.drop_last() + spec_lines(b));
            assert(resta.len() >= 2) by {
                lemma_lines_last(ad);
            }
            assert(rest[0] == resta[0]);
            assert(spec_lines(a + b) =~~= seq![seq![a[0]] + rest[0]] + rest.drop_first());
            assert(spec_lines(a) =~~= seq![seq![a[0]] + resta[0]] + resta.drop_first());
            assert(spec_lines(a).drop_last() =~~= seq![seq![a[0]] + resta[0]]
                + resta.drop_first().drop_last());
            assert(resta.drop_first().drop_last() =~~= resta.drop_last().drop_first());
            assert(rest.drop_first() =~~= resta.drop_last().drop_first() + spec_lines(b));
            assert(spec_lines(a + b) =~~= spec_lines(a).drop_last() + spec_lines(b));
        }
    }
}

/// Text that ends in a newline ends in an empty last line.
pub proof fn lemma_lines_last(s: Seq<char>)
    requires
        s.len() >= 1,
        s.last() == '\n',
    ensures
        spec_lines(s).len() >= 2,
        spec_lines(s).last() == Seq::<char>::empty(),
    decreases s.len(),
{
    if s.len() == 1 {
        assert(s.drop_first() =~~= Seq::<char>::empty());
        assert(spec_lines(Seq::<char>::empty()) =~~= seq![Seq::<char>::empty()]);
        assert(spec_lines(s) =~~= seq![Seq::<char>::empty(), Seq::<char>::empty()]);
    } else {
        let d = s.drop_first();
        assert(d.last() == s.last());
        lemma_lines_last(d);
        let rest = spec_lines(d);
        if s[0] == '\n' {
            assert(spec_lines(s) =~~= seq![Seq::<char>::empty()] + rest);
            assert(spec_lines(s).last() == rest.last());
        } else {
            assert(spec_lines(s) =~~= seq![seq![s[0]] + rest[0]] + rest.drop_first());
            assert(spec_lines(s).last() == rest.last());
        }
    }
}

/// Splits `s` into its lines.
pub fn split_lines(s: &str) -> (r: Vec<String>)
    ensures
        r@.len() == spec_lines(s@).len(),
        forall|i: int| 0 <= i < r@.len() ==> #[trigger] r@[i]@ == spec_lines(s@)[i],
{
    let n = s.unicode_len();
    proof {
        assert(s@.subrange(0, n as int) =~= s@);
    }
    let mut out: Vec<String> = Vec::new();
    let mut start: usize = 0;
    let mut i: usize = 0;
    while i < n
        invariant
            start <= i <= n == s@.len(),
            forall|j: int| start <= j < i ==> s@[j] != '\n',
            spec_lines(s@).len() == out@.len() + spec_lines(
                s@.subrange(start as int, n as int),
            ).len(),
            forall|k: int| 0 <= k < out@.len() ==> #[trigger] out@[k]@ == spec_lines(s@)[k],
            forall|k: int| out@.len() <= k < spec_lines(s@).len() ==> #[trigger] spec_lines(
                s@,
            )[k] == spec_lines(s@.subrange(start as int, n as int))[k - out@.len()],
        decreases n - i,
    {
        if s.get_char(i) == '\n' {
            let line = s.substring_char(start, i).to_owned();
            proof {
                let rem = s@.subrange(start as int, n as int);
                lemma_lines_head(rem, i - start);
                assert(rem.subrange(0, i - start) =~= s@.subrange(start as int, i as int));
                assert(rem.subrange(i - start + 1, rem.len() as int) =~= s@.subrange(
                    i + 1,
                    n as int,
                ));
            }
            out.push(line);
            start = i + 1;
        }
        i = i + 1;
    }
    let line = s.substring_char(start, n).to_owned();
    proof {
        lemma_lines_single(s@.subrange(start as int, n as int));
    }
    out.push(line);
    out
}

/// Builds a `String` from a sequence of characters.
pub fn string_of_chars(v: &Vec<char>) -> (r: String)
    ensures
        r@ == v@,
{
    let mut out = String::new();
    let mut i: usize = 0;
    while i < v.len()
        invariant
            i <= v@.len(),
            out@ == v@.subrange(0, i as int),
        decreases v@.len() - i,
    {
        out = push_char(out, v[i]);
        assert(out@ =~= v@.subrange(0, i + 1));
        i = i + 1;
    }
    assert(v@.subrange(0, v@.len() as int) =~= v@);
    out
}

/// Relies on `String::push`: appending one character to a string
/// appends exactly that character to its contents.
#[verifier::external_body]
fn push_char(s: String, c: char) -> (r: String)
    ensures
        r@ == s@.push(c),
{
    let mut s = s;
    s.push(c);
    s
}

} // verus!
