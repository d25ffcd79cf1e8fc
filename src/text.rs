//! The textual curve format: `<degrees>c:<percent>%` tokens separated by commas.
use vstd::prelude::*;

verus! {

/// Whether `c` is white space (the Unicode `White_Space` set), which may
/// surround a token.
pub open spec fn is_space(c: char) -> bool {
    let u = c as u32;
    u == 0x20 || (0x09 <= u && u <= 0x0d) || u == 0x85 || u == 0xa0 || u == 0x1680 || (0x2000
        <= u && u <= 0x200a) || u == 0x2028 || u == 0x2029 || u == 0x202f || u == 0x205f || u
        == 0x3000
}

/// Whether `c` is an ASCII decimal digit.
pub open spec fn is_digit(c: char) -> bool {
    0x30 <= (c as u32) && (c as u32) <= 0x39
}

/// The value of an ASCII digit.
pub open spec fn digit_value(c: char) -> nat {
    ((c as u32) - 0x30) as nat
}

/// The ASCII digit for a value below ten.
pub open spec fn digit_char(d: nat) -> char {
    if d == 0 {
        '0'
    } else if d == 1 {
        '1'
    } else if d == 2 {
        '2'
    } else if d == 3 {
        '3'
    } else if d == 4 {
        '4'
    } else if d == 5 {
        '5'
    } else if d == 6 {
        '6'
    } else if d == 7 {
        '7'
    } else if d == 8 {
        '8'
    } else {
        '9'
    }
}

/// The decimal notation of `n`, without leading zeros.
pub open spec fn decimal(n: nat) -> Seq<char>
    decreases n,
{
    if n < 10 {
        seq![digit_char(n)]
    } else {
        decimal(n / 10).push(digit_char(n % 10))
    }
}

/// The number that a sequence of ASCII digits denotes.
pub open spec fn digits_value(s: Seq<char>) -> nat
    decreases s.len(),
{
    if s.len() == 0 {
        0
    } else {
        digits_value(s.drop_last()) * 10 + digit_value(s.last())
    }
}

/// The index of the first character of `t` at or after `i` that is not white space.
pub open spec fn skip_spaces(t: Seq<char>, i: int) -> int
    decreases t.len() - i,
{
    if 0 <= i < t.len() && is_space(t[i]) {
        skip_spaces(t, i + 1)
    } else {
        i
    }
}

/// The end of `t[lo..hi]` once trailing white space is left out.
pub open spec fn trim_end(t: Seq<char>, lo: int, hi: int) -> int
    decreases hi - lo,
{
    if lo < hi && is_space(t[hi - 1]) {
        trim_end(t, lo, hi - 1)
    } else {
        hi
    }
}

/// The end of the run of ASCII digits of `t` that starts at `i` and stays below `hi`.
pub open spec fn digits_end(t: Seq<char>, i: int, hi: int) -> int
    decreases hi - i,
{
    if 0 <= i < hi && is_digit(t[i]) {
        digits_end(t, i + 1, hi)
    } else {
        i
    }
}

/// The (degrees, percent) pair that a token denotes: `<digits>c:<digits>%`
/// with one to three ASCII digits in each number, each number at most 255,
/// and optional white space around the whole; `None` for any other token.
pub open spec fn token_entry(t: Seq<char>) -> Option<(u8, u8)> {
    let lo = skip_spaces(t, 0);
    let hi = trim_end(t, lo, t.len() as int);
    let a = digits_end(t, lo, hi);
    let b = digits_end(t, a + 2, hi);
    let degrees = digits_value(t.subrange(lo, a));
    let percent = digits_value(t.subrange(a + 2, b));
    if 1 <= a - lo <= 3 && a + 2 <= hi && t[a] == 'c' && t[a + 1] == ':' && 1 <= b - (a + 2)
        <= 3 && b + 1 == hi && t[b] == '%' && degrees <= 255 && percent <= 255 {
        Some((degrees as u8, percent as u8))
    } else {
        None
    }
}

/// The pieces of `s` between commas, as `str::split(",")` yields them: one
/// more piece than there are commas, empty ones included.
pub open spec fn split_commas(s: Seq<char>) -> Seq<Seq<char>>
    decreases s.len(),
{
    if s.len() == 0 {
        seq![Seq::empty()]
    } else {
        let pieces = split_commas(s.drop_last());
        if s.last() == ',' {
            pieces.push(Seq::empty())
        } else {
            pieces.update(pieces.len() - 1, pieces.last().push(s.last()))
        }
    }
}

/// The text of one entry, as it is written out.
pub open spec fn entry_text(degrees: u8, percent: u8) -> Seq<char> {
    decimal(degrees as nat) + seq!['c', ':'] + decimal(percent as nat) + seq!['%']
}

/// The text of the first `n` entries of a raw table (eight degrees bytes, then
/// eight percent bytes), comma separated.
pub open spec fn entries_text(raw: Seq<u8>, n: nat) -> Seq<char>
    decreases n,
{
    if n <= 1 {
        entry_text(raw[0], raw[8])
    } else {
        entries_text(raw, (n - 1) as nat) + seq![','] + entry_text(raw[n - 1], raw[n + 7 as int])
    }
}

/// What the text of a whole curve comes to.
pub enum CurveText {
    /// Every token parsed: the raw table (eight degrees bytes, then eight
    /// percent bytes) with the tokens written in order into a zeroed table.
    Parsed(Seq<u8>),
    /// There are more than eight tokens, and the first eight parse.
    TooMany,
    /// This token, the first among the first eight that does not parse.
    Unparsable(Seq<char>),
}

/// The index of the first token at or after `k` among the first eight that
/// does not parse; the number of tokens checked where all of them parse.
pub open spec fn first_unparsable(tokens: Seq<Seq<char>>, k: nat) -> nat
    decreases 8 - k,
{
    if k >= 8 || k >= tokens.len() {
        k
    } else if token_entry(tokens[k as int]) is None {
        k
    } else {
        first_unparsable(tokens, k + 1)
    }
}

/// A zeroed raw table with the first `n` tokens written into it.
pub open spec fn tokens_raw(tokens: Seq<Seq<char>>, n: nat) -> Seq<u8>
    decreases n,
{
    if n == 0 {
        Seq::new(16, |j: int| 0u8)
    } else {
        let e = token_entry(tokens[n - 1]).unwrap();
        tokens_raw(tokens, (n - 1) as nat).update(n - 1, e.0).update(n + 7 as int, e.1)
    }
}

/// What the text of a curve denotes.
pub open spec fn parse_curve_text(s: Seq<char>) -> CurveText {
    let tokens = split_commas(s);
    let k = first_unparsable(tokens, 0);
    if k < tokens.len() && k < 8 {
        CurveText::Unparsable(tokens[k as int])
    } else if tokens.len() > 8 {
        CurveText::TooMany
    } else {
        CurveText::Parsed(tokens_raw(tokens, tokens.len()))
    }
}

/// Whether every character of `s` is white space.
pub open spec fn is_blank(s: Seq<char>) -> bool {
    forall|i: int| 0 <= i < s.len() ==> is_space(#[trigger] s[i])
}

pub fn is_space_char(c: char) -> (r: bool)
    ensures
        r == is_space(c),
{
    let u = c as u32;
    u == 0x20 || (0x09 <= u && u <= 0x0d) || u == 0x85 || u == 0xa0 || u == 0x1680 || (0x2000
        <= u && u <= 0x200a) || u == 0x2028 || u == 0x2029 || u == 0x202f || u == 0x205f || u
        == 0x3000
}

fn is_digit_char(c: char) -> (r: bool)
    ensures
        r == is_digit(c),
{
    let u = c as u32;
    0x30 <= u && u <= 0x39
}

/// Relies on `String::push`: appends one character.
#[verifier::external_body]
pub(crate) fn push_char(s: &mut String, c: char)
    ensures
        final(s)@ == old(s)@.push(c),
{
    s.push(c)
}

/// Appends the characters of `t` to `s`.
pub(crate) fn push_chars(s: &mut String, t: &Vec<char>)
    ensures
        final(s)@ == old(s)@ + t@,
{
    let ghost start = s@;
    let mut i: usize = 0;
    while i < t.len()
        invariant
            i <= t@.len(),
            s@ == start + t@.subrange(0, i as int),
        decreases t.len() - i,
    {
        push_char(s, t[i]);
        i += 1;
        assert(t@.subrange(0, i as int) == t@.subrange(0, i - 1).push(t@[i - 1]));
    }
    assert(t@.subrange(0, i as int) == t@);
}

fn digit_to_char(d: u8) -> (r: char)
    requires
        d < 10,
    ensures
        r == digit_char(d as nat),
{
    match d {
        0 => '0',
        1 => '1',
        2 => '2',
        3 => '3',
        4 => '4',
        5 => '5',
        6 => '6',
        7 => '7',
        8 => '8',
        _ => '9',
    }
}

/// Appends the decimal notation of `n` to `s`.
pub fn push_decimal(s: &mut String, n: u8)
    ensures
        final(s)@ == old(s)@ + decimal(n as nat),
    decreases n,
{
    let ghost start = s@;
    if n >= 10 {
        push_decimal(s, n / 10);
    }
    push_char(s, digit_to_char(n % 10));
    if n >= 10 {
        assert(s@ == start + decimal(n as nat));
    } else {
        assert(s@ == start + decimal(n as nat));
    }
}

/// The end of the run of ASCII digits of `t` that starts at `i` and stays below `hi`.
fn digits_end_at(t: &Vec<char>, i: usize, hi: usize) -> (r: usize)
    requires
        i <= hi <= t@.len(),
    ensures
        r as int == digits_end(t@, i as int, hi as int),
        i <= r <= hi,
        forall|k: int| i <= k < r ==> is_digit(#[trigger] t@[k]),
{
    let mut j = i;
    while j < hi && is_digit_char(t[j])
        invariant
            i <= j <= hi,
            hi <= t@.len(),
            digits_end(t@, j as int, hi as int) == digits_end(t@, i as int, hi as int),
            forall|k: int| i <= k < j ==> is_digit(#[trigger] t@[k]),
        decreases hi - j,
    {
        j += 1;
    }
    j
}

/// The number that the ASCII digits `t[lo..hi]` denote.
fn digits_number(t: &Vec<char>, lo: usize, hi: usize) -> (r: u32)
    requires
        lo <= hi <= t@.len(),
        hi - lo <= 3,
        forall|k: int| lo <= k < hi ==> is_digit(#[trigger] t@[k]),
    ensures
        r as nat == digits_value(t@.subrange(lo as int, hi as int)),
{
    let mut v: u32 = 0;
    let mut i = lo;
    while i < hi
        invariant
            lo <= i <= hi,
            hi <= t@.len(),
            hi - lo <= 3,
            forall|k: int| lo <= k < hi ==> is_digit(#[trigger] t@[k]),
            v as nat == digits_value(t@.subrange(lo as int, i as int)),
            i - lo == 0 ==> v == 0,
            i - lo == 1 ==> v <= 9,
            i - lo == 2 ==> v <= 99,
            i - lo == 3 ==> v <= 999,
        decreases hi - i,
    {
        assert(t@.subrange(lo as int, i + 1).drop_last() == t@.subrange(lo as int, i as int));
        assert(is_digit(t@[i as int]));
        v = v * 10 + (t[i] as u32 - 0x30);
        i += 1;
    }
    v
}

/// Parses one token of the curve format.
pub fn parse_token(t: &Vec<char>) -> (r: Option<(u8, u8)>)
    ensures
        r == token_entry(t@),
{
    let n = t.len();
    let mut lo: usize = 0;
    while lo < n && is_space_char(t[lo])
        invariant
            lo <= n,
            n == t@.len(),
            skip_spaces(t@, lo as int) == skip_spaces(t@, 0),
        decreases n - lo,
    {
        lo += 1;
    }
    let mut hi: usize = n;
    while hi > lo && is_space_char(t[hi - 1])
        invariant
            lo <= hi <= n,
            n == t@.len(),
            trim_end(t@, lo as int, hi as int) == trim_end(t@, lo as int, n as int),
        decreases hi,
    {
        hi -= 1;
    }
    let a = digits_end_at(t, lo, hi);
    if a - lo < 1 || a - lo > 3 || hi - a < 2 || t[a] != 'c' || t[a + 1] != ':' {
        return None;
    }
    let b = digits_end_at(t, a + 2, hi);
    if b - (a + 2) < 1 || b - (a + 2) > 3 || hi - b != 1 || t[b] != '%' {
        return None;
    }
    let degrees = digits_number(t, lo, a);
    let percent = digits_number(t, a + 2, b);
    if degrees > 255 || percent > 255 {
        return None;
    }
    Some((degrees as u8, percent as u8))
}

proof fn lemma_digit_char(d: nat)
    requires
        d < 10,
    ensures
        is_digit(digit_char(d)),
        digit_value(digit_char(d)) == d,
{
}

/// The decimal notation of `n` is made of digits and denotes `n`; below 1000
/// it has one to three digits.
pub proof fn lemma_decimal(n: nat)
    ensures
        decimal(n).len() >= 1,
        forall|k: int| 0 <= k < decimal(n).len() ==> is_digit(#[trigger] decimal(n)[k]),
        digits_value(decimal(n)) == n,
        n < 10 ==> decimal(n).len() == 1,
        n < 100 ==> decimal(n).len() <= 2,
        n < 1000 ==> decimal(n).len() <= 3,
    decreases n,
{
    if n < 10 {
        lemma_digit_char(n);
        assert(decimal(n).drop_last() == Seq::<char>::empty());
        assert(digits_value(Seq::<char>::empty()) == 0);
    } else {
        lemma_decimal(n / 10);
        lemma_digit_char(n % 10);
        assert(decimal(n).drop_last() == decimal(n / 10));
        assert(n == (n / 10) * 10 + n % 10);
        assert(digits_value(decimal(n)) == digits_value(decimal(n / 10)) * 10 + digit_value(
            digit_char(n % 10),
        ));
    }
}

proof fn lemma_digits_end(t: Seq<char>, i: int, e: int, hi: int)
    requires
        0 <= i <= e <= hi <= t.len(),
        forall|k: int| i <= k < e ==> is_digit(#[trigger] t[k]),
        e < hi ==> !is_digit(t[e]),
    ensures
        digits_end(t, i, hi) == e,
    decreases e - i,
{
    if i < e {
        lemma_digits_end(t, i + 1, e, hi);
    }
}

/// A written entry parses back to itself, and holds no comma.
pub proof fn lemma_entry_text(degrees: u8, percent: u8)
    ensures
        token_entry(entry_text(degrees, percent)) == Some((degrees, percent)),
        forall|k: int|
            0 <= k < entry_text(degrees, percent).len() ==> #[trigger] entry_text(
                degrees,
                percent,
            )[k] != ',',
{
    let t = entry_text(degrees, percent);
    let dd = decimal(degrees as nat);
    let pd = decimal(percent as nat);
    lemma_decimal(degrees as nat);
    lemma_decimal(percent as nat);
    let a = dd.len() as int;
    let b = a + 2 + pd.len();
    assert(t.len() == b + 1);
    assert forall|k: int| 0 <= k < a implies t[k] == dd[k] by {}
    assert forall|k: int| a + 2 <= k < b implies t[k] == pd[k - a - 2] by {}
    assert(t[a] == 'c');
    assert(t[a + 1] == ':');
    assert(t[b] == '%');
    assert(is_digit(t[0]));
    assert(skip_spaces(t, 0) == 0);
    assert(trim_end(t, 0, t.len() as int) == t.len());
    lemma_digits_end(t, 0, a, t.len() as int);
    lemma_digits_end(t, a + 2, b, t.len() as int);
    assert(t.subrange(0, a) == dd);
    assert(t.subrange(a + 2, b) == pd);
    assert forall|k: int| 0 <= k < t.len() implies #[trigger] t[k] != ',' by {
        if k < a {
            assert(is_digit(dd[k]));
        } else if a + 2 <= k < b {
            assert(is_digit(pd[k - a - 2]));
        }
    }
}

proof fn lemma_split_nonempty(s: Seq<char>)
    ensures
        split_commas(s).len() >= 1,
    decreases s.len(),
{
    if s.len() > 0 {
        lemma_split_nonempty(s.drop_last());
    }
}

/// Appending text without a comma extends the last piece.
proof fn lemma_split_extend(a: Seq<char>, b: Seq<char>)
    requires
        forall|k: int| 0 <= k < b.len() ==> #[trigger] b[k] != ',',
    ensures
        split_commas(a + b) == split_commas(a).update(
            split_commas(a).len() - 1,
            split_commas(a).last() + b,
        ),
    decreases b.len(),
{
    lemma_split_nonempty(a);
    let sa = split_commas(a);
    if b.len() == 0 {
        assert(a + b == a);
        assert(sa.last() + b == sa.last());
        assert(sa.update(sa.len() - 1, sa.last()) == sa);
    } else {
        let bl = b.drop_last();
        assert forall|k: int| 0 <= k < bl.len() implies #[trigger] bl[k] != ',' by {
            assert(bl[k] == b[k]);
        }
        lemma_split_extend(a, bl);
        assert((a + b).drop_last() == a + bl);
        assert((a + b).last() == b.last());
        assert(b.last() != ',');
        assert(sa.last() + bl + seq![b.last()] == sa.last() + b);
        let p = split_commas(a + bl);
        assert(p.last() == sa.last() + bl);
        assert(p.last().push(b.last()) == sa.last() + b);
        assert(split_commas(a + b) == p.update(p.len() - 1, p.last().push(b.last())));
        assert(split_commas(a + b) == sa.update(sa.len() - 1, sa.last() + b));
    }
}

/// A comma followed by text without a comma adds that text as a new piece.
proof fn lemma_split_comma(a: Seq<char>, b: Seq<char>)
    requires
        forall|k: int| 0 <= k < b.len() ==> #[trigger] b[k] != ',',
    ensures
        split_commas(a + seq![','] + b) == split_commas(a).push(b),
{
    let ac = a + seq![','];
    assert(ac.drop_last() == a);
    assert(split_commas(ac) == split_commas(a).push(Seq::empty()));
    lemma_split_extend(ac, b);
    let sc = split_commas(ac);
    assert(Seq::<char>::empty() + b == b);
    assert(sc.update(sc.len() - 1, sc.last() + b) == split_commas(a).push(b));
}

/// The pieces of written entries are the entries' texts.
proof fn lemma_split_entries(raw: Seq<u8>, n: nat)
    requires
        raw.len() == 16,
        1 <= n <= 8,
    ensures
        split_commas(entries_text(raw, n)) == Seq::new(
            n,
            |k: int| entry_text(raw[k], raw[k + 8]),
        ),
    decreases n,
{
    if n == 1 {
        let e = entry_text(raw[0], raw[8]);
        lemma_entry_text(raw[0], raw[8]);
        lemma_split_extend(Seq::empty(), e);
        assert(Seq::<char>::empty() + e == e);
        assert(split_commas(Seq::<char>::empty()) == seq![Seq::<char>::empty()]);
        assert(split_commas(e) == seq![e]);
        assert(Seq::new(n, |k: int| entry_text(raw[k], raw[k + 8])) == seq![e]);
    } else {
        let e = entry_text(raw[n - 1], raw[n + 7 as int]);
        lemma_entry_text(raw[n - 1], raw[n + 7 as int]);
        lemma_split_entries(raw, (n - 1) as nat);
        lemma_split_comma(entries_text(raw, (n - 1) as nat), e);
        assert(Seq::new((n - 1) as nat, |k: int| entry_text(raw[k], raw[k + 8])).push(e)
            == Seq::new(n, |k: int| entry_text(raw[k], raw[k + 8])));
    }
}

proof fn lemma_all_parse(tokens: Seq<Seq<char>>, k: nat)
    requires
        tokens.len() <= 8,
        k <= tokens.len(),
        forall|j: int| 0 <= j < tokens.len() ==> token_entry(#[trigger] tokens[j]) is Some,
    ensures
        first_unparsable(tokens, k) == tokens.len(),
    decreases 8 - k,
{
    if k < tokens.len() {
        lemma_all_parse(tokens, k + 1);
    }
}

proof fn lemma_entries_raw(raw: Seq<u8>, n: nat)
    requires
        raw.len() == 16,
        n <= 8,
    ensures
        tokens_raw(Seq::new(8, |k: int| entry_text(raw[k], raw[k + 8])), n) == Seq::new(
            16,
            |j: int|
                if j < n || (8 <= j < 8 + n) {
                    raw[j]
                } else {
                    0u8
                },
        ),
    decreases n,
{
    let tokens = Seq::new(8, |k: int| entry_text(raw[k], raw[k + 8]));
    if n > 0 {
        lemma_entries_raw(raw, (n - 1) as nat);
        lemma_entry_text(raw[n - 1], raw[n + 7 as int]);
    }
    assert(tokens_raw(tokens, n) == Seq::new(
        16,
        |j: int|
            if j < n || (8 <= j < 8 + n) {
                raw[j]
            } else {
                0u8
            },
    ));
}

/// The written text of any raw table parses back to that table.
pub proof fn lemma_text_round_trip(raw: Seq<u8>)
    requires
        raw.len() == 16,
    ensures
        parse_curve_text(entries_text(raw, 8)) == CurveText::Parsed(raw),
{
    let tokens = Seq::new(8, |k: int| entry_text(raw[k], raw[k + 8]));
    lemma_split_entries(raw, 8);
    assert(split_commas(entries_text(raw, 8)) == tokens);
    assert forall|j: int| 0 <= j < tokens.len() implies token_entry(#[trigger] tokens[j]) is Some by {
        lemma_entry_text(raw[j], raw[j + 8]);
    }
    lemma_all_parse(tokens, 0);
    lemma_entries_raw(raw, 8);
    assert(tokens_raw(tokens, 8) == raw);
}

/// Text added at the end keeps every piece but the last, and never lessens
/// their number.
pub proof fn lemma_split_prefix(s: Seq<char>, i: int)
    requires
        0 <= i <= s.len(),
    ensures
        split_commas(s).len() >= split_commas(s.take(i)).len(),
        forall|k: int|
            0 <= k < split_commas(s.take(i)).len() - 1 ==> #[trigger] split_commas(s)[k]
                == split_commas(s.take(i))[k],
    decreases s.len(),
{
    if i < s.len() {
        lemma_split_prefix(s.drop_last(), i);
        assert(s.drop_last().take(i) == s.take(i));
        lemma_split_nonempty(s.drop_last());
    } else {
        assert(s.take(i) == s);
    }
}

/// Where the tokens in `[j, m)` all parse, the search for the first one that
/// does not may start at `m`.
pub proof fn lemma_first_unparsable_skip(tokens: Seq<Seq<char>>, j: nat, m: nat)
    requires
        j <= m <= 8,
        m <= tokens.len(),
        forall|k: int| j <= k < m ==> token_entry(#[trigger] tokens[k]) is Some,
    ensures
        first_unparsable(tokens, j) == first_unparsable(tokens, m),
    decreases m - j,
{
    if j < m {
        lemma_first_unparsable_skip(tokens, j + 1, m);
    }
}

/// Only the first `n` tokens go into the table.
pub proof fn lemma_tokens_raw_prefix(a: Seq<Seq<char>>, b: Seq<Seq<char>>, n: nat)
    requires
        n <= a.len(),
        n <= b.len(),
        forall|k: int| 0 <= k < n ==> #[trigger] a[k] == b[k],
    ensures
        tokens_raw(a, n) == tokens_raw(b, n),
    decreases n,
{
    if n > 0 {
        lemma_tokens_raw_prefix(a, b, (n - 1) as nat);
    }
}

} // verus!
