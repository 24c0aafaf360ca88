//! Character-level text helpers: decimal numerals, trailing-whitespace
//! trimming, line splitting and substring search.

use vstd::prelude::*;

verus! {

/// Appends one character to a `String` (std's `String::push`).
#[verifier::external_body]
pub(crate) fn push_char(out: &mut String, c: char)
    ensures
        final(out)@ == old(out)@.push(c),
{
    out.push(c);
}

/// The characters of a string slice, in order.
pub fn chars_of(s: &str) -> (v: Vec<char>)
    ensures
        v@ == s@,
{
    let mut v: Vec<char> = Vec::new();
    for c in it: s.chars()
        invariant
            v@ == it.seq().take(it.index() as int),
    {
        v.push(c);
    }
    v
}


/// The decimal numeral of `n`, most significant digit first, without
/// leading zeros (`0` is written `"0"`).
pub open spec fn decimal(n: nat) -> Seq<char>
    decreases n,
{
    if n < 10 {
        seq![digit_char(n)]
    } else {
        decimal(n / 10).push(digit_char(n % 10))
    }
}

/// The ASCII digit for `d < 10`.
pub open spec fn digit_char(d: nat) -> char {
    (48 + d) as char
}

/// The number that a string of ASCII digits spells in base ten.
pub open spec fn numeral_value(s: Seq<char>) -> int
    decreases s.len(),
{
    if s.len() == 0 {
        0
    } else {
        numeral_value(s.drop_last()) * 10 + (s.last() as int - 48)
    }
}

/// The decimal numeral of `n` is made of ASCII digits only, starts with a
/// digit other than `0` unless `n` is 0, and reads back as `n`.
pub proof fn law_decimal_reads_back(n: nat)
    ensures
        decimal(n).len() >= 1,
        forall|i: int| 0 <= i < decimal(n).len() ==> '0' <= #[trigger] decimal(n)[i] <= '9',
        n > 0 ==> decimal(n)[0] != '0',
        numeral_value(decimal(n)) == n,
    decreases n,
{
    if n >= 10 {
        law_decimal_reads_back(n / 10);
        let d = decimal(n);
        assert(d.drop_last() =~= decimal(n / 10));
        assert forall|i: int| 0 <= i < d.len() implies '0' <= #[trigger] d[i] <= '9' by {
            if i < d.len() - 1 {
                assert(d[i] == decimal(n / 10)[i]);
            }
        }
        assert(d[0] == decimal(n / 10)[0]);
        assert(d.last() == digit_char(n % 10));
        assert(digit_char(n % 10) as int == 48 + n % 10);
        assert(numeral_value(d) == numeral_value(decimal(n / 10)) * 10 + (n % 10));
    } else {
        assert(decimal(n) =~= seq![digit_char(n)]);
        assert(seq![digit_char(n)].drop_last() =~= Seq::<char>::empty());
        assert(digit_char(n) as int == 48 + n);
        assert(numeral_value(Seq::<char>::empty()) == 0);
    }
}

/// Appends the decimal numeral of `n` to `out`.
pub fn push_decimal(out: &mut String, n: u64)
    ensures
        final(out)@ == old(out)@ + decimal(n as nat),
    decreases n,
{
    if n >= 10 {
        push_decimal(out, n / 10);
    }
    let d: u8 = (n % 10) as u8;
    push_char(out, (48u8 + d) as char);
    assert(out@ =~= old(out)@ + decimal(n as nat));
}

/// Unicode `White_Space`: the characters that `char::is_whitespace` accepts.
pub open spec fn is_white_space(c: char) -> bool {
    let u: u32 = c as u32;
    ||| 0x09 <= u <= 0x0d
    ||| u == 0x20
    ||| u == 0x85
    ||| u == 0xa0
    ||| u == 0x1680
    ||| 0x2000 <= u <= 0x200a
    ||| u == 0x2028
    ||| u == 0x2029
    ||| u == 0x202f
    ||| u == 0x205f
    ||| u == 0x3000
}

/// Whether `c` is a Unicode white-space character.
pub fn white_space(c: char) -> (b: bool)
    ensures
        b == is_white_space(c),
{
    let u: u32 = c as u32;
    (0x09 <= u && u <= 0x0d) || u == 0x20 || u == 0x85 || u == 0xa0 || u == 0x1680 || (0x2000
        <= u && u <= 0x200a) || u == 0x2028 || u == 0x2029 || u == 0x202f || u == 0x205f || u
        == 0x3000
}

/// The length of `s` once trailing white space is removed.
pub open spec fn trimmed_len(s: Seq<char>) -> nat
    decreases s.len(),
{
    if s.len() > 0 && is_white_space(s.last()) {
        trimmed_len(s.drop_last())
    } else {
        s.len()
    }
}

/// `s` without its trailing white space (what `str::trim_end` returns).
pub open spec fn trim_end(s: Seq<char>) -> Seq<char> {
    s.take(trimmed_len(s) as int)
}

/// What characterises `trim_end`: it keeps a prefix, drops only white space,
/// and ends on a character that is not white space (or is empty).
pub proof fn lemma_trim_end(s: Seq<char>)
    ensures
        trimmed_len(s) <= s.len(),
        trim_end(s).len() == trimmed_len(s),
        s.take(trimmed_len(s) as int) == trim_end(s),
        forall|i: int| trimmed_len(s) <= i < s.len() ==> is_white_space(#[trigger] s[i]),
        trimmed_len(s) > 0 ==> !is_white_space(s[trimmed_len(s) - 1]),
    decreases s.len(),
{
    if s.len() > 0 && is_white_space(s.last()) {
        lemma_trim_end(s.drop_last());
        assert forall|i: int| trimmed_len(s) <= i < s.len() implies is_white_space(#[trigger] s[i]) by {
            if i < s.len() - 1 {
                assert(s[i] == s.drop_last()[i]);
            }
        }
    }
}

/// Trimming twice trims no more than trimming once.
pub proof fn law_trim_end_idempotent(s: Seq<char>)
    ensures
        trim_end(trim_end(s)) == trim_end(s),
{
    lemma_trim_end(s);
    let t = trim_end(s);
    if t.len() > 0 {
        assert(t.last() == s[trimmed_len(s) - 1]);
    }
    assert(t.take(t.len() as int) =~= t);
}

/// Appends `s` without its trailing white space to `out`.
pub fn push_trimmed(out: &mut String, s: &str)
    ensures
        final(out)@ == old(out)@ + trim_end(s@),
{
    let n: usize = s.unicode_len();
    let mut k: usize = n;
    assert(s@.take(k as int) =~= s@);
    while k > 0 && white_space(s.get_char(k - 1))
        invariant
            k <= n,
            n == s@.len(),
            trimmed_len(s@) == trimmed_len(s@.take(k as int)),
        decreases k,
    {
        assert(s@.take(k as int).drop_last() =~= s@.take(k - 1));
        k = k - 1;
    }
    proof {
        if k > 0 {
            assert(s@.take(k as int).last() == s@[k - 1]);
        }
        assert(trimmed_len(s@.take(k as int)) == k);
    }
    out.append(s.substring_char(0, k));
}


/// Whether `needle` occurs in `hay` as a contiguous run of characters
/// (what `str::contains` tests).
pub open spec fn occurs_in(hay: Seq<char>, needle: Seq<char>) -> bool {
    exists|i: int|
        0 <= i && i + needle.len() <= hay.len() && #[trigger] hay.subrange(i, i + needle.len())
            == needle
}

/// The number of characters before the first newline of `s`
/// (all of `s` when it has none).
pub open spec fn line_end(s: Seq<char>) -> nat
    decreases s.len(),
{
    if s.len() == 0 {
        0
    } else if s[0] == '\n' {
        0
    } else {
        1 + line_end(s.drop_first())
    }
}

/// `line` without one trailing carriage return.
pub open spec fn strip_cr(line: Seq<char>) -> Seq<char> {
    if line.len() > 0 && line.last() == '\r' {
        line.drop_last()
    } else {
        line
    }
}

/// The lines of `s`, as `str::lines` yields them: pieces separated by `\n`
/// or `\r\n`, with no terminator kept and no empty piece after a final
/// terminator.
pub open spec fn lines(s: Seq<char>) -> Seq<Seq<char>>
    decreases s.len(),
{
    if s.len() == 0 {
        seq![]
    } else if line_end(s) >= s.len() {
        seq![s]
    } else {
        seq![strip_cr(s.take(line_end(s) as int))] + lines(s.skip(line_end(s) as int + 1))
    }
}

/// `line_end` stops at the first newline.
pub proof fn lemma_line_end(s: Seq<char>, m: int)
    requires
        0 <= m <= s.len(),
        forall|j: int| 0 <= j < m ==> s[j] != '\n',
        m == s.len() || s[m] == '\n',
    ensures
        line_end(s) == m,
    decreases s.len(),
{
    if s.len() > 0 && s[0] != '\n' {
        assert forall|j: int| 0 <= j < m - 1 implies s.drop_first()[j] != '\n' by {
            assert(s.drop_first()[j] == s[j + 1]);
        }
        lemma_line_end(s.drop_first(), m - 1);
    }
}

/// Whether `needle` occurs in `text[lo..hi]`.
pub fn occurs_between(text: &Vec<char>, lo: usize, hi: usize, needle: &Vec<char>) -> (b: bool)
    requires
        lo <= hi <= text.len(),
    ensures
        b == occurs_in(text@.subrange(lo as int, hi as int), needle@),
{
    let ghost hay = text@.subrange(lo as int, hi as int);
    let n: usize = needle.len();
    if n > hi - lo {
        assert forall|i: int|
            0 <= i && i + n <= hay.len() implies #[trigger] hay.subrange(i, i + n) != needle@ by {}
        return false;
    }
    let last: usize = hi - n;
    let mut i: usize = lo;
    while i <= last
        invariant
            lo <= i <= last + 1,
            last + n == hi,
            hi <= text.len(),
            n == needle.len(),
            hay == text@.subrange(lo as int, hi as int),
            forall|k: int| lo <= k < i ==> #[trigger] hay.subrange(k - lo, k - lo + n) != needle@,
        decreases last + 1 - i,
    {
        let mut j: usize = 0;
        let mut same = true;
        while j < n
            invariant
                j <= n,
                n == needle.len(),
                i + n <= text.len(),
                same == (forall|t: int| 0 <= t < j ==> text@[i + t] == needle@[t]),
            decreases n - j,
        {
            if text[i + j] != needle[j] {
                same = false;
            }
            j = j + 1;
        }
        if same {
            assert(hay.subrange(i - lo, i - lo + n) =~= needle@);
            return true;
        }
        assert(hay.subrange(i - lo, i - lo + n)[0] == text@[i as int]) by {
            if n > 0 {}
        }
        proof {
            let t = choose|t: int| 0 <= t < n && text@[i + t] != needle@[t];
            assert(hay.subrange(i - lo, i - lo + n)[t] != needle@[t]);
        }
        i = i + 1;
    }
    assert forall|k: int|
        0 <= k && k + n <= hay.len() implies #[trigger] hay.subrange(k, k + n) != needle@ by {
        assert(hay.subrange((k + lo) - lo, (k + lo) - lo + n) != needle@);
    }
    false
}

} // verus!
