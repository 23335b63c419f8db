//! Character-level utilities on `&str`: searching, prefix/suffix tests,
//! whitespace trimming, and decimal parsing/printing. Every executable
//! function is tied to a spec function over the string's `Seq<char>` view.

use vstd::prelude::*;
use vstd::string::StrSliceExecFns;
use vstd::string::StringExecFns;

verus! {

/// Index of the first occurrence of `c` in `s` at or after `from`,
/// or `s.len()` when there is none.
pub open spec fn spec_find_char(s: Seq<char>, c: char, from: int) -> int
    decreases s.len() - from,
{
    if from >= s.len() {
        s.len() as int
    } else if s[from] == c {
        from
    } else {
        spec_find_char(s, c, from + 1)
    }
}

/// The found index never precedes `from` and never passes the end.
pub broadcast proof fn lemma_find_char_bounds(s: Seq<char>, c: char, from: int)
    requires
        from <= s.len(),
    ensures
        from <= #[trigger] spec_find_char(s, c, from) <= s.len(),
    decreases s.len() - from,
{
    if from < s.len() && s[from] != c {
        lemma_find_char_bounds(s, c, from + 1);
    }
}

pub fn find_char_from(s: &str, c: char, from: usize) -> (r: usize)
    requires
        from <= s@.len(),
    ensures
        r == spec_find_char(s@, c, from as int),
        from <= r <= s@.len(),
{
    let n = s.unicode_len();
    let mut i = from;
    while i < n
        invariant
            from <= i <= n,
            n == s@.len(),
            spec_find_char(s@, c, from as int) == spec_find_char(s@, c, i as int),
        decreases n - i,
    {
        if s.get_char(i) == c {
            return i;
        }
        i = i + 1;
    }
    i
}

/// `pat` occurs in `s` starting at index `i`.
pub open spec fn spec_occurs_at(s: Seq<char>, pat: Seq<char>, i: int) -> bool {
    0 <= i && i + pat.len() <= s.len() && s.subrange(i, i + pat.len()) == pat
}

pub fn matches_at(s: &str, pat: &str, i: usize) -> (r: bool)
    ensures
        r == spec_occurs_at(s@, pat@, i as int),
{
    let n = s.unicode_len();
    let m = pat.unicode_len();
    if i > n || m > n - i {
        return false;
    }
    let mut j: usize = 0;
    while j < m
        invariant
            0 <= j <= m,
            m == pat@.len(),
            n == s@.len(),
            i + m <= n,
            forall|k: int| 0 <= k < j ==> s@[i + k] == pat@[k],
        decreases m - j,
    {
        if s.get_char(i + j) != pat.get_char(j) {
            proof {
                assert(s@.subrange(i as int, i + pat@.len())[j as int] == s@[i + j]);
            }
            return false;
        }
        j = j + 1;
    }
    proof {
        assert(s@.subrange(i as int, i + pat@.len()) =~= pat@);
    }
    true
}

pub open spec fn spec_starts_with(s: Seq<char>, pat: Seq<char>) -> bool {
    spec_occurs_at(s, pat, 0)
}

pub fn starts_with_str(s: &str, pat: &str) -> (r: bool)
    ensures
        r == spec_starts_with(s@, pat@),
{
    matches_at(s, pat, 0)
}

pub open spec fn spec_ends_with(s: Seq<char>, pat: Seq<char>) -> bool {
    spec_occurs_at(s, pat, s.len() - pat.len())
}

pub fn ends_with_str(s: &str, pat: &str) -> (r: bool)
    ensures
        r == spec_ends_with(s@, pat@),
{
    let n = s.unicode_len();
    let m = pat.unicode_len();
    if m > n {
        false
    } else {
        matches_at(s, pat, n - m)
    }
}

/// Index of the last occurrence of `pat` in `s` at or before `from`,
/// or `-1` when there is none.
pub open spec fn spec_rfind(s: Seq<char>, pat: Seq<char>, from: int) -> int
    decreases from + 1,
{
    if from < 0 {
        -1
    } else if spec_occurs_at(s, pat, from) {
        from
    } else {
        spec_rfind(s, pat, from - 1)
    }
}

pub fn rfind_str(s: &str, pat: &str) -> (r: Option<usize>)
    ensures
        ({
            let ri = spec_rfind(s@, pat@, s@.len() - pat@.len());
            match r {
                Some(i) => ri == i && spec_occurs_at(s@, pat@, i as int),
                None => ri == -1,
            }
        }),
{
    let n = s.unicode_len();
    let m = pat.unicode_len();
    if m > n {
        proof {
            assert(spec_rfind(s@, pat@, s@.len() - pat@.len()) == -1);
        }
        return None;
    }
    let mut i: usize = n - m;
    loop
        invariant
            0 <= i <= n - m,
            n == s@.len(),
            m == pat@.len(),
            m <= n,
            spec_rfind(s@, pat@, s@.len() - pat@.len()) == spec_rfind(s@, pat@, i as int),
        decreases i,
    {
        if matches_at(s, pat, i) {
            return Some(i);
        }
        if i == 0 {
            proof {
                assert(spec_rfind(s@, pat@, 0) == spec_rfind(s@, pat@, -1));
                assert(spec_rfind(s@, pat@, -1) == -1);
            }
            return None;
        }
        i = i - 1;
    }
}

pub open spec fn spec_is_ws(c: char) -> bool {
    c == ' ' || c == '\t' || c == '\r' || c == '\n'
}

pub fn is_ws_char(c: char) -> (r: bool)
    ensures
        r == spec_is_ws(c),
{
    c == ' ' || c == '\t' || c == '\r' || c == '\n'
}

/// `s` with every trailing whitespace character removed.
pub open spec fn spec_trim_end(s: Seq<char>) -> Seq<char>
    decreases s.len(),
{
    if s.len() == 0 {
        s
    } else if spec_is_ws(s.last()) {
        spec_trim_end(s.drop_last())
    } else {
        s
    }
}

pub fn trim_end_ws<'a>(s: &'a str) -> (r: &'a str)
    ensures
        r@ == spec_trim_end(s@),
{
    let n = s.unicode_len();
    proof {
        assert(s@.subrange(0, n as int) =~= s@);
    }
    let mut k = n;
    while k > 0 && is_ws_char(s.get_char(k - 1))
        invariant
            k <= n,
            n == s@.len(),
            spec_trim_end(s@) == spec_trim_end(s@.subrange(0, k as int)),
        decreases k,
    {
        proof {
            assert(s@.subrange(0, k as int).last() == s@[k - 1]);
            assert(s@.subrange(0, k as int).drop_last() =~= s@.subrange(0, k - 1));
        }
        k = k - 1;
    }
    proof {
        if k == 0 {
            assert(s@.subrange(0, 0) =~= Seq::<char>::empty());
        } else {
            assert(s@.subrange(0, k as int).last() == s@[k - 1]);
        }
    }
    s.substring_char(0, k)
}

/// `s` with every leading whitespace character removed.
pub open spec fn spec_trim_start(s: Seq<char>) -> Seq<char>
    decreases s.len(),
{
    if s.len() == 0 {
        s
    } else if spec_is_ws(s[0]) {
        spec_trim_start(s.subrange(1, s.len() as int))
    } else {
        s
    }
}

pub fn trim_start_ws<'a>(s: &'a str) -> (r: &'a str)
    ensures
        r@ == spec_trim_start(s@),
{
    let n = s.unicode_len();
    proof {
        assert(s@.subrange(0, n as int) =~= s@);
    }
    let mut j: usize = 0;
    while j < n && is_ws_char(s.get_char(j))
        invariant
            j <= n,
            n == s@.len(),
            spec_trim_start(s@) == spec_trim_start(s@.subrange(j as int, n as int)),
        decreases n - j,
    {
        proof {
            assert(s@.subrange(j as int, n as int)[0] == s@[j as int]);
            assert(s@.subrange(j as int, n as int).subrange(
                1,
                s@.subrange(j as int, n as int).len() as int,
            ) =~= s@.subrange(j + 1, n as int));
        }
        j = j + 1;
    }
    proof {
        if j == n {
            assert(s@.subrange(j as int, n as int) =~= Seq::<char>::empty());
        } else {
            assert(s@.subrange(j as int, n as int)[0] == s@[j as int]);
        }
    }
    s.substring_char(j, n)
}

pub open spec fn spec_is_digit(c: char) -> bool {
    c == '0' || c == '1' || c == '2' || c == '3' || c == '4' || c == '5' || c == '6' || c == '7'
        || c == '8' || c == '9'
}

pub open spec fn spec_digit_val(c: char) -> nat {
    if c == '0' {
        0
    } else if c == '1' {
        1
    } else if c == '2' {
        2
    } else if c == '3' {
        3
    } else if c == '4' {
        4
    } else if c == '5' {
        5
    } else if c == '6' {
        6
    } else if c == '7' {
        7
    } else if c == '8' {
        8
    } else {
        9
    }
}

pub fn is_digit_char(c: char) -> (r: bool)
    ensures
        r == spec_is_digit(c),
{
    c == '0' || c == '1' || c == '2' || c == '3' || c == '4' || c == '5' || c == '6' || c == '7'
        || c == '8' || c == '9'
}

pub fn digit_value(c: char) -> (d: usize)
    requires
        spec_is_digit(c),
    ensures
        d == spec_digit_val(c),
        d <= 9,
{
    if c == '0' {
        0
    } else if c == '1' {
        1
    } else if c == '2' {
        2
    } else if c == '3' {
        3
    } else if c == '4' {
        4
    } else if c == '5' {
        5
    } else if c == '6' {
        6
    } else if c == '7' {
        7
    } else if c == '8' {
        8
    } else {
        9
    }
}

pub open spec fn spec_all_digits(s: Seq<char>) -> bool {
    forall|i: int| 0 <= i < s.len() ==> spec_is_digit(s[i])
}

/// The value of a digit string, most significant digit first.
pub open spec fn spec_digits_val(s: Seq<char>) -> nat
    decreases s.len(),
{
    if s.len() == 0 {
        0
    } else {
        spec_digits_val(s.drop_last()) * 10 + spec_digit_val(s.last())
    }
}

proof fn lemma_digits_val_prefix(s: Seq<char>, i: int)
    requires
        0 <= i <= s.len(),
    ensures
        spec_digits_val(s.subrange(0, i)) <= spec_digits_val(s),
    decreases s.len() - i,
{
    if i == s.len() {
        assert(s.subrange(0, i) =~= s);
    } else {
        assert(s.subrange(0, i + 1).drop_last() =~= s.subrange(0, i));
        assert(s.subrange(0, i + 1).last() == s[i]);
        assert(spec_digits_val(s.subrange(0, i)) <= spec_digits_val(s.subrange(0, i + 1)));
        lemma_digits_val_prefix(s, i + 1);
    }
}

/// What `str::parse::<usize>` returns on `s`: the decimal value of the
/// digits (one optional leading `+` accepted), or nothing when `s` is
/// empty, holds another character, or names a value above `usize::MAX`.
pub open spec fn spec_parse_usize(s: Seq<char>) -> Option<nat> {
    let t = if s.len() > 0 && s[0] == '+' {
        s.subrange(1, s.len() as int)
    } else {
        s
    };
    if t.len() > 0 && spec_all_digits(t) && spec_digits_val(t) <= usize::MAX {
        Some(spec_digits_val(t))
    } else {
        None
    }
}

pub fn parse_usize(s: &str) -> (r: Option<usize>)
    ensures
        match r {
            Some(v) => spec_parse_usize(s@) == Some(v as nat),
            None => spec_parse_usize(s@) == None::<nat>,
        },
{
    let n = s.unicode_len();
    let mut j: usize = 0;
    if n > 0 && s.get_char(0) == '+' {
        j = 1;
    }
    let ghost t = if s@.len() > 0 && s@[0] == '+' {
        s@.subrange(1, s@.len() as int)
    } else {
        s@
    };
    proof {
        assert(t =~= s@.subrange(j as int, n as int));
    }
    if j >= n {
        return None;
    }
    let mut acc: usize = 0;
    let mut i = j;
    while i < n
        invariant
            j <= i <= n,
            n == s@.len(),
            t == s@.subrange(j as int, n as int),
            t == (if s@.len() > 0 && s@[0] == '+' {
                s@.subrange(1, s@.len() as int)
            } else {
                s@
            }),
            spec_all_digits(s@.subrange(j as int, i as int)),
            acc as nat == spec_digits_val(s@.subrange(j as int, i as int)),
        decreases n - i,
    {
        let c = s.get_char(i);
        if !is_digit_char(c) {
            proof {
                assert(t[i - j] == s@[i as int]);
                assert(!spec_all_digits(t));
            }
            return None;
        }
        let d = digit_value(c);
        if acc > (usize::MAX - d) / 10 {
            proof {
                assert(s@.subrange(j as int, i + 1).drop_last() =~= s@.subrange(j as int, i as int));
                assert(s@.subrange(j as int, i + 1).last() == s@[i as int]);
                assert(acc * 10 + d > usize::MAX) by {
                    assert(acc >= (usize::MAX - d) / 10 + 1);
                    assert(((usize::MAX - d) / 10) * 10 >= usize::MAX - d - 9);
                };
                assert(spec_digits_val(s@.subrange(j as int, i + 1)) == acc * 10
                    + spec_digit_val(s@[i as int]));
                assert(spec_digits_val(s@.subrange(j as int, i + 1)) > usize::MAX);
                assert(s@.subrange(j as int, i + 1) =~= t.subrange(0, i + 1 - j));
                lemma_digits_val_prefix(t, i + 1 - j);
                assert(spec_digits_val(t) > usize::MAX);
            }
            return None;
        }
        acc = acc * 10 + d;
        proof {
            assert(s@.subrange(j as int, i + 1).drop_last() =~= s@.subrange(j as int, i as int));
            assert(s@.subrange(j as int, i + 1).last() == s@[i as int]);
        }
        i = i + 1;
    }
    proof {
        assert(s@.subrange(j as int, i as int) =~= t);
    }
    Some(acc)
}

pub open spec fn spec_digit_char(d: nat) -> char {
    if d == 0 {
        '0'
    } else if d == 1 {
        '1'
    } else if d == 2 {
        '2'
    } else if d == 3 {
        '3'
    } else if d == 4 {
        '4'
    } else if d == 5 {
        '5'
    } else if d == 6 {
        '6'
    } else if d == 7 {
        '7'
    } else if d == 8 {
        '8'
    } else {
        '9'
    }
}

/// The decimal rendering of `n`, most significant digit first.
pub open spec fn spec_dec_digits(n: nat) -> Seq<char>
    decreases n,
{
    if n < 10 {
        seq![spec_digit_char(n)]
    } else {
        spec_dec_digits(n / 10).push(spec_digit_char(n % 10))
    }
}

fn digit_str(d: usize) -> (r: &'static str)
    requires
        d <= 9,
    ensures
        r@ == seq![spec_digit_char(d as nat)],
{
    proof {
        reveal_strlit("0");
        reveal_strlit("1");
        reveal_strlit("2");
        reveal_strlit("3");
        reveal_strlit("4");
        reveal_strlit("5");
        reveal_strlit("6");
        reveal_strlit("7");
        reveal_strlit("8");
        reveal_strlit("9");
    }
    if d == 0 {
        proof {
            assert("0"@ =~= seq![spec_digit_char(0)]);
        }
        "0"
    } else if d == 1 {
        proof {
            assert("1"@ =~= seq![spec_digit_char(1)]);
        }
        "1"
    } else if d == 2 {
        proof {
            assert("2"@ =~= seq![spec_digit_char(2)]);
        }
        "2"
    } else if d == 3 {
        proof {
            assert("3"@ =~= seq![spec_digit_char(3)]);
        }
        "3"
    } else if d == 4 {
        proof {
            assert("4"@ =~= seq![spec_digit_char(4)]);
        }
        "4"
    } else if d == 5 {
        proof {
            assert("5"@ =~= seq![spec_digit_char(5)]);
        }
        "5"
    } else if d == 6 {
        proof {
            assert("6"@ =~= seq![spec_digit_char(6)]);
        }
        "6"
    } else if d == 7 {
        proof {
            assert("7"@ =~= seq![spec_digit_char(7)]);
        }
        "7"
    } else if d == 8 {
        proof {
            assert("8"@ =~= seq![spec_digit_char(8)]);
        }
        "8"
    } else {
        proof {
            assert("9"@ =~= seq![spec_digit_char(9)]);
        }
        "9"
    }
}

/// Appends the decimal rendering of `n` to `out`.
pub fn push_decimal(n: usize, out: &mut String)
    ensures
        final(out)@ == old(out)@ + spec_dec_digits(n as nat),
    decreases n,
{
    if n >= 10 {
        push_decimal(n / 10, out);
    }
    let ds = digit_str(n % 10);
    out.append(ds);
    proof {
        if n >= 10 {
            assert(spec_dec_digits(n as nat) =~= spec_dec_digits((n / 10) as nat) + seq![
                spec_digit_char((n % 10) as nat),
            ]);
        } else {
            assert(spec_dec_digits(n as nat) == seq![spec_digit_char(n as nat)]);
        }
        assert(out@ =~= old(out)@ + spec_dec_digits(n as nat));
    }
}

} // verus!
