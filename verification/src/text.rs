//! Text helpers: white space, trimming, colon-separated fields and decimal
//! numbers.

use vstd::prelude::*;
use vstd::std_specs::iter::IteratorSpec;
use vstd::string::*;

verus! {

/// The characters with the Unicode property `White_Space`.
pub open spec fn is_space(c: char) -> bool {
    let u = c as u32;
    ||| 0x09 <= u <= 0x0d
    ||| u == 0x20
    ||| u == 0x85
    ||| u == 0xa0
    ||| u == 0x1680
    ||| 0x2000 <= u <= 0x200a
    ||| u == 0x2028
    ||| u == 0x2029
    ||| u == 0x202f
    ||| u == 0x205f
    ||| u == 0x3000
}

/// Whether `c` is white space.
pub fn is_whitespace(c: char) -> (b: bool)
    ensures
        b == is_space(c),
{
    let u: u32 = c as u32;
    (0x09 <= u && u <= 0x0d) || u == 0x20 || u == 0x85 || u == 0xa0 || u == 0x1680 || (0x2000 <= u
        && u <= 0x200a) || u == 0x2028 || u == 0x2029 || u == 0x202f || u == 0x205f || u == 0x3000
}

/// The characters of `s`, in order.
pub fn chars_of(s: &str) -> (v: Vec<char>)
    ensures
        v@ == s@,
{
    broadcast use vstd::string::group_string_axioms;

    let mut v: Vec<char> = Vec::new();
    let mut rest = s.chars();
    loop
        invariant
            rest.obeys_prophetic_iter_laws(),
            rest.decrease() is Some,
            v@ + rest.remaining() == s@,
        ensures
            v@ == s@,
        decreases rest.decrease()->0,
    {
        let ghost before = rest.remaining();
        match rest.next() {
            Some(c) => {
                v.push(c);
                assert(before == seq![c] + before.drop_first());
            },
            None => {
                assert(before.len() == 0);
                break ;
            },
        }
    }
    v
}

/// Whether two strings hold the same characters.
pub fn str_eq(a: &str, b: &str) -> (r: bool)
    ensures
        r == (a@ == b@),
{
    let x = chars_of(a);
    let y = chars_of(b);
    if x.len() != y.len() {
        return false;
    }
    let mut i: usize = 0;
    while i < x.len()
        invariant
            i <= x.len(),
            x.len() == y.len(),
            x@ == a@,
            y@ == b@,
            x@.subrange(0, i as int) == y@.subrange(0, i as int),
        decreases x.len() - i,
    {
        if x[i] != y[i] {
            return false;
        }
        assert(x@.subrange(0, i + 1) == x@.subrange(0, i as int).push(x@[i as int]));
        assert(y@.subrange(0, i + 1) == y@.subrange(0, i as int).push(y@[i as int]));
        i += 1;
    }
    assert(x@ == x@.subrange(0, x.len() as int));
    assert(y@ == y@.subrange(0, y.len() as int));
    true
}

/// The length of `s[..n]` once the white space at its end is taken off.
pub open spec fn trimmed_end(s: Seq<char>, n: int) -> int
    decreases n,
{
    if 0 < n <= s.len() && is_space(s[n - 1]) {
        trimmed_end(s, n - 1)
    } else {
        n
    }
}

/// The first position at or after `i`, and before `n`, that holds no white
/// space; `n` if there is none.
pub open spec fn trimmed_start(s: Seq<char>, i: int, n: int) -> int
    decreases n - i,
{
    if 0 <= i < n <= s.len() && is_space(s[i]) {
        trimmed_start(s, i + 1, n)
    } else {
        i
    }
}

/// `s` without the white space at its end.
pub open spec fn trim_end(s: Seq<char>) -> Seq<char> {
    s.subrange(0, trimmed_end(s, s.len() as int))
}

/// `s` without the white space at both ends.
pub open spec fn trim(s: Seq<char>) -> Seq<char> {
    let n = trimmed_end(s, s.len() as int);
    s.subrange(trimmed_start(s, 0, n), n)
}

fn end_of_trimmed(v: &Vec<char>) -> (n: usize)
    ensures
        n == trimmed_end(v@, v@.len() as int),
        n <= v@.len(),
{
    let mut n: usize = v.len();
    while n > 0 && is_whitespace(v[n - 1])
        invariant
            n <= v@.len(),
            trimmed_end(v@, n as int) == trimmed_end(v@, v@.len() as int),
        decreases n,
    {
        n -= 1;
    }
    n
}

fn start_of_trimmed(v: &Vec<char>, n: usize) -> (i: usize)
    requires
        n <= v@.len(),
    ensures
        i == trimmed_start(v@, 0, n as int),
        i <= n,
{
    let mut i: usize = 0;
    while i < n && is_whitespace(v[i])
        invariant
            i <= n <= v@.len(),
            trimmed_start(v@, i as int, n as int) == trimmed_start(v@, 0, n as int),
        decreases n - i,
    {
        i += 1;
    }
    i
}

/// Takes the white space off the end of `s`.
pub fn trim_right<'a>(s: &'a str) -> (r: &'a str)
    ensures
        r@ == trim_end(s@),
{
    let v = chars_of(s);
    let n = end_of_trimmed(&v);
    s.substring_char(0, n)
}

/// Takes the white space off both ends of `s`.
pub fn trim_both<'a>(s: &'a str) -> (r: &'a str)
    ensures
        r@ == trim(s@),
{
    let v = chars_of(s);
    let n = end_of_trimmed(&v);
    let i = start_of_trimmed(&v, n);
    s.substring_char(i, n)
}

/// The first position at or after `from` that holds `c`; the length of `s`
/// (or `from`, if that is larger) if there is none.
pub open spec fn find_from(s: Seq<char>, c: char, from: int) -> int
    decreases s.len() - from,
{
    if 0 <= from < s.len() && s[from] != c {
        find_from(s, c, from + 1)
    } else {
        from
    }
}

fn position_from(v: &Vec<char>, c: char, from: usize) -> (i: usize)
    requires
        from <= v@.len(),
    ensures
        i == find_from(v@, c, from as int),
        from <= i <= v@.len(),
{
    let mut i: usize = from;
    while i < v.len() && v[i] != c
        invariant
            from <= i <= v@.len(),
            find_from(v@, c, i as int) == find_from(v@, c, from as int),
        decreases v@.len() - i,
    {
        i += 1;
    }
    i
}

/// The second of the pieces that the colons of `s` part it into: what
/// stands between the first colon and the next one, or the end. `None`
/// where `s` holds no colon.
pub open spec fn second_piece(s: Seq<char>) -> Option<Seq<char>> {
    let i = find_from(s, ':', 0);
    if i >= s.len() {
        None
    } else {
        Some(s.subrange(i + 1, find_from(s, ':', i + 1)))
    }
}

/// The second colon-separated piece of `s`, if `s` holds a colon.
pub fn second_field<'a>(s: &'a str) -> (r: Option<&'a str>)
    ensures
        match r {
            Some(t) => second_piece(s@) == Some(t@),
            None => second_piece(s@) is None,
        },
{
    let v = chars_of(s);
    let i = position_from(&v, ':', 0);
    if i >= v.len() {
        None
    } else {
        let j = position_from(&v, ':', i + 1);
        Some(s.substring_char(i + 1, j))
    }
}

/// Whether `c` is one of the ten decimal digits.
pub open spec fn is_digit(c: char) -> bool {
    '0' <= c <= '9'
}

/// Whether `s` holds decimal digits only.
pub open spec fn all_digits(s: Seq<char>) -> bool {
    forall|i: int| 0 <= i < s.len() ==> is_digit(#[trigger] s[i])
}

/// The number that the decimal digits of `s` spell.
pub open spec fn decimal_value(s: Seq<char>) -> nat
    decreases s.len(),
{
    if s.len() == 0 {
        0
    } else {
        (decimal_value(s.drop_last()) * 10 + (s.last() as nat - '0' as nat)) as nat
    }
}

/// `s` without one leading plus sign.
pub open spec fn without_plus(s: Seq<char>) -> Seq<char> {
    if s.len() > 0 && s[0] == '+' {
        s.subrange(1, s.len() as int)
    } else {
        s
    }
}

/// The number that `s` spells in decimal: an optional plus sign, then one or
/// more digits, and a value that a `usize` can hold. `None` for any other text.
pub open spec fn decimal(s: Seq<char>) -> Option<usize> {
    let d = without_plus(s);
    if d.len() > 0 && all_digits(d) && decimal_value(d) <= usize::MAX {
        Some(decimal_value(d) as usize)
    } else {
        None
    }
}

/// A longer run of digits spells no smaller a number than its beginning.
pub proof fn lemma_decimal_value_grows(s: Seq<char>, i: int, j: int)
    requires
        0 <= i <= j <= s.len(),
        all_digits(s),
    ensures
        decimal_value(s.subrange(0, i)) <= decimal_value(s.subrange(0, j)),
    decreases j - i,
{
    if i < j {
        lemma_decimal_value_grows(s, i, j - 1);
        let t = s.subrange(0, j);
        assert(t.drop_last() == s.subrange(0, j - 1));
        assert(is_digit(s[j - 1]));
        assert(t.last() == s[j - 1]);
    }
}

/// Reads a decimal number.
pub fn parse_decimal(s: &str) -> (r: Option<usize>)
    ensures
        r == decimal(s@),
{
    let v = chars_of(s);
    let start: usize = if v.len() > 0 && v[0] == '+' {
        1
    } else {
        0
    };
    let ghost d = without_plus(v@);
    assert(d == v@.subrange(start as int, v@.len() as int));
    if start == v.len() {
        return None;
    }
    let mut acc: usize = 0;
    let mut i: usize = start;
    while i < v.len()
        invariant
            start <= i <= v@.len(),
            start < v@.len(),
            d == without_plus(s@),
            d == v@.subrange(start as int, v@.len() as int),
            all_digits(d.subrange(0, i - start)),
            acc == decimal_value(d.subrange(0, i - start)),
        decreases v@.len() - i,
    {
        let c = v[i];
        let ghost before = d.subrange(0, i - start);
        let ghost after = d.subrange(0, i - start + 1);
        assert(after.drop_last() == before);
        assert(after.last() == c);
        if !('0' <= c && c <= '9') {
            assert(!is_digit(d[i - start]));
            return None;
        }
        let digit: usize = (c as u32 - '0' as u32) as usize;
        if acc > (usize::MAX - digit) / 10 {
            proof {
                assert(decimal_value(after) > usize::MAX);
                if all_digits(d) {
                    lemma_decimal_value_grows(d, i - start + 1, d.len() as int);
                    assert(d.subrange(0, d.len() as int) == d);
                }
            }
            return None;
        }
        acc = acc * 10 + digit;
        assert forall|k: int| 0 <= k < after.len() implies is_digit(#[trigger] after[k]) by {
            if k < before.len() {
                assert(after[k] == before[k]);
            }
        }
        i += 1;
    }
    assert(d.subrange(0, d.len() as int) == d);
    Some(acc)
}

/// The digit that stands for `d`.
pub open spec fn digit_char(d: int) -> char {
    if d == 0 {
        '0'
    } else if d == 1 {
        '1'
    } else if d == 2 {
        '2'
    } else if d == 3 {
        '3'
    } else if d == 4 {
        '4'
    } else if d == 5 {
        '5'
    } else if d == 6 {
        '6'
    } else if d == 7 {
        '7'
    } else if d == 8 {
        '8'
    } else {
        '9'
    }
}

/// The decimal digits of `n`, without leading zeros.
pub open spec fn decimal_text(n: nat) -> Seq<char>
    decreases n,
{
    if n < 10 {
        seq![digit_char(n as int)]
    } else {
        decimal_text(n / 10).push(digit_char((n % 10) as int))
    }
}

fn digit_of(d: usize) -> (t: &'static str)
    requires
        d < 10,
    ensures
        t@ == seq![digit_char(d as int)],
{
    proof {
        reveal_strlit("0");
        reveal_strlit("1");
        reveal_strlit("2");
        reveal_strlit("3");
        reveal_strlit("4");
        reveal_strlit("5");
        reveal_strlit("6");
        reveal_strlit("7");
        reveal_strlit("8");
        reveal_strlit("9");
        assert("0"@ =~= seq!['0']);
        assert("1"@ =~= seq!['1']);
        assert("2"@ =~= seq!['2']);
        assert("3"@ =~= seq!['3']);
        assert("4"@ =~= seq!['4']);
        assert("5"@ =~= seq!['5']);
        assert("6"@ =~= seq!['6']);
        assert("7"@ =~= seq!['7']);
        assert("8"@ =~= seq!['8']);
        assert("9"@ =~= seq!['9']);
    }
    if d == 0 {
        "0"
    } else if d == 1 {
        "1"
    } else if d == 2 {
        "2"
    } else if d == 3 {
        "3"
    } else if d == 4 {
        "4"
    } else if d == 5 {
        "5"
    } else if d == 6 {
        "6"
    } else if d == 7 {
        "7"
    } else if d == 8 {
        "8"
    } else {
        "9"
    }
}

/// Appends the decimal digits of `n` to `out`.
pub fn write_decimal(n: usize, out: &mut String)
    ensures
        final(out)@ == old(out)@ + decimal_text(n as nat),
    decreases n,
{
    if n < 10 {
        out.append(digit_of(n));
    } else {
        write_decimal(n / 10, out);
        out.append(digit_of(n % 10));
        assert(out@ == old(out)@ + decimal_text(n as nat));
    }
}

/// The digits of a number are digits, and spell it.
pub proof fn lemma_decimal_text(n: nat)
    ensures
        decimal_text(n).len() > 0,
        all_digits(decimal_text(n)),
        decimal_value(decimal_text(n)) == n,
    decreases n,
{
    let t = decimal_text(n);
    if n < 10 {
        assert(t.drop_last().len() == 0);
        assert(decimal_value(t.drop_last()) == 0);
        assert(t.last() == digit_char(n as int));
    } else {
        lemma_decimal_text(n / 10);
        assert(t.drop_last() == decimal_text(n / 10));
        assert(t.last() == digit_char((n % 10) as int));
        assert forall|i: int| 0 <= i < t.len() implies is_digit(#[trigger] t[i]) by {
            if i < t.len() - 1 {
                assert(t[i] == decimal_text(n / 10)[i]);
            }
        }
    }
}

/// Writing a number and reading it back gives the number.
pub proof fn law_decimal_round_trip(n: usize)
    ensures
        decimal(decimal_text(n as nat)) == Some(n),
{
    lemma_decimal_text(n as nat);
    let t = decimal_text(n as nat);
    assert(is_digit(t[0]));
    assert(without_plus(t) == t);
}

} // verus!
