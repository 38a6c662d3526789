//! Names of tensors as character sequences: search, prefixes, decimal numbers.

use vstd::prelude::*;
use vstd::string::{StrSliceExecFns, StringExecFns};

verus! {

/// `needle` occurs in `hay` at position `i`.
pub open spec fn occurs_at(hay: Seq<char>, needle: Seq<char>, i: int) -> bool {
    0 <= i && i + needle.len() <= hay.len() && hay.subrange(i, i + needle.len()) == needle
}

/// `needle` occurs somewhere in `hay`.
pub open spec fn occurs_in(hay: Seq<char>, needle: Seq<char>) -> bool {
    exists|i: int| #[trigger] occurs_at(hay, needle, i)
}

/// The first position of `c` at or after `i`, or the length.
pub open spec fn find_from(s: Seq<char>, c: char, i: int) -> int
    decreases s.len() - i,
{
    if i >= s.len() || s[i] == c {
        i
    } else {
        find_from(s, c, i + 1)
    }
}

/// The decimal digit of `d < 10`.
pub open spec fn digit_char(d: nat) -> char {
    (0x30 + d) as char
}

/// The decimal representation of a number, without leading zeros.
pub open spec fn decimal(n: nat) -> Seq<char>
    decreases n,
{
    if n < 10 {
        seq![digit_char(n)]
    } else {
        decimal(n / 10).push(digit_char(n % 10))
    }
}

pub open spec fn is_digit(c: char) -> bool {
    0x30 <= c as int <= 0x39
}

pub open spec fn all_digits(s: Seq<char>) -> bool {
    forall|i: int| 0 <= i < s.len() ==> is_digit(#[trigger] s[i])
}

/// The number that decimal digits stand for.
pub open spec fn digits_value(s: Seq<char>) -> nat
    decreases s.len(),
{
    if s.len() == 0 {
        0
    } else {
        digits_value(s.drop_last()) * 10 + (s.last() as int - 0x30) as nat
    }
}

/// A word-sized number in decimal: digits, with an optional plus sign.
pub open spec fn parsed(s: Seq<char>) -> Option<nat> {
    let t = if s.len() > 0 && s[0] == '+' {
        s.skip(1)
    } else {
        s
    };
    if t.len() > 0 && all_digits(t) && digits_value(t) <= usize::MAX {
        Some(digits_value(t))
    } else {
        None
    }
}

/// The characters of a string.
pub fn to_chars(s: &str) -> (r: Vec<char>)
    ensures
        r@ == s@,
{
    let mut r: Vec<char> = Vec::new();
    for c in it: s.chars()
        invariant
            r@.len() == it.index(),
            forall|i: int| 0 <= i < r@.len() ==> r@[i] == it.seq()[i],
            it.seq() == s@,
    {
        r.push(c);
    }
    proof {
        assert(r@ =~= s@);
    }
    r
}

/// Whether two strings are equal.
pub fn same(a: &str, b: &str) -> (r: bool)
    ensures
        r == (a@ == b@),
{
    a.to_owned() == b.to_owned()
}

/// Whether `needle` occurs in `hay`.
pub fn contains(hay: &str, needle: &str) -> (r: bool)
    ensures
        r == occurs_in(hay@, needle@),
{
    let h: Vec<char> = to_chars(hay);
    let n: Vec<char> = to_chars(needle);
    if n.len() > h.len() {
        return false;
    }
    let mut i: usize = 0;
    while i <= h.len() - n.len()
        invariant
            h@ == hay@,
            n@ == needle@,
            n@.len() <= h@.len(),
            i <= h@.len() - n@.len() + 1,
            forall|a: int| 0 <= a < i ==> !#[trigger] occurs_at(hay@, needle@, a),
        decreases h@.len() - n@.len() + 1 - i,
    {
        if matches_at(&h, &n, i) {
            return true;
        }
        if i == h.len() - n.len() {
            proof {
                assert forall|a: int| !#[trigger] occurs_at(hay@, needle@, a) by {}
            }
            return false;
        }
        i = i + 1;
    }
    false
}

/// Whether `n` occurs in `h` at `i`.
fn matches_at(h: &Vec<char>, n: &Vec<char>, i: usize) -> (r: bool)
    requires
        i + n@.len() <= h@.len(),
    ensures
        r == occurs_at(h@, n@, i as int),
{
    let total: usize = h.len();
    let mut j: usize = 0;
    while j < n.len()
        invariant
            j <= n@.len(),
            total == h@.len(),
            i + n@.len() <= h@.len(),
            forall|a: int| 0 <= a < j ==> h@[i + a] == #[trigger] n@[a],
        decreases n@.len() - j,
    {
        if h[i + j] != n[j] {
            proof {
                assert(h@.subrange(i as int, i + n@.len())[j as int] == h@[i + j]);
            }
            return false;
        }
        j = j + 1;
    }
    proof {
        assert(h@.subrange(i as int, i + n@.len()) =~= n@);
    }
    true
}

/// What follows `prefix`, if `s` starts with it.
pub fn strip_prefix<'a>(s: &'a str, prefix: &str) -> (r: Option<&'a str>)
    ensures
        r is Some <==> occurs_at(s@, prefix@, 0),
        r is Some ==> r->Some_0@ == s@.skip(prefix@.len() as int),
{
    let c: Vec<char> = to_chars(s);
    let p: Vec<char> = to_chars(prefix);
    if p.len() <= c.len() && matches_at(&c, &p, 0) {
        proof {
            assert(s@.subrange(p@.len() as int, s@.len() as int) =~= s@.skip(p@.len() as int));
        }
        Some(s.substring_char(p.len(), c.len()))
    } else {
        None
    }
}

/// What precedes `suffix`, if `s` ends with it.
pub fn strip_suffix<'a>(s: &'a str, suffix: &str) -> (r: Option<&'a str>)
    ensures
        r is Some <==> occurs_at(s@, suffix@, s@.len() - suffix@.len()),
        r is Some ==> r->Some_0@ == s@.take(s@.len() - suffix@.len()),
{
    let c: Vec<char> = to_chars(s);
    let p: Vec<char> = to_chars(suffix);
    if p.len() <= c.len() && matches_at(&c, &p, c.len() - p.len()) {
        proof {
            assert(s@.subrange(0, s@.len() - p@.len()) =~= s@.take(s@.len() - p@.len()));
        }
        Some(s.substring_char(0, c.len() - p.len()))
    } else {
        None
    }
}

/// The first position of `c`, if there is one.
pub fn find_char(s: &Vec<char>, c: char) -> (r: Option<usize>)
    ensures
        match r {
            Some(i) => i < s@.len() && find_from(s@, c, 0) == i && s@[i as int] == c,
            None => find_from(s@, c, 0) == s@.len(),
        },
{
    let mut i: usize = 0;
    while i < s.len()
        invariant
            i <= s@.len(),
            find_from(s@, c, 0) == find_from(s@, c, i as int),
        decreases s@.len() - i,
    {
        if s[i] == c {
            return Some(i);
        }
        i = i + 1;
    }
    None
}

/// The string of one digit.
fn digit_str(d: usize) -> (r: &'static str)
    requires
        d < 10,
    ensures
        r@ == seq![digit_char(d as nat)],
{
    match d {
        0 => {
            proof {
                reveal_strlit("0");
            }
            "0"
        },
        1 => {
            proof {
                reveal_strlit("1");
            }
            "1"
        },
        2 => {
            proof {
                reveal_strlit("2");
            }
            "2"
        },
        3 => {
            proof {
                reveal_strlit("3");
            }
            "3"
        },
        4 => {
            proof {
                reveal_strlit("4");
            }
            "4"
        },
        5 => {
            proof {
                reveal_strlit("5");
            }
            "5"
        },
        6 => {
            proof {
                reveal_strlit("6");
            }
            "6"
        },
        7 => {
            proof {
                reveal_strlit("7");
            }
            "7"
        },
        8 => {
            proof {
                reveal_strlit("8");
            }
            "8"
        },
        _ => {
            proof {
                reveal_strlit("9");
            }
            "9"
        },
    }
}

/// The decimal representation of a number.
pub fn decimal_string(n: usize) -> (r: String)
    ensures
        r@ == decimal(n as nat),
    decreases n,
{
    if n < 10 {
        digit_str(n).to_owned()
    } else {
        let mut s: String = decimal_string(n / 10);
        s.append(digit_str(n % 10));
        s
    }
}

/// The value of a decimal digit.
fn digit_of(c: char) -> (r: Option<usize>)
    ensures
        r is Some <==> is_digit(c),
        r is Some ==> r->Some_0 == c as int - 0x30 && r->Some_0 < 10,
{
    let d: u32 = c as u32;
    if 0x30 <= d && d <= 0x39 {
        Some((d - 0x30) as usize)
    } else {
        None
    }
}

/// Reads a word-sized decimal number.
pub fn parse_usize(s: &str) -> (r: Option<usize>)
    ensures
        match r {
            Some(n) => parsed(s@) == Some(n as nat),
            None => parsed(s@) is None,
        },
{
    let c: Vec<char> = to_chars(s);
    let start: usize = if c.len() > 0 && c[0] == '+' {
        1
    } else {
        0
    };
    let ghost t = c@.skip(start as int);
    proof {
        assert(c@.skip(0) =~= c@);
    }
    if start == c.len() {
        return None;
    }
    let mut v: usize = 0;
    let mut over: bool = false;
    let mut i: usize = start;
    proof {
        assert(t.take(0) =~= Seq::<char>::empty());
    }
    while i < c.len()
        invariant
            start <= i <= c@.len(),
            c@ == s@,
            t == c@.skip(start as int),
            start == if s@.len() > 0 && s@[0] == '+' {
                1int
            } else {
                0
            },
            parsed(s@) == (if t.len() > 0 && all_digits(t) && digits_value(t) <= usize::MAX {
                Some(digits_value(t))
            } else {
                None::<nat>
            }),
            forall|a: int| 0 <= a < i - start ==> is_digit(#[trigger] t[a]),
            !over ==> v == digits_value(t.take(i - start)),
            over ==> digits_value(t.take(i - start)) > usize::MAX,
        decreases c@.len() - i,
    {
        let ch: char = c[i];
        proof {
            assert(t[i - start] == ch);
        }
        let digit: usize = match digit_of(ch) {
            Some(d) => d,
            None => {
                return None;
            },
        };
        proof {
            let next = t.take(i - start + 1);
            assert(next.drop_last() =~= t.take(i - start));
            assert(next.last() == ch);
        }
        if !over {
            if v > (usize::MAX - digit) / 10 {
                over = true;
            } else {
                v = v * 10 + digit;
            }
        }
        i = i + 1;
    }
    proof {
        assert(t.take(t.len() as int) =~= t);
    }
    if over {
        None
    } else {
        Some(v)
    }
}

/// Decimal numbers read back.
pub proof fn law_decimal_parses_back(n: nat)
    requires
        n <= usize::MAX,
    ensures
        parsed(decimal(n)) == Some(n),
{
    lemma_decimal_digits(n);
    let s = decimal(n);
    assert(is_digit(s[0]));
}

/// Every character of a decimal number is a digit, and its value is the number.
pub proof fn lemma_decimal_digits(n: nat)
    ensures
        decimal(n).len() > 0,
        all_digits(decimal(n)),
        digits_value(decimal(n)) == n,
    decreases n,
{
    if n < 10 {
        let s = decimal(n);
        assert(s.drop_last() =~= Seq::<char>::empty());
        assert(digits_value(Seq::<char>::empty()) == 0);
        assert(s.last() as int == 0x30 + n);
    } else {
        lemma_decimal_digits(n / 10);
        let s = decimal(n);
        assert(s.drop_last() =~= decimal(n / 10));
        assert(s.last() as int == 0x30 + n % 10);
        assert forall|i: int| 0 <= i < s.len() implies is_digit(#[trigger] s[i]) by {
            if i < s.len() - 1 {
                assert(s[i] == decimal(n / 10)[i]);
            }
        }
    }
}

/// Whether one of the strings is `name`.
pub open spec fn listed(names: Seq<String>, name: Seq<char>) -> bool {
    exists|i: int| 0 <= i < names.len() && #[trigger] names[i]@ == name
}

/// Looks a name up.
pub fn is_listed(names: &Vec<String>, name: &str) -> (r: bool)
    ensures
        r == listed(names@, name@),
{
    let key: String = name.to_owned();
    let mut i: usize = 0;
    while i < names.len()
        invariant
            i <= names@.len(),
            key@ == name@,
            forall|j: int| 0 <= j < i ==> #[trigger] names@[j]@ != name@,
        decreases names@.len() - i,
    {
        if names[i] == key {
            return true;
        }
        i = i + 1;
    }
    false
}

/// What is found is the first place of the character: it stands there and nowhere before.
pub proof fn law_found_is_the_first(s: Seq<char>, c: char, i: int, j: int)
    requires
        0 <= i <= s.len(),
    ensures
        i <= find_from(s, c, i) <= s.len(),
        find_from(s, c, i) < s.len() ==> s[find_from(s, c, i)] == c,
        i <= j < find_from(s, c, i) ==> s[j] != c,
    decreases s.len() - i,
{
    if i < s.len() && s[i] != c {
        law_found_is_the_first(s, c, i + 1, j);
    }
}

/// A number may be written with a plus sign and with leading zeros; any other character,
/// or none at all, makes it no number.
pub proof fn law_numbers_are_read(s: Seq<char>, i: int)
    ensures
        parsed(Seq::<char>::empty()) is None,
        s.len() > 0 && is_digit(s[0]) ==> parsed(seq!['+'] + s) == parsed(s),
        s.len() > 0 && is_digit(s[0]) ==> parsed(seq!['0'] + s) == parsed(s),
        1 <= i < s.len() && !is_digit(s[i]) ==> parsed(s) is None,
        is_digit('0') && is_digit('9') && !is_digit('.') && !is_digit('+') && !is_digit('-'),
{
    if s.len() > 0 && is_digit(s[0]) {
        let p = seq!['+'] + s;
        let z = seq!['0'] + s;
        assert(p[0] == '+');
        assert(p.skip(1) =~= s);
        assert(s[0] != '+');
        assert(z[0] == '0');
        lemma_leading_zero(s);
        assert(all_digits(s) ==> all_digits(z));
        if all_digits(z) {
            assert forall|a: int| 0 <= a < s.len() implies is_digit(#[trigger] s[a]) by {
                assert(z[a + 1] == s[a]);
            }
        }
    }
    if 1 <= i < s.len() && !is_digit(s[i]) {
        let t = if s[0] == '+' {
            s.skip(1)
        } else {
            s
        };
        let k = if s[0] == '+' {
            i - 1
        } else {
            i
        };
        assert(t[k] == s[i]);
    }
}

proof fn lemma_leading_zero(s: Seq<char>)
    ensures
        digits_value(seq!['0'] + s) == digits_value(s),
    decreases s.len(),
{
    let z = seq!['0'] + s;
    if s.len() == 0 {
        assert(z.drop_last() =~= Seq::<char>::empty());
        assert(z.last() == '0');
        assert(digits_value(Seq::<char>::empty()) == 0);
    } else {
        lemma_leading_zero(s.drop_last());
        assert(z.drop_last() =~= seq!['0'] + s.drop_last());
        assert(z.last() == s.last());
    }
}

/// Decimal is place by place: the digits of `10 * n + d` are those of `n` with `d` behind
/// them, and a single digit is itself.
pub proof fn law_decimal_digits(n: nat, d: nat)
    requires
        d < 10,
    ensures
        decimal(d).len() == 1,
        decimal(d)[0] as int == 0x30 + d,
        n > 0 ==> decimal(10 * n + d) == decimal(n) + decimal(d),
{
    if n > 0 {
        assert((10 * n + d) / 10 == n && (10 * n + d) % 10 == d);
        assert(decimal(10 * n + d) =~= decimal(n) + decimal(d));
    }
}

} // verus!
