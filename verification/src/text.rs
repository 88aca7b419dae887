//! Reading and writing short texts: decimal numbers, and words between commas.

use vstd::prelude::*;
use vstd::string::*;

verus! {

pub fn same_text(a: &str, b: &str) -> (r: bool)
    ensures
        r == (a@ == b@),
{
    a.to_owned() == b.to_owned()
}

// --- numbers ---------------------------------------------------------------
pub open spec fn is_digit(c: char) -> bool {
    '0' as u32 <= c as u32 <= '9' as u32
}

pub open spec fn digit_value(c: char) -> int {
    c as u32 - '0' as u32
}

/// The number that the first `n` characters from `from` on spell.
pub open spec fn spelled(s: Seq<char>, from: int, n: nat) -> nat
    decreases n,
{
    if n == 0 {
        0
    } else {
        (spelled(s, from, (n - 1) as nat) * 10 + digit_value(s[from + n - 1])) as nat
    }
}

/// All characters from `from` on are digits, and there is at least one.
pub open spec fn all_digits(s: Seq<char>, from: int) -> bool {
    from < s.len() && forall|i: int| from <= i < s.len() ==> is_digit(#[trigger] s[i])
}

/// Where the digits of a number without a minus sign start: behind a plus sign
/// or at once.
pub open spec fn digits_start(s: Seq<char>) -> int {
    if s.len() > 0 && s[0] == '+' {
        1
    } else {
        0
    }
}

/// The number that a text stands for: digits, with a plus sign in front if
/// there is any.
pub open spec fn number_in(s: Seq<char>) -> Option<nat> {
    let from = digits_start(s);
    if all_digits(s, from) {
        Some(spelled(s, from, (s.len() - from) as nat))
    } else {
        None
    }
}

proof fn lemma_spelled_grows(s: Seq<char>, from: int, k: nat, n: nat)
    requires
        k <= n,
        0 <= from,
        from + n <= s.len(),
        forall|i: int| from <= i < s.len() ==> is_digit(#[trigger] s[i]),
    ensures
        spelled(s, from, k) <= spelled(s, from, n),
    decreases n,
{
    if k < n {
        lemma_spelled_grows(s, from, k, (n - 1) as nat);
        assert(is_digit(s[from + n - 1]));
    }
}

fn read_digits(s: &str, from: usize) -> (r: Option<u64>)
    requires
        from <= s@.len(),
    ensures
        match r {
            Some(v) => all_digits(s@, from as int) && v == spelled(
                s@,
                from as int,
                (s@.len() - from) as nat,
            ),
            None => !all_digits(s@, from as int) || spelled(
                s@,
                from as int,
                (s@.len() - from) as nat,
            ) > u64::MAX,
        },
{
    let n: usize = s.unicode_len();
    if from >= n {
        return None;
    }
    let mut i: usize = from;
    while i < n
        invariant
            from <= i <= n,
            n == s@.len(),
            forall|j: int| from <= j < i ==> is_digit(#[trigger] s@[j]),
        decreases n - i,
    {
        let c: char = s.get_char(i);
        if c < '0' || c > '9' {
            assert(!is_digit(s@[i as int]));
            return None;
        }
        i += 1;
    }
    let mut v: u64 = 0;
    let mut i: usize = from;
    while i < n
        invariant
            from <= i <= n,
            n == s@.len(),
            forall|j: int| from <= j < n ==> is_digit(#[trigger] s@[j]),
            v == spelled(s@, from as int, (i - from) as nat),
        decreases n - i,
    {
        let c: char = s.get_char(i);
        assert(is_digit(s@[i as int]));
        let d: u64 = (c as u32 - '0' as u32) as u64;
        let next: u128 = v as u128 * 10 + d as u128;
        assert(next == spelled(s@, from as int, (i + 1 - from) as nat));
        if next > 18_446_744_073_709_551_615 {
            proof {
                lemma_spelled_grows(
                    s@,
                    from as int,
                    (i + 1 - from) as nat,
                    (n - from) as nat,
                );
            }
            return None;
        }
        v = next as u64;
        i += 1;
    }
    Some(v)
}

/// The number that a text stands for, where it is at most `most`.
pub fn read_number(s: &str, most: u64) -> (r: Option<u64>)
    ensures
        match r {
            Some(v) => number_in(s@) == Some(v as nat) && v <= most,
            None => match number_in(s@) {
                Some(v) => v > most,
                None => true,
            },
        },
{
    let from: usize = if s.unicode_len() > 0 && s.get_char(0) == '+' {
        1
    } else {
        0
    };
    match read_digits(s, from) {
        Some(v) => {
            if v <= most {
                Some(v)
            } else {
                None
            }
        },
        None => None,
    }
}

/// The whole number that a text with an optional sign stands for, where its
/// digits spell no more than the largest `i64`.
pub open spec fn signed_in(s: Seq<char>) -> Option<int> {
    if s.len() > 0 && s[0] == '-' {
        if all_digits(s, 1) && spelled(s, 1, (s.len() - 1) as nat) <= i64::MAX {
            Some(-(spelled(s, 1, (s.len() - 1) as nat) as int))
        } else {
            None
        }
    } else {
        match number_in(s) {
            Some(v) => if v <= i64::MAX {
                Some(v as int)
            } else {
                None
            },
            None => None,
        }
    }
}

pub fn read_signed(s: &str) -> (r: Option<i64>)
    ensures
        match r {
            Some(v) => signed_in(s@) == Some(v as int),
            None => signed_in(s@) is None,
        },
{
    let most: u64 = 0x7FFF_FFFF_FFFF_FFFF;
    if s.unicode_len() > 0 && s.get_char(0) == '-' {
        match read_digits(s, 1) {
            Some(v) => {
                if v <= most {
                    Some(-(v as i64))
                } else {
                    None
                }
            },
            None => None,
        }
    } else {
        match read_number(s, most) {
            Some(v) => Some(v as i64),
            None => None,
        }
    }
}

pub open spec fn digit_text(d: int) -> Seq<char> {
    if d == 0 {
        "0"@
    } else if d == 1 {
        "1"@
    } else if d == 2 {
        "2"@
    } else if d == 3 {
        "3"@
    } else if d == 4 {
        "4"@
    } else if d == 5 {
        "5"@
    } else if d == 6 {
        "6"@
    } else if d == 7 {
        "7"@
    } else if d == 8 {
        "8"@
    } else {
        "9"@
    }
}

/// A number in decimal digits, at least `width` of them.
pub open spec fn padded(n: nat, width: nat) -> Seq<char>
    decreases n, width,
{
    if n < 10 && width <= 1 {
        digit_text(n as int)
    } else {
        padded(
            n / 10,
            if width > 0 {
                (width - 1) as nat
            } else {
                0
            },
        ) + digit_text((n % 10) as int)
    }
}

fn write_digit(d: u64) -> (r: &'static str)
    requires
        d < 10,
    ensures
        r@ == digit_text(d as int),
{
    match d {
        0 => "0",
        1 => "1",
        2 => "2",
        3 => "3",
        4 => "4",
        5 => "5",
        6 => "6",
        7 => "7",
        8 => "8",
        _ => "9",
    }
}

/// A number in decimal digits, at least `width` of them.
pub fn write_padded(n: u64, width: u8) -> (r: String)
    ensures
        r@ == padded(n as nat, width as nat),
    decreases n, width,
{
    if n < 10 && width <= 1 {
        return write_digit(n).to_owned();
    }
    let less: u8 = if width > 0 {
        width - 1
    } else {
        0
    };
    let mut text = write_padded(n / 10, less);
    text.append(write_digit(n % 10));
    text
}

// --- words -----------------------------------------------------------------
/// The characters with the Unicode property `White_Space`.
pub open spec fn is_space(c: char) -> bool {
    let u = c as u32;
    0x09 <= u <= 0x0D || u == 0x20 || u == 0x85 || u == 0xA0 || u == 0x1680 || 0x2000 <= u
        <= 0x200A || u == 0x2028 || u == 0x2029 || u == 0x202F || u == 0x205F || u == 0x3000
}

fn space(c: char) -> (r: bool)
    ensures
        r == is_space(c),
{
    let u: u32 = c as u32;
    (0x09 <= u && u <= 0x0D) || u == 0x20 || u == 0x85 || u == 0xA0 || u == 0x1680 || (0x2000 <= u
        && u <= 0x200A) || u == 0x2028 || u == 0x2029 || u == 0x202F || u == 0x205F || u == 0x3000
}

/// The first place from `i` on, and before `end`, that is no space.
pub open spec fn solid_from(s: Seq<char>, i: int, end: int) -> int
    decreases end - i,
{
    if i >= end || !is_space(s[i]) {
        i
    } else {
        solid_from(s, i + 1, end)
    }
}

/// The end of the text before `end`, and behind `start`, without the spaces at
/// its end.
pub open spec fn solid_until(s: Seq<char>, start: int, end: int) -> int
    decreases end - start,
{
    if end <= start || !is_space(s[end - 1]) {
        end
    } else {
        solid_until(s, start, end - 1)
    }
}

/// The text between two places, without the spaces around it.
pub open spec fn trimmed(s: Seq<char>, from: int, end: int) -> Seq<char> {
    let a = solid_from(s, from, end);
    s.subrange(a, solid_until(s, a, end))
}

pub fn trim_between(s: &str, from: usize, end: usize) -> (r: &str)
    requires
        from <= end <= s@.len(),
    ensures
        r@ == trimmed(s@, from as int, end as int),
{
    let mut a: usize = from;
    while a < end && space(s.get_char(a))
        invariant
            from <= a <= end <= s@.len(),
            solid_from(s@, from as int, end as int) == solid_from(s@, a as int, end as int),
        decreases end - a,
    {
        a += 1;
    }
    let mut b: usize = end;
    while b > a && space(s.get_char(b - 1))
        invariant
            a <= b <= end <= s@.len(),
            solid_until(s@, a as int, end as int) == solid_until(s@, a as int, b as int),
        decreases b,
    {
        b -= 1;
    }
    s.substring_char(a, b)
}

/// The first comma from `i` on, or the end of the text.
pub open spec fn comma_from(s: Seq<char>, i: int) -> int
    decreases s.len() - i,
{
    if i >= s.len() || s[i] == ',' {
        i
    } else {
        comma_from(s, i + 1)
    }
}

pub proof fn lemma_comma_is_ahead(s: Seq<char>, i: int)
    ensures
        i <= comma_from(s, i),
    decreases s.len() - i,
{
    if !(i >= s.len() || s[i] == ',') {
        lemma_comma_is_ahead(s, i + 1);
    }
}

pub fn find_comma(s: &str, from: usize) -> (r: usize)
    requires
        from <= s@.len(),
    ensures
        r == comma_from(s@, from as int),
        from <= r <= s@.len(),
{
    let n: usize = s.unicode_len();
    let mut i: usize = from;
    while i < n && s.get_char(i) != ','
        invariant
            from <= i <= n,
            n == s@.len(),
            comma_from(s@, from as int) == comma_from(s@, i as int),
        decreases n - i,
    {
        i += 1;
    }
    i
}

// --- laws ------------------------------------------------------------------
proof fn lemma_spelled_prefix(s: Seq<char>, t: Seq<char>, n: nat)
    requires
        n <= s.len(),
        n <= t.len(),
        forall|i: int| 0 <= i < n ==> s[i] == t[i],
    ensures
        spelled(s, 0, n) == spelled(t, 0, n),
    decreases n,
{
    if n > 0 {
        lemma_spelled_prefix(s, t, (n - 1) as nat);
    }
}

/// A number is read back from its digits, however many zeros lead them.
pub proof fn numbers_round_trip(n: nat, width: nat)
    ensures
        all_digits(padded(n, width), 0),
        spelled(padded(n, width), 0, padded(n, width).len()) == n,
        padded(n, width).len() >= width,
    decreases n, width,
{
    reveal_strlit("0");
    reveal_strlit("1");
    reveal_strlit("2");
    reveal_strlit("3");
    reveal_strlit("4");
    reveal_strlit("5");
    reveal_strlit("6");
    reveal_strlit("7");
    reveal_strlit("8");
    reveal_strlit("9");
    let last = digit_text((n % 10) as int);
    assert(last.len() == 1 && is_digit(last[0]) && digit_value(last[0]) == n % 10);
    let s = padded(n, width);
    if n < 10 && width <= 1 {
        assert(s.len() == 1);
        assert(spelled(s, 0, 0) == 0);
        assert(spelled(s, 0, 1) == n);
    } else {
        let less = if width > 0 {
            (width - 1) as nat
        } else {
            0
        };
        numbers_round_trip(n / 10, less);
        let t = padded(n / 10, less);
        assert(s == t + last);
        assert forall|i: int| 0 <= i < s.len() implies is_digit(#[trigger] s[i]) by {
            if i < t.len() {
                assert(s[i] == t[i]);
                assert(is_digit(t[i]));
            } else {
                assert(s[i] == last[0]);
            }
        }
        lemma_spelled_prefix(s, t, t.len());
        assert(s[t.len() as int] == last[0]);
        assert(s.len() == t.len() + 1);
    }
}

} // verus!
