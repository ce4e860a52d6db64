//! The text form of a coordinate: `x`, a hyphen, `y`, both in decimal, as in
//! `"3-14"`. It is what a move is sent as and what names a cell on a page.
//!
//! Reading is as lenient as reading an integer usually is: each number may
//! have leading zeros and a plus sign in front. Writing produces neither.

use vstd::prelude::*;
use vstd::string::*;
use crate::game::point::Point;

verus! {

/// Why a text is not a coordinate.
#[derive(Debug, Clone, Copy, PartialEq, Eq, Structural)]
pub enum ParseError {
    /// The text holds no hyphen.
    MissingSeparator,
    /// What stands before the first hyphen is not a number from 0 to 255.
    InvalidX,
    /// What stands after the first hyphen is not a number from 0 to 255.
    InvalidY,
}

/// The character of the decimal digit `d`.
pub open spec fn digit(d: nat) -> char {
    (48 + d) as char
}

pub open spec fn is_digit(c: char) -> bool {
    48 <= c as int <= 57
}

/// The value of the decimal digit `c`.
pub open spec fn digit_value(c: char) -> nat {
    (c as int - 48) as nat
}

/// `n` in decimal, without leading zeros.
pub open spec fn decimal(n: nat) -> Seq<char>
    decreases n,
{
    if n < 10 {
        seq![digit(n)]
    } else {
        decimal(n / 10).push(digit(n % 10))
    }
}

pub open spec fn all_digits(s: Seq<char>) -> bool {
    forall|i: int| 0 <= i < s.len() ==> is_digit(#[trigger] s[i])
}

/// The number that the decimal digits of `s` stand for.
pub open spec fn digits_value(s: Seq<char>) -> nat
    decreases s.len(),
{
    if s.len() == 0 {
        0
    } else {
        digits_value(s.drop_last()) * 10 + digit_value(s.last())
    }
}

/// `s` without the plus sign in front, if it has one.
pub open spec fn unsigned(s: Seq<char>) -> Seq<char> {
    if s.len() > 0 && s[0] == '+' {
        s.subrange(1, s.len() as int)
    } else {
        s
    }
}

/// The coordinate that `s` stands for: an optional plus sign, then one or
/// more decimal digits whose value is at most 255.
pub open spec fn coordinate(s: Seq<char>) -> Option<u8> {
    let body = unsigned(s);
    if body.len() > 0 && all_digits(body) && digits_value(body) <= 255 {
        Some(digits_value(body) as u8)
    } else {
        None
    }
}

/// The index of the first hyphen of `s` from `i` on.
pub open spec fn first_hyphen(s: Seq<char>, i: int) -> Option<int>
    decreases s.len() - i,
{
    if i < 0 || i >= s.len() {
        None
    } else if s[i] == '-' {
        Some(i)
    } else {
        first_hyphen(s, i + 1)
    }
}

/// The text form of `p`.
pub open spec fn notation(p: Point) -> Seq<char> {
    decimal(p.x as nat) + seq!['-'] + decimal(p.y as nat)
}

/// What the text `s` reads as: it is split at its first hyphen, and each
/// part must be a coordinate.
pub open spec fn parsed(s: Seq<char>) -> Result<Point, ParseError> {
    match first_hyphen(s, 0) {
        None => Err(ParseError::MissingSeparator),
        Some(i) => match coordinate(s.subrange(0, i)) {
            None => Err(ParseError::InvalidX),
            Some(x) => match coordinate(s.subrange(i + 1, s.len() as int)) {
                None => Err(ParseError::InvalidY),
                Some(y) => Ok(Point { x, y }),
            },
        },
    }
}

/// `decimal(n)` is a run of digits, not empty, that stands for `n`.
pub proof fn lemma_decimal(n: nat)
    ensures
        decimal(n).len() > 0,
        all_digits(decimal(n)),
        digits_value(decimal(n)) == n,
    decreases n,
{
    if n < 10 {
        let s = seq![digit(n)];
        assert(s.drop_last() =~= Seq::<char>::empty());
        assert(digits_value(s.drop_last()) == 0);
        assert(s.last() == digit(n));
    } else {
        lemma_decimal(n / 10);
        let s = decimal(n);
        assert(s.drop_last() =~= decimal(n / 10));
        assert(s.last() == digit(n % 10));
    }
}

/// Where a text has no hyphen before index `at` and one at `at`, its first
/// hyphen from any `i <= at` on is the one at `at`.
proof fn lemma_first_hyphen(s: Seq<char>, at: int, i: int)
    requires
        0 <= i <= at < s.len(),
        s[at] == '-',
        forall|j: int| 0 <= j < at ==> s[j] != '-',
    ensures
        first_hyphen(s, i) == Some(at),
    decreases at - i,
{
    if i < at {
        lemma_first_hyphen(s, at, i + 1);
    }
}

/// Reading what was written gives the coordinate back.
pub proof fn lemma_round_trip(p: Point)
    ensures
        parsed(notation(p)) == Ok::<Point, ParseError>(p),
{
    let a = decimal(p.x as nat);
    let b = decimal(p.y as nat);
    let s = notation(p);
    lemma_decimal(p.x as nat);
    lemma_decimal(p.y as nat);
    assert forall|j: int| 0 <= j < a.len() implies s[j] != '-' by {
        assert(s[j] == a[j]);
        assert(is_digit(a[j]));
    }
    assert(s[a.len() as int] == '-');
    lemma_first_hyphen(s, a.len() as int, 0);
    assert(s.subrange(0, a.len() as int) =~= a);
    assert(s.subrange(a.len() as int + 1, s.len() as int) =~= b);
    assert(is_digit(a[0]) && is_digit(b[0]));
    assert(unsigned(a) == a && unsigned(b) == b);
}

/// The characters of `s`, in order.
fn chars_of(s: &str) -> (v: Vec<char>)
    ensures
        v@ == s@,
{
    let mut v: Vec<char> = Vec::new();
    for c in it: s.chars()
        invariant
            it.seq() == s@,
            v@ == it.seq().take(it.index() as int),
    {
        v.push(c);
        assert(v@ =~= it.seq().take(it.index() + 1));
    }
    assert(v@ =~= s@);
    v
}

/// The value of `c` if it is a decimal digit.
fn digit_of(c: char) -> (r: Option<u8>)
    ensures
        r is Some <==> is_digit(c),
        r is Some ==> r->0 == digit_value(c),
{
    if c == '0' {
        Some(0)
    } else if c == '1' {
        Some(1)
    } else if c == '2' {
        Some(2)
    } else if c == '3' {
        Some(3)
    } else if c == '4' {
        Some(4)
    } else if c == '5' {
        Some(5)
    } else if c == '6' {
        Some(6)
    } else if c == '7' {
        Some(7)
    } else if c == '8' {
        Some(8)
    } else if c == '9' {
        Some(9)
    } else {
        None
    }
}

/// Reads the characters `from .. to` of `text` as a coordinate.
#[verifier::loop_isolation(false)]
fn read_coordinate(text: &Vec<char>, from: usize, to: usize) -> (r: Option<u8>)
    requires
        from <= to <= text@.len(),
    ensures
        r == coordinate(text@.subrange(from as int, to as int)),
{
    let ghost part = text@.subrange(from as int, to as int);
    let start = if from < to && text[from] == '+' {
        from + 1
    } else {
        from
    };
    let ghost body = unsigned(part);
    assert(body =~= text@.subrange(start as int, to as int));
    if start == to {
        return None;
    }
    let mut value: u32 = 0;
    let mut k: usize = start;
    assert(body.take(0) =~= Seq::<char>::empty());
    while k < to
        invariant
            start <= k <= to <= text@.len(),
            body == text@.subrange(start as int, to as int),
            all_digits(body.take(k - start)),
            value <= 256,
            value <= 255 ==> value == digits_value(body.take(k - start)),
            value == 256 ==> digits_value(body.take(k - start)) > 255,
        decreases to - k,
    {
        let c = text[k];
        proof {
            let head = body.take(k - start);
            let next = body.take(k - start + 1);
            assert(body[k - start] == c);
            assert(next.drop_last() =~= head);
            assert(next.last() == c);
            assert(digits_value(next) == digits_value(head) * 10 + digit_value(c));
            if !is_digit(c) {
                assert(!is_digit(body[k - start]));
                assert(!all_digits(body));
            }
            assert forall|i: int| 0 <= i < next.len() && is_digit(c) implies is_digit(#[trigger] next[i]) by {
                if i < head.len() {
                    assert(next[i] == head[i]);
                }
            }
        }
        let d = match digit_of(c) {
            None => {
                return None;
            },
            Some(d) => d,
        };
        if value <= 255 {
            value = value * 10 + d as u32;
            if value > 255 {
                value = 256;
            }
        }
        k = k + 1;
    }
    assert(body.take(to - start) =~= body);
    if value <= 255 {
        Some(value as u8)
    } else {
        None
    }
}

/// The one-character text of the decimal digit `d`.
fn digit_str(d: u8) -> (s: &'static str)
    requires
        d < 10,
    ensures
        s@ == seq![digit(d as nat)],
{
    proof {
        reveal_strlit("0");
        reveal_strlit("1");
        reveal_strlit("2");
        reveal_strlit("3");
        reveal_strlit("4");
        reveal_strlit("5");
        reveal_strlit("6");
        reveal_strlit("7");
        reveal_strlit("8");
        reveal_strlit("9");
    }
    let s = match d {
        0 => "0",
        1 => "1",
        2 => "2",
        3 => "3",
        4 => "4",
        5 => "5",
        6 => "6",
        7 => "7",
        8 => "8",
        _ => "9",
    };
    assert(s@ =~= seq![digit(d as nat)]);
    s
}

/// Appends `n` in decimal to `out`.
fn push_decimal(out: &mut String, n: u8)
    ensures
        final(out)@ == old(out)@ + decimal(n as nat),
{
    proof {
        let n = n as nat;
        assert(decimal(n % 10) == seq![digit(n % 10)]);
        if n >= 10 {
            assert(decimal(n) == decimal(n / 10).push(digit(n % 10)));
            if n >= 100 {
                assert(decimal(n / 10) == decimal(n / 100).push(digit((n / 10) % 10)));
                assert(decimal(n / 100) == seq![digit(n / 100)]);
            } else {
                assert(decimal(n / 10) == seq![digit(n / 10)]);
            }
        }
    }
    if n >= 100 {
        out.append(digit_str(n / 100));
    }
    if n >= 10 {
        out.append(digit_str((n / 10) % 10));
    }
    out.append(digit_str(n % 10));
    assert(out@ =~= old(out)@ + decimal(n as nat));
}

impl Point {
    /// Writes the point as `x-y`.
    pub fn to_string(&self) -> (r: String)
        ensures
            r@ == notation(*self),
    {
        let mut out = String::new();
        push_decimal(&mut out, self.x);
        proof {
            reveal_strlit("-");
        }
        out.append("-");
        push_decimal(&mut out, self.y);
        assert(out@ =~= notation(*self)) by {
            assert("-"@ =~= seq!['-']);
        }
        out
    }

    /// Reads a point written as `x-y`.
    ///
    /// The text is split at its first hyphen. A text without a hyphen is
    /// refused with `MissingSeparator`; otherwise a first part that is not a
    /// number from 0 to 255 is refused with `InvalidX`, and otherwise such a
    /// second part with `InvalidY`.
    pub fn parse(s: &str) -> (r: Result<Point, ParseError>)
        ensures
            r == parsed(s@),
    {
        let text = chars_of(s);
        let n = text.len();
        let mut i: usize = 0;
        while i < n && text[i] != '-'
            invariant
                i <= n,
                n == text@.len(),
                first_hyphen(text@, 0) == first_hyphen(text@, i as int),
            decreases n - i,
        {
            i = i + 1;
        }
        if i == n {
            return Err(ParseError::MissingSeparator);
        }
        let x = match read_coordinate(&text, 0, i) {
            None => {
                return Err(ParseError::InvalidX);
            },
            Some(x) => x,
        };
        let y = match read_coordinate(&text, i + 1, n) {
            None => {
                return Err(ParseError::InvalidY);
            },
            Some(y) => y,
        };
        Ok(Point { x, y })
    }
}

impl std::str::FromStr for Point {
    type Err = ParseError;

    fn from_str(s: &str) -> (r: Result<Self, Self::Err>)
        ensures
            r == parsed(s@),
    {
        Point::parse(s)
    }
}

} // verus!
