//! Names of files as bytes: the pieces between separators, and the numbers
//! written in them.

use vstd::prelude::*;
use vstd::slice::slice_subrange;

verus! {

/// The number of bytes of `s` before the first `sep`: all of them where
/// there is none.
pub open spec fn run(s: Seq<u8>, sep: u8) -> int
    decreases s.len(),
{
    if s.len() == 0 || s[0] == sep {
        0
    } else {
        1 + run(s.drop_first(), sep)
    }
}

/// The piece with the number `n`, from 0, of the pieces that the
/// separators `sep` cut `s` into. A text without separators is one piece.
pub open spec fn piece(s: Seq<u8>, sep: u8, n: nat) -> Option<Seq<u8>>
    decreases n,
{
    if n == 0 {
        Some(s.take(run(s, sep)))
    } else if run(s, sep) >= s.len() {
        None
    } else {
        piece(s.skip(run(s, sep) + 1), sep, (n - 1) as nat)
    }
}

/// `run` stops at the first separator or at the end.
pub proof fn lemma_run(s: Seq<u8>, sep: u8)
    ensures
        0 <= run(s, sep) <= s.len(),
        forall|i: int| 0 <= i < run(s, sep) ==> s[i] != sep,
        run(s, sep) < s.len() ==> s[run(s, sep)] == sep,
    decreases s.len(),
{
    if s.len() == 0 || s[0] == sep {
    } else {
        let rest = s.drop_first();
        lemma_run(rest, sep);
        assert forall|i: int| 0 <= i < run(s, sep) implies s[i] != sep by {
            if i > 0 {
                assert(rest[i - 1] == s[i]);
            }
        }
        if run(s, sep) < s.len() {
            assert(rest[run(rest, sep)] == s[run(s, sep)]);
        }
    }
}

/// A place that no separator stands before, and at which the text ends or
/// a separator stands, is where `run` stops.
pub proof fn lemma_run_is(s: Seq<u8>, sep: u8, n: int)
    requires
        0 <= n <= s.len(),
        forall|i: int| 0 <= i < n ==> s[i] != sep,
        n < s.len() ==> s[n] == sep,
    ensures
        run(s, sep) == n,
{
    lemma_run(s, sep);
    let r = run(s, sep);
    if r < n {
        assert(s[r] == sep);
    } else if n < r {
        assert(s[n] != sep);
    }
}

/// The piece with the number `n` of the pieces that the separators `sep`
/// cut `bytes` into.
pub fn piece_of(bytes: &[u8], sep: u8, n: usize) -> (r: Option<&[u8]>)
    ensures
        r is Some == piece(bytes@, sep, n as nat) is Some,
        r matches Some(p) ==> piece(bytes@, sep, n as nat) == Some(p@),
{
    let len = bytes.len();
    let mut start: usize = 0;
    let mut left: usize = n;
    proof {
        assert(bytes@.skip(0) =~= bytes@);
    }
    loop
        invariant
            len == bytes@.len(),
            start <= len,
            left <= n,
            piece(bytes@, sep, n as nat) == piece(bytes@.skip(start as int), sep, left as nat),
        decreases left, len - start,
    {
        let ghost rest = bytes@.skip(start as int);
        let mut end: usize = start;
        while end < len && bytes[end] != sep
            invariant
                start <= end <= len,
                len == bytes@.len(),
                forall|i: int| start <= i < end ==> bytes@[i] != sep,
            decreases len - end,
        {
            end += 1;
        }
        proof {
            assert forall|i: int| 0 <= i < end - start implies rest[i] != sep by {
                assert(rest[i] == bytes@[start + i]);
            }
            if end < len {
                assert(rest[end - start] == bytes@[end as int]);
            }
            lemma_run_is(rest, sep, end - start);
        }
        if left == 0 {
            let found = slice_subrange(bytes, start, end);
            proof {
                assert(found@ =~= rest.take(end - start));
            }
            return Some(found);
        }
        if end >= len {
            return None;
        }
        proof {
            assert(rest.skip(end - start + 1) =~= bytes@.skip(end + 1));
        }
        start = end + 1;
        left = left - 1;
    }
}

/// Whether a byte is one of the digits `0` to `9`.
pub open spec fn is_digit(b: u8) -> bool {
    48 <= b <= 57
}

/// Whether a text is made of digits alone.
pub open spec fn all_digits(s: Seq<u8>) -> bool {
    forall|i: int| 0 <= i < s.len() ==> is_digit(#[trigger] s[i])
}

/// The number that digits write in base ten.
pub open spec fn digits_value(s: Seq<u8>) -> int
    decreases s.len(),
{
    if s.len() == 0 {
        0
    } else {
        digits_value(s.drop_last()) * 10 + (s.last() - 48)
    }
}

/// The number that a text writes: at least one digit, after a `+` if
/// there is one, or, where `signed` allows it, after a `-`. Nothing else
/// is a number: no blanks, no empty text, no sign alone.
pub open spec fn number(s: Seq<u8>, signed: bool) -> Option<int> {
    if s.len() > 0 && s[0] == 45 {
        if signed && s.len() > 1 && all_digits(s.drop_first()) {
            Some(-digits_value(s.drop_first()))
        } else {
            None
        }
    } else if s.len() > 0 && s[0] == 43 {
        if s.len() > 1 && all_digits(s.drop_first()) {
            Some(digits_value(s.drop_first()))
        } else {
            None
        }
    } else if s.len() > 0 && all_digits(s) {
        Some(digits_value(s))
    } else {
        None
    }
}

/// The number that a text writes, where it lies within `low..=high`.
pub open spec fn number_within(s: Seq<u8>, signed: bool, low: int, high: int) -> Option<int> {
    match number(s, signed) {
        Some(n) => if low <= n <= high {
            Some(n)
        } else {
            None
        },
        None => None,
    }
}

/// The largest bound that `parse_number` takes: numbers are told from
/// each other up to here.
pub const FAR: i64 = 0x100_0000_0000;

/// Reads the digits of `bytes` from `from` on. Returns the number they
/// write, or `FAR` where it is `FAR` or more, and nothing where a byte is
/// no digit.
fn parse_digits(bytes: &[u8], from: usize) -> (r: Option<i64>)
    requires
        from <= bytes@.len(),
    ensures
        r is Some == all_digits(bytes@.skip(from as int)),
        r matches Some(v) ==> 0 <= v <= FAR && (v < FAR ==> v == digits_value(
            bytes@.skip(from as int),
        )) && (v == FAR ==> digits_value(bytes@.skip(from as int)) >= FAR),
{
    let ghost digits = bytes@.skip(from as int);
    let mut acc: i64 = 0;
    let mut i: usize = from;
    proof {
        assert(digits.take(0) =~= Seq::<u8>::empty());
    }
    while i < bytes.len()
        invariant
            from <= i <= bytes@.len(),
            digits == bytes@.skip(from as int),
            all_digits(digits.take(i - from)),
            0 <= acc <= FAR,
            acc < FAR ==> acc == digits_value(digits.take(i - from)),
            acc == FAR ==> digits_value(digits.take(i - from)) >= FAR,
        decreases bytes@.len() - i,
    {
        let b = bytes[i];
        proof {
            assert(digits[i - from] == b);
            assert(digits.take(i - from + 1).drop_last() =~= digits.take(i - from));
            assert(digits.take(i - from + 1).last() == b);
        }
        if b < 48 || b > 57 {
            proof {
                assert(!is_digit(digits[i - from]));
            }
            return None;
        }
        proof {
            assert forall|k: int| 0 <= k < i - from + 1 implies is_digit(
                #[trigger] digits.take(i - from + 1)[k],
            ) by {
                if k < i - from {
                    assert(digits.take(i - from)[k] == digits.take(i - from + 1)[k]);
                }
            }
        }
        let next = acc * 10 + (b - 48) as i64;
        acc = if next >= FAR {
            FAR
        } else {
            next
        };
        i += 1;
    }
    proof {
        assert(digits.take(i - from) =~= digits);
    }
    Some(acc)
}

/// The number that `bytes` write, where it lies within `low..=high`.
pub fn parse_number(bytes: &[u8], signed: bool, low: i64, high: i64) -> (r: Option<i64>)
    requires
        -FAR < low,
        high < FAR,
    ensures
        r is Some == number_within(bytes@, signed, low as int, high as int) is Some,
        r matches Some(n) ==> number_within(bytes@, signed, low as int, high as int) == Some(
            n as int,
        ),
{
    if bytes.len() == 0 {
        return None;
    }
    let first = bytes[0];
    let sign = first == 45 || first == 43;
    if sign && bytes.len() == 1 {
        return None;
    }
    if first == 45 && !signed {
        return None;
    }
    proof {
        assert(bytes@.skip(1) =~= bytes@.drop_first());
        assert(bytes@.skip(0) =~= bytes@);
    }
    let from: usize = if sign {
        1
    } else {
        0
    };
    match parse_digits(bytes, from) {
        None => None,
        Some(v) => {
            if v >= FAR {
                return None;
            }
            let n = if first == 45 {
                -v
            } else {
                v
            };
            if low <= n && n <= high {
                Some(n)
            } else {
                None
            }
        },
    }
}

/// The hexadecimal digit for a number below 16.
pub open spec fn hex_digit(d: int) -> char {
    if d == 0 {
        '0'
    } else if d == 1 {
        '1'
    } else if d == 2 {
        '2'
    } else if d == 3 {
        '3'
    } else if d == 4 {
        '4'
    } else if d == 5 {
        '5'
    } else if d == 6 {
        '6'
    } else if d == 7 {
        '7'
    } else if d == 8 {
        '8'
    } else if d == 9 {
        '9'
    } else if d == 10 {
        'a'
    } else if d == 11 {
        'b'
    } else if d == 12 {
        'c'
    } else if d == 13 {
        'd'
    } else if d == 14 {
        'e'
    } else {
        'f'
    }
}

/// A number in hexadecimal, with small letters and without leading zeros.
pub open spec fn hex(n: nat) -> Seq<char>
    decreases n,
{
    if n < 16 {
        seq![hex_digit(n as int)]
    } else {
        hex(n / 16).push(hex_digit((n % 16) as int))
    }
}

fn hex_digit_text(d: u64) -> (t: &'static str)
    requires
        d < 16,
    ensures
        t@ == seq![hex_digit(d as int)],
{
    proof {
        reveal_strlit("0");
        reveal_strlit("1");
        reveal_strlit("2");
        reveal_strlit("3");
        reveal_strlit("4");
        reveal_strlit("5");
        reveal_strlit("6");
        reveal_strlit("7");
        reveal_strlit("8");
        reveal_strlit("9");
        reveal_strlit("a");
        reveal_strlit("b");
        reveal_strlit("c");
        reveal_strlit("d");
        reveal_strlit("e");
        reveal_strlit("f");
    }
    let t = match d {
        0 => "0",
        1 => "1",
        2 => "2",
        3 => "3",
        4 => "4",
        5 => "5",
        6 => "6",
        7 => "7",
        8 => "8",
        9 => "9",
        10 => "a",
        11 => "b",
        12 => "c",
        13 => "d",
        14 => "e",
        _ => "f",
    };
    assert(t@ =~= seq![hex_digit(d as int)]);
    t
}

/// A number in hexadecimal, with small letters and without leading zeros.
pub fn to_hex(n: u64) -> (text: String)
    ensures
        text@ == hex(n as nat),
    decreases n,
{
    if n < 16 {
        hex_digit_text(n).to_owned()
    } else {
        let mut text = to_hex(n / 16);
        text.append(hex_digit_text(n % 16));
        proof {
            assert(text@ =~= hex((n / 16) as nat).push(hex_digit((n % 16) as int)));
        }
        text
    }
}

} // verus!
