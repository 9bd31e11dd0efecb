//! Decimal text for coordinates held as signed microdegrees.
//!
//! Geographic coordinates are carried through the library as `i64`
//! microdegrees (one millionth of a degree).  This module renders such a
//! value as a plain decimal degree text for the GeoJSON output, and reads
//! back the fixed-width signed form in which cell boundaries arrive.

use vstd::prelude::*;

verus! {

/// The character for one decimal digit value.
pub open spec fn digit_char(d: int) -> char {
    if d == 0 {
        '0'
    } else if d == 1 {
        '1'
    } else if d == 2 {
        '2'
    } else if d == 3 {
        '3'
    } else if d == 4 {
        '4'
    } else if d == 5 {
        '5'
    } else if d == 6 {
        '6'
    } else if d == 7 {
        '7'
    } else if d == 8 {
        '8'
    } else {
        '9'
    }
}

/// Whether `c` is a decimal digit.
pub open spec fn is_digit_char(c: char) -> bool {
    48 <= c as int <= 57
}

/// The value of one decimal digit character.
pub open spec fn digit_val(c: char) -> int {
    c as int - 48
}

/// The digits of the whole-degree part, without leading zeros.  Coordinates
/// never exceed four digits of whole degrees, so the four cases cover the
/// domain directly.
pub open spec fn int_text(q: int) -> Seq<char> {
    if q >= 1000 {
        seq![
            digit_char(q / 1000 % 10),
            digit_char(q / 100 % 10),
            digit_char(q / 10 % 10),
            digit_char(q % 10),
        ]
    } else if q >= 100 {
        seq![digit_char(q / 100 % 10), digit_char(q / 10 % 10), digit_char(q % 10)]
    } else if q >= 10 {
        seq![digit_char(q / 10 % 10), digit_char(q % 10)]
    } else {
        seq![digit_char(q % 10)]
    }
}

/// The six digits of the microdegree fraction, zero padded.
pub open spec fn frac_text(f: int) -> Seq<char> {
    seq![
        digit_char(f / 100000 % 10),
        digit_char(f / 10000 % 10),
        digit_char(f / 1000 % 10),
        digit_char(f / 100 % 10),
        digit_char(f / 10 % 10),
        digit_char(f % 10),
    ]
}

/// The plain decimal degree text of a microdegree value: an optional minus
/// sign, the whole degrees without leading zeros, a point, and exactly six
/// fraction digits.
pub open spec fn spec_micro_text(v: int) -> Seq<char> {
    let a = if v < 0 {
        -v
    } else {
        v
    };
    let sign: Seq<char> = if v < 0 {
        seq!['-']
    } else {
        Seq::empty()
    };
    sign + int_text(a / 1000000) + seq!['.'] + frac_text(a % 1000000)
}

/// Reads the fixed-width signed decimal form `sDDDD.DDDDDD` (a sign, four
/// whole-degree digits, a point, six fraction digits) as microdegrees.
pub open spec fn spec_parse_fixed(s: Seq<char>) -> Option<int> {
    if s.len() == 12 && (s[0] == '+' || s[0] == '-') && s[5] == '.' && is_digit_char(s[1])
        && is_digit_char(s[2]) && is_digit_char(s[3]) && is_digit_char(s[4]) && is_digit_char(s[6])
        && is_digit_char(s[7]) && is_digit_char(s[8]) && is_digit_char(s[9]) && is_digit_char(
        s[10],
    ) && is_digit_char(s[11]) {
        let whole = digit_val(s[1]) * 1000 + digit_val(s[2]) * 100 + digit_val(s[3]) * 10
            + digit_val(s[4]);
        let frac = digit_val(s[6]) * 100000 + digit_val(s[7]) * 10000 + digit_val(s[8]) * 1000
            + digit_val(s[9]) * 100 + digit_val(s[10]) * 10 + digit_val(s[11]);
        let a = whole * 1000000 + frac;
        Some(
            if s[0] == '-' {
                -a
            } else {
                a
            },
        )
    } else {
        None
    }
}

/// One decimal digit as text.
fn digit_str(d: u64) -> (r: &'static str)
    requires
        d <= 9,
    ensures
        r@ == seq![digit_char(d as int)],
{
    proof {
        reveal_strlit("0");
        reveal_strlit("1");
        reveal_strlit("2");
        reveal_strlit("3");
        reveal_strlit("4");
        reveal_strlit("5");
        reveal_strlit("6");
        reveal_strlit("7");
        reveal_strlit("8");
        reveal_strlit("9");
    }
    if d == 0 {
        "0"
    } else if d == 1 {
        "1"
    } else if d == 2 {
        "2"
    } else if d == 3 {
        "3"
    } else if d == 4 {
        "4"
    } else if d == 5 {
        "5"
    } else if d == 6 {
        "6"
    } else if d == 7 {
        "7"
    } else if d == 8 {
        "8"
    } else {
        "9"
    }
}

/// An upper bound for a digit run of `k` digits.
pub open spec fn pow10_small(k: int) -> int {
    if k <= 0 {
        1
    } else if k == 1 {
        10
    } else if k == 2 {
        100
    } else if k == 3 {
        1000
    } else if k == 4 {
        10000
    } else if k == 5 {
        100000
    } else {
        1000000
    }
}

/// Renders a microdegree value as its plain decimal degree text.
#[verifier::rlimit(50)]
pub fn format_micro(v: i64) -> (r: String)
    requires
        -9999_999999 <= v <= 9999_999999,
    ensures
        r@ == spec_micro_text(v as int),
{
    let mut s = String::new();
    if v < 0 {
        proof {
            reveal_strlit("-");
        }
        s.append("-");
        assert(s@ =~= seq!['-']);
    }
    let a: u64 = if v < 0 {
        (-v) as u64
    } else {
        v as u64
    };
    let q = a / 1000000;
    let f = a % 1000000;
    let ghost before_int = s@;
    if q >= 1000 {
        s.append(digit_str(q / 1000 % 10));
        s.append(digit_str(q / 100 % 10));
        s.append(digit_str(q / 10 % 10));
        s.append(digit_str(q % 10));
    } else if q >= 100 {
        s.append(digit_str(q / 100 % 10));
        s.append(digit_str(q / 10 % 10));
        s.append(digit_str(q % 10));
    } else if q >= 10 {
        s.append(digit_str(q / 10 % 10));
        s.append(digit_str(q % 10));
    } else {
        s.append(digit_str(q % 10));
    }
    assert(s@ =~= before_int + int_text(q as int));
    proof {
        reveal_strlit(".");
    }
    s.append(".");
    s.append(digit_str(f / 100000 % 10));
    s.append(digit_str(f / 10000 % 10));
    s.append(digit_str(f / 1000 % 10));
    s.append(digit_str(f / 100 % 10));
    s.append(digit_str(f / 10 % 10));
    s.append(digit_str(f % 10));
    assert(s@ =~= before_int + int_text(q as int) + seq!['.'] + frac_text(f as int));
    assert(s@ =~= spec_micro_text(v as int));
    s
}

/// Reads the fixed-width signed decimal coordinate form as microdegrees,
/// returning nothing when the text is not in that form.
pub fn parse_fixed(s: &str) -> (r: Option<i64>)
    ensures
        match r {
            Some(v) => spec_parse_fixed(s@) == Some(v as int) && -9999_999999 <= v <= 9999_999999,
            None => spec_parse_fixed(s@) is None,
        },
{
    let n = s.unicode_len();
    if n != 12 {
        return None;
    }
    let c0 = s.get_char(0);
    if !(c0 == '+' || c0 == '-') {
        return None;
    }
    if s.get_char(5) != '.' {
        return None;
    }
    let mut whole: i64 = 0;
    let mut idx: usize = 1;
    while idx < 5
        invariant
            1 <= idx <= 5,
            s@.len() == 12,
            forall|j: int| 1 <= j < idx ==> is_digit_char(#[trigger] s@[j]),
            whole == digit_sum_prefix(s@, 1, idx as int),
            0 <= whole < pow10_small(idx as int - 1),
        decreases 5 - idx,
    {
        let c = s.get_char(idx);
        let u = c as u32;
        if !(48 <= u && u <= 57) {
            return None;
        }
        whole = whole * 10 + ((u - 48) as i64);
        idx = idx + 1;
    }
    let mut frac: i64 = 0;
    idx = 6;
    while idx < 12
        invariant
            6 <= idx <= 12,
            s@.len() == 12,
            forall|j: int| 6 <= j < idx ==> is_digit_char(#[trigger] s@[j]),
            frac == digit_sum_prefix(s@, 6, idx as int),
            0 <= frac < pow10_small(idx as int - 6),
        decreases 12 - idx,
    {
        let c = s.get_char(idx);
        let u = c as u32;
        if !(48 <= u && u <= 57) {
            return None;
        }
        frac = frac * 10 + ((u - 48) as i64);
        idx = idx + 1;
    }
    let a = whole * 1000000 + frac;
    let r = if c0 == '-' {
        -a
    } else {
        a
    };
    proof {
        lemma_digit_sum_prefix_unroll(s@, 1, 5);
        lemma_digit_sum_prefix_unroll(s@, 6, 12);
    }
    Some(r)
}

/// The value of the digit run `s[from..to]`, most significant first.
pub open spec fn digit_sum_prefix(s: Seq<char>, from: int, to: int) -> int
    decreases to - from,
{
    if to <= from {
        0
    } else {
        digit_sum_prefix(s, from, to - 1) * 10 + digit_val(s[to - 1])
    }
}

/// Writes the digit-run value out as the weighted sum of its digits, for
/// runs of up to six digits.
proof fn lemma_digit_sum_prefix_unroll(s: Seq<char>, from: int, to: int)
    requires
        from <= to <= from + 6,
    ensures
        to == from + 4 ==> digit_sum_prefix(s, from, to) == digit_val(s[from]) * 1000 + digit_val(
            s[from + 1],
        ) * 100 + digit_val(s[from + 2]) * 10 + digit_val(s[from + 3]),
        to == from + 6 ==> digit_sum_prefix(s, from, to) == digit_val(s[from]) * 100000
            + digit_val(s[from + 1]) * 10000 + digit_val(s[from + 2]) * 1000 + digit_val(
            s[from + 3],
        ) * 100 + digit_val(s[from + 4]) * 10 + digit_val(s[from + 5]),
{
    reveal_with_fuel(digit_sum_prefix, 8);
}

} // verus!
