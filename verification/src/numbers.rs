//! Decimal integers as character sequences: what a numeric field of the
//! persisted format means, how one is read, and how one is written.

use vstd::prelude::*;

verus! {

/// The ten ASCII digit characters.
pub open spec fn is_digit(c: char) -> bool {
    48 <= c as u32 <= 57
}

/// The value of a single digit character.
pub open spec fn digit_val(c: char) -> int {
    c as u32 - 48
}

/// The digit character for a value below ten.
pub open spec fn digit_char(d: int) -> char {
    if d == 0 {
        '0'
    } else if d == 1 {
        '1'
    } else if d == 2 {
        '2'
    } else if d == 3 {
        '3'
    } else if d == 4 {
        '4'
    } else if d == 5 {
        '5'
    } else if d == 6 {
        '6'
    } else if d == 7 {
        '7'
    } else if d == 8 {
        '8'
    } else {
        '9'
    }
}

pub open spec fn all_digits(s: Seq<char>) -> bool {
    forall|i: int| 0 <= i < s.len() ==> is_digit(#[trigger] s[i])
}

/// The value of a digit string, most significant digit first.
pub open spec fn digits_val(s: Seq<char>) -> int
    decreases s.len(),
{
    if s.len() == 0 {
        0
    } else {
        digits_val(s.drop_last()) * 10 + digit_val(s.last())
    }
}

/// The strings accepted by decimal integer parsing: an optional single sign,
/// then at least one digit.
pub open spec fn parses_as_int(s: Seq<char>) -> bool {
    if s.len() == 0 {
        false
    } else if s[0] == '-' || s[0] == '+' {
        s.len() > 1 && all_digits(s.skip(1))
    } else {
        all_digits(s)
    }
}

/// The signed value of a numeral (meaningful when `parses_as_int` holds).
pub open spec fn int_of(s: Seq<char>) -> int {
    if s.len() > 0 && s[0] == '-' {
        -digits_val(s.skip(1))
    } else if s.len() > 0 && s[0] == '+' {
        digits_val(s.skip(1))
    } else {
        digits_val(s)
    }
}

/// What parsing a 64-bit signed integer from `s` returns.
pub open spec fn i64_parse_result(s: Seq<char>) -> Option<i64> {
    if parses_as_int(s) && i64::MIN <= int_of(s) <= i64::MAX {
        Some(int_of(s) as i64)
    } else {
        None
    }
}

/// What parsing a 32-bit signed integer from `s` returns.
pub open spec fn i32_parse_result(s: Seq<char>) -> Option<i32> {
    if parses_as_int(s) && i32::MIN <= int_of(s) <= i32::MAX {
        Some(int_of(s) as i32)
    } else {
        None
    }
}

pub proof fn lemma_digits_val_nonneg(s: Seq<char>)
    requires
        all_digits(s),
    ensures
        digits_val(s) >= 0,
    decreases s.len(),
{
    if s.len() > 0 {
        assert(all_digits(s.drop_last()));
        lemma_digits_val_nonneg(s.drop_last());
        assert(is_digit(s.last()));
    }
}

/// A prefix of a digit string never has a larger value than the whole.
pub proof fn lemma_digits_val_take(s: Seq<char>, j: int)
    requires
        all_digits(s),
        0 <= j <= s.len(),
    ensures
        digits_val(s.take(j)) <= digits_val(s),
    decreases s.len(),
{
    if j == s.len() {
        assert(s.take(j) =~= s);
    } else {
        assert(all_digits(s.drop_last()));
        assert(s.take(j) =~= s.drop_last().take(j));
        lemma_digits_val_take(s.drop_last(), j);
        lemma_digits_val_nonneg(s.drop_last());
        assert(is_digit(s.last()));
        assert(digits_val(s) == digits_val(s.drop_last()) * 10 + digit_val(s.last()));
        assert(digits_val(s.drop_last()) * 10 >= digits_val(s.drop_last())) by {
            lemma_digits_val_nonneg(s.drop_last());
        }
    }
}

fn digit_char_of(d: u64) -> (c: char)
    requires
        d < 10,
    ensures
        c == digit_char(d as int),
        digit_val(c) == d as int,
        is_digit(c),
{
    match d {
        0 => '0',
        1 => '1',
        2 => '2',
        3 => '3',
        4 => '4',
        5 => '5',
        6 => '6',
        7 => '7',
        8 => '8',
        _ => '9',
    }
}

/// Parses a signed decimal numeral, exactly as `i64::from_str_radix` in base
/// ten does: `None` on anything but `[sign] digit+`, and on values outside
/// the 64-bit range.
pub fn parse_i64_chars(s: &Vec<char>) -> (r: Option<i64>)
    ensures
        r == i64_parse_result(s@),
{
    let n = s.len();
    if n == 0 {
        return None;
    }
    let c0 = s[0];
    let neg: bool = c0 == '-';
    let start: usize = if c0 == '-' || c0 == '+' {
        1
    } else {
        0
    };
    if start >= n {
        // a sign with no digits
        return None;
    }
    let ghost digits: Seq<char> = s@.skip(start as int);
    let mut acc: i64 = 0;
    let mut i: usize = start;
    while i < n
        invariant
            start <= i <= n,
            n == s@.len(),
            start < n,
            start == 0 || start == 1,
            start == 1 <==> (s@[0] == '-' || s@[0] == '+'),
            neg <==> s@[0] == '-',
            digits == s@.skip(start as int),
            all_digits(digits.take(i - start)),
            acc <= 0,
            acc as int == -digits_val(digits.take(i - start)),
        decreases n - i,
    {
        let c = s[i];
        let u = c as u32;
        proof {
            assert(digits[i - start] == s@[i as int]);
        }
        if !(48 <= u && u <= 57) {
            proof {
                assert(!is_digit(digits[i - start]));
                assert(!all_digits(digits));
                if start == 0 {
                    assert(digits =~= s@);
                }
                assert(!parses_as_int(s@));
            }
            return None;
        }
        let d = (u - 48) as i64;
        proof {
            assert(is_digit(digits[i - start]));
            assert(digits.take(i + 1 - start).drop_last() =~= digits.take(i - start));
            assert(digits.take(i + 1 - start).last() == digits[i - start]);
            assert(all_digits(digits.take(i + 1 - start)));
            assert(digits_val(digits.take(i + 1 - start)) == digits_val(digits.take(i - start))
                * 10 + d);
        }
        if acc < -922337203685477580i64 {
            // ten times the value read so far already exceeds the 64-bit range
            proof {
                assert(digits_val(digits.take(i + 1 - start)) > 9223372036854775808int);
                if parses_as_int(s@) {
                    if start == 0 {
                        assert(digits =~= s@);
                    }
                    assert(all_digits(digits));
                    lemma_digits_val_take(digits, i + 1 - start);
                    assert(digits_val(digits) > 9223372036854775808int);
                    assert(!(i64::MIN <= int_of(s@) <= i64::MAX));
                }
            }
            return None;
        }
        let a10 = acc * 10;
        if a10 < i64::MIN + d {
            proof {
                assert(digits_val(digits.take(i + 1 - start)) > 9223372036854775808int);
                if parses_as_int(s@) {
                    if start == 0 {
                        assert(digits =~= s@);
                    }
                    assert(all_digits(digits));
                    lemma_digits_val_take(digits, i + 1 - start);
                    assert(digits_val(digits) > 9223372036854775808int);
                    assert(!(i64::MIN <= int_of(s@) <= i64::MAX));
                }
            }
            return None;
        }
        acc = a10 - d;
        i += 1;
    }
    proof {
        assert(digits.take(n - start) =~= digits);
        assert(all_digits(digits));
        assert(digits.len() > 0);
        if start == 0 {
            assert(digits =~= s@);
        }
        assert(parses_as_int(s@));
        assert(int_of(s@) == if neg {
            -digits_val(digits)
        } else {
            digits_val(digits)
        });
    }
    if neg {
        Some(acc)
    } else {
        if acc == i64::MIN {
            // the magnitude is one past the largest positive 64-bit value
            return None;
        }
        Some(-acc)
    }
}

/// Parses a signed decimal numeral into 32 bits, exactly as
/// `i32::from_str_radix` in base ten does.
pub fn parse_i32_chars(s: &Vec<char>) -> (r: Option<i32>)
    ensures
        r == i32_parse_result(s@),
{
    match parse_i64_chars(s) {
        Some(v) => {
            if -2147483648i64 <= v && v <= 2147483647i64 {
                Some(v as i32)
            } else {
                None
            }
        },
        None => None,
    }
}

/// The canonical digits of a non-negative value, most significant first.
pub open spec fn int_to_digits(n: nat) -> Seq<char>
    decreases n,
{
    if n < 10 {
        seq![digit_char(n as int)]
    } else {
        int_to_digits(n / 10).push(digit_char((n % 10) as int))
    }
}

/// The canonical decimal numeral of a signed value.
pub open spec fn render_int(v: int) -> Seq<char> {
    if v < 0 {
        seq!['-'] + int_to_digits((-v) as nat)
    } else {
        int_to_digits(v as nat)
    }
}

pub proof fn lemma_int_to_digits_props(n: nat)
    ensures
        all_digits(int_to_digits(n)),
        int_to_digits(n).len() >= 1,
        digits_val(int_to_digits(n)) == n,
    decreases n,
{
    if n < 10 {
        let s = int_to_digits(n);
        assert(s == seq![digit_char(n as int)]);
        assert(s.drop_last() =~= Seq::<char>::empty());
        assert(s.last() == digit_char(n as int));
        assert(digits_val(Seq::<char>::empty()) == 0);
        assert(is_digit(digit_char(n as int)));
        assert(digit_val(digit_char(n as int)) == n);
        assert(digits_val(s) == digits_val(s.drop_last()) * 10 + digit_val(s.last()));
    } else {
        lemma_int_to_digits_props(n / 10);
        let p = int_to_digits(n / 10);
        let c = digit_char((n % 10) as int);
        assert(n % 10 < 10);
        assert(is_digit(c));
        assert(digit_val(c) == n % 10);
        assert(p.push(c).drop_last() =~= p);
        assert(p.push(c).last() == c);
        assert(forall|i: int| 0 <= i < p.push(c).len() ==> is_digit(#[trigger] p.push(c)[i]));
        assert(digits_val(p.push(c)) == digits_val(p) * 10 + n % 10);
        assert(n / 10 * 10 + n % 10 == n) by {
            vstd::arithmetic::div_mod::lemma_fundamental_div_mod(n as int, 10);
        }
    }
}

/// A rendered signed value reads back as itself.
pub proof fn lemma_render_int_parses(v: int)
    ensures
        parses_as_int(render_int(v)),
        int_of(render_int(v)) == v,
        forall|i: int|
            0 <= i < render_int(v).len() ==> (#[trigger] render_int(v)[i]) != ','
                && render_int(v)[i] != '\n',
{
    if v < 0 {
        lemma_int_to_digits_props((-v) as nat);
        let s = render_int(v);
        let d = int_to_digits((-v) as nat);
        assert(s == seq!['-'] + d);
        assert(s[0] == '-');
        assert(s.skip(1) =~= d);
        assert(s.len() > 1);
        assert(int_of(s) == -digits_val(d));
        assert forall|i: int| 0 <= i < s.len() implies (#[trigger] s[i]) != ',' && s[i]
            != '\n' by {
            if i == 0 {
                assert(s[i] == '-');
                assert('-' as u32 == 45);
                assert(',' as u32 == 44);
                assert('\n' as u32 == 10);
            } else {
                assert(is_digit(d[i - 1]));
                assert(s[i] == d[i - 1]);
                assert(',' as u32 == 44);
                assert('\n' as u32 == 10);
            }
        }
    } else {
        lemma_int_to_digits_props(v as nat);
        let s = render_int(v);
        assert(is_digit(s[0]));
        assert('-' as u32 == 45);
        assert('+' as u32 == 43);
        assert(s[0] != '-' && s[0] != '+');
        assert(int_of(s) == digits_val(s));
        assert forall|i: int| 0 <= i < s.len() implies (#[trigger] s[i]) != ',' && s[i]
            != '\n' by {
            assert(is_digit(s[i]));
            assert(',' as u32 == 44);
            assert('\n' as u32 == 10);
        }
    }
}

fn push_digits(n: u64, out: &mut Vec<char>)
    ensures
        final(out)@ == old(out)@ + int_to_digits(n as nat),
    decreases n,
{
    if n < 10 {
        let c = digit_char_of(n);
        out.push(c);
        proof {
            assert(out@ =~= old(out)@ + int_to_digits(n as nat));
        }
    } else {
        push_digits(n / 10, out);
        let c = digit_char_of(n % 10);
        out.push(c);
        proof {
            assert(int_to_digits(n as nat) == int_to_digits((n as nat) / 10).push(
                digit_char(((n as nat) % 10) as int),
            ));
            assert(out@ =~= old(out)@ + int_to_digits(n as nat));
        }
    }
}

/// Appends the canonical decimal numeral of `v`.
pub fn push_render_i64(v: i64, out: &mut Vec<char>)
    ensures
        final(out)@ == old(out)@ + render_int(v as int),
{
    if v < 0 {
        out.push('-');
        let m: u64 = if v == i64::MIN {
            9223372036854775808u64
        } else {
            (-v) as u64
        };
        proof {
            assert(m as int == -(v as int));
        }
        push_digits(m, out);
        proof {
            assert(out@ =~= old(out)@ + render_int(v as int));
        }
    } else {
        push_digits(v as u64, out);
    }
}

/// Appends the canonical decimal numeral of `v`.
pub fn push_render_i32(v: i32, out: &mut Vec<char>)
    ensures
        final(out)@ == old(out)@ + render_int(v as int),
{
    push_render_i64(v as i64, out);
}

} // verus!
