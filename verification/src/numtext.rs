use vstd::prelude::*;
use vstd::string::StringExecFns;

verus! {

/// The whitespace characters the text format recognizes: token and line
/// separators, and the carriage return of mixed line endings.
pub open spec fn is_ws_char(c: char) -> bool {
    c == ' ' || c == '\t' || c == '\r' || c == '\n'
}

/// A decimal digit.
pub open spec fn is_digit_char(c: char) -> bool {
    48 <= c as u32 && c as u32 <= 57
}

/// The numeric value of a decimal digit character.
pub open spec fn digit_val(c: char) -> int {
    c as u32 - 48
}

/// The decimal digit character for a value below ten.
pub open spec fn digit_char(d: int) -> char {
    if d == 0 {
        '0'
    } else if d == 1 {
        '1'
    } else if d == 2 {
        '2'
    } else if d == 3 {
        '3'
    } else if d == 4 {
        '4'
    } else if d == 5 {
        '5'
    } else if d == 6 {
        '6'
    } else if d == 7 {
        '7'
    } else if d == 8 {
        '8'
    } else {
        '9'
    }
}

/// The decimal text of a natural number, most significant digit first.
pub open spec fn uint_text(n: nat) -> Seq<char>
    decreases n,
{
    if n < 10 {
        seq![digit_char(n as int)]
    } else {
        uint_text(n / 10) + seq![digit_char((n % 10) as int)]
    }
}

/// The decimal text of an integer: a minus sign for a negative value,
/// then the magnitude's digits.
pub open spec fn int_text(i: int) -> Seq<char> {
    if i < 0 {
        seq!['-'] + uint_text((-i) as nat)
    } else {
        uint_text(i as nat)
    }
}

/// Every character is a decimal digit.
pub open spec fn all_digits(s: Seq<char>) -> bool {
    forall|i: int| 0 <= i < s.len() ==> is_digit_char(#[trigger] s[i])
}

/// The value of an all-digit text, most significant digit first.
pub open spec fn digits_val(s: Seq<char>) -> int
    decreases s.len(),
{
    if s.len() == 0 {
        0
    } else {
        digits_val(s.drop_last()) * 10 + digit_val(s.last())
    }
}

/// The integer a token denotes: an optional single sign, then one or
/// more decimal digits; anything else denotes nothing.
pub open spec fn parse_int(s: Seq<char>) -> Option<int> {
    if s.len() > 0 && (s[0] == '-' || s[0] == '+') {
        let rest = s.subrange(1, s.len() as int);
        if rest.len() > 0 && all_digits(rest) {
            if s[0] == '-' {
                Some(-digits_val(rest))
            } else {
                Some(digits_val(rest))
            }
        } else {
            None
        }
    } else if s.len() > 0 && all_digits(s) {
        Some(digits_val(s))
    } else {
        None
    }
}

/// The `i32` a token denotes, when its value fits.
pub open spec fn parse_i32_spec(s: Seq<char>) -> Option<i32> {
    match parse_int(s) {
        Some(v) => if i32::MIN <= v <= i32::MAX {
            Some(v as i32)
        } else {
            None
        },
        None => None,
    }
}

pub proof fn lemma_digits_val_nonneg(s: Seq<char>)
    requires
        all_digits(s),
    ensures
        digits_val(s) >= 0,
    decreases s.len(),
{
    if s.len() > 0 {
        assert(all_digits(s.drop_last()));
        lemma_digits_val_nonneg(s.drop_last());
    }
}

/// Appending one digit multiplies the value by ten and adds the digit.
pub proof fn lemma_digits_val_push(s: Seq<char>, c: char)
    ensures
        digits_val(s.push(c)) == digits_val(s) * 10 + digit_val(c),
{
    assert(s.push(c).drop_last() =~= s);
    assert(s.push(c).last() == c);
}

/// The decimal text of a natural number is one or more digits, no sign
/// and no whitespace, and denotes the number itself.
pub proof fn lemma_uint_text(n: nat)
    ensures
        uint_text(n).len() >= 1,
        all_digits(uint_text(n)),
        digits_val(uint_text(n)) == n,
        uint_text(n)[0] != '-',
        uint_text(n)[0] != '+',
        forall|i: int| 0 <= i < uint_text(n).len() ==> !is_ws_char(#[trigger] uint_text(n)[i]),
    decreases n,
{
    if n < 10 {
        let s = uint_text(n);
        assert(s == seq![digit_char(n as int)]);
        assert(s.drop_last() =~= Seq::<char>::empty());
        assert(digits_val(Seq::<char>::empty()) == 0);
        assert(s.last() == digit_char(n as int));
        assert(digits_val(s) == digit_val(digit_char(n as int)));
    } else {
        lemma_uint_text(n / 10);
        let s = uint_text(n / 10);
        let d = digit_char((n % 10) as int);
        assert(uint_text(n) == s + seq![d]);
        assert((s + seq![d]).drop_last() =~= s);
        assert((s + seq![d]).last() == d);
        assert(digits_val(uint_text(n)) == digits_val(s) * 10 + digit_val(d));
        assert(digit_val(d) == n % 10);
        vstd::arithmetic::div_mod::lemma_fundamental_div_mod(n as int, 10);
    }
}

/// The decimal text of an integer is a token without whitespace that
/// parses back to the integer itself.
pub proof fn lemma_int_text(i: int)
    ensures
        int_text(i).len() >= 1,
        forall|k: int| 0 <= k < int_text(i).len() ==> !is_ws_char(#[trigger] int_text(i)[k]),
        parse_int(int_text(i)) == Some(i),
    decreases (if i < 0 { 1int } else { 0int }),
{
    if i < 0 {
        lemma_uint_text((-i) as nat);
        let s = int_text(i);
        let u = uint_text((-i) as nat);
        assert(s == seq!['-'] + u);
        assert(s[0] == '-');
        assert(s.subrange(1, s.len() as int) =~= u);
        assert(parse_int(s) == Some(-digits_val(u)));
    } else {
        lemma_uint_text(i as nat);
        let s = int_text(i);
        assert(s == uint_text(i as nat));
        assert(s[0] != '-' && s[0] != '+');
    }
}

/// The decimal digit character of a value below ten, as a string slice.
fn digit_str(d: u32) -> (s: &'static str)
    requires
        d < 10,
    ensures
        s@ == seq![digit_char(d as int)],
{
    proof {
        reveal_strlit("0");
        reveal_strlit("1");
        reveal_strlit("2");
        reveal_strlit("3");
        reveal_strlit("4");
        reveal_strlit("5");
        reveal_strlit("6");
        reveal_strlit("7");
        reveal_strlit("8");
        reveal_strlit("9");
        assert("0"@ =~= seq!['0']);
        assert("1"@ =~= seq!['1']);
        assert("2"@ =~= seq!['2']);
        assert("3"@ =~= seq!['3']);
        assert("4"@ =~= seq!['4']);
        assert("5"@ =~= seq!['5']);
        assert("6"@ =~= seq!['6']);
        assert("7"@ =~= seq!['7']);
        assert("8"@ =~= seq!['8']);
        assert("9"@ =~= seq!['9']);
    }
    if d == 0 {
        "0"
    } else if d == 1 {
        "1"
    } else if d == 2 {
        "2"
    } else if d == 3 {
        "3"
    } else if d == 4 {
        "4"
    } else if d == 5 {
        "5"
    } else if d == 6 {
        "6"
    } else if d == 7 {
        "7"
    } else if d == 8 {
        "8"
    } else {
        "9"
    }
}

/// Appends the decimal text of a natural number.
pub fn push_uint_text(out: &mut String, n: u32)
    ensures
        final(out)@ == old(out)@ + uint_text(n as nat),
    decreases n,
{
    if n < 10 {
        let s = digit_str(n);
        out.append(s);
    } else {
        push_uint_text(out, n / 10);
        let s = digit_str(n % 10);
        out.append(s);
        assert(out@ =~= old(out)@ + uint_text(n as nat));
    }
}

/// Appends the decimal text of an integer, minus sign included.
pub fn push_int_text(out: &mut String, i: i32)
    ensures
        final(out)@ == old(out)@ + int_text(i as int),
{
    if i < 0 {
        out.append("-");
        proof {
            reveal_strlit("-");
            assert("-"@ =~= seq!['-']);
        }
        let mag: u32 = (-(i as i64)) as u32;
        assert(mag as nat == (-(i as int)) as nat);
        push_uint_text(out, mag);
        assert(out@ =~= old(out)@ + int_text(i as int));
    } else {
        push_uint_text(out, i as u32);
    }
}

/// Parses the characters `s[lo..hi]` as an `i32`: an optional single
/// sign, then one or more decimal digits, refused when the value falls
/// outside the `i32` range.
#[verifier::loop_isolation(false)]
pub fn parse_i32_range(s: &str, lo: usize, hi: usize) -> (r: Option<i32>)
    requires
        lo <= hi <= s@.len(),
    ensures
        r == parse_i32_spec(s@.subrange(lo as int, hi as int)),
{
    let ghost t = s@.subrange(lo as int, hi as int);
    if lo == hi {
        return None;
    }
    let first = s.get_char(lo);
    let neg: bool;
    let start: usize;
    if first == '-' {
        neg = true;
        start = lo + 1;
    } else if first == '+' {
        neg = false;
        start = lo + 1;
    } else {
        neg = false;
        start = lo;
    }
    let ghost digits = s@.subrange(start as int, hi as int);
    proof {
        if start > lo {
            assert(digits =~= t.subrange(1, t.len() as int));
        } else {
            assert(digits =~= t);
        }
    }
    if start == hi {
        assert(parse_i32_spec(t) is None);
        return None;
    }
    let limit: u64 = if neg {
        2147483648
    } else {
        2147483647
    };
    let mut acc: u64 = 0;
    let mut over: bool = false;
    let mut i: usize = start;
    proof {
        assert(s@.subrange(start as int, start as int) =~= Seq::<char>::empty());
        assert(digits_val(Seq::<char>::empty()) == 0);
    }
    while i < hi
        invariant
            start <= i <= hi <= s@.len(),
            start < hi,
            limit == if neg {
                2147483648u64
            } else {
                2147483647u64
            },
            digits == s@.subrange(start as int, hi as int),
            all_digits(s@.subrange(start as int, i as int)),
            !over ==> acc == digits_val(s@.subrange(start as int, i as int)) && acc <= limit,
            over ==> digits_val(s@.subrange(start as int, i as int)) > limit,
        decreases hi - i,
    {
        let c = s.get_char(i);
        let u = c as u32;
        let ghost pre = s@.subrange(start as int, i as int);
        if u < 48 || u > 57 {
            proof {
                assert(digits[i - start] == c);
                assert(!is_digit_char(c));
                assert(!all_digits(digits));
                assert(t[0] == s@[lo as int]);
                assert(s@[lo as int] == first);
                if start > lo {
                    assert(digits =~= t.subrange(1, t.len() as int));
                } else {
                    assert(!(t[0] == '-' || t[0] == '+'));
                    assert(digits =~= t);
                }
                assert(parse_i32_spec(t) is None);
            }
            return None;
        }
        proof {
            assert(s@.subrange(start as int, (i + 1) as int) =~= pre.push(c));
            lemma_digits_val_push(pre, c);
        }
        if !over {
            let d = u - 48;
            acc = acc * 10 + (d as u64);
            if acc > limit {
                over = true;
            }
        } else {
            proof {
                lemma_digits_val_nonneg(pre);
                assert(digits_val(pre.push(c)) == digits_val(pre) * 10 + digit_val(c));
                assert(digits_val(pre) * 10 > limit);
            }
        }
        i += 1;
    }
    proof {
        assert(s@.subrange(start as int, i as int) =~= digits);
        assert(all_digits(digits));
        if start > lo {
            assert(t[0] == first);
        } else {
            assert(t[0] == first);
            assert(!(t[0] == '-' || t[0] == '+'));
        }
    }
    if over {
        proof {
            assert(digits_val(digits) > limit);
            if neg {
                assert(parse_int(t) == Some(-digits_val(digits)));
                assert(-digits_val(digits) < i32::MIN);
            } else {
                assert(parse_int(t) == Some(digits_val(digits)));
                assert(digits_val(digits) > i32::MAX);
            }
        }
        return None;
    }
    if neg {
        let v: i32 = (-(acc as i64)) as i32;
        proof {
            assert(parse_int(t) == Some(-digits_val(digits)));
            assert(acc == digits_val(digits));
        }
        Some(v)
    } else {
        let v: i32 = acc as i32;
        proof {
            assert(parse_int(t) == Some(digits_val(digits)));
        }
        Some(v)
    }
}

} // verus!
