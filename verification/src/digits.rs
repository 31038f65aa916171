//! The record-identifier counter as decimal text.
//!
//! The persisted form of a table stores its counter as a base-10 integer
//! encoded as text.  This module fixes the canonical encoding (no sign, no
//! leading zeros), renders a counter into it, parses it back, and proves the
//! two directions inverse to each other.

use vstd::prelude::*;
use vstd::string::StrSliceExecFns;
use vstd::string::StringExecFns;

verus! {

pub open spec fn is_digit(c: char) -> bool {
    '0' <= c && c <= '9'
}

/// The character for one decimal digit.
pub open spec fn digit_char(d: nat) -> char {
    if d == 0 {
        '0'
    } else if d == 1 {
        '1'
    } else if d == 2 {
        '2'
    } else if d == 3 {
        '3'
    } else if d == 4 {
        '4'
    } else if d == 5 {
        '5'
    } else if d == 6 {
        '6'
    } else if d == 7 {
        '7'
    } else if d == 8 {
        '8'
    } else {
        '9'
    }
}

/// The decimal digit for one character.
pub open spec fn char_digit(c: char) -> nat {
    if c == '0' {
        0
    } else if c == '1' {
        1
    } else if c == '2' {
        2
    } else if c == '3' {
        3
    } else if c == '4' {
        4
    } else if c == '5' {
        5
    } else if c == '6' {
        6
    } else if c == '7' {
        7
    } else if c == '8' {
        8
    } else {
        9
    }
}

/// The canonical decimal text of a counter value.
pub open spec fn dec_digits(n: nat) -> Seq<char>
    decreases n,
{
    if n < 10 {
        seq![digit_char(n)]
    } else {
        dec_digits(n / 10).push(digit_char(n % 10))
    }
}

/// The counter value of a digit sequence.
pub open spec fn digits_val(s: Seq<char>) -> nat
    decreases s.len(),
{
    if s.len() == 0 {
        0
    } else {
        digits_val(s.drop_last()) * 10 + char_digit(s.last())
    }
}

/// Canonical decimal text: nonempty, digits only, and no leading zero.
pub open spec fn canonical_digits(s: Seq<char>) -> bool {
    &&& s.len() > 0
    &&& forall|i: int| 0 <= i < s.len() ==> is_digit(#[trigger] s[i])
    &&& (s[0] == '0' ==> s.len() == 1)
}

/// The rendering of a counter is canonical, and starts with '0' only for 0.
pub proof fn lemma_dec_digits_canonical(n: nat)
    ensures
        canonical_digits(dec_digits(n)),
        dec_digits(n)[0] == '0' <==> n == 0,
    decreases n,
{
    if n < 10 {
    } else {
        lemma_dec_digits_canonical(n / 10);
        let s = dec_digits(n);
        let p = dec_digits(n / 10);
        assert(s == p.push(digit_char(n % 10)));
        assert(s[0] == p[0]);
        assert(forall|i: int| 0 <= i < s.len() ==> is_digit(#[trigger] s[i])) by {
            assert(forall|i: int| 0 <= i < p.len() ==> s[i] == #[trigger] p[i]);
            assert(s[s.len() - 1] == digit_char(n % 10));
        }
    }
}

/// Parsing the rendering of a counter gives the counter back.
pub proof fn lemma_digits_val_dec(n: nat)
    ensures
        digits_val(dec_digits(n)) == n,
    decreases n,
{
    if n < 10 {
        let s = dec_digits(n);
        assert(s.drop_last() =~= Seq::<char>::empty());
        assert(digits_val(Seq::<char>::empty()) == 0);
        assert(digits_val(s) == digits_val(s.drop_last()) * 10 + char_digit(s.last()));
        assert(digits_val(s) == char_digit(digit_char(n)));
    } else {
        lemma_digits_val_dec(n / 10);
        let s = dec_digits(n);
        let p = dec_digits(n / 10);
        assert(s.drop_last() =~= p);
        assert(s.last() == digit_char(n % 10));
        assert(char_digit(digit_char(n % 10)) == n % 10);
        assert(digits_val(s) == (n / 10) * 10 + n % 10);
        assert((n / 10) * 10 + n % 10 == n) by (nonlinear_arith);
    }
}

/// A digit sequence with a nonzero leading digit has a nonzero value.
proof fn lemma_digits_val_pos(s: Seq<char>)
    requires
        s.len() > 0,
        forall|i: int| 0 <= i < s.len() ==> is_digit(#[trigger] s[i]),
        s[0] != '0',
    ensures
        digits_val(s) >= 1,
    decreases s.len(),
{
    if s.len() == 1 {
        assert(char_digit(s[0]) >= 1);
    } else {
        let p = s.drop_last();
        assert(forall|i: int| 0 <= i < p.len() ==> is_digit(#[trigger] p[i])) by {
            assert(forall|i: int| 0 <= i < p.len() ==> p[i] == #[trigger] s[i]);
        }
        assert(p[0] == s[0]);
        lemma_digits_val_pos(p);
        assert(digits_val(s) == digits_val(p) * 10 + char_digit(s.last()));
        assert(digits_val(p) * 10 >= 10) by (nonlinear_arith)
            requires
                digits_val(p) >= 1,
        ;
    }
}

/// Rendering the value of canonical decimal text gives the text back.
pub proof fn lemma_dec_digits_val(s: Seq<char>)
    requires
        canonical_digits(s),
    ensures
        dec_digits(digits_val(s)) == s,
    decreases s.len(),
{
    if s.len() == 1 {
        assert(s.drop_last() =~= Seq::<char>::empty());
        assert(digits_val(Seq::<char>::empty()) == 0);
        let d = char_digit(s[0]);
        assert(digits_val(s) == digits_val(s.drop_last()) * 10 + char_digit(s.last()));
        assert(digits_val(s) == d);
        assert(is_digit(s[0]));
        assert(d < 10);
        assert(digit_char(char_digit(s[0])) == s[0]);
        assert(dec_digits(d) =~= s);
    } else {
        let p = s.drop_last();
        assert(p[0] == s[0]);
        assert(forall|i: int| 0 <= i < p.len() ==> is_digit(#[trigger] p[i])) by {
            assert(forall|i: int| 0 <= i < p.len() ==> p[i] == #[trigger] s[i]);
        }
        assert(s[0] != '0');
        lemma_dec_digits_val(p);
        lemma_digits_val_pos(p);
        let d = char_digit(s.last());
        let v = digits_val(s);
        assert(v == digits_val(p) * 10 + d);
        assert(v >= 10 && v / 10 == digits_val(p) && v % 10 == d) by (nonlinear_arith)
            requires
                v == digits_val(p) * 10 + d,
                digits_val(p) >= 1,
                0 <= d < 10,
        ;
        assert(is_digit(s.last()));
        assert(digit_char(char_digit(s.last())) == s.last());
        assert(dec_digits(v) == dec_digits(digits_val(p)).push(digit_char(d)));
        assert(dec_digits(v) =~= s);
    }
}

/// Every prefix of a digit sequence has a value no larger than the whole.
pub proof fn lemma_digits_val_prefix(s: Seq<char>, i: int)
    requires
        0 <= i <= s.len(),
        forall|k: int| 0 <= k < s.len() ==> is_digit(#[trigger] s[k]),
    ensures
        digits_val(s.take(i)) <= digits_val(s),
    decreases s.len(),
{
    if i == s.len() {
        assert(s.take(i) =~= s);
    } else {
        let p = s.drop_last();
        assert(forall|k: int| 0 <= k < p.len() ==> is_digit(#[trigger] p[k])) by {
            assert(forall|k: int| 0 <= k < p.len() ==> p[k] == #[trigger] s[k]);
        }
        assert(s.take(i) =~= p.take(i));
        lemma_digits_val_prefix(p, i);
        assert(digits_val(s) == digits_val(p) * 10 + char_digit(s.last()));
        assert(digits_val(p) * 10 >= digits_val(p)) by (nonlinear_arith);
    }
}

/// The decimal digits contain no quote character.
pub proof fn lemma_digits_no_quote(s: Seq<char>)
    requires
        forall|i: int| 0 <= i < s.len() ==> is_digit(#[trigger] s[i]),
    ensures
        forall|i: int| 0 <= i < s.len() ==> s[i] != '"',
{
}

/// The text of one decimal digit.
fn digit_str(d: u64) -> (s: &'static str)
    requires
        d < 10,
    ensures
        s@ == seq![digit_char(d as nat)],
{
    if d == 0 {
        proof {
            reveal_strlit("0");
            assert("0"@ =~= seq![digit_char(0)]);
        }
        "0"
    } else if d == 1 {
        proof {
            reveal_strlit("1");
            assert("1"@ =~= seq![digit_char(1)]);
        }
        "1"
    } else if d == 2 {
        proof {
            reveal_strlit("2");
            assert("2"@ =~= seq![digit_char(2)]);
        }
        "2"
    } else if d == 3 {
        proof {
            reveal_strlit("3");
            assert("3"@ =~= seq![digit_char(3)]);
        }
        "3"
    } else if d == 4 {
        proof {
            reveal_strlit("4");
            assert("4"@ =~= seq![digit_char(4)]);
        }
        "4"
    } else if d == 5 {
        proof {
            reveal_strlit("5");
            assert("5"@ =~= seq![digit_char(5)]);
        }
        "5"
    } else if d == 6 {
        proof {
            reveal_strlit("6");
            assert("6"@ =~= seq![digit_char(6)]);
        }
        "6"
    } else if d == 7 {
        proof {
            reveal_strlit("7");
            assert("7"@ =~= seq![digit_char(7)]);
        }
        "7"
    } else if d == 8 {
        proof {
            reveal_strlit("8");
            assert("8"@ =~= seq![digit_char(8)]);
        }
        "8"
    } else {
        proof {
            reveal_strlit("9");
            assert("9"@ =~= seq![digit_char(9)]);
        }
        "9"
    }
}

/// Renders a counter into its canonical decimal text.
pub fn u64_dec(n: u64) -> (s: String)
    ensures
        s@ == dec_digits(n as nat),
    decreases n,
{
    if n < 10 {
        String::from_str(digit_str(n))
    } else {
        let mut s = u64_dec(n / 10);
        s.append(digit_str(n % 10));
        proof {
            assert(n as nat / 10 == (n / 10) as nat && n as nat % 10 == (n % 10) as nat);
            assert(s@ =~= dec_digits(n as nat / 10).push(digit_char(n as nat % 10)));
        }
        s
    }
}

/// The digit value of one character, if it is a digit.
fn char_digit_exec(c: char) -> (r: Option<u64>)
    ensures
        r matches Some(d) ==> is_digit(c) && d == char_digit(c) && d < 10,
        r is None ==> !is_digit(c),
{
    match c {
        '0' => Some(0),
        '1' => Some(1),
        '2' => Some(2),
        '3' => Some(3),
        '4' => Some(4),
        '5' => Some(5),
        '6' => Some(6),
        '7' => Some(7),
        '8' => Some(8),
        '9' => Some(9),
        _ => None,
    }
}

/// Parses the characters of `s` between `a` and `b` as a canonical decimal
/// counter.  Returns the counter exactly when that span is the canonical
/// decimal text of a value that fits the counter's machine type.
pub fn parse_dec(s: &str, a: usize, b: usize) -> (r: Option<u64>)
    requires
        a <= b <= s@.len(),
    ensures
        r matches Some(n) ==> s@.subrange(a as int, b as int) == dec_digits(n as nat),
        r is None ==> forall|n: nat| n <= u64::MAX ==> s@.subrange(a as int, b as int) != dec_digits(n),
{
    let ghost span = s@.subrange(a as int, b as int);
    if a == b {
        proof {
            assert forall|n: nat| n <= u64::MAX implies span != dec_digits(n) by {
                lemma_dec_digits_canonical(n);
            }
        }
        return None;
    }
    let c0 = s.get_char(a);
    proof {
        assert(span[0] == s@[a as int]);
    }
    if c0 == '0' {
        if b - a > 1 {
            // A leading zero in a longer span is not canonical.
            proof {
                assert forall|n: nat| n <= u64::MAX implies span != dec_digits(n) by {
                    lemma_dec_digits_canonical(n);
                    if span == dec_digits(n) {
                        assert(canonical_digits(span));
                    }
                }
            }
            return None;
        }
        proof {
            assert(span =~= seq!['0']);
            assert(dec_digits(0) =~= seq![digit_char(0)]);
        }
        return Some(0);
    }
    let mut i: usize = a;
    let mut acc: u64 = 0;
    while i < b
        invariant
            a <= i <= b <= s@.len(),
            a < b,
            span == s@.subrange(a as int, b as int),
            s@[a as int] != '0',
            acc as nat == digits_val(span.take(i - a)),
            forall|k: int| 0 <= k < i - a ==> is_digit(#[trigger] span[k]),
        decreases b - i,
    {
        let c = s.get_char(i);
        proof {
            assert(span[i - a] == s@[i as int]);
        }
        match char_digit_exec(c) {
            None => {
                // A non-digit character: the span is not canonical.
                proof {
                    assert(!is_digit(span[i - a]));
                    assert forall|n: nat| n <= u64::MAX implies span != dec_digits(n) by {
                        lemma_dec_digits_canonical(n);
                        if span == dec_digits(n) {
                            assert(canonical_digits(span));
                            assert(is_digit(span[i - a]));
                        }
                    }
                }
                return None;
            },
            Some(d) => {
                if acc > (u64::MAX - d) / 10 {
                    // The value does not fit the counter's machine type.
                    proof {
                        assert forall|n: nat| n <= u64::MAX implies span != dec_digits(n) by {
                            lemma_dec_digits_canonical(n);
                            if span == dec_digits(n) {
                                assert(canonical_digits(span));
                                lemma_digits_val_dec(n);
                                lemma_digits_val_prefix(span, i - a + 1);
                                assert(span.take(i - a + 1).drop_last() =~= span.take(i - a));
                                assert(span.take(i - a + 1).last() == span[i - a]);
                                assert(digits_val(span.take(i - a + 1)) == acc as nat * 10
                                    + d as nat);
                                assert(acc as nat * 10 + d as nat <= n);
                                assert(acc as nat * 10 + d as nat > u64::MAX as nat) by (nonlinear_arith)
                                    requires
                                        acc as nat > ((u64::MAX - d) / 10) as nat,
                                        d < 10,
                                ;
                            }
                        }
                    }
                    return None;
                }
                proof {
                    assert(acc as nat * 10 + d as nat <= u64::MAX as nat) by (nonlinear_arith)
                        requires
                            acc as nat <= ((u64::MAX - d) / 10) as nat,
                            d < 10,
                    ;
                    assert(span.take(i - a + 1).drop_last() =~= span.take(i - a));
                    assert(span.take(i - a + 1).last() == span[i - a]);
                }
                acc = acc * 10 + d;
            },
        }
        i = i + 1;
    }
    proof {
        assert(span.take(b - a) =~= span);
        assert(canonical_digits(span));
        lemma_dec_digits_val(span);
    }
    Some(acc)
}

} // verus!
