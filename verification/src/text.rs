//! Character-level helpers: string equality by view, and the decimal
//! rendering/parsing used for line-identity attributes.

use vstd::prelude::*;
use vstd::string::*;

verus! {

/// Compare two string slices; the result is exactly view equality.
pub fn str_eq(a: &str, b: &str) -> (r: bool)
    ensures
        r == (a@ == b@),
{
    let alen = a.unicode_len();
    let blen = b.unicode_len();
    if alen != blen {
        return false;
    }
    let mut i: usize = 0;
    while i < alen
        invariant
            i <= alen,
            alen == a@.len(),
            alen == b@.len(),
            forall|j: int| 0 <= j < i ==> a@[j] == b@[j],
        decreases alen - i,
    {
        if a.get_char(i) != b.get_char(i) {
            return false;
        }
        i = i + 1;
    }
    proof {
        assert(a@ =~= b@);
    }
    true
}

/// The character for one decimal digit.
pub open spec fn digit_char(d: int) -> char {
    if d == 0 {
        '0'
    } else if d == 1 {
        '1'
    } else if d == 2 {
        '2'
    } else if d == 3 {
        '3'
    } else if d == 4 {
        '4'
    } else if d == 5 {
        '5'
    } else if d == 6 {
        '6'
    } else if d == 7 {
        '7'
    } else if d == 8 {
        '8'
    } else {
        '9'
    }
}

/// The decimal rendering of a number, most significant digit first.
pub open spec fn dec_rep(n: nat) -> Seq<char>
    decreases n,
{
    if n < 10 {
        seq![digit_char(n as int)]
    } else {
        dec_rep(n / 10).push(digit_char((n % 10) as int))
    }
}

/// One decimal digit as a string slice.
fn digit_str(d: usize) -> (r: &'static str)
    requires
        d < 10,
    ensures
        r@ == seq![digit_char(d as int)],
{
    let r: &'static str = match d {
        0 => "0",
        1 => "1",
        2 => "2",
        3 => "3",
        4 => "4",
        5 => "5",
        6 => "6",
        7 => "7",
        8 => "8",
        _ => "9",
    };
    proof {
        reveal_strlit("0");
        reveal_strlit("1");
        reveal_strlit("2");
        reveal_strlit("3");
        reveal_strlit("4");
        reveal_strlit("5");
        reveal_strlit("6");
        reveal_strlit("7");
        reveal_strlit("8");
        reveal_strlit("9");
        assert(r@ =~= seq![digit_char(d as int)]);
    }
    r
}

/// Render a number in decimal.
pub fn usize_to_string(n: usize) -> (r: String)
    ensures
        r@ == dec_rep(n as nat),
    decreases n,
{
    let d: usize = n % 10;
    let ds = digit_str(d);
    if n < 10 {
        String::from_str(ds)
    } else {
        let mut s = usize_to_string(n / 10);
        s.append(ds);
        proof {
            assert(s@ =~= dec_rep((n / 10) as nat).push(digit_char(d as int)));
        }
        s
    }
}

/// The numeric value of one digit character, or 10 for any other character.
pub open spec fn digit_val(c: char) -> int {
    if c == '0' {
        0
    } else if c == '1' {
        1
    } else if c == '2' {
        2
    } else if c == '3' {
        3
    } else if c == '4' {
        4
    } else if c == '5' {
        5
    } else if c == '6' {
        6
    } else if c == '7' {
        7
    } else if c == '8' {
        8
    } else if c == '9' {
        9
    } else {
        10
    }
}

pub open spec fn is_digit(c: char) -> bool {
    digit_val(c) < 10
}

pub open spec fn all_digits(s: Seq<char>) -> bool {
    forall|i: int| 0 <= i < s.len() ==> is_digit(#[trigger] s[i])
}

/// The numeric value of a digit sequence, most significant digit first.
pub open spec fn parse_val(s: Seq<char>) -> int
    decreases s.len(),
{
    if s.len() == 0 {
        0
    } else {
        parse_val(s.drop_last()) * 10 + digit_val(s.last())
    }
}

/// What parsing a decimal string yields: a value when the string is a
/// non-empty digit sequence whose value fits, nothing otherwise.
pub open spec fn parse_spec(s: Seq<char>) -> Option<usize> {
    if s.len() > 0 && all_digits(s) && parse_val(s) <= usize::MAX {
        Some(parse_val(s) as usize)
    } else {
        None
    }
}

proof fn lemma_parse_val_nonneg(s: Seq<char>)
    ensures
        parse_val(s) >= 0,
    decreases s.len(),
{
    if s.len() > 0 {
        lemma_parse_val_nonneg(s.drop_last());
    }
}

/// Appending digits never decreases the value.
proof fn lemma_parse_val_prefix(s: Seq<char>, i: int)
    requires
        0 <= i <= s.len(),
    ensures
        parse_val(s.take(i)) <= parse_val(s),
    decreases s.len() - i,
{
    if i < s.len() {
        lemma_parse_val_prefix(s, i + 1);
        let t = s.take(i + 1);
        assert(t.drop_last() =~= s.take(i));
        lemma_parse_val_nonneg(s.take(i));
        assert(parse_val(s.take(i)) <= parse_val(t)) by {
            assert(parse_val(t) == parse_val(s.take(i)) * 10 + digit_val(t.last()));
            assert(parse_val(s.take(i)) * 10 >= parse_val(s.take(i))) by (nonlinear_arith)
                requires
                    parse_val(s.take(i)) >= 0,
            ;
        }
    } else {
        assert(s.take(i) =~= s);
    }
}

/// Rendering a number and parsing the result gives the number back: the
/// decimal representation is a non-empty digit string with that exact value.
pub proof fn lemma_dec_rep_parses(n: usize)
    ensures
        dec_rep(n as nat).len() >= 1,
        all_digits(dec_rep(n as nat)),
        parse_val(dec_rep(n as nat)) == n,
        parse_spec(dec_rep(n as nat)) == Some(n),
    decreases n,
{
    let s = dec_rep(n as nat);
    if n < 10 {
        assert(s =~= seq![digit_char(n as int)]);
        assert(s.drop_last() =~= Seq::<char>::empty());
        assert(digit_val(digit_char(n as int)) == n);
        assert(parse_val(Seq::<char>::empty()) == 0);
        assert(s.last() == digit_char(n as int));
        assert(parse_val(s) == parse_val(s.drop_last()) * 10 + digit_val(s.last()));
    } else {
        lemma_dec_rep_parses(n / 10);
        let prefix = dec_rep((n / 10) as nat);
        assert(s == prefix.push(digit_char((n % 10) as int)));
        assert(s.drop_last() =~= prefix);
        assert(s.last() == digit_char((n % 10) as int));
        assert(digit_val(digit_char((n % 10) as int)) == n % 10);
        assert(parse_val(s) == parse_val(s.drop_last()) * 10 + digit_val(s.last()));
        assert(parse_val(s) == parse_val(prefix) * 10 + n % 10);
        assert((n / 10) * 10 + n % 10 == n);
        assert(all_digits(s)) by {
            assert forall|i: int| 0 <= i < s.len() implies is_digit(#[trigger] s[i]) by {
                if i < s.len() - 1 {
                    assert(s[i] == prefix[i]);
                }
            }
        }
    }
}

/// The numeric value of one digit character, when there is one.
fn digit_of_char(c: char) -> (r: Option<usize>)
    ensures
        match r {
            Some(d) => is_digit(c) && d == digit_val(c),
            None => !is_digit(c),
        },
{
    match c {
        '0' => Some(0),
        '1' => Some(1),
        '2' => Some(2),
        '3' => Some(3),
        '4' => Some(4),
        '5' => Some(5),
        '6' => Some(6),
        '7' => Some(7),
        '8' => Some(8),
        '9' => Some(9),
        _ => None,
    }
}

/// Parse a decimal string; the result is exactly `parse_spec`.
pub fn parse_usize(s: &str) -> (r: Option<usize>)
    ensures
        r == parse_spec(s@),
{
    let n = s.unicode_len();
    if n == 0 {
        return None;
    }
    let mut i: usize = 0;
    let mut acc: usize = 0;
    while i < n
        invariant
            i <= n,
            n == s@.len(),
            all_digits(s@.take(i as int)),
            acc == parse_val(s@.take(i as int)),
        decreases n - i,
    {
        let c = s.get_char(i);
        let d = match digit_of_char(c) {
            Some(d) => d,
            None => {
                return None;
            },
        };
        proof {
            assert(s@.take(i + 1).drop_last() =~= s@.take(i as int));
            assert(s@.take(i + 1).last() == s@[i as int]);
        }
        if acc > (usize::MAX - d) / 10 {
            proof {
                assert(acc * 10 + d > usize::MAX) by (nonlinear_arith)
                    requires
                        acc > (usize::MAX - d) / 10,
                        d < 10,
                        usize::MAX - d == ((usize::MAX - d) / 10) * 10 + (usize::MAX - d) % 10,
                        0 <= (usize::MAX - d) % 10 < 10,
                ;
                lemma_parse_val_prefix(s@, i + 1);
            }
            return None;
        }
        proof {
            assert(acc * 10 + d <= usize::MAX) by (nonlinear_arith)
                requires
                    acc <= (usize::MAX - d) / 10,
                    acc >= 0,
                    d < 10,
                    usize::MAX - d == ((usize::MAX - d) / 10) * 10 + (usize::MAX - d) % 10,
                    0 <= (usize::MAX - d) % 10 < 10,
            ;
        }
        acc = acc * 10 + d;
        i = i + 1;
    }
    proof {
        assert(s@.take(i as int) =~= s@);
    }
    Some(acc)
}

} // verus!
