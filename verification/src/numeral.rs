//! Decimal numerals as character sequences: the canonical decimal form of an
//! integer, conversion of integers to strings, and strict parsing that accepts
//! exactly the canonical form.

use vstd::prelude::*;
use vstd::string::StrSliceExecFns;
use vstd::string::StringExecFns;

verus! {

/// Whether `c` is a decimal digit character.
pub open spec fn is_digit(c: char) -> bool {
    48 <= c as int <= 57
}

/// The numeric value of a digit character (meaningful only for digits).
pub open spec fn digit_val(c: char) -> nat {
    if is_digit(c) {
        (c as int - 48) as nat
    } else {
        10
    }
}

/// The digit character for a value below ten.
pub open spec fn digit_char(d: nat) -> char {
    if d == 0 {
        '0'
    } else if d == 1 {
        '1'
    } else if d == 2 {
        '2'
    } else if d == 3 {
        '3'
    } else if d == 4 {
        '4'
    } else if d == 5 {
        '5'
    } else if d == 6 {
        '6'
    } else if d == 7 {
        '7'
    } else if d == 8 {
        '8'
    } else {
        '9'
    }
}

/// The canonical decimal numeral of `n`: no sign, no leading zero except for
/// the single digit of zero itself.
pub open spec fn dec_of(n: nat) -> Seq<char>
    decreases n,
{
    if n < 10 {
        seq![digit_char(n)]
    } else {
        dec_of(n / 10).push(digit_char(n % 10))
    }
}

proof fn lemma_digit_roundtrip(d: nat)
    requires
        d < 10,
    ensures
        is_digit(digit_char(d)),
        digit_val(digit_char(d)) == d,
{
}

/// Whether every character of `s` is a decimal digit.
pub open spec fn all_digits(s: Seq<char>) -> bool {
    forall|i: int| 0 <= i < s.len() ==> is_digit(#[trigger] s[i])
}

/// The integer value of a digit sequence, most significant digit first.
pub open spec fn dec_value(s: Seq<char>) -> nat
    decreases s.len(),
{
    if s.len() == 0 {
        0
    } else {
        dec_value(s.drop_last()) * 10 + digit_val(s.last())
    }
}

/// Whether `s` is the canonical decimal numeral of some integer: non-empty,
/// digits only, and no leading zero except in the numeral of zero.
pub open spec fn is_canonical_dec(s: Seq<char>) -> bool {
    &&& s.len() > 0
    &&& all_digits(s)
    &&& (s[0] == '0' ==> s.len() == 1)
}

/// The canonical numeral of any integer is canonical and evaluates back to it.
pub proof fn lemma_dec_of_canonical(n: nat)
    ensures
        is_canonical_dec(dec_of(n)),
        dec_value(dec_of(n)) == n,
        dec_of(n)[0] == '0' ==> n == 0,
    decreases n,
{
    if n < 10 {
        lemma_digit_roundtrip(n);
        let s = seq![digit_char(n)];
        assert(dec_of(n) =~= s);
        assert(s.drop_last() =~= Seq::<char>::empty());
        assert(dec_value(Seq::<char>::empty()) == 0);
        assert(dec_value(s) == dec_value(s.drop_last()) * 10 + digit_val(s.last()));
    } else {
        lemma_dec_of_canonical(n / 10);
        lemma_digit_roundtrip(n % 10);
        let prefix = dec_of(n / 10);
        let s = prefix.push(digit_char(n % 10));
        assert(dec_of(n) == s);
        assert(s.drop_last() =~= prefix);
        assert(s.last() == digit_char(n % 10));
        assert(dec_value(s) == dec_value(prefix) * 10 + digit_val(digit_char(n % 10)));
        assert(dec_value(s) == (n / 10) * 10 + n % 10);
        assert((n / 10) * 10 + n % 10 == n) by (nonlinear_arith);
        assert(s[0] == prefix[0]);
        assert(n / 10 != 0) by (nonlinear_arith)
            requires
                n >= 10,
        ;
    }
}

/// A digit sequence with a non-zero leading digit has a non-zero value.
proof fn lemma_leading_nonzero_value(s: Seq<char>)
    requires
        s.len() > 0,
        all_digits(s),
        digit_val(s[0]) >= 1,
    ensures
        dec_value(s) >= 1,
    decreases s.len(),
{
    if s.len() == 1 {
        assert(s.drop_last() =~= Seq::<char>::empty());
        assert(dec_value(Seq::<char>::empty()) == 0);
        assert(dec_value(s) == dec_value(s.drop_last()) * 10 + digit_val(s.last()));
        assert(dec_value(s) == digit_val(s[0]));
    } else {
        let prefix = s.drop_last();
        assert(prefix[0] == s[0]);
        lemma_leading_nonzero_value(prefix);
        assert(dec_value(s) == dec_value(prefix) * 10 + digit_val(s.last()));
        assert(dec_value(prefix) * 10 >= 10) by (nonlinear_arith)
            requires
                dec_value(prefix) >= 1,
        ;
    }
}

/// A canonical digit sequence is the canonical numeral of its own value.
pub proof fn lemma_canonical_dec_of(s: Seq<char>)
    requires
        is_canonical_dec(s),
    ensures
        dec_of(dec_value(s)) == s,
    decreases s.len(),
{
    if s.len() == 1 {
        assert(s.drop_last() =~= Seq::<char>::empty());
        let d = digit_val(s[0]);
        assert(dec_value(Seq::<char>::empty()) == 0);
        assert(dec_value(s) == dec_value(s.drop_last()) * 10 + digit_val(s.last()));
        assert(dec_value(s) == d);
        assert(d < 10);
        assert(digit_char(d) == s[0]);
        assert(dec_of(d) =~= seq![digit_char(d)]);
        assert(dec_of(dec_value(s)) =~= s);
    } else {
        let prefix = s.drop_last();
        let d = digit_val(s.last());
        assert(prefix[0] == s[0]);
        assert(s[0] != '0');
        assert(digit_val(s[0]) >= 1);
        assert(is_canonical_dec(prefix));
        lemma_canonical_dec_of(prefix);
        lemma_leading_nonzero_value(prefix);
        let v = dec_value(prefix);
        assert(dec_value(s) == v * 10 + d);
        assert(v * 10 + d >= 10) by (nonlinear_arith)
            requires
                v >= 1,
                d >= 0,
        ;
        assert((v * 10 + d) / 10 == v && (v * 10 + d) % 10 == d) by (nonlinear_arith)
            requires
                0 <= d < 10,
                v >= 0,
        ;
        assert(digit_char(d) == s.last());
        assert(dec_of(dec_value(s)) == dec_of(v).push(digit_char(d)));
        assert(dec_of(dec_value(s)) =~= s);
    }
}

/// The string holding exactly the digit character of a value below ten.
fn digit_str(d: u64) -> (r: &'static str)
    requires
        d < 10,
    ensures
        r@ =~= seq![digit_char(d as nat)],
{
    let s: &'static str = if d == 0 {
        "0"
    } else if d == 1 {
        "1"
    } else if d == 2 {
        "2"
    } else if d == 3 {
        "3"
    } else if d == 4 {
        "4"
    } else if d == 5 {
        "5"
    } else if d == 6 {
        "6"
    } else if d == 7 {
        "7"
    } else if d == 8 {
        "8"
    } else {
        "9"
    };
    proof {
        reveal_strlit("0");
        reveal_strlit("1");
        reveal_strlit("2");
        reveal_strlit("3");
        reveal_strlit("4");
        reveal_strlit("5");
        reveal_strlit("6");
        reveal_strlit("7");
        reveal_strlit("8");
        reveal_strlit("9");
    }
    s
}

/// Renders `n` as its canonical decimal numeral.
pub fn u64_to_string(n: u64) -> (r: String)
    ensures
        r@ == dec_of(n as nat),
    decreases n,
{
    if n < 10 {
        String::from_str(digit_str(n))
    } else {
        let prefix = u64_to_string(n / 10);
        let r = prefix.concat(digit_str(n % 10));
        proof {
            assert(dec_of(n as nat) == dec_of((n as nat) / 10).push(digit_char((n as nat) % 10)));
            assert(r@ =~= dec_of((n as nat) / 10).push(digit_char((n as nat) % 10)));
        }
        r
    }
}

/// Renders a count or index as its canonical decimal numeral.
pub fn usize_to_string(n: usize) -> (r: String)
    ensures
        r@ == dec_of(n as nat),
{
    u64_to_string(n as u64)
}

/// Renders a year as its canonical decimal numeral.
pub fn u32_to_string(n: u32) -> (r: String)
    ensures
        r@ == dec_of(n as nat),
{
    u64_to_string(n as u64)
}

/// Lengthening a digit sequence never lowers its value.
proof fn lemma_dec_value_prefix_le(s: Seq<char>, i: int)
    requires
        0 <= i <= s.len(),
    ensures
        dec_value(s.take(i)) <= dec_value(s),
    decreases s.len() - i,
{
    if i < s.len() {
        lemma_dec_value_prefix_le(s, i + 1);
        let t = s.take(i + 1);
        assert(t.drop_last() =~= s.take(i));
        assert(dec_value(t) == dec_value(s.take(i)) * 10 + digit_val(t.last()));
        assert(dec_value(s.take(i)) * 10 >= dec_value(s.take(i))) by (nonlinear_arith);
    } else {
        assert(s.take(i) =~= s);
    }
}

/// Parses `s` as the canonical decimal numeral of a `usize`. Returns the
/// value exactly when `s` is `dec_of` of some `usize`; anything else — empty,
/// a stray character, a leading zero, a value too large — yields `None`.
pub fn parse_index(s: &str) -> (r: Option<usize>)
    ensures
        match r {
            Some(k) => s@ == dec_of(k as nat),
            None => forall|k: usize| s@ != dec_of(k as nat),
        },
{
    let n = s.unicode_len();
    if n == 0 {
        proof {
            assert forall|k: usize| s@ != dec_of(k as nat) by {
                lemma_dec_of_canonical(k as nat);
            }
        }
        return None;
    }
    let first = s.get_char(0);
    if first as u32 == 48 && n > 1 {
        proof {
            assert forall|k: usize| s@ != dec_of(k as nat) by {
                lemma_dec_of_canonical(k as nat);
            }
        }
        return None;
    }
    let mut acc: usize = 0;
    let mut i: usize = 0;
    while i < n
        invariant
            i <= n,
            n == s@.len(),
            n > 0,
            s@[0] == '0' ==> n == 1,
            all_digits(s@.take(i as int)),
            acc == dec_value(s@.take(i as int)),
        decreases n - i,
    {
        let c = s.get_char(i);
        let code = c as u32;
        if code < 48 || code > 57 {
            proof {
                assert(!is_digit(s@[i as int]));
                assert forall|k: usize| s@ != dec_of(k as nat) by {
                    lemma_dec_of_canonical(k as nat);
                }
            }
            return None;
        }
        let d = (code - 48) as usize;
        proof {
            assert(is_digit(s@[i as int]));
            assert(digit_val(s@[i as int]) == d);
            assert(s@.take(i + 1).drop_last() =~= s@.take(i as int));
            assert(s@.take(i + 1).last() == s@[i as int]);
        }
        if acc > (usize::MAX - d) / 10 {
            proof {
                let t = s@.take(i + 1);
                assert(dec_value(t) == acc * 10 + d);
                assert(acc * 10 + d > usize::MAX) by (nonlinear_arith)
                    requires
                        acc > (usize::MAX - d) / 10,
                        0 <= d < 10,
                ;
                assert forall|k: usize| s@ != dec_of(k as nat) by {
                    lemma_dec_of_canonical(k as nat);
                    if s@ == dec_of(k as nat) {
                        lemma_dec_value_prefix_le(s@, i + 1);
                        assert(dec_value(s@) == k);
                    }
                }
            }
            return None;
        }
        proof {
            assert(acc * 10 + d <= usize::MAX) by (nonlinear_arith)
                requires
                    acc <= (usize::MAX - d) / 10,
                    0 <= d < 10,
            ;
        }
        acc = acc * 10 + d;
        i = i + 1;
    }
    proof {
        assert(s@.take(n as int) =~= s@);
        assert(is_canonical_dec(s@));
        lemma_canonical_dec_of(s@);
    }
    Some(acc)
}

} // verus!
