//! Decimal rendering and reading of unsigned numbers, verified end to end.

use vstd::prelude::*;

verus! {

/// The digit character for a value below ten.
pub open spec fn digit_char(d: nat) -> char {
    if d == 0 {
        '0'
    } else if d == 1 {
        '1'
    } else if d == 2 {
        '2'
    } else if d == 3 {
        '3'
    } else if d == 4 {
        '4'
    } else if d == 5 {
        '5'
    } else if d == 6 {
        '6'
    } else if d == 7 {
        '7'
    } else if d == 8 {
        '8'
    } else {
        '9'
    }
}

/// Whether `c` is a decimal digit.
pub open spec fn is_digit(c: char) -> bool {
    48 <= c as u32 <= 57
}

/// The value of a digit character.
pub open spec fn digit_val(c: char) -> nat {
    (c as u32 - 48) as nat
}

/// The decimal rendering of `n`: most significant digit first, no sign,
/// no leading zero except for `n == 0` itself.
pub open spec fn dec_of(n: nat) -> Seq<char>
    decreases n,
{
    if n < 10 {
        seq![digit_char(n)]
    } else {
        dec_of(n / 10).push(digit_char(n % 10))
    }
}

/// The number a sequence of digit characters denotes.
pub open spec fn val_of(s: Seq<char>) -> nat
    decreases s.len(),
{
    if s.len() == 0 {
        0
    } else {
        val_of(s.drop_last()) * 10 + digit_val(s.last())
    }
}

/// A canonical decimal line: at least one digit, nothing else, and no
/// leading zero unless the line is `0` itself.
pub open spec fn is_canon_digits(s: Seq<char>) -> bool {
    &&& s.len() >= 1
    &&& forall|i: int| 0 <= i < s.len() ==> is_digit(#[trigger] s[i])
    &&& s.len() > 1 ==> s[0] != '0'
}

pub proof fn lemma_digit_char_val(d: nat)
    requires
        d < 10,
    ensures
        is_digit(digit_char(d)),
        digit_val(digit_char(d)) == d,
        digit_char(d) != '\n',
{
}

/// The rendering of `n` is a canonical digit line and denotes `n`.
pub proof fn lemma_dec_of_canon(n: nat)
    ensures
        is_canon_digits(dec_of(n)),
        val_of(dec_of(n)) == n,
        forall|i: int| 0 <= i < dec_of(n).len() ==> #[trigger] dec_of(n)[i] != '\n',
        n > 0 ==> dec_of(n)[0] != '0',
    decreases n,
{
    if n < 10 {
        lemma_digit_char_val(n);
        let s = dec_of(n);
        assert(s.drop_last() =~= Seq::<char>::empty());
        assert(val_of(s) == val_of(s.drop_last()) * 10 + digit_val(s.last()));
    } else {
        lemma_dec_of_canon(n / 10);
        lemma_digit_char_val(n % 10);
        let p = dec_of(n / 10);
        let s = dec_of(n);
        assert(s == p.push(digit_char(n % 10)));
        assert(s.drop_last() =~= p);
        assert(s.last() == digit_char(n % 10));
        assert(val_of(s) == val_of(p) * 10 + n % 10);
        assert(n / 10 * 10 + n % 10 == n) by {
            vstd::arithmetic::div_mod::lemma_fundamental_div_mod(n as int, 10);
        }
        assert(n / 10 > 0);
        assert(s[0] == p[0]);
        assert forall|i: int| 0 <= i < s.len() implies is_digit(#[trigger] s[i]) by {
            if i < p.len() {
                assert(s[i] == p[i]);
            }
        }
        assert forall|i: int| 0 <= i < s.len() implies #[trigger] s[i] != '\n' by {
            if i < p.len() {
                assert(s[i] == p[i]);
            }
        }
    }
}

/// Extending a digit line on the right never shrinks its value.
pub proof fn lemma_val_of_take_le(s: Seq<char>, i: int)
    requires
        0 <= i <= s.len(),
    ensures
        val_of(s.take(i)) <= val_of(s),
    decreases s.len() - i,
{
    if i == s.len() {
        assert(s.take(i) =~= s);
    } else {
        lemma_val_of_take_le(s, i + 1);
        let t = s.take(i + 1);
        assert(t.drop_last() =~= s.take(i));
        assert(val_of(t) == val_of(s.take(i)) * 10 + digit_val(t.last()));
    }
}


/// The value of a one-digit line.
proof fn lemma_val_single(s: Seq<char>)
    requires
        s.len() == 1,
    ensures
        val_of(s) == digit_val(s[0]),
{
    assert(s.drop_last() =~= Seq::<char>::empty());
    assert(val_of(Seq::<char>::empty()) == 0);
    assert(s.last() == s[0]);
    assert(val_of(s) == val_of(s.drop_last()) * 10 + digit_val(s.last()));
}

/// A canonical line longer than one digit denotes at least ten.
proof fn lemma_canon_val_bound(s: Seq<char>)
    requires
        is_canon_digits(s),
    ensures
        s.len() > 1 ==> val_of(s) >= 10,
    decreases s.len(),
{
    if s.len() > 1 {
        let p = s.drop_last();
        assert(is_canon_digits(p)) by {
            assert(forall|i: int| 0 <= i < p.len() ==> p[i] == s[i]);
        }
        lemma_canon_val_bound(p);
        if p.len() == 1 {
            lemma_val_single(p);
            assert(p[0] == s[0] && s[0] != '0');
            assert(digit_val(p[0]) >= 1) by {
                lemma_digit_nonzero(p[0]);
            }
        }
        assert(val_of(s) == val_of(p) * 10 + digit_val(s.last()));
        assert(val_of(p) >= 1);
    }
}

proof fn lemma_digit_eq(a: char, b: char)
    requires
        is_digit(a),
        is_digit(b),
        digit_val(a) == digit_val(b),
    ensures
        a == b,
{
    assert(a as u32 == b as u32);
    assert(a == b);
}

proof fn lemma_digit_nonzero(c: char)
    requires
        is_digit(c),
        c != '0',
    ensures
        digit_val(c) >= 1,
{
    if digit_val(c) == 0 {
        lemma_digit_eq(c, '0');
    }
}

/// Two canonical digit lines denoting the same number are the same line.
pub proof fn lemma_canon_unique(a: Seq<char>, b: Seq<char>)
    requires
        is_canon_digits(a),
        is_canon_digits(b),
        val_of(a) == val_of(b),
    ensures
        a == b,
    decreases a.len() + b.len(),
{
    lemma_canon_val_bound(a);
    lemma_canon_val_bound(b);
    if a.len() == 1 && b.len() == 1 {
        lemma_val_single(a);
        lemma_val_single(b);
        lemma_digit_eq(a[0], b[0]);
        assert(a =~= b);
    } else if a.len() > 1 && b.len() > 1 {
        let a1 = a.drop_last();
        let b1 = b.drop_last();
        assert(is_canon_digits(a1) && is_canon_digits(b1)) by {
            assert(forall|i: int| 0 <= i < a1.len() ==> a1[i] == a[i]);
            assert(forall|i: int| 0 <= i < b1.len() ==> b1[i] == b[i]);
        }
        assert(val_of(a) == val_of(a1) * 10 + digit_val(a.last()));
        assert(val_of(b) == val_of(b1) * 10 + digit_val(b.last()));
        assert(digit_val(a.last()) < 10 && digit_val(b.last()) < 10);
        assert(val_of(a1) == val_of(b1) && digit_val(a.last()) == digit_val(b.last())) by {
            vstd::arithmetic::div_mod::lemma_fundamental_div_mod_converse(
                val_of(a) as int,
                10,
                val_of(a1) as int,
                digit_val(a.last()) as int,
            );
            vstd::arithmetic::div_mod::lemma_fundamental_div_mod_converse(
                val_of(b) as int,
                10,
                val_of(b1) as int,
                digit_val(b.last()) as int,
            );
        }
        lemma_canon_unique(a1, b1);
        lemma_digit_eq(a.last(), b.last());
        assert(a.len() == b.len());
        assert forall|i: int| 0 <= i < a.len() implies a[i] == b[i] by {
            if i < a.len() - 1 {
                assert(a[i] == a1[i]);
                assert(b[i] == b1[i]);
            } else {
                assert(a[i] == a.last());
                assert(b[i] == b.last());
            }
        }
        assert(a =~= b);
    } else if a.len() == 1 {
        lemma_val_single(a);
        assert(val_of(a) < 10);
        assert(val_of(b) >= 10);
    } else {
        lemma_val_single(b);
        assert(val_of(b) < 10);
        assert(val_of(a) >= 10);
    }
}

/// Append the decimal rendering of `n` to `out`.
pub fn push_dec(out: &mut String, n: u64)
    ensures
        final(out)@ == old(out)@ + dec_of(n as nat),
    decreases n,
{
    if n < 10 {
        out.append(digit_str(n));
    } else {
        push_dec(out, n / 10);
        out.append(digit_str(n % 10));
        proof {
            assert(old(out)@ + dec_of((n / 10) as nat) + dec_of((n % 10) as nat) =~= old(out)@
                + dec_of(n as nat)) by {
                assert(dec_of((n % 10) as nat) == seq![digit_char((n % 10) as nat)]);
                assert(dec_of(n as nat) == dec_of((n / 10) as nat).push(
                    digit_char((n % 10) as nat),
                ));
            }
        }
    }
}

/// The decimal rendering of `n`, zero-padded on the left to two digits.
pub open spec fn dec2_of(n: nat) -> Seq<char> {
    if n < 10 {
        seq!['0'] + dec_of(n)
    } else {
        dec_of(n)
    }
}

/// Append the two-digit rendering of `n` to `out`.
pub fn push_dec2(out: &mut String, n: u64)
    ensures
        final(out)@ == old(out)@ + dec2_of(n as nat),
{
    if n < 10 {
        proof {
            reveal_strlit("0");
        }
        out.append("0");
        proof {
            assert("0"@ =~= seq!['0']);
        }
        push_dec(out, n);
        proof {
            assert(old(out)@ + seq!['0'] + dec_of(n as nat) =~= old(out)@ + dec2_of(n as nat));
        }
    } else {
        push_dec(out, n);
    }
}

/// The digit character of `n`, as a one-character string.
fn digit_str(n: u64) -> (s: &'static str)
    requires
        n < 10,
    ensures
        s@ == seq![digit_char(n as nat)],
        s@ == dec_of(n as nat),
{
    let s = if n == 0 {
        proof {
            reveal_strlit("0");
        }
        "0"
    } else if n == 1 {
        proof {
            reveal_strlit("1");
        }
        "1"
    } else if n == 2 {
        proof {
            reveal_strlit("2");
        }
        "2"
    } else if n == 3 {
        proof {
            reveal_strlit("3");
        }
        "3"
    } else if n == 4 {
        proof {
            reveal_strlit("4");
        }
        "4"
    } else if n == 5 {
        proof {
            reveal_strlit("5");
        }
        "5"
    } else if n == 6 {
        proof {
            reveal_strlit("6");
        }
        "6"
    } else if n == 7 {
        proof {
            reveal_strlit("7");
        }
        "7"
    } else if n == 8 {
        proof {
            reveal_strlit("8");
        }
        "8"
    } else {
        proof {
            reveal_strlit("9");
        }
        "9"
    };
    proof {
        assert(s@ =~= seq![digit_char(n as nat)]);
    }
    s
}

} // verus!
