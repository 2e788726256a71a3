//! Byte-string helpers: names and paths are modelled as byte strings, so the
//! decimal parsing and rendering that the naming convention needs is done here
//! over `Vec<u8>`, with exact specifications.

use vstd::prelude::*;

verus! {

/// ASCII decimal digit.
pub open spec fn is_digit(b: u8) -> bool {
    48 <= b && b <= 57
}

/// Every byte of `s` is an ASCII decimal digit.
pub open spec fn all_digits(s: Seq<u8>) -> bool {
    forall|i: int| 0 <= i < s.len() ==> is_digit(#[trigger] s[i])
}

/// Numeric value of a digit string, most significant digit first.
pub open spec fn digits_val(s: Seq<u8>) -> nat
    decreases s.len(),
{
    if s.len() == 0 {
        0
    } else {
        digits_val(s.drop_last()) * 10 + (s.last() - 48) as nat
    }
}

/// Shortest decimal representation of `n`.
pub open spec fn dec_rep(n: nat) -> Seq<u8>
    decreases n,
{
    if n < 10 {
        seq![(48 + n) as u8]
    } else {
        dec_rep(n / 10).push((48 + n % 10) as u8)
    }
}

/// Meaning of a whole byte string read as an `i32`: an optional sign, then at
/// least one digit, and a value within range; anything else has no meaning.
pub open spec fn parse_i32_spec(s: Seq<u8>) -> Option<i32> {
    let neg = s.len() > 0 && s[0] == 45;
    let signed = s.len() > 0 && (s[0] == 45 || s[0] == 43);
    let body = if signed { s.skip(1) } else { s };
    if body.len() == 0 || !all_digits(body) {
        None
    } else {
        let v: int = if neg { -(digits_val(body) as int) } else { digits_val(body) as int };
        if -2147483648 <= v && v <= 2147483647 {
            Some(v as i32)
        } else {
            None
        }
    }
}

/// What `dec_rep` writes is digits, at least one of them.
pub proof fn lemma_dec_rep_digits(n: nat)
    ensures
        all_digits(dec_rep(n)),
        dec_rep(n).len() >= 1,
    decreases n,
{
    if n >= 10 {
        lemma_dec_rep_digits(n / 10);
        let r = dec_rep(n / 10);
        let w = r.push((48 + n % 10) as u8);
        assert forall|i: int| 0 <= i < w.len() implies is_digit(#[trigger] w[i]) by {
            if i < r.len() {
                assert(w[i] == r[i]);
            }
        }
    }
}

/// The digits of `n` are worth `n`.
pub proof fn lemma_dec_rep_value(n: nat)
    ensures
        digits_val(dec_rep(n)) == n,
    decreases n,
{
    if n < 10 {
        let s = dec_rep(n);
        assert(s.drop_last() =~= Seq::<u8>::empty());
        assert(digits_val(Seq::<u8>::empty()) == 0);
        assert(((48 + n) as u8 - 48) as nat == n);
    } else {
        lemma_dec_rep_value(n / 10);
        assert(dec_rep(n).drop_last() =~= dec_rep(n / 10));
        vstd::arithmetic::div_mod::lemma_fundamental_div_mod(n as int, 10);
        assert(n % 10 < 10) by (nonlinear_arith);
        assert(dec_rep(n).last() == (48 + n % 10) as u8);
        assert(((48 + n % 10) as u8 - 48) as nat == n % 10);
    }
}

/// Law: rendering an integer in decimal and reading the text back returns
/// the integer unchanged, so a folder filed under a rendered year is read
/// as that year again.
pub proof fn lemma_dec_rep_round_trip(n: nat)
    requires
        n <= 2147483647,
    ensures
        parse_i32_spec(dec_rep(n)) == Some(n as i32),
{
    lemma_dec_rep_digits(n);
    lemma_dec_rep_value(n);
    let r = dec_rep(n);
    assert(is_digit(r[0]));
    assert(r[0] != 45 && r[0] != 43);
}

/// A digit string is worth at least as much as any of its prefixes.
proof fn lemma_digits_val_prefix(s: Seq<u8>, k: int)
    requires
        0 <= k <= s.len(),
    ensures
        digits_val(s.take(k)) <= digits_val(s),
    decreases s.len() - k,
{
    if k < s.len() {
        assert(s.take(k + 1).drop_last() =~= s.take(k));
        assert(s.take(k + 1).last() == s[k]);
        assert(digits_val(s.take(k)) <= digits_val(s.take(k + 1)));
        lemma_digits_val_prefix(s, k + 1);
    } else {
        assert(s.take(k) =~= s);
    }
}

/// Byte-for-byte equality of two byte strings.
pub fn bytes_eq(a: &Vec<u8>, b: &Vec<u8>) -> (r: bool)
    ensures
        r == (a@ == b@),
{
    if a.len() != b.len() {
        return false;
    }
    let mut i: usize = 0;
    while i < a.len()
        invariant
            i <= a.len(),
            a@.len() == b@.len(),
            forall|j: int| 0 <= j < i ==> a@[j] == b@[j],
        decreases a.len() - i,
    {
        if a[i] != b[i] {
            return false;
        }
        i += 1;
    }
    proof {
        assert(a@ =~= b@);
    }
    true
}

/// A fresh copy of a byte string.
pub fn bytes_clone(a: &Vec<u8>) -> (r: Vec<u8>)
    ensures
        r@ == a@,
{
    let mut r: Vec<u8> = Vec::new();
    let mut i: usize = 0;
    while i < a.len()
        invariant
            i <= a.len(),
            r@.len() == i,
            forall|j: int| 0 <= j < i ==> r@[j] == a@[j],
        decreases a.len() - i,
    {
        r.push(a[i]);
        i += 1;
    }
    proof {
        assert(r@ =~= a@);
    }
    r
}

/// Renders `n` in decimal.
pub fn u32_to_dec(n: u32) -> (r: Vec<u8>)
    ensures
        r@ == dec_rep(n as nat),
    decreases n,
{
    if n < 10 {
        let mut r: Vec<u8> = Vec::new();
        r.push(48 + (n as u8));
        proof {
            assert(r@ =~= dec_rep(n as nat));
        }
        r
    } else {
        let mut r = u32_to_dec(n / 10);
        r.push(48 + ((n % 10) as u8));
        r
    }
}

/// Reads a whole byte string as an `i32`, exactly when `parse_i32_spec` gives
/// it a meaning.
pub fn parse_i32(s: &Vec<u8>) -> (r: Option<i32>)
    ensures
        r == parse_i32_spec(s@),
{
    let n = s.len();
    if n == 0 {
        return None;
    }
    let b0 = s[0];
    let neg = b0 == 45;
    let start: usize = if b0 == 45 || b0 == 43 { 1 } else { 0 };
    if start >= n {
        return None;
    }
    let ghost body = if s@[0] == 45 || s@[0] == 43 { s@.skip(1) } else { s@ };
    proof {
        assert(body =~= s@.subrange(start as int, n as int));
    }
    let mut i: usize = start;
    while i < n
        invariant
            start <= i <= n,
            start < n,
            n == s@.len(),
            start == 0 || start == 1,
            (start == 1) == (s@[0] == 45 || s@[0] == 43),
            body == s@.subrange(start as int, n as int),
            forall|j: int| start <= j < i ==> is_digit(#[trigger] s@[j]),
        decreases n - i,
    {
        let b = s[i];
        if b < 48 || b > 57 {
            proof {
                let sbody = if s@.len() > 0 && (s@[0] == 45 || s@[0] == 43) {
                    s@.skip(1)
                } else {
                    s@
                };
                assert(sbody =~= body);
                assert(body[i - start] == s@[i as int]);
                assert(!all_digits(sbody));
            }
            return None;
        }
        i += 1;
    }
    proof {
        assert forall|j: int| 0 <= j < body.len() implies is_digit(#[trigger] body[j]) by {
            assert(body[j] == s@[start + j]);
        }
    }
    assert(all_digits(body));
    let mut acc: u64 = 0;
    let mut i: usize = start;
    while i < n
        invariant
            start <= i <= n,
            start < n,
            n == s@.len(),
            start == 0 || start == 1,
            (start == 1) == (s@[0] == 45 || s@[0] == 43),
            body == s@.subrange(start as int, n as int),
            all_digits(body),
            forall|j: int| start <= j < n ==> is_digit(#[trigger] s@[j]),
            acc == digits_val(s@.subrange(start as int, i as int)),
            acc <= 2147483648,
        decreases n - i,
    {
        let d = (s[i] - 48) as u64;
        proof {
            assert(s@.subrange(start as int, i as int + 1).drop_last()
                =~= s@.subrange(start as int, i as int));
            assert(s@.subrange(start as int, i as int + 1).last() == s@[i as int]);
        }
        if acc > 214748364 || (acc == 214748364 && d > 8) {
            proof {
                let sbody = if s@.len() > 0 && (s@[0] == 45 || s@[0] == 43) {
                    s@.skip(1)
                } else {
                    s@
                };
                assert(sbody =~= body);
                let pre = body.take(i as int + 1 - start);
                assert(pre =~= s@.subrange(start as int, i as int + 1));
                assert(digits_val(pre) == acc * 10 + d);
                lemma_digits_val_prefix(body, i as int + 1 - start);
                assert(digits_val(body) >= digits_val(pre));
                assert(digits_val(pre) > 2147483648);
                assert(digits_val(sbody) > 2147483648);
            }
            return None;
        }
        acc = acc * 10 + d;
        i += 1;
    }
    assert(acc == digits_val(body));
    if neg {
        if acc <= 2147483647 {
            let v = acc as i32;
            Some(-v)
        } else {
            Some(i32::MIN)
        }
    } else {
        if acc <= 2147483647 {
            Some(acc as i32)
        } else {
            None
        }
    }
}

} // verus!
