//! Hexadecimal numbers: reading the digits of a text, writing a fixed number of digits.
use vstd::prelude::*;

verus! {

/// Whether `c` is an ASCII hexadecimal digit (the digits `u32::from_str_radix` accepts in base 16).
pub open spec fn is_hex_digit(c: char) -> bool {
    ('0' <= c && c <= '9') || ('A' <= c && c <= 'F') || ('a' <= c && c <= 'f')
}

/// The value of the hexadecimal digit `c`.
pub open spec fn hex_digit_value(c: char) -> nat {
    if '0' <= c && c <= '9' {
        ((c as u32) - ('0' as u32)) as nat
    } else if 'A' <= c && c <= 'F' {
        ((c as u32) - ('A' as u32) + 10) as nat
    } else {
        ((c as u32) - ('a' as u32) + 10) as nat
    }
}

/// Whether all characters of `s` are hexadecimal digits.
pub open spec fn all_hex_digits(s: Seq<char>) -> bool {
    forall|k: int| 0 <= k < s.len() ==> is_hex_digit(#[trigger] s[k])
}

/// The number that the hexadecimal digits `s` write, most significant first.
pub open spec fn hex_value(s: Seq<char>) -> nat
    decreases s.len(),
{
    if s.len() == 0 {
        0
    } else {
        hex_value(s.drop_last()) * 16 + hex_digit_value(s.last())
    }
}

/// Sixteen to the power `n`.
pub open spec fn pow16(n: nat) -> nat
    decreases n,
{
    if n == 0 {
        1
    } else {
        16 * pow16((n - 1) as nat)
    }
}

/// The upper-case hexadecimal digit for `d < 16`.
pub open spec fn hex_char(d: nat) -> char {
    if d < 10 {
        (48 + d) as char
    } else {
        (55 + d) as char
    }
}

/// The last `n` hexadecimal digits of `v`, upper case, zero-padded (`format!("{:0nX}")` for
/// `v < 16^n`).
pub open spec fn hex_digits(v: nat, n: nat) -> Seq<char>
    decreases n,
{
    if n == 0 {
        seq![]
    } else {
        hex_digits(v / 16, (n - 1) as nat).push(hex_char(v % 16))
    }
}

proof fn lemma_hex_step(v: nat, p: nat, d: nat)
    by (nonlinear_arith)
    requires
        v < p,
        d < 16,
    ensures
        v * 16 + d < p * 16,
{
}

/// The value of the hexadecimal digits `s`, or `None` when one of them is not a hex digit.
pub fn hex_value_exec(s: &[char]) -> (r: Option<u32>)
    requires
        s.len() <= 7,
    ensures
        r is Some <==> all_hex_digits(s@),
        r matches Some(v) ==> v as nat == hex_value(s@) && (v as nat) < pow16(s@.len()),
{
    let mut v: u32 = 0;
    let mut k: usize = 0;
    while k < s.len()
        invariant
            k <= s.len() <= 7,
            v as nat == hex_value(s@.subrange(0, k as int)),
            (v as nat) < pow16(k as nat),
            forall|m: int| 0 <= m < k ==> is_hex_digit(#[trigger] s@[m]),
        decreases s.len() - k,
    {
        let c = s[k];
        let d: u32;
        if '0' <= c && c <= '9' {
            d = (c as u32) - ('0' as u32);
        } else if 'A' <= c && c <= 'F' {
            d = (c as u32) - ('A' as u32) + 10;
        } else if 'a' <= c && c <= 'f' {
            d = (c as u32) - ('a' as u32) + 10;
        } else {
            assert(!all_hex_digits(s@));
            return None;
        }
        proof {
            lemma_hex_step(v as nat, pow16(k as nat), d as nat);
            reveal_with_fuel(pow16, 8);
            assert(s@.subrange(0, k + 1).drop_last() =~= s@.subrange(0, k as int));
        }
        v = v * 16 + d;
        k += 1;
    }
    assert(s@.subrange(0, s.len() as int) =~= s@);
    Some(v)
}

/// The upper-case hexadecimal digit for `d < 16`.
pub fn hex_char_exec(d: u32) -> (c: char)
    requires
        d < 16,
    ensures
        c == hex_char(d as nat),
{
    if d < 10 {
        ((d as u8) + 48) as char
    } else {
        ((d as u8) + 55) as char
    }
}

/// The last `n` hexadecimal digits of `v`, upper case, zero-padded.
pub fn hex_digits_exec(v: u32, n: usize) -> (r: Vec<char>)
    ensures
        r@ == hex_digits(v as nat, n as nat),
    decreases n,
{
    if n == 0 {
        Vec::new()
    } else {
        let mut r = hex_digits_exec(v / 16, n - 1);
        r.push(hex_char_exec(v % 16));
        r
    }
}

/// `hex_digits(v, n)` has `n` digits, each an upper-case hex digit.
pub proof fn lemma_hex_digits_len(v: nat, n: nat)
    ensures
        hex_digits(v, n).len() == n,
    decreases n,
{
    if n > 0 {
        lemma_hex_digits_len(v / 16, (n - 1) as nat);
    }
}

proof fn lemma_hex_char(d: nat)
    requires
        d < 16,
    ensures
        ('0' <= hex_char(d) && hex_char(d) <= '9') || ('A' <= hex_char(d) && hex_char(d) <= 'F'),
        hex_digit_value(hex_char(d)) == d,
{
}

/// Writing `v < 16^n` as `n` hex digits uses the digits `0-9` and `A-F` only, and reading
/// them back gives `v`.
pub proof fn lemma_hex_digits_read_back(v: nat, n: nat)
    requires
        v < pow16(n),
    ensures
        hex_digits(v, n).len() == n,
        forall|k: int|
            0 <= k < n ==> ('0' <= #[trigger] hex_digits(v, n)[k] && hex_digits(v, n)[k] <= '9') || (
            'A' <= hex_digits(v, n)[k] && hex_digits(v, n)[k] <= 'F'),
        hex_value(hex_digits(v, n)) == v,
    decreases n,
{
    lemma_hex_digits_len(v, n);
    if n > 0 {
        let p = pow16((n - 1) as nat);
        assert(pow16(n) == 16 * p);
        assert(v / 16 < p) by (nonlinear_arith)
            requires
                v < 16 * p,
        ;
        lemma_hex_digits_read_back(v / 16, (n - 1) as nat);
        let r = hex_digits(v / 16, (n - 1) as nat);
        let t = hex_digits(v, n);
        assert(t == r.push(hex_char(v % 16)));
        lemma_hex_char(v % 16);
        assert(t.drop_last() =~= r);
        assert(v == (v / 16) * 16 + v % 16) by (nonlinear_arith);
        assert forall|k: int| 0 <= k < n implies ('0' <= #[trigger] t[k] && t[k] <= '9') || ('A'
            <= t[k] && t[k] <= 'F') by {
            if k < n - 1 {
                assert(t[k] == r[k]);
            }
        }
    }
}

} // verus!
