use vstd::prelude::*;

use crate::numbers::{decimal, digit_char, digit_char_of, push_decimal};
use crate::text::{append_str, push_char};

verus! {

/// `num / den` rounded to the nearest whole number, ties to the even one.
pub open spec fn round_half_even(num: nat, den: nat) -> nat {
    let q = num / den;
    let r = num % den;
    if 2 * r > den || (2 * r == den && q % 2 == 1) {
        q + 1
    } else {
        q
    }
}

/// The spacing of the doubles near `b`: 1 below 2^53, doubling with each
/// further binary digit.
pub open spec fn f64_unit(b: nat) -> nat
    decreases b,
{
    if b < 0x20_0000_0000_0000 {
        1
    } else {
        2 * f64_unit(b / 2)
    }
}

/// The double nearest to `b`, ties to even, as `b as f64` gives it.
pub open spec fn as_f64(b: nat) -> nat {
    round_half_even(b, f64_unit(b)) * f64_unit(b)
}

/// The unit that `format_bytes` writes a size in: 0 for B, 1 for KB, up to
/// 4 for TB.
pub open spec fn unit_index(b: nat) -> nat {
    if b < 0x400 {
        0
    } else if b < 0x10_0000 {
        1
    } else if b < 0x4000_0000 {
        2
    } else if b < 0x100_0000_0000 {
        3
    } else {
        4
    }
}

/// 1024 to the power `k`.
pub open spec fn unit_scale(k: nat) -> nat {
    if k == 0 {
        1
    } else if k == 1 {
        0x400
    } else if k == 2 {
        0x10_0000
    } else if k == 3 {
        0x4000_0000
    } else {
        0x100_0000_0000
    }
}

pub open spec fn unit_name(k: nat) -> Seq<char> {
    if k == 0 {
        seq!['B']
    } else if k == 1 {
        seq!['K', 'B']
    } else if k == 2 {
        seq!['M', 'B']
    } else if k == 3 {
        seq!['G', 'B']
    } else {
        seq!['T', 'B']
    }
}

/// A size in bytes for people: plain bytes below 1 KB; otherwise the size in
/// the largest unit (up to TB) that it reaches, rounded to a whole number from
/// 10 of that unit on and to one decimal below it.
pub open spec fn bytes_text(b: nat) -> Seq<char> {
    let k = unit_index(b);
    if k == 0 {
        decimal(b) + seq![' ', 'B']
    } else {
        let f = as_f64(b);
        let s = unit_scale(k);
        if f >= 10 * s {
            decimal(round_half_even(f, s)) + seq![' '] + unit_name(k)
        } else {
            let t = round_half_even(f * 10, s);
            decimal(t / 10) + seq!['.', digit_char(t % 10), ' '] + unit_name(k)
        }
    }
}

fn round_half_even_exec(num: u128, den: u128) -> (r: u128)
    requires
        den > 0,
        den < 0x1_0000_0000_0000_0000,
        num < 0x1_0000_0000_0000_0000_0000,
    ensures
        r == round_half_even(num as nat, den as nat),
        num / den <= r <= num / den + 1,
        r <= num,
{
    let q = num / den;
    let rem = num % den;
    proof {
        vstd::arithmetic::div_mod::lemma_fundamental_div_mod(num as int, den as int);
        assert(q <= num) by (nonlinear_arith)
            requires
                num == den * q + rem,
                den >= 1,
                rem >= 0,
        ;
    }
    if 2 * rem > den || (2 * rem == den && q % 2 == 1) {
        assert(q + 1 <= num) by (nonlinear_arith)
            requires
                num == den * q + rem,
                den >= 1,
                rem >= 1,
        ;
        q + 1
    } else {
        q
    }
}

/// `b as f64`, held exactly as a whole number.
fn to_f64_exact(b: u64) -> (f: u128)
    ensures
        f == as_f64(b as nat),
        f <= b + 0x1000,
        f + 0x1000 >= b,
        b < 0x20_0000_0000_0000 ==> f == b,
{
    let mut u: u128 = 1;
    let mut c: u128 = b as u128;
    while c >= 0x20_0000_0000_0000
        invariant
            u > 0,
            c == (b as nat) / (u as nat),
            f64_unit(b as nat) == u * f64_unit(c as nat),
            u * c <= b,
            u * 0x20_0000_0000_0000 <= 2 * (b as nat) || u == 1,
            c <= b,
            b < 0x20_0000_0000_0000 ==> u == 1,
        decreases c,
    {
        proof {
            vstd::arithmetic::div_mod::lemma_div_denominator(b as int, u as int, 2);
            assert(u * c <= b);
            assert(u * 2 * (c / 2) <= u * c) by (nonlinear_arith)
                requires
                    u > 0,
            ;
            assert(u * 0x20_0000_0000_0000 <= u * c) by (nonlinear_arith)
                requires
                    c >= 0x20_0000_0000_0000,
            ;
            assert(f64_unit(c as nat) == 2 * f64_unit((c / 2) as nat));
            assert(u * f64_unit(c as nat) == (u * 2) * f64_unit((c / 2) as nat)) by (nonlinear_arith)
                requires
                    f64_unit(c as nat) == 2 * f64_unit((c / 2) as nat),
            ;
        }
        c = c / 2;
        u = u * 2;
    }
    proof {
        assert(f64_unit(c as nat) == 1);
        assert(f64_unit(b as nat) == u) by (nonlinear_arith)
            requires
                f64_unit(b as nat) == u * f64_unit(c as nat),
                f64_unit(c as nat) == 1,
        ;
        assert(u < 0x1000) by (nonlinear_arith)
            requires
                u * 0x20_0000_0000_0000 <= 2 * (b as nat) || u == 1,
                b < 0x1_0000_0000_0000_0000,
        ;
    }
    let m = round_half_even_exec(b as u128, u);
    proof {
        vstd::arithmetic::div_mod::lemma_fundamental_div_mod(b as int, u as int);
        assert(m * u <= b + u && m * u + u >= b) by (nonlinear_arith)
            requires
                (b as nat) / (u as nat) <= m <= (b as nat) / (u as nat) + 1,
                b == u * ((b as nat) / (u as nat)) + (b as nat) % (u as nat),
                0 <= (b as nat) % (u as nat) < u,
        ;
    }
    assert(b < 0x20_0000_0000_0000 ==> m * u == b) by {
        if b < 0x20_0000_0000_0000 {
            assert((b as nat) / 1 == b);
            assert((b as nat) % 1 == 0);
            assert(m == b);
            assert(m * u == b) by (nonlinear_arith)
                requires
                    u == 1,
                    m == b,
            ;
        }
    }
    m * u
}

fn unit_label(k: u64) -> (s: &'static str)
    requires
        1 <= k <= 4,
    ensures
        s@ == unit_name(k as nat),
{
    if k == 1 {
        proof {
            reveal_strlit("KB");
        }
        "KB"
    } else if k == 2 {
        proof {
            reveal_strlit("MB");
        }
        "MB"
    } else if k == 3 {
        proof {
            reveal_strlit("GB");
        }
        "GB"
    } else {
        proof {
            reveal_strlit("TB");
        }
        "TB"
    }
}

/// A size in bytes for people, such as `512 B`, `1.5 KB` or `17 GB`.
pub fn format_bytes(bytes: u64) -> (s: String)
    ensures
        s@ == bytes_text(bytes as nat),
{
    let k: u64 = if bytes < 0x400 {
        0
    } else if bytes < 0x10_0000 {
        1
    } else if bytes < 0x4000_0000 {
        2
    } else if bytes < 0x100_0000_0000 {
        3
    } else {
        4
    };
    let mut s = String::new();
    if k == 0 {
        push_decimal(&mut s, bytes);
        push_char(&mut s, ' ');
        push_char(&mut s, 'B');
        assert(s@ =~= bytes_text(bytes as nat));
        return s;
    }
    let scale: u128 = if k == 1 {
        0x400
    } else if k == 2 {
        0x10_0000
    } else if k == 3 {
        0x4000_0000
    } else {
        0x100_0000_0000
    };
    let f = to_f64_exact(bytes);
    if f >= 10 * scale {
        let whole = round_half_even_exec(f, scale);
        assert(whole <= f);
        push_decimal(&mut s, whole as u64);
    } else {
        assert(f == bytes);
        let t = round_half_even_exec(f * 10, scale);
        assert(t <= f * 10);
        push_decimal(&mut s, (t / 10) as u64);
        push_char(&mut s, '.');
        push_char(&mut s, digit_char_of((t % 10) as u64));
    }
    push_char(&mut s, ' ');
    append_str(&mut s, unit_label(k));
    assert(s@ =~= bytes_text(bytes as nat));
    s
}

} // verus!
