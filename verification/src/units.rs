//! Byte sizes as the listing prints them, and page arithmetic.
use vstd::prelude::*;
use crate::error::InfoErr;
use crate::text::{
    dec_chars, dec_text, lemma_no_carriage_return_concat, lemma_numerals_no_carriage_return,
    lemma_padding_no_carriage_return, no_carriage_return, pad_left, push_padded_left,
    string_from_chars,
};

verus! {

// ---------------------------------------------------------------------------
// Powers and bit lengths
// ---------------------------------------------------------------------------

pub open spec fn two_to(n: nat) -> nat
    decreases n,
{
    if n == 0 {
        1
    } else {
        2 * two_to((n - 1) as nat)
    }
}

pub open spec fn pow10(k: nat) -> nat
    decreases k,
{
    if k == 0 {
        1
    } else {
        10 * pow10((k - 1) as nat)
    }
}

/// The number of binary digits of `n` (0 for 0).
pub open spec fn bit_len(n: nat) -> nat
    decreases n,
{
    if n == 0 {
        0
    } else {
        1 + bit_len(n / 2)
    }
}

proof fn lemma_two_to_positive(n: nat)
    ensures
        two_to(n) > 0,
    decreases n,
{
    if n > 0 {
        lemma_two_to_positive((n - 1) as nat);
    }
}

proof fn lemma_two_to_add(a: nat, b: nat)
    ensures
        two_to(a + b) == two_to(a) * two_to(b),
    decreases a,
{
    if a > 0 {
        lemma_two_to_add((a - 1) as nat, b);
        assert((a - 1) as nat + b == (a + b - 1) as nat);
        assert(two_to(a + b) == 2 * two_to((a + b - 1) as nat));
        assert(two_to(a) * two_to(b) == 2 * (two_to((a - 1) as nat) * two_to(b))) by (nonlinear_arith)
            requires
                two_to(a) == 2 * two_to((a - 1) as nat),
        ;
    } else {
        assert(two_to(a) == 1);
        assert(a + b == b);
    }
}

proof fn lemma_two_to_mono(a: nat, b: nat)
    requires
        a <= b,
    ensures
        two_to(a) <= two_to(b),
    decreases b,
{
    if a < b {
        lemma_two_to_mono(a, (b - 1) as nat);
        lemma_two_to_positive((b - 1) as nat);
    }
}

proof fn lemma_two_to_65()
    ensures
        two_to(53) == 0x20_0000_0000_0000,
        two_to(64) == 0x1_0000_0000_0000_0000,
        two_to(65) == 0x2_0000_0000_0000_0000,
{
    reveal_with_fuel(two_to, 66);
}

proof fn lemma_pow10_bound(k: nat)
    requires
        k <= 10,
    ensures
        1 <= pow10(k) <= 10_000_000_000,
    decreases k,
{
    reveal_with_fuel(pow10, 11);
    if k > 0 {
        lemma_pow10_bound((k - 1) as nat);
    }
}

/// `2^(bit_len(n) - 1) <= n < 2^bit_len(n)`.
proof fn lemma_bit_len(n: nat)
    ensures
        n < two_to(bit_len(n)),
        n >= 1 ==> two_to((bit_len(n) - 1) as nat) <= n,
        n >= 1 ==> bit_len(n) >= 1,
    decreases n,
{
    if n > 0 {
        lemma_bit_len(n / 2);
        if n / 2 >= 1 {
            assert(bit_len(n / 2) >= 1);
        } else {
            assert(bit_len(n / 2) == 0);
        }
    }
}

proof fn lemma_bit_len_at_most(n: nat, j: nat)
    requires
        n < two_to(j),
    ensures
        bit_len(n) <= j,
{
    lemma_bit_len(n);
    if bit_len(n) > j {
        lemma_two_to_mono(j, (bit_len(n) - 1) as nat);
    }
}

proof fn lemma_bit_len_at_least(n: nat, j: nat)
    requires
        two_to(j) <= n,
    ensures
        j < bit_len(n),
{
    lemma_bit_len(n);
    if bit_len(n) <= j {
        lemma_two_to_mono(bit_len(n), j);
    }
}

fn bit_length(n: u128) -> (b: u128)
    requires
        n <= 0x2_0000_0000_0000_0000,
    ensures
        b == bit_len(n as nat),
        b <= 66,
{
    proof {
        lemma_two_to_65();
        lemma_bit_len_at_most(n as nat, 66);
        reveal_with_fuel(two_to, 67);
    }
    let mut v = n;
    let mut b: u128 = 0;
    while v > 0
        invariant
            b + bit_len(v as nat) == bit_len(n as nat),
            bit_len(n as nat) <= 66,
        decreases v,
    {
        v = v / 2;
        b = b + 1;
    }
    b
}

fn power_of_two(n: u128) -> (p: u128)
    requires
        n <= 65,
    ensures
        p == two_to(n as nat),
{
    proof {
        lemma_two_to_65();
    }
    let mut p: u128 = 1;
    let mut i: u128 = 0;
    while i < n
        invariant
            i <= n <= 65,
            p == two_to(i as nat),
        decreases n - i,
    {
        proof {
            lemma_two_to_mono(i as nat, 64);
            lemma_two_to_65();
        }
        p = p * 2;
        i = i + 1;
    }
    p
}

// ---------------------------------------------------------------------------
// Byte sizes
// ---------------------------------------------------------------------------

/// `size as f64`: `size` when it fits in 53 bits, else `size` rounded to
/// the nearest number with 53 significant bits, ties to an even last bit.
pub open spec fn float_value(size: nat) -> nat {
    let b = bit_len(size);
    if b <= 53 {
        size
    } else {
        let u = two_to((b - 53) as nat);
        let m = size / u;
        let rem = size % u;
        if 2 * rem < u || (2 * rem == u && m % 2 == 0) {
            m * u
        } else {
            (m + 1) * u
        }
    }
}

/// Whether the rounding interval of the float `f` holds its ends: its
/// 53-bit significand is even.
pub open spec fn interval_closed(f: nat) -> bool {
    let b = bit_len(f);
    b < 53 || (f / two_to((b - 53) as nat)) % 2 == 0
}

/// A float whose significand is a power of two: the gap to the next lower
/// float is half the gap to the next higher one.
pub open spec fn is_power_of_two(f: nat) -> bool {
    f == two_to((bit_len(f) - 1) as nat)
}

pub open spec fn within(lhs: nat, bound: nat, closed: bool) -> bool {
    lhs < bound || (closed && lhs == bound)
}

/// For the value `f / 1024` and decimals with `k` digits after the point,
/// a distance of `d / (1024 * 10^k)`, scaled, is compared with half the gap
/// between `f` and its neighbour, `2^(bit_len(f) - 53) / 1024`. This is the
/// scaled half gap.
pub open spec fn half_gap_bound(f: nat, k: nat) -> nat {
    pow10(k) * two_to(bit_len(f))
}

/// A decimal `d / (1024 * 10^k)` above `f / 1024` rounds back to it.
pub open spec fn above_ok(f: nat, k: nat, d: nat) -> bool {
    within(2 * d * two_to(53), half_gap_bound(f, k), interval_closed(f))
}

/// A decimal `d / (1024 * 10^k)` below `f / 1024` rounds back to it.
pub open spec fn below_ok(f: nat, k: nat, d: nat) -> bool {
    within(
        (if is_power_of_two(f) {
            4nat
        } else {
            2nat
        }) * d * two_to(53),
        half_gap_bound(f, k),
        interval_closed(f),
    )
}

/// The fraction of `f / 1024` scaled by `10^k`, times 1024.
pub open spec fn scaled_fraction(f: nat, k: nat) -> nat {
    (f % 1024) * pow10(k)
}

/// The digits after the point of the `k`-digit decimal just below (or at)
/// `f / 1024`, and their distance to it in units of `1 / (1024 * 10^k)`.
pub open spec fn floor_digits(f: nat, k: nat) -> nat {
    scaled_fraction(f, k) / 1024
}

pub open spec fn below_gap(f: nat, k: nat) -> nat {
    scaled_fraction(f, k) % 1024
}

/// The same for the `k`-digit decimal just above (or at) `f / 1024`.
pub open spec fn ceil_digits(f: nat, k: nat) -> nat {
    if below_gap(f, k) == 0 {
        floor_digits(f, k)
    } else {
        floor_digits(f, k) + 1
    }
}

pub open spec fn above_gap(f: nat, k: nat) -> nat {
    if below_gap(f, k) == 0 {
        0
    } else {
        (1024 - below_gap(f, k)) as nat
    }
}

/// Some decimal with `k` digits after the point rounds back to `f / 1024`.
pub open spec fn digits_ok(f: nat, k: nat) -> bool {
    below_ok(f, k, below_gap(f, k)) || above_ok(f, k, above_gap(f, k))
}

/// The least number of digits after the point, from `k` on, that a
/// decimal rounding back to `f / 1024` needs (ten always suffice: the value
/// is exact there).
pub open spec fn shortest_from(f: nat, k: nat) -> nat
    decreases 10 - k,
{
    if k >= 10 || digits_ok(f, k) {
        k
    } else {
        shortest_from(f, k + 1)
    }
}

/// Of the two `k`-digit neighbours, the one shown: the only one that rounds
/// back, or where both do the closer, the upper one on a tie.
pub open spec fn chosen_digits(f: nat, k: nat) -> nat {
    let lo = below_ok(f, k, below_gap(f, k));
    let hi = above_ok(f, k, above_gap(f, k));
    if lo && hi {
        if above_gap(f, k) <= below_gap(f, k) {
            ceil_digits(f, k)
        } else {
            floor_digits(f, k)
        }
    } else if lo {
        floor_digits(f, k)
    } else {
        ceil_digits(f, k)
    }
}

/// The shortest decimal that rounds back to the float `f / 1024`, where `f`
/// is `size as f64`: what `{}` prints for `size as f64 / 1024.0` (no
/// fractional part when it needs none).
pub open spec fn kib_text(size: nat) -> Seq<char> {
    let f = float_value(size);
    let k = shortest_from(f, 0);
    let t = chosen_digits(f, k);
    let q = f / 1024;
    if k == 0 {
        dec_text(q + t)
    } else {
        dec_text(q + t / pow10(k)) + seq!['.'] + pad_left(dec_text(t % pow10(k)), k, '0')
    }
}

/// How a byte count is shown: below one KiB as `"<n> B"`, otherwise as
/// `format!("{}KB", size as f64 / 1024.0)` prints it: the shortest decimal
/// that reads back as that float, then `"KB"` (`1024` gives `"1KB"`, `1536`
/// gives `"1.5KB"`).
pub open spec fn byte_size_text(size: nat) -> Seq<char> {
    if size < 1024 {
        dec_text(size) + seq![' ', 'B']
    } else {
        kib_text(size) + seq!['K', 'B']
    }
}

/// `size as f64`, as an integer.
fn float_of(size: u64) -> (f: u128)
    ensures
        f == float_value(size as nat),
        f <= 0x1_0000_0000_0000_0000,
        size >= 1024 ==> f >= 1024,
{
    proof {
        lemma_two_to_65();
        lemma_bit_len(size as nat);
        lemma_bit_len_at_most(size as nat, 64);
    }
    let b = bit_length(size as u128);
    if b <= 53 {
        size as u128
    } else {
        let ghost sz = size as nat;
        let u = power_of_two(b - 53);
        proof {
            lemma_two_to_add(53, (b - 53) as nat);
            lemma_two_to_add(52, (b - 53) as nat);
            lemma_two_to_mono(b as nat, 64);
            lemma_two_to_positive((b - 53) as nat);
            assert((53 + (b - 53)) as nat == b as nat);
            assert((52 + (b - 53)) as nat == (b - 1) as nat);
        }
        let m = size as u128 / u;
        let rem = size as u128 % u;
        proof {
            let un = u as nat;
            let t53 = two_to(53);
            assert(two_to(b as nat) == t53 * un);
            assert(sz < two_to(b as nat));
            assert(two_to(b as nat) <= 0x1_0000_0000_0000_0000);
            assert(sz < t53 * un);
            assert(two_to(52) * un <= sz);
            assert(two_to(52) == 0x10_0000_0000_0000) by {
                reveal_with_fuel(two_to, 54);
            }
            assert(m < t53 && m >= two_to(52)) by (nonlinear_arith)
                requires
                    sz < t53 * un,
                    two_to(52) * un <= sz,
                    m == sz / un,
                    un > 0,
            ;
            assert((m + 1) * un <= t53 * un) by (nonlinear_arith)
                requires
                    m < t53,
                    un > 0,
            ;
            assert(m * un >= 1024) by (nonlinear_arith)
                requires
                    m >= 0x10_0000_0000_0000,
                    un > 0,
            ;
        }
        proof {
            assert(m * (u as nat) <= (m + 1) * (u as nat)) by (nonlinear_arith);
        }
        if 2 * rem < u || (2 * rem == u && m % 2 == 0) {
            m * u
        } else {
            (m + 1) * u
        }
    }
}

/// Whether some decimal with `k` digits after the point rounds back to
/// `f / 1024`, and which of the two neighbours is shown.
fn digits_at(
    r: u128,
    p: u128,
    tb: u128,
    t53: u128,
    closed: bool,
    pow2: bool,
    Ghost(f): Ghost<nat>,
    Ghost(k): Ghost<nat>,
) -> (res: (bool, u128))
    requires
        r == f % 1024,
        p == pow10(k),
        k <= 10,
        tb == two_to(bit_len(f)),
        bit_len(f) <= 65,
        t53 == two_to(53),
        closed == interval_closed(f),
        pow2 == is_power_of_two(f),
    ensures
        res.0 == digits_ok(f, k),
        res.1 == chosen_digits(f, k),
        res.1 <= p,
{
    proof {
        lemma_pow10_bound(k);
        lemma_two_to_65();
        lemma_two_to_mono(bit_len(f), 65);
        assert(r * p <= 1023 * 10_000_000_000) by (nonlinear_arith)
            requires
                r <= 1023,
                p <= 10_000_000_000,
        ;
        assert(p * tb <= 10_000_000_000 * 0x2_0000_0000_0000_0000) by (nonlinear_arith)
            requires
                tb <= 0x2_0000_0000_0000_0000,
                p <= 10_000_000_000,
        ;
    }
    let s = r * p;
    let tlo = s / 1024;
    let dlo = s % 1024;
    let thi: u128 = if dlo == 0 {
        tlo
    } else {
        tlo + 1
    };
    let dhi: u128 = if dlo == 0 {
        0
    } else {
        1024 - dlo
    };
    let bound = p * tb;
    let lo_lhs = (if pow2 {
        4
    } else {
        2
    }) * dlo * t53;
    let hi_lhs = 2 * dhi * t53;
    let lo = lo_lhs < bound || (closed && lo_lhs == bound);
    let hi = hi_lhs < bound || (closed && hi_lhs == bound);
    proof {
        assert(s == scaled_fraction(f, k));
        assert(tlo < p) by (nonlinear_arith)
            requires
                tlo == s / 1024,
                s == r * p,
                r < 1024,
                p >= 1,
        ;
    }
    let t = if lo && hi {
        if dhi <= dlo {
            thi
        } else {
            tlo
        }
    } else if lo {
        tlo
    } else {
        thi
    };
    (lo || hi, t)
}

proof fn lemma_shortest_from(f: nat, k: nat)
    requires
        k <= 10,
    ensures
        k <= shortest_from(f, k) <= 10,
        shortest_from(f, k) < 10 ==> digits_ok(f, shortest_from(f, k)),
        forall|j: nat| k <= j < shortest_from(f, k) ==> !digits_ok(f, j),
    decreases 10 - k,
{
    if k < 10 && !digits_ok(f, k) {
        lemma_shortest_from(f, k + 1);
    }
}

/// Formats a byte count for the listing: `"<n> B"` below 1024 bytes, else
/// `size as f64 / 1024.0` printed with `{}`, followed by `"KB"`.
pub fn format_byte_size(size: u64) -> (s: String)
    ensures
        s@ == byte_size_text(size as nat),
{
    let mut out: Vec<char>;
    if size < 1024 {
        out = dec_chars(size);
        out.push(' ');
        out.push('B');
    } else {
        let f = float_of(size);
        let ghost fv = f as nat;
        proof {
            lemma_two_to_65();
            lemma_bit_len_at_most(fv, 65);
            assert(two_to(10) == 1024) by {
                reveal_with_fuel(two_to, 11);
            }
            lemma_bit_len_at_least(fv, 10);
        }
        let b = bit_length(f);
        let tb = power_of_two(b);
        let closed = if b < 53 {
            true
        } else {
            let g = power_of_two(b - 53);
            proof {
                lemma_two_to_positive((b - 53) as nat);
            }
            (f / g) % 2 == 0
        };
        let pow2 = f == power_of_two(b - 1);
        let t53 = power_of_two(53);
        let q = f / 1024;
        let r = f % 1024;
        let mut k: u128 = 0;
        let mut p: u128 = 1;
        let (mut ok, mut t) = digits_at(r, p, tb, t53, closed, pow2, Ghost(fv), Ghost(0));
        proof {
            lemma_shortest_from(fv, 0);
        }
        while !ok && k < 10
            invariant
                k <= 10,
                p == pow10(k as nat),
                shortest_from(fv, 0) == shortest_from(fv, k as nat),
                ok == digits_ok(fv, k as nat),
                t == chosen_digits(fv, k as nat),
                t <= p,
                r == fv % 1024,
                tb == two_to(bit_len(fv)),
                bit_len(fv) <= 65,
                t53 == two_to(53),
                closed == interval_closed(fv),
                pow2 == is_power_of_two(fv),
            decreases 10 - k,
        {
            proof {
                lemma_pow10_bound(k as nat);
            }
            k = k + 1;
            p = p * 10;
            let res = digits_at(r, p, tb, t53, closed, pow2, Ghost(fv), Ghost(k as nat));
            ok = res.0;
            t = res.1;
        }
        assert(shortest_from(fv, k as nat) == k as nat);
        proof {
            assert(q <= 0x40_0000_0000_0000);
            lemma_pow10_bound(k as nat);
            assert(t / p <= 1 && t % p < p) by (nonlinear_arith)
                requires
                    t <= p,
                    p >= 1,
            ;
        }
        if k == 0 {
            out = dec_chars((q + t) as u64);
        } else {
            out = dec_chars((q + t / p) as u64);
            out.push('.');
            let frac = dec_chars((t % p) as u64);
            push_padded_left(&mut out, &frac, k as usize, '0');
        }
        out.push('K');
        out.push('B');
    }
    string_from_chars(&out)
}

/// Law: the shown number reads back as the float: it lies within the
/// float's rounding interval, and no decimal with fewer digits after the
/// point does (neither neighbour of the float at any shorter length).
pub proof fn lemma_shown_size_reads_back(size: nat)
    requires
        1024 <= size <= u64::MAX,
    ensures
        ({
            let f = float_value(size);
            let k = shortest_from(f, 0);
            &&& k <= 10
            &&& chosen_digits(f, k) == floor_digits(f, k) ==> below_ok(f, k, below_gap(f, k))
                || (below_gap(f, k) == 0 && above_ok(f, k, 0))
            &&& chosen_digits(f, k) != floor_digits(f, k) ==> above_ok(f, k, above_gap(f, k))
            &&& forall|j: nat| j < k ==> !digits_ok(f, j)
        }),
{
    let f = float_value(size);
    lemma_shortest_from(f, 0);
    let k = shortest_from(f, 0);
    assert(k <= 10);
    lemma_pow10_bound(k);
    lemma_two_to_positive(bit_len(f));
    assert(half_gap_bound(f, k) > 0) by (nonlinear_arith)
        requires
            half_gap_bound(f, k) == pow10(k) * two_to(bit_len(f)),
            pow10(k) >= 1,
            two_to(bit_len(f)) > 0,
    ;
    assert(2 * 0nat * two_to(53) == 0) by (nonlinear_arith);
    assert(above_ok(f, k, 0));
    if k == 10 {
        reveal_with_fuel(pow10, 11);
        assert(pow10(10) == 10_000_000_000);
        let r = f % 1024;
        assert(r * 10_000_000_000 == (r * 9765625) * 1024) by (nonlinear_arith);
        vstd::arithmetic::div_mod::lemma_mod_multiples_basic((r * 9765625) as int, 1024);
        assert((r * 10_000_000_000) % 1024 == 0);
        assert(scaled_fraction(f, 10) == r * 10_000_000_000);
        assert(below_gap(f, 10) == 0);
        lemma_bit_len(f);
        lemma_two_to_positive(bit_len(f));
        assert(half_gap_bound(f, 10) > 0) by (nonlinear_arith)
            requires
                half_gap_bound(f, 10) == 10_000_000_000 * two_to(bit_len(f)),
                two_to(bit_len(f)) > 0,
        ;
    }
}

/// `n` rounded up to a whole number of pages.
pub open spec fn round_up_to_page(n: nat, page: nat) -> nat {
    ((n + page - 1) as nat / page) * page
}

/// Rounds `n` up to a whole number of pages, as
/// `((n + page - 1) / page) * page`.
pub fn round_up_to_page_size(n: u64, page: u64) -> (r: u64)
    requires
        page > 0,
        n + page <= u64::MAX,
    ensures
        r as nat == round_up_to_page(n as nat, page as nat),
{
    proof {
        lemma_round_up_to_page(n as nat, page as nat);
    }
    ((n + page - 1) / page) * page
}

/// Law: rounding up gives the least multiple of the page size that is not
/// below `n`.
pub proof fn lemma_round_up_to_page(n: nat, page: nat)
    requires
        page > 0,
    ensures
        round_up_to_page(n, page) % page == 0,
        n <= round_up_to_page(n, page),
        round_up_to_page(n, page) < n + page,
{
    let m = (n + page - 1) as nat;
    let q = m / page;
    vstd::arithmetic::div_mod::lemma_fundamental_div_mod(m as int, page as int);
    vstd::arithmetic::mul::lemma_mul_is_commutative(q as int, page as int);
    vstd::arithmetic::div_mod::lemma_mod_multiples_basic(q as int, page as int);
    assert(m == page * q + m % page);
    assert(0 <= m % page < page);
}

/// The page size from what `sysconf(_SC_PAGESIZE)` returned: `-1` reports
/// failure, any other value is the page size.
pub fn page_size_from_sysconf(raw: i64) -> (r: Result<u64, InfoErr>)
    ensures
        raw == -1 ==> r == Err::<u64, InfoErr>(InfoErr::PageErr),
        raw != -1 ==> r == Ok::<u64, InfoErr>(raw as u64),
{
    if raw == -1 {
        Err(InfoErr::PageErr)
    } else {
        Ok(raw as u64)
    }
}



/// The size text of any byte count holds no carriage return.
pub proof fn lemma_byte_size_no_carriage_return(size: nat)
    ensures
        no_carriage_return(byte_size_text(size)),
{
    if size < 1024 {
        lemma_numerals_no_carriage_return(size);
        lemma_no_carriage_return_concat(dec_text(size), seq![' ', 'B']);
    } else {
        let f = float_value(size);
        let k = shortest_from(f, 0);
        let t = chosen_digits(f, k);
        let q = f / 1024;
        if k == 0 {
            lemma_numerals_no_carriage_return(q + t);
        } else {
            let a = dec_text(q + t / pow10(k));
            let b = pad_left(dec_text(t % pow10(k)), k, '0');
            lemma_numerals_no_carriage_return(q + t / pow10(k));
            lemma_numerals_no_carriage_return(t % pow10(k));
            lemma_padding_no_carriage_return(dec_text(t % pow10(k)), k, '0');
            lemma_no_carriage_return_concat(a, seq!['.']);
            lemma_no_carriage_return_concat(a + seq!['.'], b);
        }
        lemma_no_carriage_return_concat(kib_text(size), seq!['K', 'B']);
    }
}

} // verus!
