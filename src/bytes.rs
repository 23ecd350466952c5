//! Reading fixed-width integers out of byte windows.
use vstd::prelude::*;

verus! {

/// The order in which the bytes of a multi-byte scalar are laid out.
#[derive(Clone, Copy, Debug, PartialEq, Eq, Structural)]
pub enum ByteOrder {
    Little,
    Big,
}

/// The bytes of `b` from the most significant to the least significant one.
pub open spec fn msb_first(b: Seq<u8>, order: ByteOrder) -> Seq<u8> {
    match order {
        ByteOrder::Little => b.reverse(),
        ByteOrder::Big => b,
    }
}

/// The number whose base-256 digits, most significant first, are `s`.
pub open spec fn digits_value(s: Seq<u8>) -> nat
    decreases s.len(),
{
    if s.len() == 0 {
        0
    } else {
        digits_value(s.drop_last()) * 256 + s.last() as nat
    }
}

/// `256` to the power `n`.
pub open spec fn radix_pow(n: nat) -> nat
    decreases n,
{
    if n == 0 {
        1
    } else {
        256 * radix_pow((n - 1) as nat)
    }
}

/// The unsigned number that the window `b` holds under `order`.
pub open spec fn unsigned_of(b: Seq<u8>, order: ByteOrder) -> nat {
    digits_value(msb_first(b, order))
}

/// The two's complement number that the window `b` holds under `order`.
pub open spec fn signed_of(b: Seq<u8>, order: ByteOrder) -> int {
    let u = unsigned_of(b, order);
    let full = radix_pow(b.len());
    if b.len() > 0 && u * 2 >= full {
        u - full
    } else {
        u as int
    }
}

/// The powers of 256 that the integer widths take.
pub proof fn lemma_radix_pow_values()
    ensures
        radix_pow(1) == 0x100,
        radix_pow(2) == 0x1_0000,
        radix_pow(4) == 0x1_0000_0000,
        radix_pow(8) == 0x1_0000_0000_0000_0000,
{
    reveal_with_fuel(radix_pow, 9);
}

/// A number of `n` base-256 digits is below `256` to the power `n`.
pub proof fn lemma_digits_bound(s: Seq<u8>)
    ensures
        digits_value(s) < radix_pow(s.len()),
    decreases s.len(),
{
    if s.len() > 0 {
        lemma_digits_bound(s.drop_last());
        let p = radix_pow((s.len() - 1) as nat);
        let d = digits_value(s.drop_last());
        assert(d * 256 + 255 < 256 * p) by (nonlinear_arith)
            requires
                d < p,
        ;
    }
}

/// Reads the unsigned number held by `b`, which is at most eight bytes wide.
pub fn read_unsigned(b: &[u8], order: ByteOrder) -> (r: u64)
    requires
        b@.len() <= 8,
    ensures
        r as nat == unsigned_of(b@, order),
{
    let ghost s = msb_first(b@, order);
    let n = b.len();
    let mut acc: u64 = 0;
    let mut i: usize = 0;
    while i < n
        invariant
            n == b@.len(),
            n <= 8,
            s == msb_first(b@, order),
            s.len() == n,
            i <= n,
            acc as nat == digits_value(s.subrange(0, i as int)),
        decreases n - i,
    {
        let d = match order {
            ByteOrder::Little => b[n - 1 - i],
            ByteOrder::Big => b[i],
        };
        assert(d == s[i as int]);
        let ghost prefix = s.subrange(0, i as int + 1);
        assert(prefix.drop_last() =~= s.subrange(0, i as int));
        proof {
            lemma_digits_bound(s.subrange(0, i as int));
            lemma_radix_pow_values();
            lemma_radix_pow_mono(i as nat, 7);
        }
        acc = acc * 256 + d as u64;
        i = i + 1;
    }
    assert(s.subrange(0, n as int) =~= s);
    acc
}

/// Whether `n` is the width in bytes of one of the integer types.
pub open spec fn is_int_width(n: nat) -> bool {
    n == 1 || n == 2 || n == 4 || n == 8
}

/// Reads the two's complement number held by `b`, which is one, two, four or
/// eight bytes wide.
pub fn read_signed(b: &[u8], order: ByteOrder) -> (r: i64)
    requires
        is_int_width(b@.len()),
    ensures
        r as int == signed_of(b@, order),
{
    let u = read_unsigned(b, order);
    proof {
        lemma_radix_pow_values();
        lemma_digits_bound(msb_first(b@, order));
    }
    let n = b.len();
    if n == 1 {
        if u >= 0x80 {
            u as i64 - 0x100
        } else {
            u as i64
        }
    } else if n == 2 {
        if u >= 0x8000 {
            u as i64 - 0x1_0000
        } else {
            u as i64
        }
    } else if n == 4 {
        if u >= 0x8000_0000 {
            u as i64 - 0x1_0000_0000
        } else {
            u as i64
        }
    } else if u >= 0x8000_0000_0000_0000 {
        -((u64::MAX - u) as i64) - 1
    } else {
        u as i64
    }
}

/// Powers of 256 grow with the exponent.
proof fn lemma_radix_pow_mono(a: nat, b: nat)
    requires
        a <= b,
    ensures
        radix_pow(a) <= radix_pow(b),
    decreases b,
{
    if a < b {
        lemma_radix_pow_mono(a, (b - 1) as nat);
    }
}

} // verus!
