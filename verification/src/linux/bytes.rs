//! Integers as bytes.

use vstd::arithmetic::power::pow;
use vstd::prelude::*;
use vstd::slice::slice_subrange;

verus! {

/// The order of the bytes of an integer in memory.
#[derive(Clone, Copy, Debug, PartialEq, Eq, Structural)]
pub enum ByteOrder {
    LittleEndian,
    BigEndian,
}

/// The integer whose bytes are `s`, the least significant first.
pub open spec fn le_value(s: Seq<u8>) -> nat
    decreases s.len(),
{
    if s.len() == 0 {
        0
    } else {
        s[0] as nat + 256 * le_value(s.drop_first())
    }
}

/// The integer whose bytes are `s` in the given order.
pub open spec fn value(s: Seq<u8>, order: ByteOrder) -> nat {
    match order {
        ByteOrder::LittleEndian => le_value(s),
        ByteOrder::BigEndian => le_value(s.reverse()),
    }
}

/// `n` bytes of `v`, the least significant first.
pub open spec fn le_bytes(v: nat, n: nat) -> Seq<u8>
    decreases n,
{
    if n == 0 {
        seq![]
    } else {
        seq![(v % 256) as u8] + le_bytes(v / 256, (n - 1) as nat)
    }
}

/// 256 to the power of `n`: the number of values that `n` bytes can have.
pub open spec fn byte_values(n: nat) -> nat
    decreases n,
{
    if n == 0 {
        1
    } else {
        256 * byte_values((n - 1) as nat)
    }
}

pub proof fn lemma_le_bytes_len(v: nat, n: nat)
    ensures
        le_bytes(v, n).len() == n,
    decreases n,
{
    if n > 0 {
        lemma_le_bytes_len(v / 256, (n - 1) as nat);
    }
}

/// Reading the bytes of an integer that fits gives the integer back.
pub proof fn bytes_hold_the_value(v: nat, n: nat)
    requires
        v < byte_values(n),
    ensures
        le_bytes(v, n).len() == n,
        le_value(le_bytes(v, n)) == v,
    decreases n,
{
    if n > 0 {
        let rest = le_bytes(v / 256, (n - 1) as nat);
        bytes_hold_the_value(v / 256, (n - 1) as nat);
        assert(le_bytes(v, n).drop_first() =~= rest);
    }
}

pub proof fn lemma_le_value_bound(s: Seq<u8>)
    ensures
        le_value(s) < byte_values(s.len()),
    decreases s.len(),
{
    if s.len() > 0 {
        lemma_le_value_bound(s.drop_first());
    }
}

pub proof fn lemma_byte_values()
    ensures
        byte_values(2) == 0x1_0000,
        byte_values(4) == 0x1_0000_0000,
        byte_values(8) == 0x1_0000_0000_0000_0000,
{
    reveal_with_fuel(byte_values, 9);
}

/// Appends the low `n` bytes of `v`, the least significant first.
pub fn push_le(out: &mut Vec<u8>, v: u64, n: usize)
    ensures
        final(out)@ == old(out)@ + le_bytes(v as nat, n as nat),
{
    let mut rest: u64 = v;
    let mut i: usize = 0;
    assert(out@ + le_bytes(v as nat, n as nat) =~= old(out)@ + le_bytes(v as nat, n as nat));
    while i < n
        invariant
            i <= n,
            out@ + le_bytes(rest as nat, (n - i) as nat) == old(out)@ + le_bytes(
                v as nat,
                n as nat,
            ),
        decreases n - i,
    {
        let ghost before = out@;
        let ghost left = le_bytes((rest / 256) as nat, (n - i - 1) as nat);
        out.push((rest % 256) as u8);
        assert(out@ + left =~= before + (seq![(rest % 256) as u8] + left));
        rest = rest / 256;
        i = i + 1;
    }
    assert(out@ + le_bytes(rest as nat, 0) =~= out@);
}

/// The integer in the bytes.
pub fn read_uint(s: &[u8], order: ByteOrder) -> (res: u64)
    requires
        s@.len() <= 8,
    ensures
        res == value(s@, order),
        res < byte_values(s@.len()),
{
    let ghost all = match order {
        ByteOrder::LittleEndian => s@,
        ByteOrder::BigEndian => s@.reverse(),
    };
    let mut v: u64 = 0;
    let mut i: usize = 0;
    proof {
        assert(all.skip(all.len() as int) =~= seq![]);
    }
    while i < s.len()
        invariant
            i <= s@.len() <= 8,
            all.len() == s@.len(),
            all == (match order {
                ByteOrder::LittleEndian => s@,
                ByteOrder::BigEndian => s@.reverse(),
            }),
            v == le_value(all.skip(all.len() - i)),
        decreases s@.len() - i,
    {
        // The most significant byte first.
        let b: u8 = match order {
            ByteOrder::LittleEndian => s[s.len() - 1 - i],
            ByteOrder::BigEndian => s[i],
        };
        let ghost tail = all.skip(all.len() - i);
        let ghost next = all.skip(all.len() - i - 1);
        proof {
            assert(next[0] == b);
            assert(next.drop_first() =~= tail);
            lemma_le_value_bound(tail);
            lemma_le_value_bound(next);
            reveal_with_fuel(byte_values, 9);
        }
        v = v * 256 + b as u64;
        i = i + 1;
    }
    proof {
        assert(all.skip(0) =~= all);
        lemma_le_value_bound(all);
    }
    v
}

/// The integer in the `n` bytes at `at`.
pub fn read_uint_at(s: &[u8], at: usize, n: usize, order: ByteOrder) -> (res: u64)
    requires
        n <= 8,
        at + n <= s@.len(),
    ensures
        res == value(s@.subrange(at as int, at + n), order),
        res < byte_values(n as nat),
{
    assert(s.len() == s@.len());
    read_uint(slice_subrange(s, at, at + n), order)
}

/// Each byte counts by its place, the first least: changing one of them changes the integer by
/// as much, times 256 for each byte in front of it.
pub proof fn bytes_count_by_their_place(s: Seq<u8>, i: int, b: u8)
    requires
        0 <= i < s.len(),
    ensures
        le_value(s.update(i, b)) - le_value(s) == (b - s[i]) * pow(256, i as nat),
    decreases s.len(),
{
    reveal(pow);
    let t = s.update(i, b);
    if i == 0 {
        assert(t.drop_first() =~= s.drop_first());
    } else {
        assert(t.drop_first() =~= s.drop_first().update(i - 1, b));
        bytes_count_by_their_place(s.drop_first(), i - 1, b);
        let p = pow(256, (i - 1) as nat);
        let d = b - s[i];
        assert(256 * (d * p) == d * (256 * p)) by (nonlinear_arith);
    }
}

/// Bytes that are all zero are the integer zero.
pub proof fn zeros_are_zero(s: Seq<u8>)
    requires
        forall|i: int| 0 <= i < s.len() ==> #[trigger] s[i] == 0,
    ensures
        le_value(s) == 0,
    decreases s.len(),
{
    if s.len() > 0 {
        zeros_are_zero(s.drop_first());
    }
}

/// An integer reads back in either order of its bytes, of which the other order is the reverse.
pub proof fn integers_read_back_in_either_order(v: nat, n: nat)
    requires
        v < pow(256, n),
    ensures
        value(le_bytes(v, n), ByteOrder::LittleEndian) == v,
        value(le_bytes(v, n).reverse(), ByteOrder::BigEndian) == v,
{
    lemma_byte_values_are_powers(n);
    bytes_hold_the_value(v, n);
    assert(le_bytes(v, n).reverse().reverse() =~= le_bytes(v, n));
}

proof fn lemma_byte_values_are_powers(n: nat)
    ensures
        byte_values(n) == pow(256, n),
    decreases n,
{
    reveal(pow);
    if n > 0 {
        lemma_byte_values_are_powers((n - 1) as nat);
    }
}

} // verus!
