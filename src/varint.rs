//! Unsigned variable-length integers: seven bits per byte, least significant
//! group first, the high bit set on every byte but the last.

use vstd::prelude::*;

verus! {

/// Most bytes a varint may occupy.
pub const VARINT_MAX_BYTES: usize = 5;

/// The bytes that encode `x`.
pub open spec fn varint_bytes(x: nat) -> Seq<u8>
    decreases x,
{
    if x < 128 {
        seq![x as u8]
    } else {
        seq![(x % 128 + 128) as u8] + varint_bytes(x / 128)
    }
}

/// What reading a varint at the start of a byte sequence finds.
pub enum VarintScan {
    /// A complete varint with this value, spanning this many bytes.
    Value(int, nat),
    /// The bytes end before the last byte of the varint.
    Incomplete,
    /// No terminating byte within `VARINT_MAX_BYTES` bytes.
    TooLong,
}

/// Reads at most `budget` bytes of `s`; `acc` holds the value of the groups
/// already read, `mult` the weight of the next group.
pub open spec fn scan_varint(s: Seq<u8>, acc: int, mult: int, budget: nat) -> VarintScan
    decreases budget,
{
    if budget == 0 {
        VarintScan::TooLong
    } else if s.len() == 0 {
        VarintScan::Incomplete
    } else {
        let acc2 = acc + mult * (s[0] % 128);
        if s[0] < 128 {
            VarintScan::Value(acc2, 1)
        } else {
            match scan_varint(s.drop_first(), acc2, mult * 128, (budget - 1) as nat) {
                VarintScan::Value(v, l) => VarintScan::Value(v, l + 1),
                other => other,
            }
        }
    }
}

/// The varint at the start of `s`.
pub open spec fn varint_scan(s: Seq<u8>) -> VarintScan {
    scan_varint(s, 0, 1, VARINT_MAX_BYTES as nat)
}

/// Result of reading a varint from a byte slice.
#[derive(PartialEq, Eq, Structural, Clone, Copy, Debug)]
pub enum VarintRead {
    /// The value, truncated to 32 bits, and the number of bytes it spans.
    Value { value: u32, len: usize },
    /// More bytes are needed.
    Incomplete,
    /// The continuation bit did not clear within five bytes.
    TooLong,
}

/// `r` is what reading a varint at the start of `s` gives.
pub open spec fn varint_read_matches(s: Seq<u8>, r: VarintRead) -> bool {
    match varint_scan(s) {
        VarintScan::Value(v, l) => r == (VarintRead::Value {
            value: (v % 0x1_0000_0000) as u32,
            len: l as usize,
        }),
        VarintScan::Incomplete => r == VarintRead::Incomplete,
        VarintScan::TooLong => r == VarintRead::TooLong,
    }
}

/// The varint at the start of `s`, as a 32-bit value and the bytes it spans.
pub open spec fn leading_varint(s: Seq<u8>) -> Option<(nat, nat)> {
    match varint_scan(s) {
        VarintScan::Value(v, l) => Some(((v % 0x1_0000_0000) as nat, l)),
        _ => None,
    }
}

proof fn lemma_scan_bounds(s: Seq<u8>, acc: int, mult: int, budget: nat)
    requires
        0 <= acc < mult,
    ensures
        match scan_varint(s, acc, mult, budget) {
            VarintScan::Value(v, l) => 1 <= l <= budget && l <= s.len() && 0 <= v,
            _ => true,
        },
    decreases budget,
{
    if budget > 0 && s.len() > 0 && s[0] >= 128 {
        let acc2 = acc + mult * (s[0] % 128);
        assert(0 <= mult * (s[0] % 128) <= mult * 127) by (nonlinear_arith)
            requires
                0 <= s[0] % 128 <= 127,
                mult > 0,
        ;
        lemma_scan_bounds(s.drop_first(), acc2, mult * 128, (budget - 1) as nat);
    }
}

/// Appends the encoding of `x` to `out`.
pub fn write_varint(out: &mut Vec<u8>, x: u32)
    ensures
        final(out)@ == old(out)@ + varint_bytes(x as nat),
{
    let mut v: u32 = x;
    let ghost start = out@;
    assert(out@ + varint_bytes(x as nat) == start + varint_bytes(x as nat));
    while v >= 128
        invariant
            out@ + varint_bytes(v as nat) == start + varint_bytes(x as nat),
        decreases v,
    {
        let ghost before = out@;
        out.push(((v % 128) + 128) as u8);
        assert(varint_bytes(v as nat) == seq![((v % 128) + 128) as u8] + varint_bytes((v / 128) as nat));
        assert(out@ + varint_bytes((v / 128) as nat) =~= before + varint_bytes(v as nat));
        v = v / 128;
    }
    let ghost before = out@;
    out.push(v as u8);
    assert(varint_bytes(v as nat) == seq![v as u8]);
    assert(out@ =~= before + varint_bytes(v as nat));
}

/// Encodes `x` on its own.
pub fn encode_varint(x: u32) -> (r: Vec<u8>)
    ensures
        r@ == varint_bytes(x as nat),
        r@.len() <= VARINT_MAX_BYTES,
{
    let mut out: Vec<u8> = Vec::new();
    write_varint(&mut out, x);
    proof {
        reveal_with_fuel(pow128, 6);
        lemma_varint_len(x as nat, 4);
        assert(out@ =~= varint_bytes(x as nat));
    }
    out
}

/// Reads the varint that starts at `pos` in `data`.
pub fn read_varint(data: &[u8], pos: usize) -> (r: VarintRead)
    requires
        pos <= data@.len(),
    ensures
        varint_read_matches(data@.subrange(pos as int, data@.len() as int), r),
        r matches VarintRead::Value { len, .. } ==> 1 <= len <= VARINT_MAX_BYTES && pos + len
            <= data@.len(),
        r matches VarintRead::Value { value, len } ==> leading_varint(
            data@.subrange(pos as int, data@.len() as int),
        ) == Some((value as nat, len as nat)),
        !(r is Value) ==> leading_varint(data@.subrange(pos as int, data@.len() as int)) is None,
{
    let ghost s = data@.subrange(pos as int, data@.len() as int);
    let n: usize = data.len();
    let avail: usize = n - pos;
    let mut i: usize = 0;
    let mut acc: u64 = 0;
    let mut mult: u64 = 1;
    assert(data@.subrange(pos + 0, data@.len() as int) == s);
    while i < VARINT_MAX_BYTES
        invariant
            pos <= data@.len(),
            avail == data@.len() - pos,
            n == data.len(),
            n == data@.len(),
            s == data@.subrange(pos as int, data@.len() as int),
            i <= 5,
            i <= avail,
            mult == pow128(i as nat),
            acc < mult,
            varint_scan(s) == (match scan_varint(
                data@.subrange(pos + i, data@.len() as int),
                acc as int,
                mult as int,
                (5 - i) as nat,
            ) {
                VarintScan::Value(v, l) => VarintScan::Value(v, (l + i) as nat),
                other => other,
            }),
        decreases 5 - i,
    {
        proof {
            lemma_pow128_bound(i as nat);
        }
        let ghost t = data@.subrange(pos + i, data@.len() as int);
        if i >= avail {
            assert(t.len() == 0);
            return VarintRead::Incomplete;
        }
        assert(pos + i < data.len());
        let b = data[pos + i];
        assert(t[0] == b);
        assert(t.drop_first() =~= data@.subrange(pos + i + 1, data@.len() as int));
        assert(mult * ((b % 128) as u64) <= mult * 127) by (nonlinear_arith)
            requires
                (b % 128) <= 127,
        ;
        let acc2: u64 = acc + mult * ((b % 128) as u64);
        if b < 128 {
            let value = (acc2 % 0x1_0000_0000) as u32;
            return VarintRead::Value { value, len: i + 1 };
        }
        assert(acc2 < mult * 128) by (nonlinear_arith)
            requires
                acc < mult,
                acc2 == acc + mult * ((b % 128) as u64),
                b % 128 <= 127,
        ;
        assert(pow128((i + 1) as nat) == 128 * pow128(i as nat));
        acc = acc2;
        mult = mult * 128;
        i = i + 1;
    }
    assert(data@.subrange(pos + i, data@.len() as int).len() >= 0);
    VarintRead::TooLong
}

/// 128 to the power `n`.
pub open spec fn pow128(n: nat) -> int
    decreases n,
{
    if n == 0 {
        1
    } else {
        128 * pow128((n - 1) as nat)
    }
}

proof fn lemma_pow128_bound(n: nat)
    requires
        n <= 4,
    ensures
        1 <= pow128(n) <= 0x1000_0000,
{
    reveal_with_fuel(pow128, 5);
}

/// A value below `128^(k+1)` takes at most `k + 1` bytes.
proof fn lemma_varint_len(x: nat, k: nat)
    requires
        x < pow128(k + 1),
    ensures
        varint_bytes(x).len() <= k + 1,
        varint_bytes(x).len() >= 1,
    decreases k,
{
    if x >= 128 {
        if k == 0 {
            assert(pow128(1) == 128 * pow128(0));
        } else {
            assert(pow128(k + 1) == 128 * pow128(k));
            lemma_varint_len(x / 128, (k - 1) as nat);
        }
    }
}

proof fn lemma_scan_encoding(x: nat, rest: Seq<u8>, acc: int, mult: int, budget: nat)
    requires
        varint_bytes(x).len() <= budget,
        mult > 0,
    ensures
        scan_varint(varint_bytes(x) + rest, acc, mult, budget) == VarintScan::Value(
            acc + mult * x,
            varint_bytes(x).len(),
        ),
    decreases x,
{
    let s = varint_bytes(x) + rest;
    if x < 128 {
        assert(s[0] == x as u8);
    } else {
        let tail = varint_bytes(x / 128);
        assert(s[0] == (x % 128 + 128) as u8);
        assert(s.drop_first() =~= tail + rest);
        lemma_scan_encoding(x / 128, rest, acc + mult * (x % 128), mult * 128, (budget - 1) as nat);
        assert(acc + mult * (x % 128) + mult * 128 * (x / 128) == acc + mult * x) by (nonlinear_arith)
            requires
                x == 128 * (x / 128) + x % 128,
        ;
    }
}

/// Encoding a 32-bit value and reading it back, whatever bytes follow it,
/// gives the value and the length of its encoding, which is at most five bytes.
pub proof fn lemma_varint_round_trip(x: u32, rest: Seq<u8>)
    ensures
        varint_bytes(x as nat).len() <= VARINT_MAX_BYTES,
        varint_scan(varint_bytes(x as nat) + rest) == VarintScan::Value(
            x as int,
            varint_bytes(x as nat).len(),
        ),
        varint_read_matches(
            varint_bytes(x as nat) + rest,
            VarintRead::Value { value: x, len: varint_bytes(x as nat).len() as usize },
        ),
{
    reveal_with_fuel(pow128, 6);
    lemma_varint_len(x as nat, 4);
    lemma_scan_encoding(x as nat, rest, 0, 1, 5);
}

proof fn lemma_scan_prefix(s: Seq<u8>, t: Seq<u8>, acc: int, mult: int, budget: nat)
    requires
        scan_varint(s, acc, mult, budget) is Value,
    ensures
        ({
            let l = scan_varint(s, acc, mult, budget)->Value_1;
            &&& l <= s.len()
            &&& (t.len() >= l && t.take(l as int) == s.take(l as int)) ==> scan_varint(t, acc, mult, budget)
                == scan_varint(s, acc, mult, budget)
            &&& (t.len() < l && t == s.take(t.len() as int)) ==> scan_varint(t, acc, mult, budget)
                is Incomplete
        }),
    decreases budget,
{
    let l = scan_varint(s, acc, mult, budget)->Value_1;
    if s[0] >= 128 {
        let acc2 = acc + mult * (s[0] % 128);
        lemma_scan_prefix(s.drop_first(), t.drop_first(), acc2, mult * 128, (budget - 1) as nat);
        if t.len() >= l && t.take(l as int) == s.take(l as int) {
            assert(t[0] == t.take(l as int)[0]);
            assert(t.drop_first().take(l - 1) =~= t.take(l as int).drop_first());
            assert(s.drop_first().take(l - 1) =~= s.take(l as int).drop_first());
        }
        if t.len() < l && t == s.take(t.len() as int) && t.len() > 0 {
            assert(t[0] == s[0]);
            assert(t.drop_first() =~= s.drop_first().take(t.drop_first().len() as int));
        }
    } else {
        if t.len() >= l && t.take(l as int) == s.take(l as int) {
            assert(t[0] == t.take(l as int)[0]);
        }
    }
}

proof fn lemma_scan_too_long_extends(s: Seq<u8>, t: Seq<u8>, acc: int, mult: int, budget: nat)
    requires
        scan_varint(s, acc, mult, budget) is TooLong,
    ensures
        scan_varint(s + t, acc, mult, budget) is TooLong,
    decreases budget,
{
    if budget > 0 {
        assert((s + t)[0] == s[0]);
        assert((s + t).drop_first() =~= s.drop_first() + t);
        lemma_scan_too_long_extends(
            s.drop_first(),
            t,
            acc + mult * (s[0] % 128),
            mult * 128,
            (budget - 1) as nat,
        );
    }
}

/// More bytes after an over-long varint leave it over-long.
pub proof fn lemma_varint_too_long_extends(s: Seq<u8>, t: Seq<u8>)
    requires
        varint_scan(s) is TooLong,
    ensures
        varint_scan(s + t) is TooLong,
{
    lemma_scan_too_long_extends(s, t, 0, 1, VARINT_MAX_BYTES as nat);
}

/// Reading a varint depends only on its own bytes: more bytes after it leave
/// the result as it is, and a proper prefix of it is incomplete.
pub proof fn lemma_varint_prefix(s: Seq<u8>, t: Seq<u8>)
    requires
        varint_scan(s) is Value,
    ensures
        1 <= varint_scan(s)->Value_1 <= s.len(),
        (t.len() >= varint_scan(s)->Value_1 && t.take(varint_scan(s)->Value_1 as int) == s.take(
            varint_scan(s)->Value_1 as int,
        )) ==> varint_scan(t) == varint_scan(s),
        (t.len() < varint_scan(s)->Value_1 && t == s.take(t.len() as int)) ==> varint_scan(t) is Incomplete,
{
    lemma_scan_bounds(s, 0, 1, VARINT_MAX_BYTES as nat);
    lemma_scan_prefix(s, t, 0, 1, VARINT_MAX_BYTES as nat);
}

} // verus!
