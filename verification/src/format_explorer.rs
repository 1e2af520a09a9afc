//! The structured binary-header decoder: a fixed sixteen-byte preamble
//! followed by a variable-width body whose integer width (32 or 64 bit) and
//! byte order (little or big endian) are selected by preamble fields already
//! parsed. Bytes are consumed strictly left to right; input too short at any
//! stage, or an unsupported class or encoding value, yields a structured
//! error naming the stage, never a crash.
use vstd::prelude::*;

use vstd::arithmetic::div_mod::lemma_fundamental_div_mod;
use vstd::arithmetic::div_mod::lemma_fundamental_div_mod_converse;

use crate::Event;

verus! {

/// The value of `n` bytes at `i` read as a little-endian integer.
pub open spec fn le_value(s: Seq<u8>, i: int, n: nat) -> nat
    decreases n,
{
    if n == 0 {
        0
    } else {
        (s[i] + 256 * le_value(s, i + 1, (n - 1) as nat)) as nat
    }
}

/// The value of `n` bytes at `i` read as a big-endian integer.
pub open spec fn be_value(s: Seq<u8>, i: int, n: nat) -> nat
    decreases n,
{
    if n == 0 {
        0
    } else {
        (be_value(s, i, (n - 1) as nat) * 256 + s[i + n - 1]) as nat
    }
}

/// The value of `n` bytes at `i` under data encoding `data`: 1 is little
/// endian, 2 is big endian.
pub open spec fn field_value(s: Seq<u8>, data: u8, i: int, n: nat) -> nat {
    if data == 1 {
        le_value(s, i, n)
    } else {
        be_value(s, i, n)
    }
}

/// The little-endian byte decomposition of `v` into `n` bytes.
pub open spec fn le_seq(v: nat, n: nat) -> Seq<u8>
    decreases n,
{
    if n == 0 {
        Seq::empty()
    } else {
        seq![(v % 256) as u8] + le_seq(v / 256, (n - 1) as nat)
    }
}

/// The big-endian byte decomposition of `v` into `n` bytes.
pub open spec fn be_seq(v: nat, n: nat) -> Seq<u8>
    decreases n,
{
    if n == 0 {
        Seq::empty()
    } else {
        be_seq(v / 256, (n - 1) as nat) + seq![(v % 256) as u8]
    }
}

/// The byte decomposition of `v` into `n` bytes under data encoding `data`.
pub open spec fn field_seq(v: nat, data: u8, n: nat) -> Seq<u8> {
    if data == 1 {
        le_seq(v, n)
    } else {
        be_seq(v, n)
    }
}

/// 256 to the power `n`: the number of values `n` bytes can hold.
pub open spec fn pow256(n: nat) -> nat
    decreases n,
{
    if n == 0 {
        1
    } else {
        256 * pow256((n - 1) as nat)
    }
}

/// The powers of 256 the field widths use.
proof fn lemma_pow256_values()
    ensures
        pow256(2) == 0x10000,
        pow256(4) == 0x1_0000_0000,
        pow256(8) == 0x1_0000_0000_0000_0000,
{
    assert(pow256(0) == 1);
    assert(pow256(1) == 256);
    assert(pow256(2) == 0x10000);
    assert(pow256(3) == 0x100_0000);
    assert(pow256(4) == 0x1_0000_0000);
    assert(pow256(5) == 0x100_0000_0000);
    assert(pow256(6) == 0x1_0000_0000_0000);
    assert(pow256(7) == 0x100_0000_0000_0000);
    assert(pow256(8) == 0x1_0000_0000_0000_0000);
}

/// Reading the little-endian decomposition of `v` gives `v` back.
proof fn lemma_le_seq_value(s: Seq<u8>, i: int, v: nat, n: nat)
    requires
        v < pow256(n),
        0 <= i,
        i + n <= s.len(),
        s.subrange(i, i + n) == le_seq(v, n),
    ensures
        le_value(s, i, n) == v,
    decreases n,
{
    if n == 0 {
    } else {
        assert(le_seq(v, n) == seq![(v % 256) as u8] + le_seq(v / 256, (n - 1) as nat));
        assert(s[i] == le_seq(v, n)[0]);
        assert(s[i] == (v % 256) as u8);
        assert(s.subrange(i + 1, i + n) =~= le_seq(v / 256, (n - 1) as nat)) by {
            assert(forall|k: int|
                0 <= k < n - 1 ==> #[trigger] s.subrange(i + 1, i + n)[k] == s.subrange(
                    i,
                    i + n,
                )[k + 1]);
        }
        assert(v / 256 < pow256((n - 1) as nat)) by {
            if v / 256 >= pow256((n - 1) as nat) {
                lemma_fundamental_div_mod(v as int, 256);
            }
        }
        lemma_le_seq_value(s, i + 1, v / 256, (n - 1) as nat);
        lemma_fundamental_div_mod(v as int, 256);
    }
}

/// A big-endian decomposition has as many bytes as asked for.
proof fn lemma_be_seq_len(v: nat, n: nat)
    ensures
        be_seq(v, n).len() == n,
    decreases n,
{
    if n > 0 {
        lemma_be_seq_len(v / 256, (n - 1) as nat);
    }
}

/// A little-endian decomposition has as many bytes as asked for.
proof fn lemma_le_seq_len(v: nat, n: nat)
    ensures
        le_seq(v, n).len() == n,
    decreases n,
{
    if n > 0 {
        lemma_le_seq_len(v / 256, (n - 1) as nat);
    }
}

/// A byte decomposition has as many bytes as asked for.
proof fn lemma_field_seq_len(v: nat, data: u8, n: nat)
    ensures
        field_seq(v, data, n).len() == n,
{
    lemma_le_seq_len(v, n);
    lemma_be_seq_len(v, n);
}

/// Reading the decomposition of `v` under either encoding gives `v` back.
proof fn lemma_field_seq_value(s: Seq<u8>, i: int, v: nat, data: u8, n: nat)
    requires
        v < pow256(n),
        0 <= i,
        i + n <= s.len(),
        s.subrange(i, i + n) == field_seq(v, data, n),
    ensures
        field_value(s, data, i, n) == v,
{
    if data == 1 {
        lemma_le_seq_value(s, i, v, n);
    } else {
        lemma_be_seq_value(s, i, v, n);
    }
}

/// Reading the big-endian decomposition of `v` gives `v` back.
proof fn lemma_be_seq_value(s: Seq<u8>, i: int, v: nat, n: nat)
    requires
        v < pow256(n),
        0 <= i,
        i + n <= s.len(),
        s.subrange(i, i + n) == be_seq(v, n),
    ensures
        be_value(s, i, n) == v,
    decreases n,
{
    if n == 0 {
    } else {
        assert(be_seq(v, n) == be_seq(v / 256, (n - 1) as nat) + seq![(v % 256) as u8]);
        assert(be_seq(v / 256, (n - 1) as nat).len() == n - 1) by {
            lemma_be_seq_len(v / 256, (n - 1) as nat);
        }
        assert(s[i + n - 1] == be_seq(v, n)[n - 1]);
        assert(s[i + n - 1] == (v % 256) as u8);
        assert(s.subrange(i, i + n - 1) =~= be_seq(v / 256, (n - 1) as nat)) by {
            assert(forall|k: int|
                0 <= k < n - 1 ==> #[trigger] s.subrange(i, i + n - 1)[k] == s.subrange(
                    i,
                    i + n,
                )[k]);
        }
        assert(v / 256 < pow256((n - 1) as nat)) by {
            if v / 256 >= pow256((n - 1) as nat) {
                lemma_fundamental_div_mod(v as int, 256);
            }
        }
        lemma_be_seq_value(s, i, v / 256, (n - 1) as nat);
        lemma_fundamental_div_mod(v as int, 256);
    }
}

/// The bytes a little-endian value was read from are its decomposition.
proof fn lemma_le_seq_of_value(s: Seq<u8>, i: int, n: nat)
    requires
        0 <= i,
        i + n <= s.len(),
    ensures
        le_seq(le_value(s, i, n), n) == s.subrange(i, i + n),
    decreases n,
{
    if n == 0 {
        assert(le_seq(le_value(s, i, n), n) =~= s.subrange(i, i + n));
    } else {
        let vv = le_value(s, i, n);
        let r = le_value(s, i + 1, (n - 1) as nat);
        lemma_fundamental_div_mod_converse(vv as int, 256, r as int, s[i] as int);
        lemma_le_seq_of_value(s, i + 1, (n - 1) as nat);
        assert(le_seq(vv, n) == seq![(vv % 256) as u8] + le_seq(vv / 256, (n - 1) as nat));
        assert(le_seq(vv, n) =~= s.subrange(i, i + n));
    }
}

/// The bytes a big-endian value was read from are its decomposition.
proof fn lemma_be_seq_of_value(s: Seq<u8>, i: int, n: nat)
    requires
        0 <= i,
        i + n <= s.len(),
    ensures
        be_seq(be_value(s, i, n), n) == s.subrange(i, i + n),
    decreases n,
{
    if n == 0 {
        assert(be_seq(be_value(s, i, n), n) =~= s.subrange(i, i + n));
    } else {
        let vv = be_value(s, i, n);
        let b = be_value(s, i, (n - 1) as nat);
        lemma_fundamental_div_mod_converse(vv as int, 256, b as int, s[i + n - 1] as int);
        lemma_be_seq_of_value(s, i, (n - 1) as nat);
        lemma_be_seq_len(vv / 256, (n - 1) as nat);
        assert(be_seq(vv, n) == be_seq(vv / 256, (n - 1) as nat) + seq![(vv % 256) as u8]);
        assert(be_seq(vv, n) =~= s.subrange(i, i + n));
    }
}

/// The bytes a field was read from are the decomposition of its value.
proof fn lemma_field_seq_of_value(s: Seq<u8>, i: int, data: u8, n: nat)
    requires
        0 <= i,
        i + n <= s.len(),
    ensures
        field_seq(field_value(s, data, i, n), data, n) == s.subrange(i, i + n),
{
    if data == 1 {
        lemma_le_seq_of_value(s, i, n);
    } else {
        lemma_be_seq_of_value(s, i, n);
    }
}

/// Reads two bytes at `pos` under data encoding `data` (1 little, 2 big).
fn read_u16(bytes: &[u8], pos: usize, data: u8) -> (r: u16)
    requires
        data == 1 || data == 2,
        pos + 2 <= bytes@.len(),
    ensures
        r as nat == field_value(bytes@, data, pos as int, 2),
{
    let b0 = bytes[pos];
    let b1 = bytes[pos + 1];
    proof {
        assert(le_value(bytes@, pos + 2, 0) == 0);
        assert(le_value(bytes@, pos + 1, 1) == bytes@[pos + 1]);
        assert(be_value(bytes@, pos as int, 0) == 0);
        assert(be_value(bytes@, pos as int, 1) == bytes@[pos as int]);
    }
    if data == 1 {
        b0 as u16 + 256 * (b1 as u16)
    } else {
        (b0 as u16) * 256 + b1 as u16
    }
}

/// Reads four bytes at `pos` under data encoding `data`.
fn read_u32(bytes: &[u8], pos: usize, data: u8) -> (r: u32)
    requires
        data == 1 || data == 2,
        pos + 4 <= bytes@.len(),
    ensures
        r as nat == field_value(bytes@, data, pos as int, 4),
{
    let b0 = bytes[pos] as u32;
    let b1 = bytes[pos + 1] as u32;
    let b2 = bytes[pos + 2] as u32;
    let b3 = bytes[pos + 3] as u32;
    proof {
        assert(le_value(bytes@, pos + 4, 0) == 0);
        assert(le_value(bytes@, pos + 3, 1) == bytes@[pos + 3]);
        assert(le_value(bytes@, pos + 2, 2) == bytes@[pos + 2] + 256 * le_value(
            bytes@,
            pos + 3,
            1,
        ));
        assert(le_value(bytes@, pos + 1, 3) == bytes@[pos + 1] + 256 * le_value(
            bytes@,
            pos + 2,
            2,
        ));
        assert(be_value(bytes@, pos as int, 0) == 0);
        assert(be_value(bytes@, pos as int, 1) == bytes@[pos as int]);
        assert(be_value(bytes@, pos as int, 2) == be_value(bytes@, pos as int, 1) * 256 + bytes@[pos
            + 1]);
        assert(be_value(bytes@, pos as int, 3) == be_value(bytes@, pos as int, 2) * 256 + bytes@[pos
            + 2]);
    }
    if data == 1 {
        b0 + 256 * b1 + 0x10000 * b2 + 0x100_0000 * b3
    } else {
        b3 + 256 * b2 + 0x10000 * b1 + 0x100_0000 * b0
    }
}

/// Reads eight bytes at `pos` under data encoding `data`.
fn read_u64(bytes: &[u8], pos: usize, data: u8) -> (r: u64)
    requires
        data == 1 || data == 2,
        pos + 8 <= bytes@.len(),
    ensures
        r as nat == field_value(bytes@, data, pos as int, 8),
{
    let n = bytes.len();
    let lo: u32;
    let hi: u32;
    if data == 1 {
        lo = read_u32(bytes, pos, 1);
        hi = read_u32(bytes, pos + 4, 1);
    } else {
        hi = read_u32(bytes, pos, 2);
        lo = read_u32(bytes, pos + 4, 2);
    }
    proof {
        lemma_le_value_split(bytes@, pos as int);
        lemma_be_value_split(bytes@, pos as int);
    }
    lo as u64 + 0x1_0000_0000 * (hi as u64)
}

/// An eight-byte little-endian value splits into its low and high halves.
proof fn lemma_le_value_split(s: Seq<u8>, i: int)
    ensures
        le_value(s, i, 8) == le_value(s, i, 4) + 0x1_0000_0000 * le_value(s, i + 4, 4),
{
    assert(le_value(s, i, 8) == s[i] + 256 * le_value(s, i + 1, 7));
    assert(le_value(s, i + 1, 7) == s[i + 1] + 256 * le_value(s, i + 2, 6));
    assert(le_value(s, i + 2, 6) == s[i + 2] + 256 * le_value(s, i + 3, 5));
    assert(le_value(s, i + 3, 5) == s[i + 3] + 256 * le_value(s, i + 4, 4));
    assert(le_value(s, i, 4) == s[i] + 256 * le_value(s, i + 1, 3));
    assert(le_value(s, i + 1, 3) == s[i + 1] + 256 * le_value(s, i + 2, 2));
    assert(le_value(s, i + 2, 2) == s[i + 2] + 256 * le_value(s, i + 3, 1));
    assert(le_value(s, i + 3, 1) == s[i + 3] + 256 * le_value(s, i + 4, 0));
    assert(le_value(s, i + 4, 0) == 0);
}

/// An eight-byte big-endian value splits into its high and low halves.
proof fn lemma_be_value_split(s: Seq<u8>, i: int)
    ensures
        be_value(s, i, 8) == be_value(s, i + 4, 4) + 0x1_0000_0000 * be_value(s, i, 4),
{
    assert(be_value(s, i, 8) == be_value(s, i, 7) * 256 + s[i + 7]);
    assert(be_value(s, i, 7) == be_value(s, i, 6) * 256 + s[i + 6]);
    assert(be_value(s, i, 6) == be_value(s, i, 5) * 256 + s[i + 5]);
    assert(be_value(s, i, 5) == be_value(s, i, 4) * 256 + s[i + 4]);
    assert(be_value(s, i + 4, 4) == be_value(s, i + 4, 3) * 256 + s[i + 7]);
    assert(be_value(s, i + 4, 3) == be_value(s, i + 4, 2) * 256 + s[i + 6]);
    assert(be_value(s, i + 4, 2) == be_value(s, i + 4, 1) * 256 + s[i + 5]);
    assert(be_value(s, i + 4, 1) == be_value(s, i + 4, 0) * 256 + s[i + 4]);
    assert(be_value(s, i + 4, 0) == 0);
}

/// Appends the two bytes of `v` under data encoding `data`.
fn push_field16(out: &mut Vec<u8>, v: u16, data: u8)
    requires
        data == 1 || data == 2,
    ensures
        final(out)@ == old(out)@ + field_seq(v as nat, data, 2),
        final(out)@.len() == old(out)@.len() + 2,
{
    let b0 = (v % 256) as u8;
    let b1 = (v / 256) as u8;
    proof {
        assert(le_seq(v as nat, 2) == seq![(v as nat % 256) as u8] + le_seq(v as nat / 256, 1));
        assert(le_seq(v as nat / 256, 1) == seq![(v as nat / 256 % 256) as u8] + le_seq(
            v as nat / 256 / 256,
            0,
        ));
        assert(be_seq(v as nat, 2) == be_seq(v as nat / 256, 1) + seq![(v as nat % 256) as u8]);
        assert(be_seq(v as nat / 256, 1) == be_seq(v as nat / 256 / 256, 0) + seq![(v as nat / 256
            % 256) as u8]);
    }
    if data == 1 {
        out.push(b0);
        out.push(b1);
        proof {
            assert(final(out)@ =~= old(out)@ + le_seq(v as nat, 2));
        }
    } else {
        out.push(b1);
        out.push(b0);
        proof {
            assert(final(out)@ =~= old(out)@ + be_seq(v as nat, 2));
        }
    }
}

/// Appends the four bytes of `v` under data encoding `data`.
fn push_field32(out: &mut Vec<u8>, v: u32, data: u8)
    requires
        data == 1 || data == 2,
    ensures
        final(out)@ == old(out)@ + field_seq(v as nat, data, 4),
        final(out)@.len() == old(out)@.len() + 4,
{
    let b0 = (v % 256) as u8;
    let t1 = v / 256;
    let b1 = (t1 % 256) as u8;
    let t2 = t1 / 256;
    let b2 = (t2 % 256) as u8;
    let t3 = t2 / 256;
    let b3 = (t3 % 256) as u8;
    proof {
        assert(le_seq(v as nat, 4) == seq![b0] + le_seq(t1 as nat, 3));
        assert(le_seq(t1 as nat, 3) == seq![b1] + le_seq(t2 as nat, 2));
        assert(le_seq(t2 as nat, 2) == seq![b2] + le_seq(t3 as nat, 1));
        assert(le_seq(t3 as nat, 1) == seq![b3] + le_seq(t3 as nat / 256, 0));
        assert(be_seq(v as nat, 4) == be_seq(t1 as nat, 3) + seq![b0]);
        assert(be_seq(t1 as nat, 3) == be_seq(t2 as nat, 2) + seq![b1]);
        assert(be_seq(t2 as nat, 2) == be_seq(t3 as nat, 1) + seq![b2]);
        assert(be_seq(t3 as nat, 1) == be_seq(t3 as nat / 256, 0) + seq![b3]);
    }
    if data == 1 {
        out.push(b0);
        out.push(b1);
        out.push(b2);
        out.push(b3);
        proof {
            assert(final(out)@ =~= old(out)@ + le_seq(v as nat, 4));
        }
    } else {
        out.push(b3);
        out.push(b2);
        out.push(b1);
        out.push(b0);
        proof {
            assert(final(out)@ =~= old(out)@ + be_seq(v as nat, 4));
        }
    }
}

/// Appends the eight bytes of `v` under data encoding `data`.
fn push_field64(out: &mut Vec<u8>, v: u64, data: u8)
    requires
        data == 1 || data == 2,
    ensures
        final(out)@ == old(out)@ + field_seq(v as nat, data, 8),
        final(out)@.len() == old(out)@.len() + 8,
{
    let b0 = (v % 256) as u8;
    let t1 = v / 256;
    let b1 = (t1 % 256) as u8;
    let t2 = t1 / 256;
    let b2 = (t2 % 256) as u8;
    let t3 = t2 / 256;
    let b3 = (t3 % 256) as u8;
    let t4 = t3 / 256;
    let b4 = (t4 % 256) as u8;
    let t5 = t4 / 256;
    let b5 = (t5 % 256) as u8;
    let t6 = t5 / 256;
    let b6 = (t6 % 256) as u8;
    let t7 = t6 / 256;
    let b7 = (t7 % 256) as u8;
    proof {
        assert(le_seq(v as nat, 8) == seq![b0] + le_seq(t1 as nat, 7));
        assert(le_seq(t1 as nat, 7) == seq![b1] + le_seq(t2 as nat, 6));
        assert(le_seq(t2 as nat, 6) == seq![b2] + le_seq(t3 as nat, 5));
        assert(le_seq(t3 as nat, 5) == seq![b3] + le_seq(t4 as nat, 4));
        assert(le_seq(t4 as nat, 4) == seq![b4] + le_seq(t5 as nat, 3));
        assert(le_seq(t5 as nat, 3) == seq![b5] + le_seq(t6 as nat, 2));
        assert(le_seq(t6 as nat, 2) == seq![b6] + le_seq(t7 as nat, 1));
        assert(le_seq(t7 as nat, 1) == seq![b7] + le_seq(t7 as nat / 256, 0));
        assert(be_seq(v as nat, 8) == be_seq(t1 as nat, 7) + seq![b0]);
        assert(be_seq(t1 as nat, 7) == be_seq(t2 as nat, 6) + seq![b1]);
        assert(be_seq(t2 as nat, 6) == be_seq(t3 as nat, 5) + seq![b2]);
        assert(be_seq(t3 as nat, 5) == be_seq(t4 as nat, 4) + seq![b3]);
        assert(be_seq(t4 as nat, 4) == be_seq(t5 as nat, 3) + seq![b4]);
        assert(be_seq(t5 as nat, 3) == be_seq(t6 as nat, 2) + seq![b5]);
        assert(be_seq(t6 as nat, 2) == be_seq(t7 as nat, 1) + seq![b6]);
        assert(be_seq(t7 as nat, 1) == be_seq(t7 as nat / 256, 0) + seq![b7]);
    }
    if data == 1 {
        out.push(b0);
        out.push(b1);
        out.push(b2);
        out.push(b3);
        out.push(b4);
        out.push(b5);
        out.push(b6);
        out.push(b7);
        proof {
            assert(final(out)@ =~= old(out)@ + le_seq(v as nat, 8));
        }
    } else {
        out.push(b7);
        out.push(b6);
        out.push(b5);
        out.push(b4);
        out.push(b3);
        out.push(b2);
        out.push(b1);
        out.push(b0);
        proof {
            assert(final(out)@ =~= old(out)@ + be_seq(v as nat, 8));
        }
    }
}

/// The decoded header. The three address-width fields are stored widened to
/// 64 bits whatever the class.
#[derive(Debug)]
pub struct ElfFormat {
    /// The four magic bytes, stored as read, not validated.
    pub mag: [u8; 4],
    /// Bit-width class: 1 means 32-bit address fields, 2 means 64-bit.
    pub class: u8,
    /// Data encoding: 1 means little endian, 2 means big endian.
    pub data: u8,
    /// Header version byte.
    pub ei_version: u8,
    /// Operating system / ABI byte.
    pub os_abi: u8,
    /// ABI version byte.
    pub abi_version: u8,
    /// The seven reserved padding bytes, stored as read.
    pub pad: [u8; 7],
    /// Object type.
    pub type_: u16,
    /// Machine.
    pub machine: u16,
    /// File version.
    pub e_version: u32,
    /// Entry point, widened to 64 bits for class 1.
    pub entry: u64,
    /// Program-header table offset, widened to 64 bits for class 1.
    pub ph_offset: u64,
    /// Section-header table offset, widened to 64 bits for class 1.
    pub sh_offset: u64,
    /// Flags.
    pub flags: u32,
    /// Header size.
    pub eh_size: u16,
    /// Program-header entry size.
    pub ph_entry_size: u16,
    /// Program-header entry count.
    pub ph_entry_num: u16,
    /// Section-header entry size.
    pub sh_entry_size: u16,
    /// Section-header entry count.
    pub sh_entry_num: u16,
    /// Section-header string-table index.
    pub sh_str_offset: u16,
}

/// Why a header failed to decode: the stage that ran out of bytes, or the
/// unsupported selector value it met.
#[derive(Clone, Copy, PartialEq, Eq, Structural, Debug)]
pub enum ElfDecodeError {
    /// Fewer than the sixteen preamble bytes.
    TruncatedPreamble,
    /// The data-encoding byte selects neither little nor big endian.
    UnsupportedEncoding { value: u8 },
    /// Too short for the object type, machine and file version fields.
    TruncatedFixedFields,
    /// The class byte selects neither 32-bit nor 64-bit address fields.
    UnsupportedClass { value: u8 },
    /// Too short for the three address-width fields.
    TruncatedAddressFields,
    /// Too short for the seven trailing fields.
    TruncatedTailFields,
}

/// The width in bytes of an address field under the given class.
pub open spec fn addr_width(class: u8) -> nat {
    if class == 1 {
        4
    } else {
        8
    }
}

/// The whole header's length under the given class: 52 bytes for class 1,
/// 64 for class 2.
pub open spec fn header_len(class: u8) -> nat {
    24 + 3 * addr_width(class) + 16
}

/// The error decoding `s` stops with, if any. Stages are checked strictly
/// left to right: preamble, data encoding, fixed fields, class, address
/// fields, tail fields.
pub open spec fn decode_error(s: Seq<u8>) -> Option<ElfDecodeError> {
    if s.len() < 16 {
        Some(ElfDecodeError::TruncatedPreamble)
    } else if s[5] != 1 && s[5] != 2 {
        Some(ElfDecodeError::UnsupportedEncoding { value: s[5] })
    } else if s.len() < 24 {
        Some(ElfDecodeError::TruncatedFixedFields)
    } else if s[4] != 1 && s[4] != 2 {
        Some(ElfDecodeError::UnsupportedClass { value: s[4] })
    } else if s.len() < 24 + 3 * addr_width(s[4]) {
        Some(ElfDecodeError::TruncatedAddressFields)
    } else if s.len() < header_len(s[4]) {
        Some(ElfDecodeError::TruncatedTailFields)
    } else {
        None
    }
}

/// Every field of `h` holds the value the corresponding bytes of `s` spell,
/// under the data encoding and class that `s` itself selects.
pub open spec fn header_matches(h: ElfFormat, s: Seq<u8>) -> bool {
    let data = s[5];
    let w = addr_width(s[4]) as int;
    &&& h.mag@ == s.subrange(0, 4)
    &&& h.class == s[4]
    &&& h.data == s[5]
    &&& h.ei_version == s[6]
    &&& h.os_abi == s[7]
    &&& h.abi_version == s[8]
    &&& h.pad@ == s.subrange(9, 16)
    &&& h.type_ as nat == field_value(s, data, 16, 2)
    &&& h.machine as nat == field_value(s, data, 18, 2)
    &&& h.e_version as nat == field_value(s, data, 20, 4)
    &&& h.entry as nat == field_value(s, data, 24, addr_width(s[4]))
    &&& h.ph_offset as nat == field_value(s, data, 24 + w, addr_width(s[4]))
    &&& h.sh_offset as nat == field_value(s, data, 24 + 2 * w, addr_width(s[4]))
    &&& h.flags as nat == field_value(s, data, 24 + 3 * w, 4)
    &&& h.eh_size as nat == field_value(s, data, 24 + 3 * w + 4, 2)
    &&& h.ph_entry_size as nat == field_value(s, data, 24 + 3 * w + 6, 2)
    &&& h.ph_entry_num as nat == field_value(s, data, 24 + 3 * w + 8, 2)
    &&& h.sh_entry_size as nat == field_value(s, data, 24 + 3 * w + 10, 2)
    &&& h.sh_entry_num as nat == field_value(s, data, 24 + 3 * w + 12, 2)
    &&& h.sh_str_offset as nat == field_value(s, data, 24 + 3 * w + 14, 2)
}

impl ElfFormat {
    /// Decodes a header from the front of `bytes`; trailing bytes are
    /// ignored. Returns the decoded header exactly when no stage runs out of
    /// bytes and the class and data-encoding selectors are supported, and
    /// otherwise the error of the first stage that fails.
    pub fn parse(bytes: &[u8]) -> (r: Result<ElfFormat, ElfDecodeError>)
        ensures
            match r {
                Ok(h) => decode_error(bytes@) is None && header_matches(h, bytes@),
                Err(e) => decode_error(bytes@) == Some(e),
            },
    {
        let n = bytes.len();
        if n < 16 {
            return Err(ElfDecodeError::TruncatedPreamble);
        }
        let mag: [u8; 4] = [bytes[0], bytes[1], bytes[2], bytes[3]];
        let class = bytes[4];
        let data = bytes[5];
        let ei_version = bytes[6];
        let os_abi = bytes[7];
        let abi_version = bytes[8];
        let pad: [u8; 7] = [
            bytes[9],
            bytes[10],
            bytes[11],
            bytes[12],
            bytes[13],
            bytes[14],
            bytes[15],
        ];
        if data != 1 && data != 2 {
            return Err(ElfDecodeError::UnsupportedEncoding { value: data });
        }
        if n < 24 {
            return Err(ElfDecodeError::TruncatedFixedFields);
        }
        let type_ = read_u16(bytes, 16, data);
        let machine = read_u16(bytes, 18, data);
        let e_version = read_u32(bytes, 20, data);
        if class != 1 && class != 2 {
            return Err(ElfDecodeError::UnsupportedClass { value: class });
        }
        let entry: u64;
        let ph_offset: u64;
        let sh_offset: u64;
        let tail_base: usize;
        if class == 1 {
            if n < 36 {
                return Err(ElfDecodeError::TruncatedAddressFields);
            }
            entry = read_u32(bytes, 24, data) as u64;
            ph_offset = read_u32(bytes, 28, data) as u64;
            sh_offset = read_u32(bytes, 32, data) as u64;
            tail_base = 36;
        } else {
            if n < 48 {
                return Err(ElfDecodeError::TruncatedAddressFields);
            }
            entry = read_u64(bytes, 24, data);
            ph_offset = read_u64(bytes, 32, data);
            sh_offset = read_u64(bytes, 40, data);
            tail_base = 48;
        }
        if n < tail_base + 16 {
            return Err(ElfDecodeError::TruncatedTailFields);
        }
        let flags = read_u32(bytes, tail_base, data);
        let eh_size = read_u16(bytes, tail_base + 4, data);
        let ph_entry_size = read_u16(bytes, tail_base + 6, data);
        let ph_entry_num = read_u16(bytes, tail_base + 8, data);
        let sh_entry_size = read_u16(bytes, tail_base + 10, data);
        let sh_entry_num = read_u16(bytes, tail_base + 12, data);
        let sh_str_offset = read_u16(bytes, tail_base + 14, data);
        proof {
            assert(mag@ =~= bytes@.subrange(0, 4));
            assert(pad@ =~= bytes@.subrange(9, 16));
        }
        Ok(
            ElfFormat {
                mag,
                class,
                data,
                ei_version,
                os_abi,
                abi_version,
                pad,
                type_,
                machine,
                e_version,
                entry,
                ph_offset,
                sh_offset,
                flags,
                eh_size,
                ph_entry_size,
                ph_entry_num,
                sh_entry_size,
                sh_entry_num,
                sh_str_offset,
            },
        )
    }

    /// Encodes the header back to bytes: the exact header length for its
    /// class, decoding without error, and every field re-reading as stored.
    /// Class-1 address fields must fit their 32-bit encoding.
    pub fn encode(&self) -> (r: Vec<u8>)
        requires
            self.class == 1 || self.class == 2,
            self.data == 1 || self.data == 2,
            self.class == 1 ==> self.entry < 0x1_0000_0000 && self.ph_offset < 0x1_0000_0000
                && self.sh_offset < 0x1_0000_0000,
        ensures
            r@.len() == header_len(self.class),
            decode_error(r@) is None,
            header_matches(*self, r@),
    {
        let data = self.data;
        let ghost w = addr_width(self.class) as int;
        let mut out: Vec<u8> = Vec::new();
        out.push(self.mag[0]);
        out.push(self.mag[1]);
        out.push(self.mag[2]);
        out.push(self.mag[3]);
        out.push(self.class);
        out.push(self.data);
        out.push(self.ei_version);
        out.push(self.os_abi);
        out.push(self.abi_version);
        out.push(self.pad[0]);
        out.push(self.pad[1]);
        out.push(self.pad[2]);
        out.push(self.pad[3]);
        out.push(self.pad[4]);
        out.push(self.pad[5]);
        out.push(self.pad[6]);
        let ghost s16 = out@;
        push_field16(&mut out, self.type_, data);
        let ghost s18 = out@;
        push_field16(&mut out, self.machine, data);
        let ghost s20 = out@;
        push_field32(&mut out, self.e_version, data);
        let ghost s24 = out@;
        if self.class == 1 {
            push_field32(&mut out, self.entry as u32, data);
            push_field32(&mut out, self.ph_offset as u32, data);
            push_field32(&mut out, self.sh_offset as u32, data);
        } else {
            push_field64(&mut out, self.entry, data);
            push_field64(&mut out, self.ph_offset, data);
            push_field64(&mut out, self.sh_offset, data);
        }
        let ghost s_ph = s24 + field_seq(self.entry as nat, data, addr_width(self.class));
        let ghost s_sh = s_ph + field_seq(self.ph_offset as nat, data, addr_width(self.class));
        let ghost s_tail = s_sh + field_seq(self.sh_offset as nat, data, addr_width(self.class));
        proof {
            lemma_field_seq_len(self.entry as nat, data, addr_width(self.class));
            lemma_field_seq_len(self.ph_offset as nat, data, addr_width(self.class));
            lemma_field_seq_len(self.sh_offset as nat, data, addr_width(self.class));
            if self.class == 1 {
                assert(self.entry as u32 as nat == self.entry as nat);
                assert(out@ == s_tail);
            } else {
                assert(out@ == s_tail);
            }
            assert(out@.len() == 24 + 3 * w);
        }
        push_field32(&mut out, self.flags, data);
        let ghost s_f1 = out@;
        push_field16(&mut out, self.eh_size, data);
        let ghost s_f2 = out@;
        push_field16(&mut out, self.ph_entry_size, data);
        let ghost s_f3 = out@;
        push_field16(&mut out, self.ph_entry_num, data);
        let ghost s_f4 = out@;
        push_field16(&mut out, self.sh_entry_size, data);
        let ghost s_f5 = out@;
        push_field16(&mut out, self.sh_entry_num, data);
        let ghost s_f6 = out@;
        push_field16(&mut out, self.sh_str_offset, data);
        proof {
            lemma_pow256_values();
            let s = out@;
            assert(s.len() == header_len(self.class));
            assert(s[4] == self.class && s[5] == self.data);
            assert(decode_error(s) is None);
            assert(s.subrange(0, 4) =~= self.mag@);
            assert(s.subrange(9, 16) =~= self.pad@);
            assert(s.subrange(16, 18) =~= field_seq(self.type_ as nat, data, 2));
            lemma_field_seq_value(s, 16, self.type_ as nat, data, 2);
            assert(s.subrange(18, 20) =~= field_seq(self.machine as nat, data, 2));
            lemma_field_seq_value(s, 18, self.machine as nat, data, 2);
            assert(s.subrange(20, 24) =~= field_seq(self.e_version as nat, data, 4));
            lemma_field_seq_value(s, 20, self.e_version as nat, data, 4);
            assert((self.entry as nat) < pow256(addr_width(self.class)));
            assert((self.ph_offset as nat) < pow256(addr_width(self.class)));
            assert((self.sh_offset as nat) < pow256(addr_width(self.class)));
            assert(s.subrange(24, 24 + w) =~= field_seq(
                self.entry as nat,
                data,
                addr_width(self.class),
            ));
            lemma_field_seq_value(s, 24, self.entry as nat, data, addr_width(self.class));
            assert(s.subrange(24 + w, 24 + 2 * w) =~= field_seq(
                self.ph_offset as nat,
                data,
                addr_width(self.class),
            ));
            lemma_field_seq_value(s, 24 + w, self.ph_offset as nat, data, addr_width(self.class));
            assert(s.subrange(24 + 2 * w, 24 + 3 * w) =~= field_seq(
                self.sh_offset as nat,
                data,
                addr_width(self.class),
            ));
            lemma_field_seq_value(
                s,
                24 + 2 * w,
                self.sh_offset as nat,
                data,
                addr_width(self.class),
            );
            assert(s.subrange(24 + 3 * w, 24 + 3 * w + 4) =~= field_seq(
                self.flags as nat,
                data,
                4,
            ));
            lemma_field_seq_value(s, 24 + 3 * w, self.flags as nat, data, 4);
            assert(s.subrange(24 + 3 * w + 4, 24 + 3 * w + 6) =~= field_seq(
                self.eh_size as nat,
                data,
                2,
            ));
            lemma_field_seq_value(s, 24 + 3 * w + 4, self.eh_size as nat, data, 2);
            assert(s.subrange(24 + 3 * w + 6, 24 + 3 * w + 8) =~= field_seq(
                self.ph_entry_size as nat,
                data,
                2,
            ));
            lemma_field_seq_value(s, 24 + 3 * w + 6, self.ph_entry_size as nat, data, 2);
            assert(s.subrange(24 + 3 * w + 8, 24 + 3 * w + 10) =~= field_seq(
                self.ph_entry_num as nat,
                data,
                2,
            ));
            lemma_field_seq_value(s, 24 + 3 * w + 8, self.ph_entry_num as nat, data, 2);
            assert(s.subrange(24 + 3 * w + 10, 24 + 3 * w + 12) =~= field_seq(
                self.sh_entry_size as nat,
                data,
                2,
            ));
            lemma_field_seq_value(s, 24 + 3 * w + 10, self.sh_entry_size as nat, data, 2);
            assert(s.subrange(24 + 3 * w + 12, 24 + 3 * w + 14) =~= field_seq(
                self.sh_entry_num as nat,
                data,
                2,
            ));
            lemma_field_seq_value(s, 24 + 3 * w + 12, self.sh_entry_num as nat, data, 2);
            assert(s.subrange(24 + 3 * w + 14, 24 + 3 * w + 16) =~= field_seq(
                self.sh_str_offset as nat,
                data,
                2,
            ));
            lemma_field_seq_value(s, 24 + 3 * w + 14, self.sh_str_offset as nat, data, 2);
        }
        out
    }

    /// Decodes a header that is known to decode.
    pub fn new(bytes: &[u8]) -> (r: ElfFormat)
        requires
            decode_error(bytes@) is None,
        ensures
            header_matches(r, bytes@),
    {
        match Self::parse(bytes) {
            Ok(h) => h,
            Err(_) => vstd::pervasive::unreached(),
        }
    }
}

/// Decoding is deterministic: two headers that match the same bytes agree on
/// every field. With `ElfFormat::encode`'s contract this gives the value
/// round trip: decoding an encoded header yields the original fields.
pub proof fn lemma_header_matches_agree(h1: ElfFormat, h2: ElfFormat, s: Seq<u8>)
    requires
        header_matches(h1, s),
        header_matches(h2, s),
    ensures
        h1 == h2,
{
    assert(h1.mag =~= h2.mag);
    assert(h1.pad =~= h2.pad);
}

/// Encoding is the inverse of decoding on exact-length input: two byte
/// sequences of their headers' exact length that decode without error to the
/// same fields are equal. With `ElfFormat::encode`'s contract this gives the
/// byte round trip: re-encoding a decoded exact-length header reproduces the
/// original bytes.
pub proof fn lemma_header_bytes_unique(h: ElfFormat, s1: Seq<u8>, s2: Seq<u8>)
    requires
        decode_error(s1) is None,
        decode_error(s2) is None,
        header_matches(h, s1),
        header_matches(h, s2),
        s1.len() == header_len(s1[4]),
        s2.len() == header_len(s2[4]),
    ensures
        s1 == s2,
{
    let data = h.data;
    let w = addr_width(h.class) as int;
    assert(s1[4] == h.class && s2[4] == h.class);
    assert(s1[5] == h.data && s2[5] == h.data);
    assert(s1.len() == s2.len());
    lemma_field_seq_of_value(s1, 16, data, 2);
    lemma_field_seq_of_value(s2, 16, data, 2);
    lemma_field_seq_of_value(s1, 18, data, 2);
    lemma_field_seq_of_value(s2, 18, data, 2);
    lemma_field_seq_of_value(s1, 20, data, 4);
    lemma_field_seq_of_value(s2, 20, data, 4);
    lemma_field_seq_of_value(s1, 24, data, addr_width(h.class));
    lemma_field_seq_of_value(s2, 24, data, addr_width(h.class));
    lemma_field_seq_of_value(s1, 24 + w, data, addr_width(h.class));
    lemma_field_seq_of_value(s2, 24 + w, data, addr_width(h.class));
    lemma_field_seq_of_value(s1, 24 + 2 * w, data, addr_width(h.class));
    lemma_field_seq_of_value(s2, 24 + 2 * w, data, addr_width(h.class));
    lemma_field_seq_of_value(s1, 24 + 3 * w, data, 4);
    lemma_field_seq_of_value(s2, 24 + 3 * w, data, 4);
    lemma_field_seq_of_value(s1, 24 + 3 * w + 4, data, 2);
    lemma_field_seq_of_value(s2, 24 + 3 * w + 4, data, 2);
    lemma_field_seq_of_value(s1, 24 + 3 * w + 6, data, 2);
    lemma_field_seq_of_value(s2, 24 + 3 * w + 6, data, 2);
    lemma_field_seq_of_value(s1, 24 + 3 * w + 8, data, 2);
    lemma_field_seq_of_value(s2, 24 + 3 * w + 8, data, 2);
    lemma_field_seq_of_value(s1, 24 + 3 * w + 10, data, 2);
    lemma_field_seq_of_value(s2, 24 + 3 * w + 10, data, 2);
    lemma_field_seq_of_value(s1, 24 + 3 * w + 12, data, 2);
    lemma_field_seq_of_value(s2, 24 + 3 * w + 12, data, 2);
    lemma_field_seq_of_value(s1, 24 + 3 * w + 14, data, 2);
    lemma_field_seq_of_value(s2, 24 + 3 * w + 14, data, 2);
    assert forall|j: int| 0 <= j < s1.len() implies s1[j] == s2[j] by {
        if j < 4 {
            assert(s1[j] == s1.subrange(0, 4)[j] && s2[j] == s2.subrange(0, 4)[j]);
        } else if j < 9 {
        } else if j < 16 {
            assert(s1[j] == s1.subrange(9, 16)[j - 9] && s2[j] == s2.subrange(9, 16)[j - 9]);
        } else if j < 18 {
            assert(s1[j] == s1.subrange(16, 18)[j - 16] && s2[j] == s2.subrange(16, 18)[j - 16]);
        } else if j < 20 {
            assert(s1[j] == s1.subrange(18, 20)[j - 18] && s2[j] == s2.subrange(18, 20)[j - 18]);
        } else if j < 24 {
            assert(s1[j] == s1.subrange(20, 24)[j - 20] && s2[j] == s2.subrange(20, 24)[j - 20]);
        } else if j < 24 + w {
            assert(s1[j] == s1.subrange(24, 24 + w)[j - 24] && s2[j] == s2.subrange(
                24,
                24 + w,
            )[j - 24]);
        } else if j < 24 + 2 * w {
            assert(s1[j] == s1.subrange(24 + w, 24 + 2 * w)[j - 24 - w] && s2[j] == s2.subrange(
                24 + w,
                24 + 2 * w,
            )[j - 24 - w]);
        } else if j < 24 + 3 * w {
            assert(s1[j] == s1.subrange(24 + 2 * w, 24 + 3 * w)[j - 24 - 2 * w] && s2[j]
                == s2.subrange(24 + 2 * w, 24 + 3 * w)[j - 24 - 2 * w]);
        } else if j < 24 + 3 * w + 4 {
            assert(s1[j] == s1.subrange(24 + 3 * w, 24 + 3 * w + 4)[j - 24 - 3 * w] && s2[j]
                == s2.subrange(24 + 3 * w, 24 + 3 * w + 4)[j - 24 - 3 * w]);
        } else if j < 24 + 3 * w + 6 {
            assert(s1[j] == s1.subrange(24 + 3 * w + 4, 24 + 3 * w + 6)[j - 24 - 3 * w - 4]
                && s2[j] == s2.subrange(24 + 3 * w + 4, 24 + 3 * w + 6)[j - 24 - 3 * w - 4]);
        } else if j < 24 + 3 * w + 8 {
            assert(s1[j] == s1.subrange(24 + 3 * w + 6, 24 + 3 * w + 8)[j - 24 - 3 * w - 6]
                && s2[j] == s2.subrange(24 + 3 * w + 6, 24 + 3 * w + 8)[j - 24 - 3 * w - 6]);
        } else if j < 24 + 3 * w + 10 {
            assert(s1[j] == s1.subrange(24 + 3 * w + 8, 24 + 3 * w + 10)[j - 24 - 3 * w - 8]
                && s2[j] == s2.subrange(24 + 3 * w + 8, 24 + 3 * w + 10)[j - 24 - 3 * w - 8]);
        } else if j < 24 + 3 * w + 12 {
            assert(s1[j] == s1.subrange(24 + 3 * w + 10, 24 + 3 * w + 12)[j - 24 - 3 * w - 10]
                && s2[j] == s2.subrange(24 + 3 * w + 10, 24 + 3 * w + 12)[j - 24 - 3 * w - 10]);
        } else if j < 24 + 3 * w + 14 {
            assert(s1[j] == s1.subrange(24 + 3 * w + 12, 24 + 3 * w + 14)[j - 24 - 3 * w - 12]
                && s2[j] == s2.subrange(24 + 3 * w + 12, 24 + 3 * w + 14)[j - 24 - 3 * w - 12]);
        } else {
            assert(s1[j] == s1.subrange(24 + 3 * w + 14, 24 + 3 * w + 16)[j - 24 - 3 * w - 14]
                && s2[j] == s2.subrange(24 + 3 * w + 14, 24 + 3 * w + 16)[j - 24 - 3 * w - 14]);
        }
    }
    assert(s1 =~= s2);
}

/// The header-decoder analyzer: owns the decode result of the buffer at the
/// last recompute. On a failed decode it keeps the structured error, and the
/// presentation layer falls back to an unparsed view.
pub struct FormatExplorer {
    /// The last decode result.
    pub parsed: Result<ElfFormat, ElfDecodeError>,
}

/// `parsed` is the decode result the header decoder owes for buffer `s`.
pub open spec fn format_state(parsed: Result<ElfFormat, ElfDecodeError>, s: Seq<u8>) -> bool {
    match parsed {
        Ok(h) => decode_error(s) is None && header_matches(h, s),
        Err(e) => decode_error(s) == Some(e),
    }
}

impl FormatExplorer {
    /// Creates the analyzer, fully initialized against the buffer's current
    /// contents.
    pub fn new(file: &[u8]) -> (r: Self)
        ensures
            format_state(r.parsed, file@),
    {
        FormatExplorer { parsed: ElfFormat::parse(file) }
    }

    /// Re-decodes the buffer and replaces the previous result.
    pub fn file_changed(&mut self, file: &[u8])
        ensures
            format_state(final(self).parsed, file@),
    {
        self.parsed = ElfFormat::parse(file);
    }

    /// Display name of the analyzer.
    pub fn title(&self) -> (r: String)
        ensures
            r@ == "Format Explorer"@,
    {
        "Format Explorer".to_owned()
    }

    /// Recomputes the derived state in response to a buffer-changed event.
    pub fn notify(&mut self, event: Event, file: &[u8])
        ensures
            format_state(final(self).parsed, file@),
    {
        match event {
            Event::FileChanged => {
                self.file_changed(file);
            },
        }
    }
}

} // verus!
