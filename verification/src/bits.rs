//! Mathematical model of bit streams: every contract of the codec is stated
//! over the sequence of bits carried by the input bytes, most significant bit
//! first, and over the unsigned value of such a sequence.

use vstd::prelude::*;
use vstd::arithmetic::power2::*;
use vstd::arithmetic::div_mod::*;

verus! {

/// The eight bits of a byte, most significant first.
pub open spec fn byte_bits(b: u8) -> Seq<bool> {
    Seq::new(8, |i: int| (b as nat) / pow2((7 - i) as nat) % 2 == 1)
}

/// The bits of a byte sequence, in order.
pub open spec fn bytes_bits(s: Seq<u8>) -> Seq<bool>
    decreases s.len(),
{
    if s.len() == 0 {
        Seq::empty()
    } else {
        bytes_bits(s.drop_last()) + byte_bits(s.last())
    }
}

/// The unsigned value of a bit sequence, read most significant bit first.
pub open spec fn bits_val(bs: Seq<bool>) -> nat
    decreases bs.len(),
{
    if bs.len() == 0 {
        0
    } else {
        2 * bits_val(bs.drop_last()) + (if bs.last() {
            1nat
        } else {
            0nat
        })
    }
}

pub proof fn lemma_bytes_bits_len(s: Seq<u8>)
    ensures
        bytes_bits(s).len() == 8 * s.len(),
    decreases s.len(),
{
    if s.len() > 0 {
        lemma_bytes_bits_len(s.drop_last());
    }
}

pub proof fn lemma_bytes_bits_push(s: Seq<u8>, b: u8)
    ensures
        bytes_bits(s.push(b)) == bytes_bits(s) + byte_bits(b),
{
    assert(s.push(b).drop_last() =~= s);
    assert(s.push(b).last() == b);
}

pub proof fn lemma_bits_val_concat(a: Seq<bool>, b: Seq<bool>)
    ensures
        bits_val(a + b) == bits_val(a) * pow2(b.len()) + bits_val(b),
    decreases b.len(),
{
    if b.len() == 0 {
        assert(a + b =~= a);
        lemma_pow2_unfold_zero();
        assert(bits_val(b) == 0);
        assert(bits_val(a) * pow2(0) == bits_val(a) * 1);
        assert(bits_val(a + b) == bits_val(a) * pow2(b.len()) + bits_val(b));
    } else {
        let b2 = b.drop_last();
        assert((a + b).drop_last() =~= a + b2);
        assert((a + b).last() == b.last());
        lemma_bits_val_concat(a, b2);
        lemma_pow2_adds(b2.len(), 1);
        lemma_pow2_unfold_one();
        assert(pow2(b.len()) == pow2(b2.len()) * 2);
        assert(bits_val(a + b) == 2 * (bits_val(a) * pow2(b2.len()) + bits_val(b2)) + (if b.last() {
            1nat
        } else {
            0nat
        }));
        assert(2 * (bits_val(a) * pow2(b2.len())) == bits_val(a) * pow2(b.len()))
            by (nonlinear_arith)
            requires
                pow2(b.len()) == pow2(b2.len()) * 2,
        ;
        assert(bits_val(b) == 2 * bits_val(b2) + (if b.last() {
            1nat
        } else {
            0nat
        }));
        assert(bits_val(a + b) == bits_val(a) * pow2(b.len()) + bits_val(b));
    }
}

proof fn lemma_pow2_unfold_zero()
    ensures
        pow2(0) == 1,
{
    lemma2_to64();
}

proof fn lemma_pow2_unfold_one()
    ensures
        pow2(1) == 2,
{
    lemma2_to64();
}

pub proof fn lemma_bits_val_bound(bs: Seq<bool>)
    ensures
        bits_val(bs) < pow2(bs.len()),
    decreases bs.len(),
{
    if bs.len() == 0 {
        lemma_pow2_unfold_zero();
    } else {
        lemma_bits_val_bound(bs.drop_last());
        lemma_pow2_adds(bs.drop_last().len(), 1);
        lemma_pow2_unfold_one();
    }
}

/// The value of a bit sequence splits at any cut into a quotient and a
/// remainder part.
pub proof fn lemma_bits_val_split(bs: Seq<bool>, k: int)
    requires
        0 <= k <= bs.len(),
    ensures
        bits_val(bs) == bits_val(bs.take(k)) * pow2((bs.len() - k) as nat) + bits_val(
            bs.skip(k),
        ),
        bits_val(bs.take(k)) == bits_val(bs) / pow2((bs.len() - k) as nat),
        bits_val(bs.skip(k)) == bits_val(bs) % pow2((bs.len() - k) as nat),
{
    assert(bs =~= bs.take(k) + bs.skip(k));
    lemma_bits_val_concat(bs.take(k), bs.skip(k));
    lemma_bits_val_bound(bs.skip(k));
    lemma_pow2_pos((bs.len() - k) as nat);
    lemma_fundamental_div_mod_converse(
        bits_val(bs) as int,
        pow2((bs.len() - k) as nat) as int,
        bits_val(bs.take(k)) as int,
        bits_val(bs.skip(k)) as int,
    );
}

proof fn lemma_byte_bits_prefix(b: u8, k: int)
    requires
        0 <= k <= 8,
    ensures
        bits_val(byte_bits(b).take(k)) == (b as nat) / pow2((8 - k) as nat),
    decreases k,
{
    if k == 0 {
        lemma2_to64();
        assert(byte_bits(b).take(0) =~= Seq::<bool>::empty());
        assert((b as nat) / pow2(8) == 0) by {
            lemma_basic_div(b as int, pow2(8) as int);
        }
    } else {
        lemma_byte_bits_prefix(b, k - 1);
        let t = byte_bits(b).take(k);
        assert(t.drop_last() =~= byte_bits(b).take(k - 1));
        assert(t.last() == ((b as nat) / pow2((8 - k) as nat) % 2 == 1));
        let x = (b as nat) / pow2((8 - k) as nat);
        assert((b as nat) / pow2((9 - k) as nat) == x / 2) by {
            lemma_pow2_adds((8 - k) as nat, 1);
            lemma_pow2_unfold_one();
            lemma_pow2_pos((8 - k) as nat);
            lemma_div_denominator(b as int, pow2((8 - k) as nat) as int, 2);
        }
        assert(x == 2 * (x / 2) + x % 2) by {
            lemma_fundamental_div_mod(x as int, 2);
        }
        assert(bits_val(t) == 2 * (x / 2) + (if x % 2 == 1 {
            1nat
        } else {
            0nat
        }));
        assert(x % 2 == 0 || x % 2 == 1);
    }
}

pub proof fn lemma_byte_bits_val(b: u8)
    ensures
        bits_val(byte_bits(b)) == b,
{
    lemma_byte_bits_prefix(b, 8);
    assert(byte_bits(b).take(8) =~= byte_bits(b));
    lemma2_to64();
    assert(pow2(0) == 1);
    assert((b as nat) / 1 == b);
}

/// Within the bit stream of a byte sequence, the bits of the i-th byte are
/// exactly the i-th aligned group of eight.
pub proof fn lemma_bytes_bits_byte(s: Seq<u8>, i: int)
    requires
        0 <= i < s.len(),
    ensures
        bytes_bits(s).subrange(8 * i, 8 * i + 8) =~= byte_bits(s[i]),
    decreases s.len(),
{
    lemma_bytes_bits_len(s);
    lemma_bytes_bits_len(s.drop_last());
    if i == s.len() - 1 {
        assert(bytes_bits(s) == bytes_bits(s.drop_last()) + byte_bits(s.last()));
    } else {
        lemma_bytes_bits_byte(s.drop_last(), i);
        assert(s.drop_last()[i] == s[i]);
        assert(bytes_bits(s).subrange(8 * i, 8 * i + 8) =~= bytes_bits(s.drop_last()).subrange(
            8 * i,
            8 * i + 8,
        ));
    }
}

} // verus!
