//! The bit-packing encoder: bytes in, symbol text out. Eight bits of each
//! byte enter an accumulator; whenever eleven bits are together they become
//! one main symbol, and whatever is left at the end becomes one closing
//! symbol from the tail table (up to 3 bits) or the main table (4 to 10).

use vstd::prelude::*;
use vstd::arithmetic::power2::{pow2, lemma2_to64, lemma_pow2_adds, lemma_pow2_pos};
use vstd::arithmetic::mul::lemma_mul_inequality;
use vstd::arithmetic::div_mod::lemma_multiply_divide_lt;
use vstd::bits::{lemma_u16_shl_is_mul, lemma_u16_shr_is_div, lemma_u16_low_bits_mask_is_mod,
    low_bits_mask};
use vstd::string::StringExecFns;
use crate::bits::{bits_val, bytes_bits, byte_bits, lemma_bytes_bits_push, lemma_byte_bits_val,
    lemma_bits_val_concat, lemma_bits_val_split, lemma_bits_val_bound};
use crate::token::{Token, full_groups, frag, tail_tokens, encode_tokens, lemma_groups_append,
    lemma_groups_shape};
use crate::alphabet::Alphabet;

verus! {

/// The text of one token: the symbol at its index in its table.
pub open spec fn token_text(a: Alphabet, t: Token) -> Seq<char> {
    match t {
        Token::Main(v) => a.main_syms()[v as int],
        Token::Tail(v) => a.tail_syms()[v as int],
    }
}

/// The texts of a token sequence, concatenated in order.
pub open spec fn syms_text(a: Alphabet, ts: Seq<Token>) -> Seq<char>
    decreases ts.len(),
{
    if ts.len() == 0 {
        Seq::empty()
    } else {
        syms_text(a, ts.drop_last()) + token_text(a, ts.last())
    }
}

/// What `encode` returns: the texts of the encoder's tokens for the input.
pub open spec fn spec_encode(a: Alphabet, s: Seq<u8>) -> Seq<char> {
    syms_text(a, encode_tokens(s))
}

pub proof fn lemma_syms_text_push(a: Alphabet, ts: Seq<Token>, t: Token)
    ensures
        syms_text(a, ts.push(t)) == syms_text(a, ts) + token_text(a, t),
{
    assert(ts.push(t).drop_last() =~= ts);
    assert(ts.push(t).last() == t);
}

pub proof fn lemma_syms_text_concat(a: Alphabet, x: Seq<Token>, y: Seq<Token>)
    ensures
        syms_text(a, x + y) == syms_text(a, x) + syms_text(a, y),
    decreases y.len(),
{
    if y.len() == 0 {
        assert(x + y =~= x);
        assert(syms_text(a, x) + syms_text(a, y) =~= syms_text(a, x));
    } else {
        let y2 = y.drop_last();
        assert(x + y2 =~= (x + y).drop_last());
        lemma_syms_text_concat(a, x, y2);
        assert((x + y).last() == y.last());
        assert(syms_text(a, x + y) == syms_text(a, x) + (syms_text(a, y2) + token_text(
            a,
            y.last(),
        ))) by {
            assert((syms_text(a, x) + syms_text(a, y2)) + token_text(a, y.last()) =~= syms_text(
                a,
                x,
            ) + (syms_text(a, y2) + token_text(a, y.last())));
        }
        assert(syms_text(a, y) == syms_text(a, y2) + token_text(a, y.last()));
    }
}

/// Feed one byte to the packing accumulator. When the eleven bits of a main
/// group come together, the completed group's symbol is returned and the
/// byte's leftover low bits restart the accumulator.
pub(crate) fn bytes_to_emojis<'a>(a: &'a Alphabet, stage: &mut u16, remaining: &mut u8, byte: u8) -> (r:
    Option<&'a String>)
    requires
        a.wf(),
        *old(remaining) <= 10,
        (*old(stage) as nat) < pow2(*old(remaining) as nat),
    ensures
        *old(remaining) < 3 ==> {
            &&& r is None
            &&& *final(remaining) == *old(remaining) + 8
            &&& (*final(stage) as nat) == (*old(stage) as nat) * 256 + byte
        },
        *old(remaining) >= 3 ==> {
            &&& *final(remaining) == *old(remaining) - 3
            &&& (*final(stage) as nat) == (byte as nat) % pow2((*old(remaining) - 3) as nat)
            &&& {
                let idx = (*old(stage) as nat) * pow2((11 - *old(remaining)) as nat) + (
                byte as nat) / pow2((*old(remaining) - 3) as nat);
                &&& idx < 2048
                &&& r matches Some(sym) && sym@ == a.main_syms()[idx as int]
            }
        },
        *final(remaining) <= 10,
        (*final(stage) as nat) < pow2(*final(remaining) as nat),
{
    proof {
        lemma2_to64();
    }
    let b16 = byte as u16;
    let need = 11 - *remaining;
    if need <= 8 {
        let sh = 8 - need;
        proof {
            lemma_pow2_adds((*remaining) as nat, need as nat);
            assert(pow2((*remaining) as nat) * pow2(need as nat) == 2048);
            lemma_mul_inequality(
                *stage as int,
                pow2((*remaining) as nat) as int - 1,
                pow2(need as nat) as int,
            );
            assert((pow2((*remaining) as nat) - 1) * pow2(need as nat) == pow2(
                (*remaining) as nat,
            ) * pow2(need as nat) - pow2(need as nat)) by (nonlinear_arith);
            assert((*stage as nat) * pow2(need as nat) <= 2048 - pow2(need as nat));
            lemma_u16_shl_is_mul(*stage, need as u16);
            lemma_u16_shr_is_div(b16, sh as u16);
            lemma_pow2_adds(sh as nat, need as nat);
            assert(pow2(sh as nat) * pow2(need as nat) == 256);
            lemma_pow2_pos(sh as nat);
            lemma_multiply_divide_lt(b16 as int, pow2(sh as nat) as int, pow2(need as nat) as int);
            assert((b16 as nat) / pow2(sh as nat) < pow2(need as nat));
        }
        let hi = *stage << need;
        let lo = b16 >> sh;
        assert(hi as nat == (*stage as nat) * pow2(need as nat));
        assert(lo as nat == (b16 as nat) / pow2(sh as nat));
        assert(hi + lo < 2048);
        let index = hi + lo;
        let sym = a.main_symbol(index);
        proof {
            lemma_u16_shl_is_mul(1u16, sh as u16);
            lemma_u16_low_bits_mask_is_mod(b16, sh as nat);
            assert((1u16 << sh) - 1 == low_bits_mask(sh as nat));
        }
        let mask = (1u16 << sh) - 1;
        *stage = b16 & mask;
        *remaining = sh;
        proof {
            assert((*stage as nat) == (byte as nat) % pow2(sh as nat));
            assert((*stage as nat) < pow2(sh as nat)) by {
                lemma_pow2_pos(sh as nat);
            }
        }
        Some(sym)
    } else {
        proof {
            lemma_u16_shl_is_mul(*stage, 8);
            assert(pow2(8) == 256);
            lemma_pow2_adds((*remaining) as nat, 8);
        }
        *stage = (*stage << 8) + b16;
        *remaining = *remaining + 8;
        proof {
            lemma_mul_inequality(
                *old(stage) as int,
                pow2(*old(remaining) as nat) as int - 1,
                256,
            );
        }
        None
    }
}

/// Close the stream: whatever the accumulator still holds becomes one tail
/// symbol (1 to 3 bits) or one main symbol (4 to 10 bits); nothing when it
/// is empty.
pub(crate) fn handle_remaining_bits<'a>(a: &'a Alphabet, stage: u16, remaining: u8) -> (r: Option<
    &'a String>)
    requires
        a.wf(),
        remaining <= 10,
        (stage as nat) < pow2(remaining as nat),
    ensures
        remaining == 0 ==> r is None,
        1 <= remaining <= 3 ==> (r matches Some(sym) && stage < 8 && sym@ == a.tail_syms()[
            stage as int]),
        remaining > 3 ==> (r matches Some(sym) && stage < 2048 && sym@ == a.main_syms()[
            stage as int]),
{
    proof {
        lemma2_to64();
        if remaining <= 3 {
            vstd::arithmetic::power2::lemma_pow2_strictly_increases(remaining as nat, 4);
        } else {
            vstd::arithmetic::power2::lemma_pow2_strictly_increases(remaining as nat, 11);
        }
    }
    if remaining == 0 {
        None
    } else if remaining <= 3 {
        Some(a.tail_symbol(stage))
    } else {
        Some(a.main_symbol(stage))
    }
}

/// Encodes a byte sequence as symbol text. Total: any input, the empty one
/// included, has an encoding, and the result is exactly the concatenated
/// symbols of the encoder's token sequence for the input.
pub fn encode(a: &Alphabet, bytes: &[u8]) -> (r: String)
    requires
        a.wf(),
    ensures
        r@ == spec_encode(*a, bytes@),
{
    let mut output = String::new();
    let mut stage: u16 = 0;
    let mut remaining: u8 = 0;
    let mut i: usize = 0;
    proof {
        lemma2_to64();
        assert(bytes@.take(0) =~= Seq::<u8>::empty());
    }
    while i < bytes.len()
        invariant
            a.wf(),
            i <= bytes@.len(),
            remaining <= 10,
            (stage as nat) < pow2(remaining as nat),
            remaining as nat == frag(bytes_bits(bytes@.take(i as int))).len(),
            stage as nat == bits_val(frag(bytes_bits(bytes@.take(i as int)))),
            output@ == syms_text(*a, full_groups(bytes_bits(bytes@.take(i as int)))),
        decreases bytes@.len() - i,
    {
        let ghost pre = bytes@.take(i as int);
        let ghost bs = bytes_bits(pre);
        let ghost old_stage = stage;
        let ghost old_rem = remaining;
        let byte = bytes[i];
        let sym = bytes_to_emojis(a, &mut stage, &mut remaining, byte);
        match sym {
            Some(s) => output.append(s.as_str()),
            None => (),
        }
        proof {
            lemma2_to64();
            let post = bytes@.take(i as int + 1);
            assert(post =~= pre.push(byte));
            lemma_bytes_bits_push(pre, byte);
            let bb = byte_bits(byte);
            let f = frag(bs);
            lemma_groups_append(bs, bb);
            lemma_byte_bits_val(byte);
            if old_rem < 3 {
                lemma_bits_val_concat(f, bb);
            } else {
                let need = 11 - old_rem as int;
                let ext = f + bb;
                assert(ext.take(11) =~= f + bb.take(need));
                lemma_bits_val_concat(f, bb.take(need));
                lemma_bits_val_split(bb, need);
                assert(ext.skip(11) =~= bb.skip(need));
                let idx = (old_stage as nat) * pow2(need as nat) + (byte as nat) / pow2(
                    (old_rem - 3) as nat,
                );
                assert(bits_val(ext.take(11)) == idx);
                lemma_syms_text_push(
                    *a,
                    full_groups(bs),
                    Token::Main(bits_val(ext.take(11)) as u16),
                );
            }
        }
        i += 1;
    }
    let sym = handle_remaining_bits(a, stage, remaining);
    match sym {
        Some(s) => output.append(s.as_str()),
        None => (),
    }
    proof {
        assert(bytes@.take(bytes@.len() as int) =~= bytes@);
        let bs = bytes_bits(bytes@);
        let f = frag(bs);
        lemma_syms_text_concat(*a, full_groups(bs), tail_tokens(bs));
        if f.len() == 0 {
            assert(tail_tokens(bs) =~= Seq::<Token>::empty());
            assert(syms_text(*a, full_groups(bs)) + syms_text(*a, Seq::<Token>::empty())
                =~= syms_text(*a, full_groups(bs)));
        } else {
            let t = if f.len() <= 3 {
                Token::Tail(bits_val(f) as u16)
            } else {
                Token::Main(bits_val(f) as u16)
            };
            assert(tail_tokens(bs) =~= seq![t]);
            assert(seq![t].drop_last() =~= Seq::<Token>::empty());
            assert(syms_text(*a, seq![t]) == syms_text(*a, Seq::<Token>::empty()) + token_text(
                *a,
                t,
            ));
            assert(syms_text(*a, Seq::<Token>::empty()) + token_text(*a, t) =~= token_text(*a, t));
        }
    }
    output
}

} // verus!
