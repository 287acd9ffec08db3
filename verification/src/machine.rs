//! The decoder's bit-unpacking state machine, at the level of token values.
//!
//! Between symbols the decoder holds `pending` undelivered bits whose value
//! is `stage`. Each symbol contributes a bit-width and a value; completed
//! bytes are delivered at once. A closing main symbol contributes only as
//! many bits as make the total a multiple of eight; a tail symbol always
//! completes the byte under assembly, and is rejected when its value does
//! not fit in the bits still needed.

use vstd::prelude::*;
use vstd::arithmetic::power2::{pow2, lemma2_to64, lemma_pow2_pos, lemma_pow2_strictly_increases};
use vstd::arithmetic::div_mod::{lemma_small_mod, lemma_fundamental_div_mod, lemma_mod_multiples_basic,
    lemma_fundamental_div_mod_converse, lemma_add_mod_noop};
use crate::bits::{bits_val, bytes_bits, byte_bits, lemma_bytes_bits_len, lemma_bytes_bits_byte,
    lemma_bits_val_concat, lemma_bits_val_bound, lemma_bits_val_split, lemma_byte_bits_val};
use crate::token::{Token, full_groups, frag, tail_tokens, encode_tokens, lemma_groups_shape};

verus! {

/// Decoder state between symbols, plus the bytes delivered so far.
#[verifier::ext_equal]
pub struct DecState {
    pub stage: nat,
    pub pending: nat,
    pub out: Seq<u8>,
}

pub open spec fn dec_init() -> DecState {
    DecState { stage: 0, pending: 0, out: Seq::empty() }
}

/// Append `w` bits of value `v` to the accumulator and deliver every
/// completed byte, high bits first. With `pending < 8` and `w <= 11` at
/// most two bytes complete.
pub open spec fn dec_step(st: DecState, w: nat, v: nat) -> DecState {
    let total = st.stage * pow2(w) + v;
    let tb = st.pending + w;
    if tb < 8 {
        DecState { stage: total, pending: tb, out: st.out }
    } else if tb < 16 {
        DecState {
            stage: total % pow2((tb - 8) as nat),
            pending: (tb - 8) as nat,
            out: st.out.push(((total / pow2((tb - 8) as nat)) % 256) as u8),
        }
    } else {
        DecState {
            stage: total % pow2((tb - 16) as nat),
            pending: (tb - 16) as nat,
            out: st.out + seq![
                ((total / pow2((tb - 8) as nat)) % 256) as u8,
                ((total / pow2((tb - 16) as nat)) % 256) as u8,
            ],
        }
    }
}

/// How many bits a closing main symbol contributes in a stream of `m`
/// symbols: the unique width in 4..=11 that makes the total length of the
/// stream a multiple of eight.
pub open spec fn last_main_width(m: nat) -> nat {
    (11 - (11 * m) % 8) as nat
}

/// One symbol's effect on the decoder. `is_last` and `m` matter only for a
/// main token; a tail token is rejected when its value needs more bits than
/// the byte under assembly has left.
pub open spec fn tok_step(st: DecState, t: Token, is_last: bool, m: nat) -> Option<DecState> {
    match t {
        Token::Main(v) => Some(
            dec_step(
                st,
                if is_last {
                    last_main_width(m)
                } else {
                    11nat
                },
                v as nat,
            ),
        ),
        Token::Tail(v) => {
            let w = (8 - st.pending) as nat;
            if (v as nat) < pow2(w) {
                Some(dec_step(st, w, v as nat))
            } else {
                None
            }
        },
    }
}

/// The state after the first `k` symbols, none of them treated as closing.
pub open spec fn state_after(toks: Seq<Token>, k: nat) -> Option<DecState>
    decreases k,
{
    if k == 0 {
        Some(dec_init())
    } else {
        match state_after(toks, (k - 1) as nat) {
            None => None,
            Some(st) => tok_step(st, toks[k - 1], false, 0),
        }
    }
}

/// After the last symbol, anything still pending becomes one final byte,
/// shifted to the low end.
pub open spec fn final_flush(st: DecState) -> Seq<u8> {
    if st.pending > 0 {
        st.out.push(((st.stage / pow2((8 - st.pending) as nat)) % 256) as u8)
    } else {
        st.out
    }
}

/// The bytes a token sequence decodes to: every symbol but the last is
/// processed as interior, the last as closing; `None` when a tail value
/// does not fit.
pub open spec fn decode_tokens(toks: Seq<Token>) -> Option<Seq<u8>> {
    let m = toks.len();
    if m == 0 {
        Some(Seq::empty())
    } else {
        match state_after(toks, (m - 1) as nat) {
            None => None,
            Some(st) => match tok_step(st, toks[m - 1], true, m as nat) {
                None => None,
                Some(st2) => Some(final_flush(st2)),
            },
        }
    }
}

/// `state_after` reads only the first `k` tokens.
pub proof fn lemma_state_after_prefix(toks1: Seq<Token>, toks2: Seq<Token>, k: nat)
    requires
        k <= toks1.len(),
        k <= toks2.len(),
        toks1.subrange(0, k as int) == toks2.subrange(0, k as int),
    ensures
        state_after(toks1, k) == state_after(toks2, k),
    decreases k,
{
    if k > 0 {
        assert(toks1.subrange(0, k - 1) =~= toks1.subrange(0, k as int).subrange(0, k - 1));
        assert(toks2.subrange(0, k - 1) =~= toks2.subrange(0, k as int).subrange(0, k - 1));
        lemma_state_after_prefix(toks1, toks2, (k - 1) as nat);
        assert(toks1[k - 1] == toks1.subrange(0, k as int)[k - 1]);
        assert(toks2[k - 1] == toks2.subrange(0, k as int)[k - 1]);
    }
}

/// Interior processing keeps fewer than eight bits pending, and the stage
/// below the value of one full byte group.
pub proof fn lemma_state_after_wf(toks: Seq<Token>, k: nat)
    requires
        k <= toks.len(),
    ensures
        state_after(toks, k) matches Some(st) ==> st.pending < 8 && st.stage < pow2(st.pending),
    decreases k,
{
    lemma2_to64();
    if k > 0 {
        lemma_state_after_wf(toks, (k - 1) as nat);
        match state_after(toks, (k - 1) as nat) {
            None => {},
            Some(st) => {
                let t = toks[k - 1];
                let w: nat = match t {
                    Token::Main(_) => 11nat,
                    Token::Tail(_) => (8 - st.pending) as nat,
                };
                let v: nat = match t {
                    Token::Main(v) => v as nat,
                    Token::Tail(v) => v as nat,
                };
                let total = st.stage * pow2(w) + v;
                let tb = st.pending + w;
                assert(tb >= 8 && tb < 24);
                let cut: nat = if tb < 16 {
                    (tb - 8) as nat
                } else {
                    (tb - 16) as nat
                };
                lemma_pow2_pos(cut);
                assert(total % pow2(cut) < pow2(cut)) by {
                    lemma_fundamental_div_mod(total as int, pow2(cut) as int);
                }
            },
        }
    }
}

/// The decoder's state once the first `c` bits of the stream of `s` have
/// been consumed: every completed byte has been delivered, and the bits
/// past the last delivered byte are pending.
pub open spec fn stream_state(s: Seq<u8>, c: int) -> DecState {
    DecState {
        stage: bits_val(bytes_bits(s).subrange(8 * (c / 8), c)),
        pending: (c % 8) as nat,
        out: s.subrange(0, c / 8),
    }
}

/// Feeding the next `w` bits of the stream of `s` into the decoder advances
/// its state by exactly those bits.
proof fn lemma_dec_step_bits(s: Seq<u8>, c: int, w: int)
    requires
        0 <= c,
        1 <= w <= 11,
        c + w <= 8 * s.len(),
    ensures
        dec_step(
            stream_state(s, c),
            w as nat,
            bits_val(bytes_bits(s).subrange(c, c + w)),
        ) =~= stream_state(s, c + w),
{
    lemma2_to64();
    let bs = bytes_bits(s);
    lemma_bytes_bits_len(s);
    let d = c / 8;
    let p = c % 8;
    lemma_fundamental_div_mod(c, 8);
    let st = stream_state(s, c);
    let v = bits_val(bs.subrange(c, c + w));
    let slice = bs.subrange(8 * d, c + w);
    assert(bs.subrange(8 * d, c) + bs.subrange(c, c + w) =~= slice);
    lemma_bits_val_concat(bs.subrange(8 * d, c), bs.subrange(c, c + w));
    let total = st.stage * pow2(w as nat) + v;
    assert(total == bits_val(slice));
    let tb = p + w;
    assert(slice.len() == tb);
    let lhs = dec_step(st, w as nat, v);
    let rhs = stream_state(s, c + w);
    if tb < 8 {
        lemma_fundamental_div_mod_converse(c + w, 8, d, tb);
        assert(lhs.out =~= rhs.out);
        assert(lhs.stage == rhs.stage);
    } else if tb < 16 {
        lemma_fundamental_div_mod_converse(c + w, 8, d + 1, tb - 8);
        assert((c + w) / 8 == d + 1 && (c + w) % 8 == tb - 8);
        lemma_bits_val_split(slice, 8);
        assert(slice.take(8) =~= bs.subrange(8 * d, 8 * d + 8));
        lemma_bytes_bits_byte(s, d);
        lemma_byte_bits_val(s[d]);
        assert(bits_val(slice.take(8)) == s[d]);
        assert(total / pow2((tb - 8) as nat) == s[d] as nat);
        lemma_small_mod(s[d] as nat, 256);
        assert(slice.skip(8) =~= bs.subrange(8 * (d + 1), c + w));
        assert(lhs.stage == rhs.stage);
        assert(lhs.out =~= s.subrange(0, d).push(s[d]));
        assert(s.subrange(0, d).push(s[d]) =~= s.subrange(0, d + 1));
    } else {
        assert(tb <= 18);
        lemma_fundamental_div_mod_converse(c + w, 8, d + 2, tb - 16);
        assert((c + w) / 8 == d + 2 && (c + w) % 8 == tb - 16);
        lemma_bits_val_split(slice, 8);
        assert(slice.take(8) =~= bs.subrange(8 * d, 8 * d + 8));
        lemma_bytes_bits_byte(s, d);
        lemma_byte_bits_val(s[d]);
        assert(total / pow2((tb - 8) as nat) == s[d] as nat);
        lemma_small_mod(s[d] as nat, 256);
        lemma_bits_val_split(slice, 16);
        let first16 = slice.take(16);
        assert(bits_val(first16) == total / pow2((tb - 16) as nat));
        lemma_bits_val_split(first16, 8);
        assert(first16.take(8) =~= bs.subrange(8 * d, 8 * d + 8));
        assert(first16.skip(8) =~= bs.subrange(8 * (d + 1), 8 * (d + 1) + 8));
        lemma_bytes_bits_byte(s, d + 1);
        lemma_byte_bits_val(s[d + 1]);
        assert(bits_val(first16) == (s[d] as nat) * 256 + s[d + 1]);
        assert(bits_val(first16) % 256 == s[d + 1]) by {
            lemma_fundamental_div_mod_converse(
                bits_val(first16) as int,
                256,
                s[d] as int,
                s[d + 1] as int,
            );
        }
        assert(slice.skip(16) =~= bs.subrange(8 * (d + 2), c + w));
        assert(lhs.stage == rhs.stage);
        assert(lhs.out =~= s.subrange(0, d) + seq![s[d], s[d + 1]]);
        assert(s.subrange(0, d) + seq![s[d], s[d + 1]] =~= s.subrange(0, d + 2));
    }
}

/// After any number of complete 11-bit groups, the decoder that has
/// consumed the encoder's tokens so far stands exactly at the matching
/// point of the bit stream.
proof fn lemma_encode_prefix_state(s: Seq<u8>, j: int)
    requires
        0 <= j <= (8 * s.len()) / 11,
    ensures
        state_after(encode_tokens(s), j as nat) == Some(stream_state(s, 11 * j)),
    decreases j,
{
    lemma2_to64();
    let toks = encode_tokens(s);
    let bs = bytes_bits(s);
    lemma_bytes_bits_len(s);
    lemma_groups_shape(bs);
    if j == 0 {
        assert(stream_state(s, 0) =~= dec_init());
    } else {
        lemma_encode_prefix_state(s, j - 1);
        assert(toks[j - 1] == full_groups(bs)[j - 1]);
        let slice = bs.subrange(11 * (j - 1), 11 * j);
        assert(toks[j - 1] == Token::Main(bits_val(slice) as u16));
        lemma_bits_val_bound(slice);
        lemma_pow2_strictly_increases(11, 16);
        assert((bits_val(slice) as u16) as nat == bits_val(slice));
        assert(11 * j <= 8 * s.len()) by {
            lemma_fundamental_div_mod(8 * s.len() as int, 11);
        }
        lemma_dec_step_bits(s, 11 * (j - 1), 11);
        assert(slice =~= bs.subrange(11 * (j - 1), 11 * (j - 1) + 11));
        assert(state_after(toks, j as nat) == tok_step(
            stream_state(s, 11 * (j - 1)),
            toks[j - 1],
            false,
            0,
        ));
    }
}

/// Decoding inverts encoding: the token stream the encoder produces for any
/// byte sequence decodes to exactly that sequence.
pub proof fn lemma_round_trip(s: Seq<u8>)
    ensures
        decode_tokens(encode_tokens(s)) == Some(s),
{
    lemma2_to64();
    let toks = encode_tokens(s);
    let bs = bytes_bits(s);
    lemma_bytes_bits_len(s);
    lemma_groups_shape(bs);
    let n = 8 * s.len() as int;
    let k = n / 11;
    let r = n % 11;
    lemma_fundamental_div_mod(n, 11);
    assert(n % 8 == 0) by {
        lemma_mod_multiples_basic(s.len() as int, 8);
    }
    if s.len() == 0 {
        assert(toks =~= Seq::<Token>::empty());
        assert(decode_tokens(toks) == Some(Seq::<u8>::empty()));
        assert(Seq::<u8>::empty() =~= s);
    } else if r == 0 {
        assert(frag(bs).len() == 0);
        assert(tail_tokens(bs) =~= Seq::<Token>::empty());
        assert(toks =~= full_groups(bs));
        assert(toks.len() == k);
        assert(k >= 1);
        lemma_encode_prefix_state(s, k - 1);
        assert(11 * k == n);
        assert((11 * k) % 8 == 0);
        assert(last_main_width(k as nat) == 11);
        let slice = bs.subrange(11 * (k - 1), 11 * k);
        assert(toks[k - 1] == Token::Main(bits_val(slice) as u16));
        lemma_bits_val_bound(slice);
        lemma_pow2_strictly_increases(11, 16);
        lemma_dec_step_bits(s, 11 * (k - 1), 11);
        assert(slice =~= bs.subrange(11 * (k - 1), 11 * (k - 1) + 11));
        let st2 = stream_state(s, n);
        assert(tok_step(stream_state(s, 11 * (k - 1)), toks[k - 1], true, k as nat) == Some(st2));
        assert(st2.pending == 0);
        assert(final_flush(st2) == st2.out);
        assert(st2.out =~= s);
    } else {
        lemma_encode_prefix_state(s, k);
        let st = stream_state(s, 11 * k);
        assert(toks.len() == k + 1);
        assert(toks[k] == tail_tokens(bs)[0]);
        let f = frag(bs);
        assert(f.len() == r);
        assert(f =~= bs.subrange(11 * k, n)) by {
            assert(f =~= bs.skip(11 * k));
            assert(bs.skip(11 * k) =~= bs.subrange(11 * k, n));
        }
        lemma_bits_val_bound(f);
        let p = (11 * k) % 8;
        assert((p + r) % 8 == 0) by {
            lemma_add_mod_noop(11 * k, r, 8);
            assert((11 * k + r) % 8 == 0);
        }
        assert(st.pending == p);
        assert(0 <= p <= 7) by {
            lemma_fundamental_div_mod(11 * k, 8);
        }
        if r <= 3 {
            assert(p + r == 8);
            assert(toks[k] == Token::Tail(bits_val(f) as u16));
            lemma_pow2_strictly_increases(r as nat, 16);
            assert((bits_val(f) as u16) as nat == bits_val(f));
            let w = (8 - st.pending) as nat;
            assert(w == r);
            assert(bits_val(f) < pow2(w));
            lemma_dec_step_bits(s, 11 * k, r);
            let st2 = stream_state(s, n);
            assert(tok_step(st, toks[k], true, (k + 1) as nat) == Some(st2));
            assert(st2.pending == 0);
            assert(final_flush(st2) =~= s);
        } else {
            assert(toks[k] == Token::Main(bits_val(f) as u16));
            lemma_pow2_strictly_increases(r as nat, 16);
            assert((bits_val(f) as u16) as nat == bits_val(f));
            assert((11 * (k + 1)) % 8 == (11 - r)) by {
                lemma_add_mod_noop(11 * k + r, 11 - r, 8);
                assert((11 * k + r) % 8 == 0);
                assert((11 - r) % 8 == 11 - r) by {
                    lemma_small_mod((11 - r) as nat, 8);
                }
            }
            assert(last_main_width((k + 1) as nat) == r);
            lemma_dec_step_bits(s, 11 * k, r);
            let st2 = stream_state(s, n);
            assert(tok_step(st, toks[k], true, (k + 1) as nat) == Some(st2));
            assert(st2.pending == 0);
            assert(final_flush(st2) =~= s);
        }
    }
}

} // verus!
