//! The bit-unpacking decoder: symbol texts in, bytes out. Each symbol is
//! looked up in the main table first, then in the tail table; a text found
//! in neither, or a tail value too wide for the byte under assembly, makes
//! the whole decode fail.

use vstd::prelude::*;
use vstd::arithmetic::power2::{pow2, lemma2_to64, lemma_pow2_pos, lemma_pow2_adds,
    lemma_pow2_strictly_increases};
use vstd::arithmetic::div_mod::{lemma_add_mod_noop, lemma_small_mod};
use vstd::arithmetic::mul::lemma_mul_inequality;
use vstd::bits::{lemma_u32_shl_is_mul, lemma_u32_shr_is_div, lemma_u32_low_bits_mask_is_mod,
    lemma_u16_shl_is_mul, low_bits_mask};
use crate::token::Token;
use crate::machine::{DecState, dec_init, dec_step, tok_step, state_after, final_flush,
    decode_tokens, last_main_width, lemma_state_after_prefix, lemma_state_after_wf};
use crate::alphabet::{Alphabet, sym_views, spec_token_of, lemma_distinct_find};

verus! {

/// Why a decode failed.
#[derive(Clone, Copy, Debug, PartialEq, Eq, Structural)]
pub enum DecodeError {
    /// A symbol is in neither table, or a tail symbol's value does not fit
    /// the bits still needed.
    InvalidSymbol,
    /// A stream's trailing bytes are not valid text.
    InvalidData,
}

/// The tokens of a symbol-text sequence: one per symbol, or nothing if any
/// symbol is in neither table.
pub open spec fn spec_tokens_of(a: Alphabet, gs: Seq<Seq<char>>) -> Option<Seq<Token>>
    decreases gs.len(),
{
    if gs.len() == 0 {
        Some(Seq::empty())
    } else {
        match spec_tokens_of(a, gs.drop_last()) {
            None => None,
            Some(ts) => match spec_token_of(a, gs.last()) {
                None => None,
                Some(t) => Some(ts.push(t)),
            },
        }
    }
}

/// What decoding a sequence of symbol texts yields.
pub open spec fn spec_decode_graphemes(a: Alphabet, gs: Seq<Seq<char>>) -> Option<Seq<u8>> {
    match spec_tokens_of(a, gs) {
        None => None,
        Some(ts) => decode_tokens(ts),
    }
}

pub proof fn lemma_tokens_of_shape(a: Alphabet, gs: Seq<Seq<char>>)
    ensures
        spec_tokens_of(a, gs) matches Some(ts) ==> ts.len() == gs.len() && forall|j: int|
            0 <= j < gs.len() ==> spec_token_of(a, gs[j]) == Some(#[trigger] ts[j]),
    decreases gs.len(),
{
    if gs.len() > 0 {
        lemma_tokens_of_shape(a, gs.drop_last());
    }
}

/// One unknown symbol anywhere makes the whole classification fail.
pub proof fn lemma_tokens_of_none(a: Alphabet, gs: Seq<Seq<char>>, j: int)
    requires
        0 <= j < gs.len(),
        spec_token_of(a, gs[j]) is None,
    ensures
        spec_tokens_of(a, gs) is None,
    decreases gs.len(),
{
    if j < gs.len() - 1 {
        assert(gs.drop_last()[j] == gs[j]);
        lemma_tokens_of_none(a, gs.drop_last(), j);
    }
}

/// Once the machine has failed it stays failed.
pub proof fn lemma_state_after_none_mono(toks: Seq<Token>, k: nat, k2: nat)
    requires
        k <= k2,
        state_after(toks, k) is None,
    ensures
        state_after(toks, k2) is None,
    decreases k2,
{
    if k < k2 {
        lemma_state_after_none_mono(toks, k, (k2 - 1) as nat);
    }
}

/// Extending a classified prefix by one known symbol classifies the longer
/// prefix and advances the machine by that token.
proof fn lemma_step_ok(a: Alphabet, views: Seq<Seq<char>>, toks: Seq<Token>, i: int, t: Token)
    requires
        0 <= i < views.len(),
        toks.len() == i,
        spec_tokens_of(a, views.take(i)) == Some(toks),
        spec_token_of(a, views[i]) == Some(t),
    ensures
        spec_tokens_of(a, views.take(i + 1)) == Some(toks.push(t)),
        state_after(toks.push(t), i as nat) == state_after(toks, i as nat),
        state_after(toks.push(t), (i + 1) as nat) == match state_after(toks, i as nat) {
            None => None,
            Some(st) => tok_step(st, t, false, 0),
        },
{
    assert(views.take(i + 1).drop_last() =~= views.take(i));
    assert(views.take(i + 1).last() == views[i]);
    let toks2 = toks.push(t);
    assert(toks2.subrange(0, i) =~= toks.subrange(0, i));
    assert(toks.subrange(0, i) =~= toks);
    lemma_state_after_prefix(toks, toks2, i as nat);
    assert(toks2[i] == t);
}

/// A machine failure at an interior symbol makes the whole decode fail.
proof fn lemma_fail_propagates(a: Alphabet, views: Seq<Seq<char>>, toks2: Seq<Token>, i: int)
    requires
        0 <= i < views.len() - 1,
        toks2.len() == i + 1,
        spec_tokens_of(a, views.take(i + 1)) == Some(toks2),
        state_after(toks2, (i + 1) as nat) is None,
    ensures
        spec_decode_graphemes(a, views) is None,
{
    let n = views.len() as int;
    match spec_tokens_of(a, views) {
        None => {},
        Some(ts_full) => {
            lemma_tokens_of_shape(a, views);
            lemma_tokens_of_shape(a, views.take(i + 1));
            assert(ts_full.subrange(0, i + 1) =~= toks2) by {
                assert forall|j: int| 0 <= j < i + 1 implies ts_full[j] == toks2[j] by {
                    assert(views.take(i + 1)[j] == views[j]);
                    assert(spec_token_of(a, views[j]) == Some(ts_full[j]));
                    assert(spec_token_of(a, views[j]) == Some(toks2[j]));
                }
            }
            assert(toks2.subrange(0, i + 1) =~= toks2);
            lemma_state_after_prefix(toks2, ts_full, (i + 1) as nat);
            lemma_state_after_none_mono(ts_full, (i + 1) as nat, (n - 1) as nat);
        },
    }
}

/// The token a symbol text stands for, main table first.
pub(crate) fn token_of(a: &Alphabet, g: &String) -> (r: Option<Token>)
    requires
        a.wf(),
    ensures
        r == spec_token_of(*a, g@),
{
    let ghost mv = a.main_syms();
    let ghost tv = a.tail_syms();
    let ghost cat = mv + tv;
    proof {
        assert forall|i: int, j: int| 0 <= i < j < mv.len() implies mv[i] != mv[j] by {
            assert(cat[i] == mv[i] && cat[j] == mv[j]);
        }
        assert forall|i: int, j: int| 0 <= i < j < tv.len() implies tv[i] != tv[j] by {
            assert(cat[mv.len() + i] == tv[i] && cat[mv.len() + j] == tv[j]);
        }
    }
    match a.main_index(g) {
        Some(i) => {
            proof {
                lemma_distinct_find(mv, i as int);
            }
            Some(Token::Main(i))
        },
        None => match a.tail_index(g) {
            Some(i) => {
                proof {
                    lemma_distinct_find(tv, i as int);
                }
                Some(Token::Tail(i))
            },
            None => None,
        },
    }
}

/// Append `w` bits of value `v` to the unpacking accumulator and deliver
/// every completed byte.
pub(crate) fn apply_bits(stage: &mut u32, pending: &mut u8, out: &mut Vec<u8>, w: u8, v: u16)
    requires
        *old(pending) < 8,
        1 <= w <= 11,
        v < 2048,
        (*old(stage) as nat) < pow2(*old(pending) as nat),
    ensures
        ({
            let st2 = dec_step(
                DecState {
                    stage: *old(stage) as nat,
                    pending: *old(pending) as nat,
                    out: old(out)@,
                },
                w as nat,
                v as nat,
            );
            &&& *final(stage) as nat == st2.stage
            &&& *final(pending) as nat == st2.pending
            &&& final(out)@ == st2.out
        }),
{
    proof {
        lemma2_to64();
        lemma_mul_inequality(
            *stage as int,
            pow2(*pending as nat) as int - 1,
            pow2(w as nat) as int,
        );
        assert((pow2(*pending as nat) - 1) * pow2(w as nat) == pow2(*pending as nat) * pow2(
            w as nat,
        ) - pow2(w as nat)) by (nonlinear_arith);
        lemma_pow2_adds(*pending as nat, w as nat);
        assert(pow2(*pending as nat) * pow2(w as nat) <= pow2(18)) by {
            if (*pending as nat) + (w as nat) < 18 {
                lemma_pow2_strictly_increases((*pending as nat) + (w as nat), 18);
            }
        }
        lemma_u32_shl_is_mul(*stage, w as u32);
    }
    let total: u32 = (*stage << (w as u32)) + (v as u32);
    let tb: u8 = *pending + w;
    let ghost st = DecState { stage: *stage as nat, pending: *pending as nat, out: out@ };
    let ghost st2 = dec_step(st, w as nat, v as nat);
    proof {
        assert(total as nat == st.stage * pow2(w as nat) + v);
    }
    if tb < 8 {
        *stage = total;
        *pending = tb;
    } else if tb < 16 {
        let cut = tb - 8;
        proof {
            lemma_u32_shr_is_div(total, cut as u32);
            lemma_u32_shl_is_mul(1u32, cut as u32);
            lemma_u32_low_bits_mask_is_mod(total, cut as nat);
            assert((1u32 << (cut as u32)) - 1 == low_bits_mask(cut as nat));
            lemma_pow2_pos(cut as nat);
        }
        let byte = ((total >> (cut as u32)) % 256) as u8;
        proof {
            assert(byte as nat == ((total as nat) / pow2(cut as nat)) % 256);
        }
        out.push(byte);
        *stage = total & ((1u32 << (cut as u32)) - 1);
        *pending = cut;
        proof {
            assert(out@ == st2.out);
            assert(*stage as nat == st2.stage);
        }
    } else {
        let cut1 = tb - 8;
        let cut2 = tb - 16;
        proof {
            lemma_u32_shr_is_div(total, cut1 as u32);
            lemma_u32_shr_is_div(total, cut2 as u32);
            lemma_u32_shl_is_mul(1u32, cut2 as u32);
            lemma_u32_low_bits_mask_is_mod(total, cut2 as nat);
            assert((1u32 << (cut2 as u32)) - 1 == low_bits_mask(cut2 as nat));
            lemma_pow2_pos(cut1 as nat);
            lemma_pow2_pos(cut2 as nat);
        }
        let byte1 = ((total >> (cut1 as u32)) % 256) as u8;
        let byte2 = ((total >> (cut2 as u32)) % 256) as u8;
        proof {
            assert(byte1 as nat == ((total as nat) / pow2(cut1 as nat)) % 256);
            assert(byte2 as nat == ((total as nat) / pow2(cut2 as nat)) % 256);
        }
        out.push(byte1);
        out.push(byte2);
        proof {
            assert(out@ =~= st.out + seq![byte1, byte2]);
            assert(out@ == st2.out);
        }
        *stage = total & ((1u32 << (cut2 as u32)) - 1);
        *pending = cut2;
        proof {
            assert(*stage as nat == st2.stage);
        }
    }
}

/// Handle one symbol text: classify it and feed its bits through the
/// accumulator, `wmain` being the width a main symbol contributes here.
/// Returns the token handled, or the failure: an unknown symbol leaves the
/// state untouched, an unfit tail value likewise.
fn process_symbol(a: &Alphabet, stage: &mut u32, pending: &mut u8, out: &mut Vec<u8>, g: &String,
    wmain: u8) -> (r: Result<Token, DecodeError>)
    requires
        a.wf(),
        *old(pending) < 8,
        4 <= wmain <= 11,
        (*old(stage) as nat) < pow2(*old(pending) as nat),
    ensures
        ({
            let st = DecState {
                stage: *old(stage) as nat,
                pending: *old(pending) as nat,
                out: old(out)@,
            };
            match r {
                Ok(t) => {
                    &&& spec_token_of(*a, g@) == Some(t)
                    &&& match t {
                        Token::Main(v) => Some(
                            DecState {
                                stage: *final(stage) as nat,
                                pending: *final(pending) as nat,
                                out: final(out)@,
                            },
                        ) == Some(dec_step(st, wmain as nat, v as nat)),
                        Token::Tail(v) => Some(
                            DecState {
                                stage: *final(stage) as nat,
                                pending: *final(pending) as nat,
                                out: final(out)@,
                            },
                        ) == tok_step(st, t, false, 0),
                    }
                },
                Err(e) => {
                    &&& e == DecodeError::InvalidSymbol
                    &&& *final(stage) == *old(stage)
                    &&& *final(pending) == *old(pending)
                    &&& final(out)@ == old(out)@
                    &&& match spec_token_of(*a, g@) {
                        None => true,
                        Some(t) => t matches Token::Tail(v) && tok_step(st, t, false, 0) is None,
                    }
                },
            }
        }),
{
    let t = match token_of(a, g) {
        Some(t) => t,
        None => {
            return Err(DecodeError::InvalidSymbol);
        },
    };
    match t {
        Token::Main(v) => {
            assert(v < 2048);
            apply_bits(stage, pending, out, wmain, v);
            Ok(t)
        },
        Token::Tail(v) => {
            let w = 8 - *pending;
            proof {
                lemma2_to64();
                if (w as nat) < 8 {
                    lemma_pow2_strictly_increases(w as nat, 8);
                }
                lemma_u16_shl_is_mul(1u16, w as u16);
            }
            if !(v < (1u16 << (w as u16))) {
                return Err(DecodeError::InvalidSymbol);
            }
            proof {
                lemma_pow2_pos(w as nat);
            }
            apply_bits(stage, pending, out, w, v);
            Ok(t)
        },
    }
}

/// Decodes a sequence of symbol texts back into bytes; `None` exactly when
/// the texts do not decode (a symbol in neither table, or an unfit tail
/// value).
pub fn decode_symbols(a: &Alphabet, gs: &Vec<String>) -> (r: Option<Vec<u8>>)
    requires
        a.wf(),
    ensures
        match r {
            Some(v) => spec_decode_graphemes(*a, sym_views(gs@)) == Some(v@),
            None => spec_decode_graphemes(*a, sym_views(gs@)) is None,
        },
{
    let ghost views = sym_views(gs@);
    let n = gs.len();
    if n == 0 {
        let r: Vec<u8> = Vec::new();
        assert(views.len() == 0);
        assert(spec_tokens_of(*a, views) == Some(Seq::<Token>::empty()));
        assert(decode_tokens(Seq::<Token>::empty()) == Some(Seq::<u8>::empty()));
        assert(r@ =~= Seq::<u8>::empty());
        return Some(r);
    }
    let mut out: Vec<u8> = Vec::new();
    let mut stage: u32 = 0;
    let mut pending: u8 = 0;
    let mut residue: u8 = 0;
    let ghost mut toks: Seq<Token> = Seq::empty();
    let mut i: usize = 0;
    proof {
        lemma2_to64();
        assert(views.take(0) =~= Seq::<Seq<char>>::empty());
        assert(dec_init() =~= DecState { stage: 0nat, pending: 0nat, out: out@ });
    }
    while i < n - 1
        invariant
            a.wf(),
            n == gs@.len() >= 1,
            views == sym_views(gs@),
            i <= n - 1,
            toks.len() == i,
            spec_tokens_of(*a, views.take(i as int)) == Some(toks),
            residue < 8,
            residue as int == (11 * (i as int)) % 8,
            pending < 8,
            (stage as nat) < pow2(pending as nat),
            state_after(toks, i as nat) == Some(
                DecState { stage: stage as nat, pending: pending as nat, out: out@ },
            ),
        decreases n - 1 - i,
    {
        let ghost st = DecState { stage: stage as nat, pending: pending as nat, out: out@ };
        proof {
            lemma_add_mod_noop(11 * (i as int), 11, 8);
            lemma_small_mod(residue as nat, 8);
        }
        residue = (residue + 11) % 8;
        let r = process_symbol(a, &mut stage, &mut pending, &mut out, &gs[i], 11);
        match r {
            Err(_) => {
                proof {
                    match spec_token_of(*a, views[i as int]) {
                        None => {
                            lemma_tokens_of_none(*a, views, i as int);
                        },
                        Some(t) => {
                            lemma_step_ok(*a, views, toks, i as int, t);
                            lemma_fail_propagates(*a, views, toks.push(t), i as int);
                        },
                    }
                }
                return None;
            },
            Ok(t) => {
                proof {
                    lemma_step_ok(*a, views, toks, i as int, t);
                    toks = toks.push(t);
                    assert(state_after(toks, (i + 1) as nat) == Some(
                        DecState { stage: stage as nat, pending: pending as nat, out: out@ },
                    ));
                    lemma_state_after_wf(toks, (i + 1) as nat);
                }
            },
        }
        i += 1;
    }
    let ghost st = DecState { stage: stage as nat, pending: pending as nat, out: out@ };
    proof {
        lemma_add_mod_noop(11 * (i as int), 11, 8);
        lemma_small_mod(residue as nat, 8);
    }
    residue = (residue + 11) % 8;
    let wmain = 11 - residue;
    proof {
        assert(residue as int == (11 * (n as int)) % 8);
        assert(wmain as nat == last_main_width(n as nat));
    }
    let r = process_symbol(a, &mut stage, &mut pending, &mut out, &gs[n - 1], wmain);
    let t = match r {
        Err(_) => {
            proof {
                match spec_token_of(*a, views[n - 1]) {
                    None => {
                        lemma_tokens_of_none(*a, views, n - 1);
                    },
                    Some(t) => {
                        lemma_step_ok(*a, views, toks, n - 1, t);
                        assert(views.take(n as int) =~= views);
                        assert(tok_step(st, t, true, n as nat) is None);
                    },
                }
            }
            return None;
        },
        Ok(t) => t,
    };
    let ghost toks2 = toks.push(t);
    let ghost st2 = DecState { stage: stage as nat, pending: pending as nat, out: out@ };
    proof {
        lemma_step_ok(*a, views, toks, n - 1, t);
        assert(views.take(n as int) =~= views);
        assert(spec_tokens_of(*a, views) == Some(toks2));
        assert(tok_step(st, t, true, n as nat) == Some(st2));
    }
    if pending > 0 {
        let w = 8 - pending;
        proof {
            lemma2_to64();
            lemma_u32_shr_is_div(stage, w as u32);
        }
        let byte = ((stage >> (w as u32)) % 256) as u8;
        out.push(byte);
    }
    proof {
        assert(decode_tokens(toks2) == Some(final_flush(st2)));
        assert(out@ == final_flush(st2));
    }
    Some(out)
}

/// What decoding a symbol string yields: its grapheme clusters, classified
/// and fed through the unpacking machine.
pub open spec fn spec_decode(a: Alphabet, s: Seq<char>) -> Option<Seq<u8>> {
    spec_decode_graphemes(a, crate::segment::graphemes_of(s, false))
}

/// Decodes a symbol string back into the bytes it encodes. Fails, with no
/// partial result, exactly when the string's clusters do not decode: one in
/// neither table, or a tail value too wide for the bits still needed. The
/// empty string decodes to the empty byte sequence.
pub fn decode(a: &Alphabet, s: &str) -> (r: Option<Vec<u8>>)
    requires
        a.wf(),
    ensures
        match r {
            Some(v) => spec_decode(*a, s@) == Some(v@),
            None => spec_decode(*a, s@) is None,
        },
        s@.len() == 0 ==> (r matches Some(v) && v@ == Seq::<u8>::empty()),
{
    let gs = crate::segment::split_graphemes(s, false);
    let r = decode_symbols(a, &gs);
    proof {
        if s@.len() == 0 {
            assert(crate::segment::graphemes_of(s@, false) =~= Seq::<Seq<char>>::empty());
            assert(spec_tokens_of(*a, Seq::<Seq<char>>::empty()) == Some(Seq::<Token>::empty()));
            assert(decode_tokens(Seq::<Token>::empty()) == Some(Seq::<u8>::empty()));
        }
    }
    r
}

} // verus!
