//! Streaming variants of the two directions: accumulator state that lives
//! across calls, so a caller can feed bytes or symbols as they arrive and
//! write out what each call completes. The bit arithmetic is the buffered
//! paths' own; only the delivery differs.

use vstd::prelude::*;
use vstd::arithmetic::power2::{pow2, lemma2_to64, lemma_pow2_pos, lemma_pow2_strictly_increases};
use vstd::arithmetic::div_mod::{lemma_add_mod_noop, lemma_small_mod};
use vstd::bits::{lemma_u16_shl_is_mul, lemma_u32_shr_is_div};
use crate::bits::{bits_val, bytes_bits, byte_bits, lemma_bytes_bits_push, lemma_byte_bits_val,
    lemma_bits_val_concat, lemma_bits_val_split};
use crate::token::{Token, full_groups, frag, tail_tokens, lemma_groups_append};
use crate::machine::{DecState, dec_init, dec_step, tok_step, state_after, final_flush,
    decode_tokens, last_main_width, lemma_state_after_prefix, lemma_state_after_wf};
use crate::alphabet::{Alphabet, spec_token_of};
use crate::encode::{syms_text, spec_encode, token_text, bytes_to_emojis, handle_remaining_bits,
    lemma_syms_text_push, lemma_syms_text_concat};
use crate::decode::{DecodeError, spec_tokens_of, spec_decode_graphemes, lemma_tokens_of_none,
    lemma_tokens_of_shape, lemma_state_after_none_mono, token_of, apply_bits};

verus! {

/// Streaming encoder: the packing accumulator, taking bytes one at a time.
pub struct StreamEncoder {
    stage: u16,
    remaining: u8,
    fed: Ghost<Seq<u8>>,
}

impl StreamEncoder {
    /// The bytes fed so far.
    pub closed spec fn fed(self) -> Seq<u8> {
        self.fed@
    }

    /// The accumulator stands exactly where encoding the fed bytes leaves
    /// it.
    pub closed spec fn wf(self) -> bool {
        &&& self.remaining <= 10
        &&& (self.stage as nat) < pow2(self.remaining as nat)
        &&& self.remaining as nat == frag(bytes_bits(self.fed@)).len()
        &&& self.stage as nat == bits_val(frag(bytes_bits(self.fed@)))
    }

    /// The symbol text completed so far: every full group's symbol.
    pub open spec fn emitted(self, a: Alphabet) -> Seq<char> {
        syms_text(a, full_groups(bytes_bits(self.fed())))
    }

    pub fn new() -> (r: Self)
        ensures
            r.wf(),
            r.fed() == Seq::<u8>::empty(),
    {
        let r = StreamEncoder { stage: 0, remaining: 0, fed: Ghost(Seq::empty()) };
        proof {
            lemma2_to64();
        }
        r
    }

    /// Feed one byte; returns the symbol it completes, if any: what has
    /// been emitted afterwards is what had been, plus this.
    pub fn push_byte(&mut self, a: &Alphabet, byte: u8) -> (r: Option<String>)
        requires
            a.wf(),
            old(self).wf(),
        ensures
            final(self).wf(),
            final(self).fed() == old(self).fed().push(byte),
            final(self).emitted(*a) == old(self).emitted(*a) + match r {
                Some(sym) => sym@,
                None => Seq::<char>::empty(),
            },
    {
        let ghost pre = self.fed@;
        let ghost bs = bytes_bits(pre);
        let ghost old_stage = self.stage;
        let ghost old_rem = self.remaining;
        let sym = bytes_to_emojis(a, &mut self.stage, &mut self.remaining, byte);
        proof {
            self.fed@ = pre.push(byte);
            lemma2_to64();
            lemma_bytes_bits_push(pre, byte);
            let bb = byte_bits(byte);
            let f = frag(bs);
            lemma_groups_append(bs, bb);
            lemma_byte_bits_val(byte);
            if old_rem < 3 {
                lemma_bits_val_concat(f, bb);
                assert(syms_text(*a, full_groups(bytes_bits(self.fed@))) + Seq::<char>::empty()
                    =~= syms_text(*a, full_groups(bytes_bits(self.fed@))));
            } else {
                let need = 11 - old_rem as int;
                let ext = f + bb;
                assert(ext.take(11) =~= f + bb.take(need));
                lemma_bits_val_concat(f, bb.take(need));
                lemma_bits_val_split(bb, need);
                assert(ext.skip(11) =~= bb.skip(need));
                lemma_syms_text_push(
                    *a,
                    full_groups(bs),
                    Token::Main(bits_val(ext.take(11)) as u16),
                );
            }
        }
        match sym {
            Some(s) => Some(s.clone()),
            None => None,
        }
    }

    /// Close the stream: the symbol for any bits still pending. Everything
    /// emitted, then this, is exactly the encoding of the fed bytes.
    pub fn finish(&self, a: &Alphabet) -> (r: Option<String>)
        requires
            a.wf(),
            self.wf(),
        ensures
            spec_encode(*a, self.fed()) == self.emitted(*a) + match r {
                Some(sym) => sym@,
                None => Seq::<char>::empty(),
            },
    {
        let sym = handle_remaining_bits(a, self.stage, self.remaining);
        proof {
            let bs = bytes_bits(self.fed@);
            let f = frag(bs);
            lemma_syms_text_concat(*a, full_groups(bs), tail_tokens(bs));
            if f.len() == 0 {
                assert(tail_tokens(bs) =~= Seq::<Token>::empty());
                assert(syms_text(*a, full_groups(bs)) + Seq::<char>::empty() =~= syms_text(
                    *a,
                    full_groups(bs),
                ));
            } else {
                let t = if f.len() <= 3 {
                    Token::Tail(bits_val(f) as u16)
                } else {
                    Token::Main(bits_val(f) as u16)
                };
                assert(tail_tokens(bs) =~= seq![t]);
                assert(seq![t].drop_last() =~= Seq::<Token>::empty());
                assert(syms_text(*a, Seq::<Token>::empty()) + token_text(*a, t) =~= token_text(
                    *a,
                    t,
                ));
            }
        }
        match sym {
            Some(s) => Some(s.clone()),
            None => None,
        }
    }
}

/// `dec_step` only appends to the output: bytes already delivered stay in
/// front, whatever the step adds.
proof fn lemma_dec_step_out_shift(stage: nat, pending: nat, d: Seq<u8>, e: Seq<u8>, w: nat, v: nat)
    ensures
        ({
            let whole = dec_step(DecState { stage, pending, out: d + e }, w, v);
            let part = dec_step(DecState { stage, pending, out: e }, w, v);
            &&& whole.stage == part.stage
            &&& whole.pending == part.pending
            &&& whole.out == d + part.out
        }),
{
    let total = stage * pow2(w) + v;
    let tb = pending + w;
    if tb < 8 {
    } else if tb < 16 {
        let b1 = ((total / pow2((tb - 8) as nat)) % 256) as u8;
        assert((d + e).push(b1) =~= d + e.push(b1));
    } else {
        let b1 = ((total / pow2((tb - 8) as nat)) % 256) as u8;
        let b2 = ((total / pow2((tb - 16) as nat)) % 256) as u8;
        assert((d + e) + seq![b1, b2] =~= d + (e + seq![b1, b2]));
    }
}

/// The same, for the closing flush.
proof fn lemma_flush_out_shift(stage: nat, pending: nat, d: Seq<u8>, e: Seq<u8>)
    ensures
        final_flush(DecState { stage, pending, out: d + e }) == d + final_flush(
            DecState { stage, pending, out: e },
        ),
{
    if pending > 0 {
        let b = ((stage / pow2((8 - pending) as nat)) % 256) as u8;
        assert((d + e).push(b) =~= d + e.push(b));
    }
}

/// The value of a main token among classified symbols is a main-table
/// index, so below 2048.
proof fn lemma_main_value_bound(a: Alphabet, fed: Seq<Seq<char>>, toks: Seq<Token>, j: int)
    requires
        a.wf(),
        spec_tokens_of(a, fed) == Some(toks),
        toks.len() == fed.len(),
        0 <= j < toks.len(),
    ensures
        toks[j] matches Token::Main(v) ==> v < 2048,
{
    lemma_tokens_of_shape(a, fed);
    assert(spec_token_of(a, fed[j]) == Some(toks[j]));
}

/// A machine failure after a classified prefix fails every stream that
/// begins with that prefix.
proof fn lemma_stream_fail(a: Alphabet, fed: Seq<Seq<char>>, toks: Seq<Token>, fed2: Seq<
    Seq<char>>)
    requires
        spec_tokens_of(a, fed) == Some(toks),
        toks.len() == fed.len(),
        state_after(toks, fed.len() as nat) is None,
        fed2.len() > fed.len(),
        fed2.subrange(0, fed.len() as int) == fed,
    ensures
        spec_decode_graphemes(a, fed2) is None,
{
    let c = fed.len() as int;
    match spec_tokens_of(a, fed2) {
        None => {},
        Some(ts) => {
            lemma_tokens_of_shape(a, fed2);
            lemma_tokens_of_shape(a, fed);
            assert(ts.subrange(0, c) =~= toks) by {
                assert forall|j: int| 0 <= j < c implies ts[j] == toks[j] by {
                    assert(fed2[j] == fed2.subrange(0, c)[j]);
                    assert(spec_token_of(a, fed2[j]) == Some(ts[j]));
                    assert(spec_token_of(a, fed[j]) == Some(toks[j]));
                }
            }
            assert(toks.subrange(0, c) =~= toks);
            lemma_state_after_prefix(toks, ts, c as nat);
            lemma_state_after_none_mono(ts, c as nat, (fed2.len() - 1) as nat);
        },
    }
}

/// Streaming decoder at the symbol level: takes one symbol text per call,
/// holding the newest back until its successor shows it is not the last.
pub struct TokenDecoder {
    held: Option<Token>,
    stage: u32,
    pending: u8,
    residue: u8,
    failed: bool,
    fed: Ghost<Seq<Seq<char>>>,
    toks: Ghost<Seq<Token>>,
    delivered: Ghost<Seq<u8>>,
    alpha: Ghost<Alphabet>,
}

impl TokenDecoder {
    /// The alphabet this decoder was made for.
    pub closed spec fn alpha(self) -> Alphabet {
        self.alpha@
    }

    /// The symbol texts fed so far.
    pub closed spec fn fed(self) -> Seq<Seq<char>> {
        self.fed@
    }

    /// The bytes handed out so far.
    pub closed spec fn delivered(self) -> Seq<u8> {
        self.delivered@
    }

    /// Still on the good path: no symbol has failed yet.
    pub closed spec fn ok(self) -> bool {
        !self.failed
    }

    /// On the good path, the fed symbols all classified, every one but the
    /// held newest has gone through the machine as interior, and the
    /// delivered bytes are the machine's output so far.
    pub closed spec fn wf(self) -> bool {
        &&& self.alpha@.wf()
        &&& !self.failed ==> {
            &&& self.toks@.len() == self.fed@.len()
            &&& spec_tokens_of(self.alpha@, self.fed@) == Some(self.toks@)
            &&& match self.held {
                None => self.fed@.len() == 0,
                Some(t) => self.fed@.len() > 0 && self.toks@.last() == t,
            }
            &&& self.pending < 8
            &&& (self.stage as nat) < pow2(self.pending as nat)
            &&& self.residue < 8
            &&& self.residue as int == (11 * (self.fed@.len() as int)) % 8
            &&& state_after(
                self.toks@,
                if self.fed@.len() > 0 {
                    (self.fed@.len() - 1) as nat
                } else {
                    0nat
                },
            ) == Some(
                DecState {
                    stage: self.stage as nat,
                    pending: self.pending as nat,
                    out: self.delivered@,
                },
            )
        }
    }

    pub fn new(a: &Alphabet) -> (r: Self)
        requires
            a.wf(),
        ensures
            r.wf(),
            r.ok(),
            r.alpha() == *a,
            r.fed() == Seq::<Seq<char>>::empty(),
            r.delivered() == Seq::<u8>::empty(),
    {
        let r = TokenDecoder {
            held: None,
            stage: 0,
            pending: 0,
            residue: 0,
            failed: false,
            fed: Ghost(Seq::empty()),
            toks: Ghost(Seq::empty()),
            delivered: Ghost(Seq::empty()),
            alpha: Ghost(*a),
        };
        proof {
            lemma2_to64();
            assert(dec_init() =~= DecState {
                stage: 0nat,
                pending: 0nat,
                out: Seq::<u8>::empty(),
            });
        }
        r
    }

    /// Feed the next symbol text; returns the bytes its arrival settles.
    /// On failure, no continuation of the stream decodes.
    pub fn push_symbol(&mut self, a: &Alphabet, g: &String) -> (r: Result<Vec<u8>, DecodeError>)
        requires
            a.wf(),
            *a == old(self).alpha(),
            old(self).wf(),
            old(self).ok(),
        ensures
            final(self).wf(),
            final(self).alpha() == old(self).alpha(),
            final(self).fed() == old(self).fed().push(g@),
            match r {
                Ok(out) => {
                    &&& final(self).ok()
                    &&& final(self).delivered() == old(self).delivered() + out@
                },
                Err(e) => {
                    &&& e == DecodeError::InvalidSymbol
                    &&& !final(self).ok()
                    &&& forall|rest: Seq<Seq<char>>|
                        spec_decode_graphemes(*a, #[trigger] (final(self).fed() + rest)) is None
                },
            },
    {
        let ghost c = self.fed@.len() as int;
        let ghost old_toks = self.toks@;
        let ghost old_fed = self.fed@;
        let ghost old_delivered = self.delivered@;
        let ghost st = DecState {
            stage: self.stage as nat,
            pending: self.pending as nat,
            out: self.delivered@,
        };
        proof {
            self.fed@ = self.fed@.push(g@);
        }
        let mut out: Vec<u8> = Vec::new();
        let held = self.held;
        match held {
            None => (),
            Some(t) => {
                match t {
                    Token::Main(v) => {
                        proof {
                            lemma_main_value_bound(self.alpha@, old_fed, old_toks, c - 1);
                        }
                        apply_bits(&mut self.stage, &mut self.pending, &mut out, 11, v);
                        proof {
                            lemma_dec_step_out_shift(
                                st.stage,
                                st.pending,
                                st.out,
                                Seq::<u8>::empty(),
                                11,
                                v as nat,
                            );
                        }
                    },
                    Token::Tail(v) => {
                        let w = 8 - self.pending;
                        proof {
                            lemma2_to64();
                            if (w as nat) < 8 {
                                lemma_pow2_strictly_increases(w as nat, 8);
                            }
                            lemma_u16_shl_is_mul(1u16, w as u16);
                        }
                        if !(v < (1u16 << (w as u16))) {
                            self.failed = true;
                            proof {
                                assert(tok_step(st, t, false, 0) is None);
                                assert(state_after(old_toks, c as nat) is None);
                                assert forall|rest: Seq<Seq<char>>|
                                    spec_decode_graphemes(
                                        self.alpha@,
                                        #[trigger] (self.fed@ + rest),
                                    ) is None by {
                                    assert((self.fed@ + rest).subrange(0, c) =~= old_fed);
                                    lemma_stream_fail(
                                        self.alpha@,
                                        old_fed,
                                        old_toks,
                                        self.fed@ + rest,
                                    );
                                }
                            }
                            return Err(DecodeError::InvalidSymbol);
                        }
                        proof {
                            lemma_pow2_pos(w as nat);
                        }
                        apply_bits(&mut self.stage, &mut self.pending, &mut out, w, v);
                        proof {
                            lemma_dec_step_out_shift(
                                st.stage,
                                st.pending,
                                st.out,
                                Seq::<u8>::empty(),
                                w as nat,
                                v as nat,
                            );
                        }
                    },
                }
                proof {
                    assert(st.out + Seq::<u8>::empty() =~= st.out);
                    assert(DecState { stage: st.stage, pending: st.pending, out: st.out
                        + Seq::<u8>::empty() } =~= st);
                    assert(tok_step(st, t, false, 0) == Some(
                        DecState {
                            stage: self.stage as nat,
                            pending: self.pending as nat,
                            out: old_delivered + out@,
                        },
                    ));
                }
            },
        }
        let t_new = match token_of(a, g) {
            Some(t) => t,
            None => {
                self.failed = true;
                proof {
                    assert forall|rest: Seq<Seq<char>>|
                        spec_decode_graphemes(self.alpha@, #[trigger] (self.fed@ + rest))
                            is None by {
                        assert((self.fed@ + rest)[c] == g@);
                        lemma_tokens_of_none(self.alpha@, self.fed@ + rest, c);
                    }
                }
                return Err(DecodeError::InvalidSymbol);
            },
        };
        self.held = Some(t_new);
        proof {
            self.toks@ = old_toks.push(t_new);
            self.delivered@ = old_delivered + out@;
            lemma_add_mod_noop(11 * c, 11, 8);
            lemma_small_mod(self.residue as nat, 8);
        }
        let res = (self.residue + 11) % 8;
        self.residue = res;
        proof {
            assert(self.fed@.drop_last() =~= old_fed);
            assert(self.fed@.last() == g@);
            assert(spec_tokens_of(self.alpha@, self.fed@) == Some(self.toks@));
            assert(old_toks.subrange(0, c) =~= old_toks);
            assert(self.toks@.subrange(0, c) =~= old_toks);
            lemma_state_after_prefix(old_toks, self.toks@, c as nat);
            if c == 0 {
                assert(out@ =~= Seq::<u8>::empty());
                assert(self.delivered@ =~= old_delivered);
                assert(self.delivered@ == st.out);
            }
            lemma_state_after_wf(self.toks@, c as nat);
        }
        Ok(out)
    }

    /// End of the stream: the held symbol closes it, and any bits still
    /// pending become the final byte. Everything delivered, this call's
    /// bytes included, is exactly what decoding all fed symbols at once
    /// yields.
    pub fn finish(&mut self, a: &Alphabet) -> (r: Result<Vec<u8>, DecodeError>)
        requires
            a.wf(),
            *a == old(self).alpha(),
            old(self).wf(),
            old(self).ok(),
        ensures
            match r {
                Ok(out) => spec_decode_graphemes(*a, old(self).fed()) == Some(
                    old(self).delivered() + out@,
                ),
                Err(e) => e == DecodeError::InvalidSymbol && spec_decode_graphemes(
                    *a,
                    old(self).fed(),
                ) is None,
            },
    {
        let ghost c = self.fed@.len() as int;
        let ghost old_delivered = self.delivered@;
        let ghost st = DecState {
            stage: self.stage as nat,
            pending: self.pending as nat,
            out: self.delivered@,
        };
        let mut out: Vec<u8> = Vec::new();
        let t = match self.held {
            None => {
                proof {
                    assert(self.fed@ =~= Seq::<Seq<char>>::empty());
                    assert(spec_tokens_of(self.alpha@, self.fed@) == Some(self.toks@));
                    assert(self.toks@ =~= Seq::<Token>::empty());
                    assert(decode_tokens(self.toks@) == Some(Seq::<u8>::empty()));
                    assert(self.delivered@ =~= Seq::<u8>::empty());
                    assert(self.delivered@ + out@ =~= Seq::<u8>::empty());
                }
                return Ok(out);
            },
            Some(t) => t,
        };
        let ghost w_used: nat = 0nat;
        match t {
            Token::Main(v) => {
                let wmain = 11 - self.residue;
                proof {
                    assert(wmain as nat == last_main_width(c as nat));
                    lemma_main_value_bound(self.alpha@, self.fed@, self.toks@, c - 1);
                }
                apply_bits(&mut self.stage, &mut self.pending, &mut out, wmain, v);
                proof {
                    lemma_dec_step_out_shift(
                        st.stage,
                        st.pending,
                        st.out,
                        Seq::<u8>::empty(),
                        wmain as nat,
                        v as nat,
                    );
                }
            },
            Token::Tail(v) => {
                let w = 8 - self.pending;
                proof {
                    lemma2_to64();
                    if (w as nat) < 8 {
                        lemma_pow2_strictly_increases(w as nat, 8);
                    }
                    lemma_u16_shl_is_mul(1u16, w as u16);
                }
                if !(v < (1u16 << (w as u16))) {
                    self.failed = true;
                    proof {
                        assert(tok_step(st, t, true, c as nat) is None);
                        assert(decode_tokens(self.toks@) is None);
                    }
                    return Err(DecodeError::InvalidSymbol);
                }
                proof {
                    lemma_pow2_pos(w as nat);
                }
                apply_bits(&mut self.stage, &mut self.pending, &mut out, w, v);
                proof {
                    lemma_dec_step_out_shift(
                        st.stage,
                        st.pending,
                        st.out,
                        Seq::<u8>::empty(),
                        w as nat,
                        v as nat,
                    );
                }
            },
        }
        proof {
            assert(st.out + Seq::<u8>::empty() =~= st.out);
            assert(DecState { stage: st.stage, pending: st.pending, out: st.out
                + Seq::<u8>::empty() } =~= st);
        }
        let ghost st2 = DecState {
            stage: self.stage as nat,
            pending: self.pending as nat,
            out: old_delivered + out@,
        };
        let ghost part = DecState {
            stage: self.stage as nat,
            pending: self.pending as nat,
            out: out@,
        };
        proof {
            assert(tok_step(st, t, true, c as nat) == Some(st2));
        }
        if self.pending > 0 {
            let w = 8 - self.pending;
            proof {
                lemma2_to64();
                lemma_u32_shr_is_div(self.stage, w as u32);
            }
            let byte = ((self.stage >> (w as u32)) % 256) as u8;
            out.push(byte);
        }
        proof {
            assert(decode_tokens(self.toks@) == Some(final_flush(st2)));
            lemma_flush_out_shift(st2.stage, st2.pending, old_delivered, part.out);
            assert(old_delivered + part.out =~= st2.out);
            assert(DecState { stage: st2.stage, pending: st2.pending, out: old_delivered
                + part.out } =~= st2);
            assert(out@ == final_flush(part));
            assert(old_delivered + out@ == final_flush(st2));
        }
        Ok(out)
    }
}

} // verus!
