//! The codec's headline guarantees, stated once over the specification
//! functions that the executable functions' contracts use.

use vstd::prelude::*;
use vstd::arithmetic::power2::lemma2_to64;
use crate::token::{Token, encode_tokens, lemma_encode_tokens_ranges};
use crate::machine::lemma_round_trip;
use crate::alphabet::{Alphabet, spec_token_of, spec_find, lemma_distinct_find};
use crate::encode::{token_text, spec_encode};
use crate::decode::{spec_tokens_of, spec_decode_graphemes, spec_decode, lemma_tokens_of_none};
use crate::segment::graphemes_of;

verus! {

/// The texts of a token sequence, one symbol per token.
pub open spec fn token_texts(a: Alphabet, ts: Seq<Token>) -> Seq<Seq<char>> {
    ts.map_values(|t: Token| token_text(a, t))
}

/// Rendering a token as its symbol and classifying that symbol gives the
/// token back: the tables are distinct, and the main table is tried first.
proof fn lemma_token_text_inverts(a: Alphabet, t: Token)
    requires
        a.wf(),
        match t {
            Token::Main(v) => v < 2048,
            Token::Tail(v) => v < a.tail_syms().len(),
        },
    ensures
        spec_token_of(a, token_text(a, t)) == Some(t),
{
    let mv = a.main_syms();
    let tv = a.tail_syms();
    let cat = mv + tv;
    assert forall|i: int, j: int| 0 <= i < j < mv.len() implies mv[i] != mv[j] by {
        assert(cat[i] == mv[i] && cat[j] == mv[j]);
    }
    assert forall|i: int, j: int| 0 <= i < j < tv.len() implies tv[i] != tv[j] by {
        assert(cat[mv.len() + i] == tv[i] && cat[mv.len() + j] == tv[j]);
    }
    match t {
        Token::Main(v) => {
            lemma_distinct_find(mv, v as int);
        },
        Token::Tail(v) => {
            assert forall|i: int| 0 <= i < mv.len() implies mv[i] != tv[v as int] by {
                assert(cat[i] == mv[i] && cat[mv.len() + v] == tv[v as int]);
            }
            assert(spec_find(mv, tv[v as int]) is None);
            lemma_distinct_find(tv, v as int);
        },
    }
}

/// Classifying the rendered symbols of in-range tokens gives the tokens
/// back.
proof fn lemma_tokens_texts_invert(a: Alphabet, ts: Seq<Token>)
    requires
        a.wf(),
        forall|j: int|
            0 <= j < ts.len() ==> match #[trigger] ts[j] {
                Token::Main(v) => v < 2048,
                Token::Tail(v) => v < a.tail_syms().len(),
            },
    ensures
        spec_tokens_of(a, token_texts(a, ts)) == Some(ts),
    decreases ts.len(),
{
    let gs = token_texts(a, ts);
    if ts.len() == 0 {
        assert(gs.len() == 0);
    } else {
        assert(gs.drop_last() =~= token_texts(a, ts.drop_last()));
        lemma_tokens_texts_invert(a, ts.drop_last());
        lemma_token_text_inverts(a, ts.last());
        assert(gs.last() == token_text(a, ts.last()));
        assert(ts.drop_last().push(ts.last()) =~= ts);
    }
}

/// Round trip at the symbol level: however the encoder's output is handed
/// to the decoder as the sequence of symbols it spells, decoding yields the
/// encoded bytes again. The hypothesis is the segmentation step: splitting
/// the concatenated symbol text must give those symbols back, which rests
/// on every symbol being one self-standing grapheme cluster.
pub proof fn lemma_encode_then_decode(a: Alphabet, s: Seq<u8>)
    requires
        a.wf(),
        graphemes_of(spec_encode(a, s), false) == token_texts(a, encode_tokens(s)),
    ensures
        spec_decode(a, spec_encode(a, s)) == Some(s),
{
    lemma2_to64();
    lemma_encode_tokens_ranges(s);
    assert forall|j: int| 0 <= j < encode_tokens(s).len() implies match #[trigger] encode_tokens(
        s,
    )[j] {
        Token::Main(v) => v < 2048,
        Token::Tail(v) => v < a.tail_syms().len(),
    } by {
        assert(match encode_tokens(s)[j] {
            Token::Main(v) => v < 2048,
            Token::Tail(v) => v < 8,
        });
    }
    lemma_tokens_texts_invert(a, encode_tokens(s));
    lemma_round_trip(s);
}

/// Decoding rejects foreign input: a stream holding any symbol that is in
/// neither table never yields bytes.
pub proof fn lemma_foreign_rejected(a: Alphabet, gs: Seq<Seq<char>>, j: int)
    requires
        0 <= j < gs.len(),
        forall|i: int| 0 <= i < a.main_syms().len() ==> a.main_syms()[i] != gs[j],
        forall|i: int| 0 <= i < a.tail_syms().len() ==> a.tail_syms()[i] != gs[j],
    ensures
        spec_decode_graphemes(a, gs) is None,
{
    assert(spec_find(a.main_syms(), gs[j]) is None);
    assert(spec_find(a.tail_syms(), gs[j]) is None);
    lemma_tokens_of_none(a, gs, j);
}

/// Encoding the empty byte sequence gives the empty string.
pub proof fn lemma_encode_empty(a: Alphabet)
    ensures
        spec_encode(a, Seq::<u8>::empty()) == Seq::<char>::empty(),
{
    assert(crate::bits::bytes_bits(Seq::<u8>::empty()) =~= Seq::<bool>::empty());
    assert(encode_tokens(Seq::<u8>::empty()) =~= Seq::<Token>::empty());
}

} // verus!
