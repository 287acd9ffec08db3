//! Symbols at the value level: a token is the index a symbol stands for,
//! together with the family (main or tail alphabet) it is drawn from.
//!
//! The encoder's output is specified here as a function of the input's bit
//! stream: the bits are cut into 11-bit groups from the front; a final
//! fragment of 1 to 3 bits becomes a tail token, one of 4 to 10 bits a main
//! token.

use vstd::prelude::*;
use crate::bits::{bits_val, bytes_bits};
use crate::bits::lemma_bits_val_bound;

verus! {

/// One symbol of an encoded stream, as the value it carries.
#[derive(Clone, Copy, Debug, PartialEq, Eq, Structural)]
pub enum Token {
    /// An index into the 2048-entry main alphabet.
    Main(u16),
    /// An index into the small tail alphabet.
    Tail(u16),
}

/// The tokens for every complete 11-bit group of a bit stream.
pub open spec fn full_groups(bs: Seq<bool>) -> Seq<Token>
    decreases bs.len(),
{
    if bs.len() >= 11 {
        seq![Token::Main(bits_val(bs.take(11)) as u16)] + full_groups(bs.skip(11))
    } else {
        Seq::empty()
    }
}

/// The trailing fragment of a bit stream: what is left after every complete
/// 11-bit group is cut off the front.
pub open spec fn frag(bs: Seq<bool>) -> Seq<bool>
    decreases bs.len(),
{
    if bs.len() >= 11 {
        frag(bs.skip(11))
    } else {
        bs
    }
}

/// The token, if any, that closes a stream: a tail token for a fragment of
/// at most 3 bits, a main token for a wider one.
pub open spec fn tail_tokens(bs: Seq<bool>) -> Seq<Token> {
    let f = frag(bs);
    if f.len() == 0 {
        Seq::empty()
    } else if f.len() <= 3 {
        seq![Token::Tail(bits_val(f) as u16)]
    } else {
        seq![Token::Main(bits_val(f) as u16)]
    }
}

/// The token sequence the encoder produces for a byte sequence.
pub open spec fn encode_tokens(s: Seq<u8>) -> Seq<Token> {
    full_groups(bytes_bits(s)) + tail_tokens(bytes_bits(s))
}

/// Appending one byte's bits to a stream extends the complete groups by one
/// exactly when the old fragment held at least 3 bits.
pub proof fn lemma_groups_append(bs: Seq<bool>, bb: Seq<bool>)
    requires
        bb.len() == 8,
    ensures
        frag(bs).len() < 3 ==> {
            &&& full_groups(bs + bb) == full_groups(bs)
            &&& frag(bs + bb) == frag(bs) + bb
        },
        frag(bs).len() >= 3 ==> {
            &&& full_groups(bs + bb) == full_groups(bs).push(
                Token::Main(bits_val((frag(bs) + bb).take(11)) as u16),
            )
            &&& frag(bs + bb) == (frag(bs) + bb).skip(11)
        },
    decreases bs.len(),
{
    if bs.len() >= 11 {
        assert((bs + bb).take(11) =~= bs.take(11));
        assert((bs + bb).skip(11) =~= bs.skip(11) + bb);
        lemma_groups_append(bs.skip(11), bb);
        if frag(bs).len() >= 3 {
            assert(full_groups(bs + bb) =~= full_groups(bs).push(
                Token::Main(bits_val((frag(bs) + bb).take(11)) as u16),
            ));
        }
    } else {
        assert(frag(bs) == bs);
        if bs.len() < 3 {
            assert(frag(bs + bb) == frag(bs) + bb);
        } else {
            let ext = bs + bb;
            assert(ext.len() >= 11);
            assert(ext.skip(11).len() < 11);
            assert(full_groups(ext) == seq![Token::Main(bits_val(ext.take(11)) as u16)]
                + full_groups(ext.skip(11)));
            assert(full_groups(ext.skip(11)) =~= Seq::<Token>::empty());
            assert(full_groups(ext) =~= full_groups(bs).push(
                Token::Main(bits_val((frag(bs) + bb).take(11)) as u16),
            ));
            assert(frag(ext) == frag(ext.skip(11)));
            assert(frag(ext.skip(11)) == ext.skip(11));
        }
    }
}

/// Shape of the complete groups: there are `len / 11` of them, the j-th
/// carries the value of the j-th 11-bit slice, and the fragment is the rest.
pub proof fn lemma_groups_shape(bs: Seq<bool>)
    ensures
        full_groups(bs).len() == bs.len() / 11,
        frag(bs).len() == bs.len() % 11,
        frag(bs) =~= bs.skip(11 * (bs.len() as int / 11)),
        forall|j: int|
            0 <= j < bs.len() / 11 ==> #[trigger] full_groups(bs)[j] == Token::Main(
                bits_val(bs.subrange(11 * j, 11 * j + 11)) as u16,
            ),
    decreases bs.len(),
{
    if bs.len() >= 11 {
        lemma_groups_shape(bs.skip(11));
        assert(bs.skip(11).len() == bs.len() - 11);
        assert(bs.len() / 11 == 1 + (bs.len() - 11) / 11) by {
            assert(bs.len() >= 11);
        }
        assert(frag(bs) =~= bs.skip(11 * (bs.len() as int / 11))) by {
            assert(bs.skip(11).skip(11 * ((bs.len() - 11) / 11)) =~= bs.skip(
                11 + 11 * ((bs.len() - 11) / 11),
            ));
        }
        assert forall|j: int| 0 <= j < bs.len() / 11 implies #[trigger] full_groups(bs)[j]
            == Token::Main(bits_val(bs.subrange(11 * j, 11 * j + 11)) as u16) by {
            if j == 0 {
                assert(bs.take(11) =~= bs.subrange(0, 11));
            } else {
                assert(full_groups(bs)[j] == full_groups(bs.skip(11))[j - 1]);
                assert(bs.skip(11).subrange(11 * (j - 1), 11 * (j - 1) + 11) =~= bs.subrange(
                    11 * j,
                    11 * j + 11,
                ));
            }
        }
    }
}

/// Every token the encoder emits is in range for its table: main indices are
/// below 2048, tail indices below 8.
pub proof fn lemma_encode_tokens_ranges(s: Seq<u8>)
    ensures
        forall|j: int|
            0 <= j < encode_tokens(s).len() ==> match #[trigger] encode_tokens(s)[j] {
                Token::Main(v) => v < 2048,
                Token::Tail(v) => v < 8,
            },
{
    let bs = bytes_bits(s);
    lemma_groups_shape(bs);
    assert forall|j: int|
        0 <= j < encode_tokens(s).len() implies match #[trigger] encode_tokens(s)[j] {
        Token::Main(v) => v < 2048,
        Token::Tail(v) => v < 8,
    } by {
        vstd::arithmetic::power2::lemma2_to64();
        if j < full_groups(bs).len() {
            let slice = bs.subrange(11 * j, 11 * j + 11);
            lemma_bits_val_bound(slice);
        } else {
            let f = frag(bs);
            lemma_bits_val_bound(f);
            if f.len() <= 3 {
                if f.len() < 3 {
                    vstd::arithmetic::power2::lemma_pow2_strictly_increases(f.len(), 3);
                }
            } else {
                vstd::arithmetic::power2::lemma_pow2_strictly_increases(f.len(), 11);
            }
        }
    }
}

} // verus!
