//! Splitting symbol text into grapheme clusters, and the incremental
//! tokenizer that does so over a byte stream delivered chunk by chunk.
//!
//! A cluster boundary found in a partial buffer is only trusted when at
//! least one further complete cluster follows it: bytes still to come can
//! extend the newest cluster, but never one that is already followed by
//! another.

use vstd::prelude::*;
use vstd::utf8::{valid_utf8, decode_utf8, encode_utf8, decode_utf8_encode_utf8};
use unicode_segmentation::UnicodeSegmentation;
use crate::decode::DecodeError;

verus! {

/// The grapheme clusters of a character sequence, in order; `extended`
/// selects extended rather than legacy cluster boundaries.
pub uninterp spec fn graphemes_of(s: Seq<char>, extended: bool) -> Seq<Seq<char>>;

/// Relies on unicode_segmentation's `graphemes` (UAX #29): it cuts a string
/// into its grapheme clusters, consecutive sub-slices of the string, so the
/// clusters joined back together are the string, and an empty string has
/// none.
#[verifier::external_body]
fn split_graphemes_impl(s: &str, extended: bool) -> (r: Vec<String>)
    ensures
        r@.map_values(|g: String| g@) == graphemes_of(s@, extended),
        r@.map_values(|g: String| g@).flatten() == s@,
        s@.len() == 0 ==> r@.len() == 0,
{
    s.graphemes(extended).map(|g| g.to_string()).collect()
}

/// Relies on std's `str::from_utf8`: it succeeds exactly on valid UTF-8,
/// and the text it returns is the text those bytes spell.
#[verifier::external_body]
fn utf8_to_string(b: &[u8]) -> (r: Option<String>)
    ensures
        match r {
            Some(s) => valid_utf8(b@) && s@ == decode_utf8(b@),
            None => !valid_utf8(b@),
        },
{
    match core::str::from_utf8(b) {
        Ok(s) => Some(s.to_string()),
        Err(_) => None,
    }
}

/// The UTF-8 encoding of a concatenation is the concatenation of the
/// encodings.
pub proof fn lemma_encode_utf8_concat(x: Seq<char>, y: Seq<char>)
    ensures
        encode_utf8(x + y) == encode_utf8(x) + encode_utf8(y),
    decreases x.len(),
{
    if x.len() == 0 {
        assert(x + y =~= y);
        assert(encode_utf8(x) + encode_utf8(y) =~= encode_utf8(y));
    } else {
        assert((x + y)[0] == x[0]);
        assert((x + y).drop_first() =~= x.drop_first() + y);
        lemma_encode_utf8_concat(x.drop_first(), y);
        assert(vstd::utf8::encode_scalar(x[0] as u32) + (encode_utf8(x.drop_first())
            + encode_utf8(y)) =~= (vstd::utf8::encode_scalar(x[0] as u32) + encode_utf8(
            x.drop_first(),
        )) + encode_utf8(y));
    }
}

/// The clusters of a symbol string, one `String` per cluster.
pub fn split_graphemes(s: &str, extended: bool) -> (r: Vec<String>)
    ensures
        crate::alphabet::sym_views(r@) == graphemes_of(s@, extended),
        graphemes_of(s@, extended).flatten() == s@,
        s@.len() == 0 ==> graphemes_of(s@, extended).len() == 0,
{
    let r = split_graphemes_impl(s, extended);
    proof {
        assert(crate::alphabet::sym_views(r@) == r@.map_values(|g: String| g@));
        if s@.len() == 0 {
            assert(graphemes_of(s@, extended).len() == r@.map_values(|g: String| g@).len());
        }
    }
    r
}

/// The cluster an incremental tokenizer may safely emit from a buffer: the
/// first one, once at least one more complete cluster stands after it.
pub open spec fn ready_cluster(buf: Seq<u8>) -> Option<Seq<char>> {
    if valid_utf8(buf) && graphemes_of(decode_utf8(buf), true).len() >= 2 {
        Some(graphemes_of(decode_utf8(buf), true)[0])
    } else {
        None
    }
}

/// Incremental tokenizer over a byte stream: buffers bytes until one whole
/// symbol, with a complete cluster of lookahead behind it, is present.
pub struct GraphemeReader {
    buffer: Vec<u8>,
}

impl GraphemeReader {
    /// The bytes fed but not yet emitted.
    pub closed spec fn buf(self) -> Seq<u8> {
        self.buffer@
    }

    /// A fresh tokenizer with nothing buffered.
    pub fn new() -> (r: Self)
        ensures
            r.buf() == Seq::<u8>::empty(),
    {
        let r = GraphemeReader { buffer: Vec::new() };
        proof {
            assert(r.buf() =~= Seq::<u8>::empty());
        }
        r
    }

    /// Feed the next bytes from the source.
    pub fn push_chunk(&mut self, chunk: &[u8])
        ensures
            final(self).buf() == old(self).buf() + chunk@,
    {
        let mut i: usize = 0;
        while i < chunk.len()
            invariant
                i <= chunk@.len(),
                self.buffer@ == old(self).buffer@ + chunk@.take(i as int),
            decreases chunk@.len() - i,
        {
            self.buffer.push(chunk[i]);
            proof {
                assert(old(self).buffer@ + chunk@.take(i as int + 1) =~= (old(self).buffer@
                    + chunk@.take(i as int)).push(chunk@[i as int]));
            }
            i += 1;
        }
        proof {
            assert(chunk@.take(chunk@.len() as int) =~= chunk@);
        }
    }

    /// The first cluster of the buffered text, provided a complete cluster
    /// follows it; the buffer is left as it is.
    fn get_grapheme(&self) -> (r: Option<String>)
        ensures
            match r {
                Some(g) => {
                    &&& ready_cluster(self.buf()) == Some(g@)
                    &&& valid_utf8(self.buf())
                    &&& graphemes_of(decode_utf8(self.buf()), true).flatten() == decode_utf8(
                        self.buf(),
                    )
                },
                None => ready_cluster(self.buf()) is None,
            },
    {
        match utf8_to_string(self.buffer.as_slice()) {
            None => None,
            Some(s) => {
                let gs = split_graphemes(s.as_str(), true);
                if gs.len() >= 2 {
                    let g = gs[0].clone();
                    proof {
                        assert(crate::alphabet::sym_views(gs@)[0] == gs@[0]@);
                        assert(g@ == gs@[0]@);
                    }
                    Some(g)
                } else {
                    None
                }
            },
        }
    }

    /// Yields the next symbol once its boundary is certain, and consumes
    /// its bytes; `None` means more input (or the end) must come first.
    pub fn read_next_grapheme(&mut self) -> (r: Option<String>)
        ensures
            match r {
                Some(g) => {
                    &&& ready_cluster(old(self).buf()) == Some(g@)
                    &&& final(self).buf() == old(self).buf().skip(encode_utf8(g@).len() as int)
                },
                None => *final(self) == *old(self) && ready_cluster(old(self).buf()) is None,
            },
    {
        match self.get_grapheme() {
            None => None,
            Some(g) => {
                let blen = self.buffer.len();
                let k = g.as_str().len();
                proof {
                    assert(self.buf().len() == blen);
                    let b = self.buf();
                    let s = decode_utf8(b);
                    let gs = graphemes_of(s, true);
                    assert(s =~= gs[0] + gs.drop_first().flatten()) by {
                        assert(gs.flatten() == gs.first() + gs.drop_first().flatten());
                        assert(gs.first() == gs[0]);
                    }
                    assert(s == gs[0] + gs.drop_first().flatten());
                    lemma_encode_utf8_concat(gs[0], gs.drop_first().flatten());
                    decode_utf8_encode_utf8(b);
                    assert(encode_utf8(s) == b);
                    assert(encode_utf8(s) == encode_utf8(gs[0] + gs.drop_first().flatten()));
                    assert(b == encode_utf8(gs[0]) + encode_utf8(gs.drop_first().flatten()));
                    assert(encode_utf8(g@).len() <= b.len());
                    assert(k == encode_utf8(g@).len());
                    assert(k <= b.len());
                    assert(b.subrange(k as int, b.len() as int) =~= b.skip(k as int));
                }
                let rest = self.buffer.split_off(k);
                self.buffer = rest;
                Some(g)
            },
        }
    }

    /// End of input: the whole remaining buffer is the final symbol, if its
    /// bytes are valid text; an empty buffer ends the stream cleanly.
    pub fn finish(&mut self) -> (r: Result<Option<String>, DecodeError>)
        ensures
            final(self).buf() == Seq::<u8>::empty(),
            match r {
                Ok(None) => old(self).buf().len() == 0,
                Ok(Some(g)) => {
                    &&& old(self).buf().len() > 0
                    &&& valid_utf8(old(self).buf())
                    &&& g@ == decode_utf8(old(self).buf())
                },
                Err(e) => {
                    &&& e == DecodeError::InvalidData
                    &&& old(self).buf().len() > 0
                    &&& !valid_utf8(old(self).buf())
                },
            },
    {
        if self.buffer.len() == 0 {
            proof {
                assert(self.buf() =~= Seq::<u8>::empty());
            }
            return Ok(None);
        }
        let r = utf8_to_string(self.buffer.as_slice());
        self.buffer = Vec::new();
        proof {
            assert(self.buf() =~= Seq::<u8>::empty());
        }
        match r {
            Some(s) => Ok(Some(s)),
            None => Err(DecodeError::InvalidData),
        }
    }
}

} // verus!
