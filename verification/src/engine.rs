use vstd::prelude::*;

use vstd::string::StringSliceAdditionalSpecFns;
use vstd::utf8::{encode_utf8, decode_utf8, valid_utf8};

use crate::errors::{SpecErr, TokError};
use crate::merge::{encode_chunk, spec_encode_chunk, views_of};
use crate::split::{
    chunks_from, pattern_compiles, pattern_ok, ranges_wf, split_of, split_ranges, make_chunks,
};
use crate::vocab::{
    entries_wf, fail_err, parse_vocab, spec_bytes_of, spec_parse_vocab, ParseOutcome, Vocab,
};

verus! {

/// The token sequence of a chunk list: each chunk encoded independently, the
/// outputs concatenated in order; `None` when some chunk cannot be encoded.
pub open spec fn spec_encode_chunks(v: Seq<(Seq<u8>, u32)>, cs: Seq<Seq<u8>>) -> Option<Seq<u32>>
    decreases cs.len(),
{
    if cs.len() == 0 {
        Some(Seq::empty())
    } else {
        match (spec_encode_chunk(v, cs[0]), spec_encode_chunks(v, cs.skip(1))) {
            (Some(a), Some(b)) => Some(a + b),
            _ => None,
        }
    }
}

pub proof fn lemma_encode_chunks_append(v: Seq<(Seq<u8>, u32)>, a: Seq<Seq<u8>>, b: Seq<Seq<u8>>)
    ensures
        spec_encode_chunks(v, a + b) == match (spec_encode_chunks(v, a), spec_encode_chunks(
            v,
            b,
        )) {
            (Some(x), Some(y)) => Some(x + y),
            _ => None::<Seq<u32>>,
        },
    decreases a.len(),
{
    if a.len() == 0 {
        assert(a + b =~= b);
        match spec_encode_chunks(v, b) {
            Some(y) => {
                assert(Seq::<u32>::empty() + y =~= y);
            },
            None => {},
        }
    } else {
        assert((a + b)[0] == a[0]);
        assert((a + b).skip(1) =~= a.skip(1) + b);
        lemma_encode_chunks_append(v, a.skip(1), b);
        match (spec_encode_chunk(v, a[0]), spec_encode_chunks(v, a.skip(1)), spec_encode_chunks(
            v,
            b,
        )) {
            (Some(h), Some(x), Some(y)) => {
                assert(h + (x + y) =~= (h + x) + y);
            },
            _ => {},
        }
    }
}

/// The bytes a token sequence decodes to: each token's byte sequence, in
/// order; `None` when some token has no vocabulary entry.
pub open spec fn spec_decode_bytes(v: Seq<(Seq<u8>, u32)>, toks: Seq<u32>) -> Option<Seq<u8>>
    decreases toks.len(),
{
    if toks.len() == 0 {
        Some(Seq::empty())
    } else {
        match (spec_bytes_of(v, toks[0]), spec_decode_bytes(v, toks.skip(1))) {
            (Some(b), Some(rest)) => Some(b + rest),
            _ => None,
        }
    }
}

pub proof fn lemma_decode_bytes_append(v: Seq<(Seq<u8>, u32)>, a: Seq<u32>, b: Seq<u32>)
    ensures
        spec_decode_bytes(v, a + b) == match (spec_decode_bytes(v, a), spec_decode_bytes(v, b)) {
            (Some(x), Some(y)) => Some(x + y),
            _ => None::<Seq<u8>>,
        },
    decreases a.len(),
{
    if a.len() == 0 {
        assert(a + b =~= b);
        match spec_decode_bytes(v, b) {
            Some(y) => {
                assert(Seq::<u8>::empty() + y =~= y);
            },
            None => {},
        }
    } else {
        assert((a + b)[0] == a[0]);
        assert((a + b).skip(1) =~= a.skip(1) + b);
        lemma_decode_bytes_append(v, a.skip(1), b);
        match (spec_bytes_of(v, a[0]), spec_decode_bytes(v, a.skip(1)), spec_decode_bytes(v, b)) {
            (Some(h), Some(x), Some(y)) => {
                assert(h + (x + y) =~= (h + x) + y);
            },
            _ => {},
        }
    }
}

/// The first token of `toks` without a vocabulary entry; meaningful only
/// when there is one.
pub open spec fn first_unknown(v: Seq<(Seq<u8>, u32)>, toks: Seq<u32>) -> u32
    decreases toks.len(),
{
    if toks.len() == 0 {
        0u32
    } else if spec_bytes_of(v, toks[0]) is None {
        toks[0]
    } else {
        first_unknown(v, toks.skip(1))
    }
}

pub proof fn lemma_first_unknown_at(v: Seq<(Seq<u8>, u32)>, toks: Seq<u32>, i: int)
    requires
        0 <= i < toks.len(),
        spec_decode_bytes(v, toks.take(i)) is Some,
        spec_bytes_of(v, toks[i]) is None,
    ensures
        spec_decode_bytes(v, toks) is None,
        first_unknown(v, toks) == toks[i],
    decreases i,
{
    if i == 0 {
    } else {
        assert(toks.take(i)[0] == toks[0]);
        assert(spec_bytes_of(v, toks[0]) is Some);
        assert(toks.take(i).skip(1) =~= toks.skip(1).take(i - 1));
        assert(toks.skip(1)[i - 1] == toks[i]);
        lemma_first_unknown_at(v, toks.skip(1), i - 1);
    }
}

/// A chunk that cannot be encoded fails the whole chunk list.
pub proof fn lemma_encode_chunks_none_at(v: Seq<(Seq<u8>, u32)>, cs: Seq<Seq<u8>>, i: int)
    requires
        0 <= i < cs.len(),
        spec_encode_chunk(v, cs[i]) is None,
    ensures
        spec_encode_chunks(v, cs) is None,
    decreases i,
{
    if i == 0 {
    } else {
        assert(cs.skip(1)[i - 1] == cs[i]);
        lemma_encode_chunks_none_at(v, cs.skip(1), i - 1);
    }
}

/// The token sequence of a whole text under a vocabulary and a pattern: the
/// text's bytes fall into chunks along the pattern's matches, and the chunks
/// encode independently. `None` when the matcher fails or a chunk cannot be
/// encoded.
pub open spec fn spec_encode_text(
    v: Seq<(Seq<u8>, u32)>,
    pat: Seq<char>,
    text: Seq<char>,
) -> Option<Seq<u32>> {
    match split_of(pat, text) {
        None => None,
        Some(rs) => if ranges_wf(rs, encode_utf8(text).len()) {
            spec_encode_chunks(v, chunks_from(encode_utf8(text), rs, 0))
        } else {
            None
        },
    }
}

/// Relies on `std::str::from_utf8`: it succeeds exactly on valid UTF-8 and
/// returns the text those bytes encode.
#[verifier::external_body]
fn bytes_to_string(b: &[u8]) -> (r: Option<String>)
    ensures
        r is Some <==> valid_utf8(b@),
        r matches Some(s) ==> encode_utf8(s@) == b@,
{
    match std::str::from_utf8(b) {
        Ok(s) => Some(s.to_string()),
        Err(_) => None,
    }
}

/// A byte-pair-encoding engine: one immutable vocabulary and one split
/// pattern, composed at construction and read-only afterwards.
#[derive(Debug)]
pub struct BPE {
    vocab: Vocab,
    pattern: String,
}

impl BPE {
    /// The vocabulary entries, in mapping-insert order.
    pub closed spec fn vocab_entries(&self) -> Seq<(Seq<u8>, u32)> {
        self.vocab@
    }

    /// The split pattern.
    pub closed spec fn pattern_chars(&self) -> Seq<char> {
        self.pattern@
    }

    /// Every constructed engine has a vocabulary with pairwise distinct byte
    /// sequences and a pattern that compiles.
    pub open spec fn wf(&self) -> bool {
        entries_wf(self.vocab_entries()) && pattern_ok(self.pattern_chars())
    }

    /// Constructs an engine from a split pattern and a serialized
    /// vocabulary. All-or-nothing: any failure leaves no engine. The
    /// vocabulary is parsed first, so a malformed line is reported even when
    /// the pattern is bad too.
    pub fn new(pattern: &str, vocab_src: &[u8]) -> (r: Result<BPE, TokError>)
        ensures
            r matches Ok(e) ==> ({
                &&& e.wf()
                &&& spec_parse_vocab(vocab_src@) == ParseOutcome::Entries(e.vocab_entries())
                &&& e.pattern_chars() == pattern@
            }),
            r is Ok <==> (spec_parse_vocab(vocab_src@) is Entries && pattern_ok(pattern@)),
            r matches Err(e) ==> (match spec_parse_vocab(vocab_src@) {
                ParseOutcome::Fail(bk, l) => e@ == fail_err(bk, l),
                ParseOutcome::Entries(_) => e@ == SpecErr::Pattern && !pattern_ok(pattern@),
            }),
    {
        let vocab = match parse_vocab(vocab_src) {
            Ok(v) => v,
            Err(e) => {
                return Err(e);
            },
        };
        if !pattern_compiles(pattern) {
            return Err(TokError::PatternInvalid);
        }
        Ok(BPE { vocab, pattern: pattern.to_owned() })
    }

    /// Encodes a text into a token sequence: the matcher splits the text's
    /// bytes into chunks, each chunk is merged to its fixed point and mapped
    /// to ranks, and the chunk encodings are concatenated in order.
    #[verifier::rlimit(50)]
    pub fn encode(&self, text: &str) -> (r: Result<Vec<u32>, TokError>)
        ensures
            r matches Ok(t) ==> Some(t@) == spec_encode_text(
                self.vocab_entries(),
                self.pattern_chars(),
                text@,
            ),
            r is Ok <==> spec_encode_text(self.vocab_entries(), self.pattern_chars(), text@)
                is Some,
            r matches Err(e) ==> (
                (split_of(self.pattern_chars(), text@) is None && e@ == SpecErr::Split)
                || (split_of(self.pattern_chars(), text@) is Some && e@ is Piece)
            ),
    {
        let rs = match split_ranges(self.pattern.as_str(), text) {
            None => {
                return Err(TokError::SplitFailed);
            },
            Some(rs) => rs,
        };
        let tb = text.as_bytes();
        let chunks = make_chunks(tb, &rs);
        let ghost cs = chunks_from(text.spec_bytes(), rs@, 0);
        let ghost v = self.vocab_entries();
        let mut toks: Vec<u32> = Vec::new();
        let mut i: usize = 0;
        proof {
            assert(cs.take(0) =~= Seq::<Seq<u8>>::empty());
        }
        while i < chunks.len()
            invariant
                0 <= i <= chunks@.len(),
                v == self.vocab_entries(),
                cs == views_of(chunks@),
                split_of(self.pattern_chars(), text@) == Some(rs@),
                ranges_wf(rs@, encode_utf8(text@).len()),
                cs == chunks_from(encode_utf8(text@), rs@, 0),
                spec_encode_chunks(v, cs.take(i as int)) == Some(toks@),
            decreases chunks@.len() - i,
        {
            proof {
                assert(views_of(chunks@)[i as int] == chunks@[i as int]@);
            }
            match encode_chunk(&self.vocab, chunks[i].as_slice()) {
                Err(e) => {
                    proof {
                        lemma_encode_chunks_none_at(v, cs, i as int);
                    }
                    return Err(e);
                },
                Ok(mut t) => {
                    proof {
                        lemma_encode_chunks_append(v, cs.take(i as int), seq![cs[i as int]]);
                        assert(cs.take(i + 1) =~= cs.take(i as int) + seq![cs[i as int]]);
                        assert(seq![cs[i as int]].skip(1) =~= Seq::<Seq<u8>>::empty());
                        assert(seq![cs[i as int]][0] == cs[i as int]);
                        assert(spec_encode_chunks(v, Seq::<Seq<u8>>::empty()) == Some(
                            Seq::<u32>::empty(),
                        ));
                        match spec_encode_chunk(v, cs[i as int]) {
                            Some(x) => {
                                assert(x + Seq::<u32>::empty() =~= x);
                            },
                            None => {},
                        }
                    }
                    toks.append(&mut t);
                },
            }
            i = i + 1;
        }
        proof {
            assert(cs.take(cs.len() as int) =~= cs);
        }
        Ok(toks)
    }

    /// Decodes a token sequence back to text: each token's byte sequence,
    /// looked up by rank, concatenated in input order, and validated as
    /// text. The empty sequence yields empty text.
    pub fn decode(&self, tokens: &[u32]) -> (r: Result<String, TokError>)
        ensures
            r matches Ok(s) ==> (spec_decode_bytes(self.vocab_entries(), tokens@) matches Some(b)
                && encode_utf8(s@) == b && s@ == decode_utf8(b)),
            r is Ok <==> (spec_decode_bytes(self.vocab_entries(), tokens@) matches Some(b)
                && valid_utf8(b)),
            r matches Err(e) ==> (
                (spec_decode_bytes(self.vocab_entries(), tokens@) is None && e@ == SpecErr::Token(
                    first_unknown(self.vocab_entries(), tokens@),
                ))
                || (spec_decode_bytes(self.vocab_entries(), tokens@) matches Some(b)
                    && !valid_utf8(b) && e@ == SpecErr::Text)
            ),
    {
        let ghost v = self.vocab_entries();
        let mut out: Vec<u8> = Vec::new();
        let mut i: usize = 0;
        proof {
            assert(tokens@.take(0) =~= Seq::<u32>::empty());
        }
        while i < tokens.len()
            invariant
                0 <= i <= tokens@.len(),
                v == self.vocab_entries(),
                spec_decode_bytes(v, tokens@.take(i as int)) == Some(out@),
            decreases tokens@.len() - i,
        {
            match self.vocab.bytes_of(tokens[i]) {
                None => {
                    proof {
                        lemma_first_unknown_at(v, tokens@, i as int);
                    }
                    return Err(TokError::UnknownToken { token: tokens[i] });
                },
                Some(mut b) => {
                    proof {
                        lemma_decode_bytes_append(v, tokens@.take(i as int), seq![tokens@[i as int]]);
                        assert(tokens@.take(i + 1) =~= tokens@.take(i as int) + seq![tokens@[i as int]]);
                        assert(seq![tokens@[i as int]].skip(1) =~= Seq::<u32>::empty());
                        assert(seq![tokens@[i as int]][0] == tokens@[i as int]);
                        assert(spec_decode_bytes(v, Seq::<u32>::empty()) == Some(
                            Seq::<u8>::empty(),
                        ));
                        match spec_bytes_of(v, tokens@[i as int]) {
                            Some(x) => {
                                assert(x + Seq::<u8>::empty() =~= x);
                            },
                            None => {},
                        }
                    }
                    out.append(&mut b);
                },
            }
            i = i + 1;
        }
        proof {
            assert(tokens@.take(tokens@.len() as int) =~= tokens@);
        }
        match bytes_to_string(out.as_slice()) {
            None => Err(TokError::InvalidText),
            Some(s) => {
                proof {
                    vstd::utf8::encode_utf8_decode_utf8(s@);
                }
                Ok(s)
            },
        }
    }
}

} // verus!
