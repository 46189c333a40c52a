use vstd::prelude::*;

use vstd::utf8::{encode_utf8, decode_utf8, valid_utf8};

use crate::bytes::{concat_all, lemma_concat_singletons, singletons};
use crate::engine::{
    lemma_decode_bytes_append, spec_decode_bytes, spec_encode_chunks, spec_encode_text,
};
use crate::merge::{
    best_pair, lemma_merge_concat, lemma_merge_no_candidates, ranks_of, spec_encode_chunk,
    spec_merge,
};
use crate::split::{chunks_from, lemma_chunks_concat, lemma_ranges_wf_from, ranges_wf, split_of};
use crate::vocab::{
    entries_wf, find_key, find_rank, lemma_find_key, lemma_find_rank, rank_injective,
    spec_bytes_of, spec_rank_of,
};

verus! {

/// With unique ranks, reverse lookup inverts lookup: the byte sequence of a
/// byte sequence's rank is that byte sequence again.
pub proof fn lemma_rank_inverse(v: Seq<(Seq<u8>, u32)>, k: Seq<u8>, r: u32)
    requires
        entries_wf(v),
        rank_injective(v),
        spec_rank_of(v, k) == Some(r),
    ensures
        spec_bytes_of(v, r) == Some(k),
{
    lemma_find_key(v, k);
    let i = find_key(v, k)->Some_0;
    lemma_find_rank(v, r);
    match find_rank(v, r) {
        None => {
            assert(v[i].1 != r);
            assert(false);
        },
        Some(m) => {
            if m < i {
                assert(v[m].1 != v[i].1);
                assert(false);
            } else if m > i {
                assert(v[i].1 != v[m].1);
                assert(false);
            }
        },
    }
}

/// Decoding inverts rank mapping: the tokens of a piece list decode to the
/// concatenation of the pieces.
pub proof fn lemma_decode_ranks(v: Seq<(Seq<u8>, u32)>, ps: Seq<Seq<u8>>, ts: Seq<u32>)
    requires
        entries_wf(v),
        rank_injective(v),
        ranks_of(v, ps) == Some(ts),
    ensures
        spec_decode_bytes(v, ts) == Some(concat_all(ps)),
    decreases ps.len(),
{
    if ps.len() == 0 {
        assert(ts =~= Seq::<u32>::empty());
    } else {
        let r0 = spec_rank_of(v, ps[0])->Some_0;
        let rest = ranks_of(v, ps.skip(1))->Some_0;
        assert(ts == seq![r0] + rest);
        lemma_rank_inverse(v, ps[0], r0);
        lemma_decode_ranks(v, ps.skip(1), rest);
        assert(ts[0] == r0);
        assert(ts.skip(1) =~= rest);
    }
}

/// One chunk round-trips: whatever a chunk encodes to decodes back to the
/// chunk, byte for byte.
pub proof fn lemma_chunk_round_trip(v: Seq<(Seq<u8>, u32)>, c: Seq<u8>, ts: Seq<u32>)
    requires
        entries_wf(v),
        rank_injective(v),
        spec_encode_chunk(v, c) == Some(ts),
    ensures
        spec_decode_bytes(v, ts) == Some(c),
{
    let m = spec_merge(v, singletons(c));
    lemma_decode_ranks(v, m, ts);
    lemma_merge_concat(v, singletons(c));
    lemma_concat_singletons(c);
}

/// A chunk list round-trips: the concatenated chunk encodings decode to the
/// concatenated chunks.
pub proof fn lemma_chunks_round_trip(v: Seq<(Seq<u8>, u32)>, cs: Seq<Seq<u8>>, ts: Seq<u32>)
    requires
        entries_wf(v),
        rank_injective(v),
        spec_encode_chunks(v, cs) == Some(ts),
    ensures
        spec_decode_bytes(v, ts) == Some(concat_all(cs)),
    decreases cs.len(),
{
    if cs.len() == 0 {
        assert(ts =~= Seq::<u32>::empty());
    } else {
        let a = spec_encode_chunk(v, cs[0])->Some_0;
        let b = spec_encode_chunks(v, cs.skip(1))->Some_0;
        assert(ts == a + b);
        lemma_chunk_round_trip(v, cs[0], a);
        lemma_chunks_round_trip(v, cs.skip(1), b);
        lemma_decode_bytes_append(v, a, b);
    }
}

/// Round trip: for any text, a vocabulary whose byte sequences and ranks are
/// both duplicate-free decodes every successful encoding of the text back to
/// exactly that text.
pub proof fn lemma_round_trip(
    v: Seq<(Seq<u8>, u32)>,
    pat: Seq<char>,
    text: Seq<char>,
    toks: Seq<u32>,
)
    requires
        entries_wf(v),
        rank_injective(v),
        spec_encode_text(v, pat, text) == Some(toks),
    ensures
        spec_decode_bytes(v, toks) == Some(encode_utf8(text)),
        valid_utf8(encode_utf8(text)),
        decode_utf8(encode_utf8(text)) == text,
{
    let bytes = encode_utf8(text);
    match split_of(pat, text) {
        None => {
            assert(false);
        },
        Some(rs) => {
            assert(ranges_wf(rs, bytes.len()));
            let cs = chunks_from(bytes, rs, 0);
            lemma_chunks_round_trip(v, cs, toks);
            lemma_ranges_wf_from(rs, 0, bytes.len());
            lemma_chunks_concat(bytes, rs, 0);
            assert(bytes.subrange(0, bytes.len() as int) =~= bytes);
        },
    }
    vstd::utf8::encode_utf8_valid_utf8(text);
    vstd::utf8::encode_utf8_decode_utf8(text);
}

/// The empty chunk encodes to the empty token sequence.
pub proof fn lemma_encode_chunk_empty(v: Seq<(Seq<u8>, u32)>)
    ensures
        spec_encode_chunk(v, Seq::empty()) == Some(Seq::<u32>::empty()),
{
    assert(singletons(Seq::empty()) =~= Seq::<Seq<u8>>::empty());
    assert(spec_merge(v, Seq::<Seq<u8>>::empty()) =~= Seq::<Seq<u8>>::empty());
}

proof fn lemma_encode_chunks_of_empty(v: Seq<(Seq<u8>, u32)>, rs: Seq<(usize, usize)>)
    requires
        crate::split::ranges_wf_from(rs, 0, 0),
    ensures
        spec_encode_chunks(v, chunks_from(Seq::<u8>::empty(), rs, 0)) == Some(Seq::<u32>::empty()),
    decreases rs.len(),
{
    let text = Seq::<u8>::empty();
    lemma_encode_chunk_empty(v);
    assert(spec_encode_chunks(v, Seq::<Seq<u8>>::empty()) == Some(Seq::<u32>::empty()));
    assert(Seq::<u32>::empty() + Seq::<u32>::empty() =~= Seq::<u32>::empty());
    if rs.len() == 0 {
        let cs = chunks_from(text, rs, 0);
        assert(cs[0] =~= Seq::<u8>::empty());
        assert(cs.skip(1) =~= Seq::<Seq<u8>>::empty());
        assert(spec_encode_chunk(v, cs[0]) == Some(Seq::<u32>::empty()));
        assert(spec_encode_chunks(v, cs) == Some(Seq::<u32>::empty()));
    } else {
        assert(rs[0].0 == 0 && rs[0].1 == 0);
        assert(crate::split::ranges_wf_from(rs.skip(1), 0, 0));
        lemma_encode_chunks_of_empty(v, rs.skip(1));
        let cs = chunks_from(text, rs, 0);
        let rest = chunks_from(text, rs.skip(1), 0);
        assert(cs =~= seq![text.subrange(0, 0), text.subrange(0, 0)] + rest);
        assert(cs[0] =~= Seq::<u8>::empty());
        assert(cs[1] =~= Seq::<u8>::empty());
        assert(cs.skip(1).skip(1) =~= rest);
        assert(cs.skip(1)[0] == cs[1]);
        assert(spec_encode_chunk(v, cs[1]) == Some(Seq::<u32>::empty()));
        assert(spec_encode_chunks(v, cs.skip(1)) == Some(Seq::<u32>::empty()));
        assert(spec_encode_chunk(v, cs[0]) == Some(Seq::<u32>::empty()));
        assert(spec_encode_chunks(v, cs) == Some(Seq::<u32>::empty()));
    }
}

/// Empty input encodes to the empty token sequence: whenever encoding the
/// empty text succeeds, its token sequence is empty.
pub proof fn lemma_encode_empty(
    v: Seq<(Seq<u8>, u32)>,
    pat: Seq<char>,
    toks: Seq<u32>,
)
    requires
        spec_encode_text(v, pat, Seq::empty()) == Some(toks),
    ensures
        toks == Seq::<u32>::empty(),
{
    let text = Seq::<char>::empty();
    assert(encode_utf8(text) =~= Seq::<u8>::empty());
    match split_of(pat, text) {
        None => {
            assert(false);
        },
        Some(rs) => {
            lemma_ranges_wf_from(rs, 0, 0);
            lemma_encode_chunks_of_empty(v, rs);
        },
    }
}

/// The empty token sequence decodes to empty, valid text.
pub proof fn lemma_decode_empty(v: Seq<(Seq<u8>, u32)>)
    ensures
        spec_decode_bytes(v, Seq::empty()) == Some(Seq::<u8>::empty()),
        valid_utf8(Seq::<u8>::empty()),
        decode_utf8(Seq::<u8>::empty()) == Seq::<char>::empty(),
{
}

/// Determinism: what a text encodes to under a vocabulary and a pattern is a
/// function of those three alone, so two encodings of the same text with the
/// same engine are identical.
pub proof fn lemma_encode_deterministic(
    v: Seq<(Seq<u8>, u32)>,
    pat: Seq<char>,
    text: Seq<char>,
    t1: Seq<u32>,
    t2: Seq<u32>,
)
    requires
        spec_encode_text(v, pat, text) == Some(t1),
        spec_encode_text(v, pat, text) == Some(t2),
    ensures
        t1 == t2,
{
}

/// Merge priority invariant: no two adjacent residual byte sequences of a
/// chunk's final merge concatenate to a vocabulary entry — the merge loop
/// reaches a true fixed point.
pub proof fn lemma_merge_priority_invariant(v: Seq<(Seq<u8>, u32)>, chunk: Seq<u8>)
    ensures
        best_pair(v, spec_merge(v, singletons(chunk))) is None,
        forall|i: int|
            0 <= i < spec_merge(v, singletons(chunk)).len() - 1 ==> spec_rank_of(
                v,
                #[trigger] spec_merge(v, singletons(chunk))[i] + spec_merge(
                    v,
                    singletons(chunk),
                )[i + 1],
            ) is None,
{
    crate::merge::lemma_merge_fixed_point(v, singletons(chunk));
    lemma_merge_no_candidates(v, singletons(chunk));
}

} // verus!
