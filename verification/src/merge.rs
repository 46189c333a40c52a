use vstd::prelude::*;

use vstd::pervasive::VecAdditionalExecFns;

use crate::bytes::{concat_all, lemma_concat_all_append, lemma_concat_all_one, singletons,
    copy_range};
use crate::errors::{SpecErr, TokError};
use crate::vocab::{spec_rank_of, Vocab};

verus! {

/// The views of a list of byte vectors.
pub open spec fn views_of(ps: Seq<Vec<u8>>) -> Seq<Seq<u8>> {
    ps.map_values(|p: Vec<u8>| p@)
}

/// The rank of the concatenation of the adjacent pair at `i`, if the
/// vocabulary holds that concatenation.
pub open spec fn pair_rank(v: Seq<(Seq<u8>, u32)>, ps: Seq<Seq<u8>>, i: int) -> Option<u32> {
    spec_rank_of(v, ps[i] + ps[i + 1])
}

/// The leftmost lowest-rank merge candidate among the pairs `0 .. n`: a later
/// candidate replaces the best one seen so far only with a strictly lower
/// rank, so equal-rank candidates keep the leftmost.
pub open spec fn best_upto(v: Seq<(Seq<u8>, u32)>, ps: Seq<Seq<u8>>, n: int) -> Option<(int, u32)>
    decreases n,
{
    if n <= 0 {
        None
    } else {
        let prev = best_upto(v, ps, n - 1);
        match pair_rank(v, ps, n - 1) {
            None => prev,
            Some(r) => match prev {
                None => Some((n - 1, r)),
                Some((bi, br)) => if r < br {
                    Some((n - 1, r))
                } else {
                    prev
                },
            },
        }
    }
}

/// The pair the merge loop selects next, if any.
pub open spec fn best_pair(v: Seq<(Seq<u8>, u32)>, ps: Seq<Seq<u8>>) -> Option<(int, u32)> {
    best_upto(v, ps, ps.len() - 1)
}

pub proof fn lemma_best_upto_none(v: Seq<(Seq<u8>, u32)>, ps: Seq<Seq<u8>>, n: int)
    requires
        best_upto(v, ps, n) is None,
    ensures
        forall|i: int| 0 <= i < n ==> pair_rank(v, ps, i) is None,
    decreases n,
{
    if n > 0 {
        lemma_best_upto_none(v, ps, n - 1);
    }
}

pub proof fn lemma_best_upto_bounds(v: Seq<(Seq<u8>, u32)>, ps: Seq<Seq<u8>>, n: int)
    requires
        best_upto(v, ps, n) is Some,
    ensures
        0 <= best_upto(v, ps, n)->Some_0.0 < n,
    decreases n,
{
    if n > 0 {
        if best_upto(v, ps, n - 1) is Some {
            lemma_best_upto_bounds(v, ps, n - 1);
        }
    }
}

/// The two elements of the pair at `i` replaced by their concatenation.
pub open spec fn merge_at(ps: Seq<Seq<u8>>, i: int) -> Seq<Seq<u8>> {
    ps.take(i) + seq![ps[i] + ps[i + 1]] + ps.skip(i + 2)
}

/// The fixed point of the merge loop: repeatedly merge the leftmost
/// lowest-rank adjacent pair whose concatenation the vocabulary holds, until
/// no such pair is left.
pub open spec fn spec_merge(v: Seq<(Seq<u8>, u32)>, ps: Seq<Seq<u8>>) -> Seq<Seq<u8>>
    decreases ps.len(),
{
    match best_pair(v, ps) {
        None => ps,
        Some((i, r)) => if 0 <= i && i + 1 < ps.len() {
            spec_merge(v, merge_at(ps, i))
        } else {
            ps
        },
    }
}

/// Merging never changes the underlying bytes.
pub proof fn lemma_merge_at_concat(ps: Seq<Seq<u8>>, i: int)
    requires
        0 <= i,
        i + 1 < ps.len(),
    ensures
        concat_all(merge_at(ps, i)) == concat_all(ps),
{
    let a = ps.take(i);
    let b = seq![ps[i] + ps[i + 1]];
    let c = ps.skip(i + 2);
    lemma_concat_all_append(a + b, c);
    lemma_concat_all_append(a, b);
    let b1 = seq![ps[i]];
    let b2 = seq![ps[i + 1]];
    assert(ps =~= a + b1 + b2 + c);
    lemma_concat_all_append(a + b1 + b2, c);
    lemma_concat_all_append(a + b1, b2);
    lemma_concat_all_append(a, b1);
    lemma_concat_all_one(ps[i] + ps[i + 1]);
    lemma_concat_all_one(ps[i]);
    lemma_concat_all_one(ps[i + 1]);
    assert(concat_all(merge_at(ps, i)) =~= concat_all(ps));
}

pub proof fn lemma_merge_concat(v: Seq<(Seq<u8>, u32)>, ps: Seq<Seq<u8>>)
    ensures
        concat_all(spec_merge(v, ps)) == concat_all(ps),
    decreases ps.len(),
{
    match best_pair(v, ps) {
        None => {},
        Some((i, r)) => {
            if 0 <= i && i + 1 < ps.len() {
                lemma_merge_at_concat(ps, i);
                lemma_merge_concat(v, merge_at(ps, i));
            }
        },
    }
}

/// The merge loop reaches a true fixed point: its result has no merge
/// candidate left.
pub proof fn lemma_merge_fixed_point(v: Seq<(Seq<u8>, u32)>, ps: Seq<Seq<u8>>)
    ensures
        best_pair(v, spec_merge(v, ps)) is None,
    decreases ps.len(),
{
    match best_pair(v, ps) {
        None => {},
        Some((i, r)) => {
            lemma_best_upto_bounds(v, ps, ps.len() - 1);
            lemma_merge_fixed_point(v, merge_at(ps, i));
        },
    }
}

/// No two adjacent elements of a merge fixed point concatenate to a
/// vocabulary entry.
pub proof fn lemma_merge_no_candidates(v: Seq<(Seq<u8>, u32)>, ps: Seq<Seq<u8>>)
    ensures
        forall|i: int|
            0 <= i < spec_merge(v, ps).len() - 1 ==> spec_rank_of(
                v,
                #[trigger] spec_merge(v, ps)[i] + spec_merge(v, ps)[i + 1],
            ) is None,
{
    let m = spec_merge(v, ps);
    lemma_merge_fixed_point(v, ps);
    lemma_best_upto_none(v, m, m.len() - 1);
    assert forall|i: int| 0 <= i < m.len() - 1 implies spec_rank_of(v, #[trigger] m[i] + m[i + 1])
        is None by {
        assert(pair_rank(v, m, i) is None);
    }
}

/// The ranks of a list of byte sequences, left to right; `None` when some
/// byte sequence has no vocabulary entry.
pub open spec fn ranks_of(v: Seq<(Seq<u8>, u32)>, ps: Seq<Seq<u8>>) -> Option<Seq<u32>>
    decreases ps.len(),
{
    if ps.len() == 0 {
        Some(Seq::empty())
    } else {
        match spec_rank_of(v, ps[0]) {
            None => None,
            Some(r) => match ranks_of(v, ps.skip(1)) {
                None => None,
                Some(rest) => Some(seq![r] + rest),
            },
        }
    }
}

/// The first byte sequence of `ps` without a vocabulary entry; meaningful
/// only when there is one.
pub open spec fn first_unranked(v: Seq<(Seq<u8>, u32)>, ps: Seq<Seq<u8>>) -> Seq<u8>
    decreases ps.len(),
{
    if ps.len() == 0 {
        Seq::empty()
    } else if spec_rank_of(v, ps[0]) is None {
        ps[0]
    } else {
        first_unranked(v, ps.skip(1))
    }
}

pub proof fn lemma_ranks_of_append(v: Seq<(Seq<u8>, u32)>, a: Seq<Seq<u8>>, b: Seq<Seq<u8>>)
    ensures
        ranks_of(v, a + b) == match (ranks_of(v, a), ranks_of(v, b)) {
            (Some(x), Some(y)) => Some(x + y),
            _ => None::<Seq<u32>>,
        },
    decreases a.len(),
{
    if a.len() == 0 {
        assert(a + b =~= b);
        match ranks_of(v, b) {
            Some(y) => {
                assert(Seq::<u32>::empty() + y =~= y);
            },
            None => {},
        }
    } else {
        assert((a + b)[0] == a[0]);
        assert((a + b).skip(1) =~= a.skip(1) + b);
        lemma_ranks_of_append(v, a.skip(1), b);
        match spec_rank_of(v, a[0]) {
            None => {},
            Some(r) => {
                match (ranks_of(v, a.skip(1)), ranks_of(v, b)) {
                    (Some(x), Some(y)) => {
                        assert(seq![r] + (x + y) =~= (seq![r] + x) + y);
                    },
                    _ => {},
                }
            },
        }
    }
}

pub proof fn lemma_first_unranked_at(v: Seq<(Seq<u8>, u32)>, ps: Seq<Seq<u8>>, i: int)
    requires
        0 <= i < ps.len(),
        ranks_of(v, ps.take(i)) is Some,
        spec_rank_of(v, ps[i]) is None,
    ensures
        ranks_of(v, ps) is None,
        first_unranked(v, ps) == ps[i],
    decreases i,
{
    if i == 0 {
    } else {
        assert(ps.take(i)[0] == ps[0]);
        assert(spec_rank_of(v, ps[0]) is Some);
        assert(ps.take(i).skip(1) =~= ps.skip(1).take(i - 1));
        assert(ps.skip(1)[i - 1] == ps[i]);
        lemma_first_unranked_at(v, ps.skip(1), i - 1);
    }
}

/// One chunk's encoding: the ranks of its merge fixed point.
pub open spec fn spec_encode_chunk(v: Seq<(Seq<u8>, u32)>, chunk: Seq<u8>) -> Option<Seq<u32>> {
    ranks_of(v, spec_merge(v, singletons(chunk)))
}

/// Concatenation of two byte vectors.
pub fn concat_bytes(a: &Vec<u8>, b: &Vec<u8>) -> (r: Vec<u8>)
    ensures
        r@ == a@ + b@,
{
    let mut r = copy_range(a.as_slice(), 0, a.len());
    let mut i: usize = 0;
    proof {
        assert(r@ =~= a@ + b@.subrange(0, 0));
    }
    while i < b.len()
        invariant
            0 <= i <= b@.len(),
            r@ == a@ + b@.subrange(0, i as int),
        decreases b@.len() - i,
    {
        r.push(b[i]);
        proof {
            assert(r@ =~= a@ + b@.subrange(0, i + 1));
        }
        i = i + 1;
    }
    proof {
        assert(b@.subrange(0, b@.len() as int) =~= b@);
    }
    r
}

/// Encodes one chunk: starts from singleton byte sequences, repeatedly
/// merges the leftmost lowest-rank adjacent pair whose concatenation the
/// vocabulary holds, and maps the residue to its ranks. Fails exactly when
/// some residual byte sequence has no vocabulary entry.
pub fn encode_chunk(vocab: &Vocab, chunk: &[u8]) -> (r: Result<Vec<u32>, TokError>)
    ensures
        r matches Ok(t) ==> Some(t@) == spec_encode_chunk(vocab@, chunk@),
        r is Ok <==> spec_encode_chunk(vocab@, chunk@) is Some,
        r matches Err(e) ==> e@ == SpecErr::Piece(
            first_unranked(vocab@, spec_merge(vocab@, singletons(chunk@))),
        ),
{
    let mut pieces: Vec<Vec<u8>> = Vec::new();
    let mut i: usize = 0;
    proof {
        assert(views_of(pieces@) =~= singletons(chunk@).take(0));
    }
    while i < chunk.len()
        invariant
            0 <= i <= chunk@.len(),
            views_of(pieces@) == singletons(chunk@).take(i as int),
        decreases chunk@.len() - i,
    {
        let mut p: Vec<u8> = Vec::new();
        p.push(chunk[i]);
        proof {
            assert(p@ =~= seq![chunk@[i as int]]);
        }
        let ghost pre = pieces@;
        pieces.push(p);
        proof {
            assert(views_of(pre) == singletons(chunk@).take(i as int));
            assert(views_of(pre).len() == pre.len());
            assert(pre.len() == i as int);
            assert(pieces@ == pre.push(p));
            assert forall|k: int| 0 <= k < pieces@.len() implies #[trigger] views_of(pieces@)[k]
                == singletons(chunk@).take(i + 1)[k] by {
                assert(views_of(pieces@)[k] == pieces@[k]@);
                if k < i as int {
                    assert(pieces@[k] == pre[k]);
                    assert(views_of(pre)[k] == pre[k]@);
                    assert(views_of(pre)[k] == singletons(chunk@).take(i as int)[k]);
                } else {
                    assert(pieces@[k] == p);
                }
            }
            assert(views_of(pieces@) =~= singletons(chunk@).take(i + 1));
        }
        i = i + 1;
    }
    proof {
        assert(singletons(chunk@).take(chunk@.len() as int) =~= singletons(chunk@));
    }
    loop
        invariant
            spec_merge(vocab@, views_of(pieces@)) == spec_merge(vocab@, singletons(chunk@)),
        ensures
            best_pair(vocab@, views_of(pieces@)) is None,
            views_of(pieces@) == spec_merge(vocab@, singletons(chunk@)),
        decreases pieces@.len(),
    {
        let ghost ps = views_of(pieces@);
        if pieces.len() < 2 {
            break;
        }
        let mut best: Option<(usize, u32)> = None;
        let mut j: usize = 0;
        while j < pieces.len() - 1
            invariant
                0 <= j <= pieces@.len() - 1,
                pieces@.len() >= 2,
                ps == views_of(pieces@),
                match best {
                    None => best_upto(vocab@, ps, j as int) is None,
                    Some((bi, br)) => best_upto(vocab@, ps, j as int) == Some((bi as int, br))
                        && bi + 1 < pieces@.len(),
                },
            decreases pieces@.len() - j,
        {
            let cat = concat_bytes(&pieces[j], &pieces[j + 1]);
            proof {
                assert(cat@ == ps[j as int] + ps[j as int + 1]);
            }
            match vocab.rank_of(cat.as_slice()) {
                Some(rk) => {
                    best = match best {
                        None => Some((j, rk)),
                        Some((bi, br)) => if rk < br {
                            Some((j, rk))
                        } else {
                            Some((bi, br))
                        },
                    };
                },
                None => {},
            }
            j = j + 1;
        }
        match best {
            None => {
                break;
            },
            Some((bi, br)) => {
                let merged = concat_bytes(&pieces[bi], &pieces[bi + 1]);
                pieces.set(bi, merged);
                pieces.remove(bi + 1);
                proof {
                    assert(best_pair(vocab@, ps) == Some((bi as int, br)));
                    assert(views_of(pieces@) =~= merge_at(ps, bi as int));
                    assert(spec_merge(vocab@, ps) == spec_merge(vocab@, merge_at(ps, bi as int)));
                }
            },
        }
    }
    let ghost m = views_of(pieces@);
    proof {
        assert(spec_merge(vocab@, m) == m);
    }
    let mut toks: Vec<u32> = Vec::new();
    let mut n: usize = 0;
    proof {
        assert(m.take(0) =~= Seq::<Seq<u8>>::empty());
    }
    while n < pieces.len()
        invariant
            0 <= n <= pieces@.len(),
            m == views_of(pieces@),
            m == spec_merge(vocab@, singletons(chunk@)),
            ranks_of(vocab@, m.take(n as int)) == Some(toks@),
        decreases pieces@.len() - n,
    {
        match vocab.rank_of(pieces[n].as_slice()) {
            None => {
                proof {
                    lemma_first_unranked_at(vocab@, m, n as int);
                }
                let piece = copy_range(pieces[n].as_slice(), 0, pieces[n].len());
                proof {
                    assert(piece@ =~= m[n as int]);
                }
                return Err(TokError::UnencodablePiece { piece });
            },
            Some(rk) => {
                toks.push(rk);
                proof {
                    lemma_ranks_of_append(vocab@, m.take(n as int), seq![m[n as int]]);
                    assert(m.take(n + 1) =~= m.take(n as int) + seq![m[n as int]]);
                    assert(seq![m[n as int]].skip(1) =~= Seq::<Seq<u8>>::empty());
                    assert(ranks_of(vocab@, Seq::<Seq<u8>>::empty()) == Some(Seq::<u32>::empty()));
                    assert(seq![m[n as int]][0] == m[n as int]);
                    assert(seq![rk] + Seq::<u32>::empty() =~= seq![rk]);
                    assert(ranks_of(vocab@, seq![m[n as int]]) == Some(seq![rk]));
                    assert(toks@ =~= ranks_of(vocab@, m.take(n as int))->Some_0 + seq![rk]);
                    assert(Some(toks@) == ranks_of(vocab@, m.take(n + 1)));
                }
            },
        }
        n = n + 1;
    }
    proof {
        assert(m.take(m.len() as int) =~= m);
    }
    Ok(toks)
}

} // verus!
