use vstd::prelude::*;

use vstd::string::StringSliceAdditionalSpecFns;

use crate::bytes::{concat_all, copy_range, lemma_concat_all_append};
use crate::merge::views_of;

verus! {

/// Whether a split pattern compiles to a usable matcher.
pub uninterp spec fn pattern_ok(pat: Seq<char>) -> bool;

/// What the matcher finds for a pattern on a text: `None` when the pattern
/// does not compile or matching gives up, otherwise the successive
/// non-overlapping match ranges, as byte offsets into the text.
pub uninterp spec fn split_of(pat: Seq<char>, text: Seq<char>) -> Option<Seq<(usize, usize)>>;

/// Relies on `fancy_regex::Regex::new`: whether a pattern compiles is a
/// function of the pattern string alone.
#[verifier::external_body]
pub(crate) fn pattern_compiles(pat: &str) -> (r: bool)
    ensures
        r == pattern_ok(pat@),
{
    fancy_regex::Regex::new(pat).is_ok()
}

/// Match ranges are ordered and stay within the text: each range is a byte
/// span, and ranges come left to right without overlap.
pub open spec fn ranges_wf(rs: Seq<(usize, usize)>, len: nat) -> bool {
    &&& forall|i: int| 0 <= i < rs.len() ==> (#[trigger] rs[i]).0 <= rs[i].1 <= len
    &&& forall|i: int| 0 <= i && i + 1 < rs.len() ==> (#[trigger] rs[i]).1 <= rs[i + 1].0
}

/// Relies on `fancy_regex::Regex::new` and `Regex::find_iter`: the matches
/// are a pure function of the pattern and the text; they are successive and
/// non-overlapping, with byte offsets within the text. A pattern that does
/// not compile, or a search that gives up, yields `None`, which is likewise
/// a function of pattern and text alone.
#[verifier::external_body]
pub(crate) fn split_ranges(pat: &str, text: &str) -> (r: Option<Vec<(usize, usize)>>)
    ensures
        r is Some <==> split_of(pat@, text@) is Some,
        r matches Some(v) ==> Some(v@) == split_of(pat@, text@) && ranges_wf(
            v@,
            text.spec_bytes().len(),
        ),
{
    let re = match fancy_regex::Regex::new(pat) {
        Ok(re) => re,
        Err(_) => return None,
    };
    let mut v: Vec<(usize, usize)> = Vec::new();
    for m in re.find_iter(text) {
        match m {
            Ok(found) => v.push((found.start(), found.end())),
            Err(_) => return None,
        }
    }
    Some(v)
}

/// Ordered ranges seen from a cursor: the first range starts at or after the
/// cursor, and the rest are ordered from its end.
pub open spec fn ranges_wf_from(rs: Seq<(usize, usize)>, cur: int, len: nat) -> bool
    decreases rs.len(),
{
    if rs.len() == 0 {
        true
    } else {
        &&& cur <= rs[0].0
        &&& rs[0].0 <= rs[0].1 <= len
        &&& ranges_wf_from(rs.skip(1), rs[0].1 as int, len)
    }
}

pub proof fn lemma_ranges_wf_from(rs: Seq<(usize, usize)>, cur: int, len: nat)
    requires
        ranges_wf(rs, len),
        0 <= cur <= len,
        rs.len() > 0 ==> cur <= rs[0].0,
    ensures
        ranges_wf_from(rs, cur, len),
    decreases rs.len(),
{
    if rs.len() > 0 {
        assert(rs[0].0 <= rs[0].1 <= len);
        let t = rs.skip(1);
        assert(forall|i: int| 0 <= i < t.len() ==> t[i] == rs[i + 1]);
        assert forall|i: int| 0 <= i < t.len() implies (#[trigger] t[i]).0 <= t[i].1 <= len by {
            assert(rs[i + 1].0 <= rs[i + 1].1 <= len);
        }
        assert forall|i: int| 0 <= i && i + 1 < t.len() implies (#[trigger] t[i]).1 <= t[i
            + 1].0 by {
            assert(rs[i + 1].1 <= rs[i + 2].0);
        }
        if t.len() > 0 {
            assert(rs[0].1 <= rs[1].0);
            assert(t[0] == rs[1]);
        }
        lemma_ranges_wf_from(t, rs[0].1 as int, len);
    }
}

/// The chunks a text falls into for given match ranges, from a cursor: the
/// gap before each match, the match itself, and finally the tail after the
/// last match. Their concatenation restores the text from the cursor on.
pub open spec fn chunks_from(text: Seq<u8>, rs: Seq<(usize, usize)>, cur: int) -> Seq<Seq<u8>>
    decreases rs.len(),
{
    if rs.len() == 0 {
        seq![text.subrange(cur, text.len() as int)]
    } else {
        seq![text.subrange(cur, rs[0].0 as int), text.subrange(rs[0].0 as int, rs[0].1 as int)]
            + chunks_from(text, rs.skip(1), rs[0].1 as int)
    }
}

pub proof fn lemma_chunks_concat(text: Seq<u8>, rs: Seq<(usize, usize)>, cur: int)
    requires
        0 <= cur <= text.len(),
        ranges_wf_from(rs, cur, text.len()),
    ensures
        concat_all(chunks_from(text, rs, cur)) == text.subrange(cur, text.len() as int),
    decreases rs.len(),
{
    if rs.len() == 0 {
        crate::bytes::lemma_concat_all_one(text.subrange(cur, text.len() as int));
    } else {
        let a = rs[0].0 as int;
        let b = rs[0].1 as int;
        lemma_chunks_concat(text, rs.skip(1), b);
        let c = chunks_from(text, rs, cur);
        let g = text.subrange(cur, a);
        let h = text.subrange(a, b);
        let rest = chunks_from(text, rs.skip(1), b);
        assert(c =~= seq![g] + (seq![h] + rest));
        lemma_concat_all_append(seq![g], seq![h] + rest);
        lemma_concat_all_append(seq![h], rest);
        crate::bytes::lemma_concat_all_one(g);
        crate::bytes::lemma_concat_all_one(h);
        assert(concat_all(c) == g + (h + concat_all(rest)));
        assert(concat_all(c) =~= text.subrange(cur, text.len() as int));
    }
}

/// Cuts a text into chunks along the match ranges: gaps and matches in
/// order, then the tail. No byte is lost or duplicated.
pub(crate) fn make_chunks(text: &[u8], rs: &Vec<(usize, usize)>) -> (r: Vec<Vec<u8>>)
    requires
        ranges_wf(rs@, text@.len()),
    ensures
        views_of(r@) == chunks_from(text@, rs@, 0),
{
    let mut out: Vec<Vec<u8>> = Vec::new();
    let mut cur: usize = 0;
    let mut i: usize = 0;
    proof {
        assert(rs@.skip(0) =~= rs@);
        lemma_ranges_wf_from(rs@, 0, text@.len());
    }
    while i < rs.len()
        invariant
            0 <= i <= rs@.len(),
            0 <= cur <= text@.len(),
            i < rs@.len() ==> cur <= rs@[i as int].0,
            ranges_wf_from(rs@.skip(i as int), cur as int, text@.len()),
            views_of(out@) + chunks_from(text@, rs@.skip(i as int), cur as int) == chunks_from(
                text@,
                rs@,
                0,
            ),
        decreases rs@.len() - i,
    {
        let a: usize = rs[i].0;
        let b: usize = rs[i].1;
        proof {
            assert(rs@.skip(i as int)[0] == rs@[i as int]);
        }
        let gap = copy_range(text, cur, a);
        let hit = copy_range(text, a, b);
        let ghost pre = out@;
        out.push(gap);
        out.push(hit);
        proof {
            let sub = rs@.skip(i as int);
            assert(sub.skip(1) =~= rs@.skip(i + 1));
            assert(views_of(out@) =~= views_of(pre) + seq![
                text@.subrange(cur as int, a as int),
                text@.subrange(a as int, b as int),
            ]);
            assert(chunks_from(text@, sub, cur as int) == seq![
                text@.subrange(cur as int, a as int),
                text@.subrange(a as int, b as int),
            ] + chunks_from(text@, rs@.skip(i + 1), b as int));
            assert(views_of(out@) + chunks_from(text@, rs@.skip(i + 1), b as int) =~= chunks_from(
                text@,
                rs@,
                0,
            ));
            assert(ranges_wf_from(rs@.skip(i + 1), b as int, text@.len()));
            if i + 1 < rs@.len() {
                assert(rs@.skip(i + 1)[0] == rs@[i + 1]);
                assert(b <= rs@[i + 1].0);
            }
        }
        cur = b;
        i = i + 1;
    }
    let tail = copy_range(text, cur, text.len());
    let ghost pre = out@;
    out.push(tail);
    proof {
        assert(rs@.skip(i as int) =~= Seq::<(usize, usize)>::empty());
        assert(chunks_from(text@, rs@.skip(i as int), cur as int) == seq![
            text@.subrange(cur as int, text@.len() as int),
        ]);
        assert(views_of(out@) =~= views_of(pre) + seq![text@.subrange(cur as int, text@.len() as int)]);
        assert(views_of(out@) =~= chunks_from(text@, rs@, 0));
    }
    out
}

} // verus!
