use vstd::prelude::*;

use vstd::pervasive::VecAdditionalExecFns;

use crate::bytes::{
    find_byte, lemma_find_byte, lemma_find_byte_is, lemma_find_byte_none, scan_byte, copy_range,
    trimmed, trim_bytes,
};
use crate::errors::{SpecErr, TokError};

verus! {

// ---------------------------------------------------------------------------
// Base-64 field decoding
// ---------------------------------------------------------------------------

/// What base64's standard-alphabet, padded decoder returns for a field:
/// `None` when the field is not valid base-64, otherwise the decoded bytes.
pub uninterp spec fn b64_decoded(field: Seq<u8>) -> Option<Seq<u8>>;

/// Relies on `base64::engine::general_purpose::STANDARD` and
/// `base64::Engine::decode`: whether a field decodes, and to which bytes, is
/// a pure function of the field alone (standard alphabet, padding required).
#[verifier::external_body]
fn b64_decode(field: &[u8]) -> (r: Option<Vec<u8>>)
    ensures
        r is Some <==> b64_decoded(field@) is Some,
        r matches Some(v) ==> Some(v@) == b64_decoded(field@),
{
    base64::Engine::decode(&base64::engine::general_purpose::STANDARD, field).ok()
}

// ---------------------------------------------------------------------------
// Rank fields
// ---------------------------------------------------------------------------

pub open spec fn is_digit(b: u8) -> bool {
    48 <= b <= 57
}

pub open spec fn all_digits(s: Seq<u8>) -> bool {
    forall|i: int| 0 <= i < s.len() ==> is_digit(s[i])
}

/// Value of a digit string, most significant digit first.
pub open spec fn digits_val(s: Seq<u8>) -> int
    decreases s.len(),
{
    if s.len() == 0 {
        0
    } else {
        digits_val(s.drop_last()) * 10 + (s.last() - 48)
    }
}

/// The digits of a rank field: an optional leading `+` sign is accepted, as
/// the usual integer parsers accept it.
pub open spec fn rank_digits(s: Seq<u8>) -> Seq<u8> {
    if s.len() > 0 && s[0] == 43 {
        s.skip(1)
    } else {
        s
    }
}

/// A rank field parses exactly when its digits are non-empty, all decimal,
/// and their value fits a rank.
pub open spec fn spec_parse_rank(s: Seq<u8>) -> Option<u32> {
    let d = rank_digits(s);
    if d.len() > 0 && all_digits(d) && digits_val(d) <= u32::MAX {
        Some(digits_val(d) as u32)
    } else {
        None
    }
}

proof fn lemma_digits_val_nonneg(s: Seq<u8>)
    requires
        all_digits(s),
    ensures
        digits_val(s) >= 0,
    decreases s.len(),
{
    if s.len() > 0 {
        assert(forall|i: int| 0 <= i < s.drop_last().len() ==> s.drop_last()[i] == s[i]);
        lemma_digits_val_nonneg(s.drop_last());
    }
}

proof fn lemma_digits_val_take_le(s: Seq<u8>, i: int)
    requires
        all_digits(s),
        0 <= i <= s.len(),
    ensures
        digits_val(s.take(i)) <= digits_val(s),
    decreases s.len(),
{
    if i == s.len() {
        assert(s.take(i) =~= s);
    } else {
        assert(forall|j: int| 0 <= j < s.drop_last().len() ==> s.drop_last()[j] == s[j]);
        lemma_digits_val_take_le(s.drop_last(), i);
        assert(s.drop_last().take(i) =~= s.take(i));
        lemma_digits_val_nonneg(s.drop_last());
    }
}

/// Parses a decimal rank field, exactly as `spec_parse_rank` says.
pub fn parse_rank(s: &[u8]) -> (r: Option<u32>)
    ensures
        r == spec_parse_rank(s@),
{
    let ghost d = rank_digits(s@);
    let start: usize = if s.len() > 0 && s[0] == 43 {
        1
    } else {
        0
    };
    assert(d =~= s@.skip(start as int));
    if start == s.len() {
        return None;
    }
    let mut acc: u64 = 0;
    let mut i: usize = start;
    while i < s.len()
        invariant
            start <= i <= s@.len(),
            d == rank_digits(s@),
            d == s@.skip(start as int),
            d.len() == s@.len() - start,
            forall|j: int| 0 <= j < d.len() ==> d[j] == s@[j + start],
            all_digits(d.take(i - start)),
            acc == digits_val(d.take(i - start)),
            acc <= u32::MAX,
        decreases s@.len() - i,
    {
        let b = s[i];
        let ghost k: int = i as int - start as int;
        assert(d[k] == b);
        if b < 48 || b > 57 {
            proof {
                assert(d[k] == s@[k + start]);
                assert(!is_digit(d[k]));
                assert(!all_digits(d));
            }
            return None;
        }
        proof {
            assert(d.take(k + 1).drop_last() =~= d.take(k));
            assert(d.take(k + 1).last() == d[k]);
            assert(forall|j: int| 0 <= j < k + 1 ==> d.take(k + 1)[j] == d[j]);
        }
        let v: u64 = acc * 10 + (b - 48) as u64;
        assert(v == digits_val(d.take(k + 1)));
        if v > 0xFFFF_FFFFu64 {
            proof {
                if all_digits(d) {
                    lemma_digits_val_take_le(d, k + 1);
                    assert(digits_val(d) >= digits_val(d.take(k + 1)));
                    assert(digits_val(d) > u32::MAX);
                }
                assert(spec_parse_rank(s@) is None);
            }
            return None;
        }
        acc = v;
        i = i + 1;
    }
    assert(d.take(d.len() as int) =~= d);
    Some(acc as u32)
}

// ---------------------------------------------------------------------------
// The vocabulary store
// ---------------------------------------------------------------------------

/// First index whose entry has key `k`, if any.
pub open spec fn find_key(s: Seq<(Seq<u8>, u32)>, k: Seq<u8>) -> Option<int>
    decreases s.len(),
{
    if s.len() == 0 {
        None
    } else if s[0].0 == k {
        Some(0int)
    } else {
        match find_key(s.skip(1), k) {
            None => None,
            Some(i) => Some(i + 1),
        }
    }
}

/// First index whose entry has rank `r`, if any.
pub open spec fn find_rank(s: Seq<(Seq<u8>, u32)>, r: u32) -> Option<int>
    decreases s.len(),
{
    if s.len() == 0 {
        None
    } else if s[0].1 == r {
        Some(0int)
    } else {
        match find_rank(s.skip(1), r) {
            None => None,
            Some(i) => Some(i + 1),
        }
    }
}

/// The rank a byte sequence maps to, if any.
pub open spec fn spec_rank_of(s: Seq<(Seq<u8>, u32)>, k: Seq<u8>) -> Option<u32> {
    match find_key(s, k) {
        None => None,
        Some(i) => Some(s[i].1),
    }
}

/// The byte sequence a rank maps back to: the first entry carrying it.
pub open spec fn spec_bytes_of(s: Seq<(Seq<u8>, u32)>, r: u32) -> Option<Seq<u8>> {
    match find_rank(s, r) {
        None => None,
        Some(i) => Some(s[i].0),
    }
}

/// Mapping-insert semantics: an existing key keeps its position and takes the
/// new rank; a new key goes to the end. The last occurrence of a key wins.
pub open spec fn spec_insert(s: Seq<(Seq<u8>, u32)>, k: Seq<u8>, r: u32) -> Seq<(Seq<u8>, u32)> {
    match find_key(s, k) {
        None => s.push((k, r)),
        Some(i) => if 0 <= i < s.len() {
            s.update(i, (k, r))
        } else {
            s
        },
    }
}

/// Every byte sequence maps to exactly one rank.
pub open spec fn entries_wf(s: Seq<(Seq<u8>, u32)>) -> bool {
    forall|i: int, j: int| 0 <= i < j < s.len() ==> s[i].0 != s[j].0
}

/// Ranks are unique per distinct byte sequence.
pub open spec fn rank_injective(s: Seq<(Seq<u8>, u32)>) -> bool {
    forall|i: int, j: int| 0 <= i < j < s.len() ==> s[i].1 != s[j].1
}

pub proof fn lemma_find_key(s: Seq<(Seq<u8>, u32)>, k: Seq<u8>)
    ensures
        match find_key(s, k) {
            Some(i) => 0 <= i < s.len() && s[i].0 == k && (forall|j: int|
                0 <= j < i ==> s[j].0 != k),
            None => forall|j: int| 0 <= j < s.len() ==> s[j].0 != k,
        },
    decreases s.len(),
{
    if s.len() == 0 {
    } else if s[0].0 == k {
    } else {
        lemma_find_key(s.skip(1), k);
        assert(forall|j: int| 0 <= j < s.skip(1).len() ==> s.skip(1)[j] == s[j + 1]);
        match find_key(s.skip(1), k) {
            None => {
                assert forall|j: int| 0 <= j < s.len() implies s[j].0 != k by {
                    if j >= 1 {
                        assert(s.skip(1)[j - 1].0 != k);
                    }
                }
            },
            Some(i) => {
                assert(s[i + 1] == s.skip(1)[i]);
                assert forall|j: int| 0 <= j < i + 1 implies s[j].0 != k by {
                    if j >= 1 {
                        assert(s.skip(1)[j - 1].0 != k);
                    }
                }
            },
        }
    }
}

pub proof fn lemma_find_rank(s: Seq<(Seq<u8>, u32)>, r: u32)
    ensures
        match find_rank(s, r) {
            Some(i) => 0 <= i < s.len() && s[i].1 == r && (forall|j: int|
                0 <= j < i ==> s[j].1 != r),
            None => forall|j: int| 0 <= j < s.len() ==> s[j].1 != r,
        },
    decreases s.len(),
{
    if s.len() == 0 {
    } else if s[0].1 == r {
    } else {
        lemma_find_rank(s.skip(1), r);
        assert(forall|j: int| 0 <= j < s.skip(1).len() ==> s.skip(1)[j] == s[j + 1]);
        match find_rank(s.skip(1), r) {
            None => {
                assert forall|j: int| 0 <= j < s.len() implies s[j].1 != r by {
                    if j >= 1 {
                        assert(s.skip(1)[j - 1].1 != r);
                    }
                }
            },
            Some(i) => {
                assert(s[i + 1] == s.skip(1)[i]);
                assert forall|j: int| 0 <= j < i + 1 implies s[j].1 != r by {
                    if j >= 1 {
                        assert(s.skip(1)[j - 1].1 != r);
                    }
                }
            },
        }
    }
}

pub proof fn lemma_find_key_is(s: Seq<(Seq<u8>, u32)>, k: Seq<u8>, i: int)
    requires
        0 <= i < s.len(),
        s[i].0 == k,
        forall|j: int| 0 <= j < i ==> s[j].0 != k,
    ensures
        find_key(s, k) == Some(i),
{
    lemma_find_key(s, k);
    match find_key(s, k) {
        None => {
            assert(s[i].0 != k);
            assert(false);
        },
        Some(m) => {
            if m < i {
                assert(s[m].0 != k);
                assert(false);
            } else if m > i {
                assert(s[i].0 != k);
                assert(false);
            }
        },
    }
}

pub proof fn lemma_insert_wf(s: Seq<(Seq<u8>, u32)>, k: Seq<u8>, r: u32)
    requires
        entries_wf(s),
    ensures
        entries_wf(spec_insert(s, k, r)),
{
    lemma_find_key(s, k);
    match find_key(s, k) {
        None => {
            let t = s.push((k, r));
            assert forall|i: int, j: int| 0 <= i < j < t.len() implies t[i].0 != t[j].0 by {
                if j == s.len() {
                    assert(s[i].0 != k);
                }
            }
        },
        Some(m) => {
            let t = s.update(m, (k, r));
            assert forall|i: int, j: int| 0 <= i < j < t.len() implies t[i].0 != t[j].0 by {
                assert(t[m].0 == s[m].0);
            }
        },
    }
}

/// Byte-for-byte equality of two slices.
pub fn bytes_eq(a: &[u8], b: &[u8]) -> (r: bool)
    ensures
        r == (a@ == b@),
{
    if a.len() != b.len() {
        assert(a@ != b@);
        return false;
    }
    let mut i: usize = 0;
    while i < a.len()
        invariant
            0 <= i <= a@.len(),
            a@.len() == b@.len(),
            forall|j: int| 0 <= j < i ==> a@[j] == b@[j],
        decreases a@.len() - i,
    {
        if a[i] != b[i] {
            assert(a@ != b@);
            return false;
        }
        i = i + 1;
    }
    assert(a@ =~= b@);
    true
}

/// The vocabulary store: an immutable mapping from byte sequence to rank,
/// held as an entry list with pairwise distinct keys.
#[derive(Debug)]
pub struct Vocab {
    entries: Vec<(Vec<u8>, u32)>,
}

impl View for Vocab {
    type V = Seq<(Seq<u8>, u32)>;

    closed spec fn view(&self) -> Seq<(Seq<u8>, u32)> {
        self.entries@.map_values(|e: (Vec<u8>, u32)| (e.0@, e.1))
    }
}

impl Vocab {
    pub fn new() -> (r: Vocab)
        ensures
            r@ == Seq::<(Seq<u8>, u32)>::empty(),
    {
        let r = Vocab { entries: Vec::new() };
        proof {
            assert(r@ =~= Seq::<(Seq<u8>, u32)>::empty());
        }
        r
    }

    /// How many distinct byte sequences the vocabulary holds.
    pub fn len(&self) -> (r: usize)
        ensures
            r == self@.len(),
    {
        self.entries.len()
    }

    /// Mapping insert: the last occurrence of a byte sequence wins.
    pub fn insert(&mut self, k: Vec<u8>, r: u32)
        ensures
            final(self)@ == spec_insert(old(self)@, k@, r),
    {
        let mut i: usize = 0;
        while i < self.entries.len()
            invariant
                0 <= i <= self.entries@.len(),
                self@ == self.entries@.map_values(|e: (Vec<u8>, u32)| (e.0@, e.1)),
                self == old(self),
                forall|j: int| 0 <= j < i ==> self@[j].0 != k@,
            decreases self.entries@.len() - i,
        {
            if bytes_eq(self.entries[i].0.as_slice(), k.as_slice()) {
                proof {
                    lemma_find_key_is(self@, k@, i as int);
                }
                self.entries.set(i, (k, r));
                proof {
                    assert(final(self)@ =~= old(self)@.update(i as int, (k@, r)));
                }
                return;
            }
            i = i + 1;
        }
        proof {
            lemma_find_key(self@, k@);
            match find_key(self@, k@) {
                None => {},
                Some(m) => {
                    assert(self@[m].0 != k@);
                    assert(false);
                },
            }
        }
        self.entries.push((k, r));
        proof {
            assert(final(self)@ =~= old(self)@.push((k@, r)));
        }
    }

    /// The rank of a byte sequence, if the vocabulary holds it.
    pub fn rank_of(&self, k: &[u8]) -> (r: Option<u32>)
        ensures
            r == spec_rank_of(self@, k@),
    {
        let mut i: usize = 0;
        while i < self.entries.len()
            invariant
                0 <= i <= self.entries@.len(),
                forall|j: int| 0 <= j < i ==> self@[j].0 != k@,
            decreases self.entries@.len() - i,
        {
            if bytes_eq(self.entries[i].0.as_slice(), k) {
                proof {
                    lemma_find_key_is(self@, k@, i as int);
                }
                return Some(self.entries[i].1);
            }
            i = i + 1;
        }
        proof {
            lemma_find_key(self@, k@);
            match find_key(self@, k@) {
                None => {},
                Some(m) => {
                    assert(self@[m].0 != k@);
                    assert(false);
                },
            }
        }
        None
    }

    /// The byte sequence of a rank, if the vocabulary holds one: reverse
    /// lookup by the first entry carrying the rank.
    pub fn bytes_of(&self, rank: u32) -> (r: Option<Vec<u8>>)
        ensures
            r is Some <==> spec_bytes_of(self@, rank) is Some,
            r matches Some(v) ==> Some(v@) == spec_bytes_of(self@, rank),
    {
        let mut i: usize = 0;
        while i < self.entries.len()
            invariant
                0 <= i <= self.entries@.len(),
                forall|j: int| 0 <= j < i ==> self@[j].1 != rank,
            decreases self.entries@.len() - i,
        {
            if self.entries[i].1 == rank {
                proof {
                    lemma_find_rank(self@, rank);
                    match find_rank(self@, rank) {
                        None => {
                            assert(self@[i as int].1 != rank);
                            assert(false);
                        },
                        Some(m) => {
                            if m < i as int {
                                assert(self@[m].1 != rank);
                                assert(false);
                            } else if m > i as int {
                                assert(self@[i as int].1 != rank);
                                assert(false);
                            }
                        },
                    }
                }
                let p = copy_range(self.entries[i].0.as_slice(), 0, self.entries[i].0.len());
                proof {
                    assert(p@ =~= self@[i as int].0);
                }
                return Some(p);
            }
            i = i + 1;
        }
        proof {
            lemma_find_rank(self@, rank);
            match find_rank(self@, rank) {
                None => {},
                Some(m) => {
                    assert(self@[m].1 != rank);
                    assert(false);
                },
            }
        }
        None
    }
}

// ---------------------------------------------------------------------------
// Parsing a serialized vocabulary
// ---------------------------------------------------------------------------

/// What a single line means.
pub enum LineKind {
    /// Nothing but whitespace: skipped.
    Blank,
    /// A valid `<base64-token> <decimal-rank>` line.
    Entry(Seq<u8>, u32),
    /// A malformed line.
    Bad(BadLine),
}

/// Why a line is malformed.
pub enum BadLine {
    /// Not exactly two space-separated fields.
    Fields,
    /// The first field is not valid base-64.
    Base64,
    /// The second field is not a valid rank integer.
    Rank,
}

/// The error a malformed line produces, carrying the offending line.
pub open spec fn fail_err(bk: BadLine, line: Seq<u8>) -> SpecErr {
    match bk {
        BadLine::Fields => SpecErr::LineFormat(line),
        BadLine::Base64 => SpecErr::BadBase64(line),
        BadLine::Rank => SpecErr::BadRank(line),
    }
}

/// Classification of one raw line: trim it; skip it when blank; otherwise it
/// must hold exactly two space-separated fields, a base-64 token and a rank.
pub open spec fn spec_classify_line(line: Seq<u8>) -> LineKind {
    let t = trimmed(line);
    if t.len() == 0 {
        LineKind::Blank
    } else {
        match find_byte(t, 32) {
            None => LineKind::Bad(BadLine::Fields),
            Some(i) => {
                let f1 = t.take(i);
                let f2 = t.skip(i + 1);
                if find_byte(f2, 32) is Some {
                    LineKind::Bad(BadLine::Fields)
                } else {
                    match b64_decoded(f1) {
                        None => LineKind::Bad(BadLine::Base64),
                        Some(tok) => match spec_parse_rank(f2) {
                            None => LineKind::Bad(BadLine::Rank),
                            Some(r) => LineKind::Entry(tok, r),
                        },
                    }
                }
            },
        }
    }
}

/// Where the first line of `src` ends: the first line feed, or the end.
pub open spec fn line_end(src: Seq<u8>) -> int {
    match find_byte(src, 10) {
        None => src.len() as int,
        Some(i) => if 0 <= i <= src.len() {
            i
        } else {
            src.len() as int
        },
    }
}

/// Outcome of parsing a vocabulary source.
pub enum ParseOutcome {
    /// The entry list, in mapping-insert order.
    Entries(Seq<(Seq<u8>, u32)>),
    /// The first malformed line, with why it is malformed.
    Fail(BadLine, Seq<u8>),
}

/// Parsing of a vocabulary source, line by line, starting from the entries
/// accumulated so far.
pub open spec fn spec_parse_from(src: Seq<u8>, acc: Seq<(Seq<u8>, u32)>) -> ParseOutcome
    decreases src.len(),
{
    if src.len() == 0 {
        ParseOutcome::Entries(acc)
    } else {
        let p = line_end(src);
        let line = src.take(p);
        let rest = if p + 1 <= src.len() {
            src.skip(p + 1)
        } else {
            Seq::empty()
        };
        match spec_classify_line(line) {
            LineKind::Blank => spec_parse_from(rest, acc),
            LineKind::Entry(k, r) => spec_parse_from(rest, spec_insert(acc, k, r)),
            LineKind::Bad(bk) => ParseOutcome::Fail(bk, line),
        }
    }
}

/// What the whole source parses to, from an empty vocabulary.
pub open spec fn spec_parse_vocab(src: Seq<u8>) -> ParseOutcome {
    spec_parse_from(src, Seq::empty())
}

/// What one raw line asks the parser to do.
enum LineAction {
    Skip,
    Add(Vec<u8>, u32),
    Reject(TokError),
}

/// Classifies one raw line, exactly as `spec_classify_line` says.
fn classify_line(line: &[u8]) -> (r: LineAction)
    ensures
        match r {
            LineAction::Skip => spec_classify_line(line@) is Blank,
            LineAction::Add(tok, rk) => spec_classify_line(line@) == LineKind::Entry(tok@, rk),
            LineAction::Reject(e) => spec_classify_line(line@) matches LineKind::Bad(bk) && e@
                == fail_err(bk, line@),
        },
{
    let t = trim_bytes(line);
    if t.len() == 0 {
        return LineAction::Skip;
    }
    let whole = copy_range(line, 0, line.len());
    proof {
        assert(whole@ =~= line@);
    }
    let si = match scan_byte(t.as_slice(), 0, 32) {
        None => {
            proof {
                lemma_find_byte_none(t@, 32);
            }
            return LineAction::Reject(TokError::VocabLineFormat { line: whole });
        },
        Some(si) => si,
    };
    proof {
        lemma_find_byte_is(t@, 32, si as int);
    }
    let ghost f2 = t@.skip(si + 1);
    match scan_byte(t.as_slice(), si + 1, 32) {
        Some(s2) => {
            proof {
                assert(f2[s2 - si - 1] == t@[s2 as int]);
                lemma_find_byte(f2, 32);
                match find_byte(f2, 32) {
                    None => {
                        assert(f2[s2 - si - 1] != 32);
                        assert(false);
                    },
                    Some(_) => {},
                }
            }
            return LineAction::Reject(TokError::VocabLineFormat { line: whole });
        },
        None => {
            proof {
                assert forall|j: int| 0 <= j < f2.len() implies f2[j] != 32 by {
                    assert(f2[j] == t@[j + si + 1]);
                }
                lemma_find_byte_none(f2, 32);
            }
        },
    }
    let fld1 = copy_range(t.as_slice(), 0, si);
    let fld2 = copy_range(t.as_slice(), si + 1, t.len());
    proof {
        assert(fld1@ =~= t@.take(si as int));
        assert(fld2@ =~= f2);
    }
    let tok = match b64_decode(fld1.as_slice()) {
        None => {
            return LineAction::Reject(TokError::VocabBadBase64 { line: whole });
        },
        Some(tok) => tok,
    };
    match parse_rank(fld2.as_slice()) {
        None => LineAction::Reject(TokError::VocabBadRank { line: whole }),
        Some(rk) => LineAction::Add(tok, rk),
    }
}

/// Parses a serialized vocabulary: blank lines are skipped; every other line
/// must be `<base64-token> <decimal-rank>`; the first malformed line fails
/// the whole parse; duplicate byte sequences keep the last rank.
pub fn parse_vocab(src: &[u8]) -> (r: Result<Vocab, TokError>)
    ensures
        r matches Ok(v) ==> entries_wf(v@) && spec_parse_vocab(src@) == ParseOutcome::Entries(v@),
        r matches Err(e) ==> (spec_parse_vocab(src@) matches ParseOutcome::Fail(bk, l) && e@
            == fail_err(bk, l)),
        r is Ok <==> spec_parse_vocab(src@) is Entries,
{
    let mut vocab = Vocab::new();
    let mut pos: usize = 0;
    proof {
        assert(src@.skip(0) =~= src@);
    }
    while pos < src.len()
        invariant
            0 <= pos <= src@.len(),
            entries_wf(vocab@),
            spec_parse_vocab(src@) == spec_parse_from(src@.skip(pos as int), vocab@),
        decreases src@.len() - pos,
    {
        let ghost sub = src@.skip(pos as int);
        let end = match scan_byte(src, pos, 10) {
            Some(e) => {
                proof {
                    assert forall|j: int| 0 <= j < e - pos implies sub[j] != 10 by {
                        assert(sub[j] == src@[j + pos]);
                    }
                    assert(sub[e - pos] == src@[e as int]);
                    lemma_find_byte_is(sub, 10, e - pos);
                }
                e
            },
            None => {
                proof {
                    assert forall|j: int| 0 <= j < sub.len() implies sub[j] != 10 by {
                        assert(sub[j] == src@[j + pos]);
                    }
                    lemma_find_byte_none(sub, 10);
                }
                src.len()
            },
        };
        assert(line_end(sub) == end - pos);
        let line = copy_range(src, pos, end);
        proof {
            assert(line@ =~= sub.take(end - pos));
        }
        match classify_line(line.as_slice()) {
            LineAction::Skip => {},
            LineAction::Add(tok, rk) => {
                proof {
                    lemma_insert_wf(vocab@, tok@, rk);
                }
                vocab.insert(tok, rk);
            },
            LineAction::Reject(e) => {
                return Err(e);
            },
        }
        if end < src.len() {
            proof {
                assert(sub.skip(end - pos + 1) =~= src@.skip(end + 1));
            }
            pos = end + 1;
        } else {
            proof {
                assert(end - pos + 1 > sub.len());
            }
            pos = src.len();
            proof {
                assert(src@.skip(pos as int) =~= Seq::<u8>::empty());
            }
        }
    }
    proof {
        assert(src@.skip(pos as int) =~= Seq::<u8>::empty());
    }
    Ok(vocab)
}

} // verus!
