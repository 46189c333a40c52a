use vstd::prelude::*;

verus! {

/// True when `b` is an ASCII whitespace byte: tab, line feed, vertical tab,
/// form feed, carriage return or space.
pub open spec fn is_ws(b: u8) -> bool {
    b == 9 || b == 10 || b == 11 || b == 12 || b == 13 || b == 32
}

/// Concatenation of a sequence of byte sequences, in order.
pub open spec fn concat_all(ss: Seq<Seq<u8>>) -> Seq<u8>
    decreases ss.len(),
{
    if ss.len() == 0 {
        Seq::empty()
    } else {
        ss[0] + concat_all(ss.skip(1))
    }
}

pub proof fn lemma_concat_all_append(a: Seq<Seq<u8>>, b: Seq<Seq<u8>>)
    ensures
        concat_all(a + b) == concat_all(a) + concat_all(b),
    decreases a.len(),
{
    if a.len() == 0 {
        assert(a + b =~= b);
        assert(concat_all(a) + concat_all(b) =~= concat_all(b));
    } else {
        assert((a + b).skip(1) =~= a.skip(1) + b);
        lemma_concat_all_append(a.skip(1), b);
        assert((a + b)[0] == a[0]);
        assert(a[0] + (concat_all(a.skip(1)) + concat_all(b)) =~= (a[0] + concat_all(a.skip(1)))
            + concat_all(b));
    }
}

pub proof fn lemma_concat_all_one(x: Seq<u8>)
    ensures
        concat_all(seq![x]) == x,
{
    assert(seq![x].skip(1) =~= Seq::<Seq<u8>>::empty());
    assert(concat_all(Seq::<Seq<u8>>::empty()) =~= Seq::<u8>::empty());
    assert(concat_all(seq![x]) =~= x);
}

/// One singleton byte sequence per byte of `b`.
pub open spec fn singletons(b: Seq<u8>) -> Seq<Seq<u8>> {
    Seq::new(b.len(), |i: int| seq![b[i]])
}

pub proof fn lemma_concat_singletons(b: Seq<u8>)
    ensures
        concat_all(singletons(b)) == b,
    decreases b.len(),
{
    if b.len() == 0 {
        assert(concat_all(singletons(b)) =~= b);
    } else {
        assert(singletons(b).skip(1) =~= singletons(b.skip(1)));
        lemma_concat_singletons(b.skip(1));
        assert(seq![b[0]] + b.skip(1) =~= b);
    }
}

/// Index of the first occurrence of `b` in `s`, if any.
pub open spec fn find_byte(s: Seq<u8>, b: u8) -> Option<int>
    decreases s.len(),
{
    if s.len() == 0 {
        None
    } else if s[0] == b {
        Some(0int)
    } else {
        match find_byte(s.skip(1), b) {
            None => None,
            Some(i) => Some(i + 1),
        }
    }
}

pub proof fn lemma_find_byte(s: Seq<u8>, b: u8)
    ensures
        match find_byte(s, b) {
            Some(i) => 0 <= i < s.len() && s[i] == b && (forall|j: int| 0 <= j < i ==> s[j] != b),
            None => forall|j: int| 0 <= j < s.len() ==> s[j] != b,
        },
    decreases s.len(),
{
    if s.len() == 0 {
    } else if s[0] == b {
    } else {
        lemma_find_byte(s.skip(1), b);
        assert(forall|j: int| 0 <= j < s.skip(1).len() ==> s.skip(1)[j] == s[j + 1]);
        match find_byte(s.skip(1), b) {
            None => {
                assert forall|j: int| 0 <= j < s.len() implies s[j] != b by {
                    if j >= 1 {
                        assert(s.skip(1)[j - 1] != b);
                    }
                }
            },
            Some(i) => {
                assert(s[i + 1] == s.skip(1)[i]);
                assert forall|j: int| 0 <= j < i + 1 implies s[j] != b by {
                    if j >= 1 {
                        assert(s.skip(1)[j - 1] != b);
                    }
                }
            },
        }
    }
}

/// The first occurrence is unique, so any index with the first-occurrence
/// property pins down `find_byte`.
pub proof fn lemma_find_byte_is(s: Seq<u8>, b: u8, i: int)
    requires
        0 <= i < s.len(),
        s[i] == b,
        forall|j: int| 0 <= j < i ==> s[j] != b,
    ensures
        find_byte(s, b) == Some(i),
{
    lemma_find_byte(s, b);
    match find_byte(s, b) {
        None => {
            assert(s[i] == b);
            assert(false);
        },
        Some(k) => {
            if k < i {
                assert(s[k] != b);
                assert(false);
            } else if k > i {
                assert(s[i] != b);
                assert(false);
            }
        },
    }
}

pub proof fn lemma_find_byte_none(s: Seq<u8>, b: u8)
    requires
        forall|j: int| 0 <= j < s.len() ==> s[j] != b,
    ensures
        find_byte(s, b) is None,
{
    lemma_find_byte(s, b);
    match find_byte(s, b) {
        None => {},
        Some(k) => {
            assert(s[k] != b);
            assert(false);
        },
    }
}

/// First index `i >= from` with `s[i] == b`, scanning left to right.
pub fn scan_byte(s: &[u8], from: usize, b: u8) -> (r: Option<usize>)
    requires
        from <= s@.len(),
    ensures
        match r {
            Some(i) => from <= i < s@.len() && s@[i as int] == b && (forall|j: int|
                from <= j < i ==> s@[j] != b),
            None => forall|j: int| from <= j < s@.len() ==> s@[j] != b,
        },
{
    let mut i: usize = from;
    while i < s.len()
        invariant
            from <= i <= s@.len(),
            forall|j: int| from <= j < i ==> s@[j] != b,
        decreases s@.len() - i,
    {
        if s[i] == b {
            return Some(i);
        }
        i = i + 1;
    }
    None
}

/// A copy of `s[a..b]`.
pub fn copy_range(s: &[u8], a: usize, b: usize) -> (r: Vec<u8>)
    requires
        a <= b <= s@.len(),
    ensures
        r@ == s@.subrange(a as int, b as int),
{
    let mut r: Vec<u8> = Vec::new();
    let mut i: usize = a;
    while i < b
        invariant
            a <= i <= b <= s@.len(),
            r@ == s@.subrange(a as int, i as int),
        decreases b - i,
    {
        r.push(s[i]);
        assert(r@ =~= s@.subrange(a as int, i + 1));
        i = i + 1;
    }
    r
}

/// `s` with leading ASCII whitespace removed.
pub open spec fn ltrim(s: Seq<u8>) -> Seq<u8>
    decreases s.len(),
{
    if s.len() > 0 && is_ws(s[0]) {
        ltrim(s.skip(1))
    } else {
        s
    }
}

/// `s` with trailing ASCII whitespace removed.
pub open spec fn rtrim(s: Seq<u8>) -> Seq<u8>
    decreases s.len(),
{
    if s.len() > 0 && is_ws(s[s.len() - 1]) {
        rtrim(s.drop_last())
    } else {
        s
    }
}

/// `s` with leading and trailing ASCII whitespace removed.
pub open spec fn trimmed(s: Seq<u8>) -> Seq<u8> {
    rtrim(ltrim(s))
}

pub proof fn lemma_ltrim_at(s: Seq<u8>, a: int)
    requires
        0 <= a <= s.len(),
        forall|j: int| 0 <= j < a ==> is_ws(s[j]),
        a < s.len() ==> !is_ws(s[a]),
    ensures
        ltrim(s) == s.skip(a),
    decreases a,
{
    if a == 0 {
        if s.len() > 0 && is_ws(s[0]) {
            assert(false);
        }
        assert(s.skip(0) =~= s);
    } else {
        assert(is_ws(s[0]));
        lemma_ltrim_at(s.skip(1), a - 1);
        assert(s.skip(1).skip(a - 1) =~= s.skip(a));
    }
}

pub proof fn lemma_rtrim_at(s: Seq<u8>, c: int)
    requires
        0 <= c <= s.len(),
        forall|j: int| c <= j < s.len() ==> is_ws(s[j]),
        c > 0 ==> !is_ws(s[c - 1]),
    ensures
        rtrim(s) == s.take(c),
    decreases s.len() - c,
{
    if c == s.len() {
        if s.len() > 0 && is_ws(s[s.len() - 1]) {
            assert(false);
        }
        assert(s.take(c) =~= s);
    } else {
        assert(is_ws(s[s.len() - 1]));
        assert(s.drop_last() =~= s.take(s.len() - 1));
        lemma_rtrim_at(s.drop_last(), c);
        assert(s.drop_last().take(c) =~= s.take(c));
    }
}

/// A copy of `s` with leading and trailing ASCII whitespace removed.
pub fn trim_bytes(s: &[u8]) -> (r: Vec<u8>)
    ensures
        r@ == trimmed(s@),
{
    let mut a: usize = 0;
    while a < s.len() && (s[a] == 9 || s[a] == 10 || s[a] == 11 || s[a] == 12 || s[a] == 13
        || s[a] == 32)
        invariant
            0 <= a <= s@.len(),
            forall|j: int| 0 <= j < a ==> is_ws(s@[j]),
        decreases s@.len() - a,
    {
        a = a + 1;
    }
    proof {
        lemma_ltrim_at(s@, a as int);
    }
    if a == s.len() {
        proof {
            assert(s@.skip(a as int) =~= Seq::<u8>::empty());
        }
        return Vec::new();
    }
    let mut c: usize = s.len();
    while c > a && (s[c - 1] == 9 || s[c - 1] == 10 || s[c - 1] == 11 || s[c - 1] == 12 || s[c - 1]
        == 13 || s[c - 1] == 32)
        invariant
            a <= c <= s@.len(),
            forall|j: int| c <= j < s@.len() ==> is_ws(s@[j]),
        decreases c,
    {
        c = c - 1;
    }
    assert(c > a) by {
        if c == a {
            assert(is_ws(s@[a as int]));
        }
    }
    proof {
        let t = s@.skip(a as int);
        assert(forall|j: int| c - a <= j < t.len() ==> t[j] == s@[j + a] && is_ws(t[j]));
        assert(t[c - a - 1] == s@[c - 1]);
        assert(!is_ws(s@[c - 1]));
        lemma_rtrim_at(t, c - a);
        assert(t.take(c - a) =~= s@.subrange(a as int, c as int));
    }
    copy_range(s, a, c)
}

} // verus!
