//! Searching a byte string for a token.
//!
//! The log is framed by two tokens, so everything the codec decides rests on
//! one question: where does a token first occur in a run of bytes?

use vstd::prelude::*;

verus! {

/// The token `pat` stands in `buf` at position `i`.
pub open spec fn matches_at(buf: Seq<u8>, pat: Seq<u8>, i: int) -> bool {
    &&& 0 <= i
    &&& i + pat.len() <= buf.len()
    &&& buf.subrange(i, i + pat.len()) == pat
}

/// The token `pat` stands somewhere in `buf`.
pub open spec fn occurs(buf: Seq<u8>, pat: Seq<u8>) -> bool {
    exists|i: int| matches_at(buf, pat, i)
}

/// `i` is the leftmost position at which `pat` stands in `buf`.
pub open spec fn is_first_match(buf: Seq<u8>, pat: Seq<u8>, i: int) -> bool {
    &&& matches_at(buf, pat, i)
    &&& forall|j: int| 0 <= j < i ==> !matches_at(buf, pat, j)
}

/// The leftmost position at which `pat` stands in `buf`, if it stands anywhere.
pub open spec fn first_match(buf: Seq<u8>, pat: Seq<u8>) -> Option<int> {
    if occurs(buf, pat) {
        Some(choose|i: int| is_first_match(buf, pat, i))
    } else {
        None
    }
}

/// No position below `bound` holds the token.
pub open spec fn no_match_below(buf: Seq<u8>, pat: Seq<u8>, bound: int) -> bool {
    forall|j: int| 0 <= j < bound ==> !matches_at(buf, pat, j)
}

/// Among the positions up to `i`, where the token stands at `i`, one is leftmost.
proof fn lemma_leftmost_exists(buf: Seq<u8>, pat: Seq<u8>, i: int, k: int)
    requires
        matches_at(buf, pat, i),
        0 <= k <= i,
        no_match_below(buf, pat, k),
    ensures
        exists|m: int| is_first_match(buf, pat, m),
    decreases i - k,
{
    if matches_at(buf, pat, k) {
        assert(is_first_match(buf, pat, k));
    } else {
        lemma_leftmost_exists(buf, pat, i, k + 1);
    }
}

/// A leftmost match is the one that `first_match` names.
pub proof fn lemma_first_match_is(buf: Seq<u8>, pat: Seq<u8>, i: int)
    requires
        is_first_match(buf, pat, i),
    ensures
        first_match(buf, pat) == Some(i),
{
    assert(matches_at(buf, pat, i));
    let m = choose|m: int| is_first_match(buf, pat, m);
    assert(is_first_match(buf, pat, m));
    if m < i {
        assert(!matches_at(buf, pat, m));
    }
    if i < m {
        assert(!matches_at(buf, pat, i));
    }
}

/// What `first_match` names is a leftmost match, and it names one whenever
/// the token occurs.
pub proof fn lemma_first_match_found(buf: Seq<u8>, pat: Seq<u8>)
    ensures
        match first_match(buf, pat) {
            Some(i) => is_first_match(buf, pat, i),
            None => forall|j: int| !matches_at(buf, pat, j),
        },
{
    if occurs(buf, pat) {
        let i = choose|i: int| matches_at(buf, pat, i);
        lemma_leftmost_exists(buf, pat, i, 0);
    }
}

/// A match that lies wholly inside a prefix of the buffer is a match of the
/// prefix, and the other way round.
pub proof fn lemma_match_in_prefix(buf: Seq<u8>, pat: Seq<u8>, n: int, i: int)
    requires
        0 <= n <= buf.len(),
        0 <= i,
        i + pat.len() <= n,
    ensures
        matches_at(buf.take(n), pat, i) == matches_at(buf, pat, i),
{
    assert(buf.take(n).subrange(i, i + pat.len()) =~= buf.subrange(i, i + pat.len()));
}

/// A match of the buffer at or after `n` is a match of what is left when the
/// first `n` bytes are dropped, shifted by `n`.
pub proof fn lemma_match_in_suffix(buf: Seq<u8>, pat: Seq<u8>, n: int, i: int)
    requires
        0 <= n <= buf.len(),
        0 <= i,
    ensures
        matches_at(buf.skip(n), pat, i) == matches_at(buf, pat, n + i),
{
    if i + pat.len() <= buf.len() - n {
        assert(buf.skip(n).subrange(i, i + pat.len()) =~= buf.subrange(n + i, n + i + pat.len()));
    }
}

/// Whether `pat` stands in `buf` at position `at`.
pub fn matches_here(buf: &[u8], pat: &[u8], at: usize) -> (found: bool)
    ensures
        found == matches_at(buf@, pat@, at as int),
{
    if pat.len() > buf.len() || at > buf.len() - pat.len() {
        return false;
    }
    let mut k: usize = 0;
    while k < pat.len()
        invariant
            k <= pat.len(),
            at + pat.len() <= buf.len(),
            forall|j: int| 0 <= j < k ==> buf@[at + j] == pat@[j],
        decreases pat.len() - k,
    {
        if buf[at + k] != pat[k] {
            proof {
                let window = buf@.subrange(at as int, at + pat@.len());
                assert(window[k as int] == buf@[at + k]);
            }
            return false;
        }
        k += 1;
    }
    assert(buf@.subrange(at as int, at + pat@.len()) =~= pat@);
    true
}

/// The leftmost position at which `pat` stands in the window `buf[from..end]`,
/// counted from `from`. A window that does not lie in `buf` holds nothing.
pub fn find_in(buf: &[u8], from: usize, end: usize, pat: &[u8]) -> (found: Option<usize>)
    ensures
        match found {
            Some(i) => from <= end <= buf@.len() && first_match(
                buf@.subrange(from as int, end as int),
                pat@,
            ) == Some(i as int),
            None => from <= end <= buf@.len() ==> first_match(
                buf@.subrange(from as int, end as int),
                pat@,
            ) is None,
        },
{
    if from > end || end > buf.len() {
        return None;
    }
    let ghost window = buf@.subrange(from as int, end as int);
    if pat.len() > end - from {
        return None;
    }
    let last: usize = end - from - pat.len();
    let mut i: usize = 0;
    loop
        invariant
            from <= end <= buf.len(),
            pat.len() <= end - from,
            last == end - from - pat.len(),
            i <= last,
            window == buf@.subrange(from as int, end as int),
            no_match_below(window, pat@, i as int),
        decreases last - i,
    {
        let hit = matches_here(buf, pat, from + i);
        proof {
            lemma_match_in_prefix(buf@, pat@, end as int, from + i);
            lemma_match_in_suffix(buf@.take(end as int), pat@, from as int, i as int);
            assert(buf@.take(end as int).skip(from as int) =~= window);
        }
        if hit {
            proof {
                lemma_first_match_is(window, pat@, i as int);
            }
            return Some(i);
        }
        if i == last {
            return None;
        }
        i += 1;
    }
}

/// The leftmost position at which `pat` stands in `buf`.
pub fn find(buf: &[u8], pat: &[u8]) -> (found: Option<usize>)
    ensures
        match found {
            Some(i) => first_match(buf@, pat@) == Some(i as int),
            None => first_match(buf@, pat@) is None,
        },
{
    assert(buf@.subrange(0, buf@.len() as int) =~= buf@);
    find_in(buf, 0, buf.len(), pat)
}

} // verus!
