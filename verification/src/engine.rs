//! The parallel candidate-scanning engine.
//!
//! Each candidate is fed to the key-derivation primitive together with the
//! shared salt and iteration count, and the derived key is compared with the
//! target key for exact byte equality. `search` stops handing out new work as
//! soon as some worker finds a match; `scan` checks every candidate and
//! reports how many matched.

use crate::counters::ScanCounters;
use rayon::iter::IndexedParallelIterator;
use rayon::iter::IntoParallelRefIterator;
use rayon::iter::ParallelIterator;
use vstd::prelude::*;

verus! {

/// The key that the key-derivation primitive returns for a password, a salt,
/// an iteration count and a requested output length. The primitive computes
/// it from these arguments alone.
pub uninterp spec fn derived_key(pass: Seq<u8>, salt: Seq<u8>, iterations: u32, out_len: nat) -> Seq<u8>;

/// Whether a candidate's derived key equals the target key.
pub open spec fn is_match(pass: Seq<u8>, salt: Seq<u8>, iterations: u32, target: Seq<u8>) -> bool {
    derived_key(pass, salt, iterations, target.len()) == target
}

/// The byte sequences held by a list of candidates.
pub open spec fn views_of(cands: Seq<Vec<u8>>) -> Seq<Seq<u8>> {
    cands.map_values(|v: Vec<u8>| v@)
}

/// How many candidates of the list match.
pub open spec fn match_count(cands: Seq<Seq<u8>>, salt: Seq<u8>, iterations: u32, target: Seq<u8>) -> nat
    decreases cands.len(),
{
    if cands.len() == 0 {
        0
    } else {
        match_count(cands.drop_last(), salt, iterations, target) + if is_match(
            cands.last(),
            salt,
            iterations,
            target,
        ) {
            1nat
        } else {
            0nat
        }
    }
}

/// Law: the no-early-exit mode counts zero matches exactly when the
/// find-first mode comes back empty-handed: some candidate matches if and
/// only if the match count is positive.
pub proof fn lemma_match_count_zero(cands: Seq<Seq<u8>>, salt: Seq<u8>, iterations: u32, target: Seq<u8>)
    ensures
        (match_count(cands, salt, iterations, target) == 0) <==> (forall|i: int|
            0 <= i < cands.len() ==> !is_match(cands[i], salt, iterations, target)),
    decreases cands.len(),
{
    if cands.len() == 0 {
    } else {
        lemma_match_count_zero(cands.drop_last(), salt, iterations, target);
        assert(forall|i: int|
            0 <= i < cands.len() - 1 ==> cands.drop_last()[i] == cands[i]);
        assert(cands.last() == cands[cands.len() - 1]);
    }
}

/// Relies on pbkdf2::pbkdf2_hmac with SHA-1 as the hash: it fills a buffer of
/// the requested length deterministically from the password bytes, the salt
/// bytes and the iteration count alone, with no other effect.
#[verifier::external_body]
fn derive_key(pass: &[u8], salt: &[u8], iterations: u32, out_len: usize) -> (r: Vec<u8>)
    ensures
        r@ == derived_key(pass@, salt@, iterations, out_len as nat),
        r@.len() == out_len,
{
    let mut out = vec![0u8; out_len];
    pbkdf2::pbkdf2_hmac::<sha1::Sha1>(pass, salt, iterations, &mut out);
    out
}

/// Exact byte equality of two byte vectors.
pub fn bytes_equal(a: &Vec<u8>, b: &Vec<u8>) -> (r: bool)
    ensures
        r == (a@ == b@),
{
    if a.len() != b.len() {
        return false;
    }
    let mut i: usize = 0;
    while i < a.len()
        invariant
            i <= a@.len(),
            a@.len() == b@.len(),
            forall|k: int| 0 <= k < i ==> a@[k] == b@[k],
        decreases a@.len() - i,
    {
        if a[i] != b[i] {
            return false;
        }
        i = i + 1;
    }
    proof {
        assert(a@ =~= b@);
    }
    true
}

/// A fresh copy of a byte vector.
fn copy_bytes(v: &Vec<u8>) -> (r: Vec<u8>)
    ensures
        r@ == v@,
{
    let mut out: Vec<u8> = Vec::new();
    let mut i: usize = 0;
    while i < v.len()
        invariant
            i <= v@.len(),
            out@ == v@.take(i as int),
        decreases v@.len() - i,
    {
        out.push(v[i]);
        proof {
            assert(out@ =~= v@.take(i as int + 1));
        }
        i = i + 1;
    }
    proof {
        assert(v@.take(v@.len() as int) =~= v@);
    }
    out
}

/// One derivation attempt: derives a key of the target's length for the
/// candidate and compares it with the target.
pub fn check_candidate(pass: &Vec<u8>, salt: &Vec<u8>, iterations: u32, target: &Vec<u8>) -> (r: bool)
    ensures
        r == is_match(pass@, salt@, iterations, target@),
{
    let key = derive_key(pass.as_slice(), salt.as_slice(), iterations, target.len());
    bytes_equal(&key, target)
}

/// One worker step: tally the attempt, then test the candidate.
fn checked_match(
    pass: &Vec<u8>,
    tally: &std::sync::atomic::AtomicU64,
    salt: &Vec<u8>,
    iterations: u32,
    target: &Vec<u8>,
) -> (r: bool)
    ensures
        r == is_match(pass@, salt@, iterations, target@),
{
    tally.fetch_add(1, std::sync::atomic::Ordering::Relaxed);
    check_candidate(pass, salt, iterations, target)
}

/// Relies on rayon's position_any over a slice: a returned index holds an
/// element for which the predicate returned true, and None comes only after
/// the predicate returned false for every element; once a match is found, no
/// further elements are newly dispatched. The tally counts predicate calls:
/// rayon calls the predicate at most once per element, every call has
/// finished when the traversal returns, and a returned index was itself
/// tested.
#[verifier::external_body]
fn par_position_match(
    candidates: &Vec<Vec<u8>>,
    salt: &Vec<u8>,
    iterations: u32,
    target: &Vec<u8>,
) -> (r: (Option<usize>, u64))
    ensures
        (match r.0 {
            Some(i) => i < candidates@.len() && is_match(
                candidates@[i as int]@,
                salt@,
                iterations,
                target@,
            ),
            None => forall|i: int|
                0 <= i < candidates@.len() ==> !is_match(
                    candidates@[i]@,
                    salt@,
                    iterations,
                    target@,
                ),
        }),
        r.1 <= candidates@.len(),
        r.0 is None ==> r.1 == candidates@.len(),
        r.0 is Some ==> r.1 >= 1,
{
    let tally = std::sync::atomic::AtomicU64::new(0);
    let pos = candidates.par_iter().position_any(
        |c| checked_match(c, &tally, salt, iterations, target),
    );
    (pos, tally.load(std::sync::atomic::Ordering::SeqCst))
}

/// Relies on rayon's filter and count over a slice: the count of elements for
/// which the predicate returned true, the predicate being called once per
/// element.
#[verifier::external_body]
fn par_count_matches(
    candidates: &Vec<Vec<u8>>,
    salt: &Vec<u8>,
    iterations: u32,
    target: &Vec<u8>,
) -> (r: usize)
    ensures
        r as nat == match_count(views_of(candidates@), salt@, iterations, target@),
{
    candidates.par_iter().filter(|c| check_candidate(c, salt, iterations, target)).count()
}

/// The view of what a search returned.
pub open spec fn found_view(r: Option<Vec<u8>>) -> Option<Seq<u8>> {
    match r {
        Some(c) => Some(c@),
        None => None,
    }
}

/// Everything the engine promises of one search: a candidate is returned if
/// and only if some candidate matches; a returned candidate is a matching
/// member of the list; the counter grows by the number of candidates checked,
/// which is all of them when none matches, at least one when one does, and
/// never more than the list holds.
pub open spec fn search_post(
    cands: Seq<Seq<u8>>,
    salt: Seq<u8>,
    iterations: u32,
    target: Seq<u8>,
    found: Option<Seq<u8>>,
    checked_before: int,
    checked_after: int,
) -> bool {
    &&& (found is Some <==> exists|i: int|
        0 <= i < cands.len() && is_match(cands[i], salt, iterations, target))
    &&& (match found {
        Some(c) => is_match(c, salt, iterations, target) && exists|i: int|
            0 <= i < cands.len() && cands[i] == c,
        None => true,
    })
    &&& checked_before <= checked_after <= checked_before + cands.len()
    &&& (found is None ==> checked_after == checked_before + cands.len())
    &&& (found is Some ==> checked_after >= checked_before + 1)
}

/// Searches the candidate list in parallel on the ambient worker pool and
/// returns some matching candidate, or None when none matches. New work stops
/// being dispatched once a match is found; candidates already being checked
/// finish, and each finished check is recorded in the counters. When several
/// candidates match, which one comes back is intentionally unspecified: it is
/// the first one any worker happens to find.
pub fn search(
    counters: &mut ScanCounters,
    candidates: &Vec<Vec<u8>>,
    salt: &Vec<u8>,
    iterations: u32,
    target: &Vec<u8>,
) -> (r: Option<Vec<u8>>)
    requires
        old(counters).spec_checked() + candidates@.len() <= u64::MAX,
    ensures
        search_post(
            views_of(candidates@),
            salt@,
            iterations,
            target@,
            found_view(r),
            old(counters).spec_checked() as int,
            final(counters).spec_checked() as int,
        ),
{
    let (pos, tally) = par_position_match(candidates, salt, iterations, target);
    counters.add(tally);
    match pos {
        Some(i) => {
            let c = copy_bytes(&candidates[i]);
            proof {
                assert(views_of(candidates@)[i as int] == candidates@[i as int]@);
            }
            Some(c)
        },
        None => {
            proof {
                assert(forall|i: int|
                    0 <= i < views_of(candidates@).len() ==> views_of(candidates@)[i]
                        == candidates@[i]@);
            }
            None
        },
    }
}

/// Checks every candidate with no early exit and returns how many matched;
/// the counters grow by the full candidate count.
pub fn scan(
    counters: &mut ScanCounters,
    candidates: &Vec<Vec<u8>>,
    salt: &Vec<u8>,
    iterations: u32,
    target: &Vec<u8>,
) -> (r: usize)
    requires
        old(counters).spec_checked() + candidates@.len() <= u64::MAX,
    ensures
        r as nat == match_count(views_of(candidates@), salt@, iterations, target@),
        final(counters).spec_checked() == old(counters).spec_checked() + candidates@.len(),
{
    let n = par_count_matches(candidates, salt, iterations, target);
    proof {
        assert(candidates@.len() <= u64::MAX);
    }
    counters.add(candidates.len() as u64);
    n
}

/// Splits an in-memory byte stream on the delimiter and searches the
/// resulting candidates: the whole scan in one call, for streams already in
/// memory.
pub fn search_stream(
    counters: &mut ScanCounters,
    data: &Vec<u8>,
    delimiter: u8,
    strip_cr: bool,
    salt: &Vec<u8>,
    iterations: u32,
    target: &Vec<u8>,
) -> (r: Option<Vec<u8>>)
    requires
        old(counters).spec_checked() + data@.len() <= u64::MAX,
    ensures
        search_post(
            crate::source::records_of(data@, delimiter, strip_cr),
            salt@,
            iterations,
            target@,
            found_view(r),
            old(counters).spec_checked() as int,
            final(counters).spec_checked() as int,
        ),
{
    let candidates = crate::source::split_stream(data, delimiter, strip_cr);
    proof {
        crate::source::lemma_records_count(data@, delimiter, strip_cr);
    }
    search(counters, &candidates, salt, iterations, target)
}

/// Law: when exactly one candidate matches the target, every outcome the
/// engine's contract allows returns that very candidate, whatever the worker
/// count and the traversal order.
pub proof fn lemma_single_match_is_found(
    cands: Seq<Seq<u8>>,
    salt: Seq<u8>,
    iterations: u32,
    target: Seq<u8>,
    found: Option<Seq<u8>>,
    checked_before: int,
    checked_after: int,
    m: int,
)
    requires
        search_post(cands, salt, iterations, target, found, checked_before, checked_after),
        0 <= m < cands.len(),
        is_match(cands[m], salt, iterations, target),
        forall|j: int|
            0 <= j < cands.len() && j != m ==> !is_match(cands[j], salt, iterations, target),
    ensures
        found == Some(cands[m]),
{
    assert(found is Some);
    let c = found.unwrap();
    let k = choose|k: int| 0 <= k < cands.len() && cands[k] == c;
    assert(is_match(cands[k], salt, iterations, target));
    assert(k == m);
}

/// Law: when no candidate matches, the search returns None and the counter
/// has grown by exactly the candidate count.
pub proof fn lemma_no_match_checks_all(
    cands: Seq<Seq<u8>>,
    salt: Seq<u8>,
    iterations: u32,
    target: Seq<u8>,
    found: Option<Seq<u8>>,
    checked_before: int,
    checked_after: int,
)
    requires
        search_post(cands, salt, iterations, target, found, checked_before, checked_after),
        forall|j: int| 0 <= j < cands.len() ==> !is_match(cands[j], salt, iterations, target),
    ensures
        found is None,
        checked_after == checked_before + cands.len(),
{
}

/// Law: with two or more matching candidates, the search returns one of the
/// matching candidates — not necessarily the first in list order — and the
/// counter has grown by at most the candidate count.
pub proof fn lemma_some_match_is_found(
    cands: Seq<Seq<u8>>,
    salt: Seq<u8>,
    iterations: u32,
    target: Seq<u8>,
    found: Option<Seq<u8>>,
    checked_before: int,
    checked_after: int,
    m1: int,
    m2: int,
)
    requires
        search_post(cands, salt, iterations, target, found, checked_before, checked_after),
        0 <= m1 < cands.len(),
        0 <= m2 < cands.len(),
        m1 != m2,
        is_match(cands[m1], salt, iterations, target),
        is_match(cands[m2], salt, iterations, target),
    ensures
        found is Some,
        is_match(found.unwrap(), salt, iterations, target),
        exists|i: int| 0 <= i < cands.len() && cands[i] == found.unwrap(),
        checked_after <= checked_before + cands.len(),
{
}

} // verus!
