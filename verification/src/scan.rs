//! The sliding-window scanner: find the first offset at which a signature
//! matches a byte buffer.

use vstd::prelude::*;

use crate::signature::matches_at;
use crate::signature::Signature;
use vstd::slice::slice_subrange;

verus! {

/// The offset of the first match of `sig` in `data` at or after `off`,
/// or `None` if no window from `off` on matches.
pub open spec fn scan_from(sig: Seq<Option<u8>>, data: Seq<u8>, off: int) -> Option<int>
    recommends
        0 <= off,
    decreases data.len() - off,
        when 0 <= off <= data.len()
{
    if off + sig.len() > data.len() {
        None
    } else if matches_at(sig, data, off) {
        Some(off)
    } else {
        scan_from(sig, data, off + 1)
    }
}

/// The offset of the first match of `sig` anywhere in `data`.
pub open spec fn scan(sig: Seq<Option<u8>>, data: Seq<u8>) -> Option<int> {
    scan_from(sig, data, 0)
}

/// A scan starting at `x` finds exactly `off` when the signature matches at
/// `off` and at no offset between `x` and `off`.
proof fn lemma_scan_from_first(sig: Seq<Option<u8>>, data: Seq<u8>, x: int, off: int)
    requires
        0 <= x <= off,
        matches_at(sig, data, off),
        forall|j: int| x <= j < off ==> !matches_at(sig, data, j),
    ensures
        scan_from(sig, data, x) == Some(off),
    decreases off - x,
{
    if x < off {
        lemma_scan_from_first(sig, data, x + 1, off);
    }
}

/// When the signature matches the buffer at offset `off` and at no earlier
/// offset, a scan of the buffer returns exactly `off`.
pub proof fn lemma_scan_finds_first_match(sig: Seq<Option<u8>>, data: Seq<u8>, off: int)
    requires
        matches_at(sig, data, off),
        forall|j: int| 0 <= j < off ==> !matches_at(sig, data, j),
    ensures
        scan(sig, data) == Some(off),
{
    lemma_scan_from_first(sig, data, 0, off);
}

/// A signature made of wildcards alone matches at offset 0 of any buffer
/// at least as long as the signature, so a scan of such a buffer finds it
/// there.
pub proof fn lemma_all_wildcards_match(sig: Seq<Option<u8>>, data: Seq<u8>)
    requires
        forall|k: int| 0 <= k < sig.len() ==> (#[trigger] sig[k]) is None,
        sig.len() <= data.len(),
    ensures
        matches_at(sig, data, 0),
        scan(sig, data) == Some(0int),
{
}

/// A buffer shorter than the signature matches nowhere, so a scan of it
/// finds nothing.
pub proof fn lemma_short_buffer_no_match(sig: Seq<Option<u8>>, data: Seq<u8>)
    requires
        data.len() < sig.len(),
    ensures
        forall|j: int| !matches_at(sig, data, j),
        scan(sig, data) is None,
{
}

/// Slide a window of the signature's length across `data` and return the
/// first offset at which the signature matches, or `None` if the buffer is
/// shorter than the signature or no window matches.
pub fn sig_scan_data(data: &[u8], sig: &Signature) -> (r: Option<usize>)
    ensures
        match r {
            Some(i) => {
                &&& scan(sig@, data@) == Some(i as int)
                &&& matches_at(sig@, data@, i as int)
                &&& forall|j: int| 0 <= j < i ==> !matches_at(sig@, data@, j)
            },
            None => {
                &&& scan(sig@, data@) is None
                &&& forall|j: int| !matches_at(sig@, data@, j)
            },
        },
{
    let m = sig.len();
    let n = data.len();
    if m > n {
        return None;
    }
    let mut i: usize = 0;
    while i <= n - m
        invariant
            m == sig@.len(),
            n == data@.len(),
            m <= n,
            i <= n - m + 1,
            forall|j: int| 0 <= j < i ==> !matches_at(sig@, data@, j),
            scan(sig@, data@) == scan_from(sig@, data@, i as int),
        decreases n - m + 1 - i,
    {
        let w = slice_subrange(data, i, i + m);
        let hit = sig.compare(w);
        proof {
            assert(matches_at(sig@, w@, 0) == matches_at(sig@, data@, i as int)) by {
                assert(forall|k: int| 0 <= k < m ==> w@[k] == data@[i + k]);
            };
        }
        if hit {
            return Some(i);
        }
        i = i + 1;
    }
    None
}

} // verus!
