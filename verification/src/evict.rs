//! Choosing pages to hand to the hypervisor for eviction: resident pages
//! whose active bit stayed clear over the window, sampled at random.

use rand::seq::IndexedRandom;
use vstd::prelude::*;

verus! {

use crate::PAGE_SIZE;
use crate::Segment;
use crate::bit_set;
use crate::is_present;

/// A page worth evicting: resident, but not touched during the window.
pub open spec fn is_idle_resident(w: u64) -> bool {
    is_present(w) && !bit_set(w, 58)
}

/// How many words of `s` mark idle resident pages.
pub open spec fn count_idle_resident(s: Seq<u64>) -> int
    decreases s.len(),
{
    if s.len() == 0 {
        0
    } else {
        count_idle_resident(s.drop_last()) + (if is_idle_resident(s.last()) {
            1int
        } else {
            0int
        })
    }
}

/// The page indices of a segment's idle resident pages, in increasing
/// order, each exactly once.
pub fn select_idle_page_indices(segment: &Segment) -> (r: Vec<usize>)
    ensures
        r@.len() == count_idle_resident(segment.page_flags@),
        forall|k: int|
            0 <= k < r@.len() ==> r@[k] < segment.page_flags@.len() && is_idle_resident(
                segment.page_flags@[#[trigger] r@[k] as int],
            ),
        forall|j: int|
            0 <= j < segment.page_flags@.len() && is_idle_resident(#[trigger] segment.page_flags@[j])
                ==> r@.contains(j as usize),
        forall|k1: int, k2: int| 0 <= k1 < k2 < r@.len() ==> r@[k1] < r@[k2],
{
    let n = segment.page_flags.len();
    let mut r: Vec<usize> = Vec::new();
    let mut i: usize = 0;
    proof {
        assert(segment.page_flags@.subrange(0, 0) =~= Seq::<u64>::empty());
    }
    while i < n
        invariant
            i <= n,
            n == segment.page_flags@.len(),
            r@.len() == count_idle_resident(segment.page_flags@.subrange(0, i as int)),
            forall|k: int|
                0 <= k < r@.len() ==> r@[k] < i && is_idle_resident(
                    segment.page_flags@[#[trigger] r@[k] as int],
                ),
            forall|j: int|
                0 <= j < i && is_idle_resident(#[trigger] segment.page_flags@[j]) ==> r@.contains(
                    j as usize,
                ),
            forall|k1: int, k2: int| 0 <= k1 < k2 < r@.len() ==> r@[k1] < r@[k2],
        decreases n - i,
    {
        let w = segment.page_flags[i];
        proof {
            assert(segment.page_flags@.subrange(0, i as int + 1).drop_last()
                =~= segment.page_flags@.subrange(0, i as int));
            assert(segment.page_flags@.subrange(0, i as int + 1).last()
                == segment.page_flags@[i as int]);
        }
        if w & (1u64 << 63) != 0 && w & (1u64 << 58) == 0 {
            let ghost old_r = r@;
            r.push(i);
            proof {
                assert(r@ == old_r.push(i));
                assert forall|j: int|
                    0 <= j < i + 1 && is_idle_resident(
                        #[trigger] segment.page_flags@[j],
                    ) implies r@.contains(j as usize) by {
                    if j == i {
                        assert(r@[old_r.len() as int] == i);
                    } else {
                        let t = choose|t: int| 0 <= t < old_r.len() && old_r[t] == j as usize;
                        assert(r@[t] == j as usize);
                    }
                }
            }
        }
        i = i + 1;
    }
    proof {
        assert(segment.page_flags@.subrange(0, n as int) =~= segment.page_flags@);
    }
    r
}

/// Relies on rand's `IndexedRandom::sample`: `min(amount, v.len())` distinct
/// positions of `v`, chosen uniformly at random; every returned value is an
/// element of `v`. The choice depends on the thread's generator, so nothing
/// more is promised.
#[verifier::external_body]
fn sample_indices(v: &Vec<usize>, amount: usize) -> (r: Vec<usize>)
    ensures
        r@.len() == (if amount <= v@.len() {
            amount as int
        } else {
            v@.len() as int
        }),
        forall|k: int| 0 <= k < r@.len() ==> v@.contains(#[trigger] r@[k]),
{
    let mut rng = rand::rng();
    v.as_slice().sample(&mut rng, amount).cloned().collect()
}

/// An address fit for a pageout request: the byte address of one of this
/// segment's idle resident pages.
pub open spec fn spec_is_pageout_addr(segment: Segment, addr: usize) -> bool {
    exists|i: int|
        0 <= i < segment.page_flags@.len() && is_idle_resident(#[trigger] segment.page_flags@[i])
            && addr == segment.addr_start + i * (PAGE_SIZE as int)
}

/// Pick up to `pages_to_swap` of the segment's idle resident pages at
/// random and return their byte addresses (fewer when the segment has
/// fewer idle pages).
pub fn select_pageout_addresses(segment: &Segment, pages_to_swap: u64) -> (r: Vec<usize>)
    requires
        segment.addr_start + segment.page_flags@.len() * (PAGE_SIZE as int) <= usize::MAX,
        pages_to_swap <= usize::MAX,
    ensures
        r@.len() == (if pages_to_swap as int <= count_idle_resident(segment.page_flags@) {
            pages_to_swap as int
        } else {
            count_idle_resident(segment.page_flags@)
        }),
        forall|k: int| 0 <= k < r@.len() ==> spec_is_pageout_addr(*segment, #[trigger] r@[k]),
{
    let idxs = select_idle_page_indices(segment);
    let picked = sample_indices(&idxs, pages_to_swap as usize);
    let m = picked.len();
    let mut r: Vec<usize> = Vec::new();
    let mut k: usize = 0;
    while k < m
        invariant
            k <= m,
            m == picked@.len(),
            r@.len() == k,
            segment.addr_start + segment.page_flags@.len() * (PAGE_SIZE as int) <= usize::MAX,
            forall|t: int| 0 <= t < m ==> idxs@.contains(#[trigger] picked@[t]),
            forall|t: int|
                0 <= t < idxs@.len() ==> idxs@[t] < segment.page_flags@.len() && is_idle_resident(
                    segment.page_flags@[#[trigger] idxs@[t] as int],
                ),
            forall|t: int| 0 <= t < k ==> spec_is_pageout_addr(*segment, #[trigger] r@[t]),
        decreases m - k,
    {
        let p = picked[k];
        proof {
            let t = choose|t: int| 0 <= t < idxs@.len() && idxs@[t] == p;
            assert(p < segment.page_flags@.len());
            assert((p + 1) * (PAGE_SIZE as int) <= segment.page_flags@.len() * (PAGE_SIZE as int))
                by (nonlinear_arith)
                requires
                    p + 1 <= segment.page_flags@.len(),
            ;
            assert(p * (PAGE_SIZE as int) + PAGE_SIZE == (p + 1) * (PAGE_SIZE as int))
                by (nonlinear_arith);
        }
        let addr = segment.addr_start + p * PAGE_SIZE;
        r.push(addr);
        proof {
            let t = choose|t: int| 0 <= t < idxs@.len() && idxs@[t] == p;
            assert(is_idle_resident(segment.page_flags@[p as int]));
            assert(addr == segment.addr_start + (p as int) * (PAGE_SIZE as int));
            assert(spec_is_pageout_addr(*segment, addr));
        }
        k = k + 1;
    }
    r
}

} // verus!
