//! Freeze is terminal; fork resumes.
//!
//! A freeze drains the guest and dismantles every thread but one; a fork
//! then runs on that thread. After the freeze the template gives back the
//! all-zero pages of the guest's memory ([`Compaction`]): an idle guest can
//! hold many, and a fork pays for every mapped page. The scan is a machine
//! that works block by block: it says which pages to look at, is told what
//! was found, and says which runs of pages to release.

use crate::text;
use vstd::prelude::*;

verus! {

/// What a [`Compaction`] found and did, in pages of the host's size.
#[derive(Clone, Copy, Debug, PartialEq, Eq, Structural)]
pub struct ZeroPages {
    /// Private anonymous linear memories scanned.
    pub memories: usize,
    /// Anonymous pages of those memories within their current length.
    pub scanned: usize,
    /// Pages of those memories inside shared file overlays, left alone.
    pub overlay: usize,
    /// Of the scanned pages, those that were resident.
    pub resident: usize,
    /// Of which resident and entirely zero.
    pub zero: usize,
    /// Zero pages released.
    pub released: usize,
    /// Fully resident huge-page blocks kept whole because they are not zero
    /// throughout; their pages are not counted one by one.
    pub kept_blocks: usize,
    /// Runs of pages released.
    pub runs: usize,
}

/// A linear memory of the guest, as the runtime reports it.
#[derive(Debug)]
pub struct LinearMemory {
    pub base: usize,
    /// Its current length in bytes.
    pub len: usize,
    pub private_anonymous: bool,
    /// The shared file overlays inside it, as address and length.
    pub overlays: Vec<(usize, usize)>,
}

/// One linear memory under scan: where it is and how far the scan got.
#[derive(Debug)]
pub struct MemoryScan {
    pub base: usize,
    pub pages: usize,
    /// The mappings the memory spans, as page index ranges with whether the
    /// mapping holds huge pages.
    pub mappings: Vec<(usize, usize, bool)>,
    /// The anonymous page ranges of the memory, in order: everything but its
    /// shared file overlays. Only these ranges are scanned.
    pub extents: Vec<(usize, usize)>,
    /// The next page to scan.
    pub next: usize,
    /// A run of zero pages found but not yet released, as page indices.
    pub pending: Option<(usize, usize)>,
}

/// The least number of pages of `page` bytes that hold `len` bytes.
pub open spec fn pages_for(len: int, page: int) -> int {
    len / page + if len % page != 0 {
        1int
    } else {
        0
    }
}

/// `len` in pages, rounded up.
fn pages_of(len: usize, page: usize) -> (r: usize)
    requires
        page > 0,
    ensures
        r == pages_for(len as int, page as int),
{
    proof {
        assert(len / page <= len) by (nonlinear_arith)
            requires
                page > 0,
        ;
        if len % page != 0 {
            assert(len / page < usize::MAX) by (nonlinear_arith)
                requires
                    page > 0,
                    len % page != 0,
                    len <= usize::MAX,
            ;
        }
    }
    let whole: usize = len / page;
    if len % page != 0 {
        whole + 1
    } else {
        whole
    }
}

/// Whether one of the page ranges holds page `i`.
pub open spec fn in_ranges(ranges: Seq<(usize, usize)>, i: int) -> bool {
    exists|k: int| 0 <= k < ranges.len() && (#[trigger] ranges[k]).0 <= i < ranges[k].1
}

/// Whether the page range, if there is one, holds page `i`.
pub open spec fn in_range(range: Option<(usize, usize)>, i: int) -> bool {
    range is Some && (range->0).0 <= i < (range->0).1
}

/// How many pages the page range holds, if there is one.
pub open spec fn pages_in(range: Option<(usize, usize)>) -> int {
    match range {
        Some((start, end)) => end - start,
        None => 0,
    }
}

/// Whether page `i` is in one of the runs or in the pending one.
pub open spec fn held(runs: Seq<(usize, usize)>, pending: Option<(usize, usize)>, i: int) -> bool {
    in_ranges(runs, i) || in_range(pending, i)
}

/// Whether the ranges are non-empty, in order and apart from each other: a
/// page lies between any two.
pub open spec fn apart(ranges: Seq<(usize, usize)>) -> bool {
    &&& forall|k: int| 0 <= k < ranges.len() ==> (#[trigger] ranges[k]).0 < ranges[k].1
    &&& forall|j: int, k: int|
        0 <= j < k < ranges.len() ==> (#[trigger] ranges[j]).1 < (#[trigger] ranges[k]).0
}

impl LinearMemory {
    /// The pages of the memory.
    pub open spec fn pages(self, page: int) -> int {
        pages_for(self.len as int, page)
    }

    /// Whether page `i` lies, in whole or in part, in a shared file overlay.
    pub open spec fn overlaid(self, page: int, i: int) -> bool {
        exists|k: int|
            0 <= k < self.overlays@.len() && overlay_holds(
                #[trigger] self.overlays@[k],
                self.base as int,
                page,
                i,
            )
    }

    /// What the address space guarantees of a memory: it is page-aligned and
    /// neither it nor an overlay in it wraps around.
    pub open spec fn mapped(self, page: int) -> bool {
        &&& self.base as int % page == 0
        &&& self.base + self.pages(page) * page <= usize::MAX
        &&& forall|k: int|
            0 <= k < self.overlays@.len() ==> {
                &&& (#[trigger] self.overlays@[k]).0 >= self.base
                &&& self.overlays@[k].0 - self.base + self.overlays@[k].1 <= usize::MAX
            }
    }
}

/// Whether page `i` of a memory at `base` lies in `overlay`.
pub open spec fn overlay_holds(overlay: (usize, usize), base: int, page: int, i: int) -> bool {
    (overlay.0 - base) / page <= i < pages_for(overlay.0 - base + overlay.1, page)
}

impl MemoryScan {
    /// Whether page `i` is scanned at all.
    pub open spec fn anonymous(self, i: int) -> bool {
        in_ranges(self.extents@, i)
    }

    /// The page indices of a scan fit together: the anonymous ranges lie in
    /// the memory, and a pending run consists of anonymous pages and ends
    /// where the scan has got.
    pub open spec fn ordered(self) -> bool {
        &&& self.next <= self.pages
        &&& apart(self.extents@)
        &&& forall|k: int|
            0 <= k < self.extents@.len() ==> (#[trigger] self.extents@[k]).1 <= self.pages
        &&& self.pending is Some ==> {
            &&& (self.pending->0).0 < (self.pending->0).1
            &&& (self.pending->0).1 == self.next
            &&& forall|i: int|
                (self.pending->0).0 <= i < (self.pending->0).1 ==> #[trigger] self.anonymous(i)
        }
        &&& self.next == self.pages ==> self.pending is None
    }

    /// The memory is made of pages of `page` bytes and does not wrap around.
    pub open spec fn aligned(self, page: int) -> bool {
        &&& self.base as int % page == 0
        &&& self.base + self.pages * page <= usize::MAX
    }

    /// Whether the two scan the same memory, wherever they have got.
    pub open spec fn same_memory(self, other: MemoryScan) -> bool {
        &&& self.base == other.base
        &&& self.pages == other.pages
        &&& self.mappings == other.mappings
        &&& self.extents == other.extents
    }
}

/// Whether one of the overlays holds page `i` of a memory at `base`.
pub open spec fn overlays_hold(overlays: Seq<(usize, usize)>, base: int, page: int, i: int) -> bool {
    exists|k: int| 0 <= k < overlays.len() && overlay_holds(#[trigger] overlays[k], base, page, i)
}

/// The overlays of a memory as page ranges that begin inside it, in order.
fn overlay_ranges(memory: &LinearMemory, page: usize, pages: usize) -> (r: Vec<(usize, usize)>)
    requires
        page > 0,
        memory.mapped(page as int),
        pages == memory.pages(page as int),
    ensures
        forall|k: int| 0 <= k < r@.len() ==> (#[trigger] r@[k]).0 < r@[k].1 && r@[k].0 < pages,
        forall|j: int, k: int|
            0 <= j < k < r@.len() ==> (#[trigger] r@[j]).0 <= (#[trigger] r@[k]).0,
        forall|i: int| 0 <= i < pages ==> in_ranges(r@, i) == memory.overlaid(page as int, i),
{
    let base: usize = memory.base;
    let mut r: Vec<(usize, usize)> = Vec::new();
    let mut n: usize = 0;
    let ghost overlays = memory.overlays@;
    while n < memory.overlays.len()
        invariant
            n <= overlays.len(),
            overlays == memory.overlays@,
            base == memory.base,
            page > 0,
            memory.mapped(page as int),
            forall|k: int| 0 <= k < r@.len() ==> (#[trigger] r@[k]).0 < r@[k].1 && r@[k].0 < pages,
            forall|j: int, k: int|
                0 <= j < k < r@.len() ==> (#[trigger] r@[j]).0 <= (#[trigger] r@[k]).0,
            forall|i: int|
                0 <= i < pages ==> in_ranges(r@, i) == overlays_hold(
                    overlays.take(n as int),
                    base as int,
                    page as int,
                    i,
                ),
        decreases overlays.len() - n,
    {
        let (addr, len) = memory.overlays[n];
        let start: usize = (addr - base) / page;
        let end: usize = pages_of(addr - base + len, page);
        let ghost before = r@;
        let ghost seen = overlays.take(n as int);
        if start < end && start < pages {
            let mut at: usize = 0;
            while at < r.len() && r[at].0 <= start
                invariant
                    at <= r@.len(),
                    r@ == before,
                    forall|k: int| 0 <= k < at ==> (#[trigger] r@[k]).0 <= start,
                decreases r@.len() - at,
            {
                at = at + 1;
            }
            r.insert(at, (start, end));
            proof {
                assert forall|j: int, k: int| 0 <= j < k < r@.len() implies (#[trigger] r@[j]).0 <= (
                #[trigger] r@[k]).0 by {
                    let old_j = if j < at {
                        j
                    } else {
                        j - 1
                    };
                    let old_k = if k < at {
                        k
                    } else {
                        k - 1
                    };
                    if j != at {
                        assert(r@[j] == before[old_j]);
                    }
                    if k != at {
                        assert(r@[k] == before[old_k]);
                    }
                    if k > at {
                        assert(at < before.len());
                        assert(before[at as int].0 > start);
                    }
                }
                assert forall|k: int| 0 <= k < r@.len() implies (#[trigger] r@[k]).0 < r@[k].1
                    && r@[k].0 < pages by {
                    if k < at {
                        assert(r@[k] == before[k]);
                    } else if k > at {
                        assert(r@[k] == before[k - 1]);
                    }
                }
            }
        }
        proof {
            let now = overlays.take(n + 1);
            assert(now =~= seen.push(overlays[n as int]));
            assert forall|i: int| 0 <= i < pages implies in_ranges(r@, i) == overlays_hold(
                now,
                base as int,
                page as int,
                i,
            ) by {
                let here = overlay_holds(overlays[n as int], base as int, page as int, i);
                assert(here <==> start <= i < end);
                assert(overlays_hold(now, base as int, page as int, i) <==> here || overlays_hold(
                    seen,
                    base as int,
                    page as int,
                    i,
                )) by {
                    if overlays_hold(seen, base as int, page as int, i) {
                        let k = choose|k: int|
                            0 <= k < seen.len() && overlay_holds(
                                #[trigger] seen[k],
                                base as int,
                                page as int,
                                i,
                            );
                        assert(now[k] == seen[k]);
                    }
                    if here {
                        assert(now[n as int] == overlays[n as int]);
                    }
                    if overlays_hold(now, base as int, page as int, i) && !here {
                        let k = choose|k: int|
                            0 <= k < now.len() && overlay_holds(
                                #[trigger] now[k],
                                base as int,
                                page as int,
                                i,
                            );
                        assert(seen[k] == now[k]);
                    }
                }
                if start < end && start < pages {
                    lemma_insert_ranges(before, r@, (start, end), i);
                } else if here {
                    assert(false);
                }
            }
        }
        n = n + 1;
    }
    proof {
        assert(overlays.take(overlays.len() as int) =~= overlays);
    }
    r
}

proof fn lemma_insert_ranges(
    before: Seq<(usize, usize)>,
    now: Seq<(usize, usize)>,
    new: (usize, usize),
    i: int,
)
    requires
        exists|at: int| 0 <= at <= before.len() && now == #[trigger] before.insert(at, new),
    ensures
        in_ranges(now, i) <==> in_ranges(before, i) || new.0 <= i < new.1,
{
    let at = choose|at: int| 0 <= at <= before.len() && now == #[trigger] before.insert(at, new);
    if in_ranges(before, i) {
        let k = choose|k: int|
            0 <= k < before.len() && (#[trigger] before[k]).0 <= i < before[k].1;
        let moved = if k < at {
            k
        } else {
            k + 1
        };
        assert(now[moved] == before[k]);
    }
    if new.0 <= i < new.1 {
        assert(now[at] == new);
    }
    if in_ranges(now, i) {
        let k = choose|k: int| 0 <= k < now.len() && (#[trigger] now[k]).0 <= i < now[k].1;
        if k < at {
            assert(before[k] == now[k]);
        } else if k > at {
            assert(before[k - 1] == now[k]);
        }
    }
}

/// The anonymous page ranges of a memory: the pages that no overlay holds.
fn anonymous_extents(memory: &LinearMemory, page: usize, pages: usize) -> (r: Vec<(usize, usize)>)
    requires
        page > 0,
        memory.mapped(page as int),
        pages == memory.pages(page as int),
    ensures
        apart(r@),
        forall|k: int| 0 <= k < r@.len() ==> (#[trigger] r@[k]).1 <= pages,
        forall|i: int| 0 <= i < pages ==> in_ranges(r@, i) == !memory.overlaid(page as int, i),
{
    let overlays = overlay_ranges(memory, page, pages);
    let mut extents: Vec<(usize, usize)> = Vec::new();
    let mut from: usize = 0;
    let mut n: usize = 0;
    let ghost all = overlays@;
    while n < overlays.len()
        invariant
            n <= all.len(),
            all == overlays@,
            forall|k: int| 0 <= k < all.len() ==> (#[trigger] all[k]).0 < all[k].1 && all[k].0
                < pages,
            forall|j: int, k: int|
                0 <= j < k < all.len() ==> (#[trigger] all[j]).0 <= (#[trigger] all[k]).0,
            apart(extents@),
            forall|k: int| 0 <= k < extents@.len() ==> (#[trigger] extents@[k]).1 <= pages,
            n == 0 ==> extents@.len() == 0,
            n > 0 ==> forall|k: int|
                0 <= k < extents@.len() ==> (#[trigger] extents@[k]).1 <= all[n - 1].0,
            forall|k: int| 0 <= k < n ==> (#[trigger] all[k]).1 <= from,
            n == 0 ==> from == 0,
            forall|i: int|
                0 <= i < from ==> in_ranges(extents@, i) == !in_ranges(all.take(n as int), i),
        decreases all.len() - n,
    {
        let (start, end) = overlays[n];
        let ghost before = extents@;
        let ghost seen = all.take(n as int);
        let ghost now = all.take(n + 1);
        let ghost reached = from;
        proof {
            assert(now =~= seen.push(all[n as int]));
        }
        if from < start {
            extents.push((from, start));
        }
        if from < end {
            from = end;
        }
        proof {
            assert forall|i: int| 0 <= i < from implies in_ranges(extents@, i) == !in_ranges(
                now,
                i,
            ) by {
                assert(in_ranges(now, i) <==> in_ranges(seen, i) || start <= i < end) by {
                    assert(now =~= seen.insert(n as int, all[n as int]));
                    lemma_insert_ranges(seen, now, all[n as int], i);
                }
                if reached < start {
                    assert(extents@ =~= before.insert(before.len() as int, (reached, start)));
                    lemma_insert_ranges(before, extents@, (reached, start), i);
                }
                if i < reached {
                    if in_ranges(before, i) && n > 0 {
                        assert(i < all[n - 1].0);
                        assert(all[n - 1].0 <= all[n as int].0);
                    }
                } else {
                    assert(!in_ranges(seen, i)) by {
                        if in_ranges(seen, i) {
                            let k = choose|k: int|
                                0 <= k < seen.len() && (#[trigger] seen[k]).0 <= i < seen[k].1;
                            assert(seen[k] == all[k]);
                        }
                    }
                    assert(!in_ranges(before, i)) by {
                        if in_ranges(before, i) {
                            let k = choose|k: int|
                                0 <= k < before.len() && (#[trigger] before[k]).0 <= i
                                    < before[k].1;
                            assert(before[k].1 <= all[n - 1].0);
                            assert(all[n - 1].1 <= reached);
                        }
                    }
                }
            }
            assert forall|k: int| 0 <= k < extents@.len() implies (#[trigger] extents@[k]).1
                <= all[n as int].0 by {
                if k < before.len() {
                    assert(extents@[k] == before[k]);
                    assert(all[n - 1].0 <= all[n as int].0);
                }
            }
            assert(apart(extents@)) by {
                assert forall|j: int, k: int| 0 <= j < k < extents@.len() implies (
                #[trigger] extents@[j]).1 < (#[trigger] extents@[k]).0 by {
                    if k == before.len() {
                        assert(before[j].1 <= all[n - 1].0);
                        assert(all[n - 1].1 <= reached);
                    }
                }
            }
        }
        n = n + 1;
    }
    let ghost before = extents@;
    let ghost reached = from;
    if from < pages {
        extents.push((from, pages));
    }
    proof {
        assert(all.take(all.len() as int) =~= all);
        assert(apart(extents@)) by {
            assert forall|j: int, k: int| 0 <= j < k < extents@.len() implies (
            #[trigger] extents@[j]).1 < (#[trigger] extents@[k]).0 by {
                if k == before.len() {
                    assert(before[j].1 <= all[all.len() - 1].0);
                    assert(all[all.len() - 1].1 <= reached);
                }
            }
        }
        assert forall|i: int| 0 <= i < pages implies in_ranges(extents@, i) == !memory.overlaid(
            page as int,
            i,
        ) by {
            if reached < pages {
                assert(extents@ =~= before.insert(before.len() as int, (reached, pages)));
                lemma_insert_ranges(before, extents@, (reached, pages), i);
            }
            if i >= reached {
                assert(!in_ranges(all, i)) by {
                    if in_ranges(all, i) {
                        let k = choose|k: int|
                            0 <= k < all.len() && (#[trigger] all[k]).0 <= i < all[k].1;
                        assert(all[k].1 <= reached);
                    }
                }
            }
        }
    }
    extents
}

/// The mappings that meet the memory from `base` to `end`, as ranges of its
/// pages, in their order.
pub open spec fn clipped(
    mappings: Seq<(usize, usize, bool)>,
    base: int,
    end: int,
    page: int,
) -> Seq<(usize, usize, bool)>
    decreases mappings.len(),
{
    if mappings.len() == 0 {
        Seq::empty()
    } else {
        let rest = clipped(mappings.drop_last(), base, end, page);
        let (start, stop, huge) = mappings.last();
        if start < end && stop > base {
            let from = if start > base {
                start as int
            } else {
                base
            };
            let to = if stop < end {
                stop as int
            } else {
                end
            };
            rest.push((((from - base) / page) as usize, pages_for(to - base, page) as usize, huge))
        } else {
            rest
        }
    }
}

fn clip_mappings(
    mappings: &Vec<(usize, usize, bool)>,
    base: usize,
    end: usize,
    page: usize,
) -> (r: Vec<(usize, usize, bool)>)
    requires
        page > 0,
        base <= end,
    ensures
        r@ == clipped(mappings@, base as int, end as int, page as int),
{
    let mut r: Vec<(usize, usize, bool)> = Vec::new();
    let mut n: usize = 0;
    while n < mappings.len()
        invariant
            n <= mappings@.len(),
            page > 0,
            base <= end,
            r@ == clipped(mappings@.take(n as int), base as int, end as int, page as int),
        decreases mappings.len() - n,
    {
        proof {
            assert(mappings@.take(n + 1).drop_last() =~= mappings@.take(n as int));
        }
        let (start, stop, huge) = mappings[n];
        if start < end && stop > base {
            let from: usize = if start > base {
                start
            } else {
                base
            };
            let to: usize = if stop < end {
                stop
            } else {
                end
            };
            r.push(((from - base) / page, pages_of(to - base, page), huge));
        }
        n = n + 1;
    }
    proof {
        assert(mappings@.take(mappings@.len() as int) =~= mappings@);
    }
    r
}

impl MemoryScan {
    /// Whether this is the scan of `memory`, not yet begun.
    pub open spec fn prepared(
        self,
        memory: LinearMemory,
        mappings: Seq<(usize, usize, bool)>,
        page: int,
    ) -> bool {
        &&& self.base == memory.base
        &&& self.pages == memory.pages(page)
        &&& self.mappings@ == clipped(
            mappings,
            memory.base as int,
            memory.base + memory.pages(page) * page,
            page,
        )
        &&& forall|i: int|
            0 <= i < self.pages ==> #[trigger] self.anonymous(i) == !memory.overlaid(page, i)
        &&& self.next == 0
        &&& self.pending is None
    }

    /// Prepares the scan of a memory.
    fn prepare(memory: &LinearMemory, mappings: &Vec<(usize, usize, bool)>, page: usize) -> (r: Self)
        requires
            page > 0,
            memory.mapped(page as int),
            memory.len > 0,
        ensures
            r.prepared(*memory, mappings@, page as int),
            r.ordered(),
            r.aligned(page as int),
    {
        let pages: usize = pages_of(memory.len, page);
        proof {
            assert(pages * page >= 0) by (nonlinear_arith)
                requires
                    page > 0,
                    pages >= 0,
            ;
            assert(pages >= 1) by (nonlinear_arith)
                requires
                    pages == pages_for(memory.len as int, page as int),
                    memory.len > 0,
                    page > 0,
            ;
        }
        let end: usize = memory.base + pages * page;
        let mappings = clip_mappings(mappings, memory.base, end, page);
        let extents = anonymous_extents(memory, page, pages);
        MemoryScan { base: memory.base, pages, mappings, extents, next: 0, pending: None }
    }
}

/// A block of pages to look at: the pages from the scan's position to the
/// next huge-page boundary, or to the end of the anonymous range.
#[derive(Clone, Copy, Debug, PartialEq, Eq, Structural)]
pub struct Block {
    pub addr: usize,
    /// The index of its first page.
    pub first: usize,
    /// How many pages it has.
    pub count: usize,
    /// Whether it is one whole huge page's worth of memory.
    pub whole: bool,
    /// Whether its mapping may hold huge pages.
    pub spare: bool,
}

/// What a scan does next with a memory.
#[derive(Clone, Copy, Debug)]
pub enum ScanStep {
    /// Nothing is left to look at; the run, if any, is to be released.
    Finished { release: Option<(usize, usize)> },
    /// The run, if any, is to be released, and the block looked at.
    Look { release: Option<(usize, usize)>, block: Block },
}

impl MemoryScan {
    /// Whether the `k`-th mapping is the first that holds page `i`.
    pub open spec fn mapping_of(self, k: int, i: int) -> bool {
        &&& 0 <= k < self.mappings@.len()
        &&& self.mappings@[k].0 <= i < self.mappings@[k].1
        &&& forall|j: int|
            0 <= j < k ==> !((#[trigger] self.mappings@[j]).0 <= i < self.mappings@[j].1)
    }

    /// Whether page `i` may be part of a huge page: unless the mapping that
    /// holds it is known to have none.
    pub open spec fn may_be_huge(self, i: int) -> bool {
        forall|k: int| #[trigger] self.mapping_of(k, i) ==> self.mappings@[k].2
    }

    /// Whether the `k`-th anonymous range is the first that is not behind the
    /// scan.
    pub open spec fn extent_ahead(self, k: int) -> bool {
        &&& 0 <= k < self.extents@.len()
        &&& self.next < self.extents@[k].1
        &&& forall|j: int| 0 <= j < k ==> (#[trigger] self.extents@[j]).1 <= self.next
    }

    /// Whether `block` is the block at page `first` of the `k`-th anonymous
    /// range.
    pub open spec fn block_at(self, page: int, huge_page: int, k: int, first: int, block: Block) -> bool {
        let huge = huge_page / page;
        let ahead = huge - (self.base as int / page + first) % huge;
        let left = self.extents@[k].1 - first;
        &&& block.first == first
        &&& block.addr == self.base + first * page
        &&& block.count == if ahead < left {
            ahead
        } else {
            left
        }
        &&& block.whole == (block.count == huge)
        &&& block.spare == self.may_be_huge(first)
    }

    /// Whether `step` is what comes next for this scan and `after` the scan
    /// once the step is taken. A run never spans an overlay.
    pub open spec fn steps(self, page: int, huge_page: int, after: MemoryScan, step: ScanStep) -> bool {
        &&& after.same_memory(self)
        &&& match step {
            ScanStep::Finished { release } => {
                &&& forall|k: int|
                    0 <= k < self.extents@.len() ==> (#[trigger] self.extents@[k]).1 <= self.next
                &&& release == self.pending
                &&& after.next == self.pages
                &&& after.pending is None
            },
            ScanStep::Look { release, block } => exists|k: int|
                {
                    let start = self.extents@[k].0;
                    &&& #[trigger] self.extent_ahead(k)
                    &&& if self.next < start {
                        &&& release == self.pending
                        &&& after.next == start
                        &&& after.pending is None
                    } else {
                        &&& release is None
                        &&& after.next == self.next
                        &&& after.pending == self.pending
                    }
                    &&& self.block_at(page, huge_page, k, after.next as int, block)
                },
        }
    }

    /// Whether `block` starts where the scan is and lies in one anonymous
    /// range.
    pub open spec fn holds_block(self, block: Block) -> bool {
        &&& block.first == self.next
        &&& block.count > 0
        &&& exists|k: int|
            0 <= k < self.extents@.len() && (#[trigger] self.extents@[k]).0 <= block.first
                && block.first + block.count <= self.extents@[k].1
    }

    /// The block at the scan's position, clipped to the anonymous range it is
    /// in. Between ranges the scan skips to the next one.
    pub fn next_block(&mut self, page: usize, huge_page: usize) -> (step: ScanStep)
        requires
            old(self).ordered(),
            old(self).aligned(page as int),
            page > 0,
            huge_page > 0,
            huge_page % page == 0,
        ensures
            old(self).steps(page as int, huge_page as int, *final(self), step),
            final(self).ordered(),
            step matches ScanStep::Look { block, .. } ==> final(self).holds_block(block),
    {
        let mut k: usize = 0;
        while k < self.extents.len() && self.extents[k].1 <= self.next
            invariant
                *self == *old(self),
                k <= self.extents@.len(),
                forall|j: int| 0 <= j < k ==> (#[trigger] self.extents@[j]).1 <= self.next,
            decreases self.extents@.len() - k,
        {
            k = k + 1;
        }
        if k >= self.extents.len() {
            let release = self.pending;
            self.pending = None;
            self.next = self.pages;
            return ScanStep::Finished { release };
        }
        let (start, end) = self.extents[k];
        assert(old(self).extent_ahead(k as int));
        let mut release: Option<(usize, usize)> = None;
        if self.next < start {
            release = self.pending;
            self.pending = None;
            self.next = start;
        }
        let first: usize = self.next;
        let huge: usize = huge_page / page;
        proof {
            assert(huge >= 1) by (nonlinear_arith)
                requires
                    huge == huge_page / page,
                    huge_page > 0,
                    page > 0,
                    huge_page % page == 0,
            ;
            assert(self.base / page + first <= self.base + self.pages * page) by (nonlinear_arith)
                requires
                    page > 0,
                    first <= self.pages,
            ;
            assert(self.base + first * page <= self.base + self.pages * page) by (nonlinear_arith)
                requires
                    page > 0,
                    first <= self.pages,
            ;
            assert(first * page <= self.pages * page) by (nonlinear_arith)
                requires
                    page > 0,
                    first <= self.pages,
            ;
            assert(self.extents@[k as int].0 <= first);
        }
        let ahead: usize = huge - (self.base / page + first) % huge;
        let left: usize = end - first;
        let count: usize = if ahead < left {
            ahead
        } else {
            left
        };
        let mut m: usize = 0;
        while m < self.mappings.len() && !(self.mappings[m].0 <= first && first
            < self.mappings[m].1)
            invariant
                m <= self.mappings@.len(),
                forall|j: int|
                    0 <= j < m ==> !((#[trigger] self.mappings@[j]).0 <= first
                        < self.mappings@[j].1),
            decreases self.mappings@.len() - m,
        {
            m = m + 1;
        }
        let spare: bool = m >= self.mappings.len() || self.mappings[m].2;
        proof {
            assert(spare == old(self).may_be_huge(first as int)) by {
                if m < self.mappings@.len() {
                    assert(old(self).mapping_of(m as int, first as int));
                    assert forall|q: int| #[trigger]
                        old(self).mapping_of(q, first as int) implies q == m by {
                        if q < m {
                            assert(!(self.mappings@[q].0 <= first < self.mappings@[q].1));
                        } else if q > m {
                            assert(old(self).mappings@[m as int].0 <= first);
                        }
                    }
                }
            }
        }
        let block = Block {
            addr: self.base + first * page,
            first,
            count,
            whole: count == huge,
            spare,
        };
        proof {
            assert(old(self).block_at(page as int, huge_page as int, k as int, first as int, block));
        }
        ScanStep::Look { release, block }
    }

    /// Gives up the rest of the memory, where its pages cannot be looked at:
    /// they are kept, and only the run found so far is released.
    pub fn abandon(&mut self) -> (release: Option<(usize, usize)>)
        requires
            old(self).ordered(),
        ensures
            final(self).same_memory(*old(self)),
            final(self).ordered(),
            final(self).next == old(self).pages,
            final(self).pending is None,
            release == old(self).pending,
    {
        let release = self.pending;
        self.pending = None;
        self.next = self.pages;
        release
    }

    /// Whether page `i` is to be released once the pages up to `next` have
    /// been judged.
    pub open spec fn goes(self, drop: Seq<bool>, next: int, i: int) -> bool {
        in_range(self.pending, i) || (self.next <= i < next && drop[i - self.next])
    }

    /// Whether `runs` are to be released, and `after` is the scan, once the
    /// next pages have been looked at and `drop` tells which of them go. The
    /// pages that go and the run pending so far are given out as whole runs;
    /// the last one stays pending while it may still grow.
    pub open spec fn drops(
        self,
        drop: Seq<bool>,
        after: MemoryScan,
        runs: Seq<(usize, usize)>,
    ) -> bool {
        &&& after.same_memory(self)
        &&& after.next == self.next + drop.len()
        &&& apart(runs)
        &&& forall|i: int| #[trigger] held(runs, after.pending, i) == self.goes(drop, after.next as int, i)
        &&& after.pending is Some ==> {
            &&& (after.pending->0).1 == after.next
            &&& forall|k: int|
                0 <= k < runs.len() ==> (#[trigger] runs[k]).1 < (after.pending->0).0
        }
        &&& after.next < self.pages ==> forall|k: int|
            0 <= k < runs.len() ==> (#[trigger] runs[k]).1 < after.next
        &&& after.next == self.pages ==> after.pending is None
        &&& range_pages(runs) + pages_in(after.pending) == pages_in(self.pending) + set_flags(drop)
    }

    /// Takes the verdict on a block's pages: merges those that go with the
    /// run left pending by the block before, and gives out the runs that are
    /// complete.
    pub fn finish_block(&mut self, block: Block, drop: &[bool]) -> (runs: Vec<(usize, usize)>)
        requires
            old(self).ordered(),
            old(self).holds_block(block),
            drop@.len() == block.count,
        ensures
            old(self).drops(drop@, *final(self), runs@),
            final(self).ordered(),
    {
        let mut runs: Vec<(usize, usize)> = Vec::new();
        let mut offset: usize = 0;
        let first: usize = self.next;
        let mut pending = self.pending;
        let ghost before = *self;
        let ghost extent = choose|k: int|
            0 <= k < before.extents@.len() && (#[trigger] before.extents@[k]).0 <= block.first
                && block.first + block.count <= before.extents@[k].1;
        proof {
            assert forall|i: int| #[trigger] held(runs@, pending, i) == before.goes(drop@, first as int, i) by {
            }
        }
        while offset < drop.len()
            invariant
                offset <= drop@.len(),
                drop@.len() == block.count,
                *self == before,
                before.ordered(),
                0 <= extent < before.extents@.len(),
                before.extents@[extent].0 <= first,
                first + block.count <= before.extents@[extent].1,
                first == before.next,
                apart(runs@),
                pending is Some ==> (pending->0).0 < (pending->0).1 && (pending->0).1 == first
                    + offset,
                forall|k: int| 0 <= k < runs@.len() ==> (#[trigger] runs@[k]).1 < first + offset,
                pending is Some ==> forall|k: int|
                    0 <= k < runs@.len() ==> (#[trigger] runs@[k]).1 < (pending->0).0,
                forall|i: int| #[trigger] held(runs@, pending, i) == before.goes(drop@, first + offset, i),
                range_pages(runs@) + pages_in(pending) == pages_in(before.pending) + set_flags(
                    drop@.take(offset as int),
                ),
            decreases drop@.len() - offset,
        {
            let index: usize = first + offset;
            let ghost runs_before = runs@;
            let ghost pending_before = pending;
            if !drop[offset] {
                if let Some(run) = pending {
                    runs.push(run);
                    pending = None;
                    proof {
                        assert(runs@ =~= runs_before.insert(runs_before.len() as int, run));
                    }
                }
            } else {
                match pending {
                    Some(run) => {
                        pending = Some((run.0, index + 1));
                    },
                    None => {
                        pending = Some((index, index + 1));
                    },
                }
            }
            proof {
                assert(drop@.take(offset + 1).drop_last() =~= drop@.take(offset as int));
                if runs@ != runs_before {
                    assert(runs@.drop_last() =~= runs_before);
                }
                assert forall|i: int| #[trigger] held(runs@, pending, i) == before.goes(drop@, first + offset + 1, i) by {
                    if runs@ != runs_before {
                        lemma_insert_ranges(runs_before, runs@, pending_before->0, i);
                    }
                    assert(held(runs_before, pending_before, i) == before.goes(drop@, first + offset, i));
                }
            }
            offset = offset + 1;
        }
        proof {
            assert(drop@.take(offset as int) =~= drop@);
        }
        self.next = first + offset;
        if self.next >= self.pages {
            let ghost runs_before = runs@;
            if let Some(run) = pending {
                runs.push(run);
                pending = None;
                proof {
                    assert(runs@ =~= runs_before.insert(runs_before.len() as int, run));
                    assert(runs@.drop_last() =~= runs_before);
                    assert forall|i: int| #[trigger] held(runs@, pending, i) == before.goes(drop@, first + offset, i) by {
                        lemma_insert_ranges(runs_before, runs@, run, i);
                        assert(held(runs_before, Some(run), i) == before.goes(drop@, first + offset, i));
                    }
                }
            }
        }
        self.pending = pending;
        proof {
            assert forall|i: int| self.pending is Some && (self.pending->0).0 <= i
                < (self.pending->0).1 implies #[trigger] self.anonymous(i) by {
                assert(held(runs@, pending, i));
                if in_range(before.pending, i) {
                    assert(before.anonymous(i));
                    assert(self.extents@ == before.extents@);
                } else {
                    assert(self.extents@[extent].0 <= i < self.extents@[extent].1);
                }
            }
        }
        runs
    }
}

/// How many of the pages are resident: the low bit of a page's byte tells.
pub open spec fn resident_pages(resident: Seq<u8>) -> int
    decreases resident.len(),
{
    if resident.len() == 0 {
        0
    } else {
        resident_pages(resident.drop_last()) + if resident.last() & 1 != 0 {
            1int
        } else {
            0
        }
    }
}

/// How many of the flags are set.
pub open spec fn set_flags(flags: Seq<bool>) -> int
    decreases flags.len(),
{
    if flags.len() == 0 {
        0
    } else {
        set_flags(flags.drop_last()) + if flags.last() {
            1int
        } else {
            0
        }
    }
}

/// Which pages go: those that are resident and zero.
pub open spec fn zero_resident(resident: Seq<u8>, zero: Seq<bool>) -> Seq<bool> {
    Seq::new(resident.len(), |i: int| resident[i] & 1 != 0 && zero[i])
}

/// Whether every page is resident.
pub open spec fn fully_resident(resident: Seq<u8>) -> bool {
    forall|i: int| 0 <= i < resident.len() ==> (#[trigger] resident[i]) & 1 != 0
}

/// Whether the words are all zero.
pub fn is_zero(words: &[u64]) -> (r: bool)
    ensures
        r == (forall|i: int| 0 <= i < words@.len() ==> (#[trigger] words@[i]) == 0),
{
    let mut i: usize = 0;
    while i < words.len()
        invariant
            i <= words@.len(),
            forall|j: int| 0 <= j < i ==> (#[trigger] words@[j]) == 0,
        decreases words@.len() - i,
    {
        if words[i] != 0 {
            return false;
        }
        i = i + 1;
    }
    true
}

impl Block {
    /// Whether one read decides on the whole block, given which of its pages
    /// are resident: it may be one huge page, which is never split.
    pub open spec fn goes_whole(self, resident: Seq<u8>) -> bool {
        self.spare && self.whole && fully_resident(resident)
    }

    /// Whether the block goes whole or not at all.
    pub fn is_judged_whole(&self, resident: &[u8]) -> (r: bool)
        ensures
            r == self.goes_whole(resident@),
    {
        if !self.spare || !self.whole {
            return false;
        }
        let mut i: usize = 0;
        while i < resident.len()
            invariant
                i <= resident@.len(),
                forall|j: int| 0 <= j < i ==> (#[trigger] resident@[j]) & 1 != 0,
            decreases resident@.len() - i,
        {
            if resident[i] & 1 == 0 {
                return false;
            }
            i = i + 1;
        }
        true
    }
}

/// The pages of every memory under scan.
pub open spec fn total_pages(memories: Seq<MemoryScan>) -> int
    decreases memories.len(),
{
    if memories.len() == 0 {
        0
    } else {
        total_pages(memories.drop_last()) + memories.last().pages
    }
}

/// How many pages the scans are past, over all memories.
pub open spec fn progress(memories: Seq<MemoryScan>) -> int
    decreases memories.len(),
{
    if memories.len() == 0 {
        0
    } else {
        progress(memories.drop_last()) + memories.last().next
    }
}

/// How many pages are in pending runs, over all memories.
pub open spec fn pending_pages(memories: Seq<MemoryScan>) -> int
    decreases memories.len(),
{
    if memories.len() == 0 {
        0
    } else {
        pending_pages(memories.drop_last()) + pages_in(memories.last().pending)
    }
}

proof fn lemma_progress(memories: Seq<MemoryScan>, k: int, after: MemoryScan)
    requires
        0 <= k < memories.len(),
    ensures
        pending_pages(memories.update(k, after)) == pending_pages(memories) - pages_in(
            memories[k].pending,
        ) + pages_in(after.pending),
        progress(memories.update(k, after)) == progress(memories) - memories[k].next + after.next,
        total_pages(memories.update(k, after)) == total_pages(memories) - memories[k].pages
            + after.pages,
    decreases memories.len(),
{
    let now = memories.update(k, after);
    if k == memories.len() - 1 {
        assert(now.drop_last() =~= memories.drop_last());
    } else {
        lemma_progress(memories.drop_last(), k, after);
        assert(now.drop_last() =~= memories.drop_last().update(k, after));
    }
}

proof fn lemma_progress_bounded(memories: Seq<MemoryScan>)
    requires
        forall|k: int| 0 <= k < memories.len() ==> (#[trigger] memories[k]).ordered(),
    ensures
        0 <= progress(memories) <= total_pages(memories),
        pending_pages(memories) >= 0,
    decreases memories.len(),
{
    if memories.len() > 0 {
        lemma_progress_bounded(memories.drop_last());
    }
}

/// The release of a frozen guest's all-zero pages, block by block.
///
/// Every resident, entirely zero page of each private anonymous linear
/// memory is given back. The guest cannot tell: the next touch of such a
/// page reads zeros again. A shared file overlay inside a memory is not the
/// guest's anonymous memory and is not even looked at. A block that is one
/// huge page's worth of memory, with every page resident, may be one huge
/// page, and dropping part of it would split it: while its mapping may hold
/// huge pages it is dropped only when it is zero throughout.
#[derive(Debug)]
pub struct Compaction {
    pub page: usize,
    pub huge_page: usize,
    pub memories: Vec<MemoryScan>,
    pub totals: ZeroPages,
    /// The memory and the block that are being looked at.
    pub looking: Option<(usize, Block)>,
    /// How many pages have been given out in runs to release of which it is
    /// not settled yet whether they were.
    pub owed: usize,
}

/// What a compaction does next.
#[derive(Clone, Copy, Debug)]
pub enum CompactionStep {
    /// Every memory has been scanned.
    Done,
    /// A memory has been scanned; its last run, if any, is to be released.
    Finished { memory: usize, release: Option<(usize, usize)> },
    /// The run, if any, is to be released, and the block looked at.
    Look { memory: usize, release: Option<(usize, usize)>, block: Block },
}

impl Compaction {
    /// The invariant of a compaction. The counters never exceed the pages
    /// the scans are past, and only zero pages are released, given out to be
    /// or pending, each of them once.
    pub open spec fn valid(self) -> bool {
        &&& self.page > 0
        &&& self.huge_page > 0
        &&& self.huge_page % self.page == 0
        &&& forall|k: int|
            0 <= k < self.memories@.len() ==> (#[trigger] self.memories@[k]).ordered()
                && self.memories@[k].aligned(self.page as int)
        &&& total_pages(self.memories@) <= usize::MAX
        &&& self.totals.resident <= progress(self.memories@)
        &&& self.totals.zero <= self.totals.resident
        &&& self.totals.kept_blocks <= self.totals.resident
        &&& self.totals.released + self.owed + pending_pages(self.memories@) <= self.totals.zero
        &&& self.totals.runs <= self.totals.released
        &&& self.looking is Some ==> {
            &&& (self.looking->0).0 < self.memories@.len()
            &&& self.memories@[(self.looking->0).0 as int].holds_block((self.looking->0).1)
        }
    }

    /// Whether the `k`-th memory is the first that is not scanned.
    pub open spec fn unfinished(self, k: int) -> bool {
        &&& 0 <= k < self.memories@.len()
        &&& self.memories@[k].next < self.memories@[k].pages
        &&& forall|j: int|
            0 <= j < k ==> (#[trigger] self.memories@[j]).next >= self.memories@[j].pages
    }

    /// Whether every memory has been scanned.
    pub open spec fn done(self) -> bool {
        forall|k: int|
            0 <= k < self.memories@.len() ==> (#[trigger] self.memories@[k]).next
                >= self.memories@[k].pages
    }

    /// Whether every memory has been scanned.
    pub fn is_done(&self) -> (r: bool)
        ensures
            r == self.done(),
    {
        let mut k: usize = 0;
        while k < self.memories.len()
            invariant
                k <= self.memories@.len(),
                forall|j: int|
                    0 <= j < k ==> (#[trigger] self.memories@[j]).next >= self.memories@[j].pages,
            decreases self.memories@.len() - k,
        {
            if self.memories[k].next < self.memories[k].pages {
                return false;
            }
            k = k + 1;
        }
        true
    }

    /// Whether a slice goes on after a block: its time is not up and something
    /// is left to scan. The first block of a slice is dealt with in any case.
    pub fn goes_on(&self, expired: bool) -> (r: bool)
        ensures
            r == (!expired && !self.done()),
    {
        !expired && !self.is_done()
    }

    /// Whether the scan of the same memories has moved on.
    pub open spec fn advances(self, after: Compaction) -> bool {
        &&& total_pages(after.memories@) == total_pages(self.memories@)
        &&& progress(after.memories@) > progress(self.memories@)
    }

    /// Takes up the next block of the first memory that is not scanned.
    pub fn step(&mut self) -> (step: CompactionStep)
        requires
            old(self).valid(),
            old(self).looking is None,
        ensures
            final(self).valid(),
            step is Done <==> old(self).done(),
            step is Finished ==> old(self).advances(*final(self)),
            final(self).owed == old(self).owed + match step {
                CompactionStep::Done => 0,
                CompactionStep::Finished { release, .. } => pages_in(release),
                CompactionStep::Look { release, .. } => pages_in(release),
            },
            final(self).page == old(self).page,
            final(self).huge_page == old(self).huge_page,
            final(self).totals == old(self).totals,
            match step {
                CompactionStep::Done => old(self).done() && *final(self) == *old(self),
                CompactionStep::Finished { memory, release } => {
                    let m = memory as int;
                    &&& old(self).unfinished(m)
                    &&& final(self).memories@ == old(self).memories@.update(
                        m,
                        final(self).memories@[m],
                    )
                    &&& old(self).memories@[m].steps(
                        old(self).page as int,
                        old(self).huge_page as int,
                        final(self).memories@[m],
                        ScanStep::Finished { release },
                    )
                    &&& final(self).looking is None
                },
                CompactionStep::Look { memory, release, block } => {
                    let m = memory as int;
                    &&& old(self).unfinished(m)
                    &&& final(self).memories@ == old(self).memories@.update(
                        m,
                        final(self).memories@[m],
                    )
                    &&& old(self).memories@[m].steps(
                        old(self).page as int,
                        old(self).huge_page as int,
                        final(self).memories@[m],
                        ScanStep::Look { release, block },
                    )
                    &&& final(self).looking == Some((memory, block))
                },
            },
    {
        let mut memory: usize = 0;
        while memory < self.memories.len() && self.memories[memory].next
            >= self.memories[memory].pages
            invariant
                *self == *old(self),
                memory <= self.memories@.len(),
                forall|j: int|
                    0 <= j < memory ==> (#[trigger] self.memories@[j]).next
                        >= self.memories@[j].pages,
            decreases self.memories@.len() - memory,
        {
            memory = memory + 1;
        }
        if memory >= self.memories.len() {
            return CompactionStep::Done;
        }
        let page: usize = self.page;
        let huge_page: usize = self.huge_page;
        let ghost before = self.memories@;
        let step = self.memories[memory].next_block(page, huge_page);
        proof {
            lemma_progress(before, memory as int, self.memories@[memory as int]);
            assert(self.memories@ =~= before.update(memory as int, self.memories@[memory as int]));
            assert(before[memory as int].next <= self.memories@[memory as int].next);
            lemma_progress_bounded(self.memories@);
            assert(!old(self).done()) by {
                assert(old(self).memories@[memory as int].next
                    < old(self).memories@[memory as int].pages);
            }
        }
        match step {
            ScanStep::Finished { release } => {
                self.owe(release);
                CompactionStep::Finished { memory, release }
            },
            ScanStep::Look { release, block } => {
                self.owe(release);
                self.looking = Some((memory, block));
                CompactionStep::Look { memory, release, block }
            },
        }
    }

    /// A run is given out to be released.
    fn owe(&mut self, release: Option<(usize, usize)>)
        requires
            pages_in(release) >= 0,
            old(self).owed + pages_in(release) <= usize::MAX,
        ensures
            final(self).owed == old(self).owed + pages_in(release),
            *final(self) == (Compaction { owed: final(self).owed, ..*old(self) }),
    {
        if let Some((start, end)) = release {
            self.owed = self.owed + (end - start);
        }
    }

    /// The block's pages could not be looked at: gives up the rest of its
    /// memory and returns the run to release.
    pub fn abandon(&mut self) -> (release: Option<(usize, usize)>)
        requires
            old(self).valid(),
            old(self).looking is Some,
        ensures
            final(self).valid(),
            old(self).advances(*final(self)),
            final(self).owed == old(self).owed + pages_in(release),
            final(self).page == old(self).page,
            final(self).huge_page == old(self).huge_page,
            final(self).totals == old(self).totals,
            final(self).looking is None,
            ({
                let m = (old(self).looking->0).0 as int;
                let after = final(self).memories@[m];
                &&& final(self).memories@ == old(self).memories@.update(m, after)
                &&& after.same_memory(old(self).memories@[m])
                &&& after.next == after.pages
                &&& after.pending is None
                &&& release == old(self).memories@[m].pending
            }),
    {
        match self.looking {
            Some((memory, _)) => {
                let ghost before = self.memories@;
                let release = self.memories[memory].abandon();
                proof {
                    lemma_progress(before, memory as int, self.memories@[memory as int]);
                    assert(self.memories@ =~= before.update(
                        memory as int,
                        self.memories@[memory as int],
                    ));
                    lemma_progress_bounded(self.memories@);
                }
                self.owe(release);
                self.looking = None;
                release
            },
            None => None,
        }
    }

    /// Whether the verdict on the block being looked at has been taken:
    /// `runs` are the runs that are now complete.
    pub open spec fn judges(self, drop: Seq<bool>, after: Compaction, runs: Seq<(usize, usize)>) -> bool {
        let m = (self.looking->0).0 as int;
        &&& after.page == self.page
        &&& after.huge_page == self.huge_page
        &&& after.looking is None
        &&& after.memories@ == self.memories@.update(m, after.memories@[m])
        &&& self.memories@[m].drops(drop, after.memories@[m], runs)
        &&& self.advances(after)
        &&& after.owed == self.owed + range_pages(runs)
    }

    /// Takes the verdict on the pages of the block being looked at.
    fn judge(&mut self, drop: &[bool]) -> (runs: Vec<(usize, usize)>)
        requires
            old(self).looking is Some,
            (old(self).looking->0).0 < old(self).memories@.len(),
            old(self).memories@[(old(self).looking->0).0 as int].holds_block(
                (old(self).looking->0).1,
            ),
            forall|k: int|
                0 <= k < old(self).memories@.len() ==> (
                #[trigger] old(self).memories@[k]).ordered(),
            drop@.len() == (old(self).looking->0).1.count,
            old(self).owed + pending_pages(old(self).memories@) + set_flags(drop@) <= usize::MAX,
        ensures
            old(self).judges(drop@, *final(self), runs@),
            final(self).memories@[(old(self).looking->0).0 as int].ordered(),
            progress(final(self).memories@) == progress(old(self).memories@) + drop@.len(),
            range_pages(runs@) + pending_pages(final(self).memories@) == pending_pages(
                old(self).memories@,
            ) + set_flags(drop@),
            final(self).totals == old(self).totals,
    {
        match self.looking {
            Some((memory, block)) => {
                let ghost before = self.memories@;
                let runs = self.memories[memory].finish_block(block, drop);
                let pages: usize = self.memories[memory].pages;
                proof {
                    let m = memory as int;
                    let scan = self.memories@[m];
                    lemma_progress(before, m, scan);
                    assert(self.memories@ =~= before.update(m, scan));
                    assert forall|k: int| 0 <= k < runs@.len() implies (#[trigger] runs@[k]).1
                        <= pages by {
                        let last = runs@[k].1 - 1;
                        assert(runs@[k].0 <= last < runs@[k].1);
                        assert(held(runs@, scan.pending, last));
                        assert(before[m].goes(drop@, scan.next as int, last));
                    }
                    lemma_progress_bounded(self.memories@);
                }
                let given: usize = count_pages(&runs, pages);
                self.owed = self.owed + given;
                self.looking = None;
                runs
            },
            None => Vec::new(),
        }
    }

    /// Takes the verdict on a block that goes whole or not at all: whether it
    /// is zero throughout. Returns the runs to release.
    pub fn judge_whole(&mut self, zero: bool) -> (runs: Vec<(usize, usize)>)
        requires
            old(self).valid(),
            old(self).looking is Some,
            (old(self).looking->0).1.whole,
            (old(self).looking->0).1.spare,
        ensures
            final(self).valid(),
            ({
                let count = (old(self).looking->0).1.count;
                &&& old(self).judges(
                    Seq::new(count as nat, |i: int| zero),
                    *final(self),
                    runs@,
                )
                &&& final(self).totals == ZeroPages {
                    resident: (old(self).totals.resident + count) as usize,
                    zero: (old(self).totals.zero + if zero {
                        count as int
                    } else {
                        0
                    }) as usize,
                    kept_blocks: (old(self).totals.kept_blocks + if zero {
                        0int
                    } else {
                        1
                    }) as usize,
                    ..old(self).totals
                }
                &&& old(self).totals.resident + count <= usize::MAX
            }),
    {
        match self.looking {
            Some((_, block)) => {
                proof {
                    self.lemma_room(block);
                }
                let mut drop: Vec<bool> = Vec::new();
                let mut i: usize = 0;
                while i < block.count
                    invariant
                        i <= block.count,
                        drop@ == Seq::new(i as nat, |i: int| zero),
                    decreases block.count - i,
                {
                    drop.push(zero);
                    proof {
                        assert(drop@ =~= Seq::new((i + 1) as nat, |i: int| zero));
                    }
                    i = i + 1;
                }
                proof {
                    lemma_uniform_flags(block.count as nat, zero);
                    assert(drop@ =~= Seq::new(block.count as nat, |i: int| zero));
                }
                let runs = self.judge(&drop);
                proof {
                    lemma_progress_bounded(self.memories@);
                }
                self.totals.resident = self.totals.resident + block.count;
                if zero {
                    self.totals.zero = self.totals.zero + block.count;
                } else {
                    self.totals.kept_blocks = self.totals.kept_blocks + 1;
                }
                runs
            },
            None => Vec::new(),
        }
    }

    /// Takes the verdict on a block page by page: which pages are resident
    /// and which of those are zero. Returns the runs to release.
    pub fn judge_pages(&mut self, resident: &[u8], zero: &[bool]) -> (runs: Vec<(usize, usize)>)
        requires
            old(self).valid(),
            old(self).looking is Some,
            resident@.len() == (old(self).looking->0).1.count,
            zero@.len() == resident@.len(),
            !(old(self).looking->0).1.goes_whole(resident@),
        ensures
            final(self).valid(),
            old(self).judges(zero_resident(resident@, zero@), *final(self), runs@),
            final(self).totals == (ZeroPages {
                resident: (old(self).totals.resident + resident_pages(resident@)) as usize,
                zero: (old(self).totals.zero + set_flags(
                    zero_resident(resident@, zero@),
                )) as usize,
                ..old(self).totals
            }),
            old(self).totals.resident + resident_pages(resident@) <= usize::MAX,
    {
        match self.looking {
            Some((_, block)) => {
                proof {
                    self.lemma_room(block);
                }
                let ghost verdict = zero_resident(resident@, zero@);
                let mut drop: Vec<bool> = Vec::new();
                let mut found: usize = 0;
                let mut zeros: usize = 0;
                let mut i: usize = 0;
                while i < resident.len()
                    invariant
                        i <= resident@.len(),
                        zero@.len() == resident@.len(),
                        verdict == zero_resident(resident@, zero@),
                        drop@ == verdict.take(i as int),
                        found == resident_pages(resident@.take(i as int)),
                        zeros == set_flags(verdict.take(i as int)),
                        zeros <= found <= i,
                    decreases resident@.len() - i,
                {
                    proof {
                        assert(resident@.take(i + 1).drop_last() =~= resident@.take(i as int));
                        assert(verdict.take(i + 1).drop_last() =~= verdict.take(i as int));
                        assert(verdict.take(i + 1) =~= verdict.take(i as int).push(
                            verdict[i as int],
                        ));
                    }
                    let mut goes: bool = false;
                    if resident[i] & 1 != 0 {
                        found = found + 1;
                        goes = zero[i];
                        if goes {
                            zeros = zeros + 1;
                        }
                    }
                    drop.push(goes);
                    i = i + 1;
                }
                proof {
                    assert(verdict.take(verdict.len() as int) =~= verdict);
                    assert(resident@.take(resident@.len() as int) =~= resident@);
                }
                let runs = self.judge(&drop);
                proof {
                    lemma_progress_bounded(self.memories@);
                }
                self.totals.resident = self.totals.resident + found;
                self.totals.zero = self.totals.zero + zeros;
                runs
            },
            None => Vec::new(),
        }
    }

    /// There is room in the counters for a block that is being looked at.
    proof fn lemma_room(self, block: Block)
        requires
            self.valid(),
            self.looking matches Some((_, looked_at)) && looked_at == block,
        ensures
            self.totals.resident + block.count <= usize::MAX,
            self.owed + pending_pages(self.memories@) + block.count <= usize::MAX,
            progress(self.memories@) + block.count <= usize::MAX,
    {
        let m = (self.looking->0).0 as int;
        let scan = self.memories@[m];
        let past = MemoryScan {
            next: (scan.next + block.count) as usize,
            pending: None,
            ..scan
        };
        let k = choose|k: int|
            0 <= k < scan.extents@.len() && (#[trigger] scan.extents@[k]).0 <= block.first
                && block.first + block.count <= scan.extents@[k].1;
        assert(scan.extents@[k].1 <= scan.pages);
        let later = self.memories@.update(m, past);
        lemma_progress(self.memories@, m, past);
        assert forall|k: int| 0 <= k < later.len() implies (#[trigger] later[k]).ordered() by {
            if k != m {
                assert(later[k] == self.memories@[k]);
            }
        }
        lemma_progress_bounded(later);
        lemma_progress_bounded(self.memories@);
    }

    /// Counts a run that was given out and has been released.
    pub fn released(&mut self, run: (usize, usize))
        requires
            old(self).valid(),
            run.0 < run.1,
            run.1 - run.0 <= old(self).owed,
        ensures
            final(self).valid(),
            *final(self) == (Compaction {
                totals: ZeroPages {
                    released: (old(self).totals.released + (run.1 - run.0)) as usize,
                    runs: (old(self).totals.runs + 1) as usize,
                    ..old(self).totals
                },
                owed: (old(self).owed - (run.1 - run.0)) as usize,
                ..*old(self)
            }),
            old(self).totals.released + (run.1 - run.0) <= old(self).totals.zero,
    {
        proof {
            lemma_progress_bounded(self.memories@);
        }
        let pages: usize = run.1 - run.0;
        self.totals.released = self.totals.released + pages;
        self.totals.runs = self.totals.runs + 1;
        self.owed = self.owed - pages;
    }

    /// A run that was given out could not be released: its pages are kept.
    pub fn kept(&mut self, run: (usize, usize))
        requires
            old(self).valid(),
            run.0 < run.1,
            run.1 - run.0 <= old(self).owed,
        ensures
            final(self).valid(),
            *final(self) == (Compaction {
                owed: (old(self).owed - (run.1 - run.0)) as usize,
                ..*old(self)
            }),
    {
        self.owed = self.owed - (run.1 - run.0);
    }
}

proof fn lemma_uniform_flags(count: nat, flag: bool)
    ensures
        set_flags(Seq::new(count, |i: int| flag)) == if flag {
            count as int
        } else {
            0
        },
    decreases count,
{
    if count > 0 {
        lemma_uniform_flags((count - 1) as nat, flag);
        assert(Seq::new(count, |i: int| flag).drop_last() =~= Seq::new(
            (count - 1) as nat,
            |i: int| flag,
        ));
    }
}

/// Every step moves the scan on, so it ends: no more than one block for each
/// page is dealt with. Once every memory is scanned, it is past all their
/// pages.
pub proof fn law_the_scan_ends(states: Seq<Compaction>)
    requires
        states.len() > 0,
        forall|k: int| 0 <= k < states.len() ==> (#[trigger] states[k]).valid(),
        forall|k: int| 0 < k < states.len() ==> states[k - 1].advances(#[trigger] states[k]),
    ensures
        states.len() - 1 <= progress(states.last().memories@) - progress(states[0].memories@),
        states.len() - 1 <= total_pages(states[0].memories@),
        total_pages(states.last().memories@) == total_pages(states[0].memories@),
        states.last().done() <==> progress(states.last().memories@) == total_pages(
            states[0].memories@,
        ),
    decreases states.len(),
{
    let last = states.last();
    lemma_progress_bounded(states[0].memories@);
    lemma_progress_bounded(last.memories@);
    if states.len() > 1 {
        let before = states.drop_last();
        assert(states[states.len() - 2].advances(states[states.len() - 1]));
        assert forall|k: int| 0 <= k < before.len() implies (#[trigger] before[k]).valid() by {
            assert(before[k] == states[k]);
        }
        assert forall|k: int| 0 < k < before.len() implies before[k - 1].advances(
            #[trigger] before[k],
        ) by {
            assert(states[k - 1].advances(states[k]));
        }
        law_the_scan_ends(before);
    }
    lemma_done(last.memories@);
    assert(last.done() <==> forall|k: int|
        0 <= k < last.memories@.len() ==> (#[trigger] last.memories@[k]).next
            >= last.memories@[k].pages);
}

proof fn lemma_done(memories: Seq<MemoryScan>)
    requires
        forall|k: int| 0 <= k < memories.len() ==> (#[trigger] memories[k]).ordered(),
    ensures
        (forall|k: int|
            0 <= k < memories.len() ==> (#[trigger] memories[k]).next >= memories[k].pages)
            <==> progress(memories) == total_pages(memories),
    decreases memories.len(),
{
    if memories.len() > 0 {
        let rest = memories.drop_last();
        lemma_done(rest);
        lemma_progress_bounded(rest);
        let last = memories.len() - 1;
        assert(memories[last] == memories.last());
        if forall|k: int|
            0 <= k < memories.len() ==> (#[trigger] memories[k]).next >= memories[k].pages {
            assert forall|k: int| 0 <= k < rest.len() implies (#[trigger] rest[k]).next
                >= rest[k].pages by {
                assert(memories[k].next >= memories[k].pages);
            }
        }
        if progress(memories) == total_pages(memories) {
            assert forall|k: int| 0 <= k < memories.len() implies (#[trigger] memories[k]).next
                >= memories[k].pages by {
                if k < last {
                    assert(rest[k].next >= rest[k].pages);
                }
            }
        }
    }
}

/// The memories that are scanned: private anonymous and not empty.
pub open spec fn scannable(memories: Seq<LinearMemory>) -> Seq<LinearMemory>
    decreases memories.len(),
{
    if memories.len() == 0 {
        Seq::empty()
    } else {
        let rest = scannable(memories.drop_last());
        if memories.last().private_anonymous && memories.last().len > 0 {
            rest.push(memories.last())
        } else {
            rest
        }
    }
}

/// The pages of all the memories.
pub open spec fn memory_pages(memories: Seq<LinearMemory>, page: int) -> int
    decreases memories.len(),
{
    if memories.len() == 0 {
        0
    } else {
        memory_pages(memories.drop_last(), page) + memories.last().pages(page)
    }
}

/// The pages in the ranges, for ranges that do not overlap.
pub open spec fn range_pages(ranges: Seq<(usize, usize)>) -> int
    decreases ranges.len(),
{
    if ranges.len() == 0 {
        0
    } else {
        range_pages(ranges.drop_last()) + (ranges.last().1 - ranges.last().0)
    }
}

/// The anonymous pages of all the memories under scan.
pub open spec fn anonymous_pages(memories: Seq<MemoryScan>) -> int
    decreases memories.len(),
{
    if memories.len() == 0 {
        0
    } else {
        anonymous_pages(memories.drop_last()) + range_pages(memories.last().extents@)
    }
}

proof fn lemma_range_pages(ranges: Seq<(usize, usize)>, pages: int)
    requires
        apart(ranges),
        forall|k: int| 0 <= k < ranges.len() ==> (#[trigger] ranges[k]).1 <= pages,
        pages >= 0,
    ensures
        0 <= range_pages(ranges) <= pages,
    decreases ranges.len(),
{
    if ranges.len() > 0 {
        let rest = ranges.drop_last();
        assert forall|k: int| 0 <= k < rest.len() implies (#[trigger] rest[k]).1
            <= ranges.last().0 by {
            assert(ranges[k].1 < ranges[ranges.len() - 1].0);
        }
        lemma_range_pages(rest, ranges.last().0 as int);
    }
}

/// The pages in the ranges.
fn count_pages(ranges: &Vec<(usize, usize)>, pages: usize) -> (r: usize)
    requires
        apart(ranges@),
        forall|k: int| 0 <= k < ranges@.len() ==> (#[trigger] ranges@[k]).1 <= pages,
    ensures
        r == range_pages(ranges@),
        r <= pages,
{
    let mut sum: usize = 0;
    let mut n: usize = 0;
    while n < ranges.len()
        invariant
            n <= ranges@.len(),
            apart(ranges@),
            forall|k: int| 0 <= k < ranges@.len() ==> (#[trigger] ranges@[k]).1 <= pages,
            sum == range_pages(ranges@.take(n as int)),
        decreases ranges@.len() - n,
    {
        proof {
            assert(ranges@.take(n + 1).drop_last() =~= ranges@.take(n as int));
            lemma_range_pages(ranges@.take(n + 1), pages as int);
        }
        sum = sum + (ranges[n].1 - ranges[n].0);
        n = n + 1;
    }
    proof {
        assert(ranges@.take(ranges@.len() as int) =~= ranges@);
        lemma_range_pages(ranges@, pages as int);
    }
    sum
}

proof fn lemma_memory_pages_grow(memories: Seq<LinearMemory>, k: int, page: int)
    requires
        0 <= k <= memories.len(),
        page > 0,
    ensures
        0 <= memory_pages(scannable(memories.take(k)), page) <= memory_pages(
            scannable(memories),
            page,
        ),
    decreases memories.len(),
{
    if memories.len() > 0 {
        let rest = memories.drop_last();
        let last = memories.last();
        assert(last.pages(page) >= 0) by (nonlinear_arith)
            requires
                last.pages(page) == pages_for(last.len as int, page),
                page > 0,
                last.len >= 0,
        ;
        if last.private_anonymous && last.len > 0 {
            assert(scannable(rest).push(last).drop_last() =~= scannable(rest));
        }
        if k == memories.len() {
            assert(memories.take(k) =~= memories);
            lemma_memory_pages_grow(rest, k - 1, page);
        } else {
            assert(memories.take(k) =~= rest.take(k));
            lemma_memory_pages_grow(rest, k, page);
        }
    } else {
        assert(memories.take(k) =~= memories);
    }
}

impl Compaction {
    /// Prepares the scan of every private anonymous linear memory, given the
    /// host's page size, the unit huge pages come in and the mappings of the
    /// process with whether they hold huge pages.
    pub fn start(
        page: usize,
        huge_page: usize,
        mappings: &Vec<(usize, usize, bool)>,
        memories: &Vec<LinearMemory>,
    ) -> (r: Self)
        requires
            page > 0,
            huge_page > 0,
            huge_page % page == 0,
            forall|k: int|
                0 <= k < memories@.len() ==> (#[trigger] memories@[k]).mapped(page as int),
            memory_pages(scannable(memories@), page as int) <= usize::MAX,
        ensures
            r.valid(),
            r.page == page,
            r.huge_page == huge_page,
            r.looking is None,
            r.owed == 0,
            r.memories@.len() == scannable(memories@).len(),
            forall|k: int|
                0 <= k < r.memories@.len() ==> (#[trigger] r.memories@[k]).prepared(
                    scannable(memories@)[k],
                    mappings@,
                    page as int,
                ),
            r.totals == (ZeroPages {
                memories: r.memories@.len() as usize,
                scanned: anonymous_pages(r.memories@) as usize,
                overlay: (total_pages(r.memories@) - anonymous_pages(r.memories@)) as usize,
                resident: 0,
                zero: 0,
                released: 0,
                kept_blocks: 0,
                runs: 0,
            }),
            0 <= anonymous_pages(r.memories@) <= total_pages(r.memories@),
    {
        let mut scans: Vec<MemoryScan> = Vec::new();
        let mut scanned: usize = 0;
        let mut pages: usize = 0;
        let mut n: usize = 0;
        while n < memories.len()
            invariant
                n <= memories@.len(),
                page > 0,
                forall|k: int|
                    0 <= k < memories@.len() ==> (#[trigger] memories@[k]).mapped(page as int),
                memory_pages(scannable(memories@), page as int) <= usize::MAX,
                scans@.len() == scannable(memories@.take(n as int)).len(),
                forall|k: int|
                    0 <= k < scans@.len() ==> (#[trigger] scans@[k]).prepared(
                        scannable(memories@.take(n as int))[k],
                        mappings@,
                        page as int,
                    ),
                forall|k: int|
                    0 <= k < scans@.len() ==> (#[trigger] scans@[k]).ordered()
                        && scans@[k].aligned(page as int),
                scanned == anonymous_pages(scans@),
                pages == total_pages(scans@),
                pages == memory_pages(scannable(memories@.take(n as int)), page as int),
                scanned <= pages,
                progress(scans@) == 0,
                pending_pages(scans@) == 0,
            decreases memories@.len() - n,
        {
            proof {
                assert(memories@.take(n + 1).drop_last() =~= memories@.take(n as int));
                assert(memories@.take(n + 1).last() == memories@[n as int]);
                lemma_memory_pages_grow(memories@, n + 1, page as int);
            }
            if memories[n].private_anonymous && memories[n].len > 0 {
                let ghost before = scans@;
                let scan = MemoryScan::prepare(&memories[n], mappings, page);
                let ghost seen = scannable(memories@.take(n as int));
                proof {
                    assert(scannable(memories@.take(n + 1)) == seen.push(memories@[n as int]));
                    assert(seen.push(memories@[n as int]).drop_last() =~= seen);
                }
                let anonymous: usize = count_pages(&scan.extents, scan.pages);
                scanned = scanned + anonymous;
                pages = pages + scan.pages;
                scans.push(scan);
                proof {
                    assert(scans@.drop_last() =~= before);
                    assert forall|k: int| 0 <= k < scans@.len() implies (
                    #[trigger] scans@[k]).prepared(
                        scannable(memories@.take(n + 1))[k],
                        mappings@,
                        page as int,
                    ) by {
                        if k < before.len() {
                            assert(scans@[k] == before[k]);
                            assert(before[k].prepared(seen[k], mappings@, page as int));
                        }
                    }
                }
            }
            n = n + 1;
        }
        proof {
            assert(memories@.take(memories@.len() as int) =~= memories@);
        }
        let count: usize = scans.len();
        Compaction {
            page,
            huge_page,
            memories: scans,
            totals: ZeroPages {
                memories: count,
                scanned,
                overlay: pages - scanned,
                resident: 0,
                zero: 0,
                released: 0,
                kept_blocks: 0,
                runs: 0,
            },
            looking: None,
            owed: 0,
        }
    }
}

/// Whether the runs released so far and the pending one hold exactly the
/// pages behind the scan that are anonymous and go.
pub open spec fn accounted(
    scan: MemoryScan,
    released: Seq<(usize, usize)>,
    goes: spec_fn(int) -> bool,
) -> bool {
    forall|i: int| #[trigger]
        held(released, scan.pending, i) == (0 <= i < scan.next && scan.anonymous(i) && goes(i))
}

/// Whether the runs released so far and the pending one hold only pages that
/// are anonymous and go.
pub open spec fn harmless(
    scan: MemoryScan,
    released: Seq<(usize, usize)>,
    goes: spec_fn(int) -> bool,
) -> bool {
    forall|i: int| #[trigger]
        held(released, scan.pending, i) ==> 0 <= i < scan.pages && scan.anonymous(i) && goes(i)
}

/// A released run, as a sequence.
pub open spec fn as_runs(release: Option<(usize, usize)>) -> Seq<(usize, usize)> {
    match release {
        Some(run) => seq![run],
        None => Seq::empty(),
    }
}

proof fn lemma_more_ranges(a: Seq<(usize, usize)>, b: Seq<(usize, usize)>, i: int)
    ensures
        in_ranges(a + b, i) <==> in_ranges(a, i) || in_ranges(b, i),
{
    if in_ranges(a, i) {
        let k = choose|k: int| 0 <= k < a.len() && (#[trigger] a[k]).0 <= i < a[k].1;
        assert((a + b)[k] == a[k]);
    }
    if in_ranges(b, i) {
        let k = choose|k: int| 0 <= k < b.len() && (#[trigger] b[k]).0 <= i < b[k].1;
        assert((a + b)[a.len() + k] == b[k]);
    }
    if in_ranges(a + b, i) {
        let k = choose|k: int| 0 <= k < (a + b).len() && (#[trigger] (a + b)[k]).0 <= i < (a
            + b)[k].1;
        if k < a.len() {
            assert(a[k] == (a + b)[k]);
        } else {
            assert(b[k - a.len()] == (a + b)[k]);
        }
    }
}

proof fn lemma_as_runs(release: Option<(usize, usize)>, i: int)
    ensures
        in_ranges(as_runs(release), i) <==> in_range(release, i),
{
    if let Some(run) = release {
        assert(as_runs(release)[0] == run);
    }
}

/// A scan that has not begun has released nothing, and owes nothing.
pub proof fn law_scan_begins(scan: MemoryScan, goes: spec_fn(int) -> bool)
    requires
        scan.next == 0,
        scan.pending is None,
    ensures
        accounted(scan, Seq::empty(), goes),
{
}

/// Moving on to the next block, or past the last one, keeps the account: no
/// anonymous page is skipped.
pub proof fn law_step_keeps_account(
    scan: MemoryScan,
    after: MemoryScan,
    step: ScanStep,
    page: int,
    huge_page: int,
    released: Seq<(usize, usize)>,
    goes: spec_fn(int) -> bool,
)
    requires
        scan.ordered(),
        scan.steps(page, huge_page, after, step),
        accounted(scan, released, goes),
    ensures
        match step {
            ScanStep::Finished { release } => accounted(after, released + as_runs(release), goes),
            ScanStep::Look { release, .. } => accounted(after, released + as_runs(release), goes),
        },
{
    let release = match step {
        ScanStep::Finished { release } => release,
        ScanStep::Look { release, .. } => release,
    };
    assert forall|i: int| #[trigger]
        held(released + as_runs(release), after.pending, i) == (0 <= i < after.next
            && after.anonymous(i) && goes(i)) by {
        lemma_more_ranges(released, as_runs(release), i);
        lemma_as_runs(release, i);
        assert(held(released, scan.pending, i) == (0 <= i < scan.next && scan.anonymous(i) && goes(
            i,
        )));
        if scan.next <= i < after.next && scan.anonymous(i) {
            let q = choose|q: int|
                0 <= q < scan.extents@.len() && (#[trigger] scan.extents@[q]).0 <= i
                    < scan.extents@[q].1;
            match step {
                ScanStep::Finished { .. } => {
                    assert(scan.extents@[q].1 <= scan.next);
                },
                ScanStep::Look { block, .. } => {
                    let k = choose|k: int|
                        {
                            let start = scan.extents@[k].0;
                            &&& #[trigger] scan.extent_ahead(k)
                            &&& if scan.next < start {
                                &&& release == scan.pending
                                &&& after.next == start
                                &&& after.pending is None
                            } else {
                                &&& release is None
                                &&& after.next == scan.next
                                &&& after.pending == scan.pending
                            }
                            &&& scan.block_at(page, huge_page, k, after.next as int, block)
                        };
                    if q < k {
                        assert(scan.extents@[q].1 <= scan.next);
                    } else if q > k {
                        assert(scan.extents@[k].1 < scan.extents@[q].0);
                    }
                },
            }
        }
    }
}

/// Taking the verdict on a block keeps the account: the pages that go are
/// released or pending, and no others are.
pub proof fn law_block_keeps_account(
    scan: MemoryScan,
    block: Block,
    drop: Seq<bool>,
    after: MemoryScan,
    runs: Seq<(usize, usize)>,
    released: Seq<(usize, usize)>,
    goes: spec_fn(int) -> bool,
)
    requires
        scan.ordered(),
        scan.holds_block(block),
        drop.len() == block.count,
        scan.drops(drop, after, runs),
        forall|k: int| 0 <= k < drop.len() ==> #[trigger] drop[k] == goes(block.first + k),
        accounted(scan, released, goes),
    ensures
        accounted(after, released + runs, goes),
{
    let extent = choose|k: int|
        0 <= k < scan.extents@.len() && (#[trigger] scan.extents@[k]).0 <= block.first
            && block.first + block.count <= scan.extents@[k].1;
    assert forall|i: int| #[trigger]
        held(released + runs, after.pending, i) == (0 <= i < after.next && after.anonymous(i)
            && goes(i)) by {
        lemma_more_ranges(released, runs, i);
        assert(held(released, scan.pending, i) == (0 <= i < scan.next && scan.anonymous(i) && goes(
            i,
        )));
        assert(held(runs, after.pending, i) == scan.goes(drop, after.next as int, i));
        if scan.next <= i < after.next {
            assert(drop[i - scan.next] == goes(block.first + (i - scan.next)));
            assert(scan.extents@[extent].0 <= i < scan.extents@[extent].1);
            assert(after.anonymous(i));
        }
    }
}

/// A scan that is through has released exactly the anonymous pages that go.
pub proof fn law_scan_releases_every_page(
    scan: MemoryScan,
    released: Seq<(usize, usize)>,
    goes: spec_fn(int) -> bool,
    i: int,
)
    requires
        scan.ordered(),
        scan.next == scan.pages,
        accounted(scan, released, goes),
    ensures
        in_ranges(released, i) == (0 <= i < scan.pages && scan.anonymous(i) && goes(i)),
{
    assert(held(released, scan.pending, i) == (0 <= i < scan.next && scan.anonymous(i) && goes(i)));
}

/// A memory that is given up has released only pages that go.
pub proof fn law_abandoned_scan_is_harmless(
    scan: MemoryScan,
    after: MemoryScan,
    released: Seq<(usize, usize)>,
    goes: spec_fn(int) -> bool,
)
    requires
        scan.ordered(),
        accounted(scan, released, goes),
        after.same_memory(scan),
        after.pending is None,
    ensures
        harmless(after, released + as_runs(scan.pending), goes),
{
    assert forall|i: int| #[trigger]
        held(released + as_runs(scan.pending), after.pending, i) implies 0 <= i < after.pages
        && after.anonymous(i) && goes(i) by {
        lemma_more_ranges(released, as_runs(scan.pending), i);
        lemma_as_runs(scan.pending, i);
        assert(held(released, scan.pending, i) == (0 <= i < scan.next && scan.anonymous(i) && goes(
            i,
        )));
    }
}

/// No page of a shared file overlay is ever in a released run.
pub proof fn law_overlays_are_left_alone(
    scan: MemoryScan,
    memory: LinearMemory,
    mappings: Seq<(usize, usize, bool)>,
    page: int,
    after: MemoryScan,
    released: Seq<(usize, usize)>,
    goes: spec_fn(int) -> bool,
    i: int,
)
    requires
        scan.prepared(memory, mappings, page),
        after.same_memory(scan),
        harmless(after, released, goes),
        in_ranges(released, i),
    ensures
        !memory.overlaid(page, i),
        0 <= i < memory.pages(page),
{
    assert(held(released, after.pending, i));
    assert(scan.anonymous(i) == !memory.overlaid(page, i));
}

/// The huge-page unit where the kernel does not tell: 2 MiB.
pub const DEFAULT_HUGE_PAGE: usize = 2097152;

/// The unit huge pages come in, from what the kernel's file holds, where it
/// could be read.
pub open spec fn huge_page_of(file: Option<Seq<char>>) -> int {
    match file {
        Some(s) => match text::number(text::trimmed(s), 10, usize::MAX as int) {
            Some(size) => size,
            None => DEFAULT_HUGE_PAGE as int,
        },
        None => DEFAULT_HUGE_PAGE as int,
    }
}

/// The unit huge pages come in.
pub fn huge_page_size(file: Option<&str>) -> (r: usize)
    ensures
        r == huge_page_of(
            match file {
                Some(s) => Some(s@),
                None => None,
            },
        ),
{
    match file {
        Some(s) => {
            let s = text::characters(s);
            match text::parse_usize(text::trim(&s), 10) {
                Some(size) => size,
                None => DEFAULT_HUGE_PAGE,
            }
        },
        None => DEFAULT_HUGE_PAGE,
    }
}

/// The rest of the first line that starts with `prefix`.
pub open spec fn first_after(lines: Seq<Seq<char>>, prefix: Seq<char>) -> Option<Seq<char>>
    decreases lines.len(),
{
    if lines.len() == 0 {
        None
    } else {
        match text::after_prefix(lines[0], prefix) {
            Some(rest) => Some(rest),
            None => first_after(lines.drop_first(), prefix),
        }
    }
}

/// The number of threads that a process status names, 0 where it names none.
pub open spec fn threads_in(status: Seq<char>) -> int {
    match first_after(text::lines(status), "Threads:"@) {
        Some(rest) => match text::number(text::trimmed(rest), 10, usize::MAX as int) {
            Some(n) => n,
            None => 0,
        },
        None => 0,
    }
}

/// The number of threads that a process status names.
pub fn thread_count(status: &str) -> (r: usize)
    ensures
        r == threads_in(status@),
{
    let characters = text::characters(status);
    let lines = text::lines_of(&characters);
    let ghost all = text::views(lines@);
    let mut n: usize = 0;
    proof {
        assert(all.skip(0) =~= all);
    }
    while n < lines.len()
        invariant
            n <= lines@.len(),
            all == text::views(lines@),
            all == text::lines(status@),
            first_after(all, "Threads:"@) == first_after(all.skip(n as int), "Threads:"@),
        decreases lines@.len() - n,
    {
        proof {
            assert(all.skip(n as int)[0] == lines@[n as int]@);
            assert(all.skip(n as int).drop_first() =~= all.skip(n + 1));
        }
        if let Some(rest) = text::strip_prefix(&lines[n], "Threads:") {
            return match text::parse_usize(text::trim(rest), 10) {
                Some(count) => count,
                None => 0,
            };
        }
        n = n + 1;
    }
    0
}

/// What a line of a process's memory map says.
pub enum MapLine {
    /// A mapping begins, from one address to another.
    Mapping(usize, usize),
    /// How much of the mapping is in huge pages, where that can be read.
    HugePages(Option<usize>),
    Other,
}

/// A number as a machine word.
pub open spec fn word_of(n: Option<int>) -> Option<usize> {
    match n {
        Some(n) => Some(n as usize),
        None => None,
    }
}

/// Reads one line of a memory map.
pub open spec fn map_line(line: Seq<char>) -> MapLine {
    match text::after_prefix(line, "AnonHugePages:"@) {
        Some(rest) => MapLine::HugePages(
            word_of(text::number(text::first_word(rest), 10, usize::MAX as int)),
        ),
        None => match text::split_once(line, ' ') {
            Some((range, _)) => match text::split_once(range, '-') {
                Some((start, end)) => match (
                    text::number(start, 16, usize::MAX as int),
                    text::number(end, 16, usize::MAX as int),
                ) {
                    (Some(start), Some(end)) => MapLine::Mapping(start as usize, end as usize),
                    _ => MapLine::Other,
                },
                None => MapLine::Other,
            },
            None => MapLine::Other,
        },
    }
}

/// What the lines of a memory map say of the mappings: each with whether it
/// holds huge pages, and the mapping that has no answer yet. `None` where an
/// answer cannot be read.
pub open spec fn map_lines(lines: Seq<Seq<char>>) -> Option<
    (Seq<(usize, usize, bool)>, Option<(usize, usize)>),
>
    decreases lines.len(),
{
    if lines.len() == 0 {
        Some((Seq::empty(), None))
    } else {
        match map_lines(lines.drop_last()) {
            None => None,
            Some((mappings, current)) => match (map_line(lines.last()), current) {
                (MapLine::HugePages(kb), Some((start, end))) => match kb {
                    Some(kb) => Some((mappings.push((start, end, kb > 0)), None)),
                    None => None,
                },
                (MapLine::HugePages(_), None) => Some((mappings, current)),
                (MapLine::Mapping(start, end), _) => Some((mappings, Some((start, end)))),
                (MapLine::Other, _) => Some((mappings, current)),
            },
        }
    }
}

proof fn lemma_map_lines_stay_bad(lines: Seq<Seq<char>>, k: int)
    requires
        0 <= k <= lines.len(),
        map_lines(lines.take(k)) is None,
    ensures
        map_lines(lines) is None,
    decreases lines.len(),
{
    if k < lines.len() {
        assert(lines.drop_last().take(k) =~= lines.take(k));
        lemma_map_lines_stay_bad(lines.drop_last(), k);
    } else {
        assert(lines.take(k) =~= lines);
    }
}

/// Reads one line of a memory map.
fn read_map_line(line: &[char]) -> (r: MapLine)
    ensures
        r == map_line(line@),
{
    if let Some(rest) = text::strip_prefix(line, "AnonHugePages:") {
        return MapLine::HugePages(text::parse_usize(text::word(rest), 10));
    }
    let at: usize = text::find(line, ' ');
    if at >= line.len() {
        return MapLine::Other;
    }
    let range = &line[0..at];
    proof {
        assert(range@ =~= line@.take(at as int));
    }
    let dash: usize = text::find(range, '-');
    if dash >= range.len() {
        return MapLine::Other;
    }
    let start = &range[0..dash];
    let end = &range[dash + 1..range.len()];
    proof {
        assert(start@ =~= range@.take(dash as int));
        assert(end@ =~= range@.skip(dash + 1));
    }
    match (text::parse_usize(start, 16), text::parse_usize(end, 16)) {
        (Some(start), Some(end)) => MapLine::Mapping(start, end),
        _ => MapLine::Other,
    }
}

/// The mappings of a process with whether each holds huge pages, from its
/// memory map (`smaps`). `None` where it cannot be read.
pub fn mapping_huge_pages(smaps: &str) -> (r: Option<Vec<(usize, usize, bool)>>)
    ensures
        match map_lines(text::lines(smaps@)) {
            Some((mappings, _)) => r is Some && (r->0)@ == mappings,
            None => r is None,
        },
{
    let characters = text::characters(smaps);
    let lines = text::lines_of(&characters);
    let ghost all = text::views(lines@);
    let mut mappings: Vec<(usize, usize, bool)> = Vec::new();
    let mut current: Option<(usize, usize)> = None;
    let mut n: usize = 0;
    while n < lines.len()
        invariant
            n <= lines@.len(),
            all == text::views(lines@),
            all == text::lines(smaps@),
            map_lines(all.take(n as int)) == Some((mappings@, current)),
        decreases lines@.len() - n,
    {
        proof {
            assert(all.take(n + 1).drop_last() =~= all.take(n as int));
            assert(all.take(n + 1).last() == lines@[n as int]@);
        }
        match read_map_line(&lines[n]) {
            MapLine::HugePages(kb) => {
                if let Some((start, end)) = current {
                    match kb {
                        Some(kb) => {
                            mappings.push((start, end, kb > 0));
                            current = None;
                        },
                        None => {
                            proof {
                                lemma_map_lines_stay_bad(all, n + 1);
                            }
                            return None;
                        },
                    }
                }
            },
            MapLine::Mapping(start, end) => {
                current = Some((start, end));
            },
            MapLine::Other => {},
        }
        n = n + 1;
    }
    proof {
        assert(all.take(all.len() as int) =~= all);
    }
    Some(mappings)
}

/// How long a guest gets to reach quiescence, in milliseconds.
pub const DRAIN_TIMEOUT_MS: u64 = 10000;

/// How long the remaining threads get to end after the drain.
pub const DISMANTLE_TIMEOUT_MS: u64 = 5000;

/// How often the thread count is re-read while the last threads end, in
/// microseconds.
pub const DISMANTLE_POLL_US: u64 = 50;

/// How far a freeze has got.
#[derive(Clone, Copy, Debug, PartialEq, Eq, Structural)]
pub enum FreezeStage {
    /// The guest's threads are being suspended.
    Draining,
    /// The host's own threads are ending.
    Dismantling,
    /// The guest's sockets are being shut down.
    Disconnecting,
    /// Shared memory is being copied into private backing.
    Snapshotting,
    /// One thread is left, and nothing of the guest runs.
    Frozen,
}

/// A freeze under way. A stage begins only once the one before has ended, and
/// a failure at any of them leaves the host unusable.
#[derive(Debug)]
pub struct Freezing {
    pub stage: FreezeStage,
    /// The coroutines found when the guest was drained.
    pub coroutines: usize,
}

/// Why a freeze is refused while tasks are in flight.
pub open spec fn in_flight_text(in_flight: nat) -> Seq<char> {
    text::decimal(in_flight) + " host-side task(s) in flight; a fork would lose them"@
}

/// What is left after dismantling.
pub open spec fn threads_text(count: nat, names: Seq<Seq<char>>) -> Seq<char> {
    text::decimal(count) + " threads remain after dismantling: "@ + text::joined(names, ", "@)
}

/// A failure with what was being done.
pub open spec fn while_doing(doing: Seq<char>, error: Seq<char>) -> Seq<char> {
    doing + ": "@ + error
}

/// A failure with what was being done.
fn context(doing: &str, error: &str) -> (r: String)
    ensures
        r@ == while_doing(doing@, error@),
{
    let mut out = doing.to_owned();
    out.append(": ");
    out.append(error);
    out
}

impl Freezing {
    /// Begins a freeze; refused while host-side tasks are in flight that a
    /// forked child would lose.
    pub fn begin(in_flight: usize) -> (r: Result<Freezing, String>)
        ensures
            r is Ok <==> in_flight == 0,
            r is Ok ==> r->Ok_0 == (Freezing { stage: FreezeStage::Draining, coroutines: 0 }),
            r is Err ==> (r->Err_0)@ == in_flight_text(in_flight as nat),
    {
        if in_flight > 0 {
            let mut out = text::decimal_text(in_flight as u64);
            out.append(" host-side task(s) in flight; a fork would lose them");
            return Err(out);
        }
        Ok(Freezing { stage: FreezeStage::Draining, coroutines: 0 })
    }

    /// The guest has been drained, with this many coroutines, or not.
    pub fn drained(&mut self, outcome: Result<usize, String>) -> (r: Result<(), String>)
        requires
            old(self).stage == FreezeStage::Draining,
        ensures
            r is Ok <==> outcome is Ok,
            outcome is Ok ==> *final(self) == (Freezing {
                stage: FreezeStage::Dismantling,
                coroutines: outcome->Ok_0,
            }),
            outcome is Err ==> *final(self) == *old(self) && (r->Err_0)@ == while_doing(
                "draining the guest"@,
                (outcome->Err_0)@,
            ),
    {
        match outcome {
            Ok(coroutines) => {
                self.stage = FreezeStage::Dismantling;
                self.coroutines = coroutines;
                Ok(())
            },
            Err(error) => Err(context("draining the guest", error.as_str())),
        }
    }

    /// Takes the threads that are left: the freeze goes on once there is one.
    /// `true` then, `false` to look again, and an error where the time is up.
    pub fn threads(&mut self, count: usize, expired: bool, names: &Vec<String>) -> (r: Result<
        bool,
        String,
    >)
        requires
            old(self).stage == FreezeStage::Dismantling,
        ensures
            r is Ok <==> count == 1 || !expired,
            r is Ok ==> r->Ok_0 == (count == 1),
            r is Err ==> (r->Err_0)@ == threads_text(count as nat, text::texts(names@)),
            *final(self) == if count == 1 {
                Freezing { stage: FreezeStage::Disconnecting, ..*old(self) }
            } else {
                *old(self)
            },
    {
        if count == 1 {
            self.stage = FreezeStage::Disconnecting;
            return Ok(true);
        }
        if expired {
            let mut out = text::decimal_text(count as u64);
            out.append(" threads remain after dismantling: ");
            out.append(text::join(names, ", ").as_str());
            return Err(out);
        }
        Ok(false)
    }

    /// The guest's sockets have been shut down, or not.
    pub fn disconnected(&mut self, outcome: Result<(), String>) -> (r: Result<(), String>)
        requires
            old(self).stage == FreezeStage::Disconnecting,
        ensures
            r == outcome,
            *final(self) == if outcome is Ok {
                Freezing { stage: FreezeStage::Snapshotting, ..*old(self) }
            } else {
                *old(self)
            },
    {
        if outcome.is_ok() {
            self.stage = FreezeStage::Snapshotting;
        }
        outcome
    }

    /// Shared memory has been copied, or not; the number of coroutines frozen.
    pub fn snapshotted(&mut self, outcome: Result<(), String>) -> (r: Result<usize, String>)
        requires
            old(self).stage == FreezeStage::Snapshotting,
        ensures
            r is Ok <==> outcome is Ok,
            r is Ok ==> r->Ok_0 == old(self).coroutines,
            r is Err ==> (r->Err_0)@ == while_doing(
                "snapshotting shared memory"@,
                (outcome->Err_0)@,
            ),
            *final(self) == if outcome is Ok {
                Freezing { stage: FreezeStage::Frozen, ..*old(self) }
            } else {
                *old(self)
            },
    {
        match outcome {
            Ok(()) => {
                self.stage = FreezeStage::Frozen;
                Ok(self.coroutines)
            },
            Err(error) => Err(context("snapshotting shared memory", error.as_str())),
        }
    }
}

/// What a fork returned in this process.
#[derive(Clone, Copy, Debug, PartialEq, Eq, Structural)]
pub enum Forked {
    /// No process was made.
    Failed,
    /// This is the child.
    Child,
    /// This is the parent, and the child has this process id.
    Parent(u32),
}

/// What a fork's return value means.
pub fn fork_outcome(pid: i32) -> (r: Forked)
    ensures
        r == if pid < 0 {
            Forked::Failed
        } else if pid == 0 {
            Forked::Child
        } else {
            Forked::Parent(pid as u32)
        },
{
    if pid < 0 {
        Forked::Failed
    } else if pid == 0 {
        Forked::Child
    } else {
        Forked::Parent(pid as u32)
    }
}

/// What a clone has to rebuild next of what its template dismantled.
#[derive(Clone, Copy, Debug, PartialEq, Eq, Structural)]
pub enum RebuildStage {
    /// Dying with the template, which is the clone's parent.
    ParentDeath,
    /// Finding the snapshot of shared memory that the freeze made.
    Snapshot,
    /// The clone's own shared memory, from that snapshot.
    SharedMemory,
    /// A new runtime, and with it a new fork generation.
    Runtime,
    /// The clone's own listening socket.
    Listener,
    /// A new selector, which then finds that socket.
    Selector,
    /// The guest's threads, resumed where they were.
    Threads,
    /// The guest runs again.
    Running,
}

/// What is rebuilt after a stage.
pub open spec fn next_stage(stage: RebuildStage) -> RebuildStage {
    match stage {
        RebuildStage::ParentDeath => RebuildStage::Snapshot,
        RebuildStage::Snapshot => RebuildStage::SharedMemory,
        RebuildStage::SharedMemory => RebuildStage::Runtime,
        RebuildStage::Runtime => RebuildStage::Listener,
        RebuildStage::Listener => RebuildStage::Selector,
        RebuildStage::Selector => RebuildStage::Threads,
        RebuildStage::Threads => RebuildStage::Running,
        RebuildStage::Running => RebuildStage::Running,
    }
}

/// How a stage failed, in words.
pub open spec fn rebuild_failure(stage: RebuildStage, error: Seq<char>) -> Seq<char> {
    match stage {
        RebuildStage::ParentDeath => while_doing("failed to set the parent-death signal"@, error),
        RebuildStage::SharedMemory => while_doing("resharing memory in the clone"@, error),
        RebuildStage::Runtime => while_doing("failed to create the tokio runtime"@, error),
        RebuildStage::Selector => while_doing("failed to rebuild the selector"@, error),
        RebuildStage::Threads => while_doing("resurrecting the guest threads"@, error),
        _ => error,
    }
}

impl RebuildStage {
    /// A stage has been carried out, or not: the next one, or why the clone
    /// has nothing to serve.
    pub fn advance(self, outcome: Result<(), String>) -> (r: Result<RebuildStage, String>)
        ensures
            r is Ok <==> outcome is Ok,
            r is Ok ==> r->Ok_0 == next_stage(self),
            r is Err ==> (r->Err_0)@ == rebuild_failure(self, (outcome->Err_0)@),
    {
        match outcome {
            Ok(()) => Ok(
                match self {
                    RebuildStage::ParentDeath => RebuildStage::Snapshot,
                    RebuildStage::Snapshot => RebuildStage::SharedMemory,
                    RebuildStage::SharedMemory => RebuildStage::Runtime,
                    RebuildStage::Runtime => RebuildStage::Listener,
                    RebuildStage::Listener => RebuildStage::Selector,
                    RebuildStage::Selector => RebuildStage::Threads,
                    RebuildStage::Threads => RebuildStage::Running,
                    RebuildStage::Running => RebuildStage::Running,
                },
            ),
            Err(error) => Err(
                match self {
                    RebuildStage::ParentDeath => context(
                        "failed to set the parent-death signal",
                        error.as_str(),
                    ),
                    RebuildStage::SharedMemory => context(
                        "resharing memory in the clone",
                        error.as_str(),
                    ),
                    RebuildStage::Runtime => context(
                        "failed to create the tokio runtime",
                        error.as_str(),
                    ),
                    RebuildStage::Selector => context(
                        "failed to rebuild the selector",
                        error.as_str(),
                    ),
                    RebuildStage::Threads => context(
                        "resurrecting the guest threads",
                        error.as_str(),
                    ),
                    _ => error,
                },
            ),
        }
    }
}

/// The stages that have to be done before a stage.
pub open spec fn stage_rank(stage: RebuildStage) -> int {
    match stage {
        RebuildStage::ParentDeath => 0,
        RebuildStage::Snapshot => 1,
        RebuildStage::SharedMemory => 2,
        RebuildStage::Runtime => 3,
        RebuildStage::Listener => 4,
        RebuildStage::Selector => 5,
        RebuildStage::Threads => 6,
        RebuildStage::Running => 7,
    }
}

/// The stages follow one another without a gap, so no guest thread is resumed
/// before the clone has its own memory, runtime, socket and selector.
pub proof fn law_nothing_is_skipped_in_a_rebuild(stage: RebuildStage)
    requires
        stage != RebuildStage::Running,
    ensures
        stage_rank(next_stage(stage)) == stage_rank(stage) + 1,
{
}

/// A length takes the fewest pages that hold it.
pub proof fn law_pages_hold_the_length(len: int, page: int)
    requires
        len >= 0,
        page > 0,
    ensures
        len <= pages_for(len, page) * page,
        len > 0 ==> (pages_for(len, page) - 1) * page < len,
        len == 0 ==> pages_for(len, page) == 0,
        pages_for(len, page) >= 0,
{
    let (q, r) = (len / page, len % page);
    vstd::arithmetic::div_mod::lemma_fundamental_div_mod(len, page);
    vstd::arithmetic::div_mod::lemma_div_pos_is_pos(len, page);
    assert(q * page == page * q) by (nonlinear_arith);
    assert((q + 1) * page == q * page + page) by (nonlinear_arith);
    assert((q - 1) * page == q * page - page) by (nonlinear_arith);
    if len == 0 {
        assert(q == 0 && r == 0) by (nonlinear_arith)
            requires
                len == 0,
                page > 0,
                q == len / page,
                r == len % page,
        ;
    }
}

/// A page of a memory is in an overlay exactly where a byte of it is.
pub proof fn law_an_overlay_holds_the_pages_of_its_bytes(
    overlay: (usize, usize),
    base: int,
    page: int,
    i: int,
)
    requires
        page > 0,
        0 <= base <= overlay.0,
        overlay.1 > 0,
        i >= 0,
    ensures
        overlay_holds(overlay, base, page, i) <==> exists|byte: int|
            #![trigger shares_byte(overlay, base, page, i, byte)]
            shares_byte(overlay, base, page, i, byte),
{
    let from = overlay.0 - base;
    let to = from + overlay.1;
    let q = from / page;
    let n = pages_for(to, page);
    vstd::arithmetic::div_mod::lemma_fundamental_div_mod(from, page);
    assert(q * page == page * q) by (nonlinear_arith);
    assert((q + 1) * page == q * page + page) by (nonlinear_arith);
    assert((i + 1) * page == i * page + page) by (nonlinear_arith);
    law_pages_hold_the_length(to, page);
    assert(i >= q + 1 ==> i * page >= (q + 1) * page) by (nonlinear_arith)
        requires
            page > 0,
    ;
    assert(i <= q - 1 ==> (i + 1) * page <= q * page) by (nonlinear_arith)
        requires
            page > 0,
    ;
    assert(i >= n ==> i * page >= n * page) by (nonlinear_arith)
        requires
            page > 0,
    ;
    assert(i <= n - 1 ==> i * page <= (n - 1) * page) by (nonlinear_arith)
        requires
            page > 0,
    ;
    if overlay_holds(overlay, base, page, i) {
        let byte = if from >= i * page {
            overlay.0 as int
        } else {
            base + i * page
        };
        assert(shares_byte(overlay, base, page, i, byte));
    }
}

/// Whether a byte belongs to an overlay and to a page.
pub open spec fn shares_byte(
    overlay: (usize, usize),
    base: int,
    page: int,
    i: int,
    byte: int,
) -> bool {
    &&& overlay.0 <= byte < overlay.0 + overlay.1
    &&& base + i * page <= byte < base + (i + 1) * page
}

/// A page is dropped exactly where it is resident and zero, and a block is
/// judged as a whole only where it is one, may be one huge page and is there
/// altogether.
pub proof fn law_what_is_resident_and_zero_is_dropped(
    block: Block,
    resident: Seq<u8>,
    zero: Seq<bool>,
    i: int,
)
    requires
        0 <= i < resident.len(),
        zero.len() == resident.len(),
    ensures
        zero_resident(resident, zero).len() == resident.len(),
        zero_resident(resident, zero)[i] <==> resident[i] % 2 == 1 && zero[i],
        block.goes_whole(resident) ==> resident[i] % 2 == 1 && block.whole && block.spare,
        block.whole && block.spare && (forall|k: int|
            0 <= k < resident.len() ==> (#[trigger] resident[k]) % 2 == 1) ==> block.goes_whole(
            resident,
        ),
{
    lemma_low_bit(resident[i]);
    assert forall|k: int| 0 <= k < resident.len() implies ((#[trigger] resident[k]) & 1 != 0
        <==> resident[k] % 2 == 1) by {
        lemma_low_bit(resident[k]);
    }
}

proof fn lemma_low_bit(byte: u8)
    ensures
        byte & 1 != 0 <==> byte % 2 == 1,
{
    assert(byte & 1 == byte % 2) by (bit_vector);
}

/// Pages are counted one by one: the resident ones, the dropped ones, those of
/// each run.
pub proof fn law_pages_are_counted_one_by_one(
    resident: Seq<u8>,
    byte: u8,
    flags: Seq<bool>,
    flag: bool,
    runs: Seq<(usize, usize)>,
    run: (usize, usize),
)
    ensures
        resident_pages(Seq::empty()) == 0,
        resident_pages(resident.push(byte)) == resident_pages(resident) + byte % 2,
        set_flags(Seq::empty()) == 0,
        set_flags(flags.push(flag)) == set_flags(flags) + if flag {
            1int
        } else {
            0
        },
        range_pages(Seq::empty()) == 0,
        range_pages(runs.push(run)) == range_pages(runs) + run.1 - run.0,
        pages_in(Some(run)) == run.1 - run.0,
        pages_in(None) == 0,
{
    lemma_low_bit(byte);
    assert(resident.push(byte).drop_last() =~= resident);
    assert(flags.push(flag).drop_last() =~= flags);
    assert(runs.push(run).drop_last() =~= runs);
}

/// Of the mappings of a process a scan keeps those that reach into the memory,
/// in their order, as the pages that they have of it, with whether they hold
/// huge pages.
pub proof fn law_mappings_are_cut_to_the_memory(
    mappings: Seq<(usize, usize, bool)>,
    from: int,
    count: int,
    huge: bool,
    base: int,
    pages: int,
    page: int,
)
    requires
        page > 0,
        0 <= base,
        0 <= from,
        0 < count,
        from + count <= pages,
        base + pages * page <= usize::MAX,
        base + (from + count) * page <= usize::MAX,
        base + from * page <= usize::MAX,
    ensures
        ({
            let end = base + pages * page;
            let start = (base + from * page) as usize;
            let stop = (base + (from + count) * page) as usize;
            let before = clipped(mappings, base, end, page);
            &&& clipped(Seq::empty(), base, end, page) == Seq::<(usize, usize, bool)>::empty()
            &&& clipped(mappings.push((start, stop, huge)), base, end, page) == before.push(
                (from as usize, (from + count) as usize, huge),
            )
            &&& forall|other: (usize, usize, bool)|
                other.0 >= end || other.1 <= base ==> #[trigger] clipped(
                    mappings.push(other),
                    base,
                    end,
                    page,
                ) == before
        }),
{
    let end = base + pages * page;
    let (a, b) = (base + from * page, base + (from + count) * page);
    let before = clipped(mappings, base, end, page);
    assert(0 <= from * page && from * page < (from + count) * page <= pages * page)
        by (nonlinear_arith)
        requires
            page > 0,
            from >= 0,
            count > 0,
            from + count <= pages,
    ;
    let mapping = (a as usize, b as usize, huge);
    assert(mappings.push(mapping).drop_last() =~= mappings);
    vstd::arithmetic::div_mod::lemma_div_multiples_vanish(from, page);
    vstd::arithmetic::div_mod::lemma_div_multiples_vanish(from + count, page);
    vstd::arithmetic::div_mod::lemma_mod_multiples_basic(from + count, page);
    assert(from * page == page * from) by (nonlinear_arith);
    assert((from + count) * page == page * (from + count)) by (nonlinear_arith);
    assert((a - base) / page == from);
    assert(pages_for(b - base, page) == from + count);
    assert forall|other: (usize, usize, bool)|
        other.0 >= end || other.1 <= base implies #[trigger] clipped(
        mappings.push(other),
        base,
        end,
        page,
    ) == before by {
        assert(mappings.push(other).drop_last() =~= mappings);
    }
}

/// Whether a page may be in a huge page is what the first mapping that holds it
/// says; one that no mapping holds may be.
pub proof fn law_the_first_mapping_says_whether_a_page_is_huge(scan: MemoryScan, k: int, i: int)
    ensures
        0 <= k < scan.mappings@.len() && scan.mappings@[k].0 <= i < scan.mappings@[k].1 && (forall|
            j: int,
        |
            0 <= j < k ==> !((#[trigger] scan.mappings@[j]).0 <= i < scan.mappings@[j].1))
            ==> scan.may_be_huge(i) == scan.mappings@[k].2,
        (forall|j: int|
            0 <= j < scan.mappings@.len() ==> !((#[trigger] scan.mappings@[j]).0 <= i
                < scan.mappings@[j].1)) ==> scan.may_be_huge(i),
{
    if 0 <= k < scan.mappings@.len() && scan.mappings@[k].0 <= i < scan.mappings@[k].1 && (forall|
        j: int,
    |
        0 <= j < k ==> !((#[trigger] scan.mappings@[j]).0 <= i < scan.mappings@[j].1)) {
        assert(scan.mapping_of(k, i));
        assert forall|j: int| #[trigger] scan.mapping_of(j, i) implies j == k by {
            assert(scan.mappings@[j].0 <= i < scan.mappings@[j].1);
            assert(scan.mappings@[k].0 <= i < scan.mappings@[k].1);
        }
    }
}

/// A scan looks next at the first anonymous page that it has not looked at: it
/// passes over none, and gives out the run before a gap.
pub proof fn law_a_scan_passes_over_no_anonymous_page(
    scan: MemoryScan,
    after: MemoryScan,
    release: Option<(usize, usize)>,
    block: Block,
    page: int,
    huge_page: int,
    i: int,
)
    requires
        scan.ordered(),
        scan.steps(page, huge_page, after, ScanStep::Look { release, block }),
    ensures
        scan.next <= i < block.first ==> !scan.anonymous(i),
        scan.anonymous(block.first as int),
        block.first >= scan.next,
        after.next == block.first,
        block.first > scan.next ==> release == scan.pending && after.pending is None,
        block.first == scan.next ==> release is None && after.pending == scan.pending,
        block.addr == scan.base + block.first * page,
{
    let k = choose|k: int|
        {
            let start = scan.extents@[k].0;
            &&& #[trigger] scan.extent_ahead(k)
            &&& if scan.next < start {
                &&& release == scan.pending
                &&& after.next == start
                &&& after.pending is None
            } else {
                &&& release is None
                &&& after.next == scan.next
                &&& after.pending == scan.pending
            }
            &&& scan.block_at(page, huge_page, k, after.next as int, block)
        };
    assert(scan.extents@[k].0 < scan.extents@[k].1);
    assert(scan.extents@[k].0 <= block.first < scan.extents@[k].1);
    if scan.next <= i < block.first && scan.anonymous(i) {
        let j = choose|j: int|
            0 <= j < scan.extents@.len() && (#[trigger] scan.extents@[j]).0 <= i
                < scan.extents@[j].1;
        if j > k {
            assert(scan.extents@[k].1 < scan.extents@[j].0);
        }
    }
}

/// A block lies in one huge page's worth of memory and in one range of
/// anonymous pages, and reaches to the end of one of them.
pub proof fn law_a_block_stays_in_one_huge_page(
    scan: MemoryScan,
    page: int,
    huge_page: int,
    k: int,
    first: int,
    block: Block,
)
    requires
        page > 0,
        huge_page >= page,
        0 <= first,
        0 <= k < scan.extents@.len(),
        scan.extents@[k].0 <= first < scan.extents@[k].1,
        scan.block_at(page, huge_page, k, first, block),
    ensures
        ({
            let huge = huge_page / page;
            let start = scan.base as int / page + first;
            &&& block.count > 0
            &&& first + block.count <= scan.extents@[k].1
            &&& start / huge == (start + block.count - 1) / huge
            &&& (start + block.count) % huge == 0 || first + block.count == scan.extents@[k].1
            &&& block.whole <==> block.count == huge
            &&& block.whole ==> start % huge == 0
        }),
{
    let huge = huge_page / page;
    let start = scan.base as int / page + first;
    assert(huge >= 1) by (nonlinear_arith)
        requires
            huge_page >= page,
            page > 0,
            huge == huge_page / page,
    ;
    vstd::arithmetic::div_mod::lemma_div_pos_is_pos(scan.base as int, page);
    vstd::arithmetic::div_mod::lemma_fundamental_div_mod(start, huge);
    vstd::arithmetic::div_mod::lemma_mod_bound(start, huge);
    let (q, r) = (start / huge, start % huge);
    let last = start + block.count - 1;
    assert(last == q * huge + (r + block.count - 1)) by (nonlinear_arith)
        requires
            start == huge * q + r,
            last == start + block.count - 1,
    ;
    vstd::arithmetic::div_mod::lemma_fundamental_div_mod_converse(
        last,
        huge,
        q,
        r + block.count - 1,
    );
    if block.count == huge - r {
        assert((start + block.count) == (q + 1) * huge + 0) by (nonlinear_arith)
            requires
                start == huge * q + r,
                block.count == huge - r,
        ;
        vstd::arithmetic::div_mod::lemma_fundamental_div_mod_converse(
            start + block.count,
            huge,
            q + 1,
            0,
        );
    }
}

/// The memories that are scanned are those that are private, anonymous and not
/// empty, in their order.
pub proof fn law_private_memories_are_scanned(memories: Seq<LinearMemory>, memory: LinearMemory)
    ensures
        scannable(Seq::empty()) == Seq::<LinearMemory>::empty(),
        memory.private_anonymous && memory.len > 0 ==> scannable(memories.push(memory))
            == scannable(memories).push(memory),
        !memory.private_anonymous || memory.len == 0 ==> scannable(memories.push(memory))
            == scannable(memories),
{
    assert(memories.push(memory).drop_last() =~= memories);
}

/// The size of a huge page is the number in the kernel's file, whatever white
/// space stands around it, and two megabytes where there is none.
pub proof fn law_the_huge_page_size_is_what_the_file_says(file: Seq<char>, size: nat)
    ensures
        huge_page_of(None) == 2 * 1024 * 1024,
        text::trimmed(file) == text::decimal(size) && size <= usize::MAX ==> huge_page_of(
            Some(file),
        ) == size,
        text::number(text::trimmed(file), 10, usize::MAX as int) is None ==> huge_page_of(
            Some(file),
        ) == 2 * 1024 * 1024,
{
    text::law_a_number_reads_back(size, usize::MAX as int);
}

/// What is read behind a prefix is from the first line that has it.
pub proof fn law_the_first_line_with_a_prefix_is_read(
    before: Seq<Seq<char>>,
    prefix: Seq<char>,
    rest: Seq<char>,
    later: Seq<Seq<char>>,
)
    requires
        forall|i: int| 0 <= i < before.len() ==> !prefix.is_prefix_of(#[trigger] before[i]),
    ensures
        first_after(before, prefix) is None,
        first_after(before + seq![prefix + rest] + later, prefix) == Some(rest),
    decreases before.len(),
{
    let all = before + seq![prefix + rest] + later;
    if before.len() > 0 {
        let less = before.drop_first();
        assert forall|i: int| 0 <= i < less.len() implies !prefix.is_prefix_of(
            #[trigger] less[i],
        ) by {
            assert(less[i] == before[i + 1]);
        }
        law_the_first_line_with_a_prefix_is_read(less, prefix, rest, later);
        assert(all.drop_first() =~= less + seq![prefix + rest] + later);
        assert(all[0] == before[0]);
    } else {
        text::law_a_prefix_comes_off(prefix + rest, prefix, rest);
        assert(all[0] == prefix + rest);
        assert(prefix =~= (prefix + rest).subrange(0, prefix.len() as int));
    }
}

/// How many threads a process has is what its status says in the line for it.
pub proof fn law_the_thread_count_is_what_the_status_says(
    status: Seq<char>,
    before: Seq<Seq<char>>,
    rest: Seq<char>,
    later: Seq<Seq<char>>,
    count: nat,
)
    requires
        forall|i: int| 0 <= i < before.len() ==> !"Threads:"@.is_prefix_of(#[trigger] before[i]),
        count <= usize::MAX,
        text::trimmed(rest) == text::decimal(count),
    ensures
        text::lines(status) == before + seq!["Threads:"@ + rest] + later ==> threads_in(status)
            == count,
        text::lines(status) == before ==> threads_in(status) == 0,
{
    law_the_first_line_with_a_prefix_is_read(before, "Threads:"@, rest, later);
    text::law_a_number_reads_back(count, usize::MAX as int);
}

/// A mapping's first line starts with where it begins and ends, in hexadecimal
/// digits with a hyphen between them. The line on huge pages says how much of
/// the mapping is in them.
pub proof fn law_a_mapping_is_read_from_its_line(
    start: Seq<char>,
    end: Seq<char>,
    rest: Seq<char>,
    kb: nat,
)
    requires
        text::number(start, 16, usize::MAX as int) is Some,
        text::number(end, 16, usize::MAX as int) is Some,
        kb <= usize::MAX,
    ensures
        map_line(start + seq!['-'] + end + seq![' '] + rest) == MapLine::Mapping(
            (text::number(start, 16, usize::MAX as int)->0) as usize,
            (text::number(end, 16, usize::MAX as int)->0) as usize,
        ),
        text::first_word(rest) == text::decimal(kb) ==> map_line("AnonHugePages:"@ + rest)
            == MapLine::HugePages(Some(kb as usize)),
{
    let max = usize::MAX as int;
    let range = start + seq!['-'] + end;
    let line = start + seq!['-'] + end + seq![' '] + rest;
    assert(start.len() > 0);
    assert(end.len() > 0);
    assert forall|i: int| 0 <= i < start.len() implies start[i] != '-' && start[i] != ' ' by {
        text::law_only_digits_are_a_number(start, 16, max, i);
    }
    assert forall|i: int| 0 <= i < end.len() implies end[i] != '-' && end[i] != ' ' by {
        text::law_only_digits_are_a_number(end, 16, max, i);
    }
    assert forall|i: int| 0 <= i < range.len() implies range[i] != ' ' by {
        if i < start.len() {
            assert(range[i] == start[i]);
        } else if i > start.len() {
            assert(range[i] == end[i - start.len() - 1]);
        }
    }
    text::law_what_is_put_apart_is_split(range, ' ', rest);
    text::law_what_is_put_apart_is_split(start, '-', end);
    let prefix = "AnonHugePages:"@;
    reveal_strlit("AnonHugePages:");
    if prefix.is_prefix_of(line) {
        assert(line[1] == prefix[1]);
        if start.len() > 1 {
            text::law_only_digits_are_a_number(start, 16, max, 1);
            assert(line[1] == start[1]);
        } else {
            assert(line[1] == '-');
        }
    }
    text::law_a_prefix_comes_off(prefix + rest, prefix, rest);
    text::law_a_number_reads_back(kb, max);
}

/// A mapping counts once the line on its huge pages is read, as one that holds
/// some where that line says more than nothing. Other lines change nothing, and
/// a line on huge pages that cannot be read spoils the whole.
pub proof fn law_a_mapping_counts_with_its_huge_pages(
    lines: Seq<Seq<char>>,
    head: Seq<char>,
    other: Seq<char>,
    tail: Seq<char>,
    start: usize,
    end: usize,
    kb: usize,
)
    requires
        map_lines(lines) is Some,
        map_line(head) == MapLine::Mapping(start, end),
        map_line(other) == MapLine::Other,
    ensures
        ({
            let (mappings, current) = map_lines(lines)->0;
            let opened = lines.push(head).push(other);
            &&& map_lines(Seq::empty()) == Some(
                (Seq::<(usize, usize, bool)>::empty(), None::<(usize, usize)>),
            )
            &&& map_lines(lines.push(other)) == Some((mappings, current))
            &&& map_lines(opened) == Some((mappings, Some((start, end))))
            &&& map_line(tail) == MapLine::HugePages(Some(kb)) ==> map_lines(opened.push(tail))
                == Some((mappings.push((start, end, kb > 0)), None::<(usize, usize)>))
            &&& map_line(tail) == MapLine::HugePages(None) ==> map_lines(opened.push(tail)) is None
        }),
{
    let one = lines.push(head);
    let two = one.push(other);
    assert(one.drop_last() =~= lines);
    assert(two.drop_last() =~= one);
    assert(two.push(tail).drop_last() =~= two);
    assert(lines.push(other).drop_last() =~= lines);
    let (mappings, current) = map_lines(lines)->0;
    assert(map_lines(lines.push(other)) == Some((mappings, current)));
    assert(map_lines(one) == Some((mappings, Some((start, end)))));
    assert(map_lines(two) == Some((mappings, Some((start, end)))));
    assert(two.push(tail).last() == tail);
}

/// A clone comes back in this order: it will die with its parent; then come the
/// shared memory, the runtime and the listening socket; then the selector,
/// which has to find that socket; and the guest's threads run only when all of
/// it is there.
pub proof fn law_a_clone_is_rebuilt_in_order(stage: RebuildStage)
    ensures
        next_stage(RebuildStage::ParentDeath) == RebuildStage::Snapshot,
        next_stage(RebuildStage::Snapshot) == RebuildStage::SharedMemory,
        next_stage(stage) == RebuildStage::Runtime ==> stage == RebuildStage::SharedMemory,
        next_stage(stage) == RebuildStage::Selector ==> stage == RebuildStage::Listener,
        next_stage(stage) == RebuildStage::Threads ==> stage == RebuildStage::Selector,
        next_stage(stage) == RebuildStage::Running ==> stage == RebuildStage::Threads || stage
            == RebuildStage::Running,
        next_stage(RebuildStage::Runtime) == RebuildStage::Listener,
        next_stage(RebuildStage::Running) == RebuildStage::Running,
        stage != RebuildStage::Running ==> next_stage(stage) != stage,
{
}

/// A clone that cannot be rebuilt says what failed and ends with why; finding
/// the snapshot and the socket say it themselves.
pub proof fn law_a_failed_rebuild_ends_with_why(stage: RebuildStage, error: Seq<char>)
    ensures
        ({
            let said = rebuild_failure(stage, error);
            &&& said.skip(said.len() - error.len()) == error
            &&& stage == RebuildStage::Snapshot || stage == RebuildStage::Listener ==> said == error
            &&& stage == RebuildStage::ParentDeath ==> said
                == "failed to set the parent-death signal: "@ + error
            &&& stage == RebuildStage::SharedMemory ==> said == "resharing memory in the clone: "@
                + error
            &&& stage == RebuildStage::Runtime ==> said == "failed to create the tokio runtime: "@
                + error
            &&& stage == RebuildStage::Selector ==> said == "failed to rebuild the selector: "@
                + error
            &&& stage == RebuildStage::Threads ==> said == "resurrecting the guest threads: "@
                + error
        }),
{
    let said = rebuild_failure(stage, error);
    assert(said.skip(said.len() - error.len()) =~= error);
    reveal_strlit(": ");
    reveal_strlit("failed to set the parent-death signal");
    reveal_strlit("failed to set the parent-death signal: ");
    reveal_strlit("resharing memory in the clone");
    reveal_strlit("resharing memory in the clone: ");
    reveal_strlit("failed to create the tokio runtime");
    reveal_strlit("failed to create the tokio runtime: ");
    reveal_strlit("failed to rebuild the selector");
    reveal_strlit("failed to rebuild the selector: ");
    reveal_strlit("resurrecting the guest threads");
    reveal_strlit("resurrecting the guest threads: ");
    assert("failed to set the parent-death signal: "@ =~= "failed to set the parent-death signal"@
        + ": "@);
    assert("resharing memory in the clone: "@ =~= "resharing memory in the clone"@ + ": "@);
    assert("failed to create the tokio runtime: "@ =~= "failed to create the tokio runtime"@
        + ": "@);
    assert("failed to rebuild the selector: "@ =~= "failed to rebuild the selector"@ + ": "@);
    assert("resurrecting the guest threads: "@ =~= "resurrecting the guest threads"@ + ": "@);
}

/// A freeze that cannot be made says how many tasks are in its way, or how many
/// threads and which.
pub proof fn law_a_refused_freeze_counts_what_is_in_its_way(n: nat, names: Seq<Seq<char>>)
    ensures
        text::decimal(n).is_prefix_of(in_flight_text(n)),
        text::decimal(n).is_prefix_of(threads_text(n, names)),
        threads_text(n, names).skip(
            threads_text(n, names).len() - text::joined(names, ", "@).len(),
        ) == text::joined(names, ", "@),
{
    let digits = text::decimal(n);
    assert(digits =~= in_flight_text(n).subrange(0, digits.len() as int));
    let said = threads_text(n, names);
    let list = text::joined(names, ", "@);
    assert(digits =~= said.subrange(0, digits.len() as int));
    assert(said.skip(said.len() - list.len()) =~= list);
}

/// A memory that is to be scanned is scanned whole, from its first page, with
/// every page left alone that is in an overlay.
pub proof fn law_a_scan_is_prepared_for_its_memory(
    scan: MemoryScan,
    memory: LinearMemory,
    mappings: Seq<(usize, usize, bool)>,
    page: int,
    i: int,
)
    requires
        scan.prepared(memory, mappings, page),
    ensures
        scan.base == memory.base,
        scan.pages == pages_for(memory.len as int, page),
        scan.next == 0,
        scan.pending is None,
        scan.mappings@ == clipped(
            mappings,
            memory.base as int,
            memory.base + pages_for(memory.len as int, page) * page,
            page,
        ),
        0 <= i < scan.pages ==> (scan.anonymous(i) <==> !overlays_hold(
            memory.overlays@,
            memory.base as int,
            page,
            i,
        )),
{
    if 0 <= i < scan.pages {
        assert(scan.anonymous(i) == !memory.overlaid(page, i));
        if memory.overlaid(page, i) {
            let k = choose|k: int|
                0 <= k < memory.overlays@.len() && overlay_holds(
                    #[trigger] memory.overlays@[k],
                    memory.base as int,
                    page,
                    i,
                );
            assert(overlay_holds(memory.overlays@[k], memory.base as int, page, i));
        }
        if overlays_hold(memory.overlays@, memory.base as int, page, i) {
            let k = choose|k: int|
                0 <= k < memory.overlays@.len() && overlay_holds(
                    #[trigger] memory.overlays@[k],
                    memory.base as int,
                    page,
                    i,
                );
            assert(overlay_holds(memory.overlays@[k], memory.base as int, page, i));
        }
    }
}

/// Judging a block moves on the scan of its memory by the block, and no other
/// scan; every page of a run that is given out is owed until it is settled.
pub proof fn law_judging_a_block_moves_its_scan(
    before: Compaction,
    drop: Seq<bool>,
    after: Compaction,
    runs: Seq<(usize, usize)>,
    other: int,
)
    requires
        before.judges(drop, after, runs),
        before.looking is Some,
        0 <= (before.looking->0).0 < before.memories@.len(),
    ensures
        ({
            let m = (before.looking->0).0 as int;
            &&& after.looking is None
            &&& after.page == before.page && after.huge_page == before.huge_page
            &&& after.memories@.len() == before.memories@.len()
            &&& 0 <= other < before.memories@.len() && other != m ==> after.memories@[other]
                == before.memories@[other]
            &&& after.memories@[m].next == before.memories@[m].next + drop.len()
            &&& after.memories@[m].base == before.memories@[m].base
            &&& after.owed - before.owed == range_pages(runs)
            &&& range_pages(runs) + pages_in(after.memories@[m].pending) == pages_in(
                before.memories@[m].pending,
            ) + set_flags(drop)
            &&& progress(after.memories@) > progress(before.memories@)
        }),
{
}

/// The pages that are dropped are those that were pending and those of the
/// block that are marked, and no others; what is dropped and reaches to the end
/// of what was looked at stays pending until it is known how far it goes.
pub proof fn law_marked_pages_are_dropped(
    scan: MemoryScan,
    drop: Seq<bool>,
    after: MemoryScan,
    runs: Seq<(usize, usize)>,
    i: int,
)
    requires
        scan.drops(drop, after, runs),
        scan.pending matches Some((_, end)) ==> end <= scan.next,
    ensures
        after.next == scan.next + drop.len(),
        scan.next <= i < after.next ==> (in_ranges(runs, i) || in_range(after.pending, i)
            <==> drop[i - scan.next]),
        i < scan.next ==> (in_ranges(runs, i) || in_range(after.pending, i) <==> in_range(
            scan.pending,
            i,
        )),
        i >= after.next ==> !in_ranges(runs, i) && !in_range(after.pending, i),
        after.pending matches Some((_, end)) ==> end == after.next,
        after.next == after.pages ==> after.pending is None,
{
    assert(held(runs, after.pending, i) == scan.goes(drop, after.next as int, i));
}

/// What a freeze that is refused says.
pub proof fn law_a_refused_freeze_says_why(n: nat, doing: Seq<char>, error: Seq<char>)
    ensures
        in_flight_text(n) == text::decimal(n)
            + " host-side task(s) in flight; a fork would lose them"@,
        while_doing(doing, error) == doing + ": "@ + error,
{
}

/// A status whose line on threads cannot be read counts none, as one without it
/// does.
pub proof fn law_an_unreadable_thread_count_is_none(status: Seq<char>)
    ensures
        first_after(text::lines(status), "Threads:"@) is None ==> threads_in(status) == 0,
        first_after(text::lines(status), "Threads:"@) matches Some(rest) ==> (text::number(
            text::trimmed(rest),
            10,
            usize::MAX as int,
        ) is None ==> threads_in(status) == 0),
{
}

} // verus!
