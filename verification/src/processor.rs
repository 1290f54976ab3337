//! The per-CPU record of the running task, and the check that a new mapping
//! of the running task fits in its address space.
use vstd::prelude::*;
use crate::process::{PAGE_SIZE, MapRequest, sys_mmap, sv39, page_aligned, map_permission};

verus! {

/// The processor: the task it runs, if any.
pub struct Processor<T> {
    pub current: Option<T>,
}

/// The virtual page that holds address `va`.
pub open spec fn floor_page(va: int) -> int {
    va / PAGE_SIZE as int
}

/// The first virtual page at or after address `va`.
pub open spec fn ceil_page(va: int) -> int {
    if va == 0 {
        0
    } else {
        (va - 1 + PAGE_SIZE as int) / PAGE_SIZE as int
    }
}

/// The page ranges `[a.0, a.1)` and `[b.0, b.1)` share a page.
pub open spec fn ranges_overlap(a: (usize, usize), b: (usize, usize)) -> bool {
    a.0 < b.1 && b.0 < a.1
}

/// The pages that `mmap(start, len, ..)` asks for: from the page holding
/// the start to the first page at or after the end.
pub open spec fn mmap_pages(start: usize, len: usize) -> (usize, usize) {
    (
        floor_page(sv39(start) as int) as usize,
        ceil_page(sv39((start + len) as usize) as int) as usize,
    )
}

/// `mmap(start, len, port)` asks for a valid mapping: the start begins a
/// page and `port` asks for read, write or execute access and nothing else.
pub open spec fn mmap_args_ok(start: usize, port: usize) -> bool {
    page_aligned(sv39(start)) && port & !7usize == 0 && port & 7 != 0
}

/// `mmap(start, len, port)` is refused before any frame is asked for: bad
/// arguments, or one of the task's areas shares a page with the request.
pub open spec fn mmap_refused_early(areas: Seq<(usize, usize)>, start: usize, len: usize, port: usize) -> bool {
    !mmap_args_ok(start, port) || exists|k: int|
        0 <= k < areas.len() && ranges_overlap(#[trigger] areas[k], mmap_pages(start, len))
}

/// What `mmap` returns and maps, once the frame allocator has said whether
/// the pages can be had (`frames_available`): -1 and nothing when the
/// check refused or no frames are left; otherwise 0, and the checked area
/// is the one to map.
pub fn mmap_result(check: Option<(MapRequest, usize)>, frames_available: bool) -> (r: (isize, Option<MapRequest>))
    ensures
        check.is_none() || !frames_available ==> r == (-1isize, None::<MapRequest>),
        check.is_some() && frames_available ==> r == (0isize, Some(check.unwrap().0)),
{
    match check {
        None => (-1, None),
        Some((req, _pages)) => {
            if frames_available {
                (0, Some(req))
            } else {
                (-1, None)
            }
        },
    }
}

/// The whole outcome of `mmap`: it returns -1, and maps nothing, exactly
/// when the start is not page-aligned, `port` is bad, one of the task's
/// areas overlaps the requested pages, or the frame allocator has no room
/// for them; otherwise it returns 0 and maps the requested range.
pub proof fn lemma_mmap_outcome(areas: Seq<(usize, usize)>, start: usize, len: usize, port: usize, check: Option<(MapRequest, usize)>, frames_available: bool, r: (isize, Option<MapRequest>))
    requires
        check.is_none() <==> mmap_refused_early(areas, start, len, port),
        check.is_some() ==> check.unwrap().0 == (MapRequest {
            start_va: sv39(start),
            end_va: sv39((start + len) as usize),
            permission: map_permission(port),
        }),
        check.is_none() || !frames_available ==> r == (-1isize, None::<MapRequest>),
        check.is_some() && frames_available ==> r == (0isize, Some(check.unwrap().0)),
    ensures
        r.0 == -1 <==> mmap_refused_early(areas, start, len, port) || !frames_available,
        r.0 == -1 ==> r.1.is_none(),
        r.0 != -1 ==> r.0 == 0 && r.1 == Some(MapRequest {
            start_va: sv39(start),
            end_va: sv39((start + len) as usize),
            permission: map_permission(port),
        }),
{
}

/// Once `mmap` of a non-empty range has gone through and its pages have
/// become one of the task's areas, the same `mmap` is refused: the new area
/// overlaps the request.
pub proof fn lemma_mmap_twice_refused(areas: Seq<(usize, usize)>, start: usize, len: usize, port: usize)
    requires
        !mmap_refused_early(areas, start, len, port),
        mmap_pages(start, len).0 < mmap_pages(start, len).1,
    ensures
        mmap_refused_early(areas.push(mmap_pages(start, len)), start, len, port),
{
    let after = areas.push(mmap_pages(start, len));
    assert(ranges_overlap(after[areas.len() as int], mmap_pages(start, len)));
}

/// Page `p` lies in the half-open page range `r`.
pub open spec fn holds_page(r: (usize, usize), p: int) -> bool {
    r.0 <= p < r.1
}

/// Two non-empty page ranges overlap exactly when some page lies in both;
/// in particular the relation is symmetric.
pub proof fn lemma_ranges_overlap_shares_page(a: (usize, usize), b: (usize, usize))
    requires
        a.0 < a.1,
        b.0 < b.1,
    ensures
        ranges_overlap(a, b) <==> exists|p: int| #[trigger] holds_page(a, p) && holds_page(b, p),
        ranges_overlap(a, b) == ranges_overlap(b, a),
{
    if ranges_overlap(a, b) {
        let p: int = if a.0 <= b.0 { b.0 as int } else { a.0 as int };
        assert(holds_page(a, p) && holds_page(b, p));
    }
    if exists|p: int| #[trigger] holds_page(a, p) && holds_page(b, p) {
        let p = choose|p: int| #[trigger] holds_page(a, p) && holds_page(b, p);
        assert(a.0 <= p < a.1 && b.0 <= p < b.1);
    }
}

impl<T> Processor<T> {
    /// A processor that runs nothing.
    pub fn new() -> (p: Self)
        ensures
            p.current.is_none(),
    {
        Processor { current: None }
    }

    /// Takes the running task out, leaving none.
    pub fn take_current(&mut self) -> (task: Option<T>)
        ensures
            task == old(self).current,
            final(self).current.is_none(),
    {
        self.current.take()
    }

    /// The running task, if any.
    pub fn current(&self) -> (task: Option<&T>)
        ensures
            task.is_some() == self.current.is_some(),
            task.is_some() ==> *task.unwrap() == self.current.unwrap(),
    {
        self.current.as_ref()
    }

    /// Checks a request of the running task to map `[start_va, end_va)`:
    /// it fails (`None`, the syscall returns -1) when one of the task's
    /// areas (page ranges in `areas`) shares a page with the request;
    /// otherwise it gives the number of pages to allocate.
    pub fn map_memory(&self, areas: &Vec<(usize, usize)>, start_va: usize, end_va: usize) -> (pages: Option<usize>)
        requires
            self.current.is_some(),
            floor_page(start_va as int) <= ceil_page(end_va as int),
        ensures
            pages.is_none() <==> exists|k: int|
                0 <= k < areas@.len() && ranges_overlap(
                    #[trigger] areas@[k],
                    (floor_page(start_va as int) as usize, ceil_page(end_va as int) as usize),
                ),
            pages.is_some() ==> pages.unwrap() == ceil_page(end_va as int) - floor_page(start_va as int),
    {
        let first = start_va / PAGE_SIZE;
        let end = if end_va == 0 {
            0
        } else {
            (end_va - 1) / PAGE_SIZE + 1
        };
        proof {
            assert((end_va - 1 + PAGE_SIZE) / PAGE_SIZE as int == (end_va - 1) / PAGE_SIZE as int + 1);
        }
        let page_count = end - first;
        let mut k: usize = 0;
        while k < areas.len()
            invariant
                0 <= k <= areas@.len(),
                first == floor_page(start_va as int),
                end == ceil_page(end_va as int),
                forall|a: int| 0 <= a < k ==> !ranges_overlap(#[trigger] areas@[a], (first, end)),
            decreases areas@.len() - k,
        {
            let area = areas[k];
            if area.0 < end && first < area.1 {
                return None;
            }
            k = k + 1;
        }
        Some(page_count)
    }

    /// The checks of `mmap(start, len, port)` on the running task, whose
    /// areas are the page ranges in `areas`.  `None` (the syscall returns
    /// -1) exactly when the arguments are bad or an area overlaps the
    /// requested pages; otherwise the range to map and the number of pages
    /// to ask the frame allocator for.
    pub fn mmap_check(&self, areas: &Vec<(usize, usize)>, start: usize, len: usize, port: usize) -> (check: Option<(MapRequest, usize)>)
        requires
            start + len <= usize::MAX,
            mmap_args_ok(start, port) ==> self.current.is_some()
                && floor_page(sv39(start) as int) <= ceil_page(sv39((start + len) as usize) as int),
        ensures
            check.is_none() <==> mmap_refused_early(areas@, start, len, port),
            check.is_some() ==> check.unwrap().0 == (MapRequest {
                start_va: sv39(start),
                end_va: sv39((start + len) as usize),
                permission: map_permission(port),
            }),
            check.is_some() ==> check.unwrap().1 == mmap_pages(start, len).1 - mmap_pages(start, len).0,
    {
        let req = match sys_mmap(start, len, port) {
            Some(r) => r,
            None => return None,
        };
        proof {
            let f = floor_page(sv39(start) as int);
            let c = ceil_page(sv39((start + len) as usize) as int);
            assert(0 <= f && 0 <= c);
            assert(f <= usize::MAX && c <= usize::MAX) by {
                assert(sv39(start) <= usize::MAX);
                assert(sv39((start + len) as usize) <= usize::MAX);
            }
        }
        match self.map_memory(areas, req.start_va, req.end_va) {
            Some(pages) => Some((req, pages)),
            None => None,
        }
    }
}

} // verus!
