//! The forward-moving cursor behind page-content inspection.
//!
//! Contents of resident pages are streamed out of `/proc/<pid>/mem` or
//! `/dev/mem` into one reusable scratch buffer. A read must never cross a
//! hole — an unmapped or swapped page fails the whole transfer — so each
//! refill covers exactly the contiguous run of mapped entries that starts at
//! the requested page, capped by the buffer. The cursor itself only decides;
//! the file access that acts on a [`CursorStep::Refill`] stays with the
//! caller.

use vstd::prelude::*;

verus! {

use crate::PAGE_SIZE;
use crate::is_present;

/// Whether a status word marks a page whose contents can be read in one run
/// with its neighbours. Process pagemap words qualify by their present bit,
/// host kpageflags words by being non-zero.
pub open spec fn spec_mapped_entry(w: u64, host: bool) -> bool {
    if host {
        w != 0
    } else {
        is_present(w)
    }
}

/// Length of the contiguous run of mapped entries of `status` that starts at
/// `from`.
pub open spec fn spec_run_length(status: Seq<u64>, from: int, host: bool) -> int
    decreases status.len() - from,
    when 0 <= from <= status.len()
{
    if from >= status.len() {
        0
    } else if !spec_mapped_entry(status[from], host) {
        0
    } else {
        1 + spec_run_length(status, from + 1, host)
    }
}

proof fn lemma_run_length_from_facts(status: Seq<u64>, from: int, host: bool, n: int)
    requires
        0 <= from,
        0 <= n,
        from + n <= status.len(),
        forall|k: int| from <= k < from + n ==> spec_mapped_entry(#[trigger] status[k], host),
        from + n == status.len() || !spec_mapped_entry(status[from + n], host),
    ensures
        spec_run_length(status, from, host) == n,
    decreases n,
{
    if n == 0 {
    } else {
        assert(spec_mapped_entry(status[from], host));
        lemma_run_length_from_facts(status, from + 1, host, n - 1);
    }
}

/// How long the contiguous run of present entries at the head of `pagemap`
/// is. The first entry must itself be present (callers never start a content
/// read on a hole).
pub fn contiguous_mapped_length(pagemap: &[u64]) -> (r: usize)
    requires
        pagemap@.len() > 0 ==> is_present(pagemap@[0]),
    ensures
        r == spec_run_length(pagemap@, 0, false),
        r <= pagemap@.len(),
{
    let n = pagemap.len();
    let mut i: usize = 0;
    while i < n
        invariant
            n == pagemap@.len(),
            i <= n,
            forall|k: int| 0 <= k < i ==> is_present(#[trigger] pagemap@[k]),
        decreases n - i,
    {
        if pagemap[i] & (1u64 << 63) == 0 {
            proof {
                lemma_run_length_from_facts(pagemap@, 0, false, i as int);
            }
            return i;
        }
        i = i + 1;
    }
    proof {
        lemma_run_length_from_facts(pagemap@, 0, false, n as int);
    }
    n
}

/// How long the contiguous run of non-zero entries at the head of `status`
/// is: the host-mode counterpart of [`contiguous_mapped_length`].
pub fn contiguous_nonzero_length(status: &[u64]) -> (r: usize)
    ensures
        r == spec_run_length(status@, 0, true),
        r <= status@.len(),
{
    let n = status.len();
    let mut i: usize = 0;
    while i < n
        invariant
            n == status@.len(),
            i <= n,
            forall|k: int| 0 <= k < i ==> #[trigger] status@[k] != 0,
        decreases n - i,
    {
        if status[i] == 0 {
            proof {
                lemma_run_length_from_facts(status@, 0, true, i as int);
            }
            return i;
        }
        i = i + 1;
    }
    proof {
        lemma_run_length_from_facts(status@, 0, true, n as int);
    }
    n
}

/// The window a content cursor currently holds: pages
/// `[start_page_offset, start_page_offset + pages_read)` of the segment sit
/// in the scratch buffer, which has room for `buf_pages` pages.
pub struct PageCursor {
    pub start_page_offset: usize,
    pub pages_read: usize,
    pub buf_pages: usize,
}

/// What a lookup decided: the page already sits in the buffer, or the caller
/// must read `read_pages` pages starting at the requested offset and report
/// the refill back.
pub enum CursorStep {
    Hit,
    Refill { read_pages: usize },
}

impl PageCursor {
    /// The window fits the buffer, and a full buffer never outgrows the
    /// address arithmetic of its byte offsets.
    pub open spec fn wf(&self) -> bool {
        &&& 1 <= self.buf_pages
        &&& self.pages_read <= self.buf_pages
        &&& self.start_page_offset + self.pages_read <= usize::MAX
        &&& self.buf_pages * (PAGE_SIZE as int) <= usize::MAX
    }

    pub open spec fn in_window(&self, page_offset: usize) -> bool {
        self.start_page_offset <= page_offset < self.start_page_offset + self.pages_read
    }

    /// A fresh cursor over an empty buffer of `buf_pages` pages.
    pub fn new(buf_pages: usize) -> (r: PageCursor)
        requires
            1 <= buf_pages,
            buf_pages * (PAGE_SIZE as int) <= usize::MAX,
        ensures
            r.wf(),
            r.start_page_offset == 0,
            r.pages_read == 0,
            r.buf_pages == buf_pages,
    {
        PageCursor { start_page_offset: 0, pages_read: 0, buf_pages }
    }

    /// Decide how to serve the page at `page_offset` of a segment whose
    /// status words are `status`. Callers move strictly forward and only ask
    /// for mapped pages; a read that touched a hole would fail whole.
    pub fn step(&self, status: &[u64], page_offset: usize, host: bool) -> (r: CursorStep)
        requires
            self.wf(),
            page_offset < status@.len(),
            self.start_page_offset <= page_offset,
            page_offset >= self.start_page_offset + self.pages_read ==> spec_mapped_entry(
                status@[page_offset as int],
                host,
            ),
        ensures
            (r is Hit) <==> self.in_window(page_offset),
            r matches CursorStep::Refill { read_pages } ==> ({
                let run = spec_run_length(status@, page_offset as int, host);
                &&& read_pages == if run <= self.buf_pages {
                    run
                } else {
                    self.buf_pages as int
                }
                &&& 1 <= read_pages <= self.buf_pages
                &&& page_offset + read_pages <= status@.len()
            }),
    {
        if page_offset < self.start_page_offset + self.pages_read {
            CursorStep::Hit
        } else {
            let rest = vstd::slice::slice_subrange(status, page_offset, status.len());
            let run = if host {
                contiguous_nonzero_length(rest)
            } else {
                contiguous_mapped_length(rest)
            };
            proof {
                lemma_run_shift(status@, page_offset as int, host);
                lemma_run_length_nonneg(status@, page_offset as int + 1, host);
                assert(run >= 1);
            }
            let read_pages = if run < self.buf_pages {
                run
            } else {
                self.buf_pages
            };
            CursorStep::Refill { read_pages }
        }
    }

    /// Note that the caller refilled the buffer with `read_pages` pages
    /// starting at `page_offset`.
    pub fn record_refill(&mut self, page_offset: usize, read_pages: usize)
        requires
            old(self).wf(),
            1 <= read_pages <= old(self).buf_pages,
            page_offset + read_pages <= usize::MAX,
        ensures
            final(self).wf(),
            final(self).start_page_offset == page_offset,
            final(self).pages_read == read_pages,
            final(self).buf_pages == old(self).buf_pages,
    {
        self.start_page_offset = page_offset;
        self.pages_read = read_pages;
    }

    /// Where page `page_offset` starts inside the scratch buffer.
    pub fn buf_byte_start(&self, page_offset: usize) -> (r: usize)
        requires
            self.wf(),
            self.in_window(page_offset),
        ensures
            r == (page_offset - self.start_page_offset) * (PAGE_SIZE as int),
            r + PAGE_SIZE <= self.buf_pages * (PAGE_SIZE as int),
    {
        let idx = page_offset - self.start_page_offset;
        proof {
            assert(idx + 1 <= self.buf_pages);
            assert((idx + 1) * (PAGE_SIZE as int) <= self.buf_pages * (PAGE_SIZE as int))
                by (nonlinear_arith)
                requires
                    idx + 1 <= self.buf_pages,
            ;
            assert(idx * (PAGE_SIZE as int) + PAGE_SIZE == (idx + 1) * (PAGE_SIZE as int))
                by (nonlinear_arith);
        }
        idx * PAGE_SIZE
    }
}

proof fn lemma_run_length_nonneg(status: Seq<u64>, from: int, host: bool)
    requires
        0 <= from <= status.len(),
    ensures
        0 <= spec_run_length(status, from, host) <= status.len() - from,
    decreases status.len() - from,
{
    if from < status.len() && spec_mapped_entry(status[from], host) {
        lemma_run_length_nonneg(status, from + 1, host);
    }
}

/// A run measured on the tail slice equals the run measured in place.
proof fn lemma_run_shift(status: Seq<u64>, from: int, host: bool)
    requires
        0 <= from <= status.len(),
    ensures
        spec_run_length(status.subrange(from, status.len() as int), 0, host) == spec_run_length(
            status,
            from,
            host,
        ),
    decreases status.len() - from,
{
    let tail = status.subrange(from, status.len() as int);
    if from == status.len() {
    } else if !spec_mapped_entry(status[from], host) {
    } else {
        lemma_run_shift(status, from + 1, host);
        lemma_run_shift(tail, 1, host);
        assert(tail.subrange(1, tail.len() as int) =~= status.subrange(
            from + 1,
            status.len() as int,
        ));
    }
}

/// Whether page `page_index` of the scratch buffer holds only zero bytes.
pub fn page_all_zero(data: &Vec<u8>, page_index: usize) -> (r: bool)
    requires
        page_index * (PAGE_SIZE as int) + PAGE_SIZE <= data@.len(),
    ensures
        r <==> forall|k: int|
            page_index * (PAGE_SIZE as int) <= k < page_index * (PAGE_SIZE as int) + PAGE_SIZE
                ==> data@[k] == 0,
{
    let n = data.len();
    let start = page_index * PAGE_SIZE;
    let mut i: usize = 0;
    while i < PAGE_SIZE
        invariant
            start == page_index * (PAGE_SIZE as int),
            start + PAGE_SIZE <= data@.len(),
            i <= PAGE_SIZE,
            forall|k: int| start <= k < start + i ==> data@[k] == 0,
        decreases PAGE_SIZE - i,
    {
        if data[start + i] != 0 {
            return false;
        }
        i = i + 1;
    }
    true
}

} // verus!
