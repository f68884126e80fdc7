//! A bounded cache of pages in front of the disk manager.
//!
//! Each resident page lives in one frame; a frame index is the handle to it,
//! and every fetch of a resident page returns the same frame. A page leaves
//! the cache only by eviction, which writes it back first, so the current
//! content of a page is its frame while resident and its disk image otherwise.
use vstd::prelude::*;
use crate::storage::{
    image_bytes, lemma_reopen_round_trip, read_image, zero_page, DiskManager, Page, PageId, PAGE_SIZE,
};

verus! {

struct Frame {
    page_id: PageId,
    page: Page,
}

pub struct BufferPool {
    disk: DiskManager,
    frames: Vec<Frame>,
    capacity: usize,
}

/// The most pages a pool of capacity `c` holds: one even when `c` is zero.
pub open spec fn bound_of(c: nat) -> nat {
    if c == 0 {
        1
    } else {
        c
    }
}

/// The pool holds as many pages as its capacity allows: the next page to
/// come in evicts one.
pub open spec fn full(pool: BufferPool) -> bool {
    pool.resident_count() >= pool.capacity_of() && pool.resident_count() > 0
}

/// The number of resident pages after one more page comes in.
pub open spec fn count_after_load(pool: BufferPool) -> nat {
    if full(pool) {
        pool.resident_count()
    } else {
        pool.resident_count() + 1
    }
}

/// The disk image holds the current content of every allocated page, and
/// nothing past them.
pub open spec fn flushed(pool: BufferPool) -> bool {
    &&& pool.disk_of().image().len() == pool.next_id()
    &&& forall|x: PageId|
        x < pool.next_id() ==> #[trigger] read_image(pool.disk_of().image(), x as int)
            == pool.current(x)
}

impl BufferPool {
    pub closed spec fn disk_of(&self) -> DiskManager {
        self.disk
    }

    pub closed spec fn capacity_of(&self) -> nat {
        self.capacity as nat
    }

    /// Number of resident pages.
    pub closed spec fn resident_count(&self) -> nat {
        self.frames@.len()
    }

    pub closed spec fn frame_page_id(&self, f: int) -> PageId {
        self.frames@[f].page_id
    }

    pub closed spec fn frame_bytes(&self, f: int) -> Seq<u8> {
        self.frames@[f].page.data@
    }

    pub closed spec fn is_resident(&self, id: PageId) -> bool {
        exists|f: int| 0 <= f < self.frames@.len() && self.frames@[f].page_id == id
    }

    /// The id that the next created page gets.
    pub open spec fn next_id(&self) -> PageId {
        self.disk_of().next_id()
    }

    /// The current content of page `id`: its frame while resident, else its
    /// disk image; `None` for an id never allocated.
    pub closed spec fn current(&self, id: PageId) -> Option<Seq<u8>> {
        if self.is_resident(id) {
            let f = choose|f: int| 0 <= f < self.frames@.len() && self.frames@[f].page_id == id;
            Some(self.frames@[f].page.data@)
        } else {
            read_image(self.disk.image(), id as int)
        }
    }

    pub closed spec fn wf(&self) -> bool {
        &&& self.disk.wf()
        &&& self.disk.image().len() <= self.disk.next_id()
        &&& self.frames@.len() <= bound_of(self.capacity as nat)
        &&& forall|i: int| 0 <= i < self.frames@.len() ==> (#[trigger] self.frames@[i]).page.wf()
        &&& forall|i: int|
            0 <= i < self.frames@.len() ==> (#[trigger] self.frames@[i]).page_id
                < self.disk.next_id()
        &&& self.unique_ids()
        &&& forall|x: PageId|
            x < self.disk.next_id() ==> #[trigger] self.is_resident(x) || (x as int)
                < self.disk.image().len()
    }

    closed spec fn unique_ids(&self) -> bool {
        forall|i: int, j: int|
            0 <= i < self.frames@.len() && 0 <= j < self.frames@.len() && i != j
                ==> #[trigger] self.frames@[i].page_id != #[trigger] self.frames@[j].page_id
    }

    proof fn lemma_frame_is_current(&self, f: int)
        requires
            self.unique_ids(),
            0 <= f < self.frames@.len(),
        ensures
            self.is_resident(self.frames@[f].page_id),
            self.current(self.frames@[f].page_id) == Some(self.frames@[f].page.data@),
    {
        let id = self.frames@[f].page_id;
        assert(self.is_resident(id));
        let g = choose|g: int| 0 <= g < self.frames@.len() && self.frames@[g].page_id == id;
        assert(g == f);
    }

    proof fn lemma_current_facts(&self, id: PageId)
        requires
            self.wf(),
        ensures
            self.current(id) is Some <==> id < self.next_id(),
            self.current(id) is Some ==> self.current(id)->Some_0.len() == PAGE_SIZE,
    {
        if self.is_resident(id) {
            let f = choose|f: int| 0 <= f < self.frames@.len() && self.frames@[f].page_id == id;
            assert(self.frames@[f].page.wf());
        } else {
            if (id as int) < self.disk.image().len() {
                assert(self.disk.image()[id as int].len() == PAGE_SIZE) by {
                    self.disk.lemma_image_pages(id as int);
                }
            }
        }
    }

    /// Every page id below the allocation counter has content, of one page.
    pub proof fn lemma_current_defined(&self, id: PageId)
        requires
            self.wf(),
        ensures
            self.current(id) is Some <==> id < self.next_id(),
            self.current(id) is Some ==> self.current(id)->Some_0.len() == PAGE_SIZE,
    {
        self.lemma_current_facts(id);
    }

    /// A page id has one frame at most: every handle to a resident page is the
    /// same frame, so a change made through one is seen through any other.
    pub proof fn lemma_one_frame_per_page(&self, f: int, g: int)
        requires
            self.wf(),
            0 <= f < self.resident_count(),
            0 <= g < self.resident_count(),
            self.frame_page_id(f) == self.frame_page_id(g),
        ensures
            f == g,
    {
    }

    /// A frame holds a resident page, and its bytes are that page's content.
    pub proof fn lemma_frame_current(&self, f: int)
        requires
            self.wf(),
            0 <= f < self.resident_count(),
        ensures
            self.is_resident(self.frame_page_id(f)),
            self.current(self.frame_page_id(f)) == Some(self.frame_bytes(f)),
    {
        self.lemma_frame_is_current(f);
    }

    /// A pool whose disk image holds the content of every allocated page, as
    /// after `flush_all`, comes back whole when its file is reopened: a pool
    /// over the file's bytes, as `new` over `DiskManager::open` gives it, has
    /// the same allocation counter and the same content for every page.
    pub proof fn lemma_flushed_pool_reopens(&self, reopened: BufferPool)
        requires
            self.wf(),
            forall|x: PageId|
                x < self.next_id() ==> #[trigger] read_image(self.disk_of().image(), x as int)
                    == self.current(x),
            reopened.wf(),
            reopened.next_id() == image_bytes(self.disk_of().image()).len() as int / (PAGE_SIZE as int),
            forall|id: PageId|
                (id as int) < image_bytes(self.disk_of().image()).len() as int / (PAGE_SIZE as int)
                    ==> #[trigger] reopened.current(id) == Some(
                    image_bytes(self.disk_of().image()).subrange(
                        id * PAGE_SIZE,
                        id * PAGE_SIZE + PAGE_SIZE,
                    ),
                ),
        ensures
            reopened.next_id() == self.next_id(),
            forall|x: PageId| #[trigger] reopened.current(x) == self.current(x),
    {
        let img = self.disk.image();
        assert forall|i: int| 0 <= i < img.len() implies (#[trigger] img[i]).len() == PAGE_SIZE by {
            self.disk.lemma_image_pages(i);
        }
        lemma_reopen_round_trip(img);
        if self.next_id() > 0 {
            let x = (self.next_id() - 1) as PageId;
            self.lemma_current_facts(x);
            assert(read_image(img, x as int) == self.current(x));
        }
        assert(img.len() == self.next_id());
        assert forall|x: PageId| #[trigger] reopened.current(x) == self.current(x) by {
            self.lemma_current_facts(x);
            reopened.lemma_current_facts(x);
            if x < self.next_id() {
                assert(read_image(img, x as int) == self.current(x));
                assert(image_bytes(img).subrange(x * PAGE_SIZE, x * PAGE_SIZE + PAGE_SIZE) == img[x as int]);
            }
        }
    }

    /// The pool never holds more pages than its capacity.
    pub proof fn lemma_bounded(&self)
        requires
            self.wf(),
            self.capacity_of() >= 1,
        ensures
            self.resident_count() <= self.capacity_of(),
    {
    }

    pub fn new(disk: DiskManager, capacity: usize) -> (r: Self)
        requires
            disk.wf(),
            disk.image().len() == disk.next_id(),
        ensures
            r.wf(),
            r.disk_of() == disk,
            r.capacity_of() == capacity,
            r.resident_count() == 0,
            forall|id: PageId| #[trigger] r.current(id) == read_image(disk.image(), id as int),
    {
        BufferPool { disk, frames: Vec::new(), capacity }
    }

    /// Removes frame 0 after writing its page back.
    fn evict_page(&mut self)
        requires
            old(self).wf(),
            old(self).frames@.len() > 0,
        ensures
            final(self).wf(),
            final(self).frames@.len() == old(self).frames@.len() - 1,
            final(self).capacity == old(self).capacity,
            final(self).next_id() == old(self).next_id(),
            forall|x: PageId| #[trigger] final(self).current(x) == old(self).current(x),
            forall|x: PageId| #[trigger] final(self).is_resident(x) ==> old(self).is_resident(x),
    {
        let ghost old_self = *self;
        let frame = self.frames.remove(0);
        let ghost img0 = self.disk.image();
        let _ = self.disk.write_page(frame.page_id, &frame.page);
        proof {
            old_self.lemma_frame_is_current(0);
            let id = frame.page_id;
            let img1 = self.disk.image();
            assert(self.frames@ =~= old_self.frames@.subrange(1, old_self.frames@.len() as int));
            assert forall|i: int| 0 <= i < self.frames@.len() implies (#[trigger] self.frames@[
                i
            ]).page_id != id by {
                assert(self.frames@[i] == old_self.frames@[i + 1]);
            }
            assert(!self.is_resident(id));
            assert(self.unique_ids()) by {
                assert forall|i: int, j: int|
                    0 <= i < self.frames@.len() && 0 <= j < self.frames@.len() && i != j
                        implies #[trigger] self.frames@[i].page_id != #[trigger] self.frames@[j].page_id by {
                    assert(self.frames@[i] == old_self.frames@[i + 1]);
                    assert(self.frames@[j] == old_self.frames@[j + 1]);
                }
            }
            assert forall|x: PageId| #[trigger] self.is_resident(x) implies old_self.is_resident(x) by {
                let f = choose|f: int| 0 <= f < self.frames@.len() && self.frames@[f].page_id == x;
                assert(old_self.frames@[f + 1] == self.frames@[f]);
            }
            assert forall|x: PageId| #[trigger] self.current(x) == old_self.current(x) by {
                if x == id {
                } else if self.is_resident(x) {
                    let f = choose|f: int|
                        0 <= f < self.frames@.len() && self.frames@[f].page_id == x;
                    assert(old_self.frames@[f + 1] == self.frames@[f]);
                    old_self.lemma_frame_is_current(f + 1);
                    self.lemma_frame_is_current(f);
                } else {
                    if old_self.is_resident(x) {
                        let g = choose|g: int|
                            0 <= g < old_self.frames@.len() && old_self.frames@[g].page_id == x;
                        assert(g != 0);
                        assert(self.frames@[g - 1].page_id == x);
                    }
                    assert(read_image(img1, x as int) == read_image(img0, x as int)) by {
                        if (x as int) < img0.len() {
                        } else if (x as int) < img1.len() {
                            assert(img1.len() <= old_self.disk.next_id());
                        }
                    }
                }
            }
            assert forall|x: PageId| x < self.disk.next_id() implies #[trigger] self.is_resident(x)
                || (x as int) < self.disk.image().len() by {
                if x == id {
                } else if old_self.is_resident(x) {
                    let g = choose|g: int|
                        0 <= g < old_self.frames@.len() && old_self.frames@[g].page_id == x;
                    assert(self.frames@[g - 1].page_id == x);
                }
            }
        }
    }

    /// Makes room for one more page when the pool is full.
    fn evict_if_needed(&mut self)
        requires
            old(self).wf(),
        ensures
            final(self).wf(),
            final(self).frames@.len() < bound_of(final(self).capacity as nat),
            final(self).capacity == old(self).capacity,
            final(self).next_id() == old(self).next_id(),
            forall|x: PageId| #[trigger] final(self).current(x) == old(self).current(x),
            forall|x: PageId| #[trigger] final(self).is_resident(x) ==> old(self).is_resident(x),
            full(*old(self)) ==> final(self).frames@.len() == old(self).frames@.len() - 1,
            !full(*old(self)) ==> *final(self) == *old(self),
    {
        if self.frames.len() >= self.capacity && self.frames.len() > 0 {
            self.evict_page();
        }
    }

    /// A handle to page `page_id`: on a hit the frame that holds it; on a miss
    /// the page is read from disk into a new frame, after evicting one page
    /// when the pool is full. Fails when the file does not hold the page.
    pub fn fetch_page(&mut self, page_id: PageId) -> (r: Result<usize, String>)
        requires
            old(self).wf(),
        ensures
            final(self).wf(),
            r is Ok <==> old(self).current(page_id) is Some,
            r is Ok ==> {
                &&& r->Ok_0 < final(self).resident_count()
                &&& final(self).frame_page_id(r->Ok_0 as int) == page_id
                &&& Some(final(self).frame_bytes(r->Ok_0 as int)) == old(self).current(page_id)
            },
            old(self).is_resident(page_id) ==> *final(self) == *old(self) && r is Ok,
            !old(self).is_resident(page_id) && r is Ok ==> final(self).resident_count()
                == count_after_load(*old(self)),
            forall|x: PageId| #[trigger] final(self).current(x) == old(self).current(x),
            final(self).next_id() == old(self).next_id(),
            final(self).capacity_of() == old(self).capacity_of(),
    {
        let mut i: usize = 0;
        while i < self.frames.len()
            invariant
                0 <= i <= self.frames@.len(),
                self.wf(),
                *self == *old(self),
                forall|k: int| 0 <= k < i ==> (#[trigger] self.frames@[k]).page_id != page_id,
            decreases self.frames@.len() - i,
        {
            if self.frames[i].page_id == page_id {
                proof {
                    self.lemma_frame_is_current(i as int);
                }
                return Ok(i);
            }
            i += 1;
        }
        assert(!self.is_resident(page_id));
        proof {
            self.lemma_current_facts(page_id);
        }
        let ghost pre = *self;
        self.evict_if_needed();
        assert(!self.is_resident(page_id)) by {
            if self.is_resident(page_id) {
                assert(pre.is_resident(page_id));
            }
        }
        let page = match self.disk.read_page(page_id) {
            Ok(p) => p,
            Err(e) => {
                assert(self.current(page_id) is None);
                return Err(e);
            },
        };
        let ghost old_self = *self;
        self.frames.push(Frame { page_id, page });
        proof {
            let n = old_self.frames@.len() as int;
            assert(self.frames@[n].page_id == page_id);
            assert(!old_self.is_resident(page_id));
            assert forall|k: int| 0 <= k < n implies (#[trigger] old_self.frames@[k]).page_id
                != page_id by {
                if old_self.frames@[k].page_id == page_id {
                    assert(old_self.is_resident(page_id));
                }
            }
            assert(self.unique_ids()) by {
                assert forall|i: int, j: int|
                    0 <= i < self.frames@.len() && 0 <= j < self.frames@.len() && i != j
                        implies #[trigger] self.frames@[i].page_id != #[trigger] self.frames@[j].page_id by {
                    if i < n {
                        assert(self.frames@[i] == old_self.frames@[i]);
                    }
                    if j < n {
                        assert(self.frames@[j] == old_self.frames@[j]);
                    }
                }
            }
            assert forall|x: PageId| #[trigger] self.current(x) == old_self.current(x) by {
                if x == page_id {
                    self.lemma_frame_is_current(n);
                } else if old_self.is_resident(x) {
                    let f = choose|f: int|
                        0 <= f < old_self.frames@.len() && old_self.frames@[f].page_id == x;
                    old_self.lemma_frame_is_current(f);
                    assert(self.frames@[f] == old_self.frames@[f]);
                    self.lemma_frame_is_current(f);
                } else {
                    if self.is_resident(x) {
                        let f = choose|f: int|
                            0 <= f < self.frames@.len() && self.frames@[f].page_id == x;
                        assert(f != n);
                        assert(old_self.frames@[f].page_id == x);
                    }
                }
            }
            assert forall|x: PageId| x < self.disk.next_id() implies #[trigger] self.is_resident(x)
                || (x as int) < self.disk.image().len() by {
                if old_self.is_resident(x) {
                    let f = choose|f: int|
                        0 <= f < old_self.frames@.len() && old_self.frames@[f].page_id == x;
                    assert(self.frames@[f].page_id == x);
                }
            }
            self.lemma_frame_is_current(n);
        }
        Ok(self.frames.len() - 1)
    }

    /// Allocates a fresh page id and installs a zeroed page for it, evicting
    /// one page first when the pool is full. Nothing is written to disk. Fails
    /// only when no page id is left.
    pub fn create_page(&mut self) -> (r: Result<(PageId, usize), String>)
        requires
            old(self).wf(),
        ensures
            final(self).wf(),
            r is Ok <==> old(self).next_id() < u32::MAX,
            r is Err ==> *final(self) == *old(self),
            r is Ok ==> {
                let (id, f) = r->Ok_0;
                &&& id == old(self).next_id()
                &&& final(self).next_id() == id + 1
                &&& f < final(self).resident_count()
                &&& final(self).frame_page_id(f as int) == id
                &&& final(self).frame_bytes(f as int) == zero_page()
                &&& old(self).current(id) is None
                &&& final(self).current(id) == Some(zero_page())
                &&& forall|x: PageId|
                    x != id ==> #[trigger] final(self).current(x) == old(self).current(x)
                &&& final(self).resident_count() == count_after_load(*old(self))
                &&& read_image(final(self).disk_of().image(), id as int) is None
            },
            final(self).capacity_of() == old(self).capacity_of(),
    {
        if !self.disk.can_allocate() {
            return Err("No page id left".to_string());
        }
        proof {
            self.lemma_current_facts(self.disk.next_id());
        }
        self.evict_if_needed();
        let ghost mid = *self;
        let page_id = self.disk.allocate_page();
        let page = Page::new();
        assert(page.data@ =~= zero_page());
        self.frames.push(Frame { page_id, page });
        proof {
            let n = mid.frames@.len() as int;
            assert forall|k: int| 0 <= k < n implies (#[trigger] mid.frames@[k]).page_id
                != page_id by {}
            assert(self.frames@[n].page_id == page_id);
            assert(self.unique_ids()) by {
                assert forall|i: int, j: int|
                    0 <= i < self.frames@.len() && 0 <= j < self.frames@.len() && i != j
                        implies #[trigger] self.frames@[i].page_id != #[trigger] self.frames@[j].page_id by {
                    if i < n {
                        assert(self.frames@[i] == mid.frames@[i]);
                    }
                    if j < n {
                        assert(self.frames@[j] == mid.frames@[j]);
                    }
                }
            }
            assert forall|x: PageId| x != page_id implies #[trigger] self.current(x)
                == mid.current(x) by {
                if mid.is_resident(x) {
                    let f = choose|f: int|
                        0 <= f < mid.frames@.len() && mid.frames@[f].page_id == x;
                    mid.lemma_frame_is_current(f);
                    assert(self.frames@[f] == mid.frames@[f]);
                    self.lemma_frame_is_current(f);
                } else {
                    if self.is_resident(x) {
                        let f = choose|f: int|
                            0 <= f < self.frames@.len() && self.frames@[f].page_id == x;
                        assert(f != n);
                        assert(mid.frames@[f].page_id == x);
                    }
                }
            }
            assert forall|x: PageId| x < self.disk.next_id() implies #[trigger] self.is_resident(x)
                || (x as int) < self.disk.image().len() by {
                if x == page_id {
                    assert(self.frames@[n].page_id == x);
                } else if mid.is_resident(x) {
                    let f = choose|f: int|
                        0 <= f < mid.frames@.len() && mid.frames@[f].page_id == x;
                    assert(self.frames@[f].page_id == x);
                }
            }
            self.lemma_frame_is_current(n);
        }
        assert(mid.disk.image().len() <= mid.disk.next_id());
        assert(read_image(self.disk.image(), page_id as int) is None);
        Ok((page_id, self.frames.len() - 1))
    }

    /// Read access to the page of frame `f`.
    pub fn page(&self, f: usize) -> (r: &Page)
        requires
            self.wf(),
            f < self.resident_count(),
        ensures
            r.wf(),
            r.data@ == self.frame_bytes(f as int),
    {
        &self.frames[f].page
    }

    /// Exchanges the page of frame `f` with `page`: the frame takes the
    /// caller's bytes and the caller gets the frame's. Used to work on a
    /// resident page in place and to put it back.
    pub fn swap_page(&mut self, f: usize, page: &mut Page)
        requires
            old(self).wf(),
            f < old(self).resident_count(),
            old(page).wf(),
        ensures
            final(self).wf(),
            final(page).wf(),
            final(page).data@ == old(self).frame_bytes(f as int),
            final(self).frame_bytes(f as int) == old(page).data@,
            final(self).resident_count() == old(self).resident_count(),
            forall|g: int|
                0 <= g < old(self).resident_count() ==> #[trigger] final(self).frame_page_id(g)
                    == old(self).frame_page_id(g),
            forall|g: int|
                0 <= g < old(self).resident_count() && g != f ==> #[trigger] final(self).frame_bytes(g) == old(self).frame_bytes(g),
            final(self).current(old(self).frame_page_id(f as int)) == Some(old(page).data@),
            forall|x: PageId|
                x != old(self).frame_page_id(f as int) ==> #[trigger] final(self).current(x)
                    == old(self).current(x),
            final(self).next_id() == old(self).next_id(),
            final(self).capacity_of() == old(self).capacity_of(),
    {
        let ghost old_self = *self;
        let mut frame = self.frames.remove(f);
        std::mem::swap(&mut frame.page, page);
        self.frames.insert(f, frame);
        proof {
            let fi = f as int;
            assert forall|g: int| 0 <= g < self.frames@.len() && g != fi implies #[trigger] self.frames@[g]
                == old_self.frames@[g] by {}
            assert(self.unique_ids()) by {
                assert forall|i: int, j: int|
                    0 <= i < self.frames@.len() && 0 <= j < self.frames@.len() && i != j
                        implies #[trigger] self.frames@[i].page_id != #[trigger] self.frames@[j].page_id by {
                    assert(self.frames@[i].page_id == old_self.frames@[i].page_id);
                    assert(self.frames@[j].page_id == old_self.frames@[j].page_id);
                }
            }
            self.lemma_frame_is_current(fi);
            assert forall|x: PageId| x != old_self.frames@[fi].page_id implies #[trigger] self.current(x)
                == old_self.current(x) by {
                if old_self.is_resident(x) {
                    let g = choose|g: int|
                        0 <= g < old_self.frames@.len() && old_self.frames@[g].page_id == x;
                    old_self.lemma_frame_is_current(g);
                    self.lemma_frame_is_current(g);
                } else if self.is_resident(x) {
                    let g = choose|g: int|
                        0 <= g < self.frames@.len() && self.frames@[g].page_id == x;
                    assert(old_self.frames@[g].page_id == x);
                }
            }
            assert forall|x: PageId| x < self.disk.next_id() implies #[trigger] self.is_resident(x)
                || (x as int) < self.disk.image().len() by {
                if old_self.is_resident(x) {
                    let g = choose|g: int|
                        0 <= g < old_self.frames@.len() && old_self.frames@[g].page_id == x;
                    assert(self.frames@[g].page_id == x);
                }
            }
        }
    }

    /// Writes every resident page to disk; afterwards the disk image holds the
    /// current content of every allocated page.
    pub fn flush_all(&mut self) -> (r: Result<(), String>)
        requires
            old(self).wf(),
        ensures
            r is Ok,
            final(self).wf(),
            forall|x: PageId| #[trigger] final(self).current(x) == old(self).current(x),
            flushed(*final(self)),
            final(self).next_id() == old(self).next_id(),
            final(self).resident_count() == old(self).resident_count(),
            forall|g: int|
                0 <= g < old(self).resident_count() ==> #[trigger] final(self).frame_page_id(g)
                    == old(self).frame_page_id(g) && final(self).frame_bytes(g) == old(self).frame_bytes(g),
            final(self).capacity_of() == old(self).capacity_of(),
    {
        let ghost old_self = *self;
        let mut i: usize = 0;
        while i < self.frames.len()
            invariant
                0 <= i <= self.frames@.len(),
                self.wf(),
                self.frames == old_self.frames,
                self.capacity == old_self.capacity,
                self.disk.next_id() == old_self.disk.next_id(),
                forall|x: PageId| #[trigger] self.current(x) == old_self.current(x),
                forall|k: int|
                    0 <= k < i ==> #[trigger] read_image(
                        self.disk.image(),
                        self.frames@[k].page_id as int,
                    ) == Some(self.frames@[k].page.data@),
            decreases self.frames@.len() - i,
        {
            let ghost before = *self;
            let ghost img0 = self.disk.image();
            let _ = self.disk.write_page(self.frames[i].page_id, &self.frames[i].page);
            proof {
                let id = self.frames@[i as int].page_id;
                let img1 = self.disk.image();
                assert forall|k: int| 0 <= k <= i implies #[trigger] read_image(
                    img1,
                    self.frames@[k].page_id as int,
                ) == Some(self.frames@[k].page.data@) by {
                    if k < i {
                        assert(self.frames@[k].page_id != id);
                        assert(read_image(img0, self.frames@[k].page_id as int) is Some);
                    }
                }
                assert forall|x: PageId| #[trigger] self.current(x) == before.current(x) by {
                    if !before.is_resident(x) {
                        assert(x != id) by {
                            assert(before.frames@[i as int].page_id == id);
                        }
                        if (x as int) >= img0.len() && (x as int) < img1.len() {
                            assert(img1.len() <= before.disk.next_id());
                        }
                    }
                }
                assert forall|x: PageId| x < self.disk.next_id() implies #[trigger] self.is_resident(x)
                    || (x as int) < self.disk.image().len() by {
                    assert(before.is_resident(x) || (x as int) < img0.len());
                }
            }
            i += 1;
        }
        proof {
            assert forall|x: PageId| x < self.next_id() implies #[trigger] read_image(
                self.disk.image(),
                x as int,
            ) == self.current(x) by {
                if self.is_resident(x) {
                    let g = choose|g: int|
                        0 <= g < self.frames@.len() && self.frames@[g].page_id == x;
                    self.lemma_frame_is_current(g);
                }
            }
            if self.next_id() > 0 {
                let x = (self.next_id() - 1) as PageId;
                self.lemma_current_facts(x);
                assert(read_image(self.disk.image(), x as int) == self.current(x));
            }
        }
        Ok(())
    }

    /// Number of resident pages.
    pub fn num_resident(&self) -> (r: usize)
        ensures
            r == self.resident_count(),
    {
        self.frames.len()
    }

    /// The id that the next created page gets.
    pub fn next_page_id(&self) -> (r: PageId)
        requires
            self.wf(),
        ensures
            r == self.next_id(),
    {
        self.disk.next_page_id()
    }

    /// The disk manager, for whoever persists the pages it records as written.
    pub fn disk(&self) -> (r: &DiskManager)
        ensures
            *r == self.disk_of(),
    {
        &self.disk
    }

    /// The ids of the pages written to disk since the last call, in order.
    pub fn take_written(&mut self) -> (r: Vec<PageId>)
        requires
            old(self).wf(),
        ensures
            final(self).wf(),
            r@ == old(self).disk_of().written(),
            forall|x: PageId| #[trigger] final(self).current(x) == old(self).current(x),
            final(self).next_id() == old(self).next_id(),
            final(self).resident_count() == old(self).resident_count(),
            forall|g: int|
                0 <= g < old(self).resident_count() ==> #[trigger] final(self).frame_page_id(g)
                    == old(self).frame_page_id(g) && final(self).frame_bytes(g) == old(self).frame_bytes(g),
            final(self).capacity_of() == old(self).capacity_of(),
    {
        let ghost old_self = *self;
        let r = self.disk.take_written();
        proof {
            assert forall|x: PageId| #[trigger] self.current(x) == old_self.current(x) by {
                if self.is_resident(x) {
                    let g = choose|g: int|
                        0 <= g < self.frames@.len() && self.frames@[g].page_id == x;
                    self.lemma_frame_is_current(g);
                    old_self.lemma_frame_is_current(g);
                }
            }
            assert forall|x: PageId| x < self.disk.next_id() implies #[trigger] self.is_resident(x)
                || (x as int) < self.disk.image().len() by {
                assert(old_self.is_resident(x) || (x as int) < old_self.disk.image().len());
            }
        }
        r
    }
}

} // verus!
