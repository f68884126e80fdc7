//! Pages and the disk manager.
//!
//! The disk manager holds the image of the database file: a dense sequence of
//! pages, page `p` at byte offset `p * PAGE_SIZE`. It records the id of every
//! page written, so that whoever owns the file can write those pages back.
use vstd::prelude::*;

verus! {

/// Size in bytes of every page.
pub const PAGE_SIZE: usize = 4096;

/// Index of a page within the database file.
pub type PageId = u32;

/// A fixed-size buffer of `PAGE_SIZE` bytes.
#[derive(Debug, Clone)]
pub struct Page {
    pub data: Vec<u8>,
}

impl Page {
    /// A page holds exactly `PAGE_SIZE` bytes.
    pub open spec fn wf(&self) -> bool {
        self.data@.len() == PAGE_SIZE
    }

    pub fn new() -> (r: Self)
        ensures
            r.wf(),
            r.data@ == Seq::new(PAGE_SIZE as nat, |i: int| 0u8),
    {
        let r = Page { data: vec![0u8; PAGE_SIZE] };
        assert(r.data@ =~= Seq::new(PAGE_SIZE as nat, |i: int| 0u8));
        r
    }

    /// A page holding the same bytes.
    pub fn copy(&self) -> (r: Page)
        ensures
            r.data@ == self.data@,
    {
        let mut data: Vec<u8> = Vec::with_capacity(self.data.len());
        let mut i: usize = 0;
        while i < self.data.len()
            invariant
                0 <= i <= self.data@.len(),
                data@ =~= self.data@.subrange(0, i as int),
            decreases self.data@.len() - i,
        {
            data.push(self.data[i]);
            i += 1;
        }
        Page { data }
    }
}

/// A page of zero bytes.
pub open spec fn zero_page() -> Seq<u8> {
    Seq::new(PAGE_SIZE as nat, |i: int| 0u8)
}

/// The file image after writing `p` as page `id`: pages between the old end
/// and `id` read as zeros.
pub open spec fn write_image(img: Seq<Seq<u8>>, id: int, p: Seq<u8>) -> Seq<Seq<u8>> {
    if id < img.len() {
        img.update(id, p)
    } else {
        img + Seq::new((id - img.len()) as nat, |i: int| zero_page()) + seq![p]
    }
}

/// The page `id` of the file image, if the file reaches it.
pub open spec fn read_image(img: Seq<Seq<u8>>, id: int) -> Option<Seq<u8>> {
    if 0 <= id < img.len() {
        Some(img[id])
    } else {
        None
    }
}

/// The bytes of a file made of these pages, in order.
pub open spec fn image_bytes(img: Seq<Seq<u8>>) -> Seq<u8>
    decreases img.len(),
{
    if img.len() == 0 {
        Seq::empty()
    } else {
        image_bytes(img.drop_last()) + img.last()
    }
}

/// Cutting the bytes of a file image back into pages gives the image: as
/// many whole pages as there were, each with its bytes.
pub proof fn lemma_reopen_round_trip(img: Seq<Seq<u8>>)
    requires
        forall|i: int| 0 <= i < img.len() ==> (#[trigger] img[i]).len() == PAGE_SIZE,
    ensures
        image_bytes(img).len() == img.len() * PAGE_SIZE,
        image_bytes(img).len() as int / (PAGE_SIZE as int) == img.len(),
        forall|i: int|
            0 <= i < img.len() ==> #[trigger] image_bytes(img).subrange(
                i * PAGE_SIZE,
                i * PAGE_SIZE + PAGE_SIZE,
            ) == img[i],
    decreases img.len(),
{
    if img.len() > 0 {
        let init = img.drop_last();
        lemma_reopen_round_trip(init);
        let b = image_bytes(img);
        let n = init.len() as int;
        assert(b == image_bytes(init) + img.last());
        assert(b.len() == img.len() * PAGE_SIZE) by (nonlinear_arith)
            requires
                b.len() == n * PAGE_SIZE + PAGE_SIZE,
                img.len() == n + 1,
        ;
        assert forall|i: int| 0 <= i < img.len() implies #[trigger] b.subrange(
            i * PAGE_SIZE,
            i * PAGE_SIZE + PAGE_SIZE,
        ) == img[i] by {
            if i < n {
                assert(i * PAGE_SIZE + PAGE_SIZE <= n * PAGE_SIZE) by (nonlinear_arith)
                    requires
                        i < n,
                ;
                assert(0 <= i * PAGE_SIZE) by (nonlinear_arith)
                    requires
                        0 <= i,
                ;
                assert(init[i] == img[i]);
                assert(b.subrange(i * PAGE_SIZE, i * PAGE_SIZE + PAGE_SIZE) =~= image_bytes(
                    init,
                ).subrange(i * PAGE_SIZE, i * PAGE_SIZE + PAGE_SIZE));
            } else {
                assert(b.subrange(i * PAGE_SIZE, i * PAGE_SIZE + PAGE_SIZE) =~= img.last());
            }
        }
    }
    assert(image_bytes(img).len() as int / (PAGE_SIZE as int) == img.len()) by (nonlinear_arith)
        requires
            image_bytes(img).len() == img.len() * PAGE_SIZE,
    ;
}

/// Reading a page back after writing it gives the bytes written.
pub proof fn lemma_disk_round_trip(img: Seq<Seq<u8>>, id: int, p: Seq<u8>)
    requires
        0 <= id,
    ensures
        read_image(write_image(img, id, p), id) == Some(p),
{
}

/// Writing a page leaves every other page of the file as it was.
pub proof fn lemma_disk_write_isolated(img: Seq<Seq<u8>>, id: int, p: Seq<u8>, other: int)
    requires
        0 <= id,
        0 <= other < img.len(),
        other != id,
    ensures
        read_image(write_image(img, id, p), other) == read_image(img, other),
{
}

/// Fixed-size page reads and writes over the file image, and monotonic page
/// allocation.
pub struct DiskManager {
    pages: Vec<Page>,
    next_page_id: PageId,
    written: Vec<PageId>,
}

impl DiskManager {
    /// The pages of the file image.
    pub closed spec fn image(&self) -> Seq<Seq<u8>> {
        Seq::new(self.pages@.len(), |i: int| self.pages@[i].data@)
    }

    /// The id that the next allocation returns.
    pub closed spec fn next_id(&self) -> PageId {
        self.next_page_id
    }

    /// The ids of the pages written since they were last taken, in order.
    pub closed spec fn written(&self) -> Seq<PageId> {
        self.written@
    }

    pub closed spec fn wf(&self) -> bool {
        forall|i: int| 0 <= i < self.pages@.len() ==> (#[trigger] self.pages@[i]).wf()
    }

    /// Each page of the image is one page long.
    pub proof fn lemma_image_pages(&self, i: int)
        requires
            self.wf(),
            0 <= i < self.image().len(),
        ensures
            self.image()[i].len() == PAGE_SIZE,
    {
        assert(self.pages@[i].wf());
    }

    /// Opens the image of a database file: its whole pages, in order. The
    /// next page id is the number of whole pages.
    pub fn open(bytes: &[u8]) -> (r: DiskManager)
        requires
            bytes@.len() as int / (PAGE_SIZE as int) <= u32::MAX,
        ensures
            r.wf(),
            r.next_id() == bytes@.len() as int / (PAGE_SIZE as int),
            r.image().len() == bytes@.len() as int / (PAGE_SIZE as int),
            forall|i: int|
                0 <= i < r.image().len() ==> #[trigger] r.image()[i] == bytes@.subrange(
                    i * PAGE_SIZE,
                    i * PAGE_SIZE + PAGE_SIZE,
                ),
            r.written() == Seq::<PageId>::empty(),
    {
        let total = bytes.len();
        let count = total / PAGE_SIZE;
        let mut pages: Vec<Page> = Vec::with_capacity(count);
        let mut p: usize = 0;
        while p < count
            invariant
                0 <= p <= count,
                total == bytes@.len(),
                count == bytes@.len() as int / (PAGE_SIZE as int),
                pages@.len() == p,
                forall|i: int| 0 <= i < p ==> (#[trigger] pages@[i]).wf(),
                forall|i: int|
                    0 <= i < p ==> #[trigger] pages@[i].data@ == bytes@.subrange(
                        i * PAGE_SIZE,
                        i * PAGE_SIZE + PAGE_SIZE,
                    ),
            decreases count - p,
        {
            proof {
                assert((p + 1) * PAGE_SIZE <= bytes@.len()) by (nonlinear_arith)
                    requires
                        p + 1 <= count,
                        count == bytes@.len() / 4096,
                        PAGE_SIZE == 4096,
                ;
            }
            let base = p * PAGE_SIZE;
            let mut data: Vec<u8> = Vec::with_capacity(PAGE_SIZE);
            let mut j: usize = 0;
            while j < PAGE_SIZE
                invariant
                    0 <= j <= PAGE_SIZE,
                    total == bytes@.len(),
                    base + PAGE_SIZE <= bytes@.len(),
                    data@ =~= bytes@.subrange(base as int, base + j),
                decreases PAGE_SIZE - j,
            {
                data.push(bytes[base + j]);
                j += 1;
            }
            pages.push(Page { data });
            p += 1;
        }
        let r = DiskManager { pages, next_page_id: count as PageId, written: Vec::new() };
        assert(r.written() =~= Seq::<PageId>::empty());
        r
    }

    /// A copy of page `page_id`; fails when the file does not reach it.
    pub fn read_page(&self, page_id: PageId) -> (r: Result<Page, String>)
        requires
            self.wf(),
        ensures
            r is Ok <==> read_image(self.image(), page_id as int) is Some,
            r is Ok ==> r->Ok_0.wf() && r->Ok_0.data@ == self.image()[page_id as int],
    {
        if (page_id as usize) < self.pages.len() {
            Ok(self.pages[page_id as usize].copy())
        } else {
            Err("failed to fill whole buffer".to_string())
        }
    }

    /// Writes `page` as page `page_id`, growing the file when the page lies
    /// past its end. The allocation counter is left as it is.
    pub fn write_page(&mut self, page_id: PageId, page: &Page) -> (r: Result<(), String>)
        requires
            old(self).wf(),
            page.wf(),
        ensures
            r is Ok,
            final(self).wf(),
            final(self).image() == write_image(old(self).image(), page_id as int, page.data@),
            final(self).next_id() == old(self).next_id(),
            final(self).written() == old(self).written().push(page_id),
    {
        let ghost img0 = self.image();
        let target = page_id as usize;
        if target < self.pages.len() {
            let copy = page.copy();
            self.pages.set(target, copy);
            assert(self.image() =~= write_image(img0, page_id as int, page.data@));
        } else {
            let start = self.pages.len();
            while self.pages.len() < target
                invariant
                    start <= self.pages@.len() <= target,
                    self.next_page_id == old(self).next_page_id,
                    self.written == old(self).written,
                    img0.len() == start,
                    forall|i: int| 0 <= i < self.pages@.len() ==> (#[trigger] self.pages@[i]).wf(),
                    self.image() =~= img0 + Seq::new(
                        (self.pages@.len() - start) as nat,
                        |i: int| zero_page(),
                    ),
                decreases target - self.pages@.len(),
            {
                let z = Page::new();
                assert(z.data@ =~= zero_page());
                let ghost before = self.image();
                let ghost n = (self.pages@.len() - start) as nat;
                self.pages.push(z);
                assert(self.image() =~= before.push(zero_page()));
                assert(img0 + Seq::new(n, |i: int| zero_page()).push(zero_page()) =~= img0 + Seq::new(
                    n + 1,
                    |i: int| zero_page(),
                ));
            }
            self.pages.push(page.copy());
            assert(self.image() =~= write_image(img0, page_id as int, page.data@));
        }
        self.written.push(page_id);
        Ok(())
    }

    /// Hands out the next page id. The file itself grows only when that page
    /// is first written.
    pub fn allocate_page(&mut self) -> (r: PageId)
        requires
            old(self).wf(),
            old(self).next_id() < u32::MAX,
        ensures
            final(self).wf(),
            r == old(self).next_id(),
            final(self).next_id() == old(self).next_id() + 1,
            final(self).image() == old(self).image(),
            final(self).written() == old(self).written(),
    {
        let page_id = self.next_page_id;
        self.next_page_id = self.next_page_id + 1;
        page_id
    }

    /// The id that the next allocation returns.
    pub fn next_page_id(&self) -> (r: PageId)
        ensures
            r == self.next_id(),
    {
        self.next_page_id
    }

    /// Whether another page id can be handed out.
    pub fn can_allocate(&self) -> (r: bool)
        ensures
            r == (self.next_id() < u32::MAX),
    {
        self.next_page_id < u32::MAX
    }

    /// The ids of the pages written since the last call, in order of writing;
    /// the record starts over empty.
    pub fn take_written(&mut self) -> (r: Vec<PageId>)
        ensures
            r@ == old(self).written(),
            final(self).written() == Seq::<PageId>::empty(),
            final(self).image() == old(self).image(),
            final(self).next_id() == old(self).next_id(),
            old(self).wf() ==> final(self).wf(),
    {
        let mut r: Vec<PageId> = Vec::new();
        std::mem::swap(&mut r, &mut self.written);
        assert(self.written() =~= Seq::<PageId>::empty());
        r
    }

    /// The whole file image as bytes.
    pub fn to_bytes(&self) -> (r: Vec<u8>)
        ensures
            r@ == image_bytes(self.image()),
            self.wf() ==> r@.len() == self.image().len() * PAGE_SIZE && r@.len() as int / (
            PAGE_SIZE as int) == self.image().len(),
    {
        let mut out: Vec<u8> = Vec::new();
        let mut p: usize = 0;
        while p < self.pages.len()
            invariant
                0 <= p <= self.pages@.len(),
                out@ == image_bytes(self.image().subrange(0, p as int)),
            decreases self.pages@.len() - p,
        {
            let ghost before = out@;
            let data = &self.pages[p].data;
            let mut j: usize = 0;
            while j < data.len()
                invariant
                    0 <= j <= data@.len(),
                    out@ == before + data@.subrange(0, j as int),
                decreases data@.len() - j,
            {
                out.push(data[j]);
                j += 1;
                assert(out@ =~= before + data@.subrange(0, j as int));
            }
            proof {
                let sub = self.image().subrange(0, p + 1);
                assert(sub.drop_last() =~= self.image().subrange(0, p as int));
                assert(data@.subrange(0, j as int) =~= data@);
            }
            p += 1;
        }
        assert(self.image().subrange(0, p as int) =~= self.image());
        proof {
            if self.wf() {
                assert forall|i: int| 0 <= i < self.image().len() implies (#[trigger] self.image()[i]).len()
                    == PAGE_SIZE by {
                    self.lemma_image_pages(i);
                }
                lemma_reopen_round_trip(self.image());
            }
        }
        out
    }

    /// The bytes of page `page_id` of the image, if the file reaches it.
    pub fn page_bytes(&self, page_id: PageId) -> (r: Option<&Page>)
        ensures
            r is Some <==> read_image(self.image(), page_id as int) is Some,
            r is Some ==> r->Some_0.data@ == self.image()[page_id as int],
    {
        if (page_id as usize) < self.pages.len() {
            Some(&self.pages[page_id as usize])
        } else {
            None
        }
    }
}

} // verus!
