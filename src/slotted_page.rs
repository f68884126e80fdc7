//! Slotted-page layout: a header, a slot directory growing upward from the
//! header, and tuple payloads packed downward from the end of the page.
//!
//! Header: bytes `[0, 2)` hold the slot count, `[2, 4)` the free-space pointer
//! (offset of the lowest payload byte), `[4, 8)` the id of the next page in the
//! heap chain. Slot `i` sits at `[8 + 4 i, 8 + 4 i + 4)` as (offset, length).
//! All integers are little-endian.
use vstd::prelude::*;
use crate::storage::{Page, PAGE_SIZE};

verus! {

pub const HEADER_SIZE: usize = 8;

/// Bytes taken by one slot entry: offset and length, two bytes each.
pub const SLOT_SIZE: usize = 4;

/// Marks the end of a heap chain.
pub const NO_NEXT_PAGE: u32 = 0xffff_ffff;

/// Little-endian 16-bit value at `off`.
pub open spec fn u16_at(d: Seq<u8>, off: int) -> int {
    d[off] as int + 256 * (d[off + 1] as int)
}

/// Little-endian 32-bit value at `off`.
pub open spec fn u32_at(d: Seq<u8>, off: int) -> int {
    d[off] as int + 256 * (d[off + 1] as int) + 65536 * (d[off + 2] as int) + 16777216 * (
    d[off + 3] as int)
}

pub open spec fn num_slots_of(d: Seq<u8>) -> int {
    u16_at(d, 0)
}

pub open spec fn free_pointer_of(d: Seq<u8>) -> int {
    u16_at(d, 2)
}

pub open spec fn next_page_of(d: Seq<u8>) -> int {
    u32_at(d, 4)
}

/// Offset of the directory entry of slot `i`.
pub open spec fn slot_pos(i: int) -> int {
    HEADER_SIZE + SLOT_SIZE * i
}

pub open spec fn slot_offset_of(d: Seq<u8>, i: int) -> int {
    u16_at(d, slot_pos(i))
}

pub open spec fn slot_length_of(d: Seq<u8>, i: int) -> int {
    u16_at(d, slot_pos(i) + 2)
}

/// End of the slot directory.
pub open spec fn slots_end_of(d: Seq<u8>) -> int {
    slot_pos(num_slots_of(d))
}

/// Bytes between the slot directory and the lowest payload, or zero when the
/// header says they overlap.
pub open spec fn free_space_of(d: Seq<u8>) -> int {
    if free_pointer_of(d) > slots_end_of(d) {
        free_pointer_of(d) - slots_end_of(d)
    } else {
        0
    }
}

/// The payload of slot `i`.
pub open spec fn tuple_of(d: Seq<u8>, i: int) -> Seq<u8> {
    d.subrange(slot_offset_of(d, i), slot_offset_of(d, i) + slot_length_of(d, i))
}

/// The payloads of all slots, in slot order.
pub open spec fn tuples_of(d: Seq<u8>) -> Seq<Seq<u8>> {
    Seq::new(num_slots_of(d) as nat, |i: int| tuple_of(d, i))
}

/// The layout invariants of a slotted page: the directory ends at or before the
/// free-space pointer, which is within the page; every payload lies between
/// the free-space pointer and the end of the page; each later payload lies
/// below the earlier ones.
pub open spec fn slotted_wf(d: Seq<u8>) -> bool {
    &&& d.len() == PAGE_SIZE
    &&& slots_end_of(d) <= free_pointer_of(d) <= PAGE_SIZE
    &&& forall|i: int|
        0 <= i < num_slots_of(d) ==> {
            &&& free_pointer_of(d) <= #[trigger] slot_offset_of(d, i)
            &&& slot_offset_of(d, i) + slot_length_of(d, i) <= PAGE_SIZE
        }
    &&& forall|i: int|
        0 <= i && i + 1 < num_slots_of(d) ==> #[trigger] slot_offset_of(d, i + 1)
            + slot_length_of(d, i + 1) <= slot_offset_of(d, i)
}

/// Whether a tuple of `len` bytes fits: the header is sane and the free space
/// holds its slot entry and its payload.
pub open spec fn fits(d: Seq<u8>, len: int) -> bool {
    free_pointer_of(d) <= PAGE_SIZE && free_space_of(d) >= SLOT_SIZE + len
}

fn write_u16(data: &mut Vec<u8>, offset: usize, value: u16)
    requires
        old(data)@.len() == PAGE_SIZE,
        offset + 2 <= PAGE_SIZE,
    ensures
        final(data)@.len() == old(data)@.len(),
        u16_at(final(data)@, offset as int) == value,
        forall|j: int|
            0 <= j < old(data)@.len() && j != offset && j != offset + 1 ==> final(data)@[j]
                == old(data)@[j],
{
    data.set(offset, (value % 256) as u8);
    data.set(offset + 1, (value / 256) as u8);
}

fn read_u16(data: &Vec<u8>, offset: usize) -> (r: u16)
    requires
        data@.len() == PAGE_SIZE,
        offset + 2 <= PAGE_SIZE,
    ensures
        r == u16_at(data@, offset as int),
{
    data[offset] as u16 + (data[offset + 1] as u16) * 256
}

fn write_u32(data: &mut Vec<u8>, offset: usize, value: u32)
    requires
        old(data)@.len() == PAGE_SIZE,
        offset + 4 <= PAGE_SIZE,
    ensures
        final(data)@.len() == old(data)@.len(),
        u32_at(final(data)@, offset as int) == value,
        forall|j: int|
            0 <= j < old(data)@.len() && !(offset <= j < offset + 4) ==> final(data)@[j]
                == old(data)@[j],
{
    proof {
        lemma_u32_digits(value);
    }
    data.set(offset, (value % 256) as u8);
    data.set(offset + 1, ((value / 256) % 256) as u8);
    data.set(offset + 2, ((value / 65536) % 256) as u8);
    data.set(offset + 3, (value / 16777216) as u8);
}

proof fn lemma_u32_digits(v: u32)
    ensures
        v as int == (v % 256) as int + 256 * ((v / 256) % 256) as int + 65536 * ((v / 65536)
            % 256) as int + 16777216 * (v / 16777216) as int,
        v / 16777216 < 256,
{
}

fn read_u32(data: &Vec<u8>, offset: usize) -> (r: u32)
    requires
        data@.len() == PAGE_SIZE,
        offset + 4 <= PAGE_SIZE,
    ensures
        r == u32_at(data@, offset as int),
{
    data[offset] as u32 + (data[offset + 1] as u32) * 256 + (data[offset + 2] as u32) * 65536 + (
    data[offset + 3] as u32) * 16777216
}

/// A page read and written through the slotted layout.
pub struct SlottedPage {
    pub page: Page,
}

impl SlottedPage {
    /// The bytes of the underlying page.
    pub open spec fn bytes(&self) -> Seq<u8> {
        self.page.data@
    }

    pub open spec fn wf(&self) -> bool {
        self.page.wf()
    }

    pub fn new(page: Page) -> (r: Self)
        ensures
            r.page == page,
    {
        SlottedPage { page }
    }

    /// Gives the underlying page back.
    pub fn into_page(self) -> (r: Page)
        ensures
            r == self.page,
    {
        self.page
    }

    /// Formats the page as an empty slotted page with no successor.
    pub fn init(&mut self)
        requires
            old(self).wf(),
        ensures
            final(self).wf(),
            num_slots_of(final(self).bytes()) == 0,
            free_pointer_of(final(self).bytes()) == PAGE_SIZE,
            next_page_of(final(self).bytes()) == NO_NEXT_PAGE,
            slotted_wf(final(self).bytes()),
            tuples_of(final(self).bytes()) == Seq::<Seq<u8>>::empty(),
            forall|j: int| 8 <= j < PAGE_SIZE ==> #[trigger] final(self).bytes()[j] == old(self).bytes()[j],
    {
        self.set_num_slots(0);
        self.set_free_space_pointer(PAGE_SIZE as u16);
        self.set_next_page_id(NO_NEXT_PAGE);
        assert(tuples_of(self.bytes()) =~= Seq::<Seq<u8>>::empty());
    }

    pub fn num_slots(&self) -> (r: u16)
        requires
            self.wf(),
        ensures
            r == num_slots_of(self.bytes()),
    {
        read_u16(&self.page.data, 0)
    }

    fn set_num_slots(&mut self, num: u16)
        requires
            old(self).wf(),
        ensures
            final(self).wf(),
            num_slots_of(final(self).bytes()) == num,
            forall|j: int| 2 <= j < PAGE_SIZE ==> final(self).bytes()[j] == old(self).bytes()[j],
    {
        write_u16(&mut self.page.data, 0, num);
    }

    fn free_space_pointer(&self) -> (r: u16)
        requires
            self.wf(),
        ensures
            r == free_pointer_of(self.bytes()),
    {
        read_u16(&self.page.data, 2)
    }

    fn set_free_space_pointer(&mut self, ptr: u16)
        requires
            old(self).wf(),
        ensures
            final(self).wf(),
            free_pointer_of(final(self).bytes()) == ptr,
            forall|j: int|
                0 <= j < PAGE_SIZE && j != 2 && j != 3 ==> final(self).bytes()[j] == old(self).bytes()[j],
    {
        write_u16(&mut self.page.data, 2, ptr);
    }

    /// The id of the next page of the heap chain, or `NO_NEXT_PAGE`.
    pub fn next_page_id(&self) -> (r: u32)
        requires
            self.wf(),
        ensures
            r == next_page_of(self.bytes()),
    {
        read_u32(&self.page.data, 4)
    }

    /// Sets the link to the next page; slots and payloads are left as they are.
    pub fn set_next_page_id(&mut self, page_id: u32)
        requires
            old(self).wf(),
        ensures
            final(self).wf(),
            next_page_of(final(self).bytes()) == page_id,
            forall|j: int|
                0 <= j < PAGE_SIZE && !(4 <= j < 8) ==> final(self).bytes()[j] == old(self).bytes()[j],
            num_slots_of(final(self).bytes()) == num_slots_of(old(self).bytes()),
            free_pointer_of(final(self).bytes()) == free_pointer_of(old(self).bytes()),
            slotted_wf(old(self).bytes()) ==> slotted_wf(final(self).bytes()),
            slotted_wf(old(self).bytes()) ==> tuples_of(final(self).bytes()) == tuples_of(
                old(self).bytes(),
            ),
    {
        write_u32(&mut self.page.data, 4, page_id);
        proof {
            let d0 = old(self).bytes();
            let d1 = self.bytes();
            if slotted_wf(d0) {
                assert forall|i: int| 0 <= i < num_slots_of(d0) implies #[trigger] slot_offset_of(
                    d1,
                    i,
                ) == slot_offset_of(d0, i) && slot_length_of(d1, i) == slot_length_of(d0, i) by {
                    assert(slot_pos(i) + SLOT_SIZE <= slots_end_of(d0));
                }
                assert forall|i: int| 0 <= i < num_slots_of(d0) implies #[trigger] tuple_of(d1, i)
                    == tuple_of(d0, i) by {
                    assert(slot_pos(i) + SLOT_SIZE <= slots_end_of(d0));
                    assert(tuple_of(d1, i) =~= tuple_of(d0, i));
                }
                assert(tuples_of(d1) =~= tuples_of(d0));
            }
        }
    }

    fn slots_end(&self) -> (r: usize)
        requires
            self.wf(),
        ensures
            r == slots_end_of(self.bytes()),
    {
        HEADER_SIZE + (self.num_slots() as usize * SLOT_SIZE)
    }

    /// Bytes between the slot directory and the lowest payload.
    pub fn free_space(&self) -> (r: usize)
        requires
            self.wf(),
        ensures
            r == free_space_of(self.bytes()),
    {
        let data_start = self.free_space_pointer() as usize;
        let slots_end = self.slots_end();
        if data_start > slots_end {
            data_start - slots_end
        } else {
            0
        }
    }
    /// Appends a tuple: its payload goes just below the lowest payload, its
    /// slot entry at the end of the directory. Fails with "Page full" when the
    /// free space cannot hold the slot entry and the payload, or when the
    /// free-space pointer lies past the end of the page.
    pub fn add_tuple(&mut self, tuple_data: &[u8]) -> (r: Result<u16, String>)
        requires
            old(self).wf(),
        ensures
            final(self).wf(),
            r is Ok <==> fits(old(self).bytes(), tuple_data@.len() as int),
            r is Err ==> final(self).bytes() == old(self).bytes() && r->Err_0@ == "Page full"@,
            r is Ok ==> {
                let d0 = old(self).bytes();
                let d1 = final(self).bytes();
                let n = num_slots_of(d0);
                &&& r->Ok_0 == n
                &&& num_slots_of(d1) == n + 1
                &&& free_pointer_of(d1) == free_pointer_of(d0) - tuple_data@.len()
                &&& next_page_of(d1) == next_page_of(d0)
                &&& slot_offset_of(d1, n) == free_pointer_of(d1)
                &&& slot_length_of(d1, n) == tuple_data@.len()
                &&& tuple_of(d1, n) == tuple_data@
                &&& slotted_wf(d0) ==> slotted_wf(d1)
                &&& slotted_wf(d0) ==> tuples_of(d1) == tuples_of(d0).push(tuple_data@)
            },
    {
        let tuple_len = tuple_data.len();
        let fsp = self.free_space_pointer() as usize;
        let free = self.free_space();
        if fsp > PAGE_SIZE || free < SLOT_SIZE || free - SLOT_SIZE < tuple_len {
            return Err("Page full".to_string());
        }
        let ghost d0 = self.bytes();
        let new_data_offset = fsp - tuple_len;
        let mut k: usize = 0;
        while k < tuple_len
            invariant
                self.wf(),
                0 <= k <= tuple_len,
                tuple_len == tuple_data@.len(),
                d0.len() == PAGE_SIZE,
                new_data_offset + tuple_len == fsp,
                fsp <= PAGE_SIZE,
                forall|j: int|
                    0 <= j < k ==> #[trigger] self.bytes()[new_data_offset + j] == tuple_data@[j],
                forall|j: int|
                    0 <= j < PAGE_SIZE && !(new_data_offset <= j < new_data_offset + k)
                        ==> #[trigger] self.bytes()[j] == d0[j],
            decreases tuple_len - k,
        {
            let ghost before = self.bytes();
            self.page.data.set(new_data_offset + k, tuple_data[k]);
            assert(self.bytes() == before.update(new_data_offset + k, tuple_data@[k as int]));
            k += 1;
        }
        let slot_id = self.num_slots();
        let slot_offset = HEADER_SIZE + (slot_id as usize * SLOT_SIZE);
        write_u16(&mut self.page.data, slot_offset, new_data_offset as u16);
        let ghost d_a = self.bytes();
        write_u16(&mut self.page.data, slot_offset + 2, tuple_len as u16);
        let ghost d_b = self.bytes();
        assert(u16_at(d_b, slot_offset as int) == u16_at(d_a, slot_offset as int));
        self.set_num_slots(slot_id + 1);
        self.set_free_space_pointer(new_data_offset as u16);
        proof {
            let d1 = self.bytes();
            assert(d1[slot_offset as int] == d_b[slot_offset as int]);
            assert(d1[slot_offset + 1] == d_b[slot_offset + 1]);
            assert(d1[slot_offset + 2] == d_b[slot_offset + 2]);
            assert(d1[slot_offset + 3] == d_b[slot_offset + 3]);
            assert(slot_offset_of(d1, num_slots_of(d0)) == new_data_offset);
            assert(slot_length_of(d1, num_slots_of(d0)) == tuple_len);
        }
        proof {
            let d1 = self.bytes();
            let n = num_slots_of(d0);
            let len = tuple_len as int;
            let lo = new_data_offset as int;
            assert forall|j: int| 0 <= j < len implies #[trigger] d1[lo + j] == tuple_data@[j] by {
                assert(lo + j >= slot_offset + 4);
            }
            assert(slot_offset_of(d1, n) == lo);
            assert(slot_length_of(d1, n) == len);
            assert(tuple_of(d1, n) == d1.subrange(lo, lo + len));
            assert forall|j: int| 0 <= j < len implies #[trigger] tuple_of(d1, n)[j]
                == tuple_data@[j] by {
                assert(d1[lo + j] == tuple_data@[j]);
            }
            assert(tuple_of(d1, n) =~= tuple_data@);
            assert forall|j: int|
                4 <= j < PAGE_SIZE && !(lo <= j < fsp) && !(slot_offset <= j < slot_offset
                    + 4) implies #[trigger] d1[j] == d0[j] by {}
            if slotted_wf(d0) {
                assert forall|i: int| 0 <= i < n implies #[trigger] slot_offset_of(d1, i)
                    == slot_offset_of(d0, i) && slot_length_of(d1, i) == slot_length_of(d0, i) by {
                    assert(slot_pos(i) + SLOT_SIZE <= slot_offset);
                    assert(d1[slot_pos(i)] == d0[slot_pos(i)]);
                    assert(d1[slot_pos(i) + 1] == d0[slot_pos(i) + 1]);
                    assert(d1[slot_pos(i) + 2] == d0[slot_pos(i) + 2]);
                    assert(d1[slot_pos(i) + 3] == d0[slot_pos(i) + 3]);
                }
                assert forall|i: int| 0 <= i < n implies #[trigger] tuple_of(d1, i) == tuple_of(
                    d0,
                    i,
                ) by {
                    assert(slot_offset_of(d1, i) == slot_offset_of(d0, i));
                    assert(slot_length_of(d1, i) == slot_length_of(d0, i));
                    assert forall|j: int|
                        slot_offset_of(d0, i) <= j < slot_offset_of(d0, i) + slot_length_of(
                            d0,
                            i,
                        ) implies d1[j] == d0[j] by {}
                    assert(tuple_of(d1, i) =~= tuple_of(d0, i));
                }
                assert(tuples_of(d1) =~= tuples_of(d0).push(tuple_data@));
                assert forall|i: int| 0 <= i < num_slots_of(d1) implies {
                    &&& free_pointer_of(d1) <= #[trigger] slot_offset_of(d1, i)
                    &&& slot_offset_of(d1, i) + slot_length_of(d1, i) <= PAGE_SIZE
                } by {
                    if i < n {
                        assert(slot_offset_of(d1, i) == slot_offset_of(d0, i));
                        assert(slot_length_of(d1, i) == slot_length_of(d0, i));
                    }
                }
                assert forall|i: int| 0 <= i && i + 1 < num_slots_of(d1) implies #[trigger] slot_offset_of(
                    d1,
                    i + 1,
                ) + slot_length_of(d1, i + 1) <= slot_offset_of(d1, i) by {
                    assert(slot_offset_of(d1, i) == slot_offset_of(d0, i));
                    assert(slot_length_of(d1, i) == slot_length_of(d0, i));
                    if i + 1 < n {
                        assert(slot_offset_of(d1, i + 1) == slot_offset_of(d0, i + 1));
                        assert(slot_length_of(d1, i + 1) == slot_length_of(d0, i + 1));
                    }
                }
            }
        }
        Ok(slot_id)
    }

    /// A copy of the payload of slot `slot_id`; `None` when there is no such
    /// slot, or when its entry or payload would lie outside the page.
    pub fn get_tuple(&self, slot_id: u16) -> (r: Option<Vec<u8>>)
        requires
            self.wf(),
        ensures
            ({
                let d = self.bytes();
                let i = slot_id as int;
                r is Some <==> (i < num_slots_of(d) && slot_pos(i) + SLOT_SIZE <= PAGE_SIZE
                    && slot_offset_of(d, i) + slot_length_of(d, i) <= PAGE_SIZE)
            }),
            r is Some ==> r->Some_0@ == tuple_of(self.bytes(), slot_id as int),
            slotted_wf(self.bytes()) && (slot_id as int) < num_slots_of(self.bytes()) ==> r is Some,
    {
        if slot_id >= self.num_slots() {
            return None;
        }
        let slot_offset = HEADER_SIZE + (slot_id as usize * SLOT_SIZE);
        if slot_offset + SLOT_SIZE > PAGE_SIZE {
            return None;
        }
        let data_offset = read_u16(&self.page.data, slot_offset) as usize;
        let data_length = read_u16(&self.page.data, slot_offset + 2) as usize;
        if data_offset + data_length > PAGE_SIZE {
            return None;
        }
        let mut out: Vec<u8> = Vec::with_capacity(data_length);
        let mut k: usize = 0;
        while k < data_length
            invariant
                self.wf(),
                0 <= k <= data_length,
                data_offset + data_length <= PAGE_SIZE,
                out@ =~= self.bytes().subrange(data_offset as int, data_offset + k),
            decreases data_length - k,
        {
            out.push(self.page.data[data_offset + k]);
            k += 1;
        }
        Some(out)
    }
}

} // verus!
