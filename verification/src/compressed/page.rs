use vstd::bytes::*;
use vstd::prelude::*;
use vstd::slice::slice_subrange;

use crate::error::Error;
use crate::header::HEADER_OFFSET;
use crate::region::{spec_truncate_write, truncate_write};

verus! {

/// Size in bytes of one entry of the page table.
pub const SIZE_OF_PAGE: usize = 16;

/// Where a compressed page lies in the data region and how many values it
/// holds.
#[derive(Debug, Clone, Copy, PartialEq, Eq, Structural)]
pub struct Page {
    pub start: u64,
    pub bytes: u32,
    pub values: u32,
}

impl Page {
    pub fn new(start: u64, bytes: u32, values: u32) -> (r: Page)
        ensures
            r == (Page { start, bytes, values }),
    {
        Page { start, bytes, values }
    }

    /// The 16 bytes of a page-table entry: `start`, `bytes` and `values`,
    /// little-endian.
    pub open spec fn spec_to_bytes(self) -> Seq<u8> {
        spec_u64_to_le_bytes(self.start) + spec_u32_to_le_bytes(self.bytes) + spec_u32_to_le_bytes(
            self.values,
        )
    }

    pub open spec fn spec_from_bytes(b: Seq<u8>) -> Page {
        Page {
            start: spec_u64_from_le_bytes(b.subrange(0, 8)),
            bytes: spec_u32_from_le_bytes(b.subrange(8, 12)),
            values: spec_u32_from_le_bytes(b.subrange(12, 16)),
        }
    }

    pub fn to_bytes(&self) -> (r: Vec<u8>)
        ensures
            r@ == self.spec_to_bytes(),
            r@.len() == SIZE_OF_PAGE,
    {
        proof {
            lemma_auto_spec_u64_to_from_le_bytes();
            lemma_auto_spec_u32_to_from_le_bytes();
            assert(spec_u32_to_le_bytes(self.bytes).len() == 4);
            assert(spec_u32_to_le_bytes(self.values).len() == 4);
        }
        let mut out = u64_to_le_bytes(self.start);
        let mut b = u32_to_le_bytes(self.bytes);
        let mut v = u32_to_le_bytes(self.values);
        out.append(&mut b);
        out.append(&mut v);
        out
    }

    pub fn read_from_bytes(b: &[u8]) -> (r: Page)
        requires
            b@.len() == SIZE_OF_PAGE,
        ensures
            r == Page::spec_from_bytes(b@),
    {
        Page {
            start: u64_from_le_bytes(slice_subrange(b, 0, 8)),
            bytes: u32_from_le_bytes(slice_subrange(b, 8, 12)),
            values: u32_from_le_bytes(slice_subrange(b, 12, 16)),
        }
    }
}

/// Decoding the bytes of a page-table entry gives the entry back.
pub proof fn lemma_page_roundtrip(p: Page)
    ensures
        p.spec_to_bytes().len() == SIZE_OF_PAGE,
        Page::spec_from_bytes(p.spec_to_bytes()) == p,
{
    lemma_auto_spec_u64_to_from_le_bytes();
    lemma_auto_spec_u32_to_from_le_bytes();
    let b = p.spec_to_bytes();
    assert(spec_u32_to_le_bytes(p.bytes).len() == 4);
    assert(spec_u32_to_le_bytes(p.values).len() == 4);
    assert(b.subrange(0, 8) =~= spec_u64_to_le_bytes(p.start));
    assert(b.subrange(8, 12) =~= spec_u32_to_le_bytes(p.bytes));
    assert(b.subrange(12, 16) =~= spec_u32_to_le_bytes(p.values));
}

/// The bytes of a run of page-table entries.
pub open spec fn spec_pages_bytes(pages: Seq<Page>) -> Seq<u8>
    decreases pages.len(),
{
    if pages.len() == 0 {
        Seq::empty()
    } else {
        spec_pages_bytes(pages.drop_last()) + pages.last().spec_to_bytes()
    }
}

/// The entries of a page table region.
pub open spec fn spec_pages_from_bytes(b: Seq<u8>) -> Seq<Page> {
    Seq::new(
        b.len() / (SIZE_OF_PAGE as nat),
        |i: int| Page::spec_from_bytes(b.subrange(16 * i, 16 * i + 16)),
    )
}

pub proof fn lemma_pages_bytes_len(pages: Seq<Page>)
    ensures
        spec_pages_bytes(pages).len() == 16 * pages.len(),
    decreases pages.len(),
{
    if pages.len() > 0 {
        lemma_pages_bytes_len(pages.drop_last());
        lemma_page_roundtrip(pages.last());
    }
}

/// Entry `i` of a run of encoded entries is at bytes `[16 i, 16 i + 16)`.
pub proof fn lemma_pages_bytes_entry(pages: Seq<Page>, i: int)
    requires
        0 <= i < pages.len(),
    ensures
        spec_pages_bytes(pages).subrange(16 * i, 16 * i + 16) == pages[i].spec_to_bytes(),
    decreases pages.len(),
{
    lemma_pages_bytes_len(pages);
    lemma_pages_bytes_len(pages.drop_last());
    lemma_page_roundtrip(pages.last());
    let b = spec_pages_bytes(pages);
    let prev = spec_pages_bytes(pages.drop_last());
    if i == pages.len() - 1 {
        assert(b.subrange(16 * i, 16 * i + 16) =~= pages.last().spec_to_bytes());
    } else {
        lemma_pages_bytes_entry(pages.drop_last(), i);
        assert(b.subrange(16 * i, 16 * i + 16) =~= prev.subrange(16 * i, 16 * i + 16));
    }
}

/// Decoding the encoding of a run of page-table entries gives them back.
pub proof fn lemma_pages_roundtrip(pages: Seq<Page>)
    ensures
        spec_pages_from_bytes(spec_pages_bytes(pages)) == pages,
{
    lemma_pages_bytes_len(pages);
    let b = spec_pages_bytes(pages);
    assert forall|i: int| 0 <= i < pages.len() implies #[trigger] spec_pages_from_bytes(b)[i]
        == pages[i] by {
        lemma_pages_bytes_entry(pages, i);
        lemma_page_roundtrip(pages[i]);
    }
    assert(spec_pages_from_bytes(b) =~= pages);
}

/// Encoding the entry decoded from 16 bytes gives those bytes back.
pub proof fn lemma_page_bytes_of_chunk(c: Seq<u8>)
    requires
        c.len() == SIZE_OF_PAGE,
    ensures
        Page::spec_from_bytes(c).spec_to_bytes() == c,
{
    lemma_auto_spec_u64_to_from_le_bytes();
    lemma_auto_spec_u32_to_from_le_bytes();
    let p = Page::spec_from_bytes(c);
    assert(spec_u64_to_le_bytes(spec_u64_from_le_bytes(c.subrange(0, 8))) == c.subrange(0, 8));
    assert(spec_u32_to_le_bytes(spec_u32_from_le_bytes(c.subrange(8, 12))) == c.subrange(8, 12));
    assert(spec_u32_to_le_bytes(spec_u32_from_le_bytes(c.subrange(12, 16))) == c.subrange(12, 16));
    assert(p.spec_to_bytes() =~= c);
}

/// A region of whole 16-byte entries is the encoding of the table it decodes
/// to.
pub proof fn lemma_pages_bytes_of_table(b: Seq<u8>)
    requires
        b.len() % 16 == 0,
    ensures
        spec_pages_bytes(spec_pages_from_bytes(b)) == b,
    decreases b.len(),
{
    let pages = spec_pages_from_bytes(b);
    if b.len() == 0 {
        assert(pages.len() == 0);
        assert(spec_pages_bytes(pages) =~= b);
    } else {
        let n = (b.len() / 16) as int;
        let prefix = b.subrange(0, 16 * (n - 1));
        lemma_pages_bytes_of_table(prefix);
        assert(pages.drop_last() =~= spec_pages_from_bytes(prefix)) by {
            assert forall|i: int| 0 <= i < n - 1 implies #[trigger] pages.drop_last()[i]
                == spec_pages_from_bytes(prefix)[i] by {
                assert(prefix.subrange(16 * i, 16 * i + 16) =~= b.subrange(16 * i, 16 * i + 16));
            }
        }
        lemma_page_bytes_of_chunk(b.subrange(16 * (n - 1), 16 * n));
        assert(spec_pages_bytes(pages) =~= b);
    }
}

pub proof fn lemma_pages_bytes_append(a: Seq<Page>, b: Seq<Page>)
    ensures
        spec_pages_bytes(a + b) == spec_pages_bytes(a) + spec_pages_bytes(b),
    decreases b.len(),
{
    if b.len() == 0 {
        assert(a + b =~= a);
        assert(spec_pages_bytes(a) + spec_pages_bytes(b) =~= spec_pages_bytes(a));
    } else {
        lemma_pages_bytes_append(a, b.drop_last());
        assert((a + b).drop_last() =~= a + b.drop_last());
        assert((a + b).last() == b.last());
        assert(spec_pages_bytes(a + b) =~= spec_pages_bytes(a) + spec_pages_bytes(b));
    }
}

/// Table of the pages of a compressed vector, with the index of the first
/// entry that changed since it was last written.
#[derive(Debug)]
pub struct Pages {
    vec: Vec<Page>,
    change_at: Option<usize>,
}

impl Pages {
    pub closed spec fn view(&self) -> Seq<Page> {
        self.vec@
    }

    pub closed spec fn change_at_view(&self) -> Option<usize> {
        self.change_at
    }

    /// Reads a page table from its region: whole 16-byte entries, one after
    /// the other.
    pub fn import(region: &[u8]) -> (r: Result<Pages, Error>)
        ensures
            region@.len() % 16 != 0 ==> r == Err::<Pages, Error>(Error::WrongLength),
            region@.len() % 16 == 0 ==> (r matches Ok(p) && p.view() == spec_pages_from_bytes(
                region@,
            ) && p.change_at_view() is None),
    {
        let len = region.len();
        if len % SIZE_OF_PAGE != 0 {
            return Err(Error::WrongLength);
        }
        let n = len / SIZE_OF_PAGE;
        let mut vec: Vec<Page> = Vec::new();
        let mut i: usize = 0;
        while i < n
            invariant
                n == region@.len() / 16,
                len == region@.len(),
                16 * n <= len,
                i <= n,
                vec@ == spec_pages_from_bytes(region@).subrange(0, i as int),
            decreases n - i,
        {
            let start = SIZE_OF_PAGE * i;
            let page = Page::read_from_bytes(slice_subrange(region, start, start + SIZE_OF_PAGE));
            vec.push(page);
            i = i + 1;
            assert(vec@ =~= spec_pages_from_bytes(region@).subrange(0, i as int));
        }
        assert(spec_pages_from_bytes(region@).subrange(0, n as int) =~= spec_pages_from_bytes(
            region@,
        ));
        Ok(Pages { vec, change_at: None })
    }

    /// Writes the entries from the first changed one on at their place in the
    /// page-table region, truncating what followed.
    pub fn flush(&mut self, region: &mut Vec<u8>)
        requires
            old(self).change_at_view() matches Some(c) ==> c <= old(self).view().len() && 16 * c
                <= old(region)@.len(),
        ensures
            final(self).view() == old(self).view(),
            final(self).change_at_view() is None,
            old(self).change_at_view() is None ==> final(region)@ == old(region)@,
            old(self).change_at_view() matches Some(c) ==> final(region)@ == spec_truncate_write(
                old(region)@,
                16 * c,
                spec_pages_bytes(old(self).view().subrange(c as int, old(self).view().len() as int)),
            ),
    {
        match self.change_at {
            None => {},
            Some(c) => {
                let mut bytes: Vec<u8> = Vec::new();
                let mut i = c;
                let n = self.vec.len();
                assert(self.vec@.subrange(c as int, c as int) =~= Seq::<Page>::empty());
                while i < n
                    invariant
                        c <= i <= n,
                        n == self.vec@.len(),
                        bytes@ == spec_pages_bytes(self.vec@.subrange(c as int, i as int)),
                        bytes@.len() == 16 * (i - c),
                        self.vec@ == old(self).vec@,
                    decreases n - i,
                {
                    let mut b = self.vec[i].to_bytes();
                    bytes.append(&mut b);
                    proof {
                        let s = self.vec@.subrange(c as int, i + 1);
                        assert(s.drop_last() =~= self.vec@.subrange(c as int, i as int));
                        assert(s.last() == self.vec@[i as int]);
                    }
                    i = i + 1;
                }
                let region_len = region.len();
                assert(16 * c <= region_len);
                truncate_write(region, SIZE_OF_PAGE * c, bytes.as_slice());
                self.change_at = None;
            },
        }
    }

    /// A copy of the page table.
    pub fn duplicate(&self) -> (r: Pages)
        ensures
            r.view() == self.view(),
            r.change_at_view() == self.change_at_view(),
    {
        let mut vec: Vec<Page> = Vec::new();
        let mut i: usize = 0;
        while i < self.vec.len()
            invariant
                i <= self.vec@.len(),
                vec@ == self.vec@.subrange(0, i as int),
            decreases self.vec@.len() - i,
        {
            vec.push(self.vec[i]);
            i = i + 1;
            assert(vec@ =~= self.vec@.subrange(0, i as int));
        }
        assert(vec@ =~= self.vec@);
        Pages { vec, change_at: self.change_at }
    }

    pub fn len(&self) -> (r: usize)
        ensures
            r == self.view().len(),
    {
        self.vec.len()
    }

    pub fn get(&self, page_index: usize) -> (r: Option<Page>)
        ensures
            r == if page_index < self.view().len() {
                Some(self.view()[page_index as int])
            } else {
                None
            },
    {
        if page_index < self.vec.len() {
            Some(self.vec[page_index])
        } else {
            None
        }
    }

    pub fn last(&self) -> (r: Option<Page>)
        ensures
            r == if self.view().len() > 0 {
                Some(self.view().last())
            } else {
                None
            },
    {
        let n = self.vec.len();
        if n > 0 {
            Some(self.vec[n - 1])
        } else {
            None
        }
    }

    pub open spec fn spec_changed_at(change_at: Option<usize>, page_index: usize) -> Option<
        usize,
    > {
        match change_at {
            Some(c) => if c > page_index {
                Some(page_index)
            } else {
                Some(c)
            },
            None => Some(page_index),
        }
    }

    fn set_changed_at(&mut self, page_index: usize)
        ensures
            final(self).view() == old(self).view(),
            final(self).change_at_view() == Self::spec_changed_at(
                old(self).change_at_view(),
                page_index,
            ),
    {
        let replace = match self.change_at {
            Some(c) => c > page_index,
            None => true,
        };
        if replace {
            self.change_at = Some(page_index);
        }
    }

    /// Appends `page`, which must be the entry right after the last one.
    pub fn checked_push(&mut self, page_index: usize, page: Page)
        requires
            page_index == old(self).view().len(),
        ensures
            final(self).view() == old(self).view().push(page),
            final(self).change_at_view() == Self::spec_changed_at(
                old(self).change_at_view(),
                page_index,
            ),
    {
        self.set_changed_at(page_index);
        self.vec.push(page);
    }

    /// Keeps the entries below `page_index` and appends `pages` after them.
    pub fn replace_from(&mut self, page_index: usize, pages: &[Page])
        requires
            page_index <= old(self).view().len(),
            page_index + pages@.len() <= usize::MAX,
        ensures
            final(self).view() == old(self).view().subrange(0, page_index as int) + pages@,
            final(self).change_at_view() == Self::spec_changed_at(
                old(self).change_at_view(),
                page_index,
            ),
    {
        let ghost kept = old(self).view().subrange(0, page_index as int);
        let _ = self.truncate(page_index);
        assert(self.vec@ =~= kept);
        let n = pages.len();
        let mut m: usize = 0;
        while m < n
            invariant
                n == pages@.len(),
                m <= n,
                page_index + n <= usize::MAX,
                kept.len() == page_index,
                self.vec@ == kept + pages@.subrange(0, m as int),
                self.change_at == Self::spec_changed_at(old(self).change_at, page_index),
            decreases n - m,
        {
            self.checked_push(page_index + m, pages[m]);
            m = m + 1;
            assert(self.vec@ =~= kept + pages@.subrange(0, m as int));
        }
        assert(pages@.subrange(0, n as int) =~= pages@);
    }

    /// Drops every entry.
    pub fn reset(&mut self)
        ensures
            final(self).view() == Seq::<Page>::empty(),
            final(self).change_at_view() == Self::spec_changed_at(old(self).change_at_view(), 0),
    {
        let _ = self.truncate(0);
    }

    /// Keeps the entries below `page_index` and returns the one at it, if any.
    pub fn truncate(&mut self, page_index: usize) -> (r: Option<Page>)
        ensures
            r == if page_index < old(self).view().len() {
                Some(old(self).view()[page_index as int])
            } else {
                None
            },
            final(self).view() == if page_index < old(self).view().len() {
                old(self).view().subrange(0, page_index as int)
            } else {
                old(self).view()
            },
            final(self).change_at_view() == Self::spec_changed_at(
                old(self).change_at_view(),
                page_index,
            ),
    {
        let page = self.get(page_index);
        self.vec.truncate(page_index);
        self.set_changed_at(page_index);
        page
    }

    /// Number of values the pages hold when every page but the last is full
    /// with `per_page` values.
    pub open spec fn spec_stored_len(&self, per_page: nat) -> int {
        if self.view().len() == 0 {
            0
        } else {
            (self.view().len() - 1) * per_page + self.view().last().values
        }
    }

    pub fn stored_len(&self, per_page: usize) -> (r: usize)
        requires
            self.spec_stored_len(per_page as nat) <= usize::MAX,
        ensures
            r == self.spec_stored_len(per_page as nat),
    {
        let n = self.vec.len();
        if n > 0 {
            let last = self.vec[n - 1];
            proof {
                let a = (n - 1) as int;
                assert(0 <= a * per_page) by (nonlinear_arith)
                    requires
                        0 <= a,
                        0 <= per_page,
                ;
            }
            (n - 1) * per_page + last.values as usize
        } else {
            0
        }
    }

    /// Where the data of a page appended after the last one starts: right
    /// after the last page, or after the header when there is none.
    pub open spec fn spec_next_start(&self) -> int {
        if self.view().len() == 0 {
            HEADER_OFFSET as int
        } else {
            self.view().last().start + self.view().last().bytes
        }
    }

    pub fn next_start(&self) -> (r: u64)
        requires
            self.spec_next_start() <= u64::MAX,
        ensures
            r == self.spec_next_start(),
    {
        match self.last() {
            Some(p) => p.start + p.bytes as u64,
            None => HEADER_OFFSET as u64,
        }
    }
}

/// Writing a page table whose entries below the first changed one are those
/// its region held leaves in the region the encoding of the whole table, which
/// imports back as the same entries.
pub proof fn lemma_pages_flush_roundtrip(old_region: Seq<u8>, written: Seq<Page>, pages: Seq<Page>, c: int)
    requires
        old_region == spec_pages_bytes(written),
        0 <= c <= written.len(),
        c <= pages.len(),
        written.subrange(0, c) == pages.subrange(0, c),
    ensures
        spec_truncate_write(old_region, 16 * c, spec_pages_bytes(pages.subrange(c, pages.len() as int)))
            == spec_pages_bytes(pages),
        spec_pages_from_bytes(spec_pages_bytes(pages)) == pages,
{
    lemma_pages_bytes_append(written.subrange(0, c), written.subrange(c, written.len() as int));
    assert(written.subrange(0, c) + written.subrange(c, written.len() as int) =~= written);
    lemma_pages_bytes_len(written.subrange(0, c));
    lemma_pages_bytes_append(pages.subrange(0, c), pages.subrange(c, pages.len() as int));
    assert(pages.subrange(0, c) + pages.subrange(c, pages.len() as int) =~= pages);
    let prefix = spec_pages_bytes(written.subrange(0, c));
    assert(old_region.subrange(0, 16 * c) =~= prefix);
    lemma_pages_roundtrip(pages);
}

} // verus!
