use vstd::prelude::*;
use vstd::slice::slice_subrange;
use vstd::string::StringExecFns;

use crate::compressed::page::{Page, Pages, spec_pages_bytes, spec_pages_from_bytes};
use crate::compressed::pco::{pco_compress, pco_decompress_into, pco_decompressed};
use crate::error::Error;
use crate::header::{
    HEADER_OFFSET, Header, HeaderInner, spec_header_bytes, spec_import_header, spec_new_header,
    spec_parse_header, lemma_parse_header_prefix, lemma_header_roundtrip,
};
use crate::region::spec_write_at;
use crate::options::ImportOptions;
use crate::region::{spec_truncate_write, truncate_write};
use crate::version::{Format, Version};

verus! {

/// Most bytes of values a page holds before compression.
pub const MAX_UNCOMPRESSED_PAGE_SIZE: usize = 16384;

/// Number of `u64` values in a full page.
pub const PER_PAGE: usize = 2048;

/// Compression level handed to Pcodec.
pub const PCO_COMPRESSION_LEVEL: usize = 4;

/// Version that compressed vectors add to the version they are given.
pub const COMPRESSED_VERSION: u64 = 2;

pub open spec fn page_end(p: Page) -> int {
    p.start + p.bytes
}

/// Pages follow each other from the end of the header, every page but the
/// last holds `PER_PAGE` values and none holds more.
pub open spec fn pages_well_laid(pages: Seq<Page>) -> bool {
    &&& forall|i: int| 0 <= i < pages.len() ==> #[trigger] pages[i].values <= PER_PAGE
    &&& forall|i: int| 0 <= i < pages.len() - 1 ==> #[trigger] pages[i].values == PER_PAGE
    &&& pages.len() > 0 ==> pages[0].start == HEADER_OFFSET
    &&& forall|i: int| 0 < i < pages.len() ==> #[trigger] pages[i].start == page_end(pages[i - 1])
}

/// Number of values in pages laid out as `pages_well_laid` says.
pub open spec fn spec_pages_len(pages: Seq<Page>) -> int {
    if pages.len() == 0 {
        0
    } else {
        (pages.len() - 1) * PER_PAGE + pages.last().values
    }
}

/// Where the data after page `k - 1` starts: the end of that page, or the end
/// of the header for the first page.
pub open spec fn spec_start_of(pages: Seq<Page>, k: int) -> int {
    if k == 0 {
        HEADER_OFFSET as int
    } else {
        page_end(pages[k - 1])
    }
}

/// Number of values chunk `m` holds when `total` values are cut in chunks of
/// `PER_PAGE`: a full chunk, or what is left for the last one.
pub open spec fn chunk_values(total: int, m: int) -> int {
    if total - m * PER_PAGE >= PER_PAGE {
        PER_PAGE as int
    } else {
        total - m * PER_PAGE
    }
}

/// Page `m` of `pages` describes chunk `m` of `values`: its bytes lie in
/// `buf`, which is laid from offset `start`, and decode to that chunk.
pub open spec fn chunk_ok(pages: Seq<Page>, buf: Seq<u8>, values: Seq<u64>, start: int, m: int) -> bool {
    &&& m * PER_PAGE < values.len()
    &&& pages[m].values == chunk_values(values.len() as int, m)
    &&& start <= pages[m].start
    &&& page_end(pages[m]) <= start + buf.len()
    &&& pco_decompressed(buf.subrange(pages[m].start - start, page_end(pages[m]) - start))
        == Some(values.subrange(m * PER_PAGE, m * PER_PAGE + pages[m].values))
}

/// `values` cut in chunks of `PER_PAGE`, each compressed, the bytes one after
/// the other in `buf` from offset `start`, with `pages` saying where each is.
pub open spec fn chunks_laid(pages: Seq<Page>, buf: Seq<u8>, values: Seq<u64>, start: int) -> bool {
    &&& pages.len() * PER_PAGE >= values.len()
    &&& forall|m: int| 0 <= m < pages.len() ==> #[trigger] chunk_ok(pages, buf, values, start, m)
    &&& pages.len() > 0 ==> pages[0].start == start
    &&& forall|m: int| 0 < m < pages.len() ==> #[trigger] pages[m].start == page_end(pages[m - 1])
    &&& start + buf.len() == if pages.len() == 0 {
        start
    } else {
        page_end(pages.last())
    }
}

/// Compressed from offset `start`, `values` could pass the largest offset a
/// page can start at. A chunk of `PER_PAGE` values or fewer compresses to at
/// most 8 bytes per value and 51 more, so to at most 59 bytes per value.
pub open spec fn pages_overflow(values: Seq<u64>, start: int) -> bool {
    start + 59 * values.len() > u64::MAX
}

/// Compresses `values` in chunks of `PER_PAGE`, laying the pages one after the
/// other from offset `start`. It fails only when the compressed bytes could
/// pass the largest offset a page can start at.
fn compress_values(values: &[u64], start: u64) -> (r: Result<(Vec<Page>, Vec<u8>), Error>)
    ensures
        r matches Ok((pages, buf)) ==> chunks_laid(pages@, buf@, values@, start as int),
        r matches Err(e) ==> e == Error::Compression && pages_overflow(values@, start as int),
        !pages_overflow(values@, start as int) ==> r is Ok,
{
    let total = values.len();
    let mut pages: Vec<Page> = Vec::new();
    let mut buf: Vec<u8> = Vec::new();
    let mut off: usize = 0;
    let mut next: u64 = start;
    while off < total
        invariant
            total == values@.len(),
            off <= total,
            off == (if pages@.len() * PER_PAGE <= total {
                pages@.len() * PER_PAGE
            } else {
                total as int
            }),
            next == start + buf@.len(),
            buf@.len() <= 59 * off,
            next == (if pages@.len() == 0 {
                start as int
            } else {
                page_end(pages@.last())
            }),
            pages@.len() > 0 ==> pages@[0].start == start,
            forall|m: int| 0 < m < pages@.len() ==> #[trigger] pages@[m].start == page_end(pages@[m - 1]),
            forall|m: int| 0 <= m < pages@.len() ==> #[trigger] chunk_ok(pages@, buf@, values@, start as int, m),
        decreases total - off,
    {
        let end = if total - off > PER_PAGE {
            off + PER_PAGE
        } else {
            total
        };
        let chunk = slice_subrange(values, off, end);
        let ghost m_new = pages@.len() as int;
        proof {
            assert(off == m_new * PER_PAGE);
        }
        let mut bytes = match pco_compress(chunk, PCO_COMPRESSION_LEVEL) {
            Ok(b) => b,
            Err(_) => {
                return Err(Error::Compression);
            },
        };
        let blen = bytes.len();
        assert(blen <= 59 * (end - off));
        let page_start = next;
        next = match next.checked_add(blen as u64) {
            Some(x) => x,
            None => {
                return Err(Error::Compression);
            },
        };
        let page = Page::new(page_start, blen as u32, (end - off) as u32);
        let ghost old_pages = pages@;
        let ghost old_buf = buf@;
        let ghost bseq = bytes@;
        pages.push(page);
        buf.append(&mut bytes);
        proof {
            let m_new = old_pages.len() as int;
            assert(pages@[m_new] == page);
            assert forall|m: int| 0 <= m < pages@.len() implies #[trigger] chunk_ok(
                pages@,
                buf@,
                values@,
                start as int,
                m,
            ) by {
                if m < m_new {
                    assert(chunk_ok(old_pages, old_buf, values@, start as int, m));
                    assert(pages@[m] == old_pages[m]);
                    assert(buf@.subrange(pages@[m].start - start, page_end(pages@[m]) - start)
                        =~= old_buf.subrange(pages@[m].start - start, page_end(pages@[m]) - start));
                } else {
                    assert(buf@.subrange(pages@[m].start - start, page_end(pages@[m]) - start)
                        =~= bseq);
                    assert(chunk@ =~= values@.subrange(m * PER_PAGE, m * PER_PAGE + pages@[m].values));
                }
            }
            assert forall|m: int| 0 < m < pages@.len() implies #[trigger] pages@[m].start == page_end(pages@[m - 1]) by {
                if m < m_new {
                    assert(pages@[m] == old_pages[m]);
                    assert(pages@[m - 1] == old_pages[m - 1]);
                }
            }
        }
        off = end;
    }
    Ok((pages, buf))
}

/// In well-laid pages, a page ends no later than any later page starts.
proof fn lemma_page_end_before(pages: Seq<Page>, a: int, b: int)
    requires
        pages_well_laid(pages),
        0 <= a < b < pages.len(),
    ensures
        page_end(pages[a]) <= pages[b].start,
    decreases b - a,
{
    if a + 1 < b {
        lemma_page_end_before(pages, a + 1, b);
    }
}

/// Replacing the pages from `starting` on by pages laid for `values` from
/// where page `starting` began keeps the table well laid, and it then
/// accounts for the values of the kept pages followed by `values`.
proof fn lemma_relaid_pages(
    pages: Seq<Page>,
    starting: int,
    new_pages: Seq<Page>,
    buf: Seq<u8>,
    values: Seq<u64>,
)
    requires
        pages_well_laid(pages),
        0 <= starting <= pages.len(),
        starting > 0 ==> pages[starting - 1].values == PER_PAGE,
        chunks_laid(new_pages, buf, values, spec_start_of(pages, starting)),
    ensures
        pages_well_laid(pages.subrange(0, starting) + new_pages),
        spec_pages_len(pages.subrange(0, starting) + new_pages) == starting * PER_PAGE + values.len(),
        spec_start_of(pages.subrange(0, starting) + new_pages, starting + new_pages.len())
            == spec_start_of(pages, starting) + buf.len(),
{
    let t = spec_start_of(pages, starting);
    let all = pages.subrange(0, starting) + new_pages;
    let n = new_pages.len() as int;
    assert forall|i: int| 0 <= i < all.len() implies #[trigger] all[i].values <= PER_PAGE by {
        if i >= starting {
            assert(chunk_ok(new_pages, buf, values, t, i - starting));
        }
    }
    assert forall|i: int| 0 <= i < all.len() - 1 implies #[trigger] all[i].values == PER_PAGE by {
        if i >= starting {
            let m = i - starting;
            assert(chunk_ok(new_pages, buf, values, t, m));
            assert(chunk_ok(new_pages, buf, values, t, m + 1));
        } else if i == starting - 1 {
        } else {
            assert(all[i] == pages[i]);
        }
    }
    assert forall|i: int| 0 < i < all.len() implies #[trigger] all[i].start == page_end(all[i - 1]) by {
        if i > starting {
        } else if i == starting {
            assert(all[i] == new_pages[0]);
        } else {
            assert(all[i] == pages[i]);
            assert(all[i - 1] == pages[i - 1]);
        }
    }
    if all.len() > 0 {
        if starting == 0 {
            assert(all[0] == new_pages[0]);
        } else {
            assert(all[0] == pages[0]);
        }
    }
    if n > 0 {
        assert(chunk_ok(new_pages, buf, values, t, n - 1));
        assert(all.last() == new_pages.last());
        assert((n - 1) * PER_PAGE < values.len());
    } else if starting > 0 {
        assert(all.last() == pages[starting - 1]);
    }
}

/// A page table fits a data region of `region_len` bytes: well laid, inside
/// the region, and the number of values it holds fits a `usize`.
pub open spec fn pages_fit(pages: Seq<Page>, region_len: int) -> bool {
    &&& pages_well_laid(pages)
    &&& pages.len() > 0 ==> page_end(pages.last()) <= region_len
    &&& spec_pages_len(pages) <= usize::MAX
}

/// Checks that a page table read back from disk fits the data region.
fn check_pages(pages: &Pages, region_len: usize) -> (r: bool)
    ensures
        r == pages_fit(pages.view(), region_len as int),
{
    let n = pages.len();
    let ghost ps = pages.view();
    let mut i: usize = 0;
    while i < n
        invariant
            n == ps.len(),
            ps == pages.view(),
            i <= n,
            forall|j: int| 0 <= j < i ==> #[trigger] ps[j].values <= PER_PAGE,
            forall|j: int| 0 <= j < i && j < n - 1 ==> #[trigger] ps[j].values == PER_PAGE,
            i > 0 ==> ps[0].start == HEADER_OFFSET,
            forall|j: int| 0 < j < i ==> #[trigger] ps[j].start == page_end(ps[j - 1]),
        decreases n - i,
    {
        let p = pages.get(i).unwrap();
        if p.values as usize > PER_PAGE {
            assert(!pages_well_laid(ps)) by {
                assert(ps[i as int].values > PER_PAGE);
            }
            return false;
        }
        if i + 1 < n && p.values as usize != PER_PAGE {
            assert(!pages_well_laid(ps)) by {
                assert(ps[i as int].values != PER_PAGE);
            }
            return false;
        }
        if i == 0 {
            if p.start != HEADER_OFFSET as u64 {
                return false;
            }
        } else {
            let q = pages.get(i - 1).unwrap();
            if p.start as u128 != q.start as u128 + q.bytes as u128 {
                assert(!pages_well_laid(ps)) by {
                    assert(ps[i as int].start != page_end(ps[i - 1]));
                }
                return false;
            }
        }
        i = i + 1;
    }
    if n > 0 {
        let last = pages.get(n - 1).unwrap();
        if last.start as u128 + last.bytes as u128 > region_len as u128 {
            return false;
        }
        if (n - 1) as u128 * (PER_PAGE as u128) + last.values as u128 > usize::MAX as u128 {
            return false;
        }
    }
    true
}

/// A compressed vector of `u64` values: the data region (header, then the
/// compressed pages), the page table and its region, the stored length, and
/// the values pushed since the last flush.
pub struct CompressedVec {
    name: String,
    header: Header,
    region: Vec<u8>,
    pages: Pages,
    pages_region: Vec<u8>,
    stored_len: usize,
    pushed: Vec<u64>,
}

impl CompressedVec {
    pub closed spec fn region_view(&self) -> Seq<u8> {
        self.region@
    }

    pub closed spec fn pages_view(&self) -> Seq<Page> {
        self.pages.view()
    }

    pub closed spec fn pages_change_at(&self) -> Option<usize> {
        self.pages.change_at_view()
    }

    pub closed spec fn pages_region_view(&self) -> Seq<u8> {
        self.pages_region@
    }

    pub closed spec fn stored_len_view(&self) -> nat {
        self.stored_len as nat
    }

    pub closed spec fn pushed_view(&self) -> Seq<u64> {
        self.pushed@
    }

    pub closed spec fn header_view(&self) -> Header {
        self.header
    }

    pub closed spec fn name_view(&self) -> Seq<char> {
        self.name@
    }

    pub open spec fn spec_len(&self) -> nat {
        self.stored_len_view() + self.pushed_view().len()
    }

    pub open spec fn wf(&self) -> bool {
        &&& HEADER_OFFSET <= self.region_view().len()
        &&& pages_well_laid(self.pages_view())
        &&& self.pages_view().len() > 0 ==> page_end(self.pages_view().last())
            <= self.region_view().len()
        &&& self.stored_len_view() <= spec_pages_len(self.pages_view())
        &&& spec_pages_len(self.pages_view()) <= usize::MAX
        &&& self.spec_len() <= usize::MAX
        &&& self.pages_change_at() is None
        &&& self.pages_persisted()
        &&& !self.header_view().modified ==> spec_parse_header(self.region_view())
            == self.header_view().inner
    }

    /// Values were pushed, or the stored length was cut below what the pages
    /// hold: a flush has something to write.
    pub open spec fn has_pending(&self) -> bool {
        self.pushed_view().len() > 0 || self.stored_len_view() != spec_pages_len(self.pages_view())
    }

    /// The page a flush rewrites first: the one the stored length ends in.
    pub open spec fn flush_page(&self) -> int {
        self.stored_len_view() as int / PER_PAGE as int
    }

    /// A flush has to decode the page the stored length ends inside, to keep
    /// its values below the stored length.
    pub open spec fn flush_decodes(&self) -> bool {
        self.has_pending() && self.stored_len_view() % PER_PAGE as nat != 0
    }

    /// The page table region holds the encoding of the page table.
    pub open spec fn pages_persisted(&self) -> bool {
        self.pages_region_view() == spec_pages_bytes(self.pages_view())
    }

    /// The compressed bytes of page `k`.
    pub open spec fn page_data(&self, k: int) -> Seq<u8> {
        self.region_view().subrange(
            self.pages_view()[k].start as int,
            page_end(self.pages_view()[k]),
        )
    }

    /// Stored value `i`, read by decompressing its page; `None` when the page
    /// does not decode to a value there.
    pub open spec fn stored_value(&self, i: int) -> Option<u64> {
        let k = i / (PER_PAGE as int);
        let j = i % (PER_PAGE as int);
        if 0 <= k < self.pages_view().len() {
            match pco_decompressed(self.page_data(k)) {
                Some(s) => if j < s.len() {
                    Some(s[j])
                } else {
                    None
                },
                None => None,
            }
        } else {
            None
        }
    }

    /// Value `i`: a stored one below the stored length, a pushed one past it.
    pub open spec fn value_at(&self, i: int) -> Option<u64> {
        if 0 <= i < self.stored_len_view() {
            self.stored_value(i)
        } else if self.stored_len_view() <= i < self.spec_len() {
            Some(self.pushed_view()[i - self.stored_len_view()])
        } else {
            None
        }
    }

    pub fn stored_len(&self) -> (r: usize)
        ensures
            r == self.stored_len_view(),
    {
        self.stored_len
    }

    pub fn pushed_len(&self) -> (r: usize)
        ensures
            r == self.pushed_view().len(),
    {
        self.pushed.len()
    }

    pub fn len(&self) -> (r: usize)
        requires
            self.wf(),
        ensures
            r == self.spec_len(),
    {
        self.stored_len + self.pushed.len()
    }

    /// Values were pushed since the last flush.
    pub fn is_dirty(&self) -> (r: bool)
        ensures
            r == (self.pushed_view().len() > 0),
    {
        self.pushed.len() > 0
    }

    pub fn region(&self) -> (r: &[u8])
        ensures
            r@ == self.region_view(),
    {
        self.region.as_slice()
    }

    pub fn pages_region(&self) -> (r: &[u8])
        ensures
            r@ == self.pages_region_view(),
    {
        self.pages_region.as_slice()
    }

    pub fn header(&self) -> (r: &Header)
        ensures
            *r == self.header_view(),
    {
        &self.header
    }

    /// Number of stored values the page table accounts for.
    pub fn real_stored_len(&self) -> (r: usize)
        requires
            self.wf(),
        ensures
            r == spec_pages_len(self.pages_view()),
    {
        self.pages.stored_len(PER_PAGE)
    }

    /// Appends a value after the last one.
    pub fn push(&mut self, value: u64)
        requires
            old(self).wf(),
            old(self).spec_len() < usize::MAX,
        ensures
            final(self).wf(),
            final(self).pushed_view() == old(self).pushed_view().push(value),
            final(self).region_view() == old(self).region_view(),
            final(self).pages_view() == old(self).pages_view(),
            final(self).pages_region_view() == old(self).pages_region_view(),
            final(self).stored_len_view() == old(self).stored_len_view(),
            final(self).header_view() == old(self).header_view(),
            final(self).name_view() == old(self).name_view(),
            final(self).value_at(old(self).spec_len() as int) == Some(value),
            forall|i: int| i != old(self).spec_len() ==> #[trigger] final(self).value_at(i) == old(self).value_at(i),
    {
        self.pushed.push(value);
    }

    /// Page `k` decompresses to as many values as its entry says.
    pub open spec fn page_decodes(&self, k: int) -> bool {
        &&& 0 <= k < self.pages_view().len()
        &&& pco_decompressed(self.page_data(k)) is Some
        &&& pco_decompressed(self.page_data(k))->0.len() == self.pages_view()[k].values
    }

    /// Decompresses page `page_index` and checks it holds as many values as
    /// its entry says.
    pub(crate) fn decode_page(&self, page_index: usize) -> (r: Result<Vec<u64>, Error>)
        requires
            self.wf(),
        ensures
            page_index * PER_PAGE >= self.stored_len_view() ==> r == Err::<Vec<u64>, Error>(
                Error::IndexTooHigh { index: page_index, len: self.stored_len_view() as usize },
            ),
            page_index * PER_PAGE < self.stored_len_view() ==> {
                &&& page_index < self.pages_view().len()
                &&& self.page_decodes(page_index as int) ==> r is Ok
                &&& r matches Ok(v) ==> self.page_decodes(page_index as int) && pco_decompressed(
                    self.page_data(page_index as int),
                ) == Some(v@)
                &&& r matches Err(e) ==> e == Error::Decompression
            },
    {
        let sl = self.stored_len;
        if page_index > sl / PER_PAGE || page_index * PER_PAGE >= sl {
            proof {
                if page_index > sl / PER_PAGE {
                    assert(page_index * 2048 >= sl) by (nonlinear_arith)
                        requires
                            page_index > sl / 2048,
                    ;
                }
            }
            return Err(Error::IndexTooHigh { index: page_index, len: sl });
        }
        proof {
            self.lemma_page_of_index(page_index as int);
        }
        if page_index >= self.pages.len() {
            return Err(Error::ExpectVecToHaveIndex);
        }
        let page = self.pages.get(page_index).unwrap();
        let rlen = self.region.len();
        proof {
            self.lemma_page_in_region(page_index as int);
        }
        let start = page.start as usize;
        let end = start + page.bytes as usize;
        let data = slice_subrange(self.region.as_slice(), start, end);
        let count = page.values as usize;
        assert(self.pages_view()[page_index as int].values <= PER_PAGE);
        let mut buf: Vec<u64> = Vec::new();
        let mut i: usize = 0;
        while i <= count
            invariant
                count <= PER_PAGE,
                i <= count + 1,
                buf@.len() == i,
            decreases count + 1 - i,
        {
            buf.push(0);
            i = i + 1;
        }
        match pco_decompress_into(data, &mut buf) {
            Ok((n, true)) => {
                if n == count {
                    buf.truncate(count);
                    Ok(buf)
                } else {
                    Err(Error::Decompression)
                }
            },
            _ => Err(Error::Decompression),
        }
    }

    /// Reads stored value `index` by decompressing its page.
    pub fn read_at(&self, index: usize) -> (r: Result<u64, Error>)
        requires
            self.wf(),
        ensures
            index >= self.stored_len_view() ==> r == Err::<u64, Error>(
                Error::IndexTooHigh { index, len: self.stored_len_view() as usize },
            ),
            index < self.stored_len_view() ==> {
                &&& self.page_decodes((index / PER_PAGE) as int) ==> r == Ok::<u64, Error>(
                    self.stored_value(index as int)->0,
                ) && self.stored_value(index as int) is Some
                &&& !self.page_decodes((index / PER_PAGE) as int) ==> r == Err::<u64, Error>(
                    Error::Decompression,
                )
            },
    {
        if index >= self.stored_len {
            return Err(Error::IndexTooHigh { index, len: self.stored_len });
        }
        let page_index = index / PER_PAGE;
        let j = index % PER_PAGE;
        proof {
            assert(page_index * PER_PAGE <= index) by (nonlinear_arith)
                requires
                    page_index == index / 2048,
            ;
            self.lemma_page_of_index(page_index as int);
            self.lemma_page_values(index as int);
        }
        match self.decode_page(page_index) {
            Ok(values) => {
                if j < values.len() {
                    Ok(values[j])
                } else {
                    Err(Error::Decompression)
                }
            },
            Err(e) => Err(e),
        }
    }

    /// A pushed value at or past the stored length, the stored value below.
    pub fn get_pushed_or_read_at(&self, index: usize) -> (r: Result<Option<u64>, Error>)
        requires
            self.wf(),
        ensures
            index >= self.stored_len_view() ==> r == Ok::<Option<u64>, Error>(
                self.value_at(index as int),
            ),
            index < self.stored_len_view() && self.page_decodes((index / PER_PAGE) as int) ==> r == Ok::<
                Option<u64>,
                Error,
            >(self.value_at(index as int)),
            index < self.stored_len_view() && !self.page_decodes((index / PER_PAGE) as int) ==> r == Err::<
                Option<u64>,
                Error,
            >(Error::Decompression),
    {
        if index >= self.stored_len {
            let k = index - self.stored_len;
            if k < self.pushed.len() {
                return Ok(Some(self.pushed[k]));
            }
            return Ok(None);
        }
        match self.read_at(index) {
            Ok(v) => Ok(Some(v)),
            Err(e) => Err(e),
        }
    }

    /// The values a flush keeps from the page the stored length ends inside.
    pub open spec fn flush_kept(&self) -> Seq<u64> {
        if self.stored_len_view() % PER_PAGE as nat == 0 {
            Seq::<u64>::empty()
        } else {
            pco_decompressed(self.page_data(self.flush_page()))->0.subrange(
                0,
                (self.stored_len_view() % PER_PAGE as nat) as int,
            )
        }
    }

    /// Replacing the pages from the flushed one on by pages laid for the kept
    /// and pushed values, and the region from where that page began by their
    /// bytes, leaves value `i` as it was.
    proof fn lemma_flushed_value(
        &self,
        after: &Self,
        new_pages: Seq<Page>,
        buf: Seq<u8>,
        values: Seq<u64>,
        i: int,
    )
        requires
            self.wf(),
            self.stored_len_view() % PER_PAGE as nat != 0 ==> self.page_decodes(self.flush_page()),
            values == self.flush_kept() + self.pushed_view(),
            chunks_laid(new_pages, buf, values, spec_start_of(self.pages_view(), self.flush_page())),
            self.flush_page() <= self.pages_view().len(),
            after.pages_view() == self.pages_view().subrange(0, self.flush_page()) + new_pages,
            after.region_view() == self.region_view().subrange(
                0,
                spec_start_of(self.pages_view(), self.flush_page()),
            ) + buf,
            spec_start_of(self.pages_view(), self.flush_page()) <= self.region_view().len(),
            after.stored_len_view() == self.spec_len(),
            after.pushed_view() == Seq::<u64>::empty(),
        ensures
            after.value_at(i) == self.value_at(i),
    {
        if 0 <= i < self.spec_len() {
            if i / 2048 < self.flush_page() {
                self.lemma_flushed_kept_page(after, new_pages, buf, values, i);
            } else {
                self.lemma_flushed_new_page(after, new_pages, buf, values, i);
            }
        }
    }

    /// The case of a value in a page kept by the flush.
    proof fn lemma_flushed_kept_page(
        &self,
        after: &Self,
        new_pages: Seq<Page>,
        buf: Seq<u8>,
        values: Seq<u64>,
        i: int,
    )
        requires
            self.wf(),
            self.stored_len_view() % PER_PAGE as nat != 0 ==> self.page_decodes(self.flush_page()),
            values == self.flush_kept() + self.pushed_view(),
            chunks_laid(new_pages, buf, values, spec_start_of(self.pages_view(), self.flush_page())),
            self.flush_page() <= self.pages_view().len(),
            after.pages_view() == self.pages_view().subrange(0, self.flush_page()) + new_pages,
            after.region_view() == self.region_view().subrange(
                0,
                spec_start_of(self.pages_view(), self.flush_page()),
            ) + buf,
            spec_start_of(self.pages_view(), self.flush_page()) <= self.region_view().len(),
            after.stored_len_view() == self.spec_len(),
            after.pushed_view() == Seq::<u64>::empty(),
            0 <= i < self.spec_len(),
            i / 2048 < self.flush_page(),
        ensures
            after.value_at(i) == self.value_at(i),
    {
        let starting = self.flush_page();
        let stored = self.stored_len_view() as int;
        assert(stored == starting * 2048 + stored % 2048);
        let k = i / 2048;
        self.lemma_page_in_region(k);
        if k < starting - 1 {
            lemma_page_end_before(self.pages_view(), k, starting - 1);
        }
        assert(after.pages_view()[k] == self.pages_view()[k]);
        assert(after.page_data(k) =~= self.page_data(k));
    }

    /// After a flush, the pages kept below the flushed one hold the same bytes,
    /// and every page the flush wrote decodes to exactly its count.
    #[verifier::spinoff_prover]
    #[verifier::rlimit(40)]
    proof fn lemma_flushed_page_decodes(
        &self,
        after: &Self,
        new_pages: Seq<Page>,
        buf: Seq<u8>,
        values: Seq<u64>,
        k: int,
    )
        requires
            self.wf(),
            chunks_laid(new_pages, buf, values, spec_start_of(self.pages_view(), self.flush_page())),
            self.flush_page() <= self.pages_view().len(),
            self.flush_page() > 0 ==> self.pages_view()[self.flush_page() - 1].values == PER_PAGE,
            after.pages_view() == self.pages_view().subrange(0, self.flush_page()) + new_pages,
            after.region_view() == self.region_view().subrange(
                0,
                spec_start_of(self.pages_view(), self.flush_page()),
            ) + buf,
            spec_start_of(self.pages_view(), self.flush_page()) <= self.region_view().len(),
        ensures
            0 <= k < self.flush_page() ==> after.page_decodes(k) == self.page_decodes(k),
            self.flush_page() <= k < after.pages_view().len() ==> after.page_decodes(k),
    {
        let starting = self.flush_page();
        let t = spec_start_of(self.pages_view(), starting);
        if 0 <= k < starting {
            self.lemma_page_in_region(k);
            if k < starting - 1 {
                lemma_page_end_before(self.pages_view(), k, starting - 1);
            }
            assert(after.pages_view()[k] == self.pages_view()[k]);
            assert(after.page_data(k) =~= self.page_data(k));
        } else if starting <= k < after.pages_view().len() {
            let m = k - starting;
            assert(chunk_ok(new_pages, buf, values, t, m));
            assert(after.pages_view()[k] == new_pages[m]);
            assert(after.page_data(k) =~= buf.subrange(
                new_pages[m].start - t,
                page_end(new_pages[m]) - t,
            ));
        }
    }

    /// The case of a value in a page written by the flush.
    #[verifier::spinoff_prover]
    proof fn lemma_flushed_new_page(
        &self,
        after: &Self,
        new_pages: Seq<Page>,
        buf: Seq<u8>,
        values: Seq<u64>,
        i: int,
    )
        requires
            self.wf(),
            self.stored_len_view() % PER_PAGE as nat != 0 ==> self.page_decodes(self.flush_page()),
            values == self.flush_kept() + self.pushed_view(),
            chunks_laid(new_pages, buf, values, spec_start_of(self.pages_view(), self.flush_page())),
            self.flush_page() <= self.pages_view().len(),
            after.pages_view() == self.pages_view().subrange(0, self.flush_page()) + new_pages,
            after.region_view() == self.region_view().subrange(
                0,
                spec_start_of(self.pages_view(), self.flush_page()),
            ) + buf,
            spec_start_of(self.pages_view(), self.flush_page()) <= self.region_view().len(),
            after.stored_len_view() == self.spec_len(),
            after.pushed_view() == Seq::<u64>::empty(),
            0 <= i < self.spec_len(),
            i / 2048 >= self.flush_page(),
        ensures
            after.value_at(i) == self.value_at(i),
    {
        let starting = self.flush_page();
        let t = spec_start_of(self.pages_view(), starting);
        let stored = self.stored_len_view() as int;
        let rem = stored % 2048;
        assert(stored == starting * 2048 + rem);
        let k = i / 2048;
        let j = i % 2048;
        assert(i == k * 2048 + j);
        let m = k - starting;
        assert(m * 2048 <= i - starting * 2048);
        if m >= new_pages.len() {
            assert(new_pages.len() * 2048 <= m * 2048) by (nonlinear_arith)
                requires
                    new_pages.len() <= m,
            ;
        }
        assert(chunk_ok(new_pages, buf, values, t, m));
        assert(after.pages_view()[k] == new_pages[m]);
        assert(after.page_data(k) =~= buf.subrange(
            new_pages[m].start - t,
            page_end(new_pages[m]) - t,
        ));
        let chunk = values.subrange(m * 2048, m * 2048 + new_pages[m].values);
        assert(j < new_pages[m].values);
        assert(chunk[j] == values[i - starting * 2048]);
        if i < stored {
            assert(k == starting);
            assert(rem != 0);
            self.lemma_page_values(i);
        } else {
            assert(values[i - starting * 2048] == self.pushed_view()[i - stored]);
        }
    }

    /// Changing only the header bytes of the region leaves every value as it
    /// was.
    proof fn lemma_header_bytes_only(&self, other: &Self)
        requires
            self.wf(),
            other.pages_view() == self.pages_view(),
            other.stored_len_view() == self.stored_len_view(),
            other.pushed_view() == self.pushed_view(),
            other.region_view().len() == self.region_view().len(),
            forall|x: int|
                HEADER_OFFSET <= x < self.region_view().len() ==> #[trigger] other.region_view()[x]
                    == self.region_view()[x],
        ensures
            forall|i: int| #[trigger] other.value_at(i) == self.value_at(i),
            forall|k: int|
                0 <= k < self.pages_view().len() ==> #[trigger] other.page_data(k) == self.page_data(
                    k,
                ),
    {
        assert forall|k: int| 0 <= k < self.pages_view().len() implies #[trigger] other.page_data(k)
            == self.page_data(k) by {
            self.lemma_page_in_region(k);
            assert(other.page_data(k) =~= self.page_data(k));
        }
        assert forall|i: int| #[trigger] other.value_at(i) == self.value_at(i) by {
            let k = i / (PER_PAGE as int);
            if 0 <= k < self.pages_view().len() {
                assert(other.page_data(k) == self.page_data(k));
            }
        }
    }

    pub fn name(&self) -> (r: &String)
        ensures
            r@ == self.name_view(),
    {
        &self.name
    }

    /// A copy of the vector as of its last flush: the same regions, page
    /// table, header and stored length, without the pushed values.
    pub fn read_only_clone(&self) -> (r: CompressedVec)
        requires
            self.wf(),
        ensures
            r.wf(),
            r.name_view() == self.name_view(),
            r.header_view() == self.header_view(),
            r.region_view() == self.region_view(),
            r.pages_view() == self.pages_view(),
            r.pages_region_view() == self.pages_region_view(),
            r.stored_len_view() == self.stored_len_view(),
            r.pushed_view() == Seq::<u64>::empty(),
    {
        let region = self.region.clone();
        assert(region@ =~= self.region@);
        let pages_region = self.pages_region.clone();
        assert(pages_region@ =~= self.pages_region@);
        CompressedVec {
            name: self.name.clone(),
            header: self.header,
            region,
            pages: self.pages.duplicate(),
            pages_region,
            stored_len: self.stored_len,
            pushed: Vec::new(),
        }
    }

    /// The name of the region that holds the page table of the vector `name`.
    pub fn pages_region_name_with(name: &str) -> (r: String)
        ensures
            r@ == name@ + "_pages"@,
    {
        name.to_owned().concat("_pages")
    }

    /// The name of the region that holds the page table of this vector.
    pub fn pages_region_name(&self) -> (r: String)
        ensures
            r@ == self.name_view() + "_pages"@,
    {
        Self::pages_region_name_with(self.name.as_str())
    }

    /// The regions of the vector: its data region, named after it, and its
    /// page table region.
    pub fn region_names(&self) -> (r: Vec<String>)
        ensures
            r@.len() == 2,
            r@[0]@ == self.name_view(),
            r@[1]@ == self.name_view() + "_pages"@,
    {
        let mut regions: Vec<String> = Vec::new();
        regions.push(self.name.clone());
        regions.push(self.pages_region_name());
        regions
    }

    pub fn pushed(&self) -> (r: &[u64])
        ensures
            r@ == self.pushed_view(),
    {
        self.pushed.as_slice()
    }

    /// Shortens the vector to `index` values when it is longer; the pages are
    /// rewritten from there at the next flush.
    pub fn truncate_if_needed_at(&mut self, index: usize)
        requires
            old(self).wf(),
        ensures
            final(self).wf(),
            final(self).header_view() == old(self).header_view(),
            final(self).name_view() == old(self).name_view(),
            final(self).region_view() == old(self).region_view(),
            final(self).pages_view() == old(self).pages_view(),
            final(self).stored_len_view() <= old(self).stored_len_view(),
            final(self).spec_len() == if index < old(self).spec_len() {
                index as nat
            } else {
                old(self).spec_len()
            },
            forall|i: int| #[trigger]
                final(self).value_at(i) == if i < index {
                    old(self).value_at(i)
                } else {
                    None
                },
    {
        if index >= self.stored_len {
            let keep = index - self.stored_len;
            self.pushed.truncate(keep);
        } else {
            self.pushed.clear();
            self.stored_len = index;
        }
    }

    /// Drops every value: the page table is emptied and written, and the data
    /// region is cut after the header at the next flush.
    pub fn reset(&mut self)
        requires
            old(self).wf(),
        ensures
            final(self).wf(),
            final(self).header_view() == old(self).header_view(),
            final(self).name_view() == old(self).name_view(),
            final(self).spec_len() == 0,
            final(self).pages_view() == Seq::<Page>::empty(),
            forall|i: int| #[trigger] final(self).value_at(i) is None,
    {
        self.pages.reset();
        proof {
            crate::compressed::page::lemma_pages_bytes_len(self.pages.view());
        }
        self.pages.flush(&mut self.pages_region);
        self.stored_len = 0;
        self.pushed.clear();
        assert(self.pages_region@ =~= spec_pages_bytes(self.pages.view()));
    }

    /// Records the stamp of the last flush.
    pub fn update_stamp(&mut self, stamp: crate::version::Stamp)
        requires
            old(self).wf(),
        ensures
            final(self).wf(),
            final(self).header_view().inner == (HeaderInner { stamp, ..old(self).header_view().inner }),
            final(self).header_view().modified,
            final(self).name_view() == old(self).name_view(),
            final(self).region_view() == old(self).region_view(),
            final(self).pages_view() == old(self).pages_view(),
            final(self).stored_len_view() == old(self).stored_len_view(),
            final(self).spec_len() == old(self).spec_len(),
            forall|i: int| #[trigger] final(self).value_at(i) == old(self).value_at(i),
    {
        self.header.update_stamp(stamp);
    }

    /// Records the version of the computation that fills this vector.
    pub fn update_computed_version(&mut self, computed_version: Version)
        requires
            old(self).wf(),
        ensures
            final(self).wf(),
            final(self).header_view().inner == (HeaderInner {
                computed_version,
                ..old(self).header_view().inner
            }),
            final(self).header_view().modified,
            final(self).name_view() == old(self).name_view(),
            final(self).region_view() == old(self).region_view(),
            final(self).pages_view() == old(self).pages_view(),
            final(self).stored_len_view() == old(self).stored_len_view(),
            final(self).spec_len() == old(self).spec_len(),
            forall|i: int| #[trigger] final(self).value_at(i) == old(self).value_at(i),
    {
        self.header.update_computed_version(computed_version);
    }

    /// The error importing a compressed vector gives, if any.
    pub open spec fn spec_import_error(
        version: Version,
        region: Seq<u8>,
        pages_region: Seq<u8>,
    ) -> Option<Error> {
        let region_len = if region.len() == 0 {
            HEADER_OFFSET as int
        } else {
            region.len() as int
        };
        if region.len() > 0 && spec_import_header(region, version, Format::Compressed) is Err {
            Some(spec_import_header(region, version, Format::Compressed)->Err_0)
        } else if pages_region.len() % 16 != 0 {
            Some(Error::WrongLength)
        } else if !pages_fit(spec_pages_from_bytes(pages_region), region_len) {
            Some(Error::CorruptedRegion { region_len: region_len as usize })
        } else {
            None
        }
    }

    /// The state of a compressed vector imported without error: the header
    /// read back (or created when the region was empty), the page table read
    /// back, and as many stored values as the pages hold.
    pub open spec fn imported(
        &self,
        options: &ImportOptions,
        region: Seq<u8>,
        pages_region: Seq<u8>,
    ) -> bool {
        &&& self.wf()
        &&& self.name_view() == options.name@
        &&& !self.header_view().modified
        &&& self.pushed_view() == Seq::<u64>::empty()
        &&& self.pages_view() == spec_pages_from_bytes(pages_region)
        &&& self.pages_region_view() == pages_region
        &&& self.stored_len_view() == spec_pages_len(self.pages_view())
        &&& if region.len() == 0 {
            &&& self.header_view().inner == spec_new_header(options.version, Format::Compressed)
            &&& self.region_view() == spec_header_bytes(self.header_view().inner)
        } else {
            &&& spec_import_header(region, options.version, Format::Compressed) == Ok::<
                HeaderInner,
                Error,
            >(self.header_view().inner)
            &&& self.region_view() == region
        }
    }

    /// Imports a compressed vector from its data region and page table
    /// region. An empty data region starts a new vector: its header is
    /// written. The stored length is what the pages hold.
    pub fn import_with(options: &ImportOptions, region: Vec<u8>, pages_region: Vec<u8>) -> (r:
        Result<Self, Error>)
        ensures
            match r {
                Ok(v) => Self::spec_import_error(options.version, region@, pages_region@) is None
                    && v.imported(options, region@, pages_region@),
                Err(e) => Self::spec_import_error(options.version, region@, pages_region@) == Some(
                    e,
                ),
            },
    {
        let mut region = region;
        let ghost input = region@;
        let header = if region.len() == 0 {
            let h = Header::create_and_write(&mut region, options.version, Format::Compressed);
            proof {
                lemma_header_roundtrip(h.inner);
                assert(region@ =~= spec_header_bytes(h.inner));
                assert(spec_header_bytes(h.inner).subrange(0, HEADER_OFFSET as int) =~= spec_header_bytes(h.inner));
            }
            h
        } else {
            match Header::import_and_verify(region.as_slice(), options.version, Format::Compressed) {
                Ok(h) => h,
                Err(e) => {
                    return Err(e);
                },
            }
        };
        let pages = match Pages::import(pages_region.as_slice()) {
            Ok(p) => p,
            Err(e) => {
                return Err(e);
            },
        };
        let region_len = region.len();
        if !check_pages(&pages, region_len) {
            return Err(Error::CorruptedRegion { region_len });
        }
        let stored_len = pages.stored_len(PER_PAGE);
        proof {
            crate::compressed::page::lemma_pages_bytes_of_table(pages_region@);
        }
        Ok(
            CompressedVec {
                name: options.name.clone(),
                header,
                region,
                pages,
                pages_region,
                stored_len,
                pushed: Vec::new(),
            },
        )
    }

    /// Whether an import error makes a forced import start the vector over.
    pub open spec fn resets_on(e: Error) -> bool {
        e is WrongEndian || e is WrongLength || e is DifferentCompressionMode
            || e is DifferentVersion
    }

    /// The version a forced import checks: the given one plus the version of
    /// the compressed format.
    pub open spec fn spec_forced_version(version: Version) -> Version {
        Version(((version.0 + COMPRESSED_VERSION) % 0x1_0000_0000_0000_0000) as u64)
    }

    /// Imports a compressed vector under the given version plus the version
    /// of the compressed format, starting it over (from empty regions) when
    /// the stored header has another version, format or byte order, or a
    /// region has a wrong length.
    pub fn forced_import_with(options: &ImportOptions, region: Vec<u8>, pages_region: Vec<u8>) -> (r:
        Result<Self, Error>)
        ensures
            ({
                let v = Self::spec_forced_version(options.version);
                let opts = ImportOptions { version: v, ..*options };
                let err = Self::spec_import_error(v, region@, pages_region@);
                &&& err is None ==> r is Ok && r->Ok_0.imported(&opts, region@, pages_region@)
                &&& err is Some && Self::resets_on(err->0) ==> r is Ok && r->Ok_0.imported(
                    &opts,
                    Seq::<u8>::empty(),
                    Seq::<u8>::empty(),
                )
                &&& err is Some && !Self::resets_on(err->0) ==> r == Err::<Self, Error>(err->0)
            }),
    {
        let opts = ImportOptions {
            name: options.name.clone(),
            version: options.version.plus(Version(COMPRESSED_VERSION)),
            saved_stamped_changes: options.saved_stamped_changes,
        };
        let res = Self::import_with(&opts, region, pages_region);
        match res {
            Err(Error::WrongEndian) | Err(Error::WrongLength) | Err(
                Error::DifferentCompressionMode,
            ) | Err(Error::DifferentVersion { .. }) => {
                let empty: Vec<u8> = Vec::new();
                let empty_pages: Vec<u8> = Vec::new();
                assert(empty@ =~= Seq::<u8>::empty());
                assert(empty_pages@ =~= Seq::<u8>::empty());
                Self::import_with(&opts, empty, empty_pages)
            },
            _ => res,
        }
    }

    /// A flushed vector (nothing pushed, every value of the pages stored)
    /// whose header imports under `options.version` imports back from its
    /// two regions without error, and the imported vector reads every value
    /// as it does: it holds the same values, and the same pages decode.
    pub proof fn lemma_flushed_imports(&self, imported: &Self, options: &ImportOptions)
        requires
            self.wf(),
            self.pushed_view() == Seq::<u64>::empty(),
            self.stored_len_view() == spec_pages_len(self.pages_view()),
            spec_import_header(self.region_view(), options.version, Format::Compressed) is Ok,
            imported.imported(options, self.region_view(), self.pages_region_view()),
        ensures
            Self::spec_import_error(options.version, self.region_view(), self.pages_region_view()) is None,
            forall|i: int| #[trigger] imported.value_at(i) == self.value_at(i),
            forall|k: int| #[trigger] imported.page_decodes(k) == self.page_decodes(k),
    {
        crate::compressed::page::lemma_pages_roundtrip(self.pages_view());
        crate::compressed::page::lemma_pages_bytes_len(self.pages_view());
        assert(imported.pages_view() == self.pages_view());
        assert forall|i: int| #[trigger] imported.value_at(i) == self.value_at(i) by {
            let k = i / (PER_PAGE as int);
            if 0 <= k < self.pages_view().len() {
                assert(imported.page_data(k) == self.page_data(k));
            }
        }
        assert forall|k: int| #[trigger] imported.page_decodes(k) == self.page_decodes(k) by {
            if 0 <= k < self.pages_view().len() {
                assert(imported.page_data(k) == self.page_data(k));
            }
        }
    }

    /// Writes the header at the start of the region when it changed.
    fn write_header_if_needed(&mut self)
        requires
            old(self).wf(),
        ensures
            final(self).wf(),
            final(self).header_view().inner == old(self).header_view().inner,
            !final(self).header_view().modified,
            final(self).name_view() == old(self).name_view(),
            final(self).pages_view() == old(self).pages_view(),
            final(self).pages_region_view() == old(self).pages_region_view(),
            final(self).stored_len_view() == old(self).stored_len_view(),
            final(self).pushed_view() == old(self).pushed_view(),
            final(self).region_view().len() == old(self).region_view().len(),
            forall|k: int|
                0 <= k < old(self).pages_view().len() ==> #[trigger] final(self).page_data(k)
                    == old(self).page_data(k),
            forall|i: int| #[trigger] final(self).value_at(i) == old(self).value_at(i),
            final(self).region_view() == old(self).header_written_region(),
    {
        let ghost s0 = *self;
        proof {
            crate::header::lemma_header_roundtrip(s0.header.inner);
        }
        if self.header.modified {
            let mut header = self.header;
            header.write(&mut self.region);
            self.header = header;
            assert(self.region@.subrange(0, HEADER_OFFSET as int) =~= spec_header_bytes(
                s0.header.inner,
            ));
            assert(spec_header_bytes(s0.header.inner).subrange(0, HEADER_OFFSET as int) =~= spec_header_bytes(
                s0.header.inner,
            ));
            proof {
                lemma_parse_header_prefix(self.region@, spec_header_bytes(s0.header.inner));
            }
        }
        assert forall|x: int| HEADER_OFFSET <= x < s0.region@.len() implies #[trigger] self.region@[x]
            == s0.region@[x] by {}
        proof {
            s0.lemma_header_bytes_only(self);
        }
    }

    /// The data region once the header is written: with the header bytes at
    /// its start when the header changed, as it is otherwise.
    pub open spec fn header_written_region(&self) -> Seq<u8> {
        if self.header_view().modified {
            spec_write_at(self.region_view(), 0, spec_header_bytes(self.header_view().inner))
        } else {
            self.region_view()
        }
    }

    /// The values a flush compresses (those kept from the page the stored
    /// length ends inside, then the pushed ones) could, compressed from where
    /// that page begins, pass the largest offset a page can start at.
    pub open spec fn flush_overflows(&self) -> bool {
        pages_overflow(
            self.flush_kept() + self.pushed_view(),
            spec_start_of(self.pages_view(), self.flush_page()),
        )
    }

    /// The values a flush compresses: those kept from the page the stored
    /// length ends inside, then the pushed ones.
    fn flush_values(&self) -> (r: Result<Vec<u64>, Error>)
        requires
            self.wf(),
            self.has_pending(),
        ensures
            r matches Ok(v) ==> v@ == self.flush_kept() + self.pushed_view(),
            self.flush_decodes() && !self.page_decodes(self.flush_page()) ==> r == Err::<
                Vec<u64>,
                Error,
            >(Error::Decompression),
            r matches Err(e) ==> e == Error::Decompression && self.flush_decodes()
                && !self.page_decodes(self.flush_page()),
    {
        let stored = self.stored_len;
        let starting = stored / PER_PAGE;
        let rem = stored % PER_PAGE;
        let mut values: Vec<u64> = Vec::new();
        if rem != 0 {
            proof {
                assert(stored == starting * 2048 + rem);
                self.lemma_page_values((stored - 1) as int);
            }
            let mut page_values = match self.decode_page(starting) {
                Ok(v) => v,
                Err(e) => {
                    return Err(e);
                },
            };
            page_values.truncate(rem);
            values = page_values;
        }
        assert(values@ =~= self.flush_kept());
        let np = self.pushed.len();
        let mut i: usize = 0;
        while i < np
            invariant
                np == self.pushed@.len(),
                i <= np,
                values@ == self.flush_kept() + self.pushed@.subrange(0, i as int),
            decreases np - i,
        {
            values.push(self.pushed[i]);
            i = i + 1;
            assert(values@ =~= self.flush_kept() + self.pushed@.subrange(0, i as int));
        }
        assert(self.pushed@.subrange(0, np as int) =~= self.pushed@);
        Ok(values)
    }

    /// Where the flushed page began: the offset the data region is cut at.
    fn flush_start(&self) -> (r: u64)
        requires
            self.wf(),
        ensures
            self.flush_page() <= self.pages_view().len(),
            r == spec_start_of(self.pages_view(), self.flush_page()),
            HEADER_OFFSET <= r <= self.region_view().len(),
            self.flush_page() > 0 ==> self.pages_view()[self.flush_page() - 1].values == PER_PAGE,
            self.stored_len_view() % PER_PAGE as nat != 0 ==> self.flush_page() < self.pages_view().len(),
    {
        let stored = self.stored_len;
        let starting = stored / PER_PAGE;
        let n_pages = self.pages.len();
        proof {
            let rem = stored % 2048;
            assert(stored == starting * 2048 + rem);
            let pages = self.pages_view();
            if n_pages > 0 {
                assert(spec_pages_len(pages) <= n_pages * 2048);
            }
            if starting == n_pages && n_pages > 0 {
                assert(pages.last().values == 2048);
            }
            if starting > 0 {
                self.lemma_page_in_region(starting - 1);
                if starting - 1 > 0 {
                    self.lemma_page_starts_after_header(starting - 1);
                }
            }
        }
        if starting == 0 {
            HEADER_OFFSET as u64
        } else {
            let p = self.pages.get(starting - 1).unwrap();
            let region_len = self.region.len();
            assert(page_end(p) <= region_len);
            p.start + p.bytes as u64
        }
    }

    /// Replaces the pages from the flushed one on by `new_pages`, the region
    /// from where that page began by `buf`, marks the pushed values stored and
    /// writes the page table.
    #[verifier::spinoff_prover]
    #[verifier::rlimit(40)]
    fn relay(&mut self, truncate_at: u64, new_pages: Vec<Page>, buf: Vec<u8>, Ghost(values): Ghost<Seq<u64>>)
        requires
            old(self).wf(),
            old(self).has_pending(),
            old(self).stored_len_view() % PER_PAGE as nat != 0 ==> old(self).page_decodes(old(self).flush_page()),
            values == old(self).flush_kept() + old(self).pushed_view(),
            truncate_at == spec_start_of(old(self).pages_view(), old(self).flush_page()),
            HEADER_OFFSET <= truncate_at <= old(self).region_view().len(),
            old(self).flush_page() <= old(self).pages_view().len(),
            old(self).flush_page() > 0 ==> old(self).pages_view()[old(self).flush_page() - 1].values == PER_PAGE,
            chunks_laid(new_pages@, buf@, values, truncate_at as int),
        ensures
            final(self).wf(),
            final(self).header_view() == old(self).header_view(),
            final(self).name_view() == old(self).name_view(),
            forall|i: int| #[trigger] final(self).value_at(i) == old(self).value_at(i),
            final(self).stored_len_view() == old(self).spec_len(),
            final(self).pushed_view() == Seq::<u64>::empty(),
            final(self).stored_len_view() == spec_pages_len(final(self).pages_view()),
            final(self).region_view().len() == spec_start_of(
                final(self).pages_view(),
                final(self).pages_view().len() as int,
            ),
            forall|k: int|
                #![trigger final(self).page_decodes(k)]
                0 <= k < old(self).flush_page() ==> final(self).page_decodes(k) == old(self).page_decodes(k),
            forall|k: int|
                #![trigger final(self).page_decodes(k)]
                old(self).flush_page() <= k < final(self).pages_view().len() ==> final(self).page_decodes(k),
    {
        let ghost s1 = *self;
        let region_len = self.region.len();
        assert(truncate_at <= region_len);
        let stored = self.stored_len;
        let np = self.pushed.len();
        let starting = stored / PER_PAGE;
        let ghost old_pages = self.pages@;
        let nn = new_pages.len();
        proof {
            if nn > 0 {
                assert(chunk_ok(new_pages@, buf@, values, truncate_at as int, nn - 1));
            }
            assert(stored == starting * 2048 + stored % 2048);
        }
        self.pages.replace_from(starting, new_pages.as_slice());
        truncate_write(&mut self.region, truncate_at as usize, buf.as_slice());
        self.stored_len = stored + np;
        self.pushed.clear();
        proof {
            crate::compressed::page::lemma_pages_bytes_len(old_pages);
        }
        self.pages.flush(&mut self.pages_region);
        proof {
            assert(old_pages.subrange(0, starting as int) =~= self.pages@.subrange(
                0,
                starting as int,
            ));
            crate::compressed::page::lemma_pages_flush_roundtrip(
                s1.pages_region@,
                old_pages,
                self.pages@,
                starting as int,
            );
            lemma_relaid_pages(old_pages, starting as int, new_pages@, buf@, values);
            assert forall|i: int| #[trigger] self.value_at(i) == s1.value_at(i) by {
                s1.lemma_flushed_value(self, new_pages@, buf@, values, i);
            }
            assert forall|k: int| 0 <= k < s1.flush_page() implies #[trigger] self.page_decodes(k)
                == s1.page_decodes(k) by {
                s1.lemma_flushed_page_decodes(self, new_pages@, buf@, values, k);
            }
            assert forall|k: int| s1.flush_page() <= k < self.pages_view().len() implies #[trigger] self.page_decodes(k) by {
                s1.lemma_flushed_page_decodes(self, new_pages@, buf@, values, k);
            }
            assert(self.region@.subrange(0, HEADER_OFFSET as int) =~= s1.region@.subrange(
                0,
                HEADER_OFFSET as int,
            ));
            lemma_parse_header_prefix(self.region@, s1.region@);
        }
    }

    /// What a flush from this vector to `new` with result `r` does. Every
    /// value reads as before and the header is written. On success the pushed
    /// values are stored and the stored length is what the page table holds.
    /// A flush with something pending succeeds unless the page it has to
    /// rewrite does not decode (`Decompression`) or the compressed bytes
    /// could pass the largest offset a page can start at (`Compression`,
    /// `flush_overflows`); on failure the stored and pushed
    /// values and the page table are kept. With nothing pending it succeeds
    /// and changes nothing but the header bytes.
    pub open spec fn flushed_to(&self, new: CompressedVec, r: Result<(), Error>) -> bool {
        &&& new.header_view().inner == self.header_view().inner
        &&& !new.header_view().modified
        &&& new.name_view() == self.name_view()
        &&& forall|i: int| #[trigger] new.value_at(i) == self.value_at(i)
        &&& r is Ok ==> new.stored_len_view() == self.spec_len() && new.pushed_view() == Seq::<
            u64,
        >::empty() && new.stored_len_view() == spec_pages_len(new.pages_view())
        &&& r is Ok && self.has_pending() ==> new.region_view().len() == spec_start_of(
            new.pages_view(),
            new.pages_view().len() as int,
        )
        &&& r is Err ==> new.stored_len_view() == self.stored_len_view() && new.pushed_view()
            == self.pushed_view() && new.pages_view() == self.pages_view()
        &&& !self.has_pending() ==> r is Ok && new.pages_view() == self.pages_view()
            && new.region_view() == self.header_written_region()
        &&& self.flush_decodes() && !self.page_decodes(self.flush_page()) ==> r == Err::<(), Error>(
            Error::Decompression,
        )
        &&& r matches Err(e) ==> (e == Error::Compression && self.flush_overflows()) || (e
            == Error::Decompression && self.flush_decodes() && !self.page_decodes(self.flush_page()))
        &&& self.has_pending() && !(self.flush_decodes() && !self.page_decodes(self.flush_page()))
            && !self.flush_overflows() ==> r is Ok
        &&& forall|k: int|
            0 <= k < self.flush_page() ==> #[trigger] new.page_decodes(k) == self.page_decodes(k)
        &&& (r is Err || !self.has_pending()) ==> forall|k: int| #[trigger] new.page_decodes(k)
            == self.page_decodes(k)
        &&& r is Ok && self.has_pending() ==> forall|k: int|
            self.flush_page() <= k < new.pages_view().len() ==> #[trigger] new.page_decodes(k)
    }

    /// Writes the header when it changed, then compresses the values from the
    /// page the stored length ends in onward (the values kept from that page,
    /// then the pushed ones) into pages that replace the old ones from there,
    /// truncates the data region where that page began and appends their
    /// bytes, and writes the page table. Every value reads as before.
    pub fn flush(&mut self) -> (r: Result<(), Error>)
        requires
            old(self).wf(),
        ensures
            final(self).wf(),
            old(self).flushed_to(*final(self), r),
    {
        self.write_header_if_needed();
        let ghost s1 = *self;
        assert(s1.flush_kept() == old(self).flush_kept());
        let stored = self.stored_len;
        let real_len = self.pages.stored_len(PER_PAGE);
        if self.pushed.len() == 0 && stored == real_len {
            assert(!old(self).has_pending());
            assert(self.pushed_view() =~= Seq::<u64>::empty());
            assert(self.region_view() == old(self).header_written_region());
            assert(self.pages_view() == old(self).pages_view());
            assert(self.stored_len_view() == old(self).spec_len());
            assert(forall|i: int| #[trigger] self.value_at(i) == old(self).value_at(i));
            return Ok(());
        }
        let truncate_at = self.flush_start();
        let values = match self.flush_values() {
            Ok(v) => v,
            Err(e) => {
                return Err(e);
            },
        };
        let (new_pages, buf) = match compress_values(values.as_slice(), truncate_at) {
            Ok(x) => x,
            Err(e) => {
                return Err(e);
            },
        };
        self.relay(truncate_at, new_pages, buf, Ghost(values@));
        Ok(())
    }

    /// Flushes the vector (see `flush`) and tells whether anything was
    /// pending: values pushed, or a stored length cut below what the page
    /// table holds.
    pub fn write(&mut self) -> (r: Result<bool, Error>)
        requires
            old(self).wf(),
        ensures
            final(self).wf(),
            old(self).flushed_to(
                *final(self),
                match r {
                    Ok(_) => Ok(()),
                    Err(e) => Err(e),
                },
            ),
            r matches Ok(b) ==> b == old(self).has_pending(),
    {
        let pending = self.pushed.len() > 0 || self.stored_len != self.pages.stored_len(PER_PAGE);
        match self.flush() {
            Ok(()) => Ok(pending),
            Err(e) => Err(e),
        }
    }

    /// A stored value whose page decodes is there.
    pub proof fn lemma_decoded_value(&self, i: int)
        requires
            self.wf(),
            0 <= i < self.stored_len_view(),
            self.page_decodes(i / PER_PAGE as int),
        ensures
            self.stored_value(i) is Some,
    {
        self.lemma_page_values(i);
    }

    proof fn lemma_page_of_index(&self, k: int)
        requires
            self.wf(),
            0 <= k,
            k * PER_PAGE < self.stored_len_view(),
        ensures
            k < self.pages_view().len(),
    {
        let n = self.pages_view().len() as int;
        if k >= n {
            assert(n > 0 ==> (n - 1) * 2048 + self.pages_view().last().values <= n * 2048);
            assert(n * 2048 <= k * 2048) by (nonlinear_arith)
                requires
                    n <= k,
            ;
        }
    }

    pub(crate) proof fn lemma_page_values(&self, i: int)
        requires
            self.wf(),
            0 <= i < self.stored_len_view(),
        ensures
            i / 2048 < self.pages_view().len(),
            i % 2048 < self.pages_view()[i / 2048].values,
    {
        let k = i / 2048;
        let n = self.pages_view().len() as int;
        assert(k * 2048 <= i) by (nonlinear_arith)
            requires
                k == i / 2048,
                0 <= i,
        ;
        self.lemma_page_of_index(k);
        if k == n - 1 {
            assert(i - k * 2048 == i % 2048) by (nonlinear_arith)
                requires
                    k == i / 2048,
                    0 <= i,
            ;
        } else {
            assert(self.pages_view()[k].values == 2048);
        }
    }

    proof fn lemma_page_in_region(&self, k: int)
        requires
            self.wf(),
            0 <= k < self.pages_view().len(),
        ensures
            self.pages_view()[k].start <= page_end(self.pages_view()[k]) <= self.region_view().len(),
            HEADER_OFFSET <= self.pages_view()[k].start,
        decreases self.pages_view().len() - k,
    {
        let pages = self.pages_view();
        if k < pages.len() - 1 {
            self.lemma_page_in_region(k + 1);
            assert(pages[k + 1].start == page_end(pages[k]));
        }
        self.lemma_page_starts_after_header(k);
    }

    proof fn lemma_page_starts_after_header(&self, k: int)
        requires
            self.wf(),
            0 <= k < self.pages_view().len(),
        ensures
            HEADER_OFFSET <= self.pages_view()[k].start,
        decreases k,
    {
        if k > 0 {
            self.lemma_page_starts_after_header(k - 1);
        }
    }
}

} // verus!
