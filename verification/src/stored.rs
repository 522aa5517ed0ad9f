use vstd::prelude::*;

use crate::compressed::iterators::CompressedVecIterator;
use crate::compressed::vec::{CompressedVec, PER_PAGE, spec_pages_len};
use crate::error::Error;
use crate::header::{HEADER_OFFSET, Header, HeaderInner};
use crate::options::ImportOptions;
use crate::raw::iterators::RawVecIterator;
use crate::raw::read_write::ReadWriteRawVec;
use crate::version::{Format, Stamp, Version};

verus! {

/// A stored vector of `u64` values in either format.
pub enum StoredVec {
    Raw(ReadWriteRawVec<u64>),
    Compressed(CompressedVec),
}

/// Most values a raw vector of `u64` can hold: its region, header included,
/// must stay addressable.
pub open spec fn raw_capacity() -> nat {
    ((usize::MAX - HEADER_OFFSET) / 8) as nat
}

impl StoredVec {
    pub open spec fn wf(&self) -> bool {
        match self {
            StoredVec::Raw(v) => v.wf() && v.spec_len() <= raw_capacity(),
            StoredVec::Compressed(v) => v.wf(),
        }
    }

    /// No index is marked as a hole.
    pub open spec fn holes_free(&self) -> bool {
        match self {
            StoredVec::Raw(v) => v.holes_view() == Set::<usize>::empty(),
            StoredVec::Compressed(v) => true,
        }
    }

    /// Most values the vector can hold.
    pub open spec fn capacity(&self) -> nat {
        match self {
            StoredVec::Raw(v) => raw_capacity(),
            StoredVec::Compressed(v) => usize::MAX as nat,
        }
    }

    pub open spec fn spec_len(&self) -> nat {
        match self {
            StoredVec::Raw(v) => v.spec_len(),
            StoredVec::Compressed(v) => v.spec_len(),
        }
    }

    pub open spec fn value_at(&self, i: int) -> Option<u64> {
        match self {
            StoredVec::Raw(v) => v.value_at(i),
            StoredVec::Compressed(v) => v.value_at(i),
        }
    }

    /// Reading value `i` does not fail: always for a raw vector; for a
    /// compressed one, when the value is pushed or its page decodes.
    pub open spec fn readable(&self, i: int) -> bool {
        match self {
            StoredVec::Raw(v) => true,
            StoredVec::Compressed(v) => i >= v.stored_len_view() || v.page_decodes(
                i / PER_PAGE as int,
            ),
        }
    }

    pub open spec fn header_inner(&self) -> HeaderInner {
        match self {
            StoredVec::Raw(v) => v.header_view().inner,
            StoredVec::Compressed(v) => v.header_view().inner,
        }
    }

    pub open spec fn name_view(&self) -> Seq<char> {
        match self {
            StoredVec::Raw(v) => v.name_view(),
            StoredVec::Compressed(v) => v.name_view(),
        }
    }

    pub open spec fn format_view(&self) -> Format {
        match self {
            StoredVec::Raw(v) => Format::Raw,
            StoredVec::Compressed(v) => Format::Compressed,
        }
    }

    /// A value below the length that reads without failing is there.
    pub proof fn lemma_readable_value(&self, i: int)
        requires
            self.wf(),
            self.holes_free(),
            0 <= i < self.spec_len(),
            self.readable(i),
        ensures
            self.value_at(i) is Some,
    {
        match self {
            StoredVec::Raw(v) => {},
            StoredVec::Compressed(v) => {
                if i < v.stored_len_view() {
                    v.lemma_decoded_value(i);
                }
            },
        }
    }

    /// The error a forced import of `region` (and `aux`) gives: an import
    /// error that does not make it start the vector over.
    pub open spec fn forced_import_error(options: ImportOptions, format: Format, region: Seq<u8>, aux: Seq<u8>) -> Option<Error> {
        match format {
            Format::Raw => {
                let o = ReadWriteRawVec::<u64>::forced_options(options);
                let err = ReadWriteRawVec::<u64>::spec_import_error(o.version, format, region, None);
                if err is Some && !ReadWriteRawVec::<u64>::resets_on(err->0) {
                    err
                } else {
                    None
                }
            },
            Format::Compressed => {
                let err = CompressedVec::spec_import_error(
                    CompressedVec::spec_forced_version(options.version),
                    region,
                    aux,
                );
                if err is Some && !CompressedVec::resets_on(err->0) {
                    err
                } else {
                    None
                }
            },
        }
    }

    /// The vector is what a forced import of `region` (and `aux`) gives: the
    /// imported vector, or a new one when the import had to start over.
    pub open spec fn forced_imported(&self, options: ImportOptions, format: Format, region: Seq<u8>, aux: Seq<u8>) -> bool {
        match format {
            Format::Raw => {
                let o = ReadWriteRawVec::<u64>::forced_options(options);
                let err = ReadWriteRawVec::<u64>::spec_import_error(o.version, format, region, None);
                &&& self is Raw
                &&& err is None ==> self->Raw_0.imported(&o, format, region, None)
                &&& err is Some ==> self->Raw_0.imported(&o, format, Seq::empty(), None)
            },
            Format::Compressed => {
                let ver = CompressedVec::spec_forced_version(options.version);
                let opts = ImportOptions { version: ver, ..options };
                let err = CompressedVec::spec_import_error(ver, region, aux);
                &&& self is Compressed
                &&& err is None ==> self->Compressed_0.imported(&opts, region, aux)
                &&& err is Some ==> self->Compressed_0.imported(&opts, Seq::empty(), Seq::empty())
            },
        }
    }

    /// Imports a stored vector in the given format, starting it over when its
    /// stored header does not match. A raw vector is imported without holes
    /// and `aux` is ignored; a compressed one reads its page table from `aux`.
    /// The version must be at least one: a header of version zero could not
    /// tell a byte order from the other.
    pub fn forced_import_with(options: &ImportOptions, format: Format, region: Vec<u8>, aux: Vec<u8>) -> (r: Result<StoredVec, Error>)
        requires
            options.version.0 != 0,
        ensures
            r matches Ok(v) ==> v.wf() && v.holes_free() && v.format_view() == format
                && v.name_view() == options.name@,
            match r {
                Ok(v) => Self::forced_import_error(*options, format, region@, aux@) is None
                    && v.forced_imported(*options, format, region@, aux@),
                Err(e) => Self::forced_import_error(*options, format, region@, aux@) == Some(e),
            },
    {
        let ghost region_in = region@;
        let region_len = region.len();
        match format {
            Format::Compressed => {
                match CompressedVec::forced_import_with(options, region, aux) {
                    Ok(v) => Ok(StoredVec::Compressed(v)),
                    Err(e) => Err(e),
                }
            },
            Format::Raw => {
                match ReadWriteRawVec::<u64>::forced_import_with(options, format, region, None) {
                    Ok(v) => {
                        proof {
                            assert(region_in.len() == region_len);
                            let n = region_in.len() as int;
                            if n > HEADER_OFFSET {
                                vstd::arithmetic::div_mod::lemma_div_is_ordered(
                                    n - HEADER_OFFSET,
                                    usize::MAX - HEADER_OFFSET,
                                    8,
                                );
                            }
                        }
                        Ok(StoredVec::Raw(v))
                    },
                    Err(e) => Err(e),
                }
            },
        }
    }

    pub fn len(&self) -> (r: usize)
        requires
            self.wf(),
        ensures
            r == self.spec_len(),
    {
        match self {
            StoredVec::Raw(v) => v.len(),
            StoredVec::Compressed(v) => v.len(),
        }
    }

    pub fn is_empty(&self) -> (r: bool)
        requires
            self.wf(),
        ensures
            r == (self.spec_len() == 0),
    {
        self.len() == 0
    }

    pub fn computed_version(&self) -> (r: Version)
        ensures
            r == self.header_inner().computed_version,
    {
        match self {
            StoredVec::Raw(v) => v.header().computed_version(),
            StoredVec::Compressed(v) => v.header().computed_version(),
        }
    }

    /// The header: the version, stamp and format fields it holds, and whether
    /// it changed since it was last written.
    pub fn header(&self) -> (r: &Header)
        ensures
            r.inner == self.header_inner(),
    {
        match self {
            StoredVec::Raw(v) => v.header(),
            StoredVec::Compressed(v) => v.header(),
        }
    }

    pub fn vec_version(&self) -> (r: Version)
        ensures
            r == self.header_inner().vec_version,
    {
        match self {
            StoredVec::Raw(v) => v.header().vec_version(),
            StoredVec::Compressed(v) => v.header().vec_version(),
        }
    }

    /// Appends a value after the last one.
    pub fn push(&mut self, value: u64)
        requires
            old(self).wf(),
            old(self).holes_free(),
            old(self).spec_len() < old(self).capacity(),
        ensures
            final(self).wf(),
            final(self).holes_free(),
            final(self).format_view() == old(self).format_view(),
            final(self).header_inner() == old(self).header_inner(),
            final(self).name_view() == old(self).name_view(),
            final(self).spec_len() == old(self).spec_len() + 1,
            final(self).value_at(old(self).spec_len() as int) == Some(value),
            forall|j: int| j != old(self).spec_len() ==> #[trigger] final(self).value_at(j) == old(self).value_at(j),
            forall|j: int| old(self).readable(j) ==> #[trigger] final(self).readable(j),
            final(self).readable(old(self).spec_len() as int),
    {
        match self {
            StoredVec::Raw(v) => v.push(value),
            StoredVec::Compressed(v) => v.push(value),
        }
    }

    /// Shortens the vector to `index` values when it is longer.
    pub fn truncate_if_needed_at(&mut self, index: usize)
        requires
            old(self).wf(),
            old(self).holes_free(),
        ensures
            final(self).wf(),
            final(self).holes_free(),
            final(self).format_view() == old(self).format_view(),
            final(self).header_inner() == old(self).header_inner(),
            final(self).name_view() == old(self).name_view(),
            final(self).spec_len() == if index < old(self).spec_len() {
                index as nat
            } else {
                old(self).spec_len()
            },
            forall|i: int| #[trigger]
                final(self).value_at(i) == if i < index {
                    old(self).value_at(i)
                } else {
                    None
                },
            forall|j: int| j < index && old(self).readable(j) ==> #[trigger] final(self).readable(j),
    {
        match self {
            StoredVec::Raw(v) => {
                v.truncate_if_needed_at(index);
                assert(v.holes_view() =~= Set::<usize>::empty());
            },
            StoredVec::Compressed(v) => v.truncate_if_needed_at(index),
        }
    }

    /// Drops every value.
    pub fn reset(&mut self)
        requires
            old(self).wf(),
            old(self).holes_free(),
        ensures
            final(self).wf(),
            final(self).holes_free(),
            final(self).format_view() == old(self).format_view(),
            final(self).header_inner() == old(self).header_inner(),
            final(self).name_view() == old(self).name_view(),
            final(self).spec_len() == 0,
            forall|i: int| #[trigger] final(self).value_at(i) is None,
    {
        match self {
            StoredVec::Raw(v) => v.reset(),
            StoredVec::Compressed(v) => v.reset(),
        }
    }

    /// Records the version of the computation that fills this vector.
    pub fn update_computed_version(&mut self, computed_version: Version)
        requires
            old(self).wf(),
            old(self).holes_free(),
        ensures
            final(self).wf(),
            final(self).holes_free(),
            final(self).format_view() == old(self).format_view(),
            final(self).header_inner() == (HeaderInner {
                computed_version,
                ..old(self).header_inner()
            }),
            final(self).name_view() == old(self).name_view(),
            final(self).spec_len() == old(self).spec_len(),
            forall|i: int| #[trigger] final(self).value_at(i) == old(self).value_at(i),
            forall|j: int| old(self).readable(j) ==> #[trigger] final(self).readable(j),
    {
        match self {
            StoredVec::Raw(v) => v.update_computed_version(computed_version),
            StoredVec::Compressed(v) => v.update_computed_version(computed_version),
        }
    }

    /// Records the stamp of the last flush.
    pub fn update_stamp(&mut self, stamp: Stamp)
        requires
            old(self).wf(),
            old(self).holes_free(),
        ensures
            final(self).wf(),
            final(self).holes_free(),
            final(self).format_view() == old(self).format_view(),
            final(self).header_inner() == (HeaderInner { stamp, ..old(self).header_inner() }),
            final(self).name_view() == old(self).name_view(),
            final(self).spec_len() == old(self).spec_len(),
            forall|i: int| #[trigger] final(self).value_at(i) == old(self).value_at(i),
            forall|j: int| old(self).readable(j) ==> #[trigger] final(self).readable(j),
    {
        match self {
            StoredVec::Raw(v) => v.update_stamp(stamp),
            StoredVec::Compressed(v) => v.update_stamp(stamp),
        }
    }

    pub fn stamp(&self) -> (r: Stamp)
        ensures
            r == self.header_inner().stamp,
    {
        match self {
            StoredVec::Raw(v) => v.header().stamp(),
            StoredVec::Compressed(v) => v.header().stamp(),
        }
    }

    /// `names` are the regions of the vector: its own and its holes region
    /// for a raw one (when it has one on disk), its data and page table
    /// regions for a compressed one.
    pub open spec fn region_names_are(&self, names: Seq<String>) -> bool {
        match self {
            StoredVec::Raw(v) => {
                &&& names.len() == if v.has_stored_holes_view() { 2int } else { 1int }
                &&& names[0]@ == v.name_view()
                &&& v.has_stored_holes_view() ==> names[1]@ == v.name_view() + "_holes"@
            },
            StoredVec::Compressed(v) => {
                &&& names.len() == 2
                &&& names[0]@ == v.name_view()
                &&& names[1]@ == v.name_view() + "_pages"@
            },
        }
    }

    pub fn region_names(&self) -> (r: Vec<String>)
        ensures
            self.region_names_are(r@),
    {
        match self {
            StoredVec::Raw(v) => v.region_names(),
            StoredVec::Compressed(v) => v.region_names(),
        }
    }

    /// The regions to delete to remove the vector.
    pub fn remove(self) -> (r: Vec<String>)
        ensures
            self.region_names_are(r@),
    {
        self.region_names()
    }

    /// The values an iterator over the vector gives: those present for a raw
    /// one; for a compressed one, those read page by page, up to the first
    /// page that does not decompress.
    pub open spec fn iter_values(&self) -> Seq<u64> {
        match self {
            StoredVec::Raw(v) => v.present_values(0, v.spec_len() as int),
            StoredVec::Compressed(v) => v.read_any_values(0, v.spec_len() as int),
        }
    }

    /// An iterator over the values.
    pub fn iter(&self) -> (r: StoredVecIterator<'_>)
        requires
            self.wf(),
        ensures
            r.wf(),
            r.remaining_values() == self.iter_values(),
    {
        match self {
            StoredVec::Raw(v) => StoredVecIterator::Raw(v.iter()),
            StoredVec::Compressed(v) => StoredVecIterator::Compressed(v.iter()),
        }
    }

    /// Reads value `index`, pushed or stored.
    pub fn get(&self, index: usize) -> (r: Result<Option<u64>, Error>)
        requires
            self.wf(),
        ensures
            self.readable(index as int) ==> r == Ok::<Option<u64>, Error>(self.value_at(index as int)),
            !self.readable(index as int) ==> r == Err::<Option<u64>, Error>(Error::Decompression),
    {
        match self {
            StoredVec::Raw(v) => v.get_any_or_read(index),
            StoredVec::Compressed(v) => v.get_pushed_or_read_at(index),
        }
    }

    /// What a flush from this vector to `new` with result `r` does. A raw
    /// vector always succeeds: its pushed and updated values are written into
    /// the region, which then holds exactly the header and every value. A
    /// compressed vector does what `CompressedVec::flushed_to` says: it
    /// writes its pushed values into pages and succeeds unless the page it
    /// has to rewrite does not decode (`Decompression`) or the compressed
    /// bytes could pass the largest page offset (`Compression`).
    pub open spec fn flushed(&self, new: StoredVec, r: Result<(), Error>) -> bool {
        match (*self, new) {
            (StoredVec::Raw(a), StoredVec::Raw(b)) => {
                &&& r is Ok
                &&& b.stored_len_view() == a.spec_len()
                &&& b.pushed_view() == Seq::<u64>::empty()
                &&& b.updated_view() == Map::<usize, u64>::empty()
                &&& b.region_view().len() == HEADER_OFFSET + b.stored_len_view() * 8
                &&& !b.header_view().modified
            },
            (StoredVec::Compressed(a), StoredVec::Compressed(b)) => a.flushed_to(b, r),
            _ => false,
        }
    }

    /// Writes the pending values and the header. Every value reads as
    /// before; a compressed vector may fail to compress or decode a page.
    pub fn flush(&mut self) -> (r: Result<(), Error>)
        requires
            old(self).wf(),
            old(self).holes_free(),
        ensures
            final(self).wf(),
            final(self).holes_free(),
            final(self).format_view() == old(self).format_view(),
            final(self).header_inner() == old(self).header_inner(),
            final(self).name_view() == old(self).name_view(),
            final(self).spec_len() == old(self).spec_len(),
            forall|i: int| #[trigger] final(self).value_at(i) == old(self).value_at(i),
            old(self).format_view() is Raw ==> r is Ok,
            r matches Err(e) ==> e is Compression || e is Decompression,
            old(self).flushed(*final(self), r),
    {
        match self {
            StoredVec::Raw(v) => {
                let _ = v.write();
                Ok(())
            },
            StoredVec::Compressed(v) => {
                let r = v.flush();
                proof {
                    if r is Err {
                        assert(v.spec_len() == old(self).spec_len());
                    }
                }
                r
            },
        }
    }
}

/// An iterator over a stored vector of either format.
pub enum StoredVecIterator<'a> {
    Raw(RawVecIterator<'a, u64>),
    Compressed(CompressedVecIterator<'a>),
}

impl<'a> StoredVecIterator<'a> {
    pub open spec fn wf(&self) -> bool {
        match self {
            StoredVecIterator::Raw(it) => it.wf(),
            StoredVecIterator::Compressed(it) => it.wf(),
        }
    }

    /// The values still to come.
    pub open spec fn remaining_values(&self) -> Seq<u64> {
        match self {
            StoredVecIterator::Raw(it) => it.remaining_values(),
            StoredVecIterator::Compressed(it) => it.remaining_values(),
        }
    }

    /// The next value: the first of those left, when any is left.
    pub fn next(&mut self) -> (r: Option<u64>)
        requires
            old(self).wf(),
        ensures
            final(self).wf(),
            old(self).remaining_values().len() > 0 ==> r == Some(old(self).remaining_values()[0])
                && final(self).remaining_values() == old(self).remaining_values().drop_first(),
            old(self).remaining_values().len() == 0 ==> r is None,
    {
        match self {
            StoredVecIterator::Raw(it) => it.next(),
            StoredVecIterator::Compressed(it) => it.next(),
        }
    }

    /// Every value left.
    pub fn collect(self) -> (r: Vec<u64>)
        requires
            self.wf(),
        ensures
            r@ == self.remaining_values(),
    {
        match self {
            StoredVecIterator::Raw(it) => it.collect(),
            StoredVecIterator::Compressed(it) => it.collect(),
        }
    }
}

} // verus!
