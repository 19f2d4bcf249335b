//! A file of pages.
use crate::error::{Error, Result};
use crate::format::image;
use crate::format::page;
use crate::format::page::{Page, PageView};
use crate::format::PageId;
use crate::io;
use crate::io::{FileSystem, Refused};
use crate::wal::manager;
use vstd::prelude::*;
use vstd::string::*;

verus! {

/// Where a page starts in its file; page ids start at one.
pub open spec fn page_offset(page_id: PageId, page_size: int) -> int {
    (page_id.0 - 1) * page_size
}

/// Why a page has no place in a file.
pub open spec fn place_error(page_id: PageId, page_size: int) -> Option<Error> {
    if page_id.0 == 0 {
        Some(Error::CorruptPage("page id zero is invalid"))
    } else if page_offset(page_id, page_size) > u64::MAX {
        Some(Error::CorruptPage("page offset overflow"))
    } else {
        None
    }
}

/// The bytes of a page in a file.
pub open spec fn page_bytes(content: Seq<u8>, page_id: PageId, page_size: int) -> Seq<u8> {
    content.subrange(page_offset(page_id, page_size), page_offset(page_id, page_size) + page_size)
}

/// Whether a file reaches to the end of a page.
pub open spec fn reaches(content: Seq<u8>, page_id: PageId, page_size: int) -> bool {
    page_offset(page_id, page_size) + page_size <= content.len()
}

/// What a file holds after a page is written.
pub open spec fn with_page(content: Seq<u8>, p: PageView) -> Seq<u8> {
    io::overwritten(content, page_offset(p.page_id, p.size as int), image::page_image(p))
}

/// A page that is written is read back.
pub proof fn law_page_is_read_back(content: Seq<u8>, p: PageView)
    requires
        p.wf(),
        p.page_id.0 > 0,
    ensures
        reaches(with_page(content, p), p.page_id, p.size as int),
        image::parse_image(page_bytes(with_page(content, p), p.page_id, p.size as int)) == Ok::<PageView, Error>(p),
{
    image::law_page_image_round_trips(p);
    let at = page_offset(p.page_id, p.size as int);
    assert(at >= 0) by (nonlinear_arith)
        requires
            at == (p.page_id.0 - 1) * p.size,
            p.page_id.0 > 0,
            p.size >= 0,
    ;
    assert(page_bytes(with_page(content, p), p.page_id, p.size as int) =~= image::page_image(p));
}

/// Writing a page leaves every other page as it was.
pub proof fn law_other_pages_stay(content: Seq<u8>, p: PageView, other: PageId)
    requires
        p.wf(),
        p.page_id.0 > 0,
        other.0 > 0,
        other != p.page_id,
        reaches(content, other, p.size as int),
    ensures
        reaches(with_page(content, p), other, p.size as int),
        page_bytes(with_page(content, p), other, p.size as int) == page_bytes(content, other, p.size as int),
{
    image::lemma_page_image_len(p);
    let size = p.size as int;
    let at = page_offset(p.page_id, size);
    let there = page_offset(other, size);
    assert(0 <= at && 0 <= there && (there + size <= at || at + size <= there)) by (nonlinear_arith)
        requires
            at == (p.page_id.0 - 1) * size,
            there == (other.0 - 1) * size,
            p.page_id.0 > 0,
            other.0 > 0,
            other.0 != p.page_id.0,
            size >= 0,
    ;
    assert(page_bytes(with_page(content, p), other, size) =~= page_bytes(content, other, size));
}

/// A file of whole pages stays one when a page is written, and holds as many pages as the highest page id
/// says: writing a page again does not make it longer, and pages that were left out count.
pub proof fn law_page_count_is_highest_id(content: Seq<u8>, p: PageView)
    requires
        p.wf(),
        p.size > 0,
        p.page_id.0 > 0,
        content.len() as int % p.size as int == 0,
    ensures
        with_page(content, p).len() as int % p.size as int == 0,
        with_page(content, p).len() as int / p.size as int == if content.len() as int / p.size as int >= p.page_id.0 {
            content.len() as int / p.size as int
        } else {
            p.page_id.0 as int
        },
{
    image::lemma_page_image_len(p);
    let size = p.size as int;
    let len = content.len() as int;
    let count = len / size;
    let id = p.page_id.0 as int;
    let at = page_offset(p.page_id, size);
    let after = with_page(content, p).len() as int;
    assert(len == count * size) by (nonlinear_arith)
        requires
            len % size == 0,
            count == len / size,
            size > 0,
    ;
    assert(at + size == id * size) by (nonlinear_arith)
        requires
            at == (id - 1) * size,
    ;
    if count >= id {
        assert(id * size <= count * size) by (nonlinear_arith)
            requires
                count >= id,
                size > 0,
        ;
        assert(after == len);
    } else {
        assert(count * size < id * size) by (nonlinear_arith)
            requires
                count < id,
                size > 0,
        ;
        assert(after == id * size);
        assert((id * size) % size == 0 && (id * size) / size == id) by (nonlinear_arith)
            requires
                size > 0,
        ;
    }
}

/// A file of pages.
#[derive(Debug)]
pub struct PageFile<Fs: FileSystem> {
    fs: Fs,
    path: String,
    page_size: usize,
}

impl<Fs: FileSystem> PageFile<Fs> {
    pub closed spec fn wf(self) -> bool {
        page::page_size_ok(self.page_size as nat)
    }

    pub closed spec fn spec_fs(self) -> Fs {
        self.fs
    }

    pub closed spec fn spec_path(self) -> Seq<char> {
        self.path@
    }

    pub closed spec fn spec_page_size(self) -> usize {
        self.page_size
    }

    /// What the file holds.
    pub open spec fn content(self) -> Seq<u8> {
        self.spec_fs().files()[self.spec_path()]
    }

    /// Makes a file without pages; one that is there is emptied. A page size that is refused leaves the
    /// file system alone.
    pub fn create_with_fs(path: &str, page_size: usize, fs: Fs) -> (r: std::result::Result<PageFile<Fs>, Refused<Fs>>)
        ensures
            match r {
                Ok(file) => {
                    &&& page::page_size_ok(page_size as nat)
                    &&& file.wf()
                    &&& file.spec_page_size() == page_size
                    &&& file.spec_path() == path@
                    &&& file.spec_fs().files() == fs.files().insert(path@, Seq::empty())
                    &&& file.spec_fs().synced() == fs.synced()
                    &&& fs.reliable() ==> file.spec_fs().reliable()
                },
                Err(refused) => if page::page_size_ok(page_size as nat) {
                    &&& !fs.reliable()
                    &&& refused.fs.files().remove(path@) == fs.files().remove(path@)
                    &&& refused.fs.synced() == fs.synced()
                } else {
                    refused.error == page::page_size_error(page_size) && refused.fs == fs
                },
            },
    {
        if let Err(error) = page::validate_page_size(page_size) {
            return Err(Refused { error, fs });
        }
        let mut fs = fs;
        let ghost start = fs.files();
        if let Err(error) = fs.open_rw_create(path) {
            return Err(Refused { error, fs });
        }
        let ghost opened = fs.files();
        proof {
            assert(opened.remove(path@) =~= start.remove(path@));
        }
        if let Err(error) = fs.set_len(path, 0) {
            return Err(Refused { error, fs });
        }
        proof {
            assert(io::resized(opened[path@], 0) =~= Seq::<u8>::empty());
            assert(fs.files() =~= start.insert(path@, Seq::empty()));
        }
        Ok(PageFile { fs, path: String::from_str(path), page_size })
    }

    /// Opens a file of pages, making one if there is none. A page size that is refused leaves the file
    /// system alone.
    pub fn open_with_fs(path: &str, page_size: usize, fs: Fs) -> (r: std::result::Result<PageFile<Fs>, Refused<Fs>>)
        ensures
            match r {
                Ok(file) => {
                    &&& page::page_size_ok(page_size as nat)
                    &&& file.wf()
                    &&& file.spec_page_size() == page_size
                    &&& file.spec_path() == path@
                    &&& file.spec_fs().files() == manager::with_file(fs.files(), path@)
                    &&& file.spec_fs().synced() == fs.synced()
                    &&& fs.reliable() ==> file.spec_fs().reliable()
                },
                Err(refused) => if page::page_size_ok(page_size as nat) {
                    &&& !fs.reliable()
                    &&& refused.fs.files().remove(path@) == fs.files().remove(path@)
                    &&& refused.fs.synced() == fs.synced()
                } else {
                    refused.error == page::page_size_error(page_size) && refused.fs == fs
                },
            },
    {
        if let Err(error) = page::validate_page_size(page_size) {
            return Err(Refused { error, fs });
        }
        let mut fs = fs;
        if let Err(error) = fs.open_rw_create(path) {
            return Err(Refused { error, fs });
        }
        Ok(PageFile { fs, path: String::from_str(path), page_size })
    }

    pub fn page_size(&self) -> (size: usize)
        ensures
            size == self.spec_page_size(),
    {
        self.page_size
    }

    /// How many whole pages the file holds. On a reliable file system it fails only if the file is
    /// gone.
    pub fn page_count(&self) -> (r: Result<u64>)
        requires
            self.wf(),
        ensures
            r matches Ok(count) ==> {
                &&& self.spec_fs().files().dom().contains(self.spec_path())
                &&& count == self.content().len() as int / self.spec_page_size() as int
            },
            self.spec_fs().reliable() && self.spec_fs().files().dom().contains(self.spec_path()) ==> r is Ok,
    {
        let len: u64 = self.fs.file_len(self.path.as_str())?;
        Ok(len / self.page_size as u64)
    }

    fn offset(&self, page_id: PageId) -> (r: Result<u64>)
        requires
            self.wf(),
        ensures
            match r {
                Ok(at) => page_id.0 > 0 && at == page_offset(page_id, self.spec_page_size() as int),
                Err(e) => e == Error::CorruptPage("page offset overflow") && (page_id.0 == 0 || page_offset(
                    page_id,
                    self.spec_page_size() as int,
                ) > u64::MAX),
            },
    {
        match page_id.0.checked_sub(1) {
            None => Err(Error::CorruptPage("page offset overflow")),
            Some(index) => match index.checked_mul(self.page_size as u64) {
                None => Err(Error::CorruptPage("page offset overflow")),
                Some(at) => Ok(at),
            },
        }
    }

    /// Reads a page.
    pub fn read_page(&self, page_id: PageId) -> (r: Result<Page>)
        requires
            self.wf(),
        ensures
            ({
                let size = self.spec_page_size() as int;
                &&& place_error(page_id, size) matches Some(e) ==> r == Err::<Page, Error>(e)
                &&& r matches Ok(page) ==> {
                    &&& page.wf()
                    &&& self.spec_fs().files().dom().contains(self.spec_path())
                    &&& reaches(self.content(), page_id, size)
                    &&& image::parse_image(page_bytes(self.content(), page_id, size)) == Ok::<PageView, Error>(page@)
                }
                &&& self.spec_fs().reliable() && place_error(page_id, size) is None
                    && self.spec_fs().files().dom().contains(self.spec_path()) && reaches(
                    self.content(),
                    page_id,
                    size,
                ) ==> (r matches Err(e) ==> image::parse_image(page_bytes(self.content(), page_id, size)) == Err::<
                    PageView,
                    Error,
                >(e))
            }),
    {
        if page_id.0 == 0 {
            return Err(Error::CorruptPage("page id zero is invalid"));
        }
        let offset: u64 = self.offset(page_id)?;
        let data: Vec<u8> = self.fs.read_exact_at(self.path.as_str(), offset, self.page_size)?;
        Page::from_bytes(data)
    }

    /// Writes a page where its id says.
    pub fn write_page(&mut self, page: &Page) -> (r: Result<()>)
        requires
            old(self).wf(),
            page.wf(),
        ensures
            final(self).wf(),
            final(self).spec_path() == old(self).spec_path(),
            final(self).spec_page_size() == old(self).spec_page_size(),
            final(self).spec_fs().synced() == old(self).spec_fs().synced(),
            final(self).spec_fs().files().remove(old(self).spec_path()) == old(self).spec_fs().files().remove(
                old(self).spec_path(),
            ),
            ({
                let size = old(self).spec_page_size();
                if page@.size != size {
                    r == Err::<(), Error>(Error::BufferTooSmall { needed: size, actual: page@.size as usize })
                        && final(self).spec_fs() == old(self).spec_fs()
                } else {
                    match place_error(page@.page_id, size as int) {
                        Some(e) => r == Err::<(), Error>(e) && final(self).spec_fs() == old(self).spec_fs(),
                        None => {
                            &&& r is Ok ==> old(self).spec_fs().files().dom().contains(old(self).spec_path())
                                && final(self).spec_fs().files().dom().contains(old(self).spec_path())
                                && final(self).content() == with_page(old(self).content(), page@)
                            &&& old(self).spec_fs().reliable() && old(self).spec_fs().files().dom().contains(
                                old(self).spec_path(),
                            ) && page_offset(page@.page_id, size as int) + size <= usize::MAX ==> r is Ok
                        },
                    }
                }
            }),
            old(self).spec_fs().reliable() ==> final(self).spec_fs().reliable(),
    {
        if page.size() != self.page_size {
            return Err(Error::BufferTooSmall { needed: self.page_size, actual: page.size() });
        }
        let page_id = page.info().page_id;
        if page_id.0 == 0 {
            return Err(Error::CorruptPage("page id zero is invalid"));
        }
        let offset: u64 = self.offset(page_id)?;
        let data: Vec<u8> = page.to_bytes();
        let r = self.fs.write_all_at(self.path.as_str(), offset, data.as_slice());
        proof {
            assert(self.fs.files().remove(self.path@) =~= old(self).fs.files().remove(self.path@));
        }
        r
    }

    /// Makes all pages survive a crash.
    pub fn sync_data(&mut self) -> (r: Result<()>)
        ensures
            old(self).wf() ==> final(self).wf(),
            final(self).spec_path() == old(self).spec_path(),
            final(self).spec_page_size() == old(self).spec_page_size(),
            final(self).spec_fs().files() == old(self).spec_fs().files(),
            r is Ok ==> old(self).spec_fs().files().dom().contains(old(self).spec_path()) && final(self).spec_fs().synced() == old(self).spec_fs().synced().insert(old(self).spec_path(), old(self).content()),
            r is Err ==> final(self).spec_fs().synced().remove(old(self).spec_path()) == old(self).spec_fs().synced().remove(old(self).spec_path()),
            old(self).spec_fs().reliable() ==> final(self).spec_fs().reliable(),
            old(self).spec_fs().reliable() && old(self).spec_fs().files().dom().contains(old(self).spec_path())
                ==> r is Ok,
    {
        self.fs.sync_data(self.path.as_str())
    }

    pub fn into_fs(self) -> (fs: Fs)
        ensures
            fs == self.spec_fs(),
    {
        self.fs
    }
}

} // verus!
