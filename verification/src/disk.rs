//! The data files, held as plain values.
//!
//! A `Disk` is the set of numbered page files that checkpointing writes and
//! reads fall back to. Its mathematical view is a map from file id to the
//! sequence of page images, so every mutation the engine performs on it is
//! stated as a map transformation.

use vstd::prelude::*;

use crate::page::zero_page;
use crate::page::Page;
use crate::DbError;

verus! {

/// One data file: its id (also its on-disk name, in decimal) and its pages.
pub struct DataFile {
    pub file_id: u64,
    pub pages: Vec<Page>,
}

impl DataFile {
    /// The file's pages as byte sequences.
    pub open spec fn pages_view(&self) -> Seq<Seq<u8>> {
        self.pages@.map_values(|p: Page| p@)
    }

    pub open spec fn wf(&self) -> bool {
        forall|i: int| 0 <= i < self.pages@.len() ==> (#[trigger] self.pages@[i]).wf()
    }
}

/// The first entry with the given id, scanning from the front.
pub open spec fn spec_find(files: Seq<DataFile>, file_id: u64) -> Option<DataFile>
    decreases files.len(),
{
    if files.len() == 0 {
        None
    } else if files.first().file_id == file_id {
        Some(files.first())
    } else {
        spec_find(files.drop_first(), file_id)
    }
}

/// When entry `i` is the first with its id, the scan lands on it.
pub proof fn lemma_find_at(files: Seq<DataFile>, i: int)
    requires
        0 <= i < files.len(),
        forall|j: int| 0 <= j < i ==> (#[trigger] files[j]).file_id != files[i].file_id,
    ensures
        spec_find(files, files[i].file_id) == Some(files[i]),
    decreases i,
{
    if i == 0 {
    } else {
        assert(files.first().file_id != files[i].file_id);
        assert(files.drop_first()[i - 1] == files[i]);
        assert(forall|j: int|
            0 <= j < i - 1 ==> (#[trigger] files.drop_first()[j]).file_id != files[i].file_id);
        lemma_find_at(files.drop_first(), i - 1);
    }
}

/// When no entry has the id, the scan yields nothing.
pub proof fn lemma_find_absent(files: Seq<DataFile>, file_id: u64)
    requires
        forall|j: int| 0 <= j < files.len() ==> (#[trigger] files[j]).file_id != file_id,
    ensures
        spec_find(files, file_id) is None,
    decreases files.len(),
{
    if files.len() > 0 {
        lemma_find_absent(files.drop_first(), file_id);
    }
}

/// How a push at the end moves the scan: an id already present wins; the new
/// entry is found only under its own, previously absent id.
#[verifier::spinoff_prover]
#[verifier::rlimit(60)]
pub proof fn lemma_find_push(files: Seq<DataFile>, nf: DataFile, k: u64)
    ensures
        spec_find(files, k) is Some ==> spec_find(files.push(nf), k) == spec_find(files, k),
        spec_find(files, k) is None && k == nf.file_id ==> spec_find(files.push(nf), k) == Some(
            nf,
        ),
        spec_find(files, k) is None && k != nf.file_id ==> spec_find(files.push(nf), k) is None,
    decreases files.len(),
{
    if files.len() == 0 {
        assert(files.push(nf).first() == nf);
        assert(files.push(nf).drop_first() =~= Seq::<DataFile>::empty());
        if k != nf.file_id {
            assert(spec_find(files.push(nf), k) == spec_find(files.push(nf).drop_first(), k));
            assert(spec_find(Seq::<DataFile>::empty(), k) is None);
        }
    } else {
        assert(files.push(nf).first() == files.first());
        assert(files.push(nf).drop_first() =~= files.drop_first().push(nf));
        lemma_find_push(files.drop_first(), nf, k);
        if files.first().file_id == k {
            assert(spec_find(files.push(nf), k) == Some(files.first()));
            assert(spec_find(files, k) == Some(files.first()));
        } else {
            assert(spec_find(files.push(nf), k) == spec_find(files.drop_first().push(nf), k));
            assert(spec_find(files, k) == spec_find(files.drop_first(), k));
        }
    }
}

/// How replacing entry `i` (the only one with its id) moves the scan.
pub proof fn lemma_find_update(files: Seq<DataFile>, i: int, nf: DataFile, k: u64)
    requires
        0 <= i < files.len(),
        nf.file_id == files[i].file_id,
        forall|j: int| 0 <= j < files.len() && j != i ==> (#[trigger] files[j]).file_id
            != files[i].file_id,
    ensures
        spec_find(files.update(i, nf), k) == (if k == nf.file_id {
            Some(nf)
        } else {
            spec_find(files, k)
        }),
    decreases i,
{
    let upd = files.update(i, nf);
    if i == 0 {
        assert(upd.first() == nf);
        if k != nf.file_id {
            assert(upd.drop_first() =~= files.drop_first());
        }
    } else {
        assert(upd.first() == files.first());
        assert(upd.drop_first() =~= files.drop_first().update(i - 1, nf));
        assert(files.drop_first()[i - 1] == files[i]);
        assert(forall|j: int|
            0 <= j < files.drop_first().len() && j != i - 1 ==> (#[trigger] files.drop_first()[j]).file_id
                != files.drop_first()[i - 1].file_id);
        lemma_find_update(files.drop_first(), i - 1, nf, k);
    }
}

/// How removing entry `i` (the only one with its id) moves the scan.
pub proof fn lemma_find_remove(files: Seq<DataFile>, i: int, k: u64)
    requires
        0 <= i < files.len(),
        forall|j: int| 0 <= j < files.len() && j != i ==> (#[trigger] files[j]).file_id
            != files[i].file_id,
    ensures
        spec_find(files.remove(i), k) == (if k == files[i].file_id {
            None
        } else {
            spec_find(files, k)
        }),
    decreases i,
{
    let rem = files.remove(i);
    if i == 0 {
        assert(rem =~= files.drop_first());
        if k == files[i].file_id {
            assert(forall|j: int|
                0 <= j < rem.len() ==> (#[trigger] rem[j]).file_id != files[i].file_id);
            lemma_find_absent(rem, k);
        }
    } else {
        assert(rem.first() == files.first());
        assert(rem.drop_first() =~= files.drop_first().remove(i - 1));
        assert(files.drop_first()[i - 1] == files[i]);
        assert(forall|j: int|
            0 <= j < files.drop_first().len() && j != i - 1 ==> (#[trigger] files.drop_first()[j]).file_id
                != files.drop_first()[i - 1].file_id);
        lemma_find_remove(files.drop_first(), i - 1, k);
    }
}

/// The set of numbered data files.
pub struct Disk {
    pub files: Vec<DataFile>,
}

impl View for Disk {
    type V = Map<u64, Seq<Seq<u8>>>;

    open spec fn view(&self) -> Map<u64, Seq<Seq<u8>>> {
        Map::new(
            |file_id: u64| spec_find(self.files@, file_id) is Some,
            |file_id: u64| spec_find(self.files@, file_id)->Some_0.pages_view(),
        )
    }
}

impl Disk {
    /// File ids are unique and every page is page-sized.
    pub open spec fn wf(&self) -> bool {
        &&& forall|i: int| 0 <= i < self.files@.len() ==> (#[trigger] self.files@[i]).wf()
        &&& forall|i: int, j: int|
            0 <= i < j < self.files@.len() ==> (#[trigger] self.files@[i]).file_id != (
            #[trigger] self.files@[j]).file_id
    }

    /// A disk with no files.
    pub fn empty() -> (d: Disk)
        ensures
            d.wf(),
            d@ == Map::<u64, Seq<Seq<u8>>>::empty(),
    {
        let d = Disk { files: Vec::new() };
        proof {
            assert(d@ =~= Map::<u64, Seq<Seq<u8>>>::empty());
        }
        d
    }

    /// Index of the file with the given id, if any.
    fn find_index(&self, file_id: u64) -> (r: Option<usize>)
        ensures
            match r {
                Some(i) => {
                    &&& i < self.files@.len()
                    &&& self.files@[i as int].file_id == file_id
                    &&& spec_find(self.files@, file_id) == Some(self.files@[i as int])
                },
                None => spec_find(self.files@, file_id) is None,
            },
    {
        let n = self.files.len();
        let mut i: usize = 0;
        while i < n
            invariant
                i <= n == self.files@.len(),
                forall|j: int| 0 <= j < i ==> (#[trigger] self.files@[j]).file_id != file_id,
            decreases n - i,
        {
            if self.files[i].file_id == file_id {
                proof {
                    lemma_find_at(self.files@, i as int);
                }
                return Some(i);
            }
            i = i + 1;
        }
        proof {
            lemma_find_absent(self.files@, file_id);
        }
        None
    }

    /// Whether a file with the given id exists.
    pub fn has_file(&self, file_id: u64) -> (r: bool)
        ensures
            r == self@.dom().contains(file_id),
    {
        self.find_index(file_id).is_some()
    }

    /// The number of pages of a file, if it exists.
    pub fn page_count(&self, file_id: u64) -> (r: Option<u64>)
        requires
            self.wf(),
        ensures
            match r {
                Some(n) => self@.dom().contains(file_id) && n == self@[file_id].len(),
                None => !self@.dom().contains(file_id),
            },
    {
        match self.find_index(file_id) {
            Some(i) => Some(self.files[i].pages.len() as u64),
            None => None,
        }
    }

    /// Reads a page image: the stored page, or a zero page when the index
    /// lies beyond the file's physical end. `None` when the file is absent.
    pub fn read_page(&self, file_id: u64, page_id: u64) -> (r: Option<Page>)
        requires
            self.wf(),
        ensures
            match r {
                Some(p) => {
                    &&& self@.dom().contains(file_id)
                    &&& p.wf()
                    &&& p@ == (if page_id < self@[file_id].len() {
                        self@[file_id][page_id as int]
                    } else {
                        zero_page()
                    })
                },
                None => !self@.dom().contains(file_id),
            },
    {
        match self.find_index(file_id) {
            Some(i) => {
                let f = &self.files[i];
                if page_id < f.pages.len() as u64 {
                    let p = f.pages[page_id as usize].copied();
                    proof {
                        assert(f.pages_view()[page_id as int] == f.pages@[page_id as int]@);
                    }
                    Some(p)
                } else {
                    Some(Page::zeroed())
                }
            },
            None => None,
        }
    }

    /// All file ids, in storage order.
    pub fn file_ids(&self) -> (r: Vec<u64>)
        ensures
            r@.len() == self.files@.len(),
            forall|i: int| 0 <= i < r@.len() ==> r@[i] == (#[trigger] self.files@[i]).file_id,
    {
        let n = self.files.len();
        let mut r: Vec<u64> = Vec::new();
        let mut i: usize = 0;
        while i < n
            invariant
                i <= n == self.files@.len(),
                r@.len() == i,
                forall|j: int| 0 <= j < i ==> r@[j] == (#[trigger] self.files@[j]).file_id,
            decreases n - i,
        {
            r.push(self.files[i].file_id);
            i = i + 1;
        }
        r
    }

    /// Adopts a file as found on stable storage.
    pub fn install_file(&mut self, file_id: u64, pages: Vec<Page>)
        requires
            old(self).wf(),
            !old(self)@.dom().contains(file_id),
            forall|i: int| 0 <= i < pages@.len() ==> (#[trigger] pages@[i]).wf(),
        ensures
            final(self).wf(),
            final(self)@ == old(self)@.insert(file_id, pages@.map_values(|p: Page| p@)),
    {
        let nf = DataFile { file_id, pages };
        proof {
            lemma_find_absent_ids(old(self).files@, file_id);
        }
        self.files.push(nf);
        proof {
            assert forall|k: u64| true implies #[trigger] spec_find(self.files@, k) == (if k
                == file_id {
                Some(nf)
            } else {
                spec_find(old(self).files@, k)
            }) by {
                lemma_find_push(old(self).files@, nf, k);
                if spec_find(old(self).files@, k) is Some {
                    lemma_find_has_id(old(self).files@, k);
                }
            }
            assert(final(self)@ =~= old(self)@.insert(file_id, nf.pages_view()));
        }
    }
}

/// A found entry bears the id it was found under.
pub proof fn lemma_find_has_id(files: Seq<DataFile>, k: u64)
    requires
        spec_find(files, k) is Some,
    ensures
        spec_find(files, k)->Some_0.file_id == k,
        exists|i: int| 0 <= i < files.len() && files[i] == spec_find(files, k)->Some_0,
    decreases files.len(),
{
    if files.len() > 0 && files.first().file_id != k {
        lemma_find_has_id(files.drop_first(), k);
        let i = choose|i: int|
            0 <= i < files.drop_first().len() && files.drop_first()[i] == spec_find(
                files.drop_first(),
                k,
            )->Some_0;
        assert(files[i + 1] == spec_find(files, k)->Some_0);
    }
}

/// An id the scan misses appears on no entry.
pub proof fn lemma_find_absent_ids(files: Seq<DataFile>, k: u64)
    requires
        spec_find(files, k) is None,
    ensures
        forall|j: int| 0 <= j < files.len() ==> (#[trigger] files[j]).file_id != k,
    decreases files.len(),
{
    if files.len() > 0 {
        lemma_find_absent_ids(files.drop_first(), k);
        assert forall|j: int| 0 <= j < files.len() implies (#[trigger] files[j]).file_id != k by {
            if j > 0 {
                assert(files.drop_first()[j - 1] == files[j]);
            }
        }
    }
}


/// A page count forced into what a 64-bit counter can hold.
pub open spec fn spec_clip_u64(x: int) -> int {
    if x < 0 {
        0
    } else if x > u64::MAX {
        u64::MAX as int
    } else {
        x
    }
}

/// A file grown with zero pages up to `n` pages; unchanged if already there.
pub open spec fn spec_grow(pages: Seq<Seq<u8>>, n: int) -> Seq<Seq<u8>> {
    if n <= pages.len() {
        pages
    } else {
        pages + Seq::new((n - pages.len()) as nat, |i: int| zero_page())
    }
}

/// A file's pages after one page image is written at `page_id`, the file
/// first grown with zero pages as far as needed.
pub open spec fn spec_set_page(pages: Seq<Seq<u8>>, page_id: int, image: Seq<u8>) -> Seq<Seq<u8>> {
    spec_grow(pages, page_id + 1).update(page_id, image)
}

/// A file's pages after its extent becomes exactly `n` pages: grown with
/// zero pages, or cut short.
pub open spec fn spec_resize(pages: Seq<Seq<u8>>, n: int) -> Seq<Seq<u8>> {
    if n <= pages.len() {
        pages.take(n)
    } else {
        spec_grow(pages, n)
    }
}

impl Disk {
    /// Replaces (or first installs) the entry for `file_id` with `nf`, which
    /// must bear that id.
    fn put_entry(&mut self, file_id: u64, nf: DataFile, i: Option<usize>)
        requires
            old(self).wf(),
            nf.file_id == file_id,
            nf.wf(),
            match i {
                Some(i) => i < old(self).files@.len() && old(self).files@[i as int].file_id
                    == file_id,
                None => spec_find(old(self).files@, file_id) is None,
            },
        ensures
            final(self).wf(),
            final(self)@ == old(self)@.insert(file_id, nf.pages_view()),
    {
        match i {
            Some(i) => {
                self.files.remove(i);
                self.files.insert(i, nf);
                proof {
                    assert(self.files@ =~= old(self).files@.update(i as int, nf));
                    assert forall|k: u64| true implies #[trigger] spec_find(self.files@, k) == (if k
                        == file_id {
                        Some(nf)
                    } else {
                        spec_find(old(self).files@, k)
                    }) by {
                        lemma_find_update(old(self).files@, i as int, nf, k);
                    }
                    assert(final(self)@ =~= old(self)@.insert(file_id, nf.pages_view()));
                }
            },
            None => {
                proof {
                    lemma_find_absent_ids(old(self).files@, file_id);
                }
                self.files.push(nf);
                proof {
                    assert forall|k: u64| true implies #[trigger] spec_find(self.files@, k) == (if k
                        == file_id {
                        Some(nf)
                    } else {
                        spec_find(old(self).files@, k)
                    }) by {
                        lemma_find_push(old(self).files@, nf, k);
                        if spec_find(old(self).files@, k) is Some {
                            lemma_find_has_id(old(self).files@, k);
                        }
                    }
                    assert(final(self)@ =~= old(self)@.insert(file_id, nf.pages_view()));
                }
            },
        }
    }

    /// Writes one page image, growing the file with zero pages as far as
    /// needed; a missing file comes into being. Fails, changing nothing,
    /// only when the grown file would not fit in memory.
    pub fn set_page(&mut self, file_id: u64, page_id: u64, image: &Page) -> (r: Result<
        (),
        DbError,
    >)
        requires
            old(self).wf(),
            image.wf(),
        ensures
            final(self).wf(),
            page_id < usize::MAX ==> {
                &&& r == Ok::<(), DbError>(())
                &&& final(self)@ == old(self)@.insert(
                    file_id,
                    spec_set_page(
                        if old(self)@.dom().contains(file_id) {
                            old(self)@[file_id]
                        } else {
                            Seq::empty()
                        },
                        page_id as int,
                        image@,
                    ),
                )
            },
            page_id >= usize::MAX ==> r == Err::<(), DbError>(DbError::IoFailure) && *final(self)
                == *old(self),
    {
        if page_id >= usize::MAX as u64 {
            return Err(DbError::IoFailure);
        }
        let idx = self.find_index(file_id);
        let mut nf = match idx {
            Some(i) => self.files.remove(i),
            None => DataFile { file_id, pages: Vec::new() },
        };
        let ghost base = nf.pages_view();
        let target: usize = page_id as usize + 1;
        while nf.pages.len() < target
            invariant
                nf.file_id == file_id,
                nf.wf(),
                base.len() <= nf.pages@.len(),
                nf.pages@.len() <= target || nf.pages@.len() == base.len(),
                nf.pages_view() == spec_grow(base, nf.pages@.len() as int),
            decreases target - nf.pages.len(),
        {
            let ghost prev_pages = nf.pages@;
            let ghost prev = nf.pages_view();
            let ghost plen = nf.pages@.len() as int;
            nf.pages.push(Page::zeroed());
            proof {
                let nv = nf.pages_view();
                assert forall|i: int| 0 <= i < plen + 1 implies nv[i] == spec_grow(
                    base,
                    plen + 1,
                )[i] by {
                    if i < plen {
                        assert(nf.pages@[i] == prev_pages[i]);
                        assert(nv[i] == prev[i]);
                        assert(prev[i] == spec_grow(base, plen)[i]);
                    } else {
                        assert(nf.pages@[i]@ == zero_page());
                    }
                }
                assert(nv =~= spec_grow(base, plen + 1));
            }
        }
        proof {
            if base.len() >= target as int {
                assert(nf.pages@.len() == base.len());
                assert(spec_grow(base, target as int) == base);
            }
            assert(nf.pages_view() == spec_grow(base, target as int));
        }
        nf.pages.set(page_id as usize, image.copied());
        proof {
            assert(nf.pages_view() =~= spec_set_page(base, page_id as int, image@));
        }
        match idx {
            Some(i) => {
                proof {
                    assert(old(self).files@.remove(i as int).insert(i as int, nf) =~= old(
                        self,
                    ).files@.update(i as int, nf));
                }
                self.files.insert(i, nf);
                proof {
                    let nfs = self.files@;
                    assert(nfs =~= old(self).files@.update(i as int, nf));
                    assert forall|k: u64| true implies #[trigger] spec_find(nfs, k) == (if k
                        == file_id {
                        spec_find(nfs, k)
                    } else {
                        spec_find(old(self).files@, k)
                    }) by {
                        lemma_find_update(old(self).files@, i as int, nf, k);
                    }
                    lemma_find_update(old(self).files@, i as int, nf, file_id);
                    assert(final(self)@ =~= old(self)@.insert(
                        file_id,
                        spec_set_page(
                            if old(self)@.dom().contains(file_id) {
                                old(self)@[file_id]
                            } else {
                                Seq::empty()
                            },
                            page_id as int,
                            image@,
                        ),
                    ));
                }
            },
            None => {
                proof {
                    lemma_find_absent_ids(old(self).files@, file_id);
                }
                self.files.push(nf);
                proof {
                    assert forall|k: u64| true implies #[trigger] spec_find(self.files@, k) == (if k
                        == file_id {
                        Some(nf)
                    } else {
                        spec_find(old(self).files@, k)
                    }) by {
                        lemma_find_push(old(self).files@, nf, k);
                        if spec_find(old(self).files@, k) is Some {
                            lemma_find_has_id(old(self).files@, k);
                        }
                    }
                    assert(final(self)@ =~= old(self)@.insert(
                        file_id,
                        spec_set_page(Seq::empty(), page_id as int, image@),
                    ));
                }
            },
        }
        Ok(())
    }

    /// Brings an empty file with the given id into being; an existing file
    /// of that id is reset to empty.
    pub fn create_file(&mut self, file_id: u64)
        requires
            old(self).wf(),
        ensures
            final(self).wf(),
            final(self)@ == old(self)@.insert(file_id, Seq::<Seq<u8>>::empty()),
    {
        let idx = self.find_index(file_id);
        let nf = DataFile { file_id, pages: Vec::new() };
        proof {
            assert(nf.pages_view() =~= Seq::<Seq<u8>>::empty());
        }
        self.put_entry(file_id, nf, idx);
    }

    /// Removes the file with the given id; removing a missing file is a
    /// no-op.
    pub fn delete_file(&mut self, file_id: u64)
        requires
            old(self).wf(),
        ensures
            final(self).wf(),
            final(self)@ == old(self)@.remove(file_id),
    {
        match self.find_index(file_id) {
            Some(i) => {
                self.files.remove(i);
                proof {
                    assert forall|k: u64| true implies #[trigger] spec_find(self.files@, k) == (if k
                        == file_id {
                        None
                    } else {
                        spec_find(old(self).files@, k)
                    }) by {
                        lemma_find_remove(old(self).files@, i as int, k);
                    }
                    assert(final(self)@ =~= old(self)@.remove(file_id));
                }
            },
            None => {
                proof {
                    assert(final(self)@ =~= old(self)@.remove(file_id));
                }
            },
        }
    }

    /// Makes the file's extent exactly `page_count` pages: grown with zero
    /// pages or cut short. A missing file is left missing.
    pub fn resize_file(&mut self, file_id: u64, page_count: u64) -> (r: Result<(), DbError>)
        requires
            old(self).wf(),
        ensures
            final(self).wf(),
            !old(self)@.dom().contains(file_id) ==> r == Ok::<(), DbError>(()) && *final(self)
                == *old(self),
            old(self)@.dom().contains(file_id) && page_count <= usize::MAX ==> {
                &&& r == Ok::<(), DbError>(())
                &&& final(self)@ == old(self)@.insert(
                    file_id,
                    spec_resize(old(self)@[file_id], page_count as int),
                )
            },
            old(self)@.dom().contains(file_id) && page_count > usize::MAX ==> r == Err::<
                (),
                DbError,
            >(DbError::IoFailure) && *final(self) == *old(self),
    {
        let idx = match self.find_index(file_id) {
            Some(i) => i,
            None => {
                return Ok(());
            },
        };
        if page_count > usize::MAX as u64 {
            return Err(DbError::IoFailure);
        }
        let target: usize = page_count as usize;
        let mut nf = self.files.remove(idx);
        let ghost base = nf.pages_view();
        if target <= nf.pages.len() {
            nf.pages.truncate(target);
            proof {
                assert(nf.pages_view() =~= base.take(target as int));
            }
        } else {
            while nf.pages.len() < target
                invariant
                    nf.file_id == file_id,
                    nf.wf(),
                    base.len() <= nf.pages@.len() <= target,
                    nf.pages_view() == spec_grow(base, nf.pages@.len() as int),
                decreases target - nf.pages.len(),
            {
                let ghost prev_pages = nf.pages@;
                let ghost prev = nf.pages_view();
                let ghost plen = nf.pages@.len() as int;
                nf.pages.push(Page::zeroed());
                proof {
                    let nv = nf.pages_view();
                    assert forall|i: int| 0 <= i < plen + 1 implies nv[i] == spec_grow(
                        base,
                        plen + 1,
                    )[i] by {
                        if i < plen {
                            assert(nf.pages@[i] == prev_pages[i]);
                            assert(nv[i] == prev[i]);
                            assert(prev[i] == spec_grow(base, plen)[i]);
                        } else {
                            assert(nf.pages@[i]@ == zero_page());
                        }
                    }
                    assert(nv =~= spec_grow(base, plen + 1));
                }
            }
        }
        proof {
            assert(nf.pages_view() =~= spec_resize(base, target as int));
            assert(old(self).files@.remove(idx as int).insert(idx as int, nf) =~= old(
                self,
            ).files@.update(idx as int, nf));
        }
        self.files.insert(idx, nf);
        proof {
            assert forall|k: u64| k != file_id implies #[trigger] spec_find(self.files@, k)
                == spec_find(old(self).files@, k) by {
                lemma_find_update(old(self).files@, idx as int, nf, k);
            }
            lemma_find_update(old(self).files@, idx as int, nf, file_id);
            assert(final(self)@ =~= old(self)@.insert(
                file_id,
                spec_resize(old(self)@[file_id], page_count as int),
            ));
        }
        Ok(())
    }
}

} // verus!
