//! Fixed-size pages: the unit of file storage.

use vstd::prelude::*;

verus! {

/// Every data file is a sequence of pages of exactly this many bytes.
pub const PAGE_SIZE: usize = 4096;

/// The content of a page that has been allocated but never written.
pub open spec fn zero_page() -> Seq<u8> {
    Seq::new(PAGE_SIZE as nat, |i: int| 0u8)
}

/// One 4096-byte page image.
#[derive(Debug)]
pub struct Page {
    bytes: Vec<u8>,
}

impl View for Page {
    type V = Seq<u8>;

    closed spec fn view(&self) -> Seq<u8> {
        self.bytes@
    }
}

impl Page {
    /// A page image is well formed when it holds exactly `PAGE_SIZE` bytes.
    pub open spec fn wf(&self) -> bool {
        self@.len() == PAGE_SIZE
    }

    /// A page of all zeroes.
    pub fn zeroed() -> (p: Page)
        ensures
            p.wf(),
            p@ == zero_page(),
    {
        let mut bytes: Vec<u8> = Vec::new();
        let mut i: usize = 0;
        while i < PAGE_SIZE
            invariant
                i <= PAGE_SIZE,
                bytes@.len() == i,
                forall|j: int| 0 <= j < i ==> bytes@[j] == 0u8,
            decreases PAGE_SIZE - i,
        {
            bytes.push(0u8);
            i = i + 1;
        }
        proof {
            assert(bytes@ =~= zero_page());
        }
        Page { bytes }
    }

    /// Builds a page from a byte vector of exactly `PAGE_SIZE` bytes.
    pub fn from_vec(bytes: Vec<u8>) -> (p: Page)
        requires
            bytes@.len() == PAGE_SIZE,
        ensures
            p.wf(),
            p@ == bytes@,
    {
        Page { bytes }
    }

    /// Reads one byte of the page.
    pub fn get(&self, i: usize) -> (b: u8)
        requires
            self.wf(),
            i < PAGE_SIZE,
        ensures
            b == self@[i as int],
    {
        self.bytes[i]
    }

    /// Overwrites one byte of the page.
    pub fn set(&mut self, i: usize, b: u8)
        requires
            old(self).wf(),
            i < PAGE_SIZE,
        ensures
            final(self).wf(),
            final(self)@ == old(self)@.update(i as int, b),
    {
        self.bytes.set(i, b);
    }

    /// Copies the page content out as a plain byte vector.
    pub fn to_vec(&self) -> (v: Vec<u8>)
        ensures
            v@ == self@,
    {
        let mut v: Vec<u8> = Vec::new();
        let mut i: usize = 0;
        let n: usize = self.bytes.len();
        while i < n
            invariant
                i <= n,
                n == self@.len(),
                v@.len() == i,
                forall|j: int| 0 <= j < i ==> v@[j] == self@[j],
        decreases n - i,
        {
            v.push(self.bytes[i]);
            i = i + 1;
        }
        proof {
            assert(v@ =~= self@);
        }
        v
    }

    /// An independent copy of the page.
    pub fn copied(&self) -> (p: Page)
        ensures
            p@ == self@,
    {
        Page { bytes: self.to_vec() }
    }
}

} // verus!
