//! Storage abstraction.
//!
//! The engine never touches the host filesystem directly. Instead it reads and
//! writes fixed-size pages through the [`Storage`] trait. The implementation
//! here is [`MemoryStorage`], a page buffer held entirely in memory whose raw
//! image can be exported and reloaded.

use crate::error::{quoted, text, Error, Result};
use crate::strings::{decimal, decimal_string};
use vstd::prelude::*;

verus! {

/// Fixed page size in bytes.
pub const PAGE_SIZE: usize = 4096;

/// Identifier of a page within a database image.
pub type PageId = u32;

/// A page of zero bytes.
pub open spec fn zero_page() -> Seq<u8> {
    Seq::new((PAGE_SIZE as nat), |i: int| 0u8)
}

/// A page store is well formed when every page has `PAGE_SIZE` bytes and
/// every page can be named by a [`PageId`].
pub open spec fn pages_wf(pages: Seq<Seq<u8>>) -> bool {
    &&& pages.len() <= u32::MAX
    &&& forall|i: int| 0 <= i < pages.len() ==> (#[trigger] pages[i]).len() == PAGE_SIZE
}

/// A block device abstraction: a linear array of fixed-size pages.
pub trait Storage {
    /// The pages, in order of their ids.
    spec fn page_image(&self) -> Seq<Seq<u8>>;

    /// Number of pages currently allocated.
    fn page_count(&self) -> (n: u32)
        requires
            pages_wf(self.page_image()),
        ensures
            n == self.page_image().len(),
    ;

    /// Reads a full page into `buf` (which must be [`PAGE_SIZE`] long).
    fn read_page(&self, page_id: PageId, buf: &mut [u8]) -> (r: Result<()>)
        requires
            pages_wf(self.page_image()),
        ensures
            r is Ok <==> (old(buf)@.len() == PAGE_SIZE && page_id < self.page_image().len()),
            r is Ok ==> final(buf)@ == self.page_image()[page_id as int],
            r matches Err(e) ==> e is Storage && final(buf)@ == old(buf)@,
    ;

    /// Writes a full page from `buf` (which must be [`PAGE_SIZE`] long).
    fn write_page(&mut self, page_id: PageId, buf: &[u8]) -> (r: Result<()>)
        requires
            pages_wf(old(self).page_image()),
        ensures
            pages_wf(final(self).page_image()),
            r is Ok <==> (buf@.len() == PAGE_SIZE && page_id < old(self).page_image().len()),
            r is Ok ==> final(self).page_image() == old(self).page_image().update(page_id as int, buf@),
            r matches Err(e) ==> e is Storage && final(self).page_image() == old(self).page_image(),
    ;

    /// Allocates a new zeroed page and returns its id.
    fn allocate_page(&mut self) -> (r: Result<PageId>)
        requires
            pages_wf(old(self).page_image()),
        ensures
            pages_wf(final(self).page_image()),
            r is Ok <==> old(self).page_image().len() < u32::MAX,
            r matches Ok(id) ==> id == old(self).page_image().len() && final(self).page_image()
                == old(self).page_image().push(zero_page()),
            r matches Err(e) ==> e is Storage && final(self).page_image() == old(self).page_image(),
    ;
}

/// The pages of a raw image.
pub open spec fn image_pages(bytes: Seq<u8>) -> Seq<Seq<u8>> {
    Seq::new(
        (bytes.len() / (PAGE_SIZE as nat)) as nat,
        |i: int| bytes.subrange(i * PAGE_SIZE, i * PAGE_SIZE + PAGE_SIZE),
    )
}

/// Two whole-page images with the same pages are the same bytes.
pub proof fn lemma_image_pages_injective(b1: Seq<u8>, b2: Seq<u8>)
    requires
        b1.len() % (PAGE_SIZE as nat) == 0,
        b2.len() % (PAGE_SIZE as nat) == 0,
        image_pages(b1) == image_pages(b2),
    ensures
        b1 == b2,
{
    let p = PAGE_SIZE as int;
    vstd::arithmetic::div_mod::lemma_fundamental_div_mod(b1.len() as int, p);
    vstd::arithmetic::div_mod::lemma_fundamental_div_mod(b2.len() as int, p);
    assert(image_pages(b1).len() == image_pages(b2).len());
    assert(image_pages(b1).len() == (b1.len() / (PAGE_SIZE as nat)) as nat);
    assert(image_pages(b2).len() == (b2.len() / (PAGE_SIZE as nat)) as nat);
    assert(b1.len() / (PAGE_SIZE as nat) == b2.len() / (PAGE_SIZE as nat));
    assert(b1.len() as int / p == b2.len() as int / p);
    assert(b1.len() == b2.len());
    assert forall|j: int| 0 <= j < b1.len() implies b1[j] == b2[j] by {
        let q = j / p;
        let r = j % p;
        vstd::arithmetic::div_mod::lemma_fundamental_div_mod(j, p);
        assert(0 <= r < p);
        assert(q * p <= j);
        assert(q < b1.len() as int / p) by {
            vstd::arithmetic::div_mod::lemma_div_is_ordered(j, b1.len() as int - 1, p);
            assert((b1.len() as int - 1) / p < b1.len() as int / p) by {
                vstd::arithmetic::div_mod::lemma_fundamental_div_mod(b1.len() as int - 1, p);
            }
        }
        assert(image_pages(b1)[q][r] == b1[q * p + r]);
        assert(image_pages(b2)[q][r] == b2[q * p + r]);
    }
    assert(b1 =~= b2);
}

/// An image is loadable when it is a whole number of pages that ids can name.
pub open spec fn image_wf(bytes: Seq<u8>) -> bool {
    &&& bytes.len() % (PAGE_SIZE as nat) == 0
    &&& bytes.len() / (PAGE_SIZE as nat) <= u32::MAX
}

pub proof fn lemma_image_pages_wf(bytes: Seq<u8>)
    requires
        image_wf(bytes),
    ensures
        pages_wf(image_pages(bytes)),
{
    assert forall|i: int| 0 <= i < image_pages(bytes).len() implies (
    #[trigger] image_pages(bytes)[i]).len() == PAGE_SIZE by {
        assert(i * PAGE_SIZE + PAGE_SIZE <= bytes.len()) by (nonlinear_arith)
            requires
                0 <= i < bytes.len() / 4096,
                bytes.len() % 4096 == 0,
        ;
    }
}

/// In-memory page store backed by a contiguous byte image.
///
/// The whole database is a `Vec<u8>` whose length is a multiple of
/// [`PAGE_SIZE`]. The byte image can be handed to persistent storage as-is and
/// reloaded later.
pub struct MemoryStorage {
    data: Vec<u8>,
}

impl MemoryStorage {
    /// The store's image is always a whole number of pages.
    #[verifier::type_invariant]
    pub open spec fn inv(self) -> bool {
        image_wf(self.bytes())
    }

    /// The raw image.
    pub closed spec fn bytes(&self) -> Seq<u8> {
        self.data@
    }

    /// Creates an empty store with zero pages.
    pub fn new() -> (s: Self)
        ensures
            s.bytes() == Seq::<u8>::empty(),
            s.page_image() == Seq::<Seq<u8>>::empty(),
    {
        let s = MemoryStorage { data: Vec::new() };
        assert(s.page_image() =~= Seq::<Seq<u8>>::empty());
        s
    }

    /// Rebuilds a store from a previously exported image.
    pub fn from_image(image: Vec<u8>) -> (r: Result<Self>)
        requires
            image@.len() / (PAGE_SIZE as nat) <= u32::MAX,
        ensures
            r is Ok <==> image@.len() % (PAGE_SIZE as nat) == 0,
            r matches Ok(s) ==> s.bytes() == image@,
            r is Err ==> (r matches Err(Error::Storage(m)) && m@ == "image length "@ + decimal(
                image@.len(),
            ) + " is not a multiple of page size 4096"@),
    {
        if image.len() % PAGE_SIZE != 0 {
            let n = decimal_string(image.len() as u64);
            return Err(
                Error::Storage(quoted("image length ", n.as_str(), " is not a multiple of page size 4096")),
            );
        }
        Ok(MemoryStorage { data: image })
    }

    /// Returns a copy of the raw page image for persistence.
    pub fn image(&self) -> (v: Vec<u8>)
        ensures
            v@ == self.bytes(),
    {
        self.data.clone()
    }

    /// The byte range of a page, if the page exists.
    fn range(&self, page_id: PageId) -> (r: Result<(usize, usize)>)
        ensures
            r is Ok <==> page_id < self.page_image().len(),
            r matches Ok((start, end)) ==> start == page_id * PAGE_SIZE && end == start
                + PAGE_SIZE && end <= self.bytes().len(),
            r matches Err(e) ==> e is Storage,
    {
        proof {
            use_type_invariant(self);
        }
        let count = self.data.len() / PAGE_SIZE;
        if page_id as usize >= count {
            let id = decimal_string(page_id as u64);
            let n = decimal_string(count as u64);
            let msg = quoted("page ", id.as_str(), " out of range (page_count=");
            return Err(Error::Storage(quoted(msg.as_str(), n.as_str(), ")")));
        }
        let start = page_id as usize * PAGE_SIZE;
        assert(start + PAGE_SIZE <= self.data@.len()) by (nonlinear_arith)
            requires
                start == page_id * 4096,
                page_id < count,
                count == self.data@.len() / 4096,
                self.data@.len() % 4096 == 0,
        ;
        Ok((start, start + PAGE_SIZE))
    }
}

impl Default for MemoryStorage {
    fn default() -> (s: Self)
        ensures
            s.bytes() == Seq::<u8>::empty(),
    {
        MemoryStorage::new()
    }
}

impl Storage for MemoryStorage {
    open spec fn page_image(&self) -> Seq<Seq<u8>> {
        image_pages(self.bytes())
    }

    fn page_count(&self) -> (n: u32) {
        proof {
            use_type_invariant(self);
        }
        (self.data.len() / PAGE_SIZE) as u32
    }

    fn read_page(&self, page_id: PageId, buf: &mut [u8]) -> (r: Result<()>) {
        if buf.len() != PAGE_SIZE {
            return Err(Error::Storage(text("read buffer must be PAGE_SIZE")));
        }
        let (start, end) = self.range(page_id)?;
        let ghost page = self.data@.subrange(start as int, end as int);
        let mut i: usize = 0;
        while i < PAGE_SIZE
            invariant
                i <= PAGE_SIZE,
                end == start + PAGE_SIZE,
                end <= self.data@.len(),
                buf@.len() == PAGE_SIZE,
                page == self.data@.subrange(start as int, end as int),
                buf@.take(i as int) == page.take(i as int),
            decreases PAGE_SIZE - i,
        {
            buf[i] = self.data[start + i];
            i = i + 1;
            assert(buf@.take(i as int) =~= page.take(i as int));
        }
        assert(page.len() == PAGE_SIZE);
        assert(buf@.take(PAGE_SIZE as int) =~= buf@);
        assert(page.take(PAGE_SIZE as int) =~= page);
        assert(buf@ =~= page);
        Ok(())
    }

    fn write_page(&mut self, page_id: PageId, buf: &[u8]) -> (r: Result<()>) {
        proof {
            use_type_invariant(&*self);
        }
        if buf.len() != PAGE_SIZE {
            return Err(Error::Storage(text("write buffer must be PAGE_SIZE")));
        }
        let (start, end) = self.range(page_id)?;
        let ghost old_bytes = self.data@;
        let mut i: usize = 0;
        while i < PAGE_SIZE
            invariant
                i <= PAGE_SIZE,
                end == start + PAGE_SIZE,
                end <= old_bytes.len(),
                buf@.len() == PAGE_SIZE,
                self.data@.len() == old_bytes.len(),
                image_wf(old_bytes),
                forall|j: int|
                    0 <= j < self.data@.len() ==> #[trigger] self.data@[j] == if (start <= j < start + i) {
                        buf@[j - start]
                    } else {
                        old_bytes[j]
                    },
            decreases PAGE_SIZE - i,
        {
            self.data[start + i] = buf[i];
            i = i + 1;
        }
        proof {
            lemma_write_pages(old_bytes, self.data@, page_id as int, buf@);
        }
        Ok(())
    }

    fn allocate_page(&mut self) -> (r: Result<PageId>) {
        proof {
            use_type_invariant(&*self);
        }
        let count = self.data.len() / PAGE_SIZE;
        if count >= u32::MAX as usize {
            return Err(Error::Storage(text("too many pages")));
        }
        let mut zeros: Vec<u8> = Vec::new();
        let mut i: usize = 0;
        while i < PAGE_SIZE
            invariant
                i <= PAGE_SIZE,
                zeros@ == zero_page().take(i as int),
            decreases PAGE_SIZE - i,
        {
            zeros.push(0);
            i = i + 1;
            assert(zeros@ =~= zero_page().take(i as int));
        }
        assert(zero_page().take(PAGE_SIZE as int) =~= zero_page());
        let ghost old_bytes = self.data@;
        let mut data: Vec<u8> = Vec::new();
        core::mem::swap(&mut data, &mut self.data);
        data.append(&mut zeros);
        proof {
            lemma_append_page(old_bytes, zero_page());
        }
        self.data = data;
        Ok(count as u32)
    }
}

/// Writing a page's bytes into an image replaces exactly that page.
proof fn lemma_write_pages(old_bytes: Seq<u8>, new_bytes: Seq<u8>, id: int, page: Seq<u8>)
    requires
        image_wf(old_bytes),
        0 <= id < old_bytes.len() / (PAGE_SIZE as nat),
        page.len() == PAGE_SIZE,
        new_bytes.len() == old_bytes.len(),
        forall|j: int|
            0 <= j < new_bytes.len() ==> #[trigger] new_bytes[j] == if (id * PAGE_SIZE <= j < id * PAGE_SIZE + PAGE_SIZE) {
                page[j - id * PAGE_SIZE]
            } else {
                old_bytes[j]
            },
    ensures
        image_wf(new_bytes),
        image_pages(new_bytes) == image_pages(old_bytes).update(id, page),
{
    let n = old_bytes.len() / (PAGE_SIZE as nat);
    assert forall|k: int| 0 <= k < n implies #[trigger] image_pages(new_bytes)[k]
        == image_pages(old_bytes).update(id, page)[k] by {
        assert(k * PAGE_SIZE + PAGE_SIZE <= old_bytes.len()) by (nonlinear_arith)
            requires
                0 <= k < old_bytes.len() / 4096,
                old_bytes.len() % 4096 == 0,
        ;
        if k == id {
            assert(image_pages(new_bytes)[k] =~= page);
        } else {
            assert(k < id ==> k * PAGE_SIZE + PAGE_SIZE <= id * PAGE_SIZE) by (nonlinear_arith);
            assert(k > id ==> id * PAGE_SIZE + PAGE_SIZE <= k * PAGE_SIZE) by (nonlinear_arith);
            assert(image_pages(new_bytes)[k] =~= image_pages(old_bytes)[k]);
        }
    }
    assert(image_pages(new_bytes) =~= image_pages(old_bytes).update(id, page));
}

/// Appending a page's bytes to an image adds exactly that page.
proof fn lemma_append_page(old_bytes: Seq<u8>, page: Seq<u8>)
    requires
        image_wf(old_bytes),
        old_bytes.len() / (PAGE_SIZE as nat) < u32::MAX,
        page.len() == PAGE_SIZE,
    ensures
        image_wf(old_bytes + page),
        image_pages(old_bytes + page) == image_pages(old_bytes).push(page),
{
    let n = old_bytes.len() / (PAGE_SIZE as nat);
    let nb = old_bytes + page;
    assert(nb.len() == (n + 1) * PAGE_SIZE) by (nonlinear_arith)
        requires
            nb.len() == old_bytes.len() + 4096,
            n == old_bytes.len() / 4096,
            old_bytes.len() % 4096 == 0,
    ;
    assert(nb.len() / (PAGE_SIZE as nat) == n + 1) by (nonlinear_arith)
        requires
            nb.len() == (n + 1) * 4096,
    ;
    assert(nb.len() % (PAGE_SIZE as nat) == 0) by (nonlinear_arith)
        requires
            nb.len() == (n + 1) * 4096,
    ;
    assert forall|k: int| 0 <= k < n + 1 implies #[trigger] image_pages(nb)[k]
        == image_pages(old_bytes).push(page)[k] by {
        if k < n {
            assert(k * PAGE_SIZE + PAGE_SIZE <= old_bytes.len()) by (nonlinear_arith)
                requires
                    0 <= k < n,
                    n == old_bytes.len() / 4096,
                    old_bytes.len() % 4096 == 0,
            ;
            assert(image_pages(nb)[k] =~= image_pages(old_bytes)[k]);
        } else {
            assert(k * PAGE_SIZE == old_bytes.len()) by (nonlinear_arith)
                requires
                    k == n,
                    n == old_bytes.len() / 4096,
                    old_bytes.len() % 4096 == 0,
            ;
            assert(image_pages(nb)[k] =~= page);
        }
    }
    assert(image_pages(nb) =~= image_pages(old_bytes).push(page));
}

} // verus!
