//! The index image and the three things done to it: reading a page,
//! appending a page, overwriting a page.

use crate::bytes::{splice, zeros};
use crate::error::Error;
use crate::node_type::Offset;
use crate::page::Page;
use crate::page_layout::PAGE_SIZE;
use vstd::prelude::*;

verus! {

/// The index image: the bytes of the index file, page after page. New pages
/// go to its end; a page that exists can be read and overwritten in place.
pub struct Pager {
    image: Vec<u8>,
}

impl View for Pager {
    type V = Seq<u8>;

    closed spec fn view(&self) -> Seq<u8> {
        self.image@
    }
}

/// The page of `image` that starts at `offset`.
pub open spec fn page_at(image: Seq<u8>, offset: int) -> Seq<u8> {
    image.subrange(offset, offset + PAGE_SIZE)
}

/// `image` after `page` has been written at `offset`; where the image ended
/// before `offset`, zero bytes fill the gap.
pub open spec fn overwritten(image: Seq<u8>, offset: int, page: Seq<u8>) -> Seq<u8> {
    let grown = if image.len() < offset + page.len() {
        image + zeros((offset + page.len() - image.len()) as nat)
    } else {
        image
    };
    splice(grown, offset, page)
}

impl Pager {
    /// A pager over `image`, ready to append at its end.
    pub fn new(image: Vec<u8>) -> (res: Pager)
        ensures
            res@ == image@,
    {
        Pager { image }
    }

    /// The number of bytes in the image, which is where the next new page
    /// goes.
    pub fn len(&self) -> (res: usize)
        ensures
            res == self@.len(),
    {
        self.image.len()
    }

    /// The bytes of the image.
    pub fn get_image(&self) -> (res: &Vec<u8>)
        ensures
            res@ == self@,
    {
        &self.image
    }

    /// Reads the page that starts at `offset`. Fails where the image ends
    /// before the page does.
    pub fn get_page(&self, offset: &Offset) -> (res: Result<Page, Error>)
        ensures
            res is Ok <==> offset.0 + PAGE_SIZE <= self@.len(),
            res is Ok ==> res->Ok_0@ == page_at(self@, offset.0 as int),
            res is Err ==> res->Err_0 == Error::UnexpectedError,
    {
        let start: usize = offset.0;
        if self.image.len() < PAGE_SIZE || start > self.image.len() - PAGE_SIZE {
            return Err(Error::UnexpectedError);
        }
        let mut data: [u8; PAGE_SIZE] = [0u8;PAGE_SIZE];
        let mut i: usize = 0;
        while i < PAGE_SIZE
            invariant
                i <= PAGE_SIZE,
                start + PAGE_SIZE <= self.image@.len() <= usize::MAX,
                forall|k: int| 0 <= k < i ==> data@[k] == self.image@[start + k],
            decreases PAGE_SIZE - i,
        {
            data[i] = self.image[start + i];
            i += 1;
        }
        assert(data@ =~= page_at(self@, start as int));
        Ok(Page::new(data))
    }

    /// Appends `page` to the image and says where it starts. Fails, and
    /// leaves the image as it is, where no machine word can hold the new
    /// length.
    pub fn write_page(&mut self, page: Page) -> (res: Result<Offset, Error>)
        ensures
            res is Ok <==> old(self)@.len() + PAGE_SIZE <= usize::MAX,
            res is Ok ==> res->Ok_0.0 == old(self)@.len() && final(self)@ == old(self)@ + page@,
            res is Err ==> res->Err_0 == Error::UnexpectedError && final(self)@ == old(self)@,
    {
        broadcast use Page::lemma_page_len;

        let start: usize = self.image.len();
        if start > usize::MAX - PAGE_SIZE {
            return Err(Error::UnexpectedError);
        }
        let data: [u8; PAGE_SIZE] = page.get_data();
        let ghost before = self.image@;
        let mut i: usize = 0;
        while i < PAGE_SIZE
            invariant
                i <= PAGE_SIZE,
                data@ == page@,
                page@.len() == PAGE_SIZE,
                self.image@ == before + page@.subrange(0, i as int),
            decreases PAGE_SIZE - i,
        {
            self.image.push(data[i]);
            assert(self.image@ =~= before + page@.subrange(0, i + 1));
            i += 1;
        }
        assert(self.image@ =~= before + page@);
        Ok(Offset(start))
    }

    /// Writes `page` at `offset`, over what was there, and leaves the place
    /// for new pages at the end of the image. Where the image ended before
    /// `offset`, zero bytes fill the gap. Fails, and leaves the image as it
    /// is, where no machine word can hold the end of the page.
    pub fn write_page_at_offset(&mut self, page: Page, offset: &Offset) -> (res: Result<
        (),
        Error,
    >)
        ensures
            res is Ok <==> offset.0 + PAGE_SIZE <= usize::MAX,
            res is Ok ==> final(self)@ == overwritten(old(self)@, offset.0 as int, page@),
            res is Err ==> res->Err_0 == Error::UnexpectedError && final(self)@ == old(self)@,
    {
        broadcast use Page::lemma_page_len;

        let start: usize = offset.0;
        if start > usize::MAX - PAGE_SIZE {
            return Err(Error::UnexpectedError);
        }
        let data: [u8; PAGE_SIZE] = page.get_data();
        let ghost before = self.image@;
        while self.image.len() < start + PAGE_SIZE
            invariant
                start + PAGE_SIZE <= usize::MAX,
                before.len() <= self.image@.len(),
                self.image@.len() <= start + PAGE_SIZE || self.image@ == before,
                self.image@ == before + zeros((self.image@.len() - before.len()) as nat),
            decreases start + PAGE_SIZE - self.image@.len(),
        {
            let ghost grown = self.image@;
            self.image.push(0u8);
            assert(self.image@ =~= before + zeros((self.image@.len() - before.len()) as nat));
        }
        let ghost grown = self.image@;
        let mut i: usize = 0;
        while i < PAGE_SIZE
            invariant
                i <= PAGE_SIZE,
                data@ == page@,
                page@.len() == PAGE_SIZE,
                start + PAGE_SIZE <= grown.len() <= usize::MAX,
                self.image@.len() == grown.len(),
                forall|k: int| 0 <= k < start || start + i <= k < grown.len() ==> self.image@[k]
                    == grown[k],
                forall|k: int| start <= k < start + i ==> self.image@[k] == page@[k - start],
            decreases PAGE_SIZE - i,
        {
            self.image.set(start + i, data[i]);
            i += 1;
        }
        assert(self.image@ =~= overwritten(before, start as int, page@));
        Ok(())
    }
}

} // verus!
