use vstd::prelude::*;
use crate::layout::{PAGE_SIZE, ROWS_PER_PAGE, ROW_SIZE};
use crate::row::{lemma_row_image_len, row_image, Row};

verus! {

/// `s` with the bytes from `at` on replaced by `b`.
pub open spec fn splice(s: Seq<u8>, at: int, b: Seq<u8>) -> Seq<u8> {
    s.subrange(0, at) + b + s.subrange(at + b.len(), s.len() as int)
}

/// A page of `PAGE_SIZE` bytes, holding up to `ROWS_PER_PAGE` rows back to back.
#[derive(Debug)]
pub struct Page {
    pub data: Vec<u8>,
}

impl Page {
    pub open spec fn wf(&self) -> bool {
        self.data@.len() == PAGE_SIZE
    }

    /// The bytes of the row in slot `offset`.
    pub open spec fn slot(&self, offset: int) -> Seq<u8> {
        self.data@.subrange(offset * ROW_SIZE, offset * ROW_SIZE + ROW_SIZE)
    }

    /// A page of zero bytes.
    pub fn new() -> (p: Page)
        ensures
            p.wf(),
            p.data@ == Seq::new(PAGE_SIZE as nat, |_i: int| 0u8),
    {
        let mut data: Vec<u8> = Vec::new();
        let mut i: usize = 0;
        while i < PAGE_SIZE
            invariant
                i <= PAGE_SIZE,
                data@ == Seq::new(i as nat, |_i: int| 0u8),
            decreases PAGE_SIZE - i,
        {
            data.push(0u8);
            i = i + 1;
            assert(data@ =~= Seq::new(i as nat, |_i: int| 0u8));
        }
        Page { data }
    }

    /// Writes the serialized row into slot `offset`, leaving the other bytes.
    pub fn insert(&mut self, row: &Row, offset: usize)
        requires
            old(self).wf(),
            offset < ROWS_PER_PAGE,
            row@.is_valid(),
        ensures
            final(self).wf(),
            final(self).data@ == splice(old(self).data@, offset * ROW_SIZE, row_image(row@)),
    {
        let bytes = row.serialize();
        let base = offset * ROW_SIZE;
        let ghost before = self.data@;
        let mut i: usize = 0;
        while i < ROW_SIZE
            invariant
                i <= ROW_SIZE,
                base + ROW_SIZE <= PAGE_SIZE,
                bytes@.len() == ROW_SIZE,
                self.data@.len() == PAGE_SIZE,
                before.len() == PAGE_SIZE,
                forall|j: int|
                    0 <= j < PAGE_SIZE ==> #[trigger] self.data@[j] == if base <= j < base + i {
                        bytes@[j - base]
                    } else {
                        before[j]
                    },
            decreases ROW_SIZE - i,
        {
            self.data.set(base + i, bytes[i]);
            i = i + 1;
        }
        proof {
            lemma_row_image_len(row@);
            assert(self.data@ =~= splice(before, base as int, row_image(row@)));
        }
    }

    /// A copy of the bytes in slot `offset`.
    pub fn row_bytes(&self, offset: usize) -> (r: Vec<u8>)
        requires
            self.wf(),
            offset < ROWS_PER_PAGE,
        ensures
            r@ == self.slot(offset as int),
    {
        let base = offset * ROW_SIZE;
        let mut r: Vec<u8> = Vec::new();
        let mut i: usize = 0;
        while i < ROW_SIZE
            invariant
                i <= ROW_SIZE,
                base + ROW_SIZE <= PAGE_SIZE,
                self.data@.len() == PAGE_SIZE,
                r@ == self.data@.subrange(base as int, base + i),
            decreases ROW_SIZE - i,
        {
            r.push(self.data[base + i]);
            i = i + 1;
            assert(r@ =~= self.data@.subrange(base as int, base + i));
        }
        r
    }
}

} // verus!
