use vstd::prelude::*;
use vstd::arithmetic::div_mod::lemma_fundamental_div_mod_converse;
use crate::layout::{PAGE_ROWS_SIZE, PAGE_SIZE, ROWS_PER_PAGE, ROW_SIZE, TABLE_MAX_PAGES, TABLE_MAX_ROWS};
use crate::page::Page;
use crate::row::{lemma_row_image_len, row_image, Row};

verus! {

/// The file after `b` is written at `off`: it grows where the write reaches
/// past its end, and a gap before `off` reads as zeros.
pub open spec fn written(f: Seq<u8>, off: int, b: Seq<u8>) -> Seq<u8> {
    let len = if f.len() >= off + b.len() { f.len() as int } else { off + b.len() };
    Seq::new(
        len as nat,
        |j: int|
            if off <= j < off + b.len() {
                b[j - off]
            } else if j < f.len() {
                f[j]
            } else {
                0u8
            },
    )
}

/// The file after the rows `recs` are stored at `row_index * ROW_SIZE`.
pub open spec fn persisted(f: Seq<u8>, recs: Seq<Seq<u8>>) -> Seq<u8> {
    let end = recs.len() * ROW_SIZE;
    let len = if f.len() >= end { f.len() as int } else { end };
    Seq::new(
        len as nat,
        |j: int|
            if j < end {
                recs[j / ROW_SIZE as int][j % ROW_SIZE as int]
            } else {
                f[j]
            },
    )
}

/// The page `p` as read from the file: the stored bytes of its rows, zeros
/// past the end of the file and in the unused tail.
pub open spec fn page_from_file(f: Seq<u8>, p: int) -> Seq<u8> {
    Seq::new(
        PAGE_SIZE as nat,
        |i: int|
            if i < PAGE_ROWS_SIZE && p * PAGE_ROWS_SIZE + i < f.len() {
                f[p * PAGE_ROWS_SIZE + i]
            } else {
                0u8
            },
    )
}

/// Row `i` sits in page `i / ROWS_PER_PAGE` at byte `(i % ROWS_PER_PAGE) * ROW_SIZE`,
/// and in the file at byte `i * ROW_SIZE`.
pub proof fn lemma_row_position(i: int)
    requires
        0 <= i,
    ensures
        i * ROW_SIZE == (i / ROWS_PER_PAGE as int) * PAGE_ROWS_SIZE + (i % ROWS_PER_PAGE as int)
            * ROW_SIZE,
        0 <= (i % ROWS_PER_PAGE as int) <= ROWS_PER_PAGE - 1,
{
}

/// Byte `j` of the stored page `p` belongs to row `j / ROW_SIZE`, at byte `j % ROW_SIZE` of it.
pub proof fn lemma_byte_position(p: int, j: int)
    requires
        0 <= p,
        p * PAGE_ROWS_SIZE <= j < p * PAGE_ROWS_SIZE + PAGE_ROWS_SIZE,
    ensures
        (j / ROW_SIZE as int) / ROWS_PER_PAGE as int == p,
        ((j / ROW_SIZE as int) % ROWS_PER_PAGE as int) * ROW_SIZE + j % ROW_SIZE as int == j - p
            * PAGE_ROWS_SIZE,
        j / ROW_SIZE as int * ROW_SIZE + j % ROW_SIZE as int == j,
        0 <= (j % ROW_SIZE as int) < ROW_SIZE,
{
    let d = j - p * PAGE_ROWS_SIZE;
    let q = d / ROW_SIZE as int;
    let m = d % ROW_SIZE as int;
    lemma_fundamental_div_mod_converse(d, ROW_SIZE as int, q, m);
    assert(0 <= q < ROWS_PER_PAGE);
    lemma_fundamental_div_mod_converse(j, ROW_SIZE as int, p * ROWS_PER_PAGE + q, m);
    lemma_fundamental_div_mod_converse(p * ROWS_PER_PAGE + q, ROWS_PER_PAGE as int, p, q);
}

/// Writes the first `count` bytes of `src` into `file` at `off`.
fn write_at(file: &mut Vec<u8>, off: usize, src: &Vec<u8>, count: usize)
    requires
        count <= src@.len(),
        off + count <= usize::MAX,
    ensures
        final(file)@ == written(old(file)@, off as int, src@.subrange(0, count as int)),
{
    let ghost f = old(file)@;
    while file.len() < off
        invariant
            f.len() <= file@.len() <= off || file@.len() == f.len(),
            forall|j: int| 0 <= j < file@.len() ==> #[trigger] file@[j] == if j < f.len() {
                f[j]
            } else {
                0u8
            },
        decreases off - file@.len(),
    {
        file.push(0u8);
    }
    let mut k: usize = 0;
    while k < count
        invariant
            k <= count <= src@.len(),
            off + count <= usize::MAX,
            file@.len() >= off,
            file@.len() == if f.len() >= off + k { f.len() as int } else { off + k },
            forall|j: int| 0 <= j < file@.len() ==> #[trigger] file@[j] == if off <= j < off + k {
                src@[j - off]
            } else if j < f.len() {
                f[j]
            } else {
                0u8
            },
        decreases count - k,
    {
        if off + k < file.len() {
            file.set(off + k, src[k]);
        } else {
            file.push(src[k]);
        }
        k = k + 1;
    }
    assert(file@ =~= written(f, off as int, src@.subrange(0, count as int)));
}

/// A readable row is `ROW_SIZE` bytes long.
pub proof fn lemma_record_len(pager: Pager, i: int)
    requires
        pager.wf(),
        0 <= i < TABLE_MAX_ROWS,
        pager.in_file(i),
    ensures
        pager.record_at(i).len() == ROW_SIZE,
{
    lemma_row_position(i);
}

/// The page cache over the image of the backing file.
#[derive(Debug)]
pub struct Pager {
    /// The bytes of the backing file.
    pub file: Vec<u8>,
    /// One slot per page: `Some` once the page is in memory.
    pub pages: Vec<Option<Page>>,
}

impl Pager {
    pub open spec fn wf(&self) -> bool {
        &&& self.pages@.len() == TABLE_MAX_PAGES
        &&& forall|p: int|
            0 <= p < TABLE_MAX_PAGES ==> (#[trigger] self.pages@[p] matches Some(pg) ==> pg.wf())
    }

    pub open spec fn resident(&self, p: int) -> bool {
        self.pages@[p] is Some
    }

    /// The bytes of row `i`: in its page where that page is in memory, else in the file.
    pub open spec fn record_at(&self, i: int) -> Seq<u8> {
        let p = i / ROWS_PER_PAGE as int;
        match self.pages@[p] {
            Some(pg) => pg.slot(i % ROWS_PER_PAGE as int),
            None => self.file@.subrange(i * ROW_SIZE, i * ROW_SIZE + ROW_SIZE),
        }
    }

    /// Row `i` can be read: its page is in memory, or the file holds all of it.
    pub open spec fn in_file(&self, i: int) -> bool {
        !self.resident(i / ROWS_PER_PAGE as int) ==> (i + 1) * ROW_SIZE <= self.file@.len()
    }

    /// The first `n` rows can be read.
    pub open spec fn holds_rows(&self, n: int) -> bool {
        forall|i: int| 0 <= i < n ==> #[trigger] self.in_file(i)
    }

    /// The first `n` rows' bytes.
    pub open spec fn records(&self, n: int) -> Seq<Seq<u8>> {
        Seq::new(n as nat, |i: int| self.record_at(i))
    }

    /// Attaches a pager to the contents of a file; no page is in memory yet.
    pub fn open(contents: Vec<u8>) -> (r: Pager)
        ensures
            r.wf(),
            r.file@ == contents@,
            forall|p: int| 0 <= p < TABLE_MAX_PAGES ==> !#[trigger] r.resident(p),
    {
        let mut pages: Vec<Option<Page>> = Vec::new();
        let mut i: usize = 0;
        while i < TABLE_MAX_PAGES
            invariant
                i <= TABLE_MAX_PAGES,
                pages@.len() == i,
                forall|p: int| 0 <= p < i ==> #[trigger] pages@[p] is None,
            decreases TABLE_MAX_PAGES - i,
        {
            pages.push(None);
            i = i + 1;
        }
        Pager { file: contents, pages }
    }

    /// The length of the backing file in bytes.
    pub fn file_length(&self) -> (r: usize)
        ensures
            r == self.file@.len(),
    {
        self.file.len()
    }

    /// Brings page `page_num` into memory if it is not there yet.
    pub fn get_page(&mut self, page_num: usize)
        requires
            old(self).wf(),
            page_num < TABLE_MAX_PAGES,
        ensures
            final(self).wf(),
            final(self).file@ == old(self).file@,
            final(self).resident(page_num as int),
            old(self).resident(page_num as int) ==> final(self).pages@[page_num as int] == old(
                self,
            ).pages@[page_num as int],
            !old(self).resident(page_num as int) ==> final(self).pages@[page_num as int]->Some_0.data@
                == page_from_file(old(self).file@, page_num as int),
            forall|p: int|
                0 <= p < TABLE_MAX_PAGES && p != page_num ==> final(self).pages@[p] == old(
                    self,
                ).pages@[p],
            forall|i: int|
                0 <= i < TABLE_MAX_ROWS && old(self).in_file(i) ==> #[trigger] final(self).record_at(i) == old(
                self,
            ).record_at(i),
            forall|i: int|
                0 <= i < TABLE_MAX_ROWS && old(self).in_file(i) ==> #[trigger] final(self).in_file(i),
    {
        if self.pages[page_num].is_none() {
            let mut page = Page::new();
            let start = page_num * PAGE_ROWS_SIZE;
            let flen = self.file.len();
            if start < flen {
                let avail = if flen - start < PAGE_ROWS_SIZE {
                    flen - start
                } else {
                    PAGE_ROWS_SIZE
                };
                let mut k: usize = 0;
                while k < avail
                    invariant
                        k <= avail <= PAGE_ROWS_SIZE,
                        start + avail <= flen,
                        flen == self.file@.len(),
                        page.data@.len() == PAGE_SIZE,
                        forall|i: int|
                            0 <= i < PAGE_SIZE ==> #[trigger] page.data@[i] == if i < k {
                                self.file@[start + i]
                            } else {
                                0u8
                            },
                    decreases avail - k,
                {
                    page.data.set(k, self.file[start + k]);
                    k = k + 1;
                }
            }
            assert(page.data@ =~= page_from_file(self.file@, page_num as int));
            self.pages.set(page_num, Some(page));
            proof {
                let f = old(self).file@;
                assert forall|i: int| 0 <= i < TABLE_MAX_ROWS && old(self).in_file(i) implies #[trigger] self.record_at(
                    i,
                ) == old(self).record_at(i) by {
                    if i / ROWS_PER_PAGE as int == page_num {
                        lemma_row_position(i);
                        assert(i * ROW_SIZE == page_num * PAGE_ROWS_SIZE + (i % ROWS_PER_PAGE as int)
                            * ROW_SIZE);
                        assert((i + 1) * ROW_SIZE <= f.len());
                        assert(self.record_at(i) =~= old(self).record_at(i));
                    }
                }
            }
        }
    }

    /// Writes `row` into row slot `row_num` of page `page_num`, bringing the page in first.
    pub fn insert(&mut self, page_num: usize, row: &Row, row_num: usize)
        requires
            old(self).wf(),
            row_num < TABLE_MAX_ROWS,
            page_num == row_num / ROWS_PER_PAGE,
            row@.is_valid(),
        ensures
            final(self).wf(),
            final(self).file@ == old(self).file@,
            final(self).resident(page_num as int),
            final(self).record_at(row_num as int) == row_image(row@),
            forall|i: int|
                0 <= i < TABLE_MAX_ROWS && i != row_num && old(self).in_file(i) ==> #[trigger] final(self).record_at(i)
                    == old(self).record_at(i),
            forall|i: int|
                0 <= i < TABLE_MAX_ROWS && old(self).in_file(i) ==> #[trigger] final(self).in_file(i),
    {
        let row_offset: usize = row_num % ROWS_PER_PAGE;
        self.get_page(page_num);
        let ghost mid = *self;
        let mut slot: Option<Page> = None;
        self.pages.set_and_swap(page_num, &mut slot);
        match slot {
            Some(mut page) => {
                page.insert(row, row_offset);
                self.pages.set(page_num, Some(page));
            },
            None => {},
        }
        proof {
            lemma_row_image_len(row@);
            lemma_row_position(row_num as int);
            assert(self.record_at(row_num as int) =~= row_image(row@));
            assert forall|i: int|
                0 <= i < TABLE_MAX_ROWS && i != row_num && old(self).in_file(i) implies #[trigger] self.record_at(i)
                == old(self).record_at(i) by {
                assert(mid.record_at(i) == old(self).record_at(i));
                if i / ROWS_PER_PAGE as int == page_num {
                    lemma_row_position(i);
                    assert(self.record_at(i) =~= mid.record_at(i));
                }
            }
            assert forall|i: int| 0 <= i < TABLE_MAX_ROWS && old(self).in_file(i) implies #[trigger] self.in_file(i) by {
                assert(mid.in_file(i));
            }
        }
    }

    /// Writes the first `num_rows` rows of page `page_num` to the file, or all
    /// `ROWS_PER_PAGE` of them when `num_rows` is `None`. The unused tail of a
    /// page is never written.
    pub fn flush_page(&mut self, page_num: usize, num_rows: Option<usize>)
        requires
            old(self).wf(),
            page_num < TABLE_MAX_PAGES,
            old(self).resident(page_num as int),
            num_rows matches Some(k) ==> k <= ROWS_PER_PAGE,
        ensures
            final(self).wf(),
            final(self).pages@ == old(self).pages@,
            final(self).file@ == written(
                old(self).file@,
                page_num * PAGE_ROWS_SIZE,
                old(self).pages@[page_num as int]->Some_0.data@.subrange(
                    0,
                    match num_rows {
                        Some(k) => k * ROW_SIZE,
                        None => PAGE_ROWS_SIZE as int,
                    },
                ),
            ),
    {
        let count = match num_rows {
            Some(k) => k * ROW_SIZE,
            None => PAGE_ROWS_SIZE,
        };
        let offset = page_num * PAGE_ROWS_SIZE;
        match &self.pages[page_num] {
            Some(page) => {
                write_at(&mut self.file, offset, &page.data, count);
            },
            None => {},
        }
    }

    /// Writes the rows of the first `num_full_pages` pages and `num_additional_rows`
    /// rows of the page after them, then drops those pages from memory. A page
    /// that was never brought into memory is left as the file holds it.
    pub fn flush_pages(&mut self, num_full_pages: usize, num_additional_rows: usize)
        requires
            old(self).wf(),
            num_additional_rows < ROWS_PER_PAGE,
            num_full_pages * ROWS_PER_PAGE + num_additional_rows <= TABLE_MAX_ROWS,
            old(self).holds_rows(num_full_pages * ROWS_PER_PAGE + num_additional_rows),
        ensures
            final(self).wf(),
            final(self).file@ == persisted(
                old(self).file@,
                old(self).records(num_full_pages * ROWS_PER_PAGE + num_additional_rows),
            ),
            forall|p: int|
                0 <= p < TABLE_MAX_PAGES ==> #[trigger] final(self).pages@[p] == if p
                    < num_full_pages || (p == num_full_pages && num_additional_rows > 0) {
                    None
                } else {
                    old(self).pages@[p]
                },
    {
        let ghost f0 = old(self).file@;
        let ghost n = num_full_pages * ROWS_PER_PAGE + num_additional_rows;
        let ghost recs = old(self).records(n);
        let mut i: usize = 0;
        proof {
            assert(f0 =~= persisted(f0, recs.take(0)));
        }
        while i < num_full_pages
            invariant
                i <= num_full_pages,
                num_full_pages * ROWS_PER_PAGE + num_additional_rows <= TABLE_MAX_ROWS,
                n == num_full_pages * ROWS_PER_PAGE + num_additional_rows,
                recs == old(self).records(n),
                f0 == old(self).file@,
                old(self).wf(),
                old(self).holds_rows(n),
                self.wf(),
                self.file@ == persisted(f0, recs.take(i * ROWS_PER_PAGE)),
                forall|p: int|
                    0 <= p < TABLE_MAX_PAGES ==> #[trigger] self.pages@[p] == if p < i {
                        None
                    } else {
                        old(self).pages@[p]
                    },
            decreases num_full_pages - i,
        {
            let ghost before = self.file@;
            if self.pages[i].is_some() {
                self.flush_page(i, None);
            }
            proof {
                lemma_flush_step(
                    *old(self),
                    f0,
                    recs,
                    n,
                    before,
                    self.file@,
                    i as int,
                    ROWS_PER_PAGE as int,
                );
            }
            self.pages.set(i, None);
            i = i + 1;
        }
        if num_additional_rows > 0 {
            let page_num: usize = num_full_pages;
            let ghost before = self.file@;
            if self.pages[page_num].is_some() {
                self.flush_page(page_num, Some(num_additional_rows));
            }
            proof {
                lemma_flush_step(
                    *old(self),
                    f0,
                    recs,
                    n,
                    before,
                    self.file@,
                    page_num as int,
                    num_additional_rows as int,
                );
            }
            self.pages.set(page_num, None);
        }
        proof {
            assert(recs.take(n) =~= recs);
        }
    }
}

/// Storing page `p`'s first `k` rows (or, where the page is not in memory,
/// leaving the file alone) extends the stored prefix by those rows.
proof fn lemma_flush_step(
    pager: Pager,
    f0: Seq<u8>,
    recs: Seq<Seq<u8>>,
    n: int,
    before: Seq<u8>,
    after: Seq<u8>,
    p: int,
    k: int,
)
    requires
        pager.wf(),
        0 <= p < TABLE_MAX_PAGES,
        0 <= k <= ROWS_PER_PAGE,
        p * ROWS_PER_PAGE + k <= n <= TABLE_MAX_ROWS,
        recs == pager.records(n),
        pager.holds_rows(n),
        before == persisted(f0, recs.take(p * ROWS_PER_PAGE)),
        pager.file@ == f0,
        pager.resident(p) ==> after == written(
            before,
            p * PAGE_ROWS_SIZE,
            pager.pages@[p]->Some_0.data@.subrange(0, k * ROW_SIZE),
        ),
        !pager.resident(p) ==> after == before,
    ensures
        after == persisted(f0, recs.take(p * ROWS_PER_PAGE + k)),
{
    let lo = p * PAGE_ROWS_SIZE;
    let hi = lo + k * ROW_SIZE;
    let goal = persisted(f0, recs.take(p * ROWS_PER_PAGE + k));
    assert(lo == p * ROWS_PER_PAGE * ROW_SIZE);
    assert(hi == (p * ROWS_PER_PAGE + k) * ROW_SIZE);
    if k > 0 {
        let last = p * ROWS_PER_PAGE + k - 1;
        assert(pager.in_file(last));
        lemma_row_position(last);
        assert(last / ROWS_PER_PAGE as int == p);
    }
    assert forall|j: int| lo <= j < hi implies #[trigger] goal[j] == after[j] by {
        lemma_byte_position(p, j);
        let r = j / ROW_SIZE as int;
        assert(0 <= r < p * ROWS_PER_PAGE + k);
        assert(pager.in_file(r));
        lemma_row_position(r);
        assert(recs[r] == pager.record_at(r));
    }
    assert(goal =~= after);
}

} // verus!
