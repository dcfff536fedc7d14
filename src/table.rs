use vstd::prelude::*;
use vstd::arithmetic::div_mod::lemma_fundamental_div_mod_converse;
use crate::layout::{ROWS_PER_PAGE, ROW_SIZE, TABLE_MAX_PAGES, TABLE_MAX_ROWS};
use crate::pager::{lemma_record_len, lemma_row_position, persisted, Pager};
use crate::row::{
    decode_row, lemma_round_trip, result_view, row_image, DecodeError, Row, RowView,
};

verus! {

/// Why a statement could not be carried out.
#[derive(Debug, Clone, Copy, PartialEq, Eq, Structural)]
pub enum ExecuteError {
    /// The table already holds `TABLE_MAX_ROWS` rows.
    TableFull,
    /// A stored row does not decode.
    Corrupt(DecodeError),
}

/// The `n` rows that a file holds at `row_index * ROW_SIZE`.
pub open spec fn file_records(f: Seq<u8>, n: int) -> Seq<Seq<u8>> {
    Seq::new(n as nat, |i: int| f.subrange(i * ROW_SIZE, i * ROW_SIZE + ROW_SIZE))
}

/// Decodes stored rows in order; the first row that does not decode decides the error.
pub open spec fn decode_all(recs: Seq<Seq<u8>>) -> Result<Seq<RowView>, DecodeError>
    decreases recs.len(),
{
    if recs.len() == 0 {
        Ok(Seq::empty())
    } else {
        match decode_all(recs.drop_last()) {
            Err(e) => Err(e),
            Ok(rows) => match decode_row(recs.last()) {
                Err(e) => Err(e),
                Ok(r) => Ok(rows.push(r)),
            },
        }
    }
}

/// The views of a sequence of rows.
pub open spec fn rows_view(rows: Seq<Row>) -> Seq<RowView> {
    rows.map_values(|r: Row| r@)
}

/// The table: a row count and the pager that stores the rows.
#[derive(Debug)]
pub struct Table {
    pub pager: Pager,
    pub num_rows: usize,
}

impl Table {
    pub open spec fn wf(&self) -> bool {
        &&& self.pager.wf()
        &&& self.num_rows <= TABLE_MAX_ROWS
        &&& self.pager.holds_rows(self.num_rows as int)
        &&&(self.pager.file@.len() as int) / (ROW_SIZE as int) <= self.num_rows
    }

    /// The bytes of the table's rows, in insertion order.
    pub open spec fn records(&self) -> Seq<Seq<u8>> {
        self.pager.records(self.num_rows as int)
    }

    /// Opens a table on the contents of its file; the row count is the
    /// number of whole rows the file holds.
    pub fn db_open(contents: Vec<u8>) -> (t: Table)
        requires
(contents@.len() as int) / (ROW_SIZE as int) <= TABLE_MAX_ROWS,
        ensures
            t.wf(),
            t.num_rows ==(contents@.len() as int) / (ROW_SIZE as int),
            t.pager.file@ == contents@,
            t.records() == file_records(contents@, t.num_rows as int),
    {
        let pager = Pager::open(contents);
        let num_rows = pager.file_length() / ROW_SIZE;
        let t = Table { pager, num_rows };
        proof {
            assert forall|i: int| 0 <= i < num_rows implies #[trigger] t.pager.in_file(i) by {
                assert((i + 1) * ROW_SIZE <= num_rows * ROW_SIZE);
                assert((i / ROWS_PER_PAGE as int) < TABLE_MAX_PAGES);
            }
            assert forall|i: int| 0 <= i < num_rows implies #[trigger] t.records()[i]
                == file_records(contents@, num_rows as int)[i] by {
                assert((i / ROWS_PER_PAGE as int) < TABLE_MAX_PAGES);
                assert(!t.pager.resident(i / ROWS_PER_PAGE as int));
            }
            assert(t.records() =~= file_records(contents@, num_rows as int));
        }
        t
    }

    /// Writes every row to the file, a partial last page included, and drops
    /// the written pages from memory.
    pub fn db_close(&mut self)
        requires
            old(self).wf(),
        ensures
            final(self).wf(),
            final(self).num_rows == old(self).num_rows,
            final(self).pager.file@ == persisted(old(self).pager.file@, old(self).records()),
            final(self).records() == old(self).records(),
    {
        let num_full_pages: usize = self.num_rows / ROWS_PER_PAGE;
        let num_additional_rows: usize = self.num_rows % ROWS_PER_PAGE;
        let ghost recs = self.records();
        let ghost f0 = self.pager.file@;
        let ghost n = self.num_rows as int;
        self.pager.flush_pages(num_full_pages, num_additional_rows);
        proof {
            let f1 = self.pager.file@;
            assert(recs.len() == n);
            assert(f1.len() >= n * ROW_SIZE);
            assert forall|i: int| 0 <= i < n implies #[trigger] self.pager.record_at(i) == recs[i]
                && self.pager.in_file(i) by {
                lemma_row_position(i);
                assert(old(self).pager.in_file(i));
                lemma_record_len(old(self).pager, i);
                assert(recs[i] == old(self).pager.record_at(i));
                assert((i / ROWS_PER_PAGE as int) < TABLE_MAX_PAGES);
                assert(!self.pager.resident(i / ROWS_PER_PAGE as int));
                assert(i * ROW_SIZE + ROW_SIZE <= n * ROW_SIZE);
                assert forall|k: int| 0 <= k < ROW_SIZE implies #[trigger] f1[i * ROW_SIZE + k]
                    == recs[i][k] by {
                    lemma_fundamental_div_mod_converse(i * ROW_SIZE + k, ROW_SIZE as int, i, k);
                }
                assert(self.pager.record_at(i) =~= recs[i]);
            }
            assert(self.records() =~= recs);
            assert forall|i: int| 0 <= i < n implies #[trigger] self.pager.in_file(i) by {
                assert(self.pager.record_at(i) == recs[i]);
            }
            lemma_persisted_len(f0, recs);
        }
    }

    /// Appends a row; fails when the table is full, and then changes nothing.
    pub fn insert(&mut self, row: &Row) -> (r: Result<(), ExecuteError>)
        requires
            old(self).wf(),
            row@.is_valid(),
        ensures
            final(self).wf(),
            final(self).pager.file@ == old(self).pager.file@,
            old(self).num_rows == TABLE_MAX_ROWS ==> r == Err::<(), ExecuteError>(
                ExecuteError::TableFull,
            ) && *final(self) == *old(self),
            old(self).num_rows < TABLE_MAX_ROWS ==> r == Ok::<(), ExecuteError>(())
                && final(self).num_rows == old(self).num_rows + 1 && final(self).records() == old(
                self,
            ).records().push(row_image(row@)),
    {
        if self.num_rows == TABLE_MAX_ROWS {
            return Err(ExecuteError::TableFull);
        }
        let cursor = Cursor::table_end(self);
        cursor.insert_row(self, row);
        self.num_rows = self.num_rows + 1;
        proof {
            assert(self.records() =~= old(self).records().push(row_image(row@)));
        }
        Ok(())
    }

    /// Every row, from the first to the last.
    pub fn select(&mut self) -> (r: Result<Vec<Row>, DecodeError>)
        requires
            old(self).wf(),
        ensures
            final(self).wf(),
            final(self).num_rows == old(self).num_rows,
            final(self).pager.file@ == old(self).pager.file@,
            final(self).records() == old(self).records(),
            match r {
                Ok(rows) => decode_all(old(self).records()) == Ok::<Seq<RowView>, DecodeError>(
                    rows_view(rows@),
                ),
                Err(e) => decode_all(old(self).records()) == Err::<Seq<RowView>, DecodeError>(e),
            },
    {
        let ghost recs = self.records();
        let mut cursor = Cursor::table_start(self);
        let mut rows: Vec<Row> = Vec::new();
        proof {
            assert(recs.take(0) =~= Seq::<Seq<u8>>::empty());
            assert(rows_view(rows@) =~= Seq::<RowView>::empty());
        }
        while cursor.row_num < self.num_rows
            invariant
                self.wf(),
                self.num_rows == old(self).num_rows,
                self.pager.file@ == old(self).pager.file@,
                self.records() == recs,
                recs == old(self).records(),
                cursor.row_num <= self.num_rows,
                decode_all(recs.take(cursor.row_num as int)) == Ok::<Seq<RowView>, DecodeError>(
                    rows_view(rows@),
                ),
            decreases self.num_rows - cursor.row_num,
        {
            let ghost k = cursor.row_num as int;
            match cursor.next(self) {
                Some(Ok(row)) => {
                    let ghost prev = rows@;
                    rows.push(row);
                    proof {
                        assert(recs.take(k + 1).drop_last() =~= recs.take(k));
                        assert(rows_view(rows@) =~= rows_view(rows@.drop_last()).push(rows@.last()@));
                        assert(rows@.drop_last() =~= prev);
                    }
                },
                Some(Err(e)) => {
                    proof {
                        assert(recs.take(k + 1).drop_last() =~= recs.take(k));
                        lemma_decode_all_error_prefix(recs, k + 1);
                    }
                    return Err(e);
                },
                None => {},
            }
        }
        proof {
            assert(recs.take(self.num_rows as int) =~= recs);
        }
        Ok(rows)
    }
}

/// Once a prefix of the rows fails to decode, all of them fail with the same error.
proof fn lemma_decode_all_error_prefix(recs: Seq<Seq<u8>>, k: int)
    requires
        0 <= k <= recs.len(),
        decode_all(recs.take(k)) is Err,
    ensures
        decode_all(recs) == decode_all(recs.take(k)),
    decreases recs.len() - k,
{
    if k < recs.len() {
        assert(recs.take(k + 1).drop_last() =~= recs.take(k));
        lemma_decode_all_error_prefix(recs, k + 1);
    } else {
        assert(recs.take(k) =~= recs);
    }
}

proof fn lemma_persisted_len(f: Seq<u8>, recs: Seq<Seq<u8>>)
    requires
(f.len() as int) / (ROW_SIZE as int) <= recs.len(),
    ensures
(persisted(f, recs).len() as int) / (ROW_SIZE as int) == recs.len(),
{
    let n = recs.len() as int;
    let len = persisted(f, recs).len() as int;
    assert(f.len() < (n + 1) * ROW_SIZE);
    lemma_fundamental_div_mod_converse(len, ROW_SIZE as int, n, len - n * ROW_SIZE);
}

/// A position in the table: the row it stands at, and whether that is past the end.
#[derive(Debug)]
pub struct Cursor {
    pub row_num: usize,
    pub end_of_table: bool,
}

impl Cursor {
    /// A cursor at the first row.
    pub fn table_start(table: &Table) -> (c: Cursor)
        ensures
            c.row_num == 0,
            c.end_of_table == (table.num_rows == 0),
    {
        let end_of_table: bool = table.num_rows == 0;
        Cursor { row_num: 0, end_of_table }
    }

    /// A cursor just past the last row: where the next row goes.
    pub fn table_end(table: &Table) -> (c: Cursor)
        ensures
            c.row_num == table.num_rows,
            c.end_of_table,
    {
        Cursor { row_num: table.num_rows, end_of_table: true }
    }

    /// Writes `row` at the cursor, which stands just past the last row; the
    /// row count is left to the caller.
    pub fn insert_row(&self, table: &mut Table, row: &Row)
        requires
            old(table).wf(),
            self.row_num == old(table).num_rows,
            old(table).num_rows < TABLE_MAX_ROWS,
            row@.is_valid(),
        ensures
            final(table).pager.wf(),
            final(table).num_rows == old(table).num_rows,
            final(table).pager.file@ == old(table).pager.file@,
            final(table).pager.holds_rows(old(table).num_rows + 1),
            final(table).pager.records(old(table).num_rows + 1) == old(table).records().push(
                row_image(row@),
            ),
    {
        let page_num: usize = self.row_num / ROWS_PER_PAGE;
        table.pager.insert(page_num, row, self.row_num);
        proof {
            let n = old(table).num_rows as int;
            assert forall|i: int| 0 <= i < n + 1 implies #[trigger] table.pager.in_file(i) by {
                if i < n {
                    assert(old(table).pager.in_file(i));
                }
            }
            assert forall|i: int| 0 <= i < n + 1 implies #[trigger] table.pager.records(n + 1)[i]
                == old(table).records().push(row_image(row@))[i] by {
                if i < n {
                    assert(old(table).pager.in_file(i));
                }
            }
            assert(table.pager.records(n + 1) =~= old(table).records().push(row_image(row@)));
        }
    }

    /// The row at the cursor, decoded, and the cursor moves on; `None` past the last row.
    pub fn next(&mut self, table: &mut Table) -> (r: Option<Result<Row, DecodeError>>)
        requires
            old(table).wf(),
        ensures
            final(table).wf(),
            final(table).num_rows == old(table).num_rows,
            final(table).pager.file@ == old(table).pager.file@,
            final(table).records() == old(table).records(),
            old(self).row_num < old(table).num_rows ==> {
                &&& final(self).row_num == old(self).row_num + 1
                &&& final(self).end_of_table == old(self).end_of_table
                &&& r matches Some(x) && result_view(x) == decode_row(
                    old(table).records()[old(self).row_num as int],
                )
            },
            old(self).row_num >= old(table).num_rows ==> r is None && *final(self) == *old(self),
    {
        if self.row_num < table.num_rows {
            let page_num: usize = self.row_num / ROWS_PER_PAGE;
            let row_offset: usize = self.row_num % ROWS_PER_PAGE;
            let ghost i = self.row_num as int;
            self.row_num = self.row_num + 1;
            table.pager.get_page(page_num);
            proof {
                let n = table.num_rows as int;
                assert forall|j: int| 0 <= j < n implies #[trigger] table.pager.in_file(j) by {
                    assert(old(table).pager.in_file(j));
                }
                assert forall|j: int| 0 <= j < n implies #[trigger] table.records()[j]
                    == old(table).records()[j] by {
                    assert(old(table).pager.in_file(j));
                }
                assert(table.records() =~= old(table).records());
            }
            match &table.pager.pages[page_num] {
                Some(page) => {
                    let bytes = page.row_bytes(row_offset);
                    return Some(Row::deserialize(bytes.as_slice()));
                },
                None => {
                    return None;
                },
            }
        }
        None
    }
}


/// Appending the serialized forms of valid rows to stored rows and scanning
/// gives the rows scanned before, then the appended rows in order, unchanged.
pub proof fn lemma_scan_after_appends(recs: Seq<Seq<u8>>, rows: Seq<RowView>)
    requires
        forall|i: int| 0 <= i < rows.len() ==> (#[trigger] rows[i]).is_valid(),
    ensures
        decode_all(recs + rows.map_values(|r: RowView| row_image(r))) == match decode_all(recs) {
            Ok(v) => Ok(v + rows),
            Err(e) => Err(e),
        },
    decreases rows.len(),
{
    let imgs = rows.map_values(|r: RowView| row_image(r));
    if rows.len() == 0 {
        assert(recs + imgs =~= recs);
        match decode_all(recs) {
            Ok(v) => {
                assert(v + rows =~= v);
            },
            Err(_) => {},
        }
    } else {
        let front = rows.drop_last();
        let fimgs = front.map_values(|r: RowView| row_image(r));
        assert forall|i: int| 0 <= i < front.len() implies (#[trigger] front[i]).is_valid() by {
            assert(front[i] == rows[i]);
        }
        lemma_scan_after_appends(recs, front);
        assert((recs + imgs).drop_last() =~= recs + fimgs);
        assert((recs + imgs).last() == row_image(rows.last()));
        lemma_round_trip(rows.last());
        match decode_all(recs) {
            Ok(v) => {
                assert((v + front).push(rows.last()) =~= v + rows);
            },
            Err(_) => {},
        }
    }
}

/// Opening the file that closing a table leaves gives back the same row
/// count and the same rows, in the same order.
pub proof fn lemma_reopen_after_close(t: Table)
    requires
        t.wf(),
    ensures
        ({
            let f = persisted(t.pager.file@, t.records());
            &&& (f.len() as int) / (ROW_SIZE as int) == t.num_rows
            &&& file_records(f, t.num_rows as int) == t.records()
        }),
{
    let recs = t.records();
    let n = t.num_rows as int;
    let f = persisted(t.pager.file@, recs);
    lemma_persisted_len(t.pager.file@, recs);
    assert forall|i: int| 0 <= i < n implies #[trigger] file_records(f, n)[i] == recs[i] by {
        assert(t.pager.in_file(i));
        lemma_record_len(t.pager, i);
        assert forall|k: int| 0 <= k < ROW_SIZE implies #[trigger] f[i * ROW_SIZE + k]
            == recs[i][k] by {
            lemma_fundamental_div_mod_converse(i * ROW_SIZE + k, ROW_SIZE as int, i, k);
        }
        assert(file_records(f, n)[i] =~= recs[i]);
    }
    assert(file_records(f, n) =~= recs);
}

/// Closing a table whose file held whole rows leaves a file of exactly
/// `num_rows * ROW_SIZE` bytes: a partial last page is written only as far
/// as its rows reach.
pub proof fn lemma_close_length(t: Table)
    requires
        t.wf(),
        t.pager.file@.len() % (ROW_SIZE as nat) == 0,
    ensures
        persisted(t.pager.file@, t.records()).len() == t.num_rows * ROW_SIZE,
{
    let len = t.pager.file@.len() as int;
    lemma_fundamental_div_mod_converse(len, ROW_SIZE as int, len / ROW_SIZE as int, 0);
}

} // verus!
