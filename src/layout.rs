use vstd::prelude::*;

verus! {

/// Largest username, in bytes of UTF-8.
pub const COLUMN_USERNAME_SIZE: usize = 32;

/// Largest email, in bytes of UTF-8.
pub const COLUMN_EMAIL_SIZE: usize = 255;

/// Width of the id field.
pub const ID_SIZE: usize = 4;

/// Width of each length prefix; fixed so that files do not depend on the host.
pub const STR_LEN_SIZE: usize = 8;

/// Width of the username field: its length prefix and its padded bytes.
pub const USERNAME_SIZE: usize = 40;

/// Width of the email field: its length prefix and its padded bytes.
pub const EMAIL_SIZE: usize = 263;

pub const ID_OFFSET: usize = 0;

pub const USERNAME_OFFSET: usize = 4;

pub const EMAIL_OFFSET: usize = 44;

/// Bytes of one serialized row.
pub const ROW_SIZE: usize = 307;

/// Bytes of one in-memory page.
pub const PAGE_SIZE: usize = 4096;

pub const TABLE_MAX_PAGES: usize = 100;

/// Rows packed into one page: `PAGE_SIZE / ROW_SIZE`.
pub const ROWS_PER_PAGE: usize = 13;

/// Bytes of a page that hold rows; the rest of the page is never stored.
pub const PAGE_ROWS_SIZE: usize = 3991;

/// Capacity of the table: `ROWS_PER_PAGE * TABLE_MAX_PAGES`.
pub const TABLE_MAX_ROWS: usize = 1300;

/// How the sizes and offsets above follow from one another.
pub proof fn lemma_layout_consistent()
    ensures
        USERNAME_SIZE == STR_LEN_SIZE + COLUMN_USERNAME_SIZE,
        EMAIL_SIZE == STR_LEN_SIZE + COLUMN_EMAIL_SIZE,
        USERNAME_OFFSET == ID_OFFSET + ID_SIZE,
        EMAIL_OFFSET == USERNAME_OFFSET + USERNAME_SIZE,
        ROW_SIZE == ID_SIZE + USERNAME_SIZE + EMAIL_SIZE,
        ROWS_PER_PAGE == PAGE_SIZE / ROW_SIZE,
        PAGE_ROWS_SIZE == ROWS_PER_PAGE * ROW_SIZE,
        PAGE_ROWS_SIZE <= PAGE_SIZE,
        TABLE_MAX_ROWS == ROWS_PER_PAGE * TABLE_MAX_PAGES,
{
}

} // verus!
