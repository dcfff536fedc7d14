use moseleydb::layout::{PAGE_SIZE, ROWS_PER_PAGE, ROW_SIZE, TABLE_MAX_ROWS};
use moseleydb::page::Page;
use moseleydb::pager::Pager;
use moseleydb::row::{DecodeError, Row};
use moseleydb::table::{Cursor, ExecuteError, Table};

fn row(i: u32) -> Row {
    Row { id: i, username: format!("user{}", i), email: format!("person{}@example.com", i) }
}

fn ids(rows: &[Row]) -> Vec<u32> {
    rows.iter().map(|r| r.id).collect()
}

#[test]
fn layout_constants() {
    assert_eq!(ROW_SIZE, 307);
    assert_eq!(ROWS_PER_PAGE, PAGE_SIZE / ROW_SIZE);
    assert_eq!(ROWS_PER_PAGE, 13);
    assert_eq!(TABLE_MAX_ROWS, 1300);
}

#[test]
fn scan_returns_rows_in_insertion_order() {
    let mut t = Table::db_open(Vec::new());
    for i in [5u32, 3, 9, 3] {
        t.insert(&row(i)).unwrap();
    }
    let rows = t.select().unwrap();
    assert_eq!(ids(&rows), vec![5, 3, 9, 3]);
    assert_eq!(rows[2].username, "user9");
    assert_eq!(rows[2].email, "person9@example.com");
}

#[test]
fn scan_of_empty_table() {
    let mut t = Table::db_open(Vec::new());
    assert!(t.select().unwrap().is_empty());
}

#[test]
fn full_table_refuses_and_keeps_count() {
    let mut t = Table::db_open(Vec::new());
    for i in 0..TABLE_MAX_ROWS as u32 {
        assert!(t.insert(&row(i)).is_ok());
    }
    assert_eq!(t.num_rows, TABLE_MAX_ROWS);
    assert_eq!(t.insert(&row(0)), Err(ExecuteError::TableFull));
    assert_eq!(t.num_rows, TABLE_MAX_ROWS);
    assert_eq!(ExecuteError::TableFull.message(), "Error: Table full.");
}

#[test]
fn reopen_after_close_gives_same_rows() {
    let mut t = Table::db_open(Vec::new());
    for i in 0..40u32 {
        t.insert(&row(i)).unwrap();
    }
    let before = ids(&t.select().unwrap());
    t.db_close();
    let file = t.pager.file.clone();
    assert_eq!(file.len(), 40 * ROW_SIZE);
    let mut again = Table::db_open(file);
    assert_eq!(again.num_rows, 40);
    assert_eq!(ids(&again.select().unwrap()), before);
}

#[test]
fn reopen_then_append_then_close() {
    let mut t = Table::db_open(Vec::new());
    for i in 0..15u32 {
        t.insert(&row(i)).unwrap();
    }
    t.db_close();
    let mut t = Table::db_open(t.pager.file.clone());
    t.insert(&row(100)).unwrap();
    t.db_close();
    let mut t = Table::db_open(t.pager.file.clone());
    let got = ids(&t.select().unwrap());
    let mut want: Vec<u32> = (0..15).collect();
    want.push(100);
    assert_eq!(got, want);
}

#[test]
fn close_writes_only_occupied_bytes_of_last_page() {
    let mut t = Table::db_open(Vec::new());
    for i in 0..5u32 {
        t.insert(&row(i)).unwrap();
    }
    t.db_close();
    assert_eq!(t.pager.file.len(), 5 * ROW_SIZE);
    assert_eq!(t.pager.file.len(), 1535);

    let mut t = Table::db_open(Vec::new());
    for i in 0..14u32 {
        t.insert(&row(i)).unwrap();
    }
    t.db_close();
    assert_eq!(t.pager.file.len(), 14 * ROW_SIZE);
}

#[test]
fn close_of_untouched_table_keeps_file() {
    let mut t = Table::db_open(Vec::new());
    t.insert(&row(1)).unwrap();
    t.insert(&row(2)).unwrap();
    t.db_close();
    let file = t.pager.file.clone();
    let mut t = Table::db_open(file.clone());
    t.db_close();
    assert_eq!(t.pager.file, file);
}

#[test]
fn open_ignores_trailing_partial_row() {
    let mut t = Table::db_open(Vec::new());
    t.insert(&row(1)).unwrap();
    t.insert(&row(2)).unwrap();
    t.db_close();
    let mut file = t.pager.file.clone();
    file.extend_from_slice(&[7u8; 10]);
    let mut t = Table::db_open(file);
    assert_eq!(t.num_rows, 2);
    assert_eq!(ids(&t.select().unwrap()), vec![1, 2]);
}

#[test]
fn corrupt_stored_row_is_reported() {
    let mut bytes = row(1).serialize();
    bytes[11] = 200;
    let mut t = Table::db_open(bytes);
    assert_eq!(t.select().unwrap_err(), DecodeError::LengthOutOfRange);
}

#[test]
fn cursor_walks_rows() {
    let mut t = Table::db_open(Vec::new());
    t.insert(&row(1)).unwrap();
    t.insert(&row(2)).unwrap();
    let mut c = Cursor::table_start(&t);
    assert_eq!(c.row_num, 0);
    assert!(!c.end_of_table);
    assert_eq!(c.next(&mut t).unwrap().unwrap().id, 1);
    assert_eq!(c.next(&mut t).unwrap().unwrap().id, 2);
    assert!(c.next(&mut t).is_none());
    let e = Cursor::table_end(&t);
    assert_eq!(e.row_num, 2);
    assert!(e.end_of_table);
    let empty = Table::db_open(Vec::new());
    assert!(Cursor::table_start(&empty).end_of_table);
}

#[test]
fn page_insert_places_row_at_slot() {
    let mut p = Page::new();
    assert_eq!(p.data.len(), PAGE_SIZE);
    let r = row(3);
    p.insert(&r, 2);
    assert_eq!(&p.data[2 * ROW_SIZE..3 * ROW_SIZE], r.serialize().as_slice());
    assert!(p.data[..2 * ROW_SIZE].iter().all(|&x| x == 0));
    assert_eq!(p.row_bytes(2), r.serialize());
}

#[test]
fn pager_loads_page_from_file() {
    let mut file = Vec::new();
    for i in 0..15u32 {
        file.extend_from_slice(&row(i).serialize());
    }
    let mut pager = Pager::open(file.clone());
    assert_eq!(pager.file_length(), 15 * ROW_SIZE);
    pager.get_page(1);
    let page = pager.pages[1].as_ref().unwrap();
    assert_eq!(&page.data[..2 * ROW_SIZE], &file[13 * ROW_SIZE..]);
    assert!(page.data[2 * ROW_SIZE..].iter().all(|&x| x == 0));
    pager.get_page(0);
    let page = pager.pages[0].as_ref().unwrap();
    assert_eq!(&page.data[..13 * ROW_SIZE], &file[..13 * ROW_SIZE]);
    assert!(page.data[13 * ROW_SIZE..].iter().all(|&x| x == 0));
}

#[test]
fn pager_flushes_partial_page() {
    let mut pager = Pager::open(Vec::new());
    pager.insert(0, &row(1), 0);
    pager.insert(0, &row(2), 1);
    pager.flush_page(0, Some(1));
    assert_eq!(pager.file, row(1).serialize());
    pager.flush_pages(0, 2);
    assert_eq!(pager.file.len(), 2 * ROW_SIZE);
    assert!(pager.pages[0].is_none());
}
