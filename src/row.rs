use vstd::prelude::*;
use vstd::utf8::{decode_utf8, encode_utf8, encode_utf8_decode_utf8, encode_utf8_valid_utf8, valid_utf8};
use crate::bytes::{
    be_bytes, be_value, lemma_be_bytes_len, lemma_be_round_trip, pow256, push_be, read_be,
};
use crate::layout::{
    COLUMN_EMAIL_SIZE, COLUMN_USERNAME_SIZE, EMAIL_OFFSET, EMAIL_SIZE, ID_SIZE, ROW_SIZE,
    STR_LEN_SIZE, USERNAME_OFFSET, USERNAME_SIZE,
};

verus! {

/// One record of the table.
#[derive(Debug)]
pub struct Row {
    pub id: u32,
    pub username: String,
    pub email: String,
}

/// What a row holds, as mathematical values.
pub ghost struct RowView {
    pub id: u32,
    pub username: Seq<char>,
    pub email: Seq<char>,
}

impl View for Row {
    type V = RowView;

    open spec fn view(&self) -> RowView {
        RowView { id: self.id, username: self.username@, email: self.email@ }
    }
}

/// Why stored bytes do not decode to a row.
#[derive(Debug, Clone, Copy, PartialEq, Eq, Structural)]
pub enum DecodeError {
    /// A length prefix is larger than its field.
    LengthOutOfRange,
    /// A field's bytes are not UTF-8.
    InvalidText,
}

/// The bytes that store a text.
pub open spec fn text_bytes(s: Seq<char>) -> Seq<u8> {
    encode_utf8(s)
}

impl RowView {
    /// Both texts fit their fields.
    pub open spec fn is_valid(self) -> bool {
        &&& text_bytes(self.username).len() <= COLUMN_USERNAME_SIZE
        &&& text_bytes(self.email).len() <= COLUMN_EMAIL_SIZE
    }
}

/// A text field: its length, its bytes, and zero bytes up to `cap`.
pub open spec fn field_image(text: Seq<u8>, cap: nat) -> Seq<u8> {
    be_bytes(text.len(), STR_LEN_SIZE as nat) + text + Seq::new(
        (cap - text.len()) as nat,
        |_i: int| 0u8,
    )
}

/// The serialized form of a row.
pub open spec fn row_image(r: RowView) -> Seq<u8> {
    be_bytes(r.id as nat, ID_SIZE as nat) + field_image(
        text_bytes(r.username),
        COLUMN_USERNAME_SIZE as nat,
    ) + field_image(text_bytes(r.email), COLUMN_EMAIL_SIZE as nat)
}

/// Decodes a text field of capacity `cap` from its `STR_LEN_SIZE + cap` bytes.
pub open spec fn decode_field(b: Seq<u8>, cap: nat) -> Result<Seq<char>, DecodeError> {
    let n = be_value(b.subrange(0, STR_LEN_SIZE as int));
    if n > cap {
        Err(DecodeError::LengthOutOfRange)
    } else {
        let t = b.subrange(STR_LEN_SIZE as int, STR_LEN_SIZE + n);
        if valid_utf8(t) {
            Ok(decode_utf8(t))
        } else {
            Err(DecodeError::InvalidText)
        }
    }
}

/// Decodes the `ROW_SIZE` bytes of a row: the username first, then the email.
pub open spec fn decode_row(b: Seq<u8>) -> Result<RowView, DecodeError> {
    match decode_field(
        b.subrange(USERNAME_OFFSET as int, USERNAME_OFFSET + USERNAME_SIZE),
        COLUMN_USERNAME_SIZE as nat,
    ) {
        Err(e) => Err(e),
        Ok(username) => match decode_field(
            b.subrange(EMAIL_OFFSET as int, EMAIL_OFFSET + EMAIL_SIZE),
            COLUMN_EMAIL_SIZE as nat,
        ) {
            Err(e) => Err(e),
            Ok(email) => Ok(
                RowView { id: be_value(b.subrange(0, ID_SIZE as int)) as u32, username, email },
            ),
        },
    }
}

/// The view of a decoding result.
pub open spec fn result_view(r: Result<Row, DecodeError>) -> Result<RowView, DecodeError> {
    match r {
        Ok(row) => Ok(row@),
        Err(e) => Err(e),
    }
}

pub proof fn lemma_field_image(text: Seq<u8>, cap: nat)
    requires
        text.len() <= cap,
    ensures
        field_image(text, cap).len() == STR_LEN_SIZE + cap,
        field_image(text, cap).subrange(0, STR_LEN_SIZE as int) == be_bytes(
            text.len(),
            STR_LEN_SIZE as nat,
        ),
        field_image(text, cap).subrange(STR_LEN_SIZE as int, STR_LEN_SIZE + text.len()) == text,
{
    lemma_be_bytes_len(text.len(), STR_LEN_SIZE as nat);
    let f = field_image(text, cap);
    assert(f.subrange(0, STR_LEN_SIZE as int) =~= be_bytes(text.len(), STR_LEN_SIZE as nat));
    assert(f.subrange(STR_LEN_SIZE as int, STR_LEN_SIZE + text.len()) =~= text);
}

pub proof fn lemma_decode_field_image(s: Seq<char>, cap: nat)
    requires
        text_bytes(s).len() <= cap <= 255,
    ensures
        decode_field(field_image(text_bytes(s), cap), cap) == Ok::<Seq<char>, DecodeError>(s),
{
    let t = text_bytes(s);
    lemma_field_image(t, cap);
    reveal_with_fuel(pow256, 9);
    assert(pow256(8) == 18446744073709551616);
    lemma_be_round_trip(t.len(), STR_LEN_SIZE as nat);
    encode_utf8_valid_utf8(s);
    encode_utf8_decode_utf8(s);
}

/// Serialized length is `ROW_SIZE` whatever the texts hold.
pub proof fn lemma_row_image_len(r: RowView)
    requires
        r.is_valid(),
    ensures
        row_image(r).len() == ROW_SIZE,
{
    lemma_be_bytes_len(r.id as nat, ID_SIZE as nat);
    lemma_field_image(text_bytes(r.username), COLUMN_USERNAME_SIZE as nat);
    lemma_field_image(text_bytes(r.email), COLUMN_EMAIL_SIZE as nat);
}

/// Decoding the serialized form of a valid row gives the row back.
pub proof fn lemma_round_trip(r: RowView)
    requires
        r.is_valid(),
    ensures
        decode_row(row_image(r)) == Ok::<RowView, DecodeError>(r),
{
    let ib = be_bytes(r.id as nat, ID_SIZE as nat);
    let u = field_image(text_bytes(r.username), COLUMN_USERNAME_SIZE as nat);
    let e = field_image(text_bytes(r.email), COLUMN_EMAIL_SIZE as nat);
    let b = row_image(r);
    lemma_be_bytes_len(r.id as nat, ID_SIZE as nat);
    lemma_field_image(text_bytes(r.username), COLUMN_USERNAME_SIZE as nat);
    lemma_field_image(text_bytes(r.email), COLUMN_EMAIL_SIZE as nat);
    assert(b.subrange(0, ID_SIZE as int) =~= ib);
    assert(b.subrange(USERNAME_OFFSET as int, USERNAME_OFFSET + USERNAME_SIZE) =~= u);
    assert(b.subrange(EMAIL_OFFSET as int, EMAIL_OFFSET + EMAIL_SIZE) =~= e);
    reveal_with_fuel(pow256, 5);
    lemma_be_round_trip(r.id as nat, ID_SIZE as nat);
    lemma_decode_field_image(r.username, COLUMN_USERNAME_SIZE as nat);
    lemma_decode_field_image(r.email, COLUMN_EMAIL_SIZE as nat);
}

/// Relies on `String::from_utf8`: it fails exactly on bytes that are not
/// UTF-8, and otherwise holds the text that the bytes encode.
#[verifier::external_body]
fn string_from_utf8(b: Vec<u8>) -> (r: Option<String>)
    ensures
        r is Some <==> valid_utf8(b@),
        r matches Some(s) ==> s@ == decode_utf8(b@),
{
    String::from_utf8(b).ok()
}

/// Appends a text field: its length, its bytes, then zeros up to `cap`.
fn push_field(out: &mut Vec<u8>, text: &str, cap: usize)
    requires
        text_bytes(text@).len() <= cap <= 255,
    ensures
        final(out)@ == old(out)@ + field_image(text_bytes(text@), cap as nat),
{
    let b = text.as_bytes();
    let n = b.len();
    push_be(out, n as u64, STR_LEN_SIZE);
    let ghost start = out@;
    let mut i: usize = 0;
    while i < n
        invariant
            b@ == text_bytes(text@),
            n == b@.len(),
            i <= n,
            out@ == start + b@.subrange(0, i as int),
        decreases n - i,
    {
        out.push(b[i]);
        i = i + 1;
        assert(out@ =~= start + b@.subrange(0, i as int));
    }
    let mut j: usize = n;
    while j < cap
        invariant
            n <= j <= cap,
            out@ == start + b@ + Seq::new((j - n) as nat, |_i: int| 0u8),
        decreases cap - j,
    {
        out.push(0u8);
        j = j + 1;
        assert(out@ =~= start + b@ + Seq::new((j - n) as nat, |_i: int| 0u8));
    }
    assert(out@ =~= old(out)@ + field_image(text_bytes(text@), cap as nat));
}

/// Reads a text field of capacity `cap` at `start`, honouring its length prefix.
fn read_field(b: &[u8], start: usize, cap: usize) -> (r: Result<String, DecodeError>)
    requires
        cap <= 255,
        start + STR_LEN_SIZE + cap <= b@.len(),
    ensures
        match r {
            Ok(s) => decode_field(b@.subrange(start as int, start + STR_LEN_SIZE + cap), cap as nat)
                == Ok::<Seq<char>, DecodeError>(s@),
            Err(e) => decode_field(
                b@.subrange(start as int, start + STR_LEN_SIZE + cap),
                cap as nat,
            ) == Err::<Seq<char>, DecodeError>(e),
        },
{
    let len = b.len();
    let ghost f = b@.subrange(start as int, start + STR_LEN_SIZE + cap);
    let n = read_be(b, start, STR_LEN_SIZE);
    assert(f.subrange(0, STR_LEN_SIZE as int) =~= b@.subrange(
        start as int,
        start + STR_LEN_SIZE,
    ));
    if n > cap as u64 {
        return Err(DecodeError::LengthOutOfRange);
    }
    let n = n as usize;
    let first = start + STR_LEN_SIZE;
    let mut text: Vec<u8> = Vec::new();
    let mut i: usize = 0;
    while i < n
        invariant
            i <= n <= cap,
            first == start + STR_LEN_SIZE,
            first + cap <= b@.len(),
            len == b@.len(),
            text@ == b@.subrange(first as int, first + i),
        decreases n - i,
    {
        text.push(b[first + i]);
        i = i + 1;
        assert(text@ =~= b@.subrange(first as int, first + i));
    }
    assert(f.subrange(STR_LEN_SIZE as int, STR_LEN_SIZE + n) =~= text@);
    match string_from_utf8(text) {
        Some(s) => Ok(s),
        None => Err(DecodeError::InvalidText),
    }
}

impl Row {
    /// The fixed-width form of the row: `ROW_SIZE` bytes.
    pub fn serialize(&self) -> (out: Vec<u8>)
        requires
            self@.is_valid(),
        ensures
            out@ == row_image(self@),
            out@.len() == ROW_SIZE,
    {
        let mut out: Vec<u8> = Vec::new();
        push_be(&mut out, self.id as u64, ID_SIZE);
        push_field(&mut out, self.username.as_str(), COLUMN_USERNAME_SIZE);
        push_field(&mut out, self.email.as_str(), COLUMN_EMAIL_SIZE);
        proof {
            assert(out@ =~= row_image(self@));
            lemma_row_image_len(self@);
        }
        out
    }

    /// Reads a row back from its `ROW_SIZE` bytes.
    pub fn deserialize(row: &[u8]) -> (r: Result<Row, DecodeError>)
        requires
            row@.len() == ROW_SIZE,
        ensures
            result_view(r) == decode_row(row@),
    {
        let id = read_be(row, 0, ID_SIZE);
        proof {
            lemma_be_value_bound_4(row@.subrange(0, ID_SIZE as int));
        }
        let username = match read_field(row, USERNAME_OFFSET, COLUMN_USERNAME_SIZE) {
            Ok(s) => s,
            Err(e) => {
                return Err(e);
            },
        };
        let email = match read_field(row, EMAIL_OFFSET, COLUMN_EMAIL_SIZE) {
            Ok(s) => s,
            Err(e) => {
                return Err(e);
            },
        };
        Ok(Row { id: id as u32, username, email })
    }
}

proof fn lemma_be_value_bound_4(b: Seq<u8>)
    requires
        b.len() == 4,
    ensures
        be_value(b) < 0x1_0000_0000,
{
    crate::bytes::lemma_be_value_bound(b);
    reveal_with_fuel(pow256, 5);
}

} // verus!
