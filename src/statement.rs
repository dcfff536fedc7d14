use vstd::prelude::*;
use crate::layout::{COLUMN_EMAIL_SIZE, COLUMN_USERNAME_SIZE};
use crate::row::{decode_row, lemma_round_trip, row_image, text_bytes, DecodeError, Row, RowView};
use crate::table::{decode_all, rows_view, ExecuteError, Table};
use crate::text::{all_digits, digits_at_most, digits_value, is_prefix, same_text, starts_with};

verus! {

/// What `regex::Regex::new(pattern)` followed by `captures(haystack)` gives:
/// `None` where the pattern does not compile or does not match, else each
/// group's text, group 0 first, `None` for a group that took no part.
pub uninterp spec fn regex_captures(pattern: Seq<char>, haystack: Seq<char>) -> Option<
    Seq<Option<Seq<char>>>,
>;

/// The views of the groups of a match.
pub open spec fn groups_view(g: Seq<Option<String>>) -> Seq<Option<Seq<char>>> {
    g.map_values(
        |o: Option<String>|
            match o {
                Some(s) => Some(s@),
                None => None,
            },
    )
}

/// Relies on `regex::Regex::new` and `regex::Regex::captures`: the groups of
/// the leftmost match of `pattern` in `haystack`, which depend on the two
/// texts alone.
#[verifier::external_body]
fn capture_groups(pattern: &str, haystack: &str) -> (r: Option<Vec<Option<String>>>)
    ensures
        regex_captures(pattern@, haystack@) == match r {
            Some(g) => Some(groups_view(g@)),
            None => None,
        },
{
    let re = regex::Regex::new(pattern).ok()?;
    let caps = re.captures(haystack)?;
    Some(caps.iter().map(|m| m.map(|m| m.as_str().to_string())).collect())
}

/// The command `insert <id> <username> <email>`.
pub open spec fn insert_pattern() -> Seq<char> {
    "^insert\\s(.+)\\s(.+)\\s(.+)$"@
}

/// Why a command is not a statement.
#[derive(Debug)]
pub enum StatementError {
    UnrecognizedKeyword(String),
    SyntaxError,
    StringTooLong,
    NegativeId,
}

/// What `str::parse::<u32>` accepts: an optional `+`, then decimal digits
/// that spell at most `u32::MAX`.
pub open spec fn parse_u32(s: Seq<char>) -> Option<u32> {
    let d = if s.len() > 0 && s[0] == '+' {
        s.drop_first()
    } else {
        s
    };
    if all_digits(d) && digits_value(d) <= u32::MAX {
        Some(digits_value(d) as u32)
    } else {
        None
    }
}

/// What `str::parse::<i32>` reads as a negative number: `-` then digits
/// that spell a value from 1 to 2^31.
pub open spec fn is_negative_i32(s: Seq<char>) -> bool {
    &&& s.len() > 0
    &&& s[0] == '-'
    &&& all_digits(s.drop_first())
    &&& 0 < digits_value(s.drop_first()) <= 0x8000_0000
}

/// The row that three fields make, or why they make none.
pub open spec fn fields_outcome(id: Seq<char>, username: Seq<char>, email: Seq<char>) -> Result<
    RowView,
    StatementError,
> {
    match parse_u32(id) {
        Some(n) => if text_bytes(username).len() > COLUMN_USERNAME_SIZE || text_bytes(email).len()
            > COLUMN_EMAIL_SIZE {
            Err(StatementError::StringTooLong)
        } else {
            Ok(RowView { id: n, username, email })
        },
        None => if is_negative_i32(id) {
            Err(StatementError::NegativeId)
        } else {
            Err(StatementError::SyntaxError)
        },
    }
}

/// The row that the groups of a match make, or why they make none.
pub open spec fn insert_outcome(caps: Option<Seq<Option<Seq<char>>>>) -> Result<
    RowView,
    StatementError,
> {
    match caps {
        Some(g) => if g.len() >= 4 && g[1] is Some && g[2] is Some && g[3] is Some {
            fields_outcome(g[1]->Some_0, g[2]->Some_0, g[3]->Some_0)
        } else {
            Err(StatementError::SyntaxError)
        },
        None => Err(StatementError::SyntaxError),
    }
}

/// The view of a parsing result.
pub open spec fn parsed_view(r: Result<Row, StatementError>) -> Result<RowView, StatementError> {
    match r {
        Ok(row) => Ok(row@),
        Err(e) => Err(e),
    }
}

fn parse_id(s: &str) -> (r: Option<u32>)
    ensures
        r == parse_u32(s@),
{
    let start: usize = if s.unicode_len() > 0 && s.get_char(0) == '+' {
        1
    } else {
        0
    };
    proof {
        if start == 1 {
            assert(s@.skip(1) =~= s@.drop_first());
        } else {
            assert(s@.skip(0) =~= s@);
        }
    }
    match digits_at_most(s, start, 0xffff_ffff) {
        Some(v) => Some(v as u32),
        None => None,
    }
}

fn is_negative_id(s: &str) -> (r: bool)
    ensures
        r == is_negative_i32(s@),
{
    if s.unicode_len() == 0 || s.get_char(0) != '-' {
        return false;
    }
    proof {
        assert(s@.skip(1) =~= s@.drop_first());
    }
    match digits_at_most(s, 1, 0x8000_0000) {
        Some(v) => v > 0,
        None => false,
    }
}

impl Row {
    /// The row that an id, a username and an email make. The id must read as
    /// a `u32`; where it reads as a negative `i32` instead the error says so.
    /// The username may take `COLUMN_USERNAME_SIZE` bytes and the email
    /// `COLUMN_EMAIL_SIZE`.
    pub fn from_fields(id: &str, username: &str, email: &str) -> (r: Result<Row, StatementError>)
        ensures
            parsed_view(r) == fields_outcome(id@, username@, email@),
            r matches Ok(row) ==> row@.is_valid(),
    {
        match parse_id(id) {
            Some(n) => {
                if username.as_bytes().len() > COLUMN_USERNAME_SIZE || email.as_bytes().len() > COLUMN_EMAIL_SIZE {
                    Err(StatementError::StringTooLong)
                } else {
                    Ok(Row { id: n, username: username.to_owned(), email: email.to_owned() })
                }
            },
            None => {
                if is_negative_id(id) {
                    Err(StatementError::NegativeId)
                } else {
                    Err(StatementError::SyntaxError)
                }
            },
        }
    }

    /// Reads the row of a command `insert <id> <username> <email>`.
    pub fn from_str(s: &str) -> (r: Result<Row, StatementError>)
        ensures
            parsed_view(r) == insert_outcome(regex_captures(insert_pattern(), s@)),
            r matches Ok(row) ==> row@.is_valid(),
    {
        let pattern = "^insert\\s(.+)\\s(.+)\\s(.+)$";
        match capture_groups(pattern, s) {
            Some(groups) => {
                if groups.len() >= 4 {
                    match (&groups[1], &groups[2], &groups[3]) {
                        (Some(id), Some(username), Some(email)) => Row::from_fields(
                            id.as_str(),
                            username.as_str(),
                            email.as_str(),
                        ),
                        _ => Err(StatementError::SyntaxError),
                    }
                } else {
                    Err(StatementError::SyntaxError)
                }
            },
            None => Err(StatementError::SyntaxError),
        }
    }
}


/// A command that starts with `.`.
#[derive(Debug, Clone, Copy, PartialEq, Eq, Structural)]
pub enum MetaCommand {
    Exit,
}

/// Why a command that starts with `.` is not a known one.
#[derive(Debug)]
pub enum MetaCommandError {
    UnrecognizedCommand(String),
}

impl MetaCommand {
    /// `.exit` is the one meta-command.
    pub fn new(input: &str) -> (r: Result<MetaCommand, MetaCommandError>)
        ensures
            input@ == ".exit"@ ==> r == Ok::<MetaCommand, MetaCommandError>(MetaCommand::Exit),
            input@ != ".exit"@ ==> (r matches Err(MetaCommandError::UnrecognizedCommand(s))
                && s@ == input@),
    {
        if same_text(input, ".exit") {
            Ok(MetaCommand::Exit)
        } else {
            Err(MetaCommandError::UnrecognizedCommand(input.to_owned()))
        }
    }
}

impl MetaCommandError {
    /// The text shown for the error.
    pub fn message(&self) -> (r: String)
        ensures
            match self {
                MetaCommandError::UnrecognizedCommand(s) => r@ == "Unrecognized command '"@ + s@
                    + "'."@,
            },
    {
        match self {
            MetaCommandError::UnrecognizedCommand(s) => {
                let mut m = String::from_str("Unrecognized command '");
                m.append(s.as_str());
                m.append("'.");
                m
            },
        }
    }
}

impl StatementError {
    /// The text shown for the error.
    pub fn message(&self) -> (r: String)
        ensures
            match self {
                StatementError::UnrecognizedKeyword(s) => r@ == "Unrecognized keyword at start of '"@
                    + s@ + "'."@,
                StatementError::SyntaxError => r@ == "Syntax error. Could not parse statement."@,
                StatementError::StringTooLong => r@ == "String is too long."@,
                StatementError::NegativeId => r@ == "ID must be positive."@,
            },
    {
        match self {
            StatementError::UnrecognizedKeyword(s) => {
                let mut m = String::from_str("Unrecognized keyword at start of '");
                m.append(s.as_str());
                m.append("'.");
                m
            },
            StatementError::SyntaxError => String::from_str("Syntax error. Could not parse statement."),
            StatementError::StringTooLong => String::from_str("String is too long."),
            StatementError::NegativeId => String::from_str("ID must be positive."),
        }
    }
}

impl ExecuteError {
    /// The text shown for the error.
    pub fn message(&self) -> (r: String)
        ensures
            *self == ExecuteError::TableFull ==> r@ == "Error: Table full."@,
            self is Corrupt ==> r@ == "Error: a stored row is corrupt."@,
    {
        match self {
            ExecuteError::TableFull => String::from_str("Error: Table full."),
            ExecuteError::Corrupt(_) => String::from_str("Error: a stored row is corrupt."),
        }
    }
}

/// A statement for the table.
#[derive(Debug)]
pub enum Statement {
    Insert(Row),
    Select(String),
}

impl Statement {
    /// An insert carries a row that fits its fields.
    pub open spec fn wf(&self) -> bool {
        self matches Statement::Insert(row) ==> row@.is_valid()
    }

    /// Reads a statement: `insert ...` or `select ...`, by its first word.
    pub fn new(input: &str) -> (r: Result<Statement, StatementError>)
        ensures
            r matches Ok(st) ==> st.wf(),
            is_prefix("insert"@, input@) ==> match r {
                Ok(Statement::Insert(row)) => insert_outcome(regex_captures(insert_pattern(), input@))
                    == Ok::<RowView, StatementError>(row@),
                Ok(Statement::Select(_)) => false,
                Err(e) => insert_outcome(regex_captures(insert_pattern(), input@)) == Err::<
                    RowView,
                    StatementError,
                >(e),
            },
            !is_prefix("insert"@, input@) && is_prefix("select"@, input@) ==> (r matches Ok(
                Statement::Select(s),
            ) && s@ == input@),
            !is_prefix("insert"@, input@) && !is_prefix("select"@, input@) ==> (r matches Err(
                StatementError::UnrecognizedKeyword(s),
            ) && s@ == input@),
    {
        if starts_with(input, "insert") {
            match Row::from_str(input) {
                Ok(row) => Ok(Statement::Insert(row)),
                Err(e) => Err(e),
            }
        } else if starts_with(input, "select") {
            Ok(Statement::Select(input.to_owned()))
        } else {
            Err(StatementError::UnrecognizedKeyword(input.to_owned()))
        }
    }

    /// Carries the statement out: an insert appends its row and gives no rows
    /// back; a select gives every row in order.
    pub fn execute(&self, table: &mut Table) -> (r: Result<Vec<Row>, ExecuteError>)
        requires
            old(table).wf(),
            self.wf(),
        ensures
            final(table).wf(),
            final(table).pager.file@ == old(table).pager.file@,
            match self {
                Statement::Insert(row) => {
                    &&& old(table).num_rows == crate::layout::TABLE_MAX_ROWS ==> (r matches Err(
                        ExecuteError::TableFull,
                    ) && *final(table) == *old(table))
                    &&& old(table).num_rows < crate::layout::TABLE_MAX_ROWS ==> (r matches Ok(rows)
                        && rows@.len() == 0 && final(table).records() == old(table).records().push(
                        crate::row::row_image(row@),
                    ))
                },
                Statement::Select(_) => {
                    &&& final(table).records() == old(table).records()
                    &&& match r {
                        Ok(rows) => decode_all(old(table).records()) == Ok::<
                            Seq<RowView>,
                            DecodeError,
                        >(rows_view(rows@)),
                        Err(ExecuteError::Corrupt(e)) => decode_all(old(table).records()) == Err::<
                            Seq<RowView>,
                            DecodeError,
                        >(e),
                        Err(ExecuteError::TableFull) => false,
                    }
                },
            },
    {
        match self {
            Statement::Insert(row) => match table.insert(row) {
                Ok(()) => Ok(Vec::new()),
                Err(e) => Err(e),
            },
            Statement::Select(_) => match table.select() {
                Ok(rows) => Ok(rows),
                Err(e) => Err(ExecuteError::Corrupt(e)),
            },
        }
    }
}

/// Where the id reads as a `u32`, a username of at most `COLUMN_USERNAME_SIZE`
/// bytes and an email of at most `COLUMN_EMAIL_SIZE` bytes make a row that
/// comes back unchanged from its stored form; one byte more in either field
/// is refused as too long.
pub proof fn lemma_field_boundary(id: Seq<char>, username: Seq<char>, email: Seq<char>)
    requires
        parse_u32(id) is Some,
    ensures
        text_bytes(username).len() <= COLUMN_USERNAME_SIZE && text_bytes(email).len()
            <= COLUMN_EMAIL_SIZE ==> ({
            let r = fields_outcome(id, username, email);
            &&& r is Ok
            &&& r->Ok_0.username == username && r->Ok_0.email == email
            &&& decode_row(row_image(r->Ok_0)) == Ok::<RowView, DecodeError>(r->Ok_0)
        }),
        text_bytes(username).len() > COLUMN_USERNAME_SIZE || text_bytes(email).len()
            > COLUMN_EMAIL_SIZE ==> fields_outcome(id, username, email)
            == Err::<RowView, StatementError>(StatementError::StringTooLong),
{
    let r = fields_outcome(id, username, email);
    if r is Ok {
        lemma_round_trip(r->Ok_0);
    }
}

} // verus!
