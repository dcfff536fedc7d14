use moseleydb::statement::{MetaCommand, Statement};
use moseleydb::table::Table;

/// Runs commands the way the interactive shell does, against a file held in
/// memory, and returns the output split into lines.
fn run_script(file: &mut Vec<u8>, commands: Vec<String>) -> Vec<String> {
    let mut table = Table::db_open(file.clone());
    let mut out = String::new();
    for input in commands {
        out.push_str("db > ");
        let input = input.trim_end();
        if input.starts_with('.') {
            match MetaCommand::new(input) {
                Ok(MetaCommand::Exit) => {
                    table.db_close();
                    *file = table.pager.file.clone();
                    break;
                }
                Err(e) => {
                    out.push_str(&e.message());
                    out.push('\n');
                    continue;
                }
            }
        }
        match Statement::new(input) {
            Ok(s) => match s.execute(&mut table) {
                Ok(rows) => {
                    for r in rows {
                        out.push_str(&format!("({}, {}, {})\n", r.id, r.username, r.email));
                    }
                    out.push_str("Executed.\n");
                }
                Err(e) => {
                    out.push_str(&e.message());
                    out.push('\n');
                }
            },
            Err(e) => {
                out.push_str(&e.message());
                out.push('\n');
            }
        }
    }
    out.split('\n').map(|s| s.to_string()).collect()
}

#[test]
fn insert_and_retrieve_a_row() {
    let mut file = Vec::new();
    let commands = vec!["insert 1 user1 person1@example.com", "select", ".exit"]
        .iter()
        .map(|s| s.to_string())
        .collect();
    let out = run_script(&mut file, commands);
    assert_eq!(
        out,
        vec![
            "db > Executed.",
            "db > (1, user1, person1@example.com)",
            "Executed.",
            "db > ",
        ]
    );
}

#[test]
fn print_error_when_table_is_full() {
    let mut file = Vec::new();
    let mut commands: Vec<String> = vec![];
    for i in 1..1401 {
        commands.push(format!("insert {} user#{} person#{}@example.com", i, i, i));
    }
    commands.push(".exit".to_string());

    let out = run_script(&mut file, commands);
    assert_eq!(out[out.len() - 2], "db > Error: Table full.")
}

#[test]
fn accept_maximum_length_strings() {
    let mut file = Vec::new();
    let long_username = "a".repeat(32);
    let long_email = "a".repeat(255);
    let commands = vec![
        format!("insert 1 {} {}", long_username, long_email),
        String::from("select"),
        String::from(".exit"),
    ];

    let out = run_script(&mut file, commands);

    assert_eq!(
        out,
        vec![
            "db > Executed.",
            format!("db > (1, {}, {})", long_username, long_email).as_str(),
            "Executed.",
            "db > ",
        ]
    )
}

#[test]
fn print_error_when_strings_too_long() {
    let mut file = Vec::new();
    let long_username = "a".repeat(22);
    let long_email = "a".repeat(256);
    let commands = vec![
        format!("insert 1 {} {}", long_username, long_email),
        String::from("select"),
        String::from(".exit"),
    ];

    let out = run_script(&mut file, commands);

    assert_eq!(
        out,
        vec!["db > String is too long.", "db > Executed.", "db > ",]
    )
}

#[test]
fn print_error_when_id_negative() {
    let mut file = Vec::new();
    let out = run_script(
        &mut file,
        vec![
            "insert -1 cstack foo@bar.com".to_string(),
            "select".to_string(),
            ".exit".to_string(),
        ],
    );

    assert_eq!(
        out,
        vec!["db > ID must be positive.", "db > Executed.", "db > ",]
    )
}

#[test]
fn keep_data_after_closing_connection() {
    let mut file = Vec::new();
    let result1 = run_script(
        &mut file,
        vec![
            "insert 1 user1 person1@example.com".to_string(),
            ".exit".to_string(),
        ],
    );

    assert_eq!(result1, vec!["db > Executed.", "db > ",]);

    let result2 = run_script(&mut file, vec!["select".to_string(), ".exit".to_string()]);

    assert_eq!(
        result2,
        vec!["db > (1, user1, person1@example.com)", "Executed.", "db > ",]
    );
}

#[test]
fn unknown_meta_command_is_reported() {
    let mut file = Vec::new();
    let out = run_script(&mut file, vec![".tables".to_string(), ".exit".to_string()]);
    assert_eq!(out, vec!["db > Unrecognized command '.tables'.", "db > "]);
}

#[test]
fn unknown_keyword_is_reported() {
    let mut file = Vec::new();
    let out = run_script(&mut file, vec!["delete 1".to_string(), ".exit".to_string()]);
    assert_eq!(
        out,
        vec!["db > Unrecognized keyword at start of 'delete 1'.", "db > "]
    );
}

#[test]
fn malformed_insert_is_a_syntax_error() {
    let mut file = Vec::new();
    let out = run_script(&mut file, vec!["insert 1 onlyname".to_string(), ".exit".to_string()]);
    assert_eq!(
        out,
        vec!["db > Syntax error. Could not parse statement.", "db > "]
    );
}
