use dump_parser::Statement;
use dump_parser::list_statements;

fn only_query(units: &[Statement]) -> &dump_parser::QueryStatement {
    assert_eq!(units.len(), 1);
    match &units[0] {
        Statement::Query(q) => q,
        _ => panic!("expected a statement unit"),
    }
}

#[test]
fn single_statement_spans_whole_input() {
    let input = b"INSERT INTO public.toto;";
    let units = list_statements(input);
    let q = only_query(&units);
    assert!(q.valid);
    assert_eq!(q.start_index, 0);
    assert_eq!(q.end_index, input.len());
    assert_eq!(q.statement, input.to_vec());
}

#[test]
fn unterminated_statement_is_single_invalid_unit() {
    let input = b"INSERT INTO t VALUES ('john', 'doe'";
    let units = list_statements(input);
    let q = only_query(&units);
    assert!(!q.valid);
    assert_eq!(q.statement, input.to_vec());
}

#[test]
fn unmatched_open_paren_invalidates_statement() {
    let units = list_statements(b"INSERT INTO t VALUES ('a', 'b';");
    let q = only_query(&units);
    assert!(!q.valid);
}

#[test]
fn unmatched_close_paren_invalidates_statement() {
    let units = list_statements(b"INSERT INTO t VALUES 'a', 'b');");
    let q = only_query(&units);
    assert!(!q.valid);
}

#[test]
fn doubled_quote_does_not_close_quoted_span() {
    let units = list_statements(b"INSERT INTO t VALUES ('jo''hn');");
    let q = only_query(&units);
    assert!(q.valid);

    // the semicolons between the doubled quotes stay inside the string
    let units = list_statements(b"INSERT INTO t VALUES ('a'';b;c;d');");
    let q = only_query(&units);
    assert!(q.valid);
}

#[test]
fn double_dash_inside_quote_is_content() {
    let units = list_statements(b"INSERT INTO t VALUES ('a -- b');");
    let q = only_query(&units);
    assert!(q.valid);
    assert_eq!(q.statement, b"INSERT INTO t VALUES ('a -- b');".to_vec());
}

#[test]
fn double_dash_at_statement_start_is_comment() {
    let units = list_statements(b"-- comment\n");
    assert_eq!(units.len(), 1);
    match &units[0] {
        Statement::CommentLine(c) => {
            assert_eq!(c.statement, b"-- comment".to_vec());
            assert_eq!(c.start_index, 0);
            assert_eq!(c.end_index, 10);
        }
        _ => panic!("expected a comment unit"),
    }
}

#[test]
fn comment_then_statement() {
    let units = list_statements(b"-- hi\nSELECT 1;");
    assert_eq!(units.len(), 2);
    match &units[0] {
        Statement::CommentLine(c) => assert_eq!(c.statement, b"-- hi".to_vec()),
        _ => panic!("expected a comment unit"),
    }
    match &units[1] {
        Statement::Query(q) => {
            assert!(q.valid);
            assert_eq!(q.statement, b"SELECT 1;".to_vec());
        }
        _ => panic!("expected a statement unit"),
    }
}

#[test]
fn three_concatenated_statements_each_span_their_own_text() {
    let units = list_statements(b"INSERT INTO a;INSERT INTO b;INSERT INTO c;");
    assert_eq!(units.len(), 3);
    let expected: [&[u8]; 3] = [b"INSERT INTO a;", b"INSERT INTO b;", b"INSERT INTO c;"];
    for (k, unit) in units.iter().enumerate() {
        match unit {
            Statement::Query(q) => {
                assert!(q.valid);
                assert_eq!(q.statement, expected[k].to_vec());
                assert_eq!(q.end_index - q.start_index, expected[k].len());
            }
            _ => panic!("expected a statement unit"),
        }
    }
}

#[test]
fn blank_lines_between_statements_are_reported() {
    let units = list_statements(b"SELECT 1;\n\nSELECT 2;");
    assert_eq!(units.len(), 4);
    assert!(matches!(units[0], Statement::Query(_)));
    assert!(matches!(units[1], Statement::NewLine));
    assert!(matches!(units[2], Statement::NewLine));
    assert!(matches!(units[3], Statement::Query(_)));
}

#[test]
fn empty_chunk_yields_no_units() {
    let units = list_statements(b"");
    assert_eq!(units.len(), 0);
}
