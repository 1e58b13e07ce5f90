use sharkdb::ast::{Column, Consts, Expression, Statement};
use sharkdb::error::Error;
use sharkdb::parser::{parse_integer, Parser};
use sharkdb::types::DataType;

#[test]
fn test_parse_create_table() -> Result<(), Error> {
    let sql = "
            Create table tbl1 (
                a int default 100,
                b float not null,
                c varchar null,
                d bool default true
            );
        ";
    let stmt = Parser::new(sql).parse()?;
    let expected_stmt = Statement::CreateTable {
        name: "tbl1".to_string(),
        columns: vec![
            Column {
                name: "a".to_string(),
                datatype: DataType::Integer,
                nullable: None,
                default: Some(Consts::Integer(100).into()),
            },
            Column {
                name: "b".to_string(),
                datatype: DataType::Float,
                nullable: Some(false),
                default: None,
            },
            Column {
                name: "c".to_string(),
                datatype: DataType::String,
                nullable: Some(true),
                default: None,
            },
            Column {
                name: "d".to_string(),
                datatype: DataType::Boolean,
                nullable: None,
                default: Some(Consts::Boolean(true).into()),
            },
        ],
    };
    assert_eq!(stmt, expected_stmt);
    Ok(())
}

#[test]
fn test_parser_insert() -> Result<(), Error> {
    let sql1 = "insert into tbl1 values (1, 2, 3, 'a', true);";
    let stmt1 = Parser::new(sql1).parse()?;
    assert_eq!(
        stmt1,
        Statement::Insert {
            table_name: "tbl1".to_string(),
            columns: None,
            values: vec![vec![
                Consts::Integer(1).into(),
                Consts::Integer(2).into(),
                Consts::Integer(3).into(),
                Consts::String("a".to_string()).into(),
                Consts::Boolean(true).into(),
            ]],
        }
    );

    let sql2 = "insert into tbl2 (c1, c2, c3) values (3, 'a', true),(4, 'b', false);";
    let stmt2 = Parser::new(sql2).parse()?;
    assert_eq!(
        stmt2,
        Statement::Insert {
            table_name: "tbl2".to_string(),
            columns: Some(vec!["c1".to_string(), "c2".to_string(), "c3".to_string()]),
            values: vec![
                vec![
                    Consts::Integer(3).into(),
                    Consts::String("a".to_string()).into(),
                    Consts::Boolean(true).into(),
                ],
                vec![
                    Consts::Integer(4).into(),
                    Consts::String("b".to_string()).into(),
                    Consts::Boolean(false).into(),
                ],
            ],
        }
    );

    Ok(())
}

#[test]
fn test_parser_select() -> Result<(), Error> {
    let sql = "select * from tbl1;";
    let stmt = Parser::new(sql).parse()?;
    assert_eq!(
        stmt,
        Statement::Select {
            table_name: "tbl1".to_string()
        }
    );
    Ok(())
}

#[test]
fn parser_requires_semicolon_and_nothing_after() {
    assert_eq!(Parser::new("select * from t").parse(), Err(Error::Parse));
    assert_eq!(Parser::new("select * from t; select").parse(), Err(Error::Parse));
}

#[test]
fn parser_reports_lexer_errors() {
    assert_eq!(Parser::new("select * from t; $").parse(), Err(Error::Parse));
}

#[test]
fn parser_float_literal_keeps_its_text() {
    let stmt = Parser::new("insert into t values (4.55, null);").parse().unwrap();
    assert_eq!(
        stmt,
        Statement::Insert {
            table_name: "t".to_string(),
            columns: None,
            values: vec![vec![
                Expression::Consts(Consts::Float("4.55".to_string())),
                Expression::Consts(Consts::Null),
            ]],
        }
    );
}

#[test]
fn parser_rejects_unknown_column_modifier() {
    assert_eq!(
        Parser::new("create table t (a int primary key);").parse(),
        Err(Error::Parse)
    );
}

#[test]
fn parser_integer_overflow_is_an_error() {
    assert_eq!(
        Parser::new("insert into t values (9223372036854775808);").parse(),
        Err(Error::Parse)
    );
    assert_eq!(parse_integer("9223372036854775807"), Some(i64::MAX));
    assert_eq!(parse_integer("9223372036854775808"), None);
    assert_eq!(parse_integer("0042"), Some(42));
}
