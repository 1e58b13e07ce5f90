use sharkdb::error::Error;
use sharkdb::lexer::{Keyword, Lexer, Token};

#[test]
fn test_lexer_create_table() -> Result<(), Error> {
    let sql_text = r#"
            create table tbl (
                id1 int primary key,
                id2 integer
            );
        "#;

    let tokens = Lexer::new(sql_text).tokens()?;

    assert_eq!(
        tokens,
        vec![
            Token::Keyword(Keyword::Create),
            Token::Keyword(Keyword::Table),
            Token::Ident("tbl".to_string()),
            Token::OpenParen,
            Token::Ident("id1".to_string()),
            Token::Keyword(Keyword::Int),
            Token::Keyword(Keyword::Primary),
            Token::Keyword(Keyword::Key),
            Token::Comma,
            Token::Ident("id2".to_string()),
            Token::Keyword(Keyword::Integer),
            Token::CloseParen,
            Token::Semicolon,
        ]
    );

    let sql_text = r#"
            CREATE table tbl (
                id1 int primary key,
                id2 integer,
                c1 bool null,
                c2 boolean not null,
                c3 float null,
                c4 double,
                c5 string,
                c6 text,
                c7 varchar default 'foo',
                c8 int default 100,
                c9 integer
            );
        "#;

    let tokens2: Vec<Token> = Lexer::new(sql_text).tokens()?;
    assert!(tokens2.len() > 0);
    Ok(())
}

#[test]
fn test_lexer_insert_into() -> Result<(), Error> {
    let tokens1: Vec<Token> =
        Lexer::new("insert into tbl values (1, 2, '3', true, false, 4.55)").tokens()?;

    assert_eq!(
        tokens1,
        vec![
            Token::Keyword(Keyword::Insert),
            Token::Keyword(Keyword::Into),
            Token::Ident("tbl".to_string()),
            Token::Keyword(Keyword::Values),
            Token::OpenParen,
            Token::Number("1".to_string()),
            Token::Comma,
            Token::Number("2".to_string()),
            Token::Comma,
            Token::String("3".to_string()),
            Token::Comma,
            Token::Keyword(Keyword::True),
            Token::Comma,
            Token::Keyword(Keyword::False),
            Token::Comma,
            Token::Number("4.55".to_string()),
            Token::CloseParen,
        ]
    );

    let tokens2: Vec<Token> =
        Lexer::new("INSERT INTO       tbl (id, name, age) VALUES (100, 'db', 10);").tokens()?;

    assert_eq!(
        tokens2,
        vec![
            Token::Keyword(Keyword::Insert),
            Token::Keyword(Keyword::Into),
            Token::Ident("tbl".to_string()),
            Token::OpenParen,
            Token::Ident("id".to_string()),
            Token::Comma,
            Token::Ident("name".to_string()),
            Token::Comma,
            Token::Ident("age".to_string()),
            Token::CloseParen,
            Token::Keyword(Keyword::Values),
            Token::OpenParen,
            Token::Number("100".to_string()),
            Token::Comma,
            Token::String("db".to_string()),
            Token::Comma,
            Token::Number("10".to_string()),
            Token::CloseParen,
            Token::Semicolon,
        ]
    );

    Ok(())
}

#[test]
fn test_lexer_select() -> Result<(), Error> {
    let tokens1: Vec<Token> = Lexer::new("select * from tbl;").tokens()?;

    assert_eq!(
        tokens1,
        vec![
            Token::Keyword(Keyword::Select),
            Token::Asterisk,
            Token::Keyword(Keyword::From),
            Token::Ident("tbl".to_string()),
            Token::Semicolon,
        ]
    );

    Ok(())
}

#[test]
fn lexer_rejects_unterminated_string() {
    assert_eq!(Lexer::new("select 'abc").tokens(), Err(Error::Parse));
}

#[test]
fn lexer_rejects_unknown_character() {
    assert_eq!(Lexer::new("select $ from t;").tokens(), Err(Error::Parse));
}

#[test]
fn lexer_lowercases_identifiers_and_reads_keywords_in_any_case() {
    let tokens = Lexer::new("SeLeCt FooBar").tokens().unwrap();
    assert_eq!(
        tokens,
        vec![Token::Keyword(Keyword::Select), Token::Ident("foobar".to_string())]
    );
}

#[test]
fn lexer_number_with_point_and_no_fraction() {
    let tokens = Lexer::new("12. 7").tokens().unwrap();
    assert_eq!(
        tokens,
        vec![Token::Number("12.".to_string()), Token::Number("7".to_string())]
    );
}

#[test]
fn keyword_from_str_and_to_str() {
    assert_eq!(Keyword::from_str("create"), Some(Keyword::Create));
    assert_eq!(Keyword::from_str("VarChar"), Some(Keyword::Varchar));
    assert_eq!(Keyword::from_str("bool"), Some(Keyword::Bool));
    assert_eq!(Keyword::from_str("tbl"), None);
    assert_eq!(Keyword::from_upper("SELECT"), Some(Keyword::Select));
    assert_eq!(Keyword::from_upper("select"), None);
    assert_eq!(Keyword::Create.to_str(), "CREATE");
    assert_eq!(Keyword::Bool.to_str(), "Bool");
}

#[test]
fn whitespace_agrees_with_std() {
    for u in 0u32..=0x10FFFF {
        if let Some(c) = char::from_u32(u) {
            assert_eq!(sharkdb::lexer::is_whitespace(c), c.is_whitespace(), "{:?}", c);
        }
    }
}
