//! The statements the SQL front end understands.

use vstd::prelude::*;
use crate::types::DataType;

verus! {

/// A constant written in a statement. A float literal is kept as its text.
#[derive(Debug, Clone, PartialEq)]
pub enum Consts {
    Null,
    Boolean(bool),
    Integer(i64),
    Float(String),
    String(String),
}

#[derive(Debug, Clone, PartialEq)]
pub enum Expression {
    Consts(Consts),
}

impl From<Consts> for Expression {
    fn from(c: Consts) -> (r: Expression) {
        Expression::Consts(c)
    }
}

impl vstd::std_specs::convert::FromSpecImpl<Consts> for Expression {
    open spec fn obeys_from_spec() -> bool {
        true
    }

    open spec fn from_spec(c: Consts) -> Expression {
        Expression::Consts(c)
    }
}

/// A column of a table being created.
#[derive(Debug, Clone, PartialEq)]
pub struct Column {
    pub name: String,
    pub datatype: DataType,
    pub nullable: Option<bool>,
    pub default: Option<Expression>,
}

#[derive(Debug, Clone, PartialEq)]
pub enum Statement {
    CreateTable { name: String, columns: Vec<Column> },
    Insert { table_name: String, columns: Option<Vec<String>>, values: Vec<Vec<Expression>> },
    Select { table_name: String },
}

} // verus!
