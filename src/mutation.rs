//! The insert statement, ready to run.

use vstd::prelude::*;
use crate::ast::Expression;

verus! {

/// Rows to insert into a table, with the columns they give (all, in order,
/// where none are named).
pub struct Insert {
    pub table_name: String,
    pub columns: Vec<String>,
    pub values: Vec<Vec<Expression>>,
}

impl Insert {
    pub fn new(table_name: String, columns: Vec<String>, values: Vec<Vec<Expression>>) -> (r: Box<Self>)
        ensures
            r.table_name == table_name,
            r.columns == columns,
            r.values == values,
    {
        Box::new(Insert { table_name, columns, values })
    }
}

} // verus!
