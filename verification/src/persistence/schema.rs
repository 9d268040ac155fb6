//! The name of a table and its columns, and the text built from them.
//!
//! At least one column must be added before any of the reading functions is called.

use crate::logic::text::{ends_with_char, joined};
use vstd::prelude::*;

verus! {

/// A table name and its columns, the first of which is the key column.
#[derive(Debug)]
pub struct Schema {
    name: String,
    columns: Vec<String>,
}

/// `clause` followed by `column`, with a separator unless `clause` ends in an opening bracket.
pub open spec fn list_step(clause: Seq<char>, column: Seq<char>) -> Seq<char> {
    if clause.len() > 0 && clause[clause.len() - 1] == '(' {
        clause + column
    } else {
        clause + ", "@ + column
    }
}

/// `start` followed by each of `columns` as `list_step` adds them.
pub open spec fn listed(start: Seq<char>, columns: Seq<Seq<char>>) -> Seq<char>
    decreases columns.len(),
{
    if columns.len() == 0 {
        start
    } else {
        list_step(listed(start, columns.drop_last()), columns.last())
    }
}

impl Schema {
    /// The table name.
    pub closed spec fn table(&self) -> Seq<char> {
        self.name@
    }

    /// The column names, in order.
    pub closed spec fn column_names(&self) -> Seq<Seq<char>> {
        self.columns@.map_values(|c: String| c@)
    }

    /// A table without columns.
    pub fn new(name: &str) -> (r: Self)
        ensures
            r.table() == name@,
            r.column_names() == Seq::<Seq<char>>::empty(),
    {
        let r = Self { name: name.to_owned(), columns: Vec::new() };
        proof {
            assert(r.column_names() =~= Seq::<Seq<char>>::empty());
        }
        r
    }

    /// The same table with `column` added last.
    pub fn column(self, column: &str) -> (r: Self)
        ensures
            r.table() == self.table(),
            r.column_names() == self.column_names().push(column@),
    {
        let ghost before = self.column_names();
        let mut schema = self;
        schema.columns.push(column.to_owned());
        proof {
            assert(schema.column_names() =~= before.push(column@));
        }
        schema
    }

    /// The table name.
    pub fn name(&self) -> (r: &str)
        ensures
            r@ == self.table(),
    {
        self.name.as_str()
    }

    /// The columns, of which there must be at least one.
    pub fn columns(&self) -> (r: &Vec<String>)
        requires
            self.column_names().len() > 0,
        ensures
            r@.map_values(|c: String| c@) == self.column_names(),
    {
        &self.columns
    }

    /// The column names separated by commas.
    pub fn columns_string(&self) -> (r: String)
        requires
            self.column_names().len() > 0,
        ensures
            r@ == joined(self.column_names(), ", "@),
    {
        let ghost cols = self.column_names();
        let mut columns = self.columns[0].clone();
        let n = self.columns.len();
        let mut i: usize = 1;
        proof {
            assert(cols.take(1).drop_last() =~= Seq::<Seq<char>>::empty());
            assert(joined(cols.take(1), ", "@) == cols[0]);
        }
        while i < n
            invariant
                cols == self.column_names(),
                n == cols.len(),
                1 <= i <= n,
                columns@ == joined(cols.take(i as int), ", "@),
            decreases n - i,
        {
            columns.append(", ");
            columns.append(self.columns[i].as_str());
            proof {
                assert(cols.take(i + 1).drop_last() =~= cols.take(i as int));
                assert(cols.take(i + 1).last() == cols[i as int]);
            }
            i = i + 1;
        }
        proof {
            assert(cols.take(n as int) =~= cols);
        }
        columns
    }

    /// The table name followed by every column but the first, in brackets,
    /// as an insert statement names them when the key is assigned automatically.
    pub fn get_autoinsert_statement(&self) -> (r: String)
        requires
            self.column_names().len() > 0,
        ensures
            r@ == listed(self.table() + " ("@, self.column_names().drop_first()) + ")"@,
    {
        let ghost cols = self.column_names().drop_first();
        let ghost start = self.table() + " ("@;
        let mut clause = self.name.clone();
        clause.append(" (");
        let n = self.columns.len();
        let mut i: usize = 1;
        proof {
            assert(cols.take(0) =~= Seq::<Seq<char>>::empty());
        }
        while i < n
            invariant
                cols == self.column_names().drop_first(),
                n == self.column_names().len(),
                1 <= i <= n,
                start == self.table() + " ("@,
                clause@ == listed(start, cols.take(i - 1)),
            decreases n - i,
        {
            if !ends_with_char(clause.as_str(), '(') {
                clause.append(", ");
            }
            clause.append(self.columns[i].as_str());
            proof {
                assert(cols.take(i as int).drop_last() =~= cols.take(i - 1));
                assert(cols.take(i as int).last() == self.column_names()[i as int]);
            }
            i = i + 1;
        }
        clause.append(")");
        proof {
            assert(cols.take(n - 1) =~= cols);
        }
        clause
    }
}

} // verus!
