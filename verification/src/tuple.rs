//! Row storage: column descriptions and the cell codecs built on them.

pub mod tuple;
pub mod types;
pub mod varint;

use vstd::prelude::*;

verus! {

/// The types a column can have.
#[derive(Debug, Clone, Copy, PartialEq, Eq, Structural)]
pub enum ColumnType {
    Bool,
    Int32,
    Int64,
    Float32,
    Float64,
    /// A string of this many bytes.
    FixedString(u16),
    /// A string behind its length.
    VarString,
}

impl ColumnType {
    /// The number of bytes a value of the type takes, `None` where the
    /// values of the type differ in length.
    pub fn fixed_size(&self) -> (size: Option<usize>)
        ensures
            size == (match *self {
                ColumnType::Bool => Some(1usize),
                ColumnType::Int32 => Some(4usize),
                ColumnType::Int64 => Some(8usize),
                ColumnType::Float32 => Some(4usize),
                ColumnType::Float64 => Some(8usize),
                ColumnType::FixedString(len) => Some(len as usize),
                ColumnType::VarString => None,
            }),
    {
        match self {
            ColumnType::Bool => Some(1),
            ColumnType::Int32 => Some(4),
            ColumnType::Int64 => Some(8),
            ColumnType::Float32 => Some(4),
            ColumnType::Float64 => Some(8),
            ColumnType::FixedString(len) => Some(*len as usize),
            ColumnType::VarString => None,
        }
    }
}

/// One column of a row.
#[derive(Debug)]
pub struct ColumnDescriptor {
    pub name: String,
    pub column_type: ColumnType,
    pub nullable: bool,
}

impl Clone for ColumnDescriptor {
    fn clone(&self) -> (res: Self)
        ensures
            res.name@ == self.name@,
            res.column_type == self.column_type,
            res.nullable == self.nullable,
    {
        ColumnDescriptor {
            name: self.name.clone(),
            column_type: self.column_type,
            nullable: self.nullable,
        }
    }
}

/// The columns of a row, in order.
#[derive(Debug)]
pub struct TupleDescriptor {
    pub columns: Vec<ColumnDescriptor>,
}

impl TupleDescriptor {
    /// A row without columns.
    pub fn new() -> (descriptor: Self)
        ensures
            descriptor.columns@.len() == 0,
    {
        TupleDescriptor { columns: Vec::new() }
    }

    /// Adds a column behind the columns that are there.
    pub fn add_column(&mut self, name: &str, column_type: ColumnType, nullable: bool)
        ensures
            final(self).columns@.len() == old(self).columns@.len() + 1,
            final(self).columns@.subrange(0, old(self).columns@.len() as int) == old(self).columns@,
            final(self).columns@.last().name@ == name@,
            final(self).columns@.last().column_type == column_type,
            final(self).columns@.last().nullable == nullable,
    {
        self.columns.push(ColumnDescriptor { name: name.to_owned(), column_type, nullable });
        assert(self.columns@.subrange(0, old(self).columns@.len() as int) =~= old(self).columns@);
    }

    /// Number of columns.
    pub fn column_count(&self) -> (count: usize)
        ensures
            count == self.columns@.len(),
    {
        self.columns.len()
    }
}

} // verus!
