//! What can go wrong, and how it is told.

use vstd::prelude::*;
use vstd::string::*;

use crate::text::{decimal, push_decimal, push_signed, signed_decimal};

verus! {

/// An index in a profile's tables that leads nowhere.
#[derive(Debug, Clone, Copy, PartialEq, Eq)]
pub enum TableError {
    Stack(usize),
    Frame(usize),
    Func(usize),
    Resource(usize),
}

/// `<table> index <index> out of range`.
pub open spec fn out_of_range(table: Seq<char>, index: nat) -> Seq<char> {
    table + " index "@ + decimal(index) + " out of range"@
}

fn out_of_range_text(table: &str, index: usize) -> (r: String)
    ensures
        r@ == out_of_range(table@, index as nat),
{
    let mut out = table.to_owned();
    out.append(" index ");
    push_decimal(&mut out, index as u64);
    out.append(" out of range");
    out
}

impl TableError {
    /// What the error says.
    pub open spec fn text(self) -> Seq<char> {
        match self {
            TableError::Stack(i) => out_of_range("stack"@, i as nat),
            TableError::Frame(i) => out_of_range("frame"@, i as nat),
            TableError::Func(i) => out_of_range("func"@, i as nat),
            TableError::Resource(i) => out_of_range("resource"@, i as nat),
        }
    }

    /// The error in words.
    pub fn message(&self) -> (r: String)
        ensures
            r@ == self.text(),
    {
        match *self {
            TableError::Stack(i) => out_of_range_text("stack", i),
            TableError::Frame(i) => out_of_range_text("frame", i),
            TableError::Func(i) => out_of_range_text("func", i),
            TableError::Resource(i) => out_of_range_text("resource", i),
        }
    }
}

/// A sample whose stack could not be resolved, and why.
#[derive(Debug, Clone, Copy, PartialEq, Eq)]
pub struct SampleError {
    pub sample: usize,
    pub stack: i32,
    pub cause: TableError,
}

impl SampleError {
    /// What the error says.
    pub open spec fn text(self) -> Seq<char> {
        "failed to resolve sample "@ + decimal(self.sample as nat) + " stack "@ + signed_decimal(
            self.stack as int,
        )
    }

    /// The error in words, without its cause.
    pub fn message(&self) -> (r: String)
        ensures
            r@ == self.text(),
    {
        let mut out = "failed to resolve sample ".to_owned();
        push_decimal(&mut out, self.sample as u64);
        out.append(" stack ");
        push_signed(&mut out, self.stack);
        out
    }
}

/// Why no thread was selected.
#[derive(Debug, Clone, Copy, PartialEq, Eq)]
pub enum SelectError {
    NoThreads,
    OutOfRange(usize),
}

impl SelectError {
    /// What the error says.
    pub open spec fn text(self) -> Seq<char> {
        match self {
            SelectError::NoThreads => "profile has no threads"@,
            SelectError::OutOfRange(i) => out_of_range("thread"@, i as nat),
        }
    }

    /// The error in words.
    pub fn message(&self) -> (r: String)
        ensures
            r@ == self.text(),
    {
        match *self {
            SelectError::NoThreads => "profile has no threads".to_owned(),
            SelectError::OutOfRange(i) => out_of_range_text("thread", i),
        }
    }
}

} // verus!
