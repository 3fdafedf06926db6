//! Queries on a range-maximum tree as a client sends them: one line of
//! numbers each, the kind of query first, then the first and the last
//! position counted from 1, then, for a lowering, the value.

use crate::range_max::SegmentTree;
use crate::windows::{lowered, window_max};
use vstd::prelude::*;

verus! {

/// A query, its positions counted from 0.
#[derive(Copy, Clone, Debug, PartialEq, Eq)]
pub enum Query {
    /// Lower every entry in `[left, right]` to at most `val`.
    Lower { left: i32, right: i32, val: i32 },
    /// Ask for the largest entry in `[left, right]`.
    Max { left: i32, right: i32 },
}

/// Why a query was not run.
#[derive(Copy, Clone, Debug, PartialEq, Eq)]
pub enum QueryError {
    /// The line lacks a number, or names a position that no array has.
    Malformed,
    /// The kind of query is neither 0 nor 1.
    Unrecognized,
    /// The positions are not a range of the array.
    OutOfRange,
}

/// What a line of numbers asks for. The kind is looked at once the positions
/// are there: a line too short to hold them is malformed whatever it starts
/// with.
pub open spec fn decoded(fields: Seq<i32>) -> Result<Query, QueryError> {
    if fields.len() < 3 || fields[1] == i32::MIN || fields[2] == i32::MIN {
        Err(QueryError::Malformed)
    } else if fields[0] == 0 {
        if fields.len() < 4 {
            Err(QueryError::Malformed)
        } else {
            Ok(
                Query::Lower {
                    left: (fields[1] - 1) as i32,
                    right: (fields[2] - 1) as i32,
                    val: fields[3],
                },
            )
        }
    } else if fields[0] == 1 {
        Ok(Query::Max { left: (fields[1] - 1) as i32, right: (fields[2] - 1) as i32 })
    } else {
        Err(QueryError::Unrecognized)
    }
}

/// The positions of the query are a range of an array of `n` entries.
pub open spec fn in_range(query: Query, n: int) -> bool {
    match query {
        Query::Lower { left, right, val } => 0 <= left <= right < n,
        Query::Max { left, right } => 0 <= left <= right < n,
    }
}

/// What a query answers on the array `v`: a lowering nothing, a question the
/// largest entry of its range.
pub open spec fn answer(query: Query, v: Seq<i32>) -> Option<i32> {
    match query {
        Query::Lower { left, right, val } => None,
        Query::Max { left, right } => Some(window_max(v, left as int, right as int) as i32),
    }
}

/// What a query leaves of the array `v`: a lowering the array with the
/// entries of its range lowered, a question the array as it is.
pub open spec fn left_behind(query: Query, v: Seq<i32>) -> Seq<i32> {
    match query {
        Query::Lower { left, right, val } => lowered(v, left as int, right as int, val),
        Query::Max { left, right } => v,
    }
}

impl QueryError {
    /// The error in words.
    pub fn message(&self) -> (text: String)
        ensures
            text@ == (match *self {
                QueryError::Malformed => "Malformed query."@,
                QueryError::Unrecognized => "Unrecognized query type."@,
                QueryError::OutOfRange => "Index out of bounds."@,
            }),
    {
        match *self {
            QueryError::Malformed => "Malformed query.".to_owned(),
            QueryError::Unrecognized => "Unrecognized query type.".to_owned(),
            QueryError::OutOfRange => "Index out of bounds.".to_owned(),
        }
    }
}

/// Decodes the numbers of one line.
pub fn decode_query(fields: &Vec<i32>) -> (res: Result<Query, QueryError>)
    ensures
        res == decoded(fields@),
{
    if fields.len() < 3 || fields[1] == i32::MIN || fields[2] == i32::MIN {
        return Err(QueryError::Malformed);
    }
    let query_type = fields[0];
    let left = fields[1] - 1;
    let right = fields[2] - 1;
    if query_type == 0 {
        if fields.len() < 4 {
            return Err(QueryError::Malformed);
        }
        Ok(Query::Lower { left, right, val: fields[3] })
    } else if query_type == 1 {
        Ok(Query::Max { left, right })
    } else {
        Err(QueryError::Unrecognized)
    }
}

/// Runs a query on a tree. A query whose positions are a range of the array
/// is run: a lowering changes the array and answers nothing, a question for
/// the maximum leaves the array and answers with it. Any other query is
/// refused and leaves the array as it is.
pub fn run_query(tree: &mut SegmentTree, query: Query) -> (res: Result<Option<i32>, QueryError>)
    requires
        old(tree).wf(),
    ensures
        final(tree).wf(),
        final(tree).len() == old(tree).len(),
        !in_range(query, old(tree).len() as int) ==> res == Err::<Option<i32>, QueryError>(
            QueryError::OutOfRange,
        ) && final(tree)@ == old(tree)@,
        in_range(query, old(tree).len() as int) ==> res == Ok::<Option<i32>, QueryError>(
            answer(query, old(tree)@),
        ) && final(tree)@ == left_behind(query, old(tree)@),
{
    let n = tree.len();
    match query {
        Query::Lower { left, right, val } => {
            if 0 <= left && left <= right && (right as usize) < n {
                tree.range_update(0, val, left, right);
                Ok(None)
            } else {
                Err(QueryError::OutOfRange)
            }
        },
        Query::Max { left, right } => {
            if 0 <= left && left <= right && (right as usize) < n {
                let largest = tree.range_max(0, left, right);
                Ok(Some(largest))
            } else {
                Err(QueryError::OutOfRange)
            }
        },
    }
}

} // verus!
