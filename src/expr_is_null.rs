use vstd::prelude::*;

use crate::chunk::DataChunk;

verus! {

/// Tests each row of a column for null.
pub struct IsNullExpression {
    /// The input column.
    pub child: usize,
}

/// Tests each row of a column for a value.
pub struct IsNotNullExpression {
    /// The input column.
    pub child: usize,
}

impl IsNullExpression {
    pub fn new(child: usize) -> (r: Self)
        ensures
            r.child == child,
    {
        IsNullExpression { child }
    }

    /// One result per row: whether the column holds a null there.
    pub fn eval(&self, input: &DataChunk) -> (r: Vec<bool>)
        requires
            self.child < input.columns@.len(),
        ensures
            r@.len() == input.columns@[self.child as int]@.len(),
            forall|i: int| 0 <= i < r@.len() ==> r@[i] == (#[trigger] input.columns@[self.child as int]@[i]) is None,
    {
        let col = &input.columns[self.child];
        let mut r: Vec<bool> = Vec::new();
        let mut i: usize = 0;
        while i < col.len()
            invariant
                i <= col@.len(),
                r@.len() == i,
                forall|j: int| 0 <= j < i ==> r@[j] == (#[trigger] col@[j]) is None,
            decreases col@.len() - i,
        {
            r.push(col[i].is_none());
            i += 1;
        }
        r
    }
}

impl IsNotNullExpression {
    pub fn new(child: usize) -> (r: Self)
        ensures
            r.child == child,
    {
        IsNotNullExpression { child }
    }

    /// One result per row: whether the column holds a value there.
    pub fn eval(&self, input: &DataChunk) -> (r: Vec<bool>)
        requires
            self.child < input.columns@.len(),
        ensures
            r@.len() == input.columns@[self.child as int]@.len(),
            forall|i: int| 0 <= i < r@.len() ==> r@[i] == (#[trigger] input.columns@[self.child as int]@[i]) is Some,
    {
        let col = &input.columns[self.child];
        let mut r: Vec<bool> = Vec::new();
        let mut i: usize = 0;
        while i < col.len()
            invariant
                i <= col@.len(),
                r@.len() == i,
                forall|j: int| 0 <= j < i ==> r@[j] == (#[trigger] col@[j]) is Some,
            decreases col@.len() - i,
        {
            r.push(col[i].is_some());
            i += 1;
        }
        r
    }
}

} // verus!
