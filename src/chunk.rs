use vstd::prelude::*;

verus! {

/// A nullable value of a column.
pub type Datum = Option<i64>;

/// The values of one row, one per column.
pub type Row = Seq<Datum>;

/// An immutable columnar batch: `columns[c][r]` is the value of column `c` in
/// row `r`, and `visibility[r]` says whether row `r` takes part in the output.
pub struct DataChunk {
    pub columns: Vec<Vec<Datum>>,
    pub visibility: Vec<bool>,
}

#[derive(PartialEq, Eq, Structural, Clone, Copy, Debug)]
pub enum OrderType {
    Ascending,
    Descending,
}

/// One key of a sort order: a column and its direction.
#[derive(PartialEq, Eq, Structural, Clone, Copy, Debug)]
pub struct OrderPair {
    pub column_idx: usize,
    pub order_type: OrderType,
}

/// Compares two values: -1, 0 or 1. A null sorts after every value.
pub open spec fn cmp_datum(a: Datum, b: Datum) -> int {
    match (a, b) {
        (None, None) => 0,
        (None, Some(_)) => 1,
        (Some(_), None) => -1,
        (Some(x), Some(y)) => if x < y {
            -1
        } else if x > y {
            1
        } else {
            0
        },
    }
}

/// Lexicographic comparison of two rows under `order`: -1, 0 or 1. A
/// descending key reverses its comparison, so nulls then come first.
pub open spec fn cmp_rows(order: Seq<OrderPair>, a: Row, b: Row) -> int
    decreases order.len(),
{
    if order.len() == 0 {
        0
    } else {
        let p = order[0];
        let c = cmp_datum(a[p.column_idx as int], b[p.column_idx as int]);
        let c = if p.order_type == OrderType::Descending { -c } else { c };
        if c != 0 {
            c
        } else {
            cmp_rows(order.drop_first(), a, b)
        }
    }
}

/// `a` sorts no later than `b`.
pub open spec fn row_le(order: Seq<OrderPair>, a: Row, b: Row) -> bool {
    cmp_rows(order, a, b) <= 0
}

/// Every row sorts no later than the next one.
pub open spec fn sorted_rows(order: Seq<OrderPair>, rows: Seq<Row>) -> bool {
    forall|i: int, j: int| 0 <= i <= j < rows.len() ==> row_le(order, #[trigger] rows[i], #[trigger] rows[j])
}

pub proof fn lemma_cmp_antisym(order: Seq<OrderPair>, a: Row, b: Row)
    ensures
        cmp_rows(order, a, b) == -cmp_rows(order, b, a),
        -1 <= cmp_rows(order, a, b) <= 1,
        cmp_rows(order, a, a) == 0,
    decreases order.len(),
{
    if order.len() > 0 {
        lemma_cmp_antisym(order.drop_first(), a, b);
        lemma_cmp_antisym(order.drop_first(), a, a);
    }
}

/// The order on rows is transitive.
pub proof fn lemma_row_le_trans(order: Seq<OrderPair>, a: Row, b: Row, c: Row)
    requires
        row_le(order, a, b),
        row_le(order, b, c),
    ensures
        row_le(order, a, c),
    decreases order.len(),
{
    lemma_cmp_antisym(order, a, b);
    lemma_cmp_antisym(order, b, c);
    lemma_cmp_antisym(order, a, c);
    if order.len() > 0 {
        let t = order.drop_first();
        lemma_cmp_antisym(t, a, b);
        lemma_cmp_antisym(t, b, c);
        lemma_cmp_antisym(t, a, c);
        let p = order[0];
        let i = p.column_idx as int;
        if cmp_datum(a[i], b[i]) == 0 && cmp_datum(b[i], c[i]) == 0 {
            lemma_row_le_trans(t, a, b, c);
        }
    }
}


/// The first row of a sorted sequence sorts no later than the rest, which stay sorted.
pub proof fn lemma_sorted_cons(order: Seq<OrderPair>, x: Row, s: Seq<Row>)
    requires
        sorted_rows(order, seq![x] + s),
    ensures
        sorted_rows(order, s),
        s.len() > 0 ==> row_le(order, x, s[0]),
{
    let t = seq![x] + s;
    assert forall|i: int, j: int| 0 <= i <= j < s.len() implies row_le(order, #[trigger] s[i], #[trigger] s[j]) by {
        assert(t[i + 1] == s[i]);
        assert(t[j + 1] == s[j]);
    }
    if s.len() > 0 {
        assert(t[0] == x);
        assert(t[1] == s[0]);
    }
}

impl DataChunk {
    pub open spec fn num_rows(&self) -> nat {
        self.visibility@.len()
    }

    /// Every column has one value per row.
    pub open spec fn wf(&self) -> bool {
        forall|c: int| 0 <= c < self.columns@.len() ==> (#[trigger] self.columns@[c])@.len() == self.visibility@.len()
    }

    /// The values of row `r`.
    pub open spec fn row(&self, r: int) -> Row {
        Seq::new(self.columns@.len(), |c: int| self.columns@[c]@[r])
    }

    /// Indices of the visible rows in `[start, end)`, ascending.
    pub open spec fn visible_from(&self, start: int, end: int) -> Seq<int>
        decreases end - start,
    {
        if start >= end {
            Seq::empty()
        } else if self.visibility@[start] {
            seq![start] + self.visible_from(start + 1, end)
        } else {
            self.visible_from(start + 1, end)
        }
    }

    /// The visible rows from row `start` on, in order.
    pub open spec fn rows_from(&self, start: int) -> Seq<Row> {
        self.visible_from(start, self.num_rows() as int).map_values(|r: int| self.row(r))
    }

    /// The visible rows, in order.
    pub open spec fn rows(&self) -> Seq<Row> {
        self.rows_from(0)
    }

    /// Number of visible rows.
    pub open spec fn spec_cardinality(&self) -> nat {
        self.rows().len()
    }


    /// The visible rows from a visible row `r` on are row `r`, then those after it.
    pub proof fn lemma_rows_from_visible(&self, r: int)
        requires
            0 <= r < self.num_rows(),
            self.visibility@[r],
        ensures
            self.rows_from(r) == seq![self.row(r)] + self.rows_from(r + 1),
    {
        let n = self.num_rows() as int;
        assert(self.visible_from(r, n) == seq![r] + self.visible_from(r + 1, n));
        assert(self.rows_from(r) =~= seq![self.row(r)] + self.rows_from(r + 1));
    }

    /// The visible rows of `[start, end)` are those of `[start, mid)` then those of `[mid, end)`.
    pub proof fn lemma_visible_split(&self, start: int, mid: int, end: int)
        requires
            start <= mid <= end,
        ensures
            self.visible_from(start, end) == self.visible_from(start, mid) + self.visible_from(mid, end),
        decreases mid - start,
    {
        if start == mid {
            assert(self.visible_from(start, mid) =~= Seq::<int>::empty());
            assert(self.visible_from(start, end) =~= self.visible_from(start, mid) + self.visible_from(mid, end));
        } else {
            self.lemma_visible_split(start + 1, mid, end);
            if self.visibility@[start] {
                assert(self.visible_from(start, end) =~= self.visible_from(start, mid) + self.visible_from(mid, end));
            } else {
                assert(self.visible_from(start, end) =~= self.visible_from(start, mid) + self.visible_from(mid, end));
            }
        }
    }

    /// When no visible row follows visible row `r`, it is the chunk's last visible row.
    pub proof fn lemma_last_visible(&self, r: int)
        requires
            0 <= r < self.num_rows(),
            self.visibility@[r],
            self.rows_from(r + 1).len() == 0,
        ensures
            self.rows().len() > 0,
            self.rows().last() == self.row(r),
    {
        let n = self.num_rows() as int;
        self.lemma_visible_split(0, r, n);
        assert(self.visible_from(r, n) == seq![r] + self.visible_from(r + 1, n));
        assert(self.visible_from(r + 1, n).len() == 0);
        let v = self.visible_from(0, n);
        assert(v.last() == r);
    }

    /// A chunk whose rows are all visible.
    pub proof fn lemma_all_visible(&self, start: int)
        requires
            0 <= start <= self.num_rows(),
            forall|k: int| 0 <= k < self.num_rows() ==> #[trigger] self.visibility@[k],
        ensures
            self.visible_from(start, self.num_rows() as int) == Seq::new(
                (self.num_rows() - start) as nat,
                |k: int| start + k,
            ),
        decreases self.num_rows() - start,
    {
        let n = self.num_rows() as int;
        if start < n {
            self.lemma_all_visible(start + 1);
            assert(self.visible_from(start, n) =~= Seq::new((n - start) as nat, |k: int| start + k));
        } else {
            assert(self.visible_from(start, n) =~= Seq::new((n - start) as nat, |k: int| start + k));
        }
    }

    pub fn cardinality(&self) -> (r: usize)
        ensures
            r == self.spec_cardinality(),
    {
        let n = self.visibility.len();
        let mut i: usize = n;
        let mut count: usize = 0;
        while i > 0
            invariant
                i <= n,
                n == self.visibility@.len(),
                count == self.visible_from(i as int, n as int).len(),
                count <= n - i,
            decreases i,
        {
            i -= 1;
            if self.visibility[i] {
                count += 1;
            }
        }
        count
    }

    /// The first visible row at or after `start`.
    pub fn next_visible_row_idx(&self, start: usize) -> (r: Option<usize>)
        ensures
            r is None ==> self.visible_from(start as int, self.num_rows() as int).len() == 0,
            r matches Some(i) ==> start <= i < self.num_rows() && self.visibility@[i as int]
                && self.visible_from(start as int, self.num_rows() as int)
                == seq![i as int] + self.visible_from(i + 1, self.num_rows() as int),
    {
        let n = self.visibility.len();
        let mut i: usize = start;
        while i < n
            invariant
                start <= i || n <= start,
                n == self.visibility@.len(),
                self.visible_from(start as int, n as int) == self.visible_from(i as int, n as int),
            decreases n - i,
        {
            if self.visibility[i] {
                return Some(i);
            }
            i += 1;
        }
        None
    }
}

} // verus!
