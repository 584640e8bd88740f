use vstd::multiset::Multiset;
use vstd::prelude::*;

use vstd::seq_lib::lemma_multiset_commutative;

use crate::chunk::{
    DataChunk, Datum, OrderPair, OrderType, Row, cmp_datum, cmp_rows, lemma_cmp_antisym, lemma_row_le_trans, row_le,
    sorted_rows, lemma_sorted_cons,
};

verus! {

/// Rows per output chunk unless the inputs run out first.
pub const K_PROCESSING_WINDOW_SIZE: usize = 1024;

/// A cursor on a visible row of the current chunk of a source.
#[derive(PartialEq, Eq, Structural, Clone, Copy, Debug)]
pub struct HeapElem {
    pub source_idx: usize,
    pub row_idx: usize,
}

/// Why an exchange cannot be built or fed.
#[derive(PartialEq, Eq, Structural, Clone, Copy, Debug)]
pub enum ExchangeError {
    /// The plan lists no source.
    NoSources,
    /// A sort key names a column that the input schema lacks.
    OrderColumnOutOfRange,
    /// The output window holds no row.
    EmptyWindow,
    /// A source sent a chunk whose columns do not match the input schema.
    SchemaMismatch,
}

/// What the driver of the exchange is to do next.
pub enum Action {
    /// Pull the next chunk of this source and hand it to `on_source_data`
    /// (creating the source first, if this is its first pull).
    Pull(usize),
    /// The next output chunk.
    Emit(DataChunk),
    /// The inputs are drained: no more output.
    Done,
}

/// A k-way merge of sources whose rows each arrive sorted under `order`,
/// into one sorted stream of chunks of `window` rows.
///
/// The exchange decides and the driver performs: `next` and `on_source_data`
/// answer with the pull to perform or the chunk to emit.
pub struct MergeSortExchange {
    pub order: Vec<OrderPair>,
    pub num_columns: usize,
    pub window: usize,
    /// The current chunk of each source, if it has one.
    pub source_inputs: Vec<Option<DataChunk>>,
    /// One cursor per source with a current chunk; popped by least row.
    pub min_heap: Vec<HeapElem>,
    /// Sources pulled for the first time so far.
    pub initialized: usize,
    /// The source whose chunk the exchange waits for.
    pub awaiting: Option<usize>,
    /// Columns of the output chunk under construction.
    pub builders: Vec<Vec<Datum>>,
    pub produced: usize,
    pub exhausted: bool,
    /// Every row sent to the output so far, in order.
    pub output: Ghost<Seq<Row>>,
    /// Whether each source's rows, chunk after chunk, came sorted.
    pub inputs_sorted: Ghost<bool>,
    /// Every visible row that the sources handed in so far.
    pub received: Ghost<Multiset<Row>>,
    /// The rows of every chunk emitted so far, in order.
    pub emitted: Ghost<Seq<Row>>,
    /// Which sources have answered end of stream; they are never pulled again.
    pub ended: Ghost<Seq<bool>>,
}

/// A chunk as a source may hand it in: well formed, with the schema's columns.
pub open spec fn chunk_fits(c: DataChunk, num_columns: usize) -> bool {
    c.wf() && c.columns@.len() == num_columns
}


/// Global order: when every source's rows arrived sorted, chunk after chunk,
/// the rows of all chunks emitted so far, concatenated, are sorted. Each step
/// appends exactly an emitted chunk's rows to `emitted` (see `step_ok`).
pub proof fn lemma_global_order(x: MergeSortExchange)
    requires
        x.wf(),
        x.inputs_sorted@,
    ensures
        sorted_rows(x.order@, x.output@),
        sorted_rows(x.order@, x.emitted@),
{
    let e = x.emitted@;
    assert forall|i: int, j: int| 0 <= i <= j < e.len() implies row_le(x.order@, #[trigger] e[i], #[trigger] e[j]) by {
        assert(e[i] == x.output@[i]);
        assert(e[j] == x.output@[j]);
    }
}

/// Window law: an emitted chunk holds between one and `window` rows, and one
/// with fewer than `window` rows leaves the exchange drained, so that the next
/// call of `next` answers `Done`.
pub proof fn lemma_window_law(prev: MergeSortExchange, x: MergeSortExchange, c: DataChunk)
    requires
        x.step_ok(&prev, &Action::Emit(c)),
    ensures
        0 < c.spec_cardinality() <= x.window,
        c.spec_cardinality() < x.window ==> x.init_done() && x.min_heap@.len() == 0 && x.produced == 0
            && x.awaiting is None,
{
}

/// Exhaustion: once a step has answered `Done`, the exchange is exhausted,
/// every source has ended, no row waits in the builder, and `next` answers
/// `Done` again without changing it.
pub proof fn lemma_exhaustion(prev: MergeSortExchange, x: MergeSortExchange)
    requires
        x.step_ok(&prev, &Action::Done),
    ensures
        x.exhausted,
        x.awaiting is None,
        x.produced == 0,
        x.wf(),
        forall|s: int| 0 <= s < x.num_sources() ==> #[trigger] x.ended@[s],
{
}


/// The rows that the cursors `h` have yet to pass over, given the current
/// chunk of each source.
pub open spec fn cursor_rows(inputs: Seq<Option<DataChunk>>, h: Seq<HeapElem>) -> Multiset<Row>
    decreases h.len(),
{
    if h.len() == 0 {
        Multiset::empty()
    } else {
        let e = h.last();
        cursor_rows(inputs, h.drop_last()).add(
            inputs[e.source_idx as int]->Some_0.rows_from(e.row_idx as int).to_multiset(),
        )
    }
}

proof fn lemma_cursor_rows_push(inputs: Seq<Option<DataChunk>>, h: Seq<HeapElem>, e: HeapElem)
    ensures
        cursor_rows(inputs, h.push(e)) == cursor_rows(inputs, h).add(
            inputs[e.source_idx as int]->Some_0.rows_from(e.row_idx as int).to_multiset(),
        ),
{
    assert(h.push(e).drop_last() =~= h);
}

proof fn lemma_cursor_rows_remove(inputs: Seq<Option<DataChunk>>, h: Seq<HeapElem>, i: int)
    requires
        0 <= i < h.len(),
    ensures
        cursor_rows(inputs, h.remove(i)).add(
            inputs[h[i].source_idx as int]->Some_0.rows_from(h[i].row_idx as int).to_multiset(),
        ) == cursor_rows(inputs, h),
    decreases h.len(),
{
    if i == h.len() - 1 {
        assert(h.remove(i) =~= h.drop_last());
    } else {
        let t = h.drop_last();
        lemma_cursor_rows_remove(inputs, t, i);
        assert(h.remove(i) =~= t.remove(i).push(h.last()));
        lemma_cursor_rows_push(inputs, t.remove(i), h.last());
        assert(t[i] == h[i]);
        let a = cursor_rows(inputs, t.remove(i));
        let x = inputs[h[i].source_idx as int]->Some_0.rows_from(h[i].row_idx as int).to_multiset();
        let y = inputs[h.last().source_idx as int]->Some_0.rows_from(h.last().row_idx as int).to_multiset();
        assert(a.add(y).add(x) =~= a.add(x).add(y));
    }
}

/// Cursors that read only sources whose chunks agree see the same rows.
proof fn lemma_cursor_rows_frame(a: Seq<Option<DataChunk>>, b: Seq<Option<DataChunk>>, h: Seq<HeapElem>)
    requires
        forall|i: int| 0 <= i < h.len() ==> a[(#[trigger] h[i]).source_idx as int] == b[h[i].source_idx as int],
    ensures
        cursor_rows(a, h) == cursor_rows(b, h),
    decreases h.len(),
{
    if h.len() > 0 {
        let t = h.drop_last();
        assert forall|i: int| 0 <= i < t.len() implies a[(#[trigger] t[i]).source_idx as int] == b[t[i].source_idx as int] by {
            assert(t[i] == h[i]);
        }
        lemma_cursor_rows_frame(a, b, t);
        assert(h.last() == h[h.len() - 1]);
    }
}


/// Conservation: once the exchange has answered `Done`, the rows of all
/// chunks it emitted are, as a multiset, exactly the visible rows that the
/// sources handed in: none lost, none repeated.
pub proof fn lemma_conservation(x: MergeSortExchange)
    requires
        x.wf(),
        x.conserved(),
        x.exhausted,
    ensures
        x.received@ == x.emitted@.to_multiset(),
{
    assert(x.emitted@ =~= x.output@);
    assert(x.received@ =~= x.output@.to_multiset());
}

impl MergeSortExchange {
    pub open spec fn num_sources(&self) -> nat {
        self.source_inputs@.len()
    }

    pub open spec fn init_done(&self) -> bool {
        self.initialized == self.num_sources()
    }

    /// The current chunk of source `s`.
    pub open spec fn chunk_of(&self, s: int) -> DataChunk {
        self.source_inputs@[s]->Some_0
    }

    /// The row under cursor `e`.
    pub open spec fn elem_row(&self, e: HeapElem) -> Row {
        self.chunk_of(e.source_idx as int).row(e.row_idx as int)
    }

    pub open spec fn elem_ok(&self, e: HeapElem) -> bool {
        &&& e.source_idx < self.num_sources()
        &&& self.source_inputs@[e.source_idx as int] is Some
        &&& e.row_idx < self.chunk_of(e.source_idx as int).num_rows()
        &&& self.chunk_of(e.source_idx as int).visibility@[e.row_idx as int]
    }

    /// The rows of the output chunk under construction.
    pub open spec fn pending_output(&self) -> Seq<Row> {
        self.output@.subrange(self.output@.len() - self.produced, self.output@.len() as int)
    }

    /// With sorted inputs: the output so far is sorted, sorts no later than
    /// any row under a cursor, and each cursor's remaining rows are sorted.
    pub open spec fn order_kept(&self) -> bool {
        &&& sorted_rows(self.order@, self.output@)
        &&& forall|i: int| 0 <= i < self.min_heap@.len() ==> {
            let e = #[trigger] self.min_heap@[i];
            &&& sorted_rows(self.order@, self.chunk_of(e.source_idx as int).rows_from(e.row_idx as int))
            &&& (self.output@.len() > 0 ==> row_le(self.order@, self.output@.last(), self.elem_row(e)))
        }
    }


    /// `self` is what a step from `prev` that answered `r` may leave: the
    /// configuration is kept, the output only grows, and the answer matches
    /// the state.
    pub open spec fn step_ok(&self, prev: &Self, r: &Action) -> bool {
        &&& self.wf()
        &&& self.conserved()
        &&& self.accounted()
        &&& self.order == prev.order
        &&& self.num_columns == prev.num_columns
        &&& self.window == prev.window
        &&& self.num_sources() == prev.num_sources()
        &&& prev.output@.len() <= self.output@.len()
        &&& self.output@.subrange(0, prev.output@.len() as int) == prev.output@
        &&& match r {
            Action::Pull(i) => {
                &&& self.awaiting == Some(*i)
                &&& !self.exhausted
                &&& self.emitted == prev.emitted
                &&& !self.ended@[*i as int]
                // once every source was pulled a first time, a pull comes only
                // when the source's chunk is drained: its last row was output last
                &&& (self.init_done() ==> self.source_inputs@[*i as int] is Some
                    && self.output@.last() == self.chunk_of(*i as int).rows().last()
                    && forall|j: int| 0 <= j < self.min_heap@.len() ==> (#[trigger] self.min_heap@[j]).source_idx != *i)
            },
            Action::Emit(c) => {
                &&& self.awaiting is None
                &&& !self.exhausted
                &&& chunk_fits(*c, self.num_columns)
                &&& 0 < c.spec_cardinality() <= self.window
                &&& c.rows() == self.output@.subrange(self.output@.len() - c.spec_cardinality(), self.output@.len() as int)
                &&& self.emitted@ == prev.emitted@ + c.rows()
                &&& self.produced == 0
                &&& (c.spec_cardinality() < self.window ==> self.min_heap@.len() == 0 && self.init_done())
            },
            Action::Done => self.exhausted && self.awaiting is None && self.produced == 0 && self.output == prev.output
                && self.emitted == prev.emitted
                && forall|s: int| 0 <= s < self.num_sources() ==> #[trigger] self.ended@[s],
        }
    }

    /// A chunk continues the sorted stream of the awaited source: it is
    /// sorted, and its first row does not sort before the last row of the
    /// source's previous chunk.
    pub open spec fn continues_sorted(&self, c: DataChunk) -> bool {
        &&& sorted_rows(self.order@, c.rows())
        &&& (self.awaiting is Some && self.source_inputs@[self.awaiting->Some_0 as int] is Some && c.rows().len() > 0
            ==> row_le(self.order@, self.chunk_of(self.awaiting->Some_0 as int).rows().last(), c.rows()[0]))
    }

    /// Every source pulled so far has ended, is awaited, or has a cursor.
    pub open spec fn accounted(&self) -> bool {
        forall|s: int| 0 <= s < self.initialized ==> #[trigger] self.ended@[s]
            || self.awaiting == Some(s as usize)
            || exists|i: int| 0 <= i < self.min_heap@.len() && (#[trigger] self.min_heap@[i]).source_idx == s
    }

    /// No row is lost or duplicated: the rows received are those output so
    /// far plus those the cursors have yet to pass over.
    pub open spec fn conserved(&self) -> bool {
        self.received@ == self.output@.to_multiset().add(cursor_rows(self.source_inputs@, self.min_heap@))
    }

    pub open spec fn wf(&self) -> bool {
        &&& self.num_sources() > 0
        &&& self.window > 0
        &&& forall|i: int| 0 <= i < self.order@.len() ==> (#[trigger] self.order@[i]).column_idx < self.num_columns
        &&& forall|s: int| 0 <= s < self.num_sources() && (#[trigger] self.source_inputs@[s]) is Some
            ==> chunk_fits(self.source_inputs@[s]->Some_0, self.num_columns)
        &&& forall|i: int| 0 <= i < self.min_heap@.len() ==> self.elem_ok(#[trigger] self.min_heap@[i])
        &&& forall|i: int, j: int| 0 <= i < self.min_heap@.len() && 0 <= j < self.min_heap@.len() && i != j
            ==> (#[trigger] self.min_heap@[i]).source_idx != (#[trigger] self.min_heap@[j]).source_idx
        &&& self.initialized <= self.num_sources()
        &&& forall|i: int| 0 <= i < self.min_heap@.len() ==> (#[trigger] self.min_heap@[i]).source_idx < self.initialized
        &&& (self.awaiting matches Some(a) ==> {
            &&& a < self.num_sources()
            &&& (self.init_done() || a == self.initialized)
            &&& forall|i: int| 0 <= i < self.min_heap@.len() ==> (#[trigger] self.min_heap@[i]).source_idx != a
        })
        &&& (!self.init_done() ==> self.produced == 0 && self.output@.len() == 0)
        &&& self.produced <= self.window
        &&& self.produced <= self.output@.len()
        &&& self.builders@.len() == self.num_columns
        &&& forall|c: int| 0 <= c < self.num_columns ==> (#[trigger] self.builders@[c])@.len() == self.produced
        &&& forall|k: int| 0 <= k < self.output@.len() ==> (#[trigger] self.output@[k]).len() == self.num_columns
        &&& forall|c: int, k: int| 0 <= c < self.num_columns && 0 <= k < self.produced
            ==> (#[trigger] self.builders@[c])@[k] == (#[trigger] self.pending_output()[k])[c]
        &&& (self.inputs_sorted@ ==> self.order_kept())
        &&& (self.exhausted ==> self.min_heap@.len() == 0 && self.awaiting is None && self.init_done() && self.produced == 0)
        &&& self.emitted@ == self.output@.subrange(0, self.output@.len() - self.produced)
        &&& self.ended@.len() == self.num_sources()
        &&& forall|s: int| 0 <= s < self.num_sources() && (#[trigger] self.source_inputs@[s]) is Some
            ==> self.chunk_of(s).rows().len() > 0
        &&& forall|s: int| 0 <= s < self.num_sources() && #[trigger] self.ended@[s]
            ==> self.source_inputs@[s] is None && s < self.initialized && self.awaiting != Some(s as usize)
        &&& (self.awaiting is Some && self.init_done() ==> {
            &&& self.source_inputs@[self.awaiting->Some_0 as int] is Some
            &&& self.output@.len() > 0
            &&& self.output@.last() == self.chunk_of(self.awaiting->Some_0 as int).rows().last()
        })
    }

    /// An exchange over `num_sources` sources whose chunks have `num_columns`
    /// columns, merged under `order` into chunks of `window` rows.
    pub fn new(order: Vec<OrderPair>, num_columns: usize, num_sources: usize, window: usize) -> (r: Result<Self, ExchangeError>)
        ensures
            num_sources == 0 ==> r == Err::<Self, ExchangeError>(ExchangeError::NoSources),
            num_sources > 0 && (exists|i: int| 0 <= i < order@.len() && (#[trigger] order@[i]).column_idx >= num_columns)
                ==> r == Err::<Self, ExchangeError>(ExchangeError::OrderColumnOutOfRange),
            num_sources > 0 && (forall|i: int| 0 <= i < order@.len() ==> (#[trigger] order@[i]).column_idx < num_columns)
                && window == 0 ==> r == Err::<Self, ExchangeError>(ExchangeError::EmptyWindow),
            r is Ok <==> num_sources > 0 && window > 0
                && (forall|i: int| 0 <= i < order@.len() ==> (#[trigger] order@[i]).column_idx < num_columns),
            r matches Ok(x) ==> x.wf() && x.order@ == order@ && x.num_columns == num_columns && x.window == window
                && x.num_sources() == num_sources && x.initialized == 0 && x.awaiting is None
                && x.output@.len() == 0 && x.inputs_sorted@ && !x.exhausted
                && x.conserved() && x.accounted() && x.received@ == Multiset::<Row>::empty() && x.emitted@.len() == 0
                && forall|i: int| 0 <= i < num_sources ==> !(#[trigger] x.ended@[i]),
    {
        if num_sources == 0 {
            return Err(ExchangeError::NoSources);
        }
        let mut i: usize = 0;
        while i < order.len()
            invariant
                num_sources > 0,
                i <= order@.len(),
                forall|j: int| 0 <= j < i ==> (#[trigger] order@[j]).column_idx < num_columns,
            decreases order@.len() - i,
        {
            if order[i].column_idx >= num_columns {
                return Err(ExchangeError::OrderColumnOutOfRange);
            }
            i += 1;
        }
        if window == 0 {
            return Err(ExchangeError::EmptyWindow);
        }
        let mut source_inputs: Vec<Option<DataChunk>> = Vec::new();
        let mut s: usize = 0;
        while s < num_sources
            invariant
                s <= num_sources,
                source_inputs@.len() == s,
                forall|j: int| 0 <= j < s ==> (#[trigger] source_inputs@[j]) is None,
            decreases num_sources - s,
        {
            source_inputs.push(None);
            s += 1;
        }
        let builders = Self::empty_builders(num_columns);
        let ghost no_rows: Seq<Row> = Seq::empty();
        assert(no_rows.to_multiset() =~= Multiset::empty()) by {
            broadcast use vstd::seq_lib::group_to_multiset_ensures;
        }
        let ex = MergeSortExchange {
            order,
            num_columns,
            window,
            source_inputs,
            min_heap: Vec::new(),
            initialized: 0,
            awaiting: None,
            builders,
            produced: 0,
            exhausted: false,
            output: Ghost(Seq::empty()),
            inputs_sorted: Ghost(true),
            received: Ghost(Multiset::empty()),
            emitted: Ghost(Seq::empty()),
            ended: Ghost(Seq::new(num_sources as nat, |i: int| false)),
        };
        assert(ex.min_heap@ =~= Seq::<HeapElem>::empty());
        assert(ex.emitted@ =~= ex.output@.subrange(0, 0));
        assert(ex.output@ == no_rows);
        assert(ex.received@ =~= ex.output@.to_multiset().add(cursor_rows(ex.source_inputs@, ex.min_heap@)));
        Ok(ex)
    }


    fn datum_at(&self, e: HeapElem, col: usize) -> (r: Datum)
        requires
            self.wf(),
            self.elem_ok(e),
            col < self.num_columns,
        ensures
            r == self.elem_row(e)[col as int],
    {
        let ghost s = e.source_idx as int;
        assert(chunk_fits(self.source_inputs@[s]->Some_0, self.num_columns));
        match &self.source_inputs[e.source_idx] {
            Some(chunk) => chunk.columns[col][e.row_idx],
            None => None,
        }
    }

    /// Compares the rows under two cursors: -1, 0 or 1.
    fn compare_elems(&self, a: HeapElem, b: HeapElem) -> (r: i8)
        requires
            self.wf(),
            self.elem_ok(a),
            self.elem_ok(b),
        ensures
            r as int == cmp_rows(self.order@, self.elem_row(a), self.elem_row(b)),
    {
        let ghost ra = self.elem_row(a);
        let ghost rb = self.elem_row(b);
        let n = self.order.len();
        let mut i: usize = 0;
        assert(self.order@.subrange(0, n as int) =~= self.order@);
        while i < n
            invariant
                self.wf(),
                self.elem_ok(a),
                self.elem_ok(b),
                n == self.order@.len(),
                i <= n,
                ra == self.elem_row(a),
                rb == self.elem_row(b),
                cmp_rows(self.order@, ra, rb) == cmp_rows(self.order@.subrange(i as int, n as int), ra, rb),
            decreases n - i,
        {
            let p = self.order[i];
            let x = self.datum_at(a, p.column_idx);
            let y = self.datum_at(b, p.column_idx);
            let c: i8 = match (x, y) {
                (None, None) => 0,
                (None, Some(_)) => 1,
                (Some(_), None) => -1,
                (Some(u), Some(v)) => if u < v {
                    -1
                } else if u > v {
                    1
                } else {
                    0
                },
            };
            let c: i8 = match p.order_type {
                OrderType::Descending => -c,
                OrderType::Ascending => c,
            };
            let ghost rest = self.order@.subrange(i as int, n as int);
            assert(rest[0] == p);
            assert(rest.drop_first() =~= self.order@.subrange(i + 1, n as int));
            let ghost d = cmp_datum(ra[p.column_idx as int], rb[p.column_idx as int]);
            assert(x == ra[p.column_idx as int]);
            assert(c as int == (if p.order_type == OrderType::Descending { -d } else { d }));
            assert(cmp_rows(rest, ra, rb) == (if c != 0 { c as int } else { cmp_rows(rest.drop_first(), ra, rb) }));
            if c != 0 {
                return c;
            }
            i += 1;
        }
        0
    }

    /// Takes the cursor on the least row out of the heap.
    fn pop_min(&mut self) -> (e: HeapElem)
        requires
            old(self).wf(),
            old(self).min_heap@.len() > 0,
        ensures
            old(self).min_heap@.contains(e),
            final(self).min_heap@ == old(self).min_heap@.remove(old(self).min_heap@.index_of(e)),
            forall|i: int| 0 <= i < old(self).min_heap@.len()
                ==> row_le(old(self).order@, old(self).elem_row(e), old(self).elem_row(#[trigger] old(self).min_heap@[i])),
            final(self).order == old(self).order,
            final(self).source_inputs == old(self).source_inputs,
            final(self).num_columns == old(self).num_columns,
            final(self).window == old(self).window,
            final(self).initialized == old(self).initialized,
            final(self).awaiting == old(self).awaiting,
            final(self).builders == old(self).builders,
            final(self).produced == old(self).produced,
            final(self).exhausted == old(self).exhausted,
            final(self).output == old(self).output,
            final(self).inputs_sorted == old(self).inputs_sorted,
            final(self).received == old(self).received,
            final(self).ended == old(self).ended,
            final(self).emitted == old(self).emitted,
            final(self).wf(),
            old(self).elem_ok(e),
            final(self).elem_row(e) == old(self).elem_row(e),
            forall|i: int| 0 <= i < final(self).min_heap@.len() ==> (#[trigger] final(self).min_heap@[i]).source_idx != e.source_idx
                && row_le(final(self).order@, final(self).elem_row(e), final(self).elem_row(final(self).min_heap@[i])),
            old(self).inputs_sorted@ ==> sorted_rows(old(self).order@, old(self).chunk_of(e.source_idx as int).rows_from(e.row_idx as int))
                && (old(self).output@.len() > 0 ==> row_le(old(self).order@, old(self).output@.last(), old(self).elem_row(e))),
    {
        let mut best: usize = 0;
        let mut i: usize = 1;
        proof {
            lemma_cmp_antisym(self.order@, self.elem_row(self.min_heap@[0]), self.elem_row(self.min_heap@[0]));
        }
        while i < self.min_heap.len()
            invariant
                self.wf(),
                self.min_heap@.len() > 0,
                best < i <= self.min_heap@.len(),
                forall|j: int| 0 <= j < i ==> row_le(self.order@, self.elem_row(self.min_heap@[best as int]),
                    self.elem_row(#[trigger] self.min_heap@[j])),
            decreases self.min_heap@.len() - i,
        {
            let c = self.compare_elems(self.min_heap[i], self.min_heap[best]);
            if c < 0 {
                proof {
                    let ni = self.elem_row(self.min_heap@[i as int]);
                    let ob = self.elem_row(self.min_heap@[best as int]);
                    lemma_cmp_antisym(self.order@, ni, ob);
                    assert forall|j: int| 0 <= j < i + 1 implies row_le(self.order@, ni,
                        self.elem_row(#[trigger] self.min_heap@[j])) by {
                        if j < i {
                            lemma_row_le_trans(self.order@, ni, ob, self.elem_row(self.min_heap@[j]));
                        } else {
                            lemma_cmp_antisym(self.order@, ni, ni);
                        }
                    }
                }
                best = i;
            } else {
                proof {
                    lemma_cmp_antisym(self.order@, self.elem_row(self.min_heap@[i as int]),
                        self.elem_row(self.min_heap@[best as int]));
                }
            }
            i += 1;
        }
        proof {
            lemma_cmp_antisym(self.order@, self.elem_row(self.min_heap@[0]), self.elem_row(self.min_heap@[0]));
        }
        let ghost h = self.min_heap@;
        let e = self.min_heap.remove(best);
        proof {
            assert(h[best as int] == e);
            // cursors name distinct sources, so `e` occurs once
            assert(h.index_of(e) == best as int) by {
                let k = h.index_of(e);
                assert(h.contains(e));
                assert(h[k] == e);
                if k != best as int {
                    assert(h[k].source_idx != h[best as int].source_idx);
                }
            }
            assert forall|j: int| 0 <= j < self.min_heap@.len() implies #[trigger] self.min_heap@[j] == (if j < best { h[j] } else { h[j + 1] }) by {}
            assert forall|j: int| 0 <= j < self.min_heap@.len() implies (#[trigger] self.min_heap@[j]).source_idx != e.source_idx
                && row_le(self.order@, self.elem_row(e), self.elem_row(self.min_heap@[j])) by {
                let j2 = if j < best { j } else { j + 1 };
                assert(self.min_heap@[j] == h[j2]);
                assert(h[j2].source_idx != h[best as int].source_idx);
            }
            assert forall|a: int, b: int| 0 <= a < self.min_heap@.len() && 0 <= b < self.min_heap@.len() && a != b
                implies (#[trigger] self.min_heap@[a]).source_idx != (#[trigger] self.min_heap@[b]).source_idx by {
                let a2 = if a < best { a } else { a + 1 };
                let b2 = if b < best { b } else { b + 1 };
                assert(self.min_heap@[a] == h[a2]);
                assert(self.min_heap@[b] == h[b2]);
            }
            assert forall|j: int| 0 <= j < self.min_heap@.len() implies self.elem_ok(#[trigger] self.min_heap@[j])
                && self.min_heap@[j].source_idx < self.initialized by {
                let j2 = if j < best { j } else { j + 1 };
                assert(self.min_heap@[j] == h[j2]);
            }
            if self.inputs_sorted@ {
                assert forall|j: int| 0 <= j < self.min_heap@.len() implies {
                    let x = #[trigger] self.min_heap@[j];
                    &&& sorted_rows(self.order@, self.chunk_of(x.source_idx as int).rows_from(x.row_idx as int))
                    &&& (self.output@.len() > 0 ==> row_le(self.order@, self.output@.last(), self.elem_row(x)))
                } by {
                    let j2 = if j < best { j } else { j + 1 };
                    assert(self.min_heap@[j] == h[j2]);
                    assert(old(self).order_kept());
                    assert(old(self).min_heap@[j2] == h[j2]);
                }
                assert(self.order_kept());
            }
            assert(self.pending_output() == old(self).pending_output());
        }
        e
    }


    /// The values of the row under cursor `e`.
    fn row_values(&self, e: HeapElem) -> (r: Vec<Datum>)
        requires
            self.wf(),
            self.elem_ok(e),
        ensures
            r@ == self.elem_row(e),
    {
        let mut r: Vec<Datum> = Vec::new();
        let mut c: usize = 0;
        proof {
            let s = e.source_idx as int;
            assert(chunk_fits(self.source_inputs@[s]->Some_0, self.num_columns));
        }
        while c < self.num_columns
            invariant
                self.wf(),
                self.elem_ok(e),
                c <= self.num_columns,
                self.elem_row(e).len() == self.num_columns,
                r@ == self.elem_row(e).subrange(0, c as int),
            decreases self.num_columns - c,
        {
            let d = self.datum_at(e, c);
            r.push(d);
            assert(r@ =~= self.elem_row(e).subrange(0, c + 1));
            c += 1;
        }
        assert(r@ =~= self.elem_row(e));
        r
    }

    /// Sends the row under cursor `e` to the output chunk under construction.
    fn append_row(&mut self, e: HeapElem)
        requires
            old(self).wf(),
            old(self).elem_ok(e),
            old(self).init_done(),
            !old(self).exhausted,
            old(self).awaiting is None,
            old(self).produced < old(self).window,
            old(self).inputs_sorted@ ==> (old(self).output@.len() > 0 ==> row_le(old(self).order@, old(self).output@.last(), old(self).elem_row(e)))
                && forall|i: int| 0 <= i < old(self).min_heap@.len()
                    ==> row_le(old(self).order@, old(self).elem_row(e), old(self).elem_row(#[trigger] old(self).min_heap@[i])),
        ensures
            final(self).wf(),
            final(self).output@ == old(self).output@.push(old(self).elem_row(e)),
            final(self).produced == old(self).produced + 1,
            final(self).order == old(self).order,
            final(self).source_inputs == old(self).source_inputs,
            final(self).min_heap == old(self).min_heap,
            final(self).num_columns == old(self).num_columns,
            final(self).window == old(self).window,
            final(self).initialized == old(self).initialized,
            final(self).awaiting == old(self).awaiting,
            final(self).exhausted == old(self).exhausted,
            final(self).inputs_sorted == old(self).inputs_sorted,
            final(self).received == old(self).received,
            final(self).ended == old(self).ended,
            final(self).emitted == old(self).emitted,
    {
        let row = self.row_values(e);
        let ghost rs = row@;
        let mut b: Vec<Vec<Datum>> = Vec::new();
        std::mem::swap(&mut b, &mut self.builders);
        let ghost b0 = b@;
        let mut c: usize = 0;
        while c < row.len()
            invariant
                row@ == rs,
                rs.len() == b0.len(),
                b@.len() == b0.len(),
                c <= b0.len(),
                forall|j: int| 0 <= j < c ==> (#[trigger] b@[j])@ == b0[j]@.push(rs[j]),
                forall|j: int| c <= j < b0.len() ==> #[trigger] b@[j] == b0[j],
            decreases b0.len() - c,
        {
            b[c].push(row[c]);
            c += 1;
        }
        std::mem::swap(&mut b, &mut self.builders);
        self.output = Ghost(self.output@.push(rs));
        self.produced = self.produced + 1;
        proof {
            let o = old(self).output@;
            let p0 = old(self).pending_output();
            assert(self.pending_output() =~= p0.push(rs));
            assert(self.output@.subrange(0, self.output@.len() - self.produced) =~= o.subrange(0, o.len() - old(self).produced));
            assert forall|c: int, k: int| 0 <= c < self.num_columns && 0 <= k < self.produced
                implies (#[trigger] self.builders@[c])@[k] == (#[trigger] self.pending_output()[k])[c] by {
                if k < self.produced - 1 {
                    assert(old(self).builders@[c]@[k] == p0[k][c]);
                }
            }
            assert forall|k: int| 0 <= k < self.output@.len() implies (#[trigger] self.output@[k]).len() == self.num_columns by {
                if k < o.len() {
                    assert(self.output@[k] == o[k]);
                }
            }
            if self.inputs_sorted@ {
                assert(old(self).order_kept());
                let ord = self.order@;
                lemma_cmp_antisym(ord, rs, rs);
                assert forall|i: int, j: int| 0 <= i <= j < self.output@.len()
                    implies row_le(ord, #[trigger] self.output@[i], #[trigger] self.output@[j]) by {
                    if j == o.len() {
                        if i < o.len() {
                            assert(row_le(ord, o[i], o.last()));
                            lemma_row_le_trans(ord, o[i], o.last(), rs);
                        }
                    } else {
                        assert(self.output@[i] == o[i]);
                        assert(self.output@[j] == o[j]);
                    }
                }
                assert(self.output@.last() == rs);
                assert(self.order_kept());
            }
        }
    }


    /// Puts a cursor on visible row `row_idx` of the current chunk of
    /// `source_idx` into the heap.
    fn push_row_into_heap(&mut self, source_idx: usize, row_idx: usize)
        requires
            old(self).wf(),
            source_idx < old(self).initialized,
            !old(self).exhausted,
            old(self).awaiting != Some(source_idx),
            old(self).elem_ok(HeapElem { source_idx, row_idx }),
            forall|i: int| 0 <= i < old(self).min_heap@.len() ==> (#[trigger] old(self).min_heap@[i]).source_idx != source_idx,
            old(self).inputs_sorted@ ==> sorted_rows(old(self).order@, old(self).chunk_of(source_idx as int).rows_from(row_idx as int))
                && (old(self).output@.len() > 0 ==> row_le(old(self).order@, old(self).output@.last(),
                    old(self).elem_row(HeapElem { source_idx, row_idx }))),
        ensures
            final(self).wf(),
            final(self).min_heap@ == old(self).min_heap@.push(HeapElem { source_idx, row_idx }),
            final(self).order == old(self).order,
            final(self).source_inputs == old(self).source_inputs,
            final(self).num_columns == old(self).num_columns,
            final(self).window == old(self).window,
            final(self).initialized == old(self).initialized,
            final(self).awaiting == old(self).awaiting,
            final(self).builders == old(self).builders,
            final(self).produced == old(self).produced,
            final(self).exhausted == old(self).exhausted,
            final(self).output == old(self).output,
            final(self).inputs_sorted == old(self).inputs_sorted,
            final(self).received == old(self).received,
            final(self).ended == old(self).ended,
            final(self).emitted == old(self).emitted,
    {
        let ghost h = self.min_heap@;
        let e = HeapElem { source_idx, row_idx };
        self.min_heap.push(e);
        proof {
            let n = h.len() as int;
            assert(self.min_heap@[n] == e);
            assert forall|j: int| 0 <= j < n implies #[trigger] self.min_heap@[j] == h[j] by {}
            assert forall|a: int, b: int| 0 <= a < self.min_heap@.len() && 0 <= b < self.min_heap@.len() && a != b
                implies (#[trigger] self.min_heap@[a]).source_idx != (#[trigger] self.min_heap@[b]).source_idx by {
                if a < n && b < n {
                    assert(self.min_heap@[a] == h[a]);
                    assert(self.min_heap@[b] == h[b]);
                }
            }
            assert forall|j: int| 0 <= j < self.min_heap@.len() implies self.elem_ok(#[trigger] self.min_heap@[j])
                && self.min_heap@[j].source_idx < self.initialized by {
                if j < n {
                    assert(self.min_heap@[j] == h[j]);
                }
            }
            assert(self.pending_output() == old(self).pending_output());
            if self.inputs_sorted@ {
                assert(old(self).order_kept());
                assert forall|j: int| 0 <= j < self.min_heap@.len() implies {
                    let x = #[trigger] self.min_heap@[j];
                    &&& sorted_rows(self.order@, self.chunk_of(x.source_idx as int).rows_from(x.row_idx as int))
                    &&& (self.output@.len() > 0 ==> row_le(self.order@, self.output@.last(), self.elem_row(x)))
                } by {
                    if j < n {
                        assert(self.min_heap@[j] == h[j]);
                    }
                }
                assert(self.order_kept());
            }
        }
    }


    /// Finishes the output chunk under construction and starts an empty one.
    fn take_output(&mut self) -> (c: DataChunk)
        requires
            old(self).wf(),
            old(self).produced > 0,
        ensures
            final(self).wf(),
            c.rows() == old(self).pending_output(),
            chunk_fits(c, old(self).num_columns),
            c.spec_cardinality() == old(self).produced,
            final(self).emitted@ == old(self).emitted@ + c.rows(),
            forall|k: int| 0 <= k < c.num_rows() ==> #[trigger] c.visibility@[k],
            final(self).produced == 0,
            final(self).output == old(self).output,
            final(self).order == old(self).order,
            final(self).source_inputs == old(self).source_inputs,
            final(self).min_heap == old(self).min_heap,
            final(self).num_columns == old(self).num_columns,
            final(self).window == old(self).window,
            final(self).initialized == old(self).initialized,
            final(self).awaiting == old(self).awaiting,
            final(self).exhausted == old(self).exhausted,
            final(self).inputs_sorted == old(self).inputs_sorted,
            final(self).received == old(self).received,
            final(self).ended == old(self).ended,
    {
        let n = self.produced;
        let mut columns = Self::empty_builders(self.num_columns);
        std::mem::swap(&mut columns, &mut self.builders);
        let mut visibility: Vec<bool> = Vec::new();
        let mut k: usize = 0;
        while k < n
            invariant
                k <= n,
                visibility@.len() == k,
                forall|j: int| 0 <= j < k ==> #[trigger] visibility@[j],
            decreases n - k,
        {
            visibility.push(true);
            k += 1;
        }
        self.produced = 0;
        let ghost all_out = self.output@;
        self.emitted = Ghost(all_out);
        let c = DataChunk { columns, visibility };
        proof {
            let p = old(self).pending_output();
            c.lemma_all_visible(0);
            assert(c.visible_from(0, n as int) =~= Seq::new(n as nat, |k: int| k));
            assert forall|k: int| 0 <= k < n implies #[trigger] c.rows()[k] == p[k] by {
                assert(c.rows()[k] == c.row(k));
                assert(p[k] == old(self).output@[old(self).output@.len() - n + k]);
                assert(p[k].len() == self.num_columns);
                assert(c.row(k) =~= p[k]);
            }
            assert(c.rows() =~= p);
            assert(self.pending_output() =~= Seq::<Row>::empty());
            let o = old(self).output@;
            assert(o =~= o.subrange(0, o.len() - n as int) + p);
            assert(self.emitted@ =~= self.output@.subrange(0, self.output@.len() - self.produced));
        }
        c
    }


    /// The next visible row after cursor `e` in its chunk.
    fn next_row_after(&self, e: HeapElem) -> (r: Option<usize>)
        requires
            self.wf(),
            self.elem_ok(e),
        ensures
            r is None ==> self.chunk_of(e.source_idx as int).rows_from(e.row_idx + 1).len() == 0,
            r matches Some(n) ==> self.elem_ok(HeapElem { source_idx: e.source_idx, row_idx: n })
                && self.chunk_of(e.source_idx as int).rows_from(e.row_idx + 1)
                == self.chunk_of(e.source_idx as int).rows_from(n as int),
    {
        match &self.source_inputs[e.source_idx] {
            Some(chunk) => {
                let len = chunk.visibility.len();
                let r = chunk.next_visible_row_idx(e.row_idx + 1);
                proof {
                    let nr = chunk.num_rows() as int;
                    if let Some(n) = r {
                        assert(chunk.visible_from(n as int, nr) == seq![n as int] + chunk.visible_from(n + 1, nr));
                        assert(chunk.visible_from(e.row_idx + 1, nr) == chunk.visible_from(n as int, nr));
                    }
                }
                r
            },
            None => None,
        }
    }

    /// Merges until the output chunk is full, the inputs run out, or a source
    /// must be pulled.
    fn produce(&mut self) -> (r: Action)
        requires
            old(self).wf(),
            old(self).init_done(),
            old(self).awaiting is None,
            !old(self).exhausted,
            old(self).conserved(),
            old(self).accounted(),
        ensures
            final(self).step_ok(old(self), &r),
            final(self).inputs_sorted == old(self).inputs_sorted,
            final(self).received == old(self).received,
            final(self).ended == old(self).ended,
            old(self).min_heap@.len() == 0 && old(self).produced == 0 ==> r is Done,
    {
        let ghost start = *self;
        assert(self.output@.subrange(0, start.output@.len() as int) =~= start.output@);
        while self.produced < self.window && self.min_heap.len() > 0
            invariant
                start == *old(self),
                start.min_heap@.len() == 0 ==> self.min_heap@.len() == 0 && self.produced == start.produced,
                self.wf(),
                self.init_done(),
                self.awaiting is None,
                !self.exhausted,
                self.order == start.order,
                self.num_columns == start.num_columns,
                self.window == start.window,
                self.num_sources() == start.num_sources(),
                self.inputs_sorted == start.inputs_sorted,
                start.output@.len() <= self.output@.len(),
                self.output@.subrange(0, start.output@.len() as int) == start.output@,
                self.produced == 0 ==> self.output == start.output,
                self.conserved(),
                self.accounted(),
                self.received == start.received,
                self.emitted == start.emitted,
                self.ended == start.ended,
            decreases self.window - self.produced,
        {
            let ghost before = *self;
            let e = self.pop_min();
            let ghost popped = *self;
            self.append_row(e);
            let ghost ch = self.chunk_of(e.source_idx as int);
            proof {
                let h = before.min_heap@;
                let k = h.index_of(e);
                assert(h.contains(e));
                assert(h[k] == e);
                lemma_cursor_rows_remove(self.source_inputs@, h, k);
                ch.lemma_rows_from_visible(e.row_idx as int);
                lemma_multiset_commutative(seq![ch.row(e.row_idx as int)], ch.rows_from(e.row_idx + 1));
                assert(seq![ch.row(e.row_idx as int)].to_multiset() =~= Multiset::empty().insert(ch.row(e.row_idx as int))) by {
                    broadcast use vstd::seq_lib::group_to_multiset_ensures;
                    assert(seq![ch.row(e.row_idx as int)] =~= Seq::<Row>::empty().push(ch.row(e.row_idx as int)));
                    assert(Seq::<Row>::empty().to_multiset() =~= Multiset::empty());
                }
                vstd::seq_lib::to_multiset_build(before.output@, ch.row(e.row_idx as int));
                let rest = ch.rows_from(e.row_idx + 1).to_multiset();
                let cr = cursor_rows(self.source_inputs@, self.min_heap@);
                let om = before.output@.to_multiset();
                let x = ch.row(e.row_idx as int);
                assert(self.received@ =~= self.output@.to_multiset().add(cr).add(rest)) by {
                    assert(self.output@ == before.output@.push(x));
                }
            }
            proof {
                assert(self.output@.subrange(0, start.output@.len() as int) =~= start.output@) by {
                    assert(before.output@.subrange(0, start.output@.len() as int) == start.output@);
                }
            }
            let ghost appended = *self;
            match self.next_row_after(e) {
                Some(n) => {
                    proof {
                        let ch = self.chunk_of(e.source_idx as int);
                        if self.inputs_sorted@ {
                            ch.lemma_rows_from_visible(e.row_idx as int);
                            lemma_sorted_cons(self.order@, ch.row(e.row_idx as int), ch.rows_from(e.row_idx + 1));
                            ch.lemma_rows_from_visible(n as int);
                            assert(ch.rows_from(n as int)[0] == ch.row(n as int));
                            assert(self.output@.last() == popped.elem_row(e));
                        }
                    }
                    self.push_row_into_heap(e.source_idx, n);

                    proof {
                        let h0 = before.min_heap@;
                        let k = h0.index_of(e);
                        assert(h0.contains(e));
                        assert(h0[k] == e);
                        assert forall|s: int| 0 <= s < self.initialized implies #[trigger] self.ended@[s]
                            || self.awaiting == Some(s as usize)
                            || exists|i: int| 0 <= i < self.min_heap@.len() && (#[trigger] self.min_heap@[i]).source_idx == s by {
                            if !self.ended@[s] && s != e.source_idx {
                                assert(before.ended@[s] == self.ended@[s]);
                                let i = choose|i: int| 0 <= i < h0.len() && (#[trigger] h0[i]).source_idx == s;
                                assert(i != k);
                                let i2 = if i < k { i } else { i - 1 };
                                assert(popped.min_heap@[i2] == h0[i]);
                                assert(self.min_heap@[i2] == popped.min_heap@[i2]);
                            }
                            if s == e.source_idx {
                                assert(self.min_heap@[popped.min_heap@.len() as int].source_idx == s);
                            }
                        }
                    }
                    proof {
                        lemma_cursor_rows_push(self.source_inputs@, popped.min_heap@, HeapElem { source_idx: e.source_idx, row_idx: n });
                        assert(self.received@ =~= self.output@.to_multiset().add(cursor_rows(self.source_inputs@, self.min_heap@)));
                    }
                },
                None => {
                    proof {
                        assert(ch.rows_from(e.row_idx + 1) =~= Seq::<Row>::empty());
                        ch.lemma_last_visible(e.row_idx as int);
                        assert(self.output@.last() == popped.elem_row(e));
                        assert(Seq::<Row>::empty().to_multiset() =~= Multiset::empty()) by {
                            broadcast use vstd::seq_lib::group_to_multiset_ensures;
                        }
                        assert(self.received@ =~= self.output@.to_multiset().add(cursor_rows(self.source_inputs@, self.min_heap@)));
                    }
                    self.await_source(e.source_idx);
                    proof {
                        let h0 = before.min_heap@;
                        let k = h0.index_of(e);
                        assert(h0.contains(e));
                        assert(h0[k] == e);
                        assert forall|s: int| 0 <= s < self.initialized implies #[trigger] self.ended@[s]
                            || self.awaiting == Some(s as usize)
                            || exists|i: int| 0 <= i < self.min_heap@.len() && (#[trigger] self.min_heap@[i]).source_idx == s by {
                            if !self.ended@[s] && s != e.source_idx {
                                assert(before.ended@[s] == self.ended@[s]);
                                let i = choose|i: int| 0 <= i < h0.len() && (#[trigger] h0[i]).source_idx == s;
                                assert(i != k);
                                let i2 = if i < k { i } else { i - 1 };
                                assert(popped.min_heap@[i2] == h0[i]);
                                assert(self.min_heap@[i2] == popped.min_heap@[i2]);
                            }
                        }
                    }
                    return Action::Pull(e.source_idx);
                },
            }
        }
        if self.produced == 0 {
            self.exhausted = true;
            return Action::Done;
        }
        let ghost pre = *self;
        let c = self.take_output();
        proof {
            assert(pre.pending_output() == self.output@.subrange(self.output@.len() - c.spec_cardinality(), self.output@.len() as int));
        }
        Action::Emit(c)
    }


    /// Records that the chunk of `source_idx` is being waited for.
    fn await_source(&mut self, source_idx: usize)
        requires
            old(self).wf(),
            old(self).init_done(),
            old(self).awaiting is None,
            !old(self).exhausted,
            source_idx < old(self).num_sources(),
            forall|i: int| 0 <= i < old(self).min_heap@.len() ==> (#[trigger] old(self).min_heap@[i]).source_idx != source_idx,
            old(self).source_inputs@[source_idx as int] is Some,
            old(self).output@.len() > 0,
            old(self).output@.last() == old(self).chunk_of(source_idx as int).rows().last(),
        ensures
            final(self).wf(),
            final(self).awaiting == Some(source_idx),
            final(self).order == old(self).order,
            final(self).source_inputs == old(self).source_inputs,
            final(self).min_heap == old(self).min_heap,
            final(self).num_columns == old(self).num_columns,
            final(self).window == old(self).window,
            final(self).initialized == old(self).initialized,
            final(self).builders == old(self).builders,
            final(self).produced == old(self).produced,
            final(self).exhausted == old(self).exhausted,
            final(self).output == old(self).output,
            final(self).inputs_sorted == old(self).inputs_sorted,
            final(self).received == old(self).received,
            final(self).ended == old(self).ended,
            final(self).emitted == old(self).emitted,
    {
        self.awaiting = Some(source_idx);
        assert(self.pending_output() == old(self).pending_output());
    }


    /// Whether `c` has the schema's columns, each with one value per row.
    fn chunk_matches(c: &DataChunk, num_columns: usize) -> (r: bool)
        ensures
            r == chunk_fits(*c, num_columns),
    {
        if c.columns.len() != num_columns {
            return false;
        }
        let n = c.visibility.len();
        let mut i: usize = 0;
        while i < c.columns.len()
            invariant
                i <= c.columns@.len(),
                n == c.visibility@.len(),
                forall|j: int| 0 <= j < i ==> (#[trigger] c.columns@[j])@.len() == n,
            decreases c.columns@.len() - i,
        {
            if c.columns[i].len() != n {
                return false;
            }
            i += 1;
        }
        true
    }

    /// Takes in what the awaited source answered: a chunk becomes its current
    /// chunk, with a cursor on its first visible row; end of stream leaves its
    /// slot empty for good.
    fn get_source_chunk(&mut self, data: Option<DataChunk>)
        requires
            old(self).wf(),
            old(self).awaiting is Some,
            old(self).conserved(),
            old(self).accounted(),
            data matches Some(c) ==> chunk_fits(c, old(self).num_columns) && c.spec_cardinality() > 0,
        ensures
            final(self).wf(),
            final(self).conserved(),
            final(self).accounted(),
            final(self).received@ == (match data {
                Some(c) => old(self).received@.add(c.rows().to_multiset()),
                None => old(self).received@,
            }),
            final(self).awaiting is None,
            !final(self).exhausted,
            final(self).initialized == (if old(self).init_done() { old(self).initialized } else { (old(self).initialized + 1) as usize }),
            final(self).order == old(self).order,
            final(self).num_columns == old(self).num_columns,
            final(self).window == old(self).window,
            final(self).num_sources() == old(self).num_sources(),
            final(self).output == old(self).output,
            final(self).produced == old(self).produced,
            final(self).inputs_sorted@ == (old(self).inputs_sorted@ && (data matches Some(c) ==> old(self).continues_sorted(c))),
            final(self).source_inputs@ == old(self).source_inputs@.update(old(self).awaiting->Some_0 as int, data),
            final(self).ended@ == (if data is None {
                old(self).ended@.update(old(self).awaiting->Some_0 as int, true)
            } else {
                old(self).ended@
            }),
            final(self).emitted == old(self).emitted,
            data is None ==> final(self).min_heap@ == old(self).min_heap@,
            data matches Some(c) ==> final(self).min_heap@.len() == old(self).min_heap@.len() + 1
                && final(self).min_heap@.drop_last() == old(self).min_heap@
                && final(self).min_heap@.last().source_idx == old(self).awaiting->Some_0
                && c.visibility@[final(self).min_heap@.last().row_idx as int]
                && c.rows_from(final(self).min_heap@.last().row_idx as int) == c.rows(),
    {
        let src = match self.awaiting {
            Some(s) => s,
            None => 0,
        };
        let ghost s0 = *self;
        let ghost dg = data;
        let ghost still_sorted = self.inputs_sorted@ && (dg is Some ==> self.continues_sorted(dg->Some_0));
        self.inputs_sorted = Ghost(still_sorted);
        let ghost new_rows = if dg is Some { dg->Some_0.rows().to_multiset() } else { Multiset::empty() };
        let ghost received = self.received@.add(new_rows);
        self.received = Ghost(received);
        self.awaiting = None;
        if data.is_none() {
            let ghost ended = self.ended@.update(src as int, true);
            self.ended = Ghost(ended);
        }
        if self.initialized < self.source_inputs.len() {
            self.initialized = self.initialized + 1;
        }
        let first = match &data {
            Some(c) => c.next_visible_row_idx(0),
            None => None,
        };
        let ghost s1 = *self;
        self.source_inputs.set(src, data);
        proof {
            assert forall|i: int| 0 <= i < self.min_heap@.len() implies
                self.source_inputs@[(#[trigger] self.min_heap@[i]).source_idx as int]
                == s0.source_inputs@[self.min_heap@[i].source_idx as int] by {
                assert(s0.min_heap@[i].source_idx != src);
            }
            lemma_cursor_rows_frame(self.source_inputs@, s0.source_inputs@, self.min_heap@);
            assert(self.pending_output() == s0.pending_output());
            assert forall|s: int| 0 <= s < self.num_sources() && (#[trigger] self.source_inputs@[s]) is Some
                implies chunk_fits(self.source_inputs@[s]->Some_0, self.num_columns) by {
                if s != src {
                    assert(self.source_inputs@[s] == s0.source_inputs@[s]);
                }
            }
            assert forall|i: int| 0 <= i < self.min_heap@.len() implies self.elem_ok(#[trigger] self.min_heap@[i])
                && self.chunk_of(self.min_heap@[i].source_idx as int) == s0.chunk_of(self.min_heap@[i].source_idx as int) by {
                assert(s0.min_heap@[i].source_idx != src);
            }
            if self.inputs_sorted@ {
                assert(s0.order_kept());
                assert forall|i: int| 0 <= i < self.min_heap@.len() implies {
                    let x = #[trigger] self.min_heap@[i];
                    &&& sorted_rows(self.order@, self.chunk_of(x.source_idx as int).rows_from(x.row_idx as int))
                    &&& (self.output@.len() > 0 ==> row_le(self.order@, self.output@.last(), self.elem_row(x)))
                } by {
                    assert(s0.min_heap@[i].source_idx != src);
                    assert(self.chunk_of(self.min_heap@[i].source_idx as int) == s0.chunk_of(self.min_heap@[i].source_idx as int));
                }
                assert(self.order_kept());
            }
        }
        if let Some(f) = first {
            proof {
                let c = self.chunk_of(src as int);
                let nr = c.num_rows() as int;
                assert(c.visible_from(f as int, nr) == seq![f as int] + c.visible_from(f + 1, nr));
                assert(c.visible_from(0, nr) == c.visible_from(f as int, nr));
                assert(c.rows_from(f as int) == c.rows());
                if self.inputs_sorted@ {
                    c.lemma_rows_from_visible(f as int);
                    assert(c.rows()[0] == c.row(f as int));
                }
            }
            let ghost s2 = *self;
            self.push_row_into_heap(src, f);
            proof {
                assert(self.min_heap@.drop_last() =~= s2.min_heap@);
                lemma_cursor_rows_push(self.source_inputs@, s2.min_heap@, HeapElem { source_idx: src, row_idx: f });
                assert(self.received@ =~= self.output@.to_multiset().add(cursor_rows(self.source_inputs@, self.min_heap@)));
            }
        } else {
            proof {
                assert(self.received@ =~= self.output@.to_multiset().add(cursor_rows(self.source_inputs@, self.min_heap@)));
                if dg is Some {
                    let c = dg->Some_0;
                    assert(c.visible_from(0, c.num_rows() as int).len() == 0);
                }
            }
        }
    }

    /// Starts or resumes the production of the next output chunk.
    pub fn next(&mut self) -> (r: Action)
        requires
            old(self).wf(),
            old(self).conserved(),
            old(self).accounted(),
            old(self).awaiting is None,
        ensures
            final(self).step_ok(old(self), &r),
            final(self).inputs_sorted == old(self).inputs_sorted,
            final(self).received == old(self).received,
            final(self).ended == old(self).ended,
            old(self).exhausted ==> r is Done && *final(self) == *old(self),
            !old(self).init_done() ==> r == Action::Pull(old(self).initialized),
            old(self).init_done() && old(self).min_heap@.len() == 0 && old(self).produced == 0 ==> r is Done,
    {
        if self.exhausted {
            assert(self.output@.subrange(0, self.output@.len() as int) =~= self.output@);
            assert(self.conserved());
            return Action::Done;
        }
        if self.initialized < self.source_inputs.len() {
            let i = self.initialized;
            self.awaiting = Some(i);
            assert(self.pending_output() == old(self).pending_output());
            assert(self.conserved());
            assert(self.output@.subrange(0, old(self).output@.len() as int) =~= old(self).output@);
            return Action::Pull(i);
        }
        self.produce()
    }

    /// Hands in what the awaited source answered to its pull: its next chunk,
    /// or `None` at its end. A chunk off the schema is refused.
    pub fn on_source_data(&mut self, data: Option<DataChunk>) -> (r: Result<Action, ExchangeError>)
        requires
            old(self).wf(),
            old(self).conserved(),
            old(self).accounted(),
            old(self).awaiting is Some,
            data matches Some(c) ==> c.spec_cardinality() > 0,
        ensures
            r is Err <==> (data matches Some(c) && !chunk_fits(c, old(self).num_columns)),
            r is Err ==> r == Err::<Action, ExchangeError>(ExchangeError::SchemaMismatch) && *final(self) == *old(self),
            r matches Ok(a) ==> final(self).step_ok(old(self), &a)
                && final(self).inputs_sorted@ == (old(self).inputs_sorted@ && (data matches Some(c) ==> old(self).continues_sorted(c)))
                && final(self).received@ == (match data {
                    Some(c) => old(self).received@.add(c.rows().to_multiset()),
                    None => old(self).received@,
                })
                && final(self).ended@ == (if data is None {
                    old(self).ended@.update(old(self).awaiting->Some_0 as int, true)
                } else {
                    old(self).ended@
                }),
            r is Ok && !old(self).init_done() && old(self).initialized + 1 < old(self).num_sources()
                ==> r == Ok::<Action, ExchangeError>(Action::Pull((old(self).initialized + 1) as usize)),
    {
        if let Some(c) = &data {
            if !Self::chunk_matches(c, self.num_columns) {
                return Err(ExchangeError::SchemaMismatch);
            }
        }
        self.get_source_chunk(data);
        if self.initialized < self.source_inputs.len() {
            let i = self.initialized;
            let ghost s1 = *self;
            self.awaiting = Some(i);
            assert(self.pending_output() == s1.pending_output());
            assert(self.output@.subrange(0, old(self).output@.len() as int) =~= old(self).output@);
            return Ok(Action::Pull(i));
        }
        let ghost s1 = *self;
        let a = self.produce();
        assert(s1.output@.subrange(0, old(self).output@.len() as int) =~= old(self).output@);
        proof {
            let n0 = old(self).output@.len() as int;
            let n1 = s1.output@.len() as int;
            assert(self.output@.subrange(0, n1) == s1.output@);
            assert(self.output@.subrange(0, n0) =~= self.output@.subrange(0, n1).subrange(0, n0));
        }
        Ok(a)
    }

    fn empty_builders(num_columns: usize) -> (r: Vec<Vec<Datum>>)
        ensures
            r@.len() == num_columns,
            forall|c: int| 0 <= c < num_columns ==> (#[trigger] r@[c])@.len() == 0,
    {
        let mut builders: Vec<Vec<Datum>> = Vec::new();
        let mut c: usize = 0;
        while c < num_columns
            invariant
                c <= num_columns,
                builders@.len() == c,
                forall|j: int| 0 <= j < c ==> (#[trigger] builders@[j])@.len() == 0,
            decreases num_columns - c,
        {
            builders.push(Vec::new());
            c += 1;
        }
        builders
    }
}

} // verus!
