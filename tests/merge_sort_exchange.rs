use std::collections::VecDeque;

use riverbed::chunk::{DataChunk, Datum, OrderPair, OrderType};
use riverbed::merge_sort_exchange::{Action, ExchangeError, MergeSortExchange, K_PROCESSING_WINDOW_SIZE};

fn int_chunk(values: &[i64]) -> DataChunk {
    DataChunk {
        columns: vec![values.iter().map(|v| Some(*v)).collect()],
        visibility: vec![true; values.len()],
    }
}

fn asc() -> Vec<OrderPair> {
    vec![OrderPair { column_idx: 0, order_type: OrderType::Ascending }]
}

/// Drives one `next` call to its end, answering pulls from `sources`.
fn next_chunk(ex: &mut MergeSortExchange, sources: &mut [VecDeque<DataChunk>]) -> Option<DataChunk> {
    let mut action = ex.next();
    loop {
        match action {
            Action::Pull(i) => {
                let data = sources[i].pop_front();
                action = ex.on_source_data(data).unwrap();
            }
            Action::Emit(c) => return Some(c),
            Action::Done => return None,
        }
    }
}

fn column0(c: &DataChunk) -> Vec<Datum> {
    c.columns[0].clone()
}

fn drain(ex: &mut MergeSortExchange, sources: &mut [VecDeque<DataChunk>]) -> Vec<Vec<Datum>> {
    let mut out = Vec::new();
    while let Some(c) = next_chunk(ex, sources) {
        out.push(column0(&c));
    }
    out
}

fn somes(v: &[i64]) -> Vec<Datum> {
    v.iter().map(|x| Some(*x)).collect()
}

#[test]
fn test_exchange_multiple_sources() {
    let num_sources = 2;
    let mut sources: Vec<VecDeque<DataChunk>> =
        (0..num_sources).map(|_| VecDeque::from(vec![int_chunk(&[1, 2, 3])])).collect();
    let mut executor = MergeSortExchange::new(asc(), 1, num_sources, K_PROCESSING_WINDOW_SIZE).unwrap();
    let res = next_chunk(&mut executor, &mut sources);
    assert!(matches!(res, Some(_)));
    if let Some(res) = res {
        assert_eq!(res.visibility.len(), 3 * num_sources);
        let col0 = &res.columns[0];
        assert_eq!(col0[0], Some(1));
        assert_eq!(col0[1], Some(1));
        assert_eq!(col0[2], Some(2));
        assert_eq!(col0[3], Some(2));
        assert_eq!(col0[4], Some(3));
        assert_eq!(col0[5], Some(3));
    }
    assert!(matches!(next_chunk(&mut executor, &mut sources), None));
}

#[test]
fn asymmetric_sources_merge_in_order() {
    let mut sources = vec![
        VecDeque::from(vec![int_chunk(&[1, 4, 7])]),
        VecDeque::from(vec![int_chunk(&[2, 5, 8])]),
        VecDeque::from(vec![int_chunk(&[3, 6, 9])]),
    ];
    let mut ex = MergeSortExchange::new(asc(), 1, 3, K_PROCESSING_WINDOW_SIZE).unwrap();
    let out = drain(&mut ex, &mut sources);
    assert_eq!(out, vec![somes(&[1, 2, 3, 4, 5, 6, 7, 8, 9])]);
}

#[test]
fn mid_stream_exhaustion_drains_the_rest() {
    let mut sources = vec![
        VecDeque::from(vec![int_chunk(&[1, 2])]),
        VecDeque::from(vec![int_chunk(&[3, 4]), int_chunk(&[5, 6])]),
    ];
    let mut ex = MergeSortExchange::new(asc(), 1, 2, K_PROCESSING_WINDOW_SIZE).unwrap();
    let out = drain(&mut ex, &mut sources);
    assert_eq!(out, vec![somes(&[1, 2, 3, 4, 5, 6])]);
}

#[test]
fn window_law_full_chunks_then_a_short_one() {
    let mut sources = vec![
        VecDeque::from(vec![int_chunk(&[1, 3, 5]), int_chunk(&[7])]),
        VecDeque::from(vec![int_chunk(&[2, 4]), int_chunk(&[6, 8])]),
    ];
    let mut ex = MergeSortExchange::new(asc(), 1, 2, 3).unwrap();
    let out = drain(&mut ex, &mut sources);
    assert_eq!(out, vec![somes(&[1, 2, 3]), somes(&[4, 5, 6]), somes(&[7, 8])]);
}

#[test]
fn exhausted_exchange_keeps_answering_done() {
    let mut sources = vec![VecDeque::from(vec![int_chunk(&[1])])];
    let mut ex = MergeSortExchange::new(asc(), 1, 1, 4).unwrap();
    assert_eq!(drain(&mut ex, &mut sources), vec![somes(&[1])]);
    assert!(matches!(ex.next(), Action::Done));
    assert!(matches!(ex.next(), Action::Done));
}

#[test]
fn sources_that_are_all_empty_give_no_chunk() {
    let mut sources = vec![VecDeque::new(), VecDeque::new()];
    let mut ex = MergeSortExchange::new(asc(), 1, 2, 4).unwrap();
    assert!(next_chunk(&mut ex, &mut sources).is_none());
}

#[test]
fn invisible_rows_are_skipped() {
    let hidden = DataChunk {
        columns: vec![somes(&[1, 2, 3, 4])],
        visibility: vec![true, false, true, false],
    };
    let mut sources = vec![VecDeque::from(vec![hidden]), VecDeque::from(vec![int_chunk(&[2])])];
    let mut ex = MergeSortExchange::new(asc(), 1, 2, 8).unwrap();
    assert_eq!(drain(&mut ex, &mut sources), vec![somes(&[1, 2, 3])]);
}

#[test]
fn descending_order_puts_nulls_first() {
    let a = DataChunk { columns: vec![vec![None, Some(5), Some(1)]], visibility: vec![true; 3] };
    let b = DataChunk { columns: vec![vec![Some(4), Some(2)]], visibility: vec![true; 2] };
    let mut sources = vec![VecDeque::from(vec![a]), VecDeque::from(vec![b])];
    let order = vec![OrderPair { column_idx: 0, order_type: OrderType::Descending }];
    let mut ex = MergeSortExchange::new(order, 1, 2, 8).unwrap();
    assert_eq!(drain(&mut ex, &mut sources), vec![vec![None, Some(5), Some(4), Some(2), Some(1)]]);
}

#[test]
fn ascending_order_puts_nulls_last_and_breaks_ties_on_second_key() {
    let a = DataChunk {
        columns: vec![vec![Some(1), Some(1), None], vec![Some(9), Some(3), Some(0)]],
        visibility: vec![true; 3],
    };
    let b = DataChunk { columns: vec![vec![Some(1)], vec![Some(5)]], visibility: vec![true] };
    // a is sorted on (col0 asc, col1 desc)
    let order = vec![
        OrderPair { column_idx: 0, order_type: OrderType::Ascending },
        OrderPair { column_idx: 1, order_type: OrderType::Descending },
    ];
    let mut sources = vec![VecDeque::from(vec![a]), VecDeque::from(vec![b])];
    let mut ex = MergeSortExchange::new(order, 2, 2, 8).unwrap();
    let c = next_chunk(&mut ex, &mut sources).unwrap();
    assert_eq!(c.columns[0], vec![Some(1), Some(1), Some(1), None]);
    assert_eq!(c.columns[1], vec![Some(9), Some(5), Some(3), Some(0)]);
}

#[test]
fn conservation_of_rows_over_many_chunks() {
    let mut sources = vec![
        VecDeque::from(vec![int_chunk(&[1, 1, 4]), int_chunk(&[6, 9])]),
        VecDeque::from(vec![int_chunk(&[0, 4, 4]), int_chunk(&[5])]),
        VecDeque::from(vec![int_chunk(&[2]), int_chunk(&[2, 10])]),
    ];
    let mut ex = MergeSortExchange::new(asc(), 1, 3, 4).unwrap();
    let out = drain(&mut ex, &mut sources);
    let lens: Vec<usize> = out.iter().map(|c| c.len()).collect();
    assert_eq!(lens, vec![4, 4, 4]);
    let all: Vec<Datum> = out.into_iter().flatten().collect();
    assert_eq!(all, somes(&[0, 1, 1, 2, 2, 4, 4, 4, 5, 6, 9, 10]));
}

#[test]
fn empty_source_list_is_refused() {
    assert!(matches!(MergeSortExchange::new(asc(), 1, 0, 8), Err(ExchangeError::NoSources)));
}

#[test]
fn order_column_outside_schema_is_refused() {
    let order = vec![OrderPair { column_idx: 2, order_type: OrderType::Ascending }];
    assert!(matches!(MergeSortExchange::new(order, 2, 1, 8), Err(ExchangeError::OrderColumnOutOfRange)));
}

#[test]
fn empty_window_is_refused() {
    assert!(matches!(MergeSortExchange::new(asc(), 1, 1, 0), Err(ExchangeError::EmptyWindow)));
}

#[test]
fn chunk_off_schema_is_refused() {
    let mut ex = MergeSortExchange::new(asc(), 2, 1, 8).unwrap();
    assert!(matches!(ex.next(), Action::Pull(0)));
    let r = ex.on_source_data(Some(int_chunk(&[1])));
    assert!(matches!(r, Err(ExchangeError::SchemaMismatch)));
}

#[test]
fn first_call_pulls_each_source_in_turn() {
    let mut ex = MergeSortExchange::new(asc(), 1, 3, 8).unwrap();
    assert!(matches!(ex.next(), Action::Pull(0)));
    assert!(matches!(ex.on_source_data(Some(int_chunk(&[5]))), Ok(Action::Pull(1))));
    assert!(matches!(ex.on_source_data(None), Ok(Action::Pull(2))));
    // the third source ends too: the merge runs on what the first sent
    match ex.on_source_data(None) {
        Ok(Action::Pull(0)) => {}
        _ => panic!("expected the first source to be pulled once drained"),
    }
    match ex.on_source_data(None) {
        Ok(Action::Emit(c)) => assert_eq!(c.columns[0], somes(&[5])),
        _ => panic!("expected the row of the first source"),
    }
    assert!(matches!(ex.next(), Action::Done));
}
