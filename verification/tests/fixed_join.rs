use cozo::data::keyword::Keyword;
use cozo::data::tuple::{Tuple, TupleVec};
use cozo::transact::cursor::{JoinStep, TupleIter};
use cozo::data::value::DataValue;
use cozo::error::QueryError;
use cozo::transact::fixed::InlineFixedRelation;

fn text(s: &str) -> DataValue {
    DataValue::Str(s.to_string())
}

fn num(n: i64) -> DataValue {
    DataValue::Int(n)
}

fn rows(items: Vec<Vec<DataValue>>) -> TupleVec {
    items.into_iter().map(|r| Ok(Tuple(r))).collect()
}

fn table(columns: &[&str], data: Vec<Vec<DataValue>>) -> InlineFixedRelation {
    InlineFixedRelation { bindings: columns.iter().map(|c| Keyword::new(c)).collect(), data }
}

fn join_all(rel: &InlineFixedRelation, left: TupleVec, indices: (Vec<usize>, Vec<usize>)) -> TupleVec {
    rel.join(TupleIter::from_vec(left), indices).collect()
}

/// The join written as two loops, one inside the other.
fn naive_join(left: &[Vec<DataValue>], data: &[Vec<DataValue>], li: &[usize], ri: &[usize]) -> TupleVec {
    let mut out: TupleVec = Vec::new();
    for l in left {
        for r in data {
            let lk: Vec<&DataValue> = li.iter().map(|i| &l[*i]).collect();
            let rk: Vec<&DataValue> = ri.iter().map(|i| &r[*i]).collect();
            if lk == rk {
                let mut row = l.clone();
                row.extend(r.iter().cloned());
                out.push(Ok(Tuple(row)));
            }
        }
    }
    out
}

fn as_bag(items: &TupleVec) -> Vec<String> {
    let mut bag: Vec<String> = items.iter().map(|r| format!("{:?}", r)).collect();
    bag.sort();
    bag
}

struct Dice(u64);

impl Dice {
    fn roll(&mut self, sides: u64) -> u64 {
        self.0 = self.0.wrapping_mul(6364136223846793005).wrapping_add(1442695040888963407);
        (self.0 >> 33) % sides
    }
}

#[test]
fn fixed_join_on_first_column() {
    let rel = table(
        &["x", "y"],
        vec![vec![num(1), text("a")], vec![num(1), text("b")], vec![num(2), text("c")]],
    );
    let left = rows(vec![vec![num(1)], vec![num(2)], vec![num(3)]]);
    let out = join_all(&rel, left, (vec![0], vec![0]));
    let expected = rows(vec![
        vec![num(1), num(1), text("a")],
        vec![num(1), num(1), text("b")],
        vec![num(2), num(2), text("c")],
    ]);
    assert_eq!(out, expected);
}

#[test]
fn fixed_join_gives_nothing_for_an_unmatched_row() {
    let rel = table(&["x", "y"], vec![vec![num(1), text("a")], vec![num(2), text("c")]]);
    let out = join_all(&rel, rows(vec![vec![num(3)]]), (vec![0], vec![0]));
    assert_eq!(out, vec![]);
}

#[test]
fn empty_table_gives_the_empty_join() {
    let rel = table(&["x"], vec![]);
    let out = join_all(&rel, rows(vec![vec![num(1)], vec![num(2)]]), (vec![0], vec![0]));
    assert_eq!(out, vec![]);
}

#[test]
fn empty_table_does_not_look_at_the_left_side() {
    let rel = table(&["x"], vec![]);
    let left: TupleVec = vec![Err(QueryError::Storage("lost".to_string())), Ok(Tuple(vec![]))];
    assert_eq!(join_all(&rel, left, (vec![7], vec![0])), vec![]);
}

#[test]
fn one_row_table_is_broadcast_to_the_matching_rows() {
    let rel = table(&["k", "v"], vec![vec![text("hit"), num(100)]]);
    let left = rows(vec![
        vec![num(1), text("hit")],
        vec![num(2), text("miss")],
        vec![num(3), text("hit")],
    ]);
    let out = join_all(&rel, left, (vec![1], vec![0]));
    let expected = rows(vec![
        vec![num(1), text("hit"), text("hit"), num(100)],
        vec![num(3), text("hit"), text("hit"), num(100)],
    ]);
    assert_eq!(out, expected);
}

#[test]
fn join_on_no_column_pairs_every_row_with_every_row() {
    let one = table(&["a"], vec![vec![num(7)]]);
    let out = join_all(&one, rows(vec![vec![num(1)], vec![num(2)]]), (vec![], vec![]));
    assert_eq!(out, rows(vec![vec![num(1), num(7)], vec![num(2), num(7)]]));
    let two = table(&["a"], vec![vec![num(7)], vec![num(8)]]);
    let out = join_all(&two, rows(vec![vec![num(1)], vec![num(2)]]), (vec![], vec![]));
    assert_eq!(
        out,
        rows(vec![
            vec![num(1), num(7)],
            vec![num(1), num(8)],
            vec![num(2), num(7)],
            vec![num(2), num(8)],
        ])
    );
}

#[test]
fn join_on_two_columns_compares_both() {
    let rel = table(
        &["a", "b", "c"],
        vec![
            vec![num(1), num(1), text("p")],
            vec![num(1), num(2), text("q")],
            vec![num(2), num(1), text("r")],
            vec![num(1), num(2), text("s")],
        ],
    );
    let left = rows(vec![vec![num(2), num(1)], vec![num(1), num(2)]]);
    // the left columns are given in the order (second, first)
    let out = join_all(&rel, left, (vec![1, 0], vec![0, 1]));
    let expected = rows(vec![
        vec![num(2), num(1), num(1), num(2), text("q")],
        vec![num(2), num(1), num(1), num(2), text("s")],
        vec![num(1), num(2), num(2), num(1), text("r")],
    ]);
    assert_eq!(out, expected);
}

#[test]
fn values_of_different_kinds_do_not_match() {
    let rel = table(&["k"], vec![vec![num(1)], vec![text("1")], vec![DataValue::Null]]);
    let left = rows(vec![vec![text("1")], vec![DataValue::Bool(true)], vec![DataValue::Null]]);
    let out = join_all(&rel, left, (vec![0], vec![0]));
    assert_eq!(out, rows(vec![vec![text("1"), text("1")], vec![DataValue::Null, DataValue::Null]]));
}

#[test]
fn left_error_ends_the_fixed_join() {
    let lost = QueryError::Storage("lost".to_string());
    for data in [
        vec![vec![num(1), text("a")]],
        vec![vec![num(1), text("a")], vec![num(1), text("b")], vec![num(2), text("c")]],
    ] {
        let copies = data.iter().filter(|r| r[0] == num(1)).count();
        let rel = table(&["x", "y"], data);
        let left: TupleVec = vec![
            Ok(Tuple(vec![num(1)])),
            Ok(Tuple(vec![num(9)])),
            Ok(Tuple(vec![num(1)])),
            Err(lost.clone()),
            Ok(Tuple(vec![num(1)])),
            Err(QueryError::NotAnEntity),
        ];
        let out = join_all(&rel, left, (vec![0], vec![0]));
        assert_eq!(out.len(), 2 * copies + 1);
        assert!(out[..2 * copies].iter().all(|r| r.is_ok()));
        assert_eq!(out[2 * copies], Err(lost.clone()));
    }
}

#[test]
fn rows_behind_an_error_need_not_have_the_key_columns() {
    let rel = table(&["x"], vec![vec![num(1)]]);
    let left: TupleVec = vec![Ok(Tuple(vec![num(1)])), Err(QueryError::Unsupported), Ok(Tuple(vec![]))];
    let out = join_all(&rel, left, (vec![0], vec![0]));
    assert_eq!(out, vec![Ok(Tuple(vec![num(1), num(1)])), Err(QueryError::Unsupported)]);
}

#[test]
fn fixed_join_equals_the_naive_join() {
    let mut dice = Dice(2024);
    for size in [0usize, 1, 1, 2, 3, 5, 8, 13] {
        for round in 0..12 {
            let width = 1 + dice.roll(3) as usize;
            let data: Vec<Vec<DataValue>> = (0..size)
                .map(|_| (0..width).map(|_| num(dice.roll(3) as i64)).collect())
                .collect();
            let left_width = 1 + dice.roll(3) as usize;
            let left: Vec<Vec<DataValue>> = (0..dice.roll(7))
                .map(|_| (0..left_width).map(|_| num(dice.roll(3) as i64)).collect())
                .collect();
            let keys = dice.roll(3) as usize;
            let li: Vec<usize> = (0..keys).map(|_| dice.roll(left_width as u64) as usize).collect();
            let ri: Vec<usize> = (0..keys).map(|_| dice.roll(width as u64) as usize).collect();
            let rel = table(&["a", "b", "c"][..width], data.clone());
            let out = join_all(&rel, rows(left.clone()), (li.clone(), ri.clone()));
            let naive = naive_join(&left, &data, &li, &ri);
            assert_eq!(as_bag(&out), as_bag(&naive), "size {} round {}", size, round);
            assert_eq!(out, naive, "size {} round {}", size, round);
        }
    }
}

#[test]
fn joined_rows_agree_on_the_key_columns() {
    let rel = table(
        &["p", "q"],
        vec![vec![num(1), num(5)], vec![num(2), num(5)], vec![num(1), num(6)], vec![num(2), num(6)]],
    );
    let left = rows(vec![vec![num(5), num(0), num(1)], vec![num(6), num(0), num(2)], vec![num(7), num(0), num(1)]]);
    let (li, ri) = (vec![2usize, 0], vec![0usize, 1]);
    let out = join_all(&rel, left, (li.clone(), ri.clone()));
    assert_eq!(out.len(), 2);
    for item in out {
        let row = item.unwrap().0;
        assert_eq!(row.len(), 5);
        for k in 0..li.len() {
            assert_eq!(row[li[k]], row[3 + ri[k]]);
        }
    }
}

#[test]
fn table_shape_is_tested() {
    assert!(table(&["x", "y"], vec![vec![num(1), num(2)], vec![num(3), num(4)]]).is_wf());
    assert!(table(&["x", "y"], vec![]).is_wf());
    assert!(!table(&["x", "y"], vec![vec![num(1), num(2)], vec![num(3)]]).is_wf());
    assert!(!table(&["x"], vec![vec![num(1), num(2)]]).is_wf());
}

#[test]
fn the_size_of_the_table_decides_how_it_is_joined() {
    let kind = |size: usize| -> &'static str {
        let rel = table(&["x"], (0..size).map(|i| vec![num(i as i64 % 2)]).collect());
        let joined = rel.join(TupleIter::from_vec(rows(vec![vec![num(0)]])), (vec![0], vec![0]));
        match joined {
            TupleIter::Rows { rows, .. } => {
                assert!(rows.is_empty());
                "nothing"
            }
            TupleIter::Join { step: JoinStep::Broadcast { key, .. }, .. } => {
                assert_eq!(key, vec![num(0)]);
                "broadcast"
            }
            TupleIter::Join { step: JoinStep::Grouped { groups, .. }, .. } => {
                assert_eq!(groups.len(), 2);
                assert_eq!(groups[0].key, vec![num(0)]);
                assert_eq!(groups[0].rows, (0..size).step_by(2).collect::<Vec<usize>>());
                assert_eq!(groups[1].rows, (1..size).step_by(2).collect::<Vec<usize>>());
                "grouped"
            }
            _ => "other",
        }
    };
    assert_eq!(kind(0), "nothing");
    assert_eq!(kind(1), "broadcast");
    assert_eq!(kind(2), "grouped");
    assert_eq!(kind(7), "grouped");
}
