use php_iter_tools::calls::CallLog;
use php_iter_tools::error::{ExceptionClass, IterError};
use php_iter_tools::iter::{map_array, ArrayIterator, MAP_ARRAY_LEN};
use php_iter_tools::kind::IterKind;
use php_iter_tools::model::ZCallable;
use php_iter_tools::order::{can_compare, Order};
use php_iter_tools::source::SimpleZValIter;
use php_iter_tools::value::{ArrayKey, ZVal};

const DOUBLE: u64 = 1;
const IS_EVEN: u64 = 2;
const ADD: u64 = 3;
const COMPARE: u64 = 4;
const TWICE: u64 = 5;
const EVEN_TIMES_TEN: u64 = 6;
const NEGATE: u64 = 7;
const LESS_THAN_THREE: u64 = 8;
const RECORDED_IS_EVEN: u64 = 9;

/// A runner that also notes the argument of each call of `RECORDED_IS_EVEN`.
struct Recorder {
    seen: std::cell::RefCell<Vec<i64>>,
}

impl Recorder {
    fn new() -> Self {
        Recorder { seen: std::cell::RefCell::new(Vec::new()) }
    }

    fn runner(&self) -> impl Fn(u64, Vec<ZVal>) -> ZVal + '_ {
        move |id: u64, args: Vec<ZVal>| {
            if id == RECORDED_IS_EVEN {
                self.seen.borrow_mut().push(long(&args[0]));
            }
            run(id, args)
        }
    }

    fn take(&self) -> Vec<i64> {
        self.seen.borrow_mut().drain(..).collect()
    }
}

fn long(v: &ZVal) -> i64 {
    match v {
        ZVal::Long(n) => *n,
        other => panic!("not an integer: {:?}", other),
    }
}

/// The callbacks these tests hand to the iterators.
fn run(id: u64, args: Vec<ZVal>) -> ZVal {
    match id {
        DOUBLE => ZVal::Long(long(&args[0]) * 2),
        IS_EVEN => ZVal::Bool(long(&args[0]) % 2 == 0),
        ADD => ZVal::Long(long(&args[0]) + long(&args[1])),
        COMPARE => ZVal::Long(long(&args[0]) - long(&args[1])),
        TWICE => list(&[long(&args[0]), long(&args[0])]),
        EVEN_TIMES_TEN => {
            let n = long(&args[0]);
            if n % 2 == 0 {
                ZVal::Long(n * 10)
            } else {
                ZVal::Null
            }
        }
        NEGATE => ZVal::Long(-long(&args[0])),
        LESS_THAN_THREE => ZVal::Bool(long(&args[0]) < 3),
        RECORDED_IS_EVEN => ZVal::Bool(long(&args[0]) % 2 == 0),
        _ => panic!("unknown callback {}", id),
    }
}

fn cb(id: u64) -> ZCallable {
    ZCallable { id }
}

fn list(values: &[i64]) -> ZVal {
    ZVal::Array(
        values
            .iter()
            .enumerate()
            .map(|(i, v)| (ArrayKey::Int(i as i64), ZVal::Long(*v)))
            .collect(),
    )
}

fn iter_of(values: &[i64]) -> ArrayIterator {
    ArrayIterator::new(&list(values))
}

fn longs(values: Vec<ZVal>) -> Vec<i64> {
    values.iter().map(long).collect()
}

fn collect(it: &mut ArrayIterator) -> Vec<i64> {
    longs(it.collect(&run).unwrap())
}

fn pairs(v: &ZVal) -> Vec<Vec<i64>> {
    match v {
        ZVal::Array(entries) => entries
            .iter()
            .map(|(_, x)| match x {
                ZVal::Array(inner) => inner.iter().map(|(_, y)| long(y)).collect(),
                other => panic!("not a list: {:?}", other),
            })
            .collect(),
        other => panic!("not a list: {:?}", other),
    }
}

#[test]
fn next_returns_values_in_order_then_null() {
    let mut it = iter_of(&[1, 2, 3]);
    assert_eq!(it.next(&run), Ok(Some(ZVal::Long(1))));
    assert_eq!(it.next(&run), Ok(Some(ZVal::Long(2))));
    assert_eq!(it.next(&run), Ok(Some(ZVal::Long(3))));
    assert_eq!(it.next(&run), Ok(None));
    assert_eq!(it.next(&run), Ok(None));
}

#[test]
fn array_values_ignore_keys() {
    let arr = ZVal::Array(vec![
        (ArrayKey::Str(b"a".to_vec()), ZVal::Long(5)),
        (ArrayKey::Int(9), ZVal::Str(b"x".to_vec())),
    ]);
    let mut it = ArrayIterator::new(&arr);
    assert_eq!(it.collect(&run), Ok(vec![ZVal::Long(5), ZVal::Str(b"x".to_vec())]));
}

#[test]
fn size_hint_and_len_of_a_fresh_iterator() {
    let it = iter_of(&[4, 5, 6]);
    assert_eq!(it.size_hint(), Ok(list(&[3, 3])));
    assert_eq!(it.len(), Ok(3));
}

#[test]
fn size_hint_of_filter_has_no_lower_bound() {
    let mut it = iter_of(&[1, 2, 3, 4]);
    it.filter(cb(IS_EVEN)).unwrap();
    assert_eq!(it.size_hint(), Ok(list(&[0, 4])));
    assert_eq!(
        it.len(),
        Err(IterError::Unsupported("len".to_string(), "ExactSize".to_string()))
    );
}

#[test]
fn size_hint_of_flat_map_has_no_upper_bound() {
    let mut it = iter_of(&[1, 2]);
    it.flat_map(cb(TWICE)).unwrap();
    assert_eq!(
        it.size_hint(),
        Ok(ZVal::Array(vec![
            (ArrayKey::Int(0), ZVal::Long(0)),
            (ArrayKey::Int(1), ZVal::Null)
        ]))
    );
}

#[test]
fn count_consumes_everything() {
    let mut it = iter_of(&[7, 8, 9, 10]);
    assert_eq!(it.count(&run), Ok(4));
    assert_eq!(it.next(&run), Ok(None));
}

#[test]
fn last_gives_the_final_element() {
    let mut it = iter_of(&[7, 8, 9]);
    assert_eq!(it.last(&run), Ok(Some(ZVal::Long(9))));
    let mut empty = iter_of(&[]);
    assert_eq!(empty.last(&run), Ok(None));
}

#[test]
fn nth_counts_from_zero_and_consumes() {
    let mut it = iter_of(&[10, 20, 30, 40]);
    assert_eq!(it.nth(1, &run), Ok(Some(ZVal::Long(20))));
    assert_eq!(it.nth(0, &run), Ok(Some(ZVal::Long(30))));
    assert_eq!(it.nth(0, &run), Ok(Some(ZVal::Long(40))));
    assert_eq!(it.nth(0, &run), Ok(None));
    let mut short = iter_of(&[1, 2]);
    assert_eq!(short.nth(5, &run), Ok(None));
    assert_eq!(short.next(&run), Ok(None));
}

#[test]
fn step_by_keeps_the_first_element() {
    let mut it = iter_of(&[0, 1, 2, 3, 4, 5, 6]);
    it.step_by(3).unwrap();
    assert_eq!(collect(&mut it), vec![0, 3, 6]);
    let mut one = iter_of(&[5, 6]);
    one.step_by(10).unwrap();
    assert_eq!(collect(&mut one), vec![5]);
}

#[test]
fn step_by_zero_is_an_argument_error() {
    let mut it = iter_of(&[1, 2]);
    let e = it.step_by(0).unwrap_err();
    assert_eq!(
        e,
        IterError::ArgumentError("Step must be greater than 0, 0 given".to_string())
    );
    assert_eq!(e.code(), 2);
    assert_eq!(e.class(), ExceptionClass::ValueError);
    assert_eq!(e.message(), "Invalid argument: Step must be greater than 0, 0 given");
    assert_eq!(collect(&mut it), vec![1, 2]);
}

#[test]
fn step_by_from_the_back() {
    let mut it = iter_of(&[0, 1, 2, 3, 4, 5, 6, 7]);
    it.step_by(3).unwrap();
    assert_eq!(it.next_back(&run), Ok(Some(ZVal::Long(6))));
    assert_eq!(it.next(&run), Ok(Some(ZVal::Long(0))));
    assert_eq!(collect(&mut it), vec![3]);
}

#[test]
fn chain_yields_first_then_second() {
    let mut a = iter_of(&[1, 2]);
    let mut b = iter_of(&[3, 4, 5]);
    a.chain(&mut b).unwrap();
    assert_eq!(b.next(&run), Err(IterError::Consumed));
    assert_eq!(a.size_hint(), Ok(list(&[5, 5])));
    assert_eq!(collect(&mut a), vec![1, 2, 3, 4, 5]);
}

#[test]
fn chain_with_a_moved_iterator_fails() {
    let mut a = iter_of(&[1]);
    let mut b = iter_of(&[2]);
    let mut c = iter_of(&[3]);
    b.chain(&mut c).unwrap();
    let e = a.chain(&mut c).unwrap_err();
    assert_eq!(e, IterError::Other("Iterator is not valid".to_string()));
    assert_eq!(e.message(), "Iterator is not valid");
    assert_eq!(a.next(&run), Err(IterError::Consumed));
}

#[test]
fn zip_stops_with_the_shorter() {
    let mut a = iter_of(&[1, 2, 3]);
    let mut b = iter_of(&[10, 20]);
    a.zip(&mut b).unwrap();
    let mut out = Vec::new();
    while let Ok(Some(v)) = a.next(&run) {
        out.push(v);
    }
    assert_eq!(out, vec![list(&[1, 10]), list(&[2, 20])]);
}

#[test]
fn zip_from_the_back_trims_the_longer() {
    let mut a = iter_of(&[1, 2, 3]);
    let mut b = iter_of(&[10, 20]);
    a.zip(&mut b).unwrap();
    assert_eq!(a.next_back(&run), Ok(Some(list(&[2, 20]))));
    assert_eq!(a.next(&run), Ok(Some(list(&[1, 10]))));
    assert_eq!(a.next(&run), Ok(None));
}

#[test]
fn map_applies_the_callback() {
    let mut it = iter_of(&[1, 2, 3]);
    it.map(cb(DOUBLE)).unwrap();
    assert_eq!(collect(&mut it), vec![2, 4, 6]);
}

#[test]
fn adapting_a_moved_iterator_fails() {
    let mut it = iter_of(&[1]);
    let mut other = iter_of(&[2]);
    other.chain(&mut it).unwrap();
    let e = it.map(cb(DOUBLE)).unwrap_err();
    assert_eq!(e, IterError::Moved);
    assert_eq!(e.code(), 1);
    assert_eq!(e.class(), ExceptionClass::LogicException);
    assert_eq!(e.message(), "The iterator has already been moved.");
}

#[test]
fn filter_keeps_what_the_callback_accepts() {
    let mut it = iter_of(&[1, 2, 3, 4, 5, 6]);
    it.filter(cb(IS_EVEN)).unwrap();
    assert_eq!(it.next_back(&run), Ok(Some(ZVal::Long(6))));
    assert_eq!(collect(&mut it), vec![2, 4]);
}

#[test]
fn filter_map_drops_nulls() {
    let mut it = iter_of(&[1, 2, 3, 4]);
    it.filter_map(cb(EVEN_TIMES_TEN)).unwrap();
    assert_eq!(collect(&mut it), vec![20, 40]);
}

#[test]
fn enumerate_pairs_index_and_value() {
    let mut it = iter_of(&[7, 8, 9]);
    it.enumerate().unwrap();
    assert_eq!(it.next_back(&run), Ok(Some(list(&[2, 9]))));
    let rest = it.collect(&run).unwrap();
    assert_eq!(rest, vec![list(&[0, 7]), list(&[1, 8])]);
}

#[test]
fn skip_while_and_take_while_split_the_elements() {
    let mut a = iter_of(&[1, 2, 5, 1, 7]);
    a.take_while(cb(LESS_THAN_THREE)).unwrap();
    assert_eq!(collect(&mut a), vec![1, 2]);
    let mut b = iter_of(&[1, 2, 5, 1, 7]);
    b.skip_while(cb(LESS_THAN_THREE)).unwrap();
    assert_eq!(collect(&mut b), vec![5, 1, 7]);
    assert_eq!(b.size_hint(), Ok(list(&[0, 0])));
}

#[test]
fn map_while_stops_at_the_first_null() {
    let mut it = iter_of(&[2, 4, 5, 6]);
    it.map_while(cb(EVEN_TIMES_TEN)).unwrap();
    assert_eq!(collect(&mut it), vec![20, 40]);
}

#[test]
fn skip_and_take() {
    let mut a = iter_of(&[1, 2, 3, 4, 5]);
    a.skip(2).unwrap();
    assert_eq!(a.len(), Ok(3));
    assert_eq!(collect(&mut a), vec![3, 4, 5]);
    let mut b = iter_of(&[1, 2, 3, 4, 5]);
    b.take(2).unwrap();
    assert_eq!(b.next_back(&run), Ok(Some(ZVal::Long(2))));
    assert_eq!(collect(&mut b), vec![1]);
    let mut c = iter_of(&[1, 2]);
    c.skip(5).unwrap();
    assert_eq!(collect(&mut c), Vec::<i64>::new());
    let mut d = iter_of(&[1, 2]);
    d.take(5).unwrap();
    assert_eq!(collect(&mut d), vec![1, 2]);
}

#[test]
fn flat_map_concatenates_the_arrays() {
    let mut it = iter_of(&[1, 2]);
    it.flat_map(cb(TWICE)).unwrap();
    assert_eq!(it.next_back(&run), Ok(Some(ZVal::Long(2))));
    assert_eq!(collect(&mut it), vec![1, 1, 2]);
}

#[test]
fn flat_map_of_a_non_array_adds_nothing() {
    let mut it = iter_of(&[1, 2]);
    it.flat_map(cb(DOUBLE)).unwrap();
    assert_eq!(collect(&mut it), Vec::<i64>::new());
}

#[test]
fn flatten_keeps_scalars_and_opens_arrays() {
    let nested = ZVal::Array(vec![
        (ArrayKey::Int(0), list(&[1, 2])),
        (ArrayKey::Int(1), ZVal::Long(3)),
        (ArrayKey::Int(2), list(&[])),
        (ArrayKey::Int(3), list(&[4])),
    ]);
    let mut it = ArrayIterator::new(&nested);
    it.flatten().unwrap();
    assert_eq!(collect(&mut it), vec![1, 2, 3, 4]);
}

#[test]
fn fuse_and_inspect_pass_elements_on() {
    let mut it = iter_of(&[1, 2, 3]);
    it.inspect(cb(DOUBLE)).unwrap();
    it.fuse().unwrap();
    assert_eq!(it.len(), Ok(3));
    assert_eq!(collect(&mut it), vec![1, 2, 3]);
    assert_eq!(it.next(&run), Ok(None));
}

#[test]
fn collect_into_appends() {
    let mut it = iter_of(&[3, 4]);
    let mut out = vec![ZVal::Long(1), ZVal::Long(2)];
    it.collect_into(&mut out, &run).unwrap();
    assert_eq!(longs(out), vec![1, 2, 3, 4]);
}

#[test]
fn for_each_consumes() {
    let mut it = iter_of(&[1, 2, 3]);
    assert_eq!(it.for_each(cb(DOUBLE), &run, &mut CallLog::new()), Ok(()));
    assert_eq!(it.next(&run), Ok(None));
}

#[test]
fn partition_splits_by_the_callback() {
    let mut it = iter_of(&[1, 2, 3, 4, 5]);
    let parts = it.partition(cb(IS_EVEN), &run, &mut CallLog::new()).unwrap();
    assert_eq!(pairs(&parts), vec![vec![2, 4], vec![1, 3, 5]]);
}

#[test]
fn fold_is_left_associative() {
    let mut it = iter_of(&[1, 2, 3]);
    assert_eq!(it.fold(&ZVal::Long(10), cb(COMPARE), &run, &mut CallLog::new()), Ok(ZVal::Long(4)));
    let mut sum = iter_of(&[1, 2, 3]);
    assert_eq!(sum.fold(&ZVal::Long(0), cb(ADD), &run, &mut CallLog::new()), Ok(ZVal::Long(6)));
}

#[test]
fn rfold_goes_from_the_back() {
    let mut it = iter_of(&[1, 2, 3]);
    assert_eq!(it.rfold(&ZVal::Long(10), cb(COMPARE), &run, &mut CallLog::new()), Ok(ZVal::Long(4)));
    let mut seq = iter_of(&[1, 2, 3]);
    seq.skip_while(cb(IS_EVEN)).unwrap();
    assert_eq!(
        seq.rfold(&ZVal::Long(0), cb(ADD), &run, &mut CallLog::new()),
        Err(IterError::Unsupported("rfold".to_string(), "DoubleEnded".to_string()))
    );
}

#[test]
fn reduce_starts_from_the_first_element() {
    let mut it = iter_of(&[10, 2, 3]);
    assert_eq!(it.reduce(cb(COMPARE), &run, &mut CallLog::new()), Ok(Some(ZVal::Long(5))));
    let mut empty = iter_of(&[]);
    assert_eq!(empty.reduce(cb(ADD), &run, &mut CallLog::new()), Ok(None));
}

#[test]
fn all_and_any() {
    let mut a = iter_of(&[2, 4, 6]);
    assert_eq!(a.all(cb(IS_EVEN), &run, &mut CallLog::new()), Ok(true));
    let mut b = iter_of(&[2, 3, 6]);
    assert_eq!(b.all(cb(IS_EVEN), &run, &mut CallLog::new()), Ok(false));
    assert_eq!(b.next(&run), Ok(Some(ZVal::Long(6))));
    let mut c = iter_of(&[1, 3, 4, 5]);
    assert_eq!(c.any(cb(IS_EVEN), &run, &mut CallLog::new()), Ok(true));
    assert_eq!(c.next(&run), Ok(Some(ZVal::Long(5))));
    let mut empty_all = iter_of(&[]);
    assert_eq!(empty_all.all(cb(IS_EVEN), &run, &mut CallLog::new()), Ok(true));
    let mut empty_any = iter_of(&[]);
    assert_eq!(empty_any.any(cb(IS_EVEN), &run, &mut CallLog::new()), Ok(false));
}

#[test]
fn find_find_map_position_rposition() {
    let mut a = iter_of(&[1, 3, 4, 6]);
    assert_eq!(a.find(cb(IS_EVEN), &run, &mut CallLog::new()), Ok(Some(ZVal::Long(4))));
    let mut b = iter_of(&[1, 3, 4, 6]);
    assert_eq!(b.find_map(cb(EVEN_TIMES_TEN), &run, &mut CallLog::new()), Ok(Some(ZVal::Long(40))));
    let mut c = iter_of(&[1, 3, 4, 6]);
    assert_eq!(c.position(cb(IS_EVEN), &run, &mut CallLog::new()), Ok(Some(2)));
    let mut d = iter_of(&[1, 3, 4, 6, 7]);
    assert_eq!(d.rposition(cb(IS_EVEN), &run, &mut CallLog::new()), Ok(Some(3)));
    let mut e = iter_of(&[1, 3]);
    assert_eq!(e.position(cb(IS_EVEN), &run, &mut CallLog::new()), Ok(None));
    let mut f = iter_of(&[1, 3]);
    assert_eq!(f.find(cb(IS_EVEN), &run, &mut CallLog::new()), Ok(None));
}

#[test]
fn rposition_needs_an_exact_double_ended_iterator() {
    let mut it = iter_of(&[1, 2, 3]);
    it.filter(cb(IS_EVEN)).unwrap();
    let e = it.rposition(cb(IS_EVEN), &run, &mut CallLog::new()).unwrap_err();
    assert_eq!(
        e,
        IterError::Unsupported("rposition".to_string(), "DoubleEndedExactSize".to_string())
    );
    assert_eq!(e.code(), 3);
    assert_eq!(e.class(), ExceptionClass::DomainException);
    assert_eq!(
        e.message(),
        "Unsupported operation. rposition is only supported on DoubleEndedExactSize iterators."
    );
    assert_eq!(collect(&mut it), vec![2]);
}

#[test]
fn rfind_searches_from_the_back() {
    let mut it = iter_of(&[2, 3, 4, 5]);
    assert_eq!(it.rfind(cb(IS_EVEN), &run, &mut CallLog::new()), Ok(Some(ZVal::Long(4))));
    assert_eq!(collect(&mut it), vec![2, 3]);
}

#[test]
fn max_returns_the_last_greatest_and_min_the_first_least() {
    let mut a = iter_of(&[3, 9, 2, 9, 1]);
    assert_eq!(a.max(&run), Ok(Some(ZVal::Long(9))));
    let mut b = iter_of(&[3, 9, 2, 9, 1]);
    assert_eq!(b.min(&run), Ok(Some(ZVal::Long(1))));
    let mut empty = iter_of(&[]);
    assert_eq!(empty.max(&run), Ok(None));
}

#[test]
fn max_of_equal_values_is_the_last_one() {
    let arr = ZVal::Array(vec![
        (ArrayKey::Int(0), ZVal::Long(1)),
        (ArrayKey::Int(1), ZVal::Str(b"a".to_vec())),
    ]);
    let mut a = ArrayIterator::new(&arr);
    assert_eq!(a.max(&run), Ok(Some(ZVal::Str(b"a".to_vec()))));
    let mut b = ArrayIterator::new(&arr);
    assert_eq!(b.min(&run), Ok(Some(ZVal::Long(1))));
}

#[test]
fn max_of_a_nan_does_not_compare() {
    let nan: u64 = 0x7FF8_0000_0000_0000;
    let arr = ZVal::Array(vec![
        (ArrayKey::Int(0), ZVal::Double(1.0f64.to_bits())),
        (ArrayKey::Int(1), ZVal::Double(nan)),
    ]);
    let mut it = ArrayIterator::new(&arr);
    let e = it.max(&run).unwrap_err();
    assert_eq!(e, IterError::Unorderable);
    assert_eq!(e.message(), "called `Option::unwrap()` on a `None` value");
}

#[test]
fn max_and_min_by_key() {
    let mut a = iter_of(&[1, -5, 3]);
    assert_eq!(a.max_by_key(cb(NEGATE), &run, &mut CallLog::new()), Ok(Some(ZVal::Long(-5))));
    let mut b = iter_of(&[1, -5, 3]);
    assert_eq!(b.min_by_key(cb(NEGATE), &run, &mut CallLog::new()), Ok(Some(ZVal::Long(3))));
}

#[test]
fn max_and_min_by_comparison() {
    let mut a = iter_of(&[4, 8, 1]);
    assert_eq!(a.max_by(cb(COMPARE), &run, &mut CallLog::new()), Ok(Some(ZVal::Long(8))));
    let mut b = iter_of(&[4, 8, 1]);
    assert_eq!(b.min_by(cb(COMPARE), &run, &mut CallLog::new()), Ok(Some(ZVal::Long(1))));
    let mut empty = iter_of(&[]);
    assert_eq!(empty.max_by(cb(COMPARE), &run, &mut CallLog::new()), Ok(None));
}

#[test]
fn rev_reverses() {
    let mut it = iter_of(&[1, 2, 3]);
    it.rev().unwrap();
    assert_eq!(collect(&mut it), vec![3, 2, 1]);
    let mut twice = iter_of(&[1, 2, 3]);
    twice.rev().unwrap();
    twice.rev().unwrap();
    assert_eq!(collect(&mut twice), vec![1, 2, 3]);
}

#[test]
fn rev_of_a_forward_only_iterator_fails() {
    let mut it = iter_of(&[1, 2, 3]);
    it.take_while(cb(LESS_THAN_THREE)).unwrap();
    assert_eq!(
        it.rev(),
        Err(IterError::Unsupported("rev".to_string(), "DoubleEnded".to_string()))
    );
    assert_eq!(it.next(&run), Err(IterError::Consumed));
}

#[test]
fn next_back_and_nth_back() {
    let mut it = iter_of(&[1, 2, 3, 4, 5]);
    assert_eq!(it.next_back(&run), Ok(Some(ZVal::Long(5))));
    assert_eq!(it.nth_back(1, &run), Ok(Some(ZVal::Long(3))));
    assert_eq!(collect(&mut it), vec![1, 2]);
    let mut fwd = iter_of(&[1, 2]);
    fwd.skip_while(cb(IS_EVEN)).unwrap();
    assert_eq!(
        fwd.next_back(&run),
        Err(IterError::Unsupported("next_back".to_string(), "DoubleEnded".to_string()))
    );
    assert_eq!(
        fwd.nth_back(0, &run),
        Err(IterError::Unsupported("nth_back".to_string(), "DoubleEnded".to_string()))
    );
}

#[test]
fn cmp_and_partial_cmp() {
    let mut a = iter_of(&[1, 2, 3]);
    let mut b = iter_of(&[1, 2, 4]);
    assert_eq!(a.cmp(&mut b, &run), Ok(-1));
    let mut c = iter_of(&[1, 2]);
    let mut d = iter_of(&[1, 2]);
    assert_eq!(c.cmp(&mut d, &run), Ok(0));
    let mut e = iter_of(&[1, 2, 3]);
    let mut f = iter_of(&[1, 2]);
    assert_eq!(e.partial_cmp(&mut f, &run), Ok(Some(1)));
}

#[test]
fn partial_cmp_of_different_types_is_null() {
    let arr = ZVal::Array(vec![(ArrayKey::Int(0), ZVal::Str(b"1".to_vec()))]);
    let mut a = ArrayIterator::new(&arr);
    let mut b = iter_of(&[1]);
    assert_eq!(a.partial_cmp(&mut b, &run), Ok(None));
    let mut c = ArrayIterator::new(&arr);
    let mut d = iter_of(&[1]);
    assert_eq!(c.cmp(&mut d, &run), Ok(0));
}

#[test]
fn eq_ne_lt_le_gt_ge() {
    let mut a = iter_of(&[1, 2]);
    let mut b = iter_of(&[1, 2]);
    assert_eq!(a.eq(&mut b, &run), Ok(true));
    let mut c = iter_of(&[1, 2]);
    let mut d = iter_of(&[1, 2, 3]);
    assert_eq!(c.ne(&mut d, &run), Ok(true));
    let mut e = iter_of(&[1, 2]);
    let mut f = iter_of(&[1, 3]);
    assert_eq!(e.lt(&mut f, &run), Ok(true));
    let mut g = iter_of(&[1, 3]);
    let mut h = iter_of(&[1, 3]);
    assert_eq!(g.le(&mut h, &run), Ok(true));
    let mut i = iter_of(&[2]);
    let mut j = iter_of(&[1, 9]);
    assert_eq!(i.gt(&mut j, &run), Ok(true));
    let mut k = iter_of(&[1]);
    let mut l = iter_of(&[1, 0]);
    assert_eq!(k.ge(&mut l, &run), Ok(false));
}

#[test]
fn eq_of_float_and_integer_is_false() {
    let arr = ZVal::Array(vec![(ArrayKey::Int(0), ZVal::Double(1.0f64.to_bits()))]);
    let mut a = ArrayIterator::new(&arr);
    let mut b = iter_of(&[1]);
    assert_eq!(a.eq(&mut b, &run), Ok(false));
}

#[test]
fn comparing_with_a_consumed_iterator_fails() {
    let mut a = iter_of(&[1]);
    let mut b = iter_of(&[1]);
    let mut c = iter_of(&[1]);
    c.chain(&mut b).unwrap();
    assert_eq!(a.eq(&mut b, &run), Err(IterError::Consumed));
    assert_eq!(a.collect(&run), Ok(vec![ZVal::Long(1)]));
}

#[test]
fn comparison_stops_after_the_deciding_pair() {
    let mut a = iter_of(&[1, 5, 7]);
    let mut b = iter_of(&[1, 6, 8]);
    assert_eq!(a.lt(&mut b, &run), Ok(true));
    assert_eq!(collect(&mut a), vec![7]);
    assert_eq!(collect(&mut b), vec![8]);
}

#[test]
fn kinds_follow_the_adapters() {
    assert_eq!(IterKind::DoubleEndedExactSize.counted_kind(), IterKind::DoubleEndedExactSize);
    assert_eq!(IterKind::DoubleEnded.counted_kind(), IterKind::Iterator);
    assert_eq!(IterKind::ExactSize.uncounted_kind(), IterKind::Iterator);
    assert_eq!(IterKind::DoubleEndedExactSize.uncounted_kind(), IterKind::DoubleEnded);
    assert_eq!(
        IterKind::DoubleEndedExactSize.zipped_kind(IterKind::ExactSize),
        IterKind::ExactSize
    );
    assert_eq!(
        IterKind::DoubleEnded.chained_kind(IterKind::DoubleEndedExactSize),
        IterKind::DoubleEnded
    );
    assert!(IterKind::DoubleEnded.is_double_ended());
    assert!(!IterKind::DoubleEnded.is_exact_size());
}

#[test]
fn identity_and_order_of_values() {
    assert!(ZVal::Long(3).eq(&ZVal::Long(3)));
    assert!(!ZVal::Long(3).eq(&ZVal::Double(3.0f64.to_bits())));
    assert!(ZVal::Double(0.0f64.to_bits()).eq(&ZVal::Double((-0.0f64).to_bits())));
    let nan = ZVal::Double(f64::NAN.to_bits());
    assert!(!nan.eq(&nan));
    assert!(!can_compare(&nan, &ZVal::Double(1.0f64.to_bits())));
    assert!(!can_compare(&ZVal::Str(vec![0xff]), &ZVal::Str(b"a".to_vec())));
    assert!(can_compare(&ZVal::Str(b"b".to_vec()), &ZVal::Str(b"a".to_vec())));
    assert_eq!(
        ZVal::Str(b"b".to_vec()).partial_cmp(&ZVal::Str(b"ab".to_vec())),
        Some(Order::Greater)
    );
    assert_eq!(
        ZVal::Double((-1.5f64).to_bits()).partial_cmp(&ZVal::Double(0.5f64.to_bits())),
        Some(Order::Less)
    );
    assert_eq!(ZVal::Bool(true).cmp(&ZVal::Bool(false)), Order::Greater);
    assert_eq!(ZVal::Null.partial_cmp(&ZVal::Long(0)), None);
    assert_eq!(ZVal::Null.cmp(&ZVal::Long(0)), Order::Equal);
    assert_eq!(Order::Less.to_sign(), -1);
    let arr = list(&[1, 2]);
    assert!(arr.is_identical(&list(&[1, 2])));
    assert!(!arr.is_identical(&list(&[2, 1])));
    assert_eq!(ZVal::Null.into_option(), None);
    assert_eq!(ZVal::Long(0).into_option(), Some(ZVal::Long(0)));
    assert_eq!(ZVal::null(), ZVal::Null);
}

#[test]
fn simple_iterator_over_values() {
    let mut it = SimpleZValIter::new(vec![ZVal::Long(1), ZVal::Long(2), ZVal::Long(3)]);
    assert_eq!(it.size_hint(), (3, Some(3)));
    assert_eq!(it.next(), Some(ZVal::Long(1)));
    assert_eq!(it.next_back(), Some(ZVal::Long(3)));
    let copy = it.clone();
    assert_eq!(it.len(), 1);
    assert_eq!(it.next(), Some(ZVal::Long(2)));
    assert_eq!(it.next(), None);
    assert_eq!(copy.len(), 1);
    let from_array = list(&[4, 5]).into_iter();
    assert_eq!(from_array.len(), 2);
}

#[test]
fn consumed_iterator_errors() {
    let e = IterError::Consumed;
    assert_eq!(e.code(), 1);
    assert_eq!(e.message(), "The iterator has already been consumed");
    assert_eq!(IterError::Other("x".to_string()).code(), 0);
    assert_eq!(IterError::Other("x".to_string()).class(), ExceptionClass::Exception);
}

#[test]
fn map_array_calls_the_callback_on_each_index() {
    let out = map_array(&list(&[]), cb(DOUBLE), &run, &mut CallLog::new());
    assert_eq!(out.len() as i64, MAP_ARRAY_LEN);
    assert_eq!(out[0], ZVal::Long(0));
    assert_eq!(out[9999], ZVal::Long(19998));
}

#[test]
fn laws_on_concrete_values() {
    // take and skip split the elements
    let mut t = iter_of(&[1, 2, 3, 4]);
    t.take(3).unwrap();
    let mut s = iter_of(&[1, 2, 3, 4]);
    s.skip(3).unwrap();
    let mut joined = collect(&mut t);
    joined.extend(collect(&mut s));
    assert_eq!(joined, vec![1, 2, 3, 4]);
    // find_map is the first of filter_map
    let mut fm = iter_of(&[1, 3, 6, 8]);
    fm.filter_map(cb(EVEN_TIMES_TEN)).unwrap();
    let mut first = iter_of(&[1, 3, 6, 8]);
    assert_eq!(fm.next(&run), first.find_map(cb(EVEN_TIMES_TEN), &run, &mut CallLog::new()));
    // flat_map is map followed by flatten
    let mut a = iter_of(&[1, 2]);
    a.flat_map(cb(TWICE)).unwrap();
    let mut b = iter_of(&[1, 2]);
    b.map(cb(TWICE)).unwrap();
    b.flatten().unwrap();
    assert_eq!(collect(&mut a), collect(&mut b));
    // rfold is fold over the reversed elements
    let mut r = iter_of(&[1, 2, 3]);
    let mut f = iter_of(&[1, 2, 3]);
    f.rev().unwrap();
    assert_eq!(
        r.rfold(&ZVal::Long(0), cb(COMPARE), &run, &mut CallLog::new()),
        f.fold(&ZVal::Long(0), cb(COMPARE), &run, &mut CallLog::new())
    );
    // comparing the other way round flips the outcome
    let mut x = iter_of(&[1, 2]);
    let mut y = iter_of(&[1, 3]);
    let mut x2 = iter_of(&[1, 2]);
    let mut y2 = iter_of(&[1, 3]);
    assert_eq!(x.cmp(&mut y, &run), Ok(-1));
    assert_eq!(y2.cmp(&mut x2, &run), Ok(1));
    // partition loses nothing
    let mut p = iter_of(&[1, 2, 3, 4, 5]);
    let parts = pairs(&p.partition(cb(IS_EVEN), &run, &mut CallLog::new()).unwrap());
    assert_eq!(parts[0].len() + parts[1].len(), 5);
}

#[test]
fn for_each_runs_the_callback_on_each_element_in_order() {
    let rec = Recorder::new();
    let run = rec.runner();
    let mut it = iter_of(&[3, 1, 2]);
    let mut log = CallLog::new();
    assert_eq!(it.for_each(cb(RECORDED_IS_EVEN), &run, &mut log), Ok(()));
    assert_eq!(rec.take(), vec![3, 1, 2]);
}

#[test]
fn for_each_on_a_consumed_iterator_fails() {
    let mut it = iter_of(&[1]);
    let mut other = iter_of(&[2]);
    other.chain(&mut it).unwrap();
    let rec = Recorder::new();
    let run = rec.runner();
    assert_eq!(
        it.for_each(cb(RECORDED_IS_EVEN), &run, &mut CallLog::new()),
        Err(IterError::Consumed)
    );
    assert_eq!(rec.take(), Vec::<i64>::new());
}

#[test]
fn inspect_hands_each_taken_element_to_the_callback() {
    let rec = Recorder::new();
    let run = rec.runner();
    let mut it = iter_of(&[5, 6, 7]);
    it.inspect(cb(RECORDED_IS_EVEN)).unwrap();
    assert_eq!(rec.take(), Vec::<i64>::new());
    assert_eq!(it.next(&run), Ok(Some(ZVal::Long(5))));
    assert_eq!(it.next_back(&run), Ok(Some(ZVal::Long(7))));
    assert_eq!(rec.take(), vec![5, 7]);
    assert_eq!(longs(it.collect(&run).unwrap()), vec![6]);
    assert_eq!(rec.take(), vec![6]);
}

#[test]
fn all_and_find_stop_calling_at_the_decisive_element() {
    let rec = Recorder::new();
    let run = rec.runner();
    let mut a = iter_of(&[2, 4, 5, 6]);
    assert_eq!(a.all(cb(RECORDED_IS_EVEN), &run, &mut CallLog::new()), Ok(false));
    assert_eq!(rec.take(), vec![2, 4, 5]);
    let mut f = iter_of(&[1, 5, 2, 7]);
    assert_eq!(f.find(cb(RECORDED_IS_EVEN), &run, &mut CallLog::new()), Ok(Some(ZVal::Long(2))));
    assert_eq!(rec.take(), vec![1, 5, 2]);
    assert_eq!(collect(&mut f), vec![7]);
}

#[test]
fn rposition_calls_from_the_back_up_to_the_match() {
    let rec = Recorder::new();
    let run = rec.runner();
    let mut it = iter_of(&[1, 2, 1, 3]);
    assert_eq!(it.rposition(cb(RECORDED_IS_EVEN), &run, &mut CallLog::new()), Ok(Some(1)));
    assert_eq!(rec.take(), vec![3, 1, 2]);
    assert_eq!(collect(&mut it), vec![1]);
}

#[test]
fn partition_and_max_by_key_call_once_per_element() {
    let rec = Recorder::new();
    let run = rec.runner();
    let mut p = iter_of(&[4, 3, 8]);
    p.partition(cb(RECORDED_IS_EVEN), &run, &mut CallLog::new()).unwrap();
    assert_eq!(rec.take(), vec![4, 3, 8]);
    let mut m = iter_of(&[1, 2, 3]);
    assert_eq!(m.max_by_key(cb(RECORDED_IS_EVEN), &run, &mut CallLog::new()), Ok(Some(ZVal::Long(2))));
    assert_eq!(rec.take(), vec![1, 2, 3]);
}

#[test]
fn reduce_calls_once_per_element_after_the_first() {
    let rec = Recorder::new();
    let run = rec.runner();
    let mut one = iter_of(&[4]);
    assert_eq!(one.reduce(cb(RECORDED_IS_EVEN), &run, &mut CallLog::new()), Ok(Some(ZVal::Long(4))));
    assert_eq!(rec.take(), Vec::<i64>::new());
}

#[test]
fn skip_while_stops_calling_after_the_first_rejection() {
    let rec = Recorder::new();
    let run = rec.runner();
    let mut it = iter_of(&[2, 4, 5, 6, 8]);
    it.skip_while(cb(RECORDED_IS_EVEN)).unwrap();
    assert_eq!(it.next(&run), Ok(Some(ZVal::Long(5))));
    assert_eq!(rec.take(), vec![2, 4, 5]);
    assert_eq!(longs(it.collect(&run).unwrap()), vec![6, 8]);
    assert_eq!(rec.take(), Vec::<i64>::new());
}

#[test]
fn skip_while_then_collect_stops_calling_after_the_first_rejection() {
    let rec = Recorder::new();
    let run = rec.runner();
    let mut it = iter_of(&[2, 4, 5, 6, 8]);
    it.skip_while(cb(RECORDED_IS_EVEN)).unwrap();
    assert_eq!(longs(it.collect(&run).unwrap()), vec![5, 6, 8]);
    assert_eq!(rec.take(), vec![2, 4, 5]);
}

#[test]
fn inspect_then_count_and_nth_call_on_each_element_taken() {
    let rec = Recorder::new();
    let run = rec.runner();
    let mut a = iter_of(&[7, 8, 9]);
    a.inspect(cb(RECORDED_IS_EVEN)).unwrap();
    assert_eq!(a.count(&run), Ok(3));
    assert_eq!(rec.take(), vec![7, 8, 9]);
    let mut b = iter_of(&[7, 8, 9]);
    b.inspect(cb(RECORDED_IS_EVEN)).unwrap();
    assert_eq!(b.nth(1, &run), Ok(Some(ZVal::Long(8))));
    assert_eq!(rec.take(), vec![7, 8]);
}

#[test]
fn inspect_then_rfold_and_cmp_call_on_each_element_taken() {
    let rec = Recorder::new();
    let run = rec.runner();
    let mut a = iter_of(&[1, 2, 3]);
    a.inspect(cb(RECORDED_IS_EVEN)).unwrap();
    assert_eq!(a.rfold(&ZVal::Long(0), cb(ADD), &run, &mut CallLog::new()), Ok(ZVal::Long(6)));
    assert_eq!(rec.take(), vec![3, 2, 1]);
    let mut x = iter_of(&[1, 5, 9]);
    x.inspect(cb(RECORDED_IS_EVEN)).unwrap();
    let mut y = iter_of(&[1, 6, 9]);
    assert_eq!(x.cmp(&mut y, &run), Ok(-1));
    assert_eq!(rec.take(), vec![1, 5]);
}
