use bundler::contracts::{Address, Deposit, Inputs, Signature, Transaction, Transfer, Txn, Withdrawal};
use bundler::pool::{DepositPool, Identified, Pool};
use bundler::U256;

fn n(x: u64) -> U256 {
    U256::from_u64(x)
}

fn sig() -> Signature {
    Signature { v: 0, r: [0; 32], s: [0; 32] }
}

fn two(gasprice: u64, input0: u64, input1: u64) -> Txn {
    Txn::Transfer(Transfer {
        gasprice: n(gasprice),
        input0: n(input0),
        input1: n(input1),
        destination: Address::zero(),
        change: Address::zero(),
        amount: U256::zero(),
        signature: sig(),
    })
}

fn one(gasprice: u64, input: u64) -> Txn {
    Txn::Withdrawal(Withdrawal { gasprice: n(gasprice), input: n(input), signature: sig() })
}

fn fields(t: &Txn) -> (U256, U256, U256) {
    match t {
        Txn::Transfer(x) => (x.gasprice, x.input0, x.input1),
        Txn::Withdrawal(w) => (w.gasprice, w.input, U256::zero()),
    }
}

#[test]
fn len_zero() {
    let pool = Pool::default();
    assert_eq!(pool.len(), 0);
}

#[test]
fn insert_when_empty() {
    let mut pool = Pool::default();
    pool.insert(two(27, 97, 103));
    assert_eq!(pool.len(), 1);

    let peeked = pool.peek().expect("pool should contain a transaction");
    let (gasprice, input0, input1) = fields(peeked);
    assert_eq!(gasprice, n(27));
    assert_eq!(input0, n(97));
    assert_eq!(input1, n(103));
}

#[test]
fn insert_without_conflict() {
    let mut pool = Pool::default();

    let tx0 = two(27, 97, 103);
    pool.insert(tx0);

    let tx1 = two(29, 98, 104);
    pool.insert(tx1);

    assert_eq!(pool.len(), 2);

    assert_eq!(pool.gas_levels(), 2);
    assert_eq!(pool.by_gas(&n(27)), vec![tx0]);
    assert_eq!(pool.by_gas(&n(29)), vec![tx1]);

    assert_eq!(pool.input_count(), 4);
    assert_eq!(pool.by_input(&n(97)), Some(tx0));
    assert_eq!(pool.by_input(&n(103)), Some(tx0));
    assert_eq!(pool.by_input(&n(98)), Some(tx1));
    assert_eq!(pool.by_input(&n(104)), Some(tx1));
}

#[test]
fn insert_with_conflict_replace() {
    let mut pool = Pool::default();

    let tx0 = two(27, 97, 103);
    pool.insert(tx0);

    let tx1 = two(29, 98, 103);
    pool.insert(tx1);

    assert_eq!(pool.len(), 1);

    assert_eq!(pool.gas_levels(), 1);
    assert_eq!(pool.by_gas(&n(29)), vec![tx1]);

    assert_eq!(pool.input_count(), 2);
    assert_eq!(pool.by_input(&n(103)), Some(tx1));
    assert_eq!(pool.by_input(&n(98)), Some(tx1));
}

#[test]
fn insert_with_conflict_no_replace() {
    let mut pool = Pool::default();

    let tx0 = two(27, 97, 103);
    pool.insert(tx0);

    let tx1 = two(26, 98, 103);
    pool.insert(tx1);

    assert_eq!(pool.len(), 1);

    assert_eq!(pool.gas_levels(), 1);
    assert_eq!(pool.by_gas(&n(27)), vec![tx0]);

    assert_eq!(pool.input_count(), 2);
    assert_eq!(pool.by_input(&n(103)), Some(tx0));
    assert_eq!(pool.by_input(&n(97)), Some(tx0));
}

#[test]
fn peek_empty() {
    let pool = Pool::default();
    assert!(pool.peek().is_none());
}

#[test]
fn peek_with_one() {
    let mut pool = Pool::default();
    let tx0 = two(27, 97, 103);
    pool.insert(tx0);
    assert_eq!(pool.peek(), Some(&tx0));
}

#[test]
fn peek_with_two_asc() {
    let mut pool = Pool::default();
    let tx0 = two(27, 97, 103);
    let tx1 = two(28, 99, 109);
    pool.insert(tx0);
    pool.insert(tx1);
    assert_eq!(pool.peek(), Some(&tx1));
}

#[test]
fn peek_with_two_dsc() {
    let mut pool = Pool::default();
    let tx0 = two(27, 97, 103);
    let tx1 = two(28, 99, 109);
    pool.insert(tx1);
    pool.insert(tx0);
    assert_eq!(pool.peek(), Some(&tx1));
}

#[test]
fn remove() {
    let mut pool = Pool::default();
    let tx0 = two(27, 100, 101);
    pool.insert(tx0);
    pool.remove(&tx0);
    assert_eq!(pool.len(), 0);
}

#[test]
fn equal_prices_keep_arrival_order() {
    let mut pool = Pool::default();
    pool.insert(two(5, 1, 2));
    pool.insert(one(9, 3));
    pool.insert(two(5, 4, 5));
    pool.insert(one(5, 6));
    let order: Vec<U256> = pool.iter().iter().map(|t| fields(t).1).collect();
    assert_eq!(order, vec![n(3), n(1), n(4), n(6)]);
    assert_eq!(pool.by_gas(&n(5)), vec![two(5, 1, 2), two(5, 4, 5), one(5, 6)]);
    assert_eq!(pool.gas_levels(), 2);
}

#[test]
fn index_lists_each_input_once() {
    let mut pool = Pool::default();
    pool.insert(two(10, 1, 2));
    pool.insert(one(12, 3));
    pool.insert(two(11, 0, 4));
    assert_eq!(pool.input_count(), 4);
    for (input, gas) in [(1u64, 10u64), (2, 10), (3, 12), (4, 11)] {
        let holder = pool.by_input(&n(input)).unwrap();
        assert_eq!(holder.gas_price(), n(gas));
        assert_eq!(pool.by_gas(&n(gas)), vec![holder]);
    }
    assert_eq!(pool.by_input(&n(0)), None);
}

#[test]
fn insert_twice_changes_nothing() {
    let mut pool = Pool::default();
    pool.insert(two(7, 1, 2));
    pool.insert(two(8, 3, 4));
    let tx = two(7, 5, 6);
    pool.insert(tx);
    let after_first: Vec<Txn> = pool.iter().to_vec();
    pool.insert(tx);
    assert_eq!(pool.iter().to_vec(), after_first);
    assert_eq!(pool.len(), 3);
}

#[test]
fn remove_conflicting_then_insert_ignores_old_prices() {
    let tx = two(20, 1, 2);
    let mut a = Pool::default();
    a.insert(two(50, 1, 9));
    a.insert(two(30, 7, 8));
    let mut b = Pool::default();
    b.insert(two(5, 2, 3));
    b.insert(two(30, 7, 8));
    a.remove_conflicting(&tx);
    a.insert(tx);
    b.remove_conflicting(&tx);
    b.insert(tx);
    assert_eq!(a.iter().to_vec(), b.iter().to_vec());
    assert_eq!(a.iter().to_vec(), vec![two(30, 7, 8), tx]);
}

#[test]
fn replace_evicts_even_stronger_conflicts() {
    let mut pool = Pool::default();
    pool.insert(two(50, 1, 2));
    pool.replace(two(10, 2, 3));
    assert_eq!(pool.iter().to_vec(), vec![two(10, 2, 3)]);
}

#[test]
fn tie_on_price_keeps_incumbent() {
    let mut pool = Pool::default();
    pool.insert(two(10, 1, 2));
    pool.insert(two(10, 2, 3));
    assert_eq!(pool.iter().to_vec(), vec![two(10, 1, 2)]);
}

#[test]
fn overflow_evicts_the_lowest_price() {
    let mut pool = Pool::default();
    let max = Pool::DEFAULT_MAX_LEN as u64;
    for i in 0..=max {
        pool.insert(two(100 + i, 2 * i + 1, 2 * i + 2));
    }
    assert_eq!(pool.len(), max as usize);
    assert_eq!(pool.by_input(&n(1)), None);
    assert_eq!(pool.by_gas(&n(100)), vec![]);
    assert_eq!(pool.peek(), Some(&two(100 + max, 2 * max + 1, 2 * max + 2)));
    assert_eq!(pool.iter().last(), Some(&two(101, 3, 4)));
}

#[test]
fn inputless_transfer_has_no_inputs_and_no_conflicts() {
    let t = two(10, 0, 0);
    assert_eq!(t.inputs(), Inputs::Empty);
    assert!(t.inputs().to_vec().is_empty());
    let mut pool = Pool::default();
    pool.insert(two(50, 1, 2));
    pool.insert(t);
    assert_eq!(pool.len(), 2);
    assert_eq!(pool.input_count(), 2);
    assert_eq!(pool.by_input(&n(1)), Some(two(50, 1, 2)));
    pool.remove_conflicting(&t);
    assert_eq!(pool.len(), 2);
    // Offered again, it is already there: nothing changes.
    pool.insert(t);
    pool.replace(t);
    assert_eq!(pool.len(), 2);
    assert_eq!(pool.by_gas(&n(10)), vec![t]);
    assert_eq!(two(10, 0, 5).inputs(), Inputs::One(n(5)));
    assert_eq!(two(10, 4, 0).inputs(), Inputs::One(n(4)));
}

fn deposit(bounty: u64, amount: u64, owner: u8) -> Deposit {
    Deposit { bounty: n(bounty), amount: n(amount), owner: Address { bytes: [owner; 20] } }
}

#[test]
fn deposits_iterate_highest_bounty_first() {
    let mut pool = DepositPool::default();
    pool.insert(Identified(deposit(5, 1, 1), n(1)));
    pool.insert(Identified(deposit(9, 1, 1), n(2)));
    pool.insert(Identified(deposit(5, 3, 1), n(3)));
    pool.insert(Identified(deposit(5, 3, 2), n(4)));
    let ids: Vec<U256> = pool.iter().iter().map(|d| *d.id()).collect();
    assert_eq!(ids, vec![n(2), n(4), n(3), n(1)]);
}

#[test]
fn deposit_reinsert_same_record_keeps_order() {
    let mut pool = DepositPool::default();
    pool.insert(Identified(deposit(5, 1, 1), n(1)));
    pool.insert(Identified(deposit(9, 1, 1), n(2)));
    let before: Vec<U256> = pool.iter().iter().map(|d| *d.id()).collect();
    pool.insert(Identified(deposit(5, 1, 1), n(1)));
    let after: Vec<U256> = pool.iter().iter().map(|d| *d.id()).collect();
    assert_eq!(before, after);
    assert_eq!(pool.iter().len(), 2);
}

#[test]
fn equal_operation_with_other_signature_is_not_added() {
    let mut pool = Pool::default();
    let a = two(10, 0, 0);
    let b = match a {
        Txn::Transfer(mut x) => {
            x.signature.v = 27;
            Txn::Transfer(x)
        }
        other => other,
    };
    pool.insert(a);
    pool.insert(b);
    assert_eq!(pool.len(), 1);
}

#[test]
fn replace_by_equal_operation_takes_its_place() {
    let mut pool = Pool::default();
    let old = two(10, 1, 2);
    pool.insert(old);
    pool.insert(two(20, 5, 6));
    let new = match old {
        Txn::Transfer(mut x) => {
            x.signature.v = 28;
            Txn::Transfer(x)
        }
        other => other,
    };
    pool.replace(new);
    assert_eq!(pool.len(), 2);
    match pool.by_input(&n(1)).unwrap() {
        Txn::Transfer(x) => assert_eq!(x.signature.v, 28),
        _ => panic!("expected a transfer"),
    }
    // Insert, unlike replace, keeps the incumbent.
    let newer = match old {
        Txn::Transfer(mut x) => {
            x.signature.v = 29;
            Txn::Transfer(x)
        }
        other => other,
    };
    pool.insert(newer);
    match pool.by_input(&n(1)).unwrap() {
        Txn::Transfer(x) => assert_eq!(x.signature.v, 28),
        _ => panic!("expected a transfer"),
    }
}

#[test]
fn deposit_reinsert_with_shared_record_keeps_ids() {
    let mut pool = DepositPool::default();
    pool.insert(Identified(deposit(5, 1, 1), n(1)));
    pool.insert(Identified(deposit(5, 1, 1), n(2)));
    pool.insert(Identified(deposit(7, 1, 1), n(3)));
    let before: Vec<U256> = pool.iter().iter().map(|d| *d.id()).collect();
    assert_eq!(before, vec![n(3), n(1)]);
    pool.insert(Identified(deposit(5, 1, 1), n(2)));
    let after: Vec<U256> = pool.iter().iter().map(|d| *d.id()).collect();
    assert_eq!(before, after);
}
