use bundler::contracts::{Address, Bundle, Signature, Transfer, Txn, Withdrawal};
use bundler::contracts::Deposit;
use bundler::pool::Identified;
use bundler::{Pending, U256};

fn n(x: u64) -> U256 {
    U256::from_u64(x)
}

fn transfer(gasprice: U256, input0: u64, input1: u64) -> Transfer {
    Transfer {
        amount: n(10),
        gasprice,
        change: Address::zero(),
        destination: Address::zero(),
        input0: n(input0),
        input1: n(input1),
        signature: Signature { v: 0, r: [0; 32], s: [0; 32] },
    }
}

#[test]
fn bundle_two_transfers_take_one() {
    let mut pending = Pending::new();

    let expected = transfer(n(100), 1, 2);
    pending.transactions.insert(Txn::Transfer(expected));
    pending.transactions.insert(Txn::Transfer(transfer(n(60), 3, 4)));

    let actual = pending.regenerate(n(50)).unwrap();
    assert_eq!(actual.transfers, vec![expected]);
}

#[test]
fn bundle_two_transfers_take_two() {
    let mut pending = Pending::new();

    let expected0 = transfer(n(100), 1, 2);
    pending.transactions.insert(Txn::Transfer(expected0));

    let expected1 = transfer(n(90), 3, 4);
    pending.transactions.insert(Txn::Transfer(expected1));

    let actual = pending.regenerate(n(50)).unwrap();
    assert_eq!(actual.transfers, vec![expected0, expected1]);
}

#[test]
fn bundle_too_many_transfers() {
    let mut pending = Pending::new();

    let allowed = Bundle::MAX_SLOTS / Bundle::SLOTS_PER_TRANSFER;
    let mut xfrs = vec![];

    for ii in 0..allowed + 5 {
        let xfr = transfer(n((usize::MAX - ii) as u64), (1 + ii) as u64, 0);
        pending.transactions.insert(Txn::Transfer(xfr));
        xfrs.push(xfr);
    }

    let actual = pending.regenerate(U256::zero()).unwrap();
    assert_eq!(actual.transfers, &xfrs[..xfrs.len() - 5]);
}

#[test]
fn regenerate_keeps_a_better_cached_bundle() {
    let mut pending = Pending::new();
    pending.transactions.insert(Txn::Transfer(transfer(n(100), 1, 2)));
    assert!(pending.regenerate(n(50)).is_some());
    // Same pools, same estimate: not strictly better.
    assert!(pending.regenerate(n(50)).is_none());
    assert!(pending.best_bundle.is_some());
    // generate forgets the cache first.
    let again = pending.generate(n(50)).unwrap();
    assert_eq!(again.transfers.len(), 1);
}

#[test]
fn regenerate_claims_deposits_that_break_even() {
    let mut pending = Pending::new();
    let owner = Address { bytes: [1; 20] };
    pending.deposits.insert(Identified(Deposit { amount: n(1), bounty: n(3), owner }, n(11)));
    pending.deposits.insert(Identified(Deposit { amount: n(1), bounty: n(8), owner }, n(12)));
    pending.transactions.insert(Txn::Withdrawal(Withdrawal { input: n(5), gasprice: n(80), signature: Signature { v: 0, r: [0; 32], s: [0; 32] } }));
    let bundle = pending.regenerate(n(20)).unwrap();
    assert_eq!(bundle.withdrawals.len(), 1);
    assert_eq!(bundle.claim.deposits, vec![n(12), n(11)]);
    assert_eq!(bundle.claim.gasprice, n(80));
    assert_eq!(bundle.full_slots(), 3);
    // 20 + 60 * 3 / 10 = 38.
    assert_eq!(bundle.estimate_price(n(20)), n(38));
}

#[test]
fn regenerate_of_empty_pool_is_empty_bundle() {
    let mut pending = Pending::new();
    let bundle = pending.regenerate(n(7)).unwrap();
    assert_eq!(bundle.full_slots(), 0);
    assert_eq!(bundle.estimate_price(n(7)), U256::zero());
}

fn withdrawal(gasprice: u64, input: u64) -> Withdrawal {
    Withdrawal { input: n(input), gasprice: n(gasprice), signature: Signature { v: 0, r: [0; 32], s: [0; 32] } }
}

#[test]
fn submit_replaces_conflicts_and_counts() {
    let mut pending = Pending::new();
    pending.transactions.insert(Txn::Transfer(transfer(n(30), 1, 2)));
    pending.transactions.insert(Txn::Transfer(transfer(n(40), 3, 4)));
    // Conflicts with both, pays less than either: submission still wins.
    let t = transfer(n(20), 2, 3);
    let (removed, added, best) = pending.submit(Txn::Transfer(t), n(5));
    assert_eq!((removed, added), (2, 1));
    assert_eq!(best.unwrap().transfers, vec![t]);
    assert_eq!(pending.transactions.len(), 1);
    // The same submission again: nothing leaves, nothing enters.
    let (removed, added, best) = pending.submit(Txn::Transfer(t), n(5));
    assert_eq!((removed, added), (1, 1));
    assert!(best.is_none());
}

#[test]
fn apply_mined_drops_spent_inputs_and_regenerates() {
    let mut pending = Pending::new();
    pending.transactions.insert(Txn::Transfer(transfer(n(30), 1, 2)));
    pending.transactions.insert(Txn::Transfer(transfer(n(40), 3, 4)));
    pending.transactions.insert(Txn::Withdrawal(withdrawal(50, 9)));
    let mut mined = Bundle::new();
    mined.transfers.push(transfer(n(1), 2, 7));
    mined.withdrawals.push(withdrawal(1, 9));
    let (removed, best) = pending.apply_mined(&mined, n(5));
    assert_eq!(removed, 2);
    let best = best.unwrap();
    assert_eq!(best.transfers, vec![transfer(n(40), 3, 4)]);
    assert!(best.withdrawals.is_empty());
}

#[test]
fn apply_pending_offers_withdrawals_then_transfers() {
    let mut pending = Pending::new();
    let mut seen = Bundle::new();
    seen.transfers.push(transfer(n(60), 1, 2));
    seen.withdrawals.push(withdrawal(70, 2));
    // The withdrawal enters first; the transfer shares input 2 and pays less.
    let best = pending.apply_pending(&seen, n(5)).unwrap();
    assert_eq!(best.withdrawals, vec![withdrawal(70, 2)]);
    assert!(best.transfers.is_empty());
    assert_eq!(pending.transactions.len(), 1);
}
