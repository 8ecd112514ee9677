use bundler::codec::DecodeError;
use bundler::contracts::{Address, Bundle, Claim, Deposit, Signature, Transfer, Withdrawal};
use bundler::U256;

fn n(x: u64) -> U256 {
    U256::from_u64(x)
}

fn sig() -> Signature {
    Signature { v: 0, r: [0; 32], s: [0; 32] }
}

fn claim(deposits: Vec<U256>, gasprice: u64, input: u64) -> Claim {
    Claim { deposits, gasprice: n(gasprice), input: n(input), signature: sig() }
}

fn transfer(gasprice: u64, input0: u64, input1: u64) -> Transfer {
    Transfer {
        gasprice: n(gasprice),
        input0: n(input0),
        input1: n(input1),
        signature: sig(),
        amount: U256::zero(),
        change: Address::zero(),
        destination: Address::zero(),
    }
}

fn withdrawal(gasprice: u64, input: u64) -> Withdrawal {
    Withdrawal { gasprice: n(gasprice), input: n(input), signature: sig() }
}

#[test]
fn bundle_estimate_price_max_base() {
    let bundle = Bundle {
        claim: claim(vec![U256::from_u64(1)], 77, 1),
        withdrawals: vec![withdrawal(113, 1)],
        transfers: vec![transfer(117, 1, 2)],
    };
    let base = U256::max_value();
    assert_eq!(n(77), bundle.estimate_price(base));
}

#[test]
fn bundle_estimate_price_transfer_max_base() {
    let bundle = Bundle {
        claim: claim(vec![], 77, 1),
        withdrawals: vec![],
        transfers: vec![transfer(117, 1, 2)],
    };
    let base = U256::max_value();
    assert_eq!(n(117), bundle.estimate_price(base));
}

#[test]
fn bundle_estimate_price_withdrawal_max_base() {
    let bundle = Bundle {
        claim: claim(vec![], 77, 1),
        transfers: vec![],
        withdrawals: vec![withdrawal(113, 1)],
    };
    let base = U256::max_value();
    assert_eq!(n(113), bundle.estimate_price(base));
}

#[test]
fn bundle_estimate_price_claim_max_base() {
    let bundle = Bundle {
        claim: claim(vec![U256::from_u64(1)], 77, 1),
        transfers: vec![],
        withdrawals: vec![],
    };
    let base = U256::max_value();
    assert_eq!(n(77), bundle.estimate_price(base));
}

#[test]
fn bundle_estimate_price_empty() {
    let bundle = Bundle { claim: claim(vec![], 1, 0), transfers: vec![], withdrawals: vec![] };
    let base = U256::zero();
    assert_eq!(U256::zero(), bundle.estimate_price(base));
}

#[test]
fn estimate_price_above_base_scales_with_slots() {
    // m = 100, base = 50, three of ten slots: 50 + 50 * 3 / 10 = 65.
    let bundle = Bundle {
        claim: claim(vec![], 0, 0),
        transfers: vec![transfer(100, 1, 2), transfer(120, 3, 4)],
        withdrawals: vec![withdrawal(130, 5)],
    };
    assert_eq!(n(65), bundle.estimate_price(n(50)));
    // Rounds down: m = 101, base = 50, 51 * 3 / 10 = 15.
    let bundle = Bundle {
        claim: claim(vec![], 0, 0),
        transfers: vec![transfer(101, 1, 2), transfer(120, 3, 4)],
        withdrawals: vec![withdrawal(130, 5)],
    };
    assert_eq!(n(65), bundle.estimate_price(n(50)));
}

#[test]
fn estimate_price_full_bundle_near_the_top() {
    // A full bundle pays its minimum even where (m - base) * 10 overflows.
    let mut transfers = vec![];
    for i in 0..10u64 {
        let mut t = transfer(0, i + 1, 0);
        t.gasprice = U256::max_value();
        transfers.push(t);
    }
    let bundle = Bundle { claim: claim(vec![], 0, 0), transfers, withdrawals: vec![] };
    assert_eq!(U256::max_value(), bundle.estimate_price(n(1)));
    assert_eq!(bundle.full_slots(), 10);
    assert_eq!(bundle.free_slots(), 0);
}

#[test]
fn estimate_price_min_at_or_below_base_is_min() {
    let bundle = Bundle {
        claim: claim(vec![n(9)], 40, 0),
        transfers: vec![transfer(60, 1, 2)],
        withdrawals: vec![],
    };
    assert_eq!(bundle.minimum_gas_price(), Some(n(40)));
    assert_eq!(n(40), bundle.estimate_price(n(40)));
    assert_eq!(n(40), bundle.estimate_price(n(55)));
}

#[test]
fn estimate_price_rises_with_minimum() {
    let low = Bundle { claim: claim(vec![], 0, 0), transfers: vec![transfer(70, 1, 2)], withdrawals: vec![] };
    let high = Bundle { claim: claim(vec![], 0, 0), transfers: vec![transfer(90, 1, 2)], withdrawals: vec![] };
    let a = low.estimate_price(n(50));
    let b = high.estimate_price(n(50));
    assert_eq!(a, n(52));
    assert_eq!(b, n(54));
}

#[test]
fn minimum_gas_price_ignores_claim_without_deposits() {
    let bundle = Bundle { claim: claim(vec![], 1, 0), transfers: vec![transfer(5, 1, 2)], withdrawals: vec![] };
    assert_eq!(bundle.minimum_gas_price(), Some(n(5)));
    let empty = Bundle::new();
    assert_eq!(empty.minimum_gas_price(), None);
}

#[test]
fn bundle_insert_rejects_when_full() {
    let mut bundle = Bundle::new();
    for i in 0..10u64 {
        assert!(bundle.insert_transfer(transfer(5, i + 1, 0)).is_none());
    }
    let rejected = bundle.insert_withdrawal(withdrawal(5, 99));
    assert_eq!(rejected, Some(withdrawal(5, 99)));
    assert_eq!(bundle.insert_deposit(n(3)), Some(n(3)));
    assert_eq!(bundle.full_slots(), 10);
    assert_eq!(bundle.transactions().len(), 10);
}

#[test]
fn deposit_fees_are_zero_with_the_configured_constants() {
    assert_eq!(Deposit::fees(0, &n(10)), U256::zero());
    assert_eq!(Deposit::fees(7, &U256::max_value()), U256::zero());
}

/// A word holding a small integer.
fn small(x: u64) -> [u8; 32] {
    let mut w = [0u8; 32];
    w[24..].copy_from_slice(&x.to_be_bytes());
    w
}

/// A word holding an address made of one repeated byte.
fn addr(b: u8) -> [u8; 32] {
    let mut w = [0u8; 32];
    w[12..].fill(b);
    w
}

/// A word of one repeated byte, with its first byte replaced.
fn filled(first: u8, rest: u8) -> [u8; 32] {
    let mut w = [rest; 32];
    w[0] = first;
    w
}

/// The call data of a `transact` with a claim of two deposits, two
/// transfers and two withdrawals.
fn transact_payload() -> Vec<u8> {
    let mut words: Vec<[u8; 32]> = vec![small(0x60), small(0x180), small(0x3e0)];
    // The claim, then its two deposits.
    words.extend([small(0x27), small(0x3b9aca00), small(0xc0), small(0)]);
    words.extend([filled(0xaa, 0xaa), filled(0xbb, 0xbb)]);
    words.extend([small(2), small(0), small(0xc)]);
    // Two transfers.
    words.push(small(2));
    words.extend([small(1), small(2), addr(0xcc), addr(0xdd), small(0xee), small(0x44)]);
    words.extend([small(9), filled(0x11, 0x11), filled(0x22, 0x22)]);
    words.extend([small(3), small(4), addr(0x77), addr(0x55), small(0xee), small(0x44)]);
    words.extend([small(9), filled(0x11, 0x11), filled(0x22, 0x22)]);
    // Two withdrawals.
    words.push(small(2));
    words.extend([small(5), small(0xde), small(9), filled(0x11, 0x11), filled(0x22, 0x22)]);
    words.extend([small(6), small(0xfe), small(0x19), filled(0x13, 0x11), filled(0x23, 0x22)]);
    let mut data = vec![0xe2, 0x3c, 0x9c, 0x75];
    for w in words {
        data.extend_from_slice(&w);
    }
    data
}

#[test]
fn bundle_decode_slice() {
    let input = transact_payload();
    assert_eq!(input.len(), 1348);

    let bundle = Bundle::decode_slice(&input).unwrap();

    let claim = bundle.claim;
    assert_eq!(claim.input, n(0x27));
    assert_eq!(claim.gasprice, n(0x3b9aca00));
    assert_eq!(claim.deposits.len(), 2);
    assert_eq!(claim.deposits[0], n(0));
    assert_eq!(claim.deposits[1], n(0xc));

    let xfrs = bundle.transfers;
    assert_eq!(xfrs.len(), 2);
    assert_eq!(xfrs[0].gasprice, n(0x44));
    assert_eq!(xfrs[1].destination, Address { bytes: [0x77; 20] });

    let withdrawals = bundle.withdrawals;
    assert_eq!(withdrawals.len(), 2);
    assert_eq!(withdrawals[0].gasprice, n(0xde));
    assert_eq!(withdrawals[1].signature.v, 0x19);
}

#[test]
fn decode_slice_reads_every_field() {
    let bundle = Bundle::decode_slice(&transact_payload()).unwrap();
    assert_eq!(bundle.claim.signature.r, [0xaa; 32]);
    assert_eq!(bundle.transfers[0].input0, n(1));
    assert_eq!(bundle.transfers[0].input1, n(2));
    assert_eq!(bundle.transfers[0].change, Address { bytes: [0xdd; 20] });
    assert_eq!(bundle.transfers[1].amount, n(0xee));
    assert_eq!(bundle.transfers[1].signature.v, 9);
    assert_eq!(bundle.withdrawals[1].input, n(6));
    assert_eq!(bundle.withdrawals[1].gasprice, n(0xfe));
    assert_eq!(bundle.withdrawals[1].signature.r[0], 0x13);
    assert_eq!(bundle.withdrawals[1].signature.s[0], 0x23);
    // A list that runs past the end is refused.
    let mut cut = transact_payload();
    cut.truncate(1348 - 32);
    assert!(Bundle::decode_slice(&cut).is_err());
}

#[test]
fn decode_slice_rejects_short_and_malformed_input() {
    assert_eq!(Bundle::decode_slice(&[0xe2, 0x3c, 0x9c]).unwrap_err(), DecodeError::TooShort);
    assert_eq!(Bundle::decode_slice(&[0xe2, 0x3c, 0x9c, 0x75]).unwrap_err(), DecodeError::Abi);
    // A claim offset word with a non-zero high byte.
    let mut bad = vec![0u8; 4 + 96];
    bad[4] = 1;
    assert_eq!(Bundle::decode_slice(&bad).unwrap_err(), DecodeError::Abi);
}

#[test]
fn decode_slice_reads_big_endian_words() {
    // An empty bundle whose claim input is 0x0102..20 spread over all four words.
    let mut data = vec![0xe2, 0x3c, 0x9c, 0x75];
    let word = |x: usize| {
        let mut w = [0u8; 32];
        w[28..].copy_from_slice(&(x as u32).to_be_bytes());
        w
    };
    data.extend_from_slice(&word(96));
    data.extend_from_slice(&word(96 + 224));
    data.extend_from_slice(&word(96 + 256));
    let mut input = [0u8; 32];
    for i in 0..32 {
        input[i] = (i + 1) as u8;
    }
    data.extend_from_slice(&input);
    data.extend_from_slice(&word(5));
    data.extend_from_slice(&word(192));
    data.extend_from_slice(&word(0x1b));
    data.extend_from_slice(&[0xaa; 32]);
    data.extend_from_slice(&[0xbb; 32]);
    data.extend_from_slice(&word(0));
    data.extend_from_slice(&word(0));
    data.extend_from_slice(&word(0));
    let bundle = Bundle::decode_slice(&data).unwrap();
    assert_eq!(bundle.claim.input.w3, 0x0102030405060708);
    assert_eq!(bundle.claim.input.w0, 0x191a1b1c1d1e1f20);
    assert_eq!(bundle.claim.gasprice, n(5));
    assert_eq!(bundle.claim.signature.v, 0x1b);
    assert_eq!(bundle.claim.signature.r, [0xaa; 32]);
    assert!(bundle.claim.deposits.is_empty());
    assert!(bundle.transfers.is_empty());
    assert!(bundle.withdrawals.is_empty());
}
