//! Operations carried by a bundle (transfers, withdrawals, deposit claims),
//! available deposits, and the bundle itself with its slot accounting and
//! profit estimate.

use vstd::prelude::*;
use crate::uint::{self, U256};

verus! {

/// A 160-bit account address, as big-endian bytes.
#[derive(Clone, Copy, Debug)]
pub struct Address {
    pub bytes: [u8; 20],
}

impl Address {
    /// The address whose bytes are all zero.
    pub fn zero() -> (r: Address)
        ensures
            forall|i: int| 0 <= i < 20 ==> r.bytes@[i] == 0,
    {
        Address { bytes: [0u8; 20] }
    }
}

/// Lexicographic order on byte strings of equal length.
pub open spec fn bytes_lt(a: Seq<u8>, b: Seq<u8>) -> bool
    decreases a.len(),
{
    if a.len() == 0 || b.len() == 0 {
        false
    } else if a[0] != b[0] {
        a[0] < b[0]
    } else {
        bytes_lt(a.drop_first(), b.drop_first())
    }
}

/// Of two byte strings of one length, one is below the other or they are equal.
pub proof fn lemma_bytes_total(a: Seq<u8>, b: Seq<u8>)
    requires
        a.len() == b.len(),
    ensures
        bytes_lt(a, b) || bytes_lt(b, a) || a == b,
        !(bytes_lt(a, b) && bytes_lt(b, a)),
        bytes_lt(a, b) ==> a != b,
    decreases a.len(),
{
    if a.len() > 0 && a[0] == b[0] {
        lemma_bytes_total(a.drop_first(), b.drop_first());
        if a.drop_first() == b.drop_first() {
            assert forall|i: int| 0 <= i < a.len() implies a[i] == b[i] by {
                if i > 0 {
                    assert(a[i] == a.drop_first()[i - 1]);
                    assert(b[i] == b.drop_first()[i - 1]);
                }
            }
            assert(a =~= b);
        }
    }
    if a.len() == 0 {
        assert(a =~= b);
    }
}

/// The byte order is transitive.
pub proof fn lemma_bytes_transitive(a: Seq<u8>, b: Seq<u8>, c: Seq<u8>)
    requires
        a.len() == b.len(),
        b.len() == c.len(),
        bytes_lt(a, b),
        bytes_lt(b, c),
    ensures
        bytes_lt(a, c),
    decreases a.len(),
{
    if a[0] == b[0] && b[0] == c[0] {
        lemma_bytes_transitive(a.drop_first(), b.drop_first(), c.drop_first());
    }
}

/// Compares two addresses byte by byte.
pub fn compare_addresses(a: &Address, b: &Address) -> (r: core::cmp::Ordering)
    ensures
        (r == core::cmp::Ordering::Less) == bytes_lt(a.bytes@, b.bytes@),
        (r == core::cmp::Ordering::Equal) == (a.bytes@ == b.bytes@),
        (r == core::cmp::Ordering::Greater) == bytes_lt(b.bytes@, a.bytes@),
{
    proof {
        lemma_bytes_total(a.bytes@, b.bytes@);
    }
    assert(a.bytes@.skip(0) =~= a.bytes@);
    assert(b.bytes@.skip(0) =~= b.bytes@);
    assert(a.bytes@.take(0) =~= b.bytes@.take(0));
    let mut i: usize = 0;
    while i < 20
        invariant
            0 <= i <= 20,
            a.bytes@.len() == 20,
            b.bytes@.len() == 20,
            a.bytes@.take(i as int) == b.bytes@.take(i as int),
            bytes_lt(a.bytes@, b.bytes@) == bytes_lt(a.bytes@.skip(i as int), b.bytes@.skip(i as int)),
            bytes_lt(b.bytes@, a.bytes@) == bytes_lt(b.bytes@.skip(i as int), a.bytes@.skip(i as int)),
        decreases 20 - i,
    {
        let x = a.bytes[i];
        let y = b.bytes[i];
        assert(a.bytes@.skip(i as int)[0] == x);
        assert(b.bytes@.skip(i as int)[0] == y);
        if x < y {
            return core::cmp::Ordering::Less;
        }
        if x > y {
            return core::cmp::Ordering::Greater;
        }
        assert(a.bytes@.skip(i as int).drop_first() =~= a.bytes@.skip(i + 1));
        assert(b.bytes@.skip(i as int).drop_first() =~= b.bytes@.skip(i + 1));
        assert(a.bytes@.take(i + 1) =~= a.bytes@.take(i as int).push(x));
        assert(b.bytes@.take(i + 1) =~= b.bytes@.take(i as int).push(y));
        i = i + 1;
    }
    assert(a.bytes@ =~= a.bytes@.take(20));
    assert(b.bytes@ =~= b.bytes@.take(20));
    core::cmp::Ordering::Equal
}

impl PartialEq for Address {
    fn eq(&self, other: &Address) -> (r: bool) {
        match compare_addresses(self, other) {
            core::cmp::Ordering::Equal => true,
            _ => false,
        }
    }
}

impl vstd::std_specs::cmp::PartialEqSpecImpl for Address {
    open spec fn obeys_eq_spec() -> bool {
        true
    }

    open spec fn eq_spec(&self, other: &Address) -> bool {
        self.bytes@ == other.bytes@
    }
}

/// A recoverable ECDSA signature in the contract's tuple form.
#[derive(Clone, Copy, Debug)]
pub struct Signature {
    pub v: u64,
    pub r: [u8; 32],
    pub s: [u8; 32],
}

impl Signature {
    /// Whether every part of the signature is zero.
    pub open spec fn is_blank(self) -> bool {
        &&& self.v == 0
        &&& forall|i: int| 0 <= i < 32 ==> self.r@[i] == 0 && self.s@[i] == 0
    }

    /// The all-zero signature.
    pub fn zero() -> (r: Signature)
        ensures
            r.is_blank(),
    {
        Signature { v: 0, r: [0u8; 32], s: [0u8; 32] }
    }
}

/// The input identifiers an operation consumes.
#[derive(Clone, Copy, Debug, PartialEq, Eq, Structural)]
pub enum Inputs {
    Empty,
    One(U256),
    Two(U256, U256),
}

impl Inputs {
    /// Whether `x` is one of these inputs.
    pub open spec fn has(self, x: U256) -> bool {
        match self {
            Inputs::Empty => false,
            Inputs::One(a) => a == x,
            Inputs::Two(a, b) => a == x || b == x,
        }
    }

    /// The inputs in order, as a sequence.
    pub open spec fn spec_seq(self) -> Seq<U256> {
        match self {
            Inputs::Empty => seq![],
            Inputs::One(a) => seq![a],
            Inputs::Two(a, b) => seq![a, b],
        }
    }

    /// The inputs in order.
    pub fn to_vec(&self) -> (r: Vec<U256>)
        ensures
            r@ == self.spec_seq(),
    {
        match self {
            Inputs::Empty => Vec::new(),
            Inputs::One(a) => vec![*a],
            Inputs::Two(a, b) => vec![*a, *b],
        }
    }
}

/// What the pool needs of an operation: its price and the inputs it consumes.
pub trait Transaction {
    spec fn spec_gas_price(&self) -> U256;

    spec fn spec_inputs(&self) -> Inputs;

    fn gas_price(&self) -> (r: U256)
        ensures
            r == self.spec_gas_price(),
    ;

    fn inputs(&self) -> (r: Inputs)
        ensures
            r == self.spec_inputs(),
    ;
}

/// Spends one input to the withdrawer.
#[derive(Clone, Copy, Debug)]
pub struct Withdrawal {
    pub input: U256,
    pub gasprice: U256,
    pub signature: Signature,
}

impl Transaction for Withdrawal {
    open spec fn spec_gas_price(&self) -> U256 {
        self.gasprice
    }

    open spec fn spec_inputs(&self) -> Inputs {
        Inputs::One(self.input)
    }

    fn gas_price(&self) -> (r: U256) {
        self.gasprice
    }

    fn inputs(&self) -> (r: Inputs) {
        Inputs::One(self.input)
    }
}

impl Withdrawal {
    /// Equality of withdrawals, which ignores signatures.
    pub open spec fn same(self, other: Withdrawal) -> bool {
        self.input == other.input && self.gasprice == other.gasprice
    }
}

impl PartialEq for Withdrawal {
    fn eq(&self, other: &Withdrawal) -> (r: bool) {
        self.input == other.input && self.gasprice == other.gasprice
    }
}

impl vstd::std_specs::cmp::PartialEqSpecImpl for Withdrawal {
    open spec fn obeys_eq_spec() -> bool {
        true
    }

    open spec fn eq_spec(&self, other: &Withdrawal) -> bool {
        self.same(*other)
    }
}

/// Spends up to two inputs, paying `amount` to `destination` and the rest
/// to `change`. A zero input is absent.
#[derive(Clone, Copy, Debug)]
pub struct Transfer {
    pub input0: U256,
    pub input1: U256,
    pub destination: Address,
    pub change: Address,
    pub amount: U256,
    pub gasprice: U256,
    pub signature: Signature,
}

impl Transaction for Transfer {
    open spec fn spec_gas_price(&self) -> U256 {
        self.gasprice
    }

    open spec fn spec_inputs(&self) -> Inputs {
        if self.input0@ == 0 && self.input1@ == 0 {
            Inputs::Empty
        } else if self.input0@ == 0 {
            Inputs::One(self.input1)
        } else if self.input1@ == 0 {
            Inputs::One(self.input0)
        } else {
            Inputs::Two(self.input0, self.input1)
        }
    }

    fn gas_price(&self) -> (r: U256) {
        self.gasprice
    }

    fn inputs(&self) -> (r: Inputs) {
        let z0 = self.input0.is_zero();
        let z1 = self.input1.is_zero();
        if z0 && z1 {
            Inputs::Empty
        } else if z0 {
            Inputs::One(self.input1)
        } else if z1 {
            Inputs::One(self.input0)
        } else {
            Inputs::Two(self.input0, self.input1)
        }
    }
}

impl PartialEq for Transfer {
    fn eq(&self, other: &Transfer) -> (r: bool) {
        self.input0 == other.input0 && self.input1 == other.input1 && self.destination
            == other.destination && self.change == other.change && self.amount == other.amount
            && self.gasprice == other.gasprice
    }
}

impl vstd::std_specs::cmp::PartialEqSpecImpl for Transfer {
    open spec fn obeys_eq_spec() -> bool {
        true
    }

    open spec fn eq_spec(&self, other: &Transfer) -> bool {
        self.same(*other)
    }
}

impl Transfer {
    /// Equality of transfers, which ignores signatures.
    pub open spec fn same(self, other: Transfer) -> bool {
        &&& self.input0 == other.input0
        &&& self.input1 == other.input1
        &&& self.destination.bytes@ == other.destination.bytes@
        &&& self.change.bytes@ == other.change.bytes@
        &&& self.amount == other.amount
        &&& self.gasprice == other.gasprice
    }
}

/// A transfer or a withdrawal: what the operation pool holds.
#[derive(Clone, Copy, Debug)]
pub enum Txn {
    Transfer(Transfer),
    Withdrawal(Withdrawal),
}

impl Transaction for Txn {
    open spec fn spec_gas_price(&self) -> U256 {
        match self {
            Txn::Transfer(t) => t.spec_gas_price(),
            Txn::Withdrawal(w) => w.spec_gas_price(),
        }
    }

    open spec fn spec_inputs(&self) -> Inputs {
        match self {
            Txn::Transfer(t) => t.spec_inputs(),
            Txn::Withdrawal(w) => w.spec_inputs(),
        }
    }

    fn gas_price(&self) -> (r: U256) {
        match self {
            Txn::Transfer(t) => t.gas_price(),
            Txn::Withdrawal(w) => w.gas_price(),
        }
    }

    fn inputs(&self) -> (r: Inputs) {
        match self {
            Txn::Transfer(t) => t.inputs(),
            Txn::Withdrawal(w) => w.inputs(),
        }
    }
}

impl Txn {
    /// Equality of operations, which ignores signatures.
    pub open spec fn same(self, other: Txn) -> bool {
        match (self, other) {
            (Txn::Transfer(a), Txn::Transfer(b)) => a.same(b),
            (Txn::Withdrawal(a), Txn::Withdrawal(b)) => a.same(b),
            _ => false,
        }
    }
}

impl PartialEq for Txn {
    fn eq(&self, other: &Txn) -> (r: bool) {
        match (self, other) {
            (Txn::Transfer(a), Txn::Transfer(b)) => a == b,
            (Txn::Withdrawal(a), Txn::Withdrawal(b)) => a == b,
            _ => false,
        }
    }
}

impl vstd::std_specs::cmp::PartialEqSpecImpl for Txn {
    open spec fn obeys_eq_spec() -> bool {
        true
    }

    open spec fn eq_spec(&self, other: &Txn) -> bool {
        self.same(*other)
    }
}

/// An available deposit, ordered by `(bounty, amount, owner)`.
#[derive(Clone, Copy, Debug)]
pub struct Deposit {
    pub amount: U256,
    pub bounty: U256,
    pub owner: Address,
}

/// The fee for claiming `count` deposits at `gasprice`.
pub open spec fn spec_fees(count: nat, gasprice: nat) -> nat {
    ((Deposit::GAS_CONSTANT + Deposit::GAS_VARIABLE * count) * gasprice) as nat
}

/// With the configured gas constants, claiming deposits costs nothing.
pub proof fn lemma_fees_free(count: nat, gasprice: nat)
    ensures
        spec_fees(count, gasprice) == 0,
{
    assert(Deposit::GAS_VARIABLE * count == 0);
    assert((Deposit::GAS_CONSTANT + Deposit::GAS_VARIABLE * count) * gasprice == 0) by (nonlinear_arith)
        requires
            Deposit::GAS_CONSTANT + Deposit::GAS_VARIABLE * count == 0,
    ;
}

impl Deposit {
    /// Fixed gas of a claim.
    pub const GAS_CONSTANT: u64 = 0;

    /// Gas of each deposit in a claim.
    pub const GAS_VARIABLE: u64 = 0;

    /// Whether `a` is below `b` in the order `(bounty, amount, owner)`.
    pub open spec fn key_lt(a: Deposit, b: Deposit) -> bool {
        ||| a.bounty@ < b.bounty@
        ||| a.bounty@ == b.bounty@ && a.amount@ < b.amount@
        ||| a.bounty@ == b.bounty@ && a.amount@ == b.amount@ && bytes_lt(
            a.owner.bytes@,
            b.owner.bytes@,
        )
    }

    /// Whether `a` and `b` have the same `(bounty, amount, owner)`.
    pub open spec fn key_eq(a: Deposit, b: Deposit) -> bool {
        a.bounty@ == b.bounty@ && a.amount@ == b.amount@ && a.owner.bytes@ == b.owner.bytes@
    }

    /// The order on deposits is a strict total order on their keys.
    pub proof fn lemma_key_order(a: Deposit, b: Deposit, c: Deposit)
        ensures
            Deposit::key_lt(a, b) || Deposit::key_lt(b, a) || Deposit::key_eq(a, b),
            !(Deposit::key_lt(a, b) && Deposit::key_lt(b, a)),
            Deposit::key_lt(a, b) ==> !Deposit::key_eq(a, b),
            Deposit::key_lt(a, b) && Deposit::key_lt(b, c) ==> Deposit::key_lt(a, c),
            Deposit::key_eq(a, b) ==> (Deposit::key_lt(a, c) == Deposit::key_lt(b, c)
                && Deposit::key_lt(c, a) == Deposit::key_lt(c, b)),
    {
        lemma_bytes_total(a.owner.bytes@, b.owner.bytes@);
        if Deposit::key_lt(a, b) && Deposit::key_lt(b, c) && a.bounty@ == b.bounty@ && b.bounty@
            == c.bounty@ && a.amount@ == b.amount@ && b.amount@ == c.amount@ {
            lemma_bytes_transitive(a.owner.bytes@, b.owner.bytes@, c.owner.bytes@);
        }
    }

    /// Compares two deposits by `(bounty, amount, owner)`.
    pub fn compare(a: &Deposit, b: &Deposit) -> (r: core::cmp::Ordering)
        ensures
            (r == core::cmp::Ordering::Less) == Deposit::key_lt(*a, *b),
            (r == core::cmp::Ordering::Equal) == Deposit::key_eq(*a, *b),
            (r == core::cmp::Ordering::Greater) == Deposit::key_lt(*b, *a),
    {
        proof {
            lemma_bytes_total(a.owner.bytes@, b.owner.bytes@);
        }
        if uint::lt(&a.bounty, &b.bounty) {
            core::cmp::Ordering::Less
        } else if uint::lt(&b.bounty, &a.bounty) {
            core::cmp::Ordering::Greater
        } else if uint::lt(&a.amount, &b.amount) {
            core::cmp::Ordering::Less
        } else if uint::lt(&b.amount, &a.amount) {
            core::cmp::Ordering::Greater
        } else {
            compare_addresses(&a.owner, &b.owner)
        }
    }

    /// `(Deposit::GAS_CONSTANT + Deposit::GAS_VARIABLE * count) * gasprice`, the fee for
    /// claiming `count` deposits.
    pub fn fees(count: usize, gasprice: &U256) -> (r: U256)
        requires
            spec_fees(count as nat, gasprice@) <= uint::max_value(),
        ensures
            r@ == spec_fees(count as nat, gasprice@),
    {
        let per = U256::from_u64(Deposit::GAS_VARIABLE);
        let n = U256::from_u64(count as u64);
        assert(per@ * n@ < 0x1_0000_0000_0000_0000 * 0x1_0000_0000_0000_0000) by (nonlinear_arith)
            requires
                per@ < 0x1_0000_0000_0000_0000,
                n@ < 0x1_0000_0000_0000_0000,
        ;
        let gas = uint::add(U256::from_u64(Deposit::GAS_CONSTANT), uint::mul(per, n));
        uint::mul(gas, *gasprice)
    }
}

/// A claim of deposits: the bundler's own operation inside a bundle.
#[derive(Clone, Debug)]
pub struct Claim {
    pub input: U256,
    pub gasprice: U256,
    pub deposits: Vec<U256>,
    pub signature: Signature,
}

/// The smallest element of a non-empty sequence.
pub open spec fn seq_min(s: Seq<nat>) -> nat
    decreases s.len(),
{
    if s.len() == 0 {
        0
    } else if s.len() == 1 {
        s[0]
    } else {
        let m = seq_min(s.drop_last());
        if s.last() < m {
            s.last()
        } else {
            m
        }
    }
}

/// The smallest element, or `None` for an empty sequence.
pub open spec fn min_of(s: Seq<nat>) -> Option<nat> {
    if s.len() == 0 {
        None
    } else {
        Some(seq_min(s))
    }
}

/// The price a bundle is estimated to pay, given its minimum gas price, the
/// base price and its occupied slots.
pub open spec fn estimate(min: Option<nat>, base: nat, full: nat) -> nat {
    match min {
        None => 0,
        Some(m) => if m <= base {
            m
        } else {
            (base + ((m - base) * full) / (Bundle::MAX_SLOTS as int)) as nat
        },
    }
}

/// The estimate never falls as the minimum gas price rises, the occupied
/// slots staying the same.
pub proof fn lemma_estimate_monotone(m1: nat, m2: nat, base: nat, full: nat)
    requires
        m1 <= m2,
        full <= Bundle::MAX_SLOTS,
    ensures
        estimate(Some(m1), base, full) <= estimate(Some(m2), base, full),
{
    if m1 > base {
        assert((m1 - base) * full <= (m2 - base) * full) by (nonlinear_arith)
            requires
                m1 <= m2,
                m1 > base,
        ;
        vstd::arithmetic::div_mod::lemma_div_is_ordered(
            ((m1 - base) * full) as int,
            ((m2 - base) * full) as int,
            10,
        );
    } else if m2 > base {
        assert((m2 - base) * full >= 0) by (nonlinear_arith)
            requires
                m2 > base,
        ;
        assert(((m2 - base) * full) / 10 >= 0) by (nonlinear_arith)
            requires
                (m2 - base) * full >= 0,
        ;
    }
}

/// `d * k / 10` splits into `(d / 10) * k + ((d % 10) * k) / 10`, whose
/// parts stay within `d` and `90` for `k <= 10`.
proof fn lemma_split_bribe(d: nat, k: nat)
    requires
        k <= 10,
    ensures
        (d / 10) * k <= d,
        (d % 10) * k <= 90,
        (d / 10) * k + ((d % 10) * k) / 10 == (d * k) / 10,
        (d * k) / 10 <= d,
{
    let q = d / 10;
    let r = d % 10;
    vstd::arithmetic::div_mod::lemma_fundamental_div_mod(d as int, 10);
    assert(q * k <= d) by (nonlinear_arith)
        requires
            d == 10 * q + r,
            r >= 0,
            k <= 10,
    ;
    assert(r * k <= 90) by (nonlinear_arith)
        requires
            r < 10,
            k <= 10,
    ;
    assert(d * k == (q * k) * 10 + r * k) by (nonlinear_arith)
        requires
            d == 10 * q + r,
    ;
    vstd::arithmetic::div_mod::lemma_hoist_over_denominator((r * k) as int, (q * k) as int, 10);
    assert((r * k) + (q * k) * 10 == d * k);
    assert((d * k) / 10 <= d) by (nonlinear_arith)
        requires
            k <= 10,
    ;
}

/// Copies a vector of plain values.
pub fn copied<T: Copy>(v: &Vec<T>) -> (r: Vec<T>)
    ensures
        r@ == v@,
{
    let mut r: Vec<T> = Vec::new();
    let mut i: usize = 0;
    while i < v.len()
        invariant
            i <= v.len(),
            r@ == v@.take(i as int),
        decreases v.len() - i,
    {
        r.push(v[i]);
        i = i + 1;
        assert(r@ =~= v@.take(i as int));
    }
    assert(v@.take(v.len() as int) =~= v@);
    r
}

/// The gas prices of transfers, in order.
pub open spec fn transfer_prices(ts: Seq<Transfer>) -> Seq<nat> {
    ts.map_values(|t: Transfer| t.gasprice@)
}

/// The gas prices of withdrawals, in order.
pub open spec fn withdrawal_prices(ws: Seq<Withdrawal>) -> Seq<nat> {
    ws.map_values(|w: Withdrawal| w.gasprice@)
}

/// A claim, transfers and withdrawals packed into one contract call.
#[derive(Clone, Debug)]
pub struct Bundle {
    pub claim: Claim,
    pub transfers: Vec<Transfer>,
    pub withdrawals: Vec<Withdrawal>,
}

impl Default for Bundle {
    fn default() -> (r: Bundle)
        ensures
            r.occupied() == 0,
            r.prices().len() == 0,
    {
        let r = Bundle::new();
        assert(r.prices() =~= seq![]);
        r
    }
}

impl Bundle {
    /// Slots a bundle has in all.
    pub const MAX_SLOTS: usize = 10;

    /// Slots each claimed deposit takes.
    pub const SLOTS_PER_CLAIM: usize = 1;

    /// Slots each transfer takes.
    pub const SLOTS_PER_TRANSFER: usize = 1;

    /// Slots each withdrawal takes.
    pub const SLOTS_PER_WITHDRAWAL: usize = 1;

    /// Slots taken by the claimed deposits, transfers and withdrawals.
    pub open spec fn occupied(&self) -> nat {
        (self.claim.deposits@.len() * Bundle::SLOTS_PER_CLAIM + self.transfers@.len() * Bundle::SLOTS_PER_TRANSFER
            + self.withdrawals@.len() * Bundle::SLOTS_PER_WITHDRAWAL) as nat
    }

    /// A bundle never takes more than `Bundle::MAX_SLOTS` slots.
    pub open spec fn wf(&self) -> bool {
        self.occupied() <= Bundle::MAX_SLOTS
    }

    /// The gas prices the bundle pays: the claim's (when it claims a
    /// deposit), each transfer's, each withdrawal's.
    pub open spec fn prices(&self) -> Seq<nat> {
        (if self.claim.deposits@.len() > 0 {
            seq![self.claim.gasprice@]
        } else {
            seq![]
        }) + transfer_prices(self.transfers@) + withdrawal_prices(self.withdrawals@)
    }

    /// The operations of the bundle: transfers first, then withdrawals.
    pub open spec fn spec_transactions(&self) -> Seq<Txn> {
        self.transfers@.map_values(|t: Transfer| Txn::Transfer(t)) + self.withdrawals@.map_values(
            |w: Withdrawal| Txn::Withdrawal(w),
        )
    }

    /// An empty bundle: a claim of nothing at price zero, with an all-zero
    /// signature.
    pub fn new() -> (r: Bundle)
        ensures
            r.claim.deposits@.len() == 0,
            r.claim.gasprice@ == 0,
            r.claim.input@ == 0,
            r.claim.signature.is_blank(),
            r.transfers@.len() == 0,
            r.withdrawals@.len() == 0,
            r.occupied() == 0,
    {
        Bundle {
            claim: Claim {
                input: U256::zero(),
                gasprice: U256::zero(),
                deposits: Vec::new(),
                signature: Signature::zero(),
            },
            transfers: Vec::new(),
            withdrawals: Vec::new(),
        }
    }

    /// The transfers as operations, followed by the withdrawals.
    pub fn transactions(&self) -> (r: Vec<Txn>)
        ensures
            r@ == self.spec_transactions(),
    {
        let mut r: Vec<Txn> = Vec::new();
        let mut i: usize = 0;
        while i < self.transfers.len()
            invariant
                i <= self.transfers@.len(),
                r@ == self.transfers@.take(i as int).map_values(|t: Transfer| Txn::Transfer(t)),
            decreases self.transfers@.len() - i,
        {
            r.push(Txn::Transfer(self.transfers[i]));
            i = i + 1;
            assert(r@ =~= self.transfers@.take(i as int).map_values(|t: Transfer| Txn::Transfer(t)));
        }
        assert(self.transfers@.take(i as int) =~= self.transfers@);
        let ghost head = r@;
        let mut j: usize = 0;
        while j < self.withdrawals.len()
            invariant
                j <= self.withdrawals@.len(),
                r@ == head + self.withdrawals@.take(j as int).map_values(
                    |w: Withdrawal| Txn::Withdrawal(w),
                ),
            decreases self.withdrawals@.len() - j,
        {
            r.push(Txn::Withdrawal(self.withdrawals[j]));
            j = j + 1;
            assert(r@ =~= head + self.withdrawals@.take(j as int).map_values(
                |w: Withdrawal| Txn::Withdrawal(w),
            ));
        }
        assert(self.withdrawals@.take(j as int) =~= self.withdrawals@);
        assert(r@ =~= self.spec_transactions());
        r
    }

    /// Slots taken.
    pub fn full_slots(&self) -> (r: usize)
        requires
            self.occupied() <= usize::MAX,
        ensures
            r == self.occupied(),
    {
        self.claim.deposits.len() * Bundle::SLOTS_PER_CLAIM + self.transfers.len() * Bundle::SLOTS_PER_TRANSFER
            + self.withdrawals.len() * Bundle::SLOTS_PER_WITHDRAWAL
    }

    /// Slots left.
    pub fn free_slots(&self) -> (r: usize)
        requires
            self.wf(),
        ensures
            r == Bundle::MAX_SLOTS - self.occupied(),
    {
        Bundle::MAX_SLOTS - self.full_slots()
    }

    /// Adds a deposit id to the claim when a slot is free; else hands it back
    /// and leaves the bundle as it was.
    pub fn insert_deposit(&mut self, id: U256) -> (r: Option<U256>)
        requires
            old(self).wf(),
        ensures
            final(self).wf(),
            final(self).transfers == old(self).transfers,
            final(self).withdrawals == old(self).withdrawals,
            final(self).claim.input == old(self).claim.input,
            final(self).claim.gasprice == old(self).claim.gasprice,
            final(self).claim.signature == old(self).claim.signature,
            old(self).occupied() + Bundle::SLOTS_PER_CLAIM > Bundle::MAX_SLOTS ==> r == Some(id)
                && final(self).claim.deposits@ == old(self).claim.deposits@,
            old(self).occupied() + Bundle::SLOTS_PER_CLAIM <= Bundle::MAX_SLOTS ==> r.is_none()
                && final(self).claim.deposits@ == old(self).claim.deposits@.push(id),
    {
        if self.free_slots() < Bundle::SLOTS_PER_CLAIM {
            Some(id)
        } else {
            self.claim.deposits.push(id);
            None
        }
    }

    /// Adds a withdrawal when a slot is free; else hands it back and leaves
    /// the bundle as it was.
    pub fn insert_withdrawal(&mut self, w: Withdrawal) -> (r: Option<Withdrawal>)
        requires
            old(self).wf(),
        ensures
            final(self).wf(),
            final(self).transfers == old(self).transfers,
            final(self).claim == old(self).claim,
            old(self).occupied() + Bundle::SLOTS_PER_WITHDRAWAL > Bundle::MAX_SLOTS ==> r == Some(w)
                && final(self).withdrawals@ == old(self).withdrawals@,
            old(self).occupied() + Bundle::SLOTS_PER_WITHDRAWAL <= Bundle::MAX_SLOTS ==> r.is_none()
                && final(self).withdrawals@ == old(self).withdrawals@.push(w),
    {
        if self.free_slots() < Bundle::SLOTS_PER_WITHDRAWAL {
            Some(w)
        } else {
            self.withdrawals.push(w);
            None
        }
    }

    /// Adds a transfer when a slot is free; else hands it back and leaves
    /// the bundle as it was.
    pub fn insert_transfer(&mut self, xfr: Transfer) -> (r: Option<Transfer>)
        requires
            old(self).wf(),
        ensures
            final(self).wf(),
            final(self).withdrawals == old(self).withdrawals,
            final(self).claim == old(self).claim,
            old(self).occupied() + Bundle::SLOTS_PER_TRANSFER > Bundle::MAX_SLOTS ==> r == Some(xfr)
                && final(self).transfers@ == old(self).transfers@,
            old(self).occupied() + Bundle::SLOTS_PER_TRANSFER <= Bundle::MAX_SLOTS ==> r.is_none()
                && final(self).transfers@ == old(self).transfers@.push(xfr),
    {
        if self.free_slots() < Bundle::SLOTS_PER_TRANSFER {
            Some(xfr)
        } else {
            self.transfers.push(xfr);
            None
        }
    }

    /// Adds an operation when a slot is free; else hands it back and leaves
    /// the bundle as it was.
    pub fn insert(&mut self, txn: Txn) -> (r: Option<Txn>)
        requires
            old(self).wf(),
        ensures
            final(self).wf(),
            final(self).claim == old(self).claim,
            old(self).occupied() + 1 > Bundle::MAX_SLOTS ==> r == Some(txn) && final(self).transfers@
                == old(self).transfers@ && final(self).withdrawals@ == old(self).withdrawals@,
            old(self).occupied() + 1 <= Bundle::MAX_SLOTS ==> r.is_none() && match txn {
                Txn::Transfer(t) => final(self).transfers@ == old(self).transfers@.push(t)
                    && final(self).withdrawals@ == old(self).withdrawals@,
                Txn::Withdrawal(w) => final(self).withdrawals@ == old(self).withdrawals@.push(w)
                    && final(self).transfers@ == old(self).transfers@,
            },
    {
        match txn {
            Txn::Withdrawal(w) => match self.insert_withdrawal(w) {
                Some(w) => Some(Txn::Withdrawal(w)),
                None => None,
            },
            Txn::Transfer(t) => match self.insert_transfer(t) {
                Some(t) => Some(Txn::Transfer(t)),
                None => None,
            },
        }
    }

    /// The lowest gas price the bundle pays, or `None` when it holds no
    /// operation and claims no deposit.
    pub fn minimum_gas_price(&self) -> (r: Option<U256>)
        ensures
            r.is_none() == (self.prices().len() == 0),
            r.is_some() ==> r.unwrap()@ == seq_min(self.prices()),
    {
        let mut m: Option<U256> = if self.claim.deposits.len() == 0 {
            None
        } else {
            Some(self.claim.gasprice)
        };
        let ghost head: Seq<nat> = if self.claim.deposits@.len() > 0 {
            seq![self.claim.gasprice@]
        } else {
            seq![]
        };
        let ghost ts = transfer_prices(self.transfers@);
        let ghost ws = withdrawal_prices(self.withdrawals@);
        let mut i: usize = 0;
        while i < self.transfers.len()
            invariant
                i <= self.transfers@.len(),
                ts == transfer_prices(self.transfers@),
                m.is_none() == ((head + ts.take(i as int)).len() == 0),
                m.is_some() ==> m.unwrap()@ == seq_min(head + ts.take(i as int)),
            decreases self.transfers@.len() - i,
        {
            let g = self.transfers[i].gasprice;
            let ghost pre = head + ts.take(i as int);
            assert((head + ts.take(i + 1)).drop_last() =~= pre);
            assert((head + ts.take(i + 1)).last() == g@);
            m = match m {
                None => Some(g),
                Some(x) => if uint::lt(&g, &x) {
                    Some(g)
                } else {
                    Some(x)
                },
            };
            i = i + 1;
        }
        assert(ts.take(i as int) =~= ts);
        let ghost mid = head + ts;
        let mut j: usize = 0;
        while j < self.withdrawals.len()
            invariant
                j <= self.withdrawals@.len(),
                ws == withdrawal_prices(self.withdrawals@),
                m.is_none() == ((mid + ws.take(j as int)).len() == 0),
                m.is_some() ==> m.unwrap()@ == seq_min(mid + ws.take(j as int)),
            decreases self.withdrawals@.len() - j,
        {
            let g = self.withdrawals[j].gasprice;
            let ghost pre = mid + ws.take(j as int);
            assert((mid + ws.take(j + 1)).drop_last() =~= pre);
            assert((mid + ws.take(j + 1)).last() == g@);
            m = match m {
                None => Some(g),
                Some(x) => if uint::lt(&g, &x) {
                    Some(g)
                } else {
                    Some(x)
                },
            };
            j = j + 1;
        }
        assert(ws.take(j as int) =~= ws);
        m
    }

    /// The estimated price the bundle pays above `base`: zero when empty;
    /// the minimum gas price `m` when `m <= base`; else
    /// `base + (m - base) * full_slots / Bundle::MAX_SLOTS`, rounded down.
    pub fn estimate_price(&self, base: U256) -> (r: U256)
        requires
            self.wf(),
        ensures
            r@ == estimate(min_of(self.prices()), base@, self.occupied()),
            self.prices().len() == 0 ==> r@ == 0,
            self.prices().len() > 0 && seq_min(self.prices()) <= base@ ==> r@ == seq_min(
                self.prices(),
            ),
    {
        let m = match self.minimum_gas_price() {
            None => {
                return U256::zero();
            },
            Some(m) => m,
        };
        if uint::le(&m, &base) {
            return m;
        }
        let k = U256::from_u64(self.full_slots() as u64);
        let ten = U256::from_u64(Bundle::MAX_SLOTS as u64);
        let delta = uint::sub(m, base);
        let q = uint::div(delta, ten);
        let rest = uint::rem(delta, ten);
        proof {
            lemma_split_bribe(delta@, k@);
            uint::lemma_value_bounds(m);
        }
        let qk = uint::mul(q, k);
        let rk = uint::mul(rest, k);
        let tail = uint::div(rk, ten);
        let bribe = uint::add(qk, tail);
        uint::add(base, bribe)
    }
}

} // verus!
