//! The selector: from the operation pool, the deposit pool and a base price,
//! a greedy choice of the most profitable bundle, cached while no better one
//! turns up.

use vstd::prelude::*;
use crate::contracts::{
    copied, estimate, min_of, spec_fees, transfer_prices, withdrawal_prices, Bundle, Deposit,
    Transaction, Transfer, Txn, Withdrawal,
};
use crate::pool::{gas, offered, offered_each, without, without_each, DepositPool, Identified, Pool};
use crate::uint::{self, U256};

verus! {

/// The transfers among `s`, in order.
pub open spec fn transfers_of(s: Seq<Txn>) -> Seq<Transfer>
    decreases s.len(),
{
    if s.len() == 0 {
        seq![]
    } else {
        match s.last() {
            Txn::Transfer(t) => transfers_of(s.drop_last()).push(t),
            Txn::Withdrawal(_) => transfers_of(s.drop_last()),
        }
    }
}

/// The withdrawals among `s`, in order.
pub open spec fn withdrawals_of(s: Seq<Txn>) -> Seq<Withdrawal>
    decreases s.len(),
{
    if s.len() == 0 {
        seq![]
    } else {
        match s.last() {
            Txn::Transfer(_) => withdrawals_of(s.drop_last()),
            Txn::Withdrawal(w) => withdrawals_of(s.drop_last()).push(w),
        }
    }
}

/// The deposit ids claimed at gas price `gp`, `count` being already
/// claimed and `free` the slots left for them: taken in order while a
/// deposit's bounty covers the fee it adds and a slot is free.
pub open spec fn chosen(ds: Seq<Identified>, gp: nat, free: nat, count: nat) -> Seq<U256>
    decreases ds.len(),
{
    if ds.len() == 0 {
        seq![]
    } else if ds[0].0.bounty@ < spec_fees(count + 1, gp) - spec_fees(count, gp) {
        seq![]
    } else if count >= free {
        seq![]
    } else {
        seq![ds[0].1] + chosen(ds.drop_first(), gp, free, count + 1)
    }
}

/// The deposits claimed alongside the first `n` operations of `s`.
pub open spec fn claimed(s: Seq<Txn>, ds: Seq<Identified>, n: nat) -> Seq<U256> {
    chosen(ds, gas(s[n - 1]), (Bundle::MAX_SLOTS - n) as nat, 0)
}

/// The gas prices a bundle of the first `n` operations of `s` pays.
pub open spec fn draft_prices(s: Seq<Txn>, ds: Seq<Identified>, n: nat) -> Seq<nat> {
    (if claimed(s, ds, n).len() > 0 {
        seq![gas(s[n - 1])]
    } else {
        seq![]
    }) + transfer_prices(transfers_of(s.take(n as int))) + withdrawal_prices(
        withdrawals_of(s.take(n as int)),
    )
}

/// The estimated price of a bundle of the first `n` operations of `s`.
pub open spec fn draft_estimate(s: Seq<Txn>, ds: Seq<Identified>, base: nat, n: nat) -> nat {
    estimate(min_of(draft_prices(s, ds, n)), base, n + claimed(s, ds, n).len())
}

/// How many operations the greedy choice takes: from `n` taken at estimate
/// `current`, one more while there is one, a slot is free for it, and it
/// raises the estimate.
pub open spec fn greedy(s: Seq<Txn>, ds: Seq<Identified>, base: nat, n: nat, current: nat) -> nat
    decreases s.len() - n,
{
    if n >= s.len() || n >= Bundle::MAX_SLOTS {
        n
    } else if current >= draft_estimate(s, ds, base, n + 1) {
        n
    } else {
        greedy(s, ds, base, n + 1, draft_estimate(s, ds, base, n + 1))
    }
}

/// The estimated price of a well-formed bundle.
pub open spec fn bundle_estimate(b: Bundle, base: nat) -> nat {
    estimate(min_of(b.prices()), base, b.occupied())
}

/// Whether `b` is the bundle the greedy choice makes of `s` and `ds`: the
/// first `n` operations, the deposits claimed at the price of the last of
/// them, and otherwise an empty claim.
pub open spec fn is_greedy_bundle(b: Bundle, s: Seq<Txn>, ds: Seq<Identified>, base: nat) -> bool {
    let n = greedy(s, ds, base, 0, 0);
    &&& b.wf()
    &&& b.transfers@ == transfers_of(s.take(n as int))
    &&& b.withdrawals@ == withdrawals_of(s.take(n as int))
    &&& b.claim.input@ == 0
    &&& b.claim.signature.is_blank()
    &&& b.claim.deposits@ == if n == 0 {
        seq![]
    } else {
        claimed(s, ds, n)
    }
    &&& b.claim.gasprice@ == if n == 0 {
        0
    } else {
        gas(s[n - 1])
    }
}

/// The estimated price of the bundle the greedy choice makes.
pub open spec fn greedy_estimate(s: Seq<Txn>, ds: Seq<Identified>, base: nat) -> nat {
    let n = greedy(s, ds, base, 0, 0);
    if n == 0 {
        0
    } else {
        draft_estimate(s, ds, base, n)
    }
}

/// What regenerating leaves and returns: the greedy bundle of `s` and `ds`,
/// cached and returned when estimated strictly above the bundle cached
/// before (or when none was); otherwise the cache stays and `None` comes back.
pub open spec fn regenerated(
    old_best: Option<Bundle>,
    new_best: Option<Bundle>,
    r: Option<&Bundle>,
    s: Seq<Txn>,
    ds: Seq<Identified>,
    base: nat,
) -> bool {
    &&& r.is_some() ==> {
        &&& new_best == Some(*r.unwrap())
        &&& is_greedy_bundle(*r.unwrap(), s, ds, base)
        &&& bundle_estimate(*r.unwrap(), base) == greedy_estimate(s, ds, base)
        &&& old_best.is_none() || bundle_estimate(old_best.unwrap(), base) < bundle_estimate(
            *r.unwrap(),
            base,
        )
    }
    &&& r.is_none() ==> {
        &&& new_best == old_best
        &&& old_best.is_some()
        &&& bundle_estimate(old_best.unwrap(), base) >= greedy_estimate(s, ds, base)
    }
}

/// Withdrawals as operations.
pub open spec fn withdrawal_txns(ws: Seq<Withdrawal>) -> Seq<Txn> {
    ws.map_values(|w: Withdrawal| Txn::Withdrawal(w))
}

/// Transfers as operations.
pub open spec fn transfer_txns(ts: Seq<Transfer>) -> Seq<Txn> {
    ts.map_values(|t: Transfer| Txn::Transfer(t))
}

proof fn lemma_split_len(s: Seq<Txn>)
    ensures
        transfers_of(s).len() + withdrawals_of(s).len() == s.len(),
    decreases s.len(),
{
    if s.len() > 0 {
        lemma_split_len(s.drop_last());
    }
}

/// Whether a deposit's bounty covers the fee that claiming it adds to
/// `count` deposits already claimed at `gp`.
fn breaks_even(dep: &Identified, count: usize, gp: &U256) -> (r: bool)
    requires
        count < usize::MAX,
    ensures
        r == !(dep.0.bounty@ < spec_fees((count + 1) as nat, gp@) - spec_fees(count as nat, gp@)),
{
    proof {
        crate::contracts::lemma_fees_free(count as nat, gp@);
        crate::contracts::lemma_fees_free((count + 1) as nat, gp@);
    }
    let prev = Deposit::fees(count, gp);
    let next = Deposit::fees(count + 1, gp);
    let mine = uint::sub(next, prev);
    !uint::lt(&dep.0.bounty, &mine)
}

/// Claims deposits into `b` at gas price `gp`, highest bounty first, while
/// a deposit's bounty covers the fee it adds and a slot is free.
fn claim_deposits(b: &mut Bundle, deps: &[Identified], gp: U256)
    requires
        old(b).wf(),
        old(b).claim.deposits@.len() == 0,
    ensures
        final(b).wf(),
        final(b).transfers == old(b).transfers,
        final(b).withdrawals == old(b).withdrawals,
        final(b).claim.input == old(b).claim.input,
        final(b).claim.gasprice == old(b).claim.gasprice,
        final(b).claim.signature == old(b).claim.signature,
        final(b).claim.deposits@ == chosen(
            deps@,
            gp@,
            (Bundle::MAX_SLOTS - (old(b).transfers@.len() + old(b).withdrawals@.len())) as nat,
            0,
        ),
{
    let ghost free = (Bundle::MAX_SLOTS - (b.transfers@.len() + b.withdrawals@.len())) as nat;
    let ghost all = chosen(deps@, gp@, free, 0);
    let ghost t0 = b.transfers;
    let ghost w0 = b.withdrawals;
    let ghost c0 = b.claim;
    let ghost g0 = b.claim.signature;
    assert(deps@.skip(0) =~= deps@);
    assert(b.claim.deposits@ + all =~= all);
    let mut d: usize = 0;
    let mut done = false;
    while d < deps.len() && !done
        invariant
            d <= deps@.len(),
            b.wf(),
            b.transfers == t0,
            b.withdrawals == w0,
            b.claim.input == c0.input,
            b.claim.gasprice == c0.gasprice,
            b.claim.signature == g0,
            free == Bundle::MAX_SLOTS - (b.transfers@.len() + b.withdrawals@.len()),
            done ==> b.claim.deposits@ == all,
            !done ==> b.claim.deposits@ + chosen(deps@.skip(d as int), gp@, free, b.claim.deposits@.len())
                == all,
        decreases deps@.len() - d + if done {
            0int
        } else {
            1int
        },
    {
        let ghost rest = deps@.skip(d as int);
        let ghost k = b.claim.deposits@.len();
        assert(rest[0] == deps@[d as int]);
        if !breaks_even(&deps[d], b.claim.deposits.len(), &gp) {
            assert(b.claim.deposits@ + seq![] =~= b.claim.deposits@);
            done = true;
        } else if b.insert_deposit(deps[d].1).is_some() {
            assert(b.claim.deposits@ + seq![] =~= b.claim.deposits@);
            done = true;
        } else {
            assert(rest.drop_first() =~= deps@.skip(d + 1));
            let ghost tail = chosen(rest.drop_first(), gp@, free, k + 1);
            assert(b.claim.deposits@.drop_last() + (seq![deps@[d as int].1] + tail) =~= b.claim.deposits@
                + tail);
            d = d + 1;
        }
    }
    if !done {
        assert(deps@.skip(d as int) =~= seq![]);
        assert(b.claim.deposits@ + seq![] =~= b.claim.deposits@);
    }
}

/// `ts` with `txn` appended when it is a transfer.
pub open spec fn with_transfer(ts: Seq<Transfer>, txn: Txn) -> Seq<Transfer> {
    match txn {
        Txn::Transfer(t) => ts.push(t),
        Txn::Withdrawal(_) => ts,
    }
}

/// `ws` with `txn` appended when it is a withdrawal.
pub open spec fn with_withdrawal(ws: Seq<Withdrawal>, txn: Txn) -> Seq<Withdrawal> {
    match txn {
        Txn::Transfer(_) => ws,
        Txn::Withdrawal(w) => ws.push(w),
    }
}

/// A fresh bundle of `bundle`'s operations and `txn`, claiming at `txn`'s
/// price the deposits that break even; `None` when no slot is left for `txn`.
fn extended(bundle: &Bundle, txn: Txn, deps: &[Identified]) -> (r: Option<Bundle>)
    requires
        bundle.wf(),
    ensures
        r.is_none() == (bundle.transfers@.len() + bundle.withdrawals@.len() >= Bundle::MAX_SLOTS),
        r.is_some() ==> ({
            let b = r.unwrap();
            &&& b.wf()
            &&& b.transfers@ == with_transfer(bundle.transfers@, txn)
            &&& b.withdrawals@ == with_withdrawal(bundle.withdrawals@, txn)
            &&& b.claim.input@ == 0
            &&& b.claim.signature.is_blank()
            &&& b.claim.gasprice == txn.spec_gas_price()
            &&& b.claim.deposits@ == chosen(
                deps@,
                gas(txn),
                (Bundle::MAX_SLOTS - (bundle.transfers@.len() + bundle.withdrawals@.len() + 1)) as nat,
                0,
            )
        }),
{
    let mut next = Bundle::new();
    next.transfers = copied(&bundle.transfers);
    next.withdrawals = copied(&bundle.withdrawals);
    if next.insert(txn).is_some() {
        return None;
    }
    next.claim.gasprice = txn.gas_price();
    claim_deposits(&mut next, deps, txn.gas_price());
    Some(next)
}

/// A bundle built as the greedy choice builds its `n`-th candidate is
/// estimated at `draft_estimate`.
proof fn lemma_draft(s: Seq<Txn>, ds: Seq<Identified>, base: nat, n: nat, b: Bundle)
    requires
        1 <= n <= s.len(),
        n <= Bundle::MAX_SLOTS,
        b.transfers@ == transfers_of(s.take(n as int)),
        b.withdrawals@ == withdrawals_of(s.take(n as int)),
        b.claim.deposits@ == claimed(s, ds, n),
        b.claim.gasprice@ == gas(s[n - 1]),
    ensures
        bundle_estimate(b, base) == draft_estimate(s, ds, base, n),
{
    lemma_split_len(s.take(n as int));
    assert(b.prices() == draft_prices(s, ds, n));
}

/// Appending the next operation to a prefix appends it to its transfers or
/// to its withdrawals.
proof fn lemma_take_next(s: Seq<Txn>, i: int)
    requires
        0 <= i < s.len(),
    ensures
        transfers_of(s.take(i + 1)) == with_transfer(transfers_of(s.take(i)), s[i]),
        withdrawals_of(s.take(i + 1)) == with_withdrawal(withdrawals_of(s.take(i)), s[i]),
{
    assert(s.take(i + 1).drop_last() =~= s.take(i));
    assert(s.take(i + 1).last() == s[i]);
}

/// The state of the selector: the operation pool, the deposit pool and the
/// best bundle found so far.
#[derive(Debug)]
pub struct Pending {
    pub deposits: DepositPool,
    pub transactions: Pool,
    pub best_bundle: Option<Bundle>,
}

impl Pending {
    /// Empty pools and no bundle.
    pub fn new() -> (r: Pending)
        ensures
            r.wf(),
            r.transactions@.len() == 0,
            r.deposits.ordered().len() == 0,
            r.best_bundle.is_none(),
    {
        Pending { deposits: DepositPool::new(), transactions: Pool::new(), best_bundle: None }
    }

    /// Both pools keep their invariants and a cached bundle is well formed.
    pub open spec fn wf(&self) -> bool {
        &&& self.deposits.wf()
        &&& self.transactions.wf()
        &&& self.best_bundle.is_some() ==> self.best_bundle.unwrap().wf()
    }

    /// Builds the greedy bundle: operations in pool order, each new one with
    /// the deposits that break even at its price, for as long as a slot is
    /// free and the estimate above `base` rises. When that bundle is
    /// estimated strictly above the cached one (or none is cached), it
    /// becomes the cached one and is returned; else `None`.
    pub fn regenerate(&mut self, base: U256) -> (r: Option<&Bundle>)
        requires
            old(self).wf(),
        ensures
            final(self).wf(),
            final(self).transactions == old(self).transactions,
            final(self).deposits == old(self).deposits,
            regenerated(
                old(self).best_bundle,
                final(self).best_bundle,
                r,
                old(self).transactions@,
                old(self).deposits.ordered(),
                base@,
            ),
    {
        let bundle = self.greedy_bundle(base);
        let replace = match &self.best_bundle {
            None => true,
            Some(b) => uint::lt(&b.estimate_price(base), &bundle.estimate_price(base)),
        };
        if replace {
            self.best_bundle = Some(bundle);
            match &self.best_bundle {
                Some(b) => Some(b),
                None => None,
            }
        } else {
            None
        }
    }

    /// The bundle the greedy choice makes of the pools.
    fn greedy_bundle(&self, base: U256) -> (r: Bundle)
        requires
            self.wf(),
        ensures
            is_greedy_bundle(r, self.transactions@, self.deposits.ordered(), base@),
            bundle_estimate(r, base@) == greedy_estimate(
                self.transactions@,
                self.deposits.ordered(),
                base@,
            ),
    {
        let ghost s = self.transactions@;
        let ghost ds = self.deposits.ordered();
        let ops = self.transactions.iter();
        let deps = self.deposits.iter();
        let mut bundle = Bundle::new();
        assert(bundle.prices() =~= seq![]);
        assert(s.take(0) =~= seq![]);
        let mut i: usize = 0;
        let mut done = false;
        while i < ops.len() && !done
            invariant
                i <= s.len(),
                ops@ == s,
                deps@ == ds,
                i <= Bundle::MAX_SLOTS,
                bundle.wf(),
                bundle.transfers@ == transfers_of(s.take(i as int)),
                bundle.withdrawals@ == withdrawals_of(s.take(i as int)),
                bundle.claim.input@ == 0,
                bundle.claim.signature.is_blank(),
                i == 0 ==> bundle.claim.deposits@.len() == 0 && bundle.claim.gasprice@ == 0,
                i > 0 ==> bundle.claim.deposits@ == claimed(s, ds, i as nat)
                    && bundle.claim.gasprice@ == gas(s[i - 1]),
                i > 0 ==> bundle_estimate(bundle, base@) == draft_estimate(s, ds, base@, i as nat),
                i == 0 ==> bundle_estimate(bundle, base@) == 0,
                greedy(s, ds, base@, 0, 0) == if done {
                    i as nat
                } else {
                    greedy(s, ds, base@, i as nat, bundle_estimate(bundle, base@))
                },
            decreases s.len() - i + if done {
                0int
            } else {
                1int
            },
        {
            proof {
                lemma_split_len(s.take(i as int));
                lemma_take_next(s, i as int);
            }
            match extended(&bundle, ops[i], deps) {
                None => {
                    done = true;
                },
                Some(next) => {
                    proof {
                        lemma_draft(s, ds, base@, (i + 1) as nat, next);
                    }
                    let e_new = next.estimate_price(base);
                    let e_cur = bundle.estimate_price(base);
                    if uint::le(&e_new, &e_cur) {
                        done = true;
                    } else {
                        bundle = next;
                        i = i + 1;
                    }
                },
            }
        }
        proof {
            if !done {
                assert(greedy(s, ds, base@, i as nat, bundle_estimate(bundle, base@)) == i);
            }
            if i == 0 {
                assert(bundle.claim.deposits@ =~= seq![]);
            }
        }
        bundle
    }

    /// Forgets the cached bundle, then regenerates.
    pub fn generate(&mut self, base: U256) -> (r: Option<&Bundle>)
        requires
            old(self).wf(),
        ensures
            final(self).wf(),
            final(self).transactions == old(self).transactions,
            final(self).deposits == old(self).deposits,
            is_greedy_bundle(
                final(self).best_bundle.unwrap(),
                old(self).transactions@,
                old(self).deposits.ordered(),
                base@,
            ),
            r.is_some(),
            final(self).best_bundle == Some(*r.unwrap()),
    {
        self.best_bundle = None;
        self.regenerate(base)
    }
}

impl Pending {
    /// An operation submitted by the operator: every operation sharing an
    /// input with `txn` leaves, `txn` is offered, and the bundle is
    /// regenerated. Returns how many operations left, how many entered, and
    /// what `regenerate` returned.
    pub fn submit(&mut self, txn: Txn, base: U256) -> (r: (usize, usize, Option<&Bundle>))
        requires
            old(self).wf(),
        ensures
            final(self).wf(),
            final(self).deposits == old(self).deposits,
            final(self).transactions@ == offered(
                without(old(self).transactions@, txn.spec_inputs()),
                txn,
                old(self).transactions.max_len(),
                false,
            ),
            r.0 == old(self).transactions@.len() - without(
                old(self).transactions@,
                txn.spec_inputs(),
            ).len(),
            r.1 == final(self).transactions@.len() - without(
                old(self).transactions@,
                txn.spec_inputs(),
            ).len(),
            regenerated(
                old(self).best_bundle,
                final(self).best_bundle,
                r.2,
                final(self).transactions@,
                final(self).deposits.ordered(),
                base@,
            ),
    {
        proof {
            crate::pool::lemma_offer_after_removal(self.transactions, txn);
        }
        let before = self.transactions.len();
        self.transactions.remove_conflicting(&txn);
        let after = self.transactions.len();
        self.transactions.insert(txn);
        let added = self.transactions.len() - after;
        let best = self.regenerate(base);
        (before - after, added, best)
    }

    /// A bundle mined on chain: every operation sharing an input with one of
    /// its operations leaves, and the bundle is generated afresh. Returns how
    /// many operations left and the new bundle.
    pub fn apply_mined(&mut self, mined: &Bundle, base: U256) -> (r: (usize, Option<&Bundle>))
        requires
            old(self).wf(),
        ensures
            final(self).wf(),
            final(self).deposits == old(self).deposits,
            final(self).transactions@ == without_each(
                old(self).transactions@,
                mined.spec_transactions(),
            ),
            r.0 == old(self).transactions@.len() - final(self).transactions@.len(),
            r.1.is_some(),
            final(self).best_bundle == Some(*r.1.unwrap()),
            is_greedy_bundle(
                *r.1.unwrap(),
                final(self).transactions@,
                final(self).deposits.ordered(),
                base@,
            ),
    {
        let before = self.transactions.len();
        let ops = mined.transactions();
        let mut i: usize = 0;
        assert(ops@.take(0) =~= seq![]);
        while i < ops.len()
            invariant
                i <= ops@.len(),
                ops@ == mined.spec_transactions(),
                self.wf(),
                self.deposits == old(self).deposits,
                self.transactions@ == without_each(old(self).transactions@, ops@.take(i as int)),
                self.transactions@.len() <= before,
                before == old(self).transactions@.len(),
            decreases ops@.len() - i,
        {
            self.transactions.remove_conflicting(&ops[i]);
            assert(ops@.take(i + 1).drop_last() =~= ops@.take(i as int));
            i = i + 1;
        }
        assert(ops@.take(i as int) =~= ops@);
        let removed = before - self.transactions.len();
        let best = self.generate(base);
        (removed, best)
    }

    /// A bundle another bundler has sent: its withdrawals are offered, then
    /// its transfers, in order, and the bundle is regenerated.
    pub fn apply_pending(&mut self, seen: &Bundle, base: U256) -> (r: Option<&Bundle>)
        requires
            old(self).wf(),
        ensures
            final(self).wf(),
            final(self).deposits == old(self).deposits,
            final(self).transactions@ == offered_each(
                offered_each(
                    old(self).transactions@,
                    withdrawal_txns(seen.withdrawals@),
                    old(self).transactions.max_len(),
                ),
                transfer_txns(seen.transfers@),
                old(self).transactions.max_len(),
            ),
            regenerated(
                old(self).best_bundle,
                final(self).best_bundle,
                r,
                final(self).transactions@,
                final(self).deposits.ordered(),
                base@,
            ),
    {
        let ghost m = self.transactions.max_len();
        let ghost ws = withdrawal_txns(seen.withdrawals@);
        let ghost ts = transfer_txns(seen.transfers@);
        assert(ws.take(0) =~= seq![]);
        let mut i: usize = 0;
        while i < seen.withdrawals.len()
            invariant
                i <= seen.withdrawals@.len(),
                ws == withdrawal_txns(seen.withdrawals@),
                self.wf(),
                self.deposits == old(self).deposits,
                self.best_bundle == old(self).best_bundle,
                self.transactions.max_len() == m,
                self.transactions@ == offered_each(old(self).transactions@, ws.take(i as int), m),
            decreases seen.withdrawals@.len() - i,
        {
            self.transactions.insert(Txn::Withdrawal(seen.withdrawals[i]));
            assert(ws.take(i + 1).drop_last() =~= ws.take(i as int));
            assert(ws.take(i + 1).last() == Txn::Withdrawal(seen.withdrawals@[i as int]));
            i = i + 1;
        }
        assert(ws.take(i as int) =~= ws);
        let ghost mid = self.transactions@;
        assert(ts.take(0) =~= seq![]);
        let mut j: usize = 0;
        while j < seen.transfers.len()
            invariant
                j <= seen.transfers@.len(),
                ts == transfer_txns(seen.transfers@),
                self.wf(),
                self.deposits == old(self).deposits,
                self.best_bundle == old(self).best_bundle,
                self.transactions.max_len() == m,
                self.transactions@ == offered_each(mid, ts.take(j as int), m),
            decreases seen.transfers@.len() - j,
        {
            self.transactions.insert(Txn::Transfer(seen.transfers[j]));
            assert(ts.take(j + 1).drop_last() =~= ts.take(j as int));
            assert(ts.take(j + 1).last() == Txn::Transfer(seen.transfers@[j as int]));
            j = j + 1;
        }
        assert(ts.take(j as int) =~= ts);
        self.regenerate(base)
    }
}

} // verus!
