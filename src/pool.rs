//! The pool of pending operations, where no two operations share an input,
//! and the pool of available deposits.

use vstd::prelude::*;
use crate::contracts::{Deposit, Inputs, Transaction, Txn};
use crate::uint::{self, U256};

verus! {

/// An operation's gas price as a number.
pub open spec fn gas(t: Txn) -> nat {
    t.spec_gas_price()@
}

/// Whether two sets of inputs have an input in common.
pub open spec fn shares(a: Inputs, b: Inputs) -> bool {
    match a {
        Inputs::Empty => false,
        Inputs::One(x) => b.has(x),
        Inputs::Two(x, y) => b.has(x) || b.has(y),
    }
}

/// Prices never rise along the sequence.
pub open spec fn sorted(s: Seq<Txn>) -> bool {
    forall|i: int, j: int| 0 <= i < j < s.len() ==> gas(#[trigger] s[i]) >= gas(#[trigger] s[j])
}

/// No two positions hold operations with an input in common.
pub open spec fn exclusive(s: Seq<Txn>) -> bool {
    forall|i: int, j: int|
        0 <= i < j < s.len() ==> !shares(#[trigger] s[i].spec_inputs(), #[trigger] s[j].spec_inputs())
}

/// No two positions hold equal operations (signatures aside).
pub open spec fn distinct(s: Seq<Txn>) -> bool {
    forall|i: int, j: int| 0 <= i < j < s.len() ==> !(#[trigger] s[i]).same(#[trigger] s[j])
}

/// Whether an operation equal to `t` (signatures aside) is in `s`.
pub open spec fn present(s: Seq<Txn>, t: Txn) -> bool {
    exists|i: int| 0 <= i < s.len() && (#[trigger] s[i]).same(t)
}

/// The operations of `s` that have no input in common with `inputs`, in order.
pub open spec fn without(s: Seq<Txn>, inputs: Inputs) -> Seq<Txn>
    decreases s.len(),
{
    if s.len() == 0 {
        s
    } else {
        let r = without(s.drop_last(), inputs);
        if shares(s.last().spec_inputs(), inputs) {
            r
        } else {
            r.push(s.last())
        }
    }
}

/// Whether some operation of `s` shares an input with `t` at a gas price of
/// at least `t`'s.
pub open spec fn outbid(s: Seq<Txn>, t: Txn) -> bool {
    exists|i: int| 0 <= i < s.len() && shares(t.spec_inputs(), #[trigger] s[i].spec_inputs()) && gas(s[i]) >= gas(t)
}

/// The first position whose price is below `g`, or the length.
pub open spec fn first_below(s: Seq<Txn>, g: nat) -> int
    decreases s.len(),
{
    if s.len() == 0 {
        0
    } else if gas(s[0]) < g {
        0
    } else {
        1 + first_below(s.drop_first(), g)
    }
}

/// The first position whose price is `g`, or the length.
pub open spec fn first_at(s: Seq<Txn>, g: nat) -> int
    decreases s.len(),
{
    if s.len() == 0 {
        0
    } else if gas(s[0]) == g {
        0
    } else {
        1 + first_at(s.drop_first(), g)
    }
}

/// The first position holding an operation equal to `t`, or the length.
pub open spec fn first_same(s: Seq<Txn>, t: Txn) -> int
    decreases s.len(),
{
    if s.len() == 0 {
        0
    } else if s[0].same(t) {
        0
    } else {
        1 + first_same(s.drop_first(), t)
    }
}

/// `t` placed after every operation of its price or higher.
pub open spec fn placed(s: Seq<Txn>, t: Txn) -> Seq<Txn> {
    s.insert(first_below(s, gas(t)), t)
}

/// `s` with, when it is longer than `max_len`, the first operation of the
/// lowest price taken out.
pub open spec fn trimmed(s: Seq<Txn>, max_len: nat) -> Seq<Txn> {
    if s.len() > max_len && s.len() > 0 {
        s.remove(first_at(s, gas(s.last())))
    } else {
        s
    }
}

/// Whether `t` stays out when offered to `s`. An insert is kept out by an
/// equal operation already there, or by a conflicting one that pays at least
/// as much. A forced replacement evicts every conflicting operation, equal
/// ones included, so only an equal operation holding no input (which
/// nothing would evict) keeps it out.
pub open spec fn blocked(s: Seq<Txn>, t: Txn, force: bool) -> bool {
    if force {
        t.spec_inputs() == Inputs::Empty && present(s, t)
    } else {
        present(s, t) || outbid(s, t)
    }
}

/// The pool after offering `t`: unchanged when `t` is `blocked`, else `t`
/// replaces every conflicting operation, enters after those of its price or
/// higher, and the pool is trimmed back to `max_len`.
pub open spec fn offered(s: Seq<Txn>, t: Txn, max_len: nat, force: bool) -> Seq<Txn> {
    if blocked(s, t, force) {
        s
    } else {
        trimmed(placed(without(s, t.spec_inputs()), t), max_len)
    }
}

/// `s` after taking out, for each operation of `ops` in turn, every
/// operation sharing an input with it.
pub open spec fn without_each(s: Seq<Txn>, ops: Seq<Txn>) -> Seq<Txn>
    decreases ops.len(),
{
    if ops.len() == 0 {
        s
    } else {
        without(without_each(s, ops.drop_last()), ops.last().spec_inputs())
    }
}

/// `s` after offering each operation of `ops` in turn.
pub open spec fn offered_each(s: Seq<Txn>, ops: Seq<Txn>, max_len: nat) -> Seq<Txn>
    decreases ops.len(),
{
    if ops.len() == 0 {
        s
    } else {
        offered(offered_each(s, ops.drop_last(), max_len), ops.last(), max_len, false)
    }
}

/// The operation holding input `x`: the first one that has it.
pub open spec fn holder(s: Seq<Txn>, x: U256) -> Option<Txn>
    decreases s.len(),
{
    if s.len() == 0 {
        None
    } else if s[0].spec_inputs().has(x) {
        Some(s[0])
    } else {
        holder(s.drop_first(), x)
    }
}

/// The operations of price `g`, in order.
pub open spec fn bucket(s: Seq<Txn>, g: nat) -> Seq<Txn>
    decreases s.len(),
{
    if s.len() == 0 {
        s
    } else {
        let r = bucket(s.drop_last(), g);
        if gas(s.last()) == g {
            r.push(s.last())
        } else {
            r
        }
    }
}

/// How many positions hold an operation equal to `t`.
pub open spec fn count_same(s: Seq<Txn>, t: Txn) -> nat
    decreases s.len(),
{
    if s.len() == 0 {
        0
    } else {
        count_same(s.drop_last(), t) + if s.last().same(t) {
            1nat
        } else {
            0nat
        }
    }
}

/// How many distinct prices a sorted sequence holds.
pub open spec fn levels(s: Seq<Txn>) -> nat
    decreases s.len(),
{
    if s.len() == 0 {
        0
    } else if s.len() == 1 {
        1
    } else {
        levels(s.drop_last()) + if gas(s.last()) != gas(s[s.len() - 2]) {
            1nat
        } else {
            0nat
        }
    }
}

/// How many inputs the operations hold in all.
pub open spec fn input_total(s: Seq<Txn>) -> nat
    decreases s.len(),
{
    if s.len() == 0 {
        0
    } else {
        input_total(s.drop_last()) + s.last().spec_inputs().spec_seq().len()
    }
}

proof fn lemma_shares_symmetric(a: Inputs, b: Inputs)
    ensures
        shares(a, b) == shares(b, a),
{
}

proof fn lemma_has_shares(a: Inputs, b: Inputs, x: U256)
    requires
        a.has(x),
        b.has(x),
    ensures
        shares(a, b),
{
}

proof fn lemma_without(s: Seq<Txn>, inputs: Inputs)
    ensures
        without(s, inputs).len() <= s.len(),
        forall|k: int|
            0 <= k < without(s, inputs).len() ==> s.contains(#[trigger] without(s, inputs)[k])
                && !shares(without(s, inputs)[k].spec_inputs(), inputs),
        sorted(s) ==> sorted(without(s, inputs)),
        exclusive(s) ==> exclusive(without(s, inputs)),
        distinct(s) ==> distinct(without(s, inputs)),
    decreases s.len(),
{
    if s.len() > 0 {
        let p = s.drop_last();
        lemma_without(p, inputs);
        let r = without(p, inputs);
        assert forall|k: int| 0 <= k < r.len() implies s.contains(#[trigger] r[k]) by {
            let j = choose|j: int| 0 <= j < p.len() && p[j] == r[k];
            assert(s[j] == r[k]);
        }
        if sorted(s) {
            assert forall|k: int| 0 <= k < r.len() implies gas(#[trigger] r[k]) >= gas(s.last()) by {
                let j = choose|j: int| 0 <= j < p.len() && p[j] == r[k];
                assert(s[j] == p[j]);
            }
        }
        if exclusive(s) {
            assert forall|k: int| 0 <= k < r.len() implies !shares(
                #[trigger] r[k].spec_inputs(),
                s.last().spec_inputs(),
            ) by {
                let j = choose|j: int| 0 <= j < p.len() && p[j] == r[k];
                assert(s[j] == p[j]);
            }
        }
        if distinct(s) {
            assert forall|k: int| 0 <= k < r.len() implies !(#[trigger] r[k]).same(s.last()) by {
                let j = choose|j: int| 0 <= j < p.len() && p[j] == r[k];
                assert(s[j] == p[j]);
            }
        }
        if !shares(s.last().spec_inputs(), inputs) {
            let w = r.push(s.last());
            assert forall|k: int| 0 <= k < w.len() implies s.contains(#[trigger] w[k]) by {
                if k == r.len() {
                    assert(s[s.len() - 1] == w[k]);
                }
            }
        }
    }
}

/// Taking out what shares nothing with `inputs` leaves the sequence whole.
proof fn lemma_without_none_shared(s: Seq<Txn>, inputs: Inputs)
    requires
        forall|k: int| 0 <= k < s.len() ==> !shares(#[trigger] s[k].spec_inputs(), inputs),
    ensures
        without(s, inputs) == s,
    decreases s.len(),
{
    if s.len() > 0 {
        lemma_without_none_shared(s.drop_last(), inputs);
        assert(s.drop_last().push(s.last()) =~= s);
    }
}

proof fn lemma_first_below(s: Seq<Txn>, g: nat, i: int)
    requires
        0 <= i <= s.len(),
        forall|k: int| 0 <= k < i ==> gas(#[trigger] s[k]) >= g,
        i < s.len() ==> gas(s[i]) < g,
    ensures
        first_below(s, g) == i,
    decreases s.len(),
{
    if s.len() > 0 && i > 0 {
        assert forall|k: int| 0 <= k < i - 1 implies gas(#[trigger] s.drop_first()[k]) >= g by {
            assert(s.drop_first()[k] == s[k + 1]);
        }
        lemma_first_below(s.drop_first(), g, i - 1);
    }
}

proof fn lemma_first_at(s: Seq<Txn>, g: nat, i: int)
    requires
        0 <= i <= s.len(),
        forall|k: int| 0 <= k < i ==> gas(#[trigger] s[k]) != g,
        i < s.len() ==> gas(s[i]) == g,
    ensures
        first_at(s, g) == i,
    decreases s.len(),
{
    if s.len() > 0 && i > 0 {
        assert forall|k: int| 0 <= k < i - 1 implies gas(#[trigger] s.drop_first()[k]) != g by {
            assert(s.drop_first()[k] == s[k + 1]);
        }
        lemma_first_at(s.drop_first(), g, i - 1);
    }
}

proof fn lemma_first_same(s: Seq<Txn>, t: Txn, i: int)
    requires
        0 <= i <= s.len(),
        forall|k: int| 0 <= k < i ==> !(#[trigger] s[k]).same(t),
        i < s.len() ==> s[i].same(t),
    ensures
        first_same(s, t) == i,
    decreases s.len(),
{
    if s.len() > 0 && i > 0 {
        assert forall|k: int| 0 <= k < i - 1 implies !(#[trigger] s.drop_first()[k]).same(t) by {
            assert(s.drop_first()[k] == s[k + 1]);
        }
        lemma_first_same(s.drop_first(), t, i - 1);
    }
}

/// Taking out one position keeps the order and the exclusive inputs.
proof fn lemma_remove_keeps(s: Seq<Txn>, i: int)
    requires
        0 <= i < s.len(),
    ensures
        sorted(s) ==> sorted(s.remove(i)),
        exclusive(s) ==> exclusive(s.remove(i)),
        distinct(s) ==> distinct(s.remove(i)),
{
    let r = s.remove(i);
    assert forall|a: int| 0 <= a < r.len() implies #[trigger] r[a] == s[if a < i {
        a
    } else {
        a + 1
    }] by {}
    if sorted(s) {
        assert forall|a: int, b: int| 0 <= a < b < r.len() implies gas(#[trigger] r[a]) >= gas(
            #[trigger] r[b],
        ) by {
            let sa = if a < i { a } else { a + 1 };
            let sb = if b < i { b } else { b + 1 };
            assert(r[a] == s[sa] && r[b] == s[sb]);
        }
    }
    if exclusive(s) {
        assert forall|a: int, b: int| 0 <= a < b < r.len() implies !shares(
            #[trigger] r[a].spec_inputs(),
            #[trigger] r[b].spec_inputs(),
        ) by {
            let sa = if a < i { a } else { a + 1 };
            let sb = if b < i { b } else { b + 1 };
            assert(r[a] == s[sa] && r[b] == s[sb]);
        }
    }
    if distinct(s) {
        assert forall|a: int, b: int| 0 <= a < b < r.len() implies !(#[trigger] r[a]).same(
            #[trigger] r[b],
        ) by {
            let sa = if a < i { a } else { a + 1 };
            let sb = if b < i { b } else { b + 1 };
            assert(r[a] == s[sa] && r[b] == s[sb]);
        }
    }
}

/// Placing an operation keeps the order, and keeps the inputs exclusive and
/// the operations distinct when it shares no input with what is there and
/// is not there yet.
proof fn lemma_placed_keeps(s: Seq<Txn>, t: Txn)
    requires
        sorted(s),
        exclusive(s),
        distinct(s),
        !present(s, t),
        forall|k: int| 0 <= k < s.len() ==> !shares(#[trigger] s[k].spec_inputs(), t.spec_inputs()),
    ensures
        sorted(placed(s, t)),
        exclusive(placed(s, t)),
        distinct(placed(s, t)),
        placed(s, t).len() == s.len() + 1,
{
    let p = first_below(s, gas(t));
    lemma_first_below_bounds(s, gas(t));
    let r = placed(s, t);
    assert forall|a: int| 0 <= a < r.len() implies #[trigger] r[a] == if a < p {
        s[a]
    } else if a == p {
        t
    } else {
        s[a - 1]
    } by {}
    assert forall|a: int, b: int| 0 <= a < b < r.len() implies gas(#[trigger] r[a]) >= gas(
        #[trigger] r[b],
    ) by {
        if a < p && b > p {
            assert(gas(s[a]) >= gas(t));
        }
    }
    assert forall|a: int, b: int| 0 <= a < b < r.len() implies !shares(
        #[trigger] r[a].spec_inputs(),
        #[trigger] r[b].spec_inputs(),
    ) by {
        if a == p {
            lemma_shares_symmetric(s[b - 1].spec_inputs(), t.spec_inputs());
        }
    }
    assert forall|a: int, b: int| 0 <= a < b < r.len() implies !(#[trigger] r[a]).same(
        #[trigger] r[b],
    ) by {
        if a == p {
            assert(!s[b - 1].same(t));
        } else if b == p {
            assert(!s[a].same(t));
        }
    }
}

/// Where `first_below` lands in a sorted sequence: everything before pays
/// at least `g`, everything from there on pays less.
proof fn lemma_first_below_bounds(s: Seq<Txn>, g: nat)
    requires
        sorted(s),
    ensures
        0 <= first_below(s, g) <= s.len(),
        forall|k: int| 0 <= k < first_below(s, g) ==> gas(#[trigger] s[k]) >= g,
        forall|k: int| first_below(s, g) <= k < s.len() ==> gas(#[trigger] s[k]) < g,
    decreases s.len(),
{
    if s.len() > 0 {
        if gas(s[0]) >= g {
            let d = s.drop_first();
            assert(sorted(d)) by {
                assert forall|i: int, j: int| 0 <= i < j < d.len() implies gas(#[trigger] d[i])
                    >= gas(#[trigger] d[j]) by {
                    assert(d[i] == s[i + 1] && d[j] == s[j + 1]);
                }
            }
            lemma_first_below_bounds(d, g);
            assert forall|k: int| 0 <= k < first_below(s, g) implies gas(#[trigger] s[k]) >= g by {
                if k > 0 {
                    assert(s[k] == d[k - 1]);
                }
            }
            assert forall|k: int| first_below(s, g) <= k < s.len() implies gas(#[trigger] s[k])
                < g by {
                assert(s[k] == d[k - 1]);
            }
        } else {
            assert forall|k: int| 0 <= k < s.len() implies gas(#[trigger] s[k]) < g by {
                if k > 0 {
                    assert(gas(s[0]) >= gas(s[k]));
                }
            }
        }
    }
}

proof fn lemma_first_at_bounds(s: Seq<Txn>, g: nat)
    ensures
        0 <= first_at(s, g) <= s.len(),
        (exists|k: int| 0 <= k < s.len() && gas(#[trigger] s[k]) == g) ==> first_at(s, g) < s.len(),
    decreases s.len(),
{
    if s.len() > 0 {
        lemma_first_at_bounds(s.drop_first(), g);
        if gas(s[0]) != g && (exists|k: int| 0 <= k < s.len() && gas(#[trigger] s[k]) == g) {
            let k = choose|k: int| 0 <= k < s.len() && gas(#[trigger] s[k]) == g;
            assert(s.drop_first()[k - 1] == s[k]);
        }
    }
}

/// The operation pool: pending operations ordered by descending gas price,
/// those of one price in the order they came, no two sharing an input, and
/// at most `max_len` of them.
#[derive(Debug)]
pub struct Pool {
    max_len: usize,
    entries: Vec<Txn>,
}

impl View for Pool {
    type V = Seq<Txn>;

    closed spec fn view(&self) -> Seq<Txn> {
        self.entries@
    }
}

impl Default for Pool {
    fn default() -> (r: Pool)
        ensures
            r.wf(),
            r@.len() == 0,
    {
        Pool::new()
    }
}

impl Pool {
    /// The bound of a pool made by `Pool::new`.
    pub const DEFAULT_MAX_LEN: usize = 1024;

    /// The bound on the number of operations.
    pub closed spec fn max_len(&self) -> nat {
        self.max_len as nat
    }

    /// The pool's invariant: ordered by price, inputs exclusive, bounded.
    pub open spec fn wf(&self) -> bool {
        &&& sorted(self@)
        &&& exclusive(self@)
        &&& distinct(self@)
        &&& self@.len() <= self.max_len()
        &&& self.max_len() == Pool::DEFAULT_MAX_LEN
    }

    /// An empty pool bounded by `Pool::DEFAULT_MAX_LEN`.
    pub fn new() -> (r: Pool)
        ensures
            r.wf(),
            r@.len() == 0,
            r.max_len() == Pool::DEFAULT_MAX_LEN,
    {
        Pool { max_len: Pool::DEFAULT_MAX_LEN, entries: Vec::new() }
    }

    /// The operation with the highest gas price (the first to come, among
    /// equals), or `None` when the pool is empty.
    pub fn peek(&self) -> (r: Option<&Txn>)
        ensures
            self@.len() == 0 ==> r.is_none(),
            self@.len() > 0 ==> r.is_some() && *r.unwrap() == self@[0],
    {
        if self.entries.len() == 0 {
            None
        } else {
            Some(&self.entries[0])
        }
    }

    /// The number of operations.
    pub fn len(&self) -> (r: usize)
        ensures
            r == self@.len(),
    {
        self.entries.len()
    }

    /// The operations by descending gas price; within one price, in the
    /// order they came.
    pub fn iter(&self) -> (r: &[Txn])
        ensures
            r@ == self@,
    {
        self.entries.as_slice()
    }
}

/// Whether `x` is one of `inputs`.
fn holds(inputs: &Inputs, x: &U256) -> (r: bool)
    ensures
        r == inputs.has(*x),
{
    match inputs {
        Inputs::Empty => false,
        Inputs::One(a) => *a == *x,
        Inputs::Two(a, b) => *a == *x || *b == *x,
    }
}

/// Whether two sets of inputs have an input in common.
fn overlap(a: &Inputs, b: &Inputs) -> (r: bool)
    ensures
        r == shares(*a, *b),
{
    match a {
        Inputs::Empty => false,
        Inputs::One(x) => holds(b, x),
        Inputs::Two(x, y) => holds(b, x) || holds(b, y),
    }
}

impl Pool {
    /// Whether an operation equal to `t` (signatures aside) is in the pool.
    fn is_present(&self, t: &Txn) -> (r: bool)
        ensures
            r == present(self@, *t),
    {
        let mut i: usize = 0;
        while i < self.entries.len()
            invariant
                i <= self@.len(),
                forall|k: int| 0 <= k < i ==> !(#[trigger] self@[k]).same(*t),
            decreases self@.len() - i,
        {
            if self.entries[i] == *t {
                return true;
            }
            i = i + 1;
        }
        false
    }

    /// Whether an operation that shares an input with `t` pays at least as
    /// much as `t`.
    fn is_outbid(&self, t: &Txn) -> (r: bool)
        ensures
            r == outbid(self@, *t),
    {
        let inputs = t.inputs();
        let g = t.gas_price();
        let mut i: usize = 0;
        while i < self.entries.len()
            invariant
                i <= self@.len(),
                inputs == t.spec_inputs(),
                g == t.spec_gas_price(),
                forall|k: int|
                    0 <= k < i ==> !(shares(t.spec_inputs(), #[trigger] self@[k].spec_inputs())
                        && gas(self@[k]) >= gas(*t)),
            decreases self@.len() - i,
        {
            let e = &self.entries[i];
            if overlap(&inputs, &e.inputs()) && uint::le(&g, &e.gas_price()) {
                return true;
            }
            i = i + 1;
        }
        false
    }

    /// Takes out every operation that holds one of `inputs`.
    fn remove_conflicting_inputs(&mut self, inputs: Inputs)
        requires
            old(self).wf(),
        ensures
            final(self).wf(),
            final(self)@ == without(old(self)@, inputs),
            final(self).max_len() == old(self).max_len(),
    {
        proof {
            lemma_without(self@, inputs);
        }
        let ghost s = self@;
        let mut kept: Vec<Txn> = Vec::new();
        let mut i: usize = 0;
        while i < self.entries.len()
            invariant
                i <= s.len(),
                self@ == s,
                kept@ == without(s.take(i as int), inputs),
            decreases s.len() - i,
        {
            let e = self.entries[i];
            assert(s.take(i + 1).drop_last() =~= s.take(i as int));
            if !overlap(&e.inputs(), &inputs) {
                kept.push(e);
            }
            i = i + 1;
        }
        assert(s.take(i as int) =~= s);
        self.entries = kept;
    }

    /// Takes out every operation that shares an input with `other`.
    pub fn remove_conflicting<T: Transaction>(&mut self, other: &T)
        requires
            old(self).wf(),
        ensures
            final(self).wf(),
            final(self)@ == without(old(self)@, other.spec_inputs()),
            final(self)@.len() <= old(self)@.len(),
            final(self).max_len() == old(self).max_len(),
    {
        proof {
            lemma_without(self@, other.spec_inputs());
        }
        self.remove_conflicting_inputs(other.inputs());
    }

    /// Puts `t` after every operation of its price or higher.
    fn place(&mut self, t: Txn)
        requires
            sorted(old(self)@),
            exclusive(old(self)@),
            distinct(old(self)@),
            !present(old(self)@, t),
            forall|k: int|
                0 <= k < old(self)@.len() ==> !shares(#[trigger] old(self)@[k].spec_inputs(), t.spec_inputs()),
        ensures
            final(self)@ == placed(old(self)@, t),
            final(self)@.len() == old(self)@.len() + 1,
            sorted(final(self)@),
            exclusive(final(self)@),
            distinct(final(self)@),
            final(self).max_len() == old(self).max_len(),
    {
        let g = t.gas_price();
        let mut i: usize = 0;
        while i < self.entries.len() && uint::le(&g, &self.entries[i].gas_price())
            invariant
                i <= self@.len(),
                g == t.spec_gas_price(),
                forall|k: int| 0 <= k < i ==> gas(#[trigger] self@[k]) >= gas(t),
            decreases self@.len() - i,
        {
            i = i + 1;
        }
        proof {
            lemma_first_below(self@, gas(t), i as int);
            lemma_placed_keeps(self@, t);
        }
        self.entries.insert(i, t);
    }

    /// When over `max_len`, takes out the first operation of the lowest price.
    fn trim(&mut self)
        requires
            sorted(old(self)@),
            exclusive(old(self)@),
            distinct(old(self)@),
            old(self)@.len() <= old(self).max_len() + 1,
            old(self).max_len() == Pool::DEFAULT_MAX_LEN,
        ensures
            final(self)@ == trimmed(old(self)@, old(self).max_len()),
            final(self).wf(),
            final(self).max_len() == old(self).max_len(),
    {
        if self.entries.len() > self.max_len {
            let last = self.entries.len() - 1;
            let g = self.entries[last].gas_price();
            let mut i: usize = 0;
            while i < last && !(self.entries[i].gas_price() == g)
                invariant
                    i <= last,
                    last == self@.len() - 1,
                    g == self@[last as int].spec_gas_price(),
                    forall|k: int| 0 <= k < i ==> (#[trigger] self@[k]).spec_gas_price() != g,
                decreases last - i,
            {
                i = i + 1;
            }
            proof {
                if i < last {
                    assert(self@[i as int].spec_gas_price() == g);
                }
                assert forall|k: int| 0 <= k < i implies gas(#[trigger] self@[k]) != gas(
                    self@.last(),
                ) by {
                    uint::lemma_value_injective(self@[k].spec_gas_price(), g);
                }
                lemma_first_at(self@, gas(self@.last()), i as int);
                lemma_remove_keeps(self@, i as int);
            }
            self.entries.remove(i);
        }
    }

    fn maybe_replace(&mut self, item: Txn, force: bool)
        requires
            old(self).wf(),
        ensures
            final(self).wf(),
            final(self)@ == offered(old(self)@, item, old(self).max_len(), force),
            final(self).max_len() == old(self).max_len(),
    {
        let keep_out = if force {
            matches!(item.inputs(), Inputs::Empty) && self.is_present(&item)
        } else {
            self.is_present(&item) || self.is_outbid(&item)
        };
        if keep_out {
            return;
        }
        let inputs = item.inputs();
        self.remove_conflicting_inputs(inputs);
        proof {
            lemma_without(old(self)@, inputs);
            assert forall|k: int| 0 <= k < self@.len() implies !shares(
                #[trigger] self@[k].spec_inputs(),
                item.spec_inputs(),
            ) by {}
            if present(self@, item) {
                let k = choose|k: int| 0 <= k < self@.len() && (#[trigger] self@[k]).same(item);
                let j = choose|j: int| 0 <= j < old(self)@.len() && old(self)@[j] == self@[k];
                assert(old(self)@[j].same(item));
                assert(self@[k].spec_inputs() == item.spec_inputs());
                if item.spec_inputs() != Inputs::Empty {
                    assert(shares(item.spec_inputs(), item.spec_inputs()));
                }
            }
        }
        self.place(item);
        self.trim();
    }

    /// Offers an operation. When an equal one (signatures aside) is already
    /// there, or one that shares an input with it pays at least as much,
    /// nothing changes; else every operation sharing an input
    /// with it leaves, it enters after those of its price or higher, and when
    /// that makes the pool too long, the first operation of the lowest price
    /// leaves.
    pub fn insert(&mut self, item: Txn)
        requires
            old(self).wf(),
        ensures
            final(self).wf(),
            final(self)@ == offered(old(self)@, item, old(self).max_len(), false),
            final(self).max_len() == old(self).max_len(),
    {
        self.maybe_replace(item, false)
    }

    /// Like `insert`, but every operation sharing an input with `item` leaves
    /// whatever it pays, an equal one (signatures aside) included, and `item`
    /// takes its place. Only an equal operation holding no input, which
    /// nothing evicts, keeps `item` out, so that no operation is there twice.
    pub fn replace(&mut self, item: Txn)
        requires
            old(self).wf(),
        ensures
            final(self).wf(),
            final(self)@ == offered(old(self)@, item, old(self).max_len(), true),
            final(self).max_len() == old(self).max_len(),
    {
        self.maybe_replace(item, true)
    }

    /// Takes out the first operation equal to `item` (signatures aside),
    /// which must be in the pool.
    pub fn remove(&mut self, item: &Txn)
        requires
            old(self).wf(),
            exists|k: int| 0 <= k < old(self)@.len() && (#[trigger] old(self)@[k]).same(*item),
        ensures
            final(self).wf(),
            final(self)@ == old(self)@.remove(first_same(old(self)@, *item)),
            final(self).max_len() == old(self).max_len(),
    {
        let mut i: usize = 0;
        while i < self.entries.len() && !(self.entries[i] == *item)
            invariant
                i <= self@.len(),
                forall|k: int| 0 <= k < i ==> !(#[trigger] self@[k]).same(*item),
            decreases self@.len() - i,
        {
            i = i + 1;
        }
        proof {
            if i == self@.len() {
                let k = choose|k: int| 0 <= k < self@.len() && (#[trigger] self@[k]).same(*item);
                assert(!self@[k].same(*item));
            }
            lemma_first_same(self@, *item, i as int);
            lemma_remove_keeps(self@, i as int);
        }
        self.entries.remove(i);
    }

    /// The operation holding input `x`, if any.
    pub fn by_input(&self, x: &U256) -> (r: Option<Txn>)
        ensures
            r == holder(self@, *x),
    {
        assert(self@.skip(0) =~= self@);
        let mut i: usize = 0;
        while i < self.entries.len()
            invariant
                i <= self@.len(),
                holder(self@, *x) == holder(self@.skip(i as int), *x),
            decreases self@.len() - i,
        {
            assert(self@.skip(i as int)[0] == self@[i as int]);
            if holds(&self.entries[i].inputs(), x) {
                return Some(self.entries[i]);
            }
            assert(self@.skip(i as int).drop_first() =~= self@.skip(i + 1));
            i = i + 1;
        }
        None
    }

    /// The operations of gas price `gp`, in the order they came.
    pub fn by_gas(&self, gp: &U256) -> (r: Vec<Txn>)
        ensures
            r@ == bucket(self@, gp@),
    {
        let mut r: Vec<Txn> = Vec::new();
        let mut i: usize = 0;
        while i < self.entries.len()
            invariant
                i <= self@.len(),
                r@ == bucket(self@.take(i as int), gp@),
            decreases self@.len() - i,
        {
            let e = self.entries[i];
            assert(self@.take(i + 1).drop_last() =~= self@.take(i as int));
            if e.gas_price() == *gp {
                r.push(e);
            } else {
                proof {
                    uint::lemma_value_injective(e.spec_gas_price(), *gp);
                }
            }
            i = i + 1;
        }
        assert(self@.take(i as int) =~= self@);
        r
    }
}

impl Pool {
    /// How many distinct gas prices the pool holds.
    pub fn gas_levels(&self) -> (r: usize)
        requires
            self.wf(),
        ensures
            r == levels(self@),
    {
        let n = self.entries.len();
        if n == 0 {
            return 0;
        }
        let mut r: usize = 1;
        let mut i: usize = 1;
        assert(self@.take(1).drop_last().len() == 0);
        while i < n
            invariant
                1 <= i <= n,
                n == self@.len(),
                r <= i,
                r == levels(self@.take(i as int)),
            decreases n - i,
        {
            let a = self.entries[i - 1].gas_price();
            let b = self.entries[i].gas_price();
            let ghost t = self@.take(i + 1);
            assert(t.drop_last() =~= self@.take(i as int));
            assert(t.last() == self@[i as int] && t[t.len() - 2] == self@[i - 1]);
            proof {
                uint::lemma_value_injective(a, b);
            }
            if !(a == b) {
                r = r + 1;
            }
            i = i + 1;
        }
        assert(self@.take(n as int) =~= self@);
        r
    }

    /// How many inputs the operations hold in all: one entry per input in
    /// the by-input index.
    pub fn input_count(&self) -> (r: usize)
        requires
            self.wf(),
        ensures
            r == input_total(self@),
    {
        let mut r: usize = 0;
        let mut i: usize = 0;
        while i < self.entries.len()
            invariant
                i <= self@.len(),
                self@.len() <= Pool::DEFAULT_MAX_LEN,
                r <= 2 * i,
                r == input_total(self@.take(i as int)),
            decreases self@.len() - i,
        {
            assert(self@.take(i + 1).drop_last() =~= self@.take(i as int));
            let v = self.entries[i].inputs().to_vec();
            r = r + v.len();
            i = i + 1;
        }
        assert(self@.take(i as int) =~= self@);
        r
    }
}

proof fn lemma_exclusive_drop_first(s: Seq<Txn>)
    requires
        exclusive(s),
        s.len() > 0,
    ensures
        exclusive(s.drop_first()),
{
    let d = s.drop_first();
    assert forall|i: int, j: int| 0 <= i < j < d.len() implies !shares(
        #[trigger] d[i].spec_inputs(),
        #[trigger] d[j].spec_inputs(),
    ) by {
        assert(d[i] == s[i + 1] && d[j] == s[j + 1]);
    }
}

proof fn lemma_holder_of(s: Seq<Txn>, k: int, x: U256)
    requires
        exclusive(s),
        0 <= k < s.len(),
        s[k].spec_inputs().has(x),
    ensures
        holder(s, x) == Some(s[k]),
    decreases s.len(),
{
    if k > 0 {
        if s[0].spec_inputs().has(x) {
            lemma_has_shares(s[0].spec_inputs(), s[k].spec_inputs(), x);
        }
        lemma_exclusive_drop_first(s);
        lemma_holder_of(s.drop_first(), k - 1, x);
    }
}

proof fn lemma_count_bucket(s: Seq<Txn>, t: Txn)
    ensures
        count_same(bucket(s, gas(t)), t) == count_same(s, t),
    decreases s.len(),
{
    if s.len() > 0 {
        lemma_count_bucket(s.drop_last(), t);
        let r = bucket(s.drop_last(), gas(t));
        if gas(s.last()) == gas(t) {
            assert(r.push(s.last()).drop_last() =~= r);
        }
    }
}

proof fn lemma_count_one(s: Seq<Txn>, k: int)
    requires
        distinct(s),
        0 <= k < s.len(),
    ensures
        count_same(s, s[k]) == 1,
    decreases s.len(),
{
    let n = s.len() - 1;
    let p = s.drop_last();
    let t = s[k];
    if k == n {
        assert forall|j: int| 0 <= j < p.len() implies !(#[trigger] p[j]).same(t) by {
            assert(s[j] == p[j]);
        }
        lemma_count_none(p, t);
    } else {
        assert(distinct(p));
        lemma_count_one(p, k);
        assert(p[k] == t);
        assert(!s[k].same(s[n]));
    }
}

proof fn lemma_count_none(s: Seq<Txn>, t: Txn)
    requires
        forall|j: int| 0 <= j < s.len() ==> !(#[trigger] s[j]).same(t),
    ensures
        count_same(s, t) == 0,
    decreases s.len(),
{
    if s.len() > 0 {
        lemma_count_none(s.drop_last(), t);
    }
}

proof fn lemma_bucket_has(s: Seq<Txn>, k: int)
    requires
        0 <= k < s.len(),
    ensures
        bucket(s, gas(s[k])).contains(s[k]),
    decreases s.len(),
{
    let r = bucket(s.drop_last(), gas(s[k]));
    if k == s.len() - 1 {
        assert(r.push(s[k])[r.len() as int] == s[k]);
    } else {
        lemma_bucket_has(s.drop_last(), k);
        if gas(s.last()) == gas(s[k]) {
            let j = choose|j: int| 0 <= j < r.len() && r[j] == s[k];
            assert(r.push(s.last())[j] == s[k]);
        }
    }
}

proof fn lemma_holder_in(s: Seq<Txn>, x: U256)
    ensures
        holder(s, x) is Some ==> exists|k: int| 0 <= k < s.len() && s[k] == holder(s, x)->0,
    decreases s.len(),
{
    if s.len() > 0 && !s[0].spec_inputs().has(x) {
        lemma_holder_in(s.drop_first(), x);
        if holder(s, x) is Some {
            let k = choose|k: int| 0 <= k < s.drop_first().len() && s.drop_first()[k] == holder(s, x)->0;
            assert(s[k + 1] == s.drop_first()[k]);
        }
    }
}

/// Every operation of the pool is what the by-input index gives for each of
/// its inputs, and it appears exactly once among the operations of its gas
/// price.
pub proof fn lemma_indexed(pool: Pool, k: int)
    requires
        pool.wf(),
        0 <= k < pool@.len(),
    ensures
        forall|x: U256| #[trigger] pool@[k].spec_inputs().has(x) ==> holder(pool@, x) == Some(pool@[k]),
        count_same(bucket(pool@, gas(pool@[k])), pool@[k]) == 1,
{
    assert forall|x: U256| #[trigger] pool@[k].spec_inputs().has(x) implies holder(pool@, x) == Some(
        pool@[k],
    ) by {
        lemma_holder_of(pool@, k, x);
    }
    lemma_count_bucket(pool@, pool@[k]);
    lemma_count_one(pool@, k);
}

/// Every input of the by-input index leads to an operation that is in the
/// pool, among the operations of its gas price.
pub proof fn lemma_index_resolves(pool: Pool, x: U256)
    requires
        pool.wf(),
        holder(pool@, x) is Some,
    ensures
        pool@.contains(holder(pool@, x)->0),
        bucket(pool@, gas(holder(pool@, x)->0)).contains(holder(pool@, x)->0),
{
    lemma_holder_in(pool@, x);
    let k = choose|k: int| 0 <= k < pool@.len() && pool@[k] == holder(pool@, x)->0;
    lemma_bucket_has(pool@, k);
}

/// What shares nothing with `inputs` is in `s`, and so is not equal to an
/// operation `s` lacks.
proof fn lemma_without_lacks(s: Seq<Txn>, t: Txn)
    requires
        !present(s, t),
    ensures
        !present(without(s, t.spec_inputs()), t),
        !outbid(without(s, t.spec_inputs()), t),
        without(without(s, t.spec_inputs()), t.spec_inputs()) == without(s, t.spec_inputs()),
{
    let w = without(s, t.spec_inputs());
    lemma_without(s, t.spec_inputs());
    if present(w, t) {
        let k = choose|k: int| 0 <= k < w.len() && (#[trigger] w[k]).same(t);
        let j = choose|j: int| 0 <= j < s.len() && s[j] == w[k];
        assert(s[j].same(t));
    }
    lemma_without_shares_none(s, t);
}

/// Nothing left after taking out `t`'s conflicts shares an input with `t`.
proof fn lemma_without_shares_none(s: Seq<Txn>, t: Txn)
    ensures
        !outbid(without(s, t.spec_inputs()), t),
        without(without(s, t.spec_inputs()), t.spec_inputs()) == without(s, t.spec_inputs()),
{
    let w = without(s, t.spec_inputs());
    lemma_without(s, t.spec_inputs());
    assert forall|k: int| 0 <= k < w.len() implies !shares(
        #[trigger] w[k].spec_inputs(),
        t.spec_inputs(),
    ) by {}
    lemma_without_none_shared(w, t.spec_inputs());
    if outbid(w, t) {
        let k = choose|k: int| 0 <= k < w.len() && shares(t.spec_inputs(), #[trigger] w[k].spec_inputs()) && gas(w[k]) >= gas(t);
        lemma_shares_symmetric(t.spec_inputs(), w[k].spec_inputs());
    }
}

/// Where two sequences have the same prices position by position,
/// `first_at` lands on the same position.
proof fn lemma_first_at_same_prices(a: Seq<Txn>, b: Seq<Txn>, g: nat)
    requires
        a.len() == b.len(),
        forall|i: int| 0 <= i < a.len() ==> gas(#[trigger] a[i]) == gas(b[i]),
    ensures
        first_at(a, g) == first_at(b, g),
    decreases a.len(),
{
    if a.len() > 0 {
        assert forall|i: int| 0 <= i < a.len() - 1 implies gas(#[trigger] a.drop_first()[i]) == gas(
            b.drop_first()[i],
        ) by {
            assert(a.drop_first()[i] == a[i + 1]);
            assert(b.drop_first()[i] == b[i + 1]);
        }
        lemma_first_at_same_prices(a.drop_first(), b.drop_first(), g);
    }
}

/// When offering `t` to `w` evicts `t` itself, offering an operation equal
/// to it evicts that one too.
proof fn lemma_evicted_again(w: Seq<Txn>, t: Txn, t2: Txn, m: nat)
    requires
        sorted(w),
        exclusive(w),
        distinct(w),
        t2.same(t),
        !present(w, t),
        forall|k: int| 0 <= k < w.len() ==> !shares(#[trigger] w[k].spec_inputs(), t.spec_inputs()),
        placed(w, t).len() > m,
        first_at(placed(w, t), gas(placed(w, t).last())) == first_below(w, gas(t)),
    ensures
        offered(w, t2, m, false) == w,
{
    assert(t2.spec_inputs() == t.spec_inputs() && gas(t2) == gas(t));
    lemma_without_none_shared(w, t.spec_inputs());
    lemma_first_below_bounds(w, gas(t));
    let p = first_below(w, gas(t));
    if present(w, t2) {
        let k = choose|k: int| 0 <= k < w.len() && (#[trigger] w[k]).same(t2);
        assert(w[k].same(t));
    }
    if outbid(w, t2) {
        let k = choose|k: int| 0 <= k < w.len() && shares(t2.spec_inputs(), #[trigger] w[k].spec_inputs()) && gas(w[k]) >= gas(t2);
        lemma_shares_symmetric(t.spec_inputs(), w[k].spec_inputs());
    }
    let pl = placed(w, t);
    let pl2 = placed(w, t2);
    assert forall|i: int| 0 <= i < pl.len() implies gas(#[trigger] pl[i]) == gas(pl2[i]) by {}
    assert(gas(pl2.last()) == gas(pl.last()));
    lemma_first_at_same_prices(pl, pl2, gas(pl.last()));
    assert(pl2.remove(p) =~= w);
}

/// Offering an operation a second time, or one equal to it but for its
/// signature, changes nothing.
pub proof fn lemma_insert_twice(pool: Pool, t: Txn, t2: Txn)
    requires
        pool.wf(),
        t2.same(t),
    ensures
        offered(offered(pool@, t, pool.max_len(), false), t2, pool.max_len(), false) == offered(
            pool@,
            t,
            pool.max_len(),
            false,
        ),
{
    let s = pool@;
    let m = pool.max_len();
    let s1 = offered(s, t, m, false);
    assert(t2.spec_inputs() == t.spec_inputs() && gas(t2) == gas(t));
    if present(s, t2) {
        let k = choose|k: int| 0 <= k < s.len() && (#[trigger] s[k]).same(t2);
        assert(s[k].same(t));
    }
    if present(s, t) {
        let k = choose|k: int| 0 <= k < s.len() && (#[trigger] s[k]).same(t);
        assert(s[k].same(t2));
    }
    if outbid(s, t) {
        let k = choose|k: int| 0 <= k < s.len() && shares(t.spec_inputs(), #[trigger] s[k].spec_inputs()) && gas(s[k]) >= gas(t);
        assert(outbid(s, t2));
    }
    if !present(s, t) && !outbid(s, t) {
        let w = without(s, t.spec_inputs());
        lemma_without(s, t.spec_inputs());
        lemma_without_lacks(s, t);
        lemma_placed_keeps(w, t);
        let pl = placed(w, t);
        let p = first_below(w, gas(t));
        lemma_first_below_bounds(w, gas(t));
        assert(pl[p] == t);
        assert(t.same(t2));
        if s1 == pl {
            assert(s1[p].same(t2));
        } else {
            let e = first_at(pl, gas(pl.last()));
            lemma_first_at_bounds(pl, gas(pl.last()));
            assert(gas(pl[pl.len() - 1]) == gas(pl.last()));
            assert(s1 == pl.remove(e));
            if e != p {
                let q = if e < p { p - 1 } else { p };
                assert(s1[q] == t);
                assert(s1[q].same(t2));
            } else {
                assert(s1 =~= w);
                lemma_evicted_again(w, t, t2, m);
            }
        }
    }
}

/// Once what conflicts with `t` has left, offering `t` never shrinks the pool.
pub proof fn lemma_offer_after_removal(pool: Pool, t: Txn)
    requires
        pool.wf(),
    ensures
        offered(without(pool@, t.spec_inputs()), t, pool.max_len(), false).len() >= without(
            pool@,
            t.spec_inputs(),
        ).len(),
{
    let w = without(pool@, t.spec_inputs());
    lemma_without(pool@, t.spec_inputs());
    lemma_without_shares_none(pool@, t);
    if !present(w, t) {
        assert forall|k: int| 0 <= k < w.len() implies !shares(
            #[trigger] w[k].spec_inputs(),
            t.spec_inputs(),
        ) by {}
        lemma_placed_keeps(w, t);
        let pl = placed(w, t);
        lemma_first_at_bounds(pl, gas(pl.last()));
        assert(gas(pl[pl.len() - 1]) == gas(pl.last()));
    }
}

/// Taking out what conflicts with `t` and then offering `t` ends in the same
/// pool whatever the conflicting operations were: nothing left can keep `t`
/// out but an equal operation, so `t` enters unless it is there already.
pub proof fn lemma_remove_then_insert(a: Pool, b: Pool, t: Txn)
    requires
        a.wf(),
        b.wf(),
        without(a@, t.spec_inputs()) == without(b@, t.spec_inputs()),
    ensures
        offered(without(a@, t.spec_inputs()), t, a.max_len(), false) == offered(
            without(b@, t.spec_inputs()),
            t,
            b.max_len(),
            false,
        ),
        offered(without(a@, t.spec_inputs()), t, a.max_len(), false) == if present(
            without(a@, t.spec_inputs()),
            t,
        ) {
            without(a@, t.spec_inputs())
        } else {
            trimmed(placed(without(a@, t.spec_inputs()), t), a.max_len())
        },
{
    lemma_without_shares_none(a@, t);
}

/// In a full pool of distinct prices, an operation that conflicts with
/// nothing and outprices everything enters first, and the lowest-priced
/// operation leaves.
pub proof fn lemma_overflow_evicts_lowest(pool: Pool, t: Txn)
    requires
        pool.wf(),
        pool@.len() == pool.max_len(),
        pool@.len() > 0,
        forall|i: int, j: int| 0 <= i < j < pool@.len() ==> gas(#[trigger] pool@[i]) > gas(#[trigger] pool@[j]),
        forall|k: int| 0 <= k < pool@.len() ==> gas(#[trigger] pool@[k]) < gas(t),
        forall|k: int| 0 <= k < pool@.len() ==> !shares(#[trigger] pool@[k].spec_inputs(), t.spec_inputs()),
    ensures
        offered(pool@, t, pool.max_len(), false) == seq![t] + pool@.drop_last(),
{
    let s = pool@;
    if outbid(s, t) {
        let k = choose|k: int| 0 <= k < s.len() && shares(t.spec_inputs(), #[trigger] s[k].spec_inputs()) && gas(s[k]) >= gas(t);
    }
    lemma_without_none_shared(s, t.spec_inputs());
    lemma_first_below(s, gas(t), 0);
    let pl = placed(s, t);
    assert(pl =~= seq![t] + s);
    let n = s.len() as int;
    assert forall|k: int| 0 <= k < n implies gas(#[trigger] pl[k]) != gas(pl.last()) by {
        if k > 0 {
            assert(pl[k] == s[k - 1]);
            assert(pl.last() == s[n - 1]);
        }
    }
    lemma_first_at(pl, gas(pl.last()), n);
    assert(pl.remove(n) =~= seq![t] + s.drop_last());
}

proof fn lemma_holder_insert_inputless(s: Seq<Txn>, p: int, t: Txn, x: U256)
    requires
        0 <= p <= s.len(),
        t.spec_inputs() == Inputs::Empty,
    ensures
        holder(s.insert(p, t), x) == holder(s, x),
    decreases s.len(),
{
    let r = s.insert(p, t);
    if p == 0 {
        assert(r.drop_first() =~= s);
    } else {
        assert(r[0] == s[0]);
        assert(r.drop_first() =~= s.drop_first().insert(p - 1, t));
        lemma_holder_insert_inputless(s.drop_first(), p - 1, t, x);
    }
}

/// Offering an operation that outprices everything in `r` and shares no
/// input with it puts it first.
proof fn lemma_offer_top(r: Seq<Txn>, t: Txn, max_len: nat)
    requires
        forall|k: int| 0 <= k < r.len() ==> gas(#[trigger] r[k]) < gas(t),
        forall|k: int| 0 <= k < r.len() ==> !shares(#[trigger] r[k].spec_inputs(), t.spec_inputs()),
    ensures
        offered(r, t, max_len, false) == trimmed(seq![t] + r, max_len),
{
    if present(r, t) {
        let k = choose|k: int| 0 <= k < r.len() && (#[trigger] r[k]).same(t);
        assert(gas(r[k]) == gas(t));
    }
    if outbid(r, t) {
        let k = choose|k: int| 0 <= k < r.len() && shares(t.spec_inputs(), #[trigger] r[k].spec_inputs()) && gas(r[k]) >= gas(t);
    }
    lemma_without_none_shared(r, t.spec_inputs());
    lemma_first_below(r, gas(t), 0);
    assert(r.insert(0, t) =~= seq![t] + r);
}

proof fn lemma_history_prefix(ops: Seq<Txn>, m: nat, k: nat)
    requires
        k <= m,
        k <= ops.len(),
        forall|i: int, j: int| 0 <= i < j < ops.len() ==> gas(#[trigger] ops[i]) < gas(#[trigger] ops[j]),
        forall|i: int, j: int|
            0 <= i < ops.len() && 0 <= j < ops.len() && i != j ==> !shares(
                #[trigger] ops[i].spec_inputs(),
                #[trigger] ops[j].spec_inputs(),
            ),
    ensures
        offered_each(seq![], ops.take(k as int), m).len() == k,
        forall|i: int|
            0 <= i < k ==> #[trigger] offered_each(seq![], ops.take(k as int), m)[i] == ops[k - 1 - i],
    decreases k,
{
    if k > 0 {
        lemma_history_prefix(ops, m, (k - 1) as nat);
        let r = offered_each(seq![], ops.take(k - 1), m);
        let t = ops[k - 1];
        assert(ops.take(k as int).drop_last() =~= ops.take(k - 1));
        assert(ops.take(k as int).last() == t);
        assert forall|i: int| 0 <= i < r.len() implies gas(#[trigger] r[i]) < gas(t) by {
            assert(r[i] == ops[k - 2 - i]);
        }
        assert forall|i: int| 0 <= i < r.len() implies !shares(
            #[trigger] r[i].spec_inputs(),
            t.spec_inputs(),
        ) by {
            assert(r[i] == ops[k - 2 - i]);
        }
        lemma_offer_top(r, t, m);
    }
}

/// Offered one by one to an empty pool, `max_len + 1` operations that share
/// no input, at strictly rising prices, leave all but the first, highest
/// price first: the lowest-priced operation is the one evicted.
pub proof fn lemma_overflow_history(pool: Pool, ops: Seq<Txn>)
    requires
        pool.wf(),
        pool@.len() == 0,
        ops.len() == pool.max_len() + 1,
        forall|i: int, j: int| 0 <= i < j < ops.len() ==> gas(#[trigger] ops[i]) < gas(#[trigger] ops[j]),
        forall|i: int, j: int|
            0 <= i < ops.len() && 0 <= j < ops.len() && i != j ==> !shares(
                #[trigger] ops[i].spec_inputs(),
                #[trigger] ops[j].spec_inputs(),
            ),
    ensures
        offered_each(pool@, ops, pool.max_len()).len() == pool.max_len(),
        forall|i: int|
            0 <= i < pool.max_len() ==> #[trigger] offered_each(pool@, ops, pool.max_len())[i]
                == ops[pool.max_len() - i],
        !offered_each(pool@, ops, pool.max_len()).contains(ops[0]),
{
    let m = pool.max_len();
    assert(pool@ =~= seq![]);
    lemma_history_prefix(ops, m, m);
    let r = offered_each(seq![], ops.take(m as int), m);
    let t = ops[m as int];
    assert(ops.drop_last() =~= ops.take(m as int));
    assert forall|i: int| 0 <= i < r.len() implies gas(#[trigger] r[i]) < gas(t) by {
        assert(r[i] == ops[m - 1 - i]);
    }
    assert forall|i: int| 0 <= i < r.len() implies !shares(
        #[trigger] r[i].spec_inputs(),
        t.spec_inputs(),
    ) by {
        assert(r[i] == ops[m - 1 - i]);
    }
    lemma_offer_top(r, t, m);
    let pl = seq![t] + r;
    assert forall|k: int| 0 <= k < m implies gas(#[trigger] pl[k]) != gas(pl.last()) by {
        assert(pl.last() == ops[0]);
        if k > 0 {
            assert(pl[k] == r[k - 1]);
            assert(r[k - 1] == ops[m - k]);
        }
    }
    lemma_first_at(pl, gas(pl.last()), m as int);
    let f = offered_each(pool@, ops, m);
    assert(f == pl.remove(m as int));
    assert forall|i: int| 0 <= i < m implies #[trigger] f[i] == ops[m - i] by {
        if i > 0 {
            assert(f[i] == r[i - 1]);
        }
    }
    if f.contains(ops[0]) {
        let i = choose|i: int| 0 <= i < f.len() && f[i] == ops[0];
        assert(f[i] == ops[m - i]);
        assert(gas(ops[0]) < gas(ops[m - i]));
    }
}

proof fn lemma_holder_none(s: Seq<Txn>, x: U256)
    requires
        forall|k: int| 0 <= k < s.len() ==> !(#[trigger] s[k]).spec_inputs().has(x),
    ensures
        holder(s, x) is None,
    decreases s.len(),
{
    if s.len() > 0 {
        assert forall|k: int| 0 <= k < s.len() - 1 implies !(#[trigger] s.drop_first()[k]).spec_inputs().has(x) by {
            assert(s.drop_first()[k] == s[k + 1]);
        }
        lemma_holder_none(s.drop_first(), x);
    }
}

/// Taking one operation out of an exclusive sequence leaves each input with
/// the holder it had, or with none.
proof fn lemma_holder_remove(r: Seq<Txn>, e: int, x: U256)
    requires
        exclusive(r),
        0 <= e < r.len(),
    ensures
        holder(r.remove(e), x) == holder(r, x) || holder(r.remove(e), x) is None,
    decreases r.len(),
{
    let q = r.remove(e);
    if e == 0 {
        assert(q =~= r.drop_first());
        if r[0].spec_inputs().has(x) {
            assert forall|k: int| 0 <= k < q.len() implies !(#[trigger] q[k]).spec_inputs().has(x) by {
                assert(q[k] == r[k + 1]);
                if r[k + 1].spec_inputs().has(x) {
                    lemma_has_shares(r[0].spec_inputs(), r[k + 1].spec_inputs(), x);
                }
            }
            lemma_holder_none(q, x);
        }
    } else {
        assert(q[0] == r[0]);
        if !r[0].spec_inputs().has(x) {
            assert(q.drop_first() =~= r.drop_first().remove(e - 1));
            lemma_exclusive_drop_first(r);
            lemma_holder_remove(r.drop_first(), e - 1, x);
        }
    }
}

/// A transfer with both inputs zero holds no input and conflicts with
/// nothing. Offered to a pool, it adds no entry to the by-input index: each
/// input keeps its holder, or loses it when a full pool evicts that holder.
/// Offered to a pool with room for it, it enters unless an equal transfer is
/// there, and the by-input index stays exactly as it was.
pub proof fn lemma_inputless_transfer(t: crate::contracts::Transfer, pool: Pool)
    requires
        pool.wf(),
        t.input0@ == 0,
        t.input1@ == 0,
    ensures
        Txn::Transfer(t).spec_inputs() == Inputs::Empty,
        forall|x: U256| !(#[trigger] Txn::Transfer(t).spec_inputs().has(x)),
        without(pool@, Txn::Transfer(t).spec_inputs()) == pool@,
        !outbid(pool@, Txn::Transfer(t)),
        forall|x: U256|
            #[trigger] holder(offered(pool@, Txn::Transfer(t), pool.max_len(), false), x) == holder(
                pool@,
                x,
            ) || holder(offered(pool@, Txn::Transfer(t), pool.max_len(), false), x) is None,
        pool@.len() < pool.max_len() ==> forall|x: U256|
            #[trigger] holder(offered(pool@, Txn::Transfer(t), pool.max_len(), false), x) == holder(
                pool@,
                x,
            ),
        pool@.len() < pool.max_len() && !present(pool@, Txn::Transfer(t)) ==> offered(
            pool@,
            Txn::Transfer(t),
            pool.max_len(),
            false,
        ).contains(Txn::Transfer(t)),
{
    let s = pool@;
    let tt = Txn::Transfer(t);
    lemma_without_none_shared(s, Inputs::Empty);
    if !present(s, tt) {
        lemma_first_below_bounds(s, gas(tt));
        let p = first_below(s, gas(tt));
        let pl = placed(s, tt);
        lemma_placed_keeps(s, tt);
        lemma_first_at_bounds(pl, gas(pl.last()));
        assert(gas(pl[pl.len() - 1]) == gas(pl.last()));
        assert forall|x: U256| #[trigger] holder(offered(s, tt, pool.max_len(), false), x) == holder(
            s,
            x,
        ) || holder(offered(s, tt, pool.max_len(), false), x) is None by {
            lemma_holder_insert_inputless(s, p, tt, x);
            if pl.len() > pool.max_len() {
                lemma_holder_remove(pl, first_at(pl, gas(pl.last())), x);
            }
        }
    }
    if !present(s, tt) && s.len() < pool.max_len() {
        lemma_first_below_bounds(s, gas(tt));
        let p = first_below(s, gas(tt));
        let pl = placed(s, tt);
        assert forall|x: U256| #[trigger] holder(offered(s, tt, pool.max_len(), false), x) == holder(
            s,
            x,
        ) by {
            lemma_holder_insert_inputless(s, p, tt, x);
        }
        assert(pl[p] == tt);
    }
}

/// A deposit with its identifier.
#[derive(Clone, Copy, Debug)]
pub struct Identified(pub Deposit, pub U256);

impl Identified {
    /// The identifier.
    pub fn id(&self) -> (r: &U256)
        ensures
            *r == self.1,
    {
        &self.1
    }

    /// The deposit.
    pub fn deposit(&self) -> (r: &Deposit)
        ensures
            *r == self.0,
    {
        &self.0
    }

    /// The deposit and its identifier, apart.
    pub fn split(self) -> (r: (Deposit, U256))
        ensures
            r == (self.0, self.1),
    {
        (self.0, self.1)
    }
}

/// Whether `a` comes before `b` in the bounty order.
fn ranks_above(a: &Deposit, b: &Deposit) -> (r: bool)
    ensures
        r == Deposit::key_lt(*b, *a),
{
    match Deposit::compare(a, b) {
        core::cmp::Ordering::Greater => true,
        _ => false,
    }
}

/// The record held for `id`: the first entry with that identifier.
pub open spec fn record(s: Seq<Identified>, id: U256) -> Option<Deposit>
    decreases s.len(),
{
    if s.len() == 0 {
        None
    } else if s[0].1 == id {
        Some(s[0].0)
    } else {
        record(s.drop_first(), id)
    }
}

/// No identifier appears twice.
pub open spec fn unique_ids(s: Seq<Identified>) -> bool {
    forall|i: int, j: int| 0 <= i < j < s.len() ==> (#[trigger] s[i]).1 != (#[trigger] s[j]).1
}

/// Every record of `d` has its key among the entries of `o`.
pub open spec fn keys_in(d: Seq<Identified>, o: Seq<Identified>) -> bool {
    forall|i: int|
        0 <= i < d.len() ==> exists|j: int|
            0 <= j < o.len() && Deposit::key_eq(#[trigger] o[j].0, (#[trigger] d[i]).0)
}

/// Keys strictly fall from each entry to the next.
pub open spec fn descending(s: Seq<Identified>) -> bool {
    forall|i: int| 0 <= i < s.len() - 1 ==> Deposit::key_lt(#[trigger] s[i + 1].0, s[i].0)
}

/// The first position whose key is not above `d`'s, or the length.
pub open spec fn first_not_above(s: Seq<Identified>, d: Deposit) -> int
    decreases s.len(),
{
    if s.len() == 0 {
        0
    } else if !Deposit::key_lt(d, s[0].0) {
        0
    } else {
        1 + first_not_above(s.drop_first(), d)
    }
}

/// The bounty order after adding `item`: unchanged when an entry already
/// has its key (the key, not the identifier, orders the entries), else
/// `item` enters in key order.
pub open spec fn ranked(s: Seq<Identified>, item: Identified) -> Seq<Identified> {
    let j = first_not_above(s, item.0);
    if j < s.len() && Deposit::key_eq(s[j].0, item.0) {
        s
    } else {
        s.insert(j, item)
    }
}

proof fn lemma_first_not_above(s: Seq<Identified>, d: Deposit, i: int)
    requires
        0 <= i <= s.len(),
        forall|k: int| 0 <= k < i ==> Deposit::key_lt(d, #[trigger] s[k].0),
        i < s.len() ==> !Deposit::key_lt(d, s[i].0),
    ensures
        first_not_above(s, d) == i,
    decreases s.len(),
{
    if s.len() > 0 && i > 0 {
        assert forall|k: int| 0 <= k < i - 1 implies Deposit::key_lt(d, #[trigger] s.drop_first()[k].0) by {
            assert(s.drop_first()[k] == s[k + 1]);
        }
        lemma_first_not_above(s.drop_first(), d, i - 1);
    }
}

proof fn lemma_record_in(s: Seq<Identified>, id: U256)
    ensures
        record(s, id) is Some ==> exists|k: int| 0 <= k < s.len() && s[k].0 == record(s, id)->0,
    decreases s.len(),
{
    if s.len() > 0 && s[0].1 != id {
        lemma_record_in(s.drop_first(), id);
        if record(s, id) is Some {
            let k = choose|k: int| 0 <= k < s.drop_first().len() && s.drop_first()[k].0 == record(s, id)->0;
            assert(s[k + 1] == s.drop_first()[k]);
        }
    }
}

proof fn lemma_record_none(s: Seq<Identified>, id: U256)
    requires
        record(s, id) is None,
    ensures
        forall|k: int| 0 <= k < s.len() ==> (#[trigger] s[k]).1 != id,
    decreases s.len(),
{
    if s.len() > 0 {
        lemma_record_none(s.drop_first(), id);
        assert forall|k: int| 0 <= k < s.len() implies (#[trigger] s[k]).1 != id by {
            if k > 0 {
                assert(s[k] == s.drop_first()[k - 1]);
            }
        }
    }
}

proof fn lemma_desc_step(s: Seq<Identified>, k: int)
    requires
        descending(s),
        0 <= k < s.len() - 1,
    ensures
        Deposit::key_lt(s[k + 1].0, s[k].0),
{
}

proof fn lemma_descending_global(s: Seq<Identified>, i: int, j: int)
    requires
        descending(s),
        0 <= i < j < s.len(),
    ensures
        Deposit::key_lt(s[j].0, s[i].0),
    decreases j - i,
{
    lemma_desc_step(s, j - 1);
    if j > i + 1 {
        lemma_descending_global(s, i, j - 1);
        Deposit::lemma_key_order(s[j].0, s[j - 1].0, s[i].0);
    }
}

/// The deposits available to claim, by identifier and by bounty.
#[derive(Debug)]
pub struct DepositPool {
    by_id: Vec<Identified>,
    by_bounty: Vec<Identified>,
}

impl Default for DepositPool {
    fn default() -> (r: DepositPool)
        ensures
            r.wf(),
            r.ordered().len() == 0,
    {
        DepositPool::new()
    }
}

impl DepositPool {
    /// The entries by identifier, in the order their identifiers came.
    pub closed spec fn ids(&self) -> Seq<Identified> {
        self.by_id@
    }

    /// The entries by descending `(bounty, amount, owner)`.
    pub closed spec fn ordered(&self) -> Seq<Identified> {
        self.by_bounty@
    }

    /// One record per identifier, the bounty order strictly descending, and
    /// every record's key in the bounty order.
    pub open spec fn wf(&self) -> bool {
        &&& unique_ids(self.ids())
        &&& descending(self.ordered())
        &&& keys_in(self.ids(), self.ordered())
    }

    /// An empty deposit pool.
    pub fn new() -> (r: DepositPool)
        ensures
            r.wf(),
            r.ids().len() == 0,
            r.ordered().len() == 0,
    {
        DepositPool { by_id: Vec::new(), by_bounty: Vec::new() }
    }

    /// The deposits, highest bounty first.
    pub fn iter(&self) -> (r: &[Identified])
        ensures
            r@ == self.ordered(),
    {
        self.by_bounty.as_slice()
    }

    /// Adds a deposit. An identifier seen before must come with the same
    /// record, and then nothing changes; a record whose key is already in
    /// the bounty order leaves that order as it is.
    pub fn insert(&mut self, item: Identified)
        requires
            old(self).wf(),
            record(old(self).ids(), item.1) is Some ==> Deposit::key_eq(
                record(old(self).ids(), item.1)->0,
                item.0,
            ),
        ensures
            final(self).wf(),
            final(self).ids() == if record(old(self).ids(), item.1) is Some {
                old(self).ids()
            } else {
                old(self).ids().push(item)
            },
            final(self).ordered() == ranked(old(self).ordered(), item),
    {
        let ghost ids = self.by_id@;
        let ghost s = self.by_bounty@;
        let known = knows(&self.by_id, &item.1);
        rank_into(&mut self.by_bounty, item);
        if !known {
            proof {
                lemma_record_none(ids, item.1);
            }
            self.by_id.push(item);
        }
        proof {
            lemma_insert_keeps(ids, s, self.by_id@, self.by_bounty@, item);
        }
    }
}

/// Adding `item` keeps identifiers unique and every record's key in the
/// bounty order.
proof fn lemma_insert_keeps(
    ids: Seq<Identified>,
    s: Seq<Identified>,
    d: Seq<Identified>,
    o: Seq<Identified>,
    item: Identified,
)
    requires
        unique_ids(ids),
        keys_in(ids, s),
        d == ids || (d == ids.push(item) && forall|k: int| 0 <= k < ids.len() ==> (#[trigger] ids[k]).1 != item.1),
        exists|b: int| 0 <= b < o.len() && Deposit::key_eq(#[trigger] o[b].0, item.0),
        forall|a: int|
            0 <= a < s.len() ==> exists|b: int|
                0 <= b < o.len() && Deposit::key_eq(#[trigger] o[b].0, (#[trigger] s[a]).0),
    ensures
        unique_ids(d),
        keys_in(d, o),
{
    assert forall|a: int| 0 <= a < ids.len() implies #[trigger] d[a] == ids[a] by {}
    assert forall|a: int, b: int| 0 <= a < b < d.len() implies (#[trigger] d[a]).1 != (
    #[trigger] d[b]).1 by {
        if b >= ids.len() {
            assert(d[b] == item);
            assert(ids[a].1 != item.1);
        } else {
            assert(ids[a].1 != ids[b].1);
        }
    }
    assert forall|a: int| 0 <= a < d.len() implies exists|b: int|
        0 <= b < o.len() && Deposit::key_eq(#[trigger] o[b].0, (#[trigger] d[a]).0) by {
        if a < ids.len() {
            let b = choose|b: int| 0 <= b < s.len() && Deposit::key_eq(#[trigger] s[b].0, ids[a].0);
            let b2 = choose|b2: int| 0 <= b2 < o.len() && Deposit::key_eq(#[trigger] o[b2].0, s[b].0);
            Deposit::lemma_key_order(o[b2].0, s[b].0, ids[a].0);
            Deposit::lemma_key_order(s[b].0, ids[a].0, o[b2].0);
            Deposit::lemma_key_order(o[b2].0, ids[a].0, ids[a].0);
            assert(Deposit::key_eq(o[b2].0, d[a].0));
        } else {
            let b2 = choose|b2: int| 0 <= b2 < o.len() && Deposit::key_eq(#[trigger] o[b2].0, item.0);
            assert(d[a] == item);
        }
    }
}

/// Whether an entry holds identifier `id`.
fn knows(v: &Vec<Identified>, id: &U256) -> (r: bool)
    ensures
        r == (record(v@, *id) is Some),
{
    let ghost ids = v@;
    assert(ids.skip(0) =~= ids);
    let mut i: usize = 0;
    while i < v.len()
        invariant
            i <= ids.len(),
            v@ == ids,
            record(ids, *id) == record(ids.skip(i as int), *id),
        decreases ids.len() - i,
    {
        assert(ids.skip(i as int)[0] == ids[i as int]);
        if v[i].1 == *id {
            return true;
        }
        assert(ids.skip(i as int).drop_first() =~= ids.skip(i + 1));
        i = i + 1;
    }
    false
}

/// Puts `item` into a strictly descending order of keys, as `ranked` says.
fn rank_into(v: &mut Vec<Identified>, item: Identified)
    requires
        descending(old(v)@),
    ensures
        final(v)@ == ranked(old(v)@, item),
        descending(final(v)@),
        exists|b: int| 0 <= b < final(v)@.len() && Deposit::key_eq(#[trigger] final(v)@[b].0, item.0),
        forall|a: int|
            0 <= a < old(v)@.len() ==> exists|b: int|
                0 <= b < final(v)@.len() && Deposit::key_eq(#[trigger] final(v)@[b].0, (#[trigger] old(v)@[a]).0),
{
    let ghost s = v@;
    let mut j: usize = 0;
    while j < v.len() && ranks_above(&v[j].0, &item.0)
        invariant
            j <= s.len(),
            v@ == s,
            forall|k: int| 0 <= k < j ==> Deposit::key_lt(item.0, #[trigger] s[k].0),
        decreases s.len() - j,
    {
        j = j + 1;
    }
    proof {
        lemma_first_not_above(s, item.0, j as int);
    }
    let here = j < v.len() && match Deposit::compare(&v[j].0, &item.0) {
        core::cmp::Ordering::Equal => true,
        _ => false,
    };
    let ghost jj = j as int;
    if here {
        proof {
            Deposit::lemma_key_order(item.0, item.0, item.0);
            assert forall|a: int| 0 <= a < s.len() implies exists|b: int|
                0 <= b < v@.len() && Deposit::key_eq(#[trigger] v@[b].0, (#[trigger] s[a]).0) by {
                Deposit::lemma_key_order(s[a].0, s[a].0, s[a].0);
            }
            assert(Deposit::key_eq(v@[jj].0, item.0));
        }
    } else {
        proof {
            if jj < s.len() {
                assert(!Deposit::key_lt(item.0, s[jj].0));
                Deposit::lemma_key_order(s[jj].0, item.0, item.0);
                assert(Deposit::key_lt(s[jj].0, item.0));
            }
        }
        proof {
            lemma_insert_descending(s, item, jj);
        }
        v.insert(j, item);
    }
}

/// Inserting `item` where every entry before ranks above it and the entry
/// after ranks below keeps the order strictly descending and every key.
proof fn lemma_insert_descending(s: Seq<Identified>, item: Identified, jj: int)
    requires
        descending(s),
        0 <= jj <= s.len(),
        forall|k: int| 0 <= k < jj ==> Deposit::key_lt(item.0, #[trigger] s[k].0),
        jj < s.len() ==> Deposit::key_lt(s[jj].0, item.0),
    ensures
        descending(s.insert(jj, item)),
        exists|b: int| 0 <= b < s.insert(jj, item).len() && Deposit::key_eq(#[trigger] s.insert(jj, item)[b].0, item.0),
        forall|a: int|
            0 <= a < s.len() ==> exists|b: int|
                0 <= b < s.insert(jj, item).len() && Deposit::key_eq(#[trigger] s.insert(jj, item)[b].0, (#[trigger] s[a]).0),
{
    let r = s.insert(jj, item);
    assert forall|k: int| 0 <= k < r.len() - 1 implies Deposit::key_lt(
        #[trigger] r[k + 1].0,
        r[k].0,
    ) by {
        if k + 1 < jj {
            lemma_desc_step(s, k);
            assert(r[k + 1] == s[k + 1] && r[k] == s[k]);
        } else if k + 1 == jj {
            assert(r[k + 1] == item && r[k] == s[k]);
        } else if k == jj {
            assert(r[k + 1] == s[k] && r[k] == item);
        } else {
            lemma_desc_step(s, k - 1);
            assert(r[k + 1] == s[k] && r[k] == s[k - 1]);
        }
    }
    assert forall|a: int| 0 <= a < s.len() implies exists|b: int|
        0 <= b < r.len() && Deposit::key_eq(#[trigger] r[b].0, (#[trigger] s[a]).0) by {
        Deposit::lemma_key_order(s[a].0, s[a].0, s[a].0);
        if a < jj {
            assert(r[a] == s[a]);
        } else {
            assert(r[a + 1] == s[a]);
        }
    }
    Deposit::lemma_key_order(item.0, item.0, item.0);
    assert(r[jj] == item);
}

/// Adding a deposit under an identifier already held, with the same record,
/// leaves the bounty order exactly as it was.
pub proof fn lemma_deposit_reinsert(pool: DepositPool, item: Identified)
    requires
        pool.wf(),
        record(pool.ids(), item.1) is Some,
        Deposit::key_eq(record(pool.ids(), item.1)->0, item.0),
    ensures
        ranked(pool.ordered(), item) == pool.ordered(),
{
    let s = pool.ordered();
    let ids = pool.ids();
    lemma_record_in(ids, item.1);
    let a = choose|a: int| 0 <= a < ids.len() && ids[a].0 == record(ids, item.1)->0;
    let j = choose|j: int| 0 <= j < s.len() && Deposit::key_eq(#[trigger] s[j].0, ids[a].0);
    Deposit::lemma_key_order(s[j].0, ids[a].0, item.0);
    assert forall|k: int| 0 <= k < j implies Deposit::key_lt(item.0, #[trigger] s[k].0) by {
        lemma_descending_global(s, k, j);
        Deposit::lemma_key_order(s[j].0, item.0, s[k].0);
    }
    Deposit::lemma_key_order(item.0, s[j].0, s[j].0);
    lemma_first_not_above(s, item.0, j);
}

} // verus!
