//! Decoding of the settlement contract's `transact(claim, transfers[],
//! withdrawals[])` call data into a bundle.
//!
//! After the four-byte selector come three head words: the offset of the
//! claim tuple (dynamic, for its deposit list), then the offsets of the
//! transfer and withdrawal lists. A list is a length word followed by its
//! elements; a transfer takes nine words and a withdrawal five. An offset
//! or length is a word whose first 28 bytes are zero; an address is the
//! last 20 bytes of its word and a `uint8` the last byte.

use vstd::prelude::*;
use crate::contracts::{Address, Bundle, Claim, Signature, Transfer, Withdrawal};
use crate::uint::U256;

verus! {

/// Why call data could not be read as a bundle.
#[derive(Clone, Copy, Debug, PartialEq, Eq, Structural)]
pub enum DecodeError {
    /// Fewer than four bytes: no selector.
    TooShort,
    /// The arguments do not follow the encoding.
    Abi,
}

/// The big-endian value of a byte string.
pub open spec fn be(s: Seq<u8>) -> nat
    decreases s.len(),
{
    if s.len() == 0 {
        0
    } else {
        be(s.drop_last()) * 256 + s.last() as nat
    }
}

/// `256^k`.
pub open spec fn pow256(k: nat) -> nat
    decreases k,
{
    if k == 0 {
        1
    } else {
        256 * pow256((k - 1) as nat)
    }
}

/// A whole word starts at `at`.
pub open spec fn fits(d: Seq<u8>, at: int) -> bool {
    0 <= at && at + 32 <= d.len()
}

/// The 256-bit integer of the word at `at`.
pub open spec fn uint_at(d: Seq<u8>, at: int) -> U256 {
    U256 {
        w0: be(d.subrange(at + 24, at + 32)) as u64,
        w1: be(d.subrange(at + 16, at + 24)) as u64,
        w2: be(d.subrange(at + 8, at + 16)) as u64,
        w3: be(d.subrange(at, at + 8)) as u64,
    }
}

/// The offset or length in the word at `at`: its last four bytes, when
/// the word is there and its first 28 bytes are zero.
pub open spec fn small_at(d: Seq<u8>, at: int) -> Option<nat> {
    if fits(d, at) && (forall|i: int| at <= i < at + 28 ==> d[i] == 0) {
        Some(be(d.subrange(at + 28, at + 32)))
    } else {
        None
    }
}

/// The list whose offset word is at `at`, of elements `width` words long:
/// where its first element starts and how many there are, when it is all there.
pub open spec fn list_at(d: Seq<u8>, at: int, width: nat) -> Option<(nat, nat)> {
    match small_at(d, at) {
        Some(lo) => match small_at(d, lo as int) {
            Some(n) => if n == 0 || lo + 32 + n * width * 32 <= d.len() {
                Some(((lo + 32) as nat, n))
            } else {
                None
            },
            None => None,
        },
        None => None,
    }
}

/// Whether the arguments `a` (the call data after the selector) follow
/// the encoding.
pub open spec fn well_formed(a: Seq<u8>) -> bool {
    match small_at(a, 0) {
        Some(c) => {
            &&& c <= a.len()
            &&& fits(a.skip(c as int), 160)
            &&& list_at(a.skip(c as int), 64, 1) is Some
            &&& list_at(a, 32, 9) is Some
            &&& list_at(a, 64, 5) is Some
        },
        None => false,
    }
}

/// The signature `(v, r, s)` in the three words from `p`.
pub open spec fn signature_is(x: Signature, d: Seq<u8>, p: int) -> bool {
    &&& x.v == d[p + 31] as u64
    &&& x.r@ == d.subrange(p + 32, p + 64)
    &&& x.s@ == d.subrange(p + 64, p + 96)
}

/// The transfer in the nine words from `p`.
pub open spec fn transfer_is(x: Transfer, d: Seq<u8>, p: int) -> bool {
    &&& x.input0 == uint_at(d, p)
    &&& x.input1 == uint_at(d, p + 32)
    &&& x.destination.bytes@ == d.subrange(p + 76, p + 96)
    &&& x.change.bytes@ == d.subrange(p + 108, p + 128)
    &&& x.amount == uint_at(d, p + 128)
    &&& x.gasprice == uint_at(d, p + 160)
    &&& signature_is(x.signature, d, p + 192)
}

/// The withdrawal in the five words from `p`.
pub open spec fn withdrawal_is(x: Withdrawal, d: Seq<u8>, p: int) -> bool {
    &&& x.input == uint_at(d, p)
    &&& x.gasprice == uint_at(d, p + 32)
    &&& signature_is(x.signature, d, p + 64)
}

/// Whether `b` is what the well-formed arguments `a` encode.
pub open spec fn decodes_to(a: Seq<u8>, b: Bundle) -> bool {
    let t = a.skip(small_at(a, 0)->0 as int);
    let (dp, dn) = list_at(t, 64, 1)->0;
    let (tp, tn) = list_at(a, 32, 9)->0;
    let (wp, wn) = list_at(a, 64, 5)->0;
    &&& b.claim.input == uint_at(t, 0)
    &&& b.claim.gasprice == uint_at(t, 32)
    &&& signature_is(b.claim.signature, t, 96)
    &&& b.claim.deposits@.len() == dn
    &&& forall|k: int| 0 <= k < dn ==> #[trigger] b.claim.deposits@[k] == uint_at(t, dp + 32 * k)
    &&& b.transfers@.len() == tn
    &&& forall|k: int| 0 <= k < tn ==> transfer_is(#[trigger] b.transfers@[k], a, tp + 288 * k)
    &&& b.withdrawals@.len() == wn
    &&& forall|k: int| 0 <= k < wn ==> withdrawal_is(#[trigger] b.withdrawals@[k], a, wp + 160 * k)
}

proof fn lemma_pow256_small(k: nat)
    requires
        k <= 8,
    ensures
        pow256(k) <= 0x1_0000_0000_0000_0000,
        k <= 4 ==> pow256(k) <= 0x1_0000_0000,
{
    reveal_with_fuel(pow256, 9);
    assert(k == 0 || k == 1 || k == 2 || k == 3 || k == 4 || k == 5 || k == 6 || k == 7 || k == 8);
}

/// The bytes of `d` from `from` on.
fn tail_of(d: &[u8], from: usize) -> (r: Vec<u8>)
    requires
        from <= d@.len(),
    ensures
        r@ == d@.skip(from as int),
{
    let mut r: Vec<u8> = Vec::new();
    let mut i: usize = from;
    while i < d.len()
        invariant
            from <= i <= d@.len(),
            r@ == d@.subrange(from as int, i as int),
        decreases d@.len() - i,
    {
        r.push(d[i]);
        i = i + 1;
        assert(r@ =~= d@.subrange(from as int, i as int));
    }
    assert(d@.skip(from as int) =~= d@.subrange(from as int, i as int));
    r
}

/// The big-endian value of `n <= 8` bytes from `from`.
fn read_be(d: &[u8], from: usize, n: usize) -> (r: u64)
    requires
        n <= 8,
        from + n <= d@.len(),
    ensures
        r == be(d@.subrange(from as int, from + n)),
        r < pow256(n as nat),
{
    proof {
        assert(d@.len() == d.len());
    }
    let mut x: u64 = 0;
    let mut i: usize = from;
    assert(d@.subrange(from as int, from as int) =~= seq![]);
    while i < from + n
        invariant
            from <= i <= from + n,
            from + n <= d@.len(),
            d@.len() <= usize::MAX,
            n <= 8,
            x == be(d@.subrange(from as int, i as int)),
            x < pow256((i - from) as nat),
        decreases from + n - i,
    {
        let b = d[i];
        proof {
            lemma_pow256_small((i + 1 - from) as nat);
            assert(x * 256 + b < pow256((i + 1 - from) as nat)) by (nonlinear_arith)
                requires
                    x < pow256((i - from) as nat),
                    b < 256,
                    pow256((i + 1 - from) as nat) == 256 * pow256((i - from) as nat),
            ;
            assert(d@.subrange(from as int, i + 1).drop_last() =~= d@.subrange(from as int, i as int));
        }
        x = x * 256 + b as u64;
        i = i + 1;
    }
    x
}

/// The 256-bit integer of the word at `at`.
fn read_uint(d: &[u8], at: usize) -> (r: U256)
    requires
        fits(d@, at as int),
    ensures
        r == uint_at(d@, at as int),
{
    proof {
        assert(d@.len() == d.len());
    }
    U256 {
        w0: read_be(d, at + 24, 8),
        w1: read_be(d, at + 16, 8),
        w2: read_be(d, at + 8, 8),
        w3: read_be(d, at, 8),
    }
}

/// The offset or length in the word at `at`.
fn read_small(d: &[u8], at: usize) -> (r: Option<usize>)
    ensures
        r.is_some() == small_at(d@, at as int).is_some(),
        r.is_some() ==> r.unwrap() == small_at(d@, at as int)->0,
        r.is_some() ==> r.unwrap() < 0x1_0000_0000,
{
    if at > d.len() || d.len() - at < 32 {
        return None;
    }
    let mut i: usize = at;
    while i < at + 28
        invariant
            at <= i <= at + 28,
            at + 32 <= d@.len(),
            d@.len() <= usize::MAX,
            forall|k: int| at <= k < i ==> d@[k] == 0,
        decreases at + 28 - i,
    {
        if d[i] != 0 {
            return None;
        }
        i = i + 1;
    }
    let x = read_be(d, at + 28, 4);
    proof {
        lemma_pow256_small(4);
    }
    Some(x as usize)
}

/// A list's first element offset and length, as `list_at` says.
fn read_list(d: &[u8], at: usize, width: usize) -> (r: Option<(usize, usize)>)
    requires
        1 <= width <= 9,
    ensures
        r.is_some() == list_at(d@, at as int, width as nat).is_some(),
        r.is_some() ==> (r.unwrap().0 as nat, r.unwrap().1 as nat) == list_at(
            d@,
            at as int,
            width as nat,
        )->0,
{
    let lo = match read_small(d, at) {
        Some(lo) => lo,
        None => {
            return None;
        },
    };
    let n = match read_small(d, lo) {
        Some(n) => n,
        None => {
            return None;
        },
    };
    proof {
        lemma_pow256_small(4);
    }
    proof {
        assert(d@.len() == d.len());
        assert((n as u64) * (width as u64) * 32 < 0x1_0000_0000 * 9 * 32) by (nonlinear_arith)
            requires
                n < 0x1_0000_0000,
                width <= 9,
        ;
    }
    if n == 0 {
        return Some((lo + 32, 0));
    }
    let need: u64 = lo as u64 + 32 + (n as u64) * (width as u64) * 32;
    if need <= d.len() as u64 {
        Some((lo + 32, n))
    } else {
        None
    }
}

/// The 32 bytes from `p`.
fn read_bytes32(d: &[u8], p: usize) -> (r: [u8; 32])
    requires
        p + 32 <= d@.len(),
    ensures
        r@ == d@.subrange(p as int, p + 32),
{
    proof {
        assert(d@.len() == d.len());
    }
    let mut r = [0u8; 32];
    let mut i: usize = 0;
    while i < 32
        invariant
            i <= 32,
            p + 32 <= d@.len(),
            d@.len() <= usize::MAX,
            forall|k: int| 0 <= k < i ==> r@[k] == d@[p + k],
        decreases 32 - i,
    {
        r[i] = d[p + i];
        i = i + 1;
    }
    assert(r@ =~= d@.subrange(p as int, p + 32));
    r
}

/// The address in the word at `p`: its last 20 bytes.
fn read_address(d: &[u8], p: usize) -> (r: Address)
    requires
        p + 32 <= d@.len(),
    ensures
        r.bytes@ == d@.subrange(p + 12, p + 32),
{
    proof {
        assert(d@.len() == d.len());
    }
    let mut r = [0u8; 20];
    let mut i: usize = 0;
    while i < 20
        invariant
            i <= 20,
            p + 32 <= d@.len(),
            d@.len() <= usize::MAX,
            forall|k: int| 0 <= k < i ==> r@[k] == d@[p + 12 + k],
        decreases 20 - i,
    {
        r[i] = d[p + 12 + i];
        i = i + 1;
    }
    assert(r@ =~= d@.subrange(p + 12, p + 32));
    Address { bytes: r }
}

/// The signature in the three words from `p`.
fn read_signature(d: &[u8], p: usize) -> (r: Signature)
    requires
        p + 96 <= d@.len(),
    ensures
        signature_is(r, d@, p as int),
{
    proof {
        assert(d@.len() == d.len());
    }
    Signature { v: d[p + 31] as u64, r: read_bytes32(d, p + 32), s: read_bytes32(d, p + 64) }
}

/// The transfer in the nine words from `p`.
fn read_transfer(d: &[u8], p: usize) -> (r: Transfer)
    requires
        p + 288 <= d@.len(),
    ensures
        transfer_is(r, d@, p as int),
{
    proof {
        assert(d@.len() == d.len());
    }
    Transfer {
        input0: read_uint(d, p),
        input1: read_uint(d, p + 32),
        destination: read_address(d, p + 64),
        change: read_address(d, p + 96),
        amount: read_uint(d, p + 128),
        gasprice: read_uint(d, p + 160),
        signature: read_signature(d, p + 192),
    }
}

/// The withdrawal in the five words from `p`.
fn read_withdrawal(d: &[u8], p: usize) -> (r: Withdrawal)
    requires
        p + 160 <= d@.len(),
    ensures
        withdrawal_is(r, d@, p as int),
{
    proof {
        assert(d@.len() == d.len());
    }
    Withdrawal {
        input: read_uint(d, p),
        gasprice: read_uint(d, p + 32),
        signature: read_signature(d, p + 64),
    }
}

impl Bundle {
    /// Reads `transact` call data: a four-byte selector, then the claim,
    /// transfers and withdrawals as the module documentation lays out.
    pub fn decode_slice(input: &[u8]) -> (r: Result<Bundle, DecodeError>)
        ensures
            input@.len() < 4 <==> r == Err::<Bundle, DecodeError>(DecodeError::TooShort),
            r is Ok <==> input@.len() >= 4 && well_formed(input@.skip(4)),
            r is Ok ==> decodes_to(input@.skip(4), r->Ok_0),
    {
        if input.len() < 4 {
            return Err(DecodeError::TooShort);
        }
        let a = tail_of(input, 4);
        let c = match read_small(a.as_slice(), 0) {
            Some(c) => c,
            None => {
                return Err(DecodeError::Abi);
            },
        };
        if c > a.len() {
            return Err(DecodeError::Abi);
        }
        let t = tail_of(a.as_slice(), c);
        if t.len() < 192 {
            return Err(DecodeError::Abi);
        }
        let (dp, dn) = match read_list(t.as_slice(), 64, 1) {
            Some(x) => x,
            None => {
                return Err(DecodeError::Abi);
            },
        };
        let (tp, tn) = match read_list(a.as_slice(), 32, 9) {
            Some(x) => x,
            None => {
                return Err(DecodeError::Abi);
            },
        };
        let (wp, wn) = match read_list(a.as_slice(), 64, 5) {
            Some(x) => x,
            None => {
                return Err(DecodeError::Abi);
            },
        };
        let mut deposits: Vec<U256> = Vec::new();
        let mut k: usize = 0;
        while k < dn
            invariant
                k <= dn,
                dn == 0 || dp + dn * 32 <= t@.len(),
                t@.len() <= usize::MAX,
                deposits@.len() == k,
                forall|j: int| 0 <= j < k ==> #[trigger] deposits@[j] == uint_at(t@, dp + 32 * j),
            decreases dn - k,
        {
            assert(dp + 32 * k + 32 <= dp + dn * 32) by (nonlinear_arith)
                requires
                    k < dn,
            ;
            deposits.push(read_uint(t.as_slice(), dp + 32 * k));
            k = k + 1;
        }
        let mut transfers: Vec<Transfer> = Vec::new();
        let mut k: usize = 0;
        while k < tn
            invariant
                k <= tn,
                tn == 0 || tp + tn * 9 * 32 <= a@.len(),
                a@.len() <= usize::MAX,
                transfers@.len() == k,
                forall|j: int| 0 <= j < k ==> transfer_is(#[trigger] transfers@[j], a@, tp + 288 * j),
            decreases tn - k,
        {
            assert(tp + 288 * k + 288 <= tp + tn * 9 * 32) by (nonlinear_arith)
                requires
                    k < tn,
            ;
            transfers.push(read_transfer(a.as_slice(), tp + 288 * k));
            k = k + 1;
        }
        let mut withdrawals: Vec<Withdrawal> = Vec::new();
        let mut k: usize = 0;
        while k < wn
            invariant
                k <= wn,
                wn == 0 || wp + wn * 5 * 32 <= a@.len(),
                a@.len() <= usize::MAX,
                withdrawals@.len() == k,
                forall|j: int| 0 <= j < k ==> withdrawal_is(#[trigger] withdrawals@[j], a@, wp + 160 * j),
            decreases wn - k,
        {
            assert(wp + 160 * k + 160 <= wp + wn * 5 * 32) by (nonlinear_arith)
                requires
                    k < wn,
            ;
            withdrawals.push(read_withdrawal(a.as_slice(), wp + 160 * k));
            k = k + 1;
        }
        let claim = Claim {
            input: read_uint(t.as_slice(), 0),
            gasprice: read_uint(t.as_slice(), 32),
            deposits,
            signature: read_signature(t.as_slice(), 96),
        };
        Ok(Bundle { claim, transfers, withdrawals })
    }
}

} // verus!
