//! The operator's commands, as plain values.

use vstd::prelude::*;
use crate::contracts::{self, Address, Signature, Withdrawal};
use crate::uint::U256;

verus! {

/// Process options.
#[derive(Clone, Copy, Debug)]
pub struct Opts {
    /// Whether out-of-band events are printed.
    pub oob: bool,
}

/// A value to look up.
#[derive(Clone, Copy, Debug, PartialEq, Eq, Structural)]
pub enum GetType {
    FeeBase,
    UtxoCount,
}

/// A pool to list.
#[derive(Clone, Copy, Debug, PartialEq, Eq, Structural)]
pub enum PoolType {
    Deposits,
    Transfers,
    Withdrawals,
}

/// List a pool.
#[derive(Clone, Copy, Debug)]
pub struct Show {
    pub what: PoolType,
}

/// Make a deposit.
#[derive(Clone, Copy, Debug)]
pub struct Deposit {}

/// Submit a withdrawal of `input0`.
#[derive(Clone, Copy, Debug)]
pub struct Withdraw {
    pub input0: U256,
    pub gasprice: U256,
}

impl Withdraw {
    /// The withdrawal it submits, with an all-zero signature.
    pub fn to_withdrawal(&self) -> (r: Withdrawal)
        ensures
            r.input == self.input0,
            r.gasprice == self.gasprice,
            r.signature.is_blank(),
    {
        Withdrawal { input: self.input0, gasprice: self.gasprice, signature: Signature::zero() }
    }
}

/// Submit a transfer; an input left out is zero.
#[derive(Clone, Copy, Debug)]
pub struct Transfer {
    pub input0: Option<U256>,
    pub input1: Option<U256>,
    pub destination: Address,
    pub change: Address,
    pub amount: U256,
    pub gasprice: U256,
}

impl Transfer {
    /// The transfer it submits, with an all-zero signature.
    pub fn to_transfer(&self) -> (r: contracts::Transfer)
        ensures
            r.input0@ == match self.input0 {
                Some(x) => x@,
                None => 0,
            },
            r.input1@ == match self.input1 {
                Some(x) => x@,
                None => 0,
            },
            r.destination == self.destination,
            r.change == self.change,
            r.amount == self.amount,
            r.gasprice == self.gasprice,
            r.signature.is_blank(),
    {
        contracts::Transfer {
            input0: match self.input0 {
                Some(x) => x,
                None => U256::zero(),
            },
            input1: match self.input1 {
                Some(x) => x,
                None => U256::zero(),
            },
            destination: self.destination,
            change: self.change,
            amount: self.amount,
            gasprice: self.gasprice,
            signature: Signature::zero(),
        }
    }
}

/// What the operator asked for.
#[derive(Clone, Copy, Debug)]
pub enum CommandKind {
    Deposit(Deposit),
    Withdraw(Withdraw),
    Transfer(Transfer),
    Show(Show),
    Get(GetType),
}

/// A command with the number it was read under.
#[derive(Clone, Copy, Debug)]
pub struct Command {
    pub id: u8,
    pub kind: CommandKind,
}

impl Command {
    /// The number it was read under.
    pub fn id(&self) -> (r: u8)
        ensures
            r == self.id,
    {
        self.id
    }

    /// What it asks for.
    pub fn kind(&self) -> (r: &CommandKind)
        ensures
            *r == self.kind,
    {
        &self.kind
    }
}

} // verus!
