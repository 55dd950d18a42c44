//! Balance bookkeeping for a fungible-token participant.
//!
//! A participant that moves token balances through the atomic execution
//! protocol holds each balance in an [`AtomicInputState`] whose payload
//! is the balance's CBOR encoding. These helpers read and change such a
//! payload under the lock discipline.

use vstd::prelude::*;

use crate::atomic::{AtomicInputState, LockableState};
use crate::cbor::{cbor_u64, decode_u64, encode_u64, u64_at};
use crate::ExecError;

verus! {

/// The balance a payload encodes, if it is exactly one encoded balance.
pub open spec fn balance_of(payload: Seq<u8>) -> Option<u64> {
    match u64_at(payload, 0) {
        Some((b, end)) => if end == payload.len() {
            Some(b)
        } else {
            None
        },
        None => None,
    }
}

/// Encodes a balance as a slice payload.
pub fn encode_balance(b: u64) -> (r: Vec<u8>)
    ensures
        r@ == cbor_u64(b),
        balance_of(r@) == Some(b),
{
    let mut out: Vec<u8> = Vec::new();
    encode_u64(&mut out, b);
    proof {
        crate::cbor::lemma_header_len(crate::cbor::MAJOR_UINT, b);
        assert(out@.subrange(0, out@.len() as int) =~= cbor_u64(b));
        crate::cbor::lemma_u64_at(out@, 0, b);
    }
    out
}

/// Reads the balance a slice holds.
pub fn read_balance(state: &AtomicInputState) -> (r: Option<u64>)
    ensures
        r == balance_of(state.sl_payload()),
{
    let payload = state.get();
    match decode_u64(payload, 0) {
        Some((b, end)) => {
            if end == payload.len() {
                Some(b)
            } else {
                None
            }
        },
        None => None,
    }
}

/// Withdraws `amount` from the balance a slice holds. Withdrawing more
/// than the balance fails with `InsufficientBalance` and changes
/// nothing; so does a locked slice (`StateLocked`) or a payload that is
/// no balance (`IllegalArgument`).
pub fn debit(state: &mut AtomicInputState, amount: u64) -> (r: Result<(), ExecError>)
    ensures
        ({
            let b = balance_of(old(state).sl_payload());
            match r {
                Ok(()) => {
                    &&& !old(state).sl_locked()
                    &&& b matches Some(bal) && amount <= bal && final(state).sl_payload()
                        == cbor_u64((bal - amount) as u64)
                    &&& !final(state).sl_locked()
                },
                Err(e) => {
                    &&& *final(state) == *old(state)
                    &&& (if old(state).sl_locked() {
                        e == ExecError::StateLocked
                    } else if b is None {
                        e == ExecError::IllegalArgument
                    } else {
                        e == ExecError::InsufficientBalance && (b matches Some(bal) && amount
                            > bal)
                    })
                },
            }
        }),
{
    if state.is_locked() {
        return Err(ExecError::StateLocked);
    }
    let bal = match read_balance(state) {
        Some(b) => b,
        None => {
            return Err(ExecError::IllegalArgument);
        },
    };
    if amount > bal {
        return Err(ExecError::InsufficientBalance);
    }
    let p = encode_balance(bal - amount);
    match state.modify(p) {
        Ok(()) => Ok(()),
        Err(_) => vstd::pervasive::unreached(),
    }
}

/// Deposits `amount` into the balance a slice holds. An overflowing
/// balance fails with `IllegalState` and changes nothing; so does a
/// locked slice (`StateLocked`) or a payload that is no balance
/// (`IllegalArgument`).
pub fn credit(state: &mut AtomicInputState, amount: u64) -> (r: Result<(), ExecError>)
    ensures
        ({
            let b = balance_of(old(state).sl_payload());
            match r {
                Ok(()) => {
                    &&& !old(state).sl_locked()
                    &&& b matches Some(bal) && amount + bal <= u64::MAX
                        && final(state).sl_payload() == cbor_u64((bal + amount) as u64)
                    &&& !final(state).sl_locked()
                },
                Err(e) => {
                    &&& *final(state) == *old(state)
                    &&& (if old(state).sl_locked() {
                        e == ExecError::StateLocked
                    } else if b is None {
                        e == ExecError::IllegalArgument
                    } else {
                        e == ExecError::IllegalState && (b matches Some(bal) && amount + bal
                            > u64::MAX)
                    })
                },
            }
        }),
{
    if state.is_locked() {
        return Err(ExecError::StateLocked);
    }
    let bal = match read_balance(state) {
        Some(b) => b,
        None => {
            return Err(ExecError::IllegalArgument);
        },
    };
    if amount > u64::MAX - bal {
        return Err(ExecError::IllegalState);
    }
    let p = encode_balance(bal + amount);
    match state.modify(p) {
        Ok(()) => Ok(()),
        Err(_) => vstd::pervasive::unreached(),
    }
}

} // verus!
