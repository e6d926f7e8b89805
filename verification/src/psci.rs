//! Starting a secondary core through PSCI: which call to make.

use crate::address::PA;
use vstd::prelude::*;

verus! {

/// The PSCI function number of CPU_ON in the 64-bit calling convention.
pub const CPU_ON_ID: u32 = 0xc400_0003;

/// How the firmware is entered.
#[derive(Clone, Copy, Debug, PartialEq, Eq, Structural)]
pub enum PSCIMethod {
    Hvc,
    Smc,
}

/// What the device tree says of PSCI: the method, and the function number
/// of CPU_ON where it names one.
#[derive(Clone, Copy, Debug)]
pub struct PSCIEntry {
    pub method: PSCIMethod,
    pub cpu_on_id: Option<u32>,
}

/// One PSCI call: the method, the function number and the three arguments.
#[derive(Clone, Copy, Debug, PartialEq, Eq, Structural)]
pub struct PsciCall {
    pub method: PSCIMethod,
    pub id: u32,
    pub arg1: u64,
    pub arg2: u64,
    pub arg3: u64,
}

/// The call that starts a core: CPU_ON, under the number the device tree
/// names or else the standard one, with the core, the entry point and the
/// context as its arguments.
pub fn boot_secondary_psci(entry: PSCIEntry, core_id: usize, entry_fn: PA, ctx: PA) -> (r: PsciCall)
    ensures
        r.method == entry.method,
        r.id == (match entry.cpu_on_id {
            Some(id) => id,
            None => CPU_ON_ID,
        }),
        r.arg1 == core_id,
        r.arg2 == entry_fn.0,
        r.arg3 == ctx.0,
{
    let method_id = match entry.cpu_on_id {
        Some(id) => id,
        None => CPU_ON_ID,
    };
    match entry.method {
        PSCIMethod::Hvc => PsciCall {
            method: PSCIMethod::Hvc,
            id: method_id,
            arg1: core_id as u64,
            arg2: entry_fn.value() as u64,
            arg3: ctx.value() as u64,
        },
        PSCIMethod::Smc => PsciCall {
            method: PSCIMethod::Smc,
            id: method_id,
            arg1: core_id as u64,
            arg2: entry_fn.value() as u64,
            arg3: ctx.value() as u64,
        },
    }
}

} // verus!
