//! What a driver reads from a device's node in the device tree before it
//! claims the device.

use crate::address::{PhysMemoryRegion, PA};
use vstd::prelude::*;

verus! {

/// How a driver says which devices it serves.
#[derive(Debug, PartialEq, Eq, Hash, PartialOrd, Ord)]
pub enum DeviceMatchType {
    /// By a string of the node's `compatible` property.
    FdtCompatible(&'static str),
}

/// Why a device could not be probed.
#[derive(Clone, Copy, Debug, PartialEq, Eq, Structural)]
pub enum ProbeError {
    /// The node names no registers.
    NoReg,
    /// The node's first run of registers has no size.
    NoRegSize,
    /// The node names no interrupt.
    NoInterrupts,
    /// The node has no interrupt parent, or the parent has no driver.
    NoParentInterrupt,
    /// The interrupt parent is not an interrupt controller.
    NotInterruptController,
}

/// One run of registers of a node: its address and, where the node gives
/// one, its size.
#[derive(Clone, Copy, Debug, PartialEq, Eq, Structural)]
pub struct FdtReg {
    pub address: u64,
    pub size: Option<usize>,
}

/// The registers a driver maps: the node's first run, which must have a
/// size.
pub open spec fn spec_mmio_region(regs: Option<Seq<FdtReg>>) -> Result<
    PhysMemoryRegion,
    ProbeError,
> {
    match regs {
        None => Err(ProbeError::NoReg),
        Some(runs) => if runs.len() == 0 {
            Err(ProbeError::NoReg)
        } else {
            match runs[0].size {
                None => Err(ProbeError::NoRegSize),
                Some(size) => Ok(
                    PhysMemoryRegion { start: PA(runs[0].address as usize), size: size },
                ),
            }
        },
    }
}

/// Picks the registers a driver maps from what a node's `reg` property
/// holds, if the node has one.
pub fn mmio_region(regs: Option<&Vec<FdtReg>>) -> (r: Result<PhysMemoryRegion, ProbeError>)
    ensures
        r == spec_mmio_region(
            match regs {
                Some(v) => Some(v@),
                None => None,
            },
        ),
{
    let runs = match regs {
        Some(v) => v,
        None => {
            return Err(ProbeError::NoReg);
        },
    };
    if runs.len() == 0 {
        return Err(ProbeError::NoReg);
    }
    let first = runs[0];
    match first.size {
        None => Err(ProbeError::NoRegSize),
        Some(size) => Ok(PhysMemoryRegion::new(PA::from_value(first.address as usize), size)),
    }
}

/// Picks the interrupt a driver claims from what a node's `interrupts`
/// property holds, if the node has one: the cells of the first interrupt.
pub fn first_interrupt(interrupts: Option<&Vec<Vec<u32>>>) -> (r: Result<Vec<u32>, ProbeError>)
    ensures
        match interrupts {
            None => r == Err::<Vec<u32>, ProbeError>(ProbeError::NoInterrupts),
            Some(v) => if v@.len() == 0 {
                r == Err::<Vec<u32>, ProbeError>(ProbeError::NoInterrupts)
            } else {
                r.is_ok() && r.unwrap()@ == v@[0]@
            },
        },
{
    let all = match interrupts {
        Some(v) => v,
        None => {
            return Err(ProbeError::NoInterrupts);
        },
    };
    if all.len() == 0 {
        return Err(ProbeError::NoInterrupts);
    }
    let first = &all[0];
    let mut cells: Vec<u32> = Vec::new();
    let mut i: usize = 0;
    while i < first.len()
        invariant
            i <= first@.len(),
            cells@ == first@.take(i as int),
        decreases first@.len() - i,
    {
        cells.push(first[i]);
        proof {
            assert(first@.take(i as int).push(first@[i as int]) =~= first@.take(i + 1));
        }
        i = i + 1;
    }
    proof {
        assert(first@.take(first@.len() as int) =~= first@);
    }
    Ok(cells)
}

/// What the interrupt parent of a node turned out to be.
#[derive(Clone, Copy, Debug, PartialEq, Eq, Structural)]
pub enum InterruptParent {
    /// The node names no interrupt parent.
    Missing,
    /// No driver serves the parent.
    NoDriver,
    /// The parent's driver is no interrupt controller.
    NotController,
    /// The parent's driver is an interrupt controller.
    Controller,
}

/// Whether a device can claim its interrupt from its interrupt parent.
pub fn check_interrupt_parent(parent: InterruptParent) -> (r: Result<(), ProbeError>)
    ensures
        r == (match parent {
            InterruptParent::Missing => Err::<(), ProbeError>(ProbeError::NoParentInterrupt),
            InterruptParent::NoDriver => Err(ProbeError::NoParentInterrupt),
            InterruptParent::NotController => Err(ProbeError::NotInterruptController),
            InterruptParent::Controller => Ok(()),
        }),
{
    match parent {
        InterruptParent::Missing => Err(ProbeError::NoParentInterrupt),
        InterruptParent::NoDriver => Err(ProbeError::NoParentInterrupt),
        InterruptParent::NotController => Err(ProbeError::NotInterruptController),
        InterruptParent::Controller => Ok(()),
    }
}

} // verus!
