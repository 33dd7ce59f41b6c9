//! NCE (Neural Compute Element) hardware abstraction layer.
//!
//! Enumerates NCE accelerator slots. When the device tree has no
//! "lightrail,nce" nodes, emulated slots are registered: same
//! descriptors, same power state machine, no MMIO side effects.

pub mod power;
pub mod affinity;

use vstd::prelude::*;
use self::power::{PowerState, spec_can_transition};
use crate::text::{dec_digits, hex_digits, push_dec, push_hex, push_bytes, push_str};
use vstd::utf8::encode_utf8;

verus! {

#[derive(Clone, Copy)]
pub struct NceDescriptor {
    pub slot: usize,
    /// Control register window (doorbells, status).
    pub mmio_base: usize,
    /// Dedicated NCE-adjacent memory region.
    pub mem_base: usize,
    pub mem_size: usize,
}

pub struct Nce {
    pub desc: NceDescriptor,
    pub state: PowerState,
    /// False for emulated slots: skip real doorbell writes.
    pub hardware: bool,
}

/// Number of emulated slots registered when the DT has no NCE nodes.
pub const EMULATED_SLOTS: usize = 2;
/// Placeholder bases for emulated descriptors.
pub const EMULATED_MMIO_BASE: usize = 0x6000_0000;
pub const EMULATED_MEM_BASE: usize = 0x6100_0000;
pub const EMULATED_MEM_SIZE: usize = 0x10_0000;

/// Device tree blob magic and the largest blob we scan.
pub const FDT_MAGIC: u32 = 0xd00d_feed;
pub const FDT_MAX_SIZE: u32 = 0x40_0000;

/// The compatible string that marks an NCE node: "lightrail,nce".
pub const NCE_COMPATIBLE: [u8; 13] = [108, 105, 103, 104, 116, 114, 97, 105, 108, 44, 110, 99, 101];

/// Whether `b[i..i+13]` is the NCE compatible string.
pub open spec fn pattern_at(b: Seq<u8>, i: int) -> bool {
    0 <= i && i + 13 <= b.len() && b.subrange(i, i + 13) == NCE_COMPATIBLE@
}

/// Big-endian u32 at `b[o]`.
pub open spec fn be32_at(b: Seq<u8>, o: int) -> nat {
    ((b[o] as nat * 256 + b[o + 1] as nat) * 256 + b[o + 2] as nat) * 256 + b[o + 3] as nat
}

/// What `dtb_has_nce_nodes` decides for the blob bytes `b` (empty when
/// there is no blob): a valid header and the compatible string within
/// the first `totalsize` bytes.
pub open spec fn spec_dtb_has_nce(b: Seq<u8>) -> bool {
    if b.len() < 8 {
        false
    } else {
        let total = be32_at(b, 4);
        let end = if total < b.len() { total as int } else { b.len() as int };
        &&& be32_at(b, 0) == FDT_MAGIC
        &&& 0 < total <= FDT_MAX_SIZE
        &&& exists|i: int| 0 <= i && i + 13 <= end && pattern_at(b, i)
    }
}

/// Scan the flattened device tree blob for "lightrail,nce".
pub fn dtb_has_nce_nodes(blob: &[u8]) -> (r: bool)
    ensures
        r == spec_dtb_has_nce(blob@),
{
    if blob.len() < 8 {
        return false;
    }
    let magic: u32 = ((blob[0] as u32 * 256 + blob[1] as u32) * 256 + blob[2] as u32) * 256 + blob[3] as u32;
    let total: u32 = ((blob[4] as u32 * 256 + blob[5] as u32) * 256 + blob[6] as u32) * 256 + blob[7] as u32;
    if magic != FDT_MAGIC || total == 0 || total > FDT_MAX_SIZE {
        return false;
    }
    let end: usize = if (total as usize) < blob.len() { total as usize } else { blob.len() };
    let pat = NCE_COMPATIBLE;
    let mut i: usize = 0;
    while i + 13 <= end
        invariant
            i <= end,
            blob@.len() >= 8,
            be32_at(blob@, 0) == FDT_MAGIC,
            be32_at(blob@, 4) == total,
            0 < total <= FDT_MAX_SIZE,
            end <= blob@.len(),
            end == if total < blob@.len() { total as int } else { blob@.len() as int },
            pat@ == NCE_COMPATIBLE@,
            forall|j: int| 0 <= j < i ==> !pattern_at(blob@, j),
        decreases end - i,
    {
        let mut k: usize = 0;
        while k < 13 && blob[i + k] == pat[k]
            invariant
                i + 13 <= end <= blob@.len(),
                pat@ == NCE_COMPATIBLE@,
                k <= 13,
                forall|m: int| 0 <= m < k ==> blob@[i + m] == pat@[m],
            decreases 13 - k,
        {
            k = k + 1;
        }
        if k == 13 {
            assert(blob@.subrange(i as int, i + 13) =~= NCE_COMPATIBLE@);
            assert(pattern_at(blob@, i as int));
            return true;
        }
        assert(blob@.subrange(i as int, i + 13)[k as int] != NCE_COMPATIBLE@[k as int]);
        i = i + 1;
    }
    false
}

/// Model of one slot: descriptor, power state, hardware-backed flag.
pub open spec fn slot_view(n: Nce) -> (NceDescriptor, PowerState, bool) {
    (n.desc, n.state, n.hardware)
}

/// The emulated slot `slot` as `init` registers it.
pub open spec fn emulated(slot: usize) -> (NceDescriptor, PowerState, bool) {
    (
        NceDescriptor {
            slot,
            mmio_base: (EMULATED_MMIO_BASE + slot * 0x1000) as usize,
            mem_base: (EMULATED_MEM_BASE + slot * EMULATED_MEM_SIZE) as usize,
            mem_size: EMULATED_MEM_SIZE,
        },
        PowerState::Idle,
        false,
    )
}

/// Enumerate NCEs at boot: when the table is empty, register the
/// emulated slots (full device-tree parsing is for real hardware).
/// Returns whether the device tree reports NCE nodes.
pub fn init(nces: &mut Vec<Nce>, dtb: &[u8]) -> (r: bool)
    ensures
        r == spec_dtb_has_nce(dtb@),
        old(nces)@.len() > 0 ==> final(nces)@ == old(nces)@,
        old(nces)@.len() == 0 ==> final(nces)@.len() == EMULATED_SLOTS && forall|i: int|
            0 <= i < EMULATED_SLOTS ==> slot_view(#[trigger] final(nces)@[i]) == emulated(i as usize),
{
    let has_nodes = dtb_has_nce_nodes(dtb);
    if nces.len() == 0 {
        let mut slot: usize = 0;
        while slot < EMULATED_SLOTS
            invariant
                slot <= EMULATED_SLOTS,
                nces@.len() == slot,
                forall|i: int| 0 <= i < slot ==> slot_view(#[trigger] nces@[i]) == emulated(i as usize),
            decreases EMULATED_SLOTS - slot,
        {
            nces.push(
                Nce {
                    desc: NceDescriptor {
                        slot,
                        mmio_base: EMULATED_MMIO_BASE + slot * 0x1000,
                        mem_base: EMULATED_MEM_BASE + slot * EMULATED_MEM_SIZE,
                        mem_size: EMULATED_MEM_SIZE,
                    },
                    state: PowerState::Idle,
                    hardware: false,
                },
            );
            slot = slot + 1;
        }
    }
    has_nodes
}

pub fn count(nces: &Vec<Nce>) -> (r: usize)
    ensures
        r == nces@.len(),
{
    nces.len()
}

/// The state name as bytes.
pub open spec fn state_name(s: PowerState) -> Seq<u8> {
    match s {
        PowerState::Idle => seq![105u8, 100u8, 108u8, 101u8],
        PowerState::Active => seq![97u8, 99u8, 116u8, 105u8, 118u8, 101u8],
        PowerState::Turbo => seq![116u8, 117u8, 114u8, 98u8, 111u8],
    }
}

/// The one-line descriptor `describe` renders:
/// `nce{slot}: state={state} mmio={mmio:#x} mem={base:#x}+{size:#x} {hw|emulated}\n`.
pub open spec fn descriptor_line(n: Nce) -> Seq<u8> {
    seq![110u8, 99u8, 101u8] + dec_digits(n.desc.slot as nat) + seq![58u8, 32u8, 115u8, 116u8, 97u8, 116u8, 101u8, 61u8]
        + state_name(n.state) + seq![32u8, 109u8, 109u8, 105u8, 111u8, 61u8, 48u8, 120u8] + hex_digits(
        n.desc.mmio_base as nat,
    ) + seq![32u8, 109u8, 101u8, 109u8, 61u8, 48u8, 120u8] + hex_digits(n.desc.mem_base as nat) + seq![
        43u8,
        48u8,
        120u8,
    ] + hex_digits(n.desc.mem_size as nat) + seq![32u8] + (if n.hardware {
        seq![104u8, 119u8]
    } else {
        seq![101u8, 109u8, 117u8, 108u8, 97u8, 116u8, 101u8, 100u8]
    }) + seq![10u8]
}

/// One-line descriptor for /dev/nceN reads (as bytes); `None` for a
/// missing slot.
pub fn describe(nces: &Vec<Nce>, slot: usize) -> (r: Option<Vec<u8>>)
    ensures
        match r {
            None => slot >= nces@.len(),
            Some(b) => slot < nces@.len() && b@ == descriptor_line(nces@[slot as int]),
        },
{
    if slot >= nces.len() {
        return None;
    }
    let nce = &nces[slot];
    let mut out: Vec<u8> = Vec::new();
    let nce_lit: [u8; 3] = [110, 99, 101];
    push_bytes(&mut out, &nce_lit);
    push_dec(&mut out, nce.desc.slot as u64);
    let state_lit: [u8; 8] = [58, 32, 115, 116, 97, 116, 101, 61];
    push_bytes(&mut out, &state_lit);
    match nce.state {
        PowerState::Idle => {
            let w: [u8; 4] = [105, 100, 108, 101];
            push_bytes(&mut out, &w);
            assert(w@ =~= state_name(PowerState::Idle));
        },
        PowerState::Active => {
            let w: [u8; 6] = [97, 99, 116, 105, 118, 101];
            push_bytes(&mut out, &w);
            assert(w@ =~= state_name(PowerState::Active));
        },
        PowerState::Turbo => {
            let w: [u8; 5] = [116, 117, 114, 98, 111];
            push_bytes(&mut out, &w);
            assert(w@ =~= state_name(PowerState::Turbo));
        },
    }
    let mmio_lit: [u8; 6] = [32, 109, 109, 105, 111, 61];
    push_bytes(&mut out, &mmio_lit);
    push_hex(&mut out, nce.desc.mmio_base as u64);
    let mem_lit: [u8; 5] = [32, 109, 101, 109, 61];
    push_bytes(&mut out, &mem_lit);
    push_hex(&mut out, nce.desc.mem_base as u64);
    let plus: [u8; 1] = [43];
    push_bytes(&mut out, &plus);
    push_hex(&mut out, nce.desc.mem_size as u64);
    let sp: [u8; 1] = [32];
    push_bytes(&mut out, &sp);
    if nce.hardware {
        let w: [u8; 2] = [104, 119];
        push_bytes(&mut out, &w);
    } else {
        let w: [u8; 8] = [101, 109, 117, 108, 97, 116, 101, 100];
        push_bytes(&mut out, &w);
    }
    let nl: [u8; 1] = [10];
    push_bytes(&mut out, &nl);
    assert(out@ =~= descriptor_line(nces@[slot as int]));
    Some(out)
}

/// Request a power transition; enforces the stepwise state machine.
/// On success returns the doorbell write (address, value) the caller
/// must perform for a hardware-backed slot, `None` for an emulated one.
pub fn set_power(nces: &mut Vec<Nce>, slot: usize, next: PowerState) -> (r: Result<Option<(usize, u32)>, &'static str>)
    ensures
        final(nces)@.len() == old(nces)@.len(),
        slot >= old(nces)@.len() ==> r == Err::<Option<(usize, u32)>, &'static str>("nce: no such slot")
            && final(nces)@ == old(nces)@,
        slot < old(nces)@.len() ==> {
            let n = old(nces)@[slot as int];
            if n.state == next {
                r == Ok::<Option<(usize, u32)>, &'static str>(None) && final(nces)@ == old(nces)@
            } else if !spec_can_transition(n.state, next) {
                r == Err::<Option<(usize, u32)>, &'static str>("nce: invalid power transition")
                    && final(nces)@ == old(nces)@
            } else {
                &&& final(nces)@ == old(nces)@.update(slot as int, Nce { state: next, ..n })
                &&& r == Ok::<Option<(usize, u32)>, &'static str>(
                    if n.hardware {
                        Some(
                            (
                                (n.desc.mmio_base + power::REG_POWER) as usize,
                                match next {
                                    PowerState::Idle => 0u32,
                                    PowerState::Active => 1u32,
                                    PowerState::Turbo => 2u32,
                                },
                            ),
                        )
                    } else {
                        None
                    },
                )
            }
        },
{
    if slot >= nces.len() {
        return Err("nce: no such slot");
    }
    let cur = nces[slot].state;
    if cur == next {
        return Ok(None);
    }
    if !cur.can_transition(next) {
        return Err("nce: invalid power transition");
    }
    let desc = nces[slot].desc;
    let hardware = nces[slot].hardware;
    let door = if hardware {
        Some((desc.mmio_base + power::REG_POWER, power::doorbell_value(next)))
    } else {
        None
    };
    nces.set(slot, Nce { desc, state: next, hardware });
    Ok(door)
}

} // verus!
