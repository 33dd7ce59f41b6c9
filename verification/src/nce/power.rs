//! Per-NCE power state machine: idle -> active -> turbo.
//!
//! Transitions are stepwise by design (turbo is only reachable from
//! active, so the power rails ramp in order); dropping to idle is
//! allowed from any state. On real hardware each transition is an MMIO
//! doorbell write; on the emulated fallback it's state-only.

use vstd::prelude::*;
use vstd::utf8::encode_utf8;

verus! {

#[derive(Clone, Copy, PartialEq, Eq, Debug, Structural)]
pub enum PowerState {
    Idle,
    Active,
    Turbo,
}

/// A Unicode White_Space character: the whitespace `str::trim` removes.
pub open spec fn is_white_space(c: char) -> bool {
    let n = c as u32;
    ||| 0x9 <= n <= 0xd
    ||| n == 0x20
    ||| n == 0x85
    ||| n == 0xa0
    ||| n == 0x1680
    ||| 0x2000 <= n <= 0x200a
    ||| n == 0x2028
    ||| n == 0x2029
    ||| n == 0x202f
    ||| n == 0x205f
    ||| n == 0x3000
}

/// `s` without its leading whitespace.
pub open spec fn trim_start(s: Seq<char>) -> Seq<char>
    decreases s.len(),
{
    if s.len() > 0 && is_white_space(s[0]) {
        trim_start(s.drop_first())
    } else {
        s
    }
}

/// `s` without its trailing whitespace.
pub open spec fn trim_end(s: Seq<char>) -> Seq<char>
    decreases s.len(),
{
    if s.len() > 0 && is_white_space(s.last()) {
        trim_end(s.drop_last())
    } else {
        s
    }
}

/// `s` with leading and trailing whitespace removed.
pub open spec fn str_trim(s: Seq<char>) -> Seq<char> {
    trim_end(trim_start(s))
}

/// `str::trim`: the string with leading and trailing Unicode White_Space
/// removed, as its documentation states.
#[verifier::external_body]
pub fn trim_str(s: &str) -> (r: &str)
    ensures
        r@ == str_trim(s@),
{
    s.trim()
}

/// The state a (trimmed) name selects.
pub open spec fn state_of_name(b: Seq<u8>) -> Option<PowerState> {
    if b == seq![105u8, 100u8, 108u8, 101u8] {
        Some(PowerState::Idle)
    } else if b == seq![97u8, 99u8, 116u8, 105u8, 118u8, 101u8] {
        Some(PowerState::Active)
    } else if b == seq![116u8, 117u8, 114u8, 98u8, 111u8] {
        Some(PowerState::Turbo)
    } else {
        None
    }
}

/// Legal single transitions: up one step, or down (turbo -> active,
/// anything -> idle).
pub open spec fn spec_can_transition(from: PowerState, to: PowerState) -> bool {
    match (from, to) {
        (PowerState::Idle, PowerState::Active) => true,
        (PowerState::Active, PowerState::Turbo) => true,
        (PowerState::Active, PowerState::Idle) => true,
        (PowerState::Turbo, PowerState::Active) => true,
        (PowerState::Turbo, PowerState::Idle) => true,
        _ => false,
    }
}

/// Whether `b` equals the bytes of `lit`.
fn bytes_eq(b: &[u8], lit: &[u8]) -> (r: bool)
    ensures
        r == (b@ == lit@),
{
    if b.len() != lit.len() {
        return false;
    }
    let mut i: usize = 0;
    while i < b.len()
        invariant
            b@.len() == lit@.len(),
            i <= b@.len(),
            forall|j: int| 0 <= j < i ==> b@[j] == lit@[j],
        decreases b@.len() - i,
    {
        if b[i] != lit[i] {
            return false;
        }
        i = i + 1;
    }
    assert(b@ =~= lit@);
    true
}

impl PowerState {
    pub fn as_str(&self) -> (r: &'static str)
        ensures
            r == match *self {
                PowerState::Idle => "idle",
                PowerState::Active => "active",
                PowerState::Turbo => "turbo",
            },
    {
        match self {
            PowerState::Idle => "idle",
            PowerState::Active => "active",
            PowerState::Turbo => "turbo",
        }
    }

    /// Parse a state name, ignoring surrounding whitespace.
    pub fn parse(s: &str) -> (r: Option<PowerState>)
        ensures
            r == state_of_name(encode_utf8(str_trim(s@))),
    {
        let t = trim_str(s);
        let b = t.as_bytes();
        let idle: [u8; 4] = [105, 100, 108, 101];
        let active: [u8; 6] = [97, 99, 116, 105, 118, 101];
        let turbo: [u8; 5] = [116, 117, 114, 98, 111];
        assert(idle@ =~= seq![105u8, 100u8, 108u8, 101u8]);
        assert(active@ =~= seq![97u8, 99u8, 116u8, 105u8, 118u8, 101u8]);
        assert(turbo@ =~= seq![116u8, 117u8, 114u8, 98u8, 111u8]);
        if bytes_eq(b, &idle) {
            Some(PowerState::Idle)
        } else if bytes_eq(b, &active) {
            Some(PowerState::Active)
        } else if bytes_eq(b, &turbo) {
            Some(PowerState::Turbo)
        } else {
            None
        }
    }

    /// Whether `self -> next` is a legal single transition.
    pub fn can_transition(&self, next: PowerState) -> (r: bool)
        ensures
            r == spec_can_transition(*self, next),
    {
        match (*self, next) {
            (PowerState::Idle, PowerState::Active) => true,
            (PowerState::Active, PowerState::Turbo) => true,
            (PowerState::Active, PowerState::Idle) => true,
            (PowerState::Turbo, PowerState::Active) => true,
            (PowerState::Turbo, PowerState::Idle) => true,
            _ => false,
        }
    }
}

/// Doorbell offsets within an NCE's MMIO window.
pub const REG_POWER: usize = 0x00;

/// Value written to REG_POWER for each state.
pub fn doorbell_value(state: PowerState) -> (r: u32)
    ensures
        r == match state {
            PowerState::Idle => 0u32,
            PowerState::Active => 1u32,
            PowerState::Turbo => 2u32,
        },
{
    match state {
        PowerState::Idle => 0,
        PowerState::Active => 1,
        PowerState::Turbo => 2,
    }
}

/// Law: turbo is reachable only from active, and idle from anywhere
/// but idle; no state transitions to itself.
pub proof fn lemma_transition_ramp(from: PowerState, to: PowerState)
    ensures
        spec_can_transition(from, to) && to == PowerState::Turbo ==> from == PowerState::Active,
        from != PowerState::Idle ==> spec_can_transition(from, PowerState::Idle),
        !spec_can_transition(from, from),
{
}

} // verus!
