//! Report emitter: turns the set of active key codes into the eight-byte
//! boot-protocol keyboard report. Modifier codes become bits of the first
//! byte; the first six distinct ordinary codes fill the key slots; codes
//! beyond the sixth slot are silently dropped.

use vstd::prelude::*;

verus! {

/// Number of simultaneous ordinary keys the report can carry.
pub const REPORT_SLOTS: usize = 6;

/// First key code of the modifier range (left control).
pub const MOD_FIRST: u8 = 224;

/// Last key code of the modifier range (right GUI).
pub const MOD_LAST: u8 = 231;

/// Whether a key code is a modifier, reported as a bit rather than a slot.
pub open spec fn is_modifier(k: u8) -> bool {
    MOD_FIRST <= k <= MOD_LAST
}

/// The modifier bit a modifier code sets.
pub open spec fn modifier_bit(k: u8) -> u8
    recommends
        is_modifier(k),
{
    1u8 << ((k - MOD_FIRST) as u8)
}

/// Modifier byte accumulated over the first `n` active codes.
pub open spec fn modifier_byte_upto(keys: Seq<u8>, n: int) -> u8
    decreases n,
{
    if n <= 0 {
        0u8
    } else {
        let prev = modifier_byte_upto(keys, n - 1);
        if is_modifier(keys[n - 1]) {
            prev | modifier_bit(keys[n - 1])
        } else {
            prev
        }
    }
}

/// Slot contents accumulated over the first `n` active codes: ordinary,
/// non-null codes in first-seen order, without repetition, capped at six.
pub open spec fn slots_upto(keys: Seq<u8>, n: int) -> Seq<u8>
    decreases n,
{
    if n <= 0 {
        Seq::empty()
    } else {
        let prev = slots_upto(keys, n - 1);
        let k = keys[n - 1];
        if k != 0 && !is_modifier(k) && !prev.contains(k) && prev.len() < REPORT_SLOTS as int {
            prev.push(k)
        } else {
            prev
        }
    }
}

/// The accumulated slots never exceed the cap.
pub proof fn lemma_slots_capped(keys: Seq<u8>, n: int)
    ensures
        slots_upto(keys, n).len() <= REPORT_SLOTS as int,
    decreases n,
{
    if n > 0 {
        lemma_slots_capped(keys, n - 1);
    }
}

/// One eight-byte boot-protocol keyboard report.
pub struct HidReport {
    pub bytes: Vec<u8>,
}

impl HidReport {
    /// A report is always exactly eight bytes.
    pub open spec fn wf(self) -> bool {
        self.bytes@.len() == 8
    }
}

/// Whether a code occurs in the vector.
fn contains_code(v: &Vec<u8>, k: u8) -> (r: bool)
    ensures
        r == v@.contains(k),
{
    let mut i: usize = 0;
    while i < v.len()
        invariant
            i <= v@.len(),
            forall|j: int| 0 <= j < i as int ==> v@[j] != k,
        decreases v@.len() - i,
    {
        if v[i] == k {
            return true;
        }
        i = i + 1;
    }
    proof {
        assert(!v@.contains(k));
    }
    false
}

/// Builds the report for the given active codes: byte 0 is the modifier
/// byte, byte 1 is reserved, bytes 2 to 7 are the first six distinct
/// ordinary codes in order, padded with zeroes.
pub fn build_report(keys: &Vec<u8>) -> (r: HidReport)
    ensures
        r.wf(),
        r.bytes@[0] == modifier_byte_upto(keys@, keys@.len() as int),
        r.bytes@[1] == 0,
        forall|i: int|
            0 <= i < REPORT_SLOTS as int ==> #[trigger] r.bytes@[2 + i] == (
            if i < slots_upto(keys@, keys@.len() as int).len() {
                slots_upto(keys@, keys@.len() as int)[i]
            } else {
                0u8
            }),
{
    let mut modifiers: u8 = 0;
    let mut slots: Vec<u8> = Vec::new();
    let mut i: usize = 0;
    while i < keys.len()
        invariant
            i <= keys@.len(),
            modifiers == modifier_byte_upto(keys@, i as int),
            slots@ == slots_upto(keys@, i as int),
            slots@.len() <= REPORT_SLOTS,
        decreases keys@.len() - i,
    {
        let k = keys[i];
        if k >= MOD_FIRST && k <= MOD_LAST {
            modifiers = modifiers | (1u8 << (k - MOD_FIRST));
        } else if k != 0 && slots.len() < REPORT_SLOTS && !contains_code(&slots, k) {
            slots.push(k);
        }
        i = i + 1;
    }
    let ghost final_slots = slots_upto(keys@, keys@.len() as int);
    let mut bytes: Vec<u8> = Vec::new();
    bytes.push(modifiers);
    bytes.push(0);
    let mut s: usize = 0;
    while s < REPORT_SLOTS
        invariant
            s <= REPORT_SLOTS,
            bytes@.len() == 2 + s as int,
            bytes@[0] == modifier_byte_upto(keys@, keys@.len() as int),
            bytes@[1] == 0,
            slots@ == final_slots,
            final_slots.len() <= REPORT_SLOTS,
            forall|j: int|
                0 <= j < s as int ==> #[trigger] bytes@[2 + j] == (
                if j < final_slots.len() {
                    final_slots[j]
                } else {
                    0u8
                }),
        decreases REPORT_SLOTS - s,
    {
        if s < slots.len() {
            bytes.push(slots[s]);
        } else {
            bytes.push(0);
        }
        s = s + 1;
    }
    HidReport { bytes }
}

} // verus!
