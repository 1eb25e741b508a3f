//! Assembly of the USB HID boot-protocol keyboard report.
//!
//! A report is 8 bytes: one modifier bitmap, one reserved byte, and six
//! slots for ordinary keycodes. Modifier keycodes (`0xE0..=0xE7`) set
//! their bit in the bitmap; other keycodes fill the slots in the order
//! given, duplicates and the null keycode are skipped, and a seventh
//! distinct key overflows the whole slot area to `ErrorRollOver` (`0x01`)
//! as the boot protocol prescribes.

use vstd::prelude::*;

verus! {

/// First keycode of the modifier range.
pub const FIRST_MODIFIER: u8 = 0xE0;

/// Last keycode of the modifier range.
pub const LAST_MODIFIER: u8 = 0xE7;

/// The `ErrorRollOver` usage reported in every slot on overflow.
pub const ROLLOVER_CODE: u8 = 1;

/// Number of ordinary-key slots in a boot-protocol report.
pub const REPORT_SLOTS: usize = 6;

/// Whether a keycode is one of the eight modifiers.
pub open spec fn is_modifier(k: u8) -> bool {
    FIRST_MODIFIER <= k <= LAST_MODIFIER
}

/// The bit a modifier keycode occupies in the modifier byte.
pub open spec fn modifier_bit(k: u8) -> u8 {
    1u8 << ((k - FIRST_MODIFIER) as u8)
}

/// The accumulated state of report assembly over a keycode sequence:
/// the modifier byte, the filled slots in arrival order, and whether the
/// slots have overflowed.
pub open spec fn build_state(keys: Seq<u8>) -> (u8, Seq<u8>, bool)
    decreases keys.len(),
{
    if keys.len() == 0 {
        (0u8, Seq::empty(), false)
    } else {
        let prev = build_state(keys.drop_last());
        let k = keys.last();
        if is_modifier(k) {
            ((prev.0 | modifier_bit(k)) as u8, prev.1, prev.2)
        } else if k == 0 || prev.1.contains(k) {
            prev
        } else if prev.1.len() < REPORT_SLOTS {
            (prev.0, prev.1.push(k), prev.2)
        } else {
            (prev.0, prev.1, true)
        }
    }
}

/// The 8 bytes of the report a keycode sequence assembles to.
pub open spec fn spec_report_bytes(keys: Seq<u8>) -> Seq<u8> {
    let st = build_state(keys);
    if st.2 {
        seq![
            st.0,
            0u8,
            ROLLOVER_CODE,
            ROLLOVER_CODE,
            ROLLOVER_CODE,
            ROLLOVER_CODE,
            ROLLOVER_CODE,
            ROLLOVER_CODE,
        ]
    } else {
        seq![st.0, 0u8] + st.1 + Seq::new((REPORT_SLOTS - st.1.len()) as nat, |i: int| 0u8)
    }
}

/// A fixed-layout USB HID boot-protocol keyboard report.
#[derive(Clone, Copy, Debug, PartialEq, Eq)]
pub struct HidReport {
    pub bytes: [u8; 8],
}

/// Whether a byte sequence holds a given byte.
fn contains_byte(v: &Vec<u8>, k: u8) -> (r: bool)
    ensures
        r == v@.contains(k),
{
    let mut i: usize = 0;
    while i < v.len()
        invariant
            i <= v@.len(),
            forall|j: int| 0 <= j < i ==> v@[j] != k,
        decreases v@.len() - i,
    {
        if v[i] == k {
            return true;
        }
        i += 1;
    }
    false
}

/// The keycode of slot `i`, or the null keycode where the slot is unused.
fn slot_byte(slots: &Vec<u8>, i: usize) -> (r: u8)
    ensures
        r == if i < slots@.len() {
            slots@[i as int]
        } else {
            0u8
        },
{
    if i < slots.len() {
        slots[i]
    } else {
        0
    }
}

impl HidReport {
    /// Assembles the report for the given set of simultaneously held
    /// keycodes. The result is a pure function of the keycode sequence:
    /// identical input yields a byte-identical report.
    pub fn build(keys: &Vec<u8>) -> (r: HidReport)
        ensures
            r.bytes@ == spec_report_bytes(keys@),
    {
        let mut mods: u8 = 0;
        let mut slots: Vec<u8> = Vec::new();
        let mut over: bool = false;
        let mut i: usize = 0;
        while i < keys.len()
            invariant
                i <= keys@.len(),
                slots@.len() <= REPORT_SLOTS,
                (mods, slots@, over) == build_state(keys@.subrange(0, i as int)),
            decreases keys@.len() - i,
        {
            let k = keys[i];
            proof {
                assert(keys@.subrange(0, i + 1).drop_last() =~= keys@.subrange(0, i as int));
                assert(keys@.subrange(0, i + 1).last() == keys@[i as int]);
            }
            if k >= FIRST_MODIFIER && k <= LAST_MODIFIER {
                mods = mods | (1u8 << (k - FIRST_MODIFIER));
            } else if k == 0 || contains_byte(&slots, k) {
                // already accounted for
            } else if slots.len() < REPORT_SLOTS {
                slots.push(k);
            } else {
                over = true;
            }
            i += 1;
        }
        proof {
            assert(keys@.subrange(0, keys@.len() as int) =~= keys@);
        }
        let bytes: [u8; 8] = if over {
            [
                mods,
                0,
                ROLLOVER_CODE,
                ROLLOVER_CODE,
                ROLLOVER_CODE,
                ROLLOVER_CODE,
                ROLLOVER_CODE,
                ROLLOVER_CODE,
            ]
        } else {
            [
                mods,
                0,
                slot_byte(&slots, 0),
                slot_byte(&slots, 1),
                slot_byte(&slots, 2),
                slot_byte(&slots, 3),
                slot_byte(&slots, 4),
                slot_byte(&slots, 5),
            ]
        };
        let r = HidReport { bytes };
        proof {
            assert(r.bytes@ =~= spec_report_bytes(keys@));
        }
        r
    }

    /// The raw bytes, as handed to the USB transport.
    pub fn as_bytes(&self) -> (r: &[u8; 8])
        ensures
            r@ == self.bytes@,
    {
        &self.bytes
    }
}

/// Report determinism: assembly is a mathematical function of the keycode
/// sequence alone, so identical keycode sets always yield byte-identical
/// reports, however often the report is rebuilt.
pub proof fn lemma_report_deterministic(a: Seq<u8>, b: Seq<u8>)
    requires
        a == b,
    ensures
        spec_report_bytes(a) == spec_report_bytes(b),
{
}

} // verus!
