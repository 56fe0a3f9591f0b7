use vstd::prelude::*;

use crate::game::actions::ComboAction;
use crate::game::effects::Effects;

verus! {

/// The number of a combo: 0 for none, then 1 to 4.
pub open spec fn combo_code(combo: Option<ComboAction>) -> u8 {
    match combo {
        None => 0,
        Some(ComboAction::SynthesisBegin) => 1,
        Some(ComboAction::Observe) => 2,
        Some(ComboAction::BasicTouch) => 3,
        Some(ComboAction::StandardTouch) => 4,
    }
}

pub fn combo_code_exec(combo: Option<ComboAction>) -> (r: u8)
    ensures
        r == combo_code(combo),
{
    match combo {
        None => 0,
        Some(ComboAction::SynthesisBegin) => 1,
        Some(ComboAction::Observe) => 2,
        Some(ComboAction::BasicTouch) => 3,
        Some(ComboAction::StandardTouch) => 4,
    }
}

/// Nine small numbers laid side by side in one `u128`: 8 bits for the first, 32 for the
/// second, 8 for each of the others.
pub open spec fn pack(c: u8, d: u32, e: Seq<u8>) -> u128 {
    (c as u128) | ((d as u128) << 8u128) | ((e[0] as u128) << 40u128) | ((e[1] as u128) << 48u128)
        | ((e[2] as u128) << 56u128) | ((e[3] as u128) << 64u128) | ((e[4] as u128) << 72u128)
        | ((e[5] as u128) << 80u128) | ((e[6] as u128) << 88u128)
}

pub open spec fn effect_bytes(e: Effects) -> Seq<u8> {
    seq![
        e.inner_quiet,
        e.waste_not,
        e.innovation,
        e.veneration,
        e.great_strides,
        e.muscle_memory,
        e.manipulation,
    ]
}

proof fn lemma_pack_fields(
    c: u8,
    d: u32,
    e0: u8,
    e1: u8,
    e2: u8,
    e3: u8,
    e4: u8,
    e5: u8,
    e6: u8,
    x: u128,
)
    requires
        x == (c as u128) | ((d as u128) << 8u128) | ((e0 as u128) << 40u128) | ((e1 as u128)
            << 48u128) | ((e2 as u128) << 56u128) | ((e3 as u128) << 64u128) | ((e4 as u128)
            << 72u128) | ((e5 as u128) << 80u128) | ((e6 as u128) << 88u128),
    ensures
        x & 0xff == c,
        (x >> 8u128) & 0xffff_ffff == d,
        (x >> 40u128) & 0xff == e0,
        (x >> 48u128) & 0xff == e1,
        (x >> 56u128) & 0xff == e2,
        (x >> 64u128) & 0xff == e3,
        (x >> 72u128) & 0xff == e4,
        (x >> 80u128) & 0xff == e5,
        (x >> 88u128) & 0xff == e6,
{
    assert(x & 0xff == c) by (bit_vector)
        requires
            x == (c as u128) | ((d as u128) << 8u128) | ((e0 as u128) << 40u128) | ((e1 as u128)
                << 48u128) | ((e2 as u128) << 56u128) | ((e3 as u128) << 64u128) | ((e4 as u128)
                << 72u128) | ((e5 as u128) << 80u128) | ((e6 as u128) << 88u128),
    ;
    assert((x >> 8u128) & 0xffff_ffff == d) by (bit_vector)
        requires
            x == (c as u128) | ((d as u128) << 8u128) | ((e0 as u128) << 40u128) | ((e1 as u128)
                << 48u128) | ((e2 as u128) << 56u128) | ((e3 as u128) << 64u128) | ((e4 as u128)
                << 72u128) | ((e5 as u128) << 80u128) | ((e6 as u128) << 88u128),
    ;
    assert((x >> 40u128) & 0xff == e0 && (x >> 48u128) & 0xff == e1 && (x >> 56u128) & 0xff == e2
        && (x >> 64u128) & 0xff == e3) by (bit_vector)
        requires
            x == (c as u128) | ((d as u128) << 8u128) | ((e0 as u128) << 40u128) | ((e1 as u128)
                << 48u128) | ((e2 as u128) << 56u128) | ((e3 as u128) << 64u128) | ((e4 as u128)
                << 72u128) | ((e5 as u128) << 80u128) | ((e6 as u128) << 88u128),
    ;
    assert((x >> 72u128) & 0xff == e4 && (x >> 80u128) & 0xff == e5 && (x >> 88u128) & 0xff == e6)
        by (bit_vector)
        requires
            x == (c as u128) | ((d as u128) << 8u128) | ((e0 as u128) << 40u128) | ((e1 as u128)
                << 48u128) | ((e2 as u128) << 56u128) | ((e3 as u128) << 64u128) | ((e4 as u128)
                << 72u128) | ((e5 as u128) << 80u128) | ((e6 as u128) << 88u128),
    ;
}

/// Packing is injective: equal packs come from equal numbers.
pub proof fn lemma_pack_injective(c1: u8, d1: u32, e1: Seq<u8>, c2: u8, d2: u32, e2: Seq<u8>)
    requires
        e1.len() == 7,
        e2.len() == 7,
        pack(c1, d1, e1) == pack(c2, d2, e2),
    ensures
        c1 == c2,
        d1 == d2,
        e1 == e2,
{
    lemma_pack_fields(c1, d1, e1[0], e1[1], e1[2], e1[3], e1[4], e1[5], e1[6], pack(c1, d1, e1));
    lemma_pack_fields(c2, d2, e2[0], e2[1], e2[2], e2[3], e2[4], e2[5], e2[6], pack(c2, d2, e2));
    assert(e1 =~= e2);
}

pub fn pack_exec(c: u8, d: u32, e: &Effects) -> (r: u128)
    ensures
        r == pack(c, d, effect_bytes(*e)),
{
    (c as u128) | ((d as u128) << 8u128) | ((e.inner_quiet as u128) << 40u128) | ((
    e.waste_not as u128) << 48u128) | ((e.innovation as u128) << 56u128) | ((e.veneration as u128)
        << 64u128) | ((e.great_strides as u128) << 72u128) | ((e.muscle_memory as u128) << 80u128)
        | ((e.manipulation as u128) << 88u128)
}

} // verus!
