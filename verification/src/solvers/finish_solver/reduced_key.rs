use vstd::prelude::*;

use crate::solvers::finish_solver::ReducedState;
use crate::solvers::util::pareto_key::combo_code;
use crate::solvers::util::pareto_key::combo_code_exec;

verus! {

/// Seven small numbers laid side by side in one `u64`.
pub open spec fn pack7(d: u8, cp: u16, mm: u8, wn: u8, ven: u8, manip: u8, combo: u8) -> u64 {
    (d as u64) | ((cp as u64) << 8u64) | ((mm as u64) << 24u64) | ((wn as u64) << 32u64) | ((
    ven as u64) << 40u64) | ((manip as u64) << 48u64) | ((combo as u64) << 56u64)
}

/// The key of a reduced state in the memo.
pub open spec fn reduced_key(rs: ReducedState) -> u64 {
    pack7(
        rs.durability as u8,
        rs.cp as u16,
        rs.effects.muscle_memory,
        rs.effects.waste_not,
        rs.effects.veneration,
        rs.effects.manipulation,
        combo_code(rs.combo),
    )
}

proof fn lemma_pack7_fields(d: u8, cp: u16, mm: u8, wn: u8, ven: u8, manip: u8, combo: u8, x: u64)
    requires
        x == pack7(d, cp, mm, wn, ven, manip, combo),
    ensures
        x & 0xff == d,
        (x >> 8u64) & 0xffff == cp,
        (x >> 24u64) & 0xff == mm,
        (x >> 32u64) & 0xff == wn,
        (x >> 40u64) & 0xff == ven,
        (x >> 48u64) & 0xff == manip,
        (x >> 56u64) & 0xff == combo,
{
    assert(x & 0xff == d && (x >> 8u64) & 0xffff == cp && (x >> 24u64) & 0xff == mm) by (bit_vector)
        requires
            x == (d as u64) | ((cp as u64) << 8u64) | ((mm as u64) << 24u64) | ((wn as u64) << 32u64)
                | ((ven as u64) << 40u64) | ((manip as u64) << 48u64) | ((combo as u64) << 56u64),
    ;
    assert((x >> 32u64) & 0xff == wn && (x >> 40u64) & 0xff == ven && (x >> 48u64) & 0xff == manip
        && (x >> 56u64) & 0xff == combo) by (bit_vector)
        requires
            x == (d as u64) | ((cp as u64) << 8u64) | ((mm as u64) << 24u64) | ((wn as u64) << 32u64)
                | ((ven as u64) << 40u64) | ((manip as u64) << 48u64) | ((combo as u64) << 56u64),
    ;
}

proof fn lemma_casts_injective(d1: i8, d2: i8, c1: i16, c2: i16)
    ensures
        (d1 as u8) == (d2 as u8) ==> d1 == d2,
        (c1 as u16) == (c2 as u16) ==> c1 == c2,
{
    assert((d1 as u8) == (d2 as u8) ==> d1 == d2) by (bit_vector);
    assert((c1 as u16) == (c2 as u16) ==> c1 == c2) by (bit_vector);
}

/// Distinct reduced states have distinct keys.
pub proof fn lemma_reduced_key_injective(a: ReducedState, b: ReducedState)
    requires
        reduced_key(a) == reduced_key(b),
    ensures
        a == b,
{
    let ka = reduced_key(a);
    lemma_pack7_fields(
        a.durability as u8,
        a.cp as u16,
        a.effects.muscle_memory,
        a.effects.waste_not,
        a.effects.veneration,
        a.effects.manipulation,
        combo_code(a.combo),
        ka,
    );
    lemma_pack7_fields(
        b.durability as u8,
        b.cp as u16,
        b.effects.muscle_memory,
        b.effects.waste_not,
        b.effects.veneration,
        b.effects.manipulation,
        combo_code(b.combo),
        ka,
    );
    lemma_casts_injective(a.durability, b.durability, a.cp, b.cp);
}

pub fn reduced_key_exec(rs: &ReducedState) -> (r: u64)
    ensures
        r == reduced_key(*rs),
{
    let combo = combo_code_exec(rs.combo);
    (rs.durability as u8 as u64) | ((rs.cp as u16 as u64) << 8u64) | ((
    rs.effects.muscle_memory as u64) << 24u64) | ((rs.effects.waste_not as u64) << 32u64) | ((
    rs.effects.veneration as u64) << 40u64) | ((rs.effects.manipulation as u64) << 48u64) | ((
    combo as u64) << 56u64)
}

} // verus!
