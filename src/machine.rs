//! What an instruction sequence computes on the accumulator machine.
use vstd::prelude::*;
use vstd::arithmetic::div_mod::{lemma_add_mod_noop, lemma_mod_add_multiples_vanish, lemma_sub_mod_noop};
use crate::emitter::Instruction;

verus! {

/// The value returned by `instrs` when started with accumulator `acc`, or
/// `None` if no return is reached.
pub open spec fn run_from(instrs: Seq<Instruction>, acc: int) -> Option<int>
    decreases instrs.len(),
{
    if instrs.len() == 0 {
        None
    } else {
        match instrs[0] {
            Instruction::LoadImmediate(v) => run_from(instrs.drop_first(), v as int),
            Instruction::AddImmediate(v) => run_from(instrs.drop_first(), acc + v),
            Instruction::SubtractImmediate(v) => run_from(instrs.drop_first(), acc - v),
            Instruction::Return => Some(acc),
        }
    }
}

/// The value returned by `instrs` on a machine whose accumulator starts at 0.
pub open spec fn run(instrs: Seq<Instruction>) -> Option<int> {
    run_from(instrs, 0)
}

/// The exit status of a process that returns `v`: its low eight bits.
pub open spec fn status_of(v: int) -> u8 {
    (v % 256) as u8
}

fn low_byte(v: i64) -> (r: u32)
    ensures
        r == v % 256,
        r < 256,
{
    match v.checked_rem_euclid(256) {
        Some(m) => m as u32,
        None => 0,
    }
}

/// Runs `instrs` and gives the exit status that the returned value becomes,
/// or `None` if the program never returns.
pub fn exit_status(instrs: &Vec<Instruction>) -> (r: Option<u8>)
    ensures
        r == (match run(instrs@) {
            Some(v) => Some(status_of(v)),
            None => None,
        }),
{
    let mut a: u32 = 0;
    let ghost mut g: int = 0;
    let mut i: usize = 0;
    assert(instrs@.skip(0) =~= instrs@);
    while i < instrs.len()
        invariant
            i <= instrs.len(),
            run(instrs@) == run_from(instrs@.skip(i as int), g),
            a == g % 256,
        decreases instrs.len() - i,
    {
        let ghost rest = instrs@.skip(i as int);
        assert(rest[0] == instrs@[i as int]);
        assert(rest.drop_first() =~= instrs@.skip(i + 1));
        match instrs[i] {
            Instruction::LoadImmediate(v) => {
                a = low_byte(v);
                proof {
                    g = v as int;
                }
            },
            Instruction::AddImmediate(v) => {
                let m = low_byte(v);
                proof {
                    lemma_add_mod_noop(g, v as int, 256);
                    g = g + v;
                }
                a = (a + m) % 256;
            },
            Instruction::SubtractImmediate(v) => {
                let m = low_byte(v);
                proof {
                    lemma_sub_mod_noop(g, v as int, 256);
                    lemma_mod_add_multiples_vanish(a - m, 256);
                    g = g - v;
                }
                a = (a + 256 - m) % 256;
            },
            Instruction::Return => {
                return Some(a as u8);
            },
        }
        i = i + 1;
    }
    assert(instrs@.skip(i as int) =~= Seq::<Instruction>::empty());
    None
}

} // verus!
