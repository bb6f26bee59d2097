//! Course plotting: `up`, `down` and `forward` commands move the submarine.
//! In the first reading up and down change depth directly; in the second
//! they steer the aim, and moving forward dives by aim times the distance.

use crate::bytes;
use vstd::prelude::*;

verus! {

pub enum Instruction {
    Up(i32),
    Down(i32),
    Forward(i32),
}

/// The word before the number decides the command.
pub open spec fn up_word() -> Seq<u8> {
    seq![117u8, 112u8]
}

pub open spec fn down_word() -> Seq<u8> {
    seq![100u8, 111u8, 119u8, 110u8]
}

pub open spec fn forward_word() -> Seq<u8> {
    seq![102u8, 111u8, 114u8, 119u8, 97u8, 114u8, 100u8]
}

/// The instruction a `word amount` line encodes, if it is well formed.
pub open spec fn instruction_of(line: Seq<u8>) -> Option<Instruction> {
    let toks = bytes::split_spec(line, 32);
    if toks.len() < 2 || !bytes::is_signed_digits(toks[1]) || bytes::signed_val(toks[1])
        > i32::MAX || bytes::signed_val(toks[1]) < i32::MIN {
        None
    } else if toks[0] == up_word() {
        Some(Instruction::Up(bytes::signed_val(toks[1]) as i32))
    } else if toks[0] == down_word() {
        Some(Instruction::Down(bytes::signed_val(toks[1]) as i32))
    } else if toks[0] == forward_word() {
        Some(Instruction::Forward(bytes::signed_val(toks[1]) as i32))
    } else {
        None
    }
}

/// Depth and position after the first `n` instructions, read directly.
pub open spec fn course(ins: Seq<Instruction>, n: int) -> (int, int)
    decreases n,
{
    if n <= 0 {
        (0, 0)
    } else {
        let p = course(ins, n - 1);
        match ins[n - 1] {
            Instruction::Up(x) => (p.0 - x, p.1),
            Instruction::Down(x) => (p.0 + x, p.1),
            Instruction::Forward(x) => (p.0, p.1 + x),
        }
    }
}

/// Depth, position and aim after the first `n` instructions, up and down
/// steering the aim.
pub open spec fn aimed_course(ins: Seq<Instruction>, n: int) -> (int, int, int)
    decreases n,
{
    if n <= 0 {
        (0, 0, 0)
    } else {
        let p = aimed_course(ins, n - 1);
        match ins[n - 1] {
            Instruction::Up(x) => (p.0, p.1, p.2 - x),
            Instruction::Down(x) => (p.0, p.1, p.2 + x),
            Instruction::Forward(x) => (p.0 + p.2 * x, p.1 + x, p.2),
        }
    }
}

impl Instruction {
    /// Reads one `word amount` line; fails exactly when the line is not a
    /// known command word followed by a number that fits.
    pub fn from_string(string: &[u8]) -> (r: Option<Instruction>)
        ensures
            r == instruction_of(string@),
    {
        let toks = bytes::split_bytes(string, 32);
        if toks.len() < 2 {
            return None;
        }
        proof {
            assert(toks.deep_view()[0] == toks@[0]@);
            assert(toks.deep_view()[1] == toks@[1]@);
        }
        let word = &toks[0];
        let number = match bytes::parse_i32(toks[1].as_slice()) {
            Some(v) => v,
            None => { return None },
        };
        let w = word.as_slice();
        if w.len() == 2 && w[0] == 117 && w[1] == 112 {
            proof {
                assert(w@ =~= up_word());
            }
            Some(Instruction::Up(number))
        } else if w.len() == 4 && w[0] == 100 && w[1] == 111 && w[2] == 119 && w[3] == 110 {
            proof {
                assert(w@ =~= down_word());
            }
            Some(Instruction::Down(number))
        } else if w.len() == 7 && w[0] == 102 && w[1] == 111 && w[2] == 114 && w[3] == 119 && w[4]
            == 97 && w[5] == 114 && w[6] == 100 {
            proof {
                assert(w@ =~= forward_word());
            }
            Some(Instruction::Forward(number))
        } else {
            proof {
                if w@ == up_word() {
                    assert(w@.len() == 2 && w@[0] == 117 && w@[1] == 112);
                }
                if w@ == down_word() {
                    assert(w@.len() == 4 && w@[0] == 100 && w@[1] == 111 && w@[2] == 119 && w@[3]
                        == 110);
                }
                if w@ == forward_word() {
                    assert(w@.len() == 7 && w@[0] == 102 && w@[1] == 111 && w@[2] == 114 && w@[3]
                        == 119 && w@[4] == 97 && w@[5] == 114 && w@[6] == 100);
                }
            }
            None
        }
    }
}

/// Depth and position after following the instructions directly.
pub fn part_one(instructions: &Vec<Instruction>) -> (r: (i32, i32))
    requires
        forall|n: int|
            0 <= n <= instructions@.len() ==> i32::MIN <= (#[trigger] course(
                instructions@,
                n,
            )).0 <= i32::MAX && i32::MIN <= course(instructions@, n).1 <= i32::MAX,
    ensures
        (r.0 as int, r.1 as int) == course(instructions@, instructions@.len() as int),
{
    let mut depth: i32 = 0;
    let mut position: i32 = 0;
    let mut i: usize = 0;
    while i < instructions.len()
        invariant
            i <= instructions@.len(),
            forall|n: int|
                0 <= n <= instructions@.len() ==> i32::MIN <= (#[trigger] course(
                    instructions@,
                    n,
                )).0 <= i32::MAX && i32::MIN <= course(instructions@, n).1 <= i32::MAX,
            depth as int == course(instructions@, i as int).0,
            position as int == course(instructions@, i as int).1,
        decreases instructions@.len() - i,
    {
        proof {
            assert(course(instructions@, i + 1) == course(instructions@, i + 1));
        }
        match instructions[i] {
            Instruction::Up(x) => {
                depth = depth - x;
            },
            Instruction::Down(x) => {
                depth = depth + x;
            },
            Instruction::Forward(x) => {
                position = position + x;
            },
        }
        i = i + 1;
    }
    (depth, position)
}

/// Depth and position after following the instructions with up and down
/// steering the aim.
pub fn part_two(instructions: &Vec<Instruction>) -> (r: (i32, i32))
    requires
        forall|n: int|
            0 <= n <= instructions@.len() ==> i32::MIN <= (#[trigger] aimed_course(
                instructions@,
                n,
            )).0 <= i32::MAX && i32::MIN <= aimed_course(instructions@, n).1 <= i32::MAX
                && i32::MIN <= aimed_course(instructions@, n).2 <= i32::MAX,
    ensures
        (r.0 as int, r.1 as int) == (
            aimed_course(instructions@, instructions@.len() as int).0,
            aimed_course(instructions@, instructions@.len() as int).1,
        ),
{
    let mut depth: i32 = 0;
    let mut position: i32 = 0;
    let mut aim: i32 = 0;
    let mut i: usize = 0;
    while i < instructions.len()
        invariant
            i <= instructions@.len(),
            forall|n: int|
                0 <= n <= instructions@.len() ==> i32::MIN <= (#[trigger] aimed_course(
                    instructions@,
                    n,
                )).0 <= i32::MAX && i32::MIN <= aimed_course(instructions@, n).1 <= i32::MAX
                    && i32::MIN <= aimed_course(instructions@, n).2 <= i32::MAX,
            depth as int == aimed_course(instructions@, i as int).0,
            position as int == aimed_course(instructions@, i as int).1,
            aim as int == aimed_course(instructions@, i as int).2,
        decreases instructions@.len() - i,
    {
        match instructions[i] {
            Instruction::Up(x) => {
                proof {
                    assert(aimed_course(instructions@, i + 1).2 == aim as int - x as int);
                }
                aim = aim - x;
            },
            Instruction::Down(x) => {
                proof {
                    assert(aimed_course(instructions@, i + 1).2 == aim as int + x as int);
                }
                aim = aim + x;
            },
            Instruction::Forward(x) => {
                proof {
                    assert(aimed_course(instructions@, i + 1).0 == aimed_course(
                        instructions@,
                        i as int,
                    ).0 + aim as int * x as int);
                    assert(-0x4000_0000_0000_0000 <= (aim as int) * (x as int)
                        && (aim as int) * (x as int) <= 0x4000_0000_0000_0000) by (nonlinear_arith)
                        requires
                            -0x8000_0000 <= aim as int <= 0x7fff_ffff,
                            -0x8000_0000 <= x as int <= 0x7fff_ffff,
                    ;
                }
                let product: i64 = aim as i64 * x as i64;
                depth = (depth as i64 + product) as i32;
                position = position + x;
            },
        }
        i = i + 1;
    }
    (depth, position)
}

} // verus!
