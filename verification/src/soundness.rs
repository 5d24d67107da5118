//! What a sound program cannot do on the machine: whatever else happens,
//! it never names a register the machine lacks, jumps out of its code,
//! loads a string it does not have, or runs an instruction that only the
//! linker understands. The code generator and the linker together produce
//! only such programs (see `law_link_sound` and `compile_module`).
use vstd::prelude::*;
use crate::bytecode::{Instruction, Opcode, Program};
use crate::codegen::{MAX_CODE_LEN, instr_ok, is_break, is_continue};
use crate::linker::{linked_ok, program_ok};
use crate::vm::{
    NR_OF_REGISTERS, RuntimeError, Status, VmModel, code_of, exec_instr, initial_model, run_steps,
    step,
};

verus! {

/// The failures that come of malformed code rather than of the values a
/// program computes.
pub open spec fn misuse(st: Status) -> bool {
    ||| st == Status::Failed(RuntimeError::BadRegister)
    ||| st == Status::Failed(RuntimeError::BadJump)
    ||| st == Status::Failed(RuntimeError::BadString)
    ||| st == Status::Failed(RuntimeError::Unlinked)
}

/// The machine's register file, and every saved one, has all registers,
/// and the machine has not stopped on a misuse.
pub open spec fn state_ok(s: VmModel) -> bool {
    &&& s.regs.len() == NR_OF_REGISTERS
    &&& forall|i: int| 0 <= i < s.frames.len() ==> (#[trigger] s.frames[i]).regs.len() == NR_OF_REGISTERS
    &&& !misuse(s.status)
}

proof fn lemma_code_of_ok(p: Program, func: nat)
    requires
        program_ok(p),
    ensures
        linked_ok(code_of(&p, func), p.strings@.len()),
{
    if func != 0 && func < p.functions@.len() {
        assert(linked_ok(p.functions@[func as int].code_block@, p.strings@.len()));
    }
}

proof fn lemma_exec_ok(s: VmModel, ins: Instruction, p: Program)
    requires
        program_ok(p),
        state_ok(s),
        s.status == Status::Running,
        s.ip < code_of(&p, s.func).len(),
        instr_ok(ins, s.ip as int, code_of(&p, s.func).len(), (p.strings@.len(), 0nat, 0nat)),
        !is_break(ins),
        !is_continue(ins),
        code_of(&p, s.func).len() <= MAX_CODE_LEN,
    ensures
        state_ok(exec_instr(s, ins, &p)),
{
    let r = exec_instr(s, ins, &p);
    match ins.opcode {
        Opcode::Call => {
            let idx = s.regs[ins.op0 as int];
            if idx >= 2 && idx < p.functions@.len() {
                assert forall|i: int| 0 <= i < r.frames.len() implies (#[trigger] r.frames[i]).regs.len()
                    == NR_OF_REGISTERS by {
                    if i < s.frames.len() {
                        assert(r.frames[i] == s.frames[i]);
                    }
                }
            }
        },
        Opcode::Return => {
            if s.frames.len() > 0 {
                assert forall|i: int| 0 <= i < r.frames.len() implies (#[trigger] r.frames[i]).regs.len()
                    == NR_OF_REGISTERS by {
                    assert(r.frames[i] == s.frames[i]);
                }
                assert(s.frames[s.frames.len() - 1].regs.len() == NR_OF_REGISTERS);
            }
        },
        _ => {},
    }
}

/// One step keeps [`state_ok`].
pub proof fn lemma_step_ok(s: VmModel, p: Program)
    requires
        program_ok(p),
        state_ok(s),
    ensures
        state_ok(step(s, &p)),
{
    if s.status == Status::Running {
        let code = code_of(&p, s.func);
        lemma_code_of_ok(p, s.func);
        if s.ip >= code.len() {
            if s.frames.len() > 0 {
                let r = step(s, &p);
                assert forall|i: int| 0 <= i < r.frames.len() implies (#[trigger] r.frames[i]).regs.len()
                    == NR_OF_REGISTERS by {
                    assert(r.frames[i] == s.frames[i]);
                }
                assert(s.frames[s.frames.len() - 1].regs.len() == NR_OF_REGISTERS);
            }
        } else {
            let ins = code[s.ip as int];
            assert(instr_ok(ins, s.ip as int, code.len() + 0, (p.strings@.len(), 0nat, 0nat)));
            assert(!is_break(ins) && !is_continue(ins));
            lemma_exec_ok(s, ins, p);
        }
    }
}

proof fn lemma_run_ok(s: VmModel, p: Program, fuel: nat)
    requires
        program_ok(p),
        state_ok(s),
    ensures
        state_ok(run_steps(s, &p, fuel)),
    decreases fuel,
{
    if fuel > 0 && s.status == Status::Running {
        lemma_step_ok(s, p);
        lemma_run_ok(step(s, &p), p, (fuel - 1) as nat);
    }
}

/// A sound program never stops on a misuse: however long it runs, from a
/// fresh machine of any heap size, it does not fail for a missing
/// register, a jump out of its code, a missing string or an unlinked
/// instruction.
pub proof fn law_sound_program_never_misuses(p: Program, capacity: nat, fuel: nat)
    requires
        program_ok(p),
    ensures
        !misuse(run_steps(initial_model(capacity), &p, fuel).status),
{
    let s0 = initial_model(capacity);
    assert(s0.regs.len() == NR_OF_REGISTERS);
    lemma_run_ok(s0, p, fuel);
}

} // verus!
