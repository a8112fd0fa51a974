//! Entry stubs: how a program is entered, and how `main`'s outcome becomes the
//! process exit code.

use crate::bytecode::{BytecodeFunction, BytecodeModule};
use crate::image::LoweredNativeFunction;
use crate::assembler::{
    assembled, law_assembled_size, law_code_sequencing_neutral, Code, CodeBuffer,
};
use crate::mnemonics::{alu_d, alu_imm8, call, mov_d, set_d};
use crate::symbols::Symbol;
use crate::x86::Alu::{Sub, Xor};
use crate::x86::Insn;
use crate::x86::Insn::{Int3, Syscall};
use crate::x86::Reg::{Rax, Rcx, Rdi, Rsp};
use vstd::prelude::*;

verus! {

/// What entry stub a program's object gets, and how that stub derives the process
/// exit code from `main`.
///
/// A stub emitter cannot read the exit code without first saying which `main` it has:
/// `rax` is undefined on return from a void function, and `main` is the one void
/// function whose "no value" is externally observable.
#[derive(Debug, Clone, Copy, PartialEq, Eq, Structural)]
pub enum EntryStub {
    /// No stub: a library object with no `main`, so no process-exit dependency is
    /// introduced.
    NoStub,
    /// `main` returns a value: its result is in `rax` and becomes the exit code.
    MainValue,
    /// `main` returns nothing: the stub must not read `rax`, and the process exits 0.
    MainVoid,
}

impl EntryStub {
    /// Whether an entry stub is emitted at all (both `main` shapes emit one).
    #[verifier::allow_in_spec]
    pub fn emits(self) -> bool
        returns
            (self != EntryStub::NoStub),
    {
        match self {
            EntryStub::NoStub => false,
            _ => true,
        }
    }

    /// The entry of a program, from the compiled functions and the module they come
    /// from. Only a compiled `main` gets a stub; the module says what it returns.
    pub fn classify(lowered: &[LoweredNativeFunction], module: &BytecodeModule) -> (stub: EntryStub)
        ensures
            stub == entry_of(lowered@, module.functions@),
    {
        let main = "main".to_owned();
        let mut compiled = false;
        let mut i: usize = 0;
        while i < lowered.len()
            invariant
                i <= lowered@.len(),
                main@ == "main"@,
                compiled == exists|k: int| 0 <= k < i && (#[trigger] lowered@[k]).name@ == "main"@,
            decreases lowered@.len() - i,
        {
            if lowered[i].name == main {
                compiled = true;
            }
            i += 1;
        }
        if !compiled {
            return EntryStub::NoStub;
        }
        let mut j: usize = 0;
        while j < module.functions.len()
            invariant
                j <= module.functions@.len(),
                main@ == "main"@,
                declared(module.functions@, "main"@, 0) == declared(
                    module.functions@,
                    "main"@,
                    j as int,
                ),
                defines(lowered@, "main"@),
            decreases module.functions@.len() - j,
        {
            if module.functions[j].name == main {
                return if module.functions[j].return_type.is_void() {
                    EntryStub::MainVoid
                } else {
                    EntryStub::MainValue
                };
            }
            j += 1;
        }
        EntryStub::MainValue
    }
}

/// Whether one of the compiled functions is called `name`.
pub open spec fn defines(lowered: Seq<LoweredNativeFunction>, name: Seq<char>) -> bool {
    exists|k: int| 0 <= k < lowered.len() && (#[trigger] lowered[k]).name@ == name
}

/// The first declaration of `name` from `i` on.
pub open spec fn declared(
    functions: Seq<BytecodeFunction>,
    name: Seq<char>,
    i: int,
) -> Option<BytecodeFunction>
    decreases functions.len() - i,
{
    if i >= functions.len() {
        None
    } else if functions[i].name@ == name {
        Some(functions[i])
    } else {
        declared(functions, name, i + 1)
    }
}

/// The entry of a program: none without a compiled `main`, else by what the declared
/// `main` returns. One that was compiled but never declared counts as returning a value.
pub open spec fn entry_of(
    lowered: Seq<LoweredNativeFunction>,
    functions: Seq<BytecodeFunction>,
) -> EntryStub {
    if !defines(lowered, "main"@) {
        EntryStub::NoStub
    } else {
        match declared(functions, "main"@, 0) {
            Some(function) => if function.return_type@ == "void"@ {
                EntryStub::MainVoid
            } else {
                EntryStub::MainValue
            },
            None => EntryStub::MainValue,
        }
    }
}

/// The Windows stub's exit-code setup: the `ExitProcess` argument in `ecx`, zero for a
/// void `main`, else `main`'s result.
pub open spec fn exit_code_into_ecx(stub: EntryStub) -> Insn {
    match stub {
        EntryStub::MainVoid => alu_d(Xor, Rcx, Rcx),
        _ => mov_d(Rcx, Rax),
    }
}

/// The Windows entry stub: reserve the shadow space, call `main`, set the exit code,
/// call `ExitProcess`, which does not return.
pub open spec fn windows_stub_program(stub: EntryStub) -> Seq<Insn> {
    if stub.emits() {
        seq![
            alu_imm8(Sub, Rsp, 40),
            call(Symbol::Main),
            exit_code_into_ecx(stub),
            call(Symbol::ExitProcess),
            Int3,
        ]
    } else {
        seq![]
    }
}

/// Appends the exit-code setup of the Windows stub.
pub fn emit_exit_code_into_ecx(program: &mut Vec<Insn>, stub: EntryStub)
    ensures
        final(program)@ == old(program)@.push(exit_code_into_ecx(stub)),
{
    match stub {
        EntryStub::MainVoid => program.push(alu_d(Xor, Rcx, Rcx)),
        _ => program.push(mov_d(Rcx, Rax)),
    }
}

/// The Windows entry stub.
pub fn windows_stub(stub: EntryStub) -> (code: CodeBuffer)
    ensures
        code@ == assembled(windows_stub_program(stub)),
{
    let mut program: Vec<Insn> = Vec::new();
    if stub.emits() {
        program.push(alu_imm8(Sub, Rsp, 40));
        program.push(call(Symbol::Main));
        emit_exit_code_into_ecx(&mut program, stub);
        program.push(call(Symbol::ExitProcess));
        program.push(Int3);
    }
    proof {
        assert(program@ =~= windows_stub_program(stub));
    }
    assemble_stub(&program)
}

/// The ELF entry-point symbol.
pub const ELF_ENTRY_SYMBOL: &'static str = "_start";

/// The Mach-O entry-point symbol.
pub const MACHO_ENTRY_SYMBOL: &'static str = "start";

/// The freestanding platform a non-Windows object targets: it selects the entry-point
/// symbol and the `exit` system call's number.
#[derive(Debug, Clone, Copy, PartialEq, Eq, Structural)]
pub enum PlatformAbi {
    /// Linux System V: `_start`, `exit` is system call 60.
    Linux,
    /// macOS: `start`, `exit` is system call 0x2000001.
    MacOs,
}

impl PlatformAbi {
    /// The entry-point symbol.
    pub open spec fn spec_entry_symbol(self) -> Seq<char> {
        match self {
            PlatformAbi::Linux => ELF_ENTRY_SYMBOL@,
            PlatformAbi::MacOs => MACHO_ENTRY_SYMBOL@,
        }
    }

    /// The entry-point symbol.
    pub fn entry_symbol(self) -> (name: &'static str)
        ensures
            name@ == self.spec_entry_symbol(),
    {
        match self {
            PlatformAbi::Linux => ELF_ENTRY_SYMBOL,
            PlatformAbi::MacOs => MACHO_ENTRY_SYMBOL,
        }
    }

    /// The number of the `exit` system call.
    #[verifier::allow_in_spec]
    pub fn exit_call(self) -> i32
        returns
            (match self {
                PlatformAbi::Linux => 60i32,
                PlatformAbi::MacOs => 0x200_0001i32,
            }),
    {
        match self {
            PlatformAbi::Linux => 60,
            PlatformAbi::MacOs => 0x200_0001,
        }
    }
}

/// The freestanding stub's exit-code setup: the system-call argument in `edi`, zero for
/// a void `main`, else `main`'s result.
pub open spec fn exit_code_into_edi(stub: EntryStub) -> Insn {
    match stub {
        EntryStub::MainVoid => alu_d(Xor, Rdi, Rdi),
        _ => mov_d(Rdi, Rax),
    }
}

/// The freestanding entry stub: reserve the shadow space, call `main`, set the exit
/// code, make the `exit` system call, which does not return.
pub open spec fn freestanding_stub_program(stub: EntryStub, abi: PlatformAbi) -> Seq<Insn> {
    if stub.emits() {
        seq![
            alu_imm8(Sub, Rsp, 32),
            call(Symbol::Main),
            exit_code_into_edi(stub),
            set_d(Rax, abi.exit_call()),
            Syscall,
            Int3,
        ]
    } else {
        seq![]
    }
}

/// The freestanding entry stub.
pub fn freestanding_stub(stub: EntryStub, abi: PlatformAbi) -> (code: CodeBuffer)
    ensures
        code@ == assembled(freestanding_stub_program(stub, abi)),
{
    let mut program: Vec<Insn> = Vec::new();
    if stub.emits() {
        program.push(alu_imm8(Sub, Rsp, 32));
        program.push(call(Symbol::Main));
        match stub {
            EntryStub::MainVoid => program.push(alu_d(Xor, Rdi, Rdi)),
            _ => program.push(mov_d(Rdi, Rax)),
        }
        program.push(set_d(Rax, abi.exit_call()));
        program.push(Syscall);
        program.push(Int3);
    }
    proof {
        assert(program@ =~= freestanding_stub_program(stub, abi));
    }
    assemble_stub(&program)
}

fn assemble_stub(program: &Vec<Insn>) -> (code: CodeBuffer)
    requires
        program@.len() <= 16,
    ensures
        code@ == assembled(program@),
{
    proof {
        law_assembled_size(program@);
        law_code_sequencing_neutral(assembled(program@));
    }
    let mut code = CodeBuffer::new();
    code.append_program(program);
    code
}

/// Without a `main` there is no stub, so nothing refers to the process-exit routine.
pub proof fn law_library_has_no_stub(abi: PlatformAbi)
    ensures
        assembled(windows_stub_program(EntryStub::NoStub)) == Code::empty(),
        assembled(freestanding_stub_program(EntryStub::NoStub, abi)) == Code::empty(),
{
    reveal(assembled);
    assert(assembled(windows_stub_program(EntryStub::NoStub)) =~= Code::empty());
    assert(assembled(freestanding_stub_program(EntryStub::NoStub, abi)) =~= Code::empty());
}

/// Whether an instruction copies `eax` somewhere.
pub open spec fn copies_eax(insn: Insn) -> bool {
    insn matches Insn::Mov { reg, .. } && reg == Rax
}

/// No stub reads `eax` after a void `main`.
pub proof fn law_void_main_result_is_never_read(abi: PlatformAbi, i: int)
    ensures
        0 <= i < windows_stub_program(EntryStub::MainVoid).len() ==> !copies_eax(
            windows_stub_program(EntryStub::MainVoid)[i],
        ),
        0 <= i < freestanding_stub_program(EntryStub::MainVoid, abi).len() ==> !copies_eax(
            freestanding_stub_program(EntryStub::MainVoid, abi)[i],
        ),
{
}

/// The first declaration of `main` decides the entry of a program with a compiled `main`,
/// whatever is declared after it: its result is the exit code unless it returns nothing.
pub proof fn law_first_main_decides(
    lowered: Seq<LoweredNativeFunction>,
    functions: Seq<BytecodeFunction>,
    k: int,
)
    requires
        defines(lowered, "main"@),
        0 <= k < functions.len(),
        functions[k].name@ == "main"@,
        forall|j: int| 0 <= j < k ==> (#[trigger] functions[j]).name@ != "main"@,
    ensures
        entry_of(lowered, functions).emits(),
        entry_of(lowered, functions) == EntryStub::MainVoid <==> functions[k].return_type@
            == "void"@,
{
    lemma_declared(functions, k, 0);
}

proof fn lemma_declared(functions: Seq<BytecodeFunction>, k: int, i: int)
    requires
        0 <= i <= k < functions.len(),
        functions[k].name@ == "main"@,
        forall|j: int| 0 <= j < k ==> (#[trigger] functions[j]).name@ != "main"@,
    ensures
        declared(functions, "main"@, i) == Some(functions[k]),
    decreases k - i,
{
    if i < k {
        lemma_declared(functions, k, i + 1);
    }
}

/// Without a compiled `main` there is no entry.
pub proof fn law_no_main_no_entry(
    lowered: Seq<LoweredNativeFunction>,
    functions: Seq<BytecodeFunction>,
)
    requires
        forall|k: int| 0 <= k < lowered.len() ==> (#[trigger] lowered[k]).name@ != "main"@,
    ensures
        !entry_of(lowered, functions).emits(),
{
}

} // verus!
