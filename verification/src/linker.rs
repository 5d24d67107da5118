//! The linker: compiled modules into one program.
//!
//! Function table entries 0 and 1 are the built-in `println` and `print`;
//! each module's functions follow in module order, and its strings follow
//! the earlier modules' strings. References to local functions, to imports
//! and to strings are rewritten to those global positions. The main code
//! is that of the last module, which is the one that was run; the modules
//! it depends on come before it.
use vstd::prelude::*;
use crate::bytecode::{CompiledFunction, Instruction, Opcode, Program};
use crate::codegen::{
    CompiledModule, Counts, MAX_CODE_LEN, code_ok, instr_ok, is_break, is_continue, module_ok,
    settled,
};
use crate::symbols::bytes_equal;
use crate::token::copy_bytes;

verus! {

/// Why linking fails.
#[derive(Debug, PartialEq, Eq)]
pub enum LinkError {
    /// There is no module to run.
    NoModules,
    /// A module imports a name that no module of that path exports.
    UnresolvedImport { module: Vec<u8>, name: Vec<u8> },
    /// More functions or strings than an index can hold.
    TooLarge,
}

/// Where module `i`'s functions start in the function table.
pub open spec fn fn_base(mods: Seq<(Vec<u8>, CompiledModule)>, i: int) -> nat
    decreases i,
{
    if i <= 0 {
        2
    } else {
        fn_base(mods, i - 1) + mods[i - 1].1.functions@.len()
    }
}

/// Where module `i`'s strings start in the string table.
pub open spec fn str_base(mods: Seq<(Vec<u8>, CompiledModule)>, i: int) -> nat
    decreases i,
{
    if i <= 0 {
        0
    } else {
        str_base(mods, i - 1) + mods[i - 1].1.strings@.len()
    }
}

/// The last of the first `upto` modules whose path is `path`.
pub open spec fn last_module_with(mods: Seq<(Vec<u8>, CompiledModule)>, path: Seq<u8>, upto: int) -> Option<int>
    decreases upto,
{
    if upto <= 0 {
        None
    } else if mods[upto - 1].0@ == path {
        Some(upto - 1)
    } else {
        last_module_with(mods, path, upto - 1)
    }
}

/// The local function of the last of the first `upto` exports named `name`.
pub open spec fn last_export(ex: Seq<(Vec<u8>, usize)>, name: Seq<u8>, upto: int) -> Option<nat>
    decreases upto,
{
    if upto <= 0 {
        None
    } else if ex[upto - 1].0@ == name {
        Some(ex[upto - 1].1 as nat)
    } else {
        last_export(ex, name, upto - 1)
    }
}

/// The global function that `name` of module `path` stands for.
pub open spec fn resolve(mods: Seq<(Vec<u8>, CompiledModule)>, path: Seq<u8>, name: Seq<u8>) -> Option<nat> {
    match last_module_with(mods, path, mods.len() as int) {
        Some(m) => match last_export(mods[m].1.exports@, name, mods[m].1.exports@.len() as int) {
            Some(local) => Some(fn_base(mods, m) + local),
            None => None,
        },
        None => None,
    }
}

/// Whether every import of module `i` resolves.
pub open spec fn imports_resolve(mods: Seq<(Vec<u8>, CompiledModule)>, i: int) -> bool {
    forall|j: int|
        0 <= j < mods[i].1.imports@.len() ==> #[trigger] resolve(
            mods,
            mods[i].1.imports@[j].0@,
            mods[i].1.imports@[j].1@,
        ) is Some
}

/// The global functions that module `i`'s imports stand for.
pub open spec fn targets(mods: Seq<(Vec<u8>, CompiledModule)>, i: int) -> Seq<nat> {
    mods[i].1.imports@.map_values(
        |imp: (Vec<u8>, Vec<u8>)| resolve(mods, imp.0@, imp.1@).unwrap(),
    )
}

/// One instruction relocated: a local function or an import becomes the
/// constant of its global function, a string index moves by `sb`.
pub open spec fn patch_instr(ins: Instruction, fb: nat, sb: nat, t: Seq<nat>) -> Instruction {
    match ins.opcode {
        Opcode::LoadLocalFn => Instruction { opcode: Opcode::MovConst, op1: (fb + ins.op1) as u64, ..ins },
        Opcode::LoadImport => Instruction { opcode: Opcode::MovConst, op1: t[ins.op1 as int] as u64, ..ins },
        Opcode::LoadString => Instruction { op1: (sb + ins.op1) as u64, ..ins },
        _ => ins,
    }
}

pub open spec fn patch_seq(code: Seq<Instruction>, fb: nat, sb: nat, t: Seq<nat>) -> Seq<Instruction> {
    code.map_values(|ins: Instruction| patch_instr(ins, fb, sb, t))
}

/// The program that linking `mods` gives: the function table, the
/// strings, and the last module's main code, each relocated.
pub open spec fn links_to(mods: Seq<(Vec<u8>, CompiledModule)>, p: Program) -> bool {
    let n = mods.len() as int;
    &&& n > 0
    &&& p.functions@.len() == fn_base(mods, n)
    &&& p.functions@[0].code_block@.len() == 0
    &&& p.functions@[1].code_block@.len() == 0
    &&& forall|i: int, f: int|
        0 <= i < n && 0 <= f < mods[i].1.functions@.len() ==> #[trigger] p.functions@[fn_base(mods, i) + f].code_block@
            == patch_seq(mods[i].1.functions@[f].code_block@, fn_base(mods, i), str_base(mods, i), targets(mods, i))
    &&& p.strings@.len() == str_base(mods, n)
    &&& forall|i: int, s: int|
        0 <= i < n && 0 <= s < mods[i].1.strings@.len() ==> #[trigger] p.strings@[str_base(mods, i) + s]@
            == mods[i].1.strings@[s]@
    &&& p.main@ == patch_seq(mods[n - 1].1.main@, fn_base(mods, n - 1), str_base(mods, n - 1), targets(mods, n - 1))
}

pub proof fn lemma_bases_grow(mods: Seq<(Vec<u8>, CompiledModule)>, i: int, j: int)
    requires
        0 <= i <= j <= mods.len(),
    ensures
        fn_base(mods, i) <= fn_base(mods, j),
        str_base(mods, i) <= str_base(mods, j),
        i < j ==> fn_base(mods, i) + mods[i].1.functions@.len() <= fn_base(mods, j),
        i < j ==> str_base(mods, i) + mods[i].1.strings@.len() <= str_base(mods, j),
    decreases j - i,
{
    if i < j {
        lemma_bases_grow(mods, i + 1, j);
    }
}

/// The last module of `mods` with path `path`.
fn find_module(mods: &Vec<(Vec<u8>, CompiledModule)>, path: &Vec<u8>) -> (r: Option<usize>)
    ensures
        match last_module_with(mods@, path@, mods@.len() as int) {
            Some(m) => r matches Some(x) && x as int == m,
            None => r is None,
        },
        r matches Some(m) ==> m < mods@.len(),
{
    let mut i = mods.len();
    while i > 0
        invariant
            i <= mods@.len(),
            last_module_with(mods@, path@, mods@.len() as int) == last_module_with(mods@, path@, i as int),
        decreases i,
    {
        if bytes_equal(mods[i - 1].0.as_slice(), path.as_slice()) {
            return Some(i - 1);
        }
        i = i - 1;
    }
    None
}

/// The local function of the last export named `name`.
fn find_export(ex: &Vec<(Vec<u8>, usize)>, name: &Vec<u8>) -> (r: Option<usize>)
    ensures
        match last_export(ex@, name@, ex@.len() as int) {
            Some(l) => r matches Some(x) && x as nat == l,
            None => r is None,
        },
{
    let mut i = ex.len();
    while i > 0
        invariant
            i <= ex@.len(),
            last_export(ex@, name@, ex@.len() as int) == last_export(ex@, name@, i as int),
        decreases i,
    {
        if bytes_equal(ex[i - 1].0.as_slice(), name.as_slice()) {
            return Some(ex[i - 1].1);
        }
        i = i - 1;
    }
    None
}

/// `code` relocated by [`patch_instr`].
pub fn patch_code(code: &Vec<Instruction>, fn_base: u64, str_base: u64, targets: &Vec<u64>) -> (r: Vec<Instruction>)
    requires
        forall|j: int|
            0 <= j < code@.len() ==> {
                &&& (#[trigger] code@[j]).opcode == Opcode::LoadImport ==> code@[j].op1 < targets@.len()
                &&& code@[j].opcode == Opcode::LoadLocalFn ==> fn_base + code@[j].op1 <= u64::MAX
                &&& code@[j].opcode == Opcode::LoadString ==> str_base + code@[j].op1 <= u64::MAX
            },
    ensures
        r@ == patch_seq(code@, fn_base as nat, str_base as nat, targets@.map_values(|t: u64| t as nat)),
{
    let ghost t = targets@.map_values(|t: u64| t as nat);
    let mut out: Vec<Instruction> = Vec::new();
    let mut j: usize = 0;
    while j < code.len()
        invariant
            j <= code@.len(),
            out@ == patch_seq(code@.take(j as int), fn_base as nat, str_base as nat, t),
            t == targets@.map_values(|t: u64| t as nat),
            forall|q: int|
                0 <= q < code@.len() ==> {
                    &&& (#[trigger] code@[q]).opcode == Opcode::LoadImport ==> code@[q].op1 < targets@.len()
                    &&& code@[q].opcode == Opcode::LoadLocalFn ==> fn_base + code@[q].op1 <= u64::MAX
                    &&& code@[q].opcode == Opcode::LoadString ==> str_base + code@[q].op1 <= u64::MAX
                },
        decreases code@.len() - j,
    {
        let ins = code[j];
        assert(code@[j as int] == ins);
        assert(ins.opcode == Opcode::LoadImport ==> ins.op1 < targets@.len());
        let patched = match ins.opcode {
            Opcode::LoadLocalFn => Instruction::new(Opcode::MovConst, ins.op0, fn_base + ins.op1, ins.op2),
            Opcode::LoadImport => {
                let n = targets.len();
                assert(ins.op1 < n);
                let idx = ins.op1 as usize;
                assert(idx as int == ins.op1 as int);
                assert(t[idx as int] == targets@[idx as int] as nat);
                Instruction::new(Opcode::MovConst, ins.op0, targets[idx], ins.op2)
            },
            Opcode::LoadString => Instruction::new(Opcode::LoadString, ins.op0, str_base + ins.op1, ins.op2),
            _ => ins,
        };
        assert(patched == patch_instr(ins, fn_base as nat, str_base as nat, t));
        out.push(patched);
        assert(code@.take(j + 1) =~= code@.take(j as int).push(ins));
        assert(out@ =~= patch_seq(code@.take(j + 1), fn_base as nat, str_base as nat, t));
        j = j + 1;
    }
    assert(code@.take(j as int) =~= code@);
    out
}

/// The global functions of module `i`'s imports, or the first import that
/// does not resolve.
fn resolve_imports(mods: &Vec<(Vec<u8>, CompiledModule)>, i: usize, bases: &Vec<u64>) -> (r: Result<Vec<u64>, LinkError>)
    requires
        i < mods@.len(),
        bases@.len() == mods@.len(),
        forall|m: int| 0 <= m < mods@.len() ==> #[trigger] bases@[m] == fn_base(mods@, m),
        fn_base(mods@, mods@.len() as int) <= u64::MAX,
        forall|m: int| 0 <= m < mods@.len() ==> refs_ok(#[trigger] mods@[m].1),
    ensures
        r is Ok <==> imports_resolve(mods@, i as int),
        r matches Ok(t) ==> t@.map_values(|x: u64| x as nat) == targets(mods@, i as int),
        r matches Err(e) ==> e is UnresolvedImport,
{
    let imports = &mods[i].1.imports;
    let mut out: Vec<u64> = Vec::new();
    let mut j: usize = 0;
    while j < imports.len()
        invariant
            i < mods@.len(),
            j <= imports@.len(),
            imports == mods@[i as int].1.imports,
            out@.len() == j,
            forall|q: int| 0 <= q < j ==> #[trigger] resolve(mods@, imports@[q].0@, imports@[q].1@) == Some(out@[q] as nat),
            bases@.len() == mods@.len(),
            forall|m: int| 0 <= m < mods@.len() ==> #[trigger] bases@[m] == fn_base(mods@, m),
            fn_base(mods@, mods@.len() as int) <= u64::MAX,
            forall|m: int| 0 <= m < mods@.len() ==> refs_ok(#[trigger] mods@[m].1),
        decreases imports@.len() - j,
    {
        let path = &imports[j].0;
        let name = &imports[j].1;
        let m = match find_module(mods, path) {
            Some(m) => m,
            None => {
                assert(resolve(mods@, imports@[j as int].0@, imports@[j as int].1@) is None);
                return Err(LinkError::UnresolvedImport { module: copy_bytes(path), name: copy_bytes(name) });
            },
        };
        let local = match find_export(&mods[m].1.exports, name) {
            Some(l) => l,
            None => {
                assert(resolve(mods@, imports@[j as int].0@, imports@[j as int].1@) is None);
                return Err(LinkError::UnresolvedImport { module: copy_bytes(path), name: copy_bytes(name) });
            },
        };
        proof {
            let ex = mods@[m as int].1.exports@;
            assert(refs_ok(mods@[m as int].1));
            lemma_last_export_in(ex, name@, ex.len() as int);
            lemma_bases_grow(mods@, m as int, mods@.len() as int);
            assert(bases@[m as int] == fn_base(mods@, m as int));
        }
        out.push(bases[m] + local as u64);
        proof {
            assert(path@ == imports@[j as int].0@);
            assert(name@ == imports@[j as int].1@);
            assert(last_module_with(mods@, path@, mods@.len() as int) == Some(m as int));
            assert(last_export(mods@[m as int].1.exports@, name@, mods@[m as int].1.exports@.len() as int) == Some(local as nat));
            assert(resolve(mods@, imports@[j as int].0@, imports@[j as int].1@) == Some(out@[j as int] as nat));
        }
        j = j + 1;
    }
    proof {
        assert(out@.map_values(|x: u64| x as nat) =~= targets(mods@, i as int));
    }
    Ok(out)
}

proof fn lemma_last_export_in(ex: Seq<(Vec<u8>, usize)>, name: Seq<u8>, upto: int)
    requires
        0 <= upto <= ex.len(),
    ensures
        last_export(ex, name, upto) matches Some(l) ==> exists|q: int| 0 <= q < upto && ex[q].1 == l,
    decreases upto,
{
    if upto > 0 {
        lemma_last_export_in(ex, name, upto - 1);
    }
}


/// The function and string tables of `mods` fit in a machine index.
pub open spec fn fits(mods: Seq<(Vec<u8>, CompiledModule)>) -> bool {
    &&& fn_base(mods, mods.len() as int) <= usize::MAX
    &&& str_base(mods, mods.len() as int) <= usize::MAX
}

/// Every instruction of `code` that names a string, a local function or an
/// import names one of the first `k` of them.
pub open spec fn refs_ok_code(code: Seq<Instruction>, k: Counts) -> bool {
    forall|j: int|
        0 <= j < code.len() ==> {
            &&& (#[trigger] code[j]).opcode == Opcode::LoadString ==> code[j].op1 < k.0
            &&& code[j].opcode == Opcode::LoadLocalFn ==> code[j].op1 < k.1
            &&& code[j].opcode == Opcode::LoadImport ==> code[j].op1 < k.2
        }
}

/// What linking needs of a module: its code names only strings, local
/// functions and imports that the module has, and each export stands for
/// one of its functions. Relocation looks an import up in the module's
/// import table, and moves a string or function index by the module's base,
/// so an index beyond the module's tables has no meaning.
pub open spec fn refs_ok(cm: CompiledModule) -> bool {
    let k = (cm.strings@.len(), cm.functions@.len(), cm.imports@.len());
    &&& refs_ok_code(cm.main@, k)
    &&& forall|f: int| 0 <= f < cm.functions@.len() ==> refs_ok_code(#[trigger] cm.functions@[f].code_block@, k)
    &&& forall|i: int| 0 <= i < cm.exports@.len() ==> #[trigger] cm.exports@[i].1 < cm.functions@.len()
}

/// A sound module names only what it has.
pub proof fn lemma_module_refs(cm: CompiledModule)
    requires
        module_ok(cm),
    ensures
        refs_ok(cm),
{
    let k = (cm.strings@.len(), cm.functions@.len(), cm.imports@.len());
    assert forall|j: int| 0 <= j < cm.main@.len() implies {
        &&& (#[trigger] cm.main@[j]).opcode == Opcode::LoadString ==> cm.main@[j].op1 < k.0
        &&& cm.main@[j].opcode == Opcode::LoadLocalFn ==> cm.main@[j].op1 < k.1
        &&& cm.main@[j].opcode == Opcode::LoadImport ==> cm.main@[j].op1 < k.2
    } by {
        assert(instr_ok(cm.main@[j], j, cm.main@.len() + 0, k));
    }
    assert forall|f: int| 0 <= f < cm.functions@.len() implies refs_ok_code(#[trigger] cm.functions@[f].code_block@, k) by {
        let c = cm.functions@[f].code_block@;
        assert(code_ok(c, k));
        assert forall|j: int| 0 <= j < c.len() implies {
            &&& (#[trigger] c[j]).opcode == Opcode::LoadString ==> c[j].op1 < k.0
            &&& c[j].opcode == Opcode::LoadLocalFn ==> c[j].op1 < k.1
            &&& c[j].opcode == Opcode::LoadImport ==> c[j].op1 < k.2
        } by {
            assert(instr_ok(c[j], j, c.len() + 0, k));
        }
    }
}

/// Code that names only what its module has can be relocated: its imports
/// have targets, and its relocated indices fit.
proof fn lemma_patchable(code: Seq<Instruction>, k: Counts, fb: nat, sb: nat, nt: nat)
    requires
        refs_ok_code(code, k),
        fb + k.1 <= u64::MAX,
        sb + k.0 <= u64::MAX,
        k.2 <= nt,
    ensures
        forall|j: int|
            0 <= j < code.len() ==> {
                &&& (#[trigger] code[j]).opcode == Opcode::LoadImport ==> code[j].op1 < nt
                &&& code[j].opcode == Opcode::LoadLocalFn ==> fb + code[j].op1 <= u64::MAX
                &&& code[j].opcode == Opcode::LoadString ==> sb + code[j].op1 <= u64::MAX
            },
{
    assert forall|j: int| 0 <= j < code.len() implies {
        &&& (#[trigger] code[j]).opcode == Opcode::LoadImport ==> code[j].op1 < nt
        &&& code[j].opcode == Opcode::LoadLocalFn ==> fb + code[j].op1 <= u64::MAX
        &&& code[j].opcode == Opcode::LoadString ==> sb + code[j].op1 <= u64::MAX
    } by {
    }
}

/// Links `modules`, the modules a program depends on first and the
/// program itself last (see [`links_to`]). It fails with `NoModules`
/// when there is none, with `TooLarge` when the tables would not fit, and
/// with `UnresolvedImport` when some import names no export.
pub fn link(modules: Vec<(Vec<u8>, CompiledModule)>) -> (r: Result<Program, LinkError>)
    requires
        forall|m: int| 0 <= m < modules@.len() ==> refs_ok(#[trigger] modules@[m].1),
    ensures
        modules@.len() == 0 ==> r matches Err(LinkError::NoModules),
        modules@.len() > 0 && !fits(modules@) ==> r matches Err(LinkError::TooLarge),
        modules@.len() > 0 && fits(modules@) ==> (r is Ok <==> forall|i: int|
            0 <= i < modules@.len() ==> #[trigger] imports_resolve(modules@, i)),
        modules@.len() > 0 && fits(modules@) && r is Err ==> r matches Err(LinkError::UnresolvedImport { .. }),
        r matches Ok(p) ==> links_to(modules@, p),
{
    let ghost mods = modules@;
    let n = modules.len();
    if n == 0 {
        return Err(LinkError::NoModules);
    }
    let mut fn_bases: Vec<u64> = Vec::new();
    let mut str_bases: Vec<u64> = Vec::new();
    let mut fn_cursor: usize = 2;
    let mut str_cursor: usize = 0;
    let mut i: usize = 0;
    while i < n
        invariant
            n == mods.len(),
            modules@ == mods,
            i <= n,
            fn_bases@.len() == i,
            str_bases@.len() == i,
            fn_cursor == fn_base(mods, i as int),
            str_cursor == str_base(mods, i as int),
            forall|m: int| 0 <= m < i ==> #[trigger] fn_bases@[m] == fn_base(mods, m),
            forall|m: int| 0 <= m < i ==> #[trigger] str_bases@[m] == str_base(mods, m),
        decreases n - i,
    {
        let nf = modules[i].1.functions.len();
        let ns = modules[i].1.strings.len();
        if nf > usize::MAX - fn_cursor || ns > usize::MAX - str_cursor {
            proof {
                lemma_bases_grow(mods, i + 1, n as int);
            }
            return Err(LinkError::TooLarge);
        }
        fn_bases.push(fn_cursor as u64);
        str_bases.push(str_cursor as u64);
        fn_cursor = fn_cursor + nf;
        str_cursor = str_cursor + ns;
        i = i + 1;
    }
    let mut all_targets: Vec<Vec<u64>> = Vec::new();
    let mut i: usize = 0;
    while i < n
        invariant
            n == mods.len(),
            modules@ == mods,
            i <= n,
            fn_bases@.len() == n,
            forall|m: int| 0 <= m < n ==> #[trigger] fn_bases@[m] == fn_base(mods, m),
            fn_base(mods, n as int) <= usize::MAX,
            fits(mods),
            forall|m: int| 0 <= m < mods.len() ==> refs_ok(#[trigger] mods[m].1),
            all_targets@.len() == i,
            forall|m: int| 0 <= m < i ==> imports_resolve(mods, m),
            forall|m: int|
                0 <= m < i ==> (#[trigger] all_targets@[m])@.map_values(|x: u64| x as nat) == targets(mods, m),
        decreases n - i,
    {
        let t = match resolve_imports(&modules, i, &fn_bases) {
            Ok(t) => t,
            Err(e) => return Err(e),
        };
        all_targets.push(t);
        i = i + 1;
    }
    let mut functions: Vec<CompiledFunction> = Vec::new();
    functions.push(CompiledFunction { code_block: Vec::new() });
    functions.push(CompiledFunction { code_block: Vec::new() });
    let mut strings: Vec<Vec<u8>> = Vec::new();
    let mut i: usize = 0;
    while i < n
        invariant
            n == mods.len(),
            modules@ == mods,
            i <= n,
            fn_bases@.len() == n,
            str_bases@.len() == n,
            forall|m: int| 0 <= m < n ==> #[trigger] fn_bases@[m] == fn_base(mods, m),
            forall|m: int| 0 <= m < n ==> #[trigger] str_bases@[m] == str_base(mods, m),
            fn_base(mods, n as int) <= usize::MAX,
            str_base(mods, n as int) <= usize::MAX,
            forall|m: int| 0 <= m < mods.len() ==> refs_ok(#[trigger] mods[m].1),
            all_targets@.len() == n,
            forall|m: int|
                0 <= m < n ==> (#[trigger] all_targets@[m])@.map_values(|x: u64| x as nat) == targets(mods, m),
            forall|m: int| 0 <= m < n ==> (#[trigger] all_targets@[m])@.len() == mods[m].1.imports@.len(),
            functions@.len() == fn_base(mods, i as int),
            functions@[0].code_block@.len() == 0,
            functions@[1].code_block@.len() == 0,
            forall|m: int, f: int|
                0 <= m < i && 0 <= f < mods[m].1.functions@.len() ==> #[trigger] functions@[fn_base(mods, m) + f].code_block@
                    == patch_seq(mods[m].1.functions@[f].code_block@, fn_base(mods, m), str_base(mods, m), targets(mods, m)),
            strings@.len() == str_base(mods, i as int),
            forall|m: int, q: int|
                0 <= m < i && 0 <= q < mods[m].1.strings@.len() ==> #[trigger] strings@[str_base(mods, m) + q]@
                    == mods[m].1.strings@[q]@,
        decreases n - i,
    {
        proof {
            lemma_bases_grow(mods, i as int, n as int);
            lemma_bases_grow(mods, i + 1, n as int);
        }
        let nf = modules[i].1.functions.len();
        let mut f: usize = 0;
        while f < nf
            invariant
                n == mods.len(),
                modules@ == mods,
                i < n,
                nf == mods[i as int].1.functions@.len(),
                f <= nf,
                fn_bases@.len() == n,
                str_bases@.len() == n,
                forall|m: int| 0 <= m < n ==> #[trigger] fn_bases@[m] == fn_base(mods, m),
                forall|m: int| 0 <= m < n ==> #[trigger] str_bases@[m] == str_base(mods, m),
                fn_base(mods, i as int) + nf <= fn_base(mods, n as int),
                str_base(mods, i as int) + mods[i as int].1.strings@.len() <= str_base(mods, n as int),
                fn_base(mods, n as int) <= usize::MAX,
                str_base(mods, n as int) <= usize::MAX,
                forall|m: int| 0 <= m < mods.len() ==> refs_ok(#[trigger] mods[m].1),
                all_targets@.len() == n,
                forall|m: int|
                    0 <= m < n ==> (#[trigger] all_targets@[m])@.map_values(|x: u64| x as nat) == targets(mods, m),
                forall|m: int| 0 <= m < n ==> (#[trigger] all_targets@[m])@.len() == mods[m].1.imports@.len(),
                functions@.len() == fn_base(mods, i as int) + f,
                functions@[0].code_block@.len() == 0,
                functions@[1].code_block@.len() == 0,
                forall|m: int, g: int|
                    0 <= m < i && 0 <= g < mods[m].1.functions@.len() ==> #[trigger] functions@[fn_base(mods, m) + g].code_block@
                        == patch_seq(mods[m].1.functions@[g].code_block@, fn_base(mods, m), str_base(mods, m), targets(mods, m)),
                forall|g: int|
                    0 <= g < f ==> #[trigger] functions@[fn_base(mods, i as int) + g].code_block@
                        == patch_seq(mods[i as int].1.functions@[g].code_block@, fn_base(mods, i as int), str_base(mods, i as int), targets(mods, i as int)),
            decreases nf - f,
        {
            let code = &modules[i].1.functions[f].code_block;
            proof {
                let cm = mods[i as int].1;
                assert(refs_ok(cm));
                assert(refs_ok_code(cm.functions@[f as int].code_block@, (cm.strings@.len(), cm.functions@.len(), cm.imports@.len())));
                lemma_patchable(
                    code@,
                    (cm.strings@.len(), cm.functions@.len(), cm.imports@.len()),
                    fn_base(mods, i as int),
                    str_base(mods, i as int),
                    all_targets@[i as int]@.len(),
                );
            }
            let patched = patch_code(code, fn_bases[i], str_bases[i], &all_targets[i]);
            let ghost before = functions@;
            functions.push(CompiledFunction { code_block: patched });
            proof {
                lemma_bases_grow(mods, 0, i as int);
                assert(functions@[0] == before[0]);
                assert(functions@[1] == before[1]);
                assert(functions@[fn_base(mods, i as int) + f].code_block@ == patched@);
                assert(all_targets@[i as int]@.map_values(|x: u64| x as nat) == targets(mods, i as int));
                assert(patched@ == patch_seq(
                    mods[i as int].1.functions@[f as int].code_block@,
                    fn_base(mods, i as int),
                    str_base(mods, i as int),
                    targets(mods, i as int),
                ));
                assert forall|m: int, g: int|
                    0 <= m < i && 0 <= g < mods[m].1.functions@.len() implies #[trigger] functions@[fn_base(mods, m) + g].code_block@
                        == patch_seq(mods[m].1.functions@[g].code_block@, fn_base(mods, m), str_base(mods, m), targets(mods, m)) by {
                    lemma_bases_grow(mods, m, i as int);
                    assert(functions@[fn_base(mods, m) + g] == before[fn_base(mods, m) + g]);
                }
                assert forall|g: int|
                    0 <= g < f + 1 implies #[trigger] functions@[fn_base(mods, i as int) + g].code_block@
                        == patch_seq(mods[i as int].1.functions@[g].code_block@, fn_base(mods, i as int), str_base(mods, i as int), targets(mods, i as int)) by {
                    if g < f {
                        assert(functions@[fn_base(mods, i as int) + g] == before[fn_base(mods, i as int) + g]);
                        assert(before[fn_base(mods, i as int) + g].code_block@ == patch_seq(
                            mods[i as int].1.functions@[g].code_block@,
                            fn_base(mods, i as int),
                            str_base(mods, i as int),
                            targets(mods, i as int),
                        ));
                    }
                }
            }
            f = f + 1;
        }
        let ns = modules[i].1.strings.len();
        let mut q: usize = 0;
        while q < ns
            invariant
                n == mods.len(),
                modules@ == mods,
                i < n,
                ns == mods[i as int].1.strings@.len(),
                q <= ns,
                strings@.len() == str_base(mods, i as int) + q,
                forall|m: int, w: int|
                    0 <= m < i && 0 <= w < mods[m].1.strings@.len() ==> #[trigger] strings@[str_base(mods, m) + w]@
                        == mods[m].1.strings@[w]@,
                forall|w: int| 0 <= w < q ==> #[trigger] strings@[str_base(mods, i as int) + w]@ == mods[i as int].1.strings@[w]@,
            decreases ns - q,
        {
            let ghost before = strings@;
            strings.push(copy_bytes(&modules[i].1.strings[q]));
            proof {
                assert forall|m: int, w: int|
                    0 <= m < i && 0 <= w < mods[m].1.strings@.len() implies #[trigger] strings@[str_base(mods, m) + w]@
                        == mods[m].1.strings@[w]@ by {
                    lemma_bases_grow(mods, m, i as int);
                    assert(strings@[str_base(mods, m) + w] == before[str_base(mods, m) + w]);
                }
                assert forall|w: int| 0 <= w < q + 1 implies #[trigger] strings@[str_base(mods, i as int) + w]@
                    == mods[i as int].1.strings@[w]@ by {
                    if w < q {
                        assert(strings@[str_base(mods, i as int) + w] == before[str_base(mods, i as int) + w]);
                    }
                }
            }
            q = q + 1;
        }
        proof {
            assert forall|m: int, g: int|
                0 <= m < i + 1 && 0 <= g < mods[m].1.functions@.len() implies #[trigger] functions@[fn_base(mods, m) + g].code_block@
                    == patch_seq(mods[m].1.functions@[g].code_block@, fn_base(mods, m), str_base(mods, m), targets(mods, m)) by {
                if m == i {
                    assert(functions@[fn_base(mods, i as int) + g].code_block@ == patch_seq(
                        mods[i as int].1.functions@[g].code_block@,
                        fn_base(mods, i as int),
                        str_base(mods, i as int),
                        targets(mods, i as int),
                    ));
                }
            }
            assert forall|m: int, w: int|
                0 <= m < i + 1 && 0 <= w < mods[m].1.strings@.len() implies #[trigger] strings@[str_base(mods, m) + w]@
                    == mods[m].1.strings@[w]@ by {
                if m == i {
                    assert(strings@[str_base(mods, i as int) + w]@ == mods[i as int].1.strings@[w]@);
                }
            }
        }
        i = i + 1;
    }
    let last = n - 1;
    proof {
        let cm = mods[last as int].1;
        assert(refs_ok(cm));
        lemma_bases_grow(mods, last as int, n as int);
        lemma_patchable(
            cm.main@,
            (cm.strings@.len(), cm.functions@.len(), cm.imports@.len()),
            fn_base(mods, last as int),
            str_base(mods, last as int),
            all_targets@[last as int]@.len(),
        );
    }
    let main = patch_code(&modules[last].1.main, fn_bases[last], str_bases[last], &all_targets[last]);
    Ok(Program { main, functions, strings })
}

/// Linked code the machine can run without meeting an unlinked
/// instruction, a register it lacks, a jump out of the code, a string the
/// program lacks, or a `break` or `continue` left unresolved.
pub open spec fn linked_ok(code: Seq<Instruction>, ns: nat) -> bool {
    code_ok(code, (ns, 0nat, 0nat)) && settled(code) && code.len() <= MAX_CODE_LEN
}

/// Every code sequence of `p` is [`linked_ok`], and the two built-in
/// entries of the function table exist.
pub open spec fn program_ok(p: Program) -> bool {
    &&& p.functions@.len() >= 2
    &&& linked_ok(p.main@, p.strings@.len())
    &&& forall|f: int|
        0 <= f < p.functions@.len() ==> linked_ok(#[trigger] p.functions@[f].code_block@, p.strings@.len())
}

proof fn lemma_patch_sound(code: Seq<Instruction>, k: Counts, fb: nat, sb: nat, t: Seq<nat>, ns: nat)
    requires
        code_ok(code, k),
        settled(code),
        code.len() <= MAX_CODE_LEN,
        sb + k.0 <= ns,
        sb + k.0 <= u64::MAX,
        fb + k.1 <= u64::MAX,
        k.2 <= t.len(),
    ensures
        linked_ok(patch_seq(code, fb, sb, t), ns),
{
    let pc = patch_seq(code, fb, sb, t);
    let kk = (ns, 0nat, 0nat);
    assert forall|j: int| 0 <= j < pc.len() implies instr_ok(#[trigger] pc[j], j, pc.len() + 0, kk) by {
        assert(instr_ok(code[j], j, code.len() + 0, k));
        assert(pc[j] == patch_instr(code[j], fb, sb, t));
    }
    assert forall|j: int| 0 <= j < pc.len() implies !is_break(#[trigger] pc[j]) && !is_continue(pc[j]) by {
        assert(pc[j] == patch_instr(code[j], fb, sb, t));
    }
}

/// Every function past the two built-ins belongs to some module.
proof fn lemma_function_owner(mods: Seq<(Vec<u8>, CompiledModule)>, n: int, f: int) -> (i: int)
    requires
        0 <= n <= mods.len(),
        2 <= f < fn_base(mods, n),
    ensures
        0 <= i < n,
        fn_base(mods, i) <= f < fn_base(mods, i) + mods[i].1.functions@.len(),
    decreases n,
{
    if n == 0 {
        0
    } else if f >= fn_base(mods, n - 1) {
        n - 1
    } else {
        lemma_function_owner(mods, n - 1, f)
    }
}

/// Linking keeps soundness: when every module is sound (as the code
/// generator guarantees), the linked program is [`program_ok`].
pub proof fn law_link_sound(mods: Seq<(Vec<u8>, CompiledModule)>, p: Program)
    requires
        forall|m: int| 0 <= m < mods.len() ==> module_ok(#[trigger] mods[m].1),
        fits(mods),
        links_to(mods, p),
    ensures
        program_ok(p),
{
    let n = mods.len() as int;
    let ns = p.strings@.len();
    lemma_bases_grow(mods, 0, n);
    let last = n - 1;
    let cm = mods[last].1;
    assert(module_ok(cm));
    lemma_bases_grow(mods, last, n);
    lemma_patch_sound(
        cm.main@,
        (cm.strings@.len(), cm.functions@.len(), cm.imports@.len()),
        fn_base(mods, last),
        str_base(mods, last),
        targets(mods, last),
        ns,
    );
    assert forall|f: int| 0 <= f < p.functions@.len() implies linked_ok(
        #[trigger] p.functions@[f].code_block@,
        ns,
    ) by {
        if f >= 2 {
            let i = lemma_function_owner(mods, n, f);
            let g = f - fn_base(mods, i);
            let ci = mods[i].1;
            assert(module_ok(ci));
            lemma_bases_grow(mods, i, n);
            assert(code_ok(ci.functions@[g].code_block@, (ci.strings@.len(), ci.functions@.len(), ci.imports@.len())));
            lemma_patch_sound(
                ci.functions@[g].code_block@,
                (ci.strings@.len(), ci.functions@.len(), ci.imports@.len()),
                fn_base(mods, i),
                str_base(mods, i),
                targets(mods, i),
                ns,
            );
            assert(p.functions@[fn_base(mods, i) + g].code_block@ == patch_seq(
                ci.functions@[g].code_block@,
                fn_base(mods, i),
                str_base(mods, i),
                targets(mods, i),
            ));
        } else {
            assert(p.functions@[f].code_block@ =~= Seq::<Instruction>::empty());
        }
    }
}
} // verus!
