use water::bytecode::{CompiledFunction, Instruction, Opcode};
use water::codegen::{compile_module, CompiledModule};
use water::driver::parse_module_source;
use water::linker::{link, patch_code, LinkError};

fn module(source: &str) -> CompiledModule {
    compile_module(&parse_module_source(source, b"m")).unwrap()
}

#[test]
fn link_needs_a_module() {
    assert_eq!(link(Vec::new()).err(), Some(LinkError::NoModules));
}

#[test]
fn link_places_functions_after_builtins() {
    let lib = module("inc = (x) => x + 1\ndec = (x) => x - 1");
    let main = module("from lib import dec\nprintln(dec(3))");
    let p = link(vec![(b"lib".to_vec(), lib), (b"__main__".to_vec(), main)]).unwrap();
    assert_eq!(p.functions.len(), 4);
    assert!(p.functions[0].code_block.is_empty());
    assert!(p.functions[1].code_block.is_empty());
    // `dec` is the library's second function: global index 3.
    assert!(p.main.iter().any(|i| i.opcode == Opcode::MovConst && i.op1 == 3));
    assert!(p.main.iter().all(|i| i.opcode != Opcode::LoadImport && i.opcode != Opcode::LoadLocalFn));
}

#[test]
fn link_unresolved_import() {
    let main = module("from lib import nothing\nnothing()");
    let lib = module("x = 1");
    assert_eq!(
        link(vec![(b"lib".to_vec(), lib), (b"__main__".to_vec(), main)]).err(),
        Some(LinkError::UnresolvedImport { module: b"lib".to_vec(), name: b"nothing".to_vec() })
    );
}

#[test]
fn link_concatenates_strings() {
    let lib = module("s = \"one\"");
    let main = module("println(\"two\")");
    let p = link(vec![(b"lib".to_vec(), lib), (b"__main__".to_vec(), main)]).unwrap();
    assert_eq!(p.strings, vec![b"one".to_vec(), b"two".to_vec()]);
    assert_eq!(p.main[0], Instruction::load_string(10, 1));
}

#[test]
fn patch_code_relocates() {
    let code = vec![
        Instruction::load_local_fn(10, 1),
        Instruction::load_import(11, 0),
        Instruction::load_string(12, 2),
        Instruction::add(13, 10, 11),
    ];
    let patched = patch_code(&code, 5, 7, &vec![42]);
    assert_eq!(
        patched,
        vec![
            Instruction::mov_const(10, 6),
            Instruction::mov_const(11, 42),
            Instruction::load_string(12, 9),
            Instruction::add(13, 10, 11),
        ]
    );
}

#[test]
fn link_single_module_without_functions() {
    let main = module("println(1)");
    let p = link(vec![(b"__main__".to_vec(), main)]).unwrap();
    assert_eq!(p.functions.len(), 2);
    let _ = CompiledFunction { code_block: Vec::new() };
}
