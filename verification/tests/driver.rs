use water::driver::{module_file_path, parent_dir, LoadAction, ModuleLoader};
use water::run_capturing_with_files;

#[test]
fn module_file_path_joins_and_adds_extension() {
    assert_eq!(module_file_path(b"math", None), b"math.water".to_vec());
    assert_eq!(module_file_path(b"math", Some(b"lib")), b"lib/math.water".to_vec());
    assert_eq!(module_file_path(b"math", Some(b"lib/")), b"lib/math.water".to_vec());
    assert_eq!(module_file_path(b"a/b", Some(b"")), b"a/b.water".to_vec());
}

#[test]
fn parent_dir_of_paths() {
    assert_eq!(parent_dir(b"lib/math.water"), b"lib".to_vec());
    assert_eq!(parent_dir(b"math.water"), Vec::<u8>::new());
    assert_eq!(parent_dir(b"a/b/c.water"), b"a/b".to_vec());
}

#[test]
fn loader_reads_each_module_once_in_order() {
    let mut loader = ModuleLoader::new("from a import f\nfrom b import g\nfrom a import h", None);
    match loader.next_action() {
        LoadAction::Read { module, file } => {
            assert_eq!(module, b"a".to_vec());
            assert_eq!(file, b"a.water".to_vec());
        }
        LoadAction::Done => panic!("expected a read"),
    }
    loader.provide("from b import g\nf = () => 1");
    match loader.next_action() {
        LoadAction::Read { module, file } => {
            assert_eq!(module, b"b".to_vec());
            assert_eq!(file, b"b.water".to_vec());
        }
        LoadAction::Done => panic!("expected a read"),
    }
    loader.provide("g = () => 2");
    assert!(matches!(loader.next_action(), LoadAction::Done));
    let modules = loader.finish();
    let names: Vec<Vec<u8>> = modules.iter().map(|(n, _)| n.clone()).collect();
    assert_eq!(names, vec![b"b".to_vec(), b"a".to_vec(), b"__main__".to_vec()]);
}

#[test]
fn loader_looks_up_imports_next_to_the_importer() {
    let mut loader = ModuleLoader::new("from lib/util import f", Some(b"root".to_vec()));
    match loader.next_action() {
        LoadAction::Read { file, .. } => assert_eq!(file, b"root/lib/util.water".to_vec()),
        LoadAction::Done => panic!("expected a read"),
    }
    loader.provide("from helper import g");
    match loader.next_action() {
        LoadAction::Read { module, file } => {
            assert_eq!(module, b"helper".to_vec());
            assert_eq!(file, b"root/lib/helper.water".to_vec());
        }
        LoadAction::Done => panic!("expected a read"),
    }
}

#[test]
fn modules_in_subdirectories() {
    assert_eq!(
        run_capturing_with_files(
            "from lib/m import f\nprintln(f())",
            &[("lib/m.water", "from n import g\nf = () => g() + 1"), ("lib/n.water", "g = () => 41")]
        ),
        "42\n"
    );
}

#[test]
fn unresolved_import_gives_message() {
    assert_eq!(
        run_capturing_with_files("from m import nope\nnope()", &[("m.water", "x = 1")]),
        "error: unresolved import m::nope\n"
    );
}

#[test]
fn compiling_no_modules_is_a_link_error() {
    let r = water::driver::compile_modules(Vec::new());
    assert!(matches!(r, Err(water::driver::WaterError::Link(water::linker::LinkError::NoModules))));
}

#[test]
fn empty_modules_compile_and_link() {
    let m = water::driver::parse_module_source("", b"main");
    let r = water::driver::compile_modules(vec![(b"main".to_vec(), m)]);
    assert!(r.is_ok());
}
