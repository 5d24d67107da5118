//! From source text to output: loading the modules a program imports,
//! compiling and linking them, and running the result.
//!
//! Loading alternates reading files with deciding what to read next;
//! [`ModuleLoader`] makes the decisions and leaves the reading to its
//! caller, which hands each file's text back with
//! [`ModuleLoader::provide`].
use vstd::prelude::*;
use vstd::string::StringSliceAdditionalSpecFns;
use crate::ast::{Module, Statement};
use crate::bytecode::Program;
use crate::codegen::{CompiledModule, compile_module, module_ok, module_start, stmts_code};
use crate::lexer::{kinds_of, lex_spec, tokenize, tokens_ok};
use crate::linker::{LinkError, fits, lemma_module_refs, links_to, refs_ok, fn_base, imports_resolve, link, law_link_sound, program_ok, str_base};
use crate::parser::{expr_lines, lines_parsed, matches_shape, parse_module};
use crate::pipeline::{law_expression_lines_print_nothing, law_parsed_lines_compile, lines_code};
use crate::symbols::{CompileError, bytes_equal};
use crate::token::{Span, Token, copy_bytes};
use crate::vm::{HEAP_CAPACITY, append_bytes, exec_with, initial_model, run_steps};

verus! {

/// The name the program's own module goes by: `__main__`.
pub open spec fn main_module_name() -> Seq<u8> {
    seq![95u8, 95u8, 109u8, 97u8, 105u8, 110u8, 95u8, 95u8]
}

pub fn main_module_bytes() -> (r: Vec<u8>)
    ensures
        r@ == main_module_name(),
{
    let r = vec![95u8, 95u8, 109u8, 97u8, 105u8, 110u8, 95u8, 95u8];
    assert(r@ =~= main_module_name());
    r
}

/// How many steps a program may run.
pub const FUEL: u64 = 0xffff_ffff_ffff_ffff;

/// Why a program does not run.
#[derive(Debug)]
pub enum WaterError {
    /// The file of an imported module could not be read.
    Load(Vec<u8>),
    /// A module does not compile.
    Compile { module: Vec<u8>, error: CompileError },
    Link(LinkError),
}

/// The syntax tree of a module's source; parse errors leave out the
/// statements they concern.
pub fn parse_module_source(source: &str, name: &[u8]) -> (r: Module)
    ensures
        r.name@ == name@,
        exists|toks: Seq<(Token, Span)>|
            #![trigger tokens_ok(toks, source.spec_bytes())]
            {
                &&& tokens_ok(toks, source.spec_bytes())
                &&& kinds_of(toks) == lex_spec(source.spec_bytes()).toks
                &&& lines_parsed(toks, r.statements@)
            },
{
    let lexed = tokenize(source);
    let r = parse_module(lexed.tokens.as_slice(), name).ast;
    assert(tokens_ok(lexed.tokens@, source.spec_bytes()));
    r
}

/// The file that holds module `path`: `path` under `base_dir` when there
/// is one, with the extension `.water`.
pub open spec fn spec_module_file_path(path: Seq<u8>, base_dir: Option<Seq<u8>>) -> Seq<u8> {
    let ext = seq![46u8, 119u8, 97u8, 116u8, 101u8, 114u8];
    match base_dir {
        Some(d) => if d.len() == 0 {
            path + ext
        } else if d.last() == 47u8 {
            d + path + ext
        } else {
            d + seq![47u8] + path + ext
        },
        None => path + ext,
    }
}

pub fn module_file_path(path: &[u8], base_dir: Option<&[u8]>) -> (r: Vec<u8>)
    ensures
        r@ == spec_module_file_path(path@, match base_dir {
            Some(d) => Some(d@),
            None => None,
        }),
{
    let ext = vec![46u8, 119u8, 97u8, 116u8, 101u8, 114u8];
    let mut out: Vec<u8> = Vec::new();
    let ghost mut prefix: Seq<u8> = seq![];
    match base_dir {
        Some(d) => {
            if d.len() > 0 {
                append_bytes(&mut out, d);
                if d[d.len() - 1] != 47u8 {
                    out.push(47u8);
                    proof {
                        prefix = d@ + seq![47u8];
                    }
                } else {
                    proof {
                        prefix = d@;
                    }
                }
            }
        },
        None => {},
    }
    assert(out@ =~= prefix);
    append_bytes(&mut out, path);
    append_bytes(&mut out, ext.as_slice());
    assert(out@ =~= prefix + path@ + seq![46u8, 119u8, 97u8, 116u8, 101u8, 114u8]);
    out
}

/// The directory part of a file path: what comes before its last `/`
/// (empty when there is none).
pub open spec fn spec_parent(file: Seq<u8>) -> Seq<u8>
    decreases file.len(),
{
    if file.len() == 0 {
        seq![]
    } else if file.last() == 47u8 {
        file.drop_last()
    } else {
        spec_parent(file.drop_last())
    }
}

pub fn parent_dir(file: &[u8]) -> (r: Vec<u8>)
    ensures
        r@ == spec_parent(file@),
{
    let mut i = file.len();
    assert(file@.take(i as int) =~= file@);
    while i > 0
        invariant
            i <= file@.len(),
            spec_parent(file@) == spec_parent(file@.take(i as int)),
        decreases i,
    {
        if file[i - 1] == 47u8 {
            let mut out: Vec<u8> = Vec::new();
            append_bytes(&mut out, file);
            out.truncate(i - 1);
            assert(file@.take(i as int).drop_last() =~= file@.take(i - 1));
            assert(out@ =~= file@.take(i - 1));
            return out;
        }
        assert(file@.take(i as int).drop_last() =~= file@.take(i - 1));
        i = i - 1;
    }
    Vec::new()
}

/// A module whose imports are being followed: its name, the directory its
/// imports are looked up in, and the first statement not yet looked at.
pub struct LoadFrame {
    name: Vec<u8>,
    module: Module,
    base: Option<Vec<u8>>,
    next: usize,
}

/// The module path that statement `s` imports from, if it is an import.
pub open spec fn import_path(s: Statement) -> Option<Seq<u8>> {
    match s {
        Statement::ImportFrom { path, .. } => Some(path@),
        Statement::ImportModule { path, .. } => Some(path@),
        _ => None,
    }
}

/// Every import among the first `upto` of `stmts` names a path of `visited`.
pub open spec fn imports_in(stmts: Seq<Statement>, upto: int, visited: Seq<Seq<u8>>) -> bool {
    forall|k: int|
        0 <= k < upto && k < stmts.len() ==> (import_path(#[trigger] stmts[k]) matches Some(p)
            ==> visited.contains(p))
}

/// Asking for one more module keeps every import asked for.
proof fn lemma_imports_in_push(stmts: Seq<Statement>, upto: int, visited: Seq<Seq<u8>>, x: Seq<u8>)
    requires
        imports_in(stmts, upto, visited),
    ensures
        imports_in(stmts, upto, visited.push(x)),
{
    assert forall|k: int| 0 <= k < upto && k < stmts.len() implies (import_path(#[trigger] stmts[k]) matches Some(p)
        ==> visited.push(x).contains(p)) by {
        if let Some(p) = import_path(stmts[k]) {
            let j = choose|j: int| 0 <= j < visited.len() && visited[j] == p;
            assert(visited.push(x)[j] == p);
        }
    }
}

/// No statement of `stmts` is an import.
pub open spec fn no_imports(stmts: Seq<Statement>) -> bool {
    forall|k: int| 0 <= k < stmts.len() ==> import_path(#[trigger] stmts[k]) is None
}

/// What the loader needs next.
pub enum LoadAction {
    /// The text of file `file`, which holds module `module`.
    Read { module: Vec<u8>, file: Vec<u8> },
    /// Every module is loaded.
    Done,
}

/// Loads a program's modules depth first, in the order of its import
/// statements; each module comes after the modules it imports, and the
/// program's own module comes last. A module path is loaded once, the
/// first time an import names it.
pub struct ModuleLoader {
    frames: Vec<LoadFrame>,
    done: Vec<(Vec<u8>, Module)>,
    visited: Vec<Vec<u8>>,
    pending: Option<(Vec<u8>, Vec<u8>)>,
}

impl ModuleLoader {
    /// The module paths that were asked for so far, the program's own
    /// module first.
    pub closed spec fn visited(&self) -> Seq<Seq<u8>> {
        self.visited@.map_values(|v: Vec<u8>| v@)
    }

    /// The modules loaded so far, in order.
    pub closed spec fn loaded_modules(&self) -> Seq<(Vec<u8>, Module)> {
        self.done@
    }

    /// Every import of a loaded module, and every import an open module
    /// has been looked through to, names a path that was asked for.
    pub closed spec fn imports_followed(&self) -> bool {
        &&& forall|m: int|
            0 <= m < self.done@.len() ==> imports_in(
                #[trigger] self.done@[m].1.statements@,
                self.done@[m].1.statements@.len() as int,
                self.visited(),
            )
        &&& forall|f: int|
            0 <= f < self.frames@.len() ==> imports_in(
                #[trigger] self.frames@[f].module.statements@,
                self.frames@[f].next as int,
                self.visited(),
            )
    }

    /// The directory that the innermost open module's imports are looked
    /// up in.
    pub closed spec fn innermost_base(&self) -> Option<Seq<u8>> {
        match self.frames@.last().base {
            Some(b) => Some(b@),
            None => None,
        }
    }

    /// The innermost open module's statements.
    pub closed spec fn innermost_statements(&self) -> Seq<Statement> {
        self.frames@.last().module.statements@
    }

    /// How many of the innermost open module's statements were looked at.
    pub closed spec fn innermost_next(&self) -> int {
        self.frames@.last().next as int
    }

    /// The module whose text is awaited, and the directory of its file.
    pub closed spec fn pending_request(&self) -> Option<(Seq<u8>, Seq<u8>)> {
        match self.pending {
            Some((m, d)) => Some((m@, d@)),
            None => None,
        }
    }

    /// Whether a module's text is awaited.
    pub closed spec fn waiting(&self) -> bool {
        self.pending is Some
    }

    /// How many modules are loaded.
    pub closed spec fn loaded(&self) -> nat {
        self.done@.len()
    }

    /// How many modules are still open.
    pub closed spec fn open_count(&self) -> nat {
        self.frames@.len()
    }

    /// The program's own module is the outermost open one, and once it is
    /// closed it is the last loaded; a module's text is awaited only while
    /// a module is open.
    pub closed spec fn inv(&self) -> bool {
        &&& self.frames@.len() > 0 ==> self.frames@[0].name@ == main_module_name()
        &&& self.frames@.len() == 0 ==> self.done@.len() > 0 && self.done@.last().0@ == main_module_name()
        &&& self.pending is Some ==> self.frames@.len() > 0
        &&& self.imports_followed()
    }


    /// How many statements the innermost open module has left to look at.
    pub closed spec fn top_left(&self) -> nat {
        if self.frames@.len() == 0 {
            0
        } else {
            let f = self.frames@.last();
            if f.next <= f.module.statements@.len() {
                (f.module.statements@.len() - f.next) as nat
            } else {
                0
            }
        }
    }

    /// Starts with the program's own source.
    pub fn new(source: &str, base_dir: Option<Vec<u8>>) -> (r: Self)
        ensures
            r.visited() == seq![main_module_name()],
            !r.waiting(),
            r.open_count() == 1,
            r.loaded() == 0,
            r.inv(),
            r.innermost_next() == 0,
            r.innermost_base() == match base_dir {
                Some(d) => Some(d@),
                None => None::<Seq<u8>>,
            },
            exists|toks: Seq<(Token, Span)>|
                #![trigger tokens_ok(toks, source.spec_bytes())]
                {
                    &&& tokens_ok(toks, source.spec_bytes())
                    &&& kinds_of(toks) == lex_spec(source.spec_bytes()).toks
                    &&& lines_parsed(toks, r.innermost_statements())
                },
    {
        let name = main_module_bytes();
        let main = parse_module_source(source, name.as_slice());
        let mut frames: Vec<LoadFrame> = Vec::new();
        frames.push(LoadFrame { name, module: main, base: base_dir, next: 0 });
        let mut visited: Vec<Vec<u8>> = Vec::new();
        visited.push(main_module_bytes());
        let r = ModuleLoader { frames, done: Vec::new(), visited, pending: None };
        proof {
            assert(r.visited() =~= seq![main_module_name()]);
        }
        r
    }

    /// Whether `path` was asked for already.
    fn seen(&self, path: &Vec<u8>) -> (r: bool)
        ensures
            r == self.visited().contains(path@),
    {
        let mut i: usize = 0;
        while i < self.visited.len()
            invariant
                i <= self.visited@.len(),
                forall|j: int| 0 <= j < i ==> self.visited@[j]@ != path@,
            decreases self.visited@.len() - i,
        {
            if bytes_equal(self.visited[i].as_slice(), path.as_slice()) {
                assert(self.visited()[i as int] == path@);
                return true;
            }
            i = i + 1;
        }
        assert(!self.visited().contains(path@)) by {
            if self.visited().contains(path@) {
                let j = choose|j: int| 0 <= j < self.visited().len() && self.visited()[j] == path@;
                assert(self.visited@[j]@ == path@);
            }
        }
        false
    }

    /// What to do next: read the file of the next module that an import
    /// names and that was not asked for before, or stop when every open
    /// module is looked through. Modules whose statements are all looked
    /// at are closed on the way, each after the modules it imports.
    pub fn next_action(&mut self) -> (r: LoadAction)
        requires
            !old(self).waiting(),
            old(self).inv(),
        ensures
            final(self).inv(),
            match r {
                LoadAction::Read { module, file } => {
                    &&& !old(self).visited().contains(module@)
                    &&& final(self).visited() == old(self).visited().push(module@)
                    &&& final(self).waiting()
                    &&& final(self).open_count() > 0
                    &&& 1 <= final(self).innermost_next() <= final(self).innermost_statements().len()
                    &&& import_path(final(self).innermost_statements()[final(self).innermost_next() - 1])
                        == Some(module@)
                    &&& file@ == spec_module_file_path(module@, final(self).innermost_base())
                    &&& final(self).pending_request() == Some((module@, spec_parent(file@)))
                },
                LoadAction::Done => {
                    &&& final(self).visited() == old(self).visited()
                    &&& !final(self).waiting()
                    &&& final(self).open_count() == 0
                    &&& forall|m: int|
                        0 <= m < final(self).loaded_modules().len() ==> imports_in(
                            #[trigger] final(self).loaded_modules()[m].1.statements@,
                            final(self).loaded_modules()[m].1.statements@.len() as int,
                            final(self).visited(),
                        )
                },
            },
            final(self).loaded() >= old(self).loaded(),
            old(self).open_count() == 1 && old(self).loaded() == 0 && no_imports(old(self).innermost_statements())
                ==> (r is Done && final(self).loaded_modules().len() == 1
                && final(self).loaded_modules()[0].1.statements@ == old(self).innermost_statements()),
    {
        let ghost lone = self.frames@.len() == 1 && self.done@.len() == 0 && no_imports(
            self.frames@.last().module.statements@,
        );
        let ghost stmts0 = self.frames@.last().module.statements@;
        loop
            invariant
                self.visited() == old(self).visited(),
                !self.waiting(),
                self.loaded() >= old(self).loaded(),
                self.inv(),
                lone == (old(self).open_count() == 1 && old(self).loaded() == 0 && no_imports(
                    old(self).innermost_statements(),
                )),
                stmts0 == old(self).innermost_statements(),
                lone ==> (self.frames@.len() == 1 && self.done@.len() == 0
                    && self.frames@[0].module.statements@ == stmts0) || (self.frames@.len() == 0
                    && self.done@.len() == 1 && self.done@[0].1.statements@ == stmts0),
            decreases self.open_count(), self.top_left(),
        {
            if self.frames.len() == 0 {
                return LoadAction::Done;
            }
            let ghost frames0 = self.frames@;
            let ghost done0 = self.done@;
            let mut frame = self.frames.pop().unwrap();
            proof {
                assert(frame == frames0.last());
                assert(imports_in(frame.module.statements@, frame.next as int, self.visited()));
                assert forall|f: int| 0 <= f < self.frames@.len() implies imports_in(
                    #[trigger] self.frames@[f].module.statements@,
                    self.frames@[f].next as int,
                    self.visited(),
                ) by {
                    assert(self.frames@[f] == frames0[f]);
                }
            }
            if frame.next >= frame.module.statements.len() {
                let ghost closing = frame;
                self.done.push((frame.name, frame.module));
                proof {
                    assert forall|m: int| 0 <= m < self.done@.len() implies imports_in(
                        #[trigger] self.done@[m].1.statements@,
                        self.done@[m].1.statements@.len() as int,
                        self.visited(),
                    ) by {
                        if m < done0.len() {
                            assert(self.done@[m] == done0[m]);
                        } else {
                            assert(self.done@[m].1 == closing.module);
                        }
                    }
                }
                continue;
            }
            let path = match &frame.module.statements[frame.next] {
                Statement::ImportFrom { path, .. } => Some(copy_bytes(path)),
                Statement::ImportModule { path, .. } => Some(copy_bytes(path)),
                _ => None,
            };
            let ghost at = frame.next as int;
            frame.next = frame.next + 1;
            let base = match &frame.base {
                Some(b) => Some(copy_bytes(b)),
                None => None,
            };
            let ghost frames1 = self.frames@;
            let ghost moved = frame;
            self.frames.push(frame);
            let ghost stmts = moved.module.statements@;
            proof {
                assert(self.frames@ == frames1.push(moved));
            }
            match path {
                Some(p) => {
                    if !self.seen(&p) {
                        let file = match &base {
                            Some(b) => module_file_path(p.as_slice(), Some(b.as_slice())),
                            None => module_file_path(p.as_slice(), None),
                        };
                        let dir = parent_dir(file.as_slice());
                        let ghost before = self.visited@;
                        let ghost vis0 = old(self).visited();
                        self.visited.push(copy_bytes(&p));
                        proof {
                            assert(self.visited() =~= old(self).visited().push(p@));
                            assert forall|m: int| 0 <= m < self.done@.len() implies imports_in(
                                #[trigger] self.done@[m].1.statements@,
                                self.done@[m].1.statements@.len() as int,
                                self.visited(),
                            ) by {
                                lemma_imports_in_push(
                                    self.done@[m].1.statements@,
                                    self.done@[m].1.statements@.len() as int,
                                    vis0,
                                    p@,
                                );
                            }
                            assert forall|f: int| 0 <= f < self.frames@.len() implies imports_in(
                                #[trigger] self.frames@[f].module.statements@,
                                self.frames@[f].next as int,
                                self.visited(),
                            ) by {
                                if f < frames1.len() {
                                    assert(self.frames@[f] == frames1[f]);
                                    lemma_imports_in_push(
                                        self.frames@[f].module.statements@,
                                        self.frames@[f].next as int,
                                        vis0,
                                        p@,
                                    );
                                } else {
                                    assert(self.frames@[f] == moved);
                                    lemma_imports_in_push(stmts, at, vis0, p@);
                                    assert(self.visited()[vis0.len() as int] == p@);
                                }
                            }
                        }
                        self.pending = Some((copy_bytes(&p), dir));
                        return LoadAction::Read { module: p, file };
                    }
                },
                None => {},
            }
        }
    }

    /// The text of the module that [`ModuleLoader::next_action`] asked
    /// for; its imports are followed next, looked up in its file's
    /// directory.
    pub fn provide(&mut self, source: &str)
        requires
            old(self).waiting(),
            old(self).inv(),
        ensures
            final(self).inv(),
            !final(self).waiting(),
            final(self).visited() == old(self).visited(),
            final(self).loaded() == old(self).loaded(),
            final(self).open_count() == old(self).open_count() + 1,
            final(self).innermost_next() == 0,
            final(self).innermost_base() == Some(old(self).pending_request().unwrap().1),
            final(self).pending_request() is None,
    {
        let pending = self.pending.take();
        match pending {
            Some((name, dir)) => {
                let module = parse_module_source(source, name.as_slice());
                self.frames.push(LoadFrame { name, module, base: Some(dir), next: 0 });
            },
            None => {},
        }
    }

    /// The loaded modules, each after the modules it imports; the
    /// program's own module is the last.
    pub fn finish(self) -> (r: Vec<(Vec<u8>, Module)>)
        requires
            self.inv(),
        ensures
            r@.len() == self.loaded(),
            r@ == self.loaded_modules(),
            self.open_count() == 0 ==> r@.len() > 0 && r@.last().0@ == main_module_name(),
    {
        self.done
    }
}


/// The text whose UTF-8 encoding is `bytes`, where each sequence of bytes
/// that is not valid UTF-8 reads as U+FFFD.
pub uninterp spec fn utf8_text(bytes: Seq<u8>) -> Seq<char>;

/// `String::from_utf8_lossy`, owned: the text of `bytes` (see
/// [`utf8_text`]); no bytes give the empty text. Nothing more is stated of
/// it here: which characters other valid UTF-8 decodes to is left to the
/// name.
#[verifier::external_body]
fn bytes_to_text(bytes: &[u8]) -> (r: String)
    ensures
        r@ == utf8_text(bytes@),
        bytes@.len() == 0 ==> r@.len() == 0,
{
    String::from_utf8_lossy(bytes).into_owned()
}

/// A compiled module with no code, functions, strings, exports or imports.
pub open spec fn empty_module(cm: CompiledModule) -> bool {
    &&& cm.main@.len() == 0
    &&& cm.functions@.len() == 0
    &&& cm.strings@.len() == 0
    &&& cm.exports@.len() == 0
    &&& cm.imports@.len() == 0
}

/// A compiled module with no functions, strings or imports.
pub open spec fn tableless(cm: CompiledModule) -> bool {
    &&& cm.functions@.len() == 0
    &&& cm.strings@.len() == 0
    &&& cm.imports@.len() == 0
}

/// Modules without functions or strings fill no table slot.
proof fn lemma_empty_bases(mods: Seq<(Vec<u8>, CompiledModule)>, i: int)
    requires
        0 <= i <= mods.len(),
        forall|m: int| 0 <= m < mods.len() ==> tableless(#[trigger] mods[m].1),
    ensures
        fn_base(mods, i) == 2,
        str_base(mods, i) == 0,
    decreases i,
{
    if i > 0 {
        lemma_empty_bases(mods, i - 1);
        assert(tableless(mods[i - 1].1));
    }
}

/// Modules without functions, strings or imports fill no table slot and
/// import nothing, so they link.
proof fn lemma_empty_modules_link(mods: Seq<(Vec<u8>, CompiledModule)>)
    requires
        forall|m: int| 0 <= m < mods.len() ==> tableless(#[trigger] mods[m].1),
    ensures
        fits(mods),
        forall|j: int| 0 <= j < mods.len() ==> #[trigger] imports_resolve(mods, j),
{
    lemma_empty_bases(mods, mods.len() as int);
    assert forall|j: int| 0 <= j < mods.len() implies #[trigger] imports_resolve(mods, j) by {
        assert(tableless(mods[j].1));
    }
}

/// Compiles the loaded modules, each after those it imports, and links
/// them; the program's own module is the last. What comes out is sound
/// (see `program_ok`).
pub fn compile_modules(modules: Vec<(Vec<u8>, Module)>) -> (r: Result<Program, WaterError>)
    ensures
        r matches Ok(p) ==> program_ok(p),
        modules@.len() == 0 ==> r matches Err(WaterError::Link(LinkError::NoModules)),
        modules@.len() > 0 && (forall|m: int|
            0 <= m < modules@.len() ==> #[trigger] modules@[m].1.statements@.len() == 0) ==> r is Ok,
        modules@.len() > 0 && (forall|m: int|
            0 <= m < modules@.len() ==> stmts_code(#[trigger] modules@[m].1.statements@, module_start()) is Some)
            ==> r is Ok,
        r matches Ok(p) ==> exists|cms: Seq<(Vec<u8>, CompiledModule)>|
            #![trigger links_to(cms, p)]
            {
                &&& cms.len() == modules@.len()
                &&& forall|m: int| 0 <= m < cms.len() ==> (#[trigger] cms[m]).0@ == modules@[m].0@ && module_ok(cms[m].1)
                &&& forall|m: int| 0 <= m < cms.len() ==> (stmts_code(modules@[m].1.statements@, module_start())
                    matches Some((c, _s)) ==> (#[trigger] cms[m]).1.main@ == c && tableless(cms[m].1))
                &&& links_to(cms, p)
            },
        r matches Err(WaterError::Compile { module, .. }) ==> exists|m: int|
            0 <= m < modules@.len() && (#[trigger] modules@[m]).0@ == module@,
{
    let mut compiled: Vec<(Vec<u8>, CompiledModule)> = Vec::new();
    let mut i: usize = 0;
    while i < modules.len()
        invariant
            i <= modules@.len(),
            compiled@.len() == i,
            forall|m: int| 0 <= m < compiled@.len() ==> module_ok(#[trigger] compiled@[m].1),
            forall|m: int| 0 <= m < compiled@.len() ==> (#[trigger] compiled@[m]).0@ == modules@[m].0@,
            forall|m: int| 0 <= m < compiled@.len() ==> (stmts_code(modules@[m].1.statements@, module_start())
                matches Some((c, _s)) ==> (#[trigger] compiled@[m]).1.main@ == c),
            forall|m: int|
                0 <= m < i ==> (#[trigger] modules@[m].1.statements@.len() == 0 ==> empty_module(
                    compiled@[m].1,
                )),
            forall|m: int|
                0 <= m < i ==> (stmts_code(#[trigger] modules@[m].1.statements@, module_start()) is Some
                    ==> tableless(compiled@[m].1)),
        decreases modules@.len() - i,
    {
        let ghost old_compiled = compiled@;
        let cm = match compile_module(&modules[i].1) {
            Ok(cm) => cm,
            Err(error) => {
                let name = copy_bytes(&modules[i].0);
                assert(modules@[i as int].0@ == name@);
                return Err(WaterError::Compile { module: name, error });
            },
        };
        compiled.push((copy_bytes(&modules[i].0), cm));
        assert forall|m: int| 0 <= m < compiled@.len() implies (#[trigger] compiled@[m]).0@ == modules@[m].0@ by {
            if m < i {
                assert(compiled@[m] == old_compiled[m]);
            }
        }
        assert forall|m: int| 0 <= m < compiled@.len() implies (stmts_code(modules@[m].1.statements@, module_start())
            matches Some((c, _s)) ==> (#[trigger] compiled@[m]).1.main@ == c) by {
            if m < i {
                assert(compiled@[m] == old_compiled[m]);
            }
        }
        assert forall|m: int|
            0 <= m < i + 1 implies (#[trigger] modules@[m].1.statements@.len() == 0 ==> empty_module(
                compiled@[m].1,
            )) by {
            if m < i {
                assert(compiled@[m] == old_compiled[m]);
            }
        }
        assert forall|m: int|
            0 <= m < i + 1 implies (stmts_code(#[trigger] modules@[m].1.statements@, module_start()) is Some
                ==> tableless(compiled@[m].1)) by {
            if m < i {
                assert(compiled@[m] == old_compiled[m]);
            }
        }
        i = i + 1;
    }
    let ghost mods = compiled@;
    proof {
        if modules@.len() > 0 && (forall|m: int|
            0 <= m < modules@.len() ==> #[trigger] modules@[m].1.statements@.len() == 0) {
            assert forall|m: int| 0 <= m < mods.len() implies tableless(#[trigger] mods[m].1) by {
                assert(modules@[m].1.statements@.len() == 0);
            }
            lemma_empty_modules_link(mods);
        }
        if modules@.len() > 0 && (forall|m: int|
            0 <= m < modules@.len() ==> stmts_code(#[trigger] modules@[m].1.statements@, module_start()) is Some) {
            assert forall|m: int| 0 <= m < mods.len() implies tableless(#[trigger] mods[m].1) by {
                assert(stmts_code(modules@[m].1.statements@, module_start()) is Some);
            }
            lemma_empty_modules_link(mods);
        }
        assert forall|m: int| 0 <= m < mods.len() implies refs_ok(#[trigger] mods[m].1) by {
            lemma_module_refs(mods[m].1);
        }
    }
    match link(compiled) {
        Ok(p) => {
            proof {
                law_link_sound(mods, p);
            }
            let res: Result<Program, WaterError> = Ok(p);
            proof {
                let q = res->Ok_0;
                assert(links_to(mods, q));
                assert(forall|m: int| 0 <= m < mods.len() ==> (#[trigger] mods[m]).0@ == modules@[m].0@ && module_ok(mods[m].1));
                assert(forall|m: int| 0 <= m < mods.len() ==> (stmts_code(modules@[m].1.statements@, module_start())
                    matches Some((c, _s)) ==> (#[trigger] mods[m]).1.main@ == c && tableless(mods[m].1)));
            }
            res
        },
        Err(e) => Err(WaterError::Link(e)),
    }
}

/// The index of the file named `file` among `files` (name, text).
fn find_file(files: &[(&str, &str)], file: &Vec<u8>) -> (r: Option<usize>)
    ensures
        r matches Some(i) ==> i < files@.len() && files@[i as int].0.spec_bytes() == file@,
        r matches Some(i) ==> forall|k: int| 0 <= k < i ==> (#[trigger] files@[k]).0.spec_bytes() != file@,
        r is None <==> forall|k: int| 0 <= k < files@.len() ==> (#[trigger] files@[k]).0.spec_bytes() != file@,
{
    let mut i: usize = 0;
    while i < files.len()
        invariant
            i <= files@.len(),
            forall|k: int| 0 <= k < i ==> (#[trigger] files@[k]).0.spec_bytes() != file@,
        decreases files@.len() - i,
    {
        if bytes_equal(files[i].0.as_bytes(), file.as_slice()) {
            return Some(i);
        }
        i = i + 1;
    }
    None
}

/// Compiles a program whose imported modules are read from `files`, each
/// a file name and its text; module `m` of a program lies in `m.water`,
/// and the modules that `m` imports lie next to it. It fails when a file
/// is missing, when a module does not compile or when linking fails.
pub fn compile_source(source: &str, files: &[(&str, &str)]) -> (r: Result<Program, WaterError>)
    ensures
        r matches Ok(p) ==> program_ok(p),
        exists|toks: Seq<(Token, Span)>|
            #![trigger tokens_ok(toks, source.spec_bytes())]
            {
                &&& tokens_ok(toks, source.spec_bytes())
                &&& kinds_of(toks) == lex_spec(source.spec_bytes()).toks
                &&& source_compiles(toks) ==> (r matches Ok(p) && fragment_program(toks, p))
            },
{
    let mut loader = ModuleLoader::new(source, None);
    let ghost toks = choose|toks: Seq<(Token, Span)>|
        {
            &&& tokens_ok(toks, source.spec_bytes())
            &&& kinds_of(toks) == lex_spec(source.spec_bytes()).toks
            &&& lines_parsed(toks, loader.innermost_statements())
        };
    let ghost stmts0 = loader.innermost_statements();
    let ghost lone = source_compiles(toks);
    proof {
        if lone {
            let shapes = expr_lines(toks, 1).unwrap();
            assert forall|k: int| 0 <= k < stmts0.len() implies import_path(#[trigger] stmts0[k]) is None by {
                assert(stmts0[k] matches Statement::Expression(n) && matches_shape(n, toks, shapes[k]));
            }
            law_parsed_lines_compile(toks, stmts0, module_start());
        }
    }
    let mut reads: usize = 0;
    loop
        invariant_except_break
            lone ==> reads == 0 && loader.open_count() == 1 && loader.loaded() == 0
                && loader.innermost_statements() == stmts0,
        invariant
            !loader.waiting(),
            loader.inv(),
            reads <= files@.len(),
            tokens_ok(toks, source.spec_bytes()),
            kinds_of(toks) == lex_spec(source.spec_bytes()).toks,
            lone == source_compiles(toks),
            lone ==> stmts_code(stmts0, module_start()) is Some && no_imports(stmts0),
        ensures
            lone ==> loader.loaded_modules().len() == 1 && loader.loaded_modules()[0].1.statements@ == stmts0
                && loader.open_count() == 0,
        decreases files@.len() - reads,
    {
        match loader.next_action() {
            LoadAction::Done => break,
            LoadAction::Read { module, file } => {
                if reads >= files.len() {
                    return Err(WaterError::Load(module));
                }
                reads = reads + 1;
                match find_file(files, &file) {
                    Some(i) => loader.provide(files[i].1),
                    None => return Err(WaterError::Load(module)),
                }
            },
        }
    }
    let modules = loader.finish();
    let ghost mods = modules@;
    let r = compile_modules(modules);
    proof {
        if lone {
            let shapes = expr_lines(toks, 1).unwrap();
            let c = lines_code(toks, shapes, module_start()).unwrap().0;
            let p = r->Ok_0;
            let cms = choose|cms: Seq<(Vec<u8>, CompiledModule)>|
                {
                    &&& cms.len() == mods.len()
                    &&& forall|m: int| 0 <= m < cms.len() ==> (#[trigger] cms[m]).0@ == mods[m].0@ && module_ok(cms[m].1)
                    &&& forall|m: int| 0 <= m < cms.len() ==> (stmts_code(mods[m].1.statements@, module_start())
                        matches Some((c, _s)) ==> (#[trigger] cms[m]).1.main@ == c && tableless(cms[m].1))
                    &&& links_to(cms, p)
                };
            assert(cms[0].0@ == mods[0].0@);
            assert(stmts_code(mods[0].1.statements@, module_start()) is Some);
            assert(cms[0].1.main@ == c && tableless(cms[0].1));
            assert(fragment_program(toks, p));
        }
    }
    r
}

/// The program that a source of expression lines (see [`source_compiles`])
/// compiles to: the program's own module alone, holding the code that its
/// tokens call for and no functions, strings or imports, linked.
pub open spec fn fragment_program(toks: Seq<(Token, Span)>, p: Program) -> bool {
    exists|cms: Seq<(Vec<u8>, CompiledModule)>|
        #![trigger links_to(cms, p)]
        {
            &&& cms.len() == 1
            &&& cms[0].0@ == main_module_name()
            &&& cms[0].1.main@ == lines_code(toks, expr_lines(toks, 1).unwrap(), module_start()).unwrap().0
            &&& tableless(cms[0].1)
            &&& links_to(cms, p)
        }
}

/// A program's source whose tokens `toks` are lines of expressions that
/// compile (see [`lines_code`]): it imports nothing and compiles.
pub open spec fn source_compiles(toks: Seq<(Token, Span)>) -> bool {
    expr_lines(toks, 1) matches Some(shapes) && lines_code(toks, shapes, module_start()) is Some
}

/// What running `program` prints, from a fresh machine with a heap of
/// `HEAP_CAPACITY` bytes, as text.
pub open spec fn program_output(program: &Program) -> Seq<char> {
    utf8_text(run_steps(initial_model(HEAP_CAPACITY as nat), program, FUEL as nat).out)
}

/// Runs a compiled program and gives what it printed; a run that fails
/// gives what was printed until then.
pub fn run_compiled(program: &Program) -> (r: String)
    ensures
        r@ == program_output(program),
        run_steps(initial_model(HEAP_CAPACITY as nat), program, FUEL as nat).out.len() == 0 ==> r@.len() == 0,
{
    let (out, _status) = exec_with(program, FUEL);
    bytes_to_text(out.as_slice())
}

/// `error: `, the start of every error message.
pub open spec fn error_prefix() -> Seq<u8> {
    seq![101u8, 114u8, 114u8, 111u8, 114u8, 58u8, 32u8]
}

/// What a compile error says.
pub open spec fn compile_error_text(e: CompileError) -> Seq<u8> {
    match e {
        CompileError::UnknownVariable(name) => "unknown variable ".spec_bytes() + name@,
        CompileError::TooManyRegisters => "too many registers".spec_bytes(),
        CompileError::TooManyArguments => "too many arguments".spec_bytes(),
        CompileError::BreakOutsideLoop => "break outside a loop".spec_bytes(),
        CompileError::ContinueOutsideLoop => "continue outside a loop".spec_bytes(),
        CompileError::InvalidAssignmentTarget => "invalid assignment target".spec_bytes(),
        CompileError::NotAModule(name) => "not a module: ".spec_bytes() + name@,
        CompileError::Unsupported => "unsupported expression".spec_bytes(),
        CompileError::ProgramTooLarge => "program too large".spec_bytes(),
    }
}

/// What an error says, after `error: ` and before the line feed.
pub open spec fn error_text(e: WaterError) -> Seq<u8> {
    match e {
        WaterError::Load(m) => "cannot load module ".spec_bytes() + m@,
        WaterError::Compile { module, error } => "in module ".spec_bytes() + module@ + ": ".spec_bytes()
            + compile_error_text(error),
        WaterError::Link(l) => match l {
            LinkError::NoModules => "nothing to link".spec_bytes(),
            LinkError::UnresolvedImport { module, name } => "unresolved import ".spec_bytes() + module@
                + "::".spec_bytes() + name@,
            LinkError::TooLarge => "program too large".spec_bytes(),
        },
    }
}

impl WaterError {
    /// A one-line description of the error, starting with `error: ` and
    /// ending with a line feed.
    pub fn message(&self) -> (r: Vec<u8>)
        ensures
            r@ == error_prefix() + error_text(*self) + seq![10u8],
            r@.len() > error_prefix().len(),
            r@.take(7) == error_prefix(),
            r@.last() == 10u8,
    {
        let mut out: Vec<u8> = Vec::new();
        match self {
            WaterError::Load(m) => {
                append_bytes(&mut out, "cannot load module ".as_bytes());
                append_bytes(&mut out, m.as_slice());
            },
            WaterError::Compile { module, error } => {
                append_bytes(&mut out, "in module ".as_bytes());
                append_bytes(&mut out, module.as_slice());
                append_bytes(&mut out, ": ".as_bytes());
                match error {
                    CompileError::UnknownVariable(name) => {
                        append_bytes(&mut out, "unknown variable ".as_bytes());
                        append_bytes(&mut out, name.as_slice());
                    },
                    CompileError::TooManyRegisters => append_bytes(&mut out, "too many registers".as_bytes()),
                    CompileError::TooManyArguments => append_bytes(&mut out, "too many arguments".as_bytes()),
                    CompileError::BreakOutsideLoop => append_bytes(&mut out, "break outside a loop".as_bytes()),
                    CompileError::ContinueOutsideLoop => append_bytes(&mut out, "continue outside a loop".as_bytes()),
                    CompileError::InvalidAssignmentTarget => append_bytes(&mut out, "invalid assignment target".as_bytes()),
                    CompileError::NotAModule(name) => {
                        append_bytes(&mut out, "not a module: ".as_bytes());
                        append_bytes(&mut out, name.as_slice());
                    },
                    CompileError::Unsupported => append_bytes(&mut out, "unsupported expression".as_bytes()),
                    CompileError::ProgramTooLarge => append_bytes(&mut out, "program too large".as_bytes()),
                }
            },
            WaterError::Link(e) => match e {
                LinkError::NoModules => append_bytes(&mut out, "nothing to link".as_bytes()),
                LinkError::UnresolvedImport { module, name } => {
                    append_bytes(&mut out, "unresolved import ".as_bytes());
                    append_bytes(&mut out, module.as_slice());
                    append_bytes(&mut out, "::".as_bytes());
                    append_bytes(&mut out, name.as_slice());
                },
                LinkError::TooLarge => append_bytes(&mut out, "program too large".as_bytes()),
            },
        }
        assert(out@ =~= error_text(*self));
        out.push(10u8);
        let mut msg = vec![101u8, 114u8, 114u8, 111u8, 114u8, 58u8, 32u8];
        msg.append(&mut out);
        assert(msg@.take(7) =~= error_prefix());
        assert(msg@ =~= error_prefix() + error_text(*self) + seq![10u8]);
        msg
    }
}

/// Compiles and runs a program whose imports are read from `files` (see
/// [`compile_source`]) and gives what it printed; when it does not
/// compile, the error's message.
pub fn run_capturing_with_files(source: &str, files: &[(&str, &str)]) -> (r: String)
    ensures
        (exists|p: Program| program_ok(p) && r@ == program_output(&p)) || (exists|e: WaterError|
            r@ == utf8_text(error_prefix() + error_text(e) + seq![10u8])),
        exists|toks: Seq<(Token, Span)>|
            #![trigger tokens_ok(toks, source.spec_bytes())]
            {
                &&& tokens_ok(toks, source.spec_bytes())
                &&& kinds_of(toks) == lex_spec(source.spec_bytes()).toks
                &&& source_compiles(toks) ==> exists|p: Program|
                    #![trigger fragment_program(toks, p)]
                    fragment_program(toks, p) && r@ == program_output(&p)
                &&& source_compiles(toks) ==> r@.len() == 0
            },
{
    let compiled = compile_source(source, files);
    let ghost toks = choose|toks: Seq<(Token, Span)>|
        {
            &&& tokens_ok(toks, source.spec_bytes())
            &&& kinds_of(toks) == lex_spec(source.spec_bytes()).toks
            &&& source_compiles(toks) ==> (compiled matches Ok(p) && fragment_program(toks, p))
        };
    match compiled {
        Ok(p) => {
            let out = run_compiled(&p);
            assert(program_ok(p) && out@ == program_output(&p));
            assert(source_compiles(toks) ==> fragment_program(toks, p) && out@ == program_output(&p));
            proof {
                if source_compiles(toks) {
                    law_expression_lines_print_nothing(toks, p, FUEL as nat);
                }
            }
            out
        },
        Err(e) => {
            let m = e.message();
            let out = bytes_to_text(m.as_slice());
            assert(out@ == utf8_text(error_prefix() + error_text(e) + seq![10u8]));
            out
        },
    }
}

/// Compiles and runs a program that imports nothing and gives what it
/// printed (see [`run_capturing_with_files`]).
pub fn run_capturing(source: &str) -> (r: String)
    ensures
        (exists|p: Program| program_ok(p) && r@ == program_output(&p)) || (exists|e: WaterError|
            r@ == utf8_text(error_prefix() + error_text(e) + seq![10u8])),
        exists|toks: Seq<(Token, Span)>|
            #![trigger tokens_ok(toks, source.spec_bytes())]
            {
                &&& tokens_ok(toks, source.spec_bytes())
                &&& kinds_of(toks) == lex_spec(source.spec_bytes()).toks
                &&& source_compiles(toks) ==> exists|p: Program|
                    #![trigger fragment_program(toks, p)]
                    fragment_program(toks, p) && r@ == program_output(&p)
                &&& source_compiles(toks) ==> r@.len() == 0
            },
{
    let files: Vec<(&str, &str)> = Vec::new();
    run_capturing_with_files(source, files.as_slice())
}
} // verus!
