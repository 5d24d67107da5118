//! Register allocation for the code generator: a stack of scopes that bind
//! names to registers, and the first free register.
//!
//! Registers 0 to 9 carry results and arguments; variables and
//! intermediate values take registers from 10 up, and leaving a scope frees
//! every register taken since it was entered.
use vstd::prelude::*;
use crate::vm::NR_OF_REGISTERS;

verus! {

/// The first register that variables and intermediates may take.
pub const FIRST_FREE_REGISTER: usize = 10;

/// The abstract symbol table: per scope its bindings in the order they were
/// made, the first free register when the scope was entered, and the first
/// free register now.
pub struct SymbolModel {
    pub scopes: Seq<Seq<(Seq<u8>, nat)>>,
    pub marks: Seq<nat>,
    pub top: nat,
}

/// The register bound to `name` in one scope: its latest binding.
pub open spec fn lookup_scope(s: Seq<(Seq<u8>, nat)>, name: Seq<u8>) -> Option<nat>
    decreases s.len(),
{
    if s.len() == 0 {
        None
    } else if s.last().0 == name {
        Some(s.last().1)
    } else {
        lookup_scope(s.drop_last(), name)
    }
}

/// The register bound to `name`: in the innermost scope that binds it.
pub open spec fn lookup(scopes: Seq<Seq<(Seq<u8>, nat)>>, name: Seq<u8>) -> Option<nat>
    decreases scopes.len(),
{
    if scopes.len() == 0 {
        None
    } else {
        match lookup_scope(scopes.last(), name) {
            Some(r) => Some(r),
            None => lookup(scopes.drop_last(), name),
        }
    }
}

pub open spec fn model_push_scope(m: SymbolModel) -> SymbolModel {
    SymbolModel { scopes: m.scopes.push(seq![]), marks: m.marks.push(m.top), top: m.top }
}

pub open spec fn model_pop_scope(m: SymbolModel) -> SymbolModel {
    if m.scopes.len() == 0 {
        m
    } else {
        SymbolModel { scopes: m.scopes.drop_last(), marks: m.marks.drop_last(), top: m.marks.last() }
    }
}

/// Binding `name` to the first free register in the innermost scope.
pub open spec fn model_register(m: SymbolModel, name: Seq<u8>) -> SymbolModel {
    SymbolModel {
        scopes: m.scopes.update(m.scopes.len() - 1, m.scopes.last().push((name, m.top))),
        marks: m.marks,
        top: m.top + 1,
    }
}

pub open spec fn model_intermediate(m: SymbolModel) -> SymbolModel {
    SymbolModel { top: m.top + 1, ..m }
}

/// The table's invariant: the free register lies between the first free
/// one and the register count; the marks of the scopes, the registers
/// free when each was entered, grow from the outermost scope in and stay
/// at most the free register; and each scope binds only registers taken
/// before the next scope was entered (for the innermost, before now).
pub open spec fn model_wf(m: SymbolModel) -> bool {
    &&& m.scopes.len() == m.marks.len()
    &&& FIRST_FREE_REGISTER <= m.top <= NR_OF_REGISTERS
    &&& forall|i: int| 0 <= i < m.marks.len() ==> FIRST_FREE_REGISTER <= #[trigger] m.marks[i] <= m.top
    &&& forall|i: int, k: int| 0 <= i < k < m.marks.len() ==> #[trigger] m.marks[i] <= #[trigger] m.marks[k]
    &&& forall|i: int, j: int|
        0 <= i < m.scopes.len() && 0 <= j < m.scopes[i].len() ==> #[trigger] m.scopes[i][j].1 < scope_limit(m, i)
}

/// What the registers bound in scope `i` lie below.
pub open spec fn scope_limit(m: SymbolModel, i: int) -> nat {
    if i + 1 < m.marks.len() {
        m.marks[i + 1]
    } else {
        m.top
    }
}

pub struct SymbolTable {
    scopes: Vec<(Vec<(Vec<u8>, usize)>, usize)>,
    reg_top: usize,
}

pub open spec fn scope_model(sc: Vec<(Vec<u8>, usize)>) -> Seq<(Seq<u8>, nat)> {
    sc@.map_values(|b: (Vec<u8>, usize)| (b.0@, b.1 as nat))
}

proof fn lemma_lookup_scope_bound(s: Seq<(Seq<u8>, nat)>, name: Seq<u8>, bound: nat)
    requires
        forall|j: int| 0 <= j < s.len() ==> #[trigger] s[j].1 < bound,
    ensures
        lookup_scope(s, name) matches Some(r) ==> r < bound,
    decreases s.len(),
{
    if s.len() > 0 {
        lemma_lookup_scope_bound(s.drop_last(), name, bound);
    }
}

/// Every register that a lookup finds is below the free register.
pub proof fn lemma_lookup_bound(m: SymbolModel, name: Seq<u8>)
    requires
        model_wf(m),
    ensures
        lookup(m.scopes, name) matches Some(r) ==> r < m.top,
    decreases m.scopes.len(),
{
    if m.scopes.len() > 0 {
        let n = m.scopes.len() - 1;
        assert forall|j: int| 0 <= j < m.scopes.last().len() implies #[trigger] m.scopes.last()[j].1 < m.top by {
            assert(m.scopes[n][j].1 < scope_limit(m, n));
        }
        lemma_lookup_scope_bound(m.scopes.last(), name, m.top);
        let inner = SymbolModel { scopes: m.scopes.drop_last(), marks: m.marks.drop_last(), top: m.top };
        assert forall|i: int, j: int|
            0 <= i < inner.scopes.len() && 0 <= j < inner.scopes[i].len() implies #[trigger] inner.scopes[i][j].1
                < scope_limit(inner, i) by {
            assert(m.scopes[i][j].1 < scope_limit(m, i));
            if i + 1 < m.marks.len() {
                assert(m.marks[i + 1] <= m.top);
            }
        }
        lemma_lookup_bound(inner, name);
    }
}

impl SymbolTable {
    pub closed spec fn model(&self) -> SymbolModel {
        SymbolModel {
            scopes: self.scopes@.map_values(|sc: (Vec<(Vec<u8>, usize)>, usize)| scope_model(sc.0)),
            marks: self.scopes@.map_values(|sc: (Vec<(Vec<u8>, usize)>, usize)| sc.1 as nat),
            top: self.reg_top as nat,
        }
    }

    /// An empty table; the first free register is 10.
    pub fn new() -> (r: Self)
        ensures
            r.model() == (SymbolModel { scopes: seq![], marks: seq![], top: FIRST_FREE_REGISTER as nat }),
            model_wf(r.model()),
    {
        let r = Self { scopes: Vec::new(), reg_top: FIRST_FREE_REGISTER };
        assert(r.model().scopes =~= seq![]);
        assert(r.model().marks =~= seq![]);
        r
    }

    /// The first free register.
    pub fn top(&self) -> (r: usize)
        ensures
            r == self.model().top,
    {
        self.reg_top
    }

    /// How many scopes are open.
    pub fn depth(&self) -> (r: usize)
        ensures
            r == self.model().scopes.len(),
    {
        self.scopes.len()
    }

    pub fn push_scope(&mut self)
        requires
            model_wf(old(self).model()),
        ensures
            final(self).model() == model_push_scope(old(self).model()),
            model_wf(final(self).model()),
    {
        let fresh: Vec<(Vec<u8>, usize)> = Vec::new();
        assert(scope_model(fresh) =~= seq![]);
        self.scopes.push((fresh, self.reg_top));
        proof {
            let m = self.model();
            let o = model_push_scope(old(self).model());
            assert(m.scopes =~= o.scopes);
            assert(m.marks =~= o.marks);
        }
    }

    /// Leaves the innermost scope: its bindings are forgotten and the
    /// registers taken since it was entered are free again.
    pub fn pop_scope(&mut self)
        requires
            model_wf(old(self).model()),
        ensures
            final(self).model() == model_pop_scope(old(self).model()),
            model_wf(final(self).model()),
    {
        if self.scopes.len() > 0 {
            let ghost m0 = self.model();
            let (_, watermark) = self.scopes.pop().unwrap();
            self.reg_top = watermark;
            proof {
                let m = self.model();
                let o = model_pop_scope(m0);
                assert(m.scopes =~= o.scopes);
                assert(m.marks =~= o.marks);
                let n = m0.marks.len() - 1;
                assert forall|i: int, j: int|
                    0 <= i < m.scopes.len() && 0 <= j < m.scopes[i].len() implies #[trigger] m.scopes[i][j].1
                        < scope_limit(m, i) by {
                    assert(m0.scopes[i][j].1 < scope_limit(m0, i));
                    assert(m0.marks[i + 1] <= m0.marks[n]);
                }
                assert forall|i: int| 0 <= i < m.marks.len() implies FIRST_FREE_REGISTER <= #[trigger] m.marks[i] <= m.top by {
                    assert(m0.marks[i] <= m0.marks[n]);
                }
            }
        }
    }

    /// Takes the first free register for an intermediate value, or fails
    /// when none is left.
    pub fn register_intermediate(&mut self) -> (r: Result<usize, CompileError>)
        requires
            model_wf(old(self).model()),
        ensures
            model_wf(final(self).model()),
            match r {
                Ok(reg) => reg == old(self).model().top && final(self).model() == model_intermediate(
                    old(self).model(),
                ),
                Err(e) => e == CompileError::TooManyRegisters && final(self).model() == old(
                    self,
                ).model() && old(self).model().top == NR_OF_REGISTERS,
            },
    {
        if self.reg_top >= NR_OF_REGISTERS {
            return Err(CompileError::TooManyRegisters);
        }
        self.reg_top = self.reg_top + 1;
        proof {
            let m = self.model();
            let o = model_intermediate(old(self).model());
            assert(m.scopes =~= o.scopes);
            assert(m.marks =~= o.marks);
        }
        Ok(self.reg_top - 1)
    }

    /// Binds `name` in the innermost scope to the first free register, or
    /// fails when none is left.
    pub fn register_variable(&mut self, name: &Vec<u8>) -> (r: Result<usize, CompileError>)
        requires
            model_wf(old(self).model()),
            old(self).model().scopes.len() > 0,
        ensures
            model_wf(final(self).model()),
            match r {
                Ok(reg) => reg == old(self).model().top && final(self).model() == model_register(
                    old(self).model(),
                    name@,
                ),
                Err(e) => e == CompileError::TooManyRegisters && final(self).model() == old(
                    self,
                ).model() && old(self).model().top == NR_OF_REGISTERS,
            },
    {
        if self.reg_top >= NR_OF_REGISTERS {
            return Err(CompileError::TooManyRegisters);
        }
        let ghost m0 = self.model();
        let reg = self.reg_top;
        let (mut bindings, mark) = self.scopes.pop().unwrap();
        let ghost b0 = bindings;
        bindings.push((crate::token::copy_bytes(name), reg));
        self.scopes.push((bindings, mark));
        self.reg_top = reg + 1;
        proof {
            let m = self.model();
            let o = model_register(m0, name@);
            assert(scope_model(bindings) =~= scope_model(b0).push((name@, reg as nat)));
            assert(m.scopes =~= o.scopes);
            assert(m.marks =~= o.marks);
            let n = m0.scopes.len() - 1;
            assert forall|i: int, j: int|
                0 <= i < m.scopes.len() && 0 <= j < m.scopes[i].len() implies #[trigger] m.scopes[i][j].1
                    < scope_limit(m, i) by {
                if i < n || j < m0.scopes[n].len() {
                    assert(m0.scopes[i][j].1 < scope_limit(m0, i));
                }
            }
        }
        Ok(reg)
    }

    /// The register bound to `name` in the innermost scope that binds it.
    pub fn get_variable(&self, name: &[u8]) -> (r: Option<usize>)
        requires
            model_wf(self.model()),
        ensures
            match lookup(self.model().scopes, name@) {
                Some(reg) => r == Some(reg as usize),
                None => r is None,
            },
            r matches Some(reg) ==> reg < self.model().top,
            lookup(self.model().scopes, name@) matches Some(reg) ==> reg < self.model().top,
    {
        proof {
            lemma_lookup_bound(self.model(), name@);
        }
        let mut i = self.scopes.len();
        assert(self.model().scopes.take(i as int) =~= self.model().scopes);
        while i > 0
            invariant
                i <= self.scopes@.len(),
                lookup(self.model().scopes, name@) == lookup(self.model().scopes.take(i as int), name@),
                lookup(self.model().scopes, name@) matches Some(r) ==> r < self.model().top,
            decreases i,
        {
            let ghost pre = self.model().scopes.take(i as int);
            let scope = &self.scopes[i - 1].0;
            let mut j = scope.len();
            assert(pre.last() == scope_model(*scope));
            assert(scope_model(*scope).take(j as int) =~= scope_model(*scope));
            while j > 0
                invariant
                    0 < i <= self.scopes@.len(),
                    pre == self.model().scopes.take(i as int),
                    lookup(self.model().scopes, name@) == lookup(pre, name@),
                    pre.last() == scope_model(*scope),
                    lookup(self.model().scopes, name@) matches Some(r) ==> r < self.model().top,
                    j <= scope@.len(),
                    scope == self.scopes@[i - 1].0,
                    lookup_scope(scope_model(*scope), name@) == lookup_scope(
                        scope_model(*scope).take(j as int),
                        name@,
                    ),
                decreases j,
            {
                let ghost part = scope_model(*scope).take(j as int);
                assert(part.drop_last() =~= scope_model(*scope).take(j - 1));
                if bytes_equal(scope[j - 1].0.as_slice(), name) {
                    assert(part.last() == (scope[j - 1].0@, scope[j - 1].1 as nat));
                    assert(lookup(pre, name@) == Some(scope[j - 1].1 as nat));
                    return Some(scope[j - 1].1);
                }
                j = j - 1;
            }
            assert(scope_model(*scope).take(0) =~= seq![]);
            assert(pre.last() == scope_model(*scope));
            assert(pre.drop_last() =~= self.model().scopes.take(i - 1));
            i = i - 1;
        }
        assert(self.model().scopes.take(0) =~= seq![]);
        None
    }
}

/// Whether two byte strings are equal.
pub fn bytes_equal(a: &[u8], b: &[u8]) -> (r: bool)
    ensures
        r == (a@ == b@),
{
    if a.len() != b.len() {
        return false;
    }
    let mut i: usize = 0;
    while i < a.len()
        invariant
            a@.len() == b@.len(),
            i <= a@.len(),
            forall|k: int| 0 <= k < i ==> a@[k] == b@[k],
        decreases a@.len() - i,
    {
        if a[i] != b[i] {
            return false;
        }
        i = i + 1;
    }
    assert(a@ =~= b@);
    true
}

/// Why a module does not compile.
#[derive(Debug, PartialEq, Eq)]
pub enum CompileError {
    /// A name that no enclosing scope binds.
    UnknownVariable(Vec<u8>),
    /// More registers than the machine has would be needed at once.
    TooManyRegisters,
    /// A call with more arguments than there are argument registers.
    TooManyArguments,
    BreakOutsideLoop,
    ContinueOutsideLoop,
    /// An assignment to something other than a name or an indexing.
    InvalidAssignmentTarget,
    /// `NAME.member` where `NAME` is not an imported module.
    NotAModule(Vec<u8>),
    /// An expression that the machine has no instructions for.
    Unsupported,
    /// Code longer than the generator builds.
    ProgramTooLarge,
}

/// Binding a name makes it found: what a lookup gives back of a
/// registration.
pub proof fn law_lookup_after_register(m: SymbolModel, name: Seq<u8>)
    requires
        m.scopes.len() > 0,
    ensures
        lookup(model_register(m, name).scopes, name) == Some(m.top),
{
    let s = model_register(m, name).scopes;
    assert(s.last() == m.scopes.last().push((name, m.top)));
}

/// Leaving a scope right after entering it changes nothing.
pub proof fn law_pop_undoes_push(m: SymbolModel)
    ensures
        model_pop_scope(model_push_scope(m)) == m,
{
    assert(model_push_scope(m).scopes.drop_last() =~= m.scopes);
    assert(model_push_scope(m).marks.drop_last() =~= m.marks);
}

/// Names bound in a scope, and registers taken in it, are gone once it is
/// left.
pub proof fn law_pop_forgets_scope(m: SymbolModel, name: Seq<u8>)
    ensures
        model_pop_scope(model_intermediate(model_register(model_push_scope(m), name))) == m,
{
    let inner = model_intermediate(model_register(model_push_scope(m), name));
    assert(inner.scopes.drop_last() =~= m.scopes);
    assert(inner.marks.drop_last() =~= m.marks);
}

} // verus!
