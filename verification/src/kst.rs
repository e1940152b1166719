//! The kernel symbol table and the linking of the initial module: each
//! symbol of the module is looked at by its name. `Ke` names are kernel
//! symbols, which a module must not define; `Ki` names import the kernel
//! symbol named by the rest; `Me` names are exported by the module; `Mi`
//! names import from other modules, which the initial module cannot do.

use vstd::prelude::*;
use vstd::string::StrSliceExecFns;

verus! {

/// A symbol of the table: its address and its version.
#[derive(Clone, Copy, Debug, PartialEq, Eq, Structural)]
pub struct ModSymbol {
    /// Where it is.
    pub addr: usize,
    /// Major version.
    pub vmaj: u32,
    /// Minor version.
    pub vmin: u32,
}

/// The symbol of the table named `name`: the one entered last.
pub open spec fn lookup(entries: Seq<(String, ModSymbol)>, name: Seq<char>) -> Option<ModSymbol>
    decreases entries.len(),
{
    if entries.len() == 0 {
        None
    } else if entries.last().0@ == name {
        Some(entries.last().1)
    } else {
        lookup(entries.drop_last(), name)
    }
}

/// Whether `s` starts with the characters `a` and `b`.
pub open spec fn starts2(s: Seq<char>, a: char, b: char) -> bool {
    s.len() >= 2 && s[0] == a && s[1] == b
}

/// What linking does with a symbol of the initial module.
#[derive(Clone, Copy, Debug, PartialEq, Eq, Structural)]
pub enum LinkStep {
    /// The module defines a kernel (`Ke`) name: it is refused.
    RefuseKernelName,
    /// The module imports this kernel symbol: its slot gets the address,
    /// where the versions agree.
    Import(ModSymbol),
    /// The module imports a kernel-looking name the kernel does not have:
    /// it is refused.
    RefuseUnknownKernelImport,
    /// The module exports the symbol: it enters the table.
    Export,
    /// The module imports from another module: the initial module cannot.
    RefuseModularImport,
    /// Nothing to do.
    Skip,
}

/// The step for a symbol named `name` against the table `entries`.
pub open spec fn link_step_spec(entries: Seq<(String, ModSymbol)>, name: Seq<char>) -> LinkStep {
    if starts2(name, 'K', 'e') {
        LinkStep::RefuseKernelName
    } else if starts2(name, 'K', 'i') {
        let rest = name.subrange(2, name.len() as int);
        match lookup(entries, rest) {
            Some(t) => LinkStep::Import(t),
            None => if rest.len() > 2 && starts2(rest, 'K', 'e') {
                LinkStep::RefuseUnknownKernelImport
            } else {
                LinkStep::Skip
            },
        }
    } else if starts2(name, 'M', 'e') {
        LinkStep::Export
    } else if starts2(name, 'M', 'i') {
        LinkStep::RefuseModularImport
    } else {
        LinkStep::Skip
    }
}

/// Whether `s` starts with `a` and `b`.
fn starts_with2(s: &str, a: char, b: char) -> (r: bool)
    ensures
        r == starts2(s@, a, b),
{
    let n = s.unicode_len();
    if n < 2 {
        return false;
    }
    s.get_char(0) == a && s.get_char(1) == b
}

/// Whether a kernel symbol of version `kernel` satisfies an import that
/// asks for major version `vmaj` and at least minor version `vmin`.
pub fn version_compatible(kernel: ModSymbol, vmaj: u32, vmin: u32) -> (b: bool)
    ensures
        b == (kernel.vmaj == vmaj && kernel.vmin >= vmin),
{
    !(kernel.vmaj != vmaj || kernel.vmin < vmin)
}

/// The kernel symbol table.
pub struct KernelSymbols {
    /// The symbols by name, in the order they were entered.
    pub entries: Vec<(String, ModSymbol)>,
}

impl KernelSymbols {
    /// An empty table.
    pub fn new() -> (k: KernelSymbols)
        ensures
            k.entries@ == Seq::<(String, ModSymbol)>::empty(),
    {
        KernelSymbols { entries: Vec::new() }
    }

    /// Enters `sym` under `name`, in place of a symbol of that name.
    pub fn insert(&mut self, name: String, sym: ModSymbol)
        ensures
            final(self).entries@ == old(self).entries@.push((name, sym)),
    {
        self.entries.push((name, sym));
    }

    /// The symbol named `name`, if any.
    pub fn get(&self, name: &str) -> (r: Option<ModSymbol>)
        ensures
            r == lookup(self.entries@, name@),
    {
        let want = name.to_owned();
        let mut r: Option<ModSymbol> = None;
        let mut i: usize = 0;
        while i < self.entries.len()
            invariant
                i <= self.entries@.len(),
                want@ == name@,
                r == lookup(self.entries@.take(i as int), name@),
            decreases self.entries@.len() - i,
        {
            proof { assert(self.entries@.take(i + 1).drop_last() == self.entries@.take(i as int)); }
            if self.entries[i].0 == want {
                r = Some(self.entries[i].1);
            }
            i = i + 1;
        }
        proof { assert(self.entries@.take(self.entries@.len() as int) == self.entries@); }
        r
    }

    /// What linking does with the symbol `name` of the initial module; see
    /// [`link_step_spec`].
    pub fn link_step(&self, name: &str) -> (r: LinkStep)
        ensures
            r == link_step_spec(self.entries@, name@),
    {
        if starts_with2(name, 'K', 'e') {
            return LinkStep::RefuseKernelName;
        }
        if starts_with2(name, 'K', 'i') {
            let n = name.unicode_len();
            let rest = name.substring_char(2, n);
            match self.get(rest) {
                Some(t) => return LinkStep::Import(t),
                None => {
                    if rest.unicode_len() > 2 && starts_with2(rest, 'K', 'e') {
                        return LinkStep::RefuseUnknownKernelImport;
                    }
                    return LinkStep::Skip;
                },
            }
        }
        if starts_with2(name, 'M', 'e') {
            return LinkStep::Export;
        }
        if starts_with2(name, 'M', 'i') {
            return LinkStep::RefuseModularImport;
        }
        LinkStep::Skip
    }
}

/// A symbol just entered is the one found under its name.
pub proof fn lemma_inserted_found(entries: Seq<(String, ModSymbol)>, name: String, sym: ModSymbol)
    ensures
        lookup(entries.push((name, sym)), name@) == Some(sym),
{
}

} // verus!
