//! Finding what a function key stands for in a program.

use crate::absy::{
    ModuleView, ProgramView, SymbolView, TypedFunctionSymbol, TypedModule, TypedProgram,
};
use crate::model::Modelled;
use crate::types::{FunctionKey, FunctionKeyView};
use vstd::prelude::*;

verus! {

/// The module of the given name: the last of that name.
pub open spec fn find_module(modules: Seq<(Seq<char>, ModuleView)>, name: Seq<char>) -> Option<
    ModuleView,
>
    decreases modules.len(),
{
    if modules.len() == 0 {
        None
    } else if modules.last().0 == name {
        Some(modules.last().1)
    } else {
        find_module(modules.drop_last(), name)
    }
}

/// What a key stands for among the functions of a module: the last entry
/// with that key.
pub open spec fn find_function(functions: Seq<(FunctionKeyView, SymbolView)>, key: FunctionKeyView)
    -> Option<SymbolView>
    decreases functions.len(),
{
    if functions.len() == 0 {
        None
    } else if functions.last().0 == key {
        Some(functions.last().1)
    } else {
        find_function(functions.drop_last(), key)
    }
}

/// What a key stands for in a program: its entry in the module that it
/// names.
pub open spec fn resolve(p: ProgramView, key: FunctionKeyView) -> Option<SymbolView> {
    match find_module(p.modules, key.module) {
        None => None,
        Some(m) => find_function(m.functions, key),
    }
}

impl TypedModule {
    /// What a key stands for among the functions of the module.
    pub fn find(&self, key: &FunctionKey) -> (r: Option<&TypedFunctionSymbol>)
        ensures
            match find_function(self@.functions, key@) {
                None => r is None,
                Some(s) => r is Some && r->0@ == s,
            },
    {
        let ghost all = self@.functions;
        let mut i: usize = self.functions.len();
        assert(all.take(i as int) =~= all);
        while i > 0
            invariant
                i <= self.functions.len(),
                all == self@.functions,
                find_function(all, key@) == find_function(all.take(i as int), key@),
            decreases i,
        {
            proof {
                assert(all.take(i as int).drop_last() =~= all.take(i - 1));
                assert(all.take(i as int).last() == self.functions@[i - 1]@);
            }
            i -= 1;
            if self.functions[i].0.equals(key) {
                return Some(&self.functions[i].1);
            }
        }
        None
    }
}

impl TypedProgram {
    /// The module of the given name.
    pub fn module(&self, name: &String) -> (r: Option<&TypedModule>)
        ensures
            match find_module(self@.modules, name@) {
                None => r is None,
                Some(m) => r is Some && r->0@ == m,
            },
    {
        let ghost all = self@.modules;
        let mut i: usize = self.modules.len();
        assert(all.take(i as int) =~= all);
        while i > 0
            invariant
                i <= self.modules.len(),
                all == self@.modules,
                find_module(all, name@) == find_module(all.take(i as int), name@),
            decreases i,
        {
            proof {
                assert(all.take(i as int).drop_last() =~= all.take(i - 1));
                assert(all.take(i as int).last() == self.modules@[i - 1]@);
            }
            i -= 1;
            if self.modules[i].0 == *name {
                return Some(&self.modules[i].1);
            }
        }
        None
    }

    /// What a key stands for in the program.
    pub fn resolve(&self, key: &FunctionKey) -> (r: Option<&TypedFunctionSymbol>)
        ensures
            match resolve(self@, key@) {
                None => r is None,
                Some(s) => r is Some && r->0@ == s,
            },
    {
        match self.module(&key.module) {
            None => None,
            Some(m) => m.find(key),
        }
    }
}

} // verus!
