//! Symbol lookup: the callback interface the injector resolves imported
//! names through, and a small table-backed implementation.
//!
//! Parsing debug information out of object files is outside this crate;
//! whatever does it hands the injector a `SymbolSource`.

use vstd::prelude::*;

verus! {

/// Resolves a symbol name to its absolute address in the debuggee.
///
/// The injector calls this for every imported symbol during finalize.  The
/// contract is the caller's: a total function over the names it declares as
/// imports.  `spec_lookup` is the source's resolution as a mathematical
/// function, so that callers can state exactly which address an import was
/// patched with.  The default abstraction resolves every name to zero; a
/// verified source overrides it with its table's view, and an unverified
/// one (backed by parsed debug information) promises nothing.
pub trait SymbolSource {
    /// The address this source resolves each name to.
    open spec fn spec_lookup(&self, name: Seq<char>) -> u64 {
        0
    }

    /// Resolves `name` to its absolute address in the debuggee.
    fn lookup(&self, name: &String) -> (r: u64)
        ensures
            r == self.spec_lookup(name@),
    ;
}

/// The address of the last pair carrying `name`, or zero.
pub open spec fn spec_name_lookup(entries: Seq<(Seq<char>, u64)>, name: Seq<char>) -> u64
    decreases entries.len(),
{
    if entries.len() == 0 {
        0
    } else if entries.last().0 == name {
        entries.last().1
    } else {
        spec_name_lookup(entries.drop_last(), name)
    }
}

/// A `SymbolSource` backed by a list of name/address pairs; unknown names
/// resolve to zero.
pub struct SymbolMap {
    entries: Vec<(String, u64)>,
}

impl SymbolMap {
    /// The name/address pairs, in insertion order.
    pub closed spec fn entries(self) -> Seq<(Seq<char>, u64)> {
        self.entries@.map(|i: int, e: (String, u64)| (e.0@, e.1))
    }

    /// An empty table.
    pub fn new() -> (r: SymbolMap)
        ensures
            r.entries().len() == 0,
    {
        SymbolMap { entries: Vec::new() }
    }

    /// Adds a pair; a later pair shadows an earlier one of the same name.
    pub fn insert(&mut self, name: &String, addr: u64)
        ensures
            final(self).entries() == old(self).entries().push((name@, addr)),
    {
        self.entries.push((name.clone(), addr));
        proof {
            assert(self.entries() =~= old(self).entries().push((name@, addr)));
        }
    }
}

impl SymbolSource for SymbolMap {
    /// The address of the last pair carrying the name, or zero.
    open spec fn spec_lookup(&self, name: Seq<char>) -> u64 {
        spec_name_lookup(self.entries(), name)
    }

    /// Returns the address of the last pair carrying `name`, or zero.
    fn lookup(&self, name: &String) -> (r: u64) {
        let mut i: usize = self.entries.len();
        proof {
            assert(self.entries().take(i as int) =~= self.entries());
        }
        while i > 0
            invariant
                i <= self.entries@.len(),
                spec_name_lookup(self.entries(), name@) == spec_name_lookup(
                    self.entries().take(i as int),
                    name@,
                ),
            decreases i,
        {
            i -= 1;
            proof {
                assert(self.entries().take(i + 1).drop_last() =~= self.entries().take(i as int));
                assert(self.entries().take(i + 1).last() == self.entries()[i as int]);
            }
            if self.entries[i].0 == *name {
                return self.entries[i].1;
            }
        }
        proof {
            assert(self.entries().take(0) =~= Seq::<(Seq<char>, u64)>::empty());
        }
        0
    }
}


/// The address of the last variable entry carrying `name`, if any.
pub open spec fn spec_var_lookup(vars: Seq<(Seq<char>, u64)>, name: Seq<char>) -> Option<u64>
    decreases vars.len(),
{
    if vars.len() == 0 {
        None
    } else if vars.last().0 == name {
        Some(vars.last().1)
    } else {
        spec_var_lookup(vars.drop_last(), name)
    }
}

/// The address of the last symbol entry carrying `name`, if any.
pub open spec fn spec_addr_of_name(syms: Seq<(u64, Seq<char>)>, name: Seq<char>) -> Option<u64>
    decreases syms.len(),
{
    if syms.len() == 0 {
        None
    } else if syms.last().1 == name {
        Some(syms.last().0)
    } else {
        spec_addr_of_name(syms.drop_last(), name)
    }
}

/// Address-ordered symbol table plus static-variable addresses, as parsed
/// debug information hands them over in plain values.
pub struct SymbolIndex {
    symbols: Vec<(u64, String)>,
    vars: Vec<(String, u64)>,
}

impl SymbolIndex {
    /// The `(address, name)` symbol entries, in address order.
    pub closed spec fn syms(self) -> Seq<(u64, Seq<char>)> {
        self.symbols@.map(|i: int, e: (u64, String)| (e.0, e.1@))
    }

    /// The `(name, address)` static-variable entries.
    pub closed spec fn vars(self) -> Seq<(Seq<char>, u64)> {
        self.vars@.map(|i: int, e: (String, u64)| (e.0@, e.1))
    }

    /// Symbol entries are sorted by address.
    pub open spec fn wf(self) -> bool {
        forall|i: int, j: int|
            #![trigger self.syms()[i], self.syms()[j]]
            0 <= i < j < self.syms().len() ==> self.syms()[i].0 <= self.syms()[j].0
    }

    /// An empty index.
    pub fn new() -> (r: SymbolIndex)
        ensures
            r.wf(),
            r.syms().len() == 0,
            r.vars().len() == 0,
    {
        SymbolIndex { symbols: Vec::new(), vars: Vec::new() }
    }

    /// Records one symbol, keeping the entries address-ordered.
    pub fn insert_symbol(&mut self, addr: u64, name: &String)
        requires
            old(self).wf(),
        ensures
            final(self).wf(),
            final(self).vars() == old(self).vars(),
            exists|i: int|
                0 <= i <= old(self).syms().len() && #[trigger] final(self).syms() == old(
                    self,
                ).syms().take(i) + seq![(addr, name@)] + old(self).syms().skip(i),
    {
        let mut i: usize = 0;
        while i < self.symbols.len() && self.symbols[i].0 <= addr
            invariant
                i <= self.syms().len(),
                forall|k: int| 0 <= k < i ==> (#[trigger] self.syms()[k]).0 <= addr,
            decreases self.syms().len() - i,
        {
            i += 1;
        }
        let ghost before: Seq<(u64, Seq<char>)> = self.syms();
        let ghost at: int = i as int;
        self.symbols.insert(i, (addr, name.clone()));
        proof {
            assert(self.syms() =~= before.take(at) + seq![(addr, name@)] + before.skip(at));
            assert forall|p: int, q: int|
                #![trigger self.syms()[p], self.syms()[q]]
                0 <= p < q < self.syms().len() implies self.syms()[p].0
                <= self.syms()[q].0 by {
                if p < at && q < at {
                    assert(self.syms()[p] == before[p] && self.syms()[q] == before[q]);
                } else if p < at && q == at {
                    assert(self.syms()[p] == before[p]);
                } else if p < at && q > at {
                    assert(self.syms()[p] == before[p] && self.syms()[q] == before[q - 1]);
                    assert(before[p].0 <= addr);
                    assert(at <= q - 1 < before.len());
                } else if p == at {
                    assert(self.syms()[q] == before[q - 1]);
                    assert(at <= q - 1 < before.len());
                    assert(before[at].0 > addr);
                    assert(before[at].0 <= before[q - 1].0 || at == q - 1);
                } else {
                    assert(self.syms()[p] == before[p - 1] && self.syms()[q] == before[q - 1]);
                }
            }
        }
    }

    /// The address of the symbol declared under `name`, if any.
    pub fn get_symbol_address(&self, name: &String) -> (r: Option<u64>)
        ensures
            r == spec_addr_of_name(self.syms(), name@),
    {
        let ghost full: Seq<(u64, Seq<char>)> = self.syms();
        let mut i: usize = self.symbols.len();
        proof {
            assert(self.syms().take(i as int) =~= self.syms());
        }
        while i > 0
            invariant
                i <= self.symbols@.len(),
                spec_addr_of_name(self.syms(), name@) == spec_addr_of_name(
                    self.syms().take(i as int),
                    name@,
                ),
            decreases i,
        {
            i -= 1;
            proof {
                assert(self.syms().take(i + 1).drop_last() =~= self.syms().take(i as int));
                assert(self.syms().take(i + 1).last() == self.syms()[i as int]);
            }
            if self.symbols[i].1 == *name {
                return Some(self.symbols[i].0);
            }
        }
        proof {
            assert(self.syms().take(0) =~= Seq::<(u64, Seq<char>)>::empty());
        }
        None
    }

    /// The name of the symbol covering `addr`: the one with the greatest
    /// address at or below `addr`, as long as a later symbol bounds it
    /// from above (the last symbol's extent is unknown, so it covers
    /// nothing).
    pub fn get_address_symbol(&self, addr: u64) -> (r: Option<String>)
        requires
            self.wf(),
        ensures
            match r {
                Some(nm) => exists|j: int|
                    0 <= j && j + 1 < self.syms().len() && (#[trigger] self.syms()[j]).0 <= addr
                        && self.syms()[j + 1].0 > addr && nm@ == self.syms()[j].1,
                None => !(exists|j: int|
                    0 <= j && j + 1 < self.syms().len() && (#[trigger] self.syms()[j]).0 <= addr
                        && self.syms()[j + 1].0 > addr),
            },
    {
        let n: usize = self.symbols.len();
        let mut lo: usize = 0;
        let mut hi: usize = n;
        while lo < hi
            invariant
                lo <= hi <= n,
                n == self.syms().len(),
                self.wf(),
                forall|k: int| 0 <= k < lo ==> (#[trigger] self.syms()[k]).0 <= addr,
                forall|k: int| hi <= k < n ==> (#[trigger] self.syms()[k]).0 > addr,
            decreases hi - lo,
        {
            let mid: usize = lo + (hi - lo) / 2;
            if self.symbols[mid].0 <= addr {
                proof {
                    assert forall|k: int| 0 <= k < mid + 1 implies (
                    #[trigger] self.syms()[k]).0 <= addr by {
                        assert(self.syms()[k].0 <= self.syms()[mid as int].0 || k >= mid);
                    }
                }
                lo = mid + 1;
            } else {
                proof {
                    assert forall|k: int| mid <= k < n implies (#[trigger] self.syms()[k]).0
                        > addr by {
                        assert(k == mid || self.syms()[mid as int].0 <= self.syms()[k].0);
                    }
                }
                hi = mid;
            }
        }
        if lo == 0 || lo == n {
            return None;
        }
        proof {
            let j: int = lo - 1;
            assert(0 <= j && j + 1 < self.syms().len() && self.syms()[j].0 <= addr
                && self.syms()[j + 1].0 > addr);
        }
        Some(self.symbols[lo - 1].1.clone())
    }

    /// Records one static variable's relocated address.
    pub fn insert_var(&mut self, name: &String, addr: u64)
        ensures
            final(self).syms() == old(self).syms(),
            final(self).vars() == old(self).vars().push((name@, addr)),
    {
        self.vars.push((name.clone(), addr));
        proof {
            assert(self.vars() =~= old(self).vars().push((name@, addr)));
        }
    }

    /// The relocated address of the named static variable, if any.
    pub fn get_var_address(&self, name: &String) -> (r: Option<u64>)
        ensures
            r == spec_var_lookup(self.vars(), name@),
    {
        let mut i: usize = self.vars.len();
        proof {
            assert(self.vars().take(i as int) =~= self.vars());
        }
        while i > 0
            invariant
                i <= self.vars@.len(),
                spec_var_lookup(self.vars(), name@) == spec_var_lookup(
                    self.vars().take(i as int),
                    name@,
                ),
            decreases i,
        {
            i -= 1;
            proof {
                assert(self.vars().take(i + 1).drop_last() =~= self.vars().take(i as int));
                assert(self.vars().take(i + 1).last() == self.vars()[i as int]);
            }
            if self.vars[i].0 == *name {
                return Some(self.vars[i].1);
            }
        }
        proof {
            assert(self.vars().take(0) =~= Seq::<(Seq<char>, u64)>::empty());
        }
        None
    }
}

impl SymbolSource for SymbolIndex {
    /// The address of the last symbol entry carrying the name, or zero.
    open spec fn spec_lookup(&self, name: Seq<char>) -> u64 {
        match spec_addr_of_name(self.syms(), name) {
            Some(a) => a,
            None => 0u64,
        }
    }

    /// Resolves through the symbol table; unknown names resolve to zero.
    fn lookup(&self, name: &String) -> (r: u64) {
        match self.get_symbol_address(name) {
            Some(a) => a,
            None => 0,
        }
    }
}


} // verus!
