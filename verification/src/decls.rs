//! The declaration table: name to id mapping with per-id declarations.
//!
//! Forward declarations are kept decoupled from definitions.  Declaring is
//! idempotent on a matching shape and rejected on a conflicting one; ids are
//! dense indexes, assigned in declaration order and never reused.

use vstd::prelude::*;

use crate::errors::InjectError;
use crate::ids::{DataId, FuncId};

verus! {

/// Linkage of a declared symbol.
#[derive(Clone, Copy, Debug, PartialEq, Eq, Structural)]
pub enum Linkage {
    /// Defined outside the module; resolved through symbol lookup.
    Import,
    /// Defined in the module, not visible outside.
    Local,
    /// Defined in the module, but may be overridden at link time.
    Preemptible,
    /// Defined in the module and visible outside.
    Export,
}

impl Linkage {
    /// Import-linkage symbols cannot be given a definition.
    pub open spec fn spec_is_definable(self) -> bool {
        self != Linkage::Import
    }

    /// Whether a symbol of this linkage may be defined in the module.
    pub fn is_definable(self) -> (r: bool)
        ensures
            r == self.spec_is_definable(),
    {
        match self {
            Linkage::Import => false,
            _ => true,
        }
    }
}

/// Abstract shape of a function: counts of parameter and return slots.
#[derive(Clone, Copy, Debug, PartialEq, Eq, Structural)]
pub struct FuncSig {
    pub params: u32,
    pub returns: u32,
}

/// Declaration of a function.
#[derive(Clone, Debug)]
pub struct FunctionDeclaration {
    pub name: String,
    pub linkage: Linkage,
    pub signature: FuncSig,
}

/// Declaration of a data object.
#[derive(Clone, Debug)]
pub struct DataDeclaration {
    pub name: String,
    pub linkage: Linkage,
    pub writable: bool,
    pub tls: bool,
}

/// Name to id mapping plus the per-id declarations.
pub struct DeclarationTable {
    functions: Vec<FunctionDeclaration>,
    data_objects: Vec<DataDeclaration>,
}

impl DeclarationTable {
    /// The declared functions, by id.
    pub closed spec fn funcs(self) -> Seq<FunctionDeclaration> {
        self.functions@
    }

    /// The declared data objects, by id.
    pub closed spec fn datas(self) -> Seq<DataDeclaration> {
        self.data_objects@
    }

    /// No name is declared twice, in either namespace or across them, and
    /// the id spaces stay within `u32` range.
    pub open spec fn wf(self) -> bool {
        &&& self.funcs().len() <= u32::MAX
        &&& self.datas().len() <= u32::MAX
        &&& (forall|i: int, j: int|
            #![trigger self.funcs()[i], self.funcs()[j]]
            0 <= i < j < self.funcs().len() ==> self.funcs()[i].name@ != self.funcs()[j].name@)
        &&& (forall|i: int, j: int|
            #![trigger self.datas()[i], self.datas()[j]]
            0 <= i < j < self.datas().len() ==> self.datas()[i].name@ != self.datas()[j].name@)
        &&& (forall|i: int, j: int|
            #![trigger self.funcs()[i], self.datas()[j]]
            0 <= i < self.funcs().len() && 0 <= j < self.datas().len() ==> self.funcs()[i].name@
                != self.datas()[j].name@)
    }

    /// Whether `name` is declared as a function.
    pub open spec fn spec_has_func(self, name: Seq<char>) -> bool {
        exists|i: int| 0 <= i < self.funcs().len() && #[trigger] self.funcs()[i].name@ == name
    }

    /// Whether `name` is declared as a data object.
    pub open spec fn spec_has_data(self, name: Seq<char>) -> bool {
        exists|i: int| 0 <= i < self.datas().len() && #[trigger] self.datas()[i].name@ == name
    }

    /// The function id `name` is mapped to.
    pub open spec fn spec_func_index(self, name: Seq<char>) -> int {
        choose|i: int| 0 <= i < self.funcs().len() && #[trigger] self.funcs()[i].name@ == name
    }

    /// The data id `name` is mapped to.
    pub open spec fn spec_data_index(self, name: Seq<char>) -> int {
        choose|i: int| 0 <= i < self.datas().len() && #[trigger] self.datas()[i].name@ == name
    }

    /// Number of declared functions (ids `0..len`).
    pub fn len_funcs(&self) -> (r: usize)
        ensures
            r == self.funcs().len(),
    {
        self.functions.len()
    }

    /// Number of declared data objects (ids `0..len`).
    pub fn len_datas(&self) -> (r: usize)
        ensures
            r == self.datas().len(),
    {
        self.data_objects.len()
    }

    /// An empty table.
    pub fn new() -> (r: Self)
        ensures
            r.wf(),
            r.funcs().len() == 0,
            r.datas().len() == 0,
    {
        DeclarationTable { functions: Vec::new(), data_objects: Vec::new() }
    }

    /// Index of the function declared under `name`, if any.
    fn find_func(&self, name: &String) -> (r: Option<usize>)
        requires
            self.wf(),
        ensures
            match r {
                Some(i) => i < self.funcs().len() && self.funcs()[i as int].name@ == name@
                    && i == self.spec_func_index(name@),
                None => !self.spec_has_func(name@),
            },
    {
        let mut i: usize = 0;
        while i < self.functions.len()
            invariant
                self.wf(),
                i <= self.funcs().len(),
                forall|k: int| 0 <= k < i ==> #[trigger] self.funcs()[k].name@ != name@,
            decreases self.funcs().len() - i,
        {
            if self.functions[i].name == *name {
                proof {
                    let ci = self.spec_func_index(name@);
                    assert(0 <= ci < self.funcs().len() && self.funcs()[ci].name@ == name@);
                }
                return Some(i);
            }
            i += 1;
        }
        None
    }

    /// Index of the data object declared under `name`, if any.
    fn find_data(&self, name: &String) -> (r: Option<usize>)
        requires
            self.wf(),
        ensures
            match r {
                Some(i) => i < self.datas().len() && self.datas()[i as int].name@ == name@
                    && i == self.spec_data_index(name@),
                None => !self.spec_has_data(name@),
            },
    {
        let mut i: usize = 0;
        while i < self.data_objects.len()
            invariant
                self.wf(),
                i <= self.datas().len(),
                forall|k: int| 0 <= k < i ==> #[trigger] self.datas()[k].name@ != name@,
            decreases self.datas().len() - i,
        {
            if self.data_objects[i].name == *name {
                proof {
                    let ci = self.spec_data_index(name@);
                    assert(0 <= ci < self.datas().len() && self.datas()[ci].name@ == name@);
                }
                return Some(i);
            }
            i += 1;
        }
        None
    }

    /// Whether `name` is declared as a function (as opposed to a data
    /// object, or not at all).
    pub fn is_function(&self, name: &String) -> (r: bool)
        requires
            self.wf(),
        ensures
            r == self.spec_has_func(name@),
    {
        self.find_func(name).is_some()
    }

    /// The id of the function declared under `name`.
    pub fn get_function_id(&self, name: &String) -> (r: FuncId)
        requires
            self.wf(),
            self.spec_has_func(name@),
        ensures
            r.0 == self.spec_func_index(name@),
    {
        match self.find_func(name) {
            Some(i) => FuncId(i as u32),
            None => FuncId(0),  // unreachable: the name is declared as a function
        }
    }

    /// The id of the data object declared under `name`.
    pub fn get_data_id(&self, name: &String) -> (r: DataId)
        requires
            self.wf(),
            self.spec_has_data(name@),
        ensures
            r.0 == self.spec_data_index(name@),
    {
        match self.find_data(name) {
            Some(i) => DataId(i as u32),
            None => DataId(0),  // unreachable: the name is declared as a data object
        }
    }

    /// The declaration of function `id`.
    pub fn get_function_decl(&self, id: FuncId) -> (r: &FunctionDeclaration)
        requires
            id.0 < self.funcs().len(),
        ensures
            *r == self.funcs()[id.0 as int],
    {
        &self.functions[id.0 as usize]
    }

    /// The declaration of data object `id`.
    pub fn get_data_decl(&self, id: DataId) -> (r: &DataDeclaration)
        requires
            id.0 < self.datas().len(),
        ensures
            *r == self.datas()[id.0 as int],
    {
        &self.data_objects[id.0 as usize]
    }

    /// Declares a function.  Idempotent when `name` is already declared as a
    /// function of the same linkage and signature; a conflicting shape, or a
    /// name already taken by a data object, is rejected and leaves the table
    /// unchanged.
    pub fn declare_function(&mut self, name: &String, linkage: Linkage, signature: FuncSig) -> (r:
        Result<FuncId, InjectError>)
        requires
            old(self).wf(),
            old(self).funcs().len() < u32::MAX,
        ensures
            final(self).wf(),
            match r {
                Ok(id) => {
                    if old(self).spec_has_func(name@) {
                        &&& id.0 == old(self).spec_func_index(name@)
                        &&& old(self).funcs()[id.0 as int].linkage == linkage
                        &&& old(self).funcs()[id.0 as int].signature == signature
                        &&& *final(self) == *old(self)
                    } else {
                        &&& !old(self).spec_has_data(name@)
                        &&& id.0 == old(self).funcs().len()
                        &&& final(self).datas() == old(self).datas()
                        &&& final(self).funcs().len() == old(self).funcs().len() + 1
                        &&& final(self).funcs().take(old(self).funcs().len() as int) == old(
                            self,
                        ).funcs()
                        &&& final(self).funcs().last().name@ == name@
                        &&& final(self).funcs().last().linkage == linkage
                        &&& final(self).funcs().last().signature == signature
                    }
                },
                Err(e) => {
                    &&& *final(self) == *old(self)
                    &&& e matches InjectError::DeclarationConflict(n) && n@ == name@
                    &&& (old(self).spec_has_data(name@) || (old(self).spec_has_func(name@) && {
                        let d = old(self).funcs()[old(self).spec_func_index(name@)];
                        d.linkage != linkage || d.signature != signature
                    }))
                },
            },
            r is Ok <==> !(old(self).spec_has_data(name@) || (old(self).spec_has_func(name@) && {
                let d = old(self).funcs()[old(self).spec_func_index(name@)];
                d.linkage != linkage || d.signature != signature
            })),
    {
        if let Some(i) = self.find_func(name) {
            let existing = &self.functions[i];
            if existing.linkage == linkage && existing.signature == signature {
                return Ok(FuncId(i as u32));
            }
            return Err(InjectError::DeclarationConflict(name.clone()));
        }
        if self.find_data(name).is_some() {
            return Err(InjectError::DeclarationConflict(name.clone()));
        }
        let id = FuncId(self.functions.len() as u32);
        self.functions.push(
            FunctionDeclaration { name: name.clone(), linkage, signature },
        );
        proof {
            assert(self.funcs().take(old(self).funcs().len() as int) =~= old(self).funcs());
        }
        Ok(id)
    }

    /// Declares a data object, under the same idempotence and conflict rules
    /// as `declare_function`; the shape is linkage, writability and
    /// thread-localness.
    pub fn declare_data(&mut self, name: &String, linkage: Linkage, writable: bool, tls: bool) -> (
        r: Result<DataId, InjectError>)
        requires
            old(self).wf(),
            old(self).datas().len() < u32::MAX,
        ensures
            final(self).wf(),
            match r {
                Ok(id) => {
                    if old(self).spec_has_data(name@) {
                        &&& id.0 == old(self).spec_data_index(name@)
                        &&& old(self).datas()[id.0 as int].linkage == linkage
                        &&& old(self).datas()[id.0 as int].writable == writable
                        &&& old(self).datas()[id.0 as int].tls == tls
                        &&& *final(self) == *old(self)
                    } else {
                        &&& !old(self).spec_has_func(name@)
                        &&& id.0 == old(self).datas().len()
                        &&& final(self).funcs() == old(self).funcs()
                        &&& final(self).datas().len() == old(self).datas().len() + 1
                        &&& final(self).datas().take(old(self).datas().len() as int) == old(
                            self,
                        ).datas()
                        &&& final(self).datas().last().name@ == name@
                        &&& final(self).datas().last().linkage == linkage
                        &&& final(self).datas().last().writable == writable
                        &&& final(self).datas().last().tls == tls
                    }
                },
                Err(e) => {
                    &&& *final(self) == *old(self)
                    &&& e matches InjectError::DeclarationConflict(n) && n@ == name@
                    &&& (old(self).spec_has_func(name@) || (old(self).spec_has_data(name@) && {
                        let d = old(self).datas()[old(self).spec_data_index(name@)];
                        d.linkage != linkage || d.writable != writable || d.tls != tls
                    }))
                },
            },
            r is Ok <==> !(old(self).spec_has_func(name@) || (old(self).spec_has_data(name@) && {
                let d = old(self).datas()[old(self).spec_data_index(name@)];
                d.linkage != linkage || d.writable != writable || d.tls != tls
            })),
    {
        if let Some(i) = self.find_data(name) {
            let existing = &self.data_objects[i];
            if existing.linkage == linkage && existing.writable == writable && existing.tls
                == tls {
                return Ok(DataId(i as u32));
            }
            return Err(InjectError::DeclarationConflict(name.clone()));
        }
        if self.find_func(name).is_some() {
            return Err(InjectError::DeclarationConflict(name.clone()));
        }
        let id = DataId(self.data_objects.len() as u32);
        self.data_objects.push(
            DataDeclaration { name: name.clone(), linkage, writable, tls },
        );
        proof {
            assert(self.datas().take(old(self).datas().len() as int) =~= old(self).datas());
        }
        Ok(id)
    }
}

} // verus!
