//! A model of the semantic tables built over a syntax tree: the node table with
//! each node's parent, and the scoping tables of references and symbols.
use vstd::prelude::*;

use crate::ast::{AstKind, IdentifierReference};

verus! {

/// A node of the syntax tree: its id in the node table and its kind.
pub struct AstNode {
    pub id: u32,
    pub kind: AstKind,
}

/// The node table: the kind and the parent of each node, indexed by node id.
/// Node 0 is the program, which is its own parent; every other node's parent
/// was added before it.
pub struct AstNodes {
    pub kinds: Vec<AstKind>,
    pub parent_ids: Vec<u32>,
}

/// The id of the program node, the root of every tree.
pub const ROOT_NODE_ID: u32 = 0;

impl AstNodes {
    /// The table is well formed: one parent per node, the program at the root,
    /// and every other node's parent has a smaller id.
    pub open spec fn wf(&self) -> bool {
        &&& self.kinds@.len() == self.parent_ids@.len()
        &&& self.kinds@.len() > 0
        &&& self.kinds@.len() <= u32::MAX
        &&& self.parent_ids@[0] == ROOT_NODE_ID
        &&& forall|i: int| 0 < i < self.parent_ids@.len() ==> #[trigger] self.parent_ids@[i] < i
    }

    /// Whether `id` names a node of the table.
    pub open spec fn contains(&self, id: u32) -> bool {
        id < self.kinds@.len()
    }

    pub open spec fn spec_parent_id(&self, id: u32) -> u32 {
        self.parent_ids@[id as int]
    }

    pub open spec fn spec_kind(&self, id: u32) -> AstKind {
        self.kinds@[id as int]
    }

    /// The parent of a node; the program is its own parent.
    pub fn parent_id(&self, id: u32) -> (parent: u32)
        requires
            self.wf(),
            self.contains(id),
        ensures
            parent == self.spec_parent_id(id),
            id == ROOT_NODE_ID ==> parent == ROOT_NODE_ID,
            id != ROOT_NODE_ID ==> parent < id,
    {
        self.parent_ids[id as usize]
    }

    /// The kind of a node.
    pub fn kind(&self, id: u32) -> (kind: &AstKind)
        requires
            self.contains(id),
        ensures
            *kind == self.spec_kind(id),
    {
        &self.kinds[id as usize]
    }
}

/// A reference: the symbol that it resolves to, if any.
pub struct Reference {
    pub symbol_id: Option<u32>,
}

/// A symbol: the node that declares it and the references that resolve to it.
pub struct SymbolData {
    pub declaration: u32,
    pub resolved_references: Vec<u32>,
}

/// The reference table and the symbol table, indexed by reference id and by
/// symbol id, and the names that the program uses without declaring them: the
/// names of the references that the root scope leaves unresolved.
pub struct Scoping {
    pub references: Vec<Reference>,
    pub symbols: Vec<SymbolData>,
    pub root_unresolved_names: Vec<String>,
}

impl Scoping {
    /// The tables agree: every resolved reference resolves to a symbol of the
    /// table and is listed, once, among that symbol's resolved references, and
    /// every listed reference resolves to its symbol.
    pub open spec fn wf(&self) -> bool {
        &&& forall|i: int|
            0 <= i < self.references@.len() ==> (#[trigger] self.references@[i].symbol_id matches Some(
                s,
            ) ==> s < self.symbols@.len() && self.symbols@[s as int].resolved_references@.contains(
                i as u32,
            ))
        &&& forall|s: int, k: int|
            0 <= s < self.symbols@.len() && 0 <= k
                < self.symbols@[s].resolved_references@.len() ==> {
                let r = #[trigger] self.symbols@[s].resolved_references@[k];
                &&& r < self.references@.len()
                &&& self.references@[r as int].symbol_id == Some(s as u32)
            }
        &&& forall|s: int|
            0 <= s < self.symbols@.len() ==> (#[trigger] self.symbols@[s]).resolved_references@.no_duplicates()
        &&& self.symbols@.len() <= u32::MAX + 1
    }

    /// Whether the reference of `ident` is in the table.
    pub open spec fn has_reference(&self, ident: IdentifierReference) -> bool {
        ident.reference_id < self.references@.len()
    }

    /// Whether some reference named `name` is left unresolved at the root, so
    /// that the name stands for a global variable.
    pub open spec fn is_global_name(&self, name: Seq<char>) -> bool {
        exists|i: int| 0 <= i < self.root_unresolved_names@.len() && #[trigger] self.root_unresolved_names@[i]@ == name
    }

    /// The symbol that a name resolves to, if any.
    pub open spec fn symbol_of(&self, ident: IdentifierReference) -> Option<u32> {
        self.references@[ident.reference_id as int].symbol_id
    }

    pub open spec fn spec_symbol_declaration(&self, symbol_id: u32) -> u32 {
        self.symbols@[symbol_id as int].declaration
    }

    /// How many references resolve to a symbol.
    pub open spec fn reference_count(&self, symbol_id: u32) -> nat {
        self.symbols@[symbol_id as int].resolved_references@.len()
    }

    /// The reference with the given id.
    pub fn get_reference(&self, reference_id: u32) -> (reference: &Reference)
        requires
            reference_id < self.references@.len(),
        ensures
            *reference == self.references@[reference_id as int],
    {
        &self.references[reference_id as usize]
    }

    /// Whether the name of `ident` is one of the root's unresolved names, that is,
    /// whether it refers to a global variable.
    pub fn is_reference_to_global_variable(&self, ident: &IdentifierReference) -> (r: bool)
        ensures
            r == self.is_global_name(ident.name@),
    {
        let mut i: usize = 0;
        while i < self.root_unresolved_names.len()
            invariant
                0 <= i <= self.root_unresolved_names@.len(),
                forall|j: int| 0 <= j < i ==> self.root_unresolved_names@[j]@ != ident.name@,
            decreases self.root_unresolved_names@.len() - i,
        {
            if self.root_unresolved_names[i] == ident.name {
                assert(self.root_unresolved_names@[i as int]@ == ident.name@);
                return true;
            }
            i = i + 1;
        }
        false
    }

    /// The node that declares a symbol.
    pub fn symbol_declaration(&self, symbol_id: u32) -> (node_id: u32)
        requires
            symbol_id < self.symbols@.len(),
        ensures
            node_id == self.spec_symbol_declaration(symbol_id),
    {
        self.symbols[symbol_id as usize].declaration
    }

    /// How many references resolve to a symbol.
    pub fn resolved_reference_count(&self, symbol_id: u32) -> (count: usize)
        requires
            symbol_id < self.symbols@.len(),
        ensures
            count == self.reference_count(symbol_id),
    {
        self.symbols[symbol_id as usize].resolved_references.len()
    }
}

} // verus!
