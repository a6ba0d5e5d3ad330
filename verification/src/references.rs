//! Static information about access sites, gathered in one pass over the tree.

use crate::address::MemrefKey;
use crate::error::Error;
use crate::fxmap::{fx_get, fx_insert, fx_len, lookup};
use crate::tree::{Tree, ValID};
use rustc_hash::FxHashMap;
use vstd::prelude::*;

verus! {

broadcast use vstd::std_specs::vec::axiom_vec_index_decreases;

/// A number that tells arrays apart. Local arrays get even numbers and global
/// arrays odd ones.
pub open spec fn key_of_memref(memref: ValID) -> usize {
    match memref {
        ValID::Memref(id) => id << 1usize,
        ValID::Global { handle, name } => handle | 1,
        _ => usize::MAX,
    }
}

/// A number that tells arrays apart.
pub fn memref_key(memref: &ValID) -> (key: usize)
    ensures
        key == key_of_memref(*memref),
{
    match memref {
        ValID::Memref(id) => *id << 1usize,
        ValID::Global { handle, name: _ } => *handle | 1,
        _ => usize::MAX,
    }
}

/// Two local arrays never share a number, as long as the highest bits of their
/// own numbers are unused, nor do a local and a global array, nor two global
/// arrays with even handles, such as the addresses of aligned names.
pub proof fn law_memref_keys_are_distinct(
    id: usize,
    other: usize,
    handle: usize,
    other_handle: usize,
    name: String,
    other_name: String,
)
    ensures
        id != other && id <= usize::MAX / 2 && other <= usize::MAX / 2 ==> key_of_memref(
            ValID::Memref(id),
        ) != key_of_memref(ValID::Memref(other)),
        key_of_memref(ValID::Memref(id)) != key_of_memref(ValID::Global { handle, name }),
        handle != other_handle && handle % 2 == 0 && other_handle % 2 == 0 ==> key_of_memref(
            ValID::Global { handle, name },
        ) != key_of_memref(ValID::Global { handle: other_handle, name: other_name }),
{
    if id <= usize::MAX / 2 && other <= usize::MAX / 2 {
        lemma_shift_doubles(id);
        lemma_shift_doubles(other);
    }
    assert(id << 1usize != handle | 1) by (bit_vector);
    if handle % 2 == 0 && other_handle % 2 == 0 {
        assert(handle | 1 == other_handle | 1 ==> handle == other_handle) by (bit_vector)
            requires
                handle % 2 == 0,
                other_handle % 2 == 0,
        ;
    }
}

proof fn lemma_shift_doubles(id: usize)
    requires
        id <= usize::MAX / 2,
    ensures
        id << 1usize == 2 * id,
{
    assert(id << 1usize == (2 * id) as usize) by (bit_vector);
}

/// What the pre-pass knows.
pub ghost struct Table {
    /// The number of every access site.
    pub sites: Map<usize, u32>,
    /// The number of every array.
    pub memrefs: Map<usize, u32>,
    /// The name of every array, by its number.
    pub names: Seq<Seq<char>>,
    /// The largest number of subscripts of an access.
    pub max_rank: int,
}

impl Table {
    pub open spec fn empty() -> Table {
        Table { sites: Map::empty(), memrefs: Map::empty(), names: Seq::empty(), max_rank: 0 }
    }

    /// The table after one more access site. A site gets the number of sites
    /// before it, and an array that is new the number of arrays before it.
    pub open spec fn with_access(self, site: usize, memref: ValID, rank: int) -> Table {
        let key = key_of_memref(memref);
        let known = self.memrefs.contains_key(key);
        Table {
            sites: self.sites.insert(site, self.sites.dom().len() as u32),
            memrefs: if known {
                self.memrefs
            } else {
                self.memrefs.insert(key, self.memrefs.dom().len() as u32)
            },
            names: if known {
                self.names
            } else {
                self.names.push(memref.text())
            },
            max_rank: if rank > self.max_rank {
                rank
            } else {
                self.max_rank
            },
        }
    }

    /// Arrays are numbered densely, each by a number of its own, in step with
    /// their names.
    pub open spec fn dense(self) -> bool {
        &&& self.memrefs.dom().finite()
        &&& self.sites.dom().finite()
        &&& self.names.len() == self.memrefs.dom().len()
        &&& self.names.len() <= 0x1_0000_0000 ==> {
            &&& forall|key: usize| #[trigger]
                self.memrefs.contains_key(key) ==> self.memrefs[key] < self.names.len()
            &&& forall|a: usize, b: usize|
                #[trigger] self.memrefs.contains_key(a) && #[trigger] self.memrefs.contains_key(b)
                    && self.memrefs[a] == self.memrefs[b] ==> a == b
        }
    }
}

/// The table after the accesses of a tree, in tree order, or the first access
/// to something that is not an array.
pub open spec fn visited(tree: Tree, table: Table) -> Result<Table, Error>
    decreases tree, 0int,
{
    match tree {
        Tree::For { body, .. } => visited(*body, table),
        Tree::Block(stmts) => visited_from(stmts, 0, table),
        Tree::If { then_branch, else_branch, .. } => match visited(*then_branch, table) {
            Err(error) => Err(error),
            Ok(table) => match else_branch {
                Some(otherwise) => visited(*otherwise, table),
                None => Ok(table),
            },
        },
        Tree::Access { site, memref, map, .. } => match memref {
            ValID::Memref(_) => Ok(table.with_access(site, memref, map.results@.len() as int)),
            ValID::Global { .. } => Ok(table.with_access(site, memref, map.results@.len() as int)),
            _ => Err(Error::NotAMemref { target: memref }),
        },
    }
}

/// The table after the statements of a block from position `at` on.
pub open spec fn visited_from(stmts: Vec<Tree>, at: nat, table: Table) -> Result<Table, Error>
    decreases stmts, stmts@.len() - at,
{
    if at >= stmts@.len() {
        Ok(table)
    } else {
        match visited(stmts[at as int], table) {
            Err(error) => Err(error),
            Ok(table) => visited_from(stmts, at + 1, table),
        }
    }
}

/// Static per-access-site information, shared by every walk over a tree, so
/// that numbering is the same for all threads and all runs.
pub struct ReferenceTable {
    sites: FxHashMap<usize, u32>,
    memrefs: FxHashMap<usize, u32>,
    names: Vec<String>,
    max_rank: usize,
}

impl View for ReferenceTable {
    type V = Table;

    closed spec fn view(&self) -> Table {
        Table {
            sites: self.sites@,
            memrefs: self.memrefs@,
            names: self.names@.map_values(|name: String| name@),
            max_rank: self.max_rank as int,
        }
    }
}

impl Default for ReferenceTable {
    fn default() -> (table: Self)
        ensures
            table@ == Table::empty(),
    {
        let table = ReferenceTable {
            sites: FxHashMap::default(),
            memrefs: FxHashMap::default(),
            names: Vec::new(),
            max_rank: 0,
        };
        assert(table@.names =~= Seq::empty());
        table
    }
}

impl ReferenceTable {
    /// Numbers the access sites and arrays of a tree.
    pub fn build(tree: &Tree) -> (table: Result<Self, Error>)
        ensures
            match visited(*tree, Table::empty()) {
                Ok(view) => table matches Ok(table) && table@ == view,
                Err(error) => table matches Err(found) && found == error,
            },
    {
        let mut table: ReferenceTable = ReferenceTable::default();
        match table.visit(tree) {
            Ok(()) => Ok(table),
            Err(error) => Err(error),
        }
    }

    fn visit(&mut self, tree: &Tree) -> (done: Result<(), Error>)
        ensures
            match visited(*tree, old(self)@) {
                Ok(view) => done is Ok && final(self)@ == view,
                Err(error) => done == Err::<(), Error>(error),
            },
        decreases *tree,
    {
        match tree {
            Tree::For { body, .. } => self.visit(body),
            Tree::Block(stmts) => {
                let mut at: usize = 0;
                while at < stmts.len()
                    invariant
                        at <= stmts@.len(),
                        *tree == Tree::Block(*stmts),
                        visited(*tree, old(self)@) == visited_from(*stmts, at as nat, self@),
                    decreases stmts@.len() - at,
                {
                    assert(decreases_to!(*tree => *stmts));
                    assert(decreases_to!(*stmts => stmts@[at as int]));
                    match self.visit(&stmts[at]) {
                        Ok(()) => {},
                        Err(error) => {
                            return Err(error);
                        },
                    }
                    at += 1;
                }
                Ok(())
            },
            Tree::If { then_branch, else_branch, .. } => {
                match self.visit(then_branch) {
                    Ok(()) => {},
                    Err(error) => {
                        return Err(error);
                    },
                }
                match else_branch {
                    Some(otherwise) => self.visit(otherwise),
                    None => Ok(()),
                }
            },
            Tree::Access { site, memref, map, .. } => match memref {
                ValID::Memref(_) => {
                    self.register(*site, memref, map.results.len());
                    Ok(())
                },
                ValID::Global { .. } => {
                    self.register(*site, memref, map.results.len());
                    Ok(())
                },
                other => Err(Error::NotAMemref { target: other.clone() }),
            },
        }
    }

    /// Adds one access site. A second access to an array keeps the number that
    /// the array has. Two arrays never come to share one, as long as their keys
    /// differ: see [`law_memref_keys_are_distinct`] for when they do.
    pub fn register(&mut self, site: usize, memref: &ValID, rank: usize)
        ensures
            final(self)@ == old(self)@.with_access(site, *memref, rank as int),
    {
        let ghost before = self@;
        let next: u32 = fx_len(&self.sites) as u32;
        let _ = fx_insert(&mut self.sites, site, next);
        if rank > self.max_rank {
            self.max_rank = rank;
        }
        let key: usize = memref_key(memref);
        let next_key: u32 = fx_len(&self.memrefs) as u32;
        match fx_get(&self.memrefs, &key) {
            Some(_) => {},
            None => {
                let _ = fx_insert(&mut self.memrefs, key, next_key);
                let mut name: String = String::new();
                memref.push_to(&mut name);
                proof {
                    assert(Seq::<char>::empty() + memref.text() =~= memref.text());
                }
                self.names.push(name);
            },
        }
        assert(self@.names =~= before.with_access(site, *memref, rank as int).names);
        assert(self@.sites =~= before.with_access(site, *memref, rank as int).sites);
    }

    /// The number of an access site.
    pub fn reference_of(&self, site: usize) -> (reference: Result<u32, Error>)
        ensures
            reference == match lookup(self@.sites, site) {
                Some(reference) => Ok::<u32, Error>(reference),
                None => Err(Error::UnknownSite),
            },
    {
        match fx_get(&self.sites, &site) {
            Some(reference) => Ok(reference),
            None => Err(Error::UnknownSite),
        }
    }

    /// The number of an array.
    pub fn memref_of(&self, memref: &ValID) -> (key: Result<MemrefKey, Error>)
        ensures
            key == match lookup(self@.memrefs, key_of_memref(*memref)) {
                Some(key) => Ok::<MemrefKey, Error>(MemrefKey(key)),
                None => Err(Error::UnknownMemref { memref: *memref }),
            },
    {
        match fx_get(&self.memrefs, &memref_key(memref)) {
            Some(key) => Ok(MemrefKey(key)),
            None => Err(Error::UnknownMemref { memref: memref.clone() }),
        }
    }

    /// Number of distinct access sites.
    pub fn reference_count(&self) -> (count: usize)
        ensures
            count == self@.sites.dom().len(),
    {
        fx_len(&self.sites)
    }

    /// Name of each array, by its number.
    pub fn memref_names(&self) -> (names: &Vec<String>)
        ensures
            names@.map_values(|name: String| name@) == self@.names,
    {
        &self.names
    }

    /// Largest number of subscripts of an access.
    pub fn max_rank(&self) -> (rank: usize)
        ensures
            rank == self@.max_rank,
    {
        self.max_rank
    }
}

/// Adding an access keeps the numbering dense.
pub proof fn law_access_keeps_numbering_dense(
    table: Table,
    site: usize,
    memref: ValID,
    rank: int,
)
    requires
        table.dense(),
    ensures
        table.with_access(site, memref, rank).dense(),
        table.memrefs.contains_key(key_of_memref(memref)) ==> table.with_access(
            site,
            memref,
            rank,
        ).memrefs == table.memrefs,
{
    let now = table.with_access(site, memref, rank);
    if now.names.len() <= 0x1_0000_0000 {
        assert forall|key: usize| #[trigger] now.memrefs.contains_key(key) implies now.memrefs[key]
            < now.names.len() by {
            if key != key_of_memref(memref) {
                assert(table.memrefs.contains_key(key));
            }
        }
        assert forall|a: usize, b: usize|
            #[trigger] now.memrefs.contains_key(a) && #[trigger] now.memrefs.contains_key(b)
                && now.memrefs[a] == now.memrefs[b] implies a == b by {
            if a != key_of_memref(memref) {
                assert(table.memrefs.contains_key(a));
            }
            if b != key_of_memref(memref) {
                assert(table.memrefs.contains_key(b));
            }
        }
    }
}

/// The pre-pass numbers the arrays of any tree densely, each by a number of its
/// own.
pub proof fn law_numbering_is_dense(tree: Tree, table: Table)
    requires
        table.dense(),
    ensures
        visited(tree, table) matches Ok(now) ==> now.dense(),
    decreases tree, 0int,
{
    match tree {
        Tree::For { body, .. } => {
            law_numbering_is_dense(*body, table);
        },
        Tree::Block(stmts) => {
            lemma_block_numbering_is_dense(stmts, 0, table);
        },
        Tree::If { then_branch, else_branch, .. } => {
            law_numbering_is_dense(*then_branch, table);
            if let Ok(between) = visited(*then_branch, table) {
                if let Some(otherwise) = else_branch {
                    law_numbering_is_dense(*otherwise, between);
                }
            }
        },
        Tree::Access { site, memref, map, .. } => {
            law_access_keeps_numbering_dense(table, site, memref, map.results@.len() as int);
        },
    }
}

proof fn lemma_block_numbering_is_dense(stmts: Vec<Tree>, at: nat, table: Table)
    requires
        table.dense(),
    ensures
        visited_from(stmts, at, table) matches Ok(now) ==> now.dense(),
    decreases stmts, stmts@.len() - at,
{
    if at < stmts@.len() {
        law_numbering_is_dense(stmts[at as int], table);
        if let Ok(between) = visited(stmts[at as int], table) {
            lemma_block_numbering_is_dense(stmts, at + 1, between);
        }
    }
}

} // verus!
