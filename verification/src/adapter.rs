//! The transactional adapter that maps the tree-shaped namespace onto the
//! flat key-value tables, and the append-only block log on top of them.
//!
//! All mutation happens inside one read-write transaction and becomes
//! durable only when that transaction commits; a transaction dropped before
//! commit discards all staged writes. The underlying store is single-writer,
//! multiple-reader: read-only transactions observe a snapshot taken at their
//! start. Callers must serialize read-write transactions themselves.

use vstd::prelude::*;
use vstd::slice::slice_subrange;
use crate::block::{block_encoding, Block};
use crate::error::Error;
use crate::id::{lemma_u64_be_bytes_roundtrip, u64_be_bytes, u64_from_be_bytes, Id};
use crate::node::{lemma_node_encoding_roundtrip, node_encoding, parse_node, Entry, Node, NodeView};
use crate::objectclass::{
    lemma_objectclass_roundtrip,
    objectclass_bytes,
    objectclass_from_bytes,
    ObjectClass,
};
use crate::path::Path;
use crate::store::{
    duplicate_keyed,
    first_match,
    lemma_run_push,
    integer_keyed,
    run,
    table_get,
    table_put_duplicate,
    table_put_unique,
    table_values,
    table_view,
    vec_views,
    Store,
    StoreView,
    Table,
    TableView,
};
use crate::text::str_eq;

verus! {

/// The node the empty path resolves to: the implicit root of the namespace.
pub open spec fn root_node_view() -> NodeView {
    NodeView { id: 0, parent_id: 0, name: Seq::empty() }
}

/// The first stored child of `parent` named `name` within one run of node
/// values; values that do not parse as nodes are passed over.
pub open spec fn find_child_in_run(r: Seq<Seq<u8>>, parent: u64, name: Seq<char>) -> Option<
    NodeView,
>
    decreases r.len(),
{
    if r.len() == 0 {
        None
    } else {
        match parse_node(parent, r[0]) {
            Some(nv) => if nv.name == name {
                Some(nv)
            } else {
                find_child_in_run(r.drop_first(), parent, name)
            },
            None => find_child_in_run(r.drop_first(), parent, name),
        }
    }
}

/// The child of `parent` named `name` in the node index, if any.
pub open spec fn child_at(nodes: TableView, parent: u64, name: Seq<char>) -> Option<NodeView> {
    find_child_in_run(run(nodes, u64_be_bytes(parent)), parent, name)
}

/// The node a path resolves to, folding `child_at` from the root; `None` at
/// the first missing component.
pub open spec fn resolve(nodes: TableView, comps: Seq<Seq<char>>) -> Option<NodeView>
    decreases comps.len(),
{
    if comps.len() == 0 {
        Some(root_node_view())
    } else {
        match resolve(nodes, comps.drop_last()) {
            None => None,
            Some(p) => child_at(nodes, p.id, comps.last()),
        }
    }
}

/// The outcome of resolving a path and reading its entry row: the node and
/// object class on success, `NotFound` for a missing path component, and
/// `DbCorrupt` when a resolved node has no well-formed entry row.
pub open spec fn lookup_entry(
    nodes: TableView,
    entries: TableView,
    comps: Seq<Seq<char>>,
) -> Result<(NodeView, ObjectClass), Error> {
    match resolve(nodes, comps) {
        None => Err(Error::NotFound),
        Some(n) => {
            let erun = run(entries, u64_be_bytes(n.id));
            if erun.len() == 0 {
                Err(Error::DbCorrupt)
            } else {
                match objectclass_from_bytes(erun[0]) {
                    None => Err(Error::DbCorrupt),
                    Some(oc) => Ok((n, oc)),
                }
            }
        },
    }
}

/// The identifier an 8-byte stored key denotes, or 0 for any other key.
pub open spec fn key_id(key: Seq<u8>) -> u64 {
    if key.len() == 8 {
        u64_from_be_bytes(key)
    } else {
        0
    }
}

/// The identifier a stored node value carries in its leading 8 bytes — the
/// node's own id — or 0 when the value is too short to hold one.
pub open spec fn value_id(value: Seq<u8>) -> u64 {
    if value.len() >= 8 {
        u64_from_be_bytes(value.take(8))
    } else {
        0
    }
}

/// The largest identifier one pair of the node index records: the parent
/// key, or the stored node's own id, whichever is greater.
pub open spec fn pair_watermark(p: (Seq<u8>, Seq<u8>)) -> u64 {
    if key_id(p.0) > value_id(p.1) {
        key_id(p.0)
    } else {
        value_id(p.1)
    }
}

/// The high-water mark of the node index: the largest identifier recorded
/// anywhere in it — as a parent key or as a stored node's own id — or 0
/// (the root) when the index is empty. Every created node is stored
/// carrying its own id, so the mark covers every id ever assigned, also
/// ids that never became parents; ids can therefore be allocated strictly
/// increasing and never reused.
pub open spec fn high_water(t: TableView) -> u64
    decreases t.len(),
{
    if t.len() == 0 {
        0
    } else {
        let rest = high_water(t.drop_first());
        if pair_watermark(t[0]) > rest {
            pair_watermark(t[0])
        } else {
            rest
        }
    }
}

/// Whether every entry-table key is an 8-byte id at or below the node
/// index's high-water mark. A fresh store satisfies this, and the two
/// writes of `add_entry` preserve it, so under the allocate-then-add
/// discipline the allocator never returns an id the entry table holds.
pub open spec fn entry_ids_bounded(v: StoreView) -> bool {
    forall|k: int|
        #![trigger v.entries[k]]
        0 <= k < v.entries.len() ==> v.entries[k].0.len() == 8 && u64_from_be_bytes(
            v.entries[k].0,
        ) <= high_water(v.nodes)
}

/// Unfolds `find_child_in_run` one position at a time.
proof fn lemma_find_child_skip(r: Seq<Seq<u8>>, parent: u64, name: Seq<char>, i: int)
    requires
        0 <= i < r.len(),
    ensures
        find_child_in_run(r.skip(i), parent, name) == (match parse_node(parent, r[i]) {
            Some(nv) => if nv.name == name {
                Some(nv)
            } else {
                find_child_in_run(r.skip(i + 1), parent, name)
            },
            None => find_child_in_run(r.skip(i + 1), parent, name),
        }),
{
    assert(r.skip(i).drop_first() =~= r.skip(i + 1));
    assert(r.skip(i)[0] == r[i]);
}

/// Appending a value to a run leaves an already-found child found, and is
/// consulted only when no earlier value matched.
pub proof fn lemma_find_child_push(r: Seq<Seq<u8>>, parent: u64, name: Seq<char>, x: Seq<u8>)
    ensures
        find_child_in_run(r.push(x), parent, name) == (if find_child_in_run(r, parent, name)
            is Some {
            find_child_in_run(r, parent, name)
        } else {
            match parse_node(parent, x) {
                Some(nv) => if nv.name == name {
                    Some(nv)
                } else {
                    None
                },
                None => None,
            }
        }),
    decreases r.len(),
{
    if r.len() == 0 {
        assert(r.push(x).drop_first() =~= Seq::<Seq<u8>>::empty());
        assert(r.push(x)[0] == x);
    } else {
        assert(r.push(x).drop_first() =~= r.drop_first().push(x));
        assert(r.push(x)[0] == r[0]);
        lemma_find_child_push(r.drop_first(), parent, name, x);
    }
}

/// Unfolds `high_water` one position at a time.
proof fn lemma_high_water_skip(t: TableView, i: int)
    requires
        0 <= i < t.len(),
    ensures
        high_water(t.skip(i)) == ({
            let rest = high_water(t.skip(i + 1));
            if pair_watermark(t[i]) > rest {
                pair_watermark(t[i])
            } else {
                rest
            }
        }),
{
    assert(t.skip(i).drop_first() =~= t.skip(i + 1));
    assert(t.skip(i)[0] == t[i]);
}

/// Appending a pair to the node index raises its high-water mark to at
/// least the pair's own watermark, and never lowers it.
pub proof fn lemma_high_water_push(t: TableView, p: (Seq<u8>, Seq<u8>))
    ensures
        high_water(t.push(p)) == if pair_watermark(p) > high_water(t) {
            pair_watermark(p)
        } else {
            high_water(t)
        },
    decreases t.len(),
{
    if t.len() == 0 {
        assert(t.push(p).drop_first() =~= Seq::<(Seq<u8>, Seq<u8>)>::empty());
        assert(t.push(p)[0] == p);
        assert(high_water(Seq::<(Seq<u8>, Seq<u8>)>::empty()) == 0);
    } else {
        assert(t.push(p).drop_first() =~= t.drop_first().push(p));
        assert(t.push(p)[0] == t[0]);
        lemma_high_water_push(t.drop_first(), p);
    }
}

/// A read handle over a snapshot of the store: exact-key lookup and
/// duplicate-run scans. Read-only and read-write handles share this read
/// side; only read-write handles expose `put`.
pub trait Transaction {
    /// The store contents this handle observes, its own staged writes
    /// included.
    spec fn view(&self) -> StoreView;

    /// Exact-key lookup: the first value stored under `key` in `table`;
    /// `NotFound` when the key is absent.
    fn get(&self, table: Table, key: &[u8]) -> (r: Result<Vec<u8>, Error>)
        ensures
            match r {
                Ok(v) => run(self.view().table(table), key@).len() > 0 && v@ == run(
                    self.view().table(table),
                    key@,
                )[0],
                Err(e) => e == Error::NotFound && run(self.view().table(table), key@).len() == 0,
            },
    ;

    /// The contiguous run of values stored under `key` in `table`, in
    /// stored order; empty when the key is absent. This is the cursor scan
    /// that child lookups are built from.
    fn find_values(&self, table: Table, key: &[u8]) -> (r: Vec<Vec<u8>>)
        ensures
            vec_views(r@) == run(self.view().table(table), key@),
    ;
}

/// A read-write handle: a private copy of the store at the transaction's
/// start, mutated in place and written back atomically on commit.
pub struct RwTransaction {
    store: Store,
}

/// A read-only handle over a snapshot of the store taken at its start.
pub struct RoTransaction {
    store: Store,
}

impl Transaction for RwTransaction {
    closed spec fn view(&self) -> StoreView {
        self.store@
    }

    fn get(&self, table: Table, key: &[u8]) -> (r: Result<Vec<u8>, Error>) {
        match table_get(self.table_ref(table), key) {
            Some(v) => Ok(v),
            None => Err(Error::NotFound),
        }
    }

    fn find_values(&self, table: Table, key: &[u8]) -> (r: Vec<Vec<u8>>) {
        table_values(self.table_ref(table), key)
    }
}

impl Transaction for RoTransaction {
    closed spec fn view(&self) -> StoreView {
        self.store@
    }

    fn get(&self, table: Table, key: &[u8]) -> (r: Result<Vec<u8>, Error>) {
        match table_get(self.table_ref(table), key) {
            Some(v) => Ok(v),
            None => Err(Error::NotFound),
        }
    }

    fn find_values(&self, table: Table, key: &[u8]) -> (r: Vec<Vec<u8>>) {
        table_values(self.table_ref(table), key)
    }
}

impl RwTransaction {
    /// The backing vector of the named table.
    fn table_ref(&self, table: Table) -> (r: &Vec<(Vec<u8>, Vec<u8>)>)
        ensures
            table_view(r@) == self.view().table(table),
    {
        match table {
            Table::Blocks => &self.store.blocks,
            Table::Nodes => &self.store.nodes,
            Table::Entries => &self.store.entries,
        }
    }

    /// Stage a write of `value` under `key` into `table`. An integer-keyed
    /// table refuses a key that is not exactly 8 bytes with `DbWrite`; a
    /// duplicate-keyed table appends to the key's run, a unique-keyed table
    /// replaces the key's value.
    pub fn put(&mut self, table: Table, key: &[u8], value: &[u8]) -> (r: Result<(), Error>)
        ensures
            integer_keyed(table) && key@.len() != 8 ==> r == Err::<(), Error>(Error::DbWrite)
                && final(self).view() == old(self).view(),
            !(integer_keyed(table) && key@.len() != 8) ==> {
                &&& r is Ok
                &&& (forall|t2: Table|
                    t2 != table ==> #[trigger] final(self).view().table(t2) == old(
                        self,
                    ).view().table(t2))
                &&& ({
                    let old_t = old(self).view().table(table);
                    if duplicate_keyed(table) {
                        final(self).view().table(table) == old_t.push((key@, value@))
                    } else {
                        let f = first_match(old_t, key@);
                        if f == -1 {
                            final(self).view().table(table) == old_t.push((key@, value@))
                        } else {
                            final(self).view().table(table) == old_t.remove(f).push(
                                (key@, value@),
                            )
                        }
                    }
                })
            },
    {
        if matches!(table, Table::Nodes | Table::Entries) && key.len() != 8 {
            return Err(Error::DbWrite);
        }
        match table {
            Table::Blocks => table_put_unique(&mut self.store.blocks, key, value),
            Table::Nodes => table_put_duplicate(&mut self.store.nodes, key, value),
            Table::Entries => table_put_unique(&mut self.store.entries, key, value),
        }
        Ok(())
    }

    /// Commit: write the staged state back into the adapter. All writes of
    /// this transaction become visible together, or none do if the handle
    /// is dropped instead.
    pub fn commit(self, adapter: &mut LmdbAdapter) -> (r: Result<(), Error>)
        ensures
            r is Ok,
            final(adapter)@ == self.view(),
    {
        adapter.store = self.store;
        Ok(())
    }
}

impl RoTransaction {
    /// The backing vector of the named table.
    fn table_ref(&self, table: Table) -> (r: &Vec<(Vec<u8>, Vec<u8>)>)
        ensures
            table_view(r@) == self.view().table(table),
    {
        match table {
            Table::Blocks => &self.store.blocks,
            Table::Nodes => &self.store.nodes,
            Table::Entries => &self.store.entries,
        }
    }

    /// End the read-only transaction; a snapshot holds no writes, so there
    /// is nothing to make durable.
    pub fn commit(self) -> (r: Result<(), Error>)
        ensures
            r is Ok,
    {
        Ok(())
    }
}

/// The adapter owning the store environment and its three tables.
pub struct LmdbAdapter {
    store: Store,
}

impl View for LmdbAdapter {
    type V = StoreView;

    closed spec fn view(&self) -> StoreView {
        self.store@
    }
}

impl LmdbAdapter {
    /// Create a fresh store environment with its three tables empty.
    pub fn create_database() -> (r: Result<LmdbAdapter, Error>)
        ensures
            r matches Ok(a) && a@ == StoreView::empty(),
    {
        Ok(LmdbAdapter { store: Store::new() })
    }

    /// Begin a read-write transaction over the current state. The store is
    /// single-writer: at most one read-write transaction may be open at a
    /// time. This model does not enforce the write lock — with two handles
    /// open, the later commit overwrites the earlier one's writes — so the
    /// caller must serialize read-write transactions.
    pub fn rw_transaction(&self) -> (r: Result<RwTransaction, Error>)
        ensures
            r matches Ok(txn) && txn.view() == self@,
    {
        Ok(RwTransaction { store: self.store.duplicate() })
    }

    /// Begin a read-only transaction over a snapshot of the current state.
    pub fn ro_transaction(&self) -> (r: Result<RoTransaction, Error>)
        ensures
            r matches Ok(txn) && txn.view() == self@,
    {
        Ok(RoTransaction { store: self.store.duplicate() })
    }

    /// The next free identifier: the successor of the node index's
    /// high-water mark (the largest id recorded as a parent key or as a
    /// stored node's own id), or of the root id if the index is empty.
    /// Under the allocate-then-add discipline the result is fresh — its
    /// entry-table run is empty — and strictly greater than every id
    /// already assigned.
    pub fn next_available_id(&self, txn: &RwTransaction) -> (r: Result<Id, Error>)
        requires
            high_water(txn.view().nodes) < u64::MAX,
        ensures
            r matches Ok(id) && {
                &&& id.value() == high_water(txn.view().nodes) + 1
                &&& id.value() > 0
                &&& entry_ids_bounded(txn.view()) ==> run(txn.view().entries, id.encoding()).len()
                    == 0
            },
    {
        let pairs = &txn.store.nodes;
        let ghost t = table_view(pairs@);
        let n = pairs.len();
        let mut acc: u64 = 0;
        proof {
            assert(t.skip(0) =~= t);
        }
        let mut i: usize = 0;
        while i < n
            invariant
                n == pairs@.len(),
                t == table_view(pairs@),
                i <= n,
                high_water(t) == ({
                    let rest = high_water(t.skip(i as int));
                    if acc > rest {
                        acc
                    } else {
                        rest
                    }
                }),
            decreases n - i,
        {
            proof {
                lemma_high_water_skip(t, i as int);
                assert(t[i as int] == crate::store::pair_view(pairs@[i as int]));
            }
            let pair = &pairs[i];
            let mut w: u64 = 0;
            if pair.0.len() == 8 {
                if let Some(id) = Id::from_bytes(pair.0.as_slice()) {
                    w = id.value_of();
                }
            }
            if pair.1.len() >= 8 {
                let prefix = slice_subrange(pair.1.as_slice(), 0, 8);
                proof {
                    assert(prefix@ =~= t[i as int].1.take(8));
                }
                if let Some(id) = Id::from_bytes(prefix) {
                    let v = id.value_of();
                    if v > w {
                        w = v;
                    }
                }
            }
            proof {
                assert(w == pair_watermark(t[i as int]));
            }
            if w > acc {
                acc = w;
            }
            i += 1;
        }
        proof {
            assert(t.skip(n as int) =~= Seq::<(Seq<u8>, Seq<u8>)>::empty());
            let hw = high_water(txn.view().nodes);
            if entry_ids_bounded(txn.view()) {
                let key = u64_be_bytes((hw + 1) as u64);
                crate::store::lemma_first_match_run(txn.view().entries, key);
                lemma_u64_be_bytes_roundtrip((hw + 1) as u64);
                if run(txn.view().entries, key).len() > 0 {
                    let f = first_match(txn.view().entries, key);
                    assert(u64_from_be_bytes(txn.view().entries[f].0) <= hw);
                    assert(false);
                }
            }
        }
        Ok(Id::from_value(acc).next())
    }

    /// Find the child of `parent_id` named `name` by scanning the parent's
    /// run of stored nodes; `NotFound` when no stored child bears the name.
    pub fn find_child_node<T: Transaction>(&self, txn: &T, parent_id: Id, name: &str) -> (r:
        Result<Node, Error>)
        ensures
            match r {
                Ok(n) => child_at(txn.view().nodes, parent_id.value(), name@) == Some(n@),
                Err(e) => e == Error::NotFound && child_at(txn.view().nodes, parent_id.value(), name@)
                    is None,
            },
    {
        let key = parent_id.as_bytes();
        let values = txn.find_values(Table::Nodes, key.as_slice());
        let ghost r_run = run(txn.view().nodes, u64_be_bytes(parent_id.value()));
        proof {
            assert(r_run.skip(0) =~= r_run);
        }
        let n = values.len();
        let mut i: usize = 0;
        while i < n
            invariant
                n == values@.len(),
                r_run == vec_views(values@),
                child_at(txn.view().nodes, parent_id.value(), name@) == find_child_in_run(
                    r_run.skip(i as int),
                    parent_id.value(),
                    name@,
                ),
                i <= n,
            decreases n - i,
        {
            proof {
                lemma_find_child_skip(r_run, parent_id.value(), name@, i as int);
                assert(r_run[i as int] == values@[i as int]@);
            }
            match Node::from_parent_id_and_bytes(parent_id, values[i].as_slice()) {
                Ok(node) => {
                    if str_eq(&node.name, name) {
                        return Ok(node);
                    }
                },
                Err(_) => {},
            }
            i += 1;
        }
        proof {
            assert(r_run.skip(n as int) =~= Seq::<Seq<u8>>::empty());
        }
        Err(Error::NotFound)
    }

    /// Resolve a path strictly root-to-leaf, one component at a time;
    /// `NotFound` at the first missing component. The empty path resolves
    /// to the implicit root node.
    pub fn find_node<T: Transaction>(&self, txn: &T, path: &Path) -> (r: Result<Node, Error>)
        ensures
            match r {
                Ok(n) => resolve(txn.view().nodes, path@) == Some(n@),
                Err(e) => e == Error::NotFound && resolve(txn.view().nodes, path@) is None,
            },
    {
        let mut node = Node { id: Id::root(), parent_id: Id::root(), name: String::new() };
        let n = path.components.len();
        proof {
            assert(path@.take(0) =~= Seq::<Seq<char>>::empty());
        }
        let mut i: usize = 0;
        while i < n
            invariant
                n == path.components@.len(),
                resolve(txn.view().nodes, path@.take(i as int)) == Some(node@),
                i <= n,
            decreases n - i,
        {
            let component = &path.components[i];
            let found = self.find_child_node(txn, node.id, component.as_str());
            match found {
                Ok(child) => {
                    node = child;
                },
                Err(e) => {
                    proof {
                        assert(path@.take(i as int + 1).drop_last() =~= path@.take(i as int));
                        assert(path@.take(i as int + 1).last() == path@[i as int]);
                        lemma_resolve_prefix_none(txn.view().nodes, path@, i as int + 1);
                    }
                    return Err(Error::NotFound);
                },
            }
            proof {
                assert(path@.take(i as int + 1).drop_last() =~= path@.take(i as int));
                assert(path@.take(i as int + 1).last() == path@[i as int]);
            }
            i += 1;
        }
        proof {
            assert(path@.take(n as int) =~= path@);
        }
        Ok(node)
    }

    /// Resolve a path to its entry: the node together with its stored
    /// object class. A resolved node whose entry row is missing or
    /// malformed is `DbCorrupt` — the namespace and entry tables have
    /// diverged — surfaced distinctly from an ordinary `NotFound`.
    pub fn find_entry<T: Transaction>(&self, txn: &T, path: &Path) -> (r: Result<Entry, Error>)
        ensures
            match r {
                Ok(e) => lookup_entry(txn.view().nodes, txn.view().entries, path@) == Ok::<
                    (NodeView, ObjectClass),
                    Error,
                >((e.node@, e.objectclass)),
                Err(e) => lookup_entry(txn.view().nodes, txn.view().entries, path@) == Err::<
                    (NodeView, ObjectClass),
                    Error,
                >(e),
            },
    {
        let node = match self.find_node(txn, path) {
            Ok(node) => node,
            Err(e) => {
                return Err(e);
            },
        };
        let key = node.id.as_bytes();
        let entry_bytes = match txn.get(Table::Entries, key.as_slice()) {
            Ok(v) => v,
            Err(_) => {
                return Err(Error::DbCorrupt);
            },
        };
        match ObjectClass::from_bytes(entry_bytes.as_slice()) {
            Ok(objectclass) => Ok(Entry { node, objectclass }),
            Err(_) => Err(Error::DbCorrupt),
        }
    }

    /// Append a block to the log. The caller must have assigned the
    /// block's id. Fails `EntryAlreadyExists`, leaving the log unchanged,
    /// when a block with that id is already stored — the sole enforcement
    /// of the log's append-only, immutable property.
    pub fn add_block(&self, txn: &mut RwTransaction, block: &Block) -> (r: Result<(), Error>)
        requires
            block@.id is Some,
        ensures
            ({
                let key = u64_be_bytes(block@.id.unwrap());
                if run(old(txn).view().blocks, key).len() > 0 {
                    r == Err::<(), Error>(Error::EntryAlreadyExists) && final(txn).view() == old(
                        txn,
                    ).view()
                } else {
                    &&& r is Ok
                    &&& final(txn).view().blocks == old(txn).view().blocks.push(
                        (key, block_encoding(block@)),
                    )
                    &&& final(txn).view().nodes == old(txn).view().nodes
                    &&& final(txn).view().entries == old(txn).view().entries
                }
            }),
    {
        let block_id = match block.id {
            Some(id) => id,
            None => {
                proof {
                    assert(false);
                }
                Id::root()
            },
        };
        let serialized = block.to_bytes();
        let key = block_id.as_bytes();
        match txn.get(Table::Blocks, key.as_slice()) {
            Ok(_) => Err(Error::EntryAlreadyExists),
            Err(_) => {
                proof {
                    crate::store::lemma_first_match_run(old(txn).view().blocks, key@);
                }
                match txn.put(Table::Blocks, key.as_slice(), serialized.as_slice()) {
                    Ok(()) => {
                        proof {
                            assert(txn.view().table(Table::Nodes) == txn.view().nodes);
                            assert(txn.view().table(Table::Entries) == txn.view().entries);
                            assert(txn.view().table(Table::Blocks) == txn.view().blocks);
                        }
                        Ok(())
                    },
                    Err(_) => {
                        proof {
                            assert(false);
                        }
                        Err(Error::DbWrite)
                    },
                }
            },
        }
    }

    /// Create an entry: fail `EntryAlreadyExists` if the id is taken, or if
    /// the parent exists and already has a child of that name (the root's
    /// existence is implicit and always passes); otherwise write the node
    /// under its parent's key and the object class under the entry's id,
    /// and return the constructed entry. A failed call stages no writes.
    pub fn add_entry(
        &self,
        txn: &mut RwTransaction,
        id: Id,
        parent_id: Id,
        name: &str,
        objectclass: ObjectClass,
    ) -> (r: Result<Entry, Error>)
        ensures
            ({
                let v = old(txn).view();
                let id_taken = run(v.entries, u64_be_bytes(id.value())).len() > 0;
                let name_taken = run(v.nodes, u64_be_bytes(parent_id.value())).len() > 0
                    && child_at(v.nodes, parent_id.value(), name@) is Some;
                if id_taken || name_taken {
                    r == Err::<Entry, Error>(Error::EntryAlreadyExists) && final(txn).view() == v
                } else {
                    &&& r matches Ok(e) && e.node@ == (NodeView {
                        id: id.value(),
                        parent_id: parent_id.value(),
                        name: name@,
                    }) && e.objectclass == objectclass
                    &&& final(txn).view().nodes == v.nodes.push(
                        (
                            u64_be_bytes(parent_id.value()),
                            node_encoding(id.value(), name@),
                        ),
                    )
                    &&& final(txn).view().entries == v.entries.push(
                        (u64_be_bytes(id.value()), objectclass_bytes(objectclass)),
                    )
                    &&& final(txn).view().blocks == v.blocks
                }
            }),
    {
        let id_key = id.as_bytes();
        let parent_key = parent_id.as_bytes();
        let id_absent = matches!(txn.get(Table::Entries, id_key.as_slice()), Err(Error::NotFound));
        if !id_absent {
            return Err(Error::EntryAlreadyExists);
        }
        let parent_present = matches!(txn.get(Table::Nodes, parent_key.as_slice()), Ok(_));
        if parent_present {
            let existing = self.find_child_node(&*txn, parent_id, name);
            if matches!(existing, Ok(_)) {
                return Err(Error::EntryAlreadyExists);
            }
        }
        let node = Node { id, parent_id, name: name.to_owned() };
        let node_bytes = node.to_bytes();
        let oc_bytes = objectclass.as_bytes();
        proof {
            crate::store::lemma_first_match_run(old(txn).view().entries, id_key@);
        }
        match txn.put(Table::Nodes, parent_key.as_slice(), node_bytes.as_slice()) {
            Ok(()) => {},
            Err(_) => {
                proof {
                    assert(false);
                }
                return Err(Error::DbWrite);
            },
        }
        proof {
            assert(txn.view().table(Table::Nodes) == txn.view().nodes);
            assert(txn.view().table(Table::Entries) == txn.view().entries);
            assert(txn.view().table(Table::Blocks) == txn.view().blocks);
            assert(txn.view().entries == old(txn).view().entries);
        }
        match txn.put(Table::Entries, id_key.as_slice(), oc_bytes.as_slice()) {
            Ok(()) => {},
            Err(_) => {
                proof {
                    assert(false);
                }
                return Err(Error::DbWrite);
            },
        }
        proof {
            assert(txn.view().table(Table::Nodes) == txn.view().nodes);
            assert(txn.view().table(Table::Entries) == txn.view().entries);
            assert(txn.view().table(Table::Blocks) == txn.view().blocks);
        }
        Ok(Entry { node, objectclass })
    }
}

/// A path whose proper prefix fails to resolve fails to resolve whole.
pub proof fn lemma_resolve_prefix_none(nodes: TableView, comps: Seq<Seq<char>>, k: int)
    requires
        0 <= k <= comps.len(),
        resolve(nodes, comps.take(k)) is None,
    ensures
        resolve(nodes, comps) is None,
    decreases comps.len() - k,
{
    if k < comps.len() {
        assert(comps.take(k + 1).drop_last() =~= comps.take(k));
        lemma_resolve_prefix_none(nodes, comps, k + 1);
    } else {
        assert(comps.take(k) =~= comps);
    }
}

/// A path that resolves keeps resolving to the same node after any pair is
/// appended to the node index: appends extend runs at their end, so a child
/// already found stays the first match.
pub proof fn lemma_resolve_preserved(nodes: TableView, p: (Seq<u8>, Seq<u8>), comps: Seq<
    Seq<char>,
>)
    requires
        resolve(nodes, comps) is Some,
    ensures
        resolve(nodes.push(p), comps) == resolve(nodes, comps),
    decreases comps.len(),
{
    if comps.len() > 0 {
        lemma_resolve_preserved(nodes, p, comps.drop_last());
        let parent = resolve(nodes, comps.drop_last()).unwrap();
        let key = u64_be_bytes(parent.id);
        lemma_run_push(nodes, key, p);
        if p.0 == key {
            lemma_find_child_push(run(nodes, key), parent.id, comps.last(), p.1);
        }
    }
}

/// Once an entry is stored under an id, that id stays occupied: the entry
/// table's run under the id is non-empty, so by the contract of `add_entry`
/// a later call with the same id — under any parent and any name — fails
/// `EntryAlreadyExists` and leaves the transaction unchanged.
pub proof fn lemma_entry_id_occupied(entries: TableView, id: u64, value: Seq<u8>)
    ensures
        run(entries.push((u64_be_bytes(id), value)), u64_be_bytes(id)).len() > 0,
{
    lemma_run_push(entries, u64_be_bytes(id), (u64_be_bytes(id), value));
}

/// Once a node named `name` is stored under `parent`, that sibling name is
/// occupied: the parent's run is non-empty and a child of that name is
/// found, so by the contract of `add_entry` a later call under the same
/// parent with the same name — even with a fresh id — fails
/// `EntryAlreadyExists`.
pub proof fn lemma_sibling_name_occupied(nodes: TableView, parent: u64, id: u64, name: Seq<char>)
    ensures
        ({
            let nodes2 = nodes.push((u64_be_bytes(parent), node_encoding(id, name)));
            run(nodes2, u64_be_bytes(parent)).len() > 0 && child_at(nodes2, parent, name) is Some
        }),
{
    let key = u64_be_bytes(parent);
    let enc = node_encoding(id, name);
    lemma_run_push(nodes, key, (key, enc));
    lemma_find_child_push(run(nodes, key), parent, name, enc);
    lemma_node_encoding_roundtrip(parent, id, name);
}

/// Once a block is stored under an id, the log keeps it: the block log's
/// run under the id is non-empty and still ends in the stored bytes, so by
/// the contract of `add_block` a later call with the same id fails
/// `EntryAlreadyExists` and leaves the stored bytes unchanged.
pub proof fn lemma_block_id_occupied(blocks: TableView, id: u64, bytes: Seq<u8>)
    ensures
        run(blocks.push((u64_be_bytes(id), bytes)), u64_be_bytes(id)) == run(
            blocks,
            u64_be_bytes(id),
        ).push(bytes),
        run(blocks.push((u64_be_bytes(id), bytes)), u64_be_bytes(id)).len() > 0,
{
    lemma_run_push(blocks, u64_be_bytes(id), (u64_be_bytes(id), bytes));
}

/// Resolving a freshly created path finds the new entry: when `parent` is
/// the node a path resolves to, `id` is unoccupied in the entry table and
/// `name` is free under the parent, then after the two writes `add_entry`
/// stages, the path extended by `name` resolves to the new node — whose
/// name is the path's final component and whose id is the one allocated —
/// and looking its entry up yields the stored object class.
pub proof fn lemma_find_entry_after_add_entry(
    nodes: TableView,
    entries: TableView,
    comps: Seq<Seq<char>>,
    parent: NodeView,
    id: u64,
    name: Seq<char>,
    oc: ObjectClass,
)
    requires
        resolve(nodes, comps) == Some(parent),
        run(entries, u64_be_bytes(id)).len() == 0,
        !(run(nodes, u64_be_bytes(parent.id)).len() > 0 && child_at(nodes, parent.id, name)
            is Some),
    ensures
        ({
            let nodes2 = nodes.push((u64_be_bytes(parent.id), node_encoding(id, name)));
            let entries2 = entries.push((u64_be_bytes(id), objectclass_bytes(oc)));
            let nv = NodeView { id, parent_id: parent.id, name };
            &&& resolve(nodes2, comps.push(name)) == Some(nv)
            &&& lookup_entry(nodes2, entries2, comps.push(name)) == Ok::<
                (NodeView, ObjectClass),
                Error,
            >((nv, oc))
        }),
{
    let key = u64_be_bytes(parent.id);
    let enc = node_encoding(id, name);
    let pair = (key, enc);
    let nodes2 = nodes.push(pair);
    lemma_resolve_preserved(nodes, pair, comps);
    assert(comps.push(name).drop_last() =~= comps);
    assert(comps.push(name).last() == name);
    lemma_run_push(nodes, key, pair);
    lemma_find_child_push(run(nodes, key), parent.id, name, enc);
    lemma_node_encoding_roundtrip(parent.id, id, name);
    let idkey = u64_be_bytes(id);
    lemma_run_push(entries, idkey, (idkey, objectclass_bytes(oc)));
    lemma_objectclass_roundtrip(oc);
}

/// Ids are assigned strictly increasing and never reused or reassigned:
/// storing a node carrying `id` — as `add_entry` stages it — raises the
/// node index's high-water mark to at least `id` and never lowers it, so
/// every later allocation, the successor of that mark, returns an id
/// strictly greater than every id already assigned.
pub proof fn lemma_assigned_id_raises_watermark(
    nodes: TableView,
    parent: u64,
    id: u64,
    name: Seq<char>,
)
    ensures
        ({
            let nodes2 = nodes.push((u64_be_bytes(parent), node_encoding(id, name)));
            high_water(nodes2) >= id && high_water(nodes2) >= high_water(nodes)
        }),
{
    let p = (u64_be_bytes(parent), node_encoding(id, name));
    lemma_high_water_push(nodes, p);
    assert(node_encoding(id, name).take(8) =~= u64_be_bytes(id));
    lemma_u64_be_bytes_roundtrip(id);
}

/// The allocate-then-add discipline sustains itself: on a store whose
/// entry-table keys all lie at or below the node index's high-water mark,
/// the two writes `add_entry` stages — the node carrying the new id, and
/// the entry row keyed by it — leave every entry-table key at or below the
/// new mark.
pub proof fn lemma_entry_ids_bounded_preserved(
    v: StoreView,
    parent: u64,
    id: u64,
    name: Seq<char>,
    oc: ObjectClass,
)
    requires
        entry_ids_bounded(v),
    ensures
        entry_ids_bounded(
            StoreView {
                blocks: v.blocks,
                nodes: v.nodes.push((u64_be_bytes(parent), node_encoding(id, name))),
                entries: v.entries.push((u64_be_bytes(id), objectclass_bytes(oc))),
            },
        ),
{
    lemma_assigned_id_raises_watermark(v.nodes, parent, id, name);
    lemma_u64_be_bytes_roundtrip(id);
    let v2 = StoreView {
        blocks: v.blocks,
        nodes: v.nodes.push((u64_be_bytes(parent), node_encoding(id, name))),
        entries: v.entries.push((u64_be_bytes(id), objectclass_bytes(oc))),
    };
    assert forall|k: int| 0 <= k < v2.entries.len() implies #[trigger] v2.entries[k].0.len() == 8
        && u64_from_be_bytes(v2.entries[k].0) <= high_water(v2.nodes) by {
        if k < v.entries.len() {
            assert(v2.entries[k] == v.entries[k]);
        } else {
            assert(v2.entries[k] == (u64_be_bytes(id), objectclass_bytes(oc)));
        }
    }
}

} // verus!
