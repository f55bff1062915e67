//! The flat key-value tables the namespace is mapped onto.
//!
//! One store environment holds three named tables. `blocks` and `entries`
//! keep one value per key; `nodes` keeps, per parent identifier, the
//! contiguous, stably ordered run of values written under that key, which is
//! how one parent's children are stored. Keys of the integer-keyed tables
//! (`nodes` and `entries`) must be exactly 8 bytes wide.

use vstd::prelude::*;
use vstd::slice::slice_to_vec;
use crate::text::bytes_eq;

verus! {

/// A handle naming one of the three tables of a store environment.
#[derive(Clone, Copy, PartialEq, Eq, Structural, Debug)]
pub enum Table {
    /// The append-only block log, keyed by block id.
    Blocks,
    /// The node index, keyed by parent id, many values per key.
    Nodes,
    /// The entry table, keyed by entry id.
    Entries,
}

/// Whether a table is keyed by fixed-width integer identifiers; such a
/// table refuses keys that are not exactly 8 bytes.
pub open spec fn integer_keyed(t: Table) -> bool {
    t == Table::Nodes || t == Table::Entries
}

/// Whether a table keeps many values per key in stored order, rather than
/// one value per key.
pub open spec fn duplicate_keyed(t: Table) -> bool {
    t == Table::Nodes
}

/// The mathematical content of one table: its key-value pairs in stored
/// order.
pub type TableView = Seq<(Seq<u8>, Seq<u8>)>;

/// The mathematical content of a whole store environment.
pub ghost struct StoreView {
    /// Content of the block log.
    pub blocks: TableView,
    /// Content of the node index.
    pub nodes: TableView,
    /// Content of the entry table.
    pub entries: TableView,
}

impl StoreView {
    /// The content of the named table.
    pub open spec fn table(self, t: Table) -> TableView {
        match t {
            Table::Blocks => self.blocks,
            Table::Nodes => self.nodes,
            Table::Entries => self.entries,
        }
    }

    /// A store with all three tables empty.
    pub open spec fn empty() -> StoreView {
        StoreView { blocks: Seq::empty(), nodes: Seq::empty(), entries: Seq::empty() }
    }
}

/// The contiguous run of values stored under `key`, in stored order.
pub open spec fn run(t: TableView, key: Seq<u8>) -> Seq<Seq<u8>>
    decreases t.len(),
{
    if t.len() == 0 {
        Seq::empty()
    } else {
        let rest = run(t.drop_first(), key);
        if t[0].0 == key {
            seq![t[0].1] + rest
        } else {
            rest
        }
    }
}

/// The position of the first pair stored under `key`, or -1 if there is
/// none.
pub open spec fn first_match(t: TableView, key: Seq<u8>) -> int
    decreases t.len(),
{
    if t.len() == 0 {
        -1
    } else if t[0].0 == key {
        0
    } else {
        let rest = first_match(t.drop_first(), key);
        if rest == -1 {
            -1
        } else {
            rest + 1
        }
    }
}

/// Unfolds `run` one position at a time: the run of a suffix starts at the
/// pair at that position.
pub proof fn lemma_run_skip(t: TableView, key: Seq<u8>, i: int)
    requires
        0 <= i < t.len(),
    ensures
        run(t.skip(i), key) == if t[i].0 == key {
            seq![t[i].1] + run(t.skip(i + 1), key)
        } else {
            run(t.skip(i + 1), key)
        },
{
    assert(t.skip(i).drop_first() =~= t.skip(i + 1));
    assert(t.skip(i)[0] == t[i]);
}

/// A table and its suffix have the same run under a key when no pair of the
/// dropped prefix is stored under it.
pub proof fn lemma_run_skip_prefix(t: TableView, key: Seq<u8>, i: int)
    requires
        0 <= i <= t.len(),
        forall|k: int| 0 <= k < i ==> t[k].0 != key,
    ensures
        run(t, key) == run(t.skip(i), key),
    decreases i,
{
    if i > 0 {
        lemma_run_skip(t, key, 0);
        assert(t.skip(0) =~= t);
        lemma_run_skip_prefix(t.skip(1), key, i - 1);
        assert(t.skip(1).skip(i - 1) =~= t.skip(i));
    } else {
        assert(t.skip(0) =~= t);
    }
}

/// Appending a pair extends the run under its key and leaves every other
/// run unchanged.
pub proof fn lemma_run_push(t: TableView, key: Seq<u8>, p: (Seq<u8>, Seq<u8>))
    ensures
        p.0 == key ==> run(t.push(p), key) == run(t, key).push(p.1),
        p.0 != key ==> run(t.push(p), key) == run(t, key),
    decreases t.len(),
{
    if t.len() == 0 {
        assert(t.push(p).drop_first() =~= Seq::<(Seq<u8>, Seq<u8>)>::empty());
        assert(run(t.push(p).drop_first(), key) =~= Seq::<Seq<u8>>::empty());
        assert(t.push(p)[0] == p);
        if p.0 == key {
            assert(run(t.push(p), key) =~= run(t, key).push(p.1));
        } else {
            assert(run(t.push(p), key) =~= run(t, key));
        }
    } else {
        assert(t.push(p).drop_first() =~= t.drop_first().push(p));
        assert(t.push(p)[0] == t[0]);
        lemma_run_push(t.drop_first(), key, p);
        if p.0 == key {
            assert(run(t.push(p), key) =~= run(t, key).push(p.1));
        } else {
            assert(run(t.push(p), key) =~= run(t, key));
        }
    }
}

/// The first match under a key is where its run begins.
pub proof fn lemma_first_match_run(t: TableView, key: Seq<u8>)
    ensures
        first_match(t, key) == -1 <==> run(t, key).len() == 0,
        first_match(t, key) != -1 ==> {
            let f = first_match(t, key);
            &&& 0 <= f < t.len()
            &&& t[f].0 == key
            &&& run(t, key)[0] == t[f].1
            &&& forall|k: int| 0 <= k < f ==> t[k].0 != key
        },
    decreases t.len(),
{
    if t.len() > 0 {
        lemma_first_match_run(t.drop_first(), key);
        if t[0].0 != key {
            let rest = first_match(t.drop_first(), key);
            if rest != -1 {
                assert forall|k: int| 0 <= k < rest + 1 implies t[k].0 != key by {
                    if k >= 1 {
                        assert(t[k] == t.drop_first()[k - 1]);
                    }
                }
                assert(run(t, key)[0] == run(t.drop_first(), key)[0]);
            }
        }
    }
}

/// The view of one stored pair.
pub open spec fn pair_view(p: (Vec<u8>, Vec<u8>)) -> (Seq<u8>, Seq<u8>) {
    (p.0@, p.1@)
}

/// The view of a table's backing vector.
pub open spec fn table_view(pairs: Seq<(Vec<u8>, Vec<u8>)>) -> TableView {
    pairs.map_values(|p: (Vec<u8>, Vec<u8>)| pair_view(p))
}

/// The views of a vector of values.
pub open spec fn vec_views(s: Seq<Vec<u8>>) -> Seq<Seq<u8>> {
    s.map_values(|v: Vec<u8>| v@)
}

/// Exact-key lookup: the first value stored under `key`, if any.
pub(crate) fn table_get(pairs: &Vec<(Vec<u8>, Vec<u8>)>, key: &[u8]) -> (r: Option<Vec<u8>>)
    ensures
        match r {
            Some(v) => run(table_view(pairs@), key@).len() > 0 && v@ == run(
                table_view(pairs@),
                key@,
            )[0],
            None => run(table_view(pairs@), key@).len() == 0,
        },
{
    let ghost t = table_view(pairs@);
    let n = pairs.len();
    let mut i: usize = 0;
    while i < n
        invariant
            n == pairs@.len(),
            t == table_view(pairs@),
            i <= n,
            forall|k: int| 0 <= k < i ==> #[trigger] t[k].0 != key@,
        decreases n - i,
    {
        let pair = &pairs[i];
        if bytes_eq(pair.0.as_slice(), key) {
            proof {
                lemma_run_skip_prefix(t, key@, i as int);
                lemma_run_skip(t, key@, i as int);
            }
            return Some(slice_to_vec(pair.1.as_slice()));
        }
        i += 1;
    }
    proof {
        lemma_run_skip_prefix(t, key@, n as int);
        assert(t.skip(n as int) =~= Seq::<(Seq<u8>, Seq<u8>)>::empty());
    }
    None
}

/// The whole run of values stored under `key`, in stored order.
pub(crate) fn table_values(pairs: &Vec<(Vec<u8>, Vec<u8>)>, key: &[u8]) -> (r: Vec<Vec<u8>>)
    ensures
        vec_views(r@) == run(table_view(pairs@), key@),
{
    let ghost t = table_view(pairs@);
    let n = pairs.len();
    let mut r: Vec<Vec<u8>> = Vec::new();
    proof {
        assert(t.skip(0) =~= t);
        assert(vec_views(r@) + run(t, key@) =~= run(t, key@));
    }
    let mut i: usize = 0;
    while i < n
        invariant
            n == pairs@.len(),
            t == table_view(pairs@),
            i <= n,
            run(t, key@) == vec_views(r@) + run(t.skip(i as int), key@),
        decreases n - i,
    {
        proof {
            lemma_run_skip(t, key@, i as int);
        }
        let pair = &pairs[i];
        if bytes_eq(pair.0.as_slice(), key) {
            r.push(slice_to_vec(pair.1.as_slice()));
            proof {
                assert(vec_views(r@) =~= vec_views(r@.drop_last()).push(t[i as int].1));
                assert(run(t, key@) =~= vec_views(r@) + run(t.skip(i as int + 1), key@));
            }
        } else {
            proof {
                assert(run(t, key@) =~= vec_views(r@) + run(t.skip(i as int + 1), key@));
            }
        }
        i += 1;
    }
    proof {
        assert(t.skip(n as int) =~= Seq::<(Seq<u8>, Seq<u8>)>::empty());
        assert(run(t, key@) =~= vec_views(r@));
    }
    r
}

/// Append a pair under `key`; used for the duplicate-keyed table, whose
/// runs grow in stored order.
pub(crate) fn table_put_duplicate(
    pairs: &mut Vec<(Vec<u8>, Vec<u8>)>,
    key: &[u8],
    value: &[u8],
)
    ensures
        table_view(final(pairs)@) == table_view(old(pairs)@).push((key@, value@)),
{
    pairs.push((slice_to_vec(key), slice_to_vec(value)));
    proof {
        assert(table_view(pairs@) =~= table_view(old(pairs)@).push((key@, value@)));
    }
}

/// Store a pair under `key` in a unique-keyed table: an existing pair under
/// the same key is removed first, so the key keeps a single value.
pub(crate) fn table_put_unique(pairs: &mut Vec<(Vec<u8>, Vec<u8>)>, key: &[u8], value: &[u8])
    ensures
        ({
            let t = table_view(old(pairs)@);
            let f = first_match(t, key@);
            if f == -1 {
                table_view(final(pairs)@) == t.push((key@, value@))
            } else {
                table_view(final(pairs)@) == t.remove(f).push((key@, value@))
            }
        }),
{
    let ghost t = table_view(old(pairs)@);
    let n = pairs.len();
    let mut i: usize = 0;
    while i < n
        invariant
            n == pairs@.len(),
            pairs@ == old(pairs)@,
            t == table_view(pairs@),
            i <= n,
            forall|k: int| 0 <= k < i ==> #[trigger] t[k].0 != key@,
        decreases n - i,
    {
        let pair = &pairs[i];
        if bytes_eq(pair.0.as_slice(), key) {
            proof {
                lemma_first_match_prefix(t, key@, i as int);
            }
            pairs.remove(i);
            pairs.push((slice_to_vec(key), slice_to_vec(value)));
            proof {
                assert(table_view(pairs@) =~= t.remove(i as int).push((key@, value@)));
            }
            return ;
        }
        i += 1;
    }
    pairs.push((slice_to_vec(key), slice_to_vec(value)));
    proof {
        lemma_first_match_none(t, key@);
        assert(table_view(pairs@) =~= t.push((key@, value@)));
    }
}

/// When no earlier pair is stored under the key and position `i` is, the
/// first match is `i`.
proof fn lemma_first_match_prefix(t: TableView, key: Seq<u8>, i: int)
    requires
        0 <= i < t.len(),
        forall|k: int| 0 <= k < i ==> t[k].0 != key,
        t[i].0 == key,
    ensures
        first_match(t, key) == i,
    decreases i,
{
    if i > 0 {
        lemma_first_match_prefix(t.drop_first(), key, i - 1);
    }
}

/// When no pair is stored under the key, there is no first match.
proof fn lemma_first_match_none(t: TableView, key: Seq<u8>)
    requires
        forall|k: int| 0 <= k < t.len() ==> t[k].0 != key,
    ensures
        first_match(t, key) == -1,
    decreases t.len(),
{
    if t.len() > 0 {
        lemma_first_match_none(t.drop_first(), key);
    }
}

/// Copy a table's backing vector.
pub(crate) fn duplicate_table(pairs: &Vec<(Vec<u8>, Vec<u8>)>) -> (r: Vec<(Vec<u8>, Vec<u8>)>)
    ensures
        table_view(r@) == table_view(pairs@),
{
    let n = pairs.len();
    let mut r: Vec<(Vec<u8>, Vec<u8>)> = Vec::new();
    let mut i: usize = 0;
    while i < n
        invariant
            n == pairs@.len(),
            i <= n,
            r@.len() == i,
            forall|k: int| 0 <= k < i ==> #[trigger] pair_view(r@[k]) == pair_view(pairs@[k]),
        decreases n - i,
    {
        let pair = &pairs[i];
        r.push((slice_to_vec(pair.0.as_slice()), slice_to_vec(pair.1.as_slice())));
        i += 1;
    }
    proof {
        assert(table_view(r@) =~= table_view(pairs@));
    }
    r
}

/// The backing state of one store environment.
pub struct Store {
    /// Backing pairs of the block log.
    pub blocks: Vec<(Vec<u8>, Vec<u8>)>,
    /// Backing pairs of the node index.
    pub nodes: Vec<(Vec<u8>, Vec<u8>)>,
    /// Backing pairs of the entry table.
    pub entries: Vec<(Vec<u8>, Vec<u8>)>,
}

impl View for Store {
    type V = StoreView;

    open spec fn view(&self) -> StoreView {
        StoreView {
            blocks: table_view(self.blocks@),
            nodes: table_view(self.nodes@),
            entries: table_view(self.entries@),
        }
    }
}

impl Store {
    /// A store with all three tables empty.
    pub fn new() -> (r: Store)
        ensures
            r@ == StoreView::empty(),
    {
        let r = Store { blocks: Vec::new(), nodes: Vec::new(), entries: Vec::new() };
        proof {
            assert(r@.blocks =~= StoreView::empty().blocks);
            assert(r@.nodes =~= StoreView::empty().nodes);
            assert(r@.entries =~= StoreView::empty().entries);
        }
        r
    }

    /// Copy the whole store state.
    pub fn duplicate(&self) -> (r: Store)
        ensures
            r@ == self@,
    {
        Store {
            blocks: duplicate_table(&self.blocks),
            nodes: duplicate_table(&self.nodes),
            entries: duplicate_table(&self.entries),
        }
    }
}

} // verus!
