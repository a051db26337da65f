use vstd::prelude::*;

use crate::interaction::InteractionState;
use crate::scroll::{next_offset, scroll_offset, WheelEvent};

verus! {

/// One logical item of a list: a caller-chosen key, unique within one
/// sequence, and the payload that the item's node renders.
#[derive(Clone, Debug, PartialEq, Eq)]
pub struct ItemDescriptor {
    pub key: String,
    pub payload: String,
}

pub struct ItemView {
    pub key: Seq<char>,
    pub payload: Seq<char>,
}

impl View for ItemDescriptor {
    type V = ItemView;

    open spec fn view(&self) -> ItemView {
        ItemView { key: self.key@, payload: self.payload@ }
    }
}

impl ItemDescriptor {
    pub fn new(key: &str, payload: &str) -> (d: ItemDescriptor)
        ensures
            d@.key == key@,
            d@.payload == payload@,
    {
        ItemDescriptor { key: key.to_owned(), payload: payload.to_owned() }
    }
}

/// The tie between an item key and the scene node that shows it.
#[derive(Clone, Debug, PartialEq, Eq)]
pub struct ChildBinding {
    pub key: String,
    pub node: u64,
    /// The payload last pushed to the node.
    pub payload: String,
}

pub struct BindingView {
    pub key: Seq<char>,
    pub node: u64,
    pub payload: Seq<char>,
}

impl View for ChildBinding {
    type V = BindingView;

    open spec fn view(&self) -> BindingView {
        BindingView { key: self.key@, node: self.node, payload: self.payload@ }
    }
}

/// A change to the scene that a reconciliation pass asks for.
#[derive(Clone, Debug, PartialEq, Eq)]
pub enum Mutation {
    /// Create `node` under the list's content node, at the end, showing `payload`.
    Spawn { node: u64, key: String, payload: String },
    /// Push a new payload to an existing node.
    Update { node: u64, payload: String },
    /// Remove a node and everything under it.
    Despawn { node: u64 },
    /// Arrange the content node's children in this order.
    Reorder { order: Vec<u64> },
}

pub enum MutationView {
    Spawn { node: u64, key: Seq<char>, payload: Seq<char> },
    Update { node: u64, payload: Seq<char> },
    Despawn { node: u64 },
    Reorder { order: Seq<u64> },
}

impl View for Mutation {
    type V = MutationView;

    open spec fn view(&self) -> MutationView {
        match self {
            Mutation::Spawn { node, key, payload } => MutationView::Spawn {
                node: *node,
                key: key@,
                payload: payload@,
            },
            Mutation::Update { node, payload } => MutationView::Update {
                node: *node,
                payload: payload@,
            },
            Mutation::Despawn { node } => MutationView::Despawn { node: *node },
            Mutation::Reorder { order } => MutationView::Reorder { order: order@ },
        }
    }
}

/// A descriptor sequence repeated this key.
#[derive(Clone, Debug, PartialEq, Eq)]
pub struct DuplicateKeyError {
    pub key: String,
}

pub open spec fn item_keys(items: Seq<ItemView>) -> Seq<Seq<char>> {
    items.map_values(|d: ItemView| d.key)
}

pub open spec fn binding_keys(bs: Seq<BindingView>) -> Seq<Seq<char>> {
    bs.map_values(|b: BindingView| b.key)
}

pub open spec fn binding_nodes(bs: Seq<BindingView>) -> Seq<u64> {
    bs.map_values(|b: BindingView| b.node)
}

pub open spec fn item_views(items: Seq<ItemDescriptor>) -> Seq<ItemView> {
    items.map_values(|d: ItemDescriptor| d@)
}

pub open spec fn binding_views(bs: Seq<ChildBinding>) -> Seq<BindingView> {
    bs.map_values(|b: ChildBinding| b@)
}

pub open spec fn mutation_views(ms: Seq<Mutation>) -> Seq<MutationView> {
    ms.map_values(|m: Mutation| m@)
}

pub open spec fn distinct<T>(s: Seq<T>) -> bool {
    forall|i: int, j: int| 0 <= i < j < s.len() ==> s[i] != s[j]
}

/// Position `j` is the first that repeats a key standing before it.
pub open spec fn first_repeat(keys: Seq<Seq<char>>, j: int) -> bool {
    &&& 0 <= j < keys.len()
    &&& distinct(keys.take(j))
    &&& keys.take(j).contains(keys[j])
}

/// Index of the binding with key `k`, or -1 when there is none.
pub open spec fn index_of(bs: Seq<BindingView>, k: Seq<char>) -> int {
    if exists|i: int| 0 <= i < bs.len() && bs[i].key == k {
        choose|i: int| 0 <= i < bs.len() && bs[i].key == k
    } else {
        -1
    }
}

/// What the walk over the new descriptors builds.
pub struct Walk {
    pub bindings: Seq<BindingView>,
    pub mutations: Seq<MutationView>,
    pub spawned: Seq<u64>,
    pub next: int,
}

/// Walks the descriptors in order: an item whose key has a binding keeps its
/// node, and gets an update when its payload changed; an item without one gets
/// a node numbered from `next` and a spawn.
pub open spec fn walk(prev: Seq<BindingView>, items: Seq<ItemView>, next: int) -> Walk
    decreases items.len(),
{
    if items.len() == 0 {
        Walk { bindings: seq![], mutations: seq![], spawned: seq![], next }
    } else {
        let w = walk(prev, items.drop_last(), next);
        let d = items.last();
        let i = index_of(prev, d.key);
        if i >= 0 {
            let b = prev[i];
            Walk {
                bindings: w.bindings.push(BindingView { key: d.key, node: b.node, payload: d.payload }),
                mutations: if b.payload != d.payload {
                    w.mutations.push(MutationView::Update { node: b.node, payload: d.payload })
                } else {
                    w.mutations
                },
                spawned: w.spawned,
                next: w.next,
            }
        } else {
            let node = w.next as u64;
            Walk {
                bindings: w.bindings.push(BindingView { key: d.key, node, payload: d.payload }),
                mutations: w.mutations.push(
                    MutationView::Spawn { node, key: d.key, payload: d.payload },
                ),
                spawned: w.spawned.push(node),
                next: w.next + 1,
            }
        }
    }
}

/// Nodes of the previous bindings whose key is gone, in their old order.
pub open spec fn removed(prev: Seq<BindingView>, items: Seq<ItemView>) -> Seq<u64>
    decreases prev.len(),
{
    if prev.len() == 0 {
        seq![]
    } else if item_keys(items).contains(prev.last().key) {
        removed(prev.drop_last(), items)
    } else {
        removed(prev.drop_last(), items).push(prev.last().node)
    }
}

/// Nodes of the previous bindings whose key stays, in their old order.
pub open spec fn kept(prev: Seq<BindingView>, items: Seq<ItemView>) -> Seq<u64>
    decreases prev.len(),
{
    if prev.len() == 0 {
        seq![]
    } else if item_keys(items).contains(prev.last().key) {
        kept(prev.drop_last(), items).push(prev.last().node)
    } else {
        kept(prev.drop_last(), items)
    }
}

/// The full pass: the walk's spawns and updates, a despawn for each removed
/// node, and one reorder when the children would otherwise stand in another
/// order than the items (kept nodes in old order, then the spawned ones).
pub open spec fn plan(prev: Seq<BindingView>, items: Seq<ItemView>, next: int) -> Seq<MutationView> {
    let w = walk(prev, items, next);
    let despawns = removed(prev, items).map_values(|n: u64| MutationView::Despawn { node: n });
    let current = kept(prev, items) + w.spawned;
    let target = binding_nodes(w.bindings);
    if current == target {
        w.mutations + despawns
    } else {
        w.mutations + despawns + seq![MutationView::Reorder { order: target }]
    }
}

/// Whether some item carries key `k`.
fn has_key(items: &Vec<ItemDescriptor>, k: &String) -> (r: bool)
    ensures
        r == item_keys(item_views(items@)).contains(k@),
{
    let ghost keys = item_keys(item_views(items@));
    let mut i: usize = 0;
    while i < items.len()
        invariant
            i <= items.len(),
            keys == item_keys(item_views(items@)),
            keys.len() == items.len(),
            forall|j: int| 0 <= j < items.len() ==> #[trigger] keys[j] == items@[j].key@,
            forall|j: int| 0 <= j < i ==> keys[j] != k@,
        decreases items.len() - i,
    {
        if items[i].key == *k {
            assert(keys[i as int] == k@);
            return true;
        }
        i = i + 1;
    }
    false
}

/// The first position that repeats an earlier key, if any.
pub fn find_duplicate(items: &Vec<ItemDescriptor>) -> (r: Option<usize>)
    ensures
        r matches Some(j) ==> first_repeat(item_keys(item_views(items@)), j as int),
        r is None ==> distinct(item_keys(item_views(items@))),
{
    let ghost keys = item_keys(item_views(items@));
    let mut j: usize = 0;
    while j < items.len()
        invariant
            j <= items.len(),
            keys == item_keys(item_views(items@)),
            keys.len() == items.len(),
            forall|x: int| 0 <= x < items.len() ==> #[trigger] keys[x] == items@[x].key@,
            distinct(keys.take(j as int)),
        decreases items.len() - j,
    {
        let mut i: usize = 0;
        while i < j
            invariant
                i <= j < items.len(),
                keys == item_keys(item_views(items@)),
                keys.len() == items.len(),
                forall|x: int| 0 <= x < items.len() ==> #[trigger] keys[x] == items@[x].key@,
                forall|x: int| 0 <= x < i ==> keys[x] != keys[j as int],
                distinct(keys.take(j as int)),
            decreases j - i,
        {
            if items[i].key == items[j].key {
                assert(keys.take(j as int)[i as int] == keys[j as int]);
                return Some(j);
            }
            i = i + 1;
        }
        assert(distinct(keys.take(j as int + 1))) by {
            let t = keys.take(j as int + 1);
            assert forall|a: int, b: int| 0 <= a < b < t.len() implies t[a] != t[b] by {
                if b < j {
                    assert(keys.take(j as int)[a] == t[a] && keys.take(j as int)[b] == t[b]);
                }
            }
        }
        j = j + 1;
    }
    assert(keys.take(j as int) =~= keys);
    None
}

/// Index of the binding with key `k`.
fn find_binding(bs: &Vec<ChildBinding>, k: &String) -> (r: Option<usize>)
    requires
        distinct(binding_keys(binding_views(bs@))),
    ensures
        r matches Some(i) ==> i == index_of(binding_views(bs@), k@),
        r is None ==> index_of(binding_views(bs@), k@) == -1,
{
    let ghost v = binding_views(bs@);
    let mut i: usize = 0;
    while i < bs.len()
        invariant
            i <= bs.len(),
            v.len() == bs.len(),
            v == binding_views(bs@),
            distinct(binding_keys(v)),
            forall|j: int| 0 <= j < i ==> v[j].key != k@,
        decreases bs.len() - i,
    {
        if bs[i].key == *k {
            assert(v[i as int].key == k@);
            proof {
                let c = choose|x: int| 0 <= x < v.len() && v[x].key == k@;
                assert(binding_keys(v)[c] == v[c].key);
                assert(binding_keys(v)[i as int] == v[i as int].key);
                let ks = binding_keys(v);
                if c < i as int {
                    assert(ks[c] != ks[i as int]);
                } else if c > i as int {
                    assert(ks[i as int] != ks[c]);
                }
            }
            return Some(i);
        }
        i = i + 1;
    }
    None
}

pub open spec fn despawns(nodes: Seq<u64>) -> Seq<MutationView> {
    nodes.map_values(|n: u64| MutationView::Despawn { node: n })
}

/// Well-formed bindings: keys and nodes are pairwise distinct, and every node
/// was numbered below `next`.
pub open spec fn bindings_wf(bs: Seq<BindingView>, next: int) -> bool {
    &&& distinct(binding_keys(bs))
    &&& distinct(binding_nodes(bs))
    &&& forall|i: int| 0 <= i < bs.len() ==> #[trigger] bs[i].node < next
}

pub proof fn lemma_index_of(bs: Seq<BindingView>, k: Seq<char>)
    ensures
        -1 <= index_of(bs, k) < bs.len(),
        index_of(bs, k) >= 0 ==> bs[index_of(bs, k)].key == k,
        index_of(bs, k) == -1 ==> forall|i: int| 0 <= i < bs.len() ==> bs[i].key != k,
{
}

/// The walk gives the items' keys in the items' order, never numbers two
/// bindings alike, and numbers new nodes from `next` upwards.
pub proof fn lemma_walk(prev: Seq<BindingView>, items: Seq<ItemView>, next: int)
    requires
        bindings_wf(prev, next),
        distinct(item_keys(items)),
        0 <= next,
        next + items.len() <= u64::MAX,
    ensures
        binding_keys(walk(prev, items, next).bindings) == item_keys(items),
        next <= walk(prev, items, next).next <= next + items.len(),
        walk(prev, items, next).next == next + walk(prev, items, next).spawned.len(),
        forall|k: int|
            0 <= k < walk(prev, items, next).spawned.len() ==> #[trigger] walk(
                prev,
                items,
                next,
            ).spawned[k] >= next,
        bindings_wf(walk(prev, items, next).bindings, walk(prev, items, next).next),
        forall|j: int|
            0 <= j < items.len() ==> {
                let b = #[trigger] walk(prev, items, next).bindings[j];
                let i = index_of(prev, b.key);
                &&& b.payload == items[j].payload
                &&& i >= 0 ==> b.node == prev[i].node
                &&& i < 0 ==> b.node >= next
            },
    decreases items.len(),
{
    let w = walk(prev, items, next);
    if items.len() > 0 {
        let init = items.drop_last();
        assert(distinct(item_keys(init))) by {
            let ks = item_keys(init);
            assert forall|a: int, b: int| 0 <= a < b < ks.len() implies ks[a] != ks[b] by {
                assert(ks[a] == item_keys(items)[a] && ks[b] == item_keys(items)[b]);
            }
        }
        lemma_walk(prev, init, next);
        let r = walk(prev, init, next);
        let d = items.last();
        lemma_index_of(prev, d.key);
        let i = index_of(prev, d.key);
        assert(binding_keys(r.bindings).len() == r.bindings.len());
        assert(r.bindings.len() == init.len());
        assert(w.bindings.len() == items.len());
        assert(w.bindings[items.len() - 1].key == d.key);
        assert(binding_keys(w.bindings) =~= item_keys(items)) by {
            assert(binding_keys(r.bindings) == item_keys(init));
            assert forall|j: int| 0 <= j < items.len() implies binding_keys(w.bindings)[j]
                == item_keys(items)[j] by {
                if j < init.len() {
                    assert(binding_keys(r.bindings)[j] == item_keys(init)[j]);
                    assert(w.bindings[j] == r.bindings[j]);
                    assert(init[j] == items[j]);
                }
            }
        }
        if i >= 0 {
            assert(prev[i].node < next);
        } else {
            assert(r.next as u64 == r.next);
        }
        assert forall|j: int| 0 <= j < w.bindings.len() implies #[trigger] w.bindings[j].node < w.next by {
            if j < r.bindings.len() {
                assert(w.bindings[j] == r.bindings[j]);
                assert(r.bindings[j].node < r.next);
            }
        }
        assert(distinct(binding_keys(w.bindings)));
        let last = items.len() - 1;
        assert forall|a: int, b: int| 0 <= a < b < w.bindings.len() implies binding_nodes(w.bindings)[a]
            != binding_nodes(w.bindings)[b] by {
            let ns = binding_nodes(w.bindings);
            assert(w.bindings[a] == r.bindings[a]);
            if b < last {
                assert(w.bindings[b] == r.bindings[b]);
                assert(ns[a] == binding_nodes(r.bindings)[a]);
                assert(ns[b] == binding_nodes(r.bindings)[b]);
            } else {
                let ba = r.bindings[a];
                assert(ns[a] == ba.node);
                assert(ba.node < r.next);
                assert(ba.key == item_keys(init)[a]);
                assert(ba.key == item_keys(items)[a]);
                assert(d.key == item_keys(items)[last]);
                assert(ba.key != d.key);
                if i >= 0 {
                    let ia = index_of(prev, ba.key);
                    lemma_index_of(prev, ba.key);
                    if ia >= 0 {
                        assert(ia != i);
                        if ia < i {
                            assert(binding_nodes(prev)[ia] != binding_nodes(prev)[i]);
                        } else {
                            assert(binding_nodes(prev)[i] != binding_nodes(prev)[ia]);
                        }
                    } else {
                        assert(prev[i].node < next);
                    }
                }
            }
        }
        assert forall|j: int| 0 <= j < items.len() implies {
            let b = #[trigger] w.bindings[j];
            let i = index_of(prev, b.key);
            &&& b.payload == items[j].payload
            &&& i >= 0 ==> b.node == prev[i].node
            &&& i < 0 ==> b.node >= next
        } by {
            if j < init.len() {
                assert(w.bindings[j] == r.bindings[j]);
                assert(items[j] == init[j]);
            }
        }
    }
}

fn same_nodes(a: &Vec<u64>, b: &Vec<u64>) -> (r: bool)
    ensures
        r == (a@ == b@),
{
    if a.len() != b.len() {
        return false;
    }
    let mut i: usize = 0;
    while i < a.len()
        invariant
            i <= a.len() == b.len(),
            forall|j: int| 0 <= j < i ==> a@[j] == b@[j],
        decreases a.len() - i,
    {
        if a[i] != b[i] {
            return false;
        }
        i = i + 1;
    }
    assert(a@ =~= b@);
    true
}

fn nodes_of(bs: &Vec<ChildBinding>) -> (r: Vec<u64>)
    ensures
        r@ == binding_nodes(binding_views(bs@)),
{
    let mut r: Vec<u64> = Vec::new();
    let mut i: usize = 0;
    while i < bs.len()
        invariant
            i <= bs.len(),
            r@ == binding_nodes(binding_views(bs@.take(i as int))),
        decreases bs.len() - i,
    {
        r.push(bs[i].node);
        i = i + 1;
        assert(binding_nodes(binding_views(bs@.take(i as int))) =~= r@);
    }
    assert(bs@.take(i as int) =~= bs@);
    r
}

/// Bindings that already match the items key for key and payload for payload.
pub open spec fn in_sync(bs: Seq<BindingView>, items: Seq<ItemView>) -> bool {
    &&& bs.len() == items.len()
    &&& forall|j: int|
        0 <= j < bs.len() ==> (#[trigger] bs[j]).key == items[j].key && bs[j].payload
            == items[j].payload
}

proof fn lemma_index_of_unique(bs: Seq<BindingView>, m: int)
    requires
        0 <= m < bs.len(),
        distinct(binding_keys(bs)),
    ensures
        index_of(bs, bs[m].key) == m,
{
    lemma_index_of(bs, bs[m].key);
    let i = index_of(bs, bs[m].key);
    assert(binding_keys(bs)[m] == bs[m].key);
    assert(i >= 0);
    assert(binding_keys(bs)[i] == bs[i].key);
    if i < m {
        assert(binding_keys(bs)[i] != binding_keys(bs)[m]);
    } else if i > m {
        assert(binding_keys(bs)[m] != binding_keys(bs)[i]);
    }
}

proof fn lemma_walk_in_sync(bs: Seq<BindingView>, items: Seq<ItemView>, next: int, m: int)
    requires
        in_sync(bs, items),
        distinct(binding_keys(bs)),
        0 <= m <= items.len(),
    ensures
        walk(bs, items.take(m), next) == (Walk {
            bindings: bs.take(m),
            mutations: seq![],
            spawned: seq![],
            next,
        }),
    decreases m,
{
    if m == 0 {
        assert(bs.take(0) =~= Seq::<BindingView>::empty());
    } else {
        lemma_walk_in_sync(bs, items, next, m - 1);
        assert(items.take(m).drop_last() =~= items.take(m - 1));
        assert(items.take(m).last() == items[m - 1]);
        lemma_index_of_unique(bs, m - 1);
        let b = bs[m - 1];
        assert((BindingView { key: items[m - 1].key, node: b.node, payload: items[m - 1].payload })
            == b);
        assert(bs.take(m - 1).push(b) =~= bs.take(m));
    }
}

proof fn lemma_nothing_removed(bs: Seq<BindingView>, items: Seq<ItemView>)
    requires
        forall|i: int| 0 <= i < bs.len() ==> item_keys(items).contains(#[trigger] bs[i].key),
    ensures
        removed(bs, items) == Seq::<u64>::empty(),
        kept(bs, items) == binding_nodes(bs),
    decreases bs.len(),
{
    if bs.len() > 0 {
        let init = bs.drop_last();
        assert forall|i: int| 0 <= i < init.len() implies item_keys(items).contains(
            #[trigger] init[i].key,
        ) by {
            assert(init[i] == bs[i]);
        }
        lemma_nothing_removed(init, items);
        assert(item_keys(items).contains(bs[bs.len() - 1].key));
        assert(binding_nodes(init).push(bs.last().node) =~= binding_nodes(bs));
    }
}

/// Reconciling against bindings that already match the items changes nothing
/// and asks for no mutation.
pub proof fn lemma_in_sync_is_noop(bs: Seq<BindingView>, items: Seq<ItemView>, next: int)
    requires
        in_sync(bs, items),
        distinct(binding_keys(bs)),
    ensures
        plan(bs, items, next) == Seq::<MutationView>::empty(),
        walk(bs, items, next).bindings == bs,
        walk(bs, items, next).next == next,
{
    lemma_walk_in_sync(bs, items, next, items.len() as int);
    assert(items.take(items.len() as int) =~= items);
    assert(bs.take(items.len() as int) =~= bs);
    assert forall|i: int| 0 <= i < bs.len() implies item_keys(items).contains(#[trigger] bs[i].key) by {
        assert(item_keys(items)[i] == bs[i].key);
    }
    lemma_nothing_removed(bs, items);
    assert(despawns(Seq::<u64>::empty()) =~= Seq::<MutationView>::empty());
    assert(binding_nodes(bs) + Seq::<u64>::empty() =~= binding_nodes(bs));
    assert(Seq::<MutationView>::empty() + Seq::<MutationView>::empty() =~= Seq::<
        MutationView,
    >::empty());
}

/// Idempotence: reconciling the same items twice in succession asks for no
/// mutation the second time, and leaves the bindings as the first pass made
/// them.
pub proof fn lemma_reconcile_twice(prev: Seq<BindingView>, items: Seq<ItemView>, next: int)
    requires
        bindings_wf(prev, next),
        distinct(item_keys(items)),
        0 <= next,
        next + items.len() <= u64::MAX,
    ensures
        ({
            let w = walk(prev, items, next);
            &&& plan(w.bindings, items, w.next) == Seq::<MutationView>::empty()
            &&& walk(w.bindings, items, w.next).bindings == w.bindings
            &&& walk(w.bindings, items, w.next).next == w.next
        }),
{
    lemma_walk(prev, items, next);
    let w = walk(prev, items, next);
    assert(binding_keys(w.bindings).len() == w.bindings.len());
    assert forall|j: int| 0 <= j < w.bindings.len() implies (#[trigger] w.bindings[j]).key
        == items[j].key && w.bindings[j].payload == items[j].payload by {
        assert(binding_keys(w.bindings)[j] == item_keys(items)[j]);
    }
    lemma_in_sync_is_noop(w.bindings, items, w.next);
}

/// `s` with every occurrence of `x` taken out.
pub open spec fn without(s: Seq<u64>, x: u64) -> Seq<u64>
    decreases s.len(),
{
    if s.len() == 0 {
        s
    } else if s.last() == x {
        without(s.drop_last(), x)
    } else {
        without(s.drop_last(), x).push(s.last())
    }
}

/// The children of the content node after one mutation: a spawn appends, a
/// despawn takes the node out, a reorder sets the order, an update leaves it.
pub open spec fn apply_mutation(children: Seq<u64>, m: MutationView) -> Seq<u64> {
    match m {
        MutationView::Spawn { node, .. } => children.push(node),
        MutationView::Update { .. } => children,
        MutationView::Despawn { node } => without(children, node),
        MutationView::Reorder { order } => order,
    }
}

/// The children after the mutations, applied in order.
pub open spec fn apply_all(children: Seq<u64>, ms: Seq<MutationView>) -> Seq<u64>
    decreases ms.len(),
{
    if ms.len() == 0 {
        children
    } else {
        apply_mutation(apply_all(children, ms.drop_last()), ms.last())
    }
}

proof fn lemma_without_absent(s: Seq<u64>, x: u64)
    requires
        !s.contains(x),
    ensures
        without(s, x) == s,
    decreases s.len(),
{
    if s.len() > 0 {
        assert(!s.drop_last().contains(x)) by {
            if s.drop_last().contains(x) {
                let k = choose|k: int| 0 <= k < s.drop_last().len() && s.drop_last()[k] == x;
                assert(s[k] == x);
            }
        }
        lemma_without_absent(s.drop_last(), x);
        assert(s.last() != x);
        assert(s.drop_last().push(s.last()) =~= s);
    }
}

proof fn lemma_without_add(a: Seq<u64>, b: Seq<u64>, x: u64)
    ensures
        without(a + b, x) == without(a, x) + without(b, x),
    decreases b.len(),
{
    if b.len() == 0 {
        assert(a + b =~= a);
        assert(without(a, x) + without(b, x) =~= without(a, x));
    } else {
        lemma_without_add(a, b.drop_last(), x);
        assert((a + b).drop_last() =~= a + b.drop_last());
        assert((a + b).last() == b.last());
        if b.last() != x {
            assert(without(a, x) + without(b.drop_last(), x).push(b.last()) =~= (without(a, x)
                + without(b.drop_last(), x)).push(b.last()));
        }
    }
}

proof fn lemma_apply_all_add(c: Seq<u64>, a: Seq<MutationView>, b: Seq<MutationView>)
    ensures
        apply_all(c, a + b) == apply_all(apply_all(c, a), b),
    decreases b.len(),
{
    if b.len() == 0 {
        assert(a + b =~= a);
    } else {
        lemma_apply_all_add(c, a, b.drop_last());
        assert((a + b).drop_last() =~= a + b.drop_last());
        assert((a + b).last() == b.last());
    }
}

proof fn lemma_apply_walk(prev: Seq<BindingView>, items: Seq<ItemView>, next: int, c: Seq<u64>)
    ensures
        apply_all(c, walk(prev, items, next).mutations) == c + walk(prev, items, next).spawned,
    decreases items.len(),
{
    let w = walk(prev, items, next);
    if items.len() == 0 {
        assert(c + w.spawned =~= c);
    } else {
        let r = walk(prev, items.drop_last(), next);
        lemma_apply_walk(prev, items.drop_last(), next, c);
        let i = index_of(prev, items.last().key);
        if i >= 0 {
            if prev[i].payload != items.last().payload {
                let m = MutationView::Update { node: prev[i].node, payload: items.last().payload };
                assert(r.mutations.push(m).drop_last() =~= r.mutations);
            }
        } else {
            let node = r.next as u64;
            let m = MutationView::Spawn { node, key: items.last().key, payload: items.last().payload };
            assert(r.mutations.push(m).drop_last() =~= r.mutations);
            assert(c + r.spawned.push(node) =~= (c + r.spawned).push(node));
        }
    }
}

proof fn lemma_kept_from_prev(prev: Seq<BindingView>, items: Seq<ItemView>, x: u64)
    requires
        kept(prev, items).contains(x),
    ensures
        binding_nodes(prev).contains(x),
    decreases prev.len(),
{
    let init = prev.drop_last();
    let k = choose|k: int| 0 <= k < kept(prev, items).len() && kept(prev, items)[k] == x;
    if x == prev.last().node {
        assert(binding_nodes(prev)[prev.len() - 1] == x);
    } else {
        if item_keys(items).contains(prev.last().key) {
            assert(kept(init, items)[k] == x);
        }
        assert(kept(init, items).contains(x));
        lemma_kept_from_prev(init, items, x);
        let j = choose|j: int| 0 <= j < binding_nodes(init).len() && binding_nodes(init)[j] == x;
        assert(binding_nodes(prev)[j] == x);
    }
}

proof fn lemma_despawn_removed(prev: Seq<BindingView>, items: Seq<ItemView>, rest: Seq<u64>)
    requires
        distinct(binding_nodes(prev)),
        forall|k: int| 0 <= k < rest.len() ==> !binding_nodes(prev).contains(#[trigger] rest[k]),
    ensures
        apply_all(binding_nodes(prev) + rest, despawns(removed(prev, items))) == kept(prev, items)
            + rest,
    decreases prev.len(),
{
    if prev.len() == 0 {
        assert(binding_nodes(prev) + rest =~= rest);
        assert(despawns(removed(prev, items)) =~= Seq::<MutationView>::empty());
        assert(kept(prev, items) + rest =~= rest);
    } else {
        let init = prev.drop_last();
        let n = prev.last().node;
        let rest2 = seq![n] + rest;
        assert(binding_nodes(init) + rest2 =~= binding_nodes(prev) + rest);
        assert(distinct(binding_nodes(init))) by {
            assert forall|a: int, b: int| 0 <= a < b < binding_nodes(init).len() implies binding_nodes(
                init,
            )[a] != binding_nodes(init)[b] by {
                assert(binding_nodes(init)[a] == binding_nodes(prev)[a]);
                assert(binding_nodes(init)[b] == binding_nodes(prev)[b]);
            }
        }
        assert(!binding_nodes(init).contains(n)) by {
            if binding_nodes(init).contains(n) {
                let j = choose|j: int| 0 <= j < binding_nodes(init).len() && binding_nodes(init)[j] == n;
                assert(binding_nodes(prev)[j] == binding_nodes(prev)[prev.len() - 1]);
            }
        }
        assert forall|k: int| 0 <= k < rest2.len() implies !binding_nodes(init).contains(#[trigger] rest2[k]) by {
            if k > 0 {
                assert(rest2[k] == rest[k - 1]);
                if binding_nodes(init).contains(rest2[k]) {
                    let j = choose|j: int|
                        0 <= j < binding_nodes(init).len() && binding_nodes(init)[j] == rest2[k];
                    assert(binding_nodes(prev)[j] == rest2[k]);
                }
            }
        }
        lemma_despawn_removed(init, items, rest2);
        if item_keys(items).contains(prev.last().key) {
            assert(kept(init, items) + rest2 =~= kept(prev, items) + rest);
        } else {
            let d = despawns(removed(init, items));
            assert(despawns(removed(prev, items)) =~= d.push(MutationView::Despawn { node: n }));
            assert(d.push(MutationView::Despawn { node: n }).drop_last() =~= d);
            let ki = kept(init, items);
            lemma_without_add(ki, rest2, n);
            lemma_without_add(seq![n], rest, n);
            assert(!ki.contains(n)) by {
                if ki.contains(n) {
                    lemma_kept_from_prev(init, items, n);
                }
            }
            lemma_without_absent(ki, n);
            assert(!rest.contains(n)) by {
                if rest.contains(n) {
                    let k = choose|k: int| 0 <= k < rest.len() && rest[k] == n;
                    assert(binding_nodes(prev)[prev.len() - 1] == n);
                    assert(!binding_nodes(prev).contains(rest[k]));
                }
            }
            lemma_without_absent(rest, n);
            assert(seq![n].drop_last() =~= Seq::<u64>::empty());
            assert(seq![n].last() == n);
            assert(without(Seq::<u64>::empty(), n) == Seq::<u64>::empty());
            assert(without(seq![n], n) == without(seq![n].drop_last(), n));
            assert(without(seq![n], n) =~= Seq::<u64>::empty());
            assert(Seq::<u64>::empty() + rest =~= rest);
        }
    }
}

/// Order preservation: applying a pass's mutations to the children it started
/// from leaves the content node's children in the items' order, and the new
/// bindings carry the items' keys in that same order.
pub proof fn lemma_children_follow_items(prev: Seq<BindingView>, items: Seq<ItemView>, next: int)
    requires
        bindings_wf(prev, next),
        distinct(item_keys(items)),
        0 <= next,
        next + items.len() <= u64::MAX,
    ensures
        apply_all(binding_nodes(prev), plan(prev, items, next)) == binding_nodes(
            walk(prev, items, next).bindings,
        ),
        binding_keys(walk(prev, items, next).bindings) == item_keys(items),
{
    lemma_walk(prev, items, next);
    let w = walk(prev, items, next);
    let p = binding_nodes(prev);
    let d = despawns(removed(prev, items));
    let current = kept(prev, items) + w.spawned;
    let target = binding_nodes(w.bindings);
    lemma_apply_all_add(p, w.mutations, d);
    lemma_apply_walk(prev, items, next, p);
    assert forall|k: int| 0 <= k < w.spawned.len() implies !p.contains(#[trigger] w.spawned[k]) by {
        if p.contains(w.spawned[k]) {
            let j = choose|j: int| 0 <= j < p.len() && p[j] == w.spawned[k];
            assert(prev[j].node < next);
        }
    }
    lemma_despawn_removed(prev, items, w.spawned);
    if current != target {
        let m = MutationView::Reorder { order: target };
        assert((w.mutations + d + seq![m]).drop_last() =~= w.mutations + d);
        assert((w.mutations + d + seq![m]).last() == m);
    }
}

/// A list of items bound to scene nodes, with its scroll offset.
pub struct FormListComponent {
    id: u128,
    position: i64,
    bindings: Vec<ChildBinding>,
    next_node: u64,
    scroll_only_when_hovered: bool,
}

impl FormListComponent {
    pub closed spec fn spec_bindings(&self) -> Seq<BindingView> {
        binding_views(self.bindings@)
    }

    pub closed spec fn spec_next_node(&self) -> int {
        self.next_node as int
    }

    pub closed spec fn spec_position(&self) -> int {
        self.position as int
    }

    pub closed spec fn spec_id(&self) -> u128 {
        self.id
    }

    pub closed spec fn spec_only_when_hovered(&self) -> bool {
        self.scroll_only_when_hovered
    }

    /// Keys and nodes of the bindings are distinct, every node is numbered
    /// below the next free number, and the offset is never positive.
    pub open spec fn wf(&self) -> bool {
        &&& bindings_wf(self.spec_bindings(), self.spec_next_node())
        &&& 0 <= self.spec_next_node() <= u64::MAX
        &&& self.spec_position() <= 0
    }

    /// The keys of the children, in child order.
    pub open spec fn child_keys(&self) -> Seq<Seq<char>> {
        binding_keys(self.spec_bindings())
    }

    /// An empty list, scrolled to the top, identified by `id` (the caller
    /// draws it, typically at random). Wheel events reach it only while the
    /// pointer is over it.
    pub fn new(id: u128) -> (l: FormListComponent)
        ensures
            l.wf(),
            l.spec_id() == id,
            l.spec_bindings() == Seq::<BindingView>::empty(),
            l.spec_next_node() == 0,
            l.spec_position() == 0,
            l.spec_only_when_hovered(),
    {
        let l = FormListComponent {
            id,
            position: 0,
            bindings: Vec::new(),
            next_node: 0,
            scroll_only_when_hovered: true,
        };
        assert(binding_views(l.bindings@) =~= Seq::<BindingView>::empty());
        l
    }

    /// Reconciles the children with `items`. With a repeated key nothing
    /// changes and the first repeated key is returned. Otherwise the bindings
    /// follow the items in order, and the returned mutations are `plan(...)`:
    /// the only changes the scene needs.
    pub fn set_items(&mut self, items: &Vec<ItemDescriptor>) -> (r: Result<
        Vec<Mutation>,
        DuplicateKeyError,
    >)
        requires
            old(self).wf(),
            distinct(item_keys(item_views(items@))) ==> old(self).spec_next_node() + items.len()
                <= u64::MAX,
        ensures
            final(self).wf(),
            final(self).spec_position() == old(self).spec_position(),
            final(self).spec_only_when_hovered() == old(self).spec_only_when_hovered(),
            final(self).spec_id() == old(self).spec_id(),
            r is Ok <==> distinct(item_keys(item_views(items@))),
            r matches Err(e) ==> {
                &&& final(self).spec_bindings() == old(self).spec_bindings()
                &&& final(self).spec_next_node() == old(self).spec_next_node()
                &&& exists|j: int|
                    first_repeat(item_keys(item_views(items@)), j) && #[trigger] items@[j].key@
                        == e.key@
            },
            r matches Ok(ms) ==> {
                let w = walk(old(self).spec_bindings(), item_views(items@), old(self).spec_next_node());
                &&& mutation_views(ms@) == plan(
                    old(self).spec_bindings(),
                    item_views(items@),
                    old(self).spec_next_node(),
                )
                &&& final(self).spec_bindings() == w.bindings
                &&& final(self).spec_next_node() == w.next
                &&& final(self).child_keys() == item_keys(item_views(items@))
                &&& apply_all(binding_nodes(old(self).spec_bindings()), mutation_views(ms@))
                    == binding_nodes(final(self).spec_bindings())
            },
            in_sync(old(self).spec_bindings(), item_views(items@)) ==> (r matches Ok(ms) && ms@.len()
                == 0 && final(self).spec_bindings() == old(self).spec_bindings()),
    {
        proof {
            let bs = binding_views(self.bindings@);
            let iv = item_views(items@);
            if in_sync(bs, iv) {
                assert(item_keys(iv) =~= binding_keys(bs));
            }
        }
        if let Some(j) = find_duplicate(items) {
            return Err(DuplicateKeyError { key: items[j].key.clone() });
        }
        let ghost prev = binding_views(self.bindings@);
        let ghost iv = item_views(items@);
        let ghost next0 = self.next_node as int;
        proof {
            lemma_walk(prev, iv, next0);
            lemma_children_follow_items(prev, iv, next0);
            if in_sync(prev, iv) {
                lemma_in_sync_is_noop(prev, iv, next0);
            }
        }
        let mut fresh: Vec<ChildBinding> = Vec::new();
        let mut ms: Vec<Mutation> = Vec::new();
        let mut spawned: Vec<u64> = Vec::new();
        let mut next = self.next_node;
        let mut i: usize = 0;
        while i < items.len()
            invariant
                i <= items.len(),
                prev == binding_views(self.bindings@),
                iv == item_views(items@),
                next0 == self.next_node,
                bindings_wf(prev, next0),
                distinct(item_keys(iv)),
                next0 + items.len() <= u64::MAX,
                binding_views(fresh@) == walk(prev, iv.take(i as int), next0).bindings,
                mutation_views(ms@) == walk(prev, iv.take(i as int), next0).mutations,
                spawned@ == walk(prev, iv.take(i as int), next0).spawned,
                next == walk(prev, iv.take(i as int), next0).next,
            decreases items.len() - i,
        {
            proof {
                assert(iv.take(i as int + 1).drop_last() =~= iv.take(i as int));
                assert(distinct(item_keys(iv.take(i as int)))) by {
                    let ks = item_keys(iv.take(i as int));
                    assert forall|a: int, b: int| 0 <= a < b < ks.len() implies ks[a] != ks[b] by {
                        assert(ks[a] == item_keys(iv)[a] && ks[b] == item_keys(iv)[b]);
                    }
                }
                lemma_walk(prev, iv.take(i as int), next0);
            }
            let d = &items[i];
            match find_binding(&self.bindings, &d.key) {
                Some(k) => {
                    let node = self.bindings[k].node;
                    if self.bindings[k].payload != d.payload {
                        ms.push(Mutation::Update { node, payload: d.payload.clone() });
                    }
                    fresh.push(ChildBinding { key: d.key.clone(), node, payload: d.payload.clone() });
                },
                None => {
                    ms.push(Mutation::Spawn { node: next, key: d.key.clone(), payload: d.payload.clone() });
                    fresh.push(ChildBinding { key: d.key.clone(), node: next, payload: d.payload.clone() });
                    spawned.push(next);
                    next = next + 1;
                },
            }
            i = i + 1;
            assert(binding_views(fresh@) =~= walk(prev, iv.take(i as int), next0).bindings);
            assert(mutation_views(ms@) =~= walk(prev, iv.take(i as int), next0).mutations);
        }
        assert(iv.take(i as int) =~= iv);
        let ghost w = walk(prev, iv, next0);
        let mut current: Vec<u64> = Vec::new();
        let mut j: usize = 0;
        while j < self.bindings.len()
            invariant
                j <= self.bindings.len(),
                prev == binding_views(self.bindings@),
                iv == item_views(items@),
                current@ == kept(prev.take(j as int), iv),
                mutation_views(ms@) == w.mutations + despawns(removed(prev.take(j as int), iv)),
            decreases self.bindings.len() - j,
        {
            assert(prev.take(j as int + 1).drop_last() =~= prev.take(j as int));
            let node = self.bindings[j].node;
            if has_key(items, &self.bindings[j].key) {
                current.push(node);
            } else {
                let ghost before = removed(prev.take(j as int), iv);
                assert(despawns(before.push(node)) =~= despawns(before).push(
                    MutationView::Despawn { node },
                ));
                assert(w.mutations + despawns(before).push(MutationView::Despawn { node }) =~= (
                w.mutations + despawns(before)).push(MutationView::Despawn { node }));
                ms.push(Mutation::Despawn { node });
            }
            j = j + 1;
            assert(mutation_views(ms@) =~= w.mutations + despawns(removed(prev.take(j as int), iv)));
        }
        assert(prev.take(j as int) =~= prev);
        current.append(&mut spawned);
        let target = nodes_of(&fresh);
        if !same_nodes(&current, &target) {
            ms.push(Mutation::Reorder { order: target });
            assert(mutation_views(ms@) =~= plan(prev, iv, next0));
        } else {
            assert(mutation_views(ms@) =~= plan(prev, iv, next0));
        }
        self.bindings = fresh;
        self.next_node = next;
        assert(mutation_views(ms@).len() == ms@.len());
        Ok(ms)
    }

    pub fn id(&self) -> (id: u128)
        ensures
            id == self.spec_id(),
    {
        self.id
    }

    /// The scroll offset in `1 / SUBPIXELS` pixel: 0 at the top, negative once
    /// scrolled down.
    pub fn scroll_position(&self) -> (p: i64)
        ensures
            p == self.spec_position(),
    {
        self.position
    }

    pub fn bindings(&self) -> (bs: &Vec<ChildBinding>)
        ensures
            binding_views(bs@) == self.spec_bindings(),
    {
        &self.bindings
    }

    /// The number that the next spawned node gets.
    pub fn next_node(&self) -> (n: u64)
        ensures
            n == self.spec_next_node(),
    {
        self.next_node
    }

    /// Chooses whether wheel events are ignored while the pointer is not over
    /// the list.
    pub fn set_scroll_only_when_hovered(&mut self, on: bool)
        ensures
            final(self).spec_only_when_hovered() == on,
            final(self).spec_bindings() == old(self).spec_bindings(),
            final(self).spec_next_node() == old(self).spec_next_node(),
            final(self).spec_position() == old(self).spec_position(),
            final(self).spec_id() == old(self).spec_id(),
            old(self).wf() ==> final(self).wf(),
    {
        self.scroll_only_when_hovered = on;
    }

    /// Applies this tick's wheel events and returns the new offset, in
    /// `1 / SUBPIXELS` pixel, clamped to
    /// `[-SUBPIXELS * max_scroll(content_height, viewport_height), 0]`.
    pub fn scroll(
        &mut self,
        content_height: u32,
        viewport_height: u32,
        events: &Vec<WheelEvent>,
        interaction: InteractionState,
    ) -> (p: i64)
        ensures
            p == final(self).spec_position(),
            final(self).spec_position() == next_offset(
                old(self).spec_position(),
                content_height as int,
                viewport_height as int,
                events@,
                interaction,
                old(self).spec_only_when_hovered(),
            ),
            final(self).spec_bindings() == old(self).spec_bindings(),
            final(self).spec_next_node() == old(self).spec_next_node(),
            final(self).spec_only_when_hovered() == old(self).spec_only_when_hovered(),
            final(self).spec_id() == old(self).spec_id(),
            old(self).wf() ==> final(self).wf(),
    {
        let p = scroll_offset(
            self.position,
            content_height,
            viewport_height,
            events,
            interaction,
            self.scroll_only_when_hovered,
        );
        self.position = p;
        p
    }
}

} // verus!
