//! The collision cache: discovers collidable nodes under a root, captures
//! their attributes keyed by structural path, and applies bulk
//! enable/disable of collision response against that cache.

use vstd::prelude::*;

use crate::path::NodePath;
use crate::tree::agent_set;
use crate::tree::all_cached;
use crate::tree::collidable;
use crate::tree::lemma_live_map_keys;
use crate::tree::lemma_forest_live_map_dom;
use crate::tree::lemma_restored_forest;
use crate::tree::lemma_resolve_wf;
use crate::tree::resolve;
use crate::tree::resolve_in;
use crate::tree::model;
use crate::tree::restored;
use crate::tree::restored_forest;
use crate::tree::zero_at_node;
use crate::tree::zero_node;
use crate::tree::zeroed;
use crate::tree::zeroed_at;
use crate::tree::forest_agent_set;
use crate::tree::forest_live_map;
use crate::tree::forest_model;
use crate::tree::lemma_forest_live_map_keys;
use crate::tree::lemma_forest_model;
use crate::tree::lemma_sibling_disjoint;
use crate::tree::lemma_union_assoc;
use crate::tree::live_map;
use crate::tree::wf_model;
use crate::tree::Attrs;
use crate::tree::NodeKind;
use crate::tree::PathKey;
use crate::tree::SceneNode;

verus! {

/// How an omitted mode argument is read: an absent value means "only cache
/// what is new".
pub open spec fn only_new(o: Option<bool>) -> bool {
    match o {
        Some(v) => v,
        None => true,
    }
}

/// The conventional structural path of the spawn-point child.
pub open spec fn spawn_path() -> PathKey {
    seq!["main"@, "spawn"@]
}

/// The failures the cache can surface. All are programmer/usage errors of
/// the surrounding call sequence, not transient faults.
pub enum FloorError {
    /// An enabling pass met a collidable with no cache entry: the node was
    /// added after the last caching pass. The payload is its path.
    MissingCacheEntry(NodePath),
    /// A path carried by a change notification does not resolve to a node.
    UnresolvedReference,
    /// The conventional spawn-point child is absent under the root.
    MissingConventionalChild,
}

struct CacheEntry {
    path: NodePath,
    attrs: Attrs,
}

/// The attribute cache plus the agent registry and the enabled flag. The
/// scene tree itself is owned elsewhere; operations borrow it.
pub struct Floor {
    is_enabled: bool,
    cache: Vec<CacheEntry>,
    agents: Vec<NodePath>,
}

spec fn entries_map(s: Seq<CacheEntry>) -> Map<PathKey, Attrs>
    decreases s.len(),
{
    if s.len() == 0 {
        Map::empty()
    } else {
        entries_map(s.drop_last()).insert(s.last().path@, s.last().attrs)
    }
}

spec fn entry_keys_distinct(s: Seq<CacheEntry>) -> bool {
    forall|i: int, j: int| 0 <= i < j < s.len() ==> s[i].path@ != s[j].path@
}

spec fn paths_set(s: Seq<NodePath>) -> Set<PathKey>
    decreases s.len(),
{
    if s.len() == 0 {
        Set::empty()
    } else {
        paths_set(s.drop_last()).insert(s.last()@)
    }
}

spec fn agent_paths_distinct(s: Seq<NodePath>) -> bool {
    forall|i: int, j: int| 0 <= i < j < s.len() ==> s[i]@ != s[j]@
}

proof fn lemma_entries_map(s: Seq<CacheEntry>)
    ensures
        forall|k: PathKey| #[trigger]
            entries_map(s).contains_key(k) <==> exists|i: int|
                0 <= i < s.len() && s[i].path@ == k,
        entry_keys_distinct(s) ==> forall|i: int|
            0 <= i < s.len() ==> entries_map(s).contains_key(#[trigger] s[i].path@)
                && entries_map(s)[s[i].path@] == s[i].attrs,
    decreases s.len(),
{
    if s.len() > 0 {
        lemma_entries_map(s.drop_last());
        assert forall|k: PathKey| #[trigger]
            entries_map(s).contains_key(k) implies exists|i: int|
            0 <= i < s.len() && s[i].path@ == k by {
            if k == s.last().path@ {
                assert(s[s.len() - 1].path@ == k);
            } else {
                assert(entries_map(s.drop_last()).contains_key(k));
                let i = choose|i: int| 0 <= i < s.drop_last().len() && s.drop_last()[i].path@ == k;
                assert(s[i].path@ == k);
            }
        }
        assert forall|i: int| 0 <= i < s.len() implies #[trigger] entries_map(s).contains_key(
            s[i].path@,
        ) by {
            if i < s.len() - 1 {
                assert(s.drop_last()[i].path@ == s[i].path@);
                assert(entries_map(s.drop_last()).contains_key(s[i].path@));
            }
        }
        if entry_keys_distinct(s) {
            assert(entry_keys_distinct(s.drop_last()));
            assert forall|i: int|
                0 <= i < s.len() implies entries_map(s).contains_key(#[trigger] s[i].path@)
                && entries_map(s)[s[i].path@] == s[i].attrs by {
                if i < s.len() - 1 {
                    assert(s.drop_last()[i] == s[i]);
                    assert(entries_map(s.drop_last()).contains_key(s[i].path@));
                    assert(s[i].path@ != s.last().path@);
                }
            }
        }
    }
}

proof fn lemma_entries_map_update(s: Seq<CacheEntry>, i: int, e: CacheEntry)
    requires
        entry_keys_distinct(s),
        0 <= i < s.len(),
        s[i].path@ == e.path@,
    ensures
        entries_map(s.update(i, e)) == entries_map(s).insert(e.path@, e.attrs),
    decreases s.len(),
{
    let t = s.update(i, e);
    if i == s.len() - 1 {
        assert(t.drop_last() =~= s.drop_last());
        assert(t.last() == e);
        assert(entries_map(t) == entries_map(s.drop_last()).insert(e.path@, e.attrs));
        assert(entries_map(s).insert(e.path@, e.attrs) =~= entries_map(s.drop_last()).insert(
            e.path@,
            e.attrs,
        ));
    } else {
        assert(t.drop_last() =~= s.drop_last().update(i, e));
        assert(t.last() == s.last());
        assert(entry_keys_distinct(s.drop_last()));
        assert(s.drop_last()[i] == s[i]);
        lemma_entries_map_update(s.drop_last(), i, e);
        assert(s[i].path@ != s.last().path@);
        assert(entries_map(s.drop_last()).insert(e.path@, e.attrs).insert(
            s.last().path@,
            s.last().attrs,
        ) =~= entries_map(s.drop_last()).insert(s.last().path@, s.last().attrs).insert(
            e.path@,
            e.attrs,
        ));
    }
}

proof fn lemma_paths_set(s: Seq<NodePath>)
    ensures
        forall|k: PathKey| #[trigger]
            paths_set(s).contains(k) <==> exists|i: int| 0 <= i < s.len() && s[i]@ == k,
    decreases s.len(),
{
    if s.len() > 0 {
        lemma_paths_set(s.drop_last());
        assert forall|k: PathKey| #[trigger]
            paths_set(s).contains(k) implies exists|i: int| 0 <= i < s.len() && s[i]@ == k by {
            if k == s.last()@ {
                assert(s[s.len() - 1]@ == k);
            } else {
                assert(paths_set(s.drop_last()).contains(k));
                let i = choose|i: int| 0 <= i < s.drop_last().len() && s.drop_last()[i]@ == k;
                assert(s[i]@ == k);
            }
        }
        assert forall|i: int| 0 <= i < s.len() implies #[trigger] paths_set(s).contains(
            s[i]@,
        ) by {
            if i < s.len() - 1 {
                assert(s.drop_last()[i]@ == s[i]@);
                assert(paths_set(s.drop_last()).contains(s[i]@));
            }
        }
    }
}

impl Floor {
    /// The cached attributes, keyed by structural path.
    pub closed spec fn cache_map(&self) -> Map<PathKey, Attrs> {
        entries_map(self.cache@)
    }

    /// The registered agents' structural paths.
    pub closed spec fn agent_paths(&self) -> Set<PathKey> {
        paths_set(self.agents@)
    }

    /// The enabled/disabled state. Initially enabled.
    pub closed spec fn enabled(&self) -> bool {
        self.is_enabled
    }

    /// Internal well-formedness: cache keys and registry entries distinct.
    pub closed spec fn wf(&self) -> bool {
        entry_keys_distinct(self.cache@) && agent_paths_distinct(self.agents@)
    }

    pub fn new() -> (f: Floor)
        ensures
            f.wf(),
            f.enabled(),
            f.cache_map() == Map::<PathKey, Attrs>::empty(),
            f.agent_paths() == Set::<PathKey>::empty(),
    {
        Floor { is_enabled: true, cache: Vec::new(), agents: Vec::new() }
    }

    pub fn is_enabled(&self) -> (r: bool)
        ensures
            r == self.enabled(),
    {
        self.is_enabled
    }

    fn find_entry(&self, path: &NodePath) -> (r: Option<usize>)
        requires
            self.wf(),
        ensures
            r matches Some(i) ==> i < self.cache@.len() && self.cache@[i as int].path@ == path@
                && self.cache_map().contains_key(path@) && self.cache_map()[path@]
                == self.cache@[i as int].attrs,
            r is None ==> !self.cache_map().contains_key(path@),
    {
        proof {
            lemma_entries_map(self.cache@);
        }
        let n = self.cache.len();
        let mut i: usize = 0;
        while i < n
            invariant
                0 <= i <= n,
                n == self.cache@.len(),
                self.wf(),
                forall|j: int| 0 <= j < i ==> self.cache@[j].path@ != path@,
            decreases n - i,
        {
            if self.cache[i].path.same_as(path) {
                proof {
                    lemma_entries_map(self.cache@);
                }
                return Some(i);
            }
            i += 1;
        }
        proof {
            lemma_entries_map(self.cache@);
            if self.cache_map().contains_key(path@) {
                let j = choose|j: int| 0 <= j < self.cache@.len() && self.cache@[j].path@ == path@;
                assert(false);
            }
        }
        None
    }

    /// The cache entry for a path, if one was captured.
    pub fn cached_attrs(&self, path: &NodePath) -> (r: Option<Attrs>)
        requires
            self.wf(),
        ensures
            self.cache_map().contains_key(path@) ==> r == Some(self.cache_map()[path@]),
            !self.cache_map().contains_key(path@) ==> r is None,
    {
        match self.find_entry(path) {
            Some(i) => Some(self.cache[i].attrs),
            None => None,
        }
    }

    /// Captures (or overwrites) the attributes cached for a path.
    fn store(&mut self, path: NodePath, attrs: Attrs)
        requires
            old(self).wf(),
        ensures
            final(self).wf(),
            final(self).cache_map() == old(self).cache_map().insert(path@, attrs),
            final(self).agent_paths() == old(self).agent_paths(),
            final(self).enabled() == old(self).enabled(),
    {
        match self.find_entry(&path) {
            Some(i) => {
                proof {
                    lemma_entries_map_update(
                        self.cache@,
                        i as int,
                        CacheEntry { path, attrs },
                    );
                }
                self.cache[i] = CacheEntry { path, attrs };
                proof {
                    assert forall|a: int, b: int|
                        0 <= a < b < self.cache@.len() implies self.cache@[a].path@
                        != self.cache@[b].path@ by {
                        assert(old(self).cache@[a].path@ != old(self).cache@[b].path@);
                    }
                }
            },
            None => {
                proof {
                    lemma_entries_map(self.cache@);
                    assert(self.cache@.push(CacheEntry { path, attrs }).drop_last() =~= self.cache@);
                }
                self.cache.push(CacheEntry { path, attrs });
                proof {
                    assert forall|a: int, b: int|
                        0 <= a < b < self.cache@.len() implies self.cache@[a].path@
                        != self.cache@[b].path@ by {
                        if b < self.cache@.len() - 1 {
                            assert(old(self).cache@[a].path@ != old(self).cache@[b].path@);
                        } else {
                            assert(old(self).cache@[a].path@ == self.cache@[a].path@);
                        }
                    }
                }
            },
        }
    }

    /// Records a discovered agent; a second registration of the same path
    /// leaves the registry as it stands.
    fn register_agent(&mut self, path: NodePath)
        requires
            old(self).wf(),
        ensures
            final(self).wf(),
            final(self).agent_paths() == old(self).agent_paths().insert(path@),
            final(self).cache_map() == old(self).cache_map(),
            final(self).enabled() == old(self).enabled(),
    {
        proof {
            lemma_paths_set(self.agents@);
        }
        let n = self.agents.len();
        let mut i: usize = 0;
        while i < n
            invariant
                0 <= i <= n,
                n == self.agents@.len(),
                self.wf(),
                forall|j: int| 0 <= j < i ==> self.agents@[j]@ != path@,
            decreases n - i,
        {
            if self.agents[i].same_as(&path) {
                proof {
                    lemma_paths_set(self.agents@);
                    assert(self.agents@[i as int]@ == path@);
                    assert(paths_set(self.agents@).contains(path@));
                    assert(paths_set(self.agents@).insert(path@) =~= paths_set(self.agents@));
                }
                return ;
            }
            i += 1;
        }
        proof {
            lemma_paths_set(self.agents@);
            assert(self.agents@.push(path).drop_last() =~= self.agents@);
            if paths_set(self.agents@).contains(path@) {
                let j = choose|j: int| 0 <= j < self.agents@.len() && self.agents@[j]@ == path@;
                assert(false);
            }
        }
        self.agents.push(path);
        proof {
            assert forall|a: int, b: int|
                0 <= a < b < self.agents@.len() implies self.agents@[a]@ != self.agents@[b]@ by {
                if b < self.agents@.len() - 1 {
                    assert(old(self).agents@[a]@ != old(self).agents@[b]@);
                } else {
                    assert(old(self).agents@[a]@ == self.agents@[a]@);
                }
            }
        }
    }

    /// Walks the subtree at `node` (whose path relative to the root is
    /// `node_path`), capturing every collidable's attributes into the cache
    /// and recording every change agent. With `only_cache_new` true (the
    /// default), collidables already cached are left untouched; with it
    /// false, every collidable found is overwritten.
    pub fn cache_collision(
        &mut self,
        node: &SceneNode,
        node_path: &NodePath,
        only_cache_new: Option<bool>,
    )
        requires
            old(self).wf(),
            wf_model(node@),
        ensures
            final(self).wf(),
            final(self).enabled() == old(self).enabled(),
            only_new(only_cache_new) ==> final(self).cache_map() == live_map(
                node@,
                node_path@,
            ).union_prefer_right(old(self).cache_map()),
            !only_new(only_cache_new) ==> final(self).cache_map() == old(
                self,
            ).cache_map().union_prefer_right(live_map(node@, node_path@)),
            final(self).agent_paths() == old(self).agent_paths().union(
                agent_set(node@, node_path@),
            ),
        decreases *node,
    {
        let ghost pre = node_path@;
        let ghost m = node@;
        let ghost old_cache = self.cache_map();
        let ghost old_agents = self.agent_paths();
        let ocn = match only_cache_new {
            Some(v) => v,
            None => true,
        };
        let is_coll = matches!(node.kind, NodeKind::RigidCollidable | NodeKind::TileGridCollidable);
        if is_coll {
            let present = self.find_entry(node_path).is_some();
            if !ocn || !present {
                self.store(node_path.duplicate(), node.attrs);
            }
        } else if matches!(node.kind, NodeKind::ChangeAgent) {
            self.register_agent(node_path.duplicate());
        }
        let ghost base = self.cache_map();
        let ghost base_agents = self.agent_paths();
        let ghost cm = m.children;
        proof {
            lemma_forest_model(node.children@);
            assert(cm.take(0) =~= Seq::<crate::tree::NodeModel>::empty());
            assert(forest_live_map(cm.take(0), pre).union_prefer_right(base) =~= base);
            assert(base.union_prefer_right(forest_live_map(cm.take(0), pre)) =~= base);
            assert(base_agents.union(forest_agent_set(cm.take(0), pre)) =~= base_agents);
        }
        let n = node.children.len();
        let mut i: usize = 0;
        while i < n
            invariant
                0 <= i <= n,
                n == node.children@.len(),
                self.wf(),
                self.enabled() == old(self).enabled(),
                wf_model(node@),
                m == node@,
                pre == node_path@,
                cm == m.children,
                cm == forest_model(node.children@),
                cm.len() == n,
                ocn == only_new(only_cache_new),
                ocn ==> self.cache_map() == forest_live_map(
                    cm.take(i as int),
                    pre,
                ).union_prefer_right(base),
                !ocn ==> self.cache_map() == base.union_prefer_right(
                    forest_live_map(cm.take(i as int), pre),
                ),
                self.agent_paths() == base_agents.union(forest_agent_set(cm.take(i as int), pre)),
            decreases n - i,
        {
            let child = &node.children[i];
            let cpath = node_path.child(&child.name);
            proof {
                lemma_forest_model(node.children@);
                assert(cm[i as int] == child@);
                assert(wf_model(m) ==> wf_model(m.children[i as int]));
                assert(cpath@ == pre.push(cm[i as int].name));
            }
            self.cache_collision(child, &cpath, only_cache_new);
            proof {
                let gi = i as int;
                let li = live_map(cm[gi], pre.push(cm[gi].name));
                let f = forest_live_map(cm.take(gi), pre);
                assert(cm.take(gi + 1).drop_last() =~= cm.take(gi));
                assert(cm.take(gi + 1).last() == cm[gi]);
                assert(forest_live_map(cm.take(gi + 1), pre) == f.union_prefer_right(li));
                if ocn {
                    lemma_sibling_disjoint(cm, pre, gi);
                    assert(li.union_prefer_right(f.union_prefer_right(base))
                        =~= f.union_prefer_right(li).union_prefer_right(base));
                } else {
                    lemma_union_assoc(base, f, li);
                }
                assert(forest_agent_set(cm.take(gi + 1), pre) == forest_agent_set(
                    cm.take(gi),
                    pre,
                ).union(agent_set(cm[gi], pre.push(cm[gi].name))));
                assert(self.agent_paths() =~= base_agents.union(
                    forest_agent_set(cm.take(gi + 1), pre),
                ));
            }
            i += 1;
        }
        proof {
            assert(cm.take(n as int) =~= cm);
            lemma_forest_live_map_keys(cm, pre);
            let f = forest_live_map(cm, pre);
            if crate::tree::collidable(m.kind) {
                assert(live_map(m, pre) == f.insert(pre, m.attrs));
                if only_new(only_cache_new) {
                    if old_cache.contains_key(pre) {
                        assert(base == old_cache);
                        assert(f.union_prefer_right(base) =~= live_map(m, pre).union_prefer_right(
                            old_cache,
                        ));
                    } else {
                        assert(base == old_cache.insert(pre, m.attrs));
                        assert(f.union_prefer_right(base) =~= live_map(m, pre).union_prefer_right(
                            old_cache,
                        ));
                    }
                } else {
                    assert(base == old_cache.insert(pre, m.attrs));
                    assert(base.union_prefer_right(f) =~= old_cache.union_prefer_right(
                        live_map(m, pre),
                    ));
                }
            } else {
                assert(live_map(m, pre) == f);
            }
            if m.kind == NodeKind::ChangeAgent {
                assert(agent_set(m, pre) == forest_agent_set(cm, pre).insert(pre));
                assert(base_agents.union(forest_agent_set(cm, pre)) =~= old_agents.union(
                    agent_set(m, pre),
                ));
            } else {
                assert(agent_set(m, pre) == forest_agent_set(cm, pre));
            }
        }
    }

    /// The first full caching pass from the root. The host runs it once
    /// when the subtree enters the scene, before any enable/disable call.
    pub fn initialize(&mut self, root: &SceneNode)
        requires
            old(self).wf(),
            wf_model(root@),
        ensures
            final(self).wf(),
            final(self).enabled() == old(self).enabled(),
            final(self).cache_map() == live_map(
                root@,
                Seq::<Seq<char>>::empty(),
            ).union_prefer_right(old(self).cache_map()),
            final(self).agent_paths() == old(self).agent_paths().union(
                agent_set(root@, Seq::<Seq<char>>::empty()),
            ),
    {
        let rp = NodePath::root();
        self.cache_collision(root, &rp, None);
    }

    /// Rebuilds one subtree's worth of live nodes from the cache. Fails on
    /// the first collidable found without a cache entry.
    fn _recursive_enable_collision(&self, node: &SceneNode, node_path: &NodePath) -> (r: Result<
        SceneNode,
        FloorError,
    >)
        requires
            self.wf(),
        ensures
            r matches Ok(n2) ==> n2@ == restored(node@, self.cache_map(), node_path@)
                && all_cached(node@, self.cache_map(), node_path@),
            r matches Err(e) ==> !all_cached(node@, self.cache_map(), node_path@) && (
            e matches FloorError::MissingCacheEntry(p) && live_map(node@, node_path@).contains_key(
                p@,
            ) && !self.cache_map().contains_key(p@)),
        decreases *node,
    {
        let ghost m = node@;
        let ghost pre = node_path@;
        let ghost cache = self.cache_map();
        let is_coll = matches!(node.kind, NodeKind::RigidCollidable | NodeKind::TileGridCollidable);
        let attrs: Attrs = if is_coll {
            match self.cached_attrs(node_path) {
                Some(a) => a,
                None => {
                    proof {
                        lemma_live_map_keys(m, pre);
                        assert(live_map(m, pre).contains_key(pre));
                        assert(!all_cached(m, cache, pre)) by {
                            assert(live_map(m, pre).dom().contains(pre));
                            assert(!cache.dom().contains(pre));
                        }
                    }
                    return Err(FloorError::MissingCacheEntry(node_path.duplicate()));
                },
            }
        } else {
            node.attrs
        };
        let ghost cm = m.children;
        proof {
            lemma_forest_model(node.children@);
        }
        let n = node.children.len();
        let mut cs: Vec<SceneNode> = Vec::new();
        let mut i: usize = 0;
        while i < n
            invariant
                0 <= i <= n,
                n == node.children@.len(),
                self.wf(),
                cache == self.cache_map(),
                m == node@,
                pre == node_path@,
                cm == m.children,
                cm == forest_model(node.children@),
                cm.len() == n,
                cs@.len() == i,
                forall|j: int|
                    0 <= j < i ==> #[trigger] cs@[j]@ == restored(
                        cm[j],
                        cache,
                        pre.push(cm[j].name),
                    ),
                forall|j: int|
                    0 <= j < i ==> all_cached(#[trigger] cm[j], cache, pre.push(cm[j].name)),
            decreases n - i,
        {
            let child = &node.children[i];
            let cpath = node_path.child(&child.name);
            proof {
                lemma_forest_model(node.children@);
                assert(cm[i as int] == child@);
                assert(cpath@ == pre.push(cm[i as int].name));
            }
            match self._recursive_enable_collision(child, &cpath) {
                Ok(c) => {
                    cs.push(c);
                },
                Err(e) => {
                    proof {
                        let gi = i as int;
                        lemma_forest_live_map_dom(cm, pre);
                        lemma_live_map_keys(m, pre);
                        match &e {
                            FloorError::MissingCacheEntry(p) => {
                                assert(live_map(cm[gi], pre.push(cm[gi].name)).contains_key(p@));
                                assert(forest_live_map(cm, pre).contains_key(p@));
                                assert(live_map(m, pre).contains_key(p@));
                                assert(!all_cached(m, cache, pre)) by {
                                    assert(live_map(m, pre).dom().contains(p@));
                                    assert(!cache.dom().contains(p@));
                                }
                            },
                            _ => {
                                assert(false);
                            },
                        }
                    }
                    return Err(e);
                },
            }
            i += 1;
        }
        let r = SceneNode { name: node.name.clone(), kind: node.kind, attrs, children: cs };
        proof {
            lemma_forest_model(r.children@);
            lemma_restored_forest(cm, cache, pre);
            assert forall|j: int| 0 <= j < cs@.len() implies model(cs@[j]) == restored(
                cm[j],
                cache,
                pre.push(cm[j].name),
            ) by {
                assert(cs@[j]@ == restored(cm[j], cache, pre.push(cm[j].name)));
            }
            assert(forest_model(r.children@) =~= restored_forest(cm, cache, pre));
            assert(r@ =~= restored(m, cache, pre));
            lemma_live_map_keys(m, pre);
            lemma_forest_live_map_dom(cm, pre);
            assert forall|k: PathKey| live_map(m, pre).dom().contains(
                k,
            ) implies cache.dom().contains(k) by {
                if k == pre {
                    assert(collidable(m.kind));
                } else {
                    assert(forest_live_map(cm, pre).contains_key(k));
                    let j = choose|j: int|
                        0 <= j < cm.len() && #[trigger] live_map(
                            cm[j],
                            pre.push(cm[j].name),
                        ).contains_key(k);
                    assert(all_cached(cm[j], cache, pre.push(cm[j].name)));
                    assert(live_map(cm[j], pre.push(cm[j].name)).dom().contains(k));
                }
            }
        }
        Ok(r)
    }

    /// Turns collision response back on: restores every collidable's live
    /// attributes from the cache, tree-wide. A collidable without a cache
    /// entry surfaces as `MissingCacheEntry` and leaves the tree as it
    /// stood; such a node was added after the last caching pass.
    pub fn enable_collision(&mut self, root: &mut SceneNode) -> (r: Result<(), FloorError>)
        requires
            old(self).wf(),
        ensures
            final(self).wf(),
            final(self).enabled(),
            final(self).cache_map() == old(self).cache_map(),
            final(self).agent_paths() == old(self).agent_paths(),
            r is Ok <==> all_cached(old(root)@, old(self).cache_map(), Seq::<Seq<char>>::empty()),
            r is Ok ==> final(root)@ == restored(
                old(root)@,
                old(self).cache_map(),
                Seq::<Seq<char>>::empty(),
            ),
            r matches Err(e) ==> *final(root) == *old(root) && (
            e matches FloorError::MissingCacheEntry(p) && live_map(
                old(root)@,
                Seq::<Seq<char>>::empty(),
            ).contains_key(p@) && !old(self).cache_map().contains_key(p@)),
    {
        self.is_enabled = true;
        let rp = NodePath::root();
        match self._recursive_enable_collision(&*root, &rp) {
            Ok(n2) => {
                *root = n2;
                Ok(())
            },
            Err(e) => Err(e),
        }
    }

    /// Turns collision response off tree-wide: re-caches anything new if
    /// the state was already disabled, then zeroes every collidable's live
    /// attributes, leaving the cache untouched for a later enable.
    pub fn disable_collision(&mut self, root: &mut SceneNode)
        requires
            old(self).wf(),
            wf_model(old(root)@),
        ensures
            final(self).wf(),
            !final(self).enabled(),
            final(root)@ == zeroed(old(root)@),
            old(self).enabled() ==> final(self).cache_map() == old(self).cache_map()
                && final(self).agent_paths() == old(self).agent_paths(),
            !old(self).enabled() ==> final(self).cache_map() == live_map(
                old(root)@,
                Seq::<Seq<char>>::empty(),
            ).union_prefer_right(old(self).cache_map())
                && final(self).agent_paths() == old(self).agent_paths().union(
                agent_set(old(root)@, Seq::<Seq<char>>::empty()),
            ),
    {
        if !self.is_enabled() {
            let rp = NodePath::root();
            self.cache_collision(&*root, &rp, Some(true));
        }
        self.is_enabled = false;
        self._recursive_disable_collision(root);
    }

    /// Zeroes the live attributes of every collidable in one subtree.
    pub fn _recursive_disable_collision(&self, node: &mut SceneNode)
        ensures
            final(node)@ == zeroed(old(node)@),
    {
        let z = zero_node(&*node);
        *node = z;
    }

    /// Handles an agent's change notification: re-caches the signalled
    /// subtree unconditionally, then, if collisions are disabled, re-zeroes
    /// that subtree's live attributes so the tree-wide disable holds. A
    /// path that no longer resolves surfaces as `UnresolvedReference`.
    pub fn _on_agent_collision_changed(&mut self, root: &mut SceneNode, target: &NodePath) -> (r:
        Result<(), FloorError>)
        requires
            old(self).wf(),
            wf_model(old(root)@),
        ensures
            final(self).wf(),
            final(self).enabled() == old(self).enabled(),
            r is Ok <==> resolve(old(root)@, target@) is Some,
            r matches Err(e) ==> e == FloorError::UnresolvedReference && *final(root) == *old(root)
                && final(self).cache_map() == old(self).cache_map() && final(self).agent_paths()
                == old(self).agent_paths(),
            r is Ok ==> final(self).cache_map() == old(self).cache_map().union_prefer_right(
                live_map(resolve(old(root)@, target@).unwrap(), target@),
            ) && final(self).agent_paths() == old(self).agent_paths().union(
                agent_set(resolve(old(root)@, target@).unwrap(), target@),
            ) && (old(self).enabled() ==> *final(root) == *old(root)) && (!old(self).enabled()
                ==> final(root)@ == zeroed_at(old(root)@, target@)),
    {
        let sub = match resolve_in(&*root, target) {
            Some(s) => s,
            None => {
                return Err(FloorError::UnresolvedReference);
            },
        };
        proof {
            lemma_resolve_wf(root@, target@);
        }
        self.cache_collision(sub, target, Some(false));
        if !self.is_enabled() {
            let z = zero_at_node(&*root, target, 0);
            proof {
                assert(target@.skip(0) =~= target@);
            }
            *root = z;
        }
        Ok(())
    }

    /// Looks up the conventionally named spawn-point child under the root.
    pub fn get_spawn<'a>(&self, root: &'a SceneNode) -> (r: Result<&'a SceneNode, FloorError>)
        ensures
            r matches Ok(n) ==> resolve(root@, spawn_path()) == Some(n@),
            r matches Err(e) ==> e == FloorError::MissingConventionalChild && resolve(
                root@,
                spawn_path(),
            ) is None,
    {
        let main_seg: String = "main".to_owned();
        let spawn_seg: String = "spawn".to_owned();
        let p = NodePath::root().child(&main_seg).child(&spawn_seg);
        proof {
            assert(p@ =~= spawn_path());
        }
        match resolve_in(root, &p) {
            Some(n) => Ok(n),
            None => Err(FloorError::MissingConventionalChild),
        }
    }

    /// The fixed type label external code uses for manual discrimination.
    pub fn get_class(&self) -> (r: &'static str)
        ensures
            r@ == "Floor"@,
    {
        "Floor"
    }

    /// Whether an agent at this path is registered as a listener.
    pub fn is_agent_registered(&self, path: &NodePath) -> (r: bool)
        requires
            self.wf(),
        ensures
            r == self.agent_paths().contains(path@),
    {
        proof {
            lemma_paths_set(self.agents@);
        }
        let n = self.agents.len();
        let mut i: usize = 0;
        while i < n
            invariant
                0 <= i <= n,
                n == self.agents@.len(),
                forall|j: int| 0 <= j < i ==> self.agents@[j]@ != path@,
            decreases n - i,
        {
            if self.agents[i].same_as(path) {
                proof {
                    lemma_paths_set(self.agents@);
                    assert(self.agents@[i as int]@ == path@);
                }
                return true;
            }
            i += 1;
        }
        proof {
            lemma_paths_set(self.agents@);
            if paths_set(self.agents@).contains(path@) {
                let j = choose|j: int| 0 <= j < self.agents@.len() && self.agents@[j]@ == path@;
                assert(false);
            }
        }
        false
    }
}

} // verus!
