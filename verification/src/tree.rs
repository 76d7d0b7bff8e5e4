//! The scene tree as the cache sees it: nodes with a name, a recognized
//! kind, live collision attributes, and an ordered list of children.
//!
//! The ghost model [`NodeModel`] mirrors a [`SceneNode`] with mathematical
//! sequences, and the spec functions below say what each traversal of the
//! tree computes: which paths are collidable, what a full zeroing pass
//! leaves behind, and what restoring from a cache produces.

use vstd::prelude::*;

verus! {

/// A key identifying a node's structural position relative to a fixed root:
/// the names of the nodes on the way down, root excluded.
pub type PathKey = Seq<Seq<char>>;

/// The two collidable kinds, the change-agent kind, and everything else.
#[derive(Clone, Copy, PartialEq, Eq, Structural, Debug)]
pub enum NodeKind {
    /// A body carrying its own collision layer and mask.
    RigidCollidable,
    /// A tile grid carrying its own collision layer and mask.
    TileGridCollidable,
    /// A change-notification source.
    ChangeAgent,
    /// A pure container; recursion still reaches its children.
    Plain,
}

/// A collidable node's captured collision attributes.
#[derive(Clone, Copy, PartialEq, Eq, Structural, Debug)]
pub struct Attrs {
    pub layer: i64,
    pub mask: i64,
}

/// A node of the externally owned scene tree, as handed to the cache.
pub struct SceneNode {
    pub name: String,
    pub kind: NodeKind,
    pub attrs: Attrs,
    pub children: Vec<SceneNode>,
}

/// The ghost mirror of a [`SceneNode`].
#[verifier::ext_equal]
pub struct NodeModel {
    pub name: Seq<char>,
    pub kind: NodeKind,
    pub attrs: Attrs,
    pub children: Seq<NodeModel>,
}

/// Whether a node of this kind carries collision attributes of its own.
pub open spec fn collidable(k: NodeKind) -> bool {
    k == NodeKind::RigidCollidable || k == NodeKind::TileGridCollidable
}

pub open spec fn model(n: SceneNode) -> NodeModel
    decreases n,
{
    NodeModel {
        name: n.name@,
        kind: n.kind,
        attrs: n.attrs,
        children: forest_model(n.children@),
    }
}

pub open spec fn forest_model(s: Seq<SceneNode>) -> Seq<NodeModel>
    decreases s,
{
    if s.len() == 0 {
        Seq::empty()
    } else {
        forest_model(s.drop_last()).push(model(s.last()))
    }
}

impl View for SceneNode {
    type V = NodeModel;

    open spec fn view(&self) -> NodeModel {
        model(*self)
    }
}

/// Sibling names are pairwise distinct at every level, so every node in the
/// subtree has a structural path of its own. The host runtime guarantees
/// this of its trees; the cache's contracts rely on it.
pub open spec fn wf_model(m: NodeModel) -> bool
    decreases m,
{
    distinct_names(m.children) && forall|i: int|
        0 <= i < m.children.len() ==> wf_model(#[trigger] m.children[i])
}

pub open spec fn distinct_names(s: Seq<NodeModel>) -> bool {
    forall|i: int, j: int| 0 <= i < j < s.len() ==> s[i].name != s[j].name
}

/// The first child of the given name, if any, by its position.
pub open spec fn child_index(s: Seq<NodeModel>, name: Seq<char>) -> Option<int>
    decreases s.len(),
{
    if s.len() == 0 {
        None
    } else if s[0].name == name {
        Some(0)
    } else {
        match child_index(s.drop_first(), name) {
            None => None,
            Some(i) => Some(i + 1),
        }
    }
}

/// Follows a structural path down from `m`; the node it ends at, if the
/// whole path exists in the tree.
pub open spec fn resolve(m: NodeModel, p: PathKey) -> Option<NodeModel>
    decreases p.len(),
{
    if p.len() == 0 {
        Some(m)
    } else {
        match child_index(m.children, p.first()) {
            None => None,
            Some(i) => resolve(m.children[i], p.drop_first()),
        }
    }
}

/// Every collidable position in the subtree of `m`, keyed by structural
/// path (with `m` itself at `prefix`), mapped to its live attributes.
pub open spec fn live_map(m: NodeModel, prefix: PathKey) -> Map<PathKey, Attrs>
    decreases m, 1int,
{
    let below = forest_live_map(m.children, prefix);
    if collidable(m.kind) {
        below.insert(prefix, m.attrs)
    } else {
        below
    }
}

pub open spec fn forest_live_map(s: Seq<NodeModel>, prefix: PathKey) -> Map<PathKey, Attrs>
    decreases s, 0int,
{
    if s.len() == 0 {
        Map::empty()
    } else {
        forest_live_map(s.drop_last(), prefix).union_prefer_right(
            live_map(s.last(), prefix.push(s.last().name)),
        )
    }
}

/// Every change-agent position in the subtree of `m`, by structural path.
pub open spec fn agent_set(m: NodeModel, prefix: PathKey) -> Set<PathKey>
    decreases m, 1int,
{
    let below = forest_agent_set(m.children, prefix);
    if m.kind == NodeKind::ChangeAgent {
        below.insert(prefix)
    } else {
        below
    }
}

pub open spec fn forest_agent_set(s: Seq<NodeModel>, prefix: PathKey) -> Set<PathKey>
    decreases s, 0int,
{
    if s.len() == 0 {
        Set::empty()
    } else {
        forest_agent_set(s.drop_last(), prefix).union(
            agent_set(s.last(), prefix.push(s.last().name)),
        )
    }
}

/// What a full disabling pass leaves: the same tree with every collidable's
/// live attributes set to zero. Non-collidable nodes are untouched.
pub open spec fn zeroed(m: NodeModel) -> NodeModel
    decreases m, 1int,
{
    NodeModel {
        name: m.name,
        kind: m.kind,
        attrs: if collidable(m.kind) {
            Attrs { layer: 0, mask: 0 }
        } else {
            m.attrs
        },
        children: zeroed_forest(m.children),
    }
}

pub open spec fn zeroed_forest(s: Seq<NodeModel>) -> Seq<NodeModel>
    decreases s, 0int,
{
    if s.len() == 0 {
        Seq::empty()
    } else {
        zeroed_forest(s.drop_last()).push(zeroed(s.last()))
    }
}

/// What an enabling pass leaves: every collidable's live attributes taken
/// from its cache entry. Where the cache has no entry the node is left as
/// it stands; the pass itself reports that case as an error.
pub open spec fn restored(m: NodeModel, cache: Map<PathKey, Attrs>, prefix: PathKey) -> NodeModel
    decreases m, 1int,
{
    NodeModel {
        name: m.name,
        kind: m.kind,
        attrs: if collidable(m.kind) && cache.contains_key(prefix) {
            cache[prefix]
        } else {
            m.attrs
        },
        children: restored_forest(m.children, cache, prefix),
    }
}

pub open spec fn restored_forest(
    s: Seq<NodeModel>,
    cache: Map<PathKey, Attrs>,
    prefix: PathKey,
) -> Seq<NodeModel>
    decreases s, 0int,
{
    if s.len() == 0 {
        Seq::empty()
    } else {
        restored_forest(s.drop_last(), cache, prefix).push(
            restored(s.last(), cache, prefix.push(s.last().name)),
        )
    }
}

/// Whether every collidable position under `m` (itself at `prefix`) has a
/// cache entry: the condition under which an enabling pass succeeds.
pub open spec fn all_cached(m: NodeModel, cache: Map<PathKey, Attrs>, prefix: PathKey) -> bool {
    live_map(m, prefix).dom() <= cache.dom()
}

/// The tree with only the subtree at `p` zeroed, the rest untouched; what
/// handling a change notification leaves while collisions are disabled.
pub open spec fn zeroed_at(m: NodeModel, p: PathKey) -> NodeModel
    decreases p.len(),
{
    if p.len() == 0 {
        zeroed(m)
    } else {
        match child_index(m.children, p.first()) {
            None => m,
            Some(i) => NodeModel {
                name: m.name,
                kind: m.kind,
                attrs: m.attrs,
                children: m.children.update(i, zeroed_at(m.children[i], p.drop_first())),
            },
        }
    }
}

/// Whether `prefix` is a prefix of the path `k`.
pub open spec fn key_extends(prefix: PathKey, k: PathKey) -> bool {
    k.len() >= prefix.len() && k.subrange(0, prefix.len() as int) == prefix
}

pub proof fn lemma_key_extends_refl(prefix: PathKey)
    ensures
        key_extends(prefix, prefix),
{
    assert(prefix.subrange(0, prefix.len() as int) =~= prefix);
}

pub proof fn lemma_key_extends_push(prefix: PathKey, name: Seq<char>, k: PathKey)
    requires
        key_extends(prefix.push(name), k),
    ensures
        key_extends(prefix, k),
        k.len() > prefix.len(),
        k[prefix.len() as int] == name,
{
    let p = prefix.len() as int;
    let ext = k.subrange(0, p + 1);
    assert(ext == prefix.push(name));
    assert(k[p] == ext[p]);
    assert(k.subrange(0, p) =~= prefix) by {
        assert(forall|j: int| 0 <= j < p ==> k[j] == ext[j] && ext[j] == prefix[j]);
    }
}

/// Every key of a subtree's live map extends the subtree's own prefix, and
/// the prefix itself is a key exactly when the subtree's root is collidable.
pub proof fn lemma_live_map_keys(m: NodeModel, prefix: PathKey)
    ensures
        forall|k: PathKey| #[trigger]
            live_map(m, prefix).contains_key(k) ==> key_extends(prefix, k),
        live_map(m, prefix).contains_key(prefix) <==> collidable(m.kind),
        live_map(m, prefix).contains_key(prefix) ==> live_map(m, prefix)[prefix] == m.attrs,
    decreases m, 1int,
{
    let below = forest_live_map(m.children, prefix);
    lemma_forest_live_map_keys(m.children, prefix);
    lemma_key_extends_refl(prefix);
    assert forall|k: PathKey| #[trigger]
        live_map(m, prefix).contains_key(k) implies key_extends(prefix, k) by {
        if k != prefix {
            assert(below.contains_key(k));
        }
    }
    if !collidable(m.kind) && live_map(m, prefix).contains_key(prefix) {
        assert(below.contains_key(prefix));
    }
}

pub proof fn lemma_forest_live_map_keys(s: Seq<NodeModel>, prefix: PathKey)
    ensures
        forall|k: PathKey| #[trigger]
            forest_live_map(s, prefix).contains_key(k) ==> key_extends(prefix, k) && k.len()
                > prefix.len(),
    decreases s, 0int,
{
    if s.len() > 0 {
        lemma_forest_live_map_keys(s.drop_last(), prefix);
        let name = s.last().name;
        lemma_live_map_keys(s.last(), prefix.push(name));
        assert forall|k: PathKey| #[trigger]
            forest_live_map(s, prefix).contains_key(k) implies key_extends(prefix, k) && k.len()
            > prefix.len() by {
            if live_map(s.last(), prefix.push(name)).contains_key(k) {
                lemma_key_extends_push(prefix, name, k);
            } else {
                assert(forest_live_map(s.drop_last(), prefix).contains_key(k));
            }
        }
    }
}

/// A key stands in a forest's live map exactly when it stands in the live
/// map of one of the trees of the forest.
pub proof fn lemma_forest_live_map_dom(s: Seq<NodeModel>, prefix: PathKey)
    ensures
        forall|k: PathKey| #[trigger]
            forest_live_map(s, prefix).contains_key(k) <==> exists|i: int|
                0 <= i < s.len() && #[trigger] live_map(
                    s[i],
                    prefix.push(s[i].name),
                ).contains_key(k),
    decreases s,
{
    if s.len() > 0 {
        lemma_forest_live_map_dom(s.drop_last(), prefix);
        assert forall|k: PathKey| #[trigger]
            forest_live_map(s, prefix).contains_key(k) implies exists|i: int|
            0 <= i < s.len() && #[trigger] live_map(s[i], prefix.push(s[i].name)).contains_key(k) by {
            if live_map(s.last(), prefix.push(s.last().name)).contains_key(k) {
                assert(live_map(s[s.len() - 1], prefix.push(s[s.len() - 1].name)).contains_key(k));
            } else {
                assert(forest_live_map(s.drop_last(), prefix).contains_key(k));
                let i = choose|i: int|
                    0 <= i < s.drop_last().len() && #[trigger] live_map(
                        s.drop_last()[i],
                        prefix.push(s.drop_last()[i].name),
                    ).contains_key(k);
                assert(s.drop_last()[i] == s[i]);
                assert(live_map(s[i], prefix.push(s[i].name)).contains_key(k));
            }
        }
        assert forall|k: PathKey, i: int|
            0 <= i < s.len() && #[trigger] live_map(s[i], prefix.push(s[i].name)).contains_key(
                k,
            ) implies forest_live_map(s, prefix).contains_key(k) by {
            if i < s.len() - 1 {
                assert(s.drop_last()[i] == s[i]);
                assert(live_map(s.drop_last()[i], prefix.push(s.drop_last()[i].name)).contains_key(
                    k,
                ));
                assert(forest_live_map(s.drop_last(), prefix).contains_key(k));
            } else {
                assert(live_map(s.last(), prefix.push(s.last().name)).contains_key(k));
            }
        }
    }
}

/// With distinct sibling names, the forest's live map agrees with each
/// tree's own live map on that tree's keys.
pub proof fn lemma_forest_live_map_get(s: Seq<NodeModel>, prefix: PathKey, i: int)
    requires
        distinct_names(s),
        0 <= i < s.len(),
    ensures
        forall|k: PathKey| #[trigger]
            live_map(s[i], prefix.push(s[i].name)).contains_key(k) ==> forest_live_map(
                s,
                prefix,
            ).contains_key(k) && forest_live_map(s, prefix)[k] == live_map(
                s[i],
                prefix.push(s[i].name),
            )[k],
    decreases s,
{
    let last = s.len() - 1;
    if i == last {
        // the last tree's entries win in the union, and they are exactly its own
    } else {
        assert(distinct_names(s.drop_last()));
        assert(s.drop_last()[i] == s[i]);
        lemma_forest_live_map_get(s.drop_last(), prefix, i);
        lemma_live_map_keys(s[i], prefix.push(s[i].name));
        lemma_live_map_keys(s[last], prefix.push(s[last].name));
        assert forall|k: PathKey| #[trigger]
            live_map(s[i], prefix.push(s[i].name)).contains_key(k) implies forest_live_map(
            s,
            prefix,
        ).contains_key(k) && forest_live_map(s, prefix)[k] == live_map(
            s[i],
            prefix.push(s[i].name),
        )[k] by {
            lemma_key_extends_push(prefix, s[i].name, k);
            if live_map(s[last], prefix.push(s[last].name)).contains_key(k) {
                lemma_key_extends_push(prefix, s[last].name, k);
                assert(s[i].name == s[last].name);
                assert(false);
            }
        }
    }
}

/// `child_index` finds the first child of the given name, and only fails
/// when no child has it.
pub proof fn lemma_child_index(s: Seq<NodeModel>, name: Seq<char>)
    ensures
        child_index(s, name) matches Some(i) ==> 0 <= i < s.len() && s[i].name == name && forall|
            j: int,
        | 0 <= j < i ==> s[j].name != name,
        child_index(s, name) is None ==> forall|j: int| 0 <= j < s.len() ==> s[j].name != name,
    decreases s.len(),
{
    if s.len() > 0 && s[0].name != name {
        lemma_child_index(s.drop_first(), name);
        match child_index(s.drop_first(), name) {
            Some(i0) => {
                assert(s.drop_first()[i0] == s[i0 + 1]);
                assert forall|j: int| 0 <= j < i0 + 1 implies s[j].name != name by {
                    if j > 0 {
                        assert(s.drop_first()[j - 1] == s[j]);
                    }
                }
            },
            None => {
                assert forall|j: int| 0 <= j < s.len() implies s[j].name != name by {
                    if j > 0 {
                        assert(s.drop_first()[j - 1] == s[j]);
                    }
                }
            },
        }
    }
}

pub proof fn lemma_zeroed_forest(s: Seq<NodeModel>)
    ensures
        zeroed_forest(s).len() == s.len(),
        forall|i: int| 0 <= i < s.len() ==> #[trigger] zeroed_forest(s)[i] == zeroed(s[i]),
    decreases s,
{
    if s.len() > 0 {
        lemma_zeroed_forest(s.drop_last());
    }
}

pub proof fn lemma_restored_forest(s: Seq<NodeModel>, cache: Map<PathKey, Attrs>, prefix: PathKey)
    ensures
        restored_forest(s, cache, prefix).len() == s.len(),
        forall|i: int|
            0 <= i < s.len() ==> #[trigger] restored_forest(s, cache, prefix)[i] == restored(
                s[i],
                cache,
                prefix.push(s[i].name),
            ),
    decreases s,
{
    if s.len() > 0 {
        lemma_restored_forest(s.drop_last(), cache, prefix);
    }
}

pub proof fn lemma_union_assoc(a: Map<PathKey, Attrs>, b: Map<PathKey, Attrs>, c: Map<
    PathKey,
    Attrs,
>)
    ensures
        a.union_prefer_right(b).union_prefer_right(c) == a.union_prefer_right(
            b.union_prefer_right(c),
        ),
{
    assert(a.union_prefer_right(b).union_prefer_right(c) =~= a.union_prefer_right(
        b.union_prefer_right(c),
    ));
}

/// Two caches that agree on every key under `prefix` restore a subtree at
/// `prefix` identically.
pub proof fn lemma_restored_agree(
    m: NodeModel,
    c1: Map<PathKey, Attrs>,
    c2: Map<PathKey, Attrs>,
    prefix: PathKey,
)
    requires
        forall|k: PathKey| #[trigger]
            key_extends(prefix, k) ==> ((c1.contains_key(k) <==> c2.contains_key(k)) && (
            c1.contains_key(k) ==> c1[k] == c2[k])),
    ensures
        restored(m, c1, prefix) == restored(m, c2, prefix),
    decreases m, 1int,
{
    lemma_key_extends_refl(prefix);
    lemma_restored_forest_agree(m.children, c1, c2, prefix);
    assert(restored(m, c1, prefix) =~= restored(m, c2, prefix));
}

pub proof fn lemma_restored_forest_agree(
    s: Seq<NodeModel>,
    c1: Map<PathKey, Attrs>,
    c2: Map<PathKey, Attrs>,
    prefix: PathKey,
)
    requires
        forall|k: PathKey| #[trigger]
            key_extends(prefix, k) ==> ((c1.contains_key(k) <==> c2.contains_key(k)) && (
            c1.contains_key(k) ==> c1[k] == c2[k])),
    ensures
        restored_forest(s, c1, prefix) == restored_forest(s, c2, prefix),
    decreases s, 0int,
{
    if s.len() > 0 {
        lemma_restored_forest_agree(s.drop_last(), c1, c2, prefix);
        let nm = s.last().name;
        assert forall|k: PathKey| #[trigger]
            key_extends(prefix.push(nm), k) implies ((c1.contains_key(k) <==> c2.contains_key(k))
            && (c1.contains_key(k) ==> c1[k] == c2[k])) by {
            lemma_key_extends_push(prefix, nm, k);
        }
        lemma_restored_agree(s.last(), c1, c2, prefix.push(nm));
    }
}

/// With distinct sibling names, a child's live map shares no key with the
/// live maps of the siblings before it.
pub proof fn lemma_sibling_disjoint(s: Seq<NodeModel>, prefix: PathKey, i: int)
    requires
        distinct_names(s),
        0 <= i < s.len(),
    ensures
        forall|k: PathKey|
            !(#[trigger] live_map(s[i], prefix.push(s[i].name)).contains_key(k) && #[trigger]
            forest_live_map(s.take(i), prefix).contains_key(k)),
{
    lemma_live_map_keys(s[i], prefix.push(s[i].name));
    lemma_forest_live_map_dom(s.take(i), prefix);
    assert forall|k: PathKey|
        !(#[trigger] live_map(s[i], prefix.push(s[i].name)).contains_key(k) && #[trigger]
        forest_live_map(s.take(i), prefix).contains_key(k)) by {
        if live_map(s[i], prefix.push(s[i].name)).contains_key(k) && forest_live_map(
            s.take(i),
            prefix,
        ).contains_key(k) {
            lemma_key_extends_push(prefix, s[i].name, k);
            let j = choose|j: int|
                0 <= j < s.take(i).len() && #[trigger] live_map(
                    s.take(i)[j],
                    prefix.push(s.take(i)[j].name),
                ).contains_key(k);
            assert(s.take(i)[j] == s[j]);
            lemma_live_map_keys(s[j], prefix.push(s[j].name));
            lemma_key_extends_push(prefix, s[j].name, k);
            assert(s[j].name == s[i].name);
            assert(false);
        }
    }
}

/// Resolving a path inside a well-formed tree lands on a well-formed tree.
pub proof fn lemma_resolve_wf(m: NodeModel, p: PathKey)
    requires
        wf_model(m),
        resolve(m, p) is Some,
    ensures
        wf_model(resolve(m, p).unwrap()),
    decreases p.len(),
{
    if p.len() > 0 {
        lemma_child_index(m.children, p.first());
        let i = child_index(m.children, p.first()).unwrap();
        assert(wf_model(m.children[i]));
        lemma_resolve_wf(m.children[i], p.drop_first());
    }
}

pub broadcast proof fn lemma_forest_model(s: Seq<SceneNode>)
    ensures
        #[trigger] forest_model(s).len() == s.len(),
        forall|i: int| 0 <= i < s.len() ==> forest_model(s)[i] == model(s[i]),
    decreases s,
{
    if s.len() > 0 {
        lemma_forest_model(s.drop_last());
    }
}

/// The first child of the given name, by position, as the host runtime's
/// name-based lookup finds it.
pub fn find_child(children: &Vec<SceneNode>, name: &String) -> (r: Option<usize>)
    ensures
        r matches Some(i) ==> child_index(forest_model(children@), name@) == Some(i as int),
        r is None ==> child_index(forest_model(children@), name@) is None,
{
    proof {
        lemma_forest_model(children@);
        lemma_child_index(forest_model(children@), name@);
    }
    let ghost fm = forest_model(children@);
    let n = children.len();
    let mut i: usize = 0;
    while i < n
        invariant
            0 <= i <= n,
            n == children@.len(),
            fm == forest_model(children@),
            fm.len() == n,
            forall|j: int| 0 <= j < n ==> #[trigger] fm[j] == model(children@[j]),
            forall|j: int| 0 <= j < i ==> #[trigger] fm[j].name != name@,
        decreases n - i,
    {
        if children[i].name == *name {
            proof {
                assert(fm[i as int].name == name@);
                lemma_child_index(fm, name@);
                if child_index(fm, name@) is None {
                    assert(false);
                }
                let k = child_index(fm, name@).unwrap();
                if k < i {
                    assert(fm[k].name != name@);
                    assert(false);
                }
                if k > i {
                    assert(fm[i as int].name != name@);
                    assert(false);
                }
            }
            return Some(i);
        }
        i += 1;
    }
    proof {
        lemma_child_index(fm, name@);
        match child_index(fm, name@) {
            Some(k) => {
                assert(fm[k].name != name@);
                assert(false);
            },
            None => {},
        }
    }
    None
}

/// A structural copy of a subtree, as a value of this library's own.
pub fn copy_node(n: &SceneNode) -> (r: SceneNode)
    ensures
        r@ == n@,
    decreases *n,
{
    let mut cs: Vec<SceneNode> = Vec::new();
    let mut i: usize = 0;
    while i < n.children.len()
        invariant
            0 <= i <= n.children@.len(),
            cs@.len() == i,
            forall|j: int| 0 <= j < i ==> #[trigger] cs@[j]@ == n.children@[j]@,
        decreases n.children@.len() - i,
    {
        let c = copy_node(&n.children[i]);
        cs.push(c);
        i += 1;
    }
    let r = SceneNode { name: n.name.clone(), kind: n.kind, attrs: n.attrs, children: cs };
    proof {
        lemma_forest_model(r.children@);
        lemma_forest_model(n.children@);
        assert forall|j: int| 0 <= j < cs@.len() implies model(cs@[j]) == model(
            n.children@[j],
        ) by {
            assert(cs@[j]@ == n.children@[j]@);
        }
        assert(forest_model(r.children@) =~= forest_model(n.children@));
        assert(r@ =~= n@);
    }
    r
}

/// A copy of a subtree with every collidable's live attributes zeroed:
/// what a disabling pass leaves behind.
pub fn zero_node(n: &SceneNode) -> (r: SceneNode)
    ensures
        r@ == zeroed(n@),
    decreases *n,
{
    let mut cs: Vec<SceneNode> = Vec::new();
    let mut i: usize = 0;
    while i < n.children.len()
        invariant
            0 <= i <= n.children@.len(),
            cs@.len() == i,
            forall|j: int| 0 <= j < i ==> #[trigger] cs@[j]@ == zeroed(n.children@[j]@),
        decreases n.children@.len() - i,
    {
        let c = zero_node(&n.children[i]);
        cs.push(c);
        i += 1;
    }
    let keep = !matches!(n.kind, NodeKind::RigidCollidable | NodeKind::TileGridCollidable);
    let attrs = if keep {
        n.attrs
    } else {
        Attrs { layer: 0, mask: 0 }
    };
    let r = SceneNode { name: n.name.clone(), kind: n.kind, attrs, children: cs };
    proof {
        lemma_forest_model(r.children@);
        lemma_forest_model(n.children@);
        lemma_zeroed_forest(forest_model(n.children@));
        assert forall|j: int| 0 <= j < cs@.len() implies model(cs@[j]) == zeroed(
            model(n.children@[j]),
        ) by {
            assert(cs@[j]@ == zeroed(n.children@[j]@));
        }
        assert(forest_model(r.children@) =~= zeroed_forest(forest_model(n.children@)));
        assert(r@ =~= zeroed(n@));
    }
    r
}

/// A copy of the tree with only the subtree at the path (from the given
/// depth on) zeroed; elsewhere a plain structural copy.
pub fn zero_at_node(node: &SceneNode, path: &crate::path::NodePath, depth: usize) -> (r: SceneNode)
    requires
        depth <= path@.len(),
    ensures
        r@ == zeroed_at(node@, path@.skip(depth as int)),
    decreases *node,
{
    let ghost p = path@.skip(depth as int);
    let plen = path.len();
    if depth == plen {
        proof {
            assert(p =~= Seq::<Seq<char>>::empty());
        }
        return zero_node(node);
    }
    proof {
        assert(p.len() > 0);
        assert(p.first() == path@[depth as int]);
    }
    match find_child(&node.children, path.segment(depth)) {
        None => {
            let r = copy_node(node);
            r
        },
        Some(ci) => {
            proof {
                lemma_forest_model(node.children@);
                lemma_child_index(forest_model(node.children@), p.first());
                assert(ci < node.children@.len());
            }
            let ghost cm = forest_model(node.children@);
            let n = node.children.len();
            let mut cs: Vec<SceneNode> = Vec::new();
            let mut j: usize = 0;
            while j < n
                invariant
                    0 <= j <= n,
                    n == node.children@.len(),
                    ci < n,
                    plen == path@.len(),
                    depth < plen,
                    p == path@.skip(depth as int),
                    cm == forest_model(node.children@),
                    cm.len() == n,
                    forall|t: int| 0 <= t < n ==> #[trigger] cm[t] == model(node.children@[t]),
                    cs@.len() == j,
                    forall|t: int|
                        0 <= t < j && t != ci ==> #[trigger] cs@[t]@ == cm[t],
                    ci < j ==> cs@[ci as int]@ == zeroed_at(cm[ci as int], p.drop_first()),
                decreases n - j,
            {
                if j == ci {
                    let c = zero_at_node(&node.children[j], path, depth + 1);
                    proof {
                        assert(path@.skip(depth as int + 1) =~= p.drop_first());
                    }
                    cs.push(c);
                } else {
                    let c = copy_node(&node.children[j]);
                    cs.push(c);
                }
                j += 1;
            }
            let r = SceneNode {
                name: node.name.clone(),
                kind: node.kind,
                attrs: node.attrs,
                children: cs,
            };
            proof {
                lemma_forest_model(r.children@);
                assert forall|t: int| 0 <= t < n implies #[trigger] model(cs@[t])
                    == cm.update(ci as int, zeroed_at(cm[ci as int], p.drop_first()))[t] by {
                    if t == ci {
                        assert(cs@[t]@ == zeroed_at(cm[ci as int], p.drop_first()));
                    } else {
                        assert(cs@[t]@ == cm[t]);
                    }
                }
                assert(forest_model(r.children@) =~= cm.update(
                    ci as int,
                    zeroed_at(cm[ci as int], p.drop_first()),
                ));
                assert(r@ =~= zeroed_at(node@, p));
            }
            r
        },
    }
}

/// Follows a structural path down from `root`, as the host runtime would;
/// fails when some name on the path has no child.
pub fn resolve_in<'a>(root: &'a SceneNode, path: &crate::path::NodePath) -> (r: Option<
    &'a SceneNode,
>)
    ensures
        r matches Some(n) ==> resolve(root@, path@) == Some(n@),
        r is None ==> resolve(root@, path@) is None,
{
    let mut cur: &SceneNode = root;
    let n = path.len();
    let mut d: usize = 0;
    proof {
        assert(path@.skip(0) =~= path@);
    }
    while d < n
        invariant
            0 <= d <= n,
            n == path@.len(),
            resolve(root@, path@) == resolve(cur@, path@.skip(d as int)),
        decreases n - d,
    {
        let ghost rest = path@.skip(d as int);
        match find_child(&cur.children, path.segment(d)) {
            Some(i) => {
                proof {
                    assert(rest.len() > 0);
                    assert(rest.first() == path@[d as int]);
                    assert(cur@.children == forest_model(cur.children@));
                    lemma_forest_model(cur.children@);
                    lemma_child_index(forest_model(cur.children@), rest.first());
                    assert(i < cur.children@.len());
                    assert(cur@.children[i as int] == cur.children@[i as int]@);
                    assert(rest.drop_first() =~= path@.skip(d as int + 1));
                }
                cur = &cur.children[i];
            },
            None => {
                proof {
                    assert(rest.len() > 0);
                    assert(rest.first() == path@[d as int]);
                }
                return None;
            },
        }
        d += 1;
    }
    proof {
        assert(path@.skip(n as int) =~= Seq::<Seq<char>>::empty());
    }
    Some(cur)
}

} // verus!
