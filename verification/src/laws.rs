//! Properties that relate the cache's operations across calls: what a
//! disable pass guarantees, that disabling twice changes nothing more,
//! that enabling after disabling loses nothing, and that a scoped refresh
//! touches only the signalled subtree.

use vstd::prelude::*;

use crate::tree::child_index;
use crate::tree::collidable;
use crate::tree::forest_live_map;
use crate::tree::key_extends;
use crate::tree::lemma_child_index;
use crate::tree::lemma_forest_live_map_dom;
use crate::tree::lemma_forest_live_map_get;
use crate::tree::lemma_forest_live_map_keys;
use crate::tree::lemma_key_extends_push;
use crate::tree::lemma_live_map_keys;
use crate::tree::lemma_restored_agree;
use crate::tree::lemma_restored_forest;
use crate::tree::lemma_zeroed_forest;
use crate::tree::live_map;
use crate::tree::resolve;
use crate::tree::restored;
use crate::tree::restored_forest;
use crate::tree::wf_model;
use crate::tree::zeroed;
use crate::tree::zeroed_at;
use crate::tree::zeroed_forest;
use crate::tree::Attrs;
use crate::tree::NodeModel;
use crate::tree::PathKey;

verus! {

/// The attributes a disabling pass writes.
pub open spec fn zero_attrs() -> Attrs {
    Attrs { layer: 0, mask: 0 }
}

/// After a disabling pass, every collidable position of the tree carries
/// live attributes 0/0, whatever it carried before; and the set of
/// collidable positions is unchanged.
pub proof fn lemma_disabled_all_zero(m: NodeModel, prefix: PathKey)
    ensures
        forall|k: PathKey| #[trigger]
            live_map(zeroed(m), prefix).contains_key(k) <==> live_map(m, prefix).contains_key(k),
        forall|k: PathKey| #[trigger]
            live_map(zeroed(m), prefix).contains_key(k) ==> live_map(zeroed(m), prefix)[k]
                == zero_attrs(),
    decreases m, 1int,
{
    lemma_zeroed_forest(m.children);
    lemma_disabled_all_zero_forest(m.children, prefix);
    assert(zeroed(m).children == zeroed_forest(m.children));
    assert(zeroed(m).kind == m.kind);
    assert forall|k: PathKey| #[trigger]
        live_map(zeroed(m), prefix).contains_key(k) <==> live_map(m, prefix).contains_key(k) by {
        assert(live_map(zeroed(m), prefix).contains_key(k) <==> ((collidable(m.kind) && k
            == prefix) || forest_live_map(zeroed_forest(m.children), prefix).contains_key(k)));
        assert(live_map(m, prefix).contains_key(k) <==> ((collidable(m.kind) && k == prefix)
            || forest_live_map(m.children, prefix).contains_key(k)));
    }
    assert forall|k: PathKey| #[trigger]
        live_map(zeroed(m), prefix).contains_key(k) implies live_map(zeroed(m), prefix)[k]
        == zero_attrs() by {
        if !(collidable(m.kind) && k == prefix) {
            assert(forest_live_map(zeroed_forest(m.children), prefix).contains_key(k));
        }
    }
}

proof fn lemma_disabled_all_zero_forest(s: Seq<NodeModel>, prefix: PathKey)
    ensures
        forall|k: PathKey| #[trigger]
            forest_live_map(zeroed_forest(s), prefix).contains_key(k) <==> forest_live_map(
                s,
                prefix,
            ).contains_key(k),
        forall|k: PathKey| #[trigger]
            forest_live_map(zeroed_forest(s), prefix).contains_key(k) ==> forest_live_map(
                zeroed_forest(s),
                prefix,
            )[k] == zero_attrs(),
    decreases s, 0int,
{
    if s.len() > 0 {
        lemma_zeroed_forest(s);
        lemma_disabled_all_zero_forest(s.drop_last(), prefix);
        lemma_disabled_all_zero(s.last(), prefix.push(s.last().name));
        assert(zeroed_forest(s).len() == s.len());
        assert(zeroed_forest(s).drop_last() =~= zeroed_forest(s.drop_last()));
        assert(zeroed_forest(s).last() == zeroed(s.last()));
        assert(zeroed(s.last()).name == s.last().name);
        assert(forest_live_map(zeroed_forest(s), prefix) == forest_live_map(
            zeroed_forest(s.drop_last()),
            prefix,
        ).union_prefer_right(live_map(zeroed(s.last()), prefix.push(s.last().name))));
    }
}

/// Round trip: enabling right after disabling restores every collidable's
/// original attributes exactly, because the cache, populated before the
/// disable, is never zeroed — only the live nodes are.
pub proof fn lemma_round_trip(m: NodeModel, prefix: PathKey)
    requires
        wf_model(m),
    ensures
        restored(zeroed(m), live_map(m, prefix), prefix) == m,
    decreases m,
{
    let big = live_map(m, prefix);
    let cm = m.children;
    let zc = zeroed_forest(cm);
    lemma_zeroed_forest(cm);
    lemma_live_map_keys(m, prefix);
    lemma_forest_live_map_dom(cm, prefix);
    lemma_restored_forest(zc, big, prefix);
    assert forall|i: int| 0 <= i < cm.len() implies #[trigger] restored_forest(zc, big, prefix)[i]
        == cm[i] by {
        let c = cm[i];
        let pre_i = prefix.push(c.name);
        assert(zc[i] == zeroed(c));
        assert(zeroed(c).name == c.name);
        lemma_forest_live_map_get(cm, prefix, i);
        lemma_live_map_keys(c, pre_i);
        assert forall|k: PathKey| #[trigger]
            key_extends(pre_i, k) implies ((big.contains_key(k) <==> live_map(
            c,
            pre_i,
        ).contains_key(k)) && (big.contains_key(k) ==> big[k] == live_map(c, pre_i)[k])) by {
            lemma_key_extends_push(prefix, c.name, k);
            if big.contains_key(k) {
                assert(k.len() > prefix.len());
                assert(k != prefix);
                assert(forest_live_map(cm, prefix).contains_key(k));
                let j = choose|j: int|
                    0 <= j < cm.len() && #[trigger] live_map(
                        cm[j],
                        prefix.push(cm[j].name),
                    ).contains_key(k);
                lemma_live_map_keys(cm[j], prefix.push(cm[j].name));
                lemma_key_extends_push(prefix, cm[j].name, k);
                assert(cm[j].name == c.name);
                assert(j == i);
                lemma_forest_live_map_get(cm, prefix, j);
            }
            if live_map(c, pre_i).contains_key(k) {
                assert(forest_live_map(cm, prefix).contains_key(k));
                assert(k.len() > prefix.len());
                assert(k != prefix);
            }
        }
        lemma_restored_agree(zeroed(c), big, live_map(c, pre_i), pre_i);
        lemma_round_trip(c, pre_i);
    }
    assert(restored_forest(zc, big, prefix) =~= cm);
    assert(restored(zeroed(m), big, prefix) =~= m);
}

/// Disabling twice in a row leaves the same live state as disabling once,
/// and, with every collidable already cached, the second pass's re-cache
/// of the all-zero live tree changes no cache entry.
pub proof fn lemma_disable_idempotent(m: NodeModel, cache: Map<PathKey, Attrs>, prefix: PathKey)
    requires
        live_map(m, prefix).dom() <= cache.dom(),
    ensures
        zeroed(zeroed(m)) == zeroed(m),
        live_map(zeroed(m), prefix).union_prefer_right(cache) == cache,
{
    lemma_zeroed_idempotent(m);
    lemma_disabled_all_zero(m, prefix);
    assert(live_map(zeroed(m), prefix).union_prefer_right(cache) =~= cache) by {
        assert forall|k: PathKey|
            #![trigger cache.contains_key(k)]
            true implies !(live_map(zeroed(m), prefix).contains_key(k) && !cache.contains_key(k))
            by {
            if live_map(zeroed(m), prefix).contains_key(k) {
                assert(live_map(m, prefix).contains_key(k));
                assert(live_map(m, prefix).dom().contains(k));
                assert(cache.dom().contains(k));
            }
        }
    }
}

proof fn lemma_zeroed_idempotent(m: NodeModel)
    ensures
        zeroed(zeroed(m)) == zeroed(m),
    decreases m, 1int,
{
    lemma_zeroed_idempotent_forest(m.children);
    assert(zeroed(zeroed(m)) =~= zeroed(m));
}

proof fn lemma_zeroed_idempotent_forest(s: Seq<NodeModel>)
    ensures
        zeroed_forest(zeroed_forest(s)) == zeroed_forest(s),
    decreases s, 0int,
{
    if s.len() > 0 {
        lemma_zeroed_idempotent_forest(s.drop_last());
        lemma_zeroed_idempotent(s.last());
        assert(zeroed_forest(s).drop_last() =~= zeroed_forest(s.drop_last()));
    }
}

/// A scoped refresh of the subtree at `p` rewrites exactly the cache
/// entries under `p`: every key of the refreshed subtree takes its new
/// value, and every other entry of the cache is untouched.
pub proof fn lemma_scoped_refresh(sub: NodeModel, p: PathKey, cache: Map<PathKey, Attrs>)
    ensures
        forall|k: PathKey| #[trigger]
            live_map(sub, p).contains_key(k) ==> cache.union_prefer_right(live_map(sub, p))[k]
                == live_map(sub, p)[k],
        forall|k: PathKey|
            cache.contains_key(k) && !(#[trigger] key_extends(p, k)) ==> cache.union_prefer_right(
                live_map(sub, p),
            ).contains_key(k) && cache.union_prefer_right(live_map(sub, p))[k] == cache[k],
{
    lemma_live_map_keys(sub, p);
}

/// After an enabling pass with every collidable cached, the live
/// attributes of every collidable position equal its cache entry: the
/// cache is the single source of truth while enabled.
pub proof fn lemma_enabled_invariant(m: NodeModel, cache: Map<PathKey, Attrs>, prefix: PathKey)
    requires
        live_map(m, prefix).dom() <= cache.dom(),
    ensures
        forall|k: PathKey| #[trigger]
            live_map(restored(m, cache, prefix), prefix).contains_key(k) <==> live_map(
                m,
                prefix,
            ).contains_key(k),
        forall|k: PathKey| #[trigger]
            live_map(restored(m, cache, prefix), prefix).contains_key(k) ==> live_map(
                restored(m, cache, prefix),
                prefix,
            )[k] == cache[k],
    decreases m, 1int,
{
    let r = restored(m, cache, prefix);
    lemma_restored_forest(m.children, cache, prefix);
    lemma_live_map_keys(m, prefix);
    lemma_forest_live_map_dom(m.children, prefix);
    assert forall|i: int| 0 <= i < m.children.len() implies live_map(
        #[trigger] m.children[i],
        prefix.push(m.children[i].name),
    ).dom() <= cache.dom() by {
        let c = m.children[i];
        assert forall|k: PathKey| live_map(c, prefix.push(c.name)).dom().contains(
            k,
        ) implies cache.dom().contains(k) by {
            assert(live_map(c, prefix.push(c.name)).contains_key(k));
            assert(forest_live_map(m.children, prefix).contains_key(k));
            lemma_forest_live_map_keys(m.children, prefix);
            assert(live_map(m, prefix).contains_key(k));
            assert(live_map(m, prefix).dom().contains(k));
        }
    }
    lemma_enabled_invariant_forest(m.children, cache, prefix);
    assert(r.children == restored_forest(m.children, cache, prefix));
    if collidable(m.kind) {
        assert(cache.contains_key(prefix)) by {
            assert(live_map(m, prefix).dom().contains(prefix));
        }
        assert(r.attrs == cache[prefix]);
    }
    assert forall|k: PathKey| #[trigger]
        live_map(r, prefix).contains_key(k) <==> live_map(m, prefix).contains_key(k) by {
        assert(live_map(r, prefix).contains_key(k) <==> ((collidable(m.kind) && k == prefix)
            || forest_live_map(r.children, prefix).contains_key(k)));
        assert(live_map(m, prefix).contains_key(k) <==> ((collidable(m.kind) && k == prefix)
            || forest_live_map(m.children, prefix).contains_key(k)));
    }
    assert forall|k: PathKey| #[trigger] live_map(r, prefix).contains_key(k) implies live_map(
        r,
        prefix,
    )[k] == cache[k] by {
        if !(collidable(m.kind) && k == prefix) {
            assert(forest_live_map(r.children, prefix).contains_key(k));
        }
    }
}

proof fn lemma_enabled_invariant_forest(s: Seq<NodeModel>, cache: Map<PathKey, Attrs>, prefix: PathKey)
    requires
        forall|i: int|
            0 <= i < s.len() ==> live_map(#[trigger] s[i], prefix.push(s[i].name)).dom()
                <= cache.dom(),
    ensures
        forall|k: PathKey| #[trigger]
            forest_live_map(restored_forest(s, cache, prefix), prefix).contains_key(k)
                <==> forest_live_map(s, prefix).contains_key(k),
        forall|k: PathKey| #[trigger]
            forest_live_map(restored_forest(s, cache, prefix), prefix).contains_key(k)
                ==> forest_live_map(restored_forest(s, cache, prefix), prefix)[k] == cache[k],
    decreases s, 0int,
{
    if s.len() > 0 {
        lemma_restored_forest(s, cache, prefix);
        assert(forall|i: int|
            0 <= i < s.drop_last().len() ==> live_map(
                #[trigger] s.drop_last()[i],
                prefix.push(s.drop_last()[i].name),
            ).dom() <= cache.dom());
        lemma_enabled_invariant_forest(s.drop_last(), cache, prefix);
        lemma_enabled_invariant(s.last(), cache, prefix.push(s.last().name));
        let rf = restored_forest(s, cache, prefix);
        assert(rf.drop_last() =~= restored_forest(s.drop_last(), cache, prefix));
        assert(rf.last() == restored(s.last(), cache, prefix.push(s.last().name)));
        assert(rf.last().name == s.last().name);
        assert(forest_live_map(rf, prefix) == forest_live_map(
            restored_forest(s.drop_last(), cache, prefix),
            prefix,
        ).union_prefer_right(
            live_map(
                restored(s.last(), cache, prefix.push(s.last().name)),
                prefix.push(s.last().name),
            ),
        ));
    }
}

/// While disabled, a change notification for the subtree at `p` leaves
/// that subtree's live attributes at 0/0 even though its cache entries are
/// refreshed: the re-zeroing pass lands exactly on the resolved subtree.
pub proof fn lemma_disabled_notify(m: NodeModel, p: PathKey)
    requires
        resolve(m, p) is Some,
    ensures
        resolve(zeroed_at(m, p), p) == Some(zeroed(resolve(m, p).unwrap())),
        forall|k: PathKey| #[trigger]
            live_map(zeroed(resolve(m, p).unwrap()), p).contains_key(k) ==> live_map(
                zeroed(resolve(m, p).unwrap()),
                p,
            )[k] == zero_attrs(),
    decreases p.len(),
{
    lemma_disabled_all_zero(resolve(m, p).unwrap(), p);
    if p.len() == 0 {
    } else {
        lemma_child_index(m.children, p.first());
        let i = child_index(m.children, p.first()).unwrap();
        let c = m.children[i];
        let z = zeroed_at(m, p);
        let zc = zeroed_at(c, p.drop_first());
        lemma_disabled_notify_shape(c, p.drop_first());
        assert(z.children == m.children.update(i, zc));
        assert forall|j: int| 0 <= j < z.children.len() implies #[trigger] z.children[j].name
            == m.children[j].name by {
            if j == i {
                assert(zc.name == c.name);
            }
        }
        lemma_child_index_names(m.children, z.children, p.first());
        assert(child_index(z.children, p.first()) == Some(i));
        lemma_disabled_notify(c, p.drop_first());
        assert(resolve(z, p) == resolve(z.children[i], p.drop_first()));
    }
}

/// Re-zeroing at a path preserves the node's own name.
proof fn lemma_disabled_notify_shape(m: NodeModel, p: PathKey)
    ensures
        zeroed_at(m, p).name == m.name,
    decreases p.len(),
{
}

/// `child_index` depends only on the children's names.
proof fn lemma_child_index_names(s: Seq<NodeModel>, t: Seq<NodeModel>, name: Seq<char>)
    requires
        s.len() == t.len(),
        forall|j: int| 0 <= j < t.len() ==> #[trigger] t[j].name == s[j].name,
    ensures
        child_index(s, name) == child_index(t, name),
    decreases s.len(),
{
    if s.len() > 0 && s[0].name != name {
        assert(forall|j: int|
            0 <= j < t.drop_first().len() ==> #[trigger] t.drop_first()[j].name
                == s.drop_first()[j].name);
        lemma_child_index_names(s.drop_first(), t.drop_first(), name);
    }
}

} // verus!
