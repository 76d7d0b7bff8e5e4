//! Structural paths: the cache key type, a sequence of node names.

use vstd::prelude::*;

use crate::tree::PathKey;

verus! {

/// An opaque, stable identifier for a node's structural position relative
/// to the cache's root at the time of computation: the child names walked
/// through, root excluded. Not stable across reparenting.
pub struct NodePath {
    segments: Vec<String>,
}

impl View for NodePath {
    type V = PathKey;

    closed spec fn view(&self) -> PathKey {
        self.segments.deep_view()
    }
}

impl NodePath {
    /// The path of the root itself: no segments.
    pub fn root() -> (p: NodePath)
        ensures
            p@ == Seq::<Seq<char>>::empty(),
    {
        let p = NodePath { segments: Vec::new() };
        proof {
            assert(p@ =~= Seq::<Seq<char>>::empty());
        }
        p
    }

    /// The path one level down, through the child of the given name.
    pub fn child(&self, name: &String) -> (p: NodePath)
        ensures
            p@ == self@.push(name@),
    {
        let mut segments = clone_segments(&self.segments);
        segments.push(name.clone());
        let p = NodePath { segments };
        proof {
            assert(p@ =~= self@.push(name@));
        }
        p
    }

    /// The path of the structural parent; the root has none.
    pub fn parent(&self) -> (p: Option<NodePath>)
        ensures
            self@.len() == 0 ==> p is None,
            self@.len() > 0 ==> (p matches Some(q) && q@ == self@.drop_last()),
    {
        if self.segments.len() == 0 {
            None
        } else {
            let mut segments = clone_segments(&self.segments);
            let _last = segments.pop();
            let p = NodePath { segments };
            proof {
                assert(p@ =~= self@.drop_last());
            }
            Some(p)
        }
    }

    pub fn len(&self) -> (n: usize)
        ensures
            n == self@.len(),
    {
        self.segments.len()
    }

    /// The name at the given depth.
    pub fn segment(&self, i: usize) -> (s: &String)
        requires
            i < self@.len(),
        ensures
            s@ == self@[i as int],
    {
        &self.segments[i]
    }

    /// A copy with an equal view.
    pub fn duplicate(&self) -> (p: NodePath)
        ensures
            p@ == self@,
    {
        NodePath { segments: clone_segments(&self.segments) }
    }

    /// Whether two paths identify the same structural position.
    pub fn same_as(&self, other: &NodePath) -> (r: bool)
        ensures
            r <==> self@ == other@,
    {
        if self.segments.len() != other.segments.len() {
            proof {
                assert(self@.len() == self.segments@.len());
                assert(other@.len() == other.segments@.len());
            }
            return false;
        }
        let n = self.segments.len();
        let mut i: usize = 0;
        while i < n
            invariant
                0 <= i <= n,
                n == self.segments@.len() == other.segments@.len(),
                forall|j: int| 0 <= j < i ==> self.segments@[j]@ == other.segments@[j]@,
            decreases n - i,
        {
            if !string_eq(&self.segments[i], &other.segments[i]) {
                proof {
                    assert(self@[i as int] == self.segments@[i as int]@);
                    assert(other@[i as int] == other.segments@[i as int]@);
                }
                return false;
            }
            i += 1;
        }
        proof {
            assert(self@ =~= other@);
        }
        true
    }
}

fn string_eq(a: &String, b: &String) -> (r: bool)
    ensures
        r <==> a@ == b@,
{
    *a == *b
}

fn clone_segments(v: &Vec<String>) -> (r: Vec<String>)
    ensures
        r.deep_view() == v.deep_view(),
        r@.len() == v@.len(),
{
    let mut r: Vec<String> = Vec::new();
    let mut i: usize = 0;
    while i < v.len()
        invariant
            0 <= i <= v@.len(),
            r@.len() == i,
            forall|j: int| 0 <= j < i ==> r@[j]@ == v@[j]@,
        decreases v@.len() - i,
    {
        r.push(v[i].clone());
        i += 1;
    }
    proof {
        assert(r.deep_view() =~= v.deep_view());
    }
    r
}

} // verus!
