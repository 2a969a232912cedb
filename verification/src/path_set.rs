//! A set of paths into a JSON document, such as the paths of the arrays/objects to expand.
use vstd::prelude::*;
use vstd::string::StringSliceAdditionalSpecFns;

use crate::pointer::{path_view, JsonPointerSegment, SegmentView};

verus! {

/// Whether two texts are the same.
pub fn str_equal(a: &str, b: &str) -> (res: bool)
    ensures
        res == (a@ == b@),
{
    let x = a.as_bytes();
    let y = b.as_bytes();
    proof {
        vstd::utf8::encode_utf8_decode_utf8(a@);
        vstd::utf8::encode_utf8_decode_utf8(b@);
    }
    if x.len() != y.len() {
        return false;
    }
    let mut i: usize = 0;
    while i < x.len()
        invariant
            x@ == a.spec_bytes(),
            y@ == b.spec_bytes(),
            x@.len() == y@.len(),
            i <= x@.len(),
            forall|j: int| 0 <= j < i ==> x@[j] == y@[j],
        decreases x@.len() - i,
    {
        if x[i] != y[i] {
            return false;
        }
        i = i + 1;
    }
    proof {
        assert(x@ =~= y@);
    }
    true
}

/// Whether two segments are the same index, or the same key.
pub fn segments_equal(a: &JsonPointerSegment, b: &JsonPointerSegment) -> (res: bool)
    ensures
        res == (a@ == b@),
{
    match (a, b) {
        (JsonPointerSegment::Index(x), JsonPointerSegment::Index(y)) => *x == *y,
        (JsonPointerSegment::Key(x), JsonPointerSegment::Key(y)) => str_equal(x, y),
        _ => false,
    }
}

/// Whether two paths consist of the same segments.
pub fn paths_equal(a: &[JsonPointerSegment], b: &[JsonPointerSegment]) -> (res: bool)
    ensures
        res == (path_view(a@) == path_view(b@)),
{
    if a.len() != b.len() {
        return false;
    }
    let mut i: usize = 0;
    while i < a.len()
        invariant
            a@.len() == b@.len(),
            i <= a@.len(),
            forall|j: int| 0 <= j < i ==> a@[j]@ == b@[j]@,
        decreases a@.len() - i,
    {
        if !segments_equal(&a[i], &b[i]) {
            proof {
                assert(path_view(a@)[i as int] != path_view(b@)[i as int]);
            }
            return false;
        }
        i = i + 1;
    }
    proof {
        assert(path_view(a@) =~= path_view(b@));
    }
    true
}

/// A set of paths: each path is held once.
pub struct PathSet<'a> {
    paths: Vec<Vec<JsonPointerSegment<'a>>>,
}

impl<'a> PathSet<'a> {
    /// The paths held, in the order they were inserted.
    pub closed spec fn path_views(&self) -> Seq<Seq<SegmentView>> {
        self.paths@.map_values(|p: Vec<JsonPointerSegment<'a>>| path_view(p@))
    }

    #[verifier::type_invariant]
    closed spec fn inv(&self) -> bool {
        self.path_views().no_duplicates()
    }
}

impl<'a> View for PathSet<'a> {
    type V = Set<Seq<SegmentView>>;

    closed spec fn view(&self) -> Set<Seq<SegmentView>> {
        self.path_views().to_set()
    }
}

impl<'a> PathSet<'a> {
    /// An empty set.
    pub fn new() -> (res: Self)
        ensures
            res@ == Set::<Seq<SegmentView>>::empty(),
    {
        let res = PathSet { paths: Vec::new() };
        proof {
            assert(res.path_views() =~= Seq::<Seq<SegmentView>>::empty());
            assert(res@ =~= Set::<Seq<SegmentView>>::empty());
        }
        res
    }

    /// Whether the set holds `path`.
    pub fn contains(&self, path: &[JsonPointerSegment]) -> (res: bool)
        ensures
            res == self@.contains(path_view(path@)),
    {
        let mut i: usize = 0;
        while i < self.paths.len()
            invariant
                i <= self.paths@.len(),
                forall|j: int| 0 <= j < i ==> self.path_views()[j] != path_view(path@),
            decreases self.paths@.len() - i,
        {
            if paths_equal(self.paths[i].as_slice(), path) {
                proof {
                    assert(self.path_views()[i as int] == path_view(path@));
                }
                return true;
            }
            i = i + 1;
        }
        false
    }

    /// Adds `path` to the set.
    pub fn insert(&mut self, path: Vec<JsonPointerSegment<'a>>)
        ensures
            final(self)@ == old(self)@.insert(path_view(path@)),
    {
        if !self.contains(path.as_slice()) {
            proof {
                use_type_invariant(&*self);
            }
            let ghost before = self.path_views();
            let ghost p = path_view(path@);
            proof {
                assert(!before.contains(p)) by {
                    if before.contains(p) {
                        assert(old(self)@.contains(p));
                    }
                }
            }
            let mut paths: Vec<Vec<JsonPointerSegment<'a>>> = Vec::new();
            std::mem::swap(&mut paths, &mut self.paths);
            paths.push(path);
            proof {
                let views = paths@.map_values(|q: Vec<JsonPointerSegment<'a>>| path_view(q@));
                assert(views =~= before.push(p));
                assert forall|i: int, j: int|
                    0 <= i < views.len() && 0 <= j < views.len() && i != j implies views[i]
                    != views[j] by {
                    if i < before.len() && j < before.len() {
                    } else if i == before.len() {
                        assert(before[j] == views[j]);
                    } else {
                        assert(before[i] == views[i]);
                    }
                }
            }
            self.paths = paths;
            proof {
                assert(self.path_views() =~= before.push(p));
                before.lemma_push_to_set_commute(p);
                assert(self@ =~= old(self)@.insert(p));
            }
        } else {
            proof {
                assert(old(self)@.insert(path_view(path@)) =~= old(self)@);
            }
        }
    }

    /// The number of paths in the set.
    pub fn len(&self) -> (res: usize)
        ensures
            self@.finite(),
            res == self@.len(),
            res == 1 <==> exists|p: Seq<SegmentView>| self@ == set![p],
    {
        proof {
            use_type_invariant(self);
            self.path_views().unique_seq_to_set();
            vstd::seq_lib::seq_to_set_is_finite(self.path_views());
            let views = self.path_views();
            if views.len() == 1 {
                assert(self@ =~= set![views[0]]);
            }
            if exists|p: Seq<SegmentView>| self@ == set![p] {
                let p = choose|p: Seq<SegmentView>| self@ == set![p];
                if views.len() == 0 {
                    assert(self@.contains(p));
                } else if views.len() >= 2 {
                    assert(self@.contains(views[0]));
                    assert(self@.contains(views[1]));
                    assert(views[0] != views[1]);
                }
            }
        }
        self.paths.len()
    }

    /// Whether the set holds no path.
    pub fn is_empty(&self) -> (res: bool)
        ensures
            res == (self@ == Set::<Seq<SegmentView>>::empty()),
    {
        proof {
            if self.paths@.len() > 0 {
                assert(self@.contains(self.path_views()[0]));
            } else {
                assert(self@ =~= Set::<Seq<SegmentView>>::empty());
            }
        }
        self.paths.len() == 0
    }

    /// Removes every path.
    pub fn clear(&mut self)
        ensures
            final(self)@ == Set::<Seq<SegmentView>>::empty(),
    {
        self.paths = Vec::new();
        proof {
            assert(self.path_views() =~= Seq::<Seq<SegmentView>>::empty());
            assert(self@ =~= Set::<Seq<SegmentView>>::empty());
        }
    }
}

} // verus!
