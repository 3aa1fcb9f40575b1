//! Splitting resolved paths into a watched directory and a comparison tail.
//!
//! A resolved path is watched by opening its top-level directory (the volume
//! designator and the first component) and comparing delivered change-record
//! names against the joined remainder of the path.

use crate::resolve::ResolveError;
use crate::wide::{
    join_units, lemma_components_deep_view, lemma_units_deep_view, spec_join, wide_starts_with,
    WidePath,
};
use vstd::prelude::*;

verus! {

/// A resolved path split for watching: the directory opened, and the
/// remainder joined into one wide string for name comparison.
pub struct StrippedPath {
    pub prefix: WidePath,
    pub tail: Vec<u16>,
}

/// The specification-level shape of a stripped path.
pub struct StrippedShape {
    pub prefix: Seq<Seq<u16>>,
    pub tail: Seq<u16>,
}

impl DeepView for StrippedPath {
    type V = StrippedShape;

    open spec fn deep_view(&self) -> StrippedShape {
        StrippedShape { prefix: self.prefix.deep_view(), tail: self.tail@ }
    }
}

/// How a resolved path splits: its first two components are the directory
/// to open, the joined rest is the tail. A path without a root component
/// cannot be watched.
pub open spec fn spec_strip_path(p: Seq<Seq<u16>>) -> Option<StrippedShape> {
    if p.len() < 2 {
        None
    } else {
        Some(StrippedShape { prefix: p.take(2), tail: spec_join(p.skip(2)) })
    }
}

/// The stripped forms of a resolved path list, unsplittable paths skipped.
pub open spec fn spec_strip_all(rs: Seq<Seq<Seq<u16>>>) -> Seq<StrippedShape>
    decreases rs.len(),
{
    if rs.len() == 0 {
        Seq::<StrippedShape>::empty()
    } else {
        match spec_strip_path(rs[0]) {
            Some(s) => seq![s] + spec_strip_all(rs.skip(1)),
            None => spec_strip_all(rs.skip(1)),
        }
    }
}

/// Indexing the deep view of a stripped list reads the entry's shape.
pub broadcast proof fn lemma_stripped_deep_view(v: Vec<StrippedPath>, k: int)
    requires
        0 <= k < v@.len(),
    ensures
        #[trigger] v.deep_view()[k] == v@[k].deep_view(),
{
}

impl StrippedPath {
    /// An exact copy of this stripped path.
    pub fn clone_stripped(&self) -> (r: StrippedPath)
        ensures
            r.deep_view() == self.deep_view(),
    {
        StrippedPath {
            prefix: self.prefix.clone_path(),
            tail: crate::wide::clone_units(&self.tail),
        }
    }
}

/// Split a resolved path into the directory to watch and the tail to
/// compare change-record names against.
pub fn strip_path(path: &WidePath) -> (r: Result<StrippedPath, ResolveError>)
    ensures
        match r {
            Ok(s) => spec_strip_path(path.deep_view()) == Some(s.deep_view()),
            Err(_) => spec_strip_path(path.deep_view()) is None,
        },
{
    if path.components.len() < 2 {
        return Err(ResolveError::NotAbsolute);
    }
    let prefix = path.take_components(2);
    let tail = join_units(&path.components, 2);
    Ok(StrippedPath { prefix, tail })
}

/// The stripped forms of a resolved path list, in order, unsplittable
/// paths skipped.
pub fn strip_all(resolved: &Vec<WidePath>) -> (r: Vec<StrippedPath>)
    ensures
        r.deep_view() == spec_strip_all(resolved.deep_view()),
{
    broadcast use lemma_units_deep_view, lemma_components_deep_view, lemma_stripped_deep_view;
    broadcast use crate::resolve::lemma_paths_deep_view;

    let n = resolved.len();
    let mut out: Vec<StrippedPath> = Vec::new();
    let mut i: usize = 0;
    proof {
        assert(out.deep_view() =~~= Seq::<StrippedShape>::empty());
        assert(resolved.deep_view().skip(0) =~= resolved.deep_view());
        let r0 = spec_strip_all(resolved.deep_view());
        assert(out.deep_view() + r0 =~= r0);
    }
    while i < n
        invariant
            i <= n,
            n == resolved@.len(),
            spec_strip_all(resolved.deep_view()) == out.deep_view() + spec_strip_all(
                resolved.deep_view().skip(i as int),
            ),
        decreases n - i,
    {
        let ghost rest = resolved.deep_view().skip(i as int);
        proof {
            assert(rest[0] == resolved.deep_view()[i as int]);
            assert(rest.skip(1) =~= resolved.deep_view().skip(i + 1 as int));
        }
        let ghost prev = out;
        match strip_path(&resolved[i]) {
            Ok(s) => {
                out.push(s);
                proof {
                    assert forall|k: int| 0 <= k < out@.len() implies out.deep_view()[k]
                        == (prev.deep_view() + seq![out@[out@.len() - 1].deep_view()])[k] by {
                        lemma_stripped_deep_view(out, k);
                        if k < prev@.len() {
                            lemma_stripped_deep_view(prev, k);
                        }
                    }
                    assert(out.deep_view().len() == prev@.len() + 1);
                    assert(out.deep_view() =~= prev.deep_view() + seq![
                        out@[out@.len() - 1].deep_view(),
                    ]);
                    assert(prev.deep_view() + (seq![out@[out@.len() - 1].deep_view()]
                        + spec_strip_all(rest.skip(1))) =~= out.deep_view() + spec_strip_all(
                        rest.skip(1),
                    ));
                }
            },
            Err(_) => {},
        }
        i = i + 1;
    }
    proof {
        assert(resolved.deep_view().skip(n as int) =~= Seq::<Seq<Seq<u16>>>::empty());
        assert(out.deep_view() + Seq::<StrippedShape>::empty() =~= out.deep_view());
    }
    out
}

/// Whether some delivered name is a prefix of the tail of some stripped
/// path whose watched directory is `prefix`.
pub open spec fn spec_relevant(
    stripped: Seq<StrippedShape>,
    prefix: Seq<Seq<u16>>,
    names: Seq<Seq<u16>>,
) -> bool {
    exists|a: int, b: int|
        0 <= a < stripped.len() && 0 <= b < names.len() && (#[trigger] stripped[a]).prefix
            == prefix && (#[trigger] names[b]).is_prefix_of(stripped[a].tail)
}

/// Decide whether a batch of change-record names concerns any stripped
/// path watched under `prefix`.
pub fn batch_relevant(stripped: &Vec<StrippedPath>, prefix: &WidePath, names: &Vec<Vec<u16>>) -> (r:
    bool)
    ensures
        r <==> spec_relevant(stripped.deep_view(), prefix.deep_view(), names.deep_view()),
{
    broadcast use lemma_units_deep_view, lemma_components_deep_view, lemma_stripped_deep_view;

    let n = stripped.len();
    let m = names.len();
    let mut a: usize = 0;
    while a < n
        invariant
            a <= n,
            n == stripped@.len(),
            m == names@.len(),
            forall|x: int, y: int|
                0 <= x < a && 0 <= y < m ==> !((#[trigger] stripped.deep_view()[x]).prefix
                    == prefix.deep_view() && (#[trigger] names.deep_view()[y]).is_prefix_of(
                    stripped.deep_view()[x].tail,
                )),
        decreases n - a,
    {
        if crate::wide::path_eq(&stripped[a].prefix, prefix) {
            let mut b: usize = 0;
            while b < m
                invariant
                    b <= m,
                    a < n,
                    n == stripped@.len(),
                    m == names@.len(),
                    stripped.deep_view()[a as int].prefix == prefix.deep_view(),
                    forall|y: int|
                        0 <= y < b ==> !(#[trigger] names.deep_view()[y]).is_prefix_of(
                            stripped.deep_view()[a as int].tail,
                        ),
                decreases m - b,
            {
                if wide_starts_with(&stripped[a].tail, &names[b]) {
                    proof {
                        assert(names.deep_view()[b as int] == names@[b as int]@);
                        assert(stripped.deep_view()[a as int].tail == stripped@[a as int].tail@);
                    }
                    return true;
                }
                b = b + 1;
            }
            proof {
                assert(forall|y: int|
                    0 <= y < m ==> !(#[trigger] names.deep_view()[y]).is_prefix_of(
                        stripped.deep_view()[a as int].tail,
                    ));
            }
        }
        a = a + 1;
    }
    false
}

/// Stripping never yields more entries than it was given.
pub proof fn lemma_strip_all_len(rs: Seq<Seq<Seq<u16>>>)
    ensures
        spec_strip_all(rs).len() <= rs.len(),
    decreases rs.len(),
{
    if rs.len() > 0 {
        lemma_strip_all_len(rs.skip(1));
    }
}


} // verus!
