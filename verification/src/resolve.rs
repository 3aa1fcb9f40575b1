//! Recursive resolution of redirecting ancestors.
//!
//! The reparse topology the platform would be queried for is an explicit
//! value here: a finite map from paths to their raw reparse buffers. Every
//! decision the resolver takes is a function of that value, so a caller that
//! queries the platform per candidate path obtains exactly the results
//! stated here for the topology it observed.

use crate::reparse::{decode_reparse, spec_decode_reparse, ReparseShape};
use crate::wide::{
    lemma_components_deep_view, lemma_units_deep_view, normalize, path_eq, spec_normalize,
    spec_split, spec_strip_namespace, strip_namespace, WidePath,
};
use vstd::prelude::*;

verus! {

/// The most redirections one resolution follows before giving up.
pub const MAX_LINK_DEPTH: usize = 63;

/// A resolution failure for one path.
#[derive(PartialEq, Eq, Structural, Debug, Clone, Copy)]
pub enum ResolveError {
    /// The path has no volume designator followed by a root component.
    NotAbsolute,
    /// A reparse buffer along the walk was malformed, or a relative link
    /// stands where no parent directory exists.
    Malformed,
    /// More redirections than `MAX_LINK_DEPTH` were chained.
    DepthExceeded,
}

/// One reparse point: the path that carries it and its raw buffer.
pub struct LinkEntry {
    pub path: WidePath,
    pub data: Vec<u8>,
}

impl DeepView for LinkEntry {
    type V = (Seq<Seq<u16>>, Seq<u8>);

    open spec fn deep_view(&self) -> (Seq<Seq<u16>>, Seq<u8>) {
        (self.path.deep_view(), self.data@)
    }
}

/// The reparse topology: which paths carry which raw reparse buffers.
pub struct FsModel {
    pub links: Vec<LinkEntry>,
}

impl DeepView for FsModel {
    type V = Seq<(Seq<Seq<u16>>, Seq<u8>)>;

    open spec fn deep_view(&self) -> Seq<(Seq<Seq<u16>>, Seq<u8>)> {
        self.links.deep_view()
    }
}

/// Indexing the deep view of an entry list reads the entry's views.
pub broadcast proof fn lemma_entries_deep_view(v: Vec<LinkEntry>, k: int)
    requires
        0 <= k < v@.len(),
    ensures
        #[trigger] v.deep_view()[k] == v@[k].deep_view(),
{
}

/// Indexing the deep view of a path list reads the path's components.
pub broadcast proof fn lemma_paths_deep_view(v: Vec<WidePath>, k: int)
    requires
        0 <= k < v@.len(),
    ensures
        #[trigger] v.deep_view()[k] == v@[k].deep_view(),
{
}

/// The raw reparse buffer attached to `p`, if any.
pub open spec fn lookup_spec(fs: Seq<(Seq<Seq<u16>>, Seq<u8>)>, p: Seq<Seq<u16>>) -> Option<
    Seq<u8>,
>
    decreases fs.len(),
{
    if fs.len() == 0 {
        None
    } else if fs[0].0 == p {
        Some(fs[0].1)
    } else {
        lookup_spec(fs.skip(1), p)
    }
}

/// What the raw reparse buffer at `p` redirects to, independent of any
/// topology: `Ok(None)` for an unrecognized kind, `Err` for a malformed
/// buffer or a relative link at a path without a parent.
pub open spec fn spec_link_target(p: Seq<Seq<u16>>, data: Seq<u8>) -> Result<
    Option<Seq<Seq<u16>>>,
    (),
> {
    match spec_decode_reparse(data) {
        None => Err(()),
        Some(shape) => match shape {
            ReparseShape::Unrecognized => Ok(None),
            ReparseShape::MountPoint { target } => Ok(
                Some(spec_split(spec_strip_namespace(target))),
            ),
            ReparseShape::Symlink { target, relative } => {
                if !relative {
                    Ok(Some(spec_split(spec_strip_namespace(target))))
                } else if p.len() < 2 {
                    Err(())
                } else {
                    Ok(Some(spec_normalize(p.take(p.len() - 1) + spec_split(target))))
                }
            },
        },
    }
}

/// What following the reparse point at `p` yields: `Ok(None)` where `p`
/// carries none (or one of an unrecognized kind), the redirected absolute
/// path where it carries one, `Err` where its buffer is malformed or a
/// relative link stands at a path without a parent.
pub open spec fn spec_resolve_link(
    p: Seq<Seq<u16>>,
    fs: Seq<(Seq<Seq<u16>>, Seq<u8>)>,
) -> Result<Option<Seq<Seq<u16>>>, ()> {
    match lookup_spec(fs, p) {
        None => Ok(None),
        Some(data) => spec_link_target(p, data),
    }
}

/// The first redirection along `p`, scanning partial paths of `from` or
/// more components: the redirected path with `p`'s remaining components
/// appended. A round starts the scan at two components — the volume
/// designator and the top-level directory — and ends at the whole path.
/// Failed lookups do not stop the scan, as a missing ancestor is no error
/// at this stage.
pub open spec fn spec_first_hop(
    p: Seq<Seq<u16>>,
    fs: Seq<(Seq<Seq<u16>>, Seq<u8>)>,
    from: int,
) -> Option<Seq<Seq<u16>>>
    decreases p.len() - from,
{
    if from < 0 || from > p.len() {
        None
    } else {
        match spec_resolve_link(p.take(from), fs) {
            Ok(Some(t)) => Some(t + p.skip(from)),
            _ => {
                if from == p.len() {
                    None
                } else {
                    spec_first_hop(p, fs, from + 1)
                }
            },
        }
    }
}

/// The chain of redirected paths reached from `p`, at most `fuel` long.
pub open spec fn spec_rounds(
    p: Seq<Seq<u16>>,
    fs: Seq<(Seq<Seq<u16>>, Seq<u8>)>,
    fuel: nat,
) -> Result<Seq<Seq<Seq<u16>>>, ResolveError>
    decreases fuel,
{
    match spec_first_hop(p, fs, 2) {
        None => Ok(Seq::<Seq<Seq<u16>>>::empty()),
        Some(next) => {
            if next.len() < 2 {
                Err(ResolveError::NotAbsolute)
            } else if fuel == 0 {
                Err(ResolveError::DepthExceeded)
            } else {
                match spec_rounds(next, fs, (fuel - 1) as nat) {
                    Ok(rest) => Ok(seq![next] + rest),
                    Err(e) => Err(e),
                }
            }
        },
    }
}

/// All paths a watched path currently corresponds to: the path itself first,
/// then one entry per redirection discovered along its ancestry.
pub open spec fn spec_resolve_all(
    p: Seq<Seq<u16>>,
    fs: Seq<(Seq<Seq<u16>>, Seq<u8>)>,
) -> Result<Seq<Seq<Seq<u16>>>, ResolveError> {
    if p.len() < 2 {
        Err(ResolveError::NotAbsolute)
    } else {
        match spec_rounds(p, fs, MAX_LINK_DEPTH as nat) {
            Ok(rest) => Ok(seq![p] + rest),
            Err(e) => Err(e),
        }
    }
}

/// Look up the raw reparse buffer attached to `p`.
pub fn lookup<'a>(fs: &'a FsModel, p: &WidePath) -> (r: Option<&'a Vec<u8>>)
    ensures
        match r {
            Some(d) => lookup_spec(fs.deep_view(), p.deep_view()) == Some(d@),
            None => lookup_spec(fs.deep_view(), p.deep_view()) is None,
        },
{
    broadcast use lemma_units_deep_view, lemma_components_deep_view, lemma_entries_deep_view;

    let n = fs.links.len();
    let mut i: usize = 0;
    proof {
        assert(fs.deep_view().skip(0) =~= fs.deep_view());
    }
    while i < n
        invariant
            i <= n,
            n == fs.links@.len(),
            lookup_spec(fs.deep_view(), p.deep_view()) == lookup_spec(
                fs.deep_view().skip(i as int),
                p.deep_view(),
            ),
        decreases n - i,
    {
        let ghost tail = fs.deep_view().skip(i as int);
        proof {
            assert(tail[0] == fs.deep_view()[i as int]);
            assert(tail.skip(1) =~= fs.deep_view().skip(i + 1 as int));
        }
        if path_eq(&fs.links[i].path, p) {
            return Some(&fs.links[i].data);
        }
        i = i + 1;
    }
    proof {
        assert(fs.deep_view().skip(n as int) =~= Seq::<(Seq<Seq<u16>>, Seq<u8>)>::empty());
    }
    None
}

/// Follow the reparse point at `path`, if the topology holds one.
///
/// A mount point or absolute symbolic link yields its target with the
/// device-namespace prefix stripped; a relative symbolic link yields the
/// lexically normalized join of the link's parent directory and the target.
pub fn resolve_link(path: &WidePath, fs: &FsModel) -> (r: Result<
    Option<WidePath>,
    ResolveError,
>)
    ensures
        match r {
            Ok(None) => spec_resolve_link(path.deep_view(), fs.deep_view()) == Ok::<
                Option<Seq<Seq<u16>>>,
                (),
            >(None),
            Ok(Some(q)) => spec_resolve_link(path.deep_view(), fs.deep_view()) == Ok::<
                Option<Seq<Seq<u16>>>,
                (),
            >(Some(q.deep_view())),
            Err(_) => spec_resolve_link(path.deep_view(), fs.deep_view()) is Err,
        },
{
    broadcast use lemma_units_deep_view, lemma_components_deep_view;

    let data = match lookup(fs, path) {
        None => {
            return Ok(None);
        },
        Some(data) => data,
    };
    link_target_from_buffer(path, data)
}

/// Compute where the reparse buffer read at `path` redirects to.
///
/// A mount point or absolute symbolic link yields its target with the
/// device-namespace prefix stripped; a relative symbolic link yields the
/// lexically normalized join of the link's parent directory and the target.
pub fn link_target_from_buffer(path: &WidePath, data: &Vec<u8>) -> (r: Result<
    Option<WidePath>,
    ResolveError,
>)
    ensures
        match r {
            Ok(None) => spec_link_target(path.deep_view(), data@) == Ok::<
                Option<Seq<Seq<u16>>>,
                (),
            >(None),
            Ok(Some(q)) => spec_link_target(path.deep_view(), data@) == Ok::<
                Option<Seq<Seq<u16>>>,
                (),
            >(Some(q.deep_view())),
            Err(_) => spec_link_target(path.deep_view(), data@) is Err,
        },
{
    match decode_reparse(data) {
        Err(_) => Err(ResolveError::Malformed),
        Ok(crate::reparse::ReparseTarget::Unrecognized) => Ok(None),
        Ok(crate::reparse::ReparseTarget::MountPoint { target }) => {
            let stripped = strip_namespace(&target);
            Ok(Some(WidePath::parse(&stripped)))
        },
        Ok(crate::reparse::ReparseTarget::Symlink { target, relative }) => {
            if !relative {
                let stripped = strip_namespace(&target);
                Ok(Some(WidePath::parse(&stripped)))
            } else if path.components.len() < 2 {
                Err(ResolveError::Malformed)
            } else {
                let parent = path.take_components(path.components.len() - 1);
                let tpath = WidePath::parse(&target);
                let joined = parent.append_from(&tpath, 0);
                proof {
                    assert(tpath.deep_view().skip(0) =~= tpath.deep_view());
                }
                Ok(Some(normalize(&joined.components)))
            }
        },
    }
}

/// The first redirection along `current`, with the remaining components
/// appended to its target.
fn first_hop(current: &WidePath, fs: &FsModel) -> (r: Option<WidePath>)
    ensures
        match r {
            Some(q) => spec_first_hop(current.deep_view(), fs.deep_view(), 2) == Some(
                q.deep_view(),
            ),
            None => spec_first_hop(current.deep_view(), fs.deep_view(), 2) is None,
        },
{
    let clen = current.components.len();
    if clen < 2 {
        return None;
    }
    let mut from: usize = 2;
    loop
        invariant
            2 <= from <= clen,
            clen == current.deep_view().len(),
            spec_first_hop(current.deep_view(), fs.deep_view(), 2) == spec_first_hop(
                current.deep_view(),
                fs.deep_view(),
                from as int,
            ),
        decreases clen - from,
    {
        let partial = current.take_components(from);
        match resolve_link(&partial, fs) {
            Ok(Some(t)) => {
                let hop = t.append_from(current, from);
                return Some(hop);
            },
            _ => {},
        }
        if from == clen {
            return None;
        }
        from = from + 1;
    }
}

impl WidePath {
    /// Whether the path has a volume designator and a root component.
    pub fn is_absolute(&self) -> (r: bool)
        ensures
            r <==> self.deep_view().len() >= 2,
    {
        self.components.len() >= 2
    }
}

/// Returns all links and targets for a given path, including any of its
/// parent directories: the path itself first, then one entry per
/// redirection discovered, each redirection continuing the walk at its
/// target. At most `MAX_LINK_DEPTH` redirections are followed.
pub fn resolve_all_links(path: &WidePath, fs: &FsModel) -> (r: Result<Vec<WidePath>, ResolveError>)
    ensures
        match r {
            Ok(v) => spec_resolve_all(path.deep_view(), fs.deep_view()) == Ok::<
                Seq<Seq<Seq<u16>>>,
                ResolveError,
            >(v.deep_view()),
            Err(e) => spec_resolve_all(path.deep_view(), fs.deep_view()) == Err::<
                Seq<Seq<Seq<u16>>>,
                ResolveError,
            >(e),
        },
        r is Ok ==> r->Ok_0.deep_view().len() >= 1 && r->Ok_0.deep_view()[0]
            == path.deep_view(),
        path.deep_view().len() >= 2 && spec_first_hop(path.deep_view(), fs.deep_view(), 2)
            is None ==> r is Ok && r->Ok_0.deep_view() =~= seq![path.deep_view()],
{
    broadcast use lemma_units_deep_view, lemma_components_deep_view, lemma_paths_deep_view;

    if !path.is_absolute() {
        return Err(ResolveError::NotAbsolute);
    }
    let mut results: Vec<WidePath> = Vec::new();
    results.push(path.clone_path());
    let mut current: WidePath = path.clone_path();
    let mut fuel: usize = MAX_LINK_DEPTH;
    proof {
        assert(results.deep_view() =~= seq![path.deep_view()]);
    }
    loop
        invariant
            current.deep_view().len() >= 2,
            results@.len() >= 1,
            results.deep_view()[0] == path.deep_view(),
            path.deep_view().len() >= 2,
            fuel <= MAX_LINK_DEPTH,
            spec_resolve_all(path.deep_view(), fs.deep_view()) == (match spec_rounds(
                current.deep_view(),
                fs.deep_view(),
                fuel as nat,
            ) {
                Ok(rest) => Ok::<Seq<Seq<Seq<u16>>>, ResolveError>(results.deep_view() + rest),
                Err(e) => Err::<Seq<Seq<Seq<u16>>>, ResolveError>(e),
            }),
            fuel == MAX_LINK_DEPTH ==> current.deep_view() == path.deep_view()
                && results.deep_view() =~= seq![path.deep_view()],
        decreases fuel,
    {
        match first_hop(&current, fs) {
            None => {
                proof {
                    assert(spec_rounds(current.deep_view(), fs.deep_view(), fuel as nat) == Ok::<
                        Seq<Seq<Seq<u16>>>,
                        ResolveError,
                    >(Seq::<Seq<Seq<u16>>>::empty()));
                    assert(results.deep_view() + Seq::<Seq<Seq<u16>>>::empty()
                        =~= results.deep_view());
                }
                return Ok(results);
            },
            Some(next) => {
                if !next.is_absolute() {
                    return Err(ResolveError::NotAbsolute);
                }
                if fuel == 0 {
                    return Err(ResolveError::DepthExceeded);
                }
                let ghost prev_results = results;
                results.push(next.clone_path());
                proof {
                    assert forall|k: int| 0 <= k < results@.len() implies results.deep_view()[k]
                        == (prev_results.deep_view() + seq![next.deep_view()])[k] by {
                        lemma_paths_deep_view(results, k);
                        if k < prev_results@.len() {
                            lemma_paths_deep_view(prev_results, k);
                        }
                    }
                    assert(results.deep_view().len() == prev_results@.len() + 1);
                    assert(results.deep_view() =~= prev_results.deep_view() + seq![
                        next.deep_view(),
                    ]);
                    let rounds_next = spec_rounds(
                        next.deep_view(),
                        fs.deep_view(),
                        (fuel - 1) as nat,
                    );
                    if rounds_next is Ok {
                        assert(results.deep_view() + rounds_next->Ok_0
                            =~= prev_results.deep_view() + (seq![next.deep_view()]
                            + rounds_next->Ok_0));
                    }
                }
                current = next;
                fuel = fuel - 1;
            },
        }
    }
}

/// Whether `q` is among the resolutions of the first `upto` paths that
/// resolve successfully.
pub open spec fn spec_multi_member(
    q: Seq<Seq<u16>>,
    paths: Seq<Seq<Seq<u16>>>,
    fs: Seq<(Seq<Seq<u16>>, Seq<u8>)>,
    upto: int,
) -> bool {
    exists|k: int|
        0 <= k < upto && spec_resolve_all(#[trigger] paths[k], fs) is Ok && spec_resolve_all(
            paths[k],
            fs,
        )->Ok_0.contains(q)
}

/// Whether some path of `v` has the given components.
pub fn contains_path(v: &Vec<WidePath>, q: &WidePath) -> (r: bool)
    ensures
        r <==> v.deep_view().contains(q.deep_view()),
{
    broadcast use lemma_paths_deep_view;

    let n = v.len();
    let mut i: usize = 0;
    while i < n
        invariant
            i <= n,
            n == v@.len(),
            forall|k: int| 0 <= k < i ==> v.deep_view()[k] != q.deep_view(),
        decreases n - i,
    {
        if path_eq(&v[i], q) {
            proof {
                assert(v.deep_view()[i as int] == q.deep_view());
            }
            return true;
        }
        i = i + 1;
    }
    proof {
        assert(forall|k: int| 0 <= k < v.deep_view().len() ==> v.deep_view()[k] != q.deep_view());
    }
    false
}

/// The same as `resolve_all_links` but for a set of paths, with best-effort
/// semantics: a path whose resolution fails is skipped, every other path
/// still contributes all of its resolutions. The result holds each path
/// once.
pub fn resolve_all_links_multiple(paths: &Vec<WidePath>, fs: &FsModel) -> (r: Vec<WidePath>)
    ensures
        forall|q: Seq<Seq<u16>>|
            #[trigger] r.deep_view().contains(q) <==> spec_multi_member(
                q,
                paths.deep_view(),
                fs.deep_view(),
                paths.deep_view().len() as int,
            ),
        forall|a: int, b: int|
            0 <= a < b < r.deep_view().len() ==> r.deep_view()[a] != r.deep_view()[b],
{
    broadcast use lemma_paths_deep_view;

    let n = paths.len();
    let mut out: Vec<WidePath> = Vec::new();
    let mut i: usize = 0;
    while i < n
        invariant
            i <= n,
            n == paths@.len(),
            forall|q: Seq<Seq<u16>>|
                #[trigger] out.deep_view().contains(q) <==> spec_multi_member(
                    q,
                    paths.deep_view(),
                    fs.deep_view(),
                    i as int,
                ),
            forall|a: int, b: int|
                0 <= a < b < out.deep_view().len() ==> out.deep_view()[a] != out.deep_view()[b],
        decreases n - i,
    {
        let ghost pdv = paths.deep_view();
        let ghost fsdv = fs.deep_view();
        proof {
            assert(pdv[i as int] == paths@[i as int].deep_view());
        }
        match resolve_all_links(&paths[i], fs) {
            Ok(v) => {
                let m = v.len();
                let mut j: usize = 0;
                while j < m
                    invariant
                        j <= m,
                        i < n,
                        n == paths@.len(),
                        m == v@.len(),
                        pdv == paths.deep_view(),
                        fsdv == fs.deep_view(),
                        spec_resolve_all(pdv[i as int], fsdv) == Ok::<
                            Seq<Seq<Seq<u16>>>,
                            ResolveError,
                        >(v.deep_view()),
                        forall|q: Seq<Seq<u16>>|
                            #[trigger] out.deep_view().contains(q) <==> (spec_multi_member(
                                q,
                                pdv,
                                fsdv,
                                i as int,
                            ) || v.deep_view().take(j as int).contains(q)),
                        forall|a: int, b: int|
                            0 <= a < b < out.deep_view().len() ==> out.deep_view()[a]
                                != out.deep_view()[b],
                    decreases m - j,
                {
                    let ghost out_before = out;
                    let was_new = !contains_path(&out, &v[j]);
                    proof {
                        assert(v.deep_view()[j as int] == v@[j as int].deep_view());
                    }
                    if was_new {
                        out.push(v[j].clone_path());
                        proof {
                            assert forall|k: int| 0 <= k < out@.len() implies out.deep_view()[k]
                                == (out_before.deep_view() + seq![v.deep_view()[j as int]])[k] by {
                                lemma_paths_deep_view(out, k);
                                if k < out_before@.len() {
                                    lemma_paths_deep_view(out_before, k);
                                }
                            }
                            assert(out.deep_view().len() == out_before@.len() + 1);
                            assert(out.deep_view() =~= out_before.deep_view() + seq![
                                v.deep_view()[j as int],
                            ]);
                        }
                    }
                    proof {
                        let x = v.deep_view()[j as int];
                        let t1 = v.deep_view().take(j + 1 as int);
                        let t0 = v.deep_view().take(j as int);
                        assert(t1 =~= t0.push(x));
                        assert(t1[j as int] == x);
                        assert(t1.contains(x));
                        assert forall|q: Seq<Seq<u16>>| #[trigger] t0.contains(q) implies
                            t1.contains(q) by {
                            let w = choose|w: int| 0 <= w < t0.len() && #[trigger] t0[w] == q;
                            assert(t1[w] == q);
                        }
                        assert forall|q: Seq<Seq<u16>>| #[trigger]
                            out.deep_view().contains(q) implies (spec_multi_member(
                            q,
                            pdv,
                            fsdv,
                            i as int,
                        ) || t1.contains(q)) by {
                            let w = choose|w: int|
                                0 <= w < out.deep_view().len() && #[trigger] out.deep_view()[w]
                                    == q;
                            if was_new {
                                if w < out_before.deep_view().len() {
                                    assert(out_before.deep_view()[w] == q);
                                    assert(out_before.deep_view().contains(q));
                                } else {
                                    assert(q == x);
                                }
                            } else {
                                assert(out_before.deep_view().contains(q));
                            }
                        }
                        assert forall|q: Seq<Seq<u16>>|
                            (spec_multi_member(q, pdv, fsdv, i as int) || t1.contains(
                                q,
                            )) implies #[trigger] out.deep_view().contains(q) by {
                            let prior = spec_multi_member(q, pdv, fsdv, i as int)
                                || t0.contains(q);
                            if prior {
                                assert(out_before.deep_view().contains(q));
                                let w = choose|w: int|
                                    0 <= w < out_before.deep_view().len() && #[trigger]
                                    out_before.deep_view()[w] == q;
                                assert(out.deep_view()[w] == q);
                            } else {
                                let w = choose|w: int|
                                    0 <= w < t1.len() && #[trigger] t1[w] == q;
                                assert(w == j);
                                assert(q == x);
                                if was_new {
                                    assert(out.deep_view()[out.deep_view().len() - 1] == x);
                                } else {
                                    assert(out_before.deep_view().contains(x));
                                    let w2 = choose|w2: int|
                                        0 <= w2 < out_before.deep_view().len() && #[trigger]
                                        out_before.deep_view()[w2] == x;
                                    assert(out.deep_view()[w2] == x);
                                }
                            }
                        }
                    }
                    j = j + 1;
                }
                proof {
                    assert(v.deep_view().take(m as int) =~= v.deep_view());
                    assert forall|q: Seq<Seq<u16>>| #[trigger]
                        out.deep_view().contains(q) implies spec_multi_member(
                        q,
                        pdv,
                        fsdv,
                        i + 1 as int,
                    ) by {
                        if v.deep_view().contains(q) {
                            assert(spec_resolve_all(pdv[i as int], fsdv) is Ok
                                && spec_resolve_all(pdv[i as int], fsdv)->Ok_0.contains(q));
                        } else {
                            let k = choose|k: int|
                                0 <= k < i && spec_resolve_all(#[trigger] pdv[k], fsdv) is Ok
                                    && spec_resolve_all(pdv[k], fsdv)->Ok_0.contains(q);
                            assert(spec_resolve_all(pdv[k], fsdv) is Ok);
                        }
                    }
                    assert forall|q: Seq<Seq<u16>>|
                        spec_multi_member(q, pdv, fsdv, i + 1 as int) implies #[trigger]
                    out.deep_view().contains(q) by {
                        let k = choose|k: int|
                            0 <= k < i + 1 && spec_resolve_all(#[trigger] pdv[k], fsdv) is Ok
                                && spec_resolve_all(pdv[k], fsdv)->Ok_0.contains(q);
                        if k < i {
                            assert(spec_multi_member(q, pdv, fsdv, i as int));
                        } else {
                            assert(v.deep_view().contains(q));
                        }
                    }
                }
            },
            Err(_) => {
                proof {
                    assert forall|q: Seq<Seq<u16>>| #[trigger]
                        out.deep_view().contains(q) implies spec_multi_member(
                        q,
                        pdv,
                        fsdv,
                        i + 1 as int,
                    ) by {
                        let k = choose|k: int|
                            0 <= k < i && spec_resolve_all(#[trigger] pdv[k], fsdv) is Ok
                                && spec_resolve_all(pdv[k], fsdv)->Ok_0.contains(q);
                        assert(spec_resolve_all(pdv[k], fsdv) is Ok);
                    }
                    assert forall|q: Seq<Seq<u16>>|
                        spec_multi_member(q, pdv, fsdv, i + 1 as int) implies #[trigger]
                    out.deep_view().contains(q) by {
                        let k = choose|k: int|
                            0 <= k < i + 1 && spec_resolve_all(#[trigger] pdv[k], fsdv) is Ok
                                && spec_resolve_all(pdv[k], fsdv)->Ok_0.contains(q);
                        assert(k < i);
                        assert(spec_multi_member(q, pdv, fsdv, i as int));
                    }
                }
            },
        }
        i = i + 1;
    }
    out
}


/// An exact copy of a path list.
pub fn clone_paths(v: &Vec<WidePath>) -> (r: Vec<WidePath>)
    ensures
        r.deep_view() == v.deep_view(),
{
    broadcast use lemma_paths_deep_view;

    let n = v.len();
    let mut r: Vec<WidePath> = Vec::new();
    let mut i: usize = 0;
    while i < n
        invariant
            i <= n,
            n == v@.len(),
            r@.len() == i,
            forall|k: int| 0 <= k < i ==> r.deep_view()[k] == v.deep_view()[k],
        decreases n - i,
    {
        let ghost prev = r;
        r.push(v[i].clone_path());
        proof {
            assert forall|k: int| 0 <= k < i + 1 implies r.deep_view()[k] == v.deep_view()[k] by {
                lemma_paths_deep_view(r, k);
                if k < i {
                    lemma_paths_deep_view(prev, k);
                    assert(prev.deep_view()[k] == v.deep_view()[k]);
                }
            }
        }
        i = i + 1;
    }
    proof {
        assert(r.deep_view() =~= v.deep_view());
    }
    r
}


/// Where an incremental resolution stands.
pub enum WalkPhase {
    /// The next partial path must be queried for a reparse point.
    Scanning,
    /// The walk found no further redirection; the results are complete.
    Done,
    /// The walk failed; no results are returned.
    Failed(ResolveError),
}

/// An incremental run of `resolve_all_links` for callers whose reparse
/// topology is queried one path at a time: `query` names the next partial
/// path to ask about, `feed` takes what the query returned (the redirected
/// path, or nothing), and `finish` yields what the batch resolver would.
/// Each transition mirrors one step of `spec_first_hop` and `spec_rounds`.
pub struct LinkWalk {
    pub results: Vec<WidePath>,
    pub current: WidePath,
    pub scan_len: usize,
    pub rounds_left: usize,
    pub phase: WalkPhase,
}

impl LinkWalk {
    /// The walk's governing invariant while scanning.
    pub open spec fn wf(&self) -> bool {
        &&& self.phase is Scanning ==> 2 <= self.scan_len <= self.current.deep_view().len()
        &&& self.phase is Scanning ==> self.results@.len() >= 1
    }

    /// Begin resolving one path: the path itself is the first result.
    pub fn start(path: &WidePath) -> (r: LinkWalk)
        ensures
            r.wf(),
            path.deep_view().len() < 2 ==> r.phase == WalkPhase::Failed(ResolveError::NotAbsolute),
            path.deep_view().len() >= 2 ==> {
                &&& r.results.deep_view() =~= seq![path.deep_view()]
                &&& r.current.deep_view() == path.deep_view()
                &&& r.rounds_left == MAX_LINK_DEPTH
                &&& r.scan_len == 2
                &&& r.phase == WalkPhase::Scanning
            },
    {
        broadcast use lemma_paths_deep_view;

        if !path.is_absolute() {
            return LinkWalk {
                results: Vec::new(),
                current: path.clone_path(),
                scan_len: 2,
                rounds_left: MAX_LINK_DEPTH,
                phase: WalkPhase::Failed(ResolveError::NotAbsolute),
            };
        }
        let mut results: Vec<WidePath> = Vec::new();
        results.push(path.clone_path());
        LinkWalk {
            results,
            current: path.clone_path(),
            scan_len: 2,
            rounds_left: MAX_LINK_DEPTH,
            phase: WalkPhase::Scanning,
        }
    }

    /// The partial path whose reparse point must be queried next, if any.
    pub fn query(&self) -> (r: Option<WidePath>)
        requires
            self.wf(),
        ensures
            match r {
                Some(q) => self.phase is Scanning && q.deep_view() == self.current.deep_view().take(
                    self.scan_len as int,
                ),
                None => !(self.phase is Scanning),
            },
    {
        match self.phase {
            WalkPhase::Scanning => Some(self.current.take_components(self.scan_len)),
            _ => None,
        }
    }

    /// Install what the query returned. A failed query is fed as `None`: a
    /// missing ancestor is no error at this stage, the scan moves on.
    pub fn feed(&mut self, answer: Option<&WidePath>)
        requires
            old(self).wf(),
            old(self).phase is Scanning,
        ensures
            final (self).wf(),
            match answer {
                None => {
                    &&& final (self).results == old(self).results
                    &&& final (self).current == old(self).current
                    &&& final (self).rounds_left == old(self).rounds_left
                    &&& (old(self).scan_len == old(self).current.deep_view().len() ==> final (self).phase == WalkPhase::Done)
                    &&& (old(self).scan_len < old(self).current.deep_view().len() ==> final (self).phase == WalkPhase::Scanning && final (self).scan_len == old(self).scan_len
                        + 1)
                },
                Some(t) => {
                    let next = t.deep_view() + old(self).current.deep_view().skip(
                        old(self).scan_len as int,
                    );
                    if next.len() < 2 {
                        final (self).phase == WalkPhase::Failed(ResolveError::NotAbsolute)
                    } else if old(self).rounds_left == 0 {
                        final (self).phase == WalkPhase::Failed(ResolveError::DepthExceeded)
                    } else {
                        &&& final (self).results.deep_view() =~= old(self).results.deep_view()
                            + seq![next]
                        &&& final (self).current.deep_view() == next
                        &&& final (self).rounds_left == old(self).rounds_left - 1
                        &&& final (self).scan_len == 2
                        &&& final (self).phase == WalkPhase::Scanning
                    }
                },
            },
    {
        broadcast use lemma_paths_deep_view;

        match answer {
            None => {
                if self.scan_len == self.current.components.len() {
                    self.phase = WalkPhase::Done;
                } else {
                    self.scan_len = self.scan_len + 1;
                }
            },
            Some(t) => {
                let next = t.append_from(&self.current, self.scan_len);
                if !next.is_absolute() {
                    self.phase = WalkPhase::Failed(ResolveError::NotAbsolute);
                } else if self.rounds_left == 0 {
                    self.phase = WalkPhase::Failed(ResolveError::DepthExceeded);
                } else {
                    let ghost prev = self.results;
                    self.results.push(next.clone_path());
                    proof {
                        assert forall|k: int| 0 <= k < self.results@.len() implies
                            self.results.deep_view()[k] == (prev.deep_view() + seq![
                            next.deep_view(),
                        ])[k] by {
                            lemma_paths_deep_view(self.results, k);
                            if k < prev@.len() {
                                lemma_paths_deep_view(prev, k);
                            }
                        }
                        assert(self.results.deep_view().len() == prev@.len() + 1);
                        assert(self.results.deep_view() =~= prev.deep_view() + seq![
                            next.deep_view(),
                        ]);
                    }
                    self.phase = WalkPhase::Scanning;
                    self.rounds_left = self.rounds_left - 1;
                    self.scan_len = 2;
                    self.current = next;
                }
            },
        }
    }

    /// The finished walk's outcome: every reached path, or the failure.
    pub fn finish(self) -> (r: Result<Vec<WidePath>, ResolveError>)
        requires
            !(self.phase is Scanning),
        ensures
            self.phase is Done ==> r == Ok::<Vec<WidePath>, ResolveError>(self.results),
            self.phase matches WalkPhase::Failed(e) ==> r == Err::<Vec<WidePath>, ResolveError>(
                e,
            ),
    {
        match self.phase {
            WalkPhase::Done => Ok(self.results),
            WalkPhase::Failed(e) => Err(e),
            WalkPhase::Scanning => {
                // Excluded by the caller's obligation above.
                proof {
                    assert(false);
                }
                Err(ResolveError::NotAbsolute)
            },
        }
    }
}


} // verus!
