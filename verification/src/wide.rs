//! Absolute paths as sequences of UTF-16 components.
//!
//! Paths delivered by the platform (reparse targets, watched paths, change
//! records) are wide strings separated by backslashes. The library models
//! them as a vector of components, the first being the volume designator.

use vstd::prelude::*;

verus! {

/// The path separator, `\`.
pub const SEPARATOR: u16 = 92;

/// The unit for `.`.
pub const DOT: u16 = 46;

/// A wide string's deep view and its plain view agree.
pub broadcast proof fn lemma_units_deep_view(v: Vec<u16>)
    ensures
        #[trigger] v.deep_view() == v@,
{
    assert(v.deep_view() =~= v@);
}

/// Indexing the deep view of a component list reads the component's units.
pub broadcast proof fn lemma_components_deep_view(v: Vec<Vec<u16>>, k: int)
    requires
        0 <= k < v@.len(),
    ensures
        #[trigger] v.deep_view()[k] == v@[k]@,
{
    assert(v.deep_view()[k] == v@[k].deep_view());
    assert(v@[k].deep_view() =~= v@[k]@);
}

/// An absolute path, split into UTF-16 components.
///
/// `components[0]` is the volume designator (for instance `C:`); the
/// remaining components are directory and file names.
pub struct WidePath {
    pub components: Vec<Vec<u16>>,
}

impl DeepView for WidePath {
    type V = Seq<Seq<u16>>;

    open spec fn deep_view(&self) -> Seq<Seq<u16>> {
        self.components.deep_view()
    }
}

/// Splitting a wide string on separators, skipping empty segments:
/// the segments collected so far are `acc`, the segment being read is `cur`.
pub open spec fn split_from(s: Seq<u16>, i: int, cur: Seq<u16>, acc: Seq<Seq<u16>>) -> Seq<
    Seq<u16>,
>
    decreases s.len() - i,
{
    if i < 0 || i >= s.len() {
        if cur.len() > 0 {
            acc.push(cur)
        } else {
            acc
        }
    } else if s[i] == SEPARATOR {
        if cur.len() > 0 {
            split_from(s, i + 1, Seq::<u16>::empty(), acc.push(cur))
        } else {
            split_from(s, i + 1, Seq::<u16>::empty(), acc)
        }
    } else {
        split_from(s, i + 1, cur.push(s[i]), acc)
    }
}

/// The components of a wide string: its non-empty backslash-separated segments.
pub open spec fn spec_split(s: Seq<u16>) -> Seq<Seq<u16>> {
    split_from(s, 0, Seq::<u16>::empty(), Seq::<Seq<u16>>::empty())
}

/// Joining components with single backslashes.
pub open spec fn spec_join(cs: Seq<Seq<u16>>) -> Seq<u16>
    decreases cs.len(),
{
    if cs.len() == 0 {
        Seq::<u16>::empty()
    } else if cs.len() == 1 {
        cs[0]
    } else {
        cs[0] + seq![SEPARATOR] + spec_join(cs.skip(1))
    }
}

/// Joining distributes over extending the component list on the right.
pub proof fn lemma_join_push(cs: Seq<Seq<u16>>, c: Seq<u16>)
    ensures
        spec_join(cs.push(c)) == if cs.len() == 0 {
            c
        } else {
            spec_join(cs) + seq![SEPARATOR] + c
        },
    decreases cs.len(),
{
    if cs.len() == 0 {
        assert(cs.push(c)[0] == c);
        assert(cs.push(c).len() == 1);
        assert(spec_join(cs.push(c)) == c);
    } else if cs.len() == 1 {
        assert(cs.push(c)[0] == cs[0]);
        assert(cs.push(c).skip(1) =~= seq![c]);
        assert(seq![c].len() == 1 && seq![c][0] == c);
        assert(spec_join(seq![c]) == c);
        assert(spec_join(cs.push(c)) == cs[0] + seq![SEPARATOR] + c);
        assert(spec_join(cs) == cs[0]);
    } else {
        assert(cs.push(c)[0] == cs[0]);
        assert(cs.push(c).skip(1) =~= cs.skip(1).push(c));
        lemma_join_push(cs.skip(1), c);
        assert(spec_join(cs.push(c)) == cs[0] + seq![SEPARATOR] + spec_join(cs.skip(1).push(c)));
        assert(spec_join(cs.push(c)) =~= spec_join(cs) + seq![SEPARATOR] + c);
    }
}

/// The device-namespace prefix `\??\` (or a bare `\??`) removed.
pub open spec fn spec_strip_namespace(s: Seq<u16>) -> Seq<u16> {
    if s.len() >= 4 && s[0] == SEPARATOR && s[1] == 63 && s[2] == 63 && s[3] == SEPARATOR {
        s.skip(4)
    } else if s.len() == 3 && s[0] == SEPARATOR && s[1] == 63 && s[2] == 63 {
        Seq::<u16>::empty()
    } else {
        s
    }
}

pub open spec fn is_dot(c: Seq<u16>) -> bool {
    c =~= seq![DOT]
}

pub open spec fn is_dot_dot(c: Seq<u16>) -> bool {
    c =~= seq![DOT, DOT]
}

/// Lexical normalization: `.` components vanish, `..` removes the previous
/// component but never the leading volume designator.
pub open spec fn norm_from(acc: Seq<Seq<u16>>, rest: Seq<Seq<u16>>) -> Seq<Seq<u16>>
    decreases rest.len(),
{
    if rest.len() == 0 {
        acc
    } else if is_dot(rest[0]) {
        norm_from(acc, rest.skip(1))
    } else if is_dot_dot(rest[0]) {
        norm_from(
            if acc.len() > 1 {
                acc.drop_last()
            } else {
                acc
            },
            rest.skip(1),
        )
    } else {
        norm_from(acc.push(rest[0]), rest.skip(1))
    }
}

pub open spec fn spec_normalize(cs: Seq<Seq<u16>>) -> Seq<Seq<u16>> {
    norm_from(cs.take(1), cs.skip(1))
}

/// Wide strings are equal exactly when their unit sequences are.
pub fn wide_eq(a: &Vec<u16>, b: &Vec<u16>) -> (r: bool)
    ensures
        r <==> a@ == b@,
{
    broadcast use lemma_units_deep_view, lemma_components_deep_view;
    if a.len() != b.len() {
        return false;
    }
    let n = a.len();
    let mut i: usize = 0;
    while i < n
        invariant
            i <= n,
            n == a.len() == b.len(),
            forall|j: int| 0 <= j < i ==> a@[j] == b@[j],
        decreases n - i,
    {
        if a[i] != b[i] {
            return false;
        }
        i = i + 1;
    }
    proof {
        assert(a@ =~= b@);
    }
    true
}

/// Whether `name` is a prefix of `tail`, unit for unit.
pub fn wide_starts_with(tail: &Vec<u16>, name: &Vec<u16>) -> (r: bool)
    ensures
        r <==> name@.is_prefix_of(tail@),
{
    broadcast use lemma_units_deep_view, lemma_components_deep_view;
    if name.len() > tail.len() {
        return false;
    }
    let n = name.len();
    let mut i: usize = 0;
    while i < n
        invariant
            i <= n,
            n == name.len(),
            n <= tail.len(),
            forall|j: int| 0 <= j < i ==> tail@[j] == name@[j],
        decreases n - i,
    {
        if tail[i] != name[i] {
            proof {
                assert(!name@.is_prefix_of(tail@)) by {
                    assert(tail@.subrange(0, n as int)[i as int] != name@[i as int]);
                }
            }
            return false;
        }
        i = i + 1;
    }
    proof {
        assert(tail@.subrange(0, n as int) =~= name@);
    }
    true
}

/// An exact copy of a wide string.
pub fn clone_units(v: &Vec<u16>) -> (r: Vec<u16>)
    ensures
        r@ == v@,
{
    broadcast use lemma_units_deep_view, lemma_components_deep_view;
    let mut r: Vec<u16> = Vec::new();
    let n = v.len();
    let mut i: usize = 0;
    while i < n
        invariant
            i <= n,
            n == v.len(),
            r@ =~= v@.take(i as int),
        decreases n - i,
    {
        r.push(v[i]);
        proof {
            assert(r@ =~= v@.take(i + 1 as int));
        }
        i = i + 1;
    }
    proof {
        assert(v@.take(n as int) =~= v@);
    }
    r
}

impl WidePath {
    /// An exact copy of this path.
    pub fn clone_path(&self) -> (r: WidePath)
        ensures
            r.deep_view() == self.deep_view(),
    {
        broadcast use lemma_units_deep_view, lemma_components_deep_view;
        let mut components: Vec<Vec<u16>> = Vec::new();
        let n = self.components.len();
        let mut i: usize = 0;
        while i < n
            invariant
                i <= n,
                n == self.components.len(),
                components.deep_view() =~~= self.deep_view().take(i as int),
            decreases n - i,
        {
            let ghost prev_vec = components;
            components.push(clone_units(&self.components[i]));
            proof {
                assert(prev_vec.deep_view().len() == prev_vec@.len());
                assert(prev_vec@.len() == i);
                assert(components@.len() == i + 1);
                assert forall|k: int| 0 <= k < i + 1 implies components.deep_view()[k]
                    == self.deep_view().take(i + 1 as int)[k] by {
                    lemma_components_deep_view(components, k);
                    lemma_components_deep_view(self.components, k);
                    if k < i {
                        lemma_components_deep_view(prev_vec, k);
                        assert(prev_vec.deep_view()[k] == self.deep_view().take(i as int)[k]);
                    }
                }
                assert(components.deep_view() =~= self.deep_view().take(i + 1 as int));
            }
            i = i + 1;
        }
        proof {
            assert(self.deep_view().take(n as int) =~~= self.deep_view());
        }
        WidePath { components }
    }

    /// Parse a wide string into its components, empty segments skipped.
    pub fn parse(units: &Vec<u16>) -> (r: WidePath)
        ensures
            r.deep_view() == spec_split(units@),
    {
        broadcast use lemma_units_deep_view, lemma_components_deep_view;
        let n = units.len();
        let mut acc: Vec<Vec<u16>> = Vec::new();
        let mut cur: Vec<u16> = Vec::new();
        let mut i: usize = 0;
        proof {
            assert(acc.deep_view() =~~= Seq::<Seq<u16>>::empty());
            assert(cur@ =~= Seq::<u16>::empty());
        }
        while i < n
            invariant
                i <= n,
                n == units.len(),
                spec_split(units@) == split_from(units@, i as int, cur@, acc.deep_view()),
            decreases n - i,
        {
            let ghost prev_cur = cur@;
            let ghost prev_acc = acc.deep_view();
            if units[i] == SEPARATOR {
                if cur.len() > 0 {
                    let done = cur;
                    cur = Vec::new();
                    acc.push(done);
                    proof {
                        assert(acc.deep_view() =~~= prev_acc.push(prev_cur));
                        assert(cur@ =~= Seq::<u16>::empty());
                    }
                } else {
                    proof {
                        assert(cur@ =~= Seq::<u16>::empty());
                    }
                }
            } else {
                cur.push(units[i]);
                proof {
                    assert(cur@ =~= prev_cur.push(units@[i as int]));
                }
            }
            i = i + 1;
        }
        let ghost prev_cur = cur@;
        let ghost prev_acc = acc.deep_view();
        if cur.len() > 0 {
            acc.push(cur);
            proof {
                assert(acc.deep_view() =~~= prev_acc.push(prev_cur));
            }
        }
        WidePath { components: acc }
    }

    /// The components joined back into one wide string.
    pub fn to_units(&self) -> (r: Vec<u16>)
        ensures
            r@ == spec_join(self.deep_view()),
    {
        broadcast use lemma_units_deep_view, lemma_components_deep_view;
        let r = join_units(&self.components, 0);
        proof {
            assert(self.components.deep_view().skip(0) =~~= self.deep_view());
        }
        r
    }

    /// The first `n` components.
    pub fn take_components(&self, n: usize) -> (r: WidePath)
        requires
            n <= self.components.len(),
        ensures
            r.deep_view() == self.deep_view().take(n as int),
    {
        broadcast use lemma_units_deep_view, lemma_components_deep_view;
        let mut components: Vec<Vec<u16>> = Vec::new();
        let mut i: usize = 0;
        while i < n
            invariant
                i <= n,
                n <= self.components.len(),
                components.deep_view() =~~= self.deep_view().take(i as int),
            decreases n - i,
        {
            let ghost prev_vec = components;
            components.push(clone_units(&self.components[i]));
            proof {
                assert(prev_vec.deep_view().len() == prev_vec@.len());
                assert(prev_vec@.len() == i);
                assert(components@.len() == i + 1);
                assert forall|k: int| 0 <= k < i + 1 implies components.deep_view()[k]
                    == self.deep_view().take(i + 1 as int)[k] by {
                    lemma_components_deep_view(components, k);
                    lemma_components_deep_view(self.components, k);
                    if k < i {
                        lemma_components_deep_view(prev_vec, k);
                        assert(prev_vec.deep_view()[k] == self.deep_view().take(i as int)[k]);
                    }
                }
                assert(components.deep_view() =~= self.deep_view().take(i + 1 as int));
            }
            i = i + 1;
        }
        WidePath { components }
    }

    /// This path followed by the components of `rest` from index `from` on.
    pub fn append_from(&self, rest: &WidePath, from: usize) -> (r: WidePath)
        requires
            from <= rest.components.len(),
        ensures
            r.deep_view() == self.deep_view() + rest.deep_view().skip(from as int),
    {
        broadcast use lemma_units_deep_view, lemma_components_deep_view;
        let mut out = self.clone_path();
        let n = rest.components.len();
        let mut i: usize = from;
        while i < n
            invariant
                from <= i <= n,
                n == rest.components.len(),
                out.deep_view() =~~= self.deep_view() + rest.deep_view().subrange(
                    from as int,
                    i as int,
                ),
            decreases n - i,
        {
            let ghost prev_vec = out.components;
            out.components.push(clone_units(&rest.components[i]));
            proof {
                let full = self.deep_view() + rest.deep_view().subrange(from as int, i + 1 as int);
                assert(prev_vec.deep_view().len() == prev_vec@.len());
                assert(prev_vec@.len() == self.deep_view().len() + (i - from));
                assert(out.components@.len() == prev_vec@.len() + 1);
                assert(rest.deep_view().len() == rest.components@.len());
                assert forall|k: int| 0 <= k < full.len() implies out.deep_view()[k] == full[k] by {
                    lemma_components_deep_view(out.components, k);
                    if k < self.deep_view().len() + (i - from) {
                        lemma_components_deep_view(prev_vec, k);
                        assert(prev_vec.deep_view()[k] == (self.deep_view()
                            + rest.deep_view().subrange(from as int, i as int))[k]);
                    } else {
                        lemma_components_deep_view(rest.components, i as int);
                    }
                }
                assert(out.deep_view() =~= full);
            }
            i = i + 1;
        }
        proof {
            assert(rest.deep_view().subrange(from as int, n as int) =~~= rest.deep_view().skip(
                from as int,
            ));
        }
        out
    }
}

/// Paths are equal exactly when all their components are.
pub fn path_eq(a: &WidePath, b: &WidePath) -> (r: bool)
    ensures
        r <==> a.deep_view() == b.deep_view(),
{
    broadcast use lemma_units_deep_view, lemma_components_deep_view;
    if a.components.len() != b.components.len() {
        proof {
            assert(a.deep_view().len() != b.deep_view().len());
        }
        return false;
    }
    let n = a.components.len();
    let mut i: usize = 0;
    while i < n
        invariant
            i <= n,
            n == a.components.len() == b.components.len(),
            forall|j: int| 0 <= j < i ==> a.deep_view()[j] == b.deep_view()[j],
        decreases n - i,
    {
        if !wide_eq(&a.components[i], &b.components[i]) {
            proof {
                assert(a.deep_view()[i as int] == a.components@[i as int]@);
                assert(b.deep_view()[i as int] == b.components@[i as int]@);
            }
            return false;
        }
        i = i + 1;
    }
    proof {
        assert(a.deep_view() =~~= b.deep_view());
    }
    true
}

pub fn join_units(cs: &Vec<Vec<u16>>, from: usize) -> (r: Vec<u16>)
    requires
        from <= cs.len(),
    ensures
        r@ == spec_join(cs.deep_view().skip(from as int)),
    decreases cs.len() - from,
{
    broadcast use lemma_units_deep_view, lemma_components_deep_view;
    let mut r: Vec<u16> = Vec::new();
    let n = cs.len();
    let mut i: usize = from;
    while i < n
        invariant
            from <= i <= n,
            n == cs.len(),
            r@ =~~= spec_join(cs.deep_view().subrange(from as int, i as int)),
        decreases n - i,
    {
        if i > from {
            r.push(SEPARATOR);
        }
        let mut j: usize = 0;
        let c = &cs[i];
        let m = c.len();
        while j < m
            invariant
                j <= m,
                i < n,
                n == cs.len(),
                m == cs[i as int]@.len(),
                c == &cs[i as int],
                r@ =~= (if i > from {
                    spec_join(cs.deep_view().subrange(from as int, i as int)) + seq![SEPARATOR]
                } else {
                    spec_join(cs.deep_view().subrange(from as int, i as int))
                }) + c@.take(j as int),
            decreases m - j,
        {
            r.push(c[j]);
            proof {
                assert(c@.take(j as int).push(c@[j as int]) =~= c@.take(j + 1 as int));
            }
            j = j + 1;
        }
        proof {
            let pre = cs.deep_view().subrange(from as int, i as int);
            lemma_join_push(pre, cs.deep_view()[i as int]);
            assert(pre.push(cs.deep_view()[i as int]) =~~= cs.deep_view().subrange(
                from as int,
                i + 1 as int,
            ));
            assert(c@.take(m as int) =~~= cs.deep_view()[i as int]);
            assert(r@ =~~= spec_join(cs.deep_view().subrange(from as int, i + 1 as int)));
        }
        i = i + 1;
    }
    proof {
        assert(cs.deep_view().subrange(from as int, n as int) =~~= cs.deep_view().skip(from as int));
    }
    r
}

/// Remove the device-namespace prefix (`\??\`) from a wide string.
pub fn strip_namespace(units: &Vec<u16>) -> (r: Vec<u16>)
    ensures
        r@ == spec_strip_namespace(units@),
{
    broadcast use lemma_units_deep_view, lemma_components_deep_view;
    if units.len() >= 4 && units[0] == SEPARATOR && units[1] == 63 && units[2] == 63 && units[3]
        == SEPARATOR {
        let mut r: Vec<u16> = Vec::new();
        let n = units.len();
        let mut i: usize = 4;
        while i < n
            invariant
                4 <= i <= n,
                n == units.len(),
                r@ =~= units@.subrange(4, i as int),
            decreases n - i,
        {
            r.push(units[i]);
            proof {
                assert(r@ =~= units@.subrange(4, i + 1 as int));
            }
            i = i + 1;
        }
        proof {
            assert(units@.subrange(4, n as int) =~= units@.skip(4));
        }
        r
    } else if units.len() == 3 && units[0] == SEPARATOR && units[1] == 63 && units[2] == 63 {
        Vec::new()
    } else {
        clone_units(units)
    }
}

fn is_dot_units(c: &Vec<u16>) -> (r: bool)
    ensures
        r <==> is_dot(c@),
{
    broadcast use lemma_units_deep_view, lemma_components_deep_view;
    let r = c.len() == 1 && c[0] == DOT;
    proof {
        if r {
            assert(c@ =~= seq![DOT]);
        } else if c@.len() == 1 && c@[0] == DOT {
            assert(false);
        }
    }
    r
}

fn is_dot_dot_units(c: &Vec<u16>) -> (r: bool)
    ensures
        r <==> is_dot_dot(c@),
{
    broadcast use lemma_units_deep_view, lemma_components_deep_view;
    let r = c.len() == 2 && c[0] == DOT && c[1] == DOT;
    proof {
        if r {
            assert(c@ =~= seq![DOT, DOT]);
        } else if c@.len() == 2 && c@[0] == DOT && c@[1] == DOT {
            assert(false);
        }
    }
    r
}

/// Lexically normalize a component list into a path: `.` components vanish
/// and `..` removes the previous component, never the leading volume.
///
/// The result holds no `.` or `..` component after the volume designator.
pub fn normalize(cs: &Vec<Vec<u16>>) -> (r: WidePath)
    requires
        cs.len() >= 1,
    ensures
        r.deep_view() == spec_normalize(cs.deep_view()),
        r.components.len() >= 1,
        forall|j: int|
            1 <= j < r.deep_view().len() ==> !is_dot(#[trigger] r.deep_view()[j]) && !is_dot_dot(
                r.deep_view()[j],
            ),
{
    broadcast use lemma_units_deep_view, lemma_components_deep_view;
    let n = cs.len();
    let mut acc: Vec<Vec<u16>> = Vec::new();
    acc.push(clone_units(&cs[0]));
    proof {
        assert(acc.deep_view() =~~= cs.deep_view().take(1));
    }
    let mut i: usize = 1;
    while i < n
        invariant
            1 <= i <= n,
            n == cs.len(),
            acc.len() >= 1,
            spec_normalize(cs.deep_view()) == norm_from(acc.deep_view(), cs.deep_view().skip(
                i as int,
            )),
            forall|j: int|
                1 <= j < acc.deep_view().len() ==> !is_dot(#[trigger] acc.deep_view()[j])
                    && !is_dot_dot(acc.deep_view()[j]),
        decreases n - i,
    {
        let ghost rest = cs.deep_view().skip(i as int);
        proof {
            assert(rest[0] == cs.deep_view()[i as int]);
            assert(rest.skip(1) =~= cs.deep_view().skip(i + 1 as int));
        }
        let c = &cs[i];
        proof {
            assert(rest[0] == c.deep_view());
            assert(c.deep_view() == c@);
        }
        if is_dot_units(c) {
            proof {
                assert(is_dot(rest[0]));
            }
        } else if is_dot_dot_units(c) {
            proof {
                assert(is_dot_dot(rest[0]));
            }
            if acc.len() > 1 {
                let ghost before = acc.deep_view();
                acc.pop();
                proof {
                    assert(acc.deep_view() =~~= before.drop_last());
                }
            }
        } else {
            let ghost before = acc.deep_view();
            acc.push(clone_units(c));
            proof {
                assert(acc.deep_view() =~~= before.push(rest[0]));
            }
        }
        i = i + 1;
    }
    proof {
        assert(cs.deep_view().skip(n as int) =~~= Seq::<Seq<u16>>::empty());
    }
    WidePath { components: acc }
}

/// Normalization leaves no `.` or `..` component after the volume
/// designator, whatever components it is given past an already clean
/// accumulator.
pub proof fn lemma_norm_from_no_dots(acc: Seq<Seq<u16>>, rest: Seq<Seq<u16>>)
    requires
        forall|j: int| 1 <= j < acc.len() ==> !is_dot(#[trigger] acc[j]) && !is_dot_dot(acc[j]),
    ensures
        forall|j: int|
            1 <= j < norm_from(acc, rest).len() ==> !is_dot(#[trigger] norm_from(acc, rest)[j])
                && !is_dot_dot(norm_from(acc, rest)[j]),
    decreases rest.len(),
{
    if rest.len() == 0 {
    } else if is_dot(rest[0]) {
        lemma_norm_from_no_dots(acc, rest.skip(1));
        assert(norm_from(acc, rest) == norm_from(acc, rest.skip(1)));
    } else if is_dot_dot(rest[0]) {
        if acc.len() > 1 {
            assert forall|j: int| 1 <= j < acc.drop_last().len() implies !is_dot(
                #[trigger] acc.drop_last()[j],
            ) && !is_dot_dot(acc.drop_last()[j]) by {
                assert(acc.drop_last()[j] == acc[j]);
            }
            lemma_norm_from_no_dots(acc.drop_last(), rest.skip(1));
            assert(norm_from(acc, rest) == norm_from(acc.drop_last(), rest.skip(1)));
        } else {
            lemma_norm_from_no_dots(acc, rest.skip(1));
            assert(norm_from(acc, rest) == norm_from(acc, rest.skip(1)));
        }
    } else {
        assert forall|j: int| 1 <= j < acc.push(rest[0]).len() implies !is_dot(
            #[trigger] acc.push(rest[0])[j],
        ) && !is_dot_dot(acc.push(rest[0])[j]) by {
            if j < acc.len() {
                assert(acc.push(rest[0])[j] == acc[j]);
            } else {
                assert(acc.push(rest[0])[j] == rest[0]);
            }
        }
        lemma_norm_from_no_dots(acc.push(rest[0]), rest.skip(1));
        assert(norm_from(acc, rest) == norm_from(acc.push(rest[0]), rest.skip(1)));
    }
}

/// A lexically normalized path carries no literal `.` or `..` component
/// after its volume designator.
pub proof fn lemma_normalize_no_dots(cs: Seq<Seq<u16>>)
    requires
        cs.len() >= 1,
    ensures
        forall|j: int|
            1 <= j < spec_normalize(cs).len() ==> !is_dot(#[trigger] spec_normalize(cs)[j])
                && !is_dot_dot(spec_normalize(cs)[j]),
{
    assert(cs.take(1).len() == 1);
    lemma_norm_from_no_dots(cs.take(1), cs.skip(1));
}


} // verus!
