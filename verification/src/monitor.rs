//! The monitor's state machine.
//!
//! One consumer owns this state: the watched paths, their current
//! resolutions, the derived stripped paths, and one context per watched
//! directory. Each external happening — a drained command batch, a
//! completion delivered by the platform's multiplexer, the outcome of
//! opening directories — is applied by a function here; the caller merely
//! performs the returned actions (arm a context, open these directories,
//! emit one notification) against the platform.

use crate::resolve::{contains_path, lemma_paths_deep_view};
use crate::stripped::{
    batch_relevant, lemma_stripped_deep_view, spec_relevant, spec_strip_all, strip_all,
    StrippedPath, StrippedShape,
};
use crate::wide::{path_eq, WidePath};
use vstd::prelude::*;

verus! {

/// The completion key reserved for wake-only posts: never assigned to a
/// directory context.
pub const WAKE_KEY: usize = usize::MAX;

/// How many 32-bit units a context's receive buffer initially holds.
pub const INITIAL_BUFFER_UNITS: usize = 512;

/// Whether the loop keeps running.
pub enum Status {
    Running,
    ShuttingDown,
}

/// A control command sent from outside the loop.
pub enum Command {
    Shutdown,
    SetPaths(Vec<WidePath>),
}

/// One directory watch: its stable completion key, the directory it
/// watches, and the current size of its receive buffer in 32-bit units.
pub struct ContextModel {
    pub key: usize,
    pub prefix: WidePath,
    pub buffer_units: usize,
}

/// The specification-level shape of a context.
pub struct ContextShape {
    pub key: int,
    pub prefix: Seq<Seq<u16>>,
    pub buffer_units: int,
}

impl DeepView for ContextModel {
    type V = ContextShape;

    open spec fn deep_view(&self) -> ContextShape {
        ContextShape {
            key: self.key as int,
            prefix: self.prefix.deep_view(),
            buffer_units: self.buffer_units as int,
        }
    }
}

/// Indexing the deep view of a context list reads the context's shape.
pub broadcast proof fn lemma_contexts_deep_view(v: Vec<ContextModel>, k: int)
    requires
        0 <= k < v@.len(),
    ensures
        #[trigger] v.deep_view()[k] == v@[k].deep_view(),
{
}

/// A directory the caller is asked to open and arm, under the given key.
pub struct OpenRequest {
    pub key: usize,
    pub prefix: WidePath,
}

/// How one requested open went.
pub enum OpenStatus {
    /// Opened and armed; the context joins the watch set.
    Opened,
    /// The directory does not exist; skipped with a warning, not fatal.
    NotFound,
    /// Any other failure; the watch set can no longer be trusted.
    Failed,
}

/// The reported outcome of one requested open.
pub struct OpenResult {
    pub key: usize,
    pub prefix: WidePath,
    pub status: OpenStatus,
}

/// What the caller must do after a state update.
pub struct UpdatePlan {
    /// Emit exactly one notification once the opens succeeded.
    pub notify: bool,
    /// Whether the resolved set differed from the previous one.
    pub changed: bool,
    /// Keys of contexts removed from the watch set: close their handles.
    pub closed: Vec<usize>,
    /// Directories to open and arm, each under its pre-assigned key.
    pub opens: Vec<OpenRequest>,
}

/// Whether some stripped path watches the directory `p`.
pub open spec fn prefix_referenced(p: Seq<Seq<u16>>, sh: Seq<StrippedShape>) -> bool {
    exists|i: int| 0 <= i < sh.len() && (#[trigger] sh[i]).prefix == p
}

/// Whether some context carries the key.
pub open spec fn has_key(cs: Seq<ContextShape>, key: int) -> bool {
    exists|i: int| 0 <= i < cs.len() && (#[trigger] cs[i]).key == key
}

/// Whether some context watches the directory `p`.
pub open spec fn has_prefix(cs: Seq<ContextShape>, p: Seq<Seq<u16>>) -> bool {
    exists|i: int| 0 <= i < cs.len() && (#[trigger] cs[i]).prefix == p
}

/// Two path lists that hold the same set of paths.
pub open spec fn path_set_eq(a: Seq<Seq<Seq<u16>>>, b: Seq<Seq<Seq<u16>>>) -> bool {
    forall|q: Seq<Seq<u16>>| #[trigger] a.contains(q) <==> #[trigger] b.contains(q)
}

/// A path set equals itself: repeating `apply_set_paths` with an unchanged
/// resolved set therefore reports no change, plans no opens or closes, and
/// never notifies — the watch set stabilizes silently.
pub proof fn lemma_unchanged_set_is_silent(a: Seq<Seq<Seq<u16>>>)
    ensures
        path_set_eq(a, a),
{
}

/// The whole state owned by the monitor loop.
pub struct MonitorState {
    pub status: Status,
    pub watched: Vec<WidePath>,
    pub resolved: Vec<WidePath>,
    pub stripped: Vec<StrippedPath>,
    pub contexts: Vec<ContextModel>,
    pub next_key: usize,
}

impl MonitorState {
    /// The state's governing invariant: the stripped paths are exactly those
    /// derived from the resolved set, every context watches a referenced
    /// directory, and keys and watched directories are unambiguous.
    pub open spec fn wf(&self) -> bool {
        &&& self.stripped.deep_view() == spec_strip_all(self.resolved.deep_view())
        &&& forall|a: int, b: int|
            0 <= a < b < self.contexts.deep_view().len()
                ==> (#[trigger] self.contexts.deep_view()[a]).key
                != (#[trigger] self.contexts.deep_view()[b]).key
        &&& forall|a: int, b: int|
            0 <= a < b < self.contexts.deep_view().len()
                ==> (#[trigger] self.contexts.deep_view()[a]).prefix
                != (#[trigger] self.contexts.deep_view()[b]).prefix
        &&& forall|a: int|
            0 <= a < self.contexts.deep_view().len()
                ==> (#[trigger] self.contexts.deep_view()[a]).key < WAKE_KEY
                && self.contexts.deep_view()[a].key < self.next_key
        &&& forall|a: int|
            0 <= a < self.contexts.deep_view().len() ==> prefix_referenced(
                (#[trigger] self.contexts.deep_view()[a]).prefix,
                self.stripped.deep_view(),
            )
    }

    /// A fresh monitor: running, watching nothing, no contexts.
    pub fn new() -> (r: MonitorState)
        ensures
            r.wf(),
            r.status is Running,
            r.watched@.len() == 0,
            r.resolved@.len() == 0,
            r.contexts@.len() == 0,
            r.next_key == 0,
    {
        let r = MonitorState {
            status: Status::Running,
            watched: Vec::new(),
            resolved: Vec::new(),
            stripped: Vec::new(),
            contexts: Vec::new(),
            next_key: 0,
        };
        proof {
            assert(r.stripped.deep_view() =~= spec_strip_all(r.resolved.deep_view()));
        }
        r
    }

    /// Enter the terminal state; nothing else changes.
    pub fn shutdown_now(&mut self)
        ensures
            final (self).status is ShuttingDown,
            final (self).watched == old(self).watched,
            final (self).resolved == old(self).resolved,
            final (self).stripped == old(self).stripped,
            final (self).contexts == old(self).contexts,
            final (self).next_key == old(self).next_key,
            old(self).wf() ==> final (self).wf(),
    {
        self.status = Status::ShuttingDown;
    }
}

/// Pick what a drained command batch amounts to: a queued shutdown wins over
/// everything and is honored before any queued path replacement; otherwise
/// the last replacement wins, since each replaces the list wholesale.
pub fn select_command(cmds: &Vec<Command>) -> (r: Option<Command>)
    ensures
        (exists|i: int| 0 <= i < cmds@.len() && (#[trigger] cmds@[i]) is Shutdown) <==> r == Some(
            Command::Shutdown,
        ),
        r is None ==> cmds@.len() == 0,
        match r {
            Some(Command::SetPaths(p)) => exists|i: int|
                0 <= i < cmds@.len() && ((#[trigger] cmds@[i]) matches Command::SetPaths(q)
                    && p.deep_view() == q.deep_view()) && (forall|k: int|
                    i < k < cmds@.len() ==> !((#[trigger] cmds@[k]) is SetPaths)),
            _ => true,
        },
{
    let n = cmds.len();
    let mut i: usize = 0;
    let mut last_set: usize = 0;
    let mut seen_set = false;
    while i < n
        invariant
            i <= n,
            n == cmds@.len(),
            forall|k: int| 0 <= k < i ==> !((#[trigger] cmds@[k]) is Shutdown),
            seen_set ==> last_set < i && (cmds@[last_set as int]) is SetPaths && (forall|k: int|
                last_set < k < i ==> !((#[trigger] cmds@[k]) is SetPaths)),
            !seen_set ==> forall|k: int| 0 <= k < i ==> !((#[trigger] cmds@[k]) is SetPaths),
        decreases n - i,
    {
        match &cmds[i] {
            Command::Shutdown => {
                proof {
                    assert((cmds@[i as int]) is Shutdown);
                }
                return Some(Command::Shutdown);
            },
            Command::SetPaths(_) => {
                last_set = i;
                seen_set = true;
            },
        }
        i = i + 1;
    }
    if seen_set {
        match &cmds[last_set] {
            Command::SetPaths(p) => {
                let copy = crate::resolve::clone_paths(p);
                proof {
                    assert(((cmds@[last_set as int]) matches Command::SetPaths(q)
                        && copy.deep_view() == q.deep_view()));
                }
                Some(Command::SetPaths(copy))
            },
            Command::Shutdown => {
                // The scan above returned on any queued shutdown.
                proof {
                    assert(false);
                }
                None
            },
        }
    } else {
        proof {
            if cmds@.len() > 0 {
                match cmds@[0] {
                    Command::Shutdown => {
                        assert((cmds@[0]) is Shutdown);
                    },
                    Command::SetPaths(_) => {
                        assert((cmds@[0]) is SetPaths);
                    },
                }
                assert(false);
            }
        }
        None
    }
}

/// The specification-level shape of an open request.
pub struct OpenShape {
    pub key: int,
    pub prefix: Seq<Seq<u16>>,
}

impl DeepView for OpenRequest {
    type V = OpenShape;

    open spec fn deep_view(&self) -> OpenShape {
        OpenShape { key: self.key as int, prefix: self.prefix.deep_view() }
    }
}

/// Indexing the deep view of an open-request list reads the request's shape.
pub broadcast proof fn lemma_opens_deep_view(v: Vec<OpenRequest>, k: int)
    requires
        0 <= k < v@.len(),
    ensures
        #[trigger] v.deep_view()[k] == v@[k].deep_view(),
{
}

/// The specification-level shape of an open outcome.
pub struct OpenResultShape {
    pub key: int,
    pub prefix: Seq<Seq<u16>>,
    pub status: OpenStatus,
}

impl DeepView for OpenResult {
    type V = OpenResultShape;

    open spec fn deep_view(&self) -> OpenResultShape {
        OpenResultShape {
            key: self.key as int,
            prefix: self.prefix.deep_view(),
            status: self.status,
        }
    }
}

/// Indexing the deep view of an outcome list reads the outcome's shape.
pub broadcast proof fn lemma_results_deep_view(v: Vec<OpenResult>, k: int)
    requires
        0 <= k < v@.len(),
    ensures
        #[trigger] v.deep_view()[k] == v@[k].deep_view(),
{
}

/// Whether some planned open addresses the directory `p`.
pub open spec fn open_planned(os: Seq<OpenShape>, p: Seq<Seq<u16>>) -> bool {
    exists|i: int| 0 <= i < os.len() && (#[trigger] os[i]).prefix == p
}

/// Whether some stripped path watches the directory `p`.
pub fn prefix_in_stripped(stripped: &Vec<StrippedPath>, p: &WidePath) -> (r: bool)
    ensures
        r <==> prefix_referenced(p.deep_view(), stripped.deep_view()),
{
    broadcast use lemma_stripped_deep_view;

    let n = stripped.len();
    let mut i: usize = 0;
    while i < n
        invariant
            i <= n,
            n == stripped@.len(),
            forall|k: int| 0 <= k < i ==> (#[trigger] stripped.deep_view()[k]).prefix
                != p.deep_view(),
        decreases n - i,
    {
        if path_eq(&stripped[i].prefix, p) {
            proof {
                assert((stripped.deep_view()[i as int]).prefix == p.deep_view());
            }
            return true;
        }
        i = i + 1;
    }
    false
}

/// Whether some context watches the directory `p`.
pub fn prefix_in_contexts(ctxs: &Vec<ContextModel>, p: &WidePath) -> (r: bool)
    ensures
        r <==> has_prefix(ctxs.deep_view(), p.deep_view()),
{
    broadcast use lemma_contexts_deep_view;

    let n = ctxs.len();
    let mut i: usize = 0;
    while i < n
        invariant
            i <= n,
            n == ctxs@.len(),
            forall|k: int| 0 <= k < i ==> (#[trigger] ctxs.deep_view()[k]).prefix
                != p.deep_view(),
        decreases n - i,
    {
        if path_eq(&ctxs[i].prefix, p) {
            proof {
                assert((ctxs.deep_view()[i as int]).prefix == p.deep_view());
            }
            return true;
        }
        i = i + 1;
    }
    false
}

/// Whether some planned open addresses the directory `p`.
pub fn prefix_in_opens(opens: &Vec<OpenRequest>, p: &WidePath) -> (r: bool)
    ensures
        r <==> open_planned(opens.deep_view(), p.deep_view()),
{
    broadcast use lemma_opens_deep_view;

    let n = opens.len();
    let mut i: usize = 0;
    while i < n
        invariant
            i <= n,
            n == opens@.len(),
            forall|k: int| 0 <= k < i ==> (#[trigger] opens.deep_view()[k]).prefix
                != p.deep_view(),
        decreases n - i,
    {
        if path_eq(&opens[i].prefix, p) {
            proof {
                assert((opens.deep_view()[i as int]).prefix == p.deep_view());
            }
            return true;
        }
        i = i + 1;
    }
    false
}

/// Whether two path lists hold the same set of paths.
pub fn same_path_set(a: &Vec<WidePath>, b: &Vec<WidePath>) -> (r: bool)
    ensures
        r <==> path_set_eq(a.deep_view(), b.deep_view()),
{
    broadcast use lemma_paths_deep_view;

    let n = a.len();
    let mut i: usize = 0;
    while i < n
        invariant
            i <= n,
            n == a@.len(),
            forall|k: int| 0 <= k < i ==> b.deep_view().contains(#[trigger] a.deep_view()[k]),
        decreases n - i,
    {
        if !contains_path(b, &a[i]) {
            proof {
                assert(a.deep_view().contains(a.deep_view()[i as int]));
            }
            return false;
        }
        i = i + 1;
    }
    let m = b.len();
    let mut j: usize = 0;
    while j < m
        invariant
            j <= m,
            m == b@.len(),
            n == a@.len(),
            forall|k: int| 0 <= k < n ==> b.deep_view().contains(#[trigger] a.deep_view()[k]),
            forall|k: int| 0 <= k < j ==> a.deep_view().contains(#[trigger] b.deep_view()[k]),
        decreases m - j,
    {
        if !contains_path(a, &b[j]) {
            proof {
                assert(b.deep_view().contains(b.deep_view()[j as int]));
            }
            return false;
        }
        j = j + 1;
    }
    proof {
        assert forall|q: Seq<Seq<u16>>| #[trigger]
            a.deep_view().contains(q) implies b.deep_view().contains(q) by {
            let w = choose|w: int|
                0 <= w < a.deep_view().len() && #[trigger] a.deep_view()[w] == q;
            assert(b.deep_view().contains(a.deep_view()[w]));
        }
        assert forall|q: Seq<Seq<u16>>| #[trigger]
            b.deep_view().contains(q) implies a.deep_view().contains(q) by {
            let w = choose|w: int|
                0 <= w < b.deep_view().len() && #[trigger] b.deep_view()[w] == q;
            assert(a.deep_view().contains(b.deep_view()[w]));
        }
    }
    true
}

impl MonitorState {
    /// Install a newly computed resolved set: where it equals the previous
    /// set nothing happens; where it differs, the stripped paths are
    /// re-derived, contexts watching unreferenced directories are closed,
    /// and one open is planned for every referenced directory not yet
    /// watched, so that every watched tail stays covered. Exactly one
    /// notification is owed when and only when the set changed.
    #[verifier::loop_isolation(false)]
    pub fn apply_resolution(&mut self, new_resolved: &Vec<WidePath>) -> (plan: UpdatePlan)
        requires
            old(self).wf(),
            forall|a: int, b: int|
                0 <= a < b < new_resolved.deep_view().len() ==> new_resolved.deep_view()[a]
                    != new_resolved.deep_view()[b],
            old(self).next_key + new_resolved@.len() < WAKE_KEY,
        ensures
            final (self).wf(),
            final (self).status == old(self).status,
            final (self).watched == old(self).watched,
            plan.changed <==> !path_set_eq(new_resolved.deep_view(), old(self).resolved.deep_view()),
            plan.notify == plan.changed,
            !plan.changed ==> final (self).resolved == old(self).resolved,
            !plan.changed ==> final (self).stripped == old(self).stripped,
            !plan.changed ==> final (self).contexts == old(self).contexts,
            !plan.changed ==> final (self).next_key == old(self).next_key,
            !plan.changed ==> plan.closed@.len() == 0 && plan.opens@.len() == 0,
            plan.changed ==> final (self).resolved.deep_view() == new_resolved.deep_view(),
            plan.changed ==> final (self).stripped.deep_view() == spec_strip_all(
                new_resolved.deep_view(),
            ),
            plan.changed ==> (forall|c: ContextShape|
                #[trigger] final (self).contexts.deep_view().contains(c) <==> (old(
                    self,
                ).contexts.deep_view().contains(c) && prefix_referenced(
                    c.prefix,
                    final (self).stripped.deep_view(),
                ))),
            plan.changed ==> (forall|c: ContextShape|
                (#[trigger] old(self).contexts.deep_view().contains(c) && !prefix_referenced(
                    c.prefix,
                    final (self).stripped.deep_view(),
                )) ==> plan.closed@.contains(c.key as usize)),
            plan.changed ==> (forall|i: int|
                0 <= i < final (self).stripped.deep_view().len() ==> has_prefix(
                    final (self).contexts.deep_view(),
                    (#[trigger] final (self).stripped.deep_view()[i]).prefix,
                ) || open_planned(
                    plan.opens.deep_view(),
                    final (self).stripped.deep_view()[i].prefix,
                )),
            forall|t: int|
                0 <= t < plan.opens.deep_view().len() ==> (#[trigger] plan.opens.deep_view()[
                    t
                ]).key == old(self).next_key + t && prefix_referenced(
                    plan.opens.deep_view()[t].prefix,
                    final (self).stripped.deep_view(),
                ) && !has_prefix(final (self).contexts.deep_view(), plan.opens.deep_view()[t].prefix),
            forall|a: int, b: int|
                0 <= a < b < plan.opens.deep_view().len() ==> (#[trigger] plan.opens.deep_view()[
                    a
                ]).prefix != (#[trigger] plan.opens.deep_view()[b]).prefix,
            final (self).next_key == old(self).next_key + plan.opens@.len(),
    {
        broadcast use
            lemma_paths_deep_view,
            lemma_contexts_deep_view,
            lemma_stripped_deep_view,
            lemma_opens_deep_view,
        ;

        if same_path_set(new_resolved, &self.resolved) {
            return UpdatePlan {
                notify: false,
                changed: false,
                closed: Vec::new(),
                opens: Vec::new(),
            };
        }
        self.resolved = crate::resolve::clone_paths(new_resolved);
        self.stripped = strip_all(&self.resolved);
        let ghost old_ctxs = self.contexts;
        let ghost sh = self.stripped.deep_view();

        let mut kept: Vec<ContextModel> = Vec::new();
        let mut closed: Vec<usize> = Vec::new();
        let n = self.contexts.len();
        let mut i: usize = 0;
        while i < n
            invariant
                i <= n,
                n == old_ctxs@.len(),
                self.contexts == old_ctxs,
                sh == self.stripped.deep_view(),
                forall|a: int, b: int|
                    0 <= a < b < old_ctxs.deep_view().len()
                        ==> (#[trigger] old_ctxs.deep_view()[a]).key
                        != (#[trigger] old_ctxs.deep_view()[b]).key,
                forall|a: int, b: int|
                    0 <= a < b < old_ctxs.deep_view().len()
                        ==> (#[trigger] old_ctxs.deep_view()[a]).prefix
                        != (#[trigger] old_ctxs.deep_view()[b]).prefix,
                forall|c: ContextShape|
                    #[trigger] kept.deep_view().contains(c) <==> (exists|k: int|
                        0 <= k < i && #[trigger] old_ctxs.deep_view()[k] == c
                            && prefix_referenced(c.prefix, sh)),
                forall|a: int, b: int|
                    0 <= a < b < kept.deep_view().len() ==> (#[trigger] kept.deep_view()[a]).key
                        != (#[trigger] kept.deep_view()[b]).key
                        && kept.deep_view()[a].prefix != kept.deep_view()[b].prefix,
                forall|a: int|
                    0 <= a < kept.deep_view().len() ==> (#[trigger] kept.deep_view()[a]).key
                        < WAKE_KEY && kept.deep_view()[a].key < old(self).next_key,
                forall|key: usize|
                    #[trigger] closed@.contains(key) <==> (exists|k: int|
                        0 <= k < i && (#[trigger] old_ctxs.deep_view()[k]).key == key as int
                            && !prefix_referenced(old_ctxs.deep_view()[k].prefix, sh)),
            decreases n - i,
        {
            let ghost c = old_ctxs.deep_view()[i as int];
            if prefix_in_stripped(&self.stripped, &self.contexts[i].prefix) {
                let ghost kept_before = kept;
                kept.push(ContextModel {
                    key: self.contexts[i].key,
                    prefix: self.contexts[i].prefix.clone_path(),
                    buffer_units: self.contexts[i].buffer_units,
                });
                proof {
                    assert(kept@.len() == kept_before@.len() + 1);
                    assert(kept.deep_view()[kept@.len() - 1] == c);
                    assert forall|k: int| 0 <= k < kept_before@.len() implies kept.deep_view()[k]
                        == kept_before.deep_view()[k] by {
                        lemma_contexts_deep_view(kept, k);
                        lemma_contexts_deep_view(kept_before, k);
                    }
                    assert forall|cc: ContextShape| #[trigger]
                        kept.deep_view().contains(cc) implies (exists|k: int|
                        0 <= k < i + 1 && #[trigger] old_ctxs.deep_view()[k] == cc
                            && prefix_referenced(cc.prefix, sh)) by {
                        let w = choose|w: int|
                            0 <= w < kept.deep_view().len() && #[trigger] kept.deep_view()[w]
                                == cc;
                        if w < kept_before@.len() {
                            assert(kept_before.deep_view().contains(cc));
                        } else {
                            assert(cc == c);
                            assert(old_ctxs.deep_view()[i as int] == cc);
                        }
                    }
                    assert forall|a: int| 0 <= a < kept@.len() - 1 implies (#[trigger]
                    kept.deep_view()[a]).key != c.key && kept.deep_view()[a].prefix
                        != c.prefix by {
                        let cc = kept.deep_view()[a];
                        assert(kept_before.deep_view()[a] == cc);
                        assert(kept_before.deep_view().contains(cc));
                        let k = choose|k: int|
                            0 <= k < i && #[trigger] old_ctxs.deep_view()[k] == cc
                                && prefix_referenced(cc.prefix, sh);
                        assert(old_ctxs.deep_view()[k].key != old_ctxs.deep_view()[
                            i as int
                        ].key);
                        assert(old_ctxs.deep_view()[k].prefix != old_ctxs.deep_view()[
                            i as int
                        ].prefix);
                    }
                    assert forall|cc: ContextShape|
                        (exists|k: int|
                            0 <= k < i + 1 && #[trigger] old_ctxs.deep_view()[k] == cc
                                && prefix_referenced(cc.prefix, sh)) implies #[trigger]
                    kept.deep_view().contains(cc) by {
                        let k = choose|k: int|
                            0 <= k < i + 1 && #[trigger] old_ctxs.deep_view()[k] == cc
                                && prefix_referenced(cc.prefix, sh);
                        if k < i {
                            assert(kept_before.deep_view().contains(cc));
                            let w = choose|w: int|
                                0 <= w < kept_before.deep_view().len() && #[trigger]
                                kept_before.deep_view()[w] == cc;
                            assert(kept.deep_view()[w] == cc);
                        } else {
                            assert(kept.deep_view()[kept@.len() - 1] == cc);
                        }
                    }
                }
            } else {
                let ghost closed_before = closed@;
                closed.push(self.contexts[i].key);
                proof {
                    assert(closed@ == closed_before.push(c.key as usize));
                    assert forall|key: usize| #[trigger] closed@.contains(key) implies (exists|
                        k: int,
                    |
                        0 <= k < i + 1 && (#[trigger] old_ctxs.deep_view()[k]).key == key as int
                            && !prefix_referenced(old_ctxs.deep_view()[k].prefix, sh)) by {
                        let w = choose|w: int|
                            0 <= w < closed@.len() && #[trigger] closed@[w] == key;
                        if w < closed_before.len() {
                            assert(closed_before.contains(key));
                        } else {
                            assert(key == c.key as usize);
                            assert((old_ctxs.deep_view()[i as int]).key == key as int);
                        }
                    }
                    assert forall|key: usize|
                        (exists|k: int|
                            0 <= k < i + 1 && (#[trigger] old_ctxs.deep_view()[k]).key
                                == key as int && !prefix_referenced(
                                old_ctxs.deep_view()[k].prefix,
                                sh,
                            )) implies #[trigger] closed@.contains(key) by {
                        let k = choose|k: int|
                            0 <= k < i + 1 && (#[trigger] old_ctxs.deep_view()[k]).key
                                == key as int && !prefix_referenced(
                                old_ctxs.deep_view()[k].prefix,
                                sh,
                            );
                        if k < i {
                            assert(closed_before.contains(key));
                            let w = choose|w: int|
                                0 <= w < closed_before.len() && #[trigger] closed_before[w]
                                    == key;
                            assert(closed@[w] == key);
                        } else {
                            assert(closed@[closed@.len() - 1] == key);
                        }
                    }
                }
            }
            i = i + 1;
        }
        self.contexts = kept;
        let ghost kept_value = self.contexts;

        let ghost old_next = self.next_key;
        let mut opens: Vec<OpenRequest> = Vec::new();
        let m = self.stripped.len();
        proof {
            crate::stripped::lemma_strip_all_len(self.resolved.deep_view());
        }
        let mut j: usize = 0;
        while j < m
            invariant
                j <= m,
                m == self.stripped@.len(),
                sh == self.stripped.deep_view(),
                self.status == old(self).status,
                self.watched == old(self).watched,
                self.resolved.deep_view() == new_resolved.deep_view(),
                self.stripped.deep_view() == spec_strip_all(new_resolved.deep_view()),
                self.contexts == kept_value,
                self.next_key == old_next + opens@.len(),
                opens@.len() <= j,
                old_next + m < WAKE_KEY,
                forall|t: int|
                    0 <= t < opens.deep_view().len() ==> (#[trigger] opens.deep_view()[t]).key
                        == old_next + t && prefix_referenced(opens.deep_view()[t].prefix, sh)
                        && !has_prefix(self.contexts.deep_view(), opens.deep_view()[t].prefix),
                forall|a: int, b: int|
                    0 <= a < b < opens.deep_view().len() ==> (#[trigger] opens.deep_view()[
                        a
                    ]).prefix != (#[trigger] opens.deep_view()[b]).prefix,
                forall|k: int|
                    0 <= k < j ==> has_prefix(
                        self.contexts.deep_view(),
                        (#[trigger] self.stripped.deep_view()[k]).prefix,
                    ) || open_planned(opens.deep_view(), self.stripped.deep_view()[k].prefix),
            decreases m - j,
        {
            let ghost sp = self.stripped.deep_view()[j as int].prefix;
            if !prefix_in_contexts(&self.contexts, &self.stripped[j].prefix) && !prefix_in_opens(
                &opens,
                &self.stripped[j].prefix,
            ) {
                let ghost opens_before = opens;
                opens.push(OpenRequest {
                    key: self.next_key,
                    prefix: self.stripped[j].prefix.clone_path(),
                });
                self.next_key = self.next_key + 1;
                proof {
                    assert(opens@.len() == opens_before@.len() + 1);
                    assert(opens.deep_view()[opens@.len() - 1].key == old_next + opens@.len()
                        - 1);
                    assert(opens.deep_view()[opens@.len() - 1].prefix == sp);
                    assert(prefix_referenced(sp, sh)) by {
                        assert((sh[j as int]).prefix == sp);
                    }
                    assert forall|t: int| 0 <= t < opens_before@.len() implies opens.deep_view()[
                        t
                    ] == opens_before.deep_view()[t] by {
                        lemma_opens_deep_view(opens, t);
                        lemma_opens_deep_view(opens_before, t);
                    }
                }
            }
            proof {
                assert((sh[j as int]).prefix == sp);
                if has_prefix(self.contexts.deep_view(), sp) {
                } else {
                    assert(open_planned(opens.deep_view(), sp));
                }
                assert forall|k: int| 0 <= k < j + 1 implies has_prefix(
                    self.contexts.deep_view(),
                    (#[trigger] self.stripped.deep_view()[k]).prefix,
                ) || open_planned(
                    opens.deep_view(),
                    self.stripped.deep_view()[k].prefix,
                ) by {
                    if k < j {
                        if open_planned(opens.deep_view(), self.stripped.deep_view()[k].prefix) {
                            let w = choose|w: int|
                                0 <= w < opens.deep_view().len() && (#[trigger]
                                opens.deep_view()[w]).prefix == self.stripped.deep_view()[
                                    k
                                ].prefix;
                            assert(opens.deep_view()[w].prefix == self.stripped.deep_view()[
                                k
                            ].prefix);
                        }
                    }
                }
            }
            j = j + 1;
        }
        proof {
            assert forall|a: int|
                0 <= a < self.contexts.deep_view().len() implies prefix_referenced(
                (#[trigger] self.contexts.deep_view()[a]).prefix,
                self.stripped.deep_view(),
            ) by {
                assert(self.contexts.deep_view().contains(self.contexts.deep_view()[a]));
            }
        }
        UpdatePlan { notify: true, changed: true, closed, opens }
    }
}

/// What to do with one delivered completion.
#[derive(PartialEq, Eq, Structural, Debug, Clone, Copy)]
pub enum DeliveryDecision {
    /// A wake-only post, or a key no live context carries: nothing to do.
    Ignored,
    /// A delivery on a live context: rearm it with a buffer of
    /// `buffer_units` 32-bit units, before any parsing of the batch, so no
    /// change occurring meanwhile is missed.
    Rearm { key: usize, buffer_units: usize },
}

impl MonitorState {
    /// Replace the watched path list wholesale and install its resolutions.
    /// Replacing the list never notifies by itself: callers observe effects
    /// only through later directory events.
    pub fn apply_set_paths(&mut self, new_watched: &Vec<WidePath>, new_resolved: &Vec<WidePath>)
        -> (plan: UpdatePlan)
        requires
            old(self).wf(),
            forall|a: int, b: int|
                0 <= a < b < new_resolved.deep_view().len() ==> new_resolved.deep_view()[a]
                    != new_resolved.deep_view()[b],
            old(self).next_key + new_resolved@.len() < WAKE_KEY,
        ensures
            final (self).wf(),
            final (self).status == old(self).status,
            final (self).watched.deep_view() == new_watched.deep_view(),
            plan.notify == false,
            plan.changed <==> !path_set_eq(new_resolved.deep_view(), old(self).resolved.deep_view()),
            !plan.changed ==> final (self).resolved == old(self).resolved,
            !plan.changed ==> final (self).contexts == old(self).contexts,
            !plan.changed ==> plan.closed@.len() == 0 && plan.opens@.len() == 0,
            plan.changed ==> final (self).resolved.deep_view() == new_resolved.deep_view(),
            plan.changed ==> final (self).stripped.deep_view() == spec_strip_all(
                new_resolved.deep_view(),
            ),
            plan.changed ==> (forall|c: ContextShape|
                #[trigger] final (self).contexts.deep_view().contains(c) <==> (old(
                    self,
                ).contexts.deep_view().contains(c) && prefix_referenced(
                    c.prefix,
                    final (self).stripped.deep_view(),
                ))),
            plan.changed ==> (forall|i: int|
                0 <= i < final (self).stripped.deep_view().len() ==> has_prefix(
                    final (self).contexts.deep_view(),
                    (#[trigger] final (self).stripped.deep_view()[i]).prefix,
                ) || open_planned(
                    plan.opens.deep_view(),
                    final (self).stripped.deep_view()[i].prefix,
                )),
            forall|t: int|
                0 <= t < plan.opens.deep_view().len() ==> (#[trigger] plan.opens.deep_view()[
                    t
                ]).key == old(self).next_key + t && prefix_referenced(
                    plan.opens.deep_view()[t].prefix,
                    final (self).stripped.deep_view(),
                ) && !has_prefix(final (self).contexts.deep_view(), plan.opens.deep_view()[t].prefix),
            forall|a: int, b: int|
                0 <= a < b < plan.opens.deep_view().len() ==> (#[trigger] plan.opens.deep_view()[
                    a
                ]).prefix != (#[trigger] plan.opens.deep_view()[b]).prefix,
            final (self).next_key == old(self).next_key + plan.opens@.len(),
    {
        self.watched = crate::resolve::clone_paths(new_watched);
        let mut plan = self.apply_resolution(new_resolved);
        plan.notify = false;
        plan
    }

    /// Install the outcomes of the opens a plan requested: each opened
    /// directory joins the watch set with a fresh receive buffer, a missing
    /// directory is skipped, and any other failure is fatal: the loop can no
    /// longer trust its watch set and shuts down.
    #[verifier::loop_isolation(false)]
    pub fn apply_open_results(&mut self, results: &Vec<OpenResult>) -> (fatal: bool)
        requires
            old(self).wf(),
            forall|t: int|
                0 <= t < results.deep_view().len() ==> (#[trigger] results.deep_view()[t]).key
                    < WAKE_KEY && results.deep_view()[t].key < old(self).next_key && !has_key(
                    old(self).contexts.deep_view(),
                    results.deep_view()[t].key,
                ) && prefix_referenced(
                    results.deep_view()[t].prefix,
                    old(self).stripped.deep_view(),
                ) && !has_prefix(old(self).contexts.deep_view(), results.deep_view()[t].prefix),
            forall|a: int, b: int|
                0 <= a < b < results.deep_view().len() ==> (#[trigger] results.deep_view()[
                    a
                ]).key != (#[trigger] results.deep_view()[b]).key && (
                results.deep_view()[a]).prefix != (results.deep_view()[b]).prefix,
        ensures
            final (self).wf(),
            final (self).watched == old(self).watched,
            final (self).resolved == old(self).resolved,
            final (self).stripped == old(self).stripped,
            final (self).next_key == old(self).next_key,
            fatal <==> (exists|t: int|
                0 <= t < results.deep_view().len() && (#[trigger] results.deep_view()[t]).status
                    is Failed),
            fatal ==> final (self).status is ShuttingDown,
            !fatal ==> final (self).status == old(self).status,
            forall|c: ContextShape|
                #[trigger] final (self).contexts.deep_view().contains(c) <==> (old(
                    self,
                ).contexts.deep_view().contains(c) || (exists|t: int|
                    0 <= t < results.deep_view().len() && (#[trigger] results.deep_view()[
                        t
                    ]).status is Opened && c == (ContextShape {
                        key: results.deep_view()[t].key,
                        prefix: results.deep_view()[t].prefix,
                        buffer_units: INITIAL_BUFFER_UNITS as int,
                    }))),
    {
        broadcast use lemma_contexts_deep_view, lemma_results_deep_view;

        let n = results.len();
        let mut fatal = false;
        let mut i: usize = 0;
        while i < n
            invariant
                i <= n,
                n == results@.len(),
                self.status == old(self).status,
                self.watched == old(self).watched,
                self.resolved == old(self).resolved,
                self.stripped == old(self).stripped,
                self.next_key == old(self).next_key,
                fatal <==> (exists|t: int|
                    0 <= t < i && (#[trigger] results.deep_view()[t]).status is Failed),
                forall|c: ContextShape|
                    #[trigger] self.contexts.deep_view().contains(c) <==> (old(
                        self,
                    ).contexts.deep_view().contains(c) || (exists|t: int|
                        0 <= t < i && (#[trigger] results.deep_view()[t]).status is Opened && c
                            == (ContextShape {
                            key: results.deep_view()[t].key,
                            prefix: results.deep_view()[t].prefix,
                            buffer_units: INITIAL_BUFFER_UNITS as int,
                        }))),
                forall|a: int, b: int|
                    0 <= a < b < self.contexts.deep_view().len()
                        ==> (#[trigger] self.contexts.deep_view()[a]).key
                        != (#[trigger] self.contexts.deep_view()[b]).key
                        && self.contexts.deep_view()[a].prefix
                        != self.contexts.deep_view()[b].prefix,
                forall|a: int|
                    0 <= a < self.contexts.deep_view().len()
                        ==> (#[trigger] self.contexts.deep_view()[a]).key < WAKE_KEY
                        && self.contexts.deep_view()[a].key < self.next_key
                        && prefix_referenced(
                        self.contexts.deep_view()[a].prefix,
                        self.stripped.deep_view(),
                    ),
            decreases n - i,
        {
            let ghost rsh = results.deep_view()[i as int];
            match results[i].status {
                OpenStatus::Opened => {
                    let ghost before = self.contexts;
                    self.contexts.push(ContextModel {
                        key: results[i].key,
                        prefix: results[i].prefix.clone_path(),
                        buffer_units: INITIAL_BUFFER_UNITS,
                    });
                    proof {
                        let added = ContextShape {
                            key: rsh.key,
                            prefix: rsh.prefix,
                            buffer_units: INITIAL_BUFFER_UNITS as int,
                        };
                        assert(self.contexts@.len() == before@.len() + 1);
                        assert(self.contexts.deep_view()[self.contexts@.len() - 1] == added);
                        assert forall|k: int| 0 <= k < before@.len() implies
                            self.contexts.deep_view()[k] == before.deep_view()[k] by {
                            lemma_contexts_deep_view(self.contexts, k);
                            lemma_contexts_deep_view(before, k);
                        }
                        assert forall|cc: ContextShape| #[trigger]
                            self.contexts.deep_view().contains(cc) implies (old(
                            self,
                        ).contexts.deep_view().contains(cc) || (exists|t: int|
                            0 <= t < i + 1 && (#[trigger] results.deep_view()[t]).status
                                is Opened && cc == (ContextShape {
                                key: results.deep_view()[t].key,
                                prefix: results.deep_view()[t].prefix,
                                buffer_units: INITIAL_BUFFER_UNITS as int,
                            }))) by {
                            let w = choose|w: int|
                                0 <= w < self.contexts.deep_view().len() && #[trigger]
                                self.contexts.deep_view()[w] == cc;
                            if w < before@.len() {
                                assert(before.deep_view()[w] == cc);
                                assert(before.deep_view().contains(cc));
                            } else {
                                assert(cc == added);
                                assert((results.deep_view()[i as int]).status is Opened);
                            }
                        }
                        assert forall|cc: ContextShape|
                            (old(self).contexts.deep_view().contains(cc) || (exists|t: int|
                                0 <= t < i + 1 && (#[trigger] results.deep_view()[t]).status
                                    is Opened && cc == (ContextShape {
                                    key: results.deep_view()[t].key,
                                    prefix: results.deep_view()[t].prefix,
                                    buffer_units: INITIAL_BUFFER_UNITS as int,
                                }))) implies #[trigger] self.contexts.deep_view().contains(
                            cc,
                        ) by {
                            if before.deep_view().contains(cc) {
                                let w = choose|w: int|
                                    0 <= w < before.deep_view().len() && #[trigger]
                                    before.deep_view()[w] == cc;
                                assert(self.contexts.deep_view()[w] == cc);
                            } else {
                                assert(cc == added);
                                assert(self.contexts.deep_view()[self.contexts@.len() - 1]
                                    == cc);
                            }
                        }
                        assert forall|a: int| 0 <= a < before@.len() implies (#[trigger]
                        self.contexts.deep_view()[a]).key != added.key
                            && self.contexts.deep_view()[a].prefix != added.prefix by {
                            let cc = self.contexts.deep_view()[a];
                            assert(before.deep_view()[a] == cc);
                            assert(before.deep_view().contains(cc));
                            if old(self).contexts.deep_view().contains(cc) {
                                let w = choose|w: int|
                                    0 <= w < old(self).contexts.deep_view().len() && #[trigger]
                                    old(self).contexts.deep_view()[w] == cc;
                                if cc.key == rsh.key {
                                    assert((old(self).contexts.deep_view()[w]).key == rsh.key);
                                    assert(has_key(old(self).contexts.deep_view(), rsh.key));
                                    assert(false);
                                }
                                if cc.prefix == rsh.prefix {
                                    assert((old(self).contexts.deep_view()[w]).prefix
                                        == rsh.prefix);
                                    assert(has_prefix(
                                        old(self).contexts.deep_view(),
                                        rsh.prefix,
                                    ));
                                    assert(false);
                                }
                            } else {
                                let t = choose|t: int|
                                    0 <= t < i && (#[trigger] results.deep_view()[t]).status
                                        is Opened && cc == (ContextShape {
                                        key: results.deep_view()[t].key,
                                        prefix: results.deep_view()[t].prefix,
                                        buffer_units: INITIAL_BUFFER_UNITS as int,
                                    });
                                assert((results.deep_view()[t]).key != rsh.key);
                                assert((results.deep_view()[t]).prefix != rsh.prefix);
                            }
                        }
                        assert forall|a: int, b: int|
                            0 <= a < b < self.contexts.deep_view().len() implies (#[trigger]
                        self.contexts.deep_view()[a]).key
                            != (#[trigger] self.contexts.deep_view()[b]).key
                            && self.contexts.deep_view()[a].prefix
                            != self.contexts.deep_view()[b].prefix by {
                            if b < before@.len() {
                                assert(self.contexts.deep_view()[a] == before.deep_view()[a]);
                                assert(self.contexts.deep_view()[b] == before.deep_view()[b]);
                            } else {
                                assert(self.contexts.deep_view()[b] == added);
                            }
                        }
                        assert forall|a: int|
                            0 <= a < self.contexts.deep_view().len() implies (#[trigger]
                        self.contexts.deep_view()[a]).key < WAKE_KEY
                            && self.contexts.deep_view()[a].key < self.next_key
                            && prefix_referenced(
                            self.contexts.deep_view()[a].prefix,
                            self.stripped.deep_view(),
                        ) by {
                            if a < before@.len() {
                                assert(self.contexts.deep_view()[a] == before.deep_view()[a]);
                            } else {
                                assert(self.contexts.deep_view()[a] == added);
                            }
                        }
                    }
                },
                OpenStatus::NotFound => {
                },
                OpenStatus::Failed => {
                    fatal = true;
                    proof {
                        assert((results.deep_view()[i as int]).status is Failed);
                    }
                },
            }
            i = i + 1;
        }
        if fatal {
            self.status = Status::ShuttingDown;
        }
        fatal
    }
}

impl MonitorState {
    /// Account for one delivered completion and say what to rearm.
    ///
    /// A wake-only post and a key no live context carries are ignored. On a
    /// live context the caller must rearm with `buffer_units` units: a
    /// zero-byte delivery means the buffer was too small, so it doubles —
    /// the context is never removed from the watch set. The caller rearms
    /// first and only then classifies the delivered batch with
    /// `delivery_relevant`, so no change occurring during parsing is
    /// missed.
    #[verifier::loop_isolation(false)]
    pub fn on_delivery(&mut self, key: usize, bytes: u32) -> (r: DeliveryDecision)
        requires
            old(self).wf(),
        ensures
            final (self).wf(),
            final (self).status == old(self).status,
            final (self).watched == old(self).watched,
            final (self).resolved == old(self).resolved,
            final (self).stripped == old(self).stripped,
            final (self).next_key == old(self).next_key,
            final (self).contexts@.len() == old(self).contexts@.len(),
            key == WAKE_KEY || !has_key(old(self).contexts.deep_view(), key as int) ==> r
                is Ignored && final (self).contexts == old(self).contexts,
            forall|idx: int|
                0 <= idx < old(self).contexts.deep_view().len() && key != WAKE_KEY && (
                #[trigger] old(self).contexts.deep_view()[idx]).key == key as int ==> {
                    let prior = old(self).contexts.deep_view()[idx];
                    let now = final (self).contexts.deep_view()[idx];
                    &&& now.key == prior.key
                    &&& now.prefix == prior.prefix
                    &&& (forall|t: int|
                        0 <= t < old(self).contexts.deep_view().len() && t != idx
                            ==> #[trigger] final (self).contexts.deep_view()[t] == old(
                            self,
                        ).contexts.deep_view()[t])
                    &&& (bytes == 0 ==> now.buffer_units == (if prior.buffer_units <= usize::MAX
                        / 2 {
                        2 * prior.buffer_units
                    } else {
                        prior.buffer_units
                    }))
                    &&& (bytes != 0 ==> now.buffer_units == prior.buffer_units)
                    &&& r == (DeliveryDecision::Rearm {
                        key,
                        buffer_units: now.buffer_units as usize,
                    })
                },
    {
        broadcast use lemma_contexts_deep_view;

        if key == WAKE_KEY {
            return DeliveryDecision::Ignored;
        }
        let n = self.contexts.len();
        let mut idx: usize = 0;
        while idx < n
            invariant
                idx <= n,
                n == self.contexts@.len(),
                self.status == old(self).status,
                self.watched == old(self).watched,
                self.resolved == old(self).resolved,
                self.stripped == old(self).stripped,
                self.contexts == old(self).contexts,
                self.next_key == old(self).next_key,
                forall|t: int|
                    0 <= t < idx ==> (#[trigger] self.contexts.deep_view()[t]).key != key as int,
            decreases n - idx,
        {
            if self.contexts[idx].key == key {
                proof {
                    assert((self.contexts.deep_view()[idx as int]).key == key as int);
                }
                let ghost prior_ctxs = self.contexts;
                let ghost prior = self.contexts.deep_view()[idx as int];
                let prior_units = self.contexts[idx].buffer_units;
                let new_units: usize = if bytes == 0 {
                    if prior_units <= usize::MAX / 2 {
                        2 * prior_units
                    } else {
                        prior_units
                    }
                } else {
                    prior_units
                };
                if new_units != prior_units {
                    let replacement = ContextModel {
                        key: self.contexts[idx].key,
                        prefix: self.contexts[idx].prefix.clone_path(),
                        buffer_units: new_units,
                    };
                    self.contexts.set(idx, replacement);
                    proof {
                        assert forall|t: int| 0 <= t < n && t != idx implies #[trigger]
                        self.contexts.deep_view()[t] == prior_ctxs.deep_view()[t] by {
                            lemma_contexts_deep_view(self.contexts, t);
                            lemma_contexts_deep_view(prior_ctxs, t);
                        }
                        assert((self.contexts.deep_view()[idx as int]).key == prior.key);
                        assert((self.contexts.deep_view()[idx as int]).prefix == prior.prefix);
                        assert((self.contexts.deep_view()[idx as int]).buffer_units
                            == new_units as int);
                        assert forall|a: int|
                            0 <= a < self.contexts.deep_view().len() implies (#[trigger]
                        self.contexts.deep_view()[a]).key < WAKE_KEY
                            && self.contexts.deep_view()[a].key < self.next_key
                            && prefix_referenced(
                            self.contexts.deep_view()[a].prefix,
                            self.stripped.deep_view(),
                        ) by {
                            if a != idx {
                                assert(self.contexts.deep_view()[a] == prior_ctxs.deep_view()[
                                    a
                                ]);
                            } else {
                                assert(old(self).contexts.deep_view()[a] == prior);
                                assert((self.contexts.deep_view()[a]).key == prior.key);
                                assert((self.contexts.deep_view()[a]).prefix == prior.prefix);
                            }
                        }
                        assert forall|a: int, b: int|
                            0 <= a < b < self.contexts.deep_view().len() implies (#[trigger]
                        self.contexts.deep_view()[a]).key
                            != (#[trigger] self.contexts.deep_view()[b]).key
                            && self.contexts.deep_view()[a].prefix
                            != self.contexts.deep_view()[b].prefix by {
                            if a != idx && b != idx {
                                assert(self.contexts.deep_view()[a] == prior_ctxs.deep_view()[
                                    a
                                ]);
                                assert(self.contexts.deep_view()[b] == prior_ctxs.deep_view()[
                                    b
                                ]);
                            } else if a == idx {
                                assert(self.contexts.deep_view()[b] == prior_ctxs.deep_view()[
                                    b
                                ]);
                            } else {
                                assert(self.contexts.deep_view()[a] == prior_ctxs.deep_view()[
                                    a
                                ]);
                            }
                        }
                    }
                }
                proof {
                    assert forall|t: int|
                        0 <= t < idx implies (#[trigger] old(self).contexts.deep_view()[t]).key
                            != key as int by {
                        assert(old(self).contexts.deep_view()[t]
                            == prior_ctxs.deep_view()[t]);
                    }
                    assert forall|t: int|
                        idx < t < n && (#[trigger] old(self).contexts.deep_view()[t]).key
                            == key as int implies false by {
                        assert(prior_ctxs.deep_view()[idx as int].key
                            != prior_ctxs.deep_view()[t].key);
                    }
                }
                return DeliveryDecision::Rearm { key, buffer_units: new_units };
            }
            idx = idx + 1;
        }
        proof {
            assert(!has_key(self.contexts.deep_view(), key as int));
        }
        DeliveryDecision::Ignored
    }

    /// Whether a delivered batch concerns this monitor: it decodes, and
    /// some record name prefixes the tail of a stripped path watched under
    /// the directory of the context carrying `key`. A malformed batch, or a
    /// key no live context carries, is never relevant.
    #[verifier::loop_isolation(false)]
    pub fn delivery_relevant(&self, key: usize, data: &Vec<u8>) -> (r: bool)
        requires
            self.wf(),
        ensures
            !has_key(self.contexts.deep_view(), key as int) ==> r == false,
            forall|idx: int|
                0 <= idx < self.contexts.deep_view().len() && (
                #[trigger] self.contexts.deep_view()[idx]).key == key as int ==> r == (
                crate::records::spec_parse_records(data@, 0) is Some && spec_relevant(
                    self.stripped.deep_view(),
                    self.contexts.deep_view()[idx].prefix,
                    crate::records::spec_parse_records(data@, 0)->0,
                )),
    {
        broadcast use lemma_contexts_deep_view;

        let n = self.contexts.len();
        let mut idx: usize = 0;
        while idx < n
            invariant
                idx <= n,
                n == self.contexts@.len(),
                forall|t: int|
                    0 <= t < idx ==> (#[trigger] self.contexts.deep_view()[t]).key != key as int,
            decreases n - idx,
        {
            if self.contexts[idx].key == key {
                proof {
                    assert((self.contexts.deep_view()[idx as int]).key == key as int);
                }
                let r = match crate::records::parse_records(data) {
                    Ok(names) => batch_relevant(&self.stripped, &self.contexts[idx].prefix, &names),
                    Err(_) => false,
                };
                proof {
                    assert forall|t: int|
                        0 <= t < n && t != idx as int && (#[trigger]
                    self.contexts.deep_view()[t]).key == key as int implies false by {
                        if t < idx as int {
                        } else {
                            assert(self.contexts.deep_view()[idx as int].key
                                != self.contexts.deep_view()[t].key);
                        }
                    }
                }
                return r;
            }
            idx = idx + 1;
        }
        proof {
            assert(!has_key(self.contexts.deep_view(), key as int));
        }
        false
    }
}

} // verus!
