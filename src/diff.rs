//! The reconciliation engine: compares the baseline, scanned and remote trees
//! and lists the actions that bring them back in agreement.
use vstd::prelude::*;
use crate::item::{LocalItem, ItemTree, MetaView, lookup, paths_distinct, lemma_lookup, lemma_lookup_index};

verus! {

/// What must be done for one path.
///
/// Removals are named after the side on which the item disappeared:
/// `LocalRemoved` deletes the remote copy, `RemoteRemoved` the local one.
#[derive(Clone, Copy, Debug, PartialEq, Eq, Structural)]
pub enum ActionKind {
    ResyncLocal,
    LocalAdded,
    RemoteAdded,
    LocalUpgraded,
    RemoteUpgraded,
    LocalRemoved,
    RemoteRemoved,
    RemovedOnBothSides,
    ConflictAddLocalNewer,
    ConflictAddRemoteNewer,
    ConflictBothUpgraded,
    ConflictBothDowngraded,
    ConflictLocalUpgradedRemoteDowngraded,
    ConflictLocalDowngradedRemoteUpgraded,
    ErrorLocalDowngraded,
    ErrorRemoteDowngraded,
}

impl ActionKind {
    /// Both sides changed, or one side went back in time: no side is picked.
    pub open spec fn spec_is_unresolved(&self) -> bool {
        match self {
            ActionKind::ConflictAddLocalNewer | ActionKind::ConflictAddRemoteNewer
            | ActionKind::ConflictBothUpgraded | ActionKind::ConflictBothDowngraded
            | ActionKind::ConflictLocalUpgradedRemoteDowngraded
            | ActionKind::ConflictLocalDowngradedRemoteUpgraded
            | ActionKind::ErrorLocalDowngraded | ActionKind::ErrorRemoteDowngraded => true,
            _ => false,
        }
    }

    /// The change that calls for the action was made on the local side.
    pub open spec fn spec_is_local(&self) -> bool {
        match self {
            ActionKind::LocalAdded | ActionKind::LocalUpgraded | ActionKind::LocalRemoved
            | ActionKind::ResyncLocal => true,
            _ => false,
        }
    }

    #[verifier::when_used_as_spec(spec_is_local)]
    pub fn is_local(&self) -> (r: bool)
        ensures
            r == self.spec_is_local(),
    {
        match self {
            ActionKind::LocalAdded | ActionKind::LocalUpgraded | ActionKind::LocalRemoved
            | ActionKind::ResyncLocal => true,
            _ => false,
        }
    }

    #[verifier::when_used_as_spec(spec_is_unresolved)]
    pub fn is_unresolved(&self) -> (r: bool)
        ensures
            r == self.spec_is_unresolved(),
    {
        match self {
            ActionKind::ConflictAddLocalNewer | ActionKind::ConflictAddRemoteNewer
            | ActionKind::ConflictBothUpgraded | ActionKind::ConflictBothDowngraded
            | ActionKind::ConflictLocalUpgradedRemoteDowngraded
            | ActionKind::ConflictLocalDowngradedRemoteUpgraded
            | ActionKind::ErrorLocalDowngraded | ActionKind::ErrorRemoteDowngraded => true,
            _ => false,
        }
    }
}

/// Kind, size and timestamp agree.
pub open spec fn same_meta(a: MetaView, b: MetaView) -> bool {
    a.is_file == b.is_file && a.size == b.size && a.timestamp == b.timestamp
}

/// The action for one path, from its node in the baseline `b`, the scanned
/// tree `s` and the remote tree `r`, by comparing modification times.
/// Directories take part like files: both sides give them timestamp 0, so
/// their times compare as equal unless a side recorded otherwise.
pub open spec fn classify(b: Option<MetaView>, s: Option<MetaView>, r: Option<MetaView>) -> Option<ActionKind> {
    match (b, s, r) {
        (None, None, None) => None,
        (None, Some(_), None) => Some(ActionKind::LocalAdded),
        (None, None, Some(_)) => Some(ActionKind::RemoteAdded),
        (None, Some(sv), Some(rv)) => if sv.timestamp == rv.timestamp {
            Some(ActionKind::ResyncLocal)
        } else if sv.timestamp > rv.timestamp {
            Some(ActionKind::ConflictAddLocalNewer)
        } else {
            Some(ActionKind::ConflictAddRemoteNewer)
        },
        (Some(_), None, None) => Some(ActionKind::RemovedOnBothSides),
        (Some(bv), Some(sv), None) => if sv.timestamp == bv.timestamp {
            Some(ActionKind::RemoteRemoved)
        } else if sv.timestamp > bv.timestamp {
            Some(ActionKind::ConflictLocalUpgradedRemoteDowngraded)
        } else {
            Some(ActionKind::ConflictBothDowngraded)
        },
        (Some(bv), None, Some(rv)) => if rv.timestamp == bv.timestamp {
            Some(ActionKind::LocalRemoved)
        } else if rv.timestamp > bv.timestamp {
            Some(ActionKind::ConflictLocalDowngradedRemoteUpgraded)
        } else {
            Some(ActionKind::ConflictBothDowngraded)
        },
        (Some(bv), Some(sv), Some(rv)) => if sv.timestamp == bv.timestamp && rv.timestamp == bv.timestamp {
            if same_meta(bv, sv) {
                None
            } else {
                Some(ActionKind::ResyncLocal)
            }
        } else if sv.timestamp > bv.timestamp {
            if rv.timestamp == bv.timestamp {
                Some(ActionKind::LocalUpgraded)
            } else if rv.timestamp > bv.timestamp {
                Some(ActionKind::ConflictBothUpgraded)
            } else {
                Some(ActionKind::ConflictLocalUpgradedRemoteDowngraded)
            }
        } else if sv.timestamp == bv.timestamp {
            if rv.timestamp > bv.timestamp {
                Some(ActionKind::RemoteUpgraded)
            } else {
                Some(ActionKind::ErrorRemoteDowngraded)
            }
        } else {
            if rv.timestamp == bv.timestamp {
                Some(ActionKind::ErrorLocalDowngraded)
            } else if rv.timestamp > bv.timestamp {
                Some(ActionKind::ConflictLocalDowngradedRemoteUpgraded)
            } else {
                Some(ActionKind::ConflictBothDowngraded)
            }
        },
    }
}

pub open spec fn view_opt(o: Option<&LocalItem>) -> Option<MetaView> {
    match o {
        Some(m) => Some(m@),
        None => None,
    }
}

/// Executable form of [`classify`].
pub fn classify_items(b: Option<&LocalItem>, s: Option<&LocalItem>, r: Option<&LocalItem>) -> (k: Option<ActionKind>)
    ensures
        k == classify(view_opt(b), view_opt(s), view_opt(r)),
{
    match (b, s, r) {
        (None, None, None) => None,
        (None, Some(_), None) => Some(ActionKind::LocalAdded),
        (None, None, Some(_)) => Some(ActionKind::RemoteAdded),
        (None, Some(sv), Some(rv)) => if sv.timestamp == rv.timestamp {
            Some(ActionKind::ResyncLocal)
        } else if sv.timestamp > rv.timestamp {
            Some(ActionKind::ConflictAddLocalNewer)
        } else {
            Some(ActionKind::ConflictAddRemoteNewer)
        },
        (Some(_), None, None) => Some(ActionKind::RemovedOnBothSides),
        (Some(bv), Some(sv), None) => if sv.timestamp == bv.timestamp {
            Some(ActionKind::RemoteRemoved)
        } else if sv.timestamp > bv.timestamp {
            Some(ActionKind::ConflictLocalUpgradedRemoteDowngraded)
        } else {
            Some(ActionKind::ConflictBothDowngraded)
        },
        (Some(bv), None, Some(rv)) => if rv.timestamp == bv.timestamp {
            Some(ActionKind::LocalRemoved)
        } else if rv.timestamp > bv.timestamp {
            Some(ActionKind::ConflictLocalDowngradedRemoteUpgraded)
        } else {
            Some(ActionKind::ConflictBothDowngraded)
        },
        (Some(bv), Some(sv), Some(rv)) => if sv.timestamp == bv.timestamp && rv.timestamp == bv.timestamp {
            if bv.is_regular_file == sv.is_regular_file && bv.size == sv.size && bv.timestamp
                == sv.timestamp {
                None
            } else {
                Some(ActionKind::ResyncLocal)
            }
        } else if sv.timestamp > bv.timestamp {
            if rv.timestamp == bv.timestamp {
                Some(ActionKind::LocalUpgraded)
            } else if rv.timestamp > bv.timestamp {
                Some(ActionKind::ConflictBothUpgraded)
            } else {
                Some(ActionKind::ConflictLocalUpgradedRemoteDowngraded)
            }
        } else if sv.timestamp == bv.timestamp {
            if rv.timestamp > bv.timestamp {
                Some(ActionKind::RemoteUpgraded)
            } else {
                Some(ActionKind::ErrorRemoteDowngraded)
            }
        } else {
            if rv.timestamp == bv.timestamp {
                Some(ActionKind::ErrorLocalDowngraded)
            } else if rv.timestamp > bv.timestamp {
                Some(ActionKind::ConflictLocalDowngradedRemoteUpgraded)
            } else {
                Some(ActionKind::ConflictBothDowngraded)
            }
        },
    }
}

/// One unit of reconciliation work: its kind, the path it is about, and the
/// index of that path's node in each tree that holds it.
pub struct Action {
    pub kind: ActionKind,
    pub path: Vec<u8>,
    pub baseline: Option<usize>,
    pub scanned: Option<usize>,
    pub remote: Option<usize>,
}

pub ghost struct ActionView {
    pub kind: ActionKind,
    pub path: Seq<u8>,
}

impl View for Action {
    type V = ActionView;

    open spec fn view(&self) -> ActionView {
        ActionView { kind: self.kind, path: self.path@ }
    }
}

pub open spec fn actions_view(v: Seq<Action>) -> Seq<ActionView> {
    v.map_values(|a: Action| a@)
}

/// The action of kind `k` on `p`, if there is one.
pub open spec fn emit(k: Option<ActionKind>, p: Seq<u8>) -> Seq<ActionView> {
    match k {
        Some(kind) => seq![ActionView { kind, path: p }],
        None => Seq::empty(),
    }
}

/// Actions for the paths of the baseline nodes `bs`, in their order.
pub open spec fn pass_baseline(bs: Seq<MetaView>, s: Seq<MetaView>, r: Seq<MetaView>) -> Seq<ActionView>
    decreases bs.len(),
{
    if bs.len() == 0 {
        Seq::empty()
    } else {
        let p = bs.last().path;
        pass_baseline(bs.drop_last(), s, r) + emit(classify(Some(bs.last()), lookup(s, p), lookup(r, p)), p)
    }
}

/// Actions for the paths of the scanned nodes `ss` that the baseline lacks.
pub open spec fn pass_scanned(ss: Seq<MetaView>, b: Seq<MetaView>, r: Seq<MetaView>) -> Seq<ActionView>
    decreases ss.len(),
{
    if ss.len() == 0 {
        Seq::empty()
    } else {
        let p = ss.last().path;
        pass_scanned(ss.drop_last(), b, r) + if lookup(b, p) is None {
            emit(classify(None, Some(ss.last()), lookup(r, p)), p)
        } else {
            Seq::empty()
        }
    }
}

/// Actions for the paths of the remote nodes `rs` that both other trees lack.
pub open spec fn pass_remote(rs: Seq<MetaView>, b: Seq<MetaView>, s: Seq<MetaView>) -> Seq<ActionView>
    decreases rs.len(),
{
    if rs.len() == 0 {
        Seq::empty()
    } else {
        let p = rs.last().path;
        pass_remote(rs.drop_last(), b, s) + if lookup(b, p) is None && lookup(s, p) is None {
            emit(classify(None, None, Some(rs.last())), p)
        } else {
            Seq::empty()
        }
    }
}

/// The full action list: baseline paths first, in baseline order, then the
/// new scanned paths, then the paths that only the remote tree holds.
pub open spec fn spec_reconcile(b: Seq<MetaView>, s: Seq<MetaView>, r: Seq<MetaView>) -> Seq<ActionView> {
    pass_baseline(b, s, r) + pass_scanned(s, b, r) + pass_remote(r, b, s)
}

/// `i` is the index of the node at `p` in `t`, or there is none.
pub open spec fn ref_ok(i: Option<usize>, p: Seq<u8>, t: Seq<MetaView>) -> bool {
    match i {
        Some(j) => j < t.len() && t[j as int].path == p && lookup(t, p) == Some(t[j as int]),
        None => lookup(t, p) is None,
    }
}

pub open spec fn refs_ok(a: Action, b: Seq<MetaView>, s: Seq<MetaView>, r: Seq<MetaView>) -> bool {
    ref_ok(a.baseline, a.path@, b) && ref_ok(a.scanned, a.path@, s) && ref_ok(a.remote, a.path@, r)
        && classify(lookup(b, a.path@), lookup(s, a.path@), lookup(r, a.path@)) == Some(a.kind)
}

fn lookup_item<'a>(t: &'a ItemTree, p: &Vec<u8>) -> (r: (Option<usize>, Option<&'a LocalItem>))
    requires
        t.wf(),
    ensures
        ref_ok(r.0, p@, t@),
        view_opt(r.1) == lookup(t@, p@),
{
    match t.find_from_path(p) {
        Some(j) => (Some(j), Some(&t.items[j])),
        None => (None, None),
    }
}

proof fn lemma_push_view(v: Seq<Action>, a: Action)
    ensures
        actions_view(v.push(a)) == actions_view(v) + seq![a@],
{
    assert(actions_view(v.push(a)) =~= actions_view(v) + seq![a@]);
}

fn collect_actions(baseline: &ItemTree, scanned: &ItemTree, remote: &ItemTree) -> (actions: Vec<Action>)
    requires
        baseline.wf(),
        scanned.wf(),
        remote.wf(),
    ensures
        actions_view(actions@) == spec_reconcile(baseline@, scanned@, remote@),
        forall|k: int| 0 <= k < actions@.len() ==> refs_ok(#[trigger] actions@[k], baseline@, scanned@, remote@),
{
    let mut actions: Vec<Action> = Vec::new();
    let mut i: usize = 0;
    while i < baseline.items.len()
        invariant
            baseline.wf(),
            scanned.wf(),
            remote.wf(),
            i <= baseline@.len(),
            actions_view(actions@) == pass_baseline(baseline@.subrange(0, i as int), scanned@, remote@),
            forall|k: int| 0 <= k < actions@.len() ==> refs_ok(#[trigger] actions@[k], baseline@, scanned@, remote@),
        decreases baseline@.len() - i,
    {
        let item = &baseline.items[i];
        let (si, sm) = lookup_item(scanned, &item.path);
        let (ri, rm) = lookup_item(remote, &item.path);
        let k = classify_items(Some(item), sm, rm);
        proof {
            let bs = baseline@.subrange(0, i as int + 1);
            assert(bs.drop_last() =~= baseline@.subrange(0, i as int));
            assert(bs.last() == baseline@[i as int]);
            lemma_lookup_index(baseline@, i as int);
        }
        match k {
            Some(kind) => {
                let a = Action { kind, path: item.path.clone(), baseline: Some(i), scanned: si, remote: ri };
                proof {
                    lemma_push_view(actions@, a);
                }
                actions.push(a);
            },
            None => {},
        }
        i = i + 1;
    }
    assert(baseline@.subrange(0, baseline@.len() as int) =~= baseline@);
    let ghost first = actions_view(actions@);
    let mut i: usize = 0;
    while i < scanned.items.len()
        invariant
            baseline.wf(),
            scanned.wf(),
            remote.wf(),
            i <= scanned@.len(),
            first == pass_baseline(baseline@, scanned@, remote@),
            actions_view(actions@) == first + pass_scanned(scanned@.subrange(0, i as int), baseline@, remote@),
            forall|k: int| 0 <= k < actions@.len() ==> refs_ok(#[trigger] actions@[k], baseline@, scanned@, remote@),
        decreases scanned@.len() - i,
    {
        let item = &scanned.items[i];
        let (bi, _) = lookup_item(baseline, &item.path);
        proof {
            let ss = scanned@.subrange(0, i as int + 1);
            assert(ss.drop_last() =~= scanned@.subrange(0, i as int));
            assert(ss.last() == scanned@[i as int]);
            lemma_lookup_index(scanned@, i as int);
        }
        if bi.is_none() {
            let (ri, rm) = lookup_item(remote, &item.path);
            let k = classify_items(None, Some(item), rm);
            match k {
                Some(kind) => {
                    let a = Action { kind, path: item.path.clone(), baseline: None, scanned: Some(i), remote: ri };
                    proof {
                        lemma_push_view(actions@, a);
                    }
                    actions.push(a);
                },
                None => {},
            }
        }
        proof {
            let ghost pre = pass_scanned(scanned@.subrange(0, i as int), baseline@, remote@);
            assert(first + pre + emit(None, item.path@) =~= first + pre);
        }
        i = i + 1;
    }
    assert(scanned@.subrange(0, scanned@.len() as int) =~= scanned@);
    let ghost second = actions_view(actions@);
    let mut i: usize = 0;
    while i < remote.items.len()
        invariant
            baseline.wf(),
            scanned.wf(),
            remote.wf(),
            i <= remote@.len(),
            second == pass_baseline(baseline@, scanned@, remote@) + pass_scanned(scanned@, baseline@, remote@),
            actions_view(actions@) == second + pass_remote(remote@.subrange(0, i as int), baseline@, scanned@),
            forall|k: int| 0 <= k < actions@.len() ==> refs_ok(#[trigger] actions@[k], baseline@, scanned@, remote@),
        decreases remote@.len() - i,
    {
        let item = &remote.items[i];
        let (bi, _) = lookup_item(baseline, &item.path);
        let (si, _) = lookup_item(scanned, &item.path);
        proof {
            let rs = remote@.subrange(0, i as int + 1);
            assert(rs.drop_last() =~= remote@.subrange(0, i as int));
            assert(rs.last() == remote@[i as int]);
            lemma_lookup_index(remote@, i as int);
        }
        if bi.is_none() && si.is_none() {
            let a = Action { kind: ActionKind::RemoteAdded, path: item.path.clone(), baseline: None, scanned: None, remote: Some(i) };
            proof {
                lemma_push_view(actions@, a);
            }
            actions.push(a);
        }
        proof {
            let ghost pre = pass_remote(remote@.subrange(0, i as int), baseline@, scanned@);
            assert(second + pre + Seq::<ActionView>::empty() =~= second + pre);
        }
        i = i + 1;
    }
    assert(remote@.subrange(0, remote@.len() as int) =~= remote@);
    actions
}

/// Number of actions of kind `k` on path `p`.
pub open spec fn count_refs(acts: Seq<ActionView>, p: Seq<u8>, k: ActionKind) -> nat
    decreases acts.len(),
{
    if acts.len() == 0 {
        0
    } else {
        count_refs(acts.drop_last(), p, k) + if acts.last().path == p && acts.last().kind == k {
            1nat
        } else {
            0nat
        }
    }
}

proof fn lemma_count_add(a: Seq<ActionView>, b: Seq<ActionView>, p: Seq<u8>, k: ActionKind)
    ensures
        count_refs(a + b, p, k) == count_refs(a, p, k) + count_refs(b, p, k),
    decreases b.len(),
{
    if b.len() == 0 {
        assert(a + b =~= a);
    } else {
        assert((a + b).drop_last() =~= a + b.drop_last());
        assert((a + b).last() == b.last());
        lemma_count_add(a, b.drop_last(), p, k);
    }
}

proof fn lemma_count_emit(c: Option<ActionKind>, q: Seq<u8>, p: Seq<u8>, k: ActionKind)
    ensures
        count_refs(emit(c, q), p, k) == if q == p && c == Some(k) { 1nat } else { 0nat },
{
    let e = emit(c, q);
    if c is Some {
        assert(e.drop_last() =~= Seq::<ActionView>::empty());
        assert(count_refs(e.drop_last(), p, k) == 0);
        assert(e.last() == ActionView { kind: c->Some_0, path: q });
    } else {
        assert(e.len() == 0);
    }
}

proof fn lemma_baseline_pass_misses(bs: Seq<MetaView>, s: Seq<MetaView>, r: Seq<MetaView>, p: Seq<u8>, k: ActionKind)
    requires
        lookup(bs, p) is None,
    ensures
        count_refs(pass_baseline(bs, s, r), p, k) == 0,
    decreases bs.len(),
{
    if bs.len() > 0 {
        let q = bs.last().path;
        lemma_baseline_pass_misses(bs.drop_last(), s, r, p, k);
        lemma_count_add(pass_baseline(bs.drop_last(), s, r), emit(classify(Some(bs.last()), lookup(s, q), lookup(r, q)), q), p, k);
        lemma_count_emit(classify(Some(bs.last()), lookup(s, q), lookup(r, q)), q, p, k);
    }
}

proof fn lemma_scanned_pass_count(ss: Seq<MetaView>, b: Seq<MetaView>, r: Seq<MetaView>, p: Seq<u8>, k: ActionKind)
    requires
        paths_distinct(ss),
    ensures
        count_refs(pass_scanned(ss, b, r), p, k) == match lookup(ss, p) {
            Some(m) => if lookup(b, p) is None && classify(None, Some(m), lookup(r, p)) == Some(k) { 1nat } else { 0nat },
            None => 0nat,
        },
    decreases ss.len(),
{
    if ss.len() > 0 {
        let q = ss.last().path;
        let rest = ss.drop_last();
        assert(paths_distinct(rest)) by {
            assert forall|a: int, c: int| 0 <= a < rest.len() && 0 <= c < rest.len() && a != c implies rest[a].path != rest[c].path by {
                assert(rest[a] == ss[a]);
                assert(rest[c] == ss[c]);
            }
        }
        lemma_scanned_pass_count(rest, b, r, p, k);
        let tail = if lookup(b, q) is None {
            emit(classify(None, Some(ss.last()), lookup(r, q)), q)
        } else {
            Seq::empty()
        };
        lemma_count_add(pass_scanned(rest, b, r), tail, p, k);
        lemma_count_emit(classify(None, Some(ss.last()), lookup(r, q)), q, p, k);
        if q == p {
            lemma_lookup(rest, p);
            assert forall|i: int| 0 <= i < rest.len() implies rest[i].path != p by {
                assert(rest[i] == ss[i]);
                assert(ss[ss.len() - 1] == ss.last());
            }
        }
    }
}

proof fn lemma_remote_pass_count(rs: Seq<MetaView>, b: Seq<MetaView>, s: Seq<MetaView>, p: Seq<u8>, k: ActionKind)
    requires
        paths_distinct(rs),
    ensures
        count_refs(pass_remote(rs, b, s), p, k) == match lookup(rs, p) {
            Some(m) => if lookup(b, p) is None && lookup(s, p) is None && k == ActionKind::RemoteAdded { 1nat } else { 0nat },
            None => 0nat,
        },
    decreases rs.len(),
{
    if rs.len() > 0 {
        let q = rs.last().path;
        let rest = rs.drop_last();
        assert(paths_distinct(rest)) by {
            assert forall|a: int, c: int| 0 <= a < rest.len() && 0 <= c < rest.len() && a != c implies rest[a].path != rest[c].path by {
                assert(rest[a] == rs[a]);
                assert(rest[c] == rs[c]);
            }
        }
        lemma_remote_pass_count(rest, b, s, p, k);
        let tail = if lookup(b, q) is None && lookup(s, q) is None {
            emit(classify(None, None, Some(rs.last())), q)
        } else {
            Seq::empty()
        };
        lemma_count_add(pass_remote(rest, b, s), tail, p, k);
        lemma_count_emit(classify(None, None, Some(rs.last())), q, p, k);
        if q == p {
            lemma_lookup(rest, p);
            assert forall|i: int| 0 <= i < rest.len() implies rest[i].path != p by {
                assert(rest[i] == rs[i]);
                assert(rs[rs.len() - 1] == rs.last());
            }
        }
    }
}

/// Every path that only the scanned tree holds is referenced by exactly one
/// `LocalAdded` action, and every path that only the remote tree holds by
/// exactly one `RemoteAdded` action.
pub proof fn lemma_coverage(b: Seq<MetaView>, s: Seq<MetaView>, r: Seq<MetaView>, p: Seq<u8>)
    requires
        paths_distinct(b),
        paths_distinct(s),
        paths_distinct(r),
    ensures
        lookup(b, p) is None && lookup(s, p) is Some && lookup(r, p) is None ==> count_refs(
            spec_reconcile(b, s, r),
            p,
            ActionKind::LocalAdded,
        ) == 1,
        lookup(b, p) is None && lookup(s, p) is None && lookup(r, p) is Some ==> count_refs(
            spec_reconcile(b, s, r),
            p,
            ActionKind::RemoteAdded,
        ) == 1,
        lookup(b, p) is None && lookup(s, p) is Some && lookup(r, p) is None ==> count_refs(
            spec_actions(b, s, r),
            p,
            ActionKind::LocalAdded,
        ) == 1,
        lookup(b, p) is None && lookup(s, p) is None && lookup(r, p) is Some ==> count_refs(
            spec_actions(b, s, r),
            p,
            ActionKind::RemoteAdded,
        ) == 1,
{
    lemma_sort_by_len(spec_reconcile(b, s, r));
    lemma_add_conflict(b, s, r, p);
    let k1 = ActionKind::LocalAdded;
    let k2 = ActionKind::RemoteAdded;
    if lookup(b, p) is None {
        lemma_count_add(pass_baseline(b, s, r) + pass_scanned(s, b, r), pass_remote(r, b, s), p, k1);
        lemma_count_add(pass_baseline(b, s, r), pass_scanned(s, b, r), p, k1);
        lemma_count_add(pass_baseline(b, s, r) + pass_scanned(s, b, r), pass_remote(r, b, s), p, k2);
        lemma_count_add(pass_baseline(b, s, r), pass_scanned(s, b, r), p, k2);
        lemma_baseline_pass_misses(b, s, r, p, k1);
        lemma_baseline_pass_misses(b, s, r, p, k2);
        lemma_scanned_pass_count(s, b, r, p, k1);
        lemma_scanned_pass_count(s, b, r, p, k2);
        lemma_remote_pass_count(r, b, s, p, k1);
        lemma_remote_pass_count(r, b, s, p, k2);
    }
}

/// A path new on both sides with different timestamps is referenced by
/// exactly one add-conflict action, naming the side with the newer one.
pub proof fn lemma_add_conflict(b: Seq<MetaView>, s: Seq<MetaView>, r: Seq<MetaView>, p: Seq<u8>)
    requires
        paths_distinct(b),
        paths_distinct(s),
        paths_distinct(r),
    ensures
        lookup(b, p) is None && lookup(s, p) is Some && lookup(r, p) is Some && lookup(s, p)->Some_0.timestamp
            > lookup(r, p)->Some_0.timestamp ==> count_refs(spec_actions(b, s, r), p, ActionKind::ConflictAddLocalNewer) == 1
            && count_refs(spec_actions(b, s, r), p, ActionKind::ConflictAddRemoteNewer) == 0,
        lookup(b, p) is None && lookup(s, p) is Some && lookup(r, p) is Some && lookup(s, p)->Some_0.timestamp
            < lookup(r, p)->Some_0.timestamp ==> count_refs(spec_actions(b, s, r), p, ActionKind::ConflictAddRemoteNewer) == 1
            && count_refs(spec_actions(b, s, r), p, ActionKind::ConflictAddLocalNewer) == 0,
{
    lemma_sort_by_len(spec_reconcile(b, s, r));
    if lookup(b, p) is None {
        let k3 = ActionKind::ConflictAddLocalNewer;
        let k4 = ActionKind::ConflictAddRemoteNewer;
        lemma_count_add(pass_baseline(b, s, r) + pass_scanned(s, b, r), pass_remote(r, b, s), p, k3);
        lemma_count_add(pass_baseline(b, s, r), pass_scanned(s, b, r), p, k3);
        lemma_count_add(pass_baseline(b, s, r) + pass_scanned(s, b, r), pass_remote(r, b, s), p, k4);
        lemma_count_add(pass_baseline(b, s, r), pass_scanned(s, b, r), p, k4);
        lemma_baseline_pass_misses(b, s, r, p, k3);
        lemma_baseline_pass_misses(b, s, r, p, k4);
        lemma_scanned_pass_count(s, b, r, p, k3);
        lemma_scanned_pass_count(s, b, r, p, k4);
        lemma_remote_pass_count(r, b, s, p, k3);
        lemma_remote_pass_count(r, b, s, p, k4);
    }
}

/// What applying an action of kind `k` leaves at its path in the baseline,
/// scanned and remote trees. An upload gives the remote side the local
/// metadata, a download gives the local file the remote size and timestamp,
/// and unresolved kinds change nothing.
pub open spec fn settle(k: ActionKind, b: Option<MetaView>, s: Option<MetaView>, r: Option<MetaView>) -> (
    Option<MetaView>,
    Option<MetaView>,
    Option<MetaView>,
) {
    match k {
        ActionKind::LocalAdded | ActionKind::LocalUpgraded => (s, s, s),
        ActionKind::RemoteAdded | ActionKind::RemoteUpgraded => (r, r, r),
        ActionKind::ResyncLocal => (s, s, r),
        ActionKind::LocalRemoved | ActionKind::RemoteRemoved | ActionKind::RemovedOnBothSides => (
            None,
            None,
            None,
        ),
        _ => (b, s, r),
    }
}

/// A path whose action was applied needs no further action.
pub proof fn lemma_settled_path(b: Option<MetaView>, s: Option<MetaView>, r: Option<MetaView>)
    requires
        classify(b, s, r) matches Some(k) && !k.spec_is_unresolved(),
    ensures
        ({
            let (b2, s2, r2) = settle(classify(b, s, r)->Some_0, b, s, r);
            classify(b2, s2, r2) is None
        }),
{
}

proof fn lemma_passes_empty(b: Seq<MetaView>, s: Seq<MetaView>, r: Seq<MetaView>, bs: Seq<MetaView>, ss: Seq<MetaView>, rs: Seq<MetaView>)
    requires
        forall|i: int| 0 <= i < bs.len() ==> classify(Some(bs[i]), lookup(s, #[trigger] bs[i].path), lookup(r, bs[i].path)) is None,
        forall|i: int| 0 <= i < ss.len() ==> lookup(b, #[trigger] ss[i].path) is None ==> classify(None, Some(ss[i]), lookup(r, ss[i].path)) is None,
        forall|i: int| 0 <= i < rs.len() ==> lookup(b, #[trigger] rs[i].path) is None ==> lookup(s, rs[i].path) is Some,
    ensures
        pass_baseline(bs, s, r).len() == 0,
        pass_scanned(ss, b, r).len() == 0,
        pass_remote(rs, b, s).len() == 0,
    decreases bs.len() + ss.len() + rs.len(),
{
    if bs.len() > 0 {
        assert(bs.last() == bs[bs.len() - 1]);
        assert forall|i: int| 0 <= i < bs.len() - 1 implies bs.drop_last()[i] == bs[i] by {}
        lemma_passes_empty(b, s, r, bs.drop_last(), ss, rs);
    } else if ss.len() > 0 {
        assert(ss.last() == ss[ss.len() - 1]);
        assert forall|i: int| 0 <= i < ss.len() - 1 implies ss.drop_last()[i] == ss[i] by {}
        lemma_passes_empty(b, s, r, bs, ss.drop_last(), rs);
    } else if rs.len() > 0 {
        assert(rs.last() == rs[rs.len() - 1]);
        assert forall|i: int| 0 <= i < rs.len() - 1 implies rs.drop_last()[i] == rs[i] by {}
        lemma_passes_empty(b, s, r, bs, ss, rs.drop_last());
    }
}

/// Trees in which no path needs an action give an empty action list.
pub proof fn lemma_settled_trees(b: Seq<MetaView>, s: Seq<MetaView>, r: Seq<MetaView>)
    requires
        paths_distinct(b),
        paths_distinct(s),
        paths_distinct(r),
        forall|p: Seq<u8>| #[trigger] classify(lookup(b, p), lookup(s, p), lookup(r, p)) is None,
    ensures
        spec_reconcile(b, s, r).len() == 0,
        spec_actions(b, s, r).len() == 0,
{
    lemma_sort_by_len(spec_reconcile(b, s, r));
    assert forall|i: int| 0 <= i < b.len() implies classify(Some(b[i]), lookup(s, #[trigger] b[i].path), lookup(r, b[i].path)) is None by {
        lemma_lookup_index(b, i);
        assert(classify(lookup(b, b[i].path), lookup(s, b[i].path), lookup(r, b[i].path)) is None);
    }
    assert forall|i: int| 0 <= i < s.len() && lookup(b, #[trigger] s[i].path) is None implies classify(None, Some(s[i]), lookup(r, s[i].path)) is None by {
        lemma_lookup_index(s, i);
        assert(classify(lookup(b, s[i].path), lookup(s, s[i].path), lookup(r, s[i].path)) is None);
    }
    assert forall|i: int| 0 <= i < r.len() && lookup(b, #[trigger] r[i].path) is None implies lookup(s, r[i].path) is Some by {
        lemma_lookup_index(r, i);
        assert(classify(lookup(b, r[i].path), lookup(s, r[i].path), lookup(r, r[i].path)) is None);
    }
    lemma_passes_empty(b, s, r, b, s, r);
}

/// Reconciling again after every action of a round was applied, with no
/// other change, finds nothing to do. `b2`, `s2`, `r2` are the trees after
/// the round: at each path they hold what [`settle`] gives for the path's
/// action, or what they held before where there was none. Unresolved kinds
/// are left out: applying them changes nothing, so they come back.
pub proof fn lemma_idempotent(
    b: Seq<MetaView>,
    s: Seq<MetaView>,
    r: Seq<MetaView>,
    b2: Seq<MetaView>,
    s2: Seq<MetaView>,
    r2: Seq<MetaView>,
)
    requires
        paths_distinct(b2),
        paths_distinct(s2),
        paths_distinct(r2),
        forall|p: Seq<u8>| #[trigger] classify(lookup(b, p), lookup(s, p), lookup(r, p)) matches Some(k) ==> !k.spec_is_unresolved(),
        forall|p: Seq<u8>| #[trigger] classify(lookup(b, p), lookup(s, p), lookup(r, p)) is None ==> (
            lookup(b2, p),
            lookup(s2, p),
            lookup(r2, p),
        ) == (lookup(b, p), lookup(s, p), lookup(r, p)),
        forall|p: Seq<u8>| #[trigger] classify(lookup(b, p), lookup(s, p), lookup(r, p)) matches Some(k) ==> (
            lookup(b2, p),
            lookup(s2, p),
            lookup(r2, p),
        ) == settle(k, lookup(b, p), lookup(s, p), lookup(r, p)),
    ensures
        spec_reconcile(b2, s2, r2).len() == 0,
        spec_actions(b2, s2, r2).len() == 0,
{
    assert forall|p: Seq<u8>| #[trigger] classify(lookup(b2, p), lookup(s2, p), lookup(r2, p)) is None by {
        let c = classify(lookup(b, p), lookup(s, p), lookup(r, p));
        if c is Some {
            lemma_settled_path(lookup(b, p), lookup(s, p), lookup(r, p));
        }
    }
    lemma_settled_trees(b2, s2, r2);
}

/// `x` placed after the last action of `s` whose path is no longer than
/// its own.
pub open spec fn insert_by_len(s: Seq<ActionView>, x: ActionView) -> Seq<ActionView>
    decreases s.len(),
{
    if s.len() == 0 || s.last().path.len() <= x.path.len() {
        s.push(x)
    } else {
        insert_by_len(s.drop_last(), x).push(s.last())
    }
}

/// `s` reordered by path length, keeping the order of equal lengths.
pub open spec fn sort_by_len(s: Seq<ActionView>) -> Seq<ActionView>
    decreases s.len(),
{
    if s.len() == 0 {
        s
    } else {
        insert_by_len(sort_by_len(s.drop_last()), s.last())
    }
}

pub open spec fn sorted_by_len(s: Seq<ActionView>) -> bool {
    forall|i: int, j: int| 0 <= i < j < s.len() ==> s[i].path.len() <= s[j].path.len()
}

/// The engine's output: the action list ordered so that a directory's
/// action comes before the actions inside it.
pub open spec fn spec_actions(b: Seq<MetaView>, s: Seq<MetaView>, r: Seq<MetaView>) -> Seq<ActionView> {
    sort_by_len(spec_reconcile(b, s, r))
}

proof fn lemma_insert_at(s: Seq<ActionView>, x: ActionView, j: int)
    requires
        0 <= j <= s.len(),
        j == 0 || s[j - 1].path.len() <= x.path.len(),
        forall|k: int| j <= k < s.len() ==> s[k].path.len() > x.path.len(),
    ensures
        insert_by_len(s, x) == s.insert(j, x),
    decreases s.len(),
{
    if s.len() == 0 {
        assert(s.insert(j, x) =~= s.push(x));
    } else if j == s.len() {
        assert(s.insert(j, x) =~= s.push(x));
    } else {
        assert(s.last() == s[s.len() - 1]);
        let t = s.drop_last();
        assert forall|k: int| j <= k < t.len() implies t[k].path.len() > x.path.len() by {
            assert(t[k] == s[k]);
        }
        if j > 0 {
            assert(t[j - 1] == s[j - 1]);
        }
        lemma_insert_at(t, x, j);
        assert(t.insert(j, x).push(s.last()) =~= s.insert(j, x));
    }
}

proof fn lemma_insert_sorted(s: Seq<ActionView>, x: ActionView)
    requires
        sorted_by_len(s),
    ensures
        sorted_by_len(insert_by_len(s, x)),
        insert_by_len(s, x).len() == s.len() + 1,
        forall|p: Seq<u8>, k: ActionKind| #[trigger] count_refs(insert_by_len(s, x), p, k) == count_refs(s, p, k) + if x.path == p && x.kind == k { 1nat } else { 0nat },
    decreases s.len(),
{
    if s.len() > 0 && s.last().path.len() > x.path.len() {
        let t = s.drop_last();
        assert(sorted_by_len(t)) by {
            assert forall|i: int, j: int| 0 <= i < j < t.len() implies t[i].path.len() <= t[j].path.len() by {
                assert(t[i] == s[i]);
                assert(t[j] == s[j]);
            }
        }
        lemma_insert_sorted(t, x);
        let u = insert_by_len(t, x);
        let v = u.push(s.last());
        assert(v.drop_last() =~= u);
        assert forall|i: int, j: int| 0 <= i < j < v.len() implies v[i].path.len() <= v[j].path.len() by {
            if j == v.len() - 1 {
                assert(v[j] == s.last());
                if i < u.len() {
                    assert(v[i] == u[i]);
                    assert(u.len() == t.len() + 1);
                    lemma_insert_members(t, x, i);
                    if u[i] != x {
                        let m = choose|m: int| 0 <= m < t.len() && t[m] == u[i];
                        assert(t[m] == s[m]);
                        assert(s[s.len() - 1] == s.last());
                    }
                }
            } else {
                assert(v[i] == u[i]);
                assert(v[j] == u[j]);
            }
        }
        assert forall|p: Seq<u8>, k: ActionKind| #[trigger] count_refs(v, p, k) == count_refs(s, p, k) + if x.path == p && x.kind == k { 1nat } else { 0nat } by {
            assert(count_refs(v, p, k) == count_refs(u, p, k) + if s.last().path == p && s.last().kind == k { 1nat } else { 0nat });
            assert(count_refs(u, p, k) == count_refs(t, p, k) + if x.path == p && x.kind == k { 1nat } else { 0nat });
        }
    } else {
        let v = s.push(x);
        assert(v.drop_last() =~= s);
        assert forall|i: int, j: int| 0 <= i < j < v.len() implies v[i].path.len() <= v[j].path.len() by {
            assert(v[i] == s[i] || i == s.len());
            if j == s.len() {
                assert(v[j] == x);
                assert(v[i] == s[i]);
                assert(s[s.len() - 1] == s.last());
            } else {
                assert(v[i] == s[i]);
                assert(v[j] == s[j]);
            }
        }
        assert forall|p: Seq<u8>, k: ActionKind| #[trigger] count_refs(v, p, k) == count_refs(s, p, k) + if x.path == p && x.kind == k { 1nat } else { 0nat } by {}
    }
}

proof fn lemma_insert_members(s: Seq<ActionView>, x: ActionView, i: int)
    requires
        0 <= i < insert_by_len(s, x).len(),
    ensures
        insert_by_len(s, x).len() == s.len() + 1,
        insert_by_len(s, x)[i] == x || exists|m: int| 0 <= m < s.len() && s[m] == insert_by_len(s, x)[i],
    decreases s.len(),
{
    if s.len() > 0 && s.last().path.len() > x.path.len() {
        let t = s.drop_last();
        let u = insert_by_len(t, x);
        lemma_insert_members(t, x, 0);
        if i < u.len() {
            lemma_insert_members(t, x, i);
            if u[i] != x {
                let m = choose|m: int| 0 <= m < t.len() && t[m] == u[i];
                assert(s[m] == t[m]);
            }
        } else {
            assert(s[s.len() - 1] == s.last());
        }
    } else {
        if i < s.len() {
            assert(s.push(x)[i] == s[i]);
        }
    }
}

/// Sorting keeps every action once and orders them by path length.
pub proof fn lemma_sort_by_len(s: Seq<ActionView>)
    ensures
        sorted_by_len(sort_by_len(s)),
        sort_by_len(s).len() == s.len(),
        forall|p: Seq<u8>, k: ActionKind| #[trigger] count_refs(sort_by_len(s), p, k) == count_refs(s, p, k),
    decreases s.len(),
{
    if s.len() > 0 {
        lemma_sort_by_len(s.drop_last());
        lemma_insert_sorted(sort_by_len(s.drop_last()), s.last());
    }
}

/// Compares the three trees and lists the actions, one per path that needs
/// one, ordered by path length so that a directory comes before what it
/// holds; paths of equal length keep the order of [`spec_reconcile`].
pub fn reconcile(baseline: &ItemTree, scanned: &ItemTree, remote: &ItemTree) -> (actions: Vec<Action>)
    requires
        baseline.wf(),
        scanned.wf(),
        remote.wf(),
    ensures
        actions_view(actions@) == spec_actions(baseline@, scanned@, remote@),
        forall|k: int| 0 <= k < actions@.len() ==> refs_ok(#[trigger] actions@[k], baseline@, scanned@, remote@),
{
    let mut pending = collect_actions(baseline, scanned, remote);
    let ghost all = actions_view(pending@);
    let mut sorted: Vec<Action> = Vec::new();
    let total = pending.len();
    let ghost n = all.len();
    assert(all.subrange(0, n as int) =~= all);
    let mut i: usize = 0;
    while pending.len() > 0
        invariant
            i + pending@.len() == n,
            n == all.len(),
            n == total,
            actions_view(pending@) == all.subrange(i as int, n as int),
            actions_view(sorted@) == sort_by_len(all.subrange(0, i as int)),
            forall|k: int| 0 <= k < sorted@.len() ==> refs_ok(#[trigger] sorted@[k], baseline@, scanned@, remote@),
            forall|k: int| 0 <= k < pending@.len() ==> refs_ok(#[trigger] pending@[k], baseline@, scanned@, remote@),
        decreases pending@.len(),
    {
        let ghost before = pending@;
        let x = pending.remove(0);
        proof {
            assert(actions_view(before)[0] == x@);
            assert(all.subrange(i as int, n as int)[0] == all[i as int]);
            assert(x@ == all[i as int]);
            assert forall|k: int| 0 <= k < pending@.len() implies actions_view(pending@)[k] == all.subrange(i + 1, n as int)[k] by {
                assert(pending@[k] == before[k + 1]);
                assert(actions_view(before)[k + 1] == all.subrange(i as int, n as int)[k + 1]);
            }
            assert(actions_view(pending@) =~= all.subrange(i + 1, n as int));
            assert(refs_ok(before[0], baseline@, scanned@, remote@));
            assert forall|k: int| 0 <= k < pending@.len() implies refs_ok(#[trigger] pending@[k], baseline@, scanned@, remote@) by {
                assert(pending@[k] == before[k + 1]);
            }
            let pre = all.subrange(0, i as int + 1);
            assert(pre.drop_last() =~= all.subrange(0, i as int));
            assert(pre.last() == all[i as int]);
            lemma_sort_by_len(all.subrange(0, i as int));
        }
        let mut j: usize = sorted.len();
        while j > 0 && sorted[j - 1].path.len() > x.path.len()
            invariant
                j <= sorted@.len(),
                forall|k: int| j <= k < sorted@.len() ==> #[trigger] actions_view(sorted@)[k].path.len() > x@.path.len(),
            decreases j,
        {
            j = j - 1;
        }
        proof {
            lemma_insert_at(actions_view(sorted@), x@, j as int);
            assert(actions_view(sorted@.insert(j as int, x)) =~= actions_view(sorted@).insert(j as int, x@));
        }
        let ghost old_sorted = sorted@;
        sorted.insert(j, x);
        proof {
            assert forall|k: int| 0 <= k < sorted@.len() implies refs_ok(#[trigger] sorted@[k], baseline@, scanned@, remote@) by {
                if k < j {
                    assert(sorted@[k] == old_sorted[k]);
                } else if k > j {
                    assert(sorted@[k] == old_sorted[k - 1]);
                }
            }
        }
        i = i + 1;
    }
    assert(all.subrange(0, n as int) =~= all);
    sorted
}

/// In the engine's output, an action on a directory comes before every
/// action on a path inside it: a parent's path is shorter than its child's.
pub proof fn lemma_parents_first(b: Seq<MetaView>, s: Seq<MetaView>, r: Seq<MetaView>, i: int, j: int)
    requires
        0 <= i < spec_actions(b, s, r).len(),
        0 <= j < spec_actions(b, s, r).len(),
        crate::item::spec_parent_path(spec_actions(b, s, r)[j].path) == Some(spec_actions(b, s, r)[i].path),
    ensures
        i < j,
{
    lemma_sort_by_len(spec_reconcile(b, s, r));
    let a = spec_actions(b, s, r);
    crate::item::lemma_parent_shorter(a[j].path);
}

} // verus!
