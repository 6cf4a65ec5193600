//! What holds of the engine across calls: the classification lists are
//! shallow, linking is idempotent, unlinking undoes linking and never touches
//! a target that points elsewhere.
use vstd::prelude::*;
use crate::paths::{PathV, below};
use crate::snapshot::Node;
use crate::dotfiles::{Layout, group_of};
use crate::symlinks::{
    is_classified, is_linked, raw_linked, linked_set, pending_set, foreign_set, link_run,
    link_status, unlink_run, Status, SymlinkHandler, config_entries, dotfile_paths, group_files,
    group_dir_present, linked_in_group, unlinked,
};
use crate::dotfiles::Dotfile;
use crate::paths::pv;

verus! {

/// No entry of a list lies below another entry of the same list.
pub proof fn lists_are_shallow(l: &Layout, m: Map<PathV, Node>)
    ensures
        forall|a: PathV, p: PathV|
            #![trigger linked_set(l, m).contains(a), linked_set(l, m).contains(p)]
            linked_set(l, m).contains(a) && linked_set(l, m).contains(p) ==> !below(a, p),
        forall|a: PathV, p: PathV|
            #![trigger pending_set(l, m).contains(a), pending_set(l, m).contains(p)]
            pending_set(l, m).contains(a) && pending_set(l, m).contains(p) ==> !below(a, p),
        forall|a: PathV, p: PathV|
            #![trigger foreign_set(l, m).contains(a), foreign_set(l, m).contains(p)]
            foreign_set(l, m).contains(a) && foreign_set(l, m).contains(p) ==> !below(a, p),
{
}

/// A directory whose target links back to it is reported alone: nothing
/// below it is reported linked or pending.
pub proof fn linked_directory_stands_alone(l: &Layout, m: Map<PathV, Node>, dir: PathV)
    requires
        m.contains_key(dir),
        is_classified(l, dir),
        is_linked(l, m, dir),
    ensures
        forall|p: PathV| below(dir, p) ==> !#[trigger] linked_set(l, m).contains(p),
        forall|p: PathV| below(dir, p) ==> !#[trigger] pending_set(l, m).contains(p),
{
    assert(raw_linked(l, m).contains(dir));
}

/// No pending entry lies below a linked one.
pub proof fn pending_never_below_linked(l: &Layout, m: Map<PathV, Node>)
    ensures
        forall|a: PathV, p: PathV|
            #![trigger raw_linked(l, m).contains(a), pending_set(l, m).contains(p)]
            raw_linked(l, m).contains(a) && pending_set(l, m).contains(p) ==> !below(a, p),
        forall|a: PathV, p: PathV|
            #![trigger linked_set(l, m).contains(a), pending_set(l, m).contains(p)]
            linked_set(l, m).contains(a) && pending_set(l, m).contains(p) ==> !below(a, p),
{
}

/// Linking only adds entries: whatever `m` holds stays as it was.
proof fn link_run_keeps(l: &Layout, srcs: Seq<PathV>, m: Map<PathV, Node>)
    ensures
        forall|t: PathV| #[trigger] m.contains_key(t) ==> link_run(l, srcs, m, false).contains_key(t)
            && link_run(l, srcs, m, false)[t] == m[t],
    decreases srcs.len(),
{
    if srcs.len() > 0 {
        link_run_keeps(l, srcs.drop_last(), m);
    }
}

/// After linking, the target of every file is taken.
proof fn link_run_fills(l: &Layout, srcs: Seq<PathV>, m: Map<PathV, Node>)
    ensures
        forall|k: int| 0 <= k < srcs.len() ==> link_run(l, srcs, m, false).contains_key(
            l.config_target(#[trigger] srcs[k]),
        ),
    decreases srcs.len(),
{
    if srcs.len() > 0 {
        let prev = srcs.drop_last();
        link_run_fills(l, prev, m);
        assert forall|k: int| 0 <= k < srcs.len() implies link_run(l, srcs, m, false).contains_key(
            l.config_target(#[trigger] srcs[k]),
        ) by {
            if k < srcs.len() - 1 {
                assert(prev[k] == srcs[k]);
            }
        }
    }
}

/// Linking files whose targets are all taken changes nothing.
proof fn link_run_on_taken(l: &Layout, srcs: Seq<PathV>, m: Map<PathV, Node>)
    requires
        forall|k: int| 0 <= k < srcs.len() ==> m.contains_key(l.config_target(#[trigger] srcs[k])),
    ensures
        link_run(l, srcs, m, false) == m,
    decreases srcs.len(),
{
    if srcs.len() > 0 {
        let prev = srcs.drop_last();
        assert forall|k: int| 0 <= k < prev.len() implies m.contains_key(l.config_target(#[trigger] prev[k])) by {
            assert(prev[k] == srcs[k]);
        }
        link_run_on_taken(l, prev, m);
        assert(m.contains_key(l.config_target(srcs[srcs.len() - 1])));
    }
}

/// Linking the same files twice: the second run finds every target taken and
/// leaves the filesystem as the first run left it.
pub proof fn link_is_idempotent(l: &Layout, srcs: Seq<PathV>, m: Map<PathV, Node>)
    ensures
        link_run(l, srcs, link_run(l, srcs, m, false), false) == link_run(l, srcs, m, false),
        forall|k: int|
            0 <= k < srcs.len() ==> link_status(
                l,
                link_run(l, srcs.take(k), link_run(l, srcs, m, false), false),
                #[trigger] srcs[k],
                false,
            ) == Status::AlreadyExists,
{
    let m1 = link_run(l, srcs, m, false);
    link_run_fills(l, srcs, m);
    link_run_on_taken(l, srcs, m1);
    assert forall|k: int| 0 <= k < srcs.len() implies link_status(
        l,
        link_run(l, srcs.take(k), m1, false),
        #[trigger] srcs[k],
        false,
    ) == Status::AlreadyExists by {
        let pre = srcs.take(k);
        assert forall|j: int| 0 <= j < pre.len() implies m1.contains_key(l.config_target(#[trigger] pre[j])) by {
            assert(pre[j] == srcs[j]);
        }
        link_run_on_taken(l, pre, m1);
    }
}

/// Two files of one group have the same target only if they are the same
/// file.
pub(crate) proof fn targets_in_group_differ(l: &Layout, p: PathV, q: PathV)
    requires
        is_classified(l, p),
        is_classified(l, q),
        group_of(l.configs(), p) == group_of(l.configs(), q),
        p != q,
    ensures
        l.config_target(p) != l.config_target(q),
{
    let c: int = l.configs().len() as int;
    let g = group_of(l.configs(), p);
    assert(g.len() == c + 1);
    if l.config_target(p) == l.config_target(q) {
        let rp = p.subrange(c + 1, p.len() as int);
        let rq = q.subrange(c + 1, q.len() as int);
        if l.root_group().is_prefix_of(g) {
            assert(rp == rq);
        } else {
            assert(rp =~= (l.home() + rp).subrange(l.home().len() as int, (l.home() + rp).len() as int));
            assert(rq =~= (l.home() + rq).subrange(l.home().len() as int, (l.home() + rq).len() as int));
            assert(rp == rq);
        }
        assert(p.subrange(0, c + 1) =~= g);
        assert(q.subrange(0, c + 1) =~= g);
        assert(p =~= p.subrange(0, c + 1) + rp);
        assert(q =~= q.subrange(0, c + 1) + rq);
    }
}

/// Linking files whose targets are free and differ: each target gets a
/// symlink to its file, and nothing else changes.
proof fn link_run_on_free(l: &Layout, srcs: Seq<PathV>, m: Map<PathV, Node>)
    requires
        forall|k: int| 0 <= k < srcs.len() ==> !m.contains_key(l.config_target(#[trigger] srcs[k])),
        forall|i: int, j: int|
            0 <= i < srcs.len() && 0 <= j < srcs.len() && i != j ==> l.config_target(#[trigger] srcs[i])
                != l.config_target(#[trigger] srcs[j]),
    ensures
        forall|k: int| 0 <= k < srcs.len() ==> link_run(l, srcs, m, false).contains_key(l.config_target(#[trigger] srcs[k]))
            && link_run(l, srcs, m, false)[l.config_target(srcs[k])] == Node::Link(srcs[k]),
        forall|t: PathV| #[trigger] link_run(l, srcs, m, false).contains_key(t) ==> m.contains_key(t) || exists|k: int|
            0 <= k < srcs.len() && t == l.config_target(srcs[k]),
        forall|t: PathV| #[trigger] m.contains_key(t) ==> link_run(l, srcs, m, false).contains_key(t)
            && link_run(l, srcs, m, false)[t] == m[t],
    decreases srcs.len(),
{
    link_run_keeps(l, srcs, m);
    if srcs.len() > 0 {
        let prev = srcs.drop_last();
        let n = srcs.len() - 1;
        let last = srcs[n];
        assert forall|k: int| 0 <= k < prev.len() implies !m.contains_key(l.config_target(#[trigger] prev[k])) by {
            assert(prev[k] == srcs[k]);
        }
        assert forall|i: int, j: int|
            0 <= i < prev.len() && 0 <= j < prev.len() && i != j implies l.config_target(#[trigger] prev[i])
                != l.config_target(#[trigger] prev[j]) by {
            assert(prev[i] == srcs[i]);
            assert(prev[j] == srcs[j]);
        }
        link_run_on_free(l, prev, m);
        let mp = link_run(l, prev, m, false);
        let t = l.config_target(last);
        assert(!mp.contains_key(t)) by {
            if mp.contains_key(t) {
                let k = choose|k: int| 0 <= k < prev.len() && t == l.config_target(prev[k]);
                assert(prev[k] == srcs[k]);
            }
        }
        let m1 = link_run(l, srcs, m, false);
        assert(m1 == mp.insert(t, Node::Link(last)));
        assert forall|k: int| 0 <= k < srcs.len() implies m1.contains_key(l.config_target(#[trigger] srcs[k]))
            && m1[l.config_target(srcs[k])] == Node::Link(srcs[k]) by {
            if k < n {
                assert(prev[k] == srcs[k]);
                assert(mp.contains_key(l.config_target(prev[k])));
            }
        }
        assert forall|x: PathV| #[trigger] m1.contains_key(x) implies m.contains_key(x) || exists|k: int|
            0 <= k < srcs.len() && x == l.config_target(srcs[k]) by {
            if x != t && !m.contains_key(x) {
                let k = choose|k: int| 0 <= k < prev.len() && x == l.config_target(prev[k]);
                assert(prev[k] == srcs[k]);
            }
        }
    }
}

/// Unlinking files that are all linked, to targets that differ, removes
/// exactly their targets.
pub(crate) proof fn unlink_run_on_linked(l: &Layout, srcs: Seq<PathV>, m: Map<PathV, Node>)
    requires
        forall|k: int| 0 <= k < srcs.len() ==> m.contains_key(l.config_target(#[trigger] srcs[k]))
            && m[l.config_target(srcs[k])] == Node::Link(srcs[k]),
        forall|i: int, j: int|
            0 <= i < srcs.len() && 0 <= j < srcs.len() && i != j ==> l.config_target(#[trigger] srcs[i])
                != l.config_target(#[trigger] srcs[j]),
    ensures
        forall|t: PathV| #[trigger] unlink_run(l, srcs, m).contains_key(t) == (m.contains_key(t) && !exists|k: int|
            0 <= k < srcs.len() && t == l.config_target(srcs[k])),
        forall|t: PathV| #[trigger] unlink_run(l, srcs, m).contains_key(t) ==> unlink_run(l, srcs, m)[t] == m[t],
    decreases srcs.len(),
{
    if srcs.len() > 0 {
        let prev = srcs.drop_last();
        let n = srcs.len() - 1;
        let last = srcs[n];
        assert forall|k: int| 0 <= k < prev.len() implies m.contains_key(l.config_target(#[trigger] prev[k]))
            && m[l.config_target(prev[k])] == Node::Link(prev[k]) by {
            assert(prev[k] == srcs[k]);
        }
        assert forall|i: int, j: int|
            0 <= i < prev.len() && 0 <= j < prev.len() && i != j implies l.config_target(#[trigger] prev[i])
                != l.config_target(#[trigger] prev[j]) by {
            assert(prev[i] == srcs[i]);
            assert(prev[j] == srcs[j]);
        }
        unlink_run_on_linked(l, prev, m);
        let mp = unlink_run(l, prev, m);
        let t = l.config_target(last);
        assert(mp.contains_key(t)) by {
            assert(m.contains_key(t));
            if exists|k: int| 0 <= k < prev.len() && t == l.config_target(prev[k]) {
                let k = choose|k: int| 0 <= k < prev.len() && t == l.config_target(prev[k]);
                assert(prev[k] == srcs[k]);
            }
        }
        assert(is_linked(l, mp, last));
        let m1 = unlink_run(l, srcs, m);
        assert(m1 == mp.remove(t));
        assert forall|x: PathV| #[trigger] m1.contains_key(x) == (m.contains_key(x) && !exists|k: int|
            0 <= k < srcs.len() && x == l.config_target(srcs[k])) by {
            if exists|k: int| 0 <= k < srcs.len() && x == l.config_target(srcs[k]) {
                let k = choose|k: int| 0 <= k < srcs.len() && x == l.config_target(srcs[k]);
                if k < n {
                    assert(prev[k] == srcs[k]);
                }
            }
            if exists|k: int| 0 <= k < prev.len() && x == l.config_target(prev[k]) {
                let k = choose|k: int| 0 <= k < prev.len() && x == l.config_target(prev[k]);
                assert(prev[k] == srcs[k]);
            }
        }
    }
}

/// For files of one group whose targets are all free, linking and then
/// unlinking them gives back the filesystem as it was, and with it the same
/// pending entries.
pub proof fn link_then_unlink_restores(l: &Layout, srcs: Seq<PathV>, m: Map<PathV, Node>)
    requires
        srcs.no_duplicates(),
        forall|k: int| 0 <= k < srcs.len() ==> is_classified(l, #[trigger] srcs[k]),
        forall|k: int| 0 <= k < srcs.len() ==> group_of(l.configs(), #[trigger] srcs[k]) == group_of(l.configs(), srcs[0]),
        forall|k: int| 0 <= k < srcs.len() ==> !m.contains_key(l.config_target(#[trigger] srcs[k])),
    ensures
        unlink_run(l, srcs, link_run(l, srcs, m, false)) == m,
        pending_set(l, unlink_run(l, srcs, link_run(l, srcs, m, false))) == pending_set(l, m),
{
    assert forall|i: int, j: int|
        0 <= i < srcs.len() && 0 <= j < srcs.len() && i != j implies l.config_target(#[trigger] srcs[i])
            != l.config_target(#[trigger] srcs[j]) by {
        targets_in_group_differ(l, srcs[i], srcs[j]);
    }
    link_run_on_free(l, srcs, m);
    let m1 = link_run(l, srcs, m, false);
    unlink_run_on_linked(l, srcs, m1);
    let m2 = unlink_run(l, srcs, m1);
    assert forall|t: PathV| #[trigger] m2.contains_key(t) == m.contains_key(t) by {
        if m.contains_key(t) {
            assert(m1.contains_key(t));
            if exists|k: int| 0 <= k < srcs.len() && t == l.config_target(srcs[k]) {
                let k = choose|k: int| 0 <= k < srcs.len() && t == l.config_target(srcs[k]);
            }
        }
    }
    assert(m2 =~= m);
}

/// Unlinking removes a target only where it is a symlink to the file being
/// unlinked: it adds nothing, and every other entry stays as it was.
pub proof fn unlink_spares_foreign(l: &Layout, srcs: Seq<PathV>, m: Map<PathV, Node>)
    ensures
        forall|t: PathV| #[trigger] unlink_run(l, srcs, m).contains_key(t) ==> m.contains_key(t)
            && unlink_run(l, srcs, m)[t] == m[t],
        forall|t: PathV|
            #[trigger] m.contains_key(t) && !unlink_run(l, srcs, m).contains_key(t) ==> exists|k: int|
                0 <= k < srcs.len() && t == l.config_target(srcs[k]) && m[t] == Node::Link(srcs[k]),
    decreases srcs.len(),
{
    if srcs.len() > 0 {
        let prev = srcs.drop_last();
        let n = srcs.len() - 1;
        unlink_spares_foreign(l, prev, m);
        let mp = unlink_run(l, prev, m);
        assert forall|t: PathV|
            #[trigger] m.contains_key(t) && !unlink_run(l, srcs, m).contains_key(t) implies exists|k: int|
                0 <= k < srcs.len() && t == l.config_target(srcs[k]) && m[t] == Node::Link(srcs[k]) by {
            if mp.contains_key(t) {
                assert(t == l.config_target(srcs[n]));
            } else {
                let k = choose|k: int| 0 <= k < prev.len() && t == l.config_target(prev[k]) && m[t] == Node::Link(prev[k]);
                assert(prev[k] == srcs[k]);
            }
        }
    }
}

/// A classified entry's group name is the path component right below
/// Configs.
proof fn entry_group_name(l: &Layout, d: Dotfile)
    requires
        is_classified(l, pv(&d.path)),
        d.resolves(l),
    ensures
        d.group_name@ == pv(&d.path)[l.configs().len() as int],
{
    assert(l.managed_root(pv(&d.path)) == Some(l.configs()));
}

/// The paths that `group_files` picks are those of the entries of the
/// group, each once where the list holds each path once.
proof fn group_files_members(l: &Layout, v: Seq<Dotfile>, g: Seq<char>)
    requires
        config_entries(l, v),
    ensures
        forall|x: PathV| #[trigger] group_files(v, g).contains(x) ==> exists|i: int|
            0 <= i < v.len() && pv(&v[i].path) == x && v[i].group_name@ == g,
        forall|i: int| 0 <= i < v.len() && (#[trigger] v[i]).group_name@ == g ==> group_files(v, g).contains(pv(&v[i].path)),
        dotfile_paths(v).no_duplicates() ==> group_files(v, g).no_duplicates(),
    decreases v.len(),
{
    if v.len() > 0 {
        let w = v.drop_last();
        let n = v.len() - 1;
        assert forall|i: int| 0 <= i < w.len() implies is_classified(l, pv(&w[i].path)) && (#[trigger] w[i]).resolves(l) by {
            assert(w[i] == v[i]);
        }
        group_files_members(l, w, g);
        let prev = group_files(w, g);
        assert forall|x: PathV| #[trigger] group_files(v, g).contains(x) implies exists|i: int|
            0 <= i < v.len() && pv(&v[i].path) == x && v[i].group_name@ == g by {
            if prev.contains(x) {
                let i = choose|i: int| 0 <= i < w.len() && pv(&w[i].path) == x && w[i].group_name@ == g;
                assert(w[i] == v[i]);
            } else {
                assert(pv(&v[n].path) == x);
            }
        }
        assert forall|i: int| 0 <= i < v.len() && (#[trigger] v[i]).group_name@ == g implies group_files(v, g).contains(pv(&v[i].path)) by {
            if i < n {
                assert(w[i] == v[i]);
                assert(prev.contains(pv(&w[i].path)));
                if v.last().group_name@ == g {
                    assert(prev.push(pv(&v.last().path))[prev.index_of(pv(&w[i].path))] == pv(&w[i].path));
                }
            } else {
                assert(prev.push(pv(&v.last().path))[prev.len() as int] == pv(&v[i].path));
            }
        }
        if dotfile_paths(v).no_duplicates() {
            assert forall|a: int, b: int| 0 <= a < w.len() && 0 <= b < w.len() && a != b
                implies dotfile_paths(w)[a] != dotfile_paths(w)[b] by {
                assert(dotfile_paths(w)[a] == dotfile_paths(v)[a]);
                assert(dotfile_paths(w)[b] == dotfile_paths(v)[b]);
            }
            if v.last().group_name@ == g {
                let y = pv(&v.last().path);
                if prev.contains(y) {
                    let i = choose|i: int| 0 <= i < w.len() && pv(&w[i].path) == y && w[i].group_name@ == g;
                    assert(dotfile_paths(v)[i] == dotfile_paths(v)[n]);
                }
                let q = prev.push(y);
                assert forall|a: int, b: int| 0 <= a < q.len() && 0 <= b < q.len() && a != b implies q[a] != q[b] by {
                    if a < prev.len() && b < prev.len() {
                    } else if a < prev.len() {
                        assert(prev.contains(q[a]));
                    } else {
                        assert(prev.contains(q[b]));
                    }
                }
            }
        }
    }
}

/// With one handler made for `m`: linking a group whose directory is there
/// and that has no conflicts, then unlinking it, gives back the filesystem as
/// it was (home directory and managed tree alike), and with it the same
/// pending entries. No conflicts means here: every classified entry of the
/// group has a free target or a real directory there, and no target lies in
/// the Configs tree.
pub proof fn add_then_remove_restores(h: &SymlinkHandler, g: Seq<char>, m: Map<PathV, Node>)
    requires
        h.wf(),
        h.reflects(m),
        group_dir_present(&h.layout, m, g),
        forall|p: PathV|
            #[trigger] m.contains_key(p) && is_classified(&h.layout, p) && p[h.layout.configs().len() as int] == g
                ==> (!m.contains_key(h.layout.config_target(p)) || m[h.layout.config_target(p)] == Node::Dir)
                && !is_classified(&h.layout, h.layout.config_target(p)),
    ensures
        h.step_map(true, g, false, h.step_map(false, g, false, m)) == m,
        pending_set(&h.layout, h.step_map(true, g, false, h.step_map(false, g, false, m))) == pending_set(&h.layout, m),
{
    let l = &h.layout;
    let c = l.configs().len() as int;
    let pending = group_files(h.not_symlinked@, g);
    let foreign = group_files(h.not_owned@, g);
    let linked0 = group_files(h.symlinked@, g);
    group_files_members(l, h.not_symlinked@, g);
    group_files_members(l, h.not_owned@, g);
    group_files_members(l, h.symlinked@, g);
    // Every source is a pending entry of the group.
    assert forall|x: PathV| #[trigger] pending.contains(x) implies pending_set(l, m).contains(x) && x[c] == g by {
        let i = choose|i: int| 0 <= i < h.not_symlinked@.len() && pv(&h.not_symlinked@[i].path) == x && h.not_symlinked@[i].group_name@ == g;
        assert(dotfile_paths(h.not_symlinked@)[i] == x);
        assert(dotfile_paths(h.not_symlinked@).to_set().contains(x));
        entry_group_name(l, h.not_symlinked@[i]);
    }
    // Nothing of the group is foreign or linked.
    if foreign.len() > 0 {
        let x = foreign[0];
        assert(foreign.contains(x));
        let i = choose|i: int| 0 <= i < h.not_owned@.len() && pv(&h.not_owned@[i].path) == x && h.not_owned@[i].group_name@ == g;
        assert(dotfile_paths(h.not_owned@)[i] == x);
        assert(dotfile_paths(h.not_owned@).to_set().contains(x));
        entry_group_name(l, h.not_owned@[i]);
    }
    if linked0.len() > 0 {
        let x = linked0[0];
        assert(linked0.contains(x));
        let i = choose|i: int| 0 <= i < h.symlinked@.len() && pv(&h.symlinked@[i].path) == x && h.symlinked@[i].group_name@ == g;
        assert(dotfile_paths(h.symlinked@)[i] == x);
        assert(dotfile_paths(h.symlinked@).to_set().contains(x));
        entry_group_name(l, h.symlinked@[i]);
    }
    assert(h.link_sources(g) =~= pending);
    // Linking puts a symlink at each free, distinct target.
    assert forall|k: int| 0 <= k < pending.len() implies is_classified(l, #[trigger] pending[k])
        && !m.contains_key(l.config_target(pending[k])) by {
        assert(pending.contains(pending[k]));
    }
    assert forall|i: int, j: int|
        0 <= i < pending.len() && 0 <= j < pending.len() && i != j implies l.config_target(#[trigger] pending[i])
            != l.config_target(#[trigger] pending[j]) by {
        assert(pending.contains(pending[i]));
        assert(pending.contains(pending[j]));
        targets_in_group_differ(l, pending[i], pending[j]);
    }
    link_run_on_free(l, pending, m);
    let m1 = link_run(l, pending, m, false);
    assert(h.step_map(false, g, false, m) == m1);
    assert(m.contains_key(l.configs().push(g)));
    assert(group_dir_present(l, m1, g));
    // In `m1`, the linked entries of the group are exactly the sources.
    let set = linked_in_group(l, m1, g);
    assert forall|x: PathV| is_classified(l, x) && x[c] == g && #[trigger] raw_linked(l, m1).contains(x) implies pending.contains(x) by {
        if !pending.contains(x) {
            assert(m1.contains_key(x));
            if !m.contains_key(x) {
                let k = choose|k: int| 0 <= k < pending.len() && x == l.config_target(pending[k]);
                assert(pending.contains(pending[k]));
            }
            let t = l.config_target(x);
            if exists|k: int| 0 <= k < pending.len() && t == l.config_target(pending[k]) {
                let k = choose|k: int| 0 <= k < pending.len() && t == l.config_target(pending[k]);
                assert(pending.contains(pending[k]));
                targets_in_group_differ(l, x, pending[k]);
            }
            assert(m.contains_key(t));
        }
    }
    assert forall|x: PathV| #[trigger] set.contains(x) == pending.contains(x) by {
        if pending.contains(x) {
            let k = choose|k: int| 0 <= k < pending.len() && pending[k] == x;
            assert(m1[l.config_target(pending[k])] == Node::Link(pending[k]));
            assert(raw_linked(l, m1).contains(x));
            assert forall|a: PathV| #[trigger] raw_linked(l, m1).contains(a) implies !below(a, x) by {
                if below(a, x) {
                    assert(a[c] == x[c]);
                    assert(pending.contains(a));
                    assert(pending_set(l, m).contains(a));
                }
            }
            assert(linked_set(l, m1).contains(x));
        }
    }
    let m2 = unlinked(l, m1, set);
    assert(h.step_map(true, g, false, m1) == m2);
    assert forall|t: PathV| #[trigger] m2.contains_key(t) == m.contains_key(t) by {
        link_run_keeps(l, pending, m);
        if m.contains_key(t) {
            assert(m1.contains_key(t));
            if exists|p: PathV| set.contains(p) && t == l.config_target(p) {
                let p = choose|p: PathV| set.contains(p) && t == l.config_target(p);
                let j = choose|j: int| 0 <= j < pending.len() && pending[j] == p;
                assert(!m.contains_key(l.config_target(pending[j])));
            }
        }
        if m2.contains_key(t) && !m.contains_key(t) {
            let k = choose|k: int| 0 <= k < pending.len() && t == l.config_target(pending[k]);
            assert(pending.contains(pending[k]));
            assert(set.contains(pending[k]));
        }
    }
    assert forall|t: PathV| #[trigger] m2.contains_key(t) implies m2[t] == m[t] by {
        link_run_keeps(l, pending, m);
    }
    assert(m2 =~= m);
}

} // verus!
