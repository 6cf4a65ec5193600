//! The reconciliation engine: which managed files are linked, pending or
//! blocked by a foreign symlink, and the link and unlink operations built on
//! that classification.
use vstd::prelude::*;
use crate::paths::{PathV, pv, below, path_is_below, path_clone, path_eq, path_slice};
use crate::snapshot::{FsSnapshot, Node, EntryKind};
use crate::dotfiles::{Dotfile, Layout, DotfileType, ReturnCode, Platform, group_of, is_variant, is_variant_name};
use crate::paths::{str_eq, names_contain};

verus! {

/// `p` is an entry of the Configs tree that gets classified: anything below a
/// group directory.
pub open spec fn is_classified(l: &Layout, p: PathV) -> bool {
    l.configs().len() + 2 <= p.len() && l.configs().is_prefix_of(p)
}

/// The target of `p` is a symlink to `p`.
pub open spec fn is_linked(l: &Layout, m: Map<PathV, Node>, p: PathV) -> bool {
    let t = l.config_target(p);
    m.contains_key(t) && m[t] == Node::Link(p)
}

/// The target of `p` is a symlink to somewhere else.
pub open spec fn is_foreign(l: &Layout, m: Map<PathV, Node>, p: PathV) -> bool {
    let t = l.config_target(p);
    m.contains_key(t) && m[t] is Link && m[t] != Node::Link(p)
}

/// The target of `p` is missing, or is something that is neither a symlink
/// nor a directory.
pub open spec fn is_pending(l: &Layout, m: Map<PathV, Node>, p: PathV) -> bool {
    let t = l.config_target(p);
    !m.contains_key(t) || m[t] is File
}

/// Where an entry of the managed tree stands.
#[derive(Clone, Copy, Debug, PartialEq, Eq, Structural)]
pub enum Standing {
    Linked,
    Pending,
    Foreign,
    /// Not classified: a group directory, a path outside the Configs tree, or
    /// an entry whose target is an existing directory.
    Unlisted,
}

/// The standing of one path, before any collapsing.
pub open spec fn standing(l: &Layout, m: Map<PathV, Node>, p: PathV) -> Standing {
    if !is_classified(l, p) {
        Standing::Unlisted
    } else if is_linked(l, m, p) {
        Standing::Linked
    } else if is_foreign(l, m, p) {
        Standing::Foreign
    } else if is_pending(l, m, p) {
        Standing::Pending
    } else {
        Standing::Unlisted
    }
}

/// The entries of the snapshot with a given standing.
pub open spec fn raw_class(l: &Layout, m: Map<PathV, Node>, want: Standing) -> Set<PathV> {
    m.dom().filter(|p: PathV| standing(l, m, p) == want)
}

pub open spec fn raw_linked(l: &Layout, m: Map<PathV, Node>) -> Set<PathV> {
    raw_class(l, m, Standing::Linked)
}

pub open spec fn raw_pending(l: &Layout, m: Map<PathV, Node>) -> Set<PathV> {
    raw_class(l, m, Standing::Pending)
}

pub open spec fn raw_foreign(l: &Layout, m: Map<PathV, Node>) -> Set<PathV> {
    raw_class(l, m, Standing::Foreign)
}

/// The members of `s` that lie below no member of `by`.
pub open spec fn shallowest(s: Set<PathV>, by: Set<PathV>) -> Set<PathV> {
    s.filter(|p: PathV| !exists|a: PathV| by.contains(a) && below(a, p))
}

/// The entries reported as linked.
pub open spec fn linked_set(l: &Layout, m: Map<PathV, Node>) -> Set<PathV> {
    shallowest(raw_linked(l, m), raw_linked(l, m))
}

/// The entries reported as pending: none lies below a linked entry, nor
/// below another pending one.
pub open spec fn pending_set(l: &Layout, m: Map<PathV, Node>) -> Set<PathV> {
    let p = shallowest(raw_pending(l, m), raw_linked(l, m));
    shallowest(p, p)
}

/// The entries reported as foreign.
pub open spec fn foreign_set(l: &Layout, m: Map<PathV, Node>) -> Set<PathV> {
    shallowest(raw_foreign(l, m), raw_foreign(l, m))
}

/// The paths of a list of managed files.
pub open spec fn dotfile_paths(v: Seq<Dotfile>) -> Seq<PathV> {
    Seq::new(v.len(), |i: int| pv(&v[i].path))
}

/// The members of `s` that lie below no member of `by`, in order.
fn keep_shallowest(s: &Vec<Vec<String>>, by: &Vec<Vec<String>>) -> (r: Vec<Vec<String>>)
    requires
        s.deep_view().no_duplicates(),
    ensures
        r.deep_view().no_duplicates(),
        r.deep_view().to_set() == shallowest(s.deep_view().to_set(), by.deep_view().to_set()),
{
    let ghost sv = s.deep_view();
    let ghost bv = by.deep_view();
    let ghost target = shallowest(sv.to_set(), bv.to_set());
    let mut out: Vec<Vec<String>> = Vec::new();
    let mut i: usize = 0;
    while i < s.len()
        invariant
            0 <= i <= s.len(),
            sv == s.deep_view(),
            bv == by.deep_view(),
            sv.no_duplicates(),
            target == shallowest(sv.to_set(), bv.to_set()),
            out.deep_view().no_duplicates(),
            forall|k: int| #![trigger out.deep_view()[k]] 0 <= k < out.len() ==> exists|j: int| 0 <= j < i && out.deep_view()[k] == sv[j],
            forall|k: int| 0 <= k < out.len() ==> target.contains(#[trigger] out.deep_view()[k]),
            forall|j: int| 0 <= j < i && target.contains(#[trigger] sv[j]) ==> out.deep_view().contains(sv[j]),
        decreases s.len() - i,
    {
        let mut covered = false;
        let mut j: usize = 0;
        while j < by.len()
            invariant
                0 <= j <= by.len(),
                i < s.len(),
                sv == s.deep_view(),
                bv == by.deep_view(),
                covered == exists|k: int| 0 <= k < j && below(bv[k], sv[i as int]),
            decreases by.len() - j,
        {
            let hit = path_is_below(&by[j], &s[i]);
            proof {
                assert(pv(&by[j as int]) == bv[j as int]);
                assert(pv(&s[i as int]) == sv[i as int]);
                if hit {
                    assert(below(bv[j as int], sv[i as int]));
                }
            }
            if hit {
                covered = true;
            }
            j += 1;
        }
        let ghost x = sv[i as int];
        proof {
            assert(sv.to_set().contains(x));
            if covered {
                let k = choose|k: int| 0 <= k < by.len() && below(bv[k], x);
                assert(bv.to_set().contains(bv[k]));
            } else {
                assert forall|a: PathV| #[trigger] bv.to_set().contains(a) implies !below(a, x) by {
                    let k = choose|k: int| 0 <= k < bv.len() && bv[k] == a;
                }
            }
        }
        let ghost prev = out.deep_view();
        if !covered {
            out.push(path_clone(&s[i]));
            proof {
                assert(out.deep_view() =~= prev.push(x));
                assert forall|k: int| 0 <= k < prev.len() implies #[trigger] prev[k] != x by {
                    let j = choose|j: int| 0 <= j < i && prev[k] == sv[j];
                }
                assert forall|k: int| #![trigger out.deep_view()[k]] 0 <= k < out.len() implies exists|j: int|
                    0 <= j < i + 1 && out.deep_view()[k] == sv[j] by {
                    if k < prev.len() {
                        assert(out.deep_view()[k] == prev[k]);
                    } else {
                        assert(out.deep_view()[k] == sv[i as int]);
                    }
                }
                assert forall|a: int, b: int|
                    0 <= a < out.len() && 0 <= b < out.len() && a != b implies out.deep_view()[a]
                    != out.deep_view()[b] by {
                    if a < prev.len() && b < prev.len() {
                        assert(out.deep_view()[a] == prev[a]);
                        assert(out.deep_view()[b] == prev[b]);
                    } else if a < prev.len() {
                        assert(out.deep_view()[a] == prev[a]);
                    } else {
                        assert(out.deep_view()[b] == prev[b]);
                    }
                }
                assert forall|jj: int| 0 <= jj < i + 1 && target.contains(#[trigger] sv[jj]) implies out.deep_view().contains(sv[jj]) by {
                    if jj < i {
                        let k = choose|k: int| 0 <= k < prev.len() && prev[k] == sv[jj];
                        assert(out.deep_view()[k] == prev[k]);
                    } else {
                        assert(out.deep_view()[prev.len() as int] == x);
                    }
                }
            }
        } else {
            proof {
                assert(!target.contains(x));
            }
        }
        i += 1;
    }
    proof {
        let ov = out.deep_view();
        assert forall|p: PathV| #[trigger] ov.to_set().contains(p) == target.contains(p) by {
            if ov.to_set().contains(p) {
                let k = choose|k: int| 0 <= k < ov.len() && ov[k] == p;
            }
            if target.contains(p) {
                let j = choose|j: int| 0 <= j < sv.len() && sv[j] == p;
            }
        }
        assert(ov.to_set() =~= target);
    }
    out
}

/// Where the entry `p` of the Configs tree is deployed.
pub fn config_target_path(l: &Layout, p: &Vec<String>) -> (r: Vec<String>)
    requires
        is_classified(l, pv(p)),
    ensures
        pv(&r) == l.config_target(pv(p)),
{
    let ghost cfg = l.configs();
    let ghost g = group_of(cfg, pv(p));
    assert(pv(&l.dotfiles_dir).len() == l.dotfiles_dir.len());
    assert(pv(p).len() == p.len());
    let n = l.dotfiles_dir.len() + 1;
    assert(cfg.len() == n);
    let rest = path_slice(p, n + 1);
    let is_root = crate::paths::str_eq(p[n].as_str(), "Root");
    proof {
        assert(g == cfg.push(pv(p)[n as int]));
        if is_root {
            assert(l.root_group() =~= g);
        } else {
            assert(l.root_group()[n as int] != g[n as int]);
        }
    }
    if is_root {
        rest
    } else {
        crate::paths::path_join(&l.home_dir, &rest)
    }
}

/// The standing of the entry `p`, read from the snapshot.
pub fn standing_of(l: &Layout, fs: &FsSnapshot, p: &Vec<String>) -> (r: Standing)
    requires
        fs.wf(),
    ensures
        r == standing(l, fs@, pv(p)),
{
    let cfg = l.root_path(DotfileType::Configs);
    assert(pv(p).len() == p.len() && pv(&cfg).len() == cfg.len());
    if !(p.len() >= 2 && cfg.len() <= p.len() - 2 && crate::paths::path_starts_with(p, &cfg)) {
        return Standing::Unlisted;
    }
    let t = config_target_path(l, p);
    match fs.lookup(&t) {
        Some(EntryKind::Symlink(to)) => {
            if path_eq(to, p) {
                Standing::Linked
            } else {
                Standing::Foreign
            }
        },
        Some(EntryKind::Dir) => Standing::Unlisted,
        Some(EntryKind::File) => Standing::Pending,
        None => Standing::Pending,
    }
}

/// The paths of the snapshot's entries with standing `want`, each once.
fn collect_standing(l: &Layout, fs: &FsSnapshot, want: Standing) -> (r: Vec<Vec<String>>)
    requires
        fs.wf(),
    ensures
        r.deep_view().no_duplicates(),
        r.deep_view().to_set() == raw_class(l, fs@, want),
{
    let ghost m = fs@;
    let mut out: Vec<Vec<String>> = Vec::new();
    let mut i: usize = 0;
    while i < fs.entries.len()
        invariant
            fs.wf(),
            m == fs@,
            0 <= i <= fs.entries.len(),
            out.deep_view().no_duplicates(),
            forall|k: int| #![trigger out.deep_view()[k]] 0 <= k < out.len() ==> exists|j: int|
                0 <= j < i && out.deep_view()[k] == pv(&fs.entries[j].path),
            forall|k: int| 0 <= k < out.len() ==> raw_class(l, m, want).contains(#[trigger] out.deep_view()[k]),
            forall|j: int| 0 <= j < i && raw_class(l, m, want).contains(#[trigger] pv(&fs.entries[j].path))
                ==> out.deep_view().contains(pv(&fs.entries[j].path)),
        decreases fs.entries.len() - i,
    {
        let ghost x = pv(&fs.entries[i as int].path);
        proof {
            fs.lemma_entry(i as int);
        }
        let ghost prev = out.deep_view();
        if standing_of(l, fs, &fs.entries[i].path) == want {
            out.push(path_clone(&fs.entries[i].path));
            proof {
                assert(out.deep_view() =~= prev.push(x));
                assert forall|k: int| 0 <= k < prev.len() implies #[trigger] prev[k] != x by {
                    let j = choose|j: int| 0 <= j < i && prev[k] == pv(&fs.entries[j].path);
                }
                assert forall|k: int| #![trigger out.deep_view()[k]] 0 <= k < out.len() implies exists|j: int|
                    0 <= j < i + 1 && out.deep_view()[k] == pv(&fs.entries[j].path) by {
                    if k < prev.len() {
                        assert(out.deep_view()[k] == prev[k]);
                    } else {
                        assert(out.deep_view()[k] == x);
                    }
                }
                assert forall|a: int, b: int|
                    0 <= a < out.len() && 0 <= b < out.len() && a != b implies out.deep_view()[a]
                    != out.deep_view()[b] by {
                    if a < prev.len() && b < prev.len() {
                        assert(out.deep_view()[a] == prev[a]);
                        assert(out.deep_view()[b] == prev[b]);
                    } else if a < prev.len() {
                        assert(out.deep_view()[a] == prev[a]);
                    } else {
                        assert(out.deep_view()[b] == prev[b]);
                    }
                }
                assert forall|jj: int| 0 <= jj < i + 1 && raw_class(l, m, want).contains(#[trigger] pv(&fs.entries[jj].path))
                    implies out.deep_view().contains(pv(&fs.entries[jj].path)) by {
                    if jj < i {
                        let k = choose|k: int| 0 <= k < prev.len() && prev[k] == pv(&fs.entries[jj].path);
                        assert(out.deep_view()[k] == prev[k]);
                    } else {
                        assert(out.deep_view()[prev.len() as int] == x);
                    }
                }
            }
        }
        i += 1;
    }
    proof {
        let ov = out.deep_view();
        assert forall|p: PathV| #[trigger] ov.to_set().contains(p) == raw_class(l, m, want).contains(p) by {
            if ov.to_set().contains(p) {
                let k = choose|k: int| 0 <= k < ov.len() && ov[k] == p;
            }
            if raw_class(l, m, want).contains(p) {
                let j = fs.index_of(p);
                assert(raw_class(l, m, want).contains(pv(&fs.entries[j].path)));
            }
        }
        assert(ov.to_set() =~= raw_class(l, m, want));
    }
    out
}

/// Every file of `v` is a classified entry of the Configs tree, with its
/// group.
pub open spec fn config_entries(l: &Layout, v: Seq<Dotfile>) -> bool {
    forall|i: int| 0 <= i < v.len() ==> is_classified(l, pv(&v[i].path)) && (#[trigger] v[i]).resolves(l)
}

/// The managed files at the paths `v`.
fn to_dotfiles(l: &Layout, v: &Vec<Vec<String>>) -> (r: Vec<Dotfile>)
    requires
        forall|k: int| 0 <= k < v.len() ==> is_classified(l, #[trigger] v.deep_view()[k]),
    ensures
        dotfile_paths(r@) == v.deep_view(),
        config_entries(l, r@),
{
    let mut out: Vec<Dotfile> = Vec::new();
    let mut i: usize = 0;
    while i < v.len()
        invariant
            0 <= i <= v.len(),
            forall|k: int| 0 <= k < v.len() ==> is_classified(l, #[trigger] v.deep_view()[k]),
            dotfile_paths(out@) == v.deep_view().take(i as int),
            config_entries(l, out@),
        decreases v.len() - i,
    {
        assert(is_classified(l, v.deep_view()[i as int]));
        let ghost prev = out@;
        match Dotfile::resolve(path_clone(&v[i]), l) {
            Ok(d) => {
                out.push(d);
                assert(dotfile_paths(out@) =~= dotfile_paths(prev).push(v.deep_view()[i as int]));
            },
            Err(_) => {
                // Every path here lies in the Configs tree, so it resolves.
                assert(false);
            },
        }
        assert(v.deep_view().take(i + 1) =~= v.deep_view().take(i as int).push(v.deep_view()[i as int]));
        i += 1;
    }
    assert(v.deep_view().take(v.len() as int) =~= v.deep_view());
    out
}

/// The classification of the managed tree against the home directory.
#[derive(Clone, Debug, PartialEq, Eq)]
pub struct SymlinkHandler {
    pub layout: Layout,
    /// Entries whose target is a symlink back to them.
    pub symlinked: Vec<Dotfile>,
    /// Entries whose target is missing or is a plain file.
    pub not_symlinked: Vec<Dotfile>,
    /// Entries whose target is a symlink to somewhere else.
    pub not_owned: Vec<Dotfile>,
}

impl SymlinkHandler {
    /// Every listed file is a classified entry of the Configs tree, listed
    /// once.
    pub open spec fn wf(&self) -> bool {
        &&& config_entries(&self.layout, self.symlinked@)
        &&& config_entries(&self.layout, self.not_symlinked@)
        &&& config_entries(&self.layout, self.not_owned@)
        &&& dotfile_paths(self.symlinked@).no_duplicates()
        &&& dotfile_paths(self.not_symlinked@).no_duplicates()
        &&& dotfile_paths(self.not_owned@).no_duplicates()
    }

    /// The three lists are the classification of the filesystem `m`.
    pub open spec fn reflects(&self, m: Map<PathV, Node>) -> bool {
        &&& dotfile_paths(self.symlinked@).to_set() == linked_set(&self.layout, m)
        &&& dotfile_paths(self.not_symlinked@).to_set() == pending_set(&self.layout, m)
        &&& dotfile_paths(self.not_owned@).to_set() == foreign_set(&self.layout, m)
    }

    /// Classifies every entry of the Configs tree that the snapshot holds,
    /// then drops each pending entry that lies below a linked one, and in each
    /// list each entry that lies below another entry of the same list.
    pub fn validate_symlinks(layout: Layout, fs: &FsSnapshot) -> (r: SymlinkHandler)
        requires
            fs.wf(),
        ensures
            r.layout == layout,
            r.wf(),
            r.reflects(fs@),
    {
        let linked = collect_standing(&layout, fs, Standing::Linked);
        let pending = collect_standing(&layout, fs, Standing::Pending);
        let foreign = collect_standing(&layout, fs, Standing::Foreign);
        let pending = keep_shallowest(&pending, &linked);
        let pending = keep_shallowest(&pending, &pending);
        let linked = keep_shallowest(&linked, &linked);
        let foreign = keep_shallowest(&foreign, &foreign);
        proof {
            assert forall|k: int| 0 <= k < linked.len() implies is_classified(&layout, #[trigger] linked.deep_view()[k]) by {
                assert(linked.deep_view().to_set().contains(linked.deep_view()[k]));
            }
            assert forall|k: int| 0 <= k < pending.len() implies is_classified(&layout, #[trigger] pending.deep_view()[k]) by {
                assert(pending.deep_view().to_set().contains(pending.deep_view()[k]));
            }
            assert forall|k: int| 0 <= k < foreign.len() implies is_classified(&layout, #[trigger] foreign.deep_view()[k]) by {
                assert(foreign.deep_view().to_set().contains(foreign.deep_view()[k]));
            }
        }
        let symlinked = to_dotfiles(&layout, &linked);
        let not_symlinked = to_dotfiles(&layout, &pending);
        let not_owned = to_dotfiles(&layout, &foreign);
        SymlinkHandler { layout, symlinked, not_symlinked, not_owned }
    }

    /// The classification of the snapshot, or `NoSetupFolder` when it holds no
    /// Configs directory.
    pub fn new(layout: Layout, fs: &FsSnapshot) -> (r: Result<SymlinkHandler, ReturnCode>)
        requires
            fs.wf(),
        ensures
            r is Ok == (fs@.contains_key(layout.configs()) && fs@[layout.configs()] == Node::Dir),
            r is Ok ==> r->Ok_0.layout == layout && r->Ok_0.wf() && r->Ok_0.reflects(fs@),
            r is Err ==> r->Err_0 == ReturnCode::NoSetupFolder,
    {
        let cfg = layout.root_path(DotfileType::Configs);
        match fs.lookup(&cfg) {
            Some(EntryKind::Dir) => Ok(SymlinkHandler::validate_symlinks(layout, fs)),
            _ => Err(ReturnCode::NoSetupFolder),
        }
    }
}

/// What an operation did at one target; the filesystem has to be brought
/// to match.
#[derive(Clone, Copy, Debug, PartialEq, Eq, Structural)]
pub enum Status {
    /// The target was free: a symlink to the source goes there.
    Created,
    /// The target was taken by something else and is cleared (or its
    /// content adopted into the managed tree); a symlink to the source goes
    /// there.
    Replaced,
    /// The target was taken and is left as it was: either it already links
    /// to the source, or it is a conflict that is not overridden.
    AlreadyExists,
    /// The target was a symlink to the source and is removed.
    Removed,
    /// The target is not a symlink to the source and is left as it was.
    NotLinked,
}

/// The outcome of an operation on one managed file.
#[derive(Clone, Debug, PartialEq, Eq)]
pub struct FileOutcome {
    pub source: Vec<String>,
    pub target: Vec<String>,
    pub status: Status,
}

/// Linking one file: a symlink is made at its target unless something lies
/// there already, and that is a link to the file or `overwrite` is off.
pub open spec fn link_step(l: &Layout, m: Map<PathV, Node>, p: PathV, overwrite: bool) -> Map<PathV, Node> {
    let t = l.config_target(p);
    if m.contains_key(t) && (!overwrite || m[t] == Node::Link(p)) {
        m
    } else {
        m.insert(t, Node::Link(p))
    }
}

pub open spec fn link_status(l: &Layout, m: Map<PathV, Node>, p: PathV, overwrite: bool) -> Status {
    let t = l.config_target(p);
    if m.contains_key(t) {
        if overwrite && m[t] != Node::Link(p) {
            Status::Replaced
        } else {
            Status::AlreadyExists
        }
    } else {
        Status::Created
    }
}

/// Linking the files `srcs` one after the other.
pub open spec fn link_run(l: &Layout, srcs: Seq<PathV>, m: Map<PathV, Node>, overwrite: bool) -> Map<PathV, Node>
    decreases srcs.len(),
{
    if srcs.len() == 0 {
        m
    } else {
        link_step(l, link_run(l, srcs.drop_last(), m, overwrite), srcs.last(), overwrite)
    }
}

/// Unlinking one file: its target is removed only where it is a symlink to
/// the file.
pub open spec fn unlink_step(l: &Layout, m: Map<PathV, Node>, p: PathV) -> Map<PathV, Node> {
    if is_linked(l, m, p) {
        m.remove(l.config_target(p))
    } else {
        m
    }
}

pub open spec fn unlink_status(l: &Layout, m: Map<PathV, Node>, p: PathV) -> Status {
    if is_linked(l, m, p) {
        Status::Removed
    } else {
        Status::NotLinked
    }
}

/// Unlinking the files `srcs` one after the other.
pub open spec fn unlink_run(l: &Layout, srcs: Seq<PathV>, m: Map<PathV, Node>) -> Map<PathV, Node>
    decreases srcs.len(),
{
    if srcs.len() == 0 {
        m
    } else {
        unlink_step(l, unlink_run(l, srcs.drop_last(), m), srcs.last())
    }
}

/// Links the files `srcs` in order, recording each new symlink in `fs`.
pub fn link_files(l: &Layout, srcs: &Vec<Vec<String>>, overwrite: bool, fs: &mut FsSnapshot) -> (r: Vec<FileOutcome>)
    requires
        old(fs).wf(),
        forall|k: int| 0 <= k < srcs.len() ==> is_classified(l, #[trigger] srcs.deep_view()[k]),
    ensures
        final(fs).wf(),
        final(fs)@ == link_run(l, srcs.deep_view(), old(fs)@, overwrite),
        r.len() == srcs.len(),
        forall|k: int| 0 <= k < r.len() ==> {
            &&& pv(&(#[trigger] r[k]).source) == srcs.deep_view()[k]
            &&& pv(&r[k].target) == l.config_target(srcs.deep_view()[k])
            &&& r[k].status == link_status(l, link_run(l, srcs.deep_view().take(k), old(fs)@, overwrite), srcs.deep_view()[k], overwrite)
        },
{
    let ghost sv = srcs.deep_view();
    let ghost m0 = old(fs)@;
    let mut out: Vec<FileOutcome> = Vec::new();
    let mut i: usize = 0;
    assert(sv.take(0) =~= Seq::<PathV>::empty());
    while i < srcs.len()
        invariant
            fs.wf(),
            sv == srcs.deep_view(),
            m0 == old(fs)@,
            forall|k: int| 0 <= k < srcs.len() ==> is_classified(l, #[trigger] sv[k]),
            0 <= i <= srcs.len(),
            fs@ == link_run(l, sv.take(i as int), m0, overwrite),
            out.len() == i,
            forall|k: int| 0 <= k < out.len() ==> {
                &&& pv(&(#[trigger] out[k]).source) == sv[k]
                &&& pv(&out[k].target) == l.config_target(sv[k])
                &&& out[k].status == link_status(l, link_run(l, sv.take(k), m0, overwrite), sv[k], overwrite)
            },
        decreases srcs.len() - i,
    {
        assert(is_classified(l, sv[i as int]));
        assert(pv(&srcs[i as int]) == sv[i as int]);
        let target = config_target_path(l, &srcs[i]);
        assert(sv.take(i + 1).drop_last() =~= sv.take(i as int));
        assert(sv.take(i + 1).last() == sv[i as int]);
        let status = match fs.lookup(&target) {
            None => Status::Created,
            Some(kind) => {
                let own = match kind {
                    EntryKind::Symlink(to) => path_eq(to, &srcs[i]),
                    _ => false,
                };
                if overwrite && !own {
                    Status::Replaced
                } else {
                    Status::AlreadyExists
                }
            },
        };
        if status != Status::AlreadyExists {
            fs.insert(path_clone(&target), EntryKind::Symlink(path_clone(&srcs[i])));
        }
        out.push(FileOutcome { source: path_clone(&srcs[i]), target, status });
        i += 1;
    }
    assert(sv.take(srcs.len() as int) =~= sv);
    out
}

/// Unlinks the files `srcs` in order, recording each removal in `fs`.
pub fn unlink_files(l: &Layout, srcs: &Vec<Vec<String>>, fs: &mut FsSnapshot) -> (r: Vec<FileOutcome>)
    requires
        old(fs).wf(),
        forall|k: int| 0 <= k < srcs.len() ==> is_classified(l, #[trigger] srcs.deep_view()[k]),
    ensures
        final(fs).wf(),
        final(fs)@ == unlink_run(l, srcs.deep_view(), old(fs)@),
        r.len() == srcs.len(),
        forall|k: int| 0 <= k < r.len() ==> {
            &&& pv(&(#[trigger] r[k]).source) == srcs.deep_view()[k]
            &&& pv(&r[k].target) == l.config_target(srcs.deep_view()[k])
            &&& r[k].status == unlink_status(l, unlink_run(l, srcs.deep_view().take(k), old(fs)@), srcs.deep_view()[k])
        },
{
    let ghost sv = srcs.deep_view();
    let ghost m0 = old(fs)@;
    let mut out: Vec<FileOutcome> = Vec::new();
    let mut i: usize = 0;
    assert(sv.take(0) =~= Seq::<PathV>::empty());
    while i < srcs.len()
        invariant
            fs.wf(),
            sv == srcs.deep_view(),
            m0 == old(fs)@,
            forall|k: int| 0 <= k < srcs.len() ==> is_classified(l, #[trigger] sv[k]),
            0 <= i <= srcs.len(),
            fs@ == unlink_run(l, sv.take(i as int), m0),
            out.len() == i,
            forall|k: int| 0 <= k < out.len() ==> {
                &&& pv(&(#[trigger] out[k]).source) == sv[k]
                &&& pv(&out[k].target) == l.config_target(sv[k])
                &&& out[k].status == unlink_status(l, unlink_run(l, sv.take(k), m0), sv[k])
            },
        decreases srcs.len() - i,
    {
        assert(is_classified(l, sv[i as int]));
        assert(pv(&srcs[i as int]) == sv[i as int]);
        let target = config_target_path(l, &srcs[i]);
        assert(sv.take(i + 1).drop_last() =~= sv.take(i as int));
        assert(sv.take(i + 1).last() == sv[i as int]);
        let owned = match fs.lookup(&target) {
            Some(EntryKind::Symlink(to)) => path_eq(to, &srcs[i]),
            _ => false,
        };
        let status = if owned {
            Status::Removed
        } else {
            Status::NotLinked
        };
        if owned {
            fs.remove(&target);
        }
        out.push(FileOutcome { source: path_clone(&srcs[i]), target, status });
        i += 1;
    }
    assert(sv.take(srcs.len() as int) =~= sv);
    out
}

/// The paths of the files of `v` that belong to the group named `g`, in
/// order.
pub open spec fn group_files(v: Seq<Dotfile>, g: Seq<char>) -> Seq<PathV>
    decreases v.len(),
{
    if v.len() == 0 {
        Seq::empty()
    } else {
        let prev = group_files(v.drop_last(), g);
        if v.last().group_name@ == g {
            prev.push(pv(&v.last().path))
        } else {
            prev
        }
    }
}

/// Appends to `out` the paths of the files of `v` in the group named `g`.
fn push_group_files(v: &Vec<Dotfile>, g: &str, l: &Layout, out: &mut Vec<Vec<String>>)
    requires
        config_entries(l, v@),
        forall|k: int| 0 <= k < old(out).len() ==> is_classified(l, #[trigger] old(out).deep_view()[k]),
    ensures
        final(out).deep_view() == old(out).deep_view() + group_files(v@, g@),
        forall|k: int| 0 <= k < final(out).len() ==> is_classified(l, #[trigger] final(out).deep_view()[k]),
{
    let ghost start = out.deep_view();
    let mut i: usize = 0;
    assert(v@.take(0) =~= Seq::<Dotfile>::empty());
    assert(out.deep_view() =~= start + group_files(v@.take(0), g@));
    while i < v.len()
        invariant
            config_entries(l, v@),
            0 <= i <= v.len(),
            out.deep_view() == start + group_files(v@.take(i as int), g@),
            forall|k: int| 0 <= k < out.len() ==> is_classified(l, #[trigger] out.deep_view()[k]),
        decreases v.len() - i,
    {
        assert(v@.take(i + 1).drop_last() =~= v@.take(i as int));
        assert(v@.take(i + 1).last() == v@[i as int]);
        let ghost prev = out.deep_view();
        if crate::paths::str_eq(v[i].group_name.as_str(), g) {
            assert(is_classified(l, pv(&v@[i as int].path)));
            out.push(path_clone(&v[i].path));
            assert(out.deep_view() =~= prev.push(pv(&v@[i as int].path)));
            assert(out.deep_view() =~= start + group_files(v@.take(i + 1), g@));
        }
        i += 1;
    }
    assert(v@.take(v.len() as int) =~= v@);
}

/// `p` lies in the group named `g`.
pub open spec fn in_group(l: &Layout, p: PathV, g: Seq<char>) -> bool {
    p[l.configs().len() as int] == g
}

/// The snapshot holds the directory of the group named `g`.
pub open spec fn group_dir_present(l: &Layout, m: Map<PathV, Node>, g: Seq<char>) -> bool {
    m.contains_key(l.configs().push(g)) && m[l.configs().push(g)] == Node::Dir
}

/// The entries of the group named `g` that `m` shows as linked.
pub open spec fn linked_in_group(l: &Layout, m: Map<PathV, Node>, g: Seq<char>) -> Set<PathV> {
    linked_set(l, m).filter(|p: PathV| in_group(l, p, g))
}

/// `m` without the targets of the entries `s`.
pub open spec fn unlinked(l: &Layout, m: Map<PathV, Node>, s: Set<PathV>) -> Map<PathV, Node> {
    m.remove_keys(Set::new(|t: PathV| exists|p: PathV| s.contains(p) && t == l.config_target(p)))
}

/// The paths of `v` that lie in the group named `g`, in order.
fn filter_group(l: &Layout, v: &Vec<Vec<String>>, g: &str) -> (r: Vec<Vec<String>>)
    requires
        v.deep_view().no_duplicates(),
        forall|k: int| 0 <= k < v.len() ==> is_classified(l, #[trigger] v.deep_view()[k]),
    ensures
        r.deep_view().no_duplicates(),
        forall|k: int| 0 <= k < r.len() ==> is_classified(l, #[trigger] r.deep_view()[k]),
        r.deep_view().to_set() == v.deep_view().to_set().filter(|p: PathV| in_group(l, p, g@)),
{
    let ghost sv = v.deep_view();
    let ghost target = sv.to_set().filter(|p: PathV| in_group(l, p, g@));
    proof {
        assert(pv(&l.dotfiles_dir).len() == l.dotfiles_dir.len());
    }
    let mut out: Vec<Vec<String>> = Vec::new();
    let mut i: usize = 0;
    while i < v.len()
        invariant
            0 <= i <= v.len(),
            pv(&l.dotfiles_dir).len() == l.dotfiles_dir.len(),
            sv == v.deep_view(),
            sv.no_duplicates(),
            target == sv.to_set().filter(|p: PathV| in_group(l, p, g@)),
            forall|k: int| 0 <= k < v.len() ==> is_classified(l, #[trigger] sv[k]),
            out.deep_view().no_duplicates(),
            forall|k: int| #![trigger out.deep_view()[k]] 0 <= k < out.len() ==> exists|j: int| 0 <= j < i && out.deep_view()[k] == sv[j],
            forall|k: int| 0 <= k < out.len() ==> target.contains(#[trigger] out.deep_view()[k]),
            forall|j: int| 0 <= j < i && target.contains(#[trigger] sv[j]) ==> out.deep_view().contains(sv[j]),
        decreases v.len() - i,
    {
        let ghost x = sv[i as int];
        assert(is_classified(l, x));
        assert(pv(&v[i as int]) == x);
        assert(v[i as int].len() == x.len());
        let n = l.dotfiles_dir.len() + 1;
        let ghost prev = out.deep_view();
        if str_eq(v[i][n].as_str(), g) {
            out.push(path_clone(&v[i]));
            proof {
                assert(sv.to_set().contains(x));
                assert(out.deep_view() =~= prev.push(x));
                assert forall|k: int| 0 <= k < prev.len() implies #[trigger] prev[k] != x by {
                    let j = choose|j: int| 0 <= j < i && prev[k] == sv[j];
                }
                assert forall|k: int| #![trigger out.deep_view()[k]] 0 <= k < out.len() implies exists|j: int|
                    0 <= j < i + 1 && out.deep_view()[k] == sv[j] by {
                    if k < prev.len() {
                        assert(out.deep_view()[k] == prev[k]);
                    } else {
                        assert(out.deep_view()[k] == x);
                    }
                }
                assert forall|a: int, b: int|
                    0 <= a < out.len() && 0 <= b < out.len() && a != b implies out.deep_view()[a]
                    != out.deep_view()[b] by {
                    if a < prev.len() && b < prev.len() {
                        assert(out.deep_view()[a] == prev[a]);
                        assert(out.deep_view()[b] == prev[b]);
                    } else if a < prev.len() {
                        assert(out.deep_view()[a] == prev[a]);
                    } else {
                        assert(out.deep_view()[b] == prev[b]);
                    }
                }
                assert forall|jj: int| 0 <= jj < i + 1 && target.contains(#[trigger] sv[jj]) implies out.deep_view().contains(sv[jj]) by {
                    if jj < i {
                        let k = choose|k: int| 0 <= k < prev.len() && prev[k] == sv[jj];
                        assert(out.deep_view()[k] == prev[k]);
                    } else {
                        assert(out.deep_view()[prev.len() as int] == x);
                    }
                }
            }
        } else {
            assert(!target.contains(x));
        }
        i += 1;
    }
    proof {
        let ov = out.deep_view();
        assert forall|k: int| 0 <= k < out.len() implies is_classified(l, #[trigger] out.deep_view()[k]) by {
            let j = choose|j: int| 0 <= j < v.len() && out.deep_view()[k] == sv[j];
        }
        assert forall|p: PathV| #[trigger] ov.to_set().contains(p) == target.contains(p) by {
            if ov.to_set().contains(p) {
                let k = choose|k: int| 0 <= k < ov.len() && ov[k] == p;
            }
            if target.contains(p) {
                let j = choose|j: int| 0 <= j < sv.len() && sv[j] == p;
            }
        }
        assert(ov.to_set() =~= target);
    }
    out
}

impl SymlinkHandler {
    /// `r` is what linking the group named `g` reports when it starts from
    /// the filesystem `m`: `NoSuchFileOrDir` when the group has no directory,
    /// else one outcome per source, in order.
    pub open spec fn add_outcomes(&self, g: Seq<char>, overwrite: bool, m: Map<PathV, Node>, r: Result<Vec<FileOutcome>, ReturnCode>) -> bool {
        let srcs = self.link_sources(g);
        match r {
            Err(e) => !group_dir_present(&self.layout, m, g) && e == ReturnCode::NoSuchFileOrDir,
            Ok(v) => {
                &&& group_dir_present(&self.layout, m, g)
                &&& v.len() == srcs.len()
                &&& forall|k: int| 0 <= k < v.len() ==> {
                    &&& pv(&(#[trigger] v[k]).source) == srcs[k]
                    &&& pv(&v[k].target) == self.layout.config_target(srcs[k])
                    &&& v[k].status == link_status(&self.layout, link_run(&self.layout, srcs.take(k), m, overwrite), srcs[k], overwrite)
                }
            },
        }
    }

    /// `r` is what unlinking the group named `g` reports when it starts from
    /// the filesystem `m`: `NoSuchFileOrDir` when the group has no directory,
    /// else one `Removed` outcome for each entry of the group that `m` shows
    /// as linked, each once.
    pub open spec fn remove_outcomes(&self, g: Seq<char>, m: Map<PathV, Node>, r: Result<Vec<FileOutcome>, ReturnCode>) -> bool {
        match r {
            Err(e) => !group_dir_present(&self.layout, m, g) && e == ReturnCode::NoSuchFileOrDir,
            Ok(v) => {
                let sources = Seq::new(v.len() as nat, |k: int| pv(&v[k].source));
                &&& group_dir_present(&self.layout, m, g)
                &&& sources.no_duplicates()
                &&& sources.to_set() == linked_in_group(&self.layout, m, g)
                &&& forall|k: int| 0 <= k < v.len() ==> {
                    &&& (#[trigger] v[k]).status == Status::Removed
                    &&& pv(&v[k].target) == self.layout.config_target(pv(&v[k].source))
                }
            },
        }
    }

    /// The filesystem after unlinking (`remove`) or linking the group named
    /// `g`, starting from `m`.
    pub open spec fn step_map(&self, remove: bool, g: Seq<char>, overwrite: bool, m: Map<PathV, Node>) -> Map<PathV, Node> {
        if !group_dir_present(&self.layout, m, g) {
            m
        } else if remove {
            unlinked(&self.layout, m, linked_in_group(&self.layout, m, g))
        } else {
            link_run(&self.layout, self.link_sources(g), m, overwrite)
        }
    }

    pub open spec fn step_outcomes(&self, remove: bool, g: Seq<char>, overwrite: bool, m: Map<PathV, Node>, r: Result<Vec<FileOutcome>, ReturnCode>) -> bool {
        if remove {
            self.remove_outcomes(g, m, r)
        } else {
            self.add_outcomes(g, overwrite, m, r)
        }
    }

    /// The filesystem after working on the groups `gs` in order.
    pub open spec fn run_map(&self, remove: bool, gs: Seq<Seq<char>>, overwrite: bool, m: Map<PathV, Node>) -> Map<PathV, Node>
        decreases gs.len(),
    {
        if gs.len() == 0 {
            m
        } else {
            self.step_map(remove, gs.last(), overwrite, self.run_map(remove, gs.drop_last(), overwrite, m))
        }
    }

    /// The files that linking the group named `g` works on: its pending
    /// entries, then its foreign ones, then its linked ones.
    pub open spec fn link_sources(&self, g: Seq<char>) -> Seq<PathV> {
        group_files(self.not_symlinked@, g) + group_files(self.not_owned@, g) + group_files(self.symlinked@, g)
    }

    /// Whether the snapshot holds the directory of the group named `group`.
    fn has_group_dir(&self, group: &str, fs: &FsSnapshot) -> (r: bool)
        requires
            fs.wf(),
        ensures
            r == group_dir_present(&self.layout, fs@, group@),
    {
        let dir = crate::paths::path_child(&self.layout.root_path(DotfileType::Configs), group);
        match fs.lookup(&dir) {
            Some(EntryKind::Dir) => true,
            _ => false,
        }
    }

    /// Links every classified entry of the group named `group`, recording
    /// each change in `fs`: a free target gets a symlink; a target that links
    /// back already, or that is taken while `overwrite` is off, is reported as
    /// existing; with `overwrite`, any other target is replaced. When the
    /// snapshot holds no directory for the group, this fails with
    /// `NoSuchFileOrDir` and leaves `fs` as it was.
    ///
    /// This works on the named group alone: its conditional variants are
    /// folded in by `add_cmd`.
    pub fn add(&self, group: &str, overwrite: bool, fs: &mut FsSnapshot) -> (r: Result<Vec<FileOutcome>, ReturnCode>)
        requires
            self.wf(),
            old(fs).wf(),
        ensures
            final(fs).wf(),
            final(fs)@ == self.step_map(false, group@, overwrite, old(fs)@),
            self.add_outcomes(group@, overwrite, old(fs)@, r),
    {
        if !self.has_group_dir(group, fs) {
            return Err(ReturnCode::NoSuchFileOrDir);
        }
        let mut srcs: Vec<Vec<String>> = Vec::new();
        assert(srcs.deep_view() =~= Seq::<PathV>::empty());
        push_group_files(&self.not_symlinked, group, &self.layout, &mut srcs);
        push_group_files(&self.not_owned, group, &self.layout, &mut srcs);
        push_group_files(&self.symlinked, group, &self.layout, &mut srcs);
        assert(srcs.deep_view() =~= self.link_sources(group@));
        Ok(link_files(&self.layout, &srcs, overwrite, fs))
    }

    /// Removes the symlinks of the group named `group`: the entries of the
    /// group that the snapshot `fs` shows as linked are found afresh, and the
    /// target of each, which links back to it, is removed. Targets that
    /// point elsewhere are never touched. When the snapshot holds no
    /// directory for the group, this fails with `NoSuchFileOrDir` and leaves
    /// `fs` as it was.
    ///
    /// This works on the named group alone: its conditional variants are
    /// folded in by `remove_cmd`.
    pub fn remove(&self, group: &str, fs: &mut FsSnapshot) -> (r: Result<Vec<FileOutcome>, ReturnCode>)
        requires
            self.wf(),
            old(fs).wf(),
        ensures
            final(fs).wf(),
            final(fs)@ == self.step_map(true, group@, false, old(fs)@),
            self.remove_outcomes(group@, old(fs)@, r),
    {
        if !self.has_group_dir(group, fs) {
            return Err(ReturnCode::NoSuchFileOrDir);
        }
        let ghost l = &self.layout;
        let ghost m = fs@;
        let linked = collect_standing(&self.layout, fs, Standing::Linked);
        let linked = keep_shallowest(&linked, &linked);
        proof {
            assert forall|k: int| 0 <= k < linked.len() implies is_classified(l, #[trigger] linked.deep_view()[k]) by {
                assert(linked.deep_view().to_set().contains(linked.deep_view()[k]));
            }
        }
        let srcs = filter_group(&self.layout, &linked, group);
        let ghost sv = srcs.deep_view();
        let ghost set = linked_in_group(l, m, group@);
        proof {
            assert(sv.to_set() =~= set);
            assert forall|k: int| 0 <= k < sv.len() implies m.contains_key(l.config_target(#[trigger] sv[k]))
                && m[l.config_target(sv[k])] == Node::Link(sv[k]) && in_group(l, sv[k], group@) by {
                assert(sv.to_set().contains(sv[k]));
            }
            assert forall|i: int, j: int|
                0 <= i < sv.len() && 0 <= j < sv.len() && i != j implies l.config_target(#[trigger] sv[i])
                    != l.config_target(#[trigger] sv[j]) by {
                assert(group_of(l.configs(), sv[i]) =~= group_of(l.configs(), sv[j]));
                crate::laws::targets_in_group_differ(l, sv[i], sv[j]);
            }
        }
        let out = unlink_files(&self.layout, &srcs, fs);
        proof {
            crate::laws::unlink_run_on_linked(l, sv, m);
            let m2 = unlink_run(l, sv, m);
            assert forall|t: PathV| #[trigger] m2.contains_key(t) == unlinked(l, m, set).contains_key(t) by {
                if exists|p: PathV| set.contains(p) && t == l.config_target(p) {
                    let p = choose|p: PathV| set.contains(p) && t == l.config_target(p);
                    assert(sv.to_set().contains(p));
                    let k = choose|k: int| 0 <= k < sv.len() && sv[k] == p;
                }
                if exists|k: int| 0 <= k < sv.len() && t == l.config_target(sv[k]) {
                    let k = choose|k: int| 0 <= k < sv.len() && t == l.config_target(sv[k]);
                    assert(sv.to_set().contains(sv[k]));
                }
            }
            assert(m2 =~= unlinked(l, m, set));
            assert forall|k: int| 0 <= k < out.len() implies (#[trigger] out[k]).status == Status::Removed by {
                let pre = sv.take(k);
                assert forall|a: int| 0 <= a < pre.len() implies m.contains_key(l.config_target(#[trigger] pre[a]))
                    && m[l.config_target(pre[a])] == Node::Link(pre[a]) by {
                    assert(pre[a] == sv[a]);
                }
                assert forall|a: int, b: int|
                    0 <= a < pre.len() && 0 <= b < pre.len() && a != b implies l.config_target(#[trigger] pre[a])
                        != l.config_target(#[trigger] pre[b]) by {
                    assert(pre[a] == sv[a]);
                    assert(pre[b] == sv[b]);
                }
                crate::laws::unlink_run_on_linked(l, pre, m);
                let t = l.config_target(sv[k]);
                if exists|a: int| 0 <= a < pre.len() && t == l.config_target(pre[a]) {
                    let a = choose|a: int| 0 <= a < pre.len() && t == l.config_target(pre[a]);
                    assert(pre[a] == sv[a]);
                }
            }
            let sources = Seq::new(out@.len() as nat, |k: int| pv(&out@[k].source));
            assert(sources =~= sv);
        }
        Ok(out)
    }
}

/// Some file of `v` belongs to the group named `g`.
pub open spec fn has_group(v: Seq<Dotfile>, g: Seq<char>) -> bool {
    exists|i: int| 0 <= i < v.len() && v[i].group_name@ == g
}

/// The conditional variants of `base` among the groups of `v` that apply on
/// the platform, each once, in order of first appearance.
pub open spec fn variants_in(v: Seq<Dotfile>, base: Seq<char>, p: &Platform) -> Seq<Seq<char>>
    decreases v.len(),
{
    if v.len() == 0 {
        Seq::empty()
    } else {
        let prev = variants_in(v.drop_last(), base, p);
        let g = v.last().group_name@;
        if is_variant(g, base) && p.admits(g) && !prev.contains(g) {
            prev.push(g)
        } else {
            prev
        }
    }
}

/// The groups of `v` that `exclude` does not name, each once, in order of
/// first appearance.
pub open spec fn groups_not_excluded(v: Seq<Dotfile>, exclude: Seq<Seq<char>>) -> Seq<Seq<char>>
    decreases v.len(),
{
    if v.len() == 0 {
        Seq::empty()
    } else {
        let prev = groups_not_excluded(v.drop_last(), exclude);
        let g = v.last().group_name@;
        if exclude.contains(g) || prev.contains(g) {
            prev
        } else {
            prev.push(g)
        }
    }
}

/// The group names that a command works on: the requested names that
/// `exclude` does not name, in order, up to the first wildcard `*`, which
/// stands for every group of `v` that `exclude` does not name.
pub open spec fn selected_groups(v: Seq<Dotfile>, programs: Seq<Seq<char>>, exclude: Seq<Seq<char>>) -> Seq<Seq<char>>
    decreases programs.len(),
{
    if programs.len() == 0 {
        Seq::empty()
    } else if programs[0] == "*"@ {
        groups_not_excluded(v, exclude)
    } else if exclude.contains(programs[0]) {
        selected_groups(v, programs.drop_first(), exclude)
    } else {
        seq![programs[0]] + selected_groups(v, programs.drop_first(), exclude)
    }
}

/// The files behind a list of references.
pub open spec fn refs_view(v: Seq<&Dotfile>) -> Seq<Dotfile> {
    v.map_values(|d: &Dotfile| *d)
}

/// Appends to `out` a reference to each file of `v`.
fn push_refs<'a>(v: &'a Vec<Dotfile>, out: &mut Vec<&'a Dotfile>)
    ensures
        refs_view(final(out)@) == refs_view(old(out)@) + v@,
{
    let ghost start = refs_view(out@);
    let mut i: usize = 0;
    assert(refs_view(out@) =~= start + v@.take(0));
    while i < v.len()
        invariant
            0 <= i <= v.len(),
            refs_view(out@) == start + v@.take(i as int),
        decreases v.len() - i,
    {
        let ghost before = out@;
        out.push(&v[i]);
        assert(refs_view(out@) =~= refs_view(before).push(v@[i as int]));
        assert(v@.take(i + 1) =~= v@.take(i as int).push(v@[i as int]));
        assert(start + v@.take(i + 1) =~= (start + v@.take(i as int)).push(v@[i as int]));
        i += 1;
    }
    assert(v@.take(v.len() as int) =~= v@);
}

impl SymlinkHandler {
    /// The pending entries, the foreign ones and the linked ones, each list
    /// where its flag is set, in that order.
    pub open spec fn part(&self, pending: bool, foreign: bool, linked: bool) -> Seq<Dotfile> {
        (if pending {
            self.not_symlinked@
        } else {
            Seq::empty()
        }) + (if foreign {
            self.not_owned@
        } else {
            Seq::empty()
        }) + (if linked {
            self.symlinked@
        } else {
            Seq::empty()
        })
    }

    /// The linked entries, or the pending ones.
    pub open spec fn view_of(&self, want_linked: bool) -> Seq<Dotfile> {
        self.part(!want_linked, false, want_linked)
    }

    /// Every classified entry.
    pub open spec fn all_entries(&self) -> Seq<Dotfile> {
        self.part(true, true, true)
    }

    /// The entries that a wildcard stands for: the linked ones when
    /// unlinking; when linking, the pending ones, and the foreign ones too
    /// when conflicts are overridden.
    pub open spec fn wildcard_view(&self, remove: bool, overwrite: bool) -> Seq<Dotfile> {
        self.part(!remove, !remove && overwrite, remove)
    }

    /// References to the entries of `part(pending, foreign, linked)`.
    fn refs(&self, pending: bool, foreign: bool, linked: bool) -> (r: Vec<&Dotfile>)
        ensures
            refs_view(r@) == self.part(pending, foreign, linked),
    {
        let mut r: Vec<&Dotfile> = Vec::new();
        assert(refs_view(r@) =~= Seq::<Dotfile>::empty());
        if pending {
            push_refs(&self.not_symlinked, &mut r);
        }
        assert(refs_view(r@) =~= if pending { self.not_symlinked@ } else { Seq::empty() });
        let ghost first = refs_view(r@);
        if foreign {
            push_refs(&self.not_owned, &mut r);
        }
        assert(refs_view(r@) =~= first + if foreign { self.not_owned@ } else { Seq::empty() });
        let ghost second = refs_view(r@);
        if linked {
            push_refs(&self.symlinked, &mut r);
        }
        assert(refs_view(r@) =~= second + if linked { self.symlinked@ } else { Seq::empty() });
        r
    }

    /// The groups that work on `base` covers in the linked (or pending) list:
    /// the conditional variants of `base` that apply on the platform, then
    /// `base` itself; `None` when `base` has no entry in that list.
    pub fn related_groups(&self, base: &str, want_linked: bool, platform: &Platform) -> (r: Option<Vec<String>>)
        ensures
            r is None == !has_group(self.view_of(want_linked), base@),
            r is Some ==> pv(&r->0) == variants_in(self.view_of(want_linked), base@, platform).push(base@),
    {
        let v = self.refs(!want_linked, false, want_linked);
        related_in(&v, base, platform)
    }
}

/// The conditional variants of `base` among the groups of `v` that apply on
/// the platform, then `base`; `None` when `base` has no entry in `v`.
fn related_in(v: &Vec<&Dotfile>, base: &str, platform: &Platform) -> (r: Option<Vec<String>>)
    ensures
        r is None == !has_group(refs_view(v@), base@),
        r is Some ==> pv(&r->0) == variants_in(refs_view(v@), base@, platform).push(base@),
{
    let ghost vv = refs_view(v@);
    let mut found = false;
    let mut out: Vec<String> = Vec::new();
    let mut i: usize = 0;
    assert(vv.take(0) =~= Seq::<Dotfile>::empty());
    assert(pv(&out) =~= Seq::<Seq<char>>::empty());
    while i < v.len()
        invariant
            vv == refs_view(v@),
            0 <= i <= v.len(),
            found == exists|j: int| 0 <= j < i && vv[j].group_name@ == base@,
            pv(&out) == variants_in(vv.take(i as int), base@, platform),
        decreases v.len() - i,
    {
        assert(vv[i as int] == *v@[i as int]);
        assert(vv.take(i + 1).drop_last() =~= vv.take(i as int));
        assert(vv.take(i + 1).last() == vv[i as int]);
        let name = v[i].group_name.as_str();
        if str_eq(name, base) {
            found = true;
        }
        let ghost prev = pv(&out);
        if is_variant_name(name, base) && platform.applies_to(name) && !names_contain(&out, name) {
            out.push(v[i].group_name.clone());
            assert(pv(&out) =~= prev.push(name@));
        }
        i += 1;
    }
    assert(vv.take(v.len() as int) =~= vv);
    if !found {
        return None;
    }
    let ghost prev = pv(&out);
    out.push(base.to_owned());
    assert(pv(&out) =~= prev.push(base@));
    Some(out)
}

/// The groups of `v` that `exclude` does not name, each once.
fn unexcluded_groups(v: &Vec<&Dotfile>, exclude: &Vec<String>) -> (r: Vec<String>)
    ensures
        pv(&r) == groups_not_excluded(refs_view(v@), pv(exclude)),
{
    let ghost vv = refs_view(v@);
    let mut out: Vec<String> = Vec::new();
    let mut i: usize = 0;
    assert(vv.take(0) =~= Seq::<Dotfile>::empty());
    assert(pv(&out) =~= Seq::<Seq<char>>::empty());
    while i < v.len()
        invariant
            vv == refs_view(v@),
            0 <= i <= v.len(),
            pv(&out) == groups_not_excluded(vv.take(i as int), pv(exclude)),
        decreases v.len() - i,
    {
        assert(vv[i as int] == *v@[i as int]);
        assert(vv.take(i + 1).drop_last() =~= vv.take(i as int));
        assert(vv.take(i + 1).last() == vv[i as int]);
        let name = v[i].group_name.as_str();
        let ghost prev = pv(&out);
        if !names_contain(exclude, name) && !names_contain(&out, name) {
            out.push(v[i].group_name.clone());
            assert(pv(&out) =~= prev.push(name@));
        }
        i += 1;
    }
    assert(vv.take(v.len() as int) =~= vv);
    out
}

/// The group names that a command works on, in order: each requested name
/// that `exclude` does not name, up to the first wildcard `*`, which stands
/// for every group of `wildcard_view(want_linked, overwrite)` that `exclude`
/// does not name.
pub fn foreach_program(sym: &SymlinkHandler, programs: &Vec<String>, exclude: &Vec<String>, want_linked: bool, overwrite: bool) -> (r: Vec<String>)
    ensures
        pv(&r) == selected_groups(sym.wildcard_view(want_linked, overwrite), pv(programs), pv(exclude)),
{
    let ghost vv = sym.wildcard_view(want_linked, overwrite);
    let ghost ps = pv(programs);
    let ghost ex = pv(exclude);
    let mut out: Vec<String> = Vec::new();
    let mut i: usize = 0;
    assert(ps.skip(0) =~= ps);
    assert(pv(&out) =~= Seq::<Seq<char>>::empty());
    while i < programs.len()
        invariant
            ps == pv(programs),
            ex == pv(exclude),
            vv == sym.wildcard_view(want_linked, overwrite),
            0 <= i <= programs.len(),
            pv(&out) + selected_groups(vv, ps.skip(i as int), ex) == selected_groups(vv, ps, ex),
        decreases programs.len() - i,
    {
        let p = programs[i].as_str();
        assert(ps.skip(i as int)[0] == p@);
        assert(ps.skip(i as int).drop_first() =~= ps.skip(i + 1));
        if str_eq(p, "*") {
            let refs = sym.refs(!want_linked, !want_linked && overwrite, want_linked);
            let all = unexcluded_groups(&refs, exclude);
            let mut j: usize = 0;
            let ghost base = pv(&out);
            while j < all.len()
                invariant
                    0 <= j <= all.len(),
                    pv(&out) =~= base + pv(&all).take(j as int),
                decreases all.len() - j,
            {
                let ghost before = pv(&out);
                out.push(all[j].clone());
                assert(pv(&out) =~= before.push(pv(&all)[j as int]));
                assert(pv(&all).take(j + 1) =~= pv(&all).take(j as int).push(pv(&all)[j as int]));
                j += 1;
            }
            assert(pv(&all).take(all.len() as int) =~= pv(&all));
            return out;
        }
        if !names_contain(exclude, p) {
            let ghost prev = pv(&out);
            out.push(programs[i].clone());
            assert(pv(&out) =~= prev.push(p@));
            assert(prev.push(p@) + selected_groups(vv, ps.skip(i + 1), ex) =~= prev + (seq![p@] + selected_groups(vv, ps.skip(i + 1), ex)));
        }
        i += 1;
    }
    assert(ps.skip(programs.len() as int) =~= Seq::<Seq<char>>::empty());
    assert(pv(&out) + Seq::<Seq<char>>::empty() =~= pv(&out));
    out
}

/// `prev` followed by the groups of `gs` that `exclude` does not name and
/// that are not listed yet, in order.
pub open spec fn add_groups(prev: Seq<Seq<char>>, gs: Seq<Seq<char>>, exclude: Seq<Seq<char>>) -> Seq<Seq<char>>
    decreases gs.len(),
{
    if gs.len() == 0 {
        prev
    } else {
        let q = add_groups(prev, gs.drop_last(), exclude);
        let g = gs.last();
        if exclude.contains(g) || q.contains(g) {
            q
        } else {
            q.push(g)
        }
    }
}

/// The groups that a command works on for the requested names, in order.
/// A name with an entry in the command's view `v` brings its conditional
/// variants in `v` that apply on the platform, then itself where it applies;
/// a name with entries only in other lists (`all`) brings itself where it
/// applies; a group that `exclude` names, or that comes up a second time, is
/// left out.
pub open spec fn work_groups(v: Seq<Dotfile>, all: Seq<Dotfile>, names: Seq<Seq<char>>, exclude: Seq<Seq<char>>, p: &Platform) -> Seq<Seq<char>>
    decreases names.len(),
{
    if names.len() == 0 {
        Seq::empty()
    } else {
        let prev = work_groups(v, all, names.drop_last(), exclude, p);
        let n = names.last();
        let own = if p.admits(n) {
            seq![n]
        } else {
            Seq::<Seq<char>>::empty()
        };
        if has_group(v, n) {
            add_groups(prev, variants_in(v, n, p) + own, exclude)
        } else if has_group(all, n) {
            add_groups(prev, own, exclude)
        } else {
            prev
        }
    }
}

/// The requested names that have no entry in `v`, in order.
pub open spec fn missing_groups(v: Seq<Dotfile>, names: Seq<Seq<char>>) -> Seq<Seq<char>>
    decreases names.len(),
{
    if names.len() == 0 {
        Seq::empty()
    } else {
        let prev = missing_groups(v, names.drop_last());
        if has_group(v, names.last()) {
            prev
        } else {
            prev.push(names.last())
        }
    }
}

/// The outcomes of one group.
#[derive(Debug, PartialEq, Eq)]
pub struct GroupOutcome {
    pub group: String,
    /// The outcome of each file, or the error that stopped the group.
    pub files: Result<Vec<FileOutcome>, ReturnCode>,
}

/// What a link or unlink command did: the outcomes of each group worked on,
/// and the requested names that have no entry in any list.
#[derive(Debug, PartialEq, Eq)]
pub struct CmdReport {
    pub groups: Vec<GroupOutcome>,
    pub missing: Vec<String>,
}

pub open spec fn outcome_names(r: Seq<GroupOutcome>) -> Seq<Seq<char>> {
    Seq::new(r.len(), |k: int| r[k].group@)
}

/// Each outcome of `r` is what its group reported, starting from the
/// filesystem that the groups before it left.
pub open spec fn outcomes_follow(sym: &SymlinkHandler, remove: bool, overwrite: bool, m: Map<PathV, Node>, r: Seq<GroupOutcome>) -> bool {
    forall|k: int| 0 <= k < r.len() ==> sym.step_outcomes(
        remove,
        (#[trigger] r[k]).group@,
        overwrite,
        sym.run_map(remove, outcome_names(r).take(k), overwrite, m),
        r[k].files,
    )
}

/// Works on one group, appending its outcome to `out` and its name to
/// `done`.
fn run_group(sym: &SymlinkHandler, remove: bool, g: &String, overwrite: bool, fs: &mut FsSnapshot, out: &mut Vec<GroupOutcome>, done: &mut Vec<String>, m0: Ghost<Map<PathV, Node>>)
    requires
        sym.wf(),
        old(fs).wf(),
        pv(old(done)) == outcome_names(old(out)@),
        old(fs)@ == sym.run_map(remove, outcome_names(old(out)@), overwrite, m0@),
        outcomes_follow(sym, remove, overwrite, m0@, old(out)@),
    ensures
        final(fs).wf(),
        outcome_names(final(out)@) == outcome_names(old(out)@).push(g@),
        pv(final(done)) == outcome_names(final(out)@),
        final(fs)@ == sym.run_map(remove, outcome_names(final(out)@), overwrite, m0@),
        outcomes_follow(sym, remove, overwrite, m0@, final(out)@),
{
    let ghost prev = out@;
    let ghost prev_done = pv(done);
    let files = if remove {
        sym.remove(g.as_str(), fs)
    } else {
        sym.add(g.as_str(), overwrite, fs)
    };
    out.push(GroupOutcome { group: g.clone(), files });
    done.push(g.clone());
    proof {
        let names = outcome_names(out@);
        assert(names =~= outcome_names(prev).push(g@));
        assert(pv(done) =~= prev_done.push(g@));
        assert(names.drop_last() =~= outcome_names(prev));
        assert forall|k: int| 0 <= k < out@.len() implies sym.step_outcomes(
            remove,
            (#[trigger] out@[k]).group@,
            overwrite,
            sym.run_map(remove, outcome_names(out@).take(k), overwrite, m0@),
            out@[k].files,
        ) by {
            if k < prev.len() {
                assert(out@[k] == prev[k]);
                assert(names.take(k) =~= outcome_names(prev).take(k));
            }
        }
    }
}

/// Works on the group `g` unless `exclude` names it or it was worked on
/// already.
fn run_group_once(sym: &SymlinkHandler, remove: bool, g: &String, exclude: &Vec<String>, overwrite: bool, fs: &mut FsSnapshot, out: &mut Vec<GroupOutcome>, done: &mut Vec<String>, m0: Ghost<Map<PathV, Node>>)
    requires
        sym.wf(),
        old(fs).wf(),
        pv(old(done)) == outcome_names(old(out)@),
        old(fs)@ == sym.run_map(remove, outcome_names(old(out)@), overwrite, m0@),
        outcomes_follow(sym, remove, overwrite, m0@, old(out)@),
    ensures
        final(fs).wf(),
        outcome_names(final(out)@) == if pv(exclude).contains(g@) || outcome_names(old(out)@).contains(g@) {
            outcome_names(old(out)@)
        } else {
            outcome_names(old(out)@).push(g@)
        },
        pv(final(done)) == outcome_names(final(out)@),
        final(fs)@ == sym.run_map(remove, outcome_names(final(out)@), overwrite, m0@),
        outcomes_follow(sym, remove, overwrite, m0@, final(out)@),
{
    if !names_contain(exclude, g.as_str()) && !names_contain(done, g.as_str()) {
        run_group(sym, remove, g, overwrite, fs, out, done, m0);
    }
}

/// A group with an entry in one of the handler's lists has an entry among
/// all of them.
proof fn part_within_all(h: &SymlinkHandler, pe: bool, fo: bool, li: bool, g: Seq<char>)
    ensures
        has_group(h.part(pe, fo, li), g) ==> has_group(h.all_entries(), g),
{
    if has_group(h.part(pe, fo, li), g) {
        let v = h.part(pe, fo, li);
        let i = choose|i: int| 0 <= i < v.len() && v[i].group_name@ == g;
        let a = h.not_symlinked@;
        let b = h.not_owned@;
        let c = h.symlinked@;
        let pa = if pe { a } else { Seq::<Dotfile>::empty() };
        let pb = if fo { b } else { Seq::<Dotfile>::empty() };
        let pc = if li { c } else { Seq::<Dotfile>::empty() };
        assert(v == pa + pb + pc);
        let all = h.all_entries();
        assert(all == a + b + c);
        if i < pa.len() {
            assert(all[i] == v[i]);
        } else if i < pa.len() + pb.len() {
            assert(all[a.len() + (i - pa.len())] == v[i]);
        } else {
            assert(all[a.len() + b.len() + (i - pa.len() - pb.len())] == v[i]);
        }
    }
}

/// Works on the groups that the requested names select, recording every
/// change in `fs`. The wildcard stands for the groups of
/// `wildcard_view(remove, overwrite)`, and conditional variants are found in
/// that same view.
#[verifier::rlimit(40)]
fn run_cmd(sym: &SymlinkHandler, programs: &Vec<String>, exclude: &Vec<String>, remove: bool, overwrite: bool, platform: &Platform, fs: &mut FsSnapshot) -> (r: CmdReport)
    requires
        sym.wf(),
        old(fs).wf(),
    ensures
        ({
            let names = selected_groups(sym.wildcard_view(remove, overwrite), pv(programs), pv(exclude));
            let gs = work_groups(sym.wildcard_view(remove, overwrite), sym.all_entries(), names, pv(exclude), platform);
            &&& final(fs).wf()
            &&& outcome_names(r.groups@) == gs
            &&& final(fs)@ == sym.run_map(remove, gs, overwrite, old(fs)@)
            &&& outcomes_follow(sym, remove, overwrite, old(fs)@, r.groups@)
            &&& pv(&r.missing) == missing_groups(sym.all_entries(), names)
        }),
{
    let ghost m0 = old(fs)@;
    let ghost v = sym.all_entries();
    let ghost ex = pv(exclude);
    let names = foreach_program(sym, programs, exclude, remove, overwrite);
    let view = sym.refs(!remove, !remove && overwrite, remove);
    let ghost vw = sym.wildcard_view(remove, overwrite);
    let all = sym.refs(true, true, true);
    let ghost ns = pv(&names);
    let mut groups: Vec<GroupOutcome> = Vec::new();
    let mut done: Vec<String> = Vec::new();
    let mut missing: Vec<String> = Vec::new();
    let mut i: usize = 0;
    assert(ns.take(0) =~= Seq::<Seq<char>>::empty());
    assert(outcome_names(groups@) =~= Seq::<Seq<char>>::empty());
    assert(pv(&done) =~= Seq::<Seq<char>>::empty());
    assert(pv(&missing) =~= Seq::<Seq<char>>::empty());
    while i < names.len()
        invariant
            sym.wf(),
            fs.wf(),
            v == sym.all_entries(),
            refs_view(all@) == v,
            vw == sym.wildcard_view(remove, overwrite),
            refs_view(view@) == vw,
            ns == pv(&names),
            ex == pv(exclude),
            0 <= i <= names.len(),
            outcome_names(groups@) == work_groups(vw, v, ns.take(i as int), ex, platform),
            pv(&done) == outcome_names(groups@),
            fs@ == sym.run_map(remove, outcome_names(groups@), overwrite, m0),
            outcomes_follow(sym, remove, overwrite, m0, groups@),
            pv(&missing) == missing_groups(v, ns.take(i as int)),
        decreases names.len() - i,
    {
        assert(ns.take(i + 1).drop_last() =~= ns.take(i as int));
        assert(ns.take(i + 1).last() == ns[i as int]);
        let ghost w = outcome_names(groups@);
        match related_in(&view, names[i].as_str(), platform) {
            None => {
                assert(!has_group(vw, ns[i as int]));
                if related_in(&all, names[i].as_str(), platform).is_some() {
                    assert(has_group(v, ns[i as int]));
                    assert(missing_groups(v, ns.take(i + 1)) == missing_groups(v, ns.take(i as int)));
                    if platform.applies_to(names[i].as_str()) {
                        let ghost one = seq![ns[i as int]];
                        assert(one.drop_last() =~= Seq::<Seq<char>>::empty());
                        assert(one.last() == ns[i as int]);
                        assert(add_groups(w, one.drop_last(), ex) == w);
                        run_group_once(sym, remove, &names[i], exclude, overwrite, fs, &mut groups, &mut done, Ghost(m0));
                        assert(outcome_names(groups@) == add_groups(w, one, ex));
                    } else {
                        assert(add_groups(w, Seq::<Seq<char>>::empty(), ex) == w);
                    }
                    assert(outcome_names(groups@) == work_groups(vw, v, ns.take(i + 1), ex, platform));
                } else {
                    let ghost prev = pv(&missing);
                    missing.push(names[i].clone());
                    assert(pv(&missing) =~= prev.push(ns[i as int]));
                }
            },
            Some(list) => {
                proof {
                    part_within_all(sym, !remove, !remove && overwrite, remove, ns[i as int]);
                }
                let ghost lv = pv(&list);
                assert(lv.len() == list.len() && lv.len() >= 1);
                let last = list.len() - 1;
                let mut j: usize = 0;
                assert(lv.take(0) =~= Seq::<Seq<char>>::empty());
                while j < last
                    invariant
                        sym.wf(),
                        fs.wf(),
                        lv == pv(&list),
                        ex == pv(exclude),
                        last == list.len() - 1,
                        0 <= j <= last,
                        outcome_names(groups@) == add_groups(w, lv.take(j as int), ex),
                        pv(&done) == outcome_names(groups@),
                        fs@ == sym.run_map(remove, outcome_names(groups@), overwrite, m0),
                        outcomes_follow(sym, remove, overwrite, m0, groups@),
                    decreases last - j,
                {
                    assert(lv.take(j + 1).drop_last() =~= lv.take(j as int));
                    assert(lv.take(j + 1).last() == lv[j as int]);
                    run_group_once(sym, remove, &list[j], exclude, overwrite, fs, &mut groups, &mut done, Ghost(m0));
                    j += 1;
                }
                let ghost vars = variants_in(vw, ns[i as int], platform);
                assert(lv.take(last as int) =~= vars);
                assert(lv[last as int] == ns[i as int]);
                if platform.applies_to(list[last].as_str()) {
                    let ghost whole = vars + seq![ns[i as int]];
                    assert(whole.drop_last() =~= vars);
                    assert(whole.last() == ns[i as int]);
                    run_group_once(sym, remove, &list[last], exclude, overwrite, fs, &mut groups, &mut done, Ghost(m0));
                } else {
                    assert(vars + Seq::<Seq<char>>::empty() =~= vars);
                }
            },
        }
        i += 1;
    }
    assert(ns.take(names.len() as int) =~= ns);
    CmdReport { groups, missing }
}

/// Links the groups that the requested names select, with their conditional
/// variants among the pending groups (with `force`, among the groups with
/// pending or foreign entries); a name with no entry in any list is reported
/// missing. The wildcard stands for the same groups; with `force`,
/// conflicting targets are overridden. Every change is recorded in `fs`.
pub fn add_cmd(sym: &SymlinkHandler, programs: &Vec<String>, exclude: &Vec<String>, force: bool, platform: &Platform, fs: &mut FsSnapshot) -> (r: CmdReport)
    requires
        sym.wf(),
        old(fs).wf(),
    ensures
        ({
            let names = selected_groups(sym.wildcard_view(false, force), pv(programs), pv(exclude));
            let gs = work_groups(sym.wildcard_view(false, force), sym.all_entries(), names, pv(exclude), platform);
            &&& final(fs).wf()
            &&& outcome_names(r.groups@) == gs
            &&& final(fs)@ == sym.run_map(false, gs, force, old(fs)@)
            &&& outcomes_follow(sym, false, force, old(fs)@, r.groups@)
            &&& pv(&r.missing) == missing_groups(sym.all_entries(), names)
        }),
{
    run_cmd(sym, programs, exclude, false, force, platform, fs)
}

/// Unlinks the groups that the requested names select, with their
/// conditional variants among the linked groups; a name with no entry in any
/// list is reported missing. The wildcard stands for the linked groups. Every
/// change is recorded in `fs`.
pub fn remove_cmd(sym: &SymlinkHandler, programs: &Vec<String>, exclude: &Vec<String>, platform: &Platform, fs: &mut FsSnapshot) -> (r: CmdReport)
    requires
        sym.wf(),
        old(fs).wf(),
    ensures
        ({
            let names = selected_groups(sym.wildcard_view(true, false), pv(programs), pv(exclude));
            let gs = work_groups(sym.wildcard_view(true, false), sym.all_entries(), names, pv(exclude), platform);
            &&& final(fs).wf()
            &&& outcome_names(r.groups@) == gs
            &&& final(fs)@ == sym.run_map(true, gs, false, old(fs)@)
            &&& outcomes_follow(sym, true, false, old(fs)@, r.groups@)
            &&& pv(&r.missing) == missing_groups(sym.all_entries(), names)
        }),
{
    run_cmd(sym, programs, exclude, true, false, platform, fs)
}

/// One row of the status table.
#[derive(Clone, Debug, PartialEq, Eq)]
pub struct StatusRow {
    pub symlinked: Option<String>,
    pub not_symlinked: Option<String>,
}

/// Row `k` of the status table, for the linked groups `a` and the pending
/// groups `b`.
pub open spec fn row_at(r: StatusRow, k: int, a: Seq<Seq<char>>, b: Seq<Seq<char>>) -> bool {
    &&& r.symlinked is Some == (k < a.len())
    &&& k < a.len() ==> r.symlinked->0@ == a[k]
    &&& r.not_symlinked is Some == (k < b.len())
    &&& k < b.len() ==> r.not_symlinked->0@ == b[k]
}

/// The groups of `v`, each once, in order of first appearance.
pub open spec fn groups_of(v: Seq<Dotfile>) -> Seq<Seq<char>> {
    groups_not_excluded(v, Seq::empty())
}

impl SymlinkHandler {
    /// The status table: row `i` holds the `i`-th linked group and the
    /// `i`-th pending group, as far as each list goes.
    pub fn status_rows(&self) -> (r: Vec<StatusRow>)
        ensures
            ({
                let a = groups_of(self.symlinked@);
                let b = groups_of(self.not_symlinked@);
                &&& r.len() == if a.len() > b.len() { a.len() } else { b.len() }
                &&& forall|i: int| 0 <= i < r.len() ==> row_at(#[trigger] r[i], i, a, b)
            }),
    {
        let none: Vec<String> = Vec::new();
        assert(pv(&none) =~= Seq::<Seq<char>>::empty());
        let linked = self.refs(false, false, true);
        let pending = self.refs(true, false, false);
        assert(self.part(false, false, true) =~= self.symlinked@);
        assert(self.part(true, false, false) =~= self.not_symlinked@);
        let a = unexcluded_groups(&linked, &none);
        let b = unexcluded_groups(&pending, &none);
        let n = if a.len() > b.len() {
            a.len()
        } else {
            b.len()
        };
        let mut rows: Vec<StatusRow> = Vec::new();
        let mut i: usize = 0;
        while i < n
            invariant
                pv(&a) == groups_of(self.symlinked@),
                pv(&b) == groups_of(self.not_symlinked@),
                n == if a.len() > b.len() { a.len() } else { b.len() },
                0 <= i <= n,
                rows.len() == i,
                forall|k: int| 0 <= k < rows.len() ==> row_at(#[trigger] rows[k], k, pv(&a), pv(&b)),
            decreases n - i,
        {
            let symlinked = if i < a.len() {
                Some(a[i].clone())
            } else {
                None
            };
            let not_symlinked = if i < b.len() {
                Some(b[i].clone())
            } else {
                None
            };
            let ghost prev = rows@;
            let row = StatusRow { symlinked, not_symlinked };
            assert(row_at(row, i as int, pv(&a), pv(&b)));
            rows.push(row);
            assert forall|k: int| 0 <= k < rows.len() implies row_at(#[trigger] rows[k], k, pv(&a), pv(&b)) by {
                if k < i {
                    assert(rows[k] == prev[k]);
                }
            }
            i += 1;
        }
        rows
    }

    /// The home-directory targets that block foreign entries, in order.
    pub fn conflicts(&self) -> (r: Vec<Vec<String>>)
        requires
            self.wf(),
        ensures
            r.len() == self.not_owned.len(),
            forall|k: int| 0 <= k < r.len() ==> pv(&#[trigger] r[k]) == self.layout.config_target(pv(&self.not_owned[k].path)),
    {
        let mut out: Vec<Vec<String>> = Vec::new();
        let mut i: usize = 0;
        while i < self.not_owned.len()
            invariant
                self.wf(),
                0 <= i <= self.not_owned.len(),
                out.len() == i,
                forall|k: int| 0 <= k < out.len() ==> pv(&#[trigger] out[k]) == self.layout.config_target(pv(&self.not_owned[k].path)),
            decreases self.not_owned.len() - i,
        {
            assert(is_classified(&self.layout, pv(&self.not_owned@[i as int].path)));
            out.push(config_target_path(&self.layout, &self.not_owned[i].path));
            i += 1;
        }
        out
    }
}

/// A character of the Unicode `White_Space` set, which is what
/// `char::is_whitespace` tests.
pub open spec fn is_space(c: char) -> bool {
    ||| c == '\t' || c == '\n' || c == '\u{B}' || c == '\u{C}' || c == '\r' || c == ' '
    ||| c == '\u{85}' || c == '\u{A0}' || c == '\u{1680}'
    ||| ('\u{2000}' <= c && c <= '\u{200A}')
    ||| c == '\u{2028}' || c == '\u{2029}' || c == '\u{202F}' || c == '\u{205F}' || c == '\u{3000}'
}

fn space(c: char) -> (r: bool)
    ensures
        r == is_space(c),
{
    c == '\t' || c == '\n' || c == '\u{B}' || c == '\u{C}' || c == '\r' || c == ' ' || c == '\u{85}'
        || c == '\u{A0}' || c == '\u{1680}' || ('\u{2000}' <= c && c <= '\u{200A}') || c == '\u{2028}'
        || c == '\u{2029}' || c == '\u{202F}' || c == '\u{205F}' || c == '\u{3000}'
}

/// `c` is the lower-case ASCII letter `l`, in either case.
pub open spec fn same_letter(c: char, l: char) -> bool {
    c == l || ('a' <= l && l <= 'z' && (c as u32) + 32 == (l as u32))
}

/// `s` is the lower-case word `w`, letters in either case, with nothing but
/// whitespace around it.
pub open spec fn spells(s: Seq<char>, w: Seq<char>) -> bool {
    exists|lo: int| spelled_at(s, w, lo)
}

/// `s` holds the word `w` from `lo` on, with only whitespace before and
/// after it.
pub open spec fn spelled_at(s: Seq<char>, w: Seq<char>, lo: int) -> bool {
    &&& 0 <= lo && lo + w.len() <= s.len()
    &&& forall|i: int| 0 <= i < lo ==> is_space(#[trigger] s[i])
    &&& forall|i: int| lo + w.len() <= i < s.len() ==> is_space(#[trigger] s[i])
    &&& forall|k: int| 0 <= k < w.len() ==> same_letter(#[trigger] s[lo + k], w[k])
}

/// A lower-case letter is never matched by whitespace.
proof fn lemma_letter_not_space(c: char, l: char)
    requires
        'a' <= l && l <= 'z',
        same_letter(c, l),
    ensures
        !is_space(c),
{
}

/// Where whitespace surrounds the text from `lo` to `hi`, which starts and
/// ends with other characters, a word of letters stands only there.
proof fn lemma_word_position(s: Seq<char>, lo: int, hi: int, w: Seq<char>, a: int)
    requires
        0 <= lo <= hi <= s.len(),
        lo == s.len() || !is_space(s[lo]),
        hi == lo || !is_space(s[hi - 1]),
        forall|i: int| 0 <= i < lo ==> is_space(#[trigger] s[i]),
        forall|i: int| hi <= i < s.len() ==> is_space(#[trigger] s[i]),
        w.len() > 0,
        forall|k: int| 0 <= k < w.len() ==> 'a' <= #[trigger] w[k] && w[k] <= 'z',
        0 <= a && a + w.len() <= s.len(),
        forall|i: int| 0 <= i < a ==> is_space(#[trigger] s[i]),
        forall|i: int| a + w.len() <= i < s.len() ==> is_space(#[trigger] s[i]),
        forall|k: int| 0 <= k < w.len() ==> same_letter(#[trigger] s[a + k], w[k]),
    ensures
        a == lo,
        a + w.len() == hi,
{
    let e = a + w.len() - 1;
    assert(same_letter(s[a + 0], w[0]));
    lemma_letter_not_space(s[a], w[0]);
    assert(same_letter(s[a + (w.len() - 1)], w[w.len() - 1]));
    lemma_letter_not_space(s[e], w[w.len() - 1]);
    if a < lo {
        assert(is_space(s[a]));
    }
    if a > lo {
        assert(is_space(s[lo]));
    }
    if e + 1 < hi {
        assert(is_space(s[hi - 1]));
    }
    if e + 1 > hi {
        assert(is_space(s[e]));
    }
}

/// With `lo` and `hi` as above, `s` spells the word `w` exactly when the
/// text between them matches it.
proof fn lemma_spells(s: Seq<char>, lo: int, hi: int, w: Seq<char>)
    requires
        0 <= lo <= hi <= s.len(),
        lo == s.len() || !is_space(s[lo]),
        hi == lo || !is_space(s[hi - 1]),
        forall|i: int| 0 <= i < lo ==> is_space(#[trigger] s[i]),
        forall|i: int| hi <= i < s.len() ==> is_space(#[trigger] s[i]),
        w.len() > 0,
        forall|k: int| 0 <= k < w.len() ==> 'a' <= #[trigger] w[k] && w[k] <= 'z',
    ensures
        spells(s, w) == (hi - lo == w.len() && forall|k: int| 0 <= k < w.len() ==> same_letter(#[trigger] s[lo + k], w[k])),
{
    if spells(s, w) {
        let a = choose|a: int| spelled_at(s, w, a);
        lemma_word_position(s, lo, hi, w, a);
    }
    if hi - lo == w.len() && forall|k: int| 0 <= k < w.len() ==> same_letter(#[trigger] s[lo + k], w[k]) {
        assert(spelled_at(s, w, lo));
    }
}

/// How the question whether to override conflicts was answered.
#[derive(Clone, Copy, Debug, PartialEq, Eq, Structural)]
pub enum Answer {
    Yes,
    No,
    Unclear,
}

/// Whether the text between `lo` and `hi` of `s` is the word `w`, letters
/// in either case.
fn span_spells(s: &str, lo: usize, hi: usize, w: &str) -> (r: bool)
    requires
        lo <= hi <= s@.len(),
    ensures
        r == (hi - lo == w@.len() && forall|k: int| 0 <= k < w@.len() ==> same_letter(#[trigger] s@[lo + k], w@[k])),
{
    let n = w.unicode_len();
    if hi - lo != n {
        return false;
    }
    let mut k: usize = 0;
    while k < n
        invariant
            lo <= hi <= s@.len(),
            n == w@.len(),
            hi - lo == n,
            0 <= k <= n,
            forall|j: int| 0 <= j < k ==> same_letter(#[trigger] s@[lo + j], w@[j]),
        decreases n - k,
    {
        let c = s.get_char(lo + k);
        let l = w.get_char(k);
        if !(c == l || ('a' <= l && l <= 'z' && (c as u32) + 32 == (l as u32))) {
            return false;
        }
        k += 1;
    }
    true
}

/// Reads the answer to the question whether conflicts are to be
/// overridden: `y` or `yes` agree, `n` or `no` decline, in either case and
/// with whitespace around; anything else is unclear.
#[verifier::rlimit(60)]
pub fn read_answer(s: &str) -> (r: Answer)
    ensures
        r == if spells(s@, "y"@) || spells(s@, "yes"@) {
            Answer::Yes
        } else if spells(s@, "n"@) || spells(s@, "no"@) {
            Answer::No
        } else {
            Answer::Unclear
        },
{
    proof {
        reveal_strlit("y");
        reveal_strlit("yes");
        reveal_strlit("n");
        reveal_strlit("no");
    }
    let len = s.unicode_len();
    let mut lo: usize = 0;
    while lo < len && space(s.get_char(lo))
        invariant
            len == s@.len(),
            0 <= lo <= len,
            forall|i: int| 0 <= i < lo ==> is_space(#[trigger] s@[i]),
        decreases len - lo,
    {
        lo += 1;
    }
    let mut hi: usize = len;
    while hi > lo && space(s.get_char(hi - 1))
        invariant
            len == s@.len(),
            lo <= hi <= len,
            forall|i: int| hi <= i < len ==> is_space(#[trigger] s@[i]),
        decreases hi - lo,
    {
        hi -= 1;
    }
    // `lo` is the first character that is not whitespace, `hi` one past the
    // last; a word made of letters can only stand exactly there.
    proof {
        assert(lo == len || !is_space(s@[lo as int]));
        assert(hi == lo || !is_space(s@[hi - 1]));
        lemma_spells(s@, lo as int, hi as int, "y"@);
        lemma_spells(s@, lo as int, hi as int, "yes"@);
        lemma_spells(s@, lo as int, hi as int, "n"@);
        lemma_spells(s@, lo as int, hi as int, "no"@);
    }
    if span_spells(s, lo, hi, "y") || span_spells(s, lo, hi, "yes") {
        Answer::Yes
    } else if span_spells(s, lo, hi, "n") || span_spells(s, lo, hi, "no") {
        Answer::No
    } else {
        Answer::Unclear
    }
}

} // verus!
