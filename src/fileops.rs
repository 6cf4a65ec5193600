//! The decisions behind the commands that set up and edit the dotfiles
//! directory.
use vstd::prelude::*;
use crate::paths::{PathV, pv, str_starts_with, str_ends_with, path_child, path_join, path_slice};
use crate::dotfiles::{Layout, DotfileType};
use crate::snapshot::FsSnapshot;

verus! {

/// Whether converting a stow directory moves the directory named `name` into
/// Configs: hidden directories and the managed roots themselves stay.
pub fn stow_dir_moves(name: &str) -> (r: bool)
    ensures
        r == !("."@.is_prefix_of(name@) || "Configs"@.is_suffix_of(name@) || "Hooks"@.is_suffix_of(name@)
            || "Secrets"@.is_suffix_of(name@)),
{
    !(str_starts_with(name, ".") || str_ends_with(name, "Configs") || str_ends_with(name, "Hooks")
        || str_ends_with(name, "Secrets"))
}

/// Where a file of the home directory is copied when it is added to a
/// group: the same path below the group's directory in Configs.
pub fn push_destination(l: &Layout, group: &str, file: &Vec<String>) -> (r: Vec<String>)
    requires
        l.home().is_prefix_of(pv(file)),
    ensures
        pv(&r) == l.configs().push(group@) + pv(file).subrange(l.home().len() as int, pv(file).len() as int),
{
    let group_dir = path_child(&l.root_path(DotfileType::Configs), group);
    let rest = path_slice(file, l.home_dir.len());
    path_join(&group_dir, &rest)
}

/// The first of `groups` whose directory in Configs holds `basepath`.
pub open spec fn first_holding(l: &Layout, fs: Map<PathV, crate::snapshot::Node>, groups: Seq<Seq<char>>, basepath: PathV) -> Option<Seq<char>>
    decreases groups.len(),
{
    if groups.len() == 0 {
        None
    } else if fs.contains_key(l.configs().push(groups[0]) + basepath) {
        Some(groups[0])
    } else {
        first_holding(l, fs, groups.drop_first(), basepath)
    }
}

/// The group that holds the managed file deployed at `basepath` below the
/// home directory: the first of `groups` whose directory holds it.
pub fn group_holding(l: &Layout, groups: &Vec<String>, basepath: &Vec<String>, fs: &FsSnapshot) -> (r: Option<String>)
    requires
        fs.wf(),
    ensures
        match r {
            Some(g) => first_holding(l, fs@, pv(groups), pv(basepath)) == Some(g@),
            None => first_holding(l, fs@, pv(groups), pv(basepath)) is None,
        },
{
    let configs = l.root_path(DotfileType::Configs);
    let ghost gs = pv(groups);
    let mut i: usize = 0;
    assert(gs.skip(0) =~= gs);
    while i < groups.len()
        invariant
            fs.wf(),
            gs == pv(groups),
            pv(&configs) == l.configs(),
            0 <= i <= groups.len(),
            first_holding(l, fs@, gs.skip(i as int), pv(basepath)) == first_holding(l, fs@, gs, pv(basepath)),
        decreases groups.len() - i,
    {
        assert(gs.skip(i as int)[0] == gs[i as int]);
        assert(gs.skip(i as int).drop_first() =~= gs.skip(i + 1));
        let candidate = path_join(&path_child(&configs, groups[i].as_str()), basepath);
        if fs.lookup(&candidate).is_some() {
            return Some(groups[i].clone());
        }
        i += 1;
    }
    assert(gs.skip(groups.len() as int) =~= Seq::<Seq<char>>::empty());
    None
}

} // verus!
