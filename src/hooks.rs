//! The stages of deploying a group with hooks: pre-hook scripts, then
//! symlinking, then post-hook scripts.
use vstd::prelude::*;
use crate::paths::{pv, str_starts_with, names_contain};

verus! {

/// One stage of a deployment.
#[derive(Clone, Copy, Debug, PartialEq, Eq, Structural)]
pub enum DeployStep {
    /// Before the deployment starts.
    Initialize,
    PreHook,
    Symlink,
    PostHook,
}

/// The stage after `s`, if any.
pub open spec fn successor(s: DeployStep) -> Option<DeployStep> {
    match s {
        DeployStep::Initialize => Some(DeployStep::PreHook),
        DeployStep::PreHook => Some(DeployStep::Symlink),
        DeployStep::Symlink => Some(DeployStep::PostHook),
        DeployStep::PostHook => None,
    }
}

/// Steps through the stages of a deployment, in order.
#[derive(Clone, Debug, PartialEq, Eq)]
pub struct DeployStages(pub DeployStep);

impl DeployStages {
    pub fn new() -> (r: DeployStages)
        ensures
            r.0 == DeployStep::Initialize,
    {
        DeployStages(DeployStep::Initialize)
    }

    /// Moves to the next stage and returns it; `None` once the last stage is
    /// reached.
    pub fn next(&mut self) -> (r: Option<DeployStep>)
        ensures
            r == successor(old(self).0),
            final(self).0 == match r {
                Some(s) => s,
                None => old(self).0,
            },
    {
        let r = match self.0 {
            DeployStep::Initialize => Some(DeployStep::PreHook),
            DeployStep::PreHook => Some(DeployStep::Symlink),
            DeployStep::Symlink => Some(DeployStep::PostHook),
            DeployStep::PostHook => None,
        };
        if let Some(s) = r {
            self.0 = s;
        }
        r
    }
}

/// Whether the hook script named `filename` runs at `step`: pre-hooks are
/// the scripts whose names start with `pre`, post-hooks those whose names
/// start with `post`.
pub fn hook_runs_at(filename: &str, step: DeployStep) -> (r: bool)
    ensures
        r == match step {
            DeployStep::PreHook => "pre"@.is_prefix_of(filename@),
            DeployStep::PostHook => "post"@.is_prefix_of(filename@),
            _ => false,
        },
{
    match step {
        DeployStep::PreHook => str_starts_with(filename, "pre"),
        DeployStep::PostHook => str_starts_with(filename, "post"),
        _ => false,
    }
}

/// Whether a group's hook directory, holding the scripts `names`, has a
/// pre-hook and a post-hook.
pub fn hook_flags(names: &Vec<String>) -> (r: (bool, bool))
    ensures
        r.0 == exists|i: int| 0 <= i < names.len() && "pre"@.is_prefix_of(#[trigger] names@[i]@),
        r.1 == exists|i: int| 0 <= i < names.len() && "post"@.is_prefix_of(#[trigger] names@[i]@),
{
    let mut pre = false;
    let mut post = false;
    let mut i: usize = 0;
    while i < names.len()
        invariant
            0 <= i <= names.len(),
            pre == exists|j: int| 0 <= j < i && "pre"@.is_prefix_of(#[trigger] names@[j]@),
            post == exists|j: int| 0 <= j < i && "post"@.is_prefix_of(#[trigger] names@[j]@),
        decreases names.len() - i,
    {
        if hook_runs_at(names[i].as_str(), DeployStep::PreHook) {
            pre = true;
        }
        if hook_runs_at(names[i].as_str(), DeployStep::PostHook) {
            post = true;
        }
        i += 1;
    }
    (pre, post)
}

/// The names of `names` that `exclude` does not name, in order.
pub open spec fn not_excluded(names: Seq<Seq<char>>, exclude: Seq<Seq<char>>) -> Seq<Seq<char>>
    decreases names.len(),
{
    if names.len() == 0 {
        Seq::empty()
    } else {
        let prev = not_excluded(names.drop_last(), exclude);
        if exclude.contains(names.last()) {
            prev
        } else {
            prev.push(names.last())
        }
    }
}

/// The groups a hook or secrets command works on: every available group when
/// the request holds the wildcard `*`, else the requested names; either way
/// without those that `exclude` names.
pub fn choose_groups(requested: &Vec<String>, available: &Vec<String>, exclude: &Vec<String>) -> (r: Vec<String>)
    ensures
        pv(&r) == not_excluded(
            if pv(requested).contains("*"@) {
                pv(available)
            } else {
                pv(requested)
            },
            pv(exclude),
        ),
{
    let from = if names_contain(requested, "*") {
        available
    } else {
        requested
    };
    let ghost fv = pv(from);
    let mut out: Vec<String> = Vec::new();
    let mut i: usize = 0;
    assert(fv.take(0) =~= Seq::<Seq<char>>::empty());
    assert(pv(&out) =~= Seq::<Seq<char>>::empty());
    while i < from.len()
        invariant
            fv == pv(from),
            0 <= i <= from.len(),
            pv(&out) == not_excluded(fv.take(i as int), pv(exclude)),
        decreases from.len() - i,
    {
        assert(fv.take(i + 1).drop_last() =~= fv.take(i as int));
        assert(fv.take(i + 1).last() == fv[i as int]);
        if !names_contain(exclude, from[i].as_str()) {
            let ghost prev = pv(&out);
            out.push(from[i].clone());
            assert(pv(&out) =~= prev.push(fv[i as int]));
        }
        i += 1;
    }
    assert(fv.take(from.len() as int) =~= fv);
    out
}

} // verus!
