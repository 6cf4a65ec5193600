//! Where a managed file belongs: its group, its target path, and whether its
//! group applies to the running platform.
use vstd::prelude::*;
use crate::paths::{
    PathV, pv, below, path_starts_with, path_is_below, path_clone, path_slice, path_join,
    path_child, str_ends_with, str_starts_with, str_eq,
};
use crate::snapshot::{FsSnapshot, Node};

verus! {

/// Exit codes of the command layer.
#[derive(Clone, Copy, Debug, PartialEq, Eq, Structural)]
pub enum ReturnCode {
    /// Couldn't find the dotfiles directory
    CouldntFindDotfiles,
    /// No Configs/Hooks/Secrets folder setup
    NoSetupFolder,
    /// Referenced file does not exist in the current directory
    NoSuchFileOrDir,
    /// Failed to encrypt referenced file
    EncryptionFailed,
    /// Failed to decrypt referenced file
    DecryptionFailed,
    /// Failed to Symlink
    CouldntSymlinkFile,
}

impl ReturnCode {
    pub open spec fn spec_code(self) -> u8 {
        match self {
            ReturnCode::CouldntFindDotfiles => 2,
            ReturnCode::NoSetupFolder => 3,
            ReturnCode::NoSuchFileOrDir => 4,
            ReturnCode::EncryptionFailed => 5,
            ReturnCode::DecryptionFailed => 6,
            ReturnCode::CouldntSymlinkFile => 7,
        }
    }

    /// The process exit status that stands for this code.
    pub fn code(&self) -> (r: u8)
        ensures
            r == self.spec_code(),
    {
        match self {
            ReturnCode::CouldntFindDotfiles => 2,
            ReturnCode::NoSetupFolder => 3,
            ReturnCode::NoSuchFileOrDir => 4,
            ReturnCode::EncryptionFailed => 5,
            ReturnCode::DecryptionFailed => 6,
            ReturnCode::CouldntSymlinkFile => 7,
        }
    }

    pub open spec fn spec_message(self) -> Seq<char> {
        match self {
            ReturnCode::CouldntFindDotfiles => "Couldn't Find Dotfiles"@,
            ReturnCode::NoSetupFolder => "No Setup Folder"@,
            ReturnCode::NoSuchFileOrDir => "No Such File Or Dir"@,
            ReturnCode::EncryptionFailed => "Encryption Failed"@,
            ReturnCode::DecryptionFailed => "Decryption Failed"@,
            ReturnCode::CouldntSymlinkFile => "Couldn't Symlink File"@,
        }
    }

    /// A short human-readable description.
    pub fn message(&self) -> (r: &'static str)
        ensures
            r@ == self.spec_message(),
    {
        match self {
            ReturnCode::CouldntFindDotfiles => "Couldn't Find Dotfiles",
            ReturnCode::NoSetupFolder => "No Setup Folder",
            ReturnCode::NoSuchFileOrDir => "No Such File Or Dir",
            ReturnCode::EncryptionFailed => "Encryption Failed",
            ReturnCode::DecryptionFailed => "Decryption Failed",
            ReturnCode::CouldntSymlinkFile => "Couldn't Symlink File",
        }
    }
}

/// The three managed roots under the dotfiles directory.
#[derive(Clone, Copy, Debug, PartialEq, Eq, Structural)]
pub enum DotfileType {
    Configs,
    Secrets,
    Hooks,
}

impl DotfileType {
    pub open spec fn spec_dir_name(self) -> Seq<char> {
        match self {
            DotfileType::Configs => "Configs"@,
            DotfileType::Secrets => "Secrets"@,
            DotfileType::Hooks => "Hooks"@,
        }
    }

    /// The name of the managed root's directory.
    pub fn dir_name(&self) -> (r: &'static str)
        ensures
            r@ == self.spec_dir_name(),
    {
        match self {
            DotfileType::Configs => "Configs",
            DotfileType::Secrets => "Secrets",
            DotfileType::Hooks => "Hooks",
        }
    }
}

/// Where the dotfiles directory and the home directory are.
#[derive(Clone, Debug, PartialEq, Eq)]
pub struct Layout {
    pub dotfiles_dir: Vec<String>,
    pub home_dir: Vec<String>,
}

impl Layout {
    pub open spec fn dot(&self) -> PathV {
        pv(&self.dotfiles_dir)
    }

    pub open spec fn home(&self) -> PathV {
        pv(&self.home_dir)
    }

    /// The managed root of one kind.
    pub open spec fn root(&self, t: DotfileType) -> PathV {
        self.dot().push(t.spec_dir_name())
    }

    pub open spec fn configs(&self) -> PathV {
        self.root(DotfileType::Configs)
    }

    /// The group whose files are deployed under the filesystem root.
    pub open spec fn root_group(&self) -> PathV {
        self.configs().push("Root"@)
    }

    /// The managed root that `p` lies in, if any.
    pub open spec fn managed_root(&self, p: PathV) -> Option<PathV> {
        if self.root(DotfileType::Configs).is_prefix_of(p) {
            Some(self.root(DotfileType::Configs))
        } else if self.root(DotfileType::Hooks).is_prefix_of(p) {
            Some(self.root(DotfileType::Hooks))
        } else if self.root(DotfileType::Secrets).is_prefix_of(p) {
            Some(self.root(DotfileType::Secrets))
        } else {
            None
        }
    }

    /// Where the file `p` of the group directory `group` is deployed.
    pub open spec fn target_of(&self, group: PathV, p: PathV) -> PathV {
        let rest = p.subrange(group.len() as int, p.len() as int);
        if self.root_group().is_prefix_of(group) {
            rest
        } else {
            self.home() + rest
        }
    }

    /// Where the entry `p` of the Configs tree is deployed.
    pub open spec fn config_target(&self, p: PathV) -> PathV {
        self.target_of(group_of(self.configs(), p), p)
    }

    /// Builds the path of one managed root.
    pub fn root_path(&self, t: DotfileType) -> (r: Vec<String>)
        ensures
            pv(&r) == self.root(t),
    {
        path_child(&self.dotfiles_dir, t.dir_name())
    }
}

/// The group directory of `p`, which lies in the managed root `root`: the
/// child of `root` on the way to `p`, or `root` itself when `p` is `root`.
pub open spec fn group_of(root: PathV, p: PathV) -> PathV {
    if p.len() <= root.len() {
        root
    } else {
        root.push(p[root.len() as int])
    }
}

/// The operating system and the OS family that group suffixes are held
/// against.
#[derive(Clone, Debug, PartialEq, Eq)]
pub struct Platform {
    pub os: String,
    pub family: String,
}

/// The group-name suffixes that name an OS or an OS family.
pub open spec fn target_tokens() -> Seq<Seq<char>> {
    seq![
        "_windows"@,
        "_macos"@,
        "_ios"@,
        "_linux"@,
        "_android"@,
        "_freebsd"@,
        "_dragonfly"@,
        "_openbsd"@,
        "_netbsd"@,
        "_none"@,
        "_unix"@,
    ]
}

/// How many suffixes `target_tokens` holds.
pub const TARGET_TOKEN_COUNT: usize = 11;

/// One of the recognised suffixes.
pub fn target_token(i: usize) -> (r: &'static str)
    requires
        i < TARGET_TOKEN_COUNT,
    ensures
        r@ == target_tokens()[i as int],
{
    match i {
        0 => "_windows",
        1 => "_macos",
        2 => "_ios",
        3 => "_linux",
        4 => "_android",
        5 => "_freebsd",
        6 => "_dragonfly",
        7 => "_openbsd",
        8 => "_netbsd",
        9 => "_none",
        _ => "_unix",
    }
}

/// The group name ends with a platform suffix.
pub open spec fn has_target_suffix(g: Seq<char>) -> bool {
    exists|i: int| 0 <= i < target_tokens().len() && #[trigger] target_tokens()[i].is_suffix_of(g)
}

/// A group applies on a platform when it carries no platform suffix, or when
/// it ends with the platform's OS or OS family.
pub open spec fn applies_on(g: Seq<char>, os: Seq<char>, family: Seq<char>) -> bool {
    !has_target_suffix(g) || ("_"@ + os).is_suffix_of(g) || ("_"@ + family).is_suffix_of(g)
}

impl Platform {
    pub open spec fn admits(&self, g: Seq<char>) -> bool {
        applies_on(g, self.os@, self.family@)
    }

    /// Whether the group named `group` applies on this platform.
    pub fn applies_to(&self, group: &str) -> (r: bool)
        ensures
            r == self.admits(group@),
    {
        if !group_ends_with_target_name(group) {
            return true;
        }
        let os = String::from_str("_").concat(self.os.as_str());
        let family = String::from_str("_").concat(self.family.as_str());
        str_ends_with(group, os.as_str()) || str_ends_with(group, family.as_str())
    }
}

/// Whether the group name ends with one of the platform suffixes.
pub fn group_ends_with_target_name(group: &str) -> (r: bool)
    ensures
        r == has_target_suffix(group@),
{
    let mut i: usize = 0;
    while i < TARGET_TOKEN_COUNT
        invariant
            0 <= i <= TARGET_TOKEN_COUNT,
            forall|j: int| 0 <= j < i ==> !(#[trigger] target_tokens()[j]).is_suffix_of(group@),
        decreases TARGET_TOKEN_COUNT - i,
    {
        if str_ends_with(group, target_token(i)) {
            return true;
        }
        i += 1;
    }
    false
}

/// A file or directory of the managed tree, with the group it belongs to.
#[derive(Clone, Debug, PartialEq, Eq)]
pub struct Dotfile {
    pub path: Vec<String>,
    pub group_path: Vec<String>,
    pub group_name: String,
}

impl Dotfile {
    /// The file lies in a managed root of `l`, and its group is the one that
    /// the path gives.
    pub open spec fn resolves(&self, l: &Layout) -> bool {
        match l.managed_root(pv(&self.path)) {
            Some(root) => {
                &&& pv(&self.group_path) == group_of(root, pv(&self.path))
                &&& self.group_name@ == pv(&self.group_path).last()
            },
            None => false,
        }
    }

    /// Finds the group of a path inside the dotfiles directory.
    pub fn resolve(path: Vec<String>, l: &Layout) -> (r: Result<Dotfile, ReturnCode>)
        ensures
            match r {
                Ok(d) => pv(&d.path) == pv(&path) && d.resolves(l),
                Err(e) => l.managed_root(pv(&path)) is None && e == ReturnCode::NoSuchFileOrDir,
            },
    {
        let configs = l.root_path(DotfileType::Configs);
        let hooks = l.root_path(DotfileType::Hooks);
        let secrets = l.root_path(DotfileType::Secrets);
        let root = if path_starts_with(&path, &configs) {
            configs
        } else if path_starts_with(&path, &hooks) {
            hooks
        } else if path_starts_with(&path, &secrets) {
            secrets
        } else {
            return Err(ReturnCode::NoSuchFileOrDir);
        };
        let ghost r = pv(&root);
        assert(l.managed_root(pv(&path)) == Some(r));
        let group_path = if path.len() <= root.len() {
            root
        } else {
            let mut g = root;
            g.push(path[g.len()].clone());
            assert(pv(&g) =~= r.push(pv(&path)[r.len() as int]));
            g
        };
        let group_name = group_path[group_path.len() - 1].clone();
        Ok(Dotfile { path, group_path, group_name })
    }

    /// Whether the group of this file is deployed under the filesystem root.
    pub fn targets_root(&self, l: &Layout) -> (r: bool)
        ensures
            r == l.root_group().is_prefix_of(pv(&self.group_path)),
    {
        let root_dir = path_child(&l.root_path(DotfileType::Configs), "Root");
        path_starts_with(&self.group_path, &root_dir)
    }

    /// Where this file is deployed: its path below the group directory, put
    /// under the home directory (or under the filesystem root for the
    /// reserved "Root" group).
    pub fn to_target_path(&self, l: &Layout) -> (r: Vec<String>)
        requires
            pv(&self.group_path).is_prefix_of(pv(&self.path)),
        ensures
            pv(&r) == l.target_of(pv(&self.group_path), pv(&self.path)),
    {
        let rest = path_slice(&self.path, self.group_path.len());
        if self.targets_root(l) {
            rest
        } else {
            path_join(&l.home_dir, &rest)
        }
    }

    /// Whether the group of this file applies on the platform.
    pub fn is_valid_target(&self, platform: &Platform) -> (r: bool)
        ensures
            r == platform.admits(self.group_name@),
    {
        platform.applies_to(self.group_name.as_str())
    }

    /// Every file and directory that the snapshot holds below this one, with
    /// its group.
    pub fn map(&self, l: &Layout, fs: &FsSnapshot) -> (r: Vec<Dotfile>)
        requires
            fs.wf(),
            self.resolves(l),
        ensures
            forall|i: int|
                0 <= i < r.len() ==> {
                    &&& (#[trigger] r[i]).resolves(l)
                    &&& fs@.contains_key(pv(&r[i].path))
                    &&& below(pv(&self.path), pv(&r[i].path))
                },
            forall|p: PathV|
                #[trigger] fs@.contains_key(p) && below(pv(&self.path), p) ==> exists|i: int|
                    0 <= i < r.len() && pv(&r[i].path) == p,
            forall|i: int, j: int|
                0 <= i < r.len() && 0 <= j < r.len() && i != j ==> pv(&r[i].path) != pv(&r[j].path),
    {
        let mut out: Vec<Dotfile> = Vec::new();
        let mut i: usize = 0;
        while i < fs.entries.len()
            invariant
                fs.wf(),
                self.resolves(l),
                0 <= i <= fs.entries.len(),
                forall|k: int|
                    0 <= k < out.len() ==> {
                        &&& (#[trigger] out[k]).resolves(l)
                        &&& fs@.contains_key(pv(&out[k].path))
                        &&& below(pv(&self.path), pv(&out[k].path))
                    },
                forall|j: int|
                    0 <= j < i && below(pv(&self.path), #[trigger] pv(&fs.entries[j].path))
                        ==> exists|k: int| 0 <= k < out.len() && pv(&out[k].path) == pv(&fs.entries[j].path),
                forall|k: int| #![trigger out[k]] 0 <= k < out.len() ==> exists|j: int|
                    0 <= j < i && pv(&out[k].path) == pv(&fs.entries[j].path),
                forall|a: int, b: int|
                    0 <= a < out.len() && 0 <= b < out.len() && a != b ==> pv(&out[a].path) != pv(&out[b].path),
            decreases fs.entries.len() - i,
        {
            proof {
                fs.lemma_entry(i as int);
            }
            let ghost prev = out@;
            if path_is_below(&self.path, &fs.entries[i].path) {
                let ghost p = pv(&fs.entries[i as int].path);
                proof {
                    let root = l.managed_root(pv(&self.path))->0;
                    assert(root.is_prefix_of(pv(&self.path)));
                    assert(p.subrange(0, root.len() as int) =~= pv(&self.path).subrange(
                        0,
                        root.len() as int,
                    ));
                    assert(root.is_prefix_of(p));
                    assert(l.managed_root(p) is Some);
                }
                match Dotfile::resolve(path_clone(&fs.entries[i].path), l) {
                    Ok(d) => {
                        proof {
                            assert forall|k: int| 0 <= k < prev.len() implies pv(&prev[k].path) != p by {
                                let j = choose|j: int| 0 <= j < i && pv(&prev[k].path) == pv(&fs.entries[j].path);
                            }
                        }
                        out.push(d);
                        assert(pv(&out[out.len() - 1].path) == p);
                        proof {
                            assert forall|a: int, b: int|
                                0 <= a < out.len() && 0 <= b < out.len() && a != b implies pv(&out[a].path)
                                != pv(&out[b].path) by {
                                if a < prev.len() {
                                    assert(out[a] == prev[a]);
                                }
                                if b < prev.len() {
                                    assert(out[b] == prev[b]);
                                }
                            }
                        }
                    },
                    Err(_) => {},
                }
            }
            proof {
                assert forall|k: int| #![trigger out[k]] 0 <= k < out.len() implies exists|j: int|
                    0 <= j < i + 1 && pv(&out[k].path) == pv(&fs.entries[j].path) by {
                    if k < prev.len() {
                        assert(out[k] == prev[k]);
                        let j = choose|j: int| 0 <= j < i && pv(&prev[k].path) == pv(&fs.entries[j].path);
                    } else {
                        assert(pv(&out[k].path) == pv(&fs.entries[i as int].path));
                    }
                }
                assert forall|j: int|
                    0 <= j < i + 1 && below(pv(&self.path), #[trigger] pv(&fs.entries[j].path))
                        implies exists|k: int| 0 <= k < out.len() && pv(&out[k].path) == pv(&fs.entries[j].path) by {
                    if j < i {
                        let k = choose|k: int| 0 <= k < prev.len() && pv(&prev[k].path) == pv(&fs.entries[j].path);
                        assert(out[k] == prev[k]);
                    } else {
                        assert(pv(&out[out.len() - 1].path) == pv(&fs.entries[j].path));
                    }
                }
            }
            i += 1;
        }
        proof {
            assert forall|p: PathV|
                #[trigger] fs@.contains_key(p) && below(pv(&self.path), p) implies exists|i: int|
                    0 <= i < out.len() && pv(&out[i].path) == p by {
                let j = fs.index_of(p);
                assert(below(pv(&self.path), pv(&fs.entries[j].path)));
            }
        }
        out
    }
}

/// The dotfiles directory: `.dotfiles` in the home directory, where the
/// snapshot holds it.
pub fn get_dotfiles_path(home: &Vec<String>, fs: &FsSnapshot) -> (r: Result<Vec<String>, ReturnCode>)
    requires
        fs.wf(),
    ensures
        match r {
            Ok(p) => pv(&p) == pv(home).push(".dotfiles"@) && fs@.contains_key(pv(&p)),
            Err(e) => !fs@.contains_key(pv(home).push(".dotfiles"@))
                && e == ReturnCode::CouldntFindDotfiles,
        },
{
    let p = path_child(home, ".dotfiles");
    if fs.lookup(&p).is_some() {
        Ok(p)
    } else {
        Err(ReturnCode::CouldntFindDotfiles)
    }
}

/// The part of `target` below the home directory.
pub fn get_target_basepath(home: &Vec<String>, target: &Vec<String>) -> (r: Vec<String>)
    requires
        pv(home).is_prefix_of(pv(target)),
    ensures
        pv(&r) == pv(target).subrange(pv(home).len() as int, pv(target).len() as int),
{
    path_slice(target, home.len())
}

/// Whether a directory is set up for `group` under the managed root of kind
/// `dtype`.
pub fn dotfile_contains(dtype: DotfileType, group: &str, l: &Layout, fs: &FsSnapshot) -> (r: bool)
    requires
        fs.wf(),
    ensures
        r == fs@.contains_key(l.root(dtype).push(group@)),
{
    let group_src = path_child(&l.root_path(dtype), group);
    fs.lookup(&group_src).is_some()
}

/// The names of `groups` that have no directory under the managed root of
/// kind `dtype`, in order; the wildcard `*` is never one of them.
pub open spec fn invalid_groups(l: &Layout, fs: Map<PathV, Node>, dtype: DotfileType, groups: Seq<Seq<char>>) -> Seq<Seq<char>>
    decreases groups.len(),
{
    if groups.len() == 0 {
        Seq::empty()
    } else {
        let prev = invalid_groups(l, fs, dtype, groups.drop_last());
        let g = groups.last();
        if !fs.contains_key(l.root(dtype).push(g)) && g != "*"@ {
            prev.push(g)
        } else {
            prev
        }
    }
}

/// The groups that have no directory under the managed root of kind `dtype`,
/// or `None` when every group has one.
pub fn check_invalid_groups(dtype: DotfileType, groups: &Vec<String>, l: &Layout, fs: &FsSnapshot) -> (r: Option<Vec<String>>)
    requires
        fs.wf(),
    ensures
        r is None == (invalid_groups(l, fs@, dtype, pv(groups)).len() == 0),
        r is Some ==> pv(&r->0) == invalid_groups(l, fs@, dtype, pv(groups)),
{
    let mut invalid: Vec<String> = Vec::new();
    let mut i: usize = 0;
    while i < groups.len()
        invariant
            fs.wf(),
            0 <= i <= groups.len(),
            pv(&invalid) == invalid_groups(l, fs@, dtype, pv(groups).take(i as int)),
        decreases groups.len() - i,
    {
        let ghost before = pv(&invalid);
        assert(pv(groups).take(i + 1).drop_last() =~= pv(groups).take(i as int));
        if !dotfile_contains(dtype, groups[i].as_str(), l, fs) && !str_eq(groups[i].as_str(), "*") {
            invalid.push(groups[i].clone());
            assert(pv(&invalid) =~= before.push(pv(groups)[i as int]));
        }
        i += 1;
    }
    assert(pv(groups).take(groups.len() as int) =~= pv(groups));
    if invalid.len() == 0 {
        None
    } else {
        Some(invalid)
    }
}

/// `g` is a conditional variant of `base`: `base` followed by one of the
/// platform suffixes.
pub open spec fn is_variant(g: Seq<char>, base: Seq<char>) -> bool {
    &&& base.len() < g.len()
    &&& base.is_prefix_of(g)
    &&& target_tokens().contains(g.subrange(base.len() as int, g.len() as int))
}

/// Whether the group named `g` is a conditional variant of `base`.
pub fn is_variant_name(g: &str, base: &str) -> (r: bool)
    ensures
        r == is_variant(g@, base@),
{
    let n = g.unicode_len();
    let b = base.unicode_len();
    if !(b < n && str_starts_with(g, base)) {
        return false;
    }
    let ghost rest = g@.subrange(b as int, n as int);
    let mut i: usize = 0;
    while i < TARGET_TOKEN_COUNT
        invariant
            n == g@.len(),
            b == base@.len(),
            b < n,
            base@.is_prefix_of(g@),
            rest == g@.subrange(b as int, n as int),
            0 <= i <= TARGET_TOKEN_COUNT,
            forall|j: int| 0 <= j < i ==> #[trigger] target_tokens()[j] != rest,
        decreases TARGET_TOKEN_COUNT - i,
    {
        let tok = target_token(i);
        let t = tok.unicode_len();
        if t == n - b && str_ends_with(g, tok) {
            assert(rest =~= tok@);
            assert(target_tokens()[i as int] == rest);
            assert(target_tokens().contains(rest));
            return true;
        }
        proof {
            if tok@ == rest {
                assert(tok@.is_suffix_of(g@)) by {
                    assert(g@.subrange(n - t, n as int) =~= rest);
                }
            }
        }
        i += 1;
    }
    proof {
        if target_tokens().contains(rest) {
            let j = choose|j: int| 0 <= j < target_tokens().len() && target_tokens()[j] == rest;
            assert(target_tokens()[j] != rest);
        }
    }
    false
}

/// On every platform: a group named `shell_windows` applies only on Windows,
/// a group named `shell_unix` applies on every Unix-family platform, and a
/// group named `shell` applies everywhere.
pub proof fn conditional_filtering(p: &Platform)
    ensures
        p.os@ != "windows"@ && p.family@ != "windows"@ ==> !p.admits("shell_windows"@),
        p.family@ == "unix"@ ==> p.admits("shell_unix"@),
        p.admits("shell"@),
{
    reveal_strlit("shell_windows");
    reveal_strlit("shell_unix");
    reveal_strlit("shell");
    reveal_strlit("windows");
    reveal_strlit("unix");
    reveal_strlit("_");
    reveal_strlit("_windows");
    reveal_strlit("_macos");
    reveal_strlit("_ios");
    reveal_strlit("_linux");
    reveal_strlit("_android");
    reveal_strlit("_freebsd");
    reveal_strlit("_dragonfly");
    reveal_strlit("_openbsd");
    reveal_strlit("_netbsd");
    reveal_strlit("_none");
    reveal_strlit("_unix");
    let w = "shell_windows"@;
    assert(target_tokens()[0].is_suffix_of(w)) by {
        assert(w.subrange(5, 13) =~= "_windows"@);
    }
    assert(has_target_suffix(w));
    if p.os@ != "windows"@ && p.family@ != "windows"@ {
        assert forall|x: Seq<char>| x != "windows"@ implies !("_"@ + x).is_suffix_of(w) by {
            let s = "_"@ + x;
            if s.is_suffix_of(w) {
                let k = w.len() - s.len();
                assert(w[k] == s[0]);
                assert(s[0] == '_');
                assert(k == 5);
                assert(x =~= s.subrange(1, s.len() as int));
                assert(x =~= w.subrange(6, 13));
                assert(x =~= "windows"@);
            }
        }
    }
    let u = "shell_unix"@;
    if p.family@ == "unix"@ {
        assert(("_"@ + p.family@) =~= u.subrange(5, 10));
    }
    let s = "shell"@;
    assert forall|i: int| 0 <= i < target_tokens().len() implies !(#[trigger] target_tokens()[i]).is_suffix_of(s) by {
        let t = target_tokens()[i];
        assert(t[0] == '_');
        if t.is_suffix_of(s) {
            let k = s.len() - t.len();
            assert(s[k] == t[0]);
        }
    }
}

} // verus!
