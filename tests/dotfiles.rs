use tuckr::dotfiles::{
    check_invalid_groups, dotfile_contains, get_dotfiles_path, get_target_basepath,
    group_ends_with_target_name, is_variant_name, target_token, Dotfile, DotfileType, Layout,
    Platform, ReturnCode, TARGET_TOKEN_COUNT,
};
use tuckr::snapshot::{EntryKind, FsSnapshot};

fn p(s: &str) -> Vec<String> {
    s.split('/').filter(|c| !c.is_empty()).map(String::from).collect()
}

fn layout() -> Layout {
    Layout { dotfiles_dir: p("/tmp/tuckr/dotfiles"), home_dir: p("/home/user") }
}

fn platform(os: &str, family: &str) -> Platform {
    Platform { os: os.to_string(), family: family.to_string() }
}

fn new_group(name: &str) -> Dotfile {
    Dotfile { group_name: name.to_string(), path: Vec::new(), group_path: Vec::new() }
}

#[test]
fn dotfile_to_target_path() {
    let l = layout();
    let group = p("/tmp/tuckr/dotfiles/Configs/zsh/.zshrc");
    assert_eq!(
        Dotfile::resolve(group, &l).unwrap().to_target_path(&l),
        p("/home/user/.zshrc")
    );
}

#[test]
fn dotfile_targets_root() {
    let l = layout();
    let root_dotfile = Dotfile::resolve(p("/tmp/tuckr/dotfiles/Configs/Root"), &l).unwrap();
    assert!(root_dotfile.targets_root(&l));
    let nonroot_dotfile = Dotfile::resolve(p("/tmp/tuckr/dotfiles/Configs/Zsh"), &l).unwrap();
    assert!(!nonroot_dotfile.targets_root(&l));
}

#[test]
fn detect_valid_targets() {
    for (os, family) in [("linux", "unix"), ("windows", "windows"), ("macos", "unix")] {
        let pf = platform(os, family);
        let target_tests = [
            (new_group("group_windows"), family == "windows"),
            (new_group("group_linux"), os == "linux"),
            (new_group("group_unix"), family == "unix"),
            (new_group("group_something"), true),
            (new_group("some_random_group"), true),
        ];
        for (dotfile, expected) in target_tests {
            assert_eq!(dotfile.is_valid_target(&pf), expected);
        }
    }
}

#[test]
fn conditional_groups_follow_platform() {
    let linux = platform("linux", "unix");
    let freebsd = platform("freebsd", "unix");
    let windows = platform("windows", "windows");
    assert!(!linux.applies_to("shell_windows"));
    assert!(!freebsd.applies_to("shell_windows"));
    assert!(windows.applies_to("shell_windows"));
    assert!(linux.applies_to("shell_unix"));
    assert!(freebsd.applies_to("shell_unix"));
    assert!(!windows.applies_to("shell_unix"));
    assert!(linux.applies_to("shell"));
    assert!(windows.applies_to("shell"));
    assert!(!linux.applies_to("shell_freebsd"));
    assert!(freebsd.applies_to("shell_freebsd"));
}

#[test]
fn target_suffixes_are_recognised() {
    assert!(group_ends_with_target_name("zsh_linux"));
    assert!(group_ends_with_target_name("nvim_dragonfly"));
    assert!(group_ends_with_target_name("x_none"));
    assert!(!group_ends_with_target_name("zsh"));
    assert!(!group_ends_with_target_name("linux"));
    assert!(!group_ends_with_target_name(""));
    assert_eq!(TARGET_TOKEN_COUNT, 11);
    assert_eq!(target_token(0), "_windows");
    assert_eq!(target_token(10), "_unix");
}

#[test]
fn variant_names() {
    assert!(is_variant_name("shell_linux", "shell"));
    assert!(is_variant_name("shell_windows", "shell"));
    assert!(!is_variant_name("shell", "shell"));
    assert!(!is_variant_name("shellfoo_linux", "shell"));
    assert!(!is_variant_name("shell_foo", "shell"));
    assert!(!is_variant_name("bash_linux", "shell"));
}

#[test]
fn resolve_finds_group() {
    let l = layout();
    let d = Dotfile::resolve(p("/tmp/tuckr/dotfiles/Configs/nvim/.config/nvim/init.lua"), &l).unwrap();
    assert_eq!(d.group_name, "nvim");
    assert_eq!(d.group_path, p("/tmp/tuckr/dotfiles/Configs/nvim"));
    assert_eq!(d.to_target_path(&l), p("/home/user/.config/nvim/init.lua"));

    let h = Dotfile::resolve(p("/tmp/tuckr/dotfiles/Hooks/zsh/pre.sh"), &l).unwrap();
    assert_eq!(h.group_name, "zsh");
    assert_eq!(h.group_path, p("/tmp/tuckr/dotfiles/Hooks/zsh"));

    let s = Dotfile::resolve(p("/tmp/tuckr/dotfiles/Secrets"), &l).unwrap();
    assert_eq!(s.group_name, "Secrets");
    assert_eq!(s.group_path, p("/tmp/tuckr/dotfiles/Secrets"));
}

#[test]
fn resolve_rejects_outside_paths() {
    let l = layout();
    assert_eq!(
        Dotfile::resolve(p("/home/user/.zshrc"), &l).unwrap_err(),
        ReturnCode::NoSuchFileOrDir
    );
    assert_eq!(
        Dotfile::resolve(p("/tmp/tuckr/dotfiles/Other/x"), &l).unwrap_err(),
        ReturnCode::NoSuchFileOrDir
    );
}

#[test]
fn root_group_targets_filesystem_root() {
    let l = layout();
    let d = Dotfile::resolve(p("/tmp/tuckr/dotfiles/Configs/Root/etc/hosts"), &l).unwrap();
    assert!(d.targets_root(&l));
    assert_eq!(d.to_target_path(&l), p("/etc/hosts"));
}

#[test]
fn map_lists_entries_below() {
    let l = layout();
    let mut fs = FsSnapshot::new();
    fs.insert(p("/tmp/tuckr/dotfiles/Configs/zsh"), EntryKind::Dir);
    fs.insert(p("/tmp/tuckr/dotfiles/Configs/zsh/.zshrc"), EntryKind::File);
    fs.insert(p("/tmp/tuckr/dotfiles/Configs/zsh/.zsh"), EntryKind::Dir);
    fs.insert(p("/tmp/tuckr/dotfiles/Configs/zsh/.zsh/a"), EntryKind::File);
    fs.insert(p("/tmp/tuckr/dotfiles/Configs/vim/.vimrc"), EntryKind::File);
    let group = Dotfile::resolve(p("/tmp/tuckr/dotfiles/Configs/zsh"), &l).unwrap();
    let mut found: Vec<Vec<String>> = group.map(&l, &fs).into_iter().map(|d| d.path).collect();
    found.sort();
    assert_eq!(
        found,
        vec![
            p("/tmp/tuckr/dotfiles/Configs/zsh/.zsh"),
            p("/tmp/tuckr/dotfiles/Configs/zsh/.zsh/a"),
            p("/tmp/tuckr/dotfiles/Configs/zsh/.zshrc"),
        ]
    );
}

#[test]
fn dotfiles_path_needs_directory() {
    let home = p("/home/user");
    let mut fs = FsSnapshot::new();
    assert_eq!(get_dotfiles_path(&home, &fs), Err(ReturnCode::CouldntFindDotfiles));
    fs.insert(p("/home/user/.dotfiles"), EntryKind::Dir);
    assert_eq!(get_dotfiles_path(&home, &fs), Ok(p("/home/user/.dotfiles")));
}

#[test]
fn target_basepath_strips_home() {
    assert_eq!(
        get_target_basepath(&p("/home/user"), &p("/home/user/.config/nvim")),
        p(".config/nvim")
    );
}

#[test]
fn contains_and_invalid_groups() {
    let l = layout();
    let mut fs = FsSnapshot::new();
    fs.insert(p("/tmp/tuckr/dotfiles/Hooks/zsh"), EntryKind::Dir);
    fs.insert(p("/tmp/tuckr/dotfiles/Configs/vim"), EntryKind::Dir);
    assert!(dotfile_contains(DotfileType::Hooks, "zsh", &l, &fs));
    assert!(!dotfile_contains(DotfileType::Configs, "zsh", &l, &fs));
    assert!(dotfile_contains(DotfileType::Configs, "vim", &l, &fs));
    let groups = vec!["zsh".to_string(), "*".to_string(), "vim".to_string(), "git".to_string()];
    assert_eq!(
        check_invalid_groups(DotfileType::Hooks, &groups, &l, &fs),
        Some(vec!["vim".to_string(), "git".to_string()])
    );
    let ok = vec!["zsh".to_string(), "*".to_string()];
    assert_eq!(check_invalid_groups(DotfileType::Hooks, &ok, &l, &fs), None);
}

#[test]
fn return_codes() {
    assert_eq!(ReturnCode::CouldntFindDotfiles.code(), 2);
    assert_eq!(ReturnCode::NoSetupFolder.code(), 3);
    assert_eq!(ReturnCode::NoSuchFileOrDir.code(), 4);
    assert_eq!(ReturnCode::EncryptionFailed.code(), 5);
    assert_eq!(ReturnCode::DecryptionFailed.code(), 6);
    assert_eq!(ReturnCode::CouldntSymlinkFile.code(), 7);
    assert_eq!(ReturnCode::NoSetupFolder.message(), "No Setup Folder");
    assert_eq!(DotfileType::Secrets.dir_name(), "Secrets");
}
