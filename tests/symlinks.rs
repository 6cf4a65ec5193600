use tuckr::dotfiles::{Layout, Platform, ReturnCode};
use tuckr::snapshot::{EntryKind, FsSnapshot};
use tuckr::symlinks::{add_cmd, foreach_program, read_answer, remove_cmd, Answer, Status, SymlinkHandler};

const CFG: &str = "/tmp/tuckr/dotfiles/Configs";

fn p(s: &str) -> Vec<String> {
    s.split('/').filter(|c| !c.is_empty()).map(String::from).collect()
}

fn cfg(rest: &str) -> Vec<String> {
    p(&format!("{CFG}/{rest}"))
}

fn home(rest: &str) -> Vec<String> {
    p(&format!("/home/user/{rest}"))
}

fn layout() -> Layout {
    Layout { dotfiles_dir: p("/tmp/tuckr/dotfiles"), home_dir: p("/home/user") }
}

fn linux() -> Platform {
    Platform { os: "linux".to_string(), family: "unix".to_string() }
}

fn names(v: &[String]) -> Vec<String> {
    v.to_vec()
}

fn strs(v: &[&str]) -> Vec<String> {
    v.iter().map(|s| s.to_string()).collect()
}

fn paths(v: &[tuckr::dotfiles::Dotfile]) -> Vec<Vec<String>> {
    let mut out: Vec<Vec<String>> = v.iter().map(|d| d.path.clone()).collect();
    out.sort();
    out
}

/// A managed tree with one group, `program`, holding `program.test` and
/// `.config/program.test`; the home directory already has a `.config`.
fn init_symlink_test() -> (SymlinkHandler, FsSnapshot) {
    let mut fs = FsSnapshot::new();
    fs.insert(p(CFG), EntryKind::Dir);
    fs.insert(cfg("program"), EntryKind::Dir);
    fs.insert(cfg("program/program.test"), EntryKind::File);
    fs.insert(cfg("program/.config"), EntryKind::Dir);
    fs.insert(cfg("program/.config/program.test"), EntryKind::File);
    fs.insert(home(".config"), EntryKind::Dir);
    let sym = SymlinkHandler::new(layout(), &fs).unwrap();
    (sym, fs)
}

#[test]
fn new_symlink_handler() {
    let (sym, _) = init_symlink_test();
    assert!(if !sym.symlinked.is_empty() || !sym.not_symlinked.is_empty() { true } else { false });
}

#[test]
fn add_symlink() {
    let (sym, mut fs) = init_symlink_test();
    sym.add("program", false, &mut fs).unwrap();
    let file = cfg("program/program.test");
    let config_file = cfg("program/.config/program.test");
    assert_eq!(fs.lookup(&home("program.test")), Some(&EntryKind::Symlink(file)));
    assert_eq!(fs.lookup(&home(".config/program.test")), Some(&EntryKind::Symlink(config_file)));
}

#[test]
fn remove_symlink() {
    let (sym, mut fs) = init_symlink_test();
    sym.add("program", false, &mut fs).unwrap();
    sym.remove("program", &mut fs).unwrap();
    let file = cfg("program/program.test");
    let config_file = cfg("program/.config/program.test");
    assert!(match fs.lookup(&home("program.test")) {
        Some(EntryKind::Symlink(link)) => *link != file,
        _ => true,
    });
    assert!(match fs.lookup(&home(".config/program.test")) {
        Some(EntryKind::Symlink(link)) => *link != config_file,
        _ => true,
    });
}

#[test]
fn missing_configs_is_an_error() {
    let fs = FsSnapshot::new();
    assert_eq!(SymlinkHandler::new(layout(), &fs).unwrap_err(), ReturnCode::NoSetupFolder);
    let mut fs = FsSnapshot::new();
    fs.insert(p(CFG), EntryKind::File);
    assert_eq!(SymlinkHandler::new(layout(), &fs).unwrap_err(), ReturnCode::NoSetupFolder);
}

#[test]
fn classification_three_states() {
    let mut fs = FsSnapshot::new();
    fs.insert(p(CFG), EntryKind::Dir);
    fs.insert(cfg("g"), EntryKind::Dir);
    fs.insert(cfg("g/linked"), EntryKind::File);
    fs.insert(cfg("g/pending"), EntryKind::File);
    fs.insert(cfg("g/blocked"), EntryKind::File);
    fs.insert(cfg("g/plain"), EntryKind::File);
    fs.insert(home("linked"), EntryKind::Symlink(cfg("g/linked")));
    fs.insert(home("blocked"), EntryKind::Symlink(p("/elsewhere/blocked")));
    fs.insert(home("plain"), EntryKind::File);
    let sym = SymlinkHandler::new(layout(), &fs).unwrap();
    assert_eq!(paths(&sym.symlinked), vec![cfg("g/linked")]);
    assert_eq!(paths(&sym.not_symlinked), vec![cfg("g/pending"), cfg("g/plain")]);
    assert_eq!(paths(&sym.not_owned), vec![cfg("g/blocked")]);
    assert_eq!(sym.not_owned[0].group_name, "g");
    assert_eq!(sym.not_owned[0].group_path, cfg("g"));
    assert_eq!(sym.conflicts(), vec![home("blocked")]);
}

#[test]
fn existing_home_directory_is_descended() {
    let mut fs = FsSnapshot::new();
    fs.insert(p(CFG), EntryKind::Dir);
    fs.insert(cfg("g"), EntryKind::Dir);
    fs.insert(cfg("g/.config"), EntryKind::Dir);
    fs.insert(cfg("g/.config/a"), EntryKind::File);
    fs.insert(cfg("g/.config/b"), EntryKind::File);
    fs.insert(home(".config"), EntryKind::Dir);
    let sym = SymlinkHandler::new(layout(), &fs).unwrap();
    assert_eq!(paths(&sym.not_symlinked), vec![cfg("g/.config/a"), cfg("g/.config/b")]);
}

#[test]
fn missing_directory_target_collapses_to_one_entry() {
    let mut fs = FsSnapshot::new();
    fs.insert(p(CFG), EntryKind::Dir);
    fs.insert(cfg("g"), EntryKind::Dir);
    fs.insert(cfg("g/a"), EntryKind::Dir);
    fs.insert(cfg("g/a/x"), EntryKind::File);
    fs.insert(cfg("g/a/y"), EntryKind::File);
    fs.insert(cfg("g/b"), EntryKind::File);
    let sym = SymlinkHandler::new(layout(), &fs).unwrap();
    assert_eq!(paths(&sym.not_symlinked), vec![cfg("g/a"), cfg("g/b")]);
}

#[test]
fn shallow_collapse_reports_linked_directory_once() {
    let mut fs = FsSnapshot::new();
    fs.insert(p(CFG), EntryKind::Dir);
    fs.insert(cfg("g"), EntryKind::Dir);
    fs.insert(cfg("g/a"), EntryKind::Dir);
    fs.insert(cfg("g/a/x"), EntryKind::File);
    fs.insert(cfg("g/a/y"), EntryKind::File);
    fs.insert(cfg("g/b"), EntryKind::File);
    let sym = SymlinkHandler::new(layout(), &fs).unwrap();
    let out = sym.add("g", false, &mut fs).unwrap();
    assert_eq!(out.len(), 2);
    assert_eq!(fs.lookup(&home("a")), Some(&EntryKind::Symlink(cfg("g/a"))));
    // Seen through the new link, the files below `a` are plain files.
    fs.insert(home("a/x"), EntryKind::File);
    fs.insert(home("a/y"), EntryKind::File);
    let sym = SymlinkHandler::new(layout(), &fs).unwrap();
    assert_eq!(paths(&sym.symlinked), vec![cfg("g/a"), cfg("g/b")]);
    assert!(sym.not_symlinked.is_empty());
    assert!(sym.not_owned.is_empty());
}

#[test]
fn cross_cancellation_hides_new_file_under_linked_directory() {
    let mut fs = FsSnapshot::new();
    fs.insert(p(CFG), EntryKind::Dir);
    fs.insert(cfg("g"), EntryKind::Dir);
    fs.insert(cfg("g/a"), EntryKind::Dir);
    fs.insert(cfg("g/a/x"), EntryKind::File);
    fs.insert(home("a"), EntryKind::Symlink(cfg("g/a")));
    fs.insert(home("a/x"), EntryKind::File);
    fs.insert(cfg("g/a/z"), EntryKind::File);
    let sym = SymlinkHandler::new(layout(), &fs).unwrap();
    assert_eq!(paths(&sym.symlinked), vec![cfg("g/a")]);
    assert!(sym.not_symlinked.is_empty());
}

#[test]
fn link_twice_reports_already_exists() {
    let (sym, mut fs) = init_symlink_test();
    let first = sym.add("program", false, &mut fs).unwrap();
    assert!(first.iter().all(|o| o.status == Status::Created));
    assert_eq!(first.len(), 2);
    let after_first = fs.clone();
    let second = sym.add("program", false, &mut fs).unwrap();
    assert_eq!(second.len(), 2);
    assert!(second.iter().all(|o| o.status == Status::AlreadyExists));
    assert_eq!(fs, after_first);
}

#[test]
fn link_then_unlink_round_trip() {
    let (sym, mut fs) = init_symlink_test();
    let before = fs.clone();
    sym.add("program", false, &mut fs).unwrap();
    let linked = SymlinkHandler::new(layout(), &fs).unwrap();
    assert!(linked.not_symlinked.is_empty());
    let out = linked.remove("program", &mut fs).unwrap();
    assert!(out.iter().all(|o| o.status == Status::Removed));
    assert_eq!(fs, before);
    let again = SymlinkHandler::new(layout(), &fs).unwrap();
    assert_eq!(paths(&again.not_symlinked), paths(&sym.not_symlinked));
}

#[test]
fn unlink_leaves_foreign_targets() {
    let (sym, mut fs) = init_symlink_test();
    sym.add("program", false, &mut fs).unwrap();
    let linked = SymlinkHandler::new(layout(), &fs).unwrap();
    // Another tool repoints one target after the classification was made.
    fs.insert(home("program.test"), EntryKind::Symlink(p("/opt/other/program.test")));
    let out = linked.remove("program", &mut fs).unwrap();
    assert!(out.iter().all(|o| o.target != home("program.test")));
    assert!(out.iter().all(|o| o.status == Status::Removed));
    assert_eq!(
        fs.lookup(&home("program.test")),
        Some(&EntryKind::Symlink(p("/opt/other/program.test")))
    );
    assert_eq!(fs.lookup(&home(".config/program.test")), None);
}

#[test]
fn force_overrides_conflicts() {
    let mut fs = FsSnapshot::new();
    fs.insert(p(CFG), EntryKind::Dir);
    fs.insert(cfg("g"), EntryKind::Dir);
    fs.insert(cfg("g/f"), EntryKind::File);
    fs.insert(cfg("g/h"), EntryKind::File);
    fs.insert(home("f"), EntryKind::File);
    fs.insert(home("h"), EntryKind::Symlink(p("/elsewhere/h")));
    let sym = SymlinkHandler::new(layout(), &fs).unwrap();
    let mut plain = fs.clone();
    let kept = sym.add("g", false, &mut plain).unwrap();
    assert_eq!(kept.len(), 2);
    assert!(kept.iter().all(|o| o.status == Status::AlreadyExists));
    assert_eq!(plain, fs);
    let forced = sym.add("g", true, &mut fs).unwrap();
    assert_eq!(forced.len(), 2);
    assert!(forced.iter().all(|o| o.status == Status::Replaced));
    assert_eq!(fs.lookup(&home("f")), Some(&EntryKind::Symlink(cfg("g/f"))));
    assert_eq!(fs.lookup(&home("h")), Some(&EntryKind::Symlink(cfg("g/h"))));
}

fn conditional_tree() -> FsSnapshot {
    let mut fs = FsSnapshot::new();
    fs.insert(p(CFG), EntryKind::Dir);
    for g in ["shell", "shell_linux", "shell_windows", "git"] {
        fs.insert(cfg(g), EntryKind::Dir);
        fs.insert(cfg(&format!("{g}/.{g}rc")), EntryKind::File);
    }
    fs
}

#[test]
fn related_groups_fold_platform_variants() {
    let fs = conditional_tree();
    let sym = SymlinkHandler::new(layout(), &fs).unwrap();
    assert_eq!(sym.related_groups("shell", false, &linux()), Some(strs(&["shell_linux", "shell"])));
    assert_eq!(sym.related_groups("git", false, &linux()), Some(strs(&["git"])));
    assert_eq!(sym.related_groups("vim", false, &linux()), None);
    assert_eq!(sym.related_groups("shell", true, &linux()), None);
    let windows = Platform { os: "windows".to_string(), family: "windows".to_string() };
    assert_eq!(sym.related_groups("shell", false, &windows), Some(strs(&["shell_windows", "shell"])));
}

#[test]
fn wildcard_and_exclude_select_groups() {
    let fs = conditional_tree();
    let sym = SymlinkHandler::new(layout(), &fs).unwrap();
    let mut all = foreach_program(&sym, &strs(&["*"]), &strs(&["git"]), false, false);
    all.sort();
    assert_eq!(all, strs(&["shell", "shell_linux", "shell_windows"]));
    assert_eq!(
        foreach_program(&sym, &strs(&["git", "shell", "vim"]), &strs(&["shell"]), false, false),
        strs(&["git", "vim"])
    );
    assert!(foreach_program(&sym, &strs(&["*"]), &Vec::new(), true, false).is_empty());
    assert_eq!(names(&strs(&["a"])), strs(&["a"]));
}

#[test]
fn add_cmd_links_variants_and_reports_missing() {
    let mut fs = conditional_tree();
    let sym = SymlinkHandler::new(layout(), &fs).unwrap();
    let report = add_cmd(&sym, &strs(&["shell", "vim", "shell_windows"]), &Vec::new(), false, &linux(), &mut fs);
    let groups: Vec<String> = report.groups.iter().map(|g| g.group.clone()).collect();
    assert_eq!(groups, strs(&["shell_linux", "shell"]));
    assert_eq!(report.missing, strs(&["vim"]));
    assert_eq!(fs.lookup(&home(".shellrc")), Some(&EntryKind::Symlink(cfg("shell/.shellrc"))));
    assert_eq!(
        fs.lookup(&home(".shell_linuxrc")),
        Some(&EntryKind::Symlink(cfg("shell_linux/.shell_linuxrc")))
    );
    assert_eq!(fs.lookup(&home(".shell_windowsrc")), None);
    assert_eq!(fs.lookup(&home(".gitrc")), None);

    let sym = SymlinkHandler::new(layout(), &fs).unwrap();
    let report = remove_cmd(&sym, &strs(&["*"]), &Vec::new(), &linux(), &mut fs);
    assert!(report.missing.is_empty());
    assert_eq!(fs.lookup(&home(".shellrc")), None);
    assert_eq!(fs.lookup(&home(".shell_linuxrc")), None);
}

#[test]
fn status_rows_pair_groups() {
    let mut fs = conditional_tree();
    fs.insert(home(".gitrc"), EntryKind::Symlink(cfg("git/.gitrc")));
    let sym = SymlinkHandler::new(layout(), &fs).unwrap();
    let rows = sym.status_rows();
    assert_eq!(rows.len(), 3);
    assert_eq!(rows[0].symlinked.as_deref(), Some("git"));
    assert_eq!(rows[1].symlinked, None);
    let mut pending: Vec<String> = rows.iter().filter_map(|r| r.not_symlinked.clone()).collect();
    pending.sort();
    assert_eq!(pending, strs(&["shell", "shell_linux", "shell_windows"]));
}

fn foreign_only_tree() -> FsSnapshot {
    let mut fs = FsSnapshot::new();
    fs.insert(p(CFG), EntryKind::Dir);
    fs.insert(cfg("g"), EntryKind::Dir);
    fs.insert(cfg("g/f"), EntryKind::File);
    fs.insert(home("f"), EntryKind::Symlink(p("/elsewhere/f")));
    fs
}

#[test]
fn force_links_group_with_only_foreign_entries() {
    let mut fs = foreign_only_tree();
    let sym = SymlinkHandler::new(layout(), &fs).unwrap();
    assert!(sym.not_symlinked.is_empty());
    let report = add_cmd(&sym, &strs(&["g"]), &Vec::new(), true, &linux(), &mut fs);
    assert!(report.missing.is_empty());
    assert_eq!(report.groups.len(), 1);
    assert_eq!(report.groups[0].files.as_ref().unwrap()[0].status, Status::Replaced);
    assert_eq!(fs.lookup(&home("f")), Some(&EntryKind::Symlink(cfg("g/f"))));

    let mut fs = foreign_only_tree();
    let report = add_cmd(&sym, &strs(&["*"]), &Vec::new(), true, &linux(), &mut fs);
    assert_eq!(report.groups.len(), 1);
    assert_eq!(fs.lookup(&home("f")), Some(&EntryKind::Symlink(cfg("g/f"))));
}

#[test]
fn without_force_foreign_group_is_reported_not_missing() {
    let mut fs = foreign_only_tree();
    let before = fs.clone();
    let sym = SymlinkHandler::new(layout(), &fs).unwrap();
    let report = add_cmd(&sym, &strs(&["g"]), &Vec::new(), false, &linux(), &mut fs);
    assert!(report.missing.is_empty());
    assert_eq!(report.groups[0].files.as_ref().unwrap()[0].status, Status::AlreadyExists);
    assert_eq!(fs, before);
    let report = add_cmd(&sym, &strs(&["*"]), &Vec::new(), false, &linux(), &mut fs);
    assert!(report.groups.is_empty());
}

#[test]
fn linking_twice_through_the_command_reports_every_file() {
    let (sym, mut fs) = init_symlink_test();
    add_cmd(&sym, &strs(&["program"]), &Vec::new(), false, &linux(), &mut fs);
    let after_first = fs.clone();
    let sym = SymlinkHandler::new(layout(), &fs).unwrap();
    let report = add_cmd(&sym, &strs(&["program"]), &Vec::new(), false, &linux(), &mut fs);
    assert!(report.missing.is_empty());
    assert_eq!(report.groups.len(), 1);
    assert_eq!(report.groups[0].files.as_ref().unwrap().len(), 2);
    assert!(report.groups[0].files.as_ref().unwrap().iter().all(|o| o.status == Status::AlreadyExists));
    assert_eq!(fs, after_first);
    let forced = add_cmd(&sym, &strs(&["program"]), &Vec::new(), true, &linux(), &mut fs);
    assert!(forced.groups[0].files.as_ref().unwrap().iter().all(|o| o.status == Status::AlreadyExists));
    assert_eq!(fs, after_first);
}

#[test]
fn excluded_variant_is_left_alone() {
    let mut fs = conditional_tree();
    let sym = SymlinkHandler::new(layout(), &fs).unwrap();
    let report = add_cmd(&sym, &strs(&["*"]), &strs(&["shell_linux"]), false, &linux(), &mut fs);
    let groups: Vec<String> = report.groups.iter().map(|g| g.group.clone()).collect();
    assert!(!groups.contains(&"shell_linux".to_string()));
    assert_eq!(fs.lookup(&home(".shell_linuxrc")), None);
    assert_eq!(fs.lookup(&home(".shellrc")), Some(&EntryKind::Symlink(cfg("shell/.shellrc"))));
}

#[test]
fn wildcard_works_on_each_group_once() {
    let mut fs = conditional_tree();
    let sym = SymlinkHandler::new(layout(), &fs).unwrap();
    let report = add_cmd(&sym, &strs(&["*"]), &Vec::new(), false, &linux(), &mut fs);
    let mut groups: Vec<String> = report.groups.iter().map(|g| g.group.clone()).collect();
    groups.sort();
    assert_eq!(groups, strs(&["git", "shell", "shell_linux"]));
    assert!(report
        .groups
        .iter()
        .all(|g| g.files.as_ref().unwrap().iter().all(|o| o.status == Status::Created)));
}

#[test]
fn remove_cmd_skips_excluded_variant_and_reports_unknown() {
    let mut fs = conditional_tree();
    let sym = SymlinkHandler::new(layout(), &fs).unwrap();
    add_cmd(&sym, &strs(&["shell"]), &Vec::new(), false, &linux(), &mut fs);
    let sym = SymlinkHandler::new(layout(), &fs).unwrap();
    let report = remove_cmd(&sym, &strs(&["shell", "nope"]), &strs(&["shell_linux"]), &linux(), &mut fs);
    assert_eq!(report.missing, strs(&["nope"]));
    assert_eq!(fs.lookup(&home(".shellrc")), None);
    assert_eq!(
        fs.lookup(&home(".shell_linuxrc")),
        Some(&EntryKind::Symlink(cfg("shell_linux/.shell_linuxrc")))
    );
}

#[test]
fn confirmation_answers() {
    assert_eq!(read_answer("y\n"), Answer::Yes);
    assert_eq!(read_answer("  YeS \t\n"), Answer::Yes);
    assert_eq!(read_answer("Y"), Answer::Yes);
    assert_eq!(read_answer("no\n"), Answer::No);
    assert_eq!(read_answer("N"), Answer::No);
    assert_eq!(read_answer("\u{3000}n\u{a0}"), Answer::No);
    assert_eq!(read_answer(""), Answer::Unclear);
    assert_eq!(read_answer("yess"), Answer::Unclear);
    assert_eq!(read_answer("y es"), Answer::Unclear);
    assert_eq!(read_answer("maybe\n"), Answer::Unclear);
}

#[test]
fn unknown_group_is_an_error() {
    let (sym, mut fs) = init_symlink_test();
    let before = fs.clone();
    assert_eq!(sym.add("nope", false, &mut fs), Err(ReturnCode::NoSuchFileOrDir));
    assert_eq!(sym.remove("nope", &mut fs), Err(ReturnCode::NoSuchFileOrDir));
    assert_eq!(fs, before);
}

#[test]
fn remove_finds_links_made_after_classification() {
    let mut fs = conditional_tree();
    let sym = SymlinkHandler::new(layout(), &fs).unwrap();
    let before = fs.clone();
    sym.add("git", false, &mut fs).unwrap();
    assert_eq!(fs.lookup(&home(".gitrc")), Some(&EntryKind::Symlink(cfg("git/.gitrc"))));
    let out = sym.remove("git", &mut fs).unwrap();
    assert_eq!(out.len(), 1);
    assert_eq!(out[0].status, Status::Removed);
    assert_eq!(out[0].target, home(".gitrc"));
    assert_eq!(fs, before);
}
