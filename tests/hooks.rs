use tuckr::hooks::{choose_groups, hook_flags, hook_runs_at, DeployStages, DeployStep};

#[test]
fn run_deploy_steps() {
    let mut steps = DeployStages::new();
    assert!(steps.0 == DeployStep::Initialize);
    steps.next();
    assert!(steps.0 == DeployStep::PreHook);
    steps.next();
    assert!(steps.0 == DeployStep::Symlink);
    steps.next();
    assert!(steps.0 == DeployStep::PostHook);
}

#[test]
fn stages_end_after_post_hook() {
    let mut steps = DeployStages::new();
    assert_eq!(steps.next(), Some(DeployStep::PreHook));
    assert_eq!(steps.next(), Some(DeployStep::Symlink));
    assert_eq!(steps.next(), Some(DeployStep::PostHook));
    assert_eq!(steps.next(), None);
    assert_eq!(steps.0, DeployStep::PostHook);
}

#[test]
fn hook_scripts_by_prefix() {
    assert!(hook_runs_at("pre_setup.sh", DeployStep::PreHook));
    assert!(!hook_runs_at("post_setup.sh", DeployStep::PreHook));
    assert!(hook_runs_at("post_setup.sh", DeployStep::PostHook));
    assert!(!hook_runs_at("setup.sh", DeployStep::PostHook));
    assert!(!hook_runs_at("pre.sh", DeployStep::Symlink));
    let names = vec!["pre.sh".to_string(), "other".to_string()];
    assert_eq!(hook_flags(&names), (true, false));
    let names = vec!["postinstall".to_string(), "preinstall".to_string()];
    assert_eq!(hook_flags(&names), (true, true));
    assert_eq!(hook_flags(&Vec::new()), (false, false));
}

fn strs(v: &[&str]) -> Vec<String> {
    v.iter().map(|s| s.to_string()).collect()
}

#[test]
fn hook_groups_by_name_or_wildcard() {
    let available = strs(&["zsh", "git", "vim"]);
    assert_eq!(choose_groups(&strs(&["vim", "zsh"]), &available, &strs(&["zsh"])), strs(&["vim"]));
    assert_eq!(choose_groups(&strs(&["git", "*"]), &available, &strs(&["git"])), strs(&["zsh", "vim"]));
    assert!(choose_groups(&Vec::new(), &available, &Vec::new()).is_empty());
}
