use tuckr::dotfiles::Layout;
use tuckr::fileops::{group_holding, push_destination, stow_dir_moves};
use tuckr::snapshot::{EntryKind, FsSnapshot};

fn p(s: &str) -> Vec<String> {
    s.split('/').filter(|c| !c.is_empty()).map(String::from).collect()
}

fn layout() -> Layout {
    Layout { dotfiles_dir: p("/tmp/tuckr/dotfiles"), home_dir: p("/home/user") }
}

#[test]
fn stow_conversion_moves_plain_directories() {
    assert!(stow_dir_moves("zsh"));
    assert!(!stow_dir_moves(".git"));
    assert!(!stow_dir_moves("Configs"));
    assert!(!stow_dir_moves("Hooks"));
    assert!(!stow_dir_moves("Secrets"));
}

#[test]
fn pushed_file_lands_in_group() {
    assert_eq!(
        push_destination(&layout(), "nvim", &p("/home/user/.config/nvim/init.lua")),
        p("/tmp/tuckr/dotfiles/Configs/nvim/.config/nvim/init.lua")
    );
}

#[test]
fn group_holding_finds_first_group() {
    let l = layout();
    let mut fs = FsSnapshot::new();
    fs.insert(p("/tmp/tuckr/dotfiles/Configs/b/.zshrc"), EntryKind::File);
    fs.insert(p("/tmp/tuckr/dotfiles/Configs/c/.zshrc"), EntryKind::File);
    let groups = vec!["a".to_string(), "b".to_string(), "c".to_string()];
    assert_eq!(group_holding(&l, &groups, &p(".zshrc"), &fs), Some("b".to_string()));
    assert_eq!(group_holding(&l, &groups, &p(".bashrc"), &fs), None);
}
