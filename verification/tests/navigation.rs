use browrs::entry::ChildInfo;
use browrs::nav::{Action, App, Command, Mode};
use browrs::preview::{PathProbe, PreviewResult};
use browrs::scroll::compute_scroll;

fn child(name: &str, is_dir: bool) -> ChildInfo {
    ChildInfo { name: String::from(name), is_dir }
}

fn dir(parts: &[&str]) -> Vec<String> {
    parts.iter().map(|p| String::from(*p)).collect()
}

#[test]
fn scroll_hysteresis_moves_at_seven() {
    let mut offset: usize = 0;
    for selected in 0..=6 {
        offset = compute_scroll(selected, 100, 10, offset);
        assert_eq!(offset, 0);
    }
    offset = compute_scroll(7, 100, 10, offset);
    assert_eq!(offset, 1);
}

#[test]
fn scroll_zero_height_is_unchanged() {
    assert_eq!(compute_scroll(5, 100, 0, 3), 3);
}

#[test]
fn scroll_clamps_at_bottom() {
    assert_eq!(compute_scroll(99, 100, 10, 89), 90);
    assert_eq!(compute_scroll(99, 100, 10, 90), 90);
}

#[test]
fn scroll_top_edge_backs_off_by_margin() {
    assert_eq!(compute_scroll(5, 100, 10, 5), 2);
    assert_eq!(compute_scroll(2, 100, 10, 5), 0);
}

#[test]
fn scroll_short_list_never_scrolls() {
    assert_eq!(compute_scroll(3, 5, 10, 0), 0);
}

#[test]
fn quit_terminates_and_freezes() {
    let mut app = App::new(dir(&["home"]), vec![child("a", false), child("b", false)]);
    let act = app.handle_command(Command::Quit);
    assert!(matches!(act, Action::Ignored));
    assert_eq!(app.mode, Mode::Terminated);
    let act = app.handle_command(Command::MoveDown);
    assert!(matches!(act, Action::Ignored));
    assert_eq!(app.selected, 0);
    let act = app.handle_command(Command::Activate);
    assert!(matches!(act, Action::Ignored));
    assert_eq!(app.mode, Mode::Terminated);
}

#[test]
fn moves_clamp_at_both_ends() {
    let mut app = App::new(dir(&[]), vec![child("a", false), child("b", false)]);
    assert!(matches!(app.handle_command(Command::MoveUp), Action::Ignored));
    assert_eq!(app.selected, 0);
    assert!(matches!(app.handle_command(Command::MoveDown), Action::Redraw));
    assert!(matches!(app.handle_command(Command::MoveDown), Action::Redraw));
    assert_eq!(app.selected, 2);
    assert!(matches!(app.handle_command(Command::MoveDown), Action::Ignored));
    assert_eq!(app.selected, 2);
    assert!(matches!(app.handle_command(Command::MoveUp), Action::Redraw));
    assert_eq!(app.selected, 1);
}

#[test]
fn activating_parent_proposes_the_parent() {
    let mut app = App::new(dir(&["home", "user"]), vec![child("a", false)]);
    let act = app.handle_command(Command::Activate);
    match act {
        Action::Relist { dir } => assert_eq!(dir, vec!["home"]),
        other => panic!("expected a relist action, got {:?}", other),
    }
    // the switch is not committed until the listing succeeds
    assert_eq!(app.current_dir, vec!["home", "user"]);
    app.apply_listing(dir(&["home"]), Some(vec![child("user", true)]));
    assert_eq!(app.current_dir, vec!["home"]);
    assert_eq!(app.selected, 0);
}

#[test]
fn activating_parent_at_root_is_a_no_op() {
    let mut app = App::new(dir(&[]), vec![]);
    let act = app.handle_command(Command::Activate);
    assert!(matches!(act, Action::Ignored));
    assert!(app.current_dir.is_empty());
    assert_eq!(app.selected, 0);
}

#[test]
fn activating_directory_descends() {
    let mut app = App::new(dir(&["home"]), vec![child("docs", true)]);
    app.handle_command(Command::MoveDown);
    assert_eq!(app.entries[1].name, "docs/");
    let act = app.handle_command(Command::Activate);
    match act {
        Action::Relist { dir: target } => {
            assert_eq!(target, vec!["home", "docs"]);
            assert_eq!(app.current_dir, vec!["home"]);
            app.apply_listing(target, Some(vec![]));
        }
        other => panic!("expected a relist action, got {:?}", other),
    }
    assert_eq!(app.current_dir, vec!["home", "docs"]);
}

#[test]
fn failed_switch_is_rejected_silently() {
    let mut app = App::new(dir(&["home"]), vec![child("docs", true), child("z", false)]);
    app.handle_command(Command::MoveDown);
    let act = app.handle_command(Command::Activate);
    match act {
        Action::Relist { dir: target } => app.apply_listing(target, None),
        other => panic!("expected a relist action, got {:?}", other),
    }
    // the unreadable directory was never entered: everything is unchanged
    assert_eq!(app.current_dir, vec!["home"]);
    assert_eq!(app.entries.len(), 3);
    assert_eq!(app.selected, 1);
}

#[test]
fn activating_file_suspends_for_the_editor() {
    let mut app = App::new(dir(&["home"]), vec![child("notes.txt", false)]);
    app.handle_command(Command::MoveDown);
    let act = app.handle_command(Command::Activate);
    match act {
        Action::OpenFile { name } => assert_eq!(name, "notes.txt"),
        other => panic!("expected an open-file action, got {:?}", other),
    }
    assert_eq!(app.mode, Mode::Suspended);
    assert!(matches!(app.handle_command(Command::Quit), Action::Ignored));
    assert_eq!(app.mode, Mode::Suspended);
    app.editor_returned();
    assert_eq!(app.mode, Mode::Browsing);
}

#[test]
fn failed_listing_keeps_prior_state() {
    let mut app = App::new(dir(&["home"]), vec![child("a", false), child("b", false)]);
    app.handle_command(Command::MoveDown);
    app.apply_listing(dir(&["elsewhere"]), None);
    assert_eq!(app.selected, 1);
    assert_eq!(app.entries.len(), 3);
    assert_eq!(app.current_dir, vec!["home"]);
}

#[test]
fn successful_listing_resets_selection() {
    let mut app = App::new(dir(&["home"]), vec![child("a", false), child("b", false)]);
    app.handle_command(Command::MoveDown);
    app.scroll = 4;
    app.apply_listing(dir(&["home", "a"]), Some(vec![child("z", false)]));
    assert_eq!(app.current_dir, vec!["home", "a"]);
    assert_eq!(app.selected, 0);
    assert_eq!(app.scroll, 0);
    assert_eq!(app.entries.len(), 2);
    assert_eq!(app.entries[1].name, "z");
}

#[test]
fn update_scroll_with_height_stores_the_offset() {
    let mut children = Vec::new();
    for i in 0..99 {
        children.push(child(&format!("f{:02}", i), false));
    }
    let mut app = App::new(dir(&[]), children);
    app.selected = 7;
    app.update_scroll_with_height(10);
    assert_eq!(app.scroll, 1);
    app.update_scroll();
    assert_eq!(app.scroll, 1);
}

#[test]
fn update_preview_stores_the_result() {
    let mut app = App::new(dir(&["home"]), vec![child("a", false)]);
    app.update_preview(PathProbe::Missing);
    assert!(matches!(app.preview, Some(PreviewResult::ParentHint)));
    app.handle_command(Command::MoveDown);
    app.update_preview(PathProbe::File {
        size: Some(3),
        content: Some(Ok(b"hi\n".to_vec())),
    });
    match &app.preview {
        Some(PreviewResult::TextPreview { shown_lines, .. }) => {
            assert_eq!(shown_lines, &vec!["hi"]);
        }
        other => panic!("expected a text preview, got {:?}", other),
    }
}
