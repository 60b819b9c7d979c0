use branch_picker::model::page_size_for;
use branch_picker::model::viewport_height_for;
use branch_picker::model::App;
use branch_picker::model::InputEvent;
use branch_picker::record::BranchRecord;

fn rec(name: &str, current: bool) -> BranchRecord {
    BranchRecord {
        name: name.to_string(),
        is_current: current,
        has_upstream: true,
        tracking_info: String::new(),
        last_commit_display: String::new(),
        last_commit_epoch: 0,
        pr_number: None,
    }
}

fn three() -> Vec<BranchRecord> {
    vec![rec("a", false), rec("b", false), rec("c", false)]
}

#[test]
fn initial_cursor_prefers_current() {
    let app = App::new(vec![rec("a", false), rec("b", true)], 5);
    assert_eq!(app.cursor(), Some(1));
    let app = App::new(three(), 5);
    assert_eq!(app.cursor(), Some(0));
    let app = App::new(Vec::new(), 5);
    assert_eq!(app.cursor(), None);
}

#[test]
fn next_wraps_and_cycles() {
    let mut app = App::new(three(), 5);
    assert_eq!(app.cursor(), Some(0));
    app.next();
    assert_eq!(app.cursor(), Some(1));
    app.next();
    assert_eq!(app.cursor(), Some(2));
    app.next();
    assert_eq!(app.cursor(), Some(0));
}

#[test]
fn previous_wraps_and_cycles() {
    let mut app = App::new(three(), 5);
    app.previous();
    assert_eq!(app.cursor(), Some(2));
    app.previous();
    assert_eq!(app.cursor(), Some(1));
    app.previous();
    assert_eq!(app.cursor(), Some(0));
}

#[test]
fn moves_are_noops_on_empty_listing() {
    let mut app = App::new(Vec::new(), 5);
    app.next();
    assert_eq!(app.cursor(), None);
    app.previous();
    assert_eq!(app.cursor(), None);
    app.next_page();
    assert_eq!(app.cursor(), None);
    app.prev_page();
    assert_eq!(app.cursor(), None);
}

#[test]
fn page_forward_clamps_without_wrap() {
    let mut app = App::new(three(), 5);
    assert_eq!(app.cursor(), Some(0));
    app.next_page();
    assert_eq!(app.cursor(), Some(2));
    app.next_page();
    assert_eq!(app.cursor(), Some(2));
}

#[test]
fn page_backward_saturates_at_zero() {
    let mut app = App::new(three(), 2);
    app.next();
    app.next();
    assert_eq!(app.cursor(), Some(2));
    app.prev_page();
    assert_eq!(app.cursor(), Some(0));
    app.prev_page();
    assert_eq!(app.cursor(), Some(0));
}

#[test]
fn page_step_uses_page_size() {
    let mut app = App::new(
        vec![
            rec("a", false),
            rec("b", false),
            rec("c", false),
            rec("d", false),
            rec("e", false),
        ],
        2,
    );
    app.next_page();
    assert_eq!(app.cursor(), Some(2));
    app.next_page();
    assert_eq!(app.cursor(), Some(4));
    app.prev_page();
    assert_eq!(app.cursor(), Some(2));
}

#[test]
fn confirm_on_empty_listing_only_quits() {
    let mut app = App::new(Vec::new(), 5);
    app.confirm();
    assert!(app.is_done());
    assert_eq!(app.confirmed_branch(), &None);
}

#[test]
fn confirm_selects_highlighted_branch() {
    let mut app = App::new(three(), 5);
    app.next();
    app.confirm();
    assert!(app.is_done());
    assert_eq!(app.confirmed_branch(), &Some("b".to_string()));
}

#[test]
fn quit_confirms_nothing() {
    let mut app = App::new(three(), 5);
    app.quit();
    assert!(app.is_done());
    assert_eq!(app.confirmed_branch(), &None);
}

#[test]
fn events_dispatch_to_operations() {
    let mut app = App::new(three(), 5);
    app.apply_event(InputEvent::Down);
    assert_eq!(app.cursor(), Some(1));
    app.apply_event(InputEvent::Up);
    assert_eq!(app.cursor(), Some(0));
    app.apply_event(InputEvent::PageDown);
    assert_eq!(app.cursor(), Some(2));
    app.apply_event(InputEvent::PageUp);
    assert_eq!(app.cursor(), Some(0));
    app.apply_event(InputEvent::Other);
    assert_eq!(app.cursor(), Some(0));
    assert!(!app.is_done());
    app.apply_event(InputEvent::Confirm);
    assert!(app.is_done());
    assert_eq!(app.confirmed_branch(), &Some("a".to_string()));

    let mut quitter = App::new(three(), 5);
    quitter.apply_event(InputEvent::Quit);
    assert!(quitter.is_done());
    assert_eq!(quitter.confirmed_branch(), &None);
}

#[test]
fn accessors_expose_state() {
    let app = App::new(three(), 7);
    assert_eq!(app.page_size(), 7);
    assert_eq!(app.branches().len(), 3);
    assert_eq!(app.branches()[1].name, "b");
    assert!(!app.is_done());
}

#[test]
fn viewport_and_page_sizing() {
    assert_eq!(viewport_height_for(0), 3);
    assert_eq!(viewport_height_for(1), 3);
    assert_eq!(viewport_height_for(17), 19);
    assert_eq!(viewport_height_for(18), 20);
    assert_eq!(viewport_height_for(1000), 20);
    assert_eq!(page_size_for(3), 1);
    assert_eq!(page_size_for(20), 18);
    assert_eq!(page_size_for(2), 1);
    assert_eq!(page_size_for(0), 1);
}
