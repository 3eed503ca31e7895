use leafish_screen::screen::{Action, Screen};
use leafish_screen::system::ScreenSystem;

fn plain() -> Screen {
    Screen { closable: false, in_game: false, tick_always: false }
}

fn closable() -> Screen {
    Screen { closable: true, in_game: false, tick_always: false }
}

fn in_game() -> Screen {
    Screen { closable: false, in_game: true, tick_always: false }
}

fn background() -> Screen {
    Screen { closable: false, in_game: false, tick_always: true }
}

#[test]
fn tick_on_empty_system_pauses_and_is_silent() {
    let mut sys = ScreenSystem::new();
    let (paused, log) = sys.tick(800, 600);
    assert!(paused);
    assert_eq!(log, vec![]);
    assert_eq!(sys.committed_len(), 0);
}

#[test]
fn scenario_login_commit() {
    // Empty stack, add a login screen, commit.
    let mut sys = ScreenSystem::new();
    let login = sys.add_screen(plain());
    let (paused, log) = sys.tick(800, 600);
    assert_eq!(
        log,
        vec![
            Action::Init(login),
            Action::OnActive(login),
            Action::RecenterCursor,
            Action::Tick(login),
        ]
    );
    assert!(paused);
    assert_eq!(sys.committed_len(), 1);
    assert!(sys.entry_initialized(login));
    assert!(sys.entry_active(login));
}

#[test]
fn scenario_push_server_list_over_login() {
    let mut sys = ScreenSystem::new();
    let login = sys.add_screen(plain());
    sys.tick(800, 600);
    let server_list = sys.add_screen(plain());
    let (_, log) = sys.tick(800, 600);
    assert_eq!(
        log,
        vec![
            Action::OnDeactive(login),
            Action::Init(server_list),
            Action::OnActive(server_list),
            Action::RecenterCursor,
            Action::Tick(server_list),
        ]
    );
    assert_eq!(sys.committed_len(), 2);
    assert_eq!(sys.committed_at(0), login);
    assert_eq!(sys.committed_at(1), server_list);
    assert!(sys.entry_initialized(login) && !sys.entry_active(login));
    assert!(sys.entry_initialized(server_list) && sys.entry_active(server_list));
}

#[test]
fn scenario_pop_reactivates_screen_below() {
    let mut sys = ScreenSystem::new();
    let login = sys.add_screen(plain());
    sys.tick(800, 600);
    let server_list = sys.add_screen(plain());
    sys.tick(800, 600);
    sys.pop_screen();
    let (_, log) = sys.tick(800, 600);
    assert_eq!(
        log,
        vec![
            Action::OnDeactive(server_list),
            Action::Deinit(server_list),
            Action::RecenterCursor,
            Action::OnActive(login),
            Action::Tick(login),
        ]
    );
    assert_eq!(sys.committed_len(), 1);
    assert_eq!(sys.committed_at(0), login);
    assert!(sys.entry_active(login));
}

#[test]
fn scenario_tick_always_background_under_modal() {
    let mut sys = ScreenSystem::new();
    let back = sys.add_screen(background());
    let modal = sys.add_screen(closable());
    let (_, log) = sys.tick(800, 600);
    // No cursor recentre: the committed top is closable.
    assert_eq!(
        log,
        vec![
            Action::Init(back),
            Action::OnActive(back),
            Action::OnDeactive(back),
            Action::Init(modal),
            Action::OnActive(modal),
            Action::Tick(back),
            Action::Tick(modal),
        ]
    );
    // A viewport change reaches both, exactly once each; the background
    // keeps ticking although the modal is on top.
    let (_, log) = sys.tick(1024, 768);
    assert_eq!(
        log,
        vec![
            Action::OnResize(back),
            Action::OnResize(modal),
            Action::Tick(back),
            Action::Tick(modal),
        ]
    );
    // Scroll, key and character events go only to the modal.
    assert_eq!(sys.on_scroll(), Some(modal));
    assert_eq!(sys.receive_char(), Some(modal));
    let (target, _) = sys.press_key(false, false);
    assert_eq!(target, Some(modal));
}

#[test]
fn resize_is_recorded_without_calls_on_first_observation() {
    let mut sys = ScreenSystem::new();
    let only = sys.add_screen(plain());
    let (_, log) = sys.tick(640, 480);
    // First observation: sizes recorded, no on_resize call.
    assert!(!log.contains(&Action::OnResize(only)));
    // Unchanged viewport: still no on_resize call.
    let (_, log) = sys.tick(640, 480);
    assert_eq!(log, vec![Action::Tick(only)]);
    // Changed viewport: now the top is resized.
    let (_, log) = sys.tick(1280, 720);
    assert_eq!(log, vec![Action::OnResize(only), Action::Tick(only)]);
}

#[test]
fn pop_on_empty_stack_changes_nothing() {
    let mut sys = ScreenSystem::new();
    sys.pop_screen();
    assert_eq!(sys.pending_len(), 0);
    assert_eq!(sys.committed_len(), 0);
    assert_eq!(sys.remove_queue_len(), 0);
    assert_eq!(sys.dirty_marker(), None);
}

#[test]
fn pop_on_emptied_stack_changes_nothing_further() {
    let mut sys = ScreenSystem::new();
    sys.add_screen(plain());
    sys.pop_screen();
    assert_eq!(sys.pending_len(), 0);
    assert_eq!(sys.remove_queue_len(), 1);
    let marker = sys.dirty_marker();
    sys.pop_screen();
    assert_eq!(sys.pending_len(), 0);
    assert_eq!(sys.remove_queue_len(), 1);
    assert_eq!(sys.dirty_marker(), marker);
}

#[test]
fn replace_keeps_stack_depth() {
    let mut sys = ScreenSystem::new();
    sys.add_screen(plain());
    sys.add_screen(plain());
    assert_eq!(sys.pending_len(), 2);
    let swapped = sys.replace_screen(closable());
    assert_eq!(sys.pending_len(), 2);
    assert_eq!(sys.pending_at(1), swapped);
}

#[test]
fn replace_on_empty_stack_only_pushes() {
    let mut sys = ScreenSystem::new();
    sys.replace_screen(plain());
    assert_eq!(sys.pending_len(), 1);
}

#[test]
fn close_closable_screens_stops_at_first_non_closable_top() {
    let mut sys = ScreenSystem::new();
    let keep = sys.add_screen(plain());
    sys.add_screen(closable());
    sys.add_screen(closable());
    sys.close_closable_screens();
    assert_eq!(sys.pending_len(), 1);
    assert_eq!(sys.pending_at(0), keep);
    assert!(!sys.is_current_closable());
    assert_eq!(sys.remove_queue_len(), 2);
}

#[test]
fn close_closable_screens_can_empty_the_stack() {
    let mut sys = ScreenSystem::new();
    sys.add_screen(closable());
    sys.add_screen(closable());
    sys.close_closable_screens();
    assert_eq!(sys.pending_len(), 0);
}

#[test]
fn close_closable_screens_on_empty_stack_is_a_no_op() {
    let mut sys = ScreenSystem::new();
    sys.close_closable_screens();
    assert_eq!(sys.pending_len(), 0);
    assert_eq!(sys.remove_queue_len(), 0);
    assert_eq!(sys.dirty_marker(), None);
}

#[test]
fn tick_reports_pause_exactly_when_top_is_not_in_game() {
    let mut sys = ScreenSystem::new();
    sys.add_screen(plain());
    let (paused, _) = sys.tick(800, 600);
    assert!(paused);
    sys.add_screen(in_game());
    let (paused, _) = sys.tick(800, 600);
    assert!(!paused);
    sys.pop_screen();
    let (paused, _) = sys.tick(800, 600);
    assert!(paused);
}

#[test]
fn queries_read_the_pending_top() {
    let mut sys = ScreenSystem::new();
    assert!(!sys.is_current_closable());
    assert!(!sys.is_current_ingame());
    assert!(!sys.is_any_ingame());
    sys.add_screen(in_game());
    sys.add_screen(closable());
    assert!(sys.is_current_closable());
    assert!(!sys.is_current_ingame());
    assert!(sys.is_any_ingame());
}

#[test]
fn escape_key_up_pops_a_closable_top() {
    let mut sys = ScreenSystem::new();
    sys.add_screen(plain());
    let modal = sys.add_screen(closable());
    sys.tick(800, 600);
    // Key-down does not trigger the default binding.
    let (target, handled) = sys.press_key(true, true);
    assert_eq!(target, Some(modal));
    assert!(!handled);
    assert_eq!(sys.pending_len(), 2);
    // Key-up on the closable top pops it from the pending stack.
    let (target, handled) = sys.press_key(true, false);
    assert_eq!(target, Some(modal));
    assert!(handled);
    assert_eq!(sys.pending_len(), 1);
    assert_eq!(sys.remove_queue_len(), 1);
    // The committed stack changes only at the next commit pass.
    assert_eq!(sys.committed_len(), 2);
}

#[test]
fn escape_on_non_closable_top_is_not_handled() {
    let mut sys = ScreenSystem::new();
    let top = sys.add_screen(plain());
    sys.tick(800, 600);
    let (target, handled) = sys.press_key(true, false);
    assert_eq!(target, Some(top));
    assert!(!handled);
    assert_eq!(sys.pending_len(), 1);
}

#[test]
fn events_on_empty_committed_stack_go_nowhere() {
    let mut sys = ScreenSystem::new();
    sys.add_screen(plain());
    // Nothing committed yet: no routing target.
    assert_eq!(sys.on_scroll(), None);
    assert_eq!(sys.receive_char(), None);
    let (target, handled) = sys.press_key(true, false);
    assert_eq!(target, None);
    assert!(!handled);
}

#[test]
fn teardown_of_removed_entries_precedes_new_activations() {
    let mut sys = ScreenSystem::new();
    let first = sys.add_screen(plain());
    sys.tick(800, 600);
    sys.pop_screen();
    let second = sys.add_screen(plain());
    let (_, log) = sys.tick(800, 600);
    assert_eq!(
        log,
        vec![
            Action::OnDeactive(first),
            Action::Deinit(first),
            Action::Init(second),
            Action::OnActive(second),
            Action::RecenterCursor,
            Action::Tick(second),
        ]
    );
}

#[test]
fn dirty_marker_is_set_once_and_only_lowered() {
    let mut sys = ScreenSystem::new();
    sys.add_screen(plain());
    assert_eq!(sys.dirty_marker(), Some(0));
    sys.tick(800, 600);
    assert_eq!(sys.dirty_marker(), None);
    sys.add_screen(plain());
    assert_eq!(sys.dirty_marker(), Some(1));
    sys.add_screen(plain());
    assert_eq!(sys.dirty_marker(), Some(1));
    sys.pop_screen();
    assert_eq!(sys.dirty_marker(), Some(1));
    sys.pop_screen();
    assert_eq!(sys.dirty_marker(), Some(1));
    sys.pop_screen();
    assert_eq!(sys.dirty_marker(), Some(0));
}

#[test]
fn commit_matches_pending_after_mixed_mutations() {
    let mut sys = ScreenSystem::new();
    let a = sys.add_screen(plain());
    let b = sys.add_screen(plain());
    sys.add_screen(plain());
    sys.tick(800, 600);
    // Interleave pops and adds between two commit passes.
    sys.pop_screen();
    sys.pop_screen();
    let d = sys.add_screen(plain());
    sys.tick(800, 600);
    assert_eq!(sys.committed_len(), 2);
    assert_eq!(sys.committed_at(0), a);
    assert_eq!(sys.committed_at(1), d);
    assert_eq!(sys.pending_len(), 2);
    assert_eq!(sys.remove_queue_len(), 0);
    assert!(!sys.entry_initialized(b));
}
