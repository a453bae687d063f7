use dwm::arrange::ShowHide;
use dwm::events::{ClientMessage, ConfigureRequest, Configured, CW_X, CW_Y};
use dwm::manage::{Managed, NewWindow, Unmanaged, WindowState, WmHints};
use dwm::config::FLOATING_LAYOUT;
use dwm::layouts::{deck_symbol, is_small};
use dwm::manage::is_x_coord;
use dwm::mouse::{all_mons_on_screen, is_screen_coord};
use dwm::rules::{all_mons_small, rules};
use dwm::wm::ScratchAction;
use dwm::wm::{Monitor, SizeHints, Wm};

fn no_hints() -> SizeHints {
    SizeHints { basew: 0, baseh: 0, incw: 0, inch: 0, maxw: 0, maxh: 0, minw: 0, minh: 0 }
}

fn plain_state() -> WindowState {
    WindowState { transient: None, fullscreen: false, sticky: false, dialog: false, hints: no_hints(), wm_hints: None }
}

fn window(win: u64, class: &str) -> NewWindow {
    NewWindow {
        win,
        x: 10,
        y: 20,
        w: 300,
        h: 200,
        border: 0,
        pid: 0,
        class: class.as_bytes().to_vec(),
        instance: Vec::new(),
        title: Vec::new(),
        chain: Vec::new(),
        state: plain_state(),
    }
}

fn screen() -> Wm {
    let mut m = Monitor::new(0, 1, 20, 20, 20, 20, true, true, 14);
    m.mx = 0;
    m.my = 0;
    m.mw = 1000;
    m.mh = 800;
    m.wx = 0;
    m.wy = 20;
    m.ww = 1000;
    m.wh = 780;
    m.by = 0;
    Wm { clients: Vec::new(), mons: vec![m], selmon: 0 }
}

fn manage(wm: &mut Wm, win: u64, class: &str) -> Managed {
    let r = rules();
    wm.manage(window(win, class), &r, 3)
}

#[test]
fn manage_puts_new_client_first_and_selects_it() {
    let mut wm = screen();
    let a = manage(&mut wm, 100, "xterm");
    let b = manage(&mut wm, 101, "xterm");
    assert_eq!(a.client, 0);
    assert_eq!(b.client, 1);
    assert_eq!(wm.mons[0].clients, vec![1, 0]);
    assert_eq!(wm.mons[0].stack, vec![1, 0]);
    assert_eq!(wm.mons[0].sel, Some(1));
    assert_eq!(b.unfocused, Some(0));
    assert_eq!(wm.clients[0].bw, 3);
    assert_eq!(wm.clients[0].tags, 1);
    assert!(!wm.clients[0].isfloating);
}

#[test]
fn manage_applies_gimp_and_firefox_rules() {
    let mut wm = screen();
    let g = manage(&mut wm, 100, "Gimp");
    let f = manage(&mut wm, 101, "Firefox");
    assert!(wm.clients[g.client].isfloating);
    assert_eq!(wm.clients[g.client].tags, 1);
    assert!(!wm.clients[f.client].isfloating);
    assert_eq!(wm.clients[f.client].tags, 1 << 8);
}

#[test]
fn manage_keeps_window_inside_the_window_area() {
    let mut wm = screen();
    let r = rules();
    let mut nw = window(5, "x");
    nw.x = 900;
    nw.y = -50;
    let m = wm.manage(nw, &r, 3);
    let c = &wm.clients[m.client];
    assert_eq!(c.x, 700);
    assert_eq!(c.y, 20);
}

#[test]
fn transient_window_takes_parent_tags_and_floats() {
    let mut wm = screen();
    let f = manage(&mut wm, 101, "Firefox");
    let r = rules();
    let mut nw = window(102, "dialog");
    nw.state.transient = Some(101);
    let d = wm.manage(nw, &r, 3);
    assert_eq!(wm.clients[d.client].tags, wm.clients[f.client].tags);
    assert!(wm.clients[d.client].isfloating);
    assert!(wm.clients[d.client].oldstate);
}

#[test]
fn fixed_size_window_floats() {
    let mut wm = screen();
    let r = rules();
    let mut nw = window(7, "x");
    nw.state.hints = SizeHints { basew: 0, baseh: 0, incw: 0, inch: 0, maxw: 50, maxh: 60, minw: 50, minh: 60 };
    let m = wm.manage(nw, &r, 3);
    assert!(wm.clients[m.client].isfixed);
    assert!(wm.clients[m.client].isfloating);
}

#[test]
fn fullscreen_window_covers_monitor() {
    let mut wm = screen();
    let r = rules();
    let mut nw = window(8, "x");
    nw.state.fullscreen = true;
    nw.state.wm_hints = Some(WmHints { urgent: true, has_input: true, input: false });
    let m = wm.manage(nw, &r, 3);
    let c = &wm.clients[m.client];
    assert!(c.isfullscreen);
    assert_eq!((c.x, c.y, c.w, c.h, c.bw), (0, 0, 1000, 800, 0));
    assert!(c.isurgent);
    assert!(c.neverfocus);
}

#[test]
fn terminal_swallows_child_and_gives_window_back() {
    let mut wm = screen();
    let t = manage(&mut wm, 100, "st");
    wm.clients[t.client].isterminal = true;
    wm.clients[t.client].pid = 42;
    let r = rules();
    let mut nw = window(200, "mpv");
    nw.pid = 77;
    nw.chain = vec![77, 50, 42, 1];
    let m = wm.manage(nw, &r, 3);
    assert_eq!(m.term, Some(t.client));
    assert!(wm.swallow(t.client, m.client));
    assert_eq!(wm.clients[t.client].win, 200);
    assert_eq!(wm.clients[t.client].swallowing, Some(m.client));
    assert_eq!(wm.clients[m.client].win, 100);
    assert_eq!(wm.mons[0].clients, vec![t.client]);
    assert_eq!(wm.wintoclient(200), Some(t.client));
    assert_eq!(wm.swallowingclient(100), Some(t.client));
    let u = wm.unmanage(t.client);
    assert_eq!(u, Unmanaged::Unswallowed(m.client));
    assert_eq!(wm.clients[t.client].win, 100);
    assert_eq!(wm.clients[t.client].swallowing, None);
    assert!(!wm.clients[m.client].alive);
}

#[test]
fn unmanage_removes_client_from_lists() {
    let mut wm = screen();
    let a = manage(&mut wm, 100, "a");
    let b = manage(&mut wm, 101, "b");
    let u = wm.unmanage(b.client);
    assert_eq!(u, Unmanaged::Removed);
    assert_eq!(wm.mons[0].clients, vec![a.client]);
    assert_eq!(wm.mons[0].stack, vec![a.client]);
    assert_eq!(wm.mons[0].sel, Some(a.client));
    assert!(!wm.clients[b.client].alive);
    assert_eq!(wm.wintoclient(101), None);
}

#[test]
fn view_then_view_back() {
    let mut wm = screen();
    manage(&mut wm, 100, "a");
    assert!(wm.view(1 << 2));
    assert_eq!(wm.mons[0].tagset[wm.mons[0].seltags], 1 << 2);
    assert!(wm.view(0));
    assert_eq!(wm.mons[0].tagset[wm.mons[0].seltags], 1);
}

#[test]
fn toggletag_twice_restores_tags() {
    let mut wm = screen();
    let a = manage(&mut wm, 100, "a");
    wm.toggletag(1 << 3);
    assert_eq!(wm.clients[a.client].tags, 1 | (1 << 3));
    wm.toggletag(1 << 3);
    assert_eq!(wm.clients[a.client].tags, 1);
}

#[test]
fn focus_moves_selection_to_top_of_stack() {
    let mut wm = screen();
    let a = manage(&mut wm, 100, "a");
    manage(&mut wm, 101, "b");
    let f = wm.focus(Some(a.client));
    assert_eq!(f.focused, Some(a.client));
    assert_eq!(wm.mons[0].stack[0], a.client);
    assert_eq!(wm.mons[0].sel, Some(a.client));
}

#[test]
fn zoom_moves_selected_to_master() {
    let mut wm = screen();
    let a = manage(&mut wm, 100, "a");
    let b = manage(&mut wm, 101, "b");
    wm.focus(Some(a.client));
    wm.zoom();
    assert_eq!(wm.mons[0].clients[0], a.client);
    assert_eq!(wm.mons[0].clients[1], b.client);
}

#[test]
fn client_message_toggles_fullscreen() {
    let mut wm = screen();
    let a = manage(&mut wm, 100, "a");
    wm.client_message(a.client, ClientMessage::State { action: 2, fullscreen: true, sticky: false });
    assert!(wm.clients[a.client].isfullscreen);
    wm.client_message(a.client, ClientMessage::State { action: 2, fullscreen: true, sticky: false });
    assert!(!wm.clients[a.client].isfullscreen);
    assert_eq!(wm.clients[a.client].bw, 3);
}

#[test]
fn active_window_request_marks_other_client_urgent() {
    let mut wm = screen();
    let a = manage(&mut wm, 100, "a");
    let b = manage(&mut wm, 101, "b");
    let e = wm.client_message(a.client, ClientMessage::ActiveWindow);
    assert!(e.urgent_set);
    assert!(wm.clients[a.client].isurgent);
    let e = wm.client_message(b.client, ClientMessage::ActiveWindow);
    assert!(!e.urgent_set);
}

#[test]
fn configure_request_of_floating_client_is_taken() {
    let mut wm = screen();
    let g = manage(&mut wm, 100, "Gimp");
    let a = wm.configurerequest(g.client, ConfigureRequest { mask: CW_X | CW_Y, x: 5, y: 6, w: 0, h: 0, border: 0 });
    assert_eq!(a, Configured::Geometry { notify: true, shown: true });
    assert_eq!((wm.clients[g.client].x, wm.clients[g.client].y), (5, 6));
}

#[test]
fn configure_request_of_tiled_client_is_refused() {
    let mut wm = screen();
    let a = manage(&mut wm, 100, "a");
    let before = wm.clients[a.client].x;
    let r = wm.configurerequest(a.client, ConfigureRequest { mask: CW_X, x: 5, y: 6, w: 0, h: 0, border: 0 });
    assert_eq!(r, Configured::Refused);
    assert_eq!(wm.clients[a.client].x, before);
}

#[test]
fn showhide_plan_shows_top_down_and_hides_bottom_up() {
    let mut wm = screen();
    let a = manage(&mut wm, 100, "a");
    let b = manage(&mut wm, 101, "Firefox");
    let c = manage(&mut wm, 102, "c");
    let plan = wm.showhide(0);
    assert_eq!(
        plan,
        vec![
            ShowHide::Show { c: c.client, resize: false },
            ShowHide::Show { c: a.client, resize: false },
            ShowHide::Hide(b.client),
        ]
    );
}

#[test]
fn restack_raises_floating_selection_and_stacks_tiled() {
    let mut wm = screen();
    let a = manage(&mut wm, 100, "a");
    let g = manage(&mut wm, 101, "Gimp");
    let s = wm.restack(0);
    assert_eq!(s.raise, Some(g.client));
    assert_eq!(s.below, vec![a.client]);
}

#[test]
fn bar_masks_count_occupied_and_urgent_tags() {
    let mut wm = screen();
    let a = manage(&mut wm, 100, "a");
    manage(&mut wm, 101, "Firefox");
    wm.seturgent(a.client, true);
    assert_eq!(wm.bar_masks(0), (1 | (1 << 8), 1));
}

#[test]
fn recttomon_picks_monitor_with_largest_overlap() {
    let mut wm = screen();
    let mut m2 = Monitor::new(1, 1, 0, 0, 0, 0, true, true, 14);
    m2.wx = 1000;
    m2.wy = 0;
    m2.ww = 1000;
    m2.wh = 800;
    wm.mons.push(m2);
    assert_eq!(wm.recttomon(900, 100, 300, 100), 1);
    assert_eq!(wm.recttomon(100, 100, 300, 100), 0);
    assert_eq!(wm.recttomon(5000, 5000, 10, 10), 0);
}

#[test]
fn getgaps_counts_tiled_clients_and_smart_gaps() {
    let mut wm = screen();
    manage(&mut wm, 100, "a");
    let g = wm.getgaps(0, true, true);
    assert_eq!((g.oh, g.ov, g.ih, g.iv, g.n), (0, 0, 20, 20, 1));
    manage(&mut wm, 101, "b");
    let g = wm.getgaps(0, true, true);
    assert_eq!((g.oh, g.ov, g.ih, g.iv, g.n), (20, 20, 20, 20, 2));
    let g = wm.getgaps(0, false, false);
    assert_eq!((g.oh, g.ov, g.ih, g.iv), (0, 0, 0, 0));
}

#[test]
fn move_step_loosens_tiled_client_dragged_far() {
    let mut wm = screen();
    let a = manage(&mut wm, 100, "a");
    let (ox, oy) = (wm.clients[a.client].x, wm.clients[a.client].y);
    let s = wm.move_step(ox, oy, 500, 400, 700, 500, 32);
    assert!(s.loosened);
    assert!(wm.clients[a.client].isfloating);
    assert_eq!(s.target, Some((ox + 200, oy + 100)));
}

#[test]
fn move_step_snaps_to_left_edge() {
    let mut wm = screen();
    let g = manage(&mut wm, 100, "Gimp");
    let oy = wm.clients[g.client].y;
    let s = wm.move_step(100, oy, 500, 400, 420, 400, 32);
    assert!(!s.loosened);
    assert_eq!(s.target, Some((0, oy)));
}

#[test]
fn resize_step_follows_pointer() {
    let mut wm = screen();
    let g = manage(&mut wm, 100, "Gimp");
    let (x, y) = (wm.clients[g.client].x, wm.clients[g.client].y);
    let s = wm.resize_step(x, y, x + 400, y + 300, 32);
    assert_eq!(s.target, Some((x, y, 401 - 6, 301 - 6)));
}

#[test]
fn focus_taken_by_other_window_goes_back_to_selection() {
    let mut wm = screen();
    let a = manage(&mut wm, 100, "a");
    assert_eq!(wm.focus_taken(999), Some(a.client));
    assert_eq!(wm.focus_taken(100), None);
}

#[test]
fn enter_on_other_client_focuses_it() {
    let mut wm = screen();
    let a = manage(&mut wm, 100, "a");
    manage(&mut wm, 101, "b");
    let r = wm.enter(Some(a.client), 0);
    assert!(r.is_some());
    assert_eq!(wm.mons[0].sel, Some(a.client));
    assert!(wm.enter(Some(a.client), 0).is_none());
}

#[test]
fn wintomon_finds_bar_and_client_monitors() {
    let mut wm = screen();
    wm.mons[0].barwin = 55;
    manage(&mut wm, 100, "a");
    assert_eq!(wm.wintomon(55, 1, None), 0);
    assert_eq!(wm.wintomon(100, 1, None), 0);
    assert_eq!(wm.wintomon(12345, 1, None), 0);
}

#[test]
fn tagmon_sends_selected_client_to_next_monitor() {
    let mut wm = screen();
    let mut m2 = Monitor::new(1, 1, 0, 0, 0, 0, true, true, 14);
    m2.mx = 1000;
    m2.wx = 1000;
    m2.mw = 800;
    m2.ww = 800;
    m2.mh = 600;
    m2.wh = 600;
    m2.tagset = [4, 4];
    wm.mons.push(m2);
    let a = manage(&mut wm, 100, "a");
    let b = manage(&mut wm, 101, "b");
    assert!(wm.tagmon(1).is_some());
    assert_eq!(wm.clients[b.client].mon, 1);
    assert_eq!(wm.clients[b.client].tags, 4);
    assert_eq!(wm.mons[1].clients, vec![b.client]);
    assert_eq!(wm.mons[0].clients, vec![a.client]);
    let mut single = screen();
    manage(&mut single, 100, "a");
    assert!(single.tagmon(1).is_none());
}

#[test]
fn swaptags_twice_restores_tags() {
    let mut wm = screen();
    let a = manage(&mut wm, 100, "a");
    let b = manage(&mut wm, 101, "b");
    wm.clients[b.client].tags = 2;
    assert!(wm.swaptags(2));
    assert_eq!((wm.clients[a.client].tags, wm.clients[b.client].tags), (2, 1));
    assert!(wm.swaptags(2));
    assert_eq!((wm.clients[a.client].tags, wm.clients[b.client].tags), (1, 2));
}

fn two_monitors() -> Wm {
    let mut wm = screen();
    let mut m2 = Monitor::new(1, 1, 0, 0, 0, 0, true, true, 14);
    m2.mx = 1000;
    m2.wx = 1000;
    m2.mw = 800;
    m2.ww = 800;
    m2.mh = 600;
    m2.wh = 600;
    wm.mons.push(m2);
    wm
}

#[test]
fn focusstack_focuses_next_shown_client() {
    let mut wm = screen();
    let a = manage(&mut wm, 100, "a");
    let b = manage(&mut wm, 101, "b");
    let r = wm.focusstack(2001).expect("a client is named");
    assert_eq!(r.focused, Some(a.client));
    assert_eq!(r.unfocused, Some(b.client));
    assert_eq!(wm.mons[0].sel, Some(a.client));
    assert_eq!(wm.mons[0].stack, vec![a.client, b.client]);
}

#[test]
fn focusstack_keeps_focus_on_fullscreen_window() {
    let mut wm = screen();
    manage(&mut wm, 100, "a");
    let b = manage(&mut wm, 101, "b");
    wm.setfullscreen(b.client, true);
    assert!(wm.focusstack(2001).is_none());
    assert_eq!(wm.mons[0].sel, Some(b.client));
    assert_eq!(wm.mons[0].stack, vec![b.client, 0]);
}

#[test]
fn stackpos_counts_from_hidden_selection() {
    let mut wm = screen();
    manage(&mut wm, 100, "a");
    manage(&mut wm, 101, "b");
    let c = manage(&mut wm, 102, "c");
    wm.clients[c.client].tags = 2;
    assert_eq!(wm.stackpos(2001), 1);
    assert_eq!(wm.stackpos(1999), 1);
    assert_eq!(wm.stackpos(2000), 0);
}

#[test]
fn focusmon_selects_next_monitor() {
    let mut wm = two_monitors();
    let a = manage(&mut wm, 100, "a");
    let (prev, f) = wm.focusmon(1).expect("two monitors");
    assert_eq!(prev, Some(a.client));
    assert_eq!(f.focused, None);
    assert_eq!(wm.selmon, 1);
    assert_eq!(wm.mons[1].sel, None);
    assert!(wm.focusmon(1).is_some());
    assert_eq!(wm.selmon, 0);
    assert_eq!(wm.mons[0].sel, Some(a.client));
}

#[test]
fn sendmon_focuses_what_is_left() {
    let mut wm = two_monitors();
    let a = manage(&mut wm, 100, "a");
    let b = manage(&mut wm, 101, "b");
    let f = wm.sendmon(b.client, 1).expect("moved");
    assert_eq!(f.focused, Some(a.client));
    assert_eq!(wm.selmon, 0);
    assert_eq!(wm.mons[0].sel, Some(a.client));
    assert_eq!(wm.mons[0].stack, vec![a.client]);
    assert_eq!(wm.mons[1].stack, vec![b.client]);
}

#[test]
fn drop_client_sends_client_to_monitor_under_it() {
    let mut wm = two_monitors();
    let a = manage(&mut wm, 100, "a");
    let b = manage(&mut wm, 101, "b");
    wm.clients[b.client].isfloating = true;
    assert!(wm.drop_client(b.client).is_none());
    wm.clients[b.client].x = 1100;
    wm.clients[b.client].y = 100;
    let f = wm.drop_client(b.client).expect("moved");
    assert_eq!(f.focused, Some(b.client));
    assert_eq!(wm.selmon, 1);
    assert_eq!(wm.clients[b.client].mon, 1);
    assert_eq!(wm.mons[1].sel, Some(b.client));
    assert_eq!(wm.mons[1].stack, vec![b.client]);
    assert_eq!(wm.mons[0].sel, Some(a.client));
    assert_eq!(wm.mons[0].stack, vec![a.client]);
    assert!(!wm.clients[b.client].isurgent);
}

#[test]
fn scratchpad_is_focused_when_shown() {
    let mut wm = screen();
    let s = manage(&mut wm, 100, "scratch");
    wm.clients[s.client].tags = 1 << 9;
    let b = manage(&mut wm, 101, "b");
    assert_eq!(wm.mons[0].sel, Some(b.client));
    match wm.togglescratch(0) {
        ScratchAction::Toggled { client, tags_changed } => {
            assert_eq!(client, s.client);
            assert!(tags_changed);
        }
        ScratchAction::Spawn => panic!("the scratchpad exists"),
    }
    assert_eq!(wm.mons[0].tagset[0], 1 | 1 << 9);
    let f = wm.scratch_focus(s.client).expect("shown");
    assert_eq!(f.focused, Some(s.client));
    assert_eq!(f.unfocused, Some(b.client));
    assert_eq!(wm.mons[0].sel, Some(s.client));
    assert_eq!(wm.mons[0].stack[0], s.client);
    match wm.togglescratch(0) {
        ScratchAction::Toggled { client, .. } => assert_eq!(client, s.client),
        ScratchAction::Spawn => panic!("the scratchpad exists"),
    }
    assert_eq!(wm.mons[0].tagset[0], 1);
    assert!(wm.scratch_focus(s.client).is_none());
}

#[test]
fn missing_scratchpad_is_spawned_on_its_tag() {
    let mut wm = screen();
    manage(&mut wm, 100, "a");
    assert!(matches!(wm.togglescratch(0), ScratchAction::Spawn));
    assert_eq!(wm.mons[0].tagset[0], 1 | 1 << 9);
}

#[test]
fn monocle_symbol_counts_shown_clients() {
    let mut wm = screen();
    assert_eq!(wm.monocle_symbol(0), None);
    let mut first = 0;
    for i in 0..12 {
        let m = manage(&mut wm, 100 + i, "a");
        if i == 0 {
            first = m.client;
        }
    }
    assert_eq!(wm.monocle_symbol(0), Some(b"[12]".to_vec()));
    wm.clients[first].tags = 2;
    assert_eq!(wm.monocle_symbol(0), Some(b"[11]".to_vec()));
}

#[test]
fn deck_symbol_counts_stacked_clients() {
    assert_eq!(deck_symbol(0), None);
    assert_eq!(deck_symbol(-2), None);
    assert_eq!(deck_symbol(3), Some(b"D 3".to_vec()));
    assert_eq!(deck_symbol(105), Some(b"D 105".to_vec()));
}

#[test]
fn new_monitor_shows_first_layout_symbol() {
    let mut wm = screen();
    assert_eq!(wm.mons[0].symbol(), "[]=");
    wm.setlayout(Some(FLOATING_LAYOUT));
    assert_eq!(wm.mons[0].symbol(), "><>");
    wm.setlayout(None);
    assert_eq!(wm.mons[0].symbol(), "[]=");
}

#[test]
fn size_hints_apply_to_floating_or_unarranged_clients() {
    let mut wm = screen();
    let a = manage(&mut wm, 100, "a");
    assert!(!wm.hints_apply(a.client, false));
    assert!(wm.hints_apply(a.client, true));
    wm.clients[a.client].isfloating = true;
    assert!(wm.hints_apply(a.client, false));
    wm.clients[a.client].isfloating = false;
    wm.setlayout(Some(FLOATING_LAYOUT));
    assert!(wm.hints_apply(a.client, false));
}

#[test]
fn enter_moves_focused_client_to_top_of_stack() {
    let mut wm = screen();
    let a = manage(&mut wm, 100, "a");
    let b = manage(&mut wm, 101, "b");
    let (_, f) = wm.enter(Some(a.client), 0).expect("focus moves");
    assert_eq!(f.focused, Some(a.client));
    assert_eq!(f.unfocused, Some(b.client));
    assert_eq!(wm.mons[0].stack, vec![a.client, b.client]);
    assert_eq!(wm.mons[0].clients, vec![b.client, a.client]);
}

#[test]
fn motion_to_other_monitor_selects_it() {
    let mut wm = two_monitors();
    let a = manage(&mut wm, 100, "a");
    let (prev, f) = wm.motion(1, Some(0)).expect("monitor changed");
    assert_eq!(prev, Some(a.client));
    assert_eq!(f.focused, None);
    assert_eq!(wm.selmon, 1);
    assert_eq!(wm.mons[1].sel, None);
    assert_eq!(wm.mons[0].sel, Some(a.client));
    assert!(wm.motion(1, Some(1)).is_none());
    assert!(wm.motion(0, None).is_none());
    assert_eq!(wm.selmon, 1);
}

#[test]
fn range_checks_match_their_bounds() {
    assert!(is_x_coord(0x1_0000) && !is_x_coord(0x1_0001) && is_x_coord(-0x1_0000));
    assert!(is_screen_coord(-0x8000) && !is_screen_coord(0x8001));
    assert!(is_small(0x10_0000) && !is_small(-0x10_0001));
    let mut wm = two_monitors();
    assert!(all_mons_on_screen(&wm.mons) && all_mons_small(&wm.mons));
    wm.mons[1].ww = 0x8001;
    assert!(!all_mons_on_screen(&wm.mons));
    wm.mons[1].seltags = 2;
    assert!(!all_mons_small(&wm.mons));
}

#[test]
fn sendmon_from_unselected_monitor_reselects_there() {
    let mut wm = two_monitors();
    let a = manage(&mut wm, 100, "a");
    let b = manage(&mut wm, 101, "b");
    wm.focusmon(1).expect("two monitors");
    assert_eq!(wm.mons[0].sel, Some(b.client));
    let f = wm.sendmon(b.client, 1).expect("moved");
    assert_eq!(f.focused, Some(b.client));
    assert_eq!(f.unfocused, None);
    assert_eq!(wm.selmon, 1);
    assert_eq!(wm.mons[1].sel, Some(b.client));
    assert_eq!(wm.mons[0].sel, Some(a.client));
    assert_eq!(wm.mons[0].stack, vec![a.client]);
}
