use dwm::bar::{bar_layout, click_on_bar, status_click_signal, status_parts, status_width, BarClick};
use dwm::events::{binding_fires, cleanmask, event_kind, numlock_mask, xerror_ignored, EventKind};
use dwm::geom::{apply_hints, constrain, remove_base, size_hints, Bounds, Geom, NormalHints};
use dwm::layouts::{fibonacci, gaplessgrid, grid, monocle, nrowgrid, Area, FibParams, Gaps, Rect};
use dwm::mouse::motion_too_soon;
use dwm::rules::{find_sub, rules};
use dwm::wm::SizeHints;

#[test]
fn find_sub_matches_contiguous_bytes() {
    assert!(find_sub(&b"GimpToolbox".to_vec(), &b"Gimp".to_vec()));
    assert!(find_sub(&b"abc".to_vec(), &Vec::new()));
    assert!(!find_sub(&b"Gim".to_vec(), &b"Gimp".to_vec()));
    assert!(!find_sub(&b"gimp".to_vec(), &b"Gimp".to_vec()));
    assert!(find_sub(&b"xxFirefox".to_vec(), &b"Firefox".to_vec()));
}

#[test]
fn configured_rules_are_gimp_and_firefox() {
    let r = rules();
    assert_eq!(r.len(), 2);
    assert_eq!(r[0].class, b"Gimp".to_vec());
    assert!(r[0].isfloating);
    assert_eq!(r[1].class, b"Firefox".to_vec());
    assert_eq!(r[1].tags, 1 << 8);
}

#[test]
fn click_on_bar_finds_tag_symbol_status_and_title() {
    let w = vec![20; 9];
    let occ = 0b100;
    let cur = 0b1;
    assert_eq!(click_on_bar(5, occ, cur, &w, 30, 1000, 100), BarClick::Tag(0));
    assert_eq!(click_on_bar(25, occ, cur, &w, 30, 1000, 100), BarClick::Tag(2));
    assert_eq!(click_on_bar(45, occ, cur, &w, 30, 1000, 100), BarClick::LtSymbol);
    assert_eq!(click_on_bar(500, occ, cur, &w, 30, 1000, 100), BarClick::WinTitle);
    assert_eq!(click_on_bar(950, occ, cur, &w, 30, 1000, 100), BarClick::StatusText);
}

#[test]
fn bar_layout_places_shown_tags_then_symbol_and_title() {
    let w = vec![10, 11, 12, 13, 14, 15, 16, 17, 18];
    let l = bar_layout(0b1000, 0b1, 0b1000, &w, 30, 1000, 100);
    assert_eq!(l.tags, vec![(0, 0), (3, 10)]);
    assert_eq!(l.marks, vec![(true, false), (false, true)]);
    assert_eq!(l.lt_x, 23);
    assert_eq!(l.title_x, 53);
    assert_eq!(l.title_w, 1000 - 100 - 53);
}

#[test]
fn status_text_splits_at_control_bytes() {
    let s = b"ab\x01cd\x02e".to_vec();
    assert_eq!(status_parts(&s), vec![(0, 2), (3, 5), (6, 7)]);
    assert_eq!(status_parts(&Vec::new()), vec![(0, 0)]);
}

#[test]
fn status_width_sums_parts_without_padding() {
    assert_eq!(status_width(&vec![30, 40, 50], 10), 30 + 40 + 50 - 30 + 2);
    assert_eq!(status_width(&Vec::new(), 10), 2);
}

#[test]
fn status_click_selects_signal_of_clicked_part() {
    let s = b"ab\x01cd\x02e".to_vec();
    let w = vec![20, 20, 20];
    assert_eq!(status_click_signal(&s, &w, 100, 110), 0);
    assert_eq!(status_click_signal(&s, &w, 100, 130), 1);
    assert_eq!(status_click_signal(&s, &w, 100, 150), 2);
    assert_eq!(status_click_signal(&s, &w, 200, 150), 0);
}

#[test]
fn cleanmask_drops_lock_and_numlock() {
    assert_eq!(cleanmask(8 | 2 | 16, 16), 8);
    assert_eq!(cleanmask(0x1ff, 0), 0xfd);
    assert!(binding_fires(0x70, 8, 0x70, 8 | 2, 16));
    assert!(!binding_fires(0x70, 8, 0x71, 8, 16));
    assert!(!binding_fires(0x70, 8 | 1, 0x70, 8, 16));
}

#[test]
fn event_kinds_match_x_event_types() {
    assert_eq!(event_kind(2), Some(EventKind::KeyPress));
    assert_eq!(event_kind(23), Some(EventKind::ConfigureRequest));
    assert_eq!(event_kind(34), Some(EventKind::MappingNotify));
    assert_eq!(event_kind(5), None);
}

#[test]
fn expected_x_errors_are_ignored() {
    assert!(xerror_ignored(1, 3));
    assert!(xerror_ignored(42, 8));
    assert!(xerror_ignored(33, 10));
    assert!(!xerror_ignored(42, 9));
    assert!(!xerror_ignored(1, 8));
}

#[test]
fn numlock_mask_is_last_modifier_holding_key() {
    let mut map = vec![0u8; 16];
    map[2 * 2 + 1] = 77;
    assert_eq!(numlock_mask(&map, 2, 77), 1 << 2);
    map[5 * 2] = 77;
    assert_eq!(numlock_mask(&map, 2, 77), 1 << 5);
    assert_eq!(numlock_mask(&map, 2, 78), 0);
}

#[test]
fn size_hints_fall_back_between_base_and_min() {
    let h = NormalHints {
        flags: 16,
        base_width: 1,
        base_height: 2,
        min_width: 30,
        min_height: 40,
        max_width: 0,
        max_height: 0,
        width_inc: 0,
        height_inc: 0,
    };
    let s = size_hints(Some(h));
    assert_eq!((s.basew, s.baseh, s.minw, s.minh), (30, 40, 30, 40));
    let s = size_hints(Some(NormalHints { flags: 256, ..h }));
    assert_eq!((s.basew, s.baseh, s.minw, s.minh), (1, 2, 1, 2));
    let s = size_hints(None);
    assert_eq!((s.basew, s.minw, s.incw, s.maxw), (0, 0, 0, 0));
}

#[test]
fn hints_round_to_increments_and_clamp() {
    let s = SizeHints { basew: 2, baseh: 2, incw: 10, inch: 10, maxw: 0, maxh: 0, minw: 5, minh: 5 };
    let (w, h) = remove_base(57, 33, s).unwrap();
    assert_eq!((w, h), (55, 31));
    assert_eq!(apply_hints(w, h, s), Some((52, 32)));
    let f = SizeHints { basew: 0, baseh: 0, incw: 0, inch: 0, maxw: 100, maxh: 100, minw: 20, minh: 20 };
    assert_eq!(apply_hints(500, 5, f), Some((100, 20)));
}

#[test]
fn constrain_pulls_window_back_on_screen() {
    let b = Bounds { sw: 1000, sh: 800, wx: 0, wy: 20, ww: 1000, wh: 780, bh: 20 };
    let g = constrain(Geom { x: 1200, y: 10, w: 100, h: 5 }, 100, 100, 2, false, b).unwrap();
    assert_eq!(g, Geom { x: 1000 - 104, y: 20, w: 100, h: 20 });
    let g = constrain(Geom { x: 1200, y: -500, w: 100, h: 100 }, 100, 100, 2, true, b).unwrap();
    assert_eq!(g, Geom { x: 1000 - 104, y: 0, w: 100, h: 100 });
}

#[test]
fn monocle_fills_area() {
    let a = Area { wx: 0, wy: 20, ww: 1000, wh: 780 };
    assert_eq!(monocle(a, &vec![2, 0]), vec![Rect { x: 0, y: 20, w: 996, h: 776 }, Rect { x: 0, y: 20, w: 1000, h: 780 }]);
}

#[test]
fn grid_of_five_has_three_rows_and_two_columns() {
    let a = Area { wx: 0, wy: 0, ww: 1000, wh: 900 };
    let g = Gaps { oh: 0, ov: 0, ih: 0, iv: 0, n: 5 };
    let r = grid(a, g, &vec![0; 5]);
    assert_eq!(r[0], Rect { x: 0, y: 0, w: 500, h: 300 });
    assert_eq!(r[2], Rect { x: 0, y: 600, w: 500, h: 300 });
    assert_eq!(r[3], Rect { x: 500, y: 0, w: 500, h: 300 });
}

#[test]
fn grid_spreads_leftover_pixels() {
    let a = Area { wx: 0, wy: 0, ww: 1001, wh: 10 };
    let g = Gaps { oh: 0, ov: 0, ih: 0, iv: 0, n: 3 };
    let r = grid(a, g, &vec![0; 3]);
    assert_eq!(r[0], Rect { x: 0, y: 0, w: 501, h: 5 });
    assert_eq!(r[1], Rect { x: 0, y: 5, w: 501, h: 5 });
    assert_eq!(r[2], Rect { x: 501, y: 0, w: 500, h: 5 });
}

#[test]
fn motions_are_throttled() {
    assert!(motion_too_soon(108, 100));
    assert!(!motion_too_soon(109, 100));
}

#[test]
fn fibonacci_dwindle_splits_master_then_halves() {

    let a = Area { wx: 0, wy: 0, ww: 1000, wh: 800 };
    let g = Gaps { oh: 0, ov: 0, ih: 0, iv: 0, n: 3 };
    let p = FibParams { n: 3, a, g, sw: 450, bh: 20, dwindle: true };
    let r = fibonacci(p, &vec![0; 3]);
    assert_eq!(r[0], Rect { x: 0, y: 0, w: 550, h: 800 });
    assert_eq!(r[1], Rect { x: 550, y: 0, w: 450, h: 400 });
    assert_eq!(r[2], Rect { x: 550, y: 400, w: 450, h: 400 });
}

#[test]
fn fibonacci_two_clients_side_by_side() {

    let a = Area { wx: 0, wy: 0, ww: 1000, wh: 800 };
    let g = Gaps { oh: 0, ov: 0, ih: 0, iv: 0, n: 2 };
    let p = FibParams { n: 2, a, g, sw: 450, bh: 20, dwindle: false };
    let r = fibonacci(p, &vec![0; 2]);
    assert_eq!(r[0], Rect { x: 0, y: 0, w: 550, h: 800 });
    assert_eq!(r[1], Rect { x: 550, y: 0, w: 450, h: 800 });
}

#[test]
fn gapless_grid_of_five_is_two_then_three() {

    let a = Area { wx: 0, wy: 0, ww: 1000, wh: 900 };
    let g = Gaps { oh: 0, ov: 0, ih: 0, iv: 0, n: 5 };
    let r = gaplessgrid(a, g, &vec![0; 5]);
    assert_eq!(r[0], Rect { x: 0, y: 0, w: 500, h: 450 });
    assert_eq!(r[1], Rect { x: 0, y: 450, w: 500, h: 450 });
    assert_eq!(r[2], Rect { x: 500, y: 0, w: 500, h: 300 });
    assert_eq!(r[3], Rect { x: 500, y: 300, w: 500, h: 300 });
    assert_eq!(r[4], Rect { x: 500, y: 600, w: 500, h: 300 });
}

#[test]
fn row_grid_puts_master_row_above() {

    let a = Area { wx: 0, wy: 0, ww: 1000, wh: 800 };
    let g = Gaps { oh: 0, ov: 0, ih: 0, iv: 0, n: 3 };
    let r = nrowgrid(a, g, 1, &vec![0; 3]);
    assert_eq!(r[0], Rect { x: 0, y: 0, w: 1000, h: 400 });
    assert_eq!(r[1], Rect { x: 0, y: 400, w: 500, h: 400 });
    assert_eq!(r[2], Rect { x: 500, y: 400, w: 500, h: 400 });
}

#[test]
fn row_grid_splits_two_clients_side_by_side() {

    let a = Area { wx: 0, wy: 0, ww: 1000, wh: 800 };
    let g = Gaps { oh: 0, ov: 0, ih: 0, iv: 0, n: 2 };
    let r = nrowgrid(a, g, 1, &vec![2; 2]);
    assert_eq!(r[0], Rect { x: 0, y: 0, w: 496, h: 796 });
    assert_eq!(r[1], Rect { x: 500, y: 0, w: 496, h: 796 });
}

#[test]
fn clicking_inside_a_drawn_label_hits_its_tag() {
    let w = vec![10, 11, 12, 13, 14, 15, 16, 17, 18];
    let l = bar_layout(0b100010000, 0b10, 0, &w, 30, 1000, 100);
    for (t, x) in l.tags {
        assert_eq!(click_on_bar(x, 0b100010000, 0b10, &w, 30, 1000, 100), BarClick::Tag(t));
        assert_eq!(click_on_bar(x + w[t] - 1, 0b100010000, 0b10, &w, 30, 1000, 100), BarClick::Tag(t));
    }
}

#[test]
fn cleanmask_ignores_lock_keys_and_is_idempotent() {
    for m in [0u32, 1, 8, 9, 0x4d, 0xff] {
        assert_eq!(cleanmask(m | 2 | 16, 16), cleanmask(m, 16));
        assert_eq!(cleanmask(cleanmask(m, 16), 16), cleanmask(m, 16));
    }
}

#[test]
fn layout_symbols_follow_the_table() {
    assert_eq!(dwm::config::layout_symbol(0), "[]=");
    assert_eq!(dwm::config::layout_symbol(3), "[\\]");
    assert_eq!(dwm::config::layout_symbol(13), "><>");
}
