use splitkb_core::codec::{deserialize, serialize, FramingError, RxBuffer};
use splitkb_core::debounce::Debouncer;
use splitkb_core::event::{translate, BoardType, Event, COLS_PER_BOARD};
use splitkb_core::keyboard::{bootloader_requested, Keyboard};
use splitkb_core::layout::{Action, Layout};
use splitkb_core::report::HidReport;

fn grid(rows: usize, cols: usize, pressed: &[(usize, usize)]) -> Vec<Vec<bool>> {
    let mut g = vec![vec![false; cols]; rows];
    for &(r, c) in pressed {
        g[r][c] = true;
    }
    g
}

/// Two layers over a single row of two keys: a hold-tap key (hold pushes
/// layer 1, tap makes layer 1 the default, three-tick window) and an
/// ordinary key that types keycode 4 on layer 0 and keycode 5 on layer 1.
fn small_layers() -> Vec<Vec<Vec<Action>>> {
    vec![
        vec![vec![
            Action::HoldTap { hold: 1, tap: 1, timeout: 3 },
            Action::Simple(4),
        ]],
        vec![vec![Action::ToggleLayer(0), Action::Simple(5)]],
    ]
}

#[test]
fn codec_round_trip_press() {
    let e = Event::Press(2, 12);
    let p = serialize(e);
    assert_eq!(p, [b'P', 2, 12, b'\n']);
    assert_eq!(deserialize(&p), Ok(e));
}

#[test]
fn codec_round_trip_release() {
    let e = Event::Release(4, 17);
    let p = serialize(e);
    assert_eq!(p, [b'R', 4, 17, b'\n']);
    assert_eq!(deserialize(&p), Ok(e));
}

#[test]
fn codec_rejects_bad_tag_and_bad_terminator() {
    assert_eq!(deserialize(&[b'X', 1, 2, b'\n']), Err(FramingError));
    assert_eq!(deserialize(&[b'P', 1, 2, b'x']), Err(FramingError));
}

#[test]
fn rx_buffer_frames_a_packet() {
    let mut rx = RxBuffer::new();
    assert_eq!(rx.push(b'P'), None);
    assert_eq!(rx.push(2), None);
    assert_eq!(rx.push(12), None);
    assert_eq!(rx.push(b'\n'), Some(Event::Press(2, 12)));
}

#[test]
fn rx_buffer_self_heals_after_garbage() {
    let mut rx = RxBuffer::new();
    // A corrupted fragment ending in a terminator parses to nothing...
    for b in [7u8, 9, b'\n'] {
        assert_eq!(rx.push(b), None);
    }
    // ...and the next complete record still comes through.
    assert_eq!(rx.push(b'R'), None);
    assert_eq!(rx.push(0), None);
    assert_eq!(rx.push(3), None);
    assert_eq!(rx.push(b'\n'), Some(Event::Release(0, 3)));
}

#[test]
fn translate_left_is_identity() {
    let e = Event::Press(2, 3);
    assert_eq!(translate(BoardType::Left, e), e);
    let e = Event::Release(4, 8);
    assert_eq!(translate(BoardType::Left, e), e);
}

#[test]
fn translate_right_offsets_columns() {
    assert_eq!(
        translate(BoardType::Right, Event::Press(2, 3)),
        Event::Press(2, 3 + COLS_PER_BOARD)
    );
    assert_eq!(
        translate(BoardType::Right, Event::Release(0, 0)),
        Event::Release(0, COLS_PER_BOARD)
    );
}

#[test]
fn debounce_emits_once_per_stable_transition() {
    let mut d = Debouncer::new(2, 2, 5);
    let pressed = grid(2, 2, &[(1, 0)]);
    let mut events = Vec::new();
    for _ in 0..12 {
        events.extend(d.events(&pressed));
    }
    assert_eq!(events, vec![Event::Press(1, 0)]);
    // The release transition likewise yields exactly one event.
    let released = grid(2, 2, &[]);
    let mut events = Vec::new();
    for _ in 0..12 {
        events.extend(d.events(&released));
    }
    assert_eq!(events, vec![Event::Release(1, 0)]);
}

#[test]
fn debounce_swallows_noise_below_window() {
    let mut d = Debouncer::new(1, 1, 5);
    let on = grid(1, 1, &[(0, 0)]);
    let off = grid(1, 1, &[]);
    // Bursts of four pressed samples, then a released one: never five in
    // a row, so nothing may come out.
    for _ in 0..4 {
        for _ in 0..4 {
            assert!(d.events(&on).is_empty());
        }
        assert!(d.events(&off).is_empty());
    }
}

#[test]
fn debounce_simultaneous_transitions_row_major() {
    let mut d = Debouncer::new(2, 2, 2);
    let pressed = grid(2, 2, &[(0, 1), (1, 0)]);
    assert!(d.events(&pressed).is_empty());
    let events = d.events(&pressed);
    assert_eq!(events, vec![Event::Press(0, 1), Event::Press(1, 0)]);
}

#[test]
fn layout_rejects_bad_layer_reference() {
    // A momentary-layer action naming layer 2 of a two-layer table.
    let layers = vec![
        vec![vec![Action::MomentaryLayer(2)]],
        vec![vec![Action::Transparent]],
    ];
    assert!(Layout::new(layers).is_none());
}

#[test]
fn layout_rejects_ragged_table() {
    let layers = vec![
        vec![vec![Action::Simple(4), Action::Simple(5)]],
        vec![vec![Action::Simple(4)]],
    ];
    assert!(Layout::new(layers).is_none());
}

#[test]
fn holdtap_resolves_to_hold_after_timeout() {
    let mut l = Layout::new(small_layers()).unwrap();
    l.event(Event::Press(0, 0));
    for _ in 0..3 {
        l.tick();
    }
    // Layer 1 is pushed: default layer 0 plus held layer 1.
    assert_eq!(l.current_layer(), 0b11);
    // A key pressed now resolves against layer 1.
    l.event(Event::Press(0, 1));
    assert_eq!(l.keycodes(), vec![5]);
    l.event(Event::Release(0, 1));
    l.event(Event::Release(0, 0));
    // The hold layer retracts on release; the default never changed.
    assert_eq!(l.current_layer(), 0b01);
    assert!(l.keycodes().is_empty());
}

#[test]
fn holdtap_resolves_to_tap_before_timeout() {
    let mut l = Layout::new(small_layers()).unwrap();
    l.event(Event::Press(0, 0));
    l.tick();
    l.event(Event::Release(0, 0));
    // The tap action switched the default layer; nothing was pushed.
    assert_eq!(l.current_layer(), 0b10);
    l.event(Event::Press(0, 1));
    assert_eq!(l.keycodes(), vec![5]);
}

#[test]
fn holdtap_forced_to_hold_by_other_press() {
    let mut l = Layout::new(small_layers()).unwrap();
    l.event(Event::Press(0, 0));
    // No tick has passed, but another press forces the decision: the
    // hold-tap key is still held, so it resolves to hold, and the new
    // key already sees layer 1.
    l.event(Event::Press(0, 1));
    assert_eq!(l.current_layer(), 0b11);
    assert_eq!(l.keycodes(), vec![5]);
}

#[test]
fn layout_tolerates_unmatched_and_out_of_range_events() {
    let mut l = Layout::new(small_layers()).unwrap();
    l.event(Event::Release(0, 1));
    l.event(Event::Press(7, 20));
    l.event(Event::Release(7, 20));
    assert!(l.keycodes().is_empty());
    assert_eq!(l.current_layer(), 0b01);
}

#[test]
fn report_plain_keys_in_order() {
    let r = HidReport::build(&vec![4, 5]);
    assert_eq!(*r.as_bytes(), [0, 0, 4, 5, 0, 0, 0, 0]);
}

#[test]
fn report_modifiers_set_bits() {
    // LCtrl (0xE0) and LShift (0xE1) become modifier bits 0 and 1.
    let r = HidReport::build(&vec![0xE0, 4, 0xE1]);
    assert_eq!(*r.as_bytes(), [0b11, 0, 4, 0, 0, 0, 0, 0]);
}

#[test]
fn report_skips_duplicates_and_null() {
    let r = HidReport::build(&vec![4, 0, 4, 5]);
    assert_eq!(*r.as_bytes(), [0, 0, 4, 5, 0, 0, 0, 0]);
}

#[test]
fn report_overflow_rolls_over() {
    let r = HidReport::build(&vec![4, 5, 6, 7, 8, 9, 10]);
    assert_eq!(*r.as_bytes(), [0, 0, 1, 1, 1, 1, 1, 1]);
}

#[test]
fn report_is_deterministic() {
    let keys = vec![0xE1, 30, 31, 32];
    let a = HidReport::build(&keys);
    let b = HidReport::build(&keys);
    assert_eq!(a.as_bytes(), b.as_bytes());
}

#[test]
fn bootloader_cell_detection() {
    assert!(bootloader_requested(&grid(5, 9, &[(0, 0)])));
    assert!(!bootloader_requested(&grid(5, 9, &[(0, 1)])));
    assert!(!bootloader_requested(&Vec::new()));
}

/// A unified five-row, eighteen-column table: every key types keycode
/// `16 + row` on layer 0, except position (2, 12), which types keycode
/// 14 (the letter K); layer 1 is fully transparent.
fn wide_layers() -> Vec<Vec<Vec<Action>>> {
    let mut base = Vec::new();
    for r in 0..5usize {
        let mut row = Vec::new();
        for c in 0..18usize {
            if (r, c) == (2, 12) {
                row.push(Action::Simple(14));
            } else {
                row.push(Action::Simple(16 + r as u8));
            }
        }
        base.push(row);
    }
    let alt = vec![vec![Action::Transparent; 18]; 5];
    vec![base, alt]
}

#[test]
fn end_to_end_right_half_press_to_report() {
    let mut kb = Keyboard::new(BoardType::Right, wide_layers()).unwrap();
    // Physical press at local (2, 3); five stable scans debounce it.
    let pressed = grid(5, 9, &[(2, 3)]);
    let mut packets = Vec::new();
    for _ in 0..5 {
        packets.extend(kb.scan_tick(&pressed));
        let (_mask, _report) = kb.end_of_cycle();
    }
    // Unified coordinate (2, 3 + 9) = (2, 12) went out on the wire...
    assert_eq!(packets, vec![[b'P', 2, 12, b'\n']]);
    // ...and the engine resolved the mapped keycode for that position.
    let (mask, report) = kb.end_of_cycle();
    assert_eq!(mask, 0b01);
    assert_eq!(*report.as_bytes(), [0, 0, 14, 0, 0, 0, 0, 0]);
    // The release clears it from the next cycle's report.
    let released = grid(5, 9, &[]);
    let mut packets = Vec::new();
    for _ in 0..5 {
        packets.extend(kb.scan_tick(&released));
        let (_mask, _report) = kb.end_of_cycle();
    }
    assert_eq!(packets, vec![[b'R', 2, 12, b'\n']]);
    let (_mask, report) = kb.end_of_cycle();
    assert_eq!(*report.as_bytes(), [0, 0, 0, 0, 0, 0, 0, 0]);
}

#[test]
fn end_to_end_received_packet_reaches_report() {
    // The left half receives the right half's packet over the link; the
    // event arrives already unified and is not translated again.
    let mut kb = Keyboard::new(BoardType::Left, wide_layers()).unwrap();
    for b in [b'P', 2, 12] {
        assert_eq!(kb.receive(BoardType::Right, b), None);
    }
    assert_eq!(kb.receive(BoardType::Right, b'\n'), Some(Event::Press(2, 12)));
    let (_mask, report) = kb.end_of_cycle();
    assert_eq!(*report.as_bytes(), [0, 0, 14, 0, 0, 0, 0, 0]);
}
