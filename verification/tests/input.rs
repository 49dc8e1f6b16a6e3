use lavaxemu_core::{pointer_from_analog, InputState, PointerState};

#[test]
fn queues_only_new_key_presses() {
    let mut input = InputState::default();
    input.set_keys(b"AB");
    assert_eq!(input.pop_key(), Some(b'A'));
    assert_eq!(input.pop_key(), Some(b'B'));
    input.set_keys(b"AB");
    assert_eq!(input.pop_key(), None);
    input.set_keys(b"BC");
    assert_eq!(input.pop_key(), Some(b'C'));
}

#[test]
fn releasing_all_keys_empties_the_queue() {
    let mut input = InputState::default();
    input.set_key(b'Q', true);
    assert!(input.is_pressed(b'Q'));
    input.release_all();
    assert!(!input.is_pressed(b'Q'));
    assert_eq!(input.pop_key(), None);
}

#[test]
fn remembers_the_pointer() {
    let mut input = InputState::default();
    assert_eq!(input.pointer(), None);
    let pointer = PointerState { x: 3, y: 4, pressed: true };
    input.set_pointer(Some(pointer));
    assert_eq!(input.pointer(), Some(pointer));
}

#[test]
fn analog_pointers_scale_to_the_screen() {
    assert_eq!(pointer_from_analog(false, 0, 0, 160, 80), None);
    assert_eq!(pointer_from_analog(true, 0, 0, 160, 80), Some(PointerState { x: 80, y: 40, pressed: true }));
    assert_eq!(pointer_from_analog(false, -32768, 32767, 160, 80), Some(PointerState { x: 0, y: 79, pressed: false }));
    assert_eq!(pointer_from_analog(true, 5, 5, 0, 0), Some(PointerState { x: 0, y: 0, pressed: true }));
}

#[test]
fn held_keys_repeat_after_twelve_frames_then_every_five() {
    let mut input = InputState::default();
    input.set_key(b'k', true);
    assert_eq!(input.pop_key(), Some(b'k'));
    let mut seen = Vec::new();
    for frame in 1..=27 {
        input.tick_repeat();
        if let Some(key) = input.pop_key() {
            assert_eq!(key, b'k');
            seen.push(frame);
        }
    }
    assert_eq!(seen, vec![12, 17, 22, 27]);
}
