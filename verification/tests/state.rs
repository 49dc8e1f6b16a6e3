use lavaxemu_core::{frame_state, state_payload, Error, STATE_HEADER_SIZE};

#[test]
fn a_framed_payload_reads_back() {
    let state = frame_state(b"123456789").unwrap();
    assert_eq!(&state[..6], b"LXST\x02\x00");
    assert_eq!(&state[6..10], &9u32.to_le_bytes());
    assert_eq!(&state[10..14], &0xcbf4_3926u32.to_le_bytes());
    assert_eq!(state.len(), STATE_HEADER_SIZE + 9);
    assert_eq!(state_payload(&state).unwrap(), b"123456789");
}

#[test]
fn corrupt_states_are_refused() {
    let mut state = frame_state(&[1, 2, 3, 4]).unwrap();
    *state.last_mut().unwrap() ^= 1;
    assert_eq!(state_payload(&state), Err(Error::InvalidSaveState("checksum mismatch".to_owned())));
    assert_eq!(state_payload(b"LXST"), Err(Error::InvalidSaveState("invalid header".to_owned())));
    let mut other = frame_state(&[]).unwrap();
    other[0] = b'X';
    assert_eq!(state_payload(&other), Err(Error::InvalidSaveState("invalid header".to_owned())));
    let mut newer = frame_state(&[7]).unwrap();
    newer[4] = 13;
    assert_eq!(state_payload(&newer), Err(Error::InvalidSaveState("unsupported version 13".to_owned())));
    let mut short = frame_state(&[7, 8]).unwrap();
    short.pop();
    assert_eq!(state_payload(&short), Err(Error::InvalidSaveState("invalid payload length".to_owned())));
}
