use vstd::prelude::*;

verus! {

/// Frames a key must be held before the firmware starts repeating it.
pub const REPEAT_DELAY_FRAMES: u32 = 12;

/// Frames between two repeated deliveries of a held key.
pub const REPEAT_RATE_FRAMES: u32 = 5;

/// Position and button state of the touch pointer.
#[derive(Debug, Clone, Copy, Default, PartialEq, Eq)]
pub struct PointerState {
    pub x: i16,
    pub y: i16,
    pub pressed: bool,
}

/// The abstract state of the keyboard: the set of held keys, the queue of
/// key presses not yet consumed by the guest, the pointer and the phase of
/// the auto-repeat pump.
#[verifier::ext_equal]
pub struct InputView {
    pub pressed: Set<u8>,
    pub queued: Seq<u8>,
    pub pointer: Option<PointerState>,
    pub repeat_phase: u32,
}

/// The keys of `keys` below `n`, in ascending order.
pub open spec fn keys_below(keys: Set<u8>, n: nat) -> Seq<u8>
    decreases n,
{
    if n == 0 {
        seq![]
    } else {
        let k = (n - 1) as u8;
        keys_below(keys, (n - 1) as nat) + if keys.contains(k) {
            seq![k]
        } else {
            seq![]
        }
    }
}

/// The key codes held in `keys`, in ascending order (key codes are 7-bit).
pub open spec fn ascending_keys(keys: Set<u8>) -> Seq<u8> {
    keys_below(keys, 128)
}

/// The set of 7-bit key codes that a list of key bytes names.
pub open spec fn key_set(keys: Seq<u8>) -> Set<u8> {
    Set::new(|k: u8| exists|i: int| 0 <= i < keys.len() && #[trigger] (keys[i] & 0x7f) == k)
}

/// True when `key` sits at `index` and at no earlier position of `queue`.
pub open spec fn is_first_index(queue: Seq<u8>, key: u8, index: int) -> bool {
    &&& 0 <= index < queue.len()
    &&& queue[index] == key
    &&& forall|j: int| 0 <= j < index ==> queue[j] != key
}

/// The smallest key of a non-empty set of 7-bit keys.
pub open spec fn is_least_key(keys: Set<u8>, key: u8) -> bool {
    &&& keys.contains(key)
    &&& forall|k: u8| k < key ==> !keys.contains(k)
}

impl InputView {
    /// A key changes state: a new press is queued and restarts the repeat phase,
    /// a release of a held key restarts it too.
    pub open spec fn set_key(self, key: u8, pressed: bool) -> InputView {
        let key = key & 0x7f;
        if pressed {
            if !self.pressed.contains(key) {
                InputView {
                    pressed: self.pressed.insert(key),
                    queued: self.queued.push(key),
                    repeat_phase: 0,
                    ..self
                }
            } else {
                self
            }
        } else {
            if self.pressed.contains(key) {
                InputView { pressed: self.pressed.remove(key), repeat_phase: 0, ..self }
            } else {
                self
            }
        }
    }

    /// The held set is replaced; keys that were not held before are queued in
    /// ascending order; any change restarts the repeat phase.
    pub open spec fn set_keys(self, keys: Seq<u8>) -> InputView {
        let next = key_set(keys);
        InputView {
            pressed: next,
            queued: self.queued + ascending_keys(next.difference(self.pressed)),
            repeat_phase: if next == self.pressed {
                self.repeat_phase
            } else {
                0
            },
            ..self
        }
    }

    /// One frame of the auto-repeat pump.
    pub open spec fn tick_repeat(self) -> InputView {
        if self.pressed.is_empty() {
            InputView { repeat_phase: 0, ..self }
        } else {
            let phase = if self.repeat_phase == u32::MAX {
                u32::MAX
            } else {
                (self.repeat_phase + 1) as u32
            };
            let fires = phase >= REPEAT_DELAY_FRAMES && (phase - REPEAT_DELAY_FRAMES)
                % (REPEAT_RATE_FRAMES as int) == 0;
            InputView {
                repeat_phase: phase,
                queued: if fires {
                    self.queued + ascending_keys(self.pressed)
                } else {
                    self.queued
                },
                ..self
            }
        }
    }
}

/// Keyboard and pointer state fed by the host and consumed by the guest.
#[derive(Debug, Clone)]
pub struct InputState {
    pressed: Vec<bool>,
    queued: Vec<u8>,
    pointer: Option<PointerState>,
    repeat_phase: u32,
}

impl View for InputState {
    type V = InputView;

    closed spec fn view(&self) -> InputView {
        InputView {
            pressed: Set::new(|k: u8| k < 128 && k < self.pressed@.len() && self.pressed@[k as int]),
            queued: self.queued@,
            pointer: self.pointer,
            repeat_phase: self.repeat_phase,
        }
    }
}

impl Default for InputState {
    fn default() -> (input: InputState)
        ensures
            input.wf(),
            input@.pressed.is_empty(),
            input@.queued.len() == 0,
            input@.pointer is None,
            input@.repeat_phase == 0,
    {
        let input = InputState {
            pressed: vec![false; 128],
            queued: Vec::new(),
            pointer: None,
            repeat_phase: 0,
        };
        assert(input@.pressed =~= Set::empty());
        input
    }
}

proof fn lemma_keys_below_step(keys: Set<u8>, n: nat)
    ensures
        keys_below(keys, n + 1) == keys_below(keys, n) + if keys.contains(n as u8) {
            seq![n as u8]
        } else {
            seq![]
        },
{
}

impl InputState {
    /// Internal shape: one flag per 7-bit key code.
    pub closed spec fn wf(&self) -> bool {
        self.pressed@.len() == 128
    }

    /// Press or release one key; a new press is queued once.
    pub fn set_key(&mut self, key: u8, pressed: bool)
        requires
            old(self).wf(),
        ensures
            final(self).wf(),
            final(self)@ == old(self)@.set_key(key, pressed),
    {
        let raw = key;
        let key = raw & 0x7f;
        assert(key < 128) by (bit_vector)
            requires
                key == raw & 0x7f,
        ;
        if pressed {
            if !self.pressed[key as usize] {
                self.pressed.set(key as usize, true);
                self.queued.push(key);
                self.repeat_phase = 0;
                assert(self@.pressed =~= old(self)@.pressed.insert(key));
            }
        } else {
            if self.pressed[key as usize] {
                self.pressed.set(key as usize, false);
                self.repeat_phase = 0;
                assert(self@.pressed =~= old(self)@.pressed.remove(key));
            }
        }
    }

    /// Replace the set of held keys; keys that were not held before are
    /// queued in ascending order.
    pub fn set_keys(&mut self, keys: &[u8])
        requires
            old(self).wf(),
        ensures
            final(self).wf(),
            final(self)@ == old(self)@.set_keys(keys@),
    {
        let mut next: Vec<bool> = vec![false; 128];
        let mut i: usize = 0;
        while i < keys.len()
            invariant
                i <= keys@.len(),
                next@.len() == 128,
                forall|k: u8|
                    k < 128 ==> (next@[k as int] <==> key_set(keys@.subrange(0, i as int)).contains(k)),
            decreases keys@.len() - i,
        {
            let raw = keys[i];
            let k = raw & 0x7f;
            assert(k < 128) by (bit_vector)
                requires
                    k == raw & 0x7f,
            ;
            next.set(k as usize, true);
            proof {
                let before = keys@.subrange(0, i as int);
                let after = keys@.subrange(0, i + 1);
                assert forall|c: u8| c < 128 implies (next@[c as int] <==> key_set(after).contains(c)) by {
                    if key_set(before).contains(c) {
                        let j = choose|j: int| 0 <= j < before.len() && #[trigger] (before[j] & 0x7f) == c;
                        assert(after[j] == before[j]);
                    }
                    if key_set(after).contains(c) {
                        let j = choose|j: int| 0 <= j < after.len() && #[trigger] (after[j] & 0x7f) == c;
                        if j < i {
                            assert(before[j] == after[j]);
                        }
                    }
                    if c == k {
                        assert(after[i as int] == raw);
                    }
                }
            }
            i += 1;
        }
        assert(keys@.subrange(0, keys@.len() as int) =~= keys@);
        let ghost next_set = key_set(keys@);
        proof {
            assert forall|c: u8| #[trigger] next_set.contains(c) implies c < 128 by {
                let j = choose|j: int| 0 <= j < keys@.len() && #[trigger] (keys@[j] & 0x7f) == c;
                let b = keys@[j];
                assert(b & 0x7f < 128) by (bit_vector);
            }
        }
        let ghost old_view = self@;
        let ghost diff = next_set.difference(old_view.pressed);
        let mut changed = false;
        let mut k: usize = 0;
        while k < 128
            invariant
                k <= 128,
                self.wf(),
                next@.len() == 128,
                self.pressed@ == old(self).pressed@,
                self@.pressed == old_view.pressed,
                self@.pointer == old_view.pointer,
                self@.repeat_phase == old_view.repeat_phase,
                forall|c: u8| c < 128 ==> (next@[c as int] <==> next_set.contains(c)),
                forall|c: u8| #[trigger] next_set.contains(c) ==> c < 128,
                diff == next_set.difference(old_view.pressed),
                self@.queued == old_view.queued + keys_below(diff, k as nat),
                changed <==> exists|j: int| 0 <= j < k && next@[j] != self.pressed@[j],
            decreases 128 - k,
        {
            proof {
                lemma_keys_below_step(diff, k as nat);
            }
            let fresh = next[k] && !self.pressed[k];
            assert(fresh <==> diff.contains(k as u8));
            if fresh {
                self.queued.push(k as u8);
            }
            if next[k] != self.pressed[k] {
                changed = true;
            }
            assert(self@.queued =~= old_view.queued + keys_below(diff, (k + 1) as nat));
            k += 1;
        }
        proof {
            if changed {
                let j = choose|j: int| 0 <= j < 128 && next@[j] != self.pressed@[j];
                let c = j as u8;
                assert(next_set.contains(c) != old_view.pressed.contains(c));
            } else {
                assert(next_set =~= old_view.pressed);
            }
        }
        self.pressed = next;
        if changed {
            self.repeat_phase = 0;
        }
        assert(self@.pressed =~= next_set);
        assert(self@ =~= old_view.set_keys(keys@));
    }

    fn any_pressed(&self) -> (any: bool)
        requires
            self.wf(),
        ensures
            any == !self@.pressed.is_empty(),
    {
        let mut k: usize = 0;
        while k < 128
            invariant
                self.wf(),
                k <= 128,
                forall|j: int| 0 <= j < k ==> !self.pressed@[j],
            decreases 128 - k,
        {
            if self.pressed[k] {
                assert(self@.pressed.contains(k as u8));
                return true;
            }
            k += 1;
        }
        assert(self@.pressed =~= Set::empty());
        false
    }

    /// Auto-repeat pump, called once per emulated frame: while keys are held,
    /// they are delivered again like the firmware does.
    pub fn tick_repeat(&mut self)
        requires
            old(self).wf(),
        ensures
            final(self).wf(),
            final(self)@ == old(self)@.tick_repeat(),
    {
        if !self.any_pressed() {
            self.repeat_phase = 0;
            assert(self@ =~= old(self)@.tick_repeat());
            return;
        }
        self.repeat_phase = self.repeat_phase.saturating_add(1);
        if self.repeat_phase >= REPEAT_DELAY_FRAMES && (self.repeat_phase - REPEAT_DELAY_FRAMES)
            % REPEAT_RATE_FRAMES == 0 {
            let ghost before = self@;
            let mut k: usize = 0;
            while k < 128
                invariant
                    k <= 128,
                    self.wf(),
                    self.pressed@ == old(self).pressed@,
                    self@.pressed == before.pressed,
                    self@.pointer == before.pointer,
                    self@.repeat_phase == before.repeat_phase,
                    self@.queued == before.queued + keys_below(before.pressed, k as nat),
                decreases 128 - k,
            {
                proof {
                    lemma_keys_below_step(before.pressed, k as nat);
                }
                if self.pressed[k] {
                    self.queued.push(k as u8);
                }
                assert(self@.queued =~= before.queued + keys_below(before.pressed, (k + 1) as nat));
                k += 1;
            }
        }
        assert(self@ =~= old(self)@.tick_repeat());
    }

    /// Remove the oldest queued press of `key`, if one is queued.
    pub fn drain_key(&mut self, key: u8) -> (found: bool)
        requires
            old(self).wf(),
        ensures
            final(self).wf(),
            found == old(self)@.queued.contains(key),
            !found ==> final(self)@ == old(self)@,
            found ==> exists|i: int|
                is_first_index(old(self)@.queued, key, i) && final(self)@ == (InputView {
                    queued: old(self)@.queued.remove(i),
                    ..old(self)@
                }),
    {
        let mut i: usize = 0;
        while i < self.queued.len()
            invariant
                self.wf(),
                self@ == old(self)@,
                i <= self.queued@.len(),
                forall|j: int| 0 <= j < i ==> self.queued@[j] != key,
            decreases self.queued@.len() - i,
        {
            if self.queued[i] == key {
                let ghost q = self.queued@;
                self.queued.remove(i);
                assert(is_first_index(q, key, i as int));
                assert(self@ =~= (InputView { queued: q.remove(i as int), ..old(self)@ }));
                return true;
            }
            i += 1;
        }
        assert(!self.queued@.contains(key));
        false
    }

    /// Pop the oldest queued press, whatever key it is.
    pub fn pop_any_key(&mut self) -> (key: Option<u8>)
        requires
            old(self).wf(),
        ensures
            final(self).wf(),
            old(self)@.queued.len() == 0 ==> key is None && final(self)@ == old(self)@,
            old(self)@.queued.len() > 0 ==> key == Some(old(self)@.queued[0]) && final(self)@ == (
            InputView { queued: old(self)@.queued.drop_first(), ..old(self)@ }),
    {
        self.pop_key()
    }

    /// True when `key` (taken as a 7-bit code) is held.
    pub fn is_pressed(&self, key: u8) -> (held: bool)
        requires
            self.wf(),
        ensures
            held == self@.pressed.contains(key & 0x7f),
    {
        let raw = key;
        let k = raw & 0x7f;
        assert(k < 128) by (bit_vector)
            requires
                k == raw & 0x7f,
        ;
        self.pressed[k as usize]
    }

    /// The smallest held key code.
    pub fn first_pressed(&self) -> (first: Option<u8>)
        requires
            self.wf(),
        ensures
            first is None <==> self@.pressed.is_empty(),
            first matches Some(k) ==> is_least_key(self@.pressed, k),
    {
        let mut k: usize = 0;
        while k < 128
            invariant
                self.wf(),
                k <= 128,
                forall|j: int| 0 <= j < k ==> !self.pressed@[j],
            decreases 128 - k,
        {
            if self.pressed[k] {
                assert(self@.pressed.contains(k as u8));
                return Some(k as u8);
            }
            k += 1;
        }
        assert(self@.pressed =~= Set::empty());
        None
    }

    /// Pop the oldest queued key press.
    pub fn pop_key(&mut self) -> (key: Option<u8>)
        requires
            old(self).wf(),
        ensures
            final(self).wf(),
            old(self)@.queued.len() == 0 ==> key is None && final(self)@ == old(self)@,
            old(self)@.queued.len() > 0 ==> key == Some(old(self)@.queued[0]) && final(self)@ == (
            InputView { queued: old(self)@.queued.drop_first(), ..old(self)@ }),
    {
        if self.queued.len() == 0 {
            None
        } else {
            let key = self.queued.remove(0);
            assert(self@ =~= (InputView { queued: old(self)@.queued.drop_first(), ..old(self)@ }));
            Some(key)
        }
    }

    /// Release one key (taken as a 7-bit code); the queue is left as it is.
    pub fn release(&mut self, key: u8)
        requires
            old(self).wf(),
        ensures
            final(self).wf(),
            final(self)@ == (InputView {
                pressed: old(self)@.pressed.remove(key & 0x7f),
                ..old(self)@
            }),
    {
        let raw = key;
        let k = raw & 0x7f;
        assert(k < 128) by (bit_vector)
            requires
                k == raw & 0x7f,
        ;
        self.pressed.set(k as usize, false);
        assert(self@ =~= (InputView { pressed: old(self)@.pressed.remove(k), ..old(self)@ }));
    }

    /// Release every key and forget every queued press.
    pub fn release_all(&mut self)
        requires
            old(self).wf(),
        ensures
            final(self).wf(),
            final(self)@ == (InputView {
                pressed: Set::<u8>::empty(),
                queued: Seq::<u8>::empty(),
                ..old(self)@
            }),
    {
        self.pressed = vec![false; 128];
        self.queued = Vec::new();
        assert(self@ =~= (InputView {
            pressed: Set::<u8>::empty(),
            queued: Seq::<u8>::empty(),
            ..old(self)@
        }));
    }

    /// Set or clear the pointer.
    pub fn set_pointer(&mut self, pointer: Option<PointerState>)
        requires
            old(self).wf(),
        ensures
            final(self).wf(),
            final(self)@ == (InputView { pointer, ..old(self)@ }),
    {
        self.pointer = pointer;
        assert(self@ =~= (InputView { pointer, ..old(self)@ }));
    }

    /// The pointer, if one is present.
    pub fn pointer(&self) -> (pointer: Option<PointerState>)
        ensures
            pointer == self@.pointer,
    {
        self.pointer
    }
}


proof fn lemma_keys_below_empty(n: nat)
    ensures
        keys_below(Set::<u8>::empty(), n) == Seq::<u8>::empty(),
    decreases n,
{
    if n > 0 {
        lemma_keys_below_empty((n - 1) as nat);
    }
}

/// Only new presses are queued: setting the same key list twice is the
/// same as setting it once.
pub proof fn law_set_keys_twice(s: InputView, keys: Seq<u8>)
    ensures
        s.set_keys(keys).set_keys(keys) == s.set_keys(keys),
{
    let t = s.set_keys(keys);
    assert(key_set(keys).difference(t.pressed) =~= Set::<u8>::empty());
    lemma_keys_below_empty(128);
    assert(t.queued + ascending_keys(Set::<u8>::empty()) =~= t.queued);
}

/// Pressing a key that is already held queues nothing.
pub proof fn law_press_held_key(s: InputView, key: u8)
    ensures
        s.set_key(key, true).set_key(key, true) == s.set_key(key, true),
{
}


/// A frontend's analog pointer coordinate (-32768 at one edge to 32767 at
/// the other) as a coordinate on a screen `extent` pixels wide, clamped to
/// the last pixel.
pub open spec fn spec_scaled_pointer(value: i16, extent: u16) -> i16 {
    let scaled = (value + 32768) * extent / 65536;
    let last = if extent == 0 {
        0
    } else {
        extent - 1
    };
    (if scaled > last {
        last
    } else {
        scaled
    }) as i16
}

/// The pointer of a frontend that reports analog coordinates: none while
/// it is released at the centre, else the scaled position.
pub fn pointer_from_analog(pressed: bool, raw_x: i16, raw_y: i16, width: u16, height: u16) -> (pointer: Option<
    PointerState,
>)
    requires
        width <= 32768,
        height <= 32768,
    ensures
        pointer == if !pressed && raw_x == 0 && raw_y == 0 {
            None::<PointerState>
        } else {
            Some(
                PointerState {
                    x: spec_scaled_pointer(raw_x, width),
                    y: spec_scaled_pointer(raw_y, height),
                    pressed,
                },
            )
        },
{
    if !pressed && raw_x == 0 && raw_y == 0 {
        return None;
    }
    Some(PointerState { x: scale_pointer(raw_x, width), y: scale_pointer(raw_y, height), pressed })
}

fn scale_pointer(value: i16, extent: u16) -> (c: i16)
    requires
        extent <= 32768,
    ensures
        c == spec_scaled_pointer(value, extent),
{
    let normalized: i32 = value as i32 + 32768;
    assert(0 <= normalized * (extent as i32) <= 65535 * 32768) by (nonlinear_arith)
        requires
            0 <= normalized <= 65535,
            0 <= extent <= 32768,
    ;
    let scaled: i32 = normalized * (extent as i32) / 65536;
    let last: i32 = if extent == 0 { 0 } else { extent as i32 - 1 };
    (if scaled > last { last } else { scaled }) as i16
}


/// The input after `n` frames of the auto-repeat pump.
pub open spec fn ticks(s: InputView, n: nat) -> InputView
    decreases n,
{
    if n == 0 {
        s
    } else {
        ticks(s, (n - 1) as nat).tick_repeat()
    }
}

/// `keys` written `k` times in a row.
pub open spec fn repeated(keys: Seq<u8>, k: nat) -> Seq<u8>
    decreases k,
{
    if k == 0 {
        seq![]
    } else {
        repeated(keys, (k - 1) as nat) + keys
    }
}

/// How many times held keys have repeated `n` frames after a new press:
/// first after `REPEAT_DELAY_FRAMES` frames, then every `REPEAT_RATE_FRAMES`.
pub open spec fn repeat_count(n: nat) -> nat {
    if n < 12 {
        0
    } else {
        (1 + (n - 12) / 5) as nat
    }
}

/// Held keys repeat 12 frames after a new press and every 5 frames after
/// that, all held keys in ascending order each time; nothing else changes
/// while no key changes.
pub proof fn law_repeat_schedule(s: InputView, n: nat)
    requires
        !s.pressed.is_empty(),
        s.repeat_phase == 0,
        n < u32::MAX,
    ensures
        ticks(s, n).queued == s.queued + repeated(ascending_keys(s.pressed), repeat_count(n)),
        ticks(s, n).pressed == s.pressed,
        ticks(s, n).pointer == s.pointer,
        ticks(s, n).repeat_phase == n,
    decreases n,
{
    if n > 0 {
        law_repeat_schedule(s, (n - 1) as nat);
        let m = (n - 1) as nat;
        let prev = ticks(s, m);
        let keys = ascending_keys(s.pressed);
        assert(prev.pressed == s.pressed);
        let fires = n >= 12 && (n - 12) % 5 == 0;
        assert(ticks(s, n).queued == if fires {
            prev.queued + keys
        } else {
            prev.queued
        });
        if n >= 12 {
            if n == 12 {
                assert(repeat_count(n) == 1);
            } else {
                vstd::arithmetic::div_mod::lemma_fundamental_div_mod(n - 12, 5);
                vstd::arithmetic::div_mod::lemma_fundamental_div_mod(m - 12, 5);
                assert(repeat_count(n) == repeat_count(m) + if fires { 1nat } else { 0nat });
            }
        }
        assert(repeated(keys, repeat_count(m) + 1) == repeated(keys, repeat_count(m)) + keys);
        assert(s.queued + repeated(keys, repeat_count(m)) + keys =~= s.queued + (repeated(keys, repeat_count(m))
            + keys));
    }
}

/// With no key held, the pump never queues anything.
pub proof fn law_no_repeat_without_keys(s: InputView, n: nat)
    requires
        s.pressed.is_empty(),
    ensures
        ticks(s, n).queued == s.queued,
        ticks(s, n).pressed == s.pressed,
    decreases n,
{
    if n > 0 {
        law_no_repeat_without_keys(s, (n - 1) as nat);
    }
}

} // verus!
