//! How a callback is struck on an emulated keyboard: the keyboard events, in
//! batches, and the pauses between them.
use vstd::prelude::*;

use crate::keyfile::{Callback, CallbackView};
use crate::keys::{Key, Modifier};

verus! {

/// Why simulating input failed.
#[derive(Debug, Clone, PartialEq, Eq, Hash)]
pub enum InputError {
    /// There was an error with the protocol
    Simulate(&'static str),
    /// The input you want to simulate is invalid
    InvalidInput(&'static str),
}

/// Which way a key goes.
#[derive(Debug, Clone, Copy, PartialEq, Eq, Structural)]
pub enum Direction {
    Press,
    Release,
    Click,
}

/// One keyboard event, given by scan code: the key goes down, or up.
#[derive(Debug, Clone, Copy, PartialEq, Eq, Structural)]
pub struct KeyStroke {
    pub scan: u16,
    /// The scan code is one of the extended keys.
    pub extended: bool,
    pub key_up: bool,
}

/// A step of striking keys: a batch of events that is sent at once, or a
/// pause of some milliseconds.
#[derive(Debug)]
pub enum InputStep {
    Send(Vec<KeyStroke>),
    Sleep(u64),
}

/// A step, as plain values.
pub enum InputStepView {
    Send(Seq<KeyStroke>),
    Sleep(u64),
}

impl View for InputStep {
    type V = InputStepView;

    open spec fn view(&self) -> InputStepView {
        match self {
            InputStep::Send(v) => InputStepView::Send(v@),
            InputStep::Sleep(ms) => InputStepView::Sleep(*ms),
        }
    }
}

/// The scan code of a modifier key.
pub open spec fn modifier_scan_code(m: Modifier) -> u16 {
    match m {
        Modifier::LSHIFT => 0x2A,
        Modifier::LCONTROL => 0x1D,
        Modifier::LALT => 0x38,
    }
}

/// The scan code of a modifier key.
pub fn to_key(m: &Modifier) -> (scan: u16)
    ensures
        scan == modifier_scan_code(*m),
{
    match m {
        Modifier::LSHIFT => 0x2A,
        Modifier::LCONTROL => 0x1D,
        Modifier::LALT => 0x38,
    }
}

/// Whether `key` is struck as an extended key: only the numpad's enter key is.
pub fn is_extended_key(key: Key) -> (r: bool)
    ensures
        r == (key == Key::NumpadEnter),
{
    key == Key::NumpadEnter
}

/// The events that move the key `scan` the way `direction` says: down for a
/// press, up for a release, down then up for a click.
pub open spec fn raw_events(scan: u16, direction: Direction, extended: bool) -> Seq<KeyStroke> {
    (if direction == Direction::Click || direction == Direction::Press {
        seq![KeyStroke { scan, extended, key_up: false }]
    } else {
        seq![]
    }) + (if direction == Direction::Click || direction == Direction::Release {
        seq![KeyStroke { scan, extended, key_up: true }]
    } else {
        seq![]
    })
}

/// The batch of events that moves the key `scan` the way `direction` says.
pub fn raw(scan: u16, direction: Direction, extended: bool) -> (input: Vec<KeyStroke>)
    ensures
        input@ == raw_events(scan, direction, extended),
{
    let mut input: Vec<KeyStroke> = Vec::new();
    if direction == Direction::Click || direction == Direction::Press {
        input.push(KeyStroke { scan, extended, key_up: false });
    }
    if direction == Direction::Click || direction == Direction::Release {
        input.push(KeyStroke { scan, extended, key_up: true });
    }
    assert(input@ =~= raw_events(scan, direction, extended));
    input
}

/// The steps that press (or release) each modifier of `modifiers`, in order.
pub open spec fn modifier_steps(modifiers: Seq<Modifier>, direction: Direction) -> Seq<
    InputStepView,
> {
    modifiers.map_values(
        |m: Modifier| InputStepView::Send(raw_events(modifier_scan_code(m), direction, false)),
    )
}

/// Striking the key `scan` with `modifiers` held: each modifier is pressed,
/// in order; a pause of 10 ms; the key is clicked (as an extended key where
/// `key` is one); each modifier is released, in reverse order.
pub open spec fn key_steps(modifiers: Seq<Modifier>, scan: u16, key: Key) -> Seq<InputStepView> {
    modifier_steps(modifiers, Direction::Press) + seq![
        InputStepView::Sleep(10),
        InputStepView::Send(raw_events(scan, Direction::Click, key == Key::NumpadEnter)),
    ] + modifier_steps(modifiers.reverse(), Direction::Release)
}

/// Striking a callback's keys: where it has a combo key, that key is struck
/// first with its modifiers, then a pause of 30 ms; then its key is struck
/// with its modifiers.
pub open spec fn callback_steps(c: CallbackView) -> Seq<InputStepView> {
    (if c.combo_key_code != 0 {
        key_steps(c.combo_modifiers, c.combo_key_code, c.readable_combo_key_code) + seq![
            InputStepView::Sleep(30),
        ]
    } else {
        seq![]
    }) + key_steps(c.modifiers, c.key_code, c.readable_key_code)
}

/// The events of the batches among `steps`, in order.
pub open spec fn events_of(steps: Seq<InputStepView>) -> Seq<KeyStroke>
    decreases steps.len(),
{
    if steps.len() == 0 {
        seq![]
    } else {
        events_of(steps.drop_last()) + match steps.last() {
            InputStepView::Send(batch) => batch,
            InputStepView::Sleep(_) => seq![],
        }
    }
}

/// How many more times the key `scan` goes down than up in `events`.
pub open spec fn net_presses(events: Seq<KeyStroke>, scan: u16) -> int
    decreases events.len(),
{
    if events.len() == 0 {
        0
    } else {
        net_presses(events.drop_last(), scan) + if events.last().scan != scan {
            0int
        } else if events.last().key_up {
            -1int
        } else {
            1int
        }
    }
}

/// How many of `modifiers` have the scan code `scan`.
pub open spec fn modifier_count(modifiers: Seq<Modifier>, scan: u16) -> int
    decreases modifiers.len(),
{
    if modifiers.len() == 0 {
        0
    } else {
        modifier_count(modifiers.drop_last(), scan) + if modifier_scan_code(modifiers.last())
            == scan {
            1int
        } else {
            0int
        }
    }
}

proof fn lemma_events_of_concat(a: Seq<InputStepView>, b: Seq<InputStepView>)
    ensures
        events_of(a + b) == events_of(a) + events_of(b),
    decreases b.len(),
{
    if b.len() == 0 {
        assert(a + b =~= a);
        assert(events_of(a) + events_of(b) =~= events_of(a));
    } else {
        lemma_events_of_concat(a, b.drop_last());
        assert((a + b).drop_last() =~= a + b.drop_last());
        let tail = match b.last() {
            InputStepView::Send(batch) => batch,
            InputStepView::Sleep(_) => seq![],
        };
        assert(events_of(a) + events_of(b.drop_last()) + tail =~= events_of(a) + (events_of(
            b.drop_last(),
        ) + tail));
    }
}

proof fn lemma_net_presses_concat(x: Seq<KeyStroke>, y: Seq<KeyStroke>, scan: u16)
    ensures
        net_presses(x + y, scan) == net_presses(x, scan) + net_presses(y, scan),
    decreases y.len(),
{
    if y.len() == 0 {
        assert(x + y =~= x);
    } else {
        lemma_net_presses_concat(x, y.drop_last(), scan);
        assert((x + y).drop_last() =~= x + y.drop_last());
    }
}

proof fn lemma_modifier_count_concat(a: Seq<Modifier>, b: Seq<Modifier>, scan: u16)
    ensures
        modifier_count(a + b, scan) == modifier_count(a, scan) + modifier_count(b, scan),
    decreases b.len(),
{
    if b.len() == 0 {
        assert(a + b =~= a);
    } else {
        lemma_modifier_count_concat(a, b.drop_last(), scan);
        assert((a + b).drop_last() =~= a + b.drop_last());
    }
}

proof fn lemma_modifier_count_reverse(m: Seq<Modifier>, scan: u16)
    ensures
        modifier_count(m.reverse(), scan) == modifier_count(m, scan),
    decreases m.len(),
{
    if m.len() > 0 {
        lemma_modifier_count_reverse(m.drop_last(), scan);
        assert(m.reverse() =~= seq![m.last()] + m.drop_last().reverse());
        lemma_modifier_count_concat(seq![m.last()], m.drop_last().reverse(), scan);
        assert(seq![m.last()].drop_last() =~= Seq::<Modifier>::empty());
        assert(modifier_count(seq![m.last()], scan) == modifier_count(Seq::<Modifier>::empty(), scan) + if modifier_scan_code(m.last()) == scan {
            1int
        } else {
            0int
        });
    } else {
        assert(m.reverse() =~= m);
    }
}

proof fn lemma_modifier_steps_net(m: Seq<Modifier>, direction: Direction, scan: u16)
    requires
        direction == Direction::Press || direction == Direction::Release,
    ensures
        net_presses(events_of(modifier_steps(m, direction)), scan) == if direction
            == Direction::Press {
            modifier_count(m, scan)
        } else {
            -modifier_count(m, scan)
        },
    decreases m.len(),
{
    if m.len() > 0 {
        lemma_modifier_steps_net(m.drop_last(), direction, scan);
        let batch = raw_events(modifier_scan_code(m.last()), direction, false);
        assert(modifier_steps(m, direction) =~= modifier_steps(m.drop_last(), direction).push(
            InputStepView::Send(batch),
        ));
        let prefix = modifier_steps(m.drop_last(), direction);
        assert(events_of(prefix.push(InputStepView::Send(batch))) == events_of(prefix) + batch) by {
            assert(prefix.push(InputStepView::Send(batch)).drop_last() =~= prefix);
        }
        lemma_net_presses_concat(events_of(prefix), batch, scan);
        assert(batch.len() == 1);
        assert(batch.drop_last() =~= Seq::<KeyStroke>::empty());
        assert(net_presses(batch, scan) == net_presses(Seq::<KeyStroke>::empty(), scan) + if batch.last().scan != scan {
            0int
        } else if batch.last().key_up {
            -1int
        } else {
            1int
        });
    } else {
        assert(modifier_steps(m, direction) =~= Seq::<InputStepView>::empty());
        assert(events_of(Seq::<InputStepView>::empty()) =~= Seq::<KeyStroke>::empty());
    }
}

proof fn lemma_key_steps_net(modifiers: Seq<Modifier>, scan: u16, key: Key, probe: u16)
    ensures
        net_presses(events_of(key_steps(modifiers, scan, key)), probe) == 0,
{
    let press = modifier_steps(modifiers, Direction::Press);
    let click = raw_events(scan, Direction::Click, key == Key::NumpadEnter);
    let middle = seq![InputStepView::Sleep(10), InputStepView::Send(click)];
    let release = modifier_steps(modifiers.reverse(), Direction::Release);
    lemma_events_of_concat(press, middle);
    lemma_events_of_concat(press + middle, release);
    assert(events_of(middle) =~= click) by {
        let one = seq![InputStepView::Sleep(10)];
        assert(middle.drop_last() =~= one);
        assert(one.drop_last() =~= Seq::<InputStepView>::empty());
        assert(events_of(Seq::<InputStepView>::empty()) =~= Seq::<KeyStroke>::empty());
        assert(events_of(one) =~= Seq::<KeyStroke>::empty());
        assert(events_of(middle) =~= events_of(one) + click);
    }
    assert(net_presses(click, probe) == 0) by {
        let ext = key == Key::NumpadEnter;
        assert(click =~= seq![
            KeyStroke { scan, extended: ext, key_up: false },
            KeyStroke { scan, extended: ext, key_up: true },
        ]);
        let down = click.drop_last();
        assert(down =~= seq![KeyStroke { scan, extended: ext, key_up: false }]);
        assert(down.last() == KeyStroke { scan, extended: ext, key_up: false });
        assert(net_presses(Seq::<KeyStroke>::empty(), probe) == 0);
        assert(down.drop_last() =~= Seq::<KeyStroke>::empty());
        assert(net_presses(down, probe) == if scan == probe {
            1int
        } else {
            0int
        });
    }
    lemma_net_presses_concat(events_of(press), events_of(middle), probe);
    lemma_net_presses_concat(events_of(press + middle), events_of(release), probe);
    lemma_modifier_steps_net(modifiers, Direction::Press, probe);
    lemma_modifier_steps_net(modifiers.reverse(), Direction::Release, probe);
    lemma_modifier_count_reverse(modifiers, probe);
}

/// Every key that the strokes of a callback press is released again.
pub proof fn lemma_callback_releases_every_key(c: CallbackView, scan: u16)
    ensures
        net_presses(events_of(callback_steps(c)), scan) == 0,
{
    let main = key_steps(c.modifiers, c.key_code, c.readable_key_code);
    lemma_key_steps_net(c.modifiers, c.key_code, c.readable_key_code, scan);
    if c.combo_key_code != 0 {
        let combo = key_steps(c.combo_modifiers, c.combo_key_code, c.readable_combo_key_code);
        lemma_key_steps_net(c.combo_modifiers, c.combo_key_code, c.readable_combo_key_code, scan);
        let pause = seq![InputStepView::Sleep(30)];
        let first = combo + pause;
        lemma_events_of_concat(combo, pause);
        assert(pause.drop_last() =~= Seq::<InputStepView>::empty());
        assert(events_of(Seq::<InputStepView>::empty()) =~= Seq::<KeyStroke>::empty());
        assert(events_of(pause) =~= Seq::<KeyStroke>::empty());
        assert(callback_steps(c) =~= first + main);
        lemma_events_of_concat(first, main);
        lemma_net_presses_concat(events_of(combo), events_of(seq![InputStepView::Sleep(30)]), scan);
        lemma_net_presses_concat(events_of(first), events_of(main), scan);
    } else {
        assert(callback_steps(c) =~= main);
    }
}

/// The events that move each modifier of `modifiers`, in order: down for
/// `key_up` unset, up otherwise.
pub open spec fn modifier_events(modifiers: Seq<Modifier>, key_up: bool) -> Seq<KeyStroke> {
    modifiers.map_values(
        |m: Modifier| KeyStroke { scan: modifier_scan_code(m), extended: false, key_up },
    )
}

/// The events of striking the key `scan` with `modifiers` held: the
/// modifiers go down in order, the key goes down and up (as an extended key
/// where `key` is the numpad's enter key), the modifiers go up in reverse
/// order.
pub open spec fn key_events(modifiers: Seq<Modifier>, scan: u16, key: Key) -> Seq<KeyStroke> {
    let extended = key == Key::NumpadEnter;
    modifier_events(modifiers, false) + seq![
        KeyStroke { scan, extended, key_up: false },
        KeyStroke { scan, extended, key_up: true },
    ] + modifier_events(modifiers.reverse(), true)
}

/// The events of striking a callback: those of its combo key, where it has
/// one, then those of its key.
pub open spec fn callback_events(c: CallbackView) -> Seq<KeyStroke> {
    (if c.combo_key_code != 0 {
        key_events(c.combo_modifiers, c.combo_key_code, c.readable_combo_key_code)
    } else {
        seq![]
    }) + key_events(c.modifiers, c.key_code, c.readable_key_code)
}

proof fn lemma_modifier_steps_events(m: Seq<Modifier>, direction: Direction)
    requires
        direction == Direction::Press || direction == Direction::Release,
    ensures
        events_of(modifier_steps(m, direction)) == modifier_events(m, direction == Direction::Release),
    decreases m.len(),
{
    let up = direction == Direction::Release;
    if m.len() > 0 {
        lemma_modifier_steps_events(m.drop_last(), direction);
        let batch = raw_events(modifier_scan_code(m.last()), direction, false);
        let prefix = modifier_steps(m.drop_last(), direction);
        assert(modifier_steps(m, direction) =~= prefix.push(InputStepView::Send(batch)));
        assert(prefix.push(InputStepView::Send(batch)).drop_last() =~= prefix);
        assert(batch =~= seq![KeyStroke { scan: modifier_scan_code(m.last()), extended: false, key_up: up }]);
        assert(modifier_events(m, up) =~= modifier_events(m.drop_last(), up) + batch);
    } else {
        assert(modifier_steps(m, direction) =~= Seq::<InputStepView>::empty());
        assert(events_of(Seq::<InputStepView>::empty()) =~= Seq::<KeyStroke>::empty());
        assert(modifier_events(m, up) =~= Seq::<KeyStroke>::empty());
    }
}

proof fn lemma_key_steps_events(modifiers: Seq<Modifier>, scan: u16, key: Key)
    ensures
        events_of(key_steps(modifiers, scan, key)) == key_events(modifiers, scan, key),
{
    let press = modifier_steps(modifiers, Direction::Press);
    let click = raw_events(scan, Direction::Click, key == Key::NumpadEnter);
    let middle = seq![InputStepView::Sleep(10), InputStepView::Send(click)];
    let release = modifier_steps(modifiers.reverse(), Direction::Release);
    lemma_events_of_concat(press, middle);
    lemma_events_of_concat(press + middle, release);
    assert(events_of(middle) =~= click) by {
        let one = seq![InputStepView::Sleep(10)];
        assert(middle.drop_last() =~= one);
        assert(one.drop_last() =~= Seq::<InputStepView>::empty());
        assert(events_of(Seq::<InputStepView>::empty()) =~= Seq::<KeyStroke>::empty());
        assert(events_of(one) =~= Seq::<KeyStroke>::empty());
        assert(events_of(middle) =~= events_of(one) + click);
    }
    lemma_modifier_steps_events(modifiers, Direction::Press);
    lemma_modifier_steps_events(modifiers.reverse(), Direction::Release);
    let ext = key == Key::NumpadEnter;
    assert(click =~= seq![
        KeyStroke { scan, extended: ext, key_up: false },
        KeyStroke { scan, extended: ext, key_up: true },
    ]);
    assert(key_steps(modifiers, scan, key) =~= press + middle + release);
}

/// The keyboard events that striking a callback sends, in order: the
/// combo's modifiers down, the combo key down and up, the combo's modifiers
/// up in reverse order (where there is a combo key), then the same for the
/// key.
pub proof fn lemma_callback_events(c: CallbackView)
    ensures
        events_of(callback_steps(c)) == callback_events(c),
{
    let main = key_steps(c.modifiers, c.key_code, c.readable_key_code);
    lemma_key_steps_events(c.modifiers, c.key_code, c.readable_key_code);
    if c.combo_key_code != 0 {
        let combo = key_steps(c.combo_modifiers, c.combo_key_code, c.readable_combo_key_code);
        lemma_key_steps_events(c.combo_modifiers, c.combo_key_code, c.readable_combo_key_code);
        let pause = seq![InputStepView::Sleep(30)];
        let first = combo + pause;
        lemma_events_of_concat(combo, pause);
        assert(pause.drop_last() =~= Seq::<InputStepView>::empty());
        assert(events_of(Seq::<InputStepView>::empty()) =~= Seq::<KeyStroke>::empty());
        assert(events_of(pause) =~= Seq::<KeyStroke>::empty());
        assert(callback_steps(c) =~= first + main);
        lemma_events_of_concat(first, main);
        assert(events_of(first) =~= events_of(combo));
    } else {
        assert(callback_steps(c) =~= main);
        assert(callback_events(c) =~= key_events(c.modifiers, c.key_code, c.readable_key_code));
    }
}

/// The keys held after `event` where `held` were held, the last pressed
/// last: a key going down is added; a key going up must be the last one
/// pressed and is taken away; otherwise `None`.
pub open spec fn key_event_step(held: Seq<u16>, event: KeyStroke) -> Option<Seq<u16>> {
    if !event.key_up {
        Some(held.push(event.scan))
    } else if held.len() > 0 && held.last() == event.scan {
        Some(held.drop_last())
    } else {
        None
    }
}

/// The keys held after `events` where `held` were held; `None` where a key
/// goes up that is not the last one held.
pub open spec fn keys_held_after(held: Seq<u16>, events: Seq<KeyStroke>) -> Option<Seq<u16>>
    decreases events.len(),
{
    if events.len() == 0 {
        Some(held)
    } else {
        match keys_held_after(held, events.drop_last()) {
            Some(h) => key_event_step(h, events.last()),
            None => None,
        }
    }
}

proof fn lemma_keys_held_concat(held: Seq<u16>, x: Seq<KeyStroke>, y: Seq<KeyStroke>)
    ensures
        keys_held_after(held, x + y) == match keys_held_after(held, x) {
            Some(h) => keys_held_after(h, y),
            None => None,
        },
    decreases y.len(),
{
    if y.len() == 0 {
        assert(x + y =~= x);
    } else {
        lemma_keys_held_concat(held, x, y.drop_last());
        assert((x + y).drop_last() =~= x + y.drop_last());
        assert((x + y).last() == y.last());
    }
}

/// The scan codes of `modifiers`, in order.
pub open spec fn modifier_scans(modifiers: Seq<Modifier>) -> Seq<u16> {
    modifiers.map_values(|m: Modifier| modifier_scan_code(m))
}

proof fn lemma_modifiers_pressed(held: Seq<u16>, m: Seq<Modifier>)
    ensures
        keys_held_after(held, modifier_events(m, false)) == Some(held + modifier_scans(m)),
    decreases m.len(),
{
    if m.len() == 0 {
        assert(modifier_events(m, false) =~= Seq::<KeyStroke>::empty());
        assert(held + modifier_scans(m) =~= held);
    } else {
        lemma_modifiers_pressed(held, m.drop_last());
        let ev = modifier_events(m, false);
        assert(ev.drop_last() =~= modifier_events(m.drop_last(), false));
        assert(held + modifier_scans(m) =~= (held + modifier_scans(m.drop_last())).push(
            modifier_scan_code(m.last()),
        ));
    }
}

proof fn lemma_modifiers_released(held: Seq<u16>, m: Seq<Modifier>)
    ensures
        keys_held_after(held + modifier_scans(m), modifier_events(m.reverse(), true)) == Some(held),
    decreases m.len(),
{
    if m.len() == 0 {
        assert(modifier_events(m.reverse(), true) =~= Seq::<KeyStroke>::empty());
        assert(held + modifier_scans(m) =~= held);
    } else {
        let p = m.drop_last();
        let sc = modifier_scan_code(m.last());
        let first = seq![KeyStroke { scan: sc, extended: false, key_up: true }];
        let rest = modifier_events(p.reverse(), true);
        assert(modifier_events(m.reverse(), true) =~= first + rest);
        let full = held + modifier_scans(m);
        assert(full =~= (held + modifier_scans(p)).push(sc));
        lemma_keys_held_concat(full, first, rest);
        assert(first.drop_last() =~= Seq::<KeyStroke>::empty());
        assert(keys_held_after(full, Seq::<KeyStroke>::empty()) == Some(full));
        assert(keys_held_after(full, first.drop_last()) == Some(full));
        assert(keys_held_after(full, first) == key_event_step(full, first.last()));
        assert(full.drop_last() =~= held + modifier_scans(p));
        lemma_modifiers_released(held, p);
    }
}

proof fn lemma_key_events_nested(held: Seq<u16>, modifiers: Seq<Modifier>, scan: u16, key: Key)
    ensures
        keys_held_after(held, key_events(modifiers, scan, key)) == Some(held),
{
    let ext = key == Key::NumpadEnter;
    let press = modifier_events(modifiers, false);
    let click = seq![
        KeyStroke { scan, extended: ext, key_up: false },
        KeyStroke { scan, extended: ext, key_up: true },
    ];
    let release = modifier_events(modifiers.reverse(), true);
    let mid = held + modifier_scans(modifiers);
    lemma_modifiers_pressed(held, modifiers);
    lemma_keys_held_concat(held, press, click);
    assert(keys_held_after(mid, click) == Some(mid)) by {
        assert(click.drop_last() =~= seq![KeyStroke { scan, extended: ext, key_up: false }]);
        assert(click.drop_last().drop_last() =~= Seq::<KeyStroke>::empty());
        assert(keys_held_after(mid, Seq::<KeyStroke>::empty()) == Some(mid));
        assert(keys_held_after(mid, click.drop_last().drop_last()) == Some(mid));
        assert(keys_held_after(mid, click.drop_last()) == Some(mid.push(scan)));
        assert(mid.push(scan).drop_last() =~= mid);
    }
    lemma_keys_held_concat(held, press + click, release);
    lemma_modifiers_released(held, modifiers);
    assert(key_events(modifiers, scan, key) =~= press + click + release);
}

/// The keys that striking a callback moves are released in the reverse
/// order of their pressing: no key goes up that is not the last one held,
/// and no key is held at the end.
pub proof fn lemma_callback_keys_nest(c: CallbackView)
    ensures
        keys_held_after(seq![], events_of(callback_steps(c))) == Some(Seq::<u16>::empty()),
{
    lemma_callback_events(c);
    let main = key_events(c.modifiers, c.key_code, c.readable_key_code);
    lemma_key_events_nested(seq![], c.modifiers, c.key_code, c.readable_key_code);
    if c.combo_key_code != 0 {
        let combo = key_events(c.combo_modifiers, c.combo_key_code, c.readable_combo_key_code);
        lemma_key_events_nested(seq![], c.combo_modifiers, c.combo_key_code, c.readable_combo_key_code);
        lemma_keys_held_concat(seq![], combo, main);
    } else {
        assert(callback_events(c) =~= main);
    }
}

/// In `events`, the key `scan` goes down and later goes up.
pub open spec fn key_struck(events: Seq<KeyStroke>, scan: u16, extended: bool) -> bool {
    exists|k: int, u: int|
        #![trigger events[k], events[u]]
        0 <= k < u < events.len() && events[k] == KeyStroke { scan, extended, key_up: false }
            && events[u] == KeyStroke { scan, extended, key_up: true }
}

/// In `events`, the modifier key `modifier` is held while the key `scan` is
/// struck: the modifier goes down, then the key goes down and up, and only
/// then does the modifier go up; between the modifier going down and the key
/// going up no key goes up.
pub open spec fn struck_holding(events: Seq<KeyStroke>, modifier: u16, scan: u16, extended: bool) -> bool {
    exists|p: int, k: int, u: int, q: int|
        #![trigger events[p], events[k], events[u], events[q]]
        {
            &&& 0 <= p < k < u < q < events.len()
            &&& events[p] == KeyStroke { scan: modifier, extended: false, key_up: false }
            &&& events[k] == KeyStroke { scan, extended, key_up: false }
            &&& events[u] == KeyStroke { scan, extended, key_up: true }
            &&& events[q] == KeyStroke { scan: modifier, extended: false, key_up: true }
            &&& forall|i: int| p < i < u ==> !(#[trigger] events[i]).key_up
        }
}

proof fn lemma_key_events_hold_modifiers(
    pre: Seq<KeyStroke>,
    modifiers: Seq<Modifier>,
    scan: u16,
    key: Key,
    post: Seq<KeyStroke>,
)
    ensures
        key_struck(pre + key_events(modifiers, scan, key) + post, scan, key == Key::NumpadEnter),
        forall|j: int|
            0 <= j < modifiers.len() ==> struck_holding(
                pre + key_events(modifiers, scan, key) + post,
                modifier_scan_code(#[trigger] modifiers[j]),
                scan,
                key == Key::NumpadEnter,
            ),
{
    let x = key == Key::NumpadEnter;
    let e = pre + key_events(modifiers, scan, key) + post;
    let n = modifiers.len() as int;
    let o = pre.len() as int;
    let press = modifier_events(modifiers, false);
    let release = modifier_events(modifiers.reverse(), true);
    assert(key_events(modifiers, scan, key) =~= press + seq![
        KeyStroke { scan, extended: x, key_up: false },
        KeyStroke { scan, extended: x, key_up: true },
    ] + release);
    assert(e[o + n] == KeyStroke { scan, extended: x, key_up: false });
    assert(e[o + n + 1] == KeyStroke { scan, extended: x, key_up: true });
    assert forall|j: int| 0 <= j < n implies struck_holding(
        e,
        modifier_scan_code(#[trigger] modifiers[j]),
        scan,
        x,
    ) by {
        let m = modifier_scan_code(modifiers[j]);
        let p = o + j;
        let q = o + n + 2 + (n - 1 - j);
        assert(e[p] == press[j]);
        assert(e[q] == release[n - 1 - j]);
        assert(modifiers.reverse()[n - 1 - j] == modifiers[j]);
        assert forall|i: int| p < i < o + n + 1 implies !(#[trigger] e[i]).key_up by {
            if i < o + n {
                assert(e[i] == press[i - o]);
            }
        }
        assert(e[p] == KeyStroke { scan: m, extended: false, key_up: false });
        assert(e[q] == KeyStroke { scan: m, extended: false, key_up: true });
    }
}

/// Striking a callback strikes its key with each of its modifiers held and,
/// where it has a combo key, strikes that key with each of the combo's
/// modifiers held: stated of the events that `callback_steps` sends, from
/// the callback's own fields.
pub proof fn lemma_callback_strikes_keys_with_modifiers_held(c: CallbackView)
    ensures
        key_struck(
            events_of(callback_steps(c)),
            c.key_code,
            c.readable_key_code == Key::NumpadEnter,
        ),
        forall|j: int|
            0 <= j < c.modifiers.len() ==> struck_holding(
                events_of(callback_steps(c)),
                modifier_scan_code(#[trigger] c.modifiers[j]),
                c.key_code,
                c.readable_key_code == Key::NumpadEnter,
            ),
        c.combo_key_code != 0 ==> key_struck(
            events_of(callback_steps(c)),
            c.combo_key_code,
            c.readable_combo_key_code == Key::NumpadEnter,
        ),
        c.combo_key_code != 0 ==> forall|j: int|
            0 <= j < c.combo_modifiers.len() ==> struck_holding(
                events_of(callback_steps(c)),
                modifier_scan_code(#[trigger] c.combo_modifiers[j]),
                c.combo_key_code,
                c.readable_combo_key_code == Key::NumpadEnter,
            ),
{
    lemma_callback_events(c);
    let main = key_events(c.modifiers, c.key_code, c.readable_key_code);
    let first = if c.combo_key_code != 0 {
        key_events(c.combo_modifiers, c.combo_key_code, c.readable_combo_key_code)
    } else {
        seq![]
    };
    let empty = Seq::<KeyStroke>::empty();
    assert(callback_events(c) =~= first + main + empty);
    lemma_key_events_hold_modifiers(first, c.modifiers, c.key_code, c.readable_key_code, empty);
    if c.combo_key_code != 0 {
        assert(callback_events(c) =~= empty + first + main);
        lemma_key_events_hold_modifiers(
            empty,
            c.combo_modifiers,
            c.combo_key_code,
            c.readable_combo_key_code,
            main,
        );
    }
}

/// The views of a list of steps.
pub open spec fn steps_view(steps: Seq<InputStep>) -> Seq<InputStepView> {
    steps.map_values(|s: InputStep| s@)
}

/// Appends to `steps` the steps that move each modifier of `modifiers`
/// (taken in reverse order where `reverse` is set) the way `direction` says.
fn push_modifier_steps(
    steps: &mut Vec<InputStep>,
    modifiers: &Vec<Modifier>,
    direction: Direction,
    reverse: bool,
)
    ensures
        steps_view(final(steps)@) == steps_view(old(steps)@) + modifier_steps(
            if reverse {
                modifiers@.reverse()
            } else {
                modifiers@
            },
            direction,
        ),
{
    let ghost ms = if reverse {
        modifiers@.reverse()
    } else {
        modifiers@
    };
    let n = modifiers.len();
    let mut i: usize = 0;
    while i < n
        invariant
            n == modifiers.len(),
            ms.len() == n,
            ms == (if reverse {
                modifiers@.reverse()
            } else {
                modifiers@
            }),
            i <= n,
            steps_view(steps@) == steps_view(old(steps)@) + modifier_steps(
                ms.take(i as int),
                direction,
            ),
        decreases n - i,
    {
        let m = if reverse {
            modifiers[n - 1 - i]
        } else {
            modifiers[i]
        };
        assert(m == ms[i as int]);
        let batch = raw(to_key(&m), direction, false);
        let ghost before = steps@;
        steps.push(InputStep::Send(batch));
        assert(steps_view(steps@) =~= steps_view(before).push(
            InputStepView::Send(raw_events(modifier_scan_code(m), direction, false)),
        ));
        assert(modifier_steps(ms.take(i + 1), direction) =~= modifier_steps(
            ms.take(i as int),
            direction,
        ).push(InputStepView::Send(raw_events(modifier_scan_code(m), direction, false))));
        i += 1;
    }
    assert(ms.take(n as int) =~= ms);
}

/// Appends to `steps` the steps that strike the key `scan` with `modifiers`.
fn push_key_steps(steps: &mut Vec<InputStep>, modifiers: &Vec<Modifier>, scan: u16, key: Key)
    ensures
        steps_view(final(steps)@) == steps_view(old(steps)@) + key_steps(modifiers@, scan, key),
{
    push_modifier_steps(steps, modifiers, Direction::Press, false);
    let ghost mid = steps@;
    steps.push(InputStep::Sleep(10));
    steps.push(InputStep::Send(raw(scan, Direction::Click, is_extended_key(key))));
    assert(steps_view(steps@) =~= steps_view(mid) + seq![
        InputStepView::Sleep(10),
        InputStepView::Send(raw_events(scan, Direction::Click, key == Key::NumpadEnter)),
    ]);
    push_modifier_steps(steps, modifiers, Direction::Release, true);
    assert(steps_view(final(steps)@) =~= steps_view(old(steps)@) + key_steps(
        modifiers@,
        scan,
        key,
    ));
}

/// The steps that strike `callback` on the keyboard.
pub fn invoke(callback: &Callback) -> (steps: Vec<InputStep>)
    ensures
        steps_view(steps@) == callback_steps(callback@),
{
    let mut steps: Vec<InputStep> = Vec::new();
    assert(steps_view(steps@) =~= seq![]);
    if callback.combo_key_code != 0 {
        push_key_steps(
            &mut steps,
            &callback.combo_modifiers,
            callback.combo_key_code,
            callback.readable_combo_key_code,
        );
        let ghost before = steps@;
        steps.push(InputStep::Sleep(30));
        assert(steps_view(steps@) =~= steps_view(before).push(InputStepView::Sleep(30)));
    }
    let ghost mid = steps@;
    push_key_steps(&mut steps, &callback.modifiers, callback.key_code, callback.readable_key_code);
    assert(steps_view(steps@) =~= callback_steps(callback@));
    steps
}

/// What sending a batch of events takes.
#[derive(Debug)]
pub enum SendPlan {
    /// Nothing to send.
    Nothing,
    /// The batch cannot be sent.
    Reject(InputError),
    /// Send the batch: this many events, of this size each.
    Send(u32, i32),
}

/// How a batch of `len` events of `input_size` bytes each is sent: an empty
/// batch is not; a size beyond `i32` or a length beyond `u32` is rejected.
pub fn plan_send(len: usize, input_size: usize) -> (plan: SendPlan)
    ensures
        len == 0 ==> plan is Nothing,
        len != 0 && input_size > i32::MAX ==> plan == SendPlan::Reject(
            InputError::InvalidInput(
                "the size of the INPUT was so large, the size exceeded i32::MAX",
            ),
        ),
        len != 0 && input_size <= i32::MAX && len > u32::MAX ==> plan == SendPlan::Reject(
            InputError::InvalidInput(
                "the number of INPUT was so large, the length of the Vec exceeded i32::MAX",
            ),
        ),
        len != 0 && input_size <= i32::MAX && len <= u32::MAX ==> plan == SendPlan::Send(
            len as u32,
            input_size as i32,
        ),
{
    if len == 0 {
        return SendPlan::Nothing;
    }
    if input_size > 0x7fff_ffff {
        return SendPlan::Reject(
            InputError::InvalidInput(
                "the size of the INPUT was so large, the size exceeded i32::MAX",
            ),
        );
    }
    if len > 0xffff_ffff {
        return SendPlan::Reject(
            InputError::InvalidInput(
                "the number of INPUT was so large, the length of the Vec exceeded i32::MAX",
            ),
        );
    }
    SendPlan::Send(len as u32, input_size as i32)
}

/// The outcome of sending `expected` events of which the system took `sent`.
pub fn send_result(expected: u32, sent: u32) -> (r: Result<(), InputError>)
    ensures
        sent == expected ==> r is Ok,
        sent != expected ==> r == Err::<(), InputError>(
            InputError::Simulate("not all input events were sent. they may have been blocked by UIPI"),
        ),
{
    if sent == expected {
        Ok(())
    } else {
        Err(
            InputError::Simulate(
                "not all input events were sent. they may have been blocked by UIPI",
            ),
        )
    }
}

} // verus!
