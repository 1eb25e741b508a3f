//! The action/layout engine.
//!
//! The engine consumes unified key events and periodic time ticks. It
//! keeps, per physical key, a small state machine (idle, held simple key,
//! hold-tap pending within its decision window, resolved hold, held
//! momentary-layer key, held default-layer toggle), and globally an
//! ordered stack of momentarily active layer indices over a persistent
//! default layer. From that state it projects the set of currently held
//! keycodes and the active-layer bit-mask.

use vstd::prelude::*;
use crate::event::Event;

verus! {

/// One entry of the layer/layout table: what a physical key does on the
/// layer the entry belongs to.
#[derive(Clone, Copy, Debug, PartialEq, Eq, Structural)]
pub enum Action {
    /// An ordinary key with a fixed HID keycode.
    Simple(u8),
    /// Inherit the entry of the next lower layer.
    Transparent,
    /// A key overloaded with two meanings: held past `timeout` ticks it
    /// pushes layer `hold` for as long as it stays down; released sooner
    /// it switches the default layer to `tap`.
    HoldTap { hold: u8, tap: u8, timeout: u16 },
    /// Switch the persistent default layer on press.
    ToggleLayer(u8),
    /// Push a layer for as long as the key is held.
    MomentaryLayer(u8),
}

/// The per-key state machine.
///
/// A hold-tap key moves `Idle -> Pending -> ResolvedHold` when it is held
/// past its timeout or another key is pressed meanwhile, and straight
/// back to `Idle` when it is released within the window — the moment of
/// release both fires the tap action and observes the release, so no
/// separate resolved-tap state outlives an event.
#[derive(Clone, Copy, Debug, PartialEq, Eq, Structural)]
pub enum KeyState {
    /// The key is up.
    Idle,
    /// An ordinary key is down, reported with this keycode.
    SimpleDown(u8),
    /// A hold-tap key is down, not yet decided; `elapsed` ticks so far.
    Pending { elapsed: u16, hold: u8, tap: u8, timeout: u16 },
    /// A hold-tap key decided as hold; its layer stays pushed until release.
    ResolvedHold(u8),
    /// A momentary-layer key is down; its layer stays pushed until release.
    MomentaryDown(u8),
    /// A default-layer toggle key is down; the switch fired on press.
    ToggleDown,
}

/// The mathematical state of the engine.
#[verifier::ext_equal]
pub ghost struct LayoutView {
    /// The layout table: `layers[l][r][c]` is the action of key `(r, c)`
    /// on layer `l`.
    pub layers: Seq<Seq<Seq<Action>>>,
    /// The persistent default layer.
    pub default_layer: u8,
    /// Momentarily active layers, oldest first; the last entry is on top.
    pub stack: Seq<u8>,
    /// Per-key state, `keys[r][c]`.
    pub keys: Seq<Seq<KeyState>>,
}

/// Whether an action only names layers below `nl`.
pub open spec fn action_ok(nl: int, a: Action) -> bool {
    match a {
        Action::Simple(k) => true,
        Action::Transparent => true,
        Action::HoldTap { hold, tap, timeout } => hold < nl && tap < nl,
        Action::ToggleLayer(d) => d < nl,
        Action::MomentaryLayer(l) => l < nl,
    }
}

/// Whether a layout table is acceptable: between one and eight layers,
/// every layer grid of one shape, and every layer reference in range.
pub open spec fn valid_config(layers: Seq<Seq<Seq<Action>>>) -> bool {
    let nl = layers.len() as int;
    let rows = if nl > 0 {
        layers[0].len() as int
    } else {
        0
    };
    let cols = if nl > 0 && rows > 0 {
        layers[0][0].len() as int
    } else {
        0
    };
    &&& 1 <= nl <= 8
    &&& forall|l: int| 0 <= l < nl ==> #[trigger] layers[l].len() == rows
    &&& forall|l: int, r: int|
        0 <= l < nl && 0 <= r < rows ==> #[trigger] layers[l][r].len() == cols
    &&& forall|l: int, r: int, c: int|
        0 <= l < nl && 0 <= r < rows && 0 <= c < cols ==> action_ok(
            nl,
            #[trigger] layers[l][r][c],
        )
}

/// A pending hold-tap key forced to its hold meaning; any other state is
/// left alone.
pub open spec fn resolve_cell(s: KeyState) -> KeyState {
    match s {
        KeyState::Pending { elapsed, hold, tap, timeout } => KeyState::ResolvedHold(hold),
        _ => s,
    }
}

/// One debounced tick of a single key: a pending hold-tap key advances
/// its elapsed count and resolves to hold once the count reaches its
/// timeout; every other state is unaffected by time.
pub open spec fn tick_cell(s: KeyState) -> KeyState {
    match s {
        KeyState::Pending { elapsed, hold, tap, timeout } => if elapsed + 1 >= timeout {
            KeyState::ResolvedHold(hold)
        } else {
            KeyState::Pending { elapsed: (elapsed + 1) as u16, hold, tap, timeout }
        },
        _ => s,
    }
}

/// Whether a key state is a pending hold-tap that a tick would resolve.
pub open spec fn tick_fires(s: KeyState) -> bool {
    match s {
        KeyState::Pending { elapsed, hold, tap, timeout } => elapsed + 1 >= timeout,
        _ => false,
    }
}

/// The hold layer a pending key would push, for states where it exists.
pub open spec fn pending_hold(s: KeyState) -> u8 {
    match s {
        KeyState::Pending { elapsed, hold, tap, timeout } => hold,
        _ => 0,
    }
}

/// Hold layers pushed by the pending keys among the first `n` cells of a
/// row, in column order, skipping column `skip`.
pub open spec fn pending_holds_row(row: Seq<KeyState>, skip: int, n: int) -> Seq<u8>
    decreases n,
{
    if n <= 0 {
        Seq::empty()
    } else {
        pending_holds_row(row, skip, n - 1) + if n - 1 != skip && (row[n - 1] is Pending) {
            seq![pending_hold(row[n - 1])]
        } else {
            Seq::empty()
        }
    }
}

/// Hold layers pushed by the pending keys of the first `m` rows, row-major,
/// skipping the cell `(skip_r, skip_c)`.
pub open spec fn pending_holds(keys: Seq<Seq<KeyState>>, skip_r: int, skip_c: int, m: int) -> Seq<
    u8,
>
    decreases m,
{
    if m <= 0 {
        Seq::empty()
    } else {
        pending_holds(keys, skip_r, skip_c, m - 1) + pending_holds_row(
            keys[m - 1],
            if m - 1 == skip_r {
                skip_c
            } else {
                -1
            },
            keys[m - 1].len() as int,
        )
    }
}

/// Hold layers pushed by the keys among the first `n` cells of a row whose
/// decision window closes on this tick, in column order.
pub open spec fn tick_holds_row(row: Seq<KeyState>, n: int) -> Seq<u8>
    decreases n,
{
    if n <= 0 {
        Seq::empty()
    } else {
        tick_holds_row(row, n - 1) + if tick_fires(row[n - 1]) {
            seq![pending_hold(row[n - 1])]
        } else {
            Seq::empty()
        }
    }
}

/// Hold layers pushed on this tick by the first `m` rows, row-major.
pub open spec fn tick_holds(keys: Seq<Seq<KeyState>>, m: int) -> Seq<u8>
    decreases m,
{
    if m <= 0 {
        Seq::empty()
    } else {
        tick_holds(keys, m - 1) + tick_holds_row(keys[m - 1], keys[m - 1].len() as int)
    }
}

/// The stack with the last occurrence of `l` removed, if any: releasing a
/// layer-holding key retracts the layer it pushed, newest first.
pub open spec fn remove_last_occurrence(stack: Seq<u8>, l: u8) -> Seq<u8>
    decreases stack.len(),
{
    if stack.len() == 0 {
        stack
    } else if stack.last() == l {
        stack.drop_last()
    } else {
        remove_last_occurrence(stack.drop_last(), l).push(stack.last())
    }
}

/// Keycodes of the held ordinary keys among the first `n` cells of a row,
/// in column order.
pub open spec fn keycodes_row_upto(row: Seq<KeyState>, n: int) -> Seq<u8>
    decreases n,
{
    if n <= 0 {
        Seq::empty()
    } else {
        keycodes_row_upto(row, n - 1) + match row[n - 1] {
            KeyState::SimpleDown(k) => seq![k],
            _ => Seq::empty(),
        }
    }
}

/// Keycodes of the held ordinary keys of the first `m` rows, row-major.
pub open spec fn keycodes_upto(keys: Seq<Seq<KeyState>>, m: int) -> Seq<u8>
    decreases m,
{
    if m <= 0 {
        Seq::empty()
    } else {
        keycodes_upto(keys, m - 1) + keycodes_row_upto(keys[m - 1], keys[m - 1].len() as int)
    }
}

/// The bit-mask of the first `n` stack entries.
pub open spec fn stack_mask_upto(stack: Seq<u8>, n: int) -> u8
    decreases n,
{
    if n <= 0 {
        0u8
    } else {
        (stack_mask_upto(stack, n - 1) | (1u8 << stack[n - 1])) as u8
    }
}

impl LayoutView {
    pub open spec fn nlayers(self) -> int {
        self.layers.len() as int
    }

    pub open spec fn rows(self) -> int {
        self.keys.len() as int
    }

    pub open spec fn cols(self) -> int {
        if self.keys.len() > 0 {
            self.keys[0].len() as int
        } else {
            0
        }
    }

    /// An action may only name layers the table has.
    pub open spec fn wf_action(self, a: Action) -> bool {
        action_ok(self.nlayers(), a)
    }

    /// A key state may only name layers the table has, and a pending key
    /// never outlives its decision window.
    pub open spec fn wf_key(self, s: KeyState) -> bool {
        match s {
            KeyState::Pending { elapsed, hold, tap, timeout } => elapsed <= timeout && hold
                < self.nlayers() && tap < self.nlayers(),
            KeyState::ResolvedHold(l) => l < self.nlayers(),
            KeyState::MomentaryDown(l) => l < self.nlayers(),
            _ => true,
        }
    }

    /// Internal consistency of the whole engine state: between one and
    /// eight layers (the active-layer mask is one byte), every layer grid
    /// and the key grid of one shape, and every layer reference in range.
    pub open spec fn wf(self) -> bool {
        &&& 1 <= self.nlayers() <= 8
        &&& self.default_layer < self.nlayers()
        &&& forall|l: int| 0 <= l < self.nlayers() ==> #[trigger] self.layers[l].len() == self.rows()
        &&& forall|l: int, r: int|
            0 <= l < self.nlayers() && 0 <= r < self.rows()
                ==> #[trigger] self.layers[l][r].len() == self.cols()
        &&& forall|l: int, r: int, c: int|
            0 <= l < self.nlayers() && 0 <= r < self.rows() && 0 <= c < self.cols()
                ==> self.wf_action(#[trigger] self.layers[l][r][c])
        &&& forall|i: int| 0 <= i < self.stack.len() ==> #[trigger] self.stack[i] < self.nlayers()
        &&& forall|r: int| 0 <= r < self.rows() ==> #[trigger] self.keys[r].len() == self.cols()
        &&& forall|r: int, c: int|
            0 <= r < self.rows() && 0 <= c < self.cols() ==> self.wf_key(
                #[trigger] self.keys[r][c],
            )
    }

    /// The layer key lookups resolve against: the top of the momentary
    /// stack, or the default layer when nothing is held.
    pub open spec fn top_layer(self) -> u8 {
        if self.stack.len() > 0 {
            self.stack.last()
        } else {
            self.default_layer
        }
    }

    /// The action of key `(r, c)` seen from `layer`: transparent entries
    /// inherit the next lower layer, and a transparent entry on the lowest
    /// layer means the key does nothing.
    pub open spec fn action_at(self, layer: int, r: int, c: int) -> Option<Action>
        decreases layer,
    {
        if layer < 0 {
            None
        } else {
            match self.layers[layer][r][c] {
                Action::Transparent => if layer == 0 {
                    None
                } else {
                    self.action_at(layer - 1, r, c)
                },
                a => Some(a),
            }
        }
    }

    /// The active-layer bit-mask: the default layer's bit and one bit per
    /// momentarily pushed layer.
    pub open spec fn layer_mask(self) -> u8 {
        (stack_mask_upto(self.stack, self.stack.len() as int) | (1u8 << self.default_layer)) as u8
    }

    /// The currently held keycodes, in row-major key order.
    pub open spec fn keycodes(self) -> Seq<u8> {
        keycodes_upto(self.keys, self.rows())
    }

    /// The state after the forced resolution a key press triggers: every
    /// pending hold-tap key other than the pressed one is still held, so
    /// each resolves to hold and pushes its layer, row-major.
    pub open spec fn force_resolve(self, r: int, c: int) -> LayoutView {
        LayoutView {
            keys: Seq::new(
                self.keys.len(),
                |i: int|
                    Seq::new(
                        self.keys[i].len(),
                        |j: int|
                            if i == r && j == c {
                                self.keys[i][j]
                            } else {
                                resolve_cell(self.keys[i][j])
                            },
                    ),
            ),
            stack: self.stack + pending_holds(self.keys, r, c, self.rows()),
            ..self
        }
    }

    /// The state after a press event at `(r, c)`. Out-of-range
    /// coordinates, and a press for a key already down, change nothing
    /// beyond the forced resolution: the engine tolerates protocol
    /// violations gracefully.
    pub open spec fn apply_press(self, r: int, c: int) -> LayoutView {
        if !(0 <= r < self.rows() && 0 <= c < self.cols()) {
            self
        } else {
            let v = self.force_resolve(r, c);
            if !(v.keys[r][c] is Idle) {
                v
            } else {
                match v.action_at(v.top_layer() as int, r, c) {
                    None => v,
                    Some(Action::Simple(k)) => LayoutView {
                        keys: v.keys.update(r, v.keys[r].update(c, KeyState::SimpleDown(k))),
                        ..v
                    },
                    Some(Action::Transparent) => v,
                    Some(Action::HoldTap { hold, tap, timeout }) => LayoutView {
                        keys: v.keys.update(
                            r,
                            v.keys[r].update(
                                c,
                                KeyState::Pending { elapsed: 0, hold, tap, timeout },
                            ),
                        ),
                        ..v
                    },
                    Some(Action::ToggleLayer(d)) => LayoutView {
                        default_layer: d,
                        keys: v.keys.update(r, v.keys[r].update(c, KeyState::ToggleDown)),
                        ..v
                    },
                    Some(Action::MomentaryLayer(l)) => LayoutView {
                        stack: v.stack.push(l),
                        keys: v.keys.update(r, v.keys[r].update(c, KeyState::MomentaryDown(l))),
                        ..v
                    },
                }
            }
        }
    }

    /// The state after a release event at `(r, c)`: an ordinary key goes
    /// up; a pending hold-tap key resolves to tap, which switches the
    /// default layer; a layer-holding key retracts its layer. A release
    /// with no matching press changes nothing.
    pub open spec fn apply_release(self, r: int, c: int) -> LayoutView {
        if !(0 <= r < self.rows() && 0 <= c < self.cols()) {
            self
        } else {
            match self.keys[r][c] {
                KeyState::Idle => self,
                KeyState::SimpleDown(k) => LayoutView {
                    keys: self.keys.update(r, self.keys[r].update(c, KeyState::Idle)),
                    ..self
                },
                KeyState::Pending { elapsed, hold, tap, timeout } => LayoutView {
                    default_layer: tap,
                    keys: self.keys.update(r, self.keys[r].update(c, KeyState::Idle)),
                    ..self
                },
                KeyState::ResolvedHold(l) => LayoutView {
                    stack: remove_last_occurrence(self.stack, l),
                    keys: self.keys.update(r, self.keys[r].update(c, KeyState::Idle)),
                    ..self
                },
                KeyState::MomentaryDown(l) => LayoutView {
                    stack: remove_last_occurrence(self.stack, l),
                    keys: self.keys.update(r, self.keys[r].update(c, KeyState::Idle)),
                    ..self
                },
                KeyState::ToggleDown => LayoutView {
                    keys: self.keys.update(r, self.keys[r].update(c, KeyState::Idle)),
                    ..self
                },
            }
        }
    }

    /// The state after one event.
    pub open spec fn apply_event(self, e: Event) -> LayoutView {
        if e.spec_is_press() {
            self.apply_press(e.spec_row() as int, e.spec_col() as int)
        } else {
            self.apply_release(e.spec_row() as int, e.spec_col() as int)
        }
    }

    /// The state after one tick: every pending key advances, and those
    /// whose window closes resolve to hold and push their layers,
    /// row-major.
    pub open spec fn apply_tick(self) -> LayoutView {
        LayoutView {
            keys: Seq::new(
                self.keys.len(),
                |i: int| Seq::new(self.keys[i].len(), |j: int| tick_cell(self.keys[i][j])),
            ),
            stack: self.stack + tick_holds(self.keys, self.rows()),
            ..self
        }
    }
}

/// The view of a layout table held in vectors.
pub open spec fn layers_view(layers: Vec<Vec<Vec<Action>>>) -> Seq<Seq<Seq<Action>>> {
    layers@.map(|i: int, g: Vec<Vec<Action>>| g@.map(|j: int, row: Vec<Action>| row@))
}

/// How the nested table view indexes back into the vectors it was taken
/// from.
proof fn lemma_layers_view_facts(layers: Vec<Vec<Vec<Action>>>)
    ensures
        layers_view(layers).len() == layers@.len(),
        forall|l: int|
            0 <= l < layers@.len() ==> #[trigger] layers_view(layers)[l].len()
                == layers@[l]@.len(),
        forall|l: int, r: int|
            0 <= l < layers@.len() && 0 <= r < layers@[l]@.len() ==> #[trigger] layers_view(
                layers,
            )[l][r].len() == layers@[l]@[r]@.len(),
        forall|l: int, r: int, c: int|
            0 <= l < layers@.len() && 0 <= r < layers@[l]@.len() && 0 <= c < layers@[l]@[r]@.len()
                ==> #[trigger] layers_view(layers)[l][r][c] == layers@[l]@[r]@[c],
{
    assert forall|l: int| 0 <= l < layers@.len() implies #[trigger] layers_view(layers)[l].len()
        == layers@[l]@.len() by {
        assert(layers_view(layers)[l] == layers@[l]@.map(|j: int, row: Vec<Action>| row@));
    }
    assert forall|l: int, r: int|
        0 <= l < layers@.len() && 0 <= r < layers@[l]@.len() implies #[trigger] layers_view(
        layers,
    )[l][r].len() == layers@[l]@[r]@.len() by {
        assert(layers_view(layers)[l] == layers@[l]@.map(|j: int, row: Vec<Action>| row@));
        assert(layers_view(layers)[l][r] == layers@[l]@[r]@);
    }
    assert forall|l: int, r: int, c: int|
        0 <= l < layers@.len() && 0 <= r < layers@[l]@.len() && 0 <= c
            < layers@[l]@[r]@.len() implies #[trigger] layers_view(layers)[l][r][c]
        == layers@[l]@[r]@[c] by {
        assert(layers_view(layers)[l] == layers@[l]@.map(|j: int, row: Vec<Action>| row@));
        assert(layers_view(layers)[l][r] == layers@[l]@[r]@);
    }
}

/// The action/layout engine.
pub struct Layout {
    /// The layout table, `layers[l][r][c]`; immutable after construction.
    pub layers: Vec<Vec<Vec<Action>>>,
    /// The persistent default layer.
    pub default_layer: u8,
    /// Momentarily active layers, oldest first.
    pub stack: Vec<u8>,
    /// Per-key state, `keys[r][c]`.
    pub keys: Vec<Vec<KeyState>>,
}

impl View for Layout {
    type V = LayoutView;

    open spec fn view(&self) -> LayoutView {
        LayoutView {
            layers: layers_view(self.layers),
            default_layer: self.default_layer,
            stack: self.stack@,
            keys: self.keys@.map(|i: int, row: Vec<KeyState>| row@),
        }
    }
}

/// Removes the last occurrence of `l` from the stack, if any.
fn remove_last_layer(stack: &mut Vec<u8>, l: u8)
    ensures
        final(stack)@ == remove_last_occurrence(old(stack)@, l),
{
    let mut i: usize = stack.len();
    while i > 0
        invariant
            i <= stack@.len(),
            stack@ == old(stack)@,
            forall|j: int| i <= j < stack@.len() ==> stack@[j] != l,
        decreases i,
    {
        i -= 1;
        if stack[i] == l {
            stack.remove(i);
            proof {
                lemma_remove_last_occurrence_at(old(stack)@, l, i as int);
            }
            return;
        }
    }
    proof {
        lemma_remove_last_occurrence_absent(stack@, l);
    }
}

proof fn lemma_remove_last_occurrence_at(s: Seq<u8>, l: u8, i: int)
    requires
        0 <= i < s.len(),
        s[i] == l,
        forall|j: int| i < j < s.len() ==> s[j] != l,
    ensures
        remove_last_occurrence(s, l) == s.remove(i),
    decreases s.len(),
{
    if i == s.len() - 1 {
        assert(s.drop_last() =~= s.remove(i));
    } else {
        lemma_remove_last_occurrence_at(s.drop_last(), l, i);
        assert(s.drop_last().remove(i).push(s.last()) =~= s.remove(i));
    }
}

proof fn lemma_remove_last_occurrence_absent(s: Seq<u8>, l: u8)
    requires
        forall|j: int| 0 <= j < s.len() ==> s[j] != l,
    ensures
        remove_last_occurrence(s, l) == s,
    decreases s.len(),
{
    if s.len() > 0 {
        lemma_remove_last_occurrence_absent(s.drop_last(), l);
        assert(s.drop_last().push(s.last()) =~= s);
    }
}

/// Removing a layer from the stack keeps every remaining entry within
/// the same bound.
proof fn lemma_remove_last_occurrence_bound(s: Seq<u8>, l: u8, nl: int)
    requires
        forall|j: int| 0 <= j < s.len() ==> s[j] < nl,
    ensures
        forall|j: int|
            0 <= j < remove_last_occurrence(s, l).len() ==> remove_last_occurrence(s, l)[j] < nl,
        remove_last_occurrence(s, l).len() <= s.len(),
    decreases s.len(),
{
    if s.len() > 0 && s.last() != l {
        lemma_remove_last_occurrence_bound(s.drop_last(), l, nl);
    }
}

impl Layout {
    /// Builds an engine over a layout table, with layer 0 the default,
    /// no layer pushed, and every key up. An unacceptable table — see
    /// `valid_config` — is rejected.
    pub fn new(layers: Vec<Vec<Vec<Action>>>) -> (r: Option<Layout>)
        ensures
            r is Some <==> valid_config(layers_view(layers)),
            match r {
                Some(lay) => ({
                    &&& lay@.wf()
                    &&& lay@.layers == layers_view(layers)
                    &&& lay@.default_layer == 0
                    &&& lay@.stack == Seq::<u8>::empty()
                    &&& lay@.rows() == layers_view(layers)[0].len()
                    &&& forall|i: int, j: int|
                        0 <= i < lay@.rows() && 0 <= j < lay@.cols()
                            ==> #[trigger] lay@.keys[i][j] == KeyState::Idle
                }),
                None => true,
            },
    {
        let ghost lv = layers_view(layers);
        proof {
            lemma_layers_view_facts(layers);
        }
        let nl = layers.len();
        if nl < 1 || nl > 8 {
            return None;
        }
        let rows = layers[0].len();
        let cols = if rows > 0 {
            layers[0][0].len()
        } else {
            0
        };
        let mut l: usize = 0;
        while l < nl
            invariant
                lv == layers_view(layers),
                nl == lv.len(),
                1 <= nl <= 8,
                rows == lv[0].len(),
                cols == if rows > 0 {
                    lv[0][0].len() as int
                } else {
                    0
                },
                l <= nl,
                forall|i: int| 0 <= i < l ==> #[trigger] lv[i].len() == rows,
                forall|i: int, r: int|
                    0 <= i < l && 0 <= r < rows ==> #[trigger] lv[i][r].len() == cols,
                forall|i: int, r: int, c: int|
                    0 <= i < l && 0 <= r < rows && 0 <= c < cols ==> action_ok(
                        nl as int,
                        #[trigger] lv[i][r][c],
                    ),
            decreases nl - l,
        {
            if layers[l].len() != rows {
                proof {
                    assert(lv[l as int].len() == layers@[l as int]@.len());
                }
                return None;
            }
            let mut r: usize = 0;
            while r < rows
                invariant
                    lv == layers_view(layers),
                    nl == lv.len(),
                    1 <= nl <= 8,
                    l < nl,
                    rows == lv[0].len(),
                    r <= rows,
                    cols == if rows > 0 {
                        lv[0][0].len() as int
                    } else {
                        0
                    },
                    lv[l as int].len() == rows,
                    forall|rr: int| 0 <= rr < r ==> #[trigger] lv[l as int][rr].len() == cols,
                    forall|rr: int, c: int|
                        0 <= rr < r && 0 <= c < cols ==> action_ok(
                            nl as int,
                            #[trigger] lv[l as int][rr][c],
                        ),
                decreases rows - r,
            {
                if layers[l][r].len() != cols {
                    proof {
                        assert(lv[l as int].len() == layers@[l as int]@.len());
                        assert(lv[l as int][r as int].len() == layers@[l as int]@[r as int]@.len());
                    }
                    return None;
                }
                let mut c: usize = 0;
                while c < cols
                    invariant
                        lv == layers_view(layers),
                        nl == lv.len(),
                        1 <= nl <= 8,
                        l < nl,
                        r < rows,
                        rows == lv[0].len(),
                        c <= cols,
                        cols == lv[0][0].len() as int,
                        lv[l as int].len() == rows,
                        lv[l as int][r as int].len() == cols,
                        forall|cc: int|
                            0 <= cc < c ==> action_ok(
                                nl as int,
                                #[trigger] lv[l as int][r as int][cc],
                            ),
                    decreases cols - c,
                {
                    proof {
                        assert(lv[l as int][r as int][c as int] == layers@[l as int]@[r as int]@[c as int]);
                    }
                    let ok = match layers[l][r][c] {
                        Action::Simple(_) => true,
                        Action::Transparent => true,
                        Action::HoldTap { hold, tap, .. } => (hold as usize) < nl && (
                        tap as usize) < nl,
                        Action::ToggleLayer(d) => (d as usize) < nl,
                        Action::MomentaryLayer(ml) => (ml as usize) < nl,
                    };
                    if !ok {
                        proof {
                            assert(lv[l as int][r as int][c as int] == layers@[l as int]@[r as int]@[c as int]);
                        }
                        return None;
                    }
                    c += 1;
                }
                r += 1;
            }
            l += 1;
        }
        let mut keys: Vec<Vec<KeyState>> = Vec::new();
        let mut r: usize = 0;
        while r < rows
            invariant
                r <= rows,
                keys@.len() == r,
                forall|i: int| 0 <= i < r ==> #[trigger] keys@[i]@.len() == cols,
                forall|i: int, j: int|
                    0 <= i < r && 0 <= j < cols ==> #[trigger] keys@[i]@[j] == KeyState::Idle,
            decreases rows - r,
        {
            let mut row: Vec<KeyState> = Vec::new();
            let mut c: usize = 0;
            while c < cols
                invariant
                    c <= cols,
                    row@.len() == c,
                    forall|j: int| 0 <= j < c ==> #[trigger] row@[j] == KeyState::Idle,
                decreases cols - c,
            {
                row.push(KeyState::Idle);
                c += 1;
            }
            keys.push(row);
            r += 1;
        }
        let lay = Layout { layers, default_layer: 0, stack: Vec::new(), keys };
        proof {
            assert(valid_config(lv));
            assert(lay@.stack =~= Seq::<u8>::empty());
            assert(lay@.wf());
        }
        Some(lay)
    }

    /// Number of key rows.
    pub fn rows(&self) -> (n: usize)
        ensures
            n == self@.rows(),
    {
        self.keys.len()
    }

    /// Number of key columns.
    pub fn cols(&self) -> (n: usize)
        ensures
            n == self@.cols(),
    {
        if self.keys.len() > 0 {
            self.keys[0].len()
        } else {
            0
        }
    }

    /// The layer lookups resolve against right now.
    fn top_layer(&self) -> (l: u8)
        ensures
            l == self@.top_layer(),
    {
        if self.stack.len() > 0 {
            self.stack[self.stack.len() - 1]
        } else {
            self.default_layer
        }
    }

    /// The action of key `(r, c)` seen from `layer`, with transparent
    /// entries resolved downward.
    fn action_lookup(&self, layer: u8, r: usize, c: usize) -> (a: Option<Action>)
        requires
            self@.wf(),
            (layer as int) < self@.nlayers(),
            r < self@.rows(),
            c < self@.cols(),
        ensures
            a == self@.action_at(layer as int, r as int, c as int),
            match a {
                Some(act) => self@.wf_action(act) && !(act is Transparent),
                None => true,
            },
        decreases layer,
    {
        proof {
            lemma_layers_view_facts(self.layers);
            assert(self@.layers[layer as int].len() == self@.rows());
            assert(self@.layers[layer as int][r as int].len() == self@.cols());
        }
        let act = self.layers[layer as usize][r][c];
        proof {
            assert(act == self@.layers[layer as int][r as int][c as int]);
        }
        match act {
            Action::Transparent => if layer == 0 {
                None
            } else {
                self.action_lookup(layer - 1, r, c)
            },
            _ => Some(act),
        }
    }

    /// Applies one unified event to the engine state. A press first
    /// forces every other pending hold-tap key to its hold meaning, then
    /// acts by the pressed key's entry on the now-active layer; a release
    /// retires whatever the key was doing. Out-of-range coordinates and
    /// unmatched transitions are tolerated without effect.
    pub fn event(&mut self, e: Event)
        requires
            old(self)@.wf(),
        ensures
            final(self)@ == old(self)@.apply_event(e),
            final(self)@.wf(),
    {
        let r = e.row() as usize;
        let c = e.col() as usize;
        if r >= self.rows() || c >= self.cols() {
            return;
        }
        if e.is_press() {
            self.press(r, c);
        } else {
            self.release(r, c);
        }
    }

    fn press(&mut self, r: usize, c: usize)
        requires
            old(self)@.wf(),
            r < old(self)@.rows(),
            c < old(self)@.cols(),
        ensures
            final(self)@ == old(self)@.apply_press(r as int, c as int),
            final(self)@.wf(),
    {
        let ghost v0 = old(self)@;
        let rows = self.keys.len();
        let mut rr: usize = 0;
        while rr < rows
            invariant
                v0 == old(self)@,
                v0.wf(),
                r < v0.rows(),
                c < v0.cols(),
                rows == v0.rows(),
                rr <= rows,
                self@.layers == v0.layers,
                self.default_layer == v0.default_layer,
                self.keys@.len() == rows,
                forall|i: int| rr <= i < rows ==> #[trigger] self.keys@[i]@ == v0.keys[i],
                forall|i: int| 0 <= i < rr ==> #[trigger] self.keys@[i]@.len() == v0.cols(),
                forall|i: int, j: int|
                    0 <= i < rr && 0 <= j < v0.cols() ==> #[trigger] self.keys@[i]@[j] == (
                    if i == r && j == c {
                        v0.keys[i][j]
                    } else {
                        resolve_cell(v0.keys[i][j])
                    }),
                self.stack@ == v0.stack + pending_holds(v0.keys, r as int, c as int, rr as int),
                forall|i: int| 0 <= i < self.stack@.len() ==> #[trigger] self.stack@[i]
                    < v0.nlayers(),
            decreases rows - rr,
        {
            let cols = self.keys[rr].len();
            proof {
                assert(self.keys@[rr as int]@ == v0.keys[rr as int]);
            }
            let ghost skip: int = if rr == r {
                c as int
            } else {
                -1
            };
            let mut cc: usize = 0;
            while cc < cols
                invariant
                    v0 == old(self)@,
                    v0.wf(),
                    r < v0.rows(),
                    c < v0.cols(),
                    rows == v0.rows(),
                    rr < rows,
                    cols == v0.cols(),
                    cc <= cols,
                    skip == if rr == r {
                        c as int
                    } else {
                        -1int
                    },
                    self@.layers == v0.layers,
                    self.default_layer == v0.default_layer,
                    self.keys@.len() == rows,
                    self.keys@[rr as int]@.len() == cols,
                    forall|i: int| rr < i < rows ==> #[trigger] self.keys@[i]@ == v0.keys[i],
                    forall|j: int|
                        cc <= j < cols ==> #[trigger] self.keys@[rr as int]@[j] == v0.keys[rr as int][j],
                    forall|j: int|
                        0 <= j < cc ==> #[trigger] self.keys@[rr as int]@[j] == (
                        if rr == r && j == c {
                            v0.keys[rr as int][j]
                        } else {
                            resolve_cell(v0.keys[rr as int][j])
                        }),
                    forall|i: int| 0 <= i < rr ==> #[trigger] self.keys@[i]@.len() == v0.cols(),
                    forall|i: int, j: int|
                        0 <= i < rr && 0 <= j < v0.cols() ==> #[trigger] self.keys@[i]@[j] == (
                        if i == r && j == c {
                            v0.keys[i][j]
                        } else {
                            resolve_cell(v0.keys[i][j])
                        }),
                    self.stack@ == v0.stack + pending_holds(v0.keys, r as int, c as int, rr as int)
                        + pending_holds_row(v0.keys[rr as int], skip, cc as int),
                    forall|i: int| 0 <= i < self.stack@.len() ==> #[trigger] self.stack@[i]
                        < v0.nlayers(),
                decreases cols - cc,
            {
                let st = self.keys[rr][cc];
                if !(rr == r && cc == c) {
                    match st {
                        KeyState::Pending { hold, .. } => {
                            self.keys[rr].set(cc, KeyState::ResolvedHold(hold));
                            self.stack.push(hold);
                        },
                        _ => {},
                    }
                }
                cc += 1;
            }
            proof {
                assert(pending_holds(v0.keys, r as int, c as int, rr + 1) == pending_holds(
                    v0.keys,
                    r as int,
                    c as int,
                    rr as int,
                ) + pending_holds_row(v0.keys[rr as int], skip, cols as int));
                assert(self.stack@ == v0.stack + pending_holds(
                    v0.keys,
                    r as int,
                    c as int,
                    rr + 1,
                ));
            }
            rr += 1;
        }
        let ghost v1 = v0.force_resolve(r as int, c as int);
        proof {
            assert(self@.keys =~~= v1.keys);
            assert(self@ =~~= v1);
            assert forall|i: int, j: int|
                0 <= i < v1.rows() && 0 <= j < v1.cols() implies v1.wf_key(
                #[trigger] v1.keys[i][j],
            ) by {
                assert(v0.wf_key(v0.keys[i][j]));
            }
            assert(v1.wf());
        }
        let top = self.top_layer();
        let act = self.action_lookup(top, r, c);
        let st = self.keys[r][c];
        proof {
            assert(st == v1.keys[r as int][c as int]);
        }
        match st {
            KeyState::Idle => {
                match act {
                    None => {},
                    Some(Action::Simple(k)) => {
                        self.keys[r].set(c, KeyState::SimpleDown(k));
                    },
                    Some(Action::Transparent) => {},
                    Some(Action::HoldTap { hold, tap, timeout }) => {
                        self.keys[r].set(c, KeyState::Pending { elapsed: 0, hold, tap, timeout });
                    },
                    Some(Action::ToggleLayer(d)) => {
                        self.default_layer = d;
                        self.keys[r].set(c, KeyState::ToggleDown);
                    },
                    Some(Action::MomentaryLayer(ml)) => {
                        self.stack.push(ml);
                        self.keys[r].set(c, KeyState::MomentaryDown(ml));
                    },
                }
            },
            _ => {},
        }
        proof {
            assert(self@ =~~= v0.apply_press(r as int, c as int));
            assert forall|i: int, j: int|
                0 <= i < self@.rows() && 0 <= j < self@.cols() implies self@.wf_key(
                #[trigger] self@.keys[i][j],
            ) by {
                assert(v1.wf_key(v1.keys[i][j]));
            }
            assert(self@.wf());
        }
    }

    fn release(&mut self, r: usize, c: usize)
        requires
            old(self)@.wf(),
            r < old(self)@.rows(),
            c < old(self)@.cols(),
        ensures
            final(self)@ == old(self)@.apply_release(r as int, c as int),
            final(self)@.wf(),
    {
        let ghost v0 = old(self)@;
        proof {
            assert(self.keys@[r as int]@ == v0.keys[r as int]);
        }
        let st = self.keys[r][c];
        match st {
            KeyState::Idle => {},
            KeyState::SimpleDown(_) => {
                self.keys[r].set(c, KeyState::Idle);
            },
            KeyState::Pending { tap, .. } => {
                self.default_layer = tap;
                self.keys[r].set(c, KeyState::Idle);
            },
            KeyState::ResolvedHold(l) => {
                remove_last_layer(&mut self.stack, l);
                self.keys[r].set(c, KeyState::Idle);
                proof {
                    lemma_remove_last_occurrence_bound(v0.stack, l, v0.nlayers());
                }
            },
            KeyState::MomentaryDown(l) => {
                remove_last_layer(&mut self.stack, l);
                self.keys[r].set(c, KeyState::Idle);
                proof {
                    lemma_remove_last_occurrence_bound(v0.stack, l, v0.nlayers());
                }
            },
            KeyState::ToggleDown => {
                self.keys[r].set(c, KeyState::Idle);
            },
        }
        proof {
            assert(self@ =~~= v0.apply_release(r as int, c as int));
            assert forall|i: int, j: int|
                0 <= i < self@.rows() && 0 <= j < self@.cols() implies self@.wf_key(
                #[trigger] self@.keys[i][j],
            ) by {
                assert(v0.wf_key(v0.keys[i][j]));
            }
            assert(self@.wf());
        }
    }

    /// Advances every pending hold-tap key by one tick; a key whose
    /// decision window closes resolves to hold and pushes its layer.
    pub fn tick(&mut self)
        requires
            old(self)@.wf(),
        ensures
            final(self)@ == old(self)@.apply_tick(),
            final(self)@.wf(),
    {
        let ghost v0 = old(self)@;
        let rows = self.keys.len();
        let mut rr: usize = 0;
        while rr < rows
            invariant
                v0 == old(self)@,
                v0.wf(),
                rows == v0.rows(),
                rr <= rows,
                self@.layers == v0.layers,
                self.default_layer == v0.default_layer,
                self.keys@.len() == rows,
                forall|i: int| rr <= i < rows ==> #[trigger] self.keys@[i]@ == v0.keys[i],
                forall|i: int| 0 <= i < rr ==> #[trigger] self.keys@[i]@.len() == v0.cols(),
                forall|i: int, j: int|
                    0 <= i < rr && 0 <= j < v0.cols() ==> #[trigger] self.keys@[i]@[j]
                        == tick_cell(v0.keys[i][j]),
                self.stack@ == v0.stack + tick_holds(v0.keys, rr as int),
                forall|i: int| 0 <= i < self.stack@.len() ==> #[trigger] self.stack@[i]
                    < v0.nlayers(),
            decreases rows - rr,
        {
            let cols = self.keys[rr].len();
            proof {
                assert(self.keys@[rr as int]@ == v0.keys[rr as int]);
            }
            let mut cc: usize = 0;
            while cc < cols
                invariant
                    v0 == old(self)@,
                    v0.wf(),
                    rows == v0.rows(),
                    rr < rows,
                    cols == v0.cols(),
                    cc <= cols,
                    self@.layers == v0.layers,
                    self.default_layer == v0.default_layer,
                    self.keys@.len() == rows,
                    self.keys@[rr as int]@.len() == cols,
                    forall|i: int| rr < i < rows ==> #[trigger] self.keys@[i]@ == v0.keys[i],
                    forall|j: int|
                        cc <= j < cols ==> #[trigger] self.keys@[rr as int]@[j] == v0.keys[rr as int][j],
                    forall|j: int|
                        0 <= j < cc ==> #[trigger] self.keys@[rr as int]@[j] == tick_cell(
                            v0.keys[rr as int][j],
                        ),
                    forall|i: int| 0 <= i < rr ==> #[trigger] self.keys@[i]@.len() == v0.cols(),
                    forall|i: int, j: int|
                        0 <= i < rr && 0 <= j < v0.cols() ==> #[trigger] self.keys@[i]@[j]
                            == tick_cell(v0.keys[i][j]),
                    self.stack@ == v0.stack + tick_holds(v0.keys, rr as int) + tick_holds_row(
                        v0.keys[rr as int],
                        cc as int,
                    ),
                    forall|i: int| 0 <= i < self.stack@.len() ==> #[trigger] self.stack@[i]
                        < v0.nlayers(),
                decreases cols - cc,
            {
                let st = self.keys[rr][cc];
                match st {
                    KeyState::Pending { elapsed, hold, tap, timeout } => {
                        if timeout == 0 || elapsed >= timeout - 1 {
                            self.keys[rr].set(cc, KeyState::ResolvedHold(hold));
                            self.stack.push(hold);
                        } else {
                            self.keys[rr].set(
                                cc,
                                KeyState::Pending { elapsed: elapsed + 1, hold, tap, timeout },
                            );
                        }
                    },
                    _ => {},
                }
                cc += 1;
            }
            proof {
                assert(tick_holds(v0.keys, rr + 1) == tick_holds(v0.keys, rr as int)
                    + tick_holds_row(v0.keys[rr as int], cols as int));
            }
            rr += 1;
        }
        proof {
            assert(self@ =~~= v0.apply_tick());
            assert forall|i: int, j: int|
                0 <= i < self@.rows() && 0 <= j < self@.cols() implies self@.wf_key(
                #[trigger] self@.keys[i][j],
            ) by {
                assert(v0.wf_key(v0.keys[i][j]));
            }
            assert(self@.wf());
        }
    }

    /// The active-layer bit-mask: the default layer's bit and one bit per
    /// momentarily pushed layer.
    pub fn current_layer(&self) -> (m: u8)
        requires
            self@.wf(),
        ensures
            m == self@.layer_mask(),
    {
        let mut m: u8 = 0;
        let mut i: usize = 0;
        while i < self.stack.len()
            invariant
                self@.wf(),
                i <= self.stack@.len(),
                m == stack_mask_upto(self.stack@, i as int),
            decreases self.stack@.len() - i,
        {
            let l = self.stack[i];
            proof {
                assert(self@.stack[i as int] < self@.nlayers());
            }
            m = m | (1u8 << l);
            i += 1;
        }
        proof {
            assert(self@.default_layer < self@.nlayers());
        }
        m | (1u8 << self.default_layer)
    }

    /// The currently held keycodes, in row-major key order: the input of
    /// one report cycle.
    pub fn keycodes(&self) -> (out: Vec<u8>)
        requires
            self@.wf(),
        ensures
            out@ == self@.keycodes(),
    {
        let mut out: Vec<u8> = Vec::new();
        let rows = self.keys.len();
        let mut rr: usize = 0;
        while rr < rows
            invariant
                self@.wf(),
                rows == self@.rows(),
                rr <= rows,
                out@ == keycodes_upto(self@.keys, rr as int),
            decreases rows - rr,
        {
            let cols = self.keys[rr].len();
            proof {
                assert(self.keys@[rr as int]@ == self@.keys[rr as int]);
            }
            let mut cc: usize = 0;
            while cc < cols
                invariant
                    self@.wf(),
                    rows == self@.rows(),
                    rr < rows,
                    cols == self@.cols(),
                    cc <= cols,
                    out@ == keycodes_upto(self@.keys, rr as int) + keycodes_row_upto(
                        self@.keys[rr as int],
                        cc as int,
                    ),
                decreases cols - cc,
            {
                let st = self.keys[rr][cc];
                match st {
                    KeyState::SimpleDown(k) => {
                        out.push(k);
                    },
                    _ => {},
                }
                cc += 1;
            }
            rr += 1;
        }
        out
    }
}

/// The engine state after `n` consecutive ticks with no event between
/// them.
pub open spec fn ticks_n(v: LayoutView, n: nat) -> LayoutView
    decreases n,
{
    if n == 0 {
        v
    } else {
        ticks_n(v.apply_tick(), (n - 1) as nat)
    }
}

proof fn lemma_pending_holds_row_empty(row: Seq<KeyState>, skip: int, n: int)
    requires
        forall|j: int| 0 <= j < n ==> !(#[trigger] row[j] is Pending) || j == skip,
    ensures
        pending_holds_row(row, skip, n) == Seq::<u8>::empty(),
    decreases n,
{
    if n > 0 {
        lemma_pending_holds_row_empty(row, skip, n - 1);
        assert(pending_holds_row(row, skip, n) =~= Seq::<u8>::empty());
    }
}

proof fn lemma_pending_holds_empty(keys: Seq<Seq<KeyState>>, r: int, c: int, m: int)
    requires
        forall|i: int, j: int|
            0 <= i < m && 0 <= j < keys[i].len() ==> !(#[trigger] keys[i][j] is Pending) || (i == r
                && j == c),
    ensures
        pending_holds(keys, r, c, m) == Seq::<u8>::empty(),
    decreases m,
{
    if m > 0 {
        lemma_pending_holds_empty(keys, r, c, m - 1);
        lemma_pending_holds_row_empty(
            keys[m - 1],
            if m - 1 == r {
                c
            } else {
                -1
            },
            keys[m - 1].len() as int,
        );
        assert(pending_holds(keys, r, c, m) =~= Seq::<u8>::empty());
    }
}

proof fn lemma_tick_holds_row_empty(row: Seq<KeyState>, n: int)
    requires
        forall|j: int| 0 <= j < n ==> !tick_fires(#[trigger] row[j]),
    ensures
        tick_holds_row(row, n) == Seq::<u8>::empty(),
    decreases n,
{
    if n > 0 {
        lemma_tick_holds_row_empty(row, n - 1);
        assert(tick_holds_row(row, n) =~= Seq::<u8>::empty());
    }
}

proof fn lemma_tick_holds_empty(keys: Seq<Seq<KeyState>>, m: int)
    requires
        forall|i: int, j: int|
            0 <= i < m && 0 <= j < keys[i].len() ==> !tick_fires(#[trigger] keys[i][j]),
    ensures
        tick_holds(keys, m) == Seq::<u8>::empty(),
    decreases m,
{
    if m > 0 {
        lemma_tick_holds_empty(keys, m - 1);
        lemma_tick_holds_row_empty(keys[m - 1], keys[m - 1].len() as int);
        assert(tick_holds(keys, m) =~= Seq::<u8>::empty());
    }
}

proof fn lemma_tick_holds_row_single(row: Seq<KeyState>, n: int, c: int, h: u8)
    requires
        0 <= c < n,
        tick_fires(row[c]),
        pending_hold(row[c]) == h,
        forall|j: int| 0 <= j < n && j != c ==> !tick_fires(#[trigger] row[j]),
    ensures
        tick_holds_row(row, n) == seq![h],
    decreases n,
{
    if n - 1 == c {
        lemma_tick_holds_row_empty(row, n - 1);
        assert(tick_holds_row(row, n) =~= seq![h]);
    } else {
        lemma_tick_holds_row_single(row, n - 1, c, h);
        assert(tick_holds_row(row, n) =~= seq![h]);
    }
}

proof fn lemma_tick_holds_single(keys: Seq<Seq<KeyState>>, m: int, r: int, c: int, h: u8)
    requires
        0 <= r < m,
        0 <= c < keys[r].len(),
        tick_fires(keys[r][c]),
        pending_hold(keys[r][c]) == h,
        forall|i: int, j: int|
            0 <= i < m && 0 <= j < keys[i].len() && !(i == r && j == c) ==> !tick_fires(
                #[trigger] keys[i][j],
            ),
    ensures
        tick_holds(keys, m) == seq![h],
    decreases m,
{
    if m - 1 == r {
        lemma_tick_holds_empty(keys, m - 1);
        lemma_tick_holds_row_single(keys[r], keys[r].len() as int, c, h);
        assert(tick_holds(keys, m) =~= seq![h]);
    } else {
        lemma_tick_holds_single(keys, m - 1, r, c, h);
        lemma_tick_holds_row_empty(keys[m - 1], keys[m - 1].len() as int);
        assert(tick_holds(keys, m) =~= seq![h]);
    }
}

/// Whether every key other than `(r, c)` is idle and `(r, c)` is the one
/// pending hold-tap key, with the given configuration and elapsed count.
pub open spec fn single_pending(
    v: LayoutView,
    r: int,
    c: int,
    elapsed: u16,
    hold: u8,
    tap: u8,
    timeout: u16,
) -> bool {
    &&& 0 <= r < v.rows()
    &&& 0 <= c < v.cols()
    &&& forall|i: int| 0 <= i < v.rows() ==> #[trigger] v.keys[i].len() == v.cols()
    &&& v.keys[r][c] == (KeyState::Pending { elapsed, hold, tap, timeout })
    &&& forall|i: int, j: int|
        0 <= i < v.rows() && 0 <= j < v.cols() && !(i == r && j == c)
            ==> #[trigger] v.keys[i][j] == KeyState::Idle
}

/// While the one pending key's window stays open, ticks only advance its
/// elapsed count; nothing else moves.
proof fn lemma_ticks_pending_stays(
    v: LayoutView,
    r: int,
    c: int,
    elapsed: u16,
    hold: u8,
    tap: u8,
    timeout: u16,
    k: nat,
)
    requires
        single_pending(v, r, c, elapsed, hold, tap, timeout),
        elapsed + k < timeout,
    ensures
        ticks_n(v, k) == (LayoutView {
            keys: v.keys.update(
                r,
                v.keys[r].update(
                    c,
                    KeyState::Pending { elapsed: (elapsed + k) as u16, hold, tap, timeout },
                ),
            ),
            ..v
        }),
        single_pending(ticks_n(v, k), r, c, (elapsed + k) as u16, hold, tap, timeout),
    decreases k,
{
    if k == 0 {
        assert(v.keys.update(
            r,
            v.keys[r].update(c, KeyState::Pending { elapsed, hold, tap, timeout }),
        ) =~~= v.keys);
        assert(ticks_n(v, 0) =~~= (LayoutView {
            keys: v.keys.update(
                r,
                v.keys[r].update(c, KeyState::Pending { elapsed, hold, tap, timeout }),
            ),
            ..v
        }));
    } else {
        let v1 = v.apply_tick();
        assert forall|i: int, j: int|
            0 <= i < v.rows() && 0 <= j < v.cols() && !(i == r && j == c) implies !tick_fires(
            #[trigger] v.keys[i][j],
        ) by {
            assert(v.keys[i][j] == KeyState::Idle);
        }
        lemma_tick_holds_empty(v.keys, v.rows());
        assert(v1.stack =~= v.stack);
        assert(v1.keys =~~= v.keys.update(
            r,
            v.keys[r].update(
                c,
                KeyState::Pending { elapsed: (elapsed + 1) as u16, hold, tap, timeout },
            ),
        ));
        assert(single_pending(v1, r, c, (elapsed + 1) as u16, hold, tap, timeout));
        lemma_ticks_pending_stays(v1, r, c, (elapsed + 1) as u16, hold, tap, timeout, (k - 1) as nat);
        assert(v1.keys.update(
            r,
            v1.keys[r].update(
                c,
                KeyState::Pending { elapsed: (elapsed + k) as u16, hold, tap, timeout },
            ),
        ) =~~= v.keys.update(
            r,
            v.keys[r].update(
                c,
                KeyState::Pending { elapsed: (elapsed + k) as u16, hold, tap, timeout },
            ),
        ));
    }
}

/// Once no key is pending, further ticks change nothing.
proof fn lemma_ticks_no_pending(v: LayoutView, k: nat)
    requires
        forall|i: int| 0 <= i < v.rows() ==> #[trigger] v.keys[i].len() == v.cols(),
        forall|i: int, j: int|
            0 <= i < v.rows() && 0 <= j < v.cols() ==> !(#[trigger] v.keys[i][j] is Pending),
    ensures
        ticks_n(v, k) == v,
    decreases k,
{
    if k > 0 {
        assert forall|i: int, j: int|
            0 <= i < v.rows() && 0 <= j < v.cols() implies !tick_fires(
            #[trigger] v.keys[i][j],
        ) by {}
        lemma_tick_holds_empty(v.keys, v.rows());
        let v1 = v.apply_tick();
        assert(v1.stack =~= v.stack);
        assert(v1.keys =~~= v.keys);
        assert(v1 =~~= v);
        lemma_ticks_no_pending(v1, (k - 1) as nat);
    }
}

/// Running out the decision window from a lone pending key: its layer is
/// pushed exactly once and the key stays resolved as hold.
proof fn lemma_ticks_pending_resolves(
    v: LayoutView,
    r: int,
    c: int,
    elapsed: u16,
    hold: u8,
    tap: u8,
    timeout: u16,
    n: nat,
)
    requires
        single_pending(v, r, c, elapsed, hold, tap, timeout),
        elapsed <= timeout,
        n >= 1,
        elapsed + n >= timeout,
    ensures
        ticks_n(v, n) == (LayoutView {
            keys: v.keys.update(r, v.keys[r].update(c, KeyState::ResolvedHold(hold))),
            stack: v.stack.push(hold),
            ..v
        }),
    decreases n,
{
    let v1 = v.apply_tick();
    if elapsed + 1 >= timeout {
        // This tick closes the window: the key resolves and pushes its
        // hold layer; afterwards nothing is pending any more.
        assert forall|i: int, j: int|
            0 <= i < v.rows() && 0 <= j < v.cols() && !(i == r && j == c) implies !tick_fires(
            #[trigger] v.keys[i][j],
        ) by {
            assert(v.keys[i][j] == KeyState::Idle);
        }
        lemma_tick_holds_single(v.keys, v.rows(), r, c, hold);
        assert(v1.stack =~= v.stack.push(hold));
        assert(v1.keys =~~= v.keys.update(r, v.keys[r].update(c, KeyState::ResolvedHold(hold))));
        assert forall|i: int, j: int|
            0 <= i < v1.rows() && 0 <= j < v1.cols() implies !(#[trigger] v1.keys[i][j]
            is Pending) by {
            if !(i == r && j == c) {
                assert(v.keys[i][j] == KeyState::Idle);
            }
        }
        lemma_ticks_no_pending(v1, (n - 1) as nat);
        assert(ticks_n(v, n) =~~= (LayoutView {
            keys: v.keys.update(r, v.keys[r].update(c, KeyState::ResolvedHold(hold))),
            stack: v.stack.push(hold),
            ..v
        }));
    } else {
        assert forall|i: int, j: int|
            0 <= i < v.rows() && 0 <= j < v.cols() && !(i == r && j == c) implies !tick_fires(
            #[trigger] v.keys[i][j],
        ) by {
            assert(v.keys[i][j] == KeyState::Idle);
        }
        lemma_tick_holds_empty(v.keys, v.rows());
        assert(v1.stack =~= v.stack);
        assert(v1.keys =~~= v.keys.update(
            r,
            v.keys[r].update(
                c,
                KeyState::Pending { elapsed: (elapsed + 1) as u16, hold, tap, timeout },
            ),
        ));
        assert(single_pending(v1, r, c, (elapsed + 1) as u16, hold, tap, timeout));
        lemma_ticks_pending_resolves(
            v1,
            r,
            c,
            (elapsed + 1) as u16,
            hold,
            tap,
            timeout,
            (n - 1) as nat,
        );
        assert(v1.keys.update(r, v1.keys[r].update(c, KeyState::ResolvedHold(hold))) =~~= v.keys
            .update(r, v.keys[r].update(c, KeyState::ResolvedHold(hold))));
    }
}

/// What pressing a hold-tap key does when every key is idle: only that
/// key moves, to pending with a fresh count; no layer is pushed and the
/// default layer is untouched.
proof fn lemma_press_holdtap_from_idle(
    v: LayoutView,
    r: int,
    c: int,
    hold: u8,
    tap: u8,
    timeout: u16,
)
    requires
        0 <= r < v.rows(),
        0 <= c < v.cols(),
        forall|i: int| 0 <= i < v.rows() ==> #[trigger] v.keys[i].len() == v.cols(),
        forall|i: int, j: int|
            0 <= i < v.rows() && 0 <= j < v.cols() ==> #[trigger] v.keys[i][j] == KeyState::Idle,
        v.action_at(v.top_layer() as int, r, c) == Some(
            Action::HoldTap { hold, tap, timeout },
        ),
    ensures
        v.apply_press(r, c) == (LayoutView {
            keys: v.keys.update(
                r,
                v.keys[r].update(c, KeyState::Pending { elapsed: 0, hold, tap, timeout }),
            ),
            ..v
        }),
{
    let fr = v.force_resolve(r, c);
    assert forall|i: int, j: int|
        0 <= i < v.rows() && 0 <= j < v.keys[i].len() implies !(#[trigger] v.keys[i][j]
        is Pending) || (i == r && j == c) by {
        assert(v.keys[i][j] == KeyState::Idle);
    }
    lemma_pending_holds_empty(v.keys, r, c, v.rows());
    assert(fr.stack =~= v.stack);
    assert(fr.keys =~~= v.keys);
    assert(fr =~~= v);
    assert(fr.keys[r][c] == KeyState::Idle);
}

/// Hold/tap resolution, hold direction: a hold-tap key pressed while the
/// keyboard is otherwise idle and then left alone for at least its
/// timeout in ticks resolves to hold — its hold layer is pushed, exactly
/// once, before any release — and the default layer is untouched.
pub proof fn lemma_holdtap_resolves_hold(
    v: LayoutView,
    r: u8,
    c: u8,
    hold: u8,
    tap: u8,
    timeout: u16,
    n: nat,
)
    requires
        (r as int) < v.rows(),
        (c as int) < v.cols(),
        forall|i: int| 0 <= i < v.rows() ==> #[trigger] v.keys[i].len() == v.cols(),
        forall|i: int, j: int|
            0 <= i < v.rows() && 0 <= j < v.cols() ==> #[trigger] v.keys[i][j] == KeyState::Idle,
        v.action_at(v.top_layer() as int, r as int, c as int) == Some(
            Action::HoldTap { hold, tap, timeout },
        ),
        timeout >= 1,
        n >= timeout,
    ensures
        ticks_n(v.apply_event(Event::Press(r, c)), n).keys[r as int][c as int]
            == KeyState::ResolvedHold(hold),
        ticks_n(v.apply_event(Event::Press(r, c)), n).stack == v.stack.push(hold),
        ticks_n(v.apply_event(Event::Press(r, c)), n).default_layer == v.default_layer,
        ticks_n(v.apply_event(Event::Press(r, c)), n).layers == v.layers,
{
    lemma_press_holdtap_from_idle(v, r as int, c as int, hold, tap, timeout);
    let v1 = v.apply_event(Event::Press(r, c));
    assert(single_pending(v1, r as int, c as int, 0, hold, tap, timeout));
    lemma_ticks_pending_resolves(v1, r as int, c as int, 0, hold, tap, timeout, n);
}

/// Hold/tap resolution, tap direction: the same key pressed and released
/// within fewer than its timeout ticks, with no other key event between,
/// resolves to tap — the default layer switches to the tap layer — and no
/// layer is ever pushed along the way.
pub proof fn lemma_holdtap_resolves_tap(
    v: LayoutView,
    r: u8,
    c: u8,
    hold: u8,
    tap: u8,
    timeout: u16,
    k: nat,
)
    requires
        (r as int) < v.rows(),
        (c as int) < v.cols(),
        forall|i: int| 0 <= i < v.rows() ==> #[trigger] v.keys[i].len() == v.cols(),
        forall|i: int, j: int|
            0 <= i < v.rows() && 0 <= j < v.cols() ==> #[trigger] v.keys[i][j] == KeyState::Idle,
        v.action_at(v.top_layer() as int, r as int, c as int) == Some(
            Action::HoldTap { hold, tap, timeout },
        ),
        k < timeout,
    ensures
        ticks_n(v.apply_event(Event::Press(r, c)), k).stack == v.stack,
        ticks_n(v.apply_event(Event::Press(r, c)), k).apply_event(
            Event::Release(r, c),
        ).default_layer == tap,
        ticks_n(v.apply_event(Event::Press(r, c)), k).apply_event(Event::Release(r, c)).stack
            == v.stack,
        ticks_n(v.apply_event(Event::Press(r, c)), k).apply_event(Event::Release(r, c)).keys[
            r as int][c as int] == KeyState::Idle,
{
    lemma_press_holdtap_from_idle(v, r as int, c as int, hold, tap, timeout);
    let v1 = v.apply_event(Event::Press(r, c));
    assert(single_pending(v1, r as int, c as int, 0, hold, tap, timeout));
    lemma_ticks_pending_stays(v1, r as int, c as int, 0, hold, tap, timeout, k);
    let mid = ticks_n(v1, k);
    assert(mid.keys[r as int][c as int] == (KeyState::Pending {
        elapsed: k as u16,
        hold,
        tap,
        timeout,
    }));
}

} // verus!
