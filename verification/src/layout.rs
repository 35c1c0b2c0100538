//! Layout engine: a layered keymap interpreter with a hold-tap
//! sub-state-machine. `apply` consumes confirmed press/release events and
//! `tick` advances time by one unit, returning the freshly derived set of
//! active key codes plus any custom-action signal.
//!
//! The keymap is a grid of actions per layer; layer 0 is the permanent
//! base and must have no transparent cell. Layer actions push and pop a
//! stack of momentarily active layers; when several active layers bind a
//! coordinate, the most recently activated one that is not transparent
//! wins. A hold-tap action stays undecided while its key is down: releasing
//! it before its timeout yields the tap action as a one-shot, surviving
//! until the timeout (or, under the hold-on-other-press policy, pressing
//! any other key first) yields the hold action until the key is released.
//! A hold-tap's own hold and tap slots are interpreted one level deep: a
//! key or a layer acts as such, anything else acts as a no-op.
//!
//! The active key set is recomputed from scratch on every tick by walking
//! the currently pressed coordinates through the current layer lookup, so
//! it can never drift from the layer and hold-tap state.

use vstd::prelude::*;

use crate::event::KeyEvent;

verus! {

/// How an undecided hold-tap reacts to another key being pressed first:
/// resolve as hold at once, or keep waiting for timeout or release.
#[derive(Clone, Copy, PartialEq, Eq, Structural, Debug)]
pub enum InterruptPolicy {
    HoldOnOtherPress,
    TimeoutOnly,
}

/// One cell of the keymap.
#[derive(Debug)]
pub enum Action {
    /// Defer to the next active layer below, and finally to the base.
    Trans,
    /// Do nothing.
    NoOp,
    /// Assert a key code while the key is held.
    Key(u8),
    /// Activate a layer while the key is held.
    Layer(u8),
    /// Tap one action or hold another, decided by timing and interruption.
    HoldTap(Box<HoldTapAction>),
    /// Emit an opaque signal for an external collaborator.
    Custom(u8),
}

/// The two outcomes, timeout and policy of one hold-tap cell.
#[derive(Debug)]
pub struct HoldTapAction {
    pub hold: Action,
    pub tap: Action,
    pub timeout: u16,
    pub policy: InterruptPolicy,
}

/// Per-coordinate engine state while a key is physically down.
#[derive(Clone, Copy, PartialEq, Eq, Structural, Debug)]
pub enum KeyState {
    /// The key contributes through the current layer lookup each tick.
    Passive,
    /// The key pushed this layer on press; its release pops it.
    LayerHeld(u8),
    /// An undecided hold-tap, bound at press time to the layer it resolved
    /// through, with `left` ticks to its timeout.
    HtWaiting { layer: u8, left: u16 },
    /// A hold-tap resolved as hold.
    HtHeld { layer: u8 },
}

/// One currently pressed coordinate and its state.
#[derive(Clone, Copy, PartialEq, Eq, Structural, Debug)]
pub struct PressedKey {
    pub row: u8,
    pub col: u8,
    pub state: KeyState,
}

/// The mathematical state of the layout engine.
#[verifier::ext_equal]
pub ghost struct LayoutView {
    pub layers: Seq<Seq<Seq<Action>>>,
    pub rows: u8,
    pub cols: u8,
    pub stack: Seq<u8>,
    pub pressed: Seq<PressedKey>,
    pub oneshots: Seq<u8>,
}

/// Whether an action only mentions layers the keymap has, and whether
/// every hold-tap has a positive timeout.
pub open spec fn action_ok(a: Action, num_layers: int) -> bool
    decreases a,
{
    match a {
        Action::Layer(n) => (n as int) < num_layers,
        Action::HoldTap(ht) => (*ht).timeout >= 1 && action_ok((*ht).hold, num_layers)
            && action_ok((*ht).tap, num_layers),
        _ => true,
    }
}

/// The hold-tap data of a cell known to be a hold-tap.
pub open spec fn ht_of(a: Action) -> HoldTapAction
    recommends
        a is HoldTap,
{
    match a {
        Action::HoldTap(ht) => *ht,
        _ => arbitrary(),
    }
}

impl LayoutView {
    pub open spec fn num_layers(self) -> int {
        self.layers.len() as int
    }

    /// The action bound at one cell of one layer.
    pub open spec fn cell(self, layer: int, r: int, c: int) -> Action {
        self.layers[layer][r][c]
    }

    /// Every layer is a `rows` by `cols` grid.
    pub open spec fn dims_ok(self) -> bool {
        &&& 1 <= self.layers.len() <= 256
        &&& forall|l: int|
            0 <= l < self.layers.len() ==> (#[trigger] self.layers[l]).len() == self.rows as int
        &&& forall|l: int, r: int|
            0 <= l < self.layers.len() && 0 <= r < self.rows as int ==> (
            #[trigger] self.layers[l][r]).len() == self.cols as int
    }

    /// Every cell's action is valid for this keymap.
    pub open spec fn actions_ok(self) -> bool {
        forall|l: int, r: int, c: int|
            0 <= l < self.layers.len() && 0 <= r < self.rows as int && 0 <= c < self.cols as int
                ==> action_ok(#[trigger] self.cell(l, r, c), self.num_layers())
    }

    /// The base layer resolves every coordinate to a concrete action.
    pub open spec fn base_ok(self) -> bool {
        forall|r: int, c: int|
            0 <= r < self.rows as int && 0 <= c < self.cols as int ==> !(#[trigger] self.cell(
                0,
                r,
                c,
            ) is Trans)
    }

    /// Every stacked layer index is a real layer.
    pub open spec fn stack_ok(self) -> bool {
        forall|i: int|
            0 <= i < self.stack.len() ==> (#[trigger] self.stack[i] as int) < self.num_layers()
    }

    /// One pressed entry's state refers to real layers, and hold-tap
    /// states point back at an actual hold-tap cell with time remaining.
    pub open spec fn state_ok(self, pk: PressedKey) -> bool {
        match pk.state {
            KeyState::Passive => true,
            KeyState::LayerHeld(n) => (n as int) < self.num_layers(),
            KeyState::HtWaiting { layer, left } => (layer as int) < self.num_layers()
                && self.cell(layer as int, pk.row as int, pk.col as int) is HoldTap && left >= 1,
            KeyState::HtHeld { layer } => (layer as int) < self.num_layers() && self.cell(
                layer as int,
                pk.row as int,
                pk.col as int,
            ) is HoldTap,
        }
    }

    /// Every pressed entry is in range and sound.
    pub open spec fn pressed_ok(self) -> bool {
        forall|i: int|
            0 <= i < self.pressed.len() ==> (#[trigger] self.pressed[i]).row < self.rows
                && self.pressed[i].col < self.cols && self.state_ok(self.pressed[i])
    }

    /// No coordinate is pressed twice.
    pub open spec fn distinct_ok(self) -> bool {
        forall|i: int, j: int|
            0 <= i < j < self.pressed.len() ==> !((#[trigger] self.pressed[i]).row == (
            #[trigger] self.pressed[j]).row && self.pressed[i].col == self.pressed[j].col)
    }

    /// Well-formedness: established by the constructor and preserved by
    /// every event and every tick.
    pub open spec fn wf(self) -> bool {
        &&& self.dims_ok()
        &&& self.actions_ok()
        &&& self.base_ok()
        &&& self.stack_ok()
        &&& self.pressed_ok()
        &&& self.distinct_ok()
    }

    /// The layer a coordinate resolves through: the most recently
    /// activated layer whose cell is not transparent, the base otherwise.
    pub open spec fn resolved_layer(self, r: int, c: int) -> u8 {
        resolve_from(self.layers, self.stack, r, c)
    }

    /// The action a coordinate currently resolves to.
    pub open spec fn lookup(self, r: int, c: int) -> Action {
        self.cell(self.resolved_layer(r, c) as int, r, c)
    }
}

/// Walks the active layers from the most recent down, falling back to the
/// base layer.
pub open spec fn resolve_from(layers: Seq<Seq<Seq<Action>>>, stack: Seq<u8>, r: int, c: int) -> u8
    decreases stack.len(),
{
    if stack.len() == 0 {
        0u8
    } else if !(layers[stack.last() as int][r][c] is Trans) {
        stack.last()
    } else {
        resolve_from(layers, stack.drop_last(), r, c)
    }
}

/// Index of the pressed entry at `(r, c)`, or -1 if that coordinate is
/// not pressed.
pub open spec fn find_pressed(pressed: Seq<PressedKey>, r: u8, c: u8) -> int
    decreases pressed.len(),
{
    if pressed.len() == 0 {
        -1
    } else if pressed[0].row == r && pressed[0].col == c {
        0
    } else {
        let t = find_pressed(pressed.drop_first(), r, c);
        if t == -1 {
            -1
        } else {
            t + 1
        }
    }
}

/// The stack with its most recent occurrence of `n` removed, if any.
pub open spec fn remove_last_occurrence(stack: Seq<u8>, n: u8) -> Seq<u8>
    decreases stack.len(),
{
    if stack.len() == 0 {
        stack
    } else if stack.last() == n {
        stack.drop_last()
    } else {
        remove_last_occurrence(stack.drop_last(), n).push(stack.last())
    }
}

/// The hold action of an undecided or held hold-tap entry.
pub open spec fn hold_of(v: LayoutView, layer: u8, r: u8, c: u8) -> Action {
    ht_of(v.cell(layer as int, r as int, c as int)).hold
}

/// The tap action of a hold-tap entry.
pub open spec fn tap_of(v: LayoutView, layer: u8, r: u8, c: u8) -> Action {
    ht_of(v.cell(layer as int, r as int, c as int)).tap
}

/// The layer pushed when a waiting hold-tap entry resolves as hold: one
/// element if the hold action is a layer, nothing otherwise.
pub open spec fn hold_layer_push(v: LayoutView, pk: PressedKey) -> Seq<u8> {
    match pk.state {
        KeyState::HtWaiting { layer, .. } => match hold_of(v, layer, pk.row, pk.col) {
            Action::Layer(n) => seq![n],
            _ => Seq::empty(),
        },
        _ => Seq::empty(),
    }
}

/// The one-shot key codes queued when a waiting hold-tap entry resolves
/// as tap: its tap key code if the tap action is a key, nothing otherwise.
pub open spec fn tap_codes(v: LayoutView, layer: u8, r: u8, c: u8) -> Seq<u8> {
    match tap_of(v, layer, r, c) {
        Action::Key(kc) => seq![kc],
        _ => Seq::empty(),
    }
}

/// Whether a press of a different key resolves this entry as hold at once.
pub open spec fn hop_resolves(v: LayoutView, pk: PressedKey) -> bool {
    match pk.state {
        KeyState::HtWaiting { layer, .. } => ht_of(
            v.cell(layer as int, pk.row as int, pk.col as int),
        ).policy is HoldOnOtherPress,
        _ => false,
    }
}

/// An undecided hold-tap entry turned into a held one.
pub open spec fn resolve_to_held(pk: PressedKey) -> PressedKey {
    match pk.state {
        KeyState::HtWaiting { layer, .. } => PressedKey {
            row: pk.row,
            col: pk.col,
            state: KeyState::HtHeld { layer },
        },
        _ => pk,
    }
}

/// The first `n` pressed entries after an interrupting press: undecided
/// hold-on-other-press entries resolve as hold, everything else stays.
pub open spec fn interrupts_resolved(v: LayoutView, n: int) -> Seq<PressedKey>
    decreases n,
{
    if n <= 0 {
        Seq::empty()
    } else {
        interrupts_resolved(v, n - 1).push(
            if hop_resolves(v, v.pressed[n - 1]) {
                resolve_to_held(v.pressed[n - 1])
            } else {
                v.pressed[n - 1]
            },
        )
    }
}

/// The layers pushed, in press order, by the hold actions of the entries
/// an interrupting press resolves.
pub open spec fn interrupt_pushes(v: LayoutView, n: int) -> Seq<u8>
    decreases n,
{
    if n <= 0 {
        Seq::empty()
    } else {
        interrupt_pushes(v, n - 1) + (
        if hop_resolves(v, v.pressed[n - 1]) {
            hold_layer_push(v, v.pressed[n - 1])
        } else {
            Seq::empty()
        })
    }
}

/// A press at an in-range, not-yet-pressed coordinate: first any undecided
/// hold-on-other-press entries resolve as hold (their hold layers
/// activating in press order), then the new coordinate resolves through
/// the updated stack and joins the pressed set in the state its action
/// calls for.
pub open spec fn spec_apply_press(v: LayoutView, r: u8, c: u8) -> LayoutView {
    let pressed2 = interrupts_resolved(v, v.pressed.len() as int);
    let stack2 = v.stack + interrupt_pushes(v, v.pressed.len() as int);
    let li = resolve_from(v.layers, stack2, r as int, c as int);
    let a = v.layers[li as int][r as int][c as int];
    match a {
        Action::Layer(n) => LayoutView {
            stack: stack2.push(n),
            pressed: pressed2.push(PressedKey { row: r, col: c, state: KeyState::LayerHeld(n) }),
            ..v
        },
        Action::HoldTap(ht) => LayoutView {
            stack: stack2,
            pressed: pressed2.push(
                PressedKey {
                    row: r,
                    col: c,
                    state: KeyState::HtWaiting { layer: li, left: (*ht).timeout },
                },
            ),
            ..v
        },
        _ => LayoutView {
            stack: stack2,
            pressed: pressed2.push(PressedKey { row: r, col: c, state: KeyState::Passive }),
            ..v
        },
    }
}

/// A release of a pressed coordinate: the entry leaves the pressed set;
/// a held layer pops, an undecided hold-tap resolves as tap queuing its
/// one-shot, a held hold-tap releases its hold action.
pub open spec fn spec_apply_release(v: LayoutView, r: u8, c: u8) -> LayoutView {
    let i = find_pressed(v.pressed, r, c);
    let pk = v.pressed[i];
    let pressed2 = v.pressed.remove(i);
    match pk.state {
        KeyState::Passive => LayoutView { pressed: pressed2, ..v },
        KeyState::LayerHeld(n) => LayoutView {
            pressed: pressed2,
            stack: remove_last_occurrence(v.stack, n),
            ..v
        },
        KeyState::HtWaiting { layer, .. } => LayoutView {
            pressed: pressed2,
            oneshots: v.oneshots + tap_codes(v, layer, r, c),
            ..v
        },
        KeyState::HtHeld { layer } => match hold_of(v, layer, r, c) {
            Action::Layer(n) => LayoutView {
                pressed: pressed2,
                stack: remove_last_occurrence(v.stack, n),
                ..v
            },
            _ => LayoutView { pressed: pressed2, ..v },
        },
    }
}

/// One event applied to the engine. An out-of-range coordinate, a repeated
/// press and a release of an unpressed coordinate leave the state as it
/// is.
pub open spec fn spec_apply(v: LayoutView, e: KeyEvent) -> LayoutView {
    let r = e.spec_row();
    let c = e.spec_col();
    if !(r < v.rows && c < v.cols) {
        v
    } else if e.spec_is_press() {
        if find_pressed(v.pressed, r, c) >= 0 {
            v
        } else {
            spec_apply_press(v, r, c)
        }
    } else {
        if find_pressed(v.pressed, r, c) < 0 {
            v
        } else {
            spec_apply_release(v, r, c)
        }
    }
}

/// Whether this tick resolves an undecided hold-tap entry by timeout.
pub open spec fn tick_resolves(pk: PressedKey) -> bool {
    match pk.state {
        KeyState::HtWaiting { left, .. } => left <= 1,
        _ => false,
    }
}

/// One pressed entry advanced by one tick: an undecided hold-tap counts
/// down, resolving as hold when its time is up; everything else is
/// unchanged.
pub open spec fn tick_pk(pk: PressedKey) -> PressedKey {
    match pk.state {
        KeyState::HtWaiting { layer, left } => if left <= 1 {
            PressedKey { row: pk.row, col: pk.col, state: KeyState::HtHeld { layer } }
        } else {
            PressedKey {
                row: pk.row,
                col: pk.col,
                state: KeyState::HtWaiting { layer, left: (left - 1) as u16 },
            }
        },
        _ => pk,
    }
}

/// The first `n` pressed entries advanced by one tick.
pub open spec fn ticked_pressed(pressed: Seq<PressedKey>, n: int) -> Seq<PressedKey>
    decreases n,
{
    if n <= 0 {
        Seq::empty()
    } else {
        ticked_pressed(pressed, n - 1).push(tick_pk(pressed[n - 1]))
    }
}

/// The layers pushed, in press order, by hold-taps this tick resolves.
pub open spec fn tick_pushes(v: LayoutView, n: int) -> Seq<u8>
    decreases n,
{
    if n <= 0 {
        Seq::empty()
    } else {
        tick_pushes(v, n - 1) + (
        if tick_resolves(v.pressed[n - 1]) {
            hold_layer_push(v, v.pressed[n - 1])
        } else {
            Seq::empty()
        })
    }
}

/// The engine state after one tick: timers advanced, newly resolved hold
/// layers activated, one-shots consumed.
pub open spec fn spec_tick_state(v: LayoutView) -> LayoutView {
    LayoutView {
        pressed: ticked_pressed(v.pressed, v.pressed.len() as int),
        stack: v.stack + tick_pushes(v, v.pressed.len() as int),
        oneshots: Seq::empty(),
        ..v
    }
}

/// The key codes one pressed entry contributes after the tick: a passive
/// key contributes what the current lookup binds it to, a held hold-tap
/// its hold key code; held layers and undecided hold-taps contribute
/// nothing.
pub open spec fn key_contrib(w: LayoutView, pk: PressedKey) -> Seq<u8> {
    match pk.state {
        KeyState::Passive => match w.lookup(pk.row as int, pk.col as int) {
            Action::Key(kc) => seq![kc],
            _ => Seq::empty(),
        },
        KeyState::HtHeld { layer } => match hold_of(w, layer, pk.row, pk.col) {
            Action::Key(kc) => seq![kc],
            _ => Seq::empty(),
        },
        _ => Seq::empty(),
    }
}

/// Key codes contributed by the first `n` pressed entries of the ticked
/// state, in press order.
pub open spec fn derived_keys_upto(w: LayoutView, n: int) -> Seq<u8>
    decreases n,
{
    if n <= 0 {
        Seq::empty()
    } else {
        derived_keys_upto(w, n - 1) + key_contrib(w, w.pressed[n - 1])
    }
}

/// The active key codes one tick reports: the fresh derivation over all
/// pressed coordinates, followed by the one-shot taps queued since the
/// previous tick.
pub open spec fn spec_tick_keys(v: LayoutView) -> Seq<u8> {
    let w = spec_tick_state(v);
    derived_keys_upto(w, w.pressed.len() as int) + v.oneshots
}

/// The custom signal one passive entry contributes, if its lookup is a
/// custom action.
pub open spec fn signal_contrib(w: LayoutView, pk: PressedKey) -> Option<u8> {
    match pk.state {
        KeyState::Passive => match w.lookup(pk.row as int, pk.col as int) {
            Action::Custom(p) => Some(p),
            _ => None,
        },
        _ => None,
    }
}

/// The first custom signal among the first `n` pressed entries.
pub open spec fn derived_signal_upto(w: LayoutView, n: int) -> Option<u8>
    decreases n,
{
    if n <= 0 {
        None
    } else {
        let prev = derived_signal_upto(w, n - 1);
        if prev is Some {
            prev
        } else {
            signal_contrib(w, w.pressed[n - 1])
        }
    }
}

/// The custom signal one tick reports: that of the first pressed
/// coordinate currently resolving to a custom action, if any.
pub open spec fn spec_tick_signal(v: LayoutView) -> Option<u8> {
    let w = spec_tick_state(v);
    derived_signal_upto(w, w.pressed.len() as int)
}

/// Pointwise description of the interrupt-resolved pressed entries.
pub proof fn lemma_interrupts_resolved_points(v: LayoutView, n: int)
    requires
        0 <= n <= v.pressed.len(),
    ensures
        interrupts_resolved(v, n).len() == n,
        forall|i: int|
            0 <= i < n ==> #[trigger] interrupts_resolved(v, n)[i] == (
            if hop_resolves(v, v.pressed[i]) {
                resolve_to_held(v.pressed[i])
            } else {
                v.pressed[i]
            }),
    decreases n,
{
    if n > 0 {
        lemma_interrupts_resolved_points(v, n - 1);
    }
}

/// Pointwise description of the ticked pressed entries.
pub proof fn lemma_ticked_pressed_points(pressed: Seq<PressedKey>, n: int)
    requires
        0 <= n <= pressed.len(),
    ensures
        ticked_pressed(pressed, n).len() == n,
        forall|i: int|
            0 <= i < n ==> #[trigger] ticked_pressed(pressed, n)[i] == tick_pk(pressed[i]),
    decreases n,
{
    if n > 0 {
        lemma_ticked_pressed_points(pressed, n - 1);
    }
}

/// The resolved layer is always a real layer of the keymap.
pub proof fn lemma_resolve_valid(layers: Seq<Seq<Seq<Action>>>, stack: Seq<u8>, r: int, c: int)
    requires
        layers.len() >= 1,
        forall|i: int| 0 <= i < stack.len() ==> (#[trigger] stack[i] as int) < layers.len(),
    ensures
        (resolve_from(layers, stack, r, c) as int) < layers.len(),
        stack.len() == 0 ==> resolve_from(layers, stack, r, c) == 0,
    decreases stack.len(),
{
    if stack.len() > 0 {
        lemma_resolve_valid(layers, stack.drop_last(), r, c);
    }
}

/// `find_pressed` returns the first matching index, and -1 only when no
/// entry matches.
pub proof fn lemma_find_at(pressed: Seq<PressedKey>, r: u8, c: u8, i: int)
    requires
        0 <= i < pressed.len(),
        pressed[i].row == r && pressed[i].col == c,
        forall|j: int| 0 <= j < i ==> !((#[trigger] pressed[j]).row == r && pressed[j].col == c),
    ensures
        find_pressed(pressed, r, c) == i,
    decreases i,
{
    if i > 0 {
        lemma_find_at(pressed.drop_first(), r, c, i - 1);
    }
}

/// When no entry matches, `find_pressed` reports -1.
pub proof fn lemma_find_none(pressed: Seq<PressedKey>, r: u8, c: u8)
    requires
        forall|j: int|
            0 <= j < pressed.len() ==> !((#[trigger] pressed[j]).row == r && pressed[j].col == c),
    ensures
        find_pressed(pressed, r, c) == -1,
    decreases pressed.len(),
{
    if pressed.len() > 0 {
        lemma_find_none(pressed.drop_first(), r, c);
    }
}

/// A non-negative `find_pressed` result is a matching index.
pub proof fn lemma_find_found(pressed: Seq<PressedKey>, r: u8, c: u8)
    requires
        find_pressed(pressed, r, c) >= 0,
    ensures
        0 <= find_pressed(pressed, r, c) < pressed.len(),
        pressed[find_pressed(pressed, r, c)].row == r,
        pressed[find_pressed(pressed, r, c)].col == c,
    decreases pressed.len(),
{
    if pressed.len() > 0 && !(pressed[0].row == r && pressed[0].col == c) {
        lemma_find_found(pressed.drop_first(), r, c);
    }
}

/// Removing the most recent occurrence of `n` at its known index.
pub proof fn lemma_remove_last_at(stack: Seq<u8>, n: u8, i: int)
    requires
        0 <= i < stack.len(),
        stack[i] == n,
        forall|j: int| i < j < stack.len() ==> #[trigger] stack[j] != n,
    ensures
        remove_last_occurrence(stack, n) == stack.remove(i),
    decreases stack.len(),
{
    if stack.last() == n {
        assert(i == stack.len() - 1);
        assert(remove_last_occurrence(stack, n) =~= stack.remove(i));
    } else {
        assert(i < stack.len() - 1);
        lemma_remove_last_at(stack.drop_last(), n, i);
        assert(remove_last_occurrence(stack.drop_last(), n).push(stack.last()) =~= stack.remove(i));
    }
}

/// Removing a value the stack does not hold changes nothing.
pub proof fn lemma_remove_last_none(stack: Seq<u8>, n: u8)
    requires
        forall|j: int| 0 <= j < stack.len() ==> #[trigger] stack[j] != n,
    ensures
        remove_last_occurrence(stack, n) == stack,
    decreases stack.len(),
{
    if stack.len() > 0 {
        lemma_remove_last_none(stack.drop_last(), n);
        assert(remove_last_occurrence(stack.drop_last(), n).push(stack.last()) =~= stack);
    }
}

/// Whatever the removal, the surviving stack entries are original entries.
pub proof fn lemma_remove_last_valid(stack: Seq<u8>, n: u8, num_layers: int)
    requires
        forall|i: int| 0 <= i < stack.len() ==> (#[trigger] stack[i] as int) < num_layers,
    ensures
        forall|i: int|
            0 <= i < remove_last_occurrence(stack, n).len() ==> (
            #[trigger] remove_last_occurrence(stack, n)[i] as int) < num_layers,
    decreases stack.len(),
{
    if stack.len() > 0 && stack.last() != n {
        lemma_remove_last_valid(stack.drop_last(), n, num_layers);
        let prev = remove_last_occurrence(stack.drop_last(), n);
        assert(remove_last_occurrence(stack, n) == prev.push(stack.last()));
        assert forall|i: int| 0 <= i < remove_last_occurrence(stack, n).len() implies (
        #[trigger] remove_last_occurrence(stack, n)[i] as int) < num_layers by {
            if i < prev.len() {
                assert(remove_last_occurrence(stack, n)[i] == prev[i]);
            } else {
                assert(remove_last_occurrence(stack, n)[i] == stack.last());
            }
        }
    }
}

/// The keymap-only well-formedness conjuncts carry over to any state with
/// the same keymap and dimensions.
pub proof fn lemma_same_layers_static(v: LayoutView, w: LayoutView)
    requires
        v.dims_ok(),
        v.actions_ok(),
        v.base_ok(),
        w.layers == v.layers,
        w.rows == v.rows,
        w.cols == v.cols,
    ensures
        w.dims_ok(),
        w.actions_ok(),
        w.base_ok(),
{
    assert forall|l: int, r: int, c: int|
        0 <= l < w.layers.len() && 0 <= r < w.rows as int && 0 <= c < w.cols as int implies
        action_ok(#[trigger] w.cell(l, r, c), w.num_layers()) by {
        assert(w.cell(l, r, c) == v.cell(l, r, c));
        assert(action_ok(v.cell(l, r, c), v.num_layers()));
    }
    assert forall|r: int, c: int| 0 <= r < w.rows as int && 0 <= c < w.cols as int implies !(
    #[trigger] w.cell(0, r, c) is Trans) by {
        assert(w.cell(0, r, c) == v.cell(0, r, c));
        assert(!(v.cell(0, r, c) is Trans));
    }
}

/// A waiting entry's hold action can only push a real layer.
pub proof fn lemma_hold_layer_push_valid(v: LayoutView, pk: PressedKey)
    requires
        v.wf(),
        pk.row < v.rows,
        pk.col < v.cols,
        v.state_ok(pk),
    ensures
        forall|i: int|
            0 <= i < hold_layer_push(v, pk).len() ==> (#[trigger] hold_layer_push(v, pk)[i] as int)
                < v.num_layers(),
{
    match pk.state {
        KeyState::HtWaiting { layer, .. } => {
            let a = v.cell(layer as int, pk.row as int, pk.col as int);
            assert(action_ok(a, v.num_layers()));
            match a {
                Action::HoldTap(ht) => {
                    assert(action_ok((*ht).hold, v.num_layers()));
                    match (*ht).hold {
                        Action::Layer(nn) => {
                            assert(hold_layer_push(v, pk) =~= seq![nn]);
                        },
                        _ => {
                            assert(hold_layer_push(v, pk) =~= Seq::<u8>::empty());
                        },
                    }
                },
                _ => {},
            }
        },
        _ => {
            assert(hold_layer_push(v, pk) =~= Seq::<u8>::empty());
        },
    }
}

/// The layers an interrupting press activates are all real layers.
pub proof fn lemma_interrupt_pushes_valid(v: LayoutView, n: int)
    requires
        v.wf(),
        0 <= n <= v.pressed.len(),
    ensures
        forall|i: int|
            0 <= i < interrupt_pushes(v, n).len() ==> (#[trigger] interrupt_pushes(v, n)[i] as int)
                < v.num_layers(),
    decreases n,
{
    if n > 0 {
        lemma_interrupt_pushes_valid(v, n - 1);
        let pk = v.pressed[n - 1];
        assert(v.pressed_ok());
        assert(pk.row < v.rows && pk.col < v.cols && v.state_ok(pk));
        lemma_hold_layer_push_valid(v, pk);
        let prev = interrupt_pushes(v, n - 1);
        let tail = if hop_resolves(v, pk) {
            hold_layer_push(v, pk)
        } else {
            Seq::<u8>::empty()
        };
        assert(interrupt_pushes(v, n) == prev + tail);
        assert forall|i: int| 0 <= i < interrupt_pushes(v, n).len() implies (
        #[trigger] interrupt_pushes(v, n)[i] as int) < v.num_layers() by {
            if i < prev.len() {
                assert(interrupt_pushes(v, n)[i] == prev[i]);
            } else {
                assert(interrupt_pushes(v, n)[i] == tail[i - prev.len()]);
            }
        }
    }
}

/// The layers a tick's timeouts activate are all real layers.
pub proof fn lemma_tick_pushes_valid(v: LayoutView, n: int)
    requires
        v.wf(),
        0 <= n <= v.pressed.len(),
    ensures
        forall|i: int|
            0 <= i < tick_pushes(v, n).len() ==> (#[trigger] tick_pushes(v, n)[i] as int)
                < v.num_layers(),
    decreases n,
{
    if n > 0 {
        lemma_tick_pushes_valid(v, n - 1);
        let pk = v.pressed[n - 1];
        assert(v.pressed_ok());
        assert(pk.row < v.rows && pk.col < v.cols && v.state_ok(pk));
        lemma_hold_layer_push_valid(v, pk);
        let prev = tick_pushes(v, n - 1);
        let tail = if tick_resolves(pk) {
            hold_layer_push(v, pk)
        } else {
            Seq::<u8>::empty()
        };
        assert(tick_pushes(v, n) == prev + tail);
        assert forall|i: int| 0 <= i < tick_pushes(v, n).len() implies (
        #[trigger] tick_pushes(v, n)[i] as int) < v.num_layers() by {
            if i < prev.len() {
                assert(tick_pushes(v, n)[i] == prev[i]);
            } else {
                assert(tick_pushes(v, n)[i] == tail[i - prev.len()]);
            }
        }
    }
}

/// Soundness of a pressed entry carries over to any state with the same
/// keymap.
pub proof fn lemma_state_ok_same_layers(v: LayoutView, w: LayoutView, pk: PressedKey)
    requires
        v.state_ok(pk),
        w.layers == v.layers,
    ensures
        w.state_ok(pk),
{
    match pk.state {
        KeyState::HtWaiting { layer, .. } => {
            assert(w.cell(layer as int, pk.row as int, pk.col as int) == v.cell(
                layer as int,
                pk.row as int,
                pk.col as int,
            ));
        },
        KeyState::HtHeld { layer } => {
            assert(w.cell(layer as int, pk.row as int, pk.col as int) == v.cell(
                layer as int,
                pk.row as int,
                pk.col as int,
            ));
        },
        _ => {},
    }
}

/// Applying any event preserves well-formedness.
pub proof fn lemma_apply_wf(v: LayoutView, e: KeyEvent)
    requires
        v.wf(),
    ensures
        spec_apply(v, e).wf(),
{
    let r = e.spec_row();
    let c = e.spec_col();
    if r < v.rows && c < v.cols {
        let idx = find_pressed(v.pressed, r, c);
        if e.spec_is_press() {
            if idx < 0 {
                lemma_apply_press_wf(v, r, c);
            }
        } else {
            if idx >= 0 {
                lemma_apply_release_wf(v, r, c);
            }
        }
    }
}

proof fn lemma_apply_press_wf(v: LayoutView, r: u8, c: u8)
    requires
        v.wf(),
        r < v.rows,
        c < v.cols,
        find_pressed(v.pressed, r, c) < 0,
    ensures
        spec_apply_press(v, r, c).wf(),
{
    let n = v.pressed.len() as int;
    lemma_interrupts_resolved_points(v, n);
    lemma_interrupt_pushes_valid(v, n);
    let pressed2 = interrupts_resolved(v, n);
    let pushes = interrupt_pushes(v, n);
    let stack2 = v.stack + pushes;
    assert forall|i: int| 0 <= i < stack2.len() implies (#[trigger] stack2[i] as int)
        < v.num_layers() by {
        if i < v.stack.len() {
            assert(stack2[i] == v.stack[i]);
        } else {
            assert(stack2[i] == pushes[i - v.stack.len()]);
        }
    }
    lemma_resolve_valid(v.layers, stack2, r as int, c as int);
    let li = resolve_from(v.layers, stack2, r as int, c as int);
    let a = v.cell(li as int, r as int, c as int);
    assert(action_ok(a, v.num_layers()));
    let w = spec_apply_press(v, r, c);
    assert(w.layers == v.layers && w.rows == v.rows && w.cols == v.cols);
    lemma_same_layers_static(v, w);
    // the interrupt-resolved entries keep their coordinates and stay sound
    assert forall|i: int| 0 <= i < n implies (#[trigger] pressed2[i]).row == v.pressed[i].row
        && pressed2[i].col == v.pressed[i].col && w.state_ok(pressed2[i]) by {
        let pk = v.pressed[i];
        assert(v.state_ok(pk));
        match pk.state {
            KeyState::HtWaiting { layer, left } => {
                assert(v.state_ok(resolve_to_held(pk)));
                lemma_state_ok_same_layers(v, w, resolve_to_held(pk));
                lemma_state_ok_same_layers(v, w, pk);
            },
            _ => {
                assert(pressed2[i] == pk);
                lemma_state_ok_same_layers(v, w, pk);
            },
        }
    }
    // the pressed coordinate is new
    assert forall|i: int| 0 <= i < n implies !((#[trigger] v.pressed[i]).row == r
        && v.pressed[i].col == c) by {
        if v.pressed[i].row == r && v.pressed[i].col == c {
            lemma_find_at_exists(v.pressed, r, c, i);
        }
    }
    // the new entry is sound whatever the resolved action is
    let entry = w.pressed[n];
    assert(w.pressed.len() == n + 1);
    assert(entry.row == r && entry.col == c);
    match a {
        Action::Layer(nn) => {
            assert(entry.state == KeyState::LayerHeld(nn));
            assert(w.state_ok(entry));
            assert(w.stack == stack2.push(nn));
            assert forall|i: int| 0 <= i < w.stack.len() implies (#[trigger] w.stack[i] as int)
                < w.num_layers() by {
                if i < stack2.len() {
                    assert(w.stack[i] == stack2[i]);
                } else {
                    assert(w.stack[i] == nn);
                }
            }
        },
        Action::HoldTap(ht) => {
            assert(entry.state == KeyState::HtWaiting { layer: li, left: (*ht).timeout });
            assert(v.cell(li as int, r as int, c as int) is HoldTap);
            assert((*ht).timeout >= 1);
            assert(v.state_ok(entry));
            lemma_state_ok_same_layers(v, w, entry);
            assert(w.stack == stack2);
        },
        _ => {
            assert(entry.state == KeyState::Passive);
            assert(w.state_ok(entry));
            assert(w.stack == stack2);
        },
    }
    // pressed entries stay in range, sound and distinct
    assert forall|i: int| 0 <= i < w.pressed.len() implies (#[trigger] w.pressed[i]).row < w.rows
        && w.pressed[i].col < w.cols && w.state_ok(w.pressed[i]) by {
        if i < n {
            assert(w.pressed[i] == pressed2[i]);
        } else {
            assert(w.pressed[i] == entry);
        }
    }
    assert forall|i: int, j: int| 0 <= i < j < w.pressed.len() implies !((
    #[trigger] w.pressed[i]).row == (#[trigger] w.pressed[j]).row && w.pressed[i].col
        == w.pressed[j].col) by {
        if j < n {
            assert(w.pressed[i].row == v.pressed[i].row && w.pressed[i].col == v.pressed[i].col);
            assert(w.pressed[j].row == v.pressed[j].row && w.pressed[j].col == v.pressed[j].col);
        } else {
            assert(w.pressed[j] == entry);
            assert(w.pressed[i].row == v.pressed[i].row && w.pressed[i].col == v.pressed[i].col);
        }
    }
    assert(w.wf());
}

/// If some entry matches, `find_pressed` does not report -1.
pub proof fn lemma_find_at_exists(pressed: Seq<PressedKey>, r: u8, c: u8, i: int)
    requires
        0 <= i < pressed.len(),
        pressed[i].row == r && pressed[i].col == c,
    ensures
        find_pressed(pressed, r, c) >= 0,
    decreases i,
{
    if !(pressed[0].row == r && pressed[0].col == c) {
        lemma_find_at_exists(pressed.drop_first(), r, c, i - 1);
    }
}

proof fn lemma_apply_release_wf(v: LayoutView, r: u8, c: u8)
    requires
        v.wf(),
        r < v.rows,
        c < v.cols,
        find_pressed(v.pressed, r, c) >= 0,
    ensures
        spec_apply_release(v, r, c).wf(),
{
    lemma_find_found(v.pressed, r, c);
    let i = find_pressed(v.pressed, r, c);
    let pk = v.pressed[i];
    assert(v.state_ok(pk));
    let w = spec_apply_release(v, r, c);
    assert(w.layers == v.layers && w.rows == v.rows && w.cols == v.cols);
    lemma_same_layers_static(v, w);
    assert(w.pressed == v.pressed.remove(i));
    assert(forall|j: int|
        0 <= j < w.pressed.len() ==> #[trigger] w.pressed[j] == (
        if j < i {
            v.pressed[j]
        } else {
            v.pressed[j + 1]
        }));
    assert forall|j: int| 0 <= j < w.pressed.len() implies (#[trigger] w.pressed[j]).row < w.rows
        && w.pressed[j].col < w.cols && w.state_ok(w.pressed[j]) by {
        let j0 = if j < i {
            j
        } else {
            j + 1
        };
        assert(v.state_ok(v.pressed[j0]));
        assert(w.pressed[j] == v.pressed[j0]);
        lemma_state_ok_same_layers(v, w, v.pressed[j0]);
    }
    assert forall|j: int, k: int| 0 <= j < k < w.pressed.len() implies !((
    #[trigger] w.pressed[j]).row == (#[trigger] w.pressed[k]).row && w.pressed[j].col
        == w.pressed[k].col) by {
        let j0 = if j < i {
            j
        } else {
            j + 1
        };
        let k0 = if k < i {
            k
        } else {
            k + 1
        };
        assert(w.pressed[j] == v.pressed[j0] && w.pressed[k] == v.pressed[k0]);
        assert(0 <= j0 < k0 < v.pressed.len());
    }
    match pk.state {
        KeyState::LayerHeld(n) => {
            lemma_remove_last_valid(v.stack, n, v.num_layers());
            assert(w.stack == remove_last_occurrence(v.stack, n));
        },
        KeyState::HtHeld { layer } => {
            match hold_of(v, layer, r, c) {
                Action::Layer(n) => {
                    lemma_remove_last_valid(v.stack, n, v.num_layers());
                    assert(w.stack == remove_last_occurrence(v.stack, n));
                },
                _ => {
                    assert(w.stack == v.stack);
                },
            }
        },
        _ => {
            assert(w.stack == v.stack);
        },
    }
    assert(w.wf());
}

/// One tick preserves well-formedness.
pub proof fn lemma_tick_wf(v: LayoutView)
    requires
        v.wf(),
    ensures
        spec_tick_state(v).wf(),
{
    let n = v.pressed.len() as int;
    lemma_ticked_pressed_points(v.pressed, n);
    lemma_tick_pushes_valid(v, n);
    let w = spec_tick_state(v);
    assert(w.layers == v.layers && w.rows == v.rows && w.cols == v.cols);
    lemma_same_layers_static(v, w);
    let pushes = tick_pushes(v, n);
    assert forall|i: int| 0 <= i < w.stack.len() implies (#[trigger] w.stack[i] as int)
        < w.num_layers() by {
        if i < v.stack.len() {
            assert(w.stack[i] == v.stack[i]);
        } else {
            assert(w.stack[i] == pushes[i - v.stack.len()]);
        }
    }
    assert forall|i: int| 0 <= i < w.pressed.len() implies (#[trigger] w.pressed[i]).row < w.rows
        && w.pressed[i].col < w.cols && w.state_ok(w.pressed[i]) by {
        let pk = v.pressed[i];
        assert(v.state_ok(pk));
        assert(w.pressed[i] == tick_pk(pk));
        match pk.state {
            KeyState::HtWaiting { layer, left } => {
                if left <= 1 {
                    assert(w.pressed[i].state == KeyState::HtHeld { layer });
                } else {
                    assert(w.pressed[i].state == KeyState::HtWaiting {
                        layer,
                        left: (left - 1) as u16,
                    });
                }
                assert(v.state_ok(w.pressed[i]));
                lemma_state_ok_same_layers(v, w, w.pressed[i]);
            },
            _ => {
                assert(w.pressed[i] == pk);
                lemma_state_ok_same_layers(v, w, pk);
            },
        }
    }
    assert forall|i: int, j: int| 0 <= i < j < w.pressed.len() implies !((
    #[trigger] w.pressed[i]).row == (#[trigger] w.pressed[j]).row && w.pressed[i].col
        == w.pressed[j].col) by {
        assert(w.pressed[i] == tick_pk(v.pressed[i]) && w.pressed[j] == tick_pk(v.pressed[j]));
        assert(w.pressed[i].row == v.pressed[i].row && w.pressed[i].col == v.pressed[i].col);
        assert(w.pressed[j].row == v.pressed[j].row && w.pressed[j].col == v.pressed[j].col);
    }
    assert(w.wf());
}

/// Why a keymap was rejected at construction. Such a rejection is a
/// configuration error surfaced once at startup, before any scanning.
#[derive(Clone, Copy, PartialEq, Eq, Structural, Debug)]
pub enum ConfigError {
    /// A layer grid does not match the declared dimensions, or there is
    /// no layer at all, or more than 256.
    BadShape,
    /// The base layer has a transparent cell.
    TransparentBase,
    /// An action names a layer the keymap does not have, or a hold-tap
    /// has a zero timeout.
    InvalidAction,
}

/// The mathematical contents of a keymap.
pub open spec fn keymap_view(ls: Seq<Vec<Vec<Action>>>) -> Seq<Seq<Seq<Action>>> {
    ls.map_values(|l: Vec<Vec<Action>>| l@.map_values(|row: Vec<Action>| row@))
}

/// The engine state a fresh construction over this keymap would have.
pub open spec fn fresh_view(ls: Seq<Vec<Vec<Action>>>, rows: u8, cols: u8) -> LayoutView {
    LayoutView {
        layers: keymap_view(ls),
        rows,
        cols,
        stack: Seq::empty(),
        pressed: Seq::empty(),
        oneshots: Seq::empty(),
    }
}

/// The layout engine: the keymap, the layer stack, the pressed keys and
/// the pending one-shot taps.
pub struct Layout {
    pub layers: Vec<Vec<Vec<Action>>>,
    pub rows: u8,
    pub cols: u8,
    pub stack: Vec<u8>,
    pub pressed: Vec<PressedKey>,
    pub oneshots: Vec<u8>,
}

impl View for Layout {
    type V = LayoutView;

    open spec fn view(&self) -> LayoutView {
        LayoutView {
            layers: keymap_view(self.layers@),
            rows: self.rows,
            cols: self.cols,
            stack: self.stack@,
            pressed: self.pressed@,
            oneshots: self.oneshots@,
        }
    }
}

/// Whether an action is valid for a keymap with `num_layers` layers.
fn action_valid(a: &Action, num_layers: usize) -> (r: bool)
    ensures
        r == action_ok(*a, num_layers as int),
    decreases *a,
{
    match a {
        Action::Layer(n) => (*n as usize) < num_layers,
        Action::HoldTap(ht) => ht.timeout >= 1 && action_valid(&ht.hold, num_layers)
            && action_valid(&ht.tap, num_layers),
        _ => true,
    }
}

impl Layout {
    /// Builds an engine over a keymap, after validating it: every layer
    /// must be a `rows` by `cols` grid, the base layer must have no
    /// transparent cell, and every action must stay inside the keymap.
    /// Each violation is reported by the first check that catches it.
    pub fn new(layers: Vec<Vec<Vec<Action>>>, rows: u8, cols: u8) -> (r: Result<
        Layout,
        ConfigError,
    >)
        ensures
            r matches Err(ConfigError::BadShape) <==> !fresh_view(layers@, rows, cols).dims_ok(),
            r matches Err(ConfigError::TransparentBase) <==> fresh_view(
                layers@,
                rows,
                cols,
            ).dims_ok() && !fresh_view(layers@, rows, cols).base_ok(),
            r matches Err(ConfigError::InvalidAction) <==> fresh_view(layers@, rows, cols).dims_ok()
                && fresh_view(layers@, rows, cols).base_ok() && !fresh_view(
                layers@,
                rows,
                cols,
            ).actions_ok(),
            r matches Ok(l) <==> fresh_view(layers@, rows, cols).wf(),
            r matches Ok(l) ==> l@ == fresh_view(layers@, rows, cols),
    {
        let ghost v = fresh_view(layers@, rows, cols);
        if layers.len() < 1 || layers.len() > 256 {
            return Err(ConfigError::BadShape);
        }
        let mut l: usize = 0;
        while l < layers.len()
            invariant
                l <= layers@.len(),
                1 <= layers@.len() <= 256,
                v == fresh_view(layers@, rows, cols),
                v.rows == rows,
                v.cols == cols,
                forall|i: int| 0 <= i < l as int ==> (#[trigger] v.layers[i]).len() == rows as int,
                forall|i: int, j: int|
                    0 <= i < l as int && 0 <= j < rows as int ==> (#[trigger] v.layers[i][j]).len()
                        == cols as int,
            decreases layers@.len() - l,
        {
            if layers[l].len() != rows as usize {
                assert(v.layers[l as int].len() != rows as int);
                return Err(ConfigError::BadShape);
            }
            let mut rr: usize = 0;
            while rr < rows as usize
                invariant
                    rr <= rows as usize,
                    l < layers@.len(),
                    v == fresh_view(layers@, rows, cols),
                    v.layers[l as int].len() == rows as int,
                    forall|j: int|
                        0 <= j < rr as int ==> (#[trigger] v.layers[l as int][j]).len()
                            == cols as int,
                decreases rows as usize - rr,
            {
                if layers[l][rr].len() != cols as usize {
                    assert(v.layers[l as int][rr as int].len() != cols as int);
                    return Err(ConfigError::BadShape);
                }
                rr = rr + 1;
            }
            l = l + 1;
        }
        assert(v.dims_ok());
        let mut rr: usize = 0;
        while rr < rows as usize
            invariant
                rr <= rows as usize,
                v.dims_ok(),
                v == fresh_view(layers@, rows, cols),
                v.rows == rows,
                v.cols == cols,
                1 <= layers@.len(),
                rows as usize == v.layers[0].len(),
                forall|j: int, k: int|
                    0 <= j < rr as int && 0 <= k < cols as int ==> !(#[trigger] v.cell(
                        0,
                        j,
                        k,
                    ) is Trans),
            decreases rows as usize - rr,
        {
            let mut cc: usize = 0;
            while cc < cols as usize
                invariant
                    cc <= cols as usize,
                    rr < rows as usize,
                    v.dims_ok(),
                    v == fresh_view(layers@, rows, cols),
                    v.rows == rows,
                    v.cols == cols,
                    1 <= layers@.len(),
                    forall|k: int| 0 <= k < cc as int ==> !(#[trigger] v.cell(0, rr as int, k) is Trans),
                decreases cols as usize - cc,
            {
                let is_trans = matches!(&layers[0][rr][cc], Action::Trans);
                proof {
                    assert(v.cell(0, rr as int, cc as int) == layers@[0]@[rr as int]@[cc as int]);
                }
                if is_trans {
                    proof {
                        assert(v.cell(0, rr as int, cc as int) is Trans);
                        assert(!v.base_ok());
                    }
                    return Err(ConfigError::TransparentBase);
                }
                cc = cc + 1;
            }
            rr = rr + 1;
        }
        assert(v.base_ok());
        let num_layers = layers.len();
        let mut l: usize = 0;
        while l < layers.len()
            invariant
                l <= layers@.len(),
                num_layers == layers@.len(),
                v.dims_ok(),
                v.base_ok(),
                v == fresh_view(layers@, rows, cols),
                v.rows == rows,
                v.cols == cols,
                forall|i: int, j: int, k: int|
                    0 <= i < l as int && 0 <= j < rows as int && 0 <= k < cols as int ==> action_ok(
                        #[trigger] v.cell(i, j, k),
                        v.num_layers(),
                    ),
            decreases layers@.len() - l,
        {
            let mut rr: usize = 0;
            while rr < rows as usize
                invariant
                    rr <= rows as usize,
                    l < layers@.len(),
                    num_layers == layers@.len(),
                    v.dims_ok(),
                    v.base_ok(),
                    v == fresh_view(layers@, rows, cols),
                    v.rows == rows,
                    v.cols == cols,
                    forall|j: int, k: int|
                        0 <= j < rr as int && 0 <= k < cols as int ==> action_ok(
                            #[trigger] v.cell(l as int, j, k),
                            v.num_layers(),
                        ),
                decreases rows as usize - rr,
            {
                let mut cc: usize = 0;
                while cc < cols as usize
                    invariant
                        cc <= cols as usize,
                        rr < rows as usize,
                        l < layers@.len(),
                        num_layers == layers@.len(),
                        v.dims_ok(),
                        v.base_ok(),
                        v == fresh_view(layers@, rows, cols),
                        v.rows == rows,
                        v.cols == cols,
                        forall|k: int|
                            0 <= k < cc as int ==> action_ok(
                                #[trigger] v.cell(l as int, rr as int, k),
                                v.num_layers(),
                            ),
                    decreases cols as usize - cc,
                {
                    let ok = action_valid(&layers[l][rr][cc], num_layers);
                    proof {
                        assert(v.cell(l as int, rr as int, cc as int) == layers@[l as int]@[rr as int]@[cc as int]);
                    }
                    if !ok {
                        proof {
                            assert(!action_ok(
                                v.cell(l as int, rr as int, cc as int),
                                v.num_layers(),
                            ));
                            assert(!v.actions_ok());
                        }
                        return Err(ConfigError::InvalidAction);
                    }
                    cc = cc + 1;
                }
                rr = rr + 1;
            }
            l = l + 1;
        }
        assert(v.actions_ok());
        let layout = Layout {
            layers,
            rows,
            cols,
            stack: Vec::new(),
            pressed: Vec::new(),
            oneshots: Vec::new(),
        };
        proof {
            assert(layout@ =~~= v);
        }
        Ok(layout)
    }

    /// Index of the pressed entry at `(r, c)`, if that coordinate is down.
    fn pressed_index(&self, r: u8, c: u8) -> (idx: Option<usize>)
        ensures
            match idx {
                Some(i) => find_pressed(self@.pressed, r, c) == i as int && (i as int)
                    < self@.pressed.len(),
                None => find_pressed(self@.pressed, r, c) == -1,
            },
    {
        let mut i: usize = 0;
        while i < self.pressed.len()
            invariant
                i <= self@.pressed.len(),
                forall|j: int|
                    0 <= j < i as int ==> !((#[trigger] self@.pressed[j]).row == r
                        && self@.pressed[j].col == c),
            decreases self@.pressed.len() - i,
        {
            let pk = self.pressed[i];
            if pk.row == r && pk.col == c {
                proof {
                    lemma_find_at(self@.pressed, r, c, i as int);
                }
                return Some(i);
            }
            i = i + 1;
        }
        proof {
            lemma_find_none(self@.pressed, r, c);
        }
        None
    }

    /// The layer the coordinate currently resolves through.
    fn layer_at(&self, r: u8, c: u8) -> (li: u8)
        requires
            self@.dims_ok(),
            self@.stack_ok(),
            r < self@.rows,
            c < self@.cols,
        ensures
            li == self@.resolved_layer(r as int, c as int),
            (li as int) < self@.num_layers(),
    {
        proof {
            lemma_resolve_valid(self@.layers, self@.stack, r as int, c as int);
        }
        let ghost v = self@;
        proof {
            assert(v.stack.take(v.stack.len() as int) =~= v.stack);
        }
        let mut i: usize = self.stack.len();
        while i > 0
            invariant
                v == self@,
                v.dims_ok(),
                v.stack_ok(),
                r < v.rows,
                c < v.cols,
                i <= v.stack.len(),
                resolve_from(v.layers, v.stack, r as int, c as int) == resolve_from(
                    v.layers,
                    v.stack.take(i as int),
                    r as int,
                    c as int,
                ),
            decreases i,
        {
            i = i - 1;
            let l = self.stack[i];
            let is_trans = matches!(&self.layers[l as usize][r as usize][c as usize], Action::Trans);
            proof {
                let taken = v.stack.take(i as int + 1);
                assert(taken.last() == v.stack[i as int]);
                assert(taken.drop_last() =~= v.stack.take(i as int));
                assert(v.cell(l as int, r as int, c as int) == self.layers@[l as int]@[r as int]@[c as int]);
            }
            if !is_trans {
                proof {
                    assert(resolve_from(v.layers, v.stack.take(i as int + 1), r as int, c as int)
                        == l);
                }
                return l;
            }
        }
        proof {
            assert(v.stack.take(0) =~= Seq::<u8>::empty());
        }
        0
    }

    /// Removes the most recent activation of layer `n` from the stack.
    fn pop_layer(&mut self, n: u8)
        ensures
            final(self).stack@ == remove_last_occurrence(old(self).stack@, n),
            final(self).layers == old(self).layers,
            final(self).rows == old(self).rows,
            final(self).cols == old(self).cols,
            final(self).pressed == old(self).pressed,
            final(self).oneshots == old(self).oneshots,
    {
        let ghost stack0 = self.stack@;
        let mut i: usize = self.stack.len();
        while i > 0
            invariant
                stack0 == old(self).stack@,
                self.stack@ == stack0,
                self.layers == old(self).layers,
                self.rows == old(self).rows,
                self.cols == old(self).cols,
                self.pressed == old(self).pressed,
                self.oneshots == old(self).oneshots,
                i <= stack0.len(),
                forall|j: int| i as int <= j < stack0.len() ==> #[trigger] stack0[j] != n,
            decreases i,
        {
            i = i - 1;
            if self.stack[i] == n {
                self.stack.remove(i);
                proof {
                    lemma_remove_last_at(stack0, n, i as int);
                }
                return;
            }
        }
        proof {
            lemma_remove_last_none(stack0, n);
        }
    }

    /// Reads the decision-relevant data out of a hold-tap cell.
    fn ht_info(&self, layer: u8, r: u8, c: u8) -> (info: HtInfo)
        requires
            self@.dims_ok(),
            (layer as int) < self@.num_layers(),
            r < self@.rows,
            c < self@.cols,
            self@.cell(layer as int, r as int, c as int) is HoldTap,
        ensures
            ({
                let ht = ht_of(self@.cell(layer as int, r as int, c as int));
                &&& info.policy == ht.policy
                &&& info.hold_layer == (match ht.hold {
                    Action::Layer(n) => Some(n),
                    _ => None,
                })
                &&& info.hold_key == (match ht.hold {
                    Action::Key(k) => Some(k),
                    _ => None,
                })
                &&& info.tap_key == (match ht.tap {
                    Action::Key(k) => Some(k),
                    _ => None,
                })
            }),
    {
        let a = &self.layers[layer as usize][r as usize][c as usize];
        proof {
            assert(self@.cell(layer as int, r as int, c as int) == self.layers@[layer as int]@[r as int]@[c as int]);
        }
        match a {
            Action::HoldTap(ht) => {
                let hold_layer = match &ht.hold {
                    Action::Layer(n) => Some(*n),
                    _ => None,
                };
                let hold_key = match &ht.hold {
                    Action::Key(k) => Some(*k),
                    _ => None,
                };
                let tap_key = match &ht.tap {
                    Action::Key(k) => Some(*k),
                    _ => None,
                };
                HtInfo { policy: ht.policy, hold_layer, hold_key, tap_key }
            },
            _ => {
                proof {
                    assert(false);
                }
                HtInfo { policy: InterruptPolicy::TimeoutOnly, hold_layer: None, hold_key: None, tap_key: None }
            },
        }
    }

    /// Applies one confirmed event to the engine. Out-of-range events,
    /// repeated presses and releases of unpressed coordinates are ignored.
    pub fn apply(&mut self, e: KeyEvent)
        requires
            old(self)@.wf(),
        ensures
            final(self)@ == spec_apply(old(self)@, e),
            final(self)@.wf(),
    {
        proof {
            lemma_apply_wf(old(self)@, e);
        }
        let r = e.row();
        let c = e.col();
        if r >= self.rows || c >= self.cols {
            return;
        }
        let idx = self.pressed_index(r, c);
        if e.is_press() {
            if idx.is_none() {
                self.apply_press(r, c);
            }
        } else {
            if idx.is_some() {
                self.apply_release(r, c);
            }
        }
    }

    /// A press at a fresh, in-range coordinate.
    fn apply_press(&mut self, r: u8, c: u8)
        requires
            old(self)@.wf(),
            r < old(self)@.rows,
            c < old(self)@.cols,
            find_pressed(old(self)@.pressed, r, c) == -1,
        ensures
            final(self)@ == spec_apply_press(old(self)@, r, c),
    {
        let ghost v0 = self@;
        let n = self.pressed.len();
        let mut new_pressed: Vec<PressedKey> = Vec::new();
        let mut i: usize = 0;
        while i < n
            invariant
                v0 == old(self)@,
                v0.wf(),
                r < v0.rows,
                c < v0.cols,
                n == v0.pressed.len(),
                i <= n,
                self.layers == old(self).layers,
                self.rows == old(self).rows,
                self.cols == old(self).cols,
                self.pressed == old(self).pressed,
                self.oneshots == old(self).oneshots,
                new_pressed@ == interrupts_resolved(v0, i as int),
                self.stack@ == v0.stack + interrupt_pushes(v0, i as int),
            decreases n - i,
        {
            let pk = self.pressed[i];
            proof {
                assert(v0.pressed[i as int] == pk);
                assert(v0.state_ok(pk));
            }
            match pk.state {
                KeyState::HtWaiting { layer, left } => {
                    proof {
                        assert(self@.dims_ok()) by {
                            lemma_same_layers_static(v0, self@);
                        }
                        assert(self@.cell(layer as int, pk.row as int, pk.col as int) == v0.cell(
                            layer as int,
                            pk.row as int,
                            pk.col as int,
                        ));
                    }
                    let info = self.ht_info(layer, pk.row, pk.col);
                    let ghost ht = ht_of(v0.cell(layer as int, pk.row as int, pk.col as int));
                    if matches!(info.policy, InterruptPolicy::HoldOnOtherPress) {
                        proof {
                            assert(hop_resolves(v0, pk));
                        }
                        new_pressed.push(
                            PressedKey { row: pk.row, col: pk.col, state: KeyState::HtHeld { layer } },
                        );
                        let ghost stack_before = self.stack@;
                        match info.hold_layer {
                            Some(nn) => {
                                self.stack.push(nn);
                                proof {
                                    assert(hold_layer_push(v0, pk) =~= seq![nn]);
                                    assert(self.stack@ =~= v0.stack + interrupt_pushes(
                                        v0,
                                        i as int + 1,
                                    ));
                                }
                            },
                            None => {
                                proof {
                                    assert(hold_layer_push(v0, pk) =~= Seq::<u8>::empty());
                                    assert(self.stack@ =~= v0.stack + interrupt_pushes(
                                        v0,
                                        i as int + 1,
                                    ));
                                }
                            },
                        }
                        proof {
                            assert(new_pressed@ =~= interrupts_resolved(v0, i as int + 1));
                        }
                    } else {
                        proof {
                            assert(!hop_resolves(v0, pk));
                        }
                        new_pressed.push(pk);
                        proof {
                            assert(new_pressed@ =~= interrupts_resolved(v0, i as int + 1));
                            assert(self.stack@ =~= v0.stack + interrupt_pushes(v0, i as int + 1));
                        }
                    }
                },
                _ => {
                    proof {
                        assert(!hop_resolves(v0, pk));
                    }
                    new_pressed.push(pk);
                    proof {
                        assert(new_pressed@ =~= interrupts_resolved(v0, i as int + 1));
                        assert(self.stack@ =~= v0.stack + interrupt_pushes(v0, i as int + 1));
                    }
                },
            }
            i = i + 1;
        }
        self.pressed = new_pressed;
        let ghost stack2 = v0.stack + interrupt_pushes(v0, n as int);
        proof {
            lemma_interrupt_pushes_valid(v0, n as int);
            assert forall|j: int| 0 <= j < stack2.len() implies (#[trigger] stack2[j] as int)
                < v0.num_layers() by {
                if j < v0.stack.len() {
                    assert(stack2[j] == v0.stack[j]);
                } else {
                    assert(stack2[j] == interrupt_pushes(v0, n as int)[j - v0.stack.len()]);
                }
            }
            lemma_same_layers_static(v0, self@);
            assert(self@.stack_ok());
        }
        let li = self.layer_at(r, c);
        proof {
            assert(resolve_from(self@.layers, self@.stack, r as int, c as int) == resolve_from(
                v0.layers,
                stack2,
                r as int,
                c as int,
            ));
            assert(self@.cell(li as int, r as int, c as int) == v0.cell(li as int, r as int, c as int));
        }
        let a = &self.layers[li as usize][r as usize][c as usize];
        proof {
            assert(v0.cell(li as int, r as int, c as int) == self.layers@[li as int]@[r as int]@[c as int]);
        }
        match a {
            Action::Layer(nn) => {
                let nn = *nn;
                self.stack.push(nn);
                self.pressed.push(PressedKey { row: r, col: c, state: KeyState::LayerHeld(nn) });
            },
            Action::HoldTap(ht) => {
                let t = ht.timeout;
                self.pressed.push(
                    PressedKey { row: r, col: c, state: KeyState::HtWaiting { layer: li, left: t } },
                );
            },
            _ => {
                self.pressed.push(PressedKey { row: r, col: c, state: KeyState::Passive });
            },
        }
        proof {
            assert(self@ =~~= spec_apply_press(v0, r, c));
        }
    }

    /// A release of a pressed, in-range coordinate.
    fn apply_release(&mut self, r: u8, c: u8)
        requires
            old(self)@.wf(),
            r < old(self)@.rows,
            c < old(self)@.cols,
            find_pressed(old(self)@.pressed, r, c) >= 0,
        ensures
            final(self)@ == spec_apply_release(old(self)@, r, c),
    {
        let ghost v0 = self@;
        proof {
            lemma_find_found(v0.pressed, r, c);
        }
        let idx = self.pressed_index(r, c);
        let i = match idx {
            Some(i) => i,
            None => {
                proof {
                    assert(false);
                }
                0
            },
        };
        let pk = self.pressed[i];
        proof {
            assert(pk == v0.pressed[find_pressed(v0.pressed, r, c)]);
            assert(v0.state_ok(pk));
            assert(pk.row == r && pk.col == c);
        }
        self.pressed.remove(i);
        match pk.state {
            KeyState::Passive => {
                proof {
                    assert(self@ =~~= spec_apply_release(v0, r, c));
                }
            },
            KeyState::LayerHeld(nn) => {
                self.pop_layer(nn);
                proof {
                    assert(self@ =~~= spec_apply_release(v0, r, c));
                }
            },
            KeyState::HtWaiting { layer, left } => {
                proof {
                    lemma_same_layers_static(v0, self@);
                    assert(self@.cell(layer as int, r as int, c as int) == v0.cell(
                        layer as int,
                        r as int,
                        c as int,
                    ));
                }
                let info = self.ht_info(layer, r, c);
                match info.tap_key {
                    Some(kc) => {
                        self.oneshots.push(kc);
                        proof {
                            assert(tap_codes(v0, layer, r, c) =~= seq![kc]);
                            assert(self.oneshots@ =~= v0.oneshots + tap_codes(v0, layer, r, c));
                        }
                    },
                    None => {
                        proof {
                            assert(tap_codes(v0, layer, r, c) =~= Seq::<u8>::empty());
                            assert(self.oneshots@ =~= v0.oneshots + tap_codes(v0, layer, r, c));
                        }
                    },
                }
                proof {
                    assert(self@ =~~= spec_apply_release(v0, r, c));
                }
            },
            KeyState::HtHeld { layer } => {
                proof {
                    lemma_same_layers_static(v0, self@);
                    assert(self@.cell(layer as int, r as int, c as int) == v0.cell(
                        layer as int,
                        r as int,
                        c as int,
                    ));
                }
                let info = self.ht_info(layer, r, c);
                match info.hold_layer {
                    Some(nn) => {
                        self.pop_layer(nn);
                    },
                    None => {},
                }
                proof {
                    assert(self@ =~~= spec_apply_release(v0, r, c));
                }
            },
        }
    }
}

impl Layout {
    /// Advances time by one unit: hold-tap timers count down and resolve,
    /// the active key codes are derived afresh from every pressed
    /// coordinate plus the pending one-shot taps, and the first custom
    /// signal among the pressed coordinates is reported. The codes come in
    /// press order and may repeat when two coordinates bind the same code;
    /// the report emitter collapses repeats.
    pub fn tick(&mut self) -> (r: (Vec<u8>, Option<u8>))
        requires
            old(self)@.wf(),
        ensures
            final(self)@ == spec_tick_state(old(self)@),
            final(self)@.wf(),
            r.0@ == spec_tick_keys(old(self)@),
            r.1 == spec_tick_signal(old(self)@),
    {
        proof {
            lemma_tick_wf(old(self)@);
        }
        let ghost v0 = self@;
        let ghost w = spec_tick_state(v0);
        let n = self.pressed.len();
        let mut new_pressed: Vec<PressedKey> = Vec::new();
        let mut i: usize = 0;
        while i < n
            invariant
                v0 == old(self)@,
                v0.wf(),
                n == v0.pressed.len(),
                i <= n,
                self.layers == old(self).layers,
                self.rows == old(self).rows,
                self.cols == old(self).cols,
                self.pressed == old(self).pressed,
                self.oneshots == old(self).oneshots,
                new_pressed@ == ticked_pressed(v0.pressed, i as int),
                self.stack@ == v0.stack + tick_pushes(v0, i as int),
            decreases n - i,
        {
            let pk = self.pressed[i];
            proof {
                assert(v0.pressed[i as int] == pk);
                assert(v0.state_ok(pk));
            }
            match pk.state {
                KeyState::HtWaiting { layer, left } => {
                    if left <= 1 {
                        proof {
                            assert(tick_resolves(pk));
                            assert(self@.dims_ok()) by {
                                lemma_same_layers_static(v0, self@);
                            }
                            assert(self@.cell(layer as int, pk.row as int, pk.col as int)
                                == v0.cell(layer as int, pk.row as int, pk.col as int));
                        }
                        let info = self.ht_info(layer, pk.row, pk.col);
                        new_pressed.push(
                            PressedKey { row: pk.row, col: pk.col, state: KeyState::HtHeld { layer } },
                        );
                        match info.hold_layer {
                            Some(nn) => {
                                self.stack.push(nn);
                                proof {
                                    assert(hold_layer_push(v0, pk) =~= seq![nn]);
                                    assert(self.stack@ =~= v0.stack + tick_pushes(v0, i as int + 1));
                                }
                            },
                            None => {
                                proof {
                                    assert(hold_layer_push(v0, pk) =~= Seq::<u8>::empty());
                                    assert(self.stack@ =~= v0.stack + tick_pushes(v0, i as int + 1));
                                }
                            },
                        }
                        proof {
                            assert(new_pressed@ =~= ticked_pressed(v0.pressed, i as int + 1));
                        }
                    } else {
                        new_pressed.push(
                            PressedKey {
                                row: pk.row,
                                col: pk.col,
                                state: KeyState::HtWaiting { layer, left: left - 1 },
                            },
                        );
                        proof {
                            assert(!tick_resolves(pk));
                            assert(new_pressed@ =~= ticked_pressed(v0.pressed, i as int + 1));
                            assert(self.stack@ =~= v0.stack + tick_pushes(v0, i as int + 1));
                        }
                    }
                },
                _ => {
                    new_pressed.push(pk);
                    proof {
                        assert(!tick_resolves(pk));
                        assert(tick_pk(pk) == pk);
                        assert(new_pressed@ =~= ticked_pressed(v0.pressed, i as int + 1));
                        assert(self.stack@ =~= v0.stack + tick_pushes(v0, i as int + 1));
                    }
                },
            }
            i = i + 1;
        }
        self.pressed = new_pressed;
        proof {
            lemma_ticked_pressed_points(v0.pressed, n as int);
            assert(self.pressed@ == w.pressed);
            assert(self.stack@ == w.stack);
        }
        let mut keys: Vec<u8> = Vec::new();
        let mut signal: Option<u8> = None;
        let mut i: usize = 0;
        while i < n
            invariant
                v0 == old(self)@,
                w == spec_tick_state(v0),
                w.wf(),
                n == w.pressed.len(),
                i <= n,
                self.layers == old(self).layers,
                self.rows == old(self).rows,
                self.cols == old(self).cols,
                self.oneshots == old(self).oneshots,
                self.pressed@ == w.pressed,
                self.stack@ == w.stack,
                keys@ == derived_keys_upto(w, i as int),
                signal == derived_signal_upto(w, i as int),
            decreases n - i,
        {
            let pk = self.pressed[i];
            proof {
                assert(w.pressed[i as int] == pk);
                assert(w.pressed_ok());
                assert(pk.row < w.rows && pk.col < w.cols && w.state_ok(pk));
                lemma_same_layers_static(w, self@);
            }
            match pk.state {
                KeyState::Passive => {
                    let li = self.layer_at(pk.row, pk.col);
                    proof {
                        assert(resolve_from(self@.layers, self@.stack, pk.row as int, pk.col as int)
                            == resolve_from(w.layers, w.stack, pk.row as int, pk.col as int));
                        assert(w.lookup(pk.row as int, pk.col as int) == self@.cell(
                            li as int,
                            pk.row as int,
                            pk.col as int,
                        ));
                        assert(self@.cell(li as int, pk.row as int, pk.col as int) == self.layers@[li as int]@[pk.row as int]@[pk.col as int]);
                    }
                    let a = &self.layers[li as usize][pk.row as usize][pk.col as usize];
                    match a {
                        Action::Key(kc) => {
                            keys.push(*kc);
                            proof {
                                assert(key_contrib(w, pk) =~= seq![*kc]);
                                assert(keys@ =~= derived_keys_upto(w, i as int + 1));
                                assert(signal_contrib(w, pk) is None);
                            }
                        },
                        Action::Custom(p) => {
                            if signal.is_none() {
                                signal = Some(*p);
                            }
                            proof {
                                assert(key_contrib(w, pk) =~= Seq::<u8>::empty());
                                assert(keys@ =~= derived_keys_upto(w, i as int + 1));
                                assert(signal_contrib(w, pk) == Some(*p));
                            }
                        },
                        _ => {
                            proof {
                                assert(key_contrib(w, pk) =~= Seq::<u8>::empty());
                                assert(keys@ =~= derived_keys_upto(w, i as int + 1));
                                assert(signal_contrib(w, pk) is None);
                            }
                        },
                    }
                },
                KeyState::HtHeld { layer } => {
                    proof {
                        assert(self@.cell(layer as int, pk.row as int, pk.col as int) == w.cell(
                            layer as int,
                            pk.row as int,
                            pk.col as int,
                        ));
                    }
                    let info = self.ht_info(layer, pk.row, pk.col);
                    match info.hold_key {
                        Some(kc) => {
                            keys.push(kc);
                            proof {
                                assert(key_contrib(w, pk) =~= seq![kc]);
                                assert(keys@ =~= derived_keys_upto(w, i as int + 1));
                            }
                        },
                        None => {
                            proof {
                                assert(key_contrib(w, pk) =~= Seq::<u8>::empty());
                                assert(keys@ =~= derived_keys_upto(w, i as int + 1));
                            }
                        },
                    }
                    proof {
                        assert(signal_contrib(w, pk) is None);
                    }
                },
                _ => {
                    proof {
                        assert(key_contrib(w, pk) =~= Seq::<u8>::empty());
                        assert(keys@ =~= derived_keys_upto(w, i as int + 1));
                        assert(signal_contrib(w, pk) is None);
                    }
                },
            }
            i = i + 1;
        }
        keys.append(&mut self.oneshots);
        proof {
            assert(keys@ == derived_keys_upto(w, n as int) + v0.oneshots);
            assert(self@ =~~= w);
        }
        (keys, signal)
    }
}

/// The engine state after `k` ticks with no intervening event.
pub open spec fn tick_n(v: LayoutView, k: int) -> LayoutView
    decreases k,
{
    if k <= 0 {
        v
    } else {
        spec_tick_state(tick_n(v, k - 1))
    }
}

/// When no undecided hold-tap reaches its timeout, a tick pushes no layer.
pub proof fn lemma_tick_pushes_empty(v: LayoutView, n: int)
    requires
        0 <= n <= v.pressed.len(),
        forall|j: int| 0 <= j < n ==> !tick_resolves(#[trigger] v.pressed[j]),
    ensures
        tick_pushes(v, n) == Seq::<u8>::empty(),
    decreases n,
{
    if n > 0 {
        lemma_tick_pushes_empty(v, n - 1);
        assert(tick_pushes(v, n) =~= Seq::<u8>::empty());
    }
}

/// When no entry is an undecided hold-tap, a press resolves nothing and
/// pushes no layer.
pub proof fn lemma_interrupt_pushes_empty(v: LayoutView, n: int)
    requires
        0 <= n <= v.pressed.len(),
        forall|j: int| 0 <= j < n ==> !((#[trigger] v.pressed[j]).state is HtWaiting),
    ensures
        interrupt_pushes(v, n) == Seq::<u8>::empty(),
        interrupts_resolved(v, n) == v.pressed.take(n),
    decreases n,
{
    if n > 0 {
        lemma_interrupt_pushes_empty(v, n - 1);
        assert(!hop_resolves(v, v.pressed[n - 1]));
        assert(interrupt_pushes(v, n) =~= Seq::<u8>::empty());
        assert(interrupts_resolved(v, n) =~= v.pressed.take(n));
    }
}

/// While an undecided hold-tap's timer has not run out and no event
/// arrives, ticks only count it down: every other entry, the stack and
/// the keymap stay exactly as they are, and no one-shot is pending.
pub proof fn lemma_ticks_count_down(v: LayoutView, idx: int, k: int)
    requires
        v.wf(),
        0 <= idx < v.pressed.len(),
        v.pressed[idx].state is HtWaiting,
        k < v.pressed[idx].state->HtWaiting_left,
        forall|j: int|
            0 <= j < v.pressed.len() && j != idx ==> !((#[trigger] v.pressed[j]).state is HtWaiting),
        v.oneshots == Seq::<u8>::empty(),
        0 <= k,
    ensures
        tick_n(v, k).wf(),
        tick_n(v, k).layers == v.layers,
        tick_n(v, k).rows == v.rows,
        tick_n(v, k).cols == v.cols,
        tick_n(v, k).stack == v.stack,
        tick_n(v, k).oneshots == Seq::<u8>::empty(),
        tick_n(v, k).pressed.len() == v.pressed.len(),
        forall|j: int|
            0 <= j < v.pressed.len() && j != idx ==> #[trigger] tick_n(v, k).pressed[j]
                == v.pressed[j],
        tick_n(v, k).pressed[idx] == (PressedKey {
            row: v.pressed[idx].row,
            col: v.pressed[idx].col,
            state: KeyState::HtWaiting {
                layer: v.pressed[idx].state->HtWaiting_layer,
                left: (v.pressed[idx].state->HtWaiting_left - k) as u16,
            },
        }),
    decreases k,
{
    if k <= 0 {
        assert(tick_n(v, 0) == v);
        assert(v.pressed[idx] == (PressedKey {
            row: v.pressed[idx].row,
            col: v.pressed[idx].col,
            state: KeyState::HtWaiting {
                layer: v.pressed[idx].state->HtWaiting_layer,
                left: v.pressed[idx].state->HtWaiting_left,
            },
        }));
    } else {
        lemma_ticks_count_down(v, idx, k - 1);
        let u = tick_n(v, k - 1);
        let n = u.pressed.len() as int;
        assert(u.pressed[idx].state is HtWaiting);
        assert(u.pressed[idx].state->HtWaiting_left == v.pressed[idx].state->HtWaiting_left - (k
            - 1));
        assert(u.pressed[idx].state->HtWaiting_left > 1);
        assert(forall|j: int| 0 <= j < n ==> !tick_resolves(#[trigger] u.pressed[j]));
        lemma_tick_pushes_empty(u, n);
        lemma_ticked_pressed_points(u.pressed, n);
        lemma_tick_wf(u);
        let w = spec_tick_state(u);
        assert(w.stack =~= u.stack);
        assert(tick_n(v, k) == w);
        assert forall|j: int| 0 <= j < v.pressed.len() && j != idx implies #[trigger] w.pressed[j]
            == v.pressed[j] by {
            assert(w.pressed[j] == tick_pk(u.pressed[j]));
            assert(u.pressed[j] == v.pressed[j]);
        }
        assert(w.pressed[idx] == tick_pk(u.pressed[idx]));
    }
}

/// A key code contributed by one pressed entry appears in the derived
/// key codes of any prefix that covers it.
pub proof fn lemma_derived_keys_include(w: LayoutView, i: int, n: int, kc: u8)
    requires
        0 <= i < n <= w.pressed.len(),
        key_contrib(w, w.pressed[i]).contains(kc),
    ensures
        derived_keys_upto(w, n).contains(kc),
    decreases n,
{
    if n - 1 == i {
        let prev = derived_keys_upto(w, n - 1);
        let added = key_contrib(w, w.pressed[i]);
        let j = choose|j: int| 0 <= j < added.len() && added[j] == kc;
        assert(derived_keys_upto(w, n)[prev.len() + j] == kc);
    } else {
        lemma_derived_keys_include(w, i, n - 1, kc);
        let prev = derived_keys_upto(w, n - 1);
        let j = choose|j: int| 0 <= j < prev.len() && prev[j] == kc;
        assert(derived_keys_upto(w, n)[j] == kc);
    }
}

/// Layer priority: the most recently activated layer that binds the
/// coordinate non-transparently wins, and with no active layer the base
/// layer decides.
pub proof fn lemma_layer_priority(v: LayoutView, r: int, c: int)
    requires
        v.wf(),
        0 <= r < v.rows as int,
        0 <= c < v.cols as int,
    ensures
        v.stack.len() > 0 && !(v.cell(v.stack.last() as int, r, c) is Trans) ==> v.lookup(r, c)
            == v.cell(v.stack.last() as int, r, c),
        v.stack.len() == 0 ==> v.lookup(r, c) == v.cell(0, r, c),
{
}

/// A fresh press of a coordinate whose current binding is a plain key
/// asserts exactly that key code on the next tick.
pub proof fn lemma_press_yields_key(v: LayoutView, r: u8, c: u8, kc: u8)
    requires
        v.wf(),
        r < v.rows,
        c < v.cols,
        find_pressed(v.pressed, r, c) == -1,
        forall|j: int| 0 <= j < v.pressed.len() ==> !((#[trigger] v.pressed[j]).state is HtWaiting),
        v.lookup(r as int, c as int) == Action::Key(kc),
    ensures
        spec_tick_keys(spec_apply(v, KeyEvent::Press(r, c))).contains(kc),
{
    let n = v.pressed.len() as int;
    lemma_interrupt_pushes_empty(v, n);
    lemma_interrupts_resolved_points(v, n);
    let v1 = spec_apply(v, KeyEvent::Press(r, c));
    let stack2 = v.stack + interrupt_pushes(v, n);
    assert(stack2 =~= v.stack);
    assert(v1 == spec_apply_press(v, r, c));
    let li = resolve_from(v.layers, stack2, r as int, c as int);
    assert(v.cell(li as int, r as int, c as int) == Action::Key(kc));
    let entry = PressedKey { row: r, col: c, state: KeyState::Passive };
    assert(v1.pressed =~= interrupts_resolved(v, n).push(entry));
    assert(v1.pressed[n] == entry);
    assert(v1.stack == stack2);
    // the tick resolves nothing: the new entry is passive, the rest were
    // not undecided
    lemma_apply_wf(v, KeyEvent::Press(r, c));
    assert(forall|j: int|
        0 <= j < n ==> #[trigger] v1.pressed[j] == (
        if hop_resolves(v, v.pressed[j]) {
            resolve_to_held(v.pressed[j])
        } else {
            v.pressed[j]
        }));
    assert(forall|j: int| 0 <= j < n + 1 ==> !tick_resolves(#[trigger] v1.pressed[j]));
    lemma_tick_pushes_empty(v1, n + 1);
    lemma_ticked_pressed_points(v1.pressed, n + 1);
    let w = spec_tick_state(v1);
    assert(w.stack =~= v1.stack);
    assert(w.pressed[n] == tick_pk(entry));
    assert(tick_pk(entry) == entry);
    assert(w.layers == v.layers);
    assert(resolve_from(w.layers, w.stack, r as int, c as int) == li);
    assert(w.lookup(r as int, c as int) == Action::Key(kc));
    assert(key_contrib(w, w.pressed[n]) == seq![kc]);
    assert(key_contrib(w, w.pressed[n]).contains(kc)) by {
        assert(key_contrib(w, w.pressed[n])[0] == kc);
    }
    lemma_derived_keys_include(w, n, n + 1, kc);
    let derived = derived_keys_upto(w, n + 1);
    let j = choose|j: int| 0 <= j < derived.len() && derived[j] == kc;
    assert(spec_tick_keys(v1)[j] == kc);
    assert(spec_tick_keys(v1).contains(kc));
}

/// When `find_pressed` reports -1, no entry matches.
/// `find_pressed` never reports anything below -1.
pub proof fn lemma_find_range(pressed: Seq<PressedKey>, r: u8, c: u8)
    ensures
        find_pressed(pressed, r, c) >= -1,
    decreases pressed.len(),
{
    if pressed.len() > 0 {
        lemma_find_range(pressed.drop_first(), r, c);
    }
}

pub proof fn lemma_find_neg(pressed: Seq<PressedKey>, r: u8, c: u8)
    requires
        find_pressed(pressed, r, c) == -1,
    ensures
        forall|j: int|
            0 <= j < pressed.len() ==> !((#[trigger] pressed[j]).row == r && pressed[j].col == c),
    decreases pressed.len(),
{
    if pressed.len() > 0 {
        lemma_find_range(pressed.drop_first(), r, c);
        assert(find_pressed(pressed.drop_first(), r, c) == -1);
        lemma_find_neg(pressed.drop_first(), r, c);
        assert forall|j: int| 0 <= j < pressed.len() implies !((#[trigger] pressed[j]).row == r
            && pressed[j].col == c) by {
            if j > 0 {
                assert(pressed.drop_first()[j - 1] == pressed[j]);
            }
        }
    }
}

/// Ticks compose.
pub proof fn lemma_tick_n_add(v: LayoutView, a: int, b: int)
    requires
        0 <= a,
        0 <= b,
    ensures
        tick_n(v, a + b) == tick_n(tick_n(v, a), b),
    decreases b,
{
    if b > 0 {
        lemma_tick_n_add(v, a, b - 1);
    }
}

/// A state with no undecided hold-tap and no pending one-shot is steady:
/// ticks leave it exactly as it is.
pub proof fn lemma_ticks_steady(u: LayoutView, m: int)
    requires
        u.wf(),
        forall|j: int| 0 <= j < u.pressed.len() ==> !((#[trigger] u.pressed[j]).state is HtWaiting),
        u.oneshots == Seq::<u8>::empty(),
        0 <= m,
    ensures
        tick_n(u, m) == u,
    decreases m,
{
    if m > 0 {
        let n = u.pressed.len() as int;
        assert(forall|j: int| 0 <= j < n ==> !tick_resolves(#[trigger] u.pressed[j]));
        lemma_tick_pushes_empty(u, n);
        lemma_ticked_pressed_points(u.pressed, n);
        let w = spec_tick_state(u);
        assert(w.stack =~= u.stack);
        assert forall|j: int| 0 <= j < n implies #[trigger] w.pressed[j] == u.pressed[j] by {
            assert(w.pressed[j] == tick_pk(u.pressed[j]));
        }
        assert(w.pressed =~= u.pressed);
        assert(w =~~= u);
        assert(w == u);
        lemma_ticks_steady(u, m - 1);
        assert(tick_n(u, m) == spec_tick_state(tick_n(u, m - 1)));
    }
}

/// Tap/hold boundary, tap half: pressing a hold-tap key and releasing it
/// after fewer than `timeout` ticks, with no other key involved, never
/// resolves the hold. The key stays undecided throughout, the release
/// restores the pressed set and the layer stack exactly, and only the tap
/// action's one-shot is queued — which the following tick then asserts.
pub proof fn lemma_tap_within_timeout(v: LayoutView, r: u8, c: u8, k: int)
    requires
        v.wf(),
        r < v.rows,
        c < v.cols,
        find_pressed(v.pressed, r, c) == -1,
        v.lookup(r as int, c as int) is HoldTap,
        forall|j: int| 0 <= j < v.pressed.len() ==> !((#[trigger] v.pressed[j]).state is HtWaiting),
        v.oneshots == Seq::<u8>::empty(),
        0 <= k < ht_of(v.lookup(r as int, c as int)).timeout,
    ensures
        ({
            let ht = ht_of(v.lookup(r as int, c as int));
            let v1 = spec_apply(v, KeyEvent::Press(r, c));
            let vk = tick_n(v1, k);
            let vr = spec_apply(vk, KeyEvent::Release(r, c));
            &&& forall|t: int|
                0 <= t <= k ==> (#[trigger] tick_n(v1, t).pressed[v.pressed.len() as int].state)
                    is HtWaiting
            &&& vr.pressed == v.pressed
            &&& vr.stack == v.stack
            &&& vr.oneshots == (match ht.tap {
                Action::Key(kc) => seq![kc],
                _ => Seq::<u8>::empty(),
            })
            &&& (ht.tap matches Action::Key(kc) ==> spec_tick_keys(vr).contains(kc))
        }),
{
    let n = v.pressed.len() as int;
    lemma_interrupt_pushes_empty(v, n);
    lemma_interrupts_resolved_points(v, n);
    let v1 = spec_apply(v, KeyEvent::Press(r, c));
    let stack2 = v.stack + interrupt_pushes(v, n);
    assert(stack2 =~= v.stack);
    let li = resolve_from(v.layers, stack2, r as int, c as int);
    let a = v.cell(li as int, r as int, c as int);
    assert(a == v.lookup(r as int, c as int));
    let ht = ht_of(a);
    let entry = PressedKey { row: r, col: c, state: KeyState::HtWaiting { layer: li, left: ht.timeout } };
    assert(v1 == spec_apply_press(v, r, c));
    assert(v1.pressed == interrupts_resolved(v, n).push(entry));
    assert(v1.pressed.len() == n + 1);
    assert forall|j: int| 0 <= j < n implies #[trigger] v1.pressed[j] == v.pressed[j] by {
        assert(!hop_resolves(v, v.pressed[j]));
    }
    assert(v1.pressed[n] == entry);
    assert(v1.stack == stack2);
    assert(v1.oneshots == Seq::<u8>::empty());
    lemma_apply_wf(v, KeyEvent::Press(r, c));
    assert(v1.wf());
    // the timer only counts down while the key is held
    assert forall|t: int| 0 <= t <= k implies (
    #[trigger] tick_n(v1, t).pressed[n].state) is HtWaiting by {
        lemma_ticks_count_down(v1, n, t);
    }
    lemma_ticks_count_down(v1, n, k);
    let vk = tick_n(v1, k);
    assert(vk.stack == stack2);
    assert(vk.pressed.len() == n + 1);
    let entry_k = PressedKey {
        row: r,
        col: c,
        state: KeyState::HtWaiting { layer: li, left: (ht.timeout - k) as u16 },
    };
    assert(vk.pressed[n] == entry_k);
    // the release finds the key, still undecided, and resolves it as tap
    lemma_find_neg(v.pressed, r, c);
    assert forall|j: int| 0 <= j < n implies !((#[trigger] vk.pressed[j]).row == r
        && vk.pressed[j].col == c) by {
        assert(vk.pressed[j] == v.pressed[j]);
    }
    lemma_find_at(vk.pressed, r, c, n);
    let vr = spec_apply(vk, KeyEvent::Release(r, c));
    assert(vr == spec_apply_release(vk, r, c));
    assert(vr.pressed =~= v.pressed) by {
        assert(vk.pressed.remove(n) =~= v.pressed);
    }
    assert(vr.stack == vk.stack);
    assert(vr.stack =~= v.stack);
    assert(vk.cell(li as int, r as int, c as int) == a);
    assert(tap_codes(vk, li, r, c) == (match ht.tap {
        Action::Key(kc) => seq![kc],
        _ => Seq::<u8>::empty(),
    }));
    assert(vr.oneshots =~= (match ht.tap {
        Action::Key(kc) => seq![kc],
        _ => Seq::<u8>::empty(),
    }));
    // the queued one-shot is asserted by the next tick
    match ht.tap {
        Action::Key(kc) => {
            let w2 = spec_tick_state(vr);
            lemma_ticked_pressed_points(vr.pressed, vr.pressed.len() as int);
            let derived = derived_keys_upto(w2, w2.pressed.len() as int);
            assert(spec_tick_keys(vr) == derived + vr.oneshots);
            assert(spec_tick_keys(vr)[derived.len() as int] == kc);
            assert(spec_tick_keys(vr).contains(kc));
        },
        _ => {},
    }
}

/// Tap/hold boundary, hold half: holding a hold-tap key for at least
/// `timeout` ticks resolves it as hold; the hold key code is asserted
/// while the key stays down, and the release restores the pressed set and
/// the layer stack exactly, with no tap one-shot ever queued.
pub proof fn lemma_hold_after_timeout(v: LayoutView, r: u8, c: u8, k: int)
    requires
        v.wf(),
        r < v.rows,
        c < v.cols,
        find_pressed(v.pressed, r, c) == -1,
        v.lookup(r as int, c as int) is HoldTap,
        forall|j: int| 0 <= j < v.pressed.len() ==> !((#[trigger] v.pressed[j]).state is HtWaiting),
        v.oneshots == Seq::<u8>::empty(),
        k >= ht_of(v.lookup(r as int, c as int)).timeout,
    ensures
        ({
            let ht = ht_of(v.lookup(r as int, c as int));
            let v1 = spec_apply(v, KeyEvent::Press(r, c));
            let vk = tick_n(v1, k);
            let vr = spec_apply(vk, KeyEvent::Release(r, c));
            &&& (#[trigger] vk.pressed[v.pressed.len() as int].state) is HtHeld
            &&& (ht.hold matches Action::Key(kc) ==> spec_tick_keys(vk).contains(kc))
            &&& vr.oneshots == Seq::<u8>::empty()
            &&& vr.pressed == v.pressed
            &&& vr.stack == v.stack
        }),
{
    let n = v.pressed.len() as int;
    lemma_interrupt_pushes_empty(v, n);
    lemma_interrupts_resolved_points(v, n);
    let v1 = spec_apply(v, KeyEvent::Press(r, c));
    let stack2 = v.stack + interrupt_pushes(v, n);
    assert(stack2 =~= v.stack);
    let li = resolve_from(v.layers, stack2, r as int, c as int);
    let a = v.cell(li as int, r as int, c as int);
    assert(a == v.lookup(r as int, c as int));
    let ht = ht_of(a);
    let t_out = ht.timeout as int;
    let entry = PressedKey { row: r, col: c, state: KeyState::HtWaiting { layer: li, left: ht.timeout } };
    assert(v1 == spec_apply_press(v, r, c));
    assert(v1.pressed.len() == n + 1);
    assert forall|j: int| 0 <= j < n implies #[trigger] v1.pressed[j] == v.pressed[j] by {
        assert(!hop_resolves(v, v.pressed[j]));
    }
    assert(v1.pressed[n] == entry);
    assert(v1.stack == stack2);
    assert(v1.oneshots == Seq::<u8>::empty());
    lemma_apply_wf(v, KeyEvent::Press(r, c));
    // count down to one tick before the timeout
    lemma_ticks_count_down(v1, n, t_out - 1);
    let u = tick_n(v1, t_out - 1);
    assert(u.pressed[n].state == KeyState::HtWaiting { layer: li, left: 1u16 });
    // the timeout tick resolves the entry as hold
    let m = u.pressed.len() as int;
    assert(m == n + 1);
    lemma_ticked_pressed_points(u.pressed, m);
    lemma_tick_wf(u);
    let w = spec_tick_state(u);
    lemma_tick_n_add(v1, t_out - 1, 1);
    assert(tick_n(v1, t_out) == w);
    let held = PressedKey { row: r, col: c, state: KeyState::HtHeld { layer: li } };
    assert(w.pressed[n] == tick_pk(u.pressed[n]));
    assert(w.pressed[n] == held);
    assert forall|j: int| 0 <= j < n implies #[trigger] w.pressed[j] == v.pressed[j] by {
        assert(w.pressed[j] == tick_pk(u.pressed[j]));
        assert(u.pressed[j] == v.pressed[j]);
    }
    // only the resolving entry pushes, and only if its hold is a layer
    assert forall|j: int| 0 <= j < m && j != n implies !tick_resolves(#[trigger] u.pressed[j]) by {
        assert(u.pressed[j] == v.pressed[j]);
    }
    let hlp = hold_layer_push(u, u.pressed[n]);
    assert(tick_pushes(u, m) =~= hlp) by {
        lemma_tick_pushes_only(u, m, n);
    }
    assert(u.cell(li as int, r as int, c as int) == a);
    assert(hlp == (match ht.hold {
        Action::Layer(nn) => seq![nn],
        _ => Seq::<u8>::empty(),
    }));
    assert(w.stack == u.stack + hlp);
    assert(w.oneshots == Seq::<u8>::empty());
    // after the resolution the state is steady
    assert forall|j: int| 0 <= j < m implies !((#[trigger] w.pressed[j]).state is HtWaiting) by {
        if j < n {
            assert(w.pressed[j] == v.pressed[j]);
        } else {
            assert(w.pressed[j] == held);
        }
    }
    lemma_ticks_steady(w, k - t_out);
    lemma_tick_n_add(v1, t_out, k - t_out);
    let vk = tick_n(v1, k);
    assert(vk == w);
    // while held, the hold key code is asserted
    match ht.hold {
        Action::Key(kc) => {
            assert(key_contrib(w, w.pressed[n]) == seq![kc]) by {
                assert(hold_of(w, li, r, c) == ht.hold);
            }
            assert(key_contrib(w, w.pressed[n]).contains(kc)) by {
                assert(key_contrib(w, w.pressed[n])[0] == kc);
            }
            let w2 = spec_tick_state(w);
            lemma_ticked_pressed_points(w.pressed, m);
            assert(w2.pressed[n] == tick_pk(held));
            assert(forall|j: int| 0 <= j < m ==> !tick_resolves(#[trigger] w.pressed[j]));
            lemma_tick_pushes_empty(w, m);
            assert(w2.stack =~= w.stack);
            assert(key_contrib(w2, w2.pressed[n]) == seq![kc]) by {
                assert(w2.cell(li as int, r as int, c as int) == a);
                assert(hold_of(w2, li, r, c) == ht.hold);
            }
            assert(key_contrib(w2, w2.pressed[n]).contains(kc)) by {
                assert(key_contrib(w2, w2.pressed[n])[0] == kc);
            }
            lemma_derived_keys_include(w2, n, m, kc);
            let derived = derived_keys_upto(w2, m);
            let j = choose|j: int| 0 <= j < derived.len() && derived[j] == kc;
            assert(spec_tick_keys(w)[j] == kc);
            assert(spec_tick_keys(w).contains(kc));
        },
        _ => {},
    }
    // the release pops exactly what the hold pushed and queues no tap
    lemma_find_neg(v.pressed, r, c);
    assert forall|j: int| 0 <= j < n implies !((#[trigger] vk.pressed[j]).row == r
        && vk.pressed[j].col == c) by {
        assert(vk.pressed[j] == v.pressed[j]);
    }
    lemma_find_at(vk.pressed, r, c, n);
    let vr = spec_apply(vk, KeyEvent::Release(r, c));
    assert(vr == spec_apply_release(vk, r, c));
    assert(vr.pressed =~= v.pressed) by {
        assert(vk.pressed.remove(n) =~= v.pressed);
    }
    assert(vr.oneshots == Seq::<u8>::empty());
    assert(vk.cell(li as int, r as int, c as int) == a);
    assert(hold_of(vk, li, r, c) == ht.hold);
    match ht.hold {
        Action::Layer(nn) => {
            assert(vk.stack == u.stack + seq![nn]);
            assert(vk.stack.last() == nn);
            assert(vr.stack == remove_last_occurrence(vk.stack, nn));
            assert(vr.stack == vk.stack.drop_last());
            assert(vr.stack =~= v.stack);
        },
        _ => {
            assert(vk.stack =~= v.stack);
            assert(vr.stack == vk.stack);
        },
    }
}

/// The layers a tick pushes when exactly one entry resolves are that
/// entry's hold layers alone.
pub proof fn lemma_tick_pushes_only(v: LayoutView, n: int, idx: int)
    requires
        0 <= idx < n <= v.pressed.len(),
        tick_resolves(v.pressed[idx]),
        forall|j: int| 0 <= j < n && j != idx ==> !tick_resolves(#[trigger] v.pressed[j]),
    ensures
        tick_pushes(v, n) == hold_layer_push(v, v.pressed[idx]),
    decreases n,
{
    if n - 1 == idx {
        lemma_tick_pushes_empty(v, n - 1);
        assert(tick_pushes(v, n) =~= hold_layer_push(v, v.pressed[idx]));
    } else {
        lemma_tick_pushes_only(v, n - 1, idx);
        assert(tick_pushes(v, n) =~= hold_layer_push(v, v.pressed[idx]));
    }
}

/// Interrupt as hold: pressing a hold-on-other-press hold-tap key, then a
/// second, distinct key before its timeout, resolves it as hold at once,
/// whatever the elapsed time; the hold key code is asserted while the key
/// stays down, and its later release queues no tap one-shot.
pub proof fn lemma_interrupt_resolves_hold(
    v: LayoutView,
    r: u8,
    c: u8,
    k: int,
    r2: u8,
    c2: u8,
)
    requires
        v.wf(),
        r < v.rows,
        c < v.cols,
        r2 < v.rows,
        c2 < v.cols,
        !(r2 == r && c2 == c),
        find_pressed(v.pressed, r, c) == -1,
        find_pressed(v.pressed, r2, c2) == -1,
        v.lookup(r as int, c as int) is HoldTap,
        ht_of(v.lookup(r as int, c as int)).policy is HoldOnOtherPress,
        forall|j: int| 0 <= j < v.pressed.len() ==> !((#[trigger] v.pressed[j]).state is HtWaiting),
        v.oneshots == Seq::<u8>::empty(),
        0 <= k < ht_of(v.lookup(r as int, c as int)).timeout,
    ensures
        ({
            let ht = ht_of(v.lookup(r as int, c as int));
            let v1 = spec_apply(v, KeyEvent::Press(r, c));
            let vk = tick_n(v1, k);
            let v2 = spec_apply(vk, KeyEvent::Press(r2, c2));
            let v3 = spec_apply(v2, KeyEvent::Release(r, c));
            &&& (#[trigger] v2.pressed[v.pressed.len() as int].state) is HtHeld
            &&& (ht.hold matches Action::Key(kc) ==> spec_tick_keys(v2).contains(kc))
            &&& v3.oneshots == v2.oneshots
            &&& v3.pressed == v2.pressed.remove(v.pressed.len() as int)
        }),
{
    let n = v.pressed.len() as int;
    lemma_interrupt_pushes_empty(v, n);
    lemma_interrupts_resolved_points(v, n);
    let v1 = spec_apply(v, KeyEvent::Press(r, c));
    let stack2 = v.stack + interrupt_pushes(v, n);
    assert(stack2 =~= v.stack);
    let li = resolve_from(v.layers, stack2, r as int, c as int);
    let a = v.cell(li as int, r as int, c as int);
    assert(a == v.lookup(r as int, c as int));
    let ht = ht_of(a);
    let entry = PressedKey { row: r, col: c, state: KeyState::HtWaiting { layer: li, left: ht.timeout } };
    assert(v1 == spec_apply_press(v, r, c));
    assert(v1.pressed.len() == n + 1);
    assert forall|j: int| 0 <= j < n implies #[trigger] v1.pressed[j] == v.pressed[j] by {
        assert(!hop_resolves(v, v.pressed[j]));
    }
    assert(v1.pressed[n] == entry);
    assert(v1.stack == stack2);
    assert(v1.oneshots == Seq::<u8>::empty());
    lemma_apply_wf(v, KeyEvent::Press(r, c));
    lemma_ticks_count_down(v1, n, k);
    let vk = tick_n(v1, k);
    let entry_k = PressedKey {
        row: r,
        col: c,
        state: KeyState::HtWaiting { layer: li, left: (ht.timeout - k) as u16 },
    };
    assert(vk.pressed[n] == entry_k);
    assert(vk.pressed.len() == n + 1);
    assert(vk.stack == stack2);
    // the second press finds (r2, c2) fresh
    lemma_find_neg(v.pressed, r2, c2);
    assert forall|j: int| 0 <= j < n + 1 implies !((#[trigger] vk.pressed[j]).row == r2
        && vk.pressed[j].col == c2) by {
        if j < n {
            assert(vk.pressed[j] == v.pressed[j]);
        } else {
            assert(vk.pressed[j] == entry_k);
        }
    }
    lemma_find_none(vk.pressed, r2, c2);
    let v2 = spec_apply(vk, KeyEvent::Press(r2, c2));
    assert(v2 == spec_apply_press(vk, r2, c2));
    // the undecided entry resolves as hold at once
    lemma_interrupts_resolved_points(vk, n + 1);
    assert(vk.cell(li as int, r as int, c as int) == a);
    assert(hop_resolves(vk, entry_k));
    let held = PressedKey { row: r, col: c, state: KeyState::HtHeld { layer: li } };
    assert(interrupts_resolved(vk, n + 1)[n] == resolve_to_held(entry_k));
    assert(resolve_to_held(entry_k) == held);
    assert(v2.pressed == interrupts_resolved(vk, n + 1).push(
        v2.pressed[v2.pressed.len() - 1],
    )) by {
        assert(v2.pressed =~= interrupts_resolved(vk, n + 1).push(
            v2.pressed[v2.pressed.len() - 1],
        ));
    }
    assert(v2.pressed.len() == n + 2);
    assert(v2.pressed[n] == held);
    assert forall|j: int| 0 <= j < n implies #[trigger] v2.pressed[j] == v.pressed[j] by {
        assert(interrupts_resolved(vk, n + 1)[j] == (
        if hop_resolves(vk, vk.pressed[j]) {
            resolve_to_held(vk.pressed[j])
        } else {
            vk.pressed[j]
        }));
        assert(vk.pressed[j] == v.pressed[j]);
        assert(!hop_resolves(vk, vk.pressed[j]));
    }
    lemma_apply_wf(vk, KeyEvent::Press(r2, c2));
    // while held, the hold key code is asserted
    match ht.hold {
        Action::Key(kc) => {
            let w2 = spec_tick_state(v2);
            lemma_ticked_pressed_points(v2.pressed, n + 2);
            assert(w2.pressed[n] == tick_pk(held));
            assert(tick_pk(held) == held);
            assert(w2.cell(li as int, r as int, c as int) == a);
            assert(hold_of(w2, li, r, c) == ht.hold);
            assert(key_contrib(w2, w2.pressed[n]) == seq![kc]);
            assert(key_contrib(w2, w2.pressed[n]).contains(kc)) by {
                assert(key_contrib(w2, w2.pressed[n])[0] == kc);
            }
            lemma_derived_keys_include(w2, n, n + 2, kc);
            let derived = derived_keys_upto(w2, n + 2);
            let j = choose|j: int| 0 <= j < derived.len() && derived[j] == kc;
            assert(spec_tick_keys(v2)[j] == kc);
            assert(spec_tick_keys(v2).contains(kc));
        },
        _ => {},
    }
    // the release of the hold-tap key queues no tap one-shot
    lemma_find_neg(v.pressed, r, c);
    assert forall|j: int| 0 <= j < n implies !((#[trigger] v2.pressed[j]).row == r
        && v2.pressed[j].col == c) by {
        assert(v2.pressed[j] == v.pressed[j]);
    }
    lemma_find_at(v2.pressed, r, c, n);
    let v3 = spec_apply(v2, KeyEvent::Release(r, c));
    assert(v3 == spec_apply_release(v2, r, c));
    assert(v3.oneshots == v2.oneshots);
    assert(v3.pressed == v2.pressed.remove(n));
}

/// Decision data of one hold-tap cell, read once per event.
struct HtInfo {
    policy: InterruptPolicy,
    hold_layer: Option<u8>,
    hold_key: Option<u8>,
    tap_key: Option<u8>,
}

} // verus!
