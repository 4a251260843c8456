//! Key-to-action bindings and the per-frame lifecycle of each bound action.
use bevy::input::keyboard::KeyCode;
use bevy::input::ButtonInput;
use core::any::TypeId;
use vstd::prelude::*;

verus! {

/// bevy's `KeyCode`, carried as an opaque key identity.
#[verifier::external_type_specification]
#[verifier::external_body]
pub struct ExKeyCode(KeyCode);

/// bevy's `ButtonInput`, a frame's snapshot of held, just-pressed and
/// just-released buttons.
#[verifier::external_type_specification]
#[verifier::external_body]
#[verifier::reject_recursive_types(T)]
pub struct ExButtonInput<T: Copy + Eq + core::hash::Hash + Send + Sync + 'static>(ButtonInput<T>);

/// std's `TypeId`, the identity of an action.
#[verifier::external_type_specification]
#[verifier::external_body]
pub struct ExTypeId(TypeId);

/// The keys that a snapshot reports as held down.
pub uninterp spec fn pressed_keys(input: ButtonInput<KeyCode>) -> Set<KeyCode>;

/// The keys that a snapshot reports as pressed during the current frame.
pub uninterp spec fn just_pressed_keys(input: ButtonInput<KeyCode>) -> Set<KeyCode>;

/// The keys that a snapshot reports as released during the current frame.
pub uninterp spec fn just_released_keys(input: ButtonInput<KeyCode>) -> Set<KeyCode>;

/// Relies on `ButtonInput::any_pressed`: true when some key of `keys` is in the
/// snapshot's held set.
#[verifier::external_body]
fn any_pressed(input: &ButtonInput<KeyCode>, keys: &Vec<KeyCode>) -> (r: bool)
    ensures
        r == any_in(pressed_keys(*input), keys@),
{
    input.any_pressed(keys.iter().copied())
}

/// Relies on `ButtonInput::any_just_pressed`: true when some key of `keys` is in
/// the snapshot's just-pressed set.
#[verifier::external_body]
fn any_just_pressed(input: &ButtonInput<KeyCode>, keys: &Vec<KeyCode>) -> (r: bool)
    ensures
        r == any_in(just_pressed_keys(*input), keys@),
{
    input.any_just_pressed(keys.iter().copied())
}

/// Relies on `ButtonInput::any_just_released`: true when some key of `keys` is
/// in the snapshot's just-released set.
#[verifier::external_body]
fn any_just_released(input: &ButtonInput<KeyCode>, keys: &Vec<KeyCode>) -> (r: bool)
    ensures
        r == any_in(just_released_keys(*input), keys@),
{
    input.any_just_released(keys.iter().copied())
}

/// Relies on `TypeId::of`: the identity of the type `T`.
#[verifier::external_body]
fn type_id_of<T: ?Sized + 'static>() -> (r: TypeId) {
    TypeId::of::<T>()
}

/// Relies on `==` of `TypeId`: two identities compare equal exactly when they
/// are the same identity.
#[verifier::external_body]
fn same_type_id(a: &TypeId, b: &TypeId) -> (r: bool)
    ensures
        r == (*a == *b),
{
    *a == *b
}

/// Whether some key of `keys` lies in `set`.
pub open spec fn any_in(set: Set<KeyCode>, keys: Seq<KeyCode>) -> bool {
    exists|i: int| 0 <= i < keys.len() && set.contains(#[trigger] keys[i])
}

/// The phase of an action's lifecycle in one frame.
#[derive(Debug, Clone, Copy, PartialEq, Eq, Structural)]
pub enum ActionState {
    /// A bound key went down this frame.
    JustPressed,
    /// A bound key is held.
    Pressed,
    /// A bound key went up this frame.
    JustReleased,
}

/// The state of an action bound to `keys`: activation beats holding, holding
/// beats release, and nothing at all gives no state.
pub open spec fn state_of(input: ButtonInput<KeyCode>, keys: Seq<KeyCode>) -> Option<ActionState> {
    if any_in(just_pressed_keys(input), keys) {
        Some(ActionState::JustPressed)
    } else if any_in(pressed_keys(input), keys) {
        Some(ActionState::Pressed)
    } else if any_in(just_released_keys(input), keys) {
        Some(ActionState::JustReleased)
    } else {
        None
    }
}

/// Classifies the keys of one binding against a frame's snapshot.
pub fn action_state(input: &ButtonInput<KeyCode>, keys: &Vec<KeyCode>) -> (r: Option<ActionState>)
    ensures
        r == state_of(*input, keys@),
{
    if any_just_pressed(input, keys) {
        Some(ActionState::JustPressed)
    } else if any_pressed(input, keys) {
        Some(ActionState::Pressed)
    } else if any_just_released(input, keys) {
        Some(ActionState::JustReleased)
    } else {
        None
    }
}

/// The keys bound to one action.
struct ActionBinding {
    action: TypeId,
    triggers: Vec<KeyCode>,
}

/// An entity's table of bindings: one entry per action, in order of first bind.
pub struct ActionMappings {
    bindings: Vec<ActionBinding>,
}

/// One lifecycle event: the action it is for and the phase it reports.
#[derive(Debug, Clone, Copy)]
pub struct ActionEvent {
    pub action: TypeId,
    pub state: ActionState,
}

/// Whether no two entries of a table share an action.
pub open spec fn distinct_actions(m: Seq<(TypeId, Seq<KeyCode>)>) -> bool {
    forall|i: int, j: int|
        0 <= i < m.len() && 0 <= j < m.len() && i != j ==> (#[trigger] m[i]).0 != (#[trigger] m[j]).0
}

/// Whether the table has an entry for `action`.
pub open spec fn has_action(m: Seq<(TypeId, Seq<KeyCode>)>, action: TypeId) -> bool {
    exists|i: int| 0 <= i < m.len() && (#[trigger] m[i]).0 == action
}

/// The table after binding `keys` to `action`: the keys join an existing entry,
/// or a new entry comes last.
pub open spec fn bound(m: Seq<(TypeId, Seq<KeyCode>)>, action: TypeId, keys: Seq<KeyCode>) -> Seq<
    (TypeId, Seq<KeyCode>),
> {
    if has_action(m, action) {
        let i = choose|i: int| 0 <= i < m.len() && (#[trigger] m[i]).0 == action;
        m.update(i, (action, m[i].1 + keys))
    } else {
        m.push((action, keys))
    }
}

/// The events that a table fires for one snapshot, in table order.
pub open spec fn fired(m: Seq<(TypeId, Seq<KeyCode>)>, input: ButtonInput<KeyCode>) -> Seq<
    (TypeId, ActionState),
>
    decreases m.len(),
{
    if m.len() == 0 {
        Seq::empty()
    } else {
        let rest = fired(m.drop_last(), input);
        match state_of(input, m.last().1) {
            Some(s) => rest.push((m.last().0, s)),
            None => rest,
        }
    }
}

impl ActionBinding {
    spec fn view(&self) -> (TypeId, Seq<KeyCode>) {
        (self.action, self.triggers@)
    }
}

impl ActionEvent {
    pub open spec fn view(&self) -> (TypeId, ActionState) {
        (self.action, self.state)
    }
}

impl ActionMappings {
    pub closed spec fn view(&self) -> Seq<(TypeId, Seq<KeyCode>)> {
        self.bindings@.map_values(|b: ActionBinding| b@)
    }

    /// Each action appears at most once.
    pub open spec fn wf(&self) -> bool {
        distinct_actions(self@)
    }

    /// An empty table.
    pub fn new() -> (r: ActionMappings)
        ensures
            r@ == Seq::<(TypeId, Seq<KeyCode>)>::empty(),
            r.wf(),
    {
        let r = ActionMappings { bindings: Vec::new() };
        assert(r@ =~= Seq::<(TypeId, Seq<KeyCode>)>::empty());
        r
    }

    /// Binds `keys` to the action whose identity is `action`, adding them to the
    /// keys it already has.
    pub fn bind_id(&mut self, action: TypeId, keys: Vec<KeyCode>)
        requires
            old(self).wf(),
        ensures
            final(self).wf(),
            final(self)@ == bound(old(self)@, action, keys@),
    {
        let n = self.bindings.len();
        let mut i: usize = 0;
        while i < n
            invariant
                n == self.bindings@.len(),
                self@ == old(self)@,
                self.wf(),
                i <= n,
                forall|j: int| 0 <= j < i ==> (#[trigger] self@[j]).0 != action,
            decreases n - i,
        {
            if same_type_id(&self.bindings[i].action, &action) {
                assert(self@[i as int].0 == action);
                let ghost before = self@;
                let mut added = keys;
                self.bindings[i].triggers.append(&mut added);
                proof {
                    assert(has_action(before, action));
                    let c = choose|c: int| 0 <= c < before.len() && (#[trigger] before[c]).0 == action;
                    assert(c == i);
                    assert(self@ =~= before.update(i as int, (action, before[i as int].1 + keys@)));
                    assert(self@ == bound(before, action, keys@));
                }
                return;
            }
            i += 1;
        }
        let ghost before = self@;
        self.bindings.push(ActionBinding { action, triggers: keys });
        assert(self@ =~= before.push((action, keys@)));
    }

    /// Binds `keys` to the action `T`, adding them to the keys it already has.
    pub fn bind<T: ?Sized + 'static>(&mut self, keys: Vec<KeyCode>)
        requires
            old(self).wf(),
        ensures
            final(self).wf(),
            exists|action: TypeId| final(self)@ == bound(old(self)@, action, keys@),
    {
        let action = type_id_of::<T>();
        self.bind_id(action, keys);
    }

    /// The lifecycle events of every bound action for one frame's snapshot, in
    /// table order: at most one per action, none for an action whose keys are
    /// all idle.
    pub fn evaluate(&self, input: &ButtonInput<KeyCode>) -> (r: Vec<ActionEvent>)
        ensures
            r@.map_values(|e: ActionEvent| e@) == fired(self@, *input),
    {
        let mut events: Vec<ActionEvent> = Vec::new();
        let n = self.bindings.len();
        let mut i: usize = 0;
        while i < n
            invariant
                n == self.bindings@.len(),
                i <= n,
                events@.map_values(|e: ActionEvent| e@) == fired(self@.take(i as int), *input),
            decreases n - i,
        {
            let binding = &self.bindings[i];
            let state = action_state(input, &binding.triggers);
            let ghost prev = events@.map_values(|e: ActionEvent| e@);
            assert(self@.take(i + 1).drop_last() =~= self@.take(i as int));
            assert(self@.take(i + 1).last() == self@[i as int]);
            match state {
                Some(s) => {
                    events.push(ActionEvent { action: binding.action, state: s });
                    assert(events@.map_values(|e: ActionEvent| e@) =~= prev.push((binding.action, s)));
                },
                None => {},
            }
            i += 1;
        }
        assert(self@.take(n as int) =~= self@);
        events
    }
}

impl Default for ActionMappings {
    fn default() -> (r: ActionMappings)
        ensures
            r@ == Seq::<(TypeId, Seq<KeyCode>)>::empty(),
            r.wf(),
    {
        ActionMappings::new()
    }
}

/// The stronger of two states: activation beats holding, holding beats
/// release, and any state beats none.
pub open spec fn stronger(a: Option<ActionState>, b: Option<ActionState>) -> Option<ActionState> {
    if a == Some(ActionState::JustPressed) || b == Some(ActionState::JustPressed) {
        Some(ActionState::JustPressed)
    } else if a == Some(ActionState::Pressed) || b == Some(ActionState::Pressed) {
        Some(ActionState::Pressed)
    } else if a == Some(ActionState::JustReleased) || b == Some(ActionState::JustReleased) {
        Some(ActionState::JustReleased)
    } else {
        None
    }
}

/// A frame's events are exactly the pairs of a bound action and the state its
/// keys are in, for each action whose keys are not all idle.
pub proof fn lemma_fired_members(m: Seq<(TypeId, Seq<KeyCode>)>, input: ButtonInput<KeyCode>)
    ensures
        forall|e: (TypeId, ActionState)|
            fired(m, input).contains(e) <==> exists|k: int|
                0 <= k < m.len() && (#[trigger] m[k]).0 == e.0 && state_of(input, m[k].1) == Some(e.1),
    decreases m.len(),
{
    if m.len() > 0 {
        let rest = m.drop_last();
        lemma_fired_members(rest, input);
        assert forall|e: (TypeId, ActionState)|
            fired(m, input).contains(e) <==> exists|k: int|
                0 <= k < m.len() && (#[trigger] m[k]).0 == e.0 && state_of(input, m[k].1) == Some(e.1) by {
            if fired(m, input).contains(e) {
                if fired(rest, input).contains(e) {
                    let k = choose|k: int|
                        0 <= k < rest.len() && (#[trigger] rest[k]).0 == e.0 && state_of(input, rest[k].1) == Some(e.1);
                    assert(m[k] == rest[k]);
                } else {
                    let f = fired(m, input);
                    let fr = fired(rest, input);
                    let i = choose|i: int| 0 <= i < f.len() && f[i] == e;
                    match state_of(input, m.last().1) {
                        Some(s) => {
                            assert(f == fr.push((m.last().0, s)));
                            if i < fr.len() {
                                assert(fr[i] == e);
                                assert(fr.contains(e));
                            }
                            assert(e == (m.last().0, s));
                        },
                        None => {
                            assert(f[i] == fr[i]);
                        },
                    }
                    assert(m[m.len() - 1] == m.last());
                }
            }
            if exists|k: int| 0 <= k < m.len() && (#[trigger] m[k]).0 == e.0 && state_of(input, m[k].1) == Some(e.1) {
                let k = choose|k: int|
                    0 <= k < m.len() && (#[trigger] m[k]).0 == e.0 && state_of(input, m[k].1) == Some(e.1);
                if k < m.len() - 1 {
                    assert(rest[k] == m[k]);
                    let fr = fired(rest, input);
                    assert(fr.contains(e));
                    let j = choose|j: int| 0 <= j < fr.len() && fr[j] == e;
                    match state_of(input, m.last().1) {
                        Some(s) => {
                            assert(fired(m, input) == fr.push((m.last().0, s)));
                            assert(fired(m, input)[j] == e);
                        },
                        None => {
                            assert(fired(m, input)[j] == e);
                        },
                    }
                } else {
                    assert(fired(m, input) == fired(rest, input).push(e));
                    assert(fired(m, input)[fired(rest, input).len() as int] == e);
                }
            }
        }
    }
}

/// Every event of a frame is for an action of the table.
proof fn lemma_fired_actions(m: Seq<(TypeId, Seq<KeyCode>)>, input: ButtonInput<KeyCode>)
    ensures
        forall|i: int| 0 <= i < fired(m, input).len() ==> has_action(m, (#[trigger] fired(m, input)[i]).0),
    decreases m.len(),
{
    lemma_fired_members(m, input);
    assert forall|i: int| 0 <= i < fired(m, input).len() implies has_action(m, (#[trigger] fired(m, input)[i]).0) by {
        assert(fired(m, input).contains(fired(m, input)[i]));
    }
}

/// No action gets two events in one frame: the events of a table with distinct
/// actions are for distinct actions.
pub proof fn lemma_one_event_per_action(m: Seq<(TypeId, Seq<KeyCode>)>, input: ButtonInput<KeyCode>)
    requires
        distinct_actions(m),
    ensures
        forall|i: int, j: int|
            0 <= i < fired(m, input).len() && 0 <= j < fired(m, input).len() && i != j
                ==> (#[trigger] fired(m, input)[i]).0 != (#[trigger] fired(m, input)[j]).0,
    decreases m.len(),
{
    if m.len() > 0 {
        let rest = m.drop_last();
        assert(distinct_actions(rest)) by {
            assert forall|i: int, j: int|
                0 <= i < rest.len() && 0 <= j < rest.len() && i != j implies (#[trigger] rest[i]).0 != (#[trigger] rest[j]).0 by {
                assert(rest[i] == m[i] && rest[j] == m[j]);
            }
        }
        lemma_one_event_per_action(rest, input);
        lemma_fired_actions(rest, input);
        let f = fired(m, input);
        let fr = fired(rest, input);
        assert forall|i: int, j: int| 0 <= i < f.len() && 0 <= j < f.len() && i != j implies (#[trigger] f[i]).0 != (#[trigger] f[j]).0 by {
            if f.len() != fr.len() {
                assert(f == fr.push((m.last().0, state_of(input, m.last().1).unwrap())));
                if i == fr.len() || j == fr.len() {
                    let o = if i == fr.len() { j } else { i };
                    assert(f[o] == fr[o]);
                    assert(has_action(rest, fr[o].0));
                    let k = choose|k: int| 0 <= k < rest.len() && (#[trigger] rest[k]).0 == fr[o].0;
                    assert(m[k] == rest[k]);
                    assert(m[m.len() - 1] == m.last());
                } else {
                    assert(f[i] == fr[i] && f[j] == fr[j]);
                }
            }
        }
    }
}

/// An action none of whose keys is pressed, held or released this frame fires
/// nothing.
pub proof fn lemma_idle_action_is_silent(m: Seq<(TypeId, Seq<KeyCode>)>, input: ButtonInput<KeyCode>, k: int)
    requires
        distinct_actions(m),
        0 <= k < m.len(),
        !any_in(just_pressed_keys(input), m[k].1),
        !any_in(pressed_keys(input), m[k].1),
        !any_in(just_released_keys(input), m[k].1),
    ensures
        forall|i: int| 0 <= i < fired(m, input).len() ==> (#[trigger] fired(m, input)[i]).0 != m[k].0,
{
    lemma_fired_members(m, input);
    assert forall|i: int| 0 <= i < fired(m, input).len() implies (#[trigger] fired(m, input)[i]).0 != m[k].0 by {
        let e = fired(m, input)[i];
        assert(fired(m, input).contains(e));
        let j = choose|j: int| 0 <= j < m.len() && (#[trigger] m[j]).0 == e.0 && state_of(input, m[j].1) == Some(e.1);
        if e.0 == m[k].0 {
            assert(j == k);
        }
    }
}

/// A key that goes down this frame, and is therefore also held, starts its
/// action rather than continuing it.
pub proof fn lemma_activation_wins(input: ButtonInput<KeyCode>, keys: Seq<KeyCode>, key: KeyCode)
    requires
        keys.contains(key),
        just_pressed_keys(input).contains(key),
        pressed_keys(input).contains(key),
    ensures
        state_of(input, keys) == Some(ActionState::JustPressed),
{
    let i = choose|i: int| 0 <= i < keys.len() && keys[i] == key;
    assert(just_pressed_keys(input).contains(keys[i]));
}

/// A bound key that stays held after the frame it went down in keeps its
/// action running.
pub proof fn lemma_hold_keeps_running(input: ButtonInput<KeyCode>, keys: Seq<KeyCode>, key: KeyCode)
    requires
        keys.contains(key),
        pressed_keys(input).contains(key),
        !any_in(just_pressed_keys(input), keys),
    ensures
        state_of(input, keys) == Some(ActionState::Pressed),
{
    let i = choose|i: int| 0 <= i < keys.len() && keys[i] == key;
    assert(pressed_keys(input).contains(keys[i]));
}

/// The frame in which the last held key of an action goes up ends the action;
/// a later frame in which its keys are all idle fires nothing.
pub proof fn lemma_release_ends(input: ButtonInput<KeyCode>, later: ButtonInput<KeyCode>, keys: Seq<KeyCode>, key: KeyCode)
    requires
        keys.contains(key),
        just_released_keys(input).contains(key),
        !any_in(just_pressed_keys(input), keys),
        !any_in(pressed_keys(input), keys),
        !any_in(just_pressed_keys(later), keys),
        !any_in(pressed_keys(later), keys),
        !any_in(just_released_keys(later), keys),
    ensures
        state_of(input, keys) == Some(ActionState::JustReleased),
        state_of(later, keys) == None::<ActionState>,
{
    let i = choose|i: int| 0 <= i < keys.len() && keys[i] == key;
    assert(just_released_keys(input).contains(keys[i]));
}

/// Keys bound to one action act as alternatives: the action is in the stronger
/// of the states that each group of its keys would give alone.
pub proof fn lemma_keys_combine(input: ButtonInput<KeyCode>, a: Seq<KeyCode>, b: Seq<KeyCode>)
    ensures
        state_of(input, a + b) == stronger(state_of(input, a), state_of(input, b)),
{
    let ab = a + b;
    assert forall|set: Set<KeyCode>| any_in(set, ab) == (any_in(set, a) || any_in(set, b)) by {
        if any_in(set, ab) {
            let i = choose|i: int| 0 <= i < ab.len() && set.contains(#[trigger] ab[i]);
            if i < a.len() {
                assert(ab[i] == a[i]);
            } else {
                assert(ab[i] == b[i - a.len()]);
            }
        }
        if any_in(set, a) {
            let i = choose|i: int| 0 <= i < a.len() && set.contains(#[trigger] a[i]);
            assert(ab[i] == a[i]);
        }
        if any_in(set, b) {
            let i = choose|i: int| 0 <= i < b.len() && set.contains(#[trigger] b[i]);
            assert(ab[i + a.len()] == b[i]);
        }
    }
}

} // verus!
