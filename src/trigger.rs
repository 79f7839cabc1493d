use crate::keys::{combination, combination_of, key_set, lemma_combination_nonempty, same_keys};
use keycode::KeyMappingCode;
use tinyset::SetU32;
use vstd::prelude::*;

verus! {

/// A callback that the caller must run, naming the trigger by its index in
/// the binding (the order in which it was registered).
#[derive(Clone, Copy, Debug, PartialEq, Eq, Structural)]
pub enum Callback {
    /// The action run when the trigger's combination is matched.
    OnPressed(usize),
    /// The action run when the active trigger is released.
    OnReleased(usize),
}

/// Why a trigger could not be registered.
#[derive(Clone, Copy, Debug, PartialEq, Eq, Structural)]
pub enum ConfigError {
    /// An empty combination would match "no key held".
    EmptyCombination,
}

struct Trigger {
    keys: SetU32,
    has_release: bool,
}

/// Stores the key bindings of one keyboard, and which of them is active.
pub struct KeyboardTriggers {
    keyboard_name: String,
    triggers: Vec<Trigger>,
    current_pressed: Option<usize>,
    take_ownership: bool,
}

/// Index `i` is the first combination of `combos` equal to `p`.
pub open spec fn is_first_match(combos: Seq<Set<u32>>, p: Set<u32>, i: int) -> bool {
    &&& 0 <= i < combos.len()
    &&& combos[i] == p
    &&& forall|j: int| 0 <= j < i ==> combos[j] != p
}

/// No combination of `combos` equals `p`.
pub open spec fn no_match(combos: Seq<Set<u32>>, p: Set<u32>) -> bool {
    forall|j: int| 0 <= j < combos.len() ==> combos[j] != p
}

/// Whenever some combination equals `p`, exactly one index is the first
/// such: matching is well defined and picks the lowest index.
pub proof fn lemma_first_match(combos: Seq<Set<u32>>, p: Set<u32>)
    requires
        !no_match(combos, p),
    ensures
        exists|i: int| is_first_match(combos, p, i),
        forall|i: int, k: int| is_first_match(combos, p, i) && is_first_match(combos, p, k) ==> i == k,
    decreases combos.len(),
{
    let prefix = combos.drop_last();
    assert forall|j: int| 0 <= j < prefix.len() implies #[trigger] prefix[j] == combos[j] by {}
    if !no_match(prefix, p) {
        lemma_first_match(prefix, p);
        let i = choose|i: int| is_first_match(prefix, p, i);
        assert(combos[i] == prefix[i]);
        assert forall|j: int| 0 <= j < i implies combos[j] != p by {
            assert(prefix[j] != p);
        }
        assert(is_first_match(combos, p, i));
    } else {
        let w = choose|w: int| 0 <= w < combos.len() && combos[w] == p;
        if w < prefix.len() {
            assert(prefix[w] == p);
        }
        assert forall|j: int| 0 <= j < combos.len() - 1 implies combos[j] != p by {
            assert(prefix[j] != p);
        }
        assert(is_first_match(combos, p, w));
    }
    assert forall|i: int, k: int| is_first_match(combos, p, i) && is_first_match(combos, p, k) implies i == k by {
        if i < k {
            assert(combos[i] == p);
        } else if k < i {
            assert(combos[k] == p);
        }
    }
}

/// The release callback of the trigger `a`, if it is active and has one.
pub open spec fn release_calls(a: Option<usize>, has_release: Seq<bool>) -> Seq<Callback> {
    match a {
        Some(j) => if has_release[j as int] {
            seq![Callback::OnReleased(j)]
        } else {
            Seq::empty()
        },
        None => Seq::empty(),
    }
}

/// What runs when trigger `i` matches while `prev` was active: `i`'s action
/// first, then the release of the previous trigger if it is another one.
pub open spec fn activation_calls(i: usize, prev: Option<usize>, has_release: Seq<bool>) -> Seq<
    Callback,
> {
    if prev == Some(i) {
        seq![Callback::OnPressed(i)]
    } else {
        seq![Callback::OnPressed(i)] + release_calls(prev, has_release)
    }
}

/// What matching the held keys `p` does to a binding: on no match nothing
/// changes and nothing runs; otherwise the first equal combination becomes
/// the active trigger and `calls` are its activation callbacks.
pub open spec fn activation(
    before: KeyboardTriggers,
    p: Set<u32>,
    after: KeyboardTriggers,
    matched: bool,
    calls: Seq<Callback>,
) -> bool {
    &&& after.wf()
    &&& after.same_config(&before)
    &&& matched == !no_match(before.combos(), p)
    &&& no_match(before.combos(), p) ==> after == before && calls == Seq::<Callback>::empty()
    &&& forall|i: int|
        #[trigger] is_first_match(before.combos(), p, i) ==> {
            &&& after.active() == Some(i as usize)
            &&& calls == activation_calls(i as usize, before.active(), before.has_release())
        }
}

/// What releasing does to a binding: the active trigger's release callback
/// runs, if there is one, and no trigger is active afterwards.
pub open spec fn deactivation(before: KeyboardTriggers, after: KeyboardTriggers, calls: Seq<Callback>) -> bool {
    &&& after.wf()
    &&& after.same_config(&before)
    &&& after.active() == None::<usize>
    &&& calls == release_calls(before.active(), before.has_release())
}

/// A newly matched trigger's press action runs before the release action
/// of the trigger that was active until then, and nothing else runs.
pub proof fn lemma_press_before_release(
    before: KeyboardTriggers,
    p: Set<u32>,
    after: KeyboardTriggers,
    matched: bool,
    calls: Seq<Callback>,
    i: usize,
    j: usize,
)
    requires
        before.wf(),
        activation(before, p, after, matched, calls),
        is_first_match(before.combos(), p, i as int),
        before.active() == Some(j),
        j != i,
        before.has_release()[j as int],
    ensures
        matched,
        calls == seq![Callback::OnPressed(i), Callback::OnReleased(j)],
{
    assert(!no_match(before.combos(), p));
    assert(calls == activation_calls(i, before.active(), before.has_release()));
    assert(calls =~= seq![Callback::OnPressed(i), Callback::OnReleased(j)]);
}

/// Releasing runs the active trigger's release action exactly once, when it
/// has one, nothing when no trigger is active, and leaves no trigger active.
pub proof fn lemma_release_once(before: KeyboardTriggers, after: KeyboardTriggers, calls: Seq<Callback>)
    requires
        before.wf(),
        deactivation(before, after, calls),
    ensures
        after.active() == None::<usize>,
        before.active() == None::<usize> ==> calls.len() == 0,
        before.active() matches Some(j) ==> if before.has_release()[j as int] {
            calls == seq![Callback::OnReleased(j)]
        } else {
            calls.len() == 0
        },
{
}

impl KeyboardTriggers {
    /// The name of the keyboard.
    pub closed spec fn name(&self) -> Seq<char> {
        self.keyboard_name@
    }

    /// The combinations, in registration order.
    pub closed spec fn combos(&self) -> Seq<Set<u32>> {
        self.triggers@.map_values(|t: Trigger| key_set(t.keys))
    }

    /// For each trigger, whether it has a release action.
    pub closed spec fn has_release(&self) -> Seq<bool> {
        self.triggers@.map_values(|t: Trigger| t.has_release)
    }

    /// The active trigger, if any.
    pub closed spec fn active(&self) -> Option<usize> {
        self.current_pressed
    }

    /// Whether the keyboard is to be owned exclusively.
    pub closed spec fn exclusive(&self) -> bool {
        self.take_ownership
    }

    /// The active trigger exists, and no combination is empty.
    pub open spec fn wf(&self) -> bool {
        &&& self.combos().len() == self.has_release().len()
        &&& self.active() matches Some(a) ==> a < self.combos().len()
        &&& forall|i: int| 0 <= i < self.combos().len() ==> self.combos()[i] != Set::<u32>::empty()
    }

    /// The two values differ at most in which trigger is active.
    pub open spec fn same_config(&self, other: &KeyboardTriggers) -> bool {
        &&& self.name() == other.name()
        &&& self.combos() == other.combos()
        &&& self.has_release() == other.has_release()
        &&& self.exclusive() == other.exclusive()
    }

    /// Creates a group of triggers for the named keyboard, which will be
    /// owned exclusively: its events reach no one else.
    pub fn new(keyboard_name: &str) -> (r: Self)
        ensures
            r.wf(),
            r.name() == keyboard_name@,
            r.combos() == Seq::<Set<u32>>::empty(),
            r.active() == None::<usize>,
            r.exclusive(),
    {
        let r = KeyboardTriggers {
            keyboard_name: keyboard_name.to_owned(),
            triggers: Vec::new(),
            current_pressed: None,
            take_ownership: true,
        };
        assert(r.combos() =~= Seq::<Set<u32>>::empty());
        r
    }

    /// Creates a group of triggers for the named keyboard, which keeps its
    /// ordinary function for everyone else.
    pub fn new_keep_keyboard(name: &str) -> (r: Self)
        ensures
            r.wf(),
            r.name() == name@,
            r.combos() == Seq::<Set<u32>>::empty(),
            r.active() == None::<usize>,
            !r.exclusive(),
    {
        let r = KeyboardTriggers {
            keyboard_name: name.to_owned(),
            triggers: Vec::new(),
            current_pressed: None,
            take_ownership: false,
        };
        assert(r.combos() =~= Seq::<Set<u32>>::empty());
        r
    }

    fn insert_trigger(&mut self, keys: &[KeyMappingCode], has_release: bool) -> (r: Result<
        usize,
        ConfigError,
    >)
        requires
            old(self).wf(),
        ensures
            final(self).wf(),
            keys@.len() == 0 ==> r == Err::<usize, ConfigError>(ConfigError::EmptyCombination)
                && *final(self) == *old(self),
            keys@.len() > 0 ==> r == Ok::<usize, ConfigError>(old(self).combos().len() as usize)
                && final(self).combos() == old(self).combos().push(combination_of(keys@))
                && final(self).has_release() == old(self).has_release().push(has_release)
                && final(self).name() == old(self).name()
                && final(self).active() == old(self).active()
                && final(self).exclusive() == old(self).exclusive(),
    {
        if keys.len() == 0 {
            return Err(ConfigError::EmptyCombination);
        }
        proof {
            lemma_combination_nonempty(keys@);
        }
        let index = self.triggers.len();
        let set = combination(keys);
        self.triggers.push(Trigger { keys: set, has_release });
        assert(self.combos() =~= old(self).combos().push(combination_of(keys@)));
        assert(self.has_release() =~= old(self).has_release().push(has_release));
        Ok(index)
    }

    /// Registers a trigger that fires when exactly the given keys are held.
    /// Returns the trigger's index; an empty list of keys is refused.
    pub fn insert(&mut self, keys: &[KeyMappingCode]) -> (r: Result<usize, ConfigError>)
        requires
            old(self).wf(),
        ensures
            final(self).wf(),
            keys@.len() == 0 ==> r == Err::<usize, ConfigError>(ConfigError::EmptyCombination)
                && *final(self) == *old(self),
            keys@.len() > 0 ==> r == Ok::<usize, ConfigError>(old(self).combos().len() as usize)
                && final(self).combos() == old(self).combos().push(combination_of(keys@))
                && final(self).has_release() == old(self).has_release().push(false)
                && final(self).name() == old(self).name()
                && final(self).active() == old(self).active()
                && final(self).exclusive() == old(self).exclusive(),
    {
        self.insert_trigger(keys, false)
    }

    /// Registers a trigger that fires when exactly the given keys are held,
    /// with an action to run when the combination is released.
    pub fn insert_with_release(&mut self, keys: &[KeyMappingCode]) -> (r: Result<
        usize,
        ConfigError,
    >)
        requires
            old(self).wf(),
        ensures
            final(self).wf(),
            keys@.len() == 0 ==> r == Err::<usize, ConfigError>(ConfigError::EmptyCombination)
                && *final(self) == *old(self),
            keys@.len() > 0 ==> r == Ok::<usize, ConfigError>(old(self).combos().len() as usize)
                && final(self).combos() == old(self).combos().push(combination_of(keys@))
                && final(self).has_release() == old(self).has_release().push(true)
                && final(self).name() == old(self).name()
                && final(self).active() == old(self).active()
                && final(self).exclusive() == old(self).exclusive(),
    {
        self.insert_trigger(keys, true)
    }
    /// Matches the held keys against the triggers in registration order.
    /// On a match the first equal combination becomes the active trigger,
    /// and the callbacks to run are returned in order: its press action,
    /// then the release action of the trigger active before, if that was
    /// another one. Without a match nothing changes and nothing runs.
    pub fn try_activate(&mut self, pressed: &SetU32) -> (r: (bool, Vec<Callback>))
        requires
            old(self).wf(),
        ensures
            activation(*old(self), key_set(*pressed), *final(self), r.0, r.1@),
    {
        let ghost p = key_set(*pressed);
        let mut i: usize = 0;
        while i < self.triggers.len()
            invariant
                *self == *old(self),
                self.wf(),
                p == key_set(*pressed),
                i <= self.triggers@.len(),
                forall|j: int| 0 <= j < i ==> self.combos()[j] != p,
            decreases self.triggers.len() - i,
        {
            assert(self.combos()[i as int] == key_set(self.triggers@[i as int].keys));
            if same_keys(&self.triggers[i].keys, pressed) {
                let prev = self.current_pressed;
                self.current_pressed = Some(i);
                let mut calls: Vec<Callback> = Vec::new();
                calls.push(Callback::OnPressed(i));
                match prev {
                    Some(j) => {
                        if j != i && self.triggers[j].has_release {
                            calls.push(Callback::OnReleased(j));
                        }
                    },
                    None => {},
                }
                proof {
                    assert(self.combos() =~= old(self).combos());
                    assert(self.has_release() =~= old(self).has_release());
                    assert(is_first_match(old(self).combos(), p, i as int));
                    assert forall|k: int| #[trigger]
                        is_first_match(old(self).combos(), p, k) implies k == i by {
                        if k < i {
                        } else if k > i {
                            assert(old(self).combos()[i as int] == p);
                        }
                    }
                    assert(calls@ =~= activation_calls(i, prev, old(self).has_release()));
                }
                return (true, calls);
            }
            i = i + 1;
        }
        proof {
            assert forall|k: int| #[trigger]
                is_first_match(old(self).combos(), p, k) implies false by {
                assert(old(self).combos()[k] == p);
            }
        }
        (false, Vec::new())
    }

    /// Releases the active trigger: returns its release callback, if it has
    /// one, and leaves no trigger active.
    pub fn deactivate(&mut self) -> (r: Vec<Callback>)
        requires
            old(self).wf(),
        ensures
            deactivation(*old(self), *final(self), r@),
    {
        let mut calls: Vec<Callback> = Vec::new();
        match self.current_pressed {
            Some(j) => {
                if self.triggers[j].has_release {
                    calls.push(Callback::OnReleased(j));
                }
            },
            None => {},
        }
        self.current_pressed = None;
        proof {
            assert(self.combos() =~= old(self).combos());
            assert(self.has_release() =~= old(self).has_release());
            assert(calls@ =~= release_calls(old(self).active(), old(self).has_release()));
        }
        calls
    }
}

/// Holds the triggers of every keyboard, one binding per keyboard name.
pub struct Triggers {
    candidates: Vec<KeyboardTriggers>,
}

/// Binding `i` of `bs` is the one of keyboard `name`.
pub open spec fn binding_at(bs: Seq<KeyboardTriggers>, name: Seq<char>, i: int) -> bool {
    0 <= i < bs.len() && bs[i].name() == name
}

/// Binding `i` of `bs` is the one of keyboard `name`, to be owned exclusively.
pub open spec fn owned_at(bs: Seq<KeyboardTriggers>, name: Seq<char>, i: int) -> bool {
    binding_at(bs, name, i) && bs[i].exclusive()
}

/// Keyboard `name` has a binding in `bs`, to be owned exclusively.
pub open spec fn is_owned(bs: Seq<KeyboardTriggers>, name: Seq<char>) -> bool {
    exists|i: int| owned_at(bs, name, i)
}

/// `name` is one of `names`.
pub open spec fn listed(names: Seq<String>, name: Seq<char>) -> bool {
    exists|k: int| 0 <= k < names.len() && names[k]@ == name
}

/// No binding of `bs` is for keyboard `name`.
pub open spec fn unbound(bs: Seq<KeyboardTriggers>, name: Seq<char>) -> bool {
    forall|i: int| 0 <= i < bs.len() ==> bs[i].name() != name
}

impl Default for Triggers {
    fn default() -> (r: Triggers)
        ensures
            r.wf(),
            r.bindings() == Seq::<KeyboardTriggers>::empty(),
    {
        Triggers::new()
    }
}

impl Triggers {
    /// The bindings, one per keyboard name.
    pub closed spec fn bindings(&self) -> Seq<KeyboardTriggers> {
        self.candidates@
    }

    /// Every binding is well formed, and no two are for the same keyboard.
    pub open spec fn wf(&self) -> bool {
        &&& forall|i: int| 0 <= i < self.bindings().len() ==> #[trigger] self.bindings()[i].wf()
        &&& forall|i: int, j: int|
            0 <= i < self.bindings().len() && 0 <= j < self.bindings().len() && i != j
                ==> #[trigger] self.bindings()[i].name() != #[trigger] self.bindings()[j].name()
    }

    /// An empty registry.
    pub fn new() -> (r: Self)
        ensures
            r.wf(),
            r.bindings() == Seq::<KeyboardTriggers>::empty(),
    {
        let r = Triggers { candidates: Vec::new() };
        assert(r.bindings() =~= Seq::<KeyboardTriggers>::empty());
        r
    }

    fn position(&self, keyboard: &String) -> (r: Option<usize>)
        requires
            self.wf(),
        ensures
            r matches Some(i) ==> binding_at(self.bindings(), keyboard@, i as int),
            r is None ==> unbound(self.bindings(), keyboard@),
    {
        let mut i: usize = 0;
        while i < self.candidates.len()
            invariant
                i <= self.candidates@.len(),
                forall|j: int| 0 <= j < i ==> self.bindings()[j].name() != keyboard@,
            decreases self.candidates.len() - i,
        {
            if self.candidates[i].keyboard_name == *keyboard {
                return Some(i);
            }
            i = i + 1;
        }
        None
    }

    /// Registers the triggers of a keyboard, replacing any earlier binding
    /// of the same keyboard name.
    pub fn insert(&mut self, triggers: KeyboardTriggers)
        requires
            old(self).wf(),
            triggers.wf(),
        ensures
            final(self).wf(),
            forall|i: int|
                #[trigger] binding_at(old(self).bindings(), triggers.name(), i)
                    ==> final(self).bindings() == old(self).bindings().update(i, triggers),
            unbound(old(self).bindings(), triggers.name()) ==> final(self).bindings()
                == old(self).bindings().push(triggers),
    {
        let ghost t = triggers;
        match self.position(&triggers.keyboard_name) {
            Some(i) => {
                self.candidates.set(i, triggers);
                proof {
                    assert forall|k: int| #[trigger]
                        binding_at(old(self).bindings(), t.name(), k) implies k == i by {
                        if k != i {
                            assert(old(self).bindings()[k].name() != old(self).bindings()[i as int].name());
                        }
                    }
                }
            },
            None => {
                self.candidates.push(triggers);
                proof {
                    assert forall|k: int| #[trigger]
                        binding_at(old(self).bindings(), t.name(), k) implies false by {
                        assert(old(self).bindings()[k].name() != t.name());
                    }
                    assert forall|k: int| 0 <= k < self.bindings().len() implies #[trigger] self.bindings()[k].wf() by {
                        if k < old(self).bindings().len() {
                            assert(self.bindings()[k] == old(self).bindings()[k]);
                        }
                    }
                }
            },
        }
    }

    /// The names of the keyboards to be owned exclusively: each name once.
    pub fn devices_to_own(&self) -> (r: Vec<String>)
        requires
            self.wf(),
        ensures
            forall|k: int| 0 <= k < r@.len() ==> #[trigger] is_owned(self.bindings(), r@[k]@),
            forall|i: int|
                0 <= i < self.bindings().len() && #[trigger] self.bindings()[i].exclusive()
                    ==> listed(r@, self.bindings()[i].name()),
    {
        let mut names: Vec<String> = Vec::new();
        let mut i: usize = 0;
        while i < self.candidates.len()
            invariant
                i <= self.candidates@.len(),
                forall|k: int| 0 <= k < names@.len() ==> #[trigger] is_owned(self.bindings(), names@[k]@),
                forall|j: int|
                    0 <= j < i && #[trigger] self.bindings()[j].exclusive()
                        ==> listed(names@, self.bindings()[j].name()),
            decreases self.candidates.len() - i,
        {
            if self.candidates[i].take_ownership {
                let name = self.candidates[i].keyboard_name.clone();
                let ghost before = names@;
                names.push(name);
                proof {
                    let last = names@.len() - 1;
                    assert(self.bindings()[i as int].exclusive());
                    assert(owned_at(self.bindings(), names@[last]@, i as int));
                    assert forall|k: int| 0 <= k < names@.len() implies #[trigger] is_owned(self.bindings(), names@[k]@) by {
                        if k < last {
                            assert(names@[k] == before[k]);
                        }
                    }
                    assert forall|j: int|
                        0 <= j <= i && #[trigger] self.bindings()[j].exclusive()
                            implies listed(names@, self.bindings()[j].name()) by {
                        if j == i {
                            assert(names@[last]@ == self.bindings()[j].name());
                        } else {
                            let k = choose|k: int| 0 <= k < before.len() && before[k]@ == self.bindings()[j].name();
                            assert(names@[k] == before[k]);
                        }
                    }
                }
            }
            i = i + 1;
        }
        names
    }
    /// Hands the keys held on `keyboard` to that keyboard's binding.
    /// Without a binding nothing happens: no match and no callback.
    /// Otherwise only that binding changes, as `try_activate` says.
    pub fn try_run(&mut self, keyboard: &str, keys: &SetU32) -> (r: (bool, Vec<Callback>))
        requires
            old(self).wf(),
        ensures
            final(self).wf(),
            unbound(old(self).bindings(), keyboard@) ==> final(self).bindings() == old(self).bindings()
                && !r.0 && r.1@ == Seq::<Callback>::empty(),
            forall|i: int|
                #[trigger] binding_at(old(self).bindings(), keyboard@, i) ==> {
                    &&& final(self).bindings() == old(self).bindings().update(i, final(self).bindings()[i])
                    &&& activation(old(self).bindings()[i], key_set(*keys), final(self).bindings()[i], r.0, r.1@)
                },
    {
        let name = keyboard.to_owned();
        match self.position(&name) {
            Some(i) => {
                let r = self.candidates[i].try_activate(keys);
                proof {
                    self.lemma_only_one_changed(*old(self), i as int);
                }
                r
            },
            None => (false, Vec::new()),
        }
    }

    /// Releases the active trigger of `keyboard`'s binding, if it has one.
    /// Without a binding nothing happens and no callback runs.
    pub fn release(&mut self, keyboard: &str) -> (r: Vec<Callback>)
        requires
            old(self).wf(),
        ensures
            final(self).wf(),
            unbound(old(self).bindings(), keyboard@) ==> final(self).bindings() == old(self).bindings()
                && r@ == Seq::<Callback>::empty(),
            forall|i: int|
                #[trigger] binding_at(old(self).bindings(), keyboard@, i) ==> {
                    &&& final(self).bindings() == old(self).bindings().update(i, final(self).bindings()[i])
                    &&& deactivation(old(self).bindings()[i], final(self).bindings()[i], r@)
                },
    {
        let name = keyboard.to_owned();
        match self.position(&name) {
            Some(i) => {
                let r = self.candidates[i].deactivate();
                proof {
                    self.lemma_only_one_changed(*old(self), i as int);
                }
                r
            },
            None => Vec::new(),
        }
    }

    /// After binding `i` changed but kept its configuration, the registry
    /// is still well formed and no other binding has the same name.
    proof fn lemma_only_one_changed(&self, before: Triggers, i: int)
        requires
            before.wf(),
            0 <= i < before.bindings().len(),
            self.bindings() == before.bindings().update(i, self.bindings()[i]),
            self.bindings()[i].wf(),
            self.bindings()[i].same_config(&before.bindings()[i]),
        ensures
            self.wf(),
            forall|k: int| #[trigger] binding_at(before.bindings(), before.bindings()[i].name(), k) ==> k == i,
    {
        assert forall|k: int| 0 <= k < self.bindings().len() implies #[trigger] self.bindings()[k].wf() by {
            if k != i {
                assert(self.bindings()[k] == before.bindings()[k]);
            }
        }
        assert forall|a: int, b: int|
            0 <= a < self.bindings().len() && 0 <= b < self.bindings().len() && a != b
                implies #[trigger] self.bindings()[a].name() != #[trigger] self.bindings()[b].name() by {
            assert(before.bindings()[a].name() != before.bindings()[b].name());
        }
        assert forall|k: int| #[trigger] binding_at(before.bindings(), before.bindings()[i].name(), k) implies k == i by {
            if k != i {
                assert(before.bindings()[k].name() != before.bindings()[i].name());
            }
        }
    }
}

} // verus!
