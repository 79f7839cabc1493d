use crate::keys::key_set;
use crate::trigger::{activation, binding_at, deactivation, unbound, Callback, Triggers};
use tinyset::SetU32;
use vstd::prelude::*;

verus! {

struct PressedKeys {
    device: String,
    keys: SetU32,
}

/// The state of the dispatch loop: the registry, and for each keyboard seen
/// so far the keys that are held on it.
pub struct Listener {
    triggers: Triggers,
    pressed: Vec<PressedKeys>,
}

impl Listener {
    /// The registry of bindings.
    pub closed spec fn triggers(&self) -> Triggers {
        self.triggers
    }

    /// Entry `i` holds the keys of `device`.
    closed spec fn entry_at(&self, device: Seq<char>, i: int) -> bool {
        0 <= i < self.pressed@.len() && self.pressed@[i].device@ == device
    }

    /// The keys held on `device`; none on a keyboard not seen yet.
    pub closed spec fn pressed(&self, device: Seq<char>) -> Set<u32> {
        if exists|i: int| self.entry_at(device, i) {
            key_set(self.pressed@[choose|i: int| self.entry_at(device, i)].keys)
        } else {
            Set::empty()
        }
    }

    /// The registry is well formed, and each keyboard has at most one entry.
    pub closed spec fn wf(&self) -> bool {
        &&& self.triggers.wf()
        &&& forall|a: int, b: int|
            0 <= a < self.pressed@.len() && 0 <= b < self.pressed@.len() && a != b
                ==> #[trigger] self.pressed@[a].device@ != #[trigger] self.pressed@[b].device@
    }

    /// The keys that `self` holds on `device`, for an entry `i` of it.
    proof fn lemma_pressed_at(&self, device: Seq<char>, i: int)
        requires
            self.wf(),
            self.entry_at(device, i),
        ensures
            self.pressed(device) == key_set(self.pressed@[i].keys),
    {
        let j = choose|j: int| self.entry_at(device, j);
        assert(self.entry_at(device, j));
        if j != i {
            assert(self.pressed@[i].device@ != self.pressed@[j].device@);
        }
    }

    /// Starts listening with the given registry; no key is held.
    pub fn new(triggers: Triggers) -> (r: Self)
        requires
            triggers.wf(),
        ensures
            r.wf(),
            r.triggers() == triggers,
            forall|d: Seq<char>| #[trigger] r.pressed(d) == Set::<u32>::empty(),
    {
        let r = Listener { triggers, pressed: Vec::new() };
        assert forall|d: Seq<char>| #[trigger] r.pressed(d) == Set::<u32>::empty() by {
            assert(!(exists|i: int| r.entry_at(d, i)));
        }
        r
    }

    /// The index of `device`'s entry, made with no key held if it had none.
    fn entry(&mut self, device: &String) -> (r: usize)
        requires
            old(self).wf(),
        ensures
            final(self).wf(),
            final(self).triggers() == old(self).triggers(),
            final(self).entry_at(device@, r as int),
            final(self).pressed(device@) == old(self).pressed(device@),
            forall|d: Seq<char>| d != device@ ==> #[trigger] final(self).pressed(d) == old(self).pressed(d),
    {
        let mut i: usize = 0;
        while i < self.pressed.len()
            invariant
                *self == *old(self),
                self.wf(),
                i <= self.pressed@.len(),
                forall|j: int| 0 <= j < i ==> self.pressed@[j].device@ != device@,
            decreases self.pressed.len() - i,
        {
            if self.pressed[i].device == *device {
                proof {
                    self.lemma_pressed_at(device@, i as int);
                }
                return i;
            }
            i = i + 1;
        }
        let ghost before = *self;
        self.pressed.push(PressedKeys { device: device.clone(), keys: SetU32::new() });
        proof {
            assert(!(exists|j: int| before.entry_at(device@, j)));
            assert forall|a: int, b: int|
                0 <= a < self.pressed@.len() && 0 <= b < self.pressed@.len() && a != b
                    implies #[trigger] self.pressed@[a].device@ != #[trigger] self.pressed@[b].device@ by {
                if a < i && b < i {
                    assert(before.pressed@[a].device@ != before.pressed@[b].device@);
                }
            }
            self.lemma_pressed_at(device@, i as int);
            assert forall|d: Seq<char>| d != device@ implies #[trigger] self.pressed(d) == before.pressed(d) by {
                if exists|j: int| before.entry_at(d, j) {
                    let j = choose|j: int| before.entry_at(d, j);
                    before.lemma_pressed_at(d, j);
                    self.lemma_pressed_at(d, j);
                } else {
                    assert forall|j: int| !self.entry_at(d, j) by {
                        if 0 <= j < i {
                            assert(!before.entry_at(d, j));
                        }
                    }
                }
            }
        }
        i
    }
    /// Changing the keys of entry `i` changes what is held on its keyboard only.
    proof fn lemma_keys_changed(&self, before: Listener, i: int)
        requires
            before.wf(),
            0 <= i < before.pressed@.len(),
            self.triggers.wf(),
            self.pressed@.len() == before.pressed@.len(),
            self.pressed@[i].device == before.pressed@[i].device,
            forall|j: int| 0 <= j < self.pressed@.len() && j != i ==> self.pressed@[j] == before.pressed@[j],
        ensures
            self.wf(),
            self.pressed(before.pressed@[i].device@) == key_set(self.pressed@[i].keys),
            forall|d: Seq<char>|
                d != before.pressed@[i].device@ ==> #[trigger] self.pressed(d) == before.pressed(d),
    {
        assert forall|a: int, b: int|
            0 <= a < self.pressed@.len() && 0 <= b < self.pressed@.len() && a != b
                implies #[trigger] self.pressed@[a].device@ != #[trigger] self.pressed@[b].device@ by {
            assert(before.pressed@[a].device@ != before.pressed@[b].device@);
        }
        self.lemma_pressed_at(before.pressed@[i].device@, i);
        assert forall|d: Seq<char>| d != before.pressed@[i].device@ implies #[trigger] self.pressed(d)
            == before.pressed(d) by {
            if exists|j: int| before.entry_at(d, j) {
                let j = choose|j: int| before.entry_at(d, j);
                before.lemma_pressed_at(d, j);
                self.lemma_pressed_at(d, j);
            } else {
                assert forall|j: int| !self.entry_at(d, j) by {
                    if 0 <= j < self.pressed@.len() && j != i {
                        assert(!before.entry_at(d, j));
                    }
                }
            }
        }
    }

    /// A key goes down on `device`: it joins the keys held there, and the
    /// held keys are matched against the device's binding. When a trigger
    /// matches, the key is taken out of the held keys again, so that the
    /// same combination does not match twice while it is held.
    pub fn key_pressed(&mut self, device: &str, key: u32) -> (r: (bool, Vec<Callback>))
        requires
            old(self).wf(),
        ensures
            final(self).wf(),
            final(self).pressed(device@) == if r.0 {
                old(self).pressed(device@).insert(key).remove(key)
            } else {
                old(self).pressed(device@).insert(key)
            },
            r.0 ==> !final(self).pressed(device@).contains(key),
            forall|d: Seq<char>| d != device@ ==> #[trigger] final(self).pressed(d) == old(self).pressed(d),
            unbound(old(self).triggers().bindings(), device@) ==> final(self).triggers().bindings()
                == old(self).triggers().bindings() && !r.0 && r.1@ == Seq::<Callback>::empty(),
            forall|i: int|
                #[trigger] binding_at(old(self).triggers().bindings(), device@, i) ==> {
                    &&& final(self).triggers().bindings() == old(self).triggers().bindings().update(
                        i,
                        final(self).triggers().bindings()[i],
                    )
                    &&& activation(
                        old(self).triggers().bindings()[i],
                        old(self).pressed(device@).insert(key),
                        final(self).triggers().bindings()[i],
                        r.0,
                        r.1@,
                    )
                },
    {
        let name = device.to_owned();
        let i = self.entry(&name);
        let ghost mid = *self;
        self.pressed[i].keys.insert(key);
        let r = self.triggers.try_run(device, &self.pressed[i].keys);
        if r.0 {
            self.pressed[i].keys.remove(key);
        }
        proof {
            self.lemma_keys_changed(mid, i as int);
        }
        r
    }

    /// A key goes up on `device`: it leaves the keys held there, whichever
    /// key it is, and the device's active trigger is released.
    pub fn key_released(&mut self, device: &str, key: u32) -> (r: Vec<Callback>)
        requires
            old(self).wf(),
        ensures
            final(self).wf(),
            final(self).pressed(device@) == old(self).pressed(device@).remove(key),
            forall|d: Seq<char>| d != device@ ==> #[trigger] final(self).pressed(d) == old(self).pressed(d),
            unbound(old(self).triggers().bindings(), device@) ==> final(self).triggers().bindings()
                == old(self).triggers().bindings() && r@ == Seq::<Callback>::empty(),
            forall|i: int|
                #[trigger] binding_at(old(self).triggers().bindings(), device@, i) ==> {
                    &&& final(self).triggers().bindings() == old(self).triggers().bindings().update(
                        i,
                        final(self).triggers().bindings()[i],
                    )
                    &&& deactivation(old(self).triggers().bindings()[i], final(self).triggers().bindings()[i], r@)
                },
    {
        let name = device.to_owned();
        let i = self.entry(&name);
        let ghost mid = *self;
        self.pressed[i].keys.remove(key);
        let r = self.triggers.release(device);
        proof {
            self.lemma_keys_changed(mid, i as int);
        }
        r
    }
    /// Whether `key` is held on `device`, as far as the listener knows.
    pub fn is_held(&self, device: &str, key: u32) -> (r: bool)
        requires
            self.wf(),
        ensures
            r == self.pressed(device@).contains(key),
    {
        let name = device.to_owned();
        let mut i: usize = 0;
        while i < self.pressed.len()
            invariant
                self.wf(),
                i <= self.pressed@.len(),
                name@ == device@,
                forall|j: int| 0 <= j < i ==> self.pressed@[j].device@ != device@,
            decreases self.pressed.len() - i,
        {
            if self.pressed[i].device == name {
                proof {
                    self.lemma_pressed_at(device@, i as int);
                }
                return self.pressed[i].keys.contains(key);
            }
            i = i + 1;
        }
        assert(!(exists|j: int| self.entry_at(device@, j)));
        false
    }
}

} // verus!
