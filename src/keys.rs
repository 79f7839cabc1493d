use keycode::{KeyMap, KeyMappingCode};
use tinyset::SetU32;
use vstd::prelude::*;

verus! {

#[verifier::external_type_specification]
#[verifier::external_body]
pub struct ExSetU32(SetU32);

#[verifier::external_type_specification]
#[verifier::external_body]
pub struct ExKeyMappingCode(KeyMappingCode);

/// The keys that a `SetU32` holds.
pub uninterp spec fn key_set(s: SetU32) -> Set<u32>;

/// The Linux evdev number of a platform-neutral key code.
pub uninterp spec fn evdev_code(code: KeyMappingCode) -> u32;

/// Relies on tinyset's `SetU32::new`: an empty set.
pub assume_specification[ SetU32::new ]() -> (r: SetU32)
    ensures
        key_set(r) == Set::<u32>::empty(),
;

/// Relies on tinyset's `SetU32::insert`: adds `e`, and says whether it was absent.
pub assume_specification[ SetU32::insert ](s: &mut SetU32, e: u32) -> (r: bool)
    ensures
        key_set(*final(s)) == key_set(*old(s)).insert(e),
        r == !key_set(*old(s)).contains(e),
;

/// Relies on tinyset's `SetU32::remove`: takes `e` out, and says whether it was there.
pub assume_specification[ SetU32::remove ](s: &mut SetU32, e: u32) -> (r: bool)
    ensures
        key_set(*final(s)) == key_set(*old(s)).remove(e),
        r == key_set(*old(s)).contains(e),
;

/// Relies on tinyset's `SetU32::contains`: whether `e` is in the set.
pub assume_specification[ SetU32::contains ](s: &SetU32, e: u32) -> (r: bool)
    ensures
        r == key_set(*s).contains(e),
;

/// Relies on tinyset's `PartialEq` for `SetU32`: equal lengths and every
/// element of one contained in the other, that is, equal sets.
#[verifier::external_body]
pub(crate) fn same_keys(a: &SetU32, b: &SetU32) -> (r: bool)
    ensures
        r == (key_set(*a) == key_set(*b)),
{
    a == b
}

/// Relies on keycode's `KeyMap::from(KeyMappingCode)`: the evdev number of the key.
#[verifier::external_body]
pub fn keymap(code: KeyMappingCode) -> (r: u32)
    ensures
        r == evdev_code(code),
{
    KeyMap::from(code).evdev as u32
}

/// The set of native key numbers that a list of key codes names.
pub open spec fn combination_of(keys: Seq<KeyMappingCode>) -> Set<u32>
    decreases keys.len(),
{
    if keys.len() == 0 {
        Set::empty()
    } else {
        combination_of(keys.drop_last()).insert(evdev_code(keys.last()))
    }
}

/// Builds the combination of the given keys; duplicates collapse.
pub fn combination(keys: &[KeyMappingCode]) -> (r: SetU32)
    ensures
        key_set(r) == combination_of(keys@),
{
    let mut set = SetU32::new();
    let mut i: usize = 0;
    while i < keys.len()
        invariant
            i <= keys@.len(),
            key_set(set) == combination_of(keys@.subrange(0, i as int)),
        decreases keys.len() - i,
    {
        let code = keymap(keys[i]);
        set.insert(code);
        proof {
            let s = keys@.subrange(0, i + 1);
            assert(s.drop_last() =~= keys@.subrange(0, i as int));
        }
        i = i + 1;
    }
    assert(keys@.subrange(0, i as int) =~= keys@);
    set
}

/// A combination built from at least one key is never empty.
pub proof fn lemma_combination_nonempty(keys: Seq<KeyMappingCode>)
    requires
        keys.len() > 0,
    ensures
        combination_of(keys).contains(evdev_code(keys.last())),
        combination_of(keys) != Set::<u32>::empty(),
{
    assert(!Set::<u32>::empty().contains(evdev_code(keys.last())));
}

} // verus!
