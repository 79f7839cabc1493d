use macroboard::{
    combination, keymap, merge, merge_all, Callback, ConfigError, KeyMappingCode, KeyboardTriggers,
    Listener, ListeningCmd, Triggers,
};

fn ctrl() -> u32 {
    keymap(KeyMappingCode::ControlLeft)
}

fn key_e() -> u32 {
    keymap(KeyMappingCode::KeyE)
}

fn key_r() -> u32 {
    keymap(KeyMappingCode::KeyR)
}

fn example_listener() -> Listener {
    let mut kb = KeyboardTriggers::new("pad");
    assert_eq!(
        kb.insert_with_release(&[KeyMappingCode::ControlLeft, KeyMappingCode::KeyE]),
        Ok(0)
    );
    assert_eq!(kb.insert_with_release(&[KeyMappingCode::KeyR]), Ok(1));
    let mut triggers = Triggers::new();
    triggers.insert(kb);
    Listener::new(triggers)
}

#[test]
fn keymap_gives_evdev_numbers() {
    assert_eq!(keymap(KeyMappingCode::KeyA), 30);
    assert_eq!(keymap(KeyMappingCode::KeyE), 18);
    assert_eq!(keymap(KeyMappingCode::KeyR), 19);
    assert_eq!(keymap(KeyMappingCode::ControlLeft), 29);
}

#[test]
fn combination_ignores_order_and_duplicates() {
    let a = combination(&[KeyMappingCode::KeyE, KeyMappingCode::ControlLeft]);
    let b = combination(&[
        KeyMappingCode::ControlLeft,
        KeyMappingCode::KeyE,
        KeyMappingCode::ControlLeft,
    ]);
    assert!(a == b);
    assert_eq!(a.len(), 2);
    assert!(a.contains(29));
    assert!(a.contains(18));
}

#[test]
fn merge_stop_dominates() {
    assert_eq!(merge(ListeningCmd::Continue, ListeningCmd::Continue), ListeningCmd::Continue);
    assert_eq!(merge(ListeningCmd::Continue, ListeningCmd::Stop), ListeningCmd::Stop);
    assert_eq!(merge(ListeningCmd::Stop, ListeningCmd::Continue), ListeningCmd::Stop);
    assert_eq!(merge(ListeningCmd::Stop, ListeningCmd::Stop), ListeningCmd::Stop);
}

#[test]
fn merge_all_of_a_cycle() {
    assert_eq!(merge_all(&vec![]), ListeningCmd::Continue);
    assert_eq!(
        merge_all(&vec![ListeningCmd::Continue, ListeningCmd::Continue]),
        ListeningCmd::Continue
    );
    assert_eq!(
        merge_all(&vec![ListeningCmd::Continue, ListeningCmd::Stop, ListeningCmd::Continue]),
        ListeningCmd::Stop
    );
}

#[test]
fn default_command_continues() {
    assert_eq!(ListeningCmd::default(), ListeningCmd::Continue);
    assert_eq!(ListeningCmd::from(()), ListeningCmd::Continue);
}

#[test]
fn empty_combination_is_refused() {
    let mut kb = KeyboardTriggers::new("pad");
    assert_eq!(kb.insert(&[]), Err(ConfigError::EmptyCombination));
    assert_eq!(kb.insert_with_release(&[]), Err(ConfigError::EmptyCombination));
    assert_eq!(kb.insert(&[KeyMappingCode::KeyE]), Ok(0));
    assert_eq!(kb.insert(&[KeyMappingCode::KeyE, KeyMappingCode::KeyR]), Ok(1));
}

#[test]
fn try_activate_matches_exact_set_only() {
    let mut kb = KeyboardTriggers::new("pad");
    assert_eq!(kb.insert(&[KeyMappingCode::KeyE, KeyMappingCode::KeyR]), Ok(0));
    let subset = combination(&[KeyMappingCode::KeyE]);
    assert_eq!(kb.try_activate(&subset), (false, vec![]));
    let superset = combination(&[KeyMappingCode::KeyE, KeyMappingCode::KeyR, KeyMappingCode::KeyA]);
    assert_eq!(kb.try_activate(&superset), (false, vec![]));
    let exact = combination(&[KeyMappingCode::KeyR, KeyMappingCode::KeyE]);
    assert_eq!(kb.try_activate(&exact), (true, vec![Callback::OnPressed(0)]));
}

#[test]
fn activation_runs_before_previous_release() {
    let mut kb = KeyboardTriggers::new("pad");
    assert_eq!(kb.insert_with_release(&[KeyMappingCode::KeyA]), Ok(0));
    assert_eq!(kb.insert_with_release(&[KeyMappingCode::KeyE]), Ok(1));
    let a = combination(&[KeyMappingCode::KeyA]);
    let e = combination(&[KeyMappingCode::KeyE]);
    assert_eq!(kb.try_activate(&e), (true, vec![Callback::OnPressed(1)]));
    assert_eq!(
        kb.try_activate(&a),
        (true, vec![Callback::OnPressed(0), Callback::OnReleased(1)])
    );
    assert_eq!(kb.deactivate(), vec![Callback::OnReleased(0)]);
    assert_eq!(kb.deactivate(), vec![]);
}

#[test]
fn previous_trigger_without_release_action() {
    let mut kb = KeyboardTriggers::new("pad");
    assert_eq!(kb.insert(&[KeyMappingCode::KeyA]), Ok(0));
    assert_eq!(kb.insert_with_release(&[KeyMappingCode::KeyE]), Ok(1));
    let a = combination(&[KeyMappingCode::KeyA]);
    let e = combination(&[KeyMappingCode::KeyE]);
    assert_eq!(kb.try_activate(&a), (true, vec![Callback::OnPressed(0)]));
    assert_eq!(kb.try_activate(&e), (true, vec![Callback::OnPressed(1)]));
    assert_eq!(kb.deactivate(), vec![Callback::OnReleased(1)]);
}

#[test]
fn ctrl_e_then_r_scenario() {
    let mut l = example_listener();
    assert_eq!(l.key_pressed("pad", ctrl()), (false, vec![]));
    assert_eq!(l.key_pressed("pad", key_e()), (true, vec![Callback::OnPressed(0)]));
    assert!(l.is_held("pad", ctrl()));
    assert!(!l.is_held("pad", key_e()));
    assert_eq!(l.key_released("pad", ctrl()), vec![Callback::OnReleased(0)]);
    assert!(!l.is_held("pad", ctrl()));
    assert_eq!(l.key_released("pad", key_e()), vec![]);
    assert_eq!(l.key_pressed("pad", key_r()), (true, vec![Callback::OnPressed(1)]));
    assert_eq!(l.key_released("pad", key_r()), vec![Callback::OnReleased(1)]);
}

#[test]
fn matched_key_leaves_held_set() {
    let mut l = example_listener();
    assert_eq!(l.key_pressed("pad", key_r()), (true, vec![Callback::OnPressed(1)]));
    assert!(!l.is_held("pad", key_r()));
    // Another key now does not see r as held.
    assert_eq!(l.key_pressed("pad", ctrl()), (false, vec![]));
    assert!(l.is_held("pad", ctrl()));
}

#[test]
fn release_of_any_key_deactivates() {
    let mut l = example_listener();
    assert_eq!(l.key_pressed("pad", key_r()), (true, vec![Callback::OnPressed(1)]));
    assert_eq!(l.key_released("pad", keymap(KeyMappingCode::KeyA)), vec![Callback::OnReleased(1)]);
    assert_eq!(l.key_released("pad", key_r()), vec![]);
}

#[test]
fn shared_combination_fires_first_registered() {
    let mut kb = KeyboardTriggers::new("pad");
    assert_eq!(kb.insert_with_release(&[KeyMappingCode::KeyE]), Ok(0));
    assert_eq!(kb.insert_with_release(&[KeyMappingCode::KeyE]), Ok(1));
    let mut triggers = Triggers::new();
    triggers.insert(kb);
    let mut l = Listener::new(triggers);
    assert_eq!(l.key_pressed("pad", key_e()), (true, vec![Callback::OnPressed(0)]));
    assert_eq!(l.key_released("pad", key_e()), vec![Callback::OnReleased(0)]);
    assert_eq!(l.key_pressed("pad", key_e()), (true, vec![Callback::OnPressed(0)]));
}

#[test]
fn unknown_device_runs_nothing() {
    let mut l = example_listener();
    assert_eq!(l.key_pressed("other", key_r()), (false, vec![]));
    assert!(l.is_held("other", key_r()));
    assert_eq!(l.key_released("other", key_r()), vec![]);
    assert_eq!(merge_all(&vec![]), ListeningCmd::Continue);
    assert!(!l.is_held("pad", key_r()));
}

#[test]
fn registry_replaces_by_name_and_lists_owned() {
    let mut triggers = Triggers::default();
    let mut first = KeyboardTriggers::new("pad");
    assert_eq!(first.insert(&[KeyMappingCode::KeyE]), Ok(0));
    triggers.insert(first);
    let mut second = KeyboardTriggers::new_keep_keyboard("pad");
    assert_eq!(second.insert(&[KeyMappingCode::KeyR]), Ok(0));
    triggers.insert(second);
    triggers.insert(KeyboardTriggers::new("grabbed"));
    assert_eq!(triggers.devices_to_own(), vec!["grabbed".to_string()]);
    let e = combination(&[KeyMappingCode::KeyE]);
    let r = combination(&[KeyMappingCode::KeyR]);
    assert_eq!(triggers.try_run("pad", &e), (false, vec![]));
    assert_eq!(triggers.try_run("pad", &r), (true, vec![Callback::OnPressed(0)]));
    assert_eq!(triggers.release("pad"), vec![]);
    assert_eq!(triggers.try_run("missing", &r), (false, vec![]));
    assert_eq!(triggers.release("missing"), vec![]);
}
