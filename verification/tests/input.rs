use vidzy::input::{ManagedEvent, ManagedInput};

fn pairs(v: &[(&str, &str)]) -> Vec<(String, String)> {
    v.iter().map(|(a, b)| (a.to_string(), b.to_string())).collect()
}

#[test]
fn button_names_map_to_events() {
    assert_eq!(ManagedInput::event_from("m1"), ManagedEvent::M1);
    assert_eq!(ManagedInput::event_from("mleft"), ManagedEvent::M1);
    assert_eq!(ManagedInput::event_from("m2"), ManagedEvent::M2);
    assert_eq!(ManagedInput::event_from("mright"), ManagedEvent::M2);
    assert_eq!(ManagedInput::event_from("m3"), ManagedEvent::M3);
    assert_eq!(ManagedInput::event_from("mmiddle"), ManagedEvent::M3);
    assert_eq!(ManagedInput::event_from("m4"), ManagedEvent::N);
    assert_eq!(ManagedInput::event_from(""), ManagedEvent::N);
    assert_eq!(ManagedInput::event_from("M1"), ManagedEvent::N);
}

#[test]
fn input_needs_a_unit_interval() {
    assert!(ManagedInput::try_new(&pairs(&[])).is_none());
    assert!(ManagedInput::try_new(&pairs(&[("input.combos.unit-interval", "ten")])).is_none());
    assert!(ManagedInput::try_new(&pairs(&[("input.combos.unit-interval", "-10")])).is_some());
}

#[test]
fn combo_keys_need_a_field() {
    let cfg = pairs(&[("input.combos.unit-interval", "100"), ("input.combos.pat.zap", "m1")]);
    assert!(ManagedInput::try_new(&cfg).is_none());
}

#[test]
fn combo_time_span_must_fit() {
    let cfg = pairs(&[
        ("input.combos.unit-interval", "-9223372036854775808"),
        ("input.combos.pat.zap.combo", "m1"),
    ]);
    assert!(ManagedInput::try_new(&cfg).is_none());
    let cfg = pairs(&[
        ("input.combos.unit-interval", "-9223372036854775808"),
        ("input.combos.pat.zap.action", "m1"),
    ]);
    assert!(ManagedInput::try_new(&cfg).is_some());
}

#[test]
fn without_combos_events_pass_through() {
    let mut mi = ManagedInput::new(&pairs(&[("input.combos.unit-interval", "250")]));
    assert_eq!(mi.translate(ManagedEvent::M2), Some(ManagedEvent::M2));
    assert_eq!(mi.translate(ManagedEvent::M3), Some(ManagedEvent::M3));
}

#[test]
fn ev_time_counts_from_creation() {
    let mi = ManagedInput::new(&pairs(&[("input.combos.unit-interval", "250")]));
    let t = mi.ev_time().unwrap();
    assert!(t >= 0 && t < 60_000);
}

#[test]
fn combo_recognised_only_at_its_time() {
    let cfg = pairs(&[
        ("input.combos.unit-interval", "1000000"),
        ("input.combos.pat.zap.combo", "m1|m2"),
    ]);
    let mut mi = ManagedInput::new(&cfg);
    mi.translate(ManagedEvent::M2).unwrap();
    // The combo's last frame sits one unit before `enow`: at one unit after
    // the event it lines up, and the combo's action (none) comes out.
    assert_eq!(mi.resolve_at(1_000_000), ManagedEvent::N);
    // Right away nothing lines up and the event itself comes out.
    assert_eq!(mi.resolve_at(0), ManagedEvent::M2);
}

#[test]
fn combo_spoiled_by_other_event() {
    let cfg = pairs(&[
        ("input.combos.unit-interval", "1000000"),
        ("input.combos.pat.zap.combo", "m1|m2"),
    ]);
    let mut mi = ManagedInput::new(&cfg);
    mi.translate(ManagedEvent::M1).unwrap();
    // M1 sits where the combo expects M2: the combo is not recognised.
    assert_eq!(mi.resolve_at(1_000_000), ManagedEvent::M1);
}

#[test]
fn two_recognised_combos_give_no_event() {
    let cfg = pairs(&[
        ("input.combos.unit-interval", "1000000"),
        ("input.combos.pat.a.combo", "m2"),
        ("input.combos.pat.b.combo", "m2"),
    ]);
    let mut mi = ManagedInput::new(&cfg);
    mi.translate(ManagedEvent::M2).unwrap();
    assert_eq!(mi.resolve_at(1_000_000), ManagedEvent::N);
    assert_eq!(mi.resolve_at(0), ManagedEvent::M2);
}
