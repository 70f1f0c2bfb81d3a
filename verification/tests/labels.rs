use schematic_nets::labels::LabelManager;

#[test]
fn permanent_names_count_up_from_zero() {
    let mut m = LabelManager::new();
    assert_eq!(m.new_label(), "net_0");
    assert_eq!(m.new_label(), "net_1");
    assert_eq!(m.new_label(), "net_2");
}

#[test]
fn permanent_names_reach_two_digits() {
    let mut m = LabelManager::new();
    let mut last = String::new();
    for _ in 0..13 {
        last = m.new_label();
    }
    assert_eq!(last, "net_12");
}

#[test]
fn permanent_names_pass_over_registered_ones() {
    let mut m = LabelManager::new();
    m.register("net_0".to_string());
    m.register("net_1".to_string());
    m.register("vdd".to_string());
    assert_eq!(m.new_label(), "net_2");
    assert!(m.is_registered(&"net_2".to_string()));
    assert!(m.is_registered(&"vdd".to_string()));
    assert!(!m.is_registered(&"net_3".to_string()));
}

#[test]
fn a_number_is_never_used_twice() {
    let mut m = LabelManager::new();
    assert_eq!(m.new_label(), "net_0");
    m.register("net_5".to_string());
    assert_eq!(m.new_label(), "net_1");
    assert_eq!(m.new_label(), "net_2");
}

#[test]
fn floating_names_differ_until_reset() {
    let mut m = LabelManager::new();
    let a = m.new_floating_label();
    let b = m.new_floating_label();
    assert_eq!(a, "fn_0");
    assert_eq!(b, "fn_1");
    assert_ne!(a, b);
}

#[test]
fn floating_names_start_over_after_reset() {
    let mut m = LabelManager::new();
    let a = m.new_floating_label();
    let _ = m.new_floating_label();
    m.rst_floating_nets();
    assert_eq!(m.new_floating_label(), a);
}

#[test]
fn floating_names_are_not_registered() {
    let mut m = LabelManager::new();
    let a = m.new_floating_label();
    assert!(!m.is_registered(&a));
    assert_eq!(m.new_label(), "net_0");
}

#[test]
fn floating_names_avoid_registered_ones() {
    let mut m = LabelManager::new();
    m.register("fn_0".to_string());
    m.register("fn_1".to_string());
    assert_eq!(m.new_floating_label(), "fn_2");
    m.rst_floating_nets();
    assert_eq!(m.new_floating_label(), "fn_2");
}

#[test]
fn registering_twice_changes_nothing() {
    let mut m = LabelManager::new();
    m.register("a".to_string());
    m.register("a".to_string());
    assert!(m.is_registered(&"a".to_string()));
    assert_eq!(m.new_label(), "net_0");
}

#[test]
fn there_is_room_for_floating_names() {
    let mut m = LabelManager::default();
    assert!(m.has_floating_room());
    m.register("a".to_string());
    let _ = m.new_floating_label();
    assert!(m.has_floating_room());
}
