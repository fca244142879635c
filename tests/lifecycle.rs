use focus_core::lifecycle::CoreSlot;

#[test]
fn teardown_waits_for_every_reference() {
    let mut slot = CoreSlot::empty();
    assert!(!slot.is_installed());
    assert!(slot.init(7u32));
    assert_eq!(*slot.get_instance(), 7);
    assert_eq!(*slot.get_instance(), 7);
    assert_eq!(slot.refs(), 2);

    slot.sub_ref();
    assert_eq!(slot.refs(), 1);
    assert_eq!(*slot.get_instance(), 7);
    slot.sub_ref();
    slot.sub_ref();
    assert_eq!(slot.refs(), 0);
    slot.sub_ref();
    assert_eq!(slot.refs(), 0);

    assert_eq!(slot.free(), 7);
    assert!(!slot.is_installed());
    assert_eq!(slot.refs(), 0);
}

#[test]
fn init_installs_once() {
    let mut slot = CoreSlot::empty();
    assert!(slot.init("first"));
    assert!(!slot.init("second"));
    assert_eq!(*slot.get_instance(), "first");
    slot.sub_ref();
    assert_eq!(slot.free(), "first");
    assert!(slot.init("again"));
    assert_eq!(*slot.get_instance(), "again");
}
