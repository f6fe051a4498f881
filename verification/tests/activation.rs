use hardlinkview::shellext::{
    class_object_decision, ActivationError, Capability, Factory,
    HARDLINKVIEW_CLSID, ICLASSFACTORY_IID, ISHELLEXTINIT_IID,
    ISHELLPROPSHEETEXT_IID, IUNKNOWN_IID,
};
use hardlinkview::util::truncate_at_nul;

#[test]
fn class_object_served_for_registered_class() {
    assert!(class_object_decision(HARDLINKVIEW_CLSID, ICLASSFACTORY_IID).is_ok());
}

#[test]
fn class_object_refused_otherwise() {
    assert_eq!(
        class_object_decision(HARDLINKVIEW_CLSID, IUNKNOWN_IID).unwrap_err(),
        ActivationError::InterfaceNotSupported
    );
    assert_eq!(
        class_object_decision(0x1234, ICLASSFACTORY_IID).unwrap_err(),
        ActivationError::ClassNotAvailable
    );
}

#[test]
fn instance_creation_resolves_capabilities() {
    let f = Factory;
    assert_eq!(
        f.create_instance(false, IUNKNOWN_IID).unwrap(),
        Capability::Unknown
    );
    assert_eq!(
        f.create_instance(false, ISHELLEXTINIT_IID).unwrap(),
        Capability::ShellExtInit
    );
    assert_eq!(
        f.create_instance(false, ISHELLPROPSHEETEXT_IID).unwrap(),
        Capability::PropSheetExt
    );
    assert_eq!(
        f.create_instance(false, ICLASSFACTORY_IID).unwrap_err(),
        ActivationError::InterfaceNotSupported
    );
}

#[test]
fn aggregation_is_refused() {
    let f = Factory;
    assert_eq!(
        f.create_instance(true, IUNKNOWN_IID).unwrap_err(),
        ActivationError::NoAggregation
    );
}

#[test]
fn lock_requests_accepted_as_noop() {
    let f = Factory;
    assert!(f.lock_server(true).is_ok());
    assert!(f.lock_server(false).is_ok());
}

#[test]
fn buffer_truncates_at_terminator() {
    let buff: Vec<u16> = vec![0x61, 0x62, 0x63, 0, 0x7A, 0];
    assert_eq!(truncate_at_nul(&buff), vec![0x61, 0x62, 0x63]);
    let no_nul: Vec<u16> = vec![0x61, 0x62];
    assert_eq!(truncate_at_nul(&no_nul), vec![0x61, 0x62]);
    let empty: Vec<u16> = vec![];
    assert_eq!(truncate_at_nul(&empty), Vec::<u16>::new());
    let leading: Vec<u16> = vec![0, 0x61];
    assert_eq!(truncate_at_nul(&leading), Vec::<u16>::new());
}
