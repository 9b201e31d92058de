use prefixdevname::config::PrefixedLink;
use prefixdevname::error::LinkError;

#[test]
fn prefixed_link_new() {
    let config = PrefixedLink::new_with_hwaddr(&"net0", &"ff:ff:ff:ff:ff:ff");
    assert!(config.is_ok());
}

#[test]
fn prefixed_link_name_empty() {
    let config = PrefixedLink::new_with_hwaddr(&"", &"ff:ff:ff:ff:ff:ff");
    assert!(config.is_err());
}

#[test]
fn prefixed_link_name_long() {
    let config =
        PrefixedLink::new_with_hwaddr(&"neeeeeeeeeeeeeeeeeeeeeeeeeet0", &"ff:ff:ff:ff:ff:ff");
    assert!(config.is_err());
}

#[test]
fn prefixed_link_name_invalid() {
    let config = PrefixedLink::new_with_hwaddr(&"1net0", &"ff:ff:ff:ff:ff:ff");
    assert!(config.is_err());
}

#[test]
#[should_panic]
fn prefixed_link_invalid_hwaddr() {
    let _config = PrefixedLink::new_with_hwaddr(&"net0", &"de:ad:be:ee:ff:xx").unwrap();
}

#[test]
#[should_panic]
fn prefixed_link_hwaddr_too_long() {
    let _config = PrefixedLink::new_with_hwaddr(&"net0", &"ff:ff:ff:ff:ff:ff:ff").unwrap();
}

#[test]
fn prefixed_link_hwaddr_all_caps() {
    let config = PrefixedLink::new_with_hwaddr(&"net0", &"FF:FF:FF:FF:FF:FF");
    assert!(config.is_ok());
}

#[test]
fn prefixed_link_name() {
    let prefixed_link = PrefixedLink::new("net1", Some("52:54:00:1c:08:b7")).unwrap();
    assert_eq!(prefixed_link.name, "net1");
}

#[test]
fn prefixed_link_hwaddr() {
    let prefixed_link = PrefixedLink::new("net1", Some("52:54:00:1c:08:b7")).unwrap();
    assert_eq!(prefixed_link.hwaddr.to_string(), "52:54:00:1C:08:B7");
}

#[test]
fn prefixed_link_link_file_path() {
    let prefixed_link = PrefixedLink::new("net1", Some("52:54:00:1c:08:b7")).unwrap();
    assert_eq!(
        prefixed_link.link_file_path(),
        "/etc/systemd/network/71-net-ifnames-prefix-net1.link"
    );
}

#[test]
fn event_link_without_address() {
    assert_eq!(
        PrefixedLink::new("net1", None).unwrap_err(),
        LinkError::DeviceLookupError
    );
}

#[test]
fn event_link_name_checked_first() {
    assert_eq!(PrefixedLink::new("", None).unwrap_err(), LinkError::InvalidName);
}

#[test]
fn name_of_seventeen_bytes_rejected() {
    let r = PrefixedLink::new_with_hwaddr(&"netttttttttttt123", &"ff:ff:ff:ff:ff:ff");
    assert_eq!(r.unwrap_err(), LinkError::InvalidName);
}

#[test]
fn name_of_sixteen_bytes_accepted() {
    let l = PrefixedLink::new_with_hwaddr(&"nettttttttttt123", &"ff:ff:ff:ff:ff:ff").unwrap();
    assert_eq!(l.index, 123);
}

#[test]
fn name_with_bad_suffix() {
    assert_eq!(
        PrefixedLink::new_with_hwaddr(&"1net0", &"ff:ff:ff:ff:ff:ff").unwrap_err(),
        LinkError::InvalidSuffix
    );
    assert_eq!(
        PrefixedLink::new_with_hwaddr(&"net", &"ff:ff:ff:ff:ff:ff").unwrap_err(),
        LinkError::InvalidSuffix
    );
    assert_eq!(
        PrefixedLink::new_with_hwaddr(&"net+5", &"ff:ff:ff:ff:ff:ff").unwrap_err(),
        LinkError::InvalidSuffix
    );
}

#[test]
fn address_checked_before_name() {
    assert_eq!(
        PrefixedLink::new_with_hwaddr(&"", &"zz").unwrap_err(),
        LinkError::InvalidHardwareAddress
    );
}

#[test]
fn name_round_trip() {
    let l = PrefixedLink::new_with_hwaddr(&"net42", &"aa-bb-cc-dd-ee-ff").unwrap();
    assert_eq!(l.name, "net42");
    assert_eq!(l.index, 42);
    assert_eq!(l.hwaddr, "AA:BB:CC:DD:EE:FF");
}

#[test]
fn name_without_prefix() {
    let l = PrefixedLink::new_with_hwaddr(&"0012", &"aa-bb-cc-dd-ee-ff").unwrap();
    assert_eq!(l.index, 12);
}

#[test]
fn name_suffix_too_large() {
    assert_eq!(
        PrefixedLink::new_with_hwaddr(&"99999999999999999999", &"ff:ff:ff:ff:ff:ff").unwrap_err(),
        LinkError::InvalidName
    );
    assert_eq!(
        PrefixedLink::new_with_hwaddr(&"9999999999999999", &"ff:ff:ff:ff:ff:ff")
            .unwrap()
            .index,
        9999999999999999
    );
}

#[test]
fn link_file_text() {
    let l = PrefixedLink::new_with_hwaddr(&"net3", &"52:54:00:1c:08:b7").unwrap();
    assert_eq!(
        l.link_file_contents(),
        "[Match]\nMACAddress=52:54:00:1C:08:B7\n\n[Link]\nName=net3\n"
    );
}

#[test]
fn link_name_sanity() {
    assert_eq!(PrefixedLink::link_name_sane(&"net0"), Ok(()));
    assert_eq!(PrefixedLink::link_name_sane(&""), Err(LinkError::InvalidName));
    assert_eq!(
        PrefixedLink::link_name_sane(&"nééééééééé0"),
        Err(LinkError::InvalidName)
    );
}
