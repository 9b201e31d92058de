use prefixdevname::cmdline::{prefix_from_cmdline, rename_needed};
use prefixdevname::error::LinkError;
use prefixdevname::util::{devpath_virtual, hwaddr_normalize, hwaddr_valid, prefix_ok};

#[test]
fn hwaddr_valid_ok() {
    assert!(hwaddr_valid(&"11:22:33:44:55:66"));
}

#[test]
fn hwaddr_valid_ok_dashed() {
    assert!(hwaddr_valid(&"11-22-33-44-55-66"));
}

#[test]
#[should_panic]
fn hwaddr_valid_invalid_chars() {
    assert!(hwaddr_valid(&"11-22-33-44-55-xx"));
}

#[test]
#[should_panic]
fn hwaddr_valid_invalid_range() {
    assert!(hwaddr_valid(&"ffff-33-44-55-66"));
}

#[test]
#[should_panic]
fn hwaddr_valid_invalid_long() {
    assert!(hwaddr_valid(&"11-22-33-44-55-66-77"));
}

#[test]
#[should_panic]
fn hwaddr_valid_invalid_short() {
    assert!(hwaddr_valid(&"52:54:00:52:1f"));
}

#[test]
fn hwaddr_normalize_ok() {
    assert_eq!(
        hwaddr_normalize(&"52:54:00:52:1f:93").unwrap(),
        "52:54:00:52:1F:93"
    );
}

#[test]
fn hwaddr_normalize_ok_dashed() {
    assert_eq!(
        hwaddr_normalize(&"52-54-00-52-1f-93").unwrap(),
        "52:54:00:52:1F:93"
    );
}

#[test]
#[should_panic]
fn hwaddr_normalize_invalid() {
    assert_eq!(
        hwaddr_normalize(&"xx:54:00:52:1f:93").unwrap(),
        "52:54:00:52:1F:93"
    );
}

#[test]
fn net_prefix_ok() {
    assert_eq!(true, prefix_ok(&"net"));
}

#[test]
fn eth_prefix_not_ok() {
    assert_eq!(false, prefix_ok(&"eth"));
}

#[test]
fn long_prefix_not_ok() {
    assert_eq!(false, prefix_ok(&"neeeeeeeeeeeeeeet"));
}

#[test]
fn rename_is_needed() {
    assert_eq!(rename_needed("eth0", "net").unwrap(), true);
}

#[test]
fn rename_not_needed() {
    assert_eq!(rename_needed("net0", "net").unwrap(), false);
}

#[test]
fn rename_needed_interface_unset() {
    assert_eq!(rename_needed("", "net").unwrap(), true);
}

#[test]
fn rename_needed_bad_pattern() {
    assert_eq!(rename_needed("net0", "(").unwrap_err(), LinkError::InvalidPrefix);
}

#[test]
fn normalize_is_idempotent() {
    let once = hwaddr_normalize(&"de-ad-be-ef-0a-b1").unwrap();
    let twice = hwaddr_normalize(&once.as_str()).unwrap();
    assert_eq!(once, "DE:AD:BE:EF:0A:B1");
    assert_eq!(twice, once);
}

#[test]
fn normalize_separators_agree() {
    assert_eq!(
        hwaddr_normalize(&"aa-bb-cc-dd-ee-ff").unwrap(),
        hwaddr_normalize(&"aa:bb:cc:dd:ee:ff").unwrap()
    );
}

#[test]
fn normalize_rejects_bad_chars() {
    assert_eq!(
        hwaddr_normalize(&"de:ad:be:ee:ff:xx").unwrap_err(),
        LinkError::InvalidHardwareAddress
    );
}

#[test]
fn normalize_rejects_seven_groups() {
    assert_eq!(
        hwaddr_normalize(&"ff:ff:ff:ff:ff:ff:ff").unwrap_err(),
        LinkError::InvalidHardwareAddress
    );
}

#[test]
fn hwaddr_mixed_separators_valid() {
    assert!(hwaddr_valid(&"11:22-33:44-55:66"));
}

#[test]
fn hwaddr_misplaced_separator_invalid() {
    assert!(!hwaddr_valid(&"112:2:33:44:55:66"));
}

#[test]
fn prefix_forbidden_list() {
    for p in ["eth", "eno", "ens", "enb", "enc", "enx", "enP", "enp", "env", "ena", "em"] {
        assert!(!prefix_ok(&p));
    }
    assert!(prefix_ok(&"enq"));
    assert!(prefix_ok(&"neeeeeeeeeeeeet"));
}

#[test]
fn cmdline_prefix_found() {
    let p = prefix_from_cmdline("BOOT_IMAGE=/vmlinuz root=/dev/sda1 net.ifnames.prefix=net quiet\n")
        .unwrap();
    assert_eq!(p, "net");
}

#[test]
fn cmdline_prefix_absent() {
    let p = prefix_from_cmdline("BOOT_IMAGE=/vmlinuz root=/dev/sda1 quiet\n").unwrap();
    assert_eq!(p, "");
}

#[test]
fn devpath_virtual_detection() {
    assert!(devpath_virtual("/devices/virtual/net/bond0"));
    assert!(!devpath_virtual("/devices/pci0000:00/0000:00:03.0/virtio0/net/eth0"));
}
