use prefixdevname::config::PrefixedLink;
use prefixdevname::engine::{
    is_record_file_name, link_from_device, record_from_fields, Assignment, LiveDevice,
    NetSetupLinkConfig, RecordFile,
};
use prefixdevname::error::LinkError;

fn device(name: &str, devtype: Option<&str>, address: Option<&str>) -> LiveDevice {
    LiveDevice {
        name: name.to_string(),
        devtype: devtype.map(|t| t.to_string()),
        address: address.map(|a| a.to_string()),
    }
}

fn record_file(name: &str, hwaddr: &str) -> RecordFile {
    let l = PrefixedLink::new_with_hwaddr(&name, &hwaddr).unwrap();
    RecordFile {
        file_name: format!("71-net-ifnames-prefix-{}.link", name),
        contents: l.link_file_contents(),
    }
}

fn loaded(prefix: &str, devices: Vec<LiveDevice>, files: Vec<RecordFile>) -> NetSetupLinkConfig {
    let mut config = NetSetupLinkConfig::new_with_prefix(prefix);
    config.load(&devices, &files).unwrap();
    config
}

#[test]
fn net_setup_link_config_sysfs_only() {
    let devices = vec![
        device("net0", None, Some("52:54:00:1c:08:b7")),
        device("eth0", None, Some("52:54:00:1c:08:b8")),
    ];
    let config = loaded("net", devices, vec![]);
    assert_eq!("net1", config.next_link_name().unwrap());
}

#[test]
fn xx_net_setup_link_config_mix() {
    let files = vec![
        record_file("net1", "FF:FF:FF:FF:FF:AA"),
        record_file("net2", "FF:FF:FF:FF:FF:BB"),
        record_file("net3", "FF:FF:FF:FF:FF:CC"),
    ];
    let devices = vec![
        device("net0", None, Some("52:54:00:1c:08:b7")),
        device("eth0", None, Some("52:54:00:1c:08:b8")),
    ];
    let config = loaded("net", devices, files);
    assert_eq!("net4", config.next_link_name().unwrap());
}

#[test]
fn records_only_next_name() {
    let files = vec![
        record_file("net1", "FF:FF:FF:FF:FF:AA"),
        record_file("net2", "FF:FF:FF:FF:FF:BB"),
        record_file("net3", "FF:FF:FF:FF:FF:CC"),
    ];
    let config = loaded("net", vec![], files);
    assert_eq!(config.next_link_name().unwrap(), "net4");
}

#[test]
fn empty_roster_gives_zero() {
    let config = loaded("net", vec![], vec![]);
    assert_eq!(config.next_link_name().unwrap(), "net0");
    let fresh = NetSetupLinkConfig::new_with_prefix("lan");
    assert_eq!(fresh.next_link_name().unwrap(), "lan0");
}

#[test]
fn next_after_largest_sequence() {
    let devices = vec![
        device("net7", None, Some("00:00:00:00:00:07")),
        device("net2", None, Some("00:00:00:00:00:02")),
        device("net10", None, Some("00:00:00:00:00:10")),
    ];
    let config = loaded("net", devices, vec![]);
    assert_eq!(config.next_link_name().unwrap(), "net11");
    let indices: Vec<u64> = config.links().iter().map(|l| l.index).collect();
    assert_eq!(indices, vec![2, 7, 10]);
}

#[test]
fn gaps_are_not_reused() {
    let files = vec![
        record_file("net0", "00:00:00:00:00:01"),
        record_file("net2", "00:00:00:00:00:02"),
    ];
    let config = loaded("net", vec![], files);
    assert_eq!(config.next_link_name().unwrap(), "net3");
}

#[test]
fn shared_record_counted_once() {
    let devices = vec![device("net1", None, Some("aa:bb:cc:dd:ee:01"))];
    let files = vec![record_file("net1", "AA:BB:CC:DD:EE:01")];
    let config = loaded("net", devices, files);
    assert_eq!(config.links().len(), 1);
    assert_eq!(config.links()[0].name, "net1");
    assert_eq!(config.next_link_name().unwrap(), "net2");
}

#[test]
fn different_addresses_both_kept() {
    let devices = vec![device("net1", None, Some("aa:bb:cc:dd:ee:01"))];
    let files = vec![record_file("net1", "AA:BB:CC:DD:EE:02")];
    let config = loaded("net", devices, files);
    assert_eq!(config.links().len(), 2);
}

#[test]
fn aggregates_and_foreign_devices_skipped() {
    let devices = vec![
        device("net5", Some("bond"), Some("00:00:00:00:00:05")),
        device("net6", Some("vlan"), None),
        device("net7", Some("bridge"), None),
        device("eth9", None, None),
        device("net1", Some("wlan"), Some("00:00:00:00:00:01")),
    ];
    let config = loaded("net", devices, vec![]);
    assert_eq!(config.links().len(), 1);
    assert_eq!(config.next_link_name().unwrap(), "net2");
}

#[test]
fn device_without_address_fails() {
    let mut config = NetSetupLinkConfig::new_with_prefix("net");
    let devices = vec![device("net0", None, None)];
    assert_eq!(
        config.load(&devices, &vec![]).unwrap_err(),
        LinkError::DeviceAttributeError
    );
    assert_eq!(config.links().len(), 0);
}

#[test]
fn device_with_bad_address_fails() {
    let d = device("net0", None, Some("00:00:00:00:00"));
    assert_eq!(
        link_from_device("net", &d).unwrap_err(),
        LinkError::InvalidHardwareAddress
    );
}

#[test]
fn record_missing_match_section() {
    let files = vec![RecordFile {
        file_name: "71-net-ifnames-prefix-net1.link".to_string(),
        contents: "[Link]\nName=net1\n".to_string(),
    }];
    let mut config = NetSetupLinkConfig::new_with_prefix("net");
    assert_eq!(
        config.load(&vec![], &files).unwrap_err(),
        LinkError::MalformedRecordError
    );
}

#[test]
fn record_missing_name_key() {
    let files = vec![RecordFile {
        file_name: "71-net-ifnames-prefix-net1.link".to_string(),
        contents: "[Match]\nMACAddress=00:00:00:00:00:01\n\n[Link]\nAlias=x\n".to_string(),
    }];
    let mut config = NetSetupLinkConfig::new_with_prefix("net");
    assert_eq!(
        config.load(&vec![], &files).unwrap_err(),
        LinkError::MalformedRecordError
    );
}

#[test]
fn unrelated_files_and_prefixes_skipped() {
    let files = vec![
        RecordFile {
            file_name: "99-default.link".to_string(),
            contents: "not an ini [".to_string(),
        },
        record_file("lan4", "00:00:00:00:00:04"),
        record_file("net0", "00:00:00:00:00:01"),
    ];
    let config = loaded("net", vec![], files);
    assert_eq!(config.links().len(), 1);
    assert_eq!(config.next_link_name().unwrap(), "net1");
}

#[test]
fn record_fields_direct() {
    let l = record_from_fields("net", Some("aa-bb-cc-dd-ee-ff"), Some("net8"))
        .unwrap()
        .unwrap();
    assert_eq!(l.index, 8);
    assert_eq!(l.hwaddr, "AA:BB:CC:DD:EE:FF");
    assert!(record_from_fields("net", Some("aa-bb-cc-dd-ee-ff"), Some("lan8"))
        .unwrap()
        .is_none());
    assert_eq!(
        record_from_fields("net", None, Some("net8")).unwrap_err(),
        LinkError::MalformedRecordError
    );
}

#[test]
fn record_file_names() {
    assert!(is_record_file_name("71-net-ifnames-prefix-net0.link"));
    assert!(!is_record_file_name("71-net-ifnames-prefix-net0.network"));
    assert!(!is_record_file_name("70-net0.link"));
}

#[test]
fn lookup_by_address_last_wins() {
    let files = vec![
        record_file("net1", "00:00:00:00:00:01"),
        record_file("net2", "00:00:00:00:00:01"),
    ];
    let config = loaded("net", vec![], files);
    assert_eq!(config.for_hwaddr(&"00:00:00:00:00:01").unwrap().name, "net2");
    assert!(config.for_hwaddr(&"00:00:00:00:00:09").is_none());
}

#[test]
fn live_devices_not_used_for_lookup() {
    let devices = vec![device("net0", None, Some("00:00:00:00:00:01"))];
    let config = loaded("net", devices, vec![]);
    assert!(config.for_hwaddr(&"00:00:00:00:00:01").is_none());
}

#[test]
fn assign_existing_and_fresh() {
    let files = vec![record_file("net0", "00:00:00:00:00:01")];
    let config = loaded("net", vec![], files);
    match config.assign("00:00:00:00:00:01").unwrap() {
        Assignment::Existing(l) => assert_eq!(l.name, "net0"),
        Assignment::Fresh(_) => panic!("expected the existing record"),
    }
    match config.assign("00:00:00:00:00:02").unwrap() {
        Assignment::Fresh(l) => {
            assert_eq!(l.name, "net1");
            assert_eq!(l.index, 1);
        }
        Assignment::Existing(_) => panic!("expected a new record"),
    }
}

#[test]
fn unparsable_last_name() {
    let devices = vec![device("net0", None, Some("00:00:00:00:00:01"))];
    let config = loaded("ne", devices, vec![]);
    assert_eq!(
        config.next_link_name().unwrap_err(),
        LinkError::SequenceParseError
    );
}

#[test]
fn sequential_allocation_is_contiguous() {
    let mut files: Vec<RecordFile> = Vec::new();
    for i in 0..5u8 {
        let config = loaded("net", vec![], files.iter().map(|f| RecordFile {
            file_name: f.file_name.clone(),
            contents: f.contents.clone(),
        }).collect());
        let addr = format!("00:00:00:00:00:{:02x}", i);
        let name = match config.assign(&addr).unwrap() {
            Assignment::Fresh(l) => l.name,
            Assignment::Existing(_) => panic!("address seen twice"),
        };
        assert_eq!(name, format!("net{}", i));
        files.push(record_file(&name, &addr));
    }
}
