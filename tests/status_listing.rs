use modulers::status::{module_status_line, parse_module_listing, KernelModule, ModuleState, StatusError};

const TEST_PROC_MODULES_DATA: &str = "crypto_user 24576 0 - Live 0x0000000000000000
fuse 176128 3 - Live 0x0000000000000000
qemu_fw_cfg 20480 0 - Live 0x0000000000000000
ip_tables 36864 2 iptable_nat,iptable_filter, Live 0x0000000000000000
x_tables 57344 12 xt_nat,xt_tcpudp,xt_conntrack,xt_addrtype,xt_MASQUERADE,xt_mark,ip6table_nat,iptable_nat,ip6table_filter,ip6_tables,iptable_filter,ip_tables, Live 0x0000000000000000
ext4 1015808 1 - Live 0x0000000000000000
crc32c_generic 16384 0 - Live 0x0000000000000000
crc16 16384 1 ext4, Live 0x0000000000000000
mbcache 16384 1 ext4, Live 0x0000000000000000
jbd2 192512 1 ext4, Live 0x0000000000000000
virtio_net 65536 0 - Live 0x0000000000000000
net_failover 24576 1 virtio_net, Live 0x0000000000000000
virtio_balloon 28672 0 - Live 0x0000000000000000
virtio_scsi 28672 1 - Live 0x0000000000000000
failover 16384 1 net_failover, Live 0x0000000000000000
sr_mod 28672 0 - Live 0x0000000000000000
cdrom 81920 1 sr_mod, Live 0x0000000000000000
ata_generic 16384 0 - Live 0x0000000000000000
serio_raw 20480 0 - Live 0x0000000000000000
atkbd 36864 0 - Live 0x0000000000000000
pata_acpi 16384 0 - Live 0x0000000000000000
libps2 20480 2 psmouse,atkbd, Live 0x0000000000000000
i8042 40960 0 - Live 0x0000000000000000
virtio_pci 24576 0 - Live 0x0000000000000000
crc32c_intel 24576 3 - Live 0x0000000000000000
usbhid 77824 0 - Live 0x0000000000000000
virtio_pci_modern_dev 20480 1 virtio_pci, Live 0x0000000000000000
ata_piix 40960 0 - Live 0x0000000000000000
floppy 114688 0 - Live 0x0000000000000000
serio 28672 6 psmouse,serio_raw,atkbd,i8042, Live 0x0000000000000000
";

fn names(v: &Option<Vec<String>>) -> Option<Vec<&str>> {
    v.as_ref().map(|d| d.iter().map(|s| s.as_str()).collect())
}

#[test]
fn test_parse_module_listing() {
    let modules = parse_module_listing(TEST_PROC_MODULES_DATA).expect("listing parses");
    assert_eq!(modules.len(), 30);
    assert_eq!(modules[0].name, "crypto_user");
    assert_eq!(modules[0].size, 24576);
    assert_eq!(modules[3].name, "ip_tables");
    assert_eq!(names(&modules[3].dependents), Some(vec!["iptable_nat", "iptable_filter"]));
    assert_eq!(modules[4].dependents.as_ref().map(|d| d.len()), Some(12));
    assert_eq!(modules[4].refs, 12);
    assert_eq!(modules[29].name, "serio");
    assert_eq!(names(&modules[29].dependents), Some(vec!["psmouse", "serio_raw", "atkbd", "i8042"]));
    assert!(modules.iter().all(|m| m.state == ModuleState::Live));
}

#[test]
fn status_line_simple_module() {
    let (rest, m): (String, KernelModule) =
        module_status_line("ext4 1015808 1 - Live 0x0000000000000000").expect("line parses");
    assert_eq!(rest, "");
    assert_eq!(m.name, "ext4");
    assert_eq!(m.size, 1015808);
    assert_eq!(m.refs, 1);
    assert!(m.dependents.is_none());
    assert_eq!(m.state, ModuleState::Live);
    assert_eq!(m.address, "0x0000000000000000");
}

#[test]
fn status_line_with_dependents() {
    let (rest, m) = module_status_line("ip_tables 36864 2 iptable_nat,iptable_filter, Live 0x0000000000000000\nnext")
        .expect("line parses");
    assert_eq!(rest, "\nnext");
    assert_eq!(m.name, "ip_tables");
    assert_eq!(m.size, 36864);
    assert_eq!(m.refs, 2);
    assert_eq!(names(&m.dependents), Some(vec!["iptable_nat", "iptable_filter"]));
}

#[test]
fn status_line_unknown_state() {
    let r = module_status_line("ext4 1015808 1 - Active 0x0000000000000000");
    assert_eq!(r.err(), Some(StatusError::UnknownState("Active".to_string())));
}

#[test]
fn status_line_other_states_and_trailing_text() {
    let (_, m) = module_status_line("vboxdrv 548864 2 vboxnetadp,vboxnetflt, Loading 0xffffffffc0a0c000 (OE)").unwrap();
    assert_eq!(m.state, ModuleState::Loading);
    assert_eq!(m.address, "0xffffffffc0a0c000");
    let (_, m) = module_status_line("a 1 0 - Unloading 0").unwrap();
    assert_eq!(m.state, ModuleState::Unloading);
}

#[test]
fn status_line_malformed() {
    assert_eq!(module_status_line("").err(), Some(StatusError::Malformed));
    assert_eq!(module_status_line("1ext4 1 1 - Live 0").err(), Some(StatusError::Malformed));
    assert_eq!(module_status_line("ext4 x 1 - Live 0").err(), Some(StatusError::Malformed));
    assert_eq!(module_status_line("ext4 1 1 - Live").err(), Some(StatusError::Malformed));
    assert_eq!(module_status_line("ext4 1 1 - Live 0\rx").err(), Some(StatusError::Malformed));
}

#[test]
fn status_line_number_limits() {
    let (_, m) = module_status_line("big 18446744073709551615 4294967295 - Live 0").unwrap();
    assert_eq!(m.size, u64::MAX);
    assert_eq!(m.refs, u32::MAX);
    assert_eq!(module_status_line("big 18446744073709551616 1 - Live 0").err(), Some(StatusError::Malformed));
    assert_eq!(module_status_line("big 1 4294967296 - Live 0").err(), Some(StatusError::Malformed));
}

#[test]
fn status_line_dependent_segments() {
    let (_, m) = module_status_line("x 1 1 ,a,,b-c, Live 0").unwrap();
    assert_eq!(names(&m.dependents), Some(vec!["a", "b-c"]));
    let (_, m) = module_status_line("x 1 1 , Live 0").unwrap();
    assert_eq!(names(&m.dependents), Some(vec![]));
}

#[test]
fn listing_empty_and_crlf() {
    assert_eq!(parse_module_listing("").unwrap().len(), 0);
    let v = parse_module_listing("a 1 0 - Live 0\r\nb 2 0 - Live 0\n").unwrap();
    assert_eq!(v.len(), 2);
    assert_eq!(v[1].name, "b");
}

#[test]
fn listing_reports_bad_line() {
    let e = parse_module_listing("a 1 0 - Live 0\nb 2 0 - Active 0\n").unwrap_err();
    assert_eq!(e.line, 2);
    assert_eq!(e.text, "b 2 0 - Active 0");
    assert_eq!(e.cause, StatusError::UnknownState("Active".to_string()));
    let e = parse_module_listing("a 1 0 - Live 0\nnot a line\n").unwrap_err();
    assert_eq!(e.line, 2);
    assert_eq!(e.cause, StatusError::Malformed);
}

#[test]
fn listing_rejects_unterminated_last_line() {
    let e = parse_module_listing("a 1 0 - Live 0\nb 2 0 - Live 0").unwrap_err();
    assert_eq!(e.line, 2);
    assert_eq!(e.text, "b 2 0 - Live 0");
    assert_eq!(e.cause, StatusError::Unterminated);
}
