use omoya::uevent::{accept, parse, parse_at, Hotplug, HEADER_LEN, MONITOR_GROUP_UDEV};

const UDEV_MONITOR_MAGIC: u32 = 0xfeed_cafe;
const LIBUDEV_PREFIX: &[u8] = b"libudev\0";

fn datagram(props: &[&str]) -> Vec<u8> {
    let mut v = Vec::new();
    v.extend_from_slice(LIBUDEV_PREFIX);
    v.extend_from_slice(&UDEV_MONITOR_MAGIC.to_be_bytes());
    let hdr = u32::try_from(HEADER_LEN).expect("a 40-byte header fits in u32");
    v.extend_from_slice(&hdr.to_ne_bytes());
    v.extend_from_slice(&hdr.to_ne_bytes());
    let mut body = Vec::new();
    for p in props {
        body.extend_from_slice(p.as_bytes());
        body.push(0);
    }
    let blen = u32::try_from(body.len()).expect("a test fixture fits in u32");
    v.extend_from_slice(&blen.to_ne_bytes());
    v.extend_from_slice(&[0u8; 16]);
    assert_eq!(v.len(), HEADER_LEN);
    v.extend_from_slice(&body);
    v
}

#[test]
fn an_add_for_an_evdev_node_is_recognised() {
    let d = datagram(&["ACTION=add", "SUBSYSTEM=input", "DEVNAME=/dev/input/event7"]);
    assert_eq!(parse(&d), Some(Hotplug::Added("/dev/input/event7".to_string())));
}

#[test]
fn a_relative_devname_is_rooted_at_dev() {
    let d = datagram(&["ACTION=remove", "SUBSYSTEM=input", "DEVNAME=input/event3"]);
    assert_eq!(parse(&d), Some(Hotplug::Removed("/dev/input/event3".to_string())));
}

#[test]
fn the_js_node_of_the_same_device_is_not_an_evdev_node() {
    let d = datagram(&["ACTION=add", "SUBSYSTEM=input", "DEVNAME=/dev/input/js0"]);
    assert_eq!(parse(&d), None);
}

#[test]
fn a_drm_hotplug_is_not_an_input_hotplug() {
    let d = datagram(&["ACTION=add", "SUBSYSTEM=drm", "DEVNAME=/dev/dri/card1"]);
    assert_eq!(parse(&d), None);
}

#[test]
fn a_raw_kernel_message_is_refused_for_lacking_the_prefix() {
    let mut raw = b"add@/devices/virtual/input/input9\0".to_vec();
    raw.extend_from_slice(b"ACTION=add\0SUBSYSTEM=input\0DEVNAME=/dev/input/event9\0");
    assert_eq!(parse(&raw), None);
}

#[test]
fn a_wrong_magic_is_refused() {
    let mut d = datagram(&["ACTION=add", "SUBSYSTEM=input", "DEVNAME=/dev/input/event1"]);
    d[8] ^= 0xff;
    assert_eq!(parse(&d), None);
}

#[test]
fn a_properties_offset_past_the_end_cannot_panic() {
    let mut d = datagram(&["ACTION=add", "SUBSYSTEM=input", "DEVNAME=/dev/input/event1"]);
    d[16..20].copy_from_slice(&u32::MAX.to_ne_bytes());
    assert_eq!(parse(&d), None);
}

#[test]
fn an_action_other_than_add_or_remove_is_ignored() {
    let d = datagram(&["ACTION=change", "SUBSYSTEM=input", "DEVNAME=/dev/input/event7"]);
    assert_eq!(parse(&d), None);
}

#[test]
fn the_properties_are_read_from_the_offset_given() {
    let d = datagram(&["ACTION=add", "SUBSYSTEM=input", "DEVNAME=/dev/input/event2"]);
    assert_eq!(parse_at(&d, HEADER_LEN), Some(Hotplug::Added("/dev/input/event2".to_string())));
    assert_eq!(parse_at(&d, d.len() + 1), None);
}

#[test]
fn only_a_root_broadcast_to_the_udev_group_is_decoded() {
    let d = datagram(&["ACTION=add", "SUBSYSTEM=input", "DEVNAME=/dev/input/event4"]);
    let want = Some(Hotplug::Added("/dev/input/event4".to_string()));
    assert_eq!(accept(true, MONITOR_GROUP_UDEV, &d, d.len()), want);
    assert_eq!(accept(false, MONITOR_GROUP_UDEV, &d, d.len()), None, "a non-root sender is refused");
    assert_eq!(accept(true, 0, &d, d.len()), None, "a unicast datagram is refused");
    assert_eq!(accept(true, 1, &d, d.len()), None, "the kernel's raw group is refused");
    let mut buf = d.clone();
    buf.extend_from_slice(&[0xAA; 64]);
    assert_eq!(accept(true, MONITOR_GROUP_UDEV, &buf, d.len()), want, "only the received bytes are read");
    assert_eq!(accept(true, MONITOR_GROUP_UDEV, &d, 10), None, "a truncated datagram is refused");
}

#[test]
fn a_later_duplicate_property_wins() {
    let d = datagram(&[
        "ACTION=remove",
        "SUBSYSTEM=block",
        "DEVNAME=/dev/input/js0",
        "ACTION=add",
        "SUBSYSTEM=input",
        "DEVNAME=/dev/input/event2",
    ]);
    assert_eq!(parse(&d), Some(Hotplug::Added("/dev/input/event2".to_string())));
}

#[test]
fn the_node_name_is_the_last_real_path_segment() {
    let d = datagram(&["ACTION=add", "SUBSYSTEM=input", "DEVNAME=/dev/input/event4/./"]);
    assert_eq!(parse(&d), Some(Hotplug::Added("/dev/input/event4/./".to_string())));
    let d = datagram(&["ACTION=add", "SUBSYSTEM=input", "DEVNAME=/dev/input/event4/.."]);
    assert_eq!(parse(&d), None, "a path ending in .. has no file name");
    let d = datagram(&["ACTION=add", "SUBSYSTEM=input", "DEVNAME=/"]);
    assert_eq!(parse(&d), None);
}
