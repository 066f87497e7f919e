use rcard_host::display::{gddram_pixels, owner_color, OwnerColor, DISPLAY_HEIGHT, DISPLAY_WIDTH};
use rcard_host::port_registry::{unconfigured_ports, AvailablePort, PortIdentity};

#[test]
fn an_empty_dump_is_a_dark_display() {
    let px = gddram_pixels(&[]);
    assert_eq!(px.len(), DISPLAY_WIDTH * DISPLAY_HEIGHT);
    assert!(px.iter().all(|p| !p));
}

#[test]
fn each_byte_lights_eight_rows_of_one_column() {
    let mut data = vec![0u8; 1024];
    data[0] = 0b0000_0101; // page 0, column 0: rows 0 and 2
    data[128 + 5] = 0b1000_0000; // page 1, column 5: row 15
    data[7 * 128 + 127] = 1; // last page, last column: row 56
    let px = gddram_pixels(&data);
    let lit: Vec<(usize, usize)> =
        (0..px.len()).filter(|&i| px[i]).map(|i| (i % DISPLAY_WIDTH, i / DISPLAY_WIDTH)).collect();
    assert_eq!(lit, vec![(0, 0), (0, 2), (5, 15), (127, 56)]);
}

#[test]
fn a_short_dump_reads_as_zeros_past_its_end() {
    let px = gddram_pixels(&[0xff; 3]);
    let lit = px.iter().filter(|p| **p).count();
    assert_eq!(lit, 24);
    assert!(px[7 * DISPLAY_WIDTH + 2]);
    assert!(!px[3]);
}

#[test]
fn kernel_and_bootloader_have_their_own_colours() {
    assert_eq!(owner_color("kernel"), OwnerColor::Kernel);
    assert_eq!(owner_color("bootloader"), OwnerColor::Bootloader);
}

#[test]
fn other_owners_get_a_hue_from_their_name() {
    assert_eq!(owner_color("abc"), OwnerColor::Hue(234));
    assert_eq!(owner_color("sysmodule_storage_and_more_long_name"), OwnerColor::Hue(246));
    assert_eq!(owner_color(""), OwnerColor::Hue(0));
    assert_eq!(owner_color("abc"), owner_color("abc"));
}

fn port(name: &str, serial: &str) -> AvailablePort {
    AvailablePort {
        port_name: name.to_string(),
        identity: PortIdentity { vid: 0x1a86, pid: 0x7523, serial_number: Some(serial.to_string()), interface: None },
        label: name.to_string(),
    }
}

#[test]
fn configured_ports_are_not_offered_again() {
    let available = vec![port("COM3", "A"), port("COM4", "B"), port("COM5", "C")];
    let configured = vec![None, Some(available[1].identity.clone())];
    assert_eq!(unconfigured_ports(&available, &configured), vec![0, 2]);
    assert_eq!(unconfigured_ports(&available, &[]), vec![0, 1, 2]);
    let all: Vec<Option<PortIdentity>> = available.iter().map(|p| Some(p.identity.clone())).collect();
    assert!(unconfigured_ports(&available, &all).is_empty());
}
