use sysfacts::components::mount::{
    build_mount_facts, parse_mount_output_macos, parse_mounts, parse_mounts_windows, MountComponent,
    MountPoint,
};

#[test]
fn test_parse_mounts() {
    let contents = "/dev/sda1 / xfs rw,relatime 0 0\ntmpfs /tmp tmpfs rw,nosuid,nodev 0 0\n";
    let mounts = parse_mounts(contents);
    assert_eq!(mounts.len(), 2);

    let root = mounts.iter().find(|m| m.location == "/").unwrap();
    assert_eq!(root.device, "/dev/sda1");
    assert_eq!(root.filesystem, "xfs");
    assert_eq!(root.options, vec!["rw", "relatime"]);

    let tmp = mounts.iter().find(|m| m.location == "/tmp").unwrap();
    assert_eq!(tmp.device, "tmpfs");
    assert_eq!(tmp.filesystem, "tmpfs");
    assert_eq!(tmp.options, vec!["rw", "nosuid", "nodev"]);
}

#[test]
fn test_parse_mounts_skips_short_lines() {
    let contents = "/dev/sda1 /\nvalid /mnt xfs rw 0 0\n";
    let mounts = parse_mounts(contents);
    assert_eq!(mounts.len(), 1);
    assert_eq!(mounts[0].location, "/mnt");
}

#[test]
fn mount_options_keep_empty_pieces() {
    let mounts = parse_mounts("dev /x ext4 rw,,ro\n");
    assert_eq!(mounts[0].options, vec!["rw", "", "ro"]);
}

#[test]
fn test_build_mount_facts() {
    let _ = MountComponent::new();
    let mounts = vec![
        MountPoint {
            location: "/".to_string(),
            device: "/dev/sda1".to_string(),
            filesystem: "xfs".to_string(),
            options: vec!["rw".to_string()],
        },
        MountPoint {
            location: "/tmp".to_string(),
            device: "tmpfs".to_string(),
            filesystem: "tmpfs".to_string(),
            options: vec!["rw".to_string()],
        },
    ];
    let facts = build_mount_facts(mounts);
    assert_eq!(facts.len(), 2);
    assert_eq!(facts.get("/").unwrap().device, "/dev/sda1");
    assert_eq!(facts.get("/tmp").unwrap().filesystem, "tmpfs");
}

#[test]
fn mount_facts_later_mount_wins() {
    let facts = build_mount_facts(parse_mounts("a /m ext4 rw\nb /m xfs ro\n"));
    assert_eq!(facts.len(), 1);
    assert_eq!(facts.get("/m").unwrap().device, "b");
}

#[test]
fn test_parse_mount_output_macos() {
    let input = "/dev/disk3s1s1 on / (apfs, sealed, local, read-only, journaled)\n\
                 devfs on /dev (devfs, local, nobrowse)\n";
    let mounts = parse_mount_output_macos(input);
    assert_eq!(mounts.len(), 2);

    let root = mounts.iter().find(|m| m.location == "/").unwrap();
    assert_eq!(root.device, "/dev/disk3s1s1");
    assert_eq!(root.filesystem, "apfs");
    assert_eq!(root.options, vec!["sealed", "local", "read-only", "journaled"]);

    let dev = mounts.iter().find(|m| m.location == "/dev").unwrap();
    assert_eq!(dev.device, "devfs");
    assert_eq!(dev.filesystem, "devfs");
    assert_eq!(dev.options, vec!["local", "nobrowse"]);
}

#[test]
fn macos_mount_without_options_or_parenthesis() {
    let mounts = parse_mount_output_macos("map on /net (autofs)\nbroken line\nx on /y z\n");
    assert_eq!(mounts.len(), 1);
    assert_eq!(mounts[0].filesystem, "autofs");
    assert!(mounts[0].options.is_empty());
}

#[test]
fn test_parse_mounts_windows() {
    let input = "C:\tNTFS\tlocal\nD:\tNTFS\tlocal\nZ:\tNTFS\tnetwork\n";
    let mounts = parse_mounts_windows(input);
    assert_eq!(mounts.len(), 3);

    let c = mounts.iter().find(|m| m.device == "C:").unwrap();
    assert_eq!(c.location, "C:\\");
    assert_eq!(c.filesystem, "NTFS");
    assert_eq!(c.options, vec!["local"]);

    let z = mounts.iter().find(|m| m.device == "Z:").unwrap();
    assert_eq!(z.options, vec!["network"]);
}

#[test]
fn windows_mount_needs_three_fields() {
    let mounts = parse_mounts_windows("C:\tNTFS\n\nE: \t FAT32 \t removable\tx\n");
    assert_eq!(mounts.len(), 1);
    assert_eq!(mounts[0].device, "E:");
    assert_eq!(mounts[0].filesystem, "FAT32");
    assert_eq!(mounts[0].options, vec!["removable\tx"]);
}
