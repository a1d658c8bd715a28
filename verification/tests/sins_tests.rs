use newflasher::sins::{
    chunk_commands, cms_after_signature, entry_action, erase_command, filter_entry,
    flash_both_slots, flash_command, flash_slot, has_slot_answer, has_slot_query, is_gzip_magic,
    length_echoed, name_until_nul, needs_final_signature, noerase_marked, signature_command,
    path_stem, sin_slots, validate_prefix, wants_slot_query, SinEntryAction, SinError, TarEntryKind,
};
use newflasher::types::{ByteVec, FastbootHeader, Slot};

#[test]
fn partitions_flashed_in_both_slots() {
    assert!(flash_both_slots("modem"));
    assert!(flash_both_slots("rdimage"));
    assert!(!flash_both_slots("boot"));
    assert!(!flash_both_slots("Modem"));
    assert_eq!(sin_slots("dsp", Slot::A), vec![Slot::A, Slot::B]);
    assert_eq!(sin_slots("system", Slot::B), vec![Slot::B]);
}

#[test]
fn slot_of_an_entry() {
    assert_eq!(flash_slot(false, "boot_other", Slot::A), None);
    assert_eq!(flash_slot(true, "boot_other", Slot::A), Some(Slot::B));
    assert_eq!(flash_slot(true, "boot", Slot::A), Some(Slot::A));
}

#[test]
fn erase_and_flash_commands() {
    assert_eq!(erase_command("boot", false, "boot", Slot::A), b"erase:boot".to_vec());
    assert_eq!(erase_command("boot", true, "boot", Slot::A), b"erase:boot_a".to_vec());
    assert_eq!(erase_command("boot", true, "boot_other", Slot::A), b"erase:boot_b".to_vec());
    assert_eq!(flash_command("flash", "boot", Some(Slot::B)), b"flash:boot_b".to_vec());
    assert_eq!(flash_command("flash", "boot", None), b"flash:boot".to_vec());
}

#[test]
fn commands_after_each_chunk() {
    assert_eq!(
        chunk_commands(1, "flash", "boot", true, "boot_other", Slot::A),
        vec![b"erase:boot_b".to_vec(), b"flash:boot_b".to_vec()]
    );
    assert_eq!(
        chunk_commands(2, "flash", "boot", true, "boot", Slot::A),
        vec![b"flash:boot_a".to_vec()]
    );
    assert_eq!(
        chunk_commands(1, "Repartition", "partitionimage_0", false, "partitionimage_0", Slot::A),
        vec![b"Repartition:0".to_vec()]
    );
    assert_eq!(
        chunk_commands(1, "Repartition", "partitionimage_partitionimage_1", false, "x", Slot::A),
        vec![b"Repartition:Repartition:1".to_vec()]
    );
    assert_eq!(
        chunk_commands(1, "Repartition", "other", false, "x", Slot::A),
        vec![b"Repartition:other".to_vec()]
    );
}

#[test]
fn slot_query_and_signature() {
    assert_eq!(has_slot_query("boot"), b"getvar:has-slot:boot".to_vec());
    assert!(has_slot_answer(true, &ByteVec::from_text("yes")));
    assert!(!has_slot_answer(true, &ByteVec::from_text("no")));
    assert!(!has_slot_answer(false, &ByteVec::from_text("yes")));
    assert_eq!(signature_command(0x1234), b"signature:00001234".to_vec());
}

#[test]
fn entries_and_archives() {
    assert!(filter_entry(1, TarEntryKind::Regular));
    assert!(filter_entry(1, TarEntryKind::Continuous));
    assert!(!filter_entry(0, TarEntryKind::Regular));
    assert!(!filter_entry(5, TarEntryKind::Other));
    assert!(is_gzip_magic(&[0x1f, 0x8b]));
    assert!(!is_gzip_magic(&[0x75, 0x73]));
}

#[test]
fn archive_prefix() {
    let names = vec![Some("boot".to_string()), Some("boot".to_string())];
    assert_eq!(validate_prefix(&names), Ok("boot".to_string()));
    // later names only need to be present
    let names = vec![Some("boot".to_string()), Some("other".to_string())];
    assert_eq!(validate_prefix(&names), Ok("boot".to_string()));
    let names = vec![Some("boot".to_string()), None];
    assert_eq!(validate_prefix(&names), Err(SinError::MismatchedEntryName));
    assert_eq!(validate_prefix(&vec![]), Err(SinError::EmptyEntryName));
    assert_eq!(validate_prefix(&vec![None]), Err(SinError::EmptyEntryName));
}

#[test]
fn entry_dispatch_and_slot_query() {
    assert_eq!(entry_action(0), SinEntryAction::Signature);
    assert_eq!(entry_action(1), SinEntryAction::Chunk);
    assert_eq!(entry_action(7), SinEntryAction::Chunk);
    assert!(wants_slot_query("flash"));
    assert!(!wants_slot_query("Repartition"));
}

#[test]
fn noerase_marks_in_update_xml() {
    let lines = vec!["<UPDATE>".to_string(), "  <NOERASE>userdata.sin</NOERASE>".to_string()];
    assert!(noerase_marked(&lines, "userdata.sin"));
    assert!(!noerase_marked(&lines, "system.sin"));
    assert!(!noerase_marked(&vec![], "userdata.sin"));
}

#[test]
fn signature_exchange_decisions() {
    assert_eq!(cms_after_signature(FastbootHeader::Fail, 0x20), Some(b"download:00000020".to_vec()));
    assert_eq!(cms_after_signature(FastbootHeader::Data, 0x20), None);
    assert!(needs_final_signature(FastbootHeader::Fail));
    assert!(!needs_final_signature(FastbootHeader::Okay));
    assert!(length_echoed(0x20, &ByteVec::from_text("00000020")));
    assert!(!length_echoed(0x20, &ByteVec::from_text("00000021")));
}

#[test]
fn entry_names_end_at_nul() {
    assert_eq!(name_until_nul(b"boot.img\0\0\0"), Some(b"boot.img".to_vec()));
    assert_eq!(name_until_nul(b"\0x"), Some(vec![]));
    assert_eq!(name_until_nul(b"abc"), None);
}

#[test]
fn path_stem_cuts_the_extension_as_path_does() {
    for name in [
        "boot.img", "boot", "a.b.c", ".hidden", ".hidden.txt", "a.", "dir/boot.img", "dir.d/boot",
        "dir/", "dir/.", "a/./", "/", "", ".", "..", "a/..", "/boot.img", "boot.img/", "x//y.z//",
        "./a.b", "a/.b", "..a.b",
    ] {
        let expected = std::path::Path::new(name).with_extension("");
        assert_eq!(
            path_stem(name.as_bytes()),
            expected.to_str().unwrap().as_bytes().to_vec(),
            "{name}"
        );
    }
}
