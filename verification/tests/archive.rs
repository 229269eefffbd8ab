use shadowenv::archive::create_archive;
use shadowenv::archive::unpack_archive;
use shadowenv::archive::Content;
use shadowenv::archive::Entry;
use shadowenv::error::ShadowError;

fn path(parts: &[&str]) -> Vec<Vec<u8>> {
    parts.iter().map(|p| p.as_bytes().to_vec()).collect()
}

fn dir(parts: &[&str]) -> Entry {
    Entry { path: path(parts), content: Content::Directory }
}

fn file(parts: &[&str], data: &[u8]) -> Entry {
    Entry { path: path(parts), content: Content::File(data.to_vec()) }
}

fn nowhere() -> Vec<Vec<u8>> {
    path(&["nowhere"])
}

fn raw_archive(name: &[u8], kind: u8, data: &[u8]) -> Vec<u8> {
    let mut header = tar::Header::new_gnu();
    header.as_old_mut().name[..name.len()].copy_from_slice(name);
    header.set_entry_type(tar::EntryType::new(kind));
    header.set_mode(0o644);
    header.set_size(data.len() as u64);
    header.set_cksum();
    let mut builder = tar::Builder::new(Vec::new());
    builder.append(&header, data).unwrap();
    let stream = builder.into_inner().unwrap();
    zstd::stream::encode_all(&stream[..], 0).unwrap()
}

#[test]
fn an_archive_unpacks_to_the_entries_it_was_made_of() {
    let root = path(&["home", "u", "demo"]);
    let entries = vec![
        dir(&["home", "u", "demo"]),
        file(&["home", "u", "demo", "a.txt"], b"hello"),
        dir(&["home", "u", "demo", "sub"]),
        file(&["home", "u", "demo", "sub", "b.txt"], b"world"),
    ];
    let archive = create_archive(&root, &entries, &nowhere()).unwrap();
    let expected = vec![
        dir(&["demo"]),
        file(&["demo", "a.txt"], b"hello"),
        dir(&["demo", "sub"]),
        file(&["demo", "sub", "b.txt"], b"world"),
    ];
    assert_eq!(unpack_archive(&archive), Ok(expected));
}

#[test]
fn an_archive_is_a_zstd_frame_around_a_tar_stream() {
    let root = path(&["demo"]);
    let entries = vec![dir(&["demo"]), file(&["demo", "a.txt"], b"hello")];
    let archive = create_archive(&root, &entries, &nowhere()).unwrap();
    assert_eq!(&archive[..4], &[0x28, 0xb5, 0x2f, 0xfd]);
    let stream = zstd::stream::decode_all(&archive[..]).unwrap();
    assert_eq!(stream.len(), 512 + 512 + 512 + 1024);
    assert_eq!(&stream[..5], b"demo\0");
    assert_eq!(stream[156], b'5');
    assert_eq!(&stream[512..523], b"demo/a.txt\0");
    assert_eq!(stream[512 + 156], b'0');
    assert_eq!(&stream[1024..1029], b"hello");
    assert!(stream[1536..].iter().all(|b| *b == 0));
    let mut read = tar::Archive::new(&stream[..]);
    let names: Vec<Vec<u8>> =
        read.entries().unwrap().map(|e| e.unwrap().path_bytes().into_owned()).collect();
    assert_eq!(names, vec![b"demo".to_vec(), b"demo/a.txt".to_vec()]);
}

#[test]
fn a_relative_root_keeps_its_own_name() {
    let root = path(&["demo"]);
    let entries = vec![dir(&["demo"]), file(&["demo", "a.txt"], b"hello")];
    let archive = create_archive(&root, &entries, &nowhere()).unwrap();
    assert_eq!(unpack_archive(&archive), Ok(entries));
}

#[test]
fn a_root_below_parent_steps_keeps_only_its_own_name() {
    let root = path(&["..", "..", "demo"]);
    let entries = vec![dir(&["..", "..", "demo"]), file(&["..", "..", "demo", "a"], b"1")];
    let archive = create_archive(&root, &entries, &nowhere()).unwrap();
    assert_eq!(unpack_archive(&archive), Ok(vec![dir(&["demo"]), file(&["demo", "a"], b"1")]));
}

#[test]
fn the_container_being_written_is_left_out() {
    let root = path(&["demo"]);
    let output = path(&["demo", "demo.out"]);
    let entries = vec![
        dir(&["demo"]),
        file(&["demo", "a.txt"], b"hello"),
        file(&["demo", "demo.out"], b"half written"),
    ];
    let archive = create_archive(&root, &entries, &output).unwrap();
    assert_eq!(
        unpack_archive(&archive),
        Ok(vec![dir(&["demo"]), file(&["demo", "a.txt"], b"hello")])
    );
}

#[test]
fn stray_containers_are_left_out() {
    let root = path(&["demo"]);
    let entries = vec![
        dir(&["demo"]),
        file(&["demo", "old.shadow"], b"SHADOW..."),
        dir(&["demo", "sub"]),
        file(&["demo", "sub", "deep.shadow"], b"SHADOW..."),
        dir(&["demo", "folder.shadow"]),
        file(&["demo", "folder.shadow", "inside.txt"], b"kept"),
        file(&["demo", ".shadow"], b"kept too"),
    ];
    let archive = create_archive(&root, &entries, &nowhere()).unwrap();
    assert_eq!(
        unpack_archive(&archive),
        Ok(vec![
            dir(&["demo"]),
            dir(&["demo", "sub"]),
            dir(&["demo", "folder.shadow"]),
            file(&["demo", "folder.shadow", "inside.txt"], b"kept"),
            file(&["demo", ".shadow"], b"kept too"),
        ])
    );
}

#[test]
fn a_directory_named_like_a_container_is_kept() {
    let root = path(&["demo"]);
    let entries = vec![
        dir(&["demo"]),
        dir(&["demo", "x.shadow"]),
        file(&["demo", "x.shadow", "f.txt"], b"inside"),
        dir(&["demo", "empty.shadow"]),
    ];
    let archive = create_archive(&root, &entries, &nowhere()).unwrap();
    assert_eq!(unpack_archive(&archive), Ok(entries));
}

#[test]
fn a_root_named_like_a_container_is_kept() {
    let root = path(&["vault.shadow"]);
    let entries = vec![dir(&["vault.shadow"]), file(&["vault.shadow", "a"], b"1")];
    let archive = create_archive(&root, &entries, &nowhere()).unwrap();
    assert_eq!(unpack_archive(&archive), Ok(entries));
}

#[test]
fn a_directory_at_the_ignored_path_is_left_out() {
    let root = path(&["demo"]);
    let entries = vec![dir(&["demo"]), dir(&["demo", "out"]), file(&["demo", "a"], b"1")];
    let archive = create_archive(&root, &entries, &path(&["demo", "out"])).unwrap();
    assert_eq!(unpack_archive(&archive), Ok(vec![dir(&["demo"]), file(&["demo", "a"], b"1")]));
}

#[test]
fn an_entry_that_is_left_out_need_not_fit() {
    let root = path(&["demo"]);
    let entries = vec![dir(&["demo"]), file(&["elsewhere", "..", "x.shadow"], b"")];
    let archive = create_archive(&root, &entries, &nowhere()).unwrap();
    assert_eq!(unpack_archive(&archive), Ok(vec![dir(&["demo"])]));
}

#[test]
fn an_empty_tree_gives_an_empty_archive() {
    let archive = create_archive(&path(&["demo"]), &vec![], &nowhere()).unwrap();
    assert_eq!(unpack_archive(&archive), Ok(vec![]));
}

#[test]
fn empty_files_and_empty_directories_come_back() {
    let root = path(&["demo"]);
    let entries = vec![dir(&["demo"]), dir(&["demo", "empty"]), file(&["demo", "nothing"], b"")];
    let archive = create_archive(&root, &entries, &nowhere()).unwrap();
    assert_eq!(unpack_archive(&archive), Ok(entries));
}

#[test]
fn file_bytes_come_back_exactly() {
    let root = path(&["demo"]);
    let all: Vec<u8> = (0..=255u8).collect();
    let big: Vec<u8> = (0..300_000u32).map(|i| (i * i % 251) as u8).collect();
    let odd = vec![9u8; 513];
    let entries = vec![
        dir(&["demo"]),
        file(&["demo", "all"], &all),
        file(&["demo", "big"], &big),
        file(&["demo", "odd"], &odd),
        file(&["demo", "block"], &[1u8; 512]),
    ];
    let archive = create_archive(&root, &entries, &nowhere()).unwrap();
    assert_eq!(unpack_archive(&archive), Ok(entries));
}

#[test]
fn long_names_come_back_exactly() {
    let root = path(&["demo"]);
    let c95 = "a".repeat(95);
    let c96 = "b".repeat(96);
    let c200 = "c".repeat(200);
    let c255 = "d".repeat(255);
    let entries = vec![
        dir(&["demo"]),
        file(&["demo", &c95], b"name of 100 bytes"),
        file(&["demo", &c96], b"name of 101 bytes"),
        dir(&["demo", &c200]),
        file(&["demo", &c200, &c255], b"name of 461 bytes"),
        file(&["demo", &c200, &c255, "..x"], b"dots"),
        file(&["demo", &"e".repeat(92), "..f"], b"cut after two dots"),
        file(&["demo", &"g".repeat(93), ".h"], b"cut after one dot"),
        file(&["demo", &"i".repeat(94), "j"], b"cut after the slash"),
        file(&["demo", &"\u{e9}".repeat(60)], b"cut inside a character"),
    ];
    let archive = create_archive(&root, &entries, &nowhere()).unwrap();
    assert_eq!(unpack_archive(&archive), Ok(entries));
}

#[test]
fn unusual_names_come_back_exactly() {
    let root = path(&["demo"]);
    let entries = vec![
        dir(&["demo"]),
        file(&["demo", "with space"], b"1"),
        file(&["demo", ".hidden"], b"2"),
        file(&["demo", "..."], b"3"),
        file(&["demo", "caf\u{e9} \u{1f600}"], b"4"),
        file(&["demo", "a:b*c?d\"e<f>g|h"], b"5"),
        file(&["demo", "-rf"], b"6"),
        file(&["demo", "x"], b"7"),
    ];
    let archive = create_archive(&root, &entries, &nowhere()).unwrap();
    assert_eq!(unpack_archive(&archive), Ok(entries));
}

#[test]
fn a_tree_without_a_root_is_refused() {
    assert_eq!(create_archive(&path(&[]), &vec![], &nowhere()), Err(ShadowError::PathSafety));
    assert_eq!(
        create_archive(&path(&[]), &vec![file(&["a"], b"")], &nowhere()),
        Err(ShadowError::PathSafety)
    );
}

#[test]
fn two_entries_at_one_path_are_refused() {
    let root = path(&["demo"]);
    let twice = vec![dir(&["demo"]), file(&["demo", "x"], b"7"), file(&["demo", "x"], b"8")];
    assert_eq!(create_archive(&root, &twice, &nowhere()), Err(ShadowError::PathSafety));
    let kinds = vec![dir(&["demo"]), file(&["demo", "x"], b"7"), dir(&["demo", "x"])];
    assert_eq!(create_archive(&root, &kinds, &nowhere()), Err(ShadowError::PathSafety));
    let roots = vec![dir(&["demo"]), dir(&["demo"])];
    assert_eq!(create_archive(&root, &roots, &nowhere()), Err(ShadowError::PathSafety));
}

#[test]
fn entries_that_are_left_out_may_share_a_path() {
    let root = path(&["demo"]);
    let entries = vec![
        dir(&["demo"]),
        file(&["demo", "old.shadow"], b"1"),
        file(&["demo", "old.shadow"], b"2"),
        dir(&["demo", "old.shadow"]),
        file(&["demo", "out"], b"3"),
        file(&["demo", "out"], b"4"),
    ];
    let archive = create_archive(&root, &entries, &path(&["demo", "out"])).unwrap();
    assert_eq!(unpack_archive(&archive), Ok(vec![dir(&["demo"]), dir(&["demo", "old.shadow"])]));
}

#[test]
fn every_path_in_an_archive_starts_with_the_name_of_the_root() {
    let root = path(&["home", "u", "demo"]);
    let entries = vec![dir(&["home", "u", "demo"]), file(&["home", "u", "demo", "a"], b"1")];
    let archive = create_archive(&root, &entries, &nowhere()).unwrap();
    let unpacked = unpack_archive(&archive).unwrap();
    assert!(unpacked.iter().all(|e| e.path[0] == b"demo".to_vec()));
}

#[test]
fn an_entry_outside_the_root_is_refused() {
    let root = path(&["home", "u", "demo"]);
    for entry in [
        file(&["home", "v", "demo", "a.txt"], b""),
        file(&["home", "u", "other"], b""),
        file(&["home", "u", "other", "demo"], b""),
        file(&["home", "u", "demo2", "a.txt"], b""),
        file(&["home"], b""),
        file(&["home", "u"], b""),
        file(&[], b""),
    ] {
        assert_eq!(
            create_archive(&root, &vec![dir(&["home", "u", "demo"]), entry], &nowhere()),
            Err(ShadowError::PathSafety)
        );
    }
}

#[test]
fn an_entry_with_a_component_that_is_not_plain_is_refused() {
    let root = path(&["demo"]);
    for bad in ["..", ".", "", "a/b", "a\\b", "a\0b"] {
        assert_eq!(
            create_archive(&root, &vec![dir(&["demo"]), file(&["demo", bad, "x"], b"")], &nowhere()),
            Err(ShadowError::PathSafety)
        );
    }
    assert_eq!(
        create_archive(&path(&[".."]), &vec![dir(&[".."])], &nowhere()),
        Err(ShadowError::PathSafety)
    );
    assert_eq!(
        create_archive(&path(&["/"]), &vec![dir(&["/"])], &nowhere()),
        Err(ShadowError::PathSafety)
    );
}

#[test]
fn an_entry_whose_name_is_not_text_is_refused() {
    let root = path(&["demo"]);
    let entry = Entry { path: vec![b"demo".to_vec(), vec![0xff, 0xfe]], content: Content::Directory };
    assert_eq!(create_archive(&root, &vec![entry], &nowhere()), Err(ShadowError::PathSafety));
}

#[test]
fn nothing_is_packed_when_a_late_entry_does_not_fit() {
    let root = path(&["demo"]);
    let entries = vec![dir(&["demo"]), file(&["demo", "a"], b"1"), file(&["demo", "..", "b"], b"2")];
    assert_eq!(create_archive(&root, &entries, &nowhere()), Err(ShadowError::PathSafety));
}

#[test]
fn bytes_that_are_no_zstd_frame_do_not_unpack() {
    assert_eq!(unpack_archive(b"hello"), Err(ShadowError::Io));
    assert_eq!(unpack_archive(&[0x28, 0xb5, 0x2f, 0xfd, 1, 2, 3]), Err(ShadowError::Io));
}

#[test]
fn a_frame_that_holds_no_tar_stream_does_not_unpack() {
    let frame = zstd::stream::encode_all(&b"this is not a tar stream"[..], 0).unwrap();
    assert_eq!(unpack_archive(&frame), Err(ShadowError::Io));
    let frame = zstd::stream::encode_all(&[7u8; 512][..], 0).unwrap();
    assert_eq!(unpack_archive(&frame), Err(ShadowError::Io));
}

#[test]
fn no_bytes_are_no_archive() {
    assert_eq!(unpack_archive(b""), Err(ShadowError::Io));
}

#[test]
fn a_frame_that_holds_nothing_unpacks_to_no_entries() {
    let frame = zstd::stream::encode_all(&b""[..], 0).unwrap();
    assert_eq!(unpack_archive(&frame), Ok(vec![]));
}

#[test]
fn an_archive_with_a_name_that_climbs_is_refused() {
    for name in [&b"../evil"[..], b"demo/../../evil", b"..", b"demo/.."] {
        assert_eq!(unpack_archive(&raw_archive(name, b'0', b"x")), Err(ShadowError::PathSafety));
    }
}

#[test]
fn an_archive_with_a_rooted_or_unclean_name_is_refused() {
    for name in [&b"/etc/passwd"[..], b"demo//x", b"demo/", b"./demo", b"demo/./x", b"demo\\..\\x"] {
        assert_eq!(unpack_archive(&raw_archive(name, b'0', b"x")), Err(ShadowError::PathSafety));
    }
}

#[test]
fn an_archive_with_a_name_that_is_not_text_is_refused() {
    assert_eq!(unpack_archive(&raw_archive(&[b'a', 0xff], b'0', b"x")), Err(ShadowError::PathSafety));
}

#[test]
fn an_archive_with_a_link_or_a_device_is_refused() {
    for kind in [b'1', b'2', b'3', b'4', b'6', b'7'] {
        assert_eq!(unpack_archive(&raw_archive(b"demo", kind, b"")), Err(ShadowError::PathSafety));
    }
}

#[test]
fn an_archive_made_elsewhere_with_plain_names_unpacks() {
    assert_eq!(unpack_archive(&raw_archive(b"demo/a.txt", b'0', b"hello")), Ok(vec![file(&["demo", "a.txt"], b"hello")]));
    assert_eq!(unpack_archive(&raw_archive(b"demo/a.txt", 0, b"hello")), Ok(vec![file(&["demo", "a.txt"], b"hello")]));
    assert_eq!(unpack_archive(&raw_archive(b"demo", b'5', b"")), Ok(vec![dir(&["demo"])]));
}

#[test]
fn the_same_tree_gives_the_same_archive() {
    let root = path(&["demo"]);
    let entries = vec![dir(&["demo"]), file(&["demo", "a.txt"], b"hello")];
    assert_eq!(
        create_archive(&root, &entries, &nowhere()).unwrap(),
        create_archive(&root, &entries, &nowhere()).unwrap()
    );
}
