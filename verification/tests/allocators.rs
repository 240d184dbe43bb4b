//! The allocators, the file names and the flat image.

use stack_db::base::database::allocator::Allocator;
use stack_db::base::image::Image;
use stack_db::default::allocators::{SkdbDirAlloc, SkdbMemAlloc};
use stack_db::default::names::{format_name, parse_name};
use stack_db::errors::Error;
use stack_db::prelude::StackDB;

#[test]
fn memory_allocator_starts_empty() {
    let mut alloc = SkdbMemAlloc;
    assert_eq!(alloc.load_layers().unwrap().len(), 0);
    let layer = alloc.add_layer().unwrap();
    assert!(layer.is_heap());
    assert_eq!(layer.size(), 0);
    assert_eq!(layer.stream().len(), 0);
    alloc.drop_top_layer().unwrap();
    alloc.rebase(3).unwrap();
    assert_eq!(StackDB::new(alloc).unwrap().depth(), 0);
}

#[test]
fn names_are_decimal_numbers() {
    assert_eq!(parse_name(b"0"), Some(0));
    assert_eq!(parse_name(b"7"), Some(7));
    assert_eq!(parse_name(b"007"), Some(7));
    assert_eq!(parse_name(b"+12"), Some(12));
    assert_eq!(parse_name(b"4294967295"), Some(u32::MAX));
    assert_eq!(parse_name(b"0000000000004294967295"), Some(u32::MAX));
    assert_eq!(parse_name(b"4294967296"), None);
    assert_eq!(parse_name(b"99999999999999999999999999"), None);
    assert_eq!(parse_name(b""), None);
    assert_eq!(parse_name(b"+"), None);
    assert_eq!(parse_name(b"-1"), None);
    assert_eq!(parse_name(b"++1"), None);
    assert_eq!(parse_name(b"1+"), None);
    assert_eq!(parse_name(b" 1"), None);
    assert_eq!(parse_name(b"12a"), None);
    assert_eq!(parse_name(b"layer"), None);
    assert_eq!(parse_name("٣".as_bytes()), None);

    assert_eq!(format_name(0), b"0".to_vec());
    assert_eq!(format_name(9), b"9".to_vec());
    assert_eq!(format_name(10), b"10".to_vec());
    assert_eq!(format_name(1234567890), b"1234567890".to_vec());
    assert_eq!(format_name(u64::MAX), b"18446744073709551615".to_vec());

    // the same as the standard library has it
    for n in [0u32, 1, 9, 10, 99, 100, 65535, 4294967295] {
        assert_eq!(format_name(n as u64), n.to_string().into_bytes());
        assert_eq!(parse_name(&format_name(n as u64)), Some(n));
    }
    for s in ["", "+", "+0", "-0", "0x10", "1_000", "٣", "42", "+42", "00"] {
        assert_eq!(parse_name(s.as_bytes()), s.parse::<u32>().ok());
    }
}

fn names(list: &[&str]) -> Vec<Vec<u8>> {
    list.iter().map(|s| s.as_bytes().to_vec()).collect()
}

#[test]
fn catalog_of_a_new_directory() {
    let mut catalog = SkdbDirAlloc::new(String::from("db.skdb"));
    assert_eq!(catalog.path, "db.skdb");
    assert_eq!(catalog.layers, names(&[]));
    assert_eq!(catalog.cursor, 0);

    assert_eq!(catalog.add_layer(), b"0".to_vec());
    assert_eq!(catalog.add_layer(), b"1".to_vec());
    assert_eq!(catalog.layers, names(&["0", "1"]));
    assert_eq!(catalog.cursor, 2);

    assert_eq!(catalog.drop_top_layer(), Some(b"1".to_vec()));
    assert_eq!(catalog.layers, names(&["0"]));
    assert_eq!(catalog.cursor, 1);
    assert_eq!(catalog.drop_top_layer(), Some(b"0".to_vec()));
    assert_eq!(catalog.drop_top_layer(), None);
    assert_eq!(catalog.cursor, 0);
}

#[test]
fn catalog_of_a_directory_with_files() {
    let found = names(&["10", "notes.txt", "2", "", "+3", "0", "7.bak", "-4"]);
    let catalog = SkdbDirAlloc::load(String::from("dir"), &found);
    assert_eq!(catalog.path, "dir");
    assert_eq!(catalog.layers, names(&["0", "2", "+3", "10"]));
    assert_eq!(catalog.cursor, 11);

    let catalog = SkdbDirAlloc::load(String::from("dir"), &names(&["readme"]));
    assert_eq!(catalog.layers, names(&[]));
    assert_eq!(catalog.cursor, 0);

    let catalog = SkdbDirAlloc::load(String::from("dir"), &names(&["4294967294"]));
    assert_eq!(catalog.cursor, u32::MAX);
}

#[test]
fn catalog_rebase_plans_removals_and_renames() {
    let found = names(&["5", "1", "9", "3"]);
    let mut catalog = SkdbDirAlloc::load(String::from("dir"), &found);
    assert_eq!(catalog.layers, names(&["1", "3", "5", "9"]));

    let plan = catalog.rebase(2);
    assert_eq!(plan.remove, names(&["1", "3"]));
    assert_eq!(
        plan.rename,
        vec![
            (b"5".to_vec(), b"0".to_vec()),
            (b"9".to_vec(), b"1".to_vec())
        ]
    );
    assert_eq!(catalog.layers, names(&["0", "1"]));
    assert_eq!(catalog.cursor, 10);

    let plan = catalog.rebase(0);
    assert_eq!(plan.remove, names(&[]));
    assert_eq!(plan.rename.len(), 2);
    assert_eq!(catalog.layers, names(&["0", "1"]));

    let plan = catalog.rebase(2);
    assert_eq!(plan.remove, names(&["0", "1"]));
    assert_eq!(plan.rename, vec![]);
    assert_eq!(catalog.layers, names(&[]));
}

#[test]
fn image_reads_what_was_written() {
    let mut image = Image::new(vec![1, 2, 3, 4]);
    assert_eq!(image.read(1..3).unwrap(), vec![2, 3]);
    image.write(2, &[9, 9, 9]).unwrap();
    assert_eq!(image.read(0..5).unwrap(), vec![1, 2, 9, 9, 9]);

    // a write behind the end leaves zeros in between
    image.write(7, &[5]).unwrap();
    assert_eq!(image.read(0..8).unwrap(), vec![1, 2, 9, 9, 9, 0, 0, 5]);

    // a write of nothing does not grow the store
    image.write(100, &[]).unwrap();
    assert_eq!(image.read(8..8).unwrap(), Vec::<u8>::new());
    assert_eq!(image.read(500..500).unwrap(), Vec::<u8>::new());

    match image.read(4..9) {
        Err(Error::IOError(e)) => assert_eq!(e.kind(), std::io::ErrorKind::UnexpectedEof),
        other => panic!("expected an I/O error, got {:?}", other),
    }
}

#[test]
fn io_errors_become_store_errors() {
    let e = Error::from(std::io::Error::from(std::io::ErrorKind::NotFound));
    match e {
        Error::IOError(inner) => assert_eq!(inner.kind(), std::io::ErrorKind::NotFound),
        other => panic!("expected an I/O error, got {:?}", other),
    }
}
