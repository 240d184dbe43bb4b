//! One layer, written, read and sealed.

use stack_db::base::layer::codec::{get_u64, put_u64};
use stack_db::base::layer::mapper::{Mapper, Section};
use stack_db::base::layer::ranges::{clip_range, find_collisions, find_gaps, ranges_collide};
use stack_db::base::layer::Layer;
use stack_db::errors::Error;
use std::borrow::Cow;

#[test]
fn test_read_write() {
    let layer_data = vec![0u8; 256];
    let mut layer = Layer::new(layer_data);

    layer.write_unchecked(128, Cow::Borrowed(b"hello, world")).unwrap();
    layer.write_unchecked(4, Cow::Borrowed(&[0, 1, 2, 3, 4, 5, 6, 7, 8])).unwrap();

    assert_eq!(&*layer.read_unchecked(128..140).unwrap().1, b"hello, world");
    // the bytes come back as they went in, letter case and all
    assert_ne!(&*layer.read_unchecked(128..140).unwrap().1, b"Hello, world");
    layer.flush().unwrap();

    assert_eq!(&*layer.read_unchecked(4..13).unwrap().1, &[0, 1, 2, 3, 4, 5, 6, 7, 8]);
}

fn is_corrupt<T: std::fmt::Debug>(r: Result<T, Error>) -> bool {
    match r {
        Err(Error::DBCorrupt(inner)) => matches!(*inner, Error::InvalidLayer),
        _ => false,
    }
}

#[test]
fn new_layer_is_empty_and_open() {
    let layer = Layer::new(vec![1, 2, 3]);
    assert!(layer.is_heap());
    assert_eq!(*layer.bounds(), None);
    assert_eq!(layer.size(), 0);
    assert_eq!(layer.stream(), &vec![1, 2, 3]);
    assert_eq!(layer.check_collisions(0..u64::MAX).unwrap(), vec![]);
}

#[test]
fn writes_keep_order_bounds_and_size() {
    let mut layer = Layer::new(Vec::new());
    layer.write_unchecked(20, Cow::Borrowed(&[1, 2])).unwrap();
    layer.write_unchecked(5, Cow::Owned(vec![3, 4, 5])).unwrap();
    layer.write_unchecked(10, Cow::Borrowed(&[6])).unwrap();
    layer.write_unchecked(22, Cow::Borrowed(&[7])).unwrap();

    assert_eq!(*layer.bounds(), Some(5..23));
    assert_eq!(layer.size(), 7);
    assert_eq!(
        layer.check_collisions(0..100).unwrap(),
        vec![5..8, 10..11, 20..22, 22..23]
    );
}

#[test]
fn abutting_write_is_not_merged() {
    let mut layer = Layer::new(Vec::new());
    layer.write_unchecked(0, Cow::Borrowed(&[1, 2, 3, 4])).unwrap();
    layer.write_unchecked(4, Cow::Borrowed(&[5, 6, 7, 8])).unwrap();

    assert_eq!(layer.check_collisions(0..8).unwrap(), vec![0..4, 4..8]);
    assert_eq!(*layer.bounds(), Some(0..8));
    assert_eq!(layer.size(), 8);

    let (offset, bytes) = layer.read_unchecked(4..6).unwrap();
    assert_eq!(offset, 0);
    assert_eq!(&*bytes, &[5, 6, 7, 8]);
}

#[test]
fn empty_write_changes_nothing() {
    let mut layer = Layer::new(Vec::new());
    layer.write_unchecked(9, Cow::Borrowed(&[])).unwrap();
    assert_eq!(*layer.bounds(), None);
    assert_eq!(layer.size(), 0);
}

#[test]
fn read_gives_offset_into_the_segment() {
    let mut layer = Layer::new(Vec::new());
    layer.write_unchecked(100, Cow::Borrowed(b"abcdefgh")).unwrap();
    layer.write_unchecked(50, Cow::Borrowed(b"xyz")).unwrap();

    let (offset, bytes) = layer.read_unchecked(103..106).unwrap();
    assert_eq!(offset, 3);
    assert_eq!(&bytes[offset..offset + 3], b"def");
    assert!(matches!(bytes, Cow::Borrowed(_)));

    // one read after the other, and one back at the start
    let (offset, bytes) = layer.read_unchecked(106..108).unwrap();
    assert_eq!(&bytes[offset..offset + 2], b"gh");
    let (offset, bytes) = layer.read_unchecked(50..53).unwrap();
    assert_eq!((offset, &*bytes), (0, &b"xyz"[..]));

    layer.flush().unwrap();
    let (offset, bytes) = layer.read_unchecked(103..106).unwrap();
    assert_eq!(offset, 3);
    assert_eq!(&bytes[offset..offset + 3], b"def");
    assert!(matches!(bytes, Cow::Owned(_)));
}

#[test]
fn collisions_are_clipped_to_the_query() {
    let mut layer = Layer::new(Vec::new());
    layer.write_unchecked(10, Cow::Borrowed(&[0; 10])).unwrap();
    layer.write_unchecked(30, Cow::Borrowed(&[0; 10])).unwrap();

    assert_eq!(layer.check_collisions(15..35).unwrap(), vec![15..20, 30..35]);
    assert_eq!(layer.check_collisions(20..30).unwrap(), vec![]);
    assert_eq!(layer.check_collisions(0..11).unwrap(), vec![10..11]);
    // an empty query collides with nothing, even inside a segment
    assert_eq!(layer.check_collisions(12..12).unwrap(), vec![]);

    let hits = layer.check_collisions(5..45).unwrap();
    assert_eq!(
        layer.check_non_collisions(5..45, &hits),
        vec![5..10, 20..30, 40..45]
    );
    assert_eq!(layer.check_non_collisions(10..20, &[10..20]), vec![]);
    assert_eq!(layer.check_non_collisions(3..9, &[]), vec![3..9]);
    assert_eq!(layer.check_non_collisions(9..9, &[]), vec![]);
}

#[test]
fn flush_writes_the_image() {
    let mut layer = Layer::new(Vec::new());
    layer.write_unchecked(0x0102, Cow::Borrowed(&[0xAA, 0xBB])).unwrap();
    layer.write_unchecked(1, Cow::Borrowed(&[0xCC])).unwrap();
    layer.flush().unwrap();

    assert!(!layer.is_heap());
    let expected: Vec<u8> = vec![
        0, 0, 0, 0, 0, 0, 0, 3, // size
        0, 0, 0, 0, 0, 0, 0, 1, // bounds.start
        0, 0, 0, 0, 0, 0, 1, 4, // bounds.end
        0, 0, 0, 0, 0, 0, 0, 1, 0, 0, 0, 0, 0, 0, 0, 2, 0xCC, // first segment
        0, 0, 0, 0, 0, 0, 1, 2, 0, 0, 0, 0, 0, 0, 1, 4, 0xAA, 0xBB, // second segment
    ];
    assert_eq!(layer.stream(), &expected);
    assert_eq!(*layer.bounds(), Some(1..0x0104));
    assert_eq!(layer.size(), 3);
}

#[test]
fn flush_writes_over_the_start_of_the_stream() {
    let mut layer = Layer::new(vec![0xEE; 50]);
    layer.write_unchecked(7, Cow::Borrowed(&[1])).unwrap();
    layer.flush().unwrap();

    let stream = layer.stream();
    assert_eq!(stream.len(), 50);
    assert_eq!(&stream[..8], &[0, 0, 0, 0, 0, 0, 0, 1]);
    assert_eq!(stream[40], 1);
    assert_eq!(&stream[41..], &[0xEE; 9]);
    // what stands behind the image does not count
    assert_eq!(layer.check_collisions(0..100).unwrap(), vec![7..8]);
}

#[test]
fn flush_of_an_empty_layer_does_nothing() {
    let mut layer = Layer::new(vec![9, 9]);
    layer.flush().unwrap();
    assert!(layer.is_heap());
    assert_eq!(layer.stream(), &vec![9, 9]);
}

#[test]
fn sealed_layer_is_read_only() {
    let mut layer = Layer::new(Vec::new());
    layer.write_unchecked(0, Cow::Borrowed(&[1])).unwrap();
    layer.flush().unwrap();
    assert!(matches!(
        layer.write_unchecked(5, Cow::Borrowed(&[2])),
        Err(Error::ReadOnly)
    ));
    assert!(matches!(
        layer.write_unchecked(5, Cow::Borrowed(&[])),
        Err(Error::ReadOnly)
    ));
    assert_eq!(layer.size(), 1);
    // sealing again changes nothing
    let before = layer.stream().clone();
    layer.flush().unwrap();
    assert_eq!(layer.stream(), &before);
}

#[test]
fn load_gives_back_what_was_flushed() {
    let mut layer = Layer::new(Vec::new());
    layer.write_unchecked(1000, Cow::Borrowed(b"second")).unwrap();
    layer.write_unchecked(10, Cow::Borrowed(b"first")).unwrap();
    let before = layer.check_collisions(0..u64::MAX).unwrap();
    layer.flush().unwrap();

    let mut loaded = Layer::load(layer.stream().clone()).unwrap();
    assert!(!loaded.is_heap());
    assert_eq!(loaded.bounds(), layer.bounds());
    assert_eq!(loaded.size(), 11);
    assert_eq!(loaded.check_collisions(0..u64::MAX).unwrap(), before);
    assert_eq!(before, vec![10..15, 1000..1006]);
    assert_eq!(&*loaded.read_unchecked(10..15).unwrap().1, b"first");
    assert_eq!(&*loaded.read_unchecked(1000..1006).unwrap().1, b"second");

    // the segments come out of the image in the order they went in
    let mut it = Mapper::Disk.iter(loaded.stream(), loaded.size(), 24).unwrap();
    let first: Section = it.next().unwrap().unwrap();
    assert_eq!((first.0, &*first.1), (10..15, &b"first"[..]));
    let second: Section = it.next().unwrap().unwrap();
    assert_eq!((second.0, &*second.1), (1000..1006, &b"second"[..]));
    assert!(it.next().is_none());
}

fn header(size: u64, start: u64, end: u64) -> Vec<u8> {
    let mut image = Vec::new();
    put_u64(&mut image, size);
    put_u64(&mut image, start);
    put_u64(&mut image, end);
    image
}

fn segment(image: &mut Vec<u8>, start: u64, end: u64, bytes: &[u8]) {
    put_u64(image, start);
    put_u64(image, end);
    image.extend_from_slice(bytes);
}

#[test]
fn load_checks_the_header() {
    assert!(is_corrupt(Layer::load(Vec::new())));
    assert!(is_corrupt(Layer::load(vec![0; 23])));
    // bounds out of order
    assert!(is_corrupt(Layer::load(header(0, 5, 4))));
    // more payload than the bounds have room for
    assert!(is_corrupt(Layer::load(header(3, 10, 12))));

    let empty = Layer::load(header(0, 7, 7)).unwrap();
    assert_eq!(*empty.bounds(), None);
    assert_eq!(empty.size(), 0);
    assert_eq!(empty.check_collisions(0..100).unwrap(), vec![]);

    let sparse = Layer::load(header(2, 0, 100)).unwrap();
    assert_eq!(*sparse.bounds(), Some(0..100));
    assert_eq!(sparse.size(), 2);
}

#[test]
fn broken_segments_show_when_the_layer_is_walked() {
    // no segment where one is due
    let layer = Layer::load(header(2, 0, 2)).unwrap();
    assert!(is_corrupt(layer.check_collisions(0..10)));

    // a segment cut short
    let mut image = header(4, 0, 4);
    segment(&mut image, 0, 4, &[1, 2]);
    let mut layer = Layer::load(image).unwrap();
    assert!(is_corrupt(layer.check_collisions(0..10)));
    assert!(is_corrupt(layer.read_unchecked(0..1)));

    // an empty segment
    let mut image = header(2, 0, 2);
    segment(&mut image, 1, 1, &[]);
    assert!(is_corrupt(Layer::load(image).unwrap().check_collisions(0..10)));

    // a segment of more payload than is left
    let mut image = header(2, 0, 4);
    segment(&mut image, 0, 4, &[1, 2, 3, 4]);
    assert!(is_corrupt(Layer::load(image).unwrap().check_collisions(0..10)));

    // segments out of order
    let mut image = header(2, 0, 6);
    segment(&mut image, 5, 6, &[1]);
    segment(&mut image, 0, 1, &[2]);
    assert!(is_corrupt(Layer::load(image).unwrap().check_collisions(0..10)));

    // segments that overlap
    let mut image = header(4, 0, 4);
    segment(&mut image, 0, 2, &[1, 2]);
    segment(&mut image, 1, 3, &[3, 4]);
    assert!(is_corrupt(Layer::load(image).unwrap().check_collisions(0..10)));

    // segments that do not span the bounds
    let mut image = header(1, 0, 9);
    segment(&mut image, 3, 4, &[1]);
    assert!(is_corrupt(Layer::load(image).unwrap().check_collisions(0..10)));

    // and a sound one
    let mut image = header(3, 3, 9);
    segment(&mut image, 3, 4, &[1]);
    segment(&mut image, 7, 9, &[2, 3]);
    image.extend_from_slice(&[0xFF; 5]);
    let mut layer = Layer::load(image).unwrap();
    assert_eq!(layer.check_collisions(0..8).unwrap(), vec![3..4, 7..8]);
    let (offset, bytes) = layer.read_unchecked(8..9).unwrap();
    assert_eq!((offset, &*bytes), (1, &[2u8, 3][..]));
}

#[test]
fn big_endian_numbers() {
    let mut out = vec![0xFF];
    put_u64(&mut out, 0x0102_0304_0506_0708);
    assert_eq!(out, vec![0xFF, 1, 2, 3, 4, 5, 6, 7, 8]);
    assert_eq!(get_u64(&out, 1..9).unwrap(), 0x0102_0304_0506_0708);
    assert_eq!(get_u64(&out, 0..8).unwrap(), 0xFF01_0203_0405_0607);

    let mut out = Vec::new();
    put_u64(&mut out, u64::MAX);
    put_u64(&mut out, 0);
    put_u64(&mut out, 256);
    assert_eq!(&out[..8], &[0xFF; 8]);
    assert_eq!(&out[8..16], &[0; 8]);
    assert_eq!(&out[16..], &[0, 0, 0, 0, 0, 0, 1, 0]);
    assert_eq!(get_u64(&out, 0..8).unwrap(), u64::MAX);
    assert_eq!(get_u64(&out, 16..24).unwrap(), 256);

    assert!(is_corrupt(get_u64(&out, 17..25)));
    assert!(is_corrupt(get_u64(&out, 0..7)));
    assert!(is_corrupt(get_u64(&out, 0..9)));
    assert!(is_corrupt(get_u64(&out, 8..0)));
}

#[test]
fn range_algebra() {
    assert!(ranges_collide(&(0..5), &(4..9)));
    assert!(!ranges_collide(&(0..5), &(5..9)));
    assert!(ranges_collide(&(3..4), &(0..10)));
    assert_eq!(clip_range(&(3..8), &(5..20)), 5..8);
    assert_eq!(clip_range(&(3..8), &(0..4)), 3..4);

    let segments = [0..4, 4..6, 10..20, 30..31];
    let q = 2..30;
    let hits = find_collisions(&q, &segments);
    assert_eq!(hits, vec![2..4, 4..6, 10..20]);
    let gaps = find_gaps(&q, &hits);
    assert_eq!(gaps, vec![6..10, 20..30]);

    // together they cover the query exactly once
    let mut covered = vec![0u8; 28];
    for r in hits.iter().chain(gaps.iter()) {
        for a in r.clone() {
            covered[(a - 2) as usize] += 1;
        }
    }
    assert!(covered.iter().all(|&n| n == 1));

    assert_eq!(find_collisions(&(6..10), &segments), vec![]);
    assert_eq!(find_gaps(&(6..10), &[]), vec![6..10]);
    assert_eq!(find_gaps(&(0..4), &[0..4]), vec![]);
    assert_eq!(find_gaps(&(0..10), &[0..2, 2..3, 9..10]), vec![3..9]);
}

#[test]
fn mapper_inserts_at_the_cursor_or_the_slot() {
    let mut mapper = Mapper::new();
    assert_eq!(mapper.position_for(0), 0);
    assert_eq!(mapper.position_for(77), 0);
    mapper.insert_at(0, 10..12, Cow::Borrowed(&[1, 2])).unwrap();
    // the cursor stands behind the segment
    assert_eq!(mapper.position_for(12), 1);
    assert_eq!(mapper.position_for(50), 1);
    assert_eq!(mapper.position_for(3), 0);
    mapper.insert_at(0, 3..4, Cow::Borrowed(&[3])).unwrap();
    assert_eq!(mapper.position_for(4), 1);
    assert_eq!(mapper.position_for(5), 1);
    assert_eq!(mapper.position_for(20), 2);
    mapper.insert_at(2, 20..21, Cow::Owned(vec![4])).unwrap();

    let stream: Vec<u8> = Vec::new();
    let mut it = mapper.iter(&stream, 0, 0).unwrap();
    let mut seen = Vec::new();
    while let Some(section) = it.next() {
        let (range, bytes) = section.unwrap();
        seen.push((range, bytes.to_vec()));
    }
    assert_eq!(
        seen,
        vec![(3..4, vec![3]), (10..12, vec![1, 2]), (20..21, vec![4])]
    );

    match mapper.get_writer() {
        Ok((list, cursor)) => {
            assert_eq!(list.len(), 3);
            assert_eq!(*cursor, (21, 3));
        }
        Err(_) => panic!("a mapper in memory can be written"),
    }
}

#[test]
fn mapper_on_disk_is_read_only() {
    let mut mapper = Mapper::Disk;
    assert!(matches!(mapper.get_writer(), Err(Error::ReadOnly)));
    assert!(matches!(
        mapper.insert_at(0, 0..1, Cow::Borrowed(&[1])),
        Err(Error::ReadOnly)
    ));
    assert_eq!(mapper.position_for(9), 0);
    assert!(matches!(Mapper::default(), Mapper::Heap { .. }));
}

#[test]
fn walk_over_an_image_stops_at_a_broken_segment() {
    let mut image = Vec::new();
    segment(&mut image, 1, 3, &[1, 2]);
    segment(&mut image, 8, 9, &[3]);
    let mapper = Mapper::Disk;

    let mut it = mapper.iter(&image, 3, 0).unwrap();
    assert_eq!(it.next().unwrap().unwrap().0, 1..3);
    let last = it.next().unwrap().unwrap();
    assert_eq!((last.0, &*last.1), (8..9, &[3u8][..]));
    assert!(it.next().is_none());
    assert!(it.next().is_none());

    // one byte more announced than is there
    let mut it = mapper.iter(&image, 4, 0).unwrap();
    assert!(it.next().unwrap().is_ok());
    assert!(it.next().unwrap().is_ok());
    assert!(is_corrupt(it.next().unwrap()));
    assert!(is_corrupt(it.next().unwrap()));

    // a start behind the end of the stream
    let mut it = mapper.iter(&image, 1, 1000).unwrap();
    assert!(is_corrupt(it.next().unwrap()));
}

#[test]
fn walk_gives_ranges_without_the_bytes() {
    let mut image = Vec::new();
    segment(&mut image, 1, 3, &[1, 2]);
    segment(&mut image, 8, 9, &[3]);
    let mapper = Mapper::Disk;

    let mut it = mapper.iter(&image, 3, 0).unwrap();
    assert_eq!(it.next_range().unwrap().unwrap(), 1..3);
    // the walk goes on behind the bytes that were stepped over
    let last = it.next().unwrap().unwrap();
    assert_eq!((last.0, &*last.1), (8..9, &[3u8][..]));
    assert!(it.next_range().is_none());

    let mut it = mapper.iter(&image, 9, 0).unwrap();
    assert!(it.next_range().unwrap().is_ok());
    assert!(it.next_range().unwrap().is_ok());
    assert!(is_corrupt(it.next_range().unwrap()));
}
