//! The stack, read and written through its public interface.

use stack_db::base::database::allocator::Allocator;
use stack_db::base::database::StackDB;
use stack_db::base::layer::Layer;
use stack_db::default::allocators::SkdbMemAlloc;
use stack_db::errors::Error;

#[test]
fn database_read_write() {
    let mut db = StackDB::new(SkdbMemAlloc).unwrap();

    // write tests
    db.write(14, b"Hello, ").unwrap();
    db.write(14, b"hello, ").unwrap();
    db.write(21, b"World").unwrap();
    db.flush().unwrap();
    db.write(21, b"world!").unwrap();
    db.flush().unwrap();

    // read tests
    assert_eq!(&*db.read(14..21).unwrap(), b"hello, ");
    assert_eq!(&*db.read(21..26).unwrap(), b"world");
    db.rebase(256).unwrap();
    assert_eq!(&*db.read(14..27).unwrap(), b"hello, world!");
}

#[test]
fn disjoint_writes_share_one_layer() {
    let mut db = StackDB::new(SkdbMemAlloc).unwrap();
    db.write(0, &[0, 1, 2, 3]).unwrap();
    db.write(10, &[9, 9]).unwrap();
    db.flush().unwrap();

    assert_eq!(db.depth(), 1);
    let stream = db.layers()[0].stream().clone();
    let loaded = Layer::load(stream).unwrap();
    assert!(!loaded.is_heap());
    assert_eq!(*loaded.bounds(), Some(0..12));
    assert_eq!(loaded.size(), 6);
    assert_eq!(loaded.check_collisions(0..u64::MAX).unwrap(), vec![0..4, 10..12]);
}

#[test]
fn collision_splits_layer() {
    let mut db = StackDB::new(SkdbMemAlloc).unwrap();
    db.write(0, &[0xAA; 5]).unwrap();
    db.write(2, &[0xBB, 0xBB]).unwrap();

    assert_eq!(db.depth(), 2);
    assert!(db.is_open());
    assert!(!db.layers()[0].is_heap());
    assert!(db.layers()[1].is_heap());
    assert_eq!(db.read(0..5).unwrap(), vec![0xAA, 0xAA, 0xBB, 0xBB, 0xAA]);
}

#[test]
fn write_inside_a_segment_opens_a_new_layer() {
    let mut db = StackDB::new(SkdbMemAlloc).unwrap();
    db.write(100, &[1, 2, 3, 4, 5, 6]).unwrap();
    assert_eq!(db.depth(), 1);
    db.write(102, &[7]).unwrap();
    assert_eq!(db.depth(), 2);
    assert_eq!(*db.layers()[0].bounds(), Some(100..106));
    assert_eq!(*db.layers()[1].bounds(), Some(102..103));
    assert_eq!(db.read(100..106).unwrap(), vec![1, 2, 7, 4, 5, 6]);
}

#[test]
fn write_over_the_edge_of_a_segment_fills_the_gap_below() {
    let mut db = StackDB::new(SkdbMemAlloc).unwrap();
    db.write(10, &[1, 1, 1, 1]).unwrap();
    db.write(12, &[2, 2, 2, 2]).unwrap();

    // the free addresses 14..16 went to the first layer, the held ones above it
    assert_eq!(db.depth(), 2);
    assert_eq!(*db.layers()[0].bounds(), Some(10..16));
    assert_eq!(db.layers()[0].size(), 6);
    assert_eq!(*db.layers()[1].bounds(), Some(12..14));
    assert_eq!(db.read(10..16).unwrap(), vec![1, 1, 2, 2, 2, 2]);
}

#[test]
fn newest_layer_wins() {
    let mut db = StackDB::new(SkdbMemAlloc).unwrap();
    db.write(0, &[1, 2, 3, 4]).unwrap();
    db.flush().unwrap();
    db.write(1, &[9, 9]).unwrap();
    db.flush().unwrap();
    db.write(2, &[5]).unwrap();
    db.flush().unwrap();

    assert_eq!(db.depth(), 3);
    assert_eq!(db.read(0..4).unwrap(), vec![1, 9, 5, 4]);
}

#[test]
fn uncovered_read_returns_zeros() {
    let mut db = StackDB::new(SkdbMemAlloc).unwrap();
    assert_eq!(db.read(100..104).unwrap(), vec![0, 0, 0, 0]);
}

#[test]
fn read_fills_gaps_between_layers_with_zeros() {
    let mut db = StackDB::new(SkdbMemAlloc).unwrap();
    db.write(2, &[7, 7]).unwrap();
    db.flush().unwrap();
    db.write(6, &[8]).unwrap();
    assert_eq!(db.read(0..8).unwrap(), vec![0, 0, 7, 7, 0, 0, 8, 0]);
}

#[test]
fn zero_length_read_is_empty() {
    let mut db = StackDB::new(SkdbMemAlloc).unwrap();
    db.write(5, &[1, 2, 3]).unwrap();
    assert_eq!(db.read(6..6).unwrap(), Vec::<u8>::new());
    assert_eq!(db.read(9..3).unwrap(), Vec::<u8>::new());
}

#[test]
fn empty_write_is_a_no_op() {
    let mut db = StackDB::new(SkdbMemAlloc).unwrap();
    db.write(7, &[]).unwrap();
    assert_eq!(db.depth(), 0);
    assert!(!db.is_open());

    db.write(7, &[1]).unwrap();
    db.write(7, &[]).unwrap();
    assert_eq!(db.depth(), 1);
    assert_eq!(db.read(7..8).unwrap(), vec![1]);
}

#[test]
fn flush_closes_the_stack() {
    let mut db = StackDB::new(SkdbMemAlloc).unwrap();
    db.flush().unwrap();
    assert_eq!(db.depth(), 0);

    db.write(3, &[1]).unwrap();
    assert!(db.is_open());
    db.flush().unwrap();
    assert!(!db.is_open());
    assert_eq!(db.depth(), 1);
    assert!(!db.layers()[0].is_heap());

    // a second flush finds nothing to do
    db.flush().unwrap();
    assert_eq!(db.depth(), 1);
}

#[test]
fn rebase_fuses_the_stack() {
    let mut db = StackDB::new(SkdbMemAlloc).unwrap();
    db.write(10, &[1, 1, 1, 1]).unwrap();
    db.flush().unwrap();
    db.write(12, &[2, 2, 2, 2]).unwrap();
    db.flush().unwrap();
    db.write(20, &[3]).unwrap();
    assert_eq!(db.depth(), 3);

    let before = db.read(10..21).unwrap();
    db.rebase(4).unwrap();

    // the extent 10..21 in pieces of four bytes
    assert_eq!(db.depth(), 3);
    assert!(!db.is_open());
    assert_eq!(*db.layers()[0].bounds(), Some(10..14));
    assert_eq!(*db.layers()[1].bounds(), Some(14..18));
    assert_eq!(*db.layers()[2].bounds(), Some(18..21));
    assert_eq!(db.read(10..21).unwrap(), before);
    assert_eq!(before, vec![1, 1, 2, 2, 2, 2, 0, 0, 0, 0, 3]);
}

#[test]
fn rebase_twice_gives_the_same_image() {
    let mut db = StackDB::new(SkdbMemAlloc).unwrap();
    db.write(0, b"abcdef").unwrap();
    db.write(2, b"XY").unwrap();
    db.flush().unwrap();
    db.write(8, b"z").unwrap();

    db.rebase(256).unwrap();
    let first: Vec<Vec<u8>> = db.layers().iter().map(|l| l.stream().clone()).collect();
    let shown = db.read(0..9).unwrap();

    db.rebase(256).unwrap();
    let second: Vec<Vec<u8>> = db.layers().iter().map(|l| l.stream().clone()).collect();

    assert_eq!(first, second);
    assert_eq!(db.read(0..9).unwrap(), shown);
    assert_eq!(shown, b"abXYef\0\0z".to_vec());
}

#[test]
fn rebase_of_an_empty_stack_is_a_no_op() {
    let mut db = StackDB::new(SkdbMemAlloc).unwrap();
    db.rebase(16).unwrap();
    assert_eq!(db.depth(), 0);
}

#[test]
fn stack_over_stored_layers() {
    let mut lower = Layer::new(Vec::new());
    lower.write_unchecked(0, std::borrow::Cow::Borrowed(&[1, 2, 3])).unwrap();
    lower.flush().unwrap();
    let mut upper = Layer::new(Vec::new());
    upper.write_unchecked(1, std::borrow::Cow::Borrowed(&[9])).unwrap();
    upper.flush().unwrap();

    let mut db = StackDB::with_layers(SkdbMemAlloc, vec![lower, upper]);
    assert_eq!(db.depth(), 2);
    assert!(!db.is_open());
    assert_eq!(db.read(0..3).unwrap(), vec![1, 9, 3]);
}

#[test]
fn corrupt_layer_fails_the_read_that_reaches_it() {
    // a header that announces four payload bytes under bounds 0..4, and no segment
    let mut image = Vec::new();
    for field in [4u64, 0, 4] {
        image.extend_from_slice(&field.to_be_bytes());
    }
    let broken = Layer::load(image).unwrap();
    let mut upper = Layer::new(Vec::new());
    upper.write_unchecked(0, std::borrow::Cow::Borrowed(&[7, 7])).unwrap();
    upper.flush().unwrap();

    let mut db = StackDB::with_layers(SkdbMemAlloc, vec![broken, upper]);
    // wholly held by the layer above
    assert_eq!(db.read(0..2).unwrap(), vec![7, 7]);
    // reaches the broken layer
    match db.read(0..4) {
        Err(Error::DBCorrupt(inner)) => assert!(matches!(*inner, Error::InvalidLayer)),
        other => panic!("expected a corrupt layer, got {:?}", other),
    }
    match db.rebase(8) {
        Err(Error::DBCorrupt(inner)) => assert!(matches!(*inner, Error::InvalidLayer)),
        other => panic!("expected a corrupt layer, got {:?}", other),
    }
    // the stack still shows what it showed
    assert_eq!(db.read(0..2).unwrap(), vec![7, 7]);
}

/// Gives out a set number of layers, then fails.
struct Stingy {
    left: usize,
    dropped: usize,
}

impl<'l> Allocator<'l> for Stingy {
    fn load_layers(&self) -> Result<Vec<Layer<'l>>, Error> {
        Ok(Vec::new())
    }

    fn add_layer(&mut self) -> Result<Layer<'l>, Error> {
        if self.left == 0 {
            return Err(Error::Custom(String::from("no room")));
        }
        self.left -= 1;
        Ok(Layer::new(Vec::new()))
    }

    fn drop_top_layer(&mut self) -> Result<(), Error> {
        self.dropped += 1;
        Ok(())
    }

    fn rebase(&mut self, _top_layer: usize) -> Result<(), Error> {
        Ok(())
    }
}

#[test]
fn allocator_failure_is_passed_on() {
    let mut db = StackDB::new(Stingy { left: 0, dropped: 0 }).unwrap();
    assert!(matches!(db.write(0, &[1]), Err(Error::Custom(_))));
    assert_eq!(db.depth(), 0);

    let mut db = StackDB::new(Stingy { left: 1, dropped: 0 }).unwrap();
    db.write(0, &[1, 1, 1]).unwrap();
    // free bytes still go to the open layer
    db.write(3, &[2]).unwrap();
    // held bytes need a new layer, which is not to be had
    assert!(matches!(db.write(0, &[5, 5, 5, 5, 5]), Err(Error::Custom(_))));
    // the first half of the write is done: the gap is filled and the layer sealed
    assert_eq!(db.depth(), 1);
    assert!(!db.is_open());
    assert_eq!(db.read(0..5).unwrap(), vec![1, 1, 1, 2, 5]);
    assert_eq!(db.allocator().dropped, 0);
}

/// Keeps a record of what it is asked to do.
struct Recorder {
    asked: Vec<String>,
}

impl<'l> Allocator<'l> for Recorder {
    fn load_layers(&self) -> Result<Vec<Layer<'l>>, Error> {
        Ok(Vec::new())
    }

    fn add_layer(&mut self) -> Result<Layer<'l>, Error> {
        self.asked.push(String::from("add"));
        Ok(Layer::new(Vec::new()))
    }

    fn drop_top_layer(&mut self) -> Result<(), Error> {
        self.asked.push(String::from("drop"));
        Ok(())
    }

    fn rebase(&mut self, top_layer: usize) -> Result<(), Error> {
        self.asked.push(format!("rebase {}", top_layer));
        Ok(())
    }
}

#[test]
fn allocator_is_asked_when_layers_come_and_go() {
    let mut db = StackDB::new(Recorder { asked: Vec::new() }).unwrap();
    db.write(0, &[]).unwrap();
    db.flush().unwrap();
    assert_eq!(db.allocator().asked.len(), 0);

    db.write(0, &[1, 1, 1, 1]).unwrap();
    db.write(4, &[2]).unwrap();
    db.flush().unwrap();
    db.flush().unwrap();
    assert_eq!(db.read(0..5).unwrap(), vec![1, 1, 1, 1, 2]);
    assert_eq!(db.allocator().asked, vec!["add"]);

    // a closed stack opens a new layer, which holds nothing yet
    db.write(2, &[3, 3, 3, 3]).unwrap();
    assert_eq!(db.allocator().asked, vec!["add", "add"]);
    // the open layer holds some of these bytes: it is sealed and a new one opened
    db.write(5, &[4, 4]).unwrap();
    assert_eq!(db.allocator().asked, vec!["add", "add", "add"]);
    assert_eq!(db.depth(), 3);

    // seven bytes in pieces of four: two new layers, then the three old ones go
    db.rebase(4).unwrap();
    assert_eq!(
        db.allocator().asked,
        vec!["add", "add", "add", "add", "add", "rebase 3"]
    );
    assert_eq!(db.depth(), 2);
    assert_eq!(db.read(0..7).unwrap(), vec![1, 1, 3, 3, 3, 4, 4]);
}

#[test]
fn rebase_reads_before_it_asks_for_a_layer() {
    let mut image = Vec::new();
    for field in [4u64, 0, 4] {
        image.extend_from_slice(&field.to_be_bytes());
    }
    let broken = Layer::load(image).unwrap();
    let mut db = StackDB::with_layers(Recorder { asked: Vec::new() }, vec![broken]);
    assert!(matches!(db.rebase(2), Err(Error::DBCorrupt(_))));
    assert_eq!(db.allocator().asked.len(), 0);
    assert_eq!(db.depth(), 1);
}
