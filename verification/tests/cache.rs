use std::cell::RefCell;
use std::rc::Rc;
use zsqlite::cache::{CacheCapacity, HandleIoStats, PageCache};
use zsqlite::domain::{
    BackendId, DatabaseId, HistoryHash, LineageId, LogicalBytes, PageNumber, PageSize, TransactionId,
};
use zsqlite::error::StoreError;
use zsqlite::memory::MemoryBackend;
use zsqlite::order::{OrderedMap, OrderedSet};
use zsqlite::pinned::PinnedView;
use zsqlite::retention::pin;
use zsqlite::seal::{seal, LayoutPolicy, ManifestMode, SealEndpoint};
use zsqlite::slots::{slot_layout, SlotFile, SlotFiles};
use zsqlite::state::State;

#[derive(Default)]
struct Disk {
    bytes: Vec<u8>,
    writes: Vec<u64>,
    punches: usize,
    fail_punch: bool,
    files: usize,
}

#[derive(Clone, Default)]
struct Files {
    disk: Rc<RefCell<Disk>>,
}

struct OneFile {
    disk: Rc<RefCell<Disk>>,
}

impl SlotFile for OneFile {
    fn block_bytes(&self) -> u64 {
        4096
    }
    fn available_bytes(&self) -> u64 {
        1 << 30
    }
    fn set_len(&mut self, length: u64) -> Result<(), StoreError> {
        self.disk.borrow_mut().bytes.resize(length as usize, 0);
        Ok(())
    }
    fn write(&mut self, offset: u64, bytes: &[u8]) -> Result<(), StoreError> {
        let mut disk = self.disk.borrow_mut();
        disk.writes.push(offset);
        let start = offset as usize;
        disk.bytes[start..start + bytes.len()].copy_from_slice(bytes);
        Ok(())
    }
    fn read(&mut self, offset: u64, length: usize) -> Result<Vec<u8>, StoreError> {
        let disk = self.disk.borrow();
        let start = offset as usize;
        match disk.bytes.get(start..start + length) {
            Some(bytes) => Ok(bytes.to_vec()),
            None => Err(StoreError::Range),
        }
    }
    fn punch(&mut self, _offset: u64, _length: u64) -> Result<(), StoreError> {
        let mut disk = self.disk.borrow_mut();
        disk.punches += 1;
        if disk.fail_punch {
            Err(StoreError::Range)
        } else {
            Ok(())
        }
    }
}

impl SlotFiles for Files {
    type File = OneFile;

    fn create(&mut self) -> Result<OneFile, StoreError> {
        let mut disk = self.disk.borrow_mut();
        disk.bytes.clear();
        disk.files += 1;
        Ok(OneFile {
            disk: Rc::clone(&self.disk),
        })
    }}

fn page(value: u8, size: usize) -> Vec<u8> {
    vec![value; size]
}

fn number(value: u32) -> PageNumber {
    PageNumber::new(value).unwrap()
}

fn nothing() -> OrderedSet<PageNumber> {
    OrderedSet::new()
}

struct Fixture {
    backend: MemoryBackend,
    state: State,
    size: usize,
    txid: u64,
}

impl Fixture {
    fn new(size: usize) -> (Fixture, PinnedView) {
        let mut backend = MemoryBackend::with_identity(BackendId::from_bytes([1; 32]));
        let state = State::load_for(&mut backend, b"main").unwrap();
        let mut fixture = Fixture {
            backend,
            state,
            size,
            txid: 0,
        };
        let view = fixture.seal(None, &[(1, 1), (2, 2), (3, 3)]);
        (fixture, view)
    }

    fn seal(&mut self, source: Option<&PinnedView>, writes: &[(u32, u8)]) -> PinnedView {
        self.txid += 1;
        let size = PageSize::new(self.size as u32).unwrap();
        let txid = TransactionId::new(self.txid).unwrap();
        let endpoint = SealEndpoint {
            database: DatabaseId::from_bytes([7; 32]),
            lineage: LineageId::from_bytes([3; 32]),
            size: LogicalBytes::new(3 * self.size as u64, size).unwrap(),
            txid,
            history: HistoryHash::from_bytes([self.txid as u8; 32]),
            truncate: None,
        };
        let mut changes = Vec::new();
        let mut contents = OrderedMap::new();
        for (at, value) in writes {
            changes.push((number(*at), txid));
            contents.insert(number(*at), page(*value, self.size));
        }
        let layout = LayoutPolicy {
            level: 3,
            pack_target: 1 << 20,
            frame_bytes: 256 * 1024,
            maintenance_input: 1 << 20,
        };
        let sealed = seal(
            &mut self.backend,
            &mut self.state,
            source,
            &endpoint,
            &changes,
            &contents,
            &layout,
            ManifestMode::Incremental,
            None,
        )
        .unwrap();
        pin(&mut self.backend, &self.state, sealed.id()).unwrap()
    }
}

#[test]
fn invalidation_recycles_only_its_slot_even_when_punching_fails() {
    for size in [512, 1024, 2048, 4096, 8192, 16384, 32768, 65536] {
        let (mut fixture, view) = Fixture::new(size);
        for fail_punch in [false, true] {
            let files = Files::default();
            let disk = Rc::clone(&files.disk);
            let mut cache = PageCache::new(files, CacheCapacity::Fixed(512 * 1024)).unwrap();
            let mut io = HandleIoStats::default();
            let backend = &mut fixture.backend;
            cache
                .read(backend, &view, number(1), &mut io, &nothing())
                .unwrap();
            let slot = disk
                .borrow()
                .writes
                .iter()
                .copied()
                .find(|start| disk.borrow().bytes[*start as usize] == 2)
                .unwrap();
            let length = disk.borrow().bytes.len();
            let resident = cache.stats().resident_bytes;
            disk.borrow_mut().fail_punch = fail_punch;
            cache.invalidate(number(2));
            assert_eq!(disk.borrow().punches, 1);
            assert_eq!(cache.stats().resident_bytes, resident / 3 * 2);
            assert_eq!(disk.borrow().bytes.len(), length);
            let hits = io.cache_hits;
            for at in [1, 3] {
                assert_eq!(
                    cache
                        .read(backend, &view, number(at), &mut io, &nothing())
                        .unwrap(),
                    page(at as u8, size)
                );
            }
            assert_eq!(
                io.cache_hits - hits,
                2,
                "failed punching must keep neighboring cache entries"
            );
            assert_eq!(
                cache
                    .read(backend, &view, number(2), &mut io, &nothing())
                    .unwrap(),
                page(2, size)
            );
            assert_eq!(disk.borrow().writes.last(), Some(&slot));
            assert_eq!(disk.borrow().bytes.len(), length);
        }
    }
}

#[test]
fn oversized_frames_and_lru_reuse_never_exceed_the_file_cap() {
    let (mut fixture, view) = Fixture::new(4096);
    let files = Files::default();
    let disk = Rc::clone(&files.disk);
    let mut cache = PageCache::new(files, CacheCapacity::Fixed(4096)).unwrap();
    let mut io = HandleIoStats::default();
    for at in [1, 2, 3, 2, 1] {
        let backend = &mut fixture.backend;
        cache
            .read(backend, &view, number(at), &mut io, &nothing())
            .unwrap();
        assert!(disk.borrow().bytes.len() <= 4096);
        assert!(cache.stats().resident_bytes <= 4096);
        let before = io.cache_hits;
        cache
            .read(backend, &view, number(at), &mut io, &nothing())
            .unwrap();
        assert_eq!(io.cache_hits, before + 1);
    }
    assert_eq!(disk.borrow().punches, 0);
    cache.set_budget(CacheCapacity::Fixed(0)).unwrap();
    assert_eq!(cache.stats().resident_bytes, 0);
}

#[test]
fn cached_payload_corruption_and_truncation_refetch_verified_source() {
    let (mut fixture, view) = Fixture::new(4096);
    for truncate in [false, true] {
        let files = Files::default();
        let disk = Rc::clone(&files.disk);
        let mut cache = PageCache::new(files, CacheCapacity::Fixed(65536)).unwrap();
        let mut io = HandleIoStats::default();
        let backend = &mut fixture.backend;
        cache
            .read(backend, &view, number(1), &mut io, &nothing())
            .unwrap();
        if truncate {
            disk.borrow_mut().bytes.clear();
        } else {
            disk.borrow_mut().bytes.fill(0);
        }
        assert_eq!(
            cache
                .read(backend, &view, number(1), &mut io, &nothing())
                .unwrap(),
            page(1, 4096)
        );
        assert_eq!(io.cache_misses, 2);
        // The cache is given up: the file is not written again.
        let writes = disk.borrow().writes.len();
        assert_eq!(cache.stats().resident_bytes, 0);
        cache
            .read(backend, &view, number(2), &mut io, &nothing())
            .unwrap();
        assert_eq!(disk.borrow().writes.len(), writes);
        assert_eq!(disk.borrow().files, 1);
    }
}

#[test]
fn frame_prefetch_excludes_obsolete_and_active_shadowed_pages() {
    let (mut fixture, old) = Fixture::new(4096);
    let current = fixture.seal(Some(&old), &[(2, 9)]);
    let mut cache = PageCache::new(Files::default(), CacheCapacity::Fixed(65536)).unwrap();
    let mut io = HandleIoStats::default();
    let backend = &mut fixture.backend;
    cache
        .read(backend, &current, number(1), &mut io, &nothing())
        .unwrap();
    // The obsolete slot in the old frame is not cached.
    assert_eq!(cache.stats().resident_bytes, 2 * 4096);
    let misses = io.cache_misses;
    assert_eq!(
        cache
            .read(backend, &current, number(2), &mut io, &nothing())
            .unwrap(),
        page(9, 4096)
    );
    assert_eq!(io.cache_misses, misses + 1);
    cache
        .read(backend, &old, number(1), &mut io, &nothing())
        .unwrap();
    cache.invalidate(number(2));
    cache.invalidate(number(3));
    let mut shadowed = nothing();
    shadowed.insert(number(2));
    cache
        .read(backend, &old, number(3), &mut io, &shadowed)
        .unwrap();
    // A neighbor's miss does not refill a page that was written since.
    assert_eq!(cache.stats().resident_bytes, 2 * 4096);
    let misses = io.cache_misses;
    cache
        .read(backend, &old, number(2), &mut io, &nothing())
        .unwrap();
    assert_eq!(io.cache_misses, misses + 1);
}

#[test]
fn many_pages_are_read_in_the_order_asked_for() {
    let (mut fixture, view) = Fixture::new(4096);
    let mut cache = PageCache::new(Files::default(), CacheCapacity::Adaptive).unwrap();
    let mut io = HandleIoStats::default();
    let asked = vec![number(3), number(1), number(2), number(1)];
    let read = cache
        .read_many(&mut fixture.backend, &view, &asked, &mut io, &nothing())
        .unwrap();
    assert_eq!(
        read,
        vec![page(3, 4096), page(1, 4096), page(2, 4096), page(1, 4096)]
    );
    assert!(matches!(
        cache.read_many(
            &mut fixture.backend,
            &view,
            &vec![number(4)],
            &mut io,
            &nothing()
        ),
        Err(StoreError::Range)
    ));
}

#[test]
fn slots_take_whole_blocks() {
    let size = PageSize::new(512).unwrap();
    assert_eq!(slot_layout(size, 4096, 10000), Ok((4096, 2)));
    assert_eq!(slot_layout(size, 512, 10000), Ok((512, 19)));
    assert_eq!(slot_layout(size, 300, 1000), Ok((600, 1)));
    assert_eq!(slot_layout(size, 0, 1000), Err(StoreError::Range));
    assert_eq!(
        slot_layout(PageSize::new(65536).unwrap(), 4096, 0),
        Ok((65536, 0))
    );
}

#[test]
fn an_adaptive_cache_takes_a_fifth_and_leaves_half() {
    assert_eq!(CacheCapacity::Fixed(7).resolve(100, 10), 7);
    assert_eq!(CacheCapacity::Adaptive.resolve(1000, 1000), 200);
    assert_eq!(CacheCapacity::Adaptive.resolve(1000, 300), 150);
    assert_eq!(CacheCapacity::Adaptive.resolve(1004, u64::MAX), 200);
    assert_eq!(CacheCapacity::Adaptive.resolve(0, u64::MAX), 0);
}
