use std::cell::RefCell;
use std::collections::BTreeMap;
use std::rc::Rc;
use zsqlite::adapter::{
    write_all, BackendError, DeletePermit, ObjectKey, ObjectRange, Publication, Revision,
    RootRecord, StorageBackend,
};
use zsqlite::blob::BlobIndex;
use zsqlite::collect::{collect, destroy};
use zsqlite::digest::hash;
use zsqlite::domain::{
    AttachmentId, BackendId, DatabaseId, FileOffset, FrameId, HistoryHash, LineageId,
    LogicalBytes, ManifestId, PackId, PackOffset, PageNumber, PageSize, StoredBytes, StoredRange,
    TransactionId,
};
use zsqlite::driver::{Driver, DriverWriter, Hosted};
use zsqlite::error::StoreError;
use zsqlite::faults::{BackendStatistics, Fault, FaultBackend, Operation};
use zsqlite::fetch::read_all;
use zsqlite::format::{ActiveHeader, FRAME_HEADER_SIZE};
use zsqlite::frame::DecodingDictionary;
use zsqlite::handle::{bootstrap, check_vacant, claim, fork, heads, pagefile, remove_head, settle, HEAD_EXISTS};
use zsqlite::holdings::{all_objects, logical_length};
use zsqlite::keys::CatalogKey;
use zsqlite::memory::MemoryBackend;
use zsqlite::objects::{
    claim_namespace, commit_namespace, finish_seal, install_dictionary, local_attachment_record,
    prepare_seal, recover_seal, validate_attachment, LocalAttachment,
};
use zsqlite::order::{OrderedMap, OrderedSet};
use zsqlite::pinned::PinnedView;
use zsqlite::placement::PackRange;
use zsqlite::publication::{checkpoint_manifest, DurableView, ManifestBuilder};
use zsqlite::relocate::{relocate, RelocationReport};
use zsqlite::repack::{
    build_candidate, eligible_pack, inventory, repack, PackOccupancy, RepackWork,
};
use zsqlite::report::GcReport;
use zsqlite::retention::{
    open_retained, pin, read_root, release, retain, root_names, DurablePin, RetentionName,
};
use zsqlite::run::MAX_RUN_DEPTH;
use zsqlite::samples::{SampleBudget, Samples};
use zsqlite::seal::{seal, train, LayoutPolicy, ManifestMode, SealEndpoint};
use zsqlite::state::State;
use zsqlite::text::hex;
use zsqlite::trace::{dependencies_of, reachable_packs, Lease, LocalRoots};

const PAGE_BYTES: usize = 4096;
const PATH: &[u8] = b"/active";

fn page(value: u8) -> Vec<u8> {
    let mut bytes = vec![value; PAGE_BYTES];
    bytes[..16].copy_from_slice(b"SQLite format 3\0");
    bytes[16..18].copy_from_slice(&4096_u16.to_be_bytes());
    bytes
}

fn noise(seed: u32) -> Vec<u8> {
    let mut state = seed.wrapping_mul(2654435761) | 1;
    (0..PAGE_BYTES)
        .map(|_| {
            state ^= state << 13;
            state ^= state >> 17;
            state ^= state << 5;
            state.to_le_bytes()[0]
        })
        .collect()
}

fn number(value: u32) -> PageNumber {
    PageNumber::new(value).unwrap()
}

fn layout() -> LayoutPolicy {
    LayoutPolicy {
        level: 3,
        pack_target: 1 << 20,
        frame_bytes: 2 * PAGE_BYTES,
        maintenance_input: 1 << 20,
    }
}

/// A frame for each page.
fn pages() -> LayoutPolicy {
    LayoutPolicy {
        frame_bytes: PAGE_BYTES,
        ..layout()
    }
}

fn database() -> DatabaseId {
    DatabaseId::from_bytes([7; 32])
}

fn accepted() -> OrderedSet<Vec<u8>> {
    let mut set = OrderedSet::new();
    set.insert(vec![5; 32]);
    set
}

fn memory() -> MemoryBackend {
    MemoryBackend::with_identity(BackendId::from_bytes([1; 32]))
}

/// A database on one head of a namespace. Writes stay in memory until a seal.
struct Store {
    head: Vec<u8>,
    attachment: [u8; 32],
    layout: LayoutPolicy,
    bytes: Vec<u8>,
    txid: u64,
    dirty: BTreeMap<u32, u64>,
    truncated: Option<u32>,
    header: Option<ActiveHeader>,
    readers: Vec<PinnedView>,
}

fn create<B: StorageBackend>(backend: &mut B, layout: LayoutPolicy) -> Store {
    let mut state = State::load_for(backend, b"main").unwrap();
    let attachment = [9; 32];
    commit_namespace(
        backend,
        &mut state,
        database(),
        AttachmentId::from_bytes(attachment),
    )
    .unwrap();
    Store {
        head: b"main".to_vec(),
        attachment,
        layout,
        bytes: Vec::new(),
        txid: 0,
        dirty: BTreeMap::new(),
        truncated: None,
        header: None,
        readers: Vec::new(),
    }
}

impl Store {
    fn state<B: StorageBackend>(&self, backend: &mut B) -> State {
        State::load_for(backend, &self.head).unwrap()
    }

    fn write_at(&mut self, offset: usize, bytes: &[u8]) {
        self.txid += 1;
        if self.bytes.len() < offset + bytes.len() {
            self.bytes.resize(offset + bytes.len(), 0);
        }
        self.bytes[offset..offset + bytes.len()].copy_from_slice(bytes);
        for index in offset / PAGE_BYTES..(offset + bytes.len()).div_ceil(PAGE_BYTES) {
            self.dirty.insert(index as u32 + 1, self.txid);
        }
    }

    fn truncate(&mut self, length: usize) {
        self.txid += 1;
        let count = (length / PAGE_BYTES) as u32;
        if length < self.bytes.len() {
            self.truncated = Some(self.truncated.map_or(count, |last| last.min(count)));
            self.dirty.retain(|page, _| *page <= count);
        }
        self.bytes.resize(length, 0);
    }

    fn endpoint(&self) -> SealEndpoint {
        let size = PageSize::new(PAGE_BYTES as u32).unwrap();
        SealEndpoint {
            database: database(),
            lineage: LineageId::from_bytes([3; 32]),
            size: LogicalBytes::new(self.bytes.len() as u64, size).unwrap(),
            txid: TransactionId::new(self.txid).unwrap(),
            history: HistoryHash::from_bytes([self.txid as u8; 32]),
            truncate: self.truncated,
        }
    }

    fn local<'a>(&self, home: BackendId, record: &'a Vec<u8>) -> LocalAttachment<'a> {
        LocalAttachment {
            found: Some(record),
            home,
            path: PATH,
        }
    }

    fn record<B: StorageBackend>(&self, backend: &B) -> Vec<u8> {
        local_attachment_record(&backend.identity(), &self.attachment, PATH)
    }

    fn current<B: StorageBackend>(&self, backend: &mut B) -> PinnedView {
        let state = self.state(backend);
        let id = ManifestId::from_bytes(self.header.unwrap().parent_physical_digest);
        pin(backend, &state, id).unwrap()
    }

    fn changed(
        &self,
    ) -> (
        Vec<(PageNumber, TransactionId)>,
        OrderedMap<PageNumber, Vec<u8>>,
    ) {
        let mut changes = Vec::new();
        let mut contents = OrderedMap::new();
        for (at, txid) in &self.dirty {
            let start = (*at as usize - 1) * PAGE_BYTES;
            changes.push((number(*at), TransactionId::new(*txid).unwrap()));
            contents.insert(number(*at), self.bytes[start..start + PAGE_BYTES].to_vec());
        }
        (changes, contents)
    }

    fn try_seal<B: StorageBackend>(
        &mut self,
        backend: &mut B,
        mode: ManifestMode,
        dictionary: Option<Vec<u8>>,
    ) -> Result<ManifestId, StoreError> {
        let mut state = State::load_for(backend, &self.head)?;
        let source = match self.header {
            Some(header) => Some(pin(
                backend,
                &state,
                ManifestId::from_bytes(header.parent_physical_digest),
            )?),
            None => None,
        };
        let (changes, contents) = self.changed();
        let durable = seal(
            backend,
            &mut state,
            source.as_ref(),
            &self.endpoint(),
            &changes,
            &contents,
            &self.layout,
            mode,
            dictionary,
        )?;
        self.adopt(backend, &mut state, &durable)?;
        self.dirty.clear();
        self.truncated = None;
        Ok(durable.id())
    }

    /// Seals what was written since the last seal, if anything was.
    fn seal<B: StorageBackend>(&mut self, backend: &mut B) -> ManifestId {
        match self.header {
            Some(header) if header.start_txid == self.txid + 1 => {
                ManifestId::from_bytes(header.parent_physical_digest)
            }
            _ => self.try_seal(backend, ManifestMode::Incremental, None).unwrap(),
        }
    }

    /// Lets the head stand at what was sealed.
    fn adopt<B: StorageBackend>(
        &mut self,
        backend: &mut B,
        state: &mut State,
        sealed: &DurableView,
    ) -> Result<(), StoreError> {
        let first = ActiveHeader {
            database_id: [7; 32],
            attachment_id: self.attachment,
            base_history: [0; 32],
            parent_physical_digest: [0; 32],
            start_txid: 1,
            base_logical_size: 0,
            page_size: PAGE_BYTES as u32,
            policy: [5; 32],
        };
        let header = sealed.continued(&self.header.unwrap_or(first))?;
        let (_, size, txid, history) = sealed.endpoint();
        assert_eq!(header.base_history, *history.as_bytes());
        assert_eq!(header.parent_physical_digest, *sealed.id().as_bytes());
        assert_eq!(header.start_txid, txid.get() + 1);
        assert_eq!(header.base_logical_size, size.get());
        assert_eq!(header.attachment_id, self.attachment);
        let record = self.record(backend);
        let local = self.local(backend.identity(), &record);
        prepare_seal(backend, state, &header, &local)?;
        finish_seal(backend, state, &header, &local)?;
        self.header = Some(header);
        Ok(())
    }

    /// The leases of the readers: on their views, on what these depend on, and on
    /// the blobs that they read.
    fn leases(&self) -> (Vec<Lease>, Vec<Lease>, Vec<Lease>) {
        let mut views = Vec::new();
        let mut objects = Vec::new();
        let mut physical = Vec::new();
        for view in &self.readers {
            views.push(Lease {
                name: hex(&view.id()),
                busy: true,
            });
            let keys = dependencies_of(view.id(), view.metadata());
            for index in 0..keys.len() {
                objects.push(Lease {
                    name: keys.at(index).lease_name().unwrap(),
                    busy: true,
                });
            }
            let held = view.placement().object_lengths();
            for index in 0..held.len() {
                physical.push(Lease {
                    name: held.key_at(index).name(),
                    busy: true,
                });
            }
        }
        (views, objects, physical)
    }

    fn try_collect<B: StorageBackend>(
        &self,
        backend: &mut B,
        budget: usize,
    ) -> Result<GcReport, StoreError> {
        let mut state = State::load_for(backend, &self.head)?;
        let active = self.header.map(|header| header.encode());
        let set = accepted();
        let record = self.record(backend);
        let (readers, objects, physical) = self.leases();
        let local = LocalRoots {
            active: active.as_ref(),
            attachment: self.local(backend.identity(), &record),
            accepted: &set,
            readers: &readers,
            objects: &objects,
        };
        collect(backend, &mut state, &local, &physical, budget)
    }

    fn collect<B: StorageBackend>(&self, backend: &mut B) -> GcReport {
        self.try_collect(backend, usize::MAX).unwrap()
    }

    /// Rewrites the packs for which that pays, and collects.
    fn try_repack<B: StorageBackend>(
        &mut self,
        backend: &mut B,
        budget: usize,
    ) -> Result<(usize, RepackWork, GcReport), StoreError> {
        let mut state = State::load_for(backend, &self.head)?;
        let id = ManifestId::from_bytes(self.header.unwrap().parent_physical_digest);
        let view = pin(backend, &state, id)?;
        let (readers, _, _) = self.leases();
        let (packs, work) =
            match repack(backend, &mut state, &readers, &view, &self.layout, None)? {
                None => (
                    0,
                    RepackWork {
                        copied_frames: 0,
                        copied_bytes: 0,
                        decoded: 0,
                    },
                ),
                Some((candidate, packs)) => {
                    let work = candidate.work();
                    let (durable, decoded) = candidate.revalidate(&view)?;
                    assert_eq!(decoded.get(), work.decoded);
                    self.adopt(backend, &mut state, &durable)?;
                    (packs.len(), work)
                }
            };
        Ok((packs, work, self.try_collect(backend, budget)?))
    }

    fn repack<B: StorageBackend>(&mut self, backend: &mut B) -> (usize, RepackWork, GcReport) {
        self.try_repack(backend, usize::MAX).unwrap()
    }

    /// Closes the head and opens it again. What was not sealed yet stays in the
    /// pagefile.
    fn reopen<B: StorageBackend>(&mut self, backend: &mut B) {
        let mut state = State::load_for(backend, &self.head).unwrap();
        let header = self.header.unwrap();
        let record = self.record(backend);
        let local = self.local(backend.identity(), &record);
        validate_attachment(&state, &header, &local).unwrap();
        recover_seal(backend, &mut state, &header, &local).unwrap();
        assert_eq!(state.sealed, Some(header));
        assert!(!state.has_pending().unwrap());
    }

    /// Reads the pages: those written since the last seal from memory, the others
    /// from what was sealed.
    fn check<B: StorageBackend>(&self, backend: &mut B) {
        if self.header.is_none() {
            return;
        }
        let view = self.current(backend);
        for (index, bytes) in self.bytes.chunks_exact(PAGE_BYTES).enumerate() {
            let at = index as u32 + 1;
            let shadowed = self.dirty.contains_key(&at)
                || self.truncated.is_some_and(|last| at > last)
                || u64::from(at) * PAGE_BYTES as u64 > view.logical_size().get();
            if !shadowed {
                let read = view.resolve(number(at)).unwrap().read(backend).unwrap();
                assert!(read == bytes, "page {at}");
            }
        }
        view.verify(backend).unwrap();
    }

    fn occupancy<B: StorageBackend>(&self, backend: &mut B) -> Vec<PackOccupancy> {
        let view = self.current(backend);
        inventory(backend, &view).unwrap()
    }

    fn sparse<B: StorageBackend>(&self, backend: &mut B) -> Vec<PackId> {
        self.occupancy(backend)
            .into_iter()
            .filter(|pack| pack.live_pages * 2 < pack.total_pages)
            .map(|pack| pack.pack)
            .collect()
    }
}

fn assert_reader<B: StorageBackend>(backend: &mut B, reader: &PinnedView, expected: &[u8]) {
    for (index, bytes) in expected.chunks_exact(PAGE_BYTES).enumerate() {
        let read = reader
            .resolve(number(index as u32 + 1))
            .unwrap()
            .read(backend)
            .unwrap();
        assert!(read == bytes, "page {}", index + 1);
    }
}

fn blobs<B: StorageBackend>(backend: &mut B, store: &Store, packs: &[PackId]) -> Vec<ObjectKey> {
    let view = store.current(backend);
    packs
        .iter()
        .map(|pack| {
            let placements = view.placement().placement(*pack).unwrap();
            ObjectKey::Blob(placements.preferred().extent.blob())
        })
        .collect()
}

const SOURCE_PACKS: usize = 4;
const PAGES_PER_PACK: usize = 4;

/// Four packs of four pages, of which one page each is live, and one pack with
/// what replaced the others.
fn fixture<B: StorageBackend>(backend: &mut B, layout: LayoutPolicy) -> Store {
    let mut store = create(backend, layout);
    for source in 0..SOURCE_PACKS {
        let bytes = (0..PAGES_PER_PACK)
            .map(|offset| page(u8::try_from(1 + source * PAGES_PER_PACK + offset).unwrap()))
            .collect::<Vec<_>>()
            .concat();
        let end = store.bytes.len();
        store.write_at(end, &bytes);
        store.seal(backend);
    }
    for source in 0..SOURCE_PACKS {
        let offset = source * PAGES_PER_PACK * PAGE_BYTES;
        let bytes = (0..PAGES_PER_PACK - 1)
            .map(|index| page(u8::try_from(100 + source * PAGES_PER_PACK + index).unwrap()))
            .collect::<Vec<_>>()
            .concat();
        store.write_at(offset, &bytes);
    }
    store.seal(backend);
    store
}

#[test]
fn a_seal_reads_back() {
    let mut backend = memory();
    let mut store = create(&mut backend, layout());
    for at in 0..5 {
        store.write_at(at * PAGE_BYTES, &noise(at as u32));
    }
    store.seal(&mut backend);
    store.check(&mut backend);
    let view = store.current(&mut backend);
    assert!(view.is_checkpoint());
    assert_eq!(view.logical_size().get(), 5 * PAGE_BYTES as u64);
    assert_eq!(view.endpoint().1.get(), 5);
    assert_eq!(view.pack_count(), 1);
    assert!(matches!(view.resolve(number(6)), Err(StoreError::Range)));
}

fn next_random(state: &mut u64) -> usize {
    *state ^= *state << 13;
    *state ^= *state >> 7;
    *state ^= *state << 17;
    (*state >> 32) as usize
}

fn mutate_oracle(store: &mut Store, expected: &mut Vec<u8>, state: &mut u64) {
    let pages = expected.len() / PAGE_BYTES;
    match next_random(state) % 4 {
        0 => {
            let number = next_random(state) % pages;
            let bytes = page(u8::try_from(next_random(state) % 250 + 1).unwrap());
            store.write_at(number * PAGE_BYTES, &bytes);
            expected[number * PAGE_BYTES..(number + 1) * PAGE_BYTES].copy_from_slice(&bytes);
        }
        1 => {
            let length = (next_random(state) % 20 + 1) * PAGE_BYTES;
            store.truncate(length);
            expected.resize(length, 0);
        }
        2 => {
            // Shrink and regrow before the next seal. Old packed bytes must not
            // reappear in the zero-filled tail, even after a later repack.
            let length = (next_random(state) % pages + 1) * PAGE_BYTES;
            store.truncate(length);
            expected.truncate(length);
            store.truncate(pages * PAGE_BYTES);
            expected.resize(pages * PAGE_BYTES, 0);
        }
        _ => {
            // Also exercise writes smaller than a page, including a boundary
            // between two pages, without changing the first page's format.
            let start = 18 + next_random(state) % (expected.len() - 18);
            let length = (1 + next_random(state) % 5000).min(expected.len() - start);
            let bytes = vec![u8::try_from(next_random(state) % 256).unwrap(); length];
            store.write_at(start, &bytes);
            expected[start..start + length].copy_from_slice(&bytes);
        }
    }
}

// Fixed seeds make failures reproducible. The model is a plain byte vector; it
// never asks the library how truncation or retention works.
#[test]
fn seeded_gc_histories_match_independent_bytes_with_readers_pins_and_forks() {
    for (seed, frame_bytes) in [
        (0x5eed_u64, 4096),
        (0x00c0_ffee, 8192),
        (0xdead_beef, 16384),
    ] {
        run_gc_history(seed, frame_bytes);
    }
}

fn run_gc_history(seed: u64, frame_bytes: usize) {
    let mut backend = memory();
    let mut store = fixture(
        &mut backend,
        LayoutPolicy {
            frame_bytes,
            maintenance_input: 32768,
            ..layout()
        },
    );
    let mut expected = store.bytes.clone();
    let mut state = seed;
    let (packs, _, _) = store.try_repack(&mut backend, 3).unwrap();
    assert!(packs > 0, "seed {seed:x}");
    let mut fork_store = Some(forked(&mut backend, &store, b"oracle-fork"));
    let mut fork_bytes = expected.clone();
    let mut reader_bytes: Vec<Vec<u8>> = Vec::new();
    let mut retained: Option<(DurablePin, Vec<u8>)> = None;
    for step in 0..48 {
        mutate_oracle(&mut store, &mut expected, &mut state);
        // Alternate sealed and active-only commits. Maintenance must preserve
        // both, the commits that no pack holds yet among them.
        if step % 3 != 1 {
            store.seal(&mut backend);
        }
        if step % 8 == 0 {
            store.seal(&mut backend);
            let view = store.current(&mut backend);
            let mut catalog = store.state(&mut backend);
            let name = RetentionName::new(format!("oracle-{step}")).unwrap();
            let pinned = retain(&mut backend, &mut catalog, name, &view, false).unwrap();
            retained = Some((pinned, expected.clone()));
            store.readers.push(view);
            reader_bytes.push(expected.clone());
        }
        if step % 8 == 4 {
            store.readers.clear();
            reader_bytes.clear();
            if let Some((pinned, _)) = retained.take() {
                let mut catalog = store.state(&mut backend);
                release(&mut backend, &mut catalog, pinned).unwrap();
            }
        }
        if let Some(other) = &mut fork_store {
            other.readers = std::mem::take(&mut store.readers);
            if step % 5 == 0 {
                mutate_oracle(other, &mut fork_bytes, &mut state);
                other.seal(&mut backend);
                other.try_repack(&mut backend, 3).unwrap();
            }
            assert_eq!(other.bytes, fork_bytes);
            other.check(&mut backend);
            store.readers = std::mem::take(&mut other.readers);
        }
        if step == 23 {
            let other = fork_store.take().unwrap();
            let mut catalog = other.state(&mut backend);
            remove_head(&mut backend, &mut catalog).unwrap();
        }
        let (_, work, report) = store.try_repack(&mut backend, 3).unwrap();
        assert!(work.decoded <= 32768, "seed {seed:x}, step {step}");
        assert!(report.deleted_objects <= 3, "seed {seed:x}, step {step}");
        let budget = next_random(&mut state) % 5;
        assert!(store.try_collect(&mut backend, budget).unwrap().deleted_objects <= budget);
        assert_eq!(store.bytes, expected);
        store.check(&mut backend);
        for (reader, bytes) in store.readers.iter().zip(&reader_bytes) {
            assert_reader(&mut backend, reader, bytes);
        }
        if let Some((pinned, bytes)) = &retained {
            let catalog = store.state(&mut backend);
            let found = read_root(&catalog, pinned.name()).unwrap();
            assert!(found.logical_hash() == pinned.logical_hash());
            let view = open_retained(&mut backend, &catalog, pinned.name()).unwrap();
            assert_reader(&mut backend, &view, bytes);
        }
        if step % 7 == 6 {
            store.reopen(&mut backend);
            assert_eq!(store.bytes, expected);
            store.check(&mut backend);
        }
    }
    store.readers.clear();
    if let Some((pinned, _)) = retained.take() {
        let mut catalog = store.state(&mut backend);
        release(&mut backend, &mut catalog, pinned).unwrap();
    }
    store.seal(&mut backend);
    let mut converged = false;
    for _ in 0..128 {
        if store.repack(&mut backend).0 == 0 {
            converged = true;
            break;
        }
    }
    assert!(converged, "maintenance did not converge for seed {seed:x}");
    store.collect(&mut backend);
    store.check(&mut backend);
    assert_eq!(store.collect(&mut backend).deleted_objects, 0);
}

fn forked<B: StorageBackend>(backend: &mut B, store: &Store, name: &[u8]) -> Store {
    let mut catalog = store.state(backend);
    fork(backend, &mut catalog, &accepted(), name).unwrap();
    let mut catalog = State::load_for(backend, name).unwrap();
    let found = bootstrap(backend, &catalog, &accepted()).unwrap();
    let attachment = [11; 32];
    claim(backend, &mut catalog, attachment).unwrap();
    let (header, active) = pagefile(&found.header, attachment).unwrap();
    settle(backend, &mut catalog).unwrap();
    assert_eq!(header.attachment_id, attachment);
    assert_eq!(active.txid, header.start_txid - 1);
    Store {
        head: name.to_vec(),
        attachment,
        layout: store.layout,
        bytes: store.bytes.clone(),
        txid: store.txid,
        dirty: store.dirty.clone(),
        truncated: store.truncated,
        header: Some(header),
        readers: Vec::new(),
    }
}

fn backend_calls(statistics: &BackendStatistics) -> [(Operation, u64); 7] {
    [
        (Operation::Put, statistics.write_starts),
        (Operation::Read, statistics.batches),
        (Operation::Stat, statistics.stat_calls),
        (Operation::RootRead, statistics.root_reads),
        (Operation::Publish, statistics.publications),
        (Operation::Inventory, statistics.inventory_calls),
        (Operation::Delete, statistics.deletes),
    ]
}

#[test]
fn every_collection_backend_failure_preserves_live_objects_and_retry() {
    let prepare = || {
        let mut backend = FaultBackend::new(memory());
        let mut store = fixture(
            &mut backend,
            LayoutPolicy {
                maintenance_input: 65536,
                ..pages()
            },
        );
        // A budget of zero leaves the obsolete blobs and discovery records in
        // place, so that the collector must retire and delete them.
        assert_eq!(store.try_repack(&mut backend, 0).unwrap().0, SOURCE_PACKS);
        backend.reset_statistics();
        (backend, store)
    };
    let (mut backend, store) = prepare();
    let report = store.collect(&mut backend);
    let statistics = backend.statistics();
    assert!(report.deleted_objects > SOURCE_PACKS);
    assert!(statistics.publications > 0);
    for (operation, calls) in backend_calls(&statistics) {
        for call in 1..=calls {
            for fault in [Fault::Before, Fault::AfterPublish].into_iter().take(
                if operation == Operation::Publish {
                    2
                } else {
                    1
                },
            ) {
                let (mut backend, store) = prepare();
                backend.inject(operation, usize::try_from(call).unwrap(), fault);
                assert!(
                    store.try_collect(&mut backend, usize::MAX).is_err(),
                    "collect {operation:?} call {call}/{calls}: {fault:?} did not fail"
                );
                if operation != Operation::Delete {
                    assert_eq!(backend.statistics().deletes, 0);
                }
                store.check(&mut backend);
                store.collect(&mut backend);
                store.check(&mut backend);
                assert_eq!(store.collect(&mut backend).deleted_objects, 0);
            }
        }
    }
}

/// From now on every frame ends a pack.
fn multiple_outputs(store: &mut Store) {
    store.layout.pack_target = 1;
}

fn put_blobs(statistics: &BackendStatistics) -> usize {
    let is_blob = |key: &&ObjectKey| matches!(key, ObjectKey::Blob(_));
    statistics.put_keys.iter().filter(is_blob).count()
}

// The successful trace is enumerated in full: later output packs, retirement
// indexes and deletion are part of the pass.
#[test]
fn every_batched_repack_backend_failure_preserves_readers_and_retry() {
    let prepare = || {
        let mut backend = FaultBackend::new(memory());
        let mut store = fixture(&mut backend, pages());
        multiple_outputs(&mut store);
        let reader = store.current(&mut backend);
        store.readers.push(reader);
        (backend, store)
    };
    let (mut backend, mut store) = prepare();
    backend.reset_statistics();
    assert_eq!(store.repack(&mut backend).0, SOURCE_PACKS);
    let statistics = backend.statistics();
    assert!(statistics.puts > SOURCE_PACKS as u64);
    assert_eq!(put_blobs(&statistics), SOURCE_PACKS);
    for (operation, calls) in backend_calls(&statistics) {
        for call in 1..=calls {
            let (mut backend, mut store) = prepare();
            let packs = store.sparse(&mut backend);
            let sources = blobs(&mut backend, &store, &packs);
            let before = store.current(&mut backend);
            let endpoint = (before.metadata().logical_hash(), store.header.unwrap().base_history);
            backend.reset_statistics();
            backend.inject(operation, usize::try_from(call).unwrap(), Fault::Before);
            assert!(
                store.try_repack(&mut backend, usize::MAX).is_err(),
                "repack {operation:?} call {call}/{calls} did not fail"
            );
            // The reader needs the source objects even where the failing call
            // follows a publication.
            for key in sources {
                assert!(backend.stat(key).unwrap().is_some(), "{operation:?} {call}");
            }
            // What is at the head is known from the catalog alone.
            let state = store.state(&mut backend);
            store.header = state.sealed;
            let after = store.current(&mut backend);
            assert!(after.metadata().logical_hash() == endpoint.0);
            assert_eq!(store.header.unwrap().base_history, endpoint.1);
            assert_eq!(store.header.unwrap().start_txid, store.txid + 1);
            let bytes = store.bytes.clone();
            assert_reader(&mut backend, &store.readers[0], &bytes);
            store.check(&mut backend);
            store.repack(&mut backend);
            store.collect(&mut backend);
            assert_reader(&mut backend, &store.readers[0], &bytes);
            store.readers.clear();
            store.collect(&mut backend);
            store.check(&mut backend);
        }
    }
}

/// The payload of each frame, and the pack that it stands in.
fn frame_snapshot<B: StorageBackend>(
    backend: &mut B,
    store: &Store,
) -> BTreeMap<FrameId, (PackId, Vec<u8>)> {
    let view = store.current(backend);
    let mut snapshot = BTreeMap::new();
    let frames = &view.metadata().resolved().frames;
    for index in 0..frames.len() {
        let location = frames.value_at(index);
        let payload = location.payload();
        let range =
            StoredRange::new(FileOffset::new(payload.offset.get()), payload.length).unwrap();
        let bytes = view.placement().read(backend, location.pack(), range).unwrap();
        snapshot.insert(*frames.key_at(index), (location.pack(), bytes));
    }
    snapshot
}

#[test]
fn batches_sparse_packs_in_one_checkpoint_and_copies_live_frames() {
    let mut backend = FaultBackend::new(memory());
    let mut store = fixture(&mut backend, pages());
    multiple_outputs(&mut store);
    let sources = store.sparse(&mut backend);
    assert_eq!(sources.len(), SOURCE_PACKS);
    let old = blobs(&mut backend, &store, &sources);
    let before = store.current(&mut backend);
    let header = store.header.unwrap();
    let frames = frame_snapshot(&mut backend, &store);
    let copied_bytes: u64 = frames
        .values()
        .filter(|(pack, _)| sources.contains(pack))
        .map(|(_, bytes)| bytes.len() as u64)
        .sum();
    backend.reset_statistics();
    let (packs, work, _) = store.repack(&mut backend);
    assert_eq!(packs, SOURCE_PACKS);
    assert_eq!(work.copied_frames, SOURCE_PACKS);
    assert_eq!(work.copied_bytes, copied_bytes);
    assert_eq!(work.decoded, 0);
    let statistics = backend.statistics();
    assert!(statistics.publications <= 4, "{statistics:?}");
    assert_eq!(put_blobs(&statistics), SOURCE_PACKS);
    assert_eq!(
        statistics
            .put_keys
            .iter()
            .filter(|key| matches!(key, ObjectKey::Manifest(_)))
            .count(),
        1
    );

    let after = store.current(&mut backend);
    assert_eq!(store.header.unwrap().base_history, header.base_history);
    assert_eq!(store.header.unwrap().start_txid, header.start_txid);
    assert_eq!(after.logical_size(), before.logical_size());
    assert!(after.metadata().logical_hash() == before.metadata().logical_hash());
    assert_eq!(after.manifest_statistics().unwrap().run_depth(), 0);
    assert!(store
        .occupancy(&mut backend)
        .iter()
        .all(|pack| pack.live_pages == pack.total_pages));
    let rewritten = frame_snapshot(&mut backend, &store);
    assert_eq!(frames.len(), rewritten.len());
    for (id, (pack, bytes)) in &frames {
        let (new_pack, new_bytes) = &rewritten[id];
        assert_eq!(new_bytes, bytes);
        if sources.contains(pack) {
            assert_ne!(new_pack, pack);
        } else {
            assert_eq!(new_pack, pack);
        }
    }
    store.collect(&mut backend);
    for blob in old {
        assert!(backend.stat(blob).unwrap().is_none());
    }
    store.check(&mut backend);
    backend.reset_statistics();
    assert_eq!(store.repack(&mut backend).0, 0);
    assert_eq!(backend.statistics().publications, 0);
    assert_eq!(backend.statistics().puts, 0);
}

#[test]
fn pass_budget_bounds_total_live_frame_work() {
    for (budget, selected) in [(0, 0), (4095, 0), (4096, 1), (8192, 2), (16384, 4)] {
        let mut backend = FaultBackend::new(memory());
        let mut store = fixture(
            &mut backend,
            LayoutPolicy {
                maintenance_input: budget,
                ..pages()
            },
        );
        backend.reset_statistics();
        let (packs, work, _) = store.try_repack(&mut backend, 0).unwrap();
        assert_eq!(packs, selected, "budget {budget}");
        assert_eq!(work.copied_frames, selected, "budget {budget}");
        assert_eq!(work.decoded, 0);
        assert_eq!(store.sparse(&mut backend).len(), SOURCE_PACKS - selected);
        if selected == 0 {
            assert_eq!(backend.statistics().puts, 0);
            assert_eq!(backend.statistics().publications, 0);
        }
        store.check(&mut backend);
    }
}

#[test]
fn batches_partial_frames_and_charges_each_decode_once() {
    let mut backend = memory();
    let mut store = fixture(
        &mut backend,
        LayoutPolicy {
            frame_bytes: 16384,
            ..layout()
        },
    );
    assert_eq!(store.sparse(&mut backend).len(), SOURCE_PACKS);
    let header = store.header.unwrap();
    let (packs, work, _) = store.repack(&mut backend);
    assert_eq!(packs, SOURCE_PACKS);
    assert_eq!(work.copied_frames, 0);
    assert_eq!(work.copied_bytes, 0);
    assert_eq!(work.decoded, (SOURCE_PACKS * 16384) as u64);
    assert_eq!(store.header.unwrap().base_history, header.base_history);
    assert_eq!(store.header.unwrap().start_txid, header.start_txid);
    assert!(store.sparse(&mut backend).is_empty());
    store.check(&mut backend);
}

#[test]
fn mixed_frames_decode_only_partial_records() {
    let mut backend = memory();
    let mut store = fixture(
        &mut backend,
        LayoutPolicy {
            frame_bytes: 8192,
            ..layout()
        },
    );
    let offset = store.bytes.len();
    store.write_at(offset, &(201..=208).map(page).collect::<Vec<_>>().concat());
    store.seal(&mut backend);
    // Four two-page frames: two dead, one partial, and one fully live. With only
    // three live pages this pack is eligible alongside the four others.
    store.write_at(offset, &(211..=215).map(page).collect::<Vec<_>>().concat());
    store.seal(&mut backend);
    assert_eq!(store.sparse(&mut backend).len(), SOURCE_PACKS + 1);
    let (packs, work, _) = store.repack(&mut backend);
    assert_eq!(packs, SOURCE_PACKS + 1);
    assert_eq!(work.copied_frames, 1);
    assert!(work.copied_bytes > 0);
    assert_eq!(work.decoded, ((SOURCE_PACKS + 1) * 8192) as u64);
    store.check(&mut backend);
}

#[test]
fn repeated_noop_repack_does_not_fetch_fully_live_blobs() {
    let mut backend = FaultBackend::new(memory());
    let mut store = create(&mut backend, pages());
    store.write_at(0, &(1..=8).map(page).collect::<Vec<_>>().concat());
    store.seal(&mut backend);
    for _ in 0..2 {
        backend.reset_statistics();
        assert_eq!(store.repack(&mut backend).0, 0);
        let statistics = backend.statistics();
        assert_eq!(statistics.blob_reads, 0, "{statistics:?}");
        assert_eq!(statistics.publications, 0, "{statistics:?}");
        assert_eq!(statistics.puts, 0, "{statistics:?}");
    }
}

#[test]
fn repack_selection_uses_stored_bytes_instead_of_page_counts() {
    for (dead_pages, live_pages, dead_random) in [(4_u8, 8_u8, true), (8, 4, false)] {
        let mut backend = FaultBackend::new(memory());
        let mut store = create(&mut backend, pages());
        let contents: Vec<Vec<u8>> = (0..dead_pages + live_pages)
            .map(|index| {
                if (index < dead_pages) == dead_random {
                    noise(u32::from(index) + 1)
                } else {
                    page(index + 1)
                }
            })
            .collect();
        store.write_at(0, &contents.concat());
        store.seal(&mut backend);
        let replacements: Vec<Vec<u8>> = (0..dead_pages).map(|index| page(index + 101)).collect();
        store.write_at(0, &replacements.concat());
        store.seal(&mut backend);
        let occupancy = store.occupancy(&mut backend);
        let source = occupancy
            .iter()
            .find(|pack| pack.live_pages < pack.total_pages)
            .unwrap();
        assert_eq!(source.total_pages, u64::from(dead_pages + live_pages));
        assert_eq!(source.live_pages, u64::from(live_pages));
        assert_eq!(source.live_pages * 2 > source.total_pages, dead_random);
        assert_eq!(
            source.fully_obsolete_frame_bytes.get() > source.fully_live_frame_bytes.get(),
            dead_random
        );

        backend.reset_statistics();
        let (packs, work, _) = store.repack(&mut backend);
        assert_eq!(packs, usize::from(dead_random));
        assert_eq!(work.decoded, 0);
        if dead_random {
            assert_eq!(work.copied_frames, usize::from(live_pages));
        } else {
            assert_eq!(backend.statistics().blob_reads, 0);
        }
        store.check(&mut backend);
    }
}

#[test]
fn contiguous_surviving_frames_are_copied_in_coalesced_reads() {
    let mut backend = FaultBackend::new(memory());
    let mut store = create(&mut backend, pages());
    let contents: Vec<Vec<u8>> = (0..256)
        .map(|index| page(u8::try_from(index % 250).unwrap() + 1))
        .collect();
    store.write_at(0, &contents.concat());
    store.seal(&mut backend);
    store.write_at(0, &(1..=192).map(page).collect::<Vec<_>>().concat());
    store.seal(&mut backend);
    backend.reset_statistics();
    let (packs, work, _) = store.repack(&mut backend);
    let statistics = backend.statistics();
    assert_eq!(packs, 1);
    assert_eq!(work.copied_frames, 64);
    assert_eq!(work.decoded, 0);
    assert!(statistics.blob_reads <= 4, "{statistics:?}");
    assert!(statistics.publications <= 4, "{statistics:?}");
    store.check(&mut backend);
}

#[derive(Clone, Copy, Debug)]
enum Damage {
    Byte(ObjectKey, u64),
    Short,
    Long,
    Missing,
    Extra,
}

/// Damages one reply that holds bytes of a blob.
struct Damaging {
    inner: MemoryBackend,
    damage: Rc<RefCell<Option<Damage>>>,
}

struct Collected {
    bytes: Vec<u8>,
}

impl DriverWriter for Collected {
    fn write(&mut self, bytes: &[u8]) -> Result<usize, BackendError> {
        self.bytes.extend_from_slice(bytes);
        Ok(bytes.len())
    }
}

impl Driver for Damaging {
    type Writer = Collected;

    fn identity(&self) -> BackendId {
        self.inner.identity()
    }
    fn begin_write(&mut self) -> Result<Collected, BackendError> {
        Ok(Collected { bytes: Vec::new() })
    }
    fn finish_write(
        &mut self,
        writer: Collected,
        key: ObjectKey,
        length: StoredBytes,
    ) -> Result<(), BackendError> {
        let mut object = self.inner.begin_write()?;
        write_all(&mut self.inner, &mut object, &writer.bytes)?;
        self.inner.finish_write(object, key, length)
    }
    fn read_ranges(&mut self, requests: &[ObjectRange]) -> Result<Vec<Vec<u8>>, BackendError> {
        let mut reply = self.inner.read_ranges(requests)?;
        let Some(damage) = *self.damage.borrow() else {
            return Ok(reply);
        };
        let Some(index) = requests.iter().position(|request| match damage {
            Damage::Byte(key, offset) => {
                let start = request.range().offset.get();
                request.key() == key
                    && offset >= start
                    && offset < start + request.range().length.get()
            }
            _ => matches!(request.key(), ObjectKey::Blob(_)),
        }) else {
            return Ok(reply);
        };
        *self.damage.borrow_mut() = None;
        match damage {
            Damage::Byte(_, offset) => {
                let relative = offset - requests[index].range().offset.get();
                reply[index][usize::try_from(relative).unwrap()] ^= 1;
            }
            Damage::Short => {
                reply[index].pop();
            }
            Damage::Long => reply[index].push(0),
            Damage::Missing => {
                reply.remove(index);
            }
            Damage::Extra => reply.push(reply[index].clone()),
        }
        Ok(reply)
    }
    fn stat(&mut self, key: ObjectKey) -> Result<Option<StoredBytes>, BackendError> {
        self.inner.stat(key)
    }
    fn read_root(&mut self) -> Result<Option<RootRecord>, BackendError> {
        self.inner.read_root()
    }
    fn compare_exchange_root(
        &mut self,
        expected: Option<&Revision>,
        bytes: &[u8],
    ) -> Result<Publication, BackendError> {
        self.inner.compare_exchange_root(expected, bytes)
    }
    fn inventory(
        &mut self,
        after: Option<ObjectKey>,
        limit: usize,
    ) -> Result<Vec<ObjectKey>, BackendError> {
        self.inner.inventory(after, limit)
    }
    fn delete(&mut self, permit: DeletePermit) -> Result<(), BackendError> {
        self.inner.delete(permit)
    }
}

/// Sixteen pages, of which the last four are live in their pack.
fn damaged() -> (FaultBackend<Hosted<Damaging>>, Rc<RefCell<Option<Damage>>>, Store) {
    let damage = Rc::new(RefCell::new(None));
    let mut backend = FaultBackend::new(Hosted::new(Damaging {
        inner: memory(),
        damage: Rc::clone(&damage),
    }));
    let mut store = create(&mut backend, pages());
    store.write_at(0, &(1..=16).map(page).collect::<Vec<_>>().concat());
    store.seal(&mut backend);
    store.write_at(0, &(101..=112).map(page).collect::<Vec<_>>().concat());
    store.seal(&mut backend);
    (backend, damage, store)
}

#[test]
fn every_coalesced_live_frame_authenticates_its_header_and_payload() {
    // The surviving four records share a range.
    for frame_index in 0..4 {
        for field in 0..3 {
            let (mut backend, pending, mut store) = damaged();
            let source = store
                .occupancy(&mut backend)
                .into_iter()
                .find(|pack| pack.live_pages < pack.total_pages)
                .unwrap()
                .pack;
            let view = store.current(&mut backend);
            let locations = &view.metadata().resolved().frames;
            let mut frames: Vec<PackRange> = (0..locations.len())
                .map(|index| locations.value_at(index))
                .filter(|location| location.pack() == source)
                .map(|location| location.payload())
                .collect();
            frames.sort_by_key(|payload| payload.offset.get());
            assert_eq!(frames.len(), 4);
            let frame = frames[frame_index];
            let extent = view.placement().placement(source).unwrap().preferred().extent;
            let start = extent.offset().get() + frame.offset.get();
            let offset = match field {
                0 => start - FRAME_HEADER_SIZE as u64,
                1 => start,
                _ => start + frame.length.get() - 1,
            };
            let damage = Damage::Byte(ObjectKey::Blob(extent.blob()), offset);
            *pending.borrow_mut() = Some(damage);
            backend.reset_statistics();
            assert!(store.try_repack(&mut backend, usize::MAX).is_err(), "{damage:?}");
            assert!(pending.borrow().is_none(), "{damage:?}");
            let statistics = backend.statistics();
            assert_eq!(statistics.publications, 0, "{damage:?}");
            assert_eq!(statistics.deletes, 0, "{damage:?}");
            assert_eq!(statistics.blob_reads, 1, "{damage:?}: {statistics:?}");
            store.check(&mut backend);
            assert_eq!(store.repack(&mut backend).1.copied_frames, 4);
            store.check(&mut backend);
        }
    }
}

#[test]
fn malformed_coalesced_replies_never_publish_or_delete() {
    for damage in [Damage::Short, Damage::Long, Damage::Missing, Damage::Extra] {
        let (mut backend, pending, mut store) = damaged();
        *pending.borrow_mut() = Some(damage);
        backend.reset_statistics();
        assert!(store.try_repack(&mut backend, usize::MAX).is_err(), "{damage:?}");
        assert!(pending.borrow().is_none(), "{damage:?}");
        assert_eq!(backend.statistics().publications, 0, "{damage:?}");
        assert_eq!(backend.statistics().deletes, 0, "{damage:?}");
        store.check(&mut backend);
        assert_eq!(store.repack(&mut backend).1.copied_frames, 4);
        store.check(&mut backend);
    }
}

#[derive(Clone, Copy, Debug)]
enum Break {
    WriteAfter(usize),
    BeforeFinish,
    AfterFinish,
}

#[derive(Default)]
struct Streams {
    injection: Option<(usize, Break)>,
    started: usize,
    finished: Vec<(usize, ObjectKey, StoredBytes)>,
    fired: bool,
    short_writes: bool,
    shortened: usize,
}

/// Breaks streams off, or loses the reply to their end.
struct Streaming {
    inner: MemoryBackend,
    streams: Rc<RefCell<Streams>>,
}

struct Stream {
    streams: Rc<RefCell<Streams>>,
    bytes: Vec<u8>,
    failure: Option<Break>,
    short_writes: bool,
    call: usize,
}

impl DriverWriter for Stream {
    fn write(&mut self, bytes: &[u8]) -> Result<usize, BackendError> {
        let mut length = bytes.len();
        if let Some(Break::WriteAfter(limit)) = self.failure {
            if self.bytes.len() >= limit && !bytes.is_empty() {
                self.streams.borrow_mut().fired = true;
                return Err(BackendError::Io("injected mid-stream failure".to_owned()));
            }
            length = length.min(limit.saturating_sub(self.bytes.len()));
        }
        if self.short_writes && length > 7 {
            length = 7;
            self.streams.borrow_mut().shortened += 1;
        }
        self.bytes.extend_from_slice(&bytes[..length]);
        Ok(length)
    }
}

impl Driver for Streaming {
    type Writer = Stream;

    fn identity(&self) -> BackendId {
        self.inner.identity()
    }
    fn begin_write(&mut self) -> Result<Stream, BackendError> {
        let mut streams = self.streams.borrow_mut();
        streams.started += 1;
        let call = streams.started;
        Ok(Stream {
            streams: Rc::clone(&self.streams),
            bytes: Vec::new(),
            failure: streams
                .injection
                .filter(|(at, _)| *at == call)
                .map(|(_, failure)| failure),
            short_writes: streams.short_writes,
            call,
        })
    }
    fn finish_write(
        &mut self,
        writer: Stream,
        key: ObjectKey,
        length: StoredBytes,
    ) -> Result<(), BackendError> {
        if matches!(writer.failure, Some(Break::BeforeFinish)) {
            self.streams.borrow_mut().fired = true;
            return Err(BackendError::Io("injected before installation".to_owned()));
        }
        let mut object = self.inner.begin_write()?;
        write_all(&mut self.inner, &mut object, &writer.bytes)?;
        self.inner.finish_write(object, key, length)?;
        let mut streams = self.streams.borrow_mut();
        streams.finished.push((writer.call, key, length));
        if matches!(writer.failure, Some(Break::AfterFinish)) {
            streams.fired = true;
            return Err(BackendError::Transport {
                message: "lost response after installation".to_owned(),
                retryable: true,
            });
        }
        Ok(())
    }
    fn read_ranges(&mut self, requests: &[ObjectRange]) -> Result<Vec<Vec<u8>>, BackendError> {
        self.inner.read_ranges(requests)
    }
    fn stat(&mut self, key: ObjectKey) -> Result<Option<StoredBytes>, BackendError> {
        self.inner.stat(key)
    }
    fn read_root(&mut self) -> Result<Option<RootRecord>, BackendError> {
        self.inner.read_root()
    }
    fn compare_exchange_root(
        &mut self,
        expected: Option<&Revision>,
        bytes: &[u8],
    ) -> Result<Publication, BackendError> {
        self.inner.compare_exchange_root(expected, bytes)
    }
    fn inventory(
        &mut self,
        after: Option<ObjectKey>,
        limit: usize,
    ) -> Result<Vec<ObjectKey>, BackendError> {
        self.inner.inventory(after, limit)
    }
    fn delete(&mut self, permit: DeletePermit) -> Result<(), BackendError> {
        self.inner.delete(permit)
    }
}

type Streamed = (FaultBackend<Hosted<Streaming>>, Rc<RefCell<Streams>>, Store);

/// Three packs of four pages, of which one page each is live.
fn streamed(partial_frames: bool) -> Streamed {
    let streams = Rc::new(RefCell::new(Streams::default()));
    let mut backend = FaultBackend::new(Hosted::new(Streaming {
        inner: memory(),
        streams: Rc::clone(&streams),
    }));
    let mut store = create(
        &mut backend,
        LayoutPolicy {
            frame_bytes: if partial_frames { 4 * PAGE_BYTES } else { PAGE_BYTES },
            maintenance_input: 64 * 1024 * 1024,
            ..layout()
        },
    );
    for base in [1, 5, 9] {
        let end = store.bytes.len();
        store.write_at(end, &(base..base + 4).map(page).collect::<Vec<_>>().concat());
        store.seal(&mut backend);
    }
    for pack in 0..3_u8 {
        let bytes: Vec<Vec<u8>> = (0..3).map(|offset| page(100 + pack * 4 + offset)).collect();
        store.write_at(usize::from(pack) * 4 * PAGE_BYTES, &bytes.concat());
    }
    store.seal(&mut backend);
    // Separate replacement frames into multiple output objects; failures in later
    // objects must also preserve the endpoint that was acknowledged before.
    multiple_outputs(&mut store);
    *streams.borrow_mut() = Streams::default();
    backend.reset_statistics();
    (backend, streams, store)
}

#[test]
fn every_streamed_gc_object_survives_partial_writes_and_lost_finish_responses() {
    for partial_frames in [false, true] {
        let (mut backend, streams, mut store) = streamed(partial_frames);
        assert_eq!(store.try_repack(&mut backend, 0).unwrap().0, 3);
        let objects = streams.borrow().finished.clone();
        let started = streams.borrow().started;
        assert!(objects.iter().any(|(_, key, _)| matches!(key, ObjectKey::Blob(_))));
        assert!(objects.iter().any(|(_, key, _)| matches!(key, ObjectKey::Manifest(_))));
        assert!(objects.iter().any(|(_, key, _)| matches!(key, ObjectKey::Index(_))));
        for call in 1..=started {
            let mut failures = vec![Break::WriteAfter(1)];
            if let Some((_, _, length)) = objects.iter().find(|(start, _, _)| *start == call) {
                failures.extend([
                    Break::WriteAfter(usize::try_from(length.get() / 2).unwrap()),
                    Break::BeforeFinish,
                    Break::AfterFinish,
                ]);
            }
            for failure in failures {
                let (mut backend, streams, mut store) = streamed(partial_frames);
                let before = store.current(&mut backend).metadata().logical_hash();
                let header = store.header.unwrap();
                *streams.borrow_mut() = Streams {
                    injection: Some((call, failure)),
                    ..Streams::default()
                };
                let result = store.try_repack(&mut backend, 0);
                assert!(
                    streams.borrow().fired,
                    "unreached fault: partial={partial_frames}, object={call}, {failure:?}"
                );
                assert!(result.is_err(), "object={call}, {failure:?}");
                assert_eq!(backend.statistics().deletes, 0);
                *streams.borrow_mut() = Streams::default();
                // Only the durable endpoint counts from here on.
                let state = store.state(&mut backend);
                store.header = state.sealed;
                let after = store.header.unwrap();
                assert_eq!(after.start_txid, header.start_txid);
                assert_eq!(after.base_history, header.base_history);
                assert!(store.current(&mut backend).metadata().logical_hash() == before);
                store.check(&mut backend);
                store.try_repack(&mut backend, 0).unwrap();
                for _ in 0..4 {
                    store.collect(&mut backend);
                }
                let report = store.try_collect(&mut backend, 0).unwrap();
                assert_eq!(report.collectible_bytes, 0);
                store.check(&mut backend);
            }
        }
    }
}

#[test]
fn gc_retries_short_stream_writes_until_each_object_is_complete() {
    for partial_frames in [false, true] {
        let (mut backend, streams, mut store) = streamed(partial_frames);
        streams.borrow_mut().short_writes = true;
        assert_eq!(store.try_repack(&mut backend, 0).unwrap().0, 3);
        assert!(streams.borrow().shortened > 0);
        *streams.borrow_mut() = Streams::default();
        store.collect(&mut backend);
        store.reopen(&mut backend);
        store.check(&mut backend);
    }
}

#[test]
fn repack_faults_keep_sources_and_a_readable_endpoint() {
    let failures = [
        (Operation::Put, 1, Fault::Before),
        (Operation::Put, 2, Fault::Before),
        (Operation::Put, 3, Fault::Before),
        (Operation::Publish, 1, Fault::Before),
        (Operation::Publish, 2, Fault::Before),
        (Operation::Publish, 3, Fault::Before),
        (Operation::Publish, 1, Fault::AfterPublish),
        (Operation::Publish, 2, Fault::AfterPublish),
        (Operation::Publish, 3, Fault::AfterPublish),
    ];
    for (operation, call, fault) in failures {
        let mut backend = FaultBackend::new(memory());
        let mut store = fixture(&mut backend, pages());
        multiple_outputs(&mut store);
        let packs = store.sparse(&mut backend);
        let sources = blobs(&mut backend, &store, &packs);
        let before = store.current(&mut backend).metadata().logical_hash();
        let header = store.header.unwrap();
        backend.reset_statistics();
        backend.inject(operation, call, fault);
        assert!(
            store.try_repack(&mut backend, usize::MAX).is_err(),
            "{operation:?} call {call}: {fault:?}"
        );
        assert_eq!(backend.statistics().deletes, 0);
        for blob in &sources {
            assert!(backend.stat(*blob).unwrap().is_some());
        }
        let state = store.state(&mut backend);
        store.header = state.sealed;
        store.check(&mut backend);
        let after = store.header.unwrap();
        assert_eq!(after.base_history, header.base_history);
        assert_eq!(after.start_txid, header.start_txid);
        assert!(store.current(&mut backend).metadata().logical_hash() == before);
        store.repack(&mut backend);
        store.collect(&mut backend);
        store.check(&mut backend);
    }
}

/// Three pages, each in a pack of its own.
fn tiny<B: StorageBackend>(backend: &mut B) -> Store {
    let mut store = create(
        backend,
        LayoutPolicy {
            pack_target: 1,
            ..pages()
        },
    );
    store.write_at(0, &[page(1), page(2), page(3)].concat());
    store.seal(backend);
    store
}

fn relocated<B: StorageBackend>(
    backend: &mut B,
    store: &Store,
    packs: &Vec<PackId>,
    budget: u64,
) -> (Result<RelocationReport, StoreError>, State) {
    let set = accepted();
    let record = store.record(backend);
    let active = store.header.map(|header| header.encode());
    let (readers, objects, _) = store.leases();
    let local = LocalRoots {
        active: active.as_ref(),
        attachment: store.local(backend.identity(), &record),
        accepted: &set,
        readers: &readers,
        objects: &objects,
    };
    let mut state = store.state(backend);
    let report = relocate(backend, &mut state, &local, packs, StoredBytes::new(budget));
    (report, state)
}

fn placed_packs(state: &State) -> Vec<PackId> {
    let entries = state.placements.entries();
    (0..entries.len())
        .map(|index| PackId::from_bytes(entries.key_at(index).as_slice().try_into().unwrap()))
        .collect()
}

#[test]
fn relocation_preserves_manifests_forks_and_exact_old_blob_leases() {
    let mut backend = memory();
    let mut store = tiny(&mut backend);
    let reader = store.current(&mut backend);
    let before = reader.id();
    let mut state = store.state(&mut backend);
    let name = RetentionName::new("saved".to_owned()).unwrap();
    let saved = retain(&mut backend, &mut state, name, &reader, false).unwrap();
    let packs = placed_packs(&state);
    assert_eq!(packs.len(), 3);
    let old_blobs = blobs(&mut backend, &store, &packs);
    store.readers.push(reader);
    assert!(relocated(&mut backend, &store, &packs, 1).0.is_err());
    let report = relocated(&mut backend, &store, &packs, 1024 * 1024).0.unwrap();
    let blob = report.blob.unwrap();
    assert_eq!(report.packs, 3);
    let bytes = read_all(&mut backend, ObjectKey::Blob(blob), 1024 * 1024).unwrap();
    assert_eq!(BlobIndex::authenticate(blob, &bytes).unwrap().extents().len(), 3);
    let mut corrupt = bytes.clone();
    corrupt[33] ^= 1;
    assert!(BlobIndex::authenticate(blob, &corrupt).is_err());
    store.reopen(&mut backend);
    assert!(store.current(&mut backend).id().same(&before));
    store.collect(&mut backend);
    for old in &old_blobs {
        assert!(backend.stat(*old).unwrap().is_some());
    }
    let read = store.readers[0].resolve(number(2)).unwrap().read(&mut backend);
    assert_eq!(read.unwrap(), page(2));
    store.readers.clear();
    store.collect(&mut backend);
    for old in &old_blobs {
        assert!(backend.stat(*old).unwrap().is_none());
    }
    let mut state = store.state(&mut backend);
    let retained = open_retained(&mut backend, &state, saved.name()).unwrap();
    let read = retained.resolve(number(3)).unwrap().read(&mut backend);
    assert_eq!(read.unwrap(), page(3));
    release(&mut backend, &mut state, saved).unwrap();
    store.write_at(0, &page(4));
    store.seal(&mut backend);
    assert!(store.collect(&mut backend).dead_extent_bytes > 0);
    assert!(backend.stat(ObjectKey::Blob(blob)).unwrap().is_some());
    store.write_at(4096, &[page(5), page(6)].concat());
    store.seal(&mut backend);
    store.collect(&mut backend);
    assert!(backend.stat(ObjectKey::Blob(blob)).unwrap().is_none());
    store.check(&mut backend);
}

#[test]
fn relocation_faults_never_delete_sources_or_advance_logical_history() {
    for (operation, fault) in [
        (Operation::Put, Fault::Before),
        (Operation::Publish, Fault::Before),
        (Operation::Publish, Fault::AfterPublish),
    ] {
        let mut backend = FaultBackend::new(memory());
        let store = tiny(&mut backend);
        let before = store.current(&mut backend);
        let packs = placed_packs(&store.state(&mut backend));
        let sources = blobs(&mut backend, &store, &packs);
        backend.inject(operation, 1, fault);
        let (report, mut state) = relocated(&mut backend, &store, &packs, 1024 * 1024);
        assert!(report.is_err());
        if operation == Operation::Publish {
            assert!(collect_with(&mut backend, &mut state, &store).is_err());
        }
        for source in &sources {
            assert!(backend.stat(*source).unwrap().is_some());
        }
        store.check(&mut backend);
        let after = store.current(&mut backend);
        assert!(after.metadata().logical_hash() == before.metadata().logical_hash());
        assert_eq!(store.state(&mut backend).sealed, store.header);
        store.collect(&mut backend);
        store.check(&mut backend);
    }
}

#[test]
fn manifest_compaction_does_not_rewrite_placements() {
    let mut backend = FaultBackend::new(memory());
    let mut store = tiny(&mut backend);
    store.write_at(4096, &page(4));
    store.seal(&mut backend);
    let source = store.current(&mut backend);
    let mut state = store.state(&mut backend);
    let placement = state.placements.head();
    backend.reset_statistics();
    let compacted = checkpoint_manifest(&mut backend, &mut state, &source).unwrap();
    store.adopt(&mut backend, &mut state, &compacted).unwrap();
    assert!(backend
        .statistics()
        .put_keys
        .iter()
        .all(|key| matches!(key, ObjectKey::Index(_) | ObjectKey::Manifest(_))));
    assert_eq!(store.state(&mut backend).placements.head(), placement);
}

#[test]
fn bootstrap_ignores_unsealed_and_unfinished_candidates() {
    for unfinished in [false, true] {
        let mut backend = memory();
        let mut store = tiny(&mut backend);
        let original = store.header.unwrap();
        store.write_at(4096, &page(99));
        if unfinished {
            let mut state = store.state(&mut backend);
            let source = store.current(&mut backend);
            let (changes, contents) = store.changed();
            let candidate = seal(
                &mut backend,
                &mut state,
                Some(&source),
                &store.endpoint(),
                &changes,
                &contents,
                &store.layout,
                ManifestMode::Incremental,
                None,
            )
            .unwrap();
            let header = candidate.continued(&original).unwrap();
            let record = store.record(&backend);
            let local = store.local(backend.identity(), &record);
            prepare_seal(&mut backend, &mut state, &header, &local).unwrap();
        }
        let state = store.state(&mut backend);
        assert_eq!(state.pending.is_some(), unfinished);
        let restored = bootstrap(&mut backend, &state, &accepted()).unwrap();
        assert_eq!(restored.header.start_txid, original.start_txid);
        assert_eq!(restored.header.base_history, original.base_history);
        assert_eq!(restored.header.policy, original.policy);
        let expected = [page(1), page(2), page(3)].concat();
        assert_reader(&mut backend, &restored.view, &expected);
    }
}

#[test]
fn current_view_reader_retains_source_blobs_until_its_lease_ends() {
    let mut backend = memory();
    let mut store = fixture(&mut backend, pages());
    let packs = store.sparse(&mut backend);
    let sources = blobs(&mut backend, &store, &packs);
    let reader = store.current(&mut backend);
    let manifest = reader.id();
    store.readers.push(reader);
    assert_eq!(store.repack(&mut backend).0, SOURCE_PACKS);
    assert!(!store.current(&mut backend).id().same(&manifest));
    store.collect(&mut backend);
    for blob in &sources {
        assert!(backend.stat(*blob).unwrap().is_some());
    }
    let bytes = store.bytes.clone();
    assert_reader(&mut backend, &store.readers[0], &bytes);
    store.check(&mut backend);

    store.readers.clear();
    store.collect(&mut backend);
    for blob in sources {
        assert!(backend.stat(blob).unwrap().is_none());
    }
    store.check(&mut backend);
}

#[test]
fn corrupt_required_metadata_blocks_all_deletion() {
    let mut backend = FaultBackend::new(memory());
    let store = fixture(&mut backend, pages());
    backend.reset_statistics();
    for fault in [Fault::CorruptRead, Fault::ShortRead] {
        backend.inject(Operation::Read, 1, fault);
        assert!(store.try_collect(&mut backend, usize::MAX).is_err());
        assert_eq!(backend.statistics().deletes, 0);
    }
}

#[test]
fn bootstrap_rejects_malformed_descriptor_without_claiming_attachment() {
    for damage in 0..3 {
        let mut backend = memory();
        let store = fixture(&mut backend, pages());
        let mut state = store.state(&mut backend);
        let mut descriptor = state.sealed.unwrap();
        match damage {
            0 => descriptor.base_logical_size += 4096,
            1 => descriptor.start_txid += 1,
            _ => descriptor.base_history[0] ^= 1,
        }
        state.sealed = Some(descriptor);
        state.publish_confirmed(&mut backend).unwrap();
        let root = backend.read_root().unwrap().unwrap();
        let state = store.state(&mut backend);
        assert!(bootstrap(&mut backend, &state, &accepted()).is_err());
        let now = backend.read_root().unwrap().unwrap();
        assert!(now.bytes() == root.bytes() && now.revision().bytes() == root.revision().bytes());
    }
}

#[test]
fn ancestor_preferred_dictionaries_are_not_implicit_decoding_roots() {
    let mut backend = memory();
    let mut store = create(&mut backend, pages());
    store.write_at(0, &[page(1), page(2), page(3)].concat());
    store.seal(&mut backend);
    let home = backend.identity();
    let base = store.current(&mut backend);
    let mut state = store.state(&mut backend);
    let receipt = install_dictionary(&mut backend, &[17; 8192]).unwrap();
    let dictionary = receipt.id();
    let mut draft = base.metadata().resolved().duplicate();
    draft.preferred.push(dictionary);
    let mut builder = ManifestBuilder::new(home, draft, Some(&base)).unwrap();
    builder.dictionary(&receipt).unwrap();
    let parent = builder.finalize(&mut backend, &mut state).unwrap().id();
    let parent_view = pin(&mut backend, &state, parent).unwrap();
    let name = RetentionName::new("old-pool".to_owned()).unwrap();
    let parent_pin = retain(&mut backend, &mut state, name, &parent_view, false).unwrap();
    let mut draft = parent_view.metadata().resolved().duplicate();
    draft.preferred.clear();
    let child = ManifestBuilder::new(home, draft, Some(&parent_view))
        .unwrap()
        .finalize(&mut backend, &mut state)
        .unwrap()
        .id();
    let child_view = pin(&mut backend, &state, child).unwrap();
    let name = RetentionName::new("new-pool".to_owned()).unwrap();
    retain(&mut backend, &mut state, name, &child_view, false).unwrap();
    store.try_collect(&mut backend, 100).unwrap();
    // Pins preserve logical content, not a preferred dictionary pool in an
    // otherwise equivalent metadata-only representation.
    assert!(backend.stat(ObjectKey::Dictionary(dictionary)).unwrap().is_none());
    // Equivalent endpoint lookup can bypass this metadata-only pool update.
    assert!(backend.stat(ObjectKey::Manifest(parent)).unwrap().is_none());
    let mut state = store.state(&mut backend);
    let view = open_retained(&mut backend, &state, parent_pin.name()).unwrap();
    assert_eq!(view.resolve(number(1)).unwrap().read(&mut backend).unwrap(), page(1));
    release(&mut backend, &mut state, parent_pin).unwrap();
}

#[test]
fn a_dictionary_that_cannot_be_loaded_keeps_its_view_closed() {
    // Plain content can always be loaded; tables behind the magic must be sound.
    let mut damaged = vec![0xff; 1024];
    damaged[..8].copy_from_slice(&[0x37, 0xa4, 0x30, 0xec, 1, 0, 0, 0]);
    for (bytes, loads) in [(vec![17; 1024], true), (damaged, false)] {
        assert_eq!(DecodingDictionary::new(bytes.clone()).is_ok(), loads);
        let mut backend = memory();
        let mut store = create(&mut backend, pages());
        store.write_at(0, &[page(1), page(2)].concat());
        store.seal(&mut backend);
        let home = backend.identity();
        let base = store.current(&mut backend);
        let mut state = store.state(&mut backend);
        let receipt = install_dictionary(&mut backend, &bytes).unwrap();
        let mut draft = base.metadata().resolved().duplicate();
        draft.preferred.push(receipt.id());
        let mut builder = ManifestBuilder::new(home, draft, Some(&base)).unwrap();
        builder.dictionary(&receipt).unwrap();
        let id = builder.finalize(&mut backend, &mut state).unwrap().id();
        match pin(&mut backend, &state, id) {
            Ok(view) => {
                assert!(loads);
                assert_reader(&mut backend, &view, &[page(1), page(2)].concat());
            }
            Err(error) => {
                assert!(!loads);
                assert!(matches!(error, StoreError::Zstd(_)), "{error:?}");
            }
        }
    }
}

#[test]
fn a_seal_begins_no_pack_in_vain() {
    let mut backend = FaultBackend::new(memory());
    let mut store = create(
        &mut backend,
        LayoutPolicy {
            pack_target: 1,
            ..pages()
        },
    );
    store.write_at(0, &[page(1), page(2), page(3)].concat());
    backend.reset_statistics();
    store.seal(&mut backend);
    let statistics = backend.statistics();
    assert_eq!(put_blobs(&statistics), 3);
    assert_eq!(statistics.write_starts, statistics.puts);
}

#[test]
fn packs_end_with_the_frame_that_fills_them() {
    let mut backend = memory();
    let mut lengths = Vec::new();
    for (target, packs) in [(1, 6), (1 << 20, 1)] {
        let mut other = memory();
        let mut store = create(
            &mut other,
            LayoutPolicy {
                pack_target: target,
                ..pages()
            },
        );
        store.write_at(0, &(0..6).flat_map(noise).collect::<Vec<_>>());
        store.seal(&mut other);
        let occupancy = store.occupancy(&mut other);
        assert_eq!(occupancy.len(), packs);
        lengths.push(occupancy[0].stored_bytes.get());
    }
    // Two frames of noise reach the target, and a third does not follow them.
    let mut store = create(
        &mut backend,
        LayoutPolicy {
            pack_target: lengths[0] + 1,
            ..pages()
        },
    );
    store.write_at(0, &(0..6).flat_map(noise).collect::<Vec<_>>());
    store.seal(&mut backend);
    let frames: Vec<usize> = store
        .occupancy(&mut backend)
        .iter()
        .map(|pack| pack.frames)
        .collect();
    assert_eq!(frames, vec![2, 2, 2]);
}

#[test]
fn a_memory_backend_keeps_what_was_put() {
    let mut backend = memory();
    let key = ObjectKey::Manifest(ManifestId::from_bytes([6; 32]));
    assert!(matches!(
        backend.put(key, StoredBytes::new(4), b"one"),
        Err(BackendError::Range)
    ));
    assert!(backend.stat(key).unwrap().is_none());
    backend.put(key, StoredBytes::new(3), b"one").unwrap();
    backend.put(key, StoredBytes::new(3), b"one").unwrap();
    assert!(matches!(
        backend.put(key, StoredBytes::new(3), b"two"),
        Err(BackendError::IdentityMismatch(_))
    ));
    assert_eq!(backend.stat(key).unwrap().unwrap().get(), 3);
    let range = StoredRange::new(FileOffset::new(1), StoredBytes::new(2)).unwrap();
    let request = ObjectRange::new(key, range).unwrap();
    assert_eq!(backend.read_ranges(&[request]).unwrap(), vec![b"ne".to_vec()]);
}

#[test]
fn faults_are_counted_and_can_be_tried_again() {
    let mut backend = FaultBackend::new(memory());
    let key = ObjectKey::Manifest(ManifestId::from_bytes([6; 32]));
    backend.inject(Operation::Put, 1, Fault::Before);
    assert!(matches!(
        backend.begin_write(),
        Err(BackendError::Transport { retryable: true, .. })
    ));
    let mut writer = backend.begin_write().unwrap();
    write_all(&mut backend, &mut writer, b"one").unwrap();
    backend.finish_write(writer, key, StoredBytes::new(3)).unwrap();
    backend.inject(Operation::Stat, 2, Fault::Before);
    assert!(backend.stat(key).is_ok());
    assert!(matches!(
        backend.stat(key),
        Err(BackendError::Transport { retryable: true, .. })
    ));
    assert!(backend.stat(key).is_ok());
    let statistics = backend.statistics();
    assert_eq!((statistics.write_starts, statistics.puts), (1, 1));
    assert_eq!(statistics.written_bytes, 3);
    assert_eq!(statistics.stat_calls, 2);
    assert_eq!(statistics.put_keys, vec![key]);
    assert_eq!((statistics.batches, statistics.deletes), (0, 0));
}

#[test]
fn intermediate_writes_do_not_change_an_equivalent_sealed_result() {
    let mut backend = memory();
    let main = fixture(&mut backend, pages());
    let mut left = forked(&mut backend, &main, b"left");
    let mut right = forked(&mut backend, &main, b"right");
    for (a, b) in [(11, 12), (99, 99)] {
        left.write_at(4096, &page(a));
        right.write_at(4096, &page(b));
    }
    let one = left.seal(&mut backend);
    let other = right.seal(&mut backend);
    assert_eq!(left.header.unwrap().base_history, right.header.unwrap().base_history);
    assert!(one.same(&other));
    main.check(&mut backend);
}

#[test]
fn candidate_rejects_a_different_publication_source() {
    let mut backend = memory();
    let mut store = create(
        &mut backend,
        LayoutPolicy {
            frame_bytes: 65536,
            ..layout()
        },
    );
    store.write_at(0, &(1..=8).map(page).collect::<Vec<_>>().concat());
    store.seal(&mut backend);
    store.write_at(0, &(11..=16).map(page).collect::<Vec<_>>().concat());
    store.seal(&mut backend);
    let source = store.current(&mut backend);
    let mut state = store.state(&mut backend);
    let occupancy = inventory(&mut backend, &source).unwrap();
    assert!(!occupancy.is_empty());
    for pack in &occupancy {
        assert_eq!(
            pack.frames,
            pack.fully_live_frames + pack.partially_obsolete_frames + pack.fully_obsolete_frames
        );
        assert_eq!(pack.obsolete_pages(), pack.total_pages - pack.live_pages);
        assert!(
            pack.fully_live_frame_bytes.get()
                + pack.partially_obsolete_frame_bytes.get()
                + pack.fully_obsolete_frame_bytes.get()
                <= pack.stored_bytes.get()
        );
        assert_eq!(pack.whole_frame_reclaimable_bytes().get(), 0);
        assert_eq!(
            pack.reclaimable_bytes(),
            pack.stored_bytes.get() * pack.obsolete_pages() / pack.total_pages
        );
    }
    let found = eligible_pack(&mut backend, &state, &Vec::new(), &source, &store.layout)
        .unwrap()
        .unwrap();
    assert_eq!((found.work, found.obsolete * 2 > found.stored), (8 * PAGE_BYTES as u64, true));
    let (candidate, packs) = repack(
        &mut backend,
        &mut state,
        &Vec::new(),
        &source,
        &store.layout,
        None,
    )
    .unwrap()
    .unwrap();
    assert_eq!(packs, vec![found.pack]);
    let mut chosen = OrderedSet::new();
    chosen.insert(found.pack);
    let other = build_candidate(
        &mut backend,
        &mut state,
        &source,
        &store.layout,
        None,
        &chosen,
    )
    .unwrap();
    let (other, decoded) = other.revalidate(&source).unwrap();
    assert_eq!(decoded.get(), 8 * PAGE_BYTES as u64);
    let different_source = pin(&mut backend, &state, other.id()).unwrap();
    assert!(matches!(
        candidate.revalidate(&different_source),
        Err(StoreError::Busy)
    ));
}

#[test]
fn metadata_compaction_never_rewrites_payload() {
    let mut backend = FaultBackend::new(memory());
    let mut store = fixture(&mut backend, layout());
    let source = store.current(&mut backend);
    let before = source.manifest_statistics().unwrap();
    assert!(!source.is_checkpoint());
    assert_eq!(before.run_depth(), 4);
    assert!(before.ancestor_bytes().get() > 0);
    let mut state = store.state(&mut backend);
    backend.reset_statistics();
    let compacted = checkpoint_manifest(&mut backend, &mut state, &source).unwrap();
    let statistics = backend.statistics();
    assert_eq!(statistics.blob_reads, 0);
    assert!(statistics
        .put_keys
        .iter()
        .all(|key| !matches!(key, ObjectKey::Blob(_))));
    store.adopt(&mut backend, &mut state, &compacted).unwrap();
    let view = store.current(&mut backend);
    let after = view.manifest_statistics().unwrap();
    assert!(view.is_checkpoint());
    assert_eq!(after.run_depth(), 0);
    assert!(after.logical_hash().same(&before.logical_hash()));
    assert_eq!(view.versions(), source.versions());
    assert_eq!(after.transaction_span().begin().get(), 1);
    assert_eq!(after.transaction_span().end().get(), 8);
    store.check(&mut backend);
    let bytes = store.bytes.clone();
    assert_reader(&mut backend, &source, &bytes);
}

#[test]
fn zero_truncate_regrow_and_replacement_cover_every_page() {
    let mut backend = memory();
    let mut store = create(&mut backend, layout());
    store.write_at(0, &(1..=6).map(page).collect::<Vec<_>>().concat());
    store.seal(&mut backend);
    store.check(&mut backend);
    // A page of zeros is not stored.
    store.write_at(2 * PAGE_BYTES, &vec![0; PAGE_BYTES]);
    store.seal(&mut backend);
    store.check(&mut backend);
    assert_eq!(store.current(&mut backend).versions().len(), 5);
    // What a truncation took away does not come back.
    store.truncate(2 * PAGE_BYTES);
    store.truncate(6 * PAGE_BYTES);
    store.seal(&mut backend);
    store.check(&mut backend);
    let view = store.current(&mut backend);
    assert_eq!(view.versions().len(), 2);
    assert_eq!(
        view.resolve(number(6)).unwrap().read(&mut backend).unwrap(),
        vec![0; PAGE_BYTES]
    );
    store.write_at(3 * PAGE_BYTES, &page(77));
    store.seal(&mut backend);
    store.check(&mut backend);
    assert_eq!(store.current(&mut backend).versions().len(), 3);
}

#[test]
fn writable_forks_share_objects_and_keep_independent_sealed_heads() {
    let mut backend = memory();
    let mut store = fixture(&mut backend, layout());
    let mut other = forked(&mut backend, &store, b"fork");
    let state = store.state(&mut backend);
    assert_eq!(heads(&state).unwrap(), vec!["fork", "main"]);
    let mut state = state;
    assert!(matches!(
        fork(&mut backend, &mut state, &accepted(), b"fork"),
        Err(StoreError::InvalidConfiguration(HEAD_EXISTS))
    ));
    assert!(matches!(
        fork(&mut backend, &mut state, &accepted(), b"no/slash"),
        Err(StoreError::InvalidConfiguration(_))
    ));
    let shared = other.current(&mut backend).id();
    assert!(shared.same(&store.current(&mut backend).id()));
    other.write_at(0, &page(200));
    other.seal(&mut backend);
    store.write_at(0, &page(201));
    store.seal(&mut backend);
    store.collect(&mut backend);
    store.check(&mut backend);
    other.check(&mut backend);
    assert_eq!(&other.bytes[18..PAGE_BYTES], &[200; PAGE_BYTES - 18][..]);
    // Without the fork, its objects go.
    let mut state = other.state(&mut backend);
    remove_head(&mut backend, &mut state).unwrap();
    let state = store.state(&mut backend);
    assert_eq!(heads(&state).unwrap(), vec!["main"]);
    assert!(store.collect(&mut backend).deleted_objects > 0);
    store.check(&mut backend);
}

/// The record that a name is retained by.
fn root_bytes(state: &State, name: &RetentionName) -> Vec<u8> {
    let key = name.as_str().as_bytes().to_vec();
    state.retentions.entries().get(&key).unwrap().clone()
}

#[test]
fn logical_roots_are_small_and_same_endpoint_replacement_rejects_stale_handles() {
    let mut backend = memory();
    let mut store = create(&mut backend, pages());
    store.write_at(0, &page(1));
    store.seal(&mut backend);
    let view = store.current(&mut backend);
    let mut state = store.state(&mut backend);
    let before = all_objects(&mut backend, &state).unwrap();
    let name = RetentionName::new("backup".to_owned()).unwrap();
    let stale = retain(&mut backend, &mut state, name.duplicate(), &view, false).unwrap();
    assert!(matches!(
        retain(&mut backend, &mut state, name.duplicate(), &view, false),
        Err(StoreError::RetentionExists(existing)) if existing == "backup"
    ));
    assert!(stale.logical_hash() == view.metadata().logical_hash());
    assert_eq!(stale.txid().get(), 1);
    let state = store.state(&mut backend);
    assert_eq!(all_objects(&mut backend, &state).unwrap(), before);
    let bytes = root_bytes(&state, &name);
    assert_eq!(bytes.len(), 144);
    assert_eq!(&bytes[..8], b"ZROOT001");
    assert_eq!(&bytes[40..72], stale.logical_hash().as_bytes());

    let mut state = store.state(&mut backend);
    let current = retain(&mut backend, &mut state, name.duplicate(), &view, true).unwrap();
    assert!(stale.logical_hash() == current.logical_hash());
    assert_ne!(root_bytes(&state, &name), bytes);
    assert!(matches!(
        release(&mut backend, &mut state, stale),
        Err(StoreError::Busy)
    ));
    let stale = read_root(&state, &name).unwrap();
    release(&mut backend, &mut state, current).unwrap();
    let recreated = retain(&mut backend, &mut state, name.duplicate(), &view, false).unwrap();
    assert!(stale.logical_hash() == recreated.logical_hash());
    assert!(matches!(
        release(&mut backend, &mut state, stale),
        Err(StoreError::Busy)
    ));
    release(&mut backend, &mut state, recreated).unwrap();
}

#[test]
fn invalid_root_records_stop_collection_without_mutation() {
    let mut backend = memory();
    let mut store = create(&mut backend, pages());
    store.write_at(0, &[page(1), page(2)].concat());
    store.seal(&mut backend);
    let view = store.current(&mut backend);
    let mut state = store.state(&mut backend);
    let name = RetentionName::new("offline".to_owned()).unwrap();
    let pinned = retain(&mut backend, &mut state, name.duplicate(), &view, false).unwrap();
    let original = root_bytes(&state, &name);
    let before = all_objects(&mut backend, &state).unwrap();
    let key = name.as_str().as_bytes().to_vec();
    let mut truncated = b"ZROOT001".to_vec();
    truncated.extend(pinned.database().as_bytes());
    truncated.extend([0_u8; 32]);
    let sum = hash(&truncated);
    truncated.extend(sum);
    let mut wrong_magic = original.clone();
    wrong_magic[..8].copy_from_slice(b"BADROOT!");
    let sum = hash(&wrong_magic[..112]);
    wrong_magic[112..].copy_from_slice(&sum);
    for bytes in [truncated, wrong_magic] {
        let mut state = store.state(&mut backend);
        state.retentions.insert(key.clone(), bytes.clone());
        state.publish_confirmed(&mut backend).unwrap();
        assert!(read_root(&state, &name).is_err());
        assert!(store.try_collect(&mut backend, 100).is_err());
        let state = store.state(&mut backend);
        assert_eq!(all_objects(&mut backend, &state).unwrap(), before);
        assert_eq!(root_bytes(&state, &name), bytes);
    }
    let mut state = store.state(&mut backend);
    state.retentions.insert(key, original);
    state.publish_confirmed(&mut backend).unwrap();
    let view = open_retained(&mut backend, &state, &name).unwrap();
    assert_eq!(view.logical_size().get(), 8192);
    release(&mut backend, &mut state, pinned).unwrap();
}

#[test]
fn whole_pack_collection_does_not_rewrite_stable_data() {
    let mut backend = memory();
    let mut store = tiny(&mut backend);
    let checkpoint = store.current(&mut backend).id();
    let before = placed_packs(&store.state(&mut backend));
    assert_eq!(before.len(), 3);
    store.write_at(0, &page(4));
    store.seal(&mut backend);
    store.collect(&mut backend);
    let state = store.state(&mut backend);
    let after = placed_packs(&state);
    let delta = store.current(&mut backend).manifest_statistics().unwrap();
    assert_eq!(delta.resolved_parent(), Some(checkpoint));
    assert_eq!(after.len(), 3);
    assert_eq!(before.iter().filter(|pack| after.contains(pack)).count(), 2);
    // Ancestor metadata remains even though its overwritten pack was collected.
    assert!(backend.stat(ObjectKey::Manifest(checkpoint)).unwrap().is_some());
    assert!(pin(&mut backend, &state, checkpoint).is_err());
    store.reopen(&mut backend);
    store.check(&mut backend);
}

#[test]
fn offline_fork_and_manifest_lease_each_retain_their_own_view() {
    let mut backend = memory();
    let mut store = create(&mut backend, pages());
    store.write_at(0, &page(1));
    store.seal(&mut backend);
    let view = store.current(&mut backend);
    let mut state = store.state(&mut backend);
    let name = RetentionName::new("offline-fork".to_owned()).unwrap();
    let _ = retain(&mut backend, &mut state, name.duplicate(), &view, false).unwrap();
    let packs = placed_packs(&state);
    let original = blobs(&mut backend, &store, &packs);
    store.reopen(&mut backend);
    store.write_at(0, &page(2));
    store.seal(&mut backend);
    assert!(original.iter().all(|key| backend.stat(*key).unwrap().is_some()));
    assert!(store.try_collect(&mut backend, 100).unwrap().retained_bytes > 0);
    let mut state = store.state(&mut backend);
    let reader = open_retained(&mut backend, &state, &name).unwrap();
    let read = reader.resolve(number(1)).unwrap().read(&mut backend);
    assert_eq!(read.unwrap(), page(1));
    store.readers.push(reader);
    let held = read_root(&state, &name).unwrap();
    release(&mut backend, &mut state, held).unwrap();
    store.try_collect(&mut backend, 100).unwrap();
    assert!(original.iter().all(|key| backend.stat(*key).unwrap().is_some()));
    store.readers.clear();
    store.try_collect(&mut backend, 100).unwrap();
    assert!(original.iter().all(|key| backend.stat(*key).unwrap().is_none()));
    store.check(&mut backend);
}

#[test]
fn stale_pin_cannot_release_advanced_root_and_bad_roots_stop_gc() {
    let mut backend = memory();
    let mut store = create(&mut backend, pages());
    store.write_at(0, &page(1));
    store.seal(&mut backend);
    let name = RetentionName::new("backup".to_owned()).unwrap();
    let view = store.current(&mut backend);
    let mut state = store.state(&mut backend);
    let stale = retain(&mut backend, &mut state, name.duplicate(), &view, false).unwrap();
    store.write_at(0, &page(2));
    store.seal(&mut backend);
    let view = store.current(&mut backend);
    let mut state = store.state(&mut backend);
    let _ = retain(&mut backend, &mut state, name.duplicate(), &view, true).unwrap();
    assert!(matches!(
        release(&mut backend, &mut state, stale),
        Err(StoreError::Busy)
    ));
    let before = placed_packs(&state);
    state.retentions.insert(
        name.as_str().as_bytes().to_vec(),
        b"corrupt retained root".to_vec(),
    );
    state.publish_confirmed(&mut backend).unwrap();
    assert!(store.try_collect(&mut backend, 100).is_err());
    assert_eq!(before, placed_packs(&store.state(&mut backend)));
}

#[test]
fn multi_page_frames_reconstruct_partial_obsolescence_and_compaction() {
    let mut backend = memory();
    let mut store = create(
        &mut backend,
        LayoutPolicy {
            frame_bytes: 65536,
            ..layout()
        },
    );
    store.write_at(0, &[page(1), page(2), page(3), page(4)].concat());
    store.seal(&mut backend);
    store.write_at(4096, &page(5));
    store.seal(&mut backend);
    let source = store.current(&mut backend);
    let mut state = store.state(&mut backend);
    let compacted = checkpoint_manifest(&mut backend, &mut state, &source).unwrap();
    store.adopt(&mut backend, &mut state, &compacted).unwrap();
    store.reopen(&mut backend);
    let expected = [page(1), page(5), page(3), page(4)].concat();
    let view = store.current(&mut backend);
    assert_reader(&mut backend, &view, &expected);
    assert_eq!(view.read_at(&mut backend, 0, expected.len()).unwrap(), expected);
}

#[test]
fn bounded_repack_skips_forks_then_removes_partial_obsolescence() {
    let mut backend = memory();
    let mut store = create(
        &mut backend,
        LayoutPolicy {
            frame_bytes: 65536,
            ..layout()
        },
    );
    store.write_at(0, &(1..=8).map(page).collect::<Vec<_>>().concat());
    store.seal(&mut backend);
    let view = store.current(&mut backend);
    let mut state = store.state(&mut backend);
    let name = RetentionName::new("fork".to_owned()).unwrap();
    let held = retain(&mut backend, &mut state, name, &view, false).unwrap();
    let packs = placed_packs(&state);
    let original = blobs(&mut backend, &store, &packs);
    store.write_at(0, &(20..=25).map(page).collect::<Vec<_>>().concat());
    store.seal(&mut backend);
    let before = store.header.unwrap();
    assert!(store.try_collect(&mut backend, 0).unwrap().partially_obsolete_bytes > 0);
    store.repack(&mut backend);
    assert!(original.iter().all(|key| backend.stat(*key).unwrap().is_some()));
    let mut state = store.state(&mut backend);
    release(&mut backend, &mut state, held).unwrap();
    store.repack(&mut backend);
    assert!(original.iter().all(|key| backend.stat(*key).unwrap().is_none()));
    let after = store.header.unwrap();
    assert_eq!(before.base_history, after.base_history);
    assert_eq!(before.start_txid, after.start_txid);
    assert!(store
        .occupancy(&mut backend)
        .iter()
        .all(|pack| pack.live_pages == pack.total_pages));
    assert_eq!(store.try_collect(&mut backend, 0).unwrap().partially_obsolete_bytes, 0);
    store.check(&mut backend);
}

fn has_manifest<B: StorageBackend>(backend: &mut B, id: ManifestId) -> bool {
    backend.stat(ObjectKey::Manifest(id)).unwrap().is_some()
}

fn compact<B: StorageBackend>(backend: &mut B, store: &mut Store) {
    let source = store.current(backend);
    let mut state = store.state(backend);
    let compacted = checkpoint_manifest(backend, &mut state, &source).unwrap();
    store.adopt(backend, &mut state, &compacted).unwrap();
}

#[test]
fn logical_parent_selects_widest_rollup_without_breaking_existing_readers() {
    let mut backend = memory();
    let mut store = create(&mut backend, pages());
    store.write_at(0, &[page(1), page(2), page(3), page(4)].concat());
    let base = store.seal(&mut backend);
    store.write_at(4096, &page(5));
    let parent_id = store.seal(&mut backend);
    let parent_hash = store.current(&mut backend).metadata().logical_hash();
    store.write_at(8192, &page(6));
    let child = store.seal(&mut backend);
    let old_reader = store.current(&mut backend);
    let mut state = store.state(&mut backend);
    let parent = pin(&mut backend, &state, parent_id).unwrap();
    let resolved = parent.metadata().resolved();
    let parent_endpoint = SealEndpoint {
        database: resolved.database,
        lineage: resolved.lineage,
        size: resolved.size,
        txid: resolved.txid,
        history: resolved.history,
        truncate: None,
    };
    let changes: Vec<(PageNumber, TransactionId)> = parent
        .versions()
        .iter()
        .map(|version| (version.page, version.txid))
        .collect();
    let mut contents = OrderedMap::new();
    for (number, _) in &changes {
        let read = parent.resolve(*number).unwrap().read(&mut backend).unwrap();
        contents.insert(*number, read);
    }
    let rolled = seal(
        &mut backend,
        &mut state,
        Some(&parent),
        &parent_endpoint,
        &changes,
        &contents,
        &store.layout,
        ManifestMode::Rollup,
        None,
    )
    .unwrap();
    state.publish_confirmed(&mut backend).unwrap();
    let rolled_id = rolled.id();
    let rolled_view = pin(&mut backend, &state, rolled_id).unwrap();
    let info = rolled_view.manifest_statistics().unwrap();
    assert!(info.logical_hash() == parent_hash);
    assert_ne!(rolled_id, parent_id);
    assert_eq!(info.run_depth(), 0);
    let new_reader = pin(&mut backend, &state, child).unwrap();
    assert_eq!(
        new_reader.manifest_statistics().unwrap().resolved_parent(),
        Some(rolled_id)
    );
    assert_eq!(
        old_reader.manifest_statistics().unwrap().resolved_parent(),
        Some(parent_id)
    );
    store.readers.push(old_reader);
    store.readers.push(new_reader);
    store.try_collect(&mut backend, 100).unwrap();
    assert!(has_manifest(&mut backend, base));
    assert!(has_manifest(&mut backend, parent_id));
    let expected = [page(1), page(5), page(6), page(4)].concat();
    assert_reader(&mut backend, &store.readers[0], &expected);
    assert_reader(&mut backend, &store.readers[1], &expected);
    store.readers.remove(0);
    store.try_collect(&mut backend, 100).unwrap();
    assert!(!has_manifest(&mut backend, base));
    assert!(!has_manifest(&mut backend, parent_id));
    assert!(has_manifest(&mut backend, rolled_id));
    store.readers.clear();
    store.reopen(&mut backend);
    store.check(&mut backend);
}

#[test]
fn offline_descendant_retains_transitive_parents_across_a_rollup() {
    let mut backend = memory();
    let mut store = create(&mut backend, pages());
    store.write_at(0, &[page(1), page(2), page(3), page(4)].concat());
    let mut ancestors = vec![store.seal(&mut backend)];
    for (index, value) in [(1, 5), (2, 6)] {
        store.write_at(index * PAGE_BYTES, &page(value));
        ancestors.push(store.seal(&mut backend));
    }
    let bytes = store.bytes.clone();
    let view = store.current(&mut backend);
    let mut state = store.state(&mut backend);
    let name = RetentionName::new("offline-descendant".to_owned()).unwrap();
    let held = retain(&mut backend, &mut state, name.duplicate(), &view, false).unwrap();
    let retained = open_retained(&mut backend, &state, &name).unwrap();
    store.readers.push(retained);
    store.reopen(&mut backend);
    compact(&mut backend, &mut store);
    let info = store.current(&mut backend).manifest_statistics().unwrap();
    assert_eq!(info.run_depth(), 0);
    for id in &ancestors {
        assert!(has_manifest(&mut backend, *id));
    }
    assert_reader(&mut backend, &store.readers[0], &bytes);
    store.try_collect(&mut backend, 100).unwrap();
    // A temporary reader still needs exactly this old parent chain.
    for id in &ancestors {
        assert!(has_manifest(&mut backend, *id));
    }
    store.readers.clear();
    store.try_collect(&mut backend, 100).unwrap();
    for id in ancestors {
        assert!(!has_manifest(&mut backend, id));
    }
    // The durable logical pin now uses the wider rollup, with no dependency on the
    // old chain. It survives later writes and a fully independent rollup.
    let state = store.state(&mut backend);
    let rolled = open_retained(&mut backend, &state, &name).unwrap();
    assert!(rolled.metadata().logical_hash() == held.logical_hash());
    let rolled_id = rolled.id();
    store.write_at(0, &page(9));
    store.seal(&mut backend);
    compact(&mut backend, &mut store);
    store.reopen(&mut backend);
    store.try_collect(&mut backend, 100).unwrap();
    let mut state = store.state(&mut backend);
    let retained = open_retained(&mut backend, &state, &name).unwrap();
    assert!(retained.id().same(&rolled_id));
    assert_reader(&mut backend, &retained, &bytes);
    // A second named owner of the same hash also keeps its last representation.
    let second = RetentionName::new("second-owner".to_owned()).unwrap();
    let second = retain(&mut backend, &mut state, second, &retained, false).unwrap();
    release(&mut backend, &mut state, held).unwrap();
    store.try_collect(&mut backend, 100).unwrap();
    assert!(has_manifest(&mut backend, rolled_id));
    let mut state = store.state(&mut backend);
    release(&mut backend, &mut state, second).unwrap();
    store.try_collect(&mut backend, 100).unwrap();
    assert!(!has_manifest(&mut backend, rolled_id));
    store.check(&mut backend);
}

#[test]
fn a_named_root_retains_its_view_and_a_stale_pin_cannot_release_it() {
    let mut backend = memory();
    let mut store = create(&mut backend, layout());
    store.write_at(0, &(1..=4).map(page).collect::<Vec<_>>().concat());
    store.seal(&mut backend);
    let first = store.bytes.clone();
    let view = store.current(&mut backend);
    let mut state = store.state(&mut backend);
    let name = RetentionName::new("keep".to_owned()).unwrap();
    let old = retain(&mut backend, &mut state, name.duplicate(), &view, false).unwrap();
    let stale = read_root(&state, &name).unwrap();
    store.write_at(0, &(11..=14).map(page).collect::<Vec<_>>().concat());
    store.seal(&mut backend);
    store.collect(&mut backend);
    let state = store.state(&mut backend);
    let kept = open_retained(&mut backend, &state, &name).unwrap();
    assert_reader(&mut backend, &kept, &first);
    // The name moves on; the pin of before is no longer good.
    let view = store.current(&mut backend);
    let mut state = store.state(&mut backend);
    let new = retain(&mut backend, &mut state, name.duplicate(), &view, true).unwrap();
    assert_eq!(new.txid().get(), 2);
    assert_eq!(old.txid().get(), 1);
    assert!(release(&mut backend, &mut state, stale).is_err());
    assert_eq!(root_names(&state).unwrap().len(), 1);
    let mut state = store.state(&mut backend);
    release(&mut backend, &mut state, new).unwrap();
    let state = store.state(&mut backend);
    assert!(root_names(&state).unwrap().is_empty());
    assert!(matches!(
        open_retained(&mut backend, &state, &name),
        Err(StoreError::NotFound)
    ));
    assert!(store.collect(&mut backend).deleted_objects > 0);
    store.check(&mut backend);
}

#[test]
fn relocation_keeps_manifests_and_lets_go_of_old_blobs() {
    let mut backend = memory();
    let store = fixture(&mut backend, layout());
    let before = store.current(&mut backend);
    let packs: Vec<PackId> = store
        .occupancy(&mut backend)
        .iter()
        .map(|pack| pack.pack)
        .collect();
    let sources = blobs(&mut backend, &store, &packs);
    let set = accepted();
    let none = Vec::new();
    let record = store.record(&backend);
    let active = store.header.map(|header| header.encode());
    let local = LocalRoots {
        active: active.as_ref(),
        attachment: store.local(backend.identity(), &record),
        accepted: &set,
        readers: &none,
        objects: &none,
    };
    let mut state = store.state(&mut backend);
    let reachable = reachable_packs(&mut backend, &state, &local).unwrap();
    assert_eq!(reachable.len(), packs.len());
    assert!(matches!(
        relocate(&mut backend, &mut state, &local, &packs, StoredBytes::new(1)),
        Err(StoreError::Range)
    ));
    let mut state = store.state(&mut backend);
    let report = relocate(
        &mut backend,
        &mut state,
        &local,
        &packs,
        StoredBytes::new(1 << 30),
    )
    .unwrap();
    assert_eq!(report.packs, packs.len());
    assert!(report.blob.is_some());
    let after = store.current(&mut backend);
    assert!(after.id().same(&before.id()));
    store.check(&mut backend);
    store.collect(&mut backend);
    for blob in sources {
        assert!(backend.stat(blob).unwrap().is_none());
    }
    store.check(&mut backend);
}

#[test]
fn objects_are_listed_and_measured() {
    let mut backend = memory();
    let store = fixture(&mut backend, layout());
    let state = store.state(&mut backend);
    let keys = all_objects(&mut backend, &state).unwrap();
    let mut manifests = 0;
    let mut packs = 0;
    for index in 0..keys.len() {
        let key = *keys.at(index);
        let length = logical_length(&mut backend, &state, key).unwrap();
        assert!(length > 0);
        match key {
            CatalogKey::Manifest(id) => {
                manifests += 1;
                let stored = backend.stat(ObjectKey::Manifest(id)).unwrap().unwrap();
                assert_eq!(stored.get(), length);
            }
            CatalogKey::Pack(_) => packs += 1,
            _ => panic!("{key:?}"),
        }
    }
    assert_eq!((manifests, packs), (5, 5));
    let missing = ManifestId::from_bytes([0; 32]);
    assert!(matches!(
        logical_length(&mut backend, &state, CatalogKey::Manifest(missing)),
        Err(StoreError::Backend(BackendError::Missing(_)))
    ));
}

#[test]
fn a_shared_dictionary_is_trained_adopted_and_carried_on() {
    let mut backend = memory();
    let mut store = create(&mut backend, layout());
    // Pages with much in common that a compressor finds in none of them alone.
    let words: Vec<Vec<u8>> = (0..64).map(|seed| noise(seed)[..64].to_vec()).collect();
    let mut random = 99_u64;
    let mut text = || {
        let mut bytes = Vec::new();
        while bytes.len() < PAGE_BYTES {
            bytes.extend_from_slice(&words[next_random(&mut random) % words.len()]);
        }
        bytes.truncate(PAGE_BYTES);
        bytes
    };
    for at in 0..400 {
        store.write_at(at * PAGE_BYTES, &text());
    }
    let mut reservoir = Samples::new(SampleBudget::new(8 << 20).unwrap());
    let (changes, contents) = store.changed();
    let dictionary = train(
        &mut reservoir,
        None,
        &store.endpoint(),
        &changes,
        &contents,
        &store.layout,
        &vec![8 << 10],
    )
    .unwrap()
    .expect("a dictionary");
    store
        .try_seal(&mut backend, ManifestMode::Incremental, Some(dictionary))
        .unwrap();
    store.check(&mut backend);
    let view = store.current(&mut backend);
    assert_eq!(view.preferred_dictionary_count(), 1);
    assert!(view.dictionary_bytes() > 0);
    assert!(view
        .frame_distribution()
        .iter()
        .any(|frames| frames.dictionary_frames > 0));
    // A small seal uses it again, and it is not collected.
    store.write_at(0, &text());
    store.seal(&mut backend);
    store.collect(&mut backend);
    store.check(&mut backend);
    assert_eq!(
        store.current(&mut backend).preferred_dictionary_count(),
        1
    );
}

#[test]
fn stale_catalog_writers_cannot_publish_or_collect() {
    let mut backend = memory();
    let mut store = fixture(&mut backend, layout());
    let mut stale = store.state(&mut backend);
    store.write_at(0, &page(150));
    store.seal(&mut backend);
    let record = store.record(&backend);
    let local = store.local(backend.identity(), &record);
    let header = store.header.unwrap();
    assert!(prepare_seal(&mut backend, &mut stale, &header, &local).is_err());
    store.collect(&mut backend);
    store.check(&mut backend);
}

#[test]
fn uncertain_attachment_claim_is_reread_and_confirmed() {
    let mut backend = FaultBackend::new(memory());
    let mut store = fixture(&mut backend, layout());
    let mut state = store.state(&mut backend);
    backend.inject(Operation::Publish, 1, Fault::AfterPublish);
    claim(&mut backend, &mut state, [42; 32]).unwrap();
    let state = store.state(&mut backend);
    assert_eq!(state.attachment, Some(AttachmentId::from_bytes([42; 32])));
    // The pagefile of before is stale.
    store.write_at(0, &page(9));
    assert!(matches!(
        store.try_seal(&mut backend, ManifestMode::Incremental, None),
        Err(StoreError::StaleAttachment)
    ));
}

#[test]
fn collection_reports_occupancy_without_blob_reads_or_repeated_blob_stats() {
    let mut backend = FaultBackend::new(memory());
    let mut store = create(
        &mut backend,
        LayoutPolicy {
            frame_bytes: PAGE_BYTES,
            ..layout()
        },
    );
    store.write_at(0, &(1..=4).map(page).collect::<Vec<_>>().concat());
    store.seal(&mut backend);
    store.write_at(0, &page(101));
    store.seal(&mut backend);
    let blobs = backend
        .inventory(None, 4096)
        .unwrap()
        .into_iter()
        .filter(|key| matches!(key, ObjectKey::Blob(_)))
        .count() as u64;
    assert_eq!(blobs, 2);
    for _ in 0..2 {
        backend.reset_statistics();
        let report = store.try_collect(&mut backend, 0).unwrap();
        let statistics = backend.statistics();
        assert_eq!(statistics.blob_reads, 0, "{statistics:?}");
        assert_eq!(statistics.blob_stat_calls, blobs, "{statistics:?}");
        assert_eq!(statistics.publications, 0, "{statistics:?}");
        assert_eq!(report.deleted_objects, 0);
        assert!(report.partially_obsolete_bytes > 0);
    }
    store.check(&mut backend);
}

#[test]
fn multi_page_frames_reconstruct_partial_obsolescence() {
    let mut backend = memory();
    let mut store = create(
        &mut backend,
        LayoutPolicy {
            frame_bytes: 65536,
            ..layout()
        },
    );
    store.write_at(0, &(1..=8).map(page).collect::<Vec<_>>().concat());
    store.seal(&mut backend);
    assert_eq!(store.collect(&mut backend).partially_obsolete_bytes, 0);
    store.write_at(0, &(11..=16).map(page).collect::<Vec<_>>().concat());
    store.seal(&mut backend);
    store.check(&mut backend);
    assert!(
        store
            .try_collect(&mut backend, 0)
            .unwrap()
            .partially_obsolete_bytes
            > 0
    );
    assert_eq!(store.repack(&mut backend).0, 1);
    assert_eq!(store.repack(&mut backend).0, 0);
    assert_eq!(
        store
            .try_collect(&mut backend, 0)
            .unwrap()
            .partially_obsolete_bytes,
        0
    );
    store.check(&mut backend);
}

#[test]
fn chain_depth_is_bounded_and_checkpoint_preserves_full_coverage() {
    let mut backend = memory();
    let mut store = create(
        &mut backend,
        LayoutPolicy {
            frame_bytes: PAGE_BYTES,
            ..layout()
        },
    );
    store.write_at(0, &[page(1), page(2), page(3)].concat());
    store.seal(&mut backend);
    let begin = store
        .current(&mut backend)
        .manifest_statistics()
        .unwrap()
        .transaction_span()
        .begin();
    for depth in 1..=MAX_RUN_DEPTH + 1 {
        store.write_at(PAGE_BYTES, &page(u8::try_from(depth + 4).unwrap()));
        store.seal(&mut backend);
        let info = store.current(&mut backend).manifest_statistics().unwrap();
        assert_eq!(info.run_depth(), depth % (MAX_RUN_DEPTH + 1));
        assert_eq!(info.transaction_span().begin(), begin);
    }
    store.check(&mut backend);
}

#[test]
fn recovery_finishes_a_seal_or_gives_it_up() {
    let mut backend = memory();
    let mut store = fixture(&mut backend, layout());
    let first = store.header.unwrap();
    store.write_at(0, &page(90));
    let record = store.record(&backend);
    let local = store.local(backend.identity(), &record);
    // A seal that was noted but not finished.
    let mut next = first;
    next.start_txid += 1;
    next.parent_physical_digest = [77; 32];
    let mut state = store.state(&mut backend);
    prepare_seal(&mut backend, &mut state, &next, &local).unwrap();
    assert!(store.state(&mut backend).has_pending().unwrap());
    assert!(matches!(
        finish_seal(&mut backend, &mut state, &first, &local),
        Err(StoreError::Busy)
    ));
    // What it names is not there: nothing may be collected.
    assert!(store.try_collect(&mut backend, usize::MAX).is_err());
    store.check(&mut backend);
    // The pagefile of before survived: the seal is given up.
    let mut state = store.state(&mut backend);
    recover_seal(&mut backend, &mut state, &first, &local).unwrap();
    let state = store.state(&mut backend);
    assert!(!state.has_pending().unwrap());
    assert_eq!(state.sealed, Some(first));
    // The new one is in place: it is finished.
    let mut state = store.state(&mut backend);
    prepare_seal(&mut backend, &mut state, &next, &local).unwrap();
    recover_seal(&mut backend, &mut state, &next, &local).unwrap();
    assert_eq!(store.state(&mut backend).sealed, Some(next));
}

#[test]
fn a_namespace_has_one_database_and_one_attachment() {
    let mut backend = memory();
    let state = State::load_for(&mut backend, b"main").unwrap();
    let home = backend.identity();
    let record = local_attachment_record(&home, &[42; 32], PATH);
    let elsewhere = local_attachment_record(&home, &[42; 32], b"/copy");
    let none = LocalAttachment {
        found: None,
        home,
        path: PATH,
    };
    let claimed = claim_namespace(&state, &database(), [42; 32], &none).unwrap();
    assert_eq!(claimed, AttachmentId::from_bytes([42; 32]));
    let mut state = state;
    commit_namespace(&mut backend, &mut state, database(), claimed).unwrap();
    // The same pagefile may try again; a copy of it, or another database, not.
    for (found, other, fine) in [
        (&record, database(), true),
        (&elsewhere, database(), false),
        (&record, DatabaseId::from_bytes([8; 32]), false),
    ] {
        let local = LocalAttachment {
            found: Some(found),
            home,
            path: PATH,
        };
        let claimed = claim_namespace(&state, &other, [43; 32], &local);
        assert_eq!(claimed.is_ok(), fine);
    }
}

#[test]
fn an_empty_namespace_cannot_have_two_writable_pagefiles() {
    let mut backend = memory();
    let mut state = State::load_for(&mut backend, b"main").unwrap();
    let home = backend.identity();
    assert!(check_vacant(&state).is_ok());
    let first = LocalAttachment {
        found: None,
        home,
        path: b"/one.zsqlite",
    };
    let claimed = claim_namespace(&state, &database(), [42; 32], &first).unwrap();
    let record = local_attachment_record(&home, claimed.as_bytes(), b"/one.zsqlite");
    commit_namespace(&mut backend, &mut state, database(), claimed).unwrap();
    let state = State::load_for(&mut backend, b"main").unwrap();
    assert!(matches!(check_vacant(&state), Err(StoreError::Busy)));
    let second = LocalAttachment {
        found: Some(&record),
        home,
        path: b"/two.zsqlite",
    };
    assert!(matches!(
        claim_namespace(&state, &database(), [43; 32], &second),
        Err(StoreError::StaleAttachment)
    ));
}

#[test]
fn durable_roots_prevent_whole_bundle_deletion_without_live_processes() {
    let mut backend = memory();
    let mut store = create(&mut backend, pages());
    store.write_at(0, &page(1));
    store.seal(&mut backend);
    let view = store.current(&mut backend);
    let mut state = store.state(&mut backend);
    let name = RetentionName::new("offline".to_owned()).unwrap();
    let held = retain(&mut backend, &mut state, name, &view, false).unwrap();
    let record = store.record(&backend);
    let local = store.local(backend.identity(), &record);
    let header = store.header.unwrap();
    assert!(matches!(
        destroy(&mut backend, &mut state, &header, &local, &accepted()),
        Err(StoreError::Busy)
    ));
    let mut state = store.state(&mut backend);
    release(&mut backend, &mut state, held).unwrap();
    destroy(&mut backend, &mut state, &header, &local, &accepted()).unwrap();
    assert!(backend.inventory(None, 4096).unwrap().is_empty());
}

#[test]
fn deletion_leaves_nothing_behind() {
    let mut backend = memory();
    let store = fixture(&mut backend, layout());
    let record = store.record(&backend);
    let local = store.local(backend.identity(), &record);
    let mut state = store.state(&mut backend);
    destroy(
        &mut backend,
        &mut state,
        &store.header.unwrap(),
        &local,
        &accepted(),
    )
    .unwrap();
    assert!(backend.inventory(None, 4096).unwrap().is_empty());
    let state = store.state(&mut backend);
    assert!(state.database.is_none());
    assert!(state.sealed.is_none());
}

#[test]
fn ranges_of_a_pack_are_read_together_and_in_order() {
    let mut backend = FaultBackend::new(memory());
    let store = fixture(&mut backend, layout());
    let view = store.current(&mut backend);
    let packs: Vec<PackId> = inventory(&mut backend, &view)
        .unwrap()
        .iter()
        .map(|pack| pack.pack)
        .collect();
    let pinned = view.placement();
    let range =
        |offset, length| PackRange::new(PackOffset::new(offset), StoredBytes::new(length)).unwrap();
    let requests = [
        pinned.locate(packs[0], range(8, 8)).unwrap(),
        pinned.locate(packs[0], range(0, 8)).unwrap(),
        pinned.locate(packs[0], range(4, 8)).unwrap(),
        pinned.locate(packs[0], range(24, 8)).unwrap(),
        pinned.locate(packs[1], range(0, 8)).unwrap(),
    ];
    backend.reset_statistics();
    let result = pinned.read_ranges(&mut backend, &requests).unwrap();
    assert_eq!(backend.statistics().batches, 1);
    assert_eq!(backend.statistics().reads, 3);
    assert_eq!(backend.statistics().read_bytes, 32);
    assert_eq!(result[1], b"ZPACK001");
    assert_eq!(result[4], b"ZPACK001");
    assert_eq!(result[2], [&result[1][4..], &result[0][..4]].concat());
    let length = pinned.length(packs[0]).unwrap().get();
    assert!(pinned.locate(packs[0], range(length, 1)).is_err());
    backend.inject(Operation::Read, 1, Fault::ShortRead);
    assert!(pinned.read_ranges(&mut backend, &requests).is_err());
}

#[test]
fn every_damaged_read_is_refused() {
    let mut backend = FaultBackend::new(memory());
    let store = fixture(&mut backend, layout());
    let view = store.current(&mut backend);
    for fault in [Fault::CorruptRead, Fault::ShortRead] {
        backend.inject(Operation::Read, 1, fault);
        let page = view.resolve(number(4)).unwrap();
        assert!(page.read(&mut backend).is_err());
        assert!(page.read(&mut backend).is_ok());
    }
}

#[test]
fn frames_are_fetched_once_for_many_pages() {
    let mut backend = FaultBackend::new(memory());
    let store = fixture(&mut backend, layout());
    let view = store.current(&mut backend);
    backend.reset_statistics();
    let asked: Vec<PageNumber> = (1..=16).map(number).collect();
    let records = view.read_frame_records(&mut backend, &asked).unwrap();
    let frames: u64 = view
        .frame_distribution()
        .iter()
        .map(|frames| frames.frames)
        .sum();
    assert_eq!(records.len() as u64, frames);
    assert_eq!(backend.statistics().batches, 1);
}

#[test]
fn ranges_of_bytes_cross_pages_and_stop_at_the_end() {
    let mut backend = memory();
    let mut store = create(&mut backend, layout());
    store.write_at(0, &[noise(1), noise(2), vec![0; PAGE_BYTES], noise(4)].concat());
    store.seal(&mut backend);
    let view = store.current(&mut backend);
    for (offset, length) in [
        (0, 4 * PAGE_BYTES),
        (1, 1),
        (PAGE_BYTES - 1, 2),
        (PAGE_BYTES, PAGE_BYTES),
        (100, 3 * PAGE_BYTES),
        (3 * PAGE_BYTES + 7, 2 * PAGE_BYTES),
        (4 * PAGE_BYTES, 5),
        (5 * PAGE_BYTES, 1),
        (9, 0),
    ] {
        let read = view.read_at(&mut backend, offset as u64, length).unwrap();
        let end = (offset + length).min(store.bytes.len());
        let expected = store.bytes.get(offset..end).unwrap_or(&[]);
        assert!(read == expected, "{offset} {length}");
    }
    assert!(view.read_at(&mut backend, u64::MAX, usize::MAX).unwrap().is_empty());
}

#[test]
fn nothing_is_published_after_doubt() {
    let mut backend = FaultBackend::new(memory());
    let store = fixture(&mut backend, layout());
    let record = store.record(&backend);
    let local = store.local(backend.identity(), &record);
    let header = store.header.unwrap();
    let mut state = store.state(&mut backend);
    backend.inject(Operation::Publish, 1, Fault::AfterPublish);
    assert!(matches!(
        prepare_seal(&mut backend, &mut state, &header, &local),
        Err(StoreError::Backend(BackendError::Uncertain(_)))
    ));
    backend.reset_statistics();
    assert!(matches!(
        finish_seal(&mut backend, &mut state, &header, &local),
        Err(StoreError::Backend(BackendError::Uncertain(_)))
    ));
    assert!(store.try_collect(&mut backend, usize::MAX).is_ok());
    assert!(matches!(
        collect_with(&mut backend, &mut state, &store),
        Err(StoreError::Backend(BackendError::Uncertain(_)))
    ));
    assert_eq!(backend.statistics().publications, 0);
}

fn collect_with<B: StorageBackend>(
    backend: &mut B,
    state: &mut State,
    store: &Store,
) -> Result<GcReport, StoreError> {
    let set = accepted();
    let none = Vec::new();
    let record = store.record(backend);
    let local = LocalRoots {
        active: None,
        attachment: store.local(backend.identity(), &record),
        accepted: &set,
        readers: &none,
        objects: &none,
    };
    collect(backend, state, &local, &none, usize::MAX)
}
