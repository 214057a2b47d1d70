use inspace::api::copy::copied;
use inspace::api::tree::Node;
use inspace::api::tx::Tx;
use inspace::error::Error;
use inspace::storage::check::check;
use inspace::storage::commit::{allocate, count_free, plan_tree, read_freelist, read_snapshot};
use inspace::storage::cursor::Pages;
use inspace::storage::inspect::FormatInfo;
use inspace::storage::meta::{initial_pages, select_meta};
use inspace::storage::options::{default_page_size, FileAction, OpenOptions};
use inspace::storage::pack::{count_pages, pack_bucket, pages_for};
use inspace::storage::page::{RetiredPage, FORMAT_VERSION};
use inspace::storage::readers::OpenReaders;
use inspace::storage::writer::{writer_start, CommitPlan, FileWrite};

/// A database file in memory.
struct File {
    bytes: Vec<u8>,
    pagesize: usize,
}

impl File {
    fn new(pagesize: usize, num_pages: usize, version: u32) -> File {
        let plan = OpenOptions::new()
            .pagesize(pagesize as u64)
            .num_pages(num_pages)
            .plan(None)
            .unwrap();
        let mut bytes = initial_pages(pagesize, version);
        match plan.action {
            FileAction::Create { bytes: size, .. } => bytes.resize(size as usize, 0),
            _ => panic!("a new file is made"),
        }
        File { bytes, pagesize }
    }

    fn version(&self) -> u32 {
        select_meta(&self.bytes, self.pagesize as u64).unwrap().version
    }

    fn pages(&self) -> Pages<'_> {
        Pages::new(&self.bytes, self.pagesize as u64, self.version())
    }

    fn snapshot(&self) -> Node {
        let meta = select_meta(&self.bytes, self.pagesize as u64).unwrap();
        read_snapshot(&self.pages(), meta.root).unwrap()
    }

    fn free(&self) -> Vec<RetiredPage> {
        let meta = select_meta(&self.bytes, self.pagesize as u64).unwrap();
        read_freelist(&self.pages(), meta.freelist_page).unwrap()
    }

    fn verify(&self) -> Result<(), Error> {
        let meta = select_meta(&self.bytes, self.pagesize as u64).unwrap();
        check(&self.bytes, self.pagesize as u64, meta)
    }

    fn write(&mut self, w: &FileWrite) {
        let at = w.offset as usize;
        self.bytes[at..at + w.bytes.len()].copy_from_slice(&w.bytes);
    }

    fn write_data(&mut self, plan: &CommitPlan) {
        if let Some(size) = plan.new_size {
            self.bytes.resize(size as usize, 0);
        }
        for w in &plan.data {
            self.write(w);
        }
    }

    fn plan(&self, oldest_reader: Option<u64>, root: &Node) -> CommitPlan {
        let current = select_meta(&self.bytes, self.pagesize as u64).unwrap();
        let (meta, horizon) = writer_start(current, oldest_reader);
        plan_tree(
            meta,
            root,
            &self.free(),
            horizon,
            self.pagesize,
            self.bytes.len() as u64,
            self.pagesize as u64,
            None,
        )
        .unwrap()
    }

    fn update(&mut self, oldest_reader: Option<u64>, change: impl FnOnce(&mut Tx)) {
        let current = select_meta(&self.bytes, self.pagesize as u64).unwrap();
        let mut tx = Tx::new(self.snapshot(), current.tx_id + 1, true);
        change(&mut tx);
        let (root, _) = tx.commit().unwrap();
        let plan = self.plan(oldest_reader, &root);
        self.write_data(&plan);
        self.write(&plan.meta_write);
    }

    /// Copies live data into a compact file.
    fn compact(&self, pagesize: usize) -> File {
        let mut target = File::new(pagesize, 4, FORMAT_VERSION);
        let root = copied(&self.snapshot());
        let plan = target.plan(None, &root);
        target.write_data(&plan);
        target.write(&plan.meta_write);
        target
    }
}

fn migrates_version_one() {
    let mut db = File::new(4096, 32, 1);
    let plain = FormatInfo::inspect(&db.bytes, db.bytes.len() as u64);
    assert_eq!(OpenOptions::new().plan(Some(plain)).unwrap().pagesize, 4096);
    let detected = FormatInfo::inspect(&db.bytes, db.bytes.len() as u64);
    assert_eq!(OpenOptions::new().pagesize(4096).plan(Some(detected)).unwrap().pagesize, 4096);
    assert_eq!(db.version(), 1);
    db.update(None, |tx| {
        tx.create_bucket(b"legacy").unwrap().put(b"key", b"value".to_vec()).unwrap();
    });
    assert!(db.verify().is_ok());
    assert_eq!(db.version(), 1);

    let migrated = db.compact(4096);
    let detected = FormatInfo::inspect(&migrated.bytes, migrated.bytes.len() as u64);
    assert_eq!(OpenOptions::new().pagesize(4096).plan(Some(detected)).unwrap().pagesize, 4096);
    assert_eq!(migrated.version(), FORMAT_VERSION);
    let mut tx = Tx::new(migrated.snapshot(), 1, false);
    assert_eq!(tx.get_bucket(b"legacy").unwrap().get_kv(b"key").unwrap(), b"value");
    assert!(migrated.verify().is_ok());
}

#[test]
fn db_opens_and_migrates_version_one_databases() {
    migrates_version_one();
}

#[test]
fn db_tests_opens_and_migrates_version_one_databases() {
    migrates_version_one();
}

#[test]
fn db_tests_test_open_options() {
    assert_ne!(default_page_size(), Some(5000));
    let db = File::new(5000, 100, FORMAT_VERSION);
    assert_eq!(db.bytes.len(), 500_000);
    let detected = FormatInfo::inspect(&db.bytes, db.bytes.len() as u64);
    let plan = OpenOptions::new().pagesize(5000).num_pages(100).plan(Some(detected)).unwrap();
    assert_eq!(plan.pagesize, 5000);
}

#[test]
fn db_tests_test_different_pagesizes_are_detected() {
    assert_ne!(default_page_size(), Some(5000));
    let db = File::new(5000, 100, FORMAT_VERSION);
    let detected = FormatInfo::inspect(&db.bytes, db.bytes.len() as u64);
    assert_eq!(OpenOptions::new().plan(Some(detected)).unwrap().pagesize, 5000);
}

fn page_ids(free: &[RetiredPage]) -> Vec<u64> {
    free.iter().map(|entry| entry.page_id).collect()
}

#[test]
fn test_concurrent_txs() {
    let mut db = File::new(1024, 10, FORMAT_VERSION);
    let mut readers = OpenReaders::new();
    {
        let meta = select_meta(&db.bytes, 1024).unwrap();
        let tx = Tx::new(db.snapshot(), meta.tx_id, false);
        readers.open(meta.tx_id);
        assert!(!tx.writable);
        assert_eq!(db.bytes.len(), 1024 * 10);
        assert_eq!(readers.count(), 1);
        assert_eq!(readers.oldest(), Some(meta.tx_id));
        assert_eq!(page_ids(&db.free()), Vec::<u64>::new());
        db.update(readers.oldest(), |tx| {
            assert!(tx.writable);
            assert_eq!(tx.id, 1);
            tx.create_bucket(b"abc").unwrap().put(b"123", b"456".to_vec()).unwrap();
        });
        assert_eq!(page_ids(&db.free()), vec![2, 3]);
        db.update(readers.oldest(), |tx| {
            assert!(tx.writable);
            assert_eq!(tx.id, 2);
            tx.get_bucket(b"abc").unwrap().put(b"123", b"456".to_vec()).unwrap();
        });
        readers.close(meta.tx_id);
    }
    let (meta, horizon) = writer_start(select_meta(&db.bytes, 1024).unwrap(), readers.oldest());
    let mut free = db.free();
    assert_eq!(page_ids(&free), vec![2, 3, 4, 5, 6]);
    let mut num_pages = meta.num_pages as usize;
    assert_eq!(num_pages, 10);
    let need = pages_for(40, 1024);
    for id in 2..=6 {
        let page = allocate(&free, horizon, num_pages, need);
        assert_eq!(page, id);
        assert_eq!(need - 1, 0);
        free.retain(|entry| entry.page_id != page as u64);
        num_pages = num_pages.max(page + need);
    }
    assert_eq!(num_pages, 10);
    let page = allocate(&free, horizon, num_pages, need);
    assert_eq!(page, 10);
    num_pages = num_pages.max(page + need);
    assert_eq!(num_pages, 11);
    assert_eq!(page_ids(&free), Vec::<u64>::new());
}

#[test]
fn released_pages_are_used_again() {
    let mut db = File::new(1024, 4, FORMAT_VERSION);
    for i in 0..50_u8 {
        db.update(None, |tx| {
            tx.get_or_create_bucket(b"b").unwrap().put(b"k", vec![i]).unwrap();
        });
        assert!(db.verify().is_ok());
    }
    assert!(db.bytes.len() <= 12 * 1024);
    assert_eq!(db.snapshot().child(b"b").unwrap().get_kv(b"k").unwrap(), &[49]);
    let (reusable, pending) = count_free(&db.free(), 50);
    assert_eq!((reusable + pending) as usize, db.free().len());
}

#[test]
fn large_and_nested_buckets_are_read_back() {
    let mut db = File::new(1024, 4, FORMAT_VERSION);
    db.update(None, |tx| {
        let mut outer = tx.create_bucket(b"outer").unwrap();
        outer.put(b"large", vec![7; 10_000]).unwrap();
        let mut inner = outer.create_bucket(b"inner").unwrap();
        for i in 0..200_u32 {
            inner.put(&i.to_be_bytes(), i.to_le_bytes().to_vec()).unwrap();
        }
        tx.create_bucket(b"empty").unwrap();
    });
    assert!(db.verify().is_ok());
    let root = db.snapshot();
    let outer = root.child(b"outer").unwrap();
    assert_eq!(outer.get_kv(b"large").unwrap(), &vec![7; 10_000]);
    let inner = outer.child(b"inner").unwrap();
    assert_eq!(inner.len(), 200);
    assert_eq!(inner.next_int(), 200);
    assert_eq!(inner.get_kv(&9_u32.to_be_bytes()).unwrap(), &9_u32.to_le_bytes());
    assert_eq!(root.child(b"empty").unwrap().len(), 0);
    let larger = db.compact(4096);
    assert!(larger.verify().is_ok());
    assert_eq!(larger.snapshot().child(b"outer").unwrap().child(b"inner").unwrap().len(), 200);
}

#[test]
fn an_unpublished_commit_does_not_count() {
    let mut db = File::new(1024, 4, FORMAT_VERSION);
    db.update(None, |tx| {
        tx.create_bucket(b"b").unwrap().put(b"k", b"old".to_vec()).unwrap();
    });
    let mut tx = Tx::new(db.snapshot(), 2, true);
    tx.get_bucket(b"b").unwrap().put(b"k", b"new".to_vec()).unwrap();
    let (root, _) = tx.commit().unwrap();
    let plan = db.plan(None, &root);
    db.write_data(&plan);
    assert_eq!(db.snapshot().child(b"b").unwrap().get_kv(b"k").unwrap(), b"old");
    assert!(db.verify().is_ok());
    db.write(&plan.meta_write);
    assert_eq!(db.snapshot().child(b"b").unwrap().get_kv(b"k").unwrap(), b"new");
    assert!(db.verify().is_ok());
}

/// What a file holds under `b` and `k`, if there is such a bucket.
fn under_k(root: &Node) -> Option<Vec<u8>> {
    root.child(b"b").ok().map(|b| b.get_kv(b"k").unwrap().to_vec())
}

#[test]
fn an_interrupted_publication_leaves_one_snapshot() {
    for commits in 0..3_u8 {
        let mut db = File::new(1024, 4, FORMAT_VERSION);
        for i in 0..commits {
            db.update(None, |tx| {
                tx.get_or_create_bucket(b"b").unwrap().put(b"k", vec![i]).unwrap();
            });
        }
        let before = under_k(&db.snapshot());
        let free = db.free();
        let mut tx = Tx::new(db.snapshot(), commits as u64 + 1, true);
        tx.get_or_create_bucket(b"b").unwrap().put(b"k", b"new".to_vec()).unwrap();
        let (root, _) = tx.commit().unwrap();
        let plan = db.plan(None, &root);
        db.write_data(&plan);
        for written in 0..=1024 {
            let mut torn = File { bytes: db.bytes.clone(), pagesize: 1024 };
            torn.write(&FileWrite {
                offset: plan.meta_write.offset,
                bytes: plan.meta_write.bytes[..written].to_vec(),
            });
            let at = plan.meta_write.offset as usize;
            if torn.bytes[at..at + 1024] == plan.meta_write.bytes[..] {
                assert_eq!(under_k(&torn.snapshot()), Some(b"new".to_vec()));
            } else {
                assert_eq!(under_k(&torn.snapshot()), before);
                assert_eq!(torn.free(), free);
            }
        }
    }
}

#[test]
fn readers_keep_their_snapshots() {
    let mut db = File::new(1024, 4, FORMAT_VERSION);
    let put = |db: &mut File, oldest: Option<u64>, i: u8| {
        db.update(oldest, |tx| {
            tx.get_or_create_bucket(b"b").unwrap().put(b"k", vec![i; 100]).unwrap();
        })
    };
    put(&mut db, None, 0);
    put(&mut db, None, 1);
    let opened = select_meta(&db.bytes, 1024).unwrap();
    for i in 2..12_u8 {
        put(&mut db, Some(opened.tx_id), i);
        let seen = read_snapshot(&db.pages(), opened.root).unwrap();
        assert_eq!(under_k(&seen), Some(vec![1; 100]));
        assert_eq!(under_k(&db.snapshot()), Some(vec![i; 100]));
    }
    for i in 12..20_u8 {
        put(&mut db, None, i);
    }
    let gone = read_snapshot(&db.pages(), opened.root);
    assert!(gone.is_err() || under_k(&gone.unwrap()) != Some(vec![1; 100]));
}

#[test]
fn a_file_in_use_keeps_its_pages() {
    let mut db = File::new(1024, 4, FORMAT_VERSION);
    for i in 0..3_u8 {
        db.update(None, |tx| {
            tx.get_or_create_bucket(b"b").unwrap().put(b"k", vec![i; 100]).unwrap();
        });
    }
    let pages = select_meta(&db.bytes, 1024).unwrap().num_pages;
    for i in 0..20_u8 {
        db.update(None, |tx| {
            tx.get_bucket(b"b").unwrap().put(b"k", vec![i; 100]).unwrap();
        });
        assert_eq!(select_meta(&db.bytes, 1024).unwrap().num_pages, pages);
    }
    assert!(db.verify().is_ok());
}

#[test]
fn buckets_take_whole_pages() {
    assert_eq!(pages_for(1024, 1024), 1);
    assert_eq!(pages_for(1025, 1024), 2);
    let mut root = Node::new();
    root.create_bucket(b"a").unwrap();
    root.child_mut(b"a").unwrap().put(b"k", vec![0; 2000]).unwrap();
    assert_eq!(count_pages(&root, 1024), Some(4));
    let mut blocks = Vec::new();
    let (record, end) = pack_bucket(&root, 1024, 10, &mut blocks);
    assert_eq!((record.root_page, end), (13, 14));
    assert_eq!(blocks.len(), 2);
    assert_eq!(blocks[0].page_id, 10);
    assert_eq!(blocks[0].bytes.len(), 3 * 1024);
}

#[test]
fn unreadable_snapshots_are_refused() {
    let mut db = File::new(1024, 4, FORMAT_VERSION);
    db.update(None, |tx| {
        tx.create_bucket(b"b").unwrap();
    });
    let meta = select_meta(&db.bytes, 1024).unwrap();
    assert!(read_freelist(&db.pages(), meta.root.root_page).is_err());
    let at = (meta.root.root_page as usize) * 1024 + 50;
    db.bytes[at] ^= 1;
    assert!(matches!(read_snapshot(&db.pages(), meta.root), Err(Error::InvalidDB(_))));
}
