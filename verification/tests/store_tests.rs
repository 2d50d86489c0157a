use kvs::error::KvError;
use kvs::kv::{Action, KvStore};
use kvs::log::Segment;
use std::collections::HashMap;

fn b(s: &str) -> Vec<u8> {
    s.as_bytes().to_vec()
}

fn fresh() -> KvStore {
    let (store, _) = KvStore::open(Vec::new()).unwrap();
    store
}

/// Apply actions to a simulated directory, as the embedding application
/// applies them to the real one.
fn apply(disk: &mut HashMap<u64, Vec<u8>>, actions: &[Action]) {
    for a in actions {
        match a {
            Action::Create { gen } => {
                disk.insert(*gen, Vec::new());
            }
            Action::Append { gen, bytes } => {
                disk.entry(*gen).or_default().extend_from_slice(bytes);
            }
            Action::Delete { gen } => {
                disk.remove(gen);
            }
        }
    }
}

fn disk_of_snapshot(segs: &[Segment]) -> HashMap<u64, Vec<u8>> {
    segs.iter().map(|s| (s.gen, s.data.clone())).collect()
}

#[test]
fn set_get_remove_round() {
    let mut store = fresh();
    store.set(b("a"), b("1")).unwrap();
    assert_eq!(store.get(&b("a")).unwrap(), Some(b("1")));
    store.remove(&b("a")).unwrap();
    assert_eq!(store.get(&b("a")).unwrap(), None);
    assert_eq!(store.remove(&b("a")).unwrap_err(), KvError::NotFound);
}

#[test]
fn overwrite_then_restart_sees_last_write() {
    let mut store = fresh();
    store.set(b("a"), b("1")).unwrap();
    store.set(b("a"), b("2")).unwrap();
    let image = store.snapshot();
    let (reopened, _) = KvStore::open(image).unwrap();
    assert_eq!(reopened.get(&b("a")).unwrap(), Some(b("2")));
}

#[test]
fn remove_absent_does_not_touch_the_log() {
    let mut store = fresh();
    store.set(b("a"), b("1")).unwrap();
    let before: usize = store.snapshot().iter().map(|s| s.data.len()).sum();
    assert_eq!(store.remove(&b("zzz")).unwrap_err(), KvError::NotFound);
    let after: usize = store.snapshot().iter().map(|s| s.data.len()).sum();
    assert_eq!(before, after);
}

#[test]
fn removal_survives_restart() {
    let mut store = fresh();
    store.set(b("a"), b("1")).unwrap();
    store.set(b("b"), b("2")).unwrap();
    store.remove(&b("a")).unwrap();
    let (reopened, _) = KvStore::open(store.snapshot()).unwrap();
    assert_eq!(reopened.get(&b("a")).unwrap(), None);
    assert_eq!(reopened.get(&b("b")).unwrap(), Some(b("2")));
}

#[test]
fn compaction_preserves_state_and_resets_counter() {
    let mut store = fresh();
    for i in 0..50u32 {
        store.set(b(&format!("k{}", i)), b(&format!("v{}", i))).unwrap();
    }
    for i in 0..25u32 {
        store.set(b(&format!("k{}", i)), b(&format!("w{}", i))).unwrap();
    }
    store.remove(&b("k30")).unwrap();
    let gen_before = store.current_gen();
    store.compact();
    assert!(store.current_gen() >= gen_before);
    assert_eq!(store.uncompacted(), 0);
    for i in 0..25u32 {
        assert_eq!(
            store.get(&b(&format!("k{}", i))).unwrap(),
            Some(b(&format!("w{}", i)))
        );
    }
    for i in 31..50u32 {
        assert_eq!(
            store.get(&b(&format!("k{}", i))).unwrap(),
            Some(b(&format!("v{}", i)))
        );
    }
    assert_eq!(store.get(&b("k30")).unwrap(), None);
}

#[test]
fn compaction_shrinks_footprint() {
    let mut store = fresh();
    let value_a = vec![65u8; 1024];
    let value_b = vec![66u8; 1024];
    for i in 0..1000u32 {
        store.set(b(&format!("k{}", i)), value_a.clone()).unwrap();
    }
    for i in 0..1000u32 {
        store.set(b(&format!("k{}", i)), value_b.clone()).unwrap();
    }
    for i in 0..1000u32 {
        assert_eq!(store.get(&b(&format!("k{}", i))).unwrap(), Some(value_b.clone()));
    }
    store.compact();
    let total: usize = store.snapshot().iter().map(|s| s.data.len()).sum();
    // within 4x of the ~1 MiB live set
    assert!(total <= 4 * 1024 * 1024, "directory still holds {} bytes", total);
    for i in 0..1000u32 {
        assert_eq!(store.get(&b(&format!("k{}", i))).unwrap(), Some(value_b.clone()));
    }
}

#[test]
fn torn_tail_is_discarded_on_open() {
    let mut store = fresh();
    store.set(b("a"), b("1")).unwrap();
    store.set(b("b"), b("2")).unwrap();
    let mut image = store.snapshot();
    // corrupt the final byte of the last log file
    let mut disk = disk_of_snapshot(&image);
    let last = image.last_mut().unwrap();
    let n = last.data.len();
    last.data[n - 1] ^= 0xff;
    disk.get_mut(&last.gen).unwrap()[n - 1] ^= 0xff;
    let (reopened, acts) = KvStore::open(image).unwrap();
    assert_eq!(reopened.get(&b("a")).unwrap(), Some(b("1")));
    // the record whose tail was torn is gone
    assert_eq!(reopened.get(&b("b")).unwrap(), None);
    // the returned actions also scrub the torn bytes from the directory,
    // so a further restart accepts it and sees the same state
    apply(&mut disk, &acts);
    assert_eq!(disk, disk_of_snapshot(&reopened.snapshot()));
    let mut segs: Vec<Segment> = disk
        .iter()
        .map(|(g, d)| Segment { gen: *g, data: d.clone() })
        .collect();
    segs.sort_by_key(|s| s.gen);
    let (again, _) = KvStore::open(segs).unwrap();
    assert_eq!(again.get(&b("a")).unwrap(), Some(b("1")));
    assert_eq!(again.get(&b("b")).unwrap(), None);
}

#[test]
fn corruption_before_the_tail_aborts_open() {
    let mut store = fresh();
    store.set(b("a"), b("1")).unwrap();
    let mut image = store.snapshot();
    // a non-final generation with garbage aborts recovery
    let cur = image.last().unwrap().gen;
    image.push(Segment { gen: cur + 1, data: vec![14, 0, 0, 0, 9, 0, 0, 0, 0, 0, 0, 0, 0, 0] });
    image.push(Segment { gen: cur + 2, data: Vec::new() });
    // make the garbage sit strictly before the final position: not the last file
    match KvStore::open(image) {
        Err(e) => assert_eq!(e, KvError::CorruptRecord),
        Ok(_) => panic!("open accepted a corrupt mid-log record"),
    }
}

#[test]
fn generation_monotonic_across_restart() {
    let mut store = fresh();
    let g1 = store.current_gen();
    store.set(b("a"), b("1")).unwrap();
    let g2 = store.current_gen();
    assert!(g2 >= g1);
    store.compact();
    let g3 = store.current_gen();
    assert!(g3 >= g2);
    let (reopened, _) = KvStore::open(store.snapshot()).unwrap();
    assert!(reopened.current_gen() > g3 - 1);
    assert!(reopened.current_gen() >= g3);
}

#[test]
fn actions_mirror_the_disk_image() {
    let mut disk: HashMap<u64, Vec<u8>> = HashMap::new();
    let (mut store, acts) = KvStore::open(Vec::new()).unwrap();
    apply(&mut disk, &acts);
    let acts = store.set(b("a"), b("1")).unwrap();
    apply(&mut disk, &acts);
    let acts = store.set(b("b"), b("2")).unwrap();
    apply(&mut disk, &acts);
    let acts = store.remove(&b("a")).unwrap();
    apply(&mut disk, &acts);
    let acts = store.compact();
    apply(&mut disk, &acts);
    assert_eq!(disk, disk_of_snapshot(&store.snapshot()));
    // and the mirrored directory recovers to the same state
    let mut segs: Vec<Segment> = disk
        .iter()
        .map(|(g, d)| Segment { gen: *g, data: d.clone() })
        .collect();
    segs.sort_by_key(|s| s.gen);
    let (reopened, _) = KvStore::open(segs).unwrap();
    assert_eq!(reopened.get(&b("a")).unwrap(), None);
    assert_eq!(reopened.get(&b("b")).unwrap(), Some(b("2")));
}

#[test]
fn durability_after_every_ack() {
    let mut store = fresh();
    store.set(b("k"), b("v")).unwrap();
    // a crash right after the ack: reopen from the disk image as it is now
    let (reopened, _) = KvStore::open(store.snapshot()).unwrap();
    assert_eq!(reopened.get(&b("k")).unwrap(), Some(b("v")));
}

#[test]
fn empty_key_and_value_round_trip() {
    let mut store = fresh();
    store.set(b(""), b("")).unwrap();
    assert_eq!(store.get(&b("")).unwrap(), Some(b("")));
}

#[test]
fn len_counts_live_keys() {
    let mut store = fresh();
    assert_eq!(store.len(), 0);
    store.set(b("a"), b("1")).unwrap();
    store.set(b("b"), b("2")).unwrap();
    store.set(b("a"), b("3")).unwrap();
    assert_eq!(store.len(), 2);
    store.remove(&b("a")).unwrap();
    assert_eq!(store.len(), 1);
}

#[test]
fn crash_during_compaction_recovers() {
    // die after any prefix of compaction's disk writes: recovery still
    // yields the pre-compaction state
    let mut disk: HashMap<u64, Vec<u8>> = HashMap::new();
    let (mut store, acts) = KvStore::open(Vec::new()).unwrap();
    apply(&mut disk, &acts);
    for i in 0..20u32 {
        let acts = store.set(b(&format!("k{}", i)), b(&format!("v{}", i))).unwrap();
        apply(&mut disk, &acts);
    }
    let acts = store.remove(&b("k7")).unwrap();
    apply(&mut disk, &acts);
    let compaction_acts = store.compact();
    for cut in 0..=compaction_acts.len() {
        let mut crashed = disk.clone();
        apply(&mut crashed, &compaction_acts[..cut]);
        let mut segs: Vec<Segment> = crashed
            .iter()
            .map(|(g, d)| Segment { gen: *g, data: d.clone() })
            .collect();
        segs.sort_by_key(|s| s.gen);
        let (reopened, _) = KvStore::open(segs).unwrap();
        for i in 0..20u32 {
            let expected = if i == 7 { None } else { Some(b(&format!("v{}", i))) };
            assert_eq!(
                reopened.get(&b(&format!("k{}", i))).unwrap(),
                expected,
                "state diverged after {} of {} compaction writes",
                cut,
                compaction_acts.len()
            );
        }
    }
}

#[test]
fn removing_an_absent_key_reports_not_found_even_near_limits() {
    let mut store = fresh();
    store.set(b("present"), b("x")).unwrap();
    // absence is decided before any machine-limit question
    assert_eq!(store.remove(&b("absent")).unwrap_err(), KvError::NotFound);
    assert_eq!(store.get(&b("present")).unwrap(), Some(b("x")));
}
