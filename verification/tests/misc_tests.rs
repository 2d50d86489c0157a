use kvs::command_builder::ExampleCommand;
use kvs::log::{log_path, parse_log_path, segments_strictly_sorted, sort_segments, Segment};
use kvs::error::KvError;
use kvs::flavor::{engine_compatible, Engine};
use kvs::sealed_trait::TheTrait;

#[test]
fn engine_marker_round_trip() {
    assert_eq!(Engine::parse(&Engine::Kvs.name_bytes()), Some(Engine::Kvs));
    assert_eq!(Engine::parse(&Engine::Sled.name_bytes()), Some(Engine::Sled));
    assert_eq!(Engine::parse(&b"mystery".to_vec()), None);
}

#[test]
fn server_refuses_a_foreign_directory() {
    // a directory previously used by the other flavor
    assert!(!engine_compatible(&Some(Engine::Sled), Engine::Kvs));
    assert!(!engine_compatible(&Some(Engine::Kvs), Engine::Sled));
    assert!(engine_compatible(&Some(Engine::Kvs), Engine::Kvs));
    assert!(engine_compatible(&None, Engine::Sled));
}

#[test]
fn error_messages() {
    assert_eq!(KvError::NotFound.message_bytes(), b"Key not found".to_vec());
    assert_eq!(
        KvError::UnexpectedCommandType.message_bytes(),
        b"Unexpected command type".to_vec()
    );
    assert_eq!(KvError::CorruptRecord.message_bytes(), b"Corrupt record".to_vec());
    assert_eq!(
        KvError::EndOfStream.message_bytes(),
        b"Unexpected end of stream".to_vec()
    );
    assert_eq!(
        KvError::StringError(b"boom".to_vec()).message_bytes(),
        b"boom".to_vec()
    );
}

#[test]
fn builder_gathers_arguments() {
    let mut cmd = ExampleCommand::new(String::from("editor"));
    cmd.args(&[String::from("--wait"), String::from("a.txt")]);
    cmd.arg(String::from("b.txt"));
    cmd.current_dir(String::from("/tmp"));
    assert_eq!(cmd.program, "editor");
    let _child = cmd.spawn();
}

#[test]
fn sealed_trait_echoes() {
    assert_eq!(usize::some_pub_function(4), 4);
    assert!(usize::some_hidden_function());
}

#[test]
fn segments_sort_by_generation() {
    let segs = vec![
        Segment { gen: 3, data: vec![3] },
        Segment { gen: 1, data: vec![1] },
        Segment { gen: 2, data: vec![2] },
    ];
    let sorted = sort_segments(segs);
    let gens: Vec<u64> = sorted.iter().map(|s| s.gen).collect();
    assert_eq!(gens, vec![1, 2, 3]);
    assert_eq!(sorted[0].data, vec![1]);
    assert!(segments_strictly_sorted(&sorted));
    let dup = vec![
        Segment { gen: 1, data: vec![] },
        Segment { gen: 1, data: vec![] },
    ];
    assert!(!segments_strictly_sorted(&sort_segments(dup)));
}

#[test]
fn index_iterates_in_key_order() {
    // insertion order does not show: compaction rewrites records sorted by key
    let (mut a, _) = kvs::kv::KvStore::open(Vec::new()).unwrap();
    a.set(b"c".to_vec(), b"3".to_vec()).unwrap();
    a.set(b"a".to_vec(), b"1".to_vec()).unwrap();
    a.set(b"b".to_vec(), b"2".to_vec()).unwrap();
    a.compact();
    let (mut z, _) = kvs::kv::KvStore::open(Vec::new()).unwrap();
    z.set(b"b".to_vec(), b"2".to_vec()).unwrap();
    z.set(b"c".to_vec(), b"3".to_vec()).unwrap();
    z.set(b"a".to_vec(), b"1".to_vec()).unwrap();
    z.compact();
    let file_a = a.snapshot().first().unwrap().data.clone();
    let file_z = z.snapshot().first().unwrap().data.clone();
    assert_eq!(file_a, file_z);
}

#[test]
fn log_file_names_round_trip() {
    assert_eq!(log_path(0), b"0.log".to_vec());
    assert_eq!(log_path(42), b"42.log".to_vec());
    assert_eq!(log_path(u64::MAX), b"18446744073709551615.log".to_vec());
    assert_eq!(parse_log_path(&b"42.log".to_vec()), Some(42));
    assert_eq!(parse_log_path(&b"007.log".to_vec()), Some(7));
    assert_eq!(parse_log_path(&b"18446744073709551615.log".to_vec()), Some(u64::MAX));
    assert_eq!(parse_log_path(&b"18446744073709551616.log".to_vec()), None);
    assert_eq!(parse_log_path(&b".log".to_vec()), None);
    assert_eq!(parse_log_path(&b"x7.log".to_vec()), None);
    assert_eq!(parse_log_path(&b"7.txt".to_vec()), None);
    assert_eq!(parse_log_path(&b"engine".to_vec()), None);
}
