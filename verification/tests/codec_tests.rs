use kvs::codec::{decode_command_at, encode_command, Command, Decoded};

fn b(s: &str) -> Vec<u8> {
    s.as_bytes().to_vec()
}

#[test]
fn put_record_exact_bytes() {
    let cmd = Command::set(b("a"), b("1"));
    let enc = encode_command(&cmd);
    // [N=16 le] [tag=1] [klen=1 le] [97] [vlen=1 le] [49] [terminator]
    assert_eq!(
        enc,
        vec![16u8, 0, 0, 0, 1, 1, 0, 0, 0, 97, 1, 0, 0, 0, 49, 0]
    );
}

#[test]
fn del_record_exact_bytes() {
    let cmd = Command::remove(b("key"));
    let enc = encode_command(&cmd);
    assert_eq!(
        enc,
        vec![17u8, 0, 0, 0, 2, 3, 0, 0, 0, 107, 101, 121, 0, 0, 0, 0, 0]
    );
}

#[test]
fn record_round_trip() {
    let cmd = Command::set(b("hello"), b("world"));
    let enc = encode_command(&cmd);
    match decode_command_at(&enc, 0) {
        Decoded::Found { cmd: got, len } => {
            assert_eq!(len, enc.len());
            match got {
                Command::Put { key, value } => {
                    assert_eq!(key, b("hello"));
                    assert_eq!(value, b("world"));
                }
                _ => panic!("decoded the wrong variant"),
            }
        }
        _ => panic!("round trip failed"),
    }
}

#[test]
fn decode_is_resumable_at_record_boundaries() {
    let mut data = encode_command(&Command::set(b("k1"), b("v1")));
    let second = encode_command(&Command::remove(b("k1")));
    data.extend_from_slice(&second);
    let (first_len, first_is_put) = match decode_command_at(&data, 0) {
        Decoded::Found { cmd, len } => (len, matches!(cmd, Command::Put { .. })),
        _ => panic!("first record did not decode"),
    };
    assert!(first_is_put);
    match decode_command_at(&data, first_len) {
        Decoded::Found { cmd, len } => {
            assert_eq!(first_len + len, data.len());
            assert!(matches!(cmd, Command::Del { .. }));
        }
        _ => panic!("second record did not decode"),
    }
    match decode_command_at(&data, data.len()) {
        Decoded::AtEnd => {}
        _ => panic!("expected clean end of input"),
    }
}

#[test]
fn truncated_input_is_end_of_stream() {
    let enc = encode_command(&Command::set(b("a"), b("1")));
    let cut = enc[..enc.len() - 1].to_vec();
    assert!(matches!(decode_command_at(&cut, 0), Decoded::Truncated));
    let tiny = enc[..3].to_vec();
    assert!(matches!(decode_command_at(&tiny, 0), Decoded::Truncated));
}

#[test]
fn malformed_framing_is_corrupt() {
    // bad tag
    let mut enc = encode_command(&Command::set(b("a"), b("1")));
    enc[4] = 9;
    assert!(matches!(decode_command_at(&enc, 0), Decoded::Corrupt));
    // bad terminator
    let mut enc2 = encode_command(&Command::set(b("a"), b("1")));
    let n = enc2.len();
    enc2[n - 1] = 7;
    assert!(matches!(decode_command_at(&enc2, 0), Decoded::Corrupt));
    // announced length too small
    let mut enc3 = encode_command(&Command::set(b("a"), b("1")));
    enc3[0] = 5;
    assert!(matches!(decode_command_at(&enc3, 0), Decoded::Corrupt));
}
