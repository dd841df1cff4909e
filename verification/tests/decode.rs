use mini_git::error::DecodeError;
use mini_git::object::{Object, ObjectType};
use mini_git::stream::{read_null_terminated_string, ByteStream};

fn decode(hash: &str, payload: &[u8]) -> Result<Object, DecodeError> {
    let mut reader = ByteStream::new(payload.to_vec());
    Object::from_reader(hash.to_string(), &mut reader)
}

#[test]
fn token_reader_splits_at_nul() {
    let mut reader = ByteStream::new(b"abc\0def".to_vec());
    assert_eq!(read_null_terminated_string(&mut reader).unwrap(), "abc");
    assert_eq!(read_null_terminated_string(&mut reader).unwrap(), "def");
    // a stream at its end yields the empty string, not an error
    assert_eq!(read_null_terminated_string(&mut reader).unwrap(), "");
}

#[test]
fn token_reader_rejects_invalid_utf8() {
    let mut reader = ByteStream::new(vec![0xff, 0xfe, 0x00, b'x']);
    assert_eq!(
        read_null_terminated_string(&mut reader),
        Err(DecodeError::MalformedEncoding)
    );
}

#[test]
fn blob_roundtrip_fields() {
    let obj = decode("aaaa", b"blob 11\0hello world").unwrap();
    assert_eq!(obj.hash, "aaaa");
    assert_eq!(obj.object_size, 11);
    assert_eq!(obj.object_type.as_str(), "blob");
    match obj.object_type {
        ObjectType::Blob(b) => assert_eq!(b.content, b"hello world".to_vec()),
        _ => panic!("expected a blob"),
    }
}

#[test]
fn header_without_space_is_malformed() {
    assert_eq!(decode("h", b"blob\0data"), Err(DecodeError::MalformedHeader));
}

#[test]
fn header_with_two_spaces_is_malformed() {
    assert_eq!(
        decode("h", b"blob 4 x\0data"),
        Err(DecodeError::MalformedHeader)
    );
    assert_eq!(
        decode("h", b"tree  7\0"),
        Err(DecodeError::MalformedHeader)
    );
}

#[test]
fn header_with_bad_size_is_malformed() {
    assert_eq!(decode("h", b"blob xx\0"), Err(DecodeError::MalformedHeader));
    assert_eq!(decode("h", b"blob \0"), Err(DecodeError::MalformedHeader));
}

#[test]
fn header_with_invalid_utf8_is_malformed_encoding() {
    assert_eq!(
        decode("h", &[0xff, b' ', b'4', 0x00]),
        Err(DecodeError::MalformedEncoding)
    );
}

#[test]
fn unknown_type_token_flows_through_as_undefined() {
    let obj = decode("h", b"wat 3\0xyz").unwrap();
    assert_eq!(obj.object_size, 3);
    assert_eq!(obj.object_type.as_str(), "undefined");
    assert!(matches!(obj.object_type, ObjectType::Undefined));
}

#[test]
fn empty_tree_decodes_to_empty_sequence() {
    let obj = decode("h", b"tree 0\0").unwrap();
    match obj.object_type {
        ObjectType::Tree(t) => assert_eq!(t.entries.len(), 0),
        _ => panic!("expected a tree"),
    }
}

#[test]
fn tree_entries_keep_byte_order() {
    let mut payload: Vec<u8> = Vec::new();
    payload.extend_from_slice(b"tree 0\0");
    payload.extend_from_slice(b"100644 file.txt\0");
    payload.extend_from_slice(&(0u8..20u8).collect::<Vec<u8>>());
    payload.extend_from_slice(b"40000 dir\0");
    payload.extend_from_slice(&[0xab; 20]);
    let obj = decode("h", &payload).unwrap();
    match obj.object_type {
        ObjectType::Tree(t) => {
            assert_eq!(t.entries.len(), 2);
            assert_eq!(t.entries[0].mode, 100644);
            assert_eq!(t.entries[0].name, "file.txt");
            assert_eq!(
                t.entries[0].hash,
                "000102030405060708090a0b0c0d0e0f10111213"
            );
            assert_eq!(t.entries[1].mode, 40000);
            assert_eq!(t.entries[1].name, "dir");
            assert_eq!(t.entries[1].hash, "ab".repeat(20));
        }
        _ => panic!("expected a tree"),
    }
}

#[test]
fn tree_entry_without_space_is_malformed_entry() {
    let mut payload: Vec<u8> = Vec::new();
    payload.extend_from_slice(b"tree 0\0");
    payload.extend_from_slice(b"100644\0");
    payload.extend_from_slice(&[0u8; 20]);
    assert_eq!(decode("h", &payload), Err(DecodeError::MalformedEntry));
}

#[test]
fn tree_entry_with_truncated_hash_is_malformed_entry() {
    let mut payload: Vec<u8> = Vec::new();
    payload.extend_from_slice(b"tree 0\0");
    payload.extend_from_slice(b"100644 f\0");
    payload.extend_from_slice(&[0u8; 7]);
    assert_eq!(decode("h", &payload), Err(DecodeError::MalformedEntry));
}

#[test]
fn commit_roundtrip_fields() {
    let text = b"commit 0\0tree t1\nparent p1\nparent p2\nauthor Alice <a@x> 1 +0000\ncommitter Bob <b@x> 2 +0000\n\nfirst line\nsecond line\n";
    let obj = decode("h", text).unwrap();
    assert_eq!(obj.object_type.as_str(), "commit");
    match obj.object_type {
        ObjectType::Commit(c) => {
            assert_eq!(c.tree, "t1");
            assert_eq!(c.parents, vec!["p1".to_string(), "p2".to_string()]);
            assert_eq!(c.author, "Alice <a@x> 1 +0000");
            assert_eq!(c.committer, "Bob <b@x> 2 +0000");
            assert_eq!(c.message, "first line\nsecond line\n");
        }
        _ => panic!("expected a commit"),
    }
}

#[test]
fn commit_without_committer_is_missing_field() {
    let text = b"commit 0\0tree t1\nparent p1\nauthor A\n\nmsg\n";
    assert_eq!(
        decode("h", text),
        Err(DecodeError::MissingField("committer".to_string()))
    );
}

#[test]
fn commit_without_parents_is_missing_field() {
    let text = b"commit 0\0tree t1\nauthor A\ncommitter B\n\nmsg\n";
    assert_eq!(
        decode("h", text),
        Err(DecodeError::MissingField("parents".to_string()))
    );
}

#[test]
fn commit_without_tree_is_missing_field() {
    let text = b"commit 0\0parent p1\nauthor A\ncommitter B\n\nmsg\n";
    assert_eq!(
        decode("h", text),
        Err(DecodeError::MissingField("tree".to_string()))
    );
}

#[test]
fn tag_roundtrip_fields() {
    let text = b"tag 0\0object o1\ntype commit\ntag v1.0\ntagger T <t@x>\n\nrelease\n";
    let obj = decode("h", text).unwrap();
    assert_eq!(obj.object_type.as_str(), "tag");
    match obj.object_type {
        ObjectType::Tag(t) => {
            assert_eq!(t.object, "o1");
            assert_eq!(t.object_type, "commit");
            assert_eq!(t.tag, "v1.0");
            assert_eq!(t.tagger, "T <t@x>");
            assert_eq!(t.message, "release\n");
        }
        _ => panic!("expected a tag"),
    }
}

#[test]
fn tag_without_tagger_is_missing_field() {
    let text = b"tag 0\0object o1\ntype commit\ntag v1.0\n\nrelease\n";
    assert_eq!(
        decode("h", text),
        Err(DecodeError::MissingField("tagger".to_string()))
    );
}

#[test]
fn declared_size_is_not_checked_against_payload() {
    // a header size that lies is accepted; the payload is decoded as-is
    let obj = decode("h", b"blob 999\0hi").unwrap();
    assert_eq!(obj.object_size, 999);
    match obj.object_type {
        ObjectType::Blob(b) => assert_eq!(b.content, b"hi".to_vec()),
        _ => panic!("expected a blob"),
    }
}

#[test]
fn header_size_too_large_for_usize_is_malformed() {
    assert_eq!(
        decode("h", b"blob 99999999999999999999999999999999\0x"),
        Err(DecodeError::MalformedHeader)
    );
}

#[test]
fn bad_size_is_reported_before_payload_faults() {
    // the size token is parsed before the payload is decoded, so a header
    // with a bad size wins over a payload that would fail on its own
    assert_eq!(
        decode("h", b"commit x\0tree t1\n"),
        Err(DecodeError::MalformedHeader)
    );
}
