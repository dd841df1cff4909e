use std::io::Write;

use mini_git::error::{DbError, DecodeError};
use mini_git::db::{Database, MemorySource, ObjectSource};
use mini_git::object::ObjectType;

fn compress(data: &[u8]) -> Vec<u8> {
    let mut enc = flate2::write::ZlibEncoder::new(Vec::new(), flate2::Compression::default());
    enc.write_all(data).unwrap();
    enc.finish().unwrap()
}

fn commit_bytes(tree: &str, parents: &[&str], msg: &str) -> Vec<u8> {
    let mut text = String::new();
    text.push_str(&format!("tree {}\n", tree));
    for p in parents {
        text.push_str(&format!("parent {}\n", p));
    }
    text.push_str("author A <a@x> 1 +0000\n");
    text.push_str("committer B <b@x> 2 +0000\n");
    text.push_str("\n");
    text.push_str(msg);
    let mut payload = format!("commit {}\0", text.len()).into_bytes();
    payload.extend_from_slice(text.as_bytes());
    payload
}

#[test]
fn object_path_splits_hash_after_two_characters() {
    let db = Database::new(".git".to_string());
    assert_eq!(
        db.object_path("0102aabbcc"),
        ".git/objects/01/02aabbcc".to_string()
    );
}

#[test]
fn fetch_returns_latest_insert() {
    let mut src = MemorySource::new();
    src.insert("aa".to_string(), vec![1, 2]);
    src.insert("aa".to_string(), vec![3]);
    assert_eq!(src.fetch("aa"), Ok(vec![3]));
    assert_eq!(src.fetch("bb"), Err(DbError::NotFound("bb".to_string())));
}

#[test]
fn read_object_decodes_a_stored_blob() {
    let db = Database::new(".git".to_string());
    let mut src = MemorySource::new();
    src.insert("aa00".to_string(), compress(b"blob 2\0hi"));
    let obj = db.read_object("aa00", &src).unwrap();
    assert_eq!(obj.hash, "aa00");
    assert_eq!(obj.object_size, 2);
    match obj.object_type {
        ObjectType::Blob(b) => assert_eq!(b.content, b"hi".to_vec()),
        _ => panic!("expected a blob"),
    }
}

#[test]
fn read_object_missing_hash_is_not_found() {
    let db = Database::new(".git".to_string());
    let src = MemorySource::new();
    assert_eq!(
        db.read_object("0000000000000000000000000000000000000000", &src),
        Err(DbError::NotFound(
            "0000000000000000000000000000000000000000".to_string()
        ))
    );
}

#[test]
fn read_object_bad_compression_is_io_error() {
    let db = Database::new(".git".to_string());
    let mut src = MemorySource::new();
    src.insert("aa".to_string(), b"this is not a zlib stream".to_vec());
    assert_eq!(
        db.read_object("aa", &src),
        Err(DbError::IoError("aa".to_string()))
    );
}

#[test]
fn read_object_wraps_decode_errors() {
    let db = Database::new(".git".to_string());
    let mut src = MemorySource::new();
    src.insert("aa".to_string(), compress(b"blob4\0data"));
    assert_eq!(
        db.read_object("aa", &src),
        Err(DbError::DecodeFailure(
            "aa".to_string(),
            DecodeError::MalformedHeader
        ))
    );
}

#[test]
fn walk_visits_a_chain_once_in_order() {
    // c3 -> c2 -> c1; c1 links back to the already-visited c2, so the walk
    // ends without revisiting it
    let db = Database::new(".git".to_string());
    let mut src = MemorySource::new();
    src.insert("c3".to_string(), compress(&commit_bytes("t", &["c2"], "three\n")));
    src.insert("c2".to_string(), compress(&commit_bytes("t", &["c1"], "two\n")));
    src.insert("c1".to_string(), compress(&commit_bytes("t", &["c2"], "one\n")));
    let objs = db.walk_log("c3", &src).unwrap();
    let hashes: Vec<&str> = objs.iter().map(|o| o.hash.as_str()).collect();
    assert_eq!(hashes, vec!["c3", "c2", "c1"]);
}

#[test]
fn walk_rejects_a_rootless_chain_end() {
    // a commit with no parent lines does not decode, so a walk that reaches
    // one fails rather than finishing
    let db = Database::new(".git".to_string());
    let mut src = MemorySource::new();
    src.insert("c2".to_string(), compress(&commit_bytes("t", &["c1"], "two\n")));
    src.insert("c1".to_string(), compress(&commit_bytes("t", &[], "one\n")));
    // the error names the hash at which the walk got stuck
    assert_eq!(
        db.walk_log("c2", &src),
        Err(DbError::DecodeFailure(
            "c1".to_string(),
            DecodeError::MissingField("parents".to_string())
        ))
    );
}

#[test]
fn walk_terminates_on_a_cycle_and_visits_each_once() {
    let db = Database::new(".git".to_string());
    let mut src = MemorySource::new();
    src.insert("c1".to_string(), compress(&commit_bytes("t", &["c2"], "one\n")));
    src.insert("c2".to_string(), compress(&commit_bytes("t", &["c1"], "two\n")));
    let objs = db.walk_log("c1", &src).unwrap();
    let hashes: Vec<&str> = objs.iter().map(|o| o.hash.as_str()).collect();
    assert_eq!(hashes, vec!["c1", "c2"]);
}

#[test]
fn walk_visits_a_merge_commit_once() {
    // a diamond: m has parents a and b, both have parent r, r closes a cycle
    let db = Database::new(".git".to_string());
    let mut src = MemorySource::new();
    src.insert("m".to_string(), compress(&commit_bytes("t", &["a", "b"], "m\n")));
    src.insert("a".to_string(), compress(&commit_bytes("t", &["r"], "a\n")));
    src.insert("b".to_string(), compress(&commit_bytes("t", &["r"], "b\n")));
    src.insert("r".to_string(), compress(&commit_bytes("t", &["m"], "r\n")));
    let objs = db.walk_log("m", &src).unwrap();
    // parents are pushed in declaration order onto a stack, so the most
    // recently discovered parent is taken first
    let hashes: Vec<&str> = objs.iter().map(|o| o.hash.as_str()).collect();
    assert_eq!(hashes, vec!["m", "b", "r", "a"]);
    // each implicated commit is visited exactly once
    let mut sorted = hashes.clone();
    sorted.sort();
    sorted.dedup();
    assert_eq!(sorted.len(), 4);
}

#[test]
fn walk_seeded_with_a_blob_is_not_a_commit() {
    let db = Database::new(".git".to_string());
    let mut src = MemorySource::new();
    src.insert("bb".to_string(), compress(b"blob 2\0hi"));
    assert_eq!(
        db.walk_log("bb", &src),
        Err(DbError::NotACommit("bb".to_string()))
    );
}

#[test]
fn walk_seeded_with_a_missing_hash_is_not_found() {
    let db = Database::new(".git".to_string());
    let src = MemorySource::new();
    assert_eq!(
        db.walk_log("nope", &src),
        Err(DbError::NotFound("nope".to_string()))
    );
}

#[test]
fn walk_reaching_a_blob_parent_names_it() {
    // c2's parent resolves to a blob: the walk fails at that hash, after c2
    let db = Database::new(".git".to_string());
    let mut src = MemorySource::new();
    src.insert("c2".to_string(), compress(&commit_bytes("t", &["b1"], "two\n")));
    src.insert("b1".to_string(), compress(b"blob 2\0hi"));
    assert_eq!(
        db.walk_log("c2", &src),
        Err(DbError::NotACommit("b1".to_string()))
    );
}
