use tabstore::auth::{password_matches, AuthDB, User};
use tabstore::dict::Dictionary;
use tabstore::dispatch::{handle_request, Credentials, Params, Request, Response};
use tabstore::frame::{decode_len, encode_frame};
use tabstore::storage::Storage;
use tabstore::strutil::{comma_join, comma_split};

fn empty_storage() -> Storage {
    Storage::new(None)
}

fn id_is_well_formed(id: &str) {
    assert_eq!(id.len(), 5);
    assert!(id.chars().all(|c| c.is_ascii_alphanumeric()));
}

#[test]
fn intern_is_idempotent_and_injective() {
    let mut d = Dictionary::empty();
    let a1 = d.lookup_or_insert(&"alpha".to_string()).unwrap();
    let a2 = d.lookup_or_insert(&"alpha".to_string()).unwrap();
    let b = d.lookup_or_insert(&"beta".to_string()).unwrap();
    assert_eq!(a1, a2);
    assert_ne!(a1, b);
    id_is_well_formed(&a1);
    id_is_well_formed(&b);
    assert_eq!(d.get(&a1), Some("alpha".to_string()));
    assert_eq!(d.get(&b), Some("beta".to_string()));
}

#[test]
fn one_insert_one_row() {
    let mut s = empty_storage();
    let (ok, msg) = s.create_table("t", vec!["a".to_string(), "b".to_string()]);
    assert!(ok);
    assert_eq!(msg, "Table t created.");
    let (ok, first) = s.insert("t", vec!["x".to_string(), "y".to_string()]);
    assert!(ok);
    let first = first.unwrap();
    id_is_well_formed(&first);
    let (ok, rows) = s.select("t");
    assert!(ok);
    assert_eq!(rows.len(), 1);
    let row = &rows[0];
    assert_eq!(row.len(), 3);
    assert_eq!(row[0], ("a".to_string(), "x".to_string()));
    assert_eq!(row[1], ("b".to_string(), "y".to_string()));
    assert_eq!(row[2], ("id".to_string(), first.clone()));
}

#[test]
fn create_table_twice_keeps_original_schema() {
    let mut s = empty_storage();
    let (ok, _) = s.create_table("t", vec!["a".to_string(), "b".to_string()]);
    assert!(ok);
    let (ok, msg) = s.create_table("t", vec!["only".to_string()]);
    assert!(ok);
    assert_eq!(msg, "Table t already exists.");
    // the original two-column schema still governs inserts
    let (ok, res) = s.insert("t", vec!["just-one".to_string()]);
    assert!(!ok);
    assert!(res.is_none());
    let (ok, _) = s.insert("t", vec!["x".to_string(), "y".to_string()]);
    assert!(ok);
}

#[test]
fn mismatched_arity_changes_nothing() {
    let mut s = empty_storage();
    s.create_table("t", vec!["a".to_string(), "b".to_string()]);
    let dict_before = s.dictionary_index.entries.len();
    let (ok, res) = s.insert("t", vec!["lonely".to_string()]);
    assert!(!ok);
    assert!(res.is_none());
    assert_eq!(s.dictionary_index.entries.len(), dict_before);
    assert_eq!(s.tables[0].cells.len(), 0);
    let (ok, rows) = s.select("t");
    assert!(ok);
    assert!(rows.is_empty());
}

#[test]
fn select_empty_table_gives_no_rows() {
    let mut s = empty_storage();
    s.create_table("t", vec!["a".to_string()]);
    let (ok, rows) = s.select("t");
    assert!(ok);
    assert!(rows.is_empty());
}

#[test]
fn select_unknown_table_fails_with_no_rows() {
    let s = empty_storage();
    let (ok, rows) = s.select("missing");
    assert!(!ok);
    assert!(rows.is_empty());
}

#[test]
fn distinct_inserts_give_distinct_ids_and_rows() {
    let mut s = empty_storage();
    s.create_table("t", vec!["v".to_string()]);
    let mut ids = Vec::new();
    for k in 0..3 {
        let (ok, first) = s.insert("t", vec![format!("value-{}", k)]);
        assert!(ok);
        ids.push(first.unwrap());
    }
    let (ok, rows) = s.select("t");
    assert!(ok);
    assert_eq!(rows.len(), 3);
    for k in 0..3 {
        assert_eq!(rows[k][0], ("v".to_string(), format!("value-{}", k)));
        assert_eq!(rows[k][1], ("id".to_string(), ids[k].clone()));
    }
    assert_ne!(ids[0], ids[1]);
    assert_ne!(ids[0], ids[2]);
    assert_ne!(ids[1], ids[2]);
}

#[test]
fn reinserting_interned_values_leaves_dictionary_unchanged() {
    let mut s = empty_storage();
    s.create_table("t", vec!["v".to_string()]);
    let (ok, id1) = s.insert("t", vec!["v1".to_string()]);
    assert!(ok);
    let n = s.dictionary_index.entries.len();
    let (ok, id2) = s.insert("t", vec!["v1".to_string()]);
    assert!(ok);
    assert_eq!(id1, id2);
    assert_eq!(s.dictionary_index.entries.len(), n);
    assert_eq!(s.tables[0].cells.len(), 2);
}

#[test]
fn shared_values_share_codes_across_tables() {
    let mut s = empty_storage();
    s.create_table("t1", vec!["a".to_string()]);
    s.create_table("t2", vec!["b".to_string()]);
    let (_, id1) = s.insert("t1", vec!["same".to_string()]);
    let (_, id2) = s.insert("t2", vec!["same".to_string()]);
    assert_eq!(id1.unwrap(), id2.unwrap());
}

fn test_user(name: &str, password: &str) -> User {
    let salt = vec![1u8, 2, 3, 4];
    let iters = 100u32;
    let mut hash = [0u8; 32];
    openssl::pkcs5::pbkdf2_hmac(
        password.as_bytes(),
        &salt,
        iters as usize,
        openssl::hash::MessageDigest::sha256(),
        &mut hash,
    )
    .unwrap();
    User {
        username: name.to_string(),
        salt_hex: hex::encode(salt),
        hash_hex: hex::encode(hash),
        iters,
    }
}

#[test]
fn verify_accepts_right_password_only() {
    let db = AuthDB::new(vec![test_user("u", "p")]);
    assert_eq!(db.verify("u", "p"), Some(true));
    assert_eq!(db.verify("u", "wrong"), Some(false));
    assert_eq!(db.verify("nobody", "p"), Some(false));
}

#[test]
fn verify_rejects_undecodable_salt() {
    let mut u = test_user("u", "p");
    u.salt_hex = "zz".to_string();
    let db = AuthDB::new(vec![u]);
    assert_eq!(db.verify("u", "p"), Some(false));
}

#[test]
fn duplicate_usernames_resolve_to_last() {
    let old = test_user("u", "old-password");
    let new = test_user("u", "new-password");
    let db = AuthDB::new(vec![old, new]);
    assert_eq!(db.verify("u", "new-password"), Some(true));
    assert_eq!(db.verify("u", "old-password"), Some(false));
}

#[test]
fn password_matches_compares_hex_encoding() {
    let mut u = test_user("u", "p");
    u.hash_hex = "00ff10".to_string();
    assert!(password_matches(&u, &vec![0x00, 0xff, 0x10]));
    assert!(!password_matches(&u, &vec![0x00, 0xff, 0x11]));
}

fn request(action: &str, table: &str, user: &str, password: &str) -> Request {
    Request {
        action: action.to_string(),
        params: Params {
            table: table.to_string(),
            columns: Vec::new(),
            values: Vec::new(),
        },
        auth: Credentials {
            user: user.to_string(),
            password: password.to_string(),
        },
    }
}

#[test]
fn select_missing_table_over_dispatch() {
    let mut s = empty_storage();
    let db = AuthDB::new(vec![test_user("u", "p")]);
    let req = request("select", "missing", "u", "p");
    match handle_request(&mut s, &db, &req) {
        Response::Selected { ok, rows } => {
            assert!(!ok);
            assert!(rows.is_empty());
        },
        _ => panic!("expected a select response"),
    }
}

#[test]
fn bad_credentials_are_denied_and_unknown_actions_reported() {
    let mut s = empty_storage();
    let db = AuthDB::new(vec![test_user("u", "p")]);
    let req = request("select", "missing", "u", "wrong");
    match handle_request(&mut s, &db, &req) {
        Response::Denied { message } => assert_eq!(message, "auth_failed"),
        _ => panic!("expected a denial"),
    }
    let req = request("drop_table", "t", "u", "p");
    match handle_request(&mut s, &db, &req) {
        Response::Unknown { message } => assert_eq!(message, "unknown_action"),
        _ => panic!("expected an unknown-action response"),
    }
}

#[test]
fn dispatch_routes_create_and_insert() {
    let mut s = empty_storage();
    let db = AuthDB::new(vec![test_user("u", "p")]);
    let mut req = request("create_table", "t", "u", "p");
    req.params.columns = vec!["a".to_string()];
    match handle_request(&mut s, &db, &req) {
        Response::Created { ok, message } => {
            assert!(ok);
            assert_eq!(message, "Table t created.");
        },
        _ => panic!("expected a create response"),
    }
    let mut req = request("insert", "t", "u", "p");
    req.params.values = vec!["x".to_string()];
    match handle_request(&mut s, &db, &req) {
        Response::Inserted { ok, result } => {
            assert!(ok);
            id_is_well_formed(&result.unwrap());
        },
        _ => panic!("expected an insert response"),
    }
}

#[test]
fn frame_has_big_endian_length_prefix() {
    let payload = b"hello".to_vec();
    let framed = encode_frame(&payload);
    assert_eq!(&framed[0..4], &[0u8, 0, 0, 5]);
    assert_eq!(&framed[4..], b"hello");
    assert_eq!(decode_len(&framed[0..4].to_vec()), 5);
    let big = vec![0u8; 300];
    let framed = encode_frame(&big);
    assert_eq!(&framed[0..4], &[0u8, 0, 1, 44]);
    assert_eq!(decode_len(&vec![1, 2, 3, 4]), 0x01020304);
}

#[test]
fn sidecar_line_joins_and_splits() {
    let cols = vec!["a".to_string(), "b".to_string(), "c".to_string()];
    let line = comma_join(&cols);
    assert_eq!(line, "a,b,c");
    assert_eq!(comma_split(&line), cols);
    assert_eq!(comma_split(""), vec!["".to_string()]);
    assert_eq!(comma_join(&Vec::<String>::new()), "");
}

#[test]
fn dictionary_survives_save_and_load() {
    let mut s = empty_storage();
    s.create_table("t", vec!["a".to_string()]);
    let (_, id) = s.insert("t", vec!["kept".to_string()]);
    let id = id.unwrap();
    let blob = s.save_index();
    let reloaded = Storage::new(Some(blob));
    assert_eq!(reloaded.dictionary_index.get(&id), Some("kept".to_string()));
    assert!(reloaded.tables.is_empty());
}

#[test]
fn tables_reload_from_disk_files() {
    // first session: create a table and insert one row
    let mut s = empty_storage();
    s.create_table("t", vec!["a".to_string(), "b".to_string()]);
    let (ok, _) = s.insert("t", vec!["x".to_string(), "y".to_string()]);
    assert!(ok);
    let blob = s.save_index();
    let row_text: String = s.tables[0].cells.concat();
    let sidecar = s.tables[0].sidecar.clone().unwrap();
    assert_eq!(sidecar, "a,b");
    assert_eq!(row_text.len(), 10);

    // second session: the files are registered, then create_table reloads
    // the schema from the sidecar, discarding the caller's columns
    let mut s2 = Storage::new(Some(blob));
    assert!(s2.register_disk_table("t".to_string(), Some(sidecar), &row_text));
    let (ok, rows) = s2.select("t");
    assert!(!ok); // known from disk, but not yet in the catalog
    assert!(rows.is_empty());
    let (ok, msg) = s2.create_table("t", vec!["ignored".to_string()]);
    assert!(ok);
    assert_eq!(msg, "Table t already exists.");
    let (ok, rows) = s2.select("t");
    assert!(ok);
    assert_eq!(rows.len(), 1);
    assert_eq!(rows[0][0], ("a".to_string(), "x".to_string()));
    assert_eq!(rows[0][1], ("b".to_string(), "y".to_string()));
}

#[test]
fn duplicate_codes_in_a_blob_resolve_to_last() {
    let pairs: Vec<(String, String)> = vec![
        ("AAAAA".to_string(), "old".to_string()),
        ("AAAAA".to_string(), "new".to_string()),
        ("bad".to_string(), "dropped".to_string()),
    ];
    let blob = bincode::serialize(&pairs).unwrap();
    let s = Storage::new(Some(blob));
    assert_eq!(s.dictionary_index.get(&"AAAAA".to_string()), Some("new".to_string()));
    assert_eq!(s.dictionary_index.get(&"bad".to_string()), None);
    assert_eq!(s.dictionary_index.entries.len(), 1);
}

#[test]
fn unknown_codes_resolve_to_empty_strings() {
    let mut s = empty_storage();
    assert!(s.register_disk_table("t".to_string(), Some("a".to_string()), "XXXXX"));
    s.create_table("t", vec![]);
    let (ok, rows) = s.select("t");
    assert!(ok);
    assert_eq!(rows.len(), 1);
    assert_eq!(rows[0][0], ("a".to_string(), "".to_string()));
    assert_eq!(rows[0][1], ("id".to_string(), "XXXXX".to_string()));
}
