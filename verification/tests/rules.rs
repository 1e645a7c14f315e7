use apk_vault::backup::{
    check_export_passphrase, import_payload, import_payload_with, open_backup, seal_backup, BackupEntry, BackupPayload,
    BackupPlatform,
};
use apk_vault::crypto::{decrypt, encrypt, encrypt_with_nonce, generate_master_key, KEY_LEN, NONCE_LEN};
use apk_vault::db::{Db, EntryRecord, PlatformRecord};
use apk_vault::keychain::{plan_master_key, MasterKeyPlan};
use apk_vault::text::{decimal_text, mask_key, normalize_endpoint, starts_with, wide};

fn db() -> Db {
    Db::new([1u8; KEY_LEN])
}

#[test]
fn encryption_round_trip_and_layout() {
    let key = [5u8; KEY_LEN];
    let nonce = [8u8; NONCE_LEN];
    let blob = encrypt_with_nonce(&key, &nonce, b"hello").unwrap();
    assert_eq!(blob.len(), NONCE_LEN + 5 + 16);
    assert_eq!(&blob[..NONCE_LEN], &nonce);
    assert_ne!(&blob[NONCE_LEN..NONCE_LEN + 5], b"hello");
    assert_eq!(decrypt(&key, &blob).unwrap(), b"hello".to_vec());

    let fresh = encrypt(&key, b"hello").unwrap();
    assert_eq!(decrypt(&key, &fresh).unwrap(), b"hello".to_vec());
    let again = encrypt(&key, b"hello").unwrap();
    assert_ne!(fresh[..NONCE_LEN], again[..NONCE_LEN]); // a fresh nonce each time
}

#[test]
fn decryption_errors() {
    let key = [5u8; KEY_LEN];
    assert_eq!(decrypt(&key, &[1, 2, 3]).unwrap_err(), "encrypted blob too short");
    let mut blob = encrypt(&key, b"secret").unwrap();
    let last = blob.len() - 1;
    blob[last] ^= 1;
    assert_eq!(decrypt(&key, &blob).unwrap_err(), "decrypt failed: aead::Error");
    let blob = encrypt(&key, b"secret").unwrap();
    assert_eq!(decrypt(&[6u8; KEY_LEN], &blob).unwrap_err(), "decrypt failed: aead::Error");
}

#[test]
fn master_keys_are_random() {
    assert_ne!(generate_master_key(), generate_master_key());
}

#[test]
fn masking_edges() {
    assert_eq!(mask_key(""), "…");
    assert_eq!(mask_key("abcdefg"), "abc…");
    assert_eq!(mask_key("abcdefgh"), "abc…efgh");
    assert_eq!(mask_key("密钥一二三四五六"), "密钥一…三四五六");
}

#[test]
fn text_helpers() {
    assert!(starts_with("https://x", "https://"));
    assert!(!starts_with("http", "http://"));
    assert_eq!(decimal_text(0), "0");
    assert_eq!(decimal_text(1234), "1234");
    assert_eq!(decimal_text(u32::MAX), "4294967295");
    assert_eq!(wide("ab"), vec![97u16, 98, 0]);
    assert_eq!(wide("é𝄞"), vec![0xE9u16, 0xD834, 0xDD1E, 0]);
}

#[test]
fn endpoint_normalization() {
    assert_eq!(normalize_endpoint("").unwrap(), "");
    assert_eq!(normalize_endpoint("   ").unwrap(), "");
    assert_eq!(normalize_endpoint(" http://a/ ").unwrap(), "http://a/");
    assert_eq!(normalize_endpoint("https://b").unwrap(), "https://b");
    assert_eq!(
        normalize_endpoint("ftp://c").unwrap_err(),
        "调用地址需以 http:// 或 https:// 开头"
    );
}

#[test]
fn platform_rules() {
    let mut db = db();
    assert_eq!(db.add_platform("   ", "", "", "").unwrap_err(), "平台名称不能为空");
    assert_eq!(
        db.add_platform("X", "", "nope", "").unwrap_err(),
        "调用地址需以 http:// 或 https:// 开头"
    );
    // no preset color: chosen by the sum of the name's code points (540 % 8 = 4)
    let p = db.add_platform(" OpenAI ", "", "", "").unwrap();
    assert_eq!(p.name, "OpenAI");
    assert_eq!(p.color, "orange");
    assert_eq!(p.key_count, 0);
    let w = db.add_platform("\u{3000} a b \n\u{a0}", "gray", "", "").unwrap();
    assert_eq!(w.name, "a b"); // Unicode white space is trimmed too
    assert_eq!(p.last_copied_at, None);
    let q = db.add_platform("Gemini", "pink", "", "").unwrap();
    assert_eq!(q.color, "pink");
    let r = db.add_platform("Z", "teal", "", "").unwrap(); // 'Z' = 90, 90 % 8 = 2
    assert_eq!(r.color, "pink");
    assert_eq!(db.add_platform("OpenAI", "", "", "").unwrap_err(), "平台已存在");
    assert_eq!(
        db.add_platform_with(p.id.clone(), 1, "Other", "", "", "").unwrap_err(),
        "平台已存在"
    );

    // renaming
    assert_eq!(db.rename_platform(&p.id, " ").unwrap_err(), "平台名称不能为空");
    assert_eq!(db.rename_platform(&p.id, "Gemini").unwrap_err(), "平台已存在");
    db.rename_platform(&p.id, "OpenAI").unwrap();
    db.rename_platform(&p.id, "  OpenAI 2 ").unwrap();
    db.rename_platform("missing", "Anything").unwrap();
    let names: Vec<String> = db.list_platforms().unwrap().into_iter().map(|p| p.name).collect();
    assert!(names.contains(&"OpenAI 2".to_string()));
    assert!(!names.contains(&"Anything".to_string()));

    assert_eq!(db.set_platform_endpoints("missing", "", "").unwrap_err(), "平台不存在");
    assert_eq!(db.delete_platform("missing").unwrap(), 0);
    assert_eq!(db.list_platforms().unwrap().len(), 4);
}

#[test]
fn entry_rules() {
    let mut db = db();
    let p = db.add_platform("P", "", "", "").unwrap();
    assert_eq!(db.add_entry(&p.id, " ", "k").unwrap_err(), "名称不能为空");
    assert_eq!(db.add_entry(&p.id, "n", " \n").unwrap_err(), "Key 值不能为空");
    assert_eq!(
        db.add_entry("missing", "n", "k").unwrap_err(),
        "FOREIGN KEY constraint failed"
    );
    let nonce = [0u8; NONCE_LEN];
    let e = db.add_entry_with("fixed-id".to_string(), 42, &nonce, &p.id, "n", "key-1").unwrap();
    assert_eq!(e.id, "fixed-id");
    assert_eq!(e.created_at, 42);
    assert_eq!(e.masked_key, "key…");
    assert_eq!(
        db.add_entry_with("fixed-id".to_string(), 43, &nonce, &p.id, "m", "key-2").unwrap_err(),
        "UNIQUE constraint failed: key_entry.id"
    );
    assert_eq!(db.reveal_entry("missing").unwrap_err(), "Query returned no rows");
    assert_eq!(db.copy_entry("missing").unwrap_err(), "Query returned no rows");

    // updates
    assert_eq!(db.update_entry("fixed-id", " ", &p.id, None).unwrap_err(), "名称不能为空");
    assert_eq!(
        db.update_entry("fixed-id", "n2", "missing", None).unwrap_err(),
        "FOREIGN KEY constraint failed"
    );
    db.update_entry("missing", "n2", "missing", Some("x")).unwrap();
    db.update_entry("fixed-id", " n2 ", &p.id, Some("   ")).unwrap();
    assert_eq!(db.reveal_entry("fixed-id").unwrap(), "key-1");
    assert_eq!(db.list_entries().unwrap()[0].name, "n2");
    db.update_entry_with("fixed-id", "n3", &p.id, Some(" key-3 "), &nonce, 7, 8).unwrap();
    assert_eq!(db.reveal_entry("fixed-id").unwrap(), "key-3");

    // deleting
    db.delete_entry("missing").unwrap();
    db.delete_entry("fixed-id").unwrap();
    assert_eq!(db.reveal_entry("fixed-id").unwrap_err(), "Query returned no rows");
    assert!(db.list_entries().unwrap().is_empty());
}

#[test]
fn listing_order_and_usage() {
    let mut db = db();
    let a = db.add_platform_with("pa".to_string(), 10, "A", "", "", "").unwrap();
    let b = db.add_platform_with("pb".to_string(), 20, "B", "", "", "").unwrap();
    let nonce = [3u8; NONCE_LEN];
    db.add_entry_with("e1".to_string(), 100, &nonce, &a.id, "one", "k1").unwrap();
    db.add_entry_with("e2".to_string(), 200, &nonce, &a.id, "two", "k2").unwrap();
    db.add_entry_with("e3".to_string(), 300, &nonce, &b.id, "three", "k3").unwrap();

    // never copied: newest first
    let ids: Vec<String> = db.list_entries().unwrap().into_iter().map(|e| e.id).collect();
    assert_eq!(ids, vec!["e3", "e2", "e1"]);
    let plats: Vec<String> = db.list_platforms().unwrap().into_iter().map(|p| p.id).collect();
    assert_eq!(plats, vec!["pb", "pa"]);

    // copied entries come first, latest copy first
    assert_eq!(db.copy_entry_at("e1", 1000).unwrap(), "k1");
    assert_eq!(db.copy_entry_at("e2", 500).unwrap(), "k2");
    let listed = db.list_entries().unwrap();
    let ids: Vec<&str> = listed.iter().map(|e| e.id.as_str()).collect();
    assert_eq!(ids, vec!["e1", "e2", "e3"]);
    assert_eq!(listed[0].copy_count, 1);
    assert_eq!(listed[0].last_copied_at, Some(1000));
    assert_eq!(listed[2].last_copied_at, None);

    let plats = db.list_platforms().unwrap();
    assert_eq!(plats[0].id, "pa");
    assert_eq!(plats[0].key_count, 2);
    assert_eq!(plats[0].last_copied_at, Some(1000));
    assert_eq!(plats[1].key_count, 1);
    assert_eq!(plats[1].last_copied_at, None);

    // backup order: oldest first, with the platform's name
    let (ps, es) = db.dump_all().unwrap();
    assert_eq!(ps[0].0, "A");
    assert_eq!(ps[1].0, "B");
    let names: Vec<&str> = es.iter().map(|e| e.1.as_str()).collect();
    assert_eq!(names, vec!["one", "two", "three"]);
    assert_eq!(es[2].0, "B");
    assert_eq!(es[0].2, "k1");
    assert_eq!(es[0].3, 1);
    assert_eq!(es[0].4, Some(1000));
}

#[test]
fn restore_rules() {
    let mut db = db();
    let platforms = vec![
        ("Known".to_string(), "green".to_string(), "".to_string(), "".to_string()),
        ("New".to_string(), "teal".to_string(), "bad url".to_string(), " https://ok ".to_string()),
    ];
    db.add_platform("Known", "red", "", "").unwrap();
    let entries = vec![
        ("New".to_string(), "a".to_string(), "ka".to_string(), i64::MAX, Some(5), 1),
        ("Unknown".to_string(), "b".to_string(), "kb".to_string(), 0, None, 2),
        ("Known".to_string(), "c".to_string(), "kc".to_string(), 3, None, 3),
    ];
    let n = db.restore_all(&platforms, &entries).unwrap();
    assert_eq!(n, 2);
    let plats = db.list_platforms().unwrap();
    assert_eq!(plats.len(), 2);
    let known = plats.iter().find(|p| p.name == "Known").unwrap();
    assert_eq!(known.color, "red"); // the existing platform is reused as it is
    let new = plats.iter().find(|p| p.name == "New").unwrap();
    assert_eq!(new.color, "blue");
    assert_eq!(new.endpoint_openai, "");
    assert_eq!(new.endpoint_anthropic, "https://ok");

    let listed = db.list_entries().unwrap();
    assert_eq!(listed.len(), 2);
    let a = listed.iter().find(|e| e.name == "a").unwrap();
    assert_eq!(a.platform_id, new.id);
    assert_eq!(a.copy_count, i64::MAX);
    assert_eq!(db.reveal_entry(&a.id).unwrap(), "ka");
    // the use count stays at its largest value
    let id = a.id.clone();
    db.copy_entry(&id).unwrap();
    let after = db.list_entries().unwrap();
    assert_eq!(after.iter().find(|e| e.id == id).unwrap().copy_count, i64::MAX);
}

#[test]
fn backup_framing() {
    let content = seal_backup("passphrase", b"payload bytes").unwrap();
    assert!(content
        .chars()
        .all(|c| c.is_ascii_alphanumeric() || c == '+' || c == '/' || c == '='));
    assert_eq!(open_backup("passphrase", &content).unwrap(), b"payload bytes".to_vec());
    let padded = format!("\n  {}  \n", content);
    assert_eq!(open_backup("passphrase", &padded).unwrap(), b"payload bytes".to_vec());
    assert_eq!(open_backup("other", &content).unwrap_err(), "口令错误或文件已损坏");
    assert_eq!(open_backup("passphrase", "not base64!").unwrap_err(), "备份文件格式无效");
    assert_eq!(open_backup("passphrase", "QVBLVjE=").unwrap_err(), "备份文件格式无效");
    assert_eq!(seal_backup("abc", b"x").unwrap_err(), "备份口令至少 4 位");
    // the length counts UTF-8 bytes: one CJK character is three
    assert!(check_export_passphrase("口").is_err());
    assert!(check_export_passphrase("口令").is_ok());
    assert!(check_export_passphrase("abc").is_err());
}

#[test]
fn payload_version_is_checked() {
    let mut db = db();
    let payload = BackupPayload {
        version: 2,
        platforms: vec![BackupPlatform {
            name: "P".to_string(),
            color: "blue".to_string(),
            endpoint_openai: String::new(),
            endpoint_anthropic: String::new(),
        }],
        entries: vec![BackupEntry {
            platform: "P".to_string(),
            name: "n".to_string(),
            key: "k".to_string(),
            copy_count: 0,
            last_copied_at: None,
            created_at: 0,
        }],
    };
    assert_eq!(import_payload(&mut db, &payload).unwrap_err(), "不支持的备份版本 v2");
    assert!(db.list_platforms().unwrap().is_empty());
}

#[test]
fn master_key_plan() {
    match plan_master_key(Some(vec![4u8; KEY_LEN])) {
        MasterKeyPlan::Reuse(k) => assert_eq!(k, [4u8; KEY_LEN]),
        MasterKeyPlan::Replace(_) => panic!("a stored key of the right length is reused"),
    }
    assert!(matches!(plan_master_key(Some(vec![4u8; 5])), MasterKeyPlan::Replace(_)));
    assert!(matches!(plan_master_key(None), MasterKeyPlan::Replace(_)));
}

#[test]
fn stored_rows_are_checked() {
    let platform = |id: &str, name: &str| PlatformRecord {
        id: id.to_string(),
        name: name.to_string(),
        color: "blue".to_string(),
        endpoint_openai: String::new(),
        endpoint_anthropic: String::new(),
        created_at: 0,
    };
    let entry = |id: &str, pid: &str| EntryRecord {
        id: id.to_string(),
        platform_id: pid.to_string(),
        name: "n".to_string(),
        key_encrypted: vec![0u8; 30],
        copy_count: 0,
        last_copied_at: None,
        created_at: 0,
        updated_at: 0,
    };
    let ok = Db::from_records([0u8; KEY_LEN], vec![platform("p1", "A"), platform("p2", "B")], vec![entry("e1", "p2")]);
    assert!(ok.is_ok());
    assert!(Db::from_records([0u8; KEY_LEN], vec![platform("p1", "A"), platform("p2", "A")], vec![]).is_err());
    assert!(Db::from_records([0u8; KEY_LEN], vec![platform("p1", "A")], vec![entry("e1", "p9")]).is_err());
    assert!(Db::from_records([0u8; KEY_LEN], vec![platform("p1", "A")], vec![entry("e1", "p1"), entry("e1", "p1")]).is_err());
    let db = ok.unwrap();
    assert_eq!(db.platform_records().len(), 2);
    assert_eq!(db.entry_records()[0].id, "e1");
    // a blob that does not decrypt makes the listing fail
    assert_eq!(db.list_entries().unwrap_err(), "decrypt failed: aead::Error");
}

#[test]
fn clock_reading_becomes_timestamp() {
    assert_eq!(apk_vault::clock::epoch_millis(Some(1_700_000_000_123)), 1_700_000_000_123);
    assert_eq!(apk_vault::clock::epoch_millis(None), 0);
    assert!(apk_vault::clock::now_ms() > 0);
}

#[test]
fn deleting_a_platform_counts_its_keys() {
    let mut db = db();
    let p = db.add_platform("Relay", "blue", "", "").unwrap();
    let q = db.add_platform("Other", "green", "", "").unwrap();
    db.add_entry(&p.id, "a", "sk-1").unwrap();
    db.add_entry(&p.id, "b", "sk-2").unwrap();
    let kept = db.add_entry(&q.id, "c", "sk-3").unwrap();
    assert_eq!(db.delete_platform(&p.id).unwrap(), 2);
    let left = db.list_entries().unwrap();
    assert_eq!(left.len(), 1);
    assert_eq!(left[0].id, kept.id);
    assert_eq!(db.delete_platform(&q.id).unwrap(), 1);
}

#[test]
fn dump_then_restore_gives_the_same_dump() {
    let mut src = db();
    let p = src.add_platform("OpenAI", "purple", "https://api.example.com/v1", "").unwrap();
    let q = src.add_platform("Relay", "", "", "https://anthropic.example.com").unwrap();
    src.add_entry(&p.id, "main", "sk-main-1111").unwrap();
    let e = src.add_entry(&q.id, "spare", "sk-spare-2222").unwrap();
    src.add_entry(&q.id, "third", "sk-third-3333").unwrap();
    src.copy_entry(&e.id).unwrap();
    let (ps, es) = src.dump_all().unwrap();

    let mut dst = Db::new([9u8; KEY_LEN]);
    assert_eq!(dst.restore_all(&ps, &es).unwrap(), es.len());
    let (mut ps2, mut es2) = dst.dump_all().unwrap();
    let (mut ps1, mut es1) = (ps.clone(), es.clone());
    ps1.sort();
    ps2.sort();
    es1.sort();
    es2.sort();
    assert_eq!(ps1, ps2);
    assert_eq!(es1, es2);
}

#[test]
fn revealed_key_survives_other_changes() {
    let mut db = db();
    let p = db.add_platform("Main", "", "", "").unwrap();
    let q = db.add_platform("Side", "", "", "").unwrap();
    let e = db.add_entry(&p.id, "keep", "  sk-keep-0000 ").unwrap();
    let other = db.add_entry(&q.id, "other", "sk-other").unwrap();
    db.copy_entry(&e.id).unwrap();
    db.copy_entry(&other.id).unwrap();
    db.update_entry(&e.id, "kept", &q.id, None).unwrap();
    db.update_entry(&other.id, "other2", &q.id, Some("sk-other-2")).unwrap();
    db.rename_platform(&p.id, "Main 2").unwrap();
    db.set_platform_endpoints(&q.id, "https://x.example.com", "").unwrap();
    db.add_platform("Third", "", "", "").unwrap();
    db.delete_entry(&other.id).unwrap();
    assert_eq!(db.delete_platform(&p.id).unwrap(), 0);
    let (ps, es) = db.dump_all().unwrap();
    db.restore_all(&ps, &es).unwrap();
    assert_eq!(db.reveal_entry(&e.id).unwrap(), "sk-keep-0000");
}

#[test]
fn unicode_white_space_is_trimmed() {
    assert_eq!(normalize_endpoint("\u{3000} https://x.com\t\n\u{a0}").unwrap(), "https://x.com");
    assert_eq!(normalize_endpoint("\u{2003}\u{85} ").unwrap(), "");
    let mut db = db();
    let p = db.add_platform("\u{3000}名\u{a0}", "", "", "").unwrap();
    assert_eq!(p.name, "名");
}

#[test]
fn restore_with_given_values() {
    let mut db = db();
    let old = db.add_platform("Old", "", "", "").unwrap();
    let kept = db.add_entry(&old.id, "k", "sk-old").unwrap();
    let platforms = vec![
        ("New".to_string(), "teal".to_string(), " https://n.example.com ".to_string(), "ftp://x".to_string()),
        ("Old".to_string(), "red".to_string(), String::new(), String::new()),
    ];
    let entries = vec![
        ("New".to_string(), "a".to_string(), "sk-a".to_string(), 3i64, Some(50i64), 7i64),
        ("Gone".to_string(), "b".to_string(), "sk-b".to_string(), 0i64, None, 8i64),
        ("Old".to_string(), "c".to_string(), "sk-c".to_string(), 0i64, None, 9i64),
    ];
    let pids = vec!["p-new".to_string(), "p-old".to_string()];
    let ptimes = vec![100i64, 101i64];
    let eids = vec!["e-a".to_string(), "e-b".to_string(), "e-c".to_string()];
    let nonces = vec![[1u8; NONCE_LEN], [2u8; NONCE_LEN], [3u8; NONCE_LEN]];
    let etimes = vec![200i64, 201i64, 202i64];
    let n = db.restore_all_with(&platforms, &entries, &pids, &ptimes, &eids, &nonces, &etimes).unwrap();
    assert_eq!(n, 2);

    let ps = db.platform_records();
    assert_eq!(ps.len(), 2);
    assert_eq!(ps[1].id, "p-new");
    assert_eq!(ps[1].color, "blue");
    assert_eq!(ps[1].endpoint_openai, "https://n.example.com");
    assert_eq!(ps[1].endpoint_anthropic, "");
    assert_eq!(ps[1].created_at, 100);

    let es = db.entry_records();
    assert_eq!(es.len(), 3);
    assert_eq!(es[1].id, "e-a");
    assert_eq!(es[1].platform_id, "p-new");
    assert_eq!(&es[1].key_encrypted[..NONCE_LEN], &[1u8; NONCE_LEN]);
    assert_eq!(es[1].copy_count, 3);
    assert_eq!(es[1].last_copied_at, Some(50));
    assert_eq!(es[1].created_at, 7);
    assert_eq!(es[1].updated_at, 200);
    assert_eq!(es[2].id, "e-c");
    assert_eq!(es[2].platform_id, old.id);
    assert_eq!(&es[2].key_encrypted[..NONCE_LEN], &[3u8; NONCE_LEN]);
    assert_eq!(db.reveal_entry("e-a").unwrap(), "sk-a");
    assert_eq!(db.reveal_entry("e-c").unwrap(), "sk-c");

    // a fresh entry id that is taken stops the restore with the key table's error
    let again = vec![kept.id.clone(), "e-x".to_string(), "e-y".to_string()];
    let err = db.restore_all_with(&platforms, &entries, &pids, &ptimes, &again, &nonces, &etimes).unwrap_err();
    assert_eq!(err, "UNIQUE constraint failed: key_entry.id");
    assert_eq!(db.entry_records().len(), 3);
}

#[test]
fn import_with_given_values() {
    let mut db = db();
    let payload = BackupPayload {
        version: 1,
        platforms: vec![BackupPlatform {
            name: "P".to_string(),
            color: "green".to_string(),
            endpoint_openai: String::new(),
            endpoint_anthropic: String::new(),
        }],
        entries: vec![BackupEntry {
            platform: "P".to_string(),
            name: "n".to_string(),
            key: "sk-p".to_string(),
            copy_count: 1,
            last_copied_at: None,
            created_at: 5,
        }],
    };
    let n = import_payload_with(
        &mut db,
        &payload,
        &["pid-1".to_string()],
        &[10],
        &["eid-1".to_string()],
        &[[0u8; NONCE_LEN]],
        &[11],
    )
    .unwrap();
    assert_eq!(n, 1);
    assert_eq!(db.platform_records()[0].id, "pid-1");
    assert_eq!(db.reveal_entry("eid-1").unwrap(), "sk-p");
    let old = BackupPayload { version: 0, ..payload };
    assert_eq!(
        import_payload_with(&mut db, &old, &["x".to_string()], &[0], &["y".to_string()], &[[0u8; NONCE_LEN]], &[0])
            .unwrap_err(),
        "不支持的备份版本 v0"
    );
}
