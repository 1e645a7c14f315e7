use apk_vault::crypto::KEY_LEN;
use apk_vault::db::Db;
use apk_vault::text::mask_key;

fn test_db() -> Db {
    Db::new([7u8; KEY_LEN])
}

#[test]
fn full_crud_and_masking() {
    let mut db = test_db();
    let p = db.add_platform("OpenAI", "", "", "").unwrap();
    assert!(db.add_platform("openai", "", "", "").is_err() || db.add_platform("OpenAI", "", "", "").is_err());

    let e = db
        .add_entry(&p.id, "  个人主力 ", "  sk-test-abcd1234  ")
        .unwrap();
    assert_eq!(e.name, "个人主力"); // trim
    assert_eq!(e.masked_key, "sk-…1234");
    assert_eq!(e.copy_count, 0);

    // the stored row holds no plaintext
    {
        let record = db.entry_records().iter().find(|r| r.id == e.id).unwrap();
        let blob_str = String::from_utf8_lossy(&record.key_encrypted);
        assert!(!blob_str.contains("sk-test-abcd1234"));
    }

    // reveal / copy
    assert_eq!(db.reveal_entry(&e.id).unwrap(), "sk-test-abcd1234");
    assert_eq!(db.copy_entry(&e.id).unwrap(), "sk-test-abcd1234");
    let entries = db.list_entries().unwrap();
    assert_eq!(entries[0].copy_count, 1);
    assert!(entries[0].last_copied_at.is_some());

    // edit: rename and move, key kept
    let p2 = db.add_platform("DeepSeek", "green", "", "").unwrap();
    db.update_entry(&e.id, "改名后", &p2.id, None).unwrap();
    let entries = db.list_entries().unwrap();
    assert_eq!(entries[0].name, "改名后");
    assert_eq!(entries[0].platform_id, p2.id);
    assert_eq!(db.reveal_entry(&e.id).unwrap(), "sk-test-abcd1234");

    // replace the key
    db.update_entry(&e.id, "改名后", &p2.id, Some("sk-new-9999")).unwrap();
    assert_eq!(db.reveal_entry(&e.id).unwrap(), "sk-new-9999");

    // deleting the platform deletes its entries
    db.delete_platform(&p2.id).unwrap();
    assert!(db.list_entries().unwrap().is_empty());
}

#[test]
fn short_key_masking() {
    assert_eq!(mask_key("abc"), "abc…");
    assert_eq!(mask_key("sk-ant-xyz123"), "sk-…z123");
}

#[test]
fn platform_endpoints_crud_and_validation() {
    let mut db = test_db();
    let p = db
        .add_platform(
            "Relay",
            "",
            " https://api.example.com/v1 ",
            "https://anthropic.example.com",
        )
        .unwrap();
    // trimmed
    assert_eq!(p.endpoint_openai, "https://api.example.com/v1");
    assert_eq!(p.endpoint_anthropic, "https://anthropic.example.com");

    // update and clear
    db.set_platform_endpoints(&p.id, "http://localhost:8080/v1", "").unwrap();
    let listed = db.list_platforms().unwrap();
    assert_eq!(listed.len(), 1);
    assert_eq!(listed[0].endpoint_openai, "http://localhost:8080/v1");
    assert_eq!(listed[0].endpoint_anthropic, "");

    // an address without a scheme is refused
    assert!(db.set_platform_endpoints(&p.id, "api.example.com/v1", "").is_err());
    // a missing platform is an error
    assert!(db.set_platform_endpoints("no-such-id", "https://x.com", "").is_err());
}
