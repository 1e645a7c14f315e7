use apk_vault::backup::{
    check_export_passphrase, export_payload, import_payload, open_backup, seal_backup, BackupEntry,
    BackupPayload, BackupPlatform,
};
use apk_vault::crypto::KEY_LEN;
use apk_vault::db::Db;

type PlatformRow = (String, String, String, String);
type EntryRow = (String, String, String, i64, Option<i64>, i64);

fn test_db() -> Db {
    Db::new([9u8; KEY_LEN])
}

/// Export as the application does it, with the payload written as JSON.
fn export_backup(db: &Db, passphrase: &str) -> Result<String, String> {
    check_export_passphrase(passphrase)?;
    let payload = export_payload(db)?;
    let platforms: Vec<PlatformRow> = payload
        .platforms
        .iter()
        .map(|p| (p.name.clone(), p.color.clone(), p.endpoint_openai.clone(), p.endpoint_anthropic.clone()))
        .collect();
    let entries: Vec<EntryRow> = payload
        .entries
        .iter()
        .map(|e| (e.platform.clone(), e.name.clone(), e.key.clone(), e.copy_count, e.last_copied_at, e.created_at))
        .collect();
    let json = serde_json::to_vec(&(payload.version, platforms, entries)).map_err(|e| e.to_string())?;
    seal_backup(passphrase, &json)
}

/// Import as the application does it.
fn import_backup(db: &mut Db, passphrase: &str, content: &str) -> Result<usize, String> {
    let json = open_backup(passphrase, content)?;
    let (version, platforms, entries): (u32, Vec<PlatformRow>, Vec<EntryRow>) =
        serde_json::from_slice(&json).map_err(|_| "备份内容解析失败".to_string())?;
    let payload = BackupPayload {
        version,
        platforms: platforms
            .into_iter()
            .map(|(name, color, endpoint_openai, endpoint_anthropic)| BackupPlatform {
                name,
                color,
                endpoint_openai,
                endpoint_anthropic,
            })
            .collect(),
        entries: entries
            .into_iter()
            .map(|(platform, name, key, copy_count, last_copied_at, created_at)| BackupEntry {
                platform,
                name,
                key,
                copy_count,
                last_copied_at,
                created_at,
            })
            .collect(),
    };
    import_payload(db, &payload)
}

#[test]
fn export_import_roundtrip() {
    let mut src = test_db();
    let p = src.add_platform("OpenAI", "blue", "", "").unwrap();
    src.add_entry(&p.id, "主力", "sk-live-abcdef").unwrap();

    let content = export_backup(&src, "口令1234").unwrap();
    assert!(!content.contains("sk-live-abcdef")); // no plaintext in the backup

    // another "machine": a vault under another master key
    let mut dst = Db::new([3u8; KEY_LEN]);
    let n = import_backup(&mut dst, "口令1234", &content).unwrap();
    assert_eq!(n, 1);

    let entries = dst.list_entries().unwrap();
    assert_eq!(entries.len(), 1);
    assert_eq!(entries[0].name, "主力");
    assert_eq!(dst.reveal_entry(&entries[0].id).unwrap(), "sk-live-abcdef");
    let plats = dst.list_platforms().unwrap();
    assert_eq!(plats[0].name, "OpenAI");

    // platforms are merged by name: a second import adds no platform
    let n2 = import_backup(&mut dst, "口令1234", &content).unwrap();
    assert_eq!(n2, 1);
    assert_eq!(dst.list_platforms().unwrap().len(), 1);
    assert_eq!(dst.list_entries().unwrap().len(), 2);

    // wrong passphrase
    assert!(import_backup(&mut dst, "wrong", &content).is_err());
    // too short a passphrase is refused on export
    assert!(export_backup(&src, "abc").is_err());
}
