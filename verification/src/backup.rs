//! Encrypted backups (`.apkvault`): the payload is sealed with a key that Argon2
//! derives from a one-time passphrase and a random salt, framed as
//! `"APKV1" || salt (16 bytes) || nonce || ciphertext+tag`, and written as Base64 text.

use argon2::Argon2;
use base64::Engine;
use vstd::prelude::*;
use vstd::string::*;
use vstd::utf8::*;

use crate::crypto::{self, decrypted, encrypts, KEY_LEN, NONCE_LEN, PLAINTEXT_MAX};
use crate::db::{
    all_readable, count_result, dumps_entries, dumps_platforms, nonce_views, restore_outcome, revealed_text,
    spec_restore, text_views, Db, EntryFields, EntryTuple, PlatformFields, PlatformTuple,
};
use crate::text::{decimal, decimal_text, trim, trimmed};

verus! {

/// Length of the random salt in a backup file.
pub const SALT_LEN: usize = 16;

/// Length of the file header.
pub const MAGIC_LEN: usize = 5;

/// The longest passphrase (in bytes) and salt that Argon2 accepts.
pub const ARGON2_INPUT_MAX: usize = 0xFFFF_FFFF;

/// The shortest salt that Argon2 accepts.
pub const ARGON2_SALT_MIN: usize = 8;

#[verifier::external_type_specification]
#[verifier::external_body]
pub struct ExDecodeError(base64::DecodeError);

/// The standard Base64 text (with padding) of `bytes`.
pub uninterp spec fn base64_text(bytes: Seq<u8>) -> Seq<char>;

/// What standard Base64 decoding (canonical padding required) gives for `text`.
pub uninterp spec fn base64_bytes(text: Seq<char>) -> Option<Seq<u8>>;

/// The 32-byte key that `Argon2::default()` (Argon2id, default parameters)
/// derives from `password` and `salt`.
pub uninterp spec fn argon2_key(password: Seq<u8>, salt: Seq<u8>) -> Seq<u8>;

/// A character of the standard Base64 alphabet or its padding.
pub open spec fn is_base64_char(c: char) -> bool {
    ||| 'A' <= c <= 'Z'
    ||| 'a' <= c <= 'z'
    ||| '0' <= c <= '9'
    ||| c == '+'
    ||| c == '/'
    ||| c == '='
}

/// `STANDARD.encode`: the Base64 text of `bytes`; it is made of alphabet characters
/// and padding only, and decoding it gives `bytes` back.
#[verifier::external_body]
fn base64_encode(bytes: &[u8]) -> (t: String)
    ensures
        t@ == base64_text(bytes@),
        forall|i: int| 0 <= i < t@.len() ==> is_base64_char(#[trigger] t@[i]),
        base64_bytes(t@) == Some(bytes@),
{
    base64::engine::general_purpose::STANDARD.encode(bytes)
}

/// `STANDARD.decode`: the bytes that `text` encodes, or an error.
#[verifier::external_body]
fn base64_decode(text: &str) -> (r: Result<Vec<u8>, base64::DecodeError>)
    ensures
        r matches Ok(b) ==> base64_bytes(text@) == Some(b@),
        r is Err ==> base64_bytes(text@) is None,
{
    base64::engine::general_purpose::STANDARD.decode(text)
}

/// `Argon2::default().hash_password_into` with a 32-byte output: succeeds exactly
/// when the password is at most 2^32-1 bytes and the salt between 8 and 2^32-1
/// bytes; the error is the `Display` text of the argon2 error.
#[verifier::external_body]
fn argon2_hash(password: &[u8], salt: &[u8]) -> (r: Result<[u8; KEY_LEN], String>)
    ensures
        r is Ok <==> (password@.len() <= ARGON2_INPUT_MAX && ARGON2_SALT_MIN <= salt@.len()
            <= ARGON2_INPUT_MAX),
        r matches Ok(k) ==> k@ == argon2_key(password@, salt@),
        r matches Err(e) ==> e@ == (if password@.len() > ARGON2_INPUT_MAX {
            "password is too long"@
        } else if salt@.len() < ARGON2_SALT_MIN {
            "salt is too short"@
        } else {
            "salt is too long"@
        }),
{
    let mut key = [0u8; KEY_LEN];
    match Argon2::default().hash_password_into(password, salt, &mut key) {
        Ok(()) => Ok(key),
        Err(e) => Err(e.to_string()),
    }
}


/// The file header `"APKV1"`.
pub open spec fn magic() -> Seq<u8> {
    seq![0x41u8, 0x50u8, 0x4Bu8, 0x56u8, 0x31u8]
}

/// The error for a passphrase of fewer than four bytes.
pub open spec fn short_passphrase_message() -> Seq<char> {
    "备份口令至少 4 位"@
}

/// The error for text that is not a backup file.
pub open spec fn invalid_format_message() -> Seq<char> {
    "备份文件格式无效"@
}

/// The error for a backup that does not decrypt under the passphrase.
pub open spec fn wrong_passphrase_message() -> Seq<char> {
    "口令错误或文件已损坏"@
}

/// What the key derivation gives for a passphrase (as UTF-8 bytes) and a salt.
pub open spec fn derived_key(password: Seq<u8>, salt: Seq<u8>) -> Result<Seq<u8>, Seq<char>> {
    if password.len() <= ARGON2_INPUT_MAX && ARGON2_SALT_MIN <= salt.len() <= ARGON2_INPUT_MAX {
        Ok(argon2_key(password, salt))
    } else if password.len() > ARGON2_INPUT_MAX {
        Err("kdf failed: "@ + "password is too long"@)
    } else if salt.len() < ARGON2_SALT_MIN {
        Err("kdf failed: "@ + "salt is too short"@)
    } else {
        Err("kdf failed: "@ + "salt is too long"@)
    }
}

/// Derives the 32-byte backup key from a passphrase and a salt with Argon2.
fn derive_key(passphrase: &str, salt: &[u8]) -> (r: Result<[u8; KEY_LEN], String>)
    ensures
        match r {
            Ok(k) => derived_key(encode_utf8(passphrase@), salt@) == Ok::<Seq<u8>, Seq<char>>(k@),
            Err(e) => derived_key(encode_utf8(passphrase@), salt@) == Err::<Seq<u8>, Seq<char>>(e@),
        },
{
    match argon2_hash(passphrase.as_bytes(), salt) {
        Ok(k) => Ok(k),
        Err(e) => {
            let mut msg = String::from_str("kdf failed: ");
            msg.append(e.as_str());
            Err(msg)
        },
    }
}


/// With a backup's 16-byte salt, key derivation succeeds for every passphrase
/// that fits Argon2's input limit, with the Argon2 key of the passphrase and the
/// salt; so the key depends on those two alone, and equal inputs give equal keys.
pub proof fn law_derived_key_is_determined(p1: Seq<char>, salt1: Seq<u8>, p2: Seq<char>, salt2: Seq<u8>)
    requires
        salt1.len() == SALT_LEN,
        salt2.len() == SALT_LEN,
        encode_utf8(p1).len() <= ARGON2_INPUT_MAX,
        encode_utf8(p2).len() <= ARGON2_INPUT_MAX,
    ensures
        derived_key(encode_utf8(p1), salt1) == Ok::<Seq<u8>, Seq<char>>(argon2_key(encode_utf8(p1), salt1)),
        derived_key(encode_utf8(p2), salt2) == Ok::<Seq<u8>, Seq<char>>(argon2_key(encode_utf8(p2), salt2)),
        p1 == p2 && salt1 == salt2 ==> derived_key(encode_utf8(p1), salt1) == derived_key(encode_utf8(p2), salt2),
{
}

/// `content` is a backup of `payload` under `passphrase`: Base64 text of
/// `"APKV1" || salt || blob`, where `blob` encrypts `payload` under the key that
/// Argon2 derives from the passphrase and the salt.
pub open spec fn is_backup_of(passphrase: Seq<char>, payload: Seq<u8>, content: Seq<char>) -> bool {
    &&& forall|i: int| 0 <= i < content.len() ==> is_base64_char(#[trigger] content[i])
    &&& base64_bytes(content) matches Some(file)
    &&& content == base64_text(file)
    &&& file.len() >= MAGIC_LEN + SALT_LEN
    &&& file.subrange(0, MAGIC_LEN as int) == magic()
    &&& encode_utf8(passphrase).len() <= ARGON2_INPUT_MAX
    &&& encrypts(
        argon2_key(encode_utf8(passphrase), file.subrange(MAGIC_LEN as int, (MAGIC_LEN + SALT_LEN) as int)),
        payload,
        file.subrange((MAGIC_LEN + SALT_LEN) as int, file.len() as int),
    )
}

/// What opening `content` with `passphrase` gives: the payload, or the error.
pub open spec fn opened_backup(passphrase: Seq<char>, content: Seq<char>) -> Result<Seq<u8>, Seq<char>> {
    match base64_bytes(trimmed(content)) {
        None => Err(invalid_format_message()),
        Some(file) => if file.len() < MAGIC_LEN + SALT_LEN + NONCE_LEN || file.subrange(0, MAGIC_LEN as int) != magic() {
            Err(invalid_format_message())
        } else {
            let salt = file.subrange(MAGIC_LEN as int, (MAGIC_LEN + SALT_LEN) as int);
            match derived_key(encode_utf8(passphrase), salt) {
                Err(e) => Err(e),
                Ok(k) => match decrypted(k, file.subrange((MAGIC_LEN + SALT_LEN) as int, file.len() as int)) {
                    Ok(payload) => Ok(payload),
                    Err(_) => Err(wrong_passphrase_message()),
                },
            }
        },
    }
}

/// Refuses a backup passphrase shorter than four bytes.
pub fn check_export_passphrase(passphrase: &str) -> (r: Result<(), String>)
    ensures
        r is Ok <==> encode_utf8(passphrase@).len() >= 4,
        r matches Err(e) ==> e@ == short_passphrase_message(),
{
    if passphrase.as_bytes().len() < 4 {
        return Err(String::from_str("备份口令至少 4 位"));
    }
    Ok(())
}

/// Seals `payload` into backup text under `passphrase`, with a fresh random salt
/// and nonce.
pub fn seal_backup(passphrase: &str, payload: &[u8]) -> (r: Result<String, String>)
    ensures
        r is Ok <==> (4 <= encode_utf8(passphrase@).len() <= ARGON2_INPUT_MAX && payload@.len()
            <= PLAINTEXT_MAX),
        r matches Ok(content) ==> is_backup_of(passphrase@, payload@, content@),
        r matches Err(e) ==> e@ == (if encode_utf8(passphrase@).len() < 4 {
            short_passphrase_message()
        } else if encode_utf8(passphrase@).len() > ARGON2_INPUT_MAX {
            "kdf failed: "@ + "password is too long"@
        } else {
            crypto::encrypt_failed_message()
        }),
{
    check_export_passphrase(passphrase)?;
    let mut salt = [0u8; SALT_LEN];
    crypto::fill_random(&mut salt);
    let key = derive_key(passphrase, salt.as_slice())?;
    let blob = crypto::encrypt(&key, payload)?;
    let mut file: Vec<u8> = Vec::new();
    file.push(0x41u8);
    file.push(0x50u8);
    file.push(0x4Bu8);
    file.push(0x56u8);
    file.push(0x31u8);
    file.extend_from_slice(salt.as_slice());
    file.extend_from_slice(blob.as_slice());
    proof {
        assert(file@.subrange(0, MAGIC_LEN as int) =~= magic());
        assert(file@.subrange(MAGIC_LEN as int, (MAGIC_LEN + SALT_LEN) as int) =~= salt@);
        assert(file@.subrange((MAGIC_LEN + SALT_LEN) as int, file@.len() as int) =~= blob@);
    }
    Ok(base64_encode(file.as_slice()))
}

/// Opens backup text with `passphrase` and gives back the sealed payload.
pub fn open_backup(passphrase: &str, content: &str) -> (r: Result<Vec<u8>, String>)
    ensures
        match r {
            Ok(p) => opened_backup(passphrase@, content@) == Ok::<Seq<u8>, Seq<char>>(p@),
            Err(e) => opened_backup(passphrase@, content@) == Err::<Seq<u8>, Seq<char>>(e@),
        },
{
    let text = trim(content);
    let file = match base64_decode(text) {
        Ok(f) => f,
        Err(_) => return Err(String::from_str("备份文件格式无效")),
    };
    if file.len() < MAGIC_LEN + SALT_LEN + NONCE_LEN || !(file[0] == 0x41u8 && file[1] == 0x50u8
        && file[2] == 0x4Bu8 && file[3] == 0x56u8 && file[4] == 0x31u8) {
        proof {
            if file@.len() >= MAGIC_LEN + SALT_LEN + NONCE_LEN && file@.subrange(0, MAGIC_LEN as int) == magic() {
                assert(file@.subrange(0, MAGIC_LEN as int)[0] == file@[0]);
                assert(file@.subrange(0, MAGIC_LEN as int)[1] == file@[1]);
                assert(file@.subrange(0, MAGIC_LEN as int)[2] == file@[2]);
                assert(file@.subrange(0, MAGIC_LEN as int)[3] == file@[3]);
                assert(file@.subrange(0, MAGIC_LEN as int)[4] == file@[4]);
            }
        }
        return Err(String::from_str("备份文件格式无效"));
    }
    proof {
        assert(file@.subrange(0, MAGIC_LEN as int) =~= magic());
    }
    let bytes = file.as_slice();
    let salt = &bytes[MAGIC_LEN..MAGIC_LEN + SALT_LEN];
    let blob = &bytes[MAGIC_LEN + SALT_LEN..bytes.len()];
    let key = derive_key(passphrase, salt)?;
    match crypto::decrypt(&key, blob) {
        Ok(payload) => Ok(payload),
        Err(_) => Err(String::from_str("口令错误或文件已损坏")),
    }
}

/// Opening a backup with the passphrase it was sealed with gives the payload back.
pub proof fn lemma_open_sealed_backup(passphrase: Seq<char>, payload: Seq<u8>, content: Seq<char>)
    requires
        is_backup_of(passphrase, payload, content),
    ensures
        opened_backup(passphrase, content) == Ok::<Seq<u8>, Seq<char>>(payload),
{
    if content.len() > 0 {
        assert(is_base64_char(content[0]));
        assert(is_base64_char(content[content.len() - 1]));
    }
    crate::text::lemma_trimmed_unchanged(content);
}

/// The payload version this library writes and reads.
pub const BACKUP_VERSION: u32 = 1;

/// A backed-up platform.
#[derive(Clone, Debug)]
pub struct BackupPlatform {
    pub name: String,
    pub color: String,
    pub endpoint_openai: String,
    pub endpoint_anthropic: String,
}

/// A backed-up entry, with its key in plaintext (the payload is sealed as a whole).
#[derive(Clone, Debug)]
pub struct BackupEntry {
    pub platform: String,
    pub name: String,
    pub key: String,
    pub copy_count: i64,
    pub last_copied_at: Option<i64>,
    pub created_at: i64,
}

/// What a backup file seals.
#[derive(Clone, Debug)]
pub struct BackupPayload {
    pub version: u32,
    pub platforms: Vec<BackupPlatform>,
    pub entries: Vec<BackupEntry>,
}

impl View for BackupPlatform {
    type V = PlatformFields;

    open spec fn view(&self) -> PlatformFields {
        (self.name@, self.color@, self.endpoint_openai@, self.endpoint_anthropic@)
    }
}

impl View for BackupEntry {
    type V = EntryFields;

    open spec fn view(&self) -> EntryFields {
        (self.platform@, self.name@, self.key@, self.copy_count, self.last_copied_at, self.created_at)
    }
}

/// The payload's platforms as the contracts see them.
pub open spec fn payload_platforms(p: BackupPayload) -> Seq<PlatformFields> {
    p.platforms@.map_values(|b: BackupPlatform| b@)
}

/// The payload's entries as the contracts see them.
pub open spec fn payload_entries(p: BackupPayload) -> Seq<EntryFields> {
    p.entries@.map_values(|b: BackupEntry| b@)
}

/// The error for a payload of another version.
pub open spec fn unsupported_version_message(version: u32) -> Seq<char> {
    "不支持的备份版本 v"@ + decimal(version as nat)
}

/// The payload of a backup of `db`: every platform and every entry with its
/// plaintext key, oldest first; fails when a stored key does not decrypt.
pub fn export_payload(db: &Db) -> (r: Result<BackupPayload, String>)
    requires
        db.wf(),
    ensures
        r is Ok <==> all_readable(db@),
        r matches Ok(p) ==> p.version == BACKUP_VERSION && payload_platforms(p).len() == db@.platforms.len()
            && dumps_platforms(db@, payload_platforms(p)),
        r matches Ok(p) ==> payload_entries(p).len() == db@.entries.len() && dumps_entries(db@, payload_entries(p)),
        r matches Err(e) ==> exists|i: int|
            0 <= i < db@.entries.len() && #[trigger] revealed_text(db@.master_key, db@.entries[i].key_encrypted)
                == Err::<Seq<char>, Seq<char>>(e@),
{
    let (platforms, entries) = db.dump_all()?;
    let mut ps: Vec<BackupPlatform> = Vec::new();
    let mut i: usize = 0;
    while i < platforms.len()
        invariant
            i <= platforms@.len(),
            ps@.len() == i,
            forall|k: int| 0 <= k < i ==> #[trigger] ps@[k]@ == platforms@[k]@,
        decreases platforms@.len() - i,
    {
        let t = &platforms[i];
        ps.push(BackupPlatform {
            name: t.0.clone(),
            color: t.1.clone(),
            endpoint_openai: t.2.clone(),
            endpoint_anthropic: t.3.clone(),
        });
        i += 1;
    }
    let mut es: Vec<BackupEntry> = Vec::new();
    let mut i: usize = 0;
    while i < entries.len()
        invariant
            i <= entries@.len(),
            es@.len() == i,
            forall|k: int| 0 <= k < i ==> #[trigger] es@[k]@ == entries@[k]@,
        decreases entries@.len() - i,
    {
        let t = &entries[i];
        es.push(BackupEntry {
            platform: t.0.clone(),
            name: t.1.clone(),
            key: t.2.clone(),
            copy_count: t.3,
            last_copied_at: t.4,
            created_at: t.5,
        });
        i += 1;
    }
    let payload = BackupPayload { version: BACKUP_VERSION, platforms: ps, entries: es };
    proof {
        assert(payload_platforms(payload) =~= platforms@.map_values(|t: PlatformTuple| t@));
        assert(payload_entries(payload) =~= entries@.map_values(|t: EntryTuple| t@));
    }
    Ok(payload)
}

/// The payload's platforms and entries as the tuples that a restore takes.
fn payload_tuples(payload: &BackupPayload) -> (r: (Vec<PlatformTuple>, Vec<EntryTuple>))
    ensures
        crate::db::platform_tuples(r.0@) == payload_platforms(*payload),
        crate::db::entry_tuples(r.1@) == payload_entries(*payload),
{
    let mut platforms: Vec<PlatformTuple> = Vec::new();
    let mut i: usize = 0;
    while i < payload.platforms.len()
        invariant
            i <= payload.platforms@.len(),
            platforms@.len() == i,
            forall|k: int| 0 <= k < i ==> #[trigger] platforms@[k]@ == payload.platforms@[k]@,
        decreases payload.platforms@.len() - i,
    {
        let b = &payload.platforms[i];
        platforms.push((b.name.clone(), b.color.clone(), b.endpoint_openai.clone(), b.endpoint_anthropic.clone()));
        i += 1;
    }
    let mut entries: Vec<EntryTuple> = Vec::new();
    let mut i: usize = 0;
    while i < payload.entries.len()
        invariant
            i <= payload.entries@.len(),
            entries@.len() == i,
            forall|k: int| 0 <= k < i ==> #[trigger] entries@[k]@ == payload.entries@[k]@,
        decreases payload.entries@.len() - i,
    {
        let b = &payload.entries[i];
        entries.push((b.platform.clone(), b.name.clone(), b.key.clone(), b.copy_count, b.last_copied_at, b.created_at));
        i += 1;
    }
    proof {
        assert(crate::db::platform_tuples(platforms@) =~= payload_platforms(*payload));
        assert(crate::db::entry_tuples(entries@) =~= payload_entries(*payload));
    }
    (platforms, entries)
}

/// The error for a payload of version `version`, when that is not the current one.
fn version_error(version: u32) -> (e: String)
    ensures
        e@ == unsupported_version_message(version),
{
    let mut msg = String::from_str("不支持的备份版本 v");
    let v = decimal_text(version);
    msg.append(v.as_str());
    msg
}

/// Restores a backup payload into `db`: refused when its version is not the
/// current one; otherwise platforms are merged by name and entries added.
pub fn import_payload(db: &mut Db, payload: &BackupPayload) -> (r: Result<usize, String>)
    requires
        old(db).wf(),
    ensures
        final(db).wf(),
        payload.version != BACKUP_VERSION ==> final(db)@ == old(db)@ && (r matches Err(e)
            && e@ == unsupported_version_message(payload.version)),
        payload.version == BACKUP_VERSION ==> restore_outcome(
            old(db)@,
            final(db)@,
            payload_platforms(*payload),
            payload_entries(*payload),
            count_result(r),
        ),
{
    if payload.version != BACKUP_VERSION {
        return Err(version_error(payload.version));
    }
    let (platforms, entries) = payload_tuples(payload);
    db.restore_all(platforms.as_slice(), entries.as_slice())
}

/// Restores a backup payload as `import_payload` does, with the given fresh
/// platform ids and times (one per backed-up platform) and entry ids, nonces and
/// times (one per backed-up entry).
pub fn import_payload_with(
    db: &mut Db,
    payload: &BackupPayload,
    pids: &[String],
    ptimes: &[i64],
    eids: &[String],
    nonces: &[[u8; NONCE_LEN]],
    etimes: &[i64],
) -> (r: Result<usize, String>)
    requires
        old(db).wf(),
        pids@.len() == payload.platforms@.len(),
        ptimes@.len() == payload.platforms@.len(),
        eids@.len() == payload.entries@.len(),
        nonces@.len() == payload.entries@.len(),
        etimes@.len() == payload.entries@.len(),
    ensures
        final(db).wf(),
        payload.version != BACKUP_VERSION ==> final(db)@ == old(db)@ && (r matches Err(e)
            && e@ == unsupported_version_message(payload.version)),
        payload.version == BACKUP_VERSION ==> final(db)@ == spec_restore(
            old(db)@,
            payload_platforms(*payload),
            payload_entries(*payload),
            text_views(pids@),
            ptimes@,
            text_views(eids@),
            nonce_views(nonces@),
            etimes@,
        ).0 && count_result(r) == spec_restore(
            old(db)@,
            payload_platforms(*payload),
            payload_entries(*payload),
            text_views(pids@),
            ptimes@,
            text_views(eids@),
            nonce_views(nonces@),
            etimes@,
        ).1,
        payload.version == BACKUP_VERSION ==> restore_outcome(
            old(db)@,
            final(db)@,
            payload_platforms(*payload),
            payload_entries(*payload),
            count_result(r),
        ),
{
    if payload.version != BACKUP_VERSION {
        return Err(version_error(payload.version));
    }
    let (platforms, entries) = payload_tuples(payload);
    db.restore_all_with(platforms.as_slice(), entries.as_slice(), pids, ptimes, eids, nonces, etimes)
}

} // verus!
