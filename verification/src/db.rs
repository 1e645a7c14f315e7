//! The vault: platforms and key entries, with the rules of the `platform` and
//! `key_entry` tables (unique names, foreign keys, cascading deletes, ordering by use).
//! Key values are kept only as AES-256-GCM blobs under the master key.

use vstd::prelude::*;
use vstd::string::*;
use vstd::utf8::*;

use crate::clock;
use crate::order::{is_permutation, rank_ge, rank_order, sorted_by_rank, stable_by_rank, Rank};
use crate::crypto::{self, aes256gcm_seal, decrypted, encrypts, seal_opens, KEY_LEN, NONCE_LEN, PLAINTEXT_MAX};
use crate::text::{self, mask_key, masked, normalized_endpoint, trim, trimmed, utf8_error_text};

verus! {

broadcast use {encode_utf8_valid_utf8, encode_utf8_decode_utf8};

/// A stored platform row.
#[derive(Clone, Debug)]
pub struct PlatformRecord {
    pub id: String,
    pub name: String,
    pub color: String,
    pub endpoint_openai: String,
    pub endpoint_anthropic: String,
    pub created_at: i64,
}

/// A stored key entry row; the key value only as its encrypted blob.
#[derive(Clone, Debug)]
pub struct EntryRecord {
    pub id: String,
    pub platform_id: String,
    pub name: String,
    pub key_encrypted: Vec<u8>,
    pub copy_count: i64,
    pub last_copied_at: Option<i64>,
    pub created_at: i64,
    pub updated_at: i64,
}

/// A platform row as the contracts see it.
#[verifier::ext_equal]
pub struct PlatformRow {
    pub id: Seq<char>,
    pub name: Seq<char>,
    pub color: Seq<char>,
    pub endpoint_openai: Seq<char>,
    pub endpoint_anthropic: Seq<char>,
    pub created_at: i64,
}

/// An entry row as the contracts see it.
#[verifier::ext_equal]
pub struct EntryRow {
    pub id: Seq<char>,
    pub platform_id: Seq<char>,
    pub name: Seq<char>,
    pub key_encrypted: Seq<u8>,
    pub copy_count: i64,
    pub last_copied_at: Option<i64>,
    pub created_at: i64,
    pub updated_at: i64,
}

impl View for PlatformRecord {
    type V = PlatformRow;

    open spec fn view(&self) -> PlatformRow {
        PlatformRow {
            id: self.id@,
            name: self.name@,
            color: self.color@,
            endpoint_openai: self.endpoint_openai@,
            endpoint_anthropic: self.endpoint_anthropic@,
            created_at: self.created_at,
        }
    }
}

impl View for EntryRecord {
    type V = EntryRow;

    open spec fn view(&self) -> EntryRow {
        EntryRow {
            id: self.id@,
            platform_id: self.platform_id@,
            name: self.name@,
            key_encrypted: self.key_encrypted@,
            copy_count: self.copy_count,
            last_copied_at: self.last_copied_at,
            created_at: self.created_at,
            updated_at: self.updated_at,
        }
    }
}

/// A platform as the front end shows it.
#[derive(Clone, Debug)]
pub struct PlatformDto {
    pub id: String,
    pub name: String,
    pub color: String,
    /// OpenAI-protocol endpoint; empty when not set.
    pub endpoint_openai: String,
    /// Anthropic-protocol endpoint; empty when not set.
    pub endpoint_anthropic: String,
    pub key_count: i64,
    pub last_copied_at: Option<i64>,
}

/// A key entry as the front end shows it: the key only in masked form.
#[derive(Clone, Debug)]
pub struct EntryDto {
    pub id: String,
    pub platform_id: String,
    pub name: String,
    pub masked_key: String,
    pub copy_count: i64,
    pub last_copied_at: Option<i64>,
    pub created_at: i64,
}

/// A listed platform as the contracts see it.
#[verifier::ext_equal]
pub struct PlatformInfo {
    pub id: Seq<char>,
    pub name: Seq<char>,
    pub color: Seq<char>,
    pub endpoint_openai: Seq<char>,
    pub endpoint_anthropic: Seq<char>,
    pub key_count: i64,
    pub last_copied_at: Option<i64>,
}

/// A listed entry as the contracts see it.
#[verifier::ext_equal]
pub struct EntryInfo {
    pub id: Seq<char>,
    pub platform_id: Seq<char>,
    pub name: Seq<char>,
    pub masked_key: Seq<char>,
    pub copy_count: i64,
    pub last_copied_at: Option<i64>,
    pub created_at: i64,
}

impl View for PlatformDto {
    type V = PlatformInfo;

    open spec fn view(&self) -> PlatformInfo {
        PlatformInfo {
            id: self.id@,
            name: self.name@,
            color: self.color@,
            endpoint_openai: self.endpoint_openai@,
            endpoint_anthropic: self.endpoint_anthropic@,
            key_count: self.key_count,
            last_copied_at: self.last_copied_at,
        }
    }
}

impl View for EntryDto {
    type V = EntryInfo;

    open spec fn view(&self) -> EntryInfo {
        EntryInfo {
            id: self.id@,
            platform_id: self.platform_id@,
            name: self.name@,
            masked_key: self.masked_key@,
            copy_count: self.copy_count,
            last_copied_at: self.last_copied_at,
            created_at: self.created_at,
        }
    }
}

/// The whole vault: both tables and the master key.
pub struct Db {
    platforms: Vec<PlatformRecord>,
    entries: Vec<EntryRecord>,
    master_key: [u8; KEY_LEN],
}

/// The vault as the contracts see it.
#[verifier::ext_equal]
pub struct DbState {
    pub platforms: Seq<PlatformRow>,
    pub entries: Seq<EntryRow>,
    pub master_key: Seq<u8>,
}

impl View for Db {
    type V = DbState;

    closed spec fn view(&self) -> DbState {
        DbState {
            platforms: self.platforms@.map_values(|p: PlatformRecord| p@),
            entries: self.entries@.map_values(|e: EntryRecord| e@),
            master_key: self.master_key@,
        }
    }
}

/// Some platform has id `id`.
pub open spec fn has_platform(ps: Seq<PlatformRow>, id: Seq<char>) -> bool {
    exists|k: int| 0 <= k < ps.len() && #[trigger] ps[k].id == id
}

/// The position of the platform with id `id`.
pub open spec fn platform_pos(ps: Seq<PlatformRow>, id: Seq<char>) -> int {
    choose|k: int| 0 <= k < ps.len() && #[trigger] ps[k].id == id
}

/// Some platform is named `name`.
pub open spec fn has_platform_named(ps: Seq<PlatformRow>, name: Seq<char>) -> bool {
    exists|k: int| 0 <= k < ps.len() && #[trigger] ps[k].name == name
}

/// Some entry has id `id`.
pub open spec fn has_entry(es: Seq<EntryRow>, id: Seq<char>) -> bool {
    exists|k: int| 0 <= k < es.len() && #[trigger] es[k].id == id
}

/// The position of the entry with id `id`.
pub open spec fn entry_pos(es: Seq<EntryRow>, id: Seq<char>) -> int {
    choose|k: int| 0 <= k < es.len() && #[trigger] es[k].id == id
}

/// The table rules: platform ids and names are unique, entry ids are unique,
/// and every entry belongs to an existing platform.
pub open spec fn well_formed(s: DbState) -> bool {
    &&& s.master_key.len() == KEY_LEN
    &&& forall|i: int, j: int|
        0 <= i < s.platforms.len() && 0 <= j < s.platforms.len() && i != j ==> #[trigger] s.platforms[i].id
            != #[trigger] s.platforms[j].id && s.platforms[i].name != s.platforms[j].name
    &&& forall|i: int, j: int|
        0 <= i < s.entries.len() && 0 <= j < s.entries.len() && i != j ==> #[trigger] s.entries[i].id
            != #[trigger] s.entries[j].id
    &&& forall|i: int| 0 <= i < s.entries.len() ==> has_platform(s.platforms, #[trigger] s.entries[i].platform_id)
}

/// The vault that stored rows describe.
pub open spec fn records_state(master_key: [u8; KEY_LEN], ps: Seq<PlatformRecord>, es: Seq<EntryRecord>) -> DbState {
    DbState {
        platforms: ps.map_values(|p: PlatformRecord| p@),
        entries: es.map_values(|e: EntryRecord| e@),
        master_key: master_key@,
    }
}

/// The error for stored rows that break the table rules.
pub open spec fn invalid_records_message() -> Seq<char> {
    "stored rows break the vault's table rules"@
}

/// The error when no entry has the requested id.
pub open spec fn no_rows_message() -> Seq<char> {
    "Query returned no rows"@
}

/// The key text that a stored blob holds.
pub open spec fn revealed_text(master: Seq<u8>, blob: Seq<u8>) -> Result<Seq<char>, Seq<char>> {
    match decrypted(master, blob) {
        Err(e) => Err(e),
        Ok(bytes) => if valid_utf8(bytes) {
            Ok(decode_utf8(bytes))
        } else {
            Err("utf8: "@ + utf8_error_text(bytes))
        },
    }
}

/// What revealing entry `id` gives.
pub open spec fn revealed(s: DbState, id: Seq<char>) -> Result<Seq<char>, Seq<char>> {
    if has_entry(s.entries, id) {
        revealed_text(s.master_key, s.entries[entry_pos(s.entries, id)].key_encrypted)
    } else {
        Err(no_rows_message())
    }
}

/// A text result as the contracts see it.
pub open spec fn text_result(r: Result<String, String>) -> Result<Seq<char>, Seq<char>> {
    match r {
        Ok(s) => Ok(s@),
        Err(e) => Err(e@),
    }
}

/// An entry result as the contracts see it.
pub open spec fn entry_result(r: Result<EntryDto, String>) -> Result<EntryInfo, Seq<char>> {
    match r {
        Ok(d) => Ok(d@),
        Err(e) => Err(e@),
    }
}

/// The error for an empty entry name.
pub open spec fn empty_name_message() -> Seq<char> {
    "名称不能为空"@
}

/// The error for an empty key value.
pub open spec fn empty_key_message() -> Seq<char> {
    "Key 值不能为空"@
}

/// The error for an entry that would refer to a missing platform.
pub open spec fn foreign_key_message() -> Seq<char> {
    "FOREIGN KEY constraint failed"@
}

/// The error for a new entry whose id is taken.
pub open spec fn duplicate_entry_message() -> Seq<char> {
    "UNIQUE constraint failed: key_entry.id"@
}

/// `s` with its entries replaced.
pub open spec fn with_entries(s: DbState, entries: Seq<EntryRow>) -> DbState {
    DbState { platforms: s.platforms, entries, master_key: s.master_key }
}

/// `s` with its platforms replaced.
pub open spec fn with_platforms(s: DbState, platforms: Seq<PlatformRow>) -> DbState {
    DbState { platforms, entries: s.entries, master_key: s.master_key }
}

/// Adding an entry with the fresh id `id`, time `now` and nonce `nonce`: the name and
/// key are trimmed and must not be empty; the key is stored encrypted.
pub open spec fn spec_add_entry(
    s: DbState,
    id: Seq<char>,
    now: i64,
    nonce: Seq<u8>,
    platform_id: Seq<char>,
    name: Seq<char>,
    key: Seq<char>,
) -> (DbState, Result<EntryInfo, Seq<char>>) {
    let n = trimmed(name);
    let k = trimmed(key);
    let plain = encode_utf8(k);
    if n.len() == 0 {
        (s, Err(empty_name_message()))
    } else if k.len() == 0 {
        (s, Err(empty_key_message()))
    } else if plain.len() > PLAINTEXT_MAX {
        (s, Err(crypto::encrypt_failed_message()))
    } else if has_entry(s.entries, id) {
        (s, Err(duplicate_entry_message()))
    } else if !has_platform(s.platforms, platform_id) {
        (s, Err(foreign_key_message()))
    } else {
        (
            with_entries(s, s.entries.push(EntryRow {
                id,
                platform_id,
                name: n,
                key_encrypted: nonce + aes256gcm_seal(s.master_key, nonce, plain),
                copy_count: 0,
                last_copied_at: None,
                created_at: now,
                updated_at: now,
            })),
            Ok(EntryInfo {
                id,
                platform_id,
                name: n,
                masked_key: masked(k),
                copy_count: 0,
                last_copied_at: None,
                created_at: now,
            }),
        )
    }
}

/// `after` is `before` with one new entry `dto`, whose stored blob encrypts the
/// trimmed key.
pub open spec fn entry_added(
    before: DbState,
    after: DbState,
    platform_id: Seq<char>,
    name: Seq<char>,
    key: Seq<char>,
    dto: EntryInfo,
) -> bool {
    let n = trimmed(name);
    let k = trimmed(key);
    &&& n.len() > 0
    &&& k.len() > 0
    &&& has_platform(before.platforms, platform_id)
    &&& !has_entry(before.entries, dto.id)
    &&& after.platforms == before.platforms
    &&& after.master_key == before.master_key
    &&& after.entries.len() == before.entries.len() + 1
    &&& after.entries.subrange(0, before.entries.len() as int) == before.entries
    &&& after.entries.last() == EntryRow {
        id: dto.id,
        platform_id,
        name: n,
        key_encrypted: after.entries.last().key_encrypted,
        copy_count: 0,
        last_copied_at: None,
        created_at: dto.created_at,
        updated_at: dto.created_at,
    }
    &&& encrypts(before.master_key, encode_utf8(k), after.entries.last().key_encrypted)
    &&& dto == EntryInfo {
        id: dto.id,
        platform_id,
        name: n,
        masked_key: masked(k),
        copy_count: 0,
        last_copied_at: None,
        created_at: dto.created_at,
    }
}

/// Copying entry `id` at time `now`: its use count grows by one (it stays at the
/// largest `i64`) and it is marked as last copied at `now`.
pub open spec fn spec_copy_entry(s: DbState, id: Seq<char>, now: i64) -> DbState {
    let k = entry_pos(s.entries, id);
    let e = s.entries[k];
    with_entries(s, s.entries.update(k, EntryRow {
        copy_count: if e.copy_count == i64::MAX { e.copy_count } else { (e.copy_count + 1) as i64 },
        last_copied_at: Some(now),
        ..e
    }))
}

/// Updating entry `id`: the trimmed name must not be empty; an existing entry gets
/// the name and platform (which must exist) and the time `t1`; then a non-empty
/// trimmed `key` replaces the stored key (encrypted with `nonce`) at time `t2`.
/// A missing entry is left as it is.
pub open spec fn spec_update_entry(
    s: DbState,
    id: Seq<char>,
    name: Seq<char>,
    platform_id: Seq<char>,
    key: Option<Seq<char>>,
    nonce: Seq<u8>,
    t1: i64,
    t2: i64,
) -> (DbState, Result<(), Seq<char>>) {
    let n = trimmed(name);
    let k = entry_pos(s.entries, id);
    if n.len() == 0 {
        (s, Err(empty_name_message()))
    } else if has_entry(s.entries, id) && !has_platform(s.platforms, platform_id) {
        (s, Err(foreign_key_message()))
    } else {
        let s1 = if has_entry(s.entries, id) {
            with_entries(s, s.entries.update(k, EntryRow {
                name: n,
                platform_id,
                updated_at: t1,
                ..s.entries[k]
            }))
        } else {
            s
        };
        match key {
            None => (s1, Ok(())),
            Some(kk) => {
                let plain = encode_utf8(trimmed(kk));
                if trimmed(kk).len() == 0 {
                    (s1, Ok(()))
                } else if plain.len() > PLAINTEXT_MAX {
                    (s1, Err(crypto::encrypt_failed_message()))
                } else if has_entry(s.entries, id) {
                    (
                        with_entries(s1, s1.entries.update(k, EntryRow {
                            key_encrypted: nonce + aes256gcm_seal(s.master_key, nonce, plain),
                            updated_at: t2,
                            ..s1.entries[k]
                        })),
                        Ok(()),
                    )
                } else {
                    (s1, Ok(()))
                }
            },
        }
    }
}

/// The key text an update leaves in entry `id`: the new trimmed key when one was
/// given and the entry exists, otherwise what was there.
pub open spec fn key_after_update(s: DbState, id: Seq<char>, key: Option<Seq<char>>) -> Result<Seq<char>, Seq<char>> {
    match key {
        Some(kk) => if trimmed(kk).len() > 0 && has_entry(s.entries, id) {
            Ok(trimmed(kk))
        } else {
            revealed(s, id)
        },
        None => revealed(s, id),
    }
}

/// An optional text as the contracts see it.
pub open spec fn str_option(k: Option<&str>) -> Option<Seq<char>> {
    match k {
        Some(t) => Some(t@),
        None => None,
    }
}

/// A result without value as the contracts see it.
pub open spec fn unit_result(r: Result<(), String>) -> Result<(), Seq<char>> {
    match r {
        Ok(()) => Ok(()),
        Err(e) => Err(e@),
    }
}

/// Removing entry `id`, if there is one.
pub open spec fn spec_delete_entry(s: DbState, id: Seq<char>) -> DbState {
    if has_entry(s.entries, id) {
        with_entries(s, s.entries.remove(entry_pos(s.entries, id)))
    } else {
        s
    }
}

/// Revealing a freshly added entry gives the trimmed key that was added.
pub proof fn law_reveal_after_add(
    before: DbState,
    after: DbState,
    platform_id: Seq<char>,
    name: Seq<char>,
    key: Seq<char>,
    dto: EntryInfo,
)
    requires
        well_formed(after),
        entry_added(before, after, platform_id, name, key, dto),
    ensures
        revealed(after, dto.id) == Ok::<Seq<char>, Seq<char>>(trimmed(key)),
{
    let last = after.entries.len() - 1;
    assert(after.entries[last].id == dto.id);
    let k = entry_pos(after.entries, dto.id);
    assert(k == last);
    crypto::lemma_decrypt_encrypted(after.master_key, encode_utf8(trimmed(key)), after.entries[last].key_encrypted);
}

/// A platform result as the contracts see it.
pub open spec fn platform_result(r: Result<PlatformDto, String>) -> Result<PlatformInfo, Seq<char>> {
    match r {
        Ok(d) => Ok(d@),
        Err(e) => Err(e@),
    }
}

/// The error for an empty platform name.
pub open spec fn empty_platform_name_message() -> Seq<char> {
    "平台名称不能为空"@
}

/// The error for a platform name (or id) that is taken.
pub open spec fn platform_exists_message() -> Seq<char> {
    "平台已存在"@
}

/// The error for a missing platform.
pub open spec fn no_platform_message() -> Seq<char> {
    "平台不存在"@
}

/// The preset colors of platform badges.
pub open spec fn palette(i: int) -> Seq<char> {
    if i == 0 {
        "blue"@
    } else if i == 1 {
        "purple"@
    } else if i == 2 {
        "pink"@
    } else if i == 3 {
        "red"@
    } else if i == 4 {
        "orange"@
    } else if i == 5 {
        "yellow"@
    } else if i == 6 {
        "green"@
    } else {
        "gray"@
    }
}

/// The number of preset colors.
pub const PALETTE_LEN: usize = 8;

/// `color` is one of the preset colors.
pub open spec fn in_palette(color: Seq<char>) -> bool {
    exists|i: int| 0 <= i < PALETTE_LEN && #[trigger] palette(i) == color
}

/// The sum of the code points of `s`.
pub open spec fn char_sum(s: Seq<char>) -> nat
    decreases s.len(),
{
    if s.len() == 0 {
        0
    } else {
        char_sum(s.drop_last()) + (s.last() as u32) as nat
    }
}

/// A platform's color: the requested one when it is a preset color, otherwise the
/// preset chosen by the sum of the name's code points.
pub open spec fn chosen_color(color: Seq<char>, name: Seq<char>) -> Seq<char> {
    if in_palette(color) {
        color
    } else {
        palette((char_sum(name) % (PALETTE_LEN as nat)) as int)
    }
}

/// Adding a platform with fresh id `id` at time `now`: the trimmed name must not be
/// empty, both endpoints must normalize, and neither the name nor the id may be taken.
pub open spec fn spec_add_platform(
    s: DbState,
    id: Seq<char>,
    now: i64,
    name: Seq<char>,
    color: Seq<char>,
    endpoint_openai: Seq<char>,
    endpoint_anthropic: Seq<char>,
) -> (DbState, Result<PlatformInfo, Seq<char>>) {
    let n = trimmed(name);
    if n.len() == 0 {
        (s, Err(empty_platform_name_message()))
    } else {
        match normalized_endpoint(endpoint_openai) {
            Err(e) => (s, Err(e)),
            Ok(o) => match normalized_endpoint(endpoint_anthropic) {
                Err(e) => (s, Err(e)),
                Ok(a) => {
                    let c = chosen_color(color, n);
                    if has_platform(s.platforms, id) || has_platform_named(s.platforms, n) {
                        (s, Err(platform_exists_message()))
                    } else {
                        (
                            with_platforms(s, s.platforms.push(PlatformRow {
                                id,
                                name: n,
                                color: c,
                                endpoint_openai: o,
                                endpoint_anthropic: a,
                                created_at: now,
                            })),
                            Ok(PlatformInfo {
                                id,
                                name: n,
                                color: c,
                                endpoint_openai: o,
                                endpoint_anthropic: a,
                                key_count: 0,
                                last_copied_at: None,
                            }),
                        )
                    }
                },
            },
        }
    }
}

/// Setting both endpoints of platform `id` (each normalized; empty clears it).
pub open spec fn spec_set_endpoints(s: DbState, id: Seq<char>, openai: Seq<char>, anthropic: Seq<char>) -> (DbState, Result<(), Seq<char>>) {
    match normalized_endpoint(openai) {
        Err(e) => (s, Err(e)),
        Ok(o) => match normalized_endpoint(anthropic) {
            Err(e) => (s, Err(e)),
            Ok(a) => if !has_platform(s.platforms, id) {
                (s, Err(no_platform_message()))
            } else {
                let k = platform_pos(s.platforms, id);
                (
                    with_platforms(s, s.platforms.update(k, PlatformRow {
                        endpoint_openai: o,
                        endpoint_anthropic: a,
                        ..s.platforms[k]
                    })),
                    Ok(()),
                )
            },
        },
    }
}

/// Renaming platform `id`: the trimmed name must not be empty nor another
/// platform's name; a missing platform is left as it is.
pub open spec fn spec_rename_platform(s: DbState, id: Seq<char>, name: Seq<char>) -> (DbState, Result<(), Seq<char>>) {
    let n = trimmed(name);
    let k = platform_pos(s.platforms, id);
    if n.len() == 0 {
        (s, Err(empty_platform_name_message()))
    } else if !has_platform(s.platforms, id) {
        (s, Ok(()))
    } else if has_platform_named(s.platforms, n) && s.platforms[k].name != n {
        (s, Err(platform_exists_message()))
    } else {
        (with_platforms(s, s.platforms.update(k, PlatformRow { name: n, ..s.platforms[k] })), Ok(()))
    }
}

/// The entries of `es` that do not belong to platform `platform_id`, in order.
pub open spec fn entries_outside(es: Seq<EntryRow>, platform_id: Seq<char>) -> Seq<EntryRow>
    decreases es.len(),
{
    if es.len() == 0 {
        es
    } else {
        let rest = entries_outside(es.drop_last(), platform_id);
        if es.last().platform_id == platform_id {
            rest
        } else {
            rest.push(es.last())
        }
    }
}

/// Deleting platform `id` deletes its entries too.
pub open spec fn spec_delete_platform(s: DbState, id: Seq<char>) -> DbState {
    DbState {
        platforms: if has_platform(s.platforms, id) {
            s.platforms.remove(platform_pos(s.platforms, id))
        } else {
            s.platforms
        },
        entries: entries_outside(s.entries, id),
        master_key: s.master_key,
    }
}

/// Every entry that survives a platform's deletion was there before, and
/// distinct ids stay distinct.
proof fn lemma_entries_outside(es: Seq<EntryRow>, platform_id: Seq<char>)
    requires
        forall|i: int, j: int|
            0 <= i < es.len() && 0 <= j < es.len() && i != j ==> #[trigger] es[i].id != #[trigger] es[j].id,
    ensures
        forall|i: int|
            0 <= i < entries_outside(es, platform_id).len() ==> exists|j: int|
                0 <= j < es.len() && es[j] == #[trigger] entries_outside(es, platform_id)[i],
        forall|i: int|
            0 <= i < entries_outside(es, platform_id).len() ==> #[trigger] entries_outside(es, platform_id)[i].platform_id != platform_id,
        forall|i: int, j: int|
            0 <= i < entries_outside(es, platform_id).len() && 0 <= j < entries_outside(es, platform_id).len() && i != j
                ==> #[trigger] entries_outside(es, platform_id)[i].id != #[trigger] entries_outside(es, platform_id)[j].id,
    decreases es.len(),
{
    if es.len() > 0 {
        let init = es.drop_last();
        assert forall|i: int, j: int|
            0 <= i < init.len() && 0 <= j < init.len() && i != j implies #[trigger] init[i].id != #[trigger] init[j].id by {
            assert(init[i] == es[i] && init[j] == es[j]);
        }
        lemma_entries_outside(init, platform_id);
        let rest = entries_outside(init, platform_id);
        let out = entries_outside(es, platform_id);
        assert forall|i: int| 0 <= i < out.len() implies exists|j: int| 0 <= j < es.len() && es[j] == #[trigger] out[i] by {
            if i < rest.len() {
                assert(out[i] == rest[i]);
                let j = choose|j: int| 0 <= j < init.len() && init[j] == rest[i];
                assert(es[j] == out[i]);
            } else {
                assert(es[es.len() - 1] == out[i]);
            }
        }
        assert forall|i: int, j: int|
            0 <= i < out.len() && 0 <= j < out.len() && i != j implies #[trigger] out[i].id != #[trigger] out[j].id by {
            if i < rest.len() && j < rest.len() {
                assert(out[i] == rest[i] && out[j] == rest[j]);
            } else if i < rest.len() {
                assert(out[i] == rest[i]);
                let a = choose|a: int| 0 <= a < init.len() && init[a] == rest[i];
                assert(es[a] == out[i]);
                assert(out[j] == es[es.len() - 1]);
            } else if j < rest.len() {
                assert(out[j] == rest[j]);
                let a = choose|a: int| 0 <= a < init.len() && init[a] == rest[j];
                assert(es[a] == out[j]);
                assert(out[i] == es[es.len() - 1]);
            }
        }
        assert forall|i: int| 0 <= i < out.len() implies #[trigger] out[i].platform_id != platform_id by {
            if i < rest.len() {
                assert(out[i] == rest[i]);
            }
        }
    }
}

/// How many entries belong to platform `platform_id`.
pub open spec fn count_of(es: Seq<EntryRow>, platform_id: Seq<char>) -> nat
    decreases es.len(),
{
    if es.len() == 0 {
        0
    } else {
        count_of(es.drop_last(), platform_id) + if es.last().platform_id == platform_id {
            1nat
        } else {
            0nat
        }
    }
}

/// The later of two optional times.
pub open spec fn later(a: Option<i64>, b: Option<i64>) -> Option<i64> {
    match (a, b) {
        (None, y) => y,
        (x, None) => x,
        (Some(x), Some(y)) => Some(if x >= y { x } else { y }),
    }
}

/// When an entry of platform `platform_id` was last copied, if ever.
pub open spec fn last_copied(es: Seq<EntryRow>, platform_id: Seq<char>) -> Option<i64>
    decreases es.len(),
{
    if es.len() == 0 {
        None
    } else {
        let rest = last_copied(es.drop_last(), platform_id);
        if es.last().platform_id == platform_id {
            later(rest, es.last().last_copied_at)
        } else {
            rest
        }
    }
}

/// The listing rank: rows copied at some time first, latest copy first, then the
/// newest rows first.
pub open spec fn use_rank(last_copied_at: Option<i64>, created_at: i64) -> Rank {
    match last_copied_at {
        Some(t) => (1i128, t as i128, created_at as i128),
        None => (0i128, 0i128, created_at as i128),
    }
}

/// How platform `p` is listed.
pub open spec fn platform_info(s: DbState, p: PlatformRow) -> PlatformInfo {
    PlatformInfo {
        id: p.id,
        name: p.name,
        color: p.color,
        endpoint_openai: p.endpoint_openai,
        endpoint_anthropic: p.endpoint_anthropic,
        key_count: count_of(s.entries, p.id) as i64,
        last_copied_at: last_copied(s.entries, p.id),
    }
}

/// The listing ranks of the platforms, by position.
pub open spec fn platform_ranks(s: DbState) -> Seq<Rank> {
    s.platforms.map_values(|p: PlatformRow| use_rank(last_copied(s.entries, p.id), p.created_at))
}

/// `out` lists every platform once, with its key count and last copy time,
/// most recently used first, then newest first; rows that tie keep table order.
pub open spec fn lists_platforms(s: DbState, out: Seq<PlatformInfo>) -> bool {
    exists|order: Seq<usize>|
        #![trigger is_permutation(order, s.platforms.len() as int)]
        is_permutation(order, s.platforms.len() as int)
            && sorted_by_rank(order, platform_ranks(s)) && stable_by_rank(order, platform_ranks(s)) && forall|k: int|
            0 <= k < out.len() ==> #[trigger] out[k] == platform_info(s, s.platforms[order[k] as int])
}

/// How entry `e` is listed when its key is `key`.
pub open spec fn entry_info(e: EntryRow, key: Seq<char>) -> EntryInfo {
    EntryInfo {
        id: e.id,
        platform_id: e.platform_id,
        name: e.name,
        masked_key: masked(key),
        copy_count: e.copy_count,
        last_copied_at: e.last_copied_at,
        created_at: e.created_at,
    }
}

/// The listing ranks of the entries, by position.
pub open spec fn entry_ranks(s: DbState) -> Seq<Rank> {
    s.entries.map_values(|e: EntryRow| use_rank(e.last_copied_at, e.created_at))
}

/// `out` lists every entry once, with its key masked, most recently copied first,
/// then newest first; rows that tie keep table order.
pub open spec fn lists_entries(s: DbState, out: Seq<EntryInfo>) -> bool {
    exists|order: Seq<usize>|
        #![trigger is_permutation(order, s.entries.len() as int)]
        is_permutation(order, s.entries.len() as int)
            && sorted_by_rank(order, entry_ranks(s)) && stable_by_rank(order, entry_ranks(s)) && forall|k: int|
            0 <= k < out.len() ==> #[trigger] out[k] == entry_info(
                s.entries[order[k] as int],
                revealed_text(s.master_key, s.entries[order[k] as int].key_encrypted)->Ok_0,
            )
}

/// Every stored key decrypts to text.
pub open spec fn all_readable(s: DbState) -> bool {
    forall|i: int| 0 <= i < s.entries.len() ==> #[trigger] revealed_text(s.master_key, s.entries[i].key_encrypted) is Ok
}

/// A platform as a backup carries it: name, color, and the two endpoints.
pub type PlatformTuple = (String, String, String, String);

/// An entry as a backup carries it: platform name, name, plaintext key, use count,
/// last copy time and creation time.
pub type EntryTuple = (String, String, String, i64, Option<i64>, i64);

/// A backed-up platform as the contracts see it.
pub type PlatformFields = (Seq<char>, Seq<char>, Seq<char>, Seq<char>);

/// A backed-up entry as the contracts see it.
pub type EntryFields = (Seq<char>, Seq<char>, Seq<char>, i64, Option<i64>, i64);

/// The rank that puts the oldest rows first.
pub open spec fn creation_rank(created_at: i64) -> Rank {
    (0i128, 0i128, (-(created_at as int)) as i128)
}

/// The oldest-first ranks of the platforms, by position.
pub open spec fn platform_creation_ranks(s: DbState) -> Seq<Rank> {
    s.platforms.map_values(|p: PlatformRow| creation_rank(p.created_at))
}

/// The oldest-first ranks of the entries, by position.
pub open spec fn entry_creation_ranks(s: DbState) -> Seq<Rank> {
    s.entries.map_values(|e: EntryRow| creation_rank(e.created_at))
}

/// The name of platform `platform_id`.
pub open spec fn platform_name(s: DbState, platform_id: Seq<char>) -> Seq<char> {
    s.platforms[platform_pos(s.platforms, platform_id)].name
}

/// How platform `p` is backed up.
pub open spec fn platform_fields(p: PlatformRow) -> PlatformFields {
    (p.name, p.color, p.endpoint_openai, p.endpoint_anthropic)
}

/// How entry `e` is backed up.
pub open spec fn entry_fields(s: DbState, e: EntryRow) -> EntryFields {
    (
        platform_name(s, e.platform_id),
        e.name,
        revealed_text(s.master_key, e.key_encrypted)->Ok_0,
        e.copy_count,
        e.last_copied_at,
        e.created_at,
    )
}

/// `out` holds every platform once, oldest first; rows that tie keep table order.
pub open spec fn dumps_platforms(s: DbState, out: Seq<PlatformFields>) -> bool {
    exists|order: Seq<usize>|
        #![trigger is_permutation(order, s.platforms.len() as int)]
        is_permutation(order, s.platforms.len() as int)
            && sorted_by_rank(order, platform_creation_ranks(s)) && stable_by_rank(order, platform_creation_ranks(s))
            && forall|k: int| 0 <= k < out.len() ==> #[trigger] out[k] == platform_fields(s.platforms[order[k] as int])
}

/// `out` holds every entry once, with its platform's name and plaintext key, oldest
/// first; rows that tie keep table order.
pub open spec fn dumps_entries(s: DbState, out: Seq<EntryFields>) -> bool {
    exists|order: Seq<usize>|
        #![trigger is_permutation(order, s.entries.len() as int)]
        is_permutation(order, s.entries.len() as int)
            && sorted_by_rank(order, entry_creation_ranks(s)) && stable_by_rank(order, entry_creation_ranks(s))
            && forall|k: int| 0 <= k < out.len() ==> #[trigger] out[k] == entry_fields(s, s.entries[order[k] as int])
}

/// The color a restored platform keeps: its own when it is a preset, else blue.
pub open spec fn restored_color(color: Seq<char>) -> Seq<char> {
    if in_palette(color) {
        color
    } else {
        "blue"@
    }
}

/// A restored endpoint: its normalized form, or unset when it does not normalize.
pub open spec fn endpoint_or_unset(url: Seq<char>) -> Seq<char> {
    match normalized_endpoint(url) {
        Ok(v) => v,
        Err(_) => Seq::empty(),
    }
}

/// Merging backed-up platforms into `ps`, with fresh ids `ids` and times `times`
/// (one per backed-up platform): a platform whose name (or fresh id) is taken is
/// skipped, the others are added.
pub open spec fn merge_platforms(
    ps: Seq<PlatformRow>,
    ts: Seq<PlatformFields>,
    ids: Seq<Seq<char>>,
    times: Seq<i64>,
) -> Seq<PlatformRow>
    decreases ts.len(),
{
    if ts.len() == 0 {
        ps
    } else {
        let prev = merge_platforms(ps, ts.drop_last(), ids.drop_last(), times.drop_last());
        let t = ts.last();
        if has_platform_named(prev, t.0) || has_platform(prev, ids.last()) {
            prev
        } else {
            prev.push(PlatformRow {
                id: ids.last(),
                name: t.0,
                color: restored_color(t.1),
                endpoint_openai: endpoint_or_unset(t.2),
                endpoint_anthropic: endpoint_or_unset(t.3),
                created_at: times.last(),
            })
        }
    }
}

/// The id of the platform named `name`.
pub open spec fn platform_id_named(ps: Seq<PlatformRow>, name: Seq<char>) -> Seq<char> {
    ps[choose|k: int| 0 <= k < ps.len() && #[trigger] ps[k].name == name].id
}

/// Adding backed-up entries to `es`, with fresh ids, nonces and times (one of each
/// per backed-up entry): an entry whose platform name is unknown is skipped; the
/// others are added under that platform with their key encrypted, until one fails.
/// Gives the rows and the number added (or the error).
pub open spec fn restore_entries(
    ps: Seq<PlatformRow>,
    es: Seq<EntryRow>,
    master: Seq<u8>,
    ts: Seq<EntryFields>,
    ids: Seq<Seq<char>>,
    nonces: Seq<Seq<u8>>,
    times: Seq<i64>,
) -> (Seq<EntryRow>, Result<nat, Seq<char>>)
    decreases ts.len(),
{
    if ts.len() == 0 {
        (es, Ok(0nat))
    } else {
        let prev = restore_entries(ps, es, master, ts.drop_last(), ids.drop_last(), nonces.drop_last(), times.drop_last());
        let t = ts.last();
        match prev.1 {
            Err(e) => prev,
            Ok(c) => if !has_platform_named(ps, t.0) {
                prev
            } else if encode_utf8(t.2).len() > PLAINTEXT_MAX {
                (prev.0, Err(crypto::encrypt_failed_message()))
            } else if has_entry(prev.0, ids.last()) {
                (prev.0, Err(duplicate_entry_message()))
            } else {
                (
                    prev.0.push(EntryRow {
                        id: ids.last(),
                        platform_id: platform_id_named(ps, t.0),
                        name: t.1,
                        key_encrypted: nonces.last() + aes256gcm_seal(master, nonces.last(), encode_utf8(t.2)),
                        copy_count: t.3,
                        last_copied_at: t.4,
                        created_at: t.5,
                        updated_at: times.last(),
                    }),
                    Ok(c + 1),
                )
            },
        }
    }
}

/// Texts as the contracts see them.
pub open spec fn text_views(ts: Seq<String>) -> Seq<Seq<char>> {
    ts.map_values(|t: String| t@)
}

/// Nonces as the contracts see them.
pub open spec fn nonce_views(ns: Seq<[u8; NONCE_LEN]>) -> Seq<Seq<u8>> {
    ns.map_values(|n: [u8; NONCE_LEN]| n@)
}

/// Backed-up platforms as the contracts see them.
pub open spec fn platform_tuples(ts: Seq<PlatformTuple>) -> Seq<PlatformFields> {
    ts.map_values(|t: PlatformTuple| t@)
}

/// Backed-up entries as the contracts see them.
pub open spec fn entry_tuples(ts: Seq<EntryTuple>) -> Seq<EntryFields> {
    ts.map_values(|t: EntryTuple| t@)
}

/// Once restoring the first `k` backed-up entries has failed, the rest changes nothing.
proof fn lemma_restore_error_stays(
    ps: Seq<PlatformRow>,
    es: Seq<EntryRow>,
    master: Seq<u8>,
    ts: Seq<EntryFields>,
    ids: Seq<Seq<char>>,
    nonces: Seq<Seq<u8>>,
    times: Seq<i64>,
    k: int,
)
    requires
        0 <= k <= ts.len(),
        ids.len() == ts.len(),
        nonces.len() == ts.len(),
        times.len() == ts.len(),
        restore_entries(ps, es, master, ts.subrange(0, k), ids.subrange(0, k), nonces.subrange(0, k), times.subrange(0, k)).1 is Err,
    ensures
        restore_entries(ps, es, master, ts, ids, nonces, times) == restore_entries(
            ps,
            es,
            master,
            ts.subrange(0, k),
            ids.subrange(0, k),
            nonces.subrange(0, k),
            times.subrange(0, k),
        ),
    decreases ts.len(),
{
    if k == ts.len() {
        assert(ts.subrange(0, k) =~= ts);
        assert(ids.subrange(0, k) =~= ids);
        assert(nonces.subrange(0, k) =~= nonces);
        assert(times.subrange(0, k) =~= times);
    } else {
        assert(ts.drop_last().subrange(0, k) =~= ts.subrange(0, k));
        assert(ids.drop_last().subrange(0, k) =~= ids.subrange(0, k));
        assert(nonces.drop_last().subrange(0, k) =~= nonces.subrange(0, k));
        assert(times.drop_last().subrange(0, k) =~= times.subrange(0, k));
        lemma_restore_error_stays(ps, es, master, ts.drop_last(), ids.drop_last(), nonces.drop_last(), times.drop_last(), k);
    }
}

/// Restoring a backup: platforms merged by name, then entries added.
pub open spec fn spec_restore(
    s: DbState,
    pts: Seq<PlatformFields>,
    ets: Seq<EntryFields>,
    pids: Seq<Seq<char>>,
    ptimes: Seq<i64>,
    eids: Seq<Seq<char>>,
    nonces: Seq<Seq<u8>>,
    etimes: Seq<i64>,
) -> (DbState, Result<nat, Seq<char>>) {
    let ps = merge_platforms(s.platforms, pts, pids, ptimes);
    let (es, r) = restore_entries(ps, s.entries, s.master_key, ets, eids, nonces, etimes);
    (DbState { platforms: ps, entries: es, master_key: s.master_key }, r)
}

/// `row` is the restored form of the backed-up entry `t`: same platform name, name,
/// use statistics and creation time, and its blob holds `t`'s key.
pub open spec fn restored_entry(s: DbState, row: EntryRow, t: EntryFields) -> bool {
    &&& row.platform_id == platform_id_named(s.platforms, t.0)
    &&& row.name == t.1
    &&& row.copy_count == t.3
    &&& row.last_copied_at == t.4
    &&& row.created_at == t.5
    &&& revealed_text(s.master_key, row.key_encrypted) == Ok::<Seq<char>, Seq<char>>(t.2)
}

/// A count result as the contracts see it.
pub open spec fn count_result(r: Result<usize, String>) -> Result<nat, Seq<char>> {
    match r {
        Ok(n) => Ok(n as nat),
        Err(e) => Err(e@),
    }
}

/// Merging a backup whose platform names are all present already adds no platform.
pub proof fn law_merge_known_names(ps: Seq<PlatformRow>, pts: Seq<PlatformFields>, ids: Seq<Seq<char>>, times: Seq<i64>)
    requires
        forall|j: int| 0 <= j < pts.len() ==> has_platform_named(ps, #[trigger] pts[j].0),
    ensures
        merge_platforms(ps, pts, ids, times) == ps,
    decreases pts.len(),
{
    if pts.len() > 0 {
        let init = pts.drop_last();
        assert forall|j: int| 0 <= j < init.len() implies has_platform_named(ps, #[trigger] init[j].0) by {
            assert(init[j] == pts[j]);
        }
        law_merge_known_names(ps, init, ids.drop_last(), times.drop_last());
        assert(has_platform_named(ps, pts[pts.len() - 1].0));
    }
}

/// Fresh ids `pids`, `eids`, times `ptimes`, `etimes` and nonces `nonces` under which
/// restoring `pts` and `ets` into `before` gives `after` and `r`; when it succeeds,
/// every key it sealed opens again.
pub open spec fn restore_witness(
    before: DbState,
    after: DbState,
    pts: Seq<PlatformFields>,
    ets: Seq<EntryFields>,
    r: Result<nat, Seq<char>>,
    pids: Seq<Seq<char>>,
    ptimes: Seq<i64>,
    eids: Seq<Seq<char>>,
    nonces: Seq<Seq<u8>>,
    etimes: Seq<i64>,
) -> bool {
    &&& pids.len() == pts.len()
    &&& ptimes.len() == pts.len()
    &&& eids.len() == ets.len()
    &&& nonces.len() == ets.len()
    &&& etimes.len() == ets.len()
    &&& forall|j: int| 0 <= j < nonces.len() ==> #[trigger] nonces[j].len() == NONCE_LEN
    &&& after == spec_restore(before, pts, ets, pids, ptimes, eids, nonces, etimes).0
    &&& r == spec_restore(before, pts, ets, pids, ptimes, eids, nonces, etimes).1
    &&& r is Ok ==> forall|j: int|
        0 <= j < ets.len() && has_platform_named(after.platforms, ets[j].0) ==> #[trigger] seal_opens(
            before.master_key,
            nonces[j],
            encode_utf8(ets[j].2),
        )
}

/// What restoring the backed-up platforms `pts` and entries `ets` into `before`
/// may give, whatever fresh ids, nonces and times the environment supplies: the
/// spec's result for some such values; the rows that were there stay; the count
/// is the number of entries added; every added entry is the restored form of a
/// backed-up one and holds its key.
pub open spec fn restore_outcome(
    before: DbState,
    after: DbState,
    pts: Seq<PlatformFields>,
    ets: Seq<EntryFields>,
    r: Result<nat, Seq<char>>,
) -> bool {
    &&& exists|pids: Seq<Seq<char>>, ptimes: Seq<i64>, eids: Seq<Seq<char>>, nonces: Seq<Seq<u8>>, etimes: Seq<i64>|
        #[trigger] restore_witness(before, after, pts, ets, r, pids, ptimes, eids, nonces, etimes)
    &&& after.platforms.len() >= before.platforms.len()
    &&& after.entries.len() >= before.entries.len()
    &&& after.platforms.subrange(0, before.platforms.len() as int) == before.platforms
    &&& after.entries.subrange(0, before.entries.len() as int) == before.entries
    &&& r matches Ok(n) ==> after.entries.len() == before.entries.len() + n
    &&& forall|i: int|
        before.entries.len() <= i < after.entries.len() ==> exists|j: int|
            0 <= j < ets.len() && restored_entry(after, #[trigger] after.entries[i], ets[j])
}

/// Restoring adds every backed-up entry when all their platform names are known.
proof fn lemma_restore_counts_all(
    ps: Seq<PlatformRow>,
    es: Seq<EntryRow>,
    master: Seq<u8>,
    ts: Seq<EntryFields>,
    ids: Seq<Seq<char>>,
    nonces: Seq<Seq<u8>>,
    times: Seq<i64>,
)
    requires
        forall|j: int| 0 <= j < ts.len() ==> has_platform_named(ps, #[trigger] ts[j].0),
        restore_entries(ps, es, master, ts, ids, nonces, times).1 is Ok,
    ensures
        restore_entries(ps, es, master, ts, ids, nonces, times).1 == Ok::<nat, Seq<char>>(ts.len()),
    decreases ts.len(),
{
    if ts.len() > 0 {
        let init = ts.drop_last();
        assert forall|j: int| 0 <= j < init.len() implies has_platform_named(ps, #[trigger] init[j].0) by {
            assert(init[j] == ts[j]);
        }
        assert(has_platform_named(ps, ts[ts.len() - 1].0));
        lemma_restore_counts_all(ps, es, master, init, ids.drop_last(), nonces.drop_last(), times.drop_last());
    }
}

/// A restore that succeeds, with every backed-up entry's platform present
/// afterwards, adds every backed-up entry.
pub proof fn law_restore_adds_every_entry(
    before: DbState,
    after: DbState,
    pts: Seq<PlatformFields>,
    ets: Seq<EntryFields>,
    r: Result<nat, Seq<char>>,
)
    requires
        restore_outcome(before, after, pts, ets, r),
        r is Ok,
        forall|j: int| 0 <= j < ets.len() ==> has_platform_named(after.platforms, #[trigger] ets[j].0),
    ensures
        r == Ok::<nat, Seq<char>>(ets.len()),
        after.entries.len() == before.entries.len() + ets.len(),
{
    let (pids, ptimes, eids, nonces, etimes) = choose|
        pids: Seq<Seq<char>>,
        ptimes: Seq<i64>,
        eids: Seq<Seq<char>>,
        nonces: Seq<Seq<u8>>,
        etimes: Seq<i64>,
    | #[trigger] restore_witness(before, after, pts, ets, r, pids, ptimes, eids, nonces, etimes);
    let ps = merge_platforms(before.platforms, pts, pids, ptimes);
    assert(after.platforms == ps);
    lemma_restore_counts_all(ps, before.entries, before.master_key, ets, eids, nonces, etimes);
}

/// An entry restored from a backup of vault `a` carries an entry of `a`: the same
/// name, use statistics, creation time and key, under a platform of the same name.
pub proof fn law_restored_entries_come_from_backup(
    a: DbState,
    ets: Seq<EntryFields>,
    before: DbState,
    after: DbState,
    pts: Seq<PlatformFields>,
    r: Result<nat, Seq<char>>,
    i: int,
)
    requires
        dumps_entries(a, ets),
        ets.len() == a.entries.len(),
        all_readable(a),
        restore_outcome(before, after, pts, ets, r),
        before.entries.len() <= i < after.entries.len(),
    ensures
        exists|k: int|
            #![trigger a.entries[k]]
            0 <= k < a.entries.len() && after.entries[i].name == a.entries[k].name
                && after.entries[i].copy_count == a.entries[k].copy_count
                && after.entries[i].last_copied_at == a.entries[k].last_copied_at
                && after.entries[i].created_at == a.entries[k].created_at
                && after.entries[i].platform_id == platform_id_named(after.platforms, platform_name(a, a.entries[k].platform_id))
                && revealed_text(after.master_key, after.entries[i].key_encrypted) == revealed_text(
                a.master_key,
                a.entries[k].key_encrypted,
            ),
{
    let j = choose|j: int| 0 <= j < ets.len() && restored_entry(after, #[trigger] after.entries[i], ets[j]);
    let order = choose|order: Seq<usize>|
        #![trigger is_permutation(order, a.entries.len() as int)]
        is_permutation(order, a.entries.len() as int) && sorted_by_rank(order, entry_creation_ranks(a)) && forall|q: int|
            0 <= q < ets.len() ==> #[trigger] ets[q] == entry_fields(a, a.entries[order[q] as int]);
    let k = order[j] as int;
    assert(ets[j] == entry_fields(a, a.entries[k]));
    assert(revealed_text(a.master_key, a.entries[k].key_encrypted) is Ok);
}

/// The platform row that merging adds for the backed-up platform `t`.
pub open spec fn merged_row(t: PlatformFields, id: Seq<char>, time: i64) -> PlatformRow {
    PlatformRow {
        id,
        name: t.0,
        color: restored_color(t.1),
        endpoint_openai: endpoint_or_unset(t.2),
        endpoint_anthropic: endpoint_or_unset(t.3),
        created_at: time,
    }
}

/// Merging never adds more than one row per backed-up platform; when it adds one
/// for each, they follow the existing rows in backup order.
proof fn lemma_merge_adds_all(ps: Seq<PlatformRow>, ts: Seq<PlatformFields>, ids: Seq<Seq<char>>, times: Seq<i64>)
    requires
        ids.len() == ts.len(),
        times.len() == ts.len(),
    ensures
        merge_platforms(ps, ts, ids, times).len() <= ps.len() + ts.len(),
        merge_platforms(ps, ts, ids, times).len() == ps.len() + ts.len() ==> forall|i: int|
            0 <= i < ts.len() ==> #[trigger] merge_platforms(ps, ts, ids, times)[ps.len() + i] == merged_row(
                ts[i],
                ids[i],
                times[i],
            ),
    decreases ts.len(),
{
    if ts.len() > 0 {
        let (ti, ii, mi) = (ts.drop_last(), ids.drop_last(), times.drop_last());
        lemma_merge_adds_all(ps, ti, ii, mi);
        let prev = merge_platforms(ps, ti, ii, mi);
        let out = merge_platforms(ps, ts, ids, times);
        if out.len() == ps.len() + ts.len() {
            assert(out.len() == prev.len() + 1);
            assert forall|i: int| 0 <= i < ts.len() implies #[trigger] out[ps.len() + i] == merged_row(ts[i], ids[i], times[i]) by {
                if i < ts.len() - 1 {
                    assert(out[ps.len() + i] == prev[ps.len() + i]);
                    assert(ti[i] == ts[i] && ii[i] == ids[i] && mi[i] == times[i]);
                }
            }
        }
    }
}

/// The entry row that restoring adds for the backed-up entry `t`.
pub open spec fn restored_row(
    ps: Seq<PlatformRow>,
    master: Seq<u8>,
    t: EntryFields,
    id: Seq<char>,
    nonce: Seq<u8>,
    time: i64,
) -> EntryRow {
    EntryRow {
        id,
        platform_id: platform_id_named(ps, t.0),
        name: t.1,
        key_encrypted: nonce + aes256gcm_seal(master, nonce, encode_utf8(t.2)),
        copy_count: t.3,
        last_copied_at: t.4,
        created_at: t.5,
        updated_at: time,
    }
}

/// A restore that succeeds with every platform name known adds one row per
/// backed-up entry, in backup order, after the existing rows.
proof fn lemma_restore_adds_all(
    ps: Seq<PlatformRow>,
    es: Seq<EntryRow>,
    master: Seq<u8>,
    ts: Seq<EntryFields>,
    ids: Seq<Seq<char>>,
    nonces: Seq<Seq<u8>>,
    times: Seq<i64>,
)
    requires
        ids.len() == ts.len(),
        nonces.len() == ts.len(),
        times.len() == ts.len(),
        forall|j: int| 0 <= j < ts.len() ==> has_platform_named(ps, #[trigger] ts[j].0),
        restore_entries(ps, es, master, ts, ids, nonces, times).1 is Ok,
    ensures
        restore_entries(ps, es, master, ts, ids, nonces, times).0.len() == es.len() + ts.len(),
        forall|i: int| 0 <= i < es.len() ==> #[trigger] restore_entries(ps, es, master, ts, ids, nonces, times).0[i] == es[i],
        forall|i: int|
            0 <= i < ts.len() ==> #[trigger] restore_entries(ps, es, master, ts, ids, nonces, times).0[es.len() + i]
                == restored_row(ps, master, ts[i], ids[i], nonces[i], times[i]),
    decreases ts.len(),
{
    if ts.len() > 0 {
        let (ti, ii, ni, mi) = (ts.drop_last(), ids.drop_last(), nonces.drop_last(), times.drop_last());
        assert forall|j: int| 0 <= j < ti.len() implies has_platform_named(ps, #[trigger] ti[j].0) by {
            assert(ti[j] == ts[j]);
        }
        assert(has_platform_named(ps, ts[ts.len() - 1].0));
        lemma_restore_adds_all(ps, es, master, ti, ii, ni, mi);
        let prev = restore_entries(ps, es, master, ti, ii, ni, mi).0;
        let out = restore_entries(ps, es, master, ts, ids, nonces, times).0;
        assert forall|i: int| 0 <= i < ts.len() implies #[trigger] out[es.len() + i] == restored_row(
            ps,
            master,
            ts[i],
            ids[i],
            nonces[i],
            times[i],
        ) by {
            if i < ts.len() - 1 {
                assert(out[es.len() + i] == prev[es.len() + i]);
                assert(ti[i] == ts[i] && ii[i] == ids[i] && ni[i] == nonces[i] && mi[i] == times[i]);
            }
        }
        assert forall|i: int| 0 <= i < es.len() implies #[trigger] out[i] == es[i] by {
            assert(out[i] == prev[i]);
        }
    }
}

/// The platform found by the name `name` has that name.
proof fn lemma_name_of_named(s: DbState, name: Seq<char>)
    requires
        well_formed(s),
        has_platform_named(s.platforms, name),
    ensures
        has_platform(s.platforms, platform_id_named(s.platforms, name)),
        platform_name(s, platform_id_named(s.platforms, name)) == name,
{
    let ps = s.platforms;
    let k = choose|k: int| 0 <= k < ps.len() && #[trigger] ps[k].name == name;
    let id = ps[k].id;
    assert(has_platform(ps, id));
    let k2 = platform_pos(ps, id);
    if k2 != k {
        assert(ps[k2].id != ps[k].id);
    }
}

/// `x` holds the items of `y`, each as often as `y` does, in some order.
pub open spec fn same_items<T>(x: Seq<T>, y: Seq<T>) -> bool {
    exists|order: Seq<usize>|
        #![trigger is_permutation(order, y.len() as int)]
        x.len() == y.len() && is_permutation(order, y.len() as int) && forall|k: int|
            0 <= k < x.len() ==> #[trigger] x[k] == y[order[k] as int]
}

/// Platform `p` keeps its fields through a restore: its color is a preset color
/// and its endpoints are in normal form.
pub open spec fn restorable_row(p: PlatformRow) -> bool {
    &&& in_palette(p.color)
    &&& normalized_endpoint(p.endpoint_openai) == Ok::<Seq<char>, Seq<char>>(p.endpoint_openai)
    &&& normalized_endpoint(p.endpoint_anthropic) == Ok::<Seq<char>, Seq<char>>(p.endpoint_anthropic)
}

/// Every platform row keeps its fields through a restore.
pub open spec fn restorable_rows(ps: Seq<PlatformRow>) -> bool {
    forall|i: int| 0 <= i < ps.len() ==> restorable_row(#[trigger] ps[i])
}

/// Every platform of `s` keeps its fields through a restore (as every platform
/// that the vault's operations make does).
pub open spec fn restorable_platforms(s: DbState) -> bool {
    restorable_rows(s.platforms)
}

/// A normalized endpoint, or an unset one, is in normal form.
proof fn lemma_endpoint_in_normal_form(url: Seq<char>)
    ensures
        normalized_endpoint(endpoint_or_unset(url)) == Ok::<Seq<char>, Seq<char>>(endpoint_or_unset(url)),
{
    text::law_normalized_endpoint_stable(url);
    text::lemma_trimmed_unchanged(Seq::<char>::empty());
}

/// The color a platform is given is a preset color.
proof fn lemma_chosen_color_in_palette(color: Seq<char>, name: Seq<char>)
    ensures
        in_palette(chosen_color(color, name)),
{
    if !in_palette(color) {
        let i = (char_sum(name) % (PALETTE_LEN as nat)) as int;
        assert(palette(i) == chosen_color(color, name));
    }
}

/// Adding, re-pointing, renaming and deleting platforms keep every platform in a
/// form that a restore gives back unchanged.
pub proof fn law_platform_changes_keep_restorable(
    s: DbState,
    pid: Seq<char>,
    now: i64,
    name: Seq<char>,
    color: Seq<char>,
    openai: Seq<char>,
    anthropic: Seq<char>,
)
    requires
        restorable_platforms(s),
    ensures
        restorable_platforms(spec_add_platform(s, pid, now, name, color, openai, anthropic).0),
        restorable_platforms(spec_set_endpoints(s, pid, openai, anthropic).0),
        restorable_platforms(spec_rename_platform(s, pid, name).0),
        restorable_platforms(spec_delete_platform(s, pid)),
{
    text::law_normalized_endpoint_stable(openai);
    text::law_normalized_endpoint_stable(anthropic);
    lemma_chosen_color_in_palette(color, trimmed(name));
    let added = spec_add_platform(s, pid, now, name, color, openai, anthropic).0;
    assert forall|i: int| 0 <= i < added.platforms.len() implies restorable_row(#[trigger] added.platforms[i]) by {
        if i < s.platforms.len() {
            assert(added.platforms[i] == s.platforms[i]);
        }
    }
    let set = spec_set_endpoints(s, pid, openai, anthropic).0;
    assert forall|i: int| 0 <= i < set.platforms.len() implies restorable_row(#[trigger] set.platforms[i]) by {
        assert(restorable_row(s.platforms[i]));
    }
    let renamed = spec_rename_platform(s, pid, name).0;
    assert forall|i: int| 0 <= i < renamed.platforms.len() implies restorable_row(#[trigger] renamed.platforms[i]) by {
        assert(restorable_row(s.platforms[i]));
    }
    let deleted = spec_delete_platform(s, pid);
    assert forall|i: int| 0 <= i < deleted.platforms.len() implies restorable_row(#[trigger] deleted.platforms[i]) by {
        if has_platform(s.platforms, pid) && i >= platform_pos(s.platforms, pid) {
            assert(deleted.platforms[i] == s.platforms[i + 1]);
        } else {
            assert(deleted.platforms[i] == s.platforms[i]);
        }
    }
}

/// Merging backed-up platforms adds only rows in normal form.
proof fn lemma_merge_restorable(ps: Seq<PlatformRow>, ts: Seq<PlatformFields>, ids: Seq<Seq<char>>, times: Seq<i64>)
    requires
        restorable_rows(ps),
    ensures
        restorable_rows(merge_platforms(ps, ts, ids, times)),
    decreases ts.len(),
{
    if ts.len() > 0 {
        lemma_merge_restorable(ps, ts.drop_last(), ids.drop_last(), times.drop_last());
        let prev = merge_platforms(ps, ts.drop_last(), ids.drop_last(), times.drop_last());
        let out = merge_platforms(ps, ts, ids, times);
        let t = ts.last();
        lemma_endpoint_in_normal_form(t.2);
        lemma_endpoint_in_normal_form(t.3);
        assert(palette(0) == restored_color(t.1) || in_palette(t.1));
        assert forall|i: int| 0 <= i < out.len() implies restorable_row(#[trigger] out[i]) by {
            if i < prev.len() {
                assert(out[i] == prev[i]);
            }
        }
    }
}

/// A restore keeps every platform in a form that a restore gives back unchanged.
pub proof fn law_restore_keeps_restorable(
    before: DbState,
    after: DbState,
    pts: Seq<PlatformFields>,
    ets: Seq<EntryFields>,
    r: Result<nat, Seq<char>>,
)
    requires
        restorable_platforms(before),
        restore_outcome(before, after, pts, ets, r),
    ensures
        restorable_platforms(after),
{
    let (pids, ptimes, eids, nonces, etimes) = choose|
        pids: Seq<Seq<char>>,
        ptimes: Seq<i64>,
        eids: Seq<Seq<char>>,
        nonces: Seq<Seq<u8>>,
        etimes: Seq<i64>,
    | #[trigger] restore_witness(before, after, pts, ets, r, pids, ptimes, eids, nonces, etimes);
    lemma_merge_restorable(before.platforms, pts, pids, ptimes);
}

/// Dumping vault `a` and restoring the dump into an empty vault restores every
/// dumped entry, and a dump of the result holds the same platforms and the same
/// entries as the first dump, each as often. This holds for a vault whose platforms
/// a restore gives back unchanged, when the restore succeeds and none of its fresh
/// platform ids collided (every dumped platform was added).
pub proof fn law_dump_then_restore(
    a: DbState,
    pts: Seq<PlatformFields>,
    ets: Seq<EntryFields>,
    before: DbState,
    after: DbState,
    r: Result<nat, Seq<char>>,
)
    requires
        well_formed(a),
        restorable_platforms(a),
        pts.len() == a.platforms.len(),
        dumps_platforms(a, pts),
        ets.len() == a.entries.len(),
        dumps_entries(a, ets),
        well_formed(before),
        before.platforms.len() == 0,
        before.entries.len() == 0,
        well_formed(after),
        restore_outcome(before, after, pts, ets, r),
        r is Ok,
        after.platforms.len() == pts.len(),
    ensures
        r == Ok::<nat, Seq<char>>(ets.len()),
        after.entries.len() == ets.len(),
        forall|pts2: Seq<PlatformFields>|
            pts2.len() == after.platforms.len() && #[trigger] dumps_platforms(after, pts2) ==> same_items(pts2, pts),
        forall|ets2: Seq<EntryFields>|
            ets2.len() == after.entries.len() && #[trigger] dumps_entries(after, ets2) ==> same_items(ets2, ets),
{
    let (pids, ptimes, eids, nonces, etimes) = choose|
        pids: Seq<Seq<char>>,
        ptimes: Seq<i64>,
        eids: Seq<Seq<char>>,
        nonces: Seq<Seq<u8>>,
        etimes: Seq<i64>,
    | #[trigger] restore_witness(before, after, pts, ets, r, pids, ptimes, eids, nonces, etimes);
    let ps = after.platforms;
    assert(ps == merge_platforms(before.platforms, pts, pids, ptimes));
    lemma_merge_adds_all(before.platforms, pts, pids, ptimes);
    let op = choose|order: Seq<usize>|
        #![trigger is_permutation(order, a.platforms.len() as int)]
        is_permutation(order, a.platforms.len() as int) && sorted_by_rank(order, platform_creation_ranks(a))
            && forall|k: int| 0 <= k < pts.len() ==> #[trigger] pts[k] == platform_fields(a.platforms[order[k] as int]);
    let oe = choose|order: Seq<usize>|
        #![trigger is_permutation(order, a.entries.len() as int)]
        is_permutation(order, a.entries.len() as int) && sorted_by_rank(order, entry_creation_ranks(a))
            && forall|k: int| 0 <= k < ets.len() ==> #[trigger] ets[k] == entry_fields(a, a.entries[order[k] as int]);
    // each restored platform carries the fields it was dumped with
    assert forall|i: int| 0 <= i < ps.len() implies #[trigger] platform_fields(ps[i]) == pts[i] by {
        assert(ps[0 + i] == merged_row(pts[i], pids[i], ptimes[i]));
        let p = a.platforms[op[i] as int];
        assert(pts[i] == platform_fields(p));
        assert(in_palette(p.color));
    }
    // every dumped entry names a restored platform
    assert forall|j: int| 0 <= j < ets.len() implies has_platform_named(ps, #[trigger] ets[j].0) by {
        let e = a.entries[oe[j] as int];
        assert(ets[j] == entry_fields(a, e));
        assert(has_platform(a.platforms, e.platform_id));
        let m = platform_pos(a.platforms, e.platform_id);
        crate::order::lemma_permutation_covers(op, a.platforms.len() as int, m);
        let k = choose|k: int| 0 <= k < a.platforms.len() && #[trigger] op[k] == m;
        assert(pts[k] == platform_fields(a.platforms[m]));
        assert(platform_fields(ps[k]) == pts[k]);
        assert(ps[k].name == ets[j].0);
    }
    let m = before.master_key;
    assert(restore_entries(ps, before.entries, m, ets, eids, nonces, etimes).1 == r);
    lemma_restore_counts_all(ps, before.entries, m, ets, eids, nonces, etimes);
    lemma_restore_adds_all(ps, before.entries, m, ets, eids, nonces, etimes);
    assert(after.entries == restore_entries(ps, before.entries, m, ets, eids, nonces, etimes).0);
    // each restored entry carries the fields it was dumped with
    assert forall|i: int| 0 <= i < after.entries.len() implies #[trigger] entry_fields(after, after.entries[i]) == ets[i] by {
        let row = after.entries[i];
        assert(after.entries[0 + i] == restored_row(ps, m, ets[i], eids[i], nonces[i], etimes[i]));
        assert(has_platform_named(ps, ets[i].0));
        lemma_name_of_named(after, ets[i].0);
        let plain = encode_utf8(ets[i].2);
        assert(seal_opens(m, nonces[i], plain));
        let blob = row.key_encrypted;
        assert(nonces[i].len() == NONCE_LEN);
        assert(blob.subrange(0, NONCE_LEN as int) =~= nonces[i]);
        assert(blob.subrange(NONCE_LEN as int, blob.len() as int) =~= aes256gcm_seal(m, nonces[i], plain));
        assert(decrypted(after.master_key, blob) == Ok::<Seq<u8>, Seq<char>>(plain));
        assert(revealed_text(after.master_key, blob) == Ok::<Seq<char>, Seq<char>>(ets[i].2));
    }
    assert forall|pts2: Seq<PlatformFields>|
        pts2.len() == after.platforms.len() && #[trigger] dumps_platforms(after, pts2) implies same_items(pts2, pts) by {
        let o2 = choose|order: Seq<usize>|
            #![trigger is_permutation(order, after.platforms.len() as int)]
            is_permutation(order, after.platforms.len() as int) && sorted_by_rank(order, platform_creation_ranks(after))
                && forall|k: int| 0 <= k < pts2.len() ==> #[trigger] pts2[k] == platform_fields(after.platforms[order[k] as int]);
        assert(is_permutation(o2, pts.len() as int));
        assert forall|k: int| 0 <= k < pts2.len() implies #[trigger] pts2[k] == pts[o2[k] as int] by {
            assert(platform_fields(ps[o2[k] as int]) == pts[o2[k] as int]);
        }
    }
    assert forall|ets2: Seq<EntryFields>|
        ets2.len() == after.entries.len() && #[trigger] dumps_entries(after, ets2) implies same_items(ets2, ets) by {
        let o2 = choose|order: Seq<usize>|
            #![trigger is_permutation(order, after.entries.len() as int)]
            is_permutation(order, after.entries.len() as int) && sorted_by_rank(order, entry_creation_ranks(after))
                && forall|k: int| 0 <= k < ets2.len() ==> #[trigger] ets2[k] == entry_fields(after, after.entries[order[k] as int]);
        assert(is_permutation(o2, ets.len() as int));
        assert forall|k: int| 0 <= k < ets2.len() implies #[trigger] ets2[k] == ets[o2[k] as int] by {
            assert(entry_fields(after, after.entries[o2[k] as int]) == ets[o2[k] as int]);
        }
    }
}

/// Entry `id` is in both vaults, under the same master key, with the same stored key.
pub open spec fn key_kept(before: DbState, after: DbState, id: Seq<char>) -> bool {
    &&& has_entry(before.entries, id)
    &&& has_entry(after.entries, id)
    &&& after.master_key == before.master_key
    &&& after.entries[entry_pos(after.entries, id)].key_encrypted == before.entries[entry_pos(
        before.entries,
        id,
    )].key_encrypted
}

/// Where entry `id` keeps its stored key, revealing it gives what it gave before.
pub proof fn law_reveal_when_key_kept(before: DbState, after: DbState, id: Seq<char>)
    requires
        key_kept(before, after, id),
    ensures
        revealed(after, id) == revealed(before, id),
{
}

/// After an entry is added, every state reached by steps that each keep its key
/// (see the laws below on which calls do) reveals the trimmed key it was added with.
pub proof fn law_reveal_after_steps(
    before: DbState,
    states: Seq<DbState>,
    platform_id: Seq<char>,
    name: Seq<char>,
    key: Seq<char>,
    dto: EntryInfo,
)
    requires
        states.len() > 0,
        well_formed(states[0]),
        entry_added(before, states[0], platform_id, name, key, dto),
        forall|i: int| 0 <= i < states.len() - 1 ==> key_kept(#[trigger] states[i], states[i + 1], dto.id),
    ensures
        forall|i: int| 0 <= i < states.len() ==> revealed(#[trigger] states[i], dto.id) == Ok::<Seq<char>, Seq<char>>(trimmed(key)),
    decreases states.len(),
{
    if states.len() == 1 {
        law_reveal_after_add(before, states[0], platform_id, name, key, dto);
    } else {
        let init = states.drop_last();
        assert forall|i: int| 0 <= i < init.len() - 1 implies key_kept(#[trigger] init[i], init[i + 1], dto.id) by {
            assert(init[i] == states[i] && init[i + 1] == states[i + 1]);
        }
        law_reveal_after_steps(before, init, platform_id, name, key, dto);
        let last = states.len() - 1;
        assert(init[last - 1] == states[last - 1]);
        assert(key_kept(states[last - 1], states[last], dto.id));
        assert forall|i: int| 0 <= i < states.len() implies revealed(#[trigger] states[i], dto.id) == Ok::<Seq<char>, Seq<char>>(
            trimmed(key),
        ) by {
            if i < last {
                assert(init[i] == states[i]);
            }
        }
    }
}

/// A key kept through one change and then through another is kept through both.
pub proof fn law_key_kept_chains(a: DbState, b: DbState, c: DbState, id: Seq<char>)
    requires
        key_kept(a, b, id),
        key_kept(b, c, id),
    ensures
        key_kept(a, c, id),
{
}

/// In a vault whose entry ids are unique, the entry at `k` is the one found by its id.
proof fn lemma_entry_at(s: DbState, k: int)
    requires
        well_formed(s),
        0 <= k < s.entries.len(),
    ensures
        has_entry(s.entries, s.entries[k].id),
        entry_pos(s.entries, s.entries[k].id) == k,
{
    let id = s.entries[k].id;
    assert(has_entry(s.entries, id));
    let p = entry_pos(s.entries, id);
    if p != k {
        assert(s.entries[p].id != s.entries[k].id);
    }
}

/// When `after` holds, at `k2`, a row with id `id` and the key that `before` stored
/// for `id`, the key of `id` is kept.
proof fn lemma_kept_at(before: DbState, after: DbState, id: Seq<char>, k2: int)
    requires
        well_formed(before),
        well_formed(after),
        has_entry(before.entries, id),
        after.master_key == before.master_key,
        0 <= k2 < after.entries.len(),
        after.entries[k2].id == id,
        after.entries[k2].key_encrypted == before.entries[entry_pos(before.entries, id)].key_encrypted,
    ensures
        key_kept(before, after, id),
{
    lemma_entry_at(after, k2);
}

/// Adding an entry keeps the key of every entry that was there.
pub proof fn law_add_entry_keeps_keys(
    s: DbState,
    nid: Seq<char>,
    now: i64,
    nonce: Seq<u8>,
    platform_id: Seq<char>,
    name: Seq<char>,
    key: Seq<char>,
    id: Seq<char>,
)
    requires
        well_formed(s),
        well_formed(spec_add_entry(s, nid, now, nonce, platform_id, name, key).0),
        has_entry(s.entries, id),
    ensures
        key_kept(s, spec_add_entry(s, nid, now, nonce, platform_id, name, key).0, id),
{
    let after = spec_add_entry(s, nid, now, nonce, platform_id, name, key).0;
    let k = entry_pos(s.entries, id);
    assert(after.entries[k] == s.entries[k]);
    lemma_kept_at(s, after, id, k);
}

/// Copying an entry keeps the key of every entry.
pub proof fn law_copy_entry_keeps_keys(s: DbState, copied: Seq<char>, now: i64, id: Seq<char>)
    requires
        well_formed(s),
        has_entry(s.entries, copied),
        has_entry(s.entries, id),
    ensures
        key_kept(s, spec_copy_entry(s, copied, now), id),
{
    law_copy_keeps_key(s, copied, now);
    let after = spec_copy_entry(s, copied, now);
    let k = entry_pos(s.entries, id);
    assert(after.entries[k].id == id);
    assert(after.entries[k].key_encrypted == s.entries[k].key_encrypted);
    lemma_kept_at(s, after, id, k);
}

/// Deleting another entry keeps the key of entry `id`.
pub proof fn law_delete_entry_keeps_other_keys(s: DbState, deleted: Seq<char>, id: Seq<char>)
    requires
        well_formed(s),
        well_formed(spec_delete_entry(s, deleted)),
        has_entry(s.entries, id),
        deleted != id,
    ensures
        key_kept(s, spec_delete_entry(s, deleted), id),
{
    let after = spec_delete_entry(s, deleted);
    let k = entry_pos(s.entries, id);
    if has_entry(s.entries, deleted) {
        let d = entry_pos(s.entries, deleted);
        assert(d != k);
        if k < d {
            assert(after.entries[k] == s.entries[k]);
            lemma_kept_at(s, after, id, k);
        } else {
            assert(after.entries[k - 1] == s.entries[k]);
            lemma_kept_at(s, after, id, k - 1);
        }
    } else {
        lemma_kept_at(s, after, id, k);
    }
}

/// Updating an entry without a new key, or updating another entry, keeps the key
/// of entry `id`.
pub proof fn law_update_entry_keeps_keys(
    s: DbState,
    updated: Seq<char>,
    name: Seq<char>,
    platform_id: Seq<char>,
    key: Option<Seq<char>>,
    nonce: Seq<u8>,
    t1: i64,
    t2: i64,
    id: Seq<char>,
)
    requires
        well_formed(s),
        well_formed(spec_update_entry(s, updated, name, platform_id, key, nonce, t1, t2).0),
        has_entry(s.entries, id),
        updated != id || key is None,
    ensures
        key_kept(s, spec_update_entry(s, updated, name, platform_id, key, nonce, t1, t2).0, id),
{
    let after = spec_update_entry(s, updated, name, platform_id, key, nonce, t1, t2).0;
    let k = entry_pos(s.entries, id);
    if has_entry(s.entries, updated) {
        let u = entry_pos(s.entries, updated);
        if updated != id {
            assert(u != k);
        }
    }
    assert(after.entries.len() == s.entries.len());
    assert(after.entries[k].id == id);
    assert(after.entries[k].key_encrypted == s.entries[k].key_encrypted);
    lemma_kept_at(s, after, id, k);
}

/// Adding, renaming or re-pointing a platform leaves every entry as it was.
pub proof fn law_platform_changes_keep_keys(
    s: DbState,
    pid: Seq<char>,
    now: i64,
    name: Seq<char>,
    color: Seq<char>,
    openai: Seq<char>,
    anthropic: Seq<char>,
    id: Seq<char>,
)
    requires
        has_entry(s.entries, id),
    ensures
        key_kept(s, spec_add_platform(s, pid, now, name, color, openai, anthropic).0, id),
        key_kept(s, spec_rename_platform(s, pid, name).0, id),
        key_kept(s, spec_set_endpoints(s, pid, openai, anthropic).0, id),
{
}

/// An entry that does not belong to platform `platform_id` survives its deletion.
proof fn lemma_entries_outside_keeps(es: Seq<EntryRow>, platform_id: Seq<char>, k: int)
    requires
        0 <= k < es.len(),
        es[k].platform_id != platform_id,
    ensures
        exists|j: int|
            0 <= j < entries_outside(es, platform_id).len() && #[trigger] entries_outside(es, platform_id)[j] == es[k],
    decreases es.len(),
{
    let init = es.drop_last();
    let rest = entries_outside(init, platform_id);
    let out = entries_outside(es, platform_id);
    if k == es.len() - 1 {
        assert(out[rest.len() as int] == es[k]);
    } else {
        assert(init[k] == es[k]);
        lemma_entries_outside_keeps(init, platform_id, k);
        let j = choose|j: int| 0 <= j < rest.len() && #[trigger] rest[j] == init[k];
        assert(out[j] == rest[j]);
    }
}

/// Deleting a platform keeps the key of every entry of another platform.
pub proof fn law_delete_platform_keeps_other_keys(s: DbState, deleted: Seq<char>, id: Seq<char>)
    requires
        well_formed(s),
        well_formed(spec_delete_platform(s, deleted)),
        has_entry(s.entries, id),
        s.entries[entry_pos(s.entries, id)].platform_id != deleted,
    ensures
        key_kept(s, spec_delete_platform(s, deleted), id),
{
    let after = spec_delete_platform(s, deleted);
    let k = entry_pos(s.entries, id);
    lemma_entries_outside_keeps(s.entries, deleted, k);
    let j = choose|j: int|
        0 <= j < entries_outside(s.entries, deleted).len() && #[trigger] entries_outside(s.entries, deleted)[j] == s.entries[k];
    lemma_kept_at(s, after, id, j);
}

/// Restoring a backup keeps the key of every entry that was there.
pub proof fn law_restore_keeps_keys(
    before: DbState,
    after: DbState,
    pts: Seq<PlatformFields>,
    ets: Seq<EntryFields>,
    r: Result<nat, Seq<char>>,
    id: Seq<char>,
)
    requires
        well_formed(before),
        well_formed(after),
        restore_outcome(before, after, pts, ets, r),
        has_entry(before.entries, id),
    ensures
        key_kept(before, after, id),
{
    let k = entry_pos(before.entries, id);
    assert(after.entries.subrange(0, before.entries.len() as int)[k] == after.entries[k]);
    lemma_kept_at(before, after, id, k);
}

/// The entries of platform `platform_id`, as a filter.
pub open spec fn belongs_to(platform_id: Seq<char>) -> spec_fn(EntryRow) -> bool {
    |e: EntryRow| e.platform_id == platform_id
}

/// The key count of a platform is the number of its entries.
proof fn lemma_count_is_filter(es: Seq<EntryRow>, platform_id: Seq<char>)
    ensures
        count_of(es, platform_id) == es.filter(belongs_to(platform_id)).len(),
    decreases es.len(),
{
    reveal(Seq::filter);
    if es.len() > 0 {
        lemma_count_is_filter(es.drop_last(), platform_id);
    }
}

/// The last use of a platform is the latest copy time over its entries.
proof fn lemma_last_copied_is_latest(es: Seq<EntryRow>, platform_id: Seq<char>)
    ensures
        forall|i: int|
            0 <= i < es.len() && #[trigger] es[i].platform_id == platform_id && es[i].last_copied_at is Some
                ==> last_copied(es, platform_id) is Some && last_copied(es, platform_id)->0 >= es[i].last_copied_at->0,
        last_copied(es, platform_id) is Some ==> exists|i: int|
            0 <= i < es.len() && #[trigger] es[i].platform_id == platform_id && es[i].last_copied_at == last_copied(
                es,
                platform_id,
            ),
    decreases es.len(),
{
    if es.len() > 0 {
        let init = es.drop_last();
        lemma_last_copied_is_latest(init, platform_id);
        let n = es.len() - 1;
        assert forall|i: int|
            0 <= i < es.len() && #[trigger] es[i].platform_id == platform_id && es[i].last_copied_at is Some implies last_copied(
                es,
                platform_id,
            ) is Some && last_copied(es, platform_id)->0 >= es[i].last_copied_at->0 by {
            if i < n {
                assert(init[i] == es[i]);
            }
        }
        if last_copied(es, platform_id) is Some {
            if last_copied(es, platform_id) == last_copied(init, platform_id) {
                let i = choose|i: int|
                    0 <= i < init.len() && #[trigger] init[i].platform_id == platform_id && init[i].last_copied_at
                        == last_copied(init, platform_id);
                assert(es[i] == init[i]);
            } else {
                assert(es[n].platform_id == platform_id && es[n].last_copied_at == last_copied(es, platform_id));
            }
        }
    }
}

/// In a vault whose platform ids are unique, the platform at `k` is the one found by its id.
proof fn lemma_platform_at(s: DbState, k: int)
    requires
        well_formed(s),
        0 <= k < s.platforms.len(),
    ensures
        has_platform(s.platforms, s.platforms[k].id),
        platform_pos(s.platforms, s.platforms[k].id) == k,
{
    let id = s.platforms[k].id;
    assert(has_platform(s.platforms, id));
    let p = platform_pos(s.platforms, id);
    if p != k {
        assert(s.platforms[p].id != s.platforms[k].id);
    }
}

/// The platform row with id `id`.
pub open spec fn platform_row(s: DbState, id: Seq<char>) -> PlatformRow {
    s.platforms[platform_pos(s.platforms, id)]
}

/// The entry row with id `id`.
pub open spec fn entry_row(s: DbState, id: Seq<char>) -> EntryRow {
    s.entries[entry_pos(s.entries, id)]
}

/// Listing platforms lists each platform exactly once, with its own name, color
/// and endpoints; its key count is the number of its entries; its last use is the
/// latest copy time over its entries (none when no entry of it was ever copied).
pub proof fn law_listed_platforms(s: DbState, out: Seq<PlatformInfo>)
    requires
        well_formed(s),
        s.entries.len() <= i64::MAX,
        lists_platforms(s, out),
        out.len() == s.platforms.len(),
    ensures
        forall|j: int| #![trigger s.platforms[j]] 0 <= j < s.platforms.len() ==> exists|k: int| 0 <= k < out.len() && #[trigger] out[k].id == s.platforms[j].id,
        forall|k1: int, k2: int| 0 <= k1 < out.len() && 0 <= k2 < out.len() && k1 != k2 ==> #[trigger] out[k1].id != #[trigger] out[k2].id,
        forall|k: int| 0 <= k < out.len() ==> {
            let p = platform_row(s, #[trigger] out[k].id);
            &&& has_platform(s.platforms, out[k].id)
            &&& out[k].name == p.name
            &&& out[k].color == p.color
            &&& out[k].endpoint_openai == p.endpoint_openai
            &&& out[k].endpoint_anthropic == p.endpoint_anthropic
            &&& out[k].key_count as int == s.entries.filter(belongs_to(out[k].id)).len()
        },
        forall|k: int, i: int|
            0 <= k < out.len() && 0 <= i < s.entries.len() && #[trigger] s.entries[i].platform_id == #[trigger] out[k].id
                && s.entries[i].last_copied_at is Some ==> out[k].last_copied_at is Some && out[k].last_copied_at->0
                >= s.entries[i].last_copied_at->0,
        forall|k: int|
            0 <= k < out.len() && (#[trigger] out[k]).last_copied_at is Some ==> exists|i: int|
                0 <= i < s.entries.len() && s.entries[i].platform_id == out[k].id && #[trigger] s.entries[i].last_copied_at
                    == out[k].last_copied_at,
{
    let order = choose|order: Seq<usize>|
        #![trigger is_permutation(order, s.platforms.len() as int)]
        is_permutation(order, s.platforms.len() as int) && sorted_by_rank(order, platform_ranks(s))
            && stable_by_rank(order, platform_ranks(s)) && forall|k: int|
            0 <= k < out.len() ==> #[trigger] out[k] == platform_info(s, s.platforms[order[k] as int]);
    assert forall|j: int| #![trigger s.platforms[j]] 0 <= j < s.platforms.len() implies exists|k: int| 0 <= k < out.len() && #[trigger] out[k].id == s.platforms[j].id by {
        crate::order::lemma_permutation_covers(order, s.platforms.len() as int, j);
        let k = choose|k: int| 0 <= k < s.platforms.len() && #[trigger] order[k] == j;
        assert(out[k] == platform_info(s, s.platforms[order[k] as int]));
        assert(out[k].id == s.platforms[j].id);
    }
    assert forall|k1: int, k2: int| 0 <= k1 < out.len() && 0 <= k2 < out.len() && k1 != k2 implies #[trigger] out[k1].id != #[trigger] out[k2].id by {
        assert(out[k1] == platform_info(s, s.platforms[order[k1] as int]));
        assert(out[k2] == platform_info(s, s.platforms[order[k2] as int]));
        assert(order[k1] != order[k2]);
    }
    assert forall|k: int| 0 <= k < out.len() implies {
        let p = platform_row(s, #[trigger] out[k].id);
        &&& has_platform(s.platforms, out[k].id)
        &&& out[k].name == p.name
        &&& out[k].color == p.color
        &&& out[k].endpoint_openai == p.endpoint_openai
        &&& out[k].endpoint_anthropic == p.endpoint_anthropic
        &&& out[k].key_count as int == s.entries.filter(belongs_to(out[k].id)).len()
    } by {
        let j = order[k] as int;
        assert(out[k] == platform_info(s, s.platforms[j]));
        lemma_platform_at(s, j);
        lemma_count_is_filter(s.entries, out[k].id);
        s.entries.lemma_filter_len(belongs_to(out[k].id));
    }
    assert forall|k: int, i: int|
        0 <= k < out.len() && 0 <= i < s.entries.len() && #[trigger] s.entries[i].platform_id == #[trigger] out[k].id
            && s.entries[i].last_copied_at is Some implies out[k].last_copied_at is Some && out[k].last_copied_at->0
            >= s.entries[i].last_copied_at->0 by {
        assert(out[k] == platform_info(s, s.platforms[order[k] as int]));
        lemma_last_copied_is_latest(s.entries, out[k].id);
    }
    assert forall|k: int|
        0 <= k < out.len() && (#[trigger] out[k]).last_copied_at is Some implies exists|i: int|
            0 <= i < s.entries.len() && s.entries[i].platform_id == out[k].id && #[trigger] s.entries[i].last_copied_at
                == out[k].last_copied_at by {
        assert(out[k] == platform_info(s, s.platforms[order[k] as int]));
        lemma_last_copied_is_latest(s.entries, out[k].id);
        let i = choose|i: int|
            0 <= i < s.entries.len() && #[trigger] s.entries[i].platform_id == out[k].id && s.entries[i].last_copied_at
                == last_copied(s.entries, out[k].id);
        assert(s.entries[i].last_copied_at == out[k].last_copied_at);
    }
}

/// Platforms are listed most recently used first: a platform used at some time
/// comes after none that was never used or used earlier; among platforms of
/// equal last use, newer ones come first.
pub proof fn law_listed_platforms_order(s: DbState, out: Seq<PlatformInfo>, k1: int, k2: int)
    requires
        well_formed(s),
        lists_platforms(s, out),
        out.len() == s.platforms.len(),
        0 <= k1 < k2 < out.len(),
    ensures
        out[k2].last_copied_at is Some ==> out[k1].last_copied_at is Some && out[k1].last_copied_at->0
            >= out[k2].last_copied_at->0,
        out[k1].last_copied_at == out[k2].last_copied_at ==> platform_row(s, out[k1].id).created_at >= platform_row(
            s,
            out[k2].id,
        ).created_at,
{
    let order = choose|order: Seq<usize>|
        #![trigger is_permutation(order, s.platforms.len() as int)]
        is_permutation(order, s.platforms.len() as int) && sorted_by_rank(order, platform_ranks(s))
            && stable_by_rank(order, platform_ranks(s)) && forall|k: int|
            0 <= k < out.len() ==> #[trigger] out[k] == platform_info(s, s.platforms[order[k] as int]);
    let (j1, j2) = (order[k1] as int, order[k2] as int);
    assert(out[k1] == platform_info(s, s.platforms[j1]));
    assert(out[k2] == platform_info(s, s.platforms[j2]));
    assert(rank_ge(platform_ranks(s)[j1], platform_ranks(s)[j2]));
    lemma_platform_at(s, j1);
    lemma_platform_at(s, j2);
}

/// Listing entries lists each entry exactly once, with its own name, platform,
/// use statistics and creation time; its masked key is the mask of the key that
/// revealing the entry gives.
pub proof fn law_listed_entries(s: DbState, out: Seq<EntryInfo>)
    requires
        well_formed(s),
        lists_entries(s, out),
        out.len() == s.entries.len(),
    ensures
        forall|j: int| #![trigger s.entries[j]] 0 <= j < s.entries.len() ==> exists|k: int| 0 <= k < out.len() && #[trigger] out[k].id == s.entries[j].id,
        forall|k1: int, k2: int| 0 <= k1 < out.len() && 0 <= k2 < out.len() && k1 != k2 ==> #[trigger] out[k1].id != #[trigger] out[k2].id,
        forall|k: int| 0 <= k < out.len() ==> {
            let e = entry_row(s, #[trigger] out[k].id);
            &&& has_entry(s.entries, out[k].id)
            &&& out[k].name == e.name
            &&& out[k].platform_id == e.platform_id
            &&& out[k].copy_count == e.copy_count
            &&& out[k].last_copied_at == e.last_copied_at
            &&& out[k].created_at == e.created_at
            &&& revealed(s, out[k].id) is Ok ==> out[k].masked_key == masked(revealed(s, out[k].id)->Ok_0)
        },
{
    let order = choose|order: Seq<usize>|
        #![trigger is_permutation(order, s.entries.len() as int)]
        is_permutation(order, s.entries.len() as int) && sorted_by_rank(order, entry_ranks(s))
            && stable_by_rank(order, entry_ranks(s)) && forall|k: int|
            0 <= k < out.len() ==> #[trigger] out[k] == entry_info(
                s.entries[order[k] as int],
                revealed_text(s.master_key, s.entries[order[k] as int].key_encrypted)->Ok_0,
            );
    assert forall|j: int| #![trigger s.entries[j]] 0 <= j < s.entries.len() implies exists|k: int| 0 <= k < out.len() && #[trigger] out[k].id == s.entries[j].id by {
        crate::order::lemma_permutation_covers(order, s.entries.len() as int, j);
        let k = choose|k: int| 0 <= k < s.entries.len() && #[trigger] order[k] == j;
        assert(out[k].id == s.entries[order[k] as int].id);
    }
    assert forall|k1: int, k2: int| 0 <= k1 < out.len() && 0 <= k2 < out.len() && k1 != k2 implies #[trigger] out[k1].id != #[trigger] out[k2].id by {
        assert(out[k1].id == s.entries[order[k1] as int].id);
        assert(out[k2].id == s.entries[order[k2] as int].id);
        assert(order[k1] != order[k2]);
    }
    assert forall|k: int| 0 <= k < out.len() implies {
        let e = entry_row(s, #[trigger] out[k].id);
        &&& has_entry(s.entries, out[k].id)
        &&& out[k].name == e.name
        &&& out[k].platform_id == e.platform_id
        &&& out[k].copy_count == e.copy_count
        &&& out[k].last_copied_at == e.last_copied_at
        &&& out[k].created_at == e.created_at
        &&& revealed(s, out[k].id) is Ok ==> out[k].masked_key == masked(revealed(s, out[k].id)->Ok_0)
    } by {
        let j = order[k] as int;
        assert(out[k].id == s.entries[j].id);
        lemma_entry_at(s, j);
    }
}

/// Entries are listed most recently copied first: an entry copied at some time
/// comes after none that was never copied or copied earlier; among entries of
/// equal last copy, newer ones come first.
pub proof fn law_listed_entries_order(s: DbState, out: Seq<EntryInfo>, k1: int, k2: int)
    requires
        lists_entries(s, out),
        out.len() == s.entries.len(),
        0 <= k1 < k2 < out.len(),
    ensures
        out[k2].last_copied_at is Some ==> out[k1].last_copied_at is Some && out[k1].last_copied_at->0
            >= out[k2].last_copied_at->0,
        out[k1].last_copied_at == out[k2].last_copied_at ==> out[k1].created_at >= out[k2].created_at,
{
    let order = choose|order: Seq<usize>|
        #![trigger is_permutation(order, s.entries.len() as int)]
        is_permutation(order, s.entries.len() as int) && sorted_by_rank(order, entry_ranks(s))
            && stable_by_rank(order, entry_ranks(s)) && forall|k: int|
            0 <= k < out.len() ==> #[trigger] out[k] == entry_info(
                s.entries[order[k] as int],
                revealed_text(s.master_key, s.entries[order[k] as int].key_encrypted)->Ok_0,
            );
    let (j1, j2) = (order[k1] as int, order[k2] as int);
    assert(out[k1].last_copied_at == s.entries[j1].last_copied_at && out[k1].created_at == s.entries[j1].created_at);
    assert(out[k2].last_copied_at == s.entries[j2].last_copied_at && out[k2].created_at == s.entries[j2].created_at);
    assert(rank_ge(entry_ranks(s)[j1], entry_ranks(s)[j2]));
}

/// A listed entry shows the masked key that adding it returned, as long as its
/// stored key is kept.
pub proof fn law_listed_mask_matches_added(
    before: DbState,
    added: DbState,
    platform_id: Seq<char>,
    name: Seq<char>,
    key: Seq<char>,
    dto: EntryInfo,
    s: DbState,
    out: Seq<EntryInfo>,
    k: int,
)
    requires
        well_formed(added),
        entry_added(before, added, platform_id, name, key, dto),
        key_kept(added, s, dto.id),
        well_formed(s),
        lists_entries(s, out),
        out.len() == s.entries.len(),
        0 <= k < out.len(),
        out[k].id == dto.id,
    ensures
        out[k].masked_key == dto.masked_key,
{
    law_reveal_after_steps(before, seq![added, s], platform_id, name, key, dto);
    assert(seq![added, s][1] == s);
    law_listed_entries(s, out);
}

/// Setting a platform's endpoints succeeds exactly when both normalize and the
/// platform exists; then that platform's endpoints are the normalized arguments
/// (an empty one clears it), whatever they were before, and nothing else changes.
/// A refused call changes nothing.
pub proof fn law_set_endpoints_sets(s: DbState, id: Seq<char>, openai: Seq<char>, anthropic: Seq<char>)
    requires
        well_formed(s),
    ensures
        spec_set_endpoints(s, id, openai, anthropic).1 is Ok <==> (normalized_endpoint(openai) is Ok
            && normalized_endpoint(anthropic) is Ok && has_platform(s.platforms, id)),
        spec_set_endpoints(s, id, openai, anthropic).1 is Err ==> spec_set_endpoints(s, id, openai, anthropic).0 == s,
        spec_set_endpoints(s, id, openai, anthropic).1 is Ok ==> {
            let t = spec_set_endpoints(s, id, openai, anthropic).0;
            &&& t.entries == s.entries
            &&& t.master_key == s.master_key
            &&& t.platforms.len() == s.platforms.len()
            &&& forall|j: int|
                0 <= j < s.platforms.len() && #[trigger] s.platforms[j].id != id ==> t.platforms[j] == s.platforms[j]
            &&& forall|j: int|
                0 <= j < s.platforms.len() && #[trigger] s.platforms[j].id == id ==> {
                    &&& t.platforms[j].endpoint_openai == normalized_endpoint(openai)->Ok_0
                    &&& t.platforms[j].endpoint_anthropic == normalized_endpoint(anthropic)->Ok_0
                    &&& t.platforms[j].id == id
                    &&& t.platforms[j].name == s.platforms[j].name
                    &&& t.platforms[j].color == s.platforms[j].color
                    &&& t.platforms[j].created_at == s.platforms[j].created_at
                }
        },
{
    if spec_set_endpoints(s, id, openai, anthropic).1 is Ok {
        let k = platform_pos(s.platforms, id);
        assert forall|j: int| 0 <= j < s.platforms.len() && #[trigger] s.platforms[j].id == id implies j == k by {
            if j != k {
                assert(s.platforms[j].id != s.platforms[k].id);
            }
        }
    }
}

/// Editing an entry succeeds exactly when the trimmed name is not empty, the
/// target platform exists (where the entry does), and a non-blank new key fits the
/// cipher's limit. Then the entry gets the trimmed name and the platform, whether a
/// new key is given or not, keeps its use statistics and creation time, and no
/// other entry or platform changes.
pub proof fn law_update_entry_edits(
    s: DbState,
    id: Seq<char>,
    name: Seq<char>,
    platform_id: Seq<char>,
    key: Option<Seq<char>>,
    nonce: Seq<u8>,
    t1: i64,
    t2: i64,
)
    requires
        well_formed(s),
    ensures
        spec_update_entry(s, id, name, platform_id, key, nonce, t1, t2).1 is Ok <==> {
            &&& trimmed(name).len() > 0
            &&& has_entry(s.entries, id) ==> has_platform(s.platforms, platform_id)
            &&& key matches Some(k) ==> encode_utf8(trimmed(k)).len() <= PLAINTEXT_MAX || trimmed(k).len() == 0
        },
        spec_update_entry(s, id, name, platform_id, key, nonce, t1, t2).1 is Ok ==> {
            let t = spec_update_entry(s, id, name, platform_id, key, nonce, t1, t2).0;
            &&& t.platforms == s.platforms
            &&& t.master_key == s.master_key
            &&& t.entries.len() == s.entries.len()
            &&& forall|j: int| 0 <= j < s.entries.len() && #[trigger] s.entries[j].id != id ==> t.entries[j] == s.entries[j]
            &&& forall|j: int|
                0 <= j < s.entries.len() && #[trigger] s.entries[j].id == id ==> {
                    &&& t.entries[j].id == id
                    &&& t.entries[j].name == trimmed(name)
                    &&& t.entries[j].platform_id == platform_id
                    &&& t.entries[j].copy_count == s.entries[j].copy_count
                    &&& t.entries[j].last_copied_at == s.entries[j].last_copied_at
                    &&& t.entries[j].created_at == s.entries[j].created_at
                }
        },
{
    if has_entry(s.entries, id) {
        let k = entry_pos(s.entries, id);
        assert forall|j: int| 0 <= j < s.entries.len() && #[trigger] s.entries[j].id == id implies j == k by {
            if j != k {
                assert(s.entries[j].id != s.entries[k].id);
            }
        }
    }
}

/// Adding an entry succeeds exactly when the trimmed name and key are not empty,
/// the key fits the cipher's limit, the fresh id is unused and the platform exists,
/// whatever names the other entries have. Then one entry is appended: the fresh id,
/// the platform, the trimmed name, no use yet, created and updated at `now`, and
/// the key stored only as `nonce || AES-256-GCM seal` of its trimmed UTF-8 bytes;
/// the result shows it with the key masked. A refused call changes nothing.
pub proof fn law_add_entry_outcome(
    s: DbState,
    id: Seq<char>,
    now: i64,
    nonce: Seq<u8>,
    platform_id: Seq<char>,
    name: Seq<char>,
    key: Seq<char>,
)
    ensures
        spec_add_entry(s, id, now, nonce, platform_id, name, key).1 is Ok <==> {
            &&& trimmed(name).len() > 0
            &&& trimmed(key).len() > 0
            &&& encode_utf8(trimmed(key)).len() <= PLAINTEXT_MAX
            &&& !has_entry(s.entries, id)
            &&& has_platform(s.platforms, platform_id)
        },
        spec_add_entry(s, id, now, nonce, platform_id, name, key).1 is Err ==> spec_add_entry(
            s,
            id,
            now,
            nonce,
            platform_id,
            name,
            key,
        ).0 == s,
        spec_add_entry(s, id, now, nonce, platform_id, name, key).1 is Ok ==> {
            let t = spec_add_entry(s, id, now, nonce, platform_id, name, key).0;
            let d = spec_add_entry(s, id, now, nonce, platform_id, name, key).1->Ok_0;
            let e = t.entries[s.entries.len() as int];
            &&& t.platforms == s.platforms
            &&& t.master_key == s.master_key
            &&& t.entries.len() == s.entries.len() + 1
            &&& forall|j: int| 0 <= j < s.entries.len() ==> #[trigger] t.entries[j] == s.entries[j]
            &&& e.id == id && d.id == id
            &&& e.platform_id == platform_id && d.platform_id == platform_id
            &&& e.name == trimmed(name) && d.name == trimmed(name)
            &&& e.copy_count == 0 && d.copy_count == 0
            &&& e.last_copied_at is None && d.last_copied_at is None
            &&& e.created_at == now && e.updated_at == now && d.created_at == now
            &&& e.key_encrypted == nonce + aes256gcm_seal(s.master_key, nonce, encode_utf8(trimmed(key)))
            &&& d.masked_key == masked(trimmed(key))
        },
{
}

/// Adding a platform whose id and name are new keeps the table rules.
proof fn lemma_push_platform_keeps_wf(before: DbState, after: DbState, row: PlatformRow)
    requires
        well_formed(before),
        !has_platform(before.platforms, row.id),
        !has_platform_named(before.platforms, row.name),
        after == with_platforms(before, before.platforms.push(row)),
    ensures
        well_formed(after),
{
    assert forall|i: int| 0 <= i < after.entries.len() implies has_platform(
        after.platforms,
        #[trigger] after.entries[i].platform_id,
    ) by {
        let pid = after.entries[i].platform_id;
        assert(has_platform(before.platforms, pid));
        let k = choose|k: int| 0 <= k < before.platforms.len() && #[trigger] before.platforms[k].id == pid;
        assert(after.platforms[k] == before.platforms[k]);
    }
    assert forall|i: int, j: int|
        0 <= i < after.platforms.len() && 0 <= j < after.platforms.len() && i != j implies #[trigger] after.platforms[i].id
            != #[trigger] after.platforms[j].id && after.platforms[i].name != after.platforms[j].name by {
        if i < before.platforms.len() {
            assert(after.platforms[i] == before.platforms[i]);
        }
        if j < before.platforms.len() {
            assert(after.platforms[j] == before.platforms[j]);
        }
    }
}

/// Adding an entry whose id is new and whose platform exists keeps the table rules.
proof fn lemma_push_entry_keeps_wf(before: DbState, after: DbState, row: EntryRow)
    requires
        well_formed(before),
        !has_entry(before.entries, row.id),
        has_platform(before.platforms, row.platform_id),
        after == with_entries(before, before.entries.push(row)),
    ensures
        well_formed(after),
{
    assert forall|i: int| 0 <= i < after.entries.len() implies has_platform(
        after.platforms,
        #[trigger] after.entries[i].platform_id,
    ) by {
        if i < before.entries.len() {
            assert(after.entries[i] == before.entries[i]);
        }
    }
    assert forall|i: int, j: int|
        0 <= i < after.entries.len() && 0 <= j < after.entries.len() && i != j implies #[trigger] after.entries[i].id
            != #[trigger] after.entries[j].id by {
        if i < before.entries.len() {
            assert(after.entries[i] == before.entries[i]);
        }
        if j < before.entries.len() {
            assert(after.entries[j] == before.entries[j]);
        }
    }
}

/// Copying an entry leaves its key as it was.
pub proof fn law_copy_keeps_key(s: DbState, id: Seq<char>, now: i64)
    requires
        well_formed(s),
        has_entry(s.entries, id),
    ensures
        revealed(spec_copy_entry(s, id, now), id) == revealed(s, id),
        well_formed(spec_copy_entry(s, id, now)),
{
    let k = entry_pos(s.entries, id);
    let after = spec_copy_entry(s, id, now);
    assert(after.entries[k].id == id);
    assert(entry_pos(after.entries, id) == k) by {
        let k2 = entry_pos(after.entries, id);
        if k2 != k {
            assert(after.entries[k2] == s.entries[k2]);
        }
    }
    assert forall|i: int| 0 <= i < after.entries.len() implies has_platform(
        after.platforms,
        #[trigger] after.entries[i].platform_id,
    ) by {
        assert(after.entries[i].platform_id == s.entries[i].platform_id);
    }
    assert forall|i: int, j: int|
        0 <= i < after.entries.len() && 0 <= j < after.entries.len() && i != j implies #[trigger] after.entries[i].id
            != #[trigger] after.entries[j].id by {
        assert(after.entries[i].id == s.entries[i].id);
        assert(after.entries[j].id == s.entries[j].id);
    }
}

/// Copying an entry counts one use (the count stays at the largest `i64`) and
/// records the time of the copy; no other entry changes.
pub proof fn law_copy_counts_use(s: DbState, id: Seq<char>, now: i64)
    requires
        well_formed(s),
        has_entry(s.entries, id),
    ensures
        ({
            let k = entry_pos(s.entries, id);
            let after = spec_copy_entry(s, id, now);
            &&& after.entries.len() == s.entries.len()
            &&& after.entries[k].copy_count == if s.entries[k].copy_count == i64::MAX {
                i64::MAX
            } else {
                (s.entries[k].copy_count + 1) as i64
            }
            &&& after.entries[k].last_copied_at == Some(now)
            &&& forall|i: int| 0 <= i < s.entries.len() && i != k ==> #[trigger] after.entries[i] == s.entries[i]
        }),
{
}

/// A deleted entry can no longer be revealed.
pub proof fn law_reveal_after_delete(s: DbState, id: Seq<char>)
    requires
        well_formed(s),
    ensures
        revealed(spec_delete_entry(s, id), id) == Err::<Seq<char>, Seq<char>>(no_rows_message()),
{
    let after = spec_delete_entry(s, id);
    if has_entry(s.entries, id) {
        let k = entry_pos(s.entries, id);
        assert forall|i: int| 0 <= i < after.entries.len() implies #[trigger] after.entries[i].id != id by {
            if i < k {
                assert(after.entries[i] == s.entries[i]);
            } else {
                assert(after.entries[i] == s.entries[i + 1]);
            }
        }
    }
}

impl Db {
    /// The table rules hold.
    pub closed spec fn wf(&self) -> bool {
        well_formed(self@)
    }

    /// An empty vault under `master_key`.
    pub fn new(master_key: [u8; KEY_LEN]) -> (db: Db)
        ensures
            db.wf(),
            db@.platforms.len() == 0,
            db@.entries.len() == 0,
            db@.master_key == master_key@,
    {
        let db = Db { platforms: Vec::new(), entries: Vec::new(), master_key };
        assert(db@.platforms =~= Seq::<PlatformRow>::empty());
        assert(db@.entries =~= Seq::<EntryRow>::empty());
        db
    }

    fn find_entry(&self, id: &String) -> (r: Option<usize>)
        requires
            self.wf(),
        ensures
            match r {
                Some(k) => k < self@.entries.len() && k == entry_pos(self@.entries, id@)
                    && has_entry(self@.entries, id@),
                None => !has_entry(self@.entries, id@),
            },
    {
        let mut i: usize = 0;
        while i < self.entries.len()
            invariant
                self.wf(),
                i <= self.entries.len(),
                forall|j: int| 0 <= j < i ==> self@.entries[j].id != id@,
            decreases self.entries.len() - i,
        {
            if self.entries[i].id == *id {
                assert(self@.entries[i as int].id == id@);
                proof {
                    let k = entry_pos(self@.entries, id@);
                    assert(self@.entries[k].id == id@);
                    assert(well_formed(self@));
                    assert(k == i as int);
                }
                return Some(i);
            }
            i += 1;
        }
        None
    }

    fn find_platform(&self, id: &String) -> (r: Option<usize>)
        requires
            self.wf(),
        ensures
            match r {
                Some(k) => k < self@.platforms.len() && k == platform_pos(self@.platforms, id@)
                    && has_platform(self@.platforms, id@),
                None => !has_platform(self@.platforms, id@),
            },
    {
        let mut i: usize = 0;
        while i < self.platforms.len()
            invariant
                self.wf(),
                i <= self.platforms.len(),
                forall|j: int| 0 <= j < i ==> self@.platforms[j].id != id@,
            decreases self.platforms.len() - i,
        {
            if self.platforms[i].id == *id {
                assert(self@.platforms[i as int].id == id@);
                proof {
                    let k = platform_pos(self@.platforms, id@);
                    assert(self@.platforms[k].id == id@);
                    assert(well_formed(self@));
                    assert(k == i as int);
                }
                return Some(i);
            }
            i += 1;
        }
        None
    }

    /// Decrypts a stored blob into key text.
    fn decrypt_blob(&self, blob: &[u8]) -> (r: Result<String, String>)
        ensures
            text_result(r) == revealed_text(self@.master_key, blob@),
    {
        let plain = crypto::decrypt(&self.master_key, blob)?;
        match text::string_from_utf8(plain) {
            Ok(s) => Ok(s),
            Err(e) => {
                let mut msg = String::from_str("utf8: ");
                msg.append(e.as_str());
                Err(msg)
            },
        }
    }

    /// The plaintext key of entry `id`.
    pub fn reveal_entry(&self, id: &str) -> (r: Result<String, String>)
        requires
            self.wf(),
        ensures
            text_result(r) == revealed(self@, id@),
    {
        let key = String::from_str(id);
        match self.find_entry(&key) {
            None => Err(String::from_str("Query returned no rows")),
            Some(k) => self.decrypt_blob(self.entries[k].key_encrypted.as_slice()),
        }
    }

    /// Adds an entry with the given fresh id, creation time and nonce.
    pub fn add_entry_with(
        &mut self,
        id: String,
        created_at: i64,
        nonce: &[u8; NONCE_LEN],
        platform_id: &str,
        name: &str,
        key: &str,
    ) -> (r: Result<EntryDto, String>)
        requires
            old(self).wf(),
        ensures
            final(self).wf(),
            final(self)@ == spec_add_entry(old(self)@, id@, created_at, nonce@, platform_id@, name@, key@).0,
            entry_result(r) == spec_add_entry(old(self)@, id@, created_at, nonce@, platform_id@, name@, key@).1,
            r matches Ok(dto) ==> entry_added(old(self)@, final(self)@, platform_id@, name@, key@, dto@),
            r matches Ok(dto) ==> revealed(final(self)@, dto.id@) == Ok::<Seq<char>, Seq<char>>(trimmed(key@)),
    {
        let name_t = trim(name);
        let key_t = trim(key);
        if name_t.unicode_len() == 0 {
            return Err(String::from_str("名称不能为空"));
        }
        if key_t.unicode_len() == 0 {
            return Err(String::from_str("Key 值不能为空"));
        }
        let blob = crypto::encrypt_with_nonce(&self.master_key, nonce, key_t.as_bytes())?;
        if self.find_entry(&id).is_some() {
            return Err(String::from_str("UNIQUE constraint failed: key_entry.id"));
        }
        let pid = String::from_str(platform_id);
        if self.find_platform(&pid).is_none() {
            return Err(String::from_str("FOREIGN KEY constraint failed"));
        }
        let ghost before = self@;
        let record = EntryRecord {
            id: id.clone(),
            platform_id: pid.clone(),
            name: String::from_str(name_t),
            key_encrypted: blob,
            copy_count: 0,
            last_copied_at: None,
            created_at,
            updated_at: created_at,
        };
        self.entries.push(record);
        proof {
            assert(self@.entries =~= before.entries.push(record@));
            assert(self@.platforms =~= before.platforms);
            assert(self@.entries.subrange(0, before.entries.len() as int) =~= before.entries);
            assert(well_formed(self@)) by {
                assert forall|i: int| 0 <= i < self@.entries.len() implies has_platform(
                    self@.platforms,
                    #[trigger] self@.entries[i].platform_id,
                ) by {
                    if i < before.entries.len() {
                        assert(self@.entries[i] == before.entries[i]);
                    }
                }
            }
            law_reveal_after_add(before, self@, platform_id@, name@, key@, EntryInfo {
                id: id@,
                platform_id: pid@,
                name: name_t@,
                masked_key: masked(key_t@),
                copy_count: 0,
                last_copied_at: None,
                created_at,
            });
        }
        Ok(EntryDto {
            id,
            platform_id: pid,
            name: String::from_str(name_t),
            masked_key: mask_key(key_t),
            copy_count: 0,
            last_copied_at: None,
            created_at,
        })
    }

    /// Adds an entry: a fresh random id and nonce, the current time.
    pub fn add_entry(&mut self, platform_id: &str, name: &str, key: &str) -> (r: Result<EntryDto, String>)
        requires
            old(self).wf(),
        ensures
            final(self).wf(),
            exists|id: Seq<char>, now: i64, nonce: Seq<u8>|
                #![trigger spec_add_entry(old(self)@, id, now, nonce, platform_id@, name@, key@)]
                id.len() == 36 && nonce.len() == NONCE_LEN
                && final(self)@ == spec_add_entry(old(self)@, id, now, nonce, platform_id@, name@, key@).0
                && entry_result(r) == spec_add_entry(old(self)@, id, now, nonce, platform_id@, name@, key@).1,
            r matches Ok(dto) ==> entry_added(old(self)@, final(self)@, platform_id@, name@, key@, dto@),
            r matches Ok(dto) ==> revealed(final(self)@, dto.id@) == Ok::<Seq<char>, Seq<char>>(trimmed(key@)),
    {
        let id = clock::new_id();
        let mut nonce = [0u8; NONCE_LEN];
        crypto::fill_random(&mut nonce);
        let now = clock::now_ms();
        let ghost before = self@;
        let r = self.add_entry_with(id, now, &nonce, platform_id, name, key);
        assert(self@ == spec_add_entry(before, id@, now, nonce@, platform_id@, name@, key@).0);
        r
    }

    fn duplicate_entry(e: &EntryRecord) -> (r: EntryRecord)
        ensures
            r@ == e@,
    {
        let mut blob: Vec<u8> = Vec::new();
        blob.extend_from_slice(e.key_encrypted.as_slice());
        EntryRecord {
            id: e.id.clone(),
            platform_id: e.platform_id.clone(),
            name: e.name.clone(),
            key_encrypted: blob,
            copy_count: e.copy_count,
            last_copied_at: e.last_copied_at,
            created_at: e.created_at,
            updated_at: e.updated_at,
        }
    }

    /// Copies entry `id` at time `now`: gives its plaintext key and counts the use.
    pub fn copy_entry_at(&mut self, id: &str, now: i64) -> (r: Result<String, String>)
        requires
            old(self).wf(),
        ensures
            final(self).wf(),
            text_result(r) == revealed(old(self)@, id@),
            r is Ok ==> final(self)@ == spec_copy_entry(old(self)@, id@, now),
            r is Err ==> final(self)@ == old(self)@,
    {
        let plain = self.reveal_entry(id)?;
        let key = String::from_str(id);
        let k = match self.find_entry(&key) {
            Some(k) => k,
            None => return Ok(plain),
        };
        let ghost before = self@;
        let mut e = Self::duplicate_entry(&self.entries[k]);
        e.copy_count = if e.copy_count == i64::MAX { e.copy_count } else { e.copy_count + 1 };
        e.last_copied_at = Some(now);
        self.entries.set(k, e);
        proof {
            assert(self@.entries =~= spec_copy_entry(before, id@, now).entries);
            assert(self@.platforms =~= before.platforms);
            assert(well_formed(self@)) by {
                assert forall|i: int| 0 <= i < self@.entries.len() implies has_platform(
                    self@.platforms,
                    #[trigger] self@.entries[i].platform_id,
                ) by {
                    assert(self@.entries[i].platform_id == before.entries[i].platform_id);
                }
                assert forall|i: int, j: int|
                    0 <= i < self@.entries.len() && 0 <= j < self@.entries.len() && i != j implies #[trigger] self@.entries[i].id
                        != #[trigger] self@.entries[j].id by {
                    assert(self@.entries[i].id == before.entries[i].id);
                    assert(self@.entries[j].id == before.entries[j].id);
                }
            }
        }
        Ok(plain)
    }

    /// Copies entry `id`: gives its plaintext key, counts the use, and marks it as
    /// used now.
    pub fn copy_entry(&mut self, id: &str) -> (r: Result<String, String>)
        requires
            old(self).wf(),
        ensures
            final(self).wf(),
            text_result(r) == revealed(old(self)@, id@),
            r is Ok ==> exists|now: i64| final(self)@ == #[trigger] spec_copy_entry(old(self)@, id@, now),
            r is Err ==> final(self)@ == old(self)@,
    {
        let now = clock::now_ms();
        self.copy_entry_at(id, now)
    }

    /// Deletes entry `id`; a missing entry is not an error.
    pub fn delete_entry(&mut self, id: &str) -> (r: Result<(), String>)
        requires
            old(self).wf(),
        ensures
            final(self).wf(),
            r is Ok,
            final(self)@ == spec_delete_entry(old(self)@, id@),
    {
        let key = String::from_str(id);
        if let Some(k) = self.find_entry(&key) {
            let ghost before = self@;
            let _ = self.entries.remove(k);
            proof {
                assert(self@.entries =~= before.entries.remove(k as int));
                assert(self@.platforms =~= before.platforms);
                assert(well_formed(self@)) by {
                    assert forall|i: int| 0 <= i < self@.entries.len() implies has_platform(
                        self@.platforms,
                        #[trigger] self@.entries[i].platform_id,
                    ) by {
                        if i < k {
                            assert(self@.entries[i] == before.entries[i]);
                        } else {
                            assert(self@.entries[i] == before.entries[i + 1]);
                        }
                    }
                    assert forall|i: int, j: int|
                        0 <= i < self@.entries.len() && 0 <= j < self@.entries.len() && i != j implies #[trigger] self@.entries[i].id
                            != #[trigger] self@.entries[j].id by {
                        let bi = if i < k { i } else { i + 1 };
                        let bj = if j < k { j } else { j + 1 };
                        assert(self@.entries[i] == before.entries[bi]);
                        assert(self@.entries[j] == before.entries[bj]);
                    }
                }
            }
        }
        Ok(())
    }

    /// Updates entry `id` with the given nonce and times: renames it and moves it to
    /// `platform_id`; a non-empty `key` replaces the stored key.
    pub fn update_entry_with(
        &mut self,
        id: &str,
        name: &str,
        platform_id: &str,
        key: Option<&str>,
        nonce: &[u8; NONCE_LEN],
        t1: i64,
        t2: i64,
    ) -> (r: Result<(), String>)
        requires
            old(self).wf(),
        ensures
            final(self).wf(),
            final(self)@ == spec_update_entry(old(self)@, id@, name@, platform_id@, str_option(key), nonce@, t1, t2).0,
            unit_result(r) == spec_update_entry(old(self)@, id@, name@, platform_id@, str_option(key), nonce@, t1, t2).1,
            r is Ok ==> revealed(final(self)@, id@) == key_after_update(old(self)@, id@, str_option(key)),
    {
        let n = trim(name);
        if n.unicode_len() == 0 {
            return Err(String::from_str("名称不能为空"));
        }
        let ghost before = self@;
        let eid = String::from_str(id);
        let pid = String::from_str(platform_id);
        let found = self.find_entry(&eid);
        if let Some(k) = found {
            if self.find_platform(&pid).is_none() {
                return Err(String::from_str("FOREIGN KEY constraint failed"));
            }
            let mut e = Self::duplicate_entry(&self.entries[k]);
            e.name = String::from_str(n);
            e.platform_id = pid;
            e.updated_at = t1;
            self.entries.set(k, e);
            proof {
                self.lemma_entry_set_keeps_wf(before, k as int);
            }
        }
        let ghost mid = self@;
        assert(mid == spec_update_entry(before, id@, name@, platform_id@, None, nonce@, t1, t2).0) by {
            if found is Some {
                assert(mid.entries =~= spec_update_entry(before, id@, name@, platform_id@, None, nonce@, t1, t2).0.entries);
            }
        }
        if let Some(kk) = key {
            let kt = trim(kk);
            if kt.unicode_len() > 0 {
                let blob = crypto::encrypt_with_nonce(&self.master_key, nonce, kt.as_bytes())?;
                if let Some(k) = found {
                    let mut e = Self::duplicate_entry(&self.entries[k]);
                    e.key_encrypted = blob;
                    e.updated_at = t2;
                    self.entries.set(k, e);
                    proof {
                        self.lemma_entry_set_keeps_wf(mid, k as int);
                        assert(self@.entries =~= spec_update_entry(before, id@, name@, platform_id@, str_option(key), nonce@, t1, t2).0.entries);
                        assert(entry_pos(self@.entries, id@) == k) by {
                            assert(self@.entries[k as int].id == id@);
                        }
                        crypto::lemma_decrypt_encrypted(self@.master_key, encode_utf8(kt@), self@.entries[k as int].key_encrypted);
                    }
                }
            }
        }
        proof {
            if found is Some {
                let k = found->0 as int;
                assert(self@.entries[k].id == id@);
                assert(entry_pos(self@.entries, id@) == k);
                assert(entry_pos(before.entries, id@) == k);
            }
        }
        Ok(())
    }

    /// Updates entry `id`: renames it and moves it to `platform_id`; a non-empty
    /// `key` replaces the stored key (with a fresh nonce). A missing entry is left
    /// as it is.
    pub fn update_entry(&mut self, id: &str, name: &str, platform_id: &str, key: Option<&str>) -> (r: Result<(), String>)
        requires
            old(self).wf(),
        ensures
            final(self).wf(),
            exists|nonce: Seq<u8>, t1: i64, t2: i64|
                #![trigger spec_update_entry(old(self)@, id@, name@, platform_id@, str_option(key), nonce, t1, t2)]
                nonce.len() == NONCE_LEN
                && final(self)@ == spec_update_entry(old(self)@, id@, name@, platform_id@, str_option(key), nonce, t1, t2).0
                && unit_result(r) == spec_update_entry(old(self)@, id@, name@, platform_id@, str_option(key), nonce, t1, t2).1,
            r is Ok ==> revealed(final(self)@, id@) == key_after_update(old(self)@, id@, str_option(key)),
    {
        let mut nonce = [0u8; NONCE_LEN];
        crypto::fill_random(&mut nonce);
        let t1 = clock::now_ms();
        let t2 = clock::now_ms();
        let ghost before = self@;
        let r = self.update_entry_with(id, name, platform_id, key, &nonce, t1, t2);
        assert(self@ == spec_update_entry(before, id@, name@, platform_id@, str_option(key), nonce@, t1, t2).0);
        r
    }

    /// Replacing entry `k` by a row with the same id and an existing platform keeps
    /// the table rules.
    proof fn lemma_entry_set_keeps_wf(&self, before: DbState, k: int)
        requires
            well_formed(before),
            0 <= k < before.entries.len(),
            self@.platforms == before.platforms,
            self@.master_key == before.master_key,
            self@.entries.len() == before.entries.len(),
            forall|i: int| 0 <= i < before.entries.len() && i != k ==> self@.entries[i] == before.entries[i],
            self@.entries[k].id == before.entries[k].id,
            has_platform(before.platforms, self@.entries[k].platform_id),
        ensures
            well_formed(self@),
    {
        assert forall|i: int| 0 <= i < self@.entries.len() implies has_platform(
            self@.platforms,
            #[trigger] self@.entries[i].platform_id,
        ) by {
            if i != k {
                assert(self@.entries[i] == before.entries[i]);
            }
        }
        assert forall|i: int, j: int|
            0 <= i < self@.entries.len() && 0 <= j < self@.entries.len() && i != j implies #[trigger] self@.entries[i].id
                != #[trigger] self@.entries[j].id by {
            assert(self@.entries[i].id == before.entries[i].id);
            assert(self@.entries[j].id == before.entries[j].id);
        }
    }

    fn palette_color(i: usize) -> (c: &'static str)
        requires
            i < PALETTE_LEN,
        ensures
            c@ == palette(i as int),
    {
        if i == 0 {
            "blue"
        } else if i == 1 {
            "purple"
        } else if i == 2 {
            "pink"
        } else if i == 3 {
            "red"
        } else if i == 4 {
            "orange"
        } else if i == 5 {
            "yellow"
        } else if i == 6 {
            "green"
        } else {
            "gray"
        }
    }

    fn is_palette_color(color: &str) -> (b: bool)
        ensures
            b == in_palette(color@),
    {
        let c = String::from_str(color);
        let mut i: usize = 0;
        while i < PALETTE_LEN
            invariant
                i <= PALETTE_LEN,
                c@ == color@,
                forall|j: int| 0 <= j < i ==> palette(j) != color@,
            decreases PALETTE_LEN - i,
        {
            if c == String::from_str(Self::palette_color(i)) {
                return true;
            }
            i += 1;
        }
        false
    }

    /// The color a new platform gets.
    fn pick_color(color: &str, name: &str) -> (c: String)
        ensures
            c@ == chosen_color(color@, name@),
    {
        if Self::is_palette_color(color) {
            return String::from_str(color);
        }
        let n = name.unicode_len();
        let mut acc: usize = 0;
        let mut i: usize = 0;
        while i < n
            invariant
                i <= n,
                n == name@.len(),
                acc < PALETTE_LEN,
                acc == char_sum(name@.subrange(0, i as int)) % (PALETTE_LEN as nat),
            decreases n - i,
        {
            let ch = name.get_char(i);
            let code = ch as u32;
            let ghost prefix = name@.subrange(0, i as int);
            let ghost next = name@.subrange(0, i + 1);
            assert(next.drop_last() =~= prefix);
            proof {
                vstd::arithmetic::div_mod::lemma_add_mod_noop(
                    char_sum(prefix) as int,
                    code as int,
                    PALETTE_LEN as int,
                );
            }
            acc = (acc + (code % 8) as usize) % PALETTE_LEN;
            i += 1;
        }
        assert(name@.subrange(0, n as int) =~= name@);
        String::from_str(Self::palette_color(acc))
    }

    fn find_platform_named(&self, name: &String) -> (r: bool)
        ensures
            r == has_platform_named(self@.platforms, name@),
    {
        let mut i: usize = 0;
        while i < self.platforms.len()
            invariant
                i <= self.platforms.len(),
                forall|j: int| 0 <= j < i ==> self@.platforms[j].name != name@,
            decreases self.platforms.len() - i,
        {
            if self.platforms[i].name == *name {
                assert(self@.platforms[i as int].name == name@);
                return true;
            }
            i += 1;
        }
        false
    }

    fn duplicate_platform(p: &PlatformRecord) -> (r: PlatformRecord)
        ensures
            r@ == p@,
    {
        PlatformRecord {
            id: p.id.clone(),
            name: p.name.clone(),
            color: p.color.clone(),
            endpoint_openai: p.endpoint_openai.clone(),
            endpoint_anthropic: p.endpoint_anthropic.clone(),
            created_at: p.created_at,
        }
    }

    /// Adds a platform with the given fresh id and creation time.
    pub fn add_platform_with(
        &mut self,
        id: String,
        created_at: i64,
        name: &str,
        color: &str,
        endpoint_openai: &str,
        endpoint_anthropic: &str,
    ) -> (r: Result<PlatformDto, String>)
        requires
            old(self).wf(),
        ensures
            final(self).wf(),
            final(self)@ == spec_add_platform(old(self)@, id@, created_at, name@, color@, endpoint_openai@, endpoint_anthropic@).0,
            platform_result(r) == spec_add_platform(old(self)@, id@, created_at, name@, color@, endpoint_openai@, endpoint_anthropic@).1,
    {
        let name = trim(name);
        if name.unicode_len() == 0 {
            return Err(String::from_str("平台名称不能为空"));
        }
        let openai = text::normalize_endpoint(endpoint_openai)?;
        let anthropic = text::normalize_endpoint(endpoint_anthropic)?;
        let color = Self::pick_color(color, name);
        let n = String::from_str(name);
        if self.find_platform(&id).is_some() || self.find_platform_named(&n) {
            return Err(String::from_str("平台已存在"));
        }
        let ghost before = self@;
        let record = PlatformRecord {
            id: id.clone(),
            name: n.clone(),
            color: color.clone(),
            endpoint_openai: openai.clone(),
            endpoint_anthropic: anthropic.clone(),
            created_at,
        };
        self.platforms.push(record);
        proof {
            assert(self@.platforms =~= before.platforms.push(record@));
            assert(self@.entries =~= before.entries);
            assert(well_formed(self@)) by {
                assert forall|i: int| 0 <= i < self@.entries.len() implies has_platform(
                    self@.platforms,
                    #[trigger] self@.entries[i].platform_id,
                ) by {
                    let pid = self@.entries[i].platform_id;
                    assert(has_platform(before.platforms, pid));
                    let k = choose|k: int| 0 <= k < before.platforms.len() && #[trigger] before.platforms[k].id == pid;
                    assert(self@.platforms[k] == before.platforms[k]);
                }
                assert forall|i: int, j: int|
                    0 <= i < self@.platforms.len() && 0 <= j < self@.platforms.len() && i != j implies #[trigger] self@.platforms[i].id
                        != #[trigger] self@.platforms[j].id && self@.platforms[i].name != self@.platforms[j].name by {
                    if i < before.platforms.len() {
                        assert(self@.platforms[i] == before.platforms[i]);
                    }
                    if j < before.platforms.len() {
                        assert(self@.platforms[j] == before.platforms[j]);
                    }
                }
            }
        }
        Ok(PlatformDto {
            id,
            name: n,
            color,
            endpoint_openai: openai,
            endpoint_anthropic: anthropic,
            key_count: 0,
            last_copied_at: None,
        })
    }

    /// Adds a platform with a fresh random id, created now.
    pub fn add_platform(
        &mut self,
        name: &str,
        color: &str,
        endpoint_openai: &str,
        endpoint_anthropic: &str,
    ) -> (r: Result<PlatformDto, String>)
        requires
            old(self).wf(),
        ensures
            final(self).wf(),
            exists|id: Seq<char>, now: i64|
                #![trigger spec_add_platform(old(self)@, id, now, name@, color@, endpoint_openai@, endpoint_anthropic@)]
                id.len() == 36
                && final(self)@ == spec_add_platform(old(self)@, id, now, name@, color@, endpoint_openai@, endpoint_anthropic@).0
                && platform_result(r) == spec_add_platform(old(self)@, id, now, name@, color@, endpoint_openai@, endpoint_anthropic@).1,
    {
        let id = clock::new_id();
        let now = clock::now_ms();
        let ghost before = self@;
        let r = self.add_platform_with(id, now, name, color, endpoint_openai, endpoint_anthropic);
        assert(self@ == spec_add_platform(before, id@, now, name@, color@, endpoint_openai@, endpoint_anthropic@).0);
        r
    }

    /// Replacing platform `k` by a row with the same id keeps the table rules when
    /// its name is not another platform's name.
    proof fn lemma_platform_set_keeps_wf(&self, before: DbState, k: int)
        requires
            well_formed(before),
            0 <= k < before.platforms.len(),
            self@.entries == before.entries,
            self@.master_key == before.master_key,
            self@.platforms.len() == before.platforms.len(),
            forall|i: int| 0 <= i < before.platforms.len() && i != k ==> self@.platforms[i] == before.platforms[i],
            self@.platforms[k].id == before.platforms[k].id,
            forall|i: int| 0 <= i < before.platforms.len() && i != k ==> before.platforms[i].name != self@.platforms[k].name,
        ensures
            well_formed(self@),
    {
        assert forall|i: int| 0 <= i < self@.entries.len() implies has_platform(
            self@.platforms,
            #[trigger] self@.entries[i].platform_id,
        ) by {
            let pid = self@.entries[i].platform_id;
            assert(has_platform(before.platforms, pid));
            let j = choose|j: int| 0 <= j < before.platforms.len() && #[trigger] before.platforms[j].id == pid;
            assert(self@.platforms[j].id == before.platforms[j].id);
        }
        assert forall|i: int, j: int|
            0 <= i < self@.platforms.len() && 0 <= j < self@.platforms.len() && i != j implies #[trigger] self@.platforms[i].id
                != #[trigger] self@.platforms[j].id && self@.platforms[i].name != self@.platforms[j].name by {
            assert(self@.platforms[i].id == before.platforms[i].id);
            assert(self@.platforms[j].id == before.platforms[j].id);
        }
    }

    /// Sets both endpoints of platform `id`; an empty endpoint clears it.
    pub fn set_platform_endpoints(&mut self, id: &str, openai: &str, anthropic: &str) -> (r: Result<(), String>)
        requires
            old(self).wf(),
        ensures
            final(self).wf(),
            final(self)@ == spec_set_endpoints(old(self)@, id@, openai@, anthropic@).0,
            unit_result(r) == spec_set_endpoints(old(self)@, id@, openai@, anthropic@).1,
    {
        let eo = text::normalize_endpoint(openai)?;
        let ea = text::normalize_endpoint(anthropic)?;
        let key = String::from_str(id);
        let k = match self.find_platform(&key) {
            Some(k) => k,
            None => return Err(String::from_str("平台不存在")),
        };
        let ghost before = self@;
        let mut p = Self::duplicate_platform(&self.platforms[k]);
        p.endpoint_openai = eo;
        p.endpoint_anthropic = ea;
        self.platforms.set(k, p);
        proof {
            assert(self@.platforms =~= spec_set_endpoints(before, id@, openai@, anthropic@).0.platforms);
            assert forall|i: int| 0 <= i < before.platforms.len() && i != k implies before.platforms[i].name
                != self@.platforms[k as int].name by {
                assert(well_formed(before));
                assert(before.platforms[i].id != before.platforms[k as int].id);
                assert(self@.platforms[k as int].name == before.platforms[k as int].name);
            }
            self.lemma_platform_set_keeps_wf(before, k as int);
        }
        Ok(())
    }

    /// Renames platform `id`; a missing platform is not an error.
    pub fn rename_platform(&mut self, id: &str, name: &str) -> (r: Result<(), String>)
        requires
            old(self).wf(),
        ensures
            final(self).wf(),
            final(self)@ == spec_rename_platform(old(self)@, id@, name@).0,
            unit_result(r) == spec_rename_platform(old(self)@, id@, name@).1,
    {
        let name_t = trim(name);
        if name_t.unicode_len() == 0 {
            return Err(String::from_str("平台名称不能为空"));
        }
        let key = String::from_str(id);
        let k = match self.find_platform(&key) {
            Some(k) => k,
            None => return Ok(()),
        };
        let n = String::from_str(name_t);
        if self.find_platform_named(&n) && !(self.platforms[k].name == n) {
            return Err(String::from_str("平台已存在"));
        }
        let ghost before = self@;
        let mut p = Self::duplicate_platform(&self.platforms[k]);
        p.name = n;
        self.platforms.set(k, p);
        proof {
            assert(self@.platforms =~= spec_rename_platform(before, id@, name@).0.platforms);
            assert forall|i: int| 0 <= i < before.platforms.len() && i != k implies before.platforms[i].name
                != self@.platforms[k as int].name by {
                assert(well_formed(before));
                assert(before.platforms[i].id != before.platforms[k as int].id);
                if before.platforms[i].name == name_t@ {
                    assert(has_platform_named(before.platforms, name_t@));
                    assert(before.platforms[k as int].name == name_t@);
                }
            }
            self.lemma_platform_set_keeps_wf(before, k as int);
        }
        Ok(())
    }

    /// Deletes platform `id` and all of its entries, giving the number of entries
    /// deleted with it; a missing platform is not an error.
    #[verifier::spinoff_prover]
    pub fn delete_platform(&mut self, id: &str) -> (r: Result<usize, String>)
        requires
            old(self).wf(),
        ensures
            final(self).wf(),
            r == Ok::<usize, String>(count_of(old(self)@.entries, id@) as usize),
            final(self)@ == spec_delete_platform(old(self)@, id@),
            forall|i: int| 0 <= i < final(self)@.entries.len() ==> #[trigger] final(self)@.entries[i].platform_id != id@,
    {
        let ghost before = self@;
        let key = String::from_str(id);
        let found = self.find_platform(&key);
        let mut kept: Vec<EntryRecord> = Vec::new();
        let mut removed: usize = 0;
        let mut i: usize = 0;
        while i < self.entries.len()
            invariant
                i <= self.entries.len(),
                self@ == before,
                key@ == id@,
                kept@.map_values(|e: EntryRecord| e@) == entries_outside(before.entries.subrange(0, i as int), id@),
                removed <= i,
                removed as nat == count_of(before.entries.subrange(0, i as int), id@),
            decreases self.entries.len() - i,
        {
            let ghost prefix = before.entries.subrange(0, i as int);
            let ghost next = before.entries.subrange(0, i + 1);
            assert(next.drop_last() =~= prefix);
            if !(self.entries[i].platform_id == key) {
                let e = Self::duplicate_entry(&self.entries[i]);
                let ghost kept_before = kept@;
                kept.push(e);
                assert(kept@.map_values(|e: EntryRecord| e@) =~= kept_before.map_values(|e: EntryRecord| e@).push(e@));
            } else {
                removed += 1;
            }
            i += 1;
        }
        assert(before.entries.subrange(0, before.entries.len() as int) =~= before.entries);
        self.entries = kept;
        if let Some(k) = found {
            let _ = self.platforms.remove(k);
            assert(self@.platforms =~= before.platforms.remove(k as int));
        }
        proof {
            assert(self@.entries =~= entries_outside(before.entries, id@));
            lemma_entries_outside(before.entries, id@);
            assert(well_formed(self@)) by {
                assert forall|i: int| 0 <= i < self@.entries.len() implies has_platform(
                    self@.platforms,
                    #[trigger] self@.entries[i].platform_id,
                ) by {
                    let j = choose|j: int| 0 <= j < before.entries.len() && before.entries[j] == #[trigger] entries_outside(before.entries, id@)[i];
                    let pid = before.entries[j].platform_id;
                    assert(has_platform(before.platforms, pid));
                    let q = choose|q: int| 0 <= q < before.platforms.len() && #[trigger] before.platforms[q].id == pid;
                    if found is Some {
                        let k = found->0 as int;
                        assert(q != k);
                        if q < k {
                            assert(self@.platforms[q] == before.platforms[q]);
                        } else {
                            assert(self@.platforms[q - 1] == before.platforms[q]);
                        }
                    } else {
                        assert(self@.platforms[q] == before.platforms[q]);
                    }
                }
                assert forall|i: int, j: int|
                    0 <= i < self@.platforms.len() && 0 <= j < self@.platforms.len() && i != j implies #[trigger] self@.platforms[i].id
                        != #[trigger] self@.platforms[j].id && self@.platforms[i].name != self@.platforms[j].name by {
                    if found is Some {
                        let k = found->0 as int;
                        let bi = if i < k { i } else { i + 1 };
                        let bj = if j < k { j } else { j + 1 };
                        assert(self@.platforms[i] == before.platforms[bi]);
                        assert(self@.platforms[j] == before.platforms[bj]);
                        assert(bi != bj);
                        assert(before.platforms[bi].id != before.platforms[bj].id);
                    } else {
                        assert(self@.platforms == before.platforms);
                        assert(before.platforms[i].id != before.platforms[j].id);
                    }
                }
            }
        }
        Ok(removed)
    }

    fn rank_of(last_copied_at: Option<i64>, created_at: i64) -> (r: Rank)
        ensures
            r == use_rank(last_copied_at, created_at),
    {
        match last_copied_at {
            Some(t) => (1i128, t as i128, created_at as i128),
            None => (0i128, 0i128, created_at as i128),
        }
    }

    /// Key count and last copy time of platform `platform_id`.
    fn platform_usage(&self, platform_id: &String) -> (r: (usize, Option<i64>))
        ensures
            r.0 as nat == count_of(self@.entries, platform_id@),
            r.1 == last_copied(self@.entries, platform_id@),
    {
        let mut count: usize = 0;
        let mut latest: Option<i64> = None;
        let mut i: usize = 0;
        while i < self.entries.len()
            invariant
                i <= self.entries.len(),
                count <= i,
                count as nat == count_of(self@.entries.subrange(0, i as int), platform_id@),
                latest == last_copied(self@.entries.subrange(0, i as int), platform_id@),
            decreases self.entries.len() - i,
        {
            let ghost prefix = self@.entries.subrange(0, i as int);
            let ghost next = self@.entries.subrange(0, i + 1);
            assert(next.drop_last() =~= prefix);
            if self.entries[i].platform_id == *platform_id {
                count += 1;
                latest = match (latest, self.entries[i].last_copied_at) {
                    (None, y) => y,
                    (x, None) => x,
                    (Some(x), Some(y)) => Some(if x >= y { x } else { y }),
                };
            }
            i += 1;
        }
        assert(self@.entries.subrange(0, i as int) =~= self@.entries);
        (count, latest)
    }

    /// All platforms with their key counts, most recently used first.
    pub fn list_platforms(&self) -> (r: Result<Vec<PlatformDto>, String>)
        ensures
            r matches Ok(out) && out@.len() == self@.platforms.len()
                && lists_platforms(self@, out@.map_values(|d: PlatformDto| d@)),
    {
        let n = self.platforms.len();
        let mut ranks: Vec<Rank> = Vec::new();
        let mut i: usize = 0;
        while i < n
            invariant
                i <= n,
                n == self@.platforms.len(),
                ranks@.len() == i,
                forall|k: int| 0 <= k < i ==> #[trigger] ranks@[k] == platform_ranks(self@)[k],
            decreases n - i,
        {
            let usage = self.platform_usage(&self.platforms[i].id);
            ranks.push(Self::rank_of(usage.1, self.platforms[i].created_at));
            i += 1;
        }
        assert(ranks@ =~= platform_ranks(self@));
        let order = rank_order(&ranks);
        let mut out: Vec<PlatformDto> = Vec::new();
        let mut k: usize = 0;
        while k < n
            invariant
                k <= n,
                n == self@.platforms.len(),
                is_permutation(order@, n as int),
                out@.len() == k,
                forall|q: int| 0 <= q < k ==> #[trigger] out@[q]@ == platform_info(self@, self@.platforms[order@[q] as int]),
            decreases n - k,
        {
            let p = &self.platforms[order[k]];
            let usage = self.platform_usage(&p.id);
            out.push(PlatformDto {
                id: p.id.clone(),
                name: p.name.clone(),
                color: p.color.clone(),
                endpoint_openai: p.endpoint_openai.clone(),
                endpoint_anthropic: p.endpoint_anthropic.clone(),
                key_count: usage.0 as i64,
                last_copied_at: usage.1,
            });
            k += 1;
        }
        proof {
            let view = out@.map_values(|d: PlatformDto| d@);
            assert forall|q: int| 0 <= q < view.len() implies #[trigger] view[q] == platform_info(
                self@,
                self@.platforms[order@[q] as int],
            ) by {
                assert(view[q] == out@[q]@);
            }
            assert(is_permutation(order@, self@.platforms.len() as int));
        }
        Ok(out)
    }

    /// All entries with masked keys, most recently copied first; fails when a
    /// stored key does not decrypt.
    pub fn list_entries(&self) -> (r: Result<Vec<EntryDto>, String>)
        ensures
            r is Ok <==> all_readable(self@),
            r matches Ok(out) ==> out@.len() == self@.entries.len()
                && lists_entries(self@, out@.map_values(|d: EntryDto| d@)),
            r matches Err(e) ==> exists|i: int|
                0 <= i < self@.entries.len() && #[trigger] revealed_text(self@.master_key, self@.entries[i].key_encrypted)
                    == Err::<Seq<char>, Seq<char>>(e@),
    {
        let n = self.entries.len();
        let mut ranks: Vec<Rank> = Vec::new();
        let mut i: usize = 0;
        while i < n
            invariant
                i <= n,
                n == self@.entries.len(),
                ranks@.len() == i,
                forall|k: int| 0 <= k < i ==> #[trigger] ranks@[k] == entry_ranks(self@)[k],
            decreases n - i,
        {
            ranks.push(Self::rank_of(self.entries[i].last_copied_at, self.entries[i].created_at));
            i += 1;
        }
        assert(ranks@ =~= entry_ranks(self@));
        let order = rank_order(&ranks);
        let mut out: Vec<EntryDto> = Vec::new();
        let mut k: usize = 0;
        while k < n
            invariant
                k <= n,
                n == self@.entries.len(),
                is_permutation(order@, n as int),
                out@.len() == k,
                forall|q: int| 0 <= q < k ==> revealed_text(self@.master_key, self@.entries[#[trigger] order@[q] as int].key_encrypted) is Ok,
                forall|q: int| 0 <= q < k ==> #[trigger] out@[q]@ == entry_info(
                    self@.entries[order@[q] as int],
                    revealed_text(self@.master_key, self@.entries[order@[q] as int].key_encrypted)->Ok_0,
                ),
            decreases n - k,
        {
            let e = &self.entries[order[k]];
            let plain = self.decrypt_blob(e.key_encrypted.as_slice());
            let plain = match plain {
                Ok(t) => t,
                Err(msg) => {
                    proof {
                        let j = order@[k as int] as int;
                        assert(revealed_text(self@.master_key, self@.entries[j].key_encrypted) == Err::<Seq<char>, Seq<char>>(msg@));
                    }
                    return Err(msg);
                },
            };
            out.push(EntryDto {
                id: e.id.clone(),
                platform_id: e.platform_id.clone(),
                name: e.name.clone(),
                masked_key: mask_key(plain.as_str()),
                copy_count: e.copy_count,
                last_copied_at: e.last_copied_at,
                created_at: e.created_at,
            });
            k += 1;
        }
        proof {
            let view = out@.map_values(|d: EntryDto| d@);
            assert forall|q: int| 0 <= q < view.len() implies #[trigger] view[q] == entry_info(
                self@.entries[order@[q] as int],
                revealed_text(self@.master_key, self@.entries[order@[q] as int].key_encrypted)->Ok_0,
            ) by {
                assert(view[q] == out@[q]@);
            }
            assert forall|i: int| 0 <= i < self@.entries.len() implies #[trigger] revealed_text(
                self@.master_key,
                self@.entries[i].key_encrypted,
            ) is Ok by {
                crate::order::lemma_permutation_covers(order@, n as int, i);
            }
        }
        Ok(out)
    }

    /// Every platform and every entry (with plaintext key), oldest first, for a
    /// backup; fails when a stored key does not decrypt.
    pub fn dump_all(&self) -> (r: Result<(Vec<PlatformTuple>, Vec<EntryTuple>), String>)
        requires
            self.wf(),
        ensures
            r is Ok <==> all_readable(self@),
            r matches Ok(d) ==> d.0@.len() == self@.platforms.len() && dumps_platforms(
                self@,
                d.0@.map_values(|t: PlatformTuple| t@),
            ),
            r matches Ok(d) ==> d.1@.len() == self@.entries.len() && dumps_entries(
                self@,
                d.1@.map_values(|t: EntryTuple| t@),
            ),
            r matches Err(e) ==> exists|i: int|
                0 <= i < self@.entries.len() && #[trigger] revealed_text(self@.master_key, self@.entries[i].key_encrypted)
                    == Err::<Seq<char>, Seq<char>>(e@),
    {
        let np = self.platforms.len();
        let mut pranks: Vec<Rank> = Vec::new();
        let mut i: usize = 0;
        while i < np
            invariant
                i <= np,
                np == self@.platforms.len(),
                pranks@.len() == i,
                forall|k: int| 0 <= k < i ==> #[trigger] pranks@[k] == platform_creation_ranks(self@)[k],
            decreases np - i,
        {
            pranks.push((0i128, 0i128, -(self.platforms[i].created_at as i128)));
            i += 1;
        }
        assert(pranks@ =~= platform_creation_ranks(self@));
        let porder = rank_order(&pranks);
        let mut platforms: Vec<PlatformTuple> = Vec::new();
        let mut k: usize = 0;
        while k < np
            invariant
                k <= np,
                np == self@.platforms.len(),
                is_permutation(porder@, np as int),
                platforms@.len() == k,
                forall|q: int| 0 <= q < k ==> #[trigger] platforms@[q]@ == platform_fields(self@.platforms[porder@[q] as int]),
            decreases np - k,
        {
            let p = &self.platforms[porder[k]];
            platforms.push((p.name.clone(), p.color.clone(), p.endpoint_openai.clone(), p.endpoint_anthropic.clone()));
            k += 1;
        }
        let ne = self.entries.len();
        let mut eranks: Vec<Rank> = Vec::new();
        let mut i: usize = 0;
        while i < ne
            invariant
                i <= ne,
                ne == self@.entries.len(),
                eranks@.len() == i,
                forall|k: int| 0 <= k < i ==> #[trigger] eranks@[k] == entry_creation_ranks(self@)[k],
            decreases ne - i,
        {
            eranks.push((0i128, 0i128, -(self.entries[i].created_at as i128)));
            i += 1;
        }
        assert(eranks@ =~= entry_creation_ranks(self@));
        let eorder = rank_order(&eranks);
        let mut entries: Vec<EntryTuple> = Vec::new();
        let mut k: usize = 0;
        while k < ne
            invariant
                self.wf(),
                k <= ne,
                ne == self@.entries.len(),
                is_permutation(eorder@, ne as int),
                entries@.len() == k,
                forall|q: int| 0 <= q < k ==> revealed_text(self@.master_key, self@.entries[#[trigger] eorder@[q] as int].key_encrypted) is Ok,
                forall|q: int| 0 <= q < k ==> #[trigger] entries@[q]@ == entry_fields(self@, self@.entries[eorder@[q] as int]),
            decreases ne - k,
        {
            let e = &self.entries[eorder[k]];
            let plain = match self.decrypt_blob(e.key_encrypted.as_slice()) {
                Ok(t) => t,
                Err(msg) => {
                    proof {
                        let j = eorder@[k as int] as int;
                        assert(revealed_text(self@.master_key, self@.entries[j].key_encrypted) == Err::<Seq<char>, Seq<char>>(msg@));
                    }
                    return Err(msg);
                },
            };
            let pos = self.find_platform(&e.platform_id);
            proof {
                let j = eorder@[k as int] as int;
                assert(has_platform(self@.platforms, self@.entries[j].platform_id));
            }
            let pname = match pos {
                Some(q) => self.platforms[q].name.clone(),
                None => String::new(),
            };
            entries.push((pname, e.name.clone(), plain, e.copy_count, e.last_copied_at, e.created_at));
            k += 1;
        }
        proof {
            let pv = platforms@.map_values(|t: PlatformTuple| t@);
            assert forall|q: int| 0 <= q < pv.len() implies #[trigger] pv[q] == platform_fields(
                self@.platforms[porder@[q] as int],
            ) by {
                assert(pv[q] == platforms@[q]@);
            }
            assert(is_permutation(porder@, self@.platforms.len() as int));
            let ev = entries@.map_values(|t: EntryTuple| t@);
            assert forall|q: int| 0 <= q < ev.len() implies #[trigger] ev[q] == entry_fields(
                self@,
                self@.entries[eorder@[q] as int],
            ) by {
                assert(ev[q] == entries@[q]@);
            }
            assert(is_permutation(eorder@, self@.entries.len() as int));
            assert forall|i: int| 0 <= i < self@.entries.len() implies #[trigger] revealed_text(
                self@.master_key,
                self@.entries[i].key_encrypted,
            ) is Ok by {
                crate::order::lemma_permutation_covers(eorder@, ne as int, i);
            }
        }
        Ok((platforms, entries))
    }

    /// The id of the platform named `name`, if there is one.
    fn platform_id_by_name(&self, name: &String) -> (r: Option<String>)
        requires
            self.wf(),
        ensures
            r is Some <==> has_platform_named(self@.platforms, name@),
            r matches Some(id) ==> id@ == platform_id_named(self@.platforms, name@)
                && has_platform(self@.platforms, id@),
    {
        let mut i: usize = 0;
        while i < self.platforms.len()
            invariant
                self.wf(),
                i <= self.platforms.len(),
                forall|j: int| 0 <= j < i ==> self@.platforms[j].name != name@,
            decreases self.platforms.len() - i,
        {
            if self.platforms[i].name == *name {
                proof {
                    let ps = self@.platforms;
                    assert(ps[i as int].name == name@);
                    let k = choose|k: int| 0 <= k < ps.len() && #[trigger] ps[k].name == name@;
                    assert(0 <= k < ps.len() && ps[k].name == name@);
                    assert(well_formed(self@));
                    if k != i {
                        assert(ps[k].id != ps[i as int].id);
                    }
                    assert(k == i as int);
                    assert(platform_id_named(ps, name@) == ps[i as int].id);
                }
                return Some(self.platforms[i].id.clone());
            }
            i += 1;
        }
        None
    }

    /// Restores backed-up platforms (merged by name: a platform whose name exists is
    /// reused) and entries (all added, each under the platform of its platform name;
    /// entries whose platform is unknown are skipped). Gives the number of entries
    /// added. Fresh ids, nonces and times come from the environment.
    pub fn restore_all(&mut self, platforms: &[PlatformTuple], entries: &[EntryTuple]) -> (r: Result<usize, String>)
        requires
            old(self).wf(),
        ensures
            final(self).wf(),
            restore_outcome(old(self)@, final(self)@, platform_tuples(platforms@), entry_tuples(entries@), count_result(r)),
    {
        let mut pids: Vec<String> = Vec::new();
        let mut ptimes: Vec<i64> = Vec::new();
        let mut j: usize = 0;
        while j < platforms.len()
            invariant
                j <= platforms@.len(),
                pids@.len() == j,
                ptimes@.len() == j,
            decreases platforms@.len() - j,
        {
            pids.push(clock::new_id());
            ptimes.push(clock::now_ms());
            j += 1;
        }
        let mut eids: Vec<String> = Vec::new();
        let mut nonces: Vec<[u8; NONCE_LEN]> = Vec::new();
        let mut etimes: Vec<i64> = Vec::new();
        let mut j: usize = 0;
        while j < entries.len()
            invariant
                j <= entries@.len(),
                eids@.len() == j,
                nonces@.len() == j,
                etimes@.len() == j,
            decreases entries@.len() - j,
        {
            eids.push(clock::new_id());
            let mut nonce = [0u8; NONCE_LEN];
            crypto::fill_random(&mut nonce);
            nonces.push(nonce);
            etimes.push(clock::now_ms());
            j += 1;
        }
        self.restore_all_with(
            platforms,
            entries,
            pids.as_slice(),
            ptimes.as_slice(),
            eids.as_slice(),
            nonces.as_slice(),
            etimes.as_slice(),
        )
    }

    /// Restores a backup as `restore_all` does, with the given fresh platform ids and
    /// times (one per backed-up platform) and entry ids, nonces and times (one per
    /// backed-up entry).
    #[verifier::spinoff_prover]
    pub fn restore_all_with(
        &mut self,
        platforms: &[PlatformTuple],
        entries: &[EntryTuple],
        pids: &[String],
        ptimes: &[i64],
        eids: &[String],
        nonces: &[[u8; NONCE_LEN]],
        etimes: &[i64],
    ) -> (r: Result<usize, String>)
        requires
            old(self).wf(),
            pids@.len() == platforms@.len(),
            ptimes@.len() == platforms@.len(),
            eids@.len() == entries@.len(),
            nonces@.len() == entries@.len(),
            etimes@.len() == entries@.len(),
        ensures
            final(self).wf(),
            final(self)@ == spec_restore(
                old(self)@,
                platform_tuples(platforms@),
                entry_tuples(entries@),
                text_views(pids@),
                ptimes@,
                text_views(eids@),
                nonce_views(nonces@),
                etimes@,
            ).0,
            count_result(r) == spec_restore(
                old(self)@,
                platform_tuples(platforms@),
                entry_tuples(entries@),
                text_views(pids@),
                ptimes@,
                text_views(eids@),
                nonce_views(nonces@),
                etimes@,
            ).1,
            restore_outcome(old(self)@, final(self)@, platform_tuples(platforms@), entry_tuples(entries@), count_result(r)),
    {
        let ghost start = self@;
        let ghost pts = platform_tuples(platforms@);
        let ghost ets = entry_tuples(entries@);
        let ghost pid_all = text_views(pids@);
        let ghost eid_all = text_views(eids@);
        let ghost nonce_all = nonce_views(nonces@);
        let ghost given_ptimes = ptimes@;
        let ghost given_etimes = etimes@;
        let ghost mut gp_ids: Seq<Seq<char>> = Seq::empty();
        let ghost mut gp_times: Seq<i64> = Seq::empty();
        let mut j: usize = 0;
        while j < platforms.len()
            invariant
                self.wf(),
                j <= platforms@.len(),
                pts == platform_tuples(platforms@),
                gp_ids.len() == j,
                gp_times.len() == j,
                pids@.len() == platforms@.len(),
                ptimes@.len() == platforms@.len(),
                pid_all == text_views(pids@),
                given_ptimes == ptimes@,
                gp_ids == pid_all.subrange(0, j as int),
                gp_times == given_ptimes.subrange(0, j as int),
                self@.platforms == merge_platforms(start.platforms, pts.subrange(0, j as int), gp_ids, gp_times),
                self@.platforms.subrange(0, start.platforms.len() as int) == start.platforms,
                self@.platforms.len() >= start.platforms.len(),
                self@.entries == start.entries,
                self@.master_key == start.master_key,
            decreases platforms@.len() - j,
        {
            let t = &platforms[j];
            let color = if Self::is_palette_color(t.1.as_str()) {
                t.1.clone()
            } else {
                String::from_str("blue")
            };
            let eo = match text::normalize_endpoint(t.2.as_str()) {
                Ok(v) => v,
                Err(_) => String::new(),
            };
            let ea = match text::normalize_endpoint(t.3.as_str()) {
                Ok(v) => v,
                Err(_) => String::new(),
            };
            let id = pids[j].clone();
            let now = ptimes[j];
            let ghost prev_ids = gp_ids;
            let ghost prev_times = gp_times;
            proof {
                gp_ids = gp_ids.push(id@);
                gp_times = gp_times.push(now);
                assert(gp_ids =~= pid_all.subrange(0, j + 1));
                assert(gp_times =~= given_ptimes.subrange(0, j + 1));
                assert(pts.subrange(0, j + 1).drop_last() =~= pts.subrange(0, j as int));
                assert(gp_ids.drop_last() =~= prev_ids);
                assert(gp_times.drop_last() =~= prev_times);
                assert(pts.subrange(0, j + 1).last() == t@);
            }
            if !(self.find_platform_named(&t.0) || self.find_platform(&id).is_some()) {
                let ghost before = self@;
                let record = PlatformRecord {
                    id,
                    name: t.0.clone(),
                    color,
                    endpoint_openai: eo,
                    endpoint_anthropic: ea,
                    created_at: now,
                };
                self.platforms.push(record);
                proof {
                    assert(self@.platforms =~= before.platforms.push(record@));
                    assert(self@.entries =~= before.entries);
                    assert(self@ == with_platforms(before, before.platforms.push(record@)));
                    lemma_push_platform_keeps_wf(before, self@, record@);
                    assert(self@.platforms.subrange(0, start.platforms.len() as int) =~= start.platforms) by {
                        assert forall|q: int| 0 <= q < start.platforms.len() implies self@.platforms[q] == start.platforms[q] by {
                            assert(self@.platforms[q] == before.platforms[q]);
                            assert(before.platforms.subrange(0, start.platforms.len() as int)[q] == start.platforms[q]);
                        }
                    }
                }
            }
            j += 1;
        }
        proof {
            assert(pts.subrange(0, j as int) =~= pts);
            assert(gp_ids =~= pid_all);
            assert(gp_times =~= given_ptimes);
        }
        let ghost merged = self@.platforms;
        let ghost mut ge_ids: Seq<Seq<char>> = Seq::empty();
        let ghost mut ge_nonces: Seq<Seq<u8>> = Seq::empty();
        let ghost mut ge_times: Seq<i64> = Seq::empty();
        let mut count: usize = 0;
        let mut j: usize = 0;
        while j < entries.len()
            invariant
                self.wf(),
                j <= entries@.len(),
                ets == entry_tuples(entries@),
                start == old(self)@,
                pts == platform_tuples(platforms@),
                gp_ids.len() == pts.len(),
                gp_times.len() == pts.len(),
                merged == merge_platforms(start.platforms, pts, gp_ids, gp_times),
                merged.len() >= start.platforms.len(),
                merged.subrange(0, start.platforms.len() as int) == start.platforms,
                ge_ids.len() == j,
                ge_nonces.len() == j,
                ge_times.len() == j,
                pid_all == gp_ids,
                given_ptimes == gp_times,
                pid_all == text_views(pids@),
                given_ptimes == ptimes@,
                eids@.len() == entries@.len(),
                nonces@.len() == entries@.len(),
                etimes@.len() == entries@.len(),
                eid_all == text_views(eids@),
                nonce_all == nonce_views(nonces@),
                given_etimes == etimes@,
                ge_ids == eid_all.subrange(0, j as int),
                ge_nonces == nonce_all.subrange(0, j as int),
                ge_times == given_etimes.subrange(0, j as int),
                forall|q: int| 0 <= q < ge_nonces.len() ==> #[trigger] ge_nonces[q].len() == NONCE_LEN,
                self@.platforms == merged,
                self@.master_key == start.master_key,
                count <= j,
                (self@.entries, Ok::<nat, Seq<char>>(count as nat)) == restore_entries(
                    merged,
                    start.entries,
                    start.master_key,
                    ets.subrange(0, j as int),
                    ge_ids,
                    ge_nonces,
                    ge_times,
                ),
                self@.entries.len() == start.entries.len() + count,
                self@.entries.subrange(0, start.entries.len() as int) == start.entries,
                forall|i: int|
                    start.entries.len() <= i < self@.entries.len() ==> exists|q: int|
                        0 <= q < ets.len() && restored_entry(self@, #[trigger] self@.entries[i], ets[q]),
                forall|q: int|
                    0 <= q < j && has_platform_named(merged, ets[q].0) ==> #[trigger] seal_opens(
                        start.master_key,
                        ge_nonces[q],
                        encode_utf8(ets[q].2),
                    ),
            decreases entries@.len() - j,
        {
            let t = &entries[j];
            let id = eids[j].clone();
            let nonce = nonces[j];
            let now = etimes[j];
            let ghost prev_ids = ge_ids;
            let ghost prev_nonces = ge_nonces;
            let ghost prev_times = ge_times;
            proof {
                ge_ids = ge_ids.push(id@);
                ge_nonces = ge_nonces.push(nonce@);
                ge_times = ge_times.push(now);
                assert(ge_ids =~= eid_all.subrange(0, j + 1));
                assert(ge_nonces =~= nonce_all.subrange(0, j + 1));
                assert(ge_times =~= given_etimes.subrange(0, j + 1));
                assert(ets.subrange(0, j + 1).drop_last() =~= ets.subrange(0, j as int));
                assert(ge_ids.drop_last() =~= prev_ids);
                assert(ge_nonces.drop_last() =~= prev_nonces);
                assert(ge_times.drop_last() =~= prev_times);
                assert(ets.subrange(0, j + 1).last() == t@);
            }
            match self.platform_id_by_name(&t.0) {
                None => {},
                Some(pid) => {
                    let blob = match crypto::encrypt_with_nonce(&self.master_key, &nonce, t.2.as_str().as_bytes()) {
                        Ok(b) => b,
                        Err(e) => {
                            proof {
                                assert(encode_utf8(t.2@).len() > PLAINTEXT_MAX);
                                assert(ets.subrange(0, j + 1).last().0 == t.0@);
                                assert(restore_entries(merged, start.entries, start.master_key, ets.subrange(0, j + 1), ge_ids, ge_nonces, ge_times)
                                    == (self@.entries, Err::<nat, Seq<char>>(e@)));
                                lemma_restore_error_stays(merged, start.entries, start.master_key, ets, eid_all, nonce_all, given_etimes, j + 1);
                                assert forall|q: int| 0 <= q < nonce_all.len() implies #[trigger] nonce_all[q].len() == NONCE_LEN by {
                                    assert(nonce_all[q] == nonces@[q]@);
                                }
                                assert(restore_witness(start, self@, pts, ets, Err::<nat, Seq<char>>(e@), pid_all, given_ptimes, eid_all, nonce_all, given_etimes));
                                assert(restore_entries(merged, start.entries, start.master_key, ets, eid_all, nonce_all, given_etimes)
                                    == (self@.entries, Err::<nat, Seq<char>>(e@)));
                                assert(spec_restore(start, pts, ets, pid_all, given_ptimes, eid_all, nonce_all, given_etimes).0 =~= self@);
                            }
                            return Err(e);
                        },
                    };
                    if self.find_entry(&id).is_some() {
                        let e = String::from_str("UNIQUE constraint failed: key_entry.id");
                        proof {
                            lemma_restore_error_stays(merged, start.entries, start.master_key, ets, eid_all, nonce_all, given_etimes, j + 1);
                            assert forall|q: int| 0 <= q < nonce_all.len() implies #[trigger] nonce_all[q].len() == NONCE_LEN by {
                                assert(nonce_all[q] == nonces@[q]@);
                            }
                            assert(restore_witness(start, self@, pts, ets, Err::<nat, Seq<char>>(e@), pid_all, given_ptimes, eid_all, nonce_all, given_etimes));
                        }
                        return Err(e);
                    }
                    let ghost before = self@;
                    let record = EntryRecord {
                        id,
                        platform_id: pid,
                        name: t.1.clone(),
                        key_encrypted: blob,
                        copy_count: t.3,
                        last_copied_at: t.4,
                        created_at: t.5,
                        updated_at: now,
                    };
                    self.entries.push(record);
                    count += 1;
                    proof {
                        assert(self@.entries =~= before.entries.push(record@));
                        assert(self@.platforms =~= before.platforms);
                        assert(self@ == with_entries(before, before.entries.push(record@)));
                        lemma_push_entry_keeps_wf(before, self@, record@);
                        assert(self@.entries.subrange(0, start.entries.len() as int) =~= start.entries) by {
                            assert forall|q: int| 0 <= q < start.entries.len() implies self@.entries[q] == start.entries[q] by {
                                assert(self@.entries[q] == before.entries[q]);
                                assert(before.entries.subrange(0, start.entries.len() as int)[q] == start.entries[q]);
                            }
                        }
                        crypto::lemma_decrypt_encrypted(self@.master_key, encode_utf8(t.2@), record@.key_encrypted);
                        assert(restored_entry(self@, record@, ets[j as int]));
                        assert(record@.key_encrypted.subrange(0, NONCE_LEN as int) =~= nonce@);
                        assert(record@.key_encrypted.subrange(NONCE_LEN as int, record@.key_encrypted.len() as int)
                            =~= aes256gcm_seal(start.master_key, nonce@, encode_utf8(t.2@)));
                        assert(seal_opens(start.master_key, ge_nonces[j as int], encode_utf8(ets[j as int].2)));
                        assert forall|i: int|
                            start.entries.len() <= i < self@.entries.len() implies exists|q: int|
                                0 <= q < ets.len() && restored_entry(self@, #[trigger] self@.entries[i], ets[q]) by {
                            if i < before.entries.len() {
                                assert(self@.entries[i] == before.entries[i]);
                                let q = choose|q: int| 0 <= q < ets.len() && restored_entry(before, #[trigger] before.entries[i], ets[q]);
                                assert(restored_entry(self@, self@.entries[i], ets[q]));
                            } else {
                                assert(self@.entries[i] == record@);
                            }
                        }
                    }
                },
            }
            j += 1;
        }
        proof {
            assert(ets.subrange(0, j as int) =~= ets);
            assert(ge_ids =~= eid_all);
            assert(ge_nonces =~= nonce_all);
            assert(ge_times =~= given_etimes);
            assert(spec_restore(start, pts, ets, gp_ids, gp_times, ge_ids, ge_nonces, ge_times).0 == self@);
            assert(restore_witness(start, self@, pts, ets, Ok::<nat, Seq<char>>(count as nat), gp_ids, gp_times, ge_ids, ge_nonces, ge_times));
        }
        Ok(count)
    }

    /// The stored platform rows, for persisting them.
    pub fn platform_records(&self) -> (r: &Vec<PlatformRecord>)
        ensures
            r@.map_values(|p: PlatformRecord| p@) == self@.platforms,
    {
        &self.platforms
    }

    /// The stored entry rows, for persisting them.
    pub fn entry_records(&self) -> (r: &Vec<EntryRecord>)
        ensures
            r@.map_values(|e: EntryRecord| e@) == self@.entries,
    {
        &self.entries
    }

    /// Whether the platform rows have distinct ids and distinct names.
    #[verifier::spinoff_prover]
    fn platforms_distinct(ps: &Vec<PlatformRecord>) -> (ok: bool)
        ensures
            ok ==> (forall|a: int, b: int|
                0 <= a < ps@.len() && 0 <= b < ps@.len() && a != b ==> #[trigger] ps@[a]@.id != #[trigger] ps@[b]@.id
                    && ps@[a]@.name != ps@[b]@.name),
            !ok ==> (exists|a: int, b: int|
                #![trigger ps@[a], ps@[b]]
                0 <= a < ps@.len() && 0 <= b < ps@.len() && a != b && (ps@[a]@.id == ps@[b]@.id
                    || ps@[a]@.name == ps@[b]@.name)),
    {
        let n = ps.len();
        let mut i: usize = 0;
        while i < n
            invariant
                n == ps@.len(),
                i <= n,
                forall|a: int, b: int|
                    0 <= a < i && 0 <= b < n && a != b ==> #[trigger] ps@[a]@.id != #[trigger] ps@[b]@.id
                        && ps@[a]@.name != ps@[b]@.name,
            decreases n - i,
        {
            let mut j: usize = 0;
            while j < n
                invariant
                    n == ps@.len(),
                    i < n,
                    j <= n,
                    forall|a: int, b: int|
                        0 <= a < i && 0 <= b < n && a != b ==> #[trigger] ps@[a]@.id != #[trigger] ps@[b]@.id
                            && ps@[a]@.name != ps@[b]@.name,
                    forall|b: int| 0 <= b < j && b != i ==> ps@[i as int]@.id != #[trigger] ps@[b]@.id
                        && ps@[i as int]@.name != ps@[b]@.name,
                decreases n - j,
            {
                let same_id = ps[i].id == ps[j].id;
                let same_name = ps[i].name == ps[j].name;
                assert(same_id == (ps@[i as int]@.id == ps@[j as int]@.id));
                assert(same_name == (ps@[i as int]@.name == ps@[j as int]@.name));
                if j != i && (same_id || same_name) {
                    proof {
                        let a = i as int;
                        let b = j as int;
                        assert(0 <= a < n && 0 <= b < n && a != b);
                        assert(ps@[a]@.id == ps@[b]@.id || ps@[a]@.name == ps@[b]@.name);
                    }
                    return false;
                }
                assert forall|b: int| 0 <= b < j + 1 && b != i implies ps@[i as int]@.id
                    != #[trigger] ps@[b]@.id && ps@[i as int]@.name != ps@[b]@.name by {
                    if b == j {
                        assert(!same_id && !same_name);
                    }
                }
                j += 1;
            }
            i += 1;
        }
        true
    }

    /// Whether the entry rows have distinct ids.
    #[verifier::spinoff_prover]
    fn entries_distinct(es: &Vec<EntryRecord>) -> (ok: bool)
        ensures
            ok ==> (forall|a: int, b: int|
                0 <= a < es@.len() && 0 <= b < es@.len() && a != b ==> #[trigger] es@[a]@.id != #[trigger] es@[b]@.id),
            !ok ==> (exists|a: int, b: int|
                0 <= a < es@.len() && 0 <= b < es@.len() && a != b && #[trigger] es@[a]@.id == #[trigger] es@[b]@.id),
    {
        let n = es.len();
        let mut i: usize = 0;
        while i < n
            invariant
                n == es@.len(),
                i <= n,
                forall|a: int, b: int| 0 <= a < i && 0 <= b < n && a != b ==> #[trigger] es@[a]@.id != #[trigger] es@[b]@.id,
            decreases n - i,
        {
            let mut j: usize = 0;
            while j < n
                invariant
                    n == es@.len(),
                    i < n,
                    j <= n,
                    forall|a: int, b: int| 0 <= a < i && 0 <= b < n && a != b ==> #[trigger] es@[a]@.id != #[trigger] es@[b]@.id,
                    forall|b: int| 0 <= b < j && b != i ==> es@[i as int]@.id != #[trigger] es@[b]@.id,
                decreases n - j,
            {
                let same_id = es[i].id == es[j].id;
                if j != i && same_id {
                    proof {
                        let a = i as int;
                        let b = j as int;
                        assert(0 <= a < n && 0 <= b < n && a != b);
                        assert(es@[a]@.id == es@[b]@.id);
                    }
                    return false;
                }
                assert forall|b: int| 0 <= b < j + 1 && b != i implies es@[i as int]@.id != #[trigger] es@[b]@.id by {
                    if b == j {
                        assert(!same_id);
                    }
                }
                j += 1;
            }
            i += 1;
        }
        true
    }

    /// Whether every entry row refers to a platform row.
    #[verifier::spinoff_prover]
    fn entries_have_platforms(ps: &Vec<PlatformRecord>, es: &Vec<EntryRecord>) -> (ok: bool)
        ensures
            ok ==> (forall|a: int| 0 <= a < es@.len() ==> has_platform(ps@.map_values(|p: PlatformRecord| p@), #[trigger] es@[a]@.platform_id)),
            !ok ==> (exists|a: int| 0 <= a < es@.len() && !has_platform(ps@.map_values(|p: PlatformRecord| p@), #[trigger] es@[a]@.platform_id)),
    {
        let ghost rows = ps@.map_values(|p: PlatformRecord| p@);
        let mut i: usize = 0;
        while i < es.len()
            invariant
                i <= es@.len(),
                rows == ps@.map_values(|p: PlatformRecord| p@),
                forall|a: int| 0 <= a < i ==> has_platform(rows, #[trigger] es@[a]@.platform_id),
            decreases es@.len() - i,
        {
            let mut found = false;
            let mut k: usize = 0;
            while k < ps.len()
                invariant
                    i < es@.len(),
                    k <= ps@.len(),
                    rows == ps@.map_values(|p: PlatformRecord| p@),
                    found ==> has_platform(rows, es@[i as int]@.platform_id),
                    !found ==> forall|q: int| 0 <= q < k ==> #[trigger] rows[q].id != es@[i as int]@.platform_id,
                decreases ps@.len() - k,
            {
                if ps[k].id == es[i].platform_id {
                    assert(rows[k as int].id == es@[i as int]@.platform_id);
                    found = true;
                }
                k += 1;
            }
            if !found {
                proof {
                    assert(!has_platform(rows, es@[i as int]@.platform_id));
                }
                return false;
            }
            i += 1;
        }
        true
    }

    /// A vault over stored rows; refused when the rows break the table rules.
    pub fn from_records(
        master_key: [u8; KEY_LEN],
        platforms: Vec<PlatformRecord>,
        entries: Vec<EntryRecord>,
    ) -> (r: Result<Db, String>)
        ensures
            r is Ok <==> well_formed(records_state(master_key, platforms@, entries@)),
            r matches Ok(db) ==> db.wf() && db@ == records_state(master_key, platforms@, entries@),
            r matches Err(e) ==> e@ == invalid_records_message(),
    {
        let ghost s = records_state(master_key, platforms@, entries@);
        let p_ok = Self::platforms_distinct(&platforms);
        let e_ok = Self::entries_distinct(&entries);
        let f_ok = Self::entries_have_platforms(&platforms, &entries);
        proof {
            assert(s.platforms == platforms@.map_values(|p: PlatformRecord| p@));
            assert(s.platforms.len() == platforms@.len());
            assert(s.entries.len() == entries@.len());
            assert(forall|a: int| 0 <= a < s.platforms.len() ==> #[trigger] s.platforms[a] == platforms@[a]@);
            assert(forall|a: int| 0 <= a < s.entries.len() ==> #[trigger] s.entries[a] == entries@[a]@);
            if p_ok && e_ok && f_ok {
                assert(well_formed(s));
            } else if !p_ok {
                let (a, b) = choose|a: int, b: int|
                    #![trigger platforms@[a], platforms@[b]]
                    0 <= a < platforms@.len() && 0 <= b < platforms@.len() && a != b && (platforms@[a]@.id
                        == platforms@[b]@.id || platforms@[a]@.name == platforms@[b]@.name);
                assert(s.platforms[a] == platforms@[a]@ && s.platforms[b] == platforms@[b]@);
                assert(!well_formed(s));
            } else if !e_ok {
                let (a, b) = choose|a: int, b: int|
                    0 <= a < entries@.len() && 0 <= b < entries@.len() && a != b && #[trigger] entries@[a]@.id
                        == #[trigger] entries@[b]@.id;
                assert(s.entries[a] == entries@[a]@ && s.entries[b] == entries@[b]@);
                assert(!well_formed(s));
            } else {
                let a = choose|a: int|
                    0 <= a < entries@.len() && !has_platform(platforms@.map_values(|p: PlatformRecord| p@), #[trigger] entries@[a]@.platform_id);
                assert(s.entries[a] == entries@[a]@);
                assert(!well_formed(s));
            }
        }
        if !(p_ok && e_ok && f_ok) {
            return Err(String::from_str("stored rows break the vault's table rules"));
        }
        let db = Db { platforms, entries, master_key };
        assert(db@ == s);
        Ok(db)
    }
}

/// A vault that keeps its rules is well formed as the contracts state it.
pub proof fn lemma_wf(db: &Db)
    requires
        db.wf(),
    ensures
        well_formed(db@),
{
}

} // verus!
