//! The registry of vaults the editor knows, and names inside a vault.
use vstd::prelude::*;
use vstd::string::StringExecFns;
use crate::text::{chars_of, string_of};
use crate::paths::{split_slash, split_slash_chars, join_slash, views, is_dot};

verus! {

/// A vault the editor has opened.
#[derive(Debug, Clone, PartialEq, Eq)]
pub struct Vault {
    pub id: String,
    pub path: String,
    pub name: String,
    pub created_at: i64,
    pub last_opened_at: Option<i64>,
    pub note_count: Option<u64>,
    pub is_available: bool,
}

#[derive(Debug, Clone, PartialEq, Eq)]
pub struct VaultEntry {
    pub vault: Vault,
    pub last_opened_at: i64,
}

/// All known vaults, and the one opened last.
#[derive(Debug, Clone, PartialEq, Eq)]
pub struct VaultStore {
    pub vaults: Vec<VaultEntry>,
    pub last_vault_id: Option<String>,
}

#[derive(Debug, Clone, PartialEq, Eq)]
pub struct OpenVaultArgs {
    pub vault_path: String,
}

#[derive(Debug, Clone, PartialEq, Eq)]
pub struct RememberLastArgs {
    pub vault_id: String,
}

/// The folder of the editor's own files inside a vault.
pub open spec fn app_dir() -> Seq<char> {
    seq!['.', 'j', 'o', 't', 't', 'e', 'r']
}

/// The folder of git's files.
pub open spec fn git_dir() -> Seq<char> {
    seq!['.', 'g', 'i', 't']
}

/// Whether a folder of this name is left out of every walk of the vault: the
/// editor's own folder and git's.
pub fn is_excluded_folder(name: &str) -> (r: bool)
    ensures
        r == (name@ == app_dir() || name@ == git_dir()),
{
    let v = chars_of(name);
    let a: Vec<char> = vec!['.', 'j', 'o', 't', 't', 'e', 'r'];
    let g: Vec<char> = vec!['.', 'g', 'i', 't'];
    crate::text::chars_eq(&v, &a) || crate::text::chars_eq(&v, &g)
}

/// Index of the first entry for the vault `id`, if any.
pub open spec fn entry_index(vaults: Seq<VaultEntry>, id: Seq<char>) -> Option<int>
    decreases vaults.len(),
{
    if vaults.len() == 0 {
        None
    } else {
        match entry_index(vaults.drop_last(), id) {
            Some(i) => Some(i),
            None => if vaults.last().vault.id@ == id {
                Some(vaults.len() - 1)
            } else {
                None
            },
        }
    }
}

proof fn lemma_entry_index(vaults: Seq<VaultEntry>, id: Seq<char>)
    ensures
        entry_index(vaults, id) matches Some(i) ==> 0 <= i < vaults.len() && vaults[i].vault.id@ == id
            && forall|j: int| 0 <= j < i ==> (#[trigger] vaults[j]).vault.id@ != id,
        entry_index(vaults, id) is None ==> forall|j: int| 0 <= j < vaults.len() ==> (#[trigger] vaults[j]).vault.id@ != id,
    decreases vaults.len(),
{
    if vaults.len() > 0 {
        lemma_entry_index(vaults.drop_last(), id);
        assert forall|j: int| 0 <= j < vaults.len() - 1 implies vaults.drop_last()[j] == vaults[j] by {}
    }
}

fn find_entry(vaults: &Vec<VaultEntry>, id: &str) -> (r: Option<usize>)
    ensures
        match r {
            Some(i) => entry_index(vaults@, id@) == Some(i as int),
            None => entry_index(vaults@, id@) is None,
        },
{
    let key = String::from_str(id);
    let mut i: usize = 0;
    while i < vaults.len()
        invariant
            i <= vaults.len(),
            key@ == id@,
            forall|j: int| 0 <= j < i ==> (#[trigger] vaults@[j]).vault.id@ != id@,
        decreases vaults.len() - i,
    {
        if vaults[i].vault.id == key {
            proof {
                lemma_entry_index(vaults@, id@);
                assert(vaults@[i as int].vault.id@ == id@);
            }
            return Some(i);
        }
        i += 1;
    }
    proof {
        lemma_entry_index(vaults@, id@);
    }
    None
}

/// The folder of the vault `vault_id`, from its first entry in the store.
pub fn vault_path_by_id(store: &VaultStore, vault_id: &str) -> (r: Option<String>)
    ensures
        match entry_index(store.vaults@, vault_id@) {
            Some(i) => r matches Some(p) && p@ == store.vaults@[i].vault.path@,
            None => r is None,
        },
{
    proof {
        lemma_entry_index(store.vaults@, vault_id@);
    }
    match find_entry(&store.vaults, vault_id) {
        Some(i) => Some(store.vaults[i].vault.path.clone()),
        None => None,
    }
}

/// Records that `vault` was opened at `now`: it becomes the last vault; its entry
/// is replaced (keeping the known note count when `vault` has none) or added at the
/// end.
pub fn upsert_vault(store: &mut VaultStore, vault: Vault, now: i64)
    ensures
        final(store).last_vault_id matches Some(x) && x@ == vault.id@,
        match entry_index(old(store).vaults@, vault.id@) {
            Some(i) => {
                &&& final(store).vaults@.len() == old(store).vaults@.len()
                &&& final(store).vaults@[i].vault.id@ == vault.id@
                &&& final(store).vaults@[i].vault.path@ == vault.path@
                &&& final(store).vaults@[i].last_opened_at == now
                &&& final(store).vaults@[i].vault.last_opened_at == Some(now)
                &&& final(store).vaults@[i].vault.note_count == (if vault.note_count is Some {
                    vault.note_count
                } else {
                    old(store).vaults@[i].vault.note_count
                })
                &&& forall|j: int|
                    0 <= j < final(store).vaults@.len() && j != i ==> (#[trigger] final(store).vaults@[j])
                        == old(store).vaults@[j]
            },
            None => {
                &&& final(store).vaults@.len() == old(store).vaults@.len() + 1
                &&& forall|j: int| 0 <= j < old(store).vaults@.len() ==> (#[trigger] final(store).vaults@[j])
                    == old(store).vaults@[j]
                &&& final(store).vaults@.last().vault.id@ == vault.id@
                &&& final(store).vaults@.last().vault.path@ == vault.path@
                &&& final(store).vaults@.last().last_opened_at == now
                &&& final(store).vaults@.last().vault.last_opened_at == Some(now)
                &&& final(store).vaults@.last().vault.note_count == vault.note_count
            },
        },
{
    let mut vault = vault;
    store.last_vault_id = Some(vault.id.clone());
    vault.last_opened_at = Some(now);
    proof {
        lemma_entry_index(store.vaults@, vault.id@);
    }
    match find_entry(&store.vaults, vault.id.as_str()) {
        Some(i) => {
            if vault.note_count.is_none() {
                vault.note_count = store.vaults[i].vault.note_count;
            }
            store.vaults.set(i, VaultEntry { vault, last_opened_at: now });
        },
        None => {
            store.vaults.push(VaultEntry { vault, last_opened_at: now });
        },
    }
}

/// The components of a relative path as `Path::iter` yields them: empty pieces
/// and `.` pieces after the first are dropped.
pub open spec fn kept_components(segs: Seq<Seq<char>>) -> Seq<Seq<char>>
    decreases segs.len(),
{
    if segs.len() == 0 {
        segs
    } else {
        let prev = kept_components(segs.drop_last());
        let s = segs.last();
        if s.len() == 0 || (is_dot(s) && segs.len() > 1) {
            prev
        } else {
            prev.push(s)
        }
    }
}

/// A relative path written with `/` between its components.
pub fn normalize_relative_path(path: &str) -> (r: String)
    ensures
        r@ == join_slash(kept_components(split_slash(path@))),
{
    let parts = split_slash_chars(&chars_of(path));
    let mut kept: Vec<Vec<char>> = Vec::new();
    let mut i: usize = 0;
    assert(views(parts@).take(0) =~= Seq::<Seq<char>>::empty());
    assert(views(kept@) =~= Seq::<Seq<char>>::empty());
    while i < parts.len()
        invariant
            i <= parts.len(),
            views(kept@) == kept_components(views(parts@).take(i as int)),
        decreases parts.len() - i,
    {
        let ghost t = views(parts@).take(i + 1);
        assert(t.drop_last() =~= views(parts@).take(i as int));
        assert(t.last() == parts@[i as int]@);
        let seg = &parts[i];
        let dot = seg.len() == 1 && seg[0] == '.';
        if !(seg.len() == 0 || (dot && i > 0)) {
            let c = crate::text::slice_chars(seg, 0, seg.len());
            assert(c@ =~= seg@);
            let ghost before = kept@;
            kept.push(c);
            assert(views(kept@) =~= views(before).push(seg@));
        }
        i += 1;
    }
    assert(views(parts@).take(i as int) =~= views(parts@));
    string_of(&crate::paths::join_slash_chars(&kept))
}

/// The BLAKE3 digest of a text's UTF-8 bytes, in lower-case hex.
pub uninterp spec fn blake3_hex(s: Seq<char>) -> Seq<char>;

/// Relies on `blake3::hash` and `Hash::to_hex`: the 32-byte digest of the bytes,
/// written as 64 lower-case hex digits.
#[verifier::external_body]
fn blake3_hex_of(s: &str) -> (r: String)
    ensures
        r@ == blake3_hex(s@),
        r@.len() == 64,
        forall|i: int| 0 <= i < 64 ==> ('0' <= #[trigger] r@[i] <= '9' || 'a' <= r@[i] <= 'f'),
{
    blake3::hash(s.as_bytes()).to_hex().to_string()
}

/// The id of the vault at `path`: the BLAKE3 digest of the path, in hex, so the same
/// folder always gets the same id.
pub fn vault_id_for_path(path: &str) -> (r: String)
    ensures
        r@ == blake3_hex(path@),
        r@.len() == 64,
{
    blake3_hex_of(path)
}

} // verus!
