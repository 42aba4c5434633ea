//! Synchronization of the template index with the template repositories:
//! the decisions of a sync and the pure steps around them.
//!
//! Each source's last indexed commit is kept in the metadata table. A sync
//! compares it with what the repository reports and either applies the
//! changes between two commits, rebuilds the source's templates from
//! scratch, or leaves the source alone.

use vstd::prelude::*;

use crate::config::{string_views, Config};
use crate::hash::{hex_digit, hex_lower, lemma_hex_lower_len, to_hex_lower};
use crate::text::{
    bytes_end_with, bytes_start_with, char_views, chars_to_string, concat_str_string,
    copy_byte_range, copy_range, ends_with, has_byte_prefix, has_byte_suffix, has_suffix,
    lowercase, str_lowercase, str_to_chars, string_chars, utf8_lossy, utf8_lossy_spec,
    append_chars,
};

verus! {

/// An ASCII hexadecimal digit, in either case.
pub open spec fn is_hex_digit(b: u8) -> bool {
    (48 <= b && b <= 57) || (65 <= b && b <= 70) || (97 <= b && b <= 102)
}

/// The value of a hexadecimal digit.
pub open spec fn hex_value(b: u8) -> int {
    if 48 <= b && b <= 57 {
        b - 48
    } else if 97 <= b && b <= 102 {
        b - 87
    } else {
        b - 55
    }
}

/// Every byte of the text is a hexadecimal digit.
pub open spec fn all_hex(hex: Seq<u8>) -> bool {
    forall|i: int| 0 <= i < hex.len() ==> is_hex_digit(#[trigger] hex[i])
}

/// The bytes that hexadecimal text denotes: each pair of digits, high half
/// first, is one byte.
pub open spec fn hex_decode(hex: Seq<u8>) -> Seq<u8> {
    Seq::new(hex.len() / 2, |i: int| (hex_value(hex[2 * i]) * 16 + hex_value(hex[2 * i + 1])) as u8)
}

/// The SHA-1 id that text of 40 hexadecimal digits denotes, if it is such
/// text.
pub open spec fn sha1_from_hex(hex: Seq<u8>) -> Option<Seq<u8>> {
    if hex.len() == 40 && all_hex(hex) {
        Some(hex_decode(hex))
    } else {
        None
    }
}

/// `gix::ObjectId::from_hex`: text of 40 bytes that are all hexadecimal
/// digits, in either case, decodes to the 20 bytes of a SHA-1 id, each pair
/// of digits one byte, high half first; other text of 40 bytes is refused.
/// Text of 64 bytes decodes the same way to a SHA-256 id only where gix is
/// built with that hash; whether it is, is left unsaid here. Text of any
/// other length is refused.
#[verifier::external_body]
fn object_id_bytes_from_hex(hex: &[u8]) -> (r: Option<Vec<u8>>)
    ensures
        hex@.len() != 64 ==> (r is Some <==> sha1_from_hex(hex@) is Some),
        r matches Some(b) ==> all_hex(hex@) && b@ == hex_decode(hex@),
{
    gix::ObjectId::from_hex(hex).ok().map(|id| id.as_bytes().to_vec())
}

/// A hexadecimal digit written by `hex_digit` reads back as its value.
pub proof fn lemma_hex_digit_value(v: u8)
    requires
        v < 16,
    ensures
        '\0' <= hex_digit(v) <= '\u{7f}',
        is_hex_digit(hex_digit(v) as u8),
        hex_value(hex_digit(v) as u8) == v,
{
}

/// The two digits of each byte in its lowercase hexadecimal text.
pub proof fn lemma_hex_lower_index(bs: Seq<u8>, k: int)
    requires
        0 <= k < bs.len(),
    ensures
        hex_lower(bs)[2 * k] == hex_digit(bs[k] / 16),
        hex_lower(bs)[2 * k + 1] == hex_digit(bs[k] % 16),
    decreases bs.len(),
{
    let d = bs.drop_last();
    lemma_hex_lower_len(d);
    if k < d.len() {
        lemma_hex_lower_index(d, k);
        assert(bs[k] == d[k]);
    }
}

/// The id recorded for a source reads back as itself: the lowercase
/// hexadecimal text of a SHA-1 id, stored as its UTF-8 bytes and read back
/// as text, is 40 digits that decode to the id.
pub proof fn law_commit_hash_roundtrip(id: Seq<u8>)
    requires
        id.len() == 20,
    ensures
        ({
            let t = vstd::utf8::encode_utf8(utf8_lossy_spec(vstd::utf8::encode_utf8(hex_lower(id))));
            t.len() == 40 && sha1_from_hex(t) == Some(id)
        }),
{
    broadcast use vstd::utf8::encode_utf8_valid_utf8, vstd::utf8::encode_utf8_decode_utf8;

    let h = hex_lower(id);
    lemma_hex_lower_len(id);
    assert(utf8_lossy_spec(vstd::utf8::encode_utf8(h)) == h);
    assert forall|j: int| 0 <= j < h.len() implies #[trigger] h[j] == hex_digit(id[j / 2] / 16) || h[j]
        == hex_digit(id[j / 2] % 16) by {
        lemma_hex_lower_index(id, j / 2);
    }
    assert(vstd::utf8::is_ascii_chars(h)) by {
        assert forall|j: int| 0 <= j < h.len() implies '\0' <= #[trigger] h[j] <= '\u{7f}' by {
            lemma_hex_digit_value(id[j / 2] / 16);
            lemma_hex_digit_value(id[j / 2] % 16);
        }
    }
    vstd::utf8::is_ascii_chars_encode_utf8(h);
    let t = vstd::utf8::encode_utf8(h);
    assert(all_hex(t)) by {
        assert forall|j: int| 0 <= j < t.len() implies is_hex_digit(#[trigger] t[j]) by {
            assert(t[j] == h[j] as u8);
            lemma_hex_digit_value(id[j / 2] / 16);
            lemma_hex_digit_value(id[j / 2] % 16);
        }
    }
    assert(hex_decode(t) =~= id) by {
        assert forall|k: int| 0 <= k < id.len() implies #[trigger] hex_decode(t)[k] == id[k] by {
            lemma_hex_lower_index(id, k);
            assert(t[2 * k] == h[2 * k] as u8);
            assert(t[2 * k + 1] == h[2 * k + 1] as u8);
            lemma_hex_digit_value(id[k] / 16);
            lemma_hex_digit_value(id[k] % 16);
            let x = id[k];
            assert((x / 16) * 16 + x % 16 == x);
        }
    }
}

/// The id of a git object (a commit, tree or blob): the bytes of its hash.
#[derive(Debug, Clone)]
pub struct Oid {
    pub bytes: Vec<u8>,
}

impl View for Oid {
    type V = Seq<u8>;

    open spec fn view(&self) -> Seq<u8> {
        self.bytes@
    }
}

impl Oid {
    /// The id that hexadecimal text denotes, if it denotes one: text of 40
    /// hexadecimal digits denotes a SHA-1 id; text of 64 digits, read only
    /// where gix is built with SHA-256, denotes an id of that hash.
    pub fn from_hex(hex: &[u8]) -> (r: Option<Oid>)
        ensures
            hex@.len() != 64 ==> (r is Some <==> sha1_from_hex(hex@) is Some),
            r matches Some(o) ==> all_hex(hex@) && o@ == hex_decode(hex@),
    {
        match object_id_bytes_from_hex(hex) {
            Some(b) => Some(Oid { bytes: b }),
            None => None,
        }
    }

    /// The lowercase hexadecimal text of the id, as git shows it.
    pub fn to_hex(&self) -> (r: String)
        ensures
            r@ == hex_lower(self@),
    {
        to_hex_lower(self.bytes.as_slice())
    }

    /// The two ids are the same.
    pub fn same(&self, other: &Oid) -> (r: bool)
        ensures
            r == (self@ == other@),
    {
        let a = &self.bytes;
        let b = &other.bytes;
        if a.len() != b.len() {
            return false;
        }
        let mut i: usize = 0;
        while i < a.len()
            invariant
                a@ == self@,
                b@ == other@,
                a.len() == b.len(),
                i <= a.len(),
                forall|k: int| 0 <= k < i ==> a@[k] == b@[k],
            decreases a.len() - i,
        {
            if a[i] != b[i] {
                assert(a@[i as int] != b@[i as int]);
                return false;
            }
            i = i + 1;
        }
        assert(a@ =~= b@);
        true
    }

    /// A copy of the id.
    pub fn copy(&self) -> (r: Oid)
        ensures
            r@ == self@,
    {
        Oid { bytes: copy_byte_range(self.bytes.as_slice(), 0, self.bytes.len()) }
    }
}

/// The id recorded as a source's last indexed commit, read from the bytes
/// stored for it: the text of the bytes, decoded as hexadecimal.
pub fn parse_commit_hash(value: &[u8]) -> (r: Option<Oid>)
    ensures
        ({
            let t = vstd::utf8::encode_utf8(utf8_lossy_spec(value@));
            &&& t.len() != 64 ==> (r is Some <==> sha1_from_hex(t) is Some)
            &&& r matches Some(o) ==> all_hex(t) && o@ == hex_decode(t)
        }),
{
    let text = utf8_lossy(value);
    Oid::from_hex(text.as_str().as_bytes())
}

/// What became of a source's repository before the sync.
#[derive(Debug, Clone)]
pub enum RepoStatus {
    Recloned,
    Updated { old_oid: Oid, new_oid: Oid },
    Matched,
}

/// The mathematical value of a [`RepoStatus`].
pub enum RepoStatusView {
    Recloned,
    Updated { old_oid: Seq<u8>, new_oid: Seq<u8> },
    Matched,
}

impl View for RepoStatus {
    type V = RepoStatusView;

    open spec fn view(&self) -> RepoStatusView {
        match self {
            RepoStatus::Recloned => RepoStatusView::Recloned,
            RepoStatus::Updated { old_oid, new_oid } => RepoStatusView::Updated {
                old_oid: old_oid@,
                new_oid: new_oid@,
            },
            RepoStatus::Matched => RepoStatusView::Matched,
        }
    }
}

/// How a source's templates are brought up to date.
#[derive(Debug, Clone)]
pub enum SyncAction {
    Incremental { old_oid: Oid, new_oid: Oid },
    Rebuild,
}

/// The mathematical value of a [`SyncAction`].
pub enum SyncActionView {
    Incremental { old_oid: Seq<u8>, new_oid: Seq<u8> },
    Rebuild,
}

impl View for SyncAction {
    type V = SyncActionView;

    open spec fn view(&self) -> SyncActionView {
        match self {
            SyncAction::Incremental { old_oid, new_oid } => SyncActionView::Incremental {
                old_oid: old_oid@,
                new_oid: new_oid@,
            },
            SyncAction::Rebuild => SyncActionView::Rebuild,
        }
    }
}

/// How a source is synced, given what became of its repository, the last
/// commit indexed for it, the commit its repository's HEAD is at, whether
/// the index holds templates of the source, and whether the name index
/// exists:
/// - when the repository moved from exactly the last indexed commit, the
///   changes between the two commits are applied;
/// - when nothing changed and HEAD is the last indexed commit, nothing is
///   done, provided the index holds templates of the source and the name
///   index exists; otherwise the source is rebuilt;
/// - in every other case the source is rebuilt.
pub open spec fn sync_action_spec(
    outcome: RepoStatusView,
    last_commit: Option<Seq<u8>>,
    head: Seq<u8>,
    has_entries: bool,
    index_exists: bool,
) -> Option<SyncActionView> {
    match (outcome, last_commit) {
        (RepoStatusView::Updated { old_oid, new_oid }, Some(last)) if old_oid == last => Some(
            SyncActionView::Incremental { old_oid, new_oid },
        ),
        (RepoStatusView::Matched, Some(last)) if head == last => if has_entries && index_exists {
            None
        } else {
            Some(SyncActionView::Rebuild)
        },
        _ => Some(SyncActionView::Rebuild),
    }
}

/// The optional id's value.
pub open spec fn opt_oid_view(o: Option<Oid>) -> Option<Seq<u8>> {
    match o {
        Some(x) => Some(x@),
        None => None,
    }
}

/// The optional action's value.
pub open spec fn opt_action_view(a: Option<SyncAction>) -> Option<SyncActionView> {
    match a {
        Some(x) => Some(x@),
        None => None,
    }
}

/// Decides how a source is synced (see `sync_action_spec`).
pub fn decide_sync_action(
    outcome: &RepoStatus,
    last_commit: &Option<Oid>,
    head: &Oid,
    has_entries: bool,
    index_exists: bool,
) -> (r: Option<SyncAction>)
    ensures
        opt_action_view(r) == sync_action_spec(
            outcome@,
            opt_oid_view(*last_commit),
            head@,
            has_entries,
            index_exists,
        ),
{
    match (outcome, last_commit) {
        (RepoStatus::Updated { old_oid, new_oid }, Some(last)) => {
            if old_oid.same(last) {
                Some(SyncAction::Incremental { old_oid: old_oid.copy(), new_oid: new_oid.copy() })
            } else {
                Some(SyncAction::Rebuild)
            }
        },
        (RepoStatus::Matched, Some(last)) => {
            if head.same(last) {
                if has_entries && index_exists {
                    None
                } else {
                    Some(SyncAction::Rebuild)
                }
            } else {
                Some(SyncAction::Rebuild)
            }
        },
        _ => Some(SyncAction::Rebuild),
    }
}

/// What a fetch did, given HEAD's commit before and the commit the local
/// branch was moved to: updated when both are known and differ, otherwise
/// matched.
pub fn fetch_status(old: Option<Oid>, new: Option<Oid>) -> (r: RepoStatus)
    ensures
        r@ == (match (opt_oid_view(old), opt_oid_view(new)) {
            (Some(o), Some(n)) => if o != n {
                RepoStatusView::Updated { old_oid: o, new_oid: n }
            } else {
                RepoStatusView::Matched
            },
            _ => RepoStatusView::Matched,
        }),
{
    match (old, new) {
        (Some(o), Some(n)) => {
            if !o.same(&n) {
                RepoStatus::Updated { old_oid: o, new_oid: n }
            } else {
                RepoStatus::Matched
            }
        },
        _ => RepoStatus::Matched,
    }
}

/// A pending template update.
pub struct SyncUpsert {
    pub namespace: String,
    pub oid: String,
    pub content: String,
}

/// Operations to be executed inside the database transaction.
pub struct SyncDiff {
    pub upserts: Vec<SyncUpsert>,
    pub deletes: Vec<String>,
}

impl SyncDiff {
    /// A diff with no operation.
    pub fn new() -> (r: Self)
        ensures
            r.upserts@.len() == 0,
            r.deletes@.len() == 0,
    {
        SyncDiff { upserts: Vec::new(), deletes: Vec::new() }
    }

    /// The diff holds no operation.
    pub fn is_empty(&self) -> (r: bool)
        ensures
            r == (self.upserts@.len() == 0 && self.deletes@.len() == 0),
    {
        self.upserts.len() == 0 && self.deletes.len() == 0
    }
}

/// The updates are applied unless there is nothing to apply, no source was
/// updated and the name index already exists.
pub fn should_apply(diff: &SyncDiff, updated_sources: usize, index_exists: bool) -> (r: bool)
    ensures
        r == !(diff.upserts@.len() == 0 && diff.deletes@.len() == 0 && updated_sources == 0
            && index_exists),
{
    !(diff.is_empty() && updated_sources == 0 && index_exists)
}

/// An upsert is written unless the stored blob id of its template is its own.
pub fn upsert_needed(stored_oid: &Option<String>, upsert: &SyncUpsert) -> (r: bool)
    ensures
        r == !(stored_oid matches Some(s) && s@ == upsert.oid@),
{
    match stored_oid {
        Some(s) => !(*s == upsert.oid),
        None => true,
    }
}

/// Global orchestrator for the synchronization session.
pub struct SyncManager<'a> {
    pub config: &'a Config,
}

impl<'a> SyncManager<'a> {
    /// A manager for the sources of `config`.
    pub fn new(config: &'a Config) -> (r: Self)
        ensures
            r.config == config,
    {
        SyncManager { config }
    }
}

/// The bytes of `.gitignore`.
pub open spec fn gitignore_suffix_bytes() -> Seq<u8> {
    seq![46u8, 103u8, 105u8, 116u8, 105u8, 103u8, 110u8, 111u8, 114u8, 101u8]
}

fn gitignore_suffix_vec() -> (r: Vec<u8>)
    ensures
        r@ == gitignore_suffix_bytes(),
{
    let r: Vec<u8> = vec![46u8, 103u8, 105u8, 116u8, 105u8, 103u8, 110u8, 111u8, 114u8, 101u8];
    assert(r@ =~= gitignore_suffix_bytes());
    r
}

/// The characters of `.gitignore`.
pub open spec fn gitignore_suffix_chars() -> Seq<char> {
    seq!['.', 'g', 'i', 't', 'i', 'g', 'n', 'o', 'r', 'e']
}

/// A file name or path that names a template: it ends with `.gitignore`.
pub fn is_template_file(name: &[u8]) -> (r: bool)
    ensures
        r == has_byte_suffix(name@, gitignore_suffix_bytes()),
{
    let suffix = gitignore_suffix_vec();
    bytes_end_with(name, suffix.as_slice())
}

/// The key of a source's template in the index: `source/name`.
pub open spec fn namespaced_spec(source: Seq<char>, name: Seq<char>) -> Seq<char> {
    source + seq!['/'] + name
}

/// The key of a source's template in the index.
pub fn namespaced(source: &String, name: &String) -> (r: String)
    ensures
        r@ == namespaced_spec(source@, name@),
{
    let mut v = string_chars(source);
    v.push('/');
    let w = string_chars(name);
    append_chars(&mut v, &w);
    chars_to_string(&v)
}

/// The index key of the template at a changed path of a source's
/// repository, if the path names a template: the path without its
/// `.gitignore` suffix, as text, in lowercase, after the source's name.
pub open spec fn diff_template_name_spec(source: Seq<char>, location: Seq<u8>) -> Option<
    Seq<char>,
> {
    if has_byte_suffix(location, gitignore_suffix_bytes()) {
        Some(
            namespaced_spec(
                source,
                str_lowercase(utf8_lossy_spec(location.take(location.len() - 10))),
            ),
        )
    } else {
        None
    }
}

/// The index key of the template at a changed path, if it names one.
pub fn diff_template_name(source: &String, location: &[u8]) -> (r: Option<String>)
    ensures
        r matches Some(s) ==> diff_template_name_spec(source@, location@) == Some(s@),
        r is None ==> diff_template_name_spec(source@, location@) is None,
{
    if is_template_file(location) {
        let stem = copy_byte_range(location, 0, location.len() - 10);
        assert(stem@ =~= location@.take(location@.len() - 10));
        let text = utf8_lossy(stem.as_slice());
        let lower = lowercase(text.as_str());
        Some(namespaced(source, &lower))
    } else {
        None
    }
}

/// The commit recorded as a source's last indexed one after it is synced
/// with an action: the new commit of an incremental sync, HEAD after a
/// rebuild, nothing when the source is left alone.
pub fn recorded_commit(action: &Option<SyncAction>, head: &Oid) -> (r: Option<Oid>)
    ensures
        opt_oid_view(r) == (match opt_action_view(*action) {
            Some(SyncActionView::Incremental { new_oid, .. }) => Some(new_oid),
            Some(SyncActionView::Rebuild) => Some(head@),
            None => None,
        }),
{
    match action {
        Some(SyncAction::Incremental { new_oid, .. }) => Some(new_oid.copy()),
        Some(SyncAction::Rebuild) => Some(head.copy()),
        None => None,
    }
}

/// A change of a path between two trees of a repository.
#[derive(Debug)]
pub enum TreeChange {
    Addition { location: Vec<u8> },
    Deletion { location: Vec<u8> },
    Modification { location: Vec<u8> },
    Rewrite { source_location: Vec<u8>, location: Vec<u8> },
}

/// The path a change leaves behind: the path added, deleted or modified, or
/// the destination of a rewrite.
pub open spec fn change_location(c: TreeChange) -> Seq<u8> {
    match c {
        TreeChange::Addition { location } => location@,
        TreeChange::Deletion { location } => location@,
        TreeChange::Modification { location } => location@,
        TreeChange::Rewrite { location, .. } => location@,
    }
}

/// What a change does to the index.
#[derive(Debug, PartialEq, Eq)]
pub enum ChangeEffect {
    /// The template under this key is written from the new tree.
    Upsert(String),
    /// The template under this key is removed.
    Delete(String),
}

/// What an effect does, as a value: whether it writes (else removes) and
/// the key.
pub open spec fn effect_view(e: ChangeEffect) -> (bool, Seq<char>) {
    match e {
        ChangeEffect::Upsert(k) => (true, k@),
        ChangeEffect::Delete(k) => (false, k@),
    }
}

/// The effect on the template that the path names, if it names one: a write
/// when `upsert`, else a removal.
pub open spec fn effect_at(source: Seq<char>, location: Seq<u8>, upsert: bool) -> Seq<(bool, Seq<char>)> {
    match diff_template_name_spec(source, location) {
        Some(k) => seq![(upsert, k)],
        None => seq![],
    }
}

/// What a change of a source's repository does to the index: an added or
/// modified template is written, a deleted one removed, and a rewritten
/// (renamed) one removed under its old key and written under its new one.
pub open spec fn change_effects_spec(source: Seq<char>, c: TreeChange) -> Seq<(bool, Seq<char>)> {
    match c {
        TreeChange::Addition { location } => effect_at(source, location@, true),
        TreeChange::Modification { location } => effect_at(source, location@, true),
        TreeChange::Deletion { location } => effect_at(source, location@, false),
        TreeChange::Rewrite { source_location, location } => effect_at(source, source_location@, false)
            + effect_at(source, location@, true),
    }
}

/// The effect on the template at a changed path, if the path names one.
fn effect_for(source: &String, location: &[u8], upsert: bool, out: &mut Vec<ChangeEffect>)
    ensures
        final(out)@.map_values(|e: ChangeEffect| effect_view(e)) == old(out)@.map_values(
            |e: ChangeEffect| effect_view(e),
        ) + effect_at(source@, location@, upsert),
{
    let ghost before = out@;
    match diff_template_name(source, location) {
        Some(k) => {
            if upsert {
                out.push(ChangeEffect::Upsert(k));
            } else {
                out.push(ChangeEffect::Delete(k));
            }
            assert(out@.map_values(|e: ChangeEffect| effect_view(e)) =~= before.map_values(
                |e: ChangeEffect| effect_view(e),
            ) + effect_at(source@, location@, upsert));
        },
        None => {
            assert(before.map_values(|e: ChangeEffect| effect_view(e)) + effect_at(source@, location@, upsert)
                =~= before.map_values(|e: ChangeEffect| effect_view(e)));
        },
    }
}

/// What a change of a source's repository does to the index, in order: see
/// `change_effects_spec`.
pub fn change_effect(source: &String, change: &TreeChange) -> (r: Vec<ChangeEffect>)
    ensures
        r@.map_values(|e: ChangeEffect| effect_view(e)) == change_effects_spec(source@, *change),
{
    let mut out: Vec<ChangeEffect> = Vec::new();
    assert(out@.map_values(|e: ChangeEffect| effect_view(e)) =~= Seq::<(bool, Seq<char>)>::empty());
    match change {
        TreeChange::Addition { location } | TreeChange::Modification { location } => {
            effect_for(source, location.as_slice(), true, &mut out);
        },
        TreeChange::Deletion { location } => {
            effect_for(source, location.as_slice(), false, &mut out);
        },
        TreeChange::Rewrite { source_location, location } => {
            effect_for(source, source_location.as_slice(), false, &mut out);
            effect_for(source, location.as_slice(), true, &mut out);
        },
    }
    proof {
        assert(Seq::<(bool, Seq<char>)>::empty() + effect_at(source@, change_location(*change), true)
            =~= effect_at(source@, change_location(*change), true));
        assert(Seq::<(bool, Seq<char>)>::empty() + effect_at(source@, change_location(*change), false)
            =~= effect_at(source@, change_location(*change), false));
        if let TreeChange::Rewrite { source_location, .. } = change {
            assert(Seq::<(bool, Seq<char>)>::empty() + effect_at(source@, source_location@, false)
                =~= effect_at(source@, source_location@, false));
        }
    }
    out
}

/// The name of one path component of a template: its text, without a
/// `.gitignore` suffix, in lowercase.
pub open spec fn component_name(c: Seq<u8>) -> Seq<char> {
    let s = utf8_lossy_spec(c);
    str_lowercase(
        if has_suffix(s, gitignore_suffix_chars()) {
            s.take(s.len() - 10)
        } else {
            s
        },
    )
}

/// The names of the path components joined by `/`.
pub open spec fn join_components(cs: Seq<Seq<u8>>) -> Seq<char>
    decreases cs.len(),
{
    if cs.len() == 0 {
        seq![]
    } else if cs.len() == 1 {
        component_name(cs[0])
    } else {
        join_components(cs.drop_last()) + seq!['/'] + component_name(cs.last())
    }
}

/// The name of the template at the path whose components are given, the
/// file name last: each component without a `.gitignore` suffix, in
/// lowercase, joined by `/`.
pub fn template_name_from_path(components: &Vec<Vec<u8>>) -> (r: String)
    ensures
        r@ == join_components(components@.map_values(|c: Vec<u8>| c@)),
{
    let ghost cs = components@.map_values(|c: Vec<u8>| c@);
    let suffix: Vec<char> = vec!['.', 'g', 'i', 't', 'i', 'g', 'n', 'o', 'r', 'e'];
    assert(suffix@ =~= gitignore_suffix_chars());
    let mut out: Vec<char> = Vec::new();
    let mut i: usize = 0;
    assert(cs.take(0) =~= Seq::<Seq<u8>>::empty());
    while i < components.len()
        invariant
            cs == components@.map_values(|c: Vec<u8>| c@),
            suffix@ == gitignore_suffix_chars(),
            i <= components.len(),
            out@ == join_components(cs.take(i as int)),
        decreases components.len() - i,
    {
        assert(components@[i as int]@ == cs[i as int]);
        let text = utf8_lossy(components[i].as_slice());
        let chars = string_chars(&text);
        let stem = if ends_with(&chars, &suffix) {
            copy_range(&chars, 0, chars.len() - 10)
        } else {
            copy_range(&chars, 0, chars.len())
        };
        assert(stem@ == (if has_suffix(text@, gitignore_suffix_chars()) {
            text@.take(text@.len() - 10)
        } else {
            text@
        })) by {
            assert(chars@.subrange(0, chars@.len() as int) =~= chars@);
            if chars@.len() >= 10 {
                assert(chars@.subrange(0, chars@.len() - 10) =~= chars@.take(chars@.len() - 10));
            }
        }
        let stem_string = chars_to_string(&stem);
        let lower = lowercase(stem_string.as_str());
        let lc = string_chars(&lower);
        assert(lc@ == component_name(cs[i as int]));
        let ghost prev = out@;
        if i > 0 {
            out.push('/');
        }
        append_chars(&mut out, &lc);
        assert(cs.take(i + 1).drop_last() =~= cs.take(i as int));
        assert(cs.take(i + 1).last() == cs[i as int]);
        if i == 0 {
            assert(out@ =~= join_components(cs.take(1)));
        } else {
            assert(out@ =~= join_components(cs.take(i + 1)));
        }
        i = i + 1;
    }
    assert(cs.take(components.len() as int) =~= cs);
    chars_to_string(&out)
}

/// The bytes of `refs/heads/`.
pub open spec fn heads_prefix_bytes() -> Seq<u8> {
    seq![114u8, 101u8, 102u8, 115u8, 47u8, 104u8, 101u8, 97u8, 100u8, 115u8, 47u8]
}

/// The remote-tracking reference of the branch a symbolic reference names,
/// if it names a local branch: `refs/heads/<b>` tracks
/// `refs/remotes/origin/<b>`.
pub open spec fn remote_tracking_ref_spec(referent: Seq<u8>) -> Option<Seq<char>> {
    if has_byte_prefix(referent, heads_prefix_bytes()) {
        Some("refs/remotes/origin/"@ + utf8_lossy_spec(referent.skip(11)))
    } else {
        None
    }
}

/// The remote-tracking reference of the branch `referent` names, if any.
pub fn remote_tracking_ref(referent: &[u8]) -> (r: Option<String>)
    ensures
        r matches Some(s) ==> remote_tracking_ref_spec(referent@) == Some(s@),
        r is None ==> remote_tracking_ref_spec(referent@) is None,
{
    let prefix: Vec<u8> = vec![114u8, 101u8, 102u8, 115u8, 47u8, 104u8, 101u8, 97u8, 100u8, 115u8, 47u8];
    assert(prefix@ =~= heads_prefix_bytes());
    if bytes_start_with(referent, prefix.as_slice()) {
        let short = copy_byte_range(referent, 11, referent.len());
        assert(short@ =~= referent@.skip(11));
        let text = utf8_lossy(short.as_slice());
        Some(concat_str_string("refs/remotes/origin/", &text))
    } else {
        None
    }
}

/// The metadata key under which a source's last indexed commit is kept.
pub fn metadata_key(source: &String) -> (r: String)
    ensures
        r@ == "last_commit_hash:"@ + source@,
{
    concat_str_string("last_commit_hash:", source)
}

/// An index key belongs to a source: it starts with the source's name and a
/// slash.
pub fn in_source(key: &str, source: &String) -> (r: bool)
    ensures
        r == crate::text::has_prefix(key@, source@ + seq!['/']),
{
    let k = str_to_chars(key);
    let mut p = string_chars(source);
    p.push('/');
    assert(p@ =~= source@ + seq!['/']);
    crate::text::starts_with(&k, &p)
}

/// Every component of a template's path counts in its name: for a
/// non-empty path `p` and a component `c`, the name of `p` followed by `c`
/// is the name of `p`, `/`, and the name of `c`; a path of one component is
/// named by that component.
pub proof fn law_path_name_appends(p: Seq<Seq<u8>>, c: Seq<u8>)
    ensures
        p.len() > 0 ==> join_components(p.push(c)) == join_components(p) + seq!['/'] + component_name(c),
        join_components(seq![c]) == component_name(c),
{
    assert(p.push(c).drop_last() =~= p);
    assert(p.push(c).last() == c);
}

/// A path of components whose names hold no `/` is named with exactly one
/// `/` fewer than it has components.
pub proof fn law_path_name_slashes(p: Seq<Seq<u8>>)
    requires
        p.len() > 0,
        forall|i: int| 0 <= i < p.len() ==> !component_name(#[trigger] p[i]).contains('/'),
    ensures
        slash_count(join_components(p)) == p.len() - 1,
    decreases p.len(),
{
    if p.len() == 1 {
        lemma_slash_count_none(component_name(p[0]));
    } else {
        let d = p.drop_last();
        assert forall|i: int| 0 <= i < d.len() implies !component_name(#[trigger] d[i]).contains('/') by {
            assert(d[i] == p[i]);
        }
        law_path_name_slashes(d);
        assert(p.last() == p[p.len() - 1]);
        lemma_slash_count_none(component_name(p.last()));
        lemma_slash_count_concat(join_components(d), seq!['/']);
        lemma_slash_count_concat(join_components(d) + seq!['/'], component_name(p.last()));
        assert(seq!['/'].drop_last() =~= Seq::<char>::empty());
        assert(slash_count(Seq::<char>::empty()) == 0);
        assert(slash_count(seq!['/']) == 1);
        assert(join_components(p) == join_components(d) + seq!['/'] + component_name(p.last()));
    }
}

/// The number of `/` in text.
pub open spec fn slash_count(t: Seq<char>) -> int
    decreases t.len(),
{
    if t.len() == 0 {
        0
    } else {
        slash_count(t.drop_last()) + if t.last() == '/' {
            1int
        } else {
            0int
        }
    }
}

/// Text without `/` counts none.
pub proof fn lemma_slash_count_none(t: Seq<char>)
    requires
        !t.contains('/'),
    ensures
        slash_count(t) == 0,
    decreases t.len(),
{
    if t.len() > 0 {
        let d = t.drop_last();
        assert(!d.contains('/')) by {
            if d.contains('/') {
                let j = choose|j: int| 0 <= j < d.len() && d[j] == '/';
                assert(t[j] == '/');
            }
        }
        assert(t.contains(t.last()));
        lemma_slash_count_none(d);
    }
}

/// The count of a concatenation is the sum of the counts.
pub proof fn lemma_slash_count_concat(a: Seq<char>, b: Seq<char>)
    ensures
        slash_count(a + b) == slash_count(a) + slash_count(b),
    decreases b.len(),
{
    if b.len() == 0 {
        assert(a + b =~= a);
    } else {
        assert((a + b).drop_last() =~= a + b.drop_last());
        assert((a + b).last() == b.last());
        lemma_slash_count_concat(a, b.drop_last());
    }
}

/// A source is rebuilt from scratch whenever its repository was cloned
/// anew or no last indexed commit is recorded for it, whatever the index
/// holds.
pub proof fn law_fresh_source_is_rebuilt(
    outcome: RepoStatusView,
    last_commit: Option<Seq<u8>>,
    head: Seq<u8>,
    has_entries: bool,
    index_exists: bool,
)
    requires
        outcome is Recloned || last_commit is None,
    ensures
        sync_action_spec(outcome, last_commit, head, has_entries, index_exists) == Some(
            SyncActionView::Rebuild,
        ),
{
}

/// The key of a changed template keeps the source's name character for
/// character: it is that name, `/`, and the changed file's stem (its path
/// without `.gitignore`) as text in lowercase. A path without that suffix
/// names no template.
pub proof fn law_diff_key_keeps_source(s: Seq<char>, location: Seq<u8>)
    ensures
        has_byte_suffix(location, gitignore_suffix_bytes()) ==> (diff_template_name_spec(s, location)
            matches Some(k) && k.take(s.len() + 1int) == s + seq!['/'] && k.skip(s.len() + 1int)
            == str_lowercase(utf8_lossy_spec(location.take(location.len() - 10)))),
        !has_byte_suffix(location, gitignore_suffix_bytes()) ==> diff_template_name_spec(s, location) is None,
{
    if has_byte_suffix(location, gitignore_suffix_bytes()) {
        let k = diff_template_name_spec(s, location)->0;
        let l = str_lowercase(utf8_lossy_spec(location.take(location.len() - 10)));
        assert(k == s + seq!['/'] + l);
        assert(k.take(s.len() + 1int) =~= s + seq!['/']);
        assert(k.skip(s.len() + 1int) =~= l);
    }
}

} // verus!
