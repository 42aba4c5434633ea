use git_ignore::action::{
    merge_template_parts, plan_gitignore, requested, template_keys, CliAction, GitignorePlan,
};
use git_ignore::args::GitIgnoreArgs;
use git_ignore::config::{source_list, Config, DEFAULT_REPO_URL};
use git_ignore::error::{CliError, GenerateError};
use git_ignore::hash::{sha256_hex, to_hex_lower};
use git_ignore::index::{build_index, sort_strings, template_names_from_keys};
use git_ignore::state::RepoState;
use git_ignore::sync::{
    change_effect, decide_sync_action, diff_template_name, fetch_status, recorded_commit, in_source, is_template_file,
    metadata_key, namespaced, parse_commit_hash, remote_tracking_ref, should_apply,
    template_name_from_path, upsert_needed, Oid, RepoStatus, SyncAction, SyncDiff, SyncManager,
    SyncUpsert, ChangeEffect, TreeChange,
};
use git_ignore::text::{is_whitespace, split_chars, str_to_chars, trim_chars};
use std::path::PathBuf;

fn s(x: &str) -> String {
    x.to_string()
}

fn config() -> Config {
    Config {
        sources: vec![],
        db_path: PathBuf::from("/tmp/db"),
        fst_path: PathBuf::from("/tmp/fst"),
        project_path: PathBuf::from("/tmp"),
    }
}

fn args(templates: &[&str]) -> GitIgnoreArgs {
    GitIgnoreArgs {
        update: false,
        force: false,
        patch: true,
        list: false,
        info: false,
        version: false,
        compact: false,
        templates: templates.iter().map(|t| t.to_string()).collect(),
    }
}

#[test]
fn whitespace_agrees_with_std_for_every_char() {
    for u in 0u32..=0x10FFFF {
        if let Some(c) = char::from_u32(u) {
            assert_eq!(is_whitespace(c), c.is_whitespace(), "{u:#x}");
        }
    }
}

#[test]
fn trim_agrees_with_std() {
    for text in ["", "  a b \n", "\u{3000}x\u{85}", "\t\r\n", "abc"] {
        let t = trim_chars(&str_to_chars(text));
        assert_eq!(t.iter().collect::<String>(), text.trim());
    }
}

#[test]
fn split_agrees_with_std() {
    for text in ["", "a", ",a,,b,", "Rust, Node"] {
        let parts: Vec<String> = split_chars(&str_to_chars(text), ',')
            .into_iter()
            .map(|p| p.into_iter().collect())
            .collect();
        let expected: Vec<String> = text.split(',').map(String::from).collect();
        assert_eq!(parts, expected);
    }
}

#[test]
fn template_keys_lowercase_the_name() {
    assert_eq!(template_keys(&s("RuSt"), &vec![s("d")]), vec![s("d/rust")]);
    assert_eq!(template_keys(&s("ÄB"), &vec![s("d")]), vec![s("d/äb")]);
}

#[test]
fn from_args_picks_first_requested_action() {
    let c = config();
    let mut a = args(&["Rust"]);
    a.version = true;
    a.info = true;
    assert!(matches!(CliAction::from_args(&a, &c), Ok(CliAction::ShowVersion)));
    a.version = false;
    assert!(matches!(CliAction::from_args(&a, &c), Ok(CliAction::ShowInfo)));
    a.info = false;
    a.list = true;
    a.compact = true;
    assert!(matches!(CliAction::from_args(&a, &c), Ok(CliAction::ListTemplates)));
    a.list = false;
    assert!(matches!(CliAction::from_args(&a, &c), Ok(CliAction::Compact)));
}

#[test]
fn from_args_generates_requested_templates_once() {
    let c = config();
    let a = args(&["Rust, Node,,rust", " Node ", "C++"]);
    match CliAction::from_args(&a, &c) {
        Ok(CliAction::Generate { templates, patch }) => {
            assert_eq!(templates, vec![s("Rust"), s("Node"), s("rust"), s("C++")]);
            assert!(patch);
        }
        other => panic!("unexpected {other:?}"),
    }
}

#[test]
fn from_args_without_templates() {
    let c = config();
    let mut a = args(&[" , "]);
    match CliAction::from_args(&a, &c) {
        Err(CliError::Discovery(m)) => assert_eq!(m, "No templates specified."),
        other => panic!("unexpected {other:?}"),
    }
    a.force = true;
    assert!(matches!(CliAction::from_args(&a, &c), Ok(CliAction::UpdateOnly)));
    a.force = false;
    a.update = true;
    assert!(matches!(CliAction::from_args(&a, &c), Ok(CliAction::UpdateOnly)));
}

#[test]
fn requested_dedups_in_order() {
    assert_eq!(requested(&vec![s("b,a"), s("b")]), vec![s("b"), s("a")]);
}

#[test]
fn source_list_default_only() {
    let (sources, invalid) = source_list("");
    assert_eq!(sources, vec![(s("default"), s(DEFAULT_REPO_URL))]);
    assert!(invalid.is_empty());
}

#[test]
fn source_list_overrides_and_orders_by_name() {
    let (sources, invalid) =
        source_list(" work = https://w/x.git , bogus, default=https://d.git, a=, work=https://w2.git");
    assert_eq!(
        sources,
        vec![
            (s("default"), s("https://d.git")),
            (s("work"), s("https://w2.git")),
        ]
    );
    assert_eq!(invalid, vec![s("bogus")]);
}

#[test]
fn source_list_sorts_by_bytes() {
    let (sources, _) = source_list("b=1,B=2,a=3");
    let names: Vec<String> = sources.into_iter().map(|(n, _)| n).collect();
    assert_eq!(names, vec![s("B"), s("a"), s("b"), s("default")]);
}

#[test]
fn template_keys_by_source_and_in_every_active_source() {
    assert_eq!(template_keys(&s("s2/Common"), &vec![s("s1")]), vec![s("s2/common")]);
    assert_eq!(
        template_keys(&s("Common"), &vec![s("s1"), s("s2")]),
        vec![s("s1/common"), s("s2/common")]
    );
    assert!(template_keys(&s("Common"), &vec![]).is_empty());
}

#[test]
fn merged_template_joins_trimmed_parts() {
    assert_eq!(
        merge_template_parts(&vec![s("common1\n"), s("  common2")]),
        Some(s("common1\n\ncommon2"))
    );
    assert_eq!(merge_template_parts(&vec![]), None);
    assert_eq!(merge_template_parts(&vec![s("  ")]), None);
    assert_eq!(merge_template_parts(&vec![s(""), s("")]), Some(s("\n\n")));
}

#[test]
fn plan_without_templates_fails() {
    match plan_gitignore("", vec![], true) {
        Err(GenerateError::Discovery(m)) => assert_eq!(m, "No matching templates found."),
        other => panic!("unexpected {other:?}"),
    }
}

#[test]
fn plan_writes_then_is_up_to_date() {
    let t = vec![(s("Rust"), s("target/"))];
    let written = match plan_gitignore("existing_entry", t.clone(), true) {
        Ok(GitignorePlan::Write(c)) => c,
        other => panic!("unexpected {other:?}"),
    };
    assert!(written.starts_with("existing_entry\n"));
    assert!(written.contains("# git-ignore-start: Rust"));
    assert!(matches!(plan_gitignore(&written, t, true), Ok(GitignorePlan::UpToDate)));
}

#[test]
fn plan_prints_trimmed_content() {
    match plan_gitignore("", vec![(s("Unique"), s("unique2\n"))], false) {
        Ok(GitignorePlan::Print(t)) => assert_eq!(
            t,
            "# git-ignore-start: Unique\nunique2\n# git-ignore-end: Unique\n"
        ),
        other => panic!("unexpected {other:?}"),
    }
}

#[test]
fn hex_and_sha256() {
    assert_eq!(to_hex_lower(&[0x00, 0xab, 0x0f]), "00ab0f");
    assert_eq!(
        sha256_hex(b""),
        "e3b0c44298fc1c149afbf4c8996fb92427ae41e4649b934ca495991b7852b855"
    );
    assert_eq!(
        sha256_hex(b"abc"),
        "ba7816bf8f01cfea414140de5dae2223b00361a396177a9cb410ff61f20015ad"
    );
}

fn oid(hex: &str) -> Oid {
    Oid::from_hex(hex.as_bytes()).expect("valid id")
}

#[test]
fn oid_hex_roundtrip() {
    let h = "0123456789abcdef0123456789abcdef01234567";
    assert_eq!(oid(h).to_hex(), h);
    assert_eq!(oid(&h.to_uppercase()).to_hex(), h);
    assert!(Oid::from_hex(b"abc").is_none());
    assert!(Oid::from_hex(b"zz23456789abcdef0123456789abcdef01234567").is_none());
    assert!(parse_commit_hash(h.as_bytes()).unwrap().same(&oid(h)));
    assert!(parse_commit_hash(&[0xff; 40]).is_none());
}

#[test]
fn sync_action_decisions() {
    let a = oid("1111111111111111111111111111111111111111");
    let b = oid("2222222222222222222222222222222222222222");
    let updated = RepoStatus::Updated { old_oid: a.clone(), new_oid: b.clone() };
    match decide_sync_action(&updated, &Some(a.clone()), &b, true, true) {
        Some(SyncAction::Incremental { old_oid, new_oid }) => {
            assert!(old_oid.same(&a) && new_oid.same(&b))
        }
        other => panic!("unexpected {other:?}"),
    }
    assert!(matches!(
        decide_sync_action(&updated, &Some(b.clone()), &b, true, true),
        Some(SyncAction::Rebuild)
    ));
    assert!(decide_sync_action(&RepoStatus::Matched, &Some(a.clone()), &a, true, true).is_none());
    assert!(matches!(
        decide_sync_action(&RepoStatus::Matched, &Some(a.clone()), &a, false, true),
        Some(SyncAction::Rebuild)
    ));
    assert!(matches!(
        decide_sync_action(&RepoStatus::Matched, &Some(a.clone()), &a, true, false),
        Some(SyncAction::Rebuild)
    ));
    assert!(matches!(
        decide_sync_action(&RepoStatus::Matched, &Some(a.clone()), &b, true, true),
        Some(SyncAction::Rebuild)
    ));
    assert!(matches!(
        decide_sync_action(&RepoStatus::Matched, &None, &a, true, true),
        Some(SyncAction::Rebuild)
    ));
    assert!(matches!(
        decide_sync_action(&RepoStatus::Recloned, &Some(a.clone()), &a, true, true),
        Some(SyncAction::Rebuild)
    ));
}

#[test]
fn fetch_status_cases() {
    let a = oid("1111111111111111111111111111111111111111");
    let b = oid("2222222222222222222222222222222222222222");
    assert!(matches!(fetch_status(Some(a.clone()), Some(b.clone())), RepoStatus::Updated { .. }));
    assert!(matches!(fetch_status(Some(a.clone()), Some(a.clone())), RepoStatus::Matched));
    assert!(matches!(fetch_status(None, Some(b)), RepoStatus::Matched));
    assert!(matches!(fetch_status(Some(a), None), RepoStatus::Matched));
}

#[test]
fn diff_and_apply_decisions() {
    let mut diff = SyncDiff::new();
    assert!(diff.is_empty());
    assert!(!should_apply(&diff, 0, true));
    assert!(should_apply(&diff, 0, false));
    assert!(should_apply(&diff, 1, true));
    diff.deletes.push(s("default/rust"));
    assert!(!diff.is_empty());
    assert!(should_apply(&diff, 0, true));
    let up = SyncUpsert { namespace: s("default/rust"), oid: s("abc"), content: s("target/") };
    assert!(!upsert_needed(&Some(s("abc")), &up));
    assert!(upsert_needed(&Some(s("abd")), &up));
    assert!(upsert_needed(&None, &up));
}

#[test]
fn sync_manager_holds_config() {
    let c = config();
    let m = SyncManager::new(&c);
    assert_eq!(m.config.db_path, PathBuf::from("/tmp/db"));
}

#[test]
fn template_names_from_paths() {
    assert!(is_template_file(b"Rust.gitignore"));
    assert!(!is_template_file(b"README.md"));
    assert_eq!(diff_template_name(&s("default"), b"Global/Vim.gitignore"), Some(s("default/global/vim")));
    assert_eq!(diff_template_name(&s("default"), b"README.md"), None);
    assert_eq!(
        template_name_from_path(&vec![b"Global".to_vec(), b"Vim.gitignore".to_vec()]),
        "global/vim"
    );
    assert_eq!(namespaced(&s("s1"), &s("rust")), "s1/rust");
    assert_eq!(metadata_key(&s("default")), "last_commit_hash:default");
    assert!(in_source("default/rust", &s("default")));
    assert!(!in_source("defaults/rust", &s("default")));
}

#[test]
fn remote_tracking_refs() {
    assert_eq!(remote_tracking_ref(b"refs/heads/main"), Some(s("refs/remotes/origin/main")));
    assert_eq!(remote_tracking_ref(b"refs/tags/v1"), None);
}

#[test]
fn sort_strings_in_byte_order() {
    assert_eq!(
        sort_strings(&vec![s("b"), s("B"), s("a"), s("b")]),
        vec![s("B"), s("a"), s("b"), s("b")]
    );
}

#[test]
fn index_roundtrip_lists_names_once() {
    let names = vec![s("s2/common"), s("s1/common"), s("s2/unique"), s("plain")];
    let bytes = build_index(&names).expect("index");
    assert_eq!(
        template_names_from_keys(&keys_of(bytes)),
        vec![s("common"), s("plain"), s("unique")]
    );
}

#[test]
fn index_with_repeated_key_holds_it_once() {
    let bytes = build_index(&vec![s("x/a"), s("x/a")]).expect("index");
    assert_eq!(template_names_from_keys(&keys_of(bytes)), vec![s("a")]);
}

fn keys_of(bytes: Vec<u8>) -> Vec<Vec<u8>> {
    fst::Set::new(bytes).expect("set").stream().into_bytes()
}

#[test]
fn names_from_keys_are_listed_once_in_order() {
    let keys = vec![b"s2/b".to_vec(), b"a".to_vec(), b"s1/b".to_vec(), b"x/\xff".to_vec()];
    assert_eq!(template_names_from_keys(&keys), vec![s("a"), s("b"), s("\u{FFFD}")]);
}

#[test]
fn repo_state_determination() {
    assert!(matches!(RepoState::determine(false, true, true, true), RepoState::Missing));
    assert!(matches!(RepoState::determine(true, true, true, true), RepoState::Corrupted));
    assert!(matches!(RepoState::determine(true, false, true, true), RepoState::ForceReclone));
    assert!(matches!(RepoState::determine(true, false, true, false), RepoState::NeedsFetch));
    assert!(matches!(RepoState::determine(true, false, false, false), RepoState::Valid));
    assert!(RepoState::Missing.needs_clone() && !RepoState::Missing.needs_removal());
    assert!(RepoState::Corrupted.needs_clone() && RepoState::Corrupted.needs_removal());
    assert!(!RepoState::Valid.needs_clone() && !RepoState::NeedsFetch.needs_clone());
}

#[test]
fn invalid_utf8_in_paths_is_replaced() {
    assert_eq!(
        diff_template_name(&s("d"), b"A\xff.gitignore"),
        Some(s("d/a\u{FFFD}"))
    );
    assert_eq!(
        template_name_from_path(&vec![b"X\xfe.gitignore".to_vec()]),
        "x\u{FFFD}"
    );
    assert_eq!(remote_tracking_ref(b"refs/heads/\xff"), Some(s("refs/remotes/origin/\u{FFFD}")));
}

#[test]
fn recorded_commit_per_action() {
    let a = oid("1111111111111111111111111111111111111111");
    let b = oid("2222222222222222222222222222222222222222");
    let inc = Some(SyncAction::Incremental { old_oid: a.clone(), new_oid: b.clone() });
    assert!(recorded_commit(&inc, &a).unwrap().same(&b));
    assert!(recorded_commit(&Some(SyncAction::Rebuild), &a).unwrap().same(&a));
    assert!(recorded_commit(&None, &a).is_none());
}

#[test]
fn change_effects() {
    let d = s("default");
    assert_eq!(
        change_effect(&d, &TreeChange::Addition { location: b"Rust.gitignore".to_vec() }),
        vec![ChangeEffect::Upsert(s("default/rust"))]
    );
    assert_eq!(
        change_effect(&d, &TreeChange::Modification { location: b"Go.gitignore".to_vec() }),
        vec![ChangeEffect::Upsert(s("default/go"))]
    );
    assert_eq!(
        change_effect(&d, &TreeChange::Deletion { location: b"Old.gitignore".to_vec() }),
        vec![ChangeEffect::Delete(s("default/old"))]
    );
    assert_eq!(
        change_effect(
            &d,
            &TreeChange::Rewrite {
                source_location: b"A.gitignore".to_vec(),
                location: b"B.gitignore".to_vec()
            }
        ),
        vec![ChangeEffect::Delete(s("default/a")), ChangeEffect::Upsert(s("default/b"))]
    );
    assert_eq!(
        change_effect(
            &d,
            &TreeChange::Rewrite {
                source_location: b"notes.txt".to_vec(),
                location: b"C.gitignore".to_vec()
            }
        ),
        vec![ChangeEffect::Upsert(s("default/c"))]
    );
    assert_eq!(change_effect(&d, &TreeChange::Deletion { location: b"README.md".to_vec() }), vec![]);
}

#[test]
fn recorded_commit_text_reads_back_as_the_id() {
    let id = Oid { bytes: (0u8..20).map(|b| b.wrapping_mul(13)).collect() };
    let text = id.to_hex();
    assert_eq!(text, "000d1a2734414e5b6875828f9ca9b6c3d0ddeaf7");
    assert!(parse_commit_hash(text.as_bytes()).unwrap().same(&id));
    let upper = text.to_uppercase();
    assert_eq!(Oid::from_hex(upper.as_bytes()).unwrap().bytes, id.bytes);
}

#[test]
fn source_clone_directory() {
    assert_eq!(git_ignore::config::source_dir(&"default".to_string()), "sources/default");
}
