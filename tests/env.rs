use std::path::PathBuf;

use rtx_env::diff::{EnvDiff, EnvDiffOperation};
use rtx_env::env::{
    apply_patches, get_env_diff, get_pristine_env, is_cmd, is_true_lowered, join_paths,
    prefer_stale, var_is_true, var_path,
};
use rtx_env::paths::{split_paths, strip_path_additions};
use rtx_env::snapshot::EnvSnapshot;

fn s(x: &str) -> String {
    x.to_string()
}

fn snapshot(pairs: &[(&str, &str)]) -> EnvSnapshot {
    let mut env = EnvSnapshot::new();
    for (k, v) in pairs {
        env.insert(s(k), s(v));
    }
    env
}

fn get(env: &EnvSnapshot, k: &str) -> Option<String> {
    env.get(&s(k)).cloned()
}

fn same(a: &EnvSnapshot, b: &EnvSnapshot) -> bool {
    if a.len() != b.len() {
        return false;
    }
    for i in 0..a.size() {
        let (k, v) = a.entry(i);
        if b.get(k) != Some(v) {
            return false;
        }
    }
    true
}

fn diff(before: &[(&str, &str)], after: &[(&str, &str)], path: &[&str]) -> EnvDiff {
    EnvDiff::new(snapshot(before), snapshot(after), path.iter().map(|p| s(p)).collect())
}

#[test]
fn test_apply_patches() {
    let mut env = EnvSnapshot::new();
    env.insert("foo".into(), "bar".into());
    env.insert("baz".into(), "qux".into());
    let patches = vec![
        EnvDiffOperation::Add("foo".into(), "bar".into()),
        EnvDiffOperation::Change("baz".into(), "qux".into()),
        EnvDiffOperation::Remove("quux".into()),
    ];
    let new_env = apply_patches(&env, &patches);
    assert_eq!(new_env.len(), 2);
    assert_eq!(new_env.get(&"foo".to_string()).unwrap(), "bar");
    assert_eq!(new_env.get(&"baz".to_string()).unwrap(), "qux");
}

#[test]
fn test_var_path() {
    assert_eq!(
        var_path(Some("/foo/bar".to_string())).unwrap(),
        PathBuf::from("/foo/bar")
    );
    assert!(var_path(None).is_none());
}

#[test]
fn round_trip_restores_snapshot() {
    let start = snapshot(&[("A", "1"), ("B", "2"), ("KEEP", "k")]);
    let d = diff(&[("A", "1"), ("B", "2")], &[("A", "10"), ("C", "3")], &[]);
    let forward = apply_patches(&start, &d.to_patches());
    assert_eq!(get(&forward, "A"), Some(s("10")));
    assert_eq!(get(&forward, "B"), None);
    assert_eq!(get(&forward, "C"), Some(s("3")));
    let back = apply_patches(&forward, &d.reverse().to_patches());
    assert!(same(&back, &start));
}

#[test]
fn to_patches_kinds() {
    let d = diff(&[("A", "1"), ("B", "2"), ("S", "same")], &[("A", "10"), ("C", "3"), ("S", "same")], &[]);
    let patches = d.to_patches();
    assert_eq!(patches.len(), 3);
    let mut adds = 0;
    let mut changes = 0;
    let mut removes = 0;
    for p in &patches {
        match p {
            EnvDiffOperation::Add(k, v) => {
                adds += 1;
                assert_eq!((k.as_str(), v.as_str()), ("C", "3"));
            }
            EnvDiffOperation::Change(k, v) => {
                changes += 1;
                assert_eq!((k.as_str(), v.as_str()), ("A", "10"));
            }
            EnvDiffOperation::Remove(k) => {
                removes += 1;
                assert_eq!(k, "B");
            }
        }
    }
    assert_eq!((adds, changes, removes), (1, 1, 1));
}

#[test]
fn idempotent_path_removal() {
    let d = diff(&[], &[], &["/a/bin", "/a/bin"]);
    let env = snapshot(&[("PATH", "/a/bin:/x:/a/bin")]);
    let pristine = get_pristine_env(&d, env);
    assert_eq!(get(&pristine, "PATH"), Some(s("/x:/a/bin")));
}

#[test]
fn duplicate_path_preserved() {
    let d = diff(&[], &[], &["/a/bin"]);
    let env = snapshot(&[("PATH", "/a/bin:/a/bin")]);
    let pristine = get_pristine_env(&d, env);
    assert_eq!(get(&pristine, "PATH"), Some(s("/a/bin")));
}

#[test]
fn remove_missing_key_is_noop() {
    let env = snapshot(&[("foo", "bar")]);
    let out = apply_patches(&env, &vec![EnvDiffOperation::Remove(s("missing_key"))]);
    assert!(same(&out, &env));
}

#[test]
fn malformed_carrier_gives_empty_diff() {
    for raw in ["garbage", "a;b;|", "a;|b;|c;|", "x\\", "ab|;|;|", ""] {
        let d = get_env_diff(Some(raw));
        assert_eq!(d.path().len(), 0);
        assert!(d.to_patches().is_empty());
        assert!(EnvDiff::deserialize(raw).is_err());
    }
    let d = get_env_diff(None);
    assert_eq!(d.path().len(), 0);
}

#[test]
fn empty_diff_keeps_environment() {
    let env = snapshot(&[("PATH", "/usr/bin::/bin"), ("FOO", "x")]);
    let copy = env.duplicate();
    let pristine = get_pristine_env(&EnvDiff::empty(), env);
    assert!(same(&pristine, &copy));
}

#[test]
fn unset_path_comes_out_empty() {
    let env = snapshot(&[("FOO", "x")]);
    let pristine = get_pristine_env(&EnvDiff::empty(), env);
    assert_eq!(get(&pristine, "PATH"), Some(s("")));
    assert_eq!(get(&pristine, "FOO"), Some(s("x")));
}

#[test]
fn last_write_wins() {
    let env = snapshot(&[("other", "o")]);
    let patches = vec![
        EnvDiffOperation::Add(s("k"), s("1")),
        EnvDiffOperation::Change(s("k"), s("2")),
    ];
    let out = apply_patches(&env, &patches);
    assert_eq!(get(&out, "k"), Some(s("2")));
}

#[test]
fn hook_scenario() {
    let env = snapshot(&[("PATH", "/usr/bin:/hook/bin"), ("FOO", "hooked")]);
    let d = diff(&[], &[("FOO", "hooked")], &["/hook/bin"]);
    let pristine = get_pristine_env(&d, env);
    assert_eq!(get(&pristine, "PATH"), Some(s("/usr/bin")));
    assert_eq!(get(&pristine, "FOO"), None);
    assert_eq!(pristine.len(), 1);
}

#[test]
fn pristine_restores_changed_and_removed() {
    let env = snapshot(&[("PATH", "/hook/bin:/usr/bin"), ("A", "new")]);
    let d = diff(&[("A", "old"), ("B", "gone")], &[("A", "new")], &["/hook/bin"]);
    let pristine = get_pristine_env(&d, env);
    assert_eq!(get(&pristine, "A"), Some(s("old")));
    assert_eq!(get(&pristine, "B"), Some(s("gone")));
    assert_eq!(get(&pristine, "PATH"), Some(s("/usr/bin")));
}

#[test]
fn serialize_round_trip() {
    let d = diff(
        &[("A;B", "x|y"), ("C\\", "")],
        &[("A;B", "z"), ("N", "new;|\\")],
        &["/a:b", "", "/c|;"],
    );
    let text = d.serialize();
    let back = EnvDiff::deserialize(&text).ok().unwrap();
    assert_eq!(back.serialize(), text);
    assert_eq!(back.path(), &vec![s("/a:b"), s(""), s("/c|;")]);
    let from_carrier = get_env_diff(Some(&text));
    assert_eq!(from_carrier.path().len(), 3);
    assert_eq!(from_carrier.to_patches().len(), 3);
}

#[test]
fn serialized_text_is_escaped() {
    let d = diff(&[("k;", "v")], &[], &["|"]);
    assert_eq!(d.serialize(), r"k\;;v;||\|;|");
    let e = EnvDiff::empty();
    assert_eq!(e.serialize(), "|||");
}

#[test]
fn split_and_join_paths() {
    assert_eq!(split_paths("/a::/b"), vec![s("/a"), s(""), s("/b")]);
    assert_eq!(split_paths(""), vec![s("")]);
    assert_eq!(join_paths(&vec![s("/a"), s(""), s("/b")]).ok().unwrap(), "/a::/b");
    assert_eq!(join_paths(&vec![]).ok().unwrap(), "");
    match join_paths(&vec![s("/a"), s("/b:c"), s("/d:")]) {
        Err(e) => assert_eq!(e.index, 1),
        Ok(_) => panic!("joined an entry holding the separator"),
    }
}

#[test]
fn strip_first_occurrence_only() {
    let path = vec![s("/x"), s("/a"), s("/y"), s("/a"), s("/b")];
    let adds = vec![s("/a"), s("/b"), s("/a"), s("/missing")];
    assert_eq!(strip_path_additions(&path, &adds), vec![s("/x"), s("/y"), s("/a")]);
}

#[test]
fn flag_values() {
    assert!(var_is_true(Some("1")));
    assert!(var_is_true(Some("yes")));
    assert!(var_is_true(Some("TRUE")));
    assert!(!var_is_true(Some("FALSE")));
    assert!(!var_is_true(Some("Off")));
    assert!(!var_is_true(Some("NO")));
    assert!(!var_is_true(Some("")));
    assert!(!var_is_true(Some(" ")));
    assert!(!var_is_true(Some("0")));
    assert!(!var_is_true(None));
    assert!(is_true_lowered("FALSE"));
    assert!(!is_true_lowered("false"));
}

#[test]
fn subcommand_checks() {
    let args = vec![s("rtx"), s("hook-env"), s("-s")];
    assert!(prefer_stale(&args));
    assert!(is_cmd(&args, "hook-env"));
    assert!(!is_cmd(&args, "env"));
    assert!(!prefer_stale(&vec![s("rtx"), s("install")]));
    assert!(!prefer_stale(&vec![s("rtx")]));
    assert!(!is_cmd(&vec![s("rtx")], "env"));
    assert!(prefer_stale(&vec![s("rtx"), s("where"), s("node")]));
}

#[test]
fn reverse_patches_undo_forward() {
    let d = diff(&[("A", "1"), ("B", "2")], &[("A", "10"), ("C", "3")], &["/p"]);
    let r = d.reverse();
    assert_eq!(r.path(), &vec![s("/p")]);
    let mut seen = Vec::new();
    for p in &r.to_patches() {
        match p {
            EnvDiffOperation::Add(k, v) => seen.push(format!("add {}={}", k, v)),
            EnvDiffOperation::Change(k, v) => seen.push(format!("change {}={}", k, v)),
            EnvDiffOperation::Remove(k) => seen.push(format!("remove {}", k)),
        }
    }
    seen.sort();
    assert_eq!(seen, vec![s("add B=2"), s("change A=1"), s("remove C")]);
}
