use vstd::prelude::*;

use crate::codec::decode_sections;
use crate::diff::{
    apply_op, apply_ops, lemma_apply_patches_between, transition, EnvDiff, EnvDiffOperation,
    EnvDiffPatches,
};
use crate::paths::{
    entries_joinable, is_sep, join_path, join_path_entries, lemma_join_split, lemma_split_joinable,
    lemma_strip_nothing, split_path, split_paths, strip_injected, strip_path_additions,
};
use crate::snapshot::{pairs_map, EnvSnapshot};

verus! {

/// The name of the variable that holds the search path.
pub open spec fn path_key() -> Seq<char> {
    seq!['P', 'A', 'T', 'H']
}

/// The environment before the hook ran: `m` with the diff's changes undone, then
/// its `PATH` split, stripped of the injected entries and joined again. An unset
/// `PATH` counts as no entries, so it comes out set to the empty value.
pub open spec fn pristine_env(
    m: Map<Seq<char>, Seq<char>>,
    before: Map<Seq<char>, Seq<char>>,
    after: Map<Seq<char>, Seq<char>>,
    adds: Seq<Seq<char>>,
) -> Map<Seq<char>, Seq<char>> {
    let t = transition(m, after, before);
    let entries = if t.contains_key(path_key()) {
        split_path(t[path_key()])
    } else {
        Seq::<Seq<char>>::empty()
    };
    t.insert(path_key(), join_path(strip_injected(entries, adds)))
}

/// Applies `patches` to a copy of `env`, in order; the last operation on a name wins,
/// and removing an unset name does nothing.
pub fn apply_patches(env: &EnvSnapshot, patches: &EnvDiffPatches) -> (r: EnvSnapshot)
    requires
        env.wf(),
    ensures
        r.wf(),
        r.view() == apply_ops(env.view(), patches@),
{
    let mut new_env = env.duplicate();
    let mut i: usize = 0;
    while i < patches.len()
        invariant
            env.wf(),
            new_env.wf(),
            i <= patches@.len(),
            new_env.view() == apply_ops(env.view(), patches@.take(i as int)),
        decreases patches@.len() - i,
    {
        proof {
            assert(patches@.take(i as int + 1).drop_last() =~= patches@.take(i as int));
        }
        match &patches[i] {
            EnvDiffOperation::Add(k, v) => {
                new_env.insert(k.clone(), v.clone());
            },
            EnvDiffOperation::Change(k, v) => {
                new_env.insert(k.clone(), v.clone());
            },
            EnvDiffOperation::Remove(k) => {
                new_env.remove(k);
            },
        }
        i = i + 1;
    }
    proof {
        assert(patches@.take(patches@.len() as int) =~= patches@);
    }
    new_env
}

/// Rebuilds the environment as it was before the hook ran, from the current one
/// and the diff the hook recorded.
pub fn get_pristine_env(rtx_diff: &EnvDiff, orig_env: EnvSnapshot) -> (r: EnvSnapshot)
    requires
        rtx_diff.wf(),
        orig_env.wf(),
    ensures
        r.wf(),
        r.view() == pristine_env(
            orig_env.view(),
            rtx_diff.before(),
            rtx_diff.after(),
            rtx_diff.path_additions(),
        ),
{
    let reversed = rtx_diff.reverse();
    let patches = reversed.to_patches();
    let mut env = apply_patches(&orig_env, &patches);
    proof {
        lemma_apply_patches_between(orig_env.view(), patches@, rtx_diff.after(), rtx_diff.before());
    }
    let key = String::from_str("PATH");
    proof {
        reveal_strlit("PATH");
        assert(key@ =~= path_key());
    }
    let path: Vec<String> = match env.get(&key) {
        Some(p) => {
            proof {
                lemma_split_joinable(p@);
            }
            split_paths(p.as_str())
        },
        None => Vec::new(),
    };
    proof {
        assert(path@.map_values(|e: String| e@) =~= (if env.view().contains_key(path_key()) {
            split_path(env.view()[path_key()])
        } else {
            Seq::<Seq<char>>::empty()
        }));
        assert(entries_joinable(path@.map_values(|e: String| e@)));
    }
    let stripped = strip_path_additions(&path, rtx_diff.path());
    proof {
        let pv = path@.map_values(|e: String| e@);
        let sv = stripped@.map_values(|e: String| e@);
        assert forall|i: int, j: int| 0 <= i < sv.len() && 0 <= j < sv[i].len() implies !is_sep(#[trigger] sv[i][j]) by {
            let l = choose|l: int| 0 <= l < path@.len() && #[trigger] stripped@[i]@ == path@[l]@;
            assert(sv[i] == pv[l]);
            assert(!is_sep(pv[l][j]));
        }
    }
    let joined = join_path_entries(&stripped);
    env.insert(key, joined);
    env
}

/// A `PATH` entry that holds the separator and so cannot be joined.
pub struct PathJoinError {
    /// The position of the offending entry.
    pub index: usize,
}

fn has_sep(s: &String) -> (r: bool)
    ensures
        r == exists|j: int| 0 <= j < s@.len() && is_sep(#[trigger] s@[j]),
{
    let t = s.as_str();
    let n = t.unicode_len();
    let mut j: usize = 0;
    while j < n
        invariant
            n == s@.len(),
            t@ == s@,
            j <= n,
            forall|l: int| 0 <= l < j ==> !is_sep(#[trigger] s@[l]),
        decreases n - j,
    {
        if t.get_char(j) == ':' {
            return true;
        }
        j = j + 1;
    }
    false
}

/// Joins `PATH` entries with the separator; fails on the first entry that holds it.
pub fn join_paths(entries: &Vec<String>) -> (r: Result<String, PathJoinError>)
    ensures
        r is Ok <==> entries_joinable(entries@.map_values(|e: String| e@)),
        r matches Ok(s) ==> s@ == join_path(entries@.map_values(|e: String| e@)),
        r matches Err(e) ==> e.index < entries@.len() && entries_joinable(
            entries@.map_values(|e: String| e@).take(e.index as int),
        ),
        r matches Err(e) ==> e.index < entries@.len() && !entries_joinable(
            entries@.map_values(|e: String| e@).take(e.index + 1),
        ),
{
    let ghost ev = entries@.map_values(|e: String| e@);
    let mut i: usize = 0;
    while i < entries.len()
        invariant
            ev == entries@.map_values(|e: String| e@),
            i <= entries@.len(),
            forall|a: int, b: int| 0 <= a < i && 0 <= b < ev[a].len() ==> !is_sep(#[trigger] ev[a][b]),
        decreases entries@.len() - i,
    {
        if has_sep(&entries[i]) {
            proof {
                let j = choose|j: int| 0 <= j < entries@[i as int]@.len() && is_sep(#[trigger] entries@[i as int]@[j]);
                assert(is_sep(ev[i as int][j]));
                assert(!entries_joinable(ev));
                assert(entries_joinable(ev.take(i as int))) by {
                    assert forall|a: int, b: int| 0 <= a < ev.take(i as int).len() && 0 <= b < ev.take(i as int)[a].len()
                        implies !is_sep(#[trigger] ev.take(i as int)[a][b]) by {
                        assert(ev.take(i as int)[a] == ev[a]);
                    }
                }
            }
            let err = PathJoinError { index: i };
            proof {
                let j = choose|j: int| 0 <= j < entries@[i as int]@.len() && is_sep(#[trigger] entries@[i as int]@[j]);
                assert(is_sep(ev.take(i + 1)[i as int][j]));
            }
            return Err(err);
        }
        i = i + 1;
    }
    Ok(join_path_entries(entries))
}

/// The diff recorded in the carrier variable, given its value if it is set. An
/// unset or malformed value counts as the empty diff: nothing was injected yet.
pub fn get_env_diff(raw: Option<&str>) -> (r: EnvDiff)
    ensures
        r.wf(),
        raw is Some && decode_sections(raw->Some_0@) is Some ==> r.before() == pairs_map(
            decode_sections(raw->Some_0@)->Some_0.0,
        ),
        raw is Some && decode_sections(raw->Some_0@) is Some ==> r.after() == pairs_map(
            decode_sections(raw->Some_0@)->Some_0.1,
        ),
        raw is Some && decode_sections(raw->Some_0@) is Some ==> r.path_additions()
            == decode_sections(raw->Some_0@)->Some_0.2,
        !(raw is Some && decode_sections(raw->Some_0@) is Some) ==> r.is_empty_diff(),
{
    match raw {
        Some(s) => match EnvDiff::deserialize(s) {
            Ok(d) => d,
            Err(_) => EnvDiff::empty(),
        },
        None => EnvDiff::empty(),
    }
}

/// A name for what `str::to_lowercase` makes of a text.
pub uninterp spec fn lower_of(s: Seq<char>) -> Seq<char>;

/// Relies on `str::to_lowercase`: its result depends on the text alone.
#[verifier::external_body]
fn lowercase(s: &str) -> (r: String)
    ensures
        r@ == lower_of(s@),
{
    s.to_lowercase()
}

/// Whether two texts are equal.
fn same_text(a: &str, b: &str) -> (r: bool)
    ensures
        r == (a@ == b@),
{
    let n = a.unicode_len();
    if n != b.unicode_len() {
        return false;
    }
    let mut i: usize = 0;
    while i < n
        invariant
            n == a@.len(),
            n == b@.len(),
            i <= n,
            forall|j: int| 0 <= j < i ==> a@[j] == b@[j],
        decreases n - i,
    {
        if a.get_char(i) != b.get_char(i) {
            return false;
        }
        i = i + 1;
    }
    assert(a@ =~= b@);
    true
}

/// The lower-case values that switch a flag off.
pub open spec fn is_falsy(v: Seq<char>) -> bool {
    v.len() == 0 || v == seq!['n'] || v == seq!['n', 'o'] || v == seq!['f', 'a', 'l', 's', 'e']
        || v == seq!['0'] || v == seq!['o', 'f', 'f'] || v == seq![' ']
}

/// Whether an already lower-cased flag value switches the flag on.
pub fn is_true_lowered(v: &str) -> (r: bool)
    ensures
        r == !is_falsy(v@),
{
    proof {
        reveal_strlit("n");
        assert("n"@ =~= seq!['n']);
        reveal_strlit("no");
        assert("no"@ =~= seq!['n', 'o']);
        reveal_strlit("false");
        assert("false"@ =~= seq!['f', 'a', 'l', 's', 'e']);
        reveal_strlit("0");
        assert("0"@ =~= seq!['0']);
        reveal_strlit("off");
        assert("off"@ =~= seq!['o', 'f', 'f']);
        reveal_strlit(" ");
        assert(" "@ =~= seq![' ']);
    }
    !(v.unicode_len() == 0 || same_text(v, "n") || same_text(v, "no") || same_text(v, "false")
        || same_text(v, "0") || same_text(v, "off") || same_text(v, " "))
}

/// Whether a flag variable with this value, if set, is on: it is set, and its
/// lower-cased value is none of the off values.
pub fn var_is_true(value: Option<&str>) -> (r: bool)
    ensures
        r == (value matches Some(v) && !is_falsy(lower_of(v@))),
{
    match value {
        Some(v) => {
            let l = lowercase(v);
            is_true_lowered(l.as_str())
        },
        None => false,
    }
}

/// The subcommands for which no newer versions are fetched.
pub open spec fn is_stale_command(c: Seq<char>) -> bool {
    c == seq!['e', 'n', 'v'] || c == seq!['h', 'o', 'o', 'k', '-', 'e', 'n', 'v'] || c == seq!['x']
        || c == seq!['e', 'x', 'e', 'c'] || c == seq!['d', 'i', 'r', 'e', 'n', 'v'] || c == seq![
        'a',
        'c',
        't',
        'i',
        'v',
        'a',
        't',
        'e',
    ] || c == seq!['c', 'u', 'r', 'r', 'e', 'n', 't'] || c == seq!['l', 's'] || c == seq![
        'w',
        'h',
        'e',
        'r',
        'e',
    ]
}

/// Whether newer versions should not be fetched: the subcommand, the second
/// argument, is one that only reads what is installed.
pub fn prefer_stale(args: &Vec<String>) -> (r: bool)
    ensures
        r == (args@.len() > 1 && is_stale_command(args@[1]@)),
{
    if args.len() > 1 {
        let c = args[1].as_str();
        proof {
            reveal_strlit("env");
            assert("env"@ =~= seq!['e', 'n', 'v']);
            reveal_strlit("hook-env");
            assert("hook-env"@ =~= seq!['h', 'o', 'o', 'k', '-', 'e', 'n', 'v']);
            reveal_strlit("x");
            assert("x"@ =~= seq!['x']);
            reveal_strlit("exec");
            assert("exec"@ =~= seq!['e', 'x', 'e', 'c']);
            reveal_strlit("direnv");
            assert("direnv"@ =~= seq!['d', 'i', 'r', 'e', 'n', 'v']);
            reveal_strlit("activate");
            assert("activate"@ =~= seq!['a', 'c', 't', 'i', 'v', 'a', 't', 'e']);
            reveal_strlit("current");
            assert("current"@ =~= seq!['c', 'u', 'r', 'r', 'e', 'n', 't']);
            reveal_strlit("ls");
            assert("ls"@ =~= seq!['l', 's']);
            reveal_strlit("where");
            assert("where"@ =~= seq!['w', 'h', 'e', 'r', 'e']);
        }
        return same_text(c, "env") || same_text(c, "hook-env") || same_text(c, "x") || same_text(c, "exec")
            || same_text(c, "direnv") || same_text(c, "activate") || same_text(c, "current")
            || same_text(c, "ls") || same_text(c, "where");
    }
    false
}

/// Whether the subcommand, the second argument, is `cmd`.
pub fn is_cmd(args: &Vec<String>, cmd: &str) -> (r: bool)
    ensures
        r == (args@.len() > 1 && args@[1]@ == cmd@),
{
    if args.len() > 1 {
        return same_text(args[1].as_str(), cmd);
    }
    false
}

#[verifier::external_type_specification]
#[verifier::external_body]
pub struct ExPathBuf(std::path::PathBuf);

/// Relies on `PathBuf::from(String)`: the path takes over the text as it is.
#[verifier::external_body]
fn path_buf_from(s: String) -> std::path::PathBuf {
    std::path::PathBuf::from(s)
}

/// The value of a path variable, if it is set, as a path.
pub fn var_path(value: Option<String>) -> (r: Option<std::path::PathBuf>)
    ensures
        r is Some == value is Some,
{
    match value {
        Some(v) => Some(path_buf_from(v)),
        None => None,
    }
}

/// Removing a name that is not set leaves the environment as it is.
pub proof fn lemma_remove_missing(m: Map<Seq<char>, Seq<char>>, k: String)
    requires
        !m.contains_key(k@),
    ensures
        apply_ops(m, seq![EnvDiffOperation::Remove(k)]) == m,
{
    let ops = seq![EnvDiffOperation::Remove(k)];
    assert(ops.drop_last() =~= Seq::<EnvDiffOperation>::empty());
    assert(apply_ops(m, ops.drop_last()) == m);
    assert(m.remove(k@) =~= m);
}

/// Of an `Add` and a later `Change` of the same name, the `Change` decides the value.
pub proof fn lemma_last_write_wins(
    m: Map<Seq<char>, Seq<char>>,
    k1: String,
    v1: String,
    k2: String,
    v2: String,
)
    requires
        k1@ == k2@,
    ensures
        apply_ops(m, seq![EnvDiffOperation::Add(k1, v1), EnvDiffOperation::Change(k2, v2)]).contains_key(k2@),
        apply_ops(m, seq![EnvDiffOperation::Add(k1, v1), EnvDiffOperation::Change(k2, v2)])[k2@] == v2@,
{
    let ops = seq![EnvDiffOperation::Add(k1, v1), EnvDiffOperation::Change(k2, v2)];
    assert(ops.drop_last().drop_last() =~= Seq::<EnvDiffOperation>::empty());
    assert(ops.drop_last() =~= seq![EnvDiffOperation::Add(k1, v1)]);
    assert(ops.drop_last().last() == EnvDiffOperation::Add(k1, v1));
    assert(ops.last() == EnvDiffOperation::Change(k2, v2));
}

/// With a diff that changes nothing and appended nothing, the rebuilt environment
/// is the current one, `PATH` included, whenever `PATH` is set.
pub proof fn lemma_empty_diff_pristine(m: Map<Seq<char>, Seq<char>>, d: EnvDiff)
    requires
        d.is_empty_diff(),
        m.contains_key(path_key()),
    ensures
        pristine_env(m, d.before(), d.after(), d.path_additions()) == m,
{
    let t = transition(m, d.after(), d.before());
    assert(t =~= m);
    lemma_strip_nothing(split_path(m[path_key()]));
    lemma_join_split(m[path_key()]);
    assert(m.insert(path_key(), m[path_key()]) =~= m);
}

} // verus!
