use vstd::prelude::*;

use crate::codec::{decode, decode_sections, encode, encode_sections, lemma_decode_encode};
use crate::snapshot::{pairs_map, EnvSnapshot};

verus! {

/// One atomic change to an environment.
pub enum EnvDiffOperation {
    /// The variable was unset and now holds the value.
    Add(String, String),
    /// The variable held another value and now holds this one.
    Change(String, String),
    /// The variable was set and is now unset.
    Remove(String),
}

/// An ordered sequence of operations, applied first to last.
pub type EnvDiffPatches = Vec<EnvDiffOperation>;

/// The name an operation acts on.
pub open spec fn op_key(op: EnvDiffOperation) -> Seq<char> {
    match op {
        EnvDiffOperation::Add(k, _) => k@,
        EnvDiffOperation::Change(k, _) => k@,
        EnvDiffOperation::Remove(k) => k@,
    }
}

/// The effect of one operation: `Add` and `Change` set the name, `Remove` unsets it.
pub open spec fn apply_op(m: Map<Seq<char>, Seq<char>>, op: EnvDiffOperation) -> Map<Seq<char>, Seq<char>> {
    match op {
        EnvDiffOperation::Add(k, v) => m.insert(k@, v@),
        EnvDiffOperation::Change(k, v) => m.insert(k@, v@),
        EnvDiffOperation::Remove(k) => m.remove(k@),
    }
}

/// The effect of a sequence of operations, applied in order.
pub open spec fn apply_ops(m: Map<Seq<char>, Seq<char>>, ops: Seq<EnvDiffOperation>) -> Map<
    Seq<char>,
    Seq<char>,
>
    decreases ops.len(),
{
    if ops.len() == 0 {
        m
    } else {
        apply_op(apply_ops(m, ops.drop_last()), ops.last())
    }
}

/// True when `k` is set differently in `a` and in `b`.
pub open spec fn differs(k: Seq<char>, a: Map<Seq<char>, Seq<char>>, b: Map<Seq<char>, Seq<char>>) -> bool {
    a.contains_key(k) != b.contains_key(k) || (a.contains_key(k) && b.contains_key(k) && a[k] != b[k])
}

/// True when `op` is the operation that takes `a` to `b` on its name.
pub open spec fn op_between(op: EnvDiffOperation, a: Map<Seq<char>, Seq<char>>, b: Map<Seq<char>, Seq<char>>) -> bool {
    match op {
        EnvDiffOperation::Add(k, v) => !a.contains_key(k@) && b.contains_key(k@) && b[k@] == v@,
        EnvDiffOperation::Change(k, v) => a.contains_key(k@) && b.contains_key(k@) && a[k@] != b[k@]
            && b[k@] == v@,
        EnvDiffOperation::Remove(k) => a.contains_key(k@) && !b.contains_key(k@),
    }
}

/// True when `ops` holds exactly one operation for each name on which `a` and `b`
/// differ, each taking `a` to `b`, and nothing else.
pub open spec fn patches_between(ops: Seq<EnvDiffOperation>, a: Map<Seq<char>, Seq<char>>, b: Map<Seq<char>, Seq<char>>) -> bool {
    &&& forall|i: int| 0 <= i < ops.len() ==> op_between(#[trigger] ops[i], a, b)
    &&& forall|i: int, j: int|
        0 <= i < ops.len() && 0 <= j < ops.len() && i != j ==> op_key(#[trigger] ops[i]) != op_key(#[trigger] ops[j])
    &&& forall|k: Seq<char>| #[trigger] differs(k, a, b) ==> exists|i: int| 0 <= i < ops.len() && op_key(#[trigger] ops[i]) == k
}

/// What applying the operations between `a` and `b` makes of `m`: every name on
/// which `a` and `b` differ takes its state in `b`; every other name keeps its state in `m`.
pub open spec fn transition(m: Map<Seq<char>, Seq<char>>, a: Map<Seq<char>, Seq<char>>, b: Map<Seq<char>, Seq<char>>) -> Map<Seq<char>, Seq<char>> {
    Map::new(
        |k: Seq<char>| if differs(k, a, b) { b.contains_key(k) } else { m.contains_key(k) },
        |k: Seq<char>| if differs(k, a, b) { b[k] } else { m[k] },
    )
}

/// A name that no operation touches keeps its state.
pub proof fn lemma_apply_untouched(m: Map<Seq<char>, Seq<char>>, ops: Seq<EnvDiffOperation>, k: Seq<char>)
    requires
        forall|i: int| 0 <= i < ops.len() ==> op_key(#[trigger] ops[i]) != k,
    ensures
        apply_ops(m, ops).contains_key(k) == m.contains_key(k),
        m.contains_key(k) ==> apply_ops(m, ops)[k] == m[k],
    decreases ops.len(),
{
    if ops.len() > 0 {
        assert(op_key(ops[ops.len() - 1]) != k);
        lemma_apply_untouched(m, ops.drop_last(), k);
    }
}

/// A name takes the state that the last operation on it gives.
pub proof fn lemma_apply_last(m: Map<Seq<char>, Seq<char>>, ops: Seq<EnvDiffOperation>, i: int)
    requires
        0 <= i < ops.len(),
        forall|j: int| i < j < ops.len() ==> op_key(#[trigger] ops[j]) != op_key(ops[i]),
    ensures
        apply_ops(m, ops).contains_key(op_key(ops[i])) == !(ops[i] is Remove),
        match ops[i] {
            EnvDiffOperation::Add(k, v) => apply_ops(m, ops)[k@] == v@,
            EnvDiffOperation::Change(k, v) => apply_ops(m, ops)[k@] == v@,
            EnvDiffOperation::Remove(_) => true,
        },
    decreases ops.len(),
{
    if i < ops.len() - 1 {
        assert(op_key(ops[ops.len() - 1]) != op_key(ops[i]));
        assert(ops.drop_last()[i] == ops[i]);
        lemma_apply_last(m, ops.drop_last(), i);
    }
}

/// Applying the operations between `a` and `b` gives `transition(m, a, b)`.
pub proof fn lemma_apply_patches_between(
    m: Map<Seq<char>, Seq<char>>,
    ops: Seq<EnvDiffOperation>,
    a: Map<Seq<char>, Seq<char>>,
    b: Map<Seq<char>, Seq<char>>,
)
    requires
        patches_between(ops, a, b),
    ensures
        apply_ops(m, ops) == transition(m, a, b),
{
    let r = apply_ops(m, ops);
    let t = transition(m, a, b);
    assert forall|k: Seq<char>| #[trigger] r.contains_key(k) == t.contains_key(k)
        && (r.contains_key(k) ==> r[k] == t[k]) by {
        if exists|i: int| 0 <= i < ops.len() && op_key(#[trigger] ops[i]) == k {
            let i = choose|i: int| 0 <= i < ops.len() && op_key(#[trigger] ops[i]) == k;
            assert(op_between(ops[i], a, b));
            assert forall|j: int| i < j < ops.len() implies op_key(#[trigger] ops[j]) != op_key(ops[i]) by {}
            lemma_apply_last(m, ops, i);
        } else {
            lemma_apply_untouched(m, ops, k);
        }
    }
    assert(r =~= t);
}

/// The text of a diff reads back as a diff with the same states before and after
/// and the same appended entries.
pub proof fn lemma_serialize_round_trip(d: EnvDiff)
    requires
        d.wf(),
    ensures
        decode_sections(d.serialized()) is Some,
        pairs_map(decode_sections(d.serialized())->Some_0.0) == d.before(),
        pairs_map(decode_sections(d.serialized())->Some_0.1) == d.after(),
        decode_sections(d.serialized())->Some_0.2 == d.path_additions(),
{
    d.reveal_serialized_parts();
}

/// True when `back` undoes `fwd`, `before` being the state that `fwd` started from:
/// a `Remove` for an `Add`, a `Change` back to the earlier value for a `Change`,
/// an `Add` of the earlier value for a `Remove`.
pub open spec fn undoes(back: EnvDiffOperation, fwd: EnvDiffOperation, before: Map<Seq<char>, Seq<char>>) -> bool {
    op_key(back) == op_key(fwd) && match fwd {
        EnvDiffOperation::Add(_, _) => back is Remove,
        EnvDiffOperation::Change(k, _) => back matches EnvDiffOperation::Change(_, v) && v@ == before[k@],
        EnvDiffOperation::Remove(k) => back matches EnvDiffOperation::Add(_, v) && v@ == before[k@],
    }
}

/// Each patch of a diff is undone by one patch of its reverse.
pub proof fn lemma_reverse_undoes(
    d: EnvDiff,
    forward: Seq<EnvDiffOperation>,
    backward: Seq<EnvDiffOperation>,
    i: int,
)
    requires
        patches_between(forward, d.before(), d.after()),
        patches_between(backward, d.after(), d.before()),
        0 <= i < forward.len(),
    ensures
        exists|j: int| 0 <= j < backward.len() && undoes(#[trigger] backward[j], forward[i], d.before()),
{
    let a = d.before();
    let b = d.after();
    let k = op_key(forward[i]);
    assert(op_between(forward[i], a, b));
    assert(differs(k, b, a));
    let j = choose|j: int| 0 <= j < backward.len() && op_key(#[trigger] backward[j]) == k;
    assert(op_between(backward[j], b, a));
    assert(undoes(backward[j], forward[i], a));
}

/// True when `m` agrees with the state `a` on every name on which `a` and `b` differ.
pub open spec fn agrees_on_changes(m: Map<Seq<char>, Seq<char>>, a: Map<Seq<char>, Seq<char>>, b: Map<Seq<char>, Seq<char>>) -> bool {
    forall|k: Seq<char>| #[trigger] differs(k, a, b) ==> m.contains_key(k) == a.contains_key(k)
        && (a.contains_key(k) ==> m[k] == a[k])
}

/// Applying a diff's patches and then those of its reverse gives back the
/// environment, for an environment that was in the diff's state before on every
/// name that the diff changes.
pub proof fn lemma_round_trip(
    d: EnvDiff,
    m: Map<Seq<char>, Seq<char>>,
    forward: Seq<EnvDiffOperation>,
    backward: Seq<EnvDiffOperation>,
)
    requires
        d.wf(),
        patches_between(forward, d.before(), d.after()),
        patches_between(backward, d.after(), d.before()),
        agrees_on_changes(m, d.before(), d.after()),
    ensures
        apply_ops(apply_ops(m, forward), backward) == m,
{
    let a = d.before();
    let b = d.after();
    lemma_apply_patches_between(m, forward, a, b);
    let mid = apply_ops(m, forward);
    lemma_apply_patches_between(mid, backward, b, a);
    let r = apply_ops(mid, backward);
    assert forall|k: Seq<char>| #[trigger] r.contains_key(k) == m.contains_key(k)
        && (r.contains_key(k) ==> r[k] == m[k]) by {
        assert(differs(k, a, b) == differs(k, b, a));
    }
    assert(r =~= m);
}

/// The text was not the serialized form of a diff.
pub struct DiffDeserializationError {}

/// The difference between two environments: the state before, the state after,
/// and the `PATH` entries that were appended, in order, repeats allowed.
///
/// Keeping the earlier values is what lets a diff be reversed.
pub struct EnvDiff {
    old: EnvSnapshot,
    new: EnvSnapshot,
    path: Vec<String>,
}

impl EnvDiff {
    /// Both snapshots are well formed.
    pub closed spec fn wf(&self) -> bool {
        self.old.wf() && self.new.wf()
    }

    /// The variables before the change.
    pub closed spec fn before(&self) -> Map<Seq<char>, Seq<char>> {
        self.old.view()
    }

    /// The variables after the change.
    pub closed spec fn after(&self) -> Map<Seq<char>, Seq<char>> {
        self.new.view()
    }

    /// The appended `PATH` entries.
    pub closed spec fn path_additions(&self) -> Seq<Seq<char>> {
        self.path@.map_values(|p: String| p@)
    }

    /// The diff from `old` to `new` that appended the entries `path`.
    pub fn new(old: EnvSnapshot, new: EnvSnapshot, path: Vec<String>) -> (r: EnvDiff)
        requires
            old.wf(),
            new.wf(),
        ensures
            r.wf(),
            r.before() == old.view(),
            r.after() == new.view(),
            r.path_additions() == path@.map_values(|p: String| p@),
    {
        EnvDiff { old, new, path }
    }

    /// The diff that changes nothing.
    pub fn empty() -> (r: EnvDiff)
        ensures
            r.wf(),
            r.before() == Map::<Seq<char>, Seq<char>>::empty(),
            r.after() == Map::<Seq<char>, Seq<char>>::empty(),
            r.path_additions() == Seq::<Seq<char>>::empty(),
    {
        let r = EnvDiff { old: EnvSnapshot::new(), new: EnvSnapshot::new(), path: Vec::new() };
        assert(r.path_additions() =~= Seq::<Seq<char>>::empty());
        r
    }

    /// True when this diff changes nothing and appended nothing.
    pub open spec fn is_empty_diff(&self) -> bool {
        self.before() == Map::<Seq<char>, Seq<char>>::empty() && self.after() == Map::<
            Seq<char>,
            Seq<char>,
        >::empty() && self.path_additions() == Seq::<Seq<char>>::empty()
    }

    /// The appended `PATH` entries.
    pub fn path(&self) -> (r: &Vec<String>)
        ensures
            r@.map_values(|p: String| p@) == self.path_additions(),
    {
        &self.path
    }

    /// The serialized form: three sections, the names and values before, the names
    /// and values after, and the appended entries.
    pub closed spec fn serialized(&self) -> Seq<char> {
        encode_sections(self.old.flat_pairs(), self.new.flat_pairs(), self.path_additions())
    }

    proof fn reveal_serialized_parts(&self)
        requires
            self.wf(),
        ensures
            decode_sections(self.serialized()) == Some((self.old.flat_pairs(), self.new.flat_pairs(), self.path_additions())),
            pairs_map(self.old.flat_pairs()) == self.before(),
            pairs_map(self.new.flat_pairs()) == self.after(),
    {
        self.old.lemma_flat_pairs_even();
        self.new.lemma_flat_pairs_even();
        lemma_decode_encode(self.old.flat_pairs(), self.new.flat_pairs(), self.path_additions());
        self.old.lemma_flat_pairs();
        self.new.lemma_flat_pairs();
    }

    /// Writes the diff as text.
    pub fn serialize(&self) -> (r: String)
        ensures
            r@ == self.serialized(),
    {
        let a = self.old.to_flat_pairs();
        let b = self.new.to_flat_pairs();
        encode(&a, &b, &self.path)
    }

    /// Reads a diff back from text; fails exactly when the text is malformed.
    pub fn deserialize(s: &str) -> (r: Result<EnvDiff, DiffDeserializationError>)
        ensures
            r is Ok <==> decode_sections(s@) is Some,
            r matches Ok(d) ==> d.wf(),
            r matches Ok(d) ==> d.before() == pairs_map(decode_sections(s@)->Some_0.0),
            r matches Ok(d) ==> d.after() == pairs_map(decode_sections(s@)->Some_0.1),
            r matches Ok(d) ==> d.path_additions() == decode_sections(s@)->Some_0.2,
    {
        match decode(s) {
            Some((a, b, c)) => {
                let old = EnvSnapshot::from_flat_pairs(&a, 0, a.len());
                let new = EnvSnapshot::from_flat_pairs(&b, 0, b.len());
                proof {
                    assert(a@.map_values(|x: String| x@).subrange(0, a@.len() as int) =~= a@.map_values(|x: String| x@));
                    assert(b@.map_values(|x: String| x@).subrange(0, b@.len() as int) =~= b@.map_values(|x: String| x@));
                }
                Ok(EnvDiff { old, new, path: c })
            },
            None => Err(DiffDeserializationError {}),
        }
    }

    /// The inverse diff: from the state after to the state before. The appended
    /// entries are kept as they are; they are not undone through patches.
    pub fn reverse(&self) -> (r: EnvDiff)
        requires
            self.wf(),
        ensures
            r.wf(),
            r.before() == self.after(),
            r.after() == self.before(),
            r.path_additions() == self.path_additions(),
    {
        let mut path: Vec<String> = Vec::new();
        let mut i: usize = 0;
        while i < self.path.len()
            invariant
                i <= self.path@.len(),
                path@.len() == i,
                forall|j: int| 0 <= j < i ==> #[trigger] path@[j]@ == self.path@[j]@,
            decreases self.path@.len() - i,
        {
            path.push(self.path[i].clone());
            i = i + 1;
        }
        let r = EnvDiff { old: self.new.duplicate(), new: self.old.duplicate(), path };
        assert(r.path_additions() =~= self.path_additions());
        r
    }

    /// The operations that take the state before to the state after: `Add` for a
    /// name set only after, `Change` for a name whose value changed, `Remove` for a
    /// name set only before; one for each such name.
    pub fn to_patches(&self) -> (r: EnvDiffPatches)
        requires
            self.wf(),
        ensures
            patches_between(r@, self.before(), self.after()),
    {
        let ghost a = self.before();
        let ghost b = self.after();
        let mut ops: EnvDiffPatches = Vec::new();
        proof {
            self.old.lemma_keys();
            self.new.lemma_keys();
        }
        let n = self.new.size();
        let mut i: usize = 0;
        while i < n
            invariant
                self.wf(),
                a == self.before(),
                b == self.after(),
                n == self.new.key_seq().len(),
                i <= n,
                self.new.key_seq().no_duplicates(),
                forall|k: Seq<char>| #[trigger] b.contains_key(k) <==> self.new.key_seq().contains(k),
                forall|j: int| 0 <= j < ops@.len() ==> op_between(#[trigger] ops@[j], a, b),
                forall|j: int, l: int|
                    0 <= j < ops@.len() && 0 <= l < ops@.len() && j != l ==> op_key(#[trigger] ops@[j]) != op_key(#[trigger] ops@[l]),
                forall|j: int| 0 <= j < ops@.len() ==> self.new.key_seq().take(i as int).contains(op_key(#[trigger] ops@[j])),
                forall|j: int| 0 <= j < i ==> differs(#[trigger] self.new.key_seq()[j], a, b) ==>
                    exists|l: int| 0 <= l < ops@.len() && op_key(#[trigger] ops@[l]) == self.new.key_seq()[j],
            decreases n - i,
        {
            let (k, v) = self.new.entry(i);
            let ghost ks = self.new.key_seq();
            let ghost before_ops = ops@;
            proof {
                assert(!ks.take(i as int).contains(k@)) by {
                    if ks.take(i as int).contains(k@) {
                        let j = choose|j: int| 0 <= j < i && ks.take(i as int)[j] == k@;
                        assert(ks[j] == ks[i as int]);
                    }
                }
                assert forall|j: int| 0 <= j < ops@.len() implies #[trigger] ks.take(i as int + 1).contains(op_key(ops@[j])) by {
                    let c = choose|c: int| 0 <= c < i && ks.take(i as int)[c] == op_key(ops@[j]);
                    assert(ks.take(i as int + 1)[c] == op_key(ops@[j]));
                }
                assert(ks.take(i as int + 1)[i as int] == k@);
            }
            match self.old.get(k) {
                Some(ov) => {
                    if *ov != *v {
                        ops.push(EnvDiffOperation::Change(k.clone(), v.clone()));
                        proof {
                            assert(op_key(ops@[before_ops.len() as int]) == k@);
                        }
                    }
                },
                None => {
                    ops.push(EnvDiffOperation::Add(k.clone(), v.clone()));
                    proof {
                        assert(op_key(ops@[before_ops.len() as int]) == k@);
                    }
                },
            }
            proof {
                assert forall|j: int| 0 <= j < i + 1 && differs(#[trigger] ks[j], a, b) implies
                    exists|l: int| 0 <= l < ops@.len() && op_key(#[trigger] ops@[l]) == ks[j] by {
                    if j < i {
                        let l = choose|l: int| 0 <= l < before_ops.len() && op_key(#[trigger] before_ops[l]) == ks[j];
                        assert(ops@[l] == before_ops[l]);
                    } else {
                        assert(op_key(ops@[before_ops.len() as int]) == ks[j]);
                    }
                }
            }
            i = i + 1;
        }
        let ghost mid = ops@;
        proof {
            assert(self.new.key_seq().take(n as int) =~= self.new.key_seq());
            assert forall|j: int| 0 <= j < mid.len() implies b.contains_key(op_key(#[trigger] mid[j])) by {}
        }
        let m = self.old.size();
        let mut i: usize = 0;
        while i < m
            invariant
                self.wf(),
                a == self.before(),
                b == self.after(),
                m == self.old.key_seq().len(),
                i <= m,
                self.old.key_seq().no_duplicates(),
                forall|k: Seq<char>| #[trigger] a.contains_key(k) <==> self.old.key_seq().contains(k),
                forall|k: Seq<char>| #[trigger] b.contains_key(k) <==> self.new.key_seq().contains(k),
                forall|j: int| 0 <= j < ops@.len() ==> op_between(#[trigger] ops@[j], a, b),
                forall|j: int, l: int|
                    0 <= j < ops@.len() && 0 <= l < ops@.len() && j != l ==> op_key(#[trigger] ops@[j]) != op_key(#[trigger] ops@[l]),
                forall|j: int| 0 <= j < ops@.len() ==> b.contains_key(op_key(#[trigger] ops@[j]))
                    || self.old.key_seq().take(i as int).contains(op_key(ops@[j])),
                forall|k: Seq<char>| #[trigger] differs(k, a, b) && b.contains_key(k) ==>
                    exists|l: int| 0 <= l < ops@.len() && op_key(#[trigger] ops@[l]) == k,
                forall|j: int| 0 <= j < i ==> differs(#[trigger] self.old.key_seq()[j], a, b) ==>
                    exists|l: int| 0 <= l < ops@.len() && op_key(#[trigger] ops@[l]) == self.old.key_seq()[j],
            decreases m - i,
        {
            let (k, _v) = self.old.entry(i);
            let ghost ks = self.old.key_seq();
            let ghost before_ops = ops@;
            proof {
                assert(!ks.take(i as int).contains(k@)) by {
                    if ks.take(i as int).contains(k@) {
                        let j = choose|j: int| 0 <= j < i && ks.take(i as int)[j] == k@;
                        assert(ks[j] == ks[i as int]);
                    }
                }
                assert forall|j: int| 0 <= j < ops@.len() && !b.contains_key(op_key(#[trigger] ops@[j]))
                    implies ks.take(i as int + 1).contains(op_key(ops@[j])) by {
                    let c = choose|c: int| 0 <= c < i && ks.take(i as int)[c] == op_key(ops@[j]);
                    assert(ks.take(i as int + 1)[c] == op_key(ops@[j]));
                }
                assert(ks.take(i as int + 1)[i as int] == k@);
            }
            if !self.new.contains_key(k) {
                ops.push(EnvDiffOperation::Remove(k.clone()));
                proof {
                    assert(op_key(ops@[before_ops.len() as int]) == k@);
                }
            }
            proof {
                assert forall|j: int| 0 <= j < i + 1 && differs(#[trigger] ks[j], a, b) implies
                    exists|l: int| 0 <= l < ops@.len() && op_key(#[trigger] ops@[l]) == ks[j] by {
                    if j < i {
                        let l = choose|l: int| 0 <= l < before_ops.len() && op_key(#[trigger] before_ops[l]) == ks[j];
                        assert(ops@[l] == before_ops[l]);
                    } else if b.contains_key(ks[j]) {
                        let l = choose|l: int| 0 <= l < before_ops.len() && op_key(#[trigger] before_ops[l]) == ks[j];
                        assert(ops@[l] == before_ops[l]);
                    } else {
                        assert(op_key(ops@[before_ops.len() as int]) == ks[j]);
                    }
                }
                assert forall|k2: Seq<char>| #[trigger] differs(k2, a, b) && b.contains_key(k2) implies
                    exists|l: int| 0 <= l < ops@.len() && op_key(#[trigger] ops@[l]) == k2 by {
                    let l = choose|l: int| 0 <= l < before_ops.len() && op_key(#[trigger] before_ops[l]) == k2;
                    assert(ops@[l] == before_ops[l]);
                }
            }
            i = i + 1;
        }
        proof {
            assert forall|k2: Seq<char>| #[trigger] differs(k2, a, b) implies
                exists|l: int| 0 <= l < ops@.len() && op_key(#[trigger] ops@[l]) == k2 by {
                if !b.contains_key(k2) {
                    assert(a.contains_key(k2));
                    let j = choose|j: int| 0 <= j < m && self.old.key_seq()[j] == k2;
                    assert(differs(self.old.key_seq()[j], a, b));
                }
            }
        }
        ops
    }
}

} // verus!
