use vstd::prelude::*;

verus! {

/// The separator between entries of a `PATH` value.
pub open spec fn is_sep(c: char) -> bool {
    c == ':'
}

/// The entries of a `PATH` value, split at each separator, in order. An empty
/// value is a single empty entry, as is the text on either side of each separator.
pub open spec fn split_path(s: Seq<char>) -> Seq<Seq<char>>
    decreases s.len(),
{
    if s.len() == 0 {
        seq![Seq::<char>::empty()]
    } else {
        let p = split_path(s.drop_last());
        if is_sep(s.last()) {
            p.push(Seq::<char>::empty())
        } else {
            p.update(p.len() - 1, p.last().push(s.last()))
        }
    }
}

/// The entries written one after another with a separator between each two.
pub open spec fn join_path(e: Seq<Seq<char>>) -> Seq<char>
    decreases e.len(),
{
    if e.len() == 0 {
        Seq::<char>::empty()
    } else if e.len() == 1 {
        e[0]
    } else {
        join_path(e.drop_last()) + seq![':'] + e.last()
    }
}

/// True when no entry holds the separator.
pub open spec fn entries_joinable(e: Seq<Seq<char>>) -> bool {
    forall|i: int, j: int| 0 <= i < e.len() && 0 <= j < e[i].len() ==> !is_sep(#[trigger] e[i][j])
}

/// The `PATH` entries with the injected ones taken out: an entry goes when it is
/// among `adds` and no earlier entry is equal to it, so each injected directory
/// goes once, at its first occurrence, however often it was injected.
pub open spec fn strip_injected(p: Seq<Seq<char>>, adds: Seq<Seq<char>>) -> Seq<Seq<char>>
    decreases p.len(),
{
    if p.len() == 0 {
        Seq::<Seq<char>>::empty()
    } else {
        let q = p.drop_last();
        let r = strip_injected(q, adds);
        if adds.contains(p.last()) && !q.contains(p.last()) {
            r
        } else {
            r.push(p.last())
        }
    }
}

proof fn lemma_split_nonempty(s: Seq<char>)
    ensures
        split_path(s).len() >= 1,
    decreases s.len(),
{
    if s.len() > 0 {
        lemma_split_nonempty(s.drop_last());
    }
}

/// The entries of a split hold no separator.
pub proof fn lemma_split_joinable(s: Seq<char>)
    ensures
        entries_joinable(split_path(s)),
    decreases s.len(),
{
    if s.len() > 0 {
        lemma_split_joinable(s.drop_last());
        lemma_split_nonempty(s.drop_last());
        let p = split_path(s.drop_last());
        if !is_sep(s.last()) {
            let e = split_path(s);
            assert forall|i: int, j: int| 0 <= i < e.len() && 0 <= j < e[i].len() implies !is_sep(#[trigger] e[i][j]) by {
                if i == p.len() - 1 && j < p.last().len() {
                    assert(e[i][j] == p[i][j]);
                }
            }
        } else {
            let e = split_path(s);
            assert forall|i: int, j: int| 0 <= i < e.len() && 0 <= j < e[i].len() implies !is_sep(#[trigger] e[i][j]) by {
                assert(e[i] == p[i]);
            }
        }
    }
}

proof fn lemma_join_extend_last(e: Seq<Seq<char>>, c: char)
    requires
        e.len() >= 1,
    ensures
        join_path(e.update(e.len() - 1, e.last().push(c))) == join_path(e).push(c),
{
    let f = e.update(e.len() - 1, e.last().push(c));
    if e.len() == 1 {
    } else {
        assert(f.drop_last() =~= e.drop_last());
        assert(join_path(f) =~= join_path(e).push(c));
    }
}

/// Joining the entries of a split gives back the value.
pub proof fn lemma_join_split(s: Seq<char>)
    ensures
        join_path(split_path(s)) == s,
    decreases s.len(),
{
    if s.len() > 0 {
        let q = s.drop_last();
        lemma_join_split(q);
        lemma_split_nonempty(q);
        let p = split_path(q);
        if is_sep(s.last()) {
            let e = p.push(Seq::<char>::empty());
            assert(e.drop_last() =~= p);
            assert(join_path(e) =~= s);
        } else {
            lemma_join_extend_last(p, s.last());
            assert(q.push(s.last()) =~= s);
        }
    }
}

/// With nothing injected, nothing is taken out.
pub proof fn lemma_strip_nothing(p: Seq<Seq<char>>)
    ensures
        strip_injected(p, Seq::<Seq<char>>::empty()) == p,
    decreases p.len(),
{
    if p.len() > 0 {
        lemma_strip_nothing(p.drop_last());
        assert(p.drop_last().push(p.last()) =~= p);
    }
}

/// Splits a `PATH` value into its entries.
pub fn split_paths(s: &str) -> (r: Vec<String>)
    ensures
        r@.map_values(|e: String| e@) == split_path(s@),
{
    let n = s.unicode_len();
    let mut r: Vec<String> = Vec::new();
    let mut start: usize = 0;
    let mut i: usize = 0;
    proof {
        assert(s@.take(0) =~= Seq::<char>::empty());
        assert(s@.subrange(0, 0) =~= Seq::<char>::empty());
        assert(r@.map_values(|e: String| e@) =~= Seq::<Seq<char>>::empty());
        assert(r@.map_values(|e: String| e@).push(s@.subrange(0, 0)) =~= split_path(s@.take(0)));
    }
    while i < n
        invariant
            n == s@.len(),
            start <= i <= n,
            r@.map_values(|e: String| e@).push(s@.subrange(start as int, i as int)) == split_path(s@.take(i as int)),
        decreases n - i,
    {
        let c = s.get_char(i);
        let ghost old_map = r@.map_values(|e: String| e@);
        let ghost pre = old_map.push(s@.subrange(start as int, i as int));
        proof {
            assert(s@.take(i as int + 1).drop_last() =~= s@.take(i as int));
            assert(s@.take(i as int + 1).last() == c);
        }
        if c == ':' {
            let e = s.substring_char(start, i).to_owned();
            r.push(e);
            start = i + 1;
            proof {
                assert(r@.map_values(|e: String| e@) =~= pre);
                assert(s@.subrange(start as int, i as int + 1) =~= Seq::<char>::empty());
                assert(r@.map_values(|e: String| e@).push(s@.subrange(start as int, i as int + 1))
                    =~= pre.push(Seq::<char>::empty()));
            }
        } else {
            proof {
                assert(s@.subrange(start as int, i as int + 1) =~= s@.subrange(start as int, i as int).push(c));
                assert(r@.map_values(|e: String| e@).push(s@.subrange(start as int, i as int + 1))
                    =~= pre.update(pre.len() - 1, pre.last().push(c)));
            }
        }
        i = i + 1;
    }
    let e = s.substring_char(start, n).to_owned();
    r.push(e);
    proof {
        assert(s@.take(n as int) =~= s@);
    }
    r
}

/// Joins entries that hold no separator into a `PATH` value.
pub fn join_path_entries(e: &Vec<String>) -> (r: String)
    requires
        entries_joinable(e@.map_values(|x: String| x@)),
    ensures
        r@ == join_path(e@.map_values(|x: String| x@)),
{
    let ghost ev = e@.map_values(|x: String| x@);
    let mut r = String::new();
    let mut i: usize = 0;
    while i < e.len()
        invariant
            ev == e@.map_values(|x: String| x@),
            i <= e@.len(),
            r@ == join_path(ev.take(i as int)),
        decreases e@.len() - i,
    {
        proof {
            assert(ev.take(i as int + 1).drop_last() =~= ev.take(i as int));
            reveal_strlit(":");
        }
        if i > 0 {
            r.append(":");
        }
        r.append(e[i].as_str());
        proof {
            if i == 0 {
                assert(r@ =~= join_path(ev.take(1)));
            } else {
                assert(r@ =~= join_path(ev.take(i as int + 1)));
            }
        }
        i = i + 1;
    }
    proof {
        assert(ev.take(e@.len() as int) =~= ev);
    }
    r
}

fn str_eq_any(x: &String, v: &Vec<String>, end: usize) -> (r: bool)
    requires
        end <= v@.len(),
    ensures
        r == v@.map_values(|e: String| e@).take(end as int).contains(x@),
{
    let ghost vv = v@.map_values(|e: String| e@);
    let mut i: usize = 0;
    while i < end
        invariant
            vv == v@.map_values(|e: String| e@),
            i <= end <= v@.len(),
            forall|j: int| 0 <= j < i ==> vv[j] != x@,
        decreases end - i,
    {
        if v[i] == *x {
            proof {
                assert(vv.take(end as int)[i as int] == x@);
            }
            return true;
        }
        i = i + 1;
    }
    proof {
        if vv.take(end as int).contains(x@) {
            let j = choose|j: int| 0 <= j < end && vv.take(end as int)[j] == x@;
            assert(vv[j] == x@);
        }
    }
    false
}

/// Takes the injected entries out of `path`: each distinct entry of `adds` is
/// removed once, at its first occurrence; later repeats stay.
pub fn strip_path_additions(path: &Vec<String>, adds: &Vec<String>) -> (r: Vec<String>)
    ensures
        r@.map_values(|e: String| e@) == strip_injected(
            path@.map_values(|e: String| e@),
            adds@.map_values(|e: String| e@),
        ),
        forall|i: int| 0 <= i < r@.len() ==> exists|j: int| 0 <= j < path@.len() && #[trigger] r@[i]@ == path@[j]@,
{
    let ghost pv = path@.map_values(|e: String| e@);
    let ghost av = adds@.map_values(|e: String| e@);
    let mut r: Vec<String> = Vec::new();
    let mut i: usize = 0;
    while i < path.len()
        invariant
            pv == path@.map_values(|e: String| e@),
            av == adds@.map_values(|e: String| e@),
            i <= path@.len(),
            r@.map_values(|e: String| e@) == strip_injected(pv.take(i as int), av),
            forall|k: int| 0 <= k < r@.len() ==> exists|j: int| 0 <= j < path@.len() && #[trigger] r@[k]@ == path@[j]@,
        decreases path@.len() - i,
    {
        let e = &path[i];
        proof {
            assert(pv.take(i as int + 1).drop_last() =~= pv.take(i as int));
            assert(pv.take(i as int + 1).last() == e@);
            assert(av.take(adds@.len() as int) =~= av);
        }
        let injected = str_eq_any(e, adds, adds.len());
        let seen = str_eq_any(e, path, i);
        if !(injected && !seen) {
            r.push(e.clone());
            proof {
                assert(r@.map_values(|e: String| e@) =~= strip_injected(pv.take(i as int), av).push(e@));
                assert(r@[r@.len() - 1]@ == path@[i as int]@);
            }
        }
        i = i + 1;
    }
    proof {
        assert(pv.take(path@.len() as int) =~= pv);
    }
    r
}

} // verus!
