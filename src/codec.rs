use vstd::prelude::*;

verus! {

/// Characters that are written behind a backslash inside a field.
pub open spec fn is_special(c: char) -> bool {
    c == '\\' || c == ';' || c == '|'
}

/// One character as written inside a field.
pub open spec fn escape_char(c: char) -> Seq<char> {
    if is_special(c) {
        seq!['\\', c]
    } else {
        seq![c]
    }
}

/// A string as written inside a field.
pub open spec fn escape(s: Seq<char>) -> Seq<char>
    decreases s.len(),
{
    if s.len() == 0 {
        Seq::<char>::empty()
    } else {
        escape(s.drop_last()) + escape_char(s.last())
    }
}

/// A field: the escaped string followed by `;`.
pub open spec fn encode_field(s: Seq<char>) -> Seq<char> {
    escape(s).push(';')
}

/// Fields one after another.
pub open spec fn encode_fields(fs: Seq<Seq<char>>) -> Seq<char>
    decreases fs.len(),
{
    if fs.len() == 0 {
        Seq::<char>::empty()
    } else {
        encode_fields(fs.drop_last()) + encode_field(fs.last())
    }
}

/// A section: its fields followed by `|`.
pub open spec fn encode_section(fs: Seq<Seq<char>>) -> Seq<char> {
    encode_fields(fs).push('|')
}

/// The text of three sections of fields.
pub open spec fn encode_sections(a: Seq<Seq<char>>, b: Seq<Seq<char>>, c: Seq<Seq<char>>) -> Seq<char> {
    encode_section(a) + encode_section(b) + encode_section(c)
}

/// Where a reader of the text stands: the fields read so far, the number of fields
/// read at the end of each section, the field being read, whether a backslash was
/// just read, and whether the text was found malformed.
pub struct ReadState {
    pub done: Seq<Seq<char>>,
    pub marks: Seq<int>,
    pub cur: Seq<char>,
    pub esc: bool,
    pub bad: bool,
}

/// The reader before any character.
pub open spec fn read_start() -> ReadState {
    ReadState {
        done: Seq::<Seq<char>>::empty(),
        marks: Seq::<int>::empty(),
        cur: Seq::<char>::empty(),
        esc: false,
        bad: false,
    }
}

/// The reader after one more character. A `|` ends a section only between fields;
/// anywhere else unescaped it makes the text malformed.
pub open spec fn read_step(st: ReadState, c: char) -> ReadState {
    if st.bad {
        st
    } else if st.esc {
        ReadState { cur: st.cur.push(c), esc: false, ..st }
    } else if c == '\\' {
        ReadState { esc: true, ..st }
    } else if c == ';' {
        ReadState { done: st.done.push(st.cur), cur: Seq::<char>::empty(), ..st }
    } else if c == '|' {
        if st.cur.len() == 0 {
            ReadState { marks: st.marks.push(st.done.len() as int), ..st }
        } else {
            ReadState { bad: true, ..st }
        }
    } else {
        ReadState { cur: st.cur.push(c), ..st }
    }
}

/// The reader after the characters of `s`, from `st`.
pub open spec fn read_from(st: ReadState, s: Seq<char>) -> ReadState
    decreases s.len(),
{
    if s.len() == 0 {
        st
    } else {
        read_step(read_from(st, s.drop_last()), s.last())
    }
}

/// The three sections that the text holds, when it is well formed: exactly three
/// sections, nothing after the last, and an even number of fields in the first two.
pub open spec fn decode_sections(s: Seq<char>) -> Option<(Seq<Seq<char>>, Seq<Seq<char>>, Seq<Seq<char>>)> {
    let st = read_from(read_start(), s);
    if !st.bad && !st.esc && st.cur.len() == 0 && st.marks.len() == 3 && st.marks[2] == st.done.len()
        && st.marks[0] % 2 == 0 && (st.marks[1] - st.marks[0]) % 2 == 0 {
        Some((
            st.done.subrange(0, st.marks[0]),
            st.done.subrange(st.marks[0], st.marks[1]),
            st.done.subrange(st.marks[1], st.marks[2]),
        ))
    } else {
        None
    }
}

proof fn lemma_read_concat(st: ReadState, a: Seq<char>, b: Seq<char>)
    ensures
        read_from(st, a + b) == read_from(read_from(st, a), b),
    decreases b.len(),
{
    if b.len() == 0 {
        assert(a + b =~= a);
    } else {
        lemma_read_concat(st, a, b.drop_last());
        assert((a + b).drop_last() =~= a + b.drop_last());
        assert((a + b).last() == b.last());
    }
}

proof fn lemma_read_two(st: ReadState, x: char, y: char)
    ensures
        read_from(st, seq![x, y]) == read_step(read_step(st, x), y),
{
    assert(seq![x, y].drop_last() =~= seq![x]);
    lemma_read_one(st, x);
}

proof fn lemma_read_one(st: ReadState, x: char)
    ensures
        read_from(st, seq![x]) == read_step(st, x),
{
    assert(seq![x].drop_last() =~= Seq::<char>::empty());
    assert(read_from(st, Seq::<char>::empty()) == st);
}

proof fn lemma_read_escape(st: ReadState, s: Seq<char>)
    requires
        !st.bad,
        !st.esc,
    ensures
        read_from(st, escape(s)) == (ReadState { cur: st.cur + s, ..st }),
    decreases s.len(),
{
    if s.len() == 0 {
        assert(st.cur + s =~= st.cur);
    } else {
        let q = s.drop_last();
        let c = s.last();
        lemma_read_escape(st, q);
        lemma_read_concat(st, escape(q), escape_char(c));
        let mid = ReadState { cur: st.cur + q, ..st };
        if is_special(c) {
            lemma_read_two(mid, '\\', c);
        } else {
            lemma_read_one(mid, c);
        }
        assert((st.cur + q).push(c) =~= st.cur + s);
    }
}

proof fn lemma_read_field(st: ReadState, s: Seq<char>)
    requires
        !st.bad,
        !st.esc,
        st.cur.len() == 0,
    ensures
        read_from(st, encode_field(s)) == (ReadState { done: st.done.push(s), ..st }),
{
    lemma_read_escape(st, s);
    assert(encode_field(s).drop_last() =~= escape(s));
    assert(st.cur + s =~= s);
    assert(Seq::<char>::empty() =~= st.cur);
}

proof fn lemma_read_fields(st: ReadState, fs: Seq<Seq<char>>)
    requires
        !st.bad,
        !st.esc,
        st.cur.len() == 0,
    ensures
        read_from(st, encode_fields(fs)) == (ReadState { done: st.done + fs, ..st }),
    decreases fs.len(),
{
    if fs.len() == 0 {
        assert(st.done + fs =~= st.done);
    } else {
        let q = fs.drop_last();
        lemma_read_fields(st, q);
        lemma_read_concat(st, encode_fields(q), encode_field(fs.last()));
        lemma_read_field(ReadState { done: st.done + q, ..st }, fs.last());
        assert((st.done + q).push(fs.last()) =~= st.done + fs);
    }
}

proof fn lemma_read_section(st: ReadState, fs: Seq<Seq<char>>)
    requires
        !st.bad,
        !st.esc,
        st.cur.len() == 0,
    ensures
        read_from(st, encode_section(fs)) == (ReadState {
            done: st.done + fs,
            marks: st.marks.push((st.done + fs).len() as int),
            ..st
        }),
{
    lemma_read_fields(st, fs);
    assert(encode_section(fs).drop_last() =~= encode_fields(fs));
}

/// Reading the text of three sections gives them back, when the first two have
/// an even number of fields.
pub proof fn lemma_decode_encode(a: Seq<Seq<char>>, b: Seq<Seq<char>>, c: Seq<Seq<char>>)
    requires
        a.len() % 2 == 0,
        b.len() % 2 == 0,
    ensures
        decode_sections(encode_sections(a, b, c)) == Some((a, b, c)),
{
    let s0 = read_start();
    lemma_read_section(s0, a);
    let s1 = read_from(s0, encode_section(a));
    lemma_read_section(s1, b);
    let s2 = read_from(s1, encode_section(b));
    lemma_read_section(s2, c);
    lemma_read_concat(s0, encode_section(a), encode_section(b));
    lemma_read_concat(s0, encode_section(a) + encode_section(b), encode_section(c));
    let st = read_from(s0, encode_sections(a, b, c));
    assert(st.done =~= a + b + c);
    assert(st.done.subrange(0, st.marks[0]) =~= a);
    assert(st.done.subrange(st.marks[0], st.marks[1]) =~= b);
    assert(st.done.subrange(st.marks[1], st.marks[2]) =~= c);
}

/// Relies on String::push: appends the character to the string.
#[verifier::external_body]
fn push_char(s: &mut String, c: char)
    ensures
        final(s)@ == old(s)@.push(c),
{
    s.push(c)
}

fn write_section(out: &mut String, fs: &Vec<String>)
    ensures
        final(out)@ == old(out)@ + encode_section(fs@.map_values(|x: String| x@)),
{
    let ghost fv = fs@.map_values(|x: String| x@);
    let ghost base = out@;
    let mut i: usize = 0;
    while i < fs.len()
        invariant
            fv == fs@.map_values(|x: String| x@),
            i <= fs@.len(),
            out@ == base + encode_fields(fv.take(i as int)),
        decreases fs@.len() - i,
    {
        let t = fs[i].as_str();
        let n = t.unicode_len();
        let ghost before = out@;
        let mut j: usize = 0;
        while j < n
            invariant
                n == t@.len(),
                j <= n,
                out@ == before + escape(t@.take(j as int)),
            decreases n - j,
        {
            let c = t.get_char(j);
            proof {
                assert(t@.take(j as int + 1).drop_last() =~= t@.take(j as int));
                assert(t@.take(j as int + 1).last() == c);
            }
            if c == '\\' || c == ';' || c == '|' {
                push_char(out, '\\');
            }
            push_char(out, c);
            proof {
                assert(out@ =~= before + escape(t@.take(j as int + 1)));
            }
            j = j + 1;
        }
        push_char(out, ';');
        proof {
            assert(t@.take(n as int) =~= t@);
            assert(fv.take(i as int + 1).drop_last() =~= fv.take(i as int));
            assert(fv.take(i as int + 1).last() == t@);
            assert(out@ =~= base + encode_fields(fv.take(i as int + 1)));
        }
        i = i + 1;
    }
    push_char(out, '|');
    proof {
        assert(fv.take(fs@.len() as int) =~= fv);
        assert(out@ =~= base + encode_section(fv));
    }
}

/// Writes three sections of fields as text.
pub fn encode(a: &Vec<String>, b: &Vec<String>, c: &Vec<String>) -> (r: String)
    ensures
        r@ == encode_sections(
            a@.map_values(|x: String| x@),
            b@.map_values(|x: String| x@),
            c@.map_values(|x: String| x@),
        ),
{
    let mut out = String::new();
    write_section(&mut out, a);
    write_section(&mut out, b);
    write_section(&mut out, c);
    proof {
        assert(out@ =~= encode_sections(
            a@.map_values(|x: String| x@),
            b@.map_values(|x: String| x@),
            c@.map_values(|x: String| x@),
        ));
    }
    out
}

fn copy_range(v: &Vec<String>, lo: usize, hi: usize) -> (r: Vec<String>)
    requires
        lo <= hi <= v@.len(),
    ensures
        r@.map_values(|x: String| x@) == v@.map_values(|x: String| x@).subrange(lo as int, hi as int),
{
    let mut r: Vec<String> = Vec::new();
    let mut i: usize = lo;
    while i < hi
        invariant
            lo <= i <= hi <= v@.len(),
            r@.map_values(|x: String| x@) == v@.map_values(|x: String| x@).subrange(lo as int, i as int),
        decreases hi - i,
    {
        let ghost prev = r@.map_values(|x: String| x@);
        r.push(v[i].clone());
        proof {
            assert(r@.map_values(|x: String| x@) =~= prev.push(v@[i as int]@));
            assert(r@.map_values(|x: String| x@) =~= v@.map_values(|x: String| x@).subrange(lo as int, i as int + 1));
        }
        i = i + 1;
    }
    r
}

/// Reads the three sections of fields out of the text; `None` when it is malformed.
pub fn decode(s: &str) -> (r: Option<(Vec<String>, Vec<String>, Vec<String>)>)
    ensures
        r is Some <==> decode_sections(s@) is Some,
        r matches Some((a, b, c)) ==> a@.len() % 2 == 0 && b@.len() % 2 == 0,
        r matches Some((a, b, c)) ==> decode_sections(s@) == Some((
            a@.map_values(|x: String| x@),
            b@.map_values(|x: String| x@),
            c@.map_values(|x: String| x@),
        )),
{
    let n = s.unicode_len();
    let mut done: Vec<String> = Vec::new();
    let mut marks: Vec<usize> = Vec::new();
    let mut cur = String::new();
    let mut esc = false;
    let mut bad = false;
    let mut i: usize = 0;
    proof {
        assert(s@.take(0) =~= Seq::<char>::empty());
        assert(done@.map_values(|x: String| x@) =~= Seq::<Seq<char>>::empty());
        assert(marks@.map_values(|m: usize| m as int) =~= Seq::<int>::empty());
    }
    while i < n
        invariant
            n == s@.len(),
            i <= n,
            done@.len() <= i,
            forall|j: int, k: int| 0 <= j <= k < marks@.len() ==> #[trigger] marks@[j] <= #[trigger] marks@[k] <= done@.len(),
            (ReadState {
                done: done@.map_values(|x: String| x@),
                marks: marks@.map_values(|m: usize| m as int),
                cur: cur@,
                esc: esc,
                bad: bad,
            }) == read_from(read_start(), s@.take(i as int)),
        decreases n - i,
    {
        let c = s.get_char(i);
        proof {
            assert(s@.take(i as int + 1).drop_last() =~= s@.take(i as int));
            assert(s@.take(i as int + 1).last() == c);
        }
        if bad {
        } else if esc {
            push_char(&mut cur, c);
            esc = false;
        } else if c == '\\' {
            esc = true;
        } else if c == ';' {
            let f = cur;
            done.push(f);
            cur = String::new();
            proof {
                assert(done@.map_values(|x: String| x@) =~= read_from(read_start(), s@.take(i as int)).done.push(f@));
            }
        } else if c == '|' {
            if cur.unicode_len() == 0 {
                proof {
                    reveal_strlit("");
                }
                marks.push(done.len());
                proof {
                    assert(marks@.map_values(|m: usize| m as int) =~= read_from(read_start(), s@.take(i as int)).marks.push(done@.len() as int));
                }
            } else {
                bad = true;
            }
        } else {
            push_char(&mut cur, c);
        }
        i = i + 1;
    }
    proof {
        assert(s@.take(n as int) =~= s@);
    }
    let ghost st = read_from(read_start(), s@);
    if bad || esc || cur.unicode_len() != 0 || marks.len() != 3 {
        return None;
    }
    let m0 = marks[0];
    let m1 = marks[1];
    let m2 = marks[2];
    if m2 != done.len() || m0 % 2 != 0 || m0 > m1 || (m1 - m0) % 2 != 0 || m1 > m2 {
        proof {
            assert(st.marks[0] == m0 as int);
            assert(st.marks[1] == m1 as int);
            assert(st.marks[2] == m2 as int);
        }
        return None;
    }
    let a = copy_range(&done, 0, m0);
    let b = copy_range(&done, m0, m1);
    let c = copy_range(&done, m1, m2);
    proof {
        assert(st.marks[0] == m0 as int);
        assert(st.marks[1] == m1 as int);
        assert(st.marks[2] == m2 as int);
        assert(a@.map_values(|x: String| x@).len() == a@.len());
        assert(b@.map_values(|x: String| x@).len() == b@.len());
    }
    Some((a, b, c))
}

} // verus!
