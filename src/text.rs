//! Character-level helpers on strings, stated over their `Seq<char>` views: splitting on a
//! separator and joining back, searching, and the lexicographic order of keys.
use vstd::prelude::*;
use vstd::std_specs::iter::IteratorSpec;

verus! {

/// The parts joined with `c` between each two consecutive ones.
pub open spec fn join(parts: Seq<Seq<char>>, c: char) -> Seq<char>
    decreases parts.len(),
{
    if parts.len() == 0 {
        Seq::empty()
    } else if parts.len() == 1 {
        parts[0]
    } else {
        join(parts.drop_last(), c) + seq![c] + parts.last()
    }
}

/// No part holds the character `c`.
pub open spec fn free_of(parts: Seq<Seq<char>>, c: char) -> bool {
    forall|i: int| 0 <= i < parts.len() ==> !(#[trigger] parts[i]).contains(c)
}

/// The views of a sequence of character vectors.
pub open spec fn views(v: Seq<Vec<char>>) -> Seq<Seq<char>> {
    v.map_values(|x: Vec<char>| x@)
}

/// Strict lexicographic order on character sequences, by code point.
pub open spec fn lex_lt(a: Seq<char>, b: Seq<char>) -> bool
    decreases a.len(),
{
    if b.len() == 0 {
        false
    } else if a.len() == 0 {
        true
    } else if a[0] != b[0] {
        (a[0] as u32) < (b[0] as u32)
    } else {
        lex_lt(a.drop_first(), b.drop_first())
    }
}

/// The join of parts free of `c` has `c` exactly between parts, so the parts are
/// determined by the joined text: splitting is unambiguous.
pub proof fn lemma_join_injective(p: Seq<Seq<char>>, q: Seq<Seq<char>>, c: char)
    requires
        p.len() >= 1,
        q.len() >= 1,
        free_of(p, c),
        free_of(q, c),
        join(p, c) == join(q, c),
    ensures
        p == q,
    decreases p.len() + q.len(),
{
    let s = join(p, c);
    if p.len() == 1 && q.len() == 1 {
        assert(p =~= q);
    } else if p.len() == 1 {
        let k = join(q.drop_last(), c).len() as int;
        assert(s[k] == c);
        assert(p[0].contains(c)) by {
            assert(p[0][k] == c);
        }
    } else if q.len() == 1 {
        let k = join(p.drop_last(), c).len() as int;
        assert(s[k] == c);
        assert(q[0].contains(c)) by {
            assert(q[0][k] == c);
        }
    } else {
        let a = join(p.drop_last(), c);
        let b = join(q.drop_last(), c);
        let l1 = p.last();
        let l2 = q.last();
        assert(s == a + seq![c] + l1);
        assert(s == b + seq![c] + l2);
        assert(!l1.contains(c) && !l2.contains(c)) by {
            assert(l1 == p[p.len() - 1]);
            assert(l2 == q[q.len() - 1]);
        }
        if l1.len() < l2.len() {
            let k = a.len() as int;
            assert(s[k] == c);
            let j = k - b.len() - 1;
            assert(l2[j] == s[k]);
            assert(l2.contains(c));
        } else if l2.len() < l1.len() {
            let k = b.len() as int;
            assert(s[k] == c);
            let j = k - a.len() - 1;
            assert(l1[j] == s[k]);
            assert(l1.contains(c));
        } else {
            assert(a =~= s.subrange(0, a.len() as int));
            assert(b =~= s.subrange(0, b.len() as int));
            assert(l1 =~= s.subrange(a.len() as int + 1, s.len() as int));
            assert(l2 =~= s.subrange(b.len() as int + 1, s.len() as int));
            assert(free_of(p.drop_last(), c)) by {
                assert forall|i: int| 0 <= i < p.drop_last().len() implies !(
                #[trigger] p.drop_last()[i]).contains(c) by {
                    assert(p.drop_last()[i] == p[i]);
                }
            }
            assert(free_of(q.drop_last(), c)) by {
                assert forall|i: int| 0 <= i < q.drop_last().len() implies !(
                #[trigger] q.drop_last()[i]).contains(c) by {
                    assert(q.drop_last()[i] == q[i]);
                }
            }
            lemma_join_injective(p.drop_last(), q.drop_last(), c);
            assert(p =~= p.drop_last().push(l1));
            assert(q =~= q.drop_last().push(l2));
        }
    }
}

/// `lex_lt` never holds of a sequence and itself.
pub proof fn lemma_lex_irreflexive(a: Seq<char>)
    ensures
        !lex_lt(a, a),
    decreases a.len(),
{
    if a.len() > 0 {
        lemma_lex_irreflexive(a.drop_first());
    }
}

/// `lex_lt` is transitive.
pub proof fn lemma_lex_transitive(a: Seq<char>, b: Seq<char>, c: Seq<char>)
    requires
        lex_lt(a, b),
        lex_lt(b, c),
    ensures
        lex_lt(a, c),
    decreases a.len(),
{
    if a.len() > 0 && a[0] == b[0] && b[0] == c[0] {
        lemma_lex_transitive(a.drop_first(), b.drop_first(), c.drop_first());
    }
}

/// Of two different sequences, one comes first.
pub proof fn lemma_lex_total(a: Seq<char>, b: Seq<char>)
    requires
        a != b,
    ensures
        lex_lt(a, b) || lex_lt(b, a),
    decreases a.len(),
{
    if a.len() == 0 && b.len() == 0 {
        assert(a =~= b);
    } else if a.len() > 0 && b.len() > 0 {
        if a[0] == b[0] {
            if a.drop_first() =~= b.drop_first() {
                assert(a =~= b) by {
                    assert forall|i: int| 0 <= i < a.len() implies a[i] == b[i] by {
                        if i > 0 {
                            assert(a[i] == a.drop_first()[i - 1]);
                            assert(b[i] == b.drop_first()[i - 1]);
                        }
                    }
                }
            }
            lemma_lex_total(a.drop_first(), b.drop_first());
        } else {
            vstd::utf8::char_u32_cast(a[0], a[0] as u32);
            vstd::utf8::char_u32_cast(b[0], b[0] as u32);
        }
    }
}

/// Relies on `String::push`: appends one character.
#[verifier::external_body]
pub(crate) fn push_char(s: &mut String, c: char)
    ensures
        final(s)@ == old(s)@.push(c),
{
    s.push(c)
}

/// The characters of `s`, in order.
pub fn chars_of(s: &str) -> (r: Vec<char>)
    ensures
        r@ == s@,
{
    let mut out: Vec<char> = Vec::new();
    let mut it = s.chars();
    let ghost n = s@.len();
    loop
        invariant
            it.remaining() == s@.subrange(out@.len() as int, n as int),
            out@ == s@.subrange(0, out@.len() as int),
            out@.len() <= n,
            n == s@.len(),
        ensures
            out@ == s@,
        decreases n - out@.len(),
    {
        match it.next() {
            Some(c) => {
                out.push(c);
            },
            None => {
                break;
            },
        }
    }
    out
}

/// The string made of the characters of `v`.
pub fn string_of(v: &[char]) -> (r: String)
    ensures
        r@ == v@,
{
    let mut s = String::new();
    let mut i: usize = 0;
    while i < v.len()
        invariant
            i <= v@.len(),
            s@ == v@.subrange(0, i as int),
        decreases v@.len() - i,
    {
        push_char(&mut s, v[i]);
        i = i + 1;
        assert(s@ =~= v@.subrange(0, i as int));
    }
    assert(s@ =~= v@);
    s
}

/// Whether `v` holds the character `c`.
pub fn has_char(v: &[char], c: char) -> (r: bool)
    ensures
        r == v@.contains(c),
{
    let mut i: usize = 0;
    while i < v.len()
        invariant
            i <= v@.len(),
            forall|j: int| 0 <= j < i ==> v@[j] != c,
        decreases v@.len() - i,
    {
        if v[i] == c {
            assert(v@[i as int] == c);
            return true;
        }
        i = i + 1;
    }
    false
}

/// The first index of `c` in `v`, if `c` occurs.
pub fn find_char(v: &[char], c: char) -> (r: Option<usize>)
    ensures
        match r {
            Some(i) => i < v@.len() && v@[i as int] == c && forall|j: int| 0 <= j < i ==> v@[j] != c,
            None => !v@.contains(c),
        },
{
    let mut i: usize = 0;
    while i < v.len()
        invariant
            i <= v@.len(),
            forall|j: int| 0 <= j < i ==> v@[j] != c,
        decreases v@.len() - i,
    {
        if v[i] == c {
            return Some(i);
        }
        i = i + 1;
    }
    None
}

/// The characters of `v` from index `from` up to, not including, `to`.
pub fn sub_chars(v: &[char], from: usize, to: usize) -> (r: Vec<char>)
    requires
        from <= to <= v@.len(),
    ensures
        r@ == v@.subrange(from as int, to as int),
{
    let mut out: Vec<char> = Vec::new();
    let mut i: usize = from;
    while i < to
        invariant
            from <= i <= to,
            to <= v@.len(),
            out@ == v@.subrange(from as int, i as int),
        decreases to - i,
    {
        out.push(v[i]);
        i = i + 1;
        assert(out@ =~= v@.subrange(from as int, i as int));
    }
    out
}

/// Whether the two character sequences are equal.
pub fn chars_eq(a: &[char], b: &[char]) -> (r: bool)
    ensures
        r == (a@ == b@),
{
    if a.len() != b.len() {
        return false;
    }
    let mut i: usize = 0;
    while i < a.len()
        invariant
            i <= a@.len(),
            a@.len() == b@.len(),
            forall|j: int| 0 <= j < i ==> a@[j] == b@[j],
        decreases a@.len() - i,
    {
        if a[i] != b[i] {
            return false;
        }
        i = i + 1;
    }
    assert(a@ =~= b@);
    true
}

/// Whether `a` comes strictly before `b` in lexicographic order.
pub fn chars_lt(a: &[char], b: &[char]) -> (r: bool)
    ensures
        r == lex_lt(a@, b@),
{
    let mut i: usize = 0;
    assert(a@.subrange(0, a@.len() as int) =~= a@);
    assert(b@.subrange(0, b@.len() as int) =~= b@);
    while i < a.len() && i < b.len()
        invariant
            i <= a@.len(),
            i <= b@.len(),
            forall|j: int| 0 <= j < i ==> a@[j] == b@[j],
            lex_lt(a@, b@) == lex_lt(a@.subrange(i as int, a@.len() as int), b@.subrange(
                i as int,
                b@.len() as int,
            )),
        decreases a@.len() - i,
    {
        if a[i] != b[i] {
            return (a[i] as u32) < (b[i] as u32);
        }
        let ghost sa = a@.subrange(i as int, a@.len() as int);
        let ghost sb = b@.subrange(i as int, b@.len() as int);
        assert(sa.drop_first() =~= a@.subrange(i + 1, a@.len() as int));
        assert(sb.drop_first() =~= b@.subrange(i + 1, b@.len() as int));
        i = i + 1;
    }
    i < b.len()
}

/// Splits `s` at every occurrence of `c`: the parts hold no `c` and joining them with `c`
/// gives `s` back. There is always at least one part.
pub fn split_on(s: &[char], c: char) -> (r: Vec<Vec<char>>)
    ensures
        r@.len() >= 1,
        join(views(r@), c) == s@,
        free_of(views(r@), c),
{
    let mut parts: Vec<Vec<char>> = Vec::new();
    let mut cur: Vec<char> = Vec::new();
    let mut i: usize = 0;
    while i < s.len()
        invariant
            i <= s@.len(),
            join(views(parts@.push(cur)), c) == s@.subrange(0, i as int),
            free_of(views(parts@.push(cur)), c),
        decreases s@.len() - i,
    {
        let ghost before = views(parts@.push(cur));
        if s[i] == c {
            parts.push(cur);
            cur = Vec::new();
            proof {
                let now = views(parts@.push(cur));
                assert(now.drop_last() =~= before);
                assert(now.last() =~= Seq::<char>::empty());
                assert(s@.subrange(0, i + 1) =~= s@.subrange(0, i as int) + seq![c]);
                assert(free_of(now, c)) by {
                    assert forall|j: int| 0 <= j < now.len() implies !(#[trigger] now[j]).contains(
                        c,
                    ) by {
                        if j < now.len() - 1 {
                            assert(now[j] == before[j]);
                        }
                    }
                }
            }
        } else {
            let x = s[i];
            cur.push(x);
            proof {
                let now = views(parts@.push(cur));
                assert(now.drop_last() =~= before.drop_last());
                assert(now.last() =~= before.last().push(x));
                assert(s@.subrange(0, i + 1) =~= s@.subrange(0, i as int) + seq![x]);
                if before.len() == 1 {
                    assert(join(now, c) =~= join(before, c) + seq![x]);
                } else {
                    assert(join(now, c) =~= join(before, c) + seq![x]);
                }
                assert(free_of(now, c)) by {
                    assert forall|j: int| 0 <= j < now.len() implies !(#[trigger] now[j]).contains(
                        c,
                    ) by {
                        if j < now.len() - 1 {
                            assert(now[j] == before[j]);
                        } else {
                            assert(before[j] == before.last());
                            if now[j].contains(c) {
                                let k = choose|k: int| 0 <= k < now[j].len() && now[j][k] == c;
                                if k < before[j].len() {
                                    assert(before[j][k] == c);
                                }
                            }
                        }
                    }
                }
            }
        }
        i = i + 1;
    }
    parts.push(cur);
    proof {
        assert(s@.subrange(0, s@.len() as int) =~= s@);
    }
    parts
}

} // verus!
