//! Character-level string helpers that the path, lock and report logic is
//! written in. Strings are viewed as sequences of `char`; their order is the
//! lexicographic order of code points, which is also the byte order of their
//! UTF-8 encodings.

use vstd::prelude::*;

verus! {

broadcast use vstd::string::group_string_axioms;

/// The contents of a vector of character vectors.
pub open spec fn seqs_of(v: Seq<Vec<char>>) -> Seq<Seq<char>> {
    v.map_values(|x: Vec<char>| x@)
}

/// The contents of a vector of strings.
pub open spec fn strings_of(v: Seq<String>) -> Seq<Seq<char>> {
    v.map_values(|x: String| x@)
}

/// `s` split at every occurrence of `sep`, as `str::split` does: always at
/// least one piece, empty pieces kept.
pub open spec fn split_spec(s: Seq<char>, sep: char) -> Seq<Seq<char>>
    decreases s.len(),
{
    if s.len() == 0 {
        seq![Seq::<char>::empty()]
    } else {
        let prev = split_spec(s.drop_last(), sep);
        if s.last() == sep {
            prev.push(Seq::<char>::empty())
        } else {
            prev.update(prev.len() - 1, prev.last().push(s.last()))
        }
    }
}

/// The pieces joined with `sep` between consecutive ones.
pub open spec fn join_spec(parts: Seq<Seq<char>>, sep: char) -> Seq<char>
    decreases parts.len(),
{
    if parts.len() == 0 {
        Seq::<char>::empty()
    } else if parts.len() == 1 {
        parts[0]
    } else {
        join_spec(parts.drop_last(), sep) + seq![sep] + parts.last()
    }
}

/// Strict lexicographic order on character sequences.
pub open spec fn seq_lt(a: Seq<char>, b: Seq<char>) -> bool
    decreases a.len(),
{
    if b.len() == 0 {
        false
    } else if a.len() == 0 {
        true
    } else if a[0] != b[0] {
        (a[0] as u32) < (b[0] as u32)
    } else {
        seq_lt(a.drop_first(), b.drop_first())
    }
}

/// `p` is a prefix of `s`.
pub open spec fn has_prefix(s: Seq<char>, p: Seq<char>) -> bool {
    p.len() <= s.len() && s.take(p.len() as int) == p
}

pub proof fn lemma_split_nonempty(s: Seq<char>, sep: char)
    ensures
        split_spec(s, sep).len() >= 1,
    decreases s.len(),
{
    if s.len() > 0 {
        lemma_split_nonempty(s.drop_last(), sep);
    }
}

pub proof fn lemma_seq_lt_irreflexive(a: Seq<char>)
    ensures
        !seq_lt(a, a),
    decreases a.len(),
{
    if a.len() > 0 {
        lemma_seq_lt_irreflexive(a.drop_first());
    }
}

pub proof fn lemma_seq_lt_asymmetric(a: Seq<char>, b: Seq<char>)
    ensures
        seq_lt(a, b) ==> !seq_lt(b, a),
    decreases a.len(),
{
    if a.len() > 0 && b.len() > 0 && a[0] == b[0] {
        lemma_seq_lt_asymmetric(a.drop_first(), b.drop_first());
    }
}

pub proof fn lemma_seq_lt_transitive(a: Seq<char>, b: Seq<char>, c: Seq<char>)
    requires
        seq_lt(a, b),
        seq_lt(b, c),
    ensures
        seq_lt(a, c),
    decreases a.len(),
{
    if a.len() > 0 && b.len() > 0 && c.len() > 0 && a[0] == b[0] && b[0] == c[0] {
        lemma_seq_lt_transitive(a.drop_first(), b.drop_first(), c.drop_first());
    }
}

pub proof fn lemma_seq_lt_total(a: Seq<char>, b: Seq<char>)
    requires
        a != b,
    ensures
        seq_lt(a, b) || seq_lt(b, a),
    decreases a.len(),
{
    if a.len() == 0 {
        assert(b.len() != 0) by {
            if b.len() == 0 {
                assert(a =~= b);
            }
        }
    } else if b.len() == 0 {
    } else if a[0] == b[0] {
        assert(a.drop_first() != b.drop_first()) by {
            if a.drop_first() == b.drop_first() {
                assert(a =~= seq![a[0]] + a.drop_first());
                assert(b =~= seq![b[0]] + b.drop_first());
            }
        }
        lemma_seq_lt_total(a.drop_first(), b.drop_first());
    } else {
        vstd::utf8::char_u32_cast(a[0], a[0] as u32);
        vstd::utf8::char_u32_cast(b[0], b[0] as u32);
        assert((a[0] as u32) != (b[0] as u32));
    }
}

/// Lexicographic order with equality: `a` does not come after `b`.
pub open spec fn seq_le(a: Seq<char>, b: Seq<char>) -> bool {
    !seq_lt(b, a)
}

/// `seq_le` as a relation value.
pub open spec fn seq_leq() -> spec_fn(Seq<char>, Seq<char>) -> bool {
    |a: Seq<char>, b: Seq<char>| seq_le(a, b)
}

/// `seq_le` is a total order.
pub proof fn lemma_seq_le_total_ordering()
    ensures
        vstd::relations::total_ordering(seq_leq()),
{
    let leq = seq_leq();
    assert forall|x: Seq<char>| #[trigger] leq(x, x) by {
        lemma_seq_lt_irreflexive(x);
    }
    assert forall|x: Seq<char>, y: Seq<char>| #[trigger] leq(x, y) && #[trigger] leq(y, x) implies x
        == y by {
        if x != y {
            lemma_seq_lt_total(x, y);
        }
    }
    assert forall|x: Seq<char>, y: Seq<char>, z: Seq<char>| #[trigger] leq(x, y) && #[trigger] leq(
        y,
        z,
    ) implies leq(x, z) by {
        if seq_lt(z, x) {
            if x == y {
            } else {
                lemma_seq_lt_total(x, y);
                if y == z {
                } else {
                    lemma_seq_lt_total(y, z);
                    lemma_seq_lt_transitive(x, y, z);
                    lemma_seq_lt_asymmetric(x, z);
                }
            }
        }
    }
    assert forall|x: Seq<char>, y: Seq<char>| #[trigger] leq(x, y) || #[trigger] leq(y, x) by {
        lemma_seq_lt_asymmetric(x, y);
    }
}

/// Sorts strings by code point order (the order of `String`'s `Ord`),
/// equal strings kept.
pub fn sort_strings(v: Vec<String>) -> (r: Vec<String>)
    ensures
        vstd::relations::sorted_by(strings_of(r@), seq_leq()),
        strings_of(r@).to_multiset() == strings_of(v@).to_multiset(),
{
    broadcast use vstd::seq_lib::group_to_multiset_ensures;
    let ghost leq = seq_leq();
    proof {
        lemma_seq_le_total_ordering();
    }
    let mut out: Vec<String> = Vec::new();
    let n = v.len();
    let mut i: usize = 0;
    while i < n
        invariant
            n == v@.len(),
            i <= n,
            vstd::relations::total_ordering(leq),
            leq == seq_leq(),
            vstd::relations::sorted_by(strings_of(out@), leq),
            strings_of(out@).to_multiset() == strings_of(v@.take(i as int)).to_multiset(),
        decreases n - i,
    {
        let x = v[i].clone();
        let ghost o = strings_of(out@);
        let m = out.len();
        let mut p: usize = 0;
        while p < m && !str_lt(x.as_str(), out[p].as_str())
            invariant
                m == out@.len(),
                o == strings_of(out@),
                p <= m,
                forall|j: int| 0 <= j < p ==> !seq_lt(x@, #[trigger] o[j]),
            decreases m - p,
        {
            p += 1;
        }
        proof {
            if p < m {
                assert(seq_lt(x@, o[p as int]));
            }
        }
        out.insert(p, x);
        proof {
            assert(strings_of(out@) =~= o.insert(p as int, x@));
            vstd::seq_lib::to_multiset_insert(o, p as int, x@);
            assert(x@ == v@[i as int]@);
            vstd::seq_lib::to_multiset_build(strings_of(v@.take(i as int)), v@[i as int]@);
            assert(strings_of(v@.take(i + 1)) =~= strings_of(v@.take(i as int)).push(v@[i as int]@));
            assert forall|a: int, b: int| 0 <= a < b < strings_of(out@).len() implies #[trigger] leq(
                strings_of(out@)[a],
                strings_of(out@)[b],
            ) by {
                let s = strings_of(out@);
                if b < p {
                    assert(leq(o[a], o[b]));
                } else if b == p {
                    assert(!seq_lt(x@, o[a]));
                    assert(s[b] == x@);
                    assert(s[a] == o[a]);
                } else if a < p {
                    assert(s[a] == o[a]);
                    assert(s[b] == o[b - 1]);
                    assert(!seq_lt(x@, o[a]));
                    assert(leq(o[a], x@));
                    assert(seq_lt(x@, o[p as int]));
                    lemma_seq_lt_asymmetric(x@, o[p as int]);
                    assert(leq(x@, o[p as int]));
                    assert(leq(o[a], o[p as int]));
                    if p < b - 1 {
                        assert(leq(o[p as int], o[b - 1]));
                        assert(leq(o[a], o[b - 1]));
                    }
                } else if a == p {
                    assert(s[a] == x@);
                    assert(s[b] == o[b - 1]);
                    assert(seq_lt(x@, o[p as int]));
                    lemma_seq_lt_asymmetric(x@, o[p as int]);
                    assert(leq(x@, o[p as int]));
                    if p < b - 1 {
                        assert(leq(o[p as int], o[b - 1]));
                        assert(leq(x@, o[b - 1]));
                    }
                } else {
                    assert(s[a] == o[a - 1]);
                    assert(s[b] == o[b - 1]);
                    assert(leq(o[a - 1], o[b - 1]));
                }
            }
        }
        i += 1;
    }
    assert(v@.take(n as int) =~= v@);
    out
}

/// The keys of a list of keyed entries, viewed as character sequences.
pub open spec fn entries_of<V>(v: Seq<(String, V)>) -> Seq<(Seq<char>, V)> {
    v.map_values(|e: (String, V)| (e.0@, e.1))
}

/// Entries strictly increasing by key.
pub open spec fn keys_sorted<V>(e: Seq<(Seq<char>, V)>) -> bool {
    forall|i: int, j: int| 0 <= i < j < e.len() ==> seq_lt(#[trigger] e[i].0, #[trigger] e[j].0)
}

/// The entry list holds an entry with the given key.
pub open spec fn has_key<V>(e: Seq<(Seq<char>, V)>, k: Seq<char>) -> bool {
    exists|i: int| 0 <= i < e.len() && #[trigger] e[i].0 == k
}

/// Inserts an entry with a new key into a key-sorted list, keeping it sorted.
pub fn insert_sorted<V: Copy>(v: &mut Vec<(String, V)>, key: String, val: V)
    requires
        keys_sorted(entries_of(old(v)@)),
        !has_key(entries_of(old(v)@), key@),
    ensures
        keys_sorted(entries_of(final(v)@)),
        forall|x: (Seq<char>, V)|
            entries_of(final(v)@).contains(x) <==> (entries_of(old(v)@).contains(x) || x == (
                key@,
                val,
            )),
        entries_of(final(v)@).len() == entries_of(old(v)@).len() + 1,
{
    let ghost e0 = entries_of(v@);
    let n = v.len();
    let kc = chars_of(key.as_str());
    let mut pos: usize = 0;
    let mut found = false;
    while pos < n && !found
        invariant
            n == v@.len(),
            e0 == entries_of(v@),
            kc@ == key@,
            pos <= n,
            found ==> pos < n && !seq_lt(e0[pos as int].0, key@),
            forall|i: int| 0 <= i < pos ==> seq_lt(#[trigger] e0[i].0, key@),
        decreases n - pos + (if found { 0int } else { 1int }),
    {
        let cur = chars_of(v[pos].0.as_str());
        if chars_lt(cur.as_slice(), kc.as_slice()) {
            pos += 1;
        } else {
            found = true;
        }
    }
    proof {
        if pos < n {
            assert(!seq_lt(e0[pos as int].0, key@));
            assert(e0[pos as int].0 != key@);
            lemma_seq_lt_total(e0[pos as int].0, key@);
            assert forall|i: int| pos <= i < n implies seq_lt(key@, #[trigger] e0[i].0) by {
                if i > pos {
                    lemma_seq_lt_transitive(key@, e0[pos as int].0, e0[i].0);
                }
            }
        }
    }
    v.insert(pos, (key, val));
    proof {
        let e1 = entries_of(v@);
        assert(e1 =~= e0.insert(pos as int, (key@, val)));
        assert forall|x: (Seq<char>, V)| e1.contains(x) <==> (e0.contains(x) || x == (key@, val)) by {
            if e1.contains(x) {
                let i = choose|i: int| 0 <= i < e1.len() && e1[i] == x;
                if i < pos {
                    assert(e0[i] == x);
                } else if i > pos {
                    assert(e0[i - 1] == x);
                }
            }
            if e0.contains(x) {
                let i = choose|i: int| 0 <= i < e0.len() && e0[i] == x;
                if i < pos {
                    assert(e1[i] == x);
                } else {
                    assert(e1[i + 1] == x);
                }
            }
            if x == (key@, val) {
                assert(e1[pos as int] == x);
            }
        }
        assert forall|i: int, j: int| 0 <= i < j < e1.len() implies seq_lt(
            #[trigger] e1[i].0,
            #[trigger] e1[j].0,
        ) by {
            if j < pos {
                assert(e1[i] == e0[i] && e1[j] == e0[j]);
            } else if j == pos {
                assert(e1[i] == e0[i]);
            } else if i < pos {
                assert(e1[i] == e0[i] && e1[j] == e0[j - 1]);
                lemma_seq_lt_transitive(e0[i].0, key@, e0[j - 1].0);
            } else if i == pos {
                assert(e1[j] == e0[j - 1]);
            } else {
                assert(e1[i] == e0[i - 1] && e1[j] == e0[j - 1]);
            }
        }
    }
}

/// The list holds a string with the contents of `s`.
pub fn contains_string(v: &Vec<String>, s: &String) -> (r: bool)
    ensures
        r == strings_of(v@).contains(s@),
{
    let n = v.len();
    let mut i: usize = 0;
    while i < n
        invariant
            n == v@.len(),
            i <= n,
            forall|j: int| 0 <= j < i ==> v@[j]@ != s@,
        decreases n - i,
    {
        if v[i] == *s {
            assert(strings_of(v@)[i as int] == s@);
            return true;
        }
        i += 1;
    }
    proof {
        if strings_of(v@).contains(s@) {
            let j = choose|j: int| 0 <= j < n && strings_of(v@)[j] == s@;
            assert(v@[j]@ == s@);
        }
    }
    false
}

/// A sequence without repeated elements is no longer than any sequence that
/// holds all of its elements.
pub proof fn lemma_unique_len_bound<A>(a: Seq<A>, b: Seq<A>)
    requires
        a.no_duplicates(),
        forall|x: A| a.contains(x) ==> b.contains(x),
    ensures
        a.len() <= b.len(),
{
    a.unique_seq_to_set();
    b.lemma_cardinality_of_set();
    assert(a.to_set().subset_of(b.to_set()));
    vstd::seq_lib::seq_to_set_is_finite(b);
    vstd::set_lib::lemma_len_subset(a.to_set(), b.to_set());
}

/// Strictly increasing character sequences: sorted and free of repeats.
pub open spec fn strictly_sorted(s: Seq<Seq<char>>) -> bool {
    forall|i: int, j: int| 0 <= i < j < s.len() ==> seq_lt(#[trigger] s[i], #[trigger] s[j])
}

/// `out` is the sorted set of the elements of `items`.
pub open spec fn is_sorted_set_of(out: Seq<Seq<char>>, items: Seq<Seq<char>>) -> bool {
    &&& strictly_sorted(out)
    &&& forall|x: Seq<char>| out.contains(x) <==> items.contains(x)
}

/// Adds a string to a sorted set of strings.
pub fn set_insert(v: &mut Vec<String>, s: String)
    requires
        strictly_sorted(strings_of(old(v)@)),
    ensures
        strictly_sorted(strings_of(final(v)@)),
        forall|x: Seq<char>|
            strings_of(final(v)@).contains(x) <==> (strings_of(old(v)@).contains(x) || x == s@),
{
    let ghost e0 = strings_of(v@);
    let n = v.len();
    let sc = chars_of(s.as_str());
    let mut pos: usize = 0;
    let mut found = false;
    while pos < n && !found
        invariant
            n == v@.len(),
            e0 == strings_of(v@),
            sc@ == s@,
            pos <= n,
            found ==> pos < n && !seq_lt(e0[pos as int], s@),
            forall|i: int| 0 <= i < pos ==> seq_lt(#[trigger] e0[i], s@),
        decreases n - pos + (if found { 0int } else { 1int }),
    {
        let cur = chars_of(v[pos].as_str());
        if chars_lt(cur.as_slice(), sc.as_slice()) {
            pos += 1;
        } else {
            found = true;
        }
    }
    if pos < n {
        let cur = chars_of(v[pos].as_str());
        if chars_eq(cur.as_slice(), sc.as_slice()) {
            proof {
                assert(e0[pos as int] == s@);
                assert forall|x: Seq<char>| e0.contains(x) <==> (e0.contains(x) || x == s@) by {
                    if x == s@ {
                        assert(e0[pos as int] == x);
                    }
                }
            }
            return;
        }
    }
    proof {
        if pos < n {
            assert(e0[pos as int] != s@);
            lemma_seq_lt_total(e0[pos as int], s@);
            assert forall|i: int| pos <= i < n implies seq_lt(s@, #[trigger] e0[i]) by {
                if i > pos {
                    lemma_seq_lt_transitive(s@, e0[pos as int], e0[i]);
                }
            }
        }
    }
    v.insert(pos, s);
    proof {
        let e1 = strings_of(v@);
        assert(e1 =~= e0.insert(pos as int, s@));
        assert forall|x: Seq<char>| e1.contains(x) <==> (e0.contains(x) || x == s@) by {
            if e1.contains(x) {
                let i = choose|i: int| 0 <= i < e1.len() && e1[i] == x;
                if i < pos {
                    assert(e0[i] == x);
                } else if i > pos {
                    assert(e0[i - 1] == x);
                }
            }
            if e0.contains(x) {
                let i = choose|i: int| 0 <= i < e0.len() && e0[i] == x;
                if i < pos {
                    assert(e1[i] == x);
                } else {
                    assert(e1[i + 1] == x);
                }
            }
            if x == s@ {
                assert(e1[pos as int] == x);
            }
        }
        assert forall|i: int, j: int| 0 <= i < j < e1.len() implies seq_lt(
            #[trigger] e1[i],
            #[trigger] e1[j],
        ) by {
            if j < pos {
                assert(e1[i] == e0[i] && e1[j] == e0[j]);
            } else if j == pos {
                assert(e1[i] == e0[i]);
            } else if i < pos {
                assert(e1[i] == e0[i] && e1[j] == e0[j - 1]);
                lemma_seq_lt_transitive(e0[i], s@, e0[j - 1]);
            } else if i == pos {
                assert(e1[j] == e0[j - 1]);
            } else {
                assert(e1[i] == e0[i - 1] && e1[j] == e0[j - 1]);
            }
        }
    }
}

/// The sorted set of the given strings.
pub fn sorted_set(items: Vec<String>) -> (r: Vec<String>)
    ensures
        is_sorted_set_of(strings_of(r@), strings_of(items@)),
{
    let n = items.len();
    let mut out: Vec<String> = Vec::new();
    let mut i: usize = 0;
    while i < n
        invariant
            n == items@.len(),
            i <= n,
            strictly_sorted(strings_of(out@)),
            forall|x: Seq<char>|
                strings_of(out@).contains(x) <==> strings_of(items@).take(i as int).contains(x),
        decreases n - i,
    {
        set_insert(&mut out, items[i].clone());
        proof {
            let t = strings_of(items@).take(i + 1);
            assert(t =~= strings_of(items@).take(i as int).push(items@[i as int]@));
            assert forall|x: Seq<char>| strings_of(out@).contains(x) <==> t.contains(x) by {
                if t.contains(x) && x != items@[i as int]@ {
                    let k = choose|k: int| 0 <= k < t.len() && t[k] == x;
                    assert(strings_of(items@).take(i as int)[k] == x);
                }
                if strings_of(items@).take(i as int).contains(x) {
                    let k = choose|k: int| 0 <= k < i && strings_of(items@).take(i as int)[k] == x;
                    assert(t[k] == x);
                }
                if x == items@[i as int]@ {
                    assert(t[i as int] == x);
                }
            }
        }
        i += 1;
    }
    assert(strings_of(items@).take(n as int) =~= strings_of(items@));
    out
}

/// Appends one character to a string (std `String::push`).
#[verifier::external_body]
pub(crate) fn push_char(s: &mut String, c: char)
    ensures
        final(s)@ == old(s)@.push(c),
{
    s.push(c);
}

/// The characters of `s`, in order.
pub fn chars_of(s: &str) -> (v: Vec<char>)
    ensures
        v@ == s@,
{
    let mut v: Vec<char> = Vec::new();
    for c in it: s.chars()
        invariant
            v@ == it.seq().take(it.index() as int),
            it.seq() == s@,
    {
        v.push(c);
    }
    v
}

/// A fresh vector holding the characters of `cs`.
pub fn copy_chars(cs: &[char]) -> (v: Vec<char>)
    ensures
        v@ == cs@,
{
    let mut v: Vec<char> = Vec::new();
    let n = cs.len();
    let mut i: usize = 0;
    while i < n
        invariant
            n == cs@.len(),
            i <= n,
            v@ == cs@.take(i as int),
        decreases n - i,
    {
        v.push(cs[i]);
        assert(cs@.take(i as int).push(cs@[i as int]) =~= cs@.take(i + 1));
        i += 1;
    }
    assert(cs@.take(n as int) =~= cs@);
    v
}

/// A string holding the characters of `cs` from index `start` on.
pub fn string_from(cs: &[char], start: usize) -> (s: String)
    requires
        start <= cs@.len(),
    ensures
        s@ == cs@.skip(start as int),
{
    let mut s = String::new();
    let n = cs.len();
    let mut i: usize = start;
    while i < n
        invariant
            n == cs@.len(),
            start <= i <= n,
            s@ == cs@.subrange(start as int, i as int),
        decreases n - i,
    {
        push_char(&mut s, cs[i]);
        assert(cs@.subrange(start as int, i as int).push(cs@[i as int]) =~= cs@.subrange(
            start as int,
            i + 1,
        ));
        i += 1;
    }
    assert(cs@.subrange(start as int, n as int) =~= cs@.skip(start as int));
    s
}

/// A string holding exactly the given characters.
pub fn string_of(cs: &[char]) -> (s: String)
    ensures
        s@ == cs@,
{
    let mut s = String::new();
    let n = cs.len();
    let mut i: usize = 0;
    while i < n
        invariant
            n == cs@.len(),
            i <= n,
            s@ == cs@.take(i as int),
        decreases n - i,
    {
        push_char(&mut s, cs[i]);
        assert(cs@.take(i as int).push(cs@[i as int]) =~= cs@.take(i + 1));
        i += 1;
    }
    assert(cs@.take(n as int) =~= cs@);
    s
}

/// A string holding the characters of `cs` from `start` up to `end`.
pub fn string_range(cs: &[char], start: usize, end: usize) -> (s: String)
    requires
        start <= end <= cs@.len(),
    ensures
        s@ == cs@.subrange(start as int, end as int),
{
    let mut s = String::new();
    let mut i: usize = start;
    while i < end
        invariant
            end <= cs@.len(),
            start <= i <= end,
            s@ == cs@.subrange(start as int, i as int),
        decreases end - i,
    {
        push_char(&mut s, cs[i]);
        assert(cs@.subrange(start as int, i as int).push(cs@[i as int]) =~= cs@.subrange(
            start as int,
            i + 1,
        ));
        i += 1;
    }
    s
}

/// The Unicode `White_Space` property, the set `char::is_whitespace` and
/// `str::trim` go by.
pub open spec fn is_white_space(c: char) -> bool {
    let u = c as u32;
    ||| 0x9 <= u <= 0xd
    ||| u == 0x20
    ||| u == 0x85
    ||| u == 0xa0
    ||| u == 0x1680
    ||| 0x2000 <= u <= 0x200a
    ||| u == 0x2028
    ||| u == 0x2029
    ||| u == 0x202f
    ||| u == 0x205f
    ||| u == 0x3000
}

/// `c` has the Unicode `White_Space` property.
pub fn white_space(c: char) -> (r: bool)
    ensures
        r == is_white_space(c),
{
    let u = c as u32;
    (0x9 <= u && u <= 0xd) || u == 0x20 || u == 0x85 || u == 0xa0 || u == 0x1680 || (0x2000 <= u
        && u <= 0x200a) || u == 0x2028 || u == 0x2029 || u == 0x202f || u == 0x205f || u == 0x3000
}

/// `s` without its leading white space.
pub open spec fn trim_start_spec(s: Seq<char>) -> Seq<char>
    decreases s.len(),
{
    if s.len() > 0 && is_white_space(s[0]) {
        trim_start_spec(s.drop_first())
    } else {
        s
    }
}

/// `s` without its trailing white space.
pub open spec fn trim_end_spec(s: Seq<char>) -> Seq<char>
    decreases s.len(),
{
    if s.len() > 0 && is_white_space(s.last()) {
        trim_end_spec(s.drop_last())
    } else {
        s
    }
}

/// `s` without leading and trailing white space, as `str::trim` gives it.
pub open spec fn trim_spec(s: Seq<char>) -> Seq<char> {
    trim_end_spec(trim_start_spec(s))
}

/// `s` without leading and trailing white space.
pub fn trim(s: &str) -> (r: String)
    ensures
        r@ == trim_spec(s@),
{
    let cs = chars_of(s);
    let n = cs.len();
    let mut a: usize = 0;
    assert(cs@.skip(0) =~= cs@);
    while a < n && white_space(cs[a])
        invariant
            n == cs@.len(),
            a <= n,
            trim_start_spec(cs@) == trim_start_spec(cs@.skip(a as int)),
        decreases n - a,
    {
        assert(cs@.skip(a as int).drop_first() =~= cs@.skip(a + 1));
        a += 1;
    }
    assert(trim_start_spec(cs@) == cs@.skip(a as int));
    let mut b: usize = n;
    while b > a && white_space(cs[b - 1])
        invariant
            n == cs@.len(),
            a <= b <= n,
            trim_end_spec(cs@.skip(a as int)) == trim_end_spec(cs@.subrange(a as int, b as int)),
        decreases b - a,
    {
        assert(cs@.subrange(a as int, b as int).drop_last() =~= cs@.subrange(a as int, b - 1));
        b -= 1;
    }
    assert(cs@.subrange(a as int, n as int) =~= cs@.skip(a as int));
    string_range(cs.as_slice(), a, b)
}

/// The decimal digit `d` as a character.
pub open spec fn digit_char(d: int) -> char {
    ((48 + d) as u8) as char
}

/// The decimal spelling of `n`, without leading zeros.
pub open spec fn decimal_spec(n: nat) -> Seq<char>
    decreases n,
{
    if n < 10 {
        seq![digit_char(n as int)]
    } else {
        decimal_spec(n / 10).push(digit_char((n % 10) as int))
    }
}

/// The decimal spelling of a signed number, with `-` before a negative one.
pub open spec fn signed_decimal_spec(n: int) -> Seq<char> {
    if n < 0 {
        seq!['-'] + decimal_spec((-n) as nat)
    } else {
        decimal_spec(n as nat)
    }
}

/// Appends the decimal spelling of `n` to `s`.
pub fn push_decimal(s: &mut String, n: u64)
    ensures
        final(s)@ == old(s)@ + decimal_spec(n as nat),
    decreases n,
{
    if n >= 10 {
        push_decimal(s, n / 10);
    }
    let d: u8 = (n % 10) as u8;
    push_char(s, (48u8 + d) as char);
    proof {
        if n >= 10 {
            assert(old(s)@ + decimal_spec((n / 10) as nat) + seq![digit_char((n % 10) as int)]
                =~= old(s)@ + decimal_spec(n as nat));
        } else {
            assert(old(s)@ + seq![digit_char(n as int)] =~= old(s)@ + decimal_spec(n as nat));
        }
    }
}

/// Appends the decimal spelling of a signed `n` to `s`.
pub fn push_signed_decimal(s: &mut String, n: i64)
    ensures
        final(s)@ == old(s)@ + signed_decimal_spec(n as int),
{
    if n < 0 {
        push_char(s, '-');
        let m: u64 = ((-(n + 1)) as u64) + 1;
        push_decimal(s, m);
        assert(old(s)@.push('-') + decimal_spec(m as nat) =~= old(s)@ + (seq!['-'] + decimal_spec(
            m as nat,
        )));
    } else {
        push_decimal(s, n as u64);
    }
}

/// `needle` occurs in `hay` at position `i`.
pub open spec fn occurs_at(hay: Seq<char>, needle: Seq<char>, i: int) -> bool {
    0 <= i && i + needle.len() <= hay.len() && hay.subrange(i, i + needle.len()) == needle
}

/// `needle` occurs somewhere in `hay`.
pub open spec fn contains_spec(hay: Seq<char>, needle: Seq<char>) -> bool {
    exists|i: int| occurs_at(hay, needle, i)
}

/// `needle` occurs in `hay` at position `i`.
fn occurs_at_exec(hay: &[char], needle: &[char], i: usize) -> (r: bool)
    requires
        i + needle@.len() <= hay@.len(),
    ensures
        r == occurs_at(hay@, needle@, i as int),
{
    let hn = hay.len();
    let m = needle.len();
    let mut k: usize = 0;
    while k < m
        invariant
            m == needle@.len(),
            hn == hay@.len(),
            i + m <= hn,
            k <= m,
            forall|j: int| 0 <= j < k ==> hay@[i + j] == needle@[j],
        decreases m - k,
    {
        if hay[i + k] != needle[k] {
            assert(hay@.subrange(i as int, i + m)[k as int] != needle@[k as int]);
            return false;
        }
        k += 1;
    }
    assert(hay@.subrange(i as int, i + m) =~= needle@);
    true
}

/// `needle` occurs somewhere in `hay` (`str::contains`).
pub fn str_contains(hay: &str, needle: &str) -> (r: bool)
    ensures
        r == contains_spec(hay@, needle@),
{
    let h = chars_of(hay);
    let nd = chars_of(needle);
    let n = h.len();
    let m = nd.len();
    if m > n {
        return false;
    }
    let mut i: usize = 0;
    loop
        invariant
            n == h@.len(),
            m == nd@.len(),
            h@ == hay@,
            nd@ == needle@,
            m <= n,
            i <= n - m,
            forall|j: int| 0 <= j < i ==> !occurs_at(h@, nd@, j),
        decreases n - m - i,
    {
        if occurs_at_exec(h.as_slice(), nd.as_slice(), i) {
            assert(occurs_at(hay@, needle@, i as int));
            return true;
        }
        if i == n - m {
            assert forall|j: int| !occurs_at(hay@, needle@, j) by {
                if 0 <= j < i {
                } else if j == i {
                }
            }
            return false;
        }
        i += 1;
    }
}

/// Appends the characters of `cs` to `s`.
pub fn push_chars(s: &mut String, cs: &[char])
    ensures
        final(s)@ == old(s)@ + cs@,
{
    let n = cs.len();
    let mut i: usize = 0;
    while i < n
        invariant
            n == cs@.len(),
            i <= n,
            s@ == old(s)@ + cs@.take(i as int),
        decreases n - i,
    {
        push_char(s, cs[i]);
        assert(old(s)@ + cs@.take(i as int) + seq![cs@[i as int]] =~= old(s)@ + cs@.take(i + 1));
        i += 1;
    }
    assert(cs@.take(n as int) =~= cs@);
}

/// Appends `t` to `s`.
pub fn push_str(s: &mut String, t: &str)
    ensures
        final(s)@ == old(s)@ + t@,
{
    let cs = chars_of(t);
    push_chars(s, cs.as_slice());
}

/// Character-wise equality.
pub fn chars_eq(a: &[char], b: &[char]) -> (r: bool)
    ensures
        r == (a@ == b@),
{
    if a.len() != b.len() {
        return false;
    }
    let n = a.len();
    let mut i: usize = 0;
    while i < n
        invariant
            n == a@.len(),
            n == b@.len(),
            i <= n,
            forall|j: int| 0 <= j < i ==> a@[j] == b@[j],
        decreases n - i,
    {
        if a[i] != b[i] {
            return false;
        }
        i += 1;
    }
    assert(a@ =~= b@);
    true
}

/// Equality of two string slices by content.
pub fn str_eq(a: &str, b: &str) -> (r: bool)
    ensures
        r == (a@ == b@),
{
    let x = chars_of(a);
    let y = chars_of(b);
    chars_eq(x.as_slice(), y.as_slice())
}

/// `p` is a prefix of `s`.
pub fn chars_starts_with(s: &[char], p: &[char]) -> (r: bool)
    ensures
        r == has_prefix(s@, p@),
{
    if p.len() > s.len() {
        return false;
    }
    let n = p.len();
    let mut i: usize = 0;
    while i < n
        invariant
            n == p@.len(),
            n <= s@.len(),
            i <= n,
            forall|j: int| 0 <= j < i ==> s@[j] == p@[j],
        decreases n - i,
    {
        if s[i] != p[i] {
            assert(s@.take(n as int)[i as int] != p@[i as int]);
            return false;
        }
        i += 1;
    }
    assert(s@.take(n as int) =~= p@);
    true
}

/// Strict lexicographic comparison of character sequences.
pub fn chars_lt(a: &[char], b: &[char]) -> (r: bool)
    ensures
        r == seq_lt(a@, b@),
{
    let n = a.len();
    let m = b.len();
    let mut i: usize = 0;
    assert(a@.skip(0) =~= a@);
    assert(b@.skip(0) =~= b@);
    while i < n && i < m && a[i] == b[i]
        invariant
            n == a@.len(),
            m == b@.len(),
            i <= n,
            i <= m,
            seq_lt(a@, b@) == seq_lt(a@.skip(i as int), b@.skip(i as int)),
        decreases n - i,
    {
        assert(a@.skip(i as int).drop_first() =~= a@.skip(i + 1));
        assert(b@.skip(i as int).drop_first() =~= b@.skip(i + 1));
        i += 1;
    }
    if i == m {
        false
    } else if i == n {
        true
    } else {
        (a[i] as u32) < (b[i] as u32)
    }
}

/// Strict lexicographic comparison of two strings.
pub fn str_lt(a: &str, b: &str) -> (r: bool)
    ensures
        r == seq_lt(a@, b@),
{
    let x = chars_of(a);
    let y = chars_of(b);
    chars_lt(x.as_slice(), y.as_slice())
}

/// `s` split at every `sep`.
pub fn split_chars(s: &[char], sep: char) -> (parts: Vec<Vec<char>>)
    ensures
        seqs_of(parts@) == split_spec(s@, sep),
{
    let n = s.len();
    let mut parts: Vec<Vec<char>> = Vec::new();
    let mut cur: Vec<char> = Vec::new();
    let mut i: usize = 0;
    assert(s@.take(0) =~= Seq::<char>::empty());
    while i < n
        invariant
            n == s@.len(),
            i <= n,
            seqs_of(parts@).push(cur@) == split_spec(s@.take(i as int), sep),
        decreases n - i,
    {
        let c = s[i];
        proof {
            let t = s@.take(i + 1);
            assert(t.drop_last() =~= s@.take(i as int));
            assert(t.last() == c);
        }
        if c == sep {
            let ghost before = seqs_of(parts@);
            let done = cur;
            parts.push(done);
            cur = Vec::new();
            assert(seqs_of(parts@) =~= before.push(done@));
            assert(seqs_of(parts@).push(cur@) =~= before.push(done@).push(Seq::<char>::empty()));
        } else {
            let ghost before = seqs_of(parts@);
            let ghost old_cur = cur@;
            cur.push(c);
            assert(seqs_of(parts@).push(cur@) =~= before.push(old_cur).update(
                before.len() as int,
                old_cur.push(c),
            ));
        }
        i += 1;
    }
    assert(s@.take(n as int) =~= s@);
    let ghost before = seqs_of(parts@);
    parts.push(cur);
    assert(seqs_of(parts@) =~= before.push(cur@));
    parts
}

/// The pieces joined with `sep`.
pub fn join_chars(parts: &[Vec<char>], sep: char) -> (s: String)
    ensures
        s@ == join_spec(seqs_of(parts@), sep),
{
    let mut s = String::new();
    let n = parts.len();
    let mut i: usize = 0;
    while i < n
        invariant
            n == parts@.len(),
            i <= n,
            s@ == join_spec(seqs_of(parts@).take(i as int), sep),
        decreases n - i,
    {
        let ghost pre = seqs_of(parts@).take(i as int);
        let ghost nxt = seqs_of(parts@).take(i + 1);
        assert(nxt.drop_last() =~= pre);
        if i > 0 {
            push_char(&mut s, sep);
        } else {
            assert(s@ =~= Seq::<char>::empty());
        }
        push_chars(&mut s, parts[i].as_slice());
        proof {
            if i > 0 {
                assert(s@ =~= join_spec(pre, sep) + seq![sep] + nxt.last());
            } else {
                assert(s@ =~= nxt[0]);
            }
        }
        i += 1;
    }
    assert(seqs_of(parts@).take(n as int) =~= seqs_of(parts@));
    s
}

} // verus!
