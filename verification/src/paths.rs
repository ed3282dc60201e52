//! Path helpers: all affected-selection matching happens on normalized,
//! forward-slash paths relative to the Gradle root (where lightning runs).

use vstd::prelude::*;
use crate::text::{
    chars_eq, chars_of, chars_starts_with, copy_chars, has_prefix, join_chars, join_spec,
    lemma_split_nonempty, push_char, seqs_of, split_chars, split_spec,
};

verus! {

/// The single-dot component `.`.
pub open spec fn dot() -> Seq<char> {
    seq!['.']
}

/// The parent component `..`.
pub open spec fn dotdot() -> Seq<char> {
    seq!['.', '.']
}

/// Folds one component into the already normalized ones: empty and `.`
/// components vanish, `..` cancels a preceding ordinary component and is
/// kept otherwise, anything else is appended.
pub open spec fn fold_step(out: Seq<Seq<char>>, part: Seq<char>) -> Seq<Seq<char>> {
    if part.len() == 0 || part == dot() {
        out
    } else if part == dotdot() {
        if out.len() > 0 && out.last() != dotdot() {
            out.drop_last()
        } else {
            out.push(dotdot())
        }
    } else {
        out.push(part)
    }
}

/// The components, folded from left to right.
pub open spec fn fold_parts(parts: Seq<Seq<char>>) -> Seq<Seq<char>>
    decreases parts.len(),
{
    if parts.len() == 0 {
        Seq::empty()
    } else {
        fold_step(fold_parts(parts.drop_last()), parts.last())
    }
}

/// The normal form of a forward-slash relative path: its `/`-separated
/// components folded, joined with `/`, or `.` when none is left.
pub open spec fn normalize_spec(path: Seq<char>) -> Seq<char> {
    let out = fold_parts(split_spec(path, '/'));
    if out.len() == 0 {
        dot()
    } else {
        join_spec(out, '/')
    }
}

/// The number of leading components that two component lists share.
pub open spec fn common_len(a: Seq<Seq<char>>, b: Seq<Seq<char>>) -> nat
    decreases a.len(),
{
    if a.len() == 0 || b.len() == 0 || a[0] != b[0] {
        0
    } else {
        1 + common_len(a.drop_first(), b.drop_first())
    }
}

/// `n` parent components.
pub open spec fn ups(n: nat) -> Seq<Seq<char>> {
    Seq::new(n, |_i: int| dotdot())
}

/// `path` (relative to a root) made relative to the root-relative directory
/// `prefix`: the normalized path loses the leading components it shares with
/// `prefix` and gains one `..` per component of `prefix` left over.
pub open spec fn rebase_spec(path: Seq<char>, prefix: Seq<char>) -> Seq<char> {
    let np = normalize_spec(path);
    if prefix == dot() || prefix.len() == 0 {
        np
    } else {
        let pp = split_spec(np, '/');
        let qq = split_spec(prefix, '/');
        let k = common_len(pp, qq);
        normalize_spec(join_spec(ups((qq.len() - k) as nat) + pp.skip(k as int), '/'))
    }
}

/// `path` is `dir` itself or lies under it; under the root `.` lies every
/// path but the parent `..` and those starting with `../`.
pub open spec fn is_under_spec(path: Seq<char>, dir: Seq<char>) -> bool {
    if dir == dot() {
        path != dotdot() && !has_prefix(path, seq!['.', '.', '/'])
    } else {
        path == dir || has_prefix(path, dir.push('/'))
    }
}

fn is_dotdot(part: &[char]) -> (r: bool)
    ensures
        r == (part@ == dotdot()),
{
    if part.len() == 2 && part[0] == '.' && part[1] == '.' {
        assert(part@ =~= dotdot());
        true
    } else {
        false
    }
}

fn fold_one(out: &mut Vec<Vec<char>>, part: &[char])
    ensures
        seqs_of(final(out)@) == fold_step(seqs_of(old(out)@), part@),
{
    let ghost before = seqs_of(out@);
    if part.len() == 0 || (part.len() == 1 && part[0] == '.') {
        proof {
            if part.len() == 1 {
                assert(part@ =~= dot());
            }
        }
    } else if is_dotdot(part) {
        let n = out.len();
        if n > 0 && !is_dotdot(out[n - 1].as_slice()) {
            out.pop();
            assert(seqs_of(out@) =~= before.drop_last());
        } else {
            out.push(vec!['.', '.']);
            assert(seqs_of(out@) =~= before.push(dotdot()));
        }
    } else {
        proof {
            if part.len() == 1 {
                assert(part@ != dot());
            }
        }
        out.push(copy_chars(part));
        assert(seqs_of(out@) =~= before.push(part@));
    }
}

fn dot_string() -> (s: String)
    ensures
        s@ == dot(),
{
    let mut s = String::new();
    push_char(&mut s, '.');
    assert(s@ =~= dot());
    s
}

fn normalize_parts(parts: &Vec<Vec<char>>) -> (s: String)
    ensures
        s@ == ({
            let out = fold_parts(seqs_of(parts@));
            if out.len() == 0 {
                dot()
            } else {
                join_spec(out, '/')
            }
        }),
{
    let mut out: Vec<Vec<char>> = Vec::new();
    let n = parts.len();
    let mut i: usize = 0;
    while i < n
        invariant
            n == parts@.len(),
            i <= n,
            seqs_of(out@) == fold_parts(seqs_of(parts@).take(i as int)),
        decreases n - i,
    {
        let ghost t = seqs_of(parts@).take(i + 1);
        assert(t.drop_last() =~= seqs_of(parts@).take(i as int));
        fold_one(&mut out, parts[i].as_slice());
        i += 1;
    }
    assert(seqs_of(parts@).take(n as int) =~= seqs_of(parts@));
    if out.len() == 0 {
        dot_string()
    } else {
        join_chars(out.as_slice(), '/')
    }
}

/// Normalize a forward-slash relative path: fold `.` and `x/..` pairs,
/// keep leading `..` components.
pub fn normalize(path: &str) -> (r: String)
    ensures
        r@ == normalize_spec(path@),
{
    let cs = chars_of(path);
    let parts = split_chars(cs.as_slice(), '/');
    normalize_parts(&parts)
}

/// Rebase `path` (relative to a root) onto a subdirectory of that root given
/// by `prefix` (also root-relative, `.` for the root itself). The result may
/// start with `..` when the path lies outside the prefix.
pub fn rebase(path: &str, prefix: &str) -> (r: String)
    ensures
        r@ == rebase_spec(path@, prefix@),
{
    let np = normalize(path);
    let q = chars_of(prefix);
    if q.len() == 0 || (q.len() == 1 && q[0] == '.') {
        proof {
            if q.len() == 1 {
                assert(q@ =~= dot());
            }
        }
        return np;
    }
    proof {
        if q.len() == 1 {
            assert(prefix@ != dot());
        }
    }
    let npc = chars_of(np.as_str());
    let pp = split_chars(npc.as_slice(), '/');
    let qq = split_chars(q.as_slice(), '/');
    let ghost sp = seqs_of(pp@);
    let ghost sq = seqs_of(qq@);
    let mut k: usize = 0;
    assert(sp.skip(0) =~= sp);
    assert(sq.skip(0) =~= sq);
    while k < pp.len() && k < qq.len() && chars_eq(pp[k].as_slice(), qq[k].as_slice())
        invariant
            sp == seqs_of(pp@),
            sq == seqs_of(qq@),
            k <= pp@.len(),
            k <= qq@.len(),
            common_len(sp, sq) == k + common_len(sp.skip(k as int), sq.skip(k as int)),
        decreases pp@.len() - k,
    {
        assert(sp.skip(k as int).drop_first() =~= sp.skip(k + 1));
        assert(sq.skip(k as int).drop_first() =~= sq.skip(k + 1));
        k += 1;
    }
    assert(common_len(sp.skip(k as int), sq.skip(k as int)) == 0);
    let mut out: Vec<Vec<char>> = Vec::new();
    let ups_n = qq.len() - k;
    let mut j: usize = 0;
    while j < ups_n
        invariant
            j <= ups_n,
            seqs_of(out@) == ups(j as nat),
        decreases ups_n - j,
    {
        let ghost before = seqs_of(out@);
        let dd = vec!['.', '.'];
        assert(dd@ =~= dotdot());
        out.push(dd);
        assert(seqs_of(out@) =~= before.push(dotdot()));
        assert(ups(j as nat).push(dotdot()) =~= ups((j + 1) as nat));
        j += 1;
    }
    let m = pp.len();
    let mut t: usize = k;
    while t < m
        invariant
            m == pp@.len(),
            k <= t <= m,
            sp == seqs_of(pp@),
            seqs_of(out@) == ups(ups_n as nat) + sp.skip(k as int).take(t - k),
        decreases m - t,
    {
        let ghost before = seqs_of(out@);
        out.push(copy_chars(pp[t].as_slice()));
        assert(seqs_of(out@) =~= before.push(sp[t as int]));
        assert(sp.skip(k as int).take(t - k + 1) =~= sp.skip(k as int).take(t - k).push(sp[t as int]));
        t += 1;
    }
    assert(sp.skip(k as int).take(m - k) =~= sp.skip(k as int));
    let joined = join_chars(out.as_slice(), '/');
    normalize(joined.as_str())
}

/// True when `path` is `dir` itself or lies under it (both normalized).
pub fn is_under(path: &str, dir: &str) -> (r: bool)
    ensures
        r == is_under_spec(path@, dir@),
{
    let p = chars_of(path);
    let d = chars_of(dir);
    if d.len() == 1 && d[0] == '.' {
        assert(d@ =~= dot());
        let up = vec!['.', '.', '/'];
        assert(up@ =~= seq!['.', '.', '/']);
        return !is_dotdot(p.as_slice()) && !chars_starts_with(p.as_slice(), up.as_slice());
    }
    assert(d@ != dot()) by {
        if d@.len() == 1 {
            assert(d@[0] != dot()[0]);
        }
    }
    if chars_eq(p.as_slice(), d.as_slice()) {
        return true;
    }
    let n = d.len();
    if p.len() > n && chars_starts_with(p.as_slice(), d.as_slice()) && p[n] == '/' {
        assert(p@.take(n + 1) =~= d@.push('/'));
        true
    } else {
        proof {
            if has_prefix(p@, d@.push('/')) {
                assert(p@.take(n as int) =~= p@.take(n + 1).take(n as int));
                assert(p@.take(n + 1)[n as int] == d@.push('/')[n as int]);
                assert(p@.take(n + 1)[n as int] == p@[n as int]);
                assert(d@.push('/').take(n as int) =~= d@);
                assert(p@.take(n as int) =~= d@);
                assert(has_prefix(p@, d@));
            }
        }
        false
    }
}

/// `s` holds no `/`.
pub open spec fn no_slash(s: Seq<char>) -> bool {
    forall|i: int| 0 <= i < s.len() ==> s[i] != '/'
}

/// A folded component list: no empty or `.` component, no `/` inside a
/// component, and `..` components only before all ordinary ones.
pub open spec fn folded(out: Seq<Seq<char>>) -> bool {
    &&& forall|i: int|
        0 <= i < out.len() ==> (#[trigger] out[i]).len() > 0 && out[i] != dot() && no_slash(out[i])
    &&& forall|i: int, j: int|
        0 <= i < j < out.len() && #[trigger] out[j] == dotdot() ==> #[trigger] out[i] == dotdot()
}

/// A text without separators splits into itself.
proof fn lemma_split_whole(s: Seq<char>, sep: char)
    requires
        forall|i: int| 0 <= i < s.len() ==> s[i] != sep,
    ensures
        split_spec(s, sep) == seq![s],
    decreases s.len(),
{
    if s.len() > 0 {
        lemma_split_whole(s.drop_last(), sep);
        assert(s.drop_last().push(s.last()) =~= s);
    } else {
        assert(s =~= Seq::<char>::empty());
    }
}

/// A separator followed by a separator-free tail adds that tail as a piece.
proof fn lemma_split_after_sep(a: Seq<char>, b: Seq<char>, sep: char)
    requires
        forall|i: int| 0 <= i < b.len() ==> b[i] != sep,
    ensures
        split_spec(a + seq![sep] + b, sep) == split_spec(a, sep).push(b),
    decreases b.len(),
{
    let s = a + seq![sep] + b;
    if b.len() == 0 {
        assert(s.drop_last() =~= a);
        assert(b =~= Seq::<char>::empty());
    } else {
        assert(s.drop_last() =~= a + seq![sep] + b.drop_last());
        lemma_split_after_sep(a, b.drop_last(), sep);
        assert(b.drop_last().push(b.last()) =~= b);
    }
}

/// Pieces without separators, joined and split again, come back.
proof fn lemma_split_join(parts: Seq<Seq<char>>)
    requires
        parts.len() > 0,
        forall|i: int| 0 <= i < parts.len() ==> no_slash(#[trigger] parts[i]),
    ensures
        split_spec(join_spec(parts, '/'), '/') == parts,
    decreases parts.len(),
{
    if parts.len() == 1 {
        assert(no_slash(parts[0]));
        lemma_split_whole(parts[0], '/');
        assert(seq![parts[0]] =~= parts);
    } else {
        lemma_split_join(parts.drop_last());
        assert(no_slash(parts.last()));
        lemma_split_after_sep(join_spec(parts.drop_last(), '/'), parts.last(), '/');
        assert(parts.drop_last().push(parts.last()) =~= parts);
    }
}

/// The pieces of a split hold no separator.
proof fn lemma_split_pieces(s: Seq<char>)
    ensures
        forall|i: int| 0 <= i < split_spec(s, '/').len() ==> no_slash(#[trigger] split_spec(s, '/')[i]),
    decreases s.len(),
{
    if s.len() > 0 {
        lemma_split_pieces(s.drop_last());
        lemma_split_nonempty(s.drop_last(), '/');
    }
}

/// Folding keeps a list folded.
proof fn lemma_fold_step_folded(out: Seq<Seq<char>>, part: Seq<char>)
    requires
        folded(out),
        no_slash(part),
    ensures
        folded(fold_step(out, part)),
{
    if part.len() == 0 || part == dot() {
    } else if part == dotdot() {
        if out.len() > 0 && out.last() != dotdot() {
            let r = out.drop_last();
            assert forall|i: int, j: int|
                0 <= i < j < r.len() && #[trigger] r[j] == dotdot() implies #[trigger] r[i] == dotdot() by {
                assert(out[j] == r[j] && out[i] == r[i]);
            }
        } else {
            let r = out.push(dotdot());
            assert forall|i: int, j: int|
                0 <= i < j < r.len() && #[trigger] r[j] == dotdot() implies #[trigger] r[i] == dotdot() by {
                if j < out.len() {
                    assert(out[j] == r[j] && out[i] == r[i]);
                } else {
                    assert(r[i] == out[i]);
                    if i < out.len() - 1 {
                        assert(out[out.len() - 1] == dotdot());
                    }
                }
            }
            assert(no_slash(dotdot()));
            assert(dotdot() != dot());
        }
    } else {
        let r = out.push(part);
        assert forall|i: int, j: int|
            0 <= i < j < r.len() && #[trigger] r[j] == dotdot() implies #[trigger] r[i] == dotdot() by {
            if j < out.len() {
                assert(out[j] == r[j] && out[i] == r[i]);
            }
        }
    }
}

/// Folding separator-free pieces gives a folded list.
proof fn lemma_fold_parts_folded(parts: Seq<Seq<char>>)
    requires
        forall|i: int| 0 <= i < parts.len() ==> no_slash(#[trigger] parts[i]),
    ensures
        folded(fold_parts(parts)),
    decreases parts.len(),
{
    if parts.len() > 0 {
        lemma_fold_parts_folded(parts.drop_last());
        assert(no_slash(parts.last()));
        lemma_fold_step_folded(fold_parts(parts.drop_last()), parts.last());
    }
}

/// A folded list folds to itself.
proof fn lemma_fold_parts_fixed(out: Seq<Seq<char>>)
    requires
        folded(out),
    ensures
        fold_parts(out) == out,
    decreases out.len(),
{
    if out.len() > 0 {
        let d = out.drop_last();
        assert forall|i: int, j: int|
            0 <= i < j < d.len() && #[trigger] d[j] == dotdot() implies #[trigger] d[i] == dotdot() by {
            assert(out[j] == d[j] && out[i] == d[i]);
        }
        assert forall|i: int| 0 <= i < d.len() implies (#[trigger] d[i]).len() > 0 && d[i] != dot()
            && no_slash(d[i]) by {
            assert(out[i] == d[i]);
        }
        lemma_fold_parts_fixed(d);
        assert(out.last().len() > 0 && out.last() != dot());
        if out.last() == dotdot() {
            if d.len() > 0 {
                assert(out[d.len() - 1] == dotdot());
            }
        }
        assert(d.push(out.last()) =~= out);
    }
}

/// Normalizing is idempotent: a normalized path is its own normal form.
pub proof fn law_normalize_is_idempotent(path: Seq<char>)
    ensures
        normalize_spec(normalize_spec(path)) == normalize_spec(path),
{
    let parts = split_spec(path, '/');
    lemma_split_pieces(path);
    lemma_fold_parts_folded(parts);
    let out = fold_parts(parts);
    if out.len() == 0 {
        lemma_split_whole(dot(), '/');
        assert(fold_parts(seq![dot()]) == fold_step(fold_parts(Seq::<Seq<char>>::empty()), dot())) by {
            assert(seq![dot()].drop_last() =~= Seq::<Seq<char>>::empty());
        }
    } else {
        assert forall|i: int| 0 <= i < out.len() implies no_slash(#[trigger] out[i]) by {}
        lemma_split_join(out);
        lemma_fold_parts_fixed(out);
    }
}

/// Rebasing onto the root `.` (or an empty prefix) only normalizes.
pub proof fn law_rebase_onto_root_normalizes(path: Seq<char>)
    ensures
        rebase_spec(path, dot()) == normalize_spec(path),
        rebase_spec(path, Seq::<char>::empty()) == normalize_spec(path),
{
}

/// A directory lies under itself, and every path not leaving the root lies
/// under it; the parent `..` does not.
pub proof fn law_is_under_is_reflexive(dir: Seq<char>, path: Seq<char>)
    ensures
        is_under_spec(dir, dir),
        path != dotdot() && !has_prefix(path, seq!['.', '.', '/']) ==> is_under_spec(path, dot()),
        !is_under_spec(dotdot(), dot()),
{
    if dir == dot() {
        assert(!has_prefix(dot(), seq!['.', '.', '/']));
        assert(dot() != dotdot()) by {
            assert(dot().len() != dotdot().len());
        }
    }
}

/// The component list of a normal form: nothing but `.` for the root,
/// otherwise non-empty components, none of them `.`, with every `..`
/// before every ordinary component.
pub open spec fn well_formed_parts(parts: Seq<Seq<char>>) -> bool {
    &&& forall|i: int| 0 <= i < parts.len() ==> (#[trigger] parts[i]).len() > 0 && parts[i] != dot()
    &&& forall|i: int, j: int|
        0 <= i < j < parts.len() && #[trigger] parts[j] == dotdot() ==> #[trigger] parts[i] == dotdot()
}

/// The normal form of a path, when it is not the root, joins its folded
/// components.
proof fn lemma_normal_form_parts(path: Seq<char>)
    ensures
        folded(fold_parts(split_spec(path, '/'))),
        fold_parts(split_spec(path, '/')).len() > 0 ==> split_spec(normalize_spec(path), '/')
            == fold_parts(split_spec(path, '/')),
{
    lemma_split_pieces(path);
    lemma_fold_parts_folded(split_spec(path, '/'));
    let out = fold_parts(split_spec(path, '/'));
    if out.len() > 0 {
        lemma_split_join(out);
    }
}

/// A normal form is never empty: it is `.`, or its `/`-separated components
/// are non-empty, none is `.`, and `..` components come only before all
/// others.
pub proof fn law_normal_forms_are_well_formed(path: Seq<char>)
    ensures
        normalize_spec(path).len() > 0,
        normalize_spec(path) == dot() || well_formed_parts(split_spec(normalize_spec(path), '/')),
{
    lemma_normal_form_parts(path);
    let out = fold_parts(split_spec(path, '/'));
    if out.len() > 0 {
        let n = normalize_spec(path);
        if n.len() == 0 {
            assert(split_spec(n, '/') == seq![Seq::<char>::empty()]);
            assert(out[0].len() > 0);
        }
    }
}

/// Folds `parts` onto the already folded `out`.
pub open spec fn fold_onto(out: Seq<Seq<char>>, parts: Seq<Seq<char>>) -> Seq<Seq<char>>
    decreases parts.len(),
{
    if parts.len() == 0 {
        out
    } else {
        fold_step(fold_onto(out, parts.drop_last()), parts.last())
    }
}

/// Folding from nothing is folding.
proof fn lemma_fold_onto_empty(parts: Seq<Seq<char>>)
    ensures
        fold_onto(Seq::empty(), parts) == fold_parts(parts),
    decreases parts.len(),
{
    if parts.len() > 0 {
        lemma_fold_onto_empty(parts.drop_last());
    }
}

/// Folding two lists one after the other.
proof fn lemma_fold_onto_concat(out: Seq<Seq<char>>, a: Seq<Seq<char>>, b: Seq<Seq<char>>)
    ensures
        fold_onto(out, a + b) == fold_onto(fold_onto(out, a), b),
    decreases b.len(),
{
    if b.len() == 0 {
        assert(a + b =~= a);
    } else {
        lemma_fold_onto_concat(out, a, b.drop_last());
        assert((a + b).drop_last() =~= a + b.drop_last());
        assert((a + b).last() == b.last());
    }
}

/// An ordinary component: non-empty, neither `.` nor `..`.
pub open spec fn ordinary(part: Seq<char>) -> bool {
    part.len() > 0 && part != dot() && part != dotdot()
}

/// Ordinary components are appended as they are.
proof fn lemma_fold_onto_ordinary(out: Seq<Seq<char>>, parts: Seq<Seq<char>>)
    requires
        forall|i: int| 0 <= i < parts.len() ==> ordinary(#[trigger] parts[i]),
    ensures
        fold_onto(out, parts) == out + parts,
    decreases parts.len(),
{
    if parts.len() == 0 {
        assert(out + parts =~= out);
    } else {
        lemma_fold_onto_ordinary(out, parts.drop_last());
        assert(ordinary(parts[parts.len() - 1]));
        assert((out + parts.drop_last()).push(parts.last()) =~= out + parts);
    }
}

/// Each `..` folded onto ordinary components removes the last of them.
proof fn lemma_fold_onto_ups(out: Seq<Seq<char>>, m: nat)
    requires
        m <= out.len(),
        forall|i: int| 0 <= i < out.len() ==> ordinary(#[trigger] out[i]),
    ensures
        fold_onto(out, ups(m)) == out.take(out.len() - m),
    decreases m,
{
    if m == 0 {
        assert(out.take(out.len() as int) =~= out);
    } else {
        assert(ups(m).drop_last() =~= ups((m - 1) as nat));
        lemma_fold_onto_ups(out, (m - 1) as nat);
        let t = out.take(out.len() - m + 1);
        assert(ordinary(out[out.len() - m]));
        assert(t.last() == out[out.len() - m]);
        assert(t.drop_last() =~= out.take(out.len() - m));
    }
}

/// The first `common_len` components of both lists agree.
proof fn lemma_common_len(a: Seq<Seq<char>>, b: Seq<Seq<char>>)
    ensures
        common_len(a, b) <= a.len(),
        common_len(a, b) <= b.len(),
        a.take(common_len(a, b) as int) == b.take(common_len(a, b) as int),
    decreases a.len(),
{
    if a.len() == 0 || b.len() == 0 || a[0] != b[0] {
        assert(a.take(0) =~= b.take(0));
    } else {
        lemma_common_len(a.drop_first(), b.drop_first());
        let k = common_len(a, b) as int;
        assert(a.take(k) =~= seq![a[0]] + a.drop_first().take(k - 1));
        assert(b.take(k) =~= seq![b[0]] + b.drop_first().take(k - 1));
    }
}

/// Splitting at a separator splits both sides.
proof fn lemma_split_concat(a: Seq<char>, b: Seq<char>)
    ensures
        split_spec(a + seq!['/'] + b, '/') == split_spec(a, '/') + split_spec(b, '/'),
    decreases b.len(),
{
    let s = a + seq!['/'] + b;
    if b.len() == 0 {
        assert(s.drop_last() =~= a);
        assert(split_spec(a, '/').push(Seq::<char>::empty()) =~= split_spec(a, '/') + split_spec(b, '/'));
    } else {
        lemma_split_concat(a, b.drop_last());
        assert(s.drop_last() =~= a + seq!['/'] + b.drop_last());
        let pa = split_spec(a, '/');
        let pb = split_spec(b.drop_last(), '/');
        lemma_split_nonempty(b.drop_last(), '/');
        if b.last() == '/' {
            assert((pa + pb).push(Seq::<char>::empty()) =~= pa + pb.push(Seq::<char>::empty()));
        } else {
            let prev = pa + pb;
            assert(prev.last() == pb.last());
            assert(prev.update(prev.len() - 1, prev.last().push(b.last())) =~= pa + pb.update(
                pb.len() - 1,
                pb.last().push(b.last()),
            ));
        }
    }
}

/// A folded list whose first component is ordinary holds only ordinary
/// components.
proof fn lemma_folded_ordinary(out: Seq<Seq<char>>)
    requires
        folded(out),
        out.len() > 0,
        out[0] != dotdot(),
    ensures
        forall|i: int| 0 <= i < out.len() ==> ordinary(#[trigger] out[i]),
{
    assert forall|i: int| 0 <= i < out.len() implies ordinary(#[trigger] out[i]) by {
        if out[i] == dotdot() && i > 0 {
            assert(out[0] == dotdot());
        }
    }
}

/// Rebasing keeps the path: read from the prefix, the rebased path names the
/// same file (`prefix/rebase(path, prefix)` normalizes to the normal form of
/// `path`), and the rebased path is itself a normal form. The prefix is a
/// normal form below the root that does not leave it.
pub proof fn law_rebase_round_trips(path: Seq<char>, prefix: Seq<char>)
    requires
        prefix == normalize_spec(prefix),
        prefix != dot(),
        !split_spec(prefix, '/').contains(dotdot()),
    ensures
        normalize_spec(prefix + seq!['/'] + rebase_spec(path, prefix)) == normalize_spec(path),
        normalize_spec(rebase_spec(path, prefix)) == rebase_spec(path, prefix),
{
    // the prefix's components
    lemma_normal_form_parts(prefix);
    let qq = split_spec(prefix, '/');
    let fq = fold_parts(split_spec(prefix, '/'));
    assert(fq.len() > 0);
    assert(qq == fq);
    assert forall|i: int| 0 <= i < qq.len() implies ordinary(#[trigger] qq[i]) by {
        if qq[i] == dotdot() {
            assert(qq.contains(dotdot()));
        }
    }
    lemma_fold_parts_fixed(qq);
    // the path's components
    lemma_normal_form_parts(path);
    let np = normalize_spec(path);
    let o = fold_parts(split_spec(path, '/'));
    let pp = split_spec(np, '/');
    let k = common_len(pp, qq);
    lemma_common_len(pp, qq);
    let m = (qq.len() - k) as nat;
    let l = ups(m) + pp.skip(k as int);
    let r = rebase_spec(path, prefix);
    assert(prefix.len() > 0);
    assert(r == normalize_spec(join_spec(l, '/')));
    lemma_fold_onto_ups(qq, m);
    if o.len() == 0 {
        // the path is the root: it climbs out of every prefix component
        lemma_split_whole(dot(), '/');
        assert(pp == seq![dot()]);
        assert(k == 0) by {
            assert(ordinary(qq[0]));
        }
        assert(pp.skip(0) == pp);
        assert(m == qq.len());
        assert forall|i: int| 0 <= i < l.len() implies no_slash(#[trigger] l[i]) by {
            if i < m {
                assert(l[i] == dotdot());
            } else {
                assert(l[i] == dot());
            }
        }
        lemma_split_join(l);
        let u = ups(m);
        assert(folded(u)) by {
            assert forall|i: int| 0 <= i < u.len() implies (#[trigger] u[i]).len() > 0 && u[i] != dot()
                && no_slash(u[i]) by {
                assert(u[i] == dotdot());
            }
        }
        lemma_fold_onto_empty(l);
        assert(l =~= u + seq![dot()]);
        lemma_fold_onto_concat(Seq::empty(), u, seq![dot()]);
        assert(seq![dot()].drop_last() =~= Seq::<Seq<char>>::empty());
        lemma_fold_onto_empty(u);
        lemma_fold_parts_fixed(u);
        assert(fold_onto(u, seq![dot()]) == fold_step(fold_onto(u, Seq::<Seq<char>>::empty()), dot()));
        assert(fold_onto(u, seq![dot()]) == u);
        assert(fold_parts(l) == u);
        assert(r == join_spec(u, '/'));
        lemma_split_join(u);
        // prefix/r folds to nothing
        let s = prefix + seq!['/'] + r;
        lemma_split_concat(prefix, r);
        lemma_fold_onto_empty(qq + u);
        lemma_fold_onto_concat(Seq::empty(), qq, u);
        lemma_fold_onto_empty(qq);
        assert(qq.take(0) =~= Seq::<Seq<char>>::empty());
        assert(fold_parts(split_spec(s, '/')).len() == 0);
        // r is a normal form
        law_normalize_is_idempotent(join_spec(l, '/'));
    } else {
        assert(pp == o);
        let tail = pp.skip(k as int);
        assert(folded(l)) by {
            assert forall|i: int| 0 <= i < l.len() implies (#[trigger] l[i]).len() > 0 && l[i] != dot()
                && no_slash(l[i]) by {
                if i >= m {
                    assert(l[i] == pp[i - m + k]);
                }
            }
            assert forall|i: int, j: int| 0 <= i < j < l.len() && #[trigger] l[j] == dotdot() implies #[trigger] l[i]
                == dotdot() by {
                if i >= m {
                    assert(l[j] == pp[j - m + k]);
                    assert(l[i] == pp[i - m + k]);
                }
            }
        }
        // what folding the rebased components onto the prefix gives
        lemma_fold_onto_concat(qq, ups(m), tail);
        assert(qq.take(k as int) == pp.take(k as int));
        assert(fold_onto(qq, l) == pp) by {
            if k == 0 {
                assert(pp.take(0) =~= Seq::<Seq<char>>::empty());
                lemma_fold_onto_empty(tail);
                assert(tail =~= pp);
                lemma_fold_parts_fixed(pp);
            } else {
                assert(pp[0] == qq[0]) by {
                    assert(pp.take(k as int)[0] == qq.take(k as int)[0]);
                }
                assert(ordinary(qq[0]));
                lemma_folded_ordinary(pp);
                assert forall|i: int| 0 <= i < tail.len() implies ordinary(#[trigger] tail[i]) by {
                    assert(tail[i] == pp[i + k]);
                }
                lemma_fold_onto_ordinary(pp.take(k as int), tail);
                assert(pp.take(k as int) + tail =~= pp);
            }
        }
        let s = prefix + seq!['/'] + r;
        lemma_fold_onto_empty(qq);
        if l.len() == 0 {
            assert(fold_parts(l) =~= Seq::<Seq<char>>::empty()) by {
                assert(l =~= Seq::<Seq<char>>::empty());
            }
            assert(join_spec(l, '/') =~= Seq::<char>::empty());
            let e = Seq::<char>::empty();
            assert(split_spec(e, '/') == seq![e]);
            assert(seq![e].drop_last() =~= Seq::<Seq<char>>::empty());
            assert(seq![e].last() == e);
            assert(fold_parts(seq![e]) == fold_step(fold_parts(Seq::<Seq<char>>::empty()), e));
            assert(fold_parts(seq![e]) =~= Seq::<Seq<char>>::empty());
            assert(normalize_spec(e) == dot());
            assert(r == dot());
            lemma_split_whole(dot(), '/');
            lemma_split_concat(prefix, r);
            lemma_fold_onto_empty(qq + seq![dot()]);
            lemma_fold_onto_concat(Seq::empty(), qq, seq![dot()]);
            assert(seq![dot()].drop_last() =~= Seq::<Seq<char>>::empty());
            assert(fold_onto(qq, seq![dot()]) == qq);
            assert(fold_onto(qq, ups(0)) == qq);
            assert(qq.take(qq.len() as int) =~= qq);
            assert(l =~= ups(m) + tail);
            assert(m == 0 && tail.len() == 0);
            assert(fold_onto(qq, l) == fold_onto(qq, tail));
            assert(pp == qq.take(k as int));
            assert(qq.take(k as int) =~= qq);
            assert(fold_parts(split_spec(s, '/')) == pp);
        } else {
            lemma_split_join(l);
            lemma_fold_parts_fixed(l);
            assert(r == join_spec(l, '/'));
            lemma_split_concat(prefix, r);
            lemma_fold_onto_empty(qq + l);
            lemma_fold_onto_concat(Seq::empty(), qq, l);
            assert(fold_parts(split_spec(s, '/')) == pp);
        }
        law_normalize_is_idempotent(join_spec(l, '/'));
    }
}

/// A rebased path is a normal form, whatever the prefix.
pub proof fn law_rebased_paths_are_normal(path: Seq<char>, prefix: Seq<char>)
    ensures
        normalize_spec(rebase_spec(path, prefix)) == rebase_spec(path, prefix),
{
    law_normalize_is_idempotent(path);
    let np = normalize_spec(path);
    let pp = split_spec(np, '/');
    let qq = split_spec(prefix, '/');
    let k = common_len(pp, qq);
    law_normalize_is_idempotent(join_spec(ups((qq.len() - k) as nat) + pp.skip(k as int), '/'));
}

} // verus!
