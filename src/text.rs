//! Strings as sequences of characters: lexicographic order, sorting,
//! concatenation and membership over lists of components.
use vstd::prelude::*;

verus! {

/// The character sequences held by a list of strings.
pub open spec fn views(v: Seq<String>) -> Seq<Seq<char>> {
    v.map_values(|s: String| s@)
}

/// Each element comes no later than the next.
pub open spec fn is_sorted(s: Seq<Seq<char>>) -> bool {
    forall|i: int| 0 <= i < s.len() - 1 ==> lex_le(#[trigger] s[i], s[i + 1])
}

/// Lexicographic order on character sequences (by code point).
pub open spec fn lex_le(a: Seq<char>, b: Seq<char>) -> bool
    decreases a.len(),
{
    if a.len() == 0 {
        true
    } else if b.len() == 0 {
        false
    } else if (a[0] as u32) < (b[0] as u32) {
        true
    } else if (a[0] as u32) > (b[0] as u32) {
        false
    } else {
        lex_le(a.drop_first(), b.drop_first())
    }
}

/// Inserts `x` in front of the first element that it does not exceed.
pub open spec fn insert_sorted(s: Seq<Seq<char>>, x: Seq<char>) -> Seq<Seq<char>>
    decreases s.len(),
{
    if s.len() == 0 {
        seq![x]
    } else if lex_le(x, s[0]) {
        seq![x] + s
    } else {
        seq![s[0]] + insert_sorted(s.drop_first(), x)
    }
}

/// The components of `s` in lexicographic order.
pub open spec fn sorted(s: Seq<Seq<char>>) -> Seq<Seq<char>>
    decreases s.len(),
{
    if s.len() == 0 {
        Seq::empty()
    } else {
        insert_sorted(sorted(s.drop_last()), s.last())
    }
}

/// The sequences of `s` written one after the other.
pub open spec fn concat<A>(s: Seq<Seq<A>>) -> Seq<A>
    decreases s.len(),
{
    if s.len() == 0 {
        Seq::empty()
    } else {
        concat(s.drop_last()) + s.last()
    }
}

pub(crate) proof fn lemma_concat_append<A>(x: Seq<Seq<A>>, y: Seq<Seq<A>>)
    ensures
        concat(x + y) == concat(x) + concat(y),
    decreases y.len(),
{
    if y.len() == 0 {
        assert(x + y =~= x);
        assert(concat(x) + concat(y) =~= concat(x));
    } else {
        assert((x + y).drop_last() =~= x + y.drop_last());
        lemma_concat_append(x, y.drop_last());
        assert(concat(x) + concat(y.drop_last()) + y.last() =~= concat(x) + (concat(y.drop_last()) + y.last()));
    }
}

/// The canonical key of a list of components: sorted, then concatenated.
pub open spec fn key_of(s: Seq<Seq<char>>) -> Seq<char> {
    concat(sorted(s))
}

/// Whether `a` comes no later than `b` in lexicographic order.
pub fn lex_le_str(a: &String, b: &String) -> (r: bool)
    ensures
        r == lex_le(a@, b@),
{
    let la = a.as_str().unicode_len();
    let lb = b.as_str().unicode_len();
    let mut k: usize = 0;
    assert(a@.subrange(0, la as int) =~= a@);
    assert(b@.subrange(0, lb as int) =~= b@);
    while k < la && k < lb
        invariant
            la == a@.len(),
            lb == b@.len(),
            k <= la,
            k <= lb,
            lex_le(a@, b@) == lex_le(a@.subrange(k as int, la as int), b@.subrange(k as int, lb as int)),
        decreases la - k,
    {
        let ca = a.as_str().get_char(k);
        let cb = b.as_str().get_char(k);
        let ghost sa = a@.subrange(k as int, la as int);
        let ghost sb = b@.subrange(k as int, lb as int);
        assert(sa[0] == ca && sb[0] == cb);
        if (ca as u32) < (cb as u32) {
            return true;
        }
        if (ca as u32) > (cb as u32) {
            return false;
        }
        assert(sa.drop_first() =~= a@.subrange(k + 1, la as int));
        assert(sb.drop_first() =~= b@.subrange(k + 1, lb as int));
        k = k + 1;
    }
    assert(k == la ==> a@.subrange(k as int, la as int).len() == 0);
    assert(k < la ==> b@.subrange(k as int, lb as int).len() == 0);
    k == la
}

proof fn lemma_insert_at(s: Seq<Seq<char>>, x: Seq<char>, p: int)
    requires
        0 <= p <= s.len(),
        forall|j: int| 0 <= j < p ==> !lex_le(x, #[trigger] s[j]),
        p < s.len() ==> lex_le(x, s[p]),
    ensures
        insert_sorted(s, x) == s.insert(p, x),
    decreases p,
{
    if p == 0 {
        assert(s.insert(0, x) =~= seq![x] + s);
    } else {
        let t = s.drop_first();
        assert forall|j: int| 0 <= j < p - 1 implies !lex_le(x, #[trigger] t[j]) by {
            assert(t[j] == s[j + 1]);
        }
        lemma_insert_at(t, x, p - 1);
        assert(s.insert(p, x) =~= seq![s[0]] + t.insert(p - 1, x));
    }
}

proof fn lemma_lex_total(a: Seq<char>, b: Seq<char>)
    ensures
        lex_le(a, b) || lex_le(b, a),
    decreases a.len(),
{
    if a.len() > 0 && b.len() > 0 && (a[0] as u32) == (b[0] as u32) {
        lemma_lex_total(a.drop_first(), b.drop_first());
    }
}

proof fn lemma_insert_sorted(s: Seq<Seq<char>>, x: Seq<char>)
    requires
        is_sorted(s),
    ensures
        is_sorted(insert_sorted(s, x)),
        insert_sorted(s, x).to_multiset() == s.to_multiset().insert(x),
        insert_sorted(s, x).len() == s.len() + 1,
        insert_sorted(s, x)[0] == x || (s.len() > 0 && insert_sorted(s, x)[0] == s[0]),
    decreases s.len(),
{
    broadcast use vstd::multiset::group_multiset_axioms;
    broadcast use vstd::seq_lib::group_to_multiset_ensures;

    if s.len() == 0 {
        assert(seq![x] =~= Seq::<Seq<char>>::empty().push(x));
    } else if lex_le(x, s[0]) {
        assert(seq![x] + s =~= s.insert(0, x));
    } else {
        let rest = s.drop_first();
        assert(is_sorted(rest)) by {
            assert forall|i: int| 0 <= i < rest.len() - 1 implies lex_le(#[trigger] rest[i], rest[i + 1]) by {
                assert(rest[i] == s[i + 1]);
            }
        }
        lemma_insert_sorted(rest, x);
        lemma_lex_total(x, s[0]);
        let t = insert_sorted(rest, x);
        let r = seq![s[0]] + t;
        assert forall|i: int| 0 <= i < r.len() - 1 implies lex_le(#[trigger] r[i], r[i + 1]) by {
            if i > 0 {
                assert(r[i] == t[i - 1]);
            } else if t[0] != x {
                assert(s[1] == rest[0]);
            }
        }
        vstd::seq_lib::lemma_multiset_commutative(seq![s[0]], t);
        vstd::seq_lib::lemma_multiset_commutative(seq![s[0]], rest);
        assert(seq![s[0]] + rest =~= s);
        assert(r.to_multiset() =~= s.to_multiset().insert(x));
    }
}

/// The canonical order holds the same components, each as often as
/// before, each no later than the next.
pub proof fn lemma_sorted_is_ordered_permutation(s: Seq<Seq<char>>)
    ensures
        is_sorted(sorted(s)),
        sorted(s).to_multiset() == s.to_multiset(),
    decreases s.len(),
{
    broadcast use vstd::seq_lib::group_to_multiset_ensures;

    if s.len() > 0 {
        lemma_sorted_is_ordered_permutation(s.drop_last());
        lemma_insert_sorted(sorted(s.drop_last()), s.last());
        assert(s.drop_last().push(s.last()) =~= s);
    }
}

/// Sorts a list of components lexicographically.
pub fn sort_components(v: &Vec<String>) -> (r: Vec<String>)
    ensures
        views(r@) == sorted(views(v@)),
{
    let mut r: Vec<String> = Vec::new();
    let n = v.len();
    let mut i: usize = 0;
    while i < n
        invariant
            n == v@.len(),
            i <= n,
            views(r@) == sorted(views(v@).subrange(0, i as int)),
        decreases n - i,
    {
        let x = v[i].clone();
        let mut p: usize = 0;
        let mut go = true;
        while go && p < r.len()
            invariant
                i < n,
                n == v@.len(),
                p <= r@.len(),
                x@ == v@[i as int]@,
                forall|j: int| 0 <= j < p ==> !lex_le(x@, #[trigger] views(r@)[j]),
                !go ==> p < r@.len() && lex_le(x@, views(r@)[p as int]),
            decreases r@.len() - p + (if go { 1int } else { 0int }),
        {
            if lex_le_str(&x, &r[p]) {
                go = false;
            } else {
                p = p + 1;
            }
        }
        proof {
            let s = views(v@).subrange(0, i as int + 1);
            assert(s.drop_last() =~= views(v@).subrange(0, i as int));
            lemma_insert_at(views(r@), x@, p as int);
        }
        let ghost old_r = r@;
        r.insert(p, x);
        assert(views(r@) =~= views(old_r).insert(p as int, x@));
        i = i + 1;
    }
    assert(views(v@).subrange(0, n as int) =~= views(v@));
    r
}

/// The canonical key of a list of components: sorted, then concatenated
/// with no separator.
pub fn component_key(v: &Vec<String>) -> (r: String)
    ensures
        r@ == key_of(views(v@)),
{
    let s = sort_components(v);
    let mut r = String::new();
    let mut i: usize = 0;
    while i < s.len()
        invariant
            i <= s@.len(),
            views(s@) == sorted(views(v@)),
            r@ == concat(views(s@).subrange(0, i as int)),
        decreases s@.len() - i,
    {
        r.append(s[i].as_str());
        assert(views(s@).subrange(0, i as int + 1).drop_last() =~= views(s@).subrange(0, i as int));
        i = i + 1;
    }
    assert(views(s@).subrange(0, s@.len() as int) =~= views(s@));
    r
}

/// Whether `v` holds a string equal to `s`.
pub fn contains_str(v: &Vec<String>, s: &String) -> (r: bool)
    ensures
        r == views(v@).contains(s@),
{
    let mut i: usize = 0;
    while i < v.len()
        invariant
            i <= v@.len(),
            forall|j: int| 0 <= j < i ==> views(v@)[j] != s@,
        decreases v@.len() - i,
    {
        if v[i] == *s {
            assert(views(v@)[i as int] == s@);
            return true;
        }
        i = i + 1;
    }
    false
}

/// `rep` before each character of `s` and after the last: what replacing
/// the empty pattern gives.
pub open spec fn interleave(s: Seq<char>, rep: Seq<char>) -> Seq<char>
    decreases s.len(),
{
    if s.len() == 0 {
        rep
    } else {
        interleave(s.drop_last(), rep) + seq![s.last()] + rep
    }
}

/// `s` with every occurrence of `pat` replaced by `rep`, occurrences taken
/// from the left without overlap.
pub open spec fn replace_all(s: Seq<char>, pat: Seq<char>, rep: Seq<char>) -> Seq<char>
    decreases s.len(),
{
    if pat.len() == 0 {
        interleave(s, rep)
    } else if s.len() == 0 {
        Seq::empty()
    } else if pat.len() <= s.len() && s.subrange(0, pat.len() as int) == pat {
        rep + replace_all(s.subrange(pat.len() as int, s.len() as int), pat, rep)
    } else {
        seq![s[0]] + replace_all(s.drop_first(), pat, rep)
    }
}

/// Whether `s` holds `pat` at position `i`.
fn matches_at(s: &str, n: usize, pat: &str, m: usize, i: usize) -> (r: bool)
    requires
        n == s@.len(),
        m == pat@.len(),
        i <= n,
    ensures
        r == (i + m <= n && s@.subrange(i as int, i + m) == pat@),
{
    if m > n - i {
        return false;
    }
    let mut k: usize = 0;
    while k < m
        invariant
            n == s@.len(),
            m == pat@.len(),
            i + m <= n,
            k <= m,
            forall|j: int| 0 <= j < k ==> s@[i + j] == pat@[j],
        decreases m - k,
    {
        if s.get_char(i + k) != pat.get_char(k) {
            assert(s@.subrange(i as int, i + m)[k as int] != pat@[k as int]);
            return false;
        }
        k = k + 1;
    }
    assert(s@.subrange(i as int, i + m) =~= pat@);
    true
}

/// `s` with every occurrence of `pat` replaced by `rep`, as `str::replace`
/// does it.
pub fn replace_str(s: &str, pat: &str, rep: &str) -> (r: String)
    ensures
        r@ == replace_all(s@, pat@, rep@),
{
    let n = s.unicode_len();
    let m = pat.unicode_len();
    let mut r = String::new();
    if m == 0 {
        r.append(rep);
        let mut i: usize = 0;
        while i < n
            invariant
                n == s@.len(),
                i <= n,
                pat@.len() == 0,
                r@ == interleave(s@.subrange(0, i as int), rep@),
            decreases n - i,
        {
            r.append(s.substring_char(i, i + 1));
            r.append(rep);
            assert(s@.subrange(0, i as int + 1).drop_last() =~= s@.subrange(0, i as int));
            assert(s@.subrange(i as int, i as int + 1) =~= seq![s@[i as int]]);
            i = i + 1;
        }
        assert(s@.subrange(0, n as int) =~= s@);
        return r;
    }
    let mut i: usize = 0;
    assert(s@.subrange(0, n as int) =~= s@);
    while i < n
        invariant
            n == s@.len(),
            m == pat@.len(),
            m > 0,
            i <= n,
            r@ + replace_all(s@.subrange(i as int, n as int), pat@, rep@) == replace_all(s@, pat@, rep@),
        decreases n - i,
    {
        let ghost rest = s@.subrange(i as int, n as int);
        let ghost before = r@;
        if matches_at(s, n, pat, m, i) {
            assert(rest.subrange(0, m as int) =~= s@.subrange(i as int, i + m));
            assert(rest.subrange(m as int, rest.len() as int) =~= s@.subrange(i + m, n as int));
            r.append(rep);
            assert(before + (rep@ + replace_all(s@.subrange(i + m, n as int), pat@, rep@))
                =~= r@ + replace_all(s@.subrange(i + m, n as int), pat@, rep@));
            i = i + m;
        } else {
            assert(m <= rest.len() ==> rest.subrange(0, m as int) =~= s@.subrange(i as int, i + m));
            assert(rest.drop_first() =~= s@.subrange(i + 1, n as int));
            r.append(s.substring_char(i, i + 1));
            assert(s@.subrange(i as int, i as int + 1) =~= seq![rest[0]]);
            assert(before + (seq![rest[0]] + replace_all(s@.subrange(i + 1, n as int), pat@, rep@))
                =~= r@ + replace_all(s@.subrange(i + 1, n as int), pat@, rep@));
            i = i + 1;
        }
    }
    assert(r@ + Seq::<char>::empty() =~= r@);
    r
}

/// Whether `s` holds the character `c`.
pub fn contains_char(s: &str, c: char) -> (r: bool)
    ensures
        r == s@.contains(c),
{
    let n = s.unicode_len();
    let mut i: usize = 0;
    while i < n
        invariant
            n == s@.len(),
            i <= n,
            forall|j: int| 0 <= j < i ==> s@[j] != c,
        decreases n - i,
    {
        if s.get_char(i) == c {
            return true;
        }
        i = i + 1;
    }
    false
}

} // verus!
