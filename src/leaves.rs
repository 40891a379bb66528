//! Recursive decomposition of a character into its leaf components, and
//! the leaf components of a vocabulary.
use vstd::prelude::*;
use crate::extract::{components, extract_components_from_ids, is_operator, lemma_plain_components, plain_components};
use crate::ids_map::{key_index, lemma_key_index_range, lookup, Entries, IdsMap};
use crate::text::{concat, contains_str, lemma_concat_append, views};

verus! {

/// `acc` with `x` added at the end unless it is there already.
pub open spec fn add_leaf(acc: Seq<Seq<char>>, x: Seq<char>) -> Seq<Seq<char>> {
    if acc.contains(x) {
        acc
    } else {
        acc.push(x)
    }
}

/// `acc` with each element of `sub` added in turn.
pub open spec fn union(acc: Seq<Seq<char>>, sub: Seq<Seq<char>>) -> Seq<Seq<char>>
    decreases sub.len(),
{
    if sub.len() == 0 {
        acc
    } else {
        add_leaf(union(acc, sub.drop_last()), sub.last())
    }
}

/// The leaves of `c` and the visited characters afterwards, when the
/// characters in `vis` have been visited already. A character visited
/// before has no leaves here; one without a decomposition is its own leaf.
/// `fuel` bounds the depth of nested decompositions.
pub open spec fn leaves_from(c: Seq<char>, m: Entries, vis: Seq<Seq<char>>, fuel: nat) -> (
    Seq<Seq<char>>,
    Seq<Seq<char>>,
)
    decreases fuel, 0nat, 0nat,
{
    if vis.contains(c) {
        (Seq::empty(), vis)
    } else {
        match lookup(m, c) {
            None => (seq![c], vis.push(c)),
            Some(ids) => if fuel == 0 {
                (Seq::empty(), vis.push(c))
            } else {
                leaves_of_list(components(ids), 0, m, vis.push(c), Seq::empty(), (fuel - 1) as nat)
            },
        }
    }
}

/// Goes on from component `i` of `comps`, with leaves `acc` found so far:
/// a component whose own decomposition gives no leaf is a leaf itself.
pub open spec fn leaves_of_list(
    comps: Seq<Seq<char>>,
    i: int,
    m: Entries,
    vis: Seq<Seq<char>>,
    acc: Seq<Seq<char>>,
    fuel: nat,
) -> (Seq<Seq<char>>, Seq<Seq<char>>)
    decreases fuel, 1nat, (if 0 <= i < comps.len() { comps.len() - i } else { 0 }) as nat,
{
    if i < 0 || i >= comps.len() {
        (acc, vis)
    } else {
        let r = leaves_from(comps[i], m, vis, fuel);
        let acc2 = if r.0.len() == 0 {
            add_leaf(acc, comps[i])
        } else {
            union(acc, r.0)
        };
        leaves_of_list(comps, i + 1, m, r.1, acc2, fuel)
    }
}

/// The leaves of `c` with a fresh visited list.
pub open spec fn leaves_of(c: Seq<char>, m: Entries) -> Seq<Seq<char>> {
    leaves_from(c, m, Seq::empty(), m.len() as nat).0
}

fn add_leaf_into(acc: &mut Vec<String>, x: &String)
    ensures
        views(final(acc)@) == add_leaf(views(old(acc)@), x@),
{
    if !contains_str(acc, x) {
        let ghost a = acc@;
        acc.push(x.clone());
        assert(views(acc@) =~= views(a).push(x@));
    }
}

fn union_into(acc: &mut Vec<String>, sub: &Vec<String>)
    ensures
        views(final(acc)@) == union(views(old(acc)@), views(sub@)),
{
    let ghost a0 = views(acc@);
    let mut j: usize = 0;
    while j < sub.len()
        invariant
            j <= sub@.len(),
            views(acc@) == union(a0, views(sub@).subrange(0, j as int)),
        decreases sub@.len() - j,
    {
        add_leaf_into(acc, &sub[j]);
        assert(views(sub@).subrange(0, j as int + 1).drop_last() =~= views(sub@).subrange(0, j as int));
        j = j + 1;
    }
    assert(views(sub@).subrange(0, sub@.len() as int) =~= views(sub@));
}

fn leaves_rec(character: &String, ids_map: &IdsMap, visited: &mut Vec<String>, fuel: usize) -> (r: Vec<String>)
    ensures
        (views(r@), views(final(visited)@)) == leaves_from(character@, ids_map@, views(old(visited)@), fuel as nat),
    decreases fuel,
{
    if contains_str(visited, character) {
        return Vec::new();
    }
    let ghost v0 = visited@;
    visited.push(character.clone());
    assert(views(visited@) =~= views(v0).push(character@));
    match ids_map.get(character) {
        None => {
            let r = vec![character.clone()];
            assert(views(r@) =~= seq![character@]);
            r
        },
        Some(ids) => {
            if fuel == 0 {
                let r: Vec<String> = Vec::new();
                assert(views(r@) =~= Seq::<Seq<char>>::empty());
                return r;
            }
            let comps = extract_components_from_ids(ids.as_str());
            let ghost cs = views(comps@);
            let ghost whole = leaves_of_list(cs, 0, ids_map@, views(visited@), Seq::empty(), (fuel - 1) as nat);
            let mut leaves: Vec<String> = Vec::new();
            assert(views(leaves@) =~= Seq::<Seq<char>>::empty());
            let mut i: usize = 0;
            while i < comps.len()
                invariant
                    i <= comps@.len(),
                    fuel > 0,
                    cs == views(comps@),
                    whole == leaves_of_list(cs, i as int, ids_map@, views(visited@), views(leaves@), (fuel - 1) as nat),
                decreases comps@.len() - i,
            {
                let sub = leaves_rec(&comps[i], ids_map, visited, fuel - 1);
                if sub.len() == 0 {
                    add_leaf_into(&mut leaves, &comps[i]);
                } else {
                    union_into(&mut leaves, &sub);
                }
                i = i + 1;
            }
            leaves
        },
    }
}

/// The leaf components of `character`: decomposes it through `ids_map`
/// until no component has a decomposition. `visited` holds the characters
/// already expanded; it is shared by the whole recursion and grows with
/// each character expanded.
pub fn decompose_to_leaves(character: &str, ids_map: &IdsMap, visited: &mut Vec<String>) -> (r: Vec<String>)
    ensures
        (views(r@), views(final(visited)@)) == leaves_from(
            character@,
            ids_map@,
            views(old(visited)@),
            ids_map@.len() as nat,
        ),
{
    let c = String::from_str(character);
    leaves_rec(&c, ids_map, visited, ids_map.len())
}

/// `acc` with the leaves of each character of `chars` added in turn, each
/// character decomposed with a fresh visited list.
pub open spec fn allowed_from(acc: Seq<Seq<char>>, chars: Seq<char>, m: Entries) -> Seq<Seq<char>>
    decreases chars.len(),
{
    if chars.len() == 0 {
        acc
    } else {
        union(allowed_from(acc, chars.drop_last(), m), leaves_of(seq![chars.last()], m))
    }
}

/// The word lists of a level-to-words table.
pub open spec fn word_lists(levels: Seq<(u8, Vec<String>)>) -> Seq<Seq<Seq<char>>> {
    levels.map_values(|e: (u8, Vec<String>)| views(e.1@))
}

/// The leaf components of every character of every word of every level.
pub open spec fn allowed_components(levels: Seq<(u8, Vec<String>)>, m: Entries) -> Seq<Seq<char>> {
    allowed_from(Seq::empty(), concat(concat(word_lists(levels))), m)
}

proof fn lemma_allowed_append(acc: Seq<Seq<char>>, a: Seq<char>, b: Seq<char>, m: Entries)
    ensures
        allowed_from(acc, a + b, m) == allowed_from(allowed_from(acc, a, m), b, m),
    decreases b.len(),
{
    if b.len() == 0 {
        assert(a + b =~= a);
    } else {
        assert((a + b).drop_last() =~= a + b.drop_last());
        lemma_allowed_append(acc, a, b.drop_last(), m);
    }
}

fn add_word_leaves(acc: &mut Vec<String>, word: &String, ids_map: &IdsMap)
    ensures
        views(final(acc)@) == allowed_from(views(old(acc)@), word@, ids_map@),
{
    let ghost a0 = views(acc@);
    let n = word.as_str().unicode_len();
    let mut k: usize = 0;
    while k < n
        invariant
            n == word@.len(),
            k <= n,
            views(acc@) == allowed_from(a0, word@.subrange(0, k as int), ids_map@),
        decreases n - k,
    {
        let one = word.as_str().substring_char(k, k + 1);
        assert(one@ =~= seq![word@[k as int]]);
        let mut visited: Vec<String> = Vec::new();
        assert(views(visited@) =~= Seq::<Seq<char>>::empty());
        let leaves = decompose_to_leaves(one, ids_map, &mut visited);
        union_into(acc, &leaves);
        assert(word@.subrange(0, k as int + 1).drop_last() =~= word@.subrange(0, k as int));
        k = k + 1;
    }
    assert(word@.subrange(0, n as int) =~= word@);
}

fn add_words_leaves(acc: &mut Vec<String>, words: &Vec<String>, ids_map: &IdsMap)
    ensures
        views(final(acc)@) == allowed_from(views(old(acc)@), concat(views(words@)), ids_map@),
{
    let ghost a0 = views(acc@);
    let mut w: usize = 0;
    while w < words.len()
        invariant
            w <= words@.len(),
            views(acc@) == allowed_from(a0, concat(views(words@).subrange(0, w as int)), ids_map@),
        decreases words@.len() - w,
    {
        let ghost before = concat(views(words@).subrange(0, w as int));
        add_word_leaves(acc, &words[w], ids_map);
        proof {
            assert(views(words@).subrange(0, w as int + 1).drop_last() =~= views(words@).subrange(0, w as int));
            lemma_allowed_append(a0, before, words@[w as int]@, ids_map@);
        }
        w = w + 1;
    }
    assert(views(words@).subrange(0, words@.len() as int) =~= views(words@));
}

/// The leaf components of every character of every word of every level,
/// each character decomposed with a fresh visited list; each component
/// appears once.
pub fn extract_allowed_components(hsk_words: &Vec<(u8, Vec<String>)>, ids_map: &IdsMap) -> (r: Vec<String>)
    ensures
        views(r@) == allowed_components(hsk_words@, ids_map@),
        views(r@).no_duplicates(),
{
    let ghost ws = word_lists(hsk_words@);
    let mut acc: Vec<String> = Vec::new();
    assert(views(acc@) =~= Seq::<Seq<char>>::empty());
    let mut l: usize = 0;
    while l < hsk_words.len()
        invariant
            l <= hsk_words@.len(),
            ws == word_lists(hsk_words@),
            views(acc@) == allowed_from(Seq::empty(), concat(concat(ws.subrange(0, l as int))), ids_map@),
        decreases hsk_words@.len() - l,
    {
        let ghost before = concat(concat(ws.subrange(0, l as int)));
        add_words_leaves(&mut acc, &hsk_words[l].1, ids_map);
        proof {
            assert(ws.subrange(0, l as int + 1).drop_last() =~= ws.subrange(0, l as int));
            assert(ws[l as int] == views(hsk_words@[l as int].1@));
            assert(concat(ws.subrange(0, l as int + 1)) == concat(ws.subrange(0, l as int)) + ws[l as int]);
            lemma_concat_append(concat(ws.subrange(0, l as int)), ws[l as int]);
            lemma_allowed_append(Seq::empty(), before, concat(ws[l as int]), ids_map@);
        }
        l = l + 1;
    }
    assert(ws.subrange(0, hsk_words@.len() as int) =~= ws);
    proof {
        lemma_allowed_distinct(Seq::empty(), concat(concat(ws)), ids_map@);
    }
    acc
}

proof fn lemma_allowed_distinct(acc: Seq<Seq<char>>, chars: Seq<char>, m: Entries)
    requires
        acc.no_duplicates(),
    ensures
        allowed_from(acc, chars, m).no_duplicates(),
    decreases chars.len(),
{
    if chars.len() > 0 {
        lemma_allowed_distinct(acc, chars.drop_last(), m);
        lemma_union(allowed_from(acc, chars.drop_last(), m), leaves_of(seq![chars.last()], m));
    }
}

proof fn lemma_add_leaf(acc: Seq<Seq<char>>, x: Seq<char>)
    ensures
        forall|y: Seq<char>| add_leaf(acc, x).contains(y) <==> (acc.contains(y) || y == x),
        acc.no_duplicates() ==> add_leaf(acc, x).no_duplicates(),
{
    if !acc.contains(x) {
        assert forall|y: Seq<char>| acc.push(x).contains(y) <==> (acc.contains(y) || y == x) by {
            if y == x {
                assert(acc.push(x)[acc.len() as int] == x);
            }
            if acc.contains(y) {
                let k = choose|k: int| 0 <= k < acc.len() && acc[k] == y;
                assert(acc.push(x)[k] == y);
            }
        }
    }
}

proof fn lemma_union(acc: Seq<Seq<char>>, sub: Seq<Seq<char>>)
    ensures
        forall|y: Seq<char>| union(acc, sub).contains(y) <==> (acc.contains(y) || sub.contains(y)),
        acc.no_duplicates() ==> union(acc, sub).no_duplicates(),
    decreases sub.len(),
{
    if sub.len() > 0 {
        let s0 = sub.drop_last();
        lemma_union(acc, s0);
        lemma_add_leaf(union(acc, s0), sub.last());
        assert forall|y: Seq<char>| sub.contains(y) <==> (s0.contains(y) || y == sub.last()) by {
            if sub.contains(y) {
                let k = choose|k: int| 0 <= k < sub.len() && sub[k] == y;
                if k < sub.len() - 1 {
                    assert(s0[k] == y);
                }
            }
            if s0.contains(y) {
                let k = choose|k: int| 0 <= k < s0.len() && s0[k] == y;
                assert(sub[k] == y);
            }
        }
    }
}

proof fn lemma_leaves_from(c: Seq<char>, m: Entries, vis: Seq<Seq<char>>, fuel: nat)
    ensures
        leaves_from(c, m, vis, fuel).0.no_duplicates(),
        forall|y: Seq<char>| #[trigger] leaves_from(c, m, vis, fuel).0.contains(y) ==> leaves_from(c, m, vis, fuel).1.contains(y),
        forall|y: Seq<char>| vis.contains(y) ==> #[trigger] leaves_from(c, m, vis, fuel).1.contains(y),
        leaves_from(c, m, vis, fuel).1.contains(c),
    decreases fuel, 0nat, 0nat,
{
    if !vis.contains(c) {
        let v1 = vis.push(c);
        assert(v1[vis.len() as int] == c);
        assert forall|y: Seq<char>| vis.contains(y) implies v1.contains(y) by {
            let k = choose|k: int| 0 <= k < vis.len() && vis[k] == y;
            assert(v1[k] == y);
        }
        match lookup(m, c) {
            None => {
                assert(seq![c].no_duplicates());
                assert forall|y: Seq<char>| seq![c].contains(y) implies y == c by {}
            },
            Some(ids) => if fuel > 0 {
                lemma_leaves_of_list(components(ids), 0, m, v1, Seq::empty(), (fuel - 1) as nat);
            } else {
            },
        }
    }
}

proof fn lemma_leaves_of_list(
    comps: Seq<Seq<char>>,
    i: int,
    m: Entries,
    vis: Seq<Seq<char>>,
    acc: Seq<Seq<char>>,
    fuel: nat,
)
    requires
        acc.no_duplicates(),
        forall|y: Seq<char>| acc.contains(y) ==> vis.contains(y),
    ensures
        leaves_of_list(comps, i, m, vis, acc, fuel).0.no_duplicates(),
        forall|y: Seq<char>| #[trigger] leaves_of_list(comps, i, m, vis, acc, fuel).0.contains(y) ==> leaves_of_list(comps, i, m, vis, acc, fuel).1.contains(y),
        forall|y: Seq<char>| vis.contains(y) ==> #[trigger] leaves_of_list(comps, i, m, vis, acc, fuel).1.contains(y),
    decreases fuel, 1nat, (if 0 <= i < comps.len() { comps.len() - i } else { 0 }) as nat,
{
    if 0 <= i < comps.len() {
        let r = leaves_from(comps[i], m, vis, fuel);
        lemma_leaves_from(comps[i], m, vis, fuel);
        lemma_add_leaf(acc, comps[i]);
        lemma_union(acc, r.0);
        let acc2 = if r.0.len() == 0 {
            add_leaf(acc, comps[i])
        } else {
            union(acc, r.0)
        };
        assert forall|y: Seq<char>| acc2.contains(y) implies r.1.contains(y) by {}
        lemma_leaves_of_list(comps, i + 1, m, r.1, acc2, fuel);
    }
}

/// The number of entries of `m` whose character is not in `vis`.
pub open spec fn pending(m: Entries, vis: Seq<Seq<char>>) -> nat
    decreases m.len(),
{
    if m.len() == 0 {
        0
    } else {
        pending(m.drop_last(), vis) + if vis.contains(m.last().0) {
            0nat
        } else {
            1nat
        }
    }
}

proof fn lemma_pending_bounds(m: Entries, v1: Seq<Seq<char>>, v2: Seq<Seq<char>>)
    requires
        forall|y: Seq<char>| v1.contains(y) ==> v2.contains(y),
    ensures
        pending(m, v2) <= pending(m, v1),
        pending(m, v1) <= m.len(),
    decreases m.len(),
{
    if m.len() > 0 {
        lemma_pending_bounds(m.drop_last(), v1, v2);
    }
}

proof fn lemma_pending_visit(m: Entries, vis: Seq<Seq<char>>, c: Seq<char>)
    requires
        key_index(m, c) >= 0,
        !vis.contains(c),
    ensures
        pending(m, vis.push(c)) < pending(m, vis),
    decreases m.len(),
{
    let v2 = vis.push(c);
    assert(v2[vis.len() as int] == c);
    assert forall|y: Seq<char>| vis.contains(y) implies v2.contains(y) by {
        let k = choose|k: int| 0 <= k < vis.len() && vis[k] == y;
        assert(v2[k] == y);
    }
    lemma_pending_bounds(m.drop_last(), vis, v2);
    if m.last().0 != c {
        lemma_pending_visit(m.drop_last(), vis, c);
    }
}

proof fn lemma_fuel_from(c: Seq<char>, m: Entries, vis: Seq<Seq<char>>, f1: nat, f2: nat)
    requires
        f1 >= pending(m, vis),
        f2 >= pending(m, vis),
    ensures
        leaves_from(c, m, vis, f1) == leaves_from(c, m, vis, f2),
    decreases f1, 0nat, 0nat,
{
    if !vis.contains(c) {
        lemma_key_index_range(m, c);
        if let Some(ids) = lookup(m, c) {
            lemma_pending_visit(m, vis, c);
            lemma_fuel_list(components(ids), 0, m, vis.push(c), Seq::empty(), (f1 - 1) as nat, (f2 - 1) as nat);
        }
    }
}

proof fn lemma_fuel_list(
    comps: Seq<Seq<char>>,
    i: int,
    m: Entries,
    vis: Seq<Seq<char>>,
    acc: Seq<Seq<char>>,
    f1: nat,
    f2: nat,
)
    requires
        f1 >= pending(m, vis),
        f2 >= pending(m, vis),
    ensures
        leaves_of_list(comps, i, m, vis, acc, f1) == leaves_of_list(comps, i, m, vis, acc, f2),
    decreases f1, 1nat, (if 0 <= i < comps.len() { comps.len() - i } else { 0 }) as nat,
{
    if 0 <= i < comps.len() {
        lemma_fuel_from(comps[i], m, vis, f1, f2);
        let r = leaves_from(comps[i], m, vis, f1);
        lemma_leaves_from(comps[i], m, vis, f1);
        lemma_pending_bounds(m, vis, r.1);
        let acc2 = if r.0.len() == 0 {
            add_leaf(acc, comps[i])
        } else {
            union(acc, r.0)
        };
        lemma_fuel_list(comps, i + 1, m, r.1, acc2, f1, f2);
    }
}

/// The bound on nested decompositions is never reached: any larger bound
/// gives the same leaves and the same visited list.
pub proof fn lemma_depth_bound_unreached(c: Seq<char>, m: Entries, vis: Seq<Seq<char>>, f: nat)
    requires
        f >= m.len(),
    ensures
        leaves_from(c, m, vis, f) == leaves_from(c, m, vis, m.len() as nat),
{
    lemma_pending_bounds(m, vis, vis);
    lemma_fuel_from(c, m, vis, f, m.len() as nat);
}

/// Decomposition terminates with distinct leaves, each of them a character
/// visited on the way, and every character visited before stays visited.
pub proof fn lemma_leaves_are_visited(c: Seq<char>, m: Entries, vis: Seq<Seq<char>>)
    ensures
        leaves_from(c, m, vis, m.len() as nat).0.no_duplicates(),
        forall|k: int| 0 <= k < leaves_from(c, m, vis, m.len() as nat).0.len()
            ==> leaves_from(c, m, vis, m.len() as nat).1.contains(#[trigger] leaves_from(c, m, vis, m.len() as nat).0[k]),
        forall|y: Seq<char>| vis.contains(y) ==> #[trigger] leaves_from(c, m, vis, m.len() as nat).1.contains(y),
{
    lemma_leaves_from(c, m, vis, m.len() as nat);
    let r = leaves_from(c, m, vis, m.len() as nat);
    assert forall|k: int| 0 <= k < r.0.len() implies r.1.contains(#[trigger] r.0[k]) by {
        assert(r.0.contains(r.0[k]));
    }
}

proof fn lemma_single_component(b: char)
    requires
        b != '&',
        !is_operator(b),
    ensures
        components(seq![b]) == seq![seq![b]],
{
    lemma_plain_components(seq![b]);
    assert(seq![b].drop_last() =~= Seq::<char>::empty());
    assert(plain_components(Seq::<char>::empty()).push(seq![b]) =~= seq![seq![b]]);
}

/// Two characters that decompose into each other: decomposing the first
/// stops after visiting both, with the first as its one leaf.
pub proof fn lemma_two_cycle(a: char, b: char)
    requires
        a != b,
        a != '&',
        b != '&',
        !is_operator(a),
        !is_operator(b),
    ensures
        leaves_from(seq![a], seq![(seq![a], seq![b]), (seq![b], seq![a])], Seq::empty(), 2)
            == (seq![seq![a]], seq![seq![a], seq![b]]),
{
    let m = seq![(seq![a], seq![b]), (seq![b], seq![a])];
    let sa = seq![a];
    let sb = seq![b];
    assert(sa != sb) by {
        assert(sa[0] != sb[0]);
    }
    assert(m.drop_last() =~= seq![(sa, sb)]);
    assert(seq![(sa, sb)].drop_last() =~= Seq::<(Seq<char>, Seq<char>)>::empty());
    assert(m.last() == (sb, sa));
    assert(seq![(sa, sb)].last() == (sa, sb));
    assert(key_index(seq![(sa, sb)], sa) == 0);
    assert(key_index(m, sa) == key_index(m.drop_last(), sa));
    assert(key_index(m, sa) == 0);
    assert(key_index(m, sb) == 1);
    assert(lookup(m, sa) == Some(sb));
    assert(lookup(m, sb) == Some(sa));
    lemma_single_component(a);
    lemma_single_component(b);
    let e = Seq::<Seq<char>>::empty();
    let v1 = e.push(sa);
    let v2 = v1.push(sb);
    assert(!e.contains(sa));
    assert(!v1.contains(sb)) by {
        if v1.contains(sb) {
            assert(v1[0] == sa);
        }
    }
    assert(v2[0] == sa);
    assert(v2.contains(sa));
    let inner = leaves_from(sa, m, v2, 0);
    assert(inner == (e, v2));
    assert(add_leaf(e, sa) =~= seq![sa]);
    assert(leaves_of_list(seq![sa], 1, m, v2, seq![sa], 0) == (seq![sa], v2));
    assert(leaves_of_list(seq![sa], 0, m, v2, e, 0) == (seq![sa], v2));
    assert(leaves_from(sb, m, v1, 1) == (seq![sa], v2));
    assert(seq![sa].drop_last() =~= e);
    assert(union(e, e) == e);
    assert(union(e, seq![sa]) =~= seq![sa]);
    assert(leaves_of_list(seq![sb], 1, m, v2, seq![sa], 1) == (seq![sa], v2));
    assert(leaves_of_list(seq![sb], 0, m, v1, e, 1) == (seq![sa], v2));
    assert(v2 =~= seq![sa, sb]);
}

/// A character with no decomposition is its own and only leaf.
pub proof fn lemma_undecomposed_is_own_leaf(c: Seq<char>, m: Entries)
    requires
        lookup(m, c) is None,
    ensures
        leaves_of(c, m) == seq![c],
{
}

} // verus!
