//! Decomposition records per character, and the reverse index from
//! component keys to the characters they make up.
use vstd::prelude::*;
use crate::extract::{components, extract_components_from_ids};
use crate::ids_map::{key_index, lemma_key_index_keys, lemma_key_index_prefix, lemma_key_index_range, Entries, IdsMap};
use crate::leaves::{allowed_components, decompose_to_leaves, extract_allowed_components, leaves_of};
use crate::text::{component_key, key_of, views};

verus! {

/// A character, its decomposition string and its direct components.
pub struct CharacterDecomposition {
    pub character: String,
    pub ids: String,
    pub components: Vec<String>,
}

/// The characters filed under one component key.
pub struct ComponentsToCharacters {
    /// The sorted components, concatenated.
    pub components_key: String,
    /// The characters filed under the key, in the order they were added.
    pub characters: Vec<String>,
}

/// Everything built from a decomposition mapping and a vocabulary.
pub struct GameData {
    pub char_to_decomposition: Vec<CharacterDecomposition>,
    pub components_to_chars: Vec<ComponentsToCharacters>,
    pub allowed_components: Vec<String>,
    pub hsk_words: Vec<(u8, Vec<String>)>,
}

/// A reverse index as (key, characters) entries.
pub type Index = Seq<(Seq<char>, Seq<Seq<char>>)>;

/// The (character, direct components) pairs of a list of records.
pub open spec fn records(v: Seq<CharacterDecomposition>) -> Seq<(Seq<char>, Seq<Seq<char>>)> {
    v.map_values(|d: CharacterDecomposition| (d.character@, views(d.components@)))
}

pub open spec fn index_view(v: Seq<ComponentsToCharacters>) -> Index {
    v.map_values(|e: ComponentsToCharacters| (e.components_key@, views(e.characters@)))
}

/// The characters filed under `k`.
pub open spec fn index_get(idx: Index, k: Seq<char>) -> Seq<Seq<char>> {
    if key_index(idx, k) >= 0 {
        idx[key_index(idx, k)].1
    } else {
        Seq::empty()
    }
}

/// `idx` with `c` appended to the characters under `k`; a new key goes at
/// the end.
pub open spec fn index_add<K>(idx: Seq<(K, Seq<Seq<char>>)>, k: K, c: Seq<char>) -> Seq<(K, Seq<Seq<char>>)> {
    if key_index(idx, k) >= 0 {
        idx.update(key_index(idx, k), (k, idx[key_index(idx, k)].1.push(c)))
    } else {
        idx.push((k, seq![c]))
    }
}

/// Files character `d.0` under the key of its direct components `d.1`, and
/// under the key of its leaves where they are some and their key differs.
pub open spec fn index_step(idx: Index, d: (Seq<char>, Seq<Seq<char>>), m: Entries) -> Index {
    let direct = key_of(d.1);
    let once = index_add(idx, direct, d.0);
    let leaves = leaves_of(d.0, m);
    if leaves.len() > 0 && key_of(leaves) != direct {
        index_add(once, key_of(leaves), d.0)
    } else {
        once
    }
}

/// The reverse index of records `decs`, taken in order.
pub open spec fn reverse_index(decs: Seq<(Seq<char>, Seq<Seq<char>>)>, m: Entries) -> Index
    decreases decs.len(),
{
    if decs.len() == 0 {
        Seq::empty()
    } else {
        index_step(reverse_index(decs.drop_last(), m), decs.last(), m)
    }
}

proof fn lemma_index_add_get(idx: Index, k: Seq<char>, c: Seq<char>, k2: Seq<char>)
    ensures
        index_get(index_add(idx, k, c), k2) == if k2 == k {
            index_get(idx, k).push(c)
        } else {
            index_get(idx, k2)
        },
{
    lemma_key_index_range(idx, k);
    lemma_key_index_range(idx, k2);
    let idx2 = index_add(idx, k, c);
    if key_index(idx, k) >= 0 {
        lemma_key_index_keys(idx2, idx, k2);
    } else {
        assert(idx2.drop_last() =~= idx);
        if k2 == k {
            assert(Seq::<Seq<char>>::empty().push(c) =~= seq![c]);
        }
    }
}

/// The key of a character's direct components, and the key of its leaves
/// where they are some and give another key, each get the character once
/// more; every other key keeps its characters.
pub proof fn lemma_dual_key(idx: Index, d: (Seq<char>, Seq<Seq<char>>), m: Entries)
    ensures
        ({
            let direct = key_of(d.1);
            let leaves = leaves_of(d.0, m);
            let after = index_step(idx, d, m);
            &&& index_get(after, direct) == index_get(idx, direct).push(d.0)
            &&& leaves.len() > 0 && key_of(leaves) != direct ==> index_get(after, key_of(leaves))
                == index_get(idx, key_of(leaves)).push(d.0)
            &&& forall|k: Seq<char>|
                k != direct && (leaves.len() == 0 || k != key_of(leaves)) ==> #[trigger] index_get(after, k)
                    == index_get(idx, k)
        }),
{
    let direct = key_of(d.1);
    let leaves = leaves_of(d.0, m);
    let once = index_add(idx, direct, d.0);
    lemma_index_add_get(idx, direct, d.0, direct);
    assert forall|k: Seq<char>| k != direct implies #[trigger] index_get(once, k) == index_get(idx, k) by {
        lemma_index_add_get(idx, direct, d.0, k);
    }
    if leaves.len() > 0 && key_of(leaves) != direct {
        lemma_index_add_get(once, key_of(leaves), d.0, direct);
        lemma_index_add_get(once, key_of(leaves), d.0, key_of(leaves));
        lemma_index_add_get(idx, direct, d.0, key_of(leaves));
        assert forall|k: Seq<char>| k != direct && k != key_of(leaves) implies #[trigger] index_get(
            index_add(once, key_of(leaves), d.0),
            k,
        ) == index_get(idx, k) by {
            lemma_index_add_get(once, key_of(leaves), d.0, k);
            lemma_index_add_get(idx, direct, d.0, k);
        }
    }
}

proof fn lemma_step_keeps(idx: Index, d: (Seq<char>, Seq<Seq<char>>), m: Entries, k: Seq<char>, x: Seq<char>)
    requires
        index_get(idx, k).contains(x),
    ensures
        index_get(index_step(idx, d, m), k).contains(x),
{
    lemma_dual_key(idx, d, m);
    let j = choose|j: int| 0 <= j < index_get(idx, k).len() && index_get(idx, k)[j] == x;
    let after = index_get(index_step(idx, d, m), k);
    if after != index_get(idx, k) {
        assert(after[j] == x);
    }
}

/// Every character is filed under the key of its direct components.
pub proof fn lemma_direct_key_found(decs: Seq<(Seq<char>, Seq<Seq<char>>)>, m: Entries, i: int)
    requires
        0 <= i < decs.len(),
    ensures
        index_get(reverse_index(decs, m), key_of(decs[i].1)).contains(decs[i].0),
    decreases decs.len(),
{
    let prev = reverse_index(decs.drop_last(), m);
    let k = key_of(decs[i].1);
    if i == decs.len() - 1 {
        lemma_dual_key(prev, decs.last(), m);
        let got = index_get(prev, k).push(decs[i].0);
        assert(got[got.len() - 1] == decs[i].0);
    } else {
        lemma_direct_key_found(decs.drop_last(), m, i);
        assert(decs.drop_last()[i] == decs[i]);
        lemma_step_keeps(prev, decs.last(), m, k, decs[i].0);
    }
}

/// No two records are for the same character.
pub open spec fn distinct_characters(decs: Seq<(Seq<char>, Seq<Seq<char>>)>) -> bool {
    forall|i: int, j: int| 0 <= i < j < decs.len() ==> decs[i].0 != decs[j].0
}

/// Where the records are for distinct characters, each key lists a
/// character at most once, and only characters of the records.
pub proof fn lemma_filed_once(decs: Seq<(Seq<char>, Seq<Seq<char>>)>, m: Entries)
    requires
        distinct_characters(decs),
    ensures
        forall|k: Seq<char>| #[trigger] index_get(reverse_index(decs, m), k).no_duplicates(),
        forall|k: Seq<char>, x: Seq<char>|
            #[trigger] index_get(reverse_index(decs, m), k).contains(x) ==> exists|i: int|
                0 <= i < decs.len() && decs[i].0 == x,
    decreases decs.len(),
{
    if decs.len() > 0 {
        let pd = decs.drop_last();
        lemma_filed_once(pd, m);
        let prev = reverse_index(pd, m);
        let d = decs.last();
        lemma_dual_key(prev, d, m);
        let after = reverse_index(decs, m);
        assert forall|k: Seq<char>|
            #[trigger] index_get(after, k).no_duplicates() && (forall|x: Seq<char>|
                index_get(after, k).contains(x) ==> exists|i: int| 0 <= i < decs.len() && decs[i].0 == x) by {
            let old_list = index_get(prev, k);
            let new_list = index_get(after, k);
            assert(!old_list.contains(d.0)) by {
                if old_list.contains(d.0) {
                    let i = choose|i: int| 0 <= i < pd.len() && pd[i].0 == d.0;
                    assert(decs[i].0 == d.0);
                }
            }
            assert forall|x: Seq<char>| old_list.contains(x) implies exists|i: int|
                0 <= i < decs.len() && decs[i].0 == x by {
                let i = choose|i: int| 0 <= i < pd.len() && pd[i].0 == x;
                assert(decs[i].0 == x);
            }
            assert(new_list == old_list || new_list == old_list.push(d.0));
            if new_list != old_list {
                assert(new_list == old_list.push(d.0));
                assert forall|x: Seq<char>| new_list.contains(x) implies exists|i: int|
                    0 <= i < decs.len() && decs[i].0 == x by {
                    let j = choose|j: int| 0 <= j < new_list.len() && new_list[j] == x;
                    if j < old_list.len() {
                        assert(old_list[j] == x);
                        assert(old_list.contains(x));
                    } else {
                        assert(new_list[j] == d.0);
                        assert(decs[decs.len() - 1].0 == x);
                    }
                }
                assert forall|a: int, b: int| 0 <= a < new_list.len() && 0 <= b < new_list.len() && a != b
                    implies new_list[a] != new_list[b] by {
                    assert(old_list.no_duplicates());
                    if a == old_list.len() as int {
                        assert(old_list[b] == new_list[b]);
                        assert(old_list.contains(old_list[b]));
                    } else if b == old_list.len() as int {
                        assert(old_list[a] == new_list[a]);
                        assert(old_list.contains(old_list[a]));
                    } else {
                        assert(old_list[a] == new_list[a] && old_list[b] == new_list[b]);
                    }
                }
            }
        }
        assert forall|k: Seq<char>, x: Seq<char>| #[trigger] index_get(after, k).contains(x) implies exists|i: int|
            0 <= i < decs.len() && decs[i].0 == x by {
            assert(index_get(after, k).no_duplicates());
        }
    }
}

/// The decomposition record of each entry of `ids_map`, in its order.
pub fn build_char_decompositions(ids_map: &IdsMap) -> (r: Vec<CharacterDecomposition>)
    ensures
        r@.len() == ids_map@.len(),
        forall|i: int| #![trigger r@[i]] 0 <= i < r@.len() ==> r@[i].character@ == ids_map@[i].0
            && r@[i].ids@ == ids_map@[i].1 && views(r@[i].components@) == components(ids_map@[i].1),
        distinct_characters(records(r@)),
{
    let mut r: Vec<CharacterDecomposition> = Vec::new();
    let mut i: usize = 0;
    while i < ids_map.len()
        invariant
            i <= ids_map@.len(),
            r@.len() == i,
            forall|j: int| #![trigger r@[j]] 0 <= j < i ==> r@[j].character@ == ids_map@[j].0
                && r@[j].ids@ == ids_map@[j].1 && views(r@[j].components@) == components(ids_map@[j].1),
        decreases ids_map@.len() - i,
    {
        let (c, ids) = ids_map.entry(i);
        let comps = extract_components_from_ids(ids.as_str());
        r.push(CharacterDecomposition { character: c.clone(), ids: ids.clone(), components: comps });
        i = i + 1;
    }
    assert forall|a: int, b: int| 0 <= a < b < r@.len() implies records(r@)[a].0 != records(r@)[b].0 by {
        assert(r@[a].character@ == ids_map@[a].0);
        assert(r@[b].character@ == ids_map@[b].0);
    }
    r
}

fn find_key(idx: &Vec<ComponentsToCharacters>, key: &String) -> (r: Option<usize>)
    ensures
        match r {
            Some(i) => key_index(index_view(idx@), key@) == i as int && i < idx@.len(),
            None => key_index(index_view(idx@), key@) == -1,
        },
{
    let ghost m = index_view(idx@);
    proof {
        lemma_key_index_range(m, key@);
    }
    let mut i: usize = idx.len();
    while i > 0
        invariant
            i <= idx@.len(),
            m == index_view(idx@),
            forall|j: int| i <= j < m.len() ==> m[j].0 != key@,
        decreases i,
    {
        if idx[i - 1].components_key == *key {
            proof {
                lemma_key_index_prefix(m, key@, i as int);
                assert(m.subrange(0, i as int).last().0 == key@);
            }
            return Some(i - 1);
        }
        i = i - 1;
    }
    proof {
        lemma_key_index_prefix(m, key@, 0);
    }
    None
}

fn index_add_into(idx: &mut Vec<ComponentsToCharacters>, key: String, c: &String)
    ensures
        index_view(final(idx)@) == index_add(index_view(old(idx)@), key@, c@),
{
    let ghost m = index_view(idx@);
    match find_key(idx, &key) {
        Some(i) => {
            proof {
                lemma_key_index_range(m, key@);
            }
            let ghost before = idx@;
            let mut e = idx.remove(i);
            assert(e == before[i as int]);
            let ghost old_chars = e.characters@;
            e.characters.push(c.clone());
            assert(views(e.characters@) =~= views(old_chars).push(c@));
            let ghost e2 = e;
            idx.insert(i, e);
            assert(idx@ =~= before.update(i as int, e2));
            assert(index_view(idx@) =~= index_add(m, key@, c@));
        },
        None => {
            let chars = vec![c.clone()];
            assert(views(chars@) =~= seq![c@]);
            idx.push(ComponentsToCharacters { components_key: key, characters: chars });
            assert(index_view(idx@) =~= index_add(m, key@, c@));
        },
    }
}

/// The reverse index: each character under the key of its direct
/// components, and also under the key of its leaf components where these
/// are some and give another key. Keys are unique; the characters under a
/// key keep the order in which they were added.
pub fn build_components_to_chars(decompositions: &Vec<CharacterDecomposition>, ids_map: &IdsMap) -> (r: Vec<
    ComponentsToCharacters,
>)
    ensures
        index_view(r@) == reverse_index(records(decompositions@), ids_map@),
        distinct_characters(records(decompositions@)) ==> forall|k: Seq<char>|
            #[trigger] index_get(index_view(r@), k).no_duplicates(),
{
    let ghost ds = records(decompositions@);
    let mut idx: Vec<ComponentsToCharacters> = Vec::new();
    assert(index_view(idx@) =~= Seq::<(Seq<char>, Seq<Seq<char>>)>::empty());
    let mut i: usize = 0;
    while i < decompositions.len()
        invariant
            i <= decompositions@.len(),
            ds == records(decompositions@),
            index_view(idx@) == reverse_index(ds.subrange(0, i as int), ids_map@),
        decreases decompositions@.len() - i,
    {
        let d = &decompositions[i];
        let direct = component_key(&d.components);
        let direct_copy = direct.clone();
        index_add_into(&mut idx, direct, &d.character);
        let mut visited: Vec<String> = Vec::new();
        assert(views(visited@) =~= Seq::<Seq<char>>::empty());
        let leaves = decompose_to_leaves(d.character.as_str(), ids_map, &mut visited);
        if leaves.len() > 0 {
            let leaf_key = component_key(&leaves);
            if !(leaf_key == direct_copy) {
                index_add_into(&mut idx, leaf_key, &d.character);
            }
        }
        assert(ds.subrange(0, i as int + 1).drop_last() =~= ds.subrange(0, i as int));
        i = i + 1;
    }
    assert(ds.subrange(0, decompositions@.len() as int) =~= ds);
    proof {
        if distinct_characters(ds) {
            lemma_filed_once(ds, ids_map@);
        }
    }
    idx
}

/// Builds the decomposition records, the reverse index and the allowed
/// components, and passes the vocabulary through.
pub fn build_game_data(hsk_words: Vec<(u8, Vec<String>)>, ids_map: IdsMap) -> (r: GameData)
    ensures
        r.char_to_decomposition@.len() == ids_map@.len(),
        forall|i: int| #![trigger r.char_to_decomposition@[i]] 0 <= i < ids_map@.len() ==> {
            let d = r.char_to_decomposition@[i];
            d.character@ == ids_map@[i].0 && d.ids@ == ids_map@[i].1 && views(d.components@) == components(ids_map@[i].1)
        },
        index_view(r.components_to_chars@) == reverse_index(records(r.char_to_decomposition@), ids_map@),
        views(r.allowed_components@) == allowed_components(hsk_words@, ids_map@),
        r.hsk_words == hsk_words,
        forall|k: Seq<char>| #[trigger] index_get(index_view(r.components_to_chars@), k).no_duplicates(),
{

    let char_to_decomposition = build_char_decompositions(&ids_map);
    let components_to_chars = build_components_to_chars(&char_to_decomposition, &ids_map);
    let allowed_components = extract_allowed_components(&hsk_words, &ids_map);
    GameData { char_to_decomposition, components_to_chars, allowed_components, hsk_words }
}

} // verus!
