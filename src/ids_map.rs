//! The decomposition mapping, from a character to its decomposition string,
//! and the reading of decomposition-source lines into it.
use vstd::prelude::*;
use crate::text::views;

verus! {

/// The entries of a decomposition mapping, as (character, decomposition).
pub type Entries = Seq<(Seq<char>, Seq<char>)>;

/// The position of the entry for `k` in `m`, or -1 where there is none.
pub open spec fn key_index<K, V>(m: Seq<(K, V)>, k: K) -> int
    decreases m.len(),
{
    if m.len() == 0 {
        -1
    } else if m.last().0 == k {
        m.len() - 1
    } else {
        key_index(m.drop_last(), k)
    }
}

/// The decomposition string recorded for `k`.
pub open spec fn lookup(m: Entries, k: Seq<char>) -> Option<Seq<char>> {
    if key_index(m, k) >= 0 {
        Some(m[key_index(m, k)].1)
    } else {
        None
    }
}

/// `m` with `k` mapped to `v`: an entry for `k` is replaced where it stands,
/// else one is added at the end.
pub open spec fn put<V>(m: Seq<(Seq<char>, V)>, k: Seq<char>, v: V) -> Seq<(Seq<char>, V)> {
    if key_index(m, k) >= 0 {
        m.update(key_index(m, k), (k, v))
    } else {
        m.push((k, v))
    }
}

/// No two entries have the same character.
pub open spec fn keys_distinct(m: Entries) -> bool {
    forall|i: int, j: int| 0 <= i < j < m.len() ==> m[i].0 != m[j].0
}

pub(crate) proof fn lemma_key_index_range<K, V>(m: Seq<(K, V)>, k: K)
    ensures
        -1 <= key_index(m, k) < m.len(),
        key_index(m, k) >= 0 ==> m[key_index(m, k)].0 == k,
        key_index(m, k) < 0 ==> forall|j: int| 0 <= j < m.len() ==> m[j].0 != k,
    decreases m.len(),
{
    if m.len() > 0 {
        lemma_key_index_range(m.drop_last(), k);
        if m.last().0 != k {
            assert forall|j: int| 0 <= j < m.len() - 1 implies m[j] == m.drop_last()[j] by {}
        }
    }
}

pub(crate) proof fn lemma_key_index_prefix<K, V>(m: Seq<(K, V)>, k: K, i: int)
    requires
        0 <= i <= m.len(),
        forall|j: int| i <= j < m.len() ==> m[j].0 != k,
    ensures
        key_index(m, k) == key_index(m.subrange(0, i), k),
    decreases m.len() - i,
{
    if i < m.len() {
        lemma_key_index_prefix(m.drop_last(), k, i);
        assert(m.drop_last().subrange(0, i) =~= m.subrange(0, i));
    } else {
        assert(m.subrange(0, i) =~= m);
    }
}

/// `key_index` reads the keys alone.
pub(crate) proof fn lemma_key_index_keys<K, V>(m1: Seq<(K, V)>, m2: Seq<(K, V)>, k: K)
    requires
        m1.len() == m2.len(),
        forall|j: int| 0 <= j < m1.len() ==> m1[j].0 == m2[j].0,
    ensures
        key_index(m1, k) == key_index(m2, k),
    decreases m1.len(),
{
    if m1.len() > 0 {
        lemma_key_index_keys(m1.drop_last(), m2.drop_last(), k);
    }
}

/// `m` with each entry of `more` put in turn.
pub open spec fn put_all(m: Entries, more: Entries) -> Entries
    decreases more.len(),
{
    if more.len() == 0 {
        m
    } else {
        let last = more.last();
        put(put_all(m, more.drop_last()), last.0, last.1)
    }
}

/// The first position at or after `i` where `l` holds `c`, or the length
/// of `l` where there is none.
pub open spec fn find_from(l: Seq<char>, c: char, i: int) -> int
    decreases l.len() - i,
{
    if i < 0 || i >= l.len() {
        l.len() as int
    } else if l[i] == c {
        i
    } else {
        find_from(l, c, i + 1)
    }
}

/// Characters with the Unicode White_Space property.
pub open spec fn is_white_space(c: char) -> bool {
    let u = c as u32;
    (0x9 <= u && u <= 0xD) || u == 0x20 || u == 0x85 || u == 0xA0 || u == 0x1680 || (0x2000 <= u && u
        <= 0x200A) || u == 0x2028 || u == 0x2029 || u == 0x202F || u == 0x205F || u == 0x3000
}

/// A comment line (`#`), a metadata line (`;;`) or a blank one.
pub open spec fn skipped_line(l: Seq<char>) -> bool {
    (l.len() >= 1 && l[0] == '#') || (l.len() >= 2 && l[0] == ';' && l[1] == ';') || forall|j: int|
        0 <= j < l.len() ==> is_white_space(#[trigger] l[j])
}

/// The record of a source line: its second and third tab-separated fields,
/// the character and its decomposition string, where the line is not
/// skipped, has at least three fields, and the two fields differ.
pub open spec fn ids_record(l: Seq<char>) -> Option<(Seq<char>, Seq<char>)> {
    let t1 = find_from(l, '\t', 0);
    let t2 = find_from(l, '\t', t1 + 1);
    let t3 = find_from(l, '\t', t2 + 1);
    if skipped_line(l) || t2 >= l.len() {
        None
    } else if l.subrange(t2 + 1, t3) == l.subrange(t1 + 1, t2) {
        None
    } else {
        Some((l.subrange(t1 + 1, t2), l.subrange(t2 + 1, t3)))
    }
}

/// `m` with the record of each line of `lines` put in turn.
pub open spec fn load_lines(m: Entries, lines: Seq<Seq<char>>) -> Entries
    decreases lines.len(),
{
    if lines.len() == 0 {
        m
    } else {
        let m0 = load_lines(m, lines.drop_last());
        match ids_record(lines.last()) {
            Some(rec) => put(m0, rec.0, rec.1),
            None => m0,
        }
    }
}

fn find_char_from(l: &str, n: usize, c: char, i: usize) -> (r: usize)
    requires
        n == l@.len(),
        i <= n,
    ensures
        r as int == find_from(l@, c, i as int),
        i <= r <= n,
{
    let mut j: usize = i;
    while j < n && l.get_char(j) != c
        invariant
            n == l@.len(),
            i <= j <= n,
            find_from(l@, c, i as int) == find_from(l@, c, j as int),
        decreases n - j,
    {
        j = j + 1;
    }
    j
}

fn is_white_space_char(c: char) -> (r: bool)
    ensures
        r == is_white_space(c),
{
    let u = c as u32;
    (0x9 <= u && u <= 0xD) || u == 0x20 || u == 0x85 || u == 0xA0 || u == 0x1680 || (0x2000 <= u && u
        <= 0x200A) || u == 0x2028 || u == 0x2029 || u == 0x202F || u == 0x205F || u == 0x3000
}

/// Reads one line of a decomposition source into (character, decomposition
/// string), or `None` where the line holds no record to keep.
pub fn parse_ids_line(line: &str) -> (r: Option<(String, String)>)
    ensures
        match r {
            Some(rec) => ids_record(line@) == Some((rec.0@, rec.1@)),
            None => ids_record(line@) is None,
        },
{
    let n = line.unicode_len();
    if n >= 1 && line.get_char(0) == '#' {
        return None;
    }
    if n >= 2 && line.get_char(0) == ';' && line.get_char(1) == ';' {
        return None;
    }
    let mut k: usize = 0;
    while k < n && is_white_space_char(line.get_char(k))
        invariant
            n == line@.len(),
            k <= n,
            forall|j: int| 0 <= j < k ==> is_white_space(#[trigger] line@[j]),
        decreases n - k,
    {
        k = k + 1;
    }
    if k == n {
        return None;
    }
    assert(!skipped_line(line@)) by {
        assert(!is_white_space(line@[k as int]));
    }
    let t1 = find_char_from(line, n, '\t', 0);
    if t1 == n {
        return None;
    }
    let t2 = find_char_from(line, n, '\t', t1 + 1);
    if t2 == n {
        return None;
    }
    let t3 = find_char_from(line, n, '\t', t2 + 1);
    let character = String::from_str(line.substring_char(t1 + 1, t2));
    let ids = String::from_str(line.substring_char(t2 + 1, t3));
    if ids == character {
        None
    } else {
        Some((character, ids))
    }
}

/// A mapping from a character to its decomposition string.
pub struct IdsMap {
    entries: Vec<(String, String)>,
}

pub open spec fn entries_view(v: Seq<(String, String)>) -> Entries {
    v.map_values(|e: (String, String)| (e.0@, e.1@))
}

impl View for IdsMap {
    type V = Entries;

    closed spec fn view(&self) -> Entries {
        entries_view(self.entries@)
    }
}

proof fn lemma_put_keys_distinct<V>(m: Seq<(Seq<char>, V)>, k: Seq<char>, v: V)
    requires
        forall|i: int, j: int| 0 <= i < j < m.len() ==> m[i].0 != m[j].0,
    ensures
        forall|i: int, j: int| 0 <= i < j < put(m, k, v).len() ==> put(m, k, v)[i].0 != put(m, k, v)[j].0,
{
    lemma_key_index_range(m, k);
}

impl IdsMap {
    /// No character has two entries.
    #[verifier::type_invariant]
    spec fn distinct_keys(&self) -> bool {
        keys_distinct(entries_view(self.entries@))
    }

    /// The empty mapping.
    pub fn new() -> (r: IdsMap)
        ensures
            r@ == Seq::<(Seq<char>, Seq<char>)>::empty(),
            keys_distinct(r@),
    {
        let r = IdsMap { entries: Vec::new() };
        assert(r@ =~= Seq::<(Seq<char>, Seq<char>)>::empty());
        r
    }

    /// The number of characters with a decomposition.
    pub fn len(&self) -> (r: usize)
        ensures
            r == self@.len(),
            keys_distinct(self@),
    {
        proof {
            use_type_invariant(self);
        }
        self.entries.len()
    }

    /// The `i`-th entry, as (character, decomposition string).
    pub fn entry(&self, i: usize) -> (r: (&String, &String))
        requires
            i < self@.len(),
        ensures
            r.0@ == self@[i as int].0,
            r.1@ == self@[i as int].1,
    {
        let e = &self.entries[i];
        (&e.0, &e.1)
    }

    /// Where the entry for `character` stands, if there is one.
    fn find(&self, character: &String) -> (r: Option<usize>)
        ensures
            match r {
                Some(i) => key_index(self@, character@) == i as int && i < self@.len(),
                None => key_index(self@, character@) == -1,
            },
    {
        let mut i: usize = self.entries.len();
        proof {
            lemma_key_index_range(self@, character@);
        }
        while i > 0
            invariant
                i <= self@.len(),
                self@.len() == self.entries@.len(),
                forall|j: int| i <= j < self@.len() ==> self@[j].0 != character@,
            decreases i,
        {
            if self.entries[i - 1].0 == *character {
                proof {
                    lemma_key_index_prefix(self@, character@, i as int);
                    assert(self@.subrange(0, i as int).last().0 == character@);
                }
                return Some(i - 1);
            }
            i = i - 1;
        }
        proof {
            lemma_key_index_prefix(self@, character@, 0);
        }
        None
    }

    /// The decomposition string of `character`, if it has one.
    pub fn get(&self, character: &String) -> (r: Option<&String>)
        ensures
            match r {
                Some(s) => lookup(self@, character@) == Some(s@),
                None => lookup(self@, character@) is None,
            },
    {
        match self.find(character) {
            Some(i) => {
                assert(self@[i as int].1 == self.entries@[i as int].1@);
                Some(&self.entries[i].1)
            },
            None => None,
        }
    }

    /// Maps `character` to `ids`, replacing what it was mapped to before.
    pub fn insert(&mut self, character: String, ids: String)
        ensures
            final(self)@ == put(old(self)@, character@, ids@),
            keys_distinct(final(self)@),
    {
        proof {
            use_type_invariant(&*self);
            lemma_key_index_range(self@, character@);
            lemma_put_keys_distinct(self@, character@, ids@);
        }
        let ghost m = self@;
        let found = self.find(&character);
        let mut es: Vec<(String, String)> = Vec::new();
        std::mem::swap(&mut es, &mut self.entries);
        assert(entries_view(es@) == m);
        match found {
            Some(i) => {
                es.set(i, (character, ids));
            },
            None => {
                es.push((character, ids));
            },
        }
        assert(entries_view(es@) =~= put(m, character@, ids@));
        self.entries = es;
    }

    /// Puts each entry of `other` in turn, so that `other` wins for a
    /// character that both map.
    pub fn extend(&mut self, other: &IdsMap)
        ensures
            final(self)@ == put_all(old(self)@, other@),
            keys_distinct(final(self)@),
    {
        let ghost m0 = self@;
        let mut i: usize = 0;
        while i < other.len()
            invariant
                i <= other@.len(),
                self@ == put_all(m0, other@.subrange(0, i as int)),
            decreases other@.len() - i,
        {
            let (c, ids) = other.entry(i);
            self.insert(c.clone(), ids.clone());
            assert(other@.subrange(0, i as int + 1).drop_last() =~= other@.subrange(0, i as int));
            i = i + 1;
        }
        assert(other@.subrange(0, other@.len() as int) =~= other@);
        proof {
            use_type_invariant(&*self);
        }
    }

    /// Puts the record of each line of a decomposition source in turn;
    /// a later line wins for a character given twice.
    pub fn add_lines(&mut self, lines: &Vec<String>)
        ensures
            final(self)@ == load_lines(old(self)@, views(lines@)),
            keys_distinct(final(self)@),
    {
        let ghost m0 = self@;
        let mut i: usize = 0;
        while i < lines.len()
            invariant
                i <= lines@.len(),
                self@ == load_lines(m0, views(lines@).subrange(0, i as int)),
            decreases lines@.len() - i,
        {
            match parse_ids_line(lines[i].as_str()) {
                Some(rec) => {
                    self.insert(rec.0, rec.1);
                },
                None => {},
            }
            assert(views(lines@).subrange(0, i as int + 1).drop_last() =~= views(lines@).subrange(0, i as int));
            i = i + 1;
        }
        assert(views(lines@).subrange(0, lines@.len() as int) =~= views(lines@));
        proof {
            use_type_invariant(&*self);
        }
    }
}

} // verus!
