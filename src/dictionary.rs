//! Dictionary entries and what is drawn from them: the vocabulary of each
//! HSK level, and the glosses of words and characters.
use vstd::prelude::*;
use crate::ids_map::{lemma_key_index_prefix, lemma_key_index_range, put};
use crate::index::index_add;
use crate::text::{contains_char, replace_all, replace_str, views};

verus! {

/// Usage statistics of a word.
pub struct WordStatistics {
    pub hsk_level: i64,
}

/// One sense of a word.
pub struct WordItem {
    pub definitions: Option<Vec<String>>,
}

/// A word of the word dictionary.
pub struct ChineseDictionaryElement {
    pub trad: String,
    pub items: Vec<WordItem>,
    pub statistics: Option<WordStatistics>,
}

/// A frequent word that holds a character.
pub struct TopWord {
    pub word: String,
    pub trad: String,
    pub gloss: String,
}

/// Usage statistics of a character.
pub struct CharStatistics {
    pub hsk_level: Option<i64>,
    pub top_words: Option<Vec<TopWord>>,
}

/// A character of the character dictionary.
pub struct ChineseCharacter {
    pub char: String,
    pub gloss: Option<String>,
    pub statistics: Option<CharStatistics>,
    pub variant_of: Option<String>,
}

/// How many entries have statistics, how many have none, and how many of
/// those with statistics sit at each level from 0 to 10.
pub struct LevelTally {
    pub counts: Vec<usize>,
    pub with_statistics: usize,
    pub without_statistics: usize,
}

/// The tally as (counts per level, with statistics, without).
pub type Tally = (Seq<int>, int, int);

pub open spec fn tally_view(t: LevelTally) -> Tally {
    (t.counts@.map_values(|c: usize| c as int), t.with_statistics as int, t.without_statistics as int)
}

/// One entry counted: `level` is its level where it has statistics.
pub open spec fn tally_add(t: Tally, has_statistics: bool, level: Option<i64>) -> Tally {
    if !has_statistics {
        (t.0, t.1, t.2 + 1)
    } else {
        match level {
            Some(l) => if 0 <= l <= 10 {
                (t.0.update(l as int, t.0[l as int] + 1), t.1 + 1, t.2)
            } else {
                (t.0, t.1 + 1, t.2)
            },
            None => (t.0, t.1 + 1, t.2),
        }
    }
}

pub open spec fn empty_tally() -> Tally {
    (Seq::new(11, |i: int| 0int), 0, 0)
}

/// The tally of the words of the word dictionary.
pub open spec fn word_tally(words: Seq<ChineseDictionaryElement>) -> Tally
    decreases words.len(),
{
    if words.len() == 0 {
        empty_tally()
    } else {
        let w = words.last();
        tally_add(
            word_tally(words.drop_last()),
            w.statistics is Some,
            match w.statistics {
                Some(st) => Some(st.hsk_level),
                None => None,
            },
        )
    }
}

/// The tally of the characters of the character dictionary.
pub open spec fn char_tally(chars: Seq<ChineseCharacter>) -> Tally
    decreases chars.len(),
{
    if chars.len() == 0 {
        empty_tally()
    } else {
        let c = chars.last();
        tally_add(
            char_tally(chars.drop_last()),
            c.statistics is Some,
            match c.statistics {
                Some(st) => st.hsk_level,
                None => None,
            },
        )
    }
}

fn new_tally() -> (r: LevelTally)
    ensures
        tally_view(r) == empty_tally(),
        r.counts@.len() == 11,
        forall|j: int| 0 <= j < 11 ==> r.counts@[j] == 0,
        r.with_statistics == 0,
        r.without_statistics == 0,
{
    let mut counts: Vec<usize> = Vec::new();
    let mut i: usize = 0;
    while i < 11
        invariant
            i <= 11,
            counts@.len() == i,
            forall|j: int| 0 <= j < i ==> counts@[j] == 0,
        decreases 11 - i,
    {
        counts.push(0);
        i = i + 1;
    }
    let r = LevelTally { counts, with_statistics: 0, without_statistics: 0 };
    assert(tally_view(r).0 =~= empty_tally().0);
    r
}

fn tally_add_exec(t: &mut LevelTally, has_statistics: bool, level: Option<i64>)
    requires
        old(t).counts@.len() == 11,
        old(t).with_statistics + old(t).without_statistics < usize::MAX,
        forall|j: int| 0 <= j < 11 ==> old(t).counts@[j] <= old(t).with_statistics,
    ensures
        tally_view(*final(t)) == tally_add(tally_view(*old(t)), has_statistics, level),
        final(t).counts@.len() == 11,
        final(t).with_statistics + final(t).without_statistics == old(t).with_statistics + old(t).without_statistics + 1,
        forall|j: int| 0 <= j < 11 ==> final(t).counts@[j] <= final(t).with_statistics,
{
    if !has_statistics {
        t.without_statistics = t.without_statistics + 1;
        return;
    }
    let ghost before = t.counts@;
    match level {
        Some(l) => {
            if 0 <= l && l <= 10 {
                let k = l as usize;
                let c = t.counts[k];
                t.counts.set(k, c + 1);
                assert(tally_view(*t).0 =~= tally_add(tally_view(*old(t)), has_statistics, level).0);
            }
        },
        None => {},
    }
    t.with_statistics = t.with_statistics + 1;
}

/// Counts the words of the word dictionary by level.
pub fn tally_word_levels(words: &Vec<ChineseDictionaryElement>) -> (r: LevelTally)
    ensures
        tally_view(r) == word_tally(words@),
{
    let mut t = new_tally();
    let mut i: usize = 0;
    while i < words.len()
        invariant
            i <= words@.len(),
            tally_view(t) == word_tally(words@.subrange(0, i as int)),
            t.counts@.len() == 11,
            t.with_statistics + t.without_statistics == i,
            forall|j: int| 0 <= j < 11 ==> t.counts@[j] <= t.with_statistics,
        decreases words@.len() - i,
    {
        let (has, level) = match &words[i].statistics {
            Some(st) => (true, Some(st.hsk_level)),
            None => (false, None),
        };
        tally_add_exec(&mut t, has, level);
        assert(words@.subrange(0, i as int + 1).drop_last() =~= words@.subrange(0, i as int));
        i = i + 1;
    }
    assert(words@.subrange(0, words@.len() as int) =~= words@);
    t
}

/// Counts the characters of the character dictionary by level.
pub fn tally_char_levels(chars: &Vec<ChineseCharacter>) -> (r: LevelTally)
    ensures
        tally_view(r) == char_tally(chars@),
{
    let mut t = new_tally();
    let mut i: usize = 0;
    while i < chars.len()
        invariant
            i <= chars@.len(),
            tally_view(t) == char_tally(chars@.subrange(0, i as int)),
            t.counts@.len() == 11,
            t.with_statistics + t.without_statistics == i,
            forall|j: int| 0 <= j < 11 ==> t.counts@[j] <= t.with_statistics,
        decreases chars@.len() - i,
    {
        let (has, level) = match &chars[i].statistics {
            Some(st) => (true, st.hsk_level),
            None => (false, None),
        };
        tally_add_exec(&mut t, has, level);
        assert(chars@.subrange(0, i as int + 1).drop_last() =~= chars@.subrange(0, i as int));
        i = i + 1;
    }
    assert(chars@.subrange(0, chars@.len() as int) =~= chars@);
    t
}

/// A gloss table as (key, glosses) entries.
pub type Glosses = Seq<(Seq<char>, Seq<Seq<char>>)>;

pub open spec fn gloss_view(v: Seq<(String, Vec<String>)>) -> Glosses {
    v.map_values(|e: (String, Vec<String>)| (e.0@, views(e.1@)))
}

pub open spec fn level_view(v: Seq<(u8, Vec<String>)>) -> Seq<(u8, Seq<Seq<char>>)> {
    v.map_values(|e: (u8, Vec<String>)| (e.0, views(e.1@)))
}

/// The words of levels 1 to 9 of `words`, each level with its words in
/// order; levels in the order they first occur.
pub open spec fn hsk_words(words: Seq<ChineseDictionaryElement>) -> Seq<(u8, Seq<Seq<char>>)>
    decreases words.len(),
{
    if words.len() == 0 {
        Seq::empty()
    } else {
        let prev = hsk_words(words.drop_last());
        let w = words.last();
        match w.statistics {
            Some(st) => if 1 <= st.hsk_level <= 9 {
                index_add(prev, st.hsk_level as u8, w.trad@)
            } else {
                prev
            },
            None => prev,
        }
    }
}

/// The definitions of all senses of a word, in order.
pub open spec fn item_definitions(items: Seq<WordItem>) -> Seq<Seq<char>>
    decreases items.len(),
{
    if items.len() == 0 {
        Seq::empty()
    } else {
        item_definitions(items.drop_last()) + match items.last().definitions {
            Some(d) => views(d@),
            None => Seq::empty(),
        }
    }
}

/// Each word with at least one definition, mapped to its definitions; a
/// later word of the same spelling wins.
pub open spec fn word_glosses(words: Seq<ChineseDictionaryElement>) -> Glosses
    decreases words.len(),
{
    if words.len() == 0 {
        Seq::empty()
    } else {
        let prev = word_glosses(words.drop_last());
        let d = item_definitions(words.last().items@);
        if d.len() > 0 {
            put(prev, words.last().trad@, d)
        } else {
            prev
        }
    }
}

pub open spec fn underscore() -> Seq<char> {
    seq!['_']
}

/// Where `c` does not yet hold `_`, `trad` with `pat` blanked out when that
/// has a `_` and `trad` is another spelling than `word`.
pub open spec fn try_trad(c: Seq<char>, word: Seq<char>, trad: Seq<char>, pat: Seq<char>) -> Seq<char> {
    if !c.contains('_') && trad != word && replace_all(trad, pat, underscore()).contains('_') {
        replace_all(trad, pat, underscore())
    } else {
        c
    }
}

/// A frequent word with the character blanked out as `_`: in the word,
/// else in its traditional spelling, else the same with the character the
/// entry is a variant of, else `_` alone.
pub open spec fn blanked(tw: TopWord, ch: Seq<char>, variant_of: Option<String>) -> Seq<char> {
    let word = tw.word@;
    let trad = tw.trad@;
    let first = try_trad(replace_all(word, ch, underscore()), word, trad, ch);
    let second = if first.contains('_') {
        first
    } else {
        match variant_of {
            Some(v) => if replace_all(word, v@, underscore()).contains('_') {
                replace_all(word, v@, underscore())
            } else {
                try_trad(first, word, trad, v@)
            },
            None => first,
        }
    };
    if second.contains('_') {
        second
    } else {
        underscore()
    }
}

/// A gloss line for a frequent word: the blanked word, a space, and the
/// word's gloss in parentheses.
pub open spec fn top_word_line(tw: TopWord, ch: Seq<char>, variant_of: Option<String>) -> Seq<char> {
    blanked(tw, ch, variant_of) + seq![' ', '('] + tw.gloss@ + seq![')']
}

/// The first three frequent words of a character, where it has some.
pub open spec fn first_top_words(e: ChineseCharacter) -> Seq<TopWord> {
    match e.statistics {
        Some(st) => match st.top_words {
            Some(t) => if t@.len() <= 3 {
                t@
            } else {
                t@.subrange(0, 3)
            },
            None => Seq::empty(),
        },
        None => Seq::empty(),
    }
}

/// A character's gloss, then a line for each of its first three frequent
/// words.
pub open spec fn char_definitions(e: ChineseCharacter) -> Seq<Seq<char>> {
    let g = match e.gloss {
        Some(g) => seq![g@],
        None => Seq::empty(),
    };
    g + first_top_words(e).map_values(|tw: TopWord| top_word_line(tw, e.char@, e.variant_of))
}

/// Each character with at least one definition, mapped to its definitions;
/// a later entry for the same character wins.
pub open spec fn char_glosses(chars: Seq<ChineseCharacter>) -> Glosses
    decreases chars.len(),
{
    if chars.len() == 0 {
        Seq::empty()
    } else {
        let prev = char_glosses(chars.drop_last());
        let d = char_definitions(chars.last());
        if d.len() > 0 {
            put(prev, chars.last().char@, d)
        } else {
            prev
        }
    }
}

fn put_glosses(t: &mut Vec<(String, Vec<String>)>, k: String, v: Vec<String>)
    ensures
        gloss_view(final(t)@) == put(gloss_view(old(t)@), k@, views(v@)),
{
    let ghost m = gloss_view(t@);
    proof {
        lemma_key_index_range(m, k@);
    }
    let mut i: usize = t.len();
    while i > 0
        invariant
            i <= t@.len(),
            m == gloss_view(t@),
            m == gloss_view(old(t)@),
            forall|j: int| i <= j < m.len() ==> m[j].0 != k@,
        decreases i,
    {
        if t[i - 1].0 == k {
            proof {
                lemma_key_index_prefix(m, k@, i as int);
                assert(m.subrange(0, i as int).last().0 == k@);
            }
            t.set(i - 1, (k, v));
            assert(gloss_view(t@) =~= put(m, k@, views(v@)));
            return;
        }
        i = i - 1;
    }
    proof {
        lemma_key_index_prefix(m, k@, 0);
    }
    t.push((k, v));
    assert(gloss_view(t@) =~= put(m, k@, views(v@)));
}

fn append_all(acc: &mut Vec<String>, more: &Vec<String>)
    ensures
        views(final(acc)@) == views(old(acc)@) + views(more@),
{
    let ghost a0 = views(acc@);
    let mut j: usize = 0;
    while j < more.len()
        invariant
            j <= more@.len(),
            views(acc@) == a0 + views(more@).subrange(0, j as int),
        decreases more@.len() - j,
    {
        let ghost prev = acc@;
        acc.push(more[j].clone());
        assert(views(acc@) =~= views(prev).push(more@[j as int]@));
        assert(views(more@).subrange(0, j as int + 1) =~= views(more@).subrange(0, j as int).push(more@[j as int]@));
        assert(views(acc@) =~= a0 + views(more@).subrange(0, j as int + 1));
        j = j + 1;
    }
    assert(views(more@).subrange(0, more@.len() as int) =~= views(more@));
}

fn add_level_word(levels: &mut Vec<(u8, Vec<String>)>, level: u8, word: &String)
    ensures
        level_view(final(levels)@) == index_add(level_view(old(levels)@), level, word@),
{
    let ghost m = level_view(levels@);
    proof {
        lemma_key_index_range(m, level);
    }
    let mut i: usize = levels.len();
    while i > 0
        invariant
            i <= levels@.len(),
            m == level_view(levels@),
            m == level_view(old(levels)@),
            forall|j: int| i <= j < m.len() ==> m[j].0 != level,
        decreases i,
    {
        if levels[i - 1].0 == level {
            proof {
                lemma_key_index_prefix(m, level, i as int);
                assert(m.subrange(0, i as int).last().0 == level);
            }
            let ghost before = levels@;
            let mut e = levels.remove(i - 1);
            let ghost old_words = e.1@;
            e.1.push(word.clone());
            assert(views(e.1@) =~= views(old_words).push(word@));
            let ghost e2 = e;
            levels.insert(i - 1, e);
            assert(levels@ =~= before.update(i - 1, e2));
            assert(level_view(levels@) =~= index_add(m, level, word@));
            return;
        }
        i = i - 1;
    }
    proof {
        lemma_key_index_prefix(m, level, 0);
    }
    let words = vec![word.clone()];
    assert(views(words@) =~= seq![word@]);
    levels.push((level, words));
    assert(level_view(levels@) =~= index_add(m, level, word@));
}

/// The words of levels 1 to 9, grouped by level in dictionary order.
pub fn extract_hsk_words(words: &Vec<ChineseDictionaryElement>) -> (r: Vec<(u8, Vec<String>)>)
    ensures
        level_view(r@) == hsk_words(words@),
{
    let mut levels: Vec<(u8, Vec<String>)> = Vec::new();
    assert(level_view(levels@) =~= Seq::<(u8, Seq<Seq<char>>)>::empty());
    let mut i: usize = 0;
    while i < words.len()
        invariant
            i <= words@.len(),
            level_view(levels@) == hsk_words(words@.subrange(0, i as int)),
        decreases words@.len() - i,
    {
        let w = &words[i];
        match &w.statistics {
            Some(st) => {
                if 1 <= st.hsk_level && st.hsk_level <= 9 {
                    add_level_word(&mut levels, st.hsk_level as u8, &w.trad);
                }
            },
            None => {},
        }
        assert(words@.subrange(0, i as int + 1).drop_last() =~= words@.subrange(0, i as int));
        i = i + 1;
    }
    assert(words@.subrange(0, words@.len() as int) =~= words@);
    levels
}

/// The definitions of every word that has some, by spelling.
pub fn extract_word_glosses(words: &Vec<ChineseDictionaryElement>) -> (r: Vec<(String, Vec<String>)>)
    ensures
        gloss_view(r@) == word_glosses(words@),
{
    let mut glosses: Vec<(String, Vec<String>)> = Vec::new();
    assert(gloss_view(glosses@) =~= Seq::<(Seq<char>, Seq<Seq<char>>)>::empty());
    let mut i: usize = 0;
    while i < words.len()
        invariant
            i <= words@.len(),
            gloss_view(glosses@) == word_glosses(words@.subrange(0, i as int)),
        decreases words@.len() - i,
    {
        let w = &words[i];
        let mut defs: Vec<String> = Vec::new();
        assert(views(defs@) =~= Seq::<Seq<char>>::empty());
        let mut j: usize = 0;
        while j < w.items.len()
            invariant
                j <= w.items@.len(),
                views(defs@) == item_definitions(w.items@.subrange(0, j as int)),
            decreases w.items@.len() - j,
        {
            match &w.items[j].definitions {
                Some(d) => append_all(&mut defs, d),
                None => {
                    assert(views(defs@) + Seq::<Seq<char>>::empty() =~= views(defs@));
                },
            }
            assert(w.items@.subrange(0, j as int + 1).drop_last() =~= w.items@.subrange(0, j as int));
            j = j + 1;
        }
        assert(w.items@.subrange(0, w.items@.len() as int) =~= w.items@);
        if defs.len() > 0 {
            put_glosses(&mut glosses, w.trad.clone(), defs);
        }
        assert(words@.subrange(0, i as int + 1).drop_last() =~= words@.subrange(0, i as int));
        i = i + 1;
    }
    assert(words@.subrange(0, words@.len() as int) =~= words@);
    glosses
}

fn underscore_str() -> (r: &'static str)
    ensures
        r@ == underscore(),
{
    proof {
        reveal_strlit("_");
    }
    "_"
}

fn try_trad_exec(c: String, word: &String, trad: &String, pat: &String) -> (r: String)
    ensures
        r@ == try_trad(c@, word@, trad@, pat@),
{
    if !contains_char(c.as_str(), '_') && !(*trad == *word) {
        let t = replace_str(trad.as_str(), pat.as_str(), underscore_str());
        if contains_char(t.as_str(), '_') {
            return t;
        }
    }
    c
}

fn blanked_exec(tw: &TopWord, ch: &String, variant_of: &Option<String>) -> (r: String)
    ensures
        r@ == blanked(*tw, ch@, *variant_of),
{
    let first = try_trad_exec(replace_str(tw.word.as_str(), ch.as_str(), underscore_str()), &tw.word, &tw.trad, ch);
    let second = if contains_char(first.as_str(), '_') {
        first
    } else {
        match variant_of {
            Some(v) => {
                let w = replace_str(tw.word.as_str(), v.as_str(), underscore_str());
                if contains_char(w.as_str(), '_') {
                    w
                } else {
                    try_trad_exec(first, &tw.word, &tw.trad, v)
                }
            },
            None => first,
        }
    };
    if contains_char(second.as_str(), '_') {
        second
    } else {
        String::from_str(underscore_str())
    }
}

fn top_word_line_exec(tw: &TopWord, ch: &String, variant_of: &Option<String>) -> (r: String)
    ensures
        r@ == top_word_line(*tw, ch@, *variant_of),
{
    let mut line = blanked_exec(tw, ch, variant_of);
    proof {
        reveal_strlit(" (");
        reveal_strlit(")");
    }
    line.append(" (");
    line.append(tw.gloss.as_str());
    line.append(")");
    assert(line@ =~= top_word_line(*tw, ch@, *variant_of));
    line
}

fn char_definitions_exec(e: &ChineseCharacter) -> (r: Vec<String>)
    ensures
        views(r@) == char_definitions(*e),
{
    let mut defs: Vec<String> = Vec::new();
    match &e.gloss {
        Some(g) => {
            defs.push(g.clone());
        },
        None => {},
    }
    let ghost g_part = views(defs@);
    let ghost tws = first_top_words(*e);
    let ghost lines = tws.map_values(|tw: TopWord| top_word_line(tw, e.char@, e.variant_of));
    assert(char_definitions(*e) =~= g_part + lines);
    match &e.statistics {
        Some(st) => match &st.top_words {
            Some(t) => {
                let k: usize = if t.len() <= 3 { t.len() } else { 3 };
                assert(tws =~= t@.subrange(0, k as int));
                let mut j: usize = 0;
                while j < k
                    invariant
                        k <= t@.len(),
                        j <= k,
                        tws == t@.subrange(0, k as int),
                        lines == tws.map_values(|tw: TopWord| top_word_line(tw, e.char@, e.variant_of)),
                        views(defs@) == g_part + lines.subrange(0, j as int),
                    decreases k - j,
                {
                    let line = top_word_line_exec(&t[j], &e.char, &e.variant_of);
                    let ghost prev = defs@;
                    defs.push(line);
                    assert(views(defs@) =~= views(prev).push(line@));
                    assert(lines.subrange(0, j as int + 1) =~= lines.subrange(0, j as int).push(lines[j as int]));
                    j = j + 1;
                }
                assert(lines.subrange(0, k as int) =~= lines);
            },
            None => {
                assert(g_part + lines =~= g_part);
            },
        },
        None => {
            assert(g_part + lines =~= g_part);
        },
    }
    defs
}

/// For each character with a gloss or frequent words: its gloss, then each
/// of its first three frequent words with the character blanked out as
/// `_`, followed by the word's gloss in parentheses.
pub fn extract_char_glosses_with_top_words(chars: &Vec<ChineseCharacter>) -> (r: Vec<(String, Vec<String>)>)
    ensures
        gloss_view(r@) == char_glosses(chars@),
{
    let mut glosses: Vec<(String, Vec<String>)> = Vec::new();
    assert(gloss_view(glosses@) =~= Seq::<(Seq<char>, Seq<Seq<char>>)>::empty());
    let mut i: usize = 0;
    while i < chars.len()
        invariant
            i <= chars@.len(),
            gloss_view(glosses@) == char_glosses(chars@.subrange(0, i as int)),
        decreases chars@.len() - i,
    {
        let defs = char_definitions_exec(&chars[i]);
        if defs.len() > 0 {
            put_glosses(&mut glosses, chars[i].char.clone(), defs);
        }
        assert(chars@.subrange(0, i as int + 1).drop_last() =~= chars@.subrange(0, i as int));
        i = i + 1;
    }
    assert(chars@.subrange(0, chars@.len() as int) =~= chars@);
    glosses
}

} // verus!
