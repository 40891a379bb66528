use hanzi_components::{
    build_char_decompositions, build_components_to_chars, build_game_data, component_key, IdsMap,
};

fn map_of(pairs: &[(&str, &str)]) -> IdsMap {
    let mut m = IdsMap::new();
    for (c, ids) in pairs {
        m.insert(c.to_string(), ids.to_string());
    }
    m
}

fn chars_under(idx: &[hanzi_components::ComponentsToCharacters], key: &str) -> Vec<String> {
    idx.iter()
        .find(|e| e.components_key == key)
        .map(|e| e.characters.clone())
        .unwrap_or_default()
}

#[test]
fn key_sorts_components() {
    let v = vec!["米".to_string(), "木".to_string()];
    assert_eq!(component_key(&v), "木米");
    let v = vec!["日".to_string(), "&CDP-855B;".to_string()];
    assert_eq!(component_key(&v), "&CDP-855B;日");
    let v = vec!["b".to_string(), "ab".to_string(), "a".to_string()];
    assert_eq!(component_key(&v), "aabb");
    assert_eq!(component_key(&Vec::new()), "");
}

#[test]
fn decompositions_follow_the_mapping() {
    let m = map_of(&[("明", "⿰日月"), ("X", "⿱&CDP-855B;米")]);
    let d = build_char_decompositions(&m);
    assert_eq!(d.len(), 2);
    assert_eq!(d[0].character, "明");
    assert_eq!(d[0].ids, "⿰日月");
    assert_eq!(d[0].components, vec!["日", "月"]);
    assert_eq!(d[1].components, vec!["&CDP-855B;", "米"]);
}

#[test]
fn character_under_direct_and_leaf_keys() {
    let m = map_of(&[("A", "⿰BC"), ("B", "⿱DE")]);
    let d = build_char_decompositions(&m);
    let idx = build_components_to_chars(&d, &m);
    assert_eq!(idx.len(), 3);
    assert_eq!(idx[0].components_key, "BC");
    assert_eq!(idx[0].characters, vec!["A"]);
    assert_eq!(idx[1].components_key, "CDE");
    assert_eq!(idx[1].characters, vec!["A"]);
    assert_eq!(idx[2].components_key, "DE");
    assert_eq!(idx[2].characters, vec!["B"]);
}

#[test]
fn same_keys_give_one_entry() {
    let m = map_of(&[("好", "⿰女子"), ("妤", "⿰女予")]);
    let d = build_char_decompositions(&m);
    let idx = build_components_to_chars(&d, &m);
    assert_eq!(chars_under(&idx, "女子"), vec!["好"]);
    assert_eq!(chars_under(&idx, "予女"), vec!["妤"]);
    assert_eq!(idx.len(), 2);
}

#[test]
fn characters_share_a_key_in_order() {
    let m = map_of(&[("杏", "⿱木口"), ("呆", "⿱口木")]);
    let d = build_char_decompositions(&m);
    let idx = build_components_to_chars(&d, &m);
    assert_eq!(idx.len(), 1);
    assert_eq!(chars_under(&idx, "口木"), vec!["杏", "呆"]);
}

#[test]
fn game_data_holds_all_tables() {
    let m = map_of(&[("明", "⿰日月")]);
    let words = vec![(1u8, vec!["明".to_string()])];
    let g = build_game_data(words.clone(), m);
    assert_eq!(g.char_to_decomposition.len(), 1);
    assert_eq!(g.components_to_chars.len(), 1);
    assert_eq!(chars_under(&g.components_to_chars, "日月"), vec!["明"]);
    assert_eq!(g.allowed_components, vec!["日", "月"]);
    assert_eq!(g.hsk_words, words);
}

#[test]
fn character_filed_once_per_key() {
    let m = map_of(&[("林", "⿰木木"), ("森", "⿱木林")]);
    let d = build_char_decompositions(&m);
    let idx = build_components_to_chars(&d, &m);
    assert_eq!(chars_under(&idx, "木木"), vec!["林"]);
    assert_eq!(chars_under(&idx, "木林"), vec!["森"]);
    assert_eq!(chars_under(&idx, "木"), vec!["林", "森"]);
    assert_eq!(idx.len(), 3);
}
