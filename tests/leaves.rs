use hanzi_components::{decompose_to_leaves, extract_allowed_components, IdsMap};

fn map_of(pairs: &[(&str, &str)]) -> IdsMap {
    let mut m = IdsMap::new();
    for (c, ids) in pairs {
        m.insert(c.to_string(), ids.to_string());
    }
    m
}

#[test]
fn absent_character_is_its_own_leaf() {
    let m = IdsMap::new();
    let mut visited = Vec::new();
    let leaves = decompose_to_leaves("木", &m, &mut visited);
    assert_eq!(leaves, vec!["木"]);
    assert_eq!(visited, vec!["木"]);
}

#[test]
fn visited_character_has_no_leaves() {
    let m = IdsMap::new();
    let mut visited = vec!["木".to_string()];
    let leaves = decompose_to_leaves("木", &m, &mut visited);
    assert!(leaves.is_empty());
    assert_eq!(visited, vec!["木"]);
}

#[test]
fn nested_decomposition_reaches_leaves() {
    let m = map_of(&[("明", "⿰日月"), ("朋", "⿰月月"), ("晶", "⿱日⿰日日"), ("萌", "⿱艹明")]);
    let mut visited = Vec::new();
    assert_eq!(decompose_to_leaves("萌", &m, &mut visited), vec!["艹", "日", "月"]);
    assert_eq!(visited, vec!["萌", "艹", "明", "日", "月"]);
    let mut visited = Vec::new();
    assert_eq!(decompose_to_leaves("朋", &m, &mut visited), vec!["月"]);
    let mut visited = Vec::new();
    assert_eq!(decompose_to_leaves("晶", &m, &mut visited), vec!["日"]);
}

#[test]
fn two_character_cycle_terminates() {
    let m = map_of(&[("A", "B"), ("B", "A")]);
    let mut visited = Vec::new();
    let leaves = decompose_to_leaves("A", &m, &mut visited);
    assert_eq!(leaves, vec!["A"]);
    assert_eq!(visited, vec!["A", "B"]);
}

#[test]
fn self_cycle_gives_the_character() {
    let m = map_of(&[("A", "⿰AA")]);
    let mut visited = Vec::new();
    assert_eq!(decompose_to_leaves("A", &m, &mut visited), vec!["A"]);
}

#[test]
fn entity_reference_decomposes_further() {
    let m = map_of(&[("X", "⿰&CDP-1;木"), ("&CDP-1;", "⿱口口")]);
    let mut visited = Vec::new();
    assert_eq!(decompose_to_leaves("X", &m, &mut visited), vec!["口", "木"]);
}

#[test]
fn allowed_components_of_a_vocabulary() {
    let m = map_of(&[("明", "⿰日月"), ("朋", "⿰月月")]);
    let words = vec![(1u8, vec!["明白".to_string()]), (2u8, vec!["朋".to_string(), "木".to_string()])];
    let allowed = extract_allowed_components(&words, &m);
    assert_eq!(allowed, vec!["日", "月", "白", "木"]);
}

#[test]
fn allowed_components_of_no_words() {
    let m = map_of(&[("明", "⿰日月")]);
    assert!(extract_allowed_components(&Vec::new(), &m).is_empty());
    assert!(extract_allowed_components(&vec![(3u8, Vec::new())], &m).is_empty());
}
