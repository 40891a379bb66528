use hanzi_components::{extract_components_from_ids, is_extended_idc};

#[test]
fn test_extract_components_handles_entity_references() {
    let ids = "⿰&CDP-8B7A;攵";
    let components = extract_components_from_ids(ids);

    assert_eq!(components.len(), 2);
    assert_eq!(components[0], "&CDP-8B7A;");
    assert_eq!(components[1], "攵");
}

#[test]
fn test_extract_components_handles_regular_chars() {
    let ids = "⿰木米";
    let components = extract_components_from_ids(ids);

    assert_eq!(components.len(), 2);
    assert_eq!(components[0], "木");
    assert_eq!(components[1], "米");
}

#[test]
fn test_extract_components_handles_mixed() {
    let ids = "⿱&CDP-855B;米";
    let components = extract_components_from_ids(ids);

    assert_eq!(components.len(), 2);
    assert_eq!(components[0], "&CDP-855B;");
    assert_eq!(components[1], "米");
}

#[test]
fn test_extract_components_filters_operators() {
    let ids = "⿰⿱日月木";
    let components = extract_components_from_ids(ids);

    assert_eq!(components.len(), 3);
    assert_eq!(components[0], "日");
    assert_eq!(components[1], "月");
    assert_eq!(components[2], "木");
}

#[test]
fn test_no_ascii_components_in_decomposition() {
    let ids = "⿰&CDP-8B7A;攵";
    let components = extract_components_from_ids(ids);

    for component in &components {
        if component.starts_with('&') && component.ends_with(';') {
            continue;
        }
        for c in component.chars() {
            assert!(
                !c.is_ascii_alphanumeric() && c != '&' && c != ';' && c != '-',
                "Component '{}' contains invalid ASCII character '{}'",
                component,
                c
            );
        }
    }
}

#[test]
fn every_operator_is_dropped() {
    let ids = "⿰⿱⿲⿳⿴⿵⿶⿷⿸⿹⿺⿻⿼⿽⿾⿿口";
    assert_eq!(extract_components_from_ids(ids), vec!["口".to_string()]);
}

#[test]
fn empty_string_has_no_components() {
    assert!(extract_components_from_ids("").is_empty());
}

#[test]
fn plain_string_keeps_order_and_count() {
    let ids = "⿱⿰木木⿰木木";
    assert_eq!(extract_components_from_ids(ids), vec!["木", "木", "木", "木"]);
}

#[test]
fn extended_indicator_is_dropped() {
    let ids = "&U-i001+2FF1;木米";
    assert_eq!(extract_components_from_ids(ids), vec!["木", "米"]);
}

#[test]
fn reference_with_other_code_is_kept() {
    let ids = "⿰&U-i001+20541;木";
    assert_eq!(extract_components_from_ids(ids), vec!["&U-i001+20541;", "木"]);
}

#[test]
fn unterminated_reference_is_kept_at_end() {
    let ids = "⿰木&CDP-1";
    assert_eq!(extract_components_from_ids(ids), vec!["木", "&CDP-1"]);
}

#[test]
fn ampersand_inside_reference_continues_it() {
    let ids = "&ab&cd;木";
    assert_eq!(extract_components_from_ids(ids), vec!["&ab&cd;", "木"]);
}

#[test]
fn semicolon_outside_reference_is_a_component() {
    assert_eq!(extract_components_from_ids("⿰;木"), vec![";", "木"]);
}

#[test]
fn extended_indicator_recognised() {
    assert!(is_extended_idc("&U-i001+2FF1;"));
    assert!(is_extended_idc("&U-i002+2FFB;"));
    assert!(!is_extended_idc("&U-i001+20541;"));
    assert!(!is_extended_idc("&CDP-8B7A;"));
    assert!(!is_extended_idc("&U-i001+2F;"));
    assert!(!is_extended_idc("&U-i0012FF1;"));
    assert!(!is_extended_idc("&U-i001+2FF1"));
    assert!(!is_extended_idc(""));
}

#[test]
fn indicator_is_judged_by_code_value() {
    assert!(is_extended_idc("&U-i001+2ff1;"));
    assert!(is_extended_idc("&U-i001+02FF1;"));
    assert!(is_extended_idc("&U-i001+2FF0;"));
    assert!(is_extended_idc("&U-i001+2FFF;"));
    assert!(!is_extended_idc("&U-i001+2FF00;"));
    assert!(!is_extended_idc("&U-i001+2FF;"));
    assert!(!is_extended_idc("&U-i001+2FEF;"));
    assert!(!is_extended_idc("&U-i001+3000;"));
    assert!(!is_extended_idc("&U-i001+2FG1;"));
    assert!(!is_extended_idc("&U-i001+;"));
}

#[test]
fn out_of_range_codes_stay_components() {
    assert_eq!(extract_components_from_ids("⿰&U-i001+2FF00;木"), vec!["&U-i001+2FF00;", "木"]);
    assert_eq!(extract_components_from_ids("⿰&U-i001+2ff1;木"), vec!["木"]);
}
