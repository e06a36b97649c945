use ui_base::setting::{contains_text, Axis, DropdownField, SettingItem};

fn two_factor() -> SettingItem {
    SettingItem::new("Enable Two-factor auth")
        .description("Use an authenticator app")
        .keywords(vec!["MFA".to_string(), "Security".to_string()])
}

#[test]
fn items_match_their_title_description_and_keywords_ignoring_case() {
    let item = two_factor();
    assert!(item.is_match("TWO"));
    assert!(item.is_match("two-factor"));
    assert!(item.is_match("authenticator"));
    assert!(item.is_match("mfa"));
    assert!(item.is_match("secur"));
    assert!(item.is_match(""));
    assert!(!item.is_match("password"));
    assert!(!item.is_match("enable two-factor auth!"));
}

#[test]
fn custom_elements_show_without_a_query_or_by_keyword() {
    let bare = SettingItem::Element { disabled: false, keywords: vec![] };
    assert!(bare.is_match(""));
    assert!(!bare.is_match("a"));
    let themed = SettingItem::Element { disabled: false, keywords: vec![] }
        .keywords(vec!["Theme".to_string()]);
    assert!(themed.is_match("THE"));
    assert!(!themed.is_match("font"));
}

#[test]
fn builders_set_only_their_field() {
    match SettingItem::new("Font").layout(Axis::Vertical).disabled(true) {
        SettingItem::Item { title, description, keywords, layout, disabled } => {
            assert_eq!(title, "Font");
            assert_eq!(description, None);
            assert!(keywords.is_empty());
            assert_eq!(layout, Axis::Vertical);
            assert!(disabled);
        }
        SettingItem::Element { .. } => panic!("expected an item"),
    }
    match SettingItem::new("Font") {
        SettingItem::Item { layout, disabled, .. } => {
            assert_eq!(layout, Axis::Horizontal);
            assert!(!disabled);
        }
        SettingItem::Element { .. } => panic!("expected an item"),
    }
    let element = SettingItem::Element { disabled: false, keywords: vec!["x".to_string()] }
        .description("ignored")
        .layout(Axis::Vertical)
        .disabled(true);
    match element {
        SettingItem::Element { disabled, keywords } => {
            assert!(disabled);
            assert_eq!(keywords, vec!["x".to_string()]);
        }
        SettingItem::Item { .. } => panic!("expected an element"),
    }
}

#[test]
fn contains_text_finds_runs_of_characters() {
    assert!(contains_text("hello", "ell"));
    assert!(contains_text("hello", ""));
    assert!(contains_text("", ""));
    assert!(!contains_text("", "a"));
    assert!(!contains_text("hel", "hello"));
    assert!(contains_text("naïve", "ïv"));
    assert!(!contains_text("hello", "hlo"));
}

#[test]
fn dropdown_shows_the_label_of_the_current_value() {
    let options = vec![
        ("light".to_string(), "Light".to_string()),
        ("dark".to_string(), "Dark".to_string()),
        ("dark".to_string(), "Second dark".to_string()),
    ];
    let field = DropdownField::new(Some(&options), true);
    assert_eq!(field.label_for(&"dark".to_string()), "Dark");
    assert_eq!(field.label_for(&"light".to_string()), "Light");
    assert_eq!(field.label_for(&"system".to_string()), "system");
    assert!(field.scrollable());
    let empty = DropdownField::new(None, false);
    assert_eq!(empty.label_for(&"x".to_string()), "x");
    assert!(!empty.scrollable());
}

#[test]
fn a_vertical_page_forces_vertical_items() {
    let item = SettingItem::new("Font");
    assert_eq!(item.effective_layout(Axis::Horizontal), Some(Axis::Horizontal));
    assert_eq!(item.effective_layout(Axis::Vertical), Some(Axis::Vertical));
    let vertical = SettingItem::new("Font").layout(Axis::Vertical);
    assert_eq!(vertical.effective_layout(Axis::Horizontal), Some(Axis::Vertical));
    let element = SettingItem::Element { disabled: false, keywords: vec![] };
    assert_eq!(element.effective_layout(Axis::Vertical), None);
}
