use spending_stats::Category;

#[test]
fn known_names_give_their_category() {
    assert_eq!(Category::from("Books"), Category::Books);
    assert_eq!(Category::from("Entrateinment"), Category::Entrateinment);
    assert_eq!(Category::from("Utilities"), Category::Utilities);
    assert_eq!(Category::from("Unknown"), Category::Unknown);
    assert_eq!(Category::from("Miscellaneous"), Category::Miscellaneous(String::new()));
}

#[test]
fn other_names_become_labels() {
    assert_eq!(Category::from("Food"), Category::Miscellaneous("Food".to_string()));
    assert_eq!(Category::from("books"), Category::Miscellaneous("books".to_string()));
    assert_eq!(Category::from(""), Category::Miscellaneous(String::new()));
}

#[test]
fn names() {
    assert_eq!(Category::Rent.name(), "Rent");
    assert_eq!(Category::Unknown.name(), "Unknown");
    assert_eq!(Category::Miscellaneous(String::new()).name(), "Miscellaneous");
    assert_eq!(Category::Miscellaneous("Food".to_string()).name(), "Miscellaneous (Food)");
}

#[test]
fn names_round_trip() {
    for c in Category::all_fixed() {
        assert_eq!(Category::from(c.name().as_str()), c);
    }
    assert_eq!(Category::all_fixed().len(), 22);
}
