use spending_stats::escape_string_for_tex;

#[test]
fn escapes_ampersand_and_dollar() {
    assert_eq!(escape_string_for_tex(&"R&D for $5".to_string()), "R\\&D for \\$5");
    assert_eq!(escape_string_for_tex(&"&&$".to_string()), "\\&\\&\\$");
}

#[test]
fn leaves_other_text_alone() {
    assert_eq!(escape_string_for_tex(&String::new()), "");
    assert_eq!(escape_string_for_tex(&"caffè 100%".to_string()), "caffè 100%");
}
