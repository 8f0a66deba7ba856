use ll_core::matching::{matches_part, normalize_for_match};

#[test]
fn matches_normalized_part_names() {
    assert!(matches_part("SS20PH102_M3_I.step", "SS20PH102-M3/I"));
    assert!(matches_part("ATMEGA328P-AU.kicad_mod", "ATMEGA328P-AU"));
    assert!(!matches_part("ATMEGA328P-AU.kicad_mod", "STM32G030"));
}

#[test]
fn normalizing_keeps_lower_case_letters_and_digits() {
    assert_eq!(normalize_for_match("SS20PH102-M3/I"), "ss20ph102m3i");
    assert_eq!(normalize_for_match("--//__"), "");
}

#[test]
fn normalizing_twice_changes_nothing() {
    let once = normalize_for_match("ATmega328P-AU (TQFP)");
    assert_eq!(normalize_for_match(&once), once);
}

#[test]
fn a_part_matches_its_own_name() {
    assert!(matches_part("LM358-N/NOPB", "LM358-N/NOPB"));
}

#[test]
fn matching_ignores_ascii_case() {
    assert!(matches_part("atmega328p-au.kicad_mod", "ATMEGA328P-AU"));
    assert!(matches_part("ATMEGA328P-AU", "atmega328p-au"));
}

#[test]
fn a_part_matches_inside_a_longer_text() {
    assert!(matches_part("(symbol \"SS20PH102-M3/I\")", "SS20PH102-M3/I"));
}

#[test]
fn an_empty_part_number_matches_everything() {
    assert!(matches_part("anything", ""));
}
