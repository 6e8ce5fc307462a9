use putki::loc::{mangle, unmangle, Mangled, NoTranslation, Translation};

#[test]
fn numeric_variants_collapse_to_one_key() {
    // The whole point: these must produce the same catalog entry.
    assert_eq!(mangle("Deal 20% damage").text, mangle("Deal 30% damage").text);
    assert_ne!(mangle("Deal 20% damage").text, mangle("Heal 20% damage").text);
}

#[test]
fn unmarked_braces_are_left_alone() {
    let m = mangle("Hi {player}, take {#this} literally");
    assert_eq!(m.text, "Hi {player}, take {12} literally");
    assert_eq!(m.replacements, vec!["#this"]);
}

#[test]
fn a_missing_replacement_does_not_panic() {
    // Hand-built state that cannot come from mangle().
    let m = Mangled { text: String::from("{12} and {34}"), replacements: vec![] };
    assert_eq!(unmangle(&m, false), "{12} and {34}");
}

#[test]
fn numbers_are_marked_and_restored() {
    let m = mangle("Deal 20% extra damage");
    assert_eq!(m.text, "Deal {12}% extra damage");
    assert_eq!(m.replacements, vec!["!20"]);
    assert_eq!(unmangle(&m, true), "Deal 20% extra damage");
    assert_eq!(unmangle(&m, false), "Deal 20% extra damage");
}

#[test]
fn leading_zeros_survive() {
    let m = mangle("x 007%");
    assert_eq!(m.text, "x {12}%");
    assert_eq!(unmangle(&m, true), "x 007%");
}

#[test]
fn a_bare_percent_is_not_a_number() {
    assert_eq!(mangle("100 % sure").text, "100 % sure");
    assert_eq!(mangle("abc% x").text, "abc% x");
    assert_eq!(mangle("-5% +7%").text, "{12}% {34}%");
}

#[test]
fn placeholders_are_taken_in_table_order() {
    let m = mangle("{#a} {#b} {#c} {#d} {#e} {#f} {#g} {#h} {#i} {#j}");
    assert_eq!(m.text, "{12} {34} {56} {78} {90} {15} {20} {25} {30} {35}");
    assert_eq!(m.replacements.len(), 10);
    assert_eq!(unmangle(&m, true), "{#a} {#b} {#c} {#d} {#e} {#f} {#g} {#h} {#i} {#j}");
    assert_eq!(unmangle(&m, false), "a b c d e f g h i j");
}

#[test]
fn display_drops_the_isolation_marker() {
    let m = mangle("Deal 20% damage to {#Ada}");
    assert_eq!(m.text, "Deal {12}% damage to {34}");
    assert_eq!(unmangle(&m, false), "Deal 20% damage to Ada");
    assert_eq!(unmangle(&m, true), "Deal 20% damage to {#Ada}");
}

#[test]
fn a_literal_token_does_not_survive_the_round_trip() {
    let m = mangle("{12} {#a}");
    assert_eq!(m.text, "{12} {12}");
    assert_ne!(unmangle(&m, true), "{12} {#a}");
}

#[test]
fn a_closing_brace_first_stops_the_scan() {
    let m = mangle("a}b{#c}");
    assert_eq!(m.text, "a}b{#c}");
    assert!(m.replacements.is_empty());
}

#[test]
fn untranslated_text_is_bracketed() {
    let t = NoTranslation;
    assert_eq!(t.translate("Deal 20% damage", "ctx"), "<Deal 20% damage>");
    assert_eq!(t.translate_plural("{#3} torch(s)", "ctx", 2), "<3 torchs>");
    assert_eq!(t.translate_plural("{#1} torch(s)", "ctx", 1), "<1 torch>");
}

#[test]
fn texts_with_spans_round_trip() {
    let s = "Hit {#who} for 20% in {zone}, then {#how}";
    let m = mangle(s);
    assert_eq!(unmangle(&m, true), s);
    assert_eq!(unmangle(&m, false), "Hit who for 20% in {zone}, then how");
}

#[test]
fn numbers_collapse_beside_spans() {
    assert_eq!(mangle("{#Ada} deals 20% to {foe}").text, mangle("{#Ada} deals 35% to {foe}").text);
    assert_ne!(mangle("{#Ada} deals 20% to {foe}").text, mangle("{#Ada} heals 20% to {foe}").text);
}
