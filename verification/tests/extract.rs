use putki::loc::TranslatableString;
use putki::po::{escape, Catalog};

fn ts(text: &str, category: &str, plural: bool, field: &str, path: &str) -> TranslatableString {
    TranslatableString {
        text: text.to_string(),
        category: category.to_string(),
        plural,
        field: field.to_string(),
        path: path.to_string(),
    }
}

// The strings the test data set holds, as its collectors report them:
// the marked fields only, in path order.
fn catalog() -> Catalog {
    let mut c = Catalog::new();
    c.add(&ts("hej", "Dialogue", false, "DlgSay.Text", "dlg"));
    c.add(&ts("Deal 20% damage to {#Ada}", "Dialogue", false, "DlgSay.Text", "dmg1"));
    c.add(&ts("Deal 30% damage to {#Ada}", "Dialogue", false, "DlgSay.Text", "dmg2"));
    c.add(&ts("{#Bo} found 3 torch(s)", "Dialogue", true, "DlgMood.Text", "dlg2"));
    c.add(&ts("", "Dialogue", false, "DlgSay.Text", "empty"));
    c
}

fn pot() -> String {
    let catalog = catalog();
    assert!(catalog.mismatches().is_empty(), "strings did not survive mangling: {:?}", catalog.mismatches());
    catalog.to_pot("PutkiTest")
}

#[test]
fn marked_fields_are_collected() {
    let pot = pot();
    assert!(pot.contains("msgctxt \"Dialogue\""), "no Dialogue context:\n{pot}");
    assert!(pot.contains("#. DlgSay.Text (dlg)"), "missing DlgSay comment:\n{pot}");
    assert!(pot.contains("#. DlgMood.Text (dlg2)"), "missing DlgMood comment:\n{pot}");
}

#[test]
fn numeric_variants_collapse_to_one_entry() {
    let pot = pot();
    let key = "msgid \"Deal {12}% damage to {34}\"";
    assert_eq!(pot.matches(key).count(), 1, "expected exactly one {key} in:\n{pot}");
    assert!(!pot.contains("20%"), "the number leaked into the catalog:\n{pot}");
    assert!(!pot.contains("Ada"), "the isolated span leaked into the catalog:\n{pot}");
}

#[test]
fn plural_fields_get_both_forms() {
    let pot = pot();
    assert!(pot.contains("msgid \"{12} found 3 torch\""), "no singular:\n{pot}");
    assert!(pot.contains("msgid_plural \"{12} found 3 torchs\""), "no plural:\n{pot}");
}

#[test]
fn unmarked_strings_are_not_collected() {
    let pot = pot();
    assert!(!pot.contains("DIALOG HEJ"), "unmarked string collected:\n{pot}");
    assert!(!pot.contains("Dialog.Id"), "unmarked field collected:\n{pot}");
}

#[test]
fn the_catalog_is_stable_across_runs() {
    assert_eq!(pot(), pot());
}

#[test]
fn quotes_and_backslashes_are_escaped() {
    assert_eq!(escape(r#"a "quoted" word"#), r#"a \"quoted\" word"#);
    assert_eq!(escape(r"back\slash"), r"back\\slash");
    assert_eq!(escape("line\nbreak\ttab"), "line\\nbreak\\ttab");
}

#[test]
fn repeats_merge_into_one_entry() {
    let c = catalog();
    // hej, Deal..., found...; the empty string is dropped.
    assert_eq!(c.len(), 3);
    assert!(!c.is_empty());
    let pot = c.to_pot("P");
    assert!(pot.contains("#. DlgSay.Text (dmg1)\n#. DlgSay.Text (dmg2)\n"));
}

#[test]
fn an_empty_catalog_is_just_the_header() {
    let c = Catalog::new();
    assert!(c.is_empty());
    assert_eq!(
        c.to_pot("P\"x"),
        "#, fuzzy\nmsgid \"\"\nmsgstr \"\"\n\"Project-Id-Version: P\\\"x\\n\"\n\"MIME-Version: 1.0\\n\"\n\"Content-Type: text/plain; charset=UTF-8\\n\"\n\"Content-Transfer-Encoding: 8bit\\n\"\n\n"
    );
}

#[test]
fn a_string_that_does_not_survive_is_reported() {
    let mut c = Catalog::new();
    c.add(&ts("{12} {#a}", "", false, "F.G", "p"));
    assert_eq!(c.mismatches().len(), 1);
    assert_eq!(
        c.mismatches()[0],
        "[{12} {#a}] at p does not survive mangling: [{12} {12}] -> [{#a} {#a}]"
    );
    let pot = c.to_pot("P");
    assert!(pot.contains("#. F.G (p)\nmsgid \"{12} {12}\"\nmsgstr \"\"\n\n"));
    assert!(!pot.contains("msgctxt"));
}

#[test]
fn entries_are_ordered_by_category_then_text() {
    let mut c = Catalog::new();
    c.add(&ts("b", "y", false, "F", "1"));
    c.add(&ts("a", "y", false, "F", "2"));
    c.add(&ts("c", "x", false, "F", "3"));
    let pot = c.to_pot("P");
    let x = pot.find("msgid \"c\"").unwrap();
    let a = pot.find("msgid \"a\"").unwrap();
    let b = pot.find("msgid \"b\"").unwrap();
    assert!(x < a && a < b);
}
