use putki::lexed::{kv_to_string, LexedData};
use putki::escape::escape_string;
use putki::lexer::{lex_file, parse_array, parse_object_data, get_int, get_bool, get_string};

// kv_to_string feeds both the text output and the hash that gives anonymous
// inline objects their identity, so it must not depend on the order fields
// were read in.
#[test]
fn test_kv_to_string_is_ordered() {
	let src = r#"@Thing thing { zebra: 1, alpha: 2, middle: 3, beta: 4 }"#;
	let lex_once = || {
		let objs = lex_file(src);
		match objs.get("thing") {
			Some(LexedData::Object { kv, .. }) => kv_to_string(kv),
			_ => panic!("expected to lex an object"),
		}
	};
	let first = lex_once();
	assert_eq!(first, "{alpha:2,beta:4,middle:3,zebra:1,}");
	for _ in 0..16 {
		assert_eq!(first, lex_once(), "kv_to_string output is not deterministic");
	}
}

// Normative escaping vectors, mirroring the table in the text format
// description: (raw value, encoded form).
const ESCAPE_VECTORS: &[(&str, &str)] = &[
	("plain",            "\"plain\""),
	("with \"quote\"",   "\"with \\\"quote\\\"\""),
	("back\\slash",      "\"back\\\\slash\""),
	("trailing\\",       "\"trailing\\\\\""),
	("two\\\\slashes",   "\"two\\\\\\\\slashes\""),
	("line\nbreak",      "\"line\\nbreak\""),
	("tab\there",        "\"tab\\there\""),
	("quote\"then\\",    "\"quote\\\"then\\\\\""),
	("\\\"",             "\"\\\\\\\"\""),
	("unicode: \u{e5}\u{e4}\u{f6}", "\"unicode: \u{e5}\u{e4}\u{f6}\""),
	("",                 "\"\""),
];

fn lex_one_string(encoded: &str) -> Option<String> {
	let src = format!("@T o {{ f: {} }}", encoded);
	match lex_file(&src).get("o") {
		Some(LexedData::Object { kv, .. }) => match kv.get("f") {
			Some(LexedData::StringLiteral(s)) => Some(s.clone()),
			_ => None,
		},
		_ => None,
	}
}

#[test]
fn test_string_escapes_encode() {
	for (raw, encoded) in ESCAPE_VECTORS {
		assert_eq!(&escape_string(raw), encoded, "encoding {:?}", raw);
	}
}

#[test]
fn test_string_escapes_decode() {
	for (raw, encoded) in ESCAPE_VECTORS {
		assert_eq!(lex_one_string(encoded).as_deref(), Some(*raw), "decoding {:?}", encoded);
	}
}

#[test]
fn test_string_escapes_roundtrip() {
	for (raw, _) in ESCAPE_VECTORS {
		let once = escape_string(raw);
		assert_eq!(lex_one_string(&once).as_deref(), Some(*raw), "roundtrip {:?}", raw);
	}
}

#[test]
fn test_legacy_escapes_accepted_but_never_emitted() {
	// \uXXXX carries bytes of the original UTF-8, so a run reassembles into one
	// char: U+00E5 is C3 A5 in UTF-8.
	assert_eq!(lex_one_string("\"\\u00c3\\u00a5\"").as_deref(), Some("\u{e5}"));
	assert_eq!(lex_one_string("\"pre \\u00c3\\u00a5 post\"").as_deref(), Some("pre \u{e5} post"));
	// A lone \u00e5 is the Latin-1 byte, not UTF-8, so it is malformed legacy
	// data. Reject it rather than emit a replacement character.
	assert_eq!(lex_one_string("\"\\u00e5\""), None);
	// Newline is newline: a legacy \r escape folds into one.
	assert_eq!(lex_one_string("\"a\\rb\"").as_deref(), Some("a\nb"));
	// ...and neither form is ever produced again.
	assert!(!escape_string("\u{e5}\r\n\r").contains("\\u"));
	assert!(!escape_string("\u{e5}\r\n\r").contains("\\r"));
	// CRLF and lone CR both normalise to a single \n.
	assert_eq!(escape_string("a\r\nb\rc"), "\"a\\nb\\nc\"");
}

#[test]
fn test_invalid_escape_is_rejected_not_guessed() {
	assert_eq!(lex_one_string("\"bad \\q escape\""), None);
	assert_eq!(lex_one_string("\"short \\u00\""), None);
	assert_eq!(lex_one_string("\"unterminated"), None);
}

#[test]
fn arrays_skip_comments_and_keep_the_rest() {
	let r = parse_array("[1, 2 # note\n, \"x\"] tail");
	match r.data {
		LexedData::Array(v) => {
			assert_eq!(v.len(), 3);
			assert_eq!(v[0].to_string(), "1");
			assert_eq!(v[2].to_string(), "\"x\"");
		}
		_ => panic!("expected an array"),
	}
	assert_eq!(r.cont, " tail");
}

#[test]
fn unclosed_array_is_empty_with_nothing_left() {
	let r = parse_array("[1, 2");
	assert!(matches!(r.data, LexedData::Empty));
	assert_eq!(r.cont, "");
}

#[test]
fn object_fields_and_accessors() {
	let r = parse_object_data("{ a: 12, b = true, c: \"txt\", d: -7x } rest");
	assert_eq!(r.cont, " rest");
	match &r.data {
		LexedData::Object { kv, .. } => {
			assert_eq!(get_int(kv.get("a"), 5), 12);
			assert_eq!(get_int(kv.get("missing"), 5), 5);
			assert_eq!(get_int(kv.get("d"), 5), 0);
			assert_eq!(get_int(kv.get("c"), 5), 0);
			assert!(get_bool(kv.get("b"), false));
			assert!(!get_bool(kv.get("a"), true));
			assert!(get_bool(kv.get("zz"), true));
			assert_eq!(get_string(kv.get("c"), "def"), "txt");
			assert_eq!(get_string(kv.get("a"), "def"), "12");
			assert_eq!(get_string(kv.get("q"), "def"), "def");
		}
		_ => panic!("expected an object"),
	}
}

#[test]
fn header_objects_render_back() {
	let objs = lex_file("@Main main/obj { Stuff: @Sub id-name { Value: \"128\" } }");
	match objs.get("main/obj") {
		Some(d) => assert_eq!(d.to_string(), "@Main main/obj {Stuff:@Sub id-name {Value:\"128\",},}"),
		None => panic!("missing object"),
	}
}

#[test]
fn escaped_literals_are_one_line() {
    let e = escape_string("a\r\nb\rc\nd\te");
    assert_eq!(e, "\"a\\nb\\nc\\nd\\te\"");
    assert!(!e.contains('\n') && !e.contains('\r') && !e.contains('\t'));
}
