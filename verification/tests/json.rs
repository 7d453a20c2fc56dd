use structio::text::valid_prefix_len;
use structio::json::finish_document;
use structio::json::{JsonStr, ReadEntry};
use structio::json::{minify_with, prettify_with, from_str_with, to_string_with};
use structio::json::{Keys, Read, ReadEnum, ReadObject, Parser, Variants, Writer};
use structio::{
    from_slice, from_str, minify, prettify, read_into, to_string, to_vec, write_into, AllowComments,
    ErrorCode, KeyMap, Options, Pretty, PrettyInlineArrays, RequireKeys, SkipNull, SkipUnknown,
    Standard,
};

/// A struct read and written as an object, with its impls written out.
#[derive(Default, Debug, PartialEq)]
struct Point {
    x: i32,
    label: Option<String>,
}

impl Keys for Point {
    fn keys() -> Vec<&'static str> {
        vec!["x", "label"]
    }

    fn key_map() -> KeyMap {
        KeyMap::build(&["x", "label"])
    }

    fn required() -> u64 {
        0
    }
}

impl<'de> ReadObject<'de> for Point {
    fn read_field<O: Options>(&mut self, index: usize, p: &mut Parser<'de, O>) -> Result<bool, ErrorCode> {
        if index == 0 {
            if !p.match_key("x") {
                return Ok(false);
            }
            p.colon()?;
            self.x.read(p)?;
            return Ok(true);
        }
        if index == 1 {
            if !p.match_key("label") {
                return Ok(false);
            }
            p.colon()?;
            self.label.read(p)?;
            return Ok(true);
        }
        Ok(false)
    }
}

impl<'de> Read<'de> for Point {
    fn read<O: Options>(&mut self, p: &mut Parser<'de, O>) -> Result<(), ErrorCode> {
        p.read_object(self)
    }
}

/// Write a point member by member, the way a struct's fields are written.
fn write_point<O: Options>(p: &Point) -> String {
    let mut w = Writer::<O>::new();
    let grew = w.open(b'{');
    w.member("\"x\":", &p.x);
    w.member("\"label\":", &p.label);
    w.close(b'}', grew);
    w.into_string()
}

#[test]
fn minify_removes_layout() {
    let out = minify("{\n  \"a\": [1, 2],\n  \"b\": {}\n}").unwrap();
    assert_eq!(out, r#"{"a":[1,2],"b":{}}"#);
}

#[test]
fn minify_keeps_string_contents() {
    assert_eq!(minify(r#"[ "a b" ]"#).unwrap(), r#"["a b"]"#);
}

#[test]
fn minify_refuses_missing_comma() {
    let e = minify("[1 2]").unwrap_err();
    assert_eq!(e.code, ErrorCode::UnexpectedCharacter);
    assert_eq!(e.index, 3);
}

#[test]
fn minify_drops_comments_when_allowed() {
    let out = minify_with::<AllowComments>("[1, /* two */ 2]").unwrap();
    assert_eq!(out, "[1,2]");
}

#[test]
fn prettify_lays_out_nested_values() {
    let out = prettify(r#"{"a":[1,2],"b":{}}"#).unwrap();
    assert_eq!(out, "{\n  \"a\": [\n    1,\n    2\n  ],\n  \"b\": {}\n}");
}

#[test]
fn prettify_reports_where_it_stopped() {
    let e = prettify(r#"{"a":}"#).unwrap_err();
    assert_eq!(e.code, ErrorCode::UnexpectedCharacter);
    assert_eq!(e.index, 5);
}

#[test]
fn prettify_keeps_arrays_inline_when_asked() {
    let out = prettify_with::<PrettyInlineArrays>(r#"{"v":[1,2,3]}"#).unwrap();
    assert_eq!(out, "{\n  \"v\": [1, 2, 3]\n}");
}

#[test]
fn prettify_under_a_compact_policy_minifies() {
    let out = prettify_with::<Standard>("{\n  \"a\": [1, 2]\n}").unwrap();
    assert_eq!(out, r#"{"a":[1,2]}"#);
    assert_eq!(minify("{\n  \"a\": [1, 2]\n}").unwrap(), out);
}

#[test]
fn integers_round_trip() {
    for v in [0u64, 1, 9, 10, 99, 12345, u64::MAX] {
        let text = to_string(&v);
        assert_eq!(text, v.to_string());
        assert_eq!(from_str::<u64>(&text).unwrap(), v);
    }
    for v in [0i64, -1, 42, i64::MIN, i64::MAX] {
        let text = to_string(&v);
        assert_eq!(text, v.to_string());
        assert_eq!(from_str::<i64>(&text).unwrap(), v);
    }
}

#[test]
fn integer_errors() {
    assert_eq!(from_str::<u64>("18446744073709551616").unwrap_err().code, ErrorCode::NumberOutOfRange);
    assert_eq!(from_str::<u8>("256").unwrap_err().code, ErrorCode::NumberOutOfRange);
    assert_eq!(from_str::<u64>("-1").unwrap_err().code, ErrorCode::NumberOutOfRange);
    assert_eq!(from_str::<u64>("x").unwrap_err().code, ErrorCode::ExpectedNumber);
    assert_eq!(from_str::<u64>("01").unwrap_err().code, ErrorCode::InvalidNumber);
    assert_eq!(from_str::<u64>("1.5").unwrap_err().code, ErrorCode::InvalidNumber);
    assert_eq!(from_str::<u64>("").unwrap_err().code, ErrorCode::UnexpectedEnd);
}

#[test]
fn booleans_and_null() {
    assert_eq!(to_string(&true), "true");
    assert_eq!(to_string(&false), "false");
    assert!(from_str::<bool>(" true ").unwrap());
    assert!(!from_str::<bool>("false").unwrap());
    assert_eq!(from_str::<bool>("tru").unwrap_err().code, ErrorCode::ExpectedTrue);
    assert_eq!(from_str::<Option<u64>>("null").unwrap(), None);
    assert_eq!(from_str::<Option<u64>>("7").unwrap(), Some(7));
    assert_eq!(to_string(&None::<u64>), "null");
}

#[test]
fn strings_escape_and_unescape() {
    let s = String::from("a\"b\\c\n\u{1}é");
    let text = to_string(&s);
    assert_eq!(text, "\"a\\\"b\\\\c\\n\\u0001é\"");
    assert_eq!(from_str::<String>(&text).unwrap(), s);
    assert_eq!(from_str::<String>(r#""\u00e9\ud83d\ude00""#).unwrap(), "é😀");
    assert_eq!(from_str::<String>("\"a\u{1}\"").unwrap_err().code, ErrorCode::ControlCharacterInString);
    assert_eq!(from_str::<String>(r#""\q""#).unwrap_err().code, ErrorCode::InvalidEscape);
    assert_eq!(from_str::<String>(r#""\ud800""#).unwrap_err().code, ErrorCode::InvalidSurrogate);
    assert_eq!(from_str::<String>("\"abc").unwrap_err().code, ErrorCode::UnexpectedEnd);
}

#[test]
fn borrowed_strings_refuse_escapes() {
    let text = String::from(r#""plain""#);
    assert_eq!(from_str::<&str>(&text).unwrap(), "plain");
    let escaped = String::from(r#""a\nb""#);
    assert_eq!(from_str::<&str>(&escaped).unwrap_err().code, ErrorCode::EscapeInBorrowedString);
}

#[test]
fn sequences_and_tuples() {
    let v: Vec<u64> = from_str("[1, 2 ,3]").unwrap();
    assert_eq!(v, vec![1, 2, 3]);
    assert_eq!(to_string(&v), "[1,2,3]");
    assert_eq!(to_string(&Vec::<u64>::new()), "[]");
    assert_eq!(from_str::<Vec<u64>>("[]").unwrap(), Vec::<u64>::new());
    let t: (u64, String) = from_str(r#"[5,"five"]"#).unwrap();
    assert_eq!(t, (5, String::from("five")));
    assert_eq!(to_string(&t), r#"[5,"five"]"#);
    assert_eq!(from_str::<(u64, u64)>("[1]").unwrap_err().code, ErrorCode::ArrayLengthMismatch);
    assert_eq!(from_str::<Vec<u64>>("[1,]").unwrap_err().code, ErrorCode::ExpectedNumber);
    assert_eq!(to_string_with::<Pretty, _>(&vec![1u64, 2]), "[\n  1,\n  2\n]");
}

#[test]
fn trailing_content_is_refused() {
    let e = from_str::<u64>("1 2").unwrap_err();
    assert_eq!(e.code, ErrorCode::TrailingContent);
    assert_eq!(e.index, 2);
}

#[test]
fn depth_is_limited() {
    let deep = String::from("{\"z\":") + &"[".repeat(300) + &"]".repeat(300) + "}";
    let e = from_str_with::<SkipUnknown, Point>(&deep).unwrap_err();
    assert_eq!(e.code, ErrorCode::ExceededMaxDepth);
    let shallow = String::from("{\"z\":") + &"[".repeat(200) + &"]".repeat(200) + "}";
    assert!(from_str_with::<SkipUnknown, Point>(&shallow).is_ok());
    assert_eq!(minify(&deep).unwrap(), deep);
}

#[test]
fn objects_read_and_write() {
    let p: Point = from_str(r#"{"x":1,"label":"a"}"#).unwrap();
    assert_eq!(p, Point { x: 1, label: Some(String::from("a")) });
    assert_eq!(write_point::<Standard>(&p), r#"{"x":1,"label":"a"}"#);
    let q: Point = from_str(r#" { "label" : null , "x" : -3 } "#).unwrap();
    assert_eq!(q, Point { x: -3, label: None });
    assert_eq!(write_point::<Pretty>(&q), "{\n  \"x\": -3,\n  \"label\": null\n}");
    assert_eq!(write_point::<SkipNull>(&q), r#"{"x":-3}"#);
}

#[test]
fn unknown_and_missing_keys() {
    let e = from_str::<Point>(r#"{"x":1,"extra":[2,3]}"#).unwrap_err();
    assert_eq!(e.code, ErrorCode::UnknownKey);
    let p = from_str_with::<SkipUnknown, Point>(r#"{"x":1,"extra":[2,3]}"#).unwrap();
    assert_eq!(p, Point { x: 1, label: None });
    let e = from_str_with::<RequireKeys, Point>(r#"{"x":1}"#).unwrap_err();
    assert_eq!(e.code, ErrorCode::MissingKey);
    assert_eq!(e.key, Some("label"));
    assert_eq!(from_str::<Point>("[]").unwrap_err().code, ErrorCode::ExpectedBrace);
}

#[test]
fn read_into_keeps_the_value() {
    let mut v: Vec<u64> = Vec::with_capacity(8);
    read_into(&mut v, "[4,5]").unwrap();
    assert_eq!(v, vec![4, 5]);
    let mut s = String::from("old");
    write_into(&v, &mut s);
    assert_eq!(s, "[4,5]");
    assert_eq!(to_vec(&v), b"[4,5]".to_vec());
}

#[test]
fn from_slice_checks_utf8() {
    let e = from_slice::<String>(b"\"a\xffb\"").unwrap_err();
    assert_eq!(e.code, ErrorCode::InvalidUtf8);
    assert_eq!(e.index, 2);
    assert_eq!(from_slice::<String>("\"é\"".as_bytes()).unwrap(), "é");
}

#[test]
fn compact_layout_equals_minify() {
    let docs = [
        "{\n  \"a\": [1, 2],\n  \"b\": {}\n}",
        r#"  [ true , false, null, -1.5e3, "x\"y\\" , { } , [ ] ]  "#,
        "\"lonely string\"",
        "\t42\n",
        r#"{"nested": {"deep": [[[{"k": "v \u00e9"}]]]}, "n": 0}"#,
    ];
    for doc in docs {
        let laid = prettify_with::<Standard>(doc).unwrap();
        assert_eq!(minify(doc).unwrap(), laid, "{doc:?}");
    }
    let commented = "[1, /* two */ 2] // done";
    assert_eq!(
        prettify_with::<AllowComments>(commented).unwrap(),
        minify_with::<AllowComments>(commented).unwrap()
    );
}

#[test]
fn floats_write_through_the_writer() {
    let mut w = Writer::<Standard>::new();
    let grew = w.open(b'[');
    for v in [1.5f64, -0.0, 1e300, f64::NAN, f64::INFINITY, 0.1] {
        w.write_f64(v.to_bits());
        w.raw(",");
    }
    w.write_f32(3.14f32.to_bits());
    w.raw(",");
    w.close(b']', grew);
    assert_eq!(w.into_string(), "[1.5,-0,1E300,null,null,0.1,3.14]");
}

#[test]
fn longest_valid_utf8_prefix() {
    assert_eq!(valid_prefix_len(b""), 0);
    assert_eq!(valid_prefix_len(b"plain"), 5);
    assert_eq!(valid_prefix_len(b"ab\xe2\x82"), 2);
    assert_eq!(valid_prefix_len(b"\xf0\x9f\x98\x80x\xff"), 5);
    assert_eq!(valid_prefix_len(b"\xed\xa0\x80"), 0);
    assert_eq!(valid_prefix_len(b"\xc0\x80"), 0);
    assert_eq!(valid_prefix_len(b"\xf4\x90\x80\x80"), 0);
    let mut state = 0x9E37_79B9_7F4A_7C15u64;
    for _ in 0..20_000 {
        let mut bytes = Vec::new();
        for _ in 0..8 {
            state ^= state << 13;
            state ^= state >> 7;
            state ^= state << 17;
            bytes.push((state >> 24) as u8);
        }
        let want = match std::str::from_utf8(&bytes) {
            Ok(s) => s.len(),
            Err(e) => e.valid_up_to(),
        };
        assert_eq!(valid_prefix_len(&bytes), want, "{bytes:x?}");
    }
}

#[test]
fn layout_changes_only_whitespace() {
    let docs = [
        r#"{"a":[1,2,{"b":[]}],"c":{},"d":"x y","e":-0.5e-3}"#,
        "  [ true , [ [ ] ] , null ]  ",
        "\"s\"",
        "7",
    ];
    for doc in docs {
        let expected = minify(doc).unwrap();
        for laid in [
            prettify(doc).unwrap(),
            prettify_with::<PrettyInlineArrays>(doc).unwrap(),
            prettify_with::<Standard>(doc).unwrap(),
        ] {
            assert_eq!(minify(&laid).unwrap(), expected, "{doc:?} -> {laid:?}");
        }
    }
    let commented = "[1, /* two */ {\"k\": 2}] // done";
    let laid = prettify_with::<AllowComments>(commented).unwrap();
    assert_eq!(minify(&laid).unwrap(), minify_with::<AllowComments>(commented).unwrap());
}

#[test]
fn finish_document_reports_what_follows_the_value() {
    let mut p = Parser::<Standard>::with_options("  7  ");
    p.skip_ws();
    let mut v = 0u64;
    let read = p.read(&mut v);
    assert_eq!(v, 7);
    assert!(finish_document(&mut p, read).is_ok());

    let mut p = Parser::<Standard>::with_options("7 x");
    let mut v = 0u64;
    let read = p.read(&mut v);
    let e = finish_document(&mut p, read).unwrap_err();
    assert_eq!((e.code, e.index), (ErrorCode::TrailingContent, 2));

    let mut p = Parser::<Standard>::with_options("[1]");
    let e = finish_document(&mut p, Err(ErrorCode::ExpectedQuote)).unwrap_err();
    assert_eq!((e.code, e.index), (ErrorCode::ExpectedQuote, 0));
}

#[test]
fn tuples_want_their_length() {
    assert_eq!(from_str::<(u64, u64)>("[]").unwrap_err().code, ErrorCode::ArrayLengthMismatch);
    assert_eq!(from_str::<(u64, u64, u64)>(" {").unwrap_err().code, ErrorCode::ExpectedBracket);
    assert_eq!(from_str::<(u64, bool)>("[3, true]").unwrap(), (3, true));
}

#[test]
fn string_bodies_borrow_unless_escaped() {
    let cases: [(&str, &str, bool, usize); 3] = [
        ("abc\"", "abc", true, 4),
        ("\\u00e9\\n\"", "\u{e9}\n", false, 9),
        ("\\ud83d\\ude00\"", "\u{1F600}", false, 13),
    ];
    for (s, want, borrowed, pos) in cases {
        let mut p = Parser::<Standard>::new(s);
        let got = p.read_string_body().unwrap();
        assert_eq!(got.as_str(), want);
        assert_eq!(matches!(got, structio::json::JsonStr::Borrowed(_)), borrowed, "{s:?}");
        assert_eq!(p.position(), pos);
    }
    assert!(matches!(Parser::<Standard>::new("\\ud800\"").read_string_body(), Err(ErrorCode::InvalidSurrogate)));
    assert!(matches!(Parser::<Standard>::new("\\x\"").read_string_body(), Err(ErrorCode::InvalidEscape)));
    assert!(matches!(Parser::<Standard>::new("abc").read_string_body(), Err(ErrorCode::UnexpectedEnd)));
}

#[test]
fn number_text_is_written_as_it_stands() {
    let mut w = Writer::<Standard>::new();
    w.write_number_str("-1.2345678901234567890123e400");
    assert_eq!(w.into_string(), "-1.2345678901234567890123e400");
}

#[test]
fn whole_documents_read_as_the_text_decides() {
    let mut v: u32 = 0;
    assert!(structio::json::read_into_with::<Standard, u32>(&mut v, " 7 \n").is_ok());
    assert_eq!(v, 7);
    let e = structio::json::read_into_with::<Standard, u32>(&mut v, "7 8").unwrap_err();
    assert_eq!((e.code, e.index), (ErrorCode::TrailingContent, 2));
    let e = structio::json::read_into_with::<Standard, u32>(&mut v, " x").unwrap_err();
    assert_eq!((e.code, e.index), (ErrorCode::ExpectedNumber, 1));
    assert_eq!(from_str::<u32>("   ").unwrap_err().code, ErrorCode::UnexpectedEnd);
    for n in [0u64, 7, 1234567890123, u64::MAX] {
        assert_eq!(from_str::<u64>(&to_string(&n)).unwrap(), n);
    }
    for n in [i64::MIN, -1, 0, 42, i64::MAX] {
        assert_eq!(from_str::<i64>(&to_string(&n)).unwrap(), n);
    }
    for b in [true, false] {
        assert_eq!(from_str::<bool>(&to_string_with::<Pretty, _>(&b)).unwrap(), b);
    }
    assert_eq!(from_str::<Option<u8>>("null").unwrap(), None);
    assert_eq!(from_str::<Option<u8>>(" 300").unwrap_err().code, ErrorCode::NumberOutOfRange);
}

#[test]
fn unknown_keys_are_refused_or_stepped_over() {
    let mut p = Parser::<Standard>::new("debug\":true}");
    assert!(matches!(p.unclaimed_key(), Err(ErrorCode::UnknownKey)));
    assert_eq!(p.position(), 0);
    let mut p = Parser::<SkipUnknown>::with_options("debug\" : [1, {\"a\": 2}] }");
    assert!(p.unclaimed_key().is_ok());
    assert_eq!(p.position(), 22);
    let mut p = Parser::<Standard>::new("deb");
    assert!(matches!(p.unclaimed_key(), Err(ErrorCode::UnexpectedEnd)));

    let s = r#"{"x":8080,"debug":true}"#;
    let e = from_str::<Point>(s).unwrap_err();
    assert_eq!((e.code, e.index), (ErrorCode::UnknownKey, 11));
    let p = from_str_with::<SkipUnknown, Point>(s).unwrap();
    assert_eq!(p.x, 8080);
    assert_eq!(from_str::<Point>(r#"{"x":8080,"deb"#).unwrap_err().code, ErrorCode::UnexpectedEnd);
}

#[test]
fn unknown_variant_names_are_refused_in_place() {
    let mut p = Parser::<Standard>::new("Circle\"");
    assert!(matches!(p.unclaimed_variant(), Err(ErrorCode::UnknownVariant)));
    assert_eq!(p.position(), 0);
    let mut p = Parser::<SkipUnknown>::with_options("Circle\"");
    assert!(matches!(p.unclaimed_variant(), Err(ErrorCode::UnknownVariant)));
    let mut p = Parser::<Standard>::new("Circ");
    assert!(matches!(p.unclaimed_variant(), Err(ErrorCode::UnexpectedEnd)));
}

#[test]
fn read_seq_counts_the_elements() {
    let cases: [(&str, Result<usize, ErrorCode>, usize); 5] = [
        ("[1, 2 ,3]", Ok(3), 9),
        (" [ ] ", Ok(0), 4),
        ("[1 2]", Err(ErrorCode::ExpectedComma), 3),
        ("[1", Err(ErrorCode::UnexpectedEnd), 2),
        ("{}", Err(ErrorCode::ExpectedBracket), 0),
    ];
    for (s, want, pos) in cases {
        let mut p = Parser::<Standard>::new(s);
        let mut v: Vec<u64> = Vec::new();
        assert_eq!(p.read_seq(&mut v), want, "{s:?}");
        assert_eq!(p.position(), pos, "{s:?}");
        if want == Ok(3) {
            assert_eq!(v, vec![1, 2, 3]);
        }
    }
}

#[test]
fn slices_read_as_their_text_does() {
    for s in ["7", " [1,2] ", "\"a\\u00e9\"", "{", "1 2"] {
        let a = from_slice::<Vec<u64>>(s.as_bytes()).map_err(|e| (e.code, e.index));
        let b = from_str::<Vec<u64>>(s).map_err(|e| (e.code, e.index));
        assert_eq!(a, b, "{s:?}");
        let a = from_slice::<String>(s.as_bytes()).map_err(|e| (e.code, e.index));
        let b = from_str::<String>(s).map_err(|e| (e.code, e.index));
        assert_eq!(a, b, "{s:?}");
    }
    let e = from_slice::<String>(b"\"a\xFF\"").unwrap_err();
    assert_eq!((e.code, e.index), (ErrorCode::InvalidUtf8, 2));
}

#[test]
fn minified_text_is_never_longer() {
    for s in ["{ \"a\" : [ 1 , 2 ] }", "[]", "  \"x y\"  ", "1"] {
        assert!(minify(s).unwrap().len() <= s.len());
    }
}

#[test]
fn optional_numbers_read_back() {
    for v in [None, Some(0u64), Some(99)] {
        assert_eq!(from_str::<Option<u64>>(&to_string(&v)).unwrap(), v);
    }
}

/// Collects each key a map hands over, and whether it borrowed.
struct Seen(Vec<(String, bool)>);

impl<'de> ReadEntry<'de> for Seen {
    fn entry<O: Options>(&mut self, key: JsonStr<'de>, p: &mut Parser<'de, O>) -> Result<(), ErrorCode> {
        let borrowed = matches!(key, JsonStr::Borrowed(_));
        self.0.push((key.as_str().to_string(), borrowed));
        let mut v = 0u64;
        v.read(p)
    }
}

#[test]
fn read_map_hands_over_each_key() {
    let mut p = Parser::<Standard>::new(r#"{"a":1,"b\u0041":2}"#);
    let mut seen = Seen(Vec::new());
    assert!(p.read_map(&mut seen).is_ok());
    assert_eq!(seen.0, vec![("a".to_string(), true), ("bA".to_string(), false)]);
    assert_eq!(p.position(), 19);
    let mut p = Parser::<Standard>::new(" { } ");
    let mut seen = Seen(Vec::new());
    assert!(p.read_map(&mut seen).is_ok());
    assert!(seen.0.is_empty());
}

/// An enum with a bare variant and one carrying a number.
#[derive(Debug, PartialEq)]
enum Shape {
    Empty,
    Sides(u64),
}

impl Variants for Shape {
    fn variants() -> Vec<&'static str> {
        vec!["Empty", "Sides"]
    }

    fn variant_map() -> KeyMap {
        KeyMap::build(&["Empty", "Sides"])
    }
}

impl<'de> ReadEnum<'de> for Shape {
    fn read_name<O: Options>(&mut self, index: usize, p: &mut Parser<'de, O>) -> Result<bool, ErrorCode> {
        if index == 0 && p.match_key("Empty") {
            *self = Shape::Empty;
            return Ok(true);
        }
        Ok(false)
    }

    fn read_payload<O: Options>(&mut self, index: usize, p: &mut Parser<'de, O>) -> Result<bool, ErrorCode> {
        if index == 1 && p.match_key("Sides") {
            p.colon()?;
            let mut n = 0u64;
            n.read(p)?;
            *self = Shape::Sides(n);
            return Ok(true);
        }
        Ok(false)
    }
}

#[test]
fn enums_read_a_name_or_one_member() {
    let ok: [(&str, Shape, usize); 2] = [("\"Empty\"", Shape::Empty, 7), (r#"{"Sides":3}"#, Shape::Sides(3), 11)];
    for (s, want, pos) in ok {
        let mut v = Shape::Sides(0);
        let mut p = Parser::<Standard>::new(s);
        assert_eq!(p.read_enum(&mut v), Ok(()), "{s:?}");
        assert_eq!((v, p.position()), (want, pos));
    }
    let bad: [(&str, ErrorCode, usize); 5] = [
        ("\"Circle\"", ErrorCode::UnknownVariant, 1),
        ("{}", ErrorCode::ExpectedVariant, 0),
        (r#"{"Sides":3,"Sides":4}"#, ErrorCode::ExpectedVariant, 0),
        ("1", ErrorCode::ExpectedVariant, 0),
        ("", ErrorCode::UnexpectedEnd, 0),
    ];
    for (s, code, pos) in bad {
        let mut v = Shape::Empty;
        let mut p = Parser::<Standard>::new(s);
        assert_eq!(p.read_enum(&mut v), Err(code), "{s:?}");
        assert_eq!(p.position(), pos, "{s:?}");
    }
}

#[test]
fn required_keys_must_all_appear() {
    let e = from_str_with::<RequireKeys, Point>(r#"{"x":1}"#).unwrap_err();
    assert_eq!((e.code, e.index, e.key), (ErrorCode::MissingKey, 0, Some("label")));
    assert_eq!(from_str::<Point>(r#"{"x":1}"#).unwrap().x, 1);
}
