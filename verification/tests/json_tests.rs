use casper_shot::json::{quote, Json, Parser};

fn number_of(v: &Json) -> Option<f64> {
    v.as_number().map(|t| t.parse::<f64>().unwrap())
}

#[test]
fn parse_un_objet_plat() {
    let v = Json::parse(r#"{"hotkey": "ctrl+space", "n": 42, "ok": true, "nil": null}"#).unwrap();
    assert_eq!(v.get("hotkey").unwrap().as_str(), Some("ctrl+space"));
    assert_eq!(number_of(v.get("n").unwrap()), Some(42.0));
    assert!(matches!(v.get("ok").unwrap(), &Json::Bool(true)));
    assert!(matches!(v.get("nil").unwrap(), &Json::Null));
}

#[test]
fn parse_echappements_et_unicode() {
    let v = Json::parse(r#""line1\nline2\té😀\ud83d\ude00""#).unwrap();
    assert_eq!(v.as_str().unwrap(), "line1\nline2\t\u{00e9}\u{1F600}\u{1F600}");
}

#[test]
fn parse_ignore_un_bom_utf8_en_tete() {
    let v = Json::parse("\u{FEFF}{\"quality\": 90}").unwrap();
    assert_eq!(number_of(v.get("quality").unwrap()), Some(90.0));
}

#[test]
fn rejette_json_mal_forme() {
    assert!(Json::parse("{").is_err());
    assert!(Json::parse("not json").is_err());
    assert!(Json::parse(r#"{"a": 1,}"#).is_err());
    assert!(Json::parse("[1] 2").is_err());
}

#[test]
fn rejette_une_imbrication_trop_profonde_sans_planter() {
    let depth = 200_000;
    let text = "[".repeat(depth) + &"]".repeat(depth);
    assert!(Json::parse(&text).is_err());
}

#[test]
fn quote_puis_parse_restitue_la_chaine() {
    let s = "C:\\Users\\\"Test\"\n\u{1}é";
    assert_eq!(Json::parse(&quote(s)).unwrap().as_str(), Some(s));
}

#[test]
fn imbrication_de_soixante_quatre_niveaux_acceptee() {
    let ok = "[".repeat(64) + &"]".repeat(64);
    assert!(Json::parse(&ok).is_ok());
    let too_deep = "[".repeat(65) + &"]".repeat(65);
    assert!(Json::parse(&too_deep).is_err());
}

#[test]
fn cle_repetee_garde_la_derniere_valeur() {
    let v = Json::parse(r#"{"a": 1, "b": 2, "a": "x"}"#).unwrap();
    assert_eq!(v.get("a").unwrap().as_str(), Some("x"));
    match &v {
        Json::Object(members) => {
            assert_eq!(members.len(), 2);
            assert_eq!(members[0].0, "a");
            assert_eq!(members[1].0, "b");
        }
        _ => panic!("not an object"),
    }
}

#[test]
fn quote_echappe_les_caracteres_de_controle() {
    assert_eq!(quote("a\"b\\c\n\r\t\u{1f}"), "\"a\\\"b\\\\c\\n\\r\\t\\u001f\"");
    assert_eq!(quote(""), "\"\"");
}

#[test]
fn nombres_et_litteraux() {
    let v = Json::parse(" [ -1.5e3 , 0 , true , false , null , {} , [] ] ").unwrap();
    match &v {
        Json::Array(items) => {
            assert_eq!(items.len(), 7);
            assert_eq!(items[0].as_number(), Some("-1.5e3"));
            assert_eq!(items[1].as_number(), Some("0"));
            assert!(matches!(items[2], Json::Bool(true)));
            assert!(matches!(items[3], Json::Bool(false)));
            assert!(matches!(items[4], Json::Null));
            assert!(matches!(&items[5], Json::Object(m) if m.is_empty()));
            assert!(matches!(&items[6], Json::Array(a) if a.is_empty()));
        }
        _ => panic!("not an array"),
    }
    assert_eq!(Json::parse("01").unwrap().as_number(), Some("01"));
    assert_eq!(Json::parse("1.").unwrap().as_number(), Some("1."));
    assert_eq!(Json::parse("-.5").unwrap().as_number(), Some("-.5"));
    assert!(Json::parse("-").is_err());
    assert!(Json::parse(".").is_err());
    assert!(Json::parse("1e").is_err());
    assert!(Json::parse("tru").is_err());
    assert!(Json::parse("\"\\ud800\"").is_err());
}

#[test]
fn lecteur_pas_a_pas() {
    let mut p = Parser { text: "  ab12x".chars().collect(), pos: 0, depth: 0 };
    p.skip_ws();
    assert_eq!(p.pos, 2);
    assert_eq!(p.peek(), Some('a'));
    assert_eq!(p.bump(), Some('a'));
    assert!(p.expect('b').is_ok());
    p.skip_digits();
    assert_eq!(p.pos, 6);
    assert_eq!(p.next_char(), Some('x'));
    assert_eq!(p.next_char(), None);
    assert!(p.expect('y').is_err());
    assert_eq!(p.pos, 7);
    let mut q = Parser { text: "ab".chars().collect(), pos: 0, depth: 0 };
    assert!(q.expect('x').is_err());
    assert_eq!(q.pos, 1);
}

#[test]
fn lecture_de_hex4_et_de_chaine() {
    let mut p = Parser { text: "00e9\"a\\u00e9\\\"\"".chars().collect(), pos: 0, depth: 0 };
    assert_eq!(p.parse_hex4().unwrap(), 0xe9);
    assert_eq!(p.parse_string().unwrap(), "aé\"");
    let mut bad = Parser { text: "0x12".chars().collect(), pos: 0, depth: 0 };
    assert!(bad.parse_hex4().is_err());
}
