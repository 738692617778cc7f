use tgapi::text::{
    chars_of, is_whitespace, parse_u32_radix, push_decimal, same_chars, split_slice, string_of,
    tokens_of, trim_slice,
};
use tgapi::tl_parse::id_source_of;

fn chars(s: &str) -> Vec<char> {
    s.chars().collect()
}

fn text(v: &[char]) -> String {
    v.iter().collect()
}

#[test]
fn whitespace_is_unicode_white_space() {
    assert!(is_whitespace(' '));
    assert!(is_whitespace('\n'));
    assert!(is_whitespace('\u{3000}'));
    assert!(is_whitespace('\u{85}'));
    assert!(!is_whitespace('\u{200B}'));
    assert!(!is_whitespace('a'));
}

#[test]
fn trims_both_ends() {
    let s = chars("\t  a b \u{a0}\n");
    assert_eq!(text(trim_slice(&s)), "a b");
    assert_eq!(text(trim_slice(&chars("   "))), "");
}

#[test]
fn splits_like_str_split() {
    let s = chars("a.b..c.");
    let parts: Vec<String> = split_slice(&s, '.').iter().map(|p| text(p)).collect();
    assert_eq!(parts, vec!["a", "b", "", "c", ""]);
    let parts: Vec<String> = split_slice(&chars(""), '.').iter().map(|p| text(p)).collect();
    assert_eq!(parts, vec![""]);
}

#[test]
fn tokens_like_split_whitespace() {
    let s = chars("  x:int \n y:long  ");
    let words: Vec<String> = tokens_of(&s).iter().map(|p| text(p)).collect();
    assert_eq!(words, vec!["x:int", "y:long"]);
    assert!(tokens_of(&chars(" \t ")).is_empty());
}

#[test]
fn parses_numbers_like_from_str_radix() {
    assert_eq!(parse_u32_radix(&chars("dde8a54c"), 16), Some(0xdde8a54c));
    assert_eq!(parse_u32_radix(&chars("+FF"), 16), Some(255));
    assert_eq!(parse_u32_radix(&chars("4294967295"), 10), Some(u32::MAX));
    assert_eq!(parse_u32_radix(&chars("4294967296"), 10), None);
    assert_eq!(parse_u32_radix(&chars("1ffffffff"), 16), None);
    assert_eq!(parse_u32_radix(&chars(""), 10), None);
    assert_eq!(parse_u32_radix(&chars("+"), 10), None);
    assert_eq!(parse_u32_radix(&chars("-1"), 10), None);
    assert_eq!(parse_u32_radix(&chars("12a"), 10), None);
}

#[test]
fn writes_decimal() {
    let mut s = String::from("n=");
    push_decimal(&mut s, 0);
    assert_eq!(s, "n=0");
    let mut s = String::new();
    push_decimal(&mut s, 65535);
    assert_eq!(s, "65535");
}

#[test]
fn converts_between_str_and_chars() {
    let v = chars_of("héllo");
    assert_eq!(v, vec!['h', 'é', 'l', 'l', 'o']);
    assert_eq!(string_of(&v), "héllo");
    assert!(same_chars(&v, &chars("héllo")));
    assert!(!same_chars(&v, &chars("hello")));
}

#[test]
fn id_source_is_normalized() {
    assert_eq!(
        text(&id_source_of(&chars("msgs_ack msg_ids:Vector<long> = MsgsAck"))),
        "msgs_ack msg_ids:Vector long = MsgsAck"
    );
    assert_eq!(
        text(&id_source_of(&chars("invokeAfterMsg {X:Type} msg_id:long query:!X = X"))),
        "invokeAfterMsg X:Type msg_id:long query:!X = X"
    );
    assert_eq!(
        text(&id_source_of(&chars("a flags:# b:flags.0?true c:bytes d:flags.1?bytes = A"))),
        "a flags:# c:string d:flags.1?string = A"
    );
}
