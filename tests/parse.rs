use cfg_mgr::config::{from_lines, parse_line, CfgData, ConfigMap};
use cfg_mgr::number::is_number_text;
use cfg_mgr::text::to_chars;

fn read(text: &str) -> ConfigMap {
    let lines: Vec<String> = text.lines().map(String::from).collect();
    from_lines(&lines)
}

fn numbers(d: &CfgData) -> Vec<f64> {
    d.numeric.iter().map(|t| t.parse::<f64>().unwrap()).collect()
}

fn texts(d: &CfgData) -> Vec<&str> {
    d.numeric.iter().map(|t| t.as_str()).collect()
}

#[test]
fn end_to_end_example() {
    let m = read(
        "# This is a comment\n\
         foo = 3.1415\n\
         bar = 1e-3 # comment\n\
         foobar = 3.1415, 1e-3 # multiple arguments are allowed\n\
         \n\
         path = some/path/example.txt # this can't be parsed as f64 so it's a string\n",
    );
    assert_eq!(m.len(), 4);
    let foo = m.get("foo").unwrap();
    assert_eq!(numbers(foo), vec![3.1415]);
    assert_eq!(foo.string, "");
    let bar = m.get("bar").unwrap();
    assert_eq!(numbers(bar), vec![1e-3]);
    assert_eq!(bar.string, "");
    let foobar = m.get("foobar").unwrap();
    assert_eq!(numbers(foobar), vec![3.1415, 1e-3]);
    assert_eq!(foobar.string, "");
    let path = m.get("path").unwrap();
    assert!(path.numeric.is_empty());
    assert_eq!(path.string, "some/path/example.txt");
}

#[test]
fn number_list_in_order() {
    let m = read("k = 1, -2.5E10 ,3.,  .5");
    let k = m.get("k").unwrap();
    assert_eq!(texts(k), vec!["1", "-2.5E10", "3.", ".5"]);
    assert_eq!(numbers(k), vec![1.0, -2.5e10, 3.0, 0.5]);
    assert_eq!(k.string, "");
}

#[test]
fn single_number() {
    let m = read("x=  -2.5E10  ");
    let x = m.get("x").unwrap();
    assert_eq!(texts(x), vec!["-2.5E10"]);
    assert_eq!(x.string, "");
}

#[test]
fn single_text() {
    let m = read("name =  hello world  ");
    let v = m.get("name").unwrap();
    assert!(v.numeric.is_empty());
    assert_eq!(v.string, "hello world");
}

#[test]
fn list_with_bad_item_falls_back_to_string() {
    let m = read("a = 1, two, 3");
    let a = m.get("a").unwrap();
    assert!(a.numeric.is_empty());
    assert_eq!(a.string, "1, two, 3");
}

#[test]
fn list_with_empty_item_falls_back_to_string() {
    let m = read("a = 1,,2");
    let a = m.get("a").unwrap();
    assert!(a.numeric.is_empty());
    assert_eq!(a.string, "1,,2");
}

#[test]
fn lines_without_equals_give_nothing() {
    let m = read("just some text\n\n   \n# a comment\nnumbers 1, 2, 3");
    assert_eq!(m.len(), 0);
    assert!(parse_line("no equals here").is_none());
    assert!(parse_line("").is_none());
}

#[test]
fn equals_only_in_comment_gives_nothing() {
    assert!(parse_line("key # = 5").is_none());
    assert!(parse_line("# a = 1").is_none());
}

#[test]
fn comment_text_is_discarded() {
    let m = read("a = 1 # b = 2, x");
    assert_eq!(m.len(), 1);
    let a = m.get("a").unwrap();
    assert_eq!(texts(a), vec!["1"]);
    assert_eq!(a.string, "");
    assert!(m.get("b").is_none());
}

#[test]
fn later_line_replaces_earlier() {
    let m = read("k = 1, 2\nk = text\nother = 3");
    let k = m.get("k").unwrap();
    assert!(k.numeric.is_empty());
    assert_eq!(k.string, "text");
    let m = read("k = text\nk = 4");
    let k = m.get("k").unwrap();
    assert_eq!(texts(k), vec!["4"]);
    assert_eq!(k.string, "");
    assert_eq!(m.len(), 1);
}

#[test]
fn several_equals_signs_read_each_segment() {
    let (key, v) = parse_line("a = 1 = x").unwrap();
    assert_eq!(key, "a");
    assert_eq!(texts(&v), vec!["1"]);
    assert_eq!(v.string, "x");

    let (_, v) = parse_line("a = 1 = 2").unwrap();
    assert_eq!(texts(&v), vec!["1", "2"]);

    let (_, v) = parse_line("a = 1 = x,3").unwrap();
    assert!(v.numeric.is_empty());
    assert_eq!(v.string, "x,3");

    let (_, v) = parse_line("a = y = 1, 2").unwrap();
    assert_eq!(texts(&v), vec!["1", "2"]);
    assert_eq!(v.string, "y");
}

#[test]
fn key_and_value_are_trimmed() {
    let (key, v) = parse_line("\t  some key \u{3000}=\u{a0} value text \r").unwrap();
    assert_eq!(key, "some key");
    assert_eq!(v.string, "value text");
}

#[test]
fn empty_key_and_empty_value() {
    let (key, v) = parse_line(" = 5").unwrap();
    assert_eq!(key, "");
    assert_eq!(texts(&v), vec!["5"]);
    let (key, v) = parse_line("k =   ").unwrap();
    assert_eq!(key, "k");
    assert!(v.numeric.is_empty());
    assert_eq!(v.string, "");
}

#[test]
fn non_ascii_text_survives() {
    let (key, v) = parse_line("clé = héllo, wörld # ünïcode").unwrap();
    assert_eq!(key, "clé");
    assert!(v.numeric.is_empty());
    assert_eq!(v.string, "héllo, wörld");
}

#[test]
fn empty_map() {
    let m = ConfigMap::new();
    assert_eq!(m.len(), 0);
    assert!(m.get("x").is_none());
    assert!(m.into_entries().is_empty());
}

#[test]
fn insert_replaces() {
    let mut m = ConfigMap::new();
    m.insert(String::from("a"), CfgData { numeric: vec![], string: String::from("x") });
    m.insert(String::from("b"), CfgData { numeric: vec![String::from("1")], string: String::new() });
    m.insert(String::from("a"), CfgData { numeric: vec![], string: String::from("y") });
    assert_eq!(m.len(), 2);
    assert_eq!(m.get("a").unwrap().string, "y");
    let mut keys: Vec<String> = m.into_entries().into_iter().map(|(k, _)| k).collect();
    keys.sort();
    assert_eq!(keys, vec!["a", "b"]);
}

#[test]
fn number_texts_agree_with_float_parser() {
    let cases = [
        "0", "42", "-7", "+7", "3.1415", "1e-3", "1E+3", "-2.5E10", ".5", "5.", "5.e3", ".e3",
        ".", "", "+", "-", "e5", "1e", "1e+", "1.2.3", "1_000", " 1", "1 ", "0x10", "inf",
        "INF", "-inf", "+Infinity", "infinity", "infinit", "nan", "NaN", "-nan", "nana",
        "1,2", "1d", "١", "１", "++1", "1e5e5", "1.5e-07", "00012", "e", "E",
    ];
    for case in cases {
        let cs = to_chars(case);
        let ours = is_number_text(&cs, 0, cs.len());
        let std_ok = case.parse::<f64>().is_ok();
        assert_eq!(ours, std_ok, "text {:?}", case);
    }
}

#[test]
fn number_text_in_a_range() {
    let cs = to_chars("x=12.5;");
    assert!(is_number_text(&cs, 2, 6));
    assert!(!is_number_text(&cs, 0, 6));
    assert!(!is_number_text(&cs, 2, 7));
}

#[test]
fn chars_of_text() {
    assert_eq!(to_chars("añb"), vec!['a', 'ñ', 'b']);
    assert!(to_chars("").is_empty());
}
