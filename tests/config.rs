use rngix::config::{parse_line, RouteTable};

fn table(lines: &[&str]) -> RouteTable {
    let lines: Vec<String> = lines.iter().map(|l| l.to_string()).collect();
    RouteTable::from_lines(&lines)
}

#[test]
fn parses_plain_line() {
    assert_eq!(parse_line("8080->3000"), Some((8080, 3000)));
}

#[test]
fn parses_line_with_white_space() {
    assert_eq!(parse_line("  8080 -> 3000  "), Some((8080, 3000)));
    assert_eq!(parse_line("\t8080\t->\t3000\r\n"), Some((8080, 3000)));
}

#[test]
fn trims_unicode_white_space() {
    assert_eq!(parse_line("\u{a0}8080\u{2003}->\u{3000}3000\u{85}"), Some((8080, 3000)));
}

#[test]
fn parses_plus_sign_and_leading_zeros() {
    assert_eq!(parse_line("+8080->+3000"), Some((8080, 3000)));
    assert_eq!(parse_line("0008080->03000"), Some((8080, 3000)));
    assert_eq!(parse_line("0->0"), Some((0, 0)));
}

#[test]
fn port_bounds() {
    assert_eq!(parse_line("65535->1"), Some((65535, 1)));
    assert_eq!(parse_line("65536->1"), None);
    assert_eq!(parse_line("1->70000"), None);
    assert_eq!(parse_line("1->99999999999999999999"), None);
}

#[test]
fn rejects_malformed_lines() {
    assert_eq!(parse_line(""), None);
    assert_eq!(parse_line("8080 3000"), None);
    assert_eq!(parse_line("8080->"), None);
    assert_eq!(parse_line("->3000"), None);
    assert_eq!(parse_line("8080 - > 3000"), None);
    assert_eq!(parse_line("8080->->3000"), None);
    assert_eq!(parse_line("8080->3000->3001"), None);
    assert_eq!(parse_line("-8080->3000"), None);
    assert_eq!(parse_line("8080->-3000"), None);
    assert_eq!(parse_line("+->3000"), None);
    assert_eq!(parse_line("80 80->3000"), None);
    assert_eq!(parse_line("8080->3000 # web"), None);
    assert_eq!(parse_line("abc->3000"), None);
}

#[test]
fn lines_with_same_source_merge() {
    let t = table(&["8080->3000", "8080->3001"]);
    assert_eq!(t.routes().len(), 1);
    assert_eq!(t.routes()[0].source, 8080);
    assert_eq!(t.routes()[0].destinations, vec![3000, 3001]);
    assert_eq!(t.lookup(8080), Some(&vec![3000, 3001]));
}

#[test]
fn merge_keeps_line_order_across_other_routes() {
    let t = table(&["9000->1", "8080->3001", "junk", "9000->2", "8080->3000", "9000->1"]);
    assert_eq!(t.routes().len(), 2);
    assert_eq!(t.lookup(9000), Some(&vec![1, 2, 1]));
    assert_eq!(t.lookup(8080), Some(&vec![3001, 3000]));
    assert_eq!(t.lookup(7000), None);
}

#[test]
fn empty_configuration_has_no_routes() {
    let t = table(&[]);
    assert!(t.routes().is_empty());
    let t = table(&["", "# nothing", "80 -> x"]);
    assert!(t.routes().is_empty());
}

#[test]
fn add_appends_to_route() {
    let mut t = RouteTable::new();
    assert_eq!(t.lookup(1), None);
    t.add(1, 10);
    t.add(2, 20);
    t.add(1, 11);
    assert_eq!(t.lookup(1), Some(&vec![10, 11]));
    assert_eq!(t.lookup(2), Some(&vec![20]));
    assert_eq!(t.routes().len(), 2);
}
