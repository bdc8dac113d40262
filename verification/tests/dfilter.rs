use rusty_shark::dfilter::{unexpected_token, Filter, Tok};
use rusty_shark::field::{Node, Value};

fn tree() -> Vec<Node> {
    let mut ip = Node::proto("Internet Protocol Version 4");
    ip.add("ip.src", Value::Str("10.0.0.1".into()), "Source: 10.0.0.1");
    ip.add("ip.dst", Value::Str("10.0.0.2".into()), "Destination: 10.0.0.2");
    ip.add("ip.dsfield.ecn", Value::Uint(3), "ECN: 3");

    let mut bth = Node::proto("InfiniBand BTH");
    bth.add("infiniband.bth.opcode", Value::Uint(0x0a), "Opcode");
    bth.add("infiniband.bth.destqp", Value::Uint(0x123), "DQP");
    bth.add("infiniband.bth.psn", Value::Uint(100), "PSN");

    vec![ip, bth]
}

fn holds(expr: &str) -> bool {
    Filter::compile(expr).unwrap().matches(&tree())
}

fn error(expr: &str) -> String {
    Filter::compile(expr).unwrap_err()
}

#[test]
fn numeric_equality_hex_and_decimal() {
    assert!(holds("infiniband.bth.destqp == 0x123"));
    assert!(holds("infiniband.bth.destqp == 291")); // 0x123
    assert!(!holds("infiniband.bth.destqp == 0x124"));
}

#[test]
fn numeric_ordering() {
    assert!(holds("infiniband.bth.psn >= 100"));
    assert!(holds("infiniband.bth.psn > 99"));
    assert!(!holds("infiniband.bth.psn > 100"));
    assert!(holds("infiniband.bth.psn < 101"));
}

#[test]
fn string_equality() {
    assert!(holds("ip.src == 10.0.0.1"));
    assert!(!holds("ip.src == 10.0.0.9"));
    assert!(holds("ip.dst != 10.0.0.1"));
}

#[test]
fn existence_and_protocol_prefix() {
    assert!(holds("infiniband.bth.psn"));
    assert!(holds("infiniband.bth")); // protocol-prefix existence
    assert!(!holds("tcp"));
    assert!(!holds("udp.srcport"));
}

#[test]
fn boolean_composition_and_precedence() {
    assert!(holds("ip.src == 10.0.0.1 && infiniband.bth.opcode == 0x0a"));
    assert!(holds("ip.src == 10.0.0.9 || infiniband.bth.psn == 100"));
    assert!(!holds("ip.src == 10.0.0.9 && infiniband.bth.psn == 100"));
    // && binds tighter than ||
    assert!(holds("tcp || ip.src == 10.0.0.1 && infiniband.bth"));
    assert!(holds("!tcp"));
    assert!(holds("not udp.srcport"));
}

#[test]
fn parentheses_override_precedence() {
    assert!(!holds("(tcp || ip.src == 10.0.0.1) && udp"));
    assert!(holds("(tcp || ip.src == 10.0.0.1) && infiniband.bth"));
}

#[test]
fn word_alias_operators() {
    assert!(holds("infiniband.bth.psn eq 100"));
    assert!(holds("infiniband.bth.psn ge 100 and ip.dsfield.ecn eq 3"));
}

#[test]
fn ecn_marked_shortcut() {
    assert!(holds("ip.dsfield.ecn == 3"));
}

#[test]
fn compile_errors() {
    assert!(Filter::compile("ip.src ==").is_err()); // missing value
    assert!(Filter::compile("(ip.src == 1").is_err()); // unbalanced paren
    assert!(Filter::compile("ip.src = 1").is_err()); // single =
    assert!(Filter::compile("&& ip").is_err()); // leading operator
}

#[test]
fn acknowledgements_or_notifications() {
    let f = Filter::compile("infiniband.bth.opcode == 0x11 || infiniband.bth.opcode == 0x81").unwrap();
    for (opcode, expected) in [(0x11, true), (0x81, true), (0x0a, false)] {
        let t = vec![Node::field("infiniband.bth.opcode", Value::Uint(opcode), "")];
        assert_eq!(f.matches(&t), expected);
    }
}

#[test]
fn every_message() {
    assert_eq!(error("ip.src == "), "expected a value after operator for 'ip.src'");
    assert_eq!(error("(ip.src == 1"), "expected ')'");
    assert_eq!(error("ip.src = 1"), "expected '==' (single '=' is not valid)");
    assert_eq!(error("&& ip"), "unexpected token And");
    assert_eq!(error("== ip"), "unexpected token Op(Eq)");
    assert_eq!(error(") ip"), "unexpected token RParen");
    assert_eq!(error("ip & tcp"), "expected '&&'");
    assert_eq!(error("ip | tcp"), "expected '||'");
    assert_eq!(error("ip == \"10"), "unterminated string literal");
    assert_eq!(error("ip ; tcp"), "unexpected character ';'");
    assert_eq!(error(""), "unexpected end of filter");
    assert_eq!(error("ip tcp"), "unexpected trailing input near token 2");
}

#[test]
fn a_stray_string_is_quoted_in_the_message() {
    assert_eq!(error("\"a\tb\""), "unexpected token Str(\"a\\tb\")");
    assert_eq!(
        unexpected_token(&Tok::Str("x".to_string()), "<x>"),
        "unexpected token Str(<x>)"
    );
    assert_eq!(unexpected_token(&Tok::Or, "ignored"), "unexpected token Or");
}

#[test]
fn numbers_in_values() {
    assert!(holds("infiniband.bth.psn == \" 100 \""));
    assert!(holds("infiniband.bth.psn == \"+100\""));
    assert!(holds("infiniband.bth.psn == 0X64"));
    assert!(!holds("infiniband.bth.psn == 0x"));
    assert!(!holds("infiniband.bth.psn == abc"));
    // Larger than any number: no relation holds, not even "not equal".
    assert!(!holds("infiniband.bth.psn != 18446744073709551616"));
    assert!(holds("infiniband.bth.psn != 18446744073709551615"));
}

#[test]
fn text_compares_by_characters() {
    assert!(holds("ip.src < 10.0.0.2"));
    assert!(holds("ip.src < 9"));
    assert!(!holds("ip.src > 10.0.0.1"));
    assert!(holds("ip.src le 10.0.0.1"));
}

#[test]
fn any_occurrence_satisfies_a_comparison() {
    let mut a = Node::proto("A");
    a.add("x.n", Value::Uint(1), "");
    a.add("x.n", Value::Uint(2), "");
    let t = vec![a];
    assert!(Filter::compile("x.n == 2").unwrap().matches(&t));
    assert!(Filter::compile("x.n != 2").unwrap().matches(&t));
    assert!(!Filter::compile("!(x.n == 2)").unwrap().matches(&t));
}

#[test]
fn an_empty_value_satisfies_no_comparison() {
    let t = vec![Node::field("e", Value::Empty, "")];
    assert!(Filter::compile("e").unwrap().matches(&t));
    assert!(!Filter::compile("e == 0").unwrap().matches(&t));
    assert!(!Filter::compile("e != 0").unwrap().matches(&t));
}

#[test]
fn negation_binds_tighter_than_and() {
    assert!(holds("!tcp && ip"));
    assert!(!holds("!(tcp || ip)"));
    assert!(holds("!!ip"));
}

#[test]
fn a_written_filter_compiles_back() {
    let spaced = Filter::compile("( ip.src == \"10.0.0.1\" && ( ! tcp ) ) ").unwrap();
    let tight = Filter::compile("ip.src==\"10.0.0.1\"&&!tcp").unwrap();
    assert!(spaced.matches(&tree()));
    assert!(tight.matches(&tree()));
    assert_eq!(format!("{:?}", spaced), format!("{:?}", tight.clone()));
}

#[test]
fn printed_values_find_their_packet_again() {
    for n in [0u64, 7, 10, 255, 65536, u64::MAX] {
        let t = vec![Node::field("n", Value::Uint(n), "")];
        let decimal = Filter::compile(&format!("n == {}", Value::Uint(n).to_string())).unwrap();
        assert!(decimal.matches(&t));
        let hexadecimal = Filter::compile(&format!("n == 0x{n:x}")).unwrap();
        assert!(hexadecimal.matches(&t));
    }
}

#[test]
fn filters_are_put_together() {
    let filters = [
        "ip.src == 10.0.0.1",
        "tcp",
        "ip.dsfield.ecn == 3 || tcp",
        "ip && udp",
        "!ip.src == \")\"",
    ];
    for a in filters {
        assert_eq!(holds(&format!("!({a})")), !holds(a));
        assert_eq!(holds(&format!("not ({a})")), !holds(a));
        for b in filters {
            assert_eq!(holds(&format!("({a}) && ({b})")), holds(a) && holds(b));
            assert_eq!(holds(&format!("({a}) and ({b})")), holds(a) && holds(b));
            assert_eq!(holds(&format!("({a}) || ({b})")), holds(a) || holds(b));
            assert_eq!(holds(&format!("({a}) or ({b})")), holds(a) || holds(b));
        }
    }
}
