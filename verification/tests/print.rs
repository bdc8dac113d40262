use rusty_shark::cli::{Args, OutputMode};
use rusty_shark::dissect::Summary;
use rusty_shark::field::{extract, Node, Value};
use rusty_shark::print::{format_fields, format_line, frame_node, rel_delta, FrameMeta};

fn meta(number: u64, rel_time: &str) -> FrameMeta {
    FrameMeta {
        number,
        rel_time: rel_time.to_string(),
    }
}

fn summary(src: &str, dst: &str) -> Summary {
    Summary {
        src: src.to_string(),
        dst: dst.to_string(),
        protocol: "RoCE",
        info: "RC Acknowledge".to_string(),
        length: 62,
    }
}

fn args() -> Args {
    Args {
        read_file: "-".to_string(),
        count: None,
        jobs: 0,
        batch: 4096,
        no_parallel: false,
        quiet: false,
        verbose: false,
        fields: Vec::new(),
        display_filter: None,
        statistics: None,
        nvme: false,
    }
}

#[test]
fn a_summary_line_has_aligned_columns() {
    assert_eq!(
        format_line(&meta(2, "1.001000"), &summary("10.0.0.2", "10.0.0.1")),
        "    2    1.001000 10.0.0.2        \u{2192} 10.0.0.1        RoCE      62 RC Acknowledge"
    );
}

#[test]
fn wide_columns_push_the_line_out() {
    let line = format_line(&meta(1234567, "-1234567.000001"), &summary("fe80::1234:5678:9abc", "x"));
    assert_eq!(
        line,
        "1234567 -1234567.000001 fe80::1234:5678:9abc \u{2192} x               RoCE      62 RC Acknowledge"
    );
}

#[test]
fn the_frame_layer_tells_both_lengths() {
    let n = frame_node(&meta(7, "0.500000"), 1500, 96);
    assert_eq!(
        n.text,
        "Frame 7: 1500 bytes on wire (12000 bits), 96 bytes captured (768 bits)"
    );
    assert_eq!(n.children[1].text, "Frame Length: 1500 bytes");
    assert_eq!(n.children[2].text, "Time since reference: 0.500000 seconds");
    let tree = vec![n];
    assert_eq!(extract(&tree, "frame.number"), Some(&Value::Uint(7)));
    assert_eq!(extract(&tree, "frame.len"), Some(&Value::Uint(1500)));
    assert_eq!(extract(&tree, "frame.time_relative"), Some(&Value::Str("0.500000".into())));
}

#[test]
fn fields_are_separated_by_tabs() {
    let mut n = Node::proto("P");
    n.add("a", Value::Uint(5), "");
    n.add("b", Value::Str("text".into()), "");
    let tree = vec![n];
    let names = |ns: &[&str]| -> Vec<String> { ns.iter().map(|n| n.to_string()).collect() };
    assert_eq!(format_fields(&tree, &names(&["a", "missing", "b"])), "5\t\ttext");
    assert_eq!(format_fields(&tree, &names(&["b"])), "text");
    assert_eq!(format_fields(&tree, &names(&[])), "");
}

#[test]
fn times_are_relative_to_a_reference() {
    assert_eq!(rel_delta(10, 5, 7, 9), (3, -4));
    assert_eq!(rel_delta(0, 0, u32::MAX, u32::MAX), (-4294967295, -4294967295));
}

#[test]
fn fields_come_before_verbose() {
    let mut a = args();
    assert_eq!(a.output_mode(), OutputMode::Summary);
    a.verbose = true;
    assert_eq!(a.output_mode(), OutputMode::Verbose);
    a.fields.push("ip.src".to_string());
    assert_eq!(a.output_mode(), OutputMode::Fields);
}
