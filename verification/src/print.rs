//! Rendering of packets: summary lines, the frame layer, extracted fields.

use vstd::prelude::*;

use crate::dissect::Summary;
#[allow(unused_imports)]
use crate::dissect::SummaryView;
use crate::field::{extract, Node};
#[allow(unused_imports)]
use crate::field::{
    entries,
    first,
    is_layer,
    layer,
    named,
    num,
    shows_number,
    shows_text,
    txt,
    value_text,
    views,
    NodeView,
};
use crate::text::{
    align_left,
    align_right,
    cat2,
    cat3,
    cat5,
    cat6,
    dec,
    dec_wide,
    join,
};
#[allow(unused_imports)]
use crate::text::{
    dec_text,
    flush_left,
    flush_right,
    joined,
    law_left_aligned_starts_the_column,
    law_right_aligned_ends_the_column,
    strings,
};

verus! {

/// What is known of a frame besides its bytes: its number, from 1 on, and its
/// time since the first frame, in seconds with six decimals.
#[derive(Debug)]
pub struct FrameMeta {
    pub number: u64,
    pub rel_time: String,
}

/// What a [`FrameMeta`] says.
pub ghost struct MetaView {
    pub number: u64,
    pub rel_time: Seq<char>,
}

impl View for FrameMeta {
    type V = MetaView;

    open spec fn view(&self) -> MetaView {
        MetaView { number: self.number, rel_time: self.rel_time@ }
    }
}

impl Clone for FrameMeta {
    fn clone(&self) -> (r: Self)
        ensures
            r@ == self@,
    {
        FrameMeta { number: self.number, rel_time: self.rel_time.clone() }
    }
}

/// Seconds and nanoseconds from a reference time to a time, each on its own
/// and of either sign.
pub fn rel_delta(ts_sec: u32, ts_nsec: u32, ref_sec: u32, ref_nsec: u32) -> (r: (i64, i64))
    ensures
        r.0 == ts_sec - ref_sec,
        r.1 == ts_nsec - ref_nsec,
{
    (ts_sec as i64 - ref_sec as i64, ts_nsec as i64 - ref_nsec as i64)
}

/// The summary line of a packet: number, time, source, destination, protocol,
/// length, info.
pub open spec fn summary_line(meta: MetaView, s: SummaryView) -> Seq<char> {
    flush_right(dec_text(meta.number as nat), 5) + " "@ + flush_right(meta.rel_time, 11) + " "@
        + flush_left(s.src, 15) + " \u{2192} "@ + (flush_left(s.dst, 15) + " "@ + flush_left(
        s.protocol,
        6,
    ) + " "@ + flush_right(dec_text(s.length as nat), 5)) + (" "@ + s.info)
}

/// The summary line of a packet.
pub fn format_line(meta: &FrameMeta, s: &Summary) -> (r: String)
    ensures
        r@ == summary_line(meta@, s@),
{
    let mut out = cat6(
        &align_right(&dec(meta.number), 5),
        " ",
        &align_right(&meta.rel_time, 11),
        " ",
        &align_left(&s.src, 15),
        " \u{2192} ",
    );
    out.append(
        &cat5(
            &align_left(&s.dst, 15),
            " ",
            &align_left(s.protocol, 6),
            " ",
            &align_right(&dec(s.length as u64), 5),
        ),
    );
    out.append(&cat2(" ", &s.info));
    out
}

/// The layer of capture metadata that comes before all protocol layers.
pub open spec fn frame_layer(meta: MetaView, orig_len: u32, cap_len: nat) -> NodeView {
    let number = dec_text(meta.number as nat);
    let length = dec_text(orig_len as nat);
    layer(
        "Frame "@ + number + ": "@ + length + " bytes on wire ("@ + dec_text((orig_len * 8) as nat)
            + (" bits), "@ + dec_text(cap_len) + " bytes captured ("@ + dec_text(
            (cap_len * 8) as nat,
        ) + " bits)"@),
        seq![
            num("frame.number"@, meta.number as nat, "Frame Number: "@ + number),
            num("frame.len"@, orig_len as nat, "Frame Length: "@ + length + " bytes"@),
            txt(
                "frame.time_relative"@,
                meta.rel_time,
                "Time since reference: "@ + meta.rel_time + " seconds"@,
            ),
        ],
    )
}

/// The layer of capture metadata: frame number, length, time.
pub fn frame_node(meta: &FrameMeta, orig_len: u32, cap_len: usize) -> (n: Node)
    ensures
        n@ == frame_layer(meta@, orig_len, cap_len as nat),
{
    let number = dec(meta.number);
    let length = dec(orig_len as u64);
    let mut title = cat6(
        "Frame ",
        &number,
        ": ",
        &length,
        " bytes on wire (",
        &dec(orig_len as u64 * 8),
    );
    title.append(
        &cat5(
            " bits), ",
            &dec(cap_len as u64),
            " bytes captured (",
            &dec_wide(cap_len as u128 * 8),
            " bits)",
        ),
    );
    let mut n = Node::proto(&title);
    n.add_num("frame.number", meta.number, &cat2("Frame Number: ", &number));
    n.add_num("frame.len", orig_len as u64, &cat3("Frame Length: ", &length, " bytes"));
    n.add_str(
        "frame.time_relative",
        &meta.rel_time,
        &cat3("Time since reference: ", &meta.rel_time, " seconds"),
    );
    assert(n@.children =~= frame_layer(meta@, orig_len, cap_len as nat).children);
    n
}

/// The first value of a field as text, nothing where it is absent.
pub open spec fn field_text(tree: Seq<NodeView>, name: Seq<char>) -> Seq<char> {
    match first(named(entries(tree), name)) {
        Some(v) => value_text(v),
        None => Seq::empty(),
    }
}

/// The first value of each field as text, with tabs between.
pub open spec fn fields_line(tree: Seq<NodeView>, fields: Seq<Seq<char>>) -> Seq<char> {
    joined(Seq::new(fields.len(), |i: int| field_text(tree, fields[i])), "\t"@)
}

/// The first value of each requested field, with tabs between; nothing for a
/// field that is absent.
pub fn format_fields(tree: &[Node], fields: &Vec<String>) -> (r: String)
    ensures
        r@ == fields_line(views(tree@), strings(fields@)),
{
    let mut cells: Vec<String> = Vec::new();
    for i in 0..fields.len()
        invariant
            cells@.len() == i,
            forall|j: int|
                0 <= j < i ==> (#[trigger] cells@[j])@ == field_text(views(tree@), fields@[j]@),
    {
        let cell = match extract(tree, &fields[i]) {
            Some(v) => v.to_string(),
            None => String::new(),
        };
        assert(cell@ =~= field_text(views(tree@), fields@[i as int]@));
        cells.push(cell);
    }
    let ghost names = strings(fields@);
    assert(strings(cells@) =~= Seq::new(
        names.len(),
        |i: int| field_text(views(tree@), names[i]),
    ));
    join(&cells, "\t")
}

// ---- laws ----

/// Where every value fits its column, the columns of summary lines stand under
/// each other: the number ends at character 5, the time at 17, the source
/// starts at 18, the destination at 36, the protocol at 52, the length ends at
/// 64, and the info follows behind a space.
pub proof fn law_columns_stand_under_each_other(meta: MetaView, s: SummaryView)
    requires
        dec_text(meta.number as nat).len() <= 5,
        meta.rel_time.len() <= 11,
        s.src.len() <= 15,
        s.dst.len() <= 15,
        s.protocol.len() <= 6,
        dec_text(s.length as nat).len() <= 5,
    ensures
        ({
            let line = summary_line(meta, s);
            &&& line.len() == 65 + s.info.len()
            &&& line.subrange(0, 5) == flush_right(dec_text(meta.number as nat), 5)
            &&& line[5] == ' '
            &&& line.subrange(6, 17) == flush_right(meta.rel_time, 11)
            &&& line[17] == ' '
            &&& line.subrange(18, 33) == flush_left(s.src, 15)
            &&& line[33] == ' ' && line[34] == '\u{2192}' && line[35] == ' '
            &&& line.subrange(36, 51) == flush_left(s.dst, 15)
            &&& line[51] == ' '
            &&& line.subrange(52, 58) == flush_left(s.protocol, 6)
            &&& line[58] == ' '
            &&& line.subrange(59, 64) == flush_right(dec_text(s.length as nat), 5)
            &&& line[64] == ' '
            &&& line.skip(65) == s.info
        }),
{
    reveal_strlit(" ");
    reveal_strlit(" \u{2192} ");
    let a = flush_right(dec_text(meta.number as nat), 5);
    let b = flush_right(meta.rel_time, 11);
    let c = flush_left(s.src, 15);
    let d = flush_left(s.dst, 15);
    let e = flush_left(s.protocol, 6);
    let f = flush_right(dec_text(s.length as nat), 5);
    assert(a.len() == 5 && b.len() == 11 && c.len() == 15 && d.len() == 15 && e.len() == 6
        && f.len() == 5);
    let line = summary_line(meta, s);
    assert(line.subrange(0, 5) =~= a);
    assert(line.subrange(6, 17) =~= b);
    assert(line.subrange(18, 33) =~= c);
    assert(line.subrange(36, 51) =~= d);
    assert(line.subrange(52, 58) =~= e);
    assert(line.subrange(59, 64) =~= f);
    assert(line.skip(65) =~= s.info);
}

/// No value of a summary line is cut off, however long it is: the columns
/// behind it move.
pub proof fn law_long_values_move_the_columns(meta: MetaView, s: SummaryView)
    requires
        dec_text(meta.number as nat).len() >= 5,
        meta.rel_time.len() >= 11,
        s.src.len() >= 15,
        s.dst.len() >= 15,
        s.protocol.len() >= 6,
        dec_text(s.length as nat).len() >= 5,
    ensures
        summary_line(meta, s) == dec_text(meta.number as nat) + " "@ + meta.rel_time + " "@ + s.src
            + " \u{2192} "@ + (s.dst + " "@ + s.protocol + " "@ + dec_text(s.length as nat)) + (" "@
            + s.info),
{
    law_right_aligned_ends_the_column(dec_text(meta.number as nat), 5);
    law_right_aligned_ends_the_column(meta.rel_time, 11);
    law_left_aligned_starts_the_column(s.src, 15);
    law_left_aligned_starts_the_column(s.dst, 15);
    law_left_aligned_starts_the_column(s.protocol, 6);
    law_right_aligned_ends_the_column(dec_text(s.length as nat), 5);
}

/// The frame layer shows the number, the length on the wire and the time; its
/// title has both lengths, in bytes and in bits.
pub proof fn law_frame_layer_is_shown(meta: MetaView, orig_len: u32, cap_len: nat)
    ensures
        ({
            let l = frame_layer(meta, orig_len, cap_len);
            let number = dec_text(meta.number as nat);
            let wire = dec_text(orig_len as nat);
            &&& is_layer(
                l,
                "Frame "@ + number + ": "@ + wire + " bytes on wire ("@ + dec_text(
                    (8 * orig_len) as nat,
                ) + (" bits), "@ + dec_text(cap_len) + " bytes captured ("@ + dec_text(
                    (8 * cap_len) as nat,
                ) + " bits)"@),
                3,
            )
            &&& shows_number(
                l,
                0,
                "frame.number"@,
                meta.number as int,
                "Frame Number: "@ + number,
            )
            &&& shows_number(
                l,
                1,
                "frame.len"@,
                orig_len as int,
                "Frame Length: "@ + wire + " bytes"@,
            )
            &&& shows_text(
                l,
                2,
                "frame.time_relative"@,
                meta.rel_time,
                "Time since reference: "@ + meta.rel_time + " seconds"@,
            )
        }),
{
}

/// A line of fields has one cell per field that is asked for, in the order
/// they are asked for, with tabs between. A cell is the first value of its
/// field, and empty where the packet has none.
pub proof fn law_cells_are_separated_by_tabs(
    tree: Seq<NodeView>,
    fields: Seq<Seq<char>>,
    name: Seq<char>,
)
    ensures
        fields_line(tree, Seq::empty()) == Seq::<char>::empty(),
        fields_line(tree, seq![name]) == field_text(tree, name),
        fields.len() > 0 ==> fields_line(tree, fields.push(name)) == fields_line(tree, fields)
            + "\t"@ + field_text(tree, name),
        named(entries(tree), name).len() == 0 ==> field_text(tree, name) == Seq::<char>::empty(),
        named(entries(tree), name).len() > 0 ==> field_text(tree, name) == value_text(
            named(entries(tree), name)[0],
        ),
{
    let none = Seq::<Seq<char>>::empty();
    assert(Seq::new(none.len(), |i: int| field_text(tree, none[i])) =~= Seq::empty());
    let one = seq![name];
    assert(Seq::new(one.len(), |i: int| field_text(tree, one[i])) =~= seq![
        field_text(tree, name),
    ]);
    let more = fields.push(name);
    let all = Seq::new(more.len(), |i: int| field_text(tree, more[i]));
    assert(all.drop_last() =~= Seq::new(fields.len(), |i: int| field_text(tree, fields[i])));
}

} // verus!
