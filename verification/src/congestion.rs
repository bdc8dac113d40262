//! Per-queue-pair congestion: packets that were marked "congestion
//! experienced" on the way to a queue pair, and the congestion notifications
//! that it was sent.

use vstd::prelude::*;

use crate::analysis::{as_uint, locate, QpKey};
#[allow(unused_imports)]
use crate::analysis::{
    ascending,
    before,
    double_rule,
    key_views,
    lemma_ascending_unique,
    lemma_before_total,
    lemma_one_place,
    lemma_rules,
    lemma_sum_insert,
    lemma_sum_take,
    lemma_sum_update,
    lemma_sum_zeros,
    number_in,
    single_rule,
    sum,
    table_line,
    Qp,
    MAX_RECORDS,
};
use crate::field::Node;
#[allow(unused_imports)]
use crate::field::{views, NodeView};
use crate::text::{align_left, align_right, cat2, cat3, cat6, dec, hex, join};
#[allow(unused_imports)]
use crate::text::{
    dec_text,
    flush_left,
    flush_right,
    hex_text,
    joined,
    law_order_is_lexicographic,
    precedes,
    strings,
};

verus! {

/// The opcode of a congestion notification packet.
pub const CNP_OPCODE: u64 = 0x81;

/// The ECN codepoint "congestion experienced".
pub const ECN_CE: u64 = 3;

/// One packet to a queue pair, as far as congestion is concerned.
#[derive(Debug)]
pub struct CongRec {
    pub dst: String,
    pub qp: u32,
    /// It was marked "congestion experienced".
    pub marked: bool,
    /// It is a congestion notification.
    pub cnp: bool,
}

/// What a [`CongRec`] says.
pub ghost struct CongView {
    pub qp: Qp,
    pub marked: bool,
    pub cnp: bool,
}

impl View for CongRec {
    type V = CongView;

    open spec fn view(&self) -> CongView {
        CongView {
            qp: Qp { dst: self.dst@, qp: self.qp },
            marked: self.marked,
            cnp: self.cnp,
        }
    }
}

/// The views of some records.
pub open spec fn cong_views(rs: Seq<CongRec>) -> Seq<CongView> {
    Seq::new(rs.len(), |i: int| rs[i]@)
}

/// The congestion record of a packet: there is one where it has a queue pair.
/// The mark is that of the IP header, of either version.
pub open spec fn cong_recorded(dst: Seq<char>, tree: Seq<NodeView>) -> Option<CongView> {
    match number_in(tree, "infiniband.bth.destqp"@) {
        Some(qp) => Some(
            CongView {
                qp: Qp { dst, qp: qp as u32 },
                marked: number_in(tree, "ip.dsfield.ecn"@) == Some(ECN_CE) || number_in(
                    tree,
                    "ipv6.dsfield.ecn"@,
                ) == Some(ECN_CE),
                cnp: number_in(tree, "infiniband.bth.opcode"@) == Some(CNP_OPCODE),
            },
        ),
        None => None,
    }
}

fn has_number(tree: &[Node], name: &str, n: u64) -> (r: bool)
    ensures
        r == (number_in(views(tree@), name@) == Some(n)),
{
    match as_uint(tree, name) {
        Some(v) => v == n,
        None => false,
    }
}

/// The congestion record of a dissected packet, or `None` if it has no queue
/// pair.
pub fn cong_record(dst: &str, tree: &[Node]) -> (r: Option<CongRec>)
    ensures
        match r {
            Some(rec) => cong_recorded(dst@, views(tree@)) == Some(rec@),
            None => cong_recorded(dst@, views(tree@)) is None,
        },
{
    let qp = match as_uint(tree, "infiniband.bth.destqp") {
        Some(v) => v as u32,
        None => return None,
    };
    let marked = has_number(tree, "ip.dsfield.ecn", ECN_CE) || has_number(
        tree,
        "ipv6.dsfield.ecn",
        ECN_CE,
    );
    let cnp = has_number(tree, "infiniband.bth.opcode", CNP_OPCODE);
    Some(CongRec { dst: String::from_str(dst), qp, marked, cnp })
}

/// The counts of a queue pair.
pub ghost struct Counts {
    pub packets: nat,
    pub marked: nat,
    pub cnps: nat,
}

/// One packet more.
pub open spec fn counted(c: Counts, marked: bool, cnp: bool) -> Counts {
    Counts {
        packets: c.packets + 1,
        marked: if marked {
            c.marked + 1
        } else {
            c.marked
        },
        cnps: if cnp {
            c.cnps + 1
        } else {
            c.cnps
        },
    }
}

/// The packets, marked packets and notifications of a queue pair.
pub open spec fn counts_of(rs: Seq<CongView>, qp: Qp) -> Counts
    decreases rs.len(),
{
    if rs.len() == 0 {
        Counts { packets: 0, marked: 0, cnps: 0 }
    } else {
        let c = counts_of(rs.drop_last(), qp);
        if rs.last().qp == qp {
            counted(c, rs.last().marked, rs.last().cnp)
        } else {
            c
        }
    }
}

/// A record counts for its own queue pair and for no other.
pub proof fn lemma_counts_push(rs: Seq<CongView>, r: CongView, qp: Qp)
    ensures
        counts_of(rs.push(r), qp) == if r.qp == qp {
            counted(counts_of(rs, qp), r.marked, r.cnp)
        } else {
            counts_of(rs, qp)
        },
{
    assert(rs.push(r).drop_last() =~= rs);
}

/// A queue pair has packets exactly if it has a record; marks and
/// notifications are no more than the packets, nor these more than the
/// records.
pub proof fn lemma_counts_bounded(rs: Seq<CongView>, qp: Qp)
    ensures
        counts_of(rs, qp).marked <= counts_of(rs, qp).packets <= rs.len(),
        counts_of(rs, qp).cnps <= counts_of(rs, qp).packets,
        counts_of(rs, qp).packets == 0 <==> forall|i: int|
            0 <= i < rs.len() ==> (#[trigger] rs[i]).qp != qp,
    decreases rs.len(),
{
    if rs.len() > 0 {
        lemma_counts_bounded(rs.drop_last(), qp);
        if counts_of(rs, qp).packets == 0 {
            assert forall|i: int| 0 <= i < rs.len() implies (#[trigger] rs[i]).qp != qp by {
                if i < rs.len() - 1 {
                    assert(rs.drop_last()[i] == rs[i]);
                }
            }
        }
        if forall|i: int| 0 <= i < rs.len() ==> (#[trigger] rs[i]).qp != qp {
            assert forall|i: int| 0 <= i < rs.drop_last().len() implies (
            #[trigger] rs.drop_last()[i]).qp != qp by {
                assert(rs[i].qp != qp);
            }
            assert(rs[rs.len() - 1].qp != qp);
        }
    }
}

#[derive(Debug, Clone, Copy)]
struct CongState {
    packets: u64,
    marked: u64,
    cnps: u64,
}

impl View for CongState {
    type V = Counts;

    closed spec fn view(&self) -> Counts {
        Counts {
            packets: self.packets as nat,
            marked: self.marked as nat,
            cnps: self.cnps as nat,
        }
    }
}

/// Whether no count is larger than that of the packets.
pub open spec fn counts_bounded(c: Counts) -> bool {
    c.marked <= c.packets && c.cnps <= c.packets
}

impl CongState {
    fn observe(self, marked: bool, cnp: bool) -> (r: Self)
        requires
            self@.packets < MAX_RECORDS,
            counts_bounded(self@),
        ensures
            r@ == counted(self@, marked, cnp),
            counts_bounded(r@),
    {
        CongState {
            packets: self.packets + 1,
            marked: if marked {
                self.marked + 1
            } else {
                self.marked
            },
            cnps: if cnp {
                self.cnps + 1
            } else {
                self.cnps
            },
        }
    }
}

/// One row of the congestion report.
#[derive(Debug)]
pub struct CongRow {
    pub dst: String,
    pub qp: u32,
    pub packets: u64,
    pub marked: u64,
    pub cnps: u64,
}

/// What a [`CongRow`] says.
pub ghost struct CongRowView {
    pub qp: Qp,
    pub counts: Counts,
}

impl View for CongRow {
    type V = CongRowView;

    open spec fn view(&self) -> CongRowView {
        CongRowView {
            qp: Qp { dst: self.dst@, qp: self.qp },
            counts: Counts {
                packets: self.packets as nat,
                marked: self.marked as nat,
                cnps: self.cnps as nat,
            },
        }
    }
}

/// The views of some rows.
pub open spec fn cong_row_views(rows: Seq<CongRow>) -> Seq<CongRowView> {
    Seq::new(rows.len(), |i: int| rows[i]@)
}

/// The queue pairs of some rows.
pub open spec fn cong_row_qps(rows: Seq<CongRowView>) -> Seq<Qp> {
    Seq::new(rows.len(), |i: int| rows[i].qp)
}

/// The congestion report: a row per queue pair, and totals.
#[derive(Debug)]
pub struct CongReport {
    pub rows: Vec<CongRow>,
    pub total_packets: u64,
    pub total_marked: u64,
    pub total_cnps: u64,
}

/// What a [`CongReport`] says.
pub ghost struct CongReportView {
    pub rows: Seq<CongRowView>,
    pub totals: Counts,
}

impl View for CongReport {
    type V = CongReportView;

    open spec fn view(&self) -> CongReportView {
        CongReportView {
            rows: cong_row_views(self.rows@),
            totals: Counts {
                packets: self.total_packets as nat,
                marked: self.total_marked as nat,
                cnps: self.total_cnps as nat,
            },
        }
    }
}

/// Whether a report is that of some records: one row for each queue pair that
/// has a record, in order, with its counts, and totals that are the sums over
/// the rows.
pub open spec fn cong_report_of(rs: Seq<CongView>, r: CongReportView) -> bool {
    &&& ascending(cong_row_qps(r.rows))
    &&& forall|i: int|
        0 <= i < r.rows.len() ==> {
            let row = #[trigger] r.rows[i];
            row.counts == counts_of(rs, row.qp) && row.counts.packets > 0
        }
    &&& forall|j: int| 0 <= j < rs.len() ==> cong_row_qps(r.rows).contains((#[trigger] rs[j]).qp)
    &&& r.totals.packets == sum(Seq::new(r.rows.len(), |i: int| r.rows[i].counts.packets))
    &&& r.totals.marked == sum(Seq::new(r.rows.len(), |i: int| r.rows[i].counts.marked))
    &&& r.totals.cnps == sum(Seq::new(r.rows.len(), |i: int| r.rows[i].counts.cnps))
}

spec fn packet_counts(states: Seq<CongState>) -> Seq<nat> {
    Seq::new(states.len(), |i: int| states[i]@.packets)
}

/// The states that belong to some queue pairs after some records.
spec fn states_of(rs: Seq<CongView>, keys: Seq<Qp>, states: Seq<CongState>) -> bool {
    &&& keys.len() == states.len()
    &&& ascending(keys)
    &&& forall|i: int|
        0 <= i < keys.len() ==> {
            &&& states[i]@ == counts_of(rs, #[trigger] keys[i])
            &&& states[i]@.packets > 0
        }
    &&& forall|j: int| 0 <= j < rs.len() ==> keys.contains((#[trigger] rs[j]).qp)
    &&& sum(packet_counts(states)) == rs.len()
}

/// One record more for a queue pair that is known.
proof fn lemma_states_update(
    rs: Seq<CongView>,
    keys: Seq<Qp>,
    states: Seq<CongState>,
    r: CongView,
    i: int,
    st: CongState,
)
    requires
        states_of(rs, keys, states),
        0 <= i < keys.len(),
        keys[i] == r.qp,
        st@ == counted(states[i]@, r.marked, r.cnp),
    ensures
        states_of(rs.push(r), keys, states.update(i, st)),
{
    let rs2 = rs.push(r);
    let states2 = states.update(i, st);
    assert forall|k: int| 0 <= k < keys.len() implies {
        &&& states2[k]@ == counts_of(rs2, #[trigger] keys[k])
        &&& states2[k]@.packets > 0
    } by {
        lemma_counts_push(rs, r, keys[k]);
        if k < i {
            assert(before(keys[k], keys[i]));
        } else if k > i {
            assert(before(keys[i], keys[k]));
        }
        lemma_before_total(keys[k], keys[i]);
    }
    assert forall|j: int| 0 <= j < rs2.len() implies keys.contains((#[trigger] rs2[j]).qp) by {
        if j < rs.len() {
            assert(keys.contains(rs[j].qp));
        } else {
            assert(keys[i] == rs2[j].qp);
        }
    }
    lemma_sum_update(packet_counts(states), i, st@.packets);
    assert(packet_counts(states2) =~= packet_counts(states).update(i, st@.packets));
}

/// The first record of a queue pair.
proof fn lemma_states_insert(
    rs: Seq<CongView>,
    keys: Seq<Qp>,
    states: Seq<CongState>,
    r: CongView,
    i: int,
    st: CongState,
)
    requires
        states_of(rs, keys, states),
        0 <= i <= keys.len(),
        forall|k: int| 0 <= k < i ==> before(#[trigger] keys[k], r.qp),
        forall|k: int| i <= k < keys.len() ==> before(r.qp, #[trigger] keys[k]),
        st@ == counted(Counts { packets: 0, marked: 0, cnps: 0 }, r.marked, r.cnp),
    ensures
        states_of(rs.push(r), keys.insert(i, r.qp), states.insert(i, st)),
{
    let rs2 = rs.push(r);
    let keys2 = keys.insert(i, r.qp);
    let states2 = states.insert(i, st);
    assert forall|k: int| 0 <= k < keys.len() implies #[trigger] keys[k] != r.qp by {
        lemma_before_total(keys[k], r.qp);
    }
    assert forall|j: int| 0 <= j < rs.len() implies (#[trigger] rs[j]).qp != r.qp by {
        assert(keys.contains(rs[j].qp));
        let k = choose|k: int| 0 <= k < keys.len() && keys[k] == rs[j].qp;
        assert(keys[k] != r.qp);
    }
    lemma_counts_bounded(rs, r.qp);
    assert forall|a: int, b: int| 0 <= a < b < keys2.len() implies before(
        #[trigger] keys2[a],
        #[trigger] keys2[b],
    ) by {
        if a < i && b < i {
            assert(before(keys[a], keys[b]));
        } else if a < i && b == i {
            assert(before(keys[a], r.qp));
        } else if a < i {
            assert(before(keys[a], keys[b - 1]));
        } else if a == i {
            assert(before(r.qp, keys[b - 1]));
        } else {
            assert(before(keys[a - 1], keys[b - 1]));
        }
    }
    assert forall|k: int| 0 <= k < keys2.len() implies {
        &&& states2[k]@ == counts_of(rs2, #[trigger] keys2[k])
        &&& states2[k]@.packets > 0
    } by {
        lemma_counts_push(rs, r, keys2[k]);
        if k < i {
            assert(keys2[k] == keys[k]);
        } else if k > i {
            assert(keys2[k] == keys[k - 1]);
        }
    }
    assert forall|j: int| 0 <= j < rs2.len() implies keys2.contains((#[trigger] rs2[j]).qp) by {
        if j < rs.len() {
            assert(keys.contains(rs[j].qp));
            let k = choose|k: int| 0 <= k < keys.len() && keys[k] == rs[j].qp;
            if k < i {
                assert(keys2[k] == rs2[j].qp);
            } else {
                assert(keys2[k + 1] == rs2[j].qp);
            }
        } else {
            assert(keys2[i] == rs2[j].qp);
        }
    }
    lemma_sum_insert(packet_counts(states), i, st@.packets);
    assert(packet_counts(states2) =~= packet_counts(states).insert(i, st@.packets));
    assert(ascending(keys2));
}

/// Counts marks and notifications per queue pair.
pub fn analyze_cong(records: &[CongRec]) -> (r: CongReport)
    requires
        records@.len() <= MAX_RECORDS,
    ensures
        cong_report_of(cong_views(records@), r@),
        r@.totals.packets == records@.len(),
{
    let ghost all = cong_views(records@);
    let mut keys: Vec<QpKey> = Vec::new();
    let mut states: Vec<CongState> = Vec::new();
    assert(sum(packet_counts(states@)) == 0);
    for n in 0..records.len()
        invariant
            records@.len() <= MAX_RECORDS,
            all == cong_views(records@),
            states_of(all.take(n as int), key_views(keys@), states@),
    {
        let r = &records[n];
        let ghost rs = all.take(n as int);
        let ghost ks = key_views(keys@);
        let ghost before_states = states@;
        assert(all.take(n + 1) =~= rs.push(all[n as int]));
        assert(all[n as int] == r@);
        let (at, found) = locate(&keys, r.dst.as_str(), r.qp);
        if found {
            proof {
                assert(ks[at as int] == r@.qp);
                lemma_counts_bounded(rs, r@.qp);
            }
            let st = states[at].observe(r.marked, r.cnp);
            proof {
                lemma_states_update(rs, ks, before_states, r@, at as int, st);
            }
            states.set(at, st);
        } else {
            let st = CongState { packets: 0, marked: 0, cnps: 0 }.observe(r.marked, r.cnp);
            proof {
                assert forall|k: int| 0 <= k < at implies before(#[trigger] ks[k], r@.qp) by {
                    assert(before(keys@[k]@, r@.qp));
                }
                assert forall|k: int| at <= k < ks.len() implies before(
                    r@.qp,
                    #[trigger] ks[k],
                ) by {
                    assert(before(r@.qp, keys@[k]@));
                }
                lemma_states_insert(rs, ks, before_states, r@, at as int, st);
            }
            let key = QpKey { dst: r.dst.clone(), qp: r.qp };
            assert(key@ == r@.qp);
            keys.insert(at, key);
            states.insert(at, st);
            assert(key_views(keys@) =~= ks.insert(at as int, r@.qp));
        }
    }
    assert(all.take(records@.len() as int) =~= all);
    report(keys, states, Ghost(all))
}

fn report(keys: Vec<QpKey>, states: Vec<CongState>, Ghost(all): Ghost<Seq<CongView>>) -> (r:
    CongReport)
    requires
        all.len() <= MAX_RECORDS,
        states_of(all, key_views(keys@), states@),
    ensures
        cong_report_of(all, r@),
        r@.totals.packets == all.len(),
{
    let ghost ks = key_views(keys@);
    let ghost counts = packet_counts(states@);
    let ghost rows = Seq::new(ks.len(), |i: int| CongRowView { qp: ks[i], counts: states@[i]@ });
    let ghost marked = Seq::new(ks.len(), |i: int| rows[i].counts.marked);
    let ghost cnps = Seq::new(ks.len(), |i: int| rows[i].counts.cnps);
    let mut out = CongReport {
        rows: Vec::new(),
        total_packets: 0,
        total_marked: 0,
        total_cnps: 0,
    };
    assert(out@.rows =~= rows.take(0));
    for i in 0..keys.len()
        invariant
            ks == key_views(keys@),
            counts == packet_counts(states@),
            rows == Seq::new(ks.len(), |i: int| CongRowView { qp: ks[i], counts: states@[i]@ }),
            marked == Seq::new(ks.len(), |i: int| rows[i].counts.marked),
            cnps == Seq::new(ks.len(), |i: int| rows[i].counts.cnps),
            all.len() <= MAX_RECORDS,
            states_of(all, ks, states@),
            out@.rows == rows.take(i as int),
            out.total_packets == sum(counts.take(i as int)),
            out.total_marked == sum(marked.take(i as int)),
            out.total_cnps == sum(cnps.take(i as int)),
            out.total_packets <= MAX_RECORDS,
            out.total_marked <= out.total_packets,
            out.total_cnps <= out.total_packets,
    {
        let st = states[i];
        proof {
            assert(st@ == counts_of(all, ks[i as int]));
            lemma_counts_bounded(all, ks[i as int]);
            lemma_sum_take(counts, i as int);
            lemma_sum_take(marked, i as int);
            lemma_sum_take(cnps, i as int);
        }
        out.total_packets = out.total_packets + st.packets;
        out.total_marked = out.total_marked + st.marked;
        out.total_cnps = out.total_cnps + st.cnps;
        let row = CongRow {
            dst: keys[i].dst.clone(),
            qp: keys[i].qp,
            packets: st.packets,
            marked: st.marked,
            cnps: st.cnps,
        };
        assert(row@ == rows[i as int]);
        let ghost pushed = out.rows@;
        out.rows.push(row);
        proof {
            assert(cong_row_views(pushed) == rows.take(i as int));
            assert(cong_row_views(out.rows@) =~= cong_row_views(pushed).push(row@));
            assert(rows.take(i + 1) =~= rows.take(i as int).push(rows[i as int]));
        }
    }
    proof {
        let n = ks.len() as int;
        assert(rows.take(n) =~= rows);
        assert(counts.take(n) =~= counts);
        assert(marked.take(n) =~= marked);
        assert(cnps.take(n) =~= cnps);
        assert(cong_row_qps(rows) =~= ks);
        assert(Seq::new(rows.len(), |i: int| rows[i].counts.packets) =~= counts);
        assert forall|i: int| 0 <= i < rows.len() implies {
            let row = #[trigger] rows[i];
            row.counts == counts_of(all, row.qp) && row.counts.packets > 0
        } by {
            assert(rows[i].qp == ks[i]);
        }
    }
    out
}

// ---- the report as text ----

/// A line of the congestion table.
pub open spec fn congestion_line(
    dst: Seq<char>,
    qp: Seq<char>,
    packets: Seq<char>,
    marked: Seq<char>,
    cnps: Seq<char>,
) -> Seq<char> {
    table_line(
        seq![
            flush_left(dst, 18),
            flush_right(qp, 10),
            flush_right(packets, 8),
            flush_right(marked, 9),
            flush_right(cnps, 8),
        ],
    )
}

/// The line of a row.
pub open spec fn cong_row_text(r: CongRowView) -> Seq<char> {
    congestion_line(
        r.qp.dst,
        "0x"@ + hex_text(r.qp.qp as nat),
        dec_text(r.counts.packets),
        dec_text(r.counts.marked),
        dec_text(r.counts.cnps),
    )
}

/// The lines of some rows.
pub open spec fn cong_rows_text(rows: Seq<CongRowView>) -> Seq<char>
    decreases rows.len(),
{
    if rows.len() == 0 {
        Seq::empty()
    } else {
        cong_rows_text(rows.drop_last()) + cong_row_text(rows.last())
    }
}

/// The congestion report as text: a title, then a table with totals, or a
/// line that says that there was nothing to report.
pub open spec fn cong_report_text(r: CongReportView) -> Seq<char> {
    let title = double_rule() + "RoCE congestion analysis (per destination QP)\n"@
        + double_rule();
    if r.rows.len() == 0 {
        title + "No RoCE packets found.\n"@
    } else {
        title + congestion_line("Dst IP"@, "QP"@, "Packets"@, "CE-marked"@, "CNPs"@)
            + single_rule() + cong_rows_text(r.rows) + single_rule() + ("Totals: QPs="@ + dec_text(
            r.rows.len(),
        ) + " Packets="@ + dec_text(r.totals.packets) + " CE="@ + dec_text(r.totals.marked)) + (
        " CNPs="@ + dec_text(r.totals.cnps) + "\n"@)
    }
}

fn write_congestion_line(dst: &str, qp: &str, packets: &str, marked: &str, cnps: &str) -> (r:
    String)
    ensures
        r@ == congestion_line(dst@, qp@, packets@, marked@, cnps@),
{
    let mut cells: Vec<String> = Vec::new();
    cells.push(align_left(dst, 18));
    cells.push(align_right(qp, 10));
    cells.push(align_right(packets, 8));
    cells.push(align_right(marked, 9));
    cells.push(align_right(cnps, 8));
    assert(strings(cells@) =~= seq![
        flush_left(dst@, 18),
        flush_right(qp@, 10),
        flush_right(packets@, 8),
        flush_right(marked@, 9),
        flush_right(cnps@, 8),
    ]);
    cat2(&join(&cells, " "), "\n")
}

impl CongReport {
    /// The report as text.
    pub fn to_string(&self) -> (r: String)
        ensures
            r@ == cong_report_text(self@),
    {
        let rule = "===================================================================\n";
        let mut out = cat3(rule, "RoCE congestion analysis (per destination QP)\n", rule);
        if self.rows.len() == 0 {
            out.append("No RoCE packets found.\n");
            return out;
        }
        out.append(
            &write_congestion_line("Dst IP", "QP", "Packets", "CE-marked", "CNPs"),
        );
        let dashes =
            "-------------------------------------------------------------------------------\n";
        out.append(dashes);
        let ghost head = out@;
        assert(head + cong_rows_text(self@.rows.take(0)) =~= head);
        for i in 0..self.rows.len()
            invariant
                out@ == head + cong_rows_text(self@.rows.take(i as int)),
        {
            let ghost rows = self@.rows;
            assert(rows.take(i + 1).drop_last() =~= rows.take(i as int));
            let row = &self.rows[i];
            assert(rows[i as int] == row@);
            out.append(
                &write_congestion_line(
                    &row.dst,
                    &cat2("0x", &hex(row.qp as u64)),
                    &dec(row.packets),
                    &dec(row.marked),
                    &dec(row.cnps),
                ),
            );
            assert(out@ =~= head + cong_rows_text(rows.take(i + 1)));
        }
        assert(self@.rows.take(self.rows@.len() as int) =~= self@.rows);
        out.append(dashes);
        out.append(
            &cat6(
                "Totals: QPs=",
                &dec(self.rows.len() as u64),
                " Packets=",
                &dec(self.total_packets),
                " CE=",
                &dec(self.total_marked),
            ),
        );
        out.append(&cat3(" CNPs=", &dec(self.total_cnps), "\n"));
        out
    }
}

// ---- laws ----

/// A record of one queue pair does not matter to any other.
pub proof fn law_counts_are_independent(rs: Seq<CongView>, i: int, qp: Qp)
    requires
        0 <= i < rs.len(),
        rs[i].qp != qp,
    ensures
        counts_of(rs.remove(i), qp) == counts_of(rs, qp),
    decreases rs.len(),
{
    let less = rs.remove(i);
    if i == rs.len() - 1 {
        assert(less =~= rs.drop_last());
    } else {
        law_counts_are_independent(rs.drop_last(), i, qp);
        assert(less.drop_last() =~= rs.drop_last().remove(i));
        assert(less.last() == rs.last());
    }
}

/// Records have exactly one congestion report.
pub proof fn law_cong_report_is_determined(
    rs: Seq<CongView>,
    a: CongReportView,
    b: CongReportView,
)
    requires
        cong_report_of(rs, a),
        cong_report_of(rs, b),
    ensures
        a == b,
{
    let qa = cong_row_qps(a.rows);
    let qb = cong_row_qps(b.rows);
    assert forall|q: Qp| qa.contains(q) <==> qb.contains(q) by {
        lemma_counts_bounded(rs, q);
        if qa.contains(q) {
            let i = choose|i: int| 0 <= i < qa.len() && qa[i] == q;
            assert(a.rows[i].qp == q);
            let j = choose|j: int| 0 <= j < rs.len() && (#[trigger] rs[j]).qp == q;
            assert(qb.contains(rs[j].qp));
        }
        if qb.contains(q) {
            let i = choose|i: int| 0 <= i < qb.len() && qb[i] == q;
            assert(b.rows[i].qp == q);
            let j = choose|j: int| 0 <= j < rs.len() && (#[trigger] rs[j]).qp == q;
            assert(qa.contains(rs[j].qp));
        }
    }
    lemma_ascending_unique(qa, qb);
    assert(qa.len() == a.rows.len());
    assert(qb.len() == b.rows.len());
    assert forall|i: int| 0 <= i < a.rows.len() implies a.rows[i] == b.rows[i] by {
        assert(qa[i] == a.rows[i].qp);
        assert(qb[i] == b.rows[i].qp);
    }
    assert(a.rows =~= b.rows);
}

/// The counts of a queue pair are the numbers of its records, of its marked
/// records and of its notifications.
pub proof fn law_counts_are_numbers_of_records(rs: Seq<CongView>, qp: Qp)
    ensures
        ({
            let c = counts_of(rs, qp);
            &&& c.packets == rs.filter(|r: CongView| r.qp == qp).len()
            &&& c.marked == rs.filter(|r: CongView| r.qp == qp && r.marked).len()
            &&& c.cnps == rs.filter(|r: CongView| r.qp == qp && r.cnp).len()
        }),
    decreases rs.len(),
{
    reveal(Seq::filter);
    if rs.len() > 0 {
        law_counts_are_numbers_of_records(rs.drop_last(), qp);
    }
}

/// A row shows the counts of its queue pair, each under its own name.
pub proof fn law_row_shows_the_counts(rs: Seq<CongView>, r: CongReportView, i: int)
    requires
        cong_report_of(rs, r),
        0 <= i < r.rows.len(),
    ensures
        ({
            let row = r.rows[i];
            &&& row.counts.packets == rs.filter(|x: CongView| x.qp == row.qp).len()
            &&& row.counts.marked == rs.filter(|x: CongView| x.qp == row.qp && x.marked).len()
            &&& row.counts.cnps == rs.filter(|x: CongView| x.qp == row.qp && x.cnp).len()
            &&& row.counts.packets > 0
        }),
{
    law_counts_are_numbers_of_records(rs, r.rows[i].qp);
}

/// Where every cell fits its width, the columns of the congestion table stand
/// under each other, the destination to the left and the others to the right.
pub proof fn law_congestion_columns_stand_under_each_other(
    dst: Seq<char>,
    qp: Seq<char>,
    packets: Seq<char>,
    marked: Seq<char>,
    cnps: Seq<char>,
)
    requires
        dst.len() <= 18,
        qp.len() <= 10,
        packets.len() <= 8,
        marked.len() <= 9,
        cnps.len() <= 8,
    ensures
        ({
            let line = congestion_line(dst, qp, packets, marked, cnps);
            &&& line.len() == 58
            &&& line.subrange(0, 18) == flush_left(dst, 18)
            &&& line[18] == ' '
            &&& line.subrange(19, 29) == flush_right(qp, 10)
            &&& line[29] == ' '
            &&& line.subrange(30, 38) == flush_right(packets, 8)
            &&& line[38] == ' '
            &&& line.subrange(39, 48) == flush_right(marked, 9)
            &&& line[48] == ' '
            &&& line.subrange(49, 57) == flush_right(cnps, 8)
            &&& line[57] == '\n'
        }),
{
    reveal_strlit(" ");
    reveal_strlit("\n");
    let cells = seq![
        flush_left(dst, 18),
        flush_right(qp, 10),
        flush_right(packets, 8),
        flush_right(marked, 9),
        flush_right(cnps, 8),
    ];
    let line = congestion_line(dst, qp, packets, marked, cnps);
    reveal_with_fuel(joined, 6);
    let first4 = cells.drop_last();
    let first3 = first4.drop_last();
    let first2 = first3.drop_last();
    let first1 = first2.drop_last();
    assert(first4.last() == cells[3]);
    assert(first3.last() == cells[2]);
    assert(first2.last() == cells[1]);
    assert(first1[0] == cells[0]);
    assert(cells[0].len() == 18);
    assert(cells[1].len() == 10);
    assert(cells[2].len() == 8);
    assert(cells[3].len() == 9);
    assert(cells[4].len() == 8);
    assert(line.len() == 58);
    assert(line.subrange(0, 18) =~= cells[0]);
    assert(line.subrange(19, 29) =~= cells[1]);
    assert(line.subrange(30, 38) =~= cells[2]);
    assert(line.subrange(39, 48) =~= cells[3]);
    assert(line.subrange(49, 57) =~= cells[4]);
}

/// A row shows its queue pair in hexadecimal and its counts in decimal.
pub proof fn law_congestion_row_is_shown(r: CongRowView)
    ensures
        cong_row_text(r) == congestion_line(
            r.qp.dst,
            "0x"@ + hex_text(r.qp.qp as nat),
            dec_text(r.counts.packets),
            dec_text(r.counts.marked),
            dec_text(r.counts.cnps),
        ),
{
}

/// The lines of a table are those of its rows, one after the other.
pub proof fn law_congestion_rows_follow_each_other(rows: Seq<CongRowView>, r: CongRowView)
    ensures
        cong_rows_text(Seq::empty()) == Seq::<char>::empty(),
        cong_rows_text(rows.push(r)) == cong_rows_text(rows) + cong_row_text(r),
{
    assert(rows.push(r).drop_last() =~= rows);
}

/// The congestion report starts with its title; it ends with the totals, or
/// says that there was nothing to report.
pub proof fn law_congestion_report_has_title_and_totals(r: CongReportView)
    ensures
        ({
            let rule = "==================================================================="@;
            let line =
                "-------------------------------------------------------------------------------"@;
            let title = rule + "\n"@ + ("RoCE congestion analysis (per destination QP)\n"@) + (
            rule + "\n"@);
            let heads = congestion_line("Dst IP"@, "QP"@, "Packets"@, "CE-marked"@, "CNPs"@);
            let totals = "Totals: QPs="@ + dec_text(r.rows.len()) + " Packets="@ + dec_text(
                r.totals.packets,
            ) + " CE="@ + dec_text(r.totals.marked) + " CNPs="@ + dec_text(r.totals.cnps)
                + "\n"@;
            cong_report_text(r) == title + if r.rows.len() == 0 {
                "No RoCE packets found.\n"@
            } else {
                heads + (line + "\n"@) + cong_rows_text(r.rows) + (line + "\n"@) + totals
            }
        }),
{
    lemma_rules();
    let rule = "==================================================================="@ + "\n"@;
    let line = "-------------------------------------------------------------------------------"@
        + "\n"@;
    let title = rule + ("RoCE congestion analysis (per destination QP)\n"@) + rule;
    let heads = congestion_line("Dst IP"@, "QP"@, "Packets"@, "CE-marked"@, "CNPs"@);
    let first = "Totals: QPs="@ + dec_text(r.rows.len()) + " Packets="@ + dec_text(
        r.totals.packets,
    ) + " CE="@ + dec_text(r.totals.marked);
    let second = " CNPs="@ + dec_text(r.totals.cnps) + "\n"@;
    let totals = first + " CNPs="@ + dec_text(r.totals.cnps) + "\n"@;
    assert(totals =~= first + second);
    if r.rows.len() > 0 {
        assert(title + heads + line + cong_rows_text(r.rows) + line + first + second =~= title + (
        heads + line + cong_rows_text(r.rows) + line + totals));
    }
}

proof fn lemma_all_counted(rs: Seq<CongView>, ks: Seq<Qp>)
    requires
        ascending(ks),
        forall|j: int| 0 <= j < rs.len() ==> ks.contains((#[trigger] rs[j]).qp),
    ensures
        sum(Seq::new(ks.len(), |i: int| counts_of(rs, ks[i]).packets)) == rs.len(),
        sum(Seq::new(ks.len(), |i: int| counts_of(rs, ks[i]).marked)) == rs.filter(
            |x: CongView| x.marked,
        ).len(),
        sum(Seq::new(ks.len(), |i: int| counts_of(rs, ks[i]).cnps)) == rs.filter(
            |x: CongView| x.cnp,
        ).len(),
    decreases rs.len(),
{
    reveal(Seq::filter);
    let a = Seq::new(ks.len(), |i: int| counts_of(rs, ks[i]).packets);
    let b = Seq::new(ks.len(), |i: int| counts_of(rs, ks[i]).marked);
    let c = Seq::new(ks.len(), |i: int| counts_of(rs, ks[i]).cnps);
    if rs.len() == 0 {
        lemma_sum_zeros(a);
        lemma_sum_zeros(b);
        lemma_sum_zeros(c);
    } else {
        let most = rs.drop_last();
        let last = rs[rs.len() - 1];
        let a1 = Seq::new(ks.len(), |i: int| counts_of(most, ks[i]).packets);
        let b1 = Seq::new(ks.len(), |i: int| counts_of(most, ks[i]).marked);
        let c1 = Seq::new(ks.len(), |i: int| counts_of(most, ks[i]).cnps);
        assert forall|j: int| 0 <= j < most.len() implies ks.contains(
            (#[trigger] most[j]).qp,
        ) by {
            assert(most[j] == rs[j]);
        }
        lemma_all_counted(most, ks);
        let k = lemma_one_place(ks, last.qp);
        assert(a =~= a1.update(k, a[k]));
        assert(b =~= b1.update(k, b[k]));
        assert(c =~= c1.update(k, c[k]));
        lemma_sum_update(a1, k, a[k]);
        lemma_sum_update(b1, k, b[k]);
        lemma_sum_update(c1, k, c[k]);
    }
}

/// Every queue pair with a record has a row, in one place; the totals are the
/// numbers of all records, of all marked ones and of all notifications.
pub proof fn law_totals_count_every_record(rs: Seq<CongView>, r: CongReportView, j: int)
    requires
        cong_report_of(rs, r),
        0 <= j < rs.len(),
    ensures
        exists|k: int|
            #![trigger r.rows[k]]
            0 <= k < r.rows.len() && r.rows[k].qp == rs[j].qp && forall|i: int|
                0 <= i < r.rows.len() && i != k ==> (#[trigger] r.rows[i]).qp != rs[j].qp,
        r.totals.packets == rs.len(),
        r.totals.marked == rs.filter(|x: CongView| x.marked).len(),
        r.totals.cnps == rs.filter(|x: CongView| x.cnp).len(),
{
    let ks = cong_row_qps(r.rows);
    lemma_all_counted(rs, ks);
    assert(Seq::new(r.rows.len(), |i: int| r.rows[i].counts.packets) =~= Seq::new(
        ks.len(),
        |i: int| counts_of(rs, ks[i]).packets,
    ));
    assert(Seq::new(r.rows.len(), |i: int| r.rows[i].counts.marked) =~= Seq::new(
        ks.len(),
        |i: int| counts_of(rs, ks[i]).marked,
    ));
    assert(Seq::new(r.rows.len(), |i: int| r.rows[i].counts.cnps) =~= Seq::new(
        ks.len(),
        |i: int| counts_of(rs, ks[i]).cnps,
    ));
    assert(ks.contains(rs[j].qp));
    let k = lemma_one_place(ks, rs[j].qp);
    assert(r.rows[k].qp == rs[j].qp);
    assert forall|i: int| 0 <= i < r.rows.len() && i != k implies (#[trigger] r.rows[i]).qp
        != rs[j].qp by {
        assert(ks[i] == r.rows[i].qp);
    }
}

/// Rows stand in the order of their destinations, as text, and under one
/// destination in the order of their queue pair numbers.
pub proof fn law_rows_are_in_order(rs: Seq<CongView>, r: CongReportView, i: int, j: int)
    requires
        cong_report_of(rs, r),
        0 <= i < j < r.rows.len(),
    ensures
        precedes(r.rows[i].qp.dst, r.rows[j].qp.dst) || (r.rows[i].qp.dst == r.rows[j].qp.dst
            && r.rows[i].qp.qp < r.rows[j].qp.qp),
{
    let ks = cong_row_qps(r.rows);
    assert(before(ks[i], ks[j]));
    law_order_is_lexicographic(ks[i].dst, ks[j].dst);
}

/// A packet of which no queue pair can be read has no record. Any other is
/// marked exactly if the codepoint of an IP header of either version is 3, and
/// is a notification exactly if its opcode is 0x81.
pub proof fn law_records_are_read_from_the_tree(dst: Seq<char>, tree: Seq<NodeView>)
    ensures
        number_in(tree, "infiniband.bth.destqp"@) is None <==> cong_recorded(dst, tree) is None,
        cong_recorded(dst, tree) matches Some(c) ==> {
            &&& c.qp.dst == dst
            &&& c.qp.qp == number_in(tree, "infiniband.bth.destqp"@)->0 as u32
            &&& c.marked <==> (number_in(tree, "ip.dsfield.ecn"@) == Some(3u64) || number_in(
                tree,
                "ipv6.dsfield.ecn"@,
            ) == Some(3u64))
            &&& c.cnp <==> number_in(tree, "infiniband.bth.opcode"@) == Some(0x81u64)
        },
{
}

} // verus!
