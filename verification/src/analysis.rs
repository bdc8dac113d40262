//! Sequence numbers per queue pair.
//!
//! A queue pair is named by its destination address and number; each has a
//! sequence of packets of its own, so one is analysed without reference to
//! any other. Reports are ordered by destination and queue pair.
//!
//! Tracking covers reliable connections, whose 24-bit packet sequence numbers
//! grow by one per packet: a jump forward means that packets were dropped, a
//! step back a retransmission, a reordering or a duplicate.

use vstd::prelude::*;

use crate::field::{extract, Node, Value};
#[allow(unused_imports)]
use crate::field::{entries, first, named, views, NodeView, ValueView};
use crate::text::{
    align_left,
    align_right,
    cat2,
    cat3,
    cat5,
    cat6,
    dec,
    hex,
    join,
    order,
    Order,
};
#[allow(unused_imports)]
use crate::text::{
    dec_text,
    flush_left,
    flush_right,
    hex_text,
    joined,
    lemma_order_equal,
    lemma_order_swap,
    law_order_is_lexicographic,
    lemma_order_transitive,
    precedes,
    strings,
    text_order,
};

verus! {

/// The number of packet sequence numbers.
pub const PSN_SPACE: u32 = 0x0100_0000;

/// Half the number of packet sequence numbers.
pub const PSN_HALF: u32 = 0x0080_0000;

/// The most records that one analysis takes, so that no count can overflow.
pub const MAX_RECORDS: u64 = 0x100_0000_0000;

// ---- queue pairs ----

/// The name of a queue pair.
pub ghost struct Qp {
    pub dst: Seq<char>,
    pub qp: u32,
}

/// Whether one queue pair comes before another: by destination, then by
/// number.
pub open spec fn before(a: Qp, b: Qp) -> bool {
    text_order(a.dst, b.dst) == Order::Less || (a.dst == b.dst && a.qp < b.qp)
}

/// Whether some queue pairs are in order, each once.
pub open spec fn ascending(qs: Seq<Qp>) -> bool {
    forall|i: int, j: int| 0 <= i < j < qs.len() ==> before(#[trigger] qs[i], #[trigger] qs[j])
}

/// One queue pair comes before another, behind it, or is it.
pub proof fn lemma_before_total(a: Qp, b: Qp)
    ensures
        before(a, b) || before(b, a) || a == b,
        !(before(a, b) && before(b, a)),
        !before(a, a),
{
    lemma_order_equal(a.dst, b.dst);
    lemma_order_equal(b.dst, a.dst);
    lemma_order_equal(a.dst, a.dst);
    lemma_order_swap(a.dst, b.dst);
}

/// The order of queue pairs is transitive.
pub proof fn lemma_before_transitive(a: Qp, b: Qp, c: Qp)
    requires
        before(a, b),
        before(b, c),
    ensures
        before(a, c),
{
    if text_order(a.dst, b.dst) == Order::Less && text_order(b.dst, c.dst) == Order::Less {
        lemma_order_transitive(a.dst, b.dst, c.dst);
    }
}

/// A queue pair in a list.
#[derive(Debug)]
pub struct QpKey {
    pub dst: String,
    pub qp: u32,
}

impl View for QpKey {
    type V = Qp;

    open spec fn view(&self) -> Qp {
        Qp { dst: self.dst@, qp: self.qp }
    }
}

/// The queue pairs of a list.
pub open spec fn key_views(keys: Seq<QpKey>) -> Seq<Qp> {
    Seq::new(keys.len(), |i: int| keys[i]@)
}

/// Where a queue pair stands in an ordered list, or where it belongs.
pub(crate) fn locate(keys: &Vec<QpKey>, dst: &str, qp: u32) -> (r: (usize, bool))
    requires
        ascending(key_views(keys@)),
    ensures
        r.0 <= keys@.len(),
        r.1 ==> r.0 < keys@.len() && keys@[r.0 as int]@ == (Qp { dst: dst@, qp }),
        !r.1 ==> {
            &&& forall|i: int|
                0 <= i < r.0 ==> before(#[trigger] keys@[i]@, Qp { dst: dst@, qp })
            &&& forall|i: int|
                r.0 <= i < keys@.len() ==> before(Qp { dst: dst@, qp }, #[trigger] keys@[i]@)
        },
{
    let ghost key = Qp { dst: dst@, qp };
    let ghost qs = key_views(keys@);
    let mut lo: usize = 0;
    let mut hi = keys.len();
    while lo < hi
        invariant
            qs == key_views(keys@),
            ascending(qs),
            key == (Qp { dst: dst@, qp }),
            lo <= hi <= keys@.len(),
            forall|i: int| 0 <= i < lo ==> before(#[trigger] keys@[i]@, key),
            forall|i: int| hi <= i < keys@.len() ==> before(key, #[trigger] keys@[i]@),
        decreases hi - lo,
    {
        let mid = lo + (hi - lo) / 2;
        let k = &keys[mid];
        assert(qs[mid as int] == k@);
        proof {
            lemma_order_equal(k.dst@, dst@);
            lemma_order_swap(k.dst@, dst@);
        }
        let o = order(k.dst.as_str(), dst);
        if o == Order::Equal && k.qp == qp {
            return (mid, true);
        }
        if o == Order::Less || (o == Order::Equal && k.qp < qp) {
            assert(before(k@, key));
            assert forall|i: int| 0 <= i < mid + 1 implies before(#[trigger] keys@[i]@, key) by {
                if i < mid {
                    assert(before(qs[i], qs[mid as int]));
                    lemma_before_transitive(qs[i], qs[mid as int], key);
                }
            }
            lo = mid + 1;
        } else {
            assert(before(key, k@));
            assert forall|i: int| mid <= i < keys@.len() implies before(
                key,
                #[trigger] keys@[i]@,
            ) by {
                if i > mid {
                    assert(before(qs[mid as int], qs[i]));
                    lemma_before_transitive(key, qs[mid as int], qs[i]);
                }
            }
            hi = mid;
        }
    }
    (lo, false)
}

// ---- sequence numbers ----

/// The signed distance from `b` to `a` among the 24-bit sequence numbers, the
/// short way round: from the last number to 0 is one step forward.
pub open spec fn psn_distance(a: u32, b: u32) -> int {
    let d = (a - b) % (PSN_SPACE as int);
    if d >= PSN_HALF {
        d - PSN_SPACE
    } else {
        d
    }
}

/// The signed distance from `b` to `a` among the 24-bit sequence numbers.
pub fn seq_diff(a: u32, b: u32) -> (r: i32)
    ensures
        r == psn_distance(a, b),
{
    let x = (a % PSN_SPACE) as i32;
    let y = (b % PSN_SPACE) as i32;
    let space = PSN_SPACE as i32;
    let half = PSN_HALF as i32;
    let d = if x >= y {
        x - y
    } else {
        x - y + space
    };
    assert(d == (a - b) % (PSN_SPACE as int));
    if d >= half {
        d - space
    } else {
        d
    }
}

/// One reliable-connection packet, as far as sequence tracking needs it.
#[derive(Debug)]
pub struct Rec {
    pub framenum: u64,
    pub dst: String,
    pub qp: u32,
    pub psn: u32,
}

/// What a [`Rec`] says.
pub ghost struct RecView {
    pub framenum: u64,
    pub qp: Qp,
    pub psn: u32,
}

impl View for Rec {
    type V = RecView;

    open spec fn view(&self) -> RecView {
        RecView {
            framenum: self.framenum,
            qp: Qp { dst: self.dst@, qp: self.qp },
            psn: self.psn,
        }
    }
}

impl Clone for Rec {
    fn clone(&self) -> (r: Self)
        ensures
            r@ == self@,
    {
        Rec { framenum: self.framenum, dst: self.dst.clone(), qp: self.qp, psn: self.psn }
    }
}

/// The views of some records.
pub open spec fn rec_views(rs: Seq<Rec>) -> Seq<RecView> {
    Seq::new(rs.len(), |i: int| rs[i]@)
}

/// The number in a field, if the first field of that name has one.
pub open spec fn number_in(tree: Seq<NodeView>, name: Seq<char>) -> Option<u64> {
    match first(named(entries(tree), name)) {
        Some(ValueView::Uint(u)) => Some(u),
        _ => None,
    }
}

/// The record of a packet: there is one where it has an opcode of the reliable
/// connection service (the high bits are 0), a queue pair and a sequence
/// number.
pub open spec fn recorded(framenum: u64, dst: Seq<char>, tree: Seq<NodeView>) -> Option<RecView> {
    match number_in(tree, "infiniband.bth.opcode"@) {
        Some(opcode) => match (
            number_in(tree, "infiniband.bth.destqp"@),
            number_in(tree, "infiniband.bth.psn"@),
        ) {
            (Some(qp), Some(psn)) => if opcode < 32 {
                Some(RecView { framenum, qp: Qp { dst, qp: qp as u32 }, psn: psn as u32 })
            } else {
                None
            },
            _ => None,
        },
        None => None,
    }
}

pub(crate) fn as_uint(tree: &[Node], name: &str) -> (r: Option<u64>)
    ensures
        r == number_in(views(tree@), name@),
{
    match extract(tree, name) {
        Some(Value::Uint(u)) => Some(*u),
        _ => None,
    }
}

/// The record of a dissected packet, or `None` if it is not one of a reliable
/// connection.
pub fn record(framenum: u64, dst: &str, tree: &[Node]) -> (r: Option<Rec>)
    ensures
        match r {
            Some(rec) => recorded(framenum, dst@, views(tree@)) == Some(rec@),
            None => recorded(framenum, dst@, views(tree@)) is None,
        },
{
    let opcode = match as_uint(tree, "infiniband.bth.opcode") {
        Some(v) => v,
        None => return None,
    };
    if opcode >= 32 {
        return None;
    }
    let qp = match as_uint(tree, "infiniband.bth.destqp") {
        Some(v) => v as u32,
        None => return None,
    };
    let psn = match as_uint(tree, "infiniband.bth.psn") {
        Some(v) => v as u32,
        None => return None,
    };
    Some(Rec { framenum, dst: String::from_str(dst), qp, psn })
}

// ---- tracking one queue pair ----

/// What is known of a queue pair after some of its packets.
pub ghost struct Track {
    pub packets: nat,
    pub first_psn: u32,
    pub last_psn: u32,
    pub expected: Option<u32>,
    pub gap_events: nat,
    pub missing: nat,
    pub retransmits: nat,
    pub first_issue_frame: Option<u64>,
}

/// Nothing has been seen.
pub open spec fn untracked() -> Track {
    Track {
        packets: 0,
        first_psn: 0,
        last_psn: 0,
        expected: None,
        gap_events: 0,
        missing: 0,
        retransmits: 0,
        first_issue_frame: None,
    }
}

/// The sequence number behind another.
pub open spec fn next_psn(psn: u32) -> u32 {
    ((psn + 1) % (PSN_SPACE as int)) as u32
}

/// The first of two frames with an issue, if the first has one.
pub open spec fn first_issue(known: Option<u64>, framenum: u64) -> Option<u64> {
    match known {
        Some(f) => Some(f),
        None => Some(framenum),
    }
}

/// One packet more. The first fixes where the sequence starts. After that, a
/// packet ahead of the expected one leaves a gap of as many packets as it is
/// ahead; one behind it counts as retransmitted and changes nothing else.
pub open spec fn observed(t: Track, psn: u32, framenum: u64) -> Track {
    let seen = Track { packets: t.packets + 1, ..t };
    match t.expected {
        None => Track {
            first_psn: psn,
            last_psn: psn,
            expected: Some(next_psn(psn)),
            ..seen
        },
        Some(expected) => {
            let d = psn_distance(psn, expected);
            if d > 0 {
                Track {
                    gap_events: t.gap_events + 1,
                    missing: (t.missing + d) as nat,
                    last_psn: psn,
                    expected: Some(next_psn(psn)),
                    first_issue_frame: first_issue(t.first_issue_frame, framenum),
                    ..seen
                }
            } else if d < 0 {
                Track {
                    retransmits: t.retransmits + 1,
                    first_issue_frame: first_issue(t.first_issue_frame, framenum),
                    ..seen
                }
            } else {
                Track { last_psn: psn, expected: Some(next_psn(psn)), ..seen }
            }
        },
    }
}

/// The records of one queue pair, in order.
pub open spec fn stream(rs: Seq<RecView>, qp: Qp) -> Seq<RecView>
    decreases rs.len(),
{
    if rs.len() == 0 {
        Seq::empty()
    } else if rs.last().qp == qp {
        stream(rs.drop_last(), qp).push(rs.last())
    } else {
        stream(rs.drop_last(), qp)
    }
}

/// What is known after some packets of one queue pair.
pub open spec fn tracked_after(rs: Seq<RecView>) -> Track
    decreases rs.len(),
{
    if rs.len() == 0 {
        untracked()
    } else {
        observed(tracked_after(rs.drop_last()), rs.last().psn, rs.last().framenum)
    }
}

#[derive(Debug, Clone, Copy)]
struct QpState {
    packets: u64,
    first_psn: u32,
    last_psn: u32,
    expected: Option<u32>,
    gap_events: u64,
    missing: u64,
    retransmits: u64,
    first_issue_frame: Option<u64>,
}

impl View for QpState {
    type V = Track;

    closed spec fn view(&self) -> Track {
        Track {
            packets: self.packets as nat,
            first_psn: self.first_psn,
            last_psn: self.last_psn,
            expected: self.expected,
            gap_events: self.gap_events as nat,
            missing: self.missing as nat,
            retransmits: self.retransmits as nat,
            first_issue_frame: self.first_issue_frame,
        }
    }
}

/// Each packet counts for at most one event and for fewer than half of the
/// sequence numbers.
pub open spec fn bounded(t: Track) -> bool {
    &&& t.gap_events <= t.packets
    &&& t.retransmits <= t.packets
    &&& t.missing <= t.packets * PSN_HALF
}

impl QpState {
    fn new() -> (r: Self)
        ensures
            r@ == untracked(),
    {
        QpState {
            packets: 0,
            first_psn: 0,
            last_psn: 0,
            expected: None,
            gap_events: 0,
            missing: 0,
            retransmits: 0,
            first_issue_frame: None,
        }
    }

    fn observe(self, psn: u32, framenum: u64) -> (r: Self)
        requires
            self@.packets < MAX_RECORDS,
            bounded(self@),
        ensures
            r@ == observed(self@, psn, framenum),
            bounded(r@),
    {
        let mut st = self;
        st.packets = st.packets + 1;
        let next = (psn % PSN_SPACE + 1) % PSN_SPACE;
        assert(next == next_psn(psn));
        let issue = match st.first_issue_frame {
            Some(f) => Some(f),
            None => Some(framenum),
        };
        match st.expected {
            None => {
                st.first_psn = psn;
                st.last_psn = psn;
            },
            Some(expected) => {
                let d = seq_diff(psn, expected);
                if d > 0 {
                    st.gap_events = st.gap_events + 1;
                    st.missing = st.missing + d as u64;
                    st.last_psn = psn;
                    st.first_issue_frame = issue;
                } else if d < 0 {
                    st.retransmits = st.retransmits + 1;
                    st.first_issue_frame = issue;
                    return st;
                } else {
                    st.last_psn = psn;
                }
            },
        }
        st.expected = Some(next);
        st
    }
}

// ---- sums ----

/// The sum of some numbers.
pub open spec fn sum(s: Seq<nat>) -> nat
    decreases s.len(),
{
    if s.len() == 0 {
        0
    } else {
        sum(s.drop_last()) + s.last()
    }
}

/// Changing one number changes the sum by the difference.
pub proof fn lemma_sum_update(s: Seq<nat>, i: int, x: nat)
    requires
        0 <= i < s.len(),
    ensures
        sum(s.update(i, x)) == sum(s) - s[i] + x,
    decreases s.len(),
{
    let u = s.update(i, x);
    if i == s.len() - 1 {
        assert(u.drop_last() =~= s.drop_last());
    } else {
        lemma_sum_update(s.drop_last(), i, x);
        assert(u.drop_last() =~= s.drop_last().update(i, x));
    }
}

/// One number more adds to the sum.
pub proof fn lemma_sum_insert(s: Seq<nat>, i: int, x: nat)
    requires
        0 <= i <= s.len(),
    ensures
        sum(s.insert(i, x)) == sum(s) + x,
    decreases s.len(),
{
    let u = s.insert(i, x);
    if i == s.len() {
        assert(u.drop_last() =~= s);
    } else {
        lemma_sum_insert(s.drop_last(), i, x);
        assert(u.drop_last() =~= s.drop_last().insert(i, x));
    }
}

/// The sum of a prefix grows to the sum of all.
pub proof fn lemma_sum_take(s: Seq<nat>, i: int)
    requires
        0 <= i < s.len(),
    ensures
        sum(s.take(i + 1)) == sum(s.take(i)) + s[i],
        sum(s.take(i + 1)) <= sum(s),
    decreases s.len(),
{
    assert(s.take(i + 1).drop_last() =~= s.take(i));
    if i == s.len() - 1 {
        assert(s.take(i + 1) =~= s);
    } else {
        lemma_sum_take(s.drop_last(), i);
        assert(s.drop_last().take(i + 1) =~= s.take(i + 1));
    }
}

// ---- streams ----

/// A record belongs to the stream of its own queue pair and to no other.
pub proof fn lemma_stream_push(rs: Seq<RecView>, r: RecView, qp: Qp)
    ensures
        stream(rs.push(r), qp) == if r.qp == qp {
            stream(rs, qp).push(r)
        } else {
            stream(rs, qp)
        },
{
    assert(rs.push(r).drop_last() =~= rs);
}

/// A queue pair without records has an empty stream, one with a record does
/// not, and no stream is longer than the whole.
pub proof fn lemma_stream_len(rs: Seq<RecView>, qp: Qp)
    ensures
        stream(rs, qp).len() <= rs.len(),
        stream(rs, qp).len() == 0 <==> forall|i: int|
            0 <= i < rs.len() ==> (#[trigger] rs[i]).qp != qp,
    decreases rs.len(),
{
    if rs.len() > 0 {
        lemma_stream_len(rs.drop_last(), qp);
        if stream(rs, qp).len() == 0 {
            assert forall|i: int| 0 <= i < rs.len() implies (#[trigger] rs[i]).qp != qp by {
                if i < rs.len() - 1 {
                    assert(rs.drop_last()[i] == rs[i]);
                }
            }
        }
        if forall|i: int| 0 <= i < rs.len() ==> (#[trigger] rs[i]).qp != qp {
            assert forall|i: int| 0 <= i < rs.drop_last().len() implies (
            #[trigger] rs.drop_last()[i]).qp != qp by {
                assert(rs[i].qp != qp);
            }
            assert(rs[rs.len() - 1].qp != qp);
        }
    }
}

/// Every packet is counted.
pub proof fn lemma_track_packets(rs: Seq<RecView>)
    ensures
        tracked_after(rs).packets == rs.len(),
    decreases rs.len(),
{
    if rs.len() > 0 {
        lemma_track_packets(rs.drop_last());
    }
}

// ---- the report ----

/// One row of the sequence report: what was found of a queue pair.
#[derive(Debug)]
pub struct QpReport {
    pub dst: String,
    pub qp: u32,
    pub packets: u64,
    pub first_psn: u32,
    pub last_psn: u32,
    pub gap_events: u64,
    pub missing: u64,
    pub retransmits: u64,
    pub first_issue_frame: Option<u64>,
}

/// What a [`QpReport`] says.
pub ghost struct RowView {
    pub qp: Qp,
    pub packets: nat,
    pub first_psn: u32,
    pub last_psn: u32,
    pub gap_events: nat,
    pub missing: nat,
    pub retransmits: nat,
    pub first_issue_frame: Option<u64>,
}

impl View for QpReport {
    type V = RowView;

    open spec fn view(&self) -> RowView {
        RowView {
            qp: Qp { dst: self.dst@, qp: self.qp },
            packets: self.packets as nat,
            first_psn: self.first_psn,
            last_psn: self.last_psn,
            gap_events: self.gap_events as nat,
            missing: self.missing as nat,
            retransmits: self.retransmits as nat,
            first_issue_frame: self.first_issue_frame,
        }
    }
}

impl Clone for QpReport {
    fn clone(&self) -> (r: Self)
        ensures
            r@ == self@,
    {
        QpReport {
            dst: self.dst.clone(),
            qp: self.qp,
            packets: self.packets,
            first_psn: self.first_psn,
            last_psn: self.last_psn,
            gap_events: self.gap_events,
            missing: self.missing,
            retransmits: self.retransmits,
            first_issue_frame: self.first_issue_frame,
        }
    }
}

/// The row of a queue pair.
pub open spec fn row_of(qp: Qp, t: Track) -> RowView {
    RowView {
        qp,
        packets: t.packets,
        first_psn: t.first_psn,
        last_psn: t.last_psn,
        gap_events: t.gap_events,
        missing: t.missing,
        retransmits: t.retransmits,
        first_issue_frame: t.first_issue_frame,
    }
}

/// The views of some rows.
pub open spec fn row_views(rows: Seq<QpReport>) -> Seq<RowView> {
    Seq::new(rows.len(), |i: int| rows[i]@)
}

/// The queue pairs of some rows.
pub open spec fn row_qps(rows: Seq<RowView>) -> Seq<Qp> {
    Seq::new(rows.len(), |i: int| rows[i].qp)
}

/// The sequence report: a row per queue pair, and totals.
#[derive(Debug)]
pub struct Report {
    pub rows: Vec<QpReport>,
    pub total_packets: u64,
    pub total_gap_events: u64,
    pub total_missing: u64,
    pub total_retransmits: u64,
}

/// What a [`Report`] says.
pub ghost struct ReportView {
    pub rows: Seq<RowView>,
    pub total_packets: nat,
    pub total_gap_events: nat,
    pub total_missing: nat,
    pub total_retransmits: nat,
}

impl View for Report {
    type V = ReportView;

    open spec fn view(&self) -> ReportView {
        ReportView {
            rows: row_views(self.rows@),
            total_packets: self.total_packets as nat,
            total_gap_events: self.total_gap_events as nat,
            total_missing: self.total_missing as nat,
            total_retransmits: self.total_retransmits as nat,
        }
    }
}

impl Default for Report {
    fn default() -> (r: Self)
        ensures
            r@ == (ReportView {
                rows: Seq::empty(),
                total_packets: 0,
                total_gap_events: 0,
                total_missing: 0,
                total_retransmits: 0,
            }),
    {
        let r = Report {
            rows: Vec::new(),
            total_packets: 0,
            total_gap_events: 0,
            total_missing: 0,
            total_retransmits: 0,
        };
        assert(r@.rows =~= Seq::empty());
        r
    }
}

impl Clone for Report {
    fn clone(&self) -> (r: Self)
        ensures
            r@ == self@,
    {
        let mut rows: Vec<QpReport> = Vec::new();
        for i in 0..self.rows.len()
            invariant
                rows@.len() == i,
                forall|j: int| 0 <= j < i ==> (#[trigger] rows@[j])@ == self.rows@[j]@,
        {
            rows.push(self.rows[i].clone());
        }
        let r = Report {
            rows,
            total_packets: self.total_packets,
            total_gap_events: self.total_gap_events,
            total_missing: self.total_missing,
            total_retransmits: self.total_retransmits,
        };
        assert(r@.rows =~= self@.rows);
        r
    }
}

/// Whether some rows are the analysis of some records: one row for each queue
/// pair that has a record, in order, with what tracking its records finds.
pub open spec fn rows_of(rs: Seq<RecView>, rows: Seq<RowView>) -> bool {
    &&& ascending(row_qps(rows))
    &&& forall|i: int|
        0 <= i < rows.len() ==> {
            let qp = (#[trigger] rows[i]).qp;
            &&& stream(rs, qp).len() > 0
            &&& rows[i] == row_of(qp, tracked_after(stream(rs, qp)))
        }
    &&& forall|j: int| 0 <= j < rs.len() ==> row_qps(rows).contains((#[trigger] rs[j]).qp)
}

/// Whether a report is that of some records: their rows, and totals that are
/// the sums over the rows.
pub open spec fn report_of(rs: Seq<RecView>, r: ReportView) -> bool {
    &&& rows_of(rs, r.rows)
    &&& r.total_packets == sum(Seq::new(r.rows.len(), |i: int| r.rows[i].packets))
    &&& r.total_gap_events == sum(Seq::new(r.rows.len(), |i: int| r.rows[i].gap_events))
    &&& r.total_missing == sum(Seq::new(r.rows.len(), |i: int| r.rows[i].missing))
    &&& r.total_retransmits == sum(Seq::new(r.rows.len(), |i: int| r.rows[i].retransmits))
}

/// The packets that some states have counted.
spec fn packet_counts(states: Seq<QpState>) -> Seq<nat> {
    Seq::new(states.len(), |i: int| states[i]@.packets)
}

/// The states that belong to some queue pairs after some records.
spec fn states_of(rs: Seq<RecView>, keys: Seq<Qp>, states: Seq<QpState>) -> bool {
    &&& keys.len() == states.len()
    &&& ascending(keys)
    &&& forall|i: int|
        0 <= i < keys.len() ==> {
            &&& stream(rs, #[trigger] keys[i]).len() > 0
            &&& states[i]@ == tracked_after(stream(rs, keys[i]))
            &&& bounded(states[i]@)
        }
    &&& forall|j: int| 0 <= j < rs.len() ==> keys.contains((#[trigger] rs[j]).qp)
    &&& sum(packet_counts(states)) == rs.len()
}

/// One record more for a queue pair that is known.
proof fn lemma_states_update(
    rs: Seq<RecView>,
    keys: Seq<Qp>,
    states: Seq<QpState>,
    r: RecView,
    i: int,
    st: QpState,
)
    requires
        states_of(rs, keys, states),
        0 <= i < keys.len(),
        keys[i] == r.qp,
        st@ == observed(states[i]@, r.psn, r.framenum),
        bounded(st@),
    ensures
        states_of(rs.push(r), keys, states.update(i, st)),
{
    let rs2 = rs.push(r);
    let states2 = states.update(i, st);
    assert forall|k: int| 0 <= k < keys.len() implies {
        &&& stream(rs2, #[trigger] keys[k]).len() > 0
        &&& states2[k]@ == tracked_after(stream(rs2, keys[k]))
        &&& bounded(states2[k]@)
    } by {
        lemma_stream_push(rs, r, keys[k]);
        if k == i {
            assert(stream(rs, keys[k]).push(r).drop_last() =~= stream(rs, keys[k]));
        } else {
            lemma_before_total(keys[k], keys[i]);
            if k < i {
                assert(before(keys[k], keys[i]));
            } else {
                assert(before(keys[i], keys[k]));
            }
        }
    }
    assert forall|j: int| 0 <= j < rs2.len() implies keys.contains((#[trigger] rs2[j]).qp) by {
        if j < rs.len() {
            assert(keys.contains(rs[j].qp));
        } else {
            assert(keys[i] == rs2[j].qp);
        }
    }
    lemma_sum_update(packet_counts(states), i, st@.packets);
    assert(packet_counts(states2) =~= packet_counts(states).update(i, st@.packets));
}

/// The first record of a queue pair.
proof fn lemma_states_insert(
    rs: Seq<RecView>,
    keys: Seq<Qp>,
    states: Seq<QpState>,
    r: RecView,
    i: int,
    st: QpState,
)
    requires
        states_of(rs, keys, states),
        0 <= i <= keys.len(),
        forall|k: int| 0 <= k < i ==> before(#[trigger] keys[k], r.qp),
        forall|k: int| i <= k < keys.len() ==> before(r.qp, #[trigger] keys[k]),
        st@ == observed(untracked(), r.psn, r.framenum),
        bounded(st@),
    ensures
        states_of(rs.push(r), keys.insert(i, r.qp), states.insert(i, st)),
{
    let rs2 = rs.push(r);
    let keys2 = keys.insert(i, r.qp);
    let states2 = states.insert(i, st);
    assert forall|k: int| 0 <= k < keys.len() implies #[trigger] keys[k] != r.qp by {
        lemma_before_total(keys[k], r.qp);
    }
    lemma_stream_len(rs, r.qp);
    assert forall|j: int| 0 <= j < rs.len() implies (#[trigger] rs[j]).qp != r.qp by {
        let k = choose|k: int| 0 <= k < keys.len() && keys[k] == rs[j].qp;
        assert(keys.contains(rs[j].qp));
        assert(keys[k] != r.qp);
    }
    assert(stream(rs, r.qp) =~= Seq::empty());
    assert forall|a: int, b: int| 0 <= a < b < keys2.len() implies before(
        #[trigger] keys2[a],
        #[trigger] keys2[b],
    ) by {
        if a < i && b < i {
            assert(before(keys[a], keys[b]));
        } else if a < i && b == i {
            assert(before(keys[a], r.qp));
        } else if a < i {
            assert(before(keys[a], keys[b - 1]));
        } else if a == i {
            assert(before(r.qp, keys[b - 1]));
        } else {
            assert(before(keys[a - 1], keys[b - 1]));
        }
    }
    assert forall|k: int| 0 <= k < keys2.len() implies {
        &&& stream(rs2, #[trigger] keys2[k]).len() > 0
        &&& states2[k]@ == tracked_after(stream(rs2, keys2[k]))
        &&& bounded(states2[k]@)
    } by {
        lemma_stream_push(rs, r, keys2[k]);
        if k == i {
            let one = stream(rs2, r.qp);
            assert(one.drop_last() =~= Seq::empty());
            assert(tracked_after(one.drop_last()) == untracked());
        } else if k < i {
            assert(keys2[k] == keys[k]);
        } else {
            assert(keys2[k] == keys[k - 1]);
        }
    }
    assert forall|j: int| 0 <= j < rs2.len() implies keys2.contains((#[trigger] rs2[j]).qp) by {
        if j < rs.len() {
            assert(keys.contains(rs[j].qp));
            let k = choose|k: int| 0 <= k < keys.len() && keys[k] == rs[j].qp;
            if k < i {
                assert(keys2[k] == rs2[j].qp);
            } else {
                assert(keys2[k + 1] == rs2[j].qp);
            }
        } else {
            assert(keys2[i] == rs2[j].qp);
        }
    }
    lemma_sum_insert(packet_counts(states), i, st@.packets);
    assert(packet_counts(states2) =~= packet_counts(states).insert(i, st@.packets));
}

/// Analyses records, in the order of capture.
pub fn analyze(records: &[Rec]) -> (r: Report)
    requires
        records@.len() <= MAX_RECORDS,
    ensures
        report_of(rec_views(records@), r@),
        r@.total_packets == records@.len(),
{
    let ghost all = rec_views(records@);
    let mut keys: Vec<QpKey> = Vec::new();
    let mut states: Vec<QpState> = Vec::new();
    assert(sum(packet_counts(states@)) == 0);
    for n in 0..records.len()
        invariant
            records@.len() <= MAX_RECORDS,
            all == rec_views(records@),
            states_of(all.take(n as int), key_views(keys@), states@),
    {
        let r = &records[n];
        let ghost rs = all.take(n as int);
        let ghost ks = key_views(keys@);
        let ghost before_states = states@;
        assert(all.take(n + 1) =~= rs.push(all[n as int]));
        assert(all[n as int] == r@);
        let (at, found) = locate(&keys, r.dst.as_str(), r.qp);
        if found {
            proof {
                assert(ks[at as int] == r@.qp);
                lemma_stream_len(rs, r@.qp);
                lemma_track_packets(stream(rs, r@.qp));
            }
            let st = states[at].observe(r.psn, r.framenum);
            proof {
                lemma_states_update(rs, ks, before_states, r@, at as int, st);
            }
            states.set(at, st);
        } else {
            let st = QpState::new().observe(r.psn, r.framenum);
            proof {
                assert forall|k: int| 0 <= k < at implies before(#[trigger] ks[k], r@.qp) by {
                    assert(before(keys@[k]@, r@.qp));
                }
                assert forall|k: int| at <= k < ks.len() implies before(
                    r@.qp,
                    #[trigger] ks[k],
                ) by {
                    assert(before(r@.qp, keys@[k]@));
                }
                lemma_states_insert(rs, ks, before_states, r@, at as int, st);
            }
            let key = QpKey { dst: r.dst.clone(), qp: r.qp };
            assert(key@ == r@.qp);
            keys.insert(at, key);
            states.insert(at, st);
            assert(key_views(keys@) =~= ks.insert(at as int, r@.qp));
        }
    }
    assert(all.take(records@.len() as int) =~= all);
    report(keys, states, Ghost(all))
}

fn report(keys: Vec<QpKey>, states: Vec<QpState>, Ghost(all): Ghost<Seq<RecView>>) -> (r: Report)
    requires
        all.len() <= MAX_RECORDS,
        states_of(all, key_views(keys@), states@),
    ensures
        report_of(all, r@),
        r@.total_packets == all.len(),
{
    let ghost ks = key_views(keys@);
    let ghost counts = packet_counts(states@);
    let ghost rows = Seq::new(ks.len(), |i: int| row_of(ks[i], states@[i]@));
    let ghost gaps = Seq::new(ks.len(), |i: int| rows[i].gap_events);
    let ghost missing = Seq::new(ks.len(), |i: int| rows[i].missing);
    let ghost retransmits = Seq::new(ks.len(), |i: int| rows[i].retransmits);
    let mut report = Report::default();
    for i in 0..keys.len()
        invariant
            ks == key_views(keys@),
            counts == packet_counts(states@),
            rows == Seq::new(ks.len(), |i: int| row_of(ks[i], states@[i]@)),
            gaps == Seq::new(ks.len(), |i: int| rows[i].gap_events),
            missing == Seq::new(ks.len(), |i: int| rows[i].missing),
            retransmits == Seq::new(ks.len(), |i: int| rows[i].retransmits),
            all.len() <= MAX_RECORDS,
            states_of(all, ks, states@),
            report@.rows == rows.take(i as int),
            report.total_packets == sum(counts.take(i as int)),
            report.total_gap_events == sum(gaps.take(i as int)),
            report.total_missing == sum(missing.take(i as int)),
            report.total_retransmits == sum(retransmits.take(i as int)),
            report.total_packets <= MAX_RECORDS,
            report.total_gap_events <= report.total_packets,
            report.total_retransmits <= report.total_packets,
            report.total_missing <= report.total_packets * PSN_HALF,
    {
        let st = states[i];
        proof {
            assert(bounded(states@[i as int]@)) by {
                assert(stream(all, ks[i as int]).len() > 0);
            }
            lemma_sum_take(counts, i as int);
            lemma_sum_take(gaps, i as int);
            lemma_sum_take(missing, i as int);
            lemma_sum_take(retransmits, i as int);
        }
        report.total_packets = report.total_packets + st.packets;
        report.total_gap_events = report.total_gap_events + st.gap_events;
        report.total_missing = report.total_missing + st.missing;
        report.total_retransmits = report.total_retransmits + st.retransmits;
        let row = QpReport {
            dst: keys[i].dst.clone(),
            qp: keys[i].qp,
            packets: st.packets,
            first_psn: st.first_psn,
            last_psn: st.last_psn,
            gap_events: st.gap_events,
            missing: st.missing,
            retransmits: st.retransmits,
            first_issue_frame: st.first_issue_frame,
        };
        assert(row@ == rows[i as int]);
        let ghost pushed = report.rows@;
        report.rows.push(row);
        proof {
            assert(row_views(pushed) == rows.take(i as int));
            assert(row_views(report.rows@) =~= row_views(pushed).push(row@));
            assert(rows.take(i + 1) =~= rows.take(i as int).push(rows[i as int]));
        }
    }
    proof {
        let n = ks.len() as int;
        assert(rows.take(n) =~= rows);
        assert(counts.take(n) =~= counts);
        assert(gaps.take(n) =~= gaps);
        assert(missing.take(n) =~= missing);
        assert(retransmits.take(n) =~= retransmits);
        assert(row_qps(rows) =~= ks);
        assert(Seq::new(rows.len(), |i: int| rows[i].packets) =~= counts);
        assert forall|i: int| 0 <= i < rows.len() implies {
            let qp = (#[trigger] rows[i]).qp;
            &&& stream(all, qp).len() > 0
            &&& rows[i] == row_of(qp, tracked_after(stream(all, qp)))
        } by {
            assert(rows[i].qp == ks[i]);
        }
    }
    report
}

// ---- the report as text ----

/// Cells with a space between and a line end behind.
pub open spec fn table_line(cells: Seq<Seq<char>>) -> Seq<char> {
    joined(cells, " "@) + "\n"@
}

/// A line of the sequence table: the first cell to the left, the others to
/// the right, each in its width.
pub open spec fn sequence_line(
    dst: Seq<char>,
    qp: Seq<char>,
    packets: Seq<char>,
    first_psn: Seq<char>,
    last_psn: Seq<char>,
    gaps: Seq<char>,
    missing: Seq<char>,
    retransmits: Seq<char>,
    issue: Seq<char>,
) -> Seq<char> {
    table_line(
        seq![
            flush_left(dst, 18),
            flush_right(qp, 10),
            flush_right(packets, 8),
            flush_right(first_psn, 9),
            flush_right(last_psn, 9),
            flush_right(gaps, 6),
            flush_right(missing, 8),
            flush_right(retransmits, 8),
            flush_right(issue, 11),
        ],
    )
}

/// A frame number, or a dash.
pub open spec fn issue_text(frame: Option<u64>) -> Seq<char> {
    match frame {
        Some(f) => dec_text(f as nat),
        None => "-"@,
    }
}

/// The line of a row.
pub open spec fn row_text(r: RowView) -> Seq<char> {
    sequence_line(
        r.qp.dst,
        "0x"@ + hex_text(r.qp.qp as nat),
        dec_text(r.packets),
        dec_text(r.first_psn as nat),
        dec_text(r.last_psn as nat),
        dec_text(r.gap_events),
        dec_text(r.missing),
        dec_text(r.retransmits),
        issue_text(r.first_issue_frame),
    )
}

/// The lines of some rows.
pub open spec fn rows_text(rows: Seq<RowView>) -> Seq<char>
    decreases rows.len(),
{
    if rows.len() == 0 {
        Seq::empty()
    } else {
        rows_text(rows.drop_last()) + row_text(rows.last())
    }
}

/// The line under and over a title.
pub open spec fn double_rule() -> Seq<char> {
    "===================================================================\n"@
}

/// The line around the rows of a table.
pub open spec fn single_rule() -> Seq<char> {
    "-------------------------------------------------------------------------------\n"@
}

/// The sequence report as text: a title, then a table with totals, or a line
/// that says that there was nothing to report.
pub open spec fn report_text(r: ReportView) -> Seq<char> {
    let title = double_rule() + "RoCE PSN analysis (reliable connections, per destination QP)\n"@
        + double_rule();
    if r.rows.len() == 0 {
        title + "No RoCE RC packets found.\n"@
    } else {
        title + sequence_line(
            "Dst IP"@,
            "QP"@,
            "Packets"@,
            "FirstPSN"@,
            "LastPSN"@,
            "Gaps"@,
            "Missing"@,
            "Retrans"@,
            "1stIssue@"@,
        ) + single_rule() + rows_text(r.rows) + single_rule() + ("Totals: QPs="@ + dec_text(
            r.rows.len(),
        ) + " Packets="@ + dec_text(r.total_packets) + " Gaps="@ + dec_text(r.total_gap_events))
            + (" Missing="@ + dec_text(r.total_missing) + " Retrans="@ + dec_text(
            r.total_retransmits,
        ) + "\n"@)
    }
}

fn write_sequence_line(
    dst: &str,
    qp: &str,
    packets: &str,
    first_psn: &str,
    last_psn: &str,
    gaps: &str,
    missing: &str,
    retransmits: &str,
    issue: &str,
) -> (r: String)
    ensures
        r@ == sequence_line(
            dst@,
            qp@,
            packets@,
            first_psn@,
            last_psn@,
            gaps@,
            missing@,
            retransmits@,
            issue@,
        ),
{
    let mut cells: Vec<String> = Vec::new();
    cells.push(align_left(dst, 18));
    cells.push(align_right(qp, 10));
    cells.push(align_right(packets, 8));
    cells.push(align_right(first_psn, 9));
    cells.push(align_right(last_psn, 9));
    cells.push(align_right(gaps, 6));
    cells.push(align_right(missing, 8));
    cells.push(align_right(retransmits, 8));
    cells.push(align_right(issue, 11));
    assert(strings(cells@) =~= seq![
        flush_left(dst@, 18),
        flush_right(qp@, 10),
        flush_right(packets@, 8),
        flush_right(first_psn@, 9),
        flush_right(last_psn@, 9),
        flush_right(gaps@, 6),
        flush_right(missing@, 8),
        flush_right(retransmits@, 8),
        flush_right(issue@, 11),
    ]);
    cat2(&join(&cells, " "), "\n")
}

impl QpReport {
    fn to_line(&self) -> (r: String)
        ensures
            r@ == row_text(self@),
    {
        let issue = match self.first_issue_frame {
            Some(f) => dec(f),
            None => String::from_str("-"),
        };
        write_sequence_line(
            &self.dst,
            &cat2("0x", &hex(self.qp as u64)),
            &dec(self.packets),
            &dec(self.first_psn as u64),
            &dec(self.last_psn as u64),
            &dec(self.gap_events),
            &dec(self.missing),
            &dec(self.retransmits),
            &issue,
        )
    }
}

impl Report {
    /// The report as text.
    pub fn to_string(&self) -> (r: String)
        ensures
            r@ == report_text(self@),
    {
        let rule = "===================================================================\n";
        let mut out = cat3(
            rule,
            "RoCE PSN analysis (reliable connections, per destination QP)\n",
            rule,
        );
        if self.rows.len() == 0 {
            out.append("No RoCE RC packets found.\n");
            return out;
        }
        out.append(
            &write_sequence_line(
                "Dst IP",
                "QP",
                "Packets",
                "FirstPSN",
                "LastPSN",
                "Gaps",
                "Missing",
                "Retrans",
                "1stIssue@",
            ),
        );
        let dashes =
            "-------------------------------------------------------------------------------\n";
        out.append(dashes);
        let ghost head = out@;
        assert(head + rows_text(self@.rows.take(0)) =~= head);
        for i in 0..self.rows.len()
            invariant
                out@ == head + rows_text(self@.rows.take(i as int)),
        {
            let ghost rows = self@.rows;
            assert(rows.take(i + 1).drop_last() =~= rows.take(i as int));
            assert(rows[i as int] == self.rows@[i as int]@);
            out.append(&self.rows[i].to_line());
            assert(out@ =~= head + rows_text(rows.take(i + 1)));
        }
        assert(self@.rows.take(self.rows@.len() as int) =~= self@.rows);
        out.append(dashes);
        out.append(
            &cat6(
                "Totals: QPs=",
                &dec(self.rows.len() as u64),
                " Packets=",
                &dec(self.total_packets),
                " Gaps=",
                &dec(self.total_gap_events),
            ),
        );
        out.append(
            &cat5(
                " Missing=",
                &dec(self.total_missing),
                " Retrans=",
                &dec(self.total_retransmits),
                "\n",
            ),
        );
        out
    }
}

// ---- laws ----

/// One step forward is one step, also from the last sequence number to the
/// first; one step back is one step back.
pub proof fn law_next_is_one_ahead(psn: u32)
    ensures
        psn_distance(next_psn(psn), psn) == 1,
        psn_distance(psn, next_psn(psn)) == -1,
        psn_distance(psn, psn) == 0,
{
}

/// Distances are opposite in opposite directions, except between numbers that
/// lie exactly half the circle apart, where both count as behind.
pub proof fn law_distance_is_antisymmetric(a: u32, b: u32)
    ensures
        psn_distance(a, b) == -psn_distance(b, a) || (psn_distance(a, b) == -PSN_HALF
            && psn_distance(b, a) == -PSN_HALF),
        -PSN_HALF <= psn_distance(a, b) < PSN_HALF,
{
}

/// Whether each packet carries the sequence number behind that of the one
/// before it.
pub open spec fn in_sequence(rs: Seq<RecView>) -> bool {
    forall|i: int|
        0 < i < rs.len() ==> (#[trigger] rs[i]).psn % PSN_SPACE == next_psn(rs[i - 1].psn)
}

/// A queue pair whose packets arrive in sequence has no gap, nothing missing,
/// no retransmission and no issue, also across the wrap from the last
/// sequence number to 0.
pub proof fn law_clean_sequence(rs: Seq<RecView>)
    requires
        rs.len() > 0,
        in_sequence(rs),
    ensures
        tracked_after(rs) == (Track {
            packets: rs.len(),
            first_psn: rs[0].psn,
            last_psn: rs.last().psn,
            expected: Some(next_psn(rs.last().psn)),
            gap_events: 0,
            missing: 0,
            retransmits: 0,
            first_issue_frame: None,
        }),
    decreases rs.len(),
{
    let most = rs.drop_last();
    if most.len() == 0 {
        assert(most =~= Seq::empty());
    } else {
        assert forall|i: int| 0 < i < most.len() implies (#[trigger] most[i]).psn % PSN_SPACE
            == next_psn(most[i - 1].psn) by {
            assert(rs[i].psn % PSN_SPACE == next_psn(rs[i - 1].psn));
        }
        law_clean_sequence(most);
        assert(rs[rs.len() - 1].psn % PSN_SPACE == next_psn(rs[rs.len() - 2].psn));
        assert(psn_distance(rs.last().psn, next_psn(most.last().psn)) == 0);
    }
}

/// What always holds of a queue pair that has been seen: the next expected
/// number is the one behind the last, every gap lacks something, each packet
/// but the first is at most one event, and there is a first issue exactly if
/// there is a gap or a retransmission.
pub proof fn law_track_adds_up(rs: Seq<RecView>)
    requires
        rs.len() > 0,
    ensures
        ({
            let t = tracked_after(rs);
            &&& t.packets == rs.len()
            &&& t.first_psn == rs[0].psn
            &&& t.expected == Some(next_psn(t.last_psn))
            &&& t.gap_events <= t.missing
            &&& t.gap_events + t.retransmits < t.packets
            &&& t.first_issue_frame is Some <==> t.gap_events + t.retransmits > 0
        }),
    decreases rs.len(),
{
    let most = rs.drop_last();
    if most.len() == 0 {
        assert(most =~= Seq::empty());
    } else {
        law_track_adds_up(most);
    }
}

/// The first issue is reported where it is seen: at a packet before which
/// there was none.
pub proof fn law_first_issue_is_where_it_is_seen(rs: Seq<RecView>) -> (k: int)
    requires
        tracked_after(rs).first_issue_frame is Some,
    ensures
        0 < k < rs.len(),
        tracked_after(rs).first_issue_frame == Some(rs[k].framenum),
        tracked_after(rs.take(k)).gap_events == 0,
        tracked_after(rs.take(k)).retransmits == 0,
        psn_distance(rs[k].psn, next_psn(tracked_after(rs.take(k)).last_psn)) != 0,
    decreases rs.len(),
{
    let most = rs.drop_last();
    assert(most == rs.take(rs.len() - 1));
    if most.len() == 0 {
        assert(most =~= Seq::empty());
    } else {
        law_track_adds_up(most);
    }
    if tracked_after(most).first_issue_frame is Some {
        let k = law_first_issue_is_where_it_is_seen(most);
        assert(most.take(k) =~= rs.take(k));
        k
    } else {
        rs.len() - 1
    }
}

/// A record of one queue pair does not matter to any other.
pub proof fn law_queue_pairs_are_independent(rs: Seq<RecView>, i: int, qp: Qp)
    requires
        0 <= i < rs.len(),
        rs[i].qp != qp,
    ensures
        stream(rs.remove(i), qp) == stream(rs, qp),
    decreases rs.len(),
{
    let less = rs.remove(i);
    if i == rs.len() - 1 {
        assert(less =~= rs.drop_last());
    } else {
        law_queue_pairs_are_independent(rs.drop_last(), i, qp);
        assert(less.drop_last() =~= rs.drop_last().remove(i));
        assert(less.last() == rs.last());
    }
}

/// Two lists of queue pairs in order that hold the same ones are the same.
pub proof fn lemma_ascending_unique(a: Seq<Qp>, b: Seq<Qp>)
    requires
        ascending(a),
        ascending(b),
        forall|q: Qp| a.contains(q) <==> b.contains(q),
    ensures
        a == b,
    decreases a.len(),
{
    if a.len() == 0 {
        if b.len() > 0 {
            assert(b.contains(b[0]));
            assert(a.contains(b[0]));
        }
        assert(a =~= b);
    } else {
        assert(a.contains(a.last()));
        assert(b.contains(a.last()));
        let x = a.last();
        let y = b.last();
        assert(b.contains(y));
        assert(a.contains(y));
        let i = choose|i: int| 0 <= i < b.len() && b[i] == x;
        let j = choose|j: int| 0 <= j < a.len() && a[j] == y;
        if x != y {
            assert(before(b[i], b[b.len() - 1]));
            assert(before(a[j], a[a.len() - 1]));
            lemma_before_total(x, y);
            assert(false);
        }
        let a1 = a.drop_last();
        let b1 = b.drop_last();
        assert forall|q: Qp| a1.contains(q) <==> b1.contains(q) by {
            if a1.contains(q) {
                let k = choose|k: int| 0 <= k < a1.len() && a1[k] == q;
                assert(a[k] == q);
                assert(before(a[k], a[a.len() - 1]));
                lemma_before_total(q, x);
                assert(b.contains(q));
                let m = choose|m: int| 0 <= m < b.len() && b[m] == q;
                assert(b1[m] == q);
            }
            if b1.contains(q) {
                let k = choose|k: int| 0 <= k < b1.len() && b1[k] == q;
                assert(b[k] == q);
                assert(before(b[k], b[b.len() - 1]));
                lemma_before_total(q, x);
                assert(a.contains(q));
                let m = choose|m: int| 0 <= m < a.len() && a[m] == q;
                assert(a1[m] == q);
            }
        }
        assert(ascending(a1)) by {
            assert forall|i: int, j: int| 0 <= i < j < a1.len() implies before(
                #[trigger] a1[i],
                #[trigger] a1[j],
            ) by {
                assert(before(a[i], a[j]));
            }
        }
        assert(ascending(b1)) by {
            assert forall|i: int, j: int| 0 <= i < j < b1.len() implies before(
                #[trigger] b1[i],
                #[trigger] b1[j],
            ) by {
                assert(before(b[i], b[j]));
            }
        }
        lemma_ascending_unique(a1, b1);
        assert(a =~= a1.push(x));
        assert(b =~= b1.push(y));
    }
}

/// Records have exactly one report.
pub proof fn law_report_is_determined(rs: Seq<RecView>, a: ReportView, b: ReportView)
    requires
        report_of(rs, a),
        report_of(rs, b),
    ensures
        a == b,
{
    let qa = row_qps(a.rows);
    let qb = row_qps(b.rows);
    assert forall|q: Qp| qa.contains(q) <==> qb.contains(q) by {
        lemma_stream_len(rs, q);
        if qa.contains(q) {
            let i = choose|i: int| 0 <= i < qa.len() && qa[i] == q;
            assert(a.rows[i].qp == q);
            let j = choose|j: int| 0 <= j < rs.len() && (#[trigger] rs[j]).qp == q;
            assert(qb.contains(rs[j].qp));
        }
        if qb.contains(q) {
            let i = choose|i: int| 0 <= i < qb.len() && qb[i] == q;
            assert(b.rows[i].qp == q);
            let j = choose|j: int| 0 <= j < rs.len() && (#[trigger] rs[j]).qp == q;
            assert(qa.contains(rs[j].qp));
        }
    }
    lemma_ascending_unique(qa, qb);
    assert(qa.len() == a.rows.len());
    assert(qb.len() == b.rows.len());
    assert forall|i: int| 0 <= i < a.rows.len() implies a.rows[i] == b.rows[i] by {
        assert(qa[i] == a.rows[i].qp);
        assert(qb[i] == b.rows[i].qp);
    }
    assert(a.rows =~= b.rows);
}

/// A stream holds records of its own queue pair alone, and is its own stream.
proof fn lemma_stream_of_stream(rs: Seq<RecView>, qp: Qp)
    ensures
        forall|i: int| 0 <= i < stream(rs, qp).len() ==> (#[trigger] stream(rs, qp)[i]).qp == qp,
        stream(stream(rs, qp), qp) == stream(rs, qp),
    decreases rs.len(),
{
    if rs.len() > 0 {
        lemma_stream_of_stream(rs.drop_last(), qp);
        if rs.last().qp == qp {
            lemma_stream_push(stream(rs.drop_last(), qp), rs.last(), qp);
        }
    }
}

/// A queue pair is analysed with no reference to any other: its row in a
/// report is, in every field, the only row of the report on its own records.
pub proof fn law_row_is_that_of_its_own_records(
    rs: Seq<RecView>,
    all: ReportView,
    j: int,
    own: ReportView,
) -> (i: int)
    requires
        report_of(rs, all),
        0 <= j < rs.len(),
        report_of(stream(rs, rs[j].qp), own),
    ensures
        0 <= i < all.rows.len(),
        all.rows[i].qp == rs[j].qp,
        own.rows == seq![all.rows[i]],
{
    let qp = rs[j].qp;
    let mine = stream(rs, qp);
    lemma_stream_of_stream(rs, qp);
    lemma_stream_len(rs, qp);
    assert(row_qps(all.rows).contains(rs[j].qp));
    let i = choose|i: int| 0 <= i < row_qps(all.rows).len() && row_qps(all.rows)[i] == qp;
    assert(all.rows[i].qp == qp);
    assert forall|k: int| 0 <= k < own.rows.len() implies (#[trigger] own.rows[k]).qp == qp by {
        let q = own.rows[k].qp;
        lemma_stream_len(mine, q);
        let m = choose|m: int| 0 <= m < mine.len() && (#[trigger] mine[m]).qp == q;
        assert(mine[m].qp == qp);
    }
    assert(row_qps(own.rows).contains(mine[0].qp));
    if own.rows.len() > 1 {
        assert(before(row_qps(own.rows)[0], row_qps(own.rows)[1]));
        assert(own.rows[0].qp == qp && own.rows[1].qp == qp);
        lemma_before_total(qp, qp);
    }
    assert(own.rows[0] == all.rows[i]);
    assert(own.rows =~= seq![all.rows[i]]);
    i
}

/// How the packets of different queue pairs are interleaved does not matter:
/// records that hold the same stream for every queue pair have the same
/// report.
pub proof fn law_interleaving_does_not_matter(
    a: Seq<RecView>,
    b: Seq<RecView>,
    ra: ReportView,
    rb: ReportView,
)
    requires
        forall|qp: Qp| #[trigger] stream(a, qp) == stream(b, qp),
        report_of(a, ra),
        report_of(b, rb),
    ensures
        ra == rb,
{
    assert forall|i: int| 0 <= i < ra.rows.len() implies {
        let qp = (#[trigger] ra.rows[i]).qp;
        &&& stream(b, qp).len() > 0
        &&& ra.rows[i] == row_of(qp, tracked_after(stream(b, qp)))
    } by {
        assert(stream(a, ra.rows[i].qp) == stream(b, ra.rows[i].qp));
    }
    assert forall|j: int| 0 <= j < b.len() implies row_qps(ra.rows).contains(
        (#[trigger] b[j]).qp,
    ) by {
        let qp = b[j].qp;
        lemma_stream_len(b, qp);
        lemma_stream_len(a, qp);
        assert(stream(a, qp) == stream(b, qp));
        let k = choose|k: int| 0 <= k < a.len() && (#[trigger] a[k]).qp == qp;
        assert(row_qps(ra.rows).contains(a[k].qp));
    }
    law_report_is_determined(b, ra, rb);
}

/// The distance between two sequence numbers is their difference, up to full
/// turns of the circle, and never more than half of it.
pub proof fn law_distance_is_the_difference(a: u32, b: u32)
    ensures
        (psn_distance(a, b) - (a - b)) % 0x100_0000 == 0,
        -0x80_0000 <= psn_distance(a, b) < 0x80_0000,
{
}

/// The first packet fixes where the sequence starts, and is no issue.
pub proof fn law_first_packet_starts_the_sequence(r: RecView)
    ensures
        ({
            let t = tracked_after(seq![r]);
            &&& t.packets == 1
            &&& t.first_psn == r.psn
            &&& t.last_psn == r.psn
            &&& t.gap_events == 0
            &&& t.missing == 0
            &&& t.retransmits == 0
            &&& t.first_issue_frame is None
        }),
{
    reveal_with_fuel(tracked_after, 2);
    assert(seq![r].drop_last() =~= Seq::empty());
}

/// What one packet more changes, `d` numbers ahead of the one behind the
/// last. In its place, it only moves the end of the sequence. Ahead, by less
/// than half the circle, it is one gap event and `d` packets are missing.
/// Otherwise it is behind, counts as a retransmission and moves nothing. The
/// first issue is the first packet out of its place.
pub proof fn law_next_packet_counts(rs: Seq<RecView>, r: RecView, d: int)
    requires
        rs.len() > 0,
        0 <= d < 0x100_0000,
        (r.psn - tracked_after(rs).last_psn - 1 - d) % 0x100_0000 == 0,
    ensures
        ({
            let t = tracked_after(rs);
            let u = tracked_after(rs.push(r));
            let ahead = 0 < d < 0x80_0000;
            let behind = 0x80_0000 <= d;
            &&& u.packets == t.packets + 1
            &&& u.first_psn == t.first_psn
            &&& u.last_psn == if behind {
                t.last_psn
            } else {
                r.psn
            }
            &&& u.gap_events == t.gap_events + if ahead {
                1int
            } else {
                0
            }
            &&& u.missing == t.missing + if ahead {
                d
            } else {
                0
            }
            &&& u.retransmits == t.retransmits + if behind {
                1int
            } else {
                0
            }
            &&& u.first_issue_frame == if d != 0 && t.first_issue_frame is None {
                Some(r.framenum)
            } else {
                t.first_issue_frame
            }
        }),
{
    law_track_adds_up(rs);
    assert(rs.push(r).drop_last() =~= rs);
    let t = tracked_after(rs);
    let e = next_psn(t.last_psn);
    assert(t.expected == Some(e));
    assert((r.psn - e - d) % 0x100_0000 == 0);
    assert((r.psn - e) % 0x100_0000 == d);
}

/// A number at no distance from the one behind another is behind it.
proof fn lemma_behind(prev: u32, psn: u32)
    requires
        psn_distance(psn, next_psn(prev)) == 0,
    ensures
        (psn - prev - 1) % 0x100_0000 == 0,
{
}

/// A queue pair without a gap and without a retransmission is in sequence:
/// every packet carries the number behind that of the one before it.
pub proof fn law_no_issue_means_in_sequence(rs: Seq<RecView>)
    requires
        tracked_after(rs).gap_events == 0,
        tracked_after(rs).retransmits == 0,
    ensures
        forall|i: int|
            0 < i < rs.len() ==> ((#[trigger] rs[i]).psn - rs[i - 1].psn - 1) % 0x100_0000 == 0,
        rs.len() > 0 ==> tracked_after(rs).last_psn == rs.last().psn,
    decreases rs.len(),
{
    if rs.len() > 0 {
        let most = rs.drop_last();
        if most.len() == 0 {
            assert(most =~= Seq::empty());
        } else {
            law_track_adds_up(most);
            law_no_issue_means_in_sequence(most);
            let last = rs[rs.len() - 1].psn;
            let prev = rs[rs.len() - 2].psn;
            assert(most.last() == rs[rs.len() - 2]);
            assert(tracked_after(most).expected == Some(next_psn(prev)));
            assert(psn_distance(last, next_psn(prev)) == 0);
            lemma_behind(prev, last);
            assert forall|i: int| 0 < i < rs.len() implies ((#[trigger] rs[i]).psn - rs[i - 1].psn
                - 1) % 0x100_0000 == 0 by {
                if i < rs.len() - 1 {
                    assert(most[i] == rs[i] && most[i - 1] == rs[i - 1]);
                    assert((most[i].psn - most[i - 1].psn - 1) % 0x100_0000 == 0);
                }
            }
        }
    }
}

/// The books balance: from the first number to the last there are as many
/// steps as packets that moved the sequence forward and packets that are
/// missing.
pub proof fn law_sequence_numbers_balance(rs: Seq<RecView>)
    requires
        rs.len() > 0,
    ensures
        ({
            let t = tracked_after(rs);
            (t.first_psn + (t.packets - 1 - t.retransmits) + t.missing - t.last_psn) % 0x100_0000
                == 0
        }),
    decreases rs.len(),
{
    let most = rs.drop_last();
    if most.len() == 0 {
        assert(most =~= Seq::empty());
    } else {
        law_track_adds_up(most);
        law_sequence_numbers_balance(most);
        let t = tracked_after(most);
        let e = next_psn(t.last_psn);
        law_distance_is_the_difference(rs.last().psn, e);
    }
}

/// The stream of a queue pair is its records, all of them, in order.
pub proof fn law_stream_is_the_records_of_the_queue_pair(rs: Seq<RecView>, qp: Qp)
    ensures
        stream(rs, qp) == rs.filter(|r: RecView| r.qp == qp),
    decreases rs.len(),
{
    reveal(Seq::filter);
    if rs.len() > 0 {
        law_stream_is_the_records_of_the_queue_pair(rs.drop_last(), qp);
    }
}

/// A row shows what tracking the records of its queue pair finds, each count
/// under its own name.
pub proof fn law_row_shows_the_track(rs: Seq<RecView>, r: ReportView, i: int)
    requires
        report_of(rs, r),
        0 <= i < r.rows.len(),
    ensures
        ({
            let row = r.rows[i];
            let t = tracked_after(rs.filter(|x: RecView| x.qp == row.qp));
            &&& t.packets > 0
            &&& row.packets == t.packets
            &&& row.first_psn == t.first_psn
            &&& row.last_psn == t.last_psn
            &&& row.gap_events == t.gap_events
            &&& row.missing == t.missing
            &&& row.retransmits == t.retransmits
            &&& row.first_issue_frame == t.first_issue_frame
        }),
{
    let row = r.rows[i];
    law_stream_is_the_records_of_the_queue_pair(rs, row.qp);
    lemma_track_packets(stream(rs, row.qp));
}

/// Rows stand in the order of their destinations, as text, and under one
/// destination in the order of their queue pair numbers.
pub proof fn law_rows_are_in_order(rs: Seq<RecView>, r: ReportView, i: int, j: int)
    requires
        report_of(rs, r),
        0 <= i < j < r.rows.len(),
    ensures
        precedes(r.rows[i].qp.dst, r.rows[j].qp.dst) || (r.rows[i].qp.dst == r.rows[j].qp.dst
            && r.rows[i].qp.qp < r.rows[j].qp.qp),
{
    assert(before(row_qps(r.rows)[i], row_qps(r.rows)[j]));
    law_order_is_lexicographic(r.rows[i].qp.dst, r.rows[j].qp.dst);
}

/// A sum is that of its parts: nothing sums to 0, a single number to itself,
/// and two lists to the sum of their sums.
pub proof fn law_sum_adds(a: Seq<nat>, b: Seq<nat>, x: nat)
    ensures
        sum(Seq::empty()) == 0,
        sum(seq![x]) == x,
        sum(a + b) == sum(a) + sum(b),
    decreases b.len(),
{
    reveal_with_fuel(sum, 2);
    assert(seq![x].drop_last() =~= Seq::empty());
    if b.len() == 0 {
        assert(a + b =~= a);
    } else {
        law_sum_adds(a, b.drop_last(), x);
        assert((a + b).drop_last() =~= a + b.drop_last());
    }
}

/// Where every cell fits its width, the columns of the sequence table stand
/// under each other, the destination to the left and the others to the right.
pub proof fn law_sequence_columns_stand_under_each_other(
    dst: Seq<char>,
    qp: Seq<char>,
    packets: Seq<char>,
    first_psn: Seq<char>,
    last_psn: Seq<char>,
    gaps: Seq<char>,
    missing: Seq<char>,
    retransmits: Seq<char>,
    issue: Seq<char>,
)
    requires
        dst.len() <= 18,
        qp.len() <= 10,
        packets.len() <= 8,
        first_psn.len() <= 9,
        last_psn.len() <= 9,
        gaps.len() <= 6,
        missing.len() <= 8,
        retransmits.len() <= 8,
        issue.len() <= 11,
    ensures
        ({
            let line = sequence_line(
                dst,
                qp,
                packets,
                first_psn,
                last_psn,
                gaps,
                missing,
                retransmits,
                issue,
            );
            &&& line.len() == 96
            &&& line.subrange(0, 18) == flush_left(dst, 18)
            &&& line[18] == ' '
            &&& line.subrange(19, 29) == flush_right(qp, 10)
            &&& line[29] == ' '
            &&& line.subrange(30, 38) == flush_right(packets, 8)
            &&& line[38] == ' '
            &&& line.subrange(39, 48) == flush_right(first_psn, 9)
            &&& line[48] == ' '
            &&& line.subrange(49, 58) == flush_right(last_psn, 9)
            &&& line[58] == ' '
            &&& line.subrange(59, 65) == flush_right(gaps, 6)
            &&& line[65] == ' '
            &&& line.subrange(66, 74) == flush_right(missing, 8)
            &&& line[74] == ' '
            &&& line.subrange(75, 83) == flush_right(retransmits, 8)
            &&& line[83] == ' '
            &&& line.subrange(84, 95) == flush_right(issue, 11)
            &&& line[95] == '\n'
        }),
{
    reveal_strlit(" ");
    reveal_strlit("\n");
    let cells = seq![
        flush_left(dst, 18),
        flush_right(qp, 10),
        flush_right(packets, 8),
        flush_right(first_psn, 9),
        flush_right(last_psn, 9),
        flush_right(gaps, 6),
        flush_right(missing, 8),
        flush_right(retransmits, 8),
        flush_right(issue, 11),
    ];
    let line = sequence_line(
        dst,
        qp,
        packets,
        first_psn,
        last_psn,
        gaps,
        missing,
        retransmits,
        issue,
    );
    reveal_with_fuel(joined, 10);
    let first8 = cells.drop_last();
    let first7 = first8.drop_last();
    let first6 = first7.drop_last();
    let first5 = first6.drop_last();
    let first4 = first5.drop_last();
    let first3 = first4.drop_last();
    let first2 = first3.drop_last();
    let first1 = first2.drop_last();
    assert(first8.last() == cells[7]);
    assert(first7.last() == cells[6]);
    assert(first6.last() == cells[5]);
    assert(first5.last() == cells[4]);
    assert(first4.last() == cells[3]);
    assert(first3.last() == cells[2]);
    assert(first2.last() == cells[1]);
    assert(first1[0] == cells[0]);
    assert(cells[0].len() == 18);
    assert(cells[1].len() == 10);
    assert(cells[2].len() == 8);
    assert(cells[3].len() == 9);
    assert(cells[4].len() == 9);
    assert(cells[5].len() == 6);
    assert(cells[6].len() == 8);
    assert(cells[7].len() == 8);
    assert(cells[8].len() == 11);
    assert(line.len() == 96);
    assert(line.subrange(0, 18) =~= cells[0]);
    assert(line.subrange(19, 29) =~= cells[1]);
    assert(line.subrange(30, 38) =~= cells[2]);
    assert(line.subrange(39, 48) =~= cells[3]);
    assert(line.subrange(49, 58) =~= cells[4]);
    assert(line.subrange(59, 65) =~= cells[5]);
    assert(line.subrange(66, 74) =~= cells[6]);
    assert(line.subrange(75, 83) =~= cells[7]);
    assert(line.subrange(84, 95) =~= cells[8]);
}

/// A row shows its queue pair in hexadecimal, its counts and sequence numbers
/// in decimal, and the frame of the first issue or a dash.
pub proof fn law_sequence_row_is_shown(r: RowView)
    ensures
        row_text(r) == sequence_line(
            r.qp.dst,
            "0x"@ + hex_text(r.qp.qp as nat),
            dec_text(r.packets),
            dec_text(r.first_psn as nat),
            dec_text(r.last_psn as nat),
            dec_text(r.gap_events),
            dec_text(r.missing),
            dec_text(r.retransmits),
            if r.first_issue_frame is Some {
                dec_text(r.first_issue_frame->0 as nat)
            } else {
                "-"@
            },
        ),
{
}

/// The lines of a table are those of its rows, one after the other.
pub proof fn law_sequence_rows_follow_each_other(rows: Seq<RowView>, r: RowView)
    ensures
        rows_text(Seq::empty()) == Seq::<char>::empty(),
        rows_text(rows.push(r)) == rows_text(rows) + row_text(r),
{
    assert(rows.push(r).drop_last() =~= rows);
}

/// The sequence report starts with its title; it ends with the totals, or says
/// that there was nothing to report.
pub proof fn law_sequence_report_has_title_and_totals(r: ReportView)
    ensures
        ({
            let rule = "==================================================================="@;
            let line =
                "-------------------------------------------------------------------------------"@;
            let title = rule + "\n"@ + (
            "RoCE PSN analysis (reliable connections, per destination QP)\n"@) + (rule + "\n"@);
            let heads = sequence_line(
                "Dst IP"@,
                "QP"@,
                "Packets"@,
                "FirstPSN"@,
                "LastPSN"@,
                "Gaps"@,
                "Missing"@,
                "Retrans"@,
                "1stIssue@"@,
            );
            let totals = "Totals: QPs="@ + dec_text(r.rows.len()) + " Packets="@ + dec_text(
                r.total_packets,
            ) + " Gaps="@ + dec_text(r.total_gap_events) + " Missing="@ + dec_text(
                r.total_missing,
            ) + " Retrans="@ + dec_text(r.total_retransmits) + "\n"@;
            report_text(r) == title + if r.rows.len() == 0 {
                "No RoCE RC packets found.\n"@
            } else {
                heads + (line + "\n"@) + rows_text(r.rows) + (line + "\n"@) + totals
            }
        }),
{
    lemma_rules();
    let rule = "==================================================================="@ + "\n"@;
    let line = "-------------------------------------------------------------------------------"@
        + "\n"@;
    let title = rule + ("RoCE PSN analysis (reliable connections, per destination QP)\n"@) + rule;
    let heads = sequence_line(
        "Dst IP"@,
        "QP"@,
        "Packets"@,
        "FirstPSN"@,
        "LastPSN"@,
        "Gaps"@,
        "Missing"@,
        "Retrans"@,
        "1stIssue@"@,
    );
    let first = "Totals: QPs="@ + dec_text(r.rows.len()) + " Packets="@ + dec_text(
        r.total_packets,
    ) + " Gaps="@ + dec_text(r.total_gap_events);
    let second = " Missing="@ + dec_text(r.total_missing) + " Retrans="@ + dec_text(
        r.total_retransmits,
    ) + "\n"@;
    let totals = first + " Missing="@ + dec_text(r.total_missing) + " Retrans="@ + dec_text(
        r.total_retransmits,
    ) + "\n"@;
    assert(totals =~= first + second);
    if r.rows.len() > 0 {
        assert(title + heads + line + rows_text(r.rows) + line + first + second =~= title + (heads
            + line + rows_text(r.rows) + line + totals));
    }
}

/// The rules around a title and around rows, without their line ends.
pub proof fn lemma_rules()
    ensures
        double_rule() == "==================================================================="@
            + "\n"@,
        single_rule()
            == "-------------------------------------------------------------------------------"@
            + "\n"@,
{
    reveal_strlit("\n");
    reveal_strlit("===================================================================");
    reveal_strlit("===================================================================\n");
    reveal_strlit(
        "-------------------------------------------------------------------------------",
    );
    reveal_strlit(
        "-------------------------------------------------------------------------------\n",
    );
    assert(double_rule() =~= "==================================================================="@
        + "\n"@);
    assert(single_rule()
        =~= "-------------------------------------------------------------------------------"@
        + "\n"@);
}

/// Nothing but zeros sums to 0.
pub proof fn lemma_sum_zeros(s: Seq<nat>)
    requires
        forall|i: int| 0 <= i < s.len() ==> s[i] == 0,
    ensures
        sum(s) == 0,
    decreases s.len(),
{
    if s.len() > 0 {
        lemma_sum_zeros(s.drop_last());
    }
}

/// A queue pair stands in one place of a list that is in order.
pub proof fn lemma_one_place(ks: Seq<Qp>, qp: Qp) -> (k: int)
    requires
        ascending(ks),
        ks.contains(qp),
    ensures
        0 <= k < ks.len(),
        ks[k] == qp,
        forall|i: int| 0 <= i < ks.len() && i != k ==> #[trigger] ks[i] != qp,
{
    let k = choose|k: int| 0 <= k < ks.len() && ks[k] == qp;
    assert forall|i: int| 0 <= i < ks.len() && i != k implies #[trigger] ks[i] != qp by {
        lemma_before_total(qp, qp);
        if i < k {
            assert(before(ks[i], ks[k]));
        } else {
            assert(before(ks[k], ks[i]));
        }
    }
    k
}

proof fn lemma_all_counted(rs: Seq<RecView>, ks: Seq<Qp>)
    requires
        ascending(ks),
        forall|j: int| 0 <= j < rs.len() ==> ks.contains((#[trigger] rs[j]).qp),
    ensures
        sum(Seq::new(ks.len(), |i: int| stream(rs, ks[i]).len())) == rs.len(),
    decreases rs.len(),
{
    let all = Seq::new(ks.len(), |i: int| stream(rs, ks[i]).len());
    if rs.len() == 0 {
        lemma_sum_zeros(all);
    } else {
        let most = rs.drop_last();
        let last = rs[rs.len() - 1];
        let had = Seq::new(ks.len(), |i: int| stream(most, ks[i]).len());
        assert forall|j: int| 0 <= j < most.len() implies ks.contains(
            (#[trigger] most[j]).qp,
        ) by {
            assert(most[j] == rs[j]);
        }
        lemma_all_counted(most, ks);
        let k = lemma_one_place(ks, last.qp);
        assert(all =~= had.update(k, had[k] + 1));
        lemma_sum_update(had, k, had[k] + 1);
    }
}

/// Every queue pair with a record has a row, in one place; the totals count
/// every record once, and every gap, missing packet and retransmission of
/// every row.
pub proof fn law_totals_count_every_record(rs: Seq<RecView>, r: ReportView, j: int)
    requires
        report_of(rs, r),
        0 <= j < rs.len(),
    ensures
        exists|k: int|
            #![trigger r.rows[k]]
            0 <= k < r.rows.len() && r.rows[k].qp == rs[j].qp && forall|i: int|
                0 <= i < r.rows.len() && i != k ==> (#[trigger] r.rows[i]).qp != rs[j].qp,
        r.total_packets == rs.len(),
        r.total_gap_events == sum(r.rows.map_values(|x: RowView| x.gap_events)),
        r.total_missing == sum(r.rows.map_values(|x: RowView| x.missing)),
        r.total_retransmits == sum(r.rows.map_values(|x: RowView| x.retransmits)),
{
    let ks = row_qps(r.rows);
    lemma_all_counted(rs, ks);
    let packets = Seq::new(r.rows.len(), |i: int| r.rows[i].packets);
    let counts = Seq::new(ks.len(), |i: int| stream(rs, ks[i]).len());
    assert forall|i: int| 0 <= i < r.rows.len() implies packets[i] == counts[i] by {
        lemma_track_packets(stream(rs, r.rows[i].qp));
        assert(ks[i] == r.rows[i].qp);
    }
    assert(packets =~= counts);
    assert(ks.contains(rs[j].qp));
    let k = lemma_one_place(ks, rs[j].qp);
    assert(r.rows[k].qp == rs[j].qp);
    assert forall|i: int| 0 <= i < r.rows.len() && i != k implies (#[trigger] r.rows[i]).qp
        != rs[j].qp by {
        assert(ks[i] == r.rows[i].qp);
    }
    assert(r.rows.map_values(|x: RowView| x.gap_events) =~= Seq::new(
        r.rows.len(),
        |i: int| r.rows[i].gap_events,
    ));
    assert(r.rows.map_values(|x: RowView| x.missing) =~= Seq::new(
        r.rows.len(),
        |i: int| r.rows[i].missing,
    ));
    assert(r.rows.map_values(|x: RowView| x.retransmits) =~= Seq::new(
        r.rows.len(),
        |i: int| r.rows[i].retransmits,
    ));
}

/// A packet of which no transport opcode, no queue pair or no sequence number
/// can be read has no record, and neither has one that is not of a reliable
/// connection: its opcode is above 31.
pub proof fn law_other_packets_have_no_record(
    framenum: u64,
    dst: Seq<char>,
    tree: Seq<NodeView>,
)
    ensures
        number_in(tree, "infiniband.bth.opcode"@) is None ==> recorded(framenum, dst, tree) is None,
        number_in(tree, "infiniband.bth.destqp"@) is None ==> recorded(framenum, dst, tree) is None,
        number_in(tree, "infiniband.bth.psn"@) is None ==> recorded(framenum, dst, tree) is None,
        number_in(tree, "infiniband.bth.opcode"@) matches Some(op) ==> op >= 32 ==> recorded(
            framenum,
            dst,
            tree,
        ) is None,
{
}

} // verus!
