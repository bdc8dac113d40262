//! From a capture to output: frames in batches, dissection in parallel,
//! filtering, rendering and statistics, in the order of capture.

use vstd::prelude::*;

use rayon::iter::{IntoParallelRefIterator, ParallelIterator};

use crate::analysis::{analyze, record, Rec};
#[allow(unused_imports)]
use crate::analysis::{rec_views, recorded, report_of, report_text, RecView, ReportView, MAX_RECORDS};
use crate::cli::{Args, OutputMode};
#[allow(unused_imports)]
use crate::cli::mode_of;
use crate::congestion::{analyze_cong, cong_record, CongRec};
#[allow(unused_imports)]
use crate::congestion::{
    cong_recorded,
    cong_report_of,
    cong_report_text,
    cong_views,
    CongReportView,
    CongView,
};
use crate::dfilter::{quote, Filter};
#[allow(unused_imports)]
use crate::dfilter::{compiled, quoted, truth, ExprView};
use crate::dissect::{dissect, DissectConfig, Dissection};
#[allow(unused_imports)]
use crate::dissect::{dissected, DissectionView};
use crate::field::{write_verbose, Node};
#[allow(unused_imports)]
use crate::field::{entries, lines, views, NodeView};
use crate::pcap::{CaptureError, CaptureReader, Input, RawPacket};
#[allow(unused_imports)]
use crate::pcap::{capture_next, CaptureFile, PacketView};
use crate::print::{format_fields, format_line, frame_node, rel_delta, FrameMeta};
#[allow(unused_imports)]
use crate::print::{fields_line, frame_layer, summary_line, MetaView};
#[allow(unused_imports)]
use crate::roundtrip::law_packets_take_input;
use crate::text::{cat2, cat3, same};
#[allow(unused_imports)]
use crate::text::strings;

verus! {

// ---- what is asked for ----

/// A statistics report.
#[derive(Debug, Clone, Copy, PartialEq, Eq, Structural)]
pub enum StatKind {
    /// Sequence numbers per queue pair.
    Psn,
    /// Congestion per queue pair.
    Cong,
}

/// The message for an unknown report, given the quoted form of its name.
pub open spec fn unknown_statistics_text(quotation: Seq<char>) -> Seq<char> {
    "unknown -z statistics spec "@ + quotation + "; supported: roce,psn | roce,cong"@
}

/// The message for an unknown report, given the quoted form of its name.
pub fn unknown_statistics(quotation: &str) -> (r: String)
    ensures
        r@ == unknown_statistics_text(quotation@),
{
    cat3("unknown -z statistics spec ", quotation, "; supported: roce,psn | roce,cong")
}

/// The report with a given name. Each has three names.
pub open spec fn statistics_named(name: Seq<char>) -> Option<StatKind> {
    if name == "roce,psn"@ || name == "roce-psn"@ || name == "rdma,psn"@ {
        Some(StatKind::Psn)
    } else if name == "roce,cong"@ || name == "roce-cong"@ || name == "rdma,cong"@ {
        Some(StatKind::Cong)
    } else {
        None
    }
}

fn find_statistics(name: &str) -> (r: Option<StatKind>)
    ensures
        r == statistics_named(name@),
{
    if same(name, "roce,psn") || same(name, "roce-psn") || same(name, "rdma,psn") {
        Some(StatKind::Psn)
    } else if same(name, "roce,cong") || same(name, "roce-cong") || same(name, "rdma,cong") {
        Some(StatKind::Cong)
    } else {
        None
    }
}

/// What a run does, as the options ask for it.
#[derive(Debug)]
pub struct Plan {
    pub filter: Option<Filter>,
    pub stat: Option<StatKind>,
    pub mode: OutputMode,
    pub fields: Vec<String>,
    pub quiet: bool,
    pub parallel: bool,
    pub cfg: DissectConfig,
}

/// What a [`Plan`] says about output.
pub ghost struct PlanView {
    pub filter: Option<ExprView>,
    pub stat: Option<StatKind>,
    pub mode: OutputMode,
    pub fields: Seq<Seq<char>>,
    pub quiet: bool,
    pub force: bool,
}

/// The expression of an optional filter.
pub open spec fn filter_view(f: Option<Filter>) -> Option<ExprView> {
    match f {
        Some(f) => Some(f@),
        None => None,
    }
}

impl View for Plan {
    type V = PlanView;

    open spec fn view(&self) -> PlanView {
        PlanView {
            filter: filter_view(self.filter),
            stat: self.stat,
            mode: self.mode,
            fields: strings(self.fields@),
            quiet: self.quiet,
            force: self.cfg.nvme_force,
        }
    }
}

/// The characters of an optional text.
pub open spec fn text_view(s: Option<String>) -> Option<Seq<char>> {
    match s {
        Some(s) => Some(s@),
        None => None,
    }
}

/// The filter that is asked for, or what is wrong with it.
pub open spec fn asked_filter(source: Option<Seq<char>>) -> Result<
    Option<ExprView>,
    Seq<char>,
> {
    match source {
        Some(s) => match compiled(s) {
            Ok(e) => Ok(Some(e)),
            Err(e) => Err("invalid display filter: "@ + e),
        },
        None => Ok(None),
    }
}

/// The report that is asked for, or what is wrong with it.
pub open spec fn asked_statistics(name: Option<Seq<char>>) -> Result<
    Option<StatKind>,
    Seq<char>,
> {
    match name {
        Some(n) => match statistics_named(n) {
            Some(k) => Ok(Some(k)),
            None => Err(unknown_statistics_text(quoted(n))),
        },
        None => Ok(None),
    }
}

/// What the options ask for, or what is wrong with them: with the filter
/// first, then with the report.
pub open spec fn planned(args: Args) -> Result<PlanView, Seq<char>> {
    match asked_filter(text_view(args.display_filter)) {
        Ok(filter) => match asked_statistics(text_view(args.statistics)) {
            Ok(stat) => Ok(
                PlanView {
                    filter,
                    stat,
                    mode: mode_of(args.fields@.len(), args.verbose),
                    fields: strings(args.fields@),
                    quiet: args.quiet,
                    force: args.nvme,
                },
            ),
            Err(e) => Err(e),
        },
        Err(e) => Err(e),
    }
}

/// The view of a plan or an error.
pub open spec fn plan_result(r: Result<Plan, String>) -> Result<PlanView, Seq<char>> {
    match r {
        Ok(p) => Ok(p@),
        Err(e) => Err(e@),
    }
}

impl Plan {
    /// Works out what the options ask for, before any packet is read.
    pub fn new(args: &Args) -> (r: Result<Plan, String>)
        ensures
            plan_result(r) == planned(*args),
            r matches Ok(p) ==> p.parallel == !args.no_parallel,
    {
        let filter = match &args.display_filter {
            Some(source) => match Filter::compile(source.as_str()) {
                Ok(f) => Some(f),
                Err(e) => return Err(cat2("invalid display filter: ", &e)),
            },
            None => None,
        };
        let stat = match &args.statistics {
            Some(name) => match find_statistics(name.as_str()) {
                Some(k) => Some(k),
                None => return Err(unknown_statistics(&quote(name.as_str()))),
            },
            None => None,
        };
        let mut fields: Vec<String> = Vec::new();
        for i in 0..args.fields.len()
            invariant
                fields@.len() == i,
                forall|j: int| 0 <= j < i ==> (#[trigger] fields@[j])@ == args.fields@[j]@,
        {
            fields.push(args.fields[i].clone());
        }
        assert(strings(fields@) =~= strings(args.fields@));
        Ok(
            Plan {
                filter,
                stat,
                mode: args.output_mode(),
                fields,
                quiet: args.quiet,
                parallel: !args.no_parallel,
                cfg: DissectConfig { nvme_force: args.nvme },
            },
        )
    }
}

// ---- frames ----

/// A packet with its place in the capture.
#[derive(Debug)]
pub struct Frame {
    /// Its number, from 1 on.
    pub number: u64,
    /// Seconds since the first frame.
    pub delta_sec: i64,
    /// Nanoseconds to add to that, of either sign.
    pub delta_nsec: i64,
    pub packet: RawPacket,
}

/// What a [`Frame`] says.
pub ghost struct FrameView {
    pub number: u64,
    pub delta_sec: int,
    pub delta_nsec: int,
    pub packet: PacketView,
}

impl View for Frame {
    type V = FrameView;

    open spec fn view(&self) -> FrameView {
        FrameView {
            number: self.number,
            delta_sec: self.delta_sec as int,
            delta_nsec: self.delta_nsec as int,
            packet: self.packet@,
        }
    }
}

/// The views of some frames.
pub open spec fn frame_views(fs: Seq<Frame>) -> Seq<FrameView> {
    Seq::new(fs.len(), |i: int| fs[i]@)
}

/// A capture being read frame by frame, up to a number of frames.
pub struct Session {
    reader: CaptureReader,
    reference: Option<(u32, u32)>,
    number: u64,
    max: u64,
    cap: usize,
}

/// What a [`Session`] says: the capture, the time of its first frame, the
/// number of frames so far, their limit, and the size of a batch.
pub ghost struct SessionView {
    pub file: CaptureFile,
    pub reference: Option<(u32, u32)>,
    pub number: u64,
    pub max: u64,
    pub cap: nat,
}

impl Session {
    /// The capture.
    pub closed spec fn file(&self) -> CaptureFile {
        self.reader@
    }

    /// The time of the first frame.
    pub closed spec fn first_time(&self) -> Option<(u32, u32)> {
        self.reference
    }

    /// The number of frames so far.
    pub closed spec fn count(&self) -> u64 {
        self.number
    }

    /// The limit on frames.
    pub closed spec fn limit(&self) -> u64 {
        self.max
    }

    /// The size of a batch.
    pub closed spec fn batch_size(&self) -> nat {
        self.cap as nat
    }
}

impl View for Session {
    type V = SessionView;

    open spec fn view(&self) -> SessionView {
        SessionView {
            file: self.file(),
            reference: self.first_time(),
            number: self.count(),
            max: self.limit(),
            cap: self.batch_size(),
        }
    }
}

/// The time that frames are counted from: that of the first.
pub open spec fn reference_time(s: SessionView, p: PacketView) -> (u32, u32) {
    match s.reference {
        Some(r) => r,
        None => (p.ts_sec, p.ts_nsec),
    }
}

/// The frame that a packet becomes.
pub open spec fn framed(s: SessionView, p: PacketView) -> FrameView {
    let reference = reference_time(s, p);
    FrameView {
        number: (s.number + 1) as u64,
        delta_sec: p.ts_sec - reference.0,
        delta_nsec: p.ts_nsec - reference.1,
        packet: p,
    }
}

/// The session behind a packet.
pub open spec fn advanced(s: SessionView, p: PacketView, file: CaptureFile) -> SessionView {
    SessionView {
        file,
        reference: Some(reference_time(s, p)),
        number: (s.number + 1) as u64,
        ..s
    }
}

/// A session at the start of a capture: at most `count` frames, if it is given,
/// and at least one per batch.
pub open spec fn started(file: CaptureFile, count: Option<u64>, batch: nat) -> SessionView {
    SessionView {
        file,
        reference: None,
        number: 0,
        max: match count {
            Some(n) => n,
            None => u64::MAX,
        },
        cap: if batch == 0 {
            1
        } else {
            batch
        },
    }
}

/// What comes of filling a batch.
pub ghost struct Filled {
    pub out: Result<(), CaptureError>,
    pub session: SessionView,
    pub rest: Seq<u8>,
    pub batch: Seq<FrameView>,
}

/// Filling a batch: packets are appended until it is full, the limit is
/// reached or the capture ends.
pub open spec fn filled(
    s: SessionView,
    rest: Seq<u8>,
    ended: bool,
    batch: Seq<FrameView>,
) -> Filled
    decreases rest.len(),
{
    if batch.len() >= s.cap || s.number >= s.max {
        Filled { out: Ok(()), session: s, rest, batch }
    } else {
        let step = capture_next(s.file, rest, ended);
        match step.out {
            Ok(Some(p)) => if step.rest.len() < rest.len() {
                filled(advanced(s, p, step.file), step.rest, ended, batch.push(framed(s, p)))
            } else {
                Filled { out: Ok(()), session: s, rest, batch }
            },
            Ok(None) => Filled {
                out: Ok(()),
                session: SessionView { file: step.file, ..s },
                rest: step.rest,
                batch,
            },
            Err(e) => Filled {
                out: Err(e),
                session: SessionView { file: step.file, ..s },
                rest: step.rest,
                batch,
            },
        }
    }
}

impl Session {
    /// Starts reading frames: at most `count` of them, if it is given, and at
    /// least one per batch.
    pub fn new(reader: CaptureReader, count: Option<u64>, batch: usize) -> (r: Self)
        ensures
            r@ == (SessionView {
                file: reader@,
                reference: None,
                number: 0,
                max: match count {
                    Some(n) => n,
                    None => u64::MAX,
                },
                cap: if batch == 0 {
                    1
                } else {
                    batch as nat
                },
            }),
            r@ == started(reader@, count, batch as nat),
    {
        Session {
            reader,
            reference: None,
            number: 0,
            max: match count {
                Some(n) => n,
                None => u64::MAX,
            },
            cap: if batch == 0 {
                1
            } else {
                batch
            },
        }
    }

    /// Appends frames to the batch until it is full, the limit is reached or
    /// the capture ends. Where more input is needed, the same call goes on
    /// once it is there.
    pub fn fill_batch(&mut self, input: &mut Input, batch: &mut Vec<Frame>) -> (r: Result<
        (),
        CaptureError,
    >)
        ensures
            final(input).ended() == old(input).ended(),
            ({
                let f = filled(
                    old(self)@,
                    old(input).rest(),
                    old(input).ended(),
                    frame_views(old(batch)@),
                );
                &&& r == f.out
                &&& final(self)@ == f.session
                &&& final(input).rest() == f.rest
                &&& frame_views(final(batch)@) == f.batch
            }),
    {
        let ghost whole = filled(
            self@,
            input.rest(),
            input.ended(),
            frame_views(batch@),
        );
        while batch.len() < self.cap && self.number < self.max
            invariant
                input.ended() == old(input).ended(),
                filled(self@, input.rest(), input.ended(), frame_views(batch@)) == whole,
                whole == filled(
                    old(self)@,
                    old(input).rest(),
                    old(input).ended(),
                    frame_views(old(batch)@),
                ),
            decreases input.rest().len(),
        {
            let ghost s = self@;
            let ghost rest = input.rest();
            proof {
                law_packets_take_input(s.file, rest, input.ended());
            }
            let packet = match self.reader.next_packet(input) {
                Ok(Some(p)) => p,
                Ok(None) => return Ok(()),
                Err(e) => return Err(e),
            };
            let ghost before = frame_views(batch@);
            self.number = self.number + 1;
            let (ref_sec, ref_nsec) = match self.reference {
                Some(r) => r,
                None => (packet.ts_sec, packet.ts_nsec),
            };
            self.reference = Some((ref_sec, ref_nsec));
            let (delta_sec, delta_nsec) = rel_delta(
                packet.ts_sec,
                packet.ts_nsec,
                ref_sec,
                ref_nsec,
            );
            let frame = Frame { number: self.number, delta_sec, delta_nsec, packet };
            assert(frame@ == framed(s, packet@));
            batch.push(frame);
            assert(frame_views(batch@) =~= before.push(frame@));
        }
        Ok(())
    }
}

// ---- dissection ----

/// Rayon's `par_iter`, `map` and `collect` on a vector: applies `f` to every
/// item, possibly at the same time on several threads, and returns the results
/// in the order of the items. What is claimed is that there is one result per
/// item and that each is what `f` may return for the item in the same place.
/// That rayon panics where the machine lets it start no worker thread is left
/// unsaid.
#[verifier::external_body]
fn par_map<T: Sync, U: Send, F: Fn(&T) -> U + Sync + Send>(items: &Vec<T>, f: F) -> (r: Vec<U>)
    requires
        forall|i: int| 0 <= i < items@.len() ==> call_requires(f, (&#[trigger] items@[i],)),
    ensures
        r@.len() == items@.len(),
        forall|i: int| 0 <= i < r@.len() ==> call_ensures(f, (&items@[i],), #[trigger] r@[i]),
{
    items.par_iter().map(f).collect()
}

/// Dissects every frame of a batch, on several threads or on one: the results
/// are the same, in the same order.
pub fn dissect_batch(batch: &Vec<Frame>, cfg: &DissectConfig, parallel: bool) -> (r: Vec<
    Dissection,
>)
    ensures
        r@.len() == batch@.len(),
        forall|i: int|
            0 <= i < r@.len() ==> (#[trigger] r@[i])@ == dissected(
                batch@[i].packet@,
                cfg.nvme_force,
            ),
{
    if parallel {
        let cfg = *cfg;
        let dissect_frame = |f: &Frame| -> (d: Dissection)
            ensures
                d@ == dissected(f.packet@, cfg.nvme_force),
        {
            dissect(&f.packet, &cfg)
        };
        par_map(batch, dissect_frame)
    } else {
        let mut out: Vec<Dissection> = Vec::new();
        for i in 0..batch.len()
            invariant
                out@.len() == i,
                forall|j: int|
                    0 <= j < i ==> (#[trigger] out@[j])@ == dissected(
                        batch@[j].packet@,
                        cfg.nvme_force,
                    ),
        {
            out.push(dissect(&batch[i].packet, cfg));
        }
        out
    }
}

/// The dissection of a frame.
#[verifier::opaque]
pub open spec fn seen(f: FrameView, force: bool) -> DissectionView {
    dissected(f.packet, force)
}

/// Dissects every frame of a batch.
fn see_batch(batch: &Vec<Frame>, cfg: &DissectConfig, parallel: bool) -> (r: Vec<Dissection>)
    ensures
        r@.len() == batch@.len(),
        forall|i: int|
            0 <= i < r@.len() ==> (#[trigger] r@[i])@ == seen(batch@[i]@, cfg.nvme_force),
{
    reveal(seen);
    dissect_batch(batch, cfg, parallel)
}

// ---- statistics ----

/// What was collected for a statistics report, in the order of capture.
#[derive(Debug)]
pub struct Collected {
    pub psn: Vec<Rec>,
    pub cong: Vec<CongRec>,
}

/// What a [`Collected`] says.
pub ghost struct CollectedView {
    pub psn: Seq<RecView>,
    pub cong: Seq<CongView>,
}

impl View for Collected {
    type V = CollectedView;

    open spec fn view(&self) -> CollectedView {
        CollectedView { psn: rec_views(self.psn@), cong: cong_views(self.cong@) }
    }
}

/// One frame more. A report sees every frame, whatever the filter says.
pub open spec fn collected(
    stat: Option<StatKind>,
    force: bool,
    c: CollectedView,
    f: FrameView,
) -> CollectedView {
    let d = seen(f, force);
    match stat {
        Some(StatKind::Psn) => match recorded(f.number, d.summary.dst, d.tree) {
            Some(r) => CollectedView { psn: c.psn.push(r), ..c },
            None => c,
        },
        Some(StatKind::Cong) => match cong_recorded(d.summary.dst, d.tree) {
            Some(r) => CollectedView { cong: c.cong.push(r), ..c },
            None => c,
        },
        None => c,
    }
}

/// Some frames more.
pub open spec fn collected_all(
    stat: Option<StatKind>,
    force: bool,
    c: CollectedView,
    fs: Seq<FrameView>,
) -> CollectedView
    decreases fs.len(),
{
    if fs.len() == 0 {
        c
    } else {
        collected(stat, force, collected_all(stat, force, c, fs.drop_last()), fs.last())
    }
}

/// Whether a text is the report that is asked for on what was collected;
/// nothing where none is asked for.
pub open spec fn is_statistics(
    stat: Option<StatKind>,
    c: CollectedView,
    text: Seq<char>,
) -> bool {
    match stat {
        Some(StatKind::Psn) => exists|r: ReportView|
            #[trigger] report_of(c.psn, r) && text == report_text(r),
        Some(StatKind::Cong) => exists|r: CongReportView|
            #[trigger] cong_report_of(c.cong, r) && text == cong_report_text(r),
        None => text.len() == 0,
    }
}

impl Collected {
    /// Nothing yet.
    pub fn new() -> (r: Self)
        ensures
            r@ == (CollectedView { psn: Seq::empty(), cong: Seq::empty() }),
    {
        let r = Collected { psn: Vec::new(), cong: Vec::new() };
        assert(r@.psn =~= Seq::empty());
        assert(r@.cong =~= Seq::empty());
        r
    }

    /// Whether the counts of a report can hold what was collected.
    pub fn fits(&self) -> (r: bool)
        ensures
            r == (self.psn@.len() <= MAX_RECORDS && self.cong@.len() <= MAX_RECORDS),
    {
        self.psn.len() as u64 <= MAX_RECORDS && self.cong.len() as u64 <= MAX_RECORDS
    }

    /// Collects what a report needs of a dissected frame.
    fn collect(&mut self, stat: Option<StatKind>, frame: &Frame, d: &Dissection, force: bool)
        requires
            d@ == seen(frame@, force),
        ensures
            final(self)@ == collected(stat, force, old(self)@, frame@),
    {
        match stat {
            Some(StatKind::Psn) => {
                if let Some(r) = record(frame.number, d.summary.dst.as_str(), d.tree.as_slice()) {
                    let ghost before = rec_views(self.psn@);
                    self.psn.push(r);
                    assert(rec_views(self.psn@) =~= before.push(r@));
                }
            },
            Some(StatKind::Cong) => {
                if let Some(r) = cong_record(d.summary.dst.as_str(), d.tree.as_slice()) {
                    let ghost before = cong_views(self.cong@);
                    self.cong.push(r);
                    assert(cong_views(self.cong@) =~= before.push(r@));
                }
            },
            None => {},
        }
    }

    /// The report that is asked for, as text.
    pub fn statistics(&self, stat: Option<StatKind>) -> (r: String)
        requires
            self.psn@.len() <= MAX_RECORDS,
            self.cong@.len() <= MAX_RECORDS,
        ensures
            is_statistics(stat, self@, r@),
    {
        match stat {
            Some(StatKind::Psn) => {
                let report = analyze(self.psn.as_slice());
                assert(report_of(self@.psn, report@));
                report.to_string()
            },
            Some(StatKind::Cong) => {
                let report = analyze_cong(self.cong.as_slice());
                assert(cong_report_of(self@.cong, report@));
                report.to_string()
            },
            None => String::new(),
        }
    }
}

// ---- output ----

/// The tree that filters and output see: the frame layer, then the protocol
/// layers.
pub open spec fn whole_tree(meta: MetaView, p: PacketView, d: DissectionView) -> Seq<NodeView> {
    seq![frame_layer(meta, p.orig_len, p.data.len())] + d.tree
}

/// What is printed of a frame: nothing in a quiet run or where the filter is
/// not true of it, else its summary line, its tree and an empty line, or its
/// fields.
pub open spec fn rendered(plan: PlanView, f: FrameView, rel_time: Seq<char>) -> Seq<char> {
    let meta = MetaView { number: f.number, rel_time };
    let d = seen(f, plan.force);
    let tree = whole_tree(meta, f.packet, d);
    if plan.quiet {
        Seq::empty()
    } else if plan.filter is Some && !truth(plan.filter->0, tree) {
        Seq::empty()
    } else {
        match plan.mode {
            OutputMode::Summary => summary_line(meta, d.summary) + "\n"@,
            OutputMode::Verbose => lines(entries(tree)) + "\n"@,
            OutputMode::Fields => fields_line(tree, plan.fields) + "\n"@,
        }
    }
}

/// What is printed of some frames, one after the other.
pub open spec fn output(
    plan: PlanView,
    fs: Seq<FrameView>,
    rel_times: Seq<Seq<char>>,
) -> Seq<char>
    decreases fs.len(),
{
    if fs.len() == 0 {
        Seq::empty()
    } else {
        output(plan, fs.drop_last(), rel_times) + rendered(
            plan,
            fs.last(),
            rel_times[fs.len() - 1],
        )
    }
}

impl Plan {
    fn render(&self, frame: &Frame, rel_time: &String, d: Dissection, out: &mut String)
        requires
            d@ == seen(frame@, self.cfg.nvme_force),
        ensures
            final(out)@ == old(out)@ + rendered(self@, frame@, rel_time@),
    {
        if self.quiet {
            assert(out@ + Seq::<char>::empty() =~= out@);
            return;
        }
        let meta = &FrameMeta { number: frame.number, rel_time: rel_time.clone() };
        let packet = &frame.packet;
        let ghost start = out@;
        let ghost dv = d@;
        if self.filter.is_none() && self.mode == OutputMode::Summary {
            out.append(&format_line(meta, &d.summary));
            out.append("\n");
            assert(out@ =~= start + (summary_line(meta@, dv.summary) + "\n"@));
            return;
        }
        let summary = d.summary;
        let mut nodes: Vec<Node> = Vec::new();
        let mut tree = d.tree;
        nodes.push(frame_node(meta, packet.orig_len, packet.data.len()));
        nodes.append(&mut tree);
        let ghost all = whole_tree(meta@, packet@, dv);
        assert(views(nodes@) =~= all);
        if let Some(f) = &self.filter {
            if !f.matches(nodes.as_slice()) {
                assert(out@ + Seq::<char>::empty() =~= out@);
                return;
            }
        }
        match self.mode {
            OutputMode::Summary => {
                out.append(&format_line(meta, &summary));
                out.append("\n");
                assert(out@ =~= start + (summary_line(meta@, dv.summary) + "\n"@));
            },
            OutputMode::Verbose => {
                write_verbose(out, nodes.as_slice());
                out.append("\n");
                assert(out@ =~= start + (lines(entries(all)) + "\n"@));
            },
            OutputMode::Fields => {
                out.append(&format_fields(nodes.as_slice(), &self.fields));
                out.append("\n");
                assert(out@ =~= start + (fields_line(all, self@.fields) + "\n"@));
            },
        }
    }

    /// Dissects a batch, prints its frames to `out` and collects what a report
    /// needs. `rel_times` are the times of the frames since the first, in
    /// seconds with six decimals.
    pub fn flush_batch(
        &self,
        batch: &mut Vec<Frame>,
        rel_times: &Vec<String>,
        records: &mut Collected,
        out: &mut String,
    )
        requires
            rel_times@.len() == old(batch)@.len(),
        ensures
            final(out)@ == old(out)@ + output(
                self@,
                frame_views(old(batch)@),
                strings(rel_times@),
            ),
            final(records)@ == collected_all(
                self.stat,
                self.cfg.nvme_force,
                old(records)@,
                frame_views(old(batch)@),
            ),
            final(batch)@.len() == 0,
    {
        let results = see_batch(batch, &self.cfg, self.parallel);
        let ghost frames = frame_views(batch@);
        let ghost times = strings(rel_times@);
        let ghost force = self.cfg.nvme_force;
        let ghost start = out@;
        let ghost had = records@;
        let ghost ds = results@;
        assert(start + output(self@, frames.take(0), times) =~= start);
        let mut i: usize = 0;
        for d in it: results.into_iter()
            invariant
                it.seq() == ds,
                i == it.index(),
                batch@ == old(batch)@,
                frames == frame_views(batch@),
                times == strings(rel_times@),
                rel_times@.len() == batch@.len(),
                ds.len() == batch@.len(),
                force == self.cfg.nvme_force,
                forall|j: int| 0 <= j < ds.len() ==> (#[trigger] ds[j])@ == seen(frames[j], force),
                out@ == start + output(self@, frames.take(i as int), times),
                records@ == collected_all(self.stat, force, had, frames.take(i as int)),
        {
            assert(d == ds[i as int]);
            assert(i < batch.len());
            let frame = &batch[i];
            let ghost more = frames.take(i + 1);
            assert(more.drop_last() =~= frames.take(i as int));
            assert(more.last() == frame@);
            records.collect(self.stat, frame, &d, self.cfg.nvme_force);
            self.render(frame, &rel_times[i], d, out);
            assert(out@ =~= start + output(self@, more, times));
            i += 1;
        }
        assert(frames.take(frames.len() as int) =~= frames);
        batch.clear();
    }
}

// ---- laws ----

/// The names of the reports, three each, and no other.
pub proof fn law_reports_have_three_names(name: Seq<char>)
    ensures
        statistics_named("roce,psn"@) == Some(StatKind::Psn),
        statistics_named("roce-psn"@) == Some(StatKind::Psn),
        statistics_named("rdma,psn"@) == Some(StatKind::Psn),
        statistics_named("roce,cong"@) == Some(StatKind::Cong),
        statistics_named("roce-cong"@) == Some(StatKind::Cong),
        statistics_named("rdma,cong"@) == Some(StatKind::Cong),
        statistics_named(name) is Some ==> name == "roce,psn"@ || name == "roce-psn"@ || name
            == "rdma,psn"@ || name == "roce,cong"@ || name == "roce-cong"@ || name
            == "rdma,cong"@,
{
    reveal_strlit("roce,psn");
    reveal_strlit("roce-psn");
    reveal_strlit("rdma,psn");
    reveal_strlit("roce,cong");
    reveal_strlit("roce-cong");
    reveal_strlit("rdma,cong");
    assert("roce,cong"@.len() == 9 && "roce-cong"@.len() == 9 && "rdma,cong"@.len() == 9);
    assert("roce,psn"@.len() == 8 && "roce-psn"@.len() == 8 && "rdma,psn"@.len() == 8);
}

/// A run does what its options say. It is refused exactly if the filter cannot
/// be compiled or the report is not known, and the filter is looked at first.
pub proof fn law_options_are_followed(args: Args)
    ensures
        ({
            let source = args.display_filter;
            let name = args.statistics;
            let bad_filter = source matches Some(f) && compiled(f@) is Err;
            let bad_name = name matches Some(n) && statistics_named(n@) is None;
            match planned(args) {
                Ok(p) => {
                    &&& !bad_filter && !bad_name
                    &&& p.filter is Some <==> source is Some
                    &&& source matches Some(f) ==> compiled(f@) == Ok::<ExprView, Seq<char>>(
                        p.filter->0,
                    )
                    &&& p.stat is Some <==> name is Some
                    &&& name matches Some(n) ==> statistics_named(n@) == p.stat
                    &&& p.mode == OutputMode::Fields <==> args.fields@.len() > 0
                    &&& p.mode == OutputMode::Verbose <==> args.fields@.len() == 0
                        && args.verbose
                    &&& p.fields.len() == args.fields@.len()
                    &&& forall|i: int|
                        0 <= i < p.fields.len() ==> #[trigger] p.fields[i] == args.fields@[i]@
                    &&& p.quiet == args.quiet
                    &&& p.force == args.nvme
                },
                Err(e) => if bad_filter {
                    e == "invalid display filter: "@ + compiled(source->0@)->Err_0
                } else {
                    &&& bad_name
                    &&& e == "unknown -z statistics spec "@ + quoted(name->0@)
                        + "; supported: roce,psn | roce,cong"@
                },
            }
        }),
{
}

/// The tree that filters and output see is the frame layer, then all protocol
/// layers in their order.
pub proof fn law_frame_layer_comes_first(meta: MetaView, p: PacketView, d: DissectionView)
    ensures
        ({
            let tree = whole_tree(meta, p, d);
            &&& tree.len() == d.tree.len() + 1
            &&& tree[0] == frame_layer(meta, p.orig_len, p.data.len())
            &&& tree.skip(1) == d.tree
        }),
{
    assert(whole_tree(meta, p, d).skip(1) =~= d.tree);
}

/// A quiet run prints nothing. Any other prints a frame exactly if there is no
/// filter or the filter is true of its tree: as a summary line, as the lines of
/// its tree and an empty line, or as a line of fields.
pub proof fn law_what_is_printed(plan: PlanView, f: FrameView, rel_time: Seq<char>)
    ensures
        ({
            let text = rendered(plan, f, rel_time);
            let meta = MetaView { number: f.number, rel_time };
            let d = dissected(f.packet, plan.force);
            let tree = whole_tree(meta, f.packet, d);
            let hidden = plan.quiet || (plan.filter matches Some(e) && !truth(e, tree));
            &&& text.len() == 0 <==> hidden
            &&& !hidden ==> {
                &&& text.last() == '\n'
                &&& plan.mode == OutputMode::Summary ==> text.drop_last() == summary_line(
                    meta,
                    d.summary,
                )
                &&& plan.mode == OutputMode::Verbose ==> text.drop_last() == lines(entries(tree))
                &&& plan.mode == OutputMode::Fields ==> text.drop_last() == fields_line(
                    tree,
                    plan.fields,
                )
            }
        }),
{
    reveal(seen);
    reveal_strlit("\n");
    let text = rendered(plan, f, rel_time);
    let meta = MetaView { number: f.number, rel_time };
    let d = dissected(f.packet, plan.force);
    let tree = whole_tree(meta, f.packet, d);
    if text.len() > 0 {
        assert(plan.mode == OutputMode::Summary ==> text.drop_last() =~= summary_line(
            meta,
            d.summary,
        ));
        assert(plan.mode == OutputMode::Verbose ==> text.drop_last() =~= lines(entries(tree)));
        assert(plan.mode == OutputMode::Fields ==> text.drop_last() =~= fields_line(
            tree,
            plan.fields,
        ));
    }
}

/// A report collects the record of every frame that has one, in order, for
/// its own kind alone; without a report nothing is collected.
pub proof fn law_reports_collect_their_own_records(
    force: bool,
    c: CollectedView,
    f: FrameView,
)
    ensures
        ({
            let d = dissected(f.packet, force);
            let psn = collected(Some(StatKind::Psn), force, c, f);
            let cong = collected(Some(StatKind::Cong), force, c, f);
            &&& collected(None, force, c, f) == c
            &&& psn.cong == c.cong
            &&& recorded(f.number, d.summary.dst, d.tree) is None ==> psn.psn == c.psn
            &&& recorded(f.number, d.summary.dst, d.tree) matches Some(r) ==> psn.psn
                == c.psn.push(r)
            &&& cong.psn == c.psn
            &&& cong_recorded(d.summary.dst, d.tree) is None ==> cong.cong == c.cong
            &&& cong_recorded(d.summary.dst, d.tree) matches Some(r) ==> cong.cong == c.cong.push(
                r,
            )
        }),
{
    reveal(seen);
}

/// What is printed at the end is a report of the kind that is asked for, on
/// the records of that kind; nothing where none is asked for.
pub proof fn law_report_is_of_the_kind_asked_for(
    a: CollectedView,
    b: CollectedView,
    text: Seq<char>,
)
    ensures
        is_statistics(None, a, text) <==> text == Seq::<char>::empty(),
        a.psn == b.psn ==> is_statistics(Some(StatKind::Psn), a, text) == is_statistics(
            Some(StatKind::Psn),
            b,
            text,
        ),
        a.cong == b.cong ==> is_statistics(Some(StatKind::Cong), a, text) == is_statistics(
            Some(StatKind::Cong),
            b,
            text,
        ),
        is_statistics(Some(StatKind::Psn), a, text) ==> exists|r: ReportView|
            #[trigger] report_of(a.psn, r) && text == report_text(r),
        is_statistics(Some(StatKind::Cong), a, text) ==> exists|r: CongReportView|
            #[trigger] cong_report_of(a.cong, r) && text == cong_report_text(r),
{
    if text.len() == 0 {
        assert(text =~= Seq::empty());
    }
}

} // verus!
