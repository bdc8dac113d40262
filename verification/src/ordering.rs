//! That batches, threads and filters do not change what is printed of a
//! capture, or in which order, and what a whole run prints.

use vstd::prelude::*;

#[allow(unused_imports)]
use crate::cli::OutputMode;
#[allow(unused_imports)]
use crate::dissect::dissected;
#[allow(unused_imports)]
use crate::pcap::{capture_next, CaptureError, CaptureFile, PacketView};
#[allow(unused_imports)]
use crate::pcapng::{ng_block, ng_next, NgBlock, NgFile};
#[allow(unused_imports)]
use crate::pipeline::{
    advanced,
    collected_all,
    filled,
    framed,
    output,
    rendered,
    seen,
    started,
    CollectedView,
    Filled,
    FrameView,
    PlanView,
    SessionView,
    StatKind,
};
#[allow(unused_imports)]
use crate::print::{summary_line, MetaView};
#[allow(unused_imports)]
use crate::roundtrip::{capture_all, law_packets_take_input, law_reading_in_pieces};

verus! {

// ---- frames ----

/// The frames of a whole capture from here on, up to the limit of the session.
pub open spec fn frames_from(s: SessionView, rest: Seq<u8>) -> Seq<FrameView>
    decreases rest.len(),
{
    let step = capture_next(s.file, rest, true);
    if s.number >= s.max {
        Seq::empty()
    } else {
        match step.out {
            Ok(Some(p)) => if step.rest.len() < rest.len() {
                seq![framed(s, p)] + frames_from(advanced(s, p, step.file), step.rest)
            } else {
                Seq::empty()
            },
            _ => Seq::empty(),
        }
    }
}

/// Whether a whole capture can be read from here to its end, or to the limit
/// of the session, without an error.
pub open spec fn reads_clean(s: SessionView, rest: Seq<u8>) -> bool
    decreases rest.len(),
{
    let step = capture_next(s.file, rest, true);
    s.number >= s.max || match step.out {
        Ok(Some(p)) => step.rest.len() < rest.len() ==> reads_clean(
            advanced(s, p, step.file),
            step.rest,
        ),
        Ok(None) => true,
        Err(_) => false,
    }
}

/// The batches of a whole capture, one after the other, until one stays empty.
pub open spec fn batches_from(s: SessionView, rest: Seq<u8>) -> Seq<FrameView>
    decreases rest.len(),
{
    let f = filled(s, rest, true, Seq::empty());
    if f.out is Ok && f.batch.len() > 0 && f.rest.len() < rest.len() {
        f.batch + batches_from(f.session, f.rest)
    } else {
        Seq::empty()
    }
}

/// The end of a capture uses up the input, and nothing follows it.
proof fn lemma_end_of_capture(f: CaptureFile, rest: Seq<u8>)
    ensures
        capture_next(f, rest, true).out == Ok::<Option<PacketView>, CaptureError>(None)
            ==> capture_next(f, rest, true).rest.len() == 0,
        rest.len() == 0 ==> capture_next(f, rest, true).out == Ok::<
            Option<PacketView>,
            CaptureError,
        >(None),
{
    if f is PcapNg {
        lemma_end_of_blocks(f->PcapNg_0, rest);
    }
}

proof fn lemma_end_of_blocks(f: NgFile, rest: Seq<u8>)
    ensures
        ng_next(f, rest, true).out == Ok::<Option<PacketView>, CaptureError>(None) ==> ng_next(
            f,
            rest,
            true,
        ).rest.len() == 0,
    decreases rest.len(),
{
    match ng_block(f, rest, true) {
        NgBlock::Stop(step) => {},
        NgBlock::Next(f2, rest2) => {
            lemma_end_of_blocks(f2, rest2);
        },
    }
}

/// Filling a batch takes the next frames, as many as there is room for, and
/// leaves the others.
proof fn lemma_filled(s: SessionView, rest: Seq<u8>, batch: Seq<FrameView>)
    requires
        reads_clean(s, rest),
    ensures
        ({
            let f = filled(s, rest, true, batch);
            &&& f.out is Ok
            &&& reads_clean(f.session, f.rest)
            &&& f.session.cap == s.cap
            &&& f.rest.len() <= rest.len()
            &&& f.batch + frames_from(f.session, f.rest) == batch + frames_from(s, rest)
            &&& f.batch.len() >= batch.len()
            &&& f.batch.len() < s.cap ==> frames_from(f.session, f.rest).len() == 0
            &&& f.batch.len() > batch.len() ==> f.rest.len() < rest.len()
        }),
    decreases rest.len(),
{
    if batch.len() >= s.cap || s.number >= s.max {
    } else {
        let step = capture_next(s.file, rest, true);
        law_packets_take_input(s.file, rest, true);
        lemma_end_of_capture(s.file, rest);
        match step.out {
            Ok(Some(p)) => {
                let next = advanced(s, p, step.file);
                let more = batch.push(framed(s, p));
                lemma_filled(next, step.rest, more);
                assert(more + frames_from(next, step.rest) =~= batch + (seq![framed(s, p)]
                    + frames_from(next, step.rest)));
            },
            _ => {
                let last = SessionView { file: step.file, ..s };
                lemma_end_of_capture(step.file, step.rest);
                assert(frames_from(last, step.rest) =~= Seq::empty());
                assert(frames_from(s, rest) =~= Seq::empty());
            },
        }
    }
}

/// Read in batches of any size, a capture gives the same frames in the same
/// order.
pub proof fn law_batch_size_does_not_matter(s: SessionView, rest: Seq<u8>)
    requires
        s.cap > 0,
        reads_clean(s, rest),
    ensures
        batches_from(s, rest) == frames_from(s, rest),
    decreases rest.len(),
{
    let none = Seq::<FrameView>::empty();
    let f = filled(s, rest, true, none);
    lemma_filled(s, rest, none);
    assert(none + frames_from(s, rest) =~= frames_from(s, rest));
    if f.batch.len() > 0 {
        law_batch_size_does_not_matter(f.session, f.rest);
    } else {
        assert(f.batch + frames_from(f.session, f.rest) =~= none);
    }
}

proof fn lemma_frames(s: SessionView, rest: Seq<u8>, reference: (u32, u32))
    requires
        s.number <= s.max,
        s.reference == Some(reference) || (s.reference is None && (capture_all(
            s.file,
            rest,
        ).len() > 0 ==> reference == (capture_all(s.file, rest)[0].ts_sec, capture_all(
            s.file,
            rest,
        )[0].ts_nsec))),
    ensures
        ({
            let all = capture_all(s.file, rest);
            let fs = frames_from(s, rest);
            &&& fs.len() == if s.max - s.number < all.len() {
                s.max - s.number
            } else {
                all.len() as int
            }
            &&& forall|i: int|
                0 <= i < fs.len() ==> #[trigger] fs[i] == (FrameView {
                    number: (s.number + 1 + i) as u64,
                    delta_sec: all[i].ts_sec - reference.0,
                    delta_nsec: all[i].ts_nsec - reference.1,
                    packet: all[i],
                })
        }),
    decreases rest.len(),
{
    let step = capture_next(s.file, rest, true);
    law_packets_take_input(s.file, rest, true);
    let all = capture_all(s.file, rest);
    let fs = frames_from(s, rest);
    if let Ok(Some(p)) = step.out {
        let later = capture_all(step.file, step.rest);
        assert(all == seq![p] + later);
        assert(all[0] == p);
        if s.number < s.max {
            let next = advanced(s, p, step.file);
            lemma_frames(next, step.rest, reference);
            let fs2 = frames_from(next, step.rest);
            assert(fs == seq![framed(s, p)] + fs2);
            assert forall|i: int| 0 <= i < fs.len() implies #[trigger] fs[i] == (FrameView {
                number: (s.number + 1 + i) as u64,
                delta_sec: all[i].ts_sec - reference.0,
                delta_nsec: all[i].ts_nsec - reference.1,
                packet: all[i],
            }) by {
                if i > 0 {
                    assert(fs[i] == fs2[i - 1]);
                    assert(all[i] == later[i - 1]);
                }
            }
        }
    }
}

/// The frames of a capture are its packets in order, numbered from 1 on, each
/// with its time since the first; there are as many as the limit allows.
pub proof fn law_frames_are_the_packets(s: SessionView, rest: Seq<u8>)
    requires
        s.number == 0,
        s.reference is None,
    ensures
        ({
            let all = capture_all(s.file, rest);
            let fs = frames_from(s, rest);
            &&& fs.len() == if s.max < all.len() {
                s.max as int
            } else {
                all.len() as int
            }
            &&& forall|i: int|
                0 <= i < fs.len() ==> #[trigger] fs[i] == (FrameView {
                    number: (i + 1) as u64,
                    delta_sec: all[i].ts_sec - all[0].ts_sec,
                    delta_nsec: all[i].ts_nsec - all[0].ts_nsec,
                    packet: all[i],
                })
        }),
{
    let all = capture_all(s.file, rest);
    lemma_frames(s, rest, (all[0].ts_sec, all[0].ts_nsec));
}

/// Filling a batch does not depend on how much of the capture has arrived.
/// With part of the bytes it either asks for more, and goes on from there once
/// more is there, or does what it does with all of them.
#[verifier::rlimit(20)]
pub proof fn law_filling_in_pieces(
    s: SessionView,
    a: Seq<u8>,
    b: Seq<u8>,
    ended: bool,
    batch: Seq<FrameView>,
)
    ensures
        ({
            let part = filled(s, a, false, batch);
            let whole = filled(s, a + b, ended, batch);
            if part.out == Err::<(), CaptureError>(CaptureError::Incomplete) {
                whole == filled(part.session, part.rest + b, ended, part.batch)
            } else {
                whole == (Filled { rest: part.rest + b, ..part })
            }
        }),
    decreases a.len(),
{
    if batch.len() >= s.cap || s.number >= s.max {
    } else {
        let step = capture_next(s.file, a, false);
        let all = capture_next(s.file, a + b, ended);
        law_reading_in_pieces(s.file, a, b, ended);
        law_packets_take_input(s.file, a, false);
        match step.out {
            Ok(Some(p)) => {
                assert(all.out == step.out && all.file == step.file && all.rest == step.rest + b);
                assert(all.rest.len() < (a + b).len());
                law_filling_in_pieces(
                    advanced(s, p, step.file),
                    step.rest,
                    b,
                    ended,
                    batch.push(framed(s, p)),
                );
            },
            Ok(None) => {
                assert(all.out == step.out && all.file == step.file && all.rest == step.rest + b);
            },
            Err(e) => {
                let part = SessionView { file: step.file, ..s };
                if e == CaptureError::Incomplete {
                    assert(all == capture_next(part.file, step.rest + b, ended));
                    law_packets_take_input(s.file, a + b, ended);
                    law_packets_take_input(part.file, step.rest + b, ended);
                } else {
                    assert(all.out == step.out && all.file == step.file && all.rest == step.rest
                        + b);
                }
            },
        }
    }
}

// ---- output ----

/// What is printed of frames does not depend on where one batch ends and the
/// next begins.
pub proof fn law_output_in_batches(
    plan: PlanView,
    a: Seq<FrameView>,
    b: Seq<FrameView>,
    ta: Seq<Seq<char>>,
    tb: Seq<Seq<char>>,
)
    requires
        a.len() == ta.len(),
        b.len() == tb.len(),
    ensures
        output(plan, a + b, ta + tb) == output(plan, a, ta) + output(plan, b, tb),
    decreases b.len(),
{
    if b.len() == 0 {
        assert(a + b =~= a);
        assert(ta + tb =~= ta);
        assert(output(plan, a, ta) + output(plan, b, tb) =~= output(plan, a, ta));
    } else {
        let b1 = b.drop_last();
        let tb1 = tb.drop_last();
        law_output_in_batches(plan, a, b1, ta, tb1);
        assert((a + b).drop_last() =~= a + b1);
        lemma_output_times(plan, a + b1, ta + tb, ta + tb1);
        lemma_output_times(plan, b1, tb, tb1);
        assert((ta + tb)[(a + b).len() - 1] == tb[b.len() - 1]);
        assert(output(plan, a + b, ta + tb) =~= output(plan, a, ta) + output(plan, b, tb));
    }
}

/// Only the times of the frames themselves matter.
proof fn lemma_output_times(
    plan: PlanView,
    fs: Seq<FrameView>,
    t: Seq<Seq<char>>,
    u: Seq<Seq<char>>,
)
    requires
        forall|i: int| 0 <= i < fs.len() ==> t[i] == u[i],
    ensures
        output(plan, fs, t) == output(plan, fs, u),
    decreases fs.len(),
{
    if fs.len() > 0 {
        lemma_output_times(plan, fs.drop_last(), t, u);
    }
}

/// What is collected from frames does not depend on where one batch ends and
/// the next begins.
pub proof fn law_collected_in_batches(
    stat: Option<StatKind>,
    force: bool,
    c: CollectedView,
    a: Seq<FrameView>,
    b: Seq<FrameView>,
)
    ensures
        collected_all(stat, force, c, a + b) == collected_all(
            stat,
            force,
            collected_all(stat, force, c, a),
            b,
        ),
    decreases b.len(),
{
    if b.len() == 0 {
        assert(a + b =~= a);
    } else {
        law_collected_in_batches(stat, force, c, a, b.drop_last());
        assert((a + b).drop_last() =~= a + b.drop_last());
    }
}

/// A filter hides frames and changes nothing of those it shows: neither their
/// numbers nor anything else.
pub proof fn law_filter_only_hides(plan: PlanView, f: FrameView, rel_time: Seq<char>)
    ensures
        ({
            let shown = rendered(plan, f, rel_time);
            shown.len() == 0 || shown == rendered(PlanView { filter: None, ..plan }, f, rel_time)
        }),
{
}

// ---- whole runs ----

/// What comes of a run over a whole capture: how it ended, what it printed and
/// what it collected for a report.
pub ghost struct Run {
    pub out: Result<(), CaptureError>,
    pub text: Seq<char>,
    pub collected: CollectedView,
}

/// The time texts of some frames, each made of the seconds and nanoseconds
/// since the first frame.
pub open spec fn times(
    clock: spec_fn(int, int) -> Seq<char>,
    fs: Seq<FrameView>,
) -> Seq<Seq<char>> {
    Seq::new(fs.len(), |i: int| clock(fs[i].delta_sec, fs[i].delta_nsec))
}

/// A run over a whole capture, after some output: batches are filled and
/// flushed, one after the other, until one stays empty or cannot be read.
pub open spec fn run_from(
    plan: PlanView,
    clock: spec_fn(int, int) -> Seq<char>,
    s: SessionView,
    rest: Seq<u8>,
    text: Seq<char>,
    collected: CollectedView,
) -> Run
    decreases rest.len(),
{
    let f = filled(s, rest, true, Seq::empty());
    if f.out is Ok && f.batch.len() > 0 && f.rest.len() < rest.len() {
        run_from(
            plan,
            clock,
            f.session,
            f.rest,
            text + output(plan, f.batch, times(clock, f.batch)),
            collected_all(plan.stat, plan.force, collected, f.batch),
        )
    } else {
        Run { out: f.out, text, collected }
    }
}

/// A run prints and collects all frames of the capture in order, as if they
/// were one batch.
pub proof fn law_run_covers_the_capture(
    plan: PlanView,
    clock: spec_fn(int, int) -> Seq<char>,
    s: SessionView,
    rest: Seq<u8>,
    text: Seq<char>,
    collected: CollectedView,
)
    requires
        s.cap > 0,
        reads_clean(s, rest),
    ensures
        ({
            let fs = frames_from(s, rest);
            run_from(plan, clock, s, rest, text, collected) == (Run {
                out: Ok(()),
                text: text + output(plan, fs, times(clock, fs)),
                collected: collected_all(plan.stat, plan.force, collected, fs),
            })
        }),
    decreases rest.len(),
{
    let none = Seq::<FrameView>::empty();
    let f = filled(s, rest, true, none);
    let fs = frames_from(s, rest);
    lemma_filled(s, rest, none);
    assert(none + fs =~= fs);
    if f.batch.len() > 0 {
        let later = frames_from(f.session, f.rest);
        let more = text + output(plan, f.batch, times(clock, f.batch));
        law_run_covers_the_capture(
            plan,
            clock,
            f.session,
            f.rest,
            more,
            collected_all(plan.stat, plan.force, collected, f.batch),
        );
        assert(fs == f.batch + later);
        assert(times(clock, fs) =~= times(clock, f.batch) + times(clock, later));
        law_output_in_batches(
            plan,
            f.batch,
            later,
            times(clock, f.batch),
            times(clock, later),
        );
        law_collected_in_batches(plan.stat, plan.force, collected, f.batch, later);
        assert(more + output(plan, later, times(clock, later)) =~= text + output(
            plan,
            fs,
            times(clock, fs),
        ));
    } else {
        assert(fs =~= none);
        assert(text + output(plan, fs, times(clock, fs)) =~= text);
    }
}

/// The size of a batch does not matter to the frames, nor to whether they can
/// be read.
proof fn lemma_cap_does_not_matter(s: SessionView, cap: nat, rest: Seq<u8>)
    ensures
        frames_from(SessionView { cap, ..s }, rest) == frames_from(s, rest),
        reads_clean(SessionView { cap, ..s }, rest) == reads_clean(s, rest),
    decreases rest.len(),
{
    let step = capture_next(s.file, rest, true);
    if let Ok(Some(p)) = step.out {
        if s.number < s.max && step.rest.len() < rest.len() {
            lemma_cap_does_not_matter(advanced(s, p, step.file), cap, step.rest);
        }
    }
}

/// A run prints and collects the same with batches of any size.
pub proof fn law_run_does_not_depend_on_batches(
    plan: PlanView,
    clock: spec_fn(int, int) -> Seq<char>,
    s: SessionView,
    cap: nat,
    rest: Seq<u8>,
    text: Seq<char>,
    collected: CollectedView,
)
    requires
        s.cap > 0,
        cap > 0,
        reads_clean(s, rest),
    ensures
        run_from(plan, clock, SessionView { cap, ..s }, rest, text, collected) == run_from(
            plan,
            clock,
            s,
            rest,
            text,
            collected,
        ),
{
    lemma_cap_does_not_matter(s, cap, rest);
    law_run_covers_the_capture(plan, clock, s, rest, text, collected);
    law_run_covers_the_capture(plan, clock, SessionView { cap, ..s }, rest, text, collected);
}

/// The summary lines of the first `n` packets of a capture: number, time since
/// the first packet, and the summary of the packet.
pub open spec fn listing(
    clock: spec_fn(int, int) -> Seq<char>,
    force: bool,
    ps: Seq<PacketView>,
    n: nat,
) -> Seq<char>
    decreases n,
{
    if n == 0 {
        Seq::empty()
    } else {
        let p = ps[n - 1];
        let rel_time = clock(p.ts_sec - ps[0].ts_sec, p.ts_nsec - ps[0].ts_nsec);
        listing(clock, force, ps, (n - 1) as nat) + (summary_line(
            MetaView { number: n as u64, rel_time },
            dissected(p, force).summary,
        ) + "\n"@)
    }
}

proof fn lemma_listing(
    plan: PlanView,
    clock: spec_fn(int, int) -> Seq<char>,
    ps: Seq<PacketView>,
    fs: Seq<FrameView>,
    ts: Seq<Seq<char>>,
)
    requires
        !plan.quiet,
        plan.filter is None,
        plan.mode == OutputMode::Summary,
        forall|i: int|
            0 <= i < fs.len() ==> #[trigger] fs[i] == (FrameView {
                number: (i + 1) as u64,
                delta_sec: ps[i].ts_sec - ps[0].ts_sec,
                delta_nsec: ps[i].ts_nsec - ps[0].ts_nsec,
                packet: ps[i],
            }),
        forall|i: int|
            0 <= i < fs.len() ==> #[trigger] ts[i] == clock(fs[i].delta_sec, fs[i].delta_nsec),
    ensures
        output(plan, fs, ts) == listing(clock, plan.force, ps, fs.len()),
    decreases fs.len(),
{
    if fs.len() > 0 {
        let most = fs.drop_last();
        assert forall|i: int| 0 <= i < most.len() implies #[trigger] most[i] == (FrameView {
            number: (i + 1) as u64,
            delta_sec: ps[i].ts_sec - ps[0].ts_sec,
            delta_nsec: ps[i].ts_nsec - ps[0].ts_nsec,
            packet: ps[i],
        }) by {
            assert(most[i] == fs[i]);
        }
        assert forall|i: int| 0 <= i < most.len() implies #[trigger] ts[i] == clock(
            most[i].delta_sec,
            most[i].delta_nsec,
        ) by {
            assert(most[i] == fs[i]);
        }
        lemma_listing(plan, clock, ps, most, ts);
        let f = fs[fs.len() - 1];
        assert(ts[fs.len() - 1] == clock(f.delta_sec, f.delta_nsec));
        assert(seen(f, plan.force) == dissected(f.packet, plan.force)) by {
            reveal(seen);
        }
    }
}

/// A run without options for output lists the packets of the capture in its
/// order, one line each, up to the limit.
pub proof fn law_plain_run_lists_the_packets(
    plan: PlanView,
    clock: spec_fn(int, int) -> Seq<char>,
    s: SessionView,
    rest: Seq<u8>,
    collected: CollectedView,
)
    requires
        !plan.quiet,
        plan.filter is None,
        plan.mode == OutputMode::Summary,
        plan.stat is None,
        s.cap > 0,
        s.number == 0,
        s.reference is None,
        reads_clean(s, rest),
    ensures
        ({
            let all = capture_all(s.file, rest);
            let n = if s.max < all.len() {
                s.max as nat
            } else {
                all.len()
            };
            run_from(plan, clock, s, rest, Seq::empty(), collected) == (Run {
                out: Ok(()),
                text: listing(clock, plan.force, all, n),
                collected,
            })
        }),
{
    let all = capture_all(s.file, rest);
    let fs = frames_from(s, rest);
    let none = Seq::<char>::empty();
    law_frames_are_the_packets(s, rest);
    law_run_covers_the_capture(plan, clock, s, rest, none, collected);
    lemma_listing(plan, clock, all, fs, times(clock, fs));
    assert(none + output(plan, fs, times(clock, fs)) =~= output(plan, fs, times(clock, fs)));
    lemma_nothing_collected(plan.force, collected, fs);
}

proof fn lemma_nothing_collected(force: bool, c: CollectedView, fs: Seq<FrameView>)
    ensures
        collected_all(None, force, c, fs) == c,
    decreases fs.len(),
{
    if fs.len() > 0 {
        lemma_nothing_collected(force, c, fs.drop_last());
    }
}

/// A batch is filled up to the size asked for and no further, and no more
/// frames are read than the limit says.
pub proof fn law_batches_are_no_larger_than_asked_for(
    s: SessionView,
    rest: Seq<u8>,
    ended: bool,
    batch: Seq<FrameView>,
)
    requires
        batch.len() <= s.cap,
        s.number <= s.max,
    ensures
        ({
            let f = filled(s, rest, ended, batch);
            &&& f.batch.len() <= s.cap
            &&& f.session.number <= s.max
            &&& f.session.number == s.number + (f.batch.len() - batch.len())
        }),
    decreases rest.len(),
{
    let step = capture_next(s.file, rest, ended);
    if batch.len() < s.cap && s.number < s.max && step.rest.len() < rest.len() {
        match step.out {
            Ok(Some(p)) => {
                law_batches_are_no_larger_than_asked_for(
                    advanced(s, p, step.file),
                    step.rest,
                    ended,
                    batch.push(framed(s, p)),
                );
            },
            _ => {},
        }
    }
}

/// What was in a batch stays at its start.
pub proof fn law_batches_grow_at_the_end(
    s: SessionView,
    rest: Seq<u8>,
    ended: bool,
    batch: Seq<FrameView>,
    i: int,
)
    requires
        0 <= i < batch.len(),
    ensures
        ({
            let f = filled(s, rest, ended, batch);
            &&& f.batch.len() >= batch.len()
            &&& f.batch[i] == batch[i]
        }),
    decreases rest.len(),
{
    let step = capture_next(s.file, rest, ended);
    if batch.len() < s.cap && s.number < s.max && step.rest.len() < rest.len() {
        match step.out {
            Ok(Some(p)) => {
                law_batches_grow_at_the_end(
                    advanced(s, p, step.file),
                    step.rest,
                    ended,
                    batch.push(framed(s, p)),
                    i,
                );
            },
            _ => {},
        }
    }
}

/// A session that is told no number of frames reads all packets of the
/// capture, one that is told a number that many, in batches of the size asked
/// for; a batch holds at least one frame.
pub proof fn law_session_reads_what_is_asked_for(
    file: CaptureFile,
    count: Option<u64>,
    batch: nat,
    rest: Seq<u8>,
)
    ensures
        ({
            let s = started(file, count, batch);
            let all = capture_all(file, rest);
            let fs = frames_from(s, rest);
            &&& s.cap >= 1
            &&& batch > 0 ==> s.cap == batch
            &&& count is None && all.len() <= u64::MAX ==> fs.len() == all.len()
            &&& count matches Some(n) ==> fs.len() <= n
            &&& count matches Some(n) ==> fs.len() <= all.len()
            &&& count matches Some(n) ==> fs.len() == n || fs.len() == all.len()
            &&& forall|i: int|
                0 <= i < fs.len() ==> (#[trigger] fs[i]).packet == all[i] && fs[i].number == i + 1
        }),
{
    law_frames_are_the_packets(started(file, count, batch), rest);
}

} // verus!
