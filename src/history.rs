use vstd::prelude::*;
use crate::date::{Date, month_index};
use crate::ledger::{Action, Trans, State, LedgerModel, applicable, replay, replayable, step, lemma_replayable_extend};
use crate::names::{RECEIVING, SPENDING};

verus! {

/// Totals of one calendar month.
#[derive(Clone, Copy, Debug, PartialEq, Eq, Structural)]
pub struct Frame {
    pub year: u32,
    pub month: u32,
    /// Net amount moved into the spending account during the month.
    pub spent: i128,
    /// Net amount moved out of the receiving account during the month.
    pub received: i128,
}

/// The mathematical value of a `Frame`: its month number and its totals.
pub struct FrameModel {
    pub index: int,
    pub spent: int,
    pub received: int,
}

pub open spec fn frame_model(f: Frame) -> FrameModel {
    FrameModel { index: f.year * 12 + f.month, spent: f.spent as int, received: f.received as int }
}

pub open spec fn history_model(h: Seq<Frame>) -> Seq<FrameModel> {
    h.map_values(|f: Frame| frame_model(f))
}

/// How much an action adds to the spending total of its month.
pub open spec fn spend_delta(a: Action) -> int {
    match a {
        Action::Transfer { from, to, amount } => (if to == SPENDING {
            amount as int
        } else {
            0
        }) - (if from == SPENDING {
            amount as int
        } else {
            0
        }),
        _ => 0,
    }
}

/// How much an action adds to the receiving total of its month.
pub open spec fn recv_delta(a: Action) -> int {
    match a {
        Action::Transfer { from, to, amount } => (if from == RECEIVING {
            amount as int
        } else {
            0
        }) - (if to == RECEIVING {
            amount as int
        } else {
            0
        }),
        _ => 0,
    }
}

/// `n` empty frames for the months `lo`, `lo + 1`, ...
pub open spec fn empty_frames(lo: int, n: nat) -> Seq<FrameModel> {
    Seq::new(n, |j: int| FrameModel { index: lo + j, spent: 0, received: 0 })
}

/// The history of `ts`: one frame per month from the month of the first
/// transaction to the latest month seen. A transaction dated before the
/// current month counts in the current month.
pub open spec fn frames(ts: Seq<Trans>) -> Seq<FrameModel>
    decreases ts.len(),
{
    if ts.len() == 0 {
        Seq::empty()
    } else {
        frames_push(frames(ts.drop_last()), ts.last())
    }
}

/// The history `p` after one more transaction `t`.
#[verifier::opaque]
pub open spec fn frames_push(p: Seq<FrameModel>, t: Trans) -> Seq<FrameModel> {
        let k = month_index(t.date);
        if p.len() == 0 {
            seq![FrameModel { index: k, spent: spend_delta(t.action), received: recv_delta(t.action) }]
        } else if k <= p.last().index {
            let c = p.last();
            p.update(
                p.len() - 1,
                FrameModel {
                    spent: c.spent + spend_delta(t.action),
                    received: c.received + recv_delta(t.action),
                    ..c
                },
            )
        } else {
            p + empty_frames(p.last().index + 1, (k - p.last().index - 1) as nat) + seq![
                FrameModel { index: k, spent: spend_delta(t.action), received: recv_delta(t.action) },
            ]
        }
}

/// The empty frame of the month after `f`'s.
fn next_frame(f: &Frame) -> (r: Frame)
    requires
        f.month <= 12,
        f.month == 12 ==> f.year < u32::MAX,
    ensures
        1 <= r.month <= 12,
        frame_model(r).index == frame_model(*f).index + 1,
        r.spent == 0 && r.received == 0,
{
    if f.month >= 12 {
        Frame { year: f.year + 1, month: 1, spent: 0, received: 0 }
    } else {
        Frame { year: f.year, month: f.month + 1, spent: 0, received: 0 }
    }
}

fn deltas(a: &Action) -> (r: (i128, i128))
    ensures
        r.0 == spend_delta(*a),
        r.1 == recv_delta(*a),
        -0x8000_0000_0000_0000 <= r.0 <= 0x8000_0000_0000_0000,
        -0x8000_0000_0000_0000 <= r.1 <= 0x8000_0000_0000_0000,
{
    match *a {
        Action::Transfer { from, to, amount } => {
            let x = amount as i128;
            let s: i128 = if to == SPENDING && from != SPENDING {
                x
            } else if from == SPENDING && to != SPENDING {
                -x
            } else {
                0
            };
            let v: i128 = if from == RECEIVING && to != RECEIVING {
                x
            } else if to == RECEIVING && from != RECEIVING {
                -x
            } else {
                0
            };
            (s, v)
        },
        _ => (0, 0),
    }
}

/// Seals `cur` into `hist`, then adds an empty frame for each month strictly
/// between `cur`'s and month `k`, and opens an empty frame for month `k`.
fn seal_and_advance(hist: &mut Vec<Frame>, cur: Frame, k: u64) -> (r: Frame)
    requires
        cur.month <= 12,
        frame_model(cur).index < k,
        k <= u32::MAX as int * 12 + 12,
    ensures
        history_model(final(hist)@) == history_model(old(hist)@).push(frame_model(cur)) + empty_frames(
            frame_model(cur).index + 1,
            (k - frame_model(cur).index - 1) as nat,
        ),
        frame_model(r).index == k,
        r.spent == 0 && r.received == 0,
        r.month <= 12,
{
    let ghost p = history_model(old(hist)@).push(frame_model(cur));
    hist.push(cur);
    assert(history_model(hist@) =~= p);
    assert(p.last().index == frame_model(cur).index);
    let mut c = next_frame(&cur);
    assert(history_model(hist@) =~= p + empty_frames(p.last().index + 1, 0));
    while c.year as u64 * 12 + c.month as u64 != k
        invariant
            p.len() > 0,
            p.last().index == frame_model(cur).index,
            1 <= c.month <= 12,
            p.last().index < frame_model(c).index <= k,
            k <= u32::MAX as int * 12 + 12,
            c.spent == 0 && c.received == 0,
            history_model(hist@) == p + empty_frames(
                p.last().index + 1,
                (frame_model(c).index - p.last().index - 1) as nat,
            ),
        decreases k - frame_model(c).index,
    {
        let ghost h0 = hist@;
        let ghost c0 = c;
        hist.push(c);
        assert(history_model(hist@) =~= history_model(h0).push(frame_model(c0)));
        assert(empty_frames(p.last().index + 1, (frame_model(c0).index - p.last().index) as nat)
            =~= empty_frames(p.last().index + 1, (frame_model(c0).index - p.last().index - 1) as nat).push(frame_model(c0)));
        c = next_frame(&c);
    }
    c
}

/// Counts `t` into the history whose sealed frames are `hist` and whose open
/// frame is `cur` (no frame at all when `first`), and returns the new open frame.
fn extend(hist: &mut Vec<Frame>, cur: Frame, t: &Trans, first: bool) -> (r: Frame)
    requires
        cur.month <= 12,
        t.date.month <= 12,
        first ==> old(hist)@.len() == 0,
        -0x7fff_ffff_ffff_ffff_7fff_ffff_ffff_ffff <= cur.spent <= 0x7fff_ffff_ffff_ffff_7fff_ffff_ffff_ffff,
        -0x7fff_ffff_ffff_ffff_7fff_ffff_ffff_ffff <= cur.received <= 0x7fff_ffff_ffff_ffff_7fff_ffff_ffff_ffff,
    ensures
        history_model(final(hist)@).push(frame_model(r)) == frames_push(
            if first { Seq::empty() } else { history_model(old(hist)@).push(frame_model(cur)) },
            *t,
        ),
        r.month <= 12,
        r.spent == spend_delta(t.action) || (!first && r.spent == cur.spent + spend_delta(t.action)),
        r.received == recv_delta(t.action) || (!first && r.received == cur.received + recv_delta(t.action)),
{
    reveal(frames_push);
    let ghost p: Seq<FrameModel> = if first { Seq::empty() } else { history_model(old(hist)@).push(frame_model(cur)) };
    let k = t.date.month_number();
    let (ds, dr) = deltas(&t.action);
    if first {
        let r = Frame { year: t.date.year, month: t.date.month, spent: ds, received: dr };
        assert(history_model(hist@).push(frame_model(r)) =~= frames_push(p, *t));
        r
    } else if k > cur.year as u64 * 12 + cur.month as u64 {
        let mut r = seal_and_advance(hist, cur, k);
        r.spent = ds;
        r.received = dr;
        assert(history_model(hist@).push(frame_model(r)) =~= frames_push(p, *t));
        r
    } else {
        let mut r = cur;
        r.spent = cur.spent + ds;
        r.received = cur.received + dr;
        assert(history_model(hist@).push(frame_model(r)) =~= frames_push(p, *t));
        r
    }
}

/// Replays `ts` like `update` without bounds, and also returns the monthly
/// history of `ts`: one frame per calendar month from the first transaction's
/// month to the latest, empty months included.
#[verifier::rlimit(40)]
pub fn spending(ts: &[Trans], state: &mut State) -> (r: Result<Vec<Frame>, usize>)
    requires
        old(state).wf(),
        forall|i: int| 0 <= i < ts@.len() ==> #[trigger] ts@[i].date.month <= 12,
    ensures
        final(state).wf(),
        match r {
            Ok(h) => {
                &&& replayable(old(state)@, ts@, None, None, ts@.len() as int)
                &&& final(state)@ == replay(old(state)@, ts@, None, None)
                &&& history_model(h@) == frames(ts@)
            },
            Err(n) => {
                &&& n < ts@.len()
                &&& replayable(old(state)@, ts@, None, None, n as int)
                &&& !applicable(replay(old(state)@, ts@.take(n as int), None, None), ts@[n as int].action)
                &&& final(state)@ == replay(old(state)@, ts@.take(n as int), None, None)
            },
        },
{
    let mut hist: Vec<Frame> = Vec::new();
    let mut cur = Frame { year: 0, month: 0, spent: 0, received: 0 };
    let mut i: usize = 0;
    while i < ts.len()
        invariant
            0 <= i <= ts@.len(),
            forall|j: int| 0 <= j < ts@.len() ==> #[trigger] ts@[j].date.month <= 12,
            state.wf(),
            replayable(old(state)@, ts@, None, None, i as int),
            state@ == replay(old(state)@, ts@.take(i as int), None, None),
            i == 0 ==> hist@.len() == 0,
            i > 0 ==> history_model(hist@).push(frame_model(cur)) == frames(ts@.take(i as int)),
            cur.month <= 12,
            -(i as int) * 0x8000_0000_0000_0000 <= cur.spent <= (i as int) * 0x8000_0000_0000_0000,
            -(i as int) * 0x8000_0000_0000_0000 <= cur.received <= (i as int) * 0x8000_0000_0000_0000,
        decreases ts@.len() - i,
    {
        let t = ts[i];
        assert(ts@.take(i + 1).drop_last() =~= ts@.take(i as int));
        assert(ts@.take(i + 1).last() == t);
        if !apply_at(ts, i, state, Ghost(old(state)@)) {
            return Err(i);
        }
        proof {
            lemma_frames_step(ts@, i as int);
            assert(-(i as int) * 0x8000_0000_0000_0000 >= -0x7fff_ffff_ffff_ffff_7fff_ffff_ffff_ffff);
            assert((i as int) * 0x8000_0000_0000_0000 <= 0x7fff_ffff_ffff_ffff_7fff_ffff_ffff_ffff);
        }
        cur = extend(&mut hist, cur, &t, i == 0);
        i = i + 1;
    }
    assert(ts@.take(ts@.len() as int) =~= ts@);
    if i > 0 {
        hist.push(cur);
        assert(history_model(hist@) =~= frames(ts@));
    }
    Ok(hist)
}

/// Applies `ts[i]` to a state that holds the replay of the transactions before it.
fn apply_at(ts: &[Trans], i: usize, state: &mut State, m: Ghost<LedgerModel>) -> (r: bool)
    requires
        old(state).wf(),
        i < ts@.len(),
        replayable(m@, ts@, None, None, i as int),
        old(state)@ == replay(m@, ts@.take(i as int), None, None),
    ensures
        final(state).wf(),
        r ==> replayable(m@, ts@, None, None, i + 1),
        r ==> final(state)@ == replay(m@, ts@.take(i + 1), None, None),
        !r ==> !applicable(replay(m@, ts@.take(i as int), None, None), ts@[i as int].action),
        !r ==> final(state)@ == old(state)@,
{
    proof {
        lemma_replay_step(m@, ts@, i as int);
    }
    if !state.can_apply(&ts[i].action) {
        return false;
    }
    state.apply(&ts[i].action);
    proof {
        lemma_replayable_extend(m@, ts@, None, None, i as int);
    }
    true
}

proof fn lemma_frames_step(ts: Seq<Trans>, i: int)
    requires
        0 <= i < ts.len(),
    ensures
        frames(ts.take(i + 1)) == frames_push(frames(ts.take(i)), ts[i]),
        i == 0 ==> frames(ts.take(i)) == Seq::<FrameModel>::empty(),
        i > 0 ==> frames(ts.take(i)).len() > 0,
{
    assert(ts.take(i + 1).drop_last() =~= ts.take(i));
    if i > 0 {
        lemma_frames_nonempty(ts.take(i));
    }
}

proof fn lemma_frames_nonempty(ts: Seq<Trans>)
    requires
        ts.len() > 0,
    ensures
        frames(ts).len() > 0,
{
    reveal(frames_push);
}

proof fn lemma_replay_step(m: LedgerModel, ts: Seq<Trans>, i: int)
    requires
        0 <= i < ts.len(),
    ensures
        replay(m, ts.take(i + 1), None, None) == step(replay(m, ts.take(i), None, None), ts[i].action),
{
    assert(ts.take(i + 1).drop_last() =~= ts.take(i));
}

/// The latest month of any transaction of `ts`.
pub open spec fn latest_month(ts: Seq<Trans>) -> int
    decreases ts.len(),
{
    if ts.len() <= 1 {
        if ts.len() == 0 { 0 } else { month_index(ts[0].date) }
    } else {
        let p = latest_month(ts.drop_last());
        let k = month_index(ts.last().date);
        if k > p { k } else { p }
    }
}

/// The history of a non-empty ledger has one frame for each month from the
/// first transaction's month to the latest month, in order and without gaps.
pub proof fn lemma_frames_contiguous(ts: Seq<Trans>)
    requires
        ts.len() > 0,
    ensures
        frames(ts).len() == latest_month(ts) - month_index(ts[0].date) + 1,
        forall|j: int| 0 <= j < frames(ts).len() ==> #[trigger] frames(ts)[j].index == month_index(ts[0].date) + j,
    decreases ts.len(),
{
    reveal(frames_push);
    let p = ts.drop_last();
    let fp = frames(p);
    let t = ts.last();
    let k = month_index(t.date);
    let f = frames(ts);
    if ts.len() == 1 {
        assert(fp.len() == 0);
        assert(t == ts[0]);
    } else {
        lemma_frames_contiguous(p);
        lemma_frames_nonempty(p);
        assert(p[0] == ts[0]);
        assert(fp.last() == fp[fp.len() - 1]);
        if k <= fp.last().index {
            assert forall|j: int| 0 <= j < f.len() implies #[trigger] f[j].index == month_index(ts[0].date) + j by {
                assert(fp[j].index == month_index(ts[0].date) + j);
            }
        } else {
            let g = empty_frames(fp.last().index + 1, (k - fp.last().index - 1) as nat);
            let last = seq![FrameModel { index: k, spent: spend_delta(t.action), received: recv_delta(t.action) }];
            assert(f =~= (fp + g) + last);
            assert forall|j: int| 0 <= j < f.len() implies #[trigger] f[j].index == month_index(ts[0].date) + j by {
                if j < fp.len() {
                    assert(f[j] == fp[j]);
                } else if j < fp.len() + g.len() {
                    assert(f[j] == g[j - fp.len()]);
                } else {
                    assert(f[j] == last[0]);
                }
            }
        }
    }
}

/// The months of the transactions of `ts` never decrease.
pub open spec fn sorted_by_month(ts: Seq<Trans>) -> bool {
    forall|i: int, j: int| 0 <= i <= j < ts.len() ==> month_index(#[trigger] ts[i].date) <= month_index(#[trigger] ts[j].date)
}

/// Spending of the transactions of `ts` dated in months `lo` to `hi`.
pub open spec fn window_spent(ts: Seq<Trans>, lo: int, hi: int) -> int
    decreases ts.len(),
{
    if ts.len() == 0 {
        0
    } else {
        let k = month_index(ts.last().date);
        window_spent(ts.drop_last(), lo, hi) + if lo <= k <= hi { spend_delta(ts.last().action) } else { 0 }
    }
}

/// Receiving of the transactions of `ts` dated in months `lo` to `hi`.
pub open spec fn window_received(ts: Seq<Trans>, lo: int, hi: int) -> int
    decreases ts.len(),
{
    if ts.len() == 0 {
        0
    } else {
        let k = month_index(ts.last().date);
        window_received(ts.drop_last(), lo, hi) + if lo <= k <= hi { recv_delta(ts.last().action) } else { 0 }
    }
}

/// Spending of the frames of `fs` for months `lo` to `hi`.
pub open spec fn frames_spent(fs: Seq<FrameModel>, lo: int, hi: int) -> int
    decreases fs.len(),
{
    if fs.len() == 0 {
        0
    } else {
        frames_spent(fs.drop_last(), lo, hi) + if lo <= fs.last().index <= hi { fs.last().spent } else { 0 }
    }
}

/// Receiving of the frames of `fs` for months `lo` to `hi`.
pub open spec fn frames_received(fs: Seq<FrameModel>, lo: int, hi: int) -> int
    decreases fs.len(),
{
    if fs.len() == 0 {
        0
    } else {
        frames_received(fs.drop_last(), lo, hi) + if lo <= fs.last().index <= hi { fs.last().received } else { 0 }
    }
}

proof fn lemma_frames_sums_concat(a: Seq<FrameModel>, b: Seq<FrameModel>, lo: int, hi: int)
    ensures
        frames_spent(a + b, lo, hi) == frames_spent(a, lo, hi) + frames_spent(b, lo, hi),
        frames_received(a + b, lo, hi) == frames_received(a, lo, hi) + frames_received(b, lo, hi),
    decreases b.len(),
{
    if b.len() > 0 {
        assert((a + b).drop_last() =~= a + b.drop_last());
        lemma_frames_sums_concat(a, b.drop_last(), lo, hi);
    } else {
        assert(a + b =~= a);
    }
}

proof fn lemma_empty_frames_sums(start: int, n: nat, lo: int, hi: int)
    ensures
        frames_spent(empty_frames(start, n), lo, hi) == 0,
        frames_received(empty_frames(start, n), lo, hi) == 0,
    decreases n,
{
    if n > 0 {
        assert(empty_frames(start, n).drop_last() =~= empty_frames(start, (n - 1) as nat));
        lemma_empty_frames_sums(start, (n - 1) as nat, lo, hi);
    }
}

proof fn lemma_latest_is_last(ts: Seq<Trans>)
    requires
        ts.len() > 0,
        sorted_by_month(ts),
    ensures
        latest_month(ts) == month_index(ts.last().date),
    decreases ts.len(),
{
    if ts.len() > 1 {
        let p = ts.drop_last();
        assert(sorted_by_month(p)) by {
            assert forall|i: int, j: int| 0 <= i <= j < p.len() implies month_index(#[trigger] p[i].date) <= month_index(#[trigger] p[j].date) by {
                assert(p[i] == ts[i] && p[j] == ts[j]);
            }
        }
        lemma_latest_is_last(p);
        assert(p.last() == ts[ts.len() - 2]);
        assert(month_index(ts[ts.len() - 2].date) <= month_index(ts[ts.len() - 1].date));
    }
}

/// For a ledger whose months never decrease, the spending and receiving
/// totals of the history's frames for months `lo` to `hi` (the trailing
/// twelve months, say) equal those summed directly over the transactions
/// dated in those months.
pub proof fn lemma_window_sums(ts: Seq<Trans>, lo: int, hi: int)
    requires
        sorted_by_month(ts),
    ensures
        frames_spent(frames(ts), lo, hi) == window_spent(ts, lo, hi),
        frames_received(frames(ts), lo, hi) == window_received(ts, lo, hi),
    decreases ts.len(),
{
    if ts.len() > 0 {
        let p = ts.drop_last();
        assert(sorted_by_month(p)) by {
            assert forall|i: int, j: int| 0 <= i <= j < p.len() implies month_index(#[trigger] p[i].date) <= month_index(#[trigger] p[j].date) by {
                assert(p[i] == ts[i] && p[j] == ts[j]);
            }
        }
        lemma_window_sums(p, lo, hi);
        let fp = frames(p);
        let t = ts.last();
        let k = month_index(t.date);
        reveal(frames_push);
        if fp.len() == 0 {
            let f = frames(ts);
            assert(f.drop_last() =~= Seq::<FrameModel>::empty());
        } else if k <= fp.last().index {
            lemma_frames_contiguous(p);
            lemma_latest_is_last(p);
            assert(p.last() == ts[ts.len() - 2]);
            assert(month_index(ts[ts.len() - 2].date) <= month_index(ts[ts.len() - 1].date));
            assert(fp.last() == fp[fp.len() - 1]);
            assert(k == fp.last().index);
            let f = frames(ts);
            assert(f.drop_last() =~= fp.drop_last());
        } else {
            let g = empty_frames(fp.last().index + 1, (k - fp.last().index - 1) as nat);
            let last = seq![FrameModel { index: k, spent: spend_delta(t.action), received: recv_delta(t.action) }];
            let f = frames(ts);
            assert(f =~= (fp + g) + last);
            assert(f.drop_last() =~= fp + g);
            lemma_frames_sums_concat(fp, g, lo, hi);
            lemma_empty_frames_sums(fp.last().index + 1, (k - fp.last().index - 1) as nat, lo, hi);
        }
    }
}

/// Spending of the last `n` frames of `fs` (of all of them, if fewer).
pub open spec fn tail_spent(fs: Seq<FrameModel>, n: nat) -> int
    decreases n,
{
    if n == 0 || fs.len() == 0 {
        0
    } else {
        tail_spent(fs.drop_last(), (n - 1) as nat) + fs.last().spent
    }
}

/// Receiving of the last `n` frames of `fs` (of all of them, if fewer).
pub open spec fn tail_received(fs: Seq<FrameModel>, n: nat) -> int
    decreases n,
{
    if n == 0 || fs.len() == 0 {
        0
    } else {
        tail_received(fs.drop_last(), (n - 1) as nat) + fs.last().received
    }
}

proof fn lemma_frames_sums_below(fs: Seq<FrameModel>, lo: int, hi: int)
    requires
        forall|j: int| 0 <= j < fs.len() ==> #[trigger] fs[j].index < hi,
    ensures
        frames_spent(fs, lo, hi) == frames_spent(fs, lo, hi - 1),
        frames_received(fs, lo, hi) == frames_received(fs, lo, hi - 1),
    decreases fs.len(),
{
    if fs.len() > 0 {
        let p = fs.drop_last();
        assert forall|j: int| 0 <= j < p.len() implies #[trigger] p[j].index < hi by {
            assert(p[j] == fs[j]);
        }
        lemma_frames_sums_below(p, lo, hi);
        assert(fs.last() == fs[fs.len() - 1]);
    }
}

proof fn lemma_frames_sums_empty_range(fs: Seq<FrameModel>, lo: int, hi: int)
    requires
        lo > hi,
    ensures
        frames_spent(fs, lo, hi) == 0,
        frames_received(fs, lo, hi) == 0,
    decreases fs.len(),
{
    if fs.len() > 0 {
        lemma_frames_sums_empty_range(fs.drop_last(), lo, hi);
    }
}

proof fn lemma_tail_is_window(fs: Seq<FrameModel>, n: nat)
    requires
        fs.len() > 0,
        forall|j: int| 0 <= j < fs.len() ==> #[trigger] fs[j].index == fs[0].index + j,
    ensures
        tail_spent(fs, n) == frames_spent(fs, fs.last().index - n + 1, fs.last().index),
        tail_received(fs, n) == frames_received(fs, fs.last().index - n + 1, fs.last().index),
    decreases fs.len(),
{
    let hi = fs.last().index;
    assert(fs.last() == fs[fs.len() - 1]);
    if n == 0 {
        lemma_frames_sums_empty_range(fs, hi + 1, hi);
    } else {
        let p = fs.drop_last();
        assert forall|j: int| 0 <= j < p.len() implies #[trigger] p[j].index < hi by {
            assert(p[j] == fs[j]);
        }
        lemma_frames_sums_below(p, hi - n + 1, hi);
        if p.len() > 0 {
            assert forall|j: int| 0 <= j < p.len() implies #[trigger] p[j].index == p[0].index + j by {
                assert(p[j] == fs[j]);
                assert(p[0] == fs[0]);
            }
            assert(p.last() == fs[fs.len() - 2]);
            lemma_tail_is_window(p, (n - 1) as nat);
        }
        if p.len() == 0 {
            assert(tail_spent(p, (n - 1) as nat) == 0);
            assert(tail_received(p, (n - 1) as nat) == 0);
        }
    }
}

/// For a non-empty ledger whose months never decrease, the spending and
/// receiving totals of the last `n` frames of its history (the trailing
/// twelve, say) equal those summed directly over the transactions dated in
/// the last `n` calendar months up to the month of the last transaction.
pub proof fn lemma_trailing_sums(ts: Seq<Trans>, n: nat)
    requires
        ts.len() > 0,
        sorted_by_month(ts),
    ensures
        ({
            let hi = month_index(ts.last().date);
            &&& tail_spent(frames(ts), n) == window_spent(ts, hi - n + 1, hi)
            &&& tail_received(frames(ts), n) == window_received(ts, hi - n + 1, hi)
        }),
{
    let fs = frames(ts);
    lemma_frames_contiguous(ts);
    lemma_latest_is_last(ts);
    assert(fs.last() == fs[fs.len() - 1]);
    lemma_tail_is_window(fs, n);
    lemma_window_sums(ts, month_index(ts.last().date) - n + 1, month_index(ts.last().date));
}

} // verus!
