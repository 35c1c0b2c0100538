//! Consecutive-agreement debouncer: each matrix cell carries a counter and
//! a last-confirmed state. A tick in which the raw sample disagrees with
//! the confirmed state increments the counter; an agreeing tick resets it.
//! When the counter reaches the threshold the confirmed state flips and one
//! event is emitted. A glitch that reverses before the threshold therefore
//! never produces an event.

use vstd::prelude::*;

use crate::event::KeyEvent;

verus! {

/// Confirmed state of one cell after one sample.
pub open spec fn next_confirmed(c: bool, k: u8, raw: bool, th: u8) -> bool
    recommends
        k < th,
{
    if raw == c {
        c
    } else if k + 1 >= th {
        raw
    } else {
        c
    }
}

/// Counter of one cell after one sample.
pub open spec fn next_counter(c: bool, k: u8, raw: bool, th: u8) -> u8
    recommends
        k < th,
{
    if raw == c {
        0u8
    } else if k + 1 >= th {
        0u8
    } else {
        (k + 1) as u8
    }
}

/// Whether one sample makes the cell emit an event.
pub open spec fn emits(c: bool, k: u8, raw: bool, th: u8) -> bool
    recommends
        k < th,
{
    raw != c && k + 1 >= th
}

/// Events emitted by the first `n` cells of row `r`, in column order.
pub open spec fn row_events(
    conf: Seq<bool>,
    cnt: Seq<u8>,
    raw: Seq<bool>,
    th: u8,
    r: u8,
    n: int,
) -> Seq<KeyEvent>
    decreases n,
{
    if n <= 0 {
        Seq::empty()
    } else {
        let prev = row_events(conf, cnt, raw, th, r, n - 1);
        let c = n - 1;
        if emits(conf[c], cnt[c], raw[c], th) {
            prev.push(
                if raw[c] {
                    KeyEvent::Press(r, c as u8)
                } else {
                    KeyEvent::Release(r, c as u8)
                },
            )
        } else {
            prev
        }
    }
}

/// Events emitted by the first `n` rows, in row-major order.
pub open spec fn grid_events(
    conf: Seq<Seq<bool>>,
    cnt: Seq<Seq<u8>>,
    raw: Seq<Seq<bool>>,
    th: u8,
    cols: u8,
    n: int,
) -> Seq<KeyEvent>
    decreases n,
{
    if n <= 0 {
        Seq::empty()
    } else {
        grid_events(conf, cnt, raw, th, cols, n - 1) + row_events(
            conf[n - 1],
            cnt[n - 1],
            raw[n - 1],
            th,
            (n - 1) as u8,
            cols as int,
        )
    }
}

/// The mathematical contents of a two-dimensional boolean grid.
pub open spec fn bool_grid_view(g: Seq<Vec<bool>>) -> Seq<Seq<bool>> {
    g.map_values(|row: Vec<bool>| row@)
}

/// The mathematical contents of a two-dimensional counter grid.
pub open spec fn counter_grid_view(g: Seq<Vec<u8>>) -> Seq<Seq<u8>> {
    g.map_values(|row: Vec<u8>| row@)
}

/// Whether a boolean grid has `rows` rows of `cols` cells each.
pub open spec fn bool_grid_dims(g: Seq<Seq<bool>>, rows: u8, cols: u8) -> bool {
    g.len() == rows as int && forall|r: int| 0 <= r < rows as int ==> (#[trigger] g[r]).len() == cols as int
}

/// Runs one cell through a sequence of raw samples, starting from
/// confirmed state `c` with counter `k`, and gathers the polarities of the
/// events emitted along the way (`true` for a press).
pub open spec fn run_cell(c: bool, k: u8, samples: Seq<bool>, th: u8) -> (bool, u8, Seq<bool>)
    recommends
        k < th,
    decreases samples.len(),
{
    if samples.len() == 0 {
        (c, k, Seq::empty())
    } else {
        let s = samples[0];
        let rest = run_cell(
            next_confirmed(c, k, s, th),
            next_counter(c, k, s, th),
            samples.drop_first(),
            th,
        );
        if emits(c, k, s, th) {
            (rest.0, rest.1, seq![s] + rest.2)
        } else {
            rest
        }
    }
}

/// A raw signal that never disagrees with the confirmed state `c` for `th`
/// consecutive ticks, counting the `k` disagreeing ticks already seen: the
/// shape of any glitch that reverses before reaching the threshold.
pub open spec fn below_threshold(c: bool, k: u8, samples: Seq<bool>, th: u8) -> bool
    decreases samples.len(),
{
    if samples.len() == 0 {
        true
    } else if samples[0] == c {
        below_threshold(c, 0, samples.drop_first(), th)
    } else {
        k + 1 < th && below_threshold(c, (k + 1) as u8, samples.drop_first(), th)
    }
}

/// A signal in constant agreement with the confirmed state stays below the
/// threshold from any counter value.
pub proof fn lemma_agreement_below_threshold(c: bool, k: u8, samples: Seq<bool>, th: u8)
    requires
        forall|i: int| 0 <= i < samples.len() ==> #[trigger] samples[i] == c,
    ensures
        below_threshold(c, k, samples, th),
    decreases samples.len(),
{
    if samples.len() > 0 {
        lemma_agreement_below_threshold(c, 0, samples.drop_first(), th);
    }
}

/// Debounce stability, quiet half: a raw signal that oscillates but never
/// stays away from the confirmed state for `th` consecutive ticks emits no
/// event at all, and the confirmed state does not move.
pub proof fn lemma_debounce_quiet(c: bool, k: u8, samples: Seq<bool>, th: u8)
    requires
        th >= 1,
        k < th,
        below_threshold(c, k, samples, th),
    ensures
        run_cell(c, k, samples, th).0 == c,
        run_cell(c, k, samples, th).2 == Seq::<bool>::empty(),
    decreases samples.len(),
{
    if samples.len() > 0 {
        let s = samples[0];
        if s == c {
            lemma_debounce_quiet(c, 0, samples.drop_first(), th);
        } else {
            lemma_debounce_quiet(c, (k + 1) as u8, samples.drop_first(), th);
        }
    }
}

/// Debounce stability, confirming half: a raw signal that transitions and
/// stays transitioned emits exactly one event, of the new polarity, once
/// `th` disagreeing ticks have accumulated; afterwards the cell is settled
/// on the new state with its counter cleared.
pub proof fn lemma_debounce_confirms(c: bool, k: u8, samples: Seq<bool>, th: u8)
    requires
        th >= 1,
        k < th,
        samples.len() + k >= th,
        forall|i: int| 0 <= i < samples.len() ==> #[trigger] samples[i] == !c,
    ensures
        run_cell(c, k, samples, th).0 == !c,
        run_cell(c, k, samples, th).1 == 0,
        run_cell(c, k, samples, th).2 == seq![!c],
    decreases samples.len(),
{
    let s = samples[0];
    assert(s == !c);
    if k + 1 >= th {
        let rest = samples.drop_first();
        assert(forall|i: int| 0 <= i < rest.len() ==> #[trigger] rest[i] == !c);
        lemma_agreement_below_threshold(!c, 0, rest, th);
        lemma_debounce_quiet(!c, 0, rest, th);
        lemma_counter_stays_zero(!c, rest, th);
        assert(run_cell(c, k, samples, th).2 =~= seq![!c]);
    } else {
        lemma_debounce_confirms(c, (k + 1) as u8, samples.drop_first(), th);
        assert(run_cell(c, k, samples, th).2 =~= seq![!c]);
    }
}

/// A settled cell fed only agreeing samples keeps a zero counter.
pub proof fn lemma_counter_stays_zero(c: bool, samples: Seq<bool>, th: u8)
    requires
        th >= 1,
        forall|i: int| 0 <= i < samples.len() ==> #[trigger] samples[i] == c,
    ensures
        run_cell(c, 0, samples, th).1 == 0,
    decreases samples.len(),
{
    if samples.len() > 0 {
        lemma_counter_stays_zero(c, samples.drop_first(), th);
    }
}

/// Per-cell debouncing state for the whole matrix.
pub struct Debouncer {
    pub rows: u8,
    pub cols: u8,
    pub threshold: u8,
    pub confirmed: Vec<Vec<bool>>,
    pub counters: Vec<Vec<u8>>,
}

impl Debouncer {
    /// Shape and bounds that every operation preserves: the grids match the
    /// matrix dimensions and every counter is strictly below the threshold.
    pub open spec fn wf(self) -> bool {
        &&& self.threshold >= 1
        &&& self.confirmed@.len() == self.rows as int
        &&& self.counters@.len() == self.rows as int
        &&& forall|r: int|
            0 <= r < self.rows as int ==> (#[trigger] self.confirmed@[r])@.len()
                == self.cols as int
        &&& forall|r: int|
            0 <= r < self.rows as int ==> (#[trigger] self.counters@[r])@.len() == self.cols as int
        &&& forall|r: int, c: int|
            0 <= r < self.rows as int && 0 <= c < self.cols as int ==> (
            #[trigger] self.counters@[r]@[c]) < self.threshold
    }

    /// The confirmed grid as a mathematical value.
    pub open spec fn confirmed_view(self) -> Seq<Seq<bool>> {
        bool_grid_view(self.confirmed@)
    }

    /// The counter grid as a mathematical value.
    pub open spec fn counters_view(self) -> Seq<Seq<u8>> {
        counter_grid_view(self.counters@)
    }

    /// A fresh debouncer: everything confirmed released, all counters zero.
    pub fn new(rows: u8, cols: u8, threshold: u8) -> (d: Debouncer)
        requires
            threshold >= 1,
        ensures
            d.wf(),
            d.rows == rows,
            d.cols == cols,
            d.threshold == threshold,
            forall|r: int, c: int|
                0 <= r < rows as int && 0 <= c < cols as int ==> !(
                #[trigger] d.confirmed_view()[r][c]),
            forall|r: int, c: int|
                0 <= r < rows as int && 0 <= c < cols as int ==> (
                #[trigger] d.counters_view()[r][c]) == 0,
    {
        let mut confirmed: Vec<Vec<bool>> = Vec::new();
        let mut counters: Vec<Vec<u8>> = Vec::new();
        let mut r: u8 = 0;
        while r < rows
            invariant
                r <= rows,
                confirmed@.len() == r as int,
                counters@.len() == r as int,
                forall|i: int|
                    0 <= i < r as int ==> (#[trigger] confirmed@[i])@ == Seq::new(
                        cols as nat,
                        |j: int| false,
                    ),
                forall|i: int|
                    0 <= i < r as int ==> (#[trigger] counters@[i])@ == Seq::new(
                        cols as nat,
                        |j: int| 0u8,
                    ),
            decreases rows - r,
        {
            let mut conf_row: Vec<bool> = Vec::new();
            let mut cnt_row: Vec<u8> = Vec::new();
            let mut c: u8 = 0;
            while c < cols
                invariant
                    c <= cols,
                    conf_row@.len() == c as int,
                    cnt_row@.len() == c as int,
                    forall|j: int| 0 <= j < c as int ==> !(#[trigger] conf_row@[j]),
                    forall|j: int| 0 <= j < c as int ==> (#[trigger] cnt_row@[j]) == 0,
                decreases cols - c,
            {
                conf_row.push(false);
                cnt_row.push(0);
                c = c + 1;
            }
            proof {
                assert(conf_row@ =~= Seq::new(cols as nat, |j: int| false));
                assert(cnt_row@ =~= Seq::new(cols as nat, |j: int| 0u8));
            }
            confirmed.push(conf_row);
            counters.push(cnt_row);
            r = r + 1;
        }
        let d = Debouncer { rows, cols, threshold, confirmed, counters };
        d
    }

    /// One scan tick: advances every cell by its raw sample and returns the
    /// confirmed events, at most one per cell, in row-major order.
    pub fn events(&mut self, raw: &Vec<Vec<bool>>) -> (evts: Vec<KeyEvent>)
        requires
            old(self).wf(),
            bool_grid_dims(bool_grid_view(raw@), old(self).rows, old(self).cols),
        ensures
            final(self).wf(),
            final(self).rows == old(self).rows,
            final(self).cols == old(self).cols,
            final(self).threshold == old(self).threshold,
            forall|r: int, c: int|
                0 <= r < old(self).rows as int && 0 <= c < old(self).cols as int ==> (
                #[trigger] final(self).confirmed_view()[r][c]) == next_confirmed(
                    old(self).confirmed_view()[r][c],
                    old(self).counters_view()[r][c],
                    bool_grid_view(raw@)[r][c],
                    old(self).threshold,
                ),
            forall|r: int, c: int|
                0 <= r < old(self).rows as int && 0 <= c < old(self).cols as int ==> (
                #[trigger] final(self).counters_view()[r][c]) == next_counter(
                    old(self).confirmed_view()[r][c],
                    old(self).counters_view()[r][c],
                    bool_grid_view(raw@)[r][c],
                    old(self).threshold,
                ),
            evts@ == grid_events(
                old(self).confirmed_view(),
                old(self).counters_view(),
                bool_grid_view(raw@),
                old(self).threshold,
                old(self).cols,
                old(self).rows as int,
            ),
    {
        let rows = self.rows;
        let cols = self.cols;
        let th = self.threshold;
        let ghost conf0 = self.confirmed_view();
        let ghost cnt0 = self.counters_view();
        let ghost raw0 = bool_grid_view(raw@);
        let mut new_conf: Vec<Vec<bool>> = Vec::new();
        let mut new_cnt: Vec<Vec<u8>> = Vec::new();
        let mut evts: Vec<KeyEvent> = Vec::new();
        let mut r: u8 = 0;
        while r < rows
            invariant
                self.wf(),
                rows == self.rows,
                cols == self.cols,
                th == self.threshold,
                conf0 == self.confirmed_view(),
                cnt0 == self.counters_view(),
                raw0 == bool_grid_view(raw@),
                bool_grid_dims(raw0, rows, cols),
                r <= rows,
                new_conf@.len() == r as int,
                new_cnt@.len() == r as int,
                forall|i: int, j: int|
                    0 <= i < r as int && 0 <= j < cols as int ==> (
                    #[trigger] bool_grid_view(new_conf@)[i][j]) == next_confirmed(
                        conf0[i][j],
                        cnt0[i][j],
                        raw0[i][j],
                        th,
                    ),
                forall|i: int, j: int|
                    0 <= i < r as int && 0 <= j < cols as int ==> (
                    #[trigger] counter_grid_view(new_cnt@)[i][j]) == next_counter(
                        conf0[i][j],
                        cnt0[i][j],
                        raw0[i][j],
                        th,
                    ),
                forall|i: int|
                    0 <= i < r as int ==> (#[trigger] new_conf@[i])@.len() == cols as int,
                forall|i: int|
                    0 <= i < r as int ==> (#[trigger] new_cnt@[i])@.len() == cols as int,
                forall|i: int, j: int|
                    0 <= i < r as int && 0 <= j < cols as int ==> (#[trigger] new_cnt@[i]@[j]) < th,
                evts@ == grid_events(conf0, cnt0, raw0, th, cols, r as int),
            decreases rows - r,
        {
            let mut conf_row: Vec<bool> = Vec::new();
            let mut cnt_row: Vec<u8> = Vec::new();
            let ghost evts_before = evts@;
            let mut c: u8 = 0;
            while c < cols
                invariant
                    self.wf(),
                    rows == self.rows,
                    cols == self.cols,
                    th == self.threshold,
                    conf0 == self.confirmed_view(),
                    cnt0 == self.counters_view(),
                    raw0 == bool_grid_view(raw@),
                    bool_grid_dims(raw0, rows, cols),
                    r < rows,
                    c <= cols,
                    conf_row@.len() == c as int,
                    cnt_row@.len() == c as int,
                    forall|j: int|
                        0 <= j < c as int ==> (#[trigger] conf_row@[j]) == next_confirmed(
                            conf0[r as int][j],
                            cnt0[r as int][j],
                            raw0[r as int][j],
                            th,
                        ),
                    forall|j: int|
                        0 <= j < c as int ==> (#[trigger] cnt_row@[j]) == next_counter(
                            conf0[r as int][j],
                            cnt0[r as int][j],
                            raw0[r as int][j],
                            th,
                        ),
                    forall|j: int| 0 <= j < c as int ==> (#[trigger] cnt_row@[j]) < th,
                    evts@ == evts_before + row_events(
                        conf0[r as int],
                        cnt0[r as int],
                        raw0[r as int],
                        th,
                        r,
                        c as int,
                    ),
                decreases cols - c,
            {
                let cur = self.confirmed[r as usize][c as usize];
                let k = self.counters[r as usize][c as usize];
                let s = raw[r as usize][c as usize];
                if s != cur {
                    if k >= th - 1 {
                        conf_row.push(s);
                        cnt_row.push(0);
                        if s {
                            evts.push(KeyEvent::Press(r, c));
                        } else {
                            evts.push(KeyEvent::Release(r, c));
                        }
                    } else {
                        conf_row.push(cur);
                        cnt_row.push(k + 1);
                    }
                } else {
                    conf_row.push(cur);
                    cnt_row.push(0);
                }
                c = c + 1;
            }
            let ghost prev_conf = new_conf@;
            let ghost prev_cnt = new_cnt@;
            let ghost conf_row_v = conf_row@;
            let ghost cnt_row_v = cnt_row@;
            new_conf.push(conf_row);
            new_cnt.push(cnt_row);
            proof {
                assert(evts_before == grid_events(conf0, cnt0, raw0, th, cols, r as int));
                assert(evts@ == grid_events(conf0, cnt0, raw0, th, cols, r as int + 1));
                assert(new_conf@.len() == r as int + 1);
                assert(new_conf@[r as int]@ == conf_row_v);
                assert(new_cnt@[r as int]@ == cnt_row_v);
                assert forall|i: int, j: int|
                    0 <= i < r as int + 1 && 0 <= j < cols as int implies (
                #[trigger] bool_grid_view(new_conf@)[i][j]) == next_confirmed(
                    conf0[i][j],
                    cnt0[i][j],
                    raw0[i][j],
                    th,
                ) by {
                    if i < r as int {
                        assert(new_conf@[i] == prev_conf[i]);
                        assert(bool_grid_view(prev_conf)[i][j] == next_confirmed(
                            conf0[i][j],
                            cnt0[i][j],
                            raw0[i][j],
                            th,
                        ));
                    } else {
                        assert(bool_grid_view(new_conf@)[i] == conf_row_v);
                        assert(conf_row_v[j] == next_confirmed(
                            conf0[i][j],
                            cnt0[i][j],
                            raw0[i][j],
                            th,
                        ));
                    }
                }
                assert forall|i: int, j: int|
                    0 <= i < r as int + 1 && 0 <= j < cols as int implies (
                #[trigger] counter_grid_view(new_cnt@)[i][j]) == next_counter(
                    conf0[i][j],
                    cnt0[i][j],
                    raw0[i][j],
                    th,
                ) by {
                    if i < r as int {
                        assert(new_cnt@[i] == prev_cnt[i]);
                        assert(counter_grid_view(prev_cnt)[i][j] == next_counter(
                            conf0[i][j],
                            cnt0[i][j],
                            raw0[i][j],
                            th,
                        ));
                    } else {
                        assert(counter_grid_view(new_cnt@)[i] == cnt_row_v);
                        assert(cnt_row_v[j] == next_counter(conf0[i][j], cnt0[i][j], raw0[i][j], th));
                    }
                }
            }
            r = r + 1;
        }
        self.confirmed = new_conf;
        self.counters = new_cnt;
        evts
    }
}

} // verus!
