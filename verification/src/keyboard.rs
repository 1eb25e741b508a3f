//! The per-half input pipeline, wired together.
//!
//! One `Keyboard` value holds everything a half-keyboard computes between
//! its hardware edges: the debouncer over its local matrix, the action
//! engine over the unified key space, and one rolling receive buffer per
//! serial link. Each timer tick the shell samples the matrix and calls
//! `scan_tick`, transmits the returned wire packets on both links, then
//! calls `end_of_cycle` and pushes the finished report to the USB
//! transport (skipping it while the device is not configured, and
//! retrying a rejected write within the same cycle only). Each received
//! serial byte goes through `receive`.

use vstd::prelude::*;
use crate::codec::{RxBuffer, serialize, spec_serialize, spec_deserialize};
use crate::debounce::{Debouncer, scan_events_upto, cell_next_stable, cell_next_count,
    lemma_scan_events_bounds};
use crate::event::{BoardType, Event, COLS_PER_BOARD, NUM_ROWS, translate, spec_translate};
use crate::layout::{Action, Layout, LayoutView, valid_config, layers_view, KeyState};
use crate::report::{HidReport, spec_report_bytes};

verus! {

/// Consecutive equal samples needed before a key level change is
/// accepted: about five milliseconds at the 1 kHz scan cadence.
pub const DEBOUNCE_WINDOW: u8 = 5;

/// The engine state after the first `i` of a sequence of events.
pub open spec fn apply_events(v: LayoutView, evs: Seq<Event>, i: int) -> LayoutView
    decreases i,
{
    if i <= 0 {
        v
    } else {
        apply_events(v, evs, i - 1).apply_event(evs[i - 1])
    }
}

/// Whether the designated matrix cell (row 0, column 0) reads pressed in
/// a scan: on power-up, a pressed cell there during the first full scan
/// asks for the bootloader instead of the application.
pub fn bootloader_requested(first_scan: &Vec<Vec<bool>>) -> (r: bool)
    ensures
        r == (first_scan@.len() > 0 && first_scan@[0]@.len() > 0 && first_scan@[0]@[0]),
{
    first_scan.len() > 0 && first_scan[0].len() > 0 && first_scan[0][0]
}

/// The whole input pipeline of one half-keyboard.
pub struct Keyboard {
    /// Which half this is; decides coordinate translation.
    pub board: BoardType,
    /// Debouncer over the half's own matrix.
    pub debouncer: Debouncer,
    /// The action/layout engine, in unified coordinates.
    pub layout: Layout,
    /// Rolling receive buffer of the link toward the left half.
    pub left_rx: RxBuffer,
    /// Rolling receive buffer of the link toward the right half.
    pub right_rx: RxBuffer,
}

impl Keyboard {
    /// Consistency of the whole pipeline: a sound engine and a sound
    /// debouncer whose local columns fit below the per-board column
    /// count, so every local event can be translated without overflow.
    pub open spec fn wf(self) -> bool {
        &&& self.layout@.wf()
        &&& self.debouncer.wf()
        &&& self.debouncer.cols() <= COLS_PER_BOARD as int
        &&& self.debouncer.rows() <= NUM_ROWS as int
    }

    /// The receive buffer of one link.
    pub open spec fn rx_buf(self, link: BoardType) -> Seq<u8> {
        match link {
            BoardType::Left => self.left_rx.buf@,
            BoardType::Right => self.right_rx.buf@,
        }
    }

    /// Builds the pipeline of one half over a layout table, with every
    /// key released and both receive buffers empty. An unacceptable
    /// table — see `valid_config` — is rejected.
    pub fn new(board: BoardType, layers: Vec<Vec<Vec<Action>>>) -> (r: Option<Keyboard>)
        ensures
            r is Some <==> valid_config(layers_view(layers)),
            match r {
                Some(kb) => ({
                    &&& kb.wf()
                    &&& kb.board == board
                    &&& kb.layout@.layers == layers_view(layers)
                    &&& kb.layout@.default_layer == 0
                    &&& kb.layout@.stack == Seq::<u8>::empty()
                    &&& forall|i: int, j: int|
                        0 <= i < kb.layout@.rows() && 0 <= j < kb.layout@.cols()
                            ==> #[trigger] kb.layout@.keys[i][j] == KeyState::Idle
                    &&& kb.debouncer.rows() == NUM_ROWS as int
                    &&& kb.debouncer.cols() == COLS_PER_BOARD as int
                    &&& kb.debouncer.window == DEBOUNCE_WINDOW
                }),
                None => true,
            },
    {
        let layout = match Layout::new(layers) {
            Some(l) => l,
            None => {
                return None;
            },
        };
        let debouncer = Debouncer::new(NUM_ROWS, COLS_PER_BOARD as usize, DEBOUNCE_WINDOW);
        Some(
            Keyboard {
                board,
                debouncer,
                layout,
                left_rx: RxBuffer::new(),
                right_rx: RxBuffer::new(),
            },
        )
    }

    /// One timer tick's worth of scanning: debounces the raw matrix
    /// sample, translates each resulting event into unified coordinates,
    /// applies it to the engine, and returns the events' wire packets in
    /// the same order — the shell must transmit every packet on both
    /// outbound links.
    pub fn scan_tick(&mut self, raw: &Vec<Vec<bool>>) -> (packets: Vec<[u8; 4]>)
        requires
            old(self).wf(),
            old(self).debouncer.matches_shape(*raw),
        ensures
            final(self).wf(),
            final(self).board == old(self).board,
            final(self).left_rx == old(self).left_rx,
            final(self).right_rx == old(self).right_rx,
            final(self).debouncer.window == old(self).debouncer.window,
            final(self).debouncer.rows() == old(self).debouncer.rows(),
            final(self).debouncer.cols() == old(self).debouncer.cols(),
            forall|r: int, c: int|
                0 <= r < old(self).debouncer.rows() && 0 <= c < old(self).debouncer.cols()
                    ==> #[trigger] final(self).debouncer.stable_view()[r][c] == cell_next_stable(
                    old(self).debouncer.stable_view()[r][c],
                    old(self).debouncer.count_view()[r][c],
                    raw@[r]@[c],
                    old(self).debouncer.window,
                ),
            forall|r: int, c: int|
                0 <= r < old(self).debouncer.rows() && 0 <= c < old(self).debouncer.cols()
                    ==> #[trigger] final(self).debouncer.count_view()[r][c] == cell_next_count(
                    old(self).debouncer.stable_view()[r][c],
                    old(self).debouncer.count_view()[r][c],
                    raw@[r]@[c],
                    old(self).debouncer.window,
                ),
            ({
                let evs = scan_events_upto(
                    old(self).debouncer.stable_view(),
                    old(self).debouncer.count_view(),
                    raw@.map(|i: int, v: Vec<bool>| v@),
                    old(self).debouncer.window,
                    old(self).debouncer.rows(),
                ).map(|i: int, e: Event| spec_translate(old(self).board, e));
                &&& packets@.len() == evs.len()
                &&& (forall|i: int|
                    0 <= i < evs.len() ==> #[trigger] packets@[i]@ == spec_serialize(evs[i]))
                &&& final(self).layout@ == apply_events(
                    old(self).layout@,
                    evs,
                    evs.len() as int,
                )
            }),
    {
        let ghost v0 = old(self).layout@;
        let ghost board = self.board;
        let local = self.debouncer.events(raw);
        proof {
            lemma_scan_events_bounds(
                old(self).debouncer.stable_view(),
                old(self).debouncer.count_view(),
                raw@.map(|i: int, v: Vec<bool>| v@),
                old(self).debouncer.window,
                old(self).debouncer.rows(),
                old(self).debouncer.cols(),
            );
        }
        let ghost evs = local@.map(|i: int, e: Event| spec_translate(board, e));
        let ghost db1 = self.debouncer;
        let mut packets: Vec<[u8; 4]> = Vec::new();
        let mut i: usize = 0;
        while i < local.len()
            invariant
                self.board == board,
                board == old(self).board,
                self.debouncer == db1,
                db1.wf(),
                self.left_rx == old(self).left_rx,
                self.right_rx == old(self).right_rx,
                i <= local@.len(),
                evs == local@.map(|i: int, e: Event| spec_translate(board, e)),
                forall|j: int|
                    0 <= j < local@.len() ==> (#[trigger] local@[j]).spec_col()
                        < COLS_PER_BOARD,
                packets@.len() == i,
                forall|j: int|
                    0 <= j < i ==> #[trigger] packets@[j]@ == spec_serialize(evs[j]),
                self.layout@.wf(),
                self.layout@ == apply_events(v0, evs, i as int),
            decreases local@.len() - i,
        {
            let e = local[i];
            let t = translate(self.board, e);
            let p = serialize(t);
            packets.push(p);
            self.layout.event(t);
            i += 1;
        }
        packets
    }

    /// Feeds one byte received on a serial link: the link's rolling
    /// buffer slides, and when the byte completes a well-formed record
    /// the decoded event — already in unified coordinates, translated by
    /// its sender — is applied to the engine and handed back.
    pub fn receive(&mut self, link: BoardType, byte: u8) -> (got: Option<Event>)
        requires
            old(self).wf(),
        ensures
            final(self).wf(),
            final(self).board == old(self).board,
            final(self).debouncer == old(self).debouncer,
            final(self).rx_buf(link) == old(self).rx_buf(link).subrange(1, 4).push(byte),
            link != BoardType::Left ==> final(self).left_rx == old(self).left_rx,
            link != BoardType::Right ==> final(self).right_rx == old(self).right_rx,
            got == spec_deserialize(final(self).rx_buf(link)),
            final(self).layout@ == match got {
                Some(e) => old(self).layout@.apply_event(e),
                None => old(self).layout@,
            },
    {
        let got = match link {
            BoardType::Left => self.left_rx.push(byte),
            BoardType::Right => self.right_rx.push(byte),
        };
        match got {
            Some(e) => {
                self.layout.event(e);
            },
            None => {},
        }
        got
    }

    /// Ends one scan cycle: advances the engine's hold-tap clocks by one
    /// tick, then projects the active-layer bit-mask (whose low three
    /// bits drive the LEDs) and assembles the report to submit for this
    /// cycle.
    pub fn end_of_cycle(&mut self) -> (r: (u8, HidReport))
        requires
            old(self).wf(),
        ensures
            final(self).wf(),
            final(self).board == old(self).board,
            final(self).debouncer == old(self).debouncer,
            final(self).left_rx == old(self).left_rx,
            final(self).right_rx == old(self).right_rx,
            final(self).layout@ == old(self).layout@.apply_tick(),
            r.0 == final(self).layout@.layer_mask(),
            r.1.bytes@ == spec_report_bytes(final(self).layout@.keycodes()),
    {
        self.layout.tick();
        let mask = self.layout.current_layer();
        let keys = self.layout.keycodes();
        let report = HidReport::build(&keys);
        (mask, report)
    }
}

} // verus!
