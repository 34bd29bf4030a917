use crate::tiles::{TileGrid, TileRect};
use vstd::prelude::*;

verus! {

/// Number of tiles marked as received.
pub open spec fn count_received(received: Seq<bool>) -> nat
    decreases received.len(),
{
    if received.len() == 0 {
        0
    } else {
        count_received(received.drop_last()) + if received.last() {
            1nat
        } else {
            0nat
        }
    }
}

/// Marks tile `index` as received; an index outside the frame changes nothing.
pub open spec fn mark(received: Seq<bool>, index: int) -> Seq<bool> {
    if 0 <= index < received.len() {
        received.update(index, true)
    } else {
        received
    }
}

/// The seed of the random generator that renders tile `index` of the frame
/// numbered `generation`.
pub open spec fn tile_seed_of(generation: u32, index: u64) -> u64 {
    index.wrapping_add((generation as u64 * 0x1_0000_0000) as u64)
}

/// One unit of work: render `rect` with a generator seeded by `seed`, and hand
/// the result back tagged with `generation` and `index`.
#[derive(Clone, Copy, Debug, PartialEq, Eq, Structural)]
pub struct TileJob {
    pub generation: u32,
    pub index: u64,
    pub rect: TileRect,
    pub seed: u64,
}

/// The progress of one frame: which tiles of the current tile grid have come
/// back, how many, and whether completion has been reported. Every resize or
/// scene change starts a new generation; tiles of an older one are refused.
pub struct FrameSchedule {
    grid: TileGrid,
    generation: u32,
    received: Vec<bool>,
    completed: u64,
    announced: bool,
}

impl FrameSchedule {
    pub closed spec fn spec_grid(self) -> TileGrid {
        self.grid
    }

    pub closed spec fn spec_generation(self) -> u32 {
        self.generation
    }

    pub closed spec fn spec_received(self) -> Seq<bool> {
        self.received@
    }

    /// The completion counter.
    pub closed spec fn spec_completed(self) -> int {
        self.completed as int
    }

    pub closed spec fn spec_announced(self) -> bool {
        self.announced
    }

    pub open spec fn wf(self) -> bool {
        &&& self.spec_grid().wf()
        &&& self.spec_received().len() == self.spec_grid().count()
        &&& self.spec_completed() == count_received(self.spec_received())
    }

    /// All tiles of the current frame have come back.
    pub open spec fn spec_complete(self) -> bool {
        self.spec_completed() == self.spec_grid().count()
    }

    /// A fresh frame of the given size, cut into tiles of side `tile_size`;
    /// `None` when `tile_size` is zero.
    pub fn new(width: u32, height: u32, tile_size: u32) -> (r: Option<FrameSchedule>)
        ensures
            r is None <==> tile_size == 0,
            r matches Some(s) ==> {
                &&& s.wf()
                &&& s.spec_grid().frame_width() == width
                &&& s.spec_grid().frame_height() == height
                &&& s.spec_grid().side() == tile_size
                &&& s.spec_generation() == 0
                &&& s.spec_completed() == 0
                &&& !s.spec_announced()
                &&& forall|i: int| 0 <= i < s.spec_received().len() ==> !s.spec_received()[i]
            },
    {
        match TileGrid::new(width, height, tile_size) {
            None => None,
            Some(grid) => {
                let received = nothing_received(grid.tile_count());
                Some(FrameSchedule { grid, generation: 0, received, completed: 0, announced: false })
            },
        }
    }

    /// Starts a new frame of the given size with the same tile side: a new
    /// generation, nothing received, nothing reported. Tiles of the frames
    /// before it will be refused.
    pub fn restart(&mut self, width: u32, height: u32)
        requires
            old(self).wf(),
        ensures
            final(self).wf(),
            final(self).spec_grid().frame_width() == width,
            final(self).spec_grid().frame_height() == height,
            final(self).spec_grid().side() == old(self).spec_grid().side(),
            final(self).spec_generation() == old(self).spec_generation().wrapping_add(1),
            final(self).spec_completed() == 0,
            !final(self).spec_announced(),
            forall|i: int|
                0 <= i < final(self).spec_received().len() ==> !final(self).spec_received()[i],
    {
        let grid = match TileGrid::new(width, height, self.grid.tile_size()) {
            Some(g) => g,
            None => self.grid,
        };
        self.grid = grid;
        self.generation = self.generation.wrapping_add(1);
        self.received = nothing_received(grid.tile_count());
        self.completed = 0;
        self.announced = false;
    }

    /// The jobs of the current frame, one per tile, in tile order.
    pub fn jobs(&self) -> (r: Vec<TileJob>)
        requires
            self.wf(),
        ensures
            r@.len() == self.spec_grid().count(),
            forall|k: int|
                0 <= k < r@.len() ==> r@[k] == (TileJob {
                    generation: self.spec_generation(),
                    index: k as u64,
                    rect: self.spec_grid().spec_tile(k),
                    seed: tile_seed_of(self.spec_generation(), k as u64),
                }),
    {
        let count = self.grid.tile_count();
        let mut jobs: Vec<TileJob> = Vec::new();
        let mut k: u64 = 0;
        while k < count
            invariant
                self.wf(),
                count == self.spec_grid().count(),
                k <= count,
                jobs@.len() == k,
                forall|j: int|
                    0 <= j < k ==> jobs@[j] == (TileJob {
                        generation: self.spec_generation(),
                        index: j as u64,
                        rect: self.spec_grid().spec_tile(j),
                        seed: tile_seed_of(self.spec_generation(), j as u64),
                    }),
            decreases count - k,
        {
            let rect = self.grid.tile(k);
            let seed = tile_seed(self.generation, k);
            jobs.push(TileJob { generation: self.generation, index: k, rect, seed });
            k = k + 1;
        }
        jobs
    }

    /// Takes in tile `index` of frame `generation`. It is merged, and the
    /// counter goes up by one, exactly when it belongs to the current frame
    /// and has not come back before; otherwise nothing changes.
    pub fn accept(&mut self, generation: u32, index: u64) -> (merged: bool)
        requires
            old(self).wf(),
        ensures
            final(self).wf(),
            merged == (generation == old(self).spec_generation() && index < old(self).spec_grid().count()
                && !old(self).spec_received()[index as int]),
            merged ==> final(self).spec_received() == mark(old(self).spec_received(), index as int),
            merged ==> final(self).spec_completed() == old(self).spec_completed() + 1,
            !merged ==> final(self).spec_received() == old(self).spec_received(),
            !merged ==> final(self).spec_completed() == old(self).spec_completed(),
            generation == old(self).spec_generation() ==> final(self).spec_received() == mark(
                old(self).spec_received(),
                index as int,
            ),
            final(self).spec_grid() == old(self).spec_grid(),
            final(self).spec_generation() == old(self).spec_generation(),
            final(self).spec_announced() == old(self).spec_announced(),
    {
        if generation != self.generation || index >= self.received.len() as u64 {
            return false;
        }
        let i = index as usize;
        if self.received[i] {
            proof {
                assert(self.received@.update(i as int, true) =~= self.received@);
            }
            return false;
        }
        proof {
            lemma_count_received_mark(self.received@, i as int);
            lemma_count_received_bound(mark(self.received@, i as int));
        }
        self.received.set(i, true);
        self.completed = self.completed + 1;
        true
    }

    /// Reports completion: true the first time it is asked once every tile
    /// of the current frame has come back, false before and after.
    pub fn poll_complete(&mut self) -> (r: bool)
        requires
            old(self).wf(),
        ensures
            final(self).wf(),
            r == (old(self).spec_complete() && !old(self).spec_announced()),
            final(self).spec_announced() == (old(self).spec_announced() || r),
            final(self).spec_grid() == old(self).spec_grid(),
            final(self).spec_generation() == old(self).spec_generation(),
            final(self).spec_received() == old(self).spec_received(),
            final(self).spec_completed() == old(self).spec_completed(),
    {
        if self.announced || self.completed != self.grid.tile_count() {
            return false;
        }
        self.announced = true;
        true
    }

    pub fn grid(&self) -> (r: TileGrid)
        ensures
            r == self.spec_grid(),
    {
        self.grid
    }

    pub fn generation(&self) -> (r: u32)
        ensures
            r == self.spec_generation(),
    {
        self.generation
    }

    /// The completion counter: tiles of the current frame that came back.
    pub fn completed(&self) -> (r: u64)
        ensures
            r == self.spec_completed(),
    {
        self.completed
    }

    pub fn is_complete(&self) -> (r: bool)
        ensures
            r == self.spec_complete(),
    {
        self.completed == self.grid.tile_count()
    }
}

/// The seed for tile `index` of frame `generation`.
pub fn tile_seed(generation: u32, index: u64) -> (r: u64)
    ensures
        r == tile_seed_of(generation, index),
{
    index.wrapping_add(generation as u64 * 0x1_0000_0000)
}

/// Tiles of frames numbered apart, or tiles apart within a frame, get seeds
/// apart, as long as tile indices stay below 2^32.
pub proof fn lemma_tile_seeds_distinct(g1: u32, i1: u64, g2: u32, i2: u64)
    requires
        i1 < 0x1_0000_0000,
        i2 < 0x1_0000_0000,
        g1 != g2 || i1 != i2,
    ensures
        tile_seed_of(g1, i1) != tile_seed_of(g2, i2),
{
    assert(tile_seed_of(g1, i1) == g1 * 0x1_0000_0000 + i1);
    assert(tile_seed_of(g2, i2) == g2 * 0x1_0000_0000 + i2);
    if g1 != g2 {
        vstd::arithmetic::div_mod::lemma_fundamental_div_mod_converse(
            g1 * 0x1_0000_0000 + i1,
            0x1_0000_0000,
            g1 as int,
            i1 as int,
        );
        vstd::arithmetic::div_mod::lemma_fundamental_div_mod_converse(
            g2 * 0x1_0000_0000 + i2,
            0x1_0000_0000,
            g2 as int,
            i2 as int,
        );
    }
}

/// `count` tiles, none of them received.
fn nothing_received(count: u64) -> (r: Vec<bool>)
    ensures
        r@.len() == count,
        count_received(r@) == 0,
        forall|i: int| 0 <= i < r@.len() ==> !r@[i],
{
    let mut v: Vec<bool> = Vec::new();
    let mut k: u64 = 0;
    while k < count
        invariant
            k <= count,
            v@.len() == k,
            count_received(v@) == 0,
            forall|i: int| 0 <= i < v@.len() ==> !v@[i],
        decreases count - k,
    {
        proof {
            assert(v@.push(false).drop_last() =~= v@);
        }
        v.push(false);
        k = k + 1;
    }
    v
}

/// No more tiles are received than there are.
proof fn lemma_count_received_bound(received: Seq<bool>)
    ensures
        count_received(received) <= received.len(),
    decreases received.len(),
{
    if received.len() > 0 {
        lemma_count_received_bound(received.drop_last());
    }
}

/// Marking a tile that had not come back adds one to the count.
proof fn lemma_count_received_mark(received: Seq<bool>, i: int)
    requires
        0 <= i < received.len(),
        !received[i],
    ensures
        count_received(mark(received, i)) == count_received(received) + 1,
    decreases received.len(),
{
    let marked = mark(received, i);
    if i < received.len() - 1 {
        assert(marked.drop_last() =~= mark(received.drop_last(), i));
        lemma_count_received_mark(received.drop_last(), i);
    } else {
        assert(marked.drop_last() =~= received.drop_last());
    }
}

/// What has been received after `arrivals` came back in order, starting from
/// `received`: the state that `accept` builds for tiles of the current frame.
pub open spec fn received_after(received: Seq<bool>, arrivals: Seq<int>) -> Seq<bool>
    decreases arrivals.len(),
{
    if arrivals.len() == 0 {
        received
    } else {
        mark(received_after(received, arrivals.drop_last()), arrivals.last())
    }
}

/// A frame of `n` tiles with none received.
pub open spec fn none_received(n: nat) -> Seq<bool> {
    Seq::new(n, |i: int| false)
}

/// The completion counter after the first `k` arrivals of a frame of `n`
/// tiles.
pub open spec fn counter_after(n: nat, arrivals: Seq<int>, k: int) -> nat {
    count_received(received_after(none_received(n), arrivals.take(k)))
}

/// In a frame of `n` tiles, let the tiles come back in any order, with
/// repeats and strays, until each of them has come back at least once. Then
/// the completion counter ends at `n`, and it reaches `n` at exactly one
/// arrival.
pub proof fn lemma_counter_reaches_total_once(n: nat, arrivals: Seq<int>)
    requires
        n > 0,
        forall|i: int| 0 <= i < n ==> arrivals.contains(i),
    ensures
        counter_after(n, arrivals, arrivals.len() as int) == n,
        exists|k: int|
            0 <= k < arrivals.len() && counter_after(n, arrivals, k) < n && #[trigger] counter_after(
                n,
                arrivals,
                k + 1,
            ) == n,
        forall|k1: int, k2: int|
            0 <= k1 < arrivals.len() && 0 <= k2 < arrivals.len() && counter_after(n, arrivals, k1) < n
                && #[trigger] counter_after(n, arrivals, k1 + 1) == n && counter_after(n, arrivals, k2) < n
                && #[trigger] counter_after(n, arrivals, k2 + 1) == n ==> k1 == k2,
{
    let len = arrivals.len() as int;
    let start = none_received(n);
    assert(arrivals.take(len) =~= arrivals);
    lemma_received_after_len(start, arrivals);
    assert forall|i: int| 0 <= i < n implies #[trigger] received_after(start, arrivals)[i] by {
        assert(arrivals.contains(i));
        let p = choose|p: int| 0 <= p < len && arrivals[p] == i;
        lemma_arrival_received(start, arrivals, p);
    }
    lemma_all_received(received_after(start, arrivals), n);
    assert(arrivals.take(0) =~= Seq::<int>::empty());
    lemma_count_received_none(n);
    lemma_crossing_exists(n, arrivals, len);
    assert forall|k1: int, k2: int|
        0 <= k1 < len && 0 <= k2 < len && counter_after(n, arrivals, k1) < n
            && #[trigger] counter_after(n, arrivals, k1 + 1) == n && counter_after(n, arrivals, k2) < n
            && #[trigger] counter_after(n, arrivals, k2 + 1) == n implies k1 == k2 by {
        if k1 < k2 {
            lemma_counter_monotone(n, arrivals, k1 + 1, k2);
        } else if k2 < k1 {
            lemma_counter_monotone(n, arrivals, k2 + 1, k1);
        }
    }
}

/// In a frame with no tiles the completion counter stands at the total, zero,
/// before any arrival and after every one: no arrival is counted.
pub proof fn lemma_empty_frame_counter(arrivals: Seq<int>, k: int)
    requires
        0 <= k <= arrivals.len(),
    ensures
        counter_after(0, arrivals, k) == 0,
{
    lemma_received_after_len(none_received(0), arrivals.take(k));
    lemma_count_received_bound(received_after(none_received(0), arrivals.take(k)));
}

proof fn lemma_received_after_len(received: Seq<bool>, arrivals: Seq<int>)
    ensures
        received_after(received, arrivals).len() == received.len(),
    decreases arrivals.len(),
{
    if arrivals.len() > 0 {
        lemma_received_after_len(received, arrivals.drop_last());
    }
}

/// One more arrival marks one more tile.
proof fn lemma_received_after_step(received: Seq<bool>, arrivals: Seq<int>, k: int)
    requires
        0 <= k < arrivals.len(),
    ensures
        received_after(received, arrivals.take(k + 1)) == mark(
            received_after(received, arrivals.take(k)),
            arrivals[k],
        ),
{
    assert(arrivals.take(k + 1).drop_last() =~= arrivals.take(k));
}

/// Marking never takes a tile back.
proof fn lemma_mark_keeps(received: Seq<bool>, index: int, i: int)
    requires
        0 <= i < received.len(),
        received[i],
    ensures
        mark(received, index)[i],
{
}

/// A tile stays received once it has arrived.
proof fn lemma_arrival_received(received: Seq<bool>, arrivals: Seq<int>, p: int)
    requires
        0 <= p < arrivals.len(),
        0 <= arrivals[p] < received.len(),
    ensures
        received_after(received, arrivals)[arrivals[p]],
    decreases arrivals.len(),
{
    let last = arrivals.len() - 1;
    lemma_received_after_len(received, arrivals.drop_last());
    if p < last {
        assert(arrivals.drop_last()[p] == arrivals[p]);
        lemma_arrival_received(received, arrivals.drop_last(), p);
        lemma_mark_keeps(received_after(received, arrivals.drop_last()), arrivals.last(), arrivals[p]);
    }
}

/// When every tile is marked, the count is the number of tiles.
proof fn lemma_all_received(received: Seq<bool>, n: nat)
    requires
        received.len() == n,
        forall|i: int| 0 <= i < n ==> received[i],
    ensures
        count_received(received) == n,
    decreases n,
{
    if n > 0 {
        lemma_all_received(received.drop_last(), (n - 1) as nat);
    }
}

proof fn lemma_count_received_none(n: nat)
    ensures
        count_received(none_received(n)) == 0,
    decreases n,
{
    if n > 0 {
        assert(none_received(n).drop_last() =~= none_received((n - 1) as nat));
        lemma_count_received_none((n - 1) as nat);
    }
}

/// Marking never lowers the count.
proof fn lemma_count_received_mark_grows(received: Seq<bool>, index: int)
    ensures
        count_received(received) <= count_received(mark(received, index)),
{
    if 0 <= index < received.len() {
        if received[index] {
            assert(mark(received, index) =~= received);
        } else {
            lemma_count_received_mark(received, index);
        }
    }
}

/// The counter never goes down.
proof fn lemma_counter_monotone(n: nat, arrivals: Seq<int>, k1: int, k2: int)
    requires
        0 <= k1 <= k2 <= arrivals.len(),
    ensures
        counter_after(n, arrivals, k1) <= counter_after(n, arrivals, k2),
    decreases k2 - k1,
{
    if k1 < k2 {
        lemma_counter_monotone(n, arrivals, k1, k2 - 1);
        lemma_received_after_step(none_received(n), arrivals, k2 - 1);
        lemma_count_received_mark_grows(
            received_after(none_received(n), arrivals.take(k2 - 1)),
            arrivals[k2 - 1],
        );
    }
}

/// If the counter stands at `n` after `m` arrivals, some arrival before then
/// took it from below `n` to `n`.
proof fn lemma_crossing_exists(n: nat, arrivals: Seq<int>, m: int)
    requires
        n > 0,
        0 <= m <= arrivals.len(),
        counter_after(n, arrivals, 0) == 0,
        counter_after(n, arrivals, m) == n,
    ensures
        exists|k: int|
            0 <= k < m && counter_after(n, arrivals, k) < n && #[trigger] counter_after(
                n,
                arrivals,
                k + 1,
            ) == n,
    decreases m,
{
    if counter_after(n, arrivals, m - 1) < n {
        assert(counter_after(n, arrivals, (m - 1) + 1) == n);
    } else {
        lemma_received_after_step(none_received(n), arrivals, m - 1);
        lemma_count_received_mark_grows(
            received_after(none_received(n), arrivals.take(m - 1)),
            arrivals[m - 1],
        );
        lemma_received_after_len(none_received(n), arrivals.take(m - 1));
        lemma_count_received_bound(received_after(none_received(n), arrivals.take(m - 1)));
        lemma_crossing_exists(n, arrivals, m - 1);
    }
}

} // verus!
