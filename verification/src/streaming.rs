//! Chunk streaming around the camera: which chunks to unload, which to queue,
//! in what order to spawn them and how many per frame.
use vstd::prelude::*;
use std::collections::VecDeque;
use bevy::ecs::entity::Entity;
use crate::tile::VIEW_DIST;
use crate::by_distance::{sq_dist, sort_by_dist, sorted_by_dist, sort_by_distance, lemma_sort_by_dist, lemma_sort_by_dist_stable};

verus! {

broadcast use vstd::seq_lib::group_seq_properties, vstd::seq_lib::group_filter_ensures;

/// A loaded chunk: its coordinate and the entities spawned for it.
pub type LoadedChunk = ((i32, i32), Vec<Entity>);

/// What the engine has to do for one frame of streaming.
pub struct FramePlan {
    /// Entity groups of the chunks unloaded this frame, to despawn.
    pub despawn: Vec<Vec<Entity>>,
    /// Chunks to spawn this frame, in order; each is then recorded with
    /// [`ChunkManager::insert_loaded`].
    pub spawn: Vec<(i32, i32)>,
}

/// The streaming state: loaded chunks, the camera chunk last acted upon, and
/// the chunks waiting to be spawned.
pub struct ChunkManager {
    /// Loaded chunks with their entities, oldest first; no coordinate twice.
    pub loaded: Vec<LoadedChunk>,
    /// The camera chunk at the last re-evaluation.
    pub last_cam_chunk: Option<(i32, i32)>,
    /// Chunks waiting to be spawned, next first.
    pub spawn_queue: VecDeque<(i32, i32)>,
    /// How many chunks may be spawned per frame.
    pub spawns_per_frame: usize,
}

pub open spec fn abs(d: int) -> int {
    if d < 0 { -d } else { d }
}

/// Chunk `c` lies within the view distance of the camera chunk `cam`, along both axes.
pub open spec fn in_view(c: (i32, i32), cam: (i32, i32)) -> bool {
    abs(c.0 - cam.0) <= VIEW_DIST && abs(c.1 - cam.1) <= VIEW_DIST
}

pub open spec fn entry_in_view(cam: (i32, i32)) -> spec_fn(LoadedChunk) -> bool {
    |e: LoadedChunk| in_view(e.0, cam)
}

pub open spec fn entry_out_of_view(cam: (i32, i32)) -> spec_fn(LoadedChunk) -> bool {
    |e: LoadedChunk| !in_view(e.0, cam)
}

pub open spec fn keys_of(s: Seq<LoadedChunk>) -> Seq<(i32, i32)> {
    s.map_values(|e: LoadedChunk| e.0)
}

pub open spec fn entities_of(s: Seq<LoadedChunk>) -> Seq<Vec<Entity>> {
    s.map_values(|e: LoadedChunk| e.1)
}

/// Number of chunks along one side of the view square.
pub open spec fn view_width() -> int {
    2 * VIEW_DIST + 1
}

/// The chunks within view of `cam`, row by row from the lowest z, each row
/// from the lowest x.
pub open spec fn view_coords(cam: (i32, i32)) -> Seq<(i32, i32)> {
    Seq::new(
        (view_width() * view_width()) as nat,
        |k: int| ((cam.0 - VIEW_DIST + k % view_width()) as i32, (cam.1 - VIEW_DIST + k / view_width()) as i32),
    )
}

/// Neither loaded nor already queued.
pub open spec fn not_pending(loaded: Seq<(i32, i32)>, queue: Seq<(i32, i32)>) -> spec_fn((i32, i32)) -> bool {
    |c: (i32, i32)| !loaded.contains(c) && !queue.contains(c)
}

/// Whether `c` is among the entries of `v`.
fn contains_coord(v: &Vec<(i32, i32)>, c: (i32, i32)) -> (found: bool)
    ensures
        found == v@.contains(c),
{
    let mut i: usize = 0;
    while i < v.len()
        invariant
            0 <= i <= v.len(),
            forall|j: int| 0 <= j < i ==> v@[j] != c,
        decreases v.len() - i,
    {
        let e = v[i];
        if e.0 == c.0 && e.1 == c.1 {
            assert(v@[i as int] == c);
            return true;
        }
        i = i + 1;
    }
    false
}

/// The entries of `s`, in order, that are not in `loaded` and not an earlier
/// entry of `s` kept already: what spawning the chunks of `s` one after the
/// other, each unless loaded by then, spawns.
pub open spec fn fresh_spawns(s: Seq<(i32, i32)>, loaded: Seq<(i32, i32)>) -> Seq<(i32, i32)>
    decreases s.len(),
{
    if s.len() == 0 {
        s
    } else {
        let p = fresh_spawns(s.drop_last(), loaded);
        if !loaded.contains(s.last()) && !p.contains(s.last()) {
            p.push(s.last())
        } else {
            p
        }
    }
}

/// The chunks spawned from `s` are those of `s` that are not in `loaded`,
/// each once.
pub proof fn lemma_fresh_spawns(s: Seq<(i32, i32)>, loaded: Seq<(i32, i32)>)
    ensures
        fresh_spawns(s, loaded).no_duplicates(),
        fresh_spawns(s, loaded).len() <= s.len(),
        forall|c: (i32, i32)| #[trigger] fresh_spawns(s, loaded).contains(c) <==> (s.contains(c) && !loaded.contains(c)),
    decreases s.len(),
{
    if s.len() > 0 {
        let d = s.drop_last();
        let l = s.last();
        lemma_fresh_spawns(d, loaded);
        let p = fresh_spawns(d, loaded);
        let r = fresh_spawns(s, loaded);
        assert(s =~= d.push(l));
        assert forall|c: (i32, i32)| #[trigger] r.contains(c) <==> (s.contains(c) && !loaded.contains(c)) by {
            if s.contains(c) {
                let m = choose|m: int| 0 <= m < s.len() && s[m] == c;
                if m < d.len() {
                    assert(d[m] == c);
                }
            }
            if d.contains(c) {
                let m = choose|m: int| 0 <= m < d.len() && d[m] == c;
                assert(s[m] == c);
            }
            if r.contains(c) && !p.contains(c) {
                let m = choose|m: int| 0 <= m < r.len() && r[m] == c;
                assert(c == l);
                assert(s[s.len() - 1] == c);
            }
            if p.contains(c) {
                let m = choose|m: int| 0 <= m < p.len() && p[m] == c;
                assert(r[m] == c);
            }
            if c == l && !loaded.contains(c) && !p.contains(c) {
                assert(r[r.len() - 1] == c);
            }
        }
    }
}

/// Taking chunks that occur once each, the frame spawns exactly those that
/// are not loaded, in queue order.
pub proof fn lemma_fresh_spawns_of_distinct(s: Seq<(i32, i32)>, loaded: Seq<(i32, i32)>)
    requires
        s.no_duplicates(),
    ensures
        fresh_spawns(s, loaded) == s.filter(|c: (i32, i32)| !loaded.contains(c)),
    decreases s.len(),
{
    reveal(Seq::filter);
    if s.len() > 0 {
        let d = s.drop_last();
        assert(d.no_duplicates()) by {
            assert forall|a: int, b: int| 0 <= a < d.len() && 0 <= b < d.len() && a != b implies d[a] != d[b] by {
                assert(s[a] == d[a] && s[b] == d[b]);
            }
        }
        lemma_fresh_spawns_of_distinct(d, loaded);
        lemma_fresh_spawns(d, loaded);
        assert(!d.contains(s.last())) by {
            if d.contains(s.last()) {
                let m = choose|m: int| 0 <= m < d.len() && d[m] == s.last();
                assert(s[m] == s[s.len() - 1]);
            }
        }
    }
}

/// The arithmetic on `d` stays within `i32`, its absolute value included.
pub open spec fn diff_ok(d: int) -> bool {
    i32::MIN < d <= i32::MAX
}

pub open spec fn min_nat(a: nat, b: nat) -> nat {
    if a <= b { a } else { b }
}

impl Default for ChunkManager {
    /// An empty manager that spawns at most three chunks per frame.
    fn default() -> (m: Self)
        ensures
            m.loaded@ == Seq::<LoadedChunk>::empty(),
            m.last_cam_chunk == None::<(i32, i32)>,
            m.queue() == Seq::<(i32, i32)>::empty(),
            m.spawns_per_frame == 3,
            m.wf(),
    {
        let m = ChunkManager {
            loaded: Vec::new(),
            last_cam_chunk: None,
            spawn_queue: VecDeque::new(),
            spawns_per_frame: 3,
        };
        assert(m.loaded_keys() =~= Seq::<(i32, i32)>::empty());
        m
    }
}

impl ChunkManager {
    pub open spec fn loaded_keys(&self) -> Seq<(i32, i32)> {
        keys_of(self.loaded@)
    }

    pub open spec fn queue(&self) -> Seq<(i32, i32)> {
        self.spawn_queue@
    }

    /// No chunk is loaded twice.
    pub open spec fn wf(&self) -> bool {
        self.loaded_keys().no_duplicates()
    }

    /// No chunk is queued twice, and no queued chunk is loaded.
    pub open spec fn queue_apart(&self) -> bool {
        &&& self.queue().no_duplicates()
        &&& forall|c: (i32, i32)| #[trigger] self.queue().contains(c) ==> !self.loaded_keys().contains(c)
    }

    /// The camera has not left the chunk of the last re-evaluation.
    pub open spec fn in_dead_zone(&self, cam: (i32, i32)) -> bool {
        self.last_cam_chunk == Some(cam)
    }

    /// The coordinate arithmetic of a frame at `cam` stays within `i32`: the
    /// dead-zone test, the view test of every loaded chunk, the view square
    /// around `cam`, and the distance of every queued chunk to `cam`.
    pub open spec fn frame_arith_ok(&self, cam: (i32, i32)) -> bool {
        &&& match self.last_cam_chunk {
            Some(l) => diff_ok(l.0 - cam.0) && (abs(l.0 - cam.0) < 1 ==> diff_ok(l.1 - cam.1)),
            None => true,
        }
        &&& !self.in_dead_zone(cam) ==> {
            &&& forall|i: int|
                0 <= i < self.loaded@.len() ==> {
                    let c = #[trigger] self.loaded@[i].0;
                    diff_ok(c.0 - cam.0) && (abs(c.0 - cam.0) <= VIEW_DIST ==> diff_ok(c.1 - cam.1))
                }
            &&& i32::MIN + VIEW_DIST <= cam.0 <= i32::MAX - VIEW_DIST
            &&& i32::MIN + VIEW_DIST <= cam.1 <= i32::MAX - VIEW_DIST
            &&& forall|i: int| 0 <= i < self.queue().len() ==> sq_dist(#[trigger] self.queue()[i], cam) <= i32::MAX
        }
    }

    /// Loaded chunks that stay loaded through a frame at `cam`.
    pub open spec fn kept_entries(&self, cam: (i32, i32)) -> Seq<LoadedChunk> {
        if self.in_dead_zone(cam) {
            self.loaded@
        } else {
            self.loaded@.filter(entry_in_view(cam))
        }
    }

    /// Entity groups of the chunks unloaded by a frame at `cam`.
    pub open spec fn despawned(&self, cam: (i32, i32)) -> Seq<Vec<Entity>> {
        if self.in_dead_zone(cam) {
            Seq::empty()
        } else {
            entities_of(self.loaded@.filter(entry_out_of_view(cam)))
        }
    }

    /// The queue of a frame at `cam` once the newly visible chunks are
    /// appended and the whole is sorted, nearest first.
    pub open spec fn sorted_queue(&self, cam: (i32, i32)) -> Seq<(i32, i32)> {
        if self.in_dead_zone(cam) {
            self.queue()
        } else {
            sort_by_dist(
                self.queue() + view_coords(cam).filter(not_pending(keys_of(self.kept_entries(cam)), self.queue())),
                cam,
            )
        }
    }

    /// How many queued chunks a frame at `cam` takes off the queue.
    pub open spec fn drained(&self, cam: (i32, i32)) -> nat {
        min_nat(self.spawns_per_frame as nat, self.sorted_queue(cam).len())
    }

    /// The chunks a frame at `cam` spawns: those taken off the queue that are
    /// neither loaded already nor taken earlier in the same frame.
    pub open spec fn spawned(&self, cam: (i32, i32)) -> Seq<(i32, i32)> {
        fresh_spawns(self.sorted_queue(cam).take(self.drained(cam) as int), keys_of(self.kept_entries(cam)))
    }

    /// The queue left after a frame at `cam`.
    pub open spec fn queue_after(&self, cam: (i32, i32)) -> Seq<(i32, i32)> {
        self.sorted_queue(cam).skip(self.drained(cam) as int)
    }

    /// Whether `coord` is among the loaded chunks.
    pub fn is_loaded(&self, coord: (i32, i32)) -> (found: bool)
        ensures
            found == self.loaded_keys().contains(coord),
    {
        let mut i: usize = 0;
        while i < self.loaded.len()
            invariant
                0 <= i <= self.loaded.len(),
                forall|j: int| 0 <= j < i ==> self.loaded@[j].0 != coord,
            decreases self.loaded.len() - i,
        {
            let c = self.loaded[i].0;
            if c.0 == coord.0 && c.1 == coord.1 {
                assert(self.loaded_keys()[i as int] == coord);
                return true;
            }
            i = i + 1;
        }
        proof {
            if self.loaded_keys().contains(coord) {
                let j = choose|j: int| 0 <= j < self.loaded_keys().len() && self.loaded_keys()[j] == coord;
                assert(self.loaded@[j].0 == coord);
            }
        }
        false
    }

    /// Whether `coord` waits in the spawn queue.
    pub fn is_queued(&self, coord: (i32, i32)) -> (found: bool)
        ensures
            found == self.queue().contains(coord),
    {
        let mut i: usize = 0;
        while i < self.spawn_queue.len()
            invariant
                0 <= i <= self.spawn_queue.len(),
                forall|j: int| 0 <= j < i ==> self.queue()[j] != coord,
            decreases self.spawn_queue.len() - i,
        {
            let c = self.spawn_queue[i];
            if c.0 == coord.0 && c.1 == coord.1 {
                return true;
            }
            i = i + 1;
        }
        false
    }

    /// Removes the chunks out of view of `cam` from the loaded ones, keeping
    /// the order of the others, and hands back their entity groups.
    fn unload_out_of_view(&mut self, cam: (i32, i32)) -> (gone: Vec<Vec<Entity>>)
        requires
            old(self).wf(),
            forall|i: int|
                0 <= i < old(self).loaded@.len() ==> {
                    let c = #[trigger] old(self).loaded@[i].0;
                    diff_ok(c.0 - cam.0) && (abs(c.0 - cam.0) <= VIEW_DIST ==> diff_ok(c.1 - cam.1))
                },
        ensures
            final(self).wf(),
            final(self).loaded@ == old(self).loaded@.filter(entry_in_view(cam)),
            gone@ == entities_of(old(self).loaded@.filter(entry_out_of_view(cam))),
            final(self).spawn_queue@ == old(self).spawn_queue@,
            final(self).last_cam_chunk == old(self).last_cam_chunk,
            final(self).spawns_per_frame == old(self).spawns_per_frame,
    {
        let ghost orig = self.loaded@;
        let mut gone: Vec<Vec<Entity>> = Vec::new();
        let mut i: usize = 0;
        let mut j: usize = 0;
        let n = self.loaded.len();
        while j < n
            invariant
                n == orig.len(),
                0 <= j <= n,
                forall|m: int|
                    0 <= m < orig.len() ==> {
                        let c = #[trigger] orig[m].0;
                        diff_ok(c.0 - cam.0) && (abs(c.0 - cam.0) <= VIEW_DIST ==> diff_ok(c.1 - cam.1))
                    },
                i == orig.take(j as int).filter(entry_in_view(cam)).len(),
                self.loaded@ == orig.take(j as int).filter(entry_in_view(cam)) + orig.skip(j as int),
                gone@ == entities_of(orig.take(j as int).filter(entry_out_of_view(cam))),
                self.spawn_queue@ == old(self).spawn_queue@,
                self.last_cam_chunk == old(self).last_cam_chunk,
                self.spawns_per_frame == old(self).spawns_per_frame,
            decreases n - j,
        {
            let ghost kept = orig.take(j as int).filter(entry_in_view(cam));
            let ghost lost = orig.take(j as int).filter(entry_out_of_view(cam));
            proof {
                assert(orig.take(j + 1) =~= orig.take(j as int).push(orig[j as int]));
                orig.take(j as int).lemma_filter_push(orig[j as int], entry_in_view(cam));
                orig.take(j as int).lemma_filter_push(orig[j as int], entry_out_of_view(cam));
                assert(self.loaded@[i as int] == orig[j as int]);
            }
            let c = self.loaded[i].0;
            let ddx = c.0 - cam.0;
            let adx = if ddx < 0 { -ddx } else { ddx };
            let out = if adx > VIEW_DIST {
                true
            } else {
                let ddz = c.1 - cam.1;
                let adz = if ddz < 0 { -ddz } else { ddz };
                adz > VIEW_DIST
            };
            if out {
                let e = self.loaded.remove(i);
                gone.push(e.1);
                proof {
                    assert(self.loaded@ =~= kept + orig.skip(j + 1));
                    assert(entities_of(lost.push(e)) =~= entities_of(lost).push(e.1));
                }
            } else {
                proof {
                    assert(self.loaded@ =~= kept.push(orig[j as int]) + orig.skip(j + 1));
                }
                i = i + 1;
            }
            j = j + 1;
        }
        proof {
            assert(orig.take(n as int) =~= orig);
            assert(self.loaded@ =~= orig.filter(entry_in_view(cam)));
            lemma_keys_filter(orig, entry_in_view(cam));
        }
        gone
    }

    /// Appends to the queue, row by row, every chunk in view of `cam` that is
    /// neither loaded nor queued yet.
    fn enqueue_visible(&mut self, cam: (i32, i32))
        requires
            old(self).wf(),
            i32::MIN + VIEW_DIST <= cam.0 <= i32::MAX - VIEW_DIST,
            i32::MIN + VIEW_DIST <= cam.1 <= i32::MAX - VIEW_DIST,
        ensures
            final(self).wf(),
            final(self).queue() == old(self).queue() + view_coords(cam).filter(
                not_pending(old(self).loaded_keys(), old(self).queue()),
            ),
            final(self).loaded@ == old(self).loaded@,
            final(self).last_cam_chunk == old(self).last_cam_chunk,
            final(self).spawns_per_frame == old(self).spawns_per_frame,
    {
        let ghost q0 = self.queue();
        let ghost vc = view_coords(cam);
        let ghost np = not_pending(old(self).loaded_keys(), q0);
        proof {
            lemma_view_coords(cam);
        }
        let (cx, cz) = cam;
        let mut dz: i32 = -VIEW_DIST;
        while dz <= VIEW_DIST
            invariant
                -VIEW_DIST <= dz <= VIEW_DIST + 1,
                i32::MIN + VIEW_DIST <= cam.0 <= i32::MAX - VIEW_DIST,
                i32::MIN + VIEW_DIST <= cam.1 <= i32::MAX - VIEW_DIST,
                cam == (cx, cz),
                vc == view_coords(cam),
                vc.len() == 81,
                view_width() == 9,
                vc.no_duplicates(),
                forall|k: int| 0 <= k < vc.len() ==> in_view(#[trigger] vc[k], cam),
                q0 == old(self).queue(),
                np == not_pending(old(self).loaded_keys(), q0),
                self.queue() == q0 + vc.take((dz + VIEW_DIST) * 9).filter(np),
                self.loaded@ == old(self).loaded@,
                self.last_cam_chunk == old(self).last_cam_chunk,
                self.spawns_per_frame == old(self).spawns_per_frame,
            decreases VIEW_DIST + 1 - dz,
        {
            let mut dx: i32 = -VIEW_DIST;
            while dx <= VIEW_DIST
                invariant
                    -VIEW_DIST <= dz <= VIEW_DIST,
                    -VIEW_DIST <= dx <= VIEW_DIST + 1,
                    i32::MIN + VIEW_DIST <= cam.0 <= i32::MAX - VIEW_DIST,
                    i32::MIN + VIEW_DIST <= cam.1 <= i32::MAX - VIEW_DIST,
                    cam == (cx, cz),
                    vc == view_coords(cam),
                    vc.len() == 81,
                    view_width() == 9,
                    vc.no_duplicates(),
                    q0 == old(self).queue(),
                    np == not_pending(old(self).loaded_keys(), q0),
                    self.queue() == q0 + vc.take((dz + VIEW_DIST) * 9 + (dx + VIEW_DIST)).filter(np),
                    self.loaded@ == old(self).loaded@,
                    self.last_cam_chunk == old(self).last_cam_chunk,
                    self.spawns_per_frame == old(self).spawns_per_frame,
                decreases VIEW_DIST + 1 - dx,
            {
                let ghost k: int = (dz + VIEW_DIST) * 9 + (dx + VIEW_DIST);
                let ghost added = vc.take(k).filter(np);
                let chunk_coord = (cx + dx, cz + dz);
                proof {
                    vstd::arithmetic::div_mod::lemma_fundamental_div_mod_converse(
                        k,
                        9,
                        (dz + VIEW_DIST) as int,
                        (dx + VIEW_DIST) as int,
                    );
                    assert(vc[k] == chunk_coord);
                    assert(vc.take(k + 1) =~= vc.take(k).push(chunk_coord));
                    vc.take(k).lemma_filter_push(chunk_coord, np);
                    assert(!added.contains(chunk_coord)) by {
                        if added.contains(chunk_coord) {
                            let m = choose|m: int| 0 <= m < added.len() && added[m] == chunk_coord;
                            vc.take(k).lemma_filter_contains_rev(np, chunk_coord);
                            let m2 = choose|m2: int| 0 <= m2 < vc.take(k).len() && vc.take(k)[m2] == chunk_coord;
                            assert(vc[m2] == vc[k]);
                        }
                    }
                    assert(self.queue().contains(chunk_coord) <==> q0.contains(chunk_coord)) by {
                        if self.queue().contains(chunk_coord) {
                            let m = choose|m: int| 0 <= m < self.queue().len() && self.queue()[m] == chunk_coord;
                            if m >= q0.len() {
                                assert(added[m - q0.len()] == chunk_coord);
                            }
                        }
                    }
                }
                if !self.is_loaded(chunk_coord) && !self.is_queued(chunk_coord) {
                    self.spawn_queue.push_back(chunk_coord);
                    assert(self.queue() =~= q0 + vc.take(k + 1).filter(np));
                } else {
                    assert(self.queue() =~= q0 + vc.take(k + 1).filter(np));
                }
                dx = dx + 1;
            }
            assert((dz + VIEW_DIST) * 9 + (VIEW_DIST + 1 + VIEW_DIST) == (dz + 1 + VIEW_DIST) * 9);
            dz = dz + 1;
        }
        proof {
            assert(vc.take(vc.len() as int) =~= vc);
            assert(self.queue() =~= q0 + vc.filter(np));
        }
    }

    /// Sorts the queue by distance to `cam`, nearest first, keeping the
    /// relative order of chunks at equal distance.
    fn sort_spawn_queue(&mut self, cam: (i32, i32))
        requires
            old(self).wf(),
            forall|i: int| 0 <= i < old(self).queue().len() ==> sq_dist(#[trigger] old(self).queue()[i], cam) <= i32::MAX,
        ensures
            final(self).wf(),
            final(self).queue() == sort_by_dist(old(self).queue(), cam),
            final(self).loaded@ == old(self).loaded@,
            final(self).last_cam_chunk == old(self).last_cam_chunk,
            final(self).spawns_per_frame == old(self).spawns_per_frame,
    {
        let ghost q0 = self.queue();
        let mut items: Vec<(i32, i32)> = Vec::new();
        while self.spawn_queue.len() > 0
            invariant
                items@ + self.queue() == q0,
                self.loaded@ == old(self).loaded@,
                self.last_cam_chunk == old(self).last_cam_chunk,
                self.spawns_per_frame == old(self).spawns_per_frame,
            decreases self.queue().len(),
        {
            match self.spawn_queue.pop_front() {
                Some(c) => {
                    items.push(c);
                    assert(items@ + self.queue() =~= q0);
                },
                None => {},
            }
        }
        assert(items@ =~= q0);
        let sorted = sort_by_distance(&items, cam);
        proof {
            lemma_sort_by_dist(q0, cam);
        }
        let mut i: usize = 0;
        while i < sorted.len()
            invariant
                0 <= i <= sorted.len(),
                sorted@ == sort_by_dist(q0, cam),
                self.queue() == sorted@.take(i as int),
                self.loaded@ == old(self).loaded@,
                self.last_cam_chunk == old(self).last_cam_chunk,
                self.spawns_per_frame == old(self).spawns_per_frame,
            decreases sorted.len() - i,
        {
            self.spawn_queue.push_back(sorted[i]);
            assert(self.queue() =~= sorted@.take(i + 1));
            i = i + 1;
        }
        assert(self.queue() =~= sorted@);
    }

    /// Takes up to `spawns_per_frame` chunks off the front of the queue and
    /// returns, in order, those of them that are neither loaded already nor
    /// returned earlier by the same call.
    pub fn drain_spawn_queue(&mut self) -> (spawn: Vec<(i32, i32)>)
        ensures
            final(self).queue() == old(self).queue().skip(
                min_nat(old(self).spawns_per_frame as nat, old(self).queue().len()) as int,
            ),
            spawn@ == fresh_spawns(
                old(self).queue().take(min_nat(old(self).spawns_per_frame as nat, old(self).queue().len()) as int),
                old(self).loaded_keys(),
            ),
            final(self).loaded@ == old(self).loaded@,
            final(self).last_cam_chunk == old(self).last_cam_chunk,
            final(self).spawns_per_frame == old(self).spawns_per_frame,
    {
        let ghost q0 = self.queue();
        let budget = self.spawns_per_frame;
        let mut spawn: Vec<(i32, i32)> = Vec::new();
        let mut t: usize = 0;
        while t < budget && self.spawn_queue.len() > 0
            invariant
                0 <= t <= budget,
                t <= q0.len(),
                budget == self.spawns_per_frame,
                self.queue() == q0.skip(t as int),
                spawn@ == fresh_spawns(q0.take(t as int), old(self).loaded_keys()),
                q0 == old(self).queue(),
                self.loaded@ == old(self).loaded@,
                self.last_cam_chunk == old(self).last_cam_chunk,
                self.spawns_per_frame == old(self).spawns_per_frame,
            decreases budget - t,
        {
            let popped = self.spawn_queue.pop_front();
            if let Some(coord) = popped {
                proof {
                    assert(coord == q0[t as int]);
                    assert(q0.take(t + 1).drop_last() =~= q0.take(t as int));
                    assert(self.queue() =~= q0.skip(t + 1));
                }
                // May have been loaded already, by an earlier frame or by this one.
                if !self.is_loaded(coord) && !contains_coord(&spawn, coord) {
                    spawn.push(coord);
                }
            }
            t = t + 1;
        }
        proof {
            assert(t as nat == min_nat(budget as nat, q0.len()));
        }
        spawn
    }

    /// One frame of chunk streaming with the camera in chunk `cam`.
    ///
    /// Unless the camera is still in the chunk of the last re-evaluation, the
    /// frame records `cam`, unloads the chunks out of view, queues the chunks in
    /// view that are neither loaded nor queued, and sorts the queue so that the
    /// nearest chunks come first. In every case it then takes up to
    /// `spawns_per_frame` chunks off the queue. The engine despawns the returned
    /// entity groups, spawns the returned chunks and records each with
    /// [`ChunkManager::insert_loaded`].
    pub fn update_chunks(&mut self, cam: (i32, i32)) -> (plan: FramePlan)
        requires
            old(self).wf(),
            old(self).frame_arith_ok(cam),
        ensures
            final(self).wf(),
            final(self).last_cam_chunk == Some(cam),
            final(self).spawns_per_frame == old(self).spawns_per_frame,
            final(self).loaded@ == old(self).kept_entries(cam),
            final(self).queue() == old(self).queue_after(cam),
            plan.despawn@ == old(self).despawned(cam),
            plan.spawn@ == old(self).spawned(cam),
    {
        let (cx, cz) = cam;
        // Dead zone: only re-evaluate if the camera moved at least one chunk away.
        let mut dead = false;
        if let Some((lx, lz)) = self.last_cam_chunk {
            let ddx = lx - cx;
            let adx = if ddx < 0 { -ddx } else { ddx };
            if adx < 1 {
                let ddz = lz - cz;
                let adz = if ddz < 0 { -ddz } else { ddz };
                dead = adz < 1;
            }
        }
        assert(dead == old(self).in_dead_zone(cam));
        let mut despawn: Vec<Vec<Entity>> = Vec::new();
        if !dead {
            self.last_cam_chunk = Some(cam);
            despawn = self.unload_out_of_view(cam);
            let ghost kept = self.loaded@;
            self.enqueue_visible(cam);
            proof {
                lemma_view_coords(cam);
                let q0 = old(self).queue();
                let added = view_coords(cam).filter(not_pending(keys_of(kept), q0));
                assert forall|i: int| 0 <= i < self.queue().len() implies sq_dist(#[trigger] self.queue()[i], cam)
                    <= i32::MAX by {
                    if i >= q0.len() {
                        let c = added[i - q0.len()];
                        assert(self.queue()[i] == c);
                        view_coords(cam).lemma_filter_contains_rev(not_pending(keys_of(kept), q0), c);
                        let m = choose|m: int| 0 <= m < view_coords(cam).len() && view_coords(cam)[m] == c;
                        assert(in_view(view_coords(cam)[m], cam));
                        lemma_in_view_dist(c, cam);
                    } else {
                        assert(self.queue()[i] == q0[i]);
                    }
                }
            }
            self.sort_spawn_queue(cam);
        }
        let spawn = self.drain_spawn_queue();
        FramePlan { despawn, spawn }
    }

    /// Records the entities spawned for chunk `coord`, replacing any earlier
    /// record of that chunk.
    pub fn insert_loaded(&mut self, coord: (i32, i32), entities: Vec<Entity>)
        requires
            old(self).wf(),
        ensures
            final(self).wf(),
            final(self).loaded_keys() == if old(self).loaded_keys().contains(coord) {
                old(self).loaded_keys()
            } else {
                old(self).loaded_keys().push(coord)
            },
            !old(self).loaded_keys().contains(coord) ==> final(self).loaded@ == old(self).loaded@.push((coord, entities)),
            old(self).loaded_keys().contains(coord) ==> {
                &&& final(self).loaded@.len() == old(self).loaded@.len()
                &&& forall|i: int|
                    0 <= i < old(self).loaded@.len() ==> #[trigger] final(self).loaded@[i] == if old(self).loaded@[i].0 == coord {
                        (coord, entities)
                    } else {
                        old(self).loaded@[i]
                    }
            },
            final(self).queue() == old(self).queue(),
            final(self).last_cam_chunk == old(self).last_cam_chunk,
            final(self).spawns_per_frame == old(self).spawns_per_frame,
    {
        let ghost orig = self.loaded@;
        let mut i: usize = 0;
        while i < self.loaded.len()
            invariant
                0 <= i <= self.loaded.len(),
                self.loaded@ == orig,
                orig == old(self).loaded@,
                keys_of(orig).no_duplicates(),
                old(self).wf(),
                self.spawn_queue@ == old(self).spawn_queue@,
                self.last_cam_chunk == old(self).last_cam_chunk,
                self.spawns_per_frame == old(self).spawns_per_frame,
                forall|j: int| 0 <= j < i ==> orig[j].0 != coord,
            decreases self.loaded.len() - i,
        {
            let c = self.loaded[i].0;
            if c.0 == coord.0 && c.1 == coord.1 {
                proof {
                    assert(keys_of(orig)[i as int] == coord);
                    assert forall|j: int| 0 <= j < orig.len() && j != i implies orig[j].0 != coord by {
                        assert(keys_of(orig)[j] == orig[j].0);
                        assert(keys_of(orig)[j] != keys_of(orig)[i as int]);
                    }
                }
                self.loaded.set(i, (coord, entities));
                proof {
                    assert(keys_of(self.loaded@) =~= keys_of(orig));
                }
                return;
            }
            i = i + 1;
        }
        proof {
            assert(!keys_of(orig).contains(coord)) by {
                if keys_of(orig).contains(coord) {
                    let j = choose|j: int| 0 <= j < keys_of(orig).len() && keys_of(orig)[j] == coord;
                    assert(orig[j].0 == coord);
                }
            }
        }
        self.loaded.push((coord, entities));
        proof {
            assert(keys_of(self.loaded@) =~= keys_of(orig).push(coord));
        }
    }

    /// Whether the coordinate arithmetic of a frame at `cam` stays within
    /// `i32`, that is whether [`ChunkManager::update_chunks`] may be called.
    pub fn frame_in_range(&self, cam: (i32, i32)) -> (ok: bool)
        ensures
            ok == self.frame_arith_ok(cam),
    {
        let cx = cam.0 as i64;
        let cz = cam.1 as i64;
        let lo = i32::MIN as i64;
        let hi = i32::MAX as i64;
        let mut dead = false;
        if let Some((lx, lz)) = self.last_cam_chunk {
            let d0 = lx as i64 - cx;
            if !(lo < d0 && d0 <= hi) {
                return false;
            }
            if -1 < d0 && d0 < 1 {
                let d1 = lz as i64 - cz;
                if !(lo < d1 && d1 <= hi) {
                    return false;
                }
                dead = d1 == 0;
            }
        }
        assert(dead == self.in_dead_zone(cam));
        if dead {
            return true;
        }
        let mut i: usize = 0;
        while i < self.loaded.len()
            invariant
                0 <= i <= self.loaded.len(),
                cx == cam.0,
                cz == cam.1,
                lo == i32::MIN,
                hi == i32::MAX,
                !self.in_dead_zone(cam),
                forall|j: int|
                    0 <= j < i ==> {
                        let c = #[trigger] self.loaded@[j].0;
                        diff_ok(c.0 - cam.0) && (abs(c.0 - cam.0) <= VIEW_DIST ==> diff_ok(c.1 - cam.1))
                    },
            decreases self.loaded.len() - i,
        {
            let c = self.loaded[i].0;
            let d0 = c.0 as i64 - cx;
            if !(lo < d0 && d0 <= hi) {
                assert(!diff_ok(self.loaded@[i as int].0.0 - cam.0));
                return false;
            }
            if -(VIEW_DIST as i64) <= d0 && d0 <= VIEW_DIST as i64 {
                let d1 = c.1 as i64 - cz;
                if !(lo < d1 && d1 <= hi) {
                    assert(!diff_ok(self.loaded@[i as int].0.1 - cam.1));
                    return false;
                }
            }
            i = i + 1;
        }
        if !(lo + (VIEW_DIST as i64) <= cx && cx <= hi - (VIEW_DIST as i64) && lo + (VIEW_DIST as i64) <= cz && cz
            <= hi - (VIEW_DIST as i64)) {
            return false;
        }
        let mut k: usize = 0;
        while k < self.spawn_queue.len()
            invariant
                0 <= k <= self.spawn_queue.len(),
                cx == cam.0,
                cz == cam.1,
                !self.in_dead_zone(cam),
                forall|j: int| 0 <= j < k ==> sq_dist(#[trigger] self.queue()[j], cam) <= i32::MAX,
            decreases self.spawn_queue.len() - k,
        {
            let c = self.spawn_queue[k];
            let d0 = c.0 as i128 - cx as i128;
            let d1 = c.1 as i128 - cz as i128;
            assert(d0 * d0 <= 0x1_0000_0000_0000_0000 && d1 * d1 <= 0x1_0000_0000_0000_0000) by (nonlinear_arith)
                requires
                    -0x1_0000_0000 <= d0 <= 0x1_0000_0000,
                    -0x1_0000_0000 <= d1 <= 0x1_0000_0000,
            ;
            assert(d0 * d0 >= 0 && d1 * d1 >= 0) by (nonlinear_arith);
            if d0 * d0 + d1 * d1 > i32::MAX as i128 {
                assert(sq_dist(self.queue()[k as int], cam) > i32::MAX);
                return false;
            }
            k = k + 1;
        }
        true
    }
}

/// The view square around `cam` lists each chunk once, and only chunks in view.
pub proof fn lemma_view_coords(cam: (i32, i32))
    requires
        i32::MIN + VIEW_DIST <= cam.0 <= i32::MAX - VIEW_DIST,
        i32::MIN + VIEW_DIST <= cam.1 <= i32::MAX - VIEW_DIST,
    ensures
        view_coords(cam).len() == 81,
        view_width() == 9,
        view_coords(cam).no_duplicates(),
        forall|k: int| 0 <= k < view_coords(cam).len() ==> in_view(#[trigger] view_coords(cam)[k], cam),
        forall|c: (i32, i32)| in_view(c, cam) ==> #[trigger] view_coords(cam).contains(c),
{
    let vc = view_coords(cam);
    let w = view_width();
    assert(w == 9);
    assert(w * w == 81) by (nonlinear_arith)
        requires
            w == 9,
    ;
    assert forall|k: int| 0 <= k < vc.len() implies in_view(#[trigger] vc[k], cam) && vc[k].0 == cam.0 - VIEW_DIST + k % w
        && vc[k].1 == cam.1 - VIEW_DIST + k / w by {
        vstd::arithmetic::div_mod::lemma_fundamental_div_mod(k, w);
        assert(0 <= k % w < w);
        assert(0 <= k / w < w) by {
            vstd::arithmetic::div_mod::lemma_div_pos_is_pos(k, w);
            vstd::arithmetic::div_mod::lemma_div_is_ordered(k, w * w - 1, w);
            vstd::arithmetic::div_mod::lemma_div_by_multiple(w - 1, w);
            assert(w * w - 1 == 80);
            assert(80 == 8 * 9 + 8);
            vstd::arithmetic::div_mod::lemma_fundamental_div_mod_converse(w * w - 1, w, w - 1, w - 1);
        }
    }
    assert forall|a: int, b: int| 0 <= a < vc.len() && 0 <= b < vc.len() && a != b implies vc[a] != vc[b] by {
        vstd::arithmetic::div_mod::lemma_fundamental_div_mod(a, w);
        vstd::arithmetic::div_mod::lemma_fundamental_div_mod(b, w);
        assert(in_view(vc[a], cam) && in_view(vc[b], cam));
        if vc[a] == vc[b] {
            assert(a % w == b % w);
            assert(a / w == b / w);
        }
    }
    assert forall|c: (i32, i32)| in_view(c, cam) implies #[trigger] vc.contains(c) by {
        let lx = c.0 - (cam.0 - VIEW_DIST);
        let lz = c.1 - (cam.1 - VIEW_DIST);
        let k = lz * w + lx;
        assert(0 <= lx < 9 && 0 <= lz < 9);
        assert(0 <= k < 81);
        vstd::arithmetic::div_mod::lemma_fundamental_div_mod_converse(k, w, lz, lx);
        assert(k % w == lx && k / w == lz);
        assert(vc[k].0 == c.0 && vc[k].1 == c.1);
        assert(vc[k] == c);
    }
}

/// The view square is walked row by row: it starts at the corner `VIEW_DIST`
/// chunks below the camera chunk on both axes, each next chunk is one further
/// along x, and after the last chunk of a row comes the first of the next row.
pub proof fn lemma_view_coords_row_order(cam: (i32, i32))
    requires
        i32::MIN + VIEW_DIST <= cam.0 <= i32::MAX - VIEW_DIST,
        i32::MIN + VIEW_DIST <= cam.1 <= i32::MAX - VIEW_DIST,
    ensures
        view_coords(cam).len() == (2 * VIEW_DIST + 1) * (2 * VIEW_DIST + 1),
        view_coords(cam)[0].0 == cam.0 - VIEW_DIST,
        view_coords(cam)[0].1 == cam.1 - VIEW_DIST,
        forall|k: int|
            0 <= k < view_coords(cam).len() - 1 ==> {
                let a = #[trigger] view_coords(cam)[k];
                let b = view_coords(cam)[k + 1];
                if a.0 < cam.0 + VIEW_DIST {
                    b.0 == a.0 + 1 && b.1 == a.1
                } else {
                    b.0 == cam.0 - VIEW_DIST && b.1 == a.1 + 1
                }
            },
{
    let vc = view_coords(cam);
    lemma_view_coords(cam);
    assert(vc[0].0 == cam.0 - VIEW_DIST);
    assert forall|k: int|
        0 <= k < vc.len() - 1 implies {
            let a = #[trigger] vc[k];
            let b = vc[k + 1];
            if a.0 < cam.0 + VIEW_DIST {
                b.0 == a.0 + 1 && b.1 == a.1
            } else {
                b.0 == cam.0 - VIEW_DIST && b.1 == a.1 + 1
            }
        } by {
        vstd::arithmetic::div_mod::lemma_fundamental_div_mod(k, 9);
        let q = k / 9;
        let r = k % 9;
        assert(0 <= r < 9);
        assert(0 <= q < 9);
        if r < 8 {
            vstd::arithmetic::div_mod::lemma_fundamental_div_mod_converse(k + 1, 9, q, r + 1);
        } else {
            vstd::arithmetic::div_mod::lemma_fundamental_div_mod_converse(k + 1, 9, q + 1, 0);
        }
    }
}

/// A chunk in view of `cam` lies at squared distance at most twice the
/// squared view distance.
pub proof fn lemma_in_view_dist(c: (i32, i32), cam: (i32, i32))
    requires
        in_view(c, cam),
    ensures
        sq_dist(c, cam) <= 2 * VIEW_DIST * VIEW_DIST,
{
    let a = c.0 - cam.0;
    let b = c.1 - cam.1;
    assert(a * a <= 16 && b * b <= 16) by (nonlinear_arith)
        requires
            -4 <= a <= 4,
            -4 <= b <= 4,
    ;
}

/// Appending to a duplicate-free sequence the entries of another that pass a
/// test excluding the first's entries keeps it duplicate-free.
pub proof fn lemma_append_fresh_no_dups(q: Seq<(i32, i32)>, s: Seq<(i32, i32)>, p: spec_fn((i32, i32)) -> bool)
    requires
        q.no_duplicates(),
        s.no_duplicates(),
        forall|c: (i32, i32)| #[trigger] p(c) ==> !q.contains(c),
    ensures
        (q + s.filter(p)).no_duplicates(),
{
    let added = s.filter(p);
    let r = q + added;
    lemma_filter_no_dups(s, p);
    assert forall|a: int, b: int| 0 <= a < r.len() && 0 <= b < r.len() && a != b implies r[a] != r[b] by {
        if a >= q.len() && b < q.len() {
            assert(p(added[a - q.len()]));
            assert(q.contains(q[b]));
        } else if a < q.len() && b >= q.len() {
            assert(p(added[b - q.len()]));
            assert(q.contains(q[a]));
        } else if a >= q.len() && b >= q.len() {
            assert(added[a - q.len()] != added[b - q.len()]);
        }
    }
}

/// Filtering a duplicate-free sequence leaves it duplicate-free.
pub proof fn lemma_filter_no_dups(s: Seq<(i32, i32)>, p: spec_fn((i32, i32)) -> bool)
    requires
        s.no_duplicates(),
    ensures
        s.filter(p).no_duplicates(),
    decreases s.len(),
{
    reveal(Seq::filter);
    if s.len() > 0 {
        let d = s.drop_last();
        assert(d.no_duplicates()) by {
            assert forall|a: int, b: int| 0 <= a < d.len() && 0 <= b < d.len() && a != b implies d[a] != d[b] by {
                assert(s[a] == d[a] && s[b] == d[b]);
            }
        }
        lemma_filter_no_dups(d, p);
        if p(s.last()) {
            assert(!d.filter(p).contains(s.last())) by {
                if d.filter(p).contains(s.last()) {
                    d.lemma_filter_contains_rev(p, s.last());
                    let m = choose|m: int| 0 <= m < d.len() && d[m] == s.last();
                    assert(s[m] == s[s.len() - 1]);
                }
            }
        }
    }
}

/// Filtering loaded entries keeps their keys free of duplicates, and keeps
/// only keys that were there.
pub proof fn lemma_keys_filter(s: Seq<LoadedChunk>, p: spec_fn(LoadedChunk) -> bool)
    ensures
        keys_of(s).no_duplicates() ==> keys_of(s.filter(p)).no_duplicates(),
        forall|c: (i32, i32)| #[trigger] keys_of(s.filter(p)).contains(c) ==> keys_of(s).contains(c),
    decreases s.len(),
{
    reveal(Seq::filter);
    if s.len() > 0 {
        let d = s.drop_last();
        let l = s.last();
        lemma_keys_filter(d, p);
        assert(keys_of(s) =~= keys_of(d).push(l.0));
        let fd = d.filter(p);
        assert(keys_of(fd.push(l)) =~= keys_of(fd).push(l.0));
        assert forall|c: (i32, i32)| #[trigger] keys_of(d).contains(c) implies keys_of(s).contains(c) by {
            let m = choose|m: int| 0 <= m < keys_of(d).len() && keys_of(d)[m] == c;
            assert(keys_of(s)[m] == c);
        }
        if keys_of(s).no_duplicates() {
            assert(keys_of(d).no_duplicates()) by {
                assert forall|a: int, b: int| 0 <= a < keys_of(d).len() && 0 <= b < keys_of(d).len() && a != b implies keys_of(d)[a] != keys_of(d)[b] by {
                    assert(keys_of(s)[a] == keys_of(d)[a]);
                    assert(keys_of(s)[b] == keys_of(d)[b]);
                }
            }
            if p(l) {
                assert(!keys_of(fd).contains(l.0)) by {
                    if keys_of(fd).contains(l.0) {
                        assert(keys_of(d).contains(l.0));
                        let m = choose|m: int| 0 <= m < keys_of(d).len() && keys_of(d)[m] == l.0;
                        assert(keys_of(s)[m] == keys_of(s)[s.len() - 1]);
                    }
                }
            }
        }
    }
}

/// The kept entries and the out-of-view entries of a sequence of loaded
/// chunks together number as many as the sequence.
proof fn lemma_view_split_len(s: Seq<LoadedChunk>, cam: (i32, i32))
    ensures
        s.filter(entry_in_view(cam)).len() + s.filter(entry_out_of_view(cam)).len() == s.len(),
    decreases s.len(),
{
    reveal(Seq::filter);
    if s.len() > 0 {
        lemma_view_split_len(s.drop_last(), cam);
    }
}

/// A frame whose camera chunk differs from the one of the last re-evaluation
/// splits the loaded chunks by the view square around the camera chunk: it
/// keeps exactly those within `VIEW_DIST` chunks along both axes, hands back
/// for despawning the entities of every other one, and loses none.
pub proof fn lemma_frame_unloads_out_of_view(m: ChunkManager, cam: (i32, i32))
    requires
        m.last_cam_chunk != Some(cam),
    ensures
        forall|i: int|
            0 <= i < m.kept_entries(cam).len() ==> {
                let c = #[trigger] m.kept_entries(cam)[i].0;
                -VIEW_DIST <= c.0 - cam.0 <= VIEW_DIST && -VIEW_DIST <= c.1 - cam.1 <= VIEW_DIST
            },
        forall|i: int|
            0 <= i < m.loaded@.len() ==> {
                let c = #[trigger] m.loaded@[i].0;
                (-VIEW_DIST <= c.0 - cam.0 <= VIEW_DIST && -VIEW_DIST <= c.1 - cam.1 <= VIEW_DIST)
                    ==> m.kept_entries(cam).contains(m.loaded@[i])
            },
        forall|i: int|
            0 <= i < m.loaded@.len() ==> {
                let c = #[trigger] m.loaded@[i].0;
                !(-VIEW_DIST <= c.0 - cam.0 <= VIEW_DIST && -VIEW_DIST <= c.1 - cam.1 <= VIEW_DIST)
                    ==> m.despawned(cam).contains(m.loaded@[i].1)
            },
        m.kept_entries(cam).len() + m.despawned(cam).len() == m.loaded@.len(),
{
    let l = m.loaded@;
    let out = l.filter(entry_out_of_view(cam));
    lemma_view_split_len(l, cam);
    assert forall|i: int|
        0 <= i < m.kept_entries(cam).len() implies {
            let c = #[trigger] m.kept_entries(cam)[i].0;
            -VIEW_DIST <= c.0 - cam.0 <= VIEW_DIST && -VIEW_DIST <= c.1 - cam.1 <= VIEW_DIST
        } by {
        l.lemma_filter_pred(entry_in_view(cam), i);
    }
    assert forall|i: int|
        0 <= i < l.len() implies {
            let c = #[trigger] l[i].0;
            (-VIEW_DIST <= c.0 - cam.0 <= VIEW_DIST && -VIEW_DIST <= c.1 - cam.1 <= VIEW_DIST)
                ==> m.kept_entries(cam).contains(l[i])
        } by {
        let c = l[i].0;
        if -VIEW_DIST <= c.0 - cam.0 <= VIEW_DIST && -VIEW_DIST <= c.1 - cam.1 <= VIEW_DIST {
            l.lemma_filter_contains(entry_in_view(cam), i);
        }
    }
    assert forall|i: int|
        0 <= i < l.len() implies {
            let c = #[trigger] l[i].0;
            !(-VIEW_DIST <= c.0 - cam.0 <= VIEW_DIST && -VIEW_DIST <= c.1 - cam.1 <= VIEW_DIST)
                ==> m.despawned(cam).contains(l[i].1)
        } by {
        let c = l[i].0;
        if !(-VIEW_DIST <= c.0 - cam.0 <= VIEW_DIST && -VIEW_DIST <= c.1 - cam.1 <= VIEW_DIST) {
            l.lemma_filter_contains(entry_out_of_view(cam), i);
            let k = choose|k: int| 0 <= k < out.len() && out[k] == l[i];
            assert(entities_of(out)[k] == l[i].1);
        }
    }
}

/// After a frame whose camera chunk differs from the one of the last
/// re-evaluation, every chunk within `VIEW_DIST` chunks of the camera chunk
/// along both axes is loaded, spawned by this frame, or waiting in the queue.
pub proof fn lemma_frame_covers_view(m: ChunkManager, cam: (i32, i32), c: (i32, i32))
    requires
        m.wf(),
        m.frame_arith_ok(cam),
        m.last_cam_chunk != Some(cam),
        -VIEW_DIST <= c.0 - cam.0 <= VIEW_DIST,
        -VIEW_DIST <= c.1 - cam.1 <= VIEW_DIST,
    ensures
        keys_of(m.kept_entries(cam)).contains(c) || m.spawned(cam).contains(c) || m.queue_after(cam).contains(c),
{
    lemma_view_coords(cam);
    let kept = keys_of(m.kept_entries(cam));
    let q0 = m.queue();
    let vc = view_coords(cam);
    let np = not_pending(kept, q0);
    let added = vc.filter(np);
    let all = q0 + added;
    let sq = m.sorted_queue(cam);
    if !kept.contains(c) {
        assert(all.contains(c)) by {
            if q0.contains(c) {
                let k = choose|k: int| 0 <= k < q0.len() && q0[k] == c;
                assert(all[k] == c);
            } else {
                assert(vc.contains(c));
                let k = choose|k: int| 0 <= k < vc.len() && vc[k] == c;
                assert(np(vc[k]));
                vc.lemma_filter_contains(np, k);
                let j = choose|j: int| 0 <= j < added.len() && added[j] == c;
                assert(all[q0.len() + j] == c);
            }
        }
        lemma_sort_by_dist(all, cam);
        assert(sq.contains(c));
        let j = choose|j: int| 0 <= j < sq.len() && sq[j] == c;
        let d = m.drained(cam) as int;
        if j < d {
            assert(sq.take(d)[j] == c);
            lemma_fresh_spawns(sq.take(d), kept);
        } else {
            assert(sq.skip(d)[j - d] == c);
        }
    }
}

/// After a frame that re-evaluates, the queue is ordered nearest first, and
/// every chunk spawned by the frame is at least as near as every chunk left
/// waiting.
pub proof fn lemma_frame_nearest_first(m: ChunkManager, cam: (i32, i32))
    requires
        m.last_cam_chunk != Some(cam),
    ensures
        sorted_by_dist(m.queue_after(cam), cam),
        forall|i: int, j: int|
            0 <= i < m.spawned(cam).len() && 0 <= j < m.queue_after(cam).len() ==> sq_dist(
                #[trigger] m.spawned(cam)[i],
                cam,
            ) <= sq_dist(#[trigger] m.queue_after(cam)[j], cam),
{
    let kept = keys_of(m.kept_entries(cam));
    let q0 = m.queue();
    let all = q0 + view_coords(cam).filter(not_pending(kept, q0));
    let sq = m.sorted_queue(cam);
    let d = m.drained(cam) as int;
    lemma_sort_by_dist(all, cam);
    assert forall|i: int, j: int|
        0 <= i < m.spawned(cam).len() && 0 <= j < m.queue_after(cam).len() implies sq_dist(
            #[trigger] m.spawned(cam)[i],
            cam,
        ) <= sq_dist(#[trigger] m.queue_after(cam)[j], cam) by {
        let x = m.spawned(cam)[i];
        lemma_fresh_spawns(sq.take(d), kept);
        assert(m.spawned(cam).contains(x));
        let a = choose|a: int| 0 <= a < sq.take(d).len() && sq.take(d)[a] == x;
        assert(sq[a] == x);
        assert(sq[j + d] == m.queue_after(cam)[j]);
    }
}

/// A frame spawns at most `spawns_per_frame` chunks, each once, none of them
/// loaded already.
pub proof fn lemma_frame_spawns_fresh(m: ChunkManager, cam: (i32, i32))
    ensures
        m.spawned(cam).len() <= m.spawns_per_frame,
        m.spawned(cam).no_duplicates(),
        forall|i: int| 0 <= i < m.spawned(cam).len() ==> !keys_of(m.kept_entries(cam)).contains(#[trigger] m.spawned(cam)[i]),
{
    let kept = keys_of(m.kept_entries(cam));
    let sq = m.sorted_queue(cam);
    let d = m.drained(cam) as int;
    lemma_fresh_spawns(sq.take(d), kept);
    assert forall|i: int| 0 <= i < m.spawned(cam).len() implies !kept.contains(#[trigger] m.spawned(cam)[i]) by {
        assert(m.spawned(cam).contains(m.spawned(cam)[i]));
    }
}

/// A frame keeps the queue apart from the loaded chunks: if no chunk was
/// queued twice and no queued chunk was loaded, then after the frame, and
/// after the engine has recorded the chunks it spawned, no chunk is queued
/// twice and none of the queued chunks is among those kept loaded or spawned.
pub proof fn lemma_frame_keeps_queue_apart(m: ChunkManager, cam: (i32, i32))
    requires
        m.queue_apart(),
        m.frame_arith_ok(cam),
    ensures
        m.queue_after(cam).no_duplicates(),
        forall|c: (i32, i32)|
            #[trigger] m.queue_after(cam).contains(c) ==> !keys_of(m.kept_entries(cam)).contains(c)
                && !m.spawned(cam).contains(c),
{
    let kept = keys_of(m.kept_entries(cam));
    let q0 = m.queue();
    let sq = m.sorted_queue(cam);
    let d = m.drained(cam) as int;
    lemma_fresh_spawns(sq.take(d), kept);
    if !m.in_dead_zone(cam) {
        let vc = view_coords(cam);
        let np = not_pending(kept, q0);
        let all = q0 + vc.filter(np);
        lemma_view_coords(cam);
        lemma_append_fresh_no_dups(q0, vc, np);
        lemma_sort_by_dist(all, cam);
        lemma_keys_filter(m.loaded@, entry_in_view(cam));
        assert forall|c: (i32, i32)| #[trigger] sq.contains(c) implies !kept.contains(c) by {
            assert(all.contains(c));
            let k = choose|k: int| 0 <= k < all.len() && all[k] == c;
            if k < q0.len() {
                assert(q0[k] == c);
                assert(q0.contains(c));
            } else {
                assert(np(vc.filter(np)[k - q0.len()]));
            }
        }
    }
    assert forall|c: (i32, i32)| #[trigger] m.queue_after(cam).contains(c) implies !kept.contains(c) && !m.spawned(
        cam,
    ).contains(c) by {
        let j = choose|j: int| 0 <= j < m.queue_after(cam).len() && m.queue_after(cam)[j] == c;
        assert(sq[j + d] == c);
        assert(sq.contains(c));
        if m.spawned(cam).contains(c) {
            assert(sq.take(d).contains(c));
            let a = choose|a: int| 0 <= a < sq.take(d).len() && sq.take(d)[a] == c;
            assert(sq[a] == sq[j + d]);
        }
    }
    assert forall|a: int, b: int|
        0 <= a < m.queue_after(cam).len() && 0 <= b < m.queue_after(cam).len() && a != b implies m.queue_after(
        cam,
    )[a] != m.queue_after(cam)[b] by {
        assert(m.queue_after(cam)[a] == sq[a + d]);
        assert(m.queue_after(cam)[b] == sq[b + d]);
    }
}

/// A frame takes `spawns_per_frame` chunks off the sorted queue, or all of
/// them if fewer wait: what is left is the rest of the sorted queue, in order.
pub proof fn lemma_frame_budget(m: ChunkManager, cam: (i32, i32))
    ensures
        m.sorted_queue(cam).len() >= m.spawns_per_frame ==> m.queue_after(cam).len() == m.sorted_queue(cam).len()
            - m.spawns_per_frame,
        m.sorted_queue(cam).len() < m.spawns_per_frame ==> m.queue_after(cam).len() == 0,
        forall|j: int|
            0 <= j < m.queue_after(cam).len() ==> #[trigger] m.queue_after(cam)[j] == m.sorted_queue(cam)[j
                + m.sorted_queue(cam).len() - m.queue_after(cam).len()],
        m.spawned(cam).len() <= m.spawns_per_frame,
{
    let sq = m.sorted_queue(cam);
    let d = m.drained(cam) as int;
    lemma_fresh_spawns(sq.take(d), keys_of(m.kept_entries(cam)));
}

/// When a frame re-evaluates, chunks that were queued already come before the
/// newly queued ones at equal distance from the camera chunk.
pub proof fn lemma_frame_queued_before_new(m: ChunkManager, cam: (i32, i32))
    requires
        m.queue_apart(),
        m.frame_arith_ok(cam),
        m.last_cam_chunk != Some(cam),
    ensures
        forall|i: int, j: int|
            0 <= i < j < m.sorted_queue(cam).len() && sq_dist(m.sorted_queue(cam)[i], cam) == sq_dist(
                m.sorted_queue(cam)[j],
                cam,
            ) && m.queue().contains(#[trigger] m.sorted_queue(cam)[j]) ==> m.queue().contains(
                #[trigger] m.sorted_queue(cam)[i],
            ),
{
    let kept = keys_of(m.kept_entries(cam));
    let q0 = m.queue();
    let vc = view_coords(cam);
    let np = not_pending(kept, q0);
    let added = vc.filter(np);
    let all = q0 + added;
    let sq = m.sorted_queue(cam);
    lemma_view_coords(cam);
    lemma_append_fresh_no_dups(q0, vc, np);
    lemma_sort_by_dist(all, cam);
    lemma_sort_by_dist_stable(all, cam);
    assert forall|i: int, j: int|
        0 <= i < j < sq.len() && sq_dist(sq[i], cam) == sq_dist(sq[j], cam) && q0.contains(#[trigger] sq[j])
            implies q0.contains(#[trigger] sq[i]) by {
        assert(sq.contains(sq[i]) && sq.contains(sq[j]));
        assert(all.contains(sq[i]));
        let a = choose|a: int| 0 <= a < all.len() && all[a] == sq[i];
        let b0 = choose|b0: int| 0 <= b0 < q0.len() && q0[b0] == sq[j];
        assert(all[b0] == sq[j]);
        if a < q0.len() {
            assert(q0[a] == sq[i]);
        } else {
            assert(b0 < a);
            assert(sq[j] == all[b0] && sq[i] == all[a]);
        }
    }
}

/// A frame with the camera still in the chunk of the last re-evaluation
/// unloads nothing and leaves the queue's order alone: in particular a second
/// frame at the same camera chunk only spawns from the queue.
pub proof fn lemma_dead_zone_frame(m: ChunkManager, cam: (i32, i32))
    requires
        m.last_cam_chunk == Some(cam),
    ensures
        m.kept_entries(cam) == m.loaded@,
        m.despawned(cam) == Seq::<Vec<Entity>>::empty(),
        m.sorted_queue(cam) == m.queue(),
{
}

} // verus!
