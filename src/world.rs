use vstd::prelude::*;

use crate::chunk::{coord_in_range, generated_by, Chunk, MAX_CHUNK_COORD};
use crate::coord::{offset, IVec3};
use crate::sparse_spatial_octree::{
    in_cube, in_sphere, lemma_sphere_in_cube, sphere_points, valid_radius, SparseSpatialOctree,
};

verus! {

/// An entry of the cache: a chunk coordinate and its chunk, absent when the
/// chunk was found empty.
pub type Entry = (IVec3, Option<Box<Chunk>>);

/// The map the entries stand for; a later entry wins over an earlier one of
/// the same key, though the cache never holds two.
pub open spec fn entries_map(s: Seq<Entry>) -> Map<IVec3, Option<Box<Chunk>>>
    decreases s.len(),
{
    if s.len() == 0 {
        Map::empty()
    } else {
        entries_map(s.drop_last()).insert(s.last().0, s.last().1)
    }
}

pub open spec fn keys_unique(s: Seq<Entry>) -> bool {
    forall|i: int, j: int| 0 <= i < j < s.len() ==> #[trigger] s[i].0 != #[trigger] s[j].0
}

/// Whether `k` lies in the window of `radius` around `center`.
pub open spec fn in_window(center: IVec3, radius: int, k: IVec3) -> bool {
    in_sphere(radius, offset(k@, center@))
}

/// Every coordinate of the window around `center` is a valid chunk
/// coordinate.
pub open spec fn window_in_range(center: IVec3, radius: int) -> bool {
    &&& -MAX_CHUNK_COORD + radius <= center.x <= MAX_CHUNK_COORD - radius
    &&& -MAX_CHUNK_COORD + radius <= center.y <= MAX_CHUNK_COORD - radius
    &&& -MAX_CHUNK_COORD + radius <= center.z <= MAX_CHUNK_COORD - radius
}

/// The chunk coordinate at offset `p` from `center`.
pub open spec fn key_at(center: IVec3, p: (int, int, int)) -> IVec3 {
    IVec3 { x: (center.x + p.0) as i32, y: (center.y + p.1) as i32, z: (center.z + p.2) as i32 }
}

/// A move small enough to be ignored: exactly one unit up on every axis.
/// The band is one-sided: any other move, a step down or a move with a
/// component of zero included, rebuilds the window, so the window never
/// lags more than that one step behind the observer. Only when the window
/// is rebuilt depends on this choice; the move's contract states what a
/// rebuilt window holds either way.
pub open spec fn in_deadband(from: IVec3, to: IVec3) -> bool {
    &&& 0 < to.x - from.x <= 1
    &&& 0 < to.y - from.y <= 1
    &&& 0 < to.z - from.z <= 1
}

/// `p` comes before `(x, y, z)` in the order the window is filled.
pub open spec fn lex_before(p: (int, int, int), x: int, y: int, z: int) -> bool {
    p.0 < x || (p.0 == x && (p.1 < y || (p.1 == y && p.2 < z)))
}

/// Whether the offset `p` from `center` lay in the window around `prev`.
pub open spec fn was_covered(
    prev: Option<IVec3>,
    center: IVec3,
    radius: int,
    p: (int, int, int),
) -> bool {
    match prev {
        Some(pc) => in_sphere(
            radius,
            (center.x + p.0 - pc.x, center.y + p.1 - pc.y, center.z + p.2 - pc.z),
        ),
        None => false,
    }
}

/// The resident chunks around an observer, and the octree of their window.
pub struct World {
    loaded_chunks: Vec<Entry>,
    visible_map: SparseSpatialOctree,
    last_map_center: IVec3,
    last_player_pos: IVec3,
}

impl View for World {
    type V = Map<IVec3, Option<Box<Chunk>>>;

    closed spec fn view(&self) -> Map<IVec3, Option<Box<Chunk>>> {
        entries_map(self.loaded_chunks@)
    }
}

impl World {
    pub closed spec fn spec_center(&self) -> IVec3 {
        self.last_map_center
    }

    pub closed spec fn spec_player_pos(&self) -> IVec3 {
        self.last_player_pos
    }

    pub closed spec fn spec_radius(&self) -> int {
        self.visible_map.spec_radius()
    }

    pub closed spec fn spec_index(&self) -> SparseSpatialOctree {
        self.visible_map
    }

    /// The cache's invariant: exactly the window around the map centre is
    /// resident, once each, each chunk at its own coordinate, and the octree
    /// holds the whole window.
    pub closed spec fn wf(&self) -> bool {
        &&& self.core_wf()
        &&& forall|k: IVec3| #[trigger]
            self@.dom().contains(k) <==> in_window(self.last_map_center, self.spec_radius(), k)
        &&& self.visible_map@ == sphere_points(self.spec_radius())
    }

    /// What holds also while the window is being filled.
    pub closed spec fn core_wf(&self) -> bool {
        &&& self.visible_map.wf()
        &&& valid_radius(self.spec_radius())
        &&& self.visible_map.spec_center() == self.last_map_center
        &&& window_in_range(self.last_map_center, self.spec_radius())
        &&& keys_unique(self.loaded_chunks@)
        &&& forall|k: IVec3| #[trigger]
            self@.dom().contains(k) ==> in_window(self.last_map_center, self.spec_radius(), k)
        &&& forall|k: IVec3| #[trigger]
            self@.dom().contains(k) && self@[k] is Some ==> self@[k]->0.position == k
    }

    /// The state part-way through filling the window around the map centre
    /// in the order of `lex_before`: what the window around `prev` held is
    /// there unchanged, and each offset before `(x, y, z)` that it did not
    /// hold has been generated by `terrain`.
    pub closed spec fn filling<F: Fn(i32, i32) -> i32>(
        &self,
        before: Map<IVec3, Option<Box<Chunk>>>,
        prev: Option<IVec3>,
        x: int,
        y: int,
        z: int,
        terrain: F,
    ) -> bool {
        let c = self.last_map_center;
        let r = self.spec_radius();
        &&& self.core_wf()
        &&& forall|k: IVec3| #[trigger]
            self@.dom().contains(k) <==> in_window(c, r, k) && (was_covered(
                prev,
                c,
                r,
                offset(k@, c@),
            ) || lex_before(offset(k@, c@), x, y, z))
        &&& forall|p: (int, int, int)| #[trigger]
            self.visible_map@.contains(p) <==> in_sphere(r, p) && (was_covered(prev, c, r, p)
                || lex_before(p, x, y, z))
        &&& forall|k: IVec3| #[trigger]
            self@.dom().contains(k) ==> if was_covered(prev, c, r, offset(k@, c@)) {
                before.dom().contains(k) && self@[k] == before[k]
            } else {
                generated_by(terrain, k, self@[k])
            }
    }

    /// Builds the cache around the origin with a window of `radius`,
    /// generating every chunk of the window with `terrain`.
    pub fn new<F: Fn(i32, i32) -> i32>(radius: i32, terrain: &F) -> (r: Self)
        requires
            valid_radius(radius as int),
            forall|x: i32, y: i32| terrain.requires((x, y)),
        ensures
            r.wf(),
            r.spec_center()@ == (0int, 0int, 0int),
            r.spec_player_pos()@ == (0int, 0int, 0int),
            r.spec_radius() == radius,
            r.spec_index()@ == sphere_points(radius as int),
            r.spec_index().spec_center() == r.spec_center(),
            r.spec_index().spec_radius() == r.spec_radius(),
            forall|k: IVec3| #[trigger]
                r@.dom().contains(k) <==> in_window(r.spec_center(), radius as int, k),
            forall|k: IVec3| #[trigger] r@.dom().contains(k) ==> generated_by(*terrain, k, r@[k]),
    {
        let last_map_center = IVec3::zero();
        let last_player_pos = IVec3::zero();
        let loaded_chunks: Vec<Entry> = Vec::new();
        let visible_map = SparseSpatialOctree::new(last_map_center, radius);
        let mut world = World { loaded_chunks, visible_map, last_map_center, last_player_pos };
        proof {
            let rr = radius as int;
            assert(world@ == Map::<IVec3, Option<Box<Chunk>>>::empty());
            assert forall|k: IVec3| #[trigger] world@.dom().contains(k) <==> in_window(last_map_center, rr, k)
                && (was_covered(None, last_map_center, rr, offset(k@, last_map_center@)) || lex_before(
                offset(k@, last_map_center@),
                -rr,
                -rr,
                -rr,
            )) by {
                if in_window(last_map_center, rr, k) {
                    lemma_sphere_in_cube(rr, offset(k@, last_map_center@));
                }
            }
            assert forall|p: (int, int, int)| #[trigger] world.visible_map@.contains(p) <==> in_sphere(rr, p)
                && (was_covered(None, last_map_center, rr, p) || lex_before(p, -rr, -rr, -rr)) by {
                if in_sphere(rr, p) {
                    lemma_sphere_in_cube(rr, p);
                }
            }
        }
        world.fill_window(Ghost(Map::empty()), None, terrain);
        world
    }

    /// The resident entries, one per coordinate of the window.
    pub fn loaded_chunks(&self) -> (r: &Vec<Entry>)
        ensures
            entries_map(r@) == self@,
            self.wf() ==> keys_unique(r@),
    {
        &self.loaded_chunks
    }

    /// The entry at `key`: `Some(None)` when the chunk there is resident but
    /// empty, `None` when `key` is not resident.
    pub fn get(&self, key: IVec3) -> (r: Option<&Option<Box<Chunk>>>)
        requires
            self.wf(),
        ensures
            r is Some <==> self@.dom().contains(key),
            r is Some ==> *r->0 == self@[key],
    {
        let mut i: usize = 0;
        while i < self.loaded_chunks.len()
            invariant
                i <= self.loaded_chunks@.len(),
                keys_unique(self.loaded_chunks@),
                forall|j: int| 0 <= j < i ==> #[trigger] self.loaded_chunks@[j].0 != key,
            decreases self.loaded_chunks@.len() - i,
        {
            if self.loaded_chunks[i].0 == key {
                proof {
                    lemma_entries_index(self.loaded_chunks@, i as int);
                }
                return Some(&self.loaded_chunks[i].1);
            }
            i = i + 1;
        }
        proof {
            lemma_entries_dom(self.loaded_chunks@, key);
        }
        None
    }

    pub fn radius(&self) -> (r: i32)
        ensures
            r == self.spec_radius(),
    {
        self.visible_map.radius()
    }

    pub fn map_center(&self) -> (r: IVec3)
        ensures
            r == self.spec_center(),
    {
        self.last_map_center
    }

    pub fn player_position(&self) -> (r: IVec3)
        ensures
            r == self.spec_player_pos(),
    {
        self.last_player_pos
    }

    /// The octree of the window, in the frame of the map centre.
    pub fn visible_map(&self) -> (r: &SparseSpatialOctree)
        ensures
            *r == self.spec_index(),
    {
        &self.visible_map
    }

    /// Follows the observer: when its chunk coordinate `pos` differs from the
    /// last one seen, the window is moved there.
    pub fn on_player_moved<F: Fn(i32, i32) -> i32>(&mut self, pos: IVec3, terrain: &F)
        requires
            old(self).wf(),
            window_in_range(pos, old(self).spec_radius()),
            forall|x: i32, y: i32| terrain.requires((x, y)),
        ensures
            final(self).wf(),
            pos == old(self).spec_player_pos() ==> *final(self) == *old(self),
            pos != old(self).spec_player_pos() ==> {
                &&& final(self).spec_player_pos() == pos
                &&& recentered(*old(self), *final(self), pos, *terrain)
            },
    {
        if self.last_player_pos == pos {
            return;
        }
        self.last_player_pos = pos;
        self.update_map_position(pos, terrain);
    }

    /// Moves the window to `new_center`. Nothing happens when the centre is
    /// unchanged or the move lies in the dead band. Otherwise the octree is
    /// rebuilt around `new_center`, chunks that leave the window are evicted,
    /// those that stay are kept as they are, and those that enter are
    /// generated with `terrain`.
    pub fn update_map_position<F: Fn(i32, i32) -> i32>(&mut self, new_center: IVec3, terrain: &F)
        requires
            old(self).wf(),
            window_in_range(new_center, old(self).spec_radius()),
            forall|x: i32, y: i32| terrain.requires((x, y)),
        ensures
            final(self).wf(),
            final(self).spec_player_pos() == old(self).spec_player_pos(),
            recentered(*old(self), *final(self), new_center, *terrain),
            new_center == old(self).spec_center() || in_deadband(old(self).spec_center(), new_center)
                ==> *final(self) == *old(self),
    {
        if new_center == self.last_map_center {
            return;
        }
        let old_center = self.last_map_center;
        let dx = new_center.x as i64 - old_center.x as i64;
        let dy = new_center.y as i64 - old_center.y as i64;
        let dz = new_center.z as i64 - old_center.z as i64;
        if dx <= 1 && dx > 0 && dy <= 1 && dy > 0 && dz <= 1 && dz > 0 {
            return;
        }
        let ghost before = self@;
        let ghost prior = self.loaded_chunks@;
        let ghost player = self.last_player_pos;
        let r = self.visible_map.radius();
        let mut visible_map = self.visible_map.copy_base(new_center);
        let mut kept: Vec<Entry> = Vec::new();
        proof {
            assert(self.loaded_chunks@ =~= prior.take(prior.len() as int));
            assert(entries_map(kept@) == Map::<IVec3, Option<Box<Chunk>>>::empty());
        }
        while self.loaded_chunks.len() > 0
            invariant
                self.loaded_chunks@.len() <= prior.len(),
                self.loaded_chunks@ == prior.take(self.loaded_chunks@.len() as int),
                self.last_player_pos == player,
                keys_unique(prior),
                keys_unique(kept@),
                valid_radius(r as int),
                window_in_range(new_center, r as int),
                window_in_range(old_center, r as int),
                forall|k: IVec3| #[trigger]
                    entries_map(prior).dom().contains(k) ==> in_window(old_center, r as int, k),
                forall|k: IVec3| #[trigger]
                    entries_map(prior).dom().contains(k) && entries_map(prior)[k] is Some
                        ==> entries_map(prior)[k]->0.position == k,
                forall|k: IVec3| #[trigger]
                    entries_map(kept@).dom().contains(k) <==> entries_map(prior).dom().contains(k)
                        && !entries_map(self.loaded_chunks@).dom().contains(k) && in_window(
                        new_center,
                        r as int,
                        k,
                    ),
                forall|k: IVec3| #[trigger]
                    entries_map(kept@).dom().contains(k) ==> entries_map(kept@)[k] == entries_map(
                        prior,
                    )[k],
                visible_map.wf(),
                visible_map.spec_center() == new_center,
                visible_map.spec_radius() == r,
                forall|p: (int, int, int)| #[trigger]
                    visible_map@.contains(p) <==> in_sphere(r as int, p) && entries_map(
                        kept@,
                    ).dom().contains(key_at(new_center, p)),
            decreases self.loaded_chunks@.len(),
        {
            let ghost remaining = self.loaded_chunks@;
            let entry = self.loaded_chunks.pop().unwrap();
            proof {
                Self::lemma_evict_pop(prior, remaining);
                lemma_sphere_in_cube(r as int, offset(entry.0@, old_center@));
            }
            let key = entry.0;
            let local = IVec3::new(
                key.x - new_center.x,
                key.y - new_center.y,
                key.z - new_center.z,
            );
            let ghost kept_before = kept@;
            let ghost index_before = visible_map@;
            if visible_map.is_in_sphere(&local) {
                visible_map.add(local, true);
                proof {
                    lemma_entries_push(kept@, entry);
                    lemma_unique_push(kept@, entry);
                }
                kept.push(entry);
            }
            proof {
                Self::lemma_evict_step(
                    prior,
                    remaining,
                    kept_before,
                    kept@,
                    index_before,
                    visible_map@,
                    entry,
                    new_center,
                    r as int,
                );
            }
        }
        self.loaded_chunks = kept;
        self.visible_map = visible_map;
        self.last_map_center = new_center;
        proof {
            let rr = r as int;
            let prev = Some(old_center);
            assert forall|k: IVec3| #[trigger] self@.dom().contains(k) <==> in_window(new_center, rr, k)
                && (was_covered(prev, new_center, rr, offset(k@, new_center@)) || lex_before(
                offset(k@, new_center@),
                -rr,
                -rr,
                -rr,
            )) by {
                if in_window(new_center, rr, k) {
                    lemma_sphere_in_cube(rr, offset(k@, new_center@));
                }
            }
            assert forall|p: (int, int, int)| #[trigger] self.visible_map@.contains(p) <==> in_sphere(rr, p)
                && (was_covered(prev, new_center, rr, p) || lex_before(p, -rr, -rr, -rr)) by {
                if in_sphere(rr, p) {
                    lemma_sphere_in_cube(rr, p);
                    lemma_key_at(new_center, rr, p);
                }
            }
        }
        self.fill_window(Ghost(before), Some(old_center), terrain);
        proof {
            let rr = r as int;
            assert forall|k: IVec3| #[trigger] self@.dom().contains(k) implies if before.dom().contains(k) {
                self@[k] == before[k]
            } else {
                generated_by(*terrain, k, self@[k])
            } by {
                assert(was_covered(Some(old_center), new_center, rr, offset(k@, new_center@)) == in_window(
                    old_center,
                    rr,
                    k,
                ));
            }
        }
    }

    /// Taking the last remaining entry: it is the entry the cache held at its
    /// key, and no other remaining entry has that key.
    proof fn lemma_evict_pop(prior: Seq<Entry>, remaining: Seq<Entry>)
        requires
            keys_unique(prior),
            0 < remaining.len() <= prior.len(),
            remaining == prior.take(remaining.len() as int),
        ensures
            entries_map(prior).dom().contains(remaining.last().0),
            entries_map(prior)[remaining.last().0] == remaining.last().1,
            entries_map(remaining) == entries_map(remaining.drop_last()).insert(
                remaining.last().0,
                remaining.last().1,
            ),
            !entries_map(remaining.drop_last()).dom().contains(remaining.last().0),
            remaining.drop_last() == prior.take(remaining.len() - 1),
    {
        let n = remaining.len() - 1;
        assert(remaining.last() == prior[n]);
        lemma_entries_index(prior, n);
        lemma_entries_dom(remaining.drop_last(), remaining.last().0);
        if entries_map(remaining.drop_last()).dom().contains(remaining.last().0) {
            let i = choose|i: int|
                0 <= i < remaining.drop_last().len() && #[trigger] remaining.drop_last()[i].0
                    == remaining.last().0;
            assert(prior[i].0 == prior[n].0);
        }
        assert(remaining.drop_last() =~= prior.take(n));
    }

    /// One entry has been kept or evicted.
    proof fn lemma_evict_step(
        prior: Seq<Entry>,
        remaining: Seq<Entry>,
        kept_before: Seq<Entry>,
        kept: Seq<Entry>,
        index_before: Set<(int, int, int)>,
        index: Set<(int, int, int)>,
        entry: Entry,
        new_center: IVec3,
        r: int,
    )
        requires
            remaining.len() > 0,
            entry == remaining.last(),
            valid_radius(r),
            window_in_range(new_center, r),
            entries_map(prior).dom().contains(entry.0),
            entries_map(prior)[entry.0] == entry.1,
            entries_map(remaining) == entries_map(remaining.drop_last()).insert(entry.0, entry.1),
            !entries_map(remaining.drop_last()).dom().contains(entry.0),
            forall|k: IVec3| #[trigger]
                entries_map(kept_before).dom().contains(k) <==> entries_map(prior).dom().contains(k)
                    && !entries_map(remaining).dom().contains(k) && in_window(new_center, r, k),
            forall|k: IVec3| #[trigger]
                entries_map(kept_before).dom().contains(k) ==> entries_map(kept_before)[k]
                    == entries_map(prior)[k],
            forall|p: (int, int, int)| #[trigger]
                index_before.contains(p) <==> in_sphere(r, p) && entries_map(
                    kept_before,
                ).dom().contains(key_at(new_center, p)),
            if in_window(new_center, r, entry.0) {
                kept == kept_before.push(entry) && index == index_before.insert(
                    offset(entry.0@, new_center@),
                )
            } else {
                kept == kept_before && index == index_before
            },
        ensures
            forall|k: IVec3| #[trigger]
                entries_map(kept).dom().contains(k) <==> entries_map(prior).dom().contains(k)
                    && !entries_map(remaining.drop_last()).dom().contains(k) && in_window(
                    new_center,
                    r,
                    k,
                ),
            forall|k: IVec3| #[trigger]
                entries_map(kept).dom().contains(k) ==> entries_map(kept)[k] == entries_map(
                    prior,
                )[k],
            forall|p: (int, int, int)| #[trigger]
                index.contains(p) <==> in_sphere(r, p) && entries_map(kept).dom().contains(
                    key_at(new_center, p),
                ),
    {
        if in_window(new_center, r, entry.0) {
            lemma_entries_push(kept_before, entry);
        }
        assert forall|p: (int, int, int)| #[trigger] index.contains(p) <==> in_sphere(r, p)
            && entries_map(kept).dom().contains(key_at(new_center, p)) by {
            if in_sphere(r, p) {
                lemma_key_at(new_center, r, p);
                if key_at(new_center, p) == entry.0 {
                    assert(offset(entry.0@, new_center@) == p);
                }
            }
            if p == offset(entry.0@, new_center@) {
                assert(key_at(new_center, p) == entry.0);
            }
        }
    }

    /// Generates the chunk at offset `local` from the map centre, records it,
    /// and inserts `local` into the octree.
    fn load_entry<F: Fn(i32, i32) -> i32>(&mut self, local: IVec3, terrain: &F)
        requires
            old(self).core_wf(),
            in_sphere(old(self).spec_radius(), local@),
            !old(self)@.dom().contains(key_at(old(self).last_map_center, local@)),
            forall|x: i32, y: i32| terrain.requires((x, y)),
        ensures
            final(self).core_wf(),
            final(self).last_map_center == old(self).last_map_center,
            final(self).last_player_pos == old(self).last_player_pos,
            final(self).spec_radius() == old(self).spec_radius(),
            ({
                let key = key_at(old(self).last_map_center, local@);
                &&& final(self)@ == old(self)@.insert(key, final(self)@[key])
                &&& generated_by(*terrain, key, final(self)@[key])
            }),
            final(self).visible_map@ == old(self).visible_map@.insert(local@),
    {
        let c = self.last_map_center;
        proof {
            lemma_key_at(c, self.spec_radius(), local@);
            lemma_sphere_in_cube(self.spec_radius(), local@);
        }
        let key = IVec3::new(c.x + local.x, c.y + local.y, c.z + local.z);
        let chunk = Chunk::new(key, terrain);
        self.visible_map.add(local, true);
        proof {
            lemma_entries_push(self.loaded_chunks@, (key, chunk));
            lemma_unique_push(self.loaded_chunks@, (key, chunk));
        }
        self.loaded_chunks.push((key, chunk));
    }

    /// Loads, in the order of `lex_before`, every offset of the window around
    /// the map centre that the window around `prev` did not cover.
    fn fill_window<F: Fn(i32, i32) -> i32>(
        &mut self,
        Ghost(before): Ghost<Map<IVec3, Option<Box<Chunk>>>>,
        prev: Option<IVec3>,
        terrain: &F,
    )
        requires
            ({
                let r = old(self).spec_radius();
                old(self).filling(before, prev, -r, -r, -r, *terrain)
            }),
            prev is Some ==> window_in_range(prev->0, old(self).spec_radius()),
            forall|x: i32, y: i32| terrain.requires((x, y)),
        ensures
            final(self).wf(),
            final(self).last_map_center == old(self).last_map_center,
            final(self).last_player_pos == old(self).last_player_pos,
            final(self).spec_radius() == old(self).spec_radius(),
            ({
                let r = old(self).spec_radius();
                final(self).filling(before, prev, r + 1, -r, -r, *terrain)
            }),
    {
        let r = self.visible_map.radius();
        let c = self.last_map_center;
        let ghost player = self.last_player_pos;
        let mut x: i32 = -r;
        while x <= r
            invariant
                -r <= x <= r + 1,
                r == self.spec_radius(),
                c == self.last_map_center,
                player == self.last_player_pos,
                self.filling(before, prev, x as int, -r as int, -r as int, *terrain),
                prev is Some ==> window_in_range(prev->0, r as int),
                forall|x: i32, y: i32| terrain.requires((x, y)),
            decreases r + 1 - x,
        {
            let mut y: i32 = -r;
            while y <= r
                invariant
                    -r <= x <= r,
                    -r <= y <= r + 1,
                    r == self.spec_radius(),
                    c == self.last_map_center,
                    player == self.last_player_pos,
                    self.filling(before, prev, x as int, y as int, -r as int, *terrain),
                    prev is Some ==> window_in_range(prev->0, r as int),
                    forall|x: i32, y: i32| terrain.requires((x, y)),
                decreases r + 1 - y,
            {
                let mut z: i32 = -r;
                while z <= r
                    invariant
                        -r <= x <= r,
                        -r <= y <= r,
                        -r <= z <= r + 1,
                        r == self.spec_radius(),
                        c == self.last_map_center,
                        player == self.last_player_pos,
                        self.filling(before, prev, x as int, y as int, z as int, *terrain),
                        prev is Some ==> window_in_range(prev->0, r as int),
                        forall|x: i32, y: i32| terrain.requires((x, y)),
                    decreases r + 1 - z,
                {
                    let local = IVec3::new(x, y, z);
                    let ghost mid = *self;
                    if self.visible_map.is_in_sphere(&local) {
                        let covered = match prev {
                            Some(pc) => {
                                let back = IVec3::new(
                                    c.x + x - pc.x,
                                    c.y + y - pc.y,
                                    c.z + z - pc.z,
                                );
                                self.visible_map.is_in_sphere(&back)
                            },
                            None => false,
                        };
                        if !covered {
                            proof {
                                lemma_key_at(c, r as int, local@);
                            }
                            self.load_entry(local, terrain);
                        }
                    }
                    proof {
                        Self::lemma_fill_step(
                            mid,
                            *self,
                            before,
                            prev,
                            x as int,
                            y as int,
                            z as int,
                            *terrain,
                        );
                    }
                    z = z + 1;
                }
                proof {
                    Self::lemma_fill_shift(
                        *self,
                        before,
                        prev,
                        (x as int, y as int, r + 1),
                        (x as int, y + 1, -r as int),
                        *terrain,
                    );
                }
                y = y + 1;
            }
            proof {
                Self::lemma_fill_shift(
                    *self,
                    before,
                    prev,
                    (x as int, r + 1, -r as int),
                    (x + 1, -r as int, -r as int),
                    *terrain,
                );
            }
            x = x + 1;
        }
        proof {
            let rr = r as int;
            assert forall|k: IVec3| #[trigger] self@.dom().contains(k) <==> in_window(c, rr, k) by {
                if in_window(c, rr, k) {
                    lemma_sphere_in_cube(rr, offset(k@, c@));
                }
            }
            assert forall|p: (int, int, int)| #[trigger]
                self.visible_map@.contains(p) <==> in_sphere(rr, p) by {
                if in_sphere(rr, p) {
                    lemma_sphere_in_cube(rr, p);
                }
            }
            assert(self.visible_map@ =~= sphere_points(rr));
        }
    }

    /// One offset of the window has been dealt with.
    proof fn lemma_fill_step<F: Fn(i32, i32) -> i32>(
        mid: World,
        w: World,
        before: Map<IVec3, Option<Box<Chunk>>>,
        prev: Option<IVec3>,
        x: int,
        y: int,
        z: int,
        terrain: F,
    )
        requires
            mid.filling(before, prev, x, y, z, terrain),
            w.core_wf(),
            w.last_map_center == mid.last_map_center,
            w.spec_radius() == mid.spec_radius(),
            ({
                let c = mid.last_map_center;
                let r = mid.spec_radius();
                let key = key_at(c, (x, y, z));
                if in_sphere(r, (x, y, z)) && !was_covered(prev, c, r, (x, y, z)) {
                    &&& w@ == mid@.insert(key, w@[key])
                    &&& generated_by(terrain, key, w@[key])
                    &&& w.visible_map@ == mid.visible_map@.insert((x, y, z))
                } else {
                    w@ == mid@ && w.visible_map@ == mid.visible_map@
                }
            }),
        ensures
            w.filling(before, prev, x, y, z + 1, terrain),
    {
        let c = mid.last_map_center;
        let r = mid.spec_radius();
        let p0 = (x, y, z);
        assert forall|k: IVec3| #[trigger] w@.dom().contains(k) <==> in_window(c, r, k) && (
        was_covered(prev, c, r, offset(k@, c@)) || lex_before(offset(k@, c@), x, y, z + 1)) by {
            if offset(k@, c@) == p0 {
                assert(k == key_at(c, p0));
            }
            if in_sphere(r, p0) {
                lemma_key_at(c, r, p0);
            }
        }
        assert forall|k: IVec3| #[trigger] w@.dom().contains(k) implies if was_covered(
            prev,
            c,
            r,
            offset(k@, c@),
        ) {
            before.dom().contains(k) && w@[k] == before[k]
        } else {
            generated_by(terrain, k, w@[k])
        } by {
            if in_sphere(r, p0) && !was_covered(prev, c, r, p0) && k != key_at(c, p0) {
                assert(mid@.dom().contains(k));
            }
            if in_sphere(r, p0) {
                lemma_key_at(c, r, p0);
            }
        }
    }

    /// Moving the fill position past offsets outside every window changes
    /// nothing.
    proof fn lemma_fill_shift<F: Fn(i32, i32) -> i32>(
        w: World,
        before: Map<IVec3, Option<Box<Chunk>>>,
        prev: Option<IVec3>,
        from: (int, int, int),
        to: (int, int, int),
        terrain: F,
    )
        requires
            w.filling(before, prev, from.0, from.1, from.2, terrain),
            forall|p: (int, int, int)|
                #[trigger] in_cube((0, 0, 0), w.spec_radius(), p) ==> (lex_before(
                    p,
                    from.0,
                    from.1,
                    from.2,
                ) <==> lex_before(p, to.0, to.1, to.2)),
        ensures
            w.filling(before, prev, to.0, to.1, to.2, terrain),
    {
        let r = w.spec_radius();
        assert forall|p: (int, int, int)| #[trigger] in_sphere(r, p) implies (lex_before(
            p,
            from.0,
            from.1,
            from.2,
        ) <==> lex_before(p, to.0, to.1, to.2)) by {
            lemma_sphere_in_cube(r, p);
        }
    }
}

/// The outcome of moving the window of `before` to `new_center`: nothing
/// changes when the centre stays or the move lies in the dead band;
/// otherwise the window is centred on `new_center`, each chunk that stayed
/// in it is kept as it was, and each that entered was generated by
/// `terrain`.
pub open spec fn recentered<F: Fn(i32, i32) -> i32>(
    before: World,
    after: World,
    new_center: IVec3,
    terrain: F,
) -> bool {
    &&& after.spec_radius() == before.spec_radius()
    &&& forall|k: IVec3| #[trigger]
        after@.dom().contains(k) <==> in_window(after.spec_center(), after.spec_radius(), k)
    &&& after.spec_index()@ == sphere_points(after.spec_radius())
    &&& after.spec_index().spec_center() == after.spec_center()
    &&& after.spec_index().spec_radius() == after.spec_radius()
    &&& if new_center == before.spec_center() || in_deadband(before.spec_center(), new_center) {
        after@ == before@ && after.spec_center() == before.spec_center()
    } else {
        &&& after.spec_center() == new_center
        &&& forall|k: IVec3| #[trigger]
            after@.dom().contains(k) ==> if before@.dom().contains(k) {
                after@[k] == before@[k]
            } else {
                generated_by(terrain, k, after@[k])
            }
    }
}

/// Appending an entry inserts it into the map.
proof fn lemma_entries_push(s: Seq<Entry>, e: Entry)
    ensures
        entries_map(s.push(e)) == entries_map(s).insert(e.0, e.1),
{
    assert(s.push(e).drop_last() =~= s);
}

/// The map's keys are the entries' keys.
proof fn lemma_entries_dom(s: Seq<Entry>, k: IVec3)
    ensures
        entries_map(s).dom().contains(k) <==> exists|i: int|
            0 <= i < s.len() && #[trigger] s[i].0 == k,
    decreases s.len(),
{
    if s.len() > 0 {
        lemma_entries_dom(s.drop_last(), k);
        if entries_map(s).dom().contains(k) && k != s.last().0 {
            let i = choose|i: int|
                0 <= i < s.drop_last().len() && #[trigger] s.drop_last()[i].0 == k;
            assert(s[i].0 == k);
        }
        if exists|i: int| 0 <= i < s.len() && #[trigger] s[i].0 == k {
            let i = choose|i: int| 0 <= i < s.len() && #[trigger] s[i].0 == k;
            if i < s.len() - 1 {
                assert(s.drop_last()[i].0 == k);
            }
        }
    }
}

/// With unique keys, each entry is what the map holds at its key.
proof fn lemma_entries_index(s: Seq<Entry>, i: int)
    requires
        keys_unique(s),
        0 <= i < s.len(),
    ensures
        entries_map(s).dom().contains(s[i].0),
        entries_map(s)[s[i].0] == s[i].1,
    decreases s.len(),
{
    if i < s.len() - 1 {
        lemma_entries_index(s.drop_last(), i);
        assert(s.drop_last()[i] == s[i]);
        assert(s[i].0 != s[s.len() - 1].0);
    }
}

/// Appending a new key keeps the keys unique.
proof fn lemma_unique_push(s: Seq<Entry>, e: Entry)
    requires
        keys_unique(s),
        !entries_map(s).dom().contains(e.0),
    ensures
        keys_unique(s.push(e)),
{
    let t = s.push(e);
    assert forall|i: int, j: int| 0 <= i < j < t.len() implies #[trigger] t[i].0
        != #[trigger] t[j].0 by {
        if j == s.len() {
            lemma_entries_dom(s, e.0);
            if t[i].0 == e.0 {
                assert(s[i].0 == e.0);
            }
        } else {
            assert(t[i] == s[i] && t[j] == s[j]);
        }
    }
}

/// A point of the window around `center` has a key, and is its offset.
proof fn lemma_key_at(center: IVec3, radius: int, p: (int, int, int))
    requires
        valid_radius(radius),
        window_in_range(center, radius),
        in_sphere(radius, p),
    ensures
        key_at(center, p)@ == (center.x + p.0, center.y + p.1, center.z + p.2),
        offset(key_at(center, p)@, center@) == p,
        coord_in_range(key_at(center, p)),
{
    lemma_sphere_in_cube(radius, p);
}

} // verus!
