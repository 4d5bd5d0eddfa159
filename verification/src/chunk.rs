//! The chunk data model and the coordinate-keyed registry: chunks are
//! created once on first access, never destroyed, and mutated in place by
//! carving edits.

use vstd::prelude::*;

verus! {

use crate::math::{abs_i, Vec3i, V3};
use crate::sdf::{
    box_dist_of, box_ok, boxes_ok, chunk_field, sphere_ok, spheres_ok, BoxSDF, SphereSDF,
};
use crate::{CHUNK_COORD_LIMIT, CHUNK_SIZE, GROUND_CENTER_Y, GROUND_HALF_DEPTH, HALF_CHUNK};

/// An edit addressed a chunk coordinate that was never created.
#[derive(Clone, Copy, PartialEq, Eq, Structural, Debug)]
pub struct MissingChunkError;

/// One chunk's primitives: the boxes laid down at creation and the
/// spheres appended by later edits.
pub struct Chunk {
    pub box_sdfs: Vec<BoxSDF>,
    pub sphere_sdfs: Vec<SphereSDF>,
}

/// Mathematical content of a chunk: its primitive sequences.
pub struct ChunkV {
    pub boxes: Seq<BoxSDF>,
    pub spheres: Seq<SphereSDF>,
}

impl View for Chunk {
    type V = ChunkV;

    open spec fn view(&self) -> ChunkV {
        ChunkV { boxes: self.box_sdfs@, spheres: self.sphere_sdfs@ }
    }
}

/// A chunk the evaluators accept: at least one box (the ground slab),
/// every primitive in range.
pub open spec fn wf_chunk(c: ChunkV) -> bool {
    &&& c.boxes.len() >= 1
    &&& boxes_ok(c.boxes)
    &&& spheres_ok(c.spheres)
}

/// The ground slab of chunk `(cx, cz)`: flat terrain of fixed thickness,
/// tiled seamlessly since adjacent slabs share faces.
pub open spec fn ground_slab(cx: int, cz: int) -> BoxSDF {
    BoxSDF {
        center: Vec3i {
            x: (cx * CHUNK_SIZE) as i64,
            y: GROUND_CENTER_Y,
            z: (cz * CHUNK_SIZE) as i64,
        },
        half_extents: Vec3i { x: HALF_CHUNK, y: GROUND_HALF_DEPTH, z: HALF_CHUNK },
    }
}

/// Content of a freshly created chunk: its ground slab and no spheres.
pub open spec fn ground_chunk(cx: int, cz: int) -> ChunkV {
    ChunkV { boxes: seq![ground_slab(cx, cz)], spheres: Seq::empty() }
}

/// A chunk coordinate the registry accepts.
pub open spec fn coord_ok(cx: int, cz: int) -> bool {
    &&& -CHUNK_COORD_LIMIT <= cx <= CHUNK_COORD_LIMIT
    &&& -CHUNK_COORD_LIMIT <= cz <= CHUNK_COORD_LIMIT
}

pub proof fn lemma_ground_chunk_wf(cx: int, cz: int)
    requires
        coord_ok(cx, cz),
    ensures
        wf_chunk(ground_chunk(cx, cz)),
{
    assert(box_ok(ground_slab(cx, cz)));
    assert(forall|i: int|
        0 <= i < ground_chunk(cx, cz).boxes.len() ==> #[trigger] box_ok(
            ground_chunk(cx, cz).boxes[i],
        ));
}

/// Boundary consistency: at a point exactly on the shared face of two
/// adjacent chunks that hold only their ground slabs, either chunk's
/// field alone gives the same value.
pub proof fn lemma_boundary_consistency(p: V3, cx: int, cz: int, cx2: int, cz2: int)
    requires
        coord_ok(cx, cz),
        coord_ok(cx2, cz2),
        (cx2 == cx + 1 && cz2 == cz && p.x == cx * CHUNK_SIZE + HALF_CHUNK) || (cx2 == cx && cz2
            == cz + 1 && p.z == cz * CHUNK_SIZE + HALF_CHUNK),
    ensures
        chunk_field(p, ground_chunk(cx, cz).boxes, ground_chunk(cx, cz).spheres) == chunk_field(
            p,
            ground_chunk(cx2, cz2).boxes,
            ground_chunk(cx2, cz2).spheres,
        ),
{
    let g1 = ground_chunk(cx, cz);
    let g2 = ground_chunk(cx2, cz2);
    assert(g1.boxes.drop_first() =~= Seq::<BoxSDF>::empty());
    assert(g2.boxes.drop_first() =~= Seq::<BoxSDF>::empty());
    assert(chunk_field(p, g1.boxes, g1.spheres) == box_dist_of(p, ground_slab(cx, cz)));
    assert(chunk_field(p, g2.boxes, g2.spheres) == box_dist_of(p, ground_slab(cx2, cz2)));
    let c1 = ground_slab(cx, cz).center@;
    let c2 = ground_slab(cx2, cz2).center@;
    assert(c1.x == cx * CHUNK_SIZE && c1.z == cz * CHUNK_SIZE);
    assert(c2.x == cx2 * CHUNK_SIZE && c2.z == cz2 * CHUNK_SIZE);
    assert(abs_i(p.x - c1.x) == abs_i(p.x - c2.x) || abs_i(p.z - c1.z) == abs_i(p.z - c2.z));
    if cx2 == cx + 1 && cz2 == cz {
        assert(abs_i(p.x - c1.x) == HALF_CHUNK && abs_i(p.x - c2.x) == HALF_CHUNK);
    } else {
        assert(abs_i(p.z - c1.z) == HALF_CHUNK && abs_i(p.z - c2.z) == HALF_CHUNK);
    }
}

/// One registry slot: a coordinate and the chunk it owns.
pub struct ChunkEntry {
    pub cx: i32,
    pub cz: i32,
    pub chunk: Chunk,
}

pub open spec fn entry_key(e: ChunkEntry) -> (int, int) {
    (e.cx as int, e.cz as int)
}

/// The finite map a sequence of registry slots denotes.
pub open spec fn entries_map(s: Seq<ChunkEntry>) -> Map<(int, int), ChunkV>
    decreases s.len(),
{
    if s.len() == 0 {
        Map::empty()
    } else {
        entries_map(s.drop_last()).insert(entry_key(s.last()), s.last().chunk@)
    }
}

pub open spec fn keys_unique(s: Seq<ChunkEntry>) -> bool {
    forall|i: int, j: int|
        0 <= i < j < s.len() ==> #[trigger] entry_key(s[i]) != #[trigger] entry_key(s[j])
}

proof fn lemma_entries_map_entry(s: Seq<ChunkEntry>, i: int)
    requires
        0 <= i < s.len(),
    ensures
        entries_map(s).dom().contains(entry_key(s[i])),
        keys_unique(s) ==> entries_map(s)[entry_key(s[i])] == s[i].chunk@,
    decreases s.len(),
{
    if i == s.len() - 1 {
    } else {
        assert(s.drop_last()[i] == s[i]);
        if keys_unique(s) {
            assert forall|a: int, b: int| 0 <= a < b < s.drop_last().len() implies #[trigger]
                entry_key(s.drop_last()[a]) != #[trigger] entry_key(s.drop_last()[b]) by {
                assert(s.drop_last()[a] == s[a] && s.drop_last()[b] == s[b]);
            }
            assert(entry_key(s[i]) != entry_key(s.last()));
        }
        lemma_entries_map_entry(s.drop_last(), i);
    }
}

proof fn lemma_entries_map_absent(s: Seq<ChunkEntry>, k: (int, int))
    requires
        forall|i: int| 0 <= i < s.len() ==> #[trigger] entry_key(s[i]) != k,
    ensures
        !entries_map(s).dom().contains(k),
    decreases s.len(),
{
    if s.len() > 0 {
        assert forall|i: int| 0 <= i < s.drop_last().len() implies #[trigger] entry_key(
            s.drop_last()[i],
        ) != k by {
            assert(s.drop_last()[i] == s[i]);
        }
        assert(entry_key(s.last()) != k);
        lemma_entries_map_absent(s.drop_last(), k);
    }
}

proof fn lemma_entries_map_len(s: Seq<ChunkEntry>)
    requires
        keys_unique(s),
    ensures
        entries_map(s).dom().finite(),
        entries_map(s).dom().len() == s.len(),
    decreases s.len(),
{
    broadcast use vstd::set::group_set_axioms;

    if s.len() > 0 {
        assert forall|a: int, b: int| 0 <= a < b < s.drop_last().len() implies #[trigger]
            entry_key(s.drop_last()[a]) != #[trigger] entry_key(s.drop_last()[b]) by {
            assert(s.drop_last()[a] == s[a] && s.drop_last()[b] == s[b]);
        }
        lemma_entries_map_len(s.drop_last());
        assert forall|i: int| 0 <= i < s.drop_last().len() implies #[trigger] entry_key(
            s.drop_last()[i],
        ) != entry_key(s.last()) by {
            assert(s.drop_last()[i] == s[i]);
        }
        lemma_entries_map_absent(s.drop_last(), entry_key(s.last()));
        vstd::set::axiom_set_insert_len(entries_map(s.drop_last()).dom(), entry_key(s.last()));
        assert(entries_map(s).dom() =~= entries_map(s.drop_last()).dom().insert(
            entry_key(s.last()),
        ));
    }
}

proof fn lemma_entries_map_update(s: Seq<ChunkEntry>, i: int, e: ChunkEntry)
    requires
        keys_unique(s),
        0 <= i < s.len(),
        entry_key(e) == entry_key(s[i]),
    ensures
        entries_map(s.update(i, e)) == entries_map(s).insert(entry_key(e), e.chunk@),
    decreases s.len(),
{
    let t = s.update(i, e);
    if i == s.len() - 1 {
        assert(t.drop_last() =~= s.drop_last());
        assert(t.last() == e);
        assert(entries_map(t) =~= entries_map(s).insert(entry_key(e), e.chunk@));
    } else {
        assert forall|a: int, b: int| 0 <= a < b < s.drop_last().len() implies #[trigger]
            entry_key(s.drop_last()[a]) != #[trigger] entry_key(s.drop_last()[b]) by {
            assert(s.drop_last()[a] == s[a] && s.drop_last()[b] == s[b]);
        }
        assert(s.drop_last()[i] == s[i]);
        lemma_entries_map_update(s.drop_last(), i, e);
        assert(t.drop_last() =~= s.drop_last().update(i, e));
        assert(t.last() == s.last());
        assert(entry_key(e) != entry_key(s.last()));
        assert(entries_map(t) =~= entries_map(s).insert(entry_key(e), e.chunk@));
    }
}

/// The registry: every chunk the session has created, keyed by chunk
/// coordinate; entries are added, never removed.
pub struct ChunkMap {
    entries: Vec<ChunkEntry>,
}

impl View for ChunkMap {
    type V = Map<(int, int), ChunkV>;

    closed spec fn view(&self) -> Map<(int, int), ChunkV> {
        entries_map(self.entries@)
    }
}

impl ChunkMap {
    /// The registry's internal invariant; its view then satisfies
    /// `map_wf`.
    pub closed spec fn wf(self) -> bool {
        &&& keys_unique(self.entries@)
        &&& forall|i: int|
            0 <= i < self.entries@.len() ==> #[trigger] coord_ok(
                self.entries@[i].cx as int,
                self.entries@[i].cz as int,
            )
        &&& forall|i: int|
            0 <= i < self.entries@.len() ==> #[trigger] wf_chunk(self.entries@[i].chunk@)
    }

    /// An empty registry.
    pub fn new() -> (m: ChunkMap)
        ensures
            m.wf(),
            m@ == Map::<(int, int), ChunkV>::empty(),
    {
        ChunkMap { entries: Vec::new() }
    }

    /// Index of the slot holding `(cx, cz)`, if the chunk exists.
    fn find(&self, cx: i32, cz: i32) -> (r: Option<usize>)
        requires
            self.wf(),
        ensures
            match r {
                Some(i) => {
                    &&& i < self.entries@.len()
                    &&& entry_key(self.entries@[i as int]) == (cx as int, cz as int)
                    &&& self@.dom().contains((cx as int, cz as int))
                    &&& self@[(cx as int, cz as int)] == self.entries@[i as int].chunk@
                },
                None => !self@.dom().contains((cx as int, cz as int)),
            },
    {
        let mut i: usize = 0;
        while i < self.entries.len()
            invariant
                self.wf(),
                i <= self.entries@.len(),
                forall|j: int|
                    0 <= j < i ==> #[trigger] entry_key(self.entries@[j]) != (
                        cx as int,
                        cz as int,
                    ),
            decreases self.entries@.len() - i,
        {
            if self.entries[i].cx == cx && self.entries[i].cz == cz {
                proof {
                    lemma_entries_map_entry(self.entries@, i as int);
                }
                return Some(i);
            }
            i = i + 1;
        }
        proof {
            lemma_entries_map_absent(self.entries@, (cx as int, cz as int));
        }
        None
    }

    /// Does the registry hold a chunk at `(cx, cz)`?
    pub fn contains(&self, cx: i32, cz: i32) -> (r: bool)
        requires
            self.wf(),
        ensures
            r == self@.dom().contains((cx as int, cz as int)),
    {
        self.find(cx, cz).is_some()
    }

    /// The chunk at `(cx, cz)`, if it exists.
    pub fn get_chunk(&self, cx: i32, cz: i32) -> (r: Option<&Chunk>)
        requires
            self.wf(),
        ensures
            match r {
                Some(c) => {
                    &&& self@.dom().contains((cx as int, cz as int))
                    &&& c@ == self@[(cx as int, cz as int)]
                    &&& wf_chunk(c@)
                },
                None => !self@.dom().contains((cx as int, cz as int)),
            },
    {
        match self.find(cx, cz) {
            Some(i) => Some(&self.entries[i].chunk),
            None => None,
        }
    }

    /// How many chunks have been created so far.
    pub fn num_chunks(&self) -> (n: usize)
        requires
            self.wf(),
        ensures
            n == self@.dom().len(),
    {
        proof {
            lemma_entries_map_len(self.entries@);
        }
        self.entries.len()
    }

    /// Returns the existing chunk's presence, or synthesizes the ground
    /// chunk at `(cx, cz)`; `created` reports which happened.
    pub fn get_or_create(&mut self, cx: i32, cz: i32) -> (created: bool)
        requires
            old(self).wf(),
            coord_ok(cx as int, cz as int),
        ensures
            final(self).wf(),
            created == !old(self)@.dom().contains((cx as int, cz as int)),
            final(self)@ == if old(self)@.dom().contains((cx as int, cz as int)) {
                old(self)@
            } else {
                old(self)@.insert((cx as int, cz as int), ground_chunk(cx as int, cz as int))
            },
            final(self)@.dom().contains((cx as int, cz as int)),
            old(self)@.dom().subset_of(final(self)@.dom()),
    {
        match self.find(cx, cz) {
            Some(_) => false,
            None => {
                let mut box_sdfs: Vec<BoxSDF> = Vec::new();
                box_sdfs.push(
                    BoxSDF {
                        center: Vec3i::new(
                            (cx as i64) * CHUNK_SIZE,
                            GROUND_CENTER_Y,
                            (cz as i64) * CHUNK_SIZE,
                        ),
                        half_extents: Vec3i::new(HALF_CHUNK, GROUND_HALF_DEPTH, HALF_CHUNK),
                    },
                );
                let chunk = Chunk { box_sdfs, sphere_sdfs: Vec::new() };
                proof {
                    assert(chunk@.boxes =~= ground_chunk(cx as int, cz as int).boxes);
                    assert(chunk@.spheres =~= ground_chunk(cx as int, cz as int).spheres);
                    lemma_ground_chunk_wf(cx as int, cz as int);
                }
                let ghost old_entries = self.entries@;
                self.entries.push(ChunkEntry { cx, cz, chunk });
                proof {
                    assert(self.entries@.drop_last() =~= old_entries);
                    assert forall|j: int| 0 <= j < old_entries.len() implies #[trigger] entry_key(
                        old_entries[j],
                    ) != (cx as int, cz as int) by {
                        if entry_key(old_entries[j]) == (cx as int, cz as int) {
                            lemma_entries_map_entry(old_entries, j);
                        }
                    }
                    assert forall|a: int, b: int|
                        0 <= a < b < self.entries@.len() implies #[trigger] entry_key(
                        self.entries@[a],
                    ) != #[trigger] entry_key(self.entries@[b]) by {
                        if b < self.entries@.len() - 1 {
                            assert(self.entries@[a] == old_entries[a]);
                            assert(self.entries@[b] == old_entries[b]);
                        } else {
                            assert(self.entries@[a] == old_entries[a]);
                        }
                    }
                }
                true
            },
        }
    }

    /// Appends a sphere edit to the chunk at `(cx, cz)`; fails if that
    /// coordinate was never created, leaving the registry unchanged.
    pub fn apply_edit(&mut self, cx: i32, cz: i32, sphere: SphereSDF) -> (r: Result<
        (),
        MissingChunkError,
    >)
        requires
            old(self).wf(),
            sphere_ok(sphere),
        ensures
            final(self).wf(),
            old(self)@.dom() == final(self)@.dom(),
            match r {
                Ok(()) => {
                    &&& old(self)@.dom().contains((cx as int, cz as int))
                    &&& final(self)@ == old(self)@.insert(
                        (cx as int, cz as int),
                        ChunkV {
                            boxes: old(self)@[(cx as int, cz as int)].boxes,
                            spheres: old(self)@[(cx as int, cz as int)].spheres.push(sphere),
                        },
                    )
                },
                Err(_) => {
                    &&& !old(self)@.dom().contains((cx as int, cz as int))
                    &&& final(self)@ == old(self)@
                },
            },
    {
        match self.find(cx, cz) {
            Some(i) => {
                let ghost old_entries = self.entries@;
                let ghost old_entry = self.entries@[i as int];
                self.entries[i].chunk.sphere_sdfs.push(sphere);
                proof {
                    let e = self.entries@[i as int];
                    assert(self.entries@ =~= old_entries.update(i as int, e));
                    lemma_entries_map_update(old_entries, i as int, e);
                    assert forall|a: int, b: int|
                        0 <= a < b < self.entries@.len() implies #[trigger] entry_key(
                        self.entries@[a],
                    ) != #[trigger] entry_key(self.entries@[b]) by {
                        assert(entry_key(self.entries@[a]) == entry_key(old_entries[a]));
                        assert(entry_key(self.entries@[b]) == entry_key(old_entries[b]));
                    }
                    assert(final(self)@.dom() =~= old(self)@.dom());
                    assert forall|j: int|
                        0 <= j < self.entries@.len() implies #[trigger] wf_chunk(
                        self.entries@[j].chunk@,
                    ) && coord_ok(self.entries@[j].cx as int, self.entries@[j].cz as int) by {
                        if j != i {
                            assert(self.entries@[j] == old_entries[j]);
                        }
                        assert(wf_chunk(old_entries[j].chunk@));
                        assert(spheres_ok(old_entries[j].chunk@.spheres));
                        if j == i {
                            assert forall|t: int|
                                0 <= t < self.entries@[j].chunk@.spheres.len() implies #[trigger]
                                sphere_ok(self.entries@[j].chunk@.spheres[t]) by {
                                if t < old_entry.chunk@.spheres.len() {
                                    assert(sphere_ok(old_entry.chunk@.spheres[t]));
                                }
                            }
                        }
                    }
                }
                Ok(())
            },
            None => Err(MissingChunkError),
        }
    }
}

} // verus!
