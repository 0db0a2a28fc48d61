//! Bookkeeping for tile sets and the video memory slots their tiles occupy:
//! an arena of tile sets with generation tags, reference-counted tile slots
//! with a free list, and the background palette.
//!
//! The manager decides where things go; copying tile data into video memory
//! and the palette into its registers is up to the caller.
use vstd::prelude::*;

verus! {

/// The value a free tile slot holds when no free slot follows it.
const END_OF_FREE_LIST_MARKER: u16 = 65535;

/// Puts `x` at position `i` of `v` and hands back what was there.
fn replace_at<T>(v: &mut Vec<T>, i: usize, x: T) -> (r: T)
    requires
        i < old(v)@.len(),
    ensures
        r == old(v)@[i as int],
        final(v)@ == old(v)@.update(i as int, x),
{
    let mut x = x;
    core::mem::swap(&mut v[i], &mut x);
    x
}

/// How the pixels of a tile are laid out.
#[derive(Clone, Copy, Debug)]
pub enum TileFormat {
    /// Four bits per pixel.
    FourBpp,
}

impl TileFormat {
    /// The size of a tile in bytes.
    fn tile_size(self) -> (r: usize)
        ensures
            r == 32,
    {
        match self {
            TileFormat::FourBpp => 8 * 8 / 2,
        }
    }
}

/// A set of tiles: their pixel data, as words, and its format.
pub struct TileSet<'a> {
    tiles: &'a [u32],
    format: TileFormat,
}

impl<'a> TileSet<'a> {
    /// The pixel data, as words.
    pub closed spec fn words(&self) -> Seq<u32> {
        self.tiles@
    }

    /// How many tiles the set is taken to hold.
    pub open spec fn spec_num_tiles(&self) -> nat {
        (self.words().len() / 32 * 4) as nat
    }

    /// A tile set over `tiles`, laid out as `format` says.
    pub fn new(tiles: &'a [u32], format: TileFormat) -> (r: Self)
        ensures
            r.words() == tiles@,
    {
        Self { tiles, format }
    }

    fn num_tiles(&self) -> (r: usize)
        ensures
            r == self.spec_num_tiles(),
    {
        let len = self.tiles.len();
        proof {
            assert(len as int / 32 * 4 <= len) by (nonlinear_arith)
                requires
                    len >= 0,
            ;
        }
        len / self.format.tile_size() * 4
    }
}

/// A handle on a tile set held by a [`VRamManager`]: its slot and the
/// generation it was added in.
#[derive(Clone, Copy, PartialEq, Eq, Structural)]
pub struct TileSetReference {
    id: u16,
    generation: u16,
}

impl TileSetReference {
    /// The arena slot the handle names.
    pub closed spec fn slot(&self) -> u16 {
        self.id
    }

    /// The generation the handle was made in.
    pub closed spec fn made_in(&self) -> u16 {
        self.generation
    }

    fn new(id: u16, generation: u16) -> (r: Self)
        ensures
            r.id == id,
            r.generation == generation,
    {
        Self { id, generation }
    }
}

/// A slot of video memory that holds a tile.
#[derive(Debug)]
pub struct TileIndex(u16);

impl TileIndex {
    /// The slot number.
    pub closed spec fn slot(&self) -> u16 {
        self.0
    }

    pub(crate) fn new(index: u16) -> (r: Self)
        ensures
            r.slot() == index,
    {
        Self(index)
    }

    /// The slot number.
    pub fn index(&self) -> (r: u16)
        ensures
            r == self.slot(),
    {
        self.0
    }
}

/// A tile of a tile set: the set's slot and the tile's number in it.
#[derive(Debug, Clone, Copy, PartialEq, Eq, Hash, Structural)]
struct TileReference(u16, u16);

/// A video memory slot: in use by a tile, with a count of its users, or
/// free, with the next free slot.
enum VRamState {
    ReferenceCounted(u16, TileReference),
    Free(u16),
}

spec fn rc_count(s: VRamState) -> int {
    match s {
        VRamState::ReferenceCounted(c, _) => c as int,
        VRamState::Free(_) => 0,
    }
}

spec fn rc_tile(s: VRamState) -> TileReference {
    match s {
        VRamState::ReferenceCounted(_, t) => t,
        VRamState::Free(_) => TileReference(0, 0),
    }
}

spec fn free_next(s: VRamState) -> u16 {
    match s {
        VRamState::Free(n) => n,
        VRamState::ReferenceCounted(..) => 0,
    }
}

impl VRamState {
    fn increase_reference(&mut self)
        requires
            *old(self) is ReferenceCounted,
            rc_count(*old(self)) < 65535,
        ensures
            *final(self) == VRamState::ReferenceCounted(
                (rc_count(*old(self)) + 1) as u16,
                rc_tile(*old(self)),
            ),
    {
        match self {
            VRamState::ReferenceCounted(count, _) => {
                *count = *count + 1;
            },
            VRamState::Free(_) => {},
        }
    }

    fn decrease_reference(&mut self) -> (r: (u16, TileReference))
        requires
            *old(self) is ReferenceCounted,
            rc_count(*old(self)) >= 1,
        ensures
            r == ((rc_count(*old(self)) - 1) as u16, rc_tile(*old(self))),
            *final(self) == VRamState::ReferenceCounted(r.0, r.1),
    {
        match self {
            VRamState::ReferenceCounted(count, tile_ref) => {
                *count = *count - 1;
                (*count, *tile_ref)
            },
            VRamState::Free(_) => vstd::pervasive::unreached(),
        }
    }
}

/// A slot of the tile set arena.
enum ArenaStorageItem<T> {
    EndOfFreeList,
    NextFree(usize),
    Data(T, u16),
}

spec fn set_generation<T>(a: ArenaStorageItem<T>) -> u16 {
    match a {
        ArenaStorageItem::Data(_, g) => g,
        _ => 0,
    }
}

/// Sixteen colours.
pub struct Palette16 {
    /// The colours, in the hardware's 15-bit format.
    pub colours: [u16; 16],
}

/// Keeps track of the tile sets in use and of the video memory slots their
/// tiles occupy, and holds the background palette.
pub struct VRamManager<'a> {
    tilesets: Vec<ArenaStorageItem<TileSet<'a>>>,
    generation: u16,
    free_pointer: Option<usize>,
    tile_set_to_vram: Vec<Vec<(u16, u16)>>,
    references: Vec<VRamState>,
    vram_free_pointer: Option<usize>,
    background_palette: Vec<u16>,
    free_sets: Ghost<Seq<usize>>,
    free_tiles: Ghost<Seq<usize>>,
}

impl<'a> VRamManager<'a> {
    spec fn entry(&self, id: int, t: int) -> (u16, u16) {
        self.tile_set_to_vram@[id]@[t]
    }

    spec fn entry_ok(&self, id: int, t: int) -> bool {
        let e = self.entry(id, t);
        let sets = self.tilesets@;
        let refs = self.references@;
        (e.0 != 0 || e.1 != 0) ==> {
            &&& t < 65536
            &&& sets[id] is Data
            &&& e.1 == set_generation(sets[id])
            &&& 0 < e.0 < refs.len()
            &&& refs[e.0 as int] is ReferenceCounted
            &&& rc_tile(refs[e.0 as int]) == TileReference(id as u16, t as u16)
        }
    }

    spec fn slot_ok(&self, i: int) -> bool {
        let sets = self.tilesets@;
        let refs = self.references@;
        let t = rc_tile(refs[i]);
        refs[i] is ReferenceCounted ==> {
            &&& rc_count(refs[i]) >= 1
            &&& i > 0
            &&& (t.0 as int) < sets.len()
            &&& sets[t.0 as int] is Data
            &&& (t.1 as int) < self.tile_set_to_vram@[t.0 as int]@.len()
            &&& self.entry(t.0 as int, t.1 as int) == (i as u16, set_generation(sets[t.0 as int]))
        }
    }

    /// Writing the palette leaves the rest of the bookkeeping as it was.
    proof fn lemma_palette_frame(a: &Self, b: &Self)
        requires
            a.wf(),
            b.tilesets == a.tilesets,
            b.references == a.references,
            b.tile_set_to_vram == a.tile_set_to_vram,
            b.free_sets == a.free_sets,
            b.free_tiles == a.free_tiles,
            b.free_pointer == a.free_pointer,
            b.vram_free_pointer == a.vram_free_pointer,
            b.background_palette@.len() == 256,
        ensures
            b.wf(),
    {
        assert forall|id: int, t: int|
            0 <= id < b.tilesets@.len() && 0 <= t < b.tile_set_to_vram@[id]@.len() implies #[trigger] b.entry_ok(
            id,
            t,
        ) by {
            assert(a.entry_ok(id, t));
        }
        assert forall|i: int| 0 <= i < b.references@.len() implies #[trigger] b.slot_ok(i) by {
            assert(a.slot_ok(i));
        }
    }

    /// The manager's bookkeeping holds together.
    pub closed spec fn wf(&self) -> bool {
        let sets = self.tilesets@;
        let refs = self.references@;
        let fs = self.free_sets@;
        let ft = self.free_tiles@;
        &&& sets.len() <= 65536
        &&& self.tile_set_to_vram@.len() == sets.len()
        &&& fs.no_duplicates()
        &&& forall|k: int|
            0 <= k < fs.len() ==> #[trigger] fs[k] < sets.len() && !(sets[fs[k] as int] is Data)
        &&& forall|k: int|
            0 <= k < fs.len() - 1 ==> sets[#[trigger] fs[k] as int] == ArenaStorageItem::<
                TileSet<'a>,
            >::NextFree(fs[k + 1])
        &&& fs.len() > 0 ==> sets[fs.last() as int] is EndOfFreeList
        &&& self.free_pointer == if fs.len() == 0 {
            None
        } else {
            Some(fs[0])
        }
        &&& 1 <= refs.len() <= 65535
        &&& refs[0] is Free
        &&& ft.no_duplicates()
        &&& forall|k: int|
            0 <= k < ft.len() ==> 0 < #[trigger] ft[k] < refs.len() && refs[ft[k] as int] is Free
        &&& forall|k: int|
            0 <= k < ft.len() - 1 ==> free_next(refs[#[trigger] ft[k] as int]) == ft[k + 1] as u16
        &&& ft.len() > 0 ==> free_next(refs[ft.last() as int]) == END_OF_FREE_LIST_MARKER
        &&& self.vram_free_pointer == if ft.len() == 0 {
            None
        } else {
            Some(ft[0])
        }
        &&& forall|id: int, t: int|
            0 <= id < sets.len() && 0 <= t < self.tile_set_to_vram@[id]@.len() ==> #[trigger] self.entry_ok(
                id,
                t,
            )
        &&& forall|i: int| 0 <= i < refs.len() ==> #[trigger] self.slot_ok(i)
        &&& self.background_palette@.len() == 256
    }

    /// `r` names a tile set that the manager holds.
    pub closed spec fn is_live(&self, r: TileSetReference) -> bool {
        &&& (r.id as int) < self.tilesets@.len()
        &&& self.tilesets@[r.id as int] is Data
        &&& set_generation(self.tilesets@[r.id as int]) == r.generation
    }

    /// How many tiles the set that `r` names has.
    pub closed spec fn tile_count(&self, r: TileSetReference) -> nat {
        self.tile_set_to_vram@[r.id as int]@.len()
    }

    /// The video memory slot that tile `t` of the set `r` names occupies, if any.
    pub closed spec fn location_of(&self, r: TileSetReference, t: int) -> Option<int> {
        let e = self.entry(r.id as int, t);
        if e.0 == 0 && e.1 == 0 {
            None
        } else {
            Some(e.0 as int)
        }
    }

    /// How many users the video memory slot `i` has.
    pub open spec fn use_count(&self, i: int) -> int {
        match self.slot_view(i) {
            Some((_, c)) => c,
            None => 0,
        }
    }

    /// Whether slot `i` of video memory holds a tile.
    pub open spec fn slot_in_use(&self, i: int) -> bool {
        self.slot_view(i) is Some
    }

    /// What slot `i` of video memory holds: for a slot in use, the arena slot
    /// of its tile's set and its number of users.
    pub closed spec fn slot_view(&self, i: int) -> Option<(u16, int)> {
        if 0 <= i < self.references@.len() && self.references@[i] is ReferenceCounted {
            Some((rc_tile(self.references@[i]).0, rc_count(self.references@[i])))
        } else {
            None
        }
    }

    /// How many slots of video memory have been named so far.
    pub closed spec fn slots_named(&self) -> nat {
        self.references@.len()
    }

    /// The free slot that is handed out next, when any is free.
    pub closed spec fn first_free_slot(&self) -> int {
        self.free_tiles@[0] as int
    }

    /// How many named slots are free.
    pub closed spec fn free_slots(&self) -> nat {
        self.free_tiles@.len()
    }

    /// Some slot of video memory holds a tile of the set `r` names.
    pub open spec fn has_tiles_loaded(&self, r: TileSetReference) -> bool {
        exists|i: int| #[trigger] self.slot_in_use(i) && self.slot_view(i).unwrap().0 == r.slot()
    }

    /// The generation the next tile set added gets.
    pub closed spec fn next_generation(&self) -> u16 {
        self.generation
    }

    /// How many arena slots have been named so far.
    pub closed spec fn sets_named(&self) -> nat {
        self.tilesets@.len()
    }

    /// How many named arena slots are free.
    pub closed spec fn free_set_slots(&self) -> nat {
        self.free_sets@.len()
    }

    /// A tile set can be added: a slot is free, or a new one can be named.
    pub open spec fn can_add_tileset(&self) -> bool {
        self.free_set_slots() > 0 || self.sets_named() < 65536
    }

    /// Tile `t` of set `r` can be added: its slot can take one more user, or
    /// a slot is free, or a new one can be named.
    pub open spec fn can_add_tile(&self, r: TileSetReference, t: int) -> bool {
        match self.location_of(r, t) {
            Some(i) => self.use_count(i) < 65535,
            None => self.free_slots() > 0 || self.slots_named() < 65535,
        }
    }

    /// The background palette: 256 colours.
    pub closed spec fn palette(&self) -> Seq<u16> {
        self.background_palette@
    }

    /// A manager with no tile sets, no tiles and a black background palette.
    pub fn new() -> (r: Self)
        ensures
            r.wf(),
            r.palette() == Seq::new(256, |i: int| 0u16),
            r.can_add_tileset(),
            r.slots_named() == 1,
            r.free_slots() == 0,
    {
        let mut references: Vec<VRamState> = Vec::new();
        references.push(VRamState::Free(0));
        let mut background_palette: Vec<u16> = Vec::new();
        let mut i: usize = 0;
        while i < 256
            invariant
                i <= 256,
                background_palette@ == Seq::new(i as nat, |k: int| 0u16),
            decreases 256 - i,
        {
            background_palette.push(0);
            i = i + 1;
            proof {
                assert(background_palette@ =~= Seq::new(i as nat, |k: int| 0u16));
            }
        }
        let r = Self {
            tilesets: Vec::new(),
            generation: 0,
            free_pointer: None,
            tile_set_to_vram: Vec::new(),
            references,
            vram_free_pointer: None,
            background_palette,
            free_sets: Ghost(Seq::empty()),
            free_tiles: Ghost(Seq::empty()),
        };
        proof {
            assert forall|i: int| 0 <= i < r.references@.len() implies #[trigger] r.slot_ok(i) by {}
        }
        r
    }

    /// Adds a tile set, in a free slot if there is one, and returns a handle
    /// on it tagged with the current generation.
    pub fn add_tileset(&mut self, tileset: TileSet<'a>) -> (r: TileSetReference)
        requires
            old(self).wf(),
            old(self).can_add_tileset(),
        ensures
            final(self).wf(),
            final(self).is_live(r),
            final(self).tile_count(r) == tileset.spec_num_tiles(),
            forall|t: int| 0 <= t < tileset.spec_num_tiles() ==> #[trigger] final(self).location_of(r, t) is None,
            r.made_in() == old(self).next_generation(),
            !final(self).has_tiles_loaded(r),
            forall|i: int| #[trigger] final(self).slot_view(i) == old(self).slot_view(i),
            final(self).slots_named() == old(self).slots_named(),
            final(self).free_slots() == old(self).free_slots(),
            final(self).next_generation() == old(self).next_generation().wrapping_add(1),
            forall|r2: TileSetReference| #[trigger] old(self).is_live(r2) ==> final(self).is_live(r2)
                && r2.slot() != r.slot() && final(self).tile_count(r2) == old(self).tile_count(r2),
            final(self).palette() == old(self).palette(),
    {
        let generation = self.generation;
        self.generation = self.generation.wrapping_add(1);
        let num_tiles = tileset.num_tiles();
        let ghost fs = self.free_sets@;
        let ghost sets0 = self.tilesets@;
        let index: usize = match self.free_pointer.take() {
            Some(ptr) => {
                proof {
                    assert(fs.len() > 0);
                    assert(fs[0] < sets0.len());
                }
                match &self.tilesets[ptr] {
                    ArenaStorageItem::EndOfFreeList => {
                        proof {
                            if fs.len() > 1 {
                                assert(sets0[fs[0] as int] == ArenaStorageItem::<TileSet<'a>>::NextFree(fs[1]));
                            }
                        }
                    },
                    ArenaStorageItem::NextFree(next_free) => {
                        proof {
                            if fs.len() > 1 {
                                assert(sets0[fs[0] as int] == ArenaStorageItem::<TileSet<'a>>::NextFree(fs[1]));
                            }
                        }
                        self.free_pointer = Some(*next_free);
                    },
                    ArenaStorageItem::Data(..) => {
                        proof {
                            assert(false);
                        }
                    },
                }
                replace_at(&mut self.tilesets, ptr, ArenaStorageItem::Data(tileset, generation));
                self.free_sets = Ghost(fs.drop_first());
                ptr
            },
            None => {
                self.tilesets.push(ArenaStorageItem::Data(tileset, generation));
                self.tilesets.len() - 1
            },
        };
        if self.tile_set_to_vram.len() < self.tilesets.len() {
            self.tile_set_to_vram.push(Vec::new());
        }
        let mut tiles: Vec<(u16, u16)> = Vec::new();
        let mut i: usize = 0;
        while i < num_tiles
            invariant
                i <= num_tiles,
                tiles@.len() == i,
                forall|k: int| 0 <= k < i ==> #[trigger] tiles@[k] == (0u16, 0u16),
            decreases num_tiles - i,
        {
            tiles.push((0, 0));
            i = i + 1;
        }
        replace_at(&mut self.tile_set_to_vram, index, tiles);
        let r = TileSetReference::new(index as u16, generation);
        proof {
            let sets = self.tilesets@;
            let nfs = self.free_sets@;
            assert forall|k: int| 0 <= k < nfs.len() implies #[trigger] nfs[k] < sets.len() && !(
            sets[nfs[k] as int] is Data) by {
                assert(nfs[k] == fs[k + 1]);
            }
            assert forall|k: int| 0 <= k < nfs.len() - 1 implies sets[#[trigger] nfs[k] as int]
                == ArenaStorageItem::<TileSet<'a>>::NextFree(nfs[k + 1]) by {
                assert(nfs[k] == fs[k + 1]);
            }
            assert forall|id: int, t: int|
                0 <= id < sets.len() && 0 <= t < self.tile_set_to_vram@[id]@.len() implies #[trigger] self.entry_ok(
                id,
                t,
            ) by {
                if id != index {
                    assert(old(self).entry_ok(id, t));
                }
            }
            assert forall|i: int| 0 <= i < self.references@.len() implies #[trigger] self.slot_ok(i) by {
                assert(old(self).slot_ok(i));
            }
            assert forall|i: int| #[trigger] self.slot_in_use(i) implies self.slot_view(i).unwrap().0
                != r.slot() by {
                assert(old(self).slot_ok(i));
            }
        }
        r
    }

    /// Frees the slot of the tile set that `tile_set_ref` names. None of its
    /// tiles may be in video memory.
    pub fn remove_tileset(&mut self, tile_set_ref: TileSetReference)
        requires
            old(self).wf(),
            old(self).is_live(tile_set_ref),
            !old(self).has_tiles_loaded(tile_set_ref),
        ensures
            final(self).wf(),
            !final(self).is_live(tile_set_ref),
            final(self).can_add_tileset(),
            forall|i: int| #[trigger] final(self).slot_view(i) == old(self).slot_view(i),
            final(self).slots_named() == old(self).slots_named(),
            final(self).free_slots() == old(self).free_slots(),
            forall|r2: TileSetReference| #[trigger] old(self).is_live(r2) && r2.slot() != tile_set_ref.slot()
                ==> final(self).is_live(r2) && final(self).tile_count(r2) == old(self).tile_count(r2),
            final(self).next_generation() == old(self).next_generation(),
            final(self).palette() == old(self).palette(),
    {
        let id = tile_set_ref.id as usize;
        let ghost fs = self.free_sets@;
        let ghost sets0 = self.tilesets@;
        let item = if let Some(ptr) = self.free_pointer {
            ArenaStorageItem::NextFree(ptr)
        } else {
            ArenaStorageItem::EndOfFreeList
        };
        replace_at(&mut self.tilesets, id, item);
        self.free_pointer = Some(id);
        proof {
            let sets = self.tilesets@;
            let nfs = seq![id].add(fs);
            assert(!fs.contains(id)) by {
                if fs.contains(id) {
                    let k = choose|k: int| 0 <= k < fs.len() && fs[k] == id;
                    assert(!(sets0[fs[k] as int] is Data));
                }
            }
            self.free_sets = Ghost(nfs);
            assert(nfs.no_duplicates()) by {
                assert forall|a: int, b: int| 0 <= a < b < nfs.len() implies nfs[a] != nfs[b] by {
                    if a > 0 {
                        assert(nfs[a] == fs[a - 1] && nfs[b] == fs[b - 1]);
                    } else {
                        assert(nfs[b] == fs[b - 1]);
                    }
                }
            }
            assert forall|k: int| 0 <= k < nfs.len() implies #[trigger] nfs[k] < sets.len() && !(
            sets[nfs[k] as int] is Data) by {
                if k > 0 {
                    assert(nfs[k] == fs[k - 1]);
                }
            }
            assert forall|k: int| 0 <= k < nfs.len() - 1 implies sets[#[trigger] nfs[k] as int]
                == ArenaStorageItem::<TileSet<'a>>::NextFree(nfs[k + 1]) by {
                if k > 0 {
                    assert(nfs[k] == fs[k - 1]);
                    assert(nfs[k + 1] == fs[k]);
                    assert(fs[k - 1] != id);
                }
            }
            if fs.len() > 0 {
                assert(nfs.last() == fs.last());
                assert(fs.last() != id);
            }
            assert forall|i: int, t: int|
                0 <= i < sets.len() && 0 <= t < self.tile_set_to_vram@[i]@.len() implies #[trigger] self.entry_ok(
                i,
                t,
            ) by {
                assert(old(self).entry_ok(i, t));
                if i == id {
                    let e = self.entry(i, t);
                    if e.0 != 0 || e.1 != 0 {
                        assert(old(self).slot_in_use(e.0 as int));
                    }
                }
            }
            assert forall|i: int| 0 <= i < self.references@.len() implies #[trigger] self.slot_ok(i) by {
                assert(old(self).slot_ok(i));
                if self.references@[i] is ReferenceCounted {
                    assert(old(self).slot_in_use(i));
                }
            }
        }
    }

    /// Puts tile `tile` of the set `tile_set_ref` names in video memory, or
    /// counts one more user of it if it is there already, and returns its
    /// slot. Copying the tile's data into that slot is up to the caller.
    pub fn add_tile(&mut self, tile_set_ref: TileSetReference, tile: u16) -> (r: TileIndex)
        requires
            old(self).wf(),
            old(self).is_live(tile_set_ref),
            (tile as int) < old(self).tile_count(tile_set_ref),
            old(self).can_add_tile(tile_set_ref, tile as int),
        ensures
            final(self).wf(),
            final(self).location_of(tile_set_ref, tile as int) == Some(r.slot() as int),
            final(self).use_count(r.slot() as int) == match old(self).location_of(tile_set_ref, tile as int) {
                Some(i) => old(self).use_count(i) + 1,
                None => 1,
            },
            old(self).location_of(tile_set_ref, tile as int) is None ==> r.slot() as int == if old(
                self,
            ).free_slots() > 0 {
                old(self).first_free_slot()
            } else {
                old(self).slots_named() as int
            },
            final(self).slot_view(r.slot() as int) == Some(
                (tile_set_ref.slot(), final(self).use_count(r.slot() as int)),
            ),
            forall|i: int| i != r.slot() ==> #[trigger] final(self).slot_view(i) == old(self).slot_view(i),
            forall|r2: TileSetReference| #[trigger] old(self).is_live(r2) ==> final(self).is_live(r2)
                && final(self).tile_count(r2) == old(self).tile_count(r2),
            final(self).next_generation() == old(self).next_generation(),
            final(self).palette() == old(self).palette(),
    {
        let id = tile_set_ref.id as usize;
        let tile_ref = TileReference(tile_set_ref.id, tile);
        let reference = self.tile_set_to_vram[id][tile as usize];
        proof {
            assert(self.entry_ok(id as int, tile as int));
            assert(reference == self.entry(id as int, tile as int));
        }
        if reference.0 != 0 || reference.1 != 0 {
            let slot = reference.0 as usize;
            proof {
                assert(self.slot_ok(slot as int));
            }
            let ghost refs0 = self.references@;
            self.references[slot].increase_reference();
            proof {
                assert forall|i: int| 0 <= i < self.references@.len() implies #[trigger] self.slot_ok(i) by {
                    assert(old(self).slot_ok(i));
                }
                assert forall|i: int, t: int|
                    0 <= i < self.tilesets@.len() && 0 <= t < self.tile_set_to_vram@[i]@.len() implies #[trigger] self.entry_ok(
                    i,
                    t,
                ) by {
                    assert(old(self).entry_ok(i, t));
                }
                let ft = self.free_tiles@;
                assert forall|k: int| 0 <= k < ft.len() implies 0 < #[trigger] ft[k] < self.references@.len()
                    && self.references@[ft[k] as int] is Free by {
                    assert(refs0[ft[k] as int] is Free);
                }
            }
            return TileIndex::new(reference.0);
        }
        let ghost refs0 = self.references@;
        let ghost ft = self.free_tiles@;
        let index_to_copy_into: usize = match self.vram_free_pointer.take() {
            Some(ptr) => {
                proof {
                    assert(ft.len() > 0);
                    assert(0 < ft[0] < refs0.len());
                    if ft.len() > 1 {
                        assert(free_next(refs0[ft[0] as int]) == ft[1] as u16);
                        assert(0 < ft[1] < refs0.len());
                    }
                }
                match &self.references[ptr] {
                    VRamState::Free(next_free) => {
                        if *next_free != END_OF_FREE_LIST_MARKER {
                            self.vram_free_pointer = Some(*next_free as usize);
                        }
                    },
                    VRamState::ReferenceCounted(_, _) => {
                        proof {
                            assert(false);
                        }
                    },
                }
                replace_at(&mut self.references, ptr, VRamState::ReferenceCounted(1, tile_ref));
                self.free_tiles = Ghost(ft.drop_first());
                ptr
            },
            None => {
                self.references.push(VRamState::ReferenceCounted(1, tile_ref));
                self.references.len() - 1
            },
        };
        let ghost map0 = self.tile_set_to_vram@;
        let mut row = replace_at(&mut self.tile_set_to_vram, id, Vec::new());
        replace_at(&mut row, tile as usize, (index_to_copy_into as u16, tile_set_ref.generation));
        replace_at(&mut self.tile_set_to_vram, id, row);
        proof {
            let refs = self.references@;
            let nft = self.free_tiles@;
            let map = self.tile_set_to_vram@;
            assert(map[id as int]@ == map0[id as int]@.update(tile as int, (index_to_copy_into as u16, tile_set_ref.generation)));
            assert(forall|i: int| 0 <= i < map.len() && i != id ==> map[i] == map0[i]);
            assert forall|k: int| 0 <= k < nft.len() implies 0 < #[trigger] nft[k] < refs.len() && refs[nft[k] as int] is Free by {
                assert(nft[k] == ft[k + 1]);
            }
            assert forall|k: int| 0 <= k < nft.len() - 1 implies free_next(refs[#[trigger] nft[k] as int]) == nft[k + 1] as u16 by {
                assert(nft[k] == ft[k + 1]);
            }
            assert forall|i: int, t: int|
                0 <= i < self.tilesets@.len() && 0 <= t < map[i]@.len() implies #[trigger] self.entry_ok(i, t) by {
                assert(old(self).entry_ok(i, t));
                if !(i == id && t == tile) {
                    let e = self.entry(i, t);
                    if e.0 != 0 || e.1 != 0 {
                        assert(e.0 != index_to_copy_into as u16) by {
                            if e.0 == index_to_copy_into as u16 {
                                assert(old(self).slot_ok(e.0 as int));
                            }
                        }
                    }
                }
            }
            assert forall|i: int| 0 <= i < refs.len() implies #[trigger] self.slot_ok(i) by {
                if i != index_to_copy_into {
                    assert(old(self).slot_ok(i));
                    if refs[i] is ReferenceCounted {
                        let t = rc_tile(refs[i]);
                        if t.0 as int == id && t.1 == tile {
                            assert(old(self).entry(id as int, tile as int) == (0u16, 0u16));
                        }
                    }
                }
            }
        }
        TileIndex::new(index_to_copy_into as u16)
    }

    /// Counts one user less of the video memory slot `tile_index`; a slot
    /// left without users is freed, and its tile counts as not loaded.
    pub fn remove_tile(&mut self, tile_index: TileIndex)
        requires
            old(self).wf(),
            old(self).slot_in_use(tile_index.slot() as int),
        ensures
            final(self).wf(),
            old(self).use_count(tile_index.slot() as int) > 1 ==> final(self).use_count(
                tile_index.slot() as int,
            ) == old(self).use_count(tile_index.slot() as int) - 1 && final(self).slot_in_use(
                tile_index.slot() as int,
            ),
            old(self).use_count(tile_index.slot() as int) == 1 ==> !final(self).slot_in_use(
                tile_index.slot() as int,
            ),
            final(self).slot_view(tile_index.slot() as int) == if old(self).use_count(
                tile_index.slot() as int,
            ) > 1 {
                Some(
                    (
                        old(self).slot_view(tile_index.slot() as int).unwrap().0,
                        old(self).use_count(tile_index.slot() as int) - 1,
                    ),
                )
            } else {
                None
            },
            forall|i: int| i != tile_index.slot() ==> #[trigger] final(self).slot_view(i) == old(self).slot_view(i),
            forall|r2: TileSetReference| #[trigger] old(self).is_live(r2) ==> final(self).is_live(r2)
                && final(self).tile_count(r2) == old(self).tile_count(r2),
            final(self).next_generation() == old(self).next_generation(),
            final(self).palette() == old(self).palette(),
    {
        let index = tile_index.0 as usize;
        proof {
            assert(self.slot_ok(index as int));
        }
        let ghost refs0 = self.references@;
        let ghost ft = self.free_tiles@;
        let (new_count, tile_ref) = self.references[index].decrease_reference();
        if new_count != 0 {
            proof {
                assert forall|i: int| 0 <= i < self.references@.len() implies #[trigger] self.slot_ok(i) by {
                    assert(old(self).slot_ok(i));
                }
                assert forall|i: int, t: int|
                    0 <= i < self.tilesets@.len() && 0 <= t < self.tile_set_to_vram@[i]@.len() implies #[trigger] self.entry_ok(
                    i,
                    t,
                ) by {
                    assert(old(self).entry_ok(i, t));
                }
                assert forall|k: int| 0 <= k < ft.len() implies 0 < #[trigger] ft[k] < self.references@.len()
                    && self.references@[ft[k] as int] is Free by {
                    assert(refs0[ft[k] as int] is Free);
                }
            }
            return ;
        }
        let freed = if let Some(ptr) = self.vram_free_pointer {
            VRamState::Free(ptr as u16)
        } else {
            VRamState::Free(END_OF_FREE_LIST_MARKER)
        };
        replace_at(&mut self.references, index, freed);
        let ghost map0 = self.tile_set_to_vram@;
        let mut row = replace_at(&mut self.tile_set_to_vram, tile_ref.0 as usize, Vec::new());
        replace_at(&mut row, tile_ref.1 as usize, (0, 0));
        replace_at(&mut self.tile_set_to_vram, tile_ref.0 as usize, row);
        self.vram_free_pointer = Some(index);
        proof {
            let nft = seq![index].add(ft);
            self.free_tiles = Ghost(nft);
            let refs = self.references@;
            let map = self.tile_set_to_vram@;
            let a = tile_ref.0 as int;
            let b = tile_ref.1 as int;
            assert(map[a]@ == map0[a]@.update(b, (0u16, 0u16)));
            assert(forall|i: int| 0 <= i < map.len() && i != a ==> map[i] == map0[i]);
            assert(!ft.contains(index)) by {
                if ft.contains(index) {
                    let k = choose|k: int| 0 <= k < ft.len() && ft[k] == index;
                    assert(refs0[ft[k] as int] is Free);
                }
            }
            assert(nft.no_duplicates()) by {
                assert forall|x: int, y: int| 0 <= x < y < nft.len() implies nft[x] != nft[y] by {
                    if x > 0 {
                        assert(nft[x] == ft[x - 1] && nft[y] == ft[y - 1]);
                    } else {
                        assert(nft[y] == ft[y - 1]);
                    }
                }
            }
            assert forall|k: int| 0 <= k < nft.len() implies 0 < #[trigger] nft[k] < refs.len() && refs[nft[k] as int] is Free by {
                if k > 0 {
                    assert(nft[k] == ft[k - 1]);
                }
            }
            assert forall|k: int| 0 <= k < nft.len() - 1 implies free_next(refs[#[trigger] nft[k] as int]) == nft[k + 1] as u16 by {
                if k > 0 {
                    assert(nft[k] == ft[k - 1]);
                    assert(nft[k + 1] == ft[k]);
                }
            }
            if ft.len() > 0 {
                assert(nft.last() == ft.last());
            }
            assert forall|i: int, t: int|
                0 <= i < self.tilesets@.len() && 0 <= t < map[i]@.len() implies #[trigger] self.entry_ok(i, t) by {
                assert(old(self).entry_ok(i, t));
                if !(i == a && t == b) {
                    let e = self.entry(i, t);
                    if (e.0 != 0 || e.1 != 0) && e.0 as int == index {
                        assert(old(self).entry(i, t) == e);
                        assert(rc_tile(refs0[index as int]) == TileReference(i as u16, t as u16));
                        assert(i as u16 as int == i);
                        assert(t as u16 as int == t);
                    }
                }
            }
            assert forall|i: int| 0 <= i < refs.len() implies #[trigger] self.slot_ok(i) by {
                if i != index {
                    assert(old(self).slot_ok(i));
                    if refs[i] is ReferenceCounted {
                        let t = rc_tile(refs[i]);
                        if t.0 as int == a && t.1 as int == b {
                            assert(old(self).entry(a, b) == (index as u16, set_generation(self.tilesets@[a])));
                        }
                    }
                }
            }
        }
    }

    /// Copies `palette` to the start of the background palette.
    pub fn set_background_palette_raw(&mut self, palette: &[u16])
        requires
            old(self).wf(),
            palette@.len() <= 256,
        ensures
            final(self).wf(),
            final(self).palette() == palette@ + old(self).palette().subrange(palette@.len() as int, 256),
    {
        let mut index: usize = 0;
        while index < palette.len()
            invariant
                self.wf(),
                index <= palette@.len() <= 256,
                self.palette() == palette@.subrange(0, index as int) + old(self).palette().subrange(index as int, 256),
                self.tilesets == old(self).tilesets,
                self.references == old(self).references,
                self.tile_set_to_vram == old(self).tile_set_to_vram,
                self.free_sets == old(self).free_sets,
                self.free_tiles == old(self).free_tiles,
                self.free_pointer == old(self).free_pointer,
                self.vram_free_pointer == old(self).vram_free_pointer,
                old(self).palette().len() == 256,
            decreases palette@.len() - index,
        {
            let colour = palette[index];
            let ghost before = *self;
            replace_at(&mut self.background_palette, index, colour);
            index = index + 1;
            proof {
                Self::lemma_palette_frame(&before, self);
                assert(self.palette() =~= palette@.subrange(0, index as int) + old(self).palette().subrange(index as int, 256));
            }
        }
        proof {
            assert(palette@.subrange(0, index as int) =~= palette@);
        }
    }

    /// Copies sixteen colours to background palette `pal_index`.
    fn set_background_palette(&mut self, pal_index: u8, palette: &Palette16)
        requires
            old(self).wf(),
            pal_index < 16,
        ensures
            final(self).wf(),
            final(self).palette() == old(self).palette().update_subrange_with(
                pal_index as int * 16,
                palette.colours@,
            ),
    {
        let start = pal_index as usize * 16;
        let mut colour_index: usize = 0;
        while colour_index < 16
            invariant
                self.wf(),
                start == pal_index as int * 16,
                pal_index < 16,
                colour_index <= 16,
                self.palette() == old(self).palette().update_subrange_with(
                    start as int,
                    palette.colours@.subrange(0, colour_index as int),
                ),
                self.tilesets == old(self).tilesets,
                self.references == old(self).references,
                self.tile_set_to_vram == old(self).tile_set_to_vram,
                self.free_sets == old(self).free_sets,
                self.free_tiles == old(self).free_tiles,
                self.free_pointer == old(self).free_pointer,
                self.vram_free_pointer == old(self).vram_free_pointer,
                old(self).palette().len() == 256,
            decreases 16 - colour_index,
        {
            let colour = palette.colours[colour_index];
            let ghost before = *self;
            replace_at(&mut self.background_palette, start + colour_index, colour);
            colour_index = colour_index + 1;
            proof {
                Self::lemma_palette_frame(&before, self);
                assert(self.palette() =~= old(self).palette().update_subrange_with(
                    start as int,
                    palette.colours@.subrange(0, colour_index as int),
                ));
            }
        }
        proof {
            assert(palette.colours@.subrange(0, 16) =~= palette.colours@);
        }
    }

    /// Copies each palette of `palettes` to the background palette of its
    /// position.
    pub fn set_background_palettes(&mut self, palettes: &[Palette16])
        requires
            old(self).wf(),
            palettes@.len() <= 16,
        ensures
            final(self).wf(),
            forall|p: int, c: int|
                0 <= p < palettes@.len() && 0 <= c < 16 ==> #[trigger] final(self).palette()[p * 16 + c]
                    == palettes@[p].colours@[c],
            forall|i: int| palettes@.len() * 16 <= i < 256 ==> #[trigger] final(self).palette()[i]
                == old(self).palette()[i],
    {
        let mut palette_index: usize = 0;
        while palette_index < palettes.len()
            invariant
                self.wf(),
                palette_index <= palettes@.len() <= 16,
                forall|p: int, c: int|
                    0 <= p < palette_index && 0 <= c < 16 ==> #[trigger] self.palette()[p * 16 + c]
                        == palettes@[p].colours@[c],
                forall|i: int| palette_index * 16 <= i < 256 ==> #[trigger] self.palette()[i]
                    == old(self).palette()[i],
            decreases palettes@.len() - palette_index,
        {
            let ghost before = self.palette();
            self.set_background_palette(palette_index as u8, &palettes[palette_index]);
            proof {
                assert forall|p: int, c: int|
                    0 <= p < palette_index + 1 && 0 <= c < 16 implies #[trigger] self.palette()[p * 16 + c]
                        == palettes@[p].colours@[c] by {
                    if p < palette_index {
                        assert(p * 16 + c < palette_index * 16) by (nonlinear_arith)
                            requires p < palette_index, 0 <= c < 16;
                        assert(before[p * 16 + c] == palettes@[p].colours@[c]);
                    } else {
                        assert(p * 16 + c >= palette_index * 16) by (nonlinear_arith)
                            requires p == palette_index, 0 <= c;
                    }
                }
            }
            palette_index = palette_index + 1;
        }
    }

    /// The background palette.
    pub fn background_palette(&self) -> (r: &[u16])
        ensures
            r@ == self.palette(),
    {
        self.background_palette.as_slice()
    }
}

} // verus!
