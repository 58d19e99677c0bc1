use crate::batch::{batch, batch_count, batches, decimal, decimal_digits, join_bar};
use crate::names::{legal_name, normalize, normalized, TileError};
use crate::raster::Raster;
use crate::sheet::{Sheet, TilePos};
use vstd::prelude::*;
use vstd::string::*;

verus! {

/// Width, in cells, at which a depth layer is full and the search moves on to
/// the next layer.
pub const MAX_SIZE: u32 = 64;

/// A tile of the registry: its name, its cell, and the identifier the remote
/// registry gave it (none until it is uploaded).
pub struct Tile {
    pub name: String,
    pub pos: TilePos,
    pub id: Option<u64>,
}

/// The search cursor `(a, b, z)` of the diagonal fill, as integers.
pub type Cursor = (int, int, int);

pub open spec fn cursor_of(c: (u32, u32, u32)) -> Cursor {
    (c.0 as int, c.1 as int, c.2 as int)
}

/// The cell that cursor `(a, b, z)` stands for: `(b, a)` while `b < a`, else
/// `(a, b - a)`, both in layer `z`.
pub open spec fn candidate(c: Cursor) -> TilePos {
    if c.1 < c.0 {
        TilePos { x: c.1 as u32, y: c.0 as u32, z: c.2 as u32 }
    } else {
        TilePos { x: c.0 as u32, y: (c.1 - c.0) as u32, z: c.2 as u32 }
    }
}

/// The cursor after `c` in the search order.
pub open spec fn advance(c: Cursor) -> Cursor {
    if c.1 + 1 > 2 * c.0 {
        if c.0 + 1 == MAX_SIZE {
            (0, 0, c.2 + 1)
        } else {
            (c.0 + 1, 0, c.2)
        }
    } else {
        (c.0, c.1 + 1, c.2)
    }
}

/// The cursor `k` steps after `c`.
pub open spec fn advance_n(c: Cursor, k: nat) -> Cursor
    decreases k,
{
    if k == 0 {
        c
    } else {
        advance(advance_n(c, (k - 1) as nat))
    }
}

pub open spec fn cursor_valid(c: Cursor) -> bool {
    0 <= c.0 < MAX_SIZE && 0 <= c.1 <= 2 * c.0 && 0 <= c.2
}

/// Whether the `k`-th cursor from `c` is the first whose cell is free of
/// `occupied`.
pub open spec fn first_free(occupied: spec_fn(TilePos) -> bool, c: Cursor, k: nat) -> bool {
    &&& !occupied(candidate(advance_n(c, k)))
    &&& forall|j: nat| j < k ==> #[trigger] occupied(candidate(advance_n(c, j)))
}

pub proof fn lemma_advance_valid(c: Cursor, k: nat)
    requires
        cursor_valid(c),
    ensures
        cursor_valid(advance_n(c, k)),
        advance_n(c, k).2 >= c.2,
    decreases k,
{
    if k > 0 {
        lemma_advance_valid(c, (k - 1) as nat);
    }
}

/// The search is deterministic: from one cursor and one set of occupied
/// cells, exactly one number of steps reaches the first free cell.
pub proof fn lemma_first_free_unique(
    occupied: spec_fn(TilePos) -> bool,
    c: Cursor,
    k1: nat,
    k2: nat,
)
    requires
        first_free(occupied, c, k1),
        first_free(occupied, c, k2),
    ensures
        k1 == k2,
{
    if k1 < k2 {
        assert(occupied(candidate(advance_n(c, k1))));
    } else if k2 < k1 {
        assert(occupied(candidate(advance_n(c, k2))));
    }
}


/// The character sequences of a sequence of strings.
pub open spec fn views(v: Seq<String>) -> Seq<Seq<char>> {
    v.map_values(|s: String| s@)
}

/// Whether one of `tiles` is named `n`.
pub open spec fn tiles_have(tiles: Seq<Tile>, n: Seq<char>) -> bool {
    exists|i: int| 0 <= i < tiles.len() && #[trigger] tiles[i].name@ == n
}

/// Whether one of the strings of `v` reads `m`.
pub open spec fn seq_has(v: Seq<String>, m: Seq<char>) -> bool {
    exists|k: int| 0 <= k < v.len() && #[trigger] v[k]@ == m
}

/// The names a scan of `stems` finds, in order, that `known` does not hold.
pub open spec fn fresh_names(
    renames: Seq<(String, String)>,
    stems: Seq<String>,
    known: spec_fn(Seq<char>) -> bool,
) -> Seq<Seq<char>>
    decreases stems.len(),
{
    if stems.len() == 0 {
        seq![]
    } else {
        let prev = fresh_names(renames, stems.drop_last(), known);
        match normalized(renames, stems.last()@) {
            Some(n) => if known(n) {
                prev
            } else {
                prev.push(n)
            },
            None => prev,
        }
    }
}

/// The set of tile names a scan of `stems` finds.
pub open spec fn scanned(renames: Seq<(String, String)>, stems: Seq<String>) -> Set<Seq<char>> {
    Set::new(
        |n: Seq<char>|
            exists|i: int| 0 <= i < stems.len() && #[trigger] normalized(renames, stems[i]@) == Some(n),
    )
}

/// Every name a scan of `stems` finds is legal.
pub open spec fn scan_legal(renames: Seq<(String, String)>, stems: Seq<String>) -> bool {
    forall|i: int|
        0 <= i < stems.len() ==> (#[trigger] normalized(renames, stems[i]@) matches Some(n)
            ==> legal_name(n))
}

/// The names that a scan adds are exactly the scanned names that were not
/// known before.
pub proof fn lemma_fresh_names(
    renames: Seq<(String, String)>,
    stems: Seq<String>,
    known: spec_fn(Seq<char>) -> bool,
    n: Seq<char>,
)
    ensures
        fresh_names(renames, stems, known).contains(n) <==> (scanned(renames, stems).contains(n)
            && !known(n)),
    decreases stems.len(),
{
    if stems.len() > 0 {
        let init = stems.drop_last();
        let prev = fresh_names(renames, init, known);
        lemma_fresh_names(renames, init, known, n);
        // the scanned set grows by the last stem's name
        assert(scanned(renames, stems).contains(n) <==> (scanned(renames, init).contains(n)
            || normalized(renames, stems.last()@) == Some(n))) by {
            if scanned(renames, stems).contains(n) {
                let i = choose|i: int|
                    0 <= i < stems.len() && #[trigger] normalized(renames, stems[i]@) == Some(n);
                if i < stems.len() - 1 {
                    assert(init[i] == stems[i]);
                }
            }
            if scanned(renames, init).contains(n) {
                let i = choose|i: int|
                    0 <= i < init.len() && #[trigger] normalized(renames, init[i]@) == Some(n);
                assert(init[i] == stems[i]);
            }
            if normalized(renames, stems.last()@) == Some(n) {
                assert(normalized(renames, stems[stems.len() - 1]@) == Some(n));
            }
        }
        match normalized(renames, stems.last()@) {
            Some(m) => {
                if !known(m) {
                    assert(prev.push(m).contains(n) <==> (prev.contains(n) || m == n)) by {
                        if prev.push(m).contains(n) {
                            let k = choose|k: int| 0 <= k < prev.push(m).len() && prev.push(m)[k] == n;
                            if k < prev.len() {
                                assert(prev[k] == n);
                            }
                        }
                        if prev.contains(n) {
                            let k = choose|k: int| 0 <= k < prev.len() && prev[k] == n;
                            assert(prev.push(m)[k] == n);
                        }
                        if m == n {
                            assert(prev.push(m)[prev.len() as int] == n);
                        }
                    }
                }
            },
            None => {},
        }
    }
}

/// The entries of a deletion list that name no tile: those the registry
/// lacks, and repeats of an earlier entry.
pub open spec fn unknown_deletions(names: Seq<String>, known: spec_fn(Seq<char>) -> bool) -> Seq<
    Seq<char>,
>
    decreases names.len(),
{
    if names.len() == 0 {
        seq![]
    } else {
        let init = names.drop_last();
        let n = names.last()@;
        if !known(n) || seq_has(init, n) {
            unknown_deletions(init, known).push(n)
        } else {
            unknown_deletions(init, known)
        }
    }
}

/// The remote identifier of the tile of `tiles` named `n`.
pub open spec fn id_named(tiles: Seq<Tile>, n: Seq<char>) -> Option<u64> {
    tiles[choose|j: int| 0 <= j < tiles.len() && tiles[j].name@ == n].id
}

/// The identifiers that deleting `names` in order records from `tiles`: one
/// for each entry that names a tile not deleted yet, where that tile has an
/// identifier; unknown and repeated entries record none.
pub open spec fn deletion_ids(tiles: Seq<Tile>, names: Seq<String>) -> Seq<u64>
    decreases names.len(),
{
    if names.len() == 0 {
        seq![]
    } else {
        let init = names.drop_last();
        let n = names.last()@;
        let prev = deletion_ids(tiles, init);
        if tiles_have(tiles, n) && !seq_has(init, n) {
            match id_named(tiles, n) {
                Some(id) => prev.push(id),
                None => prev,
            }
        } else {
            prev
        }
    }
}

/// A registry entry for tile `name` at `p`: `x y z name`.
pub open spec fn tile_entry(p: TilePos, name: Seq<char>) -> Seq<char> {
    decimal_digits(p.x as nat) + seq![' '] + decimal_digits(p.y as nat) + seq![' ']
        + decimal_digits(p.z as nat) + seq![' '] + name
}

/// Why a tile could not be placed.
#[derive(Clone, Copy, Debug, PartialEq, Eq, Structural)]
pub enum PlaceError {
    /// Every cell up to the last depth layer is taken.
    Full,
    /// The tile got this cell, but a rendering is missing, is not one cell
    /// in size, or the grown layer would not fit; no sheet was changed.
    Unfit(TilePos),
}

/// Why a registry record could not be imported.
#[derive(Clone, Copy, Debug, PartialEq, Eq, Structural)]
pub enum ImportError {
    /// A tile of that name is already in the registry.
    DuplicateName,
    /// Another tile already stands on that cell.
    Occupied,
}

/// The registry of one namespace and the work of one synchronisation run.
pub struct TilesheetManager {
    pub name: String,
    pub tiles: Vec<Tile>,
    pub renames: Vec<(String, String)>,
    pub added: Vec<String>,
    pub missing: Vec<String>,
    pub deleted: Vec<u64>,
    pub tilesheets: Vec<Sheet>,
    pub next: (u32, u32, u32),
}

impl TilesheetManager {
    pub open spec fn has_name(&self, n: Seq<char>) -> bool {
        tiles_have(self.tiles@, n)
    }

    pub open spec fn occupies(&self, p: TilePos) -> bool {
        exists|i: int| 0 <= i < self.tiles@.len() && #[trigger] self.tiles@[i].pos == p
    }

    /// The set of names in the registry.
    pub open spec fn names(&self) -> Set<Seq<char>> {
        Set::new(|n: Seq<char>| self.has_name(n))
    }

    /// No two tiles share a name or a cell, and the cursor is in range.
    pub open spec fn wf(&self) -> bool {
        &&& forall|i: int, j: int|
            0 <= i < j < self.tiles@.len() ==> #[trigger] self.tiles@[i].name@
                != #[trigger] self.tiles@[j].name@
        &&& forall|i: int, j: int|
            0 <= i < j < self.tiles@.len() ==> #[trigger] self.tiles@[i].pos
                != #[trigger] self.tiles@[j].pos
        &&& cursor_valid(cursor_of(self.next))
    }

    /// A manager for namespace `name` with an empty registry and the given
    /// rename table.
    pub fn new(name: &str, renames: Vec<(String, String)>) -> (r: TilesheetManager)
        ensures
            r.wf(),
            r.name@ == name@,
            r.tiles@.len() == 0,
            r.renames@ == renames@,
            r.added@.len() == 0,
            r.missing@.len() == 0,
            r.deleted@.len() == 0,
            r.tilesheets@.len() == 0,
            r.next == (0u32, 0u32, 0u32),
    {
        TilesheetManager {
            name: name.to_owned(),
            tiles: Vec::new(),
            renames,
            added: Vec::new(),
            missing: Vec::new(),
            deleted: Vec::new(),
            tilesheets: Vec::new(),
            next: (0, 0, 0),
        }
    }

    /// The index of the tile named `name`.
    pub fn find_tile(&self, name: &String) -> (r: Option<usize>)
        ensures
            r is None <==> !self.has_name(name@),
            r matches Some(i) ==> i < self.tiles@.len() && self.tiles@[i as int].name@ == name@,
    {
        let mut i: usize = 0;
        while i < self.tiles.len()
            invariant
                i <= self.tiles@.len(),
                forall|k: int| 0 <= k < i ==> self.tiles@[k].name@ != name@,
            decreases self.tiles@.len() - i,
        {
            if self.tiles[i].name == *name {
                return Some(i);
            }
            i = i + 1;
        }
        None
    }

    /// Whether a tile of the registry stands at `pos`.
    pub fn is_occupied(&self, pos: TilePos) -> (r: bool)
        ensures
            r == self.occupies(pos),
    {
        let mut i: usize = 0;
        while i < self.tiles.len()
            invariant
                i <= self.tiles@.len(),
                forall|k: int| 0 <= k < i ==> self.tiles@[k].pos != pos,
            decreases self.tiles@.len() - i,
        {
            if self.tiles[i].pos == pos {
                return true;
            }
            i = i + 1;
        }
        false
    }

    /// The set of names awaiting a local file.
    pub open spec fn missing_set(&self) -> Set<Seq<char>> {
        Set::new(|n: Seq<char>| seq_has(self.missing@, n))
    }

    /// Takes one record of the remote registry: tile `name` at `pos` with
    /// remote identifier `id`, which stays missing until a scan finds it.
    pub fn import_tile(&mut self, name: &str, pos: TilePos, id: u64) -> (r: Result<(), ImportError>)
        requires
            old(self).wf(),
        ensures
            final(self).wf(),
            final(self).name == old(self).name,
            final(self).renames == old(self).renames,
            final(self).added == old(self).added,
            final(self).deleted == old(self).deleted,
            final(self).tilesheets == old(self).tilesheets,
            final(self).next == old(self).next,
            r is Ok <==> (!old(self).has_name(name@) && !old(self).occupies(pos)),
            old(self).has_name(name@) ==> r == Err::<(), ImportError>(ImportError::DuplicateName),
            !old(self).has_name(name@) && old(self).occupies(pos) ==> r == Err::<(), ImportError>(ImportError::Occupied),
            r is Err ==> final(self).tiles == old(self).tiles && final(self).missing == old(self).missing,
            r is Ok ==> {
                &&& !old(self).has_name(name@)
                &&& !old(self).occupies(pos)
                &&& final(self).tiles@.drop_last() == old(self).tiles@
                &&& final(self).tiles@.len() == old(self).tiles@.len() + 1
                &&& final(self).tiles@.last().name@ == name@
                &&& final(self).tiles@.last().pos == pos
                &&& final(self).tiles@.last().id == Some(id)
                &&& final(self).missing_set() == old(self).missing_set().insert(name@)
            },
    {
        let key = name.to_owned();
        if self.find_tile(&key).is_some() {
            return Err(ImportError::DuplicateName);
        }
        if self.is_occupied(pos) {
            return Err(ImportError::Occupied);
        }
        let key2 = name.to_owned();
        self.tiles.push(Tile { name: key, pos, id: Some(id) });
        let ghost before_missing = self.missing@;
        self.missing.push(key2);
        proof {
            assert(self.tiles@.drop_last() =~= old(self).tiles@);
            assert forall|i: int, j: int|
                0 <= i < j < self.tiles@.len() implies #[trigger] self.tiles@[i].pos
                != #[trigger] self.tiles@[j].pos by {
                if j == self.tiles@.len() - 1 {
                    assert(old(self).tiles@[i].pos == self.tiles@[i].pos);
                }
            }
            assert forall|i: int, j: int|
                0 <= i < j < self.tiles@.len() implies #[trigger] self.tiles@[i].name@
                != #[trigger] self.tiles@[j].name@ by {
                if j == self.tiles@.len() - 1 {
                    assert(old(self).tiles@[i].name@ == self.tiles@[i].name@);
                }
            }
            assert forall|n: Seq<char>| #[trigger] self.missing_set().contains(n) == old(self).missing_set().insert(name@).contains(n) by {
                if old(self).missing_set().contains(n) {
                    let i = choose|i: int| 0 <= i < before_missing.len() && #[trigger] before_missing[i]@ == n;
                    assert(self.missing@[i] == before_missing[i]);
                }
                if n == name@ {
                    assert(self.missing@[self.missing@.len() - 1]@ == n);
                }
                if self.missing_set().contains(n) && n != name@ {
                    let i = choose|i: int| 0 <= i < self.missing@.len() && #[trigger] self.missing@[i]@ == n;
                    assert(self.missing@[i] == before_missing[i]);
                }
            }
            assert(self.missing_set() =~= old(self).missing_set().insert(name@));
        }
        Ok(())
    }

    /// Drops `n` from the names awaiting a local file.
    fn remove_missing(&mut self, n: &String)
        ensures
            final(self).name == old(self).name,
            final(self).tiles == old(self).tiles,
            final(self).renames == old(self).renames,
            final(self).added == old(self).added,
            final(self).deleted == old(self).deleted,
            final(self).tilesheets == old(self).tilesheets,
            final(self).next == old(self).next,
            final(self).missing_set() == old(self).missing_set().remove(n@),
    {
        let mut kept: Vec<String> = Vec::new();
        let mut i: usize = 0;
        while i < self.missing.len()
            invariant
                i <= self.missing@.len(),
                forall|m: Seq<char>|
                    #[trigger] seq_has(kept@, m) <==> (m != n@ && seq_has(
                        self.missing@.subrange(0, i as int),
                        m,
                    )),
            decreases self.missing@.len() - i,
        {
            let ghost before = kept@;
            let ghost pre = self.missing@.subrange(0, i as int);
            let ghost post = self.missing@.subrange(0, i + 1);
            if self.missing[i] != *n {
                kept.push(self.missing[i].clone());
            }
            proof {
                assert forall|m: Seq<char>|
                    #[trigger] seq_has(kept@, m) <==> (m != n@ && seq_has(post, m)) by {
                    if seq_has(kept@, m) {
                        let k = choose|k: int| 0 <= k < kept@.len() && #[trigger] kept@[k]@ == m;
                        if k < before.len() {
                            assert(before[k] == kept@[k]);
                            assert(seq_has(before, m));
                            let k2 = choose|k2: int| 0 <= k2 < pre.len() && #[trigger] pre[k2]@ == m;
                            assert(post[k2] == pre[k2]);
                        } else {
                            assert(post[i as int] == self.missing@[i as int]);
                        }
                    }
                    if m != n@ && seq_has(post, m) {
                        let k = choose|k: int| 0 <= k < post.len() && #[trigger] post[k]@ == m;
                        if k < i {
                            assert(post[k] == pre[k]);
                            assert(seq_has(pre, m));
                            assert(seq_has(before, m));
                            let k2 = choose|k2: int| 0 <= k2 < before.len() && #[trigger] before[k2]@ == m;
                            assert(kept@[k2] == before[k2]);
                        } else {
                            assert(kept@[kept@.len() - 1]@ == m);
                        }
                    }
                }
            }
            i = i + 1;
        }
        proof {
            assert(self.missing@.subrange(0, i as int) =~= self.missing@);
            let ghost old_missing = self.missing@;
            assert forall|m: Seq<char>| #[trigger] seq_has(kept@, m) == old(self).missing_set().remove(n@).contains(m) by {
                assert(seq_has(old_missing, m) == old(self).missing_set().contains(m));
            }
        }
        self.missing = kept;
        assert(self.missing_set() =~= old(self).missing_set().remove(n@));
    }

    /// A scan of `stems` took `old` to `new`: the names it found that the
    /// registry lacks were appended to the additions, in order, and the names
    /// it found are no longer missing.
    pub open spec fn scan_result(old: &Self, new: &Self, stems: Seq<String>) -> bool {
        let found = scanned(old.renames@, stems);
        &&& views(new.added@) == views(old.added@) + fresh_names(
            old.renames@,
            stems,
            |n: Seq<char>| old.has_name(n),
        )
        &&& forall|n: Seq<char>|
            #[trigger] views(new.added@).contains(n) == (views(old.added@).contains(n) || (
            found.contains(n) && !old.has_name(n)))
        &&& new.missing_set() == old.missing_set().difference(found)
    }

    /// Deleting `names` took `old` to `new`: the registry lost exactly the
    /// listed names and kept its other tiles.
    pub open spec fn deletion_result(old: &Self, new: &Self, names: Seq<String>) -> bool {
        &&& forall|n: Seq<char>|
            #[trigger] new.has_name(n) == (old.has_name(n) && !seq_has(names, n))
        &&& forall|i: int|
            0 <= i < new.tiles@.len() ==> old.tiles@.contains(#[trigger] new.tiles@[i])
        &&& new.missing == old.missing
        &&& new.added == old.added
    }

    /// Takes the file stems of a local scan: each is renamed, checked, struck
    /// from the missing names, and appended to the additions when the
    /// registry lacks it. Stops at the first illegal name.
    pub fn check_changes(&mut self, stems: &Vec<String>) -> (r: Result<(), TileError>)
        requires
            old(self).wf(),
        ensures
            final(self).wf(),
            final(self).name == old(self).name,
            final(self).tiles == old(self).tiles,
            final(self).renames == old(self).renames,
            final(self).deleted == old(self).deleted,
            final(self).tilesheets == old(self).tilesheets,
            final(self).next == old(self).next,
            r is Ok <==> scan_legal(old(self).renames@, stems@),
            r matches Err(TileError::IllegalName(s)) ==> exists|i: int|
                0 <= i < stems@.len() && normalized(old(self).renames@, stems@[i]@) == Some(s@)
                    && !legal_name(s@) && scan_legal(
                    old(self).renames@,
                    #[trigger] stems@.subrange(0, i),
                ),
            r is Ok ==> Self::scan_result(old(self), final(self), stems@),
    {
        let ghost renames = self.renames@;
        let ghost known = |n: Seq<char>| old(self).has_name(n);
        let mut i: usize = 0;
        assert(stems@.subrange(0, 0) =~= Seq::<String>::empty());
        assert(old(self).missing_set().difference(scanned(renames, stems@.subrange(0, 0))) =~= old(self).missing_set());
        while i < stems.len()
            invariant
                i <= stems@.len(),
                self.wf(),
                self.name == old(self).name,
                self.tiles == old(self).tiles,
                self.renames == old(self).renames,
                self.deleted == old(self).deleted,
                self.tilesheets == old(self).tilesheets,
                self.next == old(self).next,
                renames == old(self).renames@,
                known == (|n: Seq<char>| old(self).has_name(n)),
                scan_legal(renames, stems@.subrange(0, i as int)),
                views(self.added@) == views(old(self).added@) + fresh_names(
                    renames,
                    stems@.subrange(0, i as int),
                    known,
                ),
                self.missing_set() == old(self).missing_set().difference(
                    scanned(renames, stems@.subrange(0, i as int)),
                ),
            decreases stems@.len() - i,
        {
            let ghost pre = stems@.subrange(0, i as int);
            let ghost post = stems@.subrange(0, i + 1);
            assert(post.drop_last() =~= pre);
            assert(post.last() == stems@[i as int]);
            match normalize(&self.renames, stems[i].as_str()) {
                Err(e) => {
                    proof {
                        assert(normalized(renames, stems@[i as int]@) is Some);
                        assert(!scan_legal(renames, stems@));
                        assert(scan_legal(renames, stems@.subrange(0, i as int)));
                    }
                    return Err(e);
                },
                Ok(None) => {
                    proof {
                        assert(scanned(renames, post) =~= scanned(renames, pre)) by {
                            assert forall|n: Seq<char>| scanned(renames, pre).contains(n) implies scanned(renames, post).contains(n) by {
                                let k = choose|k: int| 0 <= k < pre.len() && #[trigger] normalized(renames, pre[k]@) == Some(n);
                                assert(post[k] == pre[k]);
                            }
                            assert forall|n: Seq<char>| scanned(renames, post).contains(n) implies scanned(renames, pre).contains(n) by {
                                let k = choose|k: int| 0 <= k < post.len() && #[trigger] normalized(renames, post[k]@) == Some(n);
                                assert(post[k] == pre[k]);
                            }
                        }
                    }
                },
                Ok(Some(n)) => {
                    let ghost before_added = self.added@;
                    self.remove_missing(&n);
                    let found = self.find_tile(&n);
                    if found.is_none() {
                        self.added.push(n);
                        proof {
                            assert(views(self.added@) =~= views(before_added).push(n@));
                        }
                    }
                    proof {
                        assert(scanned(renames, post) =~= scanned(renames, pre).insert(n@)) by {
                            assert forall|m: Seq<char>| scanned(renames, pre).contains(m) implies scanned(renames, post).contains(m) by {
                                let k = choose|k: int| 0 <= k < pre.len() && #[trigger] normalized(renames, pre[k]@) == Some(m);
                                assert(post[k] == pre[k]);
                            }
                            assert(normalized(renames, post[i as int]@) == Some(n@));
                            assert forall|m: Seq<char>| scanned(renames, post).contains(m) && m != n@ implies scanned(renames, pre).contains(m) by {
                                let k = choose|k: int| 0 <= k < post.len() && #[trigger] normalized(renames, post[k]@) == Some(m);
                                assert(post[k] == pre[k]);
                            }
                        }
                        assert(self.missing_set() =~= old(self).missing_set().difference(scanned(renames, post)));
                    }
                },
            }
            proof {
                assert forall|k: int| 0 <= k < post.len() implies (#[trigger] normalized(renames, post[k]@) matches Some(m) ==> legal_name(m)) by {
                    if k < i {
                        assert(post[k] == pre[k]);
                    }
                }
            }
            i = i + 1;
        }
        assert(stems@.subrange(0, i as int) =~= stems@);
        proof {
            let fresh = fresh_names(renames, stems@, known);
            assert forall|n: Seq<char>|
                #[trigger] views(self.added@).contains(n) == (views(old(self).added@).contains(n) || (
                scanned(renames, stems@).contains(n) && !old(self).has_name(n))) by {
                lemma_fresh_names(renames, stems@, known, n);
                let a = views(old(self).added@);
                if (a + fresh).contains(n) {
                    let k = choose|k: int| 0 <= k < (a + fresh).len() && (a + fresh)[k] == n;
                    if k >= a.len() {
                        assert(fresh[k - a.len()] == n);
                    }
                }
                if a.contains(n) {
                    let k = choose|k: int| 0 <= k < a.len() && a[k] == n;
                    assert((a + fresh)[k] == n);
                }
                if fresh.contains(n) {
                    let k = choose|k: int| 0 <= k < fresh.len() && fresh[k] == n;
                    assert((a + fresh)[a.len() + k] == n);
                }
            }
        }
        Ok(())
    }

    /// Removes the tiles that `names` lists from the registry, recording the
    /// remote identifier of each for deletion. Returns the entries that named
    /// no tile, in order.
    pub fn record_deletions(&mut self, names: &Vec<String>) -> (r: Vec<String>)
        requires
            old(self).wf(),
        ensures
            final(self).wf(),
            final(self).name == old(self).name,
            final(self).renames == old(self).renames,
            final(self).added == old(self).added,
            final(self).missing == old(self).missing,
            final(self).tilesheets == old(self).tilesheets,
            final(self).next == old(self).next,
            forall|n: Seq<char>|
                #[trigger] final(self).has_name(n) == (old(self).has_name(n) && !seq_has(names@, n)),
            forall|i: int|
                0 <= i < final(self).tiles@.len() ==> old(self).tiles@.contains(
                    #[trigger] final(self).tiles@[i],
                ),
            final(self).deleted@ == old(self).deleted@ + deletion_ids(old(self).tiles@, names@),
            views(r@) == unknown_deletions(names@, |n: Seq<char>| old(self).has_name(n)),
            Self::deletion_result(old(self), final(self), names@),
    {
        let ghost known = |n: Seq<char>| old(self).has_name(n);
        let mut unknown: Vec<String> = Vec::new();
        let mut i: usize = 0;
        proof {
            assert(names@.subrange(0, 0) =~= Seq::<String>::empty());
            assert(self.deleted@ =~= old(self).deleted@ + deletion_ids(old(self).tiles@, names@.subrange(0, 0)));
            assert(views(unknown@) =~= unknown_deletions(names@.subrange(0, 0), known));
            assert forall|k: int| 0 <= k < self.tiles@.len() implies old(self).tiles@.contains(
                #[trigger] self.tiles@[k],
            ) by {
                assert(self.tiles@[k] == old(self).tiles@[k]);
            }
        }
        while i < names.len()
            invariant
                i <= names@.len(),
                self.wf(),
                self.name == old(self).name,
                self.renames == old(self).renames,
                self.added == old(self).added,
                self.missing == old(self).missing,
                self.tilesheets == old(self).tilesheets,
                self.next == old(self).next,
                known == (|n: Seq<char>| old(self).has_name(n)),
                forall|n: Seq<char>|
                    #[trigger] self.has_name(n) == (old(self).has_name(n) && !seq_has(
                        names@.subrange(0, i as int),
                        n,
                    )),
                old(self).wf(),
                forall|k: int|
                    0 <= k < self.tiles@.len() ==> old(self).tiles@.contains(
                        #[trigger] self.tiles@[k],
                    ),
                self.deleted@ == old(self).deleted@ + deletion_ids(
                    old(self).tiles@,
                    names@.subrange(0, i as int),
                ),
                views(unknown@) == unknown_deletions(names@.subrange(0, i as int), known),
            decreases names@.len() - i,
        {
            let ghost pre = names@.subrange(0, i as int);
            let ghost post = names@.subrange(0, i + 1);
            let ghost n = names@[i as int]@;
            assert(post.drop_last() =~= pre);
            assert(post.last() == names@[i as int]);
            assert forall|m: Seq<char>| #[trigger] seq_has(post, m) == (seq_has(pre, m) || m == n) by {
                if seq_has(post, m) {
                    let k = choose|k: int| 0 <= k < post.len() && #[trigger] post[k]@ == m;
                    if k < i {
                        assert(pre[k] == post[k]);
                    }
                }
                if seq_has(pre, m) {
                    let k = choose|k: int| 0 <= k < pre.len() && #[trigger] pre[k]@ == m;
                    assert(pre[k] == post[k]);
                }
                if m == n {
                    assert(post[i as int]@ == m);
                }
            }
            let ghost tiles_before = self.tiles@;
            let ghost deleted_before = self.deleted@;
            assert forall|m: Seq<char>|
                #[trigger] tiles_have(tiles_before, m) == (old(self).has_name(m) && !seq_has(pre, m)) by {
                assert(self.has_name(m) == (old(self).has_name(m) && !seq_has(pre, m)));
            }
            match self.find_tile(&names[i]) {
                Some(t) => {
                    let tile = self.tiles.remove(t);
                    proof {
                        assert(tile == tiles_before[t as int]);
                        assert(self.tiles@ == tiles_before.remove(t as int));
                    }
                    match tile.id {
                        Some(id) => {
                            self.deleted.push(id);
                        },
                        None => {},
                    }
                    proof {
                        let tb = tiles_before;
                        // names: only `n` leaves
                        assert forall|m: Seq<char>| #[trigger] self.has_name(m) == (old(self).has_name(m) && !seq_has(post, m)) by {
                            if self.has_name(m) {
                                let k = choose|k: int| 0 <= k < self.tiles@.len() && #[trigger] self.tiles@[k].name@ == m;
                                let k2 = if k < t { k } else { k + 1 };
                                assert(self.tiles@[k] == tb[k2]);
                                assert(k2 != t);
                                if k2 < t {
                                    assert(tb[k2].name@ != tb[t as int].name@);
                                } else {
                                    assert(tb[t as int].name@ != tb[k2].name@);
                                }
                                assert(tb[t as int].name@ == n);
                                assert(tb[k2].name@ == m);
                                assert(tiles_have(tb, m));
                                assert(old(self).has_name(m) && !seq_has(pre, m));
                                assert(m != n);
                                assert(!seq_has(post, m));
                            }
                            if old(self).has_name(m) && !seq_has(post, m) {
                                assert(m != n);
                                assert(tiles_have(tb, m));
                                let k = choose|k: int| 0 <= k < tb.len() && #[trigger] tb[k].name@ == m;
                                assert(k != t);
                                if k < t {
                                    assert(self.tiles@[k] == tb[k]);
                                } else {
                                    assert(self.tiles@[k - 1] == tb[k]);
                                }
                            }
                        }
                        assert forall|k: int| 0 <= k < self.tiles@.len() implies old(self).tiles@.contains(
                            #[trigger] self.tiles@[k],
                        ) by {
                            let k2 = if k < t { k } else { k + 1 };
                            assert(self.tiles@[k] == tb[k2]);
                            assert(old(self).tiles@.contains(tb[k2]));
                        }
                        assert forall|a: int, b: int|
                            0 <= a < b < self.tiles@.len() implies #[trigger] self.tiles@[a].name@
                            != #[trigger] self.tiles@[b].name@ by {
                            let a2 = if a < t { a } else { a + 1 };
                            let b2 = if b < t { b } else { b + 1 };
                            assert(self.tiles@[a] == tb[a2]);
                            assert(self.tiles@[b] == tb[b2]);
                        }
                        assert forall|a: int, b: int|
                            0 <= a < b < self.tiles@.len() implies #[trigger] self.tiles@[a].pos
                            != #[trigger] self.tiles@[b].pos by {
                            let a2 = if a < t { a } else { a + 1 };
                            let b2 = if b < t { b } else { b + 1 };
                            assert(self.tiles@[a] == tb[a2]);
                            assert(self.tiles@[b] == tb[b2]);
                        }
                        // the tile found is the old tile of that name
                        assert(old(self).tiles@.contains(tb[t as int]));
                        let j0 = choose|j: int| 0 <= j < old(self).tiles@.len() && old(self).tiles@[j] == tb[t as int];
                        assert(old(self).tiles@[j0].name@ == n);
                        let j = choose|j: int| 0 <= j < old(self).tiles@.len() && old(self).tiles@[j].name@ == n;
                        assert(j == j0) by {
                            if j != j0 {
                                if j < j0 {
                                    assert(old(self).tiles@[j].name@ != old(self).tiles@[j0].name@);
                                } else {
                                    assert(old(self).tiles@[j0].name@ != old(self).tiles@[j].name@);
                                }
                            }
                        }
                        assert(id_named(old(self).tiles@, n) == tile.id);
                        assert(tiles_have(old(self).tiles@, n));
                        assert(!seq_has(pre, n));
                        if tile.id is Some {
                            assert(deletion_ids(old(self).tiles@, post) == deletion_ids(old(self).tiles@, pre).push(tile.id->Some_0));
                            assert(self.deleted@ =~= old(self).deleted@ + deletion_ids(old(self).tiles@, post));
                        } else {
                            assert(self.deleted@ =~= old(self).deleted@ + deletion_ids(old(self).tiles@, post));
                        }
                        assert(self.has_name(n) == false);
                        assert(old(self).has_name(n) && !seq_has(pre, n));
                        assert(views(unknown@) =~= unknown_deletions(post, known));
                    }
                },
                None => {
                    unknown.push(names[i].clone());
                    proof {
                        assert forall|m: Seq<char>| #[trigger] self.has_name(m) == (old(self).has_name(m) && !seq_has(post, m)) by {
                            if m == n {
                                assert(!self.has_name(n));
                            }
                        }
                        assert(!(old(self).has_name(n) && !seq_has(pre, n)));
                        assert(views(unknown@) =~= unknown_deletions(pre, known).push(n));
                        assert(views(unknown@) =~= unknown_deletions(post, known));
                        assert(!(tiles_have(old(self).tiles@, n) && !seq_has(pre, n)));
                        assert(deletion_ids(old(self).tiles@, post) == deletion_ids(old(self).tiles@, pre));
                    }
                },
            }
            i = i + 1;
        }
        assert(names@.subrange(0, i as int) =~= names@);
        unknown
    }

    /// What `lookup(name)` does to the registry and cursor, returning `r`.
    pub open spec fn lookup_post(old: &Self, new: &Self, name: Seq<char>, r: Option<TilePos>) -> bool {
        &&& (old.has_name(name) ==> {
                &&& new.tiles == old.tiles
                &&& new.next == old.next
                &&& r matches Some(p) && exists|i: int|
                    0 <= i < old.tiles@.len() && old.tiles@[i].name@ == name
                        && old.tiles@[i].pos == p
            })
        &&& (!old.has_name(name) && r is Some ==> {
                let p = r->Some_0;
                &&& exists|k: nat|
                    first_free(|q: TilePos| old.occupies(q), cursor_of(old.next), k)
                        && cursor_of(new.next) == advance_n(cursor_of(old.next), k)
                &&& p == candidate(cursor_of(new.next))
                &&& new.tiles@.len() == old.tiles@.len() + 1
                &&& new.tiles@.drop_last() == old.tiles@
                &&& new.tiles@.last().name@ == name
                &&& new.tiles@.last().pos == p
                &&& new.tiles@.last().id is None
            })
        &&& (!old.has_name(name) && r is None ==> {
                &&& new.tiles == old.tiles
                &&& new.next == old.next
                &&& forall|k: nat| #[trigger]
                    advance_n(cursor_of(old.next), k).2 <= u32::MAX ==> old.occupies(
                        candidate(advance_n(cursor_of(old.next), k)),
                    )
            })
    }

    /// The cell of tile `name`. A name not yet in the registry gets the first
    /// free cell of the diagonal fill from the cursor on, and the cursor stays
    /// on that cell; `None` when every cell up to the last layer is taken.
    pub fn lookup(&mut self, name: &str) -> (r: Option<TilePos>)
        requires
            old(self).wf(),
        ensures
            final(self).wf(),
            final(self).name == old(self).name,
            final(self).renames == old(self).renames,
            final(self).added == old(self).added,
            final(self).missing == old(self).missing,
            final(self).deleted == old(self).deleted,
            final(self).tilesheets == old(self).tilesheets,
            Self::lookup_post(old(self), final(self), name@, r),
            r is Some ==> final(self).names() == old(self).names().insert(name@),
    {
        let key = name.to_owned();
        match self.find_tile(&key) {
            Some(i) => {
                return Some(self.tiles[i].pos);
            },
            None => {},
        }
        let ghost start = cursor_of(self.next);
        let ghost occ = |q: TilePos| self.occupies(q);
        let mut a: u32 = self.next.0;
        let mut b: u32 = self.next.1;
        let mut z: u32 = self.next.2;
        let ghost mut k: nat = 0;
        let mut pos = TilePos { x: 0, y: 0, z: 0 };
        loop
            invariant
                self.wf(),
                self == old(self),
                start == cursor_of(old(self).next),
                occ == (|q: TilePos| self.occupies(q)),
                !self.has_name(name@),
                (a as int, b as int, z as int) == advance_n(start, k),
                cursor_valid((a as int, b as int, z as int)),
                forall|j: nat| j < k ==> #[trigger] occ(candidate(advance_n(start, j))),
            ensures
                self == old(self),
                (a as int, b as int, z as int) == advance_n(start, k),
                pos == candidate(advance_n(start, k)),
                !occ(pos),
                forall|j: nat| j < k ==> #[trigger] occ(candidate(advance_n(start, j))),
            decreases (u32::MAX - z) * 20000 + (MAX_SIZE - a) * 200 + (200 - b),
        {
            pos = if b < a {
                TilePos { x: b, y: a, z }
            } else {
                TilePos { x: a, y: b - a, z }
            };
            assert(pos == candidate(advance_n(start, k)));
            if !self.is_occupied(pos) {
                break;
            }
            if b + 1 > 2 * a {
                if a + 1 == MAX_SIZE {
                    if z == u32::MAX {
                        proof {
                            assert forall|j: nat| #[trigger]
                                advance_n(start, j).2 <= u32::MAX implies occ(
                                candidate(advance_n(start, j)),
                            ) by {
                                if j > k {
                                    lemma_past_layer(start, k, j);
                                }
                            }
                        }
                        return None;
                    }
                    a = 0;
                    b = 0;
                    z = z + 1;
                } else {
                    a = a + 1;
                    b = 0;
                }
            } else {
                b = b + 1;
            }
            proof {
                k = k + 1;
            }
        }
        self.next = (a, b, z);
        self.tiles.push(Tile { name: key, pos, id: None });
        proof {
            assert(self.tiles@.drop_last() =~= old(self).tiles@);
            assert(first_free(occ, start, k));
            assert forall|i: int, j: int|
                0 <= i < j < self.tiles@.len() implies #[trigger] self.tiles@[i].pos
                != #[trigger] self.tiles@[j].pos by {
                if j == self.tiles@.len() - 1 {
                    assert(old(self).tiles@[i].pos == self.tiles@[i].pos);
                }
            }
            assert forall|i: int, j: int|
                0 <= i < j < self.tiles@.len() implies #[trigger] self.tiles@[i].name@
                != #[trigger] self.tiles@[j].name@ by {
                if j == self.tiles@.len() - 1 {
                    assert(old(self).tiles@[i].name@ == self.tiles@[i].name@);
                }
            }
            assert forall|m: Seq<char>|
                #[trigger] self.names().contains(m) == old(self).names().insert(name@).contains(m) by {
                if tiles_have(self.tiles@, m) {
                    let q = choose|q: int| 0 <= q < self.tiles@.len() && #[trigger] self.tiles@[q].name@ == m;
                    if q < old(self).tiles@.len() {
                        assert(self.tiles@[q] == old(self).tiles@[q]);
                        assert(tiles_have(old(self).tiles@, m));
                    }
                }
                if tiles_have(old(self).tiles@, m) {
                    let q = choose|q: int| 0 <= q < old(self).tiles@.len() && #[trigger] old(self).tiles@[q].name@ == m;
                    assert(self.tiles@[q] == old(self).tiles@[q]);
                    assert(tiles_have(self.tiles@, m));
                }
                if m == name@ {
                    assert(self.tiles@[self.tiles@.len() - 1].name@ == m);
                    assert(tiles_have(self.tiles@, m));
                }
            }
            assert(self.names() =~= old(self).names().insert(name@));
        }
        Some(pos)
    }

    /// Every sheet is well formed.
    pub open spec fn sheets_wf(&self) -> bool {
        forall|k: int| 0 <= k < self.tilesheets@.len() ==> #[trigger] self.tilesheets@[k].wf()
    }

    /// Every sheet can take its rendering of the tile at `pos`.
    pub open spec fn all_fit(&self, pos: TilePos, renders: Seq<Raster>) -> bool {
        &&& renders.len() >= self.tilesheets@.len()
        &&& forall|k: int|
            0 <= k < self.tilesheets@.len() ==> #[trigger] self.tilesheets@[k].insert_fits(
                pos,
                &renders[k],
            )
    }

    /// Finds or allocates the cell of tile `name` and writes into each sheet
    /// the rendering of the tile at that sheet's cell size (`renders[k]` for
    /// sheet `k`).
    pub fn place_tile(&mut self, name: &str, renders: &Vec<Raster>) -> (r: Result<TilePos, PlaceError>)
        requires
            old(self).wf(),
            old(self).sheets_wf(),
        ensures
            final(self).wf(),
            final(self).sheets_wf(),
            final(self).name == old(self).name,
            final(self).renames == old(self).renames,
            final(self).added == old(self).added,
            final(self).missing == old(self).missing,
            final(self).deleted == old(self).deleted,
            Self::lookup_post(
                old(self),
                final(self),
                name@,
                match r {
                    Ok(p) => Some(p),
                    Err(PlaceError::Unfit(p)) => Some(p),
                    Err(PlaceError::Full) => None,
                },
            ),
            r matches Err(PlaceError::Unfit(p)) ==> !old(self).all_fit(p, renders@),
            r matches Ok(p) ==> old(self).all_fit(p, renders@),
            r is Err ==> final(self).tilesheets == old(self).tilesheets,
            r matches Ok(p) ==> {
                &&& final(self).tilesheets@.len() == old(self).tilesheets@.len()
                &&& forall|k: int|
                    0 <= k < old(self).tilesheets@.len() ==> #[trigger] Sheet::inserted(
                        &old(self).tilesheets@[k],
                        &final(self).tilesheets@[k],
                        p,
                        &renders@[k],
                    )
            },
    {
        let pos = match self.lookup(name) {
            Some(p) => p,
            None => {
                return Err(PlaceError::Full);
            },
        };
        let ghost s1 = *self;
        if renders.len() < self.tilesheets.len() {
            return Err(PlaceError::Unfit(pos));
        }
        let mut k: usize = 0;
        while k < self.tilesheets.len()
            invariant
                *self == s1,
                s1.wf(),
                s1.name == old(self).name,
                s1.renames == old(self).renames,
                s1.added == old(self).added,
                s1.missing == old(self).missing,
                s1.deleted == old(self).deleted,
                s1.tilesheets == old(self).tilesheets,
                Self::lookup_post(old(self), &s1, name@, Some(pos)),
                k <= self.tilesheets@.len(),
                self.sheets_wf(),
                renders@.len() >= self.tilesheets@.len(),
                forall|j: int| 0 <= j < k ==> #[trigger] self.tilesheets@[j].insert_fits(pos, &renders@[j]),
            decreases self.tilesheets@.len() - k,
        {
            if !self.tilesheets[k].can_insert(pos, &renders[k]) {
                return Err(PlaceError::Unfit(pos));
            }
            k = k + 1;
        }
        let ghost sheets0 = self.tilesheets@;
        let n = self.tilesheets.len();
        let mut k: usize = 0;
        while k < n
            invariant
                self.tiles == s1.tiles,
                self.next == s1.next,
                self.name == s1.name,
                self.renames == s1.renames,
                self.added == s1.added,
                self.missing == s1.missing,
                self.deleted == s1.deleted,
                k <= n,
                n == sheets0.len(),
                self.tilesheets@.len() == n,
                renders@.len() >= n,
                forall|j: int| 0 <= j < n ==> #[trigger] sheets0[j].insert_fits(pos, &renders@[j]),
                forall|j: int| k <= j < n ==> #[trigger] self.tilesheets@[j] == sheets0[j],
                forall|j: int| 0 <= j < k ==> #[trigger] Sheet::inserted(&sheets0[j], &self.tilesheets@[j], pos, &renders@[j]),
            decreases n - k,
        {
            let mut sheet = Sheet::new(0);
            self.tilesheets.set_and_swap(k, &mut sheet);
            assert(sheet == sheets0[k as int]);
            sheet.insert(pos, &renders[k]);
            self.tilesheets.set(k, sheet);
            k = k + 1;
        }
        proof {
            assert forall|j: int| 0 <= j < self.tilesheets@.len() implies #[trigger] self.tilesheets@[j].wf() by {
                assert(Sheet::inserted(&sheets0[j], &self.tilesheets@[j], pos, &renders@[j]));
            }
        }
        Ok(pos)
    }

    /// The cell of the tile named `n`.
    pub open spec fn pos_of(&self, n: Seq<char>) -> TilePos {
        self.tiles@[choose|j: int| 0 <= j < self.tiles@.len() && self.tiles@[j].name@ == n].pos
    }

    /// The identifiers recorded for deletion, as registry requests of at
    /// most `BATCH_SIZE` identifiers joined with `|`.
    pub fn deletion_batches(&self) -> (r: Vec<String>)
        ensures
            r@.len() == batch_count(self.deleted@.len() as int),
            forall|c: int|
                0 <= c < r@.len() ==> #[trigger] r@[c]@ == join_bar(
                    batch(self.deleted@.map_values(|id: u64| decimal_digits(id as nat)), c),
                ),
    {
        let mut parts: Vec<String> = Vec::new();
        let mut i: usize = 0;
        while i < self.deleted.len()
            invariant
                i <= self.deleted@.len(),
                parts@.len() == i,
                forall|k: int| 0 <= k < i ==> #[trigger] parts@[k]@ == decimal_digits(self.deleted@[k] as nat),
            decreases self.deleted@.len() - i,
        {
            parts.push(decimal(self.deleted[i]));
            i = i + 1;
        }
        assert(parts@.map_values(|p: String| p@) =~= self.deleted@.map_values(|id: u64| decimal_digits(id as nat)));
        batches(&parts)
    }

    /// The additions as registry requests of at most `BATCH_SIZE` entries
    /// `x y z name` joined with `|`; `None` where an addition has no tile.
    pub fn addition_batches(&self) -> (r: Option<Vec<String>>)
        requires
            self.wf(),
        ensures
            r is None <==> exists|i: int| 0 <= i < self.added@.len() && !self.has_name(#[trigger] self.added@[i]@),
            r matches Some(v) ==> {
                let parts = self.added@.map_values(|n: String| tile_entry(self.pos_of(n@), n@));
                &&& v@.len() == batch_count(parts.len() as int)
                &&& forall|c: int| 0 <= c < v@.len() ==> #[trigger] v@[c]@ == join_bar(batch(parts, c))
            },
    {
        let mut parts: Vec<String> = Vec::new();
        let mut i: usize = 0;
        while i < self.added.len()
            invariant
                self.wf(),
                i <= self.added@.len(),
                parts@.len() == i,
                forall|k: int| 0 <= k < i ==> self.has_name(#[trigger] self.added@[k]@),
                forall|k: int| 0 <= k < i ==> #[trigger] parts@[k]@ == tile_entry(self.pos_of(self.added@[k]@), self.added@[k]@),
            decreases self.added@.len() - i,
        {
            let t = match self.find_tile(&self.added[i]) {
                Some(t) => t,
                None => {
                    return None;
                },
            };
            let p = self.tiles[t].pos;
            proof {
                let n = self.added@[i as int]@;
                let j = choose|j: int| 0 <= j < self.tiles@.len() && self.tiles@[j].name@ == n;
                if j != t {
                    if j < t {
                        assert(self.tiles@[j].name@ != self.tiles@[t as int].name@);
                    } else {
                        assert(self.tiles@[t as int].name@ != self.tiles@[j].name@);
                    }
                }
                assert(self.pos_of(n) == p);
                reveal_strlit(" ");
            }
            let mut e = decimal(p.x as u64);
            e.append(" ");
            e.append(decimal(p.y as u64).as_str());
            e.append(" ");
            e.append(decimal(p.z as u64).as_str());
            e.append(" ");
            e.append(self.added[i].as_str());
            parts.push(e);
            i = i + 1;
        }
        assert(parts@.map_values(|p: String| p@) =~= self.added@.map_values(|n: String| tile_entry(self.pos_of(n@), n@)));
        Some(batches(&parts))
    }
}

/// Allocation is deterministic: two runs of `lookup(name)` from the same
/// registry and cursor return the same cell and leave the cursor in the same
/// place.
pub proof fn lemma_lookup_deterministic(
    old: TilesheetManager,
    new1: TilesheetManager,
    new2: TilesheetManager,
    name: Seq<char>,
    r1: Option<TilePos>,
    r2: Option<TilePos>,
)
    requires
        old.wf(),
        TilesheetManager::lookup_post(&old, &new1, name, r1),
        TilesheetManager::lookup_post(&old, &new2, name, r2),
    ensures
        r1 == r2,
        new1.next == new2.next,
{
    if old.has_name(name) {
        let i1 = choose|i: int|
            0 <= i < old.tiles@.len() && old.tiles@[i].name@ == name && old.tiles@[i].pos == r1->Some_0;
        let i2 = choose|i: int|
            0 <= i < old.tiles@.len() && old.tiles@[i].name@ == name && old.tiles@[i].pos == r2->Some_0;
        if i1 < i2 {
            assert(old.tiles@[i1].name@ != old.tiles@[i2].name@);
        } else if i2 < i1 {
            assert(old.tiles@[i2].name@ != old.tiles@[i1].name@);
        }
    } else {
        let occ = |q: TilePos| old.occupies(q);
        let start = cursor_of(old.next);
        if r1 is Some && r2 is Some {
            let k1 = choose|k: nat| first_free(occ, start, k) && cursor_of(new1.next) == advance_n(start, k);
            let k2 = choose|k: nat| first_free(occ, start, k) && cursor_of(new2.next) == advance_n(start, k);
            lemma_first_free_unique(occ, start, k1, k2);
        } else if r1 is Some && r2 is None {
            let k1 = choose|k: nat| first_free(occ, start, k) && cursor_of(new1.next) == advance_n(start, k);
            assert(advance_n(start, k1).2 <= u32::MAX);
            assert(old.occupies(candidate(advance_n(start, k1))));
        } else if r1 is None && r2 is Some {
            let k2 = choose|k: nat| first_free(occ, start, k) && cursor_of(new2.next) == advance_n(start, k);
            assert(advance_n(start, k2).2 <= u32::MAX);
            assert(old.occupies(candidate(advance_n(start, k2))));
        }
    }
}

/// Allocation is idempotent: once `lookup(name)` has returned a cell, a
/// second `lookup(name)` returns the same cell and moves neither the cursor
/// nor the registry.
pub proof fn lemma_lookup_idempotent(
    m0: TilesheetManager,
    m1: TilesheetManager,
    m2: TilesheetManager,
    name: Seq<char>,
    p: TilePos,
    r2: Option<TilePos>,
)
    requires
        m0.wf(),
        m1.wf(),
        TilesheetManager::lookup_post(&m0, &m1, name, Some(p)),
        TilesheetManager::lookup_post(&m1, &m2, name, r2),
    ensures
        r2 == Some(p),
        m2.next == m1.next,
        m2.tiles == m1.tiles,
{
    let j = if m0.has_name(name) {
        choose|i: int| 0 <= i < m0.tiles@.len() && m0.tiles@[i].name@ == name && m0.tiles@[i].pos == p
    } else {
        m1.tiles@.len() - 1
    };
    if !m0.has_name(name) {
        assert(m1.tiles@[j] == m1.tiles@.last());
    }
    assert(m1.tiles@[j].name@ == name && m1.tiles@[j].pos == p);
    assert(m1.has_name(name));
    let i = choose|i: int|
        0 <= i < m1.tiles@.len() && m1.tiles@[i].name@ == name && m1.tiles@[i].pos == r2->Some_0;
    if i < j {
        assert(m1.tiles@[i].name@ != m1.tiles@[j].name@);
    } else if j < i {
        assert(m1.tiles@[j].name@ != m1.tiles@[i].name@);
    }
}

/// The set of names that a list of strings holds.
pub open spec fn name_set(v: Seq<String>) -> Set<Seq<char>> {
    Set::new(|n: Seq<char>| seq_has(v, n))
}

/// Reconciliation is complete. Start from a registry `R` with every name
/// missing and no additions, and scan `L`: the additions are `L \ R` and the
/// missing names `R \ L`. Delete `D`, a part of the missing names: the
/// registry holds `R \ D`. Allocate every scanned name: it holds
/// `(R \ D) ∪ (L \ R)`.
pub proof fn lemma_reconciliation(
    m0: TilesheetManager,
    m1: TilesheetManager,
    m2: TilesheetManager,
    stems: Seq<String>,
    deletions: Seq<String>,
)
    requires
        m0.added@.len() == 0,
        m0.missing_set() == m0.names(),
        TilesheetManager::scan_result(&m0, &m1, stems),
        m1.tiles == m0.tiles,
        name_set(deletions).subset_of(m1.missing_set()),
        TilesheetManager::deletion_result(&m1, &m2, deletions),
    ensures
        name_set(m1.added@) == scanned(m0.renames@, stems).difference(m0.names()),
        m1.missing_set() == m0.names().difference(scanned(m0.renames@, stems)),
        m2.names() == m0.names().difference(name_set(deletions)),
        m2.names().union(scanned(m0.renames@, stems)) == m0.names().difference(
            name_set(deletions),
        ).union(scanned(m0.renames@, stems).difference(m0.names())),
{
    let found = scanned(m0.renames@, stems);
    let r = m0.names();
    let d = name_set(deletions);
    assert forall|n: Seq<char>| #[trigger] name_set(m1.added@).contains(n) == found.difference(r).contains(n) by {
        assert(views(m0.added@).len() == 0);
        if seq_has(m1.added@, n) {
            let k = choose|k: int| 0 <= k < m1.added@.len() && #[trigger] m1.added@[k]@ == n;
            assert(views(m1.added@)[k] == n);
        }
        if views(m1.added@).contains(n) {
            let k = choose|k: int| 0 <= k < views(m1.added@).len() && views(m1.added@)[k] == n;
            assert(m1.added@[k]@ == n);
        }
        assert(r.contains(n) == m0.has_name(n));
    }
    assert(name_set(m1.added@) =~= found.difference(r));
    assert(m1.missing_set() =~= r.difference(found));
    assert forall|n: Seq<char>| #[trigger] m2.names().contains(n) == r.difference(d).contains(n) by {
        assert(m2.names().contains(n) == m2.has_name(n));
        assert(m1.has_name(n) == m0.has_name(n));
    }
    assert(m2.names() =~= r.difference(d));
    assert forall|n: Seq<char>| #[trigger] d.contains(n) implies !found.contains(n) by {
        assert(m1.missing_set().contains(n));
    }
    assert(r.difference(d).union(found) =~= r.difference(d).union(found.difference(r)));
}

/// Placing a tile puts its name in the registry: after `lookup(name)`
/// returns a cell, the names are the old names and `name`.
pub proof fn lemma_lookup_names(old: TilesheetManager, new: TilesheetManager, name: Seq<char>, p: TilePos)
    requires
        old.wf(),
        TilesheetManager::lookup_post(&old, &new, name, Some(p)),
    ensures
        new.names() == old.names().insert(name),
{
    if old.has_name(name) {
        assert(new.names() =~= old.names().insert(name));
    } else {
        assert forall|m: Seq<char>| #[trigger] new.names().contains(m) == old.names().insert(name).contains(m) by {
            let last = new.tiles@.len() - 1;
            if tiles_have(new.tiles@, m) {
                let q = choose|q: int| 0 <= q < new.tiles@.len() && #[trigger] new.tiles@[q].name@ == m;
                if q < last {
                    assert(new.tiles@[q] == new.tiles@.drop_last()[q]);
                    assert(tiles_have(old.tiles@, m));
                }
            }
            if tiles_have(old.tiles@, m) {
                let q = choose|q: int| 0 <= q < old.tiles@.len() && #[trigger] old.tiles@[q].name@ == m;
                assert(new.tiles@.drop_last()[q] == new.tiles@[q]);
                assert(tiles_have(new.tiles@, m));
            }
            if m == name {
                assert(new.tiles@[last].name@ == m);
                assert(tiles_have(new.tiles@, m));
            }
        }
        assert(new.names() =~= old.names().insert(name));
    }
}

/// A run of placements, state `k` to state `k + 1` placing `names[k]`, ends
/// with the registry's first names and every placed name.
pub proof fn lemma_placement_run(
    states: Seq<TilesheetManager>,
    names: Seq<Seq<char>>,
    cells: Seq<TilePos>,
)
    requires
        states.len() == names.len() + 1,
        cells.len() == names.len(),
        forall|k: int| 0 <= k < states.len() ==> #[trigger] states[k].wf(),
        forall|k: int|
            0 <= k < names.len() ==> #[trigger] TilesheetManager::lookup_post(
                &states[k],
                &states[k + 1],
                names[k],
                Some(cells[k]),
            ),
    ensures
        states.last().names() == states[0].names().union(names.to_set()),
    decreases names.len(),
{
    if names.len() == 0 {
        assert(names.to_set() =~= Set::<Seq<char>>::empty());
        assert(states[0].names().union(names.to_set()) =~= states[0].names());
    } else {
        let k = names.len() - 1;
        let init_states = states.drop_last();
        let init_names = names.drop_last();
        assert forall|j: int| 0 <= j < init_names.len() implies #[trigger] TilesheetManager::lookup_post(
            &init_states[j],
            &init_states[j + 1],
            init_names[j],
            Some(cells.drop_last()[j]),
        ) by {
            assert(TilesheetManager::lookup_post(&states[j], &states[j + 1], names[j], Some(cells[j])));
        }
        assert forall|j: int| 0 <= j < init_states.len() implies #[trigger] init_states[j].wf() by {
            assert(states[j].wf());
        }
        lemma_placement_run(init_states, init_names, cells.drop_last());
        assert(TilesheetManager::lookup_post(&states[k], &states[k + 1], names[k], Some(cells[k])));
        lemma_lookup_names(states[k], states[k + 1], names[k], cells[k]);
        assert(init_states.last() == states[k]);
        assert(names.to_set() =~= init_names.to_set().insert(names[k])) by {
            assert forall|m: Seq<char>| #[trigger] names.to_set().contains(m) == init_names.to_set().insert(names[k]).contains(m) by {
                if names.contains(m) {
                    let q = choose|q: int| 0 <= q < names.len() && names[q] == m;
                    if q < k {
                        assert(init_names[q] == m);
                    }
                }
                if init_names.contains(m) {
                    let q = choose|q: int| 0 <= q < init_names.len() && init_names[q] == m;
                    assert(names[q] == m);
                }
                if m == names[k] {
                    assert(names.contains(m));
                }
            }
        }
        assert(states.last().names() =~= states[0].names().union(names.to_set()));
    }
}

/// Once the cursor stands on the last cell of the last layer, every later
/// cursor lies past that layer.
proof fn lemma_past_layer(c: Cursor, k: nat, j: nat)
    requires
        cursor_valid(c),
        advance_n(c, k).0 + 1 == MAX_SIZE,
        advance_n(c, k).1 + 1 > 2 * advance_n(c, k).0,
        advance_n(c, k).2 == u32::MAX,
        j > k,
    ensures
        advance_n(c, j).2 > u32::MAX,
    decreases j - k,
{
    if j == k + 1 {
    } else {
        lemma_past_layer(c, k, (j - 1) as nat);
        lemma_advance_valid(c, (j - 1) as nat);
    }
}

} // verus!
