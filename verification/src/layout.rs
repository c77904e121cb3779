//! Venue layout: the [`Block`] island table, serpentine expansion into [`Space`]s, and
//! the join of a want-list against a layout.
//!
//! The geometry of a placed space (metres along and across its island, global
//! coordinates, face-crossing points) is real-valued and is derived outside this
//! library from the integer placement computed here: the face a space sits on and its
//! depth along the island, counted in desks.

use vstd::prelude::*;

use crate::error::CometError;
use crate::space::{
    building_code, canonical_of_text, canonical_text, lemma_canonical_of_text, space_id_rejection,
    Building, Side, SpaceId,
};
use crate::text::{
    chars_of, decimal, decimal_chars, is_blank, is_digit, is_white_space, lemma_decimal_digits,
    push_chars, string_of, white_space,
};

verus! {

/// A cardinal direction in the global frame (x = East, y = North).
#[derive(Debug, Clone, Copy, PartialEq, Eq, Structural)]
pub enum Dir {
    /// North (+y).
    N,
    /// South (−y).
    S,
    /// East (+x).
    E,
    /// West (−x).
    W,
}

/// What sort of run a block is.
#[derive(Debug, Clone, Copy, PartialEq, Eq, Structural)]
pub enum BlockKind {
    /// A standard double-faced island: serpentine up face 0, back down face 1.
    Island,
    /// A 壁サークル run along a wall: a single face whose numbers increase linearly.
    Wall,
}

impl Default for BlockKind {
    fn default() -> (r: Self)
        ensures
            r == BlockKind::Island,
    {
        BlockKind::Island
    }
}

/// The hall-cluster id of a `(building, hall)`, matching the inter-hall distance
/// matrix nodes: East 1-3 / 4-6 / 7-8 are grouped, West 1-2 grouped, South per hall,
/// anything else named by its building letter and hall.
pub open spec fn cluster_name(building: Building, hall: u8) -> Seq<char> {
    match building {
        Building::East => if 1 <= hall <= 3 {
            "E1-3"@
        } else if 4 <= hall <= 6 {
            "E4-6"@
        } else if 7 <= hall <= 8 {
            "E7-8"@
        } else {
            seq!['E'] + decimal(hall as nat)
        },
        Building::West => if 1 <= hall <= 2 {
            "W1-2"@
        } else {
            seq!['W'] + decimal(hall as nat)
        },
        Building::South => seq!['S'] + decimal(hall as nat),
    }
}

/// `(b1, h1)` and `(b2, h2)` lie in the same hall cluster: the same building, and the
/// same hall or one of the grouped ranges (East 1-3, 4-6, 7-8; West 1-2).
pub open spec fn same_cluster(b1: Building, h1: u8, b2: Building, h2: u8) -> bool {
    &&& b1 == b2
    &&& {
        ||| h1 == h2
        ||| b1 == Building::East && 1 <= h1 <= 3 && 1 <= h2 <= 3
        ||| b1 == Building::East && 4 <= h1 <= 6 && 4 <= h2 <= 6
        ||| b1 == Building::East && 7 <= h1 <= 8 && 7 <= h2 <= 8
        ||| b1 == Building::West && 1 <= h1 <= 2 && 1 <= h2 <= 2
    }
}

/// `(b, h)` belongs to one of the grouped hall ranges.
spec fn grouped_hall(b: Building, h: u8) -> bool {
    (b == Building::East && 1 <= h <= 8) || (b == Building::West && 1 <= h <= 2)
}

/// The shape of a cluster name: the building letter first; a grouped range is four
/// characters with a `-` third; any other hall is the letter and the hall's decimal.
proof fn lemma_cluster_name_shape(b: Building, h: u8)
    ensures
        cluster_name(b, h).len() >= 2,
        cluster_name(b, h)[0] == building_code(b),
        grouped_hall(b, h) ==> cluster_name(b, h).len() == 4 && cluster_name(b, h)[2] == '-',
        !grouped_hall(b, h) ==> cluster_name(b, h) == seq![building_code(b)] + decimal(
            h as nat,
        ),
{
    reveal_strlit("E1-3");
    reveal_strlit("E4-6");
    reveal_strlit("E7-8");
    reveal_strlit("W1-2");
    lemma_decimal_digits(h as nat);
}

/// Two `(building, hall)` pairs get the same cluster name exactly when they lie in the
/// same cluster, and every name starts with its building's letter.
pub proof fn lemma_cluster_name_identifies(b1: Building, h1: u8, b2: Building, h2: u8)
    ensures
        cluster_name(b1, h1) == cluster_name(b2, h2) <==> same_cluster(b1, h1, b2, h2),
        cluster_name(b1, h1)[0] == building_code(b1),
{
    reveal_strlit("E1-3");
    reveal_strlit("E4-6");
    reveal_strlit("E7-8");
    reveal_strlit("W1-2");
    lemma_cluster_name_shape(b1, h1);
    lemma_cluster_name_shape(b2, h2);
    let n1 = cluster_name(b1, h1);
    let n2 = cluster_name(b2, h2);
    if n1 == n2 {
        assert(building_code(b1) == building_code(b2));
        assert(b1 == b2);
        if grouped_hall(b1, h1) && grouped_hall(b2, h2) {
            assert(n1[1] == n2[1]);
        } else if grouped_hall(b1, h1) != grouped_hall(b2, h2) {
            if grouped_hall(b1, h1) {
                lemma_decimal_digits(h2 as nat);
                assert(n2[2] == decimal(h2 as nat)[1]);
                assert(is_digit(decimal(h2 as nat)[1]));
            } else {
                lemma_decimal_digits(h1 as nat);
                assert(n1[2] == decimal(h1 as nat)[1]);
                assert(is_digit(decimal(h1 as nat)[1]));
            }
        } else {
            assert(n1.drop_first() =~= decimal(h1 as nat));
            assert(n2.drop_first() =~= decimal(h2 as nat));
            lemma_decimal_digits(h1 as nat);
            lemma_decimal_digits(h2 as nat);
        }
    }
}

/// Default hall-cluster id for a `(building, hall)` (see [`cluster_name`]).
pub fn default_cluster(building: Building, hall: u8) -> (r: String)
    ensures
        r@ == cluster_name(building, hall),
{
    match building {
        Building::East => {
            if 1 <= hall && hall <= 3 {
                return "E1-3".to_owned();
            } else if 4 <= hall && hall <= 6 {
                return "E4-6".to_owned();
            } else if 7 <= hall && hall <= 8 {
                return "E7-8".to_owned();
            }
        },
        Building::West => {
            if 1 <= hall && hall <= 2 {
                return "W1-2".to_owned();
            }
        },
        Building::South => {},
    }
    let mut out = String::new();
    out.push(building.as_char());
    push_chars(&mut out, &decimal_chars(hall as u64));
    proof {
        assert(out@ =~= cluster_name(building, hall));
    }
    out
}

/// One island ("島"), authored once per event as a row of `block_layouts.csv`: the
/// fields that decide how its spaces are numbered and placed.
#[derive(Debug, Clone)]
pub struct Block {
    /// Island id such as `E4-ア` (building letter + hall, then `-`, then block letter).
    pub id: String,
    /// Block letter extracted from [`Block::id`] (e.g. `ア`).
    pub block: String,
    /// Exhibition building.
    pub building: Building,
    /// Hall number.
    pub hall: u8,
    /// Cardinal direction of increasing depth along the island.
    pub along: Dir,
    /// Cardinal direction from face 0 to face 1.
    pub cross: Dir,
    /// Highest serpentine number in this island.
    pub n_max: u16,
    /// Override for the number of desks on face 0 (default `n_max / 2`). Ignored for
    /// [`BlockKind::Wall`].
    pub face0_len: Option<u16>,
    /// Whether this is a normal island or a single-faced wall run (壁サークル).
    pub kind: BlockKind,
    /// Serpentine-number offset added to every space, so a wall split into several
    /// segments keeps continuous numbering.
    pub number_base: u16,
    /// Hall-cluster id (e.g. `E4-6`) used by the inter-hall distance matrix.
    pub cluster: String,
}

/// The number of desks on face 0 of a block.
pub open spec fn face0_count(b: Block) -> u16 {
    match b.face0_len {
        Some(f) => f,
        None => (b.n_max / 2) as u16,
    }
}

/// A block whose numbering the expansion can carry out: face 0 is no longer than the
/// island, and every number (with its offset) fits in a `u16`.
pub open spec fn block_ok(b: Block) -> bool {
    &&& faces_ok(b)
    &&& b.number_base + b.n_max <= u16::MAX
}

/// Face 0 of an island is no longer than the island.
pub open spec fn faces_ok(b: Block) -> bool {
    b.kind == BlockKind::Island ==> face0_count(b) <= b.n_max
}

/// `(face, depth)` of serpentine number `n`: islands run up face 0 then back down
/// face 1; wall runs stay on face 0 with depth increasing linearly.
pub open spec fn face_depth_of(b: Block, n: int) -> (u8, u16) {
    match b.kind {
        BlockKind::Wall => (0, n as u16),
        BlockKind::Island => if n <= face0_count(b) {
            (0, n as u16)
        } else {
            (1, (b.n_max - n + 1) as u16)
        },
    }
}

/// The island's length in desk pitches: one less than the desks on its longer face.
pub open spec fn island_len_of(b: Block) -> u16 {
    let longest: int = match b.kind {
        BlockKind::Wall => b.n_max as int,
        BlockKind::Island => {
            let f0 = face0_count(b) as int;
            let f1 = b.n_max - f0;
            if f0 >= f1 {
                f0
            } else {
                f1
            }
        },
    };
    if longest >= 1 {
        (longest - 1) as u16
    } else {
        0
    }
}

/// The island length is the far end of the serpentine: with at least one number, no
/// desk lies deeper than `island_len + 1`, some desk lies exactly there, and that is
/// one less than the desks on the island's longer face (face 0 holding
/// [`face0_count`] desks and face 1 the rest).
pub proof fn lemma_island_len_far_end(b: Block)
    requires
        faces_ok(b),
        b.n_max >= 1,
    ensures
        forall|n: int| 1 <= n <= b.n_max ==> #[trigger] face_depth_of(b, n).1 <= island_len_of(b) + 1,
        exists|n: int| 1 <= n <= b.n_max && #[trigger] face_depth_of(b, n).1 == island_len_of(b) + 1,
        b.kind == BlockKind::Island ==> island_len_of(b) + 1 == if face0_count(b) >= b.n_max
            - face0_count(b) {
            face0_count(b) as int
        } else {
            b.n_max - face0_count(b)
        },
{
    let f0 = face0_count(b) as int;
    match b.kind {
        BlockKind::Wall => {
            assert(face_depth_of(b, b.n_max as int).1 == island_len_of(b) + 1);
        },
        BlockKind::Island => {
            if f0 >= b.n_max - f0 {
                assert(face_depth_of(b, f0).1 == island_len_of(b) + 1);
            } else {
                assert(face_depth_of(b, f0 + 1).1 == island_len_of(b) + 1);
            }
        },
    }
}

impl Block {
    /// Number of desks on face 0 (the override, or `n_max / 2`).
    pub fn face0_len(&self) -> (r: u16)
        ensures
            r == face0_count(*self),
    {
        match self.face0_len {
            Some(f) => f,
            None => self.n_max / 2,
        }
    }

    /// Along-axis length of the island, counted in desk pitches: the desks on the
    /// longer face less one (a wall run is one face of all `n_max` desks).
    pub fn island_len(&self) -> (r: u16)
        requires
            faces_ok(*self),
        ensures
            r == island_len_of(*self),
            self.kind == BlockKind::Island && self.n_max >= 1 ==> r + 1 == if face0_count(*self)
                >= self.n_max - face0_count(*self) {
                face0_count(*self) as int
            } else {
                self.n_max - face0_count(*self)
            },
            self.kind == BlockKind::Wall && self.n_max >= 1 ==> r + 1 == self.n_max,
    {
        let longest = match self.kind {
            BlockKind::Wall => self.n_max,
            BlockKind::Island => {
                let f0 = self.face0_len();
                let f1 = self.n_max - f0;
                if f0 >= f1 {
                    f0
                } else {
                    f1
                }
            },
        };
        if longest >= 1 {
            longest - 1
        } else {
            0
        }
    }

    /// Map a serpentine number to its `(face, depth)`.
    pub fn face_depth(&self, n: u16) -> (r: (u8, u16))
        requires
            faces_ok(*self),
            1 <= n <= self.n_max,
        ensures
            r == face_depth_of(*self, n as int),
            1 <= r.1,
    {
        match self.kind {
            BlockKind::Wall => (0, n),
            BlockKind::Island => {
                let half = self.face0_len();
                if n <= half {
                    (0, n)
                } else {
                    (1, self.n_max - n + 1)
                }
            },
        }
    }

    /// Expand this island into all `2 * n_max` spaces (each number has an `a`/`b` half),
    /// in number order, `a` before `b`.
    pub fn expand(&self) -> (spaces: Vec<Space>)
        requires
            block_ok(*self),
        ensures
            is_expansion(*self, spaces@),
    {
        let island_len = self.island_len();
        let mut spaces: Vec<Space> = Vec::new();
        let mut step: u32 = 1;
        while step <= self.n_max as u32
            invariant
                block_ok(*self),
                1 <= step,
                step <= self.n_max + 1,
                island_len == island_len_of(*self),
                spaces@.len() == 2 * (step - 1),
                forall|k: int| 0 <= k < spaces@.len() ==> expanded_at(*self, k, #[trigger] spaces@[k]),
            decreases self.n_max + 1 - step,
        {
            let n = step as u16;
            let (face, depth) = self.face_depth(n);
            let number = self.number_base + n;
            let mut q: usize = 0;
            while q < 2
                invariant
                    block_ok(*self),
                    1 <= n <= self.n_max,
                    face_depth_of(*self, n as int) == (face, depth),
                    number == self.number_base + n,
                    island_len == island_len_of(*self),
                    q <= 2,
                    spaces@.len() == 2 * (n - 1) + q,
                    forall|k: int| 0 <= k < spaces@.len() ==> expanded_at(*self, k, #[trigger] spaces@[k]),
                decreases 2 - q,
            {
                let side = if q == 0 {
                    Side::A
                } else {
                    Side::B
                };
                let id = SpaceId {
                    building: self.building,
                    hall: self.hall,
                    block: self.block.clone(),
                    number,
                    side,
                };
                let space = Space {
                    id: id.to_string(),
                    building: self.building,
                    hall: self.hall,
                    block: self.block.clone(),
                    number,
                    side,
                    face,
                    depth,
                    island_len,
                    cluster: self.cluster.clone(),
                };
                proof {
                    let k = spaces@.len() as int;
                    assert(k / 2 + 1 == n) by {
                        assert(k == 2 * (n - 1) + q);
                    }
                    assert(k % 2 == q);
                }
                spaces.push(space);
                q = q + 1;
            }
            step = step + 1;
        }
        spaces
    }
}

/// `s` is the `k`-th space of `b`'s expansion: number `k / 2 + 1` (plus the offset),
/// side `a` for even `k` and `b` for odd.
pub open spec fn expanded_at(b: Block, k: int, s: Space) -> bool {
    let n = k / 2 + 1;
    let side = if k % 2 == 0 {
        Side::A
    } else {
        Side::B
    };
    &&& s.building == b.building
    &&& s.hall == b.hall
    &&& s.block@ == b.block@
    &&& s.number == b.number_base + n
    &&& s.side == side
    &&& (s.face, s.depth) == face_depth_of(b, n)
    &&& s.island_len == island_len_of(b)
    &&& s.cluster@ == b.cluster@
    &&& s.id@ == canonical_text(
        SpaceId { building: b.building, hall: b.hall, block: b.block, number: s.number, side },
    )
}

/// `spaces` is exactly `b`'s expansion.
pub open spec fn is_expansion(b: Block, spaces: Seq<Space>) -> bool {
    &&& spaces.len() == 2 * b.n_max
    &&& forall|k: int| 0 <= k < spaces.len() ==> expanded_at(b, k, #[trigger] spaces[k])
}

/// Total number of spaces the first `k` blocks expand into.
pub open spec fn expanded_count(blocks: Seq<Block>, k: int) -> int
    decreases k,
{
    if k <= 0 {
        0
    } else {
        expanded_count(blocks, k - 1) + 2 * blocks[k - 1].n_max
    }
}

/// Expand every block into a single flat list of spaces, block after block.
pub fn expand_blocks(blocks: &Vec<Block>) -> (spaces: Vec<Space>)
    requires
        forall|i: int| 0 <= i < blocks@.len() ==> block_ok(#[trigger] blocks@[i]),
    ensures
        spaces@.len() == expanded_count(blocks@, blocks@.len() as int),
        forall|i: int|
            0 <= i < blocks@.len() ==> is_expansion(
                #[trigger] blocks@[i],
                spaces@.subrange(
                    expanded_count(blocks@, i),
                    expanded_count(blocks@, i + 1),
                ),
            ),
{
    let mut spaces: Vec<Space> = Vec::new();
    let mut i: usize = 0;
    while i < blocks.len()
        invariant
            i <= blocks@.len(),
            forall|j: int| 0 <= j < blocks@.len() ==> block_ok(#[trigger] blocks@[j]),
            spaces@.len() == expanded_count(blocks@, i as int),
            forall|j: int|
                0 <= j < i ==> is_expansion(
                    #[trigger] blocks@[j],
                    spaces@.subrange(expanded_count(blocks@, j), expanded_count(blocks@, j + 1)),
                ),
        decreases blocks@.len() - i,
    {
        let part = blocks[i].expand();
        let ghost before = spaces@;
        let mut q: usize = 0;
        while q < part.len()
            invariant
                q <= part@.len(),
                spaces@ == before + part@.take(q as int),
            decreases part@.len() - q,
        {
            spaces.push(part[q].duplicate());
            proof {
                assert(part@.take(q + 1) =~= part@.take(q as int).push(part@[q as int]));
            }
            q = q + 1;
        }
        proof {
            assert(part@.take(part@.len() as int) =~= part@);
            lemma_append_expansion(blocks@, before, part@, i as int);
        }
        i = i + 1;
    }
    spaces
}

/// Appending block `i`'s expansion keeps the earlier blocks' pieces in place.
proof fn lemma_append_expansion(blocks: Seq<Block>, before: Seq<Space>, part: Seq<Space>, i: int)
    requires
        0 <= i < blocks.len(),
        before.len() == expanded_count(blocks, i),
        is_expansion(blocks[i], part),
        forall|j: int|
            0 <= j < i ==> is_expansion(
                #[trigger] blocks[j],
                before.subrange(expanded_count(blocks, j), expanded_count(blocks, j + 1)),
            ),
    ensures
        (before + part).len() == expanded_count(blocks, i + 1),
        forall|j: int|
            0 <= j <= i ==> is_expansion(
                #[trigger] blocks[j],
                (before + part).subrange(expanded_count(blocks, j), expanded_count(blocks, j + 1)),
            ),
{
    let all = before + part;
    assert forall|j: int| 0 <= j <= i implies is_expansion(
        #[trigger] blocks[j],
        all.subrange(expanded_count(blocks, j), expanded_count(blocks, j + 1)),
    ) by {
        lemma_expanded_count_monotone(blocks, j);
        if j < i {
            lemma_expanded_count_le(blocks, j + 1, i);
            assert(all.subrange(expanded_count(blocks, j), expanded_count(blocks, j + 1))
                =~= before.subrange(expanded_count(blocks, j), expanded_count(blocks, j + 1)));
        } else {
            assert(all.subrange(expanded_count(blocks, j), expanded_count(blocks, j + 1)) =~= part);
        }
    }
}

/// Each block adds a non-negative number of spaces.
proof fn lemma_expanded_count_monotone(blocks: Seq<Block>, k: int)
    requires
        0 <= k,
    ensures
        expanded_count(blocks, k) <= expanded_count(blocks, k + 1),
        0 <= expanded_count(blocks, k),
    decreases k,
{
    if k > 0 {
        lemma_expanded_count_monotone(blocks, k - 1);
    }
}

/// Counts grow with the number of blocks.
proof fn lemma_expanded_count_le(blocks: Seq<Block>, a: int, b: int)
    requires
        0 <= a <= b,
    ensures
        expanded_count(blocks, a) <= expanded_count(blocks, b),
    decreases b - a,
{
    if a < b {
        lemma_expanded_count_le(blocks, a, b - 1);
        lemma_expanded_count_monotone(blocks, b - 1);
    }
}

/// One placed space: identity, decomposed fields, and integer placement.
///
/// `face`/`depth` place the space on its island (its along-axis position is
/// `depth - 1` desk pitches from the near end); `island_len` is the island's far end in
/// desk pitches.
#[derive(Debug, Clone)]
pub struct Space {
    /// Canonical id string, e.g. `E4-ア-31a`.
    pub id: String,
    /// Exhibition building.
    pub building: Building,
    /// Hall number.
    pub hall: u8,
    /// Island/block letter.
    pub block: String,
    /// Serpentine number.
    pub number: u16,
    /// Table half.
    pub side: Side,
    /// Which face (0 or 1) of the island this space is on.
    pub face: u8,
    /// Desk position along the face, 1 at the near end.
    pub depth: u16,
    /// The island's far-end along-position, in desk pitches; the same for every space
    /// in it.
    pub island_len: u16,
    /// Hall-cluster id (e.g. `E4-6`) for the inter-hall distance matrix.
    pub cluster: String,
}

impl Space {
    /// A field-by-field copy.
    pub fn duplicate(&self) -> (r: Space)
        ensures
            r == *self,
    {
        Space {
            id: self.id.clone(),
            building: self.building,
            hall: self.hall,
            block: self.block.clone(),
            number: self.number,
            side: self.side,
            face: self.face,
            depth: self.depth,
            island_len: self.island_len,
            cluster: self.cluster.clone(),
        }
    }
}

/// A raw `block_layouts.csv` row: the fields the numbering reads, as read, before
/// validation.
#[derive(Debug, Clone)]
pub struct BlockRow {
    /// Island id, expected as `<building><hall>-<block>`.
    pub id: String,
    /// Exhibition building.
    pub building: Building,
    /// Hall number.
    pub hall: u8,
    /// Cardinal direction of increasing depth.
    pub along: Dir,
    /// Cardinal direction from face 0 to face 1.
    pub cross: Dir,
    /// Highest serpentine number.
    pub n_max: u16,
    /// Optional face-0 desk count.
    pub face0_len: Option<u16>,
    /// Optional kind (default island).
    pub kind: Option<BlockKind>,
    /// Optional cluster id (default from building and hall).
    pub cluster: Option<String>,
    /// Serpentine-number offset.
    pub number_base: u16,
}

/// Whether `s` trims to nothing.
fn blank(s: &String) -> (r: bool)
    ensures
        r == is_blank(s@),
{
    let cs = chars_of(s.as_str());
    let mut q: usize = 0;
    while q < cs.len()
        invariant
            q <= cs@.len(),
            cs@ == s@,
            forall|i: int| 0 <= i < q ==> is_white_space(#[trigger] cs@[i]),
        decreases cs@.len() - q,
    {
        if !white_space(cs[q]) {
            return false;
        }
        q = q + 1;
    }
    true
}

/// Position of the first `c` in `s`.
pub open spec fn first_index(s: Seq<char>, c: char) -> Option<int>
    decreases s.len(),
{
    if s.len() == 0 {
        None
    } else if s[0] == c {
        Some(0)
    } else {
        match first_index(s.drop_first(), c) {
            Some(i) => Some(i + 1),
            None => None,
        }
    }
}

/// The block letter of an island id: everything after its first `-`, when that is
/// not empty.
pub open spec fn block_letter_of(id: Seq<char>) -> Option<Seq<char>> {
    match first_index(id, '-') {
        Some(i) => if i + 1 < id.len() {
            Some(id.skip(i + 1))
        } else {
            None
        },
        None => None,
    }
}

/// Why a row is rejected, checked in order, or `None` when it is accepted.
pub open spec fn row_rejection(row: BlockRow) -> Option<Seq<char>> {
    if block_letter_of(row.id@) is None {
        Some("id must look like '<building><hall>-<block>'"@)
    } else if row.n_max == 0 {
        Some("n_max must be at least 1"@)
    } else if row.face0_len matches Some(f0) && f0 > row.n_max {
        Some("face0_len must not exceed n_max"@)
    } else if row.number_base + row.n_max > u16::MAX {
        Some("number_base + n_max must fit in u16"@)
    } else {
        None
    }
}

/// The block an accepted row describes.
pub open spec fn block_from_row(row: BlockRow, b: Block) -> bool {
    &&& b.id@ == row.id@
    &&& Some(b.block@) == block_letter_of(row.id@)
    &&& b.building == row.building
    &&& b.hall == row.hall
    &&& b.along == row.along
    &&& b.cross == row.cross
    &&& b.n_max == row.n_max
    &&& b.face0_len == row.face0_len
    &&& b.kind == match row.kind {
        Some(k) => k,
        None => BlockKind::Island,
    }
    &&& b.number_base == row.number_base
    &&& b.cluster@ == match row.cluster {
        Some(c) => if is_blank(c@) {
            cluster_name(row.building, row.hall)
        } else {
            c@
        },
        None => cluster_name(row.building, row.hall),
    }
}

/// Index of the first `c` in `cs`.
pub fn find_char(cs: &Vec<char>, c: char) -> (r: Option<usize>)
    ensures
        match r {
            Some(i) => first_index(cs@, c) == Some(i as int) && i < cs@.len(),
            None => first_index(cs@, c) is None,
        },
{
    let mut q: usize = 0;
    while q < cs.len()
        invariant
            q <= cs@.len(),
            forall|i: int| 0 <= i < q ==> cs@[i] != c,
        decreases cs@.len() - q,
    {
        if cs[q] == c {
            proof {
                lemma_first_index(cs@, c, q as int);
            }
            return Some(q);
        }
        q = q + 1;
    }
    proof {
        lemma_first_index_none(cs@, c);
    }
    None
}

proof fn lemma_first_index(s: Seq<char>, c: char, q: int)
    requires
        0 <= q < s.len(),
        s[q] == c,
        forall|i: int| 0 <= i < q ==> s[i] != c,
    ensures
        first_index(s, c) == Some(q),
    decreases q,
{
    if q > 0 {
        lemma_first_index(s.drop_first(), c, q - 1);
    }
}

proof fn lemma_first_index_none(s: Seq<char>, c: char)
    requires
        forall|i: int| 0 <= i < s.len() ==> s[i] != c,
    ensures
        first_index(s, c) is None,
    decreases s.len(),
{
    if s.len() > 0 {
        lemma_first_index_none(s.drop_first(), c);
    }
}

fn reject_row(id: &String, reason: &str) -> (e: CometError)
    ensures
        e matches CometError::Block { id: i, reason: r } && i@ == id@ && r@ == reason@,
{
    CometError::Block { id: id.clone(), reason: reason.to_owned() }
}

impl Block {
    /// Validate a raw row: the id must carry a block letter after a `-`, `n_max` must
    /// be at least 1, `face0_len` must not exceed it, and every serpentine number
    /// (`number_base + n`) must fit in a `u16`. The kind defaults to an island and a
    /// missing or blank cluster to [`default_cluster`]. An accepted row can always be
    /// expanded.
    pub fn from_row(row: BlockRow) -> (r: Result<Block, CometError>)
        ensures
            r is Ok <==> row_rejection(row) is None,
            r matches Ok(b) ==> block_from_row(row, b) && block_ok(b),
            r matches Err(e) ==> e matches CometError::Block { id, reason } && id@ == row.id@
                && Some(reason@) == row_rejection(row),
    {
        let cs = chars_of(row.id.as_str());
        let block = match find_char(&cs, '-') {
            Some(i) => {
                if cs.len() - i > 1 {
                    string_of(&cs, i + 1, cs.len())
                } else {
                    return Err(reject_row(&row.id, "id must look like '<building><hall>-<block>'"));
                }
            },
            None => {
                return Err(reject_row(&row.id, "id must look like '<building><hall>-<block>'"));
            },
        };
        proof {
            let i = first_index(cs@, '-')->0;
            assert(cs@.subrange(i + 1, cs@.len() as int) =~= cs@.skip(i + 1));
        }
        if row.n_max == 0 {
            return Err(reject_row(&row.id, "n_max must be at least 1"));
        }
        match row.face0_len {
            Some(f0) => {
                if f0 > row.n_max {
                    return Err(reject_row(&row.id, "face0_len must not exceed n_max"));
                }
            },
            None => {},
        }
        if row.number_base > u16::MAX - row.n_max {
            return Err(reject_row(&row.id, "number_base + n_max must fit in u16"));
        }
        let cluster = match row.cluster {
            Some(c) => {
                if blank(&c) {
                    default_cluster(row.building, row.hall)
                } else {
                    c
                }
            },
            None => default_cluster(row.building, row.hall),
        };
        let kind = match row.kind {
            Some(k) => k,
            None => BlockKind::Island,
        };
        Ok(Block {
            id: row.id,
            block,
            building: row.building,
            hall: row.hall,
            along: row.along,
            cross: row.cross,
            n_max: row.n_max,
            face0_len: row.face0_len,
            kind,
            number_base: row.number_base,
            cluster,
        })
    }
}

/// The `gen-layout` artifact: an optional event label and every placed space.
#[derive(Debug, Clone)]
pub struct Layout {
    /// Event label (e.g. `C107`), if provided.
    pub event: Option<String>,
    /// All spaces across all islands.
    pub spaces: Vec<Space>,
}

/// One row of `want_list.csv`: a canonical space id and a free-text circle name.
#[derive(Debug, Clone)]
pub struct WantEntry {
    /// Canonical space id, e.g. `E4-ア-31a`.
    pub space: String,
    /// Free-text circle name for the itinerary.
    pub name: String,
}

/// A want-list joined against a [`Layout`]: matched spaces (in want-list order), their
/// parallel names and positions in the layout, and any ids that were not found.
#[derive(Debug, Clone)]
pub struct Resolved {
    /// Matched spaces, in want-list order.
    pub spaces: Vec<Space>,
    /// Circle names, parallel to [`Resolved::spaces`].
    pub names: Vec<String>,
    /// Want-list ids absent from the layout (reported as warnings, then skipped).
    pub missing: Vec<String>,
    /// For each matched space, its index in the layout it was matched against.
    pub layout_index: Vec<usize>,
}

impl Default for Resolved {
    fn default() -> (r: Self)
        ensures
            r.spaces@.len() == 0,
            r.names@.len() == 0,
            r.missing@.len() == 0,
            r.layout_index@.len() == 0,
    {
        Resolved { spaces: Vec::new(), names: Vec::new(), missing: Vec::new(), layout_index: Vec::new() }
    }
}

/// Index of the first space with id `id`.
pub open spec fn first_match(spaces: Seq<Space>, id: Seq<char>) -> Option<int>
    decreases spaces.len(),
{
    if spaces.len() == 0 {
        None
    } else if spaces[0].id@ == id {
        Some(0)
    } else {
        match first_match(spaces.drop_first(), id) {
            Some(i) => Some(i + 1),
            None => None,
        }
    }
}

/// Index of the last space with id `id` (a later duplicate shadows an earlier one).
pub open spec fn last_match(spaces: Seq<Space>, id: Seq<char>) -> Option<int>
    decreases spaces.len(),
{
    if spaces.len() == 0 {
        None
    } else if spaces.last().id@ == id {
        Some(spaces.len() - 1)
    } else {
        last_match(spaces.drop_last(), id)
    }
}

/// The matched wants, in want-list order: `(want index, layout index)`.
pub open spec fn matched(spaces: Seq<Space>, wants: Seq<WantEntry>) -> Seq<(int, int)>
    decreases wants.len(),
{
    if wants.len() == 0 {
        Seq::empty()
    } else {
        let init = matched(spaces, wants.drop_last());
        match last_match(spaces, wants.last().space@) {
            Some(j) => init.push((wants.len() - 1, j)),
            None => init,
        }
    }
}

/// The wants with no space of their id, in want-list order (want indices).
pub open spec fn unmatched(spaces: Seq<Space>, wants: Seq<WantEntry>) -> Seq<int>
    decreases wants.len(),
{
    if wants.len() == 0 {
        Seq::empty()
    } else {
        let init = unmatched(spaces, wants.drop_last());
        match last_match(spaces, wants.last().space@) {
            Some(_) => init,
            None => init.push(wants.len() - 1),
        }
    }
}

/// `r` is the join of `wants` against `spaces`.
pub open spec fn is_resolution(spaces: Seq<Space>, wants: Seq<WantEntry>, r: Resolved) -> bool {
    let m = matched(spaces, wants);
    let u = unmatched(spaces, wants);
    &&& r.spaces@.len() == m.len()
    &&& r.names@.len() == m.len()
    &&& r.layout_index@.len() == m.len()
    &&& r.missing@.len() == u.len()
    &&& forall|k: int|
        0 <= k < m.len() ==> {
            &&& #[trigger] r.layout_index@[k] == m[k].1
            &&& r.spaces@[k] == spaces[m[k].1]
            &&& r.names@[k]@ == wants[m[k].0].name@
        }
    &&& forall|k: int| 0 <= k < u.len() ==> #[trigger] r.missing@[k]@ == wants[u[k]].space@
}

proof fn lemma_last_match_found(spaces: Seq<Space>, id: Seq<char>, j: int)
    requires
        0 <= j < spaces.len(),
        spaces[j].id@ == id,
        forall|i: int| j < i < spaces.len() ==> spaces[i].id@ != id,
    ensures
        last_match(spaces, id) == Some(j),
    decreases spaces.len(),
{
    if j < spaces.len() - 1 {
        lemma_last_match_found(spaces.drop_last(), id, j);
    }
}

proof fn lemma_last_match_none(spaces: Seq<Space>, id: Seq<char>)
    requires
        forall|i: int| 0 <= i < spaces.len() ==> spaces[i].id@ != id,
    ensures
        last_match(spaces, id) is None,
    decreases spaces.len(),
{
    if spaces.len() > 0 {
        lemma_last_match_none(spaces.drop_last(), id);
    }
}

proof fn lemma_last_match_bounds(spaces: Seq<Space>, id: Seq<char>)
    ensures
        last_match(spaces, id) matches Some(j) ==> 0 <= j < spaces.len(),
    decreases spaces.len(),
{
    if spaces.len() > 0 {
        lemma_last_match_bounds(spaces.drop_last(), id);
    }
}

/// Index of the last space of `spaces` whose id is `id`.
fn find_last(spaces: &Vec<Space>, id: &String) -> (r: Option<usize>)
    ensures
        match r {
            Some(j) => last_match(spaces@, id@) == Some(j as int),
            None => last_match(spaces@, id@) is None,
        },
{
    let mut q = spaces.len();
    while q > 0
        invariant
            q <= spaces@.len(),
            forall|i: int| q <= i < spaces@.len() ==> spaces@[i].id@ != id@,
        decreases q,
    {
        if spaces[q - 1].id == *id {
            proof {
                lemma_last_match_found(spaces@, id@, q - 1);
            }
            return Some(q - 1);
        }
        q = q - 1;
    }
    proof {
        lemma_last_match_none(spaces@, id@);
    }
    None
}

/// Join a want-list against a layout, preserving want-list order and collecting misses.
pub fn resolve_wants(layout: &Layout, wants: &Vec<WantEntry>) -> (r: Resolved)
    ensures
        is_resolution(layout.spaces@, wants@, r),
        r.spaces@.len() + r.missing@.len() == wants@.len(),
{
    let mut resolved = Resolved::default();
    let mut k: usize = 0;
    while k < wants.len()
        invariant
            k <= wants@.len(),
            is_resolution(layout.spaces@, wants@.take(k as int), resolved),
        decreases wants@.len() - k,
    {
        let want = &wants[k];
        let ghost pre = wants@.take(k as int);
        let ghost next = wants@.take(k + 1);
        proof {
            assert(next.drop_last() =~= pre);
            assert(next.last() == *want);
            lemma_last_match_bounds(layout.spaces@, want.space@);
            lemma_matched_bounds(layout.spaces@, pre);
            lemma_unmatched_bounds(layout.spaces@, pre);
        }
        match find_last(&layout.spaces, &want.space) {
            Some(j) => {
                let ghost r0 = resolved;
                resolved.spaces.push(layout.spaces[j].duplicate());
                resolved.names.push(want.name.clone());
                resolved.layout_index.push(j);
                proof {
                    let m0 = matched(layout.spaces@, pre);
                    let m = matched(layout.spaces@, next);
                    assert(m == m0.push((k as int, j as int)));
                    assert forall|q: int| 0 <= q < m.len() implies {
                        &&& #[trigger] resolved.layout_index@[q] == m[q].1
                        &&& resolved.spaces@[q] == layout.spaces@[m[q].1]
                        &&& resolved.names@[q]@ == next[m[q].0].name@
                    } by {
                        if q < m0.len() {
                            assert(m[q] == m0[q]);
                            assert(resolved.layout_index@[q] == r0.layout_index@[q]);
                            assert(resolved.spaces@[q] == r0.spaces@[q]);
                            assert(resolved.names@[q] == r0.names@[q]);
                            assert(next[m0[q].0] == pre[m0[q].0]);
                        } else {
                            assert(q == m0.len());
                            assert(m[q] == (k as int, j as int));
                        }
                    }
                    assert(unmatched(layout.spaces@, next) == unmatched(layout.spaces@, pre));
                    assert(resolved.missing == r0.missing);
                    assert(is_resolution(layout.spaces@, next, resolved));
                }
            },
            None => {
                let ghost r0 = resolved;
                resolved.missing.push(want.space.clone());
                proof {
                    let u = unmatched(layout.spaces@, next);
                    assert(u == unmatched(layout.spaces@, pre).push(k as int));
                    assert(matched(layout.spaces@, next) == matched(layout.spaces@, pre));
                    assert forall|q: int| 0 <= q < u.len() implies #[trigger] resolved.missing@[q]@
                        == next[u[q]].space@ by {
                        if q < u.len() - 1 {
                            lemma_unmatched_bounds(layout.spaces@, pre);
                            assert(next[u[q]] == pre[u[q]]);
                        }
                    }
                    let m = matched(layout.spaces@, next);
                    assert forall|q: int| 0 <= q < m.len() implies {
                        &&& #[trigger] resolved.layout_index@[q] == m[q].1
                        &&& resolved.spaces@[q] == layout.spaces@[m[q].1]
                        &&& resolved.names@[q]@ == next[m[q].0].name@
                    } by {
                        let m0 = matched(layout.spaces@, pre);
                        assert(m[q] == m0[q]);
                        assert(0 <= m0[q].0 < pre.len());
                        assert(next[m0[q].0] == pre[m0[q].0]);
                        assert(r0.layout_index@[q] == m0[q].1);
                        assert(resolved.layout_index@[q] == r0.layout_index@[q]);
                        assert(resolved.spaces@[q] == r0.spaces@[q]);
                        assert(resolved.names@[q] == r0.names@[q]);
                    }
                    assert(is_resolution(layout.spaces@, next, resolved));
                }
            },
        }
        k = k + 1;
    }
    proof {
        assert(wants@.take(wants@.len() as int) =~= wants@);
        lemma_every_want_accounted(layout.spaces@, wants@);
    }
    resolved
}

/// Each want is either matched or missing, never both.
pub proof fn lemma_every_want_accounted(spaces: Seq<Space>, wants: Seq<WantEntry>)
    ensures
        matched(spaces, wants).len() + unmatched(spaces, wants).len() == wants.len(),
    decreases wants.len(),
{
    if wants.len() > 0 {
        lemma_every_want_accounted(spaces, wants.drop_last());
    }
}

proof fn lemma_matched_bounds(spaces: Seq<Space>, wants: Seq<WantEntry>)
    ensures
        forall|q: int|
            0 <= q < matched(spaces, wants).len() ==> {
                &&& 0 <= #[trigger] matched(spaces, wants)[q].0 < wants.len()
                &&& 0 <= matched(spaces, wants)[q].1 < spaces.len()
            },
    decreases wants.len(),
{
    if wants.len() > 0 {
        let pre = wants.drop_last();
        lemma_matched_bounds(spaces, pre);
        lemma_last_match_bounds(spaces, wants.last().space@);
        let init = matched(spaces, pre);
        let m = matched(spaces, wants);
        assert forall|q: int| 0 <= q < m.len() implies {
            &&& 0 <= #[trigger] m[q].0 < wants.len()
            &&& 0 <= m[q].1 < spaces.len()
        } by {
            if q < init.len() {
                assert(m[q] == init[q]);
            }
        }
    }
}

proof fn lemma_unmatched_bounds(spaces: Seq<Space>, wants: Seq<WantEntry>)
    ensures
        forall|q: int|
            0 <= q < unmatched(spaces, wants).len() ==> 0 <= #[trigger] unmatched(spaces, wants)[q]
                < wants.len(),
    decreases wants.len(),
{
    if wants.len() > 0 {
        let pre = wants.drop_last();
        lemma_unmatched_bounds(spaces, pre);
        let init = unmatched(spaces, pre);
        let u = unmatched(spaces, wants);
        assert forall|q: int| 0 <= q < u.len() implies 0 <= #[trigger] u[q] < wants.len() by {
            if q < init.len() {
                assert(u[q] == init[q]);
            }
        }
    }
}

proof fn lemma_first_match_found(spaces: Seq<Space>, id: Seq<char>, j: int)
    requires
        0 <= j < spaces.len(),
        spaces[j].id@ == id,
        forall|i: int| 0 <= i < j ==> spaces[i].id@ != id,
    ensures
        first_match(spaces, id) == Some(j),
    decreases j,
{
    if j > 0 {
        lemma_first_match_found(spaces.drop_first(), id, j - 1);
    }
}

proof fn lemma_first_match_none(spaces: Seq<Space>, id: Seq<char>)
    requires
        forall|i: int| 0 <= i < spaces.len() ==> spaces[i].id@ != id,
    ensures
        first_match(spaces, id) is None,
    decreases spaces.len(),
{
    if spaces.len() > 0 {
        lemma_first_match_none(spaces.drop_first(), id);
    }
}

impl Resolved {
    /// Index of the matched space with the given canonical id, if present.
    pub fn position(&self, id: &str) -> (r: Option<usize>)
        ensures
            match r {
                Some(i) => first_match(self.spaces@, id@) == Some(i as int),
                None => first_match(self.spaces@, id@) is None,
            },
    {
        let key = id.to_owned();
        let mut q: usize = 0;
        while q < self.spaces.len()
            invariant
                q <= self.spaces@.len(),
                key@ == id@,
                forall|i: int| 0 <= i < q ==> self.spaces@[i].id@ != id@,
            decreases self.spaces@.len() - q,
        {
            if self.spaces[q].id == key {
                proof {
                    lemma_first_match_found(self.spaces@, id@, q as int);
                }
                return Some(q);
            }
            q = q + 1;
        }
        proof {
            lemma_first_match_none(self.spaces@, id@);
        }
        None
    }

    /// Number of matched spaces.
    pub fn len(&self) -> (r: usize)
        ensures
            r == self.spaces@.len(),
    {
        self.spaces.len()
    }

    /// Whether nothing matched.
    pub fn is_empty(&self) -> (r: bool)
        ensures
            r == (self.spaces@.len() == 0),
    {
        self.spaces.len() == 0
    }
}

/// Resolve a start-space id (canonicalised, lenient on case) to its index among the
/// matched want-list spaces.
pub fn resolve_start(resolved: &Resolved, start: &str) -> (r: Result<usize, CometError>)
    ensures
        match space_id_rejection(start@) {
            Some(why) => r matches Err(CometError::SpaceParse { input, reason }) && input@ == start@
                && reason@ == why,
            None => match first_match(resolved.spaces@, canonical_of_text(start@)) {
                Some(i) => r == Ok::<usize, CometError>(i as usize),
                None => r matches Err(CometError::StartNotFound(c)) && c@ == canonical_of_text(
                    start@,
                ),
            },
        },
{
    let id = match SpaceId::parse(start) {
        Ok(id) => id,
        Err(e) => {
            return Err(e);
        },
    };
    let canonical = id.to_string();
    proof {
        lemma_canonical_of_text(id, start@);
    }
    match resolved.position(canonical.as_str()) {
        Some(i) => Ok(i),
        None => Err(CometError::StartNotFound(canonical)),
    }
}

} // verus!
