//! Space identity: [`SpaceId`] and its canonical string form (e.g. `E4-ア-31a`).

use vstd::prelude::*;

use crate::error::CometError;
use crate::text::{
    chars_of, decimal, decimal_chars, is_digit, lemma_decimal_digits, lemma_parse_decimal,
    parse_unsigned, parse_unsigned_chars, push_chars, split_chars, split_on, string_of,
};

verus! {

/// Which exhibition building a space sits in.
#[derive(Debug, Clone, Copy, PartialEq, Eq, Hash, Structural)]
pub enum Building {
    /// 東 — East building.
    East,
    /// 西 — West building.
    West,
    /// 南 — South building.
    South,
}

/// The single-letter code of a building in a canonical id.
pub open spec fn building_code(b: Building) -> char {
    match b {
        Building::East => 'E',
        Building::West => 'W',
        Building::South => 'S',
    }
}

/// The building a letter names, either case.
pub open spec fn building_of(c: char) -> Option<Building> {
    if c == 'E' || c == 'e' {
        Some(Building::East)
    } else if c == 'W' || c == 'w' {
        Some(Building::West)
    } else if c == 'S' || c == 's' {
        Some(Building::South)
    } else {
        None
    }
}

impl Building {
    /// The single-letter code used in a canonical id (`E`/`W`/`S`).
    pub fn as_char(self) -> (c: char)
        ensures
            c == building_code(self),
    {
        match self {
            Building::East => 'E',
            Building::West => 'W',
            Building::South => 'S',
        }
    }

    /// Parse a single-letter building code, case-insensitively.
    pub fn from_char(c: char) -> (r: Option<Self>)
        ensures
            r == building_of(c),
    {
        if c == 'E' || c == 'e' {
            Some(Building::East)
        } else if c == 'W' || c == 'w' {
            Some(Building::West)
        } else if c == 'S' || c == 's' {
            Some(Building::South)
        } else {
            None
        }
    }
}

/// Which half of a shared table a circle occupies.
#[derive(Debug, Clone, Copy, PartialEq, Eq, Hash, Structural)]
pub enum Side {
    /// Left half (`a`).
    A,
    /// Right half (`b`).
    B,
}

/// The lowercase letter of a side in a canonical id.
pub open spec fn side_code(s: Side) -> char {
    match s {
        Side::A => 'a',
        Side::B => 'b',
    }
}

/// The side a letter names, either case.
pub open spec fn side_of(c: char) -> Option<Side> {
    if c == 'a' || c == 'A' {
        Some(Side::A)
    } else if c == 'b' || c == 'B' {
        Some(Side::B)
    } else {
        None
    }
}

impl Side {
    /// The lowercase letter used in a canonical id (`a`/`b`).
    pub fn as_char(self) -> (c: char)
        ensures
            c == side_code(self),
    {
        match self {
            Side::A => 'a',
            Side::B => 'b',
        }
    }

    /// Parse a side letter, case-insensitively.
    pub fn from_char(c: char) -> (r: Option<Self>)
        ensures
            r == side_of(c),
    {
        if c == 'a' || c == 'A' {
            Some(Side::A)
        } else if c == 'b' || c == 'B' {
            Some(Side::B)
        } else {
            None
        }
    }
}

/// Fully-qualified identity of a single space (one circle's half-table).
///
/// Round-trips through the canonical string `"<B><hall>-<block>-<number><side>"`, e.g.
/// `E4-ア-31a`. Parsing is lenient about letter case; [`SpaceId::to_string`] always
/// emits the canonical form (uppercase building, lowercase side).
#[derive(Debug, Clone, PartialEq, Eq, Hash)]
pub struct SpaceId {
    /// Exhibition building.
    pub building: Building,
    /// Hall number within the building.
    pub hall: u8,
    /// Island/block letter (one grapheme; カタカナ・ひらがな・ラテン all valid).
    pub block: String,
    /// Serpentine index within the island.
    pub number: u16,
    /// Which half of the table.
    pub side: Side,
}

/// The canonical string of a space id.
pub open spec fn canonical_text(id: SpaceId) -> Seq<char> {
    seq![building_code(id.building)] + decimal(id.hall as nat) + seq!['-'] + id.block@ + seq!['-']
        + decimal(id.number as nat) + seq![side_code(id.side)]
}

/// Why `s` is not a space id, checked in order, or `None` when it is one.
pub open spec fn space_id_rejection(s: Seq<char>) -> Option<Seq<char>> {
    let p = split_on(s, '-');
    if p.len() != 3 {
        Some("expected '<building><hall>-<block>-<number><side>' (three '-'-separated parts)"@)
    } else if p[0].len() == 0 || building_of(p[0][0]) is None {
        Some("building must start with E, W, or S"@)
    } else if parse_unsigned(p[0].drop_first(), 255) is None {
        Some("hall must be an integer"@)
    } else if p[1].len() == 0 {
        Some("block must not be empty"@)
    } else if p[2].len() == 0 {
        Some("missing number and side"@)
    } else if side_of(p[2].last()) is None {
        Some("side must be a or b"@)
    } else if parse_unsigned(p[2].drop_last(), 65535) is None {
        Some("number must be a u16"@)
    } else {
        None
    }
}

/// The space id `s` names, when [`space_id_rejection`] finds nothing wrong with it.
pub open spec fn space_id_fields(id: SpaceId, s: Seq<char>) -> bool {
    let p = split_on(s, '-');
    &&& Some(id.building) == building_of(p[0][0])
    &&& parse_unsigned(p[0].drop_first(), 255) == Some(id.hall as nat)
    &&& id.block@ == p[1]
    &&& parse_unsigned(p[2].drop_last(), 65535) == Some(id.number as nat)
    &&& Some(id.side) == side_of(p[2].last())
}

fn reject(s: &str, reason: &str) -> (e: CometError)
    ensures
        e matches CometError::SpaceParse { input, reason: r } && input@ == s@ && r@ == reason@,
{
    CometError::SpaceParse { input: s.to_owned(), reason: reason.to_owned() }
}

impl SpaceId {
    /// The canonical string `"<B><hall>-<block>-<number><side>"`.
    pub fn to_string(&self) -> (r: String)
        ensures
            r@ == canonical_text(*self),
    {
        let mut out = String::new();
        out.push(self.building.as_char());
        push_chars(&mut out, &decimal_chars(self.hall as u64));
        out.push('-');
        push_chars(&mut out, &chars_of(self.block.as_str()));
        out.push('-');
        push_chars(&mut out, &decimal_chars(self.number as u64));
        out.push(self.side.as_char());
        proof {
            assert(out@ =~= canonical_text(*self));
        }
        out
    }

    /// Parse a space id from its (case-lenient) canonical string.
    pub fn parse(s: &str) -> (r: Result<SpaceId, CometError>)
        ensures
            r is Ok <==> space_id_rejection(s@) is None,
            r matches Ok(id) ==> space_id_fields(id, s@),
            r matches Err(e) ==> e matches CometError::SpaceParse { input, reason }
                && input@ == s@ && Some(reason@) == space_id_rejection(s@),
    {
        let chars = chars_of(s);
        let parts = split_chars(&chars, '-');
        if parts.len() != 3 {
            return Err(
                reject(
                    s,
                    "expected '<building><hall>-<block>-<number><side>' (three '-'-separated parts)",
                ),
            );
        }
        // Part 0: the building letter followed by the hall number.
        let head = &parts[0];
        if head.len() == 0 {
            return Err(reject(s, "building must start with E, W, or S"));
        }
        let building = match Building::from_char(head[0]) {
            Some(b) => b,
            None => {
                return Err(reject(s, "building must start with E, W, or S"));
            },
        };
        proof {
            assert(head@.subrange(1, head@.len() as int) =~= head@.drop_first());
        }
        let hall = match parse_unsigned_chars(head, 1, head.len(), 255) {
            Some(h) => h as u8,
            None => {
                return Err(reject(s, "hall must be an integer"));
            },
        };
        // Part 1: the block letter, kept verbatim (may be multi-byte).
        let block_chars = &parts[1];
        if block_chars.len() == 0 {
            return Err(reject(s, "block must not be empty"));
        }
        // Part 2: the serpentine number followed by a single side letter.
        let tail = &parts[2];
        if tail.len() == 0 {
            return Err(reject(s, "missing number and side"));
        }
        let side = match Side::from_char(tail[tail.len() - 1]) {
            Some(x) => x,
            None => {
                return Err(reject(s, "side must be a or b"));
            },
        };
        proof {
            assert(tail@.subrange(0, tail@.len() - 1) =~= tail@.drop_last());
        }
        let number = match parse_unsigned_chars(tail, 0, tail.len() - 1, 65535) {
            Some(n) => n as u16,
            None => {
                return Err(reject(s, "number must be a u16"));
            },
        };
        let block = string_of(block_chars, 0, block_chars.len());
        proof {
            assert(block_chars@.subrange(0, block_chars@.len() as int) =~= block_chars@);
        }
        Ok(SpaceId { building, hall, block, number, side })
    }
}

impl std::str::FromStr for SpaceId {
    type Err = CometError;

    fn from_str(s: &str) -> (r: Result<Self, Self::Err>)
        ensures
            r is Ok <==> space_id_rejection(s@) is None,
            r matches Ok(id) ==> space_id_fields(id, s@),
            r matches Err(e) ==> e matches CometError::SpaceParse { input, reason }
                && input@ == s@ && Some(reason@) == space_id_rejection(s@),
    {
        SpaceId::parse(s)
    }
}

/// Splitting text with no separator yields the text itself.
proof fn lemma_split_none(x: Seq<char>, d: char)
    requires
        !x.contains(d),
    ensures
        split_on(x, d) == seq![x],
    decreases x.len(),
{
    if x.len() > 0 {
        let dl = x.drop_last();
        assert(!dl.contains(d)) by {
            if dl.contains(d) {
                let i = choose|i: int| 0 <= i < dl.len() && dl[i] == d;
                assert(x[i] == d);
            }
        }
        lemma_split_none(dl, d);
        assert(x.last() != d) by {
            assert(x[x.len() - 1] == x.last());
        }
        assert(dl.push(x.last()) =~= x);
        assert(split_on(x, d) =~= seq![x]);
    } else {
        assert(x =~= Seq::<char>::empty());
    }
}

/// A separator splits text into the pieces of each side.
proof fn lemma_split_join(a: Seq<char>, b: Seq<char>, d: char)
    ensures
        split_on(a + seq![d] + b, d) == split_on(a, d) + split_on(b, d),
    decreases b.len(),
{
    let ad = a + seq![d];
    if b.len() == 0 {
        assert(ad + b =~= ad);
        assert(ad.drop_last() =~= a);
        assert(split_on(b, d) =~= seq![Seq::<char>::empty()]);
        assert(split_on(ad, d) =~= split_on(a, d) + split_on(b, d));
    } else {
        let bl = b.drop_last();
        lemma_split_join(a, bl, d);
        assert((ad + b).drop_last() =~= ad + bl);
        assert((ad + b).last() == b.last());
        lemma_split_nonempty(a, d);
        lemma_split_nonempty(bl, d);
        assert(split_on(ad + b, d) =~= split_on(a, d) + split_on(b, d));
    }
}

/// Splitting always yields at least one piece.
proof fn lemma_split_nonempty(x: Seq<char>, d: char)
    ensures
        split_on(x, d).len() >= 1,
    decreases x.len(),
{
    if x.len() > 0 {
        lemma_split_nonempty(x.drop_last(), d);
    }
}

/// A space id whose block is non-empty and holds no `-` parses back from its
/// canonical string to the same id.
pub proof fn lemma_canonical_roundtrip(id: SpaceId)
    requires
        id.block@.len() > 0,
        !id.block@.contains('-'),
    ensures
        space_id_rejection(canonical_text(id)) is None,
        space_id_fields(id, canonical_text(id)),
{
    let p0 = seq![building_code(id.building)] + decimal(id.hall as nat);
    let p2 = decimal(id.number as nat) + seq![side_code(id.side)];
    assert(canonical_text(id) =~= p0 + seq!['-'] + (id.block@ + seq!['-'] + p2));
    lemma_decimal_digits(id.hall as nat);
    lemma_decimal_digits(id.number as nat);
    assert(!p0.contains('-')) by {
        if p0.contains('-') {
            let i = choose|i: int| 0 <= i < p0.len() && p0[i] == '-';
            if i > 0 {
                assert(is_digit(decimal(id.hall as nat)[i - 1]));
            }
        }
    }
    assert(!p2.contains('-')) by {
        if p2.contains('-') {
            let i = choose|i: int| 0 <= i < p2.len() && p2[i] == '-';
            if i < decimal(id.number as nat).len() {
                assert(is_digit(decimal(id.number as nat)[i]));
            }
        }
    }
    lemma_split_join(p0, id.block@ + seq!['-'] + p2, '-');
    lemma_split_join(id.block@, p2, '-');
    lemma_split_none(p0, '-');
    lemma_split_none(id.block@, '-');
    lemma_split_none(p2, '-');
    let p = split_on(canonical_text(id), '-');
    assert(p =~= seq![p0, id.block@, p2]);
    assert(p0.drop_first() =~= decimal(id.hall as nat));
    assert(p2.drop_last() =~= decimal(id.number as nat));
    lemma_parse_decimal(id.hall as nat, 255);
    lemma_parse_decimal(id.number as nat, 65535);
}

/// The canonical string of the space id that `s` names (meaningful when
/// [`space_id_rejection`] finds nothing wrong with `s`).
pub open spec fn canonical_of_text(s: Seq<char>) -> Seq<char> {
    let p = split_on(s, '-');
    seq![building_code(building_of(p[0][0])->0)] + decimal(parse_unsigned(p[0].drop_first(), 255)->0)
        + seq!['-'] + p[1] + seq!['-'] + decimal(parse_unsigned(p[2].drop_last(), 65535)->0)
        + seq![side_code(side_of(p[2].last())->0)]
}

/// Every id that `s` names has the canonical string [`canonical_of_text`] gives.
pub proof fn lemma_canonical_of_text(id: SpaceId, s: Seq<char>)
    requires
        space_id_fields(id, s),
    ensures
        canonical_text(id) == canonical_of_text(s),
{
    assert(canonical_text(id) =~= canonical_of_text(s));
}

} // verus!
