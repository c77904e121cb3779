//! Serpentine-expansion tests: known `(n → face, depth)`, `island_len`, the block-row
//! validation, and the want-list join.

use comiket_tsp::crossing::split_crossings;
use comiket_tsp::error::CometError;
use comiket_tsp::layout::{
    default_cluster, expand_blocks, resolve_start, resolve_wants, Block, BlockKind, BlockRow, Dir,
    Layout, Space, WantEntry,
};
use comiket_tsp::space::Building;

/// A canonical test island: depth running +x, faces split +y.
fn island(n_max: u16, face0_len: Option<u16>) -> Block {
    Block {
        id: "E4-ア".into(),
        block: "ア".into(),
        building: Building::East,
        hall: 4,
        along: Dir::E,
        cross: Dir::N,
        n_max,
        face0_len,
        kind: BlockKind::Island,
        number_base: 0,
        cluster: "E4-6".into(),
    }
}

fn space<'a>(spaces: &'a [Space], id: &str) -> &'a Space {
    spaces
        .iter()
        .find(|s| s.id == id)
        .unwrap_or_else(|| panic!("missing space {id}"))
}

/// Along-axis offset of a space from the island's near end, in desk pitches.
fn along(s: &Space) -> u16 {
    s.depth - 1
}

#[test]
fn even_nmax_serpentine_and_anchor() {
    let block = island(48, None);
    assert_eq!(block.face0_len(), 24);
    assert_eq!(block.island_len(), 23);

    let spaces = block.expand();
    assert_eq!(spaces.len(), 96); // 48 numbers × 2 sides

    // n = 1, side a sits at the near end of face 0.
    let n1a = space(&spaces, "E4-ア-1a");
    assert_eq!(n1a.face, 0);
    assert_eq!(along(n1a), 0);
    assert_eq!(n1a.island_len, 23);

    // n = 24 is the last desk on face 0 (far end).
    let n24a = space(&spaces, "E4-ア-24a");
    assert_eq!(n24a.face, 0);
    assert_eq!(along(n24a), 23);

    // n = 25 is the first desk on face 1, also at the far end.
    let n25a = space(&spaces, "E4-ア-25a");
    assert_eq!(n25a.face, 1);
    assert_eq!(along(n25a), 23);

    // n = 48 is the last desk on face 1, back at the near end.
    let n48a = space(&spaces, "E4-ア-48a");
    assert_eq!(n48a.face, 1);
    assert_eq!(along(n48a), 0);

    // The b half shares its number's desk.
    let n1b = space(&spaces, "E4-ア-1b");
    assert_eq!((n1b.face, n1b.depth), (n1a.face, n1a.depth));
}

#[test]
fn odd_nmax_unequal_faces() {
    let block = island(49, None);
    assert_eq!(block.face0_len(), 24); // 49 / 2 == 24
    assert_eq!(block.island_len(), 24); // longer face has 25 desks

    let spaces = block.expand();
    assert_eq!(spaces.len(), 98);

    let n25a = space(&spaces, "E4-ア-25a"); // face 1, far end
    assert_eq!(n25a.face, 1);
    assert_eq!(along(n25a), 24);

    let n49a = space(&spaces, "E4-ア-49a"); // face 1, near end
    assert_eq!(n49a.face, 1);
    assert_eq!(along(n49a), 0);
}

#[test]
fn face0_len_override_splits_faces() {
    let block = island(40, Some(30));
    assert_eq!(block.face0_len(), 30);
    assert_eq!(block.island_len(), 29); // longer face is face 0 (30 desks)

    let spaces = block.expand();
    let n30a = space(&spaces, "E4-ア-30a"); // last on face 0 (far end)
    assert_eq!(n30a.face, 0);
    assert_eq!(along(n30a), 29);

    let n31a = space(&spaces, "E4-ア-31a"); // first on face 1
    assert_eq!(n31a.face, 1);
    assert_eq!(along(n31a), 9); // depth = 40 - 31 + 1 = 10
}

#[test]
fn expansion_lists_numbers_in_order_a_before_b() {
    let spaces = island(3, None).expand();
    let ids: Vec<&str> = spaces.iter().map(|s| s.id.as_str()).collect();
    assert_eq!(ids, ["E4-ア-1a", "E4-ア-1b", "E4-ア-2a", "E4-ア-2b", "E4-ア-3a", "E4-ア-3b"]);
    for s in &spaces {
        assert_eq!(s.block, "ア");
        assert_eq!(s.cluster, "E4-6");
        assert_eq!(s.building, Building::East);
        assert_eq!(s.hall, 4);
    }
    // 3 / 2 == 1 desk on face 0, two on face 1.
    assert_eq!(spaces[0].face, 0);
    assert_eq!((spaces[2].face, spaces[2].depth), (1, 2));
    assert_eq!((spaces[4].face, spaces[4].depth), (1, 1));
}

#[test]
fn wall_run_is_linear_on_one_face_with_offset_numbers() {
    let wall = Block {
        kind: BlockKind::Wall,
        number_base: 10,
        ..island(5, Some(1))
    };
    assert_eq!(wall.island_len(), 4);
    assert_eq!(wall.face_depth(5), (0, 5));
    let spaces = wall.expand();
    assert_eq!(spaces.len(), 10);
    assert_eq!(spaces[0].id, "E4-ア-11a");
    assert_eq!(spaces[9].id, "E4-ア-15b");
    assert!(spaces.iter().all(|s| s.face == 0));
    assert_eq!(spaces[9].depth, 5);
}

#[test]
fn expand_blocks_concatenates_in_block_order() {
    let other = Block {
        id: "E5-カ".into(),
        block: "カ".into(),
        hall: 5,
        ..island(2, None)
    };
    let spaces = expand_blocks(&vec![island(2, None), other]);
    let ids: Vec<&str> = spaces.iter().map(|s| s.id.as_str()).collect();
    assert_eq!(
        ids,
        ["E4-ア-1a", "E4-ア-1b", "E4-ア-2a", "E4-ア-2b", "E5-カ-1a", "E5-カ-1b", "E5-カ-2a", "E5-カ-2b"]
    );
}

#[test]
fn default_cluster_groups_halls() {
    assert_eq!(default_cluster(Building::East, 2), "E1-3");
    assert_eq!(default_cluster(Building::East, 4), "E4-6");
    assert_eq!(default_cluster(Building::East, 8), "E7-8");
    assert_eq!(default_cluster(Building::East, 9), "E9");
    assert_eq!(default_cluster(Building::West, 1), "W1-2");
    assert_eq!(default_cluster(Building::West, 3), "W3");
    assert_eq!(default_cluster(Building::South, 12), "S12");
}

fn row(id: &str, n_max: u16, face0_len: Option<u16>) -> BlockRow {
    BlockRow {
        id: id.into(),
        building: Building::West,
        hall: 1,
        along: Dir::N,
        cross: Dir::W,
        n_max,
        face0_len,
        kind: None,
        cluster: None,
        number_base: 0,
    }
}

fn rejection(r: BlockRow) -> String {
    match Block::from_row(r) {
        Err(CometError::Block { reason, .. }) => reason,
        other => panic!("row should be rejected, got {other:?}"),
    }
}

#[test]
fn block_rows_are_validated() {
    let b = Block::from_row(row("W1-あ", 20, Some(12))).expect("valid row");
    assert_eq!(b.block, "あ");
    assert_eq!(b.kind, BlockKind::Island);
    assert_eq!(b.cluster, "W1-2");
    assert_eq!(b.face0_len(), 12);

    let custom = BlockRow {
        cluster: Some("W-hub".into()),
        kind: Some(BlockKind::Wall),
        ..row("W1-あ", 20, None)
    };
    let b = Block::from_row(custom).expect("valid row");
    assert_eq!(b.cluster, "W-hub");
    assert_eq!(b.kind, BlockKind::Wall);

    let blank = BlockRow {
        cluster: Some("  ".into()),
        ..row("W1-あ", 20, None)
    };
    assert_eq!(Block::from_row(blank).expect("valid row").cluster, "W1-2");

    assert_eq!(
        rejection(row("W1あ", 20, None)),
        "id must look like '<building><hall>-<block>'"
    );
    assert_eq!(
        rejection(row("W1-", 20, None)),
        "id must look like '<building><hall>-<block>'"
    );
    assert_eq!(rejection(row("W1-あ", 0, None)), "n_max must be at least 1");
    assert_eq!(
        rejection(row("W1-あ", 20, Some(21))),
        "face0_len must not exceed n_max"
    );
    let high = BlockRow {
        number_base: 65530,
        ..row("W1-あ", 6, None)
    };
    assert_eq!(rejection(high), "number_base + n_max must fit in u16");
    let top = BlockRow {
        number_base: 65530,
        ..row("W1-あ", 5, None)
    };
    let b = Block::from_row(top).expect("the last number is exactly u16::MAX");
    assert_eq!(b.expand().last().map(|s| s.number), Some(65535));
}

#[test]
fn cluster_names_coincide_exactly_within_a_cluster() {
    let pairs = [
        (Building::East, 1),
        (Building::East, 3),
        (Building::East, 4),
        (Building::East, 8),
        (Building::East, 9),
        (Building::East, 10),
        (Building::West, 2),
        (Building::West, 3),
        (Building::South, 1),
        (Building::South, 2),
    ];
    for &(b1, h1) in &pairs {
        for &(b2, h2) in &pairs {
            let same = b1 == b2
                && (h1 == h2
                    || (b1 == Building::East
                        && ((1..=3).contains(&h1) && (1..=3).contains(&h2)
                            || (4..=6).contains(&h1) && (4..=6).contains(&h2)
                            || (7..=8).contains(&h1) && (7..=8).contains(&h2)))
                    || (b1 == Building::West && (1..=2).contains(&h1) && (1..=2).contains(&h2)));
            assert_eq!(default_cluster(b1, h1) == default_cluster(b2, h2), same, "{b1:?}{h1} vs {b2:?}{h2}");
        }
        assert!(default_cluster(b1, h1).starts_with(b1.as_char()));
    }
}

fn want(space: &str, name: &str) -> WantEntry {
    WantEntry {
        space: space.into(),
        name: name.into(),
    }
}

#[test]
fn wants_join_in_order_and_collect_misses() {
    let layout = Layout {
        event: Some("C107".into()),
        spaces: island(4, None).expand(),
    };
    let wants = vec![
        want("E4-ア-3b", "third"),
        want("E4-ア-9a", "absent"),
        want("E4-ア-1a", "first"),
    ];
    let r = resolve_wants(&layout, &wants);
    assert_eq!(r.len(), 2);
    assert!(!r.is_empty());
    assert_eq!(r.spaces[0].id, "E4-ア-3b");
    assert_eq!(r.spaces[1].id, "E4-ア-1a");
    assert_eq!(r.names, ["third", "first"]);
    assert_eq!(r.missing, ["E4-ア-9a"]);
    assert_eq!(r.layout_index, [5, 0]);
    assert_eq!(r.position("E4-ア-1a"), Some(1));
    assert_eq!(r.position("E4-ア-2a"), None);
}

#[test]
fn a_later_duplicate_space_shadows_an_earlier_one() {
    let mut spaces = island(2, None).expand();
    let mut dup = spaces[0].clone();
    dup.cluster = "later".into();
    spaces.push(dup);
    let layout = Layout { event: None, spaces };
    let r = resolve_wants(&layout, &vec![want("E4-ア-1a", "x")]);
    assert_eq!(r.layout_index, [4]);
    assert_eq!(r.spaces[0].cluster, "later");
}

#[test]
fn start_resolves_leniently_or_reports_why_not() {
    let layout = Layout {
        event: None,
        spaces: island(4, None).expand(),
    };
    let r = resolve_wants(&layout, &vec![want("E4-ア-3b", "c"), want("E4-ア-1a", "a")]);
    assert_eq!(resolve_start(&r, "e4-ア-1A").unwrap(), 1);
    match resolve_start(&r, "E4-ア-2a") {
        Err(CometError::StartNotFound(id)) => assert_eq!(id, "E4-ア-2a"),
        other => panic!("expected StartNotFound, got {other:?}"),
    }
    assert!(matches!(
        resolve_start(&r, "E4-ア"),
        Err(CometError::SpaceParse { .. })
    ));
}

#[test]
fn crossings_list_splits_into_items() {
    let items = split_crossings(" 3.5 ; 7@MAJOR;; 9 @ minor ;12@major ; \t");
    let got: Vec<(&str, bool)> = items.iter().map(|c| (c.along.as_str(), c.major)).collect();
    assert_eq!(got, [("3.5", false), ("7", true), ("9", false), ("12", true)]);
    assert!(split_crossings("").is_empty());
    let odd = split_crossings("4@majorx;5@ Major ");
    assert_eq!(odd[0].major, false);
    assert_eq!(odd[1].major, true);
}
