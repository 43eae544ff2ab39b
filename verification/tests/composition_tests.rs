use monument::composition::PathElem;
use monument::graph::{ChunkId, Link, LinkSet, LinkSide, RowIdx};
use monument::row::RowBuf;

#[test]
fn num_leads_covered() {
    assert_eq!(monument::composition::num_leads_covered(32, 0, 32), 1);
    assert_eq!(monument::composition::num_leads_covered(32, 2, 32), 2);
    assert_eq!(monument::composition::num_leads_covered(32, 2, 30), 1);
    assert_eq!(monument::composition::num_leads_covered(32, 0, 2), 1);
    assert_eq!(monument::composition::num_leads_covered(32, 16, 24), 2);
}

#[test]
fn num_leads_covered_boundaries() {
    // One whole lead from its head covers exactly one lead.
    for l in [4usize, 10, 12, 32] {
        assert_eq!(monument::composition::num_leads_covered(l, 0, l), 1);
    }
    // One whole lead from a snap start covers two leads.
    for l in [4usize, 10, 12, 32] {
        for k in 1..l {
            assert_eq!(monument::composition::num_leads_covered(l, k, l), 2);
        }
    }
    // Running from a snap start to the lead end covers one lead.
    for l in [4usize, 10, 12, 32] {
        for k in 0..l {
            if l - k > 0 {
                assert_eq!(monument::composition::num_leads_covered(l, k, l - k), 1);
            }
        }
    }
}

#[test]
fn path_elem_plain() {
    let elem = PathElem {
        start_row: RowBuf::parse("123456").unwrap(),
        method: 0,
        start_sub_lead_idx: 0,
        length: 12,
        call_to_end: None,
        ph_rotation: 0,
    };
    assert!(elem.ends_with_plain());
    let elem2 = PathElem {
        start_row: RowBuf::parse("123456").unwrap(),
        method: 0,
        start_sub_lead_idx: 0,
        length: 12,
        call_to_end: Some(0),
        ph_rotation: 0,
    };
    assert!(!elem2.ends_with_plain());
}

#[test]
fn link_set_finds_equal_links_only() {
    let id_a = ChunkId::new(RowBuf::parse("123456").unwrap(), RowIdx::new(0, 0));
    let id_b = ChunkId::new(RowBuf::parse("135264").unwrap(), RowIdx::new(0, 0));
    let mut links = LinkSet::new();
    let l_ab = Link::new(
        LinkSide::Chunk(id_a.clone()),
        LinkSide::Chunk(id_b.clone()),
        None,
        0,
    );
    let lid = links.add(l_ab);

    // The same value is found under its id; different calls or sides are not.
    let same = Link::new(
        LinkSide::Chunk(id_a.clone()),
        LinkSide::Chunk(id_b.clone()),
        None,
        0,
    );
    assert_eq!(links.find_link(&same), Some(lid));
    let with_call = Link::new(
        LinkSide::Chunk(id_a.clone()),
        LinkSide::Chunk(id_b.clone()),
        Some(0),
        0,
    );
    assert_eq!(links.find_link(&with_call), None);
    let ends = Link::new(LinkSide::Chunk(id_a), LinkSide::StartOrEnd, None, 0);
    assert_eq!(links.find_link(&ends), None);
}
