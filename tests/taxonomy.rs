use kr2r_taxo::{NCBITaxonomy, Taxonomy, TaxonomyError, TaxonomyNode};

const NODES: &str = "1\t|\t0\t|\tno rank\t|\t\t|\n2\t|\t1\t|\tgenus\t|\t\t|\n3\t|\t2\t|\tspecies\t|\t\t|\n4\t|\t1\t|\tgenus\t|\t\t|\n";
const NAMES: &str = "1\t|\troot\t|\t\t|\tscientific name\t|\n2\t|\tGenusA\t|\t\t|\tscientific name\t|\n3\t|\tSpeciesA\t|\t\t|\tscientific name\t|\n4\t|\tGenusB\t|\t\t|\tscientific name\t|\n";

fn sample() -> NCBITaxonomy {
    NCBITaxonomy::from_ncbi(NODES.as_bytes(), NAMES.as_bytes()).unwrap()
}

fn compacted() -> Taxonomy {
    let mut ncbi = sample();
    ncbi.mark_node(3);
    ncbi.mark_node(4);
    let mut taxo = ncbi.convert_to_kraken_taxonomy();
    taxo.generate_external_to_internal_id_map();
    taxo.build_path_cache();
    taxo
}

fn name_of(taxo: &Taxonomy, id: usize) -> String {
    let off = taxo.nodes[id].name_offset as usize;
    let end = off + taxo.name_data[off..].iter().position(|&b| b == 0).unwrap();
    String::from_utf8(taxo.name_data[off..end].to_vec()).unwrap()
}

fn rank_of(taxo: &Taxonomy, id: usize) -> String {
    let off = taxo.nodes[id].rank_offset as usize;
    let end = off + taxo.rank_data[off..].iter().position(|&b| b == 0).unwrap();
    String::from_utf8(taxo.rank_data[off..end].to_vec()).unwrap()
}

#[test]
fn example_scenario_marks_lineages() {
    let mut ncbi = sample();
    ncbi.mark_node(3);
    ncbi.mark_node(4);
    for id in [1u64, 2, 3, 4] {
        assert!(ncbi.is_marked(id));
    }
    assert!(!ncbi.is_marked(5));
}

#[test]
fn example_scenario_compacts_tree() {
    let taxo = compacted();
    assert_eq!(taxo.node_count(), 5);
    assert_eq!(taxo.nodes[0], TaxonomyNode::default());
    let root = taxo.nodes[1];
    assert_eq!(root.external_id, 1);
    assert_eq!(root.parent_id, 0);
    assert_eq!(root.child_count, 2);
    assert_eq!(root.first_child, 2);
    assert_eq!(name_of(&taxo, 2), "GenusA");
    assert_eq!(name_of(&taxo, 3), "GenusB");
    assert_eq!(taxo.nodes[2].child_count, 1);
    assert_eq!(taxo.nodes[2].first_child, 4);
    assert_eq!(taxo.nodes[3].child_count, 0);
    assert_eq!(taxo.nodes[4].external_id, 3);
    assert_eq!(taxo.nodes[4].parent_id, 2);
    assert_eq!(name_of(&taxo, 4), "SpeciesA");
    assert_eq!(name_of(&taxo, 1), "root");
    assert_eq!(rank_of(&taxo, 1), "no rank");
    assert_eq!(rank_of(&taxo, 2), "genus");
    assert_eq!(rank_of(&taxo, 4), "species");
}

#[test]
fn example_scenario_lca() {
    let taxo = compacted();
    let a = taxo.get_internal_id(3);
    let b = taxo.get_internal_id(4);
    assert_eq!(a, 4);
    assert_eq!(b, 3);
    assert_eq!(taxo.lca(a, b), taxo.get_internal_id(1));
    assert_eq!(taxo.lowest_common_ancestor(a, b), 1);
}

#[test]
fn blobs_are_exact() {
    let taxo = compacted();
    assert_eq!(taxo.name_data, b"root\0GenusA\0GenusB\0SpeciesA\0".to_vec());
    assert_eq!(taxo.rank_data, b"genus\0no rank\0species\0".to_vec());
    assert_eq!(taxo.nodes[1].rank_offset, 6);
    assert_eq!(taxo.nodes[4].rank_offset, 14);
    assert_eq!(taxo.nodes[3].name_offset, 12);
}

#[test]
fn rank_offset_data_is_sorted() {
    let ncbi = sample();
    let (offsets, data) = ncbi.get_rank_offset_data();
    assert_eq!(data, b"genus\0no rank\0species\0".to_vec());
    assert_eq!(offsets, vec![0, 6, 14]);
}

#[test]
fn contiguity_and_monotonicity_hold() {
    let taxo = compacted();
    let n = taxo.node_count();
    for v in 1..n {
        let node = taxo.nodes[v];
        for c in 2..n {
            let in_block = (node.first_child as usize) <= c
                && c < (node.first_child + node.child_count) as usize;
            assert_eq!(taxo.nodes[c].parent_id as usize == v, in_block);
        }
        if v >= 2 {
            assert!((taxo.nodes[v].parent_id as usize) < v);
        }
    }
}

#[test]
fn path_cache_holds_lineages() {
    let taxo = compacted();
    assert_eq!(taxo.path_cache[&1], vec![1]);
    assert_eq!(taxo.path_cache[&2], vec![1, 2]);
    assert_eq!(taxo.path_cache[&3], vec![1, 3]);
    assert_eq!(taxo.path_cache[&4], vec![1, 2, 4]);
    assert_eq!(taxo.path_cache.len(), 4);
}

#[test]
fn ancestor_queries_agree() {
    let taxo = compacted();
    for a in 1..5u32 {
        for b in 1..5u32 {
            let cached = taxo.is_a_ancestor_of_b(a, b);
            assert_eq!(cached, taxo.path_cache[&b].contains(&a));
            assert_eq!(cached, taxo.lca(a, b) == a);
            assert_eq!(cached, taxo._is_a_ancestor_of_b(a, b));
            assert_eq!(taxo.lca(a, b), taxo.lowest_common_ancestor(a, b));
        }
    }
    assert!(taxo.is_a_ancestor_of_b(2, 4));
    assert!(!taxo.is_a_ancestor_of_b(3, 4));
}

#[test]
fn zero_and_identity_cases() {
    let taxo = compacted();
    for x in 0..6u32 {
        assert_eq!(taxo.lca(x, x), x);
        assert_eq!(taxo.lca(0, x), x);
        assert_eq!(taxo.lca(x, 0), x);
        assert_eq!(taxo.lowest_common_ancestor(x, x), x);
        assert_eq!(taxo.lowest_common_ancestor(0, x), x);
        assert_eq!(taxo.lowest_common_ancestor(x, 0), x);
        assert!(!taxo.is_a_ancestor_of_b(0, x));
        assert!(!taxo.is_a_ancestor_of_b(x, 0));
        assert!(!taxo._is_a_ancestor_of_b(0, x));
        assert!(!taxo._is_a_ancestor_of_b(x, 0));
    }
}

#[test]
fn unknown_ids_are_conservative() {
    let taxo = compacted();
    assert_eq!(taxo.get_internal_id(99), 0);
    assert_eq!(taxo.get_internal_id(0), 0);
    assert_eq!(taxo.lca(9, 4), 0);
    assert_eq!(taxo.lowest_common_ancestor(9, 4), 0);
    assert!(!taxo.is_a_ancestor_of_b(1, 9));
}

#[test]
fn mark_twice_is_idempotent() {
    let mut once = sample();
    once.mark_node(3);
    let mut twice = sample();
    twice.mark_node(3);
    twice.mark_node(3);
    for id in 0..6u64 {
        assert_eq!(once.is_marked(id), twice.is_marked(id));
    }
}

#[test]
fn mark_below_marked_adds_only_itself() {
    let mut ncbi = sample();
    ncbi.mark_node(2);
    assert!(!ncbi.is_marked(4));
    ncbi.mark_node(3);
    assert!(ncbi.is_marked(3));
    assert!(!ncbi.is_marked(4));
    assert!(ncbi.is_marked(2));
}

#[test]
fn mark_unknown_node_marks_it_alone() {
    let mut ncbi = sample();
    ncbi.mark_node(77);
    assert!(ncbi.is_marked(77));
    let taxo = ncbi.convert_to_kraken_taxonomy();
    assert_eq!(taxo.node_count(), 2);
}

#[test]
fn missing_name_gives_empty_name() {
    let names = "2\t|\tGenusA\t|\t\t|\tscientific name\t|\n";
    let mut ncbi = NCBITaxonomy::from_ncbi(NODES.as_bytes(), names.as_bytes()).unwrap();
    ncbi.mark_node(2);
    let taxo = ncbi.convert_to_kraken_taxonomy();
    assert_eq!(taxo.name_data, b"\0GenusA\0".to_vec());
}

#[test]
fn bad_node_id_is_reported() {
    let nodes = "1\t|\t0\t|\tno rank\t|\t\t|\nx\t|\t1\t|\tgenus\t|\t\t|\n";
    let r = NCBITaxonomy::from_ncbi(nodes.as_bytes(), NAMES.as_bytes());
    assert_eq!(r.err(), Some(TaxonomyError::BadNodeId));
}

#[test]
fn bad_parent_id_is_reported() {
    let nodes = "1\t|\t0\t|\tno rank\t|\t\t|\n2\t|\t-1\t|\tgenus\t|\t\t|\n";
    let r = NCBITaxonomy::from_ncbi(nodes.as_bytes(), NAMES.as_bytes());
    assert_eq!(r.err(), Some(TaxonomyError::BadParentId));
}

#[test]
fn missing_root_still_loads() {
    let nodes = "2\t|\t1\t|\tgenus\t|\t\t|\n";
    let ncbi = NCBITaxonomy::from_ncbi(nodes.as_bytes(), NAMES.as_bytes()).unwrap();
    assert!(!ncbi.has_root());
    assert!(ncbi.is_marked(1));
    let empty = NCBITaxonomy::from_ncbi(b"", b"").unwrap();
    assert!(!empty.has_root());
    assert!(sample().has_root());
}

#[test]
fn root_parent_is_forced_to_zero() {
    let nodes = "# comment\n\n1\t|\t1\t|\tno rank\t|\t\t|\nshort\t|\tline\n2\t|\t+1\t|\tgenus\t|\t\t|\n";
    let mut ncbi = NCBITaxonomy::from_ncbi(nodes.as_bytes(), NAMES.as_bytes()).unwrap();
    assert_eq!(ncbi.node_record_count(), 2);
    ncbi.mark_node(2);
    let taxo = ncbi.convert_to_kraken_taxonomy();
    assert_eq!(taxo.node_count(), 3);
    assert_eq!(taxo.nodes[1].parent_id, 0);
    assert_eq!(taxo.nodes[2].external_id, 2);
}

#[test]
fn id_map_covers_every_node() {
    let taxo = compacted();
    for (i, node) in taxo.nodes.iter().enumerate() {
        assert_eq!(taxo.get_internal_id(node.external_id) as usize, i);
    }
}

#[test]
fn compacted_records_have_no_godparent() {
    let taxo = compacted();
    assert!(taxo.nodes.iter().all(|n| n.godparent_id == 0));
}

#[test]
fn zero_cases_hold_on_any_array() {
    let mut taxo = Taxonomy::default();
    taxo.nodes.push(TaxonomyNode::default());
    taxo.nodes.push(TaxonomyNode { parent_id: 5, ..TaxonomyNode::default() });
    assert_eq!(taxo.lowest_common_ancestor(0, 1), 1);
    assert_eq!(taxo.lowest_common_ancestor(1, 1), 1);
    assert!(taxo._is_a_ancestor_of_b(1, 1));
    assert!(!taxo._is_a_ancestor_of_b(0, 1));
}
