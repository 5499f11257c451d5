use kr2r_taxo::{NCBITaxonomy, Taxonomy, TaxonomyError};

fn compacted() -> Taxonomy {
    let nodes = "1\t|\t0\t|\tno rank\t|\t\t|\n2\t|\t1\t|\tgenus\t|\t\t|\n3\t|\t2\t|\tspecies\t|\t\t|\n4\t|\t1\t|\tgenus\t|\t\t|\n";
    let names = "1\t|\troot\t|\t\t|\tscientific name\t|\n2\t|\tGenusA\t|\t\t|\tscientific name\t|\n3\t|\tSpeciesA\t|\t\t|\tscientific name\t|\n4\t|\tGenusB\t|\t\t|\tscientific name\t|\n";
    let mut ncbi = NCBITaxonomy::from_ncbi(nodes.as_bytes(), names.as_bytes()).unwrap();
    ncbi.mark_node(3);
    ncbi.mark_node(4);
    let mut taxo = ncbi.convert_to_kraken_taxonomy();
    taxo.generate_external_to_internal_id_map();
    taxo.build_path_cache();
    taxo
}

#[test]
fn encoding_layout() {
    let taxo = compacted();
    let bytes = taxo.to_bytes();
    assert_eq!(&bytes[0..8], b"K2TAXDAT");
    assert_eq!(&bytes[8..16], &5u64.to_le_bytes());
    assert_eq!(&bytes[16..24], &(taxo.name_data.len() as u64).to_le_bytes());
    assert_eq!(&bytes[24..32], &(taxo.rank_data.len() as u64).to_le_bytes());
    assert_eq!(bytes.len(), 32 + 5 * 56 + taxo.name_data.len() + taxo.rank_data.len());
    let root = 32 + 56;
    assert_eq!(&bytes[root + 8..root + 16], &2u64.to_le_bytes());
    assert_eq!(&bytes[root + 40..root + 48], &1u64.to_le_bytes());
}

#[test]
fn round_trip_keeps_everything() {
    let taxo = compacted();
    let back = Taxonomy::from_bytes(&taxo.to_bytes()).unwrap();
    assert_eq!(back.nodes, taxo.nodes);
    assert_eq!(back.name_data, taxo.name_data);
    assert_eq!(back.rank_data, taxo.rank_data);
    assert_eq!(back.path_cache, taxo.path_cache);
    assert_eq!(back.get_internal_id(3), 4);
}

#[test]
fn trailing_bytes_are_ignored() {
    let taxo = compacted();
    let mut bytes = taxo.to_bytes();
    bytes.extend_from_slice(b"extra");
    let back = Taxonomy::from_bytes(&bytes).unwrap();
    assert_eq!(back.nodes, taxo.nodes);
}

#[test]
fn bad_magic_is_rejected() {
    let mut bytes = compacted().to_bytes();
    bytes[0] = b'X';
    assert_eq!(Taxonomy::from_bytes(&bytes).err(), Some(TaxonomyError::BadMagic));
    assert_eq!(Taxonomy::from_bytes(b"K2TA").err(), Some(TaxonomyError::BadMagic));
}

#[test]
fn truncated_file_is_rejected() {
    let bytes = compacted().to_bytes();
    assert_eq!(Taxonomy::from_bytes(&bytes[..20]).err(), Some(TaxonomyError::Truncated));
    assert_eq!(
        Taxonomy::from_bytes(&bytes[..bytes.len() - 1]).err(),
        Some(TaxonomyError::Truncated)
    );
    let mut huge = bytes.clone();
    huge[8..16].copy_from_slice(&u64::MAX.to_le_bytes());
    assert_eq!(Taxonomy::from_bytes(&huge).err(), Some(TaxonomyError::Truncated));
}

#[test]
fn malformed_tree_is_rejected() {
    let mut bytes = compacted().to_bytes();
    let node2_parent = 32 + 2 * 56;
    bytes[node2_parent..node2_parent + 8].copy_from_slice(&3u64.to_le_bytes());
    assert_eq!(Taxonomy::from_bytes(&bytes).err(), Some(TaxonomyError::Malformed));
}
