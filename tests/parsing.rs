use kr2r_taxo::parse::{parse_u64, split_bytes};
use kr2r_taxo::{parse_names_file, parse_nodes_file};

#[test]
fn split_on_field_separator() {
    let parts = split_bytes(b"a\t|\tbb\t|\t", b"\t|\t");
    assert_eq!(parts, vec![b"a".to_vec(), b"bb".to_vec(), Vec::new()]);
    assert_eq!(split_bytes(b"", b"\t|\t"), vec![Vec::<u8>::new()]);
}

#[test]
fn decimal_parsing() {
    assert_eq!(parse_u64(b"0"), Some(0));
    assert_eq!(parse_u64(b"+42"), Some(42));
    assert_eq!(parse_u64(b"18446744073709551615"), Some(u64::MAX));
    assert_eq!(parse_u64(b"18446744073709551616"), None);
    assert_eq!(parse_u64(b""), None);
    assert_eq!(parse_u64(b"+"), None);
    assert_eq!(parse_u64(b"12a"), None);
    assert_eq!(parse_u64(b"-1"), None);
}

#[test]
fn nodes_file_tables() {
    let text = b"1\t|\t0\t|\tno rank\t|\t\t|\n3\t|\t1\t|\tspecies\t|\t\t|\n2\t|\t1\t|\tgenus\t|\t\t|\r\n";
    let (parents, children, ranks, known) = parse_nodes_file(text).unwrap();
    assert_eq!(parents[&2], 1);
    assert_eq!(parents[&1], 0);
    assert_eq!(children[&1], vec![2, 3]);
    assert_eq!(ranks[&3], b"species".to_vec());
    assert_eq!(known, vec![b"genus".to_vec(), b"no rank".to_vec(), b"species".to_vec()]);
}

#[test]
fn nodes_file_later_line_wins() {
    let text = b"1\t|\t0\t|\tno rank\t|\t\t|\n5\t|\t1\t|\tgenus\t|\t\t|\n6\t|\t1\t|\tgenus\t|\t\t|\n5\t|\t6\t|\tspecies\t|\t\t|\n";
    let (parents, children, ranks, known) = parse_nodes_file(text).unwrap();
    assert_eq!(parents[&5], 6);
    assert_eq!(children[&1], vec![6]);
    assert_eq!(children[&6], vec![5]);
    assert_eq!(ranks[&5], b"species".to_vec());
    assert_eq!(known.len(), 3);
}

#[test]
fn names_file_keeps_scientific_names() {
    let text = b"1\t|\troot\t|\t\t|\tscientific name\t|\n1\t|\tall\t|\t\t|\tsynonym\t|\n9\t|\tx\t|\n";
    let names = parse_names_file(text);
    assert_eq!(names.len(), 1);
    assert_eq!(names[&1], b"root".to_vec());
}

#[test]
fn names_file_unparsed_id_is_zero() {
    let names = parse_names_file(b"abc\t|\tOdd\t|\t\t|\tscientific name\t|\n");
    assert_eq!(names[&0], b"Odd".to_vec());
}

#[test]
fn nodes_rank_field_is_verbatim() {
    let (_, _, ranks, _) = parse_nodes_file(b"1\t|\t0\t|\tno rank\t|\n").unwrap();
    assert_eq!(ranks[&1], b"no rank\t|".to_vec());
}

#[test]
fn carriage_return_dropped_only_before_line_feed() {
    let names = parse_names_file(b"1\t|\troot\t|\t\t|\tscientific name\t|\r\n");
    assert_eq!(names[&1], b"root".to_vec());
    let (_, _, ranks, _) = parse_nodes_file(b"1\t|\t0\t|\tno rank\r").unwrap();
    assert_eq!(ranks[&1], b"no rank\r".to_vec());
    let (_, _, ranks, _) = parse_nodes_file(b"1\t|\t0\t|\tno rank\r\n").unwrap();
    assert_eq!(ranks[&1], b"no rank".to_vec());
}
