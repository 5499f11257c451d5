use kr2r_taxo::{BaseType, OptionPair, SeqFormat, SeqHeader};

#[test]
fn option_pair_map_single_and_pair() {
    let single: Result<OptionPair<u32>, String> = OptionPair::Single(2u32).map(|x| Ok(x * 10));
    assert!(matches!(single, Ok(OptionPair::Single(20))));
    let pair: Result<OptionPair<u32>, String> = OptionPair::Pair(1u32, 2u32).map(|x| Ok(x + 1));
    assert!(matches!(pair, Ok(OptionPair::Pair(2, 3))));
    let failed: Result<OptionPair<u32>, String> =
        OptionPair::Pair(1u32, 2u32).map(|x| if x == 2 { Err(format!("bad {}", x)) } else { Ok(x) });
    assert_eq!(failed.err(), Some("bad 2".to_string()));
}

#[test]
fn option_pair_from_slice_and_tuple() {
    assert!(matches!(OptionPair::from_slice(&[7u8]), OptionPair::Single(7)));
    assert!(matches!(OptionPair::from_slice(&[7u8, 8]), OptionPair::Pair(7, 8)));
    assert!(matches!(OptionPair::from((1u8, Some(2u8))), OptionPair::Pair(1, 2)));
    assert!(matches!(OptionPair::from((1u8, None)), OptionPair::Single(1)));
}

#[test]
fn base_type_apply_and_len() {
    let b = BaseType::Pair(5u8, vec![1u8, 2, 3], vec![4u8]);
    assert_eq!(b.len(), BaseType::Pair((), 3, 1));
    assert_eq!(*b.get_s(), 5);
    let sums = b.apply(|p, s| *p as usize + s.len());
    assert_eq!(sums, BaseType::Pair((), 8, 6));
    let single = BaseType::Single(1u8, vec![9u8, 9]);
    assert_eq!(single.len(), BaseType::Single((), 2));
}

#[test]
fn base_type_mutating_methods() {
    let mut b = BaseType::Pair(2u8, vec![1u8], vec![3u8, 4]);
    b.modify(|p, s| s.push(*p));
    assert_eq!(b, BaseType::Pair(2u8, vec![1u8, 2], vec![3u8, 4, 2]));
    let lens = b.apply_mut(|_, s| {
        s.pop();
        s.len()
    });
    assert_eq!(lens, BaseType::Pair((), 1, 2));
    let mut total = 0usize;
    let folded = b.fold(&mut total, |acc, _, s| {
        *acc += s.len();
        *acc
    });
    assert_eq!(folded, BaseType::Pair((), 1, 3));
    assert_eq!(total, 3);
    let t = b.transform(|p, s| (*p + 1, s.len()));
    assert_eq!(t, BaseType::Pair(3u8, 1, 2));
}

#[test]
fn seq_header_fields() {
    let h = SeqHeader { id: "r1".to_string(), file_index: 1, reads_index: 2, format: SeqFormat::Fastq };
    assert_eq!(h.clone(), h);
    assert_ne!(h.format, SeqFormat::Fasta);
}
