use overlapper::index::{largest_symbol, TextIndex};

fn search(index: &TextIndex, pattern: &[u8]) -> Option<(usize, usize)> {
    let mut ranks = (0, index.bwt.len() - 1);
    for &symbol in pattern.iter().rev() {
        ranks = index.extend(ranks.0, ranks.1, symbol)?;
    }
    Some(ranks)
}

fn places(index: &TextIndex, pattern: &[u8]) -> Vec<usize> {
    match search(index, pattern) {
        Some((lower, upper)) => {
            let mut places: Vec<usize> = (lower..=upper).map(|r| index.sa[r]).collect();
            places.sort();
            places
        }
        None => Vec::new(),
    }
}

#[test]
fn index_of_a_small_text() {
    let text = b"GCCTTAACATTATTACGCCTA$";
    let index = TextIndex::build(text, b"ACGNT");
    assert_eq!(
        index.sa,
        vec![21, 20, 5, 6, 14, 11, 8, 7, 17, 1, 15, 18, 2, 16, 0, 19, 4, 13, 10, 3, 12, 9]
    );
    assert_eq!(index.bwt, b"ATTATTCAGGACCC$CTTTCAA".to_vec());
    assert_eq!(index.less.len(), 86);
    assert_eq!(index.less[b'$' as usize], 0);
    assert_eq!(index.less[b'A' as usize], 1);
    assert_eq!(index.less[b'C' as usize], 7);
    assert_eq!(index.less[b'G' as usize], 13);
    assert_eq!(index.less[b'T' as usize], 15);
    assert_eq!(index.less[85], 22);
}

#[test]
fn backward_search_finds_every_place() {
    let text = b"GCCTTAACATTATTACGCCTA$";
    let index = TextIndex::build(text, b"ACGNT");
    assert_eq!(places(&index, b"TTA"), vec![3, 9, 12]);
    assert_eq!(places(&index, b"GCC"), vec![0, 16]);
    assert_eq!(places(&index, b"A"), vec![5, 6, 8, 11, 14, 20]);
    assert_eq!(places(&index, b"GCCTTAACATTATTACGCCTA"), vec![0]);
    assert_eq!(places(&index, b"TTT"), Vec::<usize>::new());
    assert_eq!(places(&index, b"N"), Vec::<usize>::new());
    assert_eq!(places(&index, b"A$"), vec![20]);
}

#[test]
fn backward_search_agrees_with_a_scan() {
    let text = b"$ACGTACG$GTACGTA$TTACG#";
    let index = TextIndex::build(text, b"ACGT");
    for pattern in [&b"ACG"[..], b"$", b"$A", b"$G", b"CG$", b"TAC", b"GT", b"TTT", b"G"] {
        let expected: Vec<usize> = (0..text.len())
            .filter(|&p| text[p..].starts_with(pattern))
            .collect();
        assert_eq!(places(&index, pattern), expected, "{:?}", pattern);
    }
}

#[test]
fn a_step_gives_the_ranks_of_the_longer_match() {
    let text = b"GCCTTAACATTATTACGCCTA$";
    let index = TextIndex::build(text, b"ACGNT");
    let all = (0, text.len() - 1);
    assert_eq!(index.extend(all.0, all.1, b'A'), Some((1, 6)));
    assert_eq!(index.extend(1, 6, b'T'), Some((15, 18)));
    assert_eq!(index.extend(15, 18, b'T'), Some((19, 21)));
    assert_eq!(index.extend(19, 21, b'T'), None);
    assert_eq!(index.extend(all.0, all.1, b'N'), None);
    assert_eq!(index.extend(0, 0, b'A'), Some((1, 1)));
}

#[test]
fn texts_that_can_be_indexed() {
    assert!(TextIndex::is_indexable(b"$ACGT$TTGA#", b"ACGT"));
    assert!(TextIndex::is_indexable(b"#", b"ACGT"));
    assert!(TextIndex::is_indexable(b"$ACGN#", b"ACGNT"));
    assert!(TextIndex::is_indexable(b"$ACGN#", b"ACGT"));
    assert!(!TextIndex::is_indexable(b"", b"ACGT"));
    assert!(!TextIndex::is_indexable(b"$ACGT#", b""));
    assert!(!TextIndex::is_indexable(b"$ACGU#", b"ACGT"));
    assert!(!TextIndex::is_indexable(b"$acgt#", b"ACGT"));
    assert!(!TextIndex::is_indexable(b"$AC#GT#", b"ACGT"));
    assert!(!TextIndex::is_indexable(b"$AC!GT#", b"ACGT"));
    assert!(!TextIndex::is_indexable(b"$ACGT", b"ACGT"));
}

#[test]
fn largest_of_some_symbols() {
    assert_eq!(largest_symbol(b"ACGT"), b'T');
    assert_eq!(largest_symbol(b"TGCA"), b'T');
    assert_eq!(largest_symbol(b"ACGNT"), b'T');
    assert_eq!(largest_symbol(b""), 0);
    assert_eq!(largest_symbol(&[7, 255, 3]), 255);
}
