use huffman_blocks::huffman::{encode, Symbol};

fn table(pairs: &[(u8, u64)]) -> Vec<u64> {
    let mut f = vec![0u64; 256];
    for &(b, c) in pairs {
        f[b as usize] = c;
    }
    f
}

fn codes(t: &[(u8, Symbol)]) -> Vec<(u8, Vec<bool>)> {
    t.iter().map(|(b, s)| (*b, s.data.clone())).collect()
}

#[test]
fn encode_gives_exact_codes() {
    let t = encode(&table(&[(b'a', 5), (b'b', 2), (b'c', 1), (b'd', 1)]));
    assert_eq!(
        codes(&t),
        vec![
            (b'a', vec![false]),
            (b'b', vec![true, true]),
            (b'c', vec![true, false, true]),
            (b'd', vec![true, false, false]),
        ]
    );
}

#[test]
fn encode_ties_are_broken_by_byte_value() {
    let t = encode(&table(&[(b'c', 1), (b'i', 1), (b'a', 1), (b'o', 1)]));
    assert_eq!(
        codes(&t),
        vec![
            (b'a', vec![true, true]),
            (b'c', vec![true, false]),
            (b'i', vec![false, true]),
            (b'o', vec![false, false]),
        ]
    );
}

#[test]
fn encode_is_deterministic() {
    let f = table(&[(1, 3), (2, 3), (3, 3), (200, 7), (9, 1)]);
    assert_eq!(codes(&encode(&f)), codes(&encode(&f)));
}

#[test]
fn encode_of_empty_table_is_empty() {
    assert!(encode(&vec![0u64; 256]).is_empty());
    assert!(encode(&Vec::new()).is_empty());
}

#[test]
fn encode_single_value_gets_one_bit() {
    assert_eq!(codes(&encode(&table(&[(42, 9)]))), vec![(42, vec![true])]);
}

#[test]
fn encode_codes_are_prefix_free() {
    let mut f = vec![0u64; 256];
    for (i, c) in f.iter_mut().enumerate() {
        *c = (i as u64 % 7) + 1;
    }
    let t = codes(&encode(&f));
    assert_eq!(t.len(), 256);
    for (i, (_, a)) in t.iter().enumerate() {
        assert!(!a.is_empty() && a.len() <= 255);
        for (j, (_, b)) in t.iter().enumerate() {
            if i != j {
                assert!(!(a.len() <= b.len() && b[..a.len()] == a[..]));
            }
        }
    }
}

#[test]
fn symbol_builders() {
    let s = Symbol::new();
    assert!(s.data.is_empty());
    let s = s.append(true).append(false);
    assert_eq!(s.data, vec![true, false]);
    assert_eq!(Symbol::from(vec![false, false, true]).data, vec![false, false, true]);
}
