use rust_compress::bit_vec::BitVec;
use rust_compress::huffman::HuffmanTree;

fn bits_of(v: &BitVec) -> Vec<bool> {
    let mut bits = Vec::new();
    let mut it = v.iter();
    while let Some(bit) = it.next() {
        bits.push(bit);
    }
    bits
}

fn codebook(counts: &[u128]) -> Vec<Vec<bool>> {
    let encoder = HuffmanTree::new(counts).encoder();
    (0..counts.len()).map(|s| bits_of(encoder.encode(s))).collect()
}

fn is_prefix(a: &[bool], b: &[bool]) -> bool {
    a.len() <= b.len() && a == &b[..a.len()]
}

fn cost(counts: &[u128], lengths: &[usize]) -> u128 {
    let mut sum = 0;
    for s in 0..counts.len() {
        sum += counts[s] * lengths[s] as u128;
    }
    sum
}

/// The least cost over all codeword lengths that satisfy Kraft's inequality,
/// found by trying every assignment of lengths below the alphabet's size.
fn least_cost(counts: &[u128]) -> u128 {
    let n = counts.len();
    let longest = n - 1;
    let mut lengths = vec![1usize; n];
    let mut best = u128::MAX;
    loop {
        let mut kraft: u64 = 0;
        for s in 0..n {
            kraft += 1u64 << (longest - lengths[s]);
        }
        if kraft <= 1u64 << longest {
            let c = cost(counts, &lengths);
            if c < best {
                best = c;
            }
        }
        let mut k = 0;
        while k < n && lengths[k] == longest {
            lengths[k] = 1;
            k += 1;
        }
        if k == n {
            return best;
        }
        lengths[k] += 1;
    }
}

struct Lcg(u64);

impl Lcg {
    fn next(&mut self) -> u64 {
        self.0 = self.0.wrapping_mul(6364136223846793005).wrapping_add(1442695040888963407);
        self.0 >> 33
    }
}

#[test]
fn encode_uniform() {
    let tree = HuffmanTree::new(&[1, 1, 1, 1]);
    let encoder = tree.encoder();
    assert_eq!(encoder.encode(0).len(), 2);
    assert_eq!(encoder.encode(1).len(), 2);
    assert_eq!(encoder.encode(2).len(), 2);
    assert_eq!(encoder.encode(3).len(), 2);
}

#[test]
fn encode_2() {
    let tree = HuffmanTree::new(&[1, 2, 4, 8]);
    let encoder = tree.encoder();
    assert_eq!(encoder.encode(0).len(), 3);
    assert_eq!(encoder.encode(1).len(), 3);
    assert_eq!(encoder.encode(2).len(), 2);
    assert_eq!(encoder.encode(3).len(), 1);
}

#[test]
fn encode_decode() {
    let tree = HuffmanTree::new(&[10, 100, 20, 50, 60, 10]);
    let encoder = tree.encoder();
    let decoder = tree.decoder();
    assert_eq!(decoder.decode(&mut encoder.encode(0).iter()), 0);
    assert_eq!(decoder.decode(&mut encoder.encode(1).iter()), 1);
    assert_eq!(decoder.decode(&mut encoder.encode(2).iter()), 2);
    assert_eq!(decoder.decode(&mut encoder.encode(3).iter()), 3);
    assert_eq!(decoder.decode(&mut encoder.encode(4).iter()), 4);
    assert_eq!(decoder.decode(&mut encoder.encode(5).iter()), 5);
}

#[test]
fn two_symbols_get_one_bit_each() {
    let code = codebook(&[5, 3]);
    assert_eq!(code, vec![vec![false], vec![true]]);
    let code = codebook(&[3, 5]);
    assert_eq!(code, vec![vec![true], vec![false]]);
}

#[test]
fn equal_counts_take_the_lower_symbol_first() {
    let code = codebook(&[1, 1]);
    assert_eq!(code, vec![vec![true], vec![false]]);
    let code = codebook(&[1, 1, 1, 1]);
    assert_eq!(
        code,
        vec![vec![true, true], vec![true, false], vec![false, true], vec![false, false]]
    );
}

#[test]
fn codewords_of_a_skewed_table() {
    let code = codebook(&[1, 2, 4, 8]);
    assert_eq!(
        code,
        vec![vec![true, true, true], vec![true, true, false], vec![true, false], vec![false]]
    );
}

#[test]
fn zero_counts_are_coded_too() {
    let code = codebook(&[0, 0, 7]);
    assert_eq!(code.len(), 3);
    assert_eq!(code[2].len(), 1);
    assert_eq!(code[0].len(), 2);
    assert_eq!(code[1].len(), 2);
}

#[test]
fn large_counts_do_not_overflow() {
    let big = u128::MAX / 4;
    let code = codebook(&[big, big, big, big]);
    for word in &code {
        assert_eq!(word.len(), 2);
    }
}

#[test]
fn no_codeword_is_a_prefix_of_another() {
    let tables: Vec<Vec<u128>> = vec![
        vec![1, 1],
        vec![1, 1, 1, 1],
        vec![1, 2, 4, 8],
        vec![10, 100, 20, 50, 60, 10],
        vec![0, 0, 0, 1, 1, 2, 3, 5, 8, 13, 21],
    ];
    for counts in tables {
        let code = codebook(&counts);
        assert_eq!(code.len(), counts.len());
        for i in 0..code.len() {
            for j in 0..code.len() {
                if i != j {
                    assert!(!is_prefix(&code[i], &code[j]));
                }
            }
        }
    }
}

#[test]
fn decoding_a_stream_takes_one_codeword_at_a_time() {
    let counts = [10, 100, 20, 50, 60, 10];
    let tree = HuffmanTree::new(&counts);
    let encoder = tree.encoder();
    let decoder = tree.decoder();
    let text = [3usize, 1, 1, 5, 0, 2, 4, 4, 1, 0, 5, 3];
    let mut stream = BitVec::new();
    let mut total = 0;
    for &s in &text {
        let word = encoder.encode(s);
        total += word.len();
        for bit in word.iter() {
            stream.push(bit);
        }
    }
    assert_eq!(stream.len(), total);
    let mut input = stream.iter();
    for &s in &text {
        assert_eq!(decoder.decode(&mut input), s);
    }
    assert_eq!(input.next(), None);
}

#[test]
fn decoding_leaves_what_follows_the_codeword() {
    let tree = HuffmanTree::new(&[1, 2, 4, 8]);
    let decoder = tree.decoder();
    let mut input = vec![true, false, false, true].into_iter();
    assert_eq!(decoder.decode(&mut input), 2);
    assert_eq!(input.next(), Some(false));
    assert_eq!(input.next(), Some(true));
    assert_eq!(input.next(), None);
}

#[test]
fn derived_tables_can_be_cloned() {
    let tree = HuffmanTree::new(&[4, 1, 1, 2]).clone();
    let encoder = tree.encoder().clone();
    let decoder = tree.decoder().clone();
    for s in 0..4 {
        assert_eq!(decoder.decode(&mut encoder.encode(s).iter()), s);
    }
}

#[test]
fn random_tables_round_trip() {
    let mut rng = Lcg(2024);
    for _ in 0..60 {
        let n = 2 + (rng.next() % 49) as usize;
        let counts: Vec<u128> = (0..n).map(|_| 1 + (rng.next() % 1000) as u128).collect();
        let tree = HuffmanTree::new(&counts);
        let encoder = tree.encoder();
        let decoder = tree.decoder();
        let mut kraft = 0u128;
        for s in 0..n {
            let word = encoder.encode(s);
            assert!(word.len() >= 1 && word.len() < n);
            kraft += 1u128 << (n - word.len());
            assert_eq!(decoder.decode(&mut word.iter()), s);
        }
        assert_eq!(kraft, 1u128 << n);
    }
}

#[test]
fn small_tables_have_the_least_cost() {
    let mut rng = Lcg(7);
    for round in 0..40 {
        let n = 2 + (round % 5) as usize;
        let counts: Vec<u128> = (0..n).map(|_| (rng.next() % 20) as u128).collect();
        let code = codebook(&counts);
        let lengths: Vec<usize> = code.iter().map(|w| w.len()).collect();
        assert_eq!(cost(&counts, &lengths), least_cost(&counts));
    }
}

#[test]
fn cost_of_known_tables() {
    let lengths = |counts: &[u128]| -> Vec<usize> {
        codebook(counts).iter().map(|w| w.len()).collect()
    };
    assert_eq!(cost(&[1, 1, 1, 1], &lengths(&[1, 1, 1, 1])), 8);
    assert_eq!(cost(&[1, 2, 4, 8], &lengths(&[1, 2, 4, 8])), 25);
    let counts = [10, 100, 20, 50, 60, 10];
    assert_eq!(cost(&counts, &lengths(&counts)), 550);
}

#[test]
fn accepts_tables_that_can_be_built() {
    assert!(!HuffmanTree::accepts(&[]));
    assert!(!HuffmanTree::accepts(&[7]));
    assert!(HuffmanTree::accepts(&[0, 0]));
    assert!(HuffmanTree::accepts(&[1, 2, 4, 8]));
    assert!(HuffmanTree::accepts(&[u128::MAX - 1, 1]));
    assert!(HuffmanTree::accepts(&[u128::MAX, 0, 0]));
    assert!(!HuffmanTree::accepts(&[u128::MAX, 1]));
    assert!(!HuffmanTree::accepts(&[u128::MAX / 2, u128::MAX / 2, 2]));
}

#[test]
fn counts_up_to_the_limit_are_coded() {
    let counts = [u128::MAX - 3, 1, 2];
    assert!(HuffmanTree::accepts(&counts));
    let code = codebook(&counts);
    assert_eq!(code[0].len(), 1);
    assert_eq!(code[1].len(), 2);
    assert_eq!(code[2].len(), 2);
}
