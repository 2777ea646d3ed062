use workpool::gzip::{build_huffman_tree, compress, huffman_encode, lz77_compress, Token};

#[test]
fn test_lz77_compression() {
    let data = b"abcabc";
    let tokens = lz77_compress(data, 100, 100);

    // Should find the repeated "abc"
    assert!(tokens.iter().any(|t| matches!(t, Token::Reference { .. })));
}

#[test]
fn test_huffman_tree() {
    let mut freq: Vec<(u16, usize)> = Vec::new();
    freq.push((65, 3)); // 'A' appears 3 times
    freq.push((66, 1)); // 'B' appears 1 time

    let tree = build_huffman_tree(&freq);
    assert!(tree.is_some());
}

#[test]
fn test_huffman_tree_empty_table() {
    let freq: Vec<(u16, usize)> = Vec::new();
    assert!(build_huffman_tree(&freq).is_none());
}

#[test]
fn test_lz77_overlapping_reference() {
    let data = b"aaaaaa";
    let tokens = lz77_compress(data, 100, 100);
    assert_eq!(tokens.len(), 2);
    assert!(matches!(tokens[0], Token::Literal(b'a')));
    assert!(matches!(tokens[1], Token::Reference { length: 5, distance: 1 }));
}

#[test]
fn test_lz77_no_repeats_gives_literals() {
    let data = b"abcdef";
    let tokens = lz77_compress(data, 100, 100);
    assert_eq!(tokens.len(), 6);
    assert!(tokens.iter().all(|t| matches!(t, Token::Literal(_))));
}

#[test]
fn test_huffman_encode_two_symbols() {
    let tokens = vec![
        Token::Literal(b'a'),
        Token::Literal(b'b'),
        Token::Literal(b'a'),
    ];
    let (encoded, codes) = huffman_encode(&tokens);
    assert_eq!(encoded, "010");
    assert!(codes.contains(&(97, "0".to_string())));
    assert!(codes.contains(&(98, "1".to_string())));
}

#[test]
fn test_huffman_encode_single_symbol_uses_zero_code() {
    let tokens = vec![Token::Literal(b'x'), Token::Literal(b'x')];
    let (encoded, codes) = huffman_encode(&tokens);
    assert_eq!(codes, vec![(120, "0".to_string())]);
    assert_eq!(encoded, "00");
}

#[test]
fn test_compress_produces_tokens_and_bits() {
    let data = b"Hello, World! Hello, World! This is a test. Hello, World!";
    let (encoded, codes, tokens) = compress(data);
    assert!(!tokens.is_empty());
    assert!(!codes.is_empty());
    assert!(!encoded.is_empty());
    assert!(encoded.chars().all(|c| c == '0' || c == '1'));
    assert!(tokens.iter().any(|t| matches!(t, Token::Reference { .. })));
}
