use treapkit::rle::{
    improved_rle_compress, improved_rle_decompress, rle_compress, rle_decompress,
};

#[test]
fn plain_coding_counts_runs() {
    assert_eq!(rle_compress(b"aaabcc"), vec![(3, b'a'), (1, b'b'), (2, b'c')]);
    assert_eq!(rle_compress(b"x"), vec![(1, b'x')]);
    let long = vec![7u8; 600];
    assert_eq!(rle_compress(&long), vec![(255, 7), (255, 7), (90, 7)]);
    assert_eq!(rle_decompress(&[(3, b'a'), (0, b'z'), (2, b'c')]), b"aaacc");
    assert_eq!(rle_decompress(&[]), b"");
}

#[test]
fn plain_coding_comes_back() {
    let mut data = Vec::new();
    for i in 0..2000u32 {
        data.extend(std::iter::repeat((i % 7) as u8).take((i % 13) as usize + 1));
    }
    assert_eq!(rle_decompress(&rle_compress(&data)), data);
}

#[test]
fn improved_coding_uses_one_or_two_count_bytes() {
    assert_eq!(improved_rle_compress(b"aaab"), vec![3, b'a', 1, b'b']);
    let run = vec![9u8; 127];
    assert_eq!(improved_rle_compress(&run), vec![127, 9]);
    let run = vec![9u8; 128];
    assert_eq!(improved_rle_compress(&run), vec![128, 128, 9]);
    let run = vec![9u8; 300];
    assert_eq!(improved_rle_compress(&run), vec![129, 44, 9]);
    assert_eq!(improved_rle_decompress(&[129, 44, 9]), run);
    assert_eq!(improved_rle_decompress(&[2, 5, 128, 0, 6, 1, 7]), vec![5, 5, 7]);
    assert_eq!(improved_rle_decompress(&[]), b"");
}

#[test]
fn improved_coding_comes_back() {
    let mut data = Vec::new();
    for i in 0..300u32 {
        data.extend(std::iter::repeat((i % 5) as u8).take((i * i % 1000) as usize + 1));
    }
    data.extend(std::iter::repeat(1u8).take(32767));
    data.push(2);
    assert_eq!(improved_rle_decompress(&improved_rle_compress(&data)), data);
}

#[test]
fn improved_coding_loses_the_highest_bit_of_a_long_count() {
    let data = vec![3u8; 40000];
    let coded = improved_rle_compress(&data);
    assert_eq!(coded, vec![128 | 156, 64, 3]);
    assert_eq!(improved_rle_decompress(&coded).len(), 40000 - 32768);
}
