use std::collections::HashMap;
use treapkit::chess_bit_moves::{
    bishop_moves, count_set_bits_cached, count_set_bits_kernighan, count_set_bits_table,
    king_moves, knight_moves, queen_moves, rook_moves, TABLE,
};

#[test]
fn test_king_moves() {
    let test_cases = [
        (0, 3, 770),
        (1, 5, 1797),
        (7, 3, 49216),
        (8, 5, 197123),
        (10, 8, 920078),
        (15, 5, 12599488),
        (54, 8, 16186183351374184448),
        (55, 5, 13853283560024178688),
        (56, 3, 144959613005987840),
        (63, 3, 4665729213955833856),
    ];

    for (input, expected_move_count, expected_moves) in test_cases.iter() {
        let (move_count, moves) = king_moves(*input);
        assert_eq!(move_count, *expected_move_count);
        assert_eq!(moves, *expected_moves);
    }
}

#[test]
fn test_knight_moves() {
    let test_cases = [
        (0, 2, 132096),
        (1, 3, 329728),
        (2, 4, 659712),
        (36, 8, 11333767002587136),
        (47, 4, 4620693356194824192),
        (48, 3, 288234782788157440),
        (54, 4, 1152939783987658752),
        (55, 3, 2305878468463689728),
        (56, 2, 1128098930098176),
        (63, 2, 9077567998918656),
    ];

    for (input, expected_move_count, expected_moves) in test_cases.iter() {
        let (move_count, moves) = knight_moves(*input);
        assert_eq!(move_count, *expected_move_count);
        assert_eq!(moves, *expected_moves);
    }
}

#[test]
fn test_rook_moves() {
    let test_cases = [
        (0, 14, 72340172838076926),
        (1, 14, 144680345676153597),
        (2, 14, 289360691352306939),
        (36, 14, 1157443723186933776),
        (47, 14, 9259541023762186368),
        (48, 14, 143553341945872641),
        (54, 14, 4665518383679160384),
        (55, 14, 9259260648297103488),
        (56, 14, 18302911464433844481),
        (63, 14, 9187484529235886208),
    ];

    for (input, expected_move_count, expected_moves) in test_cases.iter() {
        let (move_count, moves) = rook_moves(*input);
        assert_eq!(move_count, *expected_move_count);
        assert_eq!(moves, *expected_moves);
    }
}

#[test]
fn test_bishop_moves() {
    let test_cases = [
        (0, 7, 9241421688590303744),
        (1, 7, 36099303471056128),
        (2, 7, 141012904249856),
        (36, 13, 9386671504487645697),
        (47, 7, 2323857683139004420),
        (48, 7, 144117404414255168),
        (54, 9, 11529391036782871041),
        (55, 7, 4611756524879479810),
        (56, 7, 567382630219904),
        (63, 7, 18049651735527937),
    ];

    for (input, expected_move_count, expected_moves) in test_cases.iter() {
        let (move_count, moves) = bishop_moves(*input);
        assert_eq!(move_count, *expected_move_count);
        assert_eq!(moves, *expected_moves);
    }
}

#[test]
fn test_queen_moves() {
    let test_cases = [
        (0, 21, 9313761861428380670),
        (1, 21, 180779649147209725),
        (2, 21, 289501704256556795),
        (36, 27, 10544115227674579473),
        (47, 21, 11583398706901190788),
        (48, 21, 287670746360127809),
        (54, 23, 16194909420462031425),
        (55, 21, 13871017173176583298),
        (56, 21, 18303478847064064385),
        (63, 21, 9205534180971414145),
    ];

    for (input, expected_move_count, expected_moves) in test_cases.iter() {
        let (move_count, moves) = queen_moves(*input);
        assert_eq!(move_count, *expected_move_count);
        assert_eq!(moves, *expected_moves);
    }
}

#[test]
fn the_three_bit_counts_agree() {
    let mut cache = HashMap::new();
    let words = [0u64, 1, 0b101101011, 0xff, 0x8000_0000_0000_0000, u64::MAX, 0x0123_4567_89ab_cdef];
    let expected = [0u32, 1, 6, 8, 1, 64, 32];
    for (word, count) in words.iter().zip(expected) {
        assert_eq!(count_set_bits_kernighan(*word), count);
        assert_eq!(count_set_bits_table(*word), count);
        assert_eq!(count_set_bits_cached(*word, &mut cache), count);
        assert_eq!(cache.get(word), Some(&count));
    }
    assert_eq!(count_set_bits_cached(0b101101011, &mut cache), 6);
}

#[test]
fn the_table_counts_the_bits_of_each_byte() {
    for (byte, count) in TABLE.iter().enumerate() {
        assert_eq!(*count, byte.count_ones());
    }
}

#[test]
fn every_piece_reaches_what_the_board_allows() {
    let gap = |a: u8, b: u8| if a < b { b - a } else { a - b };
    for p in 0u8..64 {
        let (king_count, king) = king_moves(p);
        let (_, knight) = knight_moves(p);
        let (_, rook) = rook_moves(p);
        let (_, bishop) = bishop_moves(p);
        let (queen_count, queen) = queen_moves(p);
        assert_eq!(u32::from(king_count), king.count_ones());
        assert_eq!(u32::from(queen_count), queen.count_ones());
        assert_eq!(queen, rook | bishop);
        for b in 0u8..64 {
            let (dr, dc) = (gap(p / 8, b / 8), gap(p % 8, b % 8));
            assert_eq!(king >> b & 1 == 1, p != b && dr <= 1 && dc <= 1);
            assert_eq!(knight >> b & 1 == 1, (dr == 1 && dc == 2) || (dr == 2 && dc == 1));
            assert_eq!(rook >> b & 1 == 1, p != b && (dr == 0 || dc == 0));
            assert_eq!(bishop >> b & 1 == 1, p != b && dr == dc);
        }
    }
}
