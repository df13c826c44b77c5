use vstd::prelude::*;

verus! {

/// The error correction blocks of one version at one level: the number of error
/// correction codewords of each block, and one or two runs of blocks, each with a count
/// of blocks and the number of data codewords of each of them. Where there is one run,
/// the second count is zero.
pub struct BlockLayout {
    pub ec: int,
    pub first_count: int,
    pub first_data: int,
    pub second_count: int,
    pub second_data: int,
}

/// A layout from its five numbers.
pub open spec fn layout(ec: int, c1: int, d1: int, c2: int, d2: int) -> BlockLayout {
    BlockLayout { ec, first_count: c1, first_data: d1, second_count: c2, second_data: d2 }
}

/// The layout at the level with the ordinal `level` among those of the levels L, M, Q
/// and H.
pub open spec fn at_level(level: int, l: BlockLayout, m: BlockLayout, q: BlockLayout, h: BlockLayout) -> BlockLayout {
    if level == 0 {
        l
    } else if level == 1 {
        m
    } else if level == 2 {
        q
    } else {
        h
    }
}

/// The error correction blocks of the version numbered `number` at the level with the
/// ordinal `level`, as the standard gives them.
pub open spec fn standard_blocks(number: int, level: int) -> BlockLayout {
    if number == 1 {
        at_level(
            level,
            layout(7, 1, 19, 0, 0),
            layout(10, 1, 16, 0, 0),
            layout(13, 1, 13, 0, 0),
            layout(17, 1, 9, 0, 0),
        )
    } else if number == 2 {
        at_level(
            level,
            layout(10, 1, 34, 0, 0),
            layout(16, 1, 28, 0, 0),
            layout(22, 1, 22, 0, 0),
            layout(28, 1, 16, 0, 0),
        )
    } else if number == 3 {
        at_level(
            level,
            layout(15, 1, 55, 0, 0),
            layout(26, 1, 44, 0, 0),
            layout(18, 2, 17, 0, 0),
            layout(22, 2, 13, 0, 0),
        )
    } else if number == 4 {
        at_level(
            level,
            layout(20, 1, 80, 0, 0),
            layout(18, 2, 32, 0, 0),
            layout(26, 2, 24, 0, 0),
            layout(16, 4, 9, 0, 0),
        )
    } else if number == 5 {
        at_level(
            level,
            layout(26, 1, 108, 0, 0),
            layout(24, 2, 43, 0, 0),
            layout(18, 2, 15, 2, 16),
            layout(22, 2, 11, 2, 12),
        )
    } else if number == 6 {
        at_level(
            level,
            layout(18, 2, 68, 0, 0),
            layout(16, 4, 27, 0, 0),
            layout(24, 4, 19, 0, 0),
            layout(28, 4, 15, 0, 0),
        )
    } else if number == 7 {
        at_level(
            level,
            layout(20, 2, 78, 0, 0),
            layout(18, 4, 31, 0, 0),
            layout(18, 2, 14, 4, 15),
            layout(26, 4, 13, 1, 14),
        )
    } else if number == 8 {
        at_level(
            level,
            layout(24, 2, 97, 0, 0),
            layout(22, 2, 38, 2, 39),
            layout(22, 4, 18, 2, 19),
            layout(26, 4, 14, 2, 15),
        )
    } else if number == 9 {
        at_level(
            level,
            layout(30, 2, 116, 0, 0),
            layout(22, 3, 36, 2, 37),
            layout(20, 4, 16, 4, 17),
            layout(24, 4, 12, 4, 13),
        )
    } else if number == 10 {
        at_level(
            level,
            layout(18, 2, 68, 2, 69),
            layout(26, 4, 43, 1, 44),
            layout(24, 6, 19, 2, 20),
            layout(28, 6, 15, 2, 16),
        )
    } else if number == 11 {
        at_level(
            level,
            layout(20, 4, 81, 0, 0),
            layout(30, 1, 50, 4, 51),
            layout(28, 4, 22, 4, 23),
            layout(24, 3, 12, 8, 13),
        )
    } else if number == 12 {
        at_level(
            level,
            layout(24, 2, 92, 2, 93),
            layout(22, 6, 36, 2, 37),
            layout(26, 4, 20, 6, 21),
            layout(28, 7, 14, 4, 15),
        )
    } else if number == 13 {
        at_level(
            level,
            layout(26, 4, 107, 0, 0),
            layout(22, 8, 37, 1, 38),
            layout(24, 8, 20, 4, 21),
            layout(22, 12, 11, 4, 12),
        )
    } else if number == 14 {
        at_level(
            level,
            layout(30, 3, 115, 1, 116),
            layout(24, 4, 40, 5, 41),
            layout(20, 11, 16, 5, 17),
            layout(24, 11, 12, 5, 13),
        )
    } else if number == 15 {
        at_level(
            level,
            layout(22, 5, 87, 1, 88),
            layout(24, 5, 41, 5, 42),
            layout(30, 5, 24, 7, 25),
            layout(24, 11, 12, 7, 13),
        )
    } else if number == 16 {
        at_level(
            level,
            layout(24, 5, 98, 1, 99),
            layout(28, 7, 45, 3, 46),
            layout(24, 15, 19, 2, 20),
            layout(30, 3, 15, 13, 16),
        )
    } else if number == 17 {
        at_level(
            level,
            layout(28, 1, 107, 5, 108),
            layout(28, 10, 46, 1, 47),
            layout(28, 1, 22, 15, 23),
            layout(28, 2, 14, 17, 15),
        )
    } else if number == 18 {
        at_level(
            level,
            layout(30, 5, 120, 1, 121),
            layout(26, 9, 43, 4, 44),
            layout(28, 17, 22, 1, 23),
            layout(28, 2, 14, 19, 15),
        )
    } else if number == 19 {
        at_level(
            level,
            layout(28, 3, 113, 4, 114),
            layout(26, 3, 44, 11, 45),
            layout(26, 17, 21, 4, 22),
            layout(26, 9, 13, 16, 14),
        )
    } else if number == 20 {
        at_level(
            level,
            layout(28, 3, 107, 5, 108),
            layout(26, 3, 41, 13, 42),
            layout(30, 15, 24, 5, 25),
            layout(28, 15, 15, 10, 16),
        )
    } else if number == 21 {
        at_level(
            level,
            layout(28, 4, 116, 4, 117),
            layout(26, 17, 42, 0, 0),
            layout(28, 17, 22, 6, 23),
            layout(30, 19, 16, 6, 17),
        )
    } else if number == 22 {
        at_level(
            level,
            layout(28, 2, 111, 7, 112),
            layout(28, 17, 46, 0, 0),
            layout(30, 7, 24, 16, 25),
            layout(24, 34, 13, 0, 0),
        )
    } else if number == 23 {
        at_level(
            level,
            layout(30, 4, 121, 5, 122),
            layout(28, 4, 47, 14, 48),
            layout(30, 11, 24, 14, 25),
            layout(30, 16, 15, 14, 16),
        )
    } else if number == 24 {
        at_level(
            level,
            layout(30, 6, 117, 4, 118),
            layout(28, 6, 45, 14, 46),
            layout(30, 11, 24, 16, 25),
            layout(30, 30, 16, 2, 17),
        )
    } else if number == 25 {
        at_level(
            level,
            layout(26, 8, 106, 4, 107),
            layout(28, 8, 47, 13, 48),
            layout(30, 7, 24, 22, 25),
            layout(30, 22, 15, 13, 16),
        )
    } else if number == 26 {
        at_level(
            level,
            layout(28, 10, 114, 2, 115),
            layout(28, 19, 46, 4, 47),
            layout(28, 28, 22, 6, 23),
            layout(30, 33, 16, 4, 17),
        )
    } else if number == 27 {
        at_level(
            level,
            layout(30, 8, 122, 4, 123),
            layout(28, 22, 45, 3, 46),
            layout(30, 8, 23, 26, 24),
            layout(30, 12, 15, 28, 16),
        )
    } else if number == 28 {
        at_level(
            level,
            layout(30, 3, 117, 10, 118),
            layout(28, 3, 45, 23, 46),
            layout(30, 4, 24, 31, 25),
            layout(30, 11, 15, 31, 16),
        )
    } else if number == 29 {
        at_level(
            level,
            layout(30, 7, 116, 7, 117),
            layout(28, 21, 45, 7, 46),
            layout(30, 1, 23, 37, 24),
            layout(30, 19, 15, 26, 16),
        )
    } else if number == 30 {
        at_level(
            level,
            layout(30, 5, 115, 10, 116),
            layout(28, 19, 47, 10, 48),
            layout(30, 15, 24, 25, 25),
            layout(30, 23, 15, 25, 16),
        )
    } else if number == 31 {
        at_level(
            level,
            layout(30, 13, 115, 3, 116),
            layout(28, 2, 46, 29, 47),
            layout(30, 42, 24, 1, 25),
            layout(30, 23, 15, 28, 16),
        )
    } else if number == 32 {
        at_level(
            level,
            layout(30, 17, 115, 0, 0),
            layout(28, 10, 46, 23, 47),
            layout(30, 10, 24, 35, 25),
            layout(30, 19, 15, 35, 16),
        )
    } else if number == 33 {
        at_level(
            level,
            layout(30, 17, 115, 1, 116),
            layout(28, 14, 46, 21, 47),
            layout(30, 29, 24, 19, 25),
            layout(30, 11, 15, 46, 16),
        )
    } else if number == 34 {
        at_level(
            level,
            layout(30, 13, 115, 6, 116),
            layout(28, 14, 46, 23, 47),
            layout(30, 44, 24, 7, 25),
            layout(30, 59, 16, 1, 17),
        )
    } else if number == 35 {
        at_level(
            level,
            layout(30, 12, 121, 7, 122),
            layout(28, 12, 47, 26, 48),
            layout(30, 39, 24, 14, 25),
            layout(30, 22, 15, 41, 16),
        )
    } else if number == 36 {
        at_level(
            level,
            layout(30, 6, 121, 14, 122),
            layout(28, 6, 47, 34, 48),
            layout(30, 46, 24, 10, 25),
            layout(30, 2, 15, 64, 16),
        )
    } else if number == 37 {
        at_level(
            level,
            layout(30, 17, 122, 4, 123),
            layout(28, 29, 46, 14, 47),
            layout(30, 49, 24, 10, 25),
            layout(30, 24, 15, 46, 16),
        )
    } else if number == 38 {
        at_level(
            level,
            layout(30, 4, 122, 18, 123),
            layout(28, 13, 46, 32, 47),
            layout(30, 48, 24, 14, 25),
            layout(30, 42, 15, 32, 16),
        )
    } else if number == 39 {
        at_level(
            level,
            layout(30, 20, 117, 4, 118),
            layout(28, 40, 47, 7, 48),
            layout(30, 43, 24, 22, 25),
            layout(30, 10, 15, 67, 16),
        )
    } else {
        at_level(
            level,
            layout(30, 19, 118, 6, 119),
            layout(28, 18, 47, 31, 48),
            layout(30, 34, 24, 34, 25),
            layout(30, 20, 15, 61, 16),
        )
    }
}

/// The centers of the alignment patterns of the version numbered `number`, the same
/// along both axes, as the standard gives them.
pub open spec fn standard_centers(number: int) -> Seq<usize> {
    if number == 1 {
        Seq::empty()
    } else if number == 2 {
        seq![6usize, 18]
    } else if number == 3 {
        seq![6usize, 22]
    } else if number == 4 {
        seq![6usize, 26]
    } else if number == 5 {
        seq![6usize, 30]
    } else if number == 6 {
        seq![6usize, 34]
    } else if number == 7 {
        seq![6usize, 22, 38]
    } else if number == 8 {
        seq![6usize, 24, 42]
    } else if number == 9 {
        seq![6usize, 26, 46]
    } else if number == 10 {
        seq![6usize, 28, 50]
    } else if number == 11 {
        seq![6usize, 30, 54]
    } else if number == 12 {
        seq![6usize, 32, 58]
    } else if number == 13 {
        seq![6usize, 34, 62]
    } else if number == 14 {
        seq![6usize, 26, 46, 66]
    } else if number == 15 {
        seq![6usize, 26, 48, 70]
    } else if number == 16 {
        seq![6usize, 26, 50, 74]
    } else if number == 17 {
        seq![6usize, 30, 54, 78]
    } else if number == 18 {
        seq![6usize, 30, 56, 82]
    } else if number == 19 {
        seq![6usize, 30, 58, 86]
    } else if number == 20 {
        seq![6usize, 34, 62, 90]
    } else if number == 21 {
        seq![6usize, 28, 50, 72, 94]
    } else if number == 22 {
        seq![6usize, 26, 50, 74, 98]
    } else if number == 23 {
        seq![6usize, 30, 54, 78, 102]
    } else if number == 24 {
        seq![6usize, 28, 54, 80, 106]
    } else if number == 25 {
        seq![6usize, 32, 58, 84, 110]
    } else if number == 26 {
        seq![6usize, 30, 58, 86, 114]
    } else if number == 27 {
        seq![6usize, 34, 62, 90, 118]
    } else if number == 28 {
        seq![6usize, 26, 50, 74, 98, 122]
    } else if number == 29 {
        seq![6usize, 30, 54, 78, 102, 126]
    } else if number == 30 {
        seq![6usize, 26, 52, 78, 104, 130]
    } else if number == 31 {
        seq![6usize, 30, 56, 82, 108, 134]
    } else if number == 32 {
        seq![6usize, 34, 60, 86, 112, 138]
    } else if number == 33 {
        seq![6usize, 30, 58, 86, 114, 142]
    } else if number == 34 {
        seq![6usize, 34, 62, 90, 118, 146]
    } else if number == 35 {
        seq![6usize, 30, 54, 78, 102, 126, 150]
    } else if number == 36 {
        seq![6usize, 24, 50, 76, 102, 128, 154]
    } else if number == 37 {
        seq![6usize, 28, 54, 80, 106, 132, 158]
    } else if number == 38 {
        seq![6usize, 32, 58, 84, 110, 136, 162]
    } else if number == 39 {
        seq![6usize, 26, 54, 82, 110, 138, 166]
    } else {
        seq![6usize, 30, 58, 86, 114, 142, 170]
    }
}

/// The number of blocks of the version numbered `number` at the level with the ordinal
/// `level`.
pub open spec fn standard_num_blocks(number: int, level: int) -> int {
    let b = standard_blocks(number, level);
    b.first_count + b.second_count
}

/// The number of data codewords of the version numbered `number` at the level with the
/// ordinal `level`.
pub open spec fn standard_data_codewords(number: int, level: int) -> int {
    let b = standard_blocks(number, level);
    b.first_count * b.first_data + b.second_count * b.second_data
}

/// The number of codewords of the version numbered `number`, as its blocks at the level
/// with the ordinal `level` give it: the same at every level.
pub open spec fn standard_total_codewords(number: int, level: int) -> int {
    let b = standard_blocks(number, level);
    b.first_count * (b.first_data + b.ec) + b.second_count * (b.second_data + b.ec)
}

/// The counts of a version and level whose layout is known: the number of its blocks,
/// of its data codewords and of its codewords, from the five numbers of the layout.
pub proof fn lemma_layout_counts(number: int, level: int, ec: int, c1: int, d1: int, c2: int, d2: int)
    requires
        standard_blocks(number, level) == layout(ec, c1, d1, c2, d2),
    ensures
        standard_num_blocks(number, level) == c1 + c2,
        standard_data_codewords(number, level) == c1 * d1 + c2 * d2,
        standard_total_codewords(number, level) == c1 * (d1 + ec) + c2 * (d2 + ec),
{
}

/// How the blocks of every version and level of the standard are laid out: there is a
/// first run of blocks with data; a second run, where there is one, has one data codeword
/// more in each block; and a block has from 7 to 30 codewords of error correction.
pub proof fn lemma_standard_layout(number: int, level: int)
    requires
        1 <= number <= 40,
        0 <= level < 4,
    ensures
        7 <= standard_blocks(number, level).ec <= 30,
        1 <= standard_blocks(number, level).first_count,
        1 <= standard_blocks(number, level).first_data,
        0 <= standard_blocks(number, level).second_count,
        standard_blocks(number, level).second_count == 0 || standard_blocks(
            number,
            level,
        ).second_data == standard_blocks(number, level).first_data + 1,
        1 <= standard_num_blocks(number, level) <= 81,
        1 <= standard_data_codewords(number, level) < standard_total_codewords(number, level),
{
    let b = standard_blocks(number, level);
    let ec = b.ec;
    let c1 = b.first_count;
    let d1 = b.first_data;
    let c2 = b.second_count;
    let d2 = b.second_data;
    assert(7 <= ec && 1 <= c1 && 1 <= d1 && 0 <= c2 && (c2 == 0 || d2 == d1 + 1));
    assert(1 <= c1 * d1 + c2 * d2 < c1 * (d1 + ec) + c2 * (d2 + ec)) by (nonlinear_arith)
        requires
            7 <= ec,
            1 <= c1,
            1 <= d1,
            0 <= c2,
            c2 == 0 || d2 == d1 + 1,
    ;
}

/// A version has at least as many data codewords at a level as the version before it.
pub proof fn lemma_data_codewords_step(number: int, level: int)
    requires
        1 <= number < 40,
        0 <= level < 4,
    ensures
        standard_data_codewords(number, level) <= standard_data_codewords(number + 1, level),
{
}

/// The data codewords at a level grow with the version.
pub proof fn lemma_data_codewords_grow(smaller: int, larger: int, level: int)
    requires
        1 <= smaller <= larger <= 40,
        0 <= level < 4,
    ensures
        standard_data_codewords(smaller, level) <= standard_data_codewords(larger, level),
    decreases larger - smaller,
{
    if smaller < larger {
        lemma_data_codewords_step(smaller, level);
        lemma_data_codewords_grow(smaller + 1, larger, level);
    }
}

} // verus!
