use crate::error::Error;
use crate::qrcode::decoder::error_correction_level::ErrorCorrectionLevel;
use crate::qrcode::decoder::format_information::{count_ones, FormatInformation};
use crate::qrcode::decoder::version_table::{
    layout, standard_blocks, standard_centers, standard_data_codewords, standard_num_blocks,
    standard_total_codewords, BlockLayout,
};
use crate::qrcode::encoder::matrix_util::{bch_code, MatrixUtil};
use vstd::prelude::*;

verus! {

/// A run of error correction blocks of one size within a symbol version: how many
/// blocks there are and how many data codewords each holds.
#[derive(Debug)]
pub struct ECB {
    count: usize,
    data_codewords: usize,
}

/// The error correction blocks of one version at one level: the number of error
/// correction codewords per block, the same for all, and one or more runs of blocks.
#[derive(Debug)]
pub struct ECBlocks {
    ec_codewords_per_block: usize,
    ec_blocks: Vec<ECB>,
}

/// One of the forty sizes of a symbol.
#[derive(Debug)]
pub struct Version {
    version_number: usize,
    alignment_pattern_centers: Vec<usize>,
    ec_blocks: Vec<ECBlocks>,
    total_codewords: usize,
}

/// The table of the forty versions.
pub struct Versions {
    versions: Vec<Version>,
}

/// The number of blocks in the runs `g`.
pub open spec fn sum_counts(g: Seq<ECB>) -> nat
    decreases g.len(),
{
    if g.len() == 0 {
        0
    } else {
        sum_counts(g.drop_last()) + g.last().spec_count()
    }
}

/// The number of codewords in the blocks of the runs `g`, each block with `ec` codewords
/// of error correction beside its data.
pub open spec fn sum_codewords(g: Seq<ECB>, ec: nat) -> nat
    decreases g.len(),
{
    if g.len() == 0 {
        0
    } else {
        sum_codewords(g.drop_last(), ec) + g.last().spec_count() * (g.last().spec_data_codewords()
            + ec)
    }
}

/// The number of modules that the alignment patterns of version `v` take beyond the
/// timing lines. With `n` centers along a side, `n` being 2 up to version 6 and one more
/// for every seven versions from there, there are `n * n - 3` patterns of 25 modules, of
/// which `2 * (n - 2)` share 5 modules with a timing line: `(25 * n - 10) * n - 55`.
pub open spec fn alignment_modules(v: int) -> int {
    if v < 2 {
        0
    } else if v < 7 {
        25
    } else if v < 14 {
        140
    } else if v < 21 {
        305
    } else if v < 28 {
        520
    } else if v < 35 {
        785
    } else {
        1100
    }
}

/// The number of modules of a symbol of version `v` that carry data or error correction:
/// all modules but those of the finder, separator, timing and alignment patterns, of the
/// format information, of the dark module and, from version 7 on, of the version
/// information.
pub open spec fn raw_data_modules(v: int) -> int {
    (16 * v + 128) * v + 64 - alignment_modules(v) - if v < 7 {
        0int
    } else {
        36int
    }
}

/// The number of codewords a symbol of version `v` holds.
pub open spec fn codeword_capacity(v: int) -> int {
    raw_data_modules(v) / 8
}

/// The limit kept on the counts and sizes of blocks, so that sums of them can be formed.
pub const BLOCK_LIMIT: usize = 0x1000;

/// The eighteen bits that stand for the version numbered `number`: the six bits of the
/// number and their twelve check bits under the generator 0x1F25.
pub open spec fn version_code(number: int) -> u32 {
    ((number as u32) << 12) | bch_code(number as u32, 0x1f25)
}

/// The number of bits in which `reading` differs from the code of the version numbered
/// `number`.
pub open spec fn version_distance(reading: u32, number: int) -> nat {
    count_ones(reading ^ version_code(number))
}

/// The first of the `n` versions from 7 on whose code is nearest to `reading`.
pub open spec fn nearest_version(reading: u32, n: nat) -> int
    decreases n,
{
    if n <= 1 {
        7
    } else {
        let best = nearest_version(reading, (n - 1) as nat);
        if version_distance(reading, n as int + 6) < version_distance(reading, best) {
            n as int + 6
        } else {
            best
        }
    }
}

/// The number of the version that `reading` stands for: that of the first code nearest
/// to it among the versions 7 to 40, if it differs in no more than three bits; else
/// none.
pub open spec fn decoded_version(reading: u32) -> Option<int> {
    let best = nearest_version(reading, 34);
    if version_distance(reading, best) <= 3 {
        Some(best)
    } else {
        None
    }
}

/// The nearest of the first `n` versions from 7 on is one of them.
pub proof fn lemma_nearest_version(reading: u32, n: nat)
    requires
        n >= 1,
    ensures
        7 <= nearest_version(reading, n) < 7 + n,
    decreases n,
{
    if n > 1 {
        lemma_nearest_version(reading, (n - 1) as nat);
    }
}

impl ECB {
    pub closed spec fn spec_count(&self) -> nat {
        self.count as nat
    }

    pub closed spec fn spec_data_codewords(&self) -> nat {
        self.data_codewords as nat
    }

    /// A run of `count` blocks of `data_codewords` data codewords each.
    pub fn new(count: usize, data_codewords: usize) -> (r: ECB)
        ensures
            r.spec_count() == count,
            r.spec_data_codewords() == data_codewords,
    {
        ECB { count, data_codewords }
    }

    /// The number of blocks in the run.
    pub fn get_count(&self) -> (n: usize)
        ensures
            n == self.spec_count(),
    {
        self.count
    }

    /// The number of data codewords in each block of the run.
    pub fn get_data_codewords(&self) -> (n: usize)
        ensures
            n == self.spec_data_codewords(),
    {
        self.data_codewords
    }
}

impl ECBlocks {
    pub closed spec fn spec_ec_codewords_per_block(&self) -> nat {
        self.ec_codewords_per_block as nat
    }

    /// The runs of blocks.
    pub closed spec fn groups(&self) -> Seq<ECB> {
        self.ec_blocks@
    }

    /// The number of blocks.
    pub open spec fn spec_num_blocks(&self) -> nat {
        sum_counts(self.groups())
    }

    /// The number of codewords in all blocks, data and error correction.
    pub open spec fn spec_total_codewords(&self) -> nat {
        sum_codewords(self.groups(), self.spec_ec_codewords_per_block())
    }

    /// Whether the blocks are those of the layout `b`.
    pub open spec fn holds(&self, b: BlockLayout) -> bool {
        &&& self.spec_ec_codewords_per_block() == b.ec
        &&& self.groups().len() == if b.second_count == 0 {
            1int
        } else {
            2int
        }
        &&& self.groups()[0].spec_count() == b.first_count
        &&& self.groups()[0].spec_data_codewords() == b.first_data
        &&& b.second_count != 0 ==> self.groups()[1].spec_count() == b.second_count
            && self.groups()[1].spec_data_codewords() == b.second_data
    }

    /// Counts and sizes are small enough to be summed: there are at most two runs, and
    /// no count or size is above the limit.
    pub open spec fn wf(&self) -> bool {
        &&& self.groups().len() <= 2
        &&& self.spec_ec_codewords_per_block() <= BLOCK_LIMIT
        &&& forall|i: int|
            0 <= i < self.groups().len() ==> (#[trigger] self.groups()[i]).spec_count()
                <= BLOCK_LIMIT && self.groups()[i].spec_data_codewords() <= BLOCK_LIMIT
    }

    /// Blocks with `ec_codewords_per_block` codewords of error correction each, in the
    /// given runs.
    pub fn new(ec_codewords_per_block: usize, ec_blocks: Vec<ECB>) -> (r: ECBlocks)
        ensures
            r.spec_ec_codewords_per_block() == ec_codewords_per_block,
            r.groups() == ec_blocks@,
    {
        ECBlocks { ec_codewords_per_block, ec_blocks }
    }

    /// The number of error correction codewords in each block.
    pub fn get_ec_codewords_per_block(&self) -> (n: usize)
        ensures
            n == self.spec_ec_codewords_per_block(),
    {
        self.ec_codewords_per_block
    }

    /// The number of blocks.
    pub fn get_num_blocks(&self) -> (total: usize)
        requires
            self.wf(),
        ensures
            total == self.spec_num_blocks(),
            total <= 2 * BLOCK_LIMIT,
    {
        let mut total: usize = 0;
        let mut i: usize = 0;
        while i < self.ec_blocks.len()
            invariant
                self.wf(),
                i <= self.ec_blocks@.len(),
                total == sum_counts(self.ec_blocks@.subrange(0, i as int)),
                total <= i * BLOCK_LIMIT,
            decreases self.ec_blocks@.len() - i,
        {
            proof {
                let s = self.ec_blocks@.subrange(0, i + 1);
                assert(s.drop_last() =~= self.ec_blocks@.subrange(0, i as int));
                assert(s.last() == self.groups()[i as int]);
            }
            total += self.ec_blocks[i].get_count();
            i += 1;
        }
        proof {
            assert(self.ec_blocks@.subrange(0, i as int) =~= self.ec_blocks@);
        }
        total
    }

    /// The number of error correction codewords in all blocks.
    pub fn get_total_ec_codewords(&self) -> (total: usize)
        requires
            self.wf(),
        ensures
            total == self.spec_ec_codewords_per_block() * self.spec_num_blocks(),
            total <= 2 * BLOCK_LIMIT * BLOCK_LIMIT,
    {
        let n = self.get_num_blocks();
        assert(self.ec_codewords_per_block * n <= 0x1000 * 0x2000) by (nonlinear_arith)
            requires
                self.ec_codewords_per_block <= 0x1000,
                n <= 0x2000,
        ;
        self.ec_codewords_per_block * n
    }

    /// The runs of blocks.
    pub fn get_ec_blocks(&self) -> (g: &Vec<ECB>)
        ensures
            g@ == self.groups(),
    {
        &self.ec_blocks
    }
}

/// What the sums are for no, one and two runs.
pub proof fn lemma_sums(g: Seq<ECB>, ec: nat)
    ensures
        g.len() == 0 ==> sum_counts(g) == 0 && sum_codewords(g, ec) == 0,
        g.len() == 1 ==> sum_counts(g) == g[0].spec_count() && sum_codewords(g, ec)
            == g[0].spec_count() * (g[0].spec_data_codewords() + ec),
        g.len() == 2 ==> sum_counts(g) == g[0].spec_count() + g[1].spec_count() && sum_codewords(
            g,
            ec,
        ) == g[0].spec_count() * (g[0].spec_data_codewords() + ec) + g[1].spec_count() * (
        g[1].spec_data_codewords() + ec),
{
    reveal_with_fuel(sum_counts, 3);
    reveal_with_fuel(sum_codewords, 3);
    if g.len() == 1 {
        assert(g.drop_last().len() == 0);
        assert(g.last() == g[0]);
    } else if g.len() == 2 {
        let h = g.drop_last();
        assert(h.len() == 1);
        assert(h.drop_last().len() == 0);
        assert(h[0] == g[0]);
        assert(h.last() == g[0]);
        assert(g.last() == g[1]);
    }
}

impl Versions {
    /// The versions, the first one at place zero.
    pub closed spec fn table(&self) -> Seq<Version> {
        self.versions@
    }

    /// All forty versions are there, in order, well formed and as the standard gives
    /// them.
    pub open spec fn wf(&self) -> bool {
        &&& self.table().len() == 40
        &&& forall|i: int|
            0 <= i < 40 ==> (#[trigger] self.table()[i]).wf() && self.table()[i].spec_number() == i
                + 1 && self.table()[i].is_standard()
    }

    /// The table of the versions 1 to 40, each as the standard gives it.
    pub fn new() -> (r: Versions)
        ensures
            r.wf(),
            forall|i: int| 0 <= i < 40 ==> (#[trigger] r.table()[i]).is_standard(),
    {
        Versions { versions: build_versions() }
    }

    /// The version of the given number, which must be one from 1 to 40.
    pub fn get_version_for_number(&self, version_number: usize) -> (r: Result<&Version, Error>)
        requires
            self.wf(),
        ensures
            r is Ok <==> 1 <= version_number <= 40,
            r matches Ok(v) ==> v.wf() && v.spec_number() == version_number && *v
                == self.table()[version_number - 1],
            r matches Err(e) ==> e is WriterException,
    {
        if version_number < 1 || version_number > 40 {
            return Err(
                Error::WriterException(
                    "Version number only has to be between 1 and 40".to_owned(),
                ),
            );
        }
        Ok(&self.versions[version_number - 1])
    }

    /// The number of the version of a symbol with `dimension` modules along its side, or
    /// `None` where no version has this dimension.
    pub open spec fn number_for_dimension(dimension: int) -> Option<int> {
        if dimension % 4 == 1 && 21 <= dimension <= 177 {
            Some((dimension - 17) / 4)
        } else {
            None
        }
    }

    /// The version of a symbol with `dimension` modules along its side. A dimension that
    /// no version has is refused.
    pub fn get_provisional_version_for_dimension(&self, dimension: usize) -> (r: Result<
        &Version,
        Error,
    >)
        requires
            self.wf(),
        ensures
            match Versions::number_for_dimension(dimension as int) {
                Some(n) => r matches Ok(v) && v.wf() && v.spec_number() == n && *v
                    == self.table()[n - 1],
                None => r matches Err(e) && e is FormatException,
            },
    {
        if dimension % 4 != 1 || dimension < 21 || dimension > 177 {
            return Err(Error::FormatException("No version has this dimension".to_owned()));
        }
        Ok(&self.versions[(dimension - 17) / 4 - 1])
    }

    /// The eighteen bits that stand for the version numbered `number`.
    pub fn code_of(number: u32) -> (code: u32)
        requires
            7 <= number <= 40,
        ensures
            code == version_code(number as int),
    {
        (number << 12) | MatrixUtil::calculate_bch_code(number, 0x1f25)
    }

    /// The version that the eighteen bits read from a symbol stand for: the first of the
    /// versions 7 to 40 whose code is nearest to them, if it is no more than three bits
    /// away. The codes are eight bits apart, so that three wrong bits are made good.
    pub fn decode_version_information(&self, version_bits: u32) -> (r: Option<&Version>)
        requires
            self.wf(),
        ensures
            match decoded_version(version_bits) {
                Some(n) => r matches Some(v) && v.wf() && v.spec_number() == n && *v
                    == self.table()[n - 1],
                None => r is None,
            },
    {
        let mut best_difference: u32 = 0;
        let mut best_version: u32 = 7;
        let mut k: u32 = 0;
        while k < 34
            invariant
                k <= 34,
                7 <= best_version <= 40,
                k >= 1 ==> best_version == nearest_version(version_bits, k as nat)
                    && best_difference == version_distance(version_bits, best_version as int),
            decreases 34 - k,
        {
            let target = Versions::code_of(k + 7);
            let difference = FormatInformation::numBitsDiffering(version_bits, target);
            proof {
                if k >= 1 {
                    lemma_nearest_version(version_bits, k as nat);
                }
            }
            if k == 0 || difference < best_difference {
                best_version = k + 7;
                best_difference = difference;
            }
            k += 1;
        }
        if best_difference <= 3 {
            return Some(&self.versions[best_version as usize - 1]);
        }
        None
    }
}

impl Version {
    pub closed spec fn spec_number(&self) -> int {
        self.version_number as int
    }

    pub closed spec fn spec_total_codewords(&self) -> int {
        self.total_codewords as int
    }

    /// The centers of the alignment patterns, the same along both axes.
    pub closed spec fn spec_centers(&self) -> Seq<usize> {
        self.alignment_pattern_centers@
    }

    /// The error correction blocks for the levels L, M, Q and H, in this order.
    pub closed spec fn spec_ec_blocks(&self) -> Seq<ECBlocks> {
        self.ec_blocks@
    }

    /// The number of modules along one side.
    pub open spec fn spec_dimension(&self) -> int {
        4 * self.spec_number() + 17
    }

    /// The number of data codewords at the level with the given ordinal.
    pub open spec fn spec_data_codewords(&self, ordinal: int) -> int {
        self.spec_total_codewords() - self.spec_ec_blocks()[ordinal].spec_ec_codewords_per_block()
            * self.spec_ec_blocks()[ordinal].spec_num_blocks()
    }

    /// Whether the version is as the standard gives the version of its number: its
    /// alignment centers and, at each of the four levels, its error correction blocks.
    #[verifier::opaque]
    pub open spec fn is_standard(&self) -> bool {
        &&& self.spec_centers() == standard_centers(self.spec_number())
        &&& self.spec_ec_blocks().len() == 4
        &&& forall|l: int|
            0 <= l < 4 ==> (#[trigger] self.spec_ec_blocks()[l]).holds(
                standard_blocks(self.spec_number(), l),
            )
    }

    /// The number is one of 1 to 40 and the codeword count is that of the version; each of
    /// the four levels has at least one block, fills the symbol exactly and leaves room
    /// for data; the alignment centers lie where a pattern around them fits.
    pub open spec fn wf(&self) -> bool {
        &&& 1 <= self.spec_number() <= 40
        &&& self.spec_total_codewords() == codeword_capacity(self.spec_number())
        &&& self.spec_total_codewords() <= 3706
        &&& self.spec_ec_blocks().len() == 4
        &&& forall|l: int|
            0 <= l < 4 ==> {
                &&& (#[trigger] self.spec_ec_blocks()[l]).wf()
                &&& self.spec_ec_blocks()[l].spec_total_codewords() == self.spec_total_codewords()
                &&& self.spec_ec_blocks()[l].spec_num_blocks() >= 1
                &&& 1 <= self.spec_data_codewords(l)
            }
        &&& self.spec_centers().len() <= 7
        &&& forall|i: int|
            0 <= i < self.spec_centers().len() ==> 6 <= #[trigger] self.spec_centers()[i]
                <= self.spec_dimension() - 7
    }

    /// The version of the given number with the given alignment centers and blocks, its
    /// codeword count taken from the blocks of the first level.
    pub fn new(version_number: usize, alignment_pattern_centers: Vec<usize>, ec_blocks: Vec<ECBlocks>) -> (r:
        Version)
        requires
            ec_blocks@.len() >= 1,
            ec_blocks@[0].wf(),
        ensures
            r.spec_number() == version_number,
            r.spec_centers() == alignment_pattern_centers@,
            r.spec_ec_blocks() == ec_blocks@,
            r.spec_total_codewords() == ec_blocks@[0].spec_total_codewords(),
    {
        let mut total: usize = 0;
        let ec_codewords = ec_blocks[0].get_ec_codewords_per_block();
        let ecb_array = ec_blocks[0].get_ec_blocks();
        let mut i: usize = 0;
        while i < ecb_array.len()
            invariant
                ec_blocks@.len() >= 1,
                ec_blocks@[0].wf(),
                ecb_array@ == ec_blocks@[0].groups(),
                ec_codewords == ec_blocks@[0].spec_ec_codewords_per_block(),
                i <= ecb_array@.len(),
                total == sum_codewords(ecb_array@.subrange(0, i as int), ec_codewords as nat),
                total <= i * 0x200_0000,
                ecb_array@.len() <= 2,
            decreases ecb_array@.len() - i,
        {
            let c = ecb_array[i].get_count();
            let d = ecb_array[i].get_data_codewords();
            proof {
                let s = ecb_array@.subrange(0, i + 1);
                assert(s.drop_last() =~= ecb_array@.subrange(0, i as int));
                assert(s.last() == ec_blocks@[0].groups()[i as int]);
                assert(c * (d + ec_codewords) <= 0x200_0000) by (nonlinear_arith)
                    requires
                        c <= 0x1000,
                        d + ec_codewords <= 0x2000,
                ;
            }
            total += c * (d + ec_codewords);
            i += 1;
        }
        proof {
            assert(ecb_array@.subrange(0, i as int) =~= ecb_array@);
        }
        Version { version_number, alignment_pattern_centers, ec_blocks, total_codewords: total }
    }

    /// The blocks of one level: `ec` error correction codewords per block, a first run of
    /// `c1` blocks with `d1` data codewords each, and a second run of `c2` blocks with `d2`
    /// each, which is left out where `c2` is zero.
    fn blocks_of(ec: u32, c1: u32, d1: u32, c2: u32, d2: u32) -> (r: ECBlocks)
        requires
            ec <= BLOCK_LIMIT,
            c1 <= BLOCK_LIMIT,
            d1 <= BLOCK_LIMIT,
            c2 <= BLOCK_LIMIT,
            d2 <= BLOCK_LIMIT,
        ensures
            r.wf(),
            r.spec_ec_codewords_per_block() == ec,
            r.spec_num_blocks() == c1 + c2,
            r.spec_total_codewords() == c1 * (d1 + ec) + c2 * (d2 + ec),
            r.spec_ec_codewords_per_block() * r.spec_num_blocks() == ec * (c1 + c2),
            c1 >= 1 ==> r.holds(layout(ec as int, c1 as int, d1 as int, c2 as int, d2 as int)),
    {
        let mut groups: Vec<ECB> = Vec::new();
        groups.push(ECB::new(c1 as usize, d1 as usize));
        if c2 > 0 {
            groups.push(ECB::new(c2 as usize, d2 as usize));
        }
        proof {
            lemma_sums(groups@, ec as nat);
            assert(c2 == 0 ==> c2 * (d2 + ec) == 0) by (nonlinear_arith);
        }
        ECBlocks::new(ec as usize, groups)
    }

    /// The version of the given number from its alignment centers and its blocks at the
    /// levels L, M, Q and H.
    fn of_blocks(
        version_number: u32,
        alignment_pattern_centers: Vec<usize>,
        l: ECBlocks,
        m: ECBlocks,
        q: ECBlocks,
        h: ECBlocks,
    ) -> (r: Version)
        requires
            1 <= version_number <= 40,
            codeword_capacity(version_number as int) <= 3706,
            Version::level_fills(l, version_number as int),
            Version::level_fills(m, version_number as int),
            Version::level_fills(q, version_number as int),
            Version::level_fills(h, version_number as int),
            alignment_pattern_centers@.len() <= 7,
            forall|i: int|
                0 <= i < alignment_pattern_centers@.len() ==> 6
                    <= #[trigger] alignment_pattern_centers@[i] <= 4 * version_number + 10,
        ensures
            r.wf(),
            r.spec_number() == version_number,
            r.spec_centers() == alignment_pattern_centers@,
            r.spec_ec_blocks().len() == 4,
            r.spec_ec_blocks()[0] == l,
            r.spec_ec_blocks()[1] == m,
            r.spec_ec_blocks()[2] == q,
            r.spec_ec_blocks()[3] == h,
    {
        let mut ec_blocks: Vec<ECBlocks> = Vec::new();
        ec_blocks.push(l);
        ec_blocks.push(m);
        ec_blocks.push(q);
        ec_blocks.push(h);
        Version::new(version_number as usize, alignment_pattern_centers, ec_blocks)
    }

    /// Whether the blocks of a level fill a symbol of the version numbered `number` and
    /// leave room for data.
    pub open spec fn level_fills(blocks: ECBlocks, number: int) -> bool {
        &&& blocks.wf()
        &&& blocks.spec_num_blocks() >= 1
        &&& blocks.spec_total_codewords() == codeword_capacity(number)
        &&& blocks.spec_ec_codewords_per_block() * blocks.spec_num_blocks() < codeword_capacity(
            number,
        )
    }

    /// The number of the version, from 1 to 40.
    pub fn get_version_number(&self) -> (n: usize)
        ensures
            n == self.spec_number(),
    {
        self.version_number
    }

    /// The centers of the alignment patterns, the same along both axes.
    pub fn get_alignment_pattern_centers(&self) -> (c: &Vec<usize>)
        ensures
            c@ == self.spec_centers(),
    {
        &self.alignment_pattern_centers
    }

    /// The number of codewords a symbol of this version holds.
    pub fn get_total_codewords(&self) -> (n: usize)
        ensures
            n == self.spec_total_codewords(),
    {
        self.total_codewords
    }

    /// The number of modules along one side of a symbol of this version.
    pub fn get_dimension_for_version(&self) -> (d: usize)
        requires
            self.wf(),
        ensures
            d == self.spec_dimension(),
            21 <= d <= 177,
    {
        self.version_number * 4 + 17
    }

    /// The error correction blocks of this version at the given level.
    pub fn get_ec_blocks_for_level(&self, ec_level: &ErrorCorrectionLevel) -> (b: &ECBlocks)
        requires
            self.wf(),
        ensures
            *b == self.spec_ec_blocks()[ec_level.spec_ordinal() as int],
            b.wf(),
    {
        &self.ec_blocks[ec_level.ordinal()]
    }
}

fn version_1() -> (v: Version)
    ensures
        v.wf(),
        v.spec_number() == 1,
        v.is_standard(),
{
    let v = Version::of_blocks(
        1,
        Vec::new(),
        Version::blocks_of(7, 1, 19, 0, 0),
        Version::blocks_of(10, 1, 16, 0, 0),
        Version::blocks_of(13, 1, 13, 0, 0),
        Version::blocks_of(17, 1, 9, 0, 0),
    );
    proof {
        reveal(Version::is_standard);
        assert(v.spec_centers() =~= standard_centers(1));
    }
    v
}

fn version_2() -> (v: Version)
    ensures
        v.wf(),
        v.spec_number() == 2,
        v.is_standard(),
{
    let v = Version::of_blocks(
        2,
        vec![6, 18],
        Version::blocks_of(10, 1, 34, 0, 0),
        Version::blocks_of(16, 1, 28, 0, 0),
        Version::blocks_of(22, 1, 22, 0, 0),
        Version::blocks_of(28, 1, 16, 0, 0),
    );
    proof {
        reveal(Version::is_standard);
        assert(v.spec_centers() =~= standard_centers(2));
    }
    v
}

fn version_3() -> (v: Version)
    ensures
        v.wf(),
        v.spec_number() == 3,
        v.is_standard(),
{
    let v = Version::of_blocks(
        3,
        vec![6, 22],
        Version::blocks_of(15, 1, 55, 0, 0),
        Version::blocks_of(26, 1, 44, 0, 0),
        Version::blocks_of(18, 2, 17, 0, 0),
        Version::blocks_of(22, 2, 13, 0, 0),
    );
    proof {
        reveal(Version::is_standard);
        assert(v.spec_centers() =~= standard_centers(3));
    }
    v
}

fn version_4() -> (v: Version)
    ensures
        v.wf(),
        v.spec_number() == 4,
        v.is_standard(),
{
    let v = Version::of_blocks(
        4,
        vec![6, 26],
        Version::blocks_of(20, 1, 80, 0, 0),
        Version::blocks_of(18, 2, 32, 0, 0),
        Version::blocks_of(26, 2, 24, 0, 0),
        Version::blocks_of(16, 4, 9, 0, 0),
    );
    proof {
        reveal(Version::is_standard);
        assert(v.spec_centers() =~= standard_centers(4));
    }
    v
}

fn version_5() -> (v: Version)
    ensures
        v.wf(),
        v.spec_number() == 5,
        v.is_standard(),
{
    let v = Version::of_blocks(
        5,
        vec![6, 30],
        Version::blocks_of(26, 1, 108, 0, 0),
        Version::blocks_of(24, 2, 43, 0, 0),
        Version::blocks_of(18, 2, 15, 2, 16),
        Version::blocks_of(22, 2, 11, 2, 12),
    );
    proof {
        reveal(Version::is_standard);
        assert(v.spec_centers() =~= standard_centers(5));
    }
    v
}

fn version_6() -> (v: Version)
    ensures
        v.wf(),
        v.spec_number() == 6,
        v.is_standard(),
{
    let v = Version::of_blocks(
        6,
        vec![6, 34],
        Version::blocks_of(18, 2, 68, 0, 0),
        Version::blocks_of(16, 4, 27, 0, 0),
        Version::blocks_of(24, 4, 19, 0, 0),
        Version::blocks_of(28, 4, 15, 0, 0),
    );
    proof {
        reveal(Version::is_standard);
        assert(v.spec_centers() =~= standard_centers(6));
    }
    v
}

fn version_7() -> (v: Version)
    ensures
        v.wf(),
        v.spec_number() == 7,
        v.is_standard(),
{
    let v = Version::of_blocks(
        7,
        vec![6, 22, 38],
        Version::blocks_of(20, 2, 78, 0, 0),
        Version::blocks_of(18, 4, 31, 0, 0),
        Version::blocks_of(18, 2, 14, 4, 15),
        Version::blocks_of(26, 4, 13, 1, 14),
    );
    proof {
        reveal(Version::is_standard);
        assert(v.spec_centers() =~= standard_centers(7));
    }
    v
}

fn version_8() -> (v: Version)
    ensures
        v.wf(),
        v.spec_number() == 8,
        v.is_standard(),
{
    let v = Version::of_blocks(
        8,
        vec![6, 24, 42],
        Version::blocks_of(24, 2, 97, 0, 0),
        Version::blocks_of(22, 2, 38, 2, 39),
        Version::blocks_of(22, 4, 18, 2, 19),
        Version::blocks_of(26, 4, 14, 2, 15),
    );
    proof {
        reveal(Version::is_standard);
        assert(v.spec_centers() =~= standard_centers(8));
    }
    v
}

fn version_9() -> (v: Version)
    ensures
        v.wf(),
        v.spec_number() == 9,
        v.is_standard(),
{
    let v = Version::of_blocks(
        9,
        vec![6, 26, 46],
        Version::blocks_of(30, 2, 116, 0, 0),
        Version::blocks_of(22, 3, 36, 2, 37),
        Version::blocks_of(20, 4, 16, 4, 17),
        Version::blocks_of(24, 4, 12, 4, 13),
    );
    proof {
        reveal(Version::is_standard);
        assert(v.spec_centers() =~= standard_centers(9));
    }
    v
}

fn version_10() -> (v: Version)
    ensures
        v.wf(),
        v.spec_number() == 10,
        v.is_standard(),
{
    let v = Version::of_blocks(
        10,
        vec![6, 28, 50],
        Version::blocks_of(18, 2, 68, 2, 69),
        Version::blocks_of(26, 4, 43, 1, 44),
        Version::blocks_of(24, 6, 19, 2, 20),
        Version::blocks_of(28, 6, 15, 2, 16),
    );
    proof {
        reveal(Version::is_standard);
        assert(v.spec_centers() =~= standard_centers(10));
    }
    v
}

fn version_11() -> (v: Version)
    ensures
        v.wf(),
        v.spec_number() == 11,
        v.is_standard(),
{
    let v = Version::of_blocks(
        11,
        vec![6, 30, 54],
        Version::blocks_of(20, 4, 81, 0, 0),
        Version::blocks_of(30, 1, 50, 4, 51),
        Version::blocks_of(28, 4, 22, 4, 23),
        Version::blocks_of(24, 3, 12, 8, 13),
    );
    proof {
        reveal(Version::is_standard);
        assert(v.spec_centers() =~= standard_centers(11));
    }
    v
}

fn version_12() -> (v: Version)
    ensures
        v.wf(),
        v.spec_number() == 12,
        v.is_standard(),
{
    let v = Version::of_blocks(
        12,
        vec![6, 32, 58],
        Version::blocks_of(24, 2, 92, 2, 93),
        Version::blocks_of(22, 6, 36, 2, 37),
        Version::blocks_of(26, 4, 20, 6, 21),
        Version::blocks_of(28, 7, 14, 4, 15),
    );
    proof {
        reveal(Version::is_standard);
        assert(v.spec_centers() =~= standard_centers(12));
    }
    v
}

fn version_13() -> (v: Version)
    ensures
        v.wf(),
        v.spec_number() == 13,
        v.is_standard(),
{
    let v = Version::of_blocks(
        13,
        vec![6, 34, 62],
        Version::blocks_of(26, 4, 107, 0, 0),
        Version::blocks_of(22, 8, 37, 1, 38),
        Version::blocks_of(24, 8, 20, 4, 21),
        Version::blocks_of(22, 12, 11, 4, 12),
    );
    proof {
        reveal(Version::is_standard);
        assert(v.spec_centers() =~= standard_centers(13));
    }
    v
}

fn version_14() -> (v: Version)
    ensures
        v.wf(),
        v.spec_number() == 14,
        v.is_standard(),
{
    let v = Version::of_blocks(
        14,
        vec![6, 26, 46, 66],
        Version::blocks_of(30, 3, 115, 1, 116),
        Version::blocks_of(24, 4, 40, 5, 41),
        Version::blocks_of(20, 11, 16, 5, 17),
        Version::blocks_of(24, 11, 12, 5, 13),
    );
    proof {
        reveal(Version::is_standard);
        assert(v.spec_centers() =~= standard_centers(14));
    }
    v
}

fn version_15() -> (v: Version)
    ensures
        v.wf(),
        v.spec_number() == 15,
        v.is_standard(),
{
    let v = Version::of_blocks(
        15,
        vec![6, 26, 48, 70],
        Version::blocks_of(22, 5, 87, 1, 88),
        Version::blocks_of(24, 5, 41, 5, 42),
        Version::blocks_of(30, 5, 24, 7, 25),
        Version::blocks_of(24, 11, 12, 7, 13),
    );
    proof {
        reveal(Version::is_standard);
        assert(v.spec_centers() =~= standard_centers(15));
    }
    v
}

fn version_16() -> (v: Version)
    ensures
        v.wf(),
        v.spec_number() == 16,
        v.is_standard(),
{
    let v = Version::of_blocks(
        16,
        vec![6, 26, 50, 74],
        Version::blocks_of(24, 5, 98, 1, 99),
        Version::blocks_of(28, 7, 45, 3, 46),
        Version::blocks_of(24, 15, 19, 2, 20),
        Version::blocks_of(30, 3, 15, 13, 16),
    );
    proof {
        reveal(Version::is_standard);
        assert(v.spec_centers() =~= standard_centers(16));
    }
    v
}

fn version_17() -> (v: Version)
    ensures
        v.wf(),
        v.spec_number() == 17,
        v.is_standard(),
{
    let v = Version::of_blocks(
        17,
        vec![6, 30, 54, 78],
        Version::blocks_of(28, 1, 107, 5, 108),
        Version::blocks_of(28, 10, 46, 1, 47),
        Version::blocks_of(28, 1, 22, 15, 23),
        Version::blocks_of(28, 2, 14, 17, 15),
    );
    proof {
        reveal(Version::is_standard);
        assert(v.spec_centers() =~= standard_centers(17));
    }
    v
}

fn version_18() -> (v: Version)
    ensures
        v.wf(),
        v.spec_number() == 18,
        v.is_standard(),
{
    let v = Version::of_blocks(
        18,
        vec![6, 30, 56, 82],
        Version::blocks_of(30, 5, 120, 1, 121),
        Version::blocks_of(26, 9, 43, 4, 44),
        Version::blocks_of(28, 17, 22, 1, 23),
        Version::blocks_of(28, 2, 14, 19, 15),
    );
    proof {
        reveal(Version::is_standard);
        assert(v.spec_centers() =~= standard_centers(18));
    }
    v
}

fn version_19() -> (v: Version)
    ensures
        v.wf(),
        v.spec_number() == 19,
        v.is_standard(),
{
    let v = Version::of_blocks(
        19,
        vec![6, 30, 58, 86],
        Version::blocks_of(28, 3, 113, 4, 114),
        Version::blocks_of(26, 3, 44, 11, 45),
        Version::blocks_of(26, 17, 21, 4, 22),
        Version::blocks_of(26, 9, 13, 16, 14),
    );
    proof {
        reveal(Version::is_standard);
        assert(v.spec_centers() =~= standard_centers(19));
    }
    v
}

fn version_20() -> (v: Version)
    ensures
        v.wf(),
        v.spec_number() == 20,
        v.is_standard(),
{
    let v = Version::of_blocks(
        20,
        vec![6, 34, 62, 90],
        Version::blocks_of(28, 3, 107, 5, 108),
        Version::blocks_of(26, 3, 41, 13, 42),
        Version::blocks_of(30, 15, 24, 5, 25),
        Version::blocks_of(28, 15, 15, 10, 16),
    );
    proof {
        reveal(Version::is_standard);
        assert(v.spec_centers() =~= standard_centers(20));
    }
    v
}

fn version_21() -> (v: Version)
    ensures
        v.wf(),
        v.spec_number() == 21,
        v.is_standard(),
{
    let v = Version::of_blocks(
        21,
        vec![6, 28, 50, 72, 94],
        Version::blocks_of(28, 4, 116, 4, 117),
        Version::blocks_of(26, 17, 42, 0, 0),
        Version::blocks_of(28, 17, 22, 6, 23),
        Version::blocks_of(30, 19, 16, 6, 17),
    );
    proof {
        reveal(Version::is_standard);
        assert(v.spec_centers() =~= standard_centers(21));
    }
    v
}

fn version_22() -> (v: Version)
    ensures
        v.wf(),
        v.spec_number() == 22,
        v.is_standard(),
{
    let v = Version::of_blocks(
        22,
        vec![6, 26, 50, 74, 98],
        Version::blocks_of(28, 2, 111, 7, 112),
        Version::blocks_of(28, 17, 46, 0, 0),
        Version::blocks_of(30, 7, 24, 16, 25),
        Version::blocks_of(24, 34, 13, 0, 0),
    );
    proof {
        reveal(Version::is_standard);
        assert(v.spec_centers() =~= standard_centers(22));
    }
    v
}

fn version_23() -> (v: Version)
    ensures
        v.wf(),
        v.spec_number() == 23,
        v.is_standard(),
{
    let v = Version::of_blocks(
        23,
        vec![6, 30, 54, 78, 102],
        Version::blocks_of(30, 4, 121, 5, 122),
        Version::blocks_of(28, 4, 47, 14, 48),
        Version::blocks_of(30, 11, 24, 14, 25),
        Version::blocks_of(30, 16, 15, 14, 16),
    );
    proof {
        reveal(Version::is_standard);
        assert(v.spec_centers() =~= standard_centers(23));
    }
    v
}

fn version_24() -> (v: Version)
    ensures
        v.wf(),
        v.spec_number() == 24,
        v.is_standard(),
{
    let v = Version::of_blocks(
        24,
        vec![6, 28, 54, 80, 106],
        Version::blocks_of(30, 6, 117, 4, 118),
        Version::blocks_of(28, 6, 45, 14, 46),
        Version::blocks_of(30, 11, 24, 16, 25),
        Version::blocks_of(30, 30, 16, 2, 17),
    );
    proof {
        reveal(Version::is_standard);
        assert(v.spec_centers() =~= standard_centers(24));
    }
    v
}

fn version_25() -> (v: Version)
    ensures
        v.wf(),
        v.spec_number() == 25,
        v.is_standard(),
{
    let v = Version::of_blocks(
        25,
        vec![6, 32, 58, 84, 110],
        Version::blocks_of(26, 8, 106, 4, 107),
        Version::blocks_of(28, 8, 47, 13, 48),
        Version::blocks_of(30, 7, 24, 22, 25),
        Version::blocks_of(30, 22, 15, 13, 16),
    );
    proof {
        reveal(Version::is_standard);
        assert(v.spec_centers() =~= standard_centers(25));
    }
    v
}

fn version_26() -> (v: Version)
    ensures
        v.wf(),
        v.spec_number() == 26,
        v.is_standard(),
{
    let v = Version::of_blocks(
        26,
        vec![6, 30, 58, 86, 114],
        Version::blocks_of(28, 10, 114, 2, 115),
        Version::blocks_of(28, 19, 46, 4, 47),
        Version::blocks_of(28, 28, 22, 6, 23),
        Version::blocks_of(30, 33, 16, 4, 17),
    );
    proof {
        reveal(Version::is_standard);
        assert(v.spec_centers() =~= standard_centers(26));
    }
    v
}

fn version_27() -> (v: Version)
    ensures
        v.wf(),
        v.spec_number() == 27,
        v.is_standard(),
{
    let v = Version::of_blocks(
        27,
        vec![6, 34, 62, 90, 118],
        Version::blocks_of(30, 8, 122, 4, 123),
        Version::blocks_of(28, 22, 45, 3, 46),
        Version::blocks_of(30, 8, 23, 26, 24),
        Version::blocks_of(30, 12, 15, 28, 16),
    );
    proof {
        reveal(Version::is_standard);
        assert(v.spec_centers() =~= standard_centers(27));
    }
    v
}

fn version_28() -> (v: Version)
    ensures
        v.wf(),
        v.spec_number() == 28,
        v.is_standard(),
{
    let v = Version::of_blocks(
        28,
        vec![6, 26, 50, 74, 98, 122],
        Version::blocks_of(30, 3, 117, 10, 118),
        Version::blocks_of(28, 3, 45, 23, 46),
        Version::blocks_of(30, 4, 24, 31, 25),
        Version::blocks_of(30, 11, 15, 31, 16),
    );
    proof {
        reveal(Version::is_standard);
        assert(v.spec_centers() =~= standard_centers(28));
    }
    v
}

fn version_29() -> (v: Version)
    ensures
        v.wf(),
        v.spec_number() == 29,
        v.is_standard(),
{
    let v = Version::of_blocks(
        29,
        vec![6, 30, 54, 78, 102, 126],
        Version::blocks_of(30, 7, 116, 7, 117),
        Version::blocks_of(28, 21, 45, 7, 46),
        Version::blocks_of(30, 1, 23, 37, 24),
        Version::blocks_of(30, 19, 15, 26, 16),
    );
    proof {
        reveal(Version::is_standard);
        assert(v.spec_centers() =~= standard_centers(29));
    }
    v
}

fn version_30() -> (v: Version)
    ensures
        v.wf(),
        v.spec_number() == 30,
        v.is_standard(),
{
    let v = Version::of_blocks(
        30,
        vec![6, 26, 52, 78, 104, 130],
        Version::blocks_of(30, 5, 115, 10, 116),
        Version::blocks_of(28, 19, 47, 10, 48),
        Version::blocks_of(30, 15, 24, 25, 25),
        Version::blocks_of(30, 23, 15, 25, 16),
    );
    proof {
        reveal(Version::is_standard);
        assert(v.spec_centers() =~= standard_centers(30));
    }
    v
}

fn version_31() -> (v: Version)
    ensures
        v.wf(),
        v.spec_number() == 31,
        v.is_standard(),
{
    let v = Version::of_blocks(
        31,
        vec![6, 30, 56, 82, 108, 134],
        Version::blocks_of(30, 13, 115, 3, 116),
        Version::blocks_of(28, 2, 46, 29, 47),
        Version::blocks_of(30, 42, 24, 1, 25),
        Version::blocks_of(30, 23, 15, 28, 16),
    );
    proof {
        reveal(Version::is_standard);
        assert(v.spec_centers() =~= standard_centers(31));
    }
    v
}

fn version_32() -> (v: Version)
    ensures
        v.wf(),
        v.spec_number() == 32,
        v.is_standard(),
{
    let v = Version::of_blocks(
        32,
        vec![6, 34, 60, 86, 112, 138],
        Version::blocks_of(30, 17, 115, 0, 0),
        Version::blocks_of(28, 10, 46, 23, 47),
        Version::blocks_of(30, 10, 24, 35, 25),
        Version::blocks_of(30, 19, 15, 35, 16),
    );
    proof {
        reveal(Version::is_standard);
        assert(v.spec_centers() =~= standard_centers(32));
    }
    v
}

fn version_33() -> (v: Version)
    ensures
        v.wf(),
        v.spec_number() == 33,
        v.is_standard(),
{
    let v = Version::of_blocks(
        33,
        vec![6, 30, 58, 86, 114, 142],
        Version::blocks_of(30, 17, 115, 1, 116),
        Version::blocks_of(28, 14, 46, 21, 47),
        Version::blocks_of(30, 29, 24, 19, 25),
        Version::blocks_of(30, 11, 15, 46, 16),
    );
    proof {
        reveal(Version::is_standard);
        assert(v.spec_centers() =~= standard_centers(33));
    }
    v
}

fn version_34() -> (v: Version)
    ensures
        v.wf(),
        v.spec_number() == 34,
        v.is_standard(),
{
    let v = Version::of_blocks(
        34,
        vec![6, 34, 62, 90, 118, 146],
        Version::blocks_of(30, 13, 115, 6, 116),
        Version::blocks_of(28, 14, 46, 23, 47),
        Version::blocks_of(30, 44, 24, 7, 25),
        Version::blocks_of(30, 59, 16, 1, 17),
    );
    proof {
        reveal(Version::is_standard);
        assert(v.spec_centers() =~= standard_centers(34));
    }
    v
}

fn version_35() -> (v: Version)
    ensures
        v.wf(),
        v.spec_number() == 35,
        v.is_standard(),
{
    let v = Version::of_blocks(
        35,
        vec![6, 30, 54, 78, 102, 126, 150],
        Version::blocks_of(30, 12, 121, 7, 122),
        Version::blocks_of(28, 12, 47, 26, 48),
        Version::blocks_of(30, 39, 24, 14, 25),
        Version::blocks_of(30, 22, 15, 41, 16),
    );
    proof {
        reveal(Version::is_standard);
        assert(v.spec_centers() =~= standard_centers(35));
    }
    v
}

fn version_36() -> (v: Version)
    ensures
        v.wf(),
        v.spec_number() == 36,
        v.is_standard(),
{
    let v = Version::of_blocks(
        36,
        vec![6, 24, 50, 76, 102, 128, 154],
        Version::blocks_of(30, 6, 121, 14, 122),
        Version::blocks_of(28, 6, 47, 34, 48),
        Version::blocks_of(30, 46, 24, 10, 25),
        Version::blocks_of(30, 2, 15, 64, 16),
    );
    proof {
        reveal(Version::is_standard);
        assert(v.spec_centers() =~= standard_centers(36));
    }
    v
}

fn version_37() -> (v: Version)
    ensures
        v.wf(),
        v.spec_number() == 37,
        v.is_standard(),
{
    let v = Version::of_blocks(
        37,
        vec![6, 28, 54, 80, 106, 132, 158],
        Version::blocks_of(30, 17, 122, 4, 123),
        Version::blocks_of(28, 29, 46, 14, 47),
        Version::blocks_of(30, 49, 24, 10, 25),
        Version::blocks_of(30, 24, 15, 46, 16),
    );
    proof {
        reveal(Version::is_standard);
        assert(v.spec_centers() =~= standard_centers(37));
    }
    v
}

fn version_38() -> (v: Version)
    ensures
        v.wf(),
        v.spec_number() == 38,
        v.is_standard(),
{
    let v = Version::of_blocks(
        38,
        vec![6, 32, 58, 84, 110, 136, 162],
        Version::blocks_of(30, 4, 122, 18, 123),
        Version::blocks_of(28, 13, 46, 32, 47),
        Version::blocks_of(30, 48, 24, 14, 25),
        Version::blocks_of(30, 42, 15, 32, 16),
    );
    proof {
        reveal(Version::is_standard);
        assert(v.spec_centers() =~= standard_centers(38));
    }
    v
}

fn version_39() -> (v: Version)
    ensures
        v.wf(),
        v.spec_number() == 39,
        v.is_standard(),
{
    let v = Version::of_blocks(
        39,
        vec![6, 26, 54, 82, 110, 138, 166],
        Version::blocks_of(30, 20, 117, 4, 118),
        Version::blocks_of(28, 40, 47, 7, 48),
        Version::blocks_of(30, 43, 24, 22, 25),
        Version::blocks_of(30, 10, 15, 67, 16),
    );
    proof {
        reveal(Version::is_standard);
        assert(v.spec_centers() =~= standard_centers(39));
    }
    v
}

fn version_40() -> (v: Version)
    ensures
        v.wf(),
        v.spec_number() == 40,
        v.is_standard(),
{
    let v = Version::of_blocks(
        40,
        vec![6, 30, 58, 86, 114, 142, 170],
        Version::blocks_of(30, 19, 118, 6, 119),
        Version::blocks_of(28, 18, 47, 31, 48),
        Version::blocks_of(30, 34, 24, 34, 25),
        Version::blocks_of(30, 20, 15, 61, 16),
    );
    proof {
        reveal(Version::is_standard);
        assert(v.spec_centers() =~= standard_centers(40));
    }
    v
}

/// The forty versions, with their alignment centers and their blocks at the four levels.
fn build_versions() -> (versions: Vec<Version>)
    ensures
        versions@.len() == 40,
        forall|i: int|
            0 <= i < 40 ==> (#[trigger] versions@[i]).wf() && versions@[i].spec_number() == i + 1
                && versions@[i].is_standard(),
{
    let mut versions: Vec<Version> = Vec::new();
    versions.push(version_1());
    versions.push(version_2());
    versions.push(version_3());
    versions.push(version_4());
    versions.push(version_5());
    versions.push(version_6());
    versions.push(version_7());
    versions.push(version_8());
    versions.push(version_9());
    versions.push(version_10());
    versions.push(version_11());
    versions.push(version_12());
    versions.push(version_13());
    versions.push(version_14());
    versions.push(version_15());
    versions.push(version_16());
    versions.push(version_17());
    versions.push(version_18());
    versions.push(version_19());
    versions.push(version_20());
    versions.push(version_21());
    versions.push(version_22());
    versions.push(version_23());
    versions.push(version_24());
    versions.push(version_25());
    versions.push(version_26());
    versions.push(version_27());
    versions.push(version_28());
    versions.push(version_29());
    versions.push(version_30());
    versions.push(version_31());
    versions.push(version_32());
    versions.push(version_33());
    versions.push(version_34());
    versions.push(version_35());
    versions.push(version_36());
    versions.push(version_37());
    versions.push(version_38());
    versions.push(version_39());
    versions.push(version_40());
    versions
}

/// What the standard says of a version, the version has: at each level the blocks, their
/// number, the codewords of error correction of each, the data codewords and the total.
pub proof fn lemma_standard_version(v: Version, level: int)
    requires
        v.wf(),
        v.is_standard(),
        0 <= level < 4,
    ensures
        v.spec_centers() == standard_centers(v.spec_number()),
        v.spec_ec_blocks()[level].holds(standard_blocks(v.spec_number(), level)),
        v.spec_ec_blocks()[level].spec_ec_codewords_per_block() == standard_blocks(
            v.spec_number(),
            level,
        ).ec,
        v.spec_ec_blocks()[level].spec_num_blocks() == standard_num_blocks(v.spec_number(), level),
        v.spec_total_codewords() == standard_total_codewords(v.spec_number(), level),
        v.spec_data_codewords(level) == standard_data_codewords(v.spec_number(), level),
{
    reveal(Version::is_standard);
    let blocks = v.spec_ec_blocks()[level];
    let b = standard_blocks(v.spec_number(), level);
    assert(blocks.holds(b));
    lemma_sums(blocks.groups(), blocks.spec_ec_codewords_per_block());
    let ec = b.ec;
    let c1 = b.first_count;
    let d1 = b.first_data;
    let c2 = b.second_count;
    let d2 = b.second_data;
    assert(c1 * (d1 + ec) + c2 * (d2 + ec) - ec * (c1 + c2) == c1 * d1 + c2 * d2)
        by (nonlinear_arith);
    if c2 == 0 {
        assert(c2 * (d2 + ec) == 0) by (nonlinear_arith)
            requires
                c2 == 0,
        ;
        assert(c2 * d2 == 0) by (nonlinear_arith)
            requires
                c2 == 0,
        ;
    }
}

impl Versions {
    /// The version numbered `number` of the table is the one that the standard gives.
    pub proof fn lemma_standard(&self, number: int, level: int)
        requires
            self.wf(),
            1 <= number <= 40,
            0 <= level < 4,
        ensures
            self.table()[number - 1].wf(),
            self.table()[number - 1].spec_number() == number,
            self.table()[number - 1].spec_centers() == standard_centers(number),
            self.table()[number - 1].spec_ec_blocks()[level].holds(
                standard_blocks(number, level),
            ),
            self.table()[number - 1].spec_ec_blocks()[level].spec_num_blocks()
                == standard_num_blocks(number, level),
            self.table()[number - 1].spec_total_codewords() == standard_total_codewords(
                number,
                level,
            ),
            self.table()[number - 1].spec_data_codewords(level) == standard_data_codewords(
                number,
                level,
            ),
    {
        let v = self.table()[number - 1];
        lemma_standard_version(v, level);
    }
}

} // verus!
