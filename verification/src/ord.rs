//! Heights, satoshis and the issuance schedule that ties them together.
use vstd::arithmetic::{div_mod, power2};
use vstd::prelude::*;

verus! {

/// How many blocks share one block subsidy.
pub const SUBSIDY_HALVING_INTERVAL: u64 = 210_000;

/// The subsidy of the first block, in satoshis.
pub const INITIAL_SUBSIDY: u64 = 5_000_000_000;

/// How many epochs issue satoshis at all.
pub const SUBSIDY_EPOCHS: u64 = 33;

/// How many satoshis will ever be issued.
pub const SUPPLY: u64 = 2_099_999_997_690_000;

/// What each block of an epoch issues: the initial subsidy, halved once per epoch.
pub open spec fn epoch_subsidy(epoch: nat) -> nat
    decreases epoch,
{
    if epoch == 0 {
        INITIAL_SUBSIDY as nat
    } else {
        epoch_subsidy((epoch - 1) as nat) / 2
    }
}

/// What the block at `height` issues.
pub open spec fn block_subsidy(height: nat) -> nat {
    epoch_subsidy(height / SUBSIDY_HALVING_INTERVAL as nat)
}

/// How many satoshis all the blocks below `height` issue: the number of the
/// first satoshi of the block at `height`.
pub open spec fn first_sat(height: nat) -> nat
    decreases height,
{
    if height == 0 {
        0
    } else {
        first_sat((height - 1) as nat) + block_subsidy((height - 1) as nat)
    }
}

/// How many satoshis the epochs before `epoch` issue.
spec fn epoch_first_sat(epoch: nat) -> nat
    decreases epoch,
{
    if epoch == 0 {
        0
    } else {
        epoch_first_sat((epoch - 1) as nat) + SUBSIDY_HALVING_INTERVAL as nat * epoch_subsidy(
            (epoch - 1) as nat,
        )
    }
}

proof fn lemma_subsidy_ends(epoch: nat)
    requires
        epoch >= SUBSIDY_EPOCHS,
    ensures
        epoch_subsidy(epoch) == 0,
    decreases epoch,
{
    if epoch == SUBSIDY_EPOCHS {
        reveal_with_fuel(epoch_subsidy, 34);
    } else {
        lemma_subsidy_ends((epoch - 1) as nat);
    }
}

proof fn lemma_subsidy_lasts(epoch: nat)
    requires
        epoch < SUBSIDY_EPOCHS,
    ensures
        epoch_subsidy(epoch) >= 1,
{
    reveal_with_fuel(epoch_subsidy, 34);
}

proof fn lemma_subsidy_bound(epoch: nat)
    ensures
        epoch_subsidy(epoch) <= INITIAL_SUBSIDY,
    decreases epoch,
{
    if epoch > 0 {
        lemma_subsidy_bound((epoch - 1) as nat);
    }
}

proof fn lemma_epoch_supply()
    ensures
        epoch_first_sat(SUBSIDY_EPOCHS as nat) == SUPPLY,
{
    assert(epoch_subsidy(0) == INITIAL_SUBSIDY && epoch_first_sat(0) == 0);
    assert(epoch_subsidy(1) == 2500000000 && epoch_first_sat(1) == 1050000000000000);
    assert(epoch_subsidy(2) == 1250000000 && epoch_first_sat(2) == 1575000000000000);
    assert(epoch_subsidy(3) == 625000000 && epoch_first_sat(3) == 1837500000000000);
    assert(epoch_subsidy(4) == 312500000 && epoch_first_sat(4) == 1968750000000000);
    assert(epoch_subsidy(5) == 156250000 && epoch_first_sat(5) == 2034375000000000);
    assert(epoch_subsidy(6) == 78125000 && epoch_first_sat(6) == 2067187500000000);
    assert(epoch_subsidy(7) == 39062500 && epoch_first_sat(7) == 2083593750000000);
    assert(epoch_subsidy(8) == 19531250 && epoch_first_sat(8) == 2091796875000000);
    assert(epoch_subsidy(9) == 9765625 && epoch_first_sat(9) == 2095898437500000);
    assert(epoch_subsidy(10) == 4882812 && epoch_first_sat(10) == 2097949218750000);
    assert(epoch_subsidy(11) == 2441406 && epoch_first_sat(11) == 2098974609270000);
    assert(epoch_subsidy(12) == 1220703 && epoch_first_sat(12) == 2099487304530000);
    assert(epoch_subsidy(13) == 610351 && epoch_first_sat(13) == 2099743652160000);
    assert(epoch_subsidy(14) == 305175 && epoch_first_sat(14) == 2099871825870000);
    assert(epoch_subsidy(15) == 152587 && epoch_first_sat(15) == 2099935912620000);
    assert(epoch_subsidy(16) == 76293 && epoch_first_sat(16) == 2099967955890000);
    assert(epoch_subsidy(17) == 38146 && epoch_first_sat(17) == 2099983977420000);
    assert(epoch_subsidy(18) == 19073 && epoch_first_sat(18) == 2099991988080000);
    assert(epoch_subsidy(19) == 9536 && epoch_first_sat(19) == 2099995993410000);
    assert(epoch_subsidy(20) == 4768 && epoch_first_sat(20) == 2099997995970000);
    assert(epoch_subsidy(21) == 2384 && epoch_first_sat(21) == 2099998997250000);
    assert(epoch_subsidy(22) == 1192 && epoch_first_sat(22) == 2099999497890000);
    assert(epoch_subsidy(23) == 596 && epoch_first_sat(23) == 2099999748210000);
    assert(epoch_subsidy(24) == 298 && epoch_first_sat(24) == 2099999873370000);
    assert(epoch_subsidy(25) == 149 && epoch_first_sat(25) == 2099999935950000);
    assert(epoch_subsidy(26) == 74 && epoch_first_sat(26) == 2099999967240000);
    assert(epoch_subsidy(27) == 37 && epoch_first_sat(27) == 2099999982780000);
    assert(epoch_subsidy(28) == 18 && epoch_first_sat(28) == 2099999990550000);
    assert(epoch_subsidy(29) == 9 && epoch_first_sat(29) == 2099999994330000);
    assert(epoch_subsidy(30) == 4 && epoch_first_sat(30) == 2099999996220000);
    assert(epoch_subsidy(31) == 2 && epoch_first_sat(31) == 2099999997060000);
    assert(epoch_subsidy(32) == 1 && epoch_first_sat(32) == 2099999997480000);
    assert(epoch_subsidy(33) == 0 && epoch_first_sat(33) == 2099999997690000);
}

/// Inside an epoch the first satoshi moves by the epoch's subsidy per block.
proof fn lemma_first_sat_in_epoch(epoch: nat, offset: nat)
    requires
        offset <= SUBSIDY_HALVING_INTERVAL,
    ensures
        first_sat(SUBSIDY_HALVING_INTERVAL as nat * epoch + offset) == epoch_first_sat(epoch)
            + offset * epoch_subsidy(epoch),
    decreases epoch, offset,
{
    let interval = SUBSIDY_HALVING_INTERVAL as nat;
    if offset == 0 {
        assert(offset * epoch_subsidy(epoch) == 0) by (nonlinear_arith)
            requires
                offset == 0,
        ;
    }
    if offset > 0 {
        let before = (offset - 1) as nat;
        lemma_first_sat_in_epoch(epoch, before);
        assert((interval * epoch + before) / interval == epoch) by (nonlinear_arith)
            requires
                0 <= before < interval,
                interval == 210_000,
        ;
        assert(offset * epoch_subsidy(epoch) == before * epoch_subsidy(epoch) + epoch_subsidy(
            epoch,
        )) by (nonlinear_arith)
            requires
                offset == before + 1,
        ;
    } else if epoch > 0 {
        let previous = (epoch - 1) as nat;
        lemma_first_sat_in_epoch(previous, interval);
        assert(interval * epoch == interval * previous + interval) by (nonlinear_arith)
            requires
                epoch == previous + 1,
        ;
    }
}

proof fn lemma_epoch_first_sat_after_supply(epoch: nat)
    requires
        epoch >= SUBSIDY_EPOCHS,
    ensures
        epoch_first_sat(epoch) == SUPPLY,
    decreases epoch,
{
    if epoch == SUBSIDY_EPOCHS {
        lemma_epoch_supply();
    } else {
        lemma_epoch_first_sat_after_supply((epoch - 1) as nat);
        lemma_subsidy_ends((epoch - 1) as nat);
    }
}

proof fn lemma_epoch_first_sat_monotone(a: nat, b: nat)
    requires
        a <= b,
    ensures
        epoch_first_sat(a) <= epoch_first_sat(b),
    decreases b,
{
    if a < b {
        lemma_epoch_first_sat_monotone(a, (b - 1) as nat);
        assert(0 <= SUBSIDY_HALVING_INTERVAL * epoch_subsidy((b - 1) as nat)) by (nonlinear_arith);
    }
}

/// Heights and the first satoshis of their blocks rise together.
pub proof fn law_first_sat_monotone(low: nat, high: nat)
    requires
        low <= high,
    ensures
        first_sat(low) <= first_sat(high),
    decreases high,
{
    if low < high {
        law_first_sat_monotone(low, (high - 1) as nat);
    }
}

/// No height starts beyond the supply.
pub proof fn law_first_sat_within_supply(height: nat)
    ensures
        first_sat(height) <= SUPPLY,
{
    let last = SUBSIDY_HALVING_INTERVAL as nat * SUBSIDY_EPOCHS as nat;
    let top = height + last;
    law_first_sat_monotone(height, top);
    lemma_first_sat_past_supply(top);
}

proof fn lemma_first_sat_past_supply(height: nat)
    requires
        height >= 210_000 * 33,
    ensures
        first_sat(height) == SUPPLY,
    decreases height,
{
    if height == 210_000 * 33 {
        lemma_first_sat_in_epoch(33, 0);
        lemma_epoch_supply();
    } else {
        lemma_first_sat_past_supply((height - 1) as nat);
        lemma_subsidy_ends(((height - 1) as nat) / 210_000nat);
    }
}

/// A satoshi belongs to one block only.
pub proof fn law_one_block_per_sat(sat: nat, h1: nat, h2: nat)
    requires
        first_sat(h1) <= sat < first_sat(h1 + 1),
        first_sat(h2) <= sat < first_sat(h2 + 1),
    ensures
        h1 == h2,
{
    if h1 < h2 {
        law_first_sat_monotone(h1 + 1, h2);
    } else if h2 < h1 {
        law_first_sat_monotone(h2 + 1, h1);
    }
}

/// The height of a block.
#[derive(Clone, Copy, Debug, PartialEq, Eq)]
pub struct Height(pub u64);

impl Height {
    pub fn n(self) -> (n: u64)
        ensures
            n == self.0,
    {
        self.0
    }

    /// The first satoshi that the block at this height issues.
    pub fn starting_sat(self) -> (sat: Sat)
        ensures
            sat.0 == first_sat(self.0 as nat),
    {
        let epoch = self.0 / SUBSIDY_HALVING_INTERVAL;
        let offset = self.0 % SUBSIDY_HALVING_INTERVAL;
        let mut start: u64 = 0;
        let mut subsidy: u64 = INITIAL_SUBSIDY;
        let mut e: u64 = 0;
        while e < epoch && e < SUBSIDY_EPOCHS
            invariant
                e <= epoch,
                e <= SUBSIDY_EPOCHS,
                subsidy == epoch_subsidy(e as nat),
                subsidy <= INITIAL_SUBSIDY,
                start == epoch_first_sat(e as nat),
            decreases SUBSIDY_EPOCHS - e,
        {
            proof {
                lemma_epoch_first_sat_monotone(e as nat + 1, SUBSIDY_EPOCHS as nat);
                lemma_epoch_supply();
            }
            start = start + SUBSIDY_HALVING_INTERVAL * subsidy;
            subsidy = subsidy / 2;
            e = e + 1;
        }
        proof {
            lemma_first_sat_in_epoch(epoch as nat, offset as nat);
            if e < epoch {
                lemma_subsidy_ends(epoch as nat);
                lemma_subsidy_ends(e as nat);
                lemma_epoch_first_sat_after_supply(epoch as nat);
                lemma_epoch_supply();
            }
            law_first_sat_within_supply(self.0 as nat);
            assert(self.0 == SUBSIDY_HALVING_INTERVAL * epoch + offset);
            assert(offset * subsidy <= 210_000 * 5_000_000_000) by (nonlinear_arith)
                requires
                    offset <= 210_000,
                    subsidy <= 5_000_000_000,
            ;
        }
        Sat(start + offset * subsidy)
    }
}

/// A satoshi, numbered in the order of issuance.
#[derive(Clone, Copy, Debug, PartialEq, Eq)]
pub struct Sat(pub u64);

impl Sat {
    pub fn n(self) -> (n: u64)
        ensures
            n == self.0,
    {
        self.0
    }

    /// The height of the block that issues this satoshi.
    pub fn height(self) -> (height: Height)
        requires
            self.0 < SUPPLY,
        ensures
            first_sat(height.0 as nat) <= self.0 < first_sat(height.0 as nat + 1),
            height.0 < SUBSIDY_HALVING_INTERVAL * SUBSIDY_EPOCHS,
    {
        let mut start: u64 = 0;
        let mut subsidy: u64 = INITIAL_SUBSIDY;
        let mut epoch: u64 = 0;
        proof {
            lemma_epoch_supply();
            assert(epoch_first_sat(1) == 210_000 * 5_000_000_000) by {
                reveal_with_fuel(epoch_first_sat, 2);
            }
        }
        while self.0 >= start + SUBSIDY_HALVING_INTERVAL * subsidy
            invariant
                epoch < SUBSIDY_EPOCHS,
                subsidy == epoch_subsidy(epoch as nat),
                subsidy <= INITIAL_SUBSIDY,
                start == epoch_first_sat(epoch as nat),
                start <= self.0 < SUPPLY,
                epoch_first_sat(SUBSIDY_EPOCHS as nat) == SUPPLY,
            decreases SUBSIDY_EPOCHS - epoch,
        {
            start = start + SUBSIDY_HALVING_INTERVAL * subsidy;
            subsidy = subsidy / 2;
            epoch = epoch + 1;
        }
        proof {
            lemma_subsidy_lasts(epoch as nat);
        }
        let offset = (self.0 - start) / subsidy;
        let height = epoch * SUBSIDY_HALVING_INTERVAL + offset;
        proof {
            let pos = self.0 - start;
            assert(offset * subsidy <= pos < (offset + 1) * subsidy && offset < 210_000)
                by (nonlinear_arith)
                requires
                    offset == pos / (subsidy as int),
                    subsidy >= 1,
                    0 <= pos < 210_000 * subsidy,
            ;
            lemma_first_sat_in_epoch(epoch as nat, offset as nat);
            lemma_first_sat_in_epoch(epoch as nat, offset as nat + 1);
        }
        Height(height)
    }
}

/// A block issues fifty coins, halved, and rounded down, once for every 210000
/// blocks before it.
pub proof fn law_subsidy_halves(height: nat)
    ensures
        block_subsidy(height) == 5_000_000_000nat / power2::pow2(height / 210_000),
{
    lemma_epoch_subsidy_halves(height / 210_000);
}

proof fn lemma_epoch_subsidy_halves(epoch: nat)
    ensures
        epoch_subsidy(epoch) == 5_000_000_000nat / power2::pow2(epoch),
    decreases epoch,
{
    power2::lemma2_to64();
    if epoch > 0 {
        let before = (epoch - 1) as nat;
        let half = power2::pow2(before) as int;
        lemma_epoch_subsidy_halves(before);
        power2::lemma_pow2_pos(before);
        power2::lemma_pow2_unfold(epoch);
        div_mod::lemma_div_denominator(5_000_000_000, half, 2);
        assert(power2::pow2(epoch) == half * 2);
        assert(epoch_subsidy(before) as int == 5_000_000_000int / half);
        assert(epoch_subsidy(epoch) == epoch_subsidy(before) / 2);
        let whole = power2::pow2(epoch) as int;
        assert(whole == half * 2);
        assert(5_000_000_000int / whole == (5_000_000_000int / half) / 2);
    } else {
        let one = power2::pow2(0);
        assert(5_000_000_000nat / one == 5_000_000_000nat) by (nonlinear_arith)
            requires
                one == 1,
        ;
    }
}

/// The first block starts with satoshi 0, and every other one where the block
/// before it ends; after 6930000 blocks there are no more.
pub proof fn law_blocks_issue_one_after_the_other(height: nat)
    ensures
        first_sat(0) == 0,
        first_sat(height + 1) == first_sat(height) + block_subsidy(height),
        height >= 6_930_000 ==> first_sat(height) == 2_099_999_997_690_000,
        SUPPLY == 2_099_999_997_690_000,
{
    if height >= 6_930_000 {
        lemma_first_sat_past_supply(height);
    }
}

} // verus!
