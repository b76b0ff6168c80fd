//! The cache profile of a request: a fingerprint of every prefix, its tokens, and the
//! breakpoints at which a prefix can be cached.

use crate::digest::{extend, sha256, sha256_digest};
use crate::encode::{is_known, json_bytes, json_to_vec};
use crate::flatten::{PendingBlock, PendingModel};
use crate::request::ONE_HOUR_CACHE_TTL_SECS;
use crate::time::Duration;
use crate::tokens::{
    clamp, greater, lesser, max_tokens, min_tokens, saturating_difference, saturating_sum,
};
use vstd::prelude::*;

verus! {

/// A block of a profile: the fingerprint of the prefix that ends with it, and the tokens
/// of that prefix.
#[derive(Debug, Clone, Copy)]
pub struct CacheBlock {
    pub prefix_fingerprint: [u8; 32],
    pub cumulative_tokens: i32,
}

/// A block at which the prefix can be cached, and for how long.
#[derive(Debug, Clone, Copy)]
pub struct CacheBreakpoint {
    pub block_index: usize,
    pub ttl: Duration,
}

/// A breakpoint together with the tokens of its prefix.
#[derive(Debug, Clone, Copy)]
pub struct ResolvedBreakpoint {
    pub block_index: usize,
    pub cumulative_tokens: i32,
    pub ttl: Duration,
}

/// The cache profile of a request.
#[derive(Debug)]
pub struct CacheProfile {
    total_input_tokens: i32,
    blocks: Vec<CacheBlock>,
    breakpoints: Vec<CacheBreakpoint>,
}

/// What a profile holds.
#[verifier::ext_equal]
pub struct ProfileModel {
    pub total: i32,
    pub blocks: Seq<CacheBlock>,
    pub breakpoints: Seq<CacheBreakpoint>,
}

impl ProfileModel {
    /// The breakpoints stand at blocks of the profile, in order; the last of them covers
    /// the whole request.
    pub open spec fn wf(self) -> bool {
        &&& self.total >= 0
        &&& forall|i: int|
            0 <= i < self.breakpoints.len() ==> (#[trigger] self.breakpoints[i]).block_index
                < self.blocks.len()
        &&& forall|i: int, j: int|
            0 <= i < j < self.breakpoints.len() ==> (#[trigger] self.breakpoints[i]).block_index < (
            #[trigger] self.breakpoints[j]).block_index
        &&& self.breakpoints.len() > 0 ==> self.cumulative(self.breakpoints.len() - 1) >= self.total
    }

    /// The fingerprint of the prefix that the breakpoint `i` ends.
    pub open spec fn fingerprint(self, i: int) -> [u8; 32] {
        self.blocks[self.breakpoints[i].block_index as int].prefix_fingerprint
    }

    /// The tokens of the prefix that the breakpoint `i` ends.
    pub open spec fn cumulative(self, i: int) -> i32 {
        self.blocks[self.breakpoints[i].block_index as int].cumulative_tokens
    }

    /// The breakpoint `i` with its tokens.
    pub open spec fn resolved(self, i: int) -> ResolvedBreakpoint {
        ResolvedBreakpoint {
            block_index: self.breakpoints[i].block_index,
            cumulative_tokens: self.cumulative(i),
            ttl: self.breakpoints[i].ttl,
        }
    }

    /// The breakpoints with their tokens.
    pub open spec fn resolved_breakpoints(self) -> Seq<ResolvedBreakpoint> {
        Seq::new(self.breakpoints.len(), |i: int| self.resolved(i))
    }

    /// The last breakpoint with its tokens.
    pub open spec fn last_breakpoint(self) -> Option<ResolvedBreakpoint> {
        if self.breakpoints.len() > 0 {
            Some(self.resolved(self.breakpoints.len() - 1))
        } else {
            None
        }
    }
}

/// The digest of a block.
pub open spec fn block_digest(block: PendingModel) -> [u8; 32] {
    sha256_digest(json_bytes(block.value))
}

/// The fingerprint of the prefix that ends with block `i`: the digest of what came
/// before (the seed, or the fingerprint of the shorter prefix) and of the block's digest.
pub open spec fn prefix_fingerprint(seed: Seq<u8>, blocks: Seq<PendingModel>, i: nat) -> [u8; 32]
    decreases i,
{
    let before = if i == 0 {
        seed
    } else {
        prefix_fingerprint(seed, blocks, (i - 1) as nat)@
    };
    sha256_digest(before + block_digest(blocks[i as int])@)
}

/// The tokens of the first `n` blocks, added up within the bounds of `i32`.
pub open spec fn prefix_tokens(blocks: Seq<PendingModel>, n: nat) -> i32
    decreases n,
{
    if n == 0 {
        0
    } else {
        clamp(prefix_tokens(blocks, (n - 1) as nat) + blocks[n - 1].tokens)
    }
}

/// The lifetime that block `i` asks for itself, no longer than `max_ttl`.
pub open spec fn own_ttl(blocks: Seq<PendingModel>, max_ttl: Duration, i: int) -> Option<Duration> {
    match blocks[i].breakpoint_ttl {
        Some(ttl) => if blocks[i].ttl_is_fallback {
            None
        } else {
            Some(ttl.shorter(max_ttl))
        },
        None => None,
    }
}

/// The lifetime that block `i` falls back on, no longer than `max_ttl`.
pub open spec fn fallback_ttl(blocks: Seq<PendingModel>, max_ttl: Duration, i: int) -> Option<
    Duration,
> {
    match blocks[i].breakpoint_ttl {
        Some(ttl) => if blocks[i].ttl_is_fallback {
            Some(ttl.shorter(max_ttl))
        } else {
            None
        },
        None => None,
    }
}

/// The lifetime that the latest of the first `n` blocks that asks for one asks for.
pub open spec fn active_ttl(blocks: Seq<PendingModel>, max_ttl: Duration, n: nat) -> Option<
    Duration,
>
    decreases n,
{
    if n == 0 {
        None
    } else {
        match own_ttl(blocks, max_ttl, n - 1) {
            Some(ttl) => Some(ttl),
            None => active_ttl(blocks, max_ttl, (n - 1) as nat),
        }
    }
}

/// The end of a message, or a block with a lifetime to fall back on, inherits the
/// lifetime that was asked for last.
pub open spec fn inherits(block: PendingModel) -> bool {
    block.ttl_is_fallback || block.is_message_end && block.message_index is Some
}

/// The lifetime of the breakpoint at block `i`, if there is one: its own, else the one
/// that was asked for last where the block inherits it, else what it falls back on.
pub open spec fn ttl_at(blocks: Seq<PendingModel>, max_ttl: Duration, i: int) -> Option<Duration> {
    match own_ttl(blocks, max_ttl, i) {
        Some(ttl) => Some(ttl),
        None => if inherits(blocks[i]) {
            match active_ttl(blocks, max_ttl, i as nat) {
                Some(ttl) => Some(ttl),
                None => fallback_ttl(blocks, max_ttl, i),
            }
        } else {
            None
        },
    }
}

/// The breakpoints among the first `n` blocks.
pub open spec fn breakpoints_among(
    blocks: Seq<PendingModel>,
    max_ttl: Duration,
    n: nat,
) -> Seq<CacheBreakpoint>
    decreases n,
{
    if n == 0 {
        Seq::empty()
    } else {
        let before = breakpoints_among(blocks, max_ttl, (n - 1) as nat);
        match ttl_at(blocks, max_ttl, n - 1) {
            Some(ttl) => before.push(CacheBreakpoint { block_index: (n - 1) as usize, ttl }),
            None => before,
        }
    }
}

/// The blocks with their fingerprints and the tokens of their prefixes.
pub open spec fn natural_blocks(seed: Seq<u8>, blocks: Seq<PendingModel>) -> Seq<CacheBlock> {
    Seq::new(
        blocks.len(),
        |i: int|
            CacheBlock {
                prefix_fingerprint: prefix_fingerprint(seed, blocks, i as nat),
                cumulative_tokens: prefix_tokens(blocks, (i + 1) as nat),
            },
    )
}

/// The blocks, with the tokens at the last breakpoint raised to the total.
pub open spec fn cover_total(
    blocks: Seq<CacheBlock>,
    breakpoints: Seq<CacheBreakpoint>,
    total: i32,
) -> Seq<CacheBlock> {
    if breakpoints.len() > 0 {
        let last = breakpoints.last().block_index as int;
        blocks.update(
            last,
            CacheBlock {
                prefix_fingerprint: blocks[last].prefix_fingerprint,
                cumulative_tokens: greater(blocks[last].cumulative_tokens, total),
            },
        )
    } else {
        blocks
    }
}

/// The profile of a sequence of blocks. What the total counts beyond the blocks
/// themselves goes to the last breakpoint.
pub open spec fn blocks_profile(
    seed: Seq<u8>,
    blocks: Seq<PendingModel>,
    max_ttl: Duration,
    total_input_tokens: i32,
) -> ProfileModel {
    let total = greater(total_input_tokens, 0);
    let breakpoints = breakpoints_among(blocks, max_ttl, blocks.len());
    ProfileModel {
        total,
        blocks: cover_total(natural_blocks(seed, blocks), breakpoints, total),
        breakpoints,
    }
}

/// The breakpoints among the first `n` blocks stand at some of these blocks, in order.
pub proof fn lemma_breakpoints_in_order(blocks: Seq<PendingModel>, max_ttl: Duration, n: nat)
    requires
        n <= blocks.len() <= usize::MAX,
    ensures
        breakpoints_among(blocks, max_ttl, n).len() <= n,
        forall|i: int|
            0 <= i < breakpoints_among(blocks, max_ttl, n).len() ==> (
            #[trigger] breakpoints_among(blocks, max_ttl, n)[i]).block_index < n,
        forall|i: int, j: int|
            0 <= i < j < breakpoints_among(blocks, max_ttl, n).len() ==> (
            #[trigger] breakpoints_among(blocks, max_ttl, n)[i]).block_index < (
            #[trigger] breakpoints_among(blocks, max_ttl, n)[j]).block_index,
    decreases n,
{
    if n > 0 {
        lemma_breakpoints_in_order(blocks, max_ttl, (n - 1) as nat);
    }
}

/// The profile of a sequence of blocks is well-formed.
pub proof fn lemma_blocks_profile_wf(
    seed: Seq<u8>,
    blocks: Seq<PendingModel>,
    max_ttl: Duration,
    total_input_tokens: i32,
)
    requires
        blocks.len() <= usize::MAX,
    ensures
        blocks_profile(seed, blocks, max_ttl, total_input_tokens).wf(),
{
    lemma_breakpoints_in_order(blocks, max_ttl, blocks.len());
}

impl View for CacheProfile {
    type V = ProfileModel;

    closed spec fn view(&self) -> ProfileModel {
        ProfileModel {
            total: self.total_input_tokens,
            blocks: self.blocks@,
            breakpoints: self.breakpoints@,
        }
    }
}

impl Clone for CacheProfile {
    fn clone(&self) -> (copy: Self)
        ensures
            copy@ == self@,
    {
        proof {
            use_type_invariant(self);
        }
        let mut blocks: Vec<CacheBlock> = Vec::new();
        let mut i: usize = 0;
        while i < self.blocks.len()
            invariant
                i <= self.blocks@.len(),
                blocks@ == self.blocks@.take(i as int),
            decreases self.blocks@.len() - i,
        {
            blocks.push(self.blocks[i]);
            i = i + 1;
            assert(blocks@ =~= self.blocks@.take(i as int));
        }
        let mut breakpoints: Vec<CacheBreakpoint> = Vec::new();
        let mut j: usize = 0;
        while j < self.breakpoints.len()
            invariant
                j <= self.breakpoints@.len(),
                breakpoints@ == self.breakpoints@.take(j as int),
            decreases self.breakpoints@.len() - j,
        {
            breakpoints.push(self.breakpoints[j]);
            j = j + 1;
            assert(breakpoints@ =~= self.breakpoints@.take(j as int));
        }
        assert(blocks@ =~= self.blocks@);
        assert(breakpoints@ =~= self.breakpoints@);
        CacheProfile { total_input_tokens: self.total_input_tokens, blocks, breakpoints }
    }
}

impl CacheProfile {
    #[verifier::type_invariant]
    spec fn well_formed(self) -> bool {
        self@.wf()
    }

    /// Builds the profile of a sequence of blocks. The seed stands for what is the same
    /// in front of every prefix.
    pub fn from_blocks(
        seed: Vec<u8>,
        pending: &Vec<PendingBlock>,
        max_supported_ttl: Duration,
        total_input_tokens: i32,
    ) -> (profile: CacheProfile)
        ensures
            profile@ == blocks_profile(
                seed@,
                pending@.map_values(|block: PendingBlock| block@),
                max_supported_ttl,
                total_input_tokens,
            ),
            forall|i: int| 0 <= i < pending@.len() ==> is_known((#[trigger] pending@[i]).value@),
    {
        let ghost models = pending@.map_values(|block: PendingBlock| block@);
        let mut before = seed;
        let mut blocks: Vec<CacheBlock> = Vec::new();
        let mut breakpoints: Vec<CacheBreakpoint> = Vec::new();
        let mut cumulative_tokens: i32 = 0;
        let mut active: Option<Duration> = None;
        let mut index: usize = 0;
        while index < pending.len()
            invariant
                index <= pending@.len(),
                models == pending@.map_values(|block: PendingBlock| block@),
                forall|j: int| 0 <= j < index ==> is_known((#[trigger] models[j]).value),
                before@ == if index == 0 {
                    seed@
                } else {
                    prefix_fingerprint(seed@, models, (index - 1) as nat)@
                },
                blocks@ == natural_blocks(seed@, models).take(index as int),
                breakpoints@ == breakpoints_among(models, max_supported_ttl, index as nat),
                cumulative_tokens == prefix_tokens(models, index as nat),
                active == active_ttl(models, max_supported_ttl, index as nat),
            decreases pending@.len() - index,
        {
            let block = &pending[index];
            assert(models[index as int] == block@);
            cumulative_tokens = saturating_sum(cumulative_tokens, block.tokens);

            let block_bytes = json_to_vec(&block.value);
            assert(is_known(models[index as int].value));
            let block_hash = sha256(block_bytes.as_slice());
            extend(&mut before, &block_hash);
            let prefix_fingerprint = sha256(before.as_slice());
            before = Vec::new();
            extend(&mut before, &prefix_fingerprint);
            assert(before@ =~= prefix_fingerprint@);
            blocks.push(CacheBlock { prefix_fingerprint, cumulative_tokens });
            assert(blocks@ =~= natural_blocks(seed@, models).take(index + 1));

            let capped = match block.breakpoint_ttl {
                Some(ttl) => Some(ttl.min(max_supported_ttl)),
                None => None,
            };
            let ttl = if capped.is_some() && !block.ttl_is_fallback {
                active = capped;
                capped
            } else if block.ttl_is_fallback || block.is_message_end
                && block.message_index.is_some() {
                if active.is_some() {
                    active
                } else {
                    capped
                }
            } else {
                None
            };
            if let Some(ttl) = ttl {
                breakpoints.push(CacheBreakpoint { block_index: index, ttl });
            }
            index = index + 1;
        }
        assert(natural_blocks(seed@, models).take(index as int) =~= natural_blocks(seed@, models));
        proof {
            lemma_breakpoints_in_order(models, max_supported_ttl, models.len());
            lemma_blocks_profile_wf(seed@, models, max_supported_ttl, total_input_tokens);
        }

        assert forall|i: int| 0 <= i < pending@.len() implies is_known(
            (#[trigger] pending@[i]).value@,
        ) by {
            assert(models[i] == pending@[i]@);
        }

        let total = max_tokens(total_input_tokens, 0);
        if breakpoints.len() > 0 {
            let last = breakpoints[breakpoints.len() - 1].block_index;
            let block = blocks[last];
            blocks.set(
                last,
                CacheBlock {
                    prefix_fingerprint: block.prefix_fingerprint,
                    cumulative_tokens: max_tokens(block.cumulative_tokens, total),
                },
            );
        }
        CacheProfile { total_input_tokens: total, blocks, breakpoints }
    }

    /// The tokens of the whole request.
    pub fn total_input_tokens(&self) -> (total: i32)
        ensures
            total == self@.total,
            total >= 0,
    {
        proof {
            use_type_invariant(self);
        }
        self.total_input_tokens
    }

    /// The breakpoints of the profile, with their tokens.
    pub fn cacheable_breakpoints(&self) -> (resolved: Vec<ResolvedBreakpoint>)
        ensures
            resolved@ == self@.resolved_breakpoints(),
            self@.wf(),
    {
        proof {
            use_type_invariant(self);
        }
        let mut resolved: Vec<ResolvedBreakpoint> = Vec::new();
        let mut i: usize = 0;
        while i < self.breakpoints.len()
            invariant
                self@.wf(),
                i <= self.breakpoints@.len(),
                resolved@ == self@.resolved_breakpoints().take(i as int),
            decreases self.breakpoints@.len() - i,
        {
            let breakpoint = &self.breakpoints[i];
            let block = &self.blocks[breakpoint.block_index];
            resolved.push(
                ResolvedBreakpoint {
                    block_index: breakpoint.block_index,
                    cumulative_tokens: block.cumulative_tokens,
                    ttl: breakpoint.ttl,
                },
            );
            i = i + 1;
            assert(resolved@ =~= self@.resolved_breakpoints().take(i as int));
        }
        assert(self@.resolved_breakpoints().take(i as int) =~= self@.resolved_breakpoints());
        resolved
    }

    /// The last breakpoint of the profile, with its tokens.
    pub fn last_cacheable_breakpoint(&self) -> (last: Option<ResolvedBreakpoint>)
        ensures
            last == self@.last_breakpoint(),
            self@.wf(),
    {
        let resolved = self.cacheable_breakpoints();
        if resolved.len() > 0 {
            Some(resolved[resolved.len() - 1])
        } else {
            None
        }
    }

    /// The fingerprint of the prefix that a block of the profile ends.
    pub fn fingerprint_at(&self, block_index: usize) -> (fingerprint: [u8; 32])
        requires
            block_index < self@.blocks.len(),
        ensures
            fingerprint == self@.blocks[block_index as int].prefix_fingerprint,
    {
        self.blocks[block_index].prefix_fingerprint
    }
}

/// The tokens that are to be written to the cache: what the last breakpoint covers of
/// the request beyond the tokens that were matched.
pub open spec fn new_tokens(profile: ProfileModel, matched_tokens: i32) -> i32 {
    match profile.last_breakpoint() {
        Some(last) => greater(
            clamp(lesser(last.cumulative_tokens, profile.total) - matched_tokens),
            0,
        ),
        None => 0,
    }
}

/// The new tokens by lifetime, five minutes first: all of them go to the lifetime of the
/// last breakpoint, and a lifetime other than an hour counts as five minutes.
pub open spec fn ttl_breakdown(profile: ProfileModel, matched_tokens: i32) -> (i32, i32) {
    match profile.last_breakpoint() {
        Some(last) => if last.ttl.total() == Duration::from_secs(
            ONE_HOUR_CACHE_TTL_SECS,
        ).total() {
            (0, new_tokens(profile, matched_tokens))
        } else {
            (new_tokens(profile, matched_tokens), 0)
        },
        None => (0, 0),
    }
}

/// Divides the new tokens by lifetime.
pub fn compute_ttl_breakdown(profile: &CacheProfile, matched_tokens: i32) -> (breakdown: (
    i32,
    i32,
))
    ensures
        breakdown == ttl_breakdown(profile@, matched_tokens),
{
    let last = match profile.last_cacheable_breakpoint() {
        Some(last) => last,
        None => {
            return (0, 0);
        },
    };
    let new_tokens = max_tokens(
        saturating_difference(
            min_tokens(last.cumulative_tokens, profile.total_input_tokens()),
            matched_tokens,
        ),
        0,
    );
    if new_tokens == 0 {
        return (0, 0);
    }
    if last.ttl.as_nanos() == Duration::from_secs(ONE_HOUR_CACHE_TTL_SECS).as_nanos() {
        (0, new_tokens)
    } else {
        (new_tokens, 0)
    }
}

} // verus!
