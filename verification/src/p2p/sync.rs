//! The answer of a responder to a chain request: the common point, the blocks
//! after it, and the tips.
//!
//! The walk is fixed: the checkpoints of a request are tried in the order in
//! which the request lists them, which is from the most recent to the oldest,
//! and the first one that the responder holds at the stated height is the
//! common point.

use indexmap::IndexSet;
use vstd::prelude::*;
use crate::config::{CHAIN_SYNC_RESPONSE_MAX_BLOCKS, CHAIN_SYNC_TOP_BLOCKS_MAX};
use crate::crypto::hash;
use crate::p2p::chain::{
    BlockId,
    ChainRequest,
    ChainResponse,
    CommonPoint,
    PointModel,
    ResponseModel,
};
use crate::p2p::hash_set;
use crate::p2p::hash_set::set_items;
use crate::serializer::codec::Serializer;
use crate::serializer::sequence::{all_valid, models};

verus! {

/// The hashes of a sequence of checkpoints, in order.
pub open spec fn hashes(points: Seq<PointModel>) -> Seq<Seq<u8>> {
    Seq::new(points.len(), |i: int| points[i].hash)
}

/// At most the first `n` items of `s`.
pub open spec fn prefix<A>(s: Seq<A>, n: nat) -> Seq<A> {
    if n < s.len() {
        s.take(n as int)
    } else {
        s
    }
}

/// The first of `checkpoints`, in their order, that `ordered` holds with the
/// same hash at the same height; none if it holds none of them.
pub open spec fn common_point(ordered: Seq<PointModel>, checkpoints: Seq<PointModel>) -> Option<
    PointModel,
>
    decreases checkpoints.len(),
{
    if checkpoints.len() == 0 {
        None
    } else if ordered.contains(checkpoints[0]) {
        Some(checkpoints[0])
    } else {
        common_point(ordered, checkpoints.drop_first())
    }
}

/// The hashes of the blocks that come after `point` in `ordered`.
pub open spec fn hashes_after(ordered: Seq<PointModel>, point: PointModel) -> Seq<Seq<u8>>
    decreases ordered.len(),
{
    if ordered.len() == 0 {
        Seq::empty()
    } else if ordered[0] == point {
        hashes(ordered.drop_first())
    } else {
        hashes_after(ordered.drop_first(), point)
    }
}

/// The tips that are not among `blocks`, in the order of the tips.
pub open spec fn remaining_tips(tips: Seq<Seq<u8>>, blocks: Seq<Seq<u8>>) -> Seq<Seq<u8>>
    decreases tips.len(),
{
    if tips.len() == 0 {
        Seq::empty()
    } else if blocks.contains(tips.last()) {
        remaining_tips(tips.drop_last(), blocks)
    } else {
        remaining_tips(tips.drop_last(), blocks).push(tips.last())
    }
}

/// The mathematical value of a responder's view of its DAG.
pub struct ViewModel {
    /// The blocks in topological order, each with its height.
    pub ordered: Seq<PointModel>,
    /// The current tips.
    pub tips: Seq<Seq<u8>>,
}

impl ViewModel {
    /// Heights rise strictly along the order, no block occurs twice, and no
    /// tip occurs twice.
    pub open spec fn well_formed(self) -> bool {
        &&& forall|i: int, j: int|
            0 <= i < j < self.ordered.len() ==> self.ordered[i].topoheight
                < self.ordered[j].topoheight
        &&& hashes(self.ordered).no_duplicates()
        &&& self.tips.no_duplicates()
        &&& all_valid::<BlockId>(self.ordered)
        &&& all_valid::<hash::Hash>(self.tips)
    }

    /// The answer to a request with these checkpoints when at most `limit`
    /// blocks may be sent.
    ///
    /// The common point is the first checkpoint held. The blocks are those
    /// after it in ascending order, `limit` of them at most. The top blocks
    /// are the tips that are not among the blocks, as many as a response may
    /// carry. Without a common point there are no blocks, and the top blocks
    /// are the tips.
    pub open spec fn negotiate(self, checkpoints: Seq<PointModel>, limit: nat) -> ResponseModel {
        let found = common_point(self.ordered, checkpoints);
        let blocks = match found {
            Some(point) => prefix(hashes_after(self.ordered, point), limit),
            None => Seq::empty(),
        };
        ResponseModel {
            common_point: found,
            blocks,
            top_blocks: prefix(
                remaining_tips(self.tips, blocks),
                CHAIN_SYNC_TOP_BLOCKS_MAX as nat,
            ),
        }
    }
}

/// The smaller of two numbers.
pub open spec fn least(a: nat, b: nat) -> nat {
    if a < b {
        a
    } else {
        b
    }
}

/// A checkpoint that is not held is passed over.
pub proof fn lemma_common_point_skip(
    ordered: Seq<PointModel>,
    checkpoints: Seq<PointModel>,
    i: int,
)
    requires
        0 <= i <= checkpoints.len(),
        forall|j: int| 0 <= j < i ==> !ordered.contains(#[trigger] checkpoints[j]),
    ensures
        common_point(ordered, checkpoints) == common_point(ordered, checkpoints.skip(i)),
    decreases i,
{
    if i > 0 {
        lemma_common_point_skip(ordered, checkpoints, i - 1);
        let s = checkpoints.skip(i - 1);
        assert(s[0] == checkpoints[i - 1]);
        assert(s.drop_first() =~= checkpoints.skip(i));
    } else {
        assert(checkpoints.skip(0) =~= checkpoints);
    }
}

/// The blocks after the first place where `point` stands are the rest of the
/// order from the next place on.
pub proof fn lemma_hashes_after_at(ordered: Seq<PointModel>, point: PointModel, k: int)
    requires
        0 <= k < ordered.len(),
        ordered[k] == point,
        forall|j: int| 0 <= j < k ==> ordered[j] != point,
    ensures
        hashes_after(ordered, point) == hashes(ordered.skip(k + 1)),
    decreases k,
{
    if k > 0 {
        let rest = ordered.drop_first();
        assert(rest[k - 1] == point);
        lemma_hashes_after_at(rest, point, k - 1);
        assert(rest.skip(k) =~= ordered.skip(k + 1));
    } else {
        assert(ordered.drop_first() =~= ordered.skip(1));
    }
}

/// An item is in `s.push(a)` when it is in `s` or is `a`.
pub proof fn lemma_push_contains<A>(s: Seq<A>, a: A, x: A)
    ensures
        s.push(a).contains(x) <==> s.contains(x) || x == a,
{
    let t = s.push(a);
    if t.contains(x) {
        let i = choose|i: int| 0 <= i < t.len() && t[i] == x;
        if i < s.len() {
            assert(s[i] == x);
        }
    }
    if s.contains(x) {
        let i = choose|i: int| 0 <= i < s.len() && s[i] == x;
        assert(t[i] == x);
    }
    if x == a {
        assert(t[s.len() as int] == x);
    }
}

/// Pushing an item that a sequence without repeats does not hold leaves it
/// without repeats.
pub proof fn lemma_push_no_duplicates<A>(s: Seq<A>, a: A)
    requires
        s.no_duplicates(),
        !s.contains(a),
    ensures
        s.push(a).no_duplicates(),
{
    let t = s.push(a);
    assert forall|i: int, j: int| 0 <= i < t.len() && 0 <= j < t.len() && i != j implies t[i]
        != t[j] by {
        if i < s.len() && j < s.len() {
            assert(s[i] != s[j]);
        } else if i < s.len() {
            assert(s.contains(s[i]));
        } else {
            assert(s.contains(s[j]));
        }
    }
}

/// What the remaining tips are made of: tips that are not among the blocks,
/// each once if the tips hold each once.
pub proof fn lemma_remaining_tips(tips: Seq<Seq<u8>>, blocks: Seq<Seq<u8>>)
    requires
        tips.no_duplicates(),
    ensures
        remaining_tips(tips, blocks).no_duplicates(),
        remaining_tips(tips, blocks).len() <= tips.len(),
        forall|x: Seq<u8>|
            (#[trigger] remaining_tips(tips, blocks).contains(x)) <==> (tips.contains(x)
                && !blocks.contains(x)),
    decreases tips.len(),
{
    if tips.len() > 0 {
        let init = tips.drop_last();
        let last = tips.last();
        lemma_remaining_tips(init, blocks);
        let kept = remaining_tips(init, blocks);
        let all = remaining_tips(tips, blocks);
        assert(tips =~= init.push(last));
        assert forall|x: Seq<u8>|
            (#[trigger] all.contains(x)) <==> (tips.contains(x) && !blocks.contains(x)) by {
            lemma_push_contains(init, last, x);
            lemma_push_contains(kept, last, x);
            assert(kept.contains(x) <==> (init.contains(x) && !blocks.contains(x)));
        }
        if !blocks.contains(last) {
            assert(!init.contains(last)) by {
                if init.contains(last) {
                    let j = choose|j: int| 0 <= j < init.len() && init[j] == last;
                    assert(tips[j] == tips[tips.len() - 1]);
                }
            }
            assert(kept.contains(last) <==> (init.contains(last) && !blocks.contains(last)));
            lemma_push_no_duplicates(kept, last);
        }
    } else {
        assert forall|x: Seq<u8>|
            (#[trigger] remaining_tips(tips, blocks).contains(x)) <==> (tips.contains(x)
                && !blocks.contains(x)) by {
        }
    }
}

/// A responder's view of its DAG: the blocks it holds in topological order,
/// each with its height, and its current tips.
pub struct ChainView {
    ordered: Vec<BlockId>,
    tips: Vec<hash::Hash>,
}

impl View for ChainView {
    type V = ViewModel;

    closed spec fn view(&self) -> ViewModel {
        ViewModel { ordered: models(self.ordered@), tips: models(self.tips@) }
    }
}

/// Whether no two of `items` hold the same bytes.
fn all_distinct(items: &Vec<hash::Hash>) -> (r: bool)
    ensures
        r == models(items@).no_duplicates(),
{
    let n = items.len();
    let mut seen = hash_set::with_capacity(n);
    let ghost all = models(items@);
    let mut i: usize = 0;
    while i < n
        invariant
            i <= n,
            n == items@.len(),
            all == models(items@),
            set_items(seen) == all.take(i as int),
            all.take(i as int).no_duplicates(),
        decreases n - i,
    {
        let bytes = *items[i].as_bytes();
        let ghost before = all.take(i as int);
        let fresh = hash_set::insert(&mut seen, bytes);
        proof {
            assert(all.take(i + 1) =~= before.push(all[i as int]));
        }
        if !fresh {
            proof {
                let j = choose|j: int| 0 <= j < before.len() && before[j] == all[i as int];
                assert(all[j] == all[i as int]);
            }
            return false;
        }
        proof {
            let now = all.take(i + 1);
            assert forall|a: int, b: int|
                0 <= a < now.len() && 0 <= b < now.len() && a != b implies now[a] != now[b] by {
                if a < before.len() && b < before.len() {
                    assert(before[a] != before[b]);
                } else if a < before.len() {
                    assert(before.contains(before[a]));
                } else {
                    assert(before.contains(before[b]));
                }
            }
        }
        i += 1;
    }
    assert(all.take(n as int) =~= all);
    true
}

impl ChainView {
    #[verifier::type_invariant]
    spec fn consistent(self) -> bool {
        self@.well_formed()
    }

    /// A view of the blocks and the tips given, if heights rise strictly
    /// along `ordered`, no block occurs twice and no tip occurs twice.
    pub fn new(ordered: Vec<BlockId>, tips: Vec<hash::Hash>) -> (r: Option<ChainView>)
        ensures
            match r {
                Some(view) => view@ == (ViewModel {
                    ordered: models(ordered@),
                    tips: models(tips@),
                }) && view@.well_formed(),
                None => !(ViewModel {
                    ordered: models(ordered@),
                    tips: models(tips@),
                }).well_formed(),
            },
    {
        let ghost m = ViewModel { ordered: models(ordered@), tips: models(tips@) };
        let n = ordered.len();
        let mut block_hashes: Vec<hash::Hash> = Vec::new();
        let mut i: usize = 0;
        assert(models(block_hashes@) =~= hashes(m.ordered).take(0));
        while i < n
            invariant
                i <= n,
                n == ordered@.len(),
                m.ordered == models(ordered@),
                models(block_hashes@) == hashes(m.ordered).take(i as int),
                forall|a: int, b: int|
                    0 <= a < b < i ==> m.ordered[a].topoheight < m.ordered[b].topoheight,
            decreases n - i,
        {
            if i > 0 && ordered[i - 1].get_topoheight() >= ordered[i].get_topoheight() {
                proof {
                    assert(!(m.ordered[i - 1].topoheight < m.ordered[i as int].topoheight));
                }
                return None;
            }
            let ghost before = models(block_hashes@);
            block_hashes.push(*ordered[i].get_hash());
            proof {
                assert(models(block_hashes@) =~= before.push(m.ordered[i as int].hash));
                assert(models(block_hashes@) =~= hashes(m.ordered).take(i + 1));
                assert forall|a: int, b: int| 0 <= a < b < i + 1 implies m.ordered[a].topoheight
                    < m.ordered[b].topoheight by {
                    if b == i && a < i - 1 {
                        assert(m.ordered[a].topoheight < m.ordered[i - 1].topoheight);
                    }
                }
            }
            i += 1;
        }
        assert(hashes(m.ordered).take(n as int) =~= hashes(m.ordered));
        if !all_distinct(&block_hashes) {
            return None;
        }
        if !all_distinct(&tips) {
            return None;
        }
        proof {
            assert forall|k: int| 0 <= k < m.ordered.len() implies BlockId::valid(
                #[trigger] m.ordered[k],
            ) by {
                ordered@[k].lemma_valid();
            }
            assert forall|k: int| 0 <= k < m.tips.len() implies hash::Hash::valid(
                #[trigger] m.tips[k],
            ) by {
                tips@[k].lemma_len();
            }
        }
        Some(ChainView { ordered, tips })
    }

    /// The place in the order where the block with this hash stands at this
    /// height, if it stands there.
    fn find(&self, hash: &hash::Hash, topoheight: u64) -> (r: Option<usize>)
        ensures
            match r {
                Some(k) => {
                    &&& k < self@.ordered.len()
                    &&& self@.ordered[k as int] == (PointModel { hash: hash@, topoheight })
                    &&& forall|j: int|
                        0 <= j < k ==> self@.ordered[j] != (PointModel {
                            hash: hash@,
                            topoheight,
                        })
                },
                None => !self@.ordered.contains(PointModel { hash: hash@, topoheight }),
            },
    {
        let n = self.ordered.len();
        let ghost point = PointModel { hash: hash@, topoheight };
        let mut k: usize = 0;
        while k < n
            invariant
                k <= n,
                n == self.ordered@.len(),
                point == (PointModel { hash: hash@, topoheight }),
                forall|j: int| 0 <= j < k ==> self@.ordered[j] != point,
            decreases n - k,
        {
            let entry = &self.ordered[k];
            if entry.get_topoheight() == topoheight && entry.get_hash().same(hash) {
                assert(self@.ordered[k as int] == point);
                return Some(k);
            }
            k += 1;
        }
        None
    }

    /// Answers a chain request, sending at most `cap` blocks and no more than
    /// the request accepts.
    ///
    /// A request without checkpoints, a checkpoint with a hash of zeros and a
    /// checkpoint at a height never reached are ordinary inputs: what the
    /// view does not hold matches nothing, and the walk goes on. The answer
    /// keeps the rules that a decoder holds a response to, provided `cap` is
    /// no more than a response may carry.
    pub fn respond(&self, request: ChainRequest, cap: usize) -> (r: ChainResponse)
        ensures
            r@ == self@.negotiate(
                request@.blocks,
                least(request@.accepted_response_size as nat, cap as nat),
            ),
            cap <= CHAIN_SYNC_RESPONSE_MAX_BLOCKS ==> r@.valid(),
    {
        proof {
            use_type_invariant(self);
        }
        let accepted = request.get_accepted_response_size() as usize;
        let limit = if accepted < cap {
            accepted
        } else {
            cap
        };
        let checkpoints = request.get_blocks();
        let ghost wanted = models(checkpoints@);
        let ghost held = self@.ordered;
        let mut found: Option<usize> = None;
        let mut common: Option<CommonPoint> = None;
        let mut i: usize = 0;
        let n = checkpoints.len();
        while i < n && found.is_none()
            invariant
                i <= n,
                n == checkpoints@.len(),
                wanted == models(checkpoints@),
                held == self@.ordered,
                match found {
                    Some(k) => {
                        &&& common matches Some(point)
                        &&& common_point(held, wanted) == Some(point@)
                        &&& k < held.len()
                        &&& held[k as int] == point@
                        &&& forall|j: int| 0 <= j < k ==> held[j] != point@
                    },
                    None => {
                        &&& common is None
                        &&& forall|j: int| 0 <= j < i ==> !held.contains(#[trigger] wanted[j])
                    },
                },
            decreases n - i + (if found is None { 1int } else { 0int }),
        {
            let checkpoint = &checkpoints[i];
            match self.find(checkpoint.get_hash(), checkpoint.get_topoheight()) {
                Some(k) => {
                    proof {
                        lemma_common_point_skip(held, wanted, i as int);
                        assert(wanted.skip(i as int)[0] == wanted[i as int]);
                        assert(held.contains(wanted[i as int]));
                    }
                    found = Some(k);
                    common = Some(
                        CommonPoint::new(*checkpoint.get_hash(), checkpoint.get_topoheight()),
                    );
                },
                None => {
                    i += 1;
                },
            }
        }
        proof {
            if found is None {
                lemma_common_point_skip(held, wanted, n as int);
            }
        }
        let ghost no_blocks = Seq::<Seq<u8>>::empty();
        let blocks = match found {
            Some(k) => self.blocks_after(k, limit),
            None => hash_set::with_capacity(0),
        };
        proof {
            if let Some(k) = found {
                lemma_hashes_after_at(held, held[k as int], k as int);
            }
        }
        let top_blocks = self.tips_outside(&blocks);
        let r = ChainResponse::new(common, blocks, top_blocks);
        proof {
            lemma_remaining_tips(self@.tips, r@.blocks);
            lemma_answer_valid(self@, r@, limit as nat);
        }
        r
    }

    /// The hashes of at most `limit` blocks that follow place `k`.
    fn blocks_after(&self, k: usize, limit: usize) -> (r: IndexSet<[u8; 32]>)
        requires
            k < self@.ordered.len(),
        ensures
            set_items(r) == prefix(hashes(self@.ordered.skip(k + 1)), limit as nat),
    {
        proof {
            use_type_invariant(self);
        }
        let n = self.ordered.len();
        let start = k + 1;
        let count = if n - start < limit {
            n - start
        } else {
            limit
        };
        let ghost all = hashes(self@.ordered);
        let ghost tail = hashes(self@.ordered.skip(k + 1));
        let mut set = hash_set::with_capacity(count);
        let mut i: usize = 0;
        assert(tail.take(0) =~= Seq::<Seq<u8>>::empty());
        while i < count
            invariant
                i <= count,
                start + count <= n,
                start == k + 1,
                n == self@.ordered.len(),
                n == self.ordered@.len(),
                all == hashes(self@.ordered),
                all.no_duplicates(),
                tail == hashes(self@.ordered.skip(k + 1)),
                tail.len() == n - start,
                set_items(set) == tail.take(i as int),
            decreases count - i,
        {
            let bytes = *self.ordered[start + i].get_hash().as_bytes();
            let ghost before = tail.take(i as int);
            proof {
                assert(bytes@ == all[start + i]);
                assert(tail[i as int] == all[start + i]);
                if before.contains(bytes@) {
                    let j = choose|j: int| 0 <= j < before.len() && before[j] == bytes@;
                    assert(tail[j] == all[start + j]);
                    assert(all[start + j] == all[start + i]);
                }
            }
            let fresh = hash_set::insert(&mut set, bytes);
            assert(tail.take(i + 1) =~= before.push(tail[i as int]));
            i += 1;
        }
        assert(tail.take(count as int) =~= prefix(tail, limit as nat));
        set
    }

    /// The tips that are not among `blocks`, as many as a response may carry.
    fn tips_outside(&self, blocks: &IndexSet<[u8; 32]>) -> (r: IndexSet<[u8; 32]>)
        ensures
            set_items(r) == prefix(
                remaining_tips(self@.tips, set_items(*blocks)),
                CHAIN_SYNC_TOP_BLOCKS_MAX as nat,
            ),
    {
        proof {
            use_type_invariant(self);
        }
        let n = self.tips.len();
        let ghost tips = self@.tips;
        let ghost others = set_items(*blocks);
        let mut set = hash_set::with_capacity(0);
        let mut i: usize = 0;
        assert(tips.take(0) =~= Seq::<Seq<u8>>::empty());
        while i < n
            invariant
                i <= n,
                n == self.tips@.len(),
                tips == self@.tips,
                tips.no_duplicates(),
                others == set_items(*blocks),
                set_items(set) == prefix(
                    remaining_tips(tips.take(i as int), others),
                    CHAIN_SYNC_TOP_BLOCKS_MAX as nat,
                ),
            decreases n - i,
        {
            let bytes = *self.tips[i].as_bytes();
            let ghost done = tips.take(i as int);
            let ghost kept = remaining_tips(done, others);
            proof {
                assert(tips.take(i + 1).drop_last() =~= done);
                assert(tips.take(i + 1).last() == bytes@);
                assert(done.no_duplicates());
                lemma_remaining_tips(done, others);
                if kept.contains(bytes@) {
                    let j = choose|j: int| 0 <= j < done.len() && done[j] == bytes@;
                    assert(tips[j] == tips[i as int]);
                }
            }
            if !hash_set::contains(blocks, &bytes) && hash_set::len(&set)
                < CHAIN_SYNC_TOP_BLOCKS_MAX {
                proof {
                    assert(set_items(set) == kept);
                }
                let fresh = hash_set::insert(&mut set, bytes);
                assert(set_items(set) =~= prefix(
                    kept.push(bytes@),
                    CHAIN_SYNC_TOP_BLOCKS_MAX as nat,
                ));
            } else {
                proof {
                    if !others.contains(bytes@) {
                        assert(prefix(kept.push(bytes@), CHAIN_SYNC_TOP_BLOCKS_MAX as nat)
                            =~= prefix(kept, CHAIN_SYNC_TOP_BLOCKS_MAX as nat));
                    }
                }
            }
            i += 1;
        }
        assert(tips.take(n as int) =~= tips);
        set
    }
}

/// An answer made by `negotiate` from a well-formed view keeps the rules of a
/// response, when the limit is no more than a response may carry.
pub proof fn lemma_answer_valid(view: ViewModel, answer: ResponseModel, limit: nat)
    requires
        view.well_formed(),
        exists|checkpoints: Seq<PointModel>| answer == view.negotiate(checkpoints, limit),
    ensures
        limit <= CHAIN_SYNC_RESPONSE_MAX_BLOCKS ==> answer.valid(),
{
    let checkpoints = choose|checkpoints: Seq<PointModel>|
        answer == view.negotiate(checkpoints, limit);
    if limit <= CHAIN_SYNC_RESPONSE_MAX_BLOCKS {
        lemma_common_point_held(view.ordered, checkpoints);
        lemma_remaining_tips(view.tips, answer.blocks);
        let kept = remaining_tips(view.tips, answer.blocks);
        assert forall|i: int| 0 <= i < answer.top_blocks.len() implies {
            &&& hash::Hash::valid(#[trigger] answer.top_blocks[i])
            &&& !answer.blocks.contains(answer.top_blocks[i])
        } by {
            assert(answer.top_blocks[i] == kept[i]);
            assert(kept.contains(kept[i]));
            let j = choose|j: int| 0 <= j < view.tips.len() && view.tips[j] == kept[i];
            assert(hash::Hash::valid(view.tips[j]));
        }
        assert(answer.top_blocks.no_duplicates()) by {
            assert forall|i: int, j: int|
                0 <= i < answer.top_blocks.len() && 0 <= j < answer.top_blocks.len() && i
                    != j implies answer.top_blocks[i] != answer.top_blocks[j] by {
                assert(answer.top_blocks[i] == kept[i]);
                assert(answer.top_blocks[j] == kept[j]);
            }
        }
        match answer.common_point {
            Some(point) => {
                lemma_hashes_after_distinct(view.ordered, point);
                let after = hashes_after(view.ordered, point);
                assert forall|i: int| 0 <= i < answer.blocks.len() implies hash::Hash::valid(
                    #[trigger] answer.blocks[i],
                ) by {
                    assert(answer.blocks[i] == after[i]);
                }
                assert(answer.blocks.no_duplicates()) by {
                    assert forall|i: int, j: int|
                        0 <= i < answer.blocks.len() && 0 <= j < answer.blocks.len() && i
                            != j implies answer.blocks[i] != answer.blocks[j] by {
                        assert(answer.blocks[i] == after[i]);
                        assert(answer.blocks[j] == after[j]);
                    }
                }
            },
            None => {},
        }
    }
}

/// The common point, if there is one, is held.
pub proof fn lemma_common_point_held(ordered: Seq<PointModel>, checkpoints: Seq<PointModel>)
    ensures
        common_point(ordered, checkpoints) matches Some(point) ==> ordered.contains(point)
            && checkpoints.contains(point),
    decreases checkpoints.len(),
{
    if checkpoints.len() > 0 {
        if ordered.contains(checkpoints[0]) {
            assert(checkpoints.contains(checkpoints[0]));
        } else {
            lemma_common_point_held(ordered, checkpoints.drop_first());
            if let Some(point) = common_point(ordered, checkpoints.drop_first()) {
                let j = choose|j: int|
                    0 <= j < checkpoints.drop_first().len() && checkpoints.drop_first()[j]
                        == point;
                assert(checkpoints[j + 1] == point);
            }
        }
    }
}

/// The blocks after a point are hashes of 32 bytes, no two the same, when the
/// order holds valid checkpoints with distinct hashes.
pub proof fn lemma_hashes_after_distinct(ordered: Seq<PointModel>, point: PointModel)
    requires
        hashes(ordered).no_duplicates(),
        all_valid::<BlockId>(ordered),
    ensures
        hashes_after(ordered, point).no_duplicates(),
        all_valid::<hash::Hash>(hashes_after(ordered, point)),
        hashes_after(ordered, point).len() <= ordered.len(),
    decreases ordered.len(),
{
    if ordered.len() > 0 {
        let rest = ordered.drop_first();
        assert(hashes(rest).no_duplicates()) by {
            assert forall|i: int, j: int|
                0 <= i < hashes(rest).len() && 0 <= j < hashes(rest).len() && i
                    != j implies hashes(rest)[i] != hashes(rest)[j] by {
                assert(hashes(rest)[i] == hashes(ordered)[i + 1]);
                assert(hashes(rest)[j] == hashes(ordered)[j + 1]);
            }
        }
        assert(all_valid::<BlockId>(rest)) by {
            assert forall|i: int| 0 <= i < rest.len() implies BlockId::valid(
                #[trigger] rest[i],
            ) by {
                assert(rest[i] == ordered[i + 1]);
            }
        }
        if ordered[0] == point {
            assert forall|i: int| 0 <= i < hashes(rest).len() implies hash::Hash::valid(
                #[trigger] hashes(rest)[i],
            ) by {
                assert(BlockId::valid(rest[i]));
            }
        } else {
            lemma_hashes_after_distinct(rest, point);
        }
    }
}

/// In an order whose heights rise strictly, the blocks after a point that
/// the order holds are exactly the blocks above its height: the point stands
/// at one place, and what follows that place is what lies higher.
pub proof fn lemma_hashes_after_are_higher(ordered: Seq<PointModel>, point: PointModel)
    requires
        forall|i: int, j: int|
            0 <= i < j < ordered.len() ==> ordered[i].topoheight < ordered[j].topoheight,
        ordered.contains(point),
    ensures
        exists|k: int|
            {
                &&& 0 <= k < ordered.len()
                &&& ordered[k] == point
                &&& hashes_after(ordered, point) == hashes(ordered.skip(k + 1))
                &&& forall|j: int|
                    0 <= j < ordered.len() ==> (j > k <==> #[trigger] ordered[j].topoheight
                        > point.topoheight)
            },
{
    let k = choose|k: int| 0 <= k < ordered.len() && ordered[k] == point;
    assert forall|j: int| 0 <= j < k implies ordered[j] != point by {
        assert(ordered[j].topoheight < ordered[k].topoheight);
    }
    lemma_hashes_after_at(ordered, point, k);
    assert forall|j: int| 0 <= j < ordered.len() implies (j > k <==> #[trigger] ordered[
        j
    ].topoheight > point.topoheight) by {
        if j > k {
            assert(ordered[k].topoheight < ordered[j].topoheight);
        } else if j < k {
            assert(ordered[j].topoheight < ordered[k].topoheight);
        }
    }
}

} // verus!
