use crate::crypto::{DetailHash, Mac, PubSigKey};
use crate::message::{commitment_of, QEvaluation, QEvaluationProof, SubScore};
use vstd::prelude::*;

verus! {

/// Where one evaluator stands for one submission: nothing yet, a published
/// score committed to a digest, a score whose commitment was opened by a
/// matching reveal, or a failed reveal.
#[derive(Clone, Copy, PartialEq, Eq, Debug)]
pub enum EvaluationState {
    Pending,
    Provisional(SubScore, DetailHash),
    Final(SubScore, DetailHash),
    Failed,
}

/// One named evaluator and where it stands.
#[derive(Clone, Copy, PartialEq, Eq, Debug)]
pub struct SingleEvaluationInfo {
    pub evaluator: PubSigKey,
    pub state: EvaluationState,
}

/// What the aggregate currently reports for a submission.
#[derive(Clone, Copy, PartialEq, Eq, Debug)]
pub enum EvaluationResultScore {
    Pending,
    Provisional(SubScore),
    Final(SubScore),
    Failed,
}

/// The reveal key a state carries, where it is final.
pub open spec fn final_key(st: EvaluationState) -> Option<Mac> {
    match st {
        EvaluationState::Final(_, k) => Some(k),
        _ => None,
    }
}

/// How many evaluators are final with the given reveal key.
pub open spec fn count_final(s: Seq<SingleEvaluationInfo>, k: Mac) -> nat
    decreases s.len(),
{
    if s.len() == 0 {
        0
    } else {
        count_final(s.drop_last(), k) + if final_key(s.last().state) == Some(k) {
            1nat
        } else {
            0nat
        }
    }
}

/// How many evaluators carry the given reveal key value, counting
/// non-final evaluators as carrying none.
pub open spec fn count_key(s: Seq<SingleEvaluationInfo>, v: Option<Mac>) -> nat
    decreases s.len(),
{
    if s.len() == 0 {
        0
    } else {
        count_key(s.drop_last(), v) + if final_key(s.last().state) == v {
            1nat
        } else {
            0nat
        }
    }
}

/// Strictly more than half of all evaluators are final with this key.
pub open spec fn has_majority(s: Seq<SingleEvaluationInfo>, k: Mac) -> bool {
    2 * count_final(s, k) > s.len()
}

/// Every evaluator has reached a terminal state.
pub open spec fn all_done(s: Seq<SingleEvaluationInfo>) -> bool {
    forall|i: int|
        0 <= i < s.len() ==> (#[trigger] s[i].state is Final || s[i].state is Failed)
}

/// The first score any evaluator has published, provisional or final.
pub open spec fn first_score(s: Seq<SingleEvaluationInfo>) -> Option<SubScore>
    decreases s.len(),
{
    if s.len() == 0 {
        None
    } else {
        match s.first().state {
            EvaluationState::Provisional(sc, _) => Some(sc),
            EvaluationState::Final(sc, _) => Some(sc),
            _ => first_score(s.drop_first()),
        }
    }
}

/// The smallest index whose evaluator is the given key, or the length.
pub open spec fn first_match(s: Seq<SingleEvaluationInfo>, who: PubSigKey) -> int
    decreases s.len(),
{
    if s.len() == 0 {
        0
    } else if s.first().evaluator == who {
        0
    } else {
        1 + first_match(s.drop_first(), who)
    }
}

/// What one published evaluation does to one evaluator's state: a first
/// score makes it provisional; anything later changes nothing.
pub open spec fn state_after_evaluation(st: EvaluationState, e: QEvaluation) -> EvaluationState {
    match st {
        EvaluationState::Pending => EvaluationState::Provisional(e.score, e.detailhs_hash),
        _ => st,
    }
}

/// What one reveal does to one evaluator's state: a provisional score
/// becomes final when the reveal opens its commitment, and failed when it
/// does not; anything else changes nothing.
pub open spec fn state_after_proof(st: EvaluationState, ep: QEvaluationProof) -> EvaluationState {
    match st {
        EvaluationState::Provisional(sc, h) => {
            if h.bytes@ == commitment_of(ep.evaluation_id, ep.detailhs) {
                EvaluationState::Final(sc, ep.detailhs)
            } else {
                EvaluationState::Failed
            }
        },
        _ => st,
    }
}

/// The per-evaluator states an aggregate may move one state to: a pending
/// evaluator may turn provisional; a provisional one may turn final,
/// keeping its score, or failed; terminal states never change.
pub open spec fn state_step_ok(pre: EvaluationState, post: EvaluationState) -> bool {
    ||| post == pre
    ||| (pre is Pending && post is Provisional)
    ||| (match (pre, post) {
        (EvaluationState::Provisional(sc, _), EvaluationState::Final(sc2, _)) => sc2 == sc,
        (EvaluationState::Provisional(_, _), EvaluationState::Failed) => true,
        _ => false,
    })
}

/// Counting a prefix one element longer adds that element's contribution.
pub proof fn lemma_count_final_take_succ(s: Seq<SingleEvaluationInfo>, k: Mac, i: int)
    requires
        0 <= i < s.len(),
    ensures
        count_final(s.take(i + 1), k) == count_final(s.take(i), k) + if final_key(s[i].state)
            == Some(k) {
            1nat
        } else {
            0nat
        },
{
    let t = s.take(i + 1);
    assert(t.drop_last() =~= s.take(i));
    assert(t.last() == s[i]);
}

/// Counting a prefix one element longer adds that element's contribution.
pub proof fn lemma_count_key_take_succ(s: Seq<SingleEvaluationInfo>, v: Option<Mac>, i: int)
    requires
        0 <= i < s.len(),
    ensures
        count_key(s.take(i + 1), v) == count_key(s.take(i), v) + if final_key(s[i].state) == v {
            1nat
        } else {
            0nat
        },
{
    let t = s.take(i + 1);
    assert(t.drop_last() =~= s.take(i));
    assert(t.last() == s[i]);
}

/// Counting finals with a key and counting carriers of that key agree.
pub proof fn lemma_count_final_eq_key(s: Seq<SingleEvaluationInfo>, k: Mac)
    ensures
        count_final(s, k) == count_key(s, Some(k)),
    decreases s.len(),
{
    if s.len() > 0 {
        lemma_count_final_eq_key(s.drop_last(), k);
    }
}

/// Pointwise allowed steps never lose a final evaluator's key.
pub proof fn lemma_count_final_monotonic(
    pre: Seq<SingleEvaluationInfo>,
    post: Seq<SingleEvaluationInfo>,
    k: Mac,
)
    requires
        pre.len() == post.len(),
        forall|i: int|
            0 <= i < pre.len() ==> #[trigger] state_step_ok(pre[i].state, post[i].state),
    ensures
        count_final(post, k) >= count_final(pre, k),
    decreases pre.len(),
{
    if pre.len() > 0 {
        assert(pre.drop_last().len() == post.drop_last().len());
        assert forall|i: int| 0 <= i < pre.drop_last().len() implies #[trigger] state_step_ok(
            pre.drop_last()[i].state,
            post.drop_last()[i].state,
        ) by {
            assert(state_step_ok(pre[i].state, post[i].state));
        }
        lemma_count_final_monotonic(pre.drop_last(), post.drop_last(), k);
        assert(state_step_ok(pre.last().state, post.last().state));
    }
}

/// Whether two reveal-key values are the same.
fn opt_key_eq(a: &Option<Mac>, b: &Option<Mac>) -> (r: bool)
    ensures
        r <==> *a == *b,
{
    match (a, b) {
        (None, None) => true,
        (Some(x), Some(y)) => x.equals(y),
        _ => false,
    }
}

/// The per-evaluator states for one submission, in the order the
/// evaluation request named the evaluators.
pub struct EvaluationInfo(pub Vec<SingleEvaluationInfo>);

impl EvaluationInfo {
    /// A fresh aggregate: every named evaluator is pending.
    pub fn new(evaluators: Vec<PubSigKey>) -> (r: Self)
        ensures
            r.0@.len() == evaluators@.len(),
            forall|i: int|
                0 <= i < evaluators@.len() ==> (#[trigger] r.0@[i]).evaluator == evaluators@[i]
                    && r.0@[i].state is Pending,
    {
        let mut v: Vec<SingleEvaluationInfo> = Vec::new();
        let mut i: usize = 0;
        let n = evaluators.len();
        #[verifier::loop_isolation(false)]
        while i < n
            invariant
                i <= n,
                v@.len() == i,
                forall|j: int|
                    0 <= j < i ==> (#[trigger] v@[j]).evaluator == evaluators@[j]
                        && v@[j].state is Pending,
            decreases n - i,
        {
            v.push(
                SingleEvaluationInfo {
                    evaluator: evaluators[i],
                    state: EvaluationState::Pending,
                },
            );
            i += 1;
        }
        EvaluationInfo(v)
    }

    /// Records a published evaluation: the first listed entry of that
    /// evaluator takes the score as provisional if it had nothing yet.
    pub fn add_evaluation(&mut self, e: QEvaluation)
        ensures
            final(self).0@.len() == old(self).0@.len(),
            forall|i: int|
                0 <= i < old(self).0@.len() ==> (#[trigger] final(self).0@[i]).evaluator == old(self).0@[i].evaluator,
            forall|i: int|
                0 <= i < old(self).0@.len() ==> (#[trigger] final(self).0@[i]).state == if i
                    == first_match(old(self).0@, e.evaluation_id.evaluator) {
                    state_after_evaluation(old(self).0@[i].state, e)
                } else {
                    old(self).0@[i].state
                },
            forall|i: int|
                0 <= i < old(self).0@.len() ==> #[trigger] state_step_ok(
                    old(self).0@[i].state,
                    final(self).0@[i].state,
                ),
    {
        let n = self.0.len();
        let mut i: usize = 0;
        proof {
            lemma_first_match_bounds(self.0@, e.evaluation_id.evaluator);
        }
        #[verifier::loop_isolation(false)]
        while i < n
            invariant
                i <= n,
                self == old(self),
                forall|j: int| 0 <= j < i ==> (#[trigger] self.0@[j]).evaluator
                    != e.evaluation_id.evaluator,
                first_match(self.0@, e.evaluation_id.evaluator) >= i,
            decreases n - i,
        {
            if self.0[i].evaluator.equals(&e.evaluation_id.evaluator) {
                proof {
                    lemma_first_match_found(self.0@, e.evaluation_id.evaluator, i as int);
                }
                let st = self.0[i].state;
                let new_state = match st {
                    EvaluationState::Pending => EvaluationState::Provisional(
                        e.score,
                        e.detailhs_hash,
                    ),
                    _ => st,
                };
                let entry = SingleEvaluationInfo { evaluator: self.0[i].evaluator, state: new_state };
                self.0.set(i, entry);
                return ;
            }
            proof {
                lemma_first_match_step(self.0@, e.evaluation_id.evaluator, i as int);
            }
            i += 1;
        }
        proof {
            lemma_first_match_none(self.0@, e.evaluation_id.evaluator);
        }
    }

    /// Records a reveal: the first listed entry of that evaluator, if it
    /// holds a provisional score, becomes final when the reveal opens its
    /// commitment and failed otherwise.
    pub fn add_evaluation_proof(&mut self, ep: QEvaluationProof)
        ensures
            final(self).0@.len() == old(self).0@.len(),
            forall|i: int|
                0 <= i < old(self).0@.len() ==> (#[trigger] final(self).0@[i]).evaluator == old(self).0@[i].evaluator,
            forall|i: int|
                0 <= i < old(self).0@.len() ==> (#[trigger] final(self).0@[i]).state == if i
                    == first_match(old(self).0@, ep.evaluation_id.evaluator) {
                    state_after_proof(old(self).0@[i].state, ep)
                } else {
                    old(self).0@[i].state
                },
            forall|i: int|
                0 <= i < old(self).0@.len() ==> #[trigger] state_step_ok(
                    old(self).0@[i].state,
                    final(self).0@[i].state,
                ),
    {
        let n = self.0.len();
        let mut i: usize = 0;
        proof {
            lemma_first_match_bounds(self.0@, ep.evaluation_id.evaluator);
        }
        #[verifier::loop_isolation(false)]
        while i < n
            invariant
                i <= n,
                self == old(self),
                forall|j: int| 0 <= j < i ==> (#[trigger] self.0@[j]).evaluator
                    != ep.evaluation_id.evaluator,
                first_match(self.0@, ep.evaluation_id.evaluator) >= i,
            decreases n - i,
        {
            if self.0[i].evaluator.equals(&ep.evaluation_id.evaluator) {
                proof {
                    lemma_first_match_found(self.0@, ep.evaluation_id.evaluator, i as int);
                }
                let st = self.0[i].state;
                let hv = ep.hash();
                let new_state = match st {
                    EvaluationState::Provisional(sc, h) => {
                        let same = hv.equals(&h);
                        proof {
                            if h.bytes@ == commitment_of(ep.evaluation_id, ep.detailhs) {
                                assert(h.bytes =~= hv.bytes);
                            }
                        }
                        if same {
                            EvaluationState::Final(sc, ep.detailhs)
                        } else {
                            EvaluationState::Failed
                        }
                    },
                    _ => st,
                };
                let entry = SingleEvaluationInfo { evaluator: self.0[i].evaluator, state: new_state };
                self.0.set(i, entry);
                return ;
            }
            proof {
                lemma_first_match_step(self.0@, ep.evaluation_id.evaluator, i as int);
            }
            i += 1;
        }
        proof {
            lemma_first_match_none(self.0@, ep.evaluation_id.evaluator);
        }
    }

    /// Any score already published, preferring the first listed.
    pub fn provisional_score(&self) -> (r: Option<SubScore>)
        ensures
            r == first_score(self.0@),
    {
        let n = self.0.len();
        let mut i: usize = 0;
        proof {
            assert(self.0@.skip(0) =~= self.0@);
        }
        #[verifier::loop_isolation(false)]
        while i < n
            invariant
                i <= n,
                first_score(self.0@) == first_score(self.0@.skip(i as int)),
                forall|j: int|
                    0 <= j < i ==> !((#[trigger] self.0@[j]).state is Provisional
                        || self.0@[j].state is Final),
            decreases n - i,
        {
            proof {
                assert(self.0@.skip(i as int).first() == self.0@[i as int]);
                assert(self.0@.skip(i as int).drop_first() =~= self.0@.skip(i + 1));
            }
            match self.0[i].state {
                EvaluationState::Provisional(sc, _) => {
                    return Some(sc);
                },
                EvaluationState::Final(sc, _) => {
                    return Some(sc);
                },
                _ => {},
            }
            i += 1;
        }
        proof {
            assert(self.0@.skip(n as int) =~= Seq::<SingleEvaluationInfo>::empty());
        }
        None
    }

    /// Every evaluator is final or failed.
    pub fn is_done(&self) -> (r: bool)
        ensures
            r == all_done(self.0@),
    {
        let n = self.0.len();
        let mut i: usize = 0;
        #[verifier::loop_isolation(false)]
        while i < n
            invariant
                i <= n,
                forall|j: int|
                    0 <= j < i ==> (#[trigger] self.0@[j].state is Final || self.0@[j].state
                        is Failed),
            decreases n - i,
        {
            match self.0[i].state {
                EvaluationState::Final(_, _) => {},
                EvaluationState::Failed => {},
                _ => {
                    return false;
                },
            }
            i += 1;
        }
        true
    }

    /// The score the majority attests: where strictly more than half of
    /// all evaluators are final with one reveal key, the score of one such
    /// evaluator; where no key reaches a majority, nothing. The candidate
    /// is found by a Boyer-Moore majority scan over the reveal keys.
    #[verifier::rlimit(100)]
    pub fn final_score(&self) -> (r: Option<SubScore>)
        ensures
            (match r {
                Some(sc) => exists|i: int|
                    0 <= i < self.0@.len() && ((#[trigger] self.0@[i]).state matches
                        EvaluationState::Final(sc2, k) && sc2 == sc && has_majority(self.0@, k)),
                None => forall|k: Mac| !has_majority(self.0@, k),
            }),
    {
        let s = &self.0;
        let n = s.len();
        let ghost sq = self.0@;
        let mut cand: Option<Mac> = None;
        let mut cnt: usize = 0;
        let mut i: usize = 0;
        #[verifier::loop_isolation(false)]
        while i < n
            invariant
                i <= n,
                cnt <= i,
                forall|v: Option<Mac>|
                    2 * #[trigger] count_key(sq.take(i as int), v) <= i + (if v == cand {
                        cnt as int
                    } else {
                        -(cnt as int)
                    }),
            decreases n - i,
        {
            let here: Option<Mac> = match s[i].state {
                EvaluationState::Final(_, k) => Some(k),
                _ => None,
            };
            let ghost old_cand = cand;
            let ghost old_cnt = cnt;
            if opt_key_eq(&here, &cand) {
                cnt = cnt + 1;
            } else if cnt == 0 {
                cand = here;
                cnt = 1;
            } else {
                cnt = cnt - 1;
            }
            proof {
                assert forall|v: Option<Mac>|
                    2 * #[trigger] count_key(sq.take(i + 1), v) <= i + 1 + (if v == cand {
                        cnt as int
                    } else {
                        -(cnt as int)
                    }) by {
                    lemma_count_key_take_succ(sq, v, i as int);
                }
            }
            i += 1;
        }
        proof {
            assert(sq.take(n as int) =~= sq);
        }
        match cand {
            None => {
                proof {
                    assert forall|k: Mac| !has_majority(sq, k) by {
                        lemma_count_final_eq_key(sq, k);
                    }
                }
                None
            },
            Some(ck) => {
                // count how many evaluators are final with the candidate key
                let mut cntk: usize = 0;
                let mut j: usize = 0;
                #[verifier::loop_isolation(false)]
                while j < n
                    invariant
                        j <= n,
                        cntk == count_final(sq.take(j as int), ck),
                        cntk <= j,
                    decreases n - j,
                {
                    proof {
                        lemma_count_final_take_succ(sq, ck, j as int);
                    }
                    match s[j].state {
                        EvaluationState::Final(_, k) => {
                            if k.equals(&ck) {
                                cntk = cntk + 1;
                            }
                        },
                        _ => {},
                    }
                    j += 1;
                }
                proof {
                    assert(sq.take(n as int) =~= sq);
                }
                if 2 * (cntk as u128) > (n as u128) {
                    // return the score of the first evaluator final with it
                    let mut j2: usize = 0;
                    #[verifier::loop_isolation(false)]
                    while j2 < n
                        invariant
                            j2 <= n,
                            count_final(sq.take(j2 as int), ck) == 0,
                        decreases n - j2,
                    {
                        proof {
                            lemma_count_final_take_succ(sq, ck, j2 as int);
                        }
                        match s[j2].state {
                            EvaluationState::Final(sc, k) => {
                                if k.equals(&ck) {
                                    return Some(sc);
                                }
                            },
                            _ => {},
                        }
                        j2 += 1;
                    }
                    proof {
                        assert(sq.take(n as int) =~= sq);
                        assert(count_final(sq, ck) == 0);
                    }
                    None
                } else {
                    proof {
                        assert forall|k: Mac| !has_majority(sq, k) by {
                            lemma_count_final_eq_key(sq, k);
                            if 2 * count_key(sq, Some(k)) > sq.len() {
                                assert(Some(k) == cand);
                            }
                        }
                    }
                    None
                }
            },
        }
    }

    /// What the aggregate reports: a majority-attested final score where
    /// one exists; failed where everyone finished without a majority; a
    /// provisional score where someone has published one; else nothing
    /// yet.
    pub fn score(&self) -> (r: EvaluationResultScore)
        ensures
            (exists|k: Mac| #[trigger] has_majority(self.0@, k)) ==> (r matches
                EvaluationResultScore::Final(sc) && exists|i: int|
                0 <= i < self.0@.len() && ((#[trigger] self.0@[i]).state matches
                    EvaluationState::Final(sc2, k) && sc2 == sc && has_majority(self.0@, k))),
            (forall|k: Mac| !has_majority(self.0@, k)) ==> r == (if all_done(self.0@) {
                EvaluationResultScore::Failed
            } else {
                match first_score(self.0@) {
                    Some(sc) => EvaluationResultScore::Provisional(sc),
                    None => EvaluationResultScore::Pending,
                }
            }),
    {
        match self.final_score() {
            Some(sc) => EvaluationResultScore::Final(sc),
            None => {
                if self.is_done() {
                    EvaluationResultScore::Failed
                } else {
                    match self.provisional_score() {
                        Some(sc) => EvaluationResultScore::Provisional(sc),
                        None => EvaluationResultScore::Pending,
                    }
                }
            },
        }
    }
}

/// The first match lies between zero and the length.
pub proof fn lemma_first_match_bounds(s: Seq<SingleEvaluationInfo>, who: PubSigKey)
    ensures
        0 <= first_match(s, who) <= s.len(),
    decreases s.len(),
{
    if s.len() > 0 && s.first().evaluator != who {
        lemma_first_match_bounds(s.drop_first(), who);
    }
}

/// A scan that found its key at index `i`, having passed no match, found
/// the first match.
proof fn lemma_first_match_found(s: Seq<SingleEvaluationInfo>, who: PubSigKey, i: int)
    requires
        0 <= i < s.len(),
        s[i].evaluator == who,
        forall|j: int| 0 <= j < i ==> (#[trigger] s[j]).evaluator != who,
    ensures
        first_match(s, who) == i,
    decreases i,
{
    lemma_first_match_bounds(s, who);
    if i == 0 {
    } else {
        assert(s.drop_first()[i - 1] == s[i]);
        assert forall|j: int| 0 <= j < i - 1 implies (#[trigger] s.drop_first()[j]).evaluator
            != who by {
            assert(s[j + 1] == s.drop_first()[j]);
        }
        lemma_first_match_found(s.drop_first(), who, i - 1);
    }
}

/// A scan that passes a non-match leaves the first match ahead of it.
proof fn lemma_first_match_step(s: Seq<SingleEvaluationInfo>, who: PubSigKey, i: int)
    requires
        0 <= i < s.len(),
        forall|j: int| 0 <= j <= i ==> (#[trigger] s[j]).evaluator != who,
    ensures
        first_match(s, who) >= i + 1,
    decreases i,
{
    lemma_first_match_bounds(s, who);
    if i == 0 {
        lemma_first_match_bounds(s.drop_first(), who);
    } else {
        assert forall|j: int| 0 <= j <= i - 1 implies (#[trigger] s.drop_first()[j]).evaluator
            != who by {
            assert(s[j + 1] == s.drop_first()[j]);
        }
        lemma_first_match_step(s.drop_first(), who, i - 1);
    }
}

/// A scan that found no match at all found none: the first match is the
/// length.
proof fn lemma_first_match_none(s: Seq<SingleEvaluationInfo>, who: PubSigKey)
    requires
        forall|j: int| 0 <= j < s.len() ==> (#[trigger] s[j]).evaluator != who,
    ensures
        first_match(s, who) == s.len(),
    decreases s.len(),
{
    if s.len() > 0 {
        assert forall|j: int| 0 <= j < s.drop_first().len() implies (#[trigger] s.drop_first()[j]).evaluator
            != who by {
            assert(s[j + 1] == s.drop_first()[j]);
        }
        lemma_first_match_none(s.drop_first(), who);
    }
}

/// Once the majority rule reports a final score, it reports a final score
/// after any further evaluations and reveals: allowed steps never lose a
/// majority.
pub proof fn lemma_final_stays_final(
    pre: Seq<SingleEvaluationInfo>,
    post: Seq<SingleEvaluationInfo>,
    k: Mac,
)
    requires
        pre.len() == post.len(),
        forall|i: int|
            0 <= i < pre.len() ==> #[trigger] state_step_ok(pre[i].state, post[i].state),
        has_majority(pre, k),
    ensures
        has_majority(post, k),
{
    lemma_count_final_monotonic(pre, post, k);
}

/// Terminal aggregates never change: when every evaluator has finished,
/// allowed steps keep every state exactly as it stands, so what `score`
/// reports stands as well.
pub proof fn lemma_done_is_stable(pre: Seq<SingleEvaluationInfo>, post: Seq<SingleEvaluationInfo>)
    requires
        pre.len() == post.len(),
        forall|i: int|
            0 <= i < pre.len() ==> #[trigger] state_step_ok(pre[i].state, post[i].state),
        all_done(pre),
    ensures
        forall|i: int| 0 <= i < pre.len() ==> #[trigger] post[i].state == pre[i].state,
{
    assert forall|i: int| 0 <= i < pre.len() implies #[trigger] post[i].state == pre[i].state by {
        assert(state_step_ok(pre[i].state, post[i].state));
        assert(pre[i].state is Final || pre[i].state is Failed);
    }
}

} // verus!
