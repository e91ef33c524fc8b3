use crate::crypto::{blake3_hash, blake3_of, Mac};
use crate::message::{score_bits_valid, score_norm, SubScore, SCORE_ONE_BITS};
use vstd::prelude::*;

verus! {

/// The resource caps one submission runs under: a memory ceiling in bytes
/// and a fuel budget.
#[derive(Clone, Copy, PartialEq, Eq, Structural, Debug)]
pub struct Limits {
    pub memory: u32,
    pub cpu: u64,
}

/// How a sandboxed run ended, as plain values: a normal exit with captured
/// standard output (or none, where the capture pipe could not be
/// unwrapped), a classified trap, or the host's refusal to grow memory.
#[derive(PartialEq, Eq, Debug)]
pub enum WasmOutcome {
    Exited(Option<Vec<u8>>),
    Trap(TrapKind),
    GrowFailure,
}

/// The kinds of trap the verdict taxonomy tells apart.
#[derive(Clone, Copy, PartialEq, Eq, Structural, Debug)]
pub enum TrapKind {
    OutOfFuel,
    MemoryOutOfBounds,
    TableOutOfBounds,
    Other,
}

/// What a submission's run means: captured output to hand to the scorer,
/// or a resource or runtime verdict, or output that could not be read.
#[derive(PartialEq, Eq, Debug)]
pub enum SubRes {
    OK(Vec<u8>),
    TLE,
    MLE,
    RTE,
    MFO,
}

/// What one test decided: a score in the unit interval, or which
/// resource gave out.
#[derive(Clone, Copy, PartialEq, Eq, Structural, Debug)]
pub enum TestEval {
    Score(SubScore),
    TLE,
    MLE,
    RTE,
}

/// Classifies how a submission's sandboxed run ended: running out of fuel
/// is a time verdict; memory and table overruns and refused growth are
/// memory verdicts; any other trap is a runtime verdict; a normal exit
/// hands the captured output on, or reports unreadable output.
pub fn classify_sub_outcome(o: WasmOutcome) -> (r: SubRes)
    ensures
        r == (match o {
            WasmOutcome::Exited(Some(out)) => SubRes::OK(out),
            WasmOutcome::Exited(None) => SubRes::MFO,
            WasmOutcome::Trap(TrapKind::OutOfFuel) => SubRes::TLE,
            WasmOutcome::Trap(TrapKind::MemoryOutOfBounds) => SubRes::MLE,
            WasmOutcome::Trap(TrapKind::TableOutOfBounds) => SubRes::MLE,
            WasmOutcome::Trap(TrapKind::Other) => SubRes::RTE,
            WasmOutcome::GrowFailure => SubRes::MLE,
        }),
{
    match o {
        WasmOutcome::Exited(Some(out)) => SubRes::OK(out),
        WasmOutcome::Exited(None) => SubRes::MFO,
        WasmOutcome::Trap(TrapKind::OutOfFuel) => SubRes::TLE,
        WasmOutcome::Trap(TrapKind::MemoryOutOfBounds) => SubRes::MLE,
        WasmOutcome::Trap(TrapKind::TableOutOfBounds) => SubRes::MLE,
        WasmOutcome::Trap(TrapKind::Other) => SubRes::RTE,
        WasmOutcome::GrowFailure => SubRes::MLE,
    }
}

/// The scorer's output was no score in the unit interval: the whole
/// evaluation fails, rather than scoring the test as zero.
#[derive(Clone, Copy, PartialEq, Eq, Structural, Debug)]
pub struct BadScore {
    pub bits: u64,
}

/// One test's verdict from the submission's result and, where the scorer
/// ran, the bit pattern its parsed output gave: cap violations carry over;
/// unreadable output scores zero; a scorer value outside the unit interval
/// fails the evaluation.
pub fn test_verdict(sub: SubRes, scorer_bits: Option<u64>) -> (r: Result<TestEval, BadScore>)
    ensures
        (match sub {
            SubRes::OK(_) => r == (match scorer_bits {
                Some(bits) => {
                    if score_bits_valid(bits) {
                        Ok::<TestEval, BadScore>(TestEval::Score(SubScore { bits }))
                    } else {
                        Err(BadScore { bits })
                    }
                },
                None => Err(BadScore { bits: 0 }),
            }),
            SubRes::TLE => r == Ok::<TestEval, BadScore>(TestEval::TLE),
            SubRes::MLE => r == Ok::<TestEval, BadScore>(TestEval::MLE),
            SubRes::RTE => r == Ok::<TestEval, BadScore>(TestEval::RTE),
            SubRes::MFO => r == Ok::<TestEval, BadScore>(
                TestEval::Score(SubScore { bits: 0 }),
            ),
        }),
{
    match sub {
        SubRes::OK(_) => match scorer_bits {
            Some(bits) => match SubScore::from_bits(bits) {
                Some(sc) => Ok(TestEval::Score(sc)),
                None => Err(BadScore { bits }),
            },
            None => Err(BadScore { bits: 0 }),
        },
        SubRes::TLE => Ok(TestEval::TLE),
        SubRes::MLE => Ok(TestEval::MLE),
        SubRes::RTE => Ok(TestEval::RTE),
        SubRes::MFO => Ok(TestEval::Score(SubScore { bits: 0 })),
    }
}

/// A verdict's worth for the aggregate: the score's, with cap and runtime
/// verdicts as zero.
pub open spec fn verdict_norm(v: TestEval) -> u64 {
    match v {
        TestEval::Score(sc) => score_norm(sc),
        _ => 0u64,
    }
}

/// The largest verdict worth over a testset.
pub open spec fn max_norm(s: Seq<TestEval>) -> u64
    decreases s.len(),
{
    if s.len() == 0 {
        0u64
    } else {
        let rest = max_norm(s.drop_last());
        if verdict_norm(s.last()) > rest {
            verdict_norm(s.last())
        } else {
            rest
        }
    }
}

/// Every verdict's worth is a valid score pattern.
pub proof fn lemma_max_norm_valid(s: Seq<TestEval>)
    requires
        forall|i: int|
            0 <= i < s.len() ==> (#[trigger] s[i] matches TestEval::Score(sc) ==> score_bits_valid(
                sc.bits,
            )),
    ensures
        max_norm(s) <= SCORE_ONE_BITS,
        score_bits_valid(max_norm(s)),
    decreases s.len(),
{
    if s.len() > 0 {
        assert forall|i: int| 0 <= i < s.drop_last().len() implies (#[trigger] s.drop_last()[i]
            matches TestEval::Score(sc) ==> score_bits_valid(sc.bits)) by {
            assert(s[i] == s.drop_last()[i]);
        }
        lemma_max_norm_valid(s.drop_last());
        assert(s[s.len() - 1] == s.last());
    }
}

/// The submission's aggregate score: the maximum per-test worth, with cap
/// and runtime verdicts as zero; an empty testset has no score.
pub fn max_score(evals: &Vec<TestEval>) -> (r: Option<SubScore>)
    requires
        forall|i: int|
            0 <= i < evals@.len() ==> (#[trigger] evals@[i] matches TestEval::Score(sc)
                ==> score_bits_valid(sc.bits)),
    ensures
        r is Some <==> evals@.len() > 0,
        r is Some ==> r.unwrap().bits == max_norm(evals@) && score_bits_valid(r.unwrap().bits),
{
    let n = evals.len();
    if n == 0 {
        return None;
    }
    let mut best: u64 = 0;
    let mut i: usize = 0;
    proof {
        assert(evals@.take(0) =~= Seq::<TestEval>::empty());
    }
    #[verifier::loop_isolation(false)]
    while i < n
        invariant
            i <= n,
            best == max_norm(evals@.take(i as int)),
        decreases n - i,
    {
        let here: u64 = match evals[i] {
            TestEval::Score(sc) => {
                if sc.bits == crate::message::SCORE_NEG_ZERO_BITS {
                    0
                } else {
                    sc.bits
                }
            },
            _ => 0,
        };
        proof {
            assert(evals@.take(i + 1).drop_last() =~= evals@.take(i as int));
            assert(evals@.take(i + 1).last() == evals@[i as int]);
        }
        if here > best {
            best = here;
        }
        i += 1;
    }
    proof {
        assert(evals@.take(n as int) =~= evals@);
        lemma_max_norm_valid(evals@);
    }
    Some(SubScore { bits: best })
}

/// The big-endian bytes of a fuel count, as the digest feeds them.
pub open spec fn u64_be(x: u64) -> Seq<u8> {
    seq![
        (x / 0x100_0000_0000_0000) as u8,
        ((x / 0x1_0000_0000_0000) % 256) as u8,
        ((x / 0x100_0000_0000) % 256) as u8,
        ((x / 0x1_0000_0000) % 256) as u8,
        ((x / 0x100_0000) % 256) as u8,
        ((x / 0x1_0000) % 256) as u8,
        ((x / 0x100) % 256) as u8,
        (x % 256) as u8,
    ]
}

/// The running evidence of an evaluation: the exact bytes fed so far, in
/// order. Two honest workers that run the same modules under the same caps
/// feed the same bytes and finalize to the same digest.
pub struct ExecutionDigest {
    pub fed: Vec<u8>,
}

impl ExecutionDigest {
    /// A fresh digest with nothing fed.
    pub fn new() -> (r: Self)
        ensures
            r.fed@ == Seq::<u8>::empty(),
    {
        ExecutionDigest { fed: Vec::new() }
    }

    /// Feeds a run's final memory image.
    pub fn update_memory(&mut self, memory: &[u8])
        ensures
            final(self).fed@ == old(self).fed@ + memory@,
    {
        let mut i: usize = 0;
        let n = memory.len();
        #[verifier::loop_isolation(false)]
        while i < n
            invariant
                i <= n,
                self.fed@ =~= old(self).fed@ + memory@.take(i as int),
            decreases n - i,
        {
            self.fed.push(memory[i]);
            assert(self.fed@ =~= old(self).fed@ + memory@.take(i + 1 as int));
            i += 1;
        }
        proof {
            assert(memory@.take(n as int) =~= memory@);
        }
    }

    /// Feeds the fuel a metered run consumed, as eight big-endian bytes.
    pub fn update_fuel(&mut self, fuel: u64)
        ensures
            final(self).fed@ == old(self).fed@ + u64_be(fuel),
    {
        self.fed.push((fuel / 0x100_0000_0000_0000) as u8);
        self.fed.push(((fuel / 0x1_0000_0000_0000) % 256) as u8);
        self.fed.push(((fuel / 0x100_0000_0000) % 256) as u8);
        self.fed.push(((fuel / 0x1_0000_0000) % 256) as u8);
        self.fed.push(((fuel / 0x100_0000) % 256) as u8);
        self.fed.push(((fuel / 0x1_0000) % 256) as u8);
        self.fed.push(((fuel / 0x100) % 256) as u8);
        self.fed.push((fuel % 256) as u8);
        assert(self.fed@ =~= old(self).fed@ + u64_be(fuel));
    }

    /// The detail hash: the digest of everything fed, in order.
    pub fn finalize(&self) -> (r: Mac)
        ensures
            r.bytes@ == blake3_of(self.fed@),
    {
        blake3_hash(self.fed.as_slice())
    }
}

/// Whether the host completed a sandboxed run at all: a completed run has
/// an outcome and a digest contribution; a failure of the host machinery
/// itself (instantiation, linking) fails the whole evaluation and feeds
/// the digest nothing.
#[derive(PartialEq, Eq, Debug)]
pub enum RunResult {
    Completed(WasmOutcome),
    HostFailure,
}

/// What the evaluation asks the host to do next, or how it ended.
#[derive(PartialEq, Eq, Debug)]
pub enum RunRequest {
    /// Run the generator for this test, unmetered, with the test id as
    /// its one argument, capturing standard output.
    RunGen { test_id: u32 },
    /// Run the submission, metered under the caps, on this input.
    RunSub { input: Vec<u8> },
    /// Run the scorer for this test, unmetered, on the submission's
    /// output.
    RunEval { test_id: u32, input: Vec<u8> },
    /// Every test ran: the aggregate score and the detail hash.
    Done { score: SubScore, detail_hash: Mac },
    /// The evaluation failed: a generator or scorer failure, unreadable
    /// scorer output, a score outside the unit interval, or host
    /// machinery giving out.
    Failed,
}

/// Which run the evaluation waits for.
#[derive(Clone, Copy, PartialEq, Eq, Structural, Debug)]
pub enum RunPhase {
    AwaitGen,
    AwaitSub,
    AwaitEval,
    Finished,
}

/// One submission's evaluation in progress: the caps, the testset length,
/// the verdicts so far, the evidence fed so far, and which run is awaited.
/// The host performs the requested runs and reports back; every decision
/// between two runs is made here.
pub struct EvaluationRun {
    pub limits: Limits,
    pub testset_length: u32,
    pub verdicts: Vec<TestEval>,
    pub digest: ExecutionDigest,
    pub phase: RunPhase,
}

impl EvaluationRun {
    /// Verdicts never outnumber tests, a run is awaited only while tests
    /// remain, and every scored verdict lies in the unit interval.
    pub open spec fn wf(&self) -> bool {
        &&& self.verdicts@.len() <= self.testset_length
        &&& (self.phase != RunPhase::Finished ==> self.verdicts@.len() < self.testset_length)
        &&& (forall|i: int|
            0 <= i < self.verdicts@.len() ==> (#[trigger] self.verdicts@[i] matches
                TestEval::Score(sc) ==> score_bits_valid(sc.bits)))
    }

    /// Begins an evaluation: nothing fed, nothing decided, the first
    /// test's generator requested — or, with no tests at all, failure.
    pub fn start(limits: Limits, testset_length: u32) -> (r: (EvaluationRun, RunRequest))
        ensures
            r.0.wf(),
            r.0.limits == limits,
            r.0.testset_length == testset_length,
            r.0.verdicts@.len() == 0,
            r.0.digest.fed@ == Seq::<u8>::empty(),
            testset_length == 0 ==> r.0.phase == RunPhase::Finished && r.1 == RunRequest::Failed,
            testset_length > 0 ==> r.0.phase == RunPhase::AwaitGen && r.1 == (RunRequest::RunGen {
                test_id: 0,
            }),
    {
        if testset_length == 0 {
            let run = EvaluationRun {
                limits,
                testset_length,
                verdicts: Vec::new(),
                digest: ExecutionDigest::new(),
                phase: RunPhase::Finished,
            };
            (run, RunRequest::Failed)
        } else {
            let run = EvaluationRun {
                limits,
                testset_length,
                verdicts: Vec::new(),
                digest: ExecutionDigest::new(),
                phase: RunPhase::AwaitGen,
            };
            (run, RunRequest::RunGen { test_id: 0 })
        }
    }

    /// Moves to the next test, or ends: every verdict in, the aggregate
    /// is the maximum score and the detail hash the digest of everything
    /// fed.
    fn advance(&mut self) -> (r: RunRequest)
        requires
            old(self).verdicts@.len() <= old(self).testset_length,
            forall|i: int|
                0 <= i < old(self).verdicts@.len() ==> (#[trigger] old(self).verdicts@[i] matches
                    TestEval::Score(sc) ==> score_bits_valid(sc.bits)),
        ensures
            final(self).wf(),
            final(self).limits == old(self).limits,
            final(self).testset_length == old(self).testset_length,
            final(self).verdicts == old(self).verdicts,
            final(self).digest == old(self).digest,
            old(self).verdicts@.len() < old(self).testset_length ==> final(self).phase
                == RunPhase::AwaitGen && r == (RunRequest::RunGen {
                test_id: old(self).verdicts@.len() as u32,
            }),
            old(self).verdicts@.len() == old(self).testset_length ==> final(self).phase
                == RunPhase::Finished && (r matches RunRequest::Done { score, detail_hash }
                && score.bits == max_norm(old(self).verdicts@) && detail_hash.bytes@ == blake3_of(
                old(self).digest.fed@,
            )),
    {
        let done = self.verdicts.len();
        if done < self.testset_length as usize {
            self.phase = RunPhase::AwaitGen;
            RunRequest::RunGen { test_id: done as u32 }
        } else {
            self.phase = RunPhase::Finished;
            let score = match max_score(&self.verdicts) {
                Some(sc) => sc,
                None => SubScore { bits: 0 },
            };
            let detail_hash = self.digest.finalize();
            RunRequest::Done { score, detail_hash }
        }
    }

    /// Takes the generator's run: its final memory feeds the evidence; a
    /// clean exit hands its output to the submission, anything else fails
    /// the whole evaluation. A host failure feeds nothing.
    pub fn on_gen(&mut self, result: RunResult, memory: &[u8]) -> (r: RunRequest)
        requires
            old(self).wf(),
            old(self).phase == RunPhase::AwaitGen,
        ensures
            final(self).wf(),
            final(self).limits == old(self).limits,
            final(self).testset_length == old(self).testset_length,
            final(self).verdicts == old(self).verdicts,
            (match result {
                RunResult::Completed(WasmOutcome::Exited(Some(out))) => {
                    &&& final(self).digest.fed@ == old(self).digest.fed@ + memory@
                    &&& final(self).phase == RunPhase::AwaitSub
                    &&& r == (RunRequest::RunSub { input: out })
                },
                RunResult::Completed(_) => {
                    &&& final(self).digest.fed@ == old(self).digest.fed@ + memory@
                    &&& final(self).phase == RunPhase::Finished
                    &&& r == RunRequest::Failed
                },
                RunResult::HostFailure => {
                    &&& final(self).digest == old(self).digest
                    &&& final(self).phase == RunPhase::Finished
                    &&& r == RunRequest::Failed
                },
            }),
    {
        match result {
            RunResult::HostFailure => {
                self.phase = RunPhase::Finished;
                RunRequest::Failed
            },
            RunResult::Completed(outcome) => {
                self.digest.update_memory(memory);
                match outcome {
                    WasmOutcome::Exited(Some(out)) => {
                        self.phase = RunPhase::AwaitSub;
                        RunRequest::RunSub { input: out }
                    },
                    _ => {
                        self.phase = RunPhase::Finished;
                        RunRequest::Failed
                    },
                }
            },
        }
    }

    /// Takes the submission's metered run: its final memory and consumed
    /// fuel feed the evidence; the outcome is classified into the verdict
    /// taxonomy; captured output goes to the scorer, a cap or runtime
    /// verdict scores the test directly, unreadable output scores zero.
    pub fn on_sub(&mut self, result: RunResult, fuel_used: u64, memory: &[u8]) -> (r: RunRequest)
        requires
            old(self).wf(),
            old(self).phase == RunPhase::AwaitSub,
        ensures
            final(self).wf(),
            final(self).limits == old(self).limits,
            final(self).testset_length == old(self).testset_length,
            (match result {
                RunResult::HostFailure => {
                    &&& final(self).digest == old(self).digest
                    &&& final(self).verdicts == old(self).verdicts
                    &&& final(self).phase == RunPhase::Finished
                    &&& r == RunRequest::Failed
                },
                RunResult::Completed(outcome) => {
                    &&& final(self).digest.fed@ == old(self).digest.fed@ + memory@ + u64_be(
                        fuel_used,
                    )
                    &&& (match outcome {
                        WasmOutcome::Exited(Some(out)) => final(self).verdicts == old(self).verdicts && final(self).phase == RunPhase::AwaitEval && r == (
                        RunRequest::RunEval {
                            test_id: old(self).verdicts@.len() as u32,
                            input: out,
                        }),
                        WasmOutcome::Exited(None) => sub_step_scored(
                            old(self),
                            final(self),
                            r,
                            TestEval::Score(SubScore { bits: 0 }),
                        ),
                        WasmOutcome::Trap(TrapKind::OutOfFuel) => sub_step_scored(
                            old(self),
                            final(self),
                            r,
                            TestEval::TLE,
                        ),
                        WasmOutcome::Trap(TrapKind::MemoryOutOfBounds) => sub_step_scored(
                            old(self),
                            final(self),
                            r,
                            TestEval::MLE,
                        ),
                        WasmOutcome::Trap(TrapKind::TableOutOfBounds) => sub_step_scored(
                            old(self),
                            final(self),
                            r,
                            TestEval::MLE,
                        ),
                        WasmOutcome::GrowFailure => sub_step_scored(
                            old(self),
                            final(self),
                            r,
                            TestEval::MLE,
                        ),
                        WasmOutcome::Trap(TrapKind::Other) => sub_step_scored(
                            old(self),
                            final(self),
                            r,
                            TestEval::RTE,
                        ),
                    })
                },
            }),
    {
        match result {
            RunResult::HostFailure => {
                self.phase = RunPhase::Finished;
                RunRequest::Failed
            },
            RunResult::Completed(outcome) => {
                self.digest.update_memory(memory);
                self.digest.update_fuel(fuel_used);
                let sub_res = classify_sub_outcome(outcome);
                match sub_res {
                    SubRes::OK(out) => {
                        self.phase = RunPhase::AwaitEval;
                        RunRequest::RunEval { test_id: self.verdicts.len() as u32, input: out }
                    },
                    SubRes::TLE => {
                        self.verdicts.push(TestEval::TLE);
                        self.advance()
                    },
                    SubRes::MLE => {
                        self.verdicts.push(TestEval::MLE);
                        self.advance()
                    },
                    SubRes::RTE => {
                        self.verdicts.push(TestEval::RTE);
                        self.advance()
                    },
                    SubRes::MFO => {
                        self.verdicts.push(TestEval::Score(SubScore { bits: 0 }));
                        self.advance()
                    },
                }
            },
        }
    }

    /// Takes the scorer's run: its final memory feeds the evidence; a
    /// clean exit must parse to a score in the unit interval, whose bit
    /// pattern the host hands over; anything else fails the evaluation.
    pub fn on_eval(&mut self, result: RunResult, memory: &[u8], parsed_bits: Option<u64>) -> (r:
        RunRequest)
        requires
            old(self).wf(),
            old(self).phase == RunPhase::AwaitEval,
        ensures
            final(self).wf(),
            final(self).limits == old(self).limits,
            final(self).testset_length == old(self).testset_length,
            (match result {
                RunResult::HostFailure => {
                    &&& final(self).digest == old(self).digest
                    &&& final(self).verdicts == old(self).verdicts
                    &&& final(self).phase == RunPhase::Finished
                    &&& r == RunRequest::Failed
                },
                RunResult::Completed(outcome) => {
                    &&& final(self).digest.fed@ == old(self).digest.fed@ + memory@
                    &&& (match outcome {
                        WasmOutcome::Exited(Some(_)) => (match parsed_bits {
                            Some(bits) => {
                                if score_bits_valid(bits) {
                                    sub_step_scored(
                                        old(self),
                                        final(self),
                                        r,
                                        TestEval::Score(SubScore { bits }),
                                    )
                                } else {
                                    final(self).verdicts == old(self).verdicts && final(self).phase == RunPhase::Finished && r == RunRequest::Failed
                                }
                            },
                            None => final(self).verdicts == old(self).verdicts && final(self).phase == RunPhase::Finished && r == RunRequest::Failed,
                        }),
                        _ => final(self).verdicts == old(self).verdicts && final(self).phase
                            == RunPhase::Finished && r == RunRequest::Failed,
                    })
                },
            }),
    {
        match result {
            RunResult::HostFailure => {
                self.phase = RunPhase::Finished;
                RunRequest::Failed
            },
            RunResult::Completed(outcome) => {
                self.digest.update_memory(memory);
                match outcome {
                    WasmOutcome::Exited(Some(_)) => match parsed_bits {
                        Some(bits) => match SubScore::from_bits(bits) {
                            Some(sc) => {
                                self.verdicts.push(TestEval::Score(sc));
                                self.advance()
                            },
                            None => {
                                self.phase = RunPhase::Finished;
                                RunRequest::Failed
                            },
                        },
                        None => {
                            self.phase = RunPhase::Finished;
                            RunRequest::Failed
                        },
                    },
                    _ => {
                        self.phase = RunPhase::Finished;
                        RunRequest::Failed
                    },
                }
            },
        }
    }
}

/// One test's verdict was just recorded, and the evaluation moved on: the
/// verdict appended, then either the next test's generator requested or —
/// with every test in — the aggregate maximum and the digest of all fed
/// evidence handed back.
pub open spec fn sub_step_scored(
    pre: &EvaluationRun,
    post: &EvaluationRun,
    r: RunRequest,
    verdict: TestEval,
) -> bool {
    &&& post.verdicts@ == pre.verdicts@.push(verdict)
    &&& (pre.verdicts@.len() + 1 < pre.testset_length ==> post.phase == RunPhase::AwaitGen && r
        == (RunRequest::RunGen { test_id: (pre.verdicts@.len() + 1) as u32 }))
    &&& (pre.verdicts@.len() + 1 == pre.testset_length ==> post.phase == RunPhase::Finished && (
    r matches RunRequest::Done { score, detail_hash } && score.bits == max_norm(
        pre.verdicts@.push(verdict),
    ) && detail_hash.bytes@ == blake3_of(post.digest.fed@)))
}

} // verus!
