//! Extraction: from a finished run to lessons.
//!
//! Reading the ledger and asking a provider are the host's part. The host calls
//! [`begin_extraction`], performs what it is asked, and hands the outcome to
//! [`finish_extraction`].

use vstd::prelude::*;

use crate::error;
use crate::error::{ErrorView, LoopError};
use crate::memory::mining;
use crate::memory::mining::{ExtractedMemory, MinedView};
use crate::memory::prompt;
use crate::memory::prompt::ExtractionPrompt;
use crate::memory::trajectory::{RecordView, TrajectoryOutcome, TrajectoryRecord};
use crate::text;

verus! {

/// How lessons are mined.
#[derive(Debug, Clone, Copy, PartialEq, Eq, Structural)]
pub enum ExtractionStrategy {
    /// By rule.
    Heuristic,
    /// By a provider.
    Llm,
    /// By rule, refined by a provider where there is one.
    Hybrid,
}

impl Default for ExtractionStrategy {
    fn default() -> (r: Self)
        ensures
            r == ExtractionStrategy::Heuristic,
    {
        ExtractionStrategy::Heuristic
    }
}

/// What one extraction pass goes by.
#[derive(Debug, Clone, Copy, PartialEq, Eq, Structural)]
pub struct ExtractionConfig {
    /// How lessons are mined.
    pub strategy: ExtractionStrategy,
    /// The most lessons that one run may yield.
    pub max_memories: usize,
    /// The turns below which nothing is mined.
    pub min_turns: usize,
    /// Whether outright failures are mined too.
    pub include_failures: bool,
    /// The bytes that a prompt may take.
    pub llm_context_budget: usize,
}

impl Default for ExtractionConfig {
    fn default() -> (r: Self)
        ensures
            r == (ExtractionConfig {
                strategy: ExtractionStrategy::Heuristic,
                max_memories: 10,
                min_turns: 3,
                include_failures: false,
                llm_context_budget: 8000,
            }),
    {
        ExtractionConfig {
            strategy: ExtractionStrategy::Heuristic,
            max_memories: 10,
            min_turns: 3,
            include_failures: false,
            llm_context_budget: 8000,
        }
    }
}

/// The outcome of a pass that never reached its provider.
pub const NO_CLIENT: &'static str = "no_client";

/// The outcome that a finished pass reports: why it fell back, or that it did
/// not.
pub fn settle_outcome(fallback: Option<&'static str>) -> (outcome: &'static str)
    ensures
        outcome@ == match fallback {
            Some(f) => f@,
            None => "ok"@,
        },
{
    match fallback {
        Some(f) => f,
        None => "ok",
    }
}

/// How a provider failed.
#[derive(Debug, Clone, Copy, PartialEq, Eq, Structural)]
pub enum ProviderFault {
    /// The call failed.
    Api,
    /// The answer could not be read.
    Parse,
}

/// The outcome that a provider's failure is reported as.
pub open spec fn fault_name(fault: ProviderFault) -> Seq<char> {
    match fault {
        ProviderFault::Api => "api_error"@,
        ProviderFault::Parse => "parse_error"@,
    }
}

fn fault_label(fault: ProviderFault) -> (label: &'static str)
    ensures
        label@ == fault_name(fault),
{
    match fault {
        ProviderFault::Api => "api_error",
        ProviderFault::Parse => "parse_error",
    }
}

/// A provider's failure.
#[derive(Debug)]
pub struct LlmFailure {
    pub error: LoopError,
    pub fault: ProviderFault,
}

/// What comes next in a pass.
#[derive(Debug)]
pub enum ExtractionStep {
    /// Nothing is mined from this run.
    Skipped,
    /// The pass is over.
    Settled { memories: Vec<ExtractedMemory>, outcome: &'static str },
    /// The pass failed.
    Failed { error: LoopError, outcome: &'static str },
    /// The provider is to be asked.
    Ask { prompt: ExtractionPrompt },
}

/// What a step says.
pub enum StepView {
    Skipped,
    Settled { memories: Seq<MinedView>, outcome: Seq<char> },
    Failed { error: ErrorView, outcome: Seq<char> },
    Ask { system: Seq<char>, summary: Seq<char> },
}

impl View for ExtractionStep {
    type V = StepView;

    open spec fn view(&self) -> StepView {
        match self {
            ExtractionStep::Skipped => StepView::Skipped,
            ExtractionStep::Settled { memories, outcome } => StepView::Settled {
                memories: mining::mined_views(memories@),
                outcome: outcome@,
            },
            ExtractionStep::Failed { error, outcome } => StepView::Failed {
                error: error@,
                outcome: outcome@,
            },
            ExtractionStep::Ask { prompt } => StepView::Ask {
                system: prompt.system@,
                summary: prompt.summary@,
            },
        }
    }
}

/// Whether a run is mined at all: it has turns enough, and it did not fail
/// outright unless failures are mined too.
pub open spec fn is_mined(record: RecordView, config: ExtractionConfig) -> bool {
    record.turns.len() >= config.min_turns && (record.outcome != TrajectoryOutcome::Failure
        || config.include_failures)
}

/// The step that asks the provider.
pub open spec fn asking(record: RecordView, budget: nat, candidates: Option<Seq<MinedView>>) -> StepView {
    StepView::Ask {
        system: prompt::prompt_system(record, budget, candidates),
        summary: prompt::prompt_summary(record, budget, candidates is Some),
    }
}

/// The step that ends a pass with the best of these lessons.
pub open spec fn settling(list: Seq<MinedView>, config: ExtractionConfig, outcome: Seq<char>) -> StepView {
    StepView::Settled { memories: mining::settled(list, config.max_memories), outcome }
}

/// The first step of a pass.
pub open spec fn first_step(
    record: RecordView,
    config: ExtractionConfig,
    has_client: bool,
) -> StepView {
    if !is_mined(record, config) {
        StepView::Skipped
    } else {
        match config.strategy {
            ExtractionStrategy::Heuristic => settling(mining::heuristics(record), config, "ok"@),
            ExtractionStrategy::Llm => if has_client {
                asking(record, config.llm_context_budget as nat, None)
            } else {
                StepView::Failed {
                    error: ErrorView::Api("the Llm extraction strategy requires an ApiClient"@),
                    outcome: NO_CLIENT@,
                }
            },
            ExtractionStrategy::Hybrid => if has_client {
                asking(
                    record,
                    config.llm_context_budget as nat,
                    Some(mining::heuristics(record)),
                )
            } else {
                settling(mining::heuristics(record), config, NO_CLIENT@)
            },
        }
    }
}

/// The last step of a pass whose provider answered. The hybrid strategy falls
/// back to what the rules found.
pub open spec fn last_step(
    record: RecordView,
    config: ExtractionConfig,
    answer: Result<Seq<MinedView>, (ErrorView, ProviderFault)>,
) -> StepView {
    match answer {
        Ok(list) => settling(list, config, "ok"@),
        Err((error, fault)) => if config.strategy == ExtractionStrategy::Hybrid {
            settling(mining::heuristics(record), config, fault_name(fault))
        } else {
            StepView::Failed { error, outcome: fault_name(fault) }
        },
    }
}

/// Begins a pass over a finished run.
pub fn begin_extraction(record: &TrajectoryRecord, config: &ExtractionConfig, has_client: bool) -> (step:
    ExtractionStep)
    ensures
        step@ == first_step(record@, *config, has_client),
{
    assert(record@.turns.len() == record.turns.len());
    if record.turns.len() < config.min_turns {
        return ExtractionStep::Skipped;
    }
    if record.outcome == TrajectoryOutcome::Failure && !config.include_failures {
        return ExtractionStep::Skipped;
    }
    match config.strategy {
        ExtractionStrategy::Heuristic => {
            let found = mining::heuristic_memories(record);
            ExtractionStep::Settled {
                memories: mining::settle_memories(&found, config.max_memories),
                outcome: settle_outcome(None),
            }
        },
        ExtractionStrategy::Llm => if has_client {
            ExtractionStep::Ask {
                prompt: prompt::extraction_prompt(record, config.llm_context_budget, None),
            }
        } else {
            ExtractionStep::Failed {
                error: LoopError::Api(
                    String::from_str("the Llm extraction strategy requires an ApiClient"),
                ),
                outcome: NO_CLIENT,
            }
        },
        ExtractionStrategy::Hybrid => {
            let found = mining::heuristic_memories(record);
            if has_client {
                ExtractionStep::Ask {
                    prompt: prompt::extraction_prompt(
                        record,
                        config.llm_context_budget,
                        Some(&found),
                    ),
                }
            } else {
                ExtractionStep::Settled {
                    memories: mining::settle_memories(&found, config.max_memories),
                    outcome: settle_outcome(Some(NO_CLIENT)),
                }
            }
        },
    }
}

/// Ends a pass whose provider was asked.
pub fn finish_extraction(
    record: &TrajectoryRecord,
    config: &ExtractionConfig,
    answer: Result<Vec<ExtractedMemory>, LlmFailure>,
) -> (step: ExtractionStep)
    ensures
        step@ == last_step(
            record@,
            *config,
            match answer {
                Ok(list) => Ok(mining::mined_views(list@)),
                Err(f) => Err((f.error@, f.fault)),
            },
        ),
{
    match answer {
        Ok(list) => ExtractionStep::Settled {
            memories: mining::settle_memories(&list, config.max_memories),
            outcome: settle_outcome(None),
        },
        Err(failure) => if config.strategy == ExtractionStrategy::Hybrid {
            let found = mining::heuristic_memories(record);
            ExtractionStep::Settled {
                memories: mining::settle_memories(&found, config.max_memories),
                outcome: settle_outcome(Some(fault_label(failure.fault))),
            }
        } else {
            ExtractionStep::Failed { error: failure.error, outcome: fault_label(failure.fault) }
        },
    }
}

/// A hybrid pass never fails, whatever its provider does, and a heuristic pass
/// asks nobody.
pub proof fn a_hybrid_pass_never_fails(
    record: RecordView,
    config: ExtractionConfig,
    has_client: bool,
    answer: Result<Seq<MinedView>, (ErrorView, ProviderFault)>,
)
    ensures
        config.strategy == ExtractionStrategy::Hybrid ==> !(first_step(
            record,
            config,
            has_client,
        ) is Failed) && last_step(record, config, answer) is Settled,
        config.strategy == ExtractionStrategy::Heuristic ==> !(first_step(
            record,
            config,
            has_client,
        ) is Ask) && !(first_step(record, config, has_client) is Failed),
{
}

/// A pass never settles for more lessons than the configuration allows.
pub proof fn a_pass_respects_its_ceiling(
    record: RecordView,
    config: ExtractionConfig,
    has_client: bool,
    answer: Result<Seq<MinedView>, (ErrorView, ProviderFault)>,
)
    ensures
        first_step(record, config, has_client) matches StepView::Settled { memories, .. }
            ==> memories.len() <= config.max_memories,
        last_step(record, config, answer) matches StepView::Settled { memories, .. }
            ==> memories.len() <= config.max_memories,
{
    mining::a_pass_settles_for_different_lessons(mining::heuristics(record), config.max_memories);
    if let Ok(list) = answer {
        mining::a_pass_settles_for_different_lessons(list, config.max_memories);
    }
}

/// A store's failure after `written` lessons were written. Only an error of the
/// store itself tells how far the pass came.
pub open spec fn annotated(e: ErrorView, written: nat) -> ErrorView {
    match e {
        ErrorView::Memory(m) => ErrorView::Memory(
            m + " (after "@ + text::decimal(written) + " memories written)"@,
        ),
        _ => e,
    }
}

/// Tells in a store's error how many lessons were written before it.
pub fn annotate_store_error(e: LoopError, written: usize) -> (out: LoopError)
    ensures
        out@ == annotated(e@, written as nat),
{
    match e {
        LoopError::Memory(message) => {
            let mut m = message;
            text::push_text(&mut m, " (after ");
            text::push_decimal(&mut m, written as u128);
            text::push_text(&mut m, " memories written)");
            LoopError::Memory(m)
        },
        other => other,
    }
}

/// Without a provider, a pass with the configuration that an observer then uses
/// never fails: it mines by rule.
pub proof fn an_observer_without_a_provider_mines_by_rule(
    record: RecordView,
    config: ExtractionConfig,
)
    requires
        config.strategy != ExtractionStrategy::Llm,
    ensures
        first_step(record, config, false) is Skipped || first_step(record, config, false) == settling(
            mining::heuristics(record),
            config,
            if config.strategy == ExtractionStrategy::Hybrid {
                NO_CLIENT@
            } else {
                "ok"@
            },
        ),
{
}

/// The record that a ledger's lines leave, where a line either holds a record or
/// could not be read: the last one that could.
pub open spec fn newest(reads: Seq<Option<TrajectoryRecord>>) -> Option<TrajectoryRecord>
    decreases reads.len(),
{
    if reads.len() == 0 {
        None
    } else if reads.last() is Some {
        reads.last()
    } else {
        newest(reads.drop_last())
    }
}

/// The newest record of a ledger after one more of its lines. A line that could
/// not be read, such as a torn one, changes nothing.
pub fn newest_record(
    before: Option<TrajectoryRecord>,
    read: Option<TrajectoryRecord>,
) -> (after: Option<TrajectoryRecord>)
    ensures
        after == if read is Some {
            read
        } else {
            before
        },
        forall|reads: Seq<Option<TrajectoryRecord>>|
            newest(reads) == before ==> #[trigger] newest(reads.push(read)) == after,
{
    proof {
        assert forall|reads: Seq<Option<TrajectoryRecord>>| newest(reads) == before implies (
        #[trigger] newest(reads.push(read))) == if read is Some {
            read
        } else {
            before
        } by {
            assert(reads.push(read).drop_last() =~= reads);
        }
    }
    match read {
        Some(record) => Some(record),
        None => before,
    }
}

/// A ledger leaves no record only where none of its lines could be read.
/// Otherwise it leaves one of them, and no line behind that one could be read.
pub proof fn the_last_readable_line_counts(reads: Seq<Option<TrajectoryRecord>>)
    ensures
        newest(reads) is None ==> forall|i: int| 0 <= i < reads.len() ==> reads[i] is None,
        newest(reads) is Some ==> exists|i: int|
            0 <= i < reads.len() && #[trigger] reads[i] == newest(reads) && forall|j: int|
                i < j < reads.len() ==> reads[j] is None,
    decreases reads.len(),
{
    if reads.len() > 0 && reads.last() is None {
        let rest = reads.drop_last();
        the_last_readable_line_counts(rest);
        assert forall|i: int| 0 <= i < rest.len() implies rest[i] == reads[i] by {}
        if newest(rest) is Some {
            let i = choose|i: int|
                0 <= i < rest.len() && #[trigger] rest[i] == newest(rest) && forall|j: int|
                    i < j < rest.len() ==> rest[j] is None;
            assert(reads[i] == newest(reads));
            assert forall|j: int| i < j < reads.len() implies reads[j] is None by {
                if j < rest.len() {
                    assert(rest[j] is None);
                }
            }
        } else {
            assert forall|i: int| 0 <= i < reads.len() implies reads[i] is None by {
                if i < rest.len() {
                    assert(rest[i] is None);
                }
            }
        }
    } else if reads.len() > 0 {
        assert(reads[reads.len() - 1] == newest(reads));
    }
}

/// The error of a ledger in which no line could be read.
pub fn no_record_error(path: &str) -> (e: LoopError)
    ensures
        e@ == (ErrorView::Memory(
            "no complete trajectory record in "@ + path@
                + " \u{2014} the file is empty or every line fails to parse"@,
        )),
{
    let mut m = String::from_str("no complete trajectory record in ");
    text::push_text(&mut m, path);
    text::push_text(&mut m, " \u{2014} the file is empty or every line fails to parse");
    LoopError::Memory(m)
}

/// Mines the ledger of a run into a store when the run ends.
#[derive(Debug)]
pub struct ExtractionObserver<C, S> {
    config: ExtractionConfig,
    trajectory_path: String,
    client: Option<C>,
    store: S,
}

/// What an observer holds.
pub struct ExtractionObserverView<C, S> {
    pub config: ExtractionConfig,
    pub trajectory_path: Seq<char>,
    pub client: Option<C>,
    pub store: S,
}

impl<C, S> View for ExtractionObserver<C, S> {
    type V = ExtractionObserverView<C, S>;

    closed spec fn view(&self) -> ExtractionObserverView<C, S> {
        ExtractionObserverView {
            config: self.config,
            trajectory_path: self.trajectory_path@,
            client: self.client,
            store: self.store,
        }
    }
}

impl<C, S> ExtractionObserver<C, S> {
    /// An observer that mines by rule.
    pub fn new(trajectory_path: String, store: S) -> (r: Self)
        ensures
            r@.config == (ExtractionConfig {
                strategy: ExtractionStrategy::Heuristic,
                max_memories: 10,
                min_turns: 3,
                include_failures: false,
                llm_context_budget: 8000,
            }),
            r@.trajectory_path == trajectory_path@,
            r@.client is None,
            r@.store == store,
    {
        ExtractionObserver {
            config: ExtractionConfig::default(),
            trajectory_path,
            client: None,
            store,
        }
    }

    /// The observer with a provider.
    pub fn with_client(self, client: C) -> (r: Self)
        ensures
            r@ == (ExtractionObserverView { client: Some(client), ..self@ }),
    {
        let mut r = self;
        r.client = Some(client);
        r
    }

    /// The observer with another configuration.
    pub fn with_config(self, config: ExtractionConfig) -> (r: Self)
        ensures
            r@ == (ExtractionObserverView { config, ..self@ }),
    {
        let mut r = self;
        r.config = config;
        r
    }

    /// The name that the observer reports.
    pub fn name(&self) -> (name: &'static str)
        ensures
            name@ == "memory-extractor"@,
    {
        "memory-extractor"
    }

    /// The configuration of the observer.
    pub fn config(&self) -> (c: ExtractionConfig)
        ensures
            c == self@.config,
    {
        self.config
    }

    /// The configuration of its passes. Without a provider the observer mines
    /// by rule, whatever it was configured for; a pass that was to ask one says
    /// in its outcome that there was none.
    pub fn pass_config(&self) -> (c: ExtractionConfig)
        ensures
            c == (ExtractionConfig {
                strategy: if self@.client is None && self@.config.strategy
                    == ExtractionStrategy::Llm {
                    ExtractionStrategy::Hybrid
                } else {
                    self@.config.strategy
                },
                ..self@.config
            }),
    {
        let mut c = self.config;
        if self.client.is_none() && c.strategy == ExtractionStrategy::Llm {
            c.strategy = ExtractionStrategy::Hybrid;
        }
        c
    }

    /// The ledger that the observer mines.
    pub fn trajectory_path(&self) -> (path: &String)
        ensures
            path@ == self@.trajectory_path,
    {
        &self.trajectory_path
    }

    /// The provider, where there is one.
    pub fn client(&self) -> (c: Option<&C>)
        ensures
            match c {
                Some(x) => self@.client == Some(*x),
                None => self@.client is None,
            },
    {
        self.client.as_ref()
    }

    /// The store that lessons are written into.
    pub fn store(&self) -> (s: &S)
        ensures
            *s == self@.store,
    {
        &self.store
    }
}

/// A run with too few turns is not mined, nor is one that failed where failures
/// are left out; every other run is.
pub proof fn runs_are_mined_by_length_and_outcome(record: RecordView, config: ExtractionConfig)
    ensures
        record.turns.len() < config.min_turns ==> !is_mined(record, config),
        record.turns.len() >= config.min_turns && config.include_failures ==> is_mined(
            record,
            config,
        ),
        record.turns.len() >= config.min_turns && !config.include_failures ==> (is_mined(
            record,
            config,
        ) <==> record.outcome == TrajectoryOutcome::Success || record.outcome
            == TrajectoryOutcome::Partial),
{
}

/// A pass by rule settles for what the rules find. With a provider the other
/// strategies ask it, the hybrid one with what the rules found as candidates;
/// without one the hybrid strategy settles for that and the other fails.
pub proof fn each_strategy_starts_its_own_way(
    record: RecordView,
    config: ExtractionConfig,
    has_client: bool,
)
    requires
        is_mined(record, config),
    ensures
        ({
            let step = first_step(record, config, has_client);
            let found = mining::heuristics(record);
            let budget = config.llm_context_budget as nat;
            &&& config.strategy == ExtractionStrategy::Heuristic ==> step == (StepView::Settled {
                memories: mining::settled(found, config.max_memories),
                outcome: "ok"@,
            })
            &&& config.strategy == ExtractionStrategy::Llm && has_client ==> step == (
            StepView::Ask {
                system: prompt::prompt_system(record, budget, None),
                summary: prompt::prompt_summary(record, budget, false),
            })
            &&& config.strategy == ExtractionStrategy::Llm && !has_client ==> step == (
            StepView::Failed {
                error: ErrorView::Api("the Llm extraction strategy requires an ApiClient"@),
                outcome: "no_client"@,
            })
            &&& config.strategy == ExtractionStrategy::Hybrid && has_client ==> step == (
            StepView::Ask {
                system: prompt::prompt_system(record, budget, Some(found)),
                summary: prompt::prompt_summary(record, budget, true),
            })
            &&& config.strategy == ExtractionStrategy::Hybrid && !has_client ==> step == (
            StepView::Settled {
                memories: mining::settled(found, config.max_memories),
                outcome: "no_client"@,
            })
        }),
{
}

/// A run that is not mined ends its pass at once.
pub proof fn a_run_that_is_not_mined_is_skipped(
    record: RecordView,
    config: ExtractionConfig,
    has_client: bool,
)
    ensures
        !is_mined(record, config) <==> first_step(record, config, has_client) is Skipped,
{
}

/// A provider's answer is settled for, whatever the rules found. Where it fails
/// a hybrid pass settles for what they found and any other fails with its
/// error; either way the fault is named.
pub proof fn an_answer_takes_the_place_of_the_rules(
    record: RecordView,
    config: ExtractionConfig,
    list: Seq<MinedView>,
    error: ErrorView,
    fault: ProviderFault,
)
    ensures
        last_step(record, config, Ok(list)) == (StepView::Settled {
            memories: mining::settled(list, config.max_memories),
            outcome: "ok"@,
        }),
        config.strategy == ExtractionStrategy::Hybrid ==> last_step(
            record,
            config,
            Err((error, fault)),
        ) == (StepView::Settled {
            memories: mining::settled(mining::heuristics(record), config.max_memories),
            outcome: fault_name(fault),
        }),
        config.strategy != ExtractionStrategy::Hybrid ==> last_step(
            record,
            config,
            Err((error, fault)),
        ) == (StepView::Failed { error, outcome: fault_name(fault) }),
        fault_name(ProviderFault::Api) == "api_error"@,
        fault_name(ProviderFault::Parse) == "parse_error"@,
{
}

/// Only an error of the store itself tells how many lessons were written.
pub proof fn a_store_s_failure_tells_how_far_it_came(e: ErrorView, written: nat)
    ensures
        e matches ErrorView::Memory(m) ==> annotated(e, written) == ErrorView::Memory(
            m + " (after "@ + text::decimal(written) + " memories written)"@,
        ),
        !(e is Memory) ==> annotated(e, written) == e,
{
}

} // verus!
