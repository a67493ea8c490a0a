//! Waiting for events on behalf of a conversation.
//!
//! A conversation that has nothing to do until something happens elsewhere yields with a wait
//! action. The executor keeps at most one wait per conversation. A wait ends when something for
//! the conversation arrives, when it is cancelled, when a newer wait of the same conversation
//! takes its place, or when its watchdog fires. The watchdog of a wait that has ended otherwise
//! comes to nothing.
//!
//! The executor keeps the sending end of each wait's channel. A wait that is ended with a result
//! gives its end up for it; an end that stays with the executor, or is handed back, has not been
//! used.

use std::collections::HashMap;

use vstd::prelude::*;

use crate::channel::{offer_message, open_channel, ResultSender};
pub use crate::channel::{Offer, WaitForEventsResult};
use crate::channel;
use crate::text;

verus! {

/// A conversation, by its identifier.
pub type AIConversationId = u128;

/// A view of the user interface, by its identifier.
pub type EntityId = usize;

/// The upper bound for a wait, in seconds, where none was set. Thirty minutes roughly mirror the
/// time after which an idle machine is shut down, so that the watchdog and that safety net stay
/// close to each other when neither is configured.
pub const DEFAULT_ORCHESTRATED_IDLE_TIMEOUT_SECONDS: i32 = 1800;

/// How many seconds before the set time the watchdog fires. This leaves room for clock skew and
/// for the conversation to be active again before the machine is shut down as idle.
pub const CLIENT_WATCHDOG_SAFETY_MARGIN: u64 = 30;

/// The least number of seconds after which the watchdog fires, also where the set time is below
/// the margin.
pub const HARD_FLOOR: u64 = 5;

/// The number of seconds after which the watchdog fires: the set time, or the default where none
/// is set, less the margin, but never less than the floor.
pub open spec fn watchdog_timeout(stamped_seconds: int) -> int {
    let seconds = if stamped_seconds <= 0 {
        DEFAULT_ORCHESTRATED_IDLE_TIMEOUT_SECONDS as int
    } else {
        stamped_seconds
    };
    if seconds - CLIENT_WATCHDOG_SAFETY_MARGIN >= HARD_FLOOR {
        seconds - CLIENT_WATCHDOG_SAFETY_MARGIN
    } else {
        HARD_FLOOR as int
    }
}

/// A watchdog fires half a minute ahead of every set time that leaves it five seconds or more, and
/// after five seconds for every shorter one; where no time is set it fires when half an hour less
/// half a minute have passed.
pub proof fn watchdog_fires_ahead_of_the_set_time(stamped_seconds: int)
    ensures
        stamped_seconds >= 35 ==> watchdog_timeout(stamped_seconds) + 30 == stamped_seconds,
        0 < stamped_seconds <= 35 ==> watchdog_timeout(stamped_seconds) == 5,
        stamped_seconds <= 0 ==> watchdog_timeout(stamped_seconds) + 30 == 30 * 60,
{
}

/// A longer set time never makes a watchdog fire earlier, and past the least time each second more
/// that is set is a second more that the wait lasts.
pub proof fn longer_set_times_last_longer(shorter: int, longer: int)
    requires
        0 < shorter <= longer,
    ensures
        watchdog_timeout(shorter) <= watchdog_timeout(longer),
        watchdog_timeout(longer) - watchdog_timeout(shorter) <= longer - shorter,
        35 <= shorter ==> watchdog_timeout(longer) - watchdog_timeout(shorter) == longer - shorter,
{
}

/// All times that count as unset are one and the same to a watchdog: they stand for half an hour.
pub proof fn unset_times_are_alike(a: int, b: int)
    requires
        a <= 0,
        b <= 0,
    ensures
        watchdog_timeout(a) == watchdog_timeout(b),
        watchdog_timeout(a) == watchdog_timeout(1800),
{
}

/// The number of seconds after which the watchdog fires when the time set is `stamped_seconds`;
/// a time that is not positive counts as unset.
pub fn watchdog_timeout_for_stamped_seconds(stamped_seconds: i32) -> (timeout: u64)
    ensures
        timeout == watchdog_timeout(stamped_seconds as int),
        timeout >= HARD_FLOOR,
        stamped_seconds >= 35 ==> timeout == stamped_seconds - 30,
        1 <= stamped_seconds < 35 ==> timeout == 5,
        stamped_seconds <= 0 ==> timeout == 1770,
{
    let seconds: i32 = if stamped_seconds <= 0 {
        DEFAULT_ORCHESTRATED_IDLE_TIMEOUT_SECONDS
    } else {
        stamped_seconds
    };
    let stamped: u64 = seconds as u64;
    match stamped.checked_sub(CLIENT_WATCHDOG_SAFETY_MARGIN) {
        Some(timeout) => {
            if timeout >= HARD_FLOOR {
                timeout
            } else {
                HARD_FLOOR
            }
        },
        None => HARD_FLOOR,
    }
}

/// A wait that has not ended.
#[derive(Debug)]
struct PendingWait {
    tool_call_id: String,
    /// Whoever waits listens at the other end.
    sender: ResultSender,
}

/// What is known of a wait that has not ended.
#[verifier::ext_equal]
pub struct PendingView {
    pub tool_call_id: Seq<char>,
    pub sender: async_channel::Sender<WaitForEventsResult>,
}

/// What a [`WaitForEventsExecutor`] keeps.
#[verifier::ext_equal]
pub struct ExecutorView {
    pub terminal_view_id: EntityId,
    /// How often waits of a conversation have been started or cancelled, modulo the number of
    /// values of the counter; zero where there has been none.
    pub generations: Map<AIConversationId, usize>,
    /// The waits that have not ended; nothing has been sent on their ends.
    pub pending: Map<AIConversationId, PendingView>,
}

impl ExecutorView {
    /// What holds of every executor: a conversation that waits has a counter.
    pub open spec fn valid(self) -> bool {
        forall|conversation: AIConversationId| #[trigger]
            self.pending.contains_key(conversation) ==> self.generations.contains_key(conversation)
    }

    pub open spec fn generation(self, conversation: AIConversationId) -> usize {
        if self.generations.contains_key(conversation) {
            self.generations[conversation]
        } else {
            0
        }
    }

    /// Whether the wait of a conversation is for the given tool call.
    pub open spec fn waits_for(self, conversation: AIConversationId, tool_call_id: Seq<char>) -> bool {
        &&& self.pending.contains_key(conversation)
        &&& self.pending[conversation].tool_call_id == tool_call_id
    }

    /// The executor with the wait of a conversation ended.
    pub open spec fn ended(self, conversation: AIConversationId) -> ExecutorView {
        ExecutorView { pending: self.pending.remove(conversation), ..self }
    }

    /// The executor with the counter of a conversation advanced.
    pub open spec fn advanced(self, conversation: AIConversationId) -> ExecutorView {
        ExecutorView {
            generations: self.generations.insert(
                conversation,
                next_generation(self.generation(conversation)),
            ),
            ..self
        }
    }

    /// The executor with a new wait of a conversation, in place of any it had.
    pub open spec fn started(
        self,
        conversation: AIConversationId,
        wait: PendingView,
    ) -> ExecutorView {
        ExecutorView {
            pending: self.pending.insert(conversation, wait),
            ..self.advanced(conversation)
        }
    }

    /// The executor after the wait of a conversation has been cancelled.
    pub open spec fn cancelled(self, conversation: AIConversationId) -> ExecutorView {
        self.ended(conversation).advanced(conversation)
    }

    /// Whether a watchdog set at `generation` for the given tool call still has a wait to end.
    pub open spec fn watchdog_is_current(
        self,
        conversation: AIConversationId,
        tool_call_id: Seq<char>,
        generation: usize,
    ) -> bool {
        &&& self.generation(conversation) == generation
        &&& self.waits_for(conversation, tool_call_id)
    }
}

/// The value of a counter after one more step; it starts over behind the largest value.
pub open spec fn next_generation(generation: usize) -> usize {
    if generation == usize::MAX {
        0
    } else {
        (generation + 1) as usize
    }
}

/// The value of a counter after `steps` more steps.
pub open spec fn generation_after(generation: usize, steps: nat) -> usize
    decreases steps,
{
    if steps == 0 {
        generation
    } else {
        next_generation(generation_after(generation, (steps - 1) as nat))
    }
}

/// A counter goes up by one, until it has run through all of its values and starts over.
pub proof fn counters_count(generation: usize, steps: nat)
    ensures
        generation < usize::MAX ==> next_generation(generation) == generation + 1,
        next_generation(usize::MAX) == 0,
        generation + steps <= usize::MAX ==> generation_after(generation, steps) == generation
            + steps,
    decreases steps,
{
    if steps > 0 {
        counters_count(generation, (steps - 1) as nat);
    }
}

/// A conversation that has begun a wait waits for that call and for no other, on the end that the
/// wait was begun with; its counter has gone up by one. All other conversations wait for what they
/// waited for, on the ends they had, with the counters they had.
pub proof fn started_wait_is_the_one_of_its_conversation(
    executor: ExecutorView,
    conversation: AIConversationId,
    wait: PendingView,
    tool_call_id: Seq<char>,
    generation: usize,
    other: AIConversationId,
)
    requires
        other != conversation,
    ensures
        ({
            let next = executor.started(conversation, wait);
            &&& next.terminal_view_id == executor.terminal_view_id
            &&& next.pending.contains_key(conversation)
            &&& next.pending[conversation] == wait
            &&& next.waits_for(conversation, tool_call_id) <==> tool_call_id == wait.tool_call_id
            &&& next.watchdog_is_current(conversation, tool_call_id, generation) <==> tool_call_id
                == wait.tool_call_id && generation == next.generation(conversation)
            &&& executor.generation(conversation) < usize::MAX ==> next.generation(conversation)
                == executor.generation(conversation) + 1
            &&& next.generation(other) == executor.generation(other)
            &&& next.pending.contains_key(other) == executor.pending.contains_key(other)
            &&& executor.pending.contains_key(other) ==> next.pending[other]
                == executor.pending[other]
            &&& next.waits_for(other, tool_call_id) == executor.waits_for(other, tool_call_id)
        }),
{
}

/// A conversation whose wait has ended waits for nothing, and its counter stays where it was; with
/// a cancellation the counter goes up by one. All other conversations are as they were.
pub proof fn ended_wait_leaves_its_conversation_waiting_for_nothing(
    executor: ExecutorView,
    conversation: AIConversationId,
    tool_call_id: Seq<char>,
    other: AIConversationId,
)
    requires
        other != conversation,
    ensures
        ({
            let ended = executor.ended(conversation);
            let cancelled = executor.cancelled(conversation);
            &&& ended.terminal_view_id == executor.terminal_view_id
            &&& cancelled.terminal_view_id == executor.terminal_view_id
            &&& !ended.pending.contains_key(conversation)
            &&& !cancelled.pending.contains_key(conversation)
            &&& !ended.waits_for(conversation, tool_call_id)
            &&& !cancelled.waits_for(conversation, tool_call_id)
            &&& ended.generation(conversation) == executor.generation(conversation)
            &&& executor.generation(conversation) < usize::MAX ==> cancelled.generation(
                conversation,
            ) == executor.generation(conversation) + 1
            &&& ended.generation(other) == executor.generation(other)
            &&& cancelled.generation(other) == executor.generation(other)
            &&& ended.pending.contains_key(other) == executor.pending.contains_key(other)
            &&& cancelled.pending.contains_key(other) == executor.pending.contains_key(other)
            &&& executor.pending.contains_key(other) ==> ended.pending[other]
                == executor.pending[other] && cancelled.pending[other] == executor.pending[other]
            &&& ended.waits_for(other, tool_call_id) == executor.waits_for(other, tool_call_id)
            &&& cancelled.waits_for(other, tool_call_id) == executor.waits_for(other, tool_call_id)
        }),
{
}

/// A conversation waits for exactly one call while it has a wait, and for none while it has none;
/// only that call has a watchdog in force, and only at one value of the counter.
pub proof fn waits_are_for_one_call(
    executor: ExecutorView,
    conversation: AIConversationId,
    a: Seq<char>,
    b: Seq<char>,
    generation: usize,
    other_generation: usize,
)
    ensures
        executor.waits_for(conversation, a) && executor.waits_for(conversation, b) ==> a == b,
        executor.pending.contains_key(conversation) ==> executor.waits_for(
            conversation,
            executor.pending[conversation].tool_call_id,
        ) && executor.watchdog_is_current(
            conversation,
            executor.pending[conversation].tool_call_id,
            executor.generation(conversation),
        ),
        !executor.pending.contains_key(conversation) ==> !executor.waits_for(conversation, a),
        executor.watchdog_is_current(conversation, a, generation) ==> executor.waits_for(
            conversation,
            a,
        ),
        executor.watchdog_is_current(conversation, a, generation)
            && executor.watchdog_is_current(conversation, b, other_generation) ==> a == b
            && generation == other_generation,
        !executor.generations.contains_key(conversation) ==> executor.generation(conversation) == 0,
        executor.generations.contains_key(conversation) ==> executor.generation(conversation)
            == executor.generations[conversation],
{
}

/// The watchdog of a new wait is current.
pub proof fn new_watchdog_is_current(
    executor: ExecutorView,
    conversation: AIConversationId,
    wait: PendingView,
)
    ensures
        executor.started(conversation, wait).watchdog_is_current(
            conversation,
            wait.tool_call_id,
            next_generation(executor.generation(conversation)),
        ),
{
}

/// A new wait puts the watchdog of the wait before it out of force, also where both are for the
/// same tool call.
pub proof fn new_wait_supersedes_the_watchdog(
    executor: ExecutorView,
    conversation: AIConversationId,
    wait: PendingView,
    tool_call_id: Seq<char>,
)
    ensures
        !executor.started(conversation, wait).watchdog_is_current(
            conversation,
            tool_call_id,
            executor.generation(conversation),
        ),
{
}

/// A wait that has ended or been cancelled has no watchdog in force, whatever it was set at.
pub proof fn ended_wait_has_no_watchdog(
    executor: ExecutorView,
    conversation: AIConversationId,
    tool_call_id: Seq<char>,
    generation: usize,
)
    ensures
        !executor.ended(conversation).watchdog_is_current(conversation, tool_call_id, generation),
        !executor.cancelled(conversation).watchdog_is_current(
            conversation,
            tool_call_id,
            generation,
        ),
{
}

/// Starting a wait again after a cancellation does not bring the old watchdog back into force.
pub proof fn cancelled_watchdog_stays_out_of_force(
    executor: ExecutorView,
    conversation: AIConversationId,
    wait: PendingView,
    tool_call_id: Seq<char>,
)
    ensures
        !executor.cancelled(conversation).started(conversation, wait).watchdog_is_current(
            conversation,
            tool_call_id,
            executor.generation(conversation),
        ),
{
}

proof fn lemma_generation_after(generation: usize, steps: nat)
    ensures
        generation_after(generation, steps) == (generation + steps) % (usize::MAX + 1),
    decreases steps,
{
    if steps > 0 {
        lemma_generation_after(generation, (steps - 1) as nat);
        let before: int = generation + steps - 1;
        let size: int = usize::MAX + 1;
        vstd::arithmetic::div_mod::lemma_add_mod_noop(before, 1, size);
        vstd::arithmetic::div_mod::lemma_small_mod(1, size as nat);
        if before % size == size - 1 {
            vstd::arithmetic::div_mod::lemma_mod_self_0(size);
        } else {
            vstd::arithmetic::div_mod::lemma_mod_bound(before, size);
            vstd::arithmetic::div_mod::lemma_small_mod((before % size + 1) as nat, size as nat);
        }
    } else {
        vstd::arithmetic::div_mod::lemma_small_mod(generation as nat, (usize::MAX + 1) as nat);
    }
}

/// However many waits follow a wait, as long as there are no more of them than the counter has
/// values left, the counter does not come back to where the watchdog was set.
pub proof fn watchdog_does_not_come_back_into_force(generation: usize, steps: nat)
    requires
        0 < steps <= usize::MAX,
    ensures
        generation_after(generation, steps) != generation,
{
    lemma_generation_after(generation, steps);
    let size: int = usize::MAX + 1;
    let sum: int = generation + steps;
    if sum < size {
        vstd::arithmetic::div_mod::lemma_small_mod(sum as nat, size as nat);
    } else {
        vstd::arithmetic::div_mod::lemma_mod_sub_multiples_vanish(sum, size);
        vstd::arithmetic::div_mod::lemma_small_mod((sum - size) as nat, size as nat);
    }
}

/// What can happen to the waits of an executor.
pub enum WaitChange {
    Started { conversation: AIConversationId, wait: PendingView },
    Ended { conversation: AIConversationId },
    Cancelled { conversation: AIConversationId },
}

impl WaitChange {
    /// Whether the change advances the counter of a conversation.
    pub open spec fn advances(self, conversation: AIConversationId) -> bool {
        match self {
            WaitChange::Started { conversation: changed, .. } => changed == conversation,
            WaitChange::Ended { .. } => false,
            WaitChange::Cancelled { conversation: changed } => changed == conversation,
        }
    }
}

impl ExecutorView {
    /// The executor after some changes, one after the other.
    pub open spec fn after(self, changes: Seq<WaitChange>) -> ExecutorView
        decreases changes.len(),
    {
        if changes.len() == 0 {
            self
        } else {
            let before = self.after(changes.drop_last());
            match changes.last() {
                WaitChange::Started { conversation, wait } => before.started(conversation, wait),
                WaitChange::Ended { conversation } => before.ended(conversation),
                WaitChange::Cancelled { conversation } => before.cancelled(conversation),
            }
        }
    }
}

/// How often some changes advance the counter of a conversation.
pub open spec fn advance_count(changes: Seq<WaitChange>, conversation: AIConversationId) -> nat
    decreases changes.len(),
{
    if changes.len() == 0 {
        0
    } else {
        let before = advance_count(changes.drop_last(), conversation);
        if changes.last().advances(conversation) {
            before + 1
        } else {
            before
        }
    }
}

proof fn lemma_counter_after_changes(
    executor: ExecutorView,
    changes: Seq<WaitChange>,
    conversation: AIConversationId,
)
    ensures
        executor.after(changes).generation(conversation) == generation_after(
            executor.generation(conversation),
            advance_count(changes, conversation),
        ),
    decreases changes.len(),
{
    if changes.len() > 0 {
        lemma_counter_after_changes(executor, changes.drop_last(), conversation);
    }
}

/// Once the wait that a watchdog was set for has been cancelled or has given way to another, the
/// watchdog is out of force whatever else happens, as long as the counter does not run through
/// all of its values.
pub proof fn superseded_watchdog_stays_out_of_force(
    executor: ExecutorView,
    changes: Seq<WaitChange>,
    conversation: AIConversationId,
    tool_call_id: Seq<char>,
)
    requires
        0 < advance_count(changes, conversation) <= usize::MAX,
    ensures
        !executor.after(changes).watchdog_is_current(
            conversation,
            tool_call_id,
            executor.generation(conversation),
        ),
{
    lemma_counter_after_changes(executor, changes, conversation);
    watchdog_does_not_come_back_into_force(
        executor.generation(conversation),
        advance_count(changes, conversation),
    );
}

/// What happens to the wait of one conversation does not touch any other conversation.
pub proof fn conversations_are_independent(
    executor: ExecutorView,
    conversation: AIConversationId,
    wait: PendingView,
    other: AIConversationId,
    tool_call_id: Seq<char>,
    generation: usize,
)
    requires
        conversation != other,
    ensures
        ({
            let current = executor.watchdog_is_current(other, tool_call_id, generation);
            &&& executor.started(conversation, wait).watchdog_is_current(
                other,
                tool_call_id,
                generation,
            ) == current
            &&& executor.ended(conversation).watchdog_is_current(other, tool_call_id, generation)
                == current
            &&& executor.cancelled(conversation).watchdog_is_current(
                other,
                tool_call_id,
                generation,
            ) == current
        }),
{
}

/// What an agent is to do.
#[derive(Debug)]
pub enum AIAgentActionType {
    /// Yield until there are events; zero seconds or less mean that no time was set.
    WaitForEvents { tool_call_id: String, idle_timeout_seconds: i32 },
    /// Anything else.
    Other,
}

/// What came of an action of an agent.
#[derive(Debug, Clone, Copy, PartialEq, Eq, Structural)]
pub enum AIAgentActionResultType {
    WaitForEvents(WaitForEventsResult),
}

/// An action and the conversation that it is part of.
#[derive(Debug)]
pub struct ExecuteActionInput {
    pub conversation_id: AIConversationId,
    pub action: AIAgentActionType,
}

/// A wait that has just begun, with all that is left to do for it: to mark the conversation as
/// waiting, to set the watchdog, and to listen.
#[derive(Debug)]
pub struct StartedWait {
    pub conversation_id: AIConversationId,
    pub terminal_view_id: EntityId,
    pub tool_call_id: String,
    /// After how many seconds the watchdog fires.
    pub timeout_seconds: u64,
    /// What the watchdog is to be fired with.
    pub generation: usize,
    /// Where the result of the wait will arrive.
    pub receiver: async_channel::Receiver<WaitForEventsResult>,
    /// The end of the wait that gave way to this one, unused; dropping it tells its listener.
    pub replaced: Option<ResultSender>,
}

/// How an action is carried out.
#[derive(Debug)]
pub enum ActionExecution {
    /// Not at all: the action is not a wait.
    InvalidAction,
    /// In the background.
    Async(StartedWait),
}

/// What is reported of conversations.
#[derive(Debug)]
pub enum BlocklistAIHistoryEvent {
    UpdatedConversationStatus { terminal_view_id: EntityId, conversation_id: AIConversationId },
    /// Anything else.
    Other,
}

/// Where a conversation stands.
#[derive(Debug, Clone, Copy, PartialEq, Eq, Structural)]
pub enum ConversationStatus {
    WaitingForEvents,
    /// Anything else.
    Other,
}

impl ExecutorView {
    /// The conversation whose wait a report ends, where it ends one: the report is of the
    /// executor's own view, and the conversation is known, waits, and no longer stands as waiting.
    pub open spec fn ended_by(
        self,
        event: BlocklistAIHistoryEvent,
        status: Option<ConversationStatus>,
    ) -> Option<AIConversationId> {
        match event {
            BlocklistAIHistoryEvent::UpdatedConversationStatus {
                terminal_view_id,
                conversation_id,
            } if terminal_view_id == self.terminal_view_id && status == Some(
                ConversationStatus::Other,
            ) && self.pending.contains_key(conversation_id) => Some(conversation_id),
            _ => None,
        }
    }
}

/// A report ends a wait of the conversation that it is about, and only where that conversation has
/// one, is known, and stands anywhere but waiting. Reports of another view, of a conversation that
/// is still waiting or that is gone, and reports of anything else end no wait.
pub proof fn only_a_conversation_that_moved_on_stops_waiting(
    executor: ExecutorView,
    terminal_view_id: EntityId,
    conversation_id: AIConversationId,
    status: ConversationStatus,
)
    ensures
        ({
            let report = BlocklistAIHistoryEvent::UpdatedConversationStatus {
                terminal_view_id,
                conversation_id,
            };
            &&& terminal_view_id == executor.terminal_view_id && executor.pending.contains_key(
                conversation_id,
            ) && status != ConversationStatus::WaitingForEvents ==> executor.ended_by(
                report,
                Some(status),
            ) == Some(conversation_id)
            &&& executor.ended_by(report, Some(status)) is Some ==> {
                &&& executor.ended_by(report, Some(status)) == Some(conversation_id)
                &&& terminal_view_id == executor.terminal_view_id
                &&& executor.pending.contains_key(conversation_id)
                &&& status != ConversationStatus::WaitingForEvents
            }
            &&& executor.ended_by(report, None) is None
            &&& executor.ended_by(BlocklistAIHistoryEvent::Other, Some(status)) is None
            &&& executor.ended_by(BlocklistAIHistoryEvent::Other, None) is None
        }),
{
}

/// Keeps the waits of the conversations in one terminal view.
#[derive(Debug)]
pub struct WaitForEventsExecutor {
    terminal_view_id: EntityId,
    conversation_generation: HashMap<AIConversationId, usize>,
    pending: HashMap<AIConversationId, PendingWait>,
}

/// What is known of the waits of a map.
spec fn pending_views(pending: Map<AIConversationId, PendingWait>) -> Map<
    AIConversationId,
    PendingView,
> {
    pending.map_values(
        |wait: PendingWait|
            PendingView { tool_call_id: wait.tool_call_id@, sender: wait.sender@ },
    )
}

impl View for WaitForEventsExecutor {
    type V = ExecutorView;

    closed spec fn view(&self) -> ExecutorView {
        ExecutorView {
            terminal_view_id: self.terminal_view_id,
            generations: self.conversation_generation@,
            pending: pending_views(self.pending@),
        }
    }
}

/// Finds a conversation that waits for the given tool call.
fn find_wait(pending: &HashMap<AIConversationId, PendingWait>, tool_call_id: &str) -> (found: Option<
    AIConversationId,
>)
    ensures
        match found {
            Some(conversation) => {
                &&& pending@.contains_key(conversation)
                &&& pending@[conversation].tool_call_id@ == tool_call_id@
            },
            None => forall|conversation: AIConversationId| #[trigger]
                pending@.contains_key(conversation) ==> pending@[conversation].tool_call_id@
                    != tool_call_id@,
        },
{
    for key in iter: pending.keys()
        invariant
            iter.seq().unref().to_set() == pending@.dom(),
            forall|k: int|
                0 <= k < iter.index() ==> pending@[*#[trigger] iter.seq()[k]].tool_call_id@
                    != tool_call_id@,
    {
        let ghost i = iter.index() as int;
        assert(iter.seq().unref()[i] == *iter.seq()[i]);
        assert(pending@.dom().contains(*iter.seq()[i]));
        match pending.get(key) {
            Some(wait) => {
                if text::same_text(wait.tool_call_id.as_str(), tool_call_id) {
                    return Some(*key);
                }
            },
            None => {},
        }
    }
    None
}

impl WaitForEventsExecutor {
    /// Holds of every executor.
    #[verifier::type_invariant]
    pub open spec fn well_formed(&self) -> bool {
        self@.valid()
    }

    /// An executor for a terminal view, with no waits.
    pub fn new(terminal_view_id: EntityId) -> (executor: WaitForEventsExecutor)
        ensures
            executor@ == (ExecutorView {
                terminal_view_id,
                generations: Map::empty(),
                pending: Map::empty(),
            }),
    {
        let conversation_generation: HashMap<AIConversationId, usize> = HashMap::new();
        let pending: HashMap<AIConversationId, PendingWait> = HashMap::new();
        assert(pending_views(pending@) =~= Map::empty());
        WaitForEventsExecutor { terminal_view_id, conversation_generation, pending }
    }

    /// Advances the counter of a conversation.
    fn advance(&mut self, conversation_id: AIConversationId) -> (generation: usize)
        ensures
            final(self)@ == old(self)@.advanced(conversation_id),
            generation == next_generation(old(self)@.generation(conversation_id)),
    {
        proof {
            use_type_invariant(&*self);
        }
        let mut pending: HashMap<AIConversationId, PendingWait> = HashMap::new();
        std::mem::swap(&mut pending, &mut self.pending);
        let mut generations: HashMap<AIConversationId, usize> = HashMap::new();
        std::mem::swap(&mut generations, &mut self.conversation_generation);
        let before: usize = match generations.get(&conversation_id) {
            Some(generation) => *generation,
            None => 0,
        };
        let generation: usize = before.wrapping_add(1);
        let _ = generations.insert(conversation_id, generation);
        self.conversation_generation = generations;
        assert forall|conversation: AIConversationId| #[trigger]
            pending_views(pending@).contains_key(
                conversation,
            ) implies self.conversation_generation@.contains_key(conversation) by {
            assert(old(self)@.pending.contains_key(conversation));
        }
        self.pending = pending;
        generation
    }

    /// Ends the wait of a conversation and hands out its sending end.
    fn take_wait(&mut self, conversation_id: AIConversationId) -> (wait: Option<PendingWait>)
        ensures
            final(self)@ == old(self)@.ended(conversation_id),
            match wait {
                Some(wait) => {
                    &&& old(self)@.pending.contains_key(conversation_id)
                    &&& old(self)@.pending[conversation_id].tool_call_id == wait.tool_call_id@
                    &&& old(self)@.pending[conversation_id].sender == wait.sender@
                },
                None => !old(self)@.pending.contains_key(conversation_id),
            },
    {
        proof {
            use_type_invariant(&*self);
        }
        let mut pending: HashMap<AIConversationId, PendingWait> = HashMap::new();
        std::mem::swap(&mut pending, &mut self.pending);
        let wait = pending.remove(&conversation_id);
        assert(pending_views(pending@) =~= old(self)@.pending.remove(conversation_id));
        self.pending = pending;
        wait
    }

    /// Whether the wait of a conversation is for the given tool call.
    pub fn waits_for(&self, conversation_id: AIConversationId, tool_call_id: &str) -> (waits: bool)
        ensures
            waits == self@.waits_for(conversation_id, tool_call_id@),
    {
        match self.pending.get(&conversation_id) {
            Some(wait) => text::same_text(wait.tool_call_id.as_str(), tool_call_id),
            None => false,
        }
    }

    /// A wait comes from a call of the server and never needs the user's consent.
    pub fn should_autoexecute(&self, _input: &ExecuteActionInput) -> (allowed: bool)
        ensures
            allowed,
    {
        true
    }

    /// Begins the wait that an action asks for. A wait that the conversation still has gives way
    /// to it: its watchdog is put out of force, and its end is handed back unused, to be dropped.
    pub fn execute(&mut self, input: ExecuteActionInput) -> (execution: ActionExecution)
        ensures
            match input.action {
                AIAgentActionType::Other => {
                    &&& execution is InvalidAction
                    &&& final(self)@ == old(self)@
                },
                AIAgentActionType::WaitForEvents { tool_call_id, idle_timeout_seconds } => {
                    let conversation = input.conversation_id;
                    let sender = final(self)@.pending[conversation].sender;
                    &&& execution matches ActionExecution::Async(wait)
                    &&& wait.conversation_id == conversation
                    &&& wait.terminal_view_id == old(self)@.terminal_view_id
                    &&& wait.tool_call_id@ == tool_call_id@
                    &&& wait.timeout_seconds == watchdog_timeout(idle_timeout_seconds as int)
                    &&& wait.generation == next_generation(old(self)@.generation(conversation))
                    &&& final(self)@ == old(self)@.started(
                        conversation,
                        PendingView { tool_call_id: tool_call_id@, sender },
                    )
                    &&& channel::connected(sender, wait.receiver)
                    &&& channel::channel_capacity(sender) == 1
                    &&& match wait.replaced {
                        Some(end) => {
                            &&& old(self)@.pending.contains_key(conversation)
                            &&& end@ == old(self)@.pending[conversation].sender
                        },
                        None => !old(self)@.pending.contains_key(conversation),
                    }
                },
            },
    {
        let (tool_call_id, idle_timeout_seconds) = match input.action {
            AIAgentActionType::WaitForEvents { tool_call_id, idle_timeout_seconds } => (
                tool_call_id,
                idle_timeout_seconds,
            ),
            AIAgentActionType::Other => {
                return ActionExecution::InvalidAction;
            },
        };
        let conversation_id: AIConversationId = input.conversation_id;
        let timeout_seconds: u64 = watchdog_timeout_for_stamped_seconds(idle_timeout_seconds);
        let generation: usize = self.advance(conversation_id);
        let (sender, receiver) = open_channel(1);
        proof {
            use_type_invariant(&*self);
        }
        let ghost advanced = self@;
        let mut pending: HashMap<AIConversationId, PendingWait> = HashMap::new();
        std::mem::swap(&mut pending, &mut self.pending);
        let replaced: Option<ResultSender> = match pending.insert(
            conversation_id,
            PendingWait { tool_call_id: tool_call_id.clone(), sender },
        ) {
            Some(wait) => Some(wait.sender),
            None => None,
        };
        assert(pending_views(pending@) =~= advanced.pending.insert(
            conversation_id,
            PendingView { tool_call_id: tool_call_id@, sender: sender@ },
        ));
        self.pending = pending;
        ActionExecution::Async(
            StartedWait {
                conversation_id,
                terminal_view_id: self.terminal_view_id,
                tool_call_id,
                timeout_seconds,
                generation,
                receiver,
                replaced,
            },
        )
    }

    /// Ends the wait of a conversation with `result`, where it is for the given tool call.
    /// Otherwise nothing happens.
    pub fn complete_wait_action(
        &mut self,
        conversation_id: AIConversationId,
        tool_call_id: &str,
        result: WaitForEventsResult,
    ) -> (offer: Option<Offer>)
        ensures
            match offer {
                Some(offer) => {
                    &&& old(self)@.waits_for(conversation_id, tool_call_id@)
                    &&& final(self)@ == old(self)@.ended(conversation_id)
                    &&& offer.end() == old(self)@.pending[conversation_id].sender
                    &&& offer.content() == result
                },
                None => {
                    &&& !old(self)@.waits_for(conversation_id, tool_call_id@)
                    &&& final(self)@ == old(self)@
                },
            },
    {
        if !self.waits_for(conversation_id, tool_call_id) {
            return None;
        }
        match self.take_wait(conversation_id) {
            Some(wait) => Some(offer_message(wait.sender, result)),
            None => None,
        }
    }

    /// Ends the wait of a conversation that has been reported to have moved on. `status` is where
    /// the conversation stands, or `None` where there is no such conversation; one that is still
    /// waiting goes on waiting.
    pub fn handle_history_event(
        &mut self,
        event: &BlocklistAIHistoryEvent,
        status: Option<ConversationStatus>,
    ) -> (offer: Option<Offer>)
        ensures
            ({
                let moved_on = status == Some(ConversationStatus::Other);
                match event {
                    BlocklistAIHistoryEvent::UpdatedConversationStatus {
                        terminal_view_id,
                        conversation_id,
                    } if *terminal_view_id == old(self)@.terminal_view_id && moved_on
                        && old(self)@.pending.contains_key(*conversation_id) => {
                        &&& offer matches Some(offer)
                        &&& offer.end() == old(self)@.pending[*conversation_id].sender
                        &&& offer.content() == WaitForEventsResult::Completed
                        &&& final(self)@ == old(self)@.ended(*conversation_id)
                    },
                    _ => offer is None && final(self)@ == old(self)@,
                }
            }),
            match old(self)@.ended_by(*event, status) {
                Some(conversation) => {
                    &&& offer matches Some(offer)
                    &&& offer.end() == old(self)@.pending[conversation].sender
                    &&& offer.content() == WaitForEventsResult::Completed
                    &&& final(self)@ == old(self)@.ended(conversation)
                },
                None => offer is None && final(self)@ == old(self)@,
            },
    {
        let (terminal_view_id, conversation_id) = match event {
            BlocklistAIHistoryEvent::UpdatedConversationStatus {
                terminal_view_id,
                conversation_id,
            } => (*terminal_view_id, *conversation_id),
            BlocklistAIHistoryEvent::Other => {
                return None;
            },
        };
        if terminal_view_id != self.terminal_view_id {
            return None;
        }
        let tool_call_id: String = match self.pending.get(&conversation_id) {
            Some(wait) => wait.tool_call_id.clone(),
            None => {
                return None;
            },
        };
        match status {
            Some(ConversationStatus::Other) => self.complete_wait_action(
                conversation_id,
                tool_call_id.as_str(),
                WaitForEventsResult::Completed,
            ),
            _ => None,
        }
    }

    /// Cancels a wait for the given tool call, where there is one: it ends without a result, and
    /// its watchdog is put out of force. Gives back the conversation that it was of, with the end
    /// of its channel, unused, to be dropped; should several conversations wait for the same call,
    /// it is one of them.
    pub fn cancel_execution(&mut self, tool_call_id: &str) -> (cancelled: Option<
        (AIConversationId, ResultSender),
    >)
        ensures
            match cancelled {
                Some((conversation, end)) => {
                    &&& old(self)@.waits_for(conversation, tool_call_id@)
                    &&& end@ == old(self)@.pending[conversation].sender
                    &&& final(self)@ == old(self)@.cancelled(conversation)
                },
                None => {
                    &&& forall|conversation: AIConversationId| !#[trigger] old(self)@.waits_for(
                        conversation,
                        tool_call_id@,
                    )
                    &&& final(self)@ == old(self)@
                },
            },
    {
        match find_wait(&self.pending, tool_call_id) {
            Some(conversation_id) => {
                let wait = self.take_wait(conversation_id);
                let _ = self.advance(conversation_id);
                match wait {
                    Some(wait) => Some((conversation_id, wait.sender)),
                    None => None,
                }
            },
            None => None,
        }
    }

    /// Ends the wait that a watchdog was set for, where it has not ended yet; otherwise nothing
    /// happens.
    pub fn fire_watchdog_if_current(
        &mut self,
        conversation_id: AIConversationId,
        tool_call_id: &str,
        expected_generation: usize,
    ) -> (offer: Option<Offer>)
        ensures
            match offer {
                Some(offer) => {
                    &&& old(self)@.watchdog_is_current(
                        conversation_id,
                        tool_call_id@,
                        expected_generation,
                    )
                    &&& final(self)@ == old(self)@.ended(conversation_id)
                    &&& offer.end() == old(self)@.pending[conversation_id].sender
                    &&& offer.content() == WaitForEventsResult::Completed
                },
                None => {
                    &&& !old(self)@.watchdog_is_current(
                        conversation_id,
                        tool_call_id@,
                        expected_generation,
                    )
                    &&& final(self)@ == old(self)@
                },
            },
    {
        let generation: usize = match self.conversation_generation.get(&conversation_id) {
            Some(generation) => *generation,
            None => 0,
        };
        if generation != expected_generation {
            return None;
        }
        self.complete_wait_action(conversation_id, tool_call_id, WaitForEventsResult::Completed)
    }
}

/// How a wait ended that something, or nothing, was received of.
pub open spec fn outcome(received: Option<WaitForEventsResult>) -> WaitForEventsResult {
    match received {
        Some(received) => received,
        None => WaitForEventsResult::Completed,
    }
}

/// What was received is the result, whatever it is; a wait that nothing was received of ends like
/// one that was completed.
pub proof fn received_results_are_kept(result: WaitForEventsResult)
    ensures
        outcome(Some(result)) == result,
        outcome(None) == outcome(Some(WaitForEventsResult::Completed)),
        outcome(None) != WaitForEventsResult::Cancelled,
{
}

/// The result of a wait. A channel that was closed with nothing in it belongs to a wait that gave
/// way to a newer one, which counts as completed.
pub fn wait_result(received: Option<WaitForEventsResult>) -> (result: AIAgentActionResultType)
    ensures
        result == AIAgentActionResultType::WaitForEvents(
            match received {
                Some(received) => received,
                None => WaitForEventsResult::Completed,
            },
        ),
        result == AIAgentActionResultType::WaitForEvents(outcome(received)),
{
    match received {
        Some(received) => AIAgentActionResultType::WaitForEvents(received),
        None => AIAgentActionResultType::WaitForEvents(WaitForEventsResult::Completed),
    }
}

} // verus!
