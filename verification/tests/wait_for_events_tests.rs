use std::time::Duration;

use repo_metadata::wait_for_events::{
    wait_result, watchdog_timeout_for_stamped_seconds, AIAgentActionResultType, AIAgentActionType,
    ActionExecution, BlocklistAIHistoryEvent, ConversationStatus, ExecuteActionInput, StartedWait,
    WaitForEventsExecutor, WaitForEventsResult, CLIENT_WATCHDOG_SAFETY_MARGIN,
    DEFAULT_ORCHESTRATED_IDLE_TIMEOUT_SECONDS, HARD_FLOOR,
};

fn wait(executor: &mut WaitForEventsExecutor, conversation_id: u128, call: &str) -> StartedWait {
    let execution = executor.execute(ExecuteActionInput {
        conversation_id,
        action: AIAgentActionType::WaitForEvents {
            tool_call_id: call.to_string(),
            idle_timeout_seconds: 60,
        },
    });
    match execution {
        ActionExecution::Async(wait) => wait,
        ActionExecution::InvalidAction => panic!("expected a wait"),
    }
}

fn updated(terminal_view_id: usize, conversation_id: u128) -> BlocklistAIHistoryEvent {
    BlocklistAIHistoryEvent::UpdatedConversationStatus {
        terminal_view_id,
        conversation_id,
    }
}

#[test]
fn default_idle_timeout_constant_matches_thirty_minutes() {
    assert_eq!(DEFAULT_ORCHESTRATED_IDLE_TIMEOUT_SECONDS, 30 * 60);
}

#[test]
fn client_watchdog_safety_margin_is_thirty_seconds() {
    assert_eq!(
        Duration::from_secs(CLIENT_WATCHDOG_SAFETY_MARGIN),
        Duration::from_secs(30)
    );
}

#[test]
fn hard_floor_is_five_seconds() {
    assert_eq!(Duration::from_secs(HARD_FLOOR), Duration::from_secs(5));
}

#[test]
fn watchdog_timeout_subtracts_margin_for_stamped_minute() {
    assert_eq!(
        Duration::from_secs(watchdog_timeout_for_stamped_seconds(60)),
        Duration::from_secs(30)
    );
}

#[test]
fn watchdog_timeout_clamps_to_hard_floor_when_stamped_value_is_too_small() {
    assert_eq!(
        watchdog_timeout_for_stamped_seconds(10),
        HARD_FLOOR,
        "stamped 10s should clamp to HARD_FLOOR after subtracting the safety margin"
    );
}

#[test]
fn watchdog_timeout_falls_back_to_default_minus_margin_when_unset() {
    let expected = Duration::from_secs(DEFAULT_ORCHESTRATED_IDLE_TIMEOUT_SECONDS as u64)
        - Duration::from_secs(CLIENT_WATCHDOG_SAFETY_MARGIN);
    assert_eq!(
        Duration::from_secs(watchdog_timeout_for_stamped_seconds(0)),
        expected
    );
}

#[test]
fn watchdog_timeout_clamps_negative_value_to_default_minus_margin() {
    let expected = Duration::from_secs(DEFAULT_ORCHESTRATED_IDLE_TIMEOUT_SECONDS as u64)
        - Duration::from_secs(CLIENT_WATCHDOG_SAFETY_MARGIN);
    assert_eq!(
        Duration::from_secs(watchdog_timeout_for_stamped_seconds(-42)),
        expected
    );
}

#[test]
fn watchdog_timeout_preserves_large_stamped_value() {
    assert_eq!(
        Duration::from_secs(watchdog_timeout_for_stamped_seconds(900)),
        Duration::from_secs(900) - Duration::from_secs(CLIENT_WATCHDOG_SAFETY_MARGIN)
    );
}

#[test]
fn watchdog_timeout_at_the_edge_of_the_floor() {
    assert_eq!(watchdog_timeout_for_stamped_seconds(34), 5);
    assert_eq!(watchdog_timeout_for_stamped_seconds(35), 5);
    assert_eq!(watchdog_timeout_for_stamped_seconds(36), 6);
    assert_eq!(watchdog_timeout_for_stamped_seconds(1), 5);
    assert_eq!(watchdog_timeout_for_stamped_seconds(i32::MAX), 2_147_483_617);
    assert_eq!(watchdog_timeout_for_stamped_seconds(i32::MIN), 1770);
}

#[test]
fn executing_anything_but_a_wait_is_invalid() {
    let mut executor = WaitForEventsExecutor::new(7);
    let execution = executor.execute(ExecuteActionInput {
        conversation_id: 1,
        action: AIAgentActionType::Other,
    });
    assert!(matches!(execution, ActionExecution::InvalidAction));
    assert!(executor.should_autoexecute(&ExecuteActionInput {
        conversation_id: 1,
        action: AIAgentActionType::Other,
    }));
}

#[test]
fn a_wait_carries_what_is_left_to_do() {
    let mut executor = WaitForEventsExecutor::new(7);
    let started = wait(&mut executor, 1, "call");
    assert_eq!(started.conversation_id, 1);
    assert_eq!(started.terminal_view_id, 7);
    assert_eq!(started.tool_call_id, "call");
    assert_eq!(started.timeout_seconds, 30);
    assert_eq!(started.generation, 1);
    assert_eq!(started.receiver.capacity(), Some(1));
    assert!(started.receiver.try_recv().is_err());
    assert!(!started.receiver.is_closed());
}

#[test]
fn a_current_watchdog_completes_the_wait() {
    let mut executor = WaitForEventsExecutor::new(7);
    let started = wait(&mut executor, 1, "call");
    let offer = executor
        .fire_watchdog_if_current(1, "call", started.generation)
        .unwrap();
    assert!(offer.delivered());
    assert!(started.receiver.is_closed());
    assert_eq!(started.receiver.try_recv(), Ok(WaitForEventsResult::Completed));
    assert!(started.receiver.try_recv().is_err());
    assert!(executor
        .fire_watchdog_if_current(1, "call", started.generation)
        .is_none());
}

#[test]
fn a_newer_wait_supersedes_the_watchdog_of_the_older() {
    let mut executor = WaitForEventsExecutor::new(7);
    let first = wait(&mut executor, 1, "call");
    let mut second = wait(&mut executor, 1, "call");
    assert_eq!(second.generation, 2);
    assert!(first.replaced.is_none());
    assert!(!first.receiver.is_closed());
    drop(second.replaced.take().unwrap());
    assert!(first.receiver.is_closed());
    assert!(first.receiver.try_recv().is_err());
    assert!(executor
        .fire_watchdog_if_current(1, "call", first.generation)
        .is_none());
    assert!(executor.waits_for(1, "call"));
    assert!(second.receiver.try_recv().is_err());
    assert!(!second.receiver.is_closed());
    assert!(executor
        .fire_watchdog_if_current(1, "call", second.generation)
        .is_some());
    assert_eq!(second.receiver.try_recv(), Ok(WaitForEventsResult::Completed));
}

#[test]
fn a_watchdog_for_another_call_is_ignored() {
    let mut executor = WaitForEventsExecutor::new(7);
    let started = wait(&mut executor, 1, "call");
    assert!(executor
        .fire_watchdog_if_current(1, "other", started.generation)
        .is_none());
    assert!(executor
        .fire_watchdog_if_current(2, "call", started.generation)
        .is_none());
    assert!(executor.waits_for(1, "call"));
}

#[test]
fn completing_sends_the_result_that_was_given() {
    let mut executor = WaitForEventsExecutor::new(7);
    let started = wait(&mut executor, 1, "call");
    assert!(executor
        .complete_wait_action(1, "other", WaitForEventsResult::Cancelled)
        .is_none());
    let offer = executor
        .complete_wait_action(1, "call", WaitForEventsResult::Cancelled)
        .unwrap();
    assert!(offer.delivered());
    assert_eq!(started.receiver.try_recv(), Ok(WaitForEventsResult::Cancelled));
    assert!(started.receiver.try_recv().is_err());
    assert!(started.receiver.is_closed());
}

#[test]
fn a_message_nobody_listens_for_is_not_delivered() {
    let mut executor = WaitForEventsExecutor::new(7);
    drop(wait(&mut executor, 1, "call"));
    let offer = executor
        .complete_wait_action(1, "call", WaitForEventsResult::Completed)
        .unwrap();
    assert!(!offer.delivered());
}

#[test]
fn cancelling_puts_the_watchdog_out_of_force() {
    let mut executor = WaitForEventsExecutor::new(7);
    let started = wait(&mut executor, 1, "call");
    let other = wait(&mut executor, 2, "other");
    assert!(executor.cancel_execution("unknown").is_none());
    let (conversation, end) = executor.cancel_execution("call").unwrap();
    assert_eq!(conversation, 1);
    assert!(executor.cancel_execution("call").is_none());
    assert!(!started.receiver.is_closed());
    drop(end);
    assert!(started.receiver.is_closed());
    assert!(started.receiver.try_recv().is_err());
    assert!(executor
        .fire_watchdog_if_current(1, "call", started.generation)
        .is_none());
    let again = wait(&mut executor, 1, "call");
    assert_eq!(again.generation, 3);
    assert!(executor
        .fire_watchdog_if_current(1, "call", started.generation)
        .is_none());
    assert!(executor
        .fire_watchdog_if_current(2, "other", other.generation)
        .is_some());
}

#[test]
fn a_conversation_that_moved_on_ends_its_wait() {
    let mut executor = WaitForEventsExecutor::new(7);
    let started = wait(&mut executor, 1, "call");
    let moved_on = Some(ConversationStatus::Other);
    let waiting = Some(ConversationStatus::WaitingForEvents);
    assert!(executor
        .handle_history_event(&BlocklistAIHistoryEvent::Other, moved_on)
        .is_none());
    assert!(executor
        .handle_history_event(&updated(8, 1), moved_on)
        .is_none());
    assert!(executor
        .handle_history_event(&updated(7, 2), moved_on)
        .is_none());
    assert!(executor
        .handle_history_event(&updated(7, 1), waiting)
        .is_none());
    assert!(executor.handle_history_event(&updated(7, 1), None).is_none());
    assert!(executor.waits_for(1, "call"));
    assert!(executor
        .handle_history_event(&updated(7, 1), moved_on)
        .is_some());
    assert_eq!(started.receiver.try_recv(), Ok(WaitForEventsResult::Completed));
    assert!(!executor.waits_for(1, "call"));
}

#[test]
fn a_closed_channel_counts_as_completed() {
    assert_eq!(
        wait_result(None),
        AIAgentActionResultType::WaitForEvents(WaitForEventsResult::Completed)
    );
    assert_eq!(
        wait_result(Some(WaitForEventsResult::Cancelled)),
        AIAgentActionResultType::WaitForEvents(WaitForEventsResult::Cancelled)
    );
}
