//! Which command a run starts: resolving the active command and the list of
//! runnable commands from a runtime configuration, and coalescing the wake
//! requests that ask the executor to run now.

use vstd::prelude::*;
use crate::store::{parse_command_tokens, RuntimeConfig};
use crate::text::{space_tokens, token_views};

verus! {

/// Shown when no command is configured.
pub const NO_COMMAND_CONFIGURED: &'static str = "(no command configured)";

/// Shown when a command ran and wrote nothing.
pub const COMMAND_PRODUCED_NO_OUTPUT: &'static str = "(command produced no output)";

/// A request to run now: the active command only, or every command.
#[derive(Debug, Clone, Copy, PartialEq, Eq, Structural)]
pub enum WakeRequest {
    Active,
    All,
}

/// A command can run when it has at least one word.
pub fn is_command_runnable(command: &[String]) -> (r: bool)
    ensures
        r == (command@.len() > 0),
{
    command.len() != 0
}

/// The words of the active command: the command at the active index when it
/// has words; else the words of the legacy command line; else the first
/// command when it has words; else none.
pub open spec fn active_tokens(
    commands: Seq<Seq<Seq<char>>>,
    active: u32,
    legacy: Seq<char>,
) -> Seq<Seq<char>> {
    if (active as int) < commands.len() && commands[active as int].len() > 0 {
        commands[active as int]
    } else if space_tokens(legacy).len() > 0 {
        space_tokens(legacy)
    } else if commands.len() > 0 && commands[0].len() > 0 {
        commands[0]
    } else {
        Seq::empty()
    }
}

/// A copy of a list of words.
fn clone_tokens(tokens: &Vec<String>) -> (r: Vec<String>)
    ensures
        token_views(r@) == token_views(tokens@),
{
    let mut r: Vec<String> = Vec::new();
    let mut i: usize = 0;
    while i < tokens.len()
        invariant
            i <= tokens@.len(),
            token_views(r@) == token_views(tokens@.take(i as int)),
        decreases tokens@.len() - i,
    {
        let ghost before = r@;
        let t = tokens[i].clone();
        assert(t@ == tokens@[i as int]@);
        r.push(t);
        assert(token_views(r@) =~= token_views(before).push(t@));
        assert(token_views(tokens@.take(i + 1)) =~= token_views(tokens@.take(i as int)).push(t@));
        i = i + 1;
    }
    assert(tokens@.take(tokens@.len() as int) =~= tokens@);
    r
}

/// Active command tokens, falling back to the legacy `command` string when
/// the indexed command is missing or empty.
pub fn resolved_active_command_tokens(config: &RuntimeConfig) -> (r: Vec<String>)
    ensures
        token_views(r@) == active_tokens(
            config.commands_view(),
            config.active_command_index,
            config.command@,
        ),
{
    let ghost cv = config.commands_view();
    let index = config.active_command_index as usize;
    if index < config.commands.len() {
        if config.commands[index].len() != 0 {
            assert(cv[index as int] == token_views(config.commands@[index as int]@));
            return clone_tokens(&config.commands[index]);
        }
    }
    let legacy = parse_command_tokens(config.command.as_str());
    if legacy.len() != 0 {
        return legacy;
    }
    if config.commands.len() != 0 {
        if config.commands[0].len() != 0 {
            assert(cv[0] == token_views(config.commands@[0]@));
            return clone_tokens(&config.commands[0]);
        }
    }
    Vec::new()
}


/// The views of a list of numbered commands.
pub open spec fn entry_views(v: Seq<(u32, Vec<String>)>) -> Seq<(u32, Seq<Seq<char>>)> {
    v.map_values(|e: (u32, Vec<String>)| (e.0, token_views(e.1@)))
}

/// The commands that have words, each with its index, in order.
pub open spec fn runnable_commands(commands: Seq<Seq<Seq<char>>>) -> Seq<(u32, Seq<Seq<char>>)>
    decreases commands.len(),
{
    if commands.len() == 0 {
        Seq::empty()
    } else {
        let prev = runnable_commands(commands.drop_last());
        if commands.last().len() > 0 {
            prev.push((((commands.len() - 1) as int) as u32, commands.last()))
        } else {
            prev
        }
    }
}

/// What a run-all cycle runs: every command that has words, with its index;
/// with no command list, the active command at the active index, if it has
/// words.
pub open spec fn all_commands(
    commands: Seq<Seq<Seq<char>>>,
    active: u32,
    legacy: Seq<char>,
) -> Seq<(u32, Seq<Seq<char>>)> {
    if commands.len() == 0 {
        let tokens = active_tokens(commands, active, legacy);
        if tokens.len() == 0 {
            Seq::empty()
        } else {
            seq![(active, tokens)]
        }
    } else {
        runnable_commands(commands)
    }
}

proof fn lemma_runnable_commands(commands: Seq<Seq<Seq<char>>>)
    requires
        commands.len() <= u32::MAX as int + 1,
    ensures
        forall|k: int|
            0 <= k < runnable_commands(commands).len() ==> {
                let e = #[trigger] runnable_commands(commands)[k];
                &&& e.1.len() > 0
                &&& (e.0 as int) < commands.len()
                &&& commands[e.0 as int] == e.1
            },
        forall|i: int|
            0 <= i < commands.len() && #[trigger] commands[i].len() > 0 ==> exists|k: int|
                0 <= k < runnable_commands(commands).len() && #[trigger] runnable_commands(
                    commands,
                )[k].0 as int == i,
        forall|k: int, l: int|
            0 <= k < l < runnable_commands(commands).len() ==> (#[trigger] runnable_commands(
                commands,
            )[k]).0 < (#[trigger] runnable_commands(commands)[l]).0,
    decreases commands.len(),
{
    if commands.len() > 0 {
        let prev = commands.drop_last();
        let entries = runnable_commands(commands);
        let before = runnable_commands(prev);
        lemma_runnable_commands(prev);
        let n = commands.len() - 1;
        assert forall|k: int| 0 <= k < before.len() implies entries[k] == before[k] by {}
        assert forall|i: int| 0 <= i < commands.len() && #[trigger] commands[i].len() > 0 implies exists|k: int|
            0 <= k < entries.len() && #[trigger] entries[k].0 as int == i by {
            if i < n {
                assert(prev[i] == commands[i]);
                let k = choose|k: int| 0 <= k < before.len() && #[trigger] before[k].0 as int == i;
                assert(entries[k] == before[k]);
            } else {
                assert(commands.last() == commands[i]);
                assert(entries[before.len() as int].0 as int == i);
            }
        }
    }
}

/// A run-all cycle starts only commands that have words; with a command
/// list, each under its own index, every command of the list that has words,
/// and in the order of the list (each once).
pub proof fn lemma_run_all_starts_runnable_commands(
    commands: Seq<Seq<Seq<char>>>,
    active: u32,
    legacy: Seq<char>,
)
    requires
        commands.len() <= u32::MAX as int + 1,
    ensures
        forall|k: int|
            0 <= k < all_commands(commands, active, legacy).len() ==> (#[trigger] all_commands(
                commands,
                active,
                legacy,
            )[k]).1.len() > 0,
        commands.len() > 0 ==> forall|k: int|
            0 <= k < all_commands(commands, active, legacy).len() ==> {
                let e = #[trigger] all_commands(commands, active, legacy)[k];
                (e.0 as int) < commands.len() && commands[e.0 as int] == e.1
            },
        forall|i: int|
            0 <= i < commands.len() && #[trigger] commands[i].len() > 0 ==> exists|k: int|
                0 <= k < all_commands(commands, active, legacy).len() && #[trigger] all_commands(
                    commands,
                    active,
                    legacy,
                )[k].0 as int == i,
        forall|k: int, l: int|
            0 <= k < l < all_commands(commands, active, legacy).len() ==> (#[trigger] all_commands(
                commands,
                active,
                legacy,
            )[k]).0 < (#[trigger] all_commands(commands, active, legacy)[l]).0,
{
    lemma_runnable_commands(commands);
    let entries = all_commands(commands, active, legacy);
    if commands.len() > 0 {
        assert(entries == runnable_commands(commands));
        assert forall|i: int| 0 <= i < commands.len() && #[trigger] commands[i].len() > 0 implies exists|k: int|
            0 <= k < entries.len() && #[trigger] entries[k].0 as int == i by {
            let k = choose|k: int|
                0 <= k < runnable_commands(commands).len() && #[trigger] runnable_commands(
                    commands,
                )[k].0 as int == i;
            assert(entries[k].0 as int == i);
        }
    }
}

/// All configured commands for a run-all cycle.
pub fn resolved_all_commands(config: &RuntimeConfig) -> (r: Vec<(u32, Vec<String>)>)
    ensures
        entry_views(r@) == all_commands(
            config.commands_view(),
            config.active_command_index,
            config.command@,
        ),
{
    let ghost cv = config.commands_view();
    if config.commands.len() == 0 {
        let tokens = resolved_active_command_tokens(config);
        if tokens.len() == 0 {
            assert(entry_views(Seq::<(u32, Vec<String>)>::empty()) =~= Seq::empty());
            return Vec::new();
        }
        let mut r: Vec<(u32, Vec<String>)> = Vec::new();
        let ghost tv = token_views(tokens@);
        r.push((config.active_command_index, tokens));
        assert(entry_views(r@) =~= seq![(config.active_command_index, tv)]);
        return r;
    }
    let mut r: Vec<(u32, Vec<String>)> = Vec::new();
    let mut i: usize = 0;
    while i < config.commands.len()
        invariant
            i <= config.commands@.len(),
            cv == config.commands_view(),
            entry_views(r@) == runnable_commands(cv.take(i as int)),
        decreases config.commands@.len() - i,
    {
        let ghost before = r@;
        let ghost p = cv.take(i as int + 1);
        assert(p.drop_last() =~= cv.take(i as int));
        assert(p.last() == token_views(config.commands@[i as int]@));
        if is_command_runnable(config.commands[i].as_slice()) {
            let tokens = clone_tokens(&config.commands[i]);
            r.push((i as u32, tokens));
            assert(entry_views(r@) =~= entry_views(before).push((i as u32, token_views(tokens@))));
        }
        i = i + 1;
    }
    assert(cv.take(cv.len() as int) =~= cv);
    r
}

/// How a pending wake and an incoming one combine: a request to run every
/// command wins over one to run the active command.
pub open spec fn merged_wake(current: Option<WakeRequest>, incoming: WakeRequest) -> WakeRequest {
    if current == Some(WakeRequest::All) || incoming == WakeRequest::All {
        WakeRequest::All
    } else {
        WakeRequest::Active
    }
}

/// Combines a pending wake request with an incoming one.
pub fn merge_wake(current: Option<WakeRequest>, incoming: WakeRequest) -> (r: WakeRequest)
    ensures
        r == merged_wake(current, incoming),
{
    match (current, incoming) {
        (Some(WakeRequest::All), _) | (_, WakeRequest::All) => WakeRequest::All,
        _ => WakeRequest::Active,
    }
}

/// The pending wake after the requests `received` arrived, in order, on top
/// of `initial`.
pub open spec fn coalesced_wakes(
    initial: Option<WakeRequest>,
    received: Seq<WakeRequest>,
) -> Option<WakeRequest>
    decreases received.len(),
{
    if received.len() == 0 {
        initial
    } else {
        match coalesced_wakes(initial, received.drop_last()) {
            None => Some(received.last()),
            Some(current) => Some(merged_wake(Some(current), received.last())),
        }
    }
}

/// Coalescing wake requests forgets their order and number: the result is a
/// request to run every command exactly when one of them (or the pending one)
/// asked for it, and no request only when nothing was pending or received.
pub proof fn lemma_coalesced_wakes(initial: Option<WakeRequest>, received: Seq<WakeRequest>)
    ensures
        coalesced_wakes(initial, received) == (if initial == Some(WakeRequest::All)
            || received.contains(WakeRequest::All) {
            Some(WakeRequest::All)
        } else if initial is Some || received.len() > 0 {
            Some(WakeRequest::Active)
        } else {
            None
        }),
    decreases received.len(),
{
    if received.len() > 0 {
        let prev = received.drop_last();
        lemma_coalesced_wakes(initial, prev);
        if prev.contains(WakeRequest::All) {
            let k = choose|k: int| 0 <= k < prev.len() && prev[k] == WakeRequest::All;
            assert(received[k] == WakeRequest::All);
        }
        if received.contains(WakeRequest::All) && received.last() != WakeRequest::All {
            let k = choose|k: int| 0 <= k < received.len() && received[k] == WakeRequest::All;
            assert(prev[k] == WakeRequest::All);
        }
        if received.last() == WakeRequest::All {
            assert(received[received.len() - 1] == WakeRequest::All);
        }
    }
}

#[verifier::external_type_specification]
#[verifier::external_body]
#[verifier::reject_recursive_types(T)]
pub struct ExWakeReceiver<T>(tokio::sync::mpsc::Receiver<T>);

/// Calls `tokio::sync::mpsc::Receiver::try_recv`: a request that is waiting in
/// the channel, or `None` when the channel is empty or closed. What arrives
/// depends on the senders, so nothing is stated of it.
#[verifier::external_body]
fn try_recv_wake(rx: &mut tokio::sync::mpsc::Receiver<WakeRequest>) -> (r: Option<WakeRequest>) {
    rx.try_recv().ok()
}

/// Drains the wake requests waiting in `rx` and merges them into `initial`.
/// The result is the coalescing of `initial` with what arrived, whatever that
/// was. (Draining stops after `usize::MAX` requests, so that senders faster
/// than this loop cannot keep it running forever.)
pub fn coalesce_pending_wake(
    initial: Option<WakeRequest>,
    rx: &mut tokio::sync::mpsc::Receiver<WakeRequest>,
) -> (r: Option<WakeRequest>)
    ensures
        exists|received: Seq<WakeRequest>| r == coalesced_wakes(initial, received),
        initial == Some(WakeRequest::All) ==> r == Some(WakeRequest::All),
        initial is Some ==> r is Some,
{
    let mut merged = initial;
    let ghost mut received: Seq<WakeRequest> = Seq::empty();
    let mut drained: usize = 0;
    loop
        invariant
            merged == coalesced_wakes(initial, received),
        decreases usize::MAX - drained,
    {
        if drained == usize::MAX {
            break;
        }
        match try_recv_wake(rx) {
            Some(incoming) => {
                proof {
                    assert(received.push(incoming).drop_last() =~= received);
                    received = received.push(incoming);
                }
                merged = Some(
                    match merged {
                        None => incoming,
                        Some(current) => merge_wake(Some(current), incoming),
                    },
                );
                drained = drained + 1;
            },
            None => {
                break;
            },
        }
    }
    proof {
        lemma_coalesced_wakes(initial, received);
    }
    merged
}

} // verus!
