//! From a Konata log to a trace: what the commands of a log have a writer do,
//! and the trace that comes of it.

use vstd::prelude::*;
use vstd::string::StringExecFns;
use crate::bytes::u32_bytes;
use crate::error::TraceError;
use crate::konata::{
    cmd_views, extract_pc, pc_of, scan_pass, scanned, CmdView, KonataCmd, ScanResult,
};
use crate::numerals::texts_of;
use crate::protocols::cpu::{
    counter_from, cpu_draft, cpu_ids, cpu_names, cpu_properties, default_stall_reasons, event_item,
    op_item, settable, CpuIdsView, CpuPlan, CpuSchemaBuilder, CpuWriter,
};
use crate::protocols::cpu_laws::law_cpu_settable;
use crate::schema::{dut_desc, property_texts, texts, Draft, SchemaView};
use crate::string_pool::Pool;
use crate::text::str_eq;
use crate::types::{DutDescView, StorageDefView, DA_SLOT_ADD, DA_SLOT_CLEAR, DA_SLOT_SET};
use crate::writer::{create_error, fresh, table_place, Writer, WriterView};

verus! {

// ---------------------------------------------------------------------------
// What the commands of a log have a writer do.

/// Something that a writer does.
#[derive(Debug)]
pub enum Action {
    Begin { time_ps: u64 },
    End,
    Fetch { id: u32 },
    SetPc { id: u32, pc: u64 },
    Annotate { id: u32, text: String },
    Stage { id: u32, stage: u8 },
    /// Also counts the instruction as committed.
    Retire { id: u32 },
    Flush { id: u32 },
    Dependency { producer: u32, consumer: u32 },
}

/// What an `Action` is.
#[verifier::ext_equal]
pub enum ActionView {
    Begin { time_ps: u64 },
    End,
    Fetch { id: u32 },
    SetPc { id: u32, pc: u64 },
    Annotate { id: u32, text: Seq<char> },
    Stage { id: u32, stage: u8 },
    Retire { id: u32 },
    Flush { id: u32 },
    Dependency { producer: u32, consumer: u32 },
}

impl View for Action {
    type V = ActionView;

    open spec fn view(&self) -> ActionView {
        match self {
            Action::Begin { time_ps } => ActionView::Begin { time_ps: *time_ps },
            Action::End => ActionView::End,
            Action::Fetch { id } => ActionView::Fetch { id: *id },
            Action::SetPc { id, pc } => ActionView::SetPc { id: *id, pc: *pc },
            Action::Annotate { id, text } => ActionView::Annotate { id: *id, text: text@ },
            Action::Stage { id, stage } => ActionView::Stage { id: *id, stage: *stage },
            Action::Retire { id } => ActionView::Retire { id: *id },
            Action::Flush { id } => ActionView::Flush { id: *id },
            Action::Dependency { producer, consumer } => ActionView::Dependency {
                producer: *producer,
                consumer: *consumer,
            },
        }
    }
}

/// The views of some actions.
pub open spec fn action_views(actions: Seq<Action>) -> Seq<ActionView> {
    actions.map_values(|a: Action| a@)
}

/// Where a log stands: its cycle, whether that cycle has begun, and the time at
/// which the last one began.
#[derive(Debug, Clone, Copy, PartialEq, Eq, Structural)]
pub struct Clock {
    pub cycle: u64,
    pub started: bool,
    pub last_time: u64,
}

/// What it takes to be in the current cycle.
pub open spec fn in_time(c: Clock, period: u64) -> Result<(Clock, Seq<ActionView>), TraceError> {
    let time = c.cycle * period;
    if time > u64::MAX {
        Err(TraceError::TimeOverflow)
    } else if c.started && time == c.last_time {
        Ok((c, Seq::empty()))
    } else if time < c.last_time {
        Err(TraceError::TimeBackwards)
    } else {
        Ok(
            (
                Clock { started: true, last_time: time as u64, ..c },
                leaving(c) + seq![ActionView::Begin { time_ps: time as u64 }],
            ),
        )
    }
}

/// What it takes to leave the current cycle.
pub open spec fn leaving(c: Clock) -> Seq<ActionView> {
    if c.started {
        seq![ActionView::End]
    } else {
        Seq::empty()
    }
}

/// The first of some names from `i` on that is the given one.
pub open spec fn place_from(names: Seq<Seq<char>>, name: Seq<char>, i: int) -> Option<int>
    decreases names.len() - i,
{
    if i >= names.len() {
        None
    } else if names[i] == name {
        Some(i)
    } else {
        place_from(names, name, i + 1)
    }
}

/// What a command says of the CPU.
pub open spec fn said(cmd: CmdView, stages: Seq<Seq<char>>) -> Seq<ActionView> {
    match cmd {
        CmdView::Instruction { id, .. } => seq![ActionView::Fetch { id }],
        CmdView::Label { id, label_type, text } => (if label_type == 0 && pc_of(text) != 0 {
            seq![ActionView::SetPc { id, pc: pc_of(text) }]
        } else {
            Seq::empty()
        }) + seq![ActionView::Annotate { id, text }],
        CmdView::StageStart { id, lane, stage } => if lane == 0 {
            match place_from(stages, stage, 0) {
                Some(i) => seq![ActionView::Stage { id, stage: i as u8 }],
                None => Seq::empty(),
            }
        } else {
            seq![ActionView::Annotate { id, text: "stall:"@ + stage }]
        },
        CmdView::Retire { id, retire_type, .. } => if retire_type == 0 {
            seq![ActionView::Retire { id }]
        } else {
            seq![ActionView::Flush { id }]
        },
        CmdView::Dependency { consumer, producer, .. } => seq![
            ActionView::Dependency { producer, consumer },
        ],
        _ => Seq::empty(),
    }
}

/// Where the log stands after a command, and what the command has a writer do.
pub open spec fn step(c: Clock, cmd: CmdView, period: u64, stages: Seq<Seq<char>>) -> Result<
    (Clock, Seq<ActionView>),
    TraceError,
> {
    match cmd {
        CmdView::CycleAbsolute(x) => Ok((Clock { cycle: x, started: false, ..c }, leaving(c))),
        CmdView::CycleDelta(d) => if c.cycle + d > u64::MAX {
            Err(TraceError::TimeOverflow)
        } else {
            Ok((Clock { cycle: (c.cycle + d) as u64, started: false, ..c }, leaving(c)))
        },
        CmdView::StageEnd { .. } => Ok((c, Seq::empty())),
        _ => match in_time(c, period) {
            Err(e) => Err(e),
            Ok((now, before)) => Ok((now, before + said(cmd, stages))),
        },
    }
}

/// The same of the first `n` commands.
pub open spec fn steps(cmds: Seq<CmdView>, n: int, period: u64, stages: Seq<Seq<char>>) -> Result<
    (Clock, Seq<ActionView>),
    TraceError,
>
    decreases n,
{
    if n <= 0 {
        Ok((Clock { cycle: 0, started: false, last_time: 0 }, Seq::empty()))
    } else {
        match steps(cmds, n - 1, period, stages) {
            Err(e) => Err(e),
            Ok((c, before)) => match step(c, cmds[n - 1], period, stages) {
                Err(e) => Err(e),
                Ok((now, more)) => Ok((now, before + more)),
            },
        }
    }
}

/// All that a log has a writer do.
pub open spec fn script_of(cmds: Seq<CmdView>, period: u64, stages: Seq<Seq<char>>) -> Result<
    Seq<ActionView>,
    TraceError,
> {
    match steps(cmds, cmds.len() as int, period, stages) {
        Err(e) => Err(e),
        Ok((c, actions)) => Ok(actions + leaving(c)),
    }
}

proof fn lemma_steps_err(cmds: Seq<CmdView>, i: int, n: int, period: u64, stages: Seq<Seq<char>>)
    requires
        i <= n,
        steps(cmds, i, period, stages) is Err,
    ensures
        steps(cmds, n, period, stages) == steps(cmds, i, period, stages),
    decreases n - i,
{
    if i < n {
        lemma_steps_err(cmds, i, n - 1, period, stages);
    }
}

/// Whether a writer is in a cycle after some actions, and the time of the last
/// cycle: nothing where an action is out of place.
pub open spec fn tempo(actions: Seq<ActionView>) -> Option<(bool, u64)>
    decreases actions.len(),
{
    if actions.len() == 0 {
        Some((false, 0))
    } else {
        match tempo(actions.drop_last()) {
            None => None,
            Some((started, time)) => match actions.last() {
                ActionView::Begin { time_ps } => if !started && time_ps >= time {
                    Some((true, time_ps))
                } else {
                    None
                },
                ActionView::End => if started {
                    Some((false, time))
                } else {
                    None
                },
                _ => if started {
                    Some((true, time))
                } else {
                    None
                },
            },
        }
    }
}

proof fn lemma_tempo_push(actions: Seq<ActionView>, a: ActionView)
    ensures
        tempo(actions.push(a)) == match tempo(actions) {
            None => None::<(bool, u64)>,
            Some((started, time)) => match a {
                ActionView::Begin { time_ps } => if !started && time_ps >= time {
                    Some((true, time_ps))
                } else {
                    None
                },
                ActionView::End => if started {
                    Some((false, time))
                } else {
                    None
                },
                _ => if started {
                    Some((true, time))
                } else {
                    None
                },
            },
        },
{
    assert(actions.push(a).drop_last() =~= actions);
}

/// What a command says keeps the writer in its cycle.
proof fn lemma_tempo_said(actions: Seq<ActionView>, cmd: CmdView, stages: Seq<Seq<char>>, t: u64)
    requires
        tempo(actions) == Some((true, t)),
    ensures
        tempo(actions + said(cmd, stages)) == Some((true, t)),
{
    let s = said(cmd, stages);
    if s.len() == 0 {
        assert(actions + s =~= actions);
    } else {
        lemma_tempo_push(actions, s[0]);
        if s.len() == 1 {
            assert(actions + s =~= actions.push(s[0]));
        } else {
            lemma_tempo_push(actions.push(s[0]), s[1]);
            assert(actions + s =~= actions.push(s[0]).push(s[1]));
        }
    }
}

/// A log never has a writer do anything out of place: everything happens in a
/// cycle, and cycles do not go back in time.
pub proof fn law_script_in_place(
    cmds: Seq<CmdView>,
    n: int,
    period: u64,
    stages: Seq<Seq<char>>,
)
    requires
        steps(cmds, n, period, stages) is Ok,
    ensures
        ({
            let (c, actions) = steps(cmds, n, period, stages)->Ok_0;
            &&& tempo(actions) == Some((c.started, c.last_time))
            &&& tempo(actions + leaving(c)) == Some((false, c.last_time))
        }),
    decreases n,
{
    let (c, actions) = steps(cmds, n, period, stages)->Ok_0;
    if n > 0 {
        law_script_in_place(cmds, n - 1, period, stages);
        let (b, before) = steps(cmds, n - 1, period, stages)->Ok_0;
        let cmd = cmds[n - 1];
        match cmd {
            CmdView::CycleAbsolute(_) => {},
            CmdView::CycleDelta(_) => {},
            CmdView::StageEnd { .. } => {
                assert(before + Seq::<ActionView>::empty() =~= before);
            },
            _ => {
                let (now, first) = in_time(b, period)->Ok_0;
                if first.len() == 0 {
                    assert(before + first =~= before);
                } else {
                    let begin = ActionView::Begin { time_ps: now.last_time };
                    lemma_tempo_push(before + leaving(b), begin);
                    assert(before + first =~= (before + leaving(b)).push(begin));
                }
                lemma_tempo_said(before + first, cmd, stages, now.last_time);
                assert(before + (first + said(cmd, stages)) =~= (before + first) + said(
                    cmd,
                    stages,
                ));
            },
        }
    }
    if c.started {
        lemma_tempo_push(actions, ActionView::End);
        assert(actions + leaving(c) =~= actions.push(ActionView::End));
    } else {
        assert(actions + leaving(c) =~= actions);
    }
}

// ---------------------------------------------------------------------------
// Working it out.

fn find_place(names: &Vec<String>, name: &str) -> (r: Option<usize>)
    ensures
        match place_from(texts_of(names@), name@, 0) {
            Some(i) => r is Some && r->Some_0 == i,
            None => r is None,
        },
{
    let mut i: usize = 0;
    while i < names.len()
        invariant
            i <= names@.len(),
            place_from(texts_of(names@), name@, 0) == place_from(
                texts_of(names@),
                name@,
                i as int,
            ),
        decreases names@.len() - i,
    {
        assert(texts_of(names@)[i as int] == names@[i as int]@);
        if str_eq(names[i].as_str(), name) {
            return Some(i);
        }
        i = i + 1;
    }
    None
}

/// Adds an action to a list.
fn put(actions: &mut Vec<Action>, a: Action)
    ensures
        action_views(final(actions)@) == action_views(old(actions)@).push(a@),
{
    actions.push(a);
    assert(action_views(actions@) =~= action_views(old(actions)@).push(a@));
}

/// Leaves the current cycle.
fn leave(c: &Clock, actions: &mut Vec<Action>)
    ensures
        action_views(final(actions)@) == action_views(old(actions)@) + leaving(*c),
{
    if c.started {
        put(actions, Action::End);
    }
    assert(action_views(actions@) =~= action_views(old(actions)@) + leaving(*c));
}

/// Enters the current cycle.
fn enter(c: &mut Clock, period: u64, actions: &mut Vec<Action>) -> (r: Result<(), TraceError>)
    ensures
        match in_time(*old(c), period) {
            Ok((now, first)) => {
                &&& r is Ok
                &&& *final(c) == now
                &&& action_views(final(actions)@) == action_views(old(actions)@) + first
            },
            Err(e) => r == Err::<(), TraceError>(e),
        },
{
    let time: u64 = match c.cycle.checked_mul(period) {
        Some(t) => t,
        None => return Err(TraceError::TimeOverflow),
    };
    if c.started && time == c.last_time {
        assert(action_views(actions@) =~= action_views(old(actions)@)
            + Seq::<ActionView>::empty());
        return Ok(());
    }
    if time < c.last_time {
        return Err(TraceError::TimeBackwards);
    }
    leave(c, actions);
    put(actions, Action::Begin { time_ps: time });
    let ghost first = leaving(*old(c)) + seq![ActionView::Begin { time_ps: time }];
    assert(action_views(actions@) =~= action_views(old(actions)@) + first);
    c.started = true;
    c.last_time = time;
    Ok(())
}

/// What a command says of the CPU.
fn say(cmd: &KonataCmd, stages: &Vec<String>, actions: &mut Vec<Action>)
    ensures
        action_views(final(actions)@) == action_views(old(actions)@) + said(
            cmd@,
            texts_of(stages@),
        ),
{
    match cmd {
        KonataCmd::Instruction { id, gid: _, tid: _ } => {
            put(actions, Action::Fetch { id: *id });
        },
        KonataCmd::Label { id, label_type, text } => {
            if *label_type == 0 {
                // Disassembly: extract PC and set it.
                let pc: u64 = extract_pc(text.as_str());
                if pc != 0 {
                    put(actions, Action::SetPc { id: *id, pc });
                }
            }
            // All label types become annotations.
            put(actions, Action::Annotate { id: *id, text: text.clone() });
        },
        KonataCmd::StageStart { id, lane, stage } => {
            if *lane == 0 {
                match find_place(stages, stage.as_str()) {
                    Some(i) => {
                        let stage: u8 = #[verifier::truncate] (i as u8);
                        put(actions, Action::Stage { id: *id, stage });
                    },
                    None => {},
                }
            } else {
                // Lane 1 and up: annotate with stall/overlay info.
                let mut text: String = "stall:".to_owned();
                text.append(stage.as_str());
                put(actions, Action::Annotate { id: *id, text });
            }
        },
        KonataCmd::Retire { id, rid: _, retire_type } => {
            if *retire_type == 0 {
                put(actions, Action::Retire { id: *id });
            } else {
                put(actions, Action::Flush { id: *id });
            }
        },
        KonataCmd::Dependency { consumer, producer, dep_type: _ } => {
            put(actions, Action::Dependency { producer: *producer, consumer: *consumer });
        },
        KonataCmd::CycleAbsolute(_) => {},
        KonataCmd::CycleDelta(_) => {},
        KonataCmd::StageEnd { id: _, lane: _, stage: _ } => {},
    }
    assert(action_views(actions@) =~= action_views(old(actions)@) + said(
        cmd@,
        texts_of(stages@),
    ));
}

/// Follows a command.
fn follow(
    c: &mut Clock,
    cmd: &KonataCmd,
    period: u64,
    stages: &Vec<String>,
    actions: &mut Vec<Action>,
) -> (r: Result<(), TraceError>)
    ensures
        match step(*old(c), cmd@, period, texts_of(stages@)) {
            Ok((now, more)) => {
                &&& r is Ok
                &&& *final(c) == now
                &&& action_views(final(actions)@) == action_views(old(actions)@) + more
            },
            Err(e) => r == Err::<(), TraceError>(e),
        },
{
    match cmd {
        KonataCmd::CycleAbsolute(x) => {
            leave(c, actions);
            c.cycle = *x;
            c.started = false;
            return Ok(());
        },
        KonataCmd::CycleDelta(d) => {
            let cycle: u64 = match c.cycle.checked_add(*d) {
                Some(x) => x,
                None => return Err(TraceError::TimeOverflow),
            };
            leave(c, actions);
            c.cycle = cycle;
            c.started = false;
            return Ok(());
        },
        KonataCmd::StageEnd { id: _, lane: _, stage: _ } => {
            // The next stage or the retirement ends the previous stage.
            assert(action_views(actions@) =~= action_views(old(actions)@)
                + Seq::<ActionView>::empty());
            return Ok(());
        },
        _ => {},
    }
    match enter(c, period, actions) {
        Err(e) => Err(e),
        Ok(()) => {
            let ghost before = action_views(actions@);
            say(cmd, stages, actions);
            proof {
                let (now, first) = in_time(*old(c), period)->Ok_0;
                let s = said(cmd@, texts_of(stages@));
                assert(action_views(old(actions)@) + first + s =~= action_views(old(actions)@) + (
                first + s));
            }
            Ok(())
        },
    }
}

/// Works out all that a log has a writer do.
pub fn translate(cmds: &Vec<KonataCmd>, period: u64, stages: &Vec<String>) -> (r: Result<
    Vec<Action>,
    TraceError,
>)
    ensures
        match script_of(cmd_views(cmds@), period, texts_of(stages@)) {
            Ok(s) => r is Ok && action_views(r->Ok_0@) == s,
            Err(e) => r == Err::<Vec<Action>, TraceError>(e),
        },
{
    let ghost all = cmd_views(cmds@);
    let ghost n = cmds@.len() as int;
    let ghost names = texts_of(stages@);
    let mut c = Clock { cycle: 0, started: false, last_time: 0 };
    let mut actions: Vec<Action> = Vec::new();
    let mut i: usize = 0;
    assert(action_views(actions@) =~= Seq::<ActionView>::empty());
    while i < cmds.len()
        invariant
            i <= cmds@.len(),
            n == cmds@.len(),
            all == cmd_views(cmds@),
            names == texts_of(stages@),
            steps(all, i as int, period, names) == Ok::<(Clock, Seq<ActionView>), TraceError>(
                (c, action_views(actions@)),
            ),
        decreases cmds@.len() - i,
    {
        proof {
            assert(all[i as int] == cmds@[i as int]@);
            if steps(all, i + 1, period, names) is Err {
                lemma_steps_err(all, i + 1, n, period, names);
            }
        }
        match follow(&mut c, &cmds[i], period, stages, &mut actions) {
            Err(e) => return Err(e),
            Ok(()) => {},
        }
        i = i + 1;
    }
    leave(&c, &mut actions);
    Ok(actions)
}

// ---------------------------------------------------------------------------
// Doing it.

/// The counter of committed instructions grows by one, where there is one.
pub open spec fn committed(w: WriterView, ids: CpuIdsView) -> WriterView {
    match counter_from(ids.counters, "committed_insns"@, 0) {
        Some((sid, field)) => w.with_item(op_item(DA_SLOT_ADD, sid, 0, field, 1)),
        None => w,
    }
}

/// A field of an entity is set.
pub open spec fn entity_set(
    w: WriterView,
    ids: CpuIdsView,
    id: u32,
    field: u16,
    value: u64,
) -> WriterView {
    w.with_item(op_item(DA_SLOT_SET, ids.entities_storage_id, id as u16, field, value))
}

/// Whether an action takes a writer from `a` to `b`.
pub open spec fn performed(
    a: WriterView,
    action: ActionView,
    ids: CpuIdsView,
    b: WriterView,
) -> bool {
    match action {
        ActionView::Begin { time_ps } => b == (WriterView { time: time_ps, in_cycle: true, ..a }),
        ActionView::End => {
            &&& a.end_error() is None
            &&& if a.time < a.next_checkpoint {
                b == a.with_frame()
            } else {
                exists|blob: Seq<u8>| #[trigger] a.with_frame().packs(blob) && b == a.ended(blob)
            }
        },
        ActionView::Fetch { id } => b == entity_set(
            entity_set(
                entity_set(a, ids, id, ids.field_entity_id, id as u64),
                ids,
                id,
                ids.field_pc,
                0,
            ),
            ids,
            id,
            ids.field_inst_bits,
            0,
        ),
        ActionView::SetPc { id, pc } => b == entity_set(a, ids, id, ids.field_pc, pc),
        ActionView::Annotate { id, text } => {
            let named = a.with_string(text);
            let place = table_place(named.rec.strings, text) as u32;
            b == named.with_item(
                event_item(ids.annotate_event_id, u32_bytes(id) + u32_bytes(place)),
            )
        },
        ActionView::Stage { id, stage } => b == a.with_item(
            event_item(ids.stage_transition_event_id, u32_bytes(id).push(stage)),
        ),
        ActionView::Retire { id } => b == committed(
            a.with_item(op_item(DA_SLOT_CLEAR, ids.entities_storage_id, id as u16, 0, 0)),
            ids,
        ),
        ActionView::Flush { id } => b == a.with_item(
            event_item(ids.flush_event_id, u32_bytes(id).push(0)),
        ),
        ActionView::Dependency { producer, consumer } => b == a.with_item(
            event_item(
                ids.dependency_event_id,
                (u32_bytes(producer) + u32_bytes(consumer)).push(0),
            ),
        ),
    }
}

/// Whether each action takes a writer from one of the states to the next.
pub open spec fn leads(states: Seq<WriterView>, actions: Seq<ActionView>, ids: CpuIdsView) -> bool {
    &&& states.len() == actions.len() + 1
    &&& forall|i: int|
        0 <= i < actions.len() ==> performed(
            states[i],
            #[trigger] actions[i],
            ids,
            states[i + 1],
        )
}

/// Whether some actions in turn take a writer from `a` to `b`.
pub open spec fn played(
    a: WriterView,
    actions: Seq<ActionView>,
    ids: CpuIdsView,
    b: WriterView,
) -> bool {
    exists|states: Seq<WriterView>| #[trigger]
        leads(states, actions, ids) && states[0] == a && states.last() == b
}

/// Whether a writer that starts at `a` fails with `e` at the end of a cycle,
/// after `k` actions.
pub open spec fn stuck(
    a: WriterView,
    actions: Seq<ActionView>,
    ids: CpuIdsView,
    k: int,
    e: TraceError,
) -> bool {
    &&& 0 <= k < actions.len()
    &&& actions[k] == ActionView::End
    &&& exists|mid: WriterView| #[trigger]
        played(a, actions.take(k), ids, mid) && mid.fails_to_end(e)
}

/// Whether a writer that starts at `a` and does all actions gives `res`.
pub open spec fn comes_to(
    a: WriterView,
    actions: Seq<ActionView>,
    ids: CpuIdsView,
    res: Result<Vec<u8>, TraceError>,
) -> bool {
    match res {
        Ok(img) => exists|w: WriterView| #[trigger]
            played(a, actions, ids, w) && w.settled() && w.closes_to(img@),
        Err(e) => {
            ||| exists|k: int| #[trigger] stuck(a, actions, ids, k, e)
            ||| exists|w: WriterView| #[trigger]
                played(a, actions, ids, w) && w.fails_to_close(e)
        },
    }
}

/// Whether the entities and the counter of a log can be written.
pub open spec fn ready(w: WriterView) -> bool {
    &&& forall|slot: u16|
        #![trigger settable(w, 0, slot, 0)]
        #![trigger settable(w, 0, slot, 1)]
        #![trigger settable(w, 0, slot, 2)]
        settable(w, 0, slot, 0) && settable(w, 0, slot, 1) && settable(w, 0, slot, 2)
    &&& settable(w, 1, 0, 0)
}

/// Whether the numbers are those of the schema of a log.
pub open spec fn log_ids(ids: CpuIdsView) -> bool {
    &&& ids.entities_storage_id == 0
    &&& ids.field_entity_id == 0
    &&& ids.field_pc == 1
    &&& ids.field_inst_bits == 2
    &&& ids.counters == seq![("committed_insns"@, 1u16, 0u16)]
}

/// The storages of a plan.
#[verifier::opaque]
pub open spec fn storages_of(plan: CpuPlan) -> Seq<StorageDefView> {
    cpu_draft(plan).storages
}

/// Whether a plan is that of a log.
pub open spec fn for_log(plan: CpuPlan) -> bool {
    plan.buffers.len() == 0 && plan.counters == seq!["committed_insns"@]
}

proof fn lemma_ready(w: WriterView, plan: CpuPlan)
    requires
        w.settled(),
        w.rec.schema.storages == storages_of(plan),
        for_log(plan),
    ensures
        ready(w),
{
    reveal(storages_of);
    assert forall|slot: u16|
        #![trigger settable(w, 0, slot, 0)]
        #![trigger settable(w, 0, slot, 1)]
        #![trigger settable(w, 0, slot, 2)]
        settable(w, 0, slot, 0) && settable(w, 0, slot, 1) && settable(w, 0, slot, 2) by {
        law_cpu_settable(w, plan, slot);
    }
    law_cpu_settable(w, plan, 0);
    assert(settable(w, (1 + plan.buffers.len() + 0) as u16, 0, 0));
}

/// Performs an action that says something of the CPU.
fn tell(w: &mut Writer, cpu: &CpuWriter, action: &Action)
    requires
        old(w).wf(),
        old(w)@.in_cycle,
        ready(old(w)@),
        log_ids(cpu.ids@),
        !(action@ is Begin),
        !(action@ is End),
    ensures
        final(w).wf(),
        performed(old(w)@, action@, cpu.ids@, final(w)@),
        final(w)@.rec.schema == old(w)@.rec.schema,
        final(w)@.in_cycle,
        final(w)@.time == old(w)@.time,
{
    let ghost o = w@;
    match action {
        Action::Begin { time_ps: _ } => {},
        Action::End => {},
        Action::Fetch { id } => {
            assert(settable(o, 0, *id as u16, 0));
            cpu.fetch(w, *id, 0, 0);
        },
        Action::SetPc { id, pc } => {
            let slot: u16 = #[verifier::truncate] (*id as u16);
            assert(settable(o, 0, slot, 1));
            w.slot_set(cpu.ids.entities_storage_id, slot, cpu.ids.field_pc, *pc);
        },
        Action::Annotate { id, text } => {
            cpu.annotate(w, *id, text.as_str());
        },
        Action::Stage { id, stage } => {
            cpu.stage_transition(w, *id, *stage);
        },
        Action::Retire { id } => {
            assert(counter_from(cpu.ids@.counters, "committed_insns"@, 0) == Some((1u16, 0u16)));
            cpu.retire(w, *id);
            cpu.counter_add(w, "committed_insns", 1);
        },
        Action::Flush { id } => {
            // A misprediction.
            cpu.flush(w, *id, 0);
        },
        Action::Dependency { producer, consumer } => {
            // The kind of a dependency is not standardized in a log: a raw one.
            cpu.dependency(w, *producer, *consumer, 0);
        },
    }
}

/// Performs an action.
fn perform(w: &mut Writer, cpu: &CpuWriter, action: &Action) -> (r: Result<(), TraceError>)
    requires
        old(w).wf(),
        ready(old(w)@),
        log_ids(cpu.ids@),
        action@ matches ActionView::Begin { time_ps } ==> !old(w)@.in_cycle && time_ps >= old(
            w)@.time,
        !(action@ is Begin) ==> old(w)@.in_cycle,
    ensures
        final(w).wf(),
        match r {
            Ok(()) => performed(old(w)@, action@, cpu.ids@, final(w)@),
            Err(e) => action@ == ActionView::End && old(w)@.fails_to_end(e),
        },
        r is Ok ==> final(w)@.rec.schema == old(w)@.rec.schema,
        r is Ok ==> final(w)@.in_cycle == !(action@ is End),
        r is Ok ==> final(w)@.time == match action@ {
            ActionView::Begin { time_ps } => time_ps,
            _ => old(w)@.time,
        },
{
    match action {
        Action::Begin { time_ps } => {
            w.begin_cycle(*time_ps);
            Ok(())
        },
        Action::End => w.end_cycle(),
        _ => {
            tell(w, cpu, action);
            Ok(())
        },
    }
}

proof fn lemma_played_push(
    a: WriterView,
    actions: Seq<ActionView>,
    action: ActionView,
    ids: CpuIdsView,
    mid: WriterView,
    b: WriterView,
)
    requires
        played(a, actions, ids, mid),
        performed(mid, action, ids, b),
    ensures
        played(a, actions.push(action), ids, b),
{
    let states = choose|states: Seq<WriterView>| #[trigger]
        leads(states, actions, ids) && states[0] == a && states.last() == mid;
    let more = states.push(b);
    let all = actions.push(action);
    assert forall|i: int| 0 <= i < all.len() implies performed(
        more[i],
        #[trigger] all[i],
        ids,
        more[i + 1],
    ) by {
        if i < actions.len() {
            assert(all[i] == actions[i]);
        }
    }
    assert(leads(more, all, ids) && more[0] == a && more.last() == b);
}

/// Performs some actions in turn.
fn play(w: &mut Writer, cpu: &CpuWriter, actions: &Vec<Action>, Ghost(plan): Ghost<CpuPlan>) -> (r:
    Result<(), TraceError>)
    requires
        old(w).wf(),
        old(w)@.rec.schema.storages == storages_of(plan),
        for_log(plan),
        log_ids(cpu.ids@),
        tempo(action_views(actions@)) is Some,
        !old(w)@.in_cycle,
        old(w)@.time == 0,
    ensures
        final(w).wf(),
        match r {
            Ok(()) => played(old(w)@, action_views(actions@), cpu.ids@, final(w)@),
            Err(e) => exists|k: int| #[trigger]
                stuck(old(w)@, action_views(actions@), cpu.ids@, k, e),
        },
{
    let ghost a = w@;
    let ghost all = action_views(actions@);
    let mut i: usize = 0;
    proof {
        assert(all.take(0) =~= Seq::<ActionView>::empty());
        assert(leads(seq![a], all.take(0), cpu.ids@) && seq![a][0] == a && seq![a].last() == a);
    }
    while i < actions.len()
        invariant
            i <= actions@.len(),
            all == action_views(actions@),
            a == old(w)@,
            w.wf(),
            w@.rec.schema.storages == storages_of(plan),
            for_log(plan),
            log_ids(cpu.ids@),
            tempo(all) is Some,
            tempo(all.take(i as int)) == Some((w@.in_cycle, w@.time)),
            played(a, all.take(i as int), cpu.ids@, w@),
        decreases actions@.len() - i,
    {
        let ghost mid = w@;
        proof {
            lemma_tempo_prefix(all, i + 1);
            assert(all.take(i + 1) =~= all.take(i as int).push(all[i as int]));
            lemma_tempo_push(all.take(i as int), all[i as int]);
            assert(all.take(i + 1).drop_last() =~= all.take(i as int));
            assert(all[i as int] == actions@[i as int]@);
            w.lemma_wf();
            lemma_ready(w@, plan);
        }
        match perform(w, cpu, &actions[i]) {
            Err(e) => {
                assert(stuck(a, all, cpu.ids@, i as int, e));
                return Err(e);
            },
            Ok(()) => {
                proof {
                    lemma_played_push(
                        a,
                        all.take(i as int),
                        all[i as int],
                        cpu.ids@,
                        mid,
                        w@,
                    );
                }
            },
        }
        i = i + 1;
    }
    assert(all.take(i as int) =~= all);
    Ok(())
}

proof fn lemma_tempo_prefix(actions: Seq<ActionView>, k: int)
    requires
        0 <= k <= actions.len(),
        tempo(actions) is Some,
    ensures
        tempo(actions.take(k)) is Some,
    decreases actions.len(),
{
    if k == actions.len() {
        assert(actions.take(k) =~= actions);
    } else {
        lemma_tempo_prefix(actions.drop_last(), k);
        assert(actions.drop_last().take(k) =~= actions.take(k));
    }
}

// ---------------------------------------------------------------------------
// The trace of a log.

/// The least of `p`, `2 * p`, `4 * p`, ... that is not below `n`.
pub open spec fn doubled(n: int, p: int) -> int
    decreases
            if n > p {
                n - p
            } else {
                0
            },
{
    if p <= 0 || p >= n {
        p
    } else {
        doubled(n, 2 * p)
    }
}

/// How many slots a log needs: the least power of two that holds all
/// instructions in flight.
pub open spec fn slots_for(max_in_flight: u32) -> int {
    doubled(max_in_flight as int, 1)
}

/// What the schema of a log describes.
pub open spec fn log_plan(
    stages: Seq<Seq<char>>,
    max_in_flight: u32,
    period: u32,
    dut_name: Seq<char>,
) -> CpuPlan {
    CpuPlan {
        scope_name: dut_name,
        isa: Seq::empty(),
        pipeline_stages: stages,
        fetch_width: None,
        commit_width: None,
        elf_path: None,
        vendor: None,
        entity_slots: slots_for(max_in_flight) as u16,
        clock_period_ps: period,
        buffers: Seq::empty(),
        counters: seq!["committed_insns"@],
        stall_reasons: default_stall_reasons(),
    }
}

/// The schema of a plan, with the properties of the CPU in its string pool.
pub open spec fn schema_of(plan: CpuPlan) -> SchemaView {
    let d = cpu_draft(plan);
    Draft { pool: d.pool.insert_all(property_texts(cpu_properties(plan))), ..d }.finished()
}

/// The description of the design of a plan.
pub open spec fn dut_of(plan: CpuPlan) -> DutDescView {
    dut_desc(
        cpu_draft(plan).pool.insert_all(property_texts(cpu_properties(plan))),
        cpu_properties(plan),
    )
}

/// Whether the names of a plan fit in a string pool.
pub open spec fn plan_fits(plan: CpuPlan) -> bool {
    Pool::empty().fits_all(cpu_names(plan)) && cpu_draft(plan).pool.fits_all(
        property_texts(cpu_properties(plan)),
    )
}

/// Whether `res` is what emitting the trace of some commands gives.
pub open spec fn emitted(
    cmds: Seq<CmdView>,
    stages: Seq<Seq<char>>,
    max_in_flight: u32,
    period: u64,
    dut_name: Seq<char>,
    res: Result<Vec<u8>, TraceError>,
) -> bool {
    match script_of(cmds, period, stages) {
        Err(e) => res == Err::<Vec<u8>, TraceError>(e),
        Ok(script) => if period > u32::MAX {
            res == Err::<Vec<u8>, TraceError>(TraceError::PeriodTooLarge)
        } else if max_in_flight > 0x8000_0000 {
            res == Err::<Vec<u8>, TraceError>(TraceError::TooManyInstructions)
        } else {
            let plan = log_plan(stages, max_in_flight, period as u32, dut_name);
            let interval = (period * 1000) as u64;
            if !plan_fits(plan) {
                res == Err::<Vec<u8>, TraceError>(TraceError::StringPoolFull)
            } else {
                match create_error(dut_of(plan), schema_of(plan), interval) {
                    Some(e) => res == Err::<Vec<u8>, TraceError>(e),
                    None => comes_to(
                        fresh(dut_of(plan), schema_of(plan), interval),
                        script,
                        cpu_ids(plan),
                        res,
                    ),
                }
            }
        },
    }
}

/// The least power of two that is not below `n`.
fn next_power_of_two(n: u32) -> (p: u32)
    requires
        n <= 0x8000_0000,
    ensures
        p == doubled(n as int, 1),
{
    let mut p: u32 = 1;
    while p < n
        invariant
            n <= 0x8000_0000,
            0 < p,
            doubled(n as int, 1) == doubled(n as int, p as int),
        decreases
                if n > p {
                    n - p
                } else {
                    0
                },
    {
        p = p * 2;
    }
    p
}

/// Starts the trace of a plan.
fn start_trace(builder: CpuSchemaBuilder, interval: u64) -> (r: Result<
    (Writer, CpuWriter),
    TraceError,
>)
    ensures
        ({
            let plan = builder@;
            if !plan_fits(plan) {
                r == Err::<(Writer, CpuWriter), TraceError>(TraceError::StringPoolFull)
            } else {
                match create_error(dut_of(plan), schema_of(plan), interval) {
                    Some(e) => r == Err::<(Writer, CpuWriter), TraceError>(e),
                    None => {
                        &&& r is Ok
                        &&& r->Ok_0.0.wf()
                        &&& r->Ok_0.0@ == fresh(dut_of(plan), schema_of(plan), interval)
                        &&& r->Ok_0.1.ids@ == cpu_ids(plan)
                    },
                }
            }
        }),
{
    if !builder.fits() {
        return Err(TraceError::StringPoolFull);
    }
    let ghost plan = builder@;
    let (dut_builder, mut sb, ids) = builder.build();
    let dut = dut_builder.build(sb.strings_mut());
    let schema = sb.build();
    match Writer::create(&dut, &schema, interval) {
        Err(e) => Err(e),
        Ok(w) => Ok((w, CpuWriter::new(ids))),
    }
}

/// Performs all actions and closes the trace.
fn write_actions(
    w: Writer,
    cpu: &CpuWriter,
    actions: &Vec<Action>,
    Ghost(plan): Ghost<CpuPlan>,
    Ghost(interval): Ghost<u64>,
) -> (res: Result<Vec<u8>, TraceError>)
    requires
        w.wf(),
        w@ == fresh(dut_of(plan), schema_of(plan), interval),
        cpu.ids@ == cpu_ids(plan),
        for_log(plan),
        tempo(action_views(actions@)) is Some,
    ensures
        comes_to(w@, action_views(actions@), cpu_ids(plan), res),
{
    let ghost w0 = w@;
    let ghost all = action_views(actions@);
    let mut w = w;
    proof {
        reveal(storages_of);
        assert(cpu.ids@.counters =~= seq![("committed_insns"@, 1u16, 0u16)]);
    }
    match play(&mut w, cpu, actions, Ghost(plan)) {
        Err(e) => {
            return Err(e);
        },
        Ok(()) => {},
    }
    let ghost last = w@;
    proof {
        w.lemma_wf();
    }
    assert(played(w0, all, cpu.ids@, last));
    w.close()
}

/// Emits the trace of a log whose metadata are known. Cycles are converted to
/// picoseconds with the given clock period.
pub fn emit_pass(
    cmds: &Vec<KonataCmd>,
    scan: &ScanResult,
    clock_period_ps: u64,
    dut_name: &str,
) -> (res: Result<Vec<u8>, TraceError>)
    ensures
        emitted(
            cmd_views(cmds@),
            texts_of(scan.stage_names@),
            scan.max_in_flight,
            clock_period_ps,
            dut_name@,
            res,
        ),
{
    let ghost stages = texts_of(scan.stage_names@);
    let actions = match translate(cmds, clock_period_ps, &scan.stage_names) {
        Err(e) => return Err(e),
        Ok(a) => a,
    };
    if clock_period_ps > u32::MAX as u64 {
        return Err(TraceError::PeriodTooLarge);
    }
    if scan.max_in_flight > 0x8000_0000 {
        return Err(TraceError::TooManyInstructions);
    }
    let slots: u32 = next_power_of_two(scan.max_in_flight);
    let mut stage_refs: Vec<&str> = Vec::new();
    let mut i: usize = 0;
    while i < scan.stage_names.len()
        invariant
            i <= scan.stage_names@.len(),
            stages == texts_of(scan.stage_names@),
            texts(stage_refs@) == stages.take(i as int),
        decreases scan.stage_names@.len() - i,
    {
        let name = scan.stage_names[i].as_str();
        let ghost before = texts(stage_refs@);
        stage_refs.push(name);
        assert(texts(stage_refs@) =~= before.push(name@));
        i = i + 1;
        assert(texts(stage_refs@) =~= stages.take(i as int));
    }
    let ghost plan = log_plan(
        stages,
        scan.max_in_flight,
        clock_period_ps as u32,
        dut_name@,
    );
    proof {
        law_script_in_place(cmd_views(cmds@), cmds@.len() as int, clock_period_ps, stages);
    }
    let builder = CpuSchemaBuilder::new(dut_name).pipeline_stages(
        stage_refs.as_slice(),
    ).entity_slots(#[verifier::truncate] (slots as u16)).clock_period_ps(
        clock_period_ps as u32,
    ).counter("committed_insns");
    proof {
        assert(stages.take(i as int) =~= stages);
        assert(Seq::<Seq<char>>::empty().push("committed_insns"@) =~= seq!["committed_insns"@]);
        assert(builder@ =~= plan);
    }
    // A checkpoint every 1000 cycles.
    let interval: u64 = clock_period_ps * 1000;
    let (w, cpu) = match start_trace(builder, interval) {
        Err(e) => return Err(e),
        Ok(p) => p,
    };
    write_actions(w, &cpu, &actions, Ghost(plan), Ghost(interval))
}

/// Converts a log to a trace.
pub fn convert(cmds: &Vec<KonataCmd>, clock_period_ps: u64, dut_name: &str) -> (res: Result<
    Vec<u8>,
    TraceError,
>)
    ensures
        match scanned(cmd_views(cmds@), cmds@.len() as int) {
            Err(e) => res == Err::<Vec<u8>, TraceError>(e),
            Ok(s) => emitted(
                cmd_views(cmds@),
                s.stages,
                if s.peak > 1 {
                    s.peak
                } else {
                    1
                },
                clock_period_ps,
                dut_name@,
                res,
            ),
        },
{
    match scan_pass(cmds) {
        Err(e) => Err(e),
        Ok(scan) => emit_pass(cmds, &scan, clock_period_ps, dut_name),
    }
}

} // verus!
