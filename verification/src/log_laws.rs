//! What the lines of a log are in the trace that the log is converted to.

use vstd::prelude::*;
use crate::bytes::{lemma_u32_at, lemma_u32_bytes_len, u32_at, u32_bytes};
use crate::chars::parts;
use crate::cpu::load::{after_all, after_item, loaded, Context, Loading};
use crate::cpu::open_laws::plain_stages;
use crate::cpu::trace::trace_opened;
use crate::cpu::types::{DepKind, Dependency};
use crate::error::TraceError;
use crate::konata::{
    command_of, commands_of, line_command, long_at, number_at, passed_over, pc_of, CmdView,
};
use crate::konata_emit::{
    emitted, in_time, leaving, log_plan, place_from, said, step, steps, ActionView, Clock,
};
use crate::konata_laws::{law_converted_items, law_converted_opens, law_log_storages, told, Told};
use crate::protocols::cpu::{cpu_ids, CpuIdsView};
use crate::query::all_segments;
use crate::state::{TimedEventView, TimedItemView, TimedOp};
use crate::types::{DA_SLOT_ADD, DA_SLOT_CLEAR, DA_SLOT_SET};
use crate::writer::{table_insert, table_place};

verus! {

/// What some lines of a log come to: the cycle, the texts that are referred
/// to, and what is recorded.
#[verifier::ext_equal]
pub struct Logged {
    pub cycle: int,
    pub texts: Seq<Seq<char>>,
    pub items: Seq<TimedItemView>,
}

impl Logged {
    /// With an operation on a storage.
    pub open spec fn op(
        self,
        period: u64,
        action: u8,
        storage_id: u16,
        slot: u16,
        field_index: u16,
        value: u64,
    ) -> Logged {
        let time_ps = (self.cycle * period) as u64;
        let op = TimedOp { time_ps, action, storage_id, slot, field_index, value };
        Logged { items: self.items.push(TimedItemView::Op(op)), ..self }
    }

    /// With an event.
    pub open spec fn event(self, period: u64, event_type_id: u16, payload: Seq<u8>) -> Logged {
        let time_ps = (self.cycle * period) as u64;
        let ev = TimedEventView { time_ps, event_type_id, payload };
        Logged { items: self.items.push(TimedItemView::Event(ev)), ..self }
    }

    /// With an annotation of an instruction.
    pub open spec fn note(self, period: u64, id: u32, text: Seq<char>) -> Logged {
        let texts = table_insert(self.texts, text);
        let place = table_place(texts, text) as u32;
        Logged { texts, ..self }.event(period, 1, u32_bytes(id) + u32_bytes(place))
    }
}

/// What the fields of one more line come to. A line whose numbers are missing
/// or are none comes to nothing.
pub open spec fn with_fields(
    s: Logged,
    fields: Seq<Seq<char>>,
    period: u64,
    stages: Seq<Seq<char>>,
) -> Logged {
    let kind = fields[0];
    let numbers = number_at(fields, 1) is Some && number_at(fields, 2) is Some;
    let first = number_at(fields, 1)->Some_0;
    let second = number_at(fields, 2)->Some_0;
    let third = number_at(fields, 3)->Some_0;
    if kind == "C="@ && long_at(fields, 1) is Some {
        Logged { cycle: long_at(fields, 1)->Some_0 as int, ..s }
    } else if kind == "C"@ && long_at(fields, 1) is Some {
        Logged { cycle: s.cycle + long_at(fields, 1)->Some_0, ..s }
    } else if kind == "I"@ && numbers && number_at(fields, 3) is Some {
        s.op(period, DA_SLOT_SET, 0, first as u16, 0, first as u64).op(
            period,
            DA_SLOT_SET,
            0,
            first as u16,
            1,
            0,
        ).op(period, DA_SLOT_SET, 0, first as u16, 2, 0)
    } else if kind == "L"@ && numbers {
        let text = if fields.len() > 3 {
            fields[3]
        } else {
            Seq::empty()
        };
        (if second == 0 && pc_of(text) != 0 {
            s.op(period, DA_SLOT_SET, 0, first as u16, 1, pc_of(text))
        } else {
            s
        }).note(period, first, text)
    } else if kind == "S"@ && numbers && fields.len() > 3 {
        if second != 0 {
            s.note(period, first, "stall:"@ + fields[3])
        } else if stages.contains(fields[3]) {
            s.event(period, 0, u32_bytes(first).push(stages.index_of(fields[3]) as u8))
        } else {
            s
        }
    } else if kind == "R"@ && numbers && number_at(fields, 3) is Some {
        if third == 0 {
            s.op(period, DA_SLOT_CLEAR, 0, first as u16, 0, 0).op(
                period,
                DA_SLOT_ADD,
                1,
                0,
                0,
                1,
            )
        } else {
            s.event(period, 3, u32_bytes(first).push(0))
        }
    } else if kind == "W"@ && numbers {
        s.event(period, 2, (u32_bytes(second) + u32_bytes(first)).push(0))
    } else {
        s
    }
}

/// What the first `n` lines come to. Empty lines and comments come to nothing.
pub open spec fn logged(
    lines: Seq<Seq<char>>,
    n: int,
    period: u64,
    stages: Seq<Seq<char>>,
) -> Logged
    decreases n,
{
    if n <= 0 {
        Logged { cycle: 0, texts: Seq::empty(), items: Seq::empty() }
    } else {
        let before = logged(lines, n - 1, period, stages);
        let line = lines[n - 1];
        if line.len() == 0 || line[0] == '#' {
            before
        } else {
            with_fields(before, parts(line, '\t'), period, stages)
        }
    }
}

/// Whether the numbers are those of the schema of a log.
spec fn plain_ids(ids: CpuIdsView) -> bool {
    &&& ids.entities_storage_id == 0
    &&& ids.field_entity_id == 0
    &&& ids.field_pc == 1
    &&& ids.field_inst_bits == 2
    &&& ids.stage_transition_event_id == 0
    &&& ids.annotate_event_id == 1
    &&& ids.dependency_event_id == 2
    &&& ids.flush_event_id == 3
    &&& ids.counters == seq![("committed_insns"@, 1u16, 0u16)]
}

proof fn lemma_steps_prefix(
    cmds: Seq<CmdView>,
    c: CmdView,
    n: int,
    period: u64,
    stages: Seq<Seq<char>>,
)
    requires
        n <= cmds.len(),
    ensures
        steps(cmds.push(c), n, period, stages) == steps(cmds, n, period, stages),
    decreases n,
{
    if n > 0 {
        lemma_steps_prefix(cmds, c, n - 1, period, stages);
    }
}

/// Where a name is found is where it stands.
proof fn lemma_place(names: Seq<Seq<char>>, name: Seq<char>, i: int)
    requires
        names.no_duplicates(),
        0 <= i <= names.len(),
        forall|j: int| 0 <= j < i ==> #[trigger] names[j] != name,
    ensures
        place_from(names, name, i) == if names.contains(name) {
            Some(names.index_of(name))
        } else {
            None
        },
    decreases names.len() - i,
{
    if i < names.len() {
        if names[i] == name {
            assert(names.contains(name));
            let k = names.index_of(name);
            assert(names[k] == name && 0 <= k < names.len());
        } else {
            lemma_place(names, name, i + 1);
        }
    }
}

/// Whether what a writer was told is what some lines come to.
spec fn agree(t: Told, s: Logged) -> bool {
    t.strings == s.texts && t.items == s.items
}

/// Entering a cycle tells a writer its time, and nothing else.
proof fn lemma_told_in_time(
    actions: Seq<ActionView>,
    c: Clock,
    period: u64,
    ids: CpuIdsView,
)
    requires
        in_time(c, period) is Ok,
        told(actions, ids, 2).time == c.last_time,
    ensures
        ({
            let (now, first) = in_time(c, period)->Ok_0;
            let t = told(actions + first, ids, 2);
            &&& t.strings == told(actions, ids, 2).strings
            &&& t.items == told(actions, ids, 2).items
            &&& t.time == now.last_time
            &&& t.time == c.cycle * period
            &&& now.cycle == c.cycle
        }),
{
    let (now, first) = in_time(c, period)->Ok_0;
    if first.len() == 0 {
        assert(actions + first =~= actions);
    } else {
        let left = actions + leaving(c);
        let begin = ActionView::Begin { time_ps: now.last_time };
        lemma_told_leaving(actions, c, ids);
        assert(actions + first =~= left.push(begin));
        assert(left.push(begin).drop_last() =~= left);
    }
}

/// Leaving a cycle tells a writer nothing.
proof fn lemma_told_leaving(actions: Seq<ActionView>, c: Clock, ids: CpuIdsView)
    ensures
        told(actions + leaving(c), ids, 2) == told(actions, ids, 2),
{
    if c.started {
        assert((actions + leaving(c)).drop_last() =~= actions);
        assert((actions + leaving(c)).last() == ActionView::End);
    } else {
        assert(actions + leaving(c) =~= actions);
    }
}

/// What a command says is what the fields of its line come to.
proof fn lemma_told_said(
    actions: Seq<ActionView>,
    fields: Seq<Seq<char>>,
    period: u64,
    stages: Seq<Seq<char>>,
    ids: CpuIdsView,
    s: Logged,
)
    requires
        plain_ids(ids),
        stages.no_duplicates(),
        command_of(fields) is Some,
        agree(told(actions, ids, 2), s),
        told(actions, ids, 2).time == s.cycle * period,
        !(command_of(fields)->Some_0 is CycleAbsolute),
        !(command_of(fields)->Some_0 is CycleDelta),
        !(command_of(fields)->Some_0 is StageEnd),
    ensures
        ({
            let t = told(actions + said(command_of(fields)->Some_0, stages), ids, 2);
            let now = with_fields(s, fields, period, stages);
            &&& agree(t, now)
            &&& t.time == told(actions, ids, 2).time
            &&& now.cycle == s.cycle
        }),
{
    let cmd = command_of(fields)->Some_0;
    let more = said(cmd, stages);
    lemma_kinds();
    if let CmdView::StageStart { stage, .. } = cmd {
        lemma_place(stages, stage, 0);
        if stages.contains(stage) {
            let k = stages.index_of(stage);
            assert(stages[k] == stage);
        }
    }
    let t = told(actions, ids, 2);
    let time = t.time;
    let now = with_fields(s, fields, period, stages);
    if more.len() == 0 {
        assert(actions + more =~= actions);
    } else if more.len() == 1 {
        assert((actions + more).drop_last() =~= actions);
        assert((actions + more).last() == more[0]);
    } else {
        let one = actions.push(more[0]);
        assert(one.drop_last() =~= actions);
        assert(one.last() == more[0]);
        assert((actions + more).drop_last() =~= one);
        assert((actions + more).last() == more[1]);
        assert(told(one, ids, 2).strings == t.strings);
    }
    reveal_with_fuel(crate::protocols::cpu::counter_from, 2);
    let end = told(actions + more, ids, 2);
    match cmd {
        CmdView::Instruction { id, .. } => {
            assert(agree(end, now));
        },
        CmdView::Label { id, label_type, text } => {
            assert(agree(end, now));
        },
        CmdView::StageStart { id, lane, stage } => {
            assert(agree(end, now));
        },
        CmdView::Retire { id, retire_type, .. } => {
            assert(agree(end, now));
        },
        CmdView::Dependency { consumer, producer, .. } => {
            assert(agree(end, now));
        },
        _ => {},
    }
}

/// The kinds of lines are different words.
proof fn lemma_kinds()
    ensures
        "C="@ != "C"@,
        "C="@ != "I"@,
        "C="@ != "L"@,
        "C="@ != "S"@,
        "C="@ != "E"@,
        "C="@ != "R"@,
        "C="@ != "W"@,
        "C"@ != "I"@,
        "C"@ != "L"@,
        "C"@ != "S"@,
        "C"@ != "E"@,
        "C"@ != "R"@,
        "C"@ != "W"@,
        "I"@ != "L"@,
        "I"@ != "S"@,
        "I"@ != "E"@,
        "I"@ != "R"@,
        "I"@ != "W"@,
        "L"@ != "S"@,
        "L"@ != "E"@,
        "L"@ != "R"@,
        "L"@ != "W"@,
        "S"@ != "E"@,
        "S"@ != "R"@,
        "S"@ != "W"@,
        "E"@ != "R"@,
        "E"@ != "W"@,
        "R"@ != "W"@,
{
    reveal_strlit("C=");
    reveal_strlit("C");
    reveal_strlit("I");
    reveal_strlit("L");
    reveal_strlit("S");
    reveal_strlit("E");
    reveal_strlit("R");
    reveal_strlit("W");
    assert("C="@.len() == 2);
    assert("C"@[0] == 'C' && "I"@[0] == 'I' && "L"@[0] == 'L' && "S"@[0] == 'S');
    assert("E"@[0] == 'E' && "R"@[0] == 'R' && "W"@[0] == 'W');
}

/// What the commands of some lines tell a writer is what the lines come to.
proof fn lemma_lines_told(
    lines: Seq<Seq<char>>,
    n: int,
    period: u64,
    stages: Seq<Seq<char>>,
    ids: CpuIdsView,
)
    requires
        0 <= n <= lines.len(),
        plain_ids(ids),
        stages.no_duplicates(),
        ({
            let cmds = commands_of(lines, n);
            steps(cmds, cmds.len() as int, period, stages) is Ok
        }),
    ensures
        ({
            let cmds = commands_of(lines, n);
            let (c, actions) = steps(cmds, cmds.len() as int, period, stages)->Ok_0;
            let s = logged(lines, n, period, stages);
            &&& agree(told(actions, ids, 2), s)
            &&& told(actions, ids, 2).time == c.last_time
            &&& c.cycle == s.cycle
        }),
    decreases n,
{
    if n > 0 {
        let line = lines[n - 1];
        let old_cmds = commands_of(lines, n - 1);
        let k = old_cmds.len() as int;
        lemma_kinds();
        let fields = parts(line, '\t');
        let s = logged(lines, n - 1, period, stages);
        if passed_over(line) || line_command(line) is None {
            assert(commands_of(lines, n) == old_cmds);
            lemma_lines_told(lines, n - 1, period, stages, ids);
            assert(logged(lines, n, period, stages) == s);
        } else {
            let cmd = line_command(line)->Some_0;
            let cmds = old_cmds.push(cmd);
            assert(commands_of(lines, n) == cmds);
            lemma_steps_prefix(old_cmds, cmd, k, period, stages);
            assert(cmds[k] == cmd);
            assert(steps(cmds, k + 1, period, stages) is Ok);
            assert(steps(cmds, k, period, stages) is Ok);
            lemma_lines_told(lines, n - 1, period, stages, ids);
            let (c, actions) = steps(old_cmds, k, period, stages)->Ok_0;
            let (d, more) = step(c, cmd, period, stages)->Ok_0;
            match cmd {
                CmdView::CycleAbsolute(_) => {
                    lemma_told_leaving(actions, c, ids);
                },
                CmdView::CycleDelta(_) => {
                    lemma_told_leaving(actions, c, ids);
                },
                CmdView::StageEnd { .. } => {
                    assert(actions + Seq::<ActionView>::empty() =~= actions);
                    assert(fields[0] == "E"@);
                },
                _ => {
                    let first = in_time(c, period)->Ok_0.1;
                    lemma_told_in_time(actions, c, period, ids);
                    lemma_told_said(actions + first, fields, period, stages, ids, s);
                    assert(actions + (first + said(cmd, stages)) =~= (actions + first) + said(
                        cmd,
                        stages,
                    ));
                },
            }
        }
    }
}

/// Loading the trace that a log was converted to goes through what the lines
/// of the log come to, in their order, each at the time of its cycle.
pub proof fn law_log_items(
    lines: Seq<Seq<char>>,
    stages: Seq<Seq<char>>,
    max_in_flight: u32,
    period: u64,
    dut_name: Seq<char>,
    res: Result<Vec<u8>, TraceError>,
    file_name: Seq<char>,
    total_us: Seq<char>,
)
    requires
        emitted(
            commands_of(lines, lines.len() as int),
            stages,
            max_in_flight,
            period,
            dut_name,
            res,
        ),
        res is Ok,
        period > 0,
        plain_stages(stages),
        stages.no_duplicates(),
        stages.len() <= 255,
    ensures
        ({
            let t = trace_opened(res->Ok_0@, file_name, total_us)->Ok_0;
            let n = t.reader.table.len();
            let s = logged(lines, lines.len() as int, period, stages);
            &&& trace_opened(res->Ok_0@, file_name, total_us) is Ok
            &&& t.period_ps == period
            &&& t.ids.stage_names == stages
            &&& t.loading(all_segments(n), n as int) == after_all(
                Loading::empty(t.counters.len()),
                t.context(),
                s.items,
            )
            &&& t.reader.strings == if s.texts.len() == 0 {
                None
            } else {
                Some(s.texts)
            }
        }),
{
    let cmds = commands_of(lines, lines.len() as int);
    let plan = log_plan(stages, max_in_flight, period as u32, dut_name);
    let ids = cpu_ids(plan);
    law_converted_opens(
        cmds,
        stages,
        max_in_flight,
        period,
        dut_name,
        res,
        file_name,
        total_us,
    );
    law_converted_items(
        cmds,
        stages,
        max_in_flight,
        period,
        dut_name,
        res,
        file_name,
        total_us,
    );
    law_log_storages(stages, max_in_flight, period as u32, dut_name);
    assert(ids.counters =~= seq![("committed_insns"@, 1u16, 0u16)]);
    lemma_lines_told(lines, lines.len() as int, period, stages, ids);
    let (c, actions) = steps(cmds, cmds.len() as int, period, stages)->Ok_0;
    lemma_told_leaving(actions, c, ids);
}

// ---------------------------------------------------------------------------
// Dependencies.

/// The dependencies that some items record: an event of the type of
/// dependencies with the producer in its first four bytes, the consumer in the
/// next four and the type behind them, of which 3 is memory.
pub open spec fn recorded_dependencies(items: Seq<TimedItemView>, event_type_id: u16) -> Seq<
    Dependency,
>
    decreases items.len(),
{
    if items.len() == 0 {
        Seq::empty()
    } else {
        let before = recorded_dependencies(items.drop_last(), event_type_id);
        match items.last() {
            TimedItemView::Event(ev) => if ev.event_type_id == event_type_id && ev.payload.len()
                >= 9 {
                before.push(
                    Dependency {
                        producer: u32_at(ev.payload, 0),
                        consumer: u32_at(ev.payload, 4),
                        kind: if ev.payload[8] == 3 {
                            DepKind::Memory
                        } else {
                            DepKind::Data
                        },
                    },
                )
            } else {
                before
            },
            TimedItemView::Op(_) => before,
        }
    }
}

/// Loading finds every dependency that was recorded, in order, and no other.
pub proof fn law_recorded_dependencies(l: Loading, ctx: Context, items: Seq<TimedItemView>)
    requires
        after_all(l, ctx, items) is Ok,
        ctx.ids.dependency_event_id != ctx.ids.stage_transition_event_id,
        ctx.ids.dependency_event_id != ctx.ids.flush_event_id,
        ctx.ids.dependency_event_id != ctx.ids.annotate_event_id,
    ensures
        after_all(l, ctx, items)->Ok_0.dependencies == l.dependencies + recorded_dependencies(
            items,
            ctx.ids.dependency_event_id,
        ),
    decreases items.len(),
{
    let found = recorded_dependencies(items, ctx.ids.dependency_event_id);
    if items.len() > 0 {
        let m = after_all(l, ctx, items.drop_last())->Ok_0;
        law_recorded_dependencies(l, ctx, items.drop_last());
        let done = after_item(m, ctx, items.last())->Ok_0;
        match items.last() {
            TimedItemView::Op(op) => {
                assert(done.dependencies == m.dependencies);
            },
            TimedItemView::Event(ev) => {
                assert(done.dependencies =~= l.dependencies + found);
            },
        }
    } else {
        assert(l.dependencies + found =~= l.dependencies);
    }
}

/// The dependencies that the first `n` lines of a log speak of: a line "W" has
/// the consumer first and the producer behind it.
pub open spec fn line_dependencies(lines: Seq<Seq<char>>, n: int) -> Seq<Dependency>
    decreases n,
{
    if n <= 0 {
        Seq::empty()
    } else {
        let before = line_dependencies(lines, n - 1);
        let line = lines[n - 1];
        let fields = parts(line, '\t');
        match (number_at(fields, 1), number_at(fields, 2)) {
            (Some(a), Some(b)) => if line.len() > 0 && line[0] != '#' && fields[0] == "W"@ {
                before.push(Dependency { producer: b, consumer: a, kind: DepKind::Data })
            } else {
                before
            },
            _ => before,
        }
    }
}

/// The bytes that are recorded of the dependencies that the first `n` lines of
/// a log speak of: those of the second number, those of the first, and a zero.
pub open spec fn line_payloads(lines: Seq<Seq<char>>, n: int) -> Seq<Seq<u8>>
    decreases n,
{
    if n <= 0 {
        Seq::empty()
    } else {
        let before = line_payloads(lines, n - 1);
        let line = lines[n - 1];
        let fields = parts(line, '\t');
        match (number_at(fields, 1), number_at(fields, 2)) {
            (Some(a), Some(b)) => if line.len() > 0 && line[0] != '#' && fields[0] == "W"@ {
                before.push((u32_bytes(b) + u32_bytes(a)).push(0))
            } else {
                before
            },
            _ => before,
        }
    }
}

/// The payloads of the events of a type.
pub open spec fn event_payloads(items: Seq<TimedItemView>, event_type_id: u16) -> Seq<Seq<u8>>
    decreases items.len(),
{
    if items.len() == 0 {
        Seq::empty()
    } else {
        let before = event_payloads(items.drop_last(), event_type_id);
        match items.last() {
            TimedItemView::Event(ev) => if ev.event_type_id == event_type_id {
                before.push(ev.payload)
            } else {
                before
            },
            TimedItemView::Op(_) => before,
        }
    }
}

/// Whether the dependencies among some items are the same as among others.
spec fn same_dependencies(a: Logged, b: Logged) -> bool {
    &&& recorded_dependencies(a.items, 2) == recorded_dependencies(b.items, 2)
    &&& event_payloads(a.items, 2) == event_payloads(b.items, 2)
}

proof fn lemma_other_op(
    s: Logged,
    period: u64,
    action: u8,
    storage_id: u16,
    slot: u16,
    field_index: u16,
    value: u64,
)
    ensures
        same_dependencies(s, s.op(period, action, storage_id, slot, field_index, value)),
{
    let now = s.op(period, action, storage_id, slot, field_index, value);
    assert(now.items.drop_last() =~= s.items);
}

proof fn lemma_other_event(s: Logged, period: u64, event_type_id: u16, payload: Seq<u8>)
    requires
        event_type_id != 2,
    ensures
        same_dependencies(s, s.event(period, event_type_id, payload)),
{
    let now = s.event(period, event_type_id, payload);
    assert(now.items.drop_last() =~= s.items);
}

proof fn lemma_other_note(s: Logged, period: u64, id: u32, text: Seq<char>)
    ensures
        same_dependencies(s, s.note(period, id, text)),
{
    let texts = table_insert(s.texts, text);
    let place = table_place(texts, text) as u32;
    lemma_other_event(Logged { texts, ..s }, period, 1, u32_bytes(id) + u32_bytes(place));
}

/// Only lines "W" come to dependencies.
proof fn lemma_other_fields(
    s: Logged,
    fields: Seq<Seq<char>>,
    period: u64,
    stages: Seq<Seq<char>>,
)
    requires
        !(fields[0] == "W"@ && number_at(fields, 1) is Some && number_at(fields, 2) is Some),
    ensures
        same_dependencies(s, with_fields(s, fields, period, stages)),
{
    lemma_kinds();
    let id = number_at(fields, 1)->Some_0;
    let slot = id as u16;
    if fields[0] == "I"@ {
        let x = s.op(period, DA_SLOT_SET, 0, slot, 0, id as u64);
        let y = x.op(period, DA_SLOT_SET, 0, slot, 1, 0);
        lemma_other_op(s, period, DA_SLOT_SET, 0, slot, 0, id as u64);
        lemma_other_op(x, period, DA_SLOT_SET, 0, slot, 1, 0);
        lemma_other_op(y, period, DA_SLOT_SET, 0, slot, 2, 0);
    } else if fields[0] == "L"@ {
        let text = if fields.len() > 3 {
            fields[3]
        } else {
            Seq::empty()
        };
        let x = s.op(period, DA_SLOT_SET, 0, slot, 1, pc_of(text));
        lemma_other_op(s, period, DA_SLOT_SET, 0, slot, 1, pc_of(text));
        lemma_other_note(x, period, id, text);
        lemma_other_note(s, period, id, text);
    } else if fields[0] == "S"@ {
        lemma_other_note(s, period, id, "stall:"@ + fields[3]);
        lemma_other_event(
            s,
            period,
            0,
            u32_bytes(id).push(stages.index_of(fields[3]) as u8),
        );
    } else if fields[0] == "R"@ {
        let x = s.op(period, DA_SLOT_CLEAR, 0, slot, 0, 0);
        lemma_other_op(s, period, DA_SLOT_CLEAR, 0, slot, 0, 0);
        lemma_other_op(x, period, DA_SLOT_ADD, 1, 0, 0, 1);
        lemma_other_event(s, period, 3, u32_bytes(id).push(0));
    }
}

proof fn lemma_line_dependencies(
    lines: Seq<Seq<char>>,
    n: int,
    period: u64,
    stages: Seq<Seq<char>>,
)
    requires
        n <= lines.len(),
    ensures
        recorded_dependencies(logged(lines, n, period, stages).items, 2) == line_dependencies(
            lines,
            n,
        ),
        event_payloads(logged(lines, n, period, stages).items, 2) == line_payloads(lines, n),
    decreases n,
{
    if n > 0 {
        lemma_line_dependencies(lines, n - 1, period, stages);
        lemma_kinds();
        let s = logged(lines, n - 1, period, stages);
        let now = logged(lines, n, period, stages);
        let line = lines[n - 1];
        let fields = parts(line, '\t');
        if line.len() > 0 && line[0] != '#' {
            if fields[0] == "W"@ && number_at(fields, 1) is Some && number_at(fields, 2) is Some {
                let a = number_at(fields, 1)->Some_0;
                let b = number_at(fields, 2)->Some_0;
                let p = (u32_bytes(b) + u32_bytes(a)).push(0);
                lemma_u32_bytes_len(a);
                lemma_u32_bytes_len(b);
                assert(p.subrange(0, 4) =~= u32_bytes(b));
                assert(p.subrange(4, 8) =~= u32_bytes(a));
                lemma_u32_at(p, 0, b);
                lemma_u32_at(p, 4, a);
                assert(now.items.drop_last() =~= s.items);
                assert(now.items.last()->Event_0.payload == p);
            } else {
                lemma_other_fields(s, fields, period, stages);
            }
        }
    }
}

/// Every line "W" of a log with the numbers `a` and `b` is a dependency in the
/// trace that the log is converted to, in the order of the lines: recorded as
/// an event with the bytes of `b` before those of `a`, and loaded with `b` as
/// the producer and `a` as the consumer. There are no other dependencies.
pub proof fn law_log_dependencies(
    lines: Seq<Seq<char>>,
    stages: Seq<Seq<char>>,
    max_in_flight: u32,
    period: u64,
    dut_name: Seq<char>,
    res: Result<Vec<u8>, TraceError>,
    file_name: Seq<char>,
    total_us: Seq<char>,
    mnemonics: Option<Seq<(u32, Seq<char>)>>,
)
    requires
        emitted(
            commands_of(lines, lines.len() as int),
            stages,
            max_in_flight,
            period,
            dut_name,
            res,
        ),
        res is Ok,
        period > 0,
        plain_stages(stages),
        stages.no_duplicates(),
        stages.len() <= 255,
    ensures
        ({
            let t = trace_opened(res->Ok_0@, file_name, total_us)->Ok_0;
            let n = t.reader.table.len();
            let s = logged(lines, lines.len() as int, period, stages);
            let found = line_dependencies(lines, lines.len() as int);
            &&& trace_opened(res->Ok_0@, file_name, total_us) is Ok
            &&& t.loading(all_segments(n), n as int) == after_all(
                Loading::empty(t.counters.len()),
                t.context(),
                s.items,
            )
            &&& event_payloads(s.items, t.ids.dependency_event_id) == line_payloads(
                lines,
                lines.len() as int,
            )
            &&& t.loading(all_segments(n), n as int) matches Ok(l) ==> l.dependencies == found
            &&& t.loaded(all_segments(n), mnemonics) matches Ok(r) ==> r.dependencies == found
        }),
{
    let count = lines.len() as int;
    law_log_items(
        lines,
        stages,
        max_in_flight,
        period,
        dut_name,
        res,
        file_name,
        total_us,
    );
    law_converted_opens(
        commands_of(lines, count),
        stages,
        max_in_flight,
        period,
        dut_name,
        res,
        file_name,
        total_us,
    );
    lemma_line_dependencies(lines, count, period, stages);
    let t = trace_opened(res->Ok_0@, file_name, total_us)->Ok_0;
    let none = Loading::empty(t.counters.len());
    let items = logged(lines, count, period, stages).items;
    if after_all(none, t.context(), items) is Ok {
        law_recorded_dependencies(none, t.context(), items);
        assert(none.dependencies + line_dependencies(lines, count) =~= line_dependencies(
            lines,
            count,
        ));
    }
}

} // verus!
