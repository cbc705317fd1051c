//! Konata (Kanata v0004) pipeline trace logs: commands, metadata, and what they
//! say of a CPU.

use flate2::read::GzDecoder;
use std::collections::HashSet;
use std::io::Read;
use vstd::prelude::*;
use vstd::string::StringExecFns;
use vstd::utf8::{decode_utf8, valid_utf8};
use crate::chars::{char_seqs, chars_of, parse_number, parsed, parts, split, text_of};
use crate::cpu::builder::{bare_address, find_address, first_word};
use crate::error::TraceError;
use crate::numerals::texts_of;
use crate::text::{str_eq, utf8_str};

verus! {

broadcast use vstd::std_specs::hash::group_hash_axioms;

/// Parsed Konata command.
#[derive(Debug)]
pub enum KonataCmd {
    /// `C=\t<cycle>`: set absolute cycle.
    CycleAbsolute(u64),
    /// `C\t<delta>`: advance by delta cycles.
    CycleDelta(u64),
    /// `I\t<id>\t<gid>\t<tid>`: create instruction.
    Instruction { id: u32, gid: u32, tid: u32 },
    /// `L\t<id>\t<type>\t<text>`: label.
    Label { id: u32, label_type: u32, text: String },
    /// `S\t<id>\t<lane>\t<stage>`: start stage.
    StageStart { id: u32, lane: u32, stage: String },
    /// `E\t<id>\t<lane>\t<stage>`: end stage.
    StageEnd { id: u32, lane: u32, stage: String },
    /// `R\t<id>\t<rid>\t<type>`: retire (0) or flush (1).
    Retire { id: u32, rid: u32, retire_type: u32 },
    /// `W\t<consumer>\t<producer>\t<type>`: dependency.
    Dependency { consumer: u32, producer: u32, dep_type: u32 },
}

/// What a `KonataCmd` says.
#[verifier::ext_equal]
pub enum CmdView {
    CycleAbsolute(u64),
    CycleDelta(u64),
    Instruction { id: u32, gid: u32, tid: u32 },
    Label { id: u32, label_type: u32, text: Seq<char> },
    StageStart { id: u32, lane: u32, stage: Seq<char> },
    StageEnd { id: u32, lane: u32, stage: Seq<char> },
    Retire { id: u32, rid: u32, retire_type: u32 },
    Dependency { consumer: u32, producer: u32, dep_type: u32 },
}

impl View for KonataCmd {
    type V = CmdView;

    open spec fn view(&self) -> CmdView {
        match self {
            KonataCmd::CycleAbsolute(c) => CmdView::CycleAbsolute(*c),
            KonataCmd::CycleDelta(d) => CmdView::CycleDelta(*d),
            KonataCmd::Instruction { id, gid, tid } => CmdView::Instruction {
                id: *id,
                gid: *gid,
                tid: *tid,
            },
            KonataCmd::Label { id, label_type, text } => CmdView::Label {
                id: *id,
                label_type: *label_type,
                text: text@,
            },
            KonataCmd::StageStart { id, lane, stage } => CmdView::StageStart {
                id: *id,
                lane: *lane,
                stage: stage@,
            },
            KonataCmd::StageEnd { id, lane, stage } => CmdView::StageEnd {
                id: *id,
                lane: *lane,
                stage: stage@,
            },
            KonataCmd::Retire { id, rid, retire_type } => CmdView::Retire {
                id: *id,
                rid: *rid,
                retire_type: *retire_type,
            },
            KonataCmd::Dependency { consumer, producer, dep_type } => CmdView::Dependency {
                consumer: *consumer,
                producer: *producer,
                dep_type: *dep_type,
            },
        }
    }
}

// ---------------------------------------------------------------------------
// Lines.

/// Field `i` of a line as a number of 32 bits.
pub open spec fn number_at(fields: Seq<Seq<char>>, i: int) -> Option<u32> {
    if i < fields.len() {
        match parsed(fields[i], 10, u32::MAX as nat) {
            Some(n) => Some(n as u32),
            None => None,
        }
    } else {
        None
    }
}

/// Field `i` of a line as a number of 64 bits.
pub open spec fn long_at(fields: Seq<Seq<char>>, i: int) -> Option<u64> {
    if i < fields.len() {
        match parsed(fields[i], 10, u64::MAX as nat) {
            Some(n) => Some(n as u64),
            None => None,
        }
    } else {
        None
    }
}

/// The command that the fields of a line make.
pub open spec fn command_of(fields: Seq<Seq<char>>) -> Option<CmdView> {
    let kind = fields[0];
    let (a, b, c) = (number_at(fields, 1), number_at(fields, 2), number_at(fields, 3));
    if kind == "C="@ {
        match long_at(fields, 1) {
            Some(n) => Some(CmdView::CycleAbsolute(n)),
            None => None,
        }
    } else if kind == "C"@ {
        match long_at(fields, 1) {
            Some(n) => Some(CmdView::CycleDelta(n)),
            None => None,
        }
    } else if kind == "I"@ {
        match (a, b, c) {
            (Some(id), Some(gid), Some(tid)) => Some(CmdView::Instruction { id, gid, tid }),
            _ => None,
        }
    } else if kind == "L"@ {
        match (a, b) {
            (Some(id), Some(label_type)) => Some(
                CmdView::Label {
                    id,
                    label_type,
                    text: if fields.len() > 3 {
                        fields[3]
                    } else {
                        Seq::empty()
                    },
                },
            ),
            _ => None,
        }
    } else if kind == "S"@ {
        match (a, b) {
            (Some(id), Some(lane)) => if fields.len() > 3 {
                Some(CmdView::StageStart { id, lane, stage: fields[3] })
            } else {
                None
            },
            _ => None,
        }
    } else if kind == "E"@ {
        match (a, b) {
            (Some(id), Some(lane)) => if fields.len() > 3 {
                Some(CmdView::StageEnd { id, lane, stage: fields[3] })
            } else {
                None
            },
            _ => None,
        }
    } else if kind == "R"@ {
        match (a, b, c) {
            (Some(id), Some(rid), Some(retire_type)) => Some(
                CmdView::Retire { id, rid, retire_type },
            ),
            _ => None,
        }
    } else if kind == "W"@ {
        match (a, b) {
            (Some(consumer), Some(producer)) => Some(
                CmdView::Dependency {
                    consumer,
                    producer,
                    dep_type: match c {
                        Some(t) => t,
                        None => 0,
                    },
                },
            ),
            _ => None,
        }
    } else {
        None
    }
}

/// The command of a line, whose fields stand between tabs.
pub open spec fn line_command(line: Seq<char>) -> Option<CmdView> {
    command_of(parts(line, '\t'))
}

fn get_number(fields: &Vec<Vec<char>>, i: usize) -> (r: Option<u32>)
    ensures
        r == number_at(char_seqs(fields@), i as int),
{
    if i >= fields.len() {
        return None;
    }
    let f = &fields[i];
    assert(char_seqs(fields@)[i as int] == f@);
    assert(f@.subrange(0, f@.len() as int) =~= f@);
    match parse_number(f, 0, f.len(), 10, u32::MAX as u64) {
        Some(n) => Some(n as u32),
        None => None,
    }
}

fn get_long(fields: &Vec<Vec<char>>, i: usize) -> (r: Option<u64>)
    ensures
        r == long_at(char_seqs(fields@), i as int),
{
    if i >= fields.len() {
        return None;
    }
    let f = &fields[i];
    assert(char_seqs(fields@)[i as int] == f@);
    assert(f@.subrange(0, f@.len() as int) =~= f@);
    parse_number(f, 0, f.len(), 10, u64::MAX)
}

/// The text of a field.
fn get_text(fields: &Vec<Vec<char>>, i: usize) -> (s: String)
    requires
        i < fields@.len(),
    ensures
        s@ == char_seqs(fields@)[i as int],
{
    let f = &fields[i];
    assert(f@.subrange(0, f@.len() as int) =~= f@);
    text_of(f, 0, f.len())
}

/// Parses a command whose numbers come first and whose kind has only numbers.
fn parse_numbers(kind: &str, fields: &Vec<Vec<char>>) -> (r: Option<KonataCmd>)
    requires
        fields@.len() > 0,
        kind@ == char_seqs(fields@)[0],
        kind@ == "C="@ || kind@ == "C"@ || kind@ == "I"@ || kind@ == "R"@ || kind@ == "W"@,
    ensures
        match command_of(char_seqs(fields@)) {
            Some(c) => r is Some && r->Some_0@ == c,
            None => r is None,
        },
{
    proof {
        reveal_strlit("C=");
        reveal_strlit("C");
        reveal_strlit("I");
        reveal_strlit("L");
        reveal_strlit("S");
        reveal_strlit("E");
        reveal_strlit("R");
        reveal_strlit("W");
        assert("C="@.len() == 2);
        assert("C"@[0] == 'C' && "I"@[0] == 'I' && "L"@[0] == 'L' && "S"@[0] == 'S');
        assert("E"@[0] == 'E' && "R"@[0] == 'R' && "W"@[0] == 'W');
    }
    if str_eq(kind, "C=") {
        return match get_long(fields, 1) {
            Some(n) => Some(KonataCmd::CycleAbsolute(n)),
            None => None,
        };
    }
    if str_eq(kind, "C") {
        return match get_long(fields, 1) {
            Some(n) => Some(KonataCmd::CycleDelta(n)),
            None => None,
        };
    }
    let a: u32 = match get_number(fields, 1) {
        Some(n) => n,
        None => return None,
    };
    let b: u32 = match get_number(fields, 2) {
        Some(n) => n,
        None => return None,
    };
    let c: Option<u32> = get_number(fields, 3);
    if str_eq(kind, "W") {
        let dep_type: u32 = match c {
            Some(t) => t,
            None => 0,
        };
        return Some(KonataCmd::Dependency { consumer: a, producer: b, dep_type });
    }
    match c {
        Some(n) => if str_eq(kind, "I") {
            Some(KonataCmd::Instruction { id: a, gid: b, tid: n })
        } else {
            Some(KonataCmd::Retire { id: a, rid: b, retire_type: n })
        },
        None => None,
    }
}

/// Parses a command with a text behind its numbers.
fn parse_text(kind: &str, fields: &Vec<Vec<char>>) -> (r: Option<KonataCmd>)
    requires
        fields@.len() > 0,
        kind@ == char_seqs(fields@)[0],
        kind@ == "L"@ || kind@ == "S"@ || kind@ == "E"@,
    ensures
        match command_of(char_seqs(fields@)) {
            Some(c) => r is Some && r->Some_0@ == c,
            None => r is None,
        },
{
    proof {
        reveal_strlit("C=");
        reveal_strlit("C");
        reveal_strlit("I");
        reveal_strlit("L");
        reveal_strlit("S");
        reveal_strlit("E");
        assert("C="@.len() == 2);
        assert("C"@[0] == 'C' && "I"@[0] == 'I' && "L"@[0] == 'L' && "S"@[0] == 'S');
        assert("E"@[0] == 'E');
    }
    let id: u32 = match get_number(fields, 1) {
        Some(n) => n,
        None => return None,
    };
    let b: u32 = match get_number(fields, 2) {
        Some(n) => n,
        None => return None,
    };
    if str_eq(kind, "L") {
        let text: String = if fields.len() > 3 {
            get_text(fields, 3)
        } else {
            String::new()
        };
        let cmd = KonataCmd::Label { id, label_type: b, text };
        proof {
            if fields@.len() <= 3 {
                assert(text@ =~= Seq::<char>::empty());
            }
        }
        return Some(cmd);
    }
    if fields.len() <= 3 {
        return None;
    }
    let stage = get_text(fields, 3);
    if str_eq(kind, "S") {
        Some(KonataCmd::StageStart { id, lane: b, stage })
    } else {
        Some(KonataCmd::StageEnd { id, lane: b, stage })
    }
}

/// Parses a line.
pub fn parse_line(line: &str) -> (r: Option<KonataCmd>)
    ensures
        match line_command(line@) {
            Some(c) => r is Some && r->Some_0@ == c,
            None => r is None,
        },
{
    let v = chars_of(line);
    let fields = split(&v, '\t');
    proof {
        crate::chars::law_parts_joined(line@, '\t', 0, 0);
    }
    assert(char_seqs(fields@).len() == fields@.len());
    let kind = get_text(&fields, 0);
    let k = kind.as_str();
    if str_eq(k, "C=") || str_eq(k, "C") || str_eq(k, "I") || str_eq(k, "R") || str_eq(k, "W") {
        parse_numbers(k, &fields)
    } else if str_eq(k, "L") || str_eq(k, "S") || str_eq(k, "E") {
        parse_text(k, &fields)
    } else {
        None
    }
}

/// Whether a line is passed over: empty lines and comments are.
pub open spec fn passed_over(line: Seq<char>) -> bool {
    line.len() == 0 || line[0] == '#'
}

/// The commands of the first `n` lines.
pub open spec fn commands_of(lines: Seq<Seq<char>>, n: int) -> Seq<CmdView>
    decreases n,
{
    if n <= 0 {
        Seq::empty()
    } else {
        let before = commands_of(lines, n - 1);
        let line = lines[n - 1];
        match line_command(line) {
            Some(c) if !passed_over(line) => before.push(c),
            _ => before,
        }
    }
}

/// The views of some commands.
pub open spec fn cmd_views(cmds: Seq<KonataCmd>) -> Seq<CmdView> {
    cmds.map_values(|c: KonataCmd| c@)
}

/// Whether a line starts with a number sign or is empty.
fn skips(line: &str) -> (b: bool)
    ensures
        b == passed_over(line@),
{
    let v = chars_of(line);
    v.len() == 0 || v[0] == '#'
}

/// Parses all lines. Lines that are no command are passed over.
pub fn parse_lines(lines: &Vec<String>) -> (cmds: Vec<KonataCmd>)
    ensures
        cmd_views(cmds@) == commands_of(texts_of(lines@), lines@.len() as int),
{
    let ghost all = texts_of(lines@);
    let mut cmds: Vec<KonataCmd> = Vec::new();
    let mut i: usize = 0;
    assert(cmd_views(cmds@) =~= Seq::<CmdView>::empty());
    while i < lines.len()
        invariant
            i <= lines@.len(),
            all == texts_of(lines@),
            cmd_views(cmds@) == commands_of(all, i as int),
        decreases lines@.len() - i,
    {
        let line = lines[i].as_str();
        assert(all[i as int] == line@);
        if !skips(line) {
            match parse_line(line) {
                Some(c) => {
                    let ghost before = cmd_views(cmds@);
                    cmds.push(c);
                    assert(cmd_views(cmds@) =~= before.push(c@));
                },
                None => {},
            }
        }
        i = i + 1;
    }
    cmds
}

/// The address at the start of a disassembly, 0 where there is none: in
/// hexadecimal, with at least four digits.
pub open spec fn pc_of(text: Seq<char>) -> u64 {
    let digits = bare_address(first_word(text));
    match parsed(digits, 16, u64::MAX as nat) {
        Some(n) => if digits.len() >= 4 {
            n as u64
        } else {
            0
        },
        None => 0,
    }
}

/// Extract PC from a disassembly label if it starts with a hex address, such as
/// "80000000 addi x0, x0, 0", "0x80000000 addi x0, x0, 0" or "00001000: jal
/// zero, 0x10".
pub fn extract_pc(text: &str) -> (pc: u64)
    ensures
        pc == pc_of(text@),
{
    let v = chars_of(text);
    let (from, to) = find_address(&v);
    if to - from < 4 {
        return 0;
    }
    match parse_number(&v, from, to, 16, u64::MAX) {
        Some(pc) => pc,
        None => 0,
    }
}

// ---------------------------------------------------------------------------
// Reading a log.

/// What `flate2::read::GzDecoder` makes of a gzip stream: what it was made
/// from, or nothing where it is not one.
pub uninterp spec fn gz_decoded(data: Seq<u8>) -> Option<Seq<u8>>;

/// `flate2::read::GzDecoder`, read to its end: what comes out depends on the
/// stream alone, and nothing comes out where the stream is not valid.
#[verifier::external_body]
fn gunzip(data: &[u8]) -> (r: Option<Vec<u8>>)
    ensures
        match gz_decoded(data@) {
            Some(raw) => r is Some && r->Some_0@ == raw,
            None => r is None,
        },
{
    let mut out: Vec<u8> = Vec::new();
    match GzDecoder::new(data).read_to_end(&mut out) {
        Ok(_) => Some(out),
        Err(_) => None,
    }
}

/// Whether a path ends in ".gz".
pub open spec fn names_gzip(path: Seq<char>) -> bool {
    let n = path.len() as int;
    n >= 3 && path[n - 3] == '.' && path[n - 2] == 'g' && path[n - 1] == 'z'
}

/// The log that a file holds.
pub open spec fn log_of(path: Seq<char>, data: Seq<u8>) -> Result<Seq<u8>, TraceError> {
    if names_gzip(path) {
        match gz_decoded(data) {
            Some(raw) => Ok(raw),
            None => Err(TraceError::Gunzip),
        }
    } else {
        Ok(data)
    }
}

/// The log that a file with the given path and contents holds, auto-detecting
/// gzip.
pub fn open_input(path: &str, data: Vec<u8>) -> (r: Result<Vec<u8>, TraceError>)
    ensures
        match log_of(path@, data@) {
            Ok(log) => r is Ok && r->Ok_0@ == log,
            Err(e) => r == Err::<Vec<u8>, TraceError>(e),
        },
{
    let v = chars_of(path);
    let n: usize = v.len();
    if n >= 3 && v[n - 3] == '.' && v[n - 2] == 'g' && v[n - 1] == 'z' {
        match gunzip(data.as_slice()) {
            Some(raw) => Ok(raw),
            None => Err(TraceError::Gunzip),
        }
    } else {
        Ok(data)
    }
}

/// A line without a carriage return at its end.
pub open spec fn without_return(line: Seq<u8>) -> Seq<u8> {
    if line.len() > 0 && line.last() == 13 {
        line.drop_last()
    } else {
        line
    }
}

/// The lines of a log, the first starting at `start`; between `start` and `i`
/// there is no line feed.
pub open spec fn lines_from(data: Seq<u8>, start: int, i: int) -> Seq<Seq<u8>>
    decreases data.len() - i,
{
    if i >= data.len() {
        if start < data.len() {
            seq![data.subrange(start, data.len() as int)]
        } else {
            Seq::empty()
        }
    } else if data[i] == 10 {
        seq![without_return(data.subrange(start, i))] + lines_from(data, i + 1, i + 1)
    } else {
        lines_from(data, start, i + 1)
    }
}

/// The texts of some lines, where all are UTF-8.
pub open spec fn line_texts(lines: Seq<Seq<u8>>) -> Option<Seq<Seq<char>>>
    decreases lines.len(),
{
    if lines.len() == 0 {
        Some(Seq::empty())
    } else {
        match line_texts(lines.drop_last()) {
            Some(before) => if valid_utf8(lines.last()) {
                Some(before.push(decode_utf8(lines.last())))
            } else {
                None
            },
            None => None,
        }
    }
}

/// The lines of a log.
pub open spec fn log_lines(data: Seq<u8>) -> Result<Seq<Seq<char>>, TraceError> {
    match line_texts(lines_from(data, 0, 0)) {
        Some(lines) => Ok(lines),
        None => Err(TraceError::InvalidUtf8),
    }
}

proof fn lemma_line_texts_none(lines: Seq<Seq<u8>>, more: Seq<Seq<u8>>)
    requires
        line_texts(lines) is None,
    ensures
        line_texts(lines + more) is None,
    decreases more.len(),
{
    if more.len() == 0 {
        assert(lines + more =~= lines);
    } else {
        lemma_line_texts_none(lines, more.drop_last());
        assert((lines + more).drop_last() =~= lines + more.drop_last());
    }
}

/// Splits a log into lines.
pub fn read_lines(data: &[u8]) -> (r: Result<Vec<String>, TraceError>)
    ensures
        match log_lines(data@) {
            Ok(lines) => r is Ok && texts_of(r->Ok_0@) == lines,
            Err(e) => r == Err::<Vec<String>, TraceError>(e),
        },
{
    let ghost all = lines_from(data@, 0, 0);
    let ghost mut done: Seq<Seq<u8>> = Seq::empty();
    let mut lines: Vec<String> = Vec::new();
    let n: usize = data.len();
    let mut start: usize = 0;
    let mut i: usize = 0;
    proof {
        assert(done + lines_from(data@, 0, 0) =~= all);
        assert(texts_of(lines@) =~= Seq::<Seq<char>>::empty());
    }
    while i < n
        invariant
            start <= i <= n,
            n == data@.len(),
            all == lines_from(data@, 0, 0),
            all == done + lines_from(data@, start as int, i as int),
            line_texts(done) == Some(texts_of(lines@)),
        decreases n - i,
    {
        if data[i] == 10 {
            let mut end: usize = i;
            if start < end && data[end - 1] == 13 {
                end = end - 1;
            }
            let bytes = vstd::slice::slice_subrange(data, start, end);
            let ghost raw = data@.subrange(start as int, i as int);
            let ghost next = done.push(without_return(raw));
            let ghost more = lines_from(data@, i + 1, i + 1);
            proof {
                assert(bytes@ =~= without_return(raw));
                assert(next.drop_last() =~= done);
                assert(done + (seq![without_return(raw)] + more) =~= next + more);
            }
            match utf8_str(bytes) {
                Some(text) => {
                    let ghost before = texts_of(lines@);
                    lines.push(text.to_owned());
                    assert(texts_of(lines@) =~= before.push(text@));
                },
                None => {
                    proof {
                        lemma_line_texts_none(next, more);
                    }
                    return Err(TraceError::InvalidUtf8);
                },
            }
            proof {
                done = next;
            }
            start = i + 1;
        }
        i = i + 1;
    }
    if start < n {
        let bytes = vstd::slice::slice_subrange(data, start, n);
        let ghost next = done.push(bytes@);
        proof {
            assert(next.drop_last() =~= done);
            assert(done + seq![bytes@] =~= next);
        }
        match utf8_str(bytes) {
            Some(text) => {
                let ghost before = texts_of(lines@);
                lines.push(text.to_owned());
                assert(texts_of(lines@) =~= before.push(text@));
            },
            None => {
                return Err(TraceError::InvalidUtf8);
            },
        }
    } else {
        assert(done + Seq::<Seq<u8>>::empty() =~= done);
    }
    Ok(lines)
}

// ---------------------------------------------------------------------------
// Metadata of a log.

/// Data gathered by scanning a log.
#[derive(Debug)]
pub struct ScanResult {
    /// Pipeline stages in the order in which they first occur.
    pub stage_names: Vec<String>,
    /// The most instructions that are in flight at once, at least 1.
    pub max_in_flight: u32,
    pub thread_ids: HashSet<u32>,
    pub total_cycles: u64,
}

/// What is known of a log so far.
#[verifier::ext_equal]
pub struct Scan {
    pub stages: Seq<Seq<char>>,
    pub in_flight: Set<u32>,
    pub peak: u32,
    pub threads: Set<u32>,
    pub cycle: u64,
}

/// Nothing is known.
pub open spec fn nothing_scanned() -> Scan {
    Scan {
        stages: Seq::empty(),
        in_flight: Set::empty(),
        peak: 0,
        threads: Set::empty(),
        cycle: 0,
    }
}

/// What is known after a command.
pub open spec fn scan_step(s: Scan, cmd: CmdView) -> Result<Scan, TraceError> {
    match cmd {
        CmdView::CycleAbsolute(c) => Ok(Scan { cycle: c, ..s }),
        CmdView::CycleDelta(d) => if s.cycle + d > u64::MAX {
            Err(TraceError::TimeOverflow)
        } else {
            Ok(Scan { cycle: (s.cycle + d) as u64, ..s })
        },
        CmdView::Instruction { id, tid, .. } => {
            let in_flight = s.in_flight.insert(id);
            let n = in_flight.len() as u32;
            Ok(
                Scan {
                    in_flight,
                    peak: if n > s.peak {
                        n
                    } else {
                        s.peak
                    },
                    threads: s.threads.insert(tid),
                    ..s
                },
            )
        },
        CmdView::StageStart { lane, stage, .. } => if lane == 0 && !s.stages.contains(stage) {
            Ok(Scan { stages: s.stages.push(stage), ..s })
        } else {
            Ok(s)
        },
        CmdView::Retire { id, .. } => Ok(Scan { in_flight: s.in_flight.remove(id), ..s }),
        _ => Ok(s),
    }
}

/// What is known after the first `n` commands.
pub open spec fn scanned(cmds: Seq<CmdView>, n: int) -> Result<Scan, TraceError>
    decreases n,
{
    if n <= 0 {
        Ok(nothing_scanned())
    } else {
        match scanned(cmds, n - 1) {
            Err(e) => Err(e),
            Ok(s) => scan_step(s, cmds[n - 1]),
        }
    }
}

proof fn lemma_scanned_err(cmds: Seq<CmdView>, i: int, n: int)
    requires
        i <= n,
        scanned(cmds, i) is Err,
    ensures
        scanned(cmds, n) == scanned(cmds, i),
    decreases n - i,
{
    if i < n {
        lemma_scanned_err(cmds, i, n - 1);
    }
}

impl ScanResult {
    /// Whether the result is what a scan gave.
    pub open spec fn gives(&self, s: Scan) -> bool {
        &&& texts_of(self.stage_names@) == s.stages
        &&& self.max_in_flight == if s.peak > 1 {
            s.peak
        } else {
            1
        }
        &&& self.thread_ids@ == s.threads
        &&& self.total_cycles == s.cycle
    }
}

/// Every stage is listed once, and the peak is at least the number of
/// instructions in flight.
pub open spec fn scan_sound(s: Scan) -> bool {
    &&& s.stages.no_duplicates()
    &&& s.in_flight.finite()
    &&& s.in_flight.len() <= s.peak
}

/// Scanning keeps stages distinct and the peak above what is in flight, while
/// fewer than 2^32 instructions are.
pub proof fn law_scan_step(s: Scan, cmd: CmdView)
    requires
        scan_sound(s),
        s.in_flight.len() < u32::MAX,
    ensures
        scan_step(s, cmd) is Ok ==> scan_sound(scan_step(s, cmd)->Ok_0),
        scan_step(s, cmd) is Ok ==> s.peak <= scan_step(s, cmd)->Ok_0.peak,
{
    if let CmdView::StageStart { lane, stage, .. } = cmd {
        if lane == 0 && !s.stages.contains(stage) {
            let now = s.stages.push(stage);
            assert forall|i: int, j: int| 0 <= i < now.len() && 0 <= j < now.len() && i != j implies
                now[i] != now[j] by {
                if i < s.stages.len() && j < s.stages.len() {
                    assert(s.stages[i] != s.stages[j]);
                } else if i < s.stages.len() {
                    assert(s.stages.contains(s.stages[i]));
                } else if j < s.stages.len() {
                    assert(s.stages.contains(s.stages[j]));
                }
            }
        }
    }
}

/// Whether a name is among some names.
pub fn has_name(names: &Vec<String>, name: &str) -> (b: bool)
    ensures
        b == texts_of(names@).contains(name@),
{
    let ghost all = texts_of(names@);
    let mut i: usize = 0;
    while i < names.len()
        invariant
            i <= names@.len(),
            all == texts_of(names@),
            forall|j: int| 0 <= j < i ==> #[trigger] all[j] != name@,
        decreases names@.len() - i,
    {
        assert(all[i as int] == names@[i as int]@);
        if str_eq(names[i].as_str(), name) {
            assert(all.contains(name@));
            return true;
        }
        i = i + 1;
    }
    false
}

/// Scans commands to discover metadata.
pub fn scan_pass(cmds: &Vec<KonataCmd>) -> (r: Result<ScanResult, TraceError>)
    ensures
        match scanned(cmd_views(cmds@), cmds@.len() as int) {
            Ok(s) => r is Ok && r->Ok_0.gives(s),
            Err(e) => r == Err::<ScanResult, TraceError>(e),
        },
{
    let ghost all = cmd_views(cmds@);
    let ghost n = cmds@.len() as int;
    let mut stage_names: Vec<String> = Vec::new();
    let mut thread_ids: HashSet<u32> = HashSet::new();
    let mut in_flight: HashSet<u32> = HashSet::new();
    let mut peak: u32 = 0;
    let mut cycle: u64 = 0;
    let mut i: usize = 0;
    assert(texts_of(stage_names@) =~= Seq::<Seq<char>>::empty());
    while i < cmds.len()
        invariant
            i <= cmds@.len(),
            n == cmds@.len(),
            all == cmd_views(cmds@),
            scanned(all, i as int) == Ok::<Scan, TraceError>(
                Scan {
                    stages: texts_of(stage_names@),
                    in_flight: in_flight@,
                    peak,
                    threads: thread_ids@,
                    cycle,
                },
            ),
        decreases cmds@.len() - i,
    {
        proof {
            assert(all[i as int] == cmds@[i as int]@);
            if scanned(all, i + 1) is Err {
                lemma_scanned_err(all, i + 1, n);
            }
        }
        match &cmds[i] {
            KonataCmd::CycleAbsolute(c) => {
                cycle = *c;
            },
            KonataCmd::CycleDelta(d) => match cycle.checked_add(*d) {
                Some(c) => {
                    cycle = c;
                },
                None => return Err(TraceError::TimeOverflow),
            },
            KonataCmd::Instruction { id, gid: _, tid } => {
                in_flight.insert(*id);
                let count: u32 = #[verifier::truncate] (in_flight.len() as u32);
                if count > peak {
                    peak = count;
                }
                thread_ids.insert(*tid);
            },
            KonataCmd::StageStart { id: _, lane, stage } => {
                if *lane == 0 && !has_name(&stage_names, stage.as_str()) {
                    let ghost before = texts_of(stage_names@);
                    let name = stage.clone();
                    stage_names.push(name);
                    assert(texts_of(stage_names@) =~= before.push(name@));
                }
            },
            KonataCmd::Retire { id, rid: _, retire_type: _ } => {
                in_flight.remove(id);
            },
            KonataCmd::Label { id: _, label_type: _, text: _ } => {},
            KonataCmd::StageEnd { id: _, lane: _, stage: _ } => {},
            KonataCmd::Dependency { consumer: _, producer: _, dep_type: _ } => {},
        }
        i = i + 1;
    }
    Ok(
        ScanResult {
            stage_names,
            max_in_flight: if peak > 1 {
                peak
            } else {
                1
            },
            thread_ids,
            total_cycles: cycle,
        },
    )
}

// ---------------------------------------------------------------------------
// What a scan finds.

/// Whether a command starts a stage in the first lane.
pub open spec fn starts_stage(cmd: CmdView, stage: Seq<char>) -> bool {
    cmd matches CmdView::StageStart { lane, stage: s, .. } && lane == 0 && s == stage
}

/// Whether a command starts an instruction.
pub open spec fn starts_instruction(cmd: CmdView, id: u32) -> bool {
    cmd matches CmdView::Instruction { id: i, .. } && i == id
}

/// Whether a command ends an instruction.
pub open spec fn ends_instruction(cmd: CmdView, id: u32) -> bool {
    cmd matches CmdView::Retire { id: i, .. } && i == id
}

/// Whether a command starts an instruction of a thread.
pub open spec fn of_thread(cmd: CmdView, thread: u32) -> bool {
    cmd matches CmdView::Instruction { tid, .. } && tid == thread
}

/// A scan lists every stage of the first lane once, in the order in which they
/// are first started: what it knew before is the front of what it knows.
pub proof fn law_scanned_stages(cmds: Seq<CmdView>, n: int)
    requires
        0 <= n <= cmds.len(),
        scanned(cmds, n) is Ok,
    ensures
        scanned(cmds, n)->Ok_0.stages.no_duplicates(),
        forall|stage: Seq<char>| #[trigger]
            scanned(cmds, n)->Ok_0.stages.contains(stage) <==> exists|i: int|
                0 <= i < n && #[trigger] starts_stage(cmds[i], stage),
        n > 0 ==> {
            let before = scanned(cmds, n - 1)->Ok_0.stages;
            let now = scanned(cmds, n)->Ok_0.stages;
            before.len() <= now.len() <= before.len() + 1 && now.take(before.len() as int) == before
        },
    decreases n,
{
    let now = scanned(cmds, n)->Ok_0.stages;
    if n > 0 {
        law_scanned_stages(cmds, n - 1);
        let before = scanned(cmds, n - 1)->Ok_0.stages;
        let cmd = cmds[n - 1];
        assert(now.take(before.len() as int) =~= before);
        assert forall|stage: Seq<char>| #[trigger] now.contains(stage) <==> exists|i: int|
            0 <= i < n && #[trigger] starts_stage(cmds[i], stage) by {
            if now.contains(stage) {
                let k = choose|k: int| 0 <= k < now.len() && now[k] == stage;
                if k < before.len() {
                    assert(before[k] == stage);
                    assert(before.contains(stage));
                    let i = choose|i: int| 0 <= i < n - 1 && #[trigger] starts_stage(cmds[i], stage);
                    assert(starts_stage(cmds[i], stage));
                } else {
                    assert(starts_stage(cmds[n - 1], stage));
                }
            }
            if exists|i: int| 0 <= i < n && #[trigger] starts_stage(cmds[i], stage) {
                let i = choose|i: int| 0 <= i < n && #[trigger] starts_stage(cmds[i], stage);
                if i < n - 1 {
                    assert(before.contains(stage));
                }
                if before.contains(stage) {
                    let k = choose|k: int| 0 <= k < before.len() && before[k] == stage;
                    assert(now[k] == stage);
                } else {
                    assert(now[before.len() as int] == stage);
                }
            }
        }
        assert forall|i: int, j: int| 0 <= i < now.len() && 0 <= j < now.len() && i != j implies
            now[i] != now[j] by {
            if i < before.len() && j < before.len() {
                assert(before[i] != before[j]);
            } else if i < before.len() {
                assert(before.contains(before[i]));
            } else if j < before.len() {
                assert(before.contains(before[j]));
            }
        }
    }
}

/// In flight are the instructions that were started and not ended since, and
/// the threads are those of all instructions.
pub proof fn law_scanned_instructions(cmds: Seq<CmdView>, n: int)
    requires
        0 <= n <= cmds.len(),
        scanned(cmds, n) is Ok,
    ensures
        forall|id: u32| #[trigger]
            scanned(cmds, n)->Ok_0.in_flight.contains(id) <==> exists|i: int|
                0 <= i < n && #[trigger] starts_instruction(cmds[i], id) && forall|j: int|
                    i < j < n ==> !#[trigger] ends_instruction(cmds[j], id),
        forall|thread: u32| #[trigger]
            scanned(cmds, n)->Ok_0.threads.contains(thread) <==> exists|i: int|
                0 <= i < n && #[trigger] of_thread(cmds[i], thread),
    decreases n,
{
    let now = scanned(cmds, n)->Ok_0;
    if n > 0 {
        law_scanned_instructions(cmds, n - 1);
        let before = scanned(cmds, n - 1)->Ok_0;
        let cmd = cmds[n - 1];
        assert forall|id: u32| #[trigger] now.in_flight.contains(id) <==> exists|i: int|
            0 <= i < n && #[trigger] starts_instruction(cmds[i], id) && forall|j: int|
                i < j < n ==> !#[trigger] ends_instruction(cmds[j], id) by {
            if now.in_flight.contains(id) {
                if starts_instruction(cmd, id) {
                    assert(starts_instruction(cmds[n - 1], id));
                } else {
                    assert(before.in_flight.contains(id));
                    let i = choose|i: int|
                        0 <= i < n - 1 && #[trigger] starts_instruction(cmds[i], id) && forall|j: int|
                            i < j < n - 1 ==> !#[trigger] ends_instruction(cmds[j], id);
                    assert(starts_instruction(cmds[i], id));
                    assert(!ends_instruction(cmds[n - 1], id));
                }
            }
            if exists|i: int|
                0 <= i < n && #[trigger] starts_instruction(cmds[i], id) && forall|j: int|
                    i < j < n ==> !#[trigger] ends_instruction(cmds[j], id) {
                let i = choose|i: int|
                    0 <= i < n && #[trigger] starts_instruction(cmds[i], id) && forall|j: int|
                        i < j < n ==> !#[trigger] ends_instruction(cmds[j], id);
                if i < n - 1 {
                    assert(!ends_instruction(cmds[n - 1], id));
                    assert(starts_instruction(cmds[i], id));
                    assert(before.in_flight.contains(id));
                }
            }
        }
        assert forall|thread: u32| #[trigger] now.threads.contains(thread) <==> exists|i: int|
            0 <= i < n && #[trigger] of_thread(cmds[i], thread) by {
            if now.threads.contains(thread) {
                if of_thread(cmd, thread) {
                    assert(of_thread(cmds[n - 1], thread));
                } else {
                    assert(before.threads.contains(thread));
                    let i = choose|i: int| 0 <= i < n - 1 && #[trigger] of_thread(cmds[i], thread);
                    assert(of_thread(cmds[i], thread));
                }
            }
            if exists|i: int| 0 <= i < n && #[trigger] of_thread(cmds[i], thread) {
                let i = choose|i: int| 0 <= i < n && #[trigger] of_thread(cmds[i], thread);
                if i < n - 1 {
                    assert(before.threads.contains(thread));
                }
            }
        }
    }
}

/// The peak is the most instructions that were in flight after any command:
/// not fewer than after each, and as many as after one.
pub proof fn law_scanned_peak(cmds: Seq<CmdView>, n: int)
    requires
        0 <= n <= cmds.len(),
        n <= u32::MAX,
        scanned(cmds, n) is Ok,
    ensures
        scanned(cmds, n)->Ok_0.in_flight.finite(),
        scanned(cmds, n)->Ok_0.in_flight.len() <= n,
        forall|k: int|
            0 <= k <= n ==> (#[trigger] scanned(cmds, k)) is Ok && scanned(
                cmds,
                k,
            )->Ok_0.in_flight.len() <= scanned(cmds, n)->Ok_0.peak,
        exists|k: int|
            0 <= k <= n && (#[trigger] scanned(cmds, k))->Ok_0.in_flight.len() == scanned(
                cmds,
                n,
            )->Ok_0.peak,
    decreases n,
{
    let now = scanned(cmds, n)->Ok_0;
    if n > 0 {
        law_scanned_peak(cmds, n - 1);
        let before = scanned(cmds, n - 1)->Ok_0;
        assert(before.in_flight.len() <= before.peak);
        let k = choose|k: int|
            0 <= k <= n - 1 && (#[trigger] scanned(cmds, k))->Ok_0.in_flight.len() == before.peak;
        assert(scanned(cmds, n) is Ok);
        assert(now.in_flight.len() <= before.in_flight.len() + 1);
        assert(now.peak == before.peak || now.peak == now.in_flight.len());
    } else {
        assert(scanned(cmds, 0)->Ok_0.in_flight.len() == 0);
    }
}

// ---------------------------------------------------------------------------
// Lines.

/// Lines with a line feed behind each, or a carriage return and a line feed.
pub open spec fn with_ends(lines: Seq<Seq<u8>>, wide: bool) -> Seq<u8>
    decreases lines.len(),
{
    if lines.len() == 0 {
        Seq::empty()
    } else {
        lines[0] + (if wide {
            seq![13u8, 10u8]
        } else {
            seq![10u8]
        }) + with_ends(lines.drop_first(), wide)
    }
}

/// Whether a line holds no line feed and does not end with a carriage return.
pub open spec fn plain_line(line: Seq<u8>) -> bool {
    !line.contains(10u8) && (line.len() > 0 ==> line.last() != 13)
}

proof fn lemma_to_line_end(data: Seq<u8>, start: int, i: int, end: int)
    requires
        0 <= start <= i <= end < data.len(),
        forall|j: int| i <= j < end ==> data[j] != 10,
        data[end] == 10,
    ensures
        lines_from(data, start, i) == seq![without_return(data.subrange(start, end))] + lines_from(
            data,
            end + 1,
            end + 1,
        ),
    decreases end - i,
{
    if i < end {
        lemma_to_line_end(data, start, i + 1, end);
    }
}

proof fn lemma_lines_behind(a: Seq<u8>, t: Seq<u8>, start: int, i: int)
    requires
        0 <= start <= i <= t.len(),
    ensures
        lines_from(a + t, a.len() + start, a.len() + i) == lines_from(t, start, i),
    decreases t.len() - i,
{
    let s = a + t;
    if i < t.len() {
        assert(s[a.len() + i] == t[i]);
        if t[i] == 10 {
            lemma_lines_behind(a, t, i + 1, i + 1);
            assert(s.subrange(a.len() + start, a.len() + i) =~= t.subrange(start, i));
        } else {
            lemma_lines_behind(a, t, start, i + 1);
        }
    } else if start < t.len() {
        assert(s.subrange(a.len() + start, s.len() as int) =~= t.subrange(start, t.len() as int));
    }
}

/// The lines of a log are found again, whether they end with a line feed or
/// with a carriage return and a line feed.
pub proof fn law_lines(lines: Seq<Seq<u8>>, wide: bool)
    requires
        forall|i: int| 0 <= i < lines.len() ==> plain_line(#[trigger] lines[i]),
    ensures
        lines_from(with_ends(lines, wide), 0, 0) == lines,
    decreases lines.len(),
{
    let data = with_ends(lines, wide);
    if lines.len() == 0 {
        assert(lines_from(data, 0, 0) =~= lines);
    } else {
        let rest = lines.drop_first();
        assert forall|i: int| 0 <= i < rest.len() implies plain_line(#[trigger] rest[i]) by {
            assert(rest[i] == lines[i + 1]);
        }
        law_lines(rest, wide);
        let first = lines[0];
        assert(plain_line(first));
        let stop: Seq<u8> = if wide {
            seq![13u8, 10u8]
        } else {
            seq![10u8]
        };
        let head = first + stop;
        let tail = with_ends(rest, wide);
        assert(data =~= head + tail);
        let end = head.len() - 1;
        assert forall|j: int| 0 <= j < end implies data[j] != 10 by {
            if j < first.len() {
                assert(data[j] == first[j]);
                assert(first.contains(first[j]));
            }
        }
        lemma_to_line_end(data, 0, 0, end);
        let raw = data.subrange(0, end);
        if wide {
            assert(raw.last() == 13);
            assert(raw.drop_last() =~= first);
        } else {
            assert(raw =~= first);
        }
        lemma_lines_behind(head, tail, 0, 0);
        assert(seq![first] + rest =~= lines);
    }
}

/// A path names a gzip file just where it ends in ".gz".
pub proof fn law_names_gzip(path: Seq<char>)
    ensures
        names_gzip(path) <==> path.len() >= 3 && path.subrange(
            path.len() - 3,
            path.len() as int,
        ) == ".gz"@,
{
    reveal_strlit(".gz");
    if path.len() >= 3 {
        let end = path.subrange(path.len() - 3, path.len() as int);
        assert(end[0] == path[path.len() - 3]);
        assert(end[1] == path[path.len() - 2]);
        assert(end[2] == path[path.len() - 1]);
        if names_gzip(path) {
            assert(end =~= ".gz"@);
        }
    }
}

} // verus!
