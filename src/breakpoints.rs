//! Debugger breakpoints against a program's source map: which breakpoint a
//! program counter stops at, and which instructions carry breakpoints.
use vstd::prelude::*;

verus! {

/// A breakpoint as the debugger client set it.
#[derive(Clone, Copy, Debug, PartialEq, Eq, Structural)]
pub struct Breakpoint {
    pub id: Option<i64>,
    pub line: Option<i64>,
}

/// Where an instruction came from: a source file (index into the map's
/// paths) and the line its span starts on.
#[derive(Clone, Copy, Debug, PartialEq, Eq, Structural)]
pub struct SourceSpan {
    pub path: usize,
    pub start_line: i64,
}

/// Instruction offsets mapped to source spans, in increasing offset order.
#[derive(Debug)]
pub struct SourceMap {
    pub paths: Vec<String>,
    pub map: Vec<(u64, SourceSpan)>,
}

#[derive(Clone, Copy, Debug, PartialEq, Eq, Structural)]
pub enum AdapterError {
    MissingSourceMap { pc: u64 },
    UnknownBreakpoint { pc: u64 },
}

/// The first entry of `map` at offset `addr`.
pub open spec fn span_at(map: Seq<(u64, SourceSpan)>, addr: u64) -> Option<SourceSpan>
    decreases map.len(),
{
    if map.len() == 0 {
        None
    } else if map[0].0 == addr {
        Some(map[0].1)
    } else {
        span_at(map.drop_first(), addr)
    }
}

/// The breakpoints set in file `path` (the first listing of it).
pub open spec fn bps_of(bps: Seq<(String, Vec<Breakpoint>)>, path: Seq<char>) -> Option<Seq<Breakpoint>>
    decreases bps.len(),
{
    if bps.len() == 0 {
        None
    } else if bps[0].0@ == path {
        Some(bps[0].1@)
    } else {
        bps_of(bps.drop_first(), path)
    }
}

/// The id of the first breakpoint on `line` that has one.
pub open spec fn id_on_line(bs: Seq<Breakpoint>, line: i64) -> Option<i64>
    decreases bs.len(),
{
    if bs.len() == 0 {
        None
    } else if bs[0].line == Some(line) && bs[0].id is Some {
        bs[0].id
    } else {
        id_on_line(bs.drop_first(), line)
    }
}

/// The breakpoint a program counter stops at: the span of instruction
/// `pc / 4`, then the first breakpoint with an id on that span's line.
pub open spec fn breakpoint_id_spec(sm: SourceMap, bps: Seq<(String, Vec<Breakpoint>)>, pc: u64) -> Result<i64, AdapterError> {
    match span_at(sm.map@, pc / 4) {
        None => Err(AdapterError::MissingSourceMap { pc }),
        Some(s) => if s.path < sm.paths@.len() {
            match bps_of(bps, sm.paths@[s.path as int]@) {
                None => Err(AdapterError::UnknownBreakpoint { pc }),
                Some(bs) => match id_on_line(bs, s.start_line) {
                    None => Err(AdapterError::UnknownBreakpoint { pc }),
                    Some(id) => Ok(id),
                },
            }
        } else {
            Err(AdapterError::MissingSourceMap { pc })
        },
    }
}

impl SourceMap {
    /// The span of the instruction at offset `addr`.
    pub fn addr_to_span(&self, addr: u64) -> (r: Option<SourceSpan>)
        ensures
            r == span_at(self.map@, addr),
    {
        let mut i: usize = 0;
        assert(self.map@.skip(0) =~= self.map@);
        while i < self.map.len()
            invariant
                i <= self.map@.len(),
                span_at(self.map@, addr) == span_at(self.map@.skip(i as int), addr),
            decreases self.map@.len() - i,
        {
            assert(self.map@.skip(i as int).drop_first() =~= self.map@.skip(i as int + 1));
            if self.map[i].0 == addr {
                return Some(self.map[i].1);
            }
            i += 1;
        }
        None
    }

    /// The file and line of the instruction a program counter points at
    /// (instructions are four bytes wide).
    pub fn vm_pc_to_source_location(&self, pc: u64) -> (r: Result<(usize, i64), AdapterError>)
        ensures
            r == match span_at(self.map@, pc / 4) {
                None => Err(AdapterError::MissingSourceMap { pc }),
                Some(s) => if s.path < self.paths@.len() {
                    Ok((s.path, s.start_line))
                } else {
                    Err(AdapterError::MissingSourceMap { pc })
                },
            },
    {
        match self.addr_to_span(pc / 4) {
            Some(s) => {
                if s.path < self.paths.len() {
                    Ok((s.path, s.start_line))
                } else {
                    Err(AdapterError::MissingSourceMap { pc })
                }
            },
            None => Err(AdapterError::MissingSourceMap { pc }),
        }
    }
}

fn find_bps<'a>(bps: &'a Vec<(String, Vec<Breakpoint>)>, path: &String) -> (r: Option<&'a Vec<Breakpoint>>)
    ensures
        match r {
            None => bps_of(bps@, path@) is None,
            Some(v) => bps_of(bps@, path@) == Some(v@),
        },
{
    let mut i: usize = 0;
    assert(bps@.skip(0) =~= bps@);
    while i < bps.len()
        invariant
            i <= bps@.len(),
            bps_of(bps@, path@) == bps_of(bps@.skip(i as int), path@),
        decreases bps@.len() - i,
    {
        assert(bps@.skip(i as int).drop_first() =~= bps@.skip(i as int + 1));
        if bps[i].0 == *path {
            return Some(&bps[i].1);
        }
        i += 1;
    }
    None
}

fn find_id(bs: &Vec<Breakpoint>, line: i64) -> (r: Option<i64>)
    ensures
        r == id_on_line(bs@, line),
{
    let mut i: usize = 0;
    assert(bs@.skip(0) =~= bs@);
    while i < bs.len()
        invariant
            i <= bs@.len(),
            id_on_line(bs@, line) == id_on_line(bs@.skip(i as int), line),
        decreases bs@.len() - i,
    {
        assert(bs@.skip(i as int).drop_first() =~= bs@.skip(i as int + 1));
        if bs[i].line == Some(line) && bs[i].id.is_some() {
            return bs[i].id;
        }
        i += 1;
    }
    None
}

/// The breakpoint that a program counter stops at.
pub fn vm_pc_to_breakpoint_id(sm: &SourceMap, bps: &Vec<(String, Vec<Breakpoint>)>, pc: u64) -> (r: Result<i64, AdapterError>)
    ensures
        r == breakpoint_id_spec(*sm, bps@, pc),
{
    let (path, line) = match sm.vm_pc_to_source_location(pc) {
        Ok(loc) => loc,
        Err(e) => {
            return Err(e);
        },
    };
    let source_bps = match find_bps(bps, &sm.paths[path]) {
        Some(v) => v,
        None => {
            return Err(AdapterError::UnknownBreakpoint { pc });
        },
    };
    match find_id(source_bps, line) {
        Some(id) => Ok(id),
        None => Err(AdapterError::UnknownBreakpoint { pc }),
    }
}

/// The offset of the first instruction of file `path` whose span starts on
/// `line`.
pub open spec fn first_pc(sm: SourceMap, path: Seq<char>, line: i64, map: Seq<(u64, SourceSpan)>) -> Option<u64>
    decreases map.len(),
{
    if map.len() == 0 {
        None
    } else if map[0].1.path < sm.paths@.len() && sm.paths@[map[0].1.path as int]@ == path && map[0].1.start_line == line {
        Some(map[0].0)
    } else {
        first_pc(sm, path, line, map.drop_first())
    }
}

/// The instructions of the breakpoints of one file, in breakpoint order.
pub open spec fn file_opcodes(sm: SourceMap, path: Seq<char>, bs: Seq<Breakpoint>) -> Seq<u64>
    decreases bs.len(),
{
    if bs.len() == 0 {
        Seq::empty()
    } else {
        let rest = file_opcodes(sm, path, bs.drop_last());
        match bs.last().line {
            None => rest,
            Some(l) => match first_pc(sm, path, l, sm.map@) {
                None => rest,
                Some(pc) => rest.push(pc),
            },
        }
    }
}

/// The instructions carrying breakpoints, file by file.
pub open spec fn breakpoint_opcodes(sm: SourceMap, bps: Seq<(String, Vec<Breakpoint>)>) -> Seq<u64>
    decreases bps.len(),
{
    if bps.len() == 0 {
        Seq::empty()
    } else {
        breakpoint_opcodes(sm, bps.drop_last()) + file_opcodes(sm, bps.last().0@, bps.last().1@)
    }
}

fn first_pc_exec(sm: &SourceMap, path: &String, line: i64) -> (r: Option<u64>)
    ensures
        r == first_pc(*sm, path@, line, sm.map@),
{
    let mut i: usize = 0;
    assert(sm.map@.skip(0) =~= sm.map@);
    while i < sm.map.len()
        invariant
            i <= sm.map@.len(),
            first_pc(*sm, path@, line, sm.map@) == first_pc(*sm, path@, line, sm.map@.skip(i as int)),
        decreases sm.map@.len() - i,
    {
        assert(sm.map@.skip(i as int).drop_first() =~= sm.map@.skip(i as int + 1));
        let (pc, span) = sm.map[i];
        if span.path < sm.paths.len() && sm.paths[span.path] == *path && span.start_line == line {
            return Some(pc);
        }
        i += 1;
    }
    None
}

/// The instructions to set breakpoints on: for each breakpoint with a line,
/// the first instruction of its file whose span starts on that line.
pub fn breakpoint_opcode_indexes(sm: &SourceMap, bps: &Vec<(String, Vec<Breakpoint>)>) -> (r: Vec<u64>)
    ensures
        r@ == breakpoint_opcodes(*sm, bps@),
{
    let mut out: Vec<u64> = Vec::new();
    let mut f: usize = 0;
    while f < bps.len()
        invariant
            f <= bps@.len(),
            out@ == breakpoint_opcodes(*sm, bps@.take(f as int)),
        decreases bps@.len() - f,
    {
        let path = &bps[f].0;
        let bs = &bps[f].1;
        let ghost base = out@;
        let mut i: usize = 0;
        assert(file_opcodes(*sm, path@, bs@.take(0)) =~= Seq::<u64>::empty());
        assert(base + Seq::<u64>::empty() =~= base);
        while i < bs.len()
            invariant
                i <= bs@.len(),
                out@ == base + file_opcodes(*sm, path@, bs@.take(i as int)),
            decreases bs@.len() - i,
        {
            assert(bs@.take(i as int + 1).drop_last() =~= bs@.take(i as int));
            if let Some(line) = bs[i].line {
                if let Some(pc) = first_pc_exec(sm, path, line) {
                    out.push(pc);
                }
            }
            i += 1;
        }
        assert(bs@.take(bs@.len() as int) =~= bs@);
        assert(bps@.take(f as int + 1).drop_last() =~= bps@.take(f as int));
        f += 1;
    }
    assert(bps@.take(bps@.len() as int) =~= bps@);
    out
}

} // verus!
