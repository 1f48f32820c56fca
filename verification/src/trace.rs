//! Trace records: the memory operations a simulation run replays, and
//! the reading of trace text — one record per non-empty line, in the
//! form `<op-letter> <hex-address>,<hex-size>` — into them.

use vstd::prelude::*;
use vstd::string::StrSliceExecFns;
use crate::digits::{digits_value, is_number, parse_number};

verus! {

/// Why a trace text was rejected.
#[derive(Debug, Clone, Copy, PartialEq, Eq, Structural)]
pub enum TraceParseError {
    /// A record line does not have exactly two space-separated fields,
    /// or its number field not exactly two comma-separated parts.
    BadFieldCount,
    /// The operation field is not one of `I`, `L`, `S`, `M`.
    BadOperation,
    /// An address or size part is empty, not hexadecimal, or too large
    /// for 64 bits.
    BadNumber,
}

/// The kind of memory operation a trace record describes.
#[derive(Debug, Clone, Copy, PartialEq, Eq, Structural)]
pub enum Operation {
    /// An instruction fetch; the simulation does not model the
    /// instruction stream, so such a record has no cache effect.
    InstructionLoad,
    /// A data read: one cache access.
    DataLoad,
    /// A data write: one cache access.
    DataStore,
    /// A read-modify-write: two cache accesses to the same address, of
    /// which the second always hits.
    DataModify,
}

/// One trace record: an operation on a 64-bit address. The access size is
/// carried through from the trace text but plays no part in hit/miss
/// classification.
#[derive(Debug, Clone, Copy, PartialEq, Eq, Structural)]
pub struct TraceEntry {
    pub operation: Operation,
    pub address: u64,
    pub size: u64,
}

impl Default for TraceEntry {
    fn default() -> (r: Self)
        ensures
            r == (TraceEntry { operation: Operation::InstructionLoad, address: 0u64, size: 0u64 }),
    {
        TraceEntry { operation: Operation::InstructionLoad, address: 0, size: 0 }
    }
}

/// An ordered, in-memory sequence of trace records.
#[derive(Debug)]
pub struct Traces {
    records: Vec<TraceEntry>,
}

impl View for Traces {
    type V = Seq<TraceEntry>;

    closed spec fn view(&self) -> Seq<TraceEntry> {
        self.records@
    }
}

impl Traces {
    pub fn empty() -> (r: Self)
        ensures
            r@ == Seq::<TraceEntry>::empty(),
    {
        Traces { records: Vec::new() }
    }

    pub fn push(&mut self, record: TraceEntry)
        ensures
            final(self)@ == old(self)@.push(record),
    {
        self.records.push(record);
    }

    pub fn len(&self) -> (n: usize)
        ensures
            n == self@.len(),
    {
        self.records.len()
    }

    pub fn get(&self, i: usize) -> (r: TraceEntry)
        requires
            i < self@.len(),
        ensures
            r == self@[i as int],
    {
        self.records[i]
    }

    /// Reads a whole trace text: its newline-separated lines, each
    /// non-empty one a record, in order; blank lines are skipped and the
    /// first malformed line decides the error.
    pub fn from_text(source: &str) -> (r: Result<Traces, TraceParseError>)
        ensures
            match (r, spec_parse_trace(source@)) {
                (Ok(t), Ok(s)) => t@ == s,
                (Err(e), Err(e2)) => e == e2,
                _ => false,
            },
    {
        let chars = chars_of(source);
        let mut lines = split_chars(&chars, '\n');
        let ghost all_lines = lines.deep_view();
        let mut out = Traces::empty();
        proof {
            assert(out@ + Seq::<TraceEntry>::empty() =~= out@);
        }
        while lines.len() > 0
            invariant
                spec_parse_trace(source@) == spec_parse_lines(all_lines),
                ({
                    match spec_parse_lines(lines.deep_view()) {
                        Ok(s) => spec_parse_lines(all_lines) == Ok::<_, TraceParseError>(out@ + s),
                        Err(e) => spec_parse_lines(all_lines) == Err::<Seq<TraceEntry>, _>(e),
                    }
                }),
            decreases lines@.len(),
        {
            let ghost rem0 = lines.deep_view();
            let line = lines.remove(0);
            proof {
                assert(lines.deep_view() =~~= rem0.drop_first());
                assert(rem0[0] == line.deep_view());
                assert(line.deep_view() =~= line@);
            }
            if line.len() > 0 {
                match parse_line(&line) {
                    Ok(entry) => {
                        let ghost prev_out = out@;
                        out.push(entry);
                        proof {
                            if spec_parse_lines(rem0.drop_first()) is Ok {
                                let rest = spec_parse_lines(rem0.drop_first())->Ok_0;
                                assert(spec_parse_lines(rem0) == Ok::<_, TraceParseError>(
                                    seq![entry] + rest,
                                ));
                                assert(prev_out + (seq![entry] + rest) =~= out@ + rest);
                            }
                        }
                    },
                    Err(e) => {
                        proof {
                            assert(spec_parse_lines(rem0) == Err::<Seq<TraceEntry>, _>(e));
                        }
                        return Err(e);
                    },
                }
            }
        }
        proof {
            assert(lines.deep_view() =~~= Seq::<Seq<char>>::empty());
            assert(spec_parse_lines(Seq::<Seq<char>>::empty()) == Ok::<_, TraceParseError>(
                Seq::<TraceEntry>::empty(),
            ));
            assert(out@ + Seq::<TraceEntry>::empty() =~= out@);
        }
        Ok(out)
    }
}

/// The pieces of `s` between occurrences of `sep`, in order, the empty
/// pieces included — splitting anything yields at least one piece.
pub open spec fn split_on(s: Seq<char>, sep: char) -> Seq<Seq<char>>
    decreases s.len(),
{
    if s.len() == 0 {
        seq![Seq::<char>::empty()]
    } else if s[0] == sep {
        seq![Seq::<char>::empty()] + split_on(s.drop_first(), sep)
    } else {
        let rest = split_on(s.drop_first(), sep);
        seq![seq![s[0]] + rest[0]] + rest.drop_first()
    }
}

/// A sequence opening with `k` non-separator characters splits into
/// that prefix followed by the splitting of whatever stands after the
/// separator that ends it.
pub proof fn lemma_split_first(t: Seq<char>, sep: char, k: int)
    requires
        0 <= k <= t.len(),
        forall|j: int| 0 <= j < k ==> t[j] != sep,
        k < t.len() ==> t[k] == sep,
    ensures
        k == t.len() ==> split_on(t, sep) == seq![t],
        k < t.len() ==> split_on(t, sep) == seq![t.take(k)] + split_on(t.skip(k + 1), sep),
    decreases k,
{
    if k == 0 {
        if t.len() == 0 {
            assert(Seq::<char>::empty() =~= t);
        } else {
            assert(t.take(0) =~= Seq::<char>::empty());
            assert(t.skip(1) =~= t.drop_first());
            assert(seq![Seq::<char>::empty()] + split_on(t.drop_first(), sep) =~~= seq![t.take(0)]
                + split_on(t.skip(1), sep));
        }
    } else {
        let d = t.drop_first();
        let rest = split_on(d, sep);
        assert(split_on(t, sep) == seq![seq![t[0]] + rest[0]] + rest.drop_first());
        assert forall|j: int| 0 <= j < k - 1 implies d[j] != sep by {
            assert(d[j] == t[j + 1]);
        }
        if k - 1 < d.len() {
            assert(d[k - 1] == t[k]);
        }
        lemma_split_first(d, sep, k - 1);
        if k == t.len() {
            assert(rest == seq![d]);
            assert(rest[0] == d);
            assert(seq![t[0]] + d =~= t);
            assert(rest.drop_first() =~~= Seq::<Seq<char>>::empty());
            assert(seq![seq![t[0]] + rest[0]] + rest.drop_first() =~~= seq![t]);
        } else {
            assert(rest == seq![d.take(k - 1)] + split_on(d.skip(k), sep));
            assert(rest[0] == d.take(k - 1));
            assert(seq![t[0]] + d.take(k - 1) =~= t.take(k));
            assert(rest.drop_first() =~~= split_on(d.skip(k), sep));
            assert(d.skip(k) =~= t.skip(k + 1));
            assert(seq![seq![t[0]] + rest[0]] + rest.drop_first() =~~= seq![t.take(k)] + split_on(
                t.skip(k + 1),
                sep,
            ));
        }
    }
}

/// The pieces with the empty ones dropped.
pub open spec fn nonblank(ps: Seq<Seq<char>>) -> Seq<Seq<char>>
    decreases ps.len(),
{
    if ps.len() == 0 {
        Seq::<Seq<char>>::empty()
    } else if ps[0].len() == 0 {
        nonblank(ps.drop_first())
    } else {
        seq![ps[0]] + nonblank(ps.drop_first())
    }
}

/// The operation a one-letter field names.
pub open spec fn op_of(f: Seq<char>) -> Option<Operation> {
    if f.len() == 1 {
        if f[0] == 'I' {
            Some(Operation::InstructionLoad)
        } else if f[0] == 'L' {
            Some(Operation::DataLoad)
        } else if f[0] == 'S' {
            Some(Operation::DataStore)
        } else if f[0] == 'M' {
            Some(Operation::DataModify)
        } else {
            None
        }
    } else {
        None
    }
}

/// One non-empty line read as a record: exactly two space-separated
/// fields, the first an operation letter, the second
/// `<hex-address>,<hex-size>` with both numbers fitting 64 bits.
pub open spec fn spec_line_record(line: Seq<char>) -> Result<TraceEntry, TraceParseError> {
    let fields = nonblank(split_on(line, ' '));
    if fields.len() != 2 {
        Err(TraceParseError::BadFieldCount)
    } else {
        match op_of(fields[0]) {
            None => Err(TraceParseError::BadOperation),
            Some(op) => {
                let nums = split_on(fields[1], ',');
                if nums.len() != 2 {
                    Err(TraceParseError::BadFieldCount)
                } else if !is_number(nums[0], 16, u64::MAX as int) {
                    Err(TraceParseError::BadNumber)
                } else if !is_number(nums[1], 16, u64::MAX as int) {
                    Err(TraceParseError::BadNumber)
                } else {
                    Ok(
                        TraceEntry {
                            operation: op,
                            address: digits_value(nums[0], 16) as u64,
                            size: digits_value(nums[1], 16) as u64,
                        },
                    )
                }
            },
        }
    }
}

/// A sequence of lines read in order: blank lines are skipped, the
/// first malformed line decides the error.
pub open spec fn spec_parse_lines(lines: Seq<Seq<char>>) -> Result<Seq<TraceEntry>, TraceParseError>
    decreases lines.len(),
{
    if lines.len() == 0 {
        Ok(Seq::<TraceEntry>::empty())
    } else if lines[0].len() == 0 {
        spec_parse_lines(lines.drop_first())
    } else {
        match spec_line_record(lines[0]) {
            Err(e) => Err(e),
            Ok(entry) => match spec_parse_lines(lines.drop_first()) {
                Err(e) => Err(e),
                Ok(rest) => Ok(seq![entry] + rest),
            },
        }
    }
}

/// A whole trace text read as records: its newline-separated lines, in
/// order.
pub open spec fn spec_parse_trace(text: Seq<char>) -> Result<Seq<TraceEntry>, TraceParseError> {
    spec_parse_lines(split_on(text, '\n'))
}

/// All characters of `s`, in order.
pub(crate) fn chars_of(s: &str) -> (r: Vec<char>)
    ensures
        r@ == s@,
{
    let n = s.unicode_len();
    let mut r: Vec<char> = Vec::new();
    while r.len() < n
        invariant
            n == s@.len(),
            r@.len() <= n,
            r@ == s@.take(r@.len() as int),
        decreases n - r@.len(),
    {
        let ghost prev = r@;
        let c = s.get_char(r.len());
        r.push(c);
        proof {
            assert(r@ =~= s@.take(r@.len() as int));
        }
    }
    proof {
        assert(s@.take(s@.len() as int) =~= s@);
    }
    r
}

/// Splits on every occurrence of `sep`, empty pieces kept.
fn split_chars(s: &Vec<char>, sep: char) -> (r: Vec<Vec<char>>)
    ensures
        r.deep_view() == split_on(s@, sep),
{
    let mut done: Vec<Vec<char>> = Vec::new();
    let mut cur: Vec<char> = Vec::new();
    let mut i: usize = 0;
    proof {
        assert(cur@ + s@.skip(0) =~= s@);
        assert(done.deep_view() + split_on(s@, sep) =~~= split_on(s@, sep));
    }
    while i < s.len()
        invariant
            i <= s@.len(),
            forall|j: int| 0 <= j < cur@.len() ==> cur@[j] != sep,
            split_on(s@, sep) == done.deep_view() + split_on(cur@ + s@.skip(i as int), sep),
        decreases s@.len() - i,
    {
        let ghost prev_cur = cur@;
        let ghost prev_done = done.deep_view();
        let c = s[i];
        if c == sep {
            proof {
                let t = prev_cur + s@.skip(i as int);
                assert(t[prev_cur.len() as int] == s@[i as int]);
                lemma_split_first(t, sep, prev_cur.len() as int);
                assert(t.take(prev_cur.len() as int) =~= prev_cur);
                assert(t.skip(prev_cur.len() as int + 1) =~= s@.skip(i + 1));
            }
            done.push(cur);
            cur = Vec::new();
            proof {
                assert(done.deep_view() =~~= prev_done.push(prev_cur));
                assert(cur@ + s@.skip(i + 1) =~= s@.skip(i + 1));
                assert(prev_done.push(prev_cur) + split_on(s@.skip(i + 1), sep) =~~= prev_done + (
                seq![prev_cur] + split_on(s@.skip(i + 1), sep)));
            }
        } else {
            cur.push(c);
            proof {
                assert(cur@ + s@.skip(i + 1) =~= prev_cur + s@.skip(i as int));
            }
        }
        i += 1;
    }
    proof {
        assert(cur@ + s@.skip(s@.len() as int) =~= cur@);
        lemma_split_first(cur@, sep, cur@.len() as int);
    }
    let ghost prev_done = done.deep_view();
    let ghost last = cur@;
    done.push(cur);
    proof {
        assert(done.deep_view() =~~= prev_done.push(last));
        assert(prev_done.push(last) =~~= prev_done + seq![last]);
    }
    done
}

/// Drops the empty pieces, keeping the order of the rest.
fn keep_nonblank(ps: Vec<Vec<char>>) -> (r: Vec<Vec<char>>)
    ensures
        r.deep_view() == nonblank(ps.deep_view()),
{
    let ghost orig = ps.deep_view();
    let mut rest = ps;
    let mut r: Vec<Vec<char>> = Vec::new();
    proof {
        assert(r.deep_view() + nonblank(orig) =~~= nonblank(orig));
    }
    while rest.len() > 0
        invariant
            nonblank(orig) == r.deep_view() + nonblank(rest.deep_view()),
        decreases rest@.len(),
    {
        let ghost rem0 = rest.deep_view();
        let ghost prev_r = r.deep_view();
        let piece = rest.remove(0);
        proof {
            assert(rest.deep_view() =~~= rem0.drop_first());
            assert(rem0[0] == piece.deep_view());
            assert(piece.deep_view() =~= piece@);
        }
        if piece.len() > 0 {
            r.push(piece);
            proof {
                assert(r.deep_view() =~~= prev_r.push(rem0[0]));
                assert(prev_r + (seq![rem0[0]] + nonblank(rem0.drop_first())) =~~= prev_r.push(
                    rem0[0],
                ) + nonblank(rem0.drop_first()));
            }
        }
    }
    proof {
        assert(rest.deep_view() =~~= Seq::<Seq<char>>::empty());
        assert(r.deep_view() + Seq::<Seq<char>>::empty() =~~= r.deep_view());
    }
    r
}

/// Reads one non-empty line as a record.
fn parse_line(line: &Vec<char>) -> (r: Result<TraceEntry, TraceParseError>)
    ensures
        r == spec_line_record(line@),
{
    let pieces = split_chars(line, ' ');
    let fields = keep_nonblank(pieces);
    if fields.len() != 2 {
        return Err(TraceParseError::BadFieldCount);
    }
    proof {
        assert(fields.deep_view()[0] == fields@[0].deep_view());
        assert(fields.deep_view()[1] == fields@[1].deep_view());
        assert(fields@[0].deep_view() =~= fields@[0]@);
        assert(fields@[1].deep_view() =~= fields@[1]@);
    }
    let f0 = &fields[0];
    let op: Operation;
    if f0.len() == 1 {
        let c = f0[0];
        if c == 'I' {
            op = Operation::InstructionLoad;
        } else if c == 'L' {
            op = Operation::DataLoad;
        } else if c == 'S' {
            op = Operation::DataStore;
        } else if c == 'M' {
            op = Operation::DataModify;
        } else {
            return Err(TraceParseError::BadOperation);
        }
    } else {
        return Err(TraceParseError::BadOperation);
    }
    let nums = split_chars(&fields[1], ',');
    if nums.len() != 2 {
        return Err(TraceParseError::BadFieldCount);
    }
    proof {
        assert(nums.deep_view()[0] == nums@[0].deep_view());
        assert(nums.deep_view()[1] == nums@[1].deep_view());
        assert(nums@[0].deep_view() =~= nums@[0]@);
        assert(nums@[1].deep_view() =~= nums@[1]@);
    }
    let a_opt = parse_number(&nums[0], 16, u64::MAX);
    if a_opt.is_none() {
        return Err(TraceParseError::BadNumber);
    }
    let s_opt = parse_number(&nums[1], 16, u64::MAX);
    if s_opt.is_none() {
        return Err(TraceParseError::BadNumber);
    }
    Ok(TraceEntry { operation: op, address: a_opt.unwrap(), size: s_opt.unwrap() })
}

} // verus!
