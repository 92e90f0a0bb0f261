//! The conversion pipeline over the lines of a CSF file: the first five
//! lines are the header, kept verbatim; the body is cut into records of
//! three lines, each line truncated to a maximum length. A trailing window
//! of one or two lines is dropped but its lines still count.
//!
//! Two ways through the body give the same records and statistics: a
//! `RecordAssembler` fed one line at a time, and the chunked path
//! (`partition_body`, `process_chunk` on each chunk, `merge_chunk_stats`)
//! whose chunks can be processed independently.

use vstd::prelude::*;

verus! {

/// Number of header lines at the top of a CSF file.
pub const HEADER_LINES: usize = 5;

/// One record: its three lines, after truncation.
pub struct CsfRecord {
    pub occupation: String,
    pub intermediate: String,
    pub final_coupling: String,
}

impl View for CsfRecord {
    type V = (Seq<char>, Seq<char>, Seq<char>);

    open spec fn view(&self) -> (Seq<char>, Seq<char>, Seq<char>) {
        (self.occupation@, self.intermediate@, self.final_coupling@)
    }
}

/// Counters of one conversion run.
#[derive(Clone, Copy, Debug, PartialEq, Eq, Structural)]
pub struct ConversionStats {
    /// Complete records.
    pub csf_count: usize,
    /// Body lines read, those of a dropped trailing window included.
    pub total_lines: usize,
    /// Body lines longer than the maximum, which were cut.
    pub truncated_count: usize,
}

/// What one chunk of the body gives.
pub struct ChunkOutput {
    pub records: Vec<CsfRecord>,
    pub stats: ConversionStats,
}

pub open spec fn line_views(lines: Seq<String>) -> Seq<Seq<char>> {
    lines.map_values(|s: String| s@)
}

pub open spec fn record_views(records: Seq<CsfRecord>) -> Seq<(Seq<char>, Seq<char>, Seq<char>)> {
    records.map_values(|r: CsfRecord| r@)
}

/// A line cut to at most `max` characters.
pub open spec fn truncated(line: Seq<char>, max: nat) -> Seq<char> {
    if line.len() > max {
        line.take(max as int)
    } else {
        line
    }
}

/// The records of a body: each complete window of three lines, truncated.
pub open spec fn body_records(body: Seq<Seq<char>>, max: nat) -> Seq<
    (Seq<char>, Seq<char>, Seq<char>),
> {
    Seq::new(
        body.len() / 3,
        |k: int|
            (
                truncated(body[3 * k], max),
                truncated(body[3 * k + 1], max),
                truncated(body[3 * k + 2], max),
            ),
    )
}

/// Number of lines longer than `max`.
pub open spec fn long_lines(body: Seq<Seq<char>>, max: nat) -> nat
    decreases body.len(),
{
    if body.len() == 0 {
        0
    } else {
        long_lines(body.drop_last(), max) + if body.last().len() > max {
            1nat
        } else {
            0nat
        }
    }
}

/// The statistics of a body.
pub open spec fn body_stats(body: Seq<Seq<char>>, max: nat) -> ConversionStats {
    ConversionStats {
        csf_count: (body.len() / 3) as usize,
        total_lines: body.len() as usize,
        truncated_count: long_lines(body, max) as usize,
    }
}

/// The header: the first five lines (fewer in a shorter file).
pub open spec fn header_of(lines: Seq<Seq<char>>) -> Seq<Seq<char>> {
    if lines.len() <= 5 {
        lines
    } else {
        lines.take(5)
    }
}

/// The body: the lines after the header.
pub open spec fn body_of(lines: Seq<Seq<char>>) -> Seq<Seq<char>> {
    if lines.len() <= 5 {
        seq![]
    } else {
        lines.skip(5)
    }
}

/// The body cut into chunks of `width` lines, the last one possibly shorter.
pub open spec fn pieces(body: Seq<Seq<char>>, width: nat) -> Seq<Seq<Seq<char>>>
    decreases body.len(),
{
    if body.len() == 0 || width == 0 {
        seq![]
    } else if body.len() <= width {
        seq![body]
    } else {
        seq![body.take(width as int)] + pieces(body.skip(width as int), width)
    }
}

/// The records of each chunk, one after the other.
pub open spec fn pieces_records(ps: Seq<Seq<Seq<char>>>, max: nat) -> Seq<
    (Seq<char>, Seq<char>, Seq<char>),
>
    decreases ps.len(),
{
    if ps.len() == 0 {
        seq![]
    } else {
        body_records(ps[0], max) + pieces_records(ps.drop_first(), max)
    }
}

/// Records, lines and long lines of the chunks, summed.
pub open spec fn pieces_totals(ps: Seq<Seq<Seq<char>>>, max: nat) -> (int, int, int)
    decreases ps.len(),
{
    if ps.len() == 0 {
        (0, 0, 0)
    } else {
        let rest = pieces_totals(ps.drop_first(), max);
        (
            ps[0].len() / 3 + rest.0,
            ps[0].len() + rest.1,
            long_lines(ps[0], max) + rest.2,
        )
    }
}

/// The counters of a list of chunk outputs, summed.
pub open spec fn output_totals(outs: Seq<ChunkOutput>) -> (int, int, int)
    decreases outs.len(),
{
    if outs.len() == 0 {
        (0, 0, 0)
    } else {
        let rest = output_totals(outs.drop_last());
        let s = outs.last().stats;
        (
            rest.0 + s.csf_count as int,
            rest.1 + s.total_lines as int,
            rest.2 + s.truncated_count as int,
        )
    }
}

proof fn lemma_long_lines_concat(a: Seq<Seq<char>>, b: Seq<Seq<char>>, max: nat)
    ensures
        long_lines(a + b, max) == long_lines(a, max) + long_lines(b, max),
    decreases b.len(),
{
    if b.len() == 0 {
        assert(a + b =~= a);
    } else {
        assert((a + b).drop_last() =~= a + b.drop_last());
        lemma_long_lines_concat(a, b.drop_last(), max);
    }
}

proof fn lemma_long_lines_bound(a: Seq<Seq<char>>, max: nat)
    ensures
        long_lines(a, max) <= a.len(),
    decreases a.len(),
{
    if a.len() > 0 {
        lemma_long_lines_bound(a.drop_last(), max);
    }
}

proof fn lemma_records_concat(a: Seq<Seq<char>>, b: Seq<Seq<char>>, max: nat)
    requires
        a.len() % 3 == 0,
    ensures
        body_records(a + b, max) == body_records(a, max) + body_records(b, max),
{
    let m = a.len() / 3;
    assert((a.len() + b.len()) / 3 == m + b.len() / 3);
    assert forall|k: int| 0 <= k < body_records(a + b, max).len() implies #[trigger] body_records(
        a + b,
        max,
    )[k] == (body_records(a, max) + body_records(b, max))[k] by {
        if k >= m {
            assert(3 * k - a.len() == 3 * (k - m));
        }
    }
    assert(body_records(a + b, max) =~= body_records(a, max) + body_records(b, max));
}

/// Cutting the body into chunks of whole records and handling each chunk on
/// its own gives the records of the whole body, in order, and the same
/// counters.
pub proof fn lemma_chunked_matches_whole(body: Seq<Seq<char>>, max: nat, chunk_size: nat)
    requires
        chunk_size >= 1,
    ensures
        pieces_records(pieces(body, 3 * chunk_size), max) == body_records(body, max),
        pieces_totals(pieces(body, 3 * chunk_size), max) == (
            (body.len() / 3) as int,
            body.len() as int,
            long_lines(body, max) as int,
        ),
    decreases body.len(),
{
    let w = 3 * chunk_size;
    let ps = pieces(body, w);
    if body.len() == 0 {
        assert(ps =~= seq![]);
        assert(body_records(body, max) =~= seq![]);
    } else if body.len() <= w {
        assert(ps =~= seq![body]);
        assert(ps[0] == body);
        assert(ps.drop_first() =~= seq![]);
        assert(pieces_records(ps.drop_first(), max) == Seq::<
            (Seq<char>, Seq<char>, Seq<char>),
        >::empty());
        assert(pieces_totals(ps.drop_first(), max) == (0int, 0int, 0int));
        assert(body_records(body, max) + seq![] =~= body_records(body, max));
    } else {
        let head = body.take(w as int);
        let tail = body.skip(w as int);
        assert(body =~= head + tail);
        assert(ps == seq![head] + pieces(tail, w));
        assert(ps[0] == head);
        assert(ps.drop_first() =~= pieces(tail, w));
        lemma_chunked_matches_whole(tail, max, chunk_size);
        lemma_records_concat(head, tail, max);
        lemma_long_lines_concat(head, tail, max);
        assert(head.len() == w);
    }
}

/// The header and the body of a file's lines.
pub fn split_header(lines: &[String]) -> (r: (Vec<String>, Vec<String>))
    ensures
        line_views(r.0@) == header_of(line_views(lines@)),
        line_views(r.1@) == body_of(line_views(lines@)),
{
    let mut header: Vec<String> = Vec::new();
    let mut body: Vec<String> = Vec::new();
    let mut i: usize = 0;
    while i < lines.len()
        invariant
            i <= lines@.len(),
            line_views(header@) == line_views(lines@).take(if i <= 5 { i as int } else { 5 }),
            line_views(body@) == if i <= 5 {
                seq![]
            } else {
                line_views(lines@).subrange(5, i as int)
            },
        decreases lines@.len() - i,
    {
        let s = lines[i].clone();
        let ghost hv = line_views(header@);
        let ghost bv = line_views(body@);
        if i < HEADER_LINES {
            header.push(s);
            assert(line_views(header@) =~= hv.push(lines@[i as int]@));
        } else {
            body.push(s);
            assert(line_views(body@) =~= bv.push(lines@[i as int]@));
        }
        i += 1;
        assert(line_views(header@) =~= line_views(lines@).take(if i <= 5 { i as int } else { 5 }));
        assert(line_views(body@) =~= if i <= 5 {
            seq![]
        } else {
            line_views(lines@).subrange(5, i as int)
        });
    }
    assert(line_views(lines@).take(lines@.len() as int) =~= line_views(lines@));
    assert(line_views(lines@).subrange(5, lines@.len() as int) =~= line_views(lines@).skip(5));
    (header, body)
}

/// A line cut to at most `max_line_len` characters, and whether it was cut.
pub fn truncate_line(line: &str, max_line_len: usize) -> (r: (String, bool))
    ensures
        r.0@ == truncated(line@, max_line_len as nat),
        r.1 == (line@.len() > max_line_len),
{
    let n = line.unicode_len();
    if n > max_line_len {
        (line.substring_char(0, max_line_len).to_owned(), true)
    } else {
        (line.to_owned(), false)
    }
}

/// The records and statistics of one chunk of body lines.
pub fn process_chunk(lines: &[String], max_line_len: usize) -> (r: ChunkOutput)
    ensures
        record_views(r.records@) == body_records(line_views(lines@), max_line_len as nat),
        r.stats == body_stats(line_views(lines@), max_line_len as nat),
{
    let ghost body = line_views(lines@);
    let ghost limit = max_line_len as nat;
    assert(body.len() == lines@.len());
    let mut long: usize = 0;
    let mut i: usize = 0;
    while i < lines.len()
        invariant
            i <= lines@.len(),
            body == line_views(lines@),
            body.len() == lines@.len(),
            limit == max_line_len as nat,
            long == long_lines(body.take(i as int), limit),
        decreases lines@.len() - i,
    {
        proof {
            lemma_long_lines_bound(body.take(i as int), limit);
            assert(body.take(i + 1).drop_last() =~= body.take(i as int));
        }
        assert(body.take(i + 1).last() == lines@[i as int]@);
        let line_len = lines[i].as_str().unicode_len();
        let is_long = line_len > max_line_len;
        let ghost t1 = body.take(i + 1);
        assert(t1.len() > 0);
        assert(t1.drop_last() =~= body.take(i as int));
        assert(t1.last() == lines@[i as int]@);
        assert(line_len == lines@[i as int]@.len());
        assert(long_lines(t1, limit) == long_lines(t1.drop_last(), limit) + if t1.last().len() > limit {
            1nat
        } else {
            0nat
        });
        assert(long_lines(body.take(i + 1), limit) == long_lines(body.take(i as int), limit) + if is_long {
            1nat
        } else {
            0nat
        });
        if is_long {
            long += 1;
        }
        i += 1;
    }
    assert(body.take(i as int) =~= body);
    let mut records: Vec<CsfRecord> = Vec::new();
    let len = lines.len();
    let count = len / 3;
    let mut k: usize = 0;
    while k < count
        invariant
            k <= count,
            count == lines@.len() / 3,
            len == lines@.len(),
            body == line_views(lines@),
            body.len() == lines@.len(),
            limit == max_line_len as nat,
            record_views(records@) == body_records(body, limit).take(k as int),
        decreases count - k,
    {
        assert(3 * k + 2 < lines@.len());
        assert(body[3 * k] == lines@[3 * k]@);
        assert(body[3 * k + 1] == lines@[3 * k + 1]@);
        assert(body[3 * k + 2] == lines@[3 * k + 2]@);
        let ta = truncate_line(lines[3 * k].as_str(), max_line_len);
        let tb = truncate_line(lines[3 * k + 1].as_str(), max_line_len);
        let tc = truncate_line(lines[3 * k + 2].as_str(), max_line_len);
        assert(ta.0@ == truncated(lines@[3 * k]@, limit));
        let ghost before = record_views(records@);
        let rec = CsfRecord { occupation: ta.0, intermediate: tb.0, final_coupling: tc.0 };
        assert(rec@ == body_records(body, limit)[k as int]);
        records.push(rec);
        assert(record_views(records@) =~= before.push(body_records(body, limit)[k as int]));
        k += 1;
        assert(record_views(records@) =~= body_records(body, limit).take(k as int));
    }
    assert(body_records(body, limit).take(count as int) =~= body_records(body, limit));
    ChunkOutput {
        records,
        stats: ConversionStats { csf_count: count, total_lines: lines.len(), truncated_count: long },
    }
}

/// The body cut into chunks of `chunk_size` records (`3 * chunk_size`
/// lines), in order; a chunk size of zero counts as one.
pub fn partition_body(body: &[String], chunk_size: usize) -> (r: Vec<Vec<String>>)
    ensures
        r@.map_values(|p: Vec<String>| line_views(p@)) == pieces(
            line_views(body@),
            3 * (if chunk_size == 0 { 1 } else { chunk_size }) as nat,
        ),
{
    let c: usize = if chunk_size == 0 {
        1
    } else {
        chunk_size
    };
    let ghost w = (3 * c) as nat;
    let ghost all = line_views(body@);
    let mut out: Vec<Vec<String>> = Vec::new();
    let mut pos: usize = 0;
    let blen = body.len();
    assert(all.skip(0) =~= all);
    assert(out@.map_values(|p: Vec<String>| line_views(p@)) + pieces(all, w) =~= pieces(all, w));
    while pos < blen
        invariant
            blen == body@.len(),
            pos <= body@.len(),
            c >= 1,
            w == 3 * c,
            all == line_views(body@),
            pieces(all, w) == out@.map_values(|p: Vec<String>| line_views(p@)) + pieces(
                all.skip(pos as int),
                w,
            ),
        decreases body@.len() - pos,
    {
        let remaining = blen - pos;
        let take: usize = if remaining / 3 < c {
            remaining
        } else {
            3 * c
        };
        let mut piece: Vec<String> = Vec::new();
        let mut i: usize = 0;
        while i < take
            invariant
                i <= take,
                pos + take <= blen,
                blen == body@.len(),
                line_views(piece@) == all.subrange(pos as int, pos + i),
                all == line_views(body@),
            decreases take - i,
        {
            let ghost pv = line_views(piece@);
            piece.push(body[pos + i].clone());
            assert(line_views(piece@) =~= pv.push(all[pos + i]));
            i += 1;
            assert(line_views(piece@) =~= all.subrange(pos as int, pos + i));
        }
        let ghost rest = all.skip(pos as int);
        let ghost old_out = out@;
        proof {
            if take == remaining {
                assert(remaining <= w);
                assert(rest =~= all.subrange(pos as int, pos + take));
                assert(all.skip(pos + take) =~= seq![]);
            } else {
                assert(rest.take(w as int) =~= all.subrange(pos as int, pos + take));
                assert(rest.skip(w as int) =~= all.skip(pos + take));
            }
        }
        out.push(piece);
        pos += take;
        assert(out@.map_values(|p: Vec<String>| line_views(p@)) =~= old_out.map_values(
            |p: Vec<String>| line_views(p@),
        ).push(all.subrange((pos - take) as int, pos as int)));
        assert(out@.map_values(|p: Vec<String>| line_views(p@)) + pieces(all.skip(pos as int), w)
            =~= old_out.map_values(|p: Vec<String>| line_views(p@)) + pieces(rest, w));
    }
    assert(all.skip(pos as int) =~= seq![]);
    assert(out@.map_values(|p: Vec<String>| line_views(p@)) + seq![] =~= out@.map_values(
        |p: Vec<String>| line_views(p@),
    ));
    out
}

/// The counters of the chunks' outputs summed, in chunk order; `None` when
/// a sum does not fit a `usize`.
pub fn merge_chunk_stats(outputs: &[ChunkOutput]) -> (r: Option<ConversionStats>)
    ensures
        ({
            let t = output_totals(outputs@);
            match r {
                Some(s) => s.csf_count == t.0 && s.total_lines == t.1 && s.truncated_count == t.2,
                None => t.0 > usize::MAX || t.1 > usize::MAX || t.2 > usize::MAX,
            }
        }),
{
    let mut total = ConversionStats { csf_count: 0, total_lines: 0, truncated_count: 0 };
    let mut i: usize = 0;
    while i < outputs.len()
        invariant
            i <= outputs@.len(),
            ({
                let t = output_totals(outputs@.take(i as int));
                total.csf_count == t.0 && total.total_lines == t.1 && total.truncated_count == t.2
            }),
        decreases outputs@.len() - i,
    {
        let s = outputs[i].stats;
        assert(outputs@.take(i + 1).drop_last() =~= outputs@.take(i as int));
        proof {
            lemma_output_totals_grow(outputs@, i + 1);
        }
        match (
            total.csf_count.checked_add(s.csf_count),
            total.total_lines.checked_add(s.total_lines),
            total.truncated_count.checked_add(s.truncated_count),
        ) {
            (Some(a), Some(b), Some(c)) => {
                total = ConversionStats { csf_count: a, total_lines: b, truncated_count: c };
            },
            _ => {
                return None;
            },
        }
        i += 1;
    }
    assert(outputs@.take(i as int) =~= outputs@);
    Some(total)
}

proof fn lemma_output_totals_grow(outs: Seq<ChunkOutput>, k: int)
    requires
        0 <= k <= outs.len(),
    ensures
        output_totals(outs.take(k)).0 <= output_totals(outs).0,
        output_totals(outs.take(k)).1 <= output_totals(outs).1,
        output_totals(outs.take(k)).2 <= output_totals(outs).2,
    decreases outs.len(),
{
    if k == outs.len() {
        assert(outs.take(k) =~= outs);
    } else {
        assert(outs.drop_last().take(k) =~= outs.take(k));
        lemma_output_totals_grow(outs.drop_last(), k);
    }
}

/// Builds records from the lines of a file fed one at a time: the first
/// five lines are kept as the header, then every third body line completes
/// a record.
pub struct RecordAssembler {
    max_line_len: usize,
    header: Vec<String>,
    pending: Vec<String>,
    stats: ConversionStats,
    line_count: usize,
    seen: Ghost<Seq<Seq<char>>>,
}

impl RecordAssembler {
    /// The lines fed so far.
    pub closed spec fn lines_seen(&self) -> Seq<Seq<char>> {
        self.seen@
    }

    /// The maximum line length.
    pub closed spec fn max_len(&self) -> nat {
        self.max_line_len as nat
    }

    pub closed spec fn wf(&self) -> bool {
        let body = body_of(self.seen@);
        let max = self.max_line_len as nat;
        &&& line_views(self.header@) == header_of(self.seen@)
        &&& self.stats == body_stats(body, max)
        &&& self.line_count == self.seen@.len()
        &&& long_lines(body, max) <= body.len()
        &&& self.pending@.len() == body.len() % 3
        &&& forall|i: int|
            0 <= i < self.pending@.len() ==> (#[trigger] self.pending@[i])@ == truncated(
                body[body.len() - self.pending@.len() + i],
                max,
            )
    }

    pub fn new(max_line_len: usize) -> (r: Self)
        ensures
            r.wf(),
            r.lines_seen() == Seq::<Seq<char>>::empty(),
            r.max_len() == max_line_len,
    {
        let r = RecordAssembler {
            max_line_len,
            header: Vec::new(),
            pending: Vec::new(),
            stats: ConversionStats { csf_count: 0, total_lines: 0, truncated_count: 0 },
            line_count: 0,
            seen: Ghost(Seq::empty()),
        };
        assert(line_views(r.header@) =~= header_of(r.seen@));
        r
    }

    /// Number of lines fed so far.
    pub fn lines_read(&self) -> (r: usize)
        requires
            self.wf(),
        ensures
            r == self.lines_seen().len(),
    {
        self.line_count
    }

    /// Feeds the next line; returns the record that it completes, if any.
    pub fn push_line(&mut self, line: &str) -> (r: Option<CsfRecord>)
        requires
            old(self).wf(),
            old(self).lines_seen().len() < usize::MAX,
        ensures
            final(self).wf(),
            final(self).lines_seen() == old(self).lines_seen().push(line@),
            final(self).max_len() == old(self).max_len(),
            body_records(body_of(final(self).lines_seen()), final(self).max_len()) == body_records(
                body_of(old(self).lines_seen()),
                old(self).max_len(),
            ) + match r {
                Some(rec) => seq![rec@],
                None => Seq::<(Seq<char>, Seq<char>, Seq<char>)>::empty(),
            },
    {
        let ghost old_seen = self.seen@;
        let ghost max = self.max_line_len as nat;
        let ghost body = body_of(old_seen);
        self.seen = Ghost(self.seen@.push(line@));
        self.line_count = self.line_count + 1;
        if self.header.len() < HEADER_LINES {
            let ghost hv = line_views(self.header@);
            self.header.push(line.to_owned());
            assert(line_views(self.header@) =~= hv.push(line@));
            assert(line_views(self.header@) =~= header_of(self.seen@));
            assert(body_of(self.seen@) =~= body);
            return None;
        }
        let ghost nbody = body_of(self.seen@);
        assert(nbody =~= body.push(line@));
        assert(nbody.drop_last() =~= body);
        assert(header_of(self.seen@) =~= header_of(old_seen));
        let (t, cut) = truncate_line(line, self.max_line_len);
        self.stats.total_lines = self.stats.total_lines + 1;
        if cut {
            self.stats.truncated_count = self.stats.truncated_count + 1;
        }
        self.pending.push(t);
        assert(forall|i: int|
            0 <= i < self.pending@.len() ==> (#[trigger] self.pending@[i])@ == truncated(
                nbody[nbody.len() - self.pending@.len() + i],
                max,
            ));
        assert(long_lines(nbody, max) == long_lines(body, max) + if cut {
            1nat
        } else {
            0nat
        });
        assert(self.stats.truncated_count == long_lines(nbody, max));
        assert(self.stats.total_lines == nbody.len());
        if self.pending.len() == 3 {
            let c = self.pending.pop().unwrap();
            let b = self.pending.pop().unwrap();
            let a = self.pending.pop().unwrap();
            self.stats.csf_count = self.stats.csf_count + 1;
            let rec = CsfRecord { occupation: a, intermediate: b, final_coupling: c };
            assert(body_records(nbody, max) =~= body_records(body, max).push(rec@));
            Some(rec)
        } else {
            assert(body_records(nbody, max) =~= body_records(body, max));
            None
        }
    }

    /// The statistics of the lines fed so far.
    pub fn stats(&self) -> (r: ConversionStats)
        requires
            self.wf(),
        ensures
            r == body_stats(body_of(self.lines_seen()), self.max_len()),
    {
        self.stats
    }

    /// The header lines, verbatim.
    pub fn header_lines(&self) -> (r: &Vec<String>)
        requires
            self.wf(),
        ensures
            line_views(r@) == header_of(self.lines_seen()),
    {
        &self.header
    }
}

} // verus!
