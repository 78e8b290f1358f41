//! The dump driver: turns a stream, fed in chunks, into newline-terminated
//! formatted lines (or raw hex lines), one per row.
use vstd::prelude::*;
use crate::reader::{full_rows, row_at, row_count, rows_of, total_len, ChunkReader};
use crate::row::{ascii_field, format_line, hex_field, offset_field, push_raw_hex, push_row, raw_hex};
use crate::hex::{hex_digits, hex_number, hex_pair, lemma_hex_digits_number, pow16};

verus! {

/// The output line for one row, with its terminating newline.
pub open spec fn line_of(r: Seq<u8>, offset: nat, raw: bool) -> Seq<u8> {
    let body = if raw {
        raw_hex(r)
    } else {
        format_line(r, offset)
    };
    body.push(10u8)
}

/// The output lines for the first `n` rows of the stream `s`.
pub open spec fn lines_upto(s: Seq<u8>, n: nat, raw: bool) -> Seq<Seq<u8>> {
    Seq::new(n, |i: int| line_of(row_at(s, i as nat), 16 * i as nat, raw))
}

/// The output lines for the whole stream `s`.
pub open spec fn dump_lines(s: Seq<u8>, raw: bool) -> Seq<Seq<u8>> {
    lines_upto(s, row_count(s.len()), raw)
}

/// The lines written one after the other.
pub open spec fn join(lines: Seq<Seq<u8>>) -> Seq<u8>
    decreases lines.len(),
{
    if lines.len() == 0 {
        Seq::empty()
    } else {
        join(lines.drop_last()) + lines.last()
    }
}

/// Everything the driver writes for the stream `s`.
pub open spec fn dump_text(s: Seq<u8>, raw: bool) -> Seq<u8> {
    join(dump_lines(s, raw))
}

/// The lines of complete rows do not change as the stream grows.
pub proof fn lemma_lines_stable(s: Seq<u8>, t: Seq<u8>, n: nat, raw: bool)
    requires
        16 * n <= s.len(),
    ensures
        lines_upto(s + t, n, raw) == lines_upto(s, n, raw),
{
    assert forall|i: int| 0 <= i < n implies #[trigger] row_at(s + t, i as nat) == row_at(s, i as nat) by {
        assert(16 * i + 16 <= 16 * n) by (nonlinear_arith)
            requires
                i < n,
        ;
        assert(row_at(s + t, i as nat) =~= row_at(s, i as nat));
    }
    assert(lines_upto(s + t, n, raw) =~= lines_upto(s, n, raw));
}

/// One more row adds its line at the end.
pub(crate) proof fn lemma_lines_step(s: Seq<u8>, n: nat, raw: bool)
    ensures
        join(lines_upto(s, n + 1, raw)) == join(lines_upto(s, n, raw)) + line_of(
            row_at(s, n),
            16 * n,
            raw,
        ),
{
    assert(lines_upto(s, n + 1, raw).drop_last() =~= lines_upto(s, n, raw));
}

/// Appends the output line for one row.
fn push_line(out: &mut Vec<u8>, bytes: &[u8], offset: u32, raw: bool)
    ensures
        final(out)@ == old(out)@ + line_of(bytes@, offset as nat, raw),
{
    if raw {
        push_raw_hex(out, bytes);
    } else {
        push_row(out, bytes, offset);
    }
    out.push(10u8);
    assert(final(out)@ =~= old(out)@ + line_of(bytes@, offset as nat, raw));
}

/// A dump in progress: the rows seen so far and the presentation mode.
pub struct HexViewer {
    reader: ChunkReader,
    raw: bool,
}

impl View for HexViewer {
    type V = Seq<u8>;

    /// Every byte fed so far.
    closed spec fn view(&self) -> Seq<u8> {
        self.reader@
    }
}

impl HexViewer {
    /// The underlying reader is well formed.
    pub closed spec fn wf(&self) -> bool {
        self.reader.wf()
    }

    /// Whether only the raw hex digits are written.
    pub closed spec fn raw_mode(&self) -> bool {
        self.raw
    }

    /// The output so far: the lines of the complete rows.
    pub open spec fn written(&self) -> Seq<u8> {
        join(lines_upto(self@, full_rows(self@.len()), self.raw_mode()))
    }

    /// A dump at the start of a stream, in formatted or raw mode.
    pub fn new(raw: bool) -> (r: Self)
        ensures
            r.wf(),
            r@ == Seq::<u8>::empty(),
            r.raw_mode() == raw,
    {
        HexViewer { reader: ChunkReader::new(), raw }
    }

    /// Whether only the raw hex digits are written.
    pub fn is_raw(&self) -> (r: bool)
        ensures
            r == self.raw_mode(),
    {
        self.raw
    }

    /// Feeds the next chunk and returns the lines of the rows it completes.
    pub fn display(&mut self, chunk: &[u8]) -> (out: Vec<u8>)
        requires
            old(self).wf(),
            old(self)@.len() + chunk@.len() <= u32::MAX,
        ensures
            final(self).wf(),
            final(self)@ == old(self)@ + chunk@,
            final(self).raw_mode() == old(self).raw_mode(),
            final(self).written() == old(self).written() + out@,
    {
        let ghost k0 = full_rows(self@.len());
        let ghost before = self@;
        let rows = self.reader.feed(chunk);
        let ghost after = self@;
        let mut out: Vec<u8> = Vec::new();
        let mut j: usize = 0;
        while j < rows.len()
            invariant
                j <= rows@.len(),
                rows@.len() == full_rows(after.len()) - k0,
                forall|m: int|
                    #![trigger rows@[m]]
                    0 <= m < rows@.len() ==> {
                        let k = k0 + m;
                        &&& rows@[m].offset as nat == 16 * k
                        &&& rows@[m].bytes@ == row_at(after, k as nat)
                    },
                join(lines_upto(after, k0, self.raw)) + out@ == join(
                    lines_upto(after, (k0 + j) as nat, self.raw),
                ),
            decreases rows.len() - j,
        {
            let row = &rows[j];
            push_line(&mut out, row.bytes.as_slice(), row.offset, self.raw);
            proof {
                lemma_lines_step(after, (k0 + j) as nat, self.raw);
            }
            assert(join(lines_upto(after, k0, self.raw)) + out@ =~= join(
                lines_upto(after, (k0 + j + 1) as nat, self.raw),
            ));
            j = j + 1;
        }
        proof {
            assert(16 * k0 <= before.len());
            lemma_lines_stable(before, chunk@, k0, self.raw);
        }
        out
    }

    /// Ends the stream and returns the line of the last, short row, if any.
    pub fn finish(self) -> (out: Vec<u8>)
        requires
            self.wf(),
        ensures
            self.written() + out@ == dump_text(self@, self.raw_mode()),
    {
        let ghost s = self@;
        let raw = self.raw;
        let mut out: Vec<u8> = Vec::new();
        match self.reader.finish() {
            Some(row) => {
                push_line(&mut out, row.bytes.as_slice(), row.offset, raw);
                proof {
                    lemma_lines_step(s, full_rows(s.len()), raw);
                }
            },
            None => {
                assert(full_rows(s.len()) == row_count(s.len()));
            },
        }
        assert(self.written() + out@ =~= dump_text(s, raw));
        out
    }
}

/// The whole dump of `data`, formatted or raw.
pub fn dump(data: &[u8], raw: bool) -> (out: Vec<u8>)
    requires
        data@.len() <= u32::MAX,
    ensures
        out@ == dump_text(data@, raw),
{
    let mut viewer = HexViewer::new(raw);
    let mut out = viewer.display(data);
    assert(viewer@ =~= data@);
    let mut tail = viewer.finish();
    out.append(&mut tail);
    out
}

/// A stream of `n` bytes is dumped as one line per row, ceil(n / 16) lines in
/// all; every row but the last is full, and the last holds `n % 16` bytes, or
/// sixteen when `n` is a positive multiple of sixteen.
pub proof fn lemma_line_count(s: Seq<u8>, raw: bool)
    ensures
        dump_lines(s, raw).len() == (s.len() + 15) / 16,
        rows_of(s).len() == dump_lines(s, raw).len(),
        forall|i: int|
            0 <= i < rows_of(s).len() ==> #[trigger] dump_lines(s, raw)[i] == line_of(
                rows_of(s)[i],
                16 * i as nat,
                raw,
            ),
        forall|i: int| 0 <= i < rows_of(s).len() - 1 ==> (#[trigger] rows_of(s)[i]).len() == 16,
        s.len() > 0 ==> rows_of(s).last().len() == (if s.len() % 16 == 0 {
            16
        } else {
            s.len() % 16
        }),
{
    let n = s.len();
    let c = row_count(n);
    assert forall|i: int| 0 <= i < c - 1 implies (#[trigger] rows_of(s)[i]).len() == 16 by {
        assert(16 * i + 16 <= n) by (nonlinear_arith)
            requires
                0 <= i < c - 1,
                c == (n + 15) / 16,
        ;
    }
    if n > 0 {
        let q = n / 16;
        let r = n % 16;
        assert(n == 16 * q + r);
        if r == 0 {
            assert(c == q);
        } else {
            assert(c == q + 1);
        }
    }
}

proof fn lemma_prefix_len(s: Seq<u8>, i: nat)
    requires
        i <= rows_of(s).len(),
        i < rows_of(s).len() || s.len() % 16 == 0,
    ensures
        total_len(rows_of(s).take(i as int)) == 16 * i,
    decreases i,
{
    if i > 0 {
        let rows = rows_of(s);
        lemma_prefix_len(s, (i - 1) as nat);
        assert(rows.take(i as int).drop_last() =~= rows.take(i - 1));
        let n = s.len();
        assert(16 * (i - 1) + 16 <= n) by (nonlinear_arith)
            requires
                0 < i <= (n + 15) / 16,
                i < (n + 15) / 16 || n % 16 == 0,
        ;
    }
}

/// Each formatted line begins with its offset column, and that column, read
/// as a hex number, is the number of bytes in all the rows before it.
pub proof fn lemma_offsets(s: Seq<u8>, i: int)
    requires
        s.len() <= u32::MAX,
        0 <= i < rows_of(s).len(),
    ensures
        dump_lines(s, false)[i].take(8) == offset_field(16 * i as nat),
        hex_number(offset_field(16 * i as nat)) == total_len(rows_of(s).take(i)),
{
    let off = (16 * i) as nat;
    lemma_hex_digits_number(off, 8);
    assert(pow16(0) == 1);
    assert(pow16(1) == 16);
    assert(pow16(2) == 256);
    assert(pow16(3) == 4096);
    assert(pow16(4) == 65536);
    assert(pow16(5) == 1048576);
    assert(pow16(6) == 16777216);
    assert(pow16(7) == 268435456);
    assert(pow16(8) == 4294967296);
    let n = s.len();
    assert(16 * i < 4294967296) by (nonlinear_arith)
        requires
            0 <= i < (n + 15) / 16,
            n <= u32::MAX,
    ;
    lemma_prefix_len(s, i as nat);
    assert(dump_lines(s, false)[i].take(8) =~= offset_field(off));
}

/// Number of newline bytes in `s`.
pub open spec fn count_newlines(s: Seq<u8>) -> nat
    decreases s.len(),
{
    if s.len() == 0 {
        0
    } else {
        count_newlines(s.drop_last()) + if s.last() == 10 {
            1nat
        } else {
            0nat
        }
    }
}

/// `s` holds no newline byte.
pub open spec fn no_newline(s: Seq<u8>) -> bool {
    forall|i: int| 0 <= i < s.len() ==> #[trigger] s[i] != 10
}

proof fn lemma_count_concat(a: Seq<u8>, b: Seq<u8>)
    ensures
        count_newlines(a + b) == count_newlines(a) + count_newlines(b),
    decreases b.len(),
{
    if b.len() == 0 {
        assert(a + b =~= a);
    } else {
        assert((a + b).drop_last() =~= a + b.drop_last());
        lemma_count_concat(a, b.drop_last());
    }
}

proof fn lemma_count_none(s: Seq<u8>)
    requires
        no_newline(s),
    ensures
        count_newlines(s) == 0,
    decreases s.len(),
{
    if s.len() > 0 {
        assert(s[s.len() - 1] != 10);
        lemma_count_none(s.drop_last());
    }
}

proof fn lemma_no_newline_concat(a: Seq<u8>, b: Seq<u8>)
    requires
        no_newline(a),
        no_newline(b),
    ensures
        no_newline(a + b),
{
    assert forall|i: int| 0 <= i < (a + b).len() implies #[trigger] (a + b)[i] != 10 by {
        if i < a.len() {
            assert((a + b)[i] == a[i]);
        } else {
            assert((a + b)[i] == b[i - a.len()]);
        }
    }
}

proof fn lemma_pair_no_newline(b: u8)
    ensures
        no_newline(hex_pair(b)),
{
}

proof fn lemma_digits_no_newline(n: nat, k: nat)
    ensures
        no_newline(hex_digits(n, k)),
    decreases k,
{
    if k > 0 {
        lemma_digits_no_newline(n / 16, (k - 1) as nat);
        lemma_no_newline_concat(hex_digits(n / 16, (k - 1) as nat), seq![hex_digits(n, k).last()]);
        assert(hex_digits(n, k) =~= hex_digits(n / 16, (k - 1) as nat) + seq![
            hex_digits(n, k).last(),
        ]);
    }
}

proof fn lemma_fields_no_newline(r: Seq<u8>)
    ensures
        no_newline(hex_field(r)),
        no_newline(raw_hex(r)),
        no_newline(ascii_field(r)),
    decreases r.len(),
{
    if r.len() > 0 {
        let p = r.drop_last();
        lemma_fields_no_newline(p);
        lemma_pair_no_newline(r.last());
        lemma_no_newline_concat(raw_hex(p), hex_pair(r.last()));
        lemma_no_newline_concat(hex_field(p), hex_pair(r.last()));
        let sep: Seq<u8> = if (r.len() - 1) % 2 == 1 {
            seq![32u8]
        } else {
            Seq::empty()
        };
        lemma_no_newline_concat(hex_field(p) + hex_pair(r.last()), sep);
    }
}

proof fn lemma_line_one_newline(r: Seq<u8>, offset: nat, raw: bool)
    ensures
        count_newlines(line_of(r, offset, raw)) == 1,
{
    lemma_fields_no_newline(r);
    lemma_digits_no_newline(offset, 8);
    let body = if raw {
        raw_hex(r)
    } else {
        format_line(r, offset)
    };
    if !raw {
        let a = offset_field(offset) + seq![58u8, 32u8];
        lemma_no_newline_concat(offset_field(offset), seq![58u8, 32u8]);
        lemma_no_newline_concat(a, hex_field(r));
        lemma_no_newline_concat(a + hex_field(r), seq![32u8]);
        lemma_no_newline_concat(a + hex_field(r) + seq![32u8], ascii_field(r));
    }
    lemma_count_none(body);
    assert(line_of(r, offset, raw).drop_last() =~= body);
}

proof fn lemma_join_count(s: Seq<u8>, n: nat, raw: bool)
    ensures
        count_newlines(join(lines_upto(s, n, raw))) == n,
    decreases n,
{
    if n > 0 {
        let m = (n - 1) as nat;
        lemma_join_count(s, m, raw);
        lemma_lines_step(s, m, raw);
        lemma_line_one_newline(row_at(s, m), 16 * m, raw);
        lemma_count_concat(join(lines_upto(s, m, raw)), line_of(row_at(s, m), 16 * m, raw));
    }
}

/// The whole output of a dump of `n` bytes holds exactly ceil(n / 16)
/// newline bytes: one per line, none inside a line.
pub proof fn lemma_newline_count(s: Seq<u8>, raw: bool)
    ensures
        count_newlines(dump_text(s, raw)) == (s.len() + 15) / 16,
{
    lemma_join_count(s, row_count(s.len()), raw);
}

} // verus!
