//! The chunk reader: groups a byte stream, handed over in chunks of any
//! size, into rows of sixteen bytes aligned to the start of the stream.
use vstd::prelude::*;
use crate::row::ROW_LEN;

verus! {

/// Number of rows for a stream of `n` bytes: one per started group of sixteen.
pub open spec fn row_count(n: nat) -> nat {
    (n + 15) / 16
}

/// Number of complete sixteen-byte rows in a stream of `n` bytes.
pub open spec fn full_rows(n: nat) -> nat {
    n / 16
}

/// Row `i` of the stream `s`: sixteen bytes from `16 * i`, or fewer at the end.
pub open spec fn row_at(s: Seq<u8>, i: nat) -> Seq<u8> {
    let start = 16 * i;
    let end = if start + 16 <= s.len() {
        start + 16
    } else {
        s.len() as nat
    };
    s.subrange(start as int, end as int)
}

/// All rows of the stream `s`, in order.
pub open spec fn rows_of(s: Seq<u8>) -> Seq<Seq<u8>> {
    Seq::new(row_count(s.len()), |i: int| row_at(s, i as nat))
}

/// Total number of bytes in a sequence of rows.
pub open spec fn total_len(rows: Seq<Seq<u8>>) -> nat
    decreases rows.len(),
{
    if rows.len() == 0 {
        0
    } else {
        total_len(rows.drop_last()) + rows.last().len()
    }
}

proof fn lemma_div16(m: nat, p: nat)
    requires
        p < 16,
    ensures
        (16 * m + p) / 16 == m,
        full_rows(16 * m + p) == m,
{
    assert((16 * m + p) / 16 == m) by (nonlinear_arith)
        requires
            p < 16,
    ;
}

proof fn lemma_row_end(k0: nat, j: int, m: nat)
    requires
        0 <= j,
        k0 + j < m,
    ensures
        16 * (k0 + j) + 16 <= 16 * m,
{
    assert(16 * (k0 + j) + 16 <= 16 * m) by (nonlinear_arith)
        requires
            0 <= j,
            k0 + j < m,
    ;
}

/// One row of the stream together with the offset of its first byte.
pub struct Row {
    pub offset: u32,
    pub bytes: Vec<u8>,
}

/// Groups the bytes it is fed into rows. Only the bytes of the row not yet
/// complete are held; the offset is that of the first of them.
pub struct ChunkReader {
    offset: u32,
    pending: Vec<u8>,
    consumed: Ghost<Seq<u8>>,
}

impl View for ChunkReader {
    type V = Seq<u8>;

    /// Every byte fed so far.
    closed spec fn view(&self) -> Seq<u8> {
        self.consumed@
    }
}

impl ChunkReader {
    /// The offset is that of the first byte of the incomplete row, and the
    /// pending bytes are exactly the bytes fed since.
    pub closed spec fn wf(&self) -> bool {
        &&& self.consumed@.len() <= u32::MAX
        &&& self.offset as nat == 16 * full_rows(self.consumed@.len())
        &&& self.offset <= self.consumed@.len()
        &&& self.pending@ == self.consumed@.subrange(self.offset as int, self.consumed@.len() as int)
    }

    /// A reader at the start of a stream.
    pub fn new() -> (r: Self)
        ensures
            r.wf(),
            r@ == Seq::<u8>::empty(),
    {
        let r = ChunkReader { offset: 0, pending: Vec::new(), consumed: Ghost(Seq::empty()) };
        assert(r.pending@ =~= r.consumed@.subrange(0, 0));
        r
    }

    /// The offset of the first byte not yet handed out in a row.
    pub fn offset(&self) -> (r: u32)
        requires
            self.wf(),
        ensures
            r as nat == 16 * full_rows(self@.len()),
    {
        self.offset
    }

    /// Feeds the next chunk of the stream and returns the rows it completes,
    /// in order, each with its offset.
    pub fn feed(&mut self, chunk: &[u8]) -> (rows: Vec<Row>)
        requires
            old(self).wf(),
            old(self)@.len() + chunk@.len() <= u32::MAX,
        ensures
            final(self).wf(),
            final(self)@ == old(self)@ + chunk@,
            rows@.len() == full_rows(final(self)@.len()) - full_rows(old(self)@.len()),
            forall|j: int|
                #![trigger rows@[j]]
                0 <= j < rows@.len() ==> {
                    let k = full_rows(old(self)@.len()) + j;
                    &&& rows@[j].offset as nat == 16 * k
                    &&& rows@[j].bytes@ == row_at(final(self)@, k as nat)
                    &&& rows@[j].bytes@.len() == ROW_LEN
                },
    {
        let ghost k0 = full_rows(self@.len());
        let ghost start = self@;
        let mut rows: Vec<Row> = Vec::new();
        let mut i: usize = 0;
        while i < chunk.len()
            invariant
                self.wf(),
                i <= chunk@.len(),
                start.len() + chunk@.len() <= u32::MAX,
                k0 == full_rows(start.len()),
                self@ == start + chunk@.take(i as int),
                rows@.len() == full_rows(self@.len()) - k0,
                forall|j: int|
                #![trigger rows@[j]]
                    0 <= j < rows@.len() ==> {
                        let k = k0 + j;
                        &&& rows@[j].offset as nat == 16 * k
                        &&& rows@[j].bytes@ == self@.subrange(16 * k, 16 * k + 16)
                    },
            decreases chunk.len() - i,
        {
            let b = chunk[i];
            let ghost before = self@;
            let ghost m = full_rows(before.len());
            let ghost nrows = rows@.len();
            self.pending.push(b);
            self.consumed = Ghost(self.consumed@.push(b));
            assert(self@ =~= start + chunk@.take(i + 1));
            assert(self.pending@ =~= self@.subrange(self.offset as int, self@.len() as int));
            assert forall|j: int| #![trigger rows@[j]] 0 <= j < nrows implies rows@[j].bytes@ == self@.subrange(
                16 * (k0 + j),
                16 * (k0 + j) + 16,
            ) by {
                assert(rows@[j].offset as nat == 16 * (k0 + j));
                lemma_row_end(k0, j, m);
                assert(self@.subrange(16 * (k0 + j), 16 * (k0 + j) + 16) =~= before.subrange(
                    16 * (k0 + j),
                    16 * (k0 + j) + 16,
                ));
            }
            if self.pending.len() == ROW_LEN {
                let mut full: Vec<u8> = Vec::new();
                core::mem::swap(&mut full, &mut self.pending);
                rows.push(Row { offset: self.offset, bytes: full });
                self.offset = self.offset + 16;
                proof { lemma_div16((m + 1) as nat, 0); }
                assert(self.pending@ =~= self@.subrange(self.offset as int, self@.len() as int));
            } else {
                proof { lemma_div16(m, self.pending@.len()); }
            }
            i = i + 1;
        }
        assert(chunk@.take(i as int) =~= chunk@);
        assert forall|j: int| #![trigger rows@[j]] 0 <= j < rows@.len() implies {
            let k = full_rows(start.len()) + j;
            &&& rows@[j].offset as nat == 16 * k
            &&& rows@[j].bytes@ == row_at(self@, k as nat)
            &&& rows@[j].bytes@.len() == ROW_LEN
        } by {
            assert(rows@[j].offset as nat == 16 * (k0 + j));
            lemma_row_end(k0, j, full_rows(self@.len()));
        }
        rows
    }

    /// Ends the stream: the last, short row if one is left.
    pub fn finish(self) -> (last: Option<Row>)
        requires
            self.wf(),
        ensures
            last is None <==> self@.len() % 16 == 0,
            last is Some ==> {
                let k = full_rows(self@.len());
                &&& last->0.offset as nat == 16 * k
                &&& last->0.bytes@ == row_at(self@, k)
                &&& k + 1 == row_count(self@.len())
            },
    {
        if self.pending.len() == 0 {
            None
        } else {
            Some(Row { offset: self.offset, bytes: self.pending })
        }
    }
}

} // verus!
