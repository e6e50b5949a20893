//! The chunk-boundary accounting: a running count of lines and bytes that
//! completes a chunk every `chunk_size` lines, and a trailing chunk at the end.
use crate::chunk::{record_text, Chunk};
use vstd::arithmetic::div_mod::lemma_fundamental_div_mod_converse;
use vstd::prelude::*;
use vstd::string::*;

verus! {

/// The chunks `cs` lie one after another, each covering at least one line and
/// one byte, and together they cover the lines `first_line .. end_line` and the
/// bytes `first_byte .. end_byte` (end bounds exclusive), with no gap and no
/// overlap.
pub open spec fn tiles(cs: Seq<Chunk>, first_line: int, end_line: int, first_byte: int, end_byte: int) -> bool
    decreases cs.len(),
{
    if cs.len() == 0 {
        first_line == end_line && first_byte == end_byte
    } else {
        let c = cs.last();
        &&& c.r.0 <= c.r.1
        &&& c.b.0 <= c.b.1
        &&& c.r.1 + 1 == end_line
        &&& c.b.1 + 1 == end_byte
        &&& tiles(cs.drop_last(), first_line, c.r.0 as int, first_byte, c.b.0 as int)
    }
}

/// The number of lines in the line range of `c`.
pub open spec fn line_count(c: Chunk) -> int {
    c.r.1 + 1 - c.r.0
}

/// The chunk that an optional result adds to a run's output.
pub open spec fn as_seq(r: Option<Chunk>) -> Seq<Chunk> {
    match r {
        Some(c) => seq![c],
        None => Seq::empty(),
    }
}

/// Accumulates lines of one input stream into chunks of `chunk_size` lines.
pub struct ChunkFactory {
    /// How many lines make one chunk.
    pub chunk_size: usize,
    /// Whether each completed chunk's record is also appended to the output text.
    pub to_stdout: bool,
    /// The offset of the first byte of the chunk being accumulated.
    pub start_of_chunk_byte_index: usize,
    last_line_current_chunk: usize,
    current_byte_index: usize,
    lines_in_chunk: usize,
    first_byte: Ghost<usize>,
    emitted: Ghost<Seq<Chunk>>,
}

impl ChunkFactory {
    /// How many lines make one chunk.
    pub closed spec fn size(&self) -> usize {
        self.chunk_size
    }

    /// Whether completed chunks' records are appended to the output text.
    pub closed spec fn writes_records(&self) -> bool {
        self.to_stdout
    }

    /// The offset of the first byte of the chunk being accumulated.
    pub closed spec fn chunk_start(&self) -> usize {
        self.start_of_chunk_byte_index
    }

    /// The offset just past the last byte accounted for.
    pub closed spec fn cursor(&self) -> usize {
        self.current_byte_index
    }

    /// The number of lines in all completed chunks.
    pub closed spec fn boundary(&self) -> usize {
        self.last_line_current_chunk
    }

    /// The number of lines accounted for since the last completed chunk.
    pub closed spec fn pending(&self) -> usize {
        self.lines_in_chunk
    }

    /// The number of lines accounted for so far.
    pub closed spec fn lines_seen(&self) -> int {
        self.last_line_current_chunk + self.lines_in_chunk
    }

    /// The byte offset that the factory was created with.
    pub closed spec fn first_byte(&self) -> usize {
        self.first_byte@
    }

    /// The chunks completed so far, in order.
    pub closed spec fn emitted(&self) -> Seq<Chunk> {
        self.emitted@
    }

    /// The state of a factory between calls: fewer than `chunk_size` lines
    /// pending, the completed chunks tiling the input read before the current
    /// chunk, and every line having taken at least one byte.
    pub closed spec fn wf(&self) -> bool {
        &&& self.chunk_size >= 1
        &&& self.lines_in_chunk < self.chunk_size
        &&& self.start_of_chunk_byte_index + self.lines_in_chunk <= self.current_byte_index
        &&& (self.lines_in_chunk == 0 ==> self.start_of_chunk_byte_index == self.current_byte_index)
        &&& self.last_line_current_chunk + self.lines_in_chunk <= usize::MAX
        &&& self.last_line_current_chunk == self.emitted@.len() * self.chunk_size
        &&& tiles(
            self.emitted@,
            0,
            self.last_line_current_chunk as int,
            self.first_byte@ as int,
            self.start_of_chunk_byte_index as int,
        )
        &&& forall|i: int|
            0 <= i < self.emitted@.len() ==> line_count(#[trigger] self.emitted@[i])
                == self.chunk_size
    }

    /// A factory for chunks of `chunk_size` lines over input that starts at
    /// byte offset `start_of_chunk_byte_index`. A chunk size of zero is a
    /// configuration error, ruled out by the precondition.
    pub fn new(chunk_size: usize, to_stdout: bool, start_of_chunk_byte_index: usize) -> (r:
        ChunkFactory)
        requires
            chunk_size >= 1,
        ensures
            r.wf(),
            r.size() == chunk_size,
            r.writes_records() == to_stdout,
            r.chunk_start() == start_of_chunk_byte_index,
            r.cursor() == start_of_chunk_byte_index,
            r.first_byte() == start_of_chunk_byte_index,
            r.lines_seen() == 0,
            r.pending() == 0,
            r.boundary() == 0,
            r.emitted() == Seq::<Chunk>::empty(),
    {
        ChunkFactory {
            chunk_size,
            to_stdout,
            start_of_chunk_byte_index,
            current_byte_index: start_of_chunk_byte_index,
            last_line_current_chunk: 0,
            lines_in_chunk: 0,
            first_byte: Ghost(start_of_chunk_byte_index),
            emitted: Ghost(Seq::empty()),
        }
    }

    /// The offset just past the last byte accounted for: where reading goes
    /// on, or the starting offset of a fresh factory for the rest of the input.
    pub fn get_current_byte_index(&self) -> (r: usize)
        ensures
            r == self.cursor(),
    {
        self.current_byte_index
    }

    /// The number of lines accounted for so far.
    pub fn lines_processed(&self) -> (r: usize)
        requires
            self.wf(),
        ensures
            r == self.lines_seen(),
    {
        self.last_line_current_chunk + self.lines_in_chunk
    }

    /// Accounts for line `line_nr` (the 1-based ordinal of the line just
    /// read), which occupied `additional_bytes` bytes of the input. When this
    /// line completes a chunk of `chunk_size` lines, returns that chunk:
    /// lines `line_nr - chunk_size ..= line_nr - 1` (0-based) and the bytes
    /// from the chunk's start up to the last byte of this line; if records are
    /// written, its record and a newline are appended to `immediate_output`.
    /// Every line occupies at least one byte: its terminator, or for a last
    /// line without one, its characters.
    pub fn create_chunk_if_needed(
        &mut self,
        line_nr: usize,
        additional_bytes: usize,
        immediate_output: &mut String,
    ) -> (r: Option<Chunk>)
        requires
            old(self).wf(),
            line_nr == old(self).lines_seen() + 1,
            additional_bytes >= 1,
            old(self).cursor() + additional_bytes <= usize::MAX,
        ensures
            final(self).wf(),
            final(self).size() == old(self).size(),
            final(self).writes_records() == old(self).writes_records(),
            final(self).first_byte() == old(self).first_byte(),
            final(self).cursor() == old(self).cursor() + additional_bytes,
            final(self).lines_seen() == line_nr,
            if old(self).pending() + 1 == old(self).size() {
                &&& r == Some(
                    (Chunk {
                        r: ((line_nr - old(self).size()) as usize, (line_nr - 1) as usize),
                        b: (old(self).chunk_start(), (final(self).cursor() - 1) as usize),
                    }),
                )
                &&& final(self).chunk_start() == final(self).cursor()
                &&& final(self).pending() == 0
                &&& final(self).boundary() == line_nr
                &&& final(self).emitted() == old(self).emitted().push(r->Some_0)
            } else {
                &&& r is None
                &&& final(self).chunk_start() == old(self).chunk_start()
                &&& final(self).pending() == old(self).pending() + 1
                &&& final(self).boundary() == old(self).boundary()
                &&& final(self).emitted() == old(self).emitted()
            },
            r is Some && old(self).writes_records() ==> final(immediate_output)@ == old(
                immediate_output,
            )@ + record_text(r->Some_0) + seq!['\n'],
            !(r is Some && old(self).writes_records()) ==> final(immediate_output)@ == old(
                immediate_output,
            )@,
    {
        self.current_byte_index = self.current_byte_index + additional_bytes;
        self.lines_in_chunk = self.lines_in_chunk + 1;
        if self.lines_in_chunk >= self.chunk_size {
            self.last_line_current_chunk = line_nr;
            let chunk = Chunk {
                r: (
                    self.last_line_current_chunk - self.lines_in_chunk,
                    self.last_line_current_chunk - 1,
                ),
                b: (self.start_of_chunk_byte_index, self.current_byte_index - 1),
            };
            if self.to_stdout {
                let text = chunk.encode();
                immediate_output.append(text.as_str());
                immediate_output.append("\n");
                proof {
                    reveal_strlit("\n");
                }
            }
            proof {
                let ghost prev = self.emitted@;
                let ghost cs = prev.push(chunk);
                assert(cs.drop_last() =~= prev);
                assert(line_nr == (prev.len() + 1) * self.chunk_size) by (nonlinear_arith)
                    requires
                        line_nr == prev.len() * self.chunk_size + self.chunk_size,
                ;
                assert forall|i: int| 0 <= i < cs.len() implies line_count(#[trigger] cs[i])
                    == self.chunk_size by {
                    if i < prev.len() {
                        assert(cs[i] == prev[i]);
                    }
                }
                self.emitted@ = cs;
            }
            self.start_of_chunk_byte_index = self.current_byte_index;
            self.lines_in_chunk = 0;
            return Some(chunk);
        }
        None
    }

    /// The trailing chunk, at the end of the input: `line_nr` is the number
    /// of lines read (0 when there were none). When lines were read and some
    /// of them are in no completed chunk, or when `only_chunk` forces it,
    /// returns the chunk from the end of the last completed chunk up to line
    /// `line_nr - 1` and the last byte read; otherwise nothing.
    pub fn create_last_chunk(&self, line_nr: usize, only_chunk: bool) -> (r: Option<Chunk>)
        requires
            self.wf(),
            line_nr == self.lines_seen(),
        ensures
            r is Some <==> line_nr > 0 && (self.pending() > 0 || only_chunk),
            r is Some ==> r->Some_0 == (Chunk {
                r: (self.boundary(), (line_nr - 1) as usize),
                b: (self.chunk_start(), (self.cursor() - 1) as usize),
            }),
            // with no chunk left to flush, nothing comes unless it is forced
            !only_chunk ==> (r is None <==> line_nr % self.size() == 0),
            // a trailing chunk holds the lines after the last multiple of the size
            r is Some ==> r->Some_0.r.0 == line_nr - line_nr % self.size(),
            // the whole input in one chunk, when forced
            only_chunk && 0 < line_nr < self.size() ==> r == Some(
                (Chunk {
                    r: (0, (line_nr - 1) as usize),
                    b: (self.first_byte(), (self.cursor() - 1) as usize),
                }),
            ),
            // the chunks of the run cover the lines and bytes read
            !only_chunk || self.pending() > 0 ==> tiles(
                self.emitted() + as_seq(r),
                0,
                line_nr as int,
                self.first_byte() as int,
                self.cursor() as int,
            ),
    {
        proof {
            self.lemma_wf_facts();
        }
        if line_nr > 0 {
            if line_nr > self.last_line_current_chunk || only_chunk {
                let chunk = Chunk {
                    r: (self.last_line_current_chunk, line_nr - 1),
                    b: (self.start_of_chunk_byte_index, self.current_byte_index - 1),
                };
                proof {
                    if self.lines_in_chunk > 0 {
                        let cs = self.emitted@ + seq![chunk];
                        assert(cs.drop_last() =~= self.emitted@);
                    }
                }
                return Some(chunk);
            }
        }
        proof {
            assert(self.emitted@ + as_seq(None) =~= self.emitted@);
        }
        None
    }

    /// At every point of a run, the chunks completed so far lie one after
    /// another from line 0 and from the starting byte offset, with no gap and
    /// no overlap, up to the start of the chunk being accumulated; each of
    /// them holds exactly `chunk_size` lines.
    pub proof fn lemma_completed_chunks(&self)
        requires
            self.wf(),
        ensures
            tiles(
                self.emitted(),
                0,
                self.boundary() as int,
                self.first_byte() as int,
                self.chunk_start() as int,
            ),
            forall|i: int|
                0 <= i < self.emitted().len() ==> line_count(#[trigger] self.emitted()[i])
                    == self.size(),
            self.boundary() + self.pending() == self.lines_seen(),
            self.pending() < self.size(),
    {
    }

    proof fn lemma_wf_facts(&self)
        requires
            self.wf(),
        ensures
            self.lines_seen() % self.chunk_size as int == self.lines_in_chunk,
            self.lines_seen() - self.lines_seen() % self.chunk_size as int
                == self.last_line_current_chunk,
            self.last_line_current_chunk > 0 ==> self.start_of_chunk_byte_index > 0,
            self.lines_seen() < self.chunk_size ==> self.last_line_current_chunk == 0
                && self.start_of_chunk_byte_index == self.first_byte@,
    {
        let k = self.emitted@.len() as int;
        let n = self.chunk_size as int;
        lemma_fundamental_div_mod_converse(self.lines_seen(), n, k, self.lines_in_chunk as int);
        if self.lines_seen() < n {
            assert(k == 0) by (nonlinear_arith)
                requires
                    k >= 0,
                    n >= 1,
                    k * n < n,
            ;
        }
        if self.last_line_current_chunk > 0 {
            assert(self.emitted@.len() > 0);
        }
    }
}

} // verus!
