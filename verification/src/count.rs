//! Line counting over the bytes of one file.
//!
//! A file is counted either as one buffer (`count_buffer`) or as a stream of
//! chunks fed to a `StreamCounter`. A file is binary when a null byte occurs
//! in its first `BINARY_CHECK_BYTES` bytes (the heuristic Git uses); a binary
//! file has no lines. Otherwise its line count is the number of `\n` bytes,
//! plus one when the last byte is not `\n` (an unterminated last line).
use vstd::prelude::*;

verus! {

/// Files of at most this many bytes are read and counted as one buffer.
pub const SMALL_FILE_THRESHOLD: u64 = 64 * 1024;

/// Size of the chunks in which larger files are read.
pub const CHUNK_SIZE: usize = 64 * 1024;

/// Only this many leading bytes are searched for a null byte.
pub const BINARY_CHECK_BYTES: usize = 8 * 1024;

/// The newline byte.
pub const NEWLINE: u8 = 10;

/// What counting one file gives: its number of lines, or that it is binary.
#[derive(Debug, Clone, Copy, PartialEq, Eq, Structural)]
pub struct LineCounts {
    pub lines: u64,
    pub binary: bool,
}

impl Default for LineCounts {
    fn default() -> (counts: Self)
        ensures
            counts == (LineCounts { lines: 0, binary: false }),
    {
        LineCounts { lines: 0, binary: false }
    }
}

impl LineCounts {
    /// The counts of a binary file: no lines, flagged binary.
    pub open spec fn spec_binary() -> LineCounts {
        LineCounts { lines: 0, binary: true }
    }

    /// The counts of a binary file: no lines, flagged binary.
    pub fn binary() -> (counts: Self)
        ensures
            counts == LineCounts::spec_binary(),
    {
        Self { lines: 0, binary: true }
    }
}

/// How many bytes of `s` equal `b`.
pub open spec fn occurrences(s: Seq<u8>, b: u8) -> nat
    decreases s.len(),
{
    if s.len() == 0 {
        0
    } else {
        occurrences(s.drop_last(), b) + if s.last() == b {
            1nat
        } else {
            0nat
        }
    }
}

/// The last byte of `s`, if it has one.
pub open spec fn last_byte(s: Seq<u8>) -> Option<u8> {
    if s.len() == 0 {
        None
    } else {
        Some(s.last())
    }
}

/// One for an unterminated last line (a last byte that is not `\n`), else zero.
pub open spec fn adjustment(last: Option<u8>) -> nat {
    match last {
        Some(byte) => if byte != NEWLINE {
            1nat
        } else {
            0nat
        },
        None => 0nat,
    }
}

/// The number of lines of `s`: its newlines, plus an unterminated last line.
pub open spec fn lines_of(s: Seq<u8>) -> nat {
    occurrences(s, NEWLINE) + adjustment(last_byte(s))
}

/// Whether a null byte occurs among the first `BINARY_CHECK_BYTES` bytes of `s`.
pub open spec fn has_null_in_head(s: Seq<u8>) -> bool {
    exists|i: int| 0 <= i < s.len() && i < BINARY_CHECK_BYTES && #[trigger] s[i] == 0u8
}

/// The counts of a file whose whole contents are `s`.
pub open spec fn buffer_counts(s: Seq<u8>) -> LineCounts {
    if s.len() == 0 {
        LineCounts { lines: 0, binary: false }
    } else if has_null_in_head(s) {
        LineCounts::spec_binary()
    } else {
        LineCounts { lines: lines_of(s) as u64, binary: false }
    }
}

/// The bytes of `chunks`, one after the other.
pub open spec fn joined(chunks: Seq<Seq<u8>>) -> Seq<u8>
    decreases chunks.len(),
{
    if chunks.len() == 0 {
        Seq::empty()
    } else {
        joined(chunks.drop_last()) + chunks.last()
    }
}

/// Whether each of `chunks` holds at least one byte.
pub open spec fn all_nonempty(chunks: Seq<Seq<u8>>) -> bool {
    forall|i: int| 0 <= i < chunks.len() ==> #[trigger] chunks[i].len() > 0
}

/// Calls `bytecount::count`, which returns how many bytes of `haystack` equal
/// `needle`. The contract claims exactly that count.
#[verifier::external_body]
fn byte_count(haystack: &[u8], needle: u8) -> (n: usize)
    ensures
        n == occurrences(haystack@, needle),
{
    bytecount::count(haystack, needle)
}

/// Calls `memchr::memchr`, which returns the index of the first byte of
/// `haystack` that equals `needle`, or `None` when no byte does.
#[verifier::external_body]
fn first_index_of(needle: u8, haystack: &[u8]) -> (found: Option<usize>)
    ensures
        found matches Some(i) ==> {
            &&& i < haystack@.len()
            &&& haystack@[i as int] == needle
            &&& forall|j: int| 0 <= j < i ==> haystack@[j] != needle
        },
        found is None ==> forall|j: int| 0 <= j < haystack@.len() ==> haystack@[j] != needle,
{
    memchr::memchr(needle, haystack)
}

/// The count of `b` in a concatenation is the sum of the counts of the parts.
pub proof fn lemma_occurrences_append(a: Seq<u8>, c: Seq<u8>, b: u8)
    ensures
        occurrences(a + c, b) == occurrences(a, b) + occurrences(c, b),
    decreases c.len(),
{
    if c.len() == 0 {
        assert(a + c =~= a);
    } else {
        assert((a + c).drop_last() =~= a + c.drop_last());
        lemma_occurrences_append(a, c.drop_last(), b);
    }
}

/// A sequence holds no more occurrences of a byte than it has bytes.
pub proof fn lemma_occurrences_bound(s: Seq<u8>, b: u8)
    ensures
        occurrences(s, b) <= s.len(),
    decreases s.len(),
{
    if s.len() > 0 {
        lemma_occurrences_bound(s.drop_last(), b);
    }
}

/// The number of lines of a sequence is at most its length.
pub proof fn lemma_lines_bound(s: Seq<u8>)
    ensures
        lines_of(s) <= s.len(),
{
    if s.len() > 0 {
        lemma_occurrences_bound(s.drop_last(), NEWLINE);
    }
}

/// Treats the input as binary if a null byte appears in its first
/// `BINARY_CHECK_BYTES` bytes. Same heuristic Git uses.
pub fn looks_like_binary(first_chunk: &[u8]) -> (binary: bool)
    ensures
        binary == has_null_in_head(first_chunk@),
{
    let n: usize = if first_chunk.len() < BINARY_CHECK_BYTES {
        first_chunk.len()
    } else {
        BINARY_CHECK_BYTES
    };
    let head = vstd::slice::slice_subrange(first_chunk, 0, n);
    let found = first_index_of(0, head);
    proof {
        if found is None {
            assert forall|i: int|
                0 <= i < first_chunk@.len() && i < BINARY_CHECK_BYTES implies first_chunk@[i]
                != 0u8 by {
                assert(head@[i] == first_chunk@[i]);
            }
        } else {
            let i = found->0 as int;
            assert(head@[i] == first_chunk@[i]);
        }
    }
    found.is_some()
}

/// If the file's last byte was not `\n`, the trailing line is unterminated and
/// has not been counted yet: returns 1 to add it. Otherwise 0.
pub fn unterminated_line_adjustment(last_byte: Option<u8>) -> (n: u64)
    ensures
        n == adjustment(last_byte),
{
    match last_byte {
        Some(byte) => if byte != NEWLINE {
            1
        } else {
            0
        },
        None => 0,
    }
}

/// Counts the lines of a file whose whole contents are `buffer`.
pub fn count_buffer(buffer: &[u8]) -> (counts: LineCounts)
    ensures
        counts == buffer_counts(buffer@),
{
    if buffer.len() == 0 {
        return LineCounts::default();
    }
    if looks_like_binary(buffer) {
        return LineCounts::binary();
    }
    let last = buffer[buffer.len() - 1];
    proof {
        lemma_lines_bound(buffer@);
    }
    let newlines = byte_count(buffer, NEWLINE) as u64;
    let lines = newlines + unterminated_line_adjustment(Some(last));
    LineCounts { lines, binary: false }
}

/// The bytes of the chunks with one more chunk are the bytes before, then that chunk's.
pub proof fn lemma_joined_push(chunks: Seq<Seq<u8>>, chunk: Seq<u8>)
    ensures
        joined(chunks.push(chunk)) == joined(chunks) + chunk,
{
    assert(chunks.push(chunk).drop_last() =~= chunks);
}

/// A null byte in the head of a prefix is in the head of the whole; and
/// whether a null byte is in the head of a sequence depends only on a prefix
/// that is either the whole sequence or at least `BINARY_CHECK_BYTES` long.
pub proof fn lemma_head_of_prefix(p: Seq<u8>, s: Seq<u8>)
    requires
        p.len() <= s.len(),
        s.subrange(0, p.len() as int) =~= p,
    ensures
        has_null_in_head(p) ==> has_null_in_head(s),
        p.len() >= BINARY_CHECK_BYTES || p.len() == s.len() ==> has_null_in_head(p)
            == has_null_in_head(s),
{
    if has_null_in_head(p) {
        let i = choose|i: int| 0 <= i < p.len() && i < BINARY_CHECK_BYTES && #[trigger] p[i] == 0u8;
        assert(s.subrange(0, p.len() as int)[i] == s[i]);
        assert(s[i] == 0u8);
    }
    if has_null_in_head(s) && (p.len() >= BINARY_CHECK_BYTES || p.len() == s.len()) {
        let i = choose|i: int| 0 <= i < s.len() && i < BINARY_CHECK_BYTES && #[trigger] s[i] == 0u8;
        assert(s.subrange(0, p.len() as int)[i] == s[i]);
        assert(p[i] == 0u8);
    }
}

/// When the bytes so far (fewer than `BINARY_CHECK_BYTES`) hold no null
/// byte, more bytes bring a null into the head exactly when one is among the
/// first `take` of them, `take` being what is left of the window.
proof fn lemma_head_extend(j: Seq<u8>, c: Seq<u8>, take: int)
    requires
        j.len() < BINARY_CHECK_BYTES,
        !has_null_in_head(j),
        take == if c.len() < BINARY_CHECK_BYTES - j.len() {
            c.len() as int
        } else {
            BINARY_CHECK_BYTES - j.len()
        },
    ensures
        has_null_in_head(j + c) == has_null_in_head(c.subrange(0, take)),
{
    let s = j + c;
    let h = c.subrange(0, take);
    if has_null_in_head(s) {
        let i = choose|i: int| 0 <= i < s.len() && i < BINARY_CHECK_BYTES && #[trigger] s[i] == 0u8;
        if i < j.len() {
            assert(j[i] == 0u8);
        } else {
            assert(h[i - j.len()] == 0u8);
        }
    }
    if has_null_in_head(h) {
        let k = choose|k: int| 0 <= k < h.len() && k < BINARY_CHECK_BYTES && #[trigger] h[k] == 0u8;
        assert(s[j.len() + k] == 0u8);
    }
}

/// The state of counting a file read chunk by chunk. Each nonempty chunk that
/// a read returns is fed in order; the first `BINARY_CHECK_BYTES` bytes of
/// the stream, across chunks, are searched for a null byte, and when one is
/// found the counting stops there; `finish` gives the counts, which are those
/// of the whole stream of bytes counted as one buffer.
pub struct StreamCounter {
    total_lines: u64,
    last_byte: Option<u8>,
    checked: usize,
    binary: bool,
    fed: Ghost<Seq<Seq<u8>>>,
}

impl StreamCounter {
    /// The chunks fed so far, in order.
    pub closed spec fn chunks(&self) -> Seq<Seq<u8>> {
        self.fed@
    }

    /// Whether the bytes fed show the file to be binary.
    pub closed spec fn found_binary(&self) -> bool {
        self.binary
    }

    #[verifier::type_invariant]
    closed spec fn well_formed(&self) -> bool {
        &&& all_nonempty(self.fed@)
        &&& self.checked == if joined(self.fed@).len() < BINARY_CHECK_BYTES {
            joined(self.fed@).len() as int
        } else {
            BINARY_CHECK_BYTES as int
        }
        &&& self.binary == has_null_in_head(joined(self.fed@))
        &&& !self.binary ==> self.total_lines == occurrences(joined(self.fed@), NEWLINE)
        &&& !self.binary ==> self.last_byte == last_byte(joined(self.fed@))
    }

    /// A counter that has been fed nothing.
    pub fn new() -> (counter: Self)
        ensures
            counter.chunks() == Seq::<Seq<u8>>::empty(),
            !counter.found_binary(),
    {
        let counter = StreamCounter {
            total_lines: 0,
            last_byte: None,
            checked: 0,
            binary: false,
            fed: Ghost(Seq::empty()),
        };
        proof {
            assert(joined(counter.fed@) =~= Seq::<u8>::empty());
        }
        counter
    }

    /// The newlines counted so far.
    pub fn lines(&self) -> (n: u64)
        requires
            !self.found_binary(),
        ensures
            n == occurrences(joined(self.chunks()), NEWLINE),
    {
        proof {
            use_type_invariant(self);
        }
        self.total_lines
    }

    /// Feeds the next chunk that a read returned. Returns whether reading
    /// should go on: `false` once a null byte has turned up within the first
    /// `BINARY_CHECK_BYTES` bytes of the stream.
    pub fn feed(&mut self, chunk: &[u8]) -> (more: bool)
        requires
            !old(self).found_binary(),
            chunk@.len() > 0,
            occurrences(joined(old(self).chunks()), NEWLINE) + occurrences(chunk@, NEWLINE)
                <= u64::MAX,
        ensures
            final(self).chunks() == old(self).chunks().push(chunk@),
            final(self).found_binary() == has_null_in_head(joined(final(self).chunks())),
            more == !final(self).found_binary(),
    {
        proof {
            use_type_invariant(&*self);
        }
        let ghost fed = self.fed@.push(chunk@);
        let ghost before = joined(self.fed@);
        proof {
            lemma_joined_push(self.fed@, chunk@);
            lemma_occurrences_append(before, chunk@, NEWLINE);
            assert(fed[fed.len() - 1] == chunk@);
            assert(forall|i: int| 0 <= i < self.fed@.len() ==> fed[i] == self.fed@[i]);
        }
        let mut checked = self.checked;
        let mut binary = false;
        if checked < BINARY_CHECK_BYTES {
            let room = BINARY_CHECK_BYTES - checked;
            let take: usize = if chunk.len() < room {
                chunk.len()
            } else {
                room
            };
            let head = vstd::slice::slice_subrange(chunk, 0, take);
            binary = looks_like_binary(head);
            checked = checked + take;
            proof {
                lemma_head_extend(before, chunk@, take as int);
            }
        } else {
            proof {
                assert((before + chunk@).subrange(0, before.len() as int) =~= before);
                lemma_head_of_prefix(before, before + chunk@);
            }
        }
        if binary {
            *self = StreamCounter {
                total_lines: self.total_lines,
                last_byte: self.last_byte,
                checked,
                binary: true,
                fed: Ghost(fed),
            };
            return false;
        }
        let n = byte_count(chunk, NEWLINE) as u64;
        let last = chunk[chunk.len() - 1];
        proof {
            let j = before + chunk@;
            assert(j.last() == chunk@.last());
        }
        *self = StreamCounter {
            total_lines: self.total_lines + n,
            last_byte: Some(last),
            checked,
            binary: false,
            fed: Ghost(fed),
        };
        true
    }

    /// The counts of the file whose chunks were fed: the same as counting
    /// all their bytes as one buffer, however the bytes were split into chunks.
    pub fn finish(self) -> (counts: LineCounts)
        requires
            !self.found_binary() ==> lines_of(joined(self.chunks())) <= u64::MAX,
        ensures
            counts == buffer_counts(joined(self.chunks())),
    {
        proof {
            use_type_invariant(&self);
        }
        if self.binary {
            return LineCounts::binary();
        }
        let lines = self.total_lines + unterminated_line_adjustment(self.last_byte);
        LineCounts { lines, binary: false }
    }
}

/// Counts the lines of a file whose contents are `data` the way a file is
/// counted on disk: a file of at most `SMALL_FILE_THRESHOLD` bytes as one
/// buffer, a larger one in chunks of `CHUNK_SIZE` bytes.
pub fn count_contents(data: &[u8]) -> (counts: LineCounts)
    ensures
        counts == buffer_counts(data@),
{
    if (data.len() as u64) <= SMALL_FILE_THRESHOLD {
        return count_buffer(data);
    }
    let mut counter = StreamCounter::new();
    let mut pos: usize = 0;
    while pos < data.len()
        invariant
            pos <= data.len(),
            !counter.found_binary(),
            all_nonempty(counter.chunks()),
            joined(counter.chunks()) =~= data@.subrange(0, pos as int),
        decreases data.len() - pos,
    {
        let end: usize = if data.len() - pos < CHUNK_SIZE {
            data.len()
        } else {
            pos + CHUNK_SIZE
        };
        let chunk = vstd::slice::slice_subrange(data, pos, end);
        proof {
            lemma_occurrences_append(joined(counter.chunks()), chunk@, NEWLINE);
            assert(data@.subrange(0, pos as int) + chunk@ =~= data@.subrange(0, end as int));
            lemma_occurrences_bound(data@.subrange(0, end as int), NEWLINE);
        }
        let ghost before = counter.chunks();
        let more = counter.feed(chunk);
        proof {
            lemma_joined_push(before, chunk@);
            assert(counter.chunks()[counter.chunks().len() - 1] == chunk@);
            assert forall|i: int| 0 <= i < counter.chunks().len() implies #[trigger] counter.chunks()[i].len() > 0 by {
                if i < before.len() {
                    assert(counter.chunks()[i] == before[i]);
                }
            }
        }
        if !more {
            proof {
                lemma_head_of_prefix(data@.subrange(0, end as int), data@);
            }
            return counter.finish();
        }
        pos = end;
    }
    proof {
        assert(data@.subrange(0, pos as int) =~= data@);
        lemma_lines_bound(data@);
    }
    counter.finish()
}

/// A byte other than `\n` ends a line that no newline has counted yet: the
/// adjustment for any such last byte is one, and for `\n` or no byte zero.
pub proof fn any_unterminated_last_byte_adds_a_line(b: u8)
    ensures
        b != 10 ==> adjustment(Some(b)) == 1,
        adjustment(Some(10u8)) == 0,
        adjustment(None) == 0,
{
}

/// Bytes none of which is `b` hold no occurrence of `b`.
proof fn lemma_no_occurrences(s: Seq<u8>, b: u8)
    requires
        forall|i: int| 0 <= i < s.len() ==> s[i] != b,
    ensures
        occurrences(s, b) == 0,
    decreases s.len(),
{
    if s.len() > 0 {
        lemma_no_occurrences(s.drop_last(), b);
    }
}

/// A text file whose last byte is not `\n` has one line more than it has
/// newline bytes: its unterminated last line counts, whatever that byte is.
pub proof fn unterminated_last_line_counts(s: Seq<u8>)
    requires
        0 < s.len() <= usize::MAX,
        !has_null_in_head(s),
        s.last() != 10,
    ensures
        buffer_counts(s) == (LineCounts { lines: (occurrences(s, 10) + 1) as u64, binary: false }),
        occurrences(s, 10) + 1 <= u64::MAX,
{
    lemma_occurrences_bound(s.drop_last(), 10);
}

/// A text file whose last byte is `\n` has as many lines as newline bytes.
pub proof fn terminated_last_line_counts_once(s: Seq<u8>)
    requires
        0 < s.len() <= usize::MAX,
        !has_null_in_head(s),
        s.last() == 10,
    ensures
        buffer_counts(s) == (LineCounts { lines: occurrences(s, 10) as u64, binary: false }),
{
    lemma_occurrences_bound(s, 10);
}

/// Text without any newline byte is one line.
pub proof fn text_without_newline_is_one_line(s: Seq<u8>)
    requires
        0 < s.len() <= usize::MAX,
        !has_null_in_head(s),
        forall|i: int| 0 <= i < s.len() ==> s[i] != 10,
    ensures
        buffer_counts(s) == (LineCounts { lines: 1, binary: false }),
{
    lemma_no_occurrences(s, 10);
}

/// Ending an unterminated last line with `\n` leaves the count unchanged:
/// the line was counted already.
pub proof fn newline_closes_the_last_line(s: Seq<u8>)
    requires
        0 < s.len() < usize::MAX,
        !has_null_in_head(s),
        s.last() != 10,
    ensures
        buffer_counts(s.push(10)) == buffer_counts(s),
{
    let t = s.push(10);
    assert(t.drop_last() =~= s);
    if has_null_in_head(t) {
        let i = choose|i: int| 0 <= i < t.len() && i < BINARY_CHECK_BYTES && #[trigger] t[i] == 0u8;
        assert(s[i] == 0u8);
    }
    lemma_occurrences_bound(s, 10);
}

/// A single byte is one occurrence of itself and none of any other byte; with
/// `lemma_occurrences_append`, `occurrences` counts the positions holding `b`.
pub proof fn occurrences_of_one_byte(x: u8, b: u8)
    ensures
        occurrences(seq![x], b) == if x == b {
            1nat
        } else {
            0nat
        },
        occurrences(Seq::<u8>::empty(), b) == 0,
{
    assert(seq![x].drop_last() =~= Seq::<u8>::empty());
    assert(occurrences(seq![x].drop_last(), b) == 0);
    assert(seq![x].last() == x);
}

} // verus!
