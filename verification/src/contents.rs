//! The document segmenter: a line-oriented state machine that splits a
//! document's raw text into prose and code chunks, dropping front-matter
//! and structural noise (headings, blank lines between chunks).

use vstd::prelude::*;

verus! {

use vstd::string::StrSliceExecFns;
use vstd::string::StringExecFns;

// ---------------------------------------------------------------------------
// Splitting a text into lines
// ---------------------------------------------------------------------------

/// The character views of a sequence of owned strings.
pub open spec fn views_of(lines: Seq<String>) -> Seq<Seq<char>> {
    lines.map_values(|l: String| l@)
}

/// A line with a trailing carriage return has the carriage return removed,
/// as `str::lines` does for CRLF line endings.
pub open spec fn strip_cr(l: Seq<char>) -> Seq<char> {
    if l.len() > 0 && l.last() == '\r' {
        l.drop_last()
    } else {
        l
    }
}

/// The lines of `s[start..]`, scanning for the next newline from `pos`.
/// A trailing segment without a final newline is still a line; a text ending
/// in a newline contributes no empty final line.
pub open spec fn lines_from(s: Seq<char>, pos: int, start: int) -> Seq<Seq<char>>
    decreases s.len() - pos,
{
    if pos < 0 || start < 0 || start > pos {
        Seq::empty()
    } else if pos >= s.len() {
        if start < s.len() {
            seq![strip_cr(s.subrange(start, s.len() as int))]
        } else {
            Seq::empty()
        }
    } else if s[pos] == '\n' {
        seq![strip_cr(s.subrange(start, pos))] + lines_from(s, pos + 1, pos + 1)
    } else {
        lines_from(s, pos + 1, start)
    }
}

/// The lines of a text, split on newline characters.
pub open spec fn spec_lines(s: Seq<char>) -> Seq<Seq<char>> {
    lines_from(s, 0, 0)
}

/// Splits a text into its lines: the executable counterpart of `spec_lines`.
pub fn split_lines(s: &str) -> (lines: Vec<String>)
    ensures
        views_of(lines@) == spec_lines(s@),
{
    let n = s.unicode_len();
    let mut lines: Vec<String> = Vec::new();
    let mut start: usize = 0;
    let mut pos: usize = 0;
    while pos < n
        invariant
            n == s@.len(),
            start <= pos <= n,
            spec_lines(s@) == views_of(lines@) + lines_from(s@, pos as int, start as int),
        decreases n - pos,
    {
        if s.get_char(pos) == '\n' {
            let end: usize = if pos > start && s.get_char(pos - 1) == '\r' {
                pos - 1
            } else {
                pos
            };
            let line = s.substring_char(start, end);
            let ghost prev = lines@;
            lines.push(String::from_str(line));
            proof {
                assert(line@ =~= strip_cr(s@.subrange(start as int, pos as int)));
                assert(views_of(lines@) =~= views_of(prev).push(line@));
                assert(views_of(lines@) + lines_from(s@, pos as int + 1, pos as int + 1) =~= views_of(
                    prev,
                ) + lines_from(s@, pos as int, start as int));
            }
            start = pos + 1;
        } else {
            proof {
                assert(lines_from(s@, pos as int, start as int) == lines_from(
                    s@,
                    pos as int + 1,
                    start as int,
                ));
            }
        }
        pos = pos + 1;
    }
    if start < n {
        let end: usize = if s.get_char(n - 1) == '\r' {
            n - 1
        } else {
            n
        };
        let line = s.substring_char(start, end);
        let ghost prev = lines@;
        lines.push(String::from_str(line));
        proof {
            assert(line@ =~= strip_cr(s@.subrange(start as int, n as int)));
            assert(views_of(lines@) =~= views_of(prev).push(line@));
            assert(views_of(lines@) =~= views_of(prev) + lines_from(s@, n as int, start as int));
        }
    }
    proof {
        assert(views_of(lines@) =~= spec_lines(s@));
    }
    lines
}

// ---------------------------------------------------------------------------
// Classifying lines
// ---------------------------------------------------------------------------

/// `p` is a prefix of `l`.
pub open spec fn has_prefix(l: Seq<char>, p: Seq<char>) -> bool {
    p.len() <= l.len() && l.subrange(0, p.len() as int) == p
}

/// The line opens or closes a fenced code block.
pub open spec fn is_fence_line(l: Seq<char>) -> bool {
    has_prefix(l, seq!['`', '`', '`'])
}

/// The line delimits a front-matter block.
pub open spec fn is_meta_line(l: Seq<char>) -> bool {
    has_prefix(l, seq!['-', '-', '-'])
}

/// The line is a heading.
pub open spec fn is_heading_line(l: Seq<char>) -> bool {
    l.len() > 0 && l[0] == '#'
}

/// Whether `p` is a prefix of `l`: the executable counterpart of `has_prefix`.
pub fn str_has_prefix(l: &str, p: &str) -> (r: bool)
    ensures
        r == has_prefix(l@, p@),
{
    let ll = l.unicode_len();
    let pl = p.unicode_len();
    if pl > ll {
        return false;
    }
    let mut i: usize = 0;
    while i < pl
        invariant
            pl <= ll,
            ll == l@.len(),
            pl == p@.len(),
            i <= pl,
            forall|j: int| 0 <= j < i ==> l@[j] == p@[j],
        decreases pl - i,
    {
        if l.get_char(i) != p.get_char(i) {
            proof {
                assert(l@.subrange(0, pl as int)[i as int] == l@[i as int]);
            }
            return false;
        }
        i = i + 1;
    }
    proof {
        assert(l@.subrange(0, pl as int) =~= p@);
    }
    true
}

fn line_is_fence(l: &str) -> (r: bool)
    ensures
        r == is_fence_line(l@),
{
    proof {
        reveal_strlit("```");
        assert("```"@ =~= seq!['`', '`', '`']);
    }
    str_has_prefix(l, "```")
}

fn line_is_meta(l: &str) -> (r: bool)
    ensures
        r == is_meta_line(l@),
{
    proof {
        reveal_strlit("---");
        assert("---"@ =~= seq!['-', '-', '-']);
    }
    str_has_prefix(l, "---")
}

/// `suffix` ends `s`.
pub open spec fn has_suffix(s: Seq<char>, suffix: Seq<char>) -> bool {
    suffix.len() <= s.len() && s.subrange(s.len() - suffix.len(), s.len() as int) == suffix
}

/// Whether a path ends with the given file extension.
pub fn has_file_extension(path: &str, ending: &str) -> (r: bool)
    ensures
        r == has_suffix(path@, ending@),
{
    let pl = path.unicode_len();
    let el = ending.unicode_len();
    if el > pl {
        return false;
    }
    let off = pl - el;
    let mut i: usize = 0;
    while i < el
        invariant
            el <= pl,
            pl == path@.len(),
            el == ending@.len(),
            off == pl - el,
            i <= el,
            forall|j: int| 0 <= j < i ==> path@[off + j] == ending@[j],
        decreases el - i,
    {
        if path.get_char(off + i) != ending.get_char(i) {
            proof {
                assert(path@.subrange(off as int, pl as int)[i as int] == path@[off + i]);
            }
            return false;
        }
        i = i + 1;
    }
    proof {
        assert(path@.subrange(off as int, pl as int) =~= ending@);
    }
    true
}

// ---------------------------------------------------------------------------
// The scanner
// ---------------------------------------------------------------------------

/// The scanner's mode while walking a document line by line.
#[derive(Clone, Copy, Debug)]
pub enum FileState {
    /// Outside any chunk: the initial mode.
    Idle,
    /// Inside a fenced code block.
    CodeBlock,
    /// Inside a prose paragraph.
    Sentence,
    /// Inside a front-matter block, whose lines are discarded.
    Meta,
}

/// The scanner's full state: its mode, the line index at which the currently
/// open chunk began, and the chunks emitted so far as `(start, end)` line
/// ranges with `end` exclusive.
pub struct ScanState {
    pub mode: FileState,
    pub start: int,
    pub chunks: Seq<(int, int)>,
}

/// The scanner's initial state.
pub open spec fn scan_init() -> ScanState {
    ScanState { mode: FileState::Idle, start: 0, chunks: Seq::empty() }
}

/// One transition of the scanner on the line with index `i`.
///
/// From `Idle`, a fence opens a code chunk, a front-matter delimiter opens a
/// meta block, and any other non-empty, non-heading line opens a prose chunk;
/// headings and blank lines are skipped. A code chunk closes on (and
/// includes) the next fence line; a prose chunk closes on (and excludes) the
/// next empty line; a meta block closes on the next front-matter delimiter
/// and emits nothing. Front-matter delimiters are recognized only from
/// `Idle`: inside a prose chunk they are ordinary text.
pub open spec fn scan_step(st: ScanState, line: Seq<char>, i: int) -> ScanState {
    match st.mode {
        FileState::Idle => {
            if is_fence_line(line) {
                ScanState { mode: FileState::CodeBlock, start: i, chunks: st.chunks }
            } else if is_meta_line(line) {
                ScanState { mode: FileState::Meta, start: st.start, chunks: st.chunks }
            } else if !is_heading_line(line) && line.len() > 0 {
                ScanState { mode: FileState::Sentence, start: i, chunks: st.chunks }
            } else {
                st
            }
        },
        FileState::CodeBlock => {
            if is_fence_line(line) {
                ScanState {
                    mode: FileState::Idle,
                    start: st.start,
                    chunks: st.chunks.push((st.start, i + 1)),
                }
            } else {
                st
            }
        },
        FileState::Meta => {
            if is_meta_line(line) {
                ScanState { mode: FileState::Idle, start: st.start, chunks: st.chunks }
            } else {
                st
            }
        },
        FileState::Sentence => {
            if line.len() == 0 {
                ScanState {
                    mode: FileState::Idle,
                    start: st.start,
                    chunks: st.chunks.push((st.start, i)),
                }
            } else {
                st
            }
        },
    }
}

/// The scanner run over `lines`, starting from state `st`, where the first
/// line of `lines` has index `i0` in the whole document.
pub open spec fn scan_from(st: ScanState, lines: Seq<Seq<char>>, i0: int) -> ScanState
    decreases lines.len(),
{
    if lines.len() == 0 {
        st
    } else {
        scan_step(scan_from(st, lines.drop_last(), i0), lines.last(), i0 + lines.len() - 1)
    }
}

/// The scanner run over a whole document's lines.
pub open spec fn scan_lines(lines: Seq<Seq<char>>) -> ScanState {
    scan_from(scan_init(), lines, 0)
}

/// The text of a chunk covering the line range `[a, b)`: each covered line
/// followed by a newline, so the chunk reconstructs the original line breaks.
pub open spec fn join_lines(lines: Seq<Seq<char>>, a: int, b: int) -> Seq<char>
    decreases b - a,
{
    if b <= a {
        Seq::empty()
    } else {
        join_lines(lines, a, b - 1) + lines[b - 1] + seq!['\n']
    }
}

/// The texts of the chunks covering the given line ranges.
pub open spec fn chunk_texts(lines: Seq<Seq<char>>, ranges: Seq<(int, int)>) -> Seq<Seq<char>> {
    ranges.map_values(|r: (int, int)| join_lines(lines, r.0, r.1))
}

/// The line ranges of the chunks that segmenting `text` emits.
pub open spec fn segment_ranges(text: Seq<char>) -> Seq<(int, int)> {
    scan_lines(spec_lines(text)).chunks
}

/// The chunk texts that segmenting `text` emits: the segmenter's whole
/// specification. Segmentation is a pure function of the text, total over
/// every input.
pub open spec fn segment(text: Seq<char>) -> Seq<Seq<char>> {
    chunk_texts(spec_lines(text), segment_ranges(text))
}

proof fn lemma_scan_take_succ(lines: Seq<Seq<char>>, i: int)
    requires
        0 <= i < lines.len(),
    ensures
        scan_lines(lines.take(i + 1)) == scan_step(scan_lines(lines.take(i)), lines[i], i),
{
    assert(lines.take(i + 1).drop_last() =~= lines.take(i));
    assert(lines.take(i + 1).last() == lines[i]);
}

// ---------------------------------------------------------------------------
// Laws of the segmenter
// ---------------------------------------------------------------------------

/// Determinism law: segmentation is a pure function of the text alone, so
/// two documents with equal contents segment to equal chunk sequences.
pub proof fn lemma_segment_deterministic(a: Seq<char>, b: Seq<char>)
    requires
        a == b,
    ensures
        segment(a) == segment(b),
{
}

/// The ranges cover only the first `n` lines, each is non-empty, and they
/// are in document order without overlap: every emitted chunk is a distinct
/// maximal run of lines, no line is duplicated, none reordered.
pub open spec fn ranges_ok(ranges: Seq<(int, int)>, n: int) -> bool {
    &&& forall|k: int| 0 <= k < ranges.len() ==> 0 <= (#[trigger] ranges[k]).0 < ranges[k].1 <= n
    &&& forall|k: int|
        0 <= k < ranges.len() - 1 ==> (#[trigger] ranges[k]).1 <= ranges[k + 1].0
}

/// The scanner's internal invariant after it has consumed the lines with
/// indices below `i`: the emitted ranges are orderly, and the currently
/// open chunk (if any) begins after every emitted range ends.
pub open spec fn scan_ok(st: ScanState, i: int) -> bool {
    &&& ranges_ok(st.chunks, i)
    &&& (st.mode is CodeBlock || st.mode is Sentence) ==> {
        &&& 0 <= st.start < i
        &&& forall|k: int| 0 <= k < st.chunks.len() ==> (#[trigger] st.chunks[k]).1 <= st.start
    }
}

#[verifier::rlimit(50)]
proof fn lemma_scan_ok(st: ScanState, lines: Seq<Seq<char>>, i0: int)
    requires
        scan_ok(st, i0),
        0 <= i0,
    ensures
        scan_ok(scan_from(st, lines, i0), i0 + lines.len()),
    decreases lines.len(),
{
    if lines.len() > 0 {
        lemma_scan_ok(st, lines.drop_last(), i0);
        let prev = scan_from(st, lines.drop_last(), i0);
        let i = i0 + lines.len() - 1;
        let next = scan_step(prev, lines.last(), i);
        assert forall|k: int| 0 <= k < next.chunks.len() implies 0 <= (#[trigger] next.chunks[k]).0
            < next.chunks[k].1 <= i + 1 by {
            if k < prev.chunks.len() {
                assert(0 <= prev.chunks[k].0 < prev.chunks[k].1 <= i);
            }
        }
        assert forall|k: int| 0 <= k < next.chunks.len() - 1 implies (#[trigger] next.chunks[k]).1
            <= next.chunks[k + 1].0 by {
            if k + 1 < prev.chunks.len() {
                assert(prev.chunks[k].1 <= prev.chunks[k + 1].0);
            } else {
                assert(prev.chunks[k].1 <= prev.start);
            }
        }
    }
}

/// Chunk boundary law: the chunks a text segments into cover disjoint,
/// non-empty, strictly ordered ranges of the text's lines — concatenating
/// the chunks walks a subsequence of the original lines with no duplication
/// and no reordering — and every chunk's text is non-empty.
pub proof fn lemma_chunk_boundaries(text: Seq<char>)
    ensures
        ranges_ok(segment_ranges(text), spec_lines(text).len() as int),
        segment(text).len() == segment_ranges(text).len(),
        forall|k: int|
            0 <= k < segment(text).len() ==> (#[trigger] segment(text)[k]) == join_lines(
                spec_lines(text),
                segment_ranges(text)[k].0,
                segment_ranges(text)[k].1,
            ),
        forall|k: int| 0 <= k < segment(text).len() ==> (#[trigger] segment(text)[k]).len() > 0,
{
    lemma_scan_ok(scan_init(), spec_lines(text), 0);
    let lines = spec_lines(text);
    let ranges = segment_ranges(text);
    assert forall|k: int| 0 <= k < segment(text).len() implies (#[trigger] segment(text)[k]).len()
        > 0 by {
        assert(segment(text)[k] == join_lines(lines, ranges[k].0, ranges[k].1));
        assert(ranges[k].0 < ranges[k].1);
        assert(join_lines(lines, ranges[k].0, ranges[k].1) == join_lines(
            lines,
            ranges[k].0,
            ranges[k].1 - 1,
        ) + lines[ranges[k].1 - 1] + seq!['\n']);
    }
}

/// Unterminated chunk law: when the scanner ends inside a still-open chunk
/// — a code fence never closed, or a final paragraph with no blank line
/// after it — that chunk is discarded, not flushed: no emitted chunk covers
/// any line from the open chunk's start onward.
pub proof fn lemma_unterminated_chunk_dropped(text: Seq<char>)
    requires
        scan_lines(spec_lines(text)).mode is CodeBlock || scan_lines(spec_lines(text)).mode
            is Sentence,
    ensures
        forall|k: int|
            0 <= k < segment_ranges(text).len() ==> (#[trigger] segment_ranges(text)[k]).1
                <= scan_lines(spec_lines(text)).start,
{
    lemma_scan_ok(scan_init(), spec_lines(text), 0);
}

proof fn lemma_scan_concat(st: ScanState, a: Seq<Seq<char>>, b: Seq<Seq<char>>, i0: int)
    ensures
        scan_from(st, a + b, i0) == scan_from(scan_from(st, a, i0), b, i0 + a.len()),
    decreases b.len(),
{
    if b.len() == 0 {
        assert(a + b =~= a);
    } else {
        lemma_scan_concat(st, a, b.drop_last(), i0);
        assert((a + b).drop_last() =~= a + b.drop_last());
        assert((a + b).last() == b.last());
    }
}

proof fn lemma_scan_singleton(st: ScanState, l: Seq<char>, i0: int)
    ensures
        scan_from(st, seq![l], i0) == scan_step(st, l, i0),
{
    assert(seq![l].drop_last() =~= Seq::<Seq<char>>::empty());
    assert(scan_from(st, seq![l].drop_last(), i0) == st);
    assert(seq![l].last() == l);
}

proof fn lemma_meta_lines_ignored(st: ScanState, body: Seq<Seq<char>>, i0: int)
    requires
        st.mode is Meta,
        forall|k: int| 0 <= k < body.len() ==> !is_meta_line(#[trigger] body[k]),
    ensures
        scan_from(st, body, i0) == st,
    decreases body.len(),
{
    if body.len() > 0 {
        assert forall|k: int| 0 <= k < body.drop_last().len() implies !is_meta_line(
            #[trigger] body.drop_last()[k],
        ) by {
            assert(body.drop_last()[k] == body[k]);
        }
        lemma_meta_lines_ignored(st, body.drop_last(), i0);
    }
}

proof fn lemma_sentence_lines_kept(st: ScanState, ls: Seq<Seq<char>>, i0: int)
    requires
        st.mode is Sentence,
        forall|k: int| 0 <= k < ls.len() ==> (#[trigger] ls[k]).len() > 0,
    ensures
        scan_from(st, ls, i0) == st,
    decreases ls.len(),
{
    if ls.len() > 0 {
        assert forall|k: int| 0 <= k < ls.drop_last().len() implies (#[trigger] ls.drop_last()[k]).len()
            > 0 by {
            assert(ls.drop_last()[k] == ls[k]);
        }
        lemma_sentence_lines_kept(st, ls.drop_last(), i0);
    }
}

proof fn lemma_code_lines_kept(st: ScanState, ls: Seq<Seq<char>>, i0: int)
    requires
        st.mode is CodeBlock,
        forall|k: int| 0 <= k < ls.len() ==> !is_fence_line(#[trigger] ls[k]),
    ensures
        scan_from(st, ls, i0) == st,
    decreases ls.len(),
{
    if ls.len() > 0 {
        assert forall|k: int| 0 <= k < ls.drop_last().len() implies !is_fence_line(
            #[trigger] ls.drop_last()[k],
        ) by {
            assert(ls.drop_last()[k] == ls[k]);
        }
        lemma_code_lines_kept(st, ls.drop_last(), i0);
    }
}

/// The three line markers exclude one another: they are told apart by the
/// line's first character.
proof fn lemma_markers_disjoint(l: Seq<char>)
    ensures
        is_meta_line(l) ==> !is_fence_line(l) && !is_heading_line(l),
        is_heading_line(l) ==> !is_fence_line(l) && !is_meta_line(l),
{
    if is_meta_line(l) {
        assert(l.subrange(0, 3)[0] == l[0]);
    }
    if is_fence_line(l) {
        assert(l.subrange(0, 3)[0] == l[0]);
    }
}

/// A whole front-matter block scanned from outside any chunk — an opening
/// delimiter, body lines none of which is itself a delimiter, and a closing
/// delimiter — is discarded: the scanner returns to `Idle` and emits
/// nothing.
pub proof fn lemma_meta_block_skipped(
    st: ScanState,
    d1: Seq<char>,
    body: Seq<Seq<char>>,
    d2: Seq<char>,
    i0: int,
)
    requires
        st.mode is Idle,
        is_meta_line(d1),
        is_meta_line(d2),
        forall|k: int| 0 <= k < body.len() ==> !is_meta_line(#[trigger] body[k]),
    ensures
        scan_from(st, seq![d1] + body + seq![d2], i0).mode is Idle,
        scan_from(st, seq![d1] + body + seq![d2], i0).chunks == st.chunks,
{
    lemma_markers_disjoint(d1);
    let a = seq![d1];
    let ab = a + body;
    lemma_scan_concat(st, ab, seq![d2], i0);
    lemma_scan_concat(st, a, body, i0);
    lemma_scan_singleton(st, d1, i0);
    let st1 = scan_step(st, d1, i0);
    lemma_meta_lines_ignored(st1, body, i0 + 1);
    lemma_scan_singleton(st1, d2, i0 + 1 + body.len());
}

/// A structural line scanned from outside any chunk — a heading or a blank
/// line — is skipped without any effect on the scanner.
pub proof fn lemma_structural_line_skipped(st: ScanState, l: Seq<char>, i0: int)
    requires
        st.mode is Idle,
        !is_fence_line(l),
        !is_meta_line(l),
        is_heading_line(l) || l.len() == 0,
    ensures
        scan_from(st, seq![l], i0) == st,
{
    lemma_scan_singleton(st, l, i0);
}

/// A paragraph scanned from outside any chunk — non-empty lines whose first
/// is no fence, no front-matter delimiter and no heading — followed by a
/// blank line, is emitted as exactly one chunk covering exactly the
/// paragraph's lines.
pub proof fn lemma_paragraph_chunk(
    st: ScanState,
    para: Seq<Seq<char>>,
    blank: Seq<char>,
    i0: int,
)
    requires
        st.mode is Idle,
        para.len() > 0,
        forall|k: int| 0 <= k < para.len() ==> (#[trigger] para[k]).len() > 0,
        !is_fence_line(para[0]),
        !is_meta_line(para[0]),
        !is_heading_line(para[0]),
        blank.len() == 0,
    ensures
        scan_from(st, para + seq![blank], i0).mode is Idle,
        scan_from(st, para + seq![blank], i0).chunks == st.chunks.push((i0, i0 + para.len())),
{
    let first = seq![para[0]];
    let rest = para.skip(1);
    assert(para =~= first + rest);
    lemma_scan_concat(st, para, seq![blank], i0);
    lemma_scan_concat(st, first, rest, i0);
    lemma_scan_singleton(st, para[0], i0);
    let st1 = scan_step(st, para[0], i0);
    assert(st1.mode is Sentence && st1.start == i0 && st1.chunks == st.chunks);
    assert forall|k: int| 0 <= k < rest.len() implies (#[trigger] rest[k]).len() > 0 by {
        assert(rest[k] == para[k + 1]);
    }
    lemma_sentence_lines_kept(st1, rest, i0 + 1);
    assert(scan_from(st, para, i0) == st1);
    lemma_scan_singleton(st1, blank, i0 + para.len());
}

/// A fenced code block scanned from outside any chunk — an opening fence,
/// body lines none of which is a fence, and a closing fence — is emitted as
/// exactly one chunk covering the two fence lines and the body, verbatim
/// and in order.
pub proof fn lemma_code_block_chunk(
    st: ScanState,
    f1: Seq<char>,
    body: Seq<Seq<char>>,
    f2: Seq<char>,
    i0: int,
)
    requires
        st.mode is Idle,
        is_fence_line(f1),
        is_fence_line(f2),
        forall|k: int| 0 <= k < body.len() ==> !is_fence_line(#[trigger] body[k]),
    ensures
        scan_from(st, seq![f1] + body + seq![f2], i0).mode is Idle,
        scan_from(st, seq![f1] + body + seq![f2], i0).chunks == st.chunks.push(
            (i0, i0 + 2 + body.len()),
        ),
{
    let a = seq![f1];
    let ab = a + body;
    lemma_scan_concat(st, ab, seq![f2], i0);
    lemma_scan_concat(st, a, body, i0);
    lemma_scan_singleton(st, f1, i0);
    let st1 = scan_step(st, f1, i0);
    assert(st1.mode is CodeBlock && st1.start == i0 && st1.chunks == st.chunks);
    lemma_code_lines_kept(st1, body, i0 + 1);
    lemma_scan_singleton(st1, f2, i0 + 1 + body.len());
}

/// Front-matter elision law: a document laid out as a front-matter block,
/// then a heading, then one paragraph closed by a blank line, segments to
/// exactly one chunk — the paragraph — so no front-matter line ever appears
/// in any chunk.
pub proof fn lemma_front_matter_elision(
    d1: Seq<char>,
    body: Seq<Seq<char>>,
    d2: Seq<char>,
    h: Seq<char>,
    para: Seq<Seq<char>>,
    blank: Seq<char>,
)
    requires
        is_meta_line(d1),
        is_meta_line(d2),
        forall|k: int| 0 <= k < body.len() ==> !is_meta_line(#[trigger] body[k]),
        is_heading_line(h),
        para.len() > 0,
        forall|k: int| 0 <= k < para.len() ==> (#[trigger] para[k]).len() > 0,
        !is_fence_line(para[0]),
        !is_meta_line(para[0]),
        !is_heading_line(para[0]),
        blank.len() == 0,
    ensures
        ({
            let lines = seq![d1] + body + seq![d2] + seq![h] + para + seq![blank];
            let p0 = 3 + body.len() as int;
            &&& scan_lines(lines).chunks =~= seq![(p0, p0 + para.len())]
            &&& chunk_texts(lines, scan_lines(lines).chunks) =~= seq![
                join_lines(lines, p0, p0 + para.len()),
            ]
            &&& forall|k: int| 0 <= k < para.len() ==> lines[p0 + k] == para[k]
        }),
{
    let lines = seq![d1] + body + seq![d2] + seq![h] + para + seq![blank];
    let meta = seq![d1] + body + seq![d2];
    let p0 = 3 + body.len() as int;
    let st0 = scan_init();
    lemma_markers_disjoint(h);
    assert(lines =~= meta + seq![h] + (para + seq![blank]));
    lemma_scan_concat(st0, meta + seq![h], para + seq![blank], 0);
    lemma_scan_concat(st0, meta, seq![h], 0);
    lemma_meta_block_skipped(st0, d1, body, d2, 0);
    let st1 = scan_from(st0, meta, 0);
    lemma_structural_line_skipped(st1, h, meta.len() as int);
    lemma_paragraph_chunk(st1, para, blank, p0);
    assert(scan_lines(lines).chunks =~= seq![(p0, p0 + para.len())]);
    assert(chunk_texts(lines, scan_lines(lines).chunks) =~= seq![
        join_lines(lines, p0, p0 + para.len()),
    ]);
}

// ---------------------------------------------------------------------------
// Documents
// ---------------------------------------------------------------------------

/// One document of the corpus: its path key, its raw text, and, after
/// `parse`, the chunks the segmenter produced from the text.
pub struct File {
    pub path: String,
    pub contents: String,
    pub sentences: Vec<String>,
}

/// The mathematical shape of a `File`.
pub struct FileView {
    pub path: Seq<char>,
    pub contents: Seq<char>,
    pub sentences: Seq<Seq<char>>,
}

impl View for File {
    type V = FileView;

    open spec fn view(&self) -> FileView {
        FileView {
            path: self.path@,
            contents: self.contents@,
            sentences: views_of(self.sentences@),
        }
    }
}

impl File {
    /// A fresh document with no chunks yet.
    pub fn new(path: String, contents: String) -> (f: File)
        ensures
            f@.path == path@,
            f@.contents == contents@,
            f@.sentences == Seq::<Seq<char>>::empty(),
    {
        let f = File { path, contents, sentences: Vec::new() };
        proof {
            assert(f@.sentences =~= Seq::<Seq<char>>::empty());
        }
        f
    }

    /// Segments the document's text into chunks, stored in `sentences`.
    ///
    /// The result is exactly `segment` of the text: prose paragraphs and
    /// fenced code blocks, in document order, with front-matter, headings
    /// and blank separator lines dropped, and a chunk still open at the end
    /// of the input discarded.
    pub fn parse(&mut self)
        ensures
            final(self)@.path == old(self)@.path,
            final(self)@.contents == old(self)@.contents,
            final(self)@.sentences == segment(old(self)@.contents),
    {
        let lines = split_lines(self.contents.as_str());
        let ghost lv = views_of(lines@);
        let n = lines.len();
        let mut chunks: Vec<String> = Vec::new();
        let mut mode = FileState::Idle;
        let mut buf = String::new();
        let mut i: usize = 0;
        proof {
            assert(lv.take(0) =~= Seq::<Seq<char>>::empty());
            assert(chunk_texts(lv, scan_lines(lv.take(0)).chunks) =~= views_of(chunks@));
        }
        while i < n
            invariant
                n == lines.len(),
                views_of(lines@) == lv,
                i <= n,
                mode == scan_lines(lv.take(i as int)).mode,
                views_of(chunks@) == chunk_texts(lv, scan_lines(lv.take(i as int)).chunks),
                (mode is CodeBlock || mode is Sentence) ==> {
                    let st = scan_lines(lv.take(i as int));
                    0 <= st.start < i && buf@ == join_lines(lv, st.start, i as int)
                },
            decreases n - i,
        {
            let ghost st = scan_lines(lv.take(i as int));
            let line: &String = &lines[i];
            proof {
                assert(lv[i as int] == lines@[i as int]@);
                lemma_scan_take_succ(lv, i as int);
                reveal_strlit("\n");
                assert("\n"@ =~= seq!['\n']);
            }
            let empty = line.as_str().unicode_len() == 0;
            let heading = if empty {
                false
            } else {
                line.as_str().get_char(0) == '#'
            };
            match mode {
                FileState::Idle => {
                    if line_is_fence(line.as_str()) {
                        mode = FileState::CodeBlock;
                        buf = String::new();
                        buf.append(line.as_str());
                        buf.append("\n");
                        proof {
                            assert(join_lines(lv, i as int, i as int) =~= Seq::<char>::empty());
                            assert(buf@ =~= join_lines(lv, i as int, i as int + 1));
                        }
                    } else if line_is_meta(line.as_str()) {
                        mode = FileState::Meta;
                    } else if !heading && !empty {
                        mode = FileState::Sentence;
                        buf = String::new();
                        buf.append(line.as_str());
                        buf.append("\n");
                        proof {
                            assert(join_lines(lv, i as int, i as int) =~= Seq::<char>::empty());
                            assert(buf@ =~= join_lines(lv, i as int, i as int + 1));
                        }
                    }
                },
                FileState::CodeBlock => {
                    buf.append(line.as_str());
                    buf.append("\n");
                    proof {
                        assert(buf@ =~= join_lines(lv, st.start, i as int + 1));
                    }
                    if line_is_fence(line.as_str()) {
                        let ghost prevc = chunks@;
                        chunks.push(buf);
                        buf = String::new();
                        mode = FileState::Idle;
                        proof {
                            assert(views_of(chunks@) =~= views_of(prevc).push(
                                join_lines(lv, st.start, i as int + 1),
                            ));
                            assert(chunk_texts(lv, st.chunks.push((st.start, i as int + 1))) =~= chunk_texts(
                                lv,
                                st.chunks,
                            ).push(join_lines(lv, st.start, i as int + 1)));
                        }
                    }
                },
                FileState::Meta => {
                    if line_is_meta(line.as_str()) {
                        mode = FileState::Idle;
                    }
                },
                FileState::Sentence => {
                    if empty {
                        let ghost prevc = chunks@;
                        chunks.push(buf);
                        buf = String::new();
                        mode = FileState::Idle;
                        proof {
                            assert(views_of(chunks@) =~= views_of(prevc).push(
                                join_lines(lv, st.start, i as int),
                            ));
                            assert(chunk_texts(lv, st.chunks.push((st.start, i as int))) =~= chunk_texts(
                                lv,
                                st.chunks,
                            ).push(join_lines(lv, st.start, i as int)));
                        }
                    } else {
                        buf.append(line.as_str());
                        buf.append("\n");
                        proof {
                            assert(buf@ =~= join_lines(lv, st.start, i as int + 1));
                        }
                    }
                },
            }
            i = i + 1;
        }
        proof {
            assert(lv.take(n as int) =~= lv);
        }
        self.sentences = chunks;
    }
}

} // verus!
