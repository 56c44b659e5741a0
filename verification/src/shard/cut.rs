//! The quote-aware cut of an array body into its top-level elements.

use vstd::prelude::*;

use crate::ascii::{APOSTROPHE, BACKSLASH, COMMA, CR, LBRACE, LBRACKET, LF, QUOTE, RBRACE, RBRACKET, SLASH, STAR};
use crate::error::{at, Error, ErrorKind};
use crate::lex::stop_sets::{run_end, Ws};
use crate::lex::ws::skip_ws;
use crate::value::ByteRange;

verus! {

/// The first byte-level lex fault of a block, so that the serial planner raises
/// the lexer's error.
#[derive(Clone, Copy, Debug, PartialEq, Eq, Structural)]
pub enum ScanFault {
    /// A `/` that starts no comment; the offset is the slash.
    Slash(usize),
    /// A string left open at the end of input.
    Unterminated,
    /// A `/*` left open at the end of input; the offset is the opening `/`.
    Block(usize),
}

/// Scanner state carried across a block boundary. A `/` or `'` outside a string
/// is invalid in every dialect that does not read it as a comment or a string,
/// so the cut needs no dialect.
#[derive(Clone, Copy, Debug, PartialEq, Eq, Structural)]
pub enum ScanState {
    /// Outside strings and comments.
    Normal,
    /// Inside a string.
    Quoted {
        /// The delimiter.
        quote: u8,
        /// Whether the next byte is escaped.
        escaped: bool,
    },
    /// Inside a `//` comment, which ends with its line.
    LineComment,
    /// Inside a `/* */` comment.
    BlockComment {
        /// Whether the previous byte was `*`.
        star: bool,
    },
    /// After a `/`; the next byte decides whether a comment opens.
    Slash,
}

/// A comma or a `]` of a block with the bracket depth it is met at, counted
/// from the start of the block.
#[derive(Clone, Copy, Debug, PartialEq, Eq, Structural)]
pub struct Candidate {
    /// Where it is.
    pub offset: usize,
    /// Local depth.
    pub local_depth: i128,
}

/// What a block scan has seen.
pub struct CutModel {
    /// State.
    pub state: ScanState,
    /// Net bracket depth.
    pub depth: int,
    /// Lowest depth after a closer.
    pub low: int,
    /// Commas met at the lowest depth so far: field commas are always above it.
    pub commas: Seq<Candidate>,
    /// `]` offsets.
    pub closes: Seq<Candidate>,
    /// First fault.
    pub fault: Option<ScanFault>,
    /// The last `/*` that opened in this block.
    pub opened: Option<usize>,
}

/// Nothing seen.
pub open spec fn fresh_cut(state: ScanState) -> CutModel {
    CutModel {
        state,
        depth: 0,
        low: 0,
        commas: Seq::empty(),
        closes: Seq::empty(),
        fault: None,
        opened: None,
    }
}

/// The lower of two depths.
pub open spec fn lower(a: int, b: int) -> int {
    if a < b {
        a
    } else {
        b
    }
}

/// One byte outside strings and comments.
pub open spec fn cut_token(byte: u8, pos: int, c: CutModel) -> CutModel {
    if byte == QUOTE || byte == APOSTROPHE {
        CutModel { state: ScanState::Quoted { quote: byte, escaped: false }, ..c }
    } else if byte == SLASH {
        CutModel { state: ScanState::Slash, ..c }
    } else if byte == LBRACE || byte == LBRACKET {
        CutModel { state: ScanState::Normal, depth: c.depth + 1, ..c }
    } else if byte == RBRACE {
        CutModel { state: ScanState::Normal, depth: c.depth - 1, low: lower(c.low, c.depth - 1), ..c }
    } else if byte == RBRACKET {
        CutModel {
            state: ScanState::Normal,
            depth: c.depth - 1,
            low: lower(c.low, c.depth - 1),
            closes: c.closes.push(Candidate { offset: pos as usize, local_depth: c.depth as i128 }),
            ..c
        }
    } else if byte == COMMA && c.depth == c.low {
        CutModel {
            state: ScanState::Normal,
            commas: c.commas.push(Candidate { offset: pos as usize, local_depth: c.depth as i128 }),
            ..c
        }
    } else {
        CutModel { state: ScanState::Normal, ..c }
    }
}

/// The byte at `pos` of a block that starts at `start`.
pub open spec fn cut_step(b: Seq<u8>, start: int, pos: int, c: CutModel) -> CutModel {
    let byte = b[pos];
    match c.state {
        ScanState::Normal => cut_token(byte, pos, c),
        ScanState::Quoted { quote, escaped } => CutModel {
            state: if escaped {
                ScanState::Quoted { quote, escaped: false }
            } else if byte == quote {
                ScanState::Normal
            } else {
                ScanState::Quoted { quote, escaped: byte == BACKSLASH }
            },
            ..c
        },
        ScanState::LineComment => CutModel {
            state: if byte == LF || byte == CR {
                ScanState::Normal
            } else {
                ScanState::LineComment
            },
            ..c
        },
        ScanState::BlockComment { star } => CutModel {
            state: if star && byte == SLASH {
                ScanState::Normal
            } else {
                ScanState::BlockComment { star: byte == STAR }
            },
            ..c
        },
        ScanState::Slash => if byte == SLASH {
            CutModel { state: ScanState::LineComment, ..c }
        } else if byte == STAR {
            CutModel {
                state: ScanState::BlockComment { star: false },
                opened: if pos > start {
                    Some((pos - 1) as usize)
                } else {
                    c.opened
                },
                ..c
            }
        } else {
            cut_token(
                byte,
                pos,
                CutModel {
                    fault: if c.fault is None && pos > start {
                        Some(ScanFault::Slash((pos - 1) as usize))
                    } else {
                        c.fault
                    },
                    ..c
                },
            )
        },
    }
}

/// The bytes from `pos` to `end` of a block that starts at `start`.
pub open spec fn cut_from(b: Seq<u8>, start: int, pos: int, end: int, c: CutModel) -> CutModel
    decreases end - pos,
{
    if pos >= end {
        c
    } else {
        cut_from(b, start, pos + 1, end, cut_step(b, start, pos, c))
    }
}

/// The end of a block inside its source.
pub open spec fn block_end(b: Seq<u8>, block: ByteRange) -> int {
    if block.end <= b.len() {
        block.end as int
    } else {
        b.len() as int
    }
}

/// A string or block comment that reaches the end of input is unterminated, and
/// a trailing `/` is a lone slash. Inside the source they are carried states.
pub open spec fn final_fault(b: Seq<u8>, end: int, c: CutModel) -> Option<ScanFault> {
    if end != b.len() || c.fault is Some {
        c.fault
    } else {
        match c.state {
            ScanState::Quoted { .. } => Some(ScanFault::Unterminated),
            ScanState::BlockComment { .. } => match c.opened {
                Some(open) => Some(ScanFault::Block(open)),
                None => None,
            },
            ScanState::Slash => if end > 0 {
                Some(ScanFault::Slash((end - 1) as usize))
            } else {
                None
            },
            _ => None,
        }
    }
}

/// The scan of a block under a start state.
pub open spec fn block_cut(b: Seq<u8>, block: ByteRange, state: ScanState) -> CutModel {
    let end = block_end(b, block);
    let c = cut_from(b, block.start as int, block.start as int, end, fresh_cut(state));
    CutModel { fault: final_fault(b, end, c), ..c }
}

/// One scan of a block under a fixed start state.
#[derive(Debug)]
pub struct BlockScan {
    commas: Vec<Candidate>,
    closes: Vec<Candidate>,
    depth_delta: i128,
    end: ScanState,
    fault: Option<ScanFault>,
    low: i128,
    opened: Option<usize>,
}

/// Whether candidates lie before `end`.
pub open spec fn candidates_before(candidates: Seq<Candidate>, end: int) -> bool {
    forall|i: int| 0 <= i < candidates.len() ==> (#[trigger] candidates[i]).offset < end
}

impl BlockScan {
    pub(crate) closed spec fn model(self) -> CutModel {
        CutModel {
            state: self.end,
            depth: self.depth_delta as int,
            low: self.low as int,
            commas: self.commas@,
            closes: self.closes@,
            fault: self.fault,
            opened: self.opened,
        }
    }

    /// Whether a scan is one of at most `n` bytes that end at `end`.
    pub(crate) closed spec fn bounded(self, n: int, end: int) -> bool {
        &&& -n <= self.depth_delta <= n
        &&& -n <= self.low <= 0
        &&& candidates_before(self.commas@, end)
        &&& candidates_before(self.closes@, end)
    }

    fn token(&mut self, byte: u8, pos: usize, Ghost(n): Ghost<int>)
        requires
            old(self).bounded(n, pos as int),
            0 <= n < usize::MAX,
        ensures
            final(self).model() == cut_token(byte, pos as int, old(self).model()),
            final(self).bounded(n + 1, pos + 1),
    {
        if byte == QUOTE || byte == APOSTROPHE {
            self.end = ScanState::Quoted { quote: byte, escaped: false };
        } else if byte == SLASH {
            self.end = ScanState::Slash;
        } else {
            self.end = ScanState::Normal;
            if byte == LBRACE || byte == LBRACKET {
                self.depth_delta = self.depth_delta + 1;
            } else if byte == RBRACE || byte == RBRACKET {
                if byte == RBRACKET {
                    self.closes.push(Candidate { offset: pos, local_depth: self.depth_delta });
                }
                self.depth_delta = self.depth_delta - 1;
                if self.depth_delta < self.low {
                    self.low = self.depth_delta;
                }
            } else if byte == COMMA && self.depth_delta == self.low {
                // An array-level comma sits at the block's running minimum local
                // depth: field commas are always one level above it.
                self.commas.push(Candidate { offset: pos, local_depth: self.depth_delta });
            }
        }
    }

    fn step(&mut self, byte: u8, start: usize, pos: usize, Ghost(b): Ghost<Seq<u8>>)
        requires
            old(self).bounded(pos - start, pos as int),
            start <= pos < b.len(),
            b.len() <= usize::MAX,
            b[pos as int] == byte,
        ensures
            final(self).model() == cut_step(b, start as int, pos as int, old(self).model()),
            final(self).bounded(pos - start + 1, pos + 1),
    {
        match self.end {
            ScanState::Normal => {
                self.token(byte, pos, Ghost(pos - start));
            },
            ScanState::Quoted { quote, escaped } => {
                self.end = if escaped {
                    ScanState::Quoted { quote, escaped: false }
                } else if byte == quote {
                    ScanState::Normal
                } else {
                    ScanState::Quoted { quote, escaped: byte == BACKSLASH }
                };
            },
            ScanState::LineComment => {
                if byte == LF || byte == CR {
                    self.end = ScanState::Normal;
                }
            },
            ScanState::BlockComment { star } => {
                self.end = if star && byte == SLASH {
                    ScanState::Normal
                } else {
                    ScanState::BlockComment { star: byte == STAR }
                };
            },
            ScanState::Slash => {
                if byte == SLASH {
                    self.end = ScanState::LineComment;
                } else if byte == STAR {
                    self.end = ScanState::BlockComment { star: false };
                    if pos > start {
                        self.opened = Some(pos - 1);
                    }
                } else {
                    // A `/` outside a string or comment starts no token in any
                    // dialect; the serial planner reports it, the host cut
                    // ignores it.
                    if self.fault.is_none() && pos > start {
                        self.fault = Some(ScanFault::Slash(pos - 1));
                    }
                    self.token(byte, pos, Ghost(pos - start));
                }
            },
        }
    }
}

/// Scan a block under a start state.
pub(crate) fn scan_block(src: &[u8], block: ByteRange, state: ScanState) -> (r: BlockScan)
    ensures
        r.model() == block_cut(src@, block, state),
        r.bounded(usize::MAX as int, src@.len() as int),
        r.bounded(usize::MAX as int, usize::MAX as int),
{
    let len: usize = src.len();
    let end: usize = if block.end <= len {
        block.end
    } else {
        len
    };
    let mut scan = BlockScan {
        commas: Vec::new(),
        closes: Vec::new(),
        depth_delta: 0,
        end: state,
        fault: None,
        low: 0,
        opened: None,
    };
    let mut pos: usize = block.start;
    let ghost whole = cut_from(src@, block.start as int, block.start as int, end as int, fresh_cut(state));
    proof {
        assert(scan.commas@ =~= Seq::<Candidate>::empty());
        assert(scan.closes@ =~= Seq::<Candidate>::empty());
    }
    while pos < end
        invariant
            block.start <= pos,
            pos <= end || pos == block.start,
            end <= len == src@.len(),
            scan.bounded(pos - block.start, pos as int),
            whole == cut_from(src@, block.start as int, pos as int, end as int, scan.model()),
        decreases end - pos,
    {
        scan.step(src[pos], block.start, pos, Ghost(src@));
        pos += 1;
    }
    if end == len && scan.fault.is_none() {
        scan.fault = match scan.end {
            ScanState::Quoted { .. } => Some(ScanFault::Unterminated),
            ScanState::BlockComment { .. } => match scan.opened {
                Some(open) => Some(ScanFault::Block(open)),
                None => None,
            },
            ScanState::Slash => if end > 0 {
                Some(ScanFault::Slash(end - 1))
            } else {
                None
            },
            _ => None,
        };
    }
    scan
}


/// Past the last byte of `b[s..e]` that is no whitespace.
pub open spec fn trimmed_end(b: Seq<u8>, s: int, e: int) -> int
    decreases e - s,
{
    if e > s && crate::lex::stop_sets::is_space(b[e - 1]) {
        trimmed_end(b, s, e - 1)
    } else {
        e
    }
}

/// The element between two cuts, without the whitespace around it; none when
/// nothing is left.
pub open spec fn element_between(b: Seq<u8>, start: int, end: int) -> Option<ByteRange> {
    let s = if start <= b.len() {
        run_end::<Ws>(b, start)
    } else {
        start
    };
    let e = trimmed_end(
        b,
        s,
        if end <= b.len() {
            end
        } else {
            b.len() as int
        },
    );
    if s < e {
        Some(ByteRange { start: s as usize, end: e as usize })
    } else {
        None
    }
}

/// Elements with the one between two cuts, when there is one.
pub open spec fn with_element(out: Seq<ByteRange>, b: Seq<u8>, start: int, end: int) -> Seq<ByteRange> {
    match element_between(b, start, end) {
        Some(range) => out.push(range),
        None => out,
    }
}

fn push_element(out: &mut Vec<ByteRange>, src: &[u8], start: usize, end: usize)
    ensures
        final(out)@ == with_element(old(out)@, src@, start as int, end as int),
{
    let len: usize = src.len();
    let s: usize = if start <= len {
        skip_ws(src, start)
    } else {
        start
    };
    let mut e: usize = if end <= len {
        end
    } else {
        len
    };
    let ghost limit = e as int;
    while e > s && crate::lex::ws::is_ws(src[e - 1])
        invariant
            e <= len == src@.len(),
            trimmed_end(src@, s as int, e as int) == trimmed_end(src@, s as int, limit),
        decreases e,
    {
        e -= 1;
    }
    if s < e {
        out.push(ByteRange { start: s, end: e });
    }
}

/// The first `]` that closes the array a block is in, at depth `depth`.
pub open spec fn first_close(closes: Seq<Candidate>, depth: int, i: int) -> Option<usize>
    decreases closes.len() - i,
{
    if i >= closes.len() {
        None
    } else if depth + closes[i].local_depth == 1 {
        Some(closes[i].offset)
    } else {
        first_close(closes, depth, i + 1)
    }
}

fn find_close(closes: &Vec<Candidate>, depth: i128) -> (r: Option<usize>)
    requires
        -0x4000_0000_0000_0000_0000_0000_0000_0000 <= depth <= 0x4000_0000_0000_0000_0000_0000_0000_0000,
    ensures
        r == first_close(closes@, depth as int, 0),
        r matches Some(offset) ==> exists|i: int| 0 <= i < closes@.len() && (#[trigger] closes@[i]).offset == offset,
{
    let wanted: i128 = 1 - depth;
    let mut i: usize = 0;
    while i < closes.len()
        invariant
            i <= closes@.len(),
            wanted == 1 - depth,
            first_close(closes@, depth as int, 0) == first_close(closes@, depth as int, i as int),
        decreases closes@.len() - i,
    {
        if closes[i].local_depth == wanted {
            return Some(closes[i].offset);
        }
        i += 1;
    }
    None
}

/// Whether a comma separates two elements of the array a block is in.
pub open spec fn separates(comma: Candidate, depth: int, close: Option<usize>) -> bool {
    &&& depth + comma.local_depth == 1
    &&& match close {
        Some(offset) => comma.offset < offset,
        None => true,
    }
}

/// Where the element after the first `k` commas starts, and the elements before
/// it.
pub open spec fn split_at_commas(
    b: Seq<u8>,
    commas: Seq<Candidate>,
    k: nat,
    depth: int,
    close: Option<usize>,
    start: int,
    out: Seq<ByteRange>,
) -> (int, Seq<ByteRange>)
    decreases k,
{
    if k == 0 || k > commas.len() {
        (start, out)
    } else {
        let before = split_at_commas(b, commas, (k - 1) as nat, depth, close, start, out);
        let comma = commas[k - 1];
        if separates(comma, depth, close) {
            (comma.offset + 1, with_element(before.1, b, before.0, comma.offset as int))
        } else {
            before
        }
    }
}

fn split_elements(
    src: &[u8],
    commas: &Vec<Candidate>,
    depth: i128,
    close: Option<usize>,
    start: usize,
    out: &mut Vec<ByteRange>,
) -> (r: usize)
    requires
        -0x4000_0000_0000_0000_0000_0000_0000_0000 <= depth <= 0x4000_0000_0000_0000_0000_0000_0000_0000,
        candidates_before(commas@, usize::MAX as int),
    ensures
        (r as int, final(out)@) == split_at_commas(
            src@,
            commas@,
            commas@.len(),
            depth as int,
            close,
            start as int,
            old(out)@,
        ),
{
    let wanted: i128 = 1 - depth;
    let mut from: usize = start;
    let mut k: usize = 0;
    while k < commas.len()
        invariant
            k <= commas@.len(),
            wanted == 1 - depth,
            candidates_before(commas@, usize::MAX as int),
            (from as int, out@) == split_at_commas(
                src@,
                commas@,
                k as nat,
                depth as int,
                close,
                start as int,
                old(out)@,
            ),
        decreases commas@.len() - k,
    {
        let comma: Candidate = commas[k];
        let before_close: bool = match close {
            Some(offset) => comma.offset < offset,
            None => true,
        };
        if comma.local_depth == wanted && before_close {
            push_element(out, src, from, comma.offset);
            from = comma.offset + 1;
        }
        k += 1;
    }
    from
}

/// The byte a fault is attributed to.
pub open spec fn fault_at(fault: ScanFault, len: int) -> int {
    match fault {
        ScanFault::Slash(offset) | ScanFault::Block(offset) => offset as int,
        ScanFault::Unterminated => len,
    }
}

/// The lexer's refusal of a fault.
pub open spec fn fault_error(fault: ScanFault, len: int) -> Error {
    match fault {
        ScanFault::Slash(offset) => at(ErrorKind::InvalidComment, offset as int),
        ScanFault::Block(offset) => at(ErrorKind::UnterminatedComment, offset as int),
        ScanFault::Unterminated => at(ErrorKind::UnterminatedString, len),
    }
}

fn fault_position(fault: ScanFault, len: usize) -> (r: usize)
    ensures
        r == fault_at(fault, len as int),
{
    match fault {
        ScanFault::Slash(offset) => offset,
        ScanFault::Block(offset) => offset,
        ScanFault::Unterminated => len,
    }
}

fn raise_fault(fault: ScanFault, len: usize) -> (r: Error)
    ensures
        r == fault_error(fault, len as int),
{
    match fault {
        ScanFault::Slash(offset) => Error::new(ErrorKind::InvalidComment, offset),
        ScanFault::Block(offset) => Error::new(ErrorKind::UnterminatedComment, offset),
        ScanFault::Unterminated => Error::new(ErrorKind::UnterminatedString, len),
    }
}

/// The elements of the array whose body starts at `start`, and the offset past
/// its `]`.
pub open spec fn serial_elements(b: Seq<u8>, start: int) -> Result<(Seq<ByteRange>, int), Error> {
    let scan = block_cut(b, ByteRange { start: start as usize, end: b.len() as usize }, ScanState::Normal);
    let close = first_close(scan.closes, 1, 0);
    let refused = match scan.fault {
        Some(fault) => match close {
            Some(offset) => fault_at(fault, b.len() as int) < offset,
            None => true,
        },
        None => false,
    };
    if refused {
        Err(fault_error(scan.fault->0, b.len() as int))
    } else {
        match close {
            None => Err(at(ErrorKind::ExpectedCommaArray, b.len() as int)),
            Some(offset) => {
                let split = split_at_commas(b, scan.commas, scan.commas.len(), 1, close, start, Seq::empty());
                Ok((with_element(split.1, b, split.0, offset as int), offset + 1))
            },
        }
    }
}

/// Top-level element spans of an array, scanned from just after `[`.
pub(crate) fn element_ranges(src: &[u8], body_start: usize) -> (r: Result<(Vec<ByteRange>, usize), Error>)
    ensures
        match serial_elements(src@, body_start as int) {
            Ok((spans, end)) => r is Ok && r->Ok_0.0@ == spans && r->Ok_0.1 == end && end <= src@.len(),
            Err(error) => r is Err && r->Err_0 == error,
        },
{
    let len: usize = src.len();
    let scan = scan_block(src, ByteRange { start: body_start, end: len }, ScanState::Normal);
    let close: Option<usize> = find_close(&scan.closes, 1);
    // Raise lexer faults before the closer.
    match scan.fault {
        Some(fault) => {
            let before_close: bool = match close {
                Some(offset) => fault_position(fault, len) < offset,
                None => true,
            };
            if before_close {
                return Err(raise_fault(fault, len));
            }
        },
        None => {},
    }
    match close {
        None => Err(Error::new(ErrorKind::ExpectedCommaArray, len)),
        Some(offset) => {
            let mut out: Vec<ByteRange> = Vec::new();
            proof {
                assert(out@ =~= Seq::<ByteRange>::empty());
                assert(candidates_before(scan.commas@, usize::MAX as int));
            }
            let start: usize = split_elements(src, &scan.commas, 1, close, body_start, &mut out);
            push_element(&mut out, src, start, offset);
            Ok((out, offset + 1))
        },
    }
}

/// One block's cut summary; the block lets the combiner rescan a start inside a
/// string or a comment.
#[derive(Debug)]
pub struct CutSummary {
    block: ByteRange,
    scan: BlockScan,
}

/// [`CutSummary`] over mathematical values.
pub struct SummaryModel {
    /// The block.
    pub block: ByteRange,
    /// Its scan from outside strings and comments.
    pub scan: CutModel,
}

impl CutSummary {
    /// Candidates lie inside the address space.
    #[verifier::type_invariant]
    spec fn candidates_fit(self) -> bool {
        self.scan.bounded(usize::MAX as int, usize::MAX as int)
    }

    /// The summary of one block.
    pub(crate) fn new(src: &[u8], block: ByteRange) -> (r: Self)
        ensures
            r@ == summary_of(src@, block),
    {
        CutSummary { block, scan: scan_block(src, block, ScanState::Normal) }
    }
}

impl View for CutSummary {
    type V = SummaryModel;

    closed spec fn view(&self) -> SummaryModel {
        SummaryModel { block: self.block, scan: self.scan.model() }
    }
}

/// The summary of one block.
pub open spec fn summary_of(b: Seq<u8>, block: ByteRange) -> SummaryModel {
    SummaryModel { block, scan: block_cut(b, block, ScanState::Normal) }
}

/// Summaries over mathematical values.
pub open spec fn summaries_model(summaries: Seq<CutSummary>) -> Seq<SummaryModel> {
    summaries.map_values(|s: CutSummary| s@)
}

/// A depth inside the range depths are counted in.
pub open spec fn held_depth(depth: int) -> int {
    if depth > 0x4000_0000_0000_0000_0000_0000_0000_0000 {
        0x4000_0000_0000_0000_0000_0000_0000_0000
    } else if depth < -0x4000_0000_0000_0000_0000_0000_0000_0000 {
        -0x4000_0000_0000_0000_0000_0000_0000_0000
    } else {
        depth
    }
}

/// The elements that summaries from `k` on name, and where the array ends.
pub open spec fn combined(
    b: Seq<u8>,
    summaries: Seq<SummaryModel>,
    k: int,
    depth: int,
    state: ScanState,
    start: int,
    out: Seq<ByteRange>,
) -> (Seq<ByteRange>, int)
    decreases summaries.len() - k,
{
    if k >= summaries.len() {
        let end = if summaries.len() == 0 {
            b.len() as int
        } else {
            block_end(b, summaries.last().block)
        };
        (with_element(out, b, start, end), end)
    } else {
        // Only a block that begins inside a string or a comment is rescanned.
        let scan = if state == ScanState::Normal {
            summaries[k].scan
        } else {
            block_cut(b, summaries[k].block, state)
        };
        let close = first_close(scan.closes, depth, 0);
        let split = split_at_commas(b, scan.commas, scan.commas.len(), depth, close, start, out);
        match close {
            Some(offset) => (with_element(split.1, b, split.0, offset as int), offset + 1),
            None => combined(b, summaries, k + 1, held_depth(depth + scan.depth), scan.state, split.0, split.1),
        }
    }
}

/// The elements that summaries of an array's body name.
pub open spec fn summed_elements(b: Seq<u8>, array_start: int, summaries: Seq<SummaryModel>) -> (Seq<ByteRange>, int) {
    combined(b, summaries, 0, 1, ScanState::Normal, array_start + 1, Seq::empty())
}

/// Top-level element spans from ordered block summaries. Only a block that
/// begins inside a string or a comment is rescanned, under the exact incoming
/// state.
pub(crate) fn elements_from_summaries(src: &[u8], array_start: usize, summaries: &[CutSummary]) -> (r: (
    Vec<ByteRange>,
    usize,
))
    requires
        array_start < usize::MAX,
    ensures
        (r.0@, r.1 as int) == summed_elements(src@, array_start as int, summaries_model(summaries@)),
{
    let ghost model = summaries_model(summaries@);
    let ghost whole = summed_elements(src@, array_start as int, model);
    let mut out: Vec<ByteRange> = Vec::new();
    let mut depth: i128 = 1;
    let mut state: ScanState = ScanState::Normal;
    let mut start: usize = array_start + 1;
    let mut k: usize = 0;
    proof {
        assert(out@ =~= Seq::<ByteRange>::empty());
    }
    while k < summaries.len()
        invariant
            k <= summaries@.len(),
            model == summaries_model(summaries@),
            -0x4000_0000_0000_0000_0000_0000_0000_0000 <= depth <= 0x4000_0000_0000_0000_0000_0000_0000_0000,
            whole == summed_elements(src@, array_start as int, model),
            whole == combined(src@, model, k as int, depth as int, state, start as int, out@),
        decreases summaries@.len() - k,
    {
        let summary: &CutSummary = &summaries[k];
        proof {
            use_type_invariant(summary);
            assert(model[k as int] == summary@);
        }
        let rescanned: BlockScan;
        let scan: &BlockScan = match state {
            ScanState::Normal => &summary.scan,
            _ => {
                rescanned = scan_block(src, summary.block, state);
                &rescanned
            },
        };
        proof {
            assert(scan.bounded(usize::MAX as int, usize::MAX as int));
        }
        let close: Option<usize> = find_close(&scan.closes, depth);
        start = split_elements(src, &scan.commas, depth, close, start, &mut out);
        match close {
            Some(offset) => {
                push_element(&mut out, src, start, offset);
                return (out, offset + 1);
            },
            None => {},
        }
        depth = hold_depth(depth, scan.depth_delta);
        state = scan.end;
        k += 1;
    }
    let end: usize = if summaries.len() == 0 {
        src.len()
    } else {
        let last: &CutSummary = &summaries[summaries.len() - 1];
        proof {
            assert(model.last() == last@);
        }
        if last.block.end <= src.len() {
            last.block.end
        } else {
            src.len()
        }
    };
    push_element(&mut out, src, start, end);
    (out, end)
}

fn hold_depth(depth: i128, delta: i128) -> (r: i128)
    requires
        -0x4000_0000_0000_0000_0000_0000_0000_0000 <= depth <= 0x4000_0000_0000_0000_0000_0000_0000_0000,
        -usize::MAX <= delta <= usize::MAX,
    ensures
        r == held_depth(depth + delta),
{
    let sum: i128 = depth + delta;
    if sum > 0x4000_0000_0000_0000_0000_0000_0000_0000 {
        0x4000_0000_0000_0000_0000_0000_0000_0000
    } else if sum < -0x4000_0000_0000_0000_0000_0000_0000_0000 {
        -0x4000_0000_0000_0000_0000_0000_0000_0000
    } else {
        sum
    }
}

/// The first fault that summaries from `k` on recorded before the array closer.
pub open spec fn summed_fault(len: int, summaries: Seq<SummaryModel>, close_end: int, k: int) -> Option<Error>
    decreases summaries.len() - k,
{
    if k >= summaries.len() || summaries[k].block.start >= close_end {
        None
    } else {
        match summaries[k].scan.fault {
            Some(fault) => if fault_at(fault, len) < close_end {
                Some(fault_error(fault, len))
            } else {
                summed_fault(len, summaries, close_end, k + 1)
            },
            None => summed_fault(len, summaries, close_end, k + 1),
        }
    }
}

/// The first lexical fault the summaries recorded before the array closer, if
/// any.
pub(crate) fn summary_fault(src: &[u8], summaries: &[CutSummary], close_end: usize) -> (r: Option<Error>)
    ensures
        r == summed_fault(src@.len() as int, summaries_model(summaries@), close_end as int, 0),
{
    let len: usize = src.len();
    let ghost model = summaries_model(summaries@);
    let mut k: usize = 0;
    while k < summaries.len()
        invariant
            k <= summaries@.len(),
            len == src@.len(),
            model == summaries_model(summaries@),
            summed_fault(len as int, model, close_end as int, 0) == summed_fault(
                len as int,
                model,
                close_end as int,
                k as int,
            ),
        decreases summaries@.len() - k,
    {
        let summary: &CutSummary = &summaries[k];
        proof {
            assert(model[k as int] == summary@);
        }
        if summary.block.start >= close_end {
            return None;
        }
        match summary.scan.fault {
            Some(fault) => {
                if fault_position(fault, len) < close_end {
                    return Some(raise_fault(fault, len));
                }
            },
            None => {},
        }
        k += 1;
    }
    None
}

} // verus!
