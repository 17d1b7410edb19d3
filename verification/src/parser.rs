//! The incremental tokenizer: raw character chunks in, lexical events out.
//!
//! Text is fed in arbitrary pieces; an event is produced only once a
//! complete token is buffered, so a token split across feeds tokenizes as if
//! the text had arrived whole.  When the buffered input ends mid-token the
//! tokenizer returns nothing and keeps the partial token verbatim.
//!
//! Strictness policy: a `<!` construct other than a comment or CDATA
//! section (such as a document type declaration) is an error, a comment may
//! contain `--`, and numeric character references are accepted for every
//! Unicode scalar value.

use vstd::assert_by_contradiction;
use vstd::prelude::*;

verus! {

use crate::text::str_chars;

/// A line and column, starting at one, advancing as input is consumed.
#[derive(Clone, Copy, Debug, PartialEq, Eq, Structural)]
pub struct Position {
    /// The line, counted by line feeds.
    pub line: usize,
    /// The column on the line.
    pub col: usize,
}

/// The start of an element: its raw qualified tag name and its raw
/// attributes (qualified name and decoded value), in document order.
#[derive(Debug)]
pub struct StartTag {
    /// The raw tag name, prefix included.
    pub name: String,
    /// The raw attributes, in order.
    pub attributes: Vec<(String, String)>,
}

/// The end of an element: its raw qualified tag name.
#[derive(Debug)]
pub struct EndTag {
    /// The raw tag name, prefix included.
    pub name: String,
}

/// One lexical event.
#[derive(Debug)]
pub enum Event {
    /// A start tag, or the opening half of a self-closed element.
    ElementStart(StartTag),
    /// An end tag, or the closing half of a self-closed element.
    ElementEnd(EndTag),
    /// Character data, entity references decoded.
    Characters(String),
    /// A CDATA section's text.
    CDATA(String),
    /// A comment's text.
    Comment(String),
    /// A processing instruction's text.
    PI(String),
}

/// What a lexical error is.
#[derive(Clone, Copy, Debug, PartialEq, Eq, Structural)]
pub enum ParseErrorKind {
    /// A malformed entity or character reference.
    BadEntity,
    /// A malformed tag.
    BadTag,
    /// A `<!` construct that is neither a comment nor a CDATA section.
    BadDecl,
}

/// A lexical error, with the position of the offending character.
#[derive(Clone, Copy, Debug, PartialEq, Eq, Structural)]
pub struct ParseError {
    /// What went wrong.
    pub kind: ParseErrorKind,
    /// Where it went wrong.
    pub pos: Position,
}

/// The incremental tokenizer.  Its whole state is its buffered text, its
/// position, and at most one queued end-tag event (for a self-closed
/// element); nothing is parsed until an event is asked for.
pub struct Parser {
    buf: Vec<char>,
    cur: usize,
    line: usize,
    col: usize,
    pending: Option<(String, Position)>,
}

impl Parser {
    /// The tokenizer's internal invariant: the cursor stays inside the
    /// buffer.
    pub closed spec fn wf(&self) -> bool {
        self.cur as int <= self.buf@.len()
    }

    /// The text fed and not yet consumed.
    pub closed spec fn remaining(&self) -> Seq<char> {
        if self.cur as int <= self.buf@.len() {
            self.buf@.skip(self.cur as int)
        } else {
            Seq::empty()
        }
    }

    /// The queued end-tag name, when the opening half of a self-closed
    /// element has been handed out and its closing half has not.
    pub closed spec fn pending_end(&self) -> Option<Seq<char>> {
        match self.pending {
            Some(p) => Some(p.0@),
            None => None,
        }
    }

    /// The current position.
    pub closed spec fn position(&self) -> (int, int) {
        (self.line as int, self.col as int)
    }

    /// Creates a tokenizer with nothing buffered, at line one, column one.
    pub fn new() -> (r: Parser)
        ensures
            r.wf(),
            r.remaining().len() == 0,
            r.pending_end() is None,
            r.position() == (1int, 1int),
    {
        Parser { buf: Vec::new(), cur: 0, line: 1, col: 1, pending: None }
    }

    /// Appends a chunk to the buffered text.  Nothing is parsed here: the
    /// unconsumed input afterwards is exactly the unconsumed input before
    /// with the chunk appended, and the position and any queued end tag are
    /// untouched.
    pub fn feed_str(&mut self, chunk: &str)
        requires
            old(self).wf(),
        ensures
            final(self).wf(),
            final(self).remaining() == old(self).remaining() + chunk@,
            final(self).pending_end() == old(self).pending_end(),
            final(self).position() == old(self).position(),
    {
        let mut cs = str_chars(chunk);
        self.buf.append(&mut cs);
        proof {
            assert(self.buf@.skip(self.cur as int) =~= old(self).buf@.skip(self.cur as int)
                + chunk@);
        }
    }
}


impl Parser {
    /// Advances the position counters over the consumed characters and
    /// moves the cursor to `to`.
    fn advance_to(&mut self, to: usize)
        requires
            old(self).wf(),
            old(self).cur <= to <= old(self).buf@.len(),
        ensures
            final(self).wf(),
            final(self).buf == old(self).buf,
            final(self).pending == old(self).pending,
            final(self).remaining() == old(self).remaining().skip(to - old(self).cur),
    {
        let mut i = self.cur;
        while i < to
            invariant
                self.cur <= i <= to <= self.buf@.len(),
                self.buf == old(self).buf,
                self.cur == old(self).cur,
                self.pending == old(self).pending,
            decreases to - i,
        {
            let c = self.buf[i];
            if c == '\n' {
                if self.line < usize::MAX {
                    self.line = self.line + 1;
                }
                self.col = 1;
            } else {
                if self.col < usize::MAX {
                    self.col = self.col + 1;
                }
            }
            i = i + 1;
        }
        self.cur = to;
        proof {
            assert(self.buf@.skip(to as int) =~= old(self).buf@.skip(old(self).cur as int).skip(
                to - old(self).cur,
            ));
        }
    }

    /// Attempts to lex exactly one complete token from the buffered input,
    /// exactly as [`lex1`] describes it: the event the head of the
    /// unconsumed text lexes to, how many characters it consumes, and the
    /// end tag it queues when the construct closed itself.
    ///
    /// A queued end tag comes out first, consuming nothing.  Input that
    /// ends mid-token yields `None` and changes nothing, so feeding more
    /// text resumes transparently.  A malformed but complete construct
    /// yields an error carrying its position; the tokenizer is then spent
    /// and the caller must discard it.
    #[verifier::rlimit(100)]
    pub fn next_event(&mut self) -> (r: Option<Result<(Event, Position), ParseError>>)
        requires
            old(self).wf(),
        ensures
            final(self).wf(),
            r is None ==> final(self).remaining() == old(self).remaining()
                && final(self).pending_end() == old(self).pending_end()
                && final(self).position() == old(self).position(),
            match old(self).pending_end() {
                Some(n) => match r {
                    Some(Ok((ev, p))) => final(self).remaining() == old(self).remaining()
                        && final(self).pending_end() is None && (ev matches Event::ElementEnd(
                        EndTag { name },
                    ) && name@ == n),
                    _ => false,
                },
                None => true,
            },
            old(self).pending_end() is None ==> match lex1(old(self).remaining()) {
                Lex1::More => r is None,
                Lex1::Tok(ev, n2, pend) => (r matches Some(Ok((e, p))) && e@ == ev)
                    && final(self).remaining() == old(self).remaining().skip(n2)
                    && final(self).pending_end() == pend,
                Lex1::Fail(k2) => r matches Some(Err(pe)) && pe.kind == k2,
            },
            (r matches Some(Ok(_)) && old(self).pending_end() is None)
                ==> (final(self).remaining().len() < old(self).remaining().len()
                && final(self).remaining() == old(self).remaining().skip(
                old(self).remaining().len() - final(self).remaining().len(),
            )),
    {
        match take_pending(&mut self.pending) {
            Some((name, pos)) => {
                return Some(Ok((Event::ElementEnd(EndTag { name }), pos)));
            },
            None => {},
        }
        let n = self.buf.len();
        if self.cur >= n {
            proof {
                assert(old(self).remaining().len() == 0);
            }
            return None;
        }
        let ghost rem0 = self.remaining();
        let ghost cur0 = self.cur as int;
        proof {
            assert(rem0 =~= self.buf@.skip(cur0));
            assert(forall|k: int| 0 <= k < rem0.len() ==> #[trigger] rem0[k] == self.buf@[k
                + cur0]);
            assert(rem0.len() == n - cur0);
        }
        let avail = n - self.cur;
        let start_pos = Position { line: self.line, col: self.col };
        let c = self.buf[self.cur];
        proof {
            assert(rem0[0] == c);
        }
        if c != '<' {
            // Character data runs to the next tag opener; without one the
            // text may still grow, so wait for more input.
            match find1(&self.buf, self.cur, n, '<') {
                None => {
                    proof {
                        assert forall|k: int| 0 <= k < rem0.len() implies rem0[k] != '<' by {
                            assert(rem0[k] == self.buf@[k + cur0]);
                        }
                        lemma_first_at_char(rem0, 0, '<', rem0.len() as int);
                    }
                    return None;
                },
                Some(lt) => {
                    proof {
                        assert forall|k: int| 0 <= k < lt - cur0 implies rem0[k] != '<' by {
                            assert(rem0[k] == self.buf@[k + cur0]);
                        }
                        assert(rem0[lt - cur0] == self.buf@[lt as int]);
                        lemma_first_at_char(rem0, 0, '<', lt - cur0);
                    }
                    let decoded = decode_entities(&self.buf, self.cur, lt);
                    proof {
                        assert(self.buf@.subrange(cur0, lt as int) =~= rem0.take(lt - cur0));
                    }
                    match decoded {
                        Ok(text) => {
                            self.advance_to(lt);
                            proof {
                                lemma_suffix(rem0, cur0, lt as int, self);
                            }
                            return Some(Ok((Event::Characters(text), start_pos)));
                        },
                        Err(off) => {
                            // Report the position of the offending character.
                            let stop = if self.cur <= off && off <= lt {
                                off
                            } else {
                                lt
                            };
                            self.advance_to(stop);
                            let at = Position { line: self.line, col: self.col };
                            return Some(
                                Err(ParseError { kind: ParseErrorKind::BadEntity, pos: at }),
                            );
                        },
                    }
                },
            }
        }
        proof {
            assert(rem0.len() > 1 ==> rem0[1] == self.buf@[cur0 + 1]);
            assert(rem0.len() > 2 ==> rem0[2] == self.buf@[cur0 + 2]);
            assert(rem0.len() > 3 ==> rem0[3] == self.buf@[cur0 + 3]);
            assert(rem0.len() > 4 ==> rem0[4] == self.buf@[cur0 + 4]);
            assert(rem0.len() > 5 ==> rem0[5] == self.buf@[cur0 + 5]);
            assert(rem0.len() > 6 ==> rem0[6] == self.buf@[cur0 + 6]);
            assert(rem0.len() > 7 ==> rem0[7] == self.buf@[cur0 + 7]);
            assert(rem0.len() > 8 ==> rem0[8] == self.buf@[cur0 + 8]);
        }
        // A comment: everything to the closing marker, verbatim.
        if avail > 3 && self.buf[self.cur + 1] == '!' && self.buf[self.cur + 2] == '-'
            && self.buf[self.cur + 3] == '-' {
            match find3(&self.buf, self.cur + 4, n, '-', '-', '>') {
                None => {
                    proof {
                        assert forall|k: int|
                            4 <= k < rem0.len() && k + 3 <= rem0.len() implies !(#[trigger] rem0[k]
                            == '-' && rem0[k + 1] == '-' && rem0[k + 2] == '>') by {
                            assert(rem0[k] == self.buf@[k + cur0] && rem0[k + 1] == self.buf@[k + 1
                                + cur0] && rem0[k + 2] == self.buf@[k + 2 + cur0]);
                        }
                        lemma_first3_at_char(rem0, 4, '-', '-', '>', rem0.len() as int);
                    }
                    return None;
                },
                Some(e) => {
                    proof {
                        assert forall|k: int|
                            4 <= k < e - cur0 && k + 3 <= rem0.len() implies !(#[trigger] rem0[k]
                            == '-' && rem0[k + 1] == '-' && rem0[k + 2] == '>') by {
                            assert(rem0[k] == self.buf@[k + cur0] && rem0[k + 1] == self.buf@[k + 1
                                + cur0] && rem0[k + 2] == self.buf@[k + 2 + cur0]);
                        }
                        assert(rem0[e - cur0] == self.buf@[e as int] && rem0[e - cur0 + 1]
                            == self.buf@[e + 1] && rem0[e - cur0 + 2] == self.buf@[e + 2]);
                        lemma_first3_at_char(rem0, 4, '-', '-', '>', e - cur0);
                    }
                    let text = segment_string(&self.buf, self.cur + 4, e);
                    proof {
                        assert(text@ =~= rem0.subrange(4, e - cur0));
                    }
                    self.advance_to(e + 3);
                    proof {
                        lemma_suffix(rem0, cur0, e + 3 as int, self);
                    }
                    return Some(Ok((Event::Comment(text), start_pos)));
                },
            }
        }
        // A CDATA section: everything to the closing marker, verbatim.
        if avail > 8 && self.buf[self.cur + 1] == '!' && self.buf[self.cur + 2] == '['
            && self.buf[self.cur + 3] == 'C' && self.buf[self.cur + 4] == 'D' && self.buf[self.cur
            + 5] == 'A' && self.buf[self.cur + 6] == 'T' && self.buf[self.cur + 7] == 'A'
            && self.buf[self.cur + 8] == '[' {
            match find3(&self.buf, self.cur + 9, n, ']', ']', '>') {
                None => {
                    proof {
                        assert forall|k: int|
                            9 <= k < rem0.len() && k + 3 <= rem0.len() implies !(#[trigger] rem0[k]
                            == ']' && rem0[k + 1] == ']' && rem0[k + 2] == '>') by {
                            assert(rem0[k] == self.buf@[k + cur0] && rem0[k + 1] == self.buf@[k + 1
                                + cur0] && rem0[k + 2] == self.buf@[k + 2 + cur0]);
                        }
                        lemma_first3_at_char(rem0, 9, ']', ']', '>', rem0.len() as int);
                    }
                    return None;
                },
                Some(e) => {
                    proof {
                        assert forall|k: int|
                            9 <= k < e - cur0 && k + 3 <= rem0.len() implies !(#[trigger] rem0[k]
                            == ']' && rem0[k + 1] == ']' && rem0[k + 2] == '>') by {
                            assert(rem0[k] == self.buf@[k + cur0] && rem0[k + 1] == self.buf@[k + 1
                                + cur0] && rem0[k + 2] == self.buf@[k + 2 + cur0]);
                        }
                        assert(rem0[e - cur0] == self.buf@[e as int] && rem0[e - cur0 + 1]
                            == self.buf@[e + 1] && rem0[e - cur0 + 2] == self.buf@[e + 2]);
                        lemma_first3_at_char(rem0, 9, ']', ']', '>', e - cur0);
                    }
                    let text = segment_string(&self.buf, self.cur + 9, e);
                    proof {
                        assert(text@ =~= rem0.subrange(9, e - cur0));
                    }
                    self.advance_to(e + 3);
                    proof {
                        lemma_suffix(rem0, cur0, e + 3 as int, self);
                    }
                    return Some(Ok((Event::CDATA(text), start_pos)));
                },
            }
        }
        // Some other `<!` construct: wait while the buffered text is still
        // a prefix of a comment or CDATA opener, else reject it.
        if avail > 1 && self.buf[self.cur + 1] == '!' {
            let keep = still_prefix(&self.buf, self.cur, n);
            proof {
                assert(self.buf@.subrange(cur0, n as int) =~= rem0);
            }
            if keep {
                return None;
            }
            return Some(Err(ParseError { kind: ParseErrorKind::BadDecl, pos: start_pos }));
        }
        if avail == 1 {
            // Only `<` buffered: the tag kind is not decided yet.
            return None;
        }
        // A processing instruction: everything to the closing marker.
        if self.buf[self.cur + 1] == '?' {
            match find2(&self.buf, self.cur + 2, n, '?', '>') {
                None => {
                    proof {
                        assert forall|k: int|
                            2 <= k < rem0.len() && k + 2 <= rem0.len() implies !(#[trigger] rem0[k]
                            == '?' && rem0[k + 1] == '>') by {
                            assert(rem0[k] == self.buf@[k + cur0] && rem0[k + 1] == self.buf@[k + 1
                                + cur0]);
                        }
                        lemma_first2_at_char(rem0, 2, '?', '>', rem0.len() as int);
                    }
                    return None;
                },
                Some(e) => {
                    proof {
                        assert forall|k: int|
                            2 <= k < e - cur0 && k + 2 <= rem0.len() implies !(#[trigger] rem0[k]
                            == '?' && rem0[k + 1] == '>') by {
                            assert(rem0[k] == self.buf@[k + cur0] && rem0[k + 1] == self.buf@[k + 1
                                + cur0]);
                        }
                        assert(rem0[e - cur0] == self.buf@[e as int] && rem0[e - cur0 + 1]
                            == self.buf@[e + 1]);
                        lemma_first2_at_char(rem0, 2, '?', '>', e - cur0);
                    }
                    let text = segment_string(&self.buf, self.cur + 2, e);
                    proof {
                        assert(text@ =~= rem0.subrange(2, e - cur0));
                    }
                    self.advance_to(e + 2);
                    proof {
                        lemma_suffix(rem0, cur0, e + 2 as int, self);
                    }
                    return Some(Ok((Event::PI(text), start_pos)));
                },
            }
        }
        // An end tag: the name up to the closing bracket.
        if self.buf[self.cur + 1] == '/' {
            match find1(&self.buf, self.cur + 2, n, '>') {
                None => {
                    proof {
                        assert forall|k: int| 2 <= k < rem0.len() implies rem0[k] != '>' by {
                            assert(rem0[k] == self.buf@[k + cur0]);
                        }
                        lemma_first_at_char(rem0, 2, '>', rem0.len() as int);
                    }
                    return None;
                },
                Some(e) => {
                    proof {
                        assert forall|k: int| 2 <= k < e - cur0 implies rem0[k] != '>' by {
                            assert(rem0[k] == self.buf@[k + cur0]);
                        }
                        assert(rem0[e - cur0] == self.buf@[e as int]);
                        lemma_first_at_char(rem0, 2, '>', e - cur0);
                    }
                    let name = segment_trimmed(&self.buf, self.cur + 2, e);
                    proof {
                        assert(self.buf@.subrange(cur0 + 2, e as int) =~= rem0.subrange(
                            2,
                            e - cur0,
                        ));
                    }
                    self.advance_to(e + 1);
                    proof {
                        lemma_suffix(rem0, cur0, e + 1 as int, self);
                    }
                    if name.as_str().is_empty() {
                        return Some(
                            Err(ParseError { kind: ParseErrorKind::BadTag, pos: start_pos }),
                        );
                    }
                    return Some(Ok((Event::ElementEnd(EndTag { name }), start_pos)));
                },
            }
        }
        // A start tag: runs to the first closing bracket outside quotes.
        match find_gt_quoted(&self.buf, self.cur + 1, n, Ghost(self.cur as int)) {
            None => {
                proof {
                    assert(self.buf@.skip(cur0) == rem0);
                }
                None
            },
            Some(gt) => {
                proof {
                    assert(self.buf@.skip(cur0) == rem0);
                    assert(gtq(rem0, 1, None) == gt - cur0);
                }
                let parsed = parse_tag(&self.buf, self.cur + 1, gt);
                proof {
                    assert(self.buf@.subrange(cur0 + 1, gt as int) =~= rem0.subrange(
                        1,
                        gt - cur0,
                    ));
                }
                self.advance_to(gt + 1);
                proof {
                    lemma_suffix(rem0, cur0, gt + 1 as int, self);
                }
                match parsed {
                    Ok((name, attributes, self_closing)) => {
                        if self_closing {
                            self.pending = Some((clone_string(&name), start_pos));
                        }
                        proof {
                            assert(self.remaining() == rem0.skip(gt + 1 - cur0));
                        }
                        Some(Ok((Event::ElementStart(StartTag { name, attributes }), start_pos)))
                    },
                    Err(_) => Some(
                        Err(ParseError { kind: ParseErrorKind::BadTag, pos: start_pos }),
                    ),
                }
            },
        }
    }
}

/// The view of a start tag: its raw name and raw attribute pairs.
pub struct StartTagV {
    /// The raw tag name, prefix included.
    pub name: Seq<char>,
    /// The raw attributes, in order.
    pub attributes: Seq<(Seq<char>, Seq<char>)>,
}

/// The view of a lexical event.
pub enum EventV {
    ElementStart(StartTagV),
    ElementEnd(Seq<char>),
    Characters(Seq<char>),
    CDATA(Seq<char>),
    Comment(Seq<char>),
    PI(Seq<char>),
}

/// The views of raw attribute pairs.
pub open spec fn raw_pairs(v: Seq<(String, String)>) -> Seq<(Seq<char>, Seq<char>)> {
    v.map_values(|p: (String, String)| (p.0@, p.1@))
}

impl View for StartTag {
    type V = StartTagV;

    open spec fn view(&self) -> StartTagV {
        StartTagV { name: self.name@, attributes: raw_pairs(self.attributes@) }
    }
}

impl View for EndTag {
    type V = Seq<char>;

    open spec fn view(&self) -> Seq<char> {
        self.name@
    }
}

impl View for Event {
    type V = EventV;

    open spec fn view(&self) -> EventV {
        match self {
            Event::ElementStart(st) => EventV::ElementStart(st@),
            Event::ElementEnd(et) => EventV::ElementEnd(et@),
            Event::Characters(t) => EventV::Characters(t@),
            Event::CDATA(t) => EventV::CDATA(t@),
            Event::Comment(t) => EventV::Comment(t@),
            Event::PI(t) => EventV::PI(t@),
        }
    }
}

/// The first position at or after `i` holding `c`, or the length.
pub open spec fn first_at(s: Seq<char>, i: int, c: char) -> int
    decreases s.len() - i,
{
    if i >= s.len() {
        s.len() as int
    } else if s[i] == c {
        i
    } else {
        first_at(s, i + 1, c)
    }
}

/// The first position at or after `i` opening the pair `c0 c1`, or the
/// length.
pub open spec fn first2_at(s: Seq<char>, i: int, c0: char, c1: char) -> int
    decreases s.len() - i,
{
    if i + 2 > s.len() {
        s.len() as int
    } else if s[i] == c0 && s[i + 1] == c1 {
        i
    } else {
        first2_at(s, i + 1, c0, c1)
    }
}

/// The first position at or after `i` opening the triple `c0 c1 c2`, or
/// the length.
pub open spec fn first3_at(s: Seq<char>, i: int, c0: char, c1: char, c2: char) -> int
    decreases s.len() - i,
{
    if i + 3 > s.len() {
        s.len() as int
    } else if s[i] == c0 && s[i + 1] == c1 && s[i + 2] == c2 {
        i
    } else {
        first3_at(s, i + 1, c0, c1, c2)
    }
}

/// The first whitespace position at or after `i`, or the length.
pub open spec fn first_ws(s: Seq<char>, i: int) -> int
    decreases s.len() - i,
{
    if i >= s.len() {
        s.len() as int
    } else if crate::text::is_ws(s[i]) {
        i
    } else {
        first_ws(s, i + 1)
    }
}

/// The first non-whitespace position at or after `i`, or the length.
pub open spec fn skip_ws(s: Seq<char>, i: int) -> int
    decreases s.len() - i,
{
    if i >= s.len() {
        s.len() as int
    } else if !crate::text::is_ws(s[i]) {
        i
    } else {
        skip_ws(s, i + 1)
    }
}

/// The first position at or after `i` holding `=` or whitespace, or the
/// length.
pub open spec fn first_eqstop(s: Seq<char>, i: int) -> int
    decreases s.len() - i,
{
    if i >= s.len() {
        s.len() as int
    } else if s[i] == '=' || crate::text::is_ws(s[i]) {
        i
    } else {
        first_eqstop(s, i + 1)
    }
}

/// The first `>` outside quotes at or after `i`, given the open quote, or
/// the length.
pub open spec fn gtq(s: Seq<char>, i: int, q: Option<char>) -> int
    decreases s.len() - i,
{
    if i >= s.len() {
        s.len() as int
    } else {
        match q {
            Some(qc) => if s[i] == qc {
                gtq(s, i + 1, None)
            } else {
                gtq(s, i + 1, q)
            },
            None => if s[i] == '\'' || s[i] == '"' {
                gtq(s, i + 1, Some(s[i]))
            } else if s[i] == '>' {
                i
            } else {
                gtq(s, i + 1, None)
            },
        }
    }
}

proof fn lemma_first_at_bounds(s: Seq<char>, i: int, c: char)
    requires
        0 <= i <= s.len(),
    ensures
        i <= first_at(s, i, c) <= s.len(),
    decreases s.len() - i,
{
    if i < s.len() && s[i] != c {
        lemma_first_at_bounds(s, i + 1, c);
    }
}

proof fn lemma_first_at_char(s: Seq<char>, i: int, c: char, n: int)
    requires
        0 <= i <= n <= s.len(),
        forall|k: int| i <= k < n ==> s[k] != c,
        n == s.len() || s[n] == c,
    ensures
        first_at(s, i, c) == n,
    decreases n - i,
{
    if i < n {
        lemma_first_at_char(s, i + 1, c, n);
    }
}

proof fn lemma_first2_at_char(s: Seq<char>, i: int, c0: char, c1: char, n: int)
    requires
        0 <= i <= n <= s.len(),
        forall|k: int| i <= k < n && k + 2 <= s.len() ==> !(#[trigger] s[k] == c0 && s[k + 1] == c1),
        n == s.len() || (n + 2 <= s.len() && s[n] == c0 && s[n + 1] == c1),
    ensures
        first2_at(s, i, c0, c1) == n,
    decreases n - i,
{
    if i < n {
        lemma_first2_at_char(s, i + 1, c0, c1, n);
    } else if n + 2 > s.len() {
        assert(first2_at(s, i, c0, c1) == s.len());
    }
}

proof fn lemma_first3_at_char(s: Seq<char>, i: int, c0: char, c1: char, c2: char, n: int)
    requires
        0 <= i <= n <= s.len(),
        forall|k: int|
            i <= k < n && k + 3 <= s.len() ==> !(#[trigger] s[k] == c0 && s[k + 1] == c1 && s[k + 2]
                == c2),
        n == s.len() || (n + 3 <= s.len() && s[n] == c0 && s[n + 1] == c1 && s[n + 2] == c2),
    ensures
        first3_at(s, i, c0, c1, c2) == n,
    decreases n - i,
{
    if i < n {
        lemma_first3_at_char(s, i + 1, c0, c1, c2, n);
    } else if n + 3 > s.len() {
        assert(first3_at(s, i, c0, c1, c2) == s.len());
    }
}

proof fn lemma_first_ws_char(s: Seq<char>, i: int, n: int)
    requires
        0 <= i <= n <= s.len(),
        forall|k: int| i <= k < n ==> !crate::text::is_ws(#[trigger] s[k]),
        n == s.len() || crate::text::is_ws(s[n]),
    ensures
        first_ws(s, i) == n,
    decreases n - i,
{
    if i < n {
        lemma_first_ws_char(s, i + 1, n);
    }
}

proof fn lemma_skip_ws_char(s: Seq<char>, i: int, n: int)
    requires
        0 <= i <= n <= s.len(),
        forall|k: int| i <= k < n ==> crate::text::is_ws(#[trigger] s[k]),
        n == s.len() || !crate::text::is_ws(s[n]),
    ensures
        skip_ws(s, i) == n,
    decreases n - i,
{
    if i < n {
        lemma_skip_ws_char(s, i + 1, n);
    }
}

proof fn lemma_first_eqstop_char(s: Seq<char>, i: int, n: int)
    requires
        0 <= i <= n <= s.len(),
        forall|k: int| i <= k < n ==> !(#[trigger] s[k] == '=' || crate::text::is_ws(s[k])),
        n == s.len() || s[n] == '=' || crate::text::is_ws(s[n]),
    ensures
        first_eqstop(s, i) == n,
    decreases n - i,
{
    if i < n {
        lemma_first_eqstop_char(s, i + 1, n);
    }
}

/// Whether a code point is a Unicode scalar value: not a surrogate, at
/// most the last code point.
pub open spec fn valid_scalar(v: int) -> bool {
    (0 <= v < 0xD800) || (0xE000 <= v <= 0x10FFFF)
}

/// A character's scalar value.
pub open spec fn code_of(c: char) -> int {
    c as int
}

/// The character with the given scalar value.
pub open spec fn char_from_code(v: int) -> char {
    choose|c: char| (#[trigger] code_of(c)) == v
}

/// The value of an entity or character reference name, if it has one:
/// the five named entities, or a numeric reference denoting a Unicode
/// scalar value.
pub open spec fn named_ent(n: Seq<char>) -> Option<char> {
    if n == seq!['l', 't'] {
        Some('<')
    } else if n == seq!['g', 't'] {
        Some('>')
    } else if n == seq!['a', 'm', 'p'] {
        Some('&')
    } else if n == seq!['q', 'u', 'o', 't'] {
        Some('"')
    } else if n == seq!['a', 'p', 'o', 's'] {
        Some('\'')
    } else if n.len() >= 2 && n[0] == '#' {
        if n[1] == 'x' {
            num_char(n.skip(2), 16)
        } else {
            num_char(n.skip(1), 10)
        }
    } else {
        None
    }
}

/// The value of a decimal or hexadecimal digit.
pub open spec fn dig_val(c: char, base: int) -> Option<int> {
    if '0' <= c && c <= '9' {
        Some((c as int) - 48)
    } else if base == 16 && 'a' <= c && c <= 'f' {
        Some((c as int) - 87)
    } else if base == 16 && 'A' <= c && c <= 'F' {
        Some((c as int) - 55)
    } else {
        None
    }
}

/// The character a digit run denotes, folding left, failing on a bad
/// digit, a value past the last code point, or a surrogate.
pub open spec fn num_acc(d: Seq<char>, i: int, base: int, v: int) -> Option<char>
    decreases d.len() - i,
{
    if i >= d.len() {
        if valid_scalar(v) {
            Some(char_from_code(v))
        } else {
            None
        }
    } else {
        match dig_val(d[i], base) {
            None => None,
            Some(dv) => {
                let nv = v * base + dv;
                if nv > 0x10FFFF {
                    None
                } else {
                    num_acc(d, i + 1, base, nv)
                }
            },
        }
    }
}

/// The character a non-empty digit run denotes.
pub open spec fn num_char(d: Seq<char>, base: int) -> Option<char> {
    if d.len() == 0 {
        None
    } else {
        num_acc(d, 0, base, 0)
    }
}

/// The text with its entity references decoded, from `i` on, or none on a
/// malformed reference.
pub open spec fn dec_from(t: Seq<char>, i: int) -> Option<Seq<char>>
    decreases t.len() - i when 0 <= i via dec_from_dec
{
    if i >= t.len() {
        Some(Seq::empty())
    } else if t[i] != '&' {
        match dec_from(t, i + 1) {
            Some(r) => Some(seq![t[i]] + r),
            None => None,
        }
    } else {
        let semi = first_at(t, i + 1, ';');
        if semi >= t.len() {
            None
        } else {
            match named_ent(t.subrange(i + 1, semi)) {
                None => None,
                Some(c) => match dec_from(t, semi + 1) {
                    Some(r) => Some(seq![c] + r),
                    None => None,
                },
            }
        }
    }
}

#[via_fn]
proof fn dec_from_dec(t: Seq<char>, i: int) {
    if 0 <= i && i < t.len() && t[i] == '&' {
        lemma_first_at_bounds(t, i + 1, ';');
    }
}

/// The parse of a start tag's inside: name, raw attributes (values
/// decoded) and whether the tag closes itself, or none when malformed.
pub open spec fn tag_spec(t: Seq<char>) -> Option<
    (Seq<char>, Seq<(Seq<char>, Seq<char>)>, bool),
> {
    let sc = t.len() > 0 && t.last() == '/';
    let body = if sc {
        t.drop_last()
    } else {
        t
    };
    let ne = first_ws(body, 0);
    if ne == 0 {
        None
    } else {
        match attrs_spec(body, ne) {
            Some(attrs) => Some((body.take(ne), attrs, sc)),
            None => None,
        }
    }
}

/// The raw attributes from position `i` of a tag body on: whitespace, a
/// name, `=`, a quoted value with entities decoded, repeated; or none when
/// malformed.
pub open spec fn attrs_spec(body: Seq<char>, i: int) -> Option<Seq<(Seq<char>, Seq<char>)>>
    decreases body.len() - i when 0 <= i via attrs_spec_dec
{
    let j = skip_ws(body, i);
    if j >= body.len() {
        Some(Seq::empty())
    } else {
        let ne = first_eqstop(body, j);
        if ne == j || ne >= body.len() || body[ne] != '=' {
            None
        } else if ne + 1 >= body.len() {
            None
        } else {
            let q = body[ne + 1];
            if q != '\'' && q != '"' {
                None
            } else {
                let ve = first_at(body, ne + 2, q);
                if ve >= body.len() {
                    None
                } else {
                    match dec_from(body.subrange(ne + 2, ve), 0) {
                        None => None,
                        Some(v) => match attrs_spec(body, ve + 1) {
                            Some(rest) => Some(seq![(body.subrange(j, ne), v)] + rest),
                            None => None,
                        },
                    }
                }
            }
        }
    }
}

proof fn lemma_skip_ws_bounds(s: Seq<char>, i: int)
    requires
        0 <= i <= s.len(),
    ensures
        i <= skip_ws(s, i) <= s.len(),
    decreases s.len() - i,
{
    if i < s.len() && crate::text::is_ws(s[i]) {
        lemma_skip_ws_bounds(s, i + 1);
    }
}

proof fn lemma_first_eqstop_bounds(s: Seq<char>, i: int)
    requires
        0 <= i <= s.len(),
    ensures
        i <= first_eqstop(s, i) <= s.len(),
    decreases s.len() - i,
{
    if i < s.len() && !(s[i] == '=' || crate::text::is_ws(s[i])) {
        lemma_first_eqstop_bounds(s, i + 1);
    }
}

#[via_fn]
proof fn attrs_spec_dec(body: Seq<char>, i: int) {
    if 0 <= i <= body.len() {
        lemma_skip_ws_bounds(body, i);
        let j = skip_ws(body, i);
        if j < body.len() {
            lemma_first_eqstop_bounds(body, j);
            let ne = first_eqstop(body, j);
            if ne > j && ne < body.len() && body[ne] == '=' && ne + 1 < body.len() {
                lemma_first_at_bounds(body, ne + 2, body[ne + 1]);
            }
        }
    }
}

/// Whether the text is a proper prefix of a comment opener, so that more
/// input could complete one.
pub open spec fn comment_open_prefix(s: Seq<char>) -> bool {
    &&& s.len() < 4
    &&& (s.len() >= 1 ==> s[0] == '<')
    &&& (s.len() >= 2 ==> s[1] == '!')
    &&& (s.len() >= 3 ==> s[2] == '-')
}

/// Whether the text is a proper prefix of a CDATA opener, so that more
/// input could complete one.
pub open spec fn cdata_open_prefix(s: Seq<char>) -> bool {
    &&& s.len() < 9
    &&& (s.len() >= 1 ==> s[0] == '<')
    &&& (s.len() >= 2 ==> s[1] == '!')
    &&& (s.len() >= 3 ==> s[2] == '[')
    &&& (s.len() >= 4 ==> s[3] == 'C')
    &&& (s.len() >= 5 ==> s[4] == 'D')
    &&& (s.len() >= 6 ==> s[5] == 'A')
    &&& (s.len() >= 7 ==> s[6] == 'T')
    &&& (s.len() >= 8 ==> s[7] == 'A')
}

/// What one attempt at lexing does to the buffered text.
pub enum Lex1 {
    /// No complete token is buffered: wait for more input.
    More,
    /// The head lexes to this event, consuming this many characters and
    /// queuing this end-tag name when the construct closed itself.
    Tok(EventV, int, Option<Seq<char>>),
    /// The head is a complete but malformed construct of this kind.
    Fail(ParseErrorKind),
}

/// The tokenization of the head of the buffered text: the single source of
/// truth for what `Parser::next_event` produces when no end tag is queued.
pub open spec fn lex1(s: Seq<char>) -> Lex1 {
    if s.len() == 0 {
        Lex1::More
    } else if s[0] != '<' {
        let lt = first_at(s, 0, '<');
        if lt == s.len() {
            Lex1::More
        } else {
            match dec_from(s.take(lt), 0) {
                Some(t) => Lex1::Tok(EventV::Characters(t), lt, None),
                None => Lex1::Fail(ParseErrorKind::BadEntity),
            }
        }
    } else if s.len() > 3 && s[1] == '!' && s[2] == '-' && s[3] == '-' {
        let e = first3_at(s, 4, '-', '-', '>');
        if e == s.len() {
            Lex1::More
        } else {
            Lex1::Tok(EventV::Comment(s.subrange(4, e)), e + 3, None)
        }
    } else if s.len() > 8 && s[1] == '!' && s[2] == '[' && s[3] == 'C' && s[4] == 'D' && s[5] == 'A'
        && s[6] == 'T' && s[7] == 'A' && s[8] == '[' {
        let e = first3_at(s, 9, ']', ']', '>');
        if e == s.len() {
            Lex1::More
        } else {
            Lex1::Tok(EventV::CDATA(s.subrange(9, e)), e + 3, None)
        }
    } else if s.len() > 1 && s[1] == '!' {
        if comment_open_prefix(s) || cdata_open_prefix(s) {
            Lex1::More
        } else {
            Lex1::Fail(ParseErrorKind::BadDecl)
        }
    } else if s.len() == 1 {
        Lex1::More
    } else if s[1] == '?' {
        let e = first2_at(s, 2, '?', '>');
        if e == s.len() {
            Lex1::More
        } else {
            Lex1::Tok(EventV::PI(s.subrange(2, e)), e + 2, None)
        }
    } else if s[1] == '/' {
        let e = first_at(s, 2, '>');
        if e == s.len() {
            Lex1::More
        } else {
            let name = crate::lexical::trim(s.subrange(2, e));
            if name.len() == 0 {
                Lex1::Fail(ParseErrorKind::BadTag)
            } else {
                Lex1::Tok(EventV::ElementEnd(name), e + 1, None)
            }
        }
    } else {
        let g = gtq(s, 1, None);
        if g == s.len() {
            Lex1::More
        } else {
            match tag_spec(s.subrange(1, g)) {
                None => Lex1::Fail(ParseErrorKind::BadTag),
                Some((name, attrs, sc)) => Lex1::Tok(
                    EventV::ElementStart(StartTagV { name, attributes: attrs }),
                    g + 1,
                    if sc {
                        Some(name)
                    } else {
                        None
                    },
                ),
            }
        }
    }
}

proof fn lemma_first2_at_hi(s: Seq<char>, i: int, c0: char, c1: char)
    requires
        0 <= i,
    ensures
        first2_at(s, i, c0, c1) <= s.len(),
    decreases s.len() - i,
{
    if i + 2 <= s.len() && !(s[i] == c0 && s[i + 1] == c1) {
        lemma_first2_at_hi(s, i + 1, c0, c1);
    }
}

proof fn lemma_first3_at_hi(s: Seq<char>, i: int, c0: char, c1: char, c2: char)
    requires
        0 <= i,
    ensures
        first3_at(s, i, c0, c1, c2) <= s.len(),
    decreases s.len() - i,
{
    if i + 3 <= s.len() && !(s[i] == c0 && s[i + 1] == c1 && s[i + 2] == c2) {
        lemma_first3_at_hi(s, i + 1, c0, c1, c2);
    }
}

proof fn lemma_first2_at_found(s: Seq<char>, i: int, c0: char, c1: char)
    requires
        0 <= i,
        first2_at(s, i, c0, c1) < s.len(),
    ensures
        i <= first2_at(s, i, c0, c1),
        first2_at(s, i, c0, c1) + 2 <= s.len(),
    decreases s.len() - i,
{
    if i + 2 <= s.len() && !(s[i] == c0 && s[i + 1] == c1) {
        lemma_first2_at_found(s, i + 1, c0, c1);
    }
}

proof fn lemma_first3_at_found(s: Seq<char>, i: int, c0: char, c1: char, c2: char)
    requires
        0 <= i,
        first3_at(s, i, c0, c1, c2) < s.len(),
    ensures
        i <= first3_at(s, i, c0, c1, c2),
        first3_at(s, i, c0, c1, c2) + 3 <= s.len(),
    decreases s.len() - i,
{
    if i + 3 <= s.len() && !(s[i] == c0 && s[i + 1] == c1 && s[i + 2] == c2) {
        lemma_first3_at_found(s, i + 1, c0, c1, c2);
    }
}

proof fn lemma_gtq_low(s: Seq<char>, i: int, q: Option<char>)
    requires
        0 <= i <= s.len(),
    ensures
        i <= gtq(s, i, q) <= s.len(),
    decreases s.len() - i,
{
    if i < s.len() {
        match q {
            Some(qc) => {
                if s[i] == qc {
                    lemma_gtq_low(s, i + 1, None);
                } else {
                    lemma_gtq_low(s, i + 1, q);
                }
            },
            None => {
                if s[i] == '\'' || s[i] == '"' {
                    lemma_gtq_low(s, i + 1, Some(s[i]));
                } else if s[i] == '>' {
                } else {
                    lemma_gtq_low(s, i + 1, None);
                }
            },
        }
    }
}

/// A lexed token always consumes at least one character and never more
/// than are buffered.
pub proof fn lemma_lex1_consumes(s: Seq<char>)
    ensures
        lex1(s) matches Lex1::Tok(ev, n, p) ==> 1 <= n <= s.len(),
{
    if lex1(s) is Tok {
        assert(s.len() > 0);
        if s[0] != '<' {
            lemma_first_at_bounds(s, 1, '<');
            assert(first_at(s, 0, '<') == first_at(s, 1, '<'));
        } else if s.len() > 3 && s[1] == '!' && s[2] == '-' && s[3] == '-' {
            lemma_first3_at_hi(s, 4, '-', '-', '>');
            lemma_first3_at_found(s, 4, '-', '-', '>');
        } else if s.len() > 8 && s[1] == '!' && s[2] == '[' && s[3] == 'C' && s[4] == 'D' && s[5]
            == 'A' && s[6] == 'T' && s[7] == 'A' && s[8] == '[' {
            lemma_first3_at_hi(s, 9, ']', ']', '>');
            lemma_first3_at_found(s, 9, ']', ']', '>');
        } else if s.len() > 1 && s[1] == '!' {
        } else if s.len() == 1 {
        } else if s[1] == '?' {
            lemma_first2_at_hi(s, 2, '?', '>');
            lemma_first2_at_found(s, 2, '?', '>');
        } else if s[1] == '/' {
            lemma_first_at_bounds(s, 2, '>');
        } else {
            lemma_gtq_low(s, 1, None);
        }
    }
}

/// Takes a queued end tag out, leaving none.
fn take_pending(p: &mut Option<(String, Position)>) -> (r: Option<(String, Position)>)
    ensures
        r == *old(p),
        *final(p) is None,
{
    let mut out: Option<(String, Position)> = None;
    core::mem::swap(p, &mut out);
    out
}

/// Clones a string, keeping its characters.
fn clone_string(s: &String) -> (r: String)
    ensures
        r@ == s@,
{
    s.clone()
}

proof fn lemma_suffix(rem0: Seq<char>, cur0: int, to: int, p: &Parser)
    requires
        p.wf(),
        0 <= cur0 <= to,
        p.inner_buf_view().len() >= to,
        rem0 == p.inner_buf_view().skip(cur0),
        p.remaining() == rem0.skip(to - cur0),
    ensures
        p.remaining().len() <= rem0.len(),
        p.remaining() == rem0.skip(rem0.len() - p.remaining().len()),
{
    assert(rem0.len() == p.inner_buf_view().len() - cur0);
    assert(p.remaining().len() == rem0.len() - (to - cur0));
}

impl Parser {
    /// The buffered text, consumed part included.
    closed spec fn inner_buf_view(&self) -> Seq<char> {
        self.buf@
    }
}

/// The first occurrence of `c` in `buf[from..to]`.
fn find1(buf: &Vec<char>, from: usize, to: usize, c: char) -> (r: Option<usize>)
    requires
        from <= to <= buf@.len(),
    ensures
        match r {
            Some(i) => from <= i < to && buf@[i as int] == c && forall|j: int|
                from <= j < i ==> buf@[j] != c,
            None => forall|j: int| from <= j < to ==> buf@[j] != c,
        },
{
    let mut i = from;
    while i < to
        invariant
            from <= i <= to <= buf@.len(),
            forall|j: int| from <= j < i ==> buf@[j] != c,
        decreases to - i,
    {
        if buf[i] == c {
            return Some(i);
        }
        i = i + 1;
    }
    None
}

/// The first occurrence of the pair `c0 c1` in `buf[from..to]`.
fn find2(buf: &Vec<char>, from: usize, to: usize, c0: char, c1: char) -> (r: Option<usize>)
    requires
        from <= to <= buf@.len(),
    ensures
        match r {
            Some(i) => from <= i && i + 2 <= to && buf@[i as int] == c0 && buf@[i + 1] == c1
                && forall|k: int|
                from <= k < i ==> !(#[trigger] buf@[k] == c0 && buf@[k + 1] == c1),
            None => forall|k: int|
                from <= k && k + 2 <= to ==> !(#[trigger] buf@[k] == c0 && buf@[k + 1] == c1),
        },
{
    let mut i = from;
    while to - i >= 2
        invariant
            from <= i,
            i <= to <= buf@.len(),
            forall|k: int| from <= k < i ==> !(#[trigger] buf@[k] == c0 && buf@[k + 1] == c1),
        decreases to - i,
    {
        if buf[i] == c0 && buf[i + 1] == c1 {
            return Some(i);
        }
        i = i + 1;
    }
    None
}

/// The first occurrence of the triple `c0 c1 c2` in `buf[from..to]`.
fn find3(buf: &Vec<char>, from: usize, to: usize, c0: char, c1: char, c2: char) -> (r: Option<
    usize,
>)
    requires
        from <= to <= buf@.len(),
    ensures
        match r {
            Some(i) => from <= i && i + 3 <= to && buf@[i as int] == c0 && buf@[i + 1] == c1
                && buf@[i + 2] == c2 && forall|k: int|
                from <= k < i ==> !(#[trigger] buf@[k] == c0 && buf@[k + 1] == c1 && buf@[k + 2]
                    == c2),
            None => forall|k: int|
                from <= k && k + 3 <= to ==> !(#[trigger] buf@[k] == c0 && buf@[k + 1] == c1
                    && buf@[k + 2] == c2),
        },
{
    let mut i = from;
    while to - i >= 3
        invariant
            from <= i,
            i <= to <= buf@.len(),
            forall|k: int|
                from <= k < i ==> !(#[trigger] buf@[k] == c0 && buf@[k + 1] == c1 && buf@[k + 2]
                    == c2),
        decreases to - i,
    {
        if buf[i] == c0 && buf[i + 1] == c1 && buf[i + 2] == c2 {
            return Some(i);
        }
        i = i + 1;
    }
    None
}

/// The first `>` outside quotes in `buf[from..to]`, exactly as [`gtq`]
/// describes it over the suffix starting at `base`.
fn find_gt_quoted(buf: &Vec<char>, from: usize, to: usize, base: Ghost<int>) -> (r: Option<usize>)
    requires
        from <= to <= buf@.len(),
        0 <= base@ <= from,
        to == buf@.len(),
    ensures
        ({
            let s2 = buf@.skip(base@);
            match r {
                Some(i) => from <= i < to && gtq(s2, from - base@, None) == i - base@,
                None => gtq(s2, from - base@, None) == s2.len(),
            }
        }),
{
    let ghost s2 = buf@.skip(base@);
    proof {
        assert(forall|k: int| 0 <= k < s2.len() ==> #[trigger] s2[k] == buf@[k + base@]);
    }
    let mut i = from;
    let mut quote: Option<char> = None;
    while i < to
        invariant
            from <= i <= to <= buf@.len(),
            to == buf@.len(),
            0 <= base@ <= from,
            s2 == buf@.skip(base@),
            gtq(s2, from - base@, None) == gtq(s2, i - base@, quote),
        decreases to - i,
    {
        let c = buf[i];
        proof {
            assert(s2[i - base@] == buf@[i as int]);
        }
        match quote {
            Some(q) => {
                if c == q {
                    quote = None;
                }
            },
            None => {
                if c == '\'' || c == '"' {
                    quote = Some(c);
                } else if c == '>' {
                    proof {
                        assert(gtq(s2, i - base@, None) == i - base@);
                    }
                    return Some(i);
                }
            },
        }
        i = i + 1;
    }
    proof {
        assert(gtq(s2, to - base@, quote) == s2.len());
    }
    None
}

/// Whether `buf[at..n]` is still a proper prefix of a comment or CDATA
/// opener, so that more input could complete it.
fn still_prefix(buf: &Vec<char>, at: usize, n: usize) -> (r: bool)
    requires
        at <= n <= buf@.len(),
    ensures
        ({
            let s2 = buf@.subrange(at as int, n as int);
            r == (comment_open_prefix(s2) || cdata_open_prefix(s2))
        }),
{
    let ghost s2 = buf@.subrange(at as int, n as int);
    proof {
        assert(forall|k: int| 0 <= k < s2.len() ==> #[trigger] s2[k] == buf@[k + at]);
    }
    let avail = n - at;
    let c_ok = avail < 4 && (avail < 1 || buf[at] == '<') && (avail < 2 || buf[at + 1] == '!') && (
    avail < 3 || buf[at + 2] == '-');
    let d_ok = avail < 9 && (avail < 1 || buf[at] == '<') && (avail < 2 || buf[at + 1] == '!') && (
    avail < 3 || buf[at + 2] == '[') && (avail < 4 || buf[at + 3] == 'C') && (avail < 5 || buf[at
        + 4] == 'D') && (avail < 6 || buf[at + 5] == 'A') && (avail < 7 || buf[at + 6] == 'T') && (
    avail < 8 || buf[at + 7] == 'A');
    proof {
        assert(c_ok == comment_open_prefix(s2));
        assert(d_ok == cdata_open_prefix(s2));
    }
    c_ok || d_ok
}

/// Copies `buf[a..b]` into an owned string.
fn segment_string(buf: &Vec<char>, a: usize, b: usize) -> (r: String)
    requires
        a <= b <= buf@.len(),
    ensures
        r@ == buf@.subrange(a as int, b as int),
{
    let mut out: Vec<char> = Vec::new();
    let mut i = a;
    while i < b
        invariant
            a <= i <= b <= buf@.len(),
            out@ == buf@.subrange(a as int, i as int),
        decreases b - i,
    {
        out.push(buf[i]);
        proof {
            assert(buf@.subrange(a as int, i + 1 as int) =~= buf@.subrange(a as int, i as int).push(
                buf@[i as int],
            ));
        }
        i = i + 1;
    }
    crate::text::chars_to_string(out.as_slice())
}

/// Copies `buf[a..b]` into an owned string, surrounding whitespace
/// dropped.
fn segment_trimmed(buf: &Vec<char>, a: usize, b: usize) -> (r: String)
    requires
        a <= b <= buf@.len(),
    ensures
        r@ == crate::lexical::trim(buf@.subrange(a as int, b as int)),
{
    let s = segment_string(buf, a, b);
    crate::lexical::trim_str(s.as_str())
}

/// Copies `buf[a..b]` into an owned character vector.
fn segment_vec(buf: &Vec<char>, a: usize, b: usize) -> (r: Vec<char>)
    requires
        a <= b <= buf@.len(),
    ensures
        r@ == buf@.subrange(a as int, b as int),
{
    let mut out: Vec<char> = Vec::new();
    let mut i = a;
    while i < b
        invariant
            a <= i <= b <= buf@.len(),
            out@ == buf@.subrange(a as int, i as int),
        decreases b - i,
    {
        out.push(buf[i]);
        proof {
            assert(buf@.subrange(a as int, i + 1 as int) =~= buf@.subrange(a as int, i as int).push(
                buf@[i as int],
            ));
        }
        i = i + 1;
    }
    out
}

/// Relies on `char::from_u32`: a code point converts exactly when it is a
/// Unicode scalar value (not a surrogate, at most `0x10FFFF`), and then to
/// the character with that value.
pub assume_specification[ char::from_u32 ](i: u32) -> (r: Option<char>)
    ensures
        r is Some <==> valid_scalar(i as int),
        r matches Some(c) ==> c as int == i as int,
;

/// Decodes one entity or character reference name, exactly as
/// [`named_ent`] describes it.
fn ent_char(nm: &Vec<char>) -> (r: Option<char>)
    ensures
        r == named_ent(nm@),
{
    let n = nm.len();
    if n == 2 && nm[0] == 'l' && nm[1] == 't' {
        proof {
            assert(nm@ =~= seq!['l', 't']);
        }
        return Some('<');
    }
    if n == 2 && nm[0] == 'g' && nm[1] == 't' {
        proof {
            assert(nm@ =~= seq!['g', 't']);
        }
        return Some('>');
    }
    if n == 3 && nm[0] == 'a' && nm[1] == 'm' && nm[2] == 'p' {
        proof {
            assert(nm@ =~= seq!['a', 'm', 'p']);
        }
        return Some('&');
    }
    if n == 4 && nm[0] == 'q' && nm[1] == 'u' && nm[2] == 'o' && nm[3] == 't' {
        proof {
            assert(nm@ =~= seq!['q', 'u', 'o', 't']);
        }
        return Some('"');
    }
    if n == 4 && nm[0] == 'a' && nm[1] == 'p' && nm[2] == 'o' && nm[3] == 's' {
        proof {
            assert(nm@ =~= seq!['a', 'p', 'o', 's']);
        }
        return Some('\'');
    }
    proof {
        assert_by_contradiction!(nm@ != seq!['l', 't'], {
            assert(nm@.len() == 2 && nm@[0] == 'l' && nm@[1] == 't');
        });
        assert_by_contradiction!(nm@ != seq!['g', 't'], {
            assert(nm@.len() == 2 && nm@[0] == 'g' && nm@[1] == 't');
        });
        assert_by_contradiction!(nm@ != seq!['a', 'm', 'p'], {
            assert(nm@.len() == 3 && nm@[0] == 'a' && nm@[1] == 'm' && nm@[2] == 'p');
        });
        assert_by_contradiction!(nm@ != seq!['q', 'u', 'o', 't'], {
            assert(nm@.len() == 4 && nm@[0] == 'q' && nm@[1] == 'u' && nm@[2] == 'o' && nm@[3]
                == 't');
        });
        assert_by_contradiction!(nm@ != seq!['a', 'p', 'o', 's'], {
            assert(nm@.len() == 4 && nm@[0] == 'a' && nm@[1] == 'p' && nm@[2] == 'o' && nm@[3]
                == 's');
        });
    }
    if !(n >= 2 && nm[0] == '#') {
        return None;
    }
    let hex = nm[1] == 'x';
    let ds: usize = if hex {
        2
    } else {
        1
    };
    let ghost d = nm@.skip(ds as int);
    let ghost base: int = if hex {
        16
    } else {
        10
    };
    proof {
        assert(forall|k: int| 0 <= k < d.len() ==> #[trigger] d[k] == nm@[k + ds]);
    }
    if n == ds {
        proof {
            assert(d.len() == 0);
        }
        return None;
    }
    proof {
        assert(named_ent(nm@) == num_char(d, base));
    }
    let mut v: u32 = 0;
    let mut idx = ds;
    while idx < n
        invariant
            named_ent(nm@) == num_char(d, base),
            ds <= idx <= n,
            n == nm@.len(),
            ds == 1 || ds == 2,
            hex == (ds == 2),
            base == (if hex {
                16int
            } else {
                10int
            }),
            d == nm@.skip(ds as int),
            n > ds,
            v <= 0x10FFFF,
            num_acc(d, 0, base, 0) == num_acc(d, idx - ds, base, v as int),
        decreases n - idx,
    {
        let c = nm[idx];
        proof {
            assert(d[idx - ds] == nm@[idx as int]);
        }
        let dv: u32 = if '0' <= c && c <= '9' {
            (c as u32) - 48
        } else if hex && 'a' <= c && c <= 'f' {
            (c as u32) - 87
        } else if hex && 'A' <= c && c <= 'F' {
            (c as u32) - 55
        } else {
            proof {
                assert(dig_val(d[idx - ds], base) is None);
                assert(num_acc(d, idx - ds, base, v as int) is None);
            }
            return None;
        };
        proof {
            assert(dig_val(d[idx - ds], base) == Some(dv as int));
        }
        let bb: u32 = if hex {
            16
        } else {
            10
        };
        let nv = v * bb + dv;
        if nv > 0x10FFFF {
            proof {
                assert(num_acc(d, idx - ds, base, v as int) is None);
            }
            return None;
        }
        v = nv;
        idx = idx + 1;
    }
    match char::from_u32(v) {
        Some(c) => {
            proof {
                assert(valid_scalar(v as int));
                assert(code_of(c) == v as int);
                assert(exists|c2: char| (#[trigger] code_of(c2)) == v as int);
                assert(code_of(char_from_code(v as int)) == v as int);
                assert(char_from_code(v as int) == c);
                assert(num_acc(d, d.len() as int, base, v as int) == Some(c));
                assert(named_ent(nm@) == Some(c));
            }
            Some(c)
        },
        None => {
            proof {
                assert(!valid_scalar(v as int));
                assert(num_acc(d, d.len() as int, base, v as int) is None);
                assert(named_ent(nm@) is None);
            }
            None
        },
    }
}

/// Decodes entity and character references in `buf[a..b]`, exactly as
/// [`dec_from`] describes it; a malformed reference is reported by the
/// index of its `&`.
fn decode_entities(buf: &Vec<char>, a: usize, b: usize) -> (r: Result<String, usize>)
    requires
        a <= b <= buf@.len(),
    ensures
        ({
            let sub = buf@.subrange(a as int, b as int);
            match r {
                Ok(out) => dec_from(sub, 0) == Some(out@),
                Err(_) => dec_from(sub, 0) is None,
            }
        }),
{
    let ghost sub = buf@.subrange(a as int, b as int);
    proof {
        assert(forall|k: int| 0 <= k < sub.len() ==> #[trigger] sub[k] == buf@[k + a]);
    }
    let mut out: Vec<char> = Vec::new();
    let mut i = a;
    proof {
        if dec_from(sub, 0) is Some {
            assert(out@ + dec_from(sub, 0)->Some_0 =~= dec_from(sub, 0)->Some_0);
        }
    }
    while i < b
        invariant
            a <= i <= b <= buf@.len(),
            sub == buf@.subrange(a as int, b as int),
            forall|k: int| 0 <= k < sub.len() ==> #[trigger] sub[k] == buf@[k + a],
            dec_from(sub, 0) == (match dec_from(sub, i - a) {
                Some(r2) => Some(out@ + r2),
                None => None::<Seq<char>>,
            }),
        decreases b - i,
    {
        let ghost k = i - a;
        let c = buf[i];
        proof {
            assert(sub[k] == buf@[i as int]);
        }
        if c != '&' {
            let ghost opre = out@;
            out.push(c);
            proof {
                if dec_from(sub, k + 1) is Some {
                    let r2 = dec_from(sub, k + 1)->Some_0;
                    assert(dec_from(sub, k) == Some(seq![sub[k]] + r2));
                    assert(opre + (seq![sub[k]] + r2) =~= out@ + r2);
                } else {
                    assert(dec_from(sub, k) is None);
                }
            }
            i = i + 1;
            continue ;
        }
        // A reference: find its terminator.
        let semi = match find1(buf, i + 1, b, ';') {
            Some(x) => x,
            None => {
                proof {
                    assert forall|k2: int| k + 1 <= k2 < sub.len() implies sub[k2] != ';' by {
                        assert(sub[k2] == buf@[k2 + a]);
                    }
                    lemma_first_at_char(sub, k + 1, ';', sub.len() as int);
                    assert(dec_from(sub, k) is None);
                }
                return Err(i);
            },
        };
        proof {
            assert forall|k2: int| k + 1 <= k2 < semi - a implies sub[k2] != ';' by {
                assert(sub[k2] == buf@[k2 + a]);
            }
            assert(sub[semi - a] == buf@[semi as int]);
            lemma_first_at_char(sub, k + 1, ';', semi - a);
        }
        let nm = segment_vec(buf, i + 1, semi);
        proof {
            assert(nm@ =~= sub.subrange(k + 1, semi - a));
        }
        match ent_char(&nm) {
            Some(ch) => {
                let ghost opre = out@;
                out.push(ch);
                proof {
                    if dec_from(sub, semi - a + 1) is Some {
                        let r2 = dec_from(sub, semi - a + 1)->Some_0;
                        assert(dec_from(sub, k) == Some(seq![ch] + r2));
                        assert(opre + (seq![ch] + r2) =~= out@ + r2);
                    } else {
                        assert(dec_from(sub, k) is None);
                    }
                }
                i = semi + 1;
            },
            None => {
                proof {
                    assert(dec_from(sub, k) is None);
                }
                return Err(i);
            },
        }
    }
    proof {
        assert(dec_from(sub, (b - a) as int) == Some(Seq::<char>::empty()));
        if dec_from(sub, 0) is Some {
            assert(out@ + Seq::<char>::empty() =~= out@);
        }
    }
    Ok(crate::text::chars_to_string(out.as_slice()))
}

/// Parses the inside of a start tag, `buf[a..b]`, exactly as [`tag_spec`]
/// describes it: the tag name, the raw attributes with their values
/// decoded, and whether the tag closes itself.
#[verifier::rlimit(100)]
fn parse_tag(buf: &Vec<char>, a: usize, b: usize) -> (r: Result<
    (String, Vec<(String, String)>, bool),
    (),
>)
    requires
        a <= b <= buf@.len(),
    ensures
        ({
            let t = buf@.subrange(a as int, b as int);
            match r {
                Ok((name, attrs, sc)) => tag_spec(t) == Some((name@, raw_pairs(attrs@), sc)),
                Err(_) => tag_spec(t) is None,
            }
        }),
{
    let ghost t = buf@.subrange(a as int, b as int);
    let mut end = b;
    let mut self_closing = false;
    if end > a && buf[end - 1] == '/' {
        self_closing = true;
        end = end - 1;
    }
    let ghost body = buf@.subrange(a as int, end as int);
    proof {
        assert(t.len() > 0 && t.last() == '/' ==> body =~= t.drop_last());
        assert(!(t.len() > 0 && t.last() == '/') ==> body =~= t);
        assert(self_closing == (t.len() > 0 && t.last() == '/'));
        assert(forall|k: int| 0 <= k < body.len() ==> #[trigger] body[k] == buf@[k + a]);
    }
    // The name runs to the first whitespace.
    let mut i = a;
    while i < end && !crate::text::is_ws_char(buf[i])
        invariant
            a <= i <= end <= buf@.len(),
            forall|k: int| a <= k < i ==> !crate::text::is_ws(#[trigger] buf@[k]),
        decreases end - i,
    {
        i = i + 1;
    }
    proof {
        assert forall|k: int| 0 <= k < i - a implies !crate::text::is_ws(#[trigger] body[k]) by {
            assert(body[k] == buf@[k + a]);
        }
        if (i as int) < end as int {
            assert(body[i - a] == buf@[i as int]);
        }
        lemma_first_ws_char(body, 0, i - a);
    }
    if i == a {
        return Err(());
    }
    let ghost ne0 = i - a;
    let name = segment_string(buf, a, i);
    proof {
        assert(name@ =~= body.take(ne0));
    }
    let mut attributes: Vec<(String, String)> = Vec::new();
    proof {
        assert(raw_pairs(attributes@) =~= Seq::<(Seq<char>, Seq<char>)>::empty());
        if attrs_spec(body, ne0) is Some {
            assert(raw_pairs(attributes@) + attrs_spec(body, ne0)->Some_0 =~= attrs_spec(
                body,
                ne0,
            )->Some_0);
        }
    }
    loop
        invariant
            a <= i <= end <= b <= buf@.len(),
            ne0 <= i - a,
            0 < ne0,
            t == buf@.subrange(a as int, b as int),
            self_closing == (t.len() > 0 && t.last() == '/'),
            self_closing ==> body == t.drop_last(),
            !self_closing ==> body == t,
            first_ws(body, 0) == ne0,
            body == buf@.subrange(a as int, end as int),
            forall|k: int| 0 <= k < body.len() ==> #[trigger] body[k] == buf@[k + a],
            (match attrs_spec(body, i - a) {
                Some(rest) => Some(raw_pairs(attributes@) + rest),
                None => None::<Seq<(Seq<char>, Seq<char>)>>,
            }) == attrs_spec(body, ne0),
        ensures
            attrs_spec(body, ne0) == Some(raw_pairs(attributes@)),
        decreases end - i,
    {
        let ghost i0 = i as int;
        // Skip whitespace between attributes.
        while i < end && crate::text::is_ws_char(buf[i])
            invariant
                a <= i <= end <= buf@.len(),
                i0 <= i,
                forall|k: int| i0 <= k < i ==> crate::text::is_ws(#[trigger] buf@[k]),
            decreases end - i,
        {
            i = i + 1;
        }
        proof {
            assert forall|k: int| i0 - a <= k < i - a implies crate::text::is_ws(
                #[trigger] body[k],
            ) by {
                assert(body[k] == buf@[k + a]);
            }
            if (i as int) < end as int {
                assert(body[i - a] == buf@[i as int]);
            }
            lemma_skip_ws_char(body, i0 - a, i - a);
        }
        if i >= end {
            proof {
                assert(attrs_spec(body, i0 - a) == Some(Seq::<(Seq<char>, Seq<char>)>::empty()));
                assert(attrs_spec(body, i - a) == Some(Seq::<(Seq<char>, Seq<char>)>::empty()));
                assert(raw_pairs(attributes@) + Seq::<(Seq<char>, Seq<char>)>::empty()
                    =~= raw_pairs(attributes@));
            }
            break ;
        }
        // The attribute name runs to the equals sign.
        let ns = i;
        while i < end && buf[i] != '=' && !crate::text::is_ws_char(buf[i])
            invariant
                ns <= i <= end <= buf@.len(),
                a <= ns,
                i0 <= ns,
                forall|k: int|
                    ns <= k < i ==> !(#[trigger] buf@[k] == '=' || crate::text::is_ws(buf@[k])),
            decreases end - i,
        {
            i = i + 1;
        }
        proof {
            assert forall|k: int|
                ns - a <= k < i - a implies !(#[trigger] body[k] == '=' || crate::text::is_ws(
                body[k],
            )) by {
                assert(body[k] == buf@[k + a]);
            }
            if (i as int) < end as int {
                assert(body[i - a] == buf@[i as int]);
            }
            lemma_first_eqstop_char(body, ns - a, i - a);
        }
        if i == ns || i >= end || buf[i] != '=' {
            proof {
                assert(attrs_spec(body, i0 - a) is None);
            }
            return Err(());
        }
        let aname = segment_string(buf, ns, i);
        proof {
            assert(aname@ =~= body.subrange(ns - a, i - a));
        }
        let ghost nend = i - a;
        i = i + 1;
        if i >= end {
            proof {
                assert(attrs_spec(body, i0 - a) is None);
            }
            return Err(());
        }
        let q = buf[i];
        proof {
            assert(body[i - a] == buf@[i as int]);
        }
        if q != '\'' && q != '"' {
            proof {
                assert(attrs_spec(body, i0 - a) is None);
            }
            return Err(());
        }
        i = i + 1;
        let vs = i;
        while i < end && buf[i] != q
            invariant
                vs <= i <= end <= buf@.len(),
                a <= vs,
                i0 < vs,
                forall|k: int| vs <= k < i ==> #[trigger] buf@[k] != q,
            decreases end - i,
        {
            i = i + 1;
        }
        proof {
            assert forall|k: int| vs - a <= k < i - a implies #[trigger] body[k] != q by {
                assert(body[k] == buf@[k + a]);
            }
            if (i as int) < end as int {
                assert(body[i - a] == buf@[i as int]);
            }
            lemma_first_at_char(body, vs - a, q, i - a);
        }
        if i >= end {
            proof {
                assert(attrs_spec(body, i0 - a) is None);
            }
            return Err(());
        }
        let value = match decode_entities(buf, vs, i) {
            Ok(v) => v,
            Err(_) => {
                proof {
                    assert(buf@.subrange(vs as int, i as int) =~= body.subrange(vs - a, i - a));
                    assert(attrs_spec(body, i0 - a) is None);
                }
                return Err(());
            },
        };
        proof {
            assert(buf@.subrange(vs as int, i as int) =~= body.subrange(vs - a, i - a));
        }
        let ghost apre = attributes@;
        attributes.push((aname, value));
        proof {
            assert(attributes@ =~= apre.push((aname, value)));
            assert(raw_pairs(apre).len() == apre.len());
            assert forall|k: int| 0 <= k < attributes@.len() implies #[trigger] raw_pairs(
                attributes@,
            )[k] == raw_pairs(apre).push((aname@, value@))[k] by {
                assert(raw_pairs(attributes@)[k] == (attributes@[k].0@, attributes@[k].1@));
                if k < apre.len() {
                    assert(attributes@[k] == apre[k]);
                    assert(raw_pairs(apre)[k] == (apre[k].0@, apre[k].1@));
                } else {
                    assert(attributes@[k] == (aname, value));
                }
            }
            assert(raw_pairs(attributes@) =~= raw_pairs(apre).push((aname@, value@)));
            let dv = dec_from(body.subrange(i0 - a + (ns - i0) as int, i - a), 0);
            assert(attrs_spec(body, i0 - a) == (match attrs_spec(body, i - a + 1) {
                Some(rest) => Some(
                    seq![(body.subrange(ns - a, nend), value@)] + rest,
                ),
                None => None::<Seq<(Seq<char>, Seq<char>)>>,
            }));
            if attrs_spec(body, i - a + 1) is Some {
                let rest = attrs_spec(body, i - a + 1)->Some_0;
                assert(raw_pairs(apre) + (seq![(aname@, value@)] + rest) =~= raw_pairs(
                    attributes@,
                ) + rest);
            }
        }
        i = i + 1;
    }
    proof {
        assert(attrs_spec(body, ne0) == Some(raw_pairs(attributes@)));
        assert(tag_spec(t) == Some((name@, raw_pairs(attributes@), self_closing)));
    }
    Ok((name, attributes, self_closing))
}

} // verus!
