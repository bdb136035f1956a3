//! Byte sources: a slice, a UTF-8 string and an incremental byte stream behind one interface.
//!
//! A source is described by the bytes of the input it has obtained so far (`known`), how many
//! of them are consumed (`pos`), and whether `known` is the whole input (`complete`). A slice
//! or a string knows its whole input from the start; a stream learns it a byte at a time. What
//! a scan returns is stated over every input `k` that `agrees` with what the source has seen:
//! for a slice that is the slice itself, for a stream every way the stream may go on.
use vstd::prelude::*;
use vstd::string::StringSliceAdditionalSpecFns;
use vstd::utf8::{decode_utf8, valid_utf8};
use crate::error::{at, Code, Error};
use crate::grammar::{
    BANG, CLOSE, COLON, COMMA, DOLLAR, OPEN, QUOTE, SPACE, STAR, AT_SIGN,
    ident, ident_end, is_ident_byte, quoted, unescaped, unquote, utf8_text, valid_prefix_len,
};

verus! {

/// Whether `input` may be the whole input of a source that has seen `known`, and knows it has
/// seen everything when `complete` holds.
pub open spec fn agrees(input: Seq<u8>, known: Seq<u8>, complete: bool) -> bool {
    &&& known.len() <= input.len()
    &&& input.subrange(0, known.len() as int) == known
    &&& complete ==> input.len() == known.len()
}

/// Whether a result is a failure of the byte stream under a source.
pub open spec fn io_failed<T>(r: Result<T, Error>) -> bool {
    r matches Err(e) && e.code is Io
}

/// A string produced by a scan: a slice of the input where no byte had to be changed, else
/// an owned copy of the decoded text.
pub enum Reference<'b> {
    Borrowed(&'b str),
    Copied(String),
}

impl<'b> Reference<'b> {
    pub open spec fn text(&self) -> Seq<char> {
        match self {
            Reference::Borrowed(s) => s@,
            Reference::Copied(s) => s@,
        }
    }

    /// The text, whichever way it is held.
    pub fn as_str(&self) -> (r: &str)
        ensures
            r@ == self.text(),
    {
        match self {
            Reference::Borrowed(s) => s,
            Reference::Copied(s) => s.as_str(),
        }
    }
}

/// Whether `r` is the outcome that the spec result `sp` describes, with the source at `p` after it.
pub open spec fn str_outcome(r: Result<Reference, Error>, sp: Result<(Seq<char>, int), Error>, p: int) -> bool {
    match sp {
        Ok((c, e)) => r matches Ok(x) && x.text() == c && p == e,
        Err(x) => r == Err::<Reference, Error>(x),
    }
}

/// Relies on std::str::from_utf8: it succeeds exactly on valid UTF-8, with the text those bytes
/// spell, and its error's `valid_up_to` is the length of the longest valid prefix.
#[verifier::external_body]
fn str_from_utf8<'a>(b: &'a [u8]) -> (r: Result<&'a str, usize>)
    ensures
        r is Ok <==> valid_utf8(b@),
        r matches Ok(s) ==> s@ == decode_utf8(b@),
        r matches Err(k) ==> k == valid_prefix_len(b@),
{
    match std::str::from_utf8(b) {
        Ok(s) => Ok(s),
        Err(e) => Err(e.valid_up_to()),
    }
}

/// Checks that `t`, which began at offset `start`, is UTF-8, and returns it as text.
fn text_of<'a>(t: &'a [u8], start: usize) -> (r: Result<&'a str, Error>)
    requires
        start + t@.len() <= usize::MAX,
    ensures
        match utf8_text(t@, start as int) {
            Ok(c) => r matches Ok(s) && s@ == c,
            Err(x) => r == Err::<&str, Error>(x),
        },
{
    match str_from_utf8(t) {
        Ok(s) => Ok(s),
        Err(k) => {
            proof { lemma_valid_prefix_len_bound(t@); }
            Err(Error::new(Code::InvalidUnicode, start + k))
        },
    }
}

proof fn lemma_valid_prefix_len_bound(b: Seq<u8>)
    ensures
        0 <= valid_prefix_len(b) <= b.len(),
    decreases b.len(),
{
    if !(valid_utf8(b) || b.len() == 0) {
        lemma_valid_prefix_len_bound(b.drop_last());
    }
}

/// An identifier byte: anything but `space ' ! : ( ) , * @ $`.
pub fn is_ident_char(b: u8) -> (r: bool)
    ensures
        r == is_ident_byte(b),
{
    !(b == SPACE || b == QUOTE || b == BANG || b == COLON || b == OPEN || b == CLOSE || b == COMMA
        || b == STAR || b == AT_SIGN || b == DOLLAR)
}

/// A source of input bytes with one byte of lookahead.
pub trait Read<'de> {
    /// The bytes of the input obtained so far.
    spec fn known(&self) -> Seq<u8>;

    /// How many bytes are consumed: the offset of the next byte.
    spec fn pos(&self) -> int;

    /// Whether `known` is the whole input.
    spec fn complete(&self) -> bool;

    /// Whether scans may hand out slices of the input.
    spec fn can_borrow(&self) -> bool;

    spec fn inv(&self) -> bool;

    proof fn lemma_inv(&self)
        requires
            self.inv(),
        ensures
            0 <= self.pos() <= self.known().len() <= usize::MAX,
    ;

    /// The next byte, not consumed; `None` at the end of the input.
    fn peek(&mut self) -> (r: Result<Option<u8>, Error>)
        requires
            old(self).inv(),
        ensures
            final(self).inv(),
            final(self).pos() == old(self).pos(),
            old(self).known().is_prefix_of(final(self).known()),
            old(self).complete() ==> final(self).complete() && final(self).known() == old(self).known(),
            old(self).pos() < old(self).known().len() ==> final(self).known() == old(self).known(),
            final(self).known().len() <= old(self).known().len() + 1,
            final(self).can_borrow() == old(self).can_borrow(),
            r matches Ok(Some(b)) ==> final(self).pos() < final(self).known().len()
                && final(self).known()[final(self).pos()] == b,
            r matches Ok(None) ==> final(self).complete() && final(self).pos() == final(self).known().len(),
            r is Err ==> io_failed(r) && !old(self).complete() && old(self).pos() == old(self).known().len(),
    ;

    /// Consumes the byte that `peek` returned.
    fn discard(&mut self)
        requires
            old(self).inv(),
            old(self).pos() < old(self).known().len(),
        ensures
            final(self).inv(),
            final(self).pos() == old(self).pos() + 1,
            final(self).known() == old(self).known(),
            final(self).complete() == old(self).complete(),
            final(self).can_borrow() == old(self).can_borrow(),
    ;

    /// Offset of the next byte.
    fn position(&self) -> (r: usize)
        requires
            self.inv(),
        ensures
            r == self.pos(),
    ;

    /// Scans a quoted string whose opening quote is consumed, through its closing quote.
    fn parse_str(&mut self, scratch: &mut Vec<u8>) -> (r: Result<Reference<'de>, Error>)
        requires
            old(self).inv(),
            old(scratch)@.len() == 0,
        ensures
            final(self).inv(),
            old(self).known().is_prefix_of(final(self).known()),
            old(self).complete() ==> final(self).complete() && final(self).known() == old(self).known(),
            final(self).can_borrow() == old(self).can_borrow(),
            io_failed(r) ==> !old(self).complete(),
            !io_failed(r) ==> forall|k: Seq<u8>| #[trigger] agrees(k, final(self).known(), final(self).complete())
                ==> str_outcome(r, quoted(k, old(self).pos()), final(self).pos())
                && (r is Ok ==> (r matches Ok(Reference::Borrowed(_)) <==> old(self).can_borrow() && unescaped(k, old(self).pos()))),
    ;

    /// Scans a bare identifier: the bytes up to the next terminator or the end of the input.
    fn parse_ident(&mut self, scratch: &mut Vec<u8>) -> (r: Result<Reference<'de>, Error>)
        requires
            old(self).inv(),
            old(scratch)@.len() == 0,
        ensures
            final(self).inv(),
            old(self).known().is_prefix_of(final(self).known()),
            old(self).complete() ==> final(self).complete() && final(self).known() == old(self).known(),
            final(self).can_borrow() == old(self).can_borrow(),
            io_failed(r) ==> !old(self).complete(),
            !io_failed(r) ==> forall|k: Seq<u8>| #[trigger] agrees(k, final(self).known(), final(self).complete())
                ==> str_outcome(r, ident(k, old(self).pos()), final(self).pos())
                && (r is Ok ==> (r matches Ok(Reference::Borrowed(_)) <==> old(self).can_borrow())),
    ;
}

/// Every input that agrees with a complete `known` is `known` itself.
pub proof fn lemma_agrees_complete(k: Seq<u8>, known: Seq<u8>)
    requires
        agrees(k, known, true),
    ensures
        k == known,
{
    assert(k =~= k.subrange(0, known.len() as int));
}

/// An input that agrees with more of a source's bytes agrees with fewer of them.
pub proof fn lemma_agrees_prefix(k: Seq<u8>, a: Seq<u8>, b: Seq<u8>, cb: bool)
    requires
        agrees(k, b, cb),
        a.is_prefix_of(b),
    ensures
        agrees(k, a, false),
{
    assert(k.subrange(0, a.len() as int) =~= b.subrange(0, a.len() as int));
}

/// An input source over a slice of bytes.
pub struct SliceRead<'a> {
    slice: &'a [u8],
    /// Offset of the next byte that `peek` returns.
    index: usize,
}

impl<'a> SliceRead<'a> {
    /// A source that reads `slice` from its start.
    pub fn new(slice: &'a [u8]) -> (r: Self)
        ensures
            r.inv(),
            r.known() == slice@,
            r.pos() == 0,
            r.complete(),
            r.can_borrow(),
    {
        let _len = slice.len();
        SliceRead { slice, index: 0 }
    }

    /// Scans the bytes of a quoted string whose opening quote is consumed; the bytes are
    /// borrowed from the slice where no escape had to be undone, else gathered in `scratch`.
    fn parse_str_bytes(&mut self, scratch: &mut Vec<u8>) -> (r: Result<Option<&'a [u8]>, Error>)
        requires
            old(self).inv(),
            old(scratch)@.len() == 0,
        ensures
            final(self).inv(),
            final(self).slice@ == old(self).slice@,
            match unquote(old(self).slice@, old(self).pos()) {
                Ok((t, e)) => final(self).pos() == e && old(self).pos() + t.len() < e && match r {
                    Ok(Some(b)) => b@ == t && unescaped(old(self).slice@, old(self).pos())
                        && final(scratch)@ == old(scratch)@,
                    Ok(None) => final(scratch)@ == t && !unescaped(old(self).slice@, old(self).pos()),
                    Err(_) => false,
                },
                Err(x) => r == Err::<Option<&[u8]>, Error>(x),
            },
    {
        let ghost s = self.slice@;
        let ghost i0 = self.index as int;
        let mut start = self.index;
        proof { lemma_unquote_len(s, i0); }
        loop
            invariant
                self.inv(),
                self.slice@ == s,
                s == old(self).slice@,
                i0 == old(self).pos(),
                old(scratch)@.len() == 0,
                i0 <= start <= self.index <= s.len(),
                scratch@.len() == 0 ==> start == i0,
                scratch@.len() > 0 ==> scratch@.len() + (self.index - start) < self.index - i0,
                unquote(s, i0) == prepend(scratch@ + s.subrange(start as int, self.index as int), unquote(s, self.index as int)),
            decreases s.len() - self.index,
        {
            if self.index == self.slice.len() {
                return Err(Error::new(Code::EofString, self.index));
            }
            let b = self.slice[self.index];
            if b == QUOTE {
                if scratch.len() == 0 {
                    let borrowed = &self.slice[start..self.index];
                    self.index += 1;
                    proof {
                        assert(s.subrange(start as int, self.index - 1) =~= borrowed@);
                        assert(Seq::<u8>::empty() + borrowed@ =~= borrowed@);
                        assert(borrowed@ + Seq::<u8>::empty() =~= borrowed@);
                    }
                    return Ok(Some(borrowed));
                } else {
                    let tail = &self.slice[start..self.index];
                    let ghost before = scratch@;
                    scratch.extend_from_slice(tail);
                    self.index += 1;
                    proof {
                        assert(scratch@ =~= before + tail@);
                        assert(scratch@ + Seq::<u8>::empty() =~= scratch@);
                        assert(scratch@.len() != s.subrange(i0, self.index - 1).len());
                    }
                    return Ok(None);
                }
            } else if b == BANG {
                let tail = &self.slice[start..self.index];
                let ghost before = scratch@;
                scratch.extend_from_slice(tail);
                proof { assert(scratch@ =~= before + tail@); }
                self.index += 1;
                if self.index == self.slice.len() {
                    return Err(Error::new(Code::EofString, self.index));
                }
                let c = self.slice[self.index];
                self.index += 1;
                if c == BANG || c == QUOTE {
                    let ghost mid = scratch@;
                    scratch.push(c);
                    start = self.index;
                    proof {
                        assert(scratch@ =~= mid.push(c));
                        assert(s.subrange(start as int, self.index as int) =~= Seq::<u8>::empty());
                        assert(scratch@ + Seq::<u8>::empty() =~= scratch@);
                        lemma_prepend_assoc(mid, seq![c], unquote(s, self.index as int));
                        assert(mid + seq![c] =~= scratch@);
                    }
                } else {
                    return Err(Error::new(Code::InvalidEscape, self.index));
                }
            } else {
                proof {
                    let a = scratch@ + s.subrange(start as int, self.index as int);
                    lemma_prepend_assoc(a, seq![b], unquote(s, self.index + 1));
                    assert(a + seq![b] =~= scratch@ + s.subrange(start as int, self.index + 1));
                }
                self.index += 1;
            }
        }
    }

    /// Scans the bytes of a bare identifier: up to the next terminator or the end of the slice.
    fn parse_ident_bytes(&mut self) -> (r: &'a [u8])
        requires
            old(self).inv(),
        ensures
            final(self).inv(),
            final(self).slice@ == old(self).slice@,
            final(self).index == ident_end(old(self).slice@, old(self).index as int),
            old(self).index <= final(self).index,
            r@ == old(self).slice@.subrange(old(self).index as int, final(self).index as int),
    {
        let ghost s = self.slice@;
        let start = self.index;
        while self.index < self.slice.len() && is_ident_char(self.slice[self.index])
            invariant
                self.inv(),
                self.slice@ == s,
                s == old(self).slice@,
                start == old(self).index,
                start <= self.index,
                ident_end(s, start as int) == ident_end(s, self.index as int),
            decreases s.len() - self.index,
        {
            self.index += 1;
        }
        &self.slice[start..self.index]
    }
}

/// `t` put in front of the text of a successful scan.
pub open spec fn prepend(t: Seq<u8>, r: Result<(Seq<u8>, int), Error>) -> Result<(Seq<u8>, int), Error> {
    match r {
        Ok((u, e)) => Ok((t + u, e)),
        Err(x) => Err(x),
    }
}

proof fn lemma_prepend_assoc(a: Seq<u8>, b: Seq<u8>, r: Result<(Seq<u8>, int), Error>)
    ensures
        prepend(a, prepend(b, r)) == prepend(a + b, r),
{
    if let Ok((u, e)) = r {
        assert(a + (b + u) =~= (a + b) + u);
    }
}

pub proof fn lemma_unquote_len(s: Seq<u8>, i: int)
    ensures
        unquote(s, i) matches Ok((t, e)) ==> i + t.len() < e <= s.len(),
        unquote(s, i) matches Err(x) ==> x.code is EofString || x.code is InvalidEscape,
    decreases s.len() - i,
{
    if 0 <= i < s.len() && s[i] != QUOTE {
        if s[i] == BANG {
            if i + 1 < s.len() {
                lemma_unquote_len(s, i + 2);
            }
        } else {
            lemma_unquote_len(s, i + 1);
        }
    }
}

impl<'a> Read<'a> for SliceRead<'a> {
    closed spec fn known(&self) -> Seq<u8> {
        self.slice@
    }

    closed spec fn pos(&self) -> int {
        self.index as int
    }

    closed spec fn complete(&self) -> bool {
        true
    }

    closed spec fn can_borrow(&self) -> bool {
        true
    }

    closed spec fn inv(&self) -> bool {
        self.index <= self.slice@.len() <= usize::MAX
    }

    proof fn lemma_inv(&self) {
    }

    fn peek(&mut self) -> (r: Result<Option<u8>, Error>) {
        if self.index < self.slice.len() {
            Ok(Some(self.slice[self.index]))
        } else {
            Ok(None)
        }
    }

    fn discard(&mut self) {
        self.index += 1;
    }

    fn position(&self) -> (r: usize) {
        self.index
    }

    fn parse_str(&mut self, scratch: &mut Vec<u8>) -> (r: Result<Reference<'a>, Error>) {
        let ghost s = self.slice@;
        let start_position = self.index;
        proof { lemma_unquote_len(s, start_position as int); }
        let r = match self.parse_str_bytes(scratch) {
            Err(e) => Err(e),
            Ok(Some(b)) => match text_of(b, start_position) {
                Ok(t) => Ok(Reference::Borrowed(t)),
                Err(e) => Err(e),
            },
            Ok(None) => match text_of(scratch.as_slice(), start_position) {
                Ok(t) => Ok(Reference::Copied(t.to_owned())),
                Err(e) => Err(e),
            },
        };
        proof {
            assert forall|k: Seq<u8>| #[trigger] agrees(k, s, true) implies str_outcome(r, quoted(k, start_position as int), self.index as int)
                && (r is Ok ==> (r matches Ok(Reference::Borrowed(_)) <==> unescaped(k, start_position as int))) by {
                lemma_agrees_complete(k, s);
            }
        }
        r
    }

    fn parse_ident(&mut self, scratch: &mut Vec<u8>) -> (r: Result<Reference<'a>, Error>) {
        let ghost s = self.slice@;
        let start = self.index;
        let b = self.parse_ident_bytes();
        let r = match text_of(b, start) {
            Ok(t) => Ok(Reference::Borrowed(t)),
            Err(e) => Err(e),
        };
        proof {
            assert forall|k: Seq<u8>| #[trigger] agrees(k, s, true) implies str_outcome(r, ident(k, start as int), self.index as int)
                && (r is Ok ==> (r matches Ok(Reference::Borrowed(_)))) by {
                lemma_agrees_complete(k, s);
            }
        }
        r
    }
}

/// An input source over a string, which is UTF-8 by construction.
pub struct StrRead<'a> {
    delegate: SliceRead<'a>,
}

impl<'a> StrRead<'a> {
    /// A source that reads the bytes of `s` from its start.
    pub fn new(s: &'a str) -> (r: Self)
        ensures
            r.inv(),
            r.known() == s.spec_bytes(),
            r.pos() == 0,
            r.complete(),
            r.can_borrow(),
    {
        StrRead { delegate: SliceRead::new(s.as_bytes()) }
    }
}

impl<'a> Read<'a> for StrRead<'a> {
    closed spec fn known(&self) -> Seq<u8> {
        self.delegate.known()
    }

    closed spec fn pos(&self) -> int {
        self.delegate.pos()
    }

    closed spec fn complete(&self) -> bool {
        self.delegate.complete()
    }

    closed spec fn can_borrow(&self) -> bool {
        self.delegate.can_borrow()
    }

    closed spec fn inv(&self) -> bool {
        self.delegate.inv()
    }

    proof fn lemma_inv(&self) {
        self.delegate.lemma_inv();
    }

    fn peek(&mut self) -> (r: Result<Option<u8>, Error>) {
        self.delegate.peek()
    }

    fn discard(&mut self) {
        self.delegate.discard()
    }

    fn position(&self) -> (r: usize) {
        self.delegate.position()
    }

    fn parse_str(&mut self, scratch: &mut Vec<u8>) -> (r: Result<Reference<'a>, Error>) {
        self.delegate.parse_str(scratch)
    }

    fn parse_ident(&mut self, scratch: &mut Vec<u8>) -> (r: Result<Reference<'a>, Error>) {
        self.delegate.parse_ident(scratch)
    }
}

/// A stream of bytes that arrive one at a time, such as a file or a socket.
pub trait ByteStream {
    /// The next byte of the stream; `None` once it has ended.
    fn next_byte(&mut self) -> Result<Option<u8>, std::io::Error>;
}

/// Relies on std::io::Error::new: builds the error that a stream source reports when the
/// offset of its next byte would not fit in a usize.
#[verifier::external_body]
fn stream_too_long() -> std::io::Error {
    std::io::Error::new(std::io::ErrorKind::Other, "stream longer than the largest byte offset")
}

/// An input source over a byte stream. It keeps one byte of lookahead and counts the bytes
/// consumed; once the stream has ended it stays at its end.
pub struct IoRead<S> {
    io: S,
    peeked: Option<u8>,
    position: usize,
    ended: bool,
    seen: Ghost<Seq<u8>>,
}

impl<S: ByteStream> IoRead<S> {
    /// A source that reads `stream` from where it stands.
    pub fn new(stream: S) -> (r: Self)
        ensures
            r.inv(),
            r.known() == Seq::<u8>::empty(),
            r.pos() == 0,
            !r.complete(),
            !r.can_borrow(),
    {
        IoRead { io: stream, peeked: None, position: 0, ended: false, seen: Ghost(Seq::empty()) }
    }
}

/// The facts that a source passes on from one state to a later one.
pub open spec fn follows<'de, R: Read<'de>>(a: R, b: R) -> bool {
    &&& a.known().is_prefix_of(b.known())
    &&& a.complete() ==> b.complete() && b.known() == a.known()
    &&& b.can_borrow() == a.can_borrow()
}

/// An input that agrees with what a later state of a source has seen agrees with an earlier one.
pub proof fn lemma_agrees_follows(k: Seq<u8>, ka: Seq<u8>, ca: bool, kb: Seq<u8>, cb: bool)
    requires
        agrees(k, kb, cb),
        ka.is_prefix_of(kb),
        ca ==> cb && kb == ka,
    ensures
        agrees(k, ka, ca),
{
    assert(k.subrange(0, ka.len() as int) =~= kb.subrange(0, ka.len() as int));
}

/// What a source has seen agrees with itself.
pub proof fn lemma_agrees_self(known: Seq<u8>, c: bool)
    ensures
        agrees(known, known, c),
{
    assert(known.subrange(0, known.len() as int) =~= known);
}

/// An input that agrees with what a source has seen holds those bytes.
pub proof fn lemma_agrees_index(k: Seq<u8>, known: Seq<u8>, c: bool, i: int)
    requires
        agrees(k, known, c),
        0 <= i < known.len(),
    ensures
        k[i] == known[i],
{
    assert(k.subrange(0, known.len() as int)[i] == k[i]);
}

impl<'de, S: ByteStream> Read<'de> for IoRead<S> {
    closed spec fn known(&self) -> Seq<u8> {
        self.seen@
    }

    closed spec fn pos(&self) -> int {
        self.position as int
    }

    closed spec fn complete(&self) -> bool {
        self.ended
    }

    closed spec fn can_borrow(&self) -> bool {
        false
    }

    closed spec fn inv(&self) -> bool {
        &&& self.seen@.len() == self.position + if self.peeked is Some { 1int } else { 0int }
        &&& self.peeked matches Some(b) ==> self.seen@.last() == b
        &&& self.ended ==> self.peeked is None
        &&& self.seen@.len() <= usize::MAX
    }

    proof fn lemma_inv(&self) {
    }

    fn peek(&mut self) -> (r: Result<Option<u8>, Error>) {
        if let Some(ch) = self.peeked {
            return Ok(Some(ch));
        }
        if self.ended {
            return Ok(None);
        }
        if self.position == usize::MAX {
            return Err(Error::new(Code::Io(stream_too_long()), self.position));
        }
        match self.io.next_byte() {
            Ok(Some(b)) => {
                self.peeked = Some(b);
                self.seen = Ghost(self.seen@.push(b));
                Ok(Some(b))
            },
            Ok(None) => {
                self.ended = true;
                Ok(None)
            },
            Err(e) => Err(Error::new(Code::Io(e), self.position)),
        }
    }

    fn discard(&mut self) {
        self.peeked = None;
        self.position += 1;
    }

    fn position(&self) -> (r: usize) {
        self.position
    }

    fn parse_str(&mut self, scratch: &mut Vec<u8>) -> (r: Result<Reference<'de>, Error>) {
        let start_position = self.position;
        let ghost i0 = start_position as int;
        let ghost first = *self;
        proof {
            assert forall|k: Seq<u8>| #[trigger] agrees(k, self.known(), self.complete())
                implies unquote(k, i0) == prepend(scratch@, unquote(k, i0)) by {
                lemma_prepend_empty(unquote(k, i0));
            }
        }
        loop
            invariant
                self.inv(),
                first.seen@.is_prefix_of(self.seen@),
                first.ended ==> self.ended && self.seen@ == first.seen@,
                first == *old(self),
                i0 == old(self).pos(),
                i0 == start_position,
                i0 <= self.pos(),
                scratch@.len() <= self.pos() - i0,
                forall|k: Seq<u8>| #[trigger] agrees(k, self.known(), self.complete())
                    ==> unquote(k, i0) == prepend(scratch@, unquote(k, self.pos())),
            decreases usize::MAX - self.position,
        {
            let ghost before = *self;
            let ghost sc = scratch@;
            let p = self.peek();
            match p {
                Err(e) => return Err(e),
                Ok(None) => {
                    proof {
                        assert forall|k: Seq<u8>| #[trigger] agrees(k, self.known(), self.complete())
                            implies unquote(k, i0) == Err::<(Seq<u8>, int), Error>(at(Code::EofString, self.pos())) by {
                            lemma_agrees_follows(k, before.known(), before.complete(), self.known(), self.complete());
                            lemma_agrees_complete(k, self.known());
                        }
                    }
                    return Err(Error::new(Code::EofString, self.position));
                },
                Ok(Some(ch)) => {
                    if ch == QUOTE {
                        self.discard();
                        proof {
                            self.lemma_inv();
                        }
                        let r = match text_of(scratch.as_slice(), start_position) {
                            Ok(t) => Ok(Reference::Copied(t.to_owned())),
                            Err(e) => Err(e),
                        };
                        proof {
                            assert forall|k: Seq<u8>| #[trigger] agrees(k, self.known(), self.complete())
                                implies unquote(k, i0) == Ok::<(Seq<u8>, int), Error>((sc, self.pos())) by {
                                lemma_agrees_follows(k, before.known(), before.complete(), self.known(), self.complete());
                                lemma_agrees_index(k, self.known(), self.complete(), self.pos() - 1);
                                assert(sc + Seq::<u8>::empty() =~= sc);
                            }
                        }
                        return r;
                    } else if ch == BANG {
                        self.discard();
                        let ghost mid = *self;
                        let q = self.peek();
                        match q {
                            Err(e) => return Err(e),
                            Ok(None) => {
                                proof {
                                    assert forall|k: Seq<u8>| #[trigger] agrees(k, self.known(), self.complete())
                                        implies unquote(k, i0) == Err::<(Seq<u8>, int), Error>(at(Code::EofString, self.pos())) by {
                                        lemma_agrees_follows(k, before.known(), before.complete(), self.known(), self.complete());
                                        lemma_agrees_index(k, self.known(), self.complete(), self.pos() - 1);
                                        lemma_agrees_complete(k, self.known());
                                    }
                                }
                                return Err(Error::new(Code::EofString, self.position));
                            },
                            Ok(Some(c)) => {
                                self.discard();
                                if c == BANG || c == QUOTE {
                                    scratch.push(c);
                                    proof {
                                        assert forall|k: Seq<u8>| #[trigger] agrees(k, self.known(), self.complete())
                                            implies unquote(k, i0) == prepend(scratch@, unquote(k, self.pos())) by {
                                            lemma_agrees_follows(k, before.known(), before.complete(), self.known(), self.complete());
                                            lemma_agrees_index(k, self.known(), self.complete(), self.pos() - 1);
                                            lemma_agrees_index(k, self.known(), self.complete(), self.pos() - 2);
                                            lemma_prepend_assoc(sc, seq![c], unquote(k, self.pos()));
                                            assert(sc + seq![c] =~= scratch@);
                                        }
                                    }
                                } else {
                                    proof {
                                        assert forall|k: Seq<u8>| #[trigger] agrees(k, self.known(), self.complete())
                                            implies unquote(k, i0) == Err::<(Seq<u8>, int), Error>(at(Code::InvalidEscape, self.pos())) by {
                                            lemma_agrees_follows(k, before.known(), before.complete(), self.known(), self.complete());
                                            lemma_agrees_index(k, self.known(), self.complete(), self.pos() - 1);
                                            lemma_agrees_index(k, self.known(), self.complete(), self.pos() - 2);
                                        }
                                    }
                                    return Err(Error::new(Code::InvalidEscape, self.position));
                                }
                            },
                        }
                    } else {
                        scratch.push(ch);
                        self.discard();
                        proof {
                            assert forall|k: Seq<u8>| #[trigger] agrees(k, self.known(), self.complete())
                                implies unquote(k, i0) == prepend(scratch@, unquote(k, self.pos())) by {
                                lemma_agrees_follows(k, before.known(), before.complete(), self.known(), self.complete());
                                lemma_agrees_index(k, self.known(), self.complete(), self.pos() - 1);
                                lemma_prepend_assoc(sc, seq![ch], unquote(k, self.pos()));
                                assert(sc + seq![ch] =~= scratch@);
                            }
                        }
                    }
                },
            }
        }
    }

    fn parse_ident(&mut self, scratch: &mut Vec<u8>) -> (r: Result<Reference<'de>, Error>) {
        let start_position = self.position;
        let ghost i0 = start_position as int;
        let ghost first = *self;
        loop
            invariant
                self.inv(),
                first.seen@.is_prefix_of(self.seen@),
                first.ended ==> self.ended && self.seen@ == first.seen@,
                first == *old(self),
                i0 == old(self).pos(),
                i0 <= self.pos(),
                scratch@ == self.known().subrange(i0, self.pos()),
                forall|k: Seq<u8>| #[trigger] agrees(k, self.known(), self.complete())
                    ==> ident_end(k, i0) == ident_end(k, self.pos()),
            ensures
                self.pos() < self.known().len() && !is_ident_byte(self.known()[self.pos()])
                    || self.complete() && self.pos() == self.known().len(),
            decreases usize::MAX - self.position,
        {
            let ghost before = *self;
            let p = self.peek();
            proof {
                assert(scratch@ =~= self.known().subrange(i0, self.pos()));
                assert forall|k: Seq<u8>| #[trigger] agrees(k, self.known(), self.complete())
                    implies ident_end(k, i0) == ident_end(k, self.pos()) by {
                    lemma_agrees_follows(k, before.known(), before.complete(), self.known(), self.complete());
                }
            }
            match p {
                Err(e) => return Err(e),
                Ok(None) => break,
                Ok(Some(ch)) => {
                    if !is_ident_char(ch) {
                        break;
                    }
                    let ghost sc = scratch@;
                    scratch.push(ch);
                    self.discard();
                    proof {
                        assert(scratch@ =~= self.known().subrange(i0, self.pos()));
                        assert forall|k: Seq<u8>| #[trigger] agrees(k, self.known(), self.complete())
                            implies ident_end(k, i0) == ident_end(k, self.pos()) by {
                            lemma_agrees_follows(k, before.known(), before.complete(), self.known(), self.complete());
                            lemma_agrees_index(k, self.known(), self.complete(), self.pos() - 1);
                        }
                    }
                },
            }
        }
        let r = match text_of(scratch.as_slice(), start_position) {
            Ok(t) => Ok(Reference::Copied(t.to_owned())),
            Err(e) => Err(e),
        };
        proof {
            assert forall|k: Seq<u8>| #[trigger] agrees(k, self.known(), self.complete())
                implies ident_end(k, i0) == self.pos() && k.subrange(i0, self.pos()) == scratch@ by {
                if self.pos() < self.known().len() {
                    lemma_agrees_index(k, self.known(), self.complete(), self.pos());
                } else {
                    lemma_agrees_complete(k, self.known());
                }
                lemma_agrees_prefix_range(k, self.known(), self.complete(), i0, self.pos());
            }
        }
        r
    }
}

/// An input that agrees with what a source has seen holds any run of those bytes.
pub proof fn lemma_agrees_prefix_range(k: Seq<u8>, known: Seq<u8>, c: bool, a: int, b: int)
    requires
        agrees(k, known, c),
        0 <= a <= b <= known.len(),
    ensures
        k.subrange(a, b) == known.subrange(a, b),
{
    assert(k.subrange(a, b) =~= k.subrange(0, known.len() as int).subrange(a, b));
}

proof fn lemma_prepend_empty(r: Result<(Seq<u8>, int), Error>)
    ensures
        prepend(Seq::empty(), r) == r,
{
    if let Ok((u, e)) = r {
        assert(Seq::<u8>::empty() + u =~= u);
    }
}

/// Two sources scan a quoted string alike: where each scan's outcome is what the grammar gives on
/// the input `k` from offset `i` (as the `parse_str` contracts of a stream source and of a
/// slice source over the same bytes say), both succeed with the same text and end offset, or
/// both fail with the same error.
pub proof fn lemma_scan_parity<'x, 'y>(
    k: Seq<u8>,
    i: int,
    ra: Result<Reference<'x>, Error>,
    end_a: int,
    rb: Result<Reference<'y>, Error>,
    end_b: int,
)
    requires
        str_outcome(ra, quoted(k, i), end_a),
        str_outcome(rb, quoted(k, i), end_b),
    ensures
        ra is Ok <==> rb is Ok,
        ra matches Ok(x) ==> rb matches Ok(y) && x.text() == y.text() && end_a == end_b,
        ra matches Err(x) ==> rb matches Err(y) && x == y,
{
}

} // verus!
