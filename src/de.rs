//! The decoder: the value dispatcher and the container accessors over one byte source.
//!
//! Each step states what it returns over every input that agrees with what the source has
//! seen (see [`crate::read`]): for a slice or a string, the input itself.
use vstd::prelude::*;
use vstd::string::StringSliceAdditionalSpecFns;
use crate::error::{Code, Error};
use crate::grammar::{
    byte_at, unescaped, close_step, colon_step, end_step, is_number_byte, key_step, marker, number,
    number_end, number_syntax, digits_end, seq_step, value_event, Tok, BANG, CLOSE,
    COLON, COMMA, DOT, LOWER_E, LOWER_F, LOWER_N, LOWER_T, MINUS, NINE, OPEN, QUOTE, ZERO,
};
use crate::read::{
    agrees, follows, io_failed, lemma_agrees_self, lemma_unquote_len, lemma_agrees_complete, lemma_agrees_follows, lemma_agrees_index,
    lemma_agrees_prefix_range, ByteStream, IoRead, Read, Reference, SliceRead, StrRead,
};

verus! {

/// The start of a value, as the dispatcher finds it: a whole scalar, or the opening of a
/// container whose contents the accessors then walk.
pub enum Event<'de> {
    Unit,
    Bool(bool),
    /// A numeric literal, as written; it is ASCII.
    Number(Vec<u8>),
    Str(Reference<'de>),
    SeqStart,
    MapStart,
}

impl<'de> Event<'de> {
    pub open spec fn tok(&self) -> Tok {
        match self {
            Event::Unit => Tok::Unit,
            Event::Bool(b) => Tok::Bool(*b),
            Event::Number(t) => Tok::Number(t@),
            Event::Str(r) => Tok::Str(r.text()),
            Event::SeqStart => Tok::SeqStart,
            Event::MapStart => Tok::MapStart,
        }
    }
}

/// Whether `r` is what the spec result `sp` describes, with the source at `p` after it.
pub open spec fn event_outcome(r: Result<Event, Error>, sp: Result<(Tok, int), Error>, p: int) -> bool {
    match sp {
        Ok((t, e)) => r matches Ok(ev) && ev.tok() == t && p == e,
        Err(x) => r == Err::<Event, Error>(x),
    }
}

pub open spec fn flag_outcome(r: Result<bool, Error>, sp: Result<(bool, int), Error>, p: int) -> bool {
    match sp {
        Ok((b, e)) => r == Ok::<bool, Error>(b) && p == e,
        Err(x) => r == Err::<bool, Error>(x),
    }
}

pub open spec fn unit_outcome(r: Result<(), Error>, sp: Result<int, Error>, p: int) -> bool {
    match sp {
        Ok(e) => r is Ok && p == e,
        Err(x) => r == Err::<(), Error>(x),
    }
}

/// The bytes that an input holds where a source has seen them.
proof fn lemma_seen_byte(k: Seq<u8>, ka: Seq<u8>, ca: bool, kb: Seq<u8>, cb: bool, i: int)
    requires
        agrees(k, kb, cb),
        ka.is_prefix_of(kb),
        ca ==> cb && kb == ka,
        0 <= i < ka.len(),
    ensures
        byte_at(k, i) == Some(ka[i]),
{
    lemma_agrees_follows(k, ka, ca, kb, cb);
    lemma_agrees_index(k, ka, ca, i);
}

/// An input that agrees with a source that has reached its end stops there.
proof fn lemma_seen_end(k: Seq<u8>, ka: Seq<u8>, kb: Seq<u8>, cb: bool, i: int)
    requires
        agrees(k, kb, cb),
        ka.is_prefix_of(kb),
        cb && kb == ka,
        i == ka.len(),
    ensures
        byte_at(k, i) is None,
{
    lemma_agrees_complete(k, kb);
}

proof fn lemma_prefix_trans(a: Seq<u8>, b: Seq<u8>, c: Seq<u8>)
    requires
        a.is_prefix_of(b),
        b.is_prefix_of(c),
    ensures
        a.is_prefix_of(c),
{
    assert(a =~= c.subrange(0, a.len() as int));
}

/// A decoder over one byte source, with a scratch buffer for text that has to be copied.
pub struct Deserializer<R> {
    read: R,
    scratch: Vec<u8>,
}

impl<R> Deserializer<R> {
    /// The byte source.
    pub closed spec fn source(&self) -> R {
        self.read
    }
}

impl<'a> Deserializer<SliceRead<'a>> {
    /// A decoder over a byte slice.
    pub fn from_slice(slice: &'a [u8]) -> (r: Self)
        ensures
            r.inv(),
            r.known() == slice@,
            r.complete(),
            r.can_borrow(),
            r.pos() == 0,
    {
        Self::new(SliceRead::new(slice))
    }
}

impl<'a> Deserializer<StrRead<'a>> {
    /// A decoder over a string.
    pub fn from_str(s: &'a str) -> (r: Self)
        ensures
            r.inv(),
            r.known() == s.spec_bytes(),
            r.complete(),
            r.can_borrow(),
            r.pos() == 0,
    {
        Self::new(StrRead::new(s))
    }
}

impl<S: ByteStream> Deserializer<IoRead<S>> {
    /// A decoder over a byte stream.
    pub fn from_reader(stream: S) -> (r: Self)
        ensures
            r.inv(),
            r.known() == Seq::<u8>::empty(),
            !r.complete(),
            !r.can_borrow(),
            r.pos() == 0,
    {
        Self::new(IoRead::new(stream))
    }
}

impl<'de, R: Read<'de>> Deserializer<R> {
    pub open spec fn inv(&self) -> bool {
        self.source().inv()
    }

    /// The input bytes seen so far.
    pub open spec fn known(&self) -> Seq<u8> {
        self.source().known()
    }

    /// The offset of the next byte.
    pub open spec fn pos(&self) -> int {
        self.source().pos()
    }

    /// Whether the whole input is known.
    pub open spec fn complete(&self) -> bool {
        self.source().complete()
    }

    /// Whether strings that need no unescaping come back borrowed from the input.
    pub open spec fn can_borrow(&self) -> bool {
        self.source().can_borrow()
    }

    fn new(read: R) -> (r: Self)
        ensures
            r.source() == read,
    {
        Deserializer { read, scratch: Vec::new() }
    }

    /// Offset of the next byte.
    pub fn position(&self) -> (r: usize)
        requires
            self.inv(),
        ensures
            r == self.pos(),
    {
        self.read.position()
    }

    /// The next byte, not consumed.
    pub fn peek(&mut self) -> (r: Result<Option<u8>, Error>)
        requires
            old(self).inv(),
        ensures
            final(self).inv(),
            follows(old(self).source(), final(self).source()),
            final(self).pos() == old(self).pos(),
            r matches Ok(Some(b)) ==> final(self).pos() < final(self).known().len()
                && final(self).known()[final(self).pos()] == b,
            r matches Ok(None) ==> final(self).complete() && final(self).pos() == final(self).known().len(),
            r is Err ==> io_failed(r) && !old(self).complete(),
    {
        self.read.peek()
    }

    /// Consumes the byte that `peek` returned.
    pub fn eat_char(&mut self)
        requires
            old(self).inv(),
            old(self).pos() < old(self).known().len(),
        ensures
            final(self).inv(),
            follows(old(self).source(), final(self).source()),
            final(self).known() == old(self).known(),
            final(self).pos() == old(self).pos() + 1,
    {
        self.read.discard()
    }

    /// The next byte, consumed.
    pub fn next_char(&mut self) -> (r: Result<Option<u8>, Error>)
        requires
            old(self).inv(),
        ensures
            final(self).inv(),
            follows(old(self).source(), final(self).source()),
            r matches Ok(Some(b)) ==> final(self).pos() == old(self).pos() + 1
                && final(self).known()[old(self).pos()] == b,
            r matches Ok(None) ==> final(self).complete() && final(self).pos() == old(self).pos()
                && final(self).pos() == final(self).known().len(),
            r is Err ==> io_failed(r) && !old(self).complete(),
    {
        let next = self.read.peek();
        if let Ok(Some(_)) = next {
            self.read.discard();
        }
        next
    }

    /// Checks that the input ends here, after the one top-level value.
    pub fn end(&mut self) -> (r: Result<(), Error>)
        requires
            old(self).inv(),
        ensures
            final(self).inv(),
            follows(old(self).source(), final(self).source()),
            final(self).pos() == old(self).pos(),
            io_failed(r) ==> !old(self).complete(),
            !io_failed(r) ==> forall|k: Seq<u8>| #[trigger] agrees(k, final(self).known(), final(self).complete())
                ==> r == end_step(k, old(self).pos()),
    {
        let ghost a = self.source();
        let p = self.read.peek();
        match p {
            Err(e) => Err(e),
            Ok(Some(_)) => {
                proof {
                    self.read.lemma_inv();
                    assert forall|k: Seq<u8>| #[trigger] agrees(k, self.known(), self.complete())
                        implies byte_at(k, a.pos()) is Some by {
                        lemma_agrees_index(k, self.known(), self.complete(), a.pos());
                    }
                }
                Err(Error::new(Code::TrailingChars, self.read.position()))
            },
            Ok(None) => {
                proof {
                    assert forall|k: Seq<u8>| #[trigger] agrees(k, self.known(), self.complete())
                        implies byte_at(k, a.pos()) is None by {
                        lemma_agrees_complete(k, self.known());
                    }
                }
                Ok(())
            },
        }
    }

    /// The value selected by a `!` marker, the `!` consumed.
    fn parse_marker(&mut self) -> (r: Result<Event<'de>, Error>)
        requires
            old(self).inv(),
        ensures
            final(self).inv(),
            follows(old(self).source(), final(self).source()),
            r matches Err(e) && (e.code is InvalidMarker || e.code is EofMarker) ==> final(self).pos() == old(self).pos(),
            io_failed(r) ==> !old(self).complete(),
            !io_failed(r) ==> forall|k: Seq<u8>| #[trigger] agrees(k, final(self).known(), final(self).complete())
                ==> event_outcome(r, marker(k, old(self).pos()), final(self).pos()),
    {
        let ghost a = self.source();
        let ghost j = self.pos();
        proof { self.read.lemma_inv(); }
        let p = self.read.peek();
        let ghost m = self.source();
        match p {
            Err(e) => Err(e),
            Ok(None) => {
                let r = Err(Error::new(Code::EofMarker, self.read.position()));
                proof {
                    assert forall|k: Seq<u8>| #[trigger] agrees(k, self.known(), self.complete())
                        implies event_outcome(r, marker(k, j), self.pos()) by {
                        lemma_seen_end(k, m.known(), self.known(), self.complete(), j);
                    }
                }
                r
            },
            Ok(Some(c)) => {
                let r = if c == LOWER_N {
                    self.read.discard();
                    Ok(Event::Unit)
                } else if c == LOWER_T {
                    self.read.discard();
                    Ok(Event::Bool(true))
                } else if c == LOWER_F {
                    self.read.discard();
                    Ok(Event::Bool(false))
                } else if c == OPEN {
                    self.read.discard();
                    Ok(Event::SeqStart)
                } else {
                    Err(Error::new(Code::InvalidMarker, self.read.position()))
                };
                proof {
                    assert forall|k: Seq<u8>| #[trigger] agrees(k, self.known(), self.complete())
                        implies event_outcome(r, marker(k, j), self.pos()) by {
                        lemma_seen_byte(k, m.known(), m.complete(), self.known(), self.complete(), j);
                    }
                }
                r
            },
        }
    }

    /// Consumes the longest run of number bytes and checks that it is a numeric literal.
    fn scan_number(&mut self) -> (r: Result<Vec<u8>, Error>)
        requires
            old(self).inv(),
        ensures
            final(self).inv(),
            follows(old(self).source(), final(self).source()),
            io_failed(r) ==> !old(self).complete(),
            !io_failed(r) ==> forall|k: Seq<u8>| #[trigger] agrees(k, final(self).known(), final(self).complete())
                ==> match number(k, old(self).pos()) {
                    Ok((t, e)) => r matches Ok(v) && v@ == t && final(self).pos() == e,
                    Err(x) => r == Err::<Vec<u8>, Error>(x),
                },
    {
        let ghost first = self.source();
        let ghost i0 = self.pos();
        proof { self.read.lemma_inv(); }
        let mut text: Vec<u8> = Vec::new();
        loop
            invariant
                self.inv(),
                follows(first, self.source()),
                first == old(self).source(),
                i0 == old(self).pos(),
                0 <= i0 <= self.pos() <= usize::MAX,
                text@ == self.known().subrange(i0, self.pos()),
                forall|k: Seq<u8>| #[trigger] agrees(k, self.known(), self.complete())
                    ==> number_end(k, i0) == number_end(k, self.pos()),
            ensures
                self.pos() < self.known().len() && !is_number_byte(self.known()[self.pos()])
                    || self.complete() && self.pos() == self.known().len(),
            decreases usize::MAX - self.pos(),
        {
            let ghost before = self.source();
            let ghost bd = *self;
            proof { before.lemma_inv(); }
            let p = self.read.peek();
            proof {
                self.read.lemma_inv();
                lemma_follows_trans(first, before, self.source());
                assert(text@ =~= self.known().subrange(i0, self.pos()));
                assert forall|k: Seq<u8>| #[trigger] agrees(k, self.known(), self.complete())
                    implies number_end(k, i0) == number_end(k, self.pos()) by {
                    lemma_agrees_follows(k, before.known(), before.complete(), self.known(), self.complete());
                    assert(agrees(k, bd.known(), bd.complete()));
                }
            }
            match p {
                Err(e) => return Err(e),
                Ok(None) => break,
                Ok(Some(b)) => {
                    if !is_number_char(b) {
                        break;
                    }
                    let ghost md = *self;
                    text.push(b);
                    self.read.discard();
                    proof {
                        self.read.lemma_inv();
                        assert(text@ =~= self.known().subrange(i0, self.pos()));
                        assert forall|k: Seq<u8>| #[trigger] agrees(k, self.known(), self.complete())
                            implies number_end(k, i0) == number_end(k, self.pos()) by {
                            lemma_agrees_index(k, self.known(), self.complete(), self.pos() - 1);
                            assert(agrees(k, md.known(), md.complete()));
                        }
                    }
                },
            }
        }
        let ok = number_syntax_ok(&text);
        proof {
            assert forall|k: Seq<u8>| #[trigger] agrees(k, self.known(), self.complete())
                implies number_end(k, i0) == self.pos() && k.subrange(i0, self.pos()) == text@ by {
                if self.pos() < self.known().len() {
                    lemma_agrees_index(k, self.known(), self.complete(), self.pos());
                } else {
                    lemma_agrees_complete(k, self.known());
                }
                lemma_agrees_prefix_range(k, self.known(), self.complete(), i0, self.pos());
            }
        }
        if ok {
            Ok(text)
        } else {
            Err(Error::new(Code::InvalidNumber, self.read.position()))
        }
    }

    /// The value dispatcher: reads the start of the next value from its first byte. A scalar
    /// (`!n`, `!t`, `!f`, a number, a quoted string, a bare identifier) is consumed whole;
    /// for `!(` and `(` only the opening is, and the accessors walk the contents.
    pub fn parse_any(&mut self) -> (r: Result<Event<'de>, Error>)
        requires
            old(self).inv(),
        ensures
            final(self).inv(),
            follows(old(self).source(), final(self).source()),
            r matches Err(e) && (e.code is InvalidMarker || e.code is EofMarker) ==> final(self).pos() == old(self).pos() + 1,
            io_failed(r) ==> !old(self).complete(),
            !io_failed(r) ==> forall|k: Seq<u8>| #[trigger] agrees(k, final(self).known(), final(self).complete())
                ==> event_outcome(r, value_event(k, old(self).pos()), final(self).pos())
                && (r matches Ok(Event::Str(x)) ==> (x is Borrowed <==> old(self).can_borrow()
                    && (byte_at(k, old(self).pos()) == Some(QUOTE) ==> unescaped(k, old(self).pos() + 1)))),
    {
        let ghost a = self.source();
        let ghost i = self.pos();
        proof { self.read.lemma_inv(); }
        let p = self.read.peek();
        let ghost m = self.source();
        match p {
            Err(e) => Err(e),
            Ok(None) => {
                let r = Err(Error::new(Code::EofValue, self.read.position()));
                proof {
                    assert forall|k: Seq<u8>| #[trigger] agrees(k, self.known(), self.complete())
                        implies event_outcome(r, value_event(k, i), self.pos()) by {
                        lemma_seen_end(k, m.known(), self.known(), self.complete(), i);
                    }
                }
                r
            },
            Ok(Some(b)) => {
                if b == BANG {
                    self.read.discard();
                    let ghost d = self.source();
                    let r = self.parse_marker();
                    proof {
                        lemma_follows_trans(m, d, self.source());
                        lemma_follows_trans(a, m, self.source());
                        assert forall|k: Seq<u8>| #[trigger] agrees(k, self.known(), self.complete()) && !io_failed(r)
                            implies event_outcome(r, value_event(k, i), self.pos()) by {
                            lemma_seen_byte(k, m.known(), m.complete(), self.known(), self.complete(), i);
                        }
                    }
                    r
                } else if b == MINUS || (ZERO <= b && b <= NINE) {
                    let n = self.scan_number();
                    let r = match n {
                        Ok(t) => Ok(Event::Number(t)),
                        Err(e) => Err(e),
                    };
                    proof {
                        lemma_follows_trans(a, m, self.source());
                        if !io_failed(r) {
                            lemma_agrees_self(self.known(), self.complete());
                            lemma_seen_byte(self.known(), m.known(), m.complete(), self.known(), self.complete(), i);
                            lemma_unquote_len(self.known(), i + 1);
                        }
                        assert forall|k: Seq<u8>| #[trigger] agrees(k, self.known(), self.complete()) && !io_failed(r)
                            implies event_outcome(r, value_event(k, i), self.pos()) by {
                            lemma_seen_byte(k, m.known(), m.complete(), self.known(), self.complete(), i);
                        }
                    }
                    r
                } else if b == QUOTE {
                    self.read.discard();
                    let ghost d = self.source();
                    self.scratch.clear();
                    let x = self.read.parse_str(&mut self.scratch);
                    let r = match x {
                        Ok(t) => Ok(Event::Str(t)),
                        Err(e) => Err(e),
                    };
                    proof {
                        lemma_prefix_trans(m.known(), d.known(), self.known());
                        lemma_follows_trans(a, m, self.source());
                        if !io_failed(r) {
                            lemma_agrees_self(self.known(), self.complete());
                            lemma_seen_byte(self.known(), m.known(), m.complete(), self.known(), self.complete(), i);
                            lemma_unquote_len(self.known(), i + 1);
                        }
                        assert forall|k: Seq<u8>| #[trigger] agrees(k, self.known(), self.complete()) && !io_failed(r)
                            implies event_outcome(r, value_event(k, i), self.pos()) by {
                            lemma_seen_byte(k, m.known(), m.complete(), self.known(), self.complete(), i);
                        }
                    }
                    r
                } else if b == OPEN {
                    self.read.discard();
                    let r = Ok(Event::MapStart);
                    proof {
                        assert forall|k: Seq<u8>| #[trigger] agrees(k, self.known(), self.complete())
                            implies event_outcome(r, value_event(k, i), self.pos()) by {
                            lemma_seen_byte(k, m.known(), m.complete(), self.known(), self.complete(), i);
                        }
                    }
                    r
                } else {
                    self.scratch.clear();
                    let x = self.read.parse_ident(&mut self.scratch);
                    let r = match x {
                        Ok(t) => Ok(Event::Str(t)),
                        Err(e) => Err(e),
                    };
                    proof {
                        lemma_follows_trans(a, m, self.source());
                        if !io_failed(r) {
                            lemma_agrees_self(self.known(), self.complete());
                            lemma_seen_byte(self.known(), m.known(), m.complete(), self.known(), self.complete(), i);
                            lemma_unquote_len(self.known(), i + 1);
                        }
                        assert forall|k: Seq<u8>| #[trigger] agrees(k, self.known(), self.complete()) && !io_failed(r)
                            implies event_outcome(r, value_event(k, i), self.pos()) by {
                            lemma_seen_byte(k, m.known(), m.complete(), self.known(), self.complete(), i);
                        }
                    }
                    r
                }
            },
        }
    }

    /// The optional-value mode: `!n` is absence (`None`); any other value is present and its
    /// start is returned as the dispatcher reads it.
    pub fn parse_option(&mut self) -> (r: Result<Option<Event<'de>>, Error>)
        requires
            old(self).inv(),
        ensures
            final(self).inv(),
            follows(old(self).source(), final(self).source()),
            io_failed(r) ==> !old(self).complete(),
            !io_failed(r) ==> forall|k: Seq<u8>| #[trigger] agrees(k, final(self).known(), final(self).complete())
                ==> match value_event(k, old(self).pos()) {
                    Ok((Tok::Unit, e)) => r matches Ok(None) && final(self).pos() == e,
                    Ok((t, e)) => r matches Ok(Some(ev)) && ev.tok() == t && final(self).pos() == e,
                    Err(x) => r == Err::<Option<Event>, Error>(x),
                },
    {
        match self.parse_any() {
            Ok(Event::Unit) => Ok(None),
            Ok(ev) => Ok(Some(ev)),
            Err(e) => Err(e),
        }
    }

    /// The colon between a key and its value.
    pub fn parse_colon(&mut self) -> (r: Result<(), Error>)
        requires
            old(self).inv(),
        ensures
            final(self).inv(),
            follows(old(self).source(), final(self).source()),
            r is Err && !io_failed(r) ==> final(self).pos() == old(self).pos(),
            io_failed(r) ==> !old(self).complete(),
            !io_failed(r) ==> forall|k: Seq<u8>| #[trigger] agrees(k, final(self).known(), final(self).complete())
                ==> unit_outcome(r, colon_step(k, old(self).pos()), final(self).pos()),
    {
        let ghost i = self.pos();
        proof { self.read.lemma_inv(); }
        let p = self.read.peek();
        let ghost m = self.source();
        let r = match p {
            Err(e) => Err(e),
            Ok(Some(b)) => if b == COLON {
                self.read.discard();
                Ok(())
            } else {
                Err(Error::new(Code::ExpectedColon, self.read.position()))
            },
            Ok(None) => Err(Error::new(Code::ExpectedColon, self.read.position())),
        };
        proof {
            assert forall|k: Seq<u8>| #[trigger] agrees(k, self.known(), self.complete()) && !io_failed(r)
                implies unit_outcome(r, colon_step(k, i), self.pos()) by {
                if p matches Ok(Some(_)) {
                    lemma_seen_byte(k, m.known(), m.complete(), self.known(), self.complete(), i);
                } else {
                    lemma_seen_end(k, m.known(), self.known(), self.complete(), i);
                }
            }
        }
        r
    }

    /// The closing parenthesis of a sequence (`in_map` false) or an object.
    pub fn parse_close(&mut self, in_map: bool) -> (r: Result<(), Error>)
        requires
            old(self).inv(),
        ensures
            final(self).inv(),
            follows(old(self).source(), final(self).source()),
            r is Err && !io_failed(r) ==> final(self).pos() == old(self).pos(),
            io_failed(r) ==> !old(self).complete(),
            !io_failed(r) ==> forall|k: Seq<u8>| #[trigger] agrees(k, final(self).known(), final(self).complete())
                ==> unit_outcome(r, close_step(k, old(self).pos(), if in_map { Code::EofObject } else { Code::EofList }), final(self).pos()),
    {
        let ghost i = self.pos();
        proof { self.read.lemma_inv(); }
        let p = self.read.peek();
        let ghost m = self.source();
        let r = match p {
            Err(e) => Err(e),
            Ok(Some(b)) => if b == CLOSE {
                self.read.discard();
                Ok(())
            } else {
                Err(Error::new(Code::TrailingChars, self.read.position()))
            },
            Ok(None) => if in_map {
                Err(Error::new(Code::EofObject, self.read.position()))
            } else {
                Err(Error::new(Code::EofList, self.read.position()))
            },
        };
        proof {
            assert forall|k: Seq<u8>| #[trigger] agrees(k, self.known(), self.complete()) && !io_failed(r)
                implies unit_outcome(r, close_step(k, i, if in_map { Code::EofObject } else { Code::EofList }), self.pos()) by {
                if p matches Ok(Some(_)) {
                    lemma_seen_byte(k, m.known(), m.complete(), self.known(), self.complete(), i);
                } else {
                    lemma_seen_end(k, m.known(), self.known(), self.complete(), i);
                }
            }
        }
        r
    }

    /// Whether another item follows in a sequence (`in_map` false) or another entry in an
    /// object, where `first` tells whether none has yet. A separating comma is consumed.
    pub(crate) fn item_step(&mut self, in_map: bool, first: bool) -> (r: Result<bool, Error>)
        requires
            old(self).inv(),
        ensures
            final(self).inv(),
            follows(old(self).source(), final(self).source()),
            r is Err && !io_failed(r) ==> final(self).pos() == old(self).pos(),
            io_failed(r) ==> !old(self).complete(),
            !io_failed(r) ==> forall|k: Seq<u8>| #[trigger] agrees(k, final(self).known(), final(self).complete())
                ==> flag_outcome(r, if in_map { key_step(k, old(self).pos(), first) } else { seq_step(k, old(self).pos(), first) }, final(self).pos()),
    {
        let ghost i = self.pos();
        proof { self.read.lemma_inv(); }
        let p = self.read.peek();
        let ghost m = self.source();
        let r = match p {
            Err(e) => Err(e),
            Ok(Some(b)) => if b == CLOSE {
                Ok(false)
            } else if b == COMMA && !first {
                self.read.discard();
                Ok(true)
            } else if b != COMMA && first {
                Ok(true)
            } else if in_map {
                Err(Error::new(Code::ExpectedObjectSepOrEnd, self.read.position()))
            } else {
                Err(Error::new(Code::ExpectedListSepOrEnd, self.read.position()))
            },
            Ok(None) => if in_map {
                Err(Error::new(Code::EofObject, self.read.position()))
            } else {
                Err(Error::new(Code::EofList, self.read.position()))
            },
        };
        proof {
            assert forall|k: Seq<u8>| #[trigger] agrees(k, self.known(), self.complete()) && !io_failed(r)
                implies flag_outcome(r, if in_map { key_step(k, i, first) } else { seq_step(k, i, first) }, self.pos()) by {
                if p matches Ok(Some(_)) {
                    lemma_seen_byte(k, m.known(), m.complete(), self.known(), self.complete(), i);
                } else {
                    lemma_seen_end(k, m.known(), self.known(), self.complete(), i);
                }
            }
        }
        r
    }
}

/// Walks the elements of a sequence whose `!(` is consumed, one request at a time.
pub struct SeqAccess {
    first: bool,
}

impl SeqAccess {
    /// Whether no element has been produced yet.
    pub closed spec fn is_first(&self) -> bool {
        self.first
    }

    pub fn new() -> (r: Self)
        ensures
            r.is_first(),
    {
        SeqAccess { first: true }
    }

    /// Whether another element follows: `false` at the closing parenthesis, which is left for
    /// [`Deserializer::parse_close`]. On `true` the element is the next value.
    pub fn has_next<'de, R: Read<'de>>(&mut self, de: &mut Deserializer<R>) -> (r: Result<bool, Error>)
        requires
            old(de).inv(),
        ensures
            final(de).inv(),
            follows(old(de).source(), final(de).source()),
            r is Err && !io_failed(r) ==> final(de).pos() == old(de).pos(),
            final(self).is_first() == (old(self).is_first() && r != Ok::<bool, Error>(true)),
            io_failed(r) ==> !old(de).complete(),
            !io_failed(r) ==> forall|k: Seq<u8>| #[trigger] agrees(k, final(de).known(), final(de).complete())
                ==> flag_outcome(r, seq_step(k, old(de).pos(), old(self).is_first()), final(de).pos()),
    {
        let r = de.item_step(false, self.first);
        if let Ok(true) = r {
            self.first = false;
        }
        r
    }
}

/// Walks the entries of an object whose `(` is consumed, one request at a time.
pub struct MapAccess {
    first: bool,
}

impl MapAccess {
    /// Whether no entry has been produced yet.
    pub closed spec fn is_first(&self) -> bool {
        self.first
    }

    pub fn new() -> (r: Self)
        ensures
            r.is_first(),
    {
        MapAccess { first: true }
    }

    /// Whether another entry follows: `false` at the closing parenthesis, which is left for
    /// [`Deserializer::parse_close`]. On `true` the key is the next value, then a colon
    /// ([`MapAccess::next_value`]) and the entry's value.
    pub fn has_next_key<'de, R: Read<'de>>(&mut self, de: &mut Deserializer<R>) -> (r: Result<bool, Error>)
        requires
            old(de).inv(),
        ensures
            final(de).inv(),
            follows(old(de).source(), final(de).source()),
            r is Err && !io_failed(r) ==> final(de).pos() == old(de).pos(),
            final(self).is_first() == (old(self).is_first() && r != Ok::<bool, Error>(true)),
            io_failed(r) ==> !old(de).complete(),
            !io_failed(r) ==> forall|k: Seq<u8>| #[trigger] agrees(k, final(de).known(), final(de).complete())
                ==> flag_outcome(r, key_step(k, old(de).pos(), old(self).is_first()), final(de).pos()),
    {
        let r = de.item_step(true, self.first);
        if let Ok(true) = r {
            self.first = false;
        }
        r
    }

    /// Consumes the colon after a key; the entry's value follows it.
    pub fn next_value<'de, R: Read<'de>>(&self, de: &mut Deserializer<R>) -> (r: Result<(), Error>)
        requires
            old(de).inv(),
        ensures
            final(de).inv(),
            follows(old(de).source(), final(de).source()),
            r is Err && !io_failed(r) ==> final(de).pos() == old(de).pos(),
            io_failed(r) ==> !old(de).complete(),
            !io_failed(r) ==> forall|k: Seq<u8>| #[trigger] agrees(k, final(de).known(), final(de).complete())
                ==> unit_outcome(r, colon_step(k, old(de).pos()), final(de).pos()),
    {
        de.parse_colon()
    }
}

/// A numeric-literal byte: `-`, a digit, `.` or `e`.
fn is_number_char(b: u8) -> (r: bool)
    ensures
        r == is_number_byte(b),
{
    b == MINUS || (ZERO <= b && b <= NINE) || b == DOT || b == LOWER_E
}

/// End of the run of digits of `t` that starts at `i`.
fn digits_end_at(t: &Vec<u8>, i: usize) -> (r: usize)
    requires
        i <= t@.len(),
    ensures
        r == digits_end(t@, i as int),
        i <= r <= t@.len(),
{
    let mut j = i;
    while j < t.len() && ZERO <= t[j] && t[j] <= NINE
        invariant
            i <= j <= t@.len(),
            digits_end(t@, i as int) == digits_end(t@, j as int),
        decreases t@.len() - j,
    {
        j += 1;
    }
    j
}

/// Whether `t` is a numeric literal.
fn number_syntax_ok(t: &Vec<u8>) -> (r: bool)
    ensures
        r == number_syntax(t@),
{
    let a: usize = if t.len() > 0 && t[0] == MINUS { 1 } else { 0 };
    let b = digits_end_at(t, a);
    let dot = b < t.len() && t[b] == DOT;
    let c = if dot { digits_end_at(t, b + 1) } else { b };
    let has_digits = if dot { (b - a) + (c - (b + 1)) > 0 } else { b - a > 0 };
    if !has_digits {
        return false;
    }
    if c == t.len() {
        return true;
    }
    if t[c] != LOWER_E {
        return false;
    }
    let d = if c + 1 < t.len() && t[c + 1] == MINUS { c + 2 } else { c + 1 };
    let f = digits_end_at(t, d);
    f > d && f == t.len()
}

/// The facts a source passes on carry across several steps.
pub proof fn lemma_follows_trans<'de, R: Read<'de>>(a: R, b: R, c: R)
    requires
        follows(a, b),
        follows(b, c),
    ensures
        follows(a, c),
{
    lemma_prefix_trans(a.known(), b.known(), c.known());
}

} // verus!
