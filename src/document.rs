//! Decoding a whole document: one value, then the end of the input.
//!
//! The decoder walks nested containers with an explicit stack, one step at a time; [`run`]
//! states what the steps yield from a given state, and [`decode`] what a document yields: the
//! tokens of its value in order (a container as its start, its contents and [`Tok::End`]),
//! or the first error.
use vstd::prelude::*;
use crate::de::{lemma_follows_trans, Deserializer, Event};
use crate::error::{at, Code, Error};
use crate::grammar::{
    close_step, colon_step, end_step, ident_end, key_step, number_end, seq_step,
    value_event, Tok,
};
use crate::read::{
    agrees, follows, io_failed, lemma_agrees_follows, lemma_agrees_self, lemma_unquote_len, Read, Reference,
};

verus! {

/// An open container on the decoder's stack.
#[derive(Clone, Copy, PartialEq, Eq, Structural, Debug)]
pub enum Frame {
    /// A sequence.
    List,
    /// An object whose next value is a key.
    Key,
    /// An object whose next value is the value of an entry.
    Val,
}

/// What the decoder expects next.
#[derive(Clone, Copy, PartialEq, Eq, Structural, Debug)]
pub enum Phase {
    /// A value.
    Value,
    /// Another item of the innermost container, or its end; `true` before its first item.
    Items(bool),
    /// The colon after a key.
    Colon,
    /// The end of the input.
    Done,
}

/// One decoded token, owning its text.
#[derive(Clone, PartialEq, Eq, Debug)]
pub enum Token {
    Unit,
    Bool(bool),
    /// A numeric literal, as written.
    Number(Vec<u8>),
    Str(String),
    SeqStart,
    MapStart,
    End,
}

impl Token {
    pub open spec fn tok(&self) -> Tok {
        match self {
            Token::Unit => Tok::Unit,
            Token::Bool(b) => Tok::Bool(*b),
            Token::Number(t) => Tok::Number(t@),
            Token::Str(s) => Tok::Str(s@),
            Token::SeqStart => Tok::SeqStart,
            Token::MapStart => Tok::MapStart,
            Token::End => Tok::End,
        }
    }
}

pub open spec fn toks_of(v: Seq<Token>) -> Seq<Tok> {
    v.map_values(|t: Token| t.tok())
}

/// What follows a complete value inside the containers `stack`.
pub open spec fn after(stack: Seq<Frame>) -> Phase {
    if stack.len() == 0 {
        Phase::Done
    } else if stack.last() == Frame::Key {
        Phase::Colon
    } else {
        Phase::Items(false)
    }
}

/// A state that the decoder can be in: where it expects items or a colon, a container is open.
pub open spec fn well_formed(stack: Seq<Frame>, phase: Phase) -> bool {
    &&& (phase is Items || phase is Colon) ==> stack.len() > 0
    &&& phase is Colon ==> stack.last() == Frame::Key
}

/// One step of the decoder from offset `pos`: the tokens it yields, the new offset, stack
/// and phase.
pub open spec fn step(s: Seq<u8>, pos: int, stack: Seq<Frame>, phase: Phase)
    -> Result<(Seq<Tok>, int, Seq<Frame>, Phase), Error>
{
    match phase {
        Phase::Value => match value_event(s, pos) {
            Err(x) => Err(x),
            Ok((t, e)) => if t == Tok::SeqStart {
                Ok((seq![t], e, stack.push(Frame::List), Phase::Items(true)))
            } else if t == Tok::MapStart {
                Ok((seq![t], e, stack.push(Frame::Key), Phase::Items(true)))
            } else {
                Ok((seq![t], e, stack, after(stack)))
            },
        },
        Phase::Items(first) => {
            let in_map = stack.last() != Frame::List;
            match if in_map { key_step(s, pos, first) } else { seq_step(s, pos, first) } {
                Err(x) => Err(x),
                Ok((more, e)) => if more {
                    Ok((seq![], e, if in_map { stack.drop_last().push(Frame::Key) } else { stack }, Phase::Value))
                } else {
                    match close_step(s, e, if in_map { Code::EofObject } else { Code::EofList }) {
                        Err(x) => Err(x),
                        Ok(e2) => Ok((seq![Tok::End], e2, stack.drop_last(), after(stack.drop_last()))),
                    }
                },
            }
        },
        Phase::Colon => match colon_step(s, pos) {
            Err(x) => Err(x),
            Ok(e) => Ok((seq![], e, stack.drop_last().push(Frame::Val), Phase::Value)),
        },
        Phase::Done => Ok((seq![], pos, stack, Phase::Done)),
    }
}

pub open spec fn rank(phase: Phase) -> int {
    match phase {
        Phase::Items(true) => 2,
        Phase::Value => 1,
        _ => 0,
    }
}

/// Whether a step from `(pos, phase)` to `(next, ph2)` moved forward: it consumed input, or it
/// stayed and came nearer to consuming some.
pub open spec fn progress(s: Seq<u8>, pos: int, phase: Phase, next: int, ph2: Phase) -> bool {
    pos <= next <= s.len() && (pos < next || rank(ph2) < rank(phase))
}

/// `t` put in front of the tokens of a successful decode.
pub open spec fn prefixed(t: Seq<Tok>, r: Result<Seq<Tok>, Error>) -> Result<Seq<Tok>, Error> {
    match r {
        Ok(u) => Ok(t + u),
        Err(x) => Err(x),
    }
}

/// The tokens that the decoder yields from a state through the end of the input.
pub open spec fn run(s: Seq<u8>, pos: int, stack: Seq<Frame>, phase: Phase) -> Result<Seq<Tok>, Error>
    decreases s.len() - pos, rank(phase),
{
    if phase == Phase::Done {
        match end_step(s, pos) {
            Ok(()) => Ok(Seq::empty()),
            Err(x) => Err(x),
        }
    } else {
        match step(s, pos, stack, phase) {
            Err(x) => Err(x),
            Ok((t, next, st2, ph2)) => if progress(s, pos, phase, next, ph2) {
                prefixed(t, run(s, next, st2, ph2))
            } else {
                Err(at(Code::EofValue, pos))
            },
        }
    }
}

/// What a document decodes to: the tokens of its one value, or the first error.
pub open spec fn decode(s: Seq<u8>) -> Result<Seq<Tok>, Error> {
    run(s, 0, Seq::empty(), Phase::Value)
}

/// Whether `r` is the decode result `sp`.
pub open spec fn tokens_outcome(r: Result<Vec<Token>, Error>, sp: Result<Seq<Tok>, Error>) -> bool {
    match sp {
        Ok(t) => r matches Ok(v) && toks_of(v@) == t,
        Err(x) => r == Err::<Vec<Token>, Error>(x),
    }
}

proof fn lemma_ident_end(s: Seq<u8>, i: int)
    requires
        0 <= i <= s.len(),
    ensures
        i <= ident_end(s, i) <= s.len(),
    decreases s.len() - i,
{
    if i < s.len() {
        lemma_ident_end(s, i + 1);
    }
}

proof fn lemma_number_end(s: Seq<u8>, i: int)
    requires
        0 <= i <= s.len(),
    ensures
        i <= number_end(s, i) <= s.len(),
    decreases s.len() - i,
{
    if i < s.len() {
        lemma_number_end(s, i + 1);
    }
}

/// Every step moves the decoder forward.
pub proof fn lemma_step_progress(s: Seq<u8>, pos: int, stack: Seq<Frame>, phase: Phase)
    requires
        0 <= pos <= s.len(),
        phase != Phase::Done,
    ensures
        step(s, pos, stack, phase) matches Ok((t, next, st2, ph2)) ==> progress(s, pos, phase, next, ph2),
{
    lemma_ident_end(s, pos);
    lemma_number_end(s, pos);
    lemma_unquote_len(s, pos + 1);
}

/// What a step yields is what the decoder yields, followed by the rest of the run.
pub proof fn lemma_run_step(s: Seq<u8>, pos: int, stack: Seq<Frame>, phase: Phase)
    requires
        0 <= pos <= s.len(),
        phase != Phase::Done,
    ensures
        run(s, pos, stack, phase) == match step(s, pos, stack, phase) {
            Err(x) => Err(x),
            Ok((t, next, st2, ph2)) => prefixed(t, run(s, next, st2, ph2)),
        },
{
    lemma_step_progress(s, pos, stack, phase);
}

proof fn lemma_prefixed_assoc(a: Seq<Tok>, b: Seq<Tok>, r: Result<Seq<Tok>, Error>)
    ensures
        prefixed(a, prefixed(b, r)) == prefixed(a + b, r),
{
    if let Ok(u) = r {
        assert(a + (b + u) =~= (a + b) + u);
    }
}

/// The token for a scalar or the start of a container, owning its text.
fn token_of<'de>(ev: Event<'de>) -> (r: Token)
    ensures
        r.tok() == ev.tok(),
{
    match ev {
        Event::Unit => Token::Unit,
        Event::Bool(b) => Token::Bool(b),
        Event::Number(t) => Token::Number(t),
        Event::Str(Reference::Borrowed(s)) => Token::Str(s.to_owned()),
        Event::Str(Reference::Copied(s)) => Token::Str(s),
        Event::SeqStart => Token::SeqStart,
        Event::MapStart => Token::MapStart,
    }
}

fn after_of(stack: &Vec<Frame>) -> (r: Phase)
    ensures
        r == after(stack@),
{
    if stack.len() == 0 {
        Phase::Done
    } else if stack[stack.len() - 1] == Frame::Key {
        Phase::Colon
    } else {
        Phase::Items(false)
    }
}

/// Whether `r` is the step result `sp`, where the step added `added` to the tokens and left
/// the decoder at `p` with `st` and `ph`.
pub open spec fn step_outcome(
    r: Result<(), Error>,
    sp: Result<(Seq<Tok>, int, Seq<Frame>, Phase), Error>,
    added: Seq<Tok>,
    p: int,
    st: Seq<Frame>,
    ph: Phase,
) -> bool {
    match sp {
        Ok((t, next, st2, ph2)) => r is Ok && t == added && next == p && st2 == st && ph2 == ph,
        Err(x) => r == Err::<(), Error>(x),
    }
}

/// The tokens that `v` holds beyond its first `n`.
pub open spec fn added_since(v: Seq<Token>, n: int) -> Seq<Tok> {
    toks_of(v.subrange(n, v.len() as int))
}

impl<'de, R: Read<'de>> Deserializer<R> {
    /// One step in the `Value` phase.
    fn step_value(&mut self, out: &mut Vec<Token>, stack: &mut Vec<Frame>, phase: &mut Phase) -> (r: Result<(), Error>)
        requires
            old(self).inv(),
            *old(phase) == Phase::Value,
        ensures
            final(self).inv(),
            follows(old(self).source(), final(self).source()),
            final(out)@.len() >= old(out)@.len(),
            final(out)@.subrange(0, old(out)@.len() as int) == old(out)@,
            r is Ok ==> well_formed(final(stack)@, *final(phase)),
            io_failed(r) ==> !old(self).complete(),
            !io_failed(r) ==> forall|k: Seq<u8>| #[trigger] agrees(k, final(self).known(), final(self).complete())
                ==> step_outcome(r, step(k, old(self).pos(), old(stack)@, *old(phase)),
                    added_since(final(out)@, old(out)@.len() as int), final(self).pos(), final(stack)@, *final(phase)),
    {
        let ghost n = out@.len();
        let ghost st = stack@;
        let ev = self.parse_any();
        let ghost evr = ev;
        let r = match ev {
            Err(x) => Err(x),
            Ok(Event::SeqStart) => {
                out.push(Token::SeqStart);
                stack.push(Frame::List);
                *phase = Phase::Items(true);
                Ok(())
            },
            Ok(Event::MapStart) => {
                out.push(Token::MapStart);
                stack.push(Frame::Key);
                *phase = Phase::Items(true);
                Ok(())
            },
            Ok(other) => {
                out.push(token_of(other));
                *phase = after_of(stack);
                Ok(())
            },
        };
        proof {
            assert(out@.subrange(0, n as int) =~= old(out)@);
            if r is Ok {
                assert(added_since(out@, n as int) =~= seq![out@.last().tok()]);
            }
        }
        r
    }

    /// One step in the `Items` phase: the next item, or the end of the container.
    fn step_items(&mut self, out: &mut Vec<Token>, stack: &mut Vec<Frame>, phase: &mut Phase) -> (r: Result<(), Error>)
        requires
            old(self).inv(),
            *old(phase) is Items,
            well_formed(old(stack)@, *old(phase)),
        ensures
            final(self).inv(),
            follows(old(self).source(), final(self).source()),
            final(out)@.len() >= old(out)@.len(),
            final(out)@.subrange(0, old(out)@.len() as int) == old(out)@,
            r is Ok ==> well_formed(final(stack)@, *final(phase)),
            io_failed(r) ==> !old(self).complete(),
            !io_failed(r) ==> forall|k: Seq<u8>| #[trigger] agrees(k, final(self).known(), final(self).complete())
                ==> step_outcome(r, step(k, old(self).pos(), old(stack)@, *old(phase)),
                    added_since(final(out)@, old(out)@.len() as int), final(self).pos(), final(stack)@, *final(phase)),
    {
        let ghost n = out@.len();
        let ghost st = stack@;
        let ghost a = *self;
        let first_item = match *phase {
            Phase::Items(f) => f,
            _ => true,
        };
        let in_map = stack[stack.len() - 1] != Frame::List;
        let more = self.item_step(in_map, first_item);
        let ghost mid = *self;
        let r = match more {
            Err(x) => Err(x),
            Ok(true) => {
                if in_map {
                    stack.pop();
                    stack.push(Frame::Key);
                }
                *phase = Phase::Value;
                Ok(())
            },
            Ok(false) => {
                let c = self.parse_close(in_map);
                match c {
                    Err(x) => Err(x),
                    Ok(()) => {
                        out.push(Token::End);
                        stack.pop();
                        *phase = after_of(stack);
                        Ok(())
                    },
                }
            },
        };
        proof {
            lemma_follows_trans(a.source(), mid.source(), self.source());
            assert(out@.subrange(0, n as int) =~= old(out)@);
            if r is Ok {
                if more == Ok::<bool, Error>(true) {
                    assert(added_since(out@, n as int) =~= Seq::<Tok>::empty());
                    if in_map {
                        assert(stack@ =~= st.drop_last().push(Frame::Key));
                    }
                } else {
                    assert(added_since(out@, n as int) =~= seq![Tok::End]);
                    assert(stack@ =~= st.drop_last());
                }
            }
            if !io_failed(r) {
                assert forall|k: Seq<u8>| #[trigger] agrees(k, self.known(), self.complete())
                    implies step_outcome(r, step(k, a.pos(), st, Phase::Items(first_item)),
                        added_since(out@, n as int), self.pos(), stack@, *phase) by {
                    lemma_agrees_follows(k, mid.known(), mid.complete(), self.known(), self.complete());
                    assert(agrees(k, mid.known(), mid.complete()));
                }
            }
        }
        r
    }

    /// One step in the `Colon` phase.
    fn step_colon(&mut self, out: &mut Vec<Token>, stack: &mut Vec<Frame>, phase: &mut Phase) -> (r: Result<(), Error>)
        requires
            old(self).inv(),
            *old(phase) == Phase::Colon,
            well_formed(old(stack)@, *old(phase)),
        ensures
            final(self).inv(),
            follows(old(self).source(), final(self).source()),
            final(out)@ == old(out)@,
            r is Ok ==> well_formed(final(stack)@, *final(phase)),
            io_failed(r) ==> !old(self).complete(),
            !io_failed(r) ==> forall|k: Seq<u8>| #[trigger] agrees(k, final(self).known(), final(self).complete())
                ==> step_outcome(r, step(k, old(self).pos(), old(stack)@, *old(phase)),
                    added_since(final(out)@, old(out)@.len() as int), final(self).pos(), final(stack)@, *final(phase)),
    {
        let ghost st = stack@;
        let c = self.parse_colon();
        let r = match c {
            Err(x) => Err(x),
            Ok(()) => {
                stack.pop();
                stack.push(Frame::Val);
                *phase = Phase::Value;
                Ok(())
            },
        };
        proof {
            assert(added_since(out@, out@.len() as int) =~= Seq::<Tok>::empty());
            if r is Ok {
                assert(stack@ =~= st.drop_last().push(Frame::Val));
            }
        }
        r
    }

    /// Decodes one value from the current offset, then checks that the input ends there.
    /// The result is the value's tokens in order.
    pub fn decode(&mut self) -> (r: Result<Vec<Token>, Error>)
        requires
            old(self).inv(),
        ensures
            final(self).inv(),
            follows(old(self).source(), final(self).source()),
            io_failed(r) ==> !old(self).complete(),
            !io_failed(r) ==> forall|k: Seq<u8>| #[trigger] agrees(k, final(self).known(), final(self).complete())
                ==> tokens_outcome(r, run(k, old(self).pos(), Seq::empty(), Phase::Value)),
    {
        let ghost first = *self;
        let ghost start = self.pos();
        let mut out: Vec<Token> = Vec::new();
        let mut stack: Vec<Frame> = Vec::new();
        let mut phase = Phase::Value;
        proof {
            self.source().lemma_inv();
            assert(toks_of(out@) =~= Seq::<Tok>::empty());
            assert forall|k: Seq<u8>| #[trigger] agrees(k, self.known(), self.complete())
                implies run(k, start, Seq::empty(), Phase::Value) == prefixed(toks_of(out@), run(k, self.pos(), stack@, phase)) by {
                if let Ok(u) = run(k, start, Seq::empty(), Phase::Value) {
                    assert(Seq::<Tok>::empty() + u =~= u);
                }
            }
        }
        loop
            invariant
                self.inv(),
                follows(first.source(), self.source()),
                first == *old(self),
                start == old(self).pos(),
                well_formed(stack@, phase),
                0 <= self.pos() <= self.known().len() <= usize::MAX,
                forall|k: Seq<u8>| #[trigger] agrees(k, self.known(), self.complete())
                    ==> run(k, start, Seq::empty(), Phase::Value) == prefixed(toks_of(out@), run(k, self.pos(), stack@, phase)),
            decreases usize::MAX - self.pos(), rank(phase),
        {
            let ghost bd = *self;
            let ghost pos = self.pos();
            let ghost st = stack@;
            let ghost ph = phase;
            let ghost old_out = out@;
            if phase == Phase::Done {
                let e = self.end();
                proof {
                    lemma_follows_trans(first.source(), bd.source(), self.source());
                    if !io_failed(e) {
                        assert forall|k: Seq<u8>| #[trigger] agrees(k, self.known(), self.complete())
                            implies tokens_outcome(match e { Ok(()) => Ok(out), Err(x) => Err(x) }, run(k, start, Seq::empty(), Phase::Value)) by {
                            lemma_agrees_follows(k, bd.known(), bd.complete(), self.known(), self.complete());
                            assert(agrees(k, bd.known(), bd.complete()));
                            assert(toks_of(out@) + Seq::<Tok>::empty() =~= toks_of(out@));
                        }
                    }
                }
                match e {
                    Ok(()) => return Ok(out),
                    Err(x) => return Err(x),
                }
            }
            let r = if phase == Phase::Value {
                self.step_value(&mut out, &mut stack, &mut phase)
            } else if phase == Phase::Colon {
                self.step_colon(&mut out, &mut stack, &mut phase)
            } else {
                self.step_items(&mut out, &mut stack, &mut phase)
            };
            proof {
                lemma_follows_trans(first.source(), bd.source(), self.source());
                self.source().lemma_inv();
                if !io_failed(r) {
                    assert forall|k: Seq<u8>| #[trigger] agrees(k, self.known(), self.complete())
                        implies (match r {
                            Err(x) => run(k, start, Seq::empty(), Phase::Value) == Err::<Seq<Tok>, Error>(x),
                            Ok(()) => run(k, start, Seq::empty(), Phase::Value) == prefixed(toks_of(out@), run(k, self.pos(), stack@, phase)),
                        }) by {
                        lemma_agrees_follows(k, bd.known(), bd.complete(), self.known(), self.complete());
                        assert(agrees(k, bd.known(), bd.complete()));
                        lemma_run_step(k, pos, st, ph);
                        if r is Ok {
                            let added = added_since(out@, old_out.len() as int);
                            assert(toks_of(out@) =~= toks_of(old_out) + added) by {
                                assert(out@ =~= old_out + out@.subrange(old_out.len() as int, out@.len() as int));
                            }
                            lemma_prefixed_assoc(toks_of(old_out), added, run(k, self.pos(), stack@, phase));
                        }
                    }
                    lemma_agrees_self(self.known(), self.complete());
                    lemma_step_progress(self.known(), pos, st, ph);
                }
            }
            if let Err(x) = r {
                return Err(x);
            }
        }
    }
}

} // verus!
