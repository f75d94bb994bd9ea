//! The executable parse engine: the byte pump with its one-byte lookahead,
//! the diagnostic history ring, and the stack automaton.
//!
//! Every operation here is specified against the session model in
//! [`crate::model`]: an operation's contract states that its effect on the
//! session state equals the corresponding model function.

use vstd::prelude::*;

use crate::model::{
    NavRes, SState, SeekRes, StepRes, brace_frame, colon_frame, is_digit, is_ws, keyword_bytes,
    lemma_advance_measure, lemma_extract_item_measure, lemma_extract_value_measure,
    lemma_next_key_measure, lemma_refill_ws_ok, lemma_step_measure, lemma_step_zero,
    lemma_string_measure, marker, measure, ring_push, spec_advance, spec_before_value,
    spec_extract_array, spec_extract_item, spec_extract_object, spec_extract_value,
    spec_child_scan, spec_exhausted, spec_keyword, spec_next_child, spec_next_item,
    spec_next_item_by_level, spec_next_key, spec_next_key_by_name, spec_number, spec_pop,
    spec_post_ws, spec_pull, spec_refill_ws, spec_seek, spec_skip, spec_step,
    spec_string_bytes, spec_transition, spec_word, square_frame,
};
use crate::source::ByteSource;
use crate::types::{Content, CurrentState, FrameState, Item, PathItem, StackItem, TextItem,
    VContent, VFrame, VItemKind, VPath, ValueType, array_view, content_view, object_view,
    path_item_view, spec_symbol};
use crate::{Error, ErrorKind, Fault, FaultKind, NIL};

verus! {

/// A fixed-capacity ring of the most recently consumed bytes, kept only
/// for error messages.
pub struct FixedSizeArray {
    capacity: usize,
    pos: usize,
    arr: Vec<u8>,
}

impl FixedSizeArray {
    /// Internal validity: the backing vector fills the capacity and the
    /// write position stays inside it.
    pub closed spec fn wf(&self) -> bool {
        &&& self.capacity >= 1
        &&& self.arr@.len() == self.capacity
        &&& self.pos < self.capacity
    }

    /// The retained bytes, oldest first.
    pub closed spec fn ordered(&self) -> Seq<u8> {
        if self.pos + 1 <= self.arr@.len() {
            self.arr@.skip(self.pos + 1) + self.arr@.take(self.pos + 1)
        } else {
            self.arr@
        }
    }

    /// A ring of `capacity` bytes, all blank.
    pub fn new(capacity: usize) -> (r: FixedSizeArray)
        requires
            capacity >= 1,
        ensures
            r.wf(),
            r.ordered() == Seq::new(capacity as nat, |i: int| 32u8),
    {
        let mut a: Vec<u8> = Vec::new();
        let mut i: usize = 0;
        while i < capacity
            invariant
                i <= capacity,
                a@ == Seq::new(i as nat, |j: int| 32u8),
            decreases capacity - i,
        {
            a.push(32u8);
            i = i + 1;
            assert(a@ =~= Seq::new(i as nat, |j: int| 32u8));
        }
        let r = FixedSizeArray { pos: 0, capacity, arr: a };
        assert(r.ordered() =~= Seq::new(capacity as nat, |i: int| 32u8));
        r
    }

    /// Record one byte: the oldest byte leaves, the new one enters.
    pub fn push(&mut self, byte: u8)
        requires
            old(self).wf(),
        ensures
            final(self).wf(),
            final(self).ordered() == ring_push(old(self).ordered(), byte),
    {
        self.pos = (self.pos + 1) % self.capacity;
        self.arr[self.pos] = byte;
        proof {
            let n = old(self).capacity as int;
            let p = old(self).pos as int;
            if p + 1 < n {
                vstd::arithmetic::div_mod::lemma_small_mod((p + 1) as nat, n as nat);
                assert(self.pos == p + 1);
            } else {
                vstd::arithmetic::div_mod::lemma_mod_self_0(n);
                assert(self.pos == 0);
            }
            assert(self.ordered() =~= ring_push(old(self).ordered(), byte));
        }
    }

    /// The retained bytes as a vector, oldest first.
    pub fn to_bytes(&self) -> (r: Vec<u8>)
        requires
            self.wf(),
        ensures
            r@ == self.ordered(),
    {
        let mut out: Vec<u8> = Vec::new();
        let mut i: usize = self.pos + 1;
        while i < self.capacity
            invariant
                self.wf(),
                self.pos + 1 <= i <= self.capacity,
                out@ == self.arr@.subrange(self.pos + 1, i as int),
            decreases self.capacity - i,
        {
            out.push(self.arr[i]);
            i = i + 1;
            assert(out@ =~= self.arr@.subrange(self.pos + 1, i as int));
        }
        let mut j: usize = 0;
        while j < self.pos + 1
            invariant
                self.wf(),
                j <= self.pos + 1,
                out@ == self.arr@.skip(self.pos + 1) + self.arr@.subrange(0, j as int),
            decreases self.pos + 1 - j,
        {
            assert(out@ =~= self.arr@.skip(self.pos + 1) + self.arr@.subrange(0, j as int));
            out.push(self.arr[j]);
            j = j + 1;
            assert(out@ =~= self.arr@.skip(self.pos + 1) + self.arr@.subrange(0, j as int));
        }
        assert(out@ =~= self.ordered());
        out
    }
}

/// Relies on `String::from_utf8`: it succeeds exactly on UTF-8 input and
/// then returns its decoding.
#[verifier::external_body]
fn to_string(v: Vec<u8>) -> (r: Option<String>)
    ensures
        match r {
            Some(s) => vstd::utf8::valid_utf8(v@) && s@ == vstd::utf8::decode_utf8(v@),
            None => !vstd::utf8::valid_utf8(v@),
        },
{
    String::from_utf8(v).ok()
}

/// Relies on `String::from_utf8_lossy`: on UTF-8 input it returns the
/// decoded text unchanged.
#[verifier::external_body]
fn lossy_string(v: &Vec<u8>) -> (r: String)
    ensures
        vstd::utf8::valid_utf8(v@) ==> r@ == vstd::utf8::decode_utf8(v@),
{
    String::from_utf8_lossy(v.as_slice()).into_owned()
}

/// The streaming parser: a byte source behind a one-byte lookahead, the
/// frame stack, and the optional history ring.
///
/// `next_byte` is the lookahead: the next unconsumed byte, or [`NIL`] once
/// the source is exhausted.
pub struct Parser<R: ByteSource> {
    reader: R,
    pub next_byte: u8,
    txt: FixedSizeArray,
    with_memory: bool,
    pub stack: Vec<StackItem>,
    failed: Option<Fault>,
}

/// The view of the frame stack.
pub open spec fn stack_view(stack: Seq<StackItem>) -> Seq<VFrame> {
    stack.map_values(|f: StackItem| f@)
}

/// The key of the root frame.
pub open spec fn root_key() -> Seq<char> {
    "#"@
}

/// The root frame the session starts with: a pending-value frame for the
/// whole document, at level zero.
pub open spec fn root_frame() -> VFrame {
    VFrame { state: FrameState::ColonStart, key: root_key(), level_halves: 0, nth: 0 }
}

/// A blank history ring of `cap` bytes.
pub open spec fn blank_ring(cap: nat) -> Seq<u8> {
    Seq::new(cap, |i: int| 32u8)
}

impl<R: ByteSource> Parser<R> {
    /// The session state this parser is in.
    pub closed spec fn st(&self) -> SState {
        SState {
            stack: stack_view(self.stack@),
            ahead: self.next_byte,
            rest: self.reader.remaining(),
            hist: self.txt.ordered(),
            mem: self.with_memory,
        }
    }

    /// The kind of the fatal fault that ended this session, if one did.
    pub closed spec fn flt(&self) -> Option<FaultKind> {
        match self.failed {
            Some(f) => Some(f.kind),
            None => None,
        }
    }

    /// Internal validity of the parser: the history ring is well formed,
    /// and a recorded fatal fault carries the position the session died
    /// at.
    pub closed spec fn wf(&self) -> bool {
        &&& self.txt.wf()
        &&& (match self.failed {
            Some(f) => fault_at(f, self.st()),
            None => true,
        })
    }

    /// Builds the diagnostic record of a fatal fault from the current
    /// position: offending byte, level, key, sibling ordinal, history.
    fn make_fault(&self, kind: FaultKind, byte: u8) -> (f: Fault)
        requires
            self.wf(),
        ensures
            f.kind == kind,
            f.byte == byte,
            fault_at(f, self.st()),
    {
        let (level_halves, key, nth): (i128, String, usize) = if self.stack.len() > 0 {
            let top = &self.stack[self.stack.len() - 1];
            (top.level_halves, top.key.clone(), top.nth)
        } else {
            (-2, String::new(), 0)
        };
        let history = self.txt.to_bytes();
        Fault { kind, byte, level_halves, key, nth, history }
    }

    /// Ends the session with a fatal fault: records it and hands a copy
    /// to the caller.
    fn die(&mut self, kind: FaultKind, byte: u8) -> (f: Fault)
        requires
            old(self).wf(),
        ensures
            final(self).wf(),
            f.kind == kind,
            f.byte == byte,
            fault_at(f, final(self).st()),
            final(self).flt() == Some(kind),
            final(self).st() == old(self).st(),
    {
        let f = self.make_fault(kind, byte);
        let copy = f.duplicate();
        self.failed = Some(f);
        copy
    }

    /// Pull one byte from the source into the caller's hands, mirroring
    /// it into the history ring when one is kept.  An exhausted source
    /// yields [`NIL`]; that is fatal while containers are still open.
    fn pull_byte(&mut self) -> (r: Result<u8, Fault>)
        requires
            old(self).wf(),
            old(self).flt() is None,
        ensures
            final(self).wf(),
            final(self).st().ahead == old(self).st().ahead,
            match r {
                Ok(b) => spec_pull(old(self).st()) == Ok::<_, FaultKind>((b, final(self).st()))
                    && final(self).flt() is None,
                Err(f) => spec_pull(old(self).st()) == Err::<(u8, SState), _>(f.kind)
                    && final(self).flt() == Some(f.kind) && fault_at(f, final(self).st()),
            },
    {
        match self.reader.pull() {
            None => {
                if self.stack.len() > 2 {
                    Err(self.die(FaultKind::Truncated, NIL))
                } else {
                    assert(spec_pull(self.st()) == Ok::<_, FaultKind>((NIL, self.st())));
                    Ok(NIL)
                }
            },
            Some(b) => {
                if self.with_memory {
                    self.txt.push(b);
                }
                assert(spec_pull(old(self).st()) == Ok::<_, FaultKind>((b, self.st())));
                Ok(b)
            },
        }
    }

    /// Consume the lookahead, refilling it from the source; the consumed
    /// byte is returned.
    fn advance(&mut self) -> (r: Result<u8, Fault>)
        requires
            old(self).wf(),
            old(self).flt() is None,
        ensures
            final(self).wf(),
            match r {
                Ok(c) => spec_advance(old(self).st()) == Ok::<_, FaultKind>((c, final(self).st()))
                    && final(self).flt() is None,
                Err(f) => spec_advance(old(self).st()) == Err::<(u8, SState), _>(f.kind)
                    && final(self).flt() == Some(f.kind) && fault_at(f, final(self).st()),
            },
    {
        let c = self.next_byte;
        match self.pull_byte() {
            Err(f) => Err(f),
            Ok(b) => {
                self.next_byte = b;
                Ok(c)
            },
        }
    }

    /// Consume the lookahead and leave the next non-whitespace byte (or
    /// the end sentinel) in it; the consumed byte is returned.
    fn advance_skip_ws(&mut self) -> (r: Result<u8, Fault>)
        requires
            old(self).wf(),
            old(self).flt() is None,
        ensures
            final(self).wf(),
            match r {
                Ok(c) => spec_skip(old(self).st()) == Ok::<_, FaultKind>((c, final(self).st()))
                    && final(self).flt() is None && !is_ws(final(self).st().ahead),
                Err(f) => spec_skip(old(self).st()) == Err::<(u8, SState), _>(f.kind)
                    && final(self).flt() == Some(f.kind) && fault_at(f, final(self).st()),
            },
    {
        let c = self.next_byte;
        loop
            invariant_except_break
                self.wf(),
                self.flt() is None,
                spec_refill_ws(old(self).st()) == spec_refill_ws(self.st()),
            ensures
                self.wf(),
                self.flt() is None,
                spec_refill_ws(old(self).st()) == Ok::<_, FaultKind>(self.st()),
                !is_ws(self.next_byte),
            decreases self.st().rest.len(),
        {
            let ghost prev = self.st();
            match self.pull_byte() {
                Err(f) => {
                    assert(spec_refill_ws(prev) == Err::<SState, _>(f.kind));
                    return Err(f);
                },
                Ok(b) => {
                    let ghost mid = self.st();
                    self.next_byte = b;
                    assert(self.st() == (SState { ahead: b, ..mid }));
                    assert(spec_refill_ws(prev) == (if is_ws(b) {
                        spec_refill_ws(self.st())
                    } else {
                        Ok::<SState, FaultKind>(self.st())
                    }));
                    if !(b == 32 || b == 9 || b == 10 || b == 12 || b == 13) {
                        break;
                    }
                },
            }
        }
        Ok(c)
    }

    /// A fresh parse session over `reader`.
    ///
    /// `mem_size` is the capacity of the diagnostic history ring; zero
    /// disables the mirroring of consumed bytes.  The constructor primes
    /// the lookahead with the first non-whitespace byte of the input.
    pub fn new(reader: R, mem_size: usize) -> (r: Parser<R>)
        ensures
            r.wf(),
            r.flt() is None,
            ({
                let s0 = (SState {
                    stack: seq![root_frame()],
                    ahead: 0u8,
                    rest: reader.remaining(),
                    hist: blank_ring(
                        if mem_size > 0 {
                            mem_size as nat
                        } else {
                            1nat
                        },
                    ),
                    mem: mem_size > 0,
                });
                spec_refill_ws(s0) == Ok::<_, FaultKind>(r.st())
            }),
    {
        let cap: usize = if mem_size > 0 {
            mem_size
        } else {
            1
        };
        let txt = FixedSizeArray::new(cap);
        let mut stack: Vec<StackItem> = Vec::new();
        stack.push(
            StackItem {
                state: FrameState::ColonStart,
                key: "#".to_owned(),
                level_halves: 0,
                nth: 0,
            },
        );
        let mut p = Parser {
            reader,
            next_byte: NIL,
            txt,
            with_memory: mem_size > 0,
            stack,
            failed: None,
        };
        proof {
            assert(stack_view(p.stack@) =~= seq![root_frame()]);
            lemma_refill_ws_ok(p.st());
        }
        let ghost s0 = p.st();
        match p.advance_skip_ws() {
            Ok(_) => {},
            Err(_) => {
                proof {
                    assert(false);
                }
            },
        }
        p
    }

    /// The level coordinate of the current position, in half-steps; a
    /// session whose stack has emptied reports one whole level below the
    /// root.
    pub fn get_current_level(&self) -> (r: i128)
        ensures
            r as int == spec_current_level(self.st()),
    {
        if self.stack.len() == 0 {
            -2
        } else {
            self.stack[self.stack.len() - 1].level_halves
        }
    }

    /// The retained recent input as text, when a history ring is kept;
    /// bytes that are not UTF-8 text are replaced.
    pub fn get_recent_piece(&self) -> (r: String)
        requires
            self.wf(),
        ensures
            vstd::utf8::valid_utf8(self.st().hist) ==> r@ == vstd::utf8::decode_utf8(
                self.st().hist,
            ),
    {
        let bytes = self.txt.to_bytes();
        lossy_string(&bytes)
    }

    /// The index of the top stack frame, or the trailing-data fault once
    /// the document has already closed.
    pub fn get_stack_top_index(&mut self) -> (r: Result<usize, Fault>)
        requires
            old(self).wf(),
            old(self).flt() is None,
        ensures
            final(self).wf(),
            final(self).st() == old(self).st(),
            match r {
                Ok(i) => old(self).st().stack.len() > 0 && i == old(self).st().stack.len() - 1
                    && final(self).flt() is None,
                Err(f) => old(self).st().stack.len() == 0 && f.kind == FaultKind::TrailingData
                    && final(self).flt() == Some(FaultKind::TrailingData),
            },
    {
        let l = self.stack.len();
        if l == 0 {
            Err(self.die(FaultKind::TrailingData, self.next_byte))
        } else {
            Ok(l - 1)
        }
    }

    /// The lookahead byte: the next unconsumed byte, or [`NIL`] once the
    /// source is exhausted.
    pub fn peek(&self) -> (b: u8)
        ensures
            b == self.st().ahead,
    {
        self.next_byte
    }

    /// Reads the raw content of a string token, up to the unescaped
    /// closing quote; a backslash and the byte after it are both copied
    /// verbatim, so no escape decoding happens.
    fn extract_string(&mut self) -> (r: Result<Vec<u8>, Fault>)
        requires
            old(self).wf(),
            old(self).flt() is None,
        ensures
            final(self).wf(),
            match r {
                Ok(bs) => spec_string_bytes(old(self).st()) == Ok::<_, FaultKind>(
                    (bs@, final(self).st()),
                ) && final(self).flt() is None,
                Err(f) => spec_string_bytes(old(self).st()) == Err::<(Seq<u8>, SState), _>(
                    f.kind,
                ) && final(self).flt() == Some(f.kind) && fault_at(f, final(self).st()),
            },
    {
        let mut result: Vec<u8> = Vec::new();
        loop
            invariant_except_break
                self.wf(),
                self.flt() is None,
                (match spec_string_bytes(self.st()) {
                    Ok((bs, s2)) => spec_string_bytes(old(self).st()) == Ok::<_, FaultKind>(
                        (result@ + bs, s2),
                    ),
                    Err(k) => spec_string_bytes(old(self).st()) == Err::<(Seq<u8>, SState), _>(
                        k,
                    ),
                }),
            ensures
                self.wf(),
                self.flt() is None,
                spec_string_bytes(old(self).st()) == Ok::<_, FaultKind>((result@, self.st())),
            decreases measure(self.st()),
        {
            let ghost prev = self.st();
            let ghost acc0 = result@;
            proof {
                lemma_advance_measure(prev);
            }
            let c = match self.advance() {
                Ok(c) => c,
                Err(f) => {
                    return Err(f);
                },
            };
            if c == 34 {  // '"'
                if is_ws_byte(self.next_byte) {
                    match self.advance_skip_ws() {
                        Ok(_) => {},
                        Err(f) => {
                            return Err(f);
                        },
                    }
                }
                proof {
                    assert(spec_post_ws(spec_advance(prev)->Ok_0.1) == Ok::<_, FaultKind>(
                        self.st(),
                    ));
                    assert(acc0 + Seq::<u8>::empty() =~= acc0);
                }
                break;
            } else if c == 92 {  // '\'
                let ghost mid = self.st();
                proof {
                    lemma_advance_measure(mid);
                }
                let c2 = match self.advance() {
                    Ok(c2) => c2,
                    Err(f) => {
                        return Err(f);
                    },
                };
                if c2 == 0 {
                    return Err(self.die(FaultKind::UnterminatedString, 0));
                }
                result.push(92);
                result.push(c2);
                proof {
                    if let Ok((bs, s2)) = spec_string_bytes(self.st()) {
                        assert(acc0 + (seq![92u8, c2] + bs) =~= result@ + bs);
                    }
                }
            } else if c == 0 {
                return Err(self.die(FaultKind::UnterminatedString, 0));
            } else {
                result.push(c);
                proof {
                    if let Ok((bs, s2)) = spec_string_bytes(self.st()) {
                        assert(acc0 + (seq![c] + bs) =~= result@ + bs);
                    }
                }
            }
        }
        Ok(result)
    }

    /// Reads a word token: a signed number or one of the keyword
    /// literals.  `c` is its already consumed first byte.
    fn extract_word(&mut self, c: u8) -> (r: Result<(ValueType, Vec<u8>), Fault>)
        requires
            old(self).wf(),
            old(self).flt() is None,
        ensures
            final(self).wf(),
            match r {
                Ok((vt, bs)) => spec_word(old(self).st(), c) == Ok::<_, FaultKind>(
                    (vt, bs@, final(self).st()),
                ) && final(self).flt() is None,
                Err(f) => spec_word(old(self).st(), c) == Err::<
                    (ValueType, Seq<u8>, SState),
                    _,
                >(f.kind) && final(self).flt() == Some(f.kind) && fault_at(f, final(self).st()),
            },
    {
        if c == 43 || c == 45 || (48 <= c && c <= 57) {  // '+' '-' digit
            let mut result: Vec<u8> = Vec::new();
            result.push(c);
            let mut ends_digit: bool = 48 <= c && c <= 57;
            let mut seen_dot: bool = false;
            assert(result@ =~= seq![c]);
            loop
                invariant_except_break
                    self.wf(),
                    self.flt() is None,
                    c == 43 || c == 45 || is_digit(c),
                    spec_number(old(self).st(), seq![c], is_digit(c), false) == spec_number(
                        self.st(),
                        result@,
                        ends_digit,
                        seen_dot,
                    ),
                ensures
                    self.wf(),
                    self.flt() is None,
                    spec_number(old(self).st(), seq![c], is_digit(c), false) == Ok::<
                        _,
                        FaultKind,
                    >(
                        (
                            if seen_dot {
                                ValueType::Float
                            } else {
                                ValueType::Int
                            },
                            result@,
                            self.st(),
                        ),
                    ),
                decreases measure(self.st()),
            {
                let ghost prev = self.st();
                let ghost acc0 = result@;
                let b = self.next_byte;
                proof {
                    lemma_advance_measure(prev);
                }
                if b == 46 {  // '.'
                    if seen_dot {
                        return Err(self.die(FaultKind::BadNumber, b));
                    }
                    seen_dot = true;
                    ends_digit = false;
                    result.push(b);
                    match self.advance() {
                        Ok(_) => {},
                        Err(f) => {
                            return Err(f);
                        },
                    }
                    assert(result@ =~= acc0.push(b));
                } else if 48 <= b && b <= 57 {
                    ends_digit = true;
                    result.push(b);
                    match self.advance() {
                        Ok(_) => {},
                        Err(f) => {
                            return Err(f);
                        },
                    }
                    assert(result@ =~= acc0.push(b));
                } else {
                    if !ends_digit || b == 45 || b == 43 {
                        return Err(self.die(FaultKind::BadNumber, b));
                    }
                    if is_ws_byte(self.next_byte) {
                        match self.advance_skip_ws() {
                            Ok(_) => {},
                            Err(f) => {
                                return Err(f);
                            },
                        }
                    }
                    proof {
                        assert(spec_post_ws(prev) == Ok::<_, FaultKind>(self.st()));
                    }
                    break;
                }
            }
            let vt = if seen_dot {
                ValueType::Float
            } else {
                ValueType::Int
            };
            Ok((vt, result))
        } else if c == 110 || c == 116 || c == 102 {  // 'n' 't' 'f'
            let vt = if c == 110 {
                ValueType::Null
            } else {
                ValueType::Bool
            };
            let kwv: Vec<u8> = if c == 110 {
                vec![110u8, 117u8, 108u8, 108u8]
            } else if c == 116 {
                vec![116u8, 114u8, 117u8, 101u8]
            } else {
                vec![102u8, 97u8, 108u8, 115u8, 101u8]
            };
            assert(kwv@ == keyword_bytes(vt, c));
            let mut i: usize = 1;
            loop
                invariant_except_break
                    self.wf(),
                    self.flt() is None,
                    c == 110 || c == 116 || c == 102,
                    vt == (if c == 110 {
                        ValueType::Null
                    } else {
                        ValueType::Bool
                    }),
                    1 <= i <= kwv@.len(),
                    kwv@ == keyword_bytes(vt, c),
                    spec_keyword(old(self).st(), kwv@, 1) == spec_keyword(
                        self.st(),
                        kwv@,
                        i as int,
                    ),
                ensures
                    self.wf(),
                    self.flt() is None,
                    spec_keyword(old(self).st(), kwv@, 1) == Ok::<_, FaultKind>(self.st()),
                decreases kwv@.len() - i,
            {
                if i >= kwv.len() {
                    break;
                }
                let ghost prev = self.st();
                let b = match self.advance() {
                    Ok(b) => b,
                    Err(f) => {
                        return Err(f);
                    },
                };
                if b != kwv[i] {
                    return Err(self.die(FaultKind::BadLiteral, b));
                }
                i = i + 1;
            }
            let ghost after_kw = self.st();
            if is_ws_byte(self.next_byte) {
                match self.advance_skip_ws() {
                    Ok(_) => {},
                    Err(f) => {
                        return Err(f);
                    },
                }
            }
            proof {
                assert(spec_post_ws(after_kw) == Ok::<_, FaultKind>(self.st()));
            }
            Ok((vt, kwv))
        } else {
            Err(self.die(FaultKind::BadLiteral, c))
        }
    }

    /// Closes the frame at `top_index` and lets its parent react to the
    /// pop, as [`spec_pop`] describes.
    fn close_frame(&mut self, top_index: usize, c: u8) -> (r: Result<TextItem, Fault>)
        requires
            old(self).wf(),
            old(self).flt() is None,
            old(self).st().stack.len() > 0,
            top_index == old(self).st().stack.len() - 1,
        ensures
            final(self).wf(),
            match r {
                Ok(t) => spec_pop(old(self).st(), top_index as int, marker(c))
                    == StepRes::Good(final(self).st(), t@) && final(self).flt() is None,
                Err(f) => spec_pop(old(self).st(), top_index as int, marker(c))
                    == StepRes::Dead(f.kind) && final(self).flt() == Some(f.kind) && fault_at(f, final(self).st()),
            },
    {
        let ghost s0 = self.st();
        let _ = self.stack.remove(top_index);
        proof {
            assert(stack_view(self.stack@) =~= s0.stack.remove(top_index as int));
        }
        if top_index == 0 {
            return Ok(TextItem::Marker(c));
        }
        let i = top_index - 1;
        let parent_state = self.stack[i].state;
        match parent_state {
            FrameState::ColonAfterReturn => {
                let ghost s1 = self.st();
                let _ = self.stack.remove(i);
                proof {
                    assert(stack_view(self.stack@) =~= s1.stack.remove(i as int));
                }
                Ok(TextItem::Marker(c))
            },
            FrameState::SquareAfterReturn => {
                let ghost s1 = self.st();
                self.stack[i].state = FrameState::SquareAfterValue;
                proof {
                    assert(stack_view(self.stack@) =~= s1.stack.update(
                        i as int,
                        (VFrame { state: FrameState::SquareAfterValue, ..s1.stack[i as int] }),
                    ));
                }
                Ok(TextItem::Marker(c))
            },
            FrameState::ColonStart => Err(self.die(FaultKind::BadLiteral, NIL)),
            FrameState::SquareStart => Err(self.die(FaultKind::BadLiteral, NIL)),
            _ => Err(self.die(FaultKind::UnexpectedByte, NIL)),
        }
    }

    /// Runs the transition of the top frame on the consumed byte `c`, as
    /// [`spec_transition`] describes.
    #[verifier::rlimit(100)]
    fn transition(&mut self, top_index: usize, c: u8) -> (r: Result<TextItem, Fault>)
        requires
            old(self).wf(),
            old(self).flt() is None,
            old(self).st().stack.len() > 0,
            top_index == old(self).st().stack.len() - 1,
        ensures
            final(self).wf(),
            match r {
                Ok(t) => spec_transition(old(self).st(), top_index as int, c)
                    == StepRes::Good(final(self).st(), t@) && final(self).flt() is None,
                Err(f) => spec_transition(old(self).st(), top_index as int, c)
                    == StepRes::Dead(f.kind) && final(self).flt() == Some(f.kind) && fault_at(f, final(self).st()),
            },
    {
        let ghost s0 = self.st();
        let ghost f0 = s0.stack[top_index as int];
        let state = self.stack[top_index].state;
        let h = self.stack[top_index].level_halves;
        match state {
            FrameState::ColonStart => {
                if c == 34 {  // '"'
                    let _ = self.stack.remove(top_index);
                    proof {
                        assert(stack_view(self.stack@) =~= s0.stack.remove(top_index as int));
                        assert(self.st() == (SState {
                            stack: s0.stack.remove(top_index as int),
                            ..s0
                        }));
                    }
                    let bs = match self.extract_string() {
                        Ok(b) => b,
                        Err(f) => {
                            return Err(f);
                        },
                    };
                    match to_string(bs) {
                        Some(txt) => Ok(TextItem::Value((ValueType::Str, txt))),
                        None => Err(self.die(FaultKind::InvalidUtf8, c)),
                    }
                } else if c == 123 {  // '{'
                    let bump: i128 = if h % 2 == 0 {
                        2
                    } else {
                        1
                    };
                    proof {
                        assert(bump as int == crate::model::bump_of(h as int));
                    }
                    if h > i128::MAX - bump {
                        return Err(self.die(FaultKind::Internal, c));
                    }
                    self.stack[top_index].state = FrameState::ColonAfterReturn;
                    self.stack.push(
                        StackItem {
                            state: FrameState::BraceStart,
                            key: String::new(),
                            level_halves: h + bump,
                            nth: 0,
                        },
                    );
                    proof {
                        assert(stack_view(self.stack@) =~= s0.stack.update(
                            top_index as int,
                            (VFrame { state: FrameState::ColonAfterReturn, ..f0 }),
                        ).push(
                            brace_frame(
                                f0.level_halves,
                                crate::model::bump_of(f0.level_halves),
                            ),
                        ));
                    }
                    Ok(TextItem::Marker(c))
                } else if c == 91 {  // '['
                    let bump: i128 = if h % 2 == 0 {
                        2
                    } else {
                        1
                    };
                    proof {
                        assert(bump as int == crate::model::bump_of(h as int));
                    }
                    if h > i128::MAX - bump {
                        return Err(self.die(FaultKind::Internal, c));
                    }
                    let key = self.stack[top_index].key.clone();
                    self.stack[top_index].state = FrameState::ColonAfterReturn;
                    self.stack.push(
                        StackItem {
                            state: FrameState::SquareStart,
                            key,
                            level_halves: h + bump,
                            nth: 0,
                        },
                    );
                    proof {
                        assert(stack_view(self.stack@) =~= s0.stack.update(
                            top_index as int,
                            (VFrame { state: FrameState::ColonAfterReturn, ..f0 }),
                        ).push(
                            square_frame(
                                f0.key,
                                f0.level_halves,
                                crate::model::bump_of(f0.level_halves),
                            ),
                        ));
                    }
                    Ok(TextItem::Marker(c))
                } else if c == 125 || c == 93 || c == 44 || c == 58 {  // '}' ']' ',' ':'
                    Err(self.die(FaultKind::UnexpectedByte, c))
                } else {
                    let _ = self.stack.remove(top_index);
                    proof {
                        assert(stack_view(self.stack@) =~= s0.stack.remove(top_index as int));
                        assert(self.st() == (SState {
                            stack: s0.stack.remove(top_index as int),
                            ..s0
                        }));
                    }
                    let (vt, bs) = match self.extract_word(c) {
                        Ok(p) => p,
                        Err(f) => {
                            return Err(f);
                        },
                    };
                    match to_string(bs) {
                        Some(txt) => Ok(TextItem::Value((vt, txt))),
                        None => Err(self.die(FaultKind::InvalidUtf8, c)),
                    }
                }
            },
            FrameState::ColonAfterReturn => {
                let _ = self.stack.remove(top_index);
                proof {
                    assert(stack_view(self.stack@) =~= s0.stack.remove(top_index as int));
                }
                Ok(TextItem::Marker(c))
            },
            FrameState::BraceStart => {
                if c == 34 {  // '"'
                    proof {
                        lemma_string_measure(s0);
                    }
                    let bs = match self.extract_string() {
                        Ok(b) => b,
                        Err(f) => {
                            return Err(f);
                        },
                    };
                    proof {
                        assert(self.st().stack == s0.stack);
                        assert(self.stack@.len() == s0.stack.len());
                    }
                    let txt = match to_string(bs) {
                        Some(t) => t,
                        None => {
                            return Err(self.die(FaultKind::InvalidUtf8, c));
                        },
                    };
                    let ghost s2 = self.st();
                    let key2 = txt.clone();
                    self.stack[top_index].key = key2;
                    self.stack[top_index].state = FrameState::BraceAfterKey;
                    proof {
                        assert(stack_view(self.stack@) =~= s2.stack.update(
                            top_index as int,
                            (VFrame { state: FrameState::BraceAfterKey, key: txt@, ..f0 }),
                        ));
                    }
                    Ok(TextItem::Key((ValueType::Str, txt)))
                } else if c == 125 {  // '}'
                    self.close_frame(top_index, c)
                } else {
                    Err(self.die(FaultKind::UnexpectedByte, c))
                }
            },
            FrameState::BraceAfterKey => {
                if c == 58 {  // ':'
                    if h > i128::MAX - 1 {
                        return Err(self.die(FaultKind::Internal, c));
                    }
                    let key = self.stack[top_index].key.clone();
                    self.stack[top_index].state = FrameState::BraceAfterColon;
                    self.stack.push(
                        StackItem {
                            state: FrameState::ColonStart,
                            key,
                            level_halves: h + 1,
                            nth: 0,
                        },
                    );
                    proof {
                        assert(stack_view(self.stack@) =~= s0.stack.update(
                            top_index as int,
                            (VFrame { state: FrameState::BraceAfterColon, ..f0 }),
                        ).push(colon_frame(f0.key, f0.level_halves)));
                    }
                    Ok(TextItem::Marker(c))
                } else {
                    Err(self.die(FaultKind::UnexpectedByte, c))
                }
            },
            FrameState::BraceAfterColon => {
                if c == 125 {  // '}'
                    self.close_frame(top_index, c)
                } else if c == 44 {  // ','
                    let nth = self.stack[top_index].nth;
                    if nth == usize::MAX {
                        return Err(self.die(FaultKind::Internal, c));
                    }
                    self.stack[top_index].state = FrameState::BraceStart;
                    self.stack[top_index].nth = nth + 1;
                    proof {
                        assert(stack_view(self.stack@) =~= s0.stack.update(
                            top_index as int,
                            (VFrame { state: FrameState::BraceStart, nth: f0.nth + 1, ..f0 }),
                        ));
                    }
                    Ok(TextItem::Marker(c))
                } else {
                    Err(self.die(FaultKind::UnexpectedByte, c))
                }
            },
            FrameState::SquareStart => {
                if c == 34 {  // '"'
                    self.stack[top_index].state = FrameState::SquareAfterValue;
                    proof {
                        assert(stack_view(self.stack@) =~= s0.stack.update(
                            top_index as int,
                            (VFrame { state: FrameState::SquareAfterValue, ..f0 }),
                        ));
                        assert(self.st() == (SState {
                            stack: s0.stack.update(
                                top_index as int,
                                (VFrame { state: FrameState::SquareAfterValue, ..f0 }),
                            ),
                            ..s0
                        }));
                    }
                    let bs = match self.extract_string() {
                        Ok(b) => b,
                        Err(f) => {
                            return Err(f);
                        },
                    };
                    match to_string(bs) {
                        Some(txt) => Ok(TextItem::Value((ValueType::Str, txt))),
                        None => Err(self.die(FaultKind::InvalidUtf8, c)),
                    }
                } else if c == 123 {  // '{'
                    let bump: i128 = if h % 2 == 0 {
                        2
                    } else {
                        1
                    };
                    proof {
                        assert(bump as int == crate::model::bump_of(h as int));
                    }
                    if h > i128::MAX - bump {
                        return Err(self.die(FaultKind::Internal, c));
                    }
                    self.stack[top_index].state = FrameState::SquareAfterReturn;
                    self.stack.push(
                        StackItem {
                            state: FrameState::BraceStart,
                            key: String::new(),
                            level_halves: h + bump,
                            nth: 0,
                        },
                    );
                    proof {
                        assert(stack_view(self.stack@) =~= s0.stack.update(
                            top_index as int,
                            (VFrame { state: FrameState::SquareAfterReturn, ..f0 }),
                        ).push(
                            brace_frame(
                                f0.level_halves,
                                crate::model::bump_of(f0.level_halves),
                            ),
                        ));
                    }
                    Ok(TextItem::Marker(c))
                } else if c == 91 {  // '['
                    let bump: i128 = if h % 2 == 0 {
                        2
                    } else {
                        1
                    };
                    proof {
                        assert(bump as int == crate::model::bump_of(h as int));
                    }
                    if h > i128::MAX - bump {
                        return Err(self.die(FaultKind::Internal, c));
                    }
                    let key = self.stack[top_index].key.clone();
                    self.stack[top_index].state = FrameState::SquareAfterReturn;
                    self.stack.push(
                        StackItem {
                            state: FrameState::SquareStart,
                            key,
                            level_halves: h + bump,
                            nth: 0,
                        },
                    );
                    proof {
                        assert(stack_view(self.stack@) =~= s0.stack.update(
                            top_index as int,
                            (VFrame { state: FrameState::SquareAfterReturn, ..f0 }),
                        ).push(
                            square_frame(
                                f0.key,
                                f0.level_halves,
                                crate::model::bump_of(f0.level_halves),
                            ),
                        ));
                    }
                    Ok(TextItem::Marker(c))
                } else if c == 93 {  // ']'
                    self.close_frame(top_index, c)
                } else if c == 44 || c == 58 || c == 125 {  // ',' ':' '}'
                    Err(self.die(FaultKind::UnexpectedByte, c))
                } else {
                    self.stack[top_index].state = FrameState::SquareAfterValue;
                    proof {
                        assert(stack_view(self.stack@) =~= s0.stack.update(
                            top_index as int,
                            (VFrame { state: FrameState::SquareAfterValue, ..f0 }),
                        ));
                        assert(self.st() == (SState {
                            stack: s0.stack.update(
                                top_index as int,
                                (VFrame { state: FrameState::SquareAfterValue, ..f0 }),
                            ),
                            ..s0
                        }));
                    }
                    let (vt, bs) = match self.extract_word(c) {
                        Ok(p) => p,
                        Err(f) => {
                            return Err(f);
                        },
                    };
                    match to_string(bs) {
                        Some(txt) => Ok(TextItem::Value((vt, txt))),
                        None => Err(self.die(FaultKind::InvalidUtf8, c)),
                    }
                }
            },
            FrameState::SquareAfterValue => {
                if c == 93 {  // ']'
                    self.close_frame(top_index, c)
                } else if c == 44 {  // ','
                    let nth = self.stack[top_index].nth;
                    if nth == usize::MAX {
                        return Err(self.die(FaultKind::Internal, c));
                    }
                    self.stack[top_index].state = FrameState::SquareStart;
                    self.stack[top_index].nth = nth + 1;
                    proof {
                        assert(stack_view(self.stack@) =~= s0.stack.update(
                            top_index as int,
                            (VFrame { state: FrameState::SquareStart, nth: f0.nth + 1, ..f0 }),
                        ));
                    }
                    Ok(TextItem::Marker(c))
                } else {
                    Err(self.die(FaultKind::UnexpectedByte, c))
                }
            },
            FrameState::SquareAfterReturn => {
                self.stack[top_index].state = FrameState::SquareAfterValue;
                proof {
                    assert(stack_view(self.stack@) =~= s0.stack.update(
                        top_index as int,
                        (VFrame { state: FrameState::SquareAfterValue, ..f0 }),
                    ));
                }
                Ok(TextItem::Marker(c))
            },
        }
    }

    /// One step of the automaton: consume the next non-whitespace byte
    /// and run the top frame's transition on it, as [`spec_step`]
    /// describes.  A session that already hit a fatal fault reports that
    /// same fault and does not move.
    pub fn walk_forward(&mut self) -> (r: Result<TextItem, Fault>)
        requires
            old(self).wf(),
        ensures
            final(self).wf(),
            (match old(self).flt() {
                Some(k) => final(self).st() == old(self).st() && final(self).flt() == old(self).flt() && (r matches Err(f) && f.kind == k && fault_at(f, final(self).st())),
                None => (match spec_step(old(self).st()) {
                    StepRes::Good(s2, it) => (r matches Ok(t) && t@ == it) && final(self).st()
                        == s2 && final(self).flt() is None,
                    StepRes::Dead(k) => (r matches Err(f) && f.kind == k && fault_at(
                        f,
                        final(self).st(),
                    )) && final(self).flt() == Some(k),
                }),
            }),
    {
        match &self.failed {
            Some(f) => {
                return Err(f.duplicate());
            },
            None => {},
        }
        let c = match self.advance_skip_ws() {
            Ok(c) => c,
            Err(f) => {
                return Err(f);
            },
        };
        let l = self.stack.len();
        if l == 0 {
            return Err(self.die(FaultKind::TrailingData, c));
        }
        self.transition(l - 1, c)
    }

    /// Reports the recorded fatal fault of a dead session as an error.
    fn dead_error(&self) -> (r: Error)
        requires
            self.wf(),
            self.flt() is Some,
        ensures
            r.kind == ErrorKind::Fatal,
            (r.fault matches Some(f) && Some(f.kind) == self.flt() && fault_at(f, self.st())),
    {
        match &self.failed {
            Some(f) => Error::from_fault(f.duplicate()),
            None => Error::new_eos(),
        }
    }

    /// Reports an exhausted source: the recoverable end of stream once
    /// the stack has unwound to the root, the fatal truncation while a
    /// container is still open.
    fn exhausted_error(&mut self) -> (e: Error)
        requires
            old(self).wf(),
            old(self).flt() is None,
        ensures
            final(self).wf(),
            (match spec_exhausted(old(self).st()) {
                NavRes::Eos(s1) => e.kind == ErrorKind::EOS && s1 == old(self).st() && final(self).st() == old(self).st() && final(self).flt() is None,
                NavRes::Dead(k) => e.kind == ErrorKind::Fatal && (e.fault matches Some(f)
                    && f.kind == k && fault_at(f, final(self).st())) && final(self).flt()
                    == Some(k) && final(self).st() == old(self).st(),
                _ => false,
            }),
    {
        if self.stack.len() <= 1 {
            Error::new_eos()
        } else {
            Error::from_fault(self.die(FaultKind::Truncated, NIL))
        }
    }

    /// The next key or value in the document, at whatever level it
    /// appears; structural markers are passed over.  End of stream is the
    /// recoverable outcome once no item remains.  Exhaustion while a
    /// container is still open is the fatal truncation.
    #[verifier::rlimit(100)]
    pub fn next_item(&mut self) -> (r: Result<Item, Error>)
        requires
            old(self).wf(),
        ensures
            final(self).wf(),
            (match old(self).flt() {
                Some(k) => final(self).st() == old(self).st() && final(self).flt() == old(self).flt() && (r matches Err(e) && e.kind == ErrorKind::Fatal && (e.fault matches
                Some(f) && f.kind == k && fault_at(f, final(self).st()))),
                None => (match spec_next_item(old(self).st()) {
                    NavRes::Found(kind, vt, tx, s2) => (r matches Ok(item) && item.0 == vt
                        && item.1@ == tx) && final(self).st() == s2 && final(self).flt()
                        is None,
                    NavRes::Eos(s1) => (r matches Err(e) && e.kind == ErrorKind::EOS) && final(self).st() == s1 && final(self).flt() is None,
                    NavRes::Dead(k) => (r matches Err(e) && e.kind == ErrorKind::Fatal && (
                    e.fault matches Some(f) && f.kind == k && fault_at(f, final(self).st()))) && final(self).flt() == Some(k),
                }),
            }),
    {
        if self.failed.is_some() {
            return Err(self.dead_error());
        }
        loop
            invariant
                self.wf(),
                self.flt() is None,
                old(self).flt() is None,
                spec_next_item(old(self).st()) == spec_next_item(self.st()),
            decreases measure(self.st()),
        {
            if self.peek() == NIL {
                proof {
                    assert(spec_next_item(self.st()) == spec_exhausted(self.st()));
                }
                return Err(self.exhausted_error());
            }
            let ghost prev = self.st();
            proof {
                lemma_step_measure(prev);
            }
            match self.walk_forward() {
                Err(f) => {
                    proof {
                        assert(spec_next_item(prev) == NavRes::Dead(f.kind));
                    }
                    return Err(Error::from_fault(f));
                },
                Ok(t) => match t {
                    TextItem::Key(item) => {
                        proof {
                            assert(spec_next_item(prev) == NavRes::Found(
                                VItemKind::Key,
                                item.0,
                                item.1@,
                                self.st(),
                            ));
                        }
                        return Ok(item);
                    },
                    TextItem::Value(item) => {
                        proof {
                            assert(spec_next_item(prev) == NavRes::Found(
                                VItemKind::Value,
                                item.0,
                                item.1@,
                                self.st(),
                            ));
                        }
                        return Ok(item);
                    },
                    TextItem::Marker(_) => {
                        proof {
                            assert(spec_next_item(prev) == spec_next_item(self.st()));
                        }
                    },
                },
            }
        }
    }

    /// The next key in the document; values and structural markers are
    /// passed over.
    #[verifier::rlimit(100)]
    pub fn next_key(&mut self) -> (r: Result<Item, Error>)
        requires
            old(self).wf(),
        ensures
            final(self).wf(),
            (match old(self).flt() {
                Some(k) => final(self).st() == old(self).st() && final(self).flt() == old(self).flt() && (r matches Err(e) && e.kind == ErrorKind::Fatal && (e.fault matches
                Some(f) && f.kind == k && fault_at(f, final(self).st()))),
                None => (match spec_next_key(old(self).st()) {
                    NavRes::Found(kind, vt, tx, s2) => (r matches Ok(item) && item.0 == vt
                        && item.1@ == tx) && final(self).st() == s2 && final(self).flt()
                        is None,
                    NavRes::Eos(s1) => (r matches Err(e) && e.kind == ErrorKind::EOS) && final(self).st() == s1 && final(self).flt() is None,
                    NavRes::Dead(k) => (r matches Err(e) && e.kind == ErrorKind::Fatal && (
                    e.fault matches Some(f) && f.kind == k && fault_at(f, final(self).st()))) && final(self).flt() == Some(k),
                }),
            }),
    {
        if self.failed.is_some() {
            return Err(self.dead_error());
        }
        loop
            invariant
                self.wf(),
                self.flt() is None,
                old(self).flt() is None,
                spec_next_key(old(self).st()) == spec_next_key(self.st()),
            decreases measure(self.st()),
        {
            if self.peek() == NIL {
                proof {
                    assert(spec_next_key(self.st()) == spec_exhausted(self.st()));
                }
                return Err(self.exhausted_error());
            }
            let ghost prev = self.st();
            proof {
                lemma_step_measure(prev);
            }
            match self.walk_forward() {
                Err(f) => {
                    proof {
                        assert(spec_next_key(prev) == NavRes::Dead(f.kind));
                    }
                    return Err(Error::from_fault(f));
                },
                Ok(t) => match t {
                    TextItem::Key(item) => {
                        proof {
                            assert(spec_next_key(prev) == NavRes::Found(
                                VItemKind::Key,
                                item.0,
                                item.1@,
                                self.st(),
                            ));
                        }
                        return Ok(item);
                    },
                    TextItem::Value(_) => {
                        proof {
                            assert(spec_next_key(prev) == spec_next_key(self.st()));
                        }
                    },
                    TextItem::Marker(_) => {
                        proof {
                            assert(spec_next_key(prev) == spec_next_key(self.st()));
                        }
                    },
                },
            }
        }
    }

    /// Parses forward until a key named `name` appears; keys that do not
    /// match are passed over, and the scan never restarts.
    #[verifier::rlimit(100)]
    pub fn next_key_by_name(&mut self, name: &str) -> (r: Result<Item, Error>)
        requires
            old(self).wf(),
        ensures
            final(self).wf(),
            (match old(self).flt() {
                Some(k) => final(self).st() == old(self).st() && final(self).flt() == old(self).flt() && (r matches Err(e) && e.kind == ErrorKind::Fatal && (e.fault matches
                Some(f) && f.kind == k && fault_at(f, final(self).st()))),
                None => (match spec_next_key_by_name(old(self).st(), name@) {
                    NavRes::Found(kind, vt, tx, s2) => (r matches Ok(item) && item.0 == vt
                        && item.1@ == tx && tx == name@) && final(self).st() == s2 && final(self).flt() is None,
                    NavRes::Eos(s1) => (r matches Err(e) && e.kind == ErrorKind::EOS) && final(self).st() == s1 && final(self).flt() is None,
                    NavRes::Dead(k) => (r matches Err(e) && e.kind == ErrorKind::Fatal && (
                    e.fault matches Some(f) && f.kind == k && fault_at(f, final(self).st()))) && final(self).flt() == Some(k),
                }),
            }),
    {
        if self.failed.is_some() {
            return Err(self.dead_error());
        }
        let owned: String = name.to_owned();
        loop
            invariant
                self.wf(),
                self.flt() is None,
                old(self).flt() is None,
                owned@ == name@,
                spec_next_key_by_name(old(self).st(), name@) == spec_next_key_by_name(
                    self.st(),
                    name@,
                ),
            decreases measure(self.st()),
        {
            let ghost prev = self.st();
            proof {
                lemma_next_key_measure(prev);
            }
            match self.next_key() {
                Err(e) => {
                    return Err(e);
                },
                Ok(item) => {
                    if item.1 == owned {
                        proof {
                            assert(spec_next_key_by_name(prev, name@) matches NavRes::Found(
                                k2,
                                vt2,
                                tx2,
                                s2,
                            ) && vt2 == item.0 && tx2 == item.1@ && s2 == final(self).st());
                        }
                        return Ok(item);
                    }
                    proof {
                        assert(spec_next_key_by_name(prev, name@) == spec_next_key_by_name(
                            self.st(),
                            name@,
                        ));
                    }
                },
            }
        }
    }
    /// Parse forward until the level coordinate differs from the current
    /// one by `offset_halves`.  The result reports whether further data
    /// can follow at that level: it is false when the target is below
    /// the first addressable level, when the stream ends first, and when
    /// the position reached is the last of its container.
    pub fn seek_by_level_offset(&mut self, offset_halves: i128) -> (r: Result<bool, Error>)
        requires
            old(self).wf(),
        ensures
            final(self).wf(),
            (match old(self).flt() {
                Some(k) => final(self).st() == old(self).st() && final(self).flt() == old(self).flt() && (r matches Err(e) && e.kind == ErrorKind::Fatal && (e.fault matches
                Some(f) && f.kind == k && fault_at(f, final(self).st()))),
                None => (match spec_seek_full(old(self).st(), offset_halves as int) {
                    SeekRes::Done(b, s1) => (r matches Ok(bb) && bb == b) && final(self).st()
                        == s1 && final(self).flt() is None,
                    SeekRes::Dead(k) => (r matches Err(e) && e.kind == ErrorKind::Fatal && (
                    e.fault matches Some(f) && f.kind == k && fault_at(f, final(self).st()))) && final(self).flt() == Some(k),
                }),
            }),
    {
        if self.failed.is_some() {
            return Err(self.dead_error());
        }
        let l = self.stack.len();
        if l == 0 {
            return Err(Error::from_fault(self.die(FaultKind::TrailingData, self.next_byte)));
        }
        let h = self.stack[l - 1].level_halves;
        proof {
            assert(h as int == old(self).st().stack.last().level_halves);
        }
        let ghost tt: int = h + offset_halves;
        if offset_halves < 0 && h < i128::MIN - offset_halves {
            return Ok(false);
        }
        let t: i128 = if offset_halves > 0 && h > i128::MAX - offset_halves {
            0
        } else {
            h + offset_halves
        };
        let pos_over = offset_halves > 0 && h > i128::MAX - offset_halves;
        if !pos_over && t < 2 {
            return Ok(false);
        }
        proof {
            assert(tt >= 2);
            assert(!pos_over ==> t == tt);
            assert(pos_over ==> tt > i128::MAX);
        }
        loop
            invariant
                self.wf(),
                self.flt() is None,
                old(self).flt() is None,
                tt >= 2,
                pos_over ==> tt > i128::MAX,
                !pos_over ==> t == tt,
                spec_seek_full(old(self).st(), offset_halves as int) == spec_seek(
                    self.st(),
                    tt,
                ),
            decreases measure(self.st()),
        {
            if self.peek() == NIL {
                if self.stack.len() <= 1 {
                    proof {
                        assert(spec_seek(self.st(), tt) == SeekRes::Done(false, self.st()));
                    }
                    return Ok(false);
                } else {
                    proof {
                        assert(spec_seek(self.st(), tt) == SeekRes::Dead(FaultKind::Truncated));
                    }
                    return Err(Error::from_fault(self.die(FaultKind::Truncated, NIL)));
                }
            }
            let ghost prev = self.st();
            proof {
                lemma_step_measure(prev);
            }
            match self.walk_forward() {
                Err(f) => {
                    return Err(Error::from_fault(f));
                },
                Ok(_) => {
                    let l2 = self.stack.len();
                    if l2 > 0 {
                        let lv = self.stack[l2 - 1].level_halves;
                        proof {
                            assert(lv as int == self.st().stack.last().level_halves);
                        }
                        let hit = if pos_over {
                            false
                        } else {
                            lv == t
                        };
                        proof {
                            if pos_over {
                                assert(lv as int <= i128::MAX);
                            }
                            assert(hit == (self.st().stack.last().level_halves == tt));
                        }
                        if hit {
                            let b = self.next_byte;
                            proof {
                                assert(spec_seek(prev, tt) == SeekRes::Done(
                                    b != 125 && b != 93,
                                    self.st(),
                                ));
                            }
                            return Ok(b != 125 && b != 93);
                        }
                    }
                    proof {
                        assert(spec_seek(prev, tt) == spec_seek(self.st(), tt));
                    }
                },
            }
        }
    }

    /// The fractional part of the top frame's level, in half-steps.
    fn top_frac(&self) -> (r: i128)
        requires
            self.st().stack.len() > 0,
        ensures
            r as int == frac_halves(self.st().stack.last().level_halves),
            0 <= r <= 1,
    {
        let l = self.stack.len();
        proof {
            assert(self.stack@[l - 1]@ == self.st().stack.last());
        }
        let h = self.stack[l - 1].level_halves;
        let m = h % 2;
        if m < 0 {
            m + 2
        } else {
            m
        }
    }

    /// The next sibling key: the next key at the same level as the
    /// current position, or end of stream at the last sibling.
    pub fn next_sibling_key(&mut self) -> (r: Result<Item, Error>)
        requires
            old(self).wf(),
        ensures
            final(self).wf(),
            (match old(self).flt() {
                Some(k) => final(self).st() == old(self).st() && final(self).flt() == old(self).flt() && (r matches Err(e) && e.kind == ErrorKind::Fatal && (e.fault matches
                Some(f) && f.kind == k && fault_at(f, final(self).st()))),
                None => (match spec_key_after_seek(
                    old(self).st(),
                    frac_halves(spec_current_level(old(self).st())),
                ) {
                    NavRes::Found(kind, vt, tx, s2) => (r matches Ok(item) && item.0 == vt
                        && item.1@ == tx) && final(self).st() == s2 && final(self).flt()
                        is None,
                    NavRes::Eos(s1) => (r matches Err(e) && e.kind == ErrorKind::EOS) && final(self).st() == s1 && final(self).flt() is None,
                    NavRes::Dead(k) => (r matches Err(e) && e.kind == ErrorKind::Fatal && (
                    e.fault matches Some(f) && f.kind == k && fault_at(f, final(self).st()))) && final(self).flt() == Some(k),
                }),
            }),
    {
        if self.failed.is_some() {
            return Err(self.dead_error());
        }
        if self.peek() == NIL {
            return Err(self.exhausted_error());
        }
        let l = self.stack.len();
        if l == 0 {
            return Err(Error::from_fault(self.die(FaultKind::TrailingData, self.next_byte)));
        }
        let fr = self.top_frac();
        match self.seek_by_level_offset(fr) {
            Err(e) => Err(e),
            Ok(true) => self.next_key(),
            Ok(false) => Err(Error::new_eos()),
        }
    }

    /// The next child key: the first key exactly one level below the
    /// current node, inside the current node's own value.  A scalar
    /// value holds no key, so it is consumed and end of stream is
    /// reported; keys of deeper descendants never count.
    pub fn next_child_key(&mut self) -> (r: Result<Item, Error>)
        requires
            old(self).wf(),
        ensures
            final(self).wf(),
            (match old(self).flt() {
                Some(k) => final(self).st() == old(self).st() && final(self).flt() == old(self).flt() && (r matches Err(e) && e.kind == ErrorKind::Fatal && (e.fault matches
                Some(f) && f.kind == k && fault_at(f, final(self).st()))),
                None => (match spec_next_child(old(self).st()) {
                    NavRes::Found(kind, vt, tx, s2) => (r matches Ok(item) && item.0 == vt
                        && item.1@ == tx) && final(self).st() == s2 && final(self).flt()
                        is None,
                    NavRes::Eos(s1) => (r matches Err(e) && e.kind == ErrorKind::EOS) && final(self).st() == s1 && final(self).flt() is None,
                    NavRes::Dead(k) => (r matches Err(e) && e.kind == ErrorKind::Fatal && (
                    e.fault matches Some(f) && f.kind == k && fault_at(f, final(self).st()))) && final(self).flt() == Some(k),
                }),
            }),
    {
        if self.failed.is_some() {
            return Err(self.dead_error());
        }
        if self.peek() == NIL {
            return Err(self.exhausted_error());
        }
        let l = self.stack.len();
        if l == 0 {
            return Err(Error::from_fault(self.die(FaultKind::TrailingData, self.next_byte)));
        }
        let h = self.stack[l - 1].level_halves;
        proof {
            assert(h as int == old(self).st().stack.last().level_halves);
        }
        let m = h % 2;
        let fr: i128 = if m < 0 {
            m + 2
        } else {
            m
        };
        proof {
            assert(fr as int == (h as int) % 2);
            assert(h == i128::MIN ==> h % 2 == 0);
        }
        let base = h - fr;
        let ghost bb: int = h as int - (h as int) % 2;
        let ghost tt: int = h as int + 2 - (h as int) % 2;
        let over = h > i128::MAX - (2 - fr);
        let target: i128 = if over {
            0
        } else {
            h + (2 - fr)
        };
        proof {
            assert(base as int == bb);
            assert(over ==> tt > i128::MAX);
            assert(!over ==> target as int == tt);
        }
        loop
            invariant
                self.wf(),
                self.flt() is None,
                old(self).flt() is None,
                base as int == bb,
                tt == bb + 2,
                over ==> tt > i128::MAX,
                !over ==> target as int == tt,
                spec_next_child(old(self).st()) == spec_child_scan(self.st(), bb, tt),
            decreases measure(self.st()),
        {
            if self.peek() == NIL {
                proof {
                    assert(spec_child_scan(self.st(), bb, tt) == spec_exhausted(self.st()));
                }
                return Err(self.exhausted_error());
            }
            let ghost prev = self.st();
            proof {
                lemma_step_measure(prev);
            }
            match self.walk_forward() {
                Err(f) => {
                    return Err(Error::from_fault(f));
                },
                Ok(t) => {
                    let l2 = self.stack.len();
                    let lv: i128 = if l2 == 0 {
                        -2
                    } else {
                        self.stack[l2 - 1].level_halves
                    };
                    proof {
                        assert(lv as int == spec_current_level(self.st()));
                    }
                    let at_target = if over {
                        false
                    } else {
                        lv == target
                    };
                    proof {
                        if over {
                            assert(lv as int <= i128::MAX);
                        }
                        assert(at_target == (lv as int == tt));
                    }
                    if at_target {
                        match t {
                            TextItem::Key(item) => {
                                return Ok(item);
                            },
                            TextItem::Value(_) => {},
                            TextItem::Marker(_) => {},
                        }
                    } else if lv <= base {
                        return Err(Error::new_eos());
                    }
                    proof {
                        if let StepRes::Good(s2, it) = spec_step(prev) {
                            assert(s2 == self.st());
                            assert(spec_current_level(s2) == lv as int);
                            assert(!(spec_current_level(s2) == tt && it.kind is Key));
                            assert(!(spec_current_level(s2) <= bb));
                            assert(spec_child_scan(prev, bb, tt) == spec_child_scan(
                                s2,
                                bb,
                                tt,
                            ));
                        }
                    }
                },
            }
        }
    }

    /// The next unread key of the enclosing container, one level above
    /// the current position.
    pub fn next_key_from_parent(&mut self) -> (r: Result<Item, Error>)
        requires
            old(self).wf(),
        ensures
            final(self).wf(),
            (match old(self).flt() {
                Some(k) => final(self).st() == old(self).st() && final(self).flt() == old(self).flt() && (r matches Err(e) && e.kind == ErrorKind::Fatal && (e.fault matches
                Some(f) && f.kind == k && fault_at(f, final(self).st()))),
                None => (match spec_key_after_seek(
                    old(self).st(),
                    frac_halves(spec_current_level(old(self).st())) - 2,
                ) {
                    NavRes::Found(kind, vt, tx, s2) => (r matches Ok(item) && item.0 == vt
                        && item.1@ == tx) && final(self).st() == s2 && final(self).flt()
                        is None,
                    NavRes::Eos(s1) => (r matches Err(e) && e.kind == ErrorKind::EOS) && final(self).st() == s1 && final(self).flt() is None,
                    NavRes::Dead(k) => (r matches Err(e) && e.kind == ErrorKind::Fatal && (
                    e.fault matches Some(f) && f.kind == k && fault_at(f, final(self).st()))) && final(self).flt() == Some(k),
                }),
            }),
    {
        if self.failed.is_some() {
            return Err(self.dead_error());
        }
        if self.peek() == NIL {
            return Err(self.exhausted_error());
        }
        let l = self.stack.len();
        if l == 0 {
            return Err(Error::from_fault(self.die(FaultKind::TrailingData, self.next_byte)));
        }
        let fr = self.top_frac();
        match self.seek_by_level_offset(fr - 2) {
            Err(e) => Err(e),
            Ok(true) => self.next_key(),
            Ok(false) => Err(Error::new_eos()),
        }
    }

    /// The next key or value emitted from a position whose level
    /// coordinate equals `target_halves`.
    pub fn next_item_by_level(&mut self, target_halves: i128) -> (r: Result<Item, Error>)
        requires
            old(self).wf(),
        ensures
            final(self).wf(),
            (match old(self).flt() {
                Some(k) => final(self).st() == old(self).st() && final(self).flt() == old(self).flt() && (r matches Err(e) && e.kind == ErrorKind::Fatal && (e.fault matches
                Some(f) && f.kind == k && fault_at(f, final(self).st()))),
                None => (match spec_next_item_by_level(old(self).st(), target_halves as int) {
                    NavRes::Found(kind, vt, tx, s2) => (r matches Ok(item) && item.0 == vt
                        && item.1@ == tx) && final(self).st() == s2 && final(self).flt()
                        is None,
                    NavRes::Eos(s1) => (r matches Err(e) && e.kind == ErrorKind::EOS) && final(self).st() == s1 && final(self).flt() is None,
                    NavRes::Dead(k) => (r matches Err(e) && e.kind == ErrorKind::Fatal && (
                    e.fault matches Some(f) && f.kind == k && fault_at(f, final(self).st()))) && final(self).flt() == Some(k),
                }),
            }),
    {
        if self.failed.is_some() {
            return Err(self.dead_error());
        }
        loop
            invariant
                self.wf(),
                self.flt() is None,
                old(self).flt() is None,
                spec_next_item_by_level(old(self).st(), target_halves as int)
                    == spec_next_item_by_level(self.st(), target_halves as int),
            decreases measure(self.st()),
        {
            if self.peek() == NIL {
                return Err(self.exhausted_error());
            }
            let ghost prev = self.st();
            proof {
                lemma_step_measure(prev);
            }
            match self.walk_forward() {
                Err(f) => {
                    return Err(Error::from_fault(f));
                },
                Ok(t) => {
                    let l2 = self.stack.len();
                    let lv: i128 = if l2 == 0 {
                        -2
                    } else {
                        self.stack[l2 - 1].level_halves
                    };
                    proof {
                        assert(lv as int == spec_current_level(self.st()));
                    }
                    if lv == target_halves {
                        match t {
                            TextItem::Key(item) => {
                                return Ok(item);
                            },
                            TextItem::Value(item) => {
                                return Ok(item);
                            },
                            TextItem::Marker(_) => {},
                        }
                    }
                },
            }
        }
    }

    /// Walk `n` emitted items forward, keys, values and structural
    /// markers alike.
    pub fn move_n_element_forward(&mut self, n: usize) -> (r: Result<(), Error>)
        requires
            old(self).wf(),
        ensures
            final(self).wf(),
            (match old(self).flt() {
                Some(k) => final(self).st() == old(self).st() && final(self).flt() == old(self).flt() && (r matches Err(e) && e.kind == ErrorKind::Fatal && (e.fault matches
                Some(f) && f.kind == k && fault_at(f, final(self).st()))),
                None => (match crate::model::spec_move_n(old(self).st(), n as nat) {
                    Ok(s1) => r is Ok && final(self).st() == s1 && final(self).flt() is None,
                    Err(k) => (r matches Err(e) && e.kind == ErrorKind::Fatal && (
                    e.fault matches Some(f) && f.kind == k && fault_at(f, final(self).st()))) && final(self).flt() == Some(k),
                }),
            }),
    {
        if self.failed.is_some() {
            return Err(self.dead_error());
        }
        let mut i: usize = 0;
        while i < n
            invariant
                self.wf(),
                self.flt() is None,
                old(self).flt() is None,
                i <= n,
                crate::model::spec_move_n(old(self).st(), n as nat) == crate::model::spec_move_n(
                    self.st(),
                    (n - i) as nat,
                ),
            decreases n - i,
        {
            match self.walk_forward() {
                Err(f) => {
                    return Err(Error::from_fault(f));
                },
                Ok(_) => {},
            }
            i = i + 1;
        }
        Ok(())
    }
    /// One key or value read wholesale; a structural marker here means
    /// the cursor was not standing at an item, which is fatal.
    fn extract_item(&mut self) -> (r: Result<Item, Fault>)
        requires
            old(self).wf(),
            old(self).flt() is None,
        ensures
            final(self).wf(),
            match r {
                Ok(item) => (spec_extract_item(old(self).st()) matches Ok((vt, tx, s2)) && vt
                    == item.0 && tx == item.1@ && s2 == final(self).st()) && final(self).flt()
                    is None,
                Err(f) => spec_extract_item(old(self).st()) == Err::<
                    (ValueType, Seq<char>, SState),
                    _,
                >(f.kind) && final(self).flt() == Some(f.kind) && fault_at(f, final(self).st()),
            },
    {
        match self.walk_forward() {
            Err(f) => Err(f),
            Ok(t) => match t {
                TextItem::Key(item) => Ok(item),
                TextItem::Value(item) => Ok(item),
                TextItem::Marker(b) => Err(self.die(FaultKind::UnexpectedByte, b)),
            },
        }
    }

    /// Materializes one value at the cursor: a scalar becomes a leaf, a
    /// bracket a sequence, a brace a mapping.
    fn mat_value(&mut self) -> (r: Result<Content, Fault>)
        requires
            old(self).wf(),
            old(self).flt() is None,
        ensures
            final(self).wf(),
            match r {
                Ok(c) => spec_extract_value(old(self).st()) == Ok::<_, FaultKind>(
                    (content_view(c), final(self).st()),
                ) && final(self).flt() is None,
                Err(f) => spec_extract_value(old(self).st()) == Err::<(VContent, SState), _>(
                    f.kind,
                ) && final(self).flt() == Some(f.kind) && fault_at(f, final(self).st()),
            },
        decreases measure(self.st()), 0nat,
    {
        let b = self.peek();
        if b == 91 {  // '['
            let ghost prev = self.st();
            proof {
                lemma_step_measure(prev);
            }
            match self.walk_forward() {
                Err(f) => Err(f),
                Ok(_) => self.mat_array(),
            }
        } else if b == 123 {  // '{'
            let ghost prev = self.st();
            proof {
                lemma_step_measure(prev);
            }
            match self.walk_forward() {
                Err(f) => Err(f),
                Ok(_) => self.mat_object(),
            }
        } else {
            match self.walk_forward() {
                Err(f) => Err(f),
                Ok(t) => match t {
                    TextItem::Value(item) => Ok(Content::Simple(item)),
                    TextItem::Key(_) => Err(self.die(FaultKind::UnexpectedByte, b)),
                    TextItem::Marker(_) => Err(self.die(FaultKind::UnexpectedByte, b)),
                },
            }
        }
    }

    /// Materializes the elements of an array whose opening bracket was
    /// consumed.
    #[verifier::rlimit(100)]
    fn mat_array(&mut self) -> (r: Result<Content, Fault>)
        requires
            old(self).wf(),
            old(self).flt() is None,
        ensures
            final(self).wf(),
            match r {
                Ok(c) => spec_extract_array(old(self).st(), Seq::empty()) == Ok::<_, FaultKind>(
                    (content_view(c), final(self).st()),
                ) && final(self).flt() is None,
                Err(f) => spec_extract_array(old(self).st(), Seq::empty()) == Err::<
                    (VContent, SState),
                    _,
                >(f.kind) && final(self).flt() == Some(f.kind) && fault_at(f, final(self).st()),
            },
        decreases measure(self.st()), 1nat,
    {
        let mut items: Vec<Content> = Vec::new();
        proof {
            assert(array_view(items@) =~= Seq::<VContent>::empty());
        }
        loop
            invariant
                self.wf(),
                self.flt() is None,
                old(self).flt() is None,
                measure(self.st()) <= measure(old(self).st()),
                (match spec_extract_array(self.st(), array_view(items@)) {
                    Ok((v, s2)) => spec_extract_array(old(self).st(), Seq::empty()) == Ok::<
                        _,
                        FaultKind,
                    >((v, s2)),
                    Err(k) => spec_extract_array(old(self).st(), Seq::empty()) == Err::<
                        (VContent, SState),
                        _,
                    >(k),
                }),
            decreases measure(self.st()),
        {
            let b = self.peek();
            let ghost prev = self.st();
            let ghost accv = array_view(items@);
            if b == 44 {  // ','
                proof {
                    lemma_step_measure(prev);
                }
                match self.walk_forward() {
                    Err(f) => {
                        return Err(f);
                    },
                    Ok(_) => {},
                }
            } else if b == 93 {  // ']'
                proof {
                    lemma_step_measure(prev);
                }
                match self.walk_forward() {
                    Err(f) => {
                        return Err(f);
                    },
                    Ok(_) => {
                        proof {
                            assert(content_view(Content::Array(items)) == VContent::Array(
                                accv,
                            ));
                        }
                        return Ok(Content::Array(items));
                    },
                }
            } else {
                proof {
                    lemma_extract_value_measure(prev);
                }
                match self.mat_value() {
                    Err(f) => {
                        return Err(f);
                    },
                    Ok(c) => {
                        let ghost cv = content_view(c);
                        let ghost items_prev = items@;
                        items.push(c);
                        proof {
                            assert(items@.drop_last() =~= items_prev);
                            assert(array_view(items@) == accv.push(cv));
                        }
                    },
                }
            }
        }
    }

    /// Materializes the members of an object whose opening brace was
    /// consumed, in document order.
    #[verifier::rlimit(100)]
    fn mat_object(&mut self) -> (r: Result<Content, Fault>)
        requires
            old(self).wf(),
            old(self).flt() is None,
        ensures
            final(self).wf(),
            match r {
                Ok(c) => spec_extract_object(old(self).st(), Seq::empty()) == Ok::<
                    _,
                    FaultKind,
                >((content_view(c), final(self).st())) && final(self).flt() is None,
                Err(f) => spec_extract_object(old(self).st(), Seq::empty()) == Err::<
                    (VContent, SState),
                    _,
                >(f.kind) && final(self).flt() == Some(f.kind) && fault_at(f, final(self).st()),
            },
        decreases measure(self.st()), 1nat,
    {
        let mut members: Vec<(String, Content)> = Vec::new();
        proof {
            assert(object_view(members@) =~= Seq::<(Seq<char>, VContent)>::empty());
        }
        loop
            invariant
                self.wf(),
                self.flt() is None,
                old(self).flt() is None,
                measure(self.st()) <= measure(old(self).st()),
                (match spec_extract_object(self.st(), object_view(members@)) {
                    Ok((v, s2)) => spec_extract_object(old(self).st(), Seq::empty()) == Ok::<
                        _,
                        FaultKind,
                    >((v, s2)),
                    Err(k) => spec_extract_object(old(self).st(), Seq::empty()) == Err::<
                        (VContent, SState),
                        _,
                    >(k),
                }),
            decreases measure(self.st()),
        {
            let b = self.peek();
            let ghost prev = self.st();
            let ghost accv = object_view(members@);
            if b == 125 {  // '}'
                proof {
                    lemma_step_measure(prev);
                }
                match self.walk_forward() {
                    Err(f) => {
                        return Err(f);
                    },
                    Ok(_) => {
                        proof {
                            assert(content_view(Content::Object(members)) == VContent::Object(
                                accv,
                            ));
                        }
                        return Ok(Content::Object(members));
                    },
                }
            } else {
                proof {
                    lemma_extract_item_measure(prev);
                }
                let key_item = match self.extract_item() {
                    Err(f) => {
                        return Err(f);
                    },
                    Ok(it) => it,
                };
                let ghost s1 = self.st();
                proof {
                    lemma_step_measure(s1);
                }
                match self.walk_forward() {
                    Err(f) => {
                        return Err(f);
                    },
                    Ok(_) => {},
                }
                let ghost s2g = self.st();
                proof {
                    lemma_extract_value_measure(s2g);
                }
                let val = match self.mat_value() {
                    Err(f) => {
                        return Err(f);
                    },
                    Ok(v) => v,
                };
                let ghost keyv = key_item.1@;
                let ghost valv = content_view(val);
                let ghost members_prev = members@;
                members.push((key_item.1, val));
                proof {
                    assert(members@.drop_last() =~= members_prev);
                    assert(object_view(members@) == accv.push((keyv, valv)));
                }
                let ghost s3g = self.st();
                let b2 = self.peek();
                if b2 == 44 {  // ','
                    proof {
                        lemma_step_measure(s3g);
                    }
                    match self.walk_forward() {
                        Err(f) => {
                            return Err(f);
                        },
                        Ok(_) => {},
                    }
                } else if b2 == 125 {  // '}'
                    proof {
                        lemma_step_measure(s3g);
                    }
                    match self.walk_forward() {
                        Err(f) => {
                            return Err(f);
                        },
                        Ok(_) => {
                            proof {
                                assert(content_view(Content::Object(members))
                                    == VContent::Object(accv.push((keyv, valv))));
                            }
                            return Ok(Content::Object(members));
                        },
                    }
                } else {
                    return Err(self.die(FaultKind::UnexpectedByte, b2));
                }
            }
        }
    }

    /// Walk past pending colons, commas and object frames, so that the
    /// cursor stands right before a value.
    pub fn walk_before_value(&mut self) -> (r: Result<(), Fault>)
        requires
            old(self).wf(),
            old(self).flt() is None,
        ensures
            final(self).wf(),
            match r {
                Ok(_) => spec_before_value(old(self).st()) == Ok::<_, FaultKind>(
                    final(self).st(),
                ) && final(self).flt() is None,
                Err(f) => spec_before_value(old(self).st()) == Err::<SState, _>(f.kind)
                    && final(self).flt() == Some(f.kind) && fault_at(f, final(self).st()),
            },
    {
        loop
            invariant
                self.wf(),
                self.flt() is None,
                old(self).flt() is None,
                spec_before_value(old(self).st()) == spec_before_value(self.st()),
            decreases measure(self.st()),
        {
            let b = self.peek();
            let l = self.stack.len();
            let mut cond = b == 58 || b == 44;
            if !cond && l > 0 {
                cond = self.stack[l - 1].symbol() == '{';
            }
            proof {
                if l > 0 {
                    assert(self.stack@[l - 1]@ == self.st().stack.last());
                }
            }
            if !cond {
                return Ok(());
            }
            let ghost prev = self.st();
            proof {
                lemma_step_measure(prev);
                lemma_step_zero(prev);
            }
            match self.walk_forward() {
                Err(f) => {
                    return Err(f);
                },
                Ok(_) => {
                    proof {
                        if prev.ahead == 0 {
                            assert(false);
                        }
                    }
                },
            }
        }
    }

    /// Materializes the value at the cursor.  The index argument is kept
    /// for callers that track the stack top; the extraction itself works
    /// from the cursor alone.
    pub fn extract_current_value(&mut self, _top_index: usize) -> (r: Result<Content, Fault>)
        requires
            old(self).wf(),
        ensures
            final(self).wf(),
            (match old(self).flt() {
                Some(k) => final(self).st() == old(self).st() && final(self).flt() == old(self).flt()
                    && (r matches Err(f) && f.kind == k && fault_at(f, final(self).st())),
                None => (match r {
                    Ok(c) => spec_extract_value(old(self).st()) == Ok::<_, FaultKind>(
                        (content_view(c), final(self).st()),
                    ) && final(self).flt() is None,
                    Err(f) => spec_extract_value(old(self).st()) == Err::<
                        (VContent, SState),
                        _,
                    >(f.kind) && final(self).flt() == Some(f.kind) && fault_at(f, final(self).st()),
                }),
            }),
    {
        match &self.failed {
            Some(f) => {
                return Err(f.duplicate());
            },
            None => {},
        }
        self.mat_value()
    }

    /// Materializes the value of the current key: walk to the position
    /// right before the value, then read the whole subtree.  Object
    /// members are kept in document order.
    pub fn current_value_content(&mut self) -> (r: Result<Content, Error>)
        requires
            old(self).wf(),
        ensures
            final(self).wf(),
            (match old(self).flt() {
                Some(k) => final(self).st() == old(self).st() && final(self).flt() == old(self).flt()
                    && (r matches Err(e) && e.kind == ErrorKind::Fatal && (e.fault matches
                Some(f) && f.kind == k && fault_at(f, final(self).st()))),
                None => (match spec_current_value(old(self).st()) {
                    CvRes::Found(v, s2) => (r matches Ok(c) && content_view(c) == v) && final(self).st() == s2 && final(self).flt() is None,
                    CvRes::Eos(s1) => (r matches Err(e) && e.kind == ErrorKind::EOS) && final(self).st() == s1 && final(self).flt() is None,
                    CvRes::Dead(k) => (r matches Err(e) && e.kind == ErrorKind::Fatal && (
                    e.fault matches Some(f) && f.kind == k && fault_at(f, final(self).st()))) && final(self).flt() == Some(k),
                }),
            }),
    {
        if self.failed.is_some() {
            return Err(self.dead_error());
        }
        match self.walk_before_value() {
            Err(f) => {
                return Err(Error::from_fault(f));
            },
            Ok(_) => {},
        }
        if self.peek() == NIL {
            return Err(self.exhausted_error());
        }
        let l = self.stack.len();
        if l == 0 {
            return Err(Error::from_fault(self.die(FaultKind::TrailingData, self.next_byte)));
        }
        match self.mat_value() {
            Err(f) => Err(Error::from_fault(f)),
            Ok(c) => Ok(c),
        }
    }
    /// Scans for the next key or value whose ancestor frames satisfy the
    /// given predicate suffix: the last predicate judges the innermost
    /// ancestor, the one before it the next frame out, and so on.  A
    /// token failing any predicate is passed over and the scan resumes
    /// at the next token.
    ///
    /// An accepted token is sound: each predicate admitted its ancestor
    /// snapshot.  Which token is accepted cannot be pinned further, as
    /// the predicates are caller-supplied code.
    pub fn next_item_by_pattern<F: Fn(&CurrentState) -> bool>(
        &mut self,
        pattern: &Vec<F>,
    ) -> (r: Result<Item, Error>)
        requires
            old(self).wf(),
            pattern@.len() > 0,
            forall|i: int, cs: CurrentState|
                0 <= i < pattern@.len() ==> #[trigger] call_requires(pattern@[i], (&cs,)),
        ensures
            final(self).wf(),
            (r matches Ok(item) ==> (suffix_accepts(
                pattern@,
                final(self).st().stack,
                final(self).st().stack.len() - 1,
                pattern@.len() - 1,
                item.0,
                item.1@,
                true,
            ) || suffix_accepts(
                pattern@,
                final(self).st().stack,
                final(self).st().stack.len() - 1,
                pattern@.len() - 1,
                item.0,
                item.1@,
                false,
            ))),
            (r matches Err(e) ==> (e.kind == ErrorKind::EOS || e.kind == ErrorKind::Fatal)),
            (r matches Err(e) && e.kind == ErrorKind::EOS ==> final(self).flt() is None),
            (r matches Err(e) && e.kind == ErrorKind::Fatal ==> final(self).flt() is Some),
            (old(self).flt() is None ==> (match spec_next_item(old(self).st()) {
                NavRes::Found(k2, vt, tx, s2) => true,
                NavRes::Eos(s1) => (r matches Err(e) && e.kind == ErrorKind::EOS) && final(self).st() == s1 && final(self).flt() is None,
                NavRes::Dead(k) => (r matches Err(e) && e.kind == ErrorKind::Fatal && (
                e.fault matches Some(f) && f.kind == k && fault_at(f, final(self).st()))) && final(self).flt() == Some(k),
            })),
            (match old(self).flt() {
                Some(k) => final(self).st() == old(self).st() && final(self).flt() == old(self).flt() && (r matches Err(e) && e.kind == ErrorKind::Fatal && (e.fault matches
                Some(f) && f.kind == k && fault_at(f, final(self).st()))),
                None => true,
            }),
    {
        if self.failed.is_some() {
            return Err(self.dead_error());
        }
        loop
            invariant
                self.wf(),
                self.flt() is None,
                old(self).flt() is None,
                pattern@.len() > 0,
                forall|i: int, cs: CurrentState|
                    0 <= i < pattern@.len() ==> #[trigger] call_requires(pattern@[i], (&cs,)),
                (spec_next_item(old(self).st()) matches NavRes::Eos(s1)
                    ==> spec_next_item(self.st()) == NavRes::Eos(s1)),
                (spec_next_item(old(self).st()) matches NavRes::Dead(k2)
                    ==> spec_next_item(self.st()) == NavRes::Dead(k2)),
            decreases measure(self.st()),
        {
            if self.peek() == NIL {
                proof {
                    assert(spec_next_item(self.st()) == spec_exhausted(self.st()));
                }
                return Err(self.exhausted_error());
            }
            let ghost prev = self.st();
            proof {
                lemma_step_measure(prev);
            }
            let (item, is_key) = match self.walk_forward() {
                Err(f) => {
                    return Err(Error::from_fault(f));
                },
                Ok(t) => match t {
                    TextItem::Key(i) => (i, true),
                    TextItem::Value(i) => (i, false),
                    TextItem::Marker(_) => {
                        continue ;
                    },
                },
            };
            if match_token(&self.stack, pattern, &item, is_key) {
                proof {
                    assert(stack_view(self.stack@) == self.st().stack);
                    assert(self.st().stack.len() == self.stack@.len());
                    assert(suffix_accepts(
                        pattern@,
                        self.st().stack,
                        self.st().stack.len() - 1,
                        pattern@.len() - 1,
                        item.0,
                        item.1@,
                        is_key,
                    ));
                }
                return Ok(item);
            }
        }
    }
    /// The path from the document root to the current position: the
    /// object and array frames of the stack, bottom first, after the
    /// start marker.
    pub fn get_path(&self) -> (r: Vec<PathItem>)
        ensures
            path_view(r@) == seq![VPath::Start] + path_prefix(
                self.st().stack,
                self.st().stack.len() as int,
            ),
    {
        let ghost stkv = stack_view(self.stack@);
        let mut path: Vec<PathItem> = Vec::new();
        path.push(PathItem::Start);
        proof {
            assert(path_view(path@) =~~= seq![VPath::Start] + path_prefix(stkv, 0));
        }
        let mut i: usize = 0;
        while i < self.stack.len()
            invariant
                i <= self.stack@.len(),
                stkv == stack_view(self.stack@),
                path_view(path@) == seq![VPath::Start] + path_prefix(stkv, i as int),
            decreases self.stack@.len() - i,
        {
            let f = &self.stack[i];
            proof {
                assert(stkv[i as int] == self.stack@[i as int]@);
            }
            let ghost path_prev = path@;
            let sym = f.symbol();
            if sym == '{' {
                let k = f.key.clone();
                proof {
                    assert(path_item_view(PathItem::Object(k, f.nth)) == VPath::Object(
                        stkv[i as int].key,
                        stkv[i as int].nth,
                    ));
                }
                path.push(PathItem::Object(k, f.nth));
            } else if sym == '[' {
                let k = f.key.clone();
                proof {
                    assert(path_item_view(PathItem::Array(k, f.nth)) == VPath::Array(
                        stkv[i as int].key,
                        stkv[i as int].nth,
                    ));
                }
                path.push(PathItem::Array(k, f.nth));
            }
            i = i + 1;
            proof {
                assert(path_prefix(stkv, i as int) == (if spec_symbol(stkv[i - 1].state)
                    == '{' {
                    path_prefix(stkv, i - 1).push(
                        VPath::Object(stkv[i - 1].key, stkv[i - 1].nth),
                    )
                } else if spec_symbol(stkv[i - 1].state) == '[' {
                    path_prefix(stkv, i - 1).push(
                        VPath::Array(stkv[i - 1].key, stkv[i - 1].nth),
                    )
                } else {
                    path_prefix(stkv, i - 1)
                }));
                assert(path_view(path@).len() == path@.len());
                assert forall|j: int| 0 <= j < path@.len() implies #[trigger] path_view(
                    path@,
                )[j] == path_item_view(path@[j]) by {
                    assert(path_view(path@)[j] == path_item_view(path@[j]));
                }
                assert forall|j: int| 0 <= j < path_prev.len() implies path_item_view(
                    path_prev[j],
                ) == (seq![VPath::Start] + path_prefix(stkv, i - 1))[j] by {
                    assert(path_view(path_prev)[j] == path_item_view(path_prev[j]));
                }
                assert(path_view(path_prev).len() == path_prev.len());
                assert(path_view(path_prev) == seq![VPath::Start] + path_prefix(stkv, i - 1));
                assert(path_prev.len() == 1 + path_prefix(stkv, i - 1).len());
                assert(sym == spec_symbol(stkv[i - 1].state));
                if sym == '{' || sym == '[' {
                    assert(path@.len() == path_prev.len() + 1);
                    assert(path_prefix(stkv, i as int).len() == path_prefix(
                        stkv,
                        i - 1,
                    ).len() + 1);
                } else {
                    assert(path@ == path_prev);
                    assert(path_prefix(stkv, i as int).len() == path_prefix(
                        stkv,
                        i - 1,
                    ).len());
                }
                assert(path_view(path@).len() == (seq![VPath::Start] + path_prefix(
                    stkv,
                    i as int,
                )).len());
                assert forall|j: int| 0 <= j < path@.len() implies path_item_view(path@[j])
                    == (seq![VPath::Start] + path_prefix(stkv, i as int))[j] by {
                    if j < path_prev.len() {
                        assert(path@[j] == path_prev[j]);
                        assert((seq![VPath::Start] + path_prefix(stkv, i as int))[j] == (
                        seq![VPath::Start] + path_prefix(stkv, i - 1))[j]);
                    }
                }
                assert(path_view(path@) =~~= seq![VPath::Start] + path_prefix(stkv, i as int));
            }
        }
        path
    }

    /// The textual form of the current path: `#` for the root, object
    /// ancestors as `{key,nth}`, array ancestors as `[key,nth]`, each
    /// segment closed by a slash.
    pub fn get_path_string(&self) -> (r: String)
        ensures
            r@ == path_chars(
                seq![VPath::Start] + path_prefix(
                    self.st().stack,
                    self.st().stack.len() as int,
                ),
            ),
    {
        let ghost stkv = stack_view(self.stack@);
        let mut out: String = String::new();
        out.append("#");
        out.append("/");
        proof {
            let p0 = seq![VPath::Start] + path_prefix(stkv, 0);
            assert(p0 =~= seq![VPath::Start]);
            assert(p0.len() == 1);
            assert(p0.drop_last() =~= Seq::<VPath>::empty());
            assert(p0.last() == VPath::Start);
            assert(path_chars(p0) == path_chars(p0.drop_last()) + seg_chars(VPath::Start));
            assert(path_chars(p0.drop_last()) == Seq::<char>::empty());
            assert(out@ =~= path_chars(p0));
        }
        let mut i: usize = 0;
        while i < self.stack.len()
            invariant
                i <= self.stack@.len(),
                stkv == stack_view(self.stack@),
                out@ == path_chars(seq![VPath::Start] + path_prefix(stkv, i as int)),
            decreases self.stack@.len() - i,
        {
            let f = &self.stack[i];
            proof {
                assert(stkv[i as int] == self.stack@[i as int]@);
            }
            let ghost before = seq![VPath::Start] + path_prefix(stkv, i as int);
            let sym = f.symbol();
            if sym == '{' {
                out.append("{");
                out.append(f.key.as_str());
                out.append(",");
                let n = usize_string(f.nth);
                out.append(n.as_str());
                out.append("}");
                out.append("/");
                proof {
                    let segs = seq![VPath::Start] + path_prefix(stkv, i + 1);
                    assert(segs.drop_last() =~= before);
                    assert(segs.last() == VPath::Object(stkv[i as int].key, stkv[
                        i as int].nth));
                    assert(out@ =~= path_chars(segs));
                }
            } else if sym == '[' {
                out.append("[");
                out.append(f.key.as_str());
                out.append(",");
                let n = usize_string(f.nth);
                out.append(n.as_str());
                out.append("]");
                out.append("/");
                proof {
                    let segs = seq![VPath::Start] + path_prefix(stkv, i + 1);
                    assert(segs.drop_last() =~= before);
                    assert(segs.last() == VPath::Array(stkv[i as int].key, stkv[i as int].nth));
                    assert(out@ =~= path_chars(segs));
                }
            } else {
                proof {
                    assert(seq![VPath::Start] + path_prefix(stkv, i + 1) =~= before);
                }
            }
            i = i + 1;
        }
        out
    }

    /// A one-line description of the current position: level, latest
    /// key, frame symbol, sibling ordinal, and the retained recent
    /// input.
    pub fn get_current_status(&self) -> (r: String)
        requires
            self.wf(),
        ensures
            self.st().stack.len() == 0 ==> r@ == "stack is empty"@,
            self.st().stack.len() > 0 && vstd::utf8::valid_utf8(self.st().hist) ==> r@
                == status_chars(self.st(), vstd::utf8::decode_utf8(self.st().hist)),
    {
        let l = self.stack.len();
        if l == 0 {
            return "stack is empty".to_owned();
        }
        let top = &self.stack[l - 1];
        proof {
            assert(self.stack@[l - 1]@ == self.st().stack.last());
        }
        let mut out: String = String::new();
        out.append("level: ");
        let lv = i128_string(top.level_halves);
        out.append(lv.as_str());
        out.append(", key: \"");
        out.append(top.key.as_str());
        out.append("\", top: '");
        let symtxt: &str = match top.state {
            FrameState::ColonStart => ":",
            FrameState::ColonAfterReturn => ":",
            FrameState::BraceStart => "{",
            FrameState::BraceAfterKey => "{",
            FrameState::BraceAfterColon => "{",
            FrameState::SquareStart => "[",
            FrameState::SquareAfterValue => "[",
            FrameState::SquareAfterReturn => "[",
        };
        proof {
            reveal_strlit(":");
            reveal_strlit("{");
            reveal_strlit("[");
            assert(symtxt@ =~= seq![spec_symbol(top.state)]);
        }
        out.append(symtxt);
        out.append("', nth: ");
        let n = usize_string(top.nth);
        out.append(n.as_str());
        out.append(", recent: ");
        let piece = self.get_recent_piece();
        out.append(piece.as_str());
        proof {
            if vstd::utf8::valid_utf8(self.st().hist) {
                assert(out@ =~= status_chars(
                    self.st(),
                    vstd::utf8::decode_utf8(self.st().hist),
                ));
            }
        }
        out
    }
    /// An inconsistency error of the deserialization bridge: the cursor
    /// was driven further than the scope bookkeeping assumed.
    fn lost_error(&self) -> (r: Error)
        ensures
            r.kind == ErrorKind::OOPS,
    {
        Error {
            kind: ErrorKind::OOPS,
            msg: "The cursor left the scope that was being read".to_owned(),
            fault: None,
        }
    }

    /// Walk forward to the next opening brace or bracket; when it is the
    /// wanted one, enter it.  This positions the cursor for reading a
    /// sequence or mapping scope.
    pub fn move_to_scope(&mut self, desired: u8) -> (r: Result<(), Error>)
        requires
            old(self).wf(),
        ensures
            final(self).wf(),
            (match old(self).flt() {
                Some(k) => final(self).st() == old(self).st() && final(self).flt() == old(self).flt()
                    && (r matches Err(e) && e.kind == ErrorKind::Fatal && (e.fault matches
                Some(f) && f.kind == k && fault_at(f, final(self).st()))),
                None => (match spec_move_to_scope(old(self).st(), desired) {
                    ScopeRes::Done(s1) => r is Ok && final(self).st() == s1 && final(self).flt()
                        is None,
                    ScopeRes::Eos(s1) => (r matches Err(e) && e.kind == ErrorKind::EOS)
                        && final(self).st() == s1 && final(self).flt() is None,
                    ScopeRes::Dead(k) => (r matches Err(e) && e.kind == ErrorKind::Fatal && (
                    e.fault matches Some(f) && f.kind == k && fault_at(f, final(self).st()))) && final(self).flt() == Some(k),
                }),
            }),
    {
        if self.failed.is_some() {
            return Err(self.dead_error());
        }
        loop
            invariant
                self.wf(),
                self.flt() is None,
                old(self).flt() is None,
                spec_move_to_scope(old(self).st(), desired) == spec_move_to_scope(
                    self.st(),
                    desired,
                ),
            decreases measure(self.st()),
        {
            let b = self.peek();
            if b == 123 || b == 91 {
                if b == desired {
                    let ghost prev = self.st();
                    proof {
                        lemma_step_measure(prev);
                    }
                    match self.walk_forward() {
                        Err(f) => {
                            return Err(Error::from_fault(f));
                        },
                        Ok(_) => {
                            return Ok(());
                        },
                    }
                } else {
                    return Ok(());
                }
            } else if b == NIL {
                return Err(self.exhausted_error());
            } else {
                let ghost prev = self.st();
                proof {
                    lemma_step_measure(prev);
                }
                match self.walk_forward() {
                    Err(f) => {
                        return Err(Error::from_fault(f));
                    },
                    Ok(_) => {},
                }
            }
        }
    }

    /// While the cursor stands on a closer, align with the enclosing
    /// scope that began at `working_halves`: at that level the closer is
    /// consumed and the scope reports ended; above it the cursor first
    /// descends; below it the bridge bookkeeping is inconsistent.
    pub fn align_scope(&mut self, working_halves: i128) -> (r: Result<bool, Error>)
        requires
            old(self).wf(),
        ensures
            final(self).wf(),
            (match old(self).flt() {
                Some(k) => final(self).st() == old(self).st() && final(self).flt() == old(self).flt()
                    && (r matches Err(e) && e.kind == ErrorKind::Fatal && (e.fault matches
                Some(f) && f.kind == k && fault_at(f, final(self).st()))),
                None => (match spec_align(old(self).st(), working_halves as int) {
                    AlignRes::Done(b, s1) => (r matches Ok(bb) && bb == b) && final(self).st()
                        == s1 && final(self).flt() is None,
                    AlignRes::Lost(s1) => (r matches Err(e) && e.kind == ErrorKind::OOPS)
                        && final(self).st() == s1 && final(self).flt() is None,
                    AlignRes::Dead(k) => (r matches Err(e) && e.kind == ErrorKind::Fatal && (
                    e.fault matches Some(f) && f.kind == k && fault_at(f, final(self).st()))) && final(self).flt() == Some(k),
                }),
            }),
    {
        if self.failed.is_some() {
            return Err(self.dead_error());
        }
        loop
            invariant
                self.wf(),
                self.flt() is None,
                old(self).flt() is None,
                spec_align(old(self).st(), working_halves as int) == spec_align(
                    self.st(),
                    working_halves as int,
                ),
            decreases measure(self.st()),
        {
            let b = self.peek();
            if !(b == 93 || b == 125) {
                return Ok(false);
            }
            let cur = self.get_current_level();
            if working_halves == cur {
                let ghost prev = self.st();
                proof {
                    lemma_step_measure(prev);
                }
                match self.walk_forward() {
                    Err(f) => {
                        return Err(Error::from_fault(f));
                    },
                    Ok(_) => {
                        return Ok(true);
                    },
                }
            } else if working_halves < cur {
                let ghost dstart = self.st();
                proof {
                    lemma_descend_measure(dstart, working_halves as int);
                }
                loop
                    invariant_except_break
                        self.wf(),
                        self.flt() is None,
                        old(self).flt() is None,
                        dstart.ahead == 93 || dstart.ahead == 125,
                        working_halves < spec_current_level(dstart),
                        spec_align(old(self).st(), working_halves as int) == spec_align(
                            dstart,
                            working_halves as int,
                        ),
                        spec_descend(dstart, working_halves as int) == spec_descend(
                            self.st(),
                            working_halves as int,
                        ),
                    ensures
                        self.wf(),
                        self.flt() is None,
                        old(self).flt() is None,
                        spec_descend(dstart, working_halves as int) == ScopeRes::Done(
                            self.st(),
                        ),
                    decreases measure(self.st()),
                {
                    if self.peek() == NIL {
                        return Err(self.lost_error());
                    }
                    let ghost prev = self.st();
                    proof {
                        lemma_step_measure(prev);
                    }
                    match self.walk_forward() {
                        Err(f) => {
                            return Err(Error::from_fault(f));
                        },
                        Ok(_) => {
                            let lv = self.get_current_level();
                            if lv == working_halves {
                                break ;
                            }
                        },
                    }
                }
                proof {
                    lemma_descend_measure(dstart, working_halves as int);
                }
            } else {
                return Err(self.lost_error());
            }
        }
    }

    /// The lookahead after stepping over a pending colon or comma, so a
    /// caller can see whether a null value comes next.
    pub fn peek_past_separator(&mut self) -> (r: Result<u8, Error>)
        requires
            old(self).wf(),
        ensures
            final(self).wf(),
            (match old(self).flt() {
                Some(k) => final(self).st() == old(self).st() && final(self).flt() == old(self).flt()
                    && (r matches Err(e) && e.kind == ErrorKind::Fatal && (e.fault matches
                Some(f) && f.kind == k && fault_at(f, final(self).st()))),
                None => (if old(self).st().ahead == 58 || old(self).st().ahead == 44 {
                    match spec_step(old(self).st()) {
                        StepRes::Dead(k) => (r matches Err(e) && e.kind == ErrorKind::Fatal && (
                        e.fault matches Some(f) && f.kind == k && fault_at(f, final(self).st()))) && final(self).flt() == Some(
                            k,
                        ),
                        StepRes::Good(s1, _) => (r matches Ok(b) && b == s1.ahead) && final(self).st() == s1 && final(self).flt() is None,
                    }
                } else {
                    (r matches Ok(b) && b == old(self).st().ahead) && final(self).st() == old(self).st() && final(self).flt() is None
                }),
            }),
    {
        if self.failed.is_some() {
            return Err(self.dead_error());
        }
        let b = self.peek();
        if b == 58 || b == 44 {
            match self.walk_forward() {
                Err(f) => {
                    return Err(Error::from_fault(f));
                },
                Ok(_) => {},
            }
        }
        Ok(self.peek())
    }
}

/// Whether a byte is ASCII whitespace.
fn is_ws_byte(b: u8) -> (r: bool)
    ensures
        r == is_ws(b),
{
    b == 32 || b == 9 || b == 10 || b == 12 || b == 13
}

/// The level coordinate of a session state, in half-steps: the top
/// frame's level, or one whole level below the root when the stack has
/// emptied.
pub open spec fn spec_current_level(s: SState) -> int {
    if s.stack.len() == 0 {
        -2
    } else {
        s.stack.last().level_halves
    }
}

/// Whether a fault record carries the position of the given session
/// state: its level coordinate, latest key, sibling ordinal and raw
/// byte history.
pub open spec fn fault_at(f: Fault, s: SState) -> bool {
    &&& f.level_halves as int == spec_current_level(s)
    &&& (s.stack.len() > 0 ==> f.key@ == s.stack.last().key && f.nth as int
        == s.stack.last().nth)
    &&& (s.stack.len() == 0 ==> f.key@ == Seq::<char>::empty() && f.nth == 0)
    &&& f.history@ == s.hist
}

/// The fractional part of a level coordinate, in half-steps: the
/// coordinate minus its floor (one for a pending-value position, zero
/// for a container position).
pub open spec fn frac_halves(h: int) -> int {
    h % 2
}

/// A full level seek: fatal once the document has closed; a target below
/// the first level is unreachable and leaves the state alone; otherwise
/// scan for the target level.
pub open spec fn spec_seek_full(s: SState, off: int) -> SeekRes {
    if s.stack.len() == 0 {
        SeekRes::Dead(FaultKind::TrailingData)
    } else {
        let t = s.stack.last().level_halves + off;
        if t < 2 {
            SeekRes::Done(false, s)
        } else {
            spec_seek(s, t)
        }
    }
}

/// The key reached by a level seek: when the seek reports further data
/// at the target level, the next key from there; otherwise end of
/// stream.
pub open spec fn after_seek(r: SeekRes) -> NavRes {
    match r {
        SeekRes::Dead(k) => NavRes::Dead(k),
        SeekRes::Done(true, s1) => spec_next_key(s1),
        SeekRes::Done(false, s1) => NavRes::Eos(s1),
    }
}

/// The sibling, child and parent key helpers: seek by a level offset,
/// then take the next key.
pub open spec fn spec_key_after_seek(s: SState, off: int) -> NavRes {
    if s.ahead == 0 {
        spec_exhausted(s)
    } else {
        after_seek(spec_seek_full(s, off))
    }
}

/// Whether a predicate snapshot reflects the given ancestor frame and
/// candidate token.
pub open spec fn cs_matches(
    cs: CurrentState,
    f: VFrame,
    vt: ValueType,
    tx: Seq<char>,
    isk: bool,
) -> bool {
    &&& cs.latest_key@ == f.key
    &&& cs.nth_occurrence as int == f.nth
    &&& cs.level_halves as int == f.level_halves
    &&& cs.current_item.0 == vt
    &&& cs.current_item.1@ == tx
    &&& cs.is_key == isk
}

/// Suffix acceptance of a token by a pattern: walking the frame stack
/// from `si` inward toward the root (the root itself excluded) and the
/// predicate list from `pi` backward, every pending-value frame is
/// passed over, and each remaining frame must admit a snapshot on which
/// its predicate can return true.  The innermost ancestor answers to the
/// last predicate.
pub open spec fn suffix_accepts<F: Fn(&CurrentState) -> bool>(
    pats: Seq<F>,
    stk: Seq<VFrame>,
    si: int,
    pi: int,
    vt: ValueType,
    tx: Seq<char>,
    isk: bool,
) -> bool
    decreases si,
{
    if pi < 0 {
        true
    } else if si < 1 {
        false
    } else if spec_symbol(stk[si].state) == ':' {
        suffix_accepts(pats, stk, si - 1, pi, vt, tx, isk)
    } else {
        (exists|cs: CurrentState|
            cs_matches(cs, stk[si], vt, tx, isk) && #[trigger] call_ensures(
                pats[pi],
                (&cs,),
                true,
            )) && suffix_accepts(pats, stk, si - 1, pi - 1, vt, tx, isk)
    }
}

/// Runs the predicate suffix against the live frame stack for one
/// candidate token; a true result proves the token accepted.
fn match_token<F: Fn(&CurrentState) -> bool>(
    stack: &Vec<StackItem>,
    pattern: &Vec<F>,
    item: &Item,
    is_key: bool,
) -> (r: bool)
    requires
        pattern@.len() > 0,
        forall|i: int, cs: CurrentState|
            0 <= i < pattern@.len() ==> #[trigger] call_requires(pattern@[i], (&cs,)),
    ensures
        r ==> suffix_accepts(
            pattern@,
            stack_view(stack@),
            stack@.len() - 1,
            pattern@.len() - 1,
            item.0,
            item.1@,
            is_key,
        ),
{
    let ghost stkv = stack_view(stack@);
    let ghost vt = item.0;
    let ghost tx = item.1@;
    let mut pi: usize = pattern.len() - 1;
    let mut si: usize = stack.len();
    loop
        invariant
            pattern@.len() > 0,
            pi < pattern@.len(),
            si <= stack@.len(),
            stkv == stack_view(stack@),
            vt == item.0,
            tx == item.1@,
            forall|i: int, cs: CurrentState|
                0 <= i < pattern@.len() ==> #[trigger] call_requires(pattern@[i], (&cs,)),
            (suffix_accepts(pattern@, stkv, si - 1, pi as int, vt, tx, is_key)
                ==> suffix_accepts(
                pattern@,
                stkv,
                stack@.len() - 1,
                pattern@.len() - 1,
                vt,
                tx,
                is_key,
            )),
        decreases si,
    {
        if si <= 1 {
            return false;
        }
        si = si - 1;
        let f = &stack[si];
        proof {
            assert(stkv[si as int] == stack@[si as int]@);
        }
        if f.symbol() != ':' {
            let cs = CurrentState {
                latest_key: f.key.clone(),
                nth_occurrence: f.nth,
                level_halves: f.level_halves,
                current_item: (item.0, item.1.clone()),
                is_key,
            };
            let ok = pattern[pi](&cs);
            if !ok {
                return false;
            }
            proof {
                assert(cs_matches(cs, stkv[si as int], vt, tx, is_key));
                assert(call_ensures(pattern@[pi as int], (&cs,), true));
                assert(exists|cs2: CurrentState|
                    cs_matches(cs2, stkv[si as int], vt, tx, is_key) && #[trigger] call_ensures(
                        pattern@[pi as int],
                        (&cs2,),
                        true,
                    ));
            }
            if pi == 0 {
                proof {
                    assert(suffix_accepts(pattern@, stkv, si - 1, -1, vt, tx, is_key));
                    assert(suffix_accepts(pattern@, stkv, si as int, 0, vt, tx, is_key));
                }
                return true;
            }
            pi = pi - 1;
        }
    }
}

/// The decimal digits of a number, most significant first.
pub open spec fn dec_chars(n: nat) -> Seq<char>
    decreases n,
{
    if n < 10 {
        seq![((48 + n) as u8) as char]
    } else {
        dec_chars(n / 10).push(((48 + n % 10) as u8) as char)
    }
}

/// The decimal rendering of a signed number.
pub open spec fn int_chars(n: int) -> Seq<char> {
    if n < 0 {
        seq!['-'] + dec_chars((-n) as nat)
    } else {
        dec_chars(n as nat)
    }
}

/// Relies on the standard decimal formatter for `usize`.
#[verifier::external_body]
fn usize_string(n: usize) -> (r: String)
    ensures
        r@ == dec_chars(n as nat),
{
    format!("{}", n)
}

/// Relies on the standard decimal formatter for `i128`.
#[verifier::external_body]
fn i128_string(n: i128) -> (r: String)
    ensures
        r@ == int_chars(n as int),
{
    format!("{}", n)
}

/// The views of a path vector.
pub open spec fn path_view(ps: Seq<PathItem>) -> Seq<VPath> {
    ps.map_values(|p: PathItem| path_item_view(p))
}

/// The path segments named by a prefix of the frame stack: object and
/// array frames contribute a segment, pending-value frames none.
pub open spec fn path_prefix(stk: Seq<VFrame>, i: int) -> Seq<VPath>
    decreases i,
{
    if i <= 0 {
        Seq::empty()
    } else {
        let rest = path_prefix(stk, i - 1);
        let f = stk[i - 1];
        if spec_symbol(f.state) == '{' {
            rest.push(VPath::Object(f.key, f.nth))
        } else if spec_symbol(f.state) == '[' {
            rest.push(VPath::Array(f.key, f.nth))
        } else {
            rest
        }
    }
}

/// The textual form of one path segment, with its trailing slash.
pub open spec fn seg_chars(p: VPath) -> Seq<char> {
    match p {
        VPath::Start => "#"@ + "/"@,
        VPath::Object(k, n) => "{"@ + k + ","@ + dec_chars(
            if 0 <= n {
                n as nat
            } else {
                0nat
            },
        ) + "}"@ + "/"@,
        VPath::Array(k, n) => "["@ + k + ","@ + dec_chars(
            if 0 <= n {
                n as nat
            } else {
                0nat
            },
        ) + "]"@ + "/"@,
    }
}

/// The textual form of a whole path.
pub open spec fn path_chars(ps: Seq<VPath>) -> Seq<char>
    decreases ps.len(),
{
    if ps.len() == 0 {
        Seq::empty()
    } else {
        path_chars(ps.drop_last()) + seg_chars(ps.last())
    }
}

/// The textual form of the position summary: level coordinate in
/// half-steps, latest key, frame symbol, sibling ordinal, and the
/// retained recent input rendered as `recent`.
pub open spec fn status_chars(s: SState, recent: Seq<char>) -> Seq<char> {
    if s.stack.len() == 0 {
        "stack is empty"@
    } else {
        let top = s.stack.last();
        "level: "@ + int_chars(top.level_halves) + ", key: \""@ + top.key + "\", top: '"@
            + seq![spec_symbol(top.state)] + "', nth: "@ + dec_chars(
            if 0 <= top.nth {
                top.nth as nat
            } else {
                0nat
            },
        ) + ", recent: "@ + recent
    }
}

/// The outcome of moving the cursor to a container scope.
pub enum ScopeRes {
    /// The cursor stands where the request leaves it.
    Done(SState),
    /// The source ran out first.
    Eos(SState),
    /// A fatal structural fault of the given kind.
    Dead(FaultKind),
}

/// Walk forward until the lookahead holds an opening brace or bracket;
/// if it is the wanted one, enter it.
pub open spec fn spec_move_to_scope(s: SState, want: u8) -> ScopeRes
    decreases measure(s),
    via spec_move_to_scope_dec
{
    if s.ahead == 123 || s.ahead == 91 {
        if s.ahead == want {
            match spec_step(s) {
                StepRes::Dead(k) => ScopeRes::Dead(k),
                StepRes::Good(s1, _) => ScopeRes::Done(s1),
            }
        } else {
            ScopeRes::Done(s)
        }
    } else if s.ahead == 0 {
        if s.stack.len() <= 1 {
            ScopeRes::Eos(s)
        } else {
            ScopeRes::Dead(FaultKind::Truncated)
        }
    } else {
        match spec_step(s) {
            StepRes::Dead(k) => ScopeRes::Dead(k),
            StepRes::Good(s1, _) => spec_move_to_scope(s1, want),
        }
    }
}

#[via_fn]
proof fn spec_move_to_scope_dec(s: SState, want: u8) {
    lemma_step_measure(s);
}

/// Walk forward until the level coordinate equals `w` half-steps;
/// running out of input here means the cursor was driven further than
/// the caller's bookkeeping assumed.
pub open spec fn spec_descend(s: SState, w: int) -> ScopeRes
    decreases measure(s),
    via spec_descend_dec
{
    if s.ahead == 0 {
        ScopeRes::Eos(s)
    } else {
        match spec_step(s) {
            StepRes::Dead(k) => ScopeRes::Dead(k),
            StepRes::Good(s1, _) => {
                if spec_current_level(s1) == w {
                    ScopeRes::Done(s1)
                } else {
                    spec_descend(s1, w)
                }
            },
        }
    }
}

#[via_fn]
proof fn spec_descend_dec(s: SState, w: int) {
    lemma_step_measure(s);
}

/// Descending toward a level consumes input when a byte was in hand.
pub proof fn lemma_descend_measure(s: SState, w: int)
    ensures
        spec_descend(s, w) matches ScopeRes::Done(s1) ==> measure(s1) <= measure(s) && (
        s.ahead != 0 ==> measure(s1) < measure(s)),
    decreases measure(s),
{
    if s.ahead != 0 {
        lemma_step_measure(s);
        if let StepRes::Good(s1, _) = spec_step(s) {
            if spec_current_level(s1) != w {
                lemma_descend_measure(s1, w);
            }
        }
    }
}

/// The outcome of aligning with an enclosing scope.
pub enum AlignRes {
    /// The flag says whether the scope at `w` just closed under the
    /// cursor.
    Done(bool, SState),
    /// The cursor was driven further than the scope bookkeeping
    /// assumed: an internal-consistency fault of the bridge.
    Lost(SState),
    /// A fatal structural fault of the given kind.
    Dead(FaultKind),
}

/// While the lookahead holds a closer, compare the scope level `w` with
/// the current level: at the scope's own level the closer is consumed
/// and the scope ends; above it the cursor first descends back to `w`;
/// below it the bookkeeping is inconsistent.
pub open spec fn spec_align(s: SState, w: int) -> AlignRes
    decreases measure(s),
    via spec_align_dec
{
    if s.ahead == 93 || s.ahead == 125 {
        let cur = spec_current_level(s);
        if w == cur {
            match spec_step(s) {
                StepRes::Dead(k) => AlignRes::Dead(k),
                StepRes::Good(s1, _) => AlignRes::Done(true, s1),
            }
        } else if w < cur {
            match spec_descend(s, w) {
                ScopeRes::Dead(k) => AlignRes::Dead(k),
                ScopeRes::Eos(s1) => AlignRes::Lost(s1),
                ScopeRes::Done(s1) => {
                    if measure(s1) < measure(s) {
                        spec_align(s1, w)
                    } else {
                        // descending always consumes, so this guard
                        // never fails; it carries the termination
                        // argument
                        AlignRes::Lost(s1)
                    }
                },
            }
        } else {
            AlignRes::Lost(s)
        }
    } else {
        AlignRes::Done(false, s)
    }
}

#[via_fn]
proof fn spec_align_dec(s: SState, w: int) {
    lemma_step_measure(s);
}

/// The outcome of a subtree materialization at the cursor.
pub enum CvRes {
    /// The materialized value and the state after it.
    Found(VContent, SState),
    /// The source was exhausted before a value began.
    Eos(SState),
    /// A fatal structural fault of the given kind.
    Dead(FaultKind),
}

/// Materializing the current value: step to the position right before a
/// value, then read it wholesale.
pub open spec fn spec_current_value(s: SState) -> CvRes {
    match spec_before_value(s) {
        Err(k) => CvRes::Dead(k),
        Ok(s1) => {
            if s1.ahead == 0 {
                if s1.stack.len() <= 1 {
                    CvRes::Eos(s1)
                } else {
                    CvRes::Dead(FaultKind::Truncated)
                }
            } else if s1.stack.len() == 0 {
                CvRes::Dead(FaultKind::TrailingData)
            } else {
                match spec_extract_value(s1) {
                    Err(k) => CvRes::Dead(k),
                    Ok((v, s2)) => CvRes::Found(v, s2),
                }
            }
        },
    }
}

} // verus!
