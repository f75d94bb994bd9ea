//! The mathematical model of the parse session.
//!
//! A session state is the frame stack, the one-byte lookahead, the bytes
//! the source has not produced yet, and the diagnostic history ring.  The
//! functions here define, one transition at a time, exactly what the
//! automaton does: every executable operation of the parser is specified
//! as equal to one of these functions.
//!
//! The lookahead byte `0` stands for "no byte": a source that is exhausted
//! fills the lookahead with `0`, and the navigation surface treats a `0`
//! lookahead as end of stream.

use vstd::prelude::*;

use crate::FaultKind;
use crate::types::{FrameState, VContent, VFrame, VItem, VItemKind, ValueType, spec_symbol};

verus! {

/// The abstract state of a parse session.
pub struct SState {
    /// The frame stack, bottom first.
    pub stack: Seq<VFrame>,
    /// The one-byte lookahead; `0` when the source is exhausted.
    pub ahead: u8,
    /// The bytes the source has not produced yet.
    pub rest: Seq<u8>,
    /// The diagnostic history ring, oldest byte first.
    pub hist: Seq<u8>,
    /// Whether consumed bytes are mirrored into the history ring.
    pub mem: bool,
}

/// The termination measure of a state: how many bytes a step can still
/// consume, counting the lookahead.
pub open spec fn measure(s: SState) -> nat {
    s.rest.len() + if s.ahead != 0 {
        1nat
    } else {
        0nat
    }
}

/// ASCII whitespace, as the byte classifier of the standard library
/// defines it: space, tab, line feed, form feed, carriage return.
pub open spec fn is_ws(b: u8) -> bool {
    b == 32 || b == 9 || b == 10 || b == 12 || b == 13
}

/// An ASCII decimal digit.
pub open spec fn is_digit(b: u8) -> bool {
    48 <= b <= 57
}

/// The history ring after recording one consumed byte: the oldest byte
/// leaves, the new byte enters at the young end.
pub open spec fn ring_push(h: Seq<u8>, b: u8) -> Seq<u8> {
    h.drop_first().push(b)
}

/// Pull one byte from the source: hand out the head of `rest`, recording
/// it in the history ring when one is kept.  An exhausted source yields
/// the `0` sentinel, which is fatal (a truncated document) while more than
/// the root and its pending-value frame remain open.
pub open spec fn spec_pull(s: SState) -> Result<(u8, SState), FaultKind> {
    if s.rest.len() == 0 {
        if s.stack.len() > 2 {
            Err(FaultKind::Truncated)
        } else {
            Ok((0u8, s))
        }
    } else {
        let b = s.rest[0];
        Ok(
            (
                b,
                SState {
                    rest: s.rest.skip(1),
                    hist: if s.mem {
                        ring_push(s.hist, b)
                    } else {
                        s.hist
                    },
                    ..s
                },
            ),
        )
    }
}

/// Consume the lookahead and refill it with the next byte.
pub open spec fn spec_advance(s: SState) -> Result<(u8, SState), FaultKind> {
    match spec_pull(s) {
        Err(k) => Err(k),
        Ok((b, s1)) => Ok((s.ahead, SState { ahead: b, ..s1 })),
    }
}

/// Refill the lookahead until it holds a byte that is not whitespace
/// (or the end sentinel).
pub open spec fn spec_refill_ws(s: SState) -> Result<SState, FaultKind>
    decreases s.rest.len(),
{
    match spec_pull(s) {
        Err(k) => Err(k),
        Ok((b, s1)) => {
            let s2 = SState { ahead: b, ..s1 };
            if is_ws(b) {
                spec_refill_ws(s2)
            } else {
                Ok(s2)
            }
        },
    }
}

/// Consume the lookahead and leave the next non-whitespace byte in it.
pub open spec fn spec_skip(s: SState) -> Result<(u8, SState), FaultKind> {
    match spec_refill_ws(s) {
        Err(k) => Err(k),
        Ok(s1) => Ok((s.ahead, s1)),
    }
}

/// After a token: if the lookahead is whitespace, move it to the next
/// non-whitespace byte.
pub open spec fn spec_post_ws(s: SState) -> Result<SState, FaultKind> {
    if is_ws(s.ahead) {
        spec_refill_ws(s)
    } else {
        Ok(s)
    }
}

/// The raw content bytes of a string token, read up to the unescaped
/// closing quote.  A backslash and the byte after it are both copied
/// verbatim, so no escape decoding happens and an escaped quote does not
/// terminate the token.  Reaching the end sentinel before the closing
/// quote is an unterminated string.
pub open spec fn spec_string_bytes(s: SState) -> Result<(Seq<u8>, SState), FaultKind>
    decreases measure(s),
{
    match spec_advance(s) {
        Err(k) => Err(k),
        Ok((c, s1)) => {
            if c == 34 {  // '"'
                match spec_post_ws(s1) {
                    Err(k) => Err(k),
                    Ok(s2) => Ok((Seq::empty(), s2)),
                }
            } else if c == 92 {  // '\\'
                match spec_advance(s1) {
                    Err(k) => Err(k),
                    Ok((c2, s2)) => {
                        if c2 == 0 {
                            Err(FaultKind::UnterminatedString)
                        } else {
                            match spec_string_bytes(s2) {
                                Err(k) => Err(k),
                                Ok((bs, s3)) => Ok((seq![92u8, c2] + bs, s3)),
                            }
                        }
                    },
                }
            } else if c == 0 {
                Err(FaultKind::UnterminatedString)
            } else {
                match spec_string_bytes(s1) {
                    Err(k) => Err(k),
                    Ok((bs, s3)) => Ok((seq![c] + bs, s3)),
                }
            }
        },
    }
}

/// The tail of a number token.  `acc` holds the bytes read so far,
/// `ends_digit` says whether the last of them is a digit, `seen_dot`
/// whether a decimal point was read.  At most one decimal point is
/// allowed, the token must end in a digit, and a sign may not follow it.
pub open spec fn spec_number(
    s: SState,
    acc: Seq<u8>,
    ends_digit: bool,
    seen_dot: bool,
) -> Result<(ValueType, Seq<u8>, SState), FaultKind>
    decreases measure(s),
{
    let b = s.ahead;
    if b == 46 {  // '.'
        if seen_dot {
            Err(FaultKind::BadNumber)
        } else {
            match spec_advance(s) {
                Err(k) => Err(k),
                Ok((_, s1)) => spec_number(s1, acc.push(b), false, true),
            }
        }
    } else if is_digit(b) {
        match spec_advance(s) {
            Err(k) => Err(k),
            Ok((_, s1)) => spec_number(s1, acc.push(b), true, seen_dot),
        }
    } else if !ends_digit || b == 45 || b == 43 {  // '-' or '+'
        Err(FaultKind::BadNumber)
    } else {
        match spec_post_ws(s) {
            Err(k) => Err(k),
            Ok(s1) => Ok(
                (
                    if seen_dot {
                        ValueType::Float
                    } else {
                        ValueType::Int
                    },
                    acc,
                    s1,
                ),
            ),
        }
    }
}

/// The byte text of the keyword literals.
pub open spec fn keyword_bytes(vt: ValueType, first: u8) -> Seq<u8> {
    if first == 110 {  // 'n'
        seq![110u8, 117u8, 108u8, 108u8]
    } else if first == 116 {  // 't'
        seq![116u8, 114u8, 117u8, 101u8]
    } else {
        seq![102u8, 97u8, 108u8, 115u8, 101u8]
    }
}

/// Match the remainder of a keyword literal byte for byte, starting at
/// index `i` of `kw`.
pub open spec fn spec_keyword(s: SState, kw: Seq<u8>, i: int) -> Result<SState, FaultKind>
    decreases kw.len() - i,
{
    if i >= kw.len() {
        Ok(s)
    } else {
        match spec_advance(s) {
            Err(k) => Err(k),
            Ok((c, s1)) => {
                if c != kw[i] {
                    Err(FaultKind::BadLiteral)
                } else {
                    spec_keyword(s1, kw, i + 1)
                }
            },
        }
    }
}

/// A word token: a signed number, or one of the literals `null`, `true`,
/// `false`.  `c` is its already consumed first byte.
pub open spec fn spec_word(s: SState, c: u8) -> Result<(ValueType, Seq<u8>, SState), FaultKind> {
    if c == 43 || c == 45 || is_digit(c) {  // '+' '-'
        spec_number(s, seq![c], is_digit(c), false)
    } else if c == 110 || c == 116 || c == 102 {  // 'n' 't' 'f'
        let kw = keyword_bytes(if c == 110 {
            ValueType::Null
        } else {
            ValueType::Bool
        }, c);
        match spec_keyword(s, kw, 1) {
            Err(k) => Err(k),
            Ok(s1) => {
                match spec_post_ws(s1) {
                    Err(k) => Err(k),
                    Ok(s2) => Ok(
                        (
                            if c == 110 {
                                ValueType::Null
                            } else {
                                ValueType::Bool
                            },
                            kw,
                            s2,
                        ),
                    ),
                }
            },
        }
    } else {
        Err(FaultKind::BadLiteral)
    }
}

/// The outcome of one automaton step.
pub enum StepRes {
    /// The step emitted an item and moved the session to a new state.
    Good(SState, VItem),
    /// The step hit a fatal structural fault of the given kind.
    Dead(FaultKind),
}

/// A structural-marker item.
pub open spec fn marker(b: u8) -> VItem {
    VItem { kind: VItemKind::Marker, vt: ValueType::Null, text: Seq::empty(), byte: b }
}

/// A key or value item carrying decoded text.
pub open spec fn text_item(kind: VItemKind, vt: ValueType, bytes: Seq<u8>) -> VItem {
    VItem { kind, vt, text: vstd::utf8::decode_utf8(bytes), byte: 0 }
}

/// A fresh pending-value frame, half a step below its parent.
pub open spec fn colon_frame(key: Seq<char>, parent_halves: int) -> VFrame {
    VFrame { state: FrameState::ColonStart, key, level_halves: parent_halves + 1, nth: 0 }
}

/// How far a fresh container frame sits below its parent: down to the
/// next whole level, so one half-step from a pending-value position and
/// a full step from a container position.
pub open spec fn bump_of(h: int) -> int {
    if h % 2 == 0 {
        2
    } else {
        1
    }
}

/// A fresh object frame at the next whole level below `parent_halves`.
pub open spec fn brace_frame(parent_halves: int, bump: int) -> VFrame {
    VFrame {
        state: FrameState::BraceStart,
        key: Seq::empty(),
        level_halves: parent_halves + bump,
        nth: 0,
    }
}

/// A fresh array frame at the next whole level below `parent_halves`.
pub open spec fn square_frame(key: Seq<char>, parent_halves: int, bump: int) -> VFrame {
    VFrame { state: FrameState::SquareStart, key, level_halves: parent_halves + bump, nth: 0 }
}

/// Finishing a scalar token: decode its bytes and emit it, or report that
/// they are not UTF-8 text.
pub open spec fn finish_text(
    r: Result<(ValueType, Seq<u8>, SState), FaultKind>,
    kind: VItemKind,
) -> StepRes {
    match r {
        Err(k) => StepRes::Dead(k),
        Ok((vt, bs, s1)) => {
            if vstd::utf8::valid_utf8(bs) {
                StepRes::Good(s1, text_item(kind, vt, bs))
            } else {
                StepRes::Dead(FaultKind::InvalidUtf8)
            }
        },
    }
}

/// What the parent frame does when the frame above it pops: a
/// pending-value frame that had entered a container pops as well; an
/// array frame that had entered a container returns to awaiting its
/// comma; every other state has no transition for this event and is a
/// fault.
pub open spec fn spec_after_pop(s: SState, idx: int, item: VItem) -> StepRes {
    if idx < 0 {
        StepRes::Good(s, item)
    } else {
        let f = s.stack[idx];
        match f.state {
            FrameState::ColonAfterReturn => StepRes::Good(
                SState { stack: s.stack.remove(idx), ..s },
                item,
            ),
            FrameState::SquareAfterReturn => StepRes::Good(
                SState {
                    stack: s.stack.update(
                        idx,
                        VFrame { state: FrameState::SquareAfterValue, ..f },
                    ),
                    ..s
                },
                item,
            ),
            FrameState::ColonStart => StepRes::Dead(FaultKind::BadLiteral),
            FrameState::SquareStart => StepRes::Dead(FaultKind::BadLiteral),
            _ => StepRes::Dead(FaultKind::UnexpectedByte),
        }
    }
}

/// Close the frame at `idx`: remove it and let its parent react.
pub open spec fn spec_pop(s: SState, idx: int, item: VItem) -> StepRes {
    spec_after_pop(SState { stack: s.stack.remove(idx), ..s }, idx - 1, item)
}

/// The transition of the frame at `idx` on the consumed byte `c`.
///
/// This is the transition table of the pushdown automaton: one row per
/// frame state, one case per byte class.
pub open spec fn spec_transition(s: SState, idx: int, c: u8) -> StepRes {
    let f = s.stack[idx];
    let h = f.level_halves;
    match f.state {
        FrameState::ColonStart => {
            if c == 34 {  // '"'
                let s1 = SState { stack: s.stack.remove(idx), ..s };
                match spec_string_bytes(s1) {
                    Err(k) => StepRes::Dead(k),
                    Ok((bs, s2)) => finish_text(Ok((ValueType::Str, bs, s2)), VItemKind::Value),
                }
            } else if c == 123 {  // '{'
                if h + bump_of(h) > i128::MAX {
                    StepRes::Dead(FaultKind::Internal)
                } else {
                    let st1 = s.stack.update(
                        idx,
                        VFrame { state: FrameState::ColonAfterReturn, ..f },
                    );
                    StepRes::Good(
                        SState { stack: st1.push(brace_frame(h, bump_of(h))), ..s },
                        marker(c),
                    )
                }
            } else if c == 91 {  // '['
                if h + bump_of(h) > i128::MAX {
                    StepRes::Dead(FaultKind::Internal)
                } else {
                    let st1 = s.stack.update(
                        idx,
                        VFrame { state: FrameState::ColonAfterReturn, ..f },
                    );
                    StepRes::Good(
                        SState { stack: st1.push(square_frame(f.key, h, bump_of(h))), ..s },
                        marker(c),
                    )
                }
            } else if c == 125 || c == 93 || c == 44 || c == 58 {  // '}' ']' ',' ':'
                StepRes::Dead(FaultKind::UnexpectedByte)
            } else {
                let s1 = SState { stack: s.stack.remove(idx), ..s };
                finish_text(spec_word(s1, c), VItemKind::Value)
            }
        },
        FrameState::ColonAfterReturn => StepRes::Good(
            SState { stack: s.stack.remove(idx), ..s },
            marker(c),
        ),
        FrameState::BraceStart => {
            if c == 34 {  // '"'
                match spec_string_bytes(s) {
                    Err(k) => StepRes::Dead(k),
                    Ok((bs, s2)) => {
                        if vstd::utf8::valid_utf8(bs) {
                            let key = vstd::utf8::decode_utf8(bs);
                            StepRes::Good(
                                SState {
                                    stack: s2.stack.update(
                                        idx,
                                        VFrame { state: FrameState::BraceAfterKey, key, ..f },
                                    ),
                                    ..s2
                                },
                                text_item(VItemKind::Key, ValueType::Str, bs),
                            )
                        } else {
                            StepRes::Dead(FaultKind::InvalidUtf8)
                        }
                    },
                }
            } else if c == 125 {  // '}'
                spec_pop(s, idx, marker(c))
            } else {
                StepRes::Dead(FaultKind::UnexpectedByte)
            }
        },
        FrameState::BraceAfterKey => {
            if c == 58 {  // ':'
                if h + 1 > i128::MAX {
                    StepRes::Dead(FaultKind::Internal)
                } else {
                    let st1 = s.stack.update(
                        idx,
                        VFrame { state: FrameState::BraceAfterColon, ..f },
                    );
                    StepRes::Good(
                        SState { stack: st1.push(colon_frame(f.key, h)), ..s },
                        marker(c),
                    )
                }
            } else {
                StepRes::Dead(FaultKind::UnexpectedByte)
            }
        },
        FrameState::BraceAfterColon => {
            if c == 125 {  // '}'
                spec_pop(s, idx, marker(c))
            } else if c == 44 {  // ','
                if f.nth + 1 > usize::MAX {
                    StepRes::Dead(FaultKind::Internal)
                } else {
                    StepRes::Good(
                        SState {
                            stack: s.stack.update(
                                idx,
                                VFrame { state: FrameState::BraceStart, nth: f.nth + 1, ..f },
                            ),
                            ..s
                        },
                        marker(c),
                    )
                }
            } else {
                StepRes::Dead(FaultKind::UnexpectedByte)
            }
        },
        FrameState::SquareStart => {
            if c == 34 {  // '"'
                let s1 = SState {
                    stack: s.stack.update(
                        idx,
                        VFrame { state: FrameState::SquareAfterValue, ..f },
                    ),
                    ..s
                };
                match spec_string_bytes(s1) {
                    Err(k) => StepRes::Dead(k),
                    Ok((bs, s2)) => finish_text(Ok((ValueType::Str, bs, s2)), VItemKind::Value),
                }
            } else if c == 123 {  // '{'
                if h + bump_of(h) > i128::MAX {
                    StepRes::Dead(FaultKind::Internal)
                } else {
                    let st1 = s.stack.update(
                        idx,
                        VFrame { state: FrameState::SquareAfterReturn, ..f },
                    );
                    StepRes::Good(
                        SState { stack: st1.push(brace_frame(h, bump_of(h))), ..s },
                        marker(c),
                    )
                }
            } else if c == 91 {  // '['
                if h + bump_of(h) > i128::MAX {
                    StepRes::Dead(FaultKind::Internal)
                } else {
                    let st1 = s.stack.update(
                        idx,
                        VFrame { state: FrameState::SquareAfterReturn, ..f },
                    );
                    StepRes::Good(
                        SState { stack: st1.push(square_frame(f.key, h, bump_of(h))), ..s },
                        marker(c),
                    )
                }
            } else if c == 93 {  // ']'
                spec_pop(s, idx, marker(c))
            } else if c == 44 || c == 58 || c == 125 {  // ',' ':' '}'
                StepRes::Dead(FaultKind::UnexpectedByte)
            } else {
                let s1 = SState {
                    stack: s.stack.update(
                        idx,
                        VFrame { state: FrameState::SquareAfterValue, ..f },
                    ),
                    ..s
                };
                finish_text(spec_word(s1, c), VItemKind::Value)
            }
        },
        FrameState::SquareAfterValue => {
            if c == 93 {  // ']'
                spec_pop(s, idx, marker(c))
            } else if c == 44 {  // ','
                if f.nth + 1 > usize::MAX {
                    StepRes::Dead(FaultKind::Internal)
                } else {
                    StepRes::Good(
                        SState {
                            stack: s.stack.update(
                                idx,
                                VFrame { state: FrameState::SquareStart, nth: f.nth + 1, ..f },
                            ),
                            ..s
                        },
                        marker(c),
                    )
                }
            } else {
                StepRes::Dead(FaultKind::UnexpectedByte)
            }
        },
        FrameState::SquareAfterReturn => StepRes::Good(
            SState {
                stack: s.stack.update(
                    idx,
                    VFrame { state: FrameState::SquareAfterValue, ..f },
                ),
                ..s
            },
            marker(c),
        ),
    }
}

/// One full step of the automaton: consume the lookahead (skipping
/// whitespace into the new lookahead) and run the top frame's transition
/// on it.  Input arriving after the document closed is fatal.
pub open spec fn spec_step(s: SState) -> StepRes {
    match spec_skip(s) {
        Err(k) => StepRes::Dead(k),
        Ok((c, s1)) => {
            if s1.stack.len() == 0 {
                StepRes::Dead(FaultKind::TrailingData)
            } else {
                spec_transition(s1, s1.stack.len() - 1, c)
            }
        },
    }
}

/// Refilling the lookahead only consumes: afterwards the measure is at
/// most the count of unproduced bytes there were before.
pub proof fn lemma_refill_ws_measure(s: SState)
    ensures
        spec_refill_ws(s) matches Ok(s1) ==> measure(s1) <= s.rest.len()
            && s1.stack == s.stack && s1.mem == s.mem,
    decreases s.rest.len(),
{
    if s.rest.len() == 0 {
    } else {
        let b = s.rest[0];
        if is_ws(b) {
            let s1 = spec_pull(s)->Ok_0.1;
            lemma_refill_ws_measure(SState { ahead: b, ..s1 });
        }
    }
}

/// A successful skip leaves at most the unproduced bytes as measure, and
/// it never touches the stack.
pub proof fn lemma_skip_measure(s: SState)
    ensures
        spec_skip(s) matches Ok((c, s1)) ==> measure(s1) <= s.rest.len()
            && s1.stack == s.stack && s1.mem == s.mem,
{
    lemma_refill_ws_measure(s);
}

/// Advancing consumes: the measure never grows, and shrinks when the
/// lookahead held a byte.
pub proof fn lemma_advance_measure(s: SState)
    ensures
        spec_advance(s) matches Ok((c, s1)) ==> measure(s1) <= measure(s)
            && (s.ahead != 0 ==> measure(s1) < measure(s))
            && s1.stack == s.stack && s1.mem == s.mem,
{
}

/// Skipping trailing whitespace never grows the measure.
pub proof fn lemma_post_ws_measure(s: SState)
    ensures
        spec_post_ws(s) matches Ok(s1) ==> measure(s1) <= measure(s)
            && s1.stack == s.stack && s1.mem == s.mem,
{
    if is_ws(s.ahead) {
        lemma_refill_ws_measure(s);
    }
}

/// Reading a string token never grows the measure, and shrinks it when
/// the lookahead held a byte.
pub proof fn lemma_string_measure(s: SState)
    ensures
        spec_string_bytes(s) matches Ok((bs, s2)) ==> measure(s2) <= measure(s)
            && (s.ahead != 0 ==> measure(s2) < measure(s))
            && s2.stack == s.stack && s2.mem == s.mem,
    decreases measure(s),
{
    lemma_advance_measure(s);
    if let Ok((c, s1)) = spec_advance(s) {
        if c == 34 {
            lemma_post_ws_measure(s1);
        } else if c == 92 {
            lemma_advance_measure(s1);
            if let Ok((c2, s2)) = spec_advance(s1) {
                if c2 != 0 {
                    lemma_string_measure(s2);
                }
            }
        } else if c != 0 {
            lemma_string_measure(s1);
        }
    }
}

/// Reading the tail of a number never grows the measure.
pub proof fn lemma_number_measure(s: SState, acc: Seq<u8>, ends_digit: bool, seen_dot: bool)
    ensures
        spec_number(s, acc, ends_digit, seen_dot) matches Ok((vt, bs, s2)) ==> measure(s2)
            <= measure(s) && s2.stack == s.stack && s2.mem == s.mem,
    decreases measure(s),
{
    let b = s.ahead;
    lemma_advance_measure(s);
    if b == 46 && !seen_dot {
        if let Ok((_, s1)) = spec_advance(s) {
            lemma_number_measure(s1, acc.push(b), false, true);
        }
    } else if is_digit(b) {
        if let Ok((_, s1)) = spec_advance(s) {
            lemma_number_measure(s1, acc.push(b), true, seen_dot);
        }
    } else {
        lemma_post_ws_measure(s);
    }
}

/// Matching the tail of a keyword never grows the measure.
pub proof fn lemma_keyword_measure(s: SState, kw: Seq<u8>, i: int)
    ensures
        spec_keyword(s, kw, i) matches Ok(s1) ==> measure(s1) <= measure(s)
            && s1.stack == s.stack && s1.mem == s.mem,
    decreases kw.len() - i,
{
    if i < kw.len() {
        lemma_advance_measure(s);
        if let Ok((c, s1)) = spec_advance(s) {
            if c == kw[i] {
                lemma_keyword_measure(s1, kw, i + 1);
            }
        }
    }
}

/// Reading a word token never grows the measure.
pub proof fn lemma_word_measure(s: SState, c: u8)
    ensures
        spec_word(s, c) matches Ok((vt, bs, s2)) ==> measure(s2) <= measure(s)
            && s2.stack == s.stack && s2.mem == s.mem,
{
    if c == 43 || c == 45 || is_digit(c) {
        lemma_number_measure(s, seq![c], is_digit(c), false);
    } else if c == 110 || c == 116 || c == 102 {
        let kw = keyword_bytes(if c == 110 {
            ValueType::Null
        } else {
            ValueType::Bool
        }, c);
        lemma_keyword_measure(s, kw, 1);
        if let Ok(s1) = spec_keyword(s, kw, 1) {
            lemma_post_ws_measure(s1);
        }
    }
}

/// One automaton step consumes at least the byte it processes: on
/// success the measure is bounded by the unproduced bytes there were,
/// so it shrinks whenever the lookahead held a byte.
pub proof fn lemma_step_measure(s: SState)
    ensures
        spec_step(s) matches StepRes::Good(s2, it) ==> measure(s2) <= s.rest.len()
            && measure(s2) <= measure(s)
            && (s.ahead != 0 ==> measure(s2) < measure(s))
            && s2.mem == s.mem,
{
    lemma_skip_measure(s);
    if let Ok((c, s1)) = spec_skip(s) {
        if s1.stack.len() > 0 {
            let idx = s1.stack.len() - 1;
            let f = s1.stack[idx];
            match f.state {
                FrameState::ColonStart => {
                    let sp = SState { stack: s1.stack.remove(idx), ..s1 };
                    if c == 34 {
                        lemma_string_measure(sp);
                    } else if !(c == 123 || c == 91 || c == 125 || c == 93 || c == 44 || c
                        == 58) {
                        lemma_word_measure(sp, c);
                    }
                },
                FrameState::BraceStart => {
                    if c == 34 {
                        lemma_string_measure(s1);
                    }
                },
                FrameState::SquareStart => {
                    let su = SState {
                        stack: s1.stack.update(
                            idx,
                            VFrame { state: FrameState::SquareAfterValue, ..f },
                        ),
                        ..s1
                    };
                    if c == 34 {
                        lemma_string_measure(su);
                    } else if !(c == 123 || c == 91 || c == 93 || c == 44 || c == 58 || c
                        == 125) {
                        lemma_word_measure(su, c);
                    }
                },
                _ => {},
            }
        }
    }
}

/// Refilling the lookahead cannot fail while at most the root and its
/// pending-value frame are open.
pub proof fn lemma_refill_ws_ok(s: SState)
    requires
        s.stack.len() <= 2,
    ensures
        spec_refill_ws(s) is Ok,
    decreases s.rest.len(),
{
    if s.rest.len() > 0 {
        let b = s.rest[0];
        if is_ws(b) {
            let s1 = spec_pull(s)->Ok_0.1;
            lemma_refill_ws_ok(SState { ahead: b, ..s1 });
        }
    }
}


/// The outcome of a navigation request.
pub enum NavRes {
    /// A key or value was found, with the session state after it.
    Found(VItemKind, ValueType, Seq<char>, SState),
    /// The source ran out before a matching item appeared.
    Eos(SState),
    /// A fatal structural fault of the given kind.
    Dead(FaultKind),
}

/// End of input as the navigation surface reports it: recoverable end
/// of stream only once the stack has unwound to the root; with any
/// container still open it is the fatal truncation.
pub open spec fn spec_exhausted(s: SState) -> NavRes {
    if s.stack.len() <= 1 {
        NavRes::Eos(s)
    } else {
        NavRes::Dead(FaultKind::Truncated)
    }
}

/// The next key or value the automaton emits, skipping structural
/// markers.
pub open spec fn spec_next_item(s: SState) -> NavRes
    decreases measure(s),
    via spec_next_item_dec
{
    if s.ahead == 0 {
        spec_exhausted(s)
    } else {
        match spec_step(s) {
            StepRes::Dead(k) => NavRes::Dead(k),
            StepRes::Good(s2, it) => {
                if it.kind is Marker {
                    spec_next_item(s2)
                } else {
                    NavRes::Found(it.kind, it.vt, it.text, s2)
                }
            },
        }
    }
}

#[via_fn]
proof fn spec_next_item_dec(s: SState) {
    lemma_step_measure(s);
}

/// The next key the automaton emits, skipping values and structural
/// markers.
pub open spec fn spec_next_key(s: SState) -> NavRes
    decreases measure(s),
    via spec_next_key_dec
{
    if s.ahead == 0 {
        spec_exhausted(s)
    } else {
        match spec_step(s) {
            StepRes::Dead(k) => NavRes::Dead(k),
            StepRes::Good(s2, it) => {
                if it.kind is Key {
                    NavRes::Found(it.kind, it.vt, it.text, s2)
                } else {
                    spec_next_key(s2)
                }
            },
        }
    }
}

#[via_fn]
proof fn spec_next_key_dec(s: SState) {
    lemma_step_measure(s);
}

/// Finding an item consumes input; running out returns the state
/// untouched.
pub proof fn lemma_next_item_measure(s: SState)
    ensures
        spec_next_item(s) matches NavRes::Found(k, vt, tx, s2) ==> measure(s2) < measure(s)
            && s2.mem == s.mem,
    decreases measure(s),
{
    if s.ahead != 0 {
        lemma_step_measure(s);
        if let StepRes::Good(s2, it) = spec_step(s) {
            if it.kind is Marker {
                lemma_next_item_measure(s2);
            }
        }
    }
}

/// Finding a key consumes input; running out returns the state
/// untouched.
pub proof fn lemma_next_key_measure(s: SState)
    ensures
        spec_next_key(s) matches NavRes::Found(k, vt, tx, s2) ==> measure(s2) < measure(s)
            && s2.mem == s.mem,
    decreases measure(s),
{
    if s.ahead != 0 {
        lemma_step_measure(s);
        if let StepRes::Good(s2, it) = spec_step(s) {
            if !(it.kind is Key) {
                lemma_next_key_measure(s2);
            }
        }
    }
}

/// The first key named `name` that still lies ahead.
pub open spec fn spec_next_key_by_name(s: SState, name: Seq<char>) -> NavRes
    decreases measure(s),
    via spec_next_key_by_name_dec
{
    match spec_next_key(s) {
        NavRes::Dead(k) => NavRes::Dead(k),
        NavRes::Eos(s1) => NavRes::Eos(s1),
        NavRes::Found(k, vt, tx, s2) => {
            if tx == name {
                NavRes::Found(k, vt, tx, s2)
            } else {
                spec_next_key_by_name(s2, name)
            }
        },
    }
}

#[via_fn]
proof fn spec_next_key_by_name_dec(s: SState, name: Seq<char>) {
    lemma_next_key_measure(s);
}

/// The next key or value emitted from a position whose level coordinate
/// equals `target` half-steps.
pub open spec fn spec_next_item_by_level(s: SState, target: int) -> NavRes
    decreases measure(s),
    via spec_next_item_by_level_dec
{
    if s.ahead == 0 {
        spec_exhausted(s)
    } else {
        match spec_step(s) {
            StepRes::Dead(k) => NavRes::Dead(k),
            StepRes::Good(s2, it) => {
                if spec_current_level_m(s2) == target && !(it.kind is Marker) {
                    NavRes::Found(it.kind, it.vt, it.text, s2)
                } else {
                    spec_next_item_by_level(s2, target)
                }
            },
        }
    }
}

#[via_fn]
proof fn spec_next_item_by_level_dec(s: SState, target: int) {
    lemma_step_measure(s);
}

/// The level coordinate of a session state, in half-steps: the top
/// frame's level, or one whole level below the root when the stack has
/// emptied.
pub open spec fn spec_current_level_m(s: SState) -> int {
    if s.stack.len() == 0 {
        -2
    } else {
        s.stack.last().level_halves
    }
}

/// The outcome of a level seek.
pub enum SeekRes {
    /// The scan ended: the flag says whether the target level was hit
    /// with further data still following at it.
    Done(bool, SState),
    /// A fatal structural fault of the given kind.
    Dead(FaultKind),
}

/// Walk forward until the level coordinate equals `target` half-steps;
/// the result says whether more data can follow at that level (the next
/// byte is not a closer).
pub open spec fn spec_seek(s: SState, target: int) -> SeekRes
    decreases measure(s),
    via spec_seek_dec
{
    if s.ahead == 0 {
        if s.stack.len() <= 1 {
            SeekRes::Done(false, s)
        } else {
            SeekRes::Dead(FaultKind::Truncated)
        }
    } else {
        match spec_step(s) {
            StepRes::Dead(k) => SeekRes::Dead(k),
            StepRes::Good(s2, _) => {
                if s2.stack.len() > 0 && s2.stack.last().level_halves == target {
                    SeekRes::Done(s2.ahead != 125 && s2.ahead != 93, s2)
                } else {
                    spec_seek(s2, target)
                }
            },
        }
    }
}

#[via_fn]
proof fn spec_seek_dec(s: SState, target: int) {
    lemma_step_measure(s);
}

/// The scan of a child-key request, bounded to the current node's
/// subtree: a key emitted at `target` half-steps is the child key; the
/// level falling back to `base` half-steps or below means the value was
/// consumed without one, which is the recoverable no-child outcome.
pub open spec fn spec_child_scan(s: SState, base: int, target: int) -> NavRes
    decreases measure(s),
    via spec_child_scan_dec
{
    if s.ahead == 0 {
        spec_exhausted(s)
    } else {
        match spec_step(s) {
            StepRes::Dead(k) => NavRes::Dead(k),
            StepRes::Good(s2, it) => {
                if spec_current_level_m(s2) == target && it.kind is Key {
                    NavRes::Found(it.kind, it.vt, it.text, s2)
                } else if spec_current_level_m(s2) <= base {
                    NavRes::Eos(s2)
                } else {
                    spec_child_scan(s2, base, target)
                }
            },
        }
    }
}

#[via_fn]
proof fn spec_child_scan_dec(s: SState, base: int, target: int) {
    lemma_step_measure(s);
}

/// The next child key: the first key exactly one level below the
/// current node, inside the current node's own value.  A scalar value
/// is consumed without yielding one, which reports end of stream.
pub open spec fn spec_next_child(s: SState) -> NavRes {
    if s.ahead == 0 {
        spec_exhausted(s)
    } else if s.stack.len() == 0 {
        NavRes::Dead(FaultKind::TrailingData)
    } else {
        let h = s.stack.last().level_halves;
        let fr = h % 2;
        spec_child_scan(s, h - fr, h + 2 - fr)
    }
}

/// Walking `n` items forward.
pub open spec fn spec_move_n(s: SState, n: nat) -> Result<SState, FaultKind>
    decreases n,
{
    if n == 0 {
        Ok(s)
    } else {
        match spec_step(s) {
            StepRes::Dead(k) => Err(k),
            StepRes::Good(s1, _) => spec_move_n(s1, (n - 1) as nat),
        }
    }
}

/// A step taken while the lookahead already held the end sentinel can
/// only emit a structural marker, from a frame that was waiting for a
/// nested container to return.
pub proof fn lemma_step_zero(s: SState)
    ensures
        (s.ahead == 0 && spec_step(s) matches StepRes::Good(s2, it)) ==> (spec_step(
            s,
        )->Good_1.kind is Marker && s.stack.len() > 0 && (s.stack.last().state
            == FrameState::ColonAfterReturn || s.stack.last().state
            == FrameState::SquareAfterReturn)),
{
    lemma_refill_ws_measure(s);
}

/// The items that one step emits come out of a live lookahead: a key or
/// value is never emitted once the lookahead holds the end sentinel.
pub proof fn lemma_step_item(s: SState)
    ensures
        spec_step(s) matches StepRes::Good(s2, it) && !(it.kind is Marker) ==> s.ahead != 0,
{
    lemma_step_zero(s);
}

/// Walk past pending colons, commas and object frames, to stand right
/// before a value.
pub open spec fn spec_before_value(s: SState) -> Result<SState, FaultKind>
    decreases measure(s),
    via spec_before_value_dec
{
    if s.ahead == 58 || s.ahead == 44 || (s.stack.len() > 0 && spec_symbol(
        s.stack.last().state,
    ) == '{') {
        match spec_step(s) {
            StepRes::Dead(k) => Err(k),
            StepRes::Good(s1, _) => spec_before_value(s1),
        }
    } else {
        Ok(s)
    }
}

#[via_fn]
proof fn spec_before_value_dec(s: SState) {
    lemma_step_measure(s);
    lemma_step_zero(s);
}

/// The sequence of keys still ahead of a session state, in emission
/// order, up to the end of the stream or the first fault.
pub open spec fn doc_keys(s: SState) -> Seq<Seq<char>>
    decreases measure(s),
    via doc_keys_dec
{
    if s.ahead == 0 {
        Seq::empty()
    } else {
        match spec_step(s) {
            StepRes::Dead(k) => Seq::empty(),
            StepRes::Good(s2, it) => {
                if it.kind is Key {
                    seq![it.text] + doc_keys(s2)
                } else {
                    doc_keys(s2)
                }
            },
        }
    }
}

#[via_fn]
proof fn doc_keys_dec(s: SState) {
    lemma_step_measure(s);
}

/// The sequence of keys and values still ahead of a session state, in
/// emission order, up to the end of the stream or the first fault.
pub open spec fn doc_items(s: SState) -> Seq<(VItemKind, ValueType, Seq<char>)>
    decreases measure(s),
    via doc_items_dec
{
    if s.ahead == 0 {
        Seq::empty()
    } else {
        match spec_step(s) {
            StepRes::Dead(k) => Seq::empty(),
            StepRes::Good(s2, it) => {
                if it.kind is Marker {
                    doc_items(s2)
                } else {
                    seq![(it.kind, it.vt, it.text)] + doc_items(s2)
                }
            },
        }
    }
}

#[via_fn]
proof fn doc_items_dec(s: SState) {
    lemma_step_measure(s);
}


/// One key or value extracted wholesale; a structural marker here means
/// the cursor was not standing at an item.
pub open spec fn spec_extract_item(s: SState) -> Result<(ValueType, Seq<char>, SState), FaultKind> {
    match spec_step(s) {
        StepRes::Dead(k) => Err(k),
        StepRes::Good(s2, it) => {
            if it.kind is Marker {
                Err(FaultKind::UnexpectedByte)
            } else {
                Ok((it.vt, it.text, s2))
            }
        },
    }
}

/// Extracting an item consumes input.
pub proof fn lemma_extract_item_measure(s: SState)
    ensures
        spec_extract_item(s) matches Ok((vt, tx, s2)) ==> measure(s2) < measure(s),
{
    lemma_step_measure(s);
    lemma_step_item(s);
}

/// Materialize the value the cursor stands at: a scalar becomes a leaf,
/// an opening bracket a sequence, an opening brace a mapping.
pub open spec fn spec_extract_value(s: SState) -> Result<(VContent, SState), FaultKind>
    decreases measure(s), 0nat,
    via spec_extract_value_dec
{
    if s.ahead == 91 {  // '['
        match spec_step(s) {
            StepRes::Dead(k) => Err(k),
            StepRes::Good(s1, _) => spec_extract_array(s1, Seq::empty()),
        }
    } else if s.ahead == 123 {  // '{'
        match spec_step(s) {
            StepRes::Dead(k) => Err(k),
            StepRes::Good(s1, _) => spec_extract_object(s1, Seq::empty()),
        }
    } else {
        match spec_step(s) {
            StepRes::Dead(k) => Err(k),
            StepRes::Good(s1, it) => {
                if it.kind is Value {
                    Ok((VContent::Simple(it.vt, it.text), s1))
                } else {
                    Err(FaultKind::UnexpectedByte)
                }
            },
        }
    }
}

#[via_fn]
proof fn spec_extract_value_dec(s: SState) {
    lemma_step_measure(s);
}

/// Materialize the remaining elements of an array whose opening bracket
/// was consumed; `acc` holds the elements already read.
pub open spec fn spec_extract_array(s: SState, acc: Seq<VContent>) -> Result<
    (VContent, SState),
    FaultKind,
>
    decreases measure(s), 1nat,
    via spec_extract_array_dec
{
    if s.ahead == 44 {  // ','
        match spec_step(s) {
            StepRes::Dead(k) => Err(k),
            StepRes::Good(s1, _) => spec_extract_array(s1, acc),
        }
    } else if s.ahead == 93 {  // ']'
        match spec_step(s) {
            StepRes::Dead(k) => Err(k),
            StepRes::Good(s1, _) => Ok((VContent::Array(acc), s1)),
        }
    } else {
        match spec_extract_value(s) {
            Err(k) => Err(k),
            Ok((v, s1)) => {
                if measure(s1) < measure(s) {
                    spec_extract_array(s1, acc.push(v))
                } else {
                    // materializing an element always consumes input, so
                    // this guard never fails; it carries the termination
                    // argument
                    Err(FaultKind::Internal)
                }
            },
        }
    }
}

#[via_fn]
proof fn spec_extract_array_dec(s: SState, acc: Seq<VContent>) {
    lemma_step_measure(s);
}

/// Materialize the remaining members of an object whose opening brace
/// was consumed; `acc` holds the members already read, in document
/// order.
pub open spec fn spec_extract_object(s: SState, acc: Seq<(Seq<char>, VContent)>) -> Result<
    (VContent, SState),
    FaultKind,
>
    decreases measure(s), 1nat,
    via spec_extract_object_dec
{
    if s.ahead == 125 {  // '}'
        match spec_step(s) {
            StepRes::Dead(k) => Err(k),
            StepRes::Good(s1, _) => Ok((VContent::Object(acc), s1)),
        }
    } else {
        match spec_extract_item(s) {
            Err(k) => Err(k),
            Ok((kvt, key, s1)) => {
                match spec_step(s1) {
                    StepRes::Dead(k) => Err(k),
                    StepRes::Good(s2, _) => {
                        match spec_extract_value(s2) {
                            Err(k) => Err(k),
                            Ok((v, s3)) => {
                                let acc2 = acc.push((key, v));
                                if s3.ahead == 44 {  // ','
                                    match spec_step(s3) {
                                        StepRes::Dead(k) => Err(k),
                                        StepRes::Good(s4, _) => {
                                            if measure(s4) < measure(s) {
                                                spec_extract_object(s4, acc2)
                                            } else {
                                                // a member always consumes
                                                // input; the guard carries
                                                // the termination argument
                                                Err(FaultKind::Internal)
                                            }
                                        },
                                    }
                                } else if s3.ahead == 125 {  // '}'
                                    match spec_step(s3) {
                                        StepRes::Dead(k) => Err(k),
                                        StepRes::Good(s4, _) => Ok(
                                            (VContent::Object(acc2), s4),
                                        ),
                                    }
                                } else {
                                    Err(FaultKind::UnexpectedByte)
                                }
                            },
                        }
                    },
                }
            },
        }
    }
}

#[via_fn]
proof fn spec_extract_object_dec(s: SState, acc: Seq<(Seq<char>, VContent)>) {
    lemma_extract_item_measure(s);
    if s.ahead != 125 {
        if let Ok((kvt, key, s1)) = spec_extract_item(s) {
            lemma_step_measure(s1);
        }
    }
}

/// Materializing a value consumes input.
pub proof fn lemma_extract_value_measure(s: SState)
    ensures
        spec_extract_value(s) matches Ok((v, s2)) ==> measure(s2) < measure(s),
    decreases measure(s), 0nat,
{
    lemma_step_measure(s);
    if s.ahead == 91 || s.ahead == 123 {
        if let StepRes::Good(s1, _) = spec_step(s) {
            if s.ahead == 91 {
                lemma_extract_array_measure(s1, Seq::empty());
            } else {
                lemma_extract_object_measure(s1, Seq::empty());
            }
        }
    }
}

/// Materializing the tail of an array never grows the input.
pub proof fn lemma_extract_array_measure(s: SState, acc: Seq<VContent>)
    ensures
        spec_extract_array(s, acc) matches Ok((v, s2)) ==> measure(s2) <= measure(s),
    decreases measure(s), 1nat,
{
    lemma_step_measure(s);
    if s.ahead == 44 {
        if let StepRes::Good(s1, _) = spec_step(s) {
            lemma_extract_array_measure(s1, acc);
        }
    } else if s.ahead == 93 {
    } else {
        lemma_extract_value_measure(s);
        if let Ok((v, s1)) = spec_extract_value(s) {
            if measure(s1) < measure(s) {
                lemma_extract_array_measure(s1, acc.push(v));
            }
        }
    }
}

/// Materializing the tail of an object never grows the input.
pub proof fn lemma_extract_object_measure(s: SState, acc: Seq<(Seq<char>, VContent)>)
    ensures
        spec_extract_object(s, acc) matches Ok((v, s2)) ==> measure(s2) <= measure(s),
    decreases measure(s), 1nat,
{
    lemma_step_measure(s);
    if s.ahead != 125 {
        lemma_extract_item_measure(s);
        if let Ok((kvt, key, s1)) = spec_extract_item(s) {
            lemma_step_measure(s1);
            if let StepRes::Good(s2, _) = spec_step(s1) {
                lemma_extract_value_measure(s2);
                if let Ok((v, s3)) = spec_extract_value(s2) {
                    lemma_step_measure(s3);
                    let acc2 = acc.push((key, v));
                    if s3.ahead == 44 {
                        if let StepRes::Good(s4, _) = spec_step(s3) {
                            if measure(s4) < measure(s) {
                                lemma_extract_object_measure(s4, acc2);
                            }
                        }
                    }
                }
            }
        }
    }
}

} // verus!
