//! Byte sources: the external collaborators that feed the parser.
//!
//! A byte source is a finite, single-pass, non-restartable producer of
//! bytes.  Its abstract content is the sequence of bytes it has not yet
//! produced; each successful pull hands out the head of that sequence.

use vstd::prelude::*;

verus! {

/// A finite, single-pass supplier of bytes.
///
/// `remaining()` is the abstract sequence of bytes the source will still
/// produce, in order.  `pull` hands out its head, or `None` once it is
/// exhausted; an exhausted source stays exhausted.
pub trait ByteSource: Sized {
    /// The bytes this source has not produced yet.
    spec fn remaining(&self) -> Seq<u8>;

    /// A source never holds more bytes than a machine-sized count.
    proof fn remaining_fits(&self)
        ensures
            self.remaining().len() <= usize::MAX,
    ;

    /// Produce the next byte, or report exhaustion.
    fn pull(&mut self) -> (r: Option<u8>)
        ensures
            match r {
                Some(b) => old(self).remaining().len() > 0 && b == old(self).remaining()[0]
                    && final(self).remaining() == old(self).remaining().skip(1),
                None => old(self).remaining().len() == 0
                    && final(self).remaining() == old(self).remaining(),
            },
    ;
}

/// An in-memory byte source over the UTF-8 bytes of a `String`.
pub struct StringReader {
    bytes: Vec<u8>,
    pos: usize,
}

impl StringReader {
    /// Wraps the text's bytes as a source that yields them front to back.
    pub fn new(json_text: String) -> (r: StringReader)
        ensures
            r.remaining() == vstd::utf8::encode_utf8(json_text@),
    {
        let bytes = json_text.as_str().as_bytes_vec();
        let r = StringReader { bytes, pos: 0 };
        assert(r.remaining() =~= r.bytes@);
        r
    }
}

impl ByteSource for StringReader {
    closed spec fn remaining(&self) -> Seq<u8> {
        if self.pos <= self.bytes@.len() {
            self.bytes@.skip(self.pos as int)
        } else {
            Seq::empty()
        }
    }

    proof fn remaining_fits(&self) {
        broadcast use vstd::std_specs::vec::axiom_spec_len;

        assert(self.bytes.len() == self.bytes@.len());
        assert(self.remaining().len() <= self.bytes@.len());
    }

    fn pull(&mut self) -> (r: Option<u8>) {
        if self.pos < self.bytes.len() {
            let b = self.bytes[self.pos];
            self.pos = self.pos + 1;
            assert(final(self).remaining() =~= old(self).remaining().skip(1));
            Some(b)
        } else {
            assert(old(self).remaining().len() == 0);
            None
        }
    }
}

} // verus!
