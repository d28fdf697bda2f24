//! The fixed-capacity containers of `heapless` that the kernel keeps its
//! serial queues and its short texts in, each held in a struct of this crate
//! and reached through small trusted wrappers.
use vstd::prelude::*;
use vstd::string::StringSliceAdditionalSpecFns;
use vstd::utf8::{encode_scalar, is_ascii_chars};

verus! {

/// How many bytes a [`ByteQueue`] holds at most.
pub const QUEUE_CAPACITY: usize = 256;

/// How many bytes of UTF-8 a [`Text`] holds at most.
pub const TEXT_CAPACITY: usize = 32;

/// A first-in first-out queue of at most 256 bytes (`heapless::Deque<u8, 256>`).
#[verifier::external_body]
pub struct ByteQueue {
    inner: heapless::Deque<u8, 256>,
}

/// The bytes held by a queue, front first.
pub uninterp spec fn queue_contents(queue: ByteQueue) -> Seq<u8>;

impl View for ByteQueue {
    type V = Seq<u8>;

    open spec fn view(&self) -> Seq<u8> {
        queue_contents(*self)
    }
}

impl ByteQueue {
    /// `heapless::Deque::new`: the queue starts empty.
    #[verifier::external_body]
    pub(crate) fn new() -> (queue: ByteQueue)
        ensures
            queue_contents(queue) == Seq::<u8>::empty(),
    {
        ByteQueue { inner: heapless::Deque::new() }
    }

    /// `heapless::Deque::push_back`: while fewer than 256 bytes are queued the
    /// byte goes to the back; a full queue is left as it was and the byte is
    /// handed back. A deque never holds more than its capacity of 256.
    #[verifier::external_body]
    pub(crate) fn push_back(&mut self, byte: u8) -> (result: Result<(), u8>)
        ensures
            queue_contents(*old(self)).len() < 256 ==> result is Ok,
            queue_contents(*old(self)).len() < 256 ==> queue_contents(*final(self))
                == queue_contents(*old(self)).push(byte),
            queue_contents(*old(self)).len() >= 256 ==> result is Err && result->Err_0 == byte,
            queue_contents(*old(self)).len() >= 256 ==> queue_contents(*final(self))
                == queue_contents(*old(self)),
            queue_contents(*final(self)).len() <= 256,
    {
        self.inner.push_back(byte)
    }

    /// `heapless::Deque::pop_front`: removes and returns the front byte, or
    /// `None` when the queue is empty. A deque never holds more than its
    /// capacity of 256.
    #[verifier::external_body]
    pub(crate) fn pop_front(&mut self) -> (result: Option<u8>)
        ensures
            queue_contents(*old(self)).len() == 0 ==> result is None,
            queue_contents(*old(self)).len() == 0 ==> queue_contents(*final(self))
                == queue_contents(*old(self)),
            queue_contents(*old(self)).len() > 0 ==> result == Some(queue_contents(*old(self))[0]),
            queue_contents(*old(self)).len() > 0 ==> queue_contents(*final(self))
                == queue_contents(*old(self)).drop_first(),
            queue_contents(*final(self)).len() <= 256,
    {
        self.inner.pop_front()
    }
}

/// A text of at most 32 bytes of UTF-8 (`heapless::String<32>`).
#[verifier::external_body]
pub struct Text {
    inner: heapless::String<32>,
}

/// The UTF-8 bytes of a text.
pub uninterp spec fn text_contents(text: Text) -> Seq<u8>;

impl View for Text {
    type V = Seq<u8>;

    open spec fn view(&self) -> Seq<u8> {
        text_contents(*self)
    }
}

impl Text {
    /// `heapless::String::new`: the text starts empty.
    #[verifier::external_body]
    pub(crate) fn new() -> (text: Text)
        ensures
            text_contents(text) == Seq::<u8>::empty(),
    {
        Text { inner: heapless::String::new() }
    }

    /// `heapless::String::try_from(&str)`: succeeds exactly when the UTF-8 of
    /// `s` fits in 32 bytes, and then holds those bytes.
    #[verifier::external_body]
    pub(crate) fn from_str(s: &str) -> (result: Option<Text>)
        ensures
            result is Some <==> s.spec_bytes().len() <= 32,
            result is Some ==> text_contents(result->0) == s.spec_bytes(),
    {
        match heapless::String::try_from(s) {
            Ok(inner) => Some(Text { inner }),
            Err(_) => None,
        }
    }

    /// `heapless::String::push`: appends the UTF-8 encoding of `c` when it
    /// fits in the remaining room; otherwise the text is left as it was.
    #[verifier::external_body]
    pub(crate) fn push(&mut self, c: char) -> (pushed: bool)
        ensures
            pushed == (text_contents(*old(self)).len() + encode_scalar(c as u32).len() <= 32),
            pushed ==> text_contents(*final(self)) == text_contents(*old(self)) + encode_scalar(c as u32),
            !pushed ==> text_contents(*final(self)) == text_contents(*old(self)),
    {
        self.inner.push(c).is_ok()
    }

    /// `heapless::String::clear`: the text becomes empty.
    #[verifier::external_body]
    pub(crate) fn clear(&mut self)
        ensures
            text_contents(*final(self)) == Seq::<u8>::empty(),
    {
        self.inner.clear()
    }

    /// `heapless::String::as_str`, seen as bytes: the text's UTF-8 bytes.
    #[verifier::external_body]
    pub(crate) fn utf8_bytes(&self) -> (bytes: &[u8])
        ensures
            bytes@ == text_contents(*self),
    {
        self.inner.as_str().as_bytes()
    }

    /// The text's UTF-8 bytes.
    pub fn as_bytes(&self) -> (bytes: &[u8])
        ensures
            bytes@ == text_contents(*self),
    {
        self.utf8_bytes()
    }
}

/// The UTF-8 of an ASCII string is its characters, one byte each.
pub proof fn lemma_ascii_bytes(s: &str)
    requires
        is_ascii_chars(s@),
    ensures
        s.spec_bytes().len() == s@.len(),
        forall|i: int| 0 <= i < s@.len() ==> s.spec_bytes()[i] == s@[i] as u8,
{
    vstd::utf8::is_ascii_chars_encode_utf8(s@);
}

/// An ASCII character is encoded in UTF-8 as its own byte.
pub proof fn lemma_ascii_scalar(b: u8)
    requires
        b < 128,
    ensures
        encode_scalar(b as u32) == seq![b],
{
    let x = b as u32;
    assert((x & 0x7F) as u8 == b) by (bit_vector)
        requires
            x == b as u32,
            b < 128,
    ;
}

/// The bytes of an ASCII string.
pub(crate) fn ascii_bytes(s: &str) -> (bytes: &[u8])
    requires
        is_ascii_chars(s@),
    ensures
        bytes@.len() == s@.len(),
        forall|i: int| 0 <= i < s@.len() ==> bytes@[i] == s@[i] as u8,
{
    proof {
        lemma_ascii_bytes(s);
    }
    s.as_bytes()
}

/// A `Text` holding an ASCII string of at most 32 characters.
pub(crate) fn text_of(s: &str) -> (text: Text)
    requires
        is_ascii_chars(s@),
        s@.len() <= TEXT_CAPACITY,
    ensures
        text@.len() == s@.len(),
        forall|i: int| 0 <= i < s@.len() ==> text@[i] == s@[i] as u8,
{
    proof {
        lemma_ascii_bytes(s);
    }
    Text::from_str(s).unwrap()
}

} // verus!
