//! The `/dev/hackbot` character device's buffer: the response to the last
//! prompt, clipped to the buffer, and what a read at a file position gets
//! of it (as the kernel's `simple_read_from_buffer` serves one). Copying
//! to and from user space is the driver's.

use vstd::prelude::*;

use crate::net::{append_bytes, append_str, lit, BYTE_LF};
use crate::vllm::MAX_RESPONSE_SIZE;

verus! {

/// `EINVAL`: a read at a negative file position.
pub const EINVAL: u32 = 22;

/// The response buffer shared by the device's readers and writers.
pub struct SharedResponse {
    /// The response, at most `MAX_RESPONSE_SIZE` bytes.
    pub data: Vec<u8>,
    /// Whether a response is waiting.
    pub ready: bool,
}

/// At most the first `max` bytes of `s`.
pub open spec fn clipped(s: Seq<u8>, max: int) -> Seq<u8> {
    if s.len() <= max { s } else { s.take(max) }
}

/// What a read of `count` bytes at file position `pos` gets of `data`: the
/// bytes from `pos` on, at most `count` of them; nothing at or past the end
/// or for no bytes; `EINVAL` for a negative position. The file position
/// then moves on by as many bytes.
pub open spec fn read_result(data: Seq<u8>, pos: int, count: int) -> Result<Seq<u8>, u32> {
    if pos < 0 {
        Err(EINVAL)
    } else if pos >= data.len() || count == 0 {
        Ok(seq![])
    } else {
        Ok(data.subrange(pos, if count < data.len() - pos { pos + count } else { data.len() as int }))
    }
}

impl SharedResponse {
    /// No response yet.
    pub fn new() -> (r: SharedResponse)
        ensures
            r.data@.len() == 0,
            !r.ready,
    {
        SharedResponse { data: Vec::new(), ready: false }
    }

    /// Keep the response to the last prompt: its first `MAX_RESPONSE_SIZE`
    /// bytes, ready to be read.
    pub fn store(&mut self, response: &[u8])
        ensures
            final(self).data@ == clipped(response@, MAX_RESPONSE_SIZE as int),
            final(self).ready,
    {
        let n = if response.len() < MAX_RESPONSE_SIZE { response.len() } else { MAX_RESPONSE_SIZE };
        let mut data: Vec<u8> = Vec::new();
        let mut i: usize = 0;
        while i < n
            invariant
                i <= n,
                n <= response@.len(),
                data@ == response@.take(i as int),
            decreases n - i,
        {
            data.push(response[i]);
            i = i + 1;
            assert(data@ =~= response@.take(i as int));
        }
        assert(response@.take(n as int) =~= clipped(response@, MAX_RESPONSE_SIZE as int));
        self.data = data;
        self.ready = true;
    }

    /// What a read of `count` bytes at file position `pos` gets: nothing
    /// before a response is ready, else the bytes of its window (the file
    /// position then moves to the window's end); `EINVAL` for a negative
    /// position.
    pub fn read(&self, pos: i64, count: usize) -> (r: Result<&[u8], u32>)
        ensures
            !self.ready ==> (r matches Ok(b) && b@.len() == 0),
            self.ready ==> match read_result(self.data@, pos as int, count as int) {
                Err(e) => r == Err::<&[u8], u32>(e),
                Ok(bytes) => r matches Ok(b) && b@ == bytes,
            },
    {
        if !self.ready {
            return Ok(&[]);
        }
        if pos < 0 {
            return Err(EINVAL);
        }
        let len = self.data.len();
        if pos as u64 >= len as u64 || count == 0 {
            let empty: &[u8] = &[];
            assert(empty@ =~= Seq::<u8>::empty());
            return Ok(empty);
        }
        let start = pos as usize;
        let end = if count < len - start { start + count } else { len };
        let r = slice_range(self.data.as_slice(), start, end);
        Ok(r)
    }
}

/// The bytes `s[start..end]`.
fn slice_range(s: &[u8], start: usize, end: usize) -> (r: &[u8])
    requires
        start <= end <= s@.len(),
    ensures
        r@ == s@.subrange(start as int, end as int),
{
    let r = &s[start..end];
    assert(r@ =~= s@.subrange(start as int, end as int));
    r
}

/// The prompt without its one trailing newline.
pub open spec fn without_newline(prompt: Seq<u8>) -> Seq<u8> {
    if prompt.len() > 0 && prompt.last() == BYTE_LF { prompt.drop_last() } else { prompt }
}

/// The first-step device's answer to a prompt: the prompt echoed back.
pub fn echo_reply(prompt: &[u8]) -> (r: Vec<u8>)
    ensures
        r@ == lit("[hackbot] I received: ") + without_newline(prompt@) + lit("\n"),
{
    let mut r: Vec<u8> = Vec::new();
    append_str(&mut r, "[hackbot] I received: ");
    let n = prompt.len();
    if n > 0 && prompt[n - 1] == BYTE_LF {
        append_bytes(&mut r, slice_range(prompt, 0, n - 1));
    } else {
        append_bytes(&mut r, prompt);
    }
    append_str(&mut r, "\n");
    r
}

} // verus!
