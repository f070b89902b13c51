//! The framing of a minimal HTTP backend: one fixed response to each request head.

use crate::proxy_protocol;
use vstd::prelude::*;

verus! {

/// The most bytes that may come without the end of a request head.
pub const MAX_REQUEST_BYTES: usize = 16384;

/// Whether an empty line ends a request head at a position.
pub open spec fn head_ends_at(s: Seq<u8>, i: int) -> bool {
    0 <= i && i + 4 <= s.len() && s[i] == 13 && s[i + 1] == 10 && s[i + 2] == 13 && s[i + 3] == 10
}

/// How long the request head at the beginning of some bytes is, with the empty line that ends it.
pub open spec fn head_len(s: Seq<u8>) -> Option<int> {
    if exists|i: int| head_ends_at(s, i) {
        let i = choose|i: int|
            head_ends_at(s, i) && forall|j: int|
                #![trigger head_ends_at(s, j)]
                j < i ==> !head_ends_at(s, j);
        Some(i + 4)
    } else {
        None
    }
}

/// What a backend does next.
#[derive(Clone, Copy, Debug, PartialEq, Eq, Structural)]
pub enum Serve {
    /// Drop the first bytes, which are a request head, and send the response.
    Respond { used: usize },
    Read,
    Close,
}

/// What a backend does with the bytes that came and were not used: it answers the first request
/// head, or else reads on, unless too many bytes came or the client sends no more.
pub open spec fn serve_step(s: Seq<u8>, eof: bool) -> Serve {
    match head_len(s) {
        Some(n) => Serve::Respond { used: n as usize },
        None => if s.len() >= MAX_REQUEST_BYTES || eof {
            Serve::Close
        } else {
            Serve::Read
        },
    }
}

proof fn lemma_head_len(s: Seq<u8>, i: int)
    requires
        head_ends_at(s, i),
        forall|j: int| #![trigger head_ends_at(s, j)] j < i ==> !head_ends_at(s, j),
    ensures
        head_len(s) == Some(i + 4),
{
    let k = choose|k: int|
        head_ends_at(s, k) && forall|j: int|
            #![trigger head_ends_at(s, j)]
            j < k ==> !head_ends_at(s, j);
    if k < i {
        assert(!head_ends_at(s, k));
    } else if k > i {
        assert(!head_ends_at(s, i));
    }
}

/// What a backend does with the bytes that came and were not used.
pub fn serve(buffer: &[u8], eof: bool) -> (r: Serve)
    ensures
        r == serve_step(buffer@, eof),
{
    let n: usize = buffer.len();
    let mut i: usize = 0;
    while n >= 4 && i <= n - 4
        invariant
            n == buffer@.len(),
            n >= 4 ==> i <= n - 3,
            n < 4 ==> i == 0,
            forall|j: int|
                #![trigger head_ends_at(buffer@, j)]
                j < i ==> !head_ends_at(buffer@, j),
        decreases n - i,
    {
        if buffer[i] == 13 && buffer[i + 1] == 10 && buffer[i + 2] == 13 && buffer[i + 3] == 10 {
            proof {
                lemma_head_len(buffer@, i as int);
            }
            return Serve::Respond { used: i + 4 };
        }
        i = i + 1;
    }
    assert forall|j: int| #![trigger head_ends_at(buffer@, j)] !head_ends_at(buffer@, j) by {
        if head_ends_at(buffer@, j) {
            assert(j <= n - 4);
        }
    }
    if n >= MAX_REQUEST_BYTES || eof {
        Serve::Close
    } else {
        Serve::Read
    }
}

/// The bytes that are left after a request head, to be looked at next.
pub fn rest_after(buffer: &[u8], used: usize) -> (r: Vec<u8>)
    requires
        used <= buffer@.len(),
    ensures
        r@ == buffer@.skip(used as int),
{
    let r: Vec<u8> = proxy_protocol::copy(buffer, used, buffer.len());
    assert(r@ =~= buffer@.skip(used as int));
    r
}

/// A request head that has come is answered, however many bytes come with it, and what is used of
/// the bytes is that head alone: it ends where an empty line ends first.
pub proof fn law_heads_are_answered(s: Seq<u8>, eof: bool, i: int)
    requires
        head_ends_at(s, i),
        s.len() <= usize::MAX,
    ensures
        serve_step(s, eof) matches Serve::Respond { used } && 4 <= used <= i + 4 && head_ends_at(
            s,
            used - 4,
        ) && forall|j: int| #![trigger head_ends_at(s, j)] j < used - 4 ==> !head_ends_at(s, j),
    decreases i,
{
    if exists|j: int| j < i && head_ends_at(s, j) {
        let j = choose|j: int| j < i && head_ends_at(s, j);
        law_heads_are_answered(s, eof, j);
    } else {
        lemma_head_len(s, i);
    }
}

/// Bytes without the end of a request head are waited for, until the client sends no more or 16 KiB
/// have come; then the connection is closed.
pub proof fn law_unfinished_heads(s: Seq<u8>, eof: bool)
    requires
        forall|i: int|
            0 <= i <= s.len() - 4 ==> !((#[trigger] s[i]) == 13 && s[i + 1] == 10 && s[i + 2] == 13
                && s[i + 3] == 10),
    ensures
        eof || s.len() >= 16384 ==> serve_step(s, eof) == Serve::Close,
        !eof && s.len() < 16384 ==> serve_step(s, eof) == Serve::Read,
{
    assert forall|i: int| #![trigger head_ends_at(s, i)] !head_ends_at(s, i) by {
        if head_ends_at(s, i) {
            assert(s[i] == 13);
        }
    }
}

/// A request head that ends with the empty line is answered, whatever it says and whatever follows
/// it, and exactly its bytes are used, if no empty line ends within it.
pub proof fn law_a_head_is_used_whole(head: Seq<u8>, rest: Seq<u8>, eof: bool)
    requires
        head.len() >= 4,
        head[head.len() - 4] == 13 && head[head.len() - 3] == 10 && head[head.len() - 2] == 13
            && head[head.len() - 1] == 10,
        forall|i: int|
            #![trigger head_ends_at(head, i)]
            i < head.len() - 4 ==> !head_ends_at(head, i),
        head.len() + rest.len() <= usize::MAX,
    ensures
        serve_step(head + rest, eof) == (Serve::Respond { used: head.len() as usize }),
{
    let s = head + rest;
    let n = head.len() - 4;
    assert(s[n] == head[n] && s[n + 1] == head[n + 1] && s[n + 2] == head[n + 2] && s[n + 3]
        == head[n + 3]);
    law_heads_are_answered(s, eof, n);
    let used = serve_step(s, eof)->used;
    if used - 4 < n {
        lemma_head_ends_within(head, rest, used - 4);
    }
}

proof fn lemma_head_ends_within(head: Seq<u8>, rest: Seq<u8>, j: int)
    requires
        j < head.len() - 4,
    ensures
        head_ends_at(head + rest, j) == head_ends_at(head, j),
{
    let s = head + rest;
    if 0 <= j {
        assert(s[j] == head[j] && s[j + 1] == head[j + 1] && s[j + 2] == head[j + 2] && s[j + 3]
            == head[j + 3]);
    }
}

} // verus!
