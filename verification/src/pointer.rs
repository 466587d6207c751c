//! JSON Pointers (RFC 6901): from a pointer string to its reference tokens.

use vstd::prelude::*;
use crate::errors::{MapError, ERR_SCHEMA};
use crate::text::str_chars;

verus! {

/// The number of characters of `s` before its first `/`: all of them where it
/// holds none.
pub open spec fn slash_index(s: Seq<char>) -> int
    decreases s.len(),
{
    if s.len() == 0 || s[0] == '/' {
        0
    } else {
        1 + slash_index(s.drop_first())
    }
}

/// The parts into which the `/` characters of `s` divide it. A string without
/// `/` is one part; two `/` in a row have an empty part between them.
pub open spec fn split_tokens(s: Seq<char>) -> Seq<Seq<char>>
    decreases s.len(),
{
    let i = slash_index(s);
    if 0 <= i < s.len() {
        seq![s.take(i)] + split_tokens(s.skip(i + 1))
    } else {
        seq![s]
    }
}

/// A reference token with its escapes resolved from left to right: `~0` stands
/// for `~` and `~1` for `/`. A `~` followed by anything else, or by nothing, is
/// a fault.
pub open spec fn unescape(tok: Seq<char>) -> Option<Seq<char>>
    decreases tok.len(),
{
    if tok.len() == 0 {
        Some(Seq::empty())
    } else if tok[0] != '~' {
        match unescape(tok.drop_first()) {
            Some(rest) => Some(seq![tok[0]] + rest),
            None => None,
        }
    } else if tok.len() >= 2 && (tok[1] == '0' || tok[1] == '1') {
        match unescape(tok.skip(2)) {
            Some(rest) => Some(
                seq![
                    if tok[1] == '0' {
                        '~'
                    } else {
                        '/'
                    },
                ] + rest,
            ),
            None => None,
        }
    } else {
        None
    }
}

/// The first `n` of some tokens, each with its escapes resolved, or nothing
/// where one of them has a fault.
pub open spec fn unescape_all(toks: Seq<Seq<char>>, n: int) -> Option<Seq<Seq<char>>>
    decreases n,
{
    if n <= 0 {
        Some(Seq::empty())
    } else {
        match unescape_all(toks, n - 1) {
            None => None,
            Some(front) => match unescape(toks[n - 1]) {
                None => None,
                Some(tok) => Some(front.push(tok)),
            },
        }
    }
}

/// The reference tokens of a pointer. The empty pointer has none and stands for
/// the whole document. Any other pointer starts with `/`, and what follows is
/// divided at each further `/`.
pub open spec fn pointer_tokens(ptr: Seq<char>) -> Option<Seq<Seq<char>>> {
    if ptr.len() == 0 {
        Some(Seq::empty())
    } else if ptr[0] != '/' {
        None
    } else {
        let parts = split_tokens(ptr.drop_first());
        unescape_all(parts, parts.len() as int)
    }
}

/// The tokens that vectors of characters stand for.
pub open spec fn tokens_view(toks: Seq<Vec<char>>) -> Seq<Seq<char>> {
    Seq::new(toks.len(), |i: int| toks[i]@)
}

/// Where a string holds no `/` among its first `k` characters, the first `/`
/// comes after them.
pub proof fn lemma_slash_index(s: Seq<char>, k: int)
    requires
        0 <= k <= s.len(),
        forall|j: int| 0 <= j < k ==> s[j] != '/',
    ensures
        slash_index(s) == k + slash_index(s.skip(k)),
        0 <= slash_index(s) <= s.len(),
    decreases k,
{
    if k == 0 {
        assert(s.skip(0) == s);
        lemma_slash_index_bounds(s);
    } else {
        let t = s.drop_first();
        assert forall|j: int| 0 <= j < k - 1 implies t[j] != '/' by {
            assert(t[j] == s[j + 1]);
        }
        lemma_slash_index(t, k - 1);
        assert(t.skip(k - 1) == s.skip(k));
    }
}

/// The first `/` of a string stands within it or at its end.
pub proof fn lemma_slash_index_bounds(s: Seq<char>)
    ensures
        0 <= slash_index(s) <= s.len(),
    decreases s.len(),
{
    if s.len() > 0 && s[0] != '/' {
        lemma_slash_index_bounds(s.drop_first());
    }
}

/// Resolves the escapes of the characters of `chars` from `from` up to `to`.
fn unescape_range(chars: &Vec<char>, from: usize, to: usize) -> (r: Option<Vec<char>>)
    requires
        from <= to <= chars@.len(),
    ensures
        match r {
            Some(tok) => unescape(chars@.subrange(from as int, to as int)) == Some(tok@),
            None => unescape(chars@.subrange(from as int, to as int)) is None,
        },
{
    let ghost raw = chars@.subrange(from as int, to as int);
    let mut decoded: Vec<char> = Vec::new();
    let mut i: usize = from;
    assert(raw.skip(0) == raw);
    while i < to
        invariant
            from <= i <= to <= chars@.len(),
            raw == chars@.subrange(from as int, to as int),
            unescape(raw) == match unescape(raw.skip(i - from)) {
                Some(rest) => Some(decoded@ + rest),
                None => None,
            },
        decreases to - i,
    {
        let ghost tail = raw.skip(i - from);
        let c = chars[i];
        assert(tail[0] == c);
        if c != '~' {
            assert(tail.drop_first() == raw.skip(i + 1 - from));
            proof {
                let rest = unescape(raw.skip(i + 1 - from));
                if rest is Some {
                    assert(decoded@ + (seq![c] + rest->Some_0) == decoded@.push(c) + rest->Some_0);
                }
            }
            decoded.push(c);
            i += 1;
        } else {
            if i + 1 >= to {
                return None;
            }
            let d = chars[i + 1];
            assert(tail[1] == d);
            if d != '0' && d != '1' {
                return None;
            }
            let out = if d == '0' {
                '~'
            } else {
                '/'
            };
            assert(tail.skip(2) == raw.skip(i + 2 - from));
            proof {
                let rest = unescape(raw.skip(i + 2 - from));
                if rest is Some {
                    assert(decoded@ + (seq![out] + rest->Some_0) == decoded@.push(out)
                        + rest->Some_0);
                }
            }
            decoded.push(out);
            i += 2;
        }
    }
    assert(raw.skip(to - from).len() == 0);
    assert(decoded@ + Seq::<char>::empty() == decoded@);
    Some(decoded)
}

/// The reference tokens of a pointer, with their escapes resolved.
pub fn parse_pointer(ptr: &str) -> (r: Result<Vec<Vec<char>>, MapError>)
    ensures
        match r {
            Ok(toks) => pointer_tokens(ptr@) == Some(tokens_view(toks@)),
            Err(e) => pointer_tokens(ptr@) is None && e.code == ERR_SCHEMA,
        },
{
    let chars = str_chars(ptr);
    let mut tokens: Vec<Vec<char>> = Vec::new();
    if chars.len() == 0 {
        assert(tokens_view(tokens@) =~= Seq::<Seq<char>>::empty());
        return Ok(tokens);
    }
    if chars[0] != '/' {
        return Err(MapError::new(ERR_SCHEMA, "pointer must start with '/'"));
    }
    let ghost body = ptr@.drop_first();
    let ghost mut parts: Seq<Seq<char>> = Seq::empty();
    let mut start: usize = 1;
    assert(body.skip(0) == body);
    assert(tokens_view(tokens@) =~= Seq::<Seq<char>>::empty());
    loop
        invariant
            chars@ == ptr@,
            body == ptr@.drop_first(),
            ptr@.len() > 0,
            ptr@[0] == '/',
            1 <= start <= chars@.len(),
            split_tokens(body) == parts + split_tokens(body.skip(start - 1)),
            unescape_all(parts, parts.len() as int) == Some(tokens_view(tokens@)),
        decreases chars@.len() - start,
    {
        let ghost tail = body.skip(start - 1);
        let mut end: usize = start;
        while end < chars.len() && chars[end] != '/'
            invariant
                chars@ == ptr@,
                body == ptr@.drop_first(),
                tail == body.skip(start - 1),
                1 <= start <= end <= chars@.len(),
                forall|j: int| 0 <= j < end - start ==> tail[j] != '/',
            decreases chars@.len() - end,
        {
            assert(tail[end - start] == chars@[end as int]);
            end += 1;
        }
        proof {
            lemma_slash_index(tail, end - start);
            if end < chars@.len() {
                assert(tail.skip(end - start)[0] == chars@[end as int]);
            }
            assert(slash_index(tail) == end - start);
            assert(tail.take(end - start) == chars@.subrange(start as int, end as int));
        }
        let ghost part = chars@.subrange(start as int, end as int);
        match unescape_range(&chars, start, end) {
            None => {
                proof {
                    let whole = split_tokens(body);
                    if end < chars@.len() {
                        assert(split_tokens(tail) == seq![part] + split_tokens(
                            tail.skip(end - start + 1),
                        ));
                    } else {
                        assert(tail.take(end - start) == tail);
                        assert(split_tokens(tail) == seq![part]);
                    }
                    assert(whole[parts.len() as int] == part);
                    lemma_unescape_all_fails(whole, parts.len() as int);
                }
                return Err(MapError::new(ERR_SCHEMA, "bad ~ escape in pointer"));
            },
            Some(tok) => {
                proof {
                    lemma_unescape_all_prefix(parts.push(part), parts, parts.len() as int);
                    assert(tokens_view(tokens@.push(tok)) =~= tokens_view(tokens@).push(tok@));
                }
                tokens.push(tok);
            },
        }
        if end >= chars.len() {
            proof {
                assert(tail.take(end - start) == tail);
                assert(split_tokens(tail) == seq![part]);
                assert(split_tokens(body) == parts.push(part));
            }
            return Ok(tokens);
        }
        proof {
            assert(split_tokens(tail) == seq![part] + split_tokens(tail.skip(end - start + 1)));
            assert(tail.skip(end - start + 1) == body.skip(end as int));
            assert(parts + (seq![part] + split_tokens(body.skip(end as int))) == parts.push(part)
                + split_tokens(body.skip(end as int)));
            parts = parts.push(part);
        }
        start = end + 1;
    }
}

/// Where one of some tokens has a fault, resolving all of them fails.
pub proof fn lemma_unescape_all_fails(toks: Seq<Seq<char>>, k: int)
    requires
        0 <= k < toks.len(),
        unescape(toks[k]) is None,
    ensures
        unescape_all(toks, toks.len() as int) is None,
{
    lemma_unescape_all_fails_upto(toks, k, toks.len() as int);
}

/// Where one of the first `n` tokens has a fault, resolving them fails.
pub proof fn lemma_unescape_all_fails_upto(toks: Seq<Seq<char>>, k: int, n: int)
    requires
        0 <= k < n <= toks.len(),
        unescape(toks[k]) is None,
    ensures
        unescape_all(toks, n) is None,
    decreases n,
{
    if k < n - 1 {
        lemma_unescape_all_fails_upto(toks, k, n - 1);
    }
}

/// Resolving the first `n` tokens looks at those tokens only.
pub proof fn lemma_unescape_all_prefix(a: Seq<Seq<char>>, b: Seq<Seq<char>>, n: int)
    requires
        0 <= n <= a.len(),
        n <= b.len(),
        forall|j: int| 0 <= j < n ==> a[j] == b[j],
    ensures
        unescape_all(a, n) == unescape_all(b, n),
    decreases n,
{
    if n > 0 {
        lemma_unescape_all_prefix(a, b, n - 1);
    }
}

} // verus!
