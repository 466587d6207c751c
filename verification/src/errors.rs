//! Error codes, their precedence, and the error value that every operation returns.

use vstd::prelude::*;
use vstd::std_specs::convert::IntoSpec;
use vstd::string::StringExecFns;
use crate::text::str_eq;

verus! {

/// Missing or wrong canonical header.
pub const ERR_CANON_HDR: &'static str = "ERR_CANON_HDR";

/// Structural violation of the binary format, or JSON that does not parse.
pub const ERR_CANON_MCF: &'static str = "ERR_CANON_MCF";

/// Violation of a projection rule or of the pointer grammar; byte order mark.
pub const ERR_SCHEMA: &'static str = "ERR_SCHEMA";

/// JSON value that the model cannot hold: null, float, integer out of range.
pub const ERR_TYPE: &'static str = "ERR_TYPE";

/// Invalid UTF-8, or a surrogate code point.
pub const ERR_UTF8: &'static str = "ERR_UTF8";

/// Two equal keys in one MAP.
pub const ERR_DUP_KEY: &'static str = "ERR_DUP_KEY";

/// Keys of a MAP not in ascending order.
pub const ERR_KEY_ORDER: &'static str = "ERR_KEY_ORDER";

/// Containers nested deeper than the limit.
pub const ERR_LIMIT_DEPTH: &'static str = "ERR_LIMIT_DEPTH";

/// A size limit exceeded.
pub const ERR_LIMIT_SIZE: &'static str = "ERR_LIMIT_SIZE";

/// The nine codes, the one that wins first.
pub const PRECEDENCE: [&'static str; 9] = [
    ERR_CANON_HDR,
    ERR_CANON_MCF,
    ERR_SCHEMA,
    ERR_TYPE,
    ERR_UTF8,
    ERR_DUP_KEY,
    ERR_KEY_ORDER,
    ERR_LIMIT_DEPTH,
    ERR_LIMIT_SIZE,
];

/// The nine codes in order of precedence, as a sequence.
pub open spec fn precedence() -> Seq<&'static str> {
    seq![
        ERR_CANON_HDR,
        ERR_CANON_MCF,
        ERR_SCHEMA,
        ERR_TYPE,
        ERR_UTF8,
        ERR_DUP_KEY,
        ERR_KEY_ORDER,
        ERR_LIMIT_DEPTH,
        ERR_LIMIT_SIZE,
    ]
}

/// Position of a code in the order of precedence: 0 wins over all others.
/// A string that is no code has rank 9.
pub open spec fn rank(code: Seq<char>) -> int {
    if code == ERR_CANON_HDR@ {
        0
    } else if code == ERR_CANON_MCF@ {
        1
    } else if code == ERR_SCHEMA@ {
        2
    } else if code == ERR_TYPE@ {
        3
    } else if code == ERR_UTF8@ {
        4
    } else if code == ERR_DUP_KEY@ {
        5
    } else if code == ERR_KEY_ORDER@ {
        6
    } else if code == ERR_LIMIT_DEPTH@ {
        7
    } else if code == ERR_LIMIT_SIZE@ {
        8
    } else {
        9
    }
}

/// Whether a string is one of the nine codes.
pub open spec fn is_code(code: Seq<char>) -> bool {
    0 <= rank(code) < 9
}

/// The nine codes are pairwise different, and each has its own rank.
pub proof fn lemma_codes_distinct()
    ensures
        PRECEDENCE@ == precedence(),
        forall|i: int| 0 <= i < 9 ==> rank(#[trigger] precedence()[i]@) == i,
{
    reveal_strlit("ERR_CANON_HDR");
    reveal_strlit("ERR_CANON_MCF");
    reveal_strlit("ERR_SCHEMA");
    reveal_strlit("ERR_TYPE");
    reveal_strlit("ERR_UTF8");
    reveal_strlit("ERR_DUP_KEY");
    reveal_strlit("ERR_KEY_ORDER");
    reveal_strlit("ERR_LIMIT_DEPTH");
    reveal_strlit("ERR_LIMIT_SIZE");
    assert(PRECEDENCE@ =~= precedence());
    assert(ERR_CANON_HDR@.len() == 13 && ERR_CANON_HDR@[10] == 'H');
    assert(ERR_CANON_MCF@.len() == 13 && ERR_CANON_MCF@[10] == 'M');
    assert(ERR_SCHEMA@.len() == 10);
    assert(ERR_TYPE@.len() == 8 && ERR_TYPE@[4] == 'T');
    assert(ERR_UTF8@.len() == 8 && ERR_UTF8@[4] == 'U');
    assert(ERR_DUP_KEY@.len() == 11);
    assert(ERR_KEY_ORDER@.len() == 13 && ERR_KEY_ORDER@[10] == 'D');
    assert(ERR_LIMIT_DEPTH@.len() == 15);
    assert(ERR_LIMIT_SIZE@.len() == 14);
    assert(rank(precedence()[0]@) == 0);
    assert(rank(precedence()[1]@) == 1);
    assert(rank(precedence()[2]@) == 2);
    assert(rank(precedence()[3]@) == 3);
    assert(rank(precedence()[4]@) == 4);
    assert(rank(precedence()[5]@) == 5);
    assert(rank(precedence()[6]@) == 6);
    assert(rank(precedence()[7]@) == 7);
    assert(rank(precedence()[8]@) == 8);
}

/// What a failed operation returns: one of the nine codes, and a message for people.
#[derive(Debug, Clone)]
pub struct MapError {
    pub code: &'static str,
    pub message: String,
}

impl MapError {
    /// An error with the given code and message.
    pub fn new<M: Into<String>>(code: &'static str, message: M) -> (e: MapError)
        ensures
            e.code == code,
            M::obeys_into_spec() ==> e.message == M::into_spec(message),
    {
        MapError { code, message: message.into() }
    }

    /// The code, a colon and a space, and the message.
    pub fn to_string(&self) -> (s: String)
        ensures
            s@ == self.code@ + ": "@ + self.message@,
    {
        let mut s = String::from_str(self.code);
        s.append(": ");
        s.append(self.message.as_str());
        s
    }
}

/// Position of `code` among the nine codes, or 9.
pub fn rank_of(code: &str) -> (r: usize)
    ensures
        r == rank(code@),
{
    proof {
        lemma_codes_distinct();
    }
    let mut i: usize = 0;
    while i < 9
        invariant
            i <= 9,
            PRECEDENCE@ == precedence(),
            forall|j: int| 0 <= j < i ==> (#[trigger] precedence()[j])@ != code@,
            forall|j: int| 0 <= j < 9 ==> rank(#[trigger] precedence()[j]@) == j,
        decreases 9 - i,
    {
        if str_eq(PRECEDENCE[i], code) {
            assert(precedence()[i as int]@ == code@);
            return i;
        }
        i += 1;
    }
    assert(precedence()[0]@ != code@);
    assert(precedence()[1]@ != code@);
    assert(precedence()[2]@ != code@);
    assert(precedence()[3]@ != code@);
    assert(precedence()[4]@ != code@);
    assert(precedence()[5]@ != code@);
    assert(precedence()[6]@ != code@);
    assert(precedence()[7]@ != code@);
    assert(precedence()[8]@ != code@);
    9
}

/// Of several violations found, the code to report: the one that comes first in
/// the order of precedence. Strings that are no code are passed over; where none
/// of them is a code, the first string is returned. At least one violation has
/// to be given.
pub fn choose_reported_error<'a>(errors: &[&'a str]) -> (best: &'a str)
    requires
        errors@.len() > 0,
    ensures
        (forall|i: int| 0 <= i < errors@.len() ==> !is_code(#[trigger] errors@[i]@)) ==> best
            == errors@[0],
        (exists|i: int| 0 <= i < errors@.len() && is_code(#[trigger] errors@[i]@)) ==> {
            &&& is_code(best@)
            &&& best == precedence()[rank(best@)]
            &&& exists|i: int| 0 <= i < errors@.len() && (#[trigger] errors@[i])@ == best@
            &&& forall|i: int| 0 <= i < errors@.len() ==> rank(best@) <= rank(#[trigger] errors@[i]@)
        },
{
    proof {
        lemma_codes_distinct();
    }
    let mut best_idx: usize = 9;
    let mut best_code: &'a str = errors[0];
    let mut k: usize = 0;
    while k < errors.len()
        invariant
            k <= errors@.len(),
            errors@.len() > 0,
            best_idx <= 9,
            PRECEDENCE@ == precedence(),
            forall|j: int| 0 <= j < 9 ==> rank(#[trigger] precedence()[j]@) == j,
            forall|i: int| 0 <= i < k ==> best_idx <= rank(#[trigger] errors@[i]@),
            best_idx == 9 ==> best_code == errors@[0],
            best_idx < 9 ==> best_code == precedence()[best_idx as int] && exists|i: int|
                0 <= i < k && (#[trigger] errors@[i])@ == best_code@,
        decreases errors@.len() - k,
    {
        let idx = rank_of(errors[k]);
        if idx < best_idx {
            best_idx = idx;
            best_code = PRECEDENCE[idx];
            assert(precedence()[idx as int]@ == errors@[k as int]@);
        }
        k += 1;
    }
    best_code
}

} // verus!
