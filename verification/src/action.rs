//! Control-plane verbs. A control client sends a UTF-8 string; the first
//! whitespace-separated token names the verb, case-insensitively. Unknown
//! verbs are reported back verbatim.

use vstd::prelude::*;
use crate::errors::XcrabError;
use crate::frame::XRequest;
use crate::tree::XcrabWindowManager;

verus! {

/// A control-plane verb.
#[derive(Debug, Clone, Copy, PartialEq, Eq, Structural)]
#[non_exhaustive]
pub enum Action {
    Close,
}

/// Index of the first character at or after `i` that is not a space, or the
/// end of `s`.
pub open spec fn skip_spaces(s: Seq<char>, i: int) -> int
    decreases s.len() - i when 0 <= i <= s.len()
{
    if i >= s.len() {
        s.len() as int
    } else if s[i] != ' ' {
        i
    } else {
        skip_spaces(s, i + 1)
    }
}

/// Index of the first space at or after `i`, or the end of `s`.
pub open spec fn token_end(s: Seq<char>, i: int) -> int
    decreases s.len() - i when 0 <= i <= s.len()
{
    if i >= s.len() {
        s.len() as int
    } else if s[i] == ' ' {
        i
    } else {
        token_end(s, i + 1)
    }
}

/// The first space-separated token of `s`; empty when `s` has no token.
pub open spec fn first_token(s: Seq<char>) -> Seq<char> {
    s.subrange(skip_spaces(s, 0), token_end(s, skip_spaces(s, 0)))
}

/// Case-insensitive match against the verb `close`.
pub open spec fn is_close_token(t: Seq<char>) -> bool {
    &&& t.len() == 5
    &&& (t[0] == 'c' || t[0] == 'C')
    &&& (t[1] == 'l' || t[1] == 'L')
    &&& (t[2] == 'o' || t[2] == 'O')
    &&& (t[3] == 's' || t[3] == 'S')
    &&& (t[4] == 'e' || t[4] == 'E')
}

proof fn lemma_skip_spaces_at(s: Seq<char>, i: int, k: int)
    requires
        0 <= i <= k <= s.len(),
        forall|j: int| i <= j < k ==> s[j] == ' ',
        k == s.len() || s[k] != ' ',
    ensures
        skip_spaces(s, i) == k,
    decreases k - i,
{
    if i < k {
        lemma_skip_spaces_at(s, i + 1, k);
    }
}

proof fn lemma_token_end_at(s: Seq<char>, i: int, k: int)
    requires
        0 <= i <= k <= s.len(),
        forall|j: int| i <= j < k ==> s[j] != ' ',
        k == s.len() || s[k] == ' ',
    ensures
        token_end(s, i) == k,
    decreases k - i,
{
    if i < k {
        lemma_token_end_at(s, i + 1, k);
    }
}

impl Action {
    /// Parse an action string: the first space-separated token is the verb.
    /// An input with no token is refused, an unknown verb is echoed back.
    pub fn parse(s: &str) -> (r: Result<Action, XcrabError>)
        ensures
            ({
                let tok = first_token(s@);
                &&& (tok.len() == 0 ==> (r matches Err(e) && e.spec_message()
                    == "No action provided"@))
                &&& (tok.len() > 0 && is_close_token(tok) ==> r == Ok::<Action, XcrabError>(
                    Action::Close,
                ))
                &&& (tok.len() > 0 && !is_close_token(tok) ==> (r matches Err(e)
                    && e.spec_message() == "Unknown action: "@ + s@))
            }),
    {
        let n = s.unicode_len();
        let mut a: usize = 0;
        while a < n && s.get_char(a) == ' '
            invariant
                0 <= a <= n,
                n == s@.len(),
                forall|j: int| 0 <= j < a ==> s@[j] == ' ',
            decreases n - a,
        {
            a = a + 1;
        }
        proof {
            lemma_skip_spaces_at(s@, 0, a as int);
        }
        let mut b: usize = a;
        while b < n && s.get_char(b) != ' '
            invariant
                a <= b <= n,
                n == s@.len(),
                forall|j: int| a <= j < b ==> s@[j] != ' ',
            decreases n - b,
        {
            b = b + 1;
        }
        proof {
            lemma_token_end_at(s@, a as int, b as int);
            assert(first_token(s@) =~= s@.subrange(a as int, b as int));
        }
        if b == a {
            return Err(XcrabError::Custom(String::from_str("No action provided")));
        }
        let mut close = false;
        if b - a == 5 {
            let c0 = s.get_char(a);
            let c1 = s.get_char(a + 1);
            let c2 = s.get_char(a + 2);
            let c3 = s.get_char(a + 3);
            let c4 = s.get_char(a + 4);
            close = (c0 == 'c' || c0 == 'C') && (c1 == 'l' || c1 == 'L') && (c2 == 'o' || c2
                == 'O') && (c3 == 's' || c3 == 'S') && (c4 == 'e' || c4 == 'E');
        }
        proof {
            let tok = first_token(s@);
            assert(forall|k: int| 0 <= k < tok.len() ==> tok[k] == s@[a + k]);
            assert(close == is_close_token(tok));
        }
        if close {
            Ok(Action::Close)
        } else {
            let mut m = String::from_str("Unknown action: ");
            m.append(s);
            Err(XcrabError::Custom(m))
        }
    }

    /// Apply the verb to the manager. Closing does exactly what
    /// `destroy_focused_client` promises: with no focus nothing happens,
    /// otherwise the focused client is removed and the last request asks
    /// its remembered frame's client to be killed.
    pub fn eval(&self, manager: &mut XcrabWindowManager) -> (r: Vec<XRequest>)
        requires
            old(manager).wf(),
        ensures
            final(manager).wf(),
            (self is Close) ==> XcrabWindowManager::destroy_post(
                *old(manager),
                *final(manager),
                r@,
            ),
            old(manager).focused is None ==> *final(manager) == *old(manager) && r@.len() == 0,
            final(manager).config == old(manager).config,
            final(manager).screen == old(manager).screen,
    {
        match self {
            Action::Close => manager.destroy_focused_client(),
        }
    }
}

} // verus!
