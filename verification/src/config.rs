//! Configuration values and the key-binding grammar. A binding is written
//! as `-`-separated one-character parts: uppercase `C`, `S`, `A`, `W` hold
//! Control, Shift, Alt and Super, and the first lowercase letter names the
//! key. Reading the configuration file is the caller's business; this
//! module owns the values and the parsing rules.

use vstd::prelude::*;
use crate::action::Action;
use crate::errors::XcrabError;

verus! {

pub const DEFAULT_BORDER_COLOR: u32 = 0xff_00_00;

pub const DEFAULT_FOCUSED_COLOR: u32 = 0x00_00_ff;

pub const DEFAULT_BORDER_SIZE: u16 = 5;

pub const DEFAULT_GAP_SIZE: u16 = 20;

/// The modifier keys a binding holds down.
#[derive(Debug, Clone, Copy, PartialEq, Eq, Structural)]
pub struct KeyButMask {
    pub shift: bool,
    pub control: bool,
    pub mod1: bool,
    pub mod4: bool,
}

impl KeyButMask {
    /// The X protocol bit pattern: shift is bit 0, control bit 2, mod1
    /// (alt) bit 3, mod4 (super) bit 6.
    pub open spec fn spec_bits(self) -> u16 {
        (if self.shift {
            1u16
        } else {
            0u16
        }) | (if self.control {
            4u16
        } else {
            0u16
        }) | (if self.mod1 {
            8u16
        } else {
            0u16
        }) | (if self.mod4 {
            0x40u16
        } else {
            0u16
        })
    }

    pub fn bits(self) -> (r: u16)
        ensures
            r == self.spec_bits(),
    {
        (if self.shift {
            1u16
        } else {
            0u16
        }) | (if self.control {
            4u16
        } else {
            0u16
        }) | (if self.mod1 {
            8u16
        } else {
            0u16
        }) | (if self.mod4 {
            0x40u16
        } else {
            0u16
        })
    }

    pub fn none() -> (r: Self)
        ensures
            r == (KeyButMask { shift: false, control: false, mod1: false, mod4: false }),
    {
        KeyButMask { shift: false, control: false, mod1: false, mod4: false }
    }
}

/// A parsed key binding: one letter (stored uppercase), held with the
/// given modifiers.
#[derive(Debug, Clone, Copy, PartialEq, Eq, Structural)]
pub struct Keybind {
    pub key: char,
    pub mods: KeyButMask,
}

/// Positions where a `-`-separated part of `s` begins.
pub open spec fn part_start(s: Seq<char>, p: int) -> bool {
    p == 0 || (0 < p <= s.len() && s[p - 1] == '-')
}

/// The part beginning at `p` is empty.
pub open spec fn part_empty(s: Seq<char>, p: int) -> bool {
    part_start(s, p) && (p == s.len() || s[p] == '-')
}

/// The part beginning at `p` is exactly the single character `c`.
pub open spec fn part_single(s: Seq<char>, p: int, c: char) -> bool {
    part_start(s, p) && p < s.len() && s[p] == c && c != '-' && (p + 1 == s.len() || s[p + 1]
        == '-')
}

/// The part beginning at `p` is longer than one byte: two characters
/// before the next dash, or a single character outside ASCII.
pub open spec fn part_long(s: Seq<char>, p: int) -> bool {
    part_start(s, p) && p < s.len() && s[p] != '-' && ((p + 1 < s.len() && s[p + 1] != '-') || s[p]
        as u32 > 0x7F)
}

pub open spec fn is_ascii_uppercase_char(c: char) -> bool {
    65 <= c as u32 <= 90
}

pub open spec fn is_ascii_lowercase_char(c: char) -> bool {
    97 <= c as u32 <= 122
}

pub open spec fn is_modifier_char(c: char) -> bool {
    c == 'C' || c == 'S' || c == 'A' || c == 'W'
}

/// The message the part beginning at `p` is refused with, if any.
pub open spec fn part_error(s: Seq<char>, p: int) -> Option<Seq<char>> {
    if part_long(s, p) {
        Some("parts may only contain one character"@)
    } else if part_empty(s, p) {
        Some("parts must contain at least one character"@)
    } else if part_start(s, p) && p < s.len() && is_ascii_uppercase_char(s[p]) && !is_modifier_char(
        s[p],
    ) {
        Some("no such modifier: "@ + s.subrange(p, p + 1))
    } else {
        None
    }
}

/// The first part at or after `p` that is refused, or `s.len() + 1` when
/// none is.
pub open spec fn first_bad_part(s: Seq<char>, p: int) -> int
    decreases s.len() + 1 - p when 0 <= p <= s.len() + 1
{
    if p > s.len() {
        p
    } else if part_start(s, p) && part_error(s, p) is Some {
        p
    } else {
        first_bad_part(s, p + 1)
    }
}

/// The first lowercase letter at or after `i`, or the end of `s`.
pub open spec fn first_lower(s: Seq<char>, i: int) -> int
    decreases s.len() - i when 0 <= i <= s.len()
{
    if i >= s.len() {
        s.len() as int
    } else if is_ascii_lowercase_char(s[i]) {
        i
    } else {
        first_lower(s, i + 1)
    }
}

/// The uppercase letter for a lowercase one; other characters unchanged.
pub open spec fn upper_of(c: char) -> char {
    match c {
        'a' => 'A',
        'b' => 'B',
        'c' => 'C',
        'd' => 'D',
        'e' => 'E',
        'f' => 'F',
        'g' => 'G',
        'h' => 'H',
        'i' => 'I',
        'j' => 'J',
        'k' => 'K',
        'l' => 'L',
        'm' => 'M',
        'n' => 'N',
        'o' => 'O',
        'p' => 'P',
        'q' => 'Q',
        'r' => 'R',
        's' => 'S',
        't' => 'T',
        'u' => 'U',
        'v' => 'V',
        'w' => 'W',
        'x' => 'X',
        'y' => 'Y',
        'z' => 'Z',
        _ => c,
    }
}

fn upper_of_exec(c: char) -> (r: char)
    ensures
        r == upper_of(c),
{
    match c {
        'a' => 'A',
        'b' => 'B',
        'c' => 'C',
        'd' => 'D',
        'e' => 'E',
        'f' => 'F',
        'g' => 'G',
        'h' => 'H',
        'i' => 'I',
        'j' => 'J',
        'k' => 'K',
        'l' => 'L',
        'm' => 'M',
        'n' => 'N',
        'o' => 'O',
        'p' => 'P',
        'q' => 'Q',
        'r' => 'R',
        's' => 'S',
        't' => 'T',
        'u' => 'U',
        'v' => 'V',
        'w' => 'W',
        'x' => 'X',
        'y' => 'Y',
        'z' => 'Z',
        _ => c,
    }
}

/// A binding string is accepted when every part is a valid single
/// character and some lowercase letter names the key.
pub open spec fn keybind_ok(s: Seq<char>) -> bool {
    &&& forall|p: int| part_start(s, p) ==> part_error(s, p) is None
    &&& first_lower(s, 0) < s.len()
}

/// The binding an accepted string denotes.
pub open spec fn spec_keybind(s: Seq<char>) -> Keybind {
    Keybind {
        key: upper_of(s[first_lower(s, 0)]),
        mods: KeyButMask {
            shift: exists|p: int| part_single(s, p, 'S'),
            control: exists|p: int| part_single(s, p, 'C'),
            mod1: exists|p: int| part_single(s, p, 'A'),
            mod4: exists|p: int| part_single(s, p, 'W'),
        },
    }
}

/// The message a refused string is refused with.
pub open spec fn spec_keybind_error(s: Seq<char>) -> Seq<char> {
    let fb = first_bad_part(s, 0);
    if fb <= s.len() {
        part_error(s, fb).unwrap()
    } else {
        "must specify one normal key"@
    }
}

proof fn lemma_first_lower_at(s: Seq<char>, i: int, k: int)
    requires
        0 <= i <= k <= s.len(),
        forall|j: int| i <= j < k ==> !is_ascii_lowercase_char(s[j]),
        k == s.len() || is_ascii_lowercase_char(s[k]),
    ensures
        first_lower(s, i) == k,
    decreases k - i,
{
    if i < k {
        lemma_first_lower_at(s, i + 1, k);
    }
}

proof fn lemma_first_bad_at(s: Seq<char>, i: int, k: int)
    requires
        0 <= i <= k <= s.len() + 1,
        forall|j: int| i <= j < k ==> !(part_start(s, j) && part_error(s, j) is Some),
        k == s.len() + 1 || (part_start(s, k) && part_error(s, k) is Some),
    ensures
        first_bad_part(s, i) == k,
    decreases k - i,
{
    if i < k {
        lemma_first_bad_at(s, i + 1, k);
    }
}

/// Parse a binding string. Accepted strings yield exactly the binding the
/// grammar denotes; refused ones carry the message of the first offending
/// part, or the missing-key message.
pub fn parse_keybind(s: &str) -> (r: Result<Keybind, XcrabError>)
    ensures
        keybind_ok(s@) ==> r == Ok::<Keybind, XcrabError>(spec_keybind(s@)),
        !keybind_ok(s@) ==> (r matches Err(e) && e.spec_message() == spec_keybind_error(s@)),
{
    let n = s.unicode_len();
    let mut i: usize = 0;
    let mut shift = false;
    let mut control = false;
    let mut mod1 = false;
    let mut mod4 = false;
    while i <= n
        invariant_except_break
            part_start(s@, i as int),
            shift == exists|p: int| p < i && part_single(s@, p, 'S'),
            control == exists|p: int| p < i && part_single(s@, p, 'C'),
            mod1 == exists|p: int| p < i && part_single(s@, p, 'A'),
            mod4 == exists|p: int| p < i && part_single(s@, p, 'W'),
        invariant
            n == s@.len(),
            0 <= i <= n,
            forall|p: int| part_start(s@, p) && p < i ==> part_error(s@, p) is None,
        ensures
            forall|p: int| part_start(s@, p) ==> part_error(s@, p) is None,
            shift == exists|p: int| part_single(s@, p, 'S'),
            control == exists|p: int| part_single(s@, p, 'C'),
            mod1 == exists|p: int| part_single(s@, p, 'A'),
            mod4 == exists|p: int| part_single(s@, p, 'W'),
        decreases n + 1 - i,
    {
        if i == n {
            proof {
                assert(part_empty(s@, i as int));
                lemma_first_bad_at(s@, 0, i as int);
            }
            return Err(
                XcrabError::Custom(String::from_str("parts must contain at least one character")),
            );
        }
        let c = s.get_char(i);
        if c == '-' {
            proof {
                assert(part_empty(s@, i as int));
                lemma_first_bad_at(s@, 0, i as int);
            }
            return Err(
                XcrabError::Custom(String::from_str("parts must contain at least one character")),
            );
        }
        let next_is_char = i + 1 < n && s.get_char(i + 1) != '-';
        if next_is_char || c as u32 > 0x7F {
            proof {
                assert(part_long(s@, i as int));
                lemma_first_bad_at(s@, 0, i as int);
            }
            return Err(
                XcrabError::Custom(String::from_str("parts may only contain one character")),
            );
        }
        // the part is the single ASCII character `c`
        proof {
            assert(part_single(s@, i as int, c));
        }
        let cu = c as u32;
        if 65 <= cu && cu <= 90 {
            if c == 'C' {
                control = true;
            } else if c == 'S' {
                shift = true;
            } else if c == 'A' {
                mod1 = true;
            } else if c == 'W' {
                mod4 = true;
            } else {
                proof {
                    assert(part_error(s@, i as int) matches Some(m) && m == "no such modifier: "@
                        + s@.subrange(i as int, i as int + 1));
                    lemma_first_bad_at(s@, 0, i as int);
                }
                let mut m = String::from_str("no such modifier: ");
                m.append(s.substring_char(i, i + 1));
                return Err(XcrabError::Custom(m));
            }
        }
        proof {
            assert(part_error(s@, i as int) is None);
        }
        if i + 1 == n {
            proof {
                // no part begins after this one: the only candidate start is
                // right after a dash, and this part's character is not one
                assert(forall|p: int|
                    part_start(s@, p) && p > i ==> p <= n && s@[p - 1] == '-');
                assert(forall|p: int| part_start(s@, p) && p > i ==> false);
                assert(forall|p: int| part_single(s@, p, 'S') && p != i ==> p < i);
                assert(forall|p: int| part_single(s@, p, 'C') && p != i ==> p < i);
                assert(forall|p: int| part_single(s@, p, 'A') && p != i ==> p < i);
                assert(forall|p: int| part_single(s@, p, 'W') && p != i ==> p < i);
            }
            break;
        } else {
            proof {
                assert(s@[i + 1] == '-');
                assert(part_start(s@, i as int + 2));
            }
            i = i + 2;
        }
    }
    // every part is valid; find the key
    let mut q: usize = 0;
    while q < n
        invariant
            n == s@.len(),
            0 <= q <= n,
            forall|j: int| 0 <= j < q ==> !is_ascii_lowercase_char(s@[j]),
        ensures
            0 <= q <= n,
            forall|j: int| 0 <= j < q ==> !is_ascii_lowercase_char(s@[j]),
            q == n || is_ascii_lowercase_char(s@[q as int]),
        decreases n - q,
    {
        let cq = s.get_char(q) as u32;
        if 97 <= cq && cq <= 122 {
            break;
        }
        q = q + 1;
    }
    proof {
        lemma_first_lower_at(s@, 0, q as int);
    }
    if q == n {
        proof {
            lemma_first_bad_at(s@, 0, n as int + 1);
        }
        return Err(XcrabError::Custom(String::from_str("must specify one normal key")));
    }
    let key = upper_of_exec(s.get_char(q));
    proof {
        lemma_first_bad_at(s@, 0, n as int + 1);
        assert(keybind_ok(s@));
    }
    Ok(Keybind { key, mods: KeyButMask { shift, control, mod1, mod4 } })
}

/// The control-socket location.
#[derive(Debug, Clone, PartialEq, Eq)]
pub struct XcrabMsgConfig {
    pub socket_path: String,
}

/// The manager's configuration. Absent values fall back to the defaults;
/// the outer gap falls back to the inner one.
#[derive(Debug, Clone)]
pub struct XcrabConfig {
    pub border_color: Option<u32>,
    pub focused_color: Option<u32>,
    pub border_size: Option<u16>,
    pub gap_size: Option<u16>,
    pub outer_gap_size: Option<u16>,
    pub msg: Option<XcrabMsgConfig>,
    pub binds: Vec<(Keybind, Action)>,
}

impl XcrabConfig {
    pub open spec fn spec_border_color(&self) -> u32 {
        match self.border_color {
            Some(v) => v,
            None => DEFAULT_BORDER_COLOR,
        }
    }

    pub fn border_color(&self) -> (r: u32)
        ensures
            r == self.spec_border_color(),
    {
        match self.border_color {
            Some(v) => v,
            None => DEFAULT_BORDER_COLOR,
        }
    }

    pub open spec fn spec_focused_color(&self) -> u32 {
        match self.focused_color {
            Some(v) => v,
            None => DEFAULT_FOCUSED_COLOR,
        }
    }

    pub fn focused_color(&self) -> (r: u32)
        ensures
            r == self.spec_focused_color(),
    {
        match self.focused_color {
            Some(v) => v,
            None => DEFAULT_FOCUSED_COLOR,
        }
    }

    pub open spec fn spec_border_size(&self) -> u16 {
        match self.border_size {
            Some(v) => v,
            None => DEFAULT_BORDER_SIZE,
        }
    }

    pub fn border_size(&self) -> (r: u16)
        ensures
            r == self.spec_border_size(),
    {
        match self.border_size {
            Some(v) => v,
            None => DEFAULT_BORDER_SIZE,
        }
    }

    pub open spec fn spec_gap_size(&self) -> u16 {
        match self.gap_size {
            Some(v) => v,
            None => DEFAULT_GAP_SIZE,
        }
    }

    pub fn gap_size(&self) -> (r: u16)
        ensures
            r == self.spec_gap_size(),
    {
        match self.gap_size {
            Some(v) => v,
            None => DEFAULT_GAP_SIZE,
        }
    }

    pub open spec fn spec_outer_gap_size(&self) -> u16 {
        match self.outer_gap_size {
            Some(v) => v,
            None => self.spec_gap_size(),
        }
    }

    pub fn outer_gap_size(&self) -> (r: u16)
        ensures
            r == self.spec_outer_gap_size(),
    {
        match self.outer_gap_size {
            Some(v) => v,
            None => self.gap_size(),
        }
    }
}

impl Default for XcrabConfig {
    /// The configuration used when no file can be read.
    fn default() -> (r: Self)
        ensures
            r.border_color == Some(DEFAULT_BORDER_COLOR),
            r.focused_color == Some(DEFAULT_FOCUSED_COLOR),
            r.border_size == Some(DEFAULT_BORDER_SIZE),
            r.gap_size == Some(DEFAULT_GAP_SIZE),
            r.outer_gap_size is None,
            r.msg is None,
            r.binds@ == Seq::<(Keybind, Action)>::empty(),
    {
        XcrabConfig {
            border_color: Some(DEFAULT_BORDER_COLOR),
            focused_color: Some(DEFAULT_FOCUSED_COLOR),
            border_size: Some(DEFAULT_BORDER_SIZE),
            gap_size: Some(DEFAULT_GAP_SIZE),
            outer_gap_size: None,
            msg: None,
            binds: Vec::new(),
        }
    }
}

} // verus!
