//! Game events and the line-based text protocol that carries them.
//!
//! A protocol line has the form `name:action` with `action` one of
//! `connect` and `disconnect`, or `name:move:direction` with `direction`
//! one of `up`, `right`, `down` and `left`. Each colon-separated part is
//! reduced to its first whitespace-delimited token; a line that does not
//! fit the grammar is malformed and silently dropped, never an error.

use vstd::prelude::*;

use crate::direction::Direction;

verus! {

/// An abstract game event decoded from one protocol line.
#[derive(Debug, Clone)]
pub enum CustomEvent {
    PlayerConnected(String),
    PlayerMove(String, Direction),
    PlayerDisconnected(String),
}

/// The mathematical shape of an event: the same three alternatives with the
/// player name as a character sequence.
pub enum EventShape {
    Connected(Seq<char>),
    Move(Seq<char>, Direction),
    Disconnected(Seq<char>),
}

impl CustomEvent {
    /// The shape of this event.
    pub open spec fn shape_spec(self) -> EventShape {
        match self {
            CustomEvent::PlayerConnected(n) => EventShape::Connected(n@),
            CustomEvent::PlayerMove(n, d) => EventShape::Move(n@, d),
            CustomEvent::PlayerDisconnected(n) => EventShape::Disconnected(n@),
        }
    }
}

/// The protocol's whitespace: blank, tab, carriage return and line feed.
pub open spec fn is_space_char(c: char) -> bool {
    c == ' ' || c == '\t' || c == '\r' || c == '\n'
}

/// The first index in `from..` holding a colon, or the length when there
/// is none.
pub open spec fn first_colon(s: Seq<char>, from: int) -> int
    decreases s.len() - from,
    when 0 <= from <= s.len()
{
    if from >= s.len() {
        s.len() as int
    } else if s[from] == ':' {
        from
    } else {
        first_colon(s, from + 1)
    }
}

/// The first index in `from..to` holding a non-space character, or `to`.
pub open spec fn scan_non_space(s: Seq<char>, from: int, to: int) -> int
    decreases to - from,
    when 0 <= from && from <= to && to <= s.len()
{
    if from >= to {
        to
    } else if !is_space_char(s[from]) {
        from
    } else {
        scan_non_space(s, from + 1, to)
    }
}

/// The first index in `from..to` holding a space character, or `to`.
pub open spec fn scan_space(s: Seq<char>, from: int, to: int) -> int
    decreases to - from,
    when 0 <= from && from <= to && to <= s.len()
{
    if from >= to {
        to
    } else if is_space_char(s[from]) {
        from
    } else {
        scan_space(s, from + 1, to)
    }
}

/// The first whitespace-delimited token of `s[lo..hi]`, or `None` when that
/// range holds only whitespace.
pub open spec fn token_between(s: Seq<char>, lo: int, hi: int) -> Option<Seq<char>> {
    let a = scan_non_space(s, lo, hi);
    if a >= hi {
        None
    } else {
        Some(s.subrange(a, scan_space(s, a, hi)))
    }
}

/// The event a protocol line decodes to, or `None` when the line is
/// malformed: the wrong number of colon-separated parts, a part holding no
/// token, or an unknown action or direction word.
pub open spec fn parse_event_spec(s: Seq<char>) -> Option<EventShape> {
    let c1 = first_colon(s, 0);
    if c1 >= s.len() {
        None
    } else {
        let c2 = first_colon(s, c1 + 1);
        if c2 >= s.len() {
            match (token_between(s, 0, c1), token_between(s, c1 + 1, s.len() as int)) {
                (Some(name), Some(action)) => if action == "connect"@ {
                    Some(EventShape::Connected(name))
                } else if action == "disconnect"@ {
                    Some(EventShape::Disconnected(name))
                } else {
                    None
                },
                _ => None,
            }
        } else if first_colon(s, c2 + 1) < s.len() {
            None
        } else {
            match (
                token_between(s, 0, c1),
                token_between(s, c1 + 1, c2),
                token_between(s, c2 + 1, s.len() as int),
            ) {
                (Some(name), Some(action), Some(dt)) => if action == "move"@ {
                    if dt == "up"@ {
                        Some(EventShape::Move(name, Direction::Up))
                    } else if dt == "right"@ {
                        Some(EventShape::Move(name, Direction::Right))
                    } else if dt == "down"@ {
                        Some(EventShape::Move(name, Direction::Down))
                    } else if dt == "left"@ {
                        Some(EventShape::Move(name, Direction::Left))
                    } else {
                        None
                    }
                } else {
                    None
                },
                _ => None,
            }
        }
    }
}

proof fn lemma_first_colon_bounds(s: Seq<char>, from: int)
    requires
        0 <= from <= s.len(),
    ensures
        from <= first_colon(s, from) <= s.len(),
    decreases s.len() - from,
{
    if from < s.len() && s[from] != ':' {
        lemma_first_colon_bounds(s, from + 1);
    }
}

proof fn lemma_scan_non_space_bounds(s: Seq<char>, from: int, to: int)
    requires
        0 <= from <= to <= s.len(),
    ensures
        from <= scan_non_space(s, from, to) <= to,
    decreases to - from,
{
    if from < to && is_space_char(s[from]) {
        lemma_scan_non_space_bounds(s, from + 1, to);
    }
}

proof fn lemma_scan_space_bounds(s: Seq<char>, from: int, to: int)
    requires
        0 <= from <= to <= s.len(),
    ensures
        from <= scan_space(s, from, to) <= to,
    decreases to - from,
{
    if from < to && !is_space_char(s[from]) {
        lemma_scan_space_bounds(s, from + 1, to);
    }
}

/// Whether `c` counts as protocol whitespace.
fn is_space(c: char) -> (r: bool)
    ensures
        r == is_space_char(c),
{
    c == ' ' || c == '\t' || c == '\r' || c == '\n'
}

/// The first colon at or after `from`, or the character length.
fn find_colon(s: &str, from: usize) -> (r: usize)
    requires
        from as int <= s@.len(),
    ensures
        r as int == first_colon(s@, from as int),
        from <= r,
        r as int <= s@.len(),
{
    let n = s.unicode_len();
    let mut i = from;
    while i < n
        invariant
            from <= i <= n,
            n as int == s@.len(),
            first_colon(s@, from as int) == first_colon(s@, i as int),
        decreases n - i,
    {
        if s.get_char(i) == ':' {
            return i;
        }
        i += 1;
    }
    n
}

/// The first whitespace-delimited token of `s[lo..hi]` as an owned string,
/// or `None` when the range holds only whitespace.
fn token_in(s: &str, lo: usize, hi: usize) -> (r: Option<String>)
    requires
        lo <= hi,
        hi as int <= s@.len(),
    ensures
        match (r, token_between(s@, lo as int, hi as int)) {
            (Some(t), Some(m)) => t@ == m,
            (None, None) => true,
            _ => false,
        },
{
    let mut a = lo;
    while a < hi && is_space(s.get_char(a))
        invariant
            lo <= a <= hi,
            hi as int <= s@.len(),
            scan_non_space(s@, lo as int, hi as int) == scan_non_space(s@, a as int, hi as int),
        decreases hi - a,
    {
        a += 1;
    }
    if a == hi {
        return None;
    }
    let mut b = a;
    while b < hi && !is_space(s.get_char(b))
        invariant
            a <= b <= hi,
            hi as int <= s@.len(),
            scan_space(s@, a as int, hi as int) == scan_space(s@, b as int, hi as int),
        decreases hi - b,
    {
        b += 1;
    }
    let t = s.substring_char(a, b);
    Some(t.to_owned())
}

/// Character-wise string equality.
pub(crate) fn str_eq(a: &str, b: &str) -> (r: bool)
    ensures
        r == (a@ == b@),
{
    let n = a.unicode_len();
    let m = b.unicode_len();
    if n != m {
        proof {
            assert(a@.len() != b@.len());
        }
        return false;
    }
    let mut i: usize = 0;
    while i < n
        invariant
            i <= n,
            n as int == a@.len(),
            n as int == b@.len(),
            forall|k: int| 0 <= k < i ==> a@[k] == b@[k],
        decreases n - i,
    {
        if s_get(a, i) != s_get(b, i) {
            proof {
                assert(a@[i as int] != b@[i as int]);
            }
            return false;
        }
        i += 1;
    }
    proof {
        assert(a@ =~= b@);
    }
    true
}

/// One character of `s`.
fn s_get(s: &str, i: usize) -> (c: char)
    requires
        (i as int) < s@.len(),
    ensures
        c == s@[i as int],
{
    s.get_char(i)
}

/// Decodes one protocol line into an event: exactly the lines
/// `parse_event_spec` accepts produce `Some`, with the decoded name,
/// action and direction; every malformed line yields `None`.
pub fn parse_event(line: &str) -> (r: Option<CustomEvent>)
    ensures
        match r {
            Some(e) => parse_event_spec(line@) == Some(e.shape_spec()),
            None => parse_event_spec(line@) is None,
        },
{
    let len = line.unicode_len();
    let c1 = find_colon(line, 0);
    if c1 == len {
        return None;
    }
    let c2 = find_colon(line, c1 + 1);
    if c2 == len {
        let name = token_in(line, 0, c1);
        let action = token_in(line, c1 + 1, len);
        match (name, action) {
            (Some(n), Some(a)) => {
                if str_eq(a.as_str(), "connect") {
                    Some(CustomEvent::PlayerConnected(n))
                } else if str_eq(a.as_str(), "disconnect") {
                    Some(CustomEvent::PlayerDisconnected(n))
                } else {
                    None
                }
            },
            _ => None,
        }
    } else {
        let c3 = find_colon(line, c2 + 1);
        if c3 != len {
            return None;
        }
        let name = token_in(line, 0, c1);
        let action = token_in(line, c1 + 1, c2);
        let dirtok = token_in(line, c2 + 1, len);
        match (name, action, dirtok) {
            (Some(n), Some(a), Some(dt)) => {
                if !str_eq(a.as_str(), "move") {
                    return None;
                }
                if str_eq(dt.as_str(), "up") {
                    Some(CustomEvent::PlayerMove(n, Direction::Up))
                } else if str_eq(dt.as_str(), "right") {
                    Some(CustomEvent::PlayerMove(n, Direction::Right))
                } else if str_eq(dt.as_str(), "down") {
                    Some(CustomEvent::PlayerMove(n, Direction::Down))
                } else if str_eq(dt.as_str(), "left") {
                    Some(CustomEvent::PlayerMove(n, Direction::Left))
                } else {
                    None
                }
            },
            _ => None,
        }
    }
}

} // verus!
