//! Member names and field paths.

use crate::collections::Same;
use crate::error::Error;
use crate::text::{join_on, split_on, split_str, str_eq, views};
use vstd::prelude::*;
use vstd::string::*;

verus! {

/// Characters that a member name may not hold: those reserved by the query
/// grammar and the document format, and whitespace.
pub open spec fn is_reserved(c: char) -> bool {
    c == '+' || c == ',' || c == '.' || c == '[' || c == ']' || c == ' ' || c == '\t' || c
        == '\n' || c == '\r' || c == '\x0C'
}

/// A member name: non-empty, with no reserved character.
pub open spec fn valid_key(s: Seq<char>) -> bool {
    s.len() > 0 && forall|i: int| 0 <= i < s.len() ==> !is_reserved(#[trigger] s[i])
}

/// A path is well formed when every dot-separated segment is a member name.
pub open spec fn valid_path(s: Seq<char>) -> bool {
    forall|i: int|
        0 <= i < split_on(s, '.').len() ==> valid_key(#[trigger] split_on(s, '.')[i])
}

fn reserved(c: char) -> (r: bool)
    ensures
        r == is_reserved(c),
{
    c == '+' || c == ',' || c == '.' || c == '[' || c == ']' || c == ' ' || c == '\t' || c
        == '\n' || c == '\r' || c == '\x0C'
}

/// Whether `s` is a member name.
pub fn is_valid_key(s: &str) -> (r: bool)
    ensures
        r == valid_key(s@),
{
    let n = s.unicode_len();
    if n == 0 {
        return false;
    }
    let mut i: usize = 0;
    while i < n
        invariant
            n == s@.len(),
            i <= n,
            forall|j: int| 0 <= j < i ==> !is_reserved(#[trigger] s@[j]),
        decreases n - i,
    {
        if reserved(s.get_char(i)) {
            return false;
        }
        i = i + 1;
    }
    true
}

/// A validated member name.
#[derive(Debug, Clone, PartialEq, Eq, Hash)]
pub struct Key {
    name: String,
}

impl View for Key {
    type V = Seq<char>;

    closed spec fn view(&self) -> Seq<char> {
        self.name@
    }
}

impl Key {
    /// Parses a member name; fails with `InvalidMemberName` when `s` is empty
    /// or holds a reserved character.
    pub fn try_from(s: &str) -> (r: Result<Key, Error>)
        ensures
            match r {
                Ok(k) => valid_key(s@) && k@ == s@,
                Err(e) => !valid_key(s@) && (e matches Error::InvalidMemberName(n) && n@ == s@),
            },
    {
        if is_valid_key(s) {
            Ok(Key { name: s.to_owned() })
        } else {
            Err(Error::invalid_member_name(s))
        }
    }

    /// The name as text.
    pub fn as_str(&self) -> (r: &str)
        ensures
            r@ == self@,
    {
        self.name.as_str()
    }

    /// A copy of this key.
    pub fn copy(&self) -> (r: Key)
        ensures
            r@ == self@,
    {
        Key { name: self.name.clone() }
    }

    /// Whether two keys hold the same name.
    pub fn same(&self, other: &Key) -> (r: bool)
        ensures
            r == (self@ == other@),
    {
        str_eq(self.name.as_str(), other.name.as_str())
    }
}

impl Same for Key {
    fn same(&self, other: &Key) -> (r: bool) {
        str_eq(self.name.as_str(), other.name.as_str())
    }
}

/// The names of a sequence of keys.
pub open spec fn key_views(v: Seq<Key>) -> Seq<Seq<char>> {
    v.map_values(|k: Key| k@)
}

/// A dot-separated, non-empty sequence of member names.
#[derive(Debug, Clone, PartialEq, Eq, Hash)]
pub struct Path {
    segments: Vec<Key>,
}

impl View for Path {
    type V = Seq<Seq<char>>;

    closed spec fn view(&self) -> Seq<Seq<char>> {
        key_views(self.segments@)
    }
}

impl Path {
    /// Parses a path: splits `s` on `.` and validates each segment as a member
    /// name; fails with `InvalidMemberName` carrying `s` otherwise.
    pub fn try_from(s: &str) -> (r: Result<Path, Error>)
        ensures
            match r {
                Ok(p) => valid_path(s@) && p@ == split_on(s@, '.'),
                Err(e) => !valid_path(s@) && (e matches Error::InvalidMemberName(n) && n@ == s@),
            },
    {
        let parts = split_str(s, '.');
        let mut segments: Vec<Key> = Vec::new();
        let mut i: usize = 0;
        while i < parts.len()
            invariant
                views(parts@) == split_on(s@, '.'),
                i <= parts@.len(),
                key_views(segments@) == views(parts@).subrange(0, i as int),
                forall|j: int| 0 <= j < i ==> valid_key(#[trigger] views(parts@)[j]),
            decreases parts.len() - i,
        {
            match Key::try_from(parts[i].as_str()) {
                Ok(k) => {
                    let ghost prev = segments@;
                    segments.push(k);
                    proof {
                        assert(key_views(segments@) =~= key_views(prev).push(k@));
                        assert(views(parts@).subrange(0, i + 1) =~= views(parts@).subrange(
                            0,
                            i as int,
                        ).push(views(parts@)[i as int]));
                    }
                },
                Err(_) => {
                    proof {
                        assert(!valid_key(split_on(s@, '.')[i as int]));
                    }
                    return Err(Error::invalid_member_name(s));
                },
            }
            i = i + 1;
        }
        proof {
            assert(views(parts@).subrange(0, i as int) =~= views(parts@));
        }
        Ok(Path { segments })
    }

    /// A copy of this path.
    pub fn copy(&self) -> (r: Path)
        ensures
            r@ == self@,
    {
        let mut segments: Vec<Key> = Vec::new();
        let mut i: usize = 0;
        while i < self.segments.len()
            invariant
                i <= self@.len(),
                key_views(segments@) == self@.subrange(0, i as int),
            decreases self@.len() - i,
        {
            let ghost prev = segments@;
            let k = self.segments[i].copy();
            segments.push(k);
            proof {
                assert(key_views(segments@) =~= key_views(prev).push(k@));
                assert(self@.subrange(0, i + 1) =~= self@.subrange(0, i as int).push(self@[i as int]));
            }
            i = i + 1;
        }
        assert(self@.subrange(0, i as int) =~= self@);
        Path { segments }
    }

    /// A path of one segment.
    pub fn from_key(k: Key) -> (r: Path)
        ensures
            r@ == seq![k@],
    {
        let mut segments: Vec<Key> = Vec::new();
        segments.push(k);
        proof {
            assert(key_views(segments@) =~= seq![k@]);
        }
        Path { segments }
    }

    /// The number of segments.
    pub fn len(&self) -> (r: usize)
        ensures
            r == self@.len(),
    {
        self.segments.len()
    }

    /// The segment at `i`.
    pub fn segment(&self, i: usize) -> (r: &Key)
        requires
            i < self@.len(),
        ensures
            r@ == self@[i as int],
    {
        &self.segments[i]
    }

    /// Whether `prefix` is an initial run of this path's segments.
    pub fn starts_with(&self, prefix: &Path) -> (r: bool)
        ensures
            r == (prefix@.len() <= self@.len() && self@.subrange(0, prefix@.len() as int)
                == prefix@),
    {
        let n = prefix.segments.len();
        if n > self.segments.len() {
            return false;
        }
        let mut i: usize = 0;
        while i < n
            invariant
                n == prefix@.len(),
                n <= self@.len(),
                i <= n,
                self@.subrange(0, i as int) == prefix@.subrange(0, i as int),
            decreases n - i,
        {
            if !self.segments[i].same(&prefix.segments[i]) {
                assert(self@.subrange(0, n as int)[i as int] != prefix@[i as int]);
                return false;
            }
            assert(self@.subrange(0, i + 1) =~= self@.subrange(0, i as int).push(self@[i as int]));
            assert(prefix@.subrange(0, i + 1) =~= prefix@.subrange(0, i as int).push(
                prefix@[i as int],
            ));
            i = i + 1;
        }
        assert(prefix@.subrange(0, n as int) =~= prefix@);
        true
    }

    /// Whether two paths hold the same segments.
    pub fn same(&self, other: &Path) -> (r: bool)
        ensures
            r == (self@ == other@),
    {
        let r = self.segments.len() == other.segments.len() && self.starts_with(other);
        assert(self@.subrange(0, self@.len() as int) =~= self@);
        r
    }

    /// The keys of this path, in order.
    pub fn keys(&self) -> (r: &Vec<Key>)
        ensures
            key_views(r@) == self@,
    {
        &self.segments
    }

    /// The path written with `.` between its segments.
    pub fn to_text(&self) -> (r: String)
        ensures
            r@ == join_on(self@, '.'),
    {
        let mut out = String::new();
        let mut i: usize = 0;
        while i < self.segments.len()
            invariant
                i <= self@.len(),
                out@ == join_on(self@.subrange(0, i as int), '.'),
            decreases self@.len() - i,
        {
            proof {
                let next = self@.subrange(0, i + 1);
                assert(next.drop_last() =~= self@.subrange(0, i as int));
            }
            if i > 0 {
                proof {
                    reveal_strlit(".");
                }
                out.append(".");
            }
            out.append(self.segments[i].as_str());
            i = i + 1;
        }
        assert(self@.subrange(0, i as int) =~= self@);
        out
    }
}

impl Same for Path {
    fn same(&self, other: &Path) -> (r: bool) {
        let r = self.segments.len() == other.segments.len() && self.starts_with(other);
        assert(self@.subrange(0, self@.len() as int) =~= self@);
        r
    }
}

} // verus!
