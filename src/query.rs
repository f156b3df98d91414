//! The query-string language: sparse fieldsets, filters, includes,
//! pagination and sorting.

use crate::collections::{map_get, map_put, seq_insert_all, OrderedMap, OrderedSet};
use crate::error::Error;
use crate::fields::{valid_key, valid_path, Key, Path};
use crate::page::{Direction, Page, Sort};
use crate::text::{
    decimal, digits_value, join_on, join_strs, push_char, push_decimal, split_on, split_str, str_eq, views,
};
use vstd::prelude::*;
use vstd::string::*;
use vstd::utf8::{decode_utf8, encode_scalar, encode_utf8, valid_utf8};

verus! {

/// Whether `c` is a hexadecimal digit.
pub open spec fn is_hex(c: char) -> bool {
    ('0' <= c && c <= '9') || ('a' <= c && c <= 'f') || ('A' <= c && c <= 'F')
}

/// The value of a hexadecimal digit.
pub open spec fn hex_value(c: char) -> int {
    if '0' <= c && c <= '9' {
        c as int - '0' as int
    } else if 'a' <= c && c <= 'f' {
        c as int - 'a' as int + 10
    } else {
        c as int - 'A' as int + 10
    }
}

/// The byte that a percent escape of two hexadecimal digits stands for.
pub open spec fn escaped(h: char, l: char) -> Option<u8> {
    if is_hex(h) && is_hex(l) {
        Some((hex_value(h) * 16 + hex_value(l)) as u8)
    } else {
        None
    }
}

/// The bytes that `s` stands for from position `i` on: `%XY` is the byte
/// `0xXY`, `+` is a space, and any other character its UTF-8 encoding.
pub open spec fn decode_bytes_from(s: Seq<char>, i: int) -> Option<Seq<u8>>
    decreases s.len() - i,
{
    if i < 0 || i >= s.len() {
        Some(Seq::<u8>::empty())
    } else if s[i] == '%' {
        if i + 2 < s.len() {
            match (escaped(s[i + 1], s[i + 2]), decode_bytes_from(s, i + 3)) {
                (Some(b), Some(t)) => Some(seq![b] + t),
                _ => None,
            }
        } else {
            None
        }
    } else {
        let c = if s[i] == '+' {
            ' '
        } else {
            s[i]
        };
        match decode_bytes_from(s, i + 1) {
            Some(t) => Some(encode_utf8(seq![c]) + t),
            None => None,
        }
    }
}

/// The bytes that `s` stands for, if its escapes are well formed.
pub open spec fn decode_bytes(s: Seq<char>) -> Option<Seq<u8>> {
    decode_bytes_from(s, 0)
}

/// The percent-decoded form of `s`: the text whose UTF-8 encoding the bytes
/// of `s` are; `None` where an escape is malformed or the bytes are not
/// UTF-8.
pub open spec fn decode(s: Seq<char>) -> Option<Seq<char>> {
    match decode_bytes(s) {
        Some(b) => if valid_utf8(b) {
            Some(decode_utf8(b))
        } else {
            None
        },
        None => None,
    }
}

fn hex_digit(c: char) -> (r: Option<u32>)
    ensures
        match r {
            Some(v) => is_hex(c) && v == hex_value(c),
            None => !is_hex(c),
        },
{
    if '0' <= c && c <= '9' {
        Some(c as u32 - '0' as u32)
    } else if 'a' <= c && c <= 'f' {
        Some(c as u32 - 'a' as u32 + 10)
    } else if 'A' <= c && c <= 'F' {
        Some(c as u32 - 'A' as u32 + 10)
    } else {
        None
    }
}

/// Appends the UTF-8 encoding of `c`.
fn push_utf8(out: &mut Vec<u8>, c: char)
    ensures
        final(out)@ == old(out)@ + encode_utf8(seq![c]),
{
    let mut t = String::new();
    push_char(&mut t, c);
    assert(t@ =~= seq![c]);
    let mut b = t.as_str().as_bytes_vec();
    let ghost prev = out@;
    out.append(&mut b);
    assert(out@ == prev + encode_utf8(seq![c]));
}

/// The bytes that `s` stands for; `None` where an escape is malformed.
fn decode_to_bytes(s: &str) -> (r: Option<Vec<u8>>)
    ensures
        match r {
            Some(b) => decode_bytes(s@) == Some(b@),
            None => decode_bytes(s@) is None,
        },
{
    let n = s.unicode_len();
    let mut out: Vec<u8> = Vec::new();
    let mut i: usize = 0;
    while i < n
        invariant
            n == s@.len(),
            i <= n,
            decode_bytes(s@) == match decode_bytes_from(s@, i as int) {
                Some(t) => Some(out@ + t),
                None => None,
            },
        decreases n - i,
    {
        let c = s.get_char(i);
        let ghost before = out@;
        if c == '%' {
            if n - i > 2 {
                let h = hex_digit(s.get_char(i + 1));
                let l = hex_digit(s.get_char(i + 2));
                match (h, l) {
                    (Some(hv), Some(lv)) => {
                        let d = (hv * 16 + lv) as u8;
                        out.push(d);
                        proof {
                            assert(escaped(s@[i + 1], s@[i + 2]) == Some(d));
                            match decode_bytes_from(s@, i + 3) {
                                Some(t) => {
                                    assert(before + (seq![d] + t) =~= out@ + t);
                                },
                                None => {},
                            }
                        }
                        i = i + 3;
                    },
                    _ => {
                        return None;
                    },
                }
            } else {
                return None;
            }
        } else {
            let d = if c == '+' {
                ' '
            } else {
                c
            };
            push_utf8(&mut out, d);
            proof {
                match decode_bytes_from(s@, i + 1) {
                    Some(t) => {
                        assert(before + (encode_utf8(seq![d]) + t) =~= out@ + t);
                    },
                    None => {},
                }
            }
            i = i + 1;
        }
    }
    proof {
        assert(out@ + Seq::<u8>::empty() =~= out@);
    }
    Some(out)
}

/// Percent-decodes `s`; `None` where an escape is malformed or the bytes
/// are not UTF-8.
pub fn percent_decode(s: &str) -> (r: Option<String>)
    ensures
        match r {
            Some(t) => decode(s@) == Some(t@),
            None => decode(s@) is None,
        },
{
    match decode_to_bytes(s) {
        Some(b) => match utf8_text(b.as_slice()) {
            Some(t) => Some(t.to_owned()),
            None => None,
        },
        None => None,
    }
}

/// Whether `c` is a decimal digit.
pub open spec fn is_digit(c: char) -> bool {
    '0' <= c && c <= '9'
}

/// Whether `s` writes a decimal number that fits in a `u64`.
pub open spec fn is_u64_literal(s: Seq<char>) -> bool {
    s.len() > 0 && (forall|i: int| 0 <= i < s.len() ==> is_digit(#[trigger] s[i]))
        && digits_value(s) <= u64::MAX
}

proof fn lemma_digits_grow(s: Seq<char>, i: int)
    requires
        0 <= i <= s.len(),
        forall|j: int| 0 <= j < s.len() ==> is_digit(#[trigger] s[j]),
    ensures
        digits_value(s.subrange(0, i)) <= digits_value(s),
    decreases s.len(),
{
    if i < s.len() {
        let t = s.drop_last();
        assert forall|j: int| 0 <= j < t.len() implies is_digit(#[trigger] t[j]) by {
            assert(t[j] == s[j]);
        }
        lemma_digits_grow(t, i);
        assert(t.subrange(0, i) =~= s.subrange(0, i));
    } else {
        assert(s.subrange(0, i) =~= s);
    }
}

/// Parses a decimal `u64`.
pub fn parse_u64(s: &str) -> (r: Option<u64>)
    ensures
        match r {
            Some(v) => is_u64_literal(s@) && v == digits_value(s@),
            None => !is_u64_literal(s@),
        },
{
    let n = s.unicode_len();
    if n == 0 {
        return None;
    }
    let mut acc: u64 = 0;
    let mut i: usize = 0;
    while i < n
        invariant
            n == s@.len(),
            i <= n,
            acc == digits_value(s@.subrange(0, i as int)),
            forall|j: int| 0 <= j < i ==> is_digit(#[trigger] s@[j]),
        decreases n - i,
    {
        let c = s.get_char(i);
        proof {
            assert(s@.subrange(0, i + 1).drop_last() =~= s@.subrange(0, i as int));
        }
        if !('0' <= c && c <= '9') {
            return None;
        }
        let d = (c as u32 - '0' as u32) as u64;
        if acc > (u64::MAX - d) / 10 {
            proof {
                assert(digits_value(s@.subrange(0, i + 1)) > u64::MAX) by (nonlinear_arith)
                    requires
                        digits_value(s@.subrange(0, i + 1)) == acc * 10 + d,
                        acc > (u64::MAX - d) / 10,
                        d <= 9,
                ;
                if forall|j: int| 0 <= j < n ==> is_digit(#[trigger] s@[j]) {
                    lemma_digits_grow(s@, i + 1);
                }
            }
            return None;
        }
        assert(acc * 10 + d <= u64::MAX) by (nonlinear_arith)
            requires
                acc <= (u64::MAX - d) / 10,
                d <= 9,
        ;
        acc = acc * 10 + d;
        i = i + 1;
    }
    proof {
        assert(s@.subrange(0, n as int) =~= s@);
    }
    Some(acc)
}

/// The mathematical model of a query: the views of its collections, in order.
pub struct QueryModel {
    pub fields: Seq<(Seq<char>, Seq<Seq<char>>)>,
    pub filter: Seq<(Seq<Seq<char>>, Seq<char>)>,
    pub includes: Seq<Seq<Seq<char>>>,
    pub page: Option<Page>,
    pub sort: Seq<(Seq<Seq<char>>, Direction)>,
}

/// A structured query: sparse fieldsets, filters, included paths,
/// pagination and sort criteria.
#[derive(Debug, Clone, PartialEq)]
pub struct Query {
    /// The attribute names to keep, per resource kind.
    pub fields: OrderedMap<Key, OrderedSet<Key>>,
    /// The literal filter operand, per path.
    pub filter: OrderedMap<Path, String>,
    /// The relationship paths whose targets are embedded, in order.
    pub includes: OrderedSet<Path>,
    /// Pagination; `None` where no page parameter was given.
    pub page: Option<Page>,
    /// The sort criteria, highest precedence first.
    pub sort: OrderedSet<Sort>,
}

impl View for Query {
    type V = QueryModel;

    open spec fn view(&self) -> QueryModel {
        QueryModel {
            fields: self.fields@,
            filter: self.filter@,
            includes: self.includes@,
            page: self.page,
            sort: self.sort@,
        }
    }
}

/// The model of the empty query.
pub open spec fn empty_model() -> QueryModel {
    QueryModel {
        fields: Seq::empty(),
        filter: Seq::empty(),
        includes: Seq::empty(),
        page: None,
        sort: Seq::empty(),
    }
}

impl Default for Query {
    fn default() -> (r: Query)
        ensures
            r@ == empty_model(),
    {
        Query::new()
    }
}

impl Query {
    /// The empty query.
    pub fn new() -> (r: Query)
        ensures
            r@ == empty_model(),
    {
        Query {
            fields: OrderedMap::new(),
            filter: OrderedMap::new(),
            includes: OrderedSet::new(),
            page: None,
            sort: OrderedSet::new(),
        }
    }
}

/// The name of the parameter that lists the relationship paths to embed.
pub open spec fn incl_param() -> Seq<char> {
    seq!['i', 'n', 'c', 'l', 'u', 'd', 'e']
}

/// What stands between `prefix` and a closing `]` that ends `k`.
pub open spec fn bracketed(k: Seq<char>, prefix: Seq<char>) -> Option<Seq<char>> {
    if k.len() >= prefix.len() + 1 && k.subrange(0, prefix.len() as int) == prefix && k.last()
        == ']' {
        Some(k.subrange(prefix.len() as int, k.len() - 1))
    } else {
        None
    }
}

/// Whether every piece is a path.
pub open spec fn all_paths(ps: Seq<Seq<char>>) -> bool {
    forall|i: int| 0 <= i < ps.len() ==> valid_path(#[trigger] ps[i])
}

/// Whether every piece is a member name.
pub open spec fn all_keys(ps: Seq<Seq<char>>) -> bool {
    forall|i: int| 0 <= i < ps.len() ==> valid_key(#[trigger] ps[i])
}

/// The path text of a sort piece: without its leading `-`, if any.
pub open spec fn sort_text(p: Seq<char>) -> Seq<char> {
    if p.len() > 0 && p[0] == '-' {
        p.drop_first()
    } else {
        p
    }
}

/// The model of the sort criterion that a sort piece writes.
pub open spec fn sort_model(p: Seq<char>) -> (Seq<Seq<char>>, Direction) {
    (
        split_on(sort_text(p), '.'),
        if p.len() > 0 && p[0] == '-' {
            Direction::Desc
        } else {
            Direction::Asc
        },
    )
}

/// Whether every piece is a sort criterion.
pub open spec fn all_sorts(ps: Seq<Seq<char>>) -> bool {
    forall|i: int| 0 <= i < ps.len() ==> valid_path(sort_text(#[trigger] ps[i]))
}

/// The page number kept by `page`, or `1`.
pub open spec fn page_number(page: Option<Page>) -> u64 {
    match page {
        Some(p) => p.number,
        None => 1,
    }
}

/// The page size kept by `page`, if any.
pub open spec fn page_size(page: Option<Page>) -> Option<u64> {
    match page {
        Some(p) => p.size,
        None => None,
    }
}

/// The query `m` after the decoded parameter `k=v`; `None` where the
/// parameter is malformed.
pub open spec fn apply_param(m: QueryModel, k: Seq<char>, v: Seq<char>) -> Option<QueryModel> {
    let pieces = split_on(v, ',');
    if k == incl_param() {
        if all_paths(pieces) {
            Some(
                QueryModel {
                    includes: seq_insert_all(
                        m.includes,
                        pieces.map_values(|p: Seq<char>| split_on(p, '.')),
                    ),
                    ..m
                },
            )
        } else {
            None
        }
    } else if k == "sort"@ {
        if all_sorts(pieces) {
            Some(
                QueryModel {
                    sort: seq_insert_all(m.sort, pieces.map_values(|p: Seq<char>| sort_model(p))),
                    ..m
                },
            )
        } else {
            None
        }
    } else if k == "page[number]"@ {
        if is_u64_literal(v) {
            let n = digits_value(v) as u64;
            Some(
                QueryModel {
                    page: Some(
                        Page {
                            number: if n > 0 {
                                n
                            } else {
                                1
                            },
                            size: page_size(m.page),
                        },
                    ),
                    ..m
                },
            )
        } else {
            None
        }
    } else if k == "page[size]"@ {
        if is_u64_literal(v) {
            Some(
                QueryModel {
                    page: Some(
                        Page { number: page_number(m.page), size: Some(digits_value(v) as u64) },
                    ),
                    ..m
                },
            )
        } else {
            None
        }
    } else {
        match bracketed(k, "fields["@) {
            Some(t) => {
                if valid_key(t) && all_keys(pieces) {
                    Some(
                        QueryModel {
                            fields: map_put(
                                m.fields,
                                t,
                                seq_insert_all(
                                    match map_get(m.fields, t) {
                                        Some(set) => set,
                                        None => Seq::empty(),
                                    },
                                    pieces,
                                ),
                            ),
                            ..m
                        },
                    )
                } else {
                    None
                }
            },
            None => match bracketed(k, "filter["@) {
                Some(p) => {
                    if valid_path(p) {
                        Some(QueryModel { filter: map_put(m.filter, split_on(p, '.'), v), ..m })
                    } else {
                        None
                    }
                },
                None => None,
            },
        }
    }
}

/// Whether `n` is a member name or path of the parameter `k=v` that fails
/// validation.
pub open spec fn bad_name(k: Seq<char>, v: Seq<char>, n: Seq<char>) -> bool {
    let pieces = split_on(v, ',');
    if k == incl_param() {
        exists|i: int| 0 <= i < pieces.len() && !valid_path(pieces[i]) && n == #[trigger] pieces[i]
    } else if k == "sort"@ {
        exists|i: int|
            0 <= i < pieces.len() && !valid_path(sort_text(pieces[i])) && n == sort_text(
                #[trigger] pieces[i],
            )
    } else if k == "page[number]"@ || k == "page[size]"@ {
        false
    } else {
        match bracketed(k, "fields["@) {
            Some(t) => (!valid_key(t) && n == t) || (valid_key(t) && exists|i: int|
                0 <= i < pieces.len() && !valid_key(pieces[i]) && n == #[trigger] pieces[i]),
            None => match bracketed(k, "filter["@) {
                Some(p) => !valid_path(p) && n == p,
                None => false,
            },
        }
    }
}

/// Parses each piece of `v` between commas as a path.
fn parse_paths(v: &str) -> (r: Result<Vec<Path>, Error>)
    ensures
        match r {
            Ok(ps) => all_paths(split_on(v@, ',')) && ps@.map_values(|p: Path| p@) == split_on(
                v@,
                ',',
            ).map_values(|t: Seq<char>| split_on(t, '.')),
            Err(e) => !all_paths(split_on(v@, ',')) && exists|i: int|
                0 <= i < split_on(v@, ',').len() && !valid_path(split_on(v@, ',')[i]) && (
                e matches Error::InvalidMemberName(n) && n@ == #[trigger] split_on(v@, ',')[i]),
        },
{
    let parts = split_str(v, ',');
    let ghost pv = views(parts@);
    let mut out: Vec<Path> = Vec::new();
    let mut i: usize = 0;
    while i < parts.len()
        invariant
            pv == views(parts@),
            pv == split_on(v@, ','),
            i <= parts@.len(),
            out@.map_values(|p: Path| p@) == pv.subrange(0, i as int).map_values(
                |t: Seq<char>| split_on(t, '.'),
            ),
            forall|j: int| 0 <= j < i ==> valid_path(#[trigger] pv[j]),
        decreases parts.len() - i,
    {
        let ghost prev = out@;
        assert(pv[i as int] == parts@[i as int]@);
        let p = match Path::try_from(parts[i].as_str()) {
            Ok(x) => x,
            Err(e) => {
                assert(pv[i as int] == split_on(v@, ',')[i as int]);
                return Err(e);
            },
        };
        out.push(p);
        proof {
            assert(out@ == prev.push(p));
            assert(out@.map_values(|p: Path| p@) =~= prev.map_values(|p: Path| p@).push(p@));
            assert(pv.subrange(0, i + 1) =~= pv.subrange(0, i as int).push(pv[i as int]));
            assert(out@.map_values(|p: Path| p@) =~= pv.subrange(0, i + 1).map_values(
                |t: Seq<char>| split_on(t, '.'),
            ));
        }
        i = i + 1;
    }
    proof {
        assert(pv.subrange(0, i as int) =~= pv);
    }
    Ok(out)
}

/// Parses each piece of `v` between commas as a member name.
fn parse_keys(v: &str) -> (r: Result<Vec<Key>, Error>)
    ensures
        match r {
            Ok(ks) => all_keys(split_on(v@, ',')) && ks@.map_values(|k: Key| k@) == split_on(
                v@,
                ',',
            ),
            Err(e) => !all_keys(split_on(v@, ',')) && exists|i: int|
                0 <= i < split_on(v@, ',').len() && !valid_key(split_on(v@, ',')[i]) && (
                e matches Error::InvalidMemberName(n) && n@ == #[trigger] split_on(v@, ',')[i]),
        },
{
    let parts = split_str(v, ',');
    let ghost pv = views(parts@);
    let mut out: Vec<Key> = Vec::new();
    let mut i: usize = 0;
    while i < parts.len()
        invariant
            pv == views(parts@),
            pv == split_on(v@, ','),
            i <= parts@.len(),
            out@.map_values(|k: Key| k@) == pv.subrange(0, i as int),
            forall|j: int| 0 <= j < i ==> valid_key(#[trigger] pv[j]),
        decreases parts.len() - i,
    {
        let ghost prev = out@;
        assert(pv[i as int] == parts@[i as int]@);
        let k = match Key::try_from(parts[i].as_str()) {
            Ok(x) => x,
            Err(e) => {
                assert(pv[i as int] == split_on(v@, ',')[i as int]);
                return Err(e);
            },
        };
        out.push(k);
        proof {
            assert(out@ == prev.push(k));
            assert(out@.map_values(|k: Key| k@) =~= prev.map_values(|k: Key| k@).push(k@));
            assert(out@.map_values(|k: Key| k@) =~= pv.subrange(0, i + 1));
        }
        i = i + 1;
    }
    proof {
        assert(pv.subrange(0, i as int) =~= pv);
    }
    Ok(out)
}

/// Whether `n` is a member name or path that fails validation in the
/// `key=value` piece `p`.
pub open spec fn piece_bad_name(p: Seq<char>, n: Seq<char>) -> bool {
    let i = first_index(p, '=');
    p.len() > 0 && p.contains('=') && match (
        decode(p.subrange(0, i)),
        decode(p.subrange(i + 1, p.len() as int)),
    ) {
        (Some(k), Some(v)) => bad_name(k, v, n),
        _ => false,
    }
}

/// Whether `e` is the error for the piece `p`: `InvalidMemberName` with a
/// name of `p` that fails validation, or `Query` where no name fails.
pub open spec fn piece_error(p: Seq<char>, e: Error) -> bool {
    match e {
        Error::InvalidMemberName(n) => piece_bad_name(p, n@),
        Error::Query(_) => forall|n: Seq<char>| !#[trigger] piece_bad_name(p, n),
        _ => false,
    }
}

/// Parses one sort piece: a path, with a leading `-` for descending order.
fn parse_sort(t: &str) -> (r: Result<Sort, Error>)
    ensures
        match r {
            Ok(s) => valid_path(sort_text(t@)) && s@ == sort_model(t@),
            Err(e) => !valid_path(sort_text(t@)) && (e matches Error::InvalidMemberName(n) && n@
                == sort_text(t@)),
        },
{
    let n = t.unicode_len();
    if n > 0 && t.get_char(0) == '-' {
        let rest = t.substring_char(1, n);
        assert(rest@ =~= t@.drop_first());
        let p = Path::try_from(rest)?;
        Ok(Sort::new(p, Direction::Desc))
    } else {
        let p = Path::try_from(t)?;
        Ok(Sort::new(p, Direction::Asc))
    }
}

/// Parses each piece of `v` between commas as a sort criterion.
fn parse_sorts(v: &str) -> (r: Result<Vec<Sort>, Error>)
    ensures
        match r {
            Ok(ss) => all_sorts(split_on(v@, ',')) && ss@.map_values(|s: Sort| s@) == split_on(
                v@,
                ',',
            ).map_values(|t: Seq<char>| sort_model(t)),
            Err(e) => !all_sorts(split_on(v@, ',')) && exists|i: int|
                0 <= i < split_on(v@, ',').len() && !valid_path(sort_text(split_on(v@, ',')[i]))
                    && (e matches Error::InvalidMemberName(n) && n@ == sort_text(
                    #[trigger] split_on(v@, ',')[i],
                )),
        },
{
    let parts = split_str(v, ',');
    let ghost pv = views(parts@);
    let mut out: Vec<Sort> = Vec::new();
    let mut i: usize = 0;
    while i < parts.len()
        invariant
            pv == views(parts@),
            pv == split_on(v@, ','),
            i <= parts@.len(),
            out@.map_values(|s: Sort| s@) == pv.subrange(0, i as int).map_values(
                |t: Seq<char>| sort_model(t),
            ),
            forall|j: int| 0 <= j < i ==> valid_path(sort_text(#[trigger] pv[j])),
        decreases parts.len() - i,
    {
        let ghost prev = out@;
        assert(pv[i as int] == parts@[i as int]@);
        let s = match parse_sort(parts[i].as_str()) {
            Ok(x) => x,
            Err(e) => {
                assert(pv[i as int] == split_on(v@, ',')[i as int]);
                return Err(e);
            },
        };
        out.push(s);
        proof {
            assert(out@ == prev.push(s));
            assert(out@.map_values(|s: Sort| s@) =~= prev.map_values(|s: Sort| s@).push(s@));
            assert(pv.subrange(0, i + 1) =~= pv.subrange(0, i as int).push(pv[i as int]));
            assert(out@.map_values(|s: Sort| s@) =~= pv.subrange(0, i + 1).map_values(
                |t: Seq<char>| sort_model(t),
            ));
        }
        i = i + 1;
    }
    proof {
        assert(pv.subrange(0, i as int) =~= pv);
    }
    Ok(out)
}

/// What stands between `prefix` and a closing `]` that ends `k`.
fn strip_brackets<'a>(k: &'a str, prefix: &str) -> (r: Option<&'a str>)
    ensures
        match r {
            Some(t) => bracketed(k@, prefix@) == Some(t@),
            None => bracketed(k@, prefix@) is None,
        },
{
    let n = k.unicode_len();
    let m = prefix.unicode_len();
    if n <= m {
        return None;
    }
    if k.get_char(n - 1) != ']' {
        return None;
    }
    let head = k.substring_char(0, m);
    if !str_eq(head, prefix) {
        return None;
    }
    Some(k.substring_char(m, n - 1))
}

fn is_incl_param(k: &str) -> (r: bool)
    ensures
        r == (k@ == incl_param()),
{
    let r = k.unicode_len() == 7 && k.get_char(0) == 'i' && k.get_char(1) == 'n' && k.get_char(2)
        == 'c' && k.get_char(3) == 'l' && k.get_char(4) == 'u' && k.get_char(5) == 'd'
        && k.get_char(6) == 'e';
    proof {
        if r {
            assert(k@ =~= incl_param());
        }
        if k@ == incl_param() {
            assert(k@[0] == 'i' && k@[1] == 'n' && k@[2] == 'c' && k@[3] == 'l');
            assert(k@[4] == 'u' && k@[5] == 'd' && k@[6] == 'e');
        }
    }
    r
}

impl Query {
    /// Applies the decoded parameter `k=v` to this query. On failure the
    /// query may be left partly changed.
    pub fn apply_param(&mut self, k: &str, v: &str) -> (r: Result<(), Error>)
        ensures
            match r {
                Ok(()) => apply_param(old(self)@, k@, v@) == Some(final(self)@),
                Err(e) => apply_param(old(self)@, k@, v@) is None && match e {
                    Error::InvalidMemberName(n) => bad_name(k@, v@, n@),
                    Error::Query(_) => forall|n: Seq<char>| !#[trigger] bad_name(k@, v@, n),
                    _ => false,
                },
            },
    {
        if is_incl_param(k) {
            match parse_paths(v) {
                Ok(ps) => {
                    self.includes.insert_all(ps);
                    Ok(())
                },
                Err(e) => Err(e),
            }
        } else if str_eq(k, "sort") {
            match parse_sorts(v) {
                Ok(ss) => {
                    self.sort.insert_all(ss);
                    Ok(())
                },
                Err(e) => Err(e),
            }
        } else if str_eq(k, "page[number]") {
            match parse_u64(v) {
                Some(n) => {
                    let size = match self.page {
                        Some(p) => p.size,
                        None => None,
                    };
                    self.page = Some(Page::new(n, size));
                    Ok(())
                },
                None => Err(Error::query(v)),
            }
        } else if str_eq(k, "page[size]") {
            match parse_u64(v) {
                Some(n) => {
                    let number = match self.page {
                        Some(p) => p.number,
                        None => 1,
                    };
                    self.page = Some(Page { number, size: Some(n) });
                    Ok(())
                },
                None => Err(Error::query(v)),
            }
        } else {
            match strip_brackets(k, "fields[") {
                Some(t) => {
                    let key = match Key::try_from(t) {
                        Ok(key) => key,
                        Err(e) => {
                            return Err(e);
                        },
                    };
                    match parse_keys(v) {
                        Ok(ks) => {
                            self.fields.merge(key, ks);
                            Ok(())
                        },
                        Err(e) => Err(e),
                    }
                },
                None => match strip_brackets(k, "filter[") {
                    Some(t) => match Path::try_from(t) {
                        Ok(p) => {
                            self.filter.insert(p, v.to_owned());
                            Ok(())
                        },
                        Err(e) => Err(e),
                    },
                    None => Err(Error::query(k)),
                },
            }
        }
    }
}

/// The position of the first `c` in `p`.
pub open spec fn first_index(p: Seq<char>, c: char) -> int {
    choose|i: int| 0 <= i < p.len() && p[i] == c && forall|j: int| 0 <= j < i ==> p[j] != c
}

proof fn lemma_first_index(p: Seq<char>, c: char, i: int)
    requires
        0 <= i < p.len(),
        p[i] == c,
        forall|j: int| 0 <= j < i ==> p[j] != c,
    ensures
        first_index(p, c) == i,
{
    let w = first_index(p, c);
    assert(0 <= w < p.len() && p[w] == c && forall|j: int| 0 <= j < w ==> p[j] != c);
}

/// The query `m` after one `key=value` piece of a query string; an empty
/// piece changes nothing.
pub open spec fn parse_param(m: QueryModel, p: Seq<char>) -> Option<QueryModel> {
    if p.len() == 0 {
        Some(m)
    } else if !p.contains('=') {
        None
    } else {
        let i = first_index(p, '=');
        match (decode(p.subrange(0, i)), decode(p.subrange(i + 1, p.len() as int))) {
            (Some(k), Some(v)) => apply_param(m, k, v),
            _ => None,
        }
    }
}

/// The query `m` after the pieces `ps`, in order.
pub open spec fn parse_params(m: QueryModel, ps: Seq<Seq<char>>) -> Option<QueryModel>
    decreases ps.len(),
{
    if ps.len() == 0 {
        Some(m)
    } else {
        match parse_param(m, ps[0]) {
            Some(m2) => parse_params(m2, ps.drop_first()),
            None => None,
        }
    }
}

/// The query that the query string `s` writes; `None` where it is malformed.
pub open spec fn parse_query(s: Seq<char>) -> Option<QueryModel> {
    parse_params(empty_model(), split_on(s, '&'))
}

impl Query {
    /// Applies one `key=value` piece of a query string.
    fn apply_piece(&mut self, p: &str) -> (r: Result<(), Error>)
        ensures
            match r {
                Ok(()) => parse_param(old(self)@, p@) == Some(final(self)@),
                Err(e) => parse_param(old(self)@, p@) is None && piece_error(p@, e),
            },
    {
        let n = p.unicode_len();
        if n == 0 {
            return Ok(());
        }
        let mut i: usize = 0;
        let mut found = false;
        while i < n && !found
            invariant
                n == p@.len(),
                i <= n,
                found ==> i < n && p@[i as int] == '=',
                forall|j: int| 0 <= j < i ==> p@[j] != '=',
            decreases n - i + if found { 0int } else { 1int },
        {
            if p.get_char(i) == '=' {
                found = true;
            } else {
                i = i + 1;
            }
        }
        if !found {
            return Err(Error::query(p));
        }
        proof {
            lemma_first_index(p@, '=', i as int);
            assert(p@.contains('='));
        }
        let k = match percent_decode(p.substring_char(0, i)) {
            Some(k) => k,
            None => {
                return Err(Error::query(p));
            },
        };
        let v = match percent_decode(p.substring_char(i + 1, n)) {
            Some(v) => v,
            None => {
                return Err(Error::query(p));
            },
        };
        self.apply_param(k.as_str(), v.as_str())
    }
}

/// Parses a query string.
pub fn from_str(s: &str) -> (r: Result<Query, Error>)
    ensures
        match r {
            Ok(q) => parse_query(s@) == Some(q@),
            Err(e) => parse_query(s@) is None && exists|i: int|
                0 <= i < split_on(s@, '&').len() && piece_error(#[trigger] split_on(s@, '&')[i], e),
        },
{
    let pieces = split_str(s, '&');
    let ghost pv = views(pieces@);
    let mut q = Query::new();
    let mut i: usize = 0;
    assert(pv.subrange(0, pv.len() as int) =~= pv);
    while i < pieces.len()
        invariant
            pv == views(pieces@),
            pv == split_on(s@, '&'),
            i <= pieces@.len(),
            parse_query(s@) == parse_params(q@, pv.subrange(i as int, pv.len() as int)),
        decreases pieces.len() - i,
    {
        proof {
            let rest = pv.subrange(i as int, pv.len() as int);
            assert(rest[0] == pieces@[i as int]@);
            assert(rest.drop_first() =~= pv.subrange(i + 1, pv.len() as int));
        }
        match q.apply_piece(pieces[i].as_str()) {
            Ok(()) => {},
            Err(e) => {
                assert(pv[i as int] == pieces@[i as int]@);
                assert(piece_error(split_on(s@, '&')[i as int], e));
                return Err(e);
            },
        }
        i = i + 1;
    }
    Ok(q)
}

/// The upper-case hexadecimal digit for `n` below 16.
pub open spec fn hex_char(n: int) -> char {
    if n < 10 {
        ((n + 48) as u8) as char
    } else {
        ((n + 55) as u8) as char
    }
}

/// The bytes `b`, each written as a percent escape.
pub open spec fn hex_bytes(b: Seq<u8>) -> Seq<char>
    decreases b.len(),
{
    if b.len() == 0 {
        Seq::empty()
    } else {
        hex_bytes(b.drop_last()) + seq!['%', hex_char(b.last() as int / 16), hex_char(b.last() as int % 16)]
    }
}

/// Whether `c` is written as escaped UTF-8 bytes: the characters that the
/// grammar reserves, and every character outside ASCII.
pub open spec fn needs_escape(c: char) -> bool {
    c == '%' || c == '&' || c == '+' || c == ',' || c == '=' || c as u32 >= 128
}

/// The escaped form of one character in a query string.
pub open spec fn escape(c: char) -> Seq<char> {
    if c == ' ' {
        seq!['+']
    } else if needs_escape(c) {
        hex_bytes(encode_utf8(seq![c]))
    } else {
        seq![c]
    }
}

/// The escaped form of `s`.
pub open spec fn encode(s: Seq<char>) -> Seq<char>
    decreases s.len(),
{
    if s.len() == 0 {
        Seq::empty()
    } else {
        encode(s.drop_last()) + escape(s.last())
    }
}

fn hex_char_of(n: u8) -> (r: char)
    requires
        n < 16,
    ensures
        r == hex_char(n as int),
{
    if n < 10 {
        (n + 48) as char
    } else {
        (n + 55) as char
    }
}

/// Appends each byte of `b` as a percent escape.
fn push_hex_bytes(out: &mut String, b: &Vec<u8>)
    ensures
        final(out)@ == old(out)@ + hex_bytes(b@),
{
    let mut i: usize = 0;
    while i < b.len()
        invariant
            i <= b@.len(),
            out@ == old(out)@ + hex_bytes(b@.subrange(0, i as int)),
        decreases b@.len() - i,
    {
        let ghost before = out@;
        let x = b[i];
        push_char(out, '%');
        push_char(out, hex_char_of(x / 16));
        push_char(out, hex_char_of(x % 16));
        proof {
            let sub = b@.subrange(0, i + 1);
            assert(sub.drop_last() =~= b@.subrange(0, i as int));
            assert(sub.last() == x);
            assert(out@ =~= old(out)@ + hex_bytes(sub));
        }
        i = i + 1;
    }
    assert(b@.subrange(0, i as int) =~= b@);
}

/// Appends the escaped form of `s`.
fn push_encoded(out: &mut String, s: &str)
    ensures
        final(out)@ == old(out)@ + encode(s@),
{
    let n = s.unicode_len();
    let mut i: usize = 0;
    while i < n
        invariant
            n == s@.len(),
            i <= n,
            out@ == old(out)@ + encode(s@.subrange(0, i as int)),
        decreases n - i,
    {
        let ghost before = out@;
        let c = s.get_char(i);
        if c == ' ' {
            push_char(out, '+');
        } else if c == '%' || c == '&' || c == '+' || c == ',' || c == '=' || c as u32 >= 128 {
            let mut bytes: Vec<u8> = Vec::new();
            push_utf8(&mut bytes, c);
            assert(bytes@ =~= encode_utf8(seq![c]));
            push_hex_bytes(out, &bytes);
        } else {
            push_char(out, c);
        }
        proof {
            assert(out@ =~= before + escape(c));
            assert(s@.subrange(0, i + 1).drop_last() =~= s@.subrange(0, i as int));
        }
        i = i + 1;
    }
    assert(s@.subrange(0, n as int) =~= s@);
}

/// The piece of a query string for the fieldset of `t`.
pub open spec fn fields_piece(t: Seq<char>, ks: Seq<Seq<char>>) -> Seq<char> {
    "fields["@ + encode(t) + "]="@ + encode(join_on(ks, ','))
}

/// The pieces for the non-empty fieldsets of `f`, in order.
pub open spec fn fields_pieces(f: Seq<(Seq<char>, Seq<Seq<char>>)>) -> Seq<Seq<char>>
    decreases f.len(),
{
    if f.len() == 0 {
        Seq::empty()
    } else {
        let rest = fields_pieces(f.drop_last());
        if f.last().1.len() == 0 {
            rest
        } else {
            rest.push(fields_piece(f.last().0, f.last().1))
        }
    }
}

/// The piece of a query string for the filter on `p`.
pub open spec fn filter_piece(p: Seq<Seq<char>>, v: Seq<char>) -> Seq<char> {
    "filter["@ + encode(join_on(p, '.')) + "]="@ + encode(v)
}

/// The pieces for the filters of `f`, in order.
pub open spec fn filter_pieces(f: Seq<(Seq<Seq<char>>, Seq<char>)>) -> Seq<Seq<char>>
    decreases f.len(),
{
    if f.len() == 0 {
        Seq::empty()
    } else {
        filter_pieces(f.drop_last()).push(filter_piece(f.last().0, f.last().1))
    }
}

/// The dotted texts of paths.
pub open spec fn path_texts(ps: Seq<Seq<Seq<char>>>) -> Seq<Seq<char>> {
    ps.map_values(|p: Seq<Seq<char>>| join_on(p, '.'))
}

/// The text of one sort criterion.
pub open spec fn sort_piece_text(s: (Seq<Seq<char>>, Direction)) -> Seq<char> {
    match s.1 {
        Direction::Desc => seq!['-'] + join_on(s.0, '.'),
        Direction::Asc => join_on(s.0, '.'),
    }
}

/// The piece `name=` followed by the escaped comma-joined `items`, or none
/// where there are no items.
pub open spec fn list_pieces(name: Seq<char>, items: Seq<Seq<char>>) -> Seq<Seq<char>> {
    if items.len() == 0 {
        Seq::empty()
    } else {
        seq![name + seq!['='] + encode(join_on(items, ','))]
    }
}

/// The pieces for a page: its number where it is not `1`, its size where
/// there is one.
pub open spec fn page_pieces(page: Option<Page>) -> Seq<Seq<char>> {
    match page {
        None => Seq::empty(),
        Some(p) => {
            let number = if p.number == 1 {
                Seq::<Seq<char>>::empty()
            } else {
                seq!["page[number]="@ + decimal(p.number as nat)]
            };
            match p.size {
                None => number,
                Some(n) => number.push("page[size]="@ + decimal(n as nat)),
            }
        },
    }
}

/// The canonical query string of `m`.
pub open spec fn query_text(m: QueryModel) -> Seq<char> {
    join_on(
        fields_pieces(m.fields) + filter_pieces(m.filter) + list_pieces(
            incl_param(),
            path_texts(m.includes),
        ) + page_pieces(m.page) + list_pieces(
            "sort"@,
            m.sort.map_values(|s: (Seq<Seq<char>>, Direction)| sort_piece_text(s)),
        ),
        '&',
    )
}

/// The member names of `set`, comma-joined.
fn join_keys(set: &OrderedSet<Key>) -> (r: String)
    ensures
        r@ == join_on(set@, ','),
{
    let mut texts: Vec<String> = Vec::new();
    let mut i: usize = 0;
    while i < set.len()
        invariant
            i <= set@.len(),
            views(texts@) == set@.subrange(0, i as int),
        decreases set@.len() - i,
    {
        let ghost prev = texts@;
        let t = set.get(i).as_str().to_owned();
        texts.push(t);
        assert(views(texts@) =~= views(prev).push(t@));
        assert(set@.subrange(0, i + 1) =~= set@.subrange(0, i as int).push(set@[i as int]));
        i = i + 1;
    }
    assert(set@.subrange(0, i as int) =~= set@);
    join_strs(&texts, ',')
}

/// The pieces for the non-empty fieldsets of `fields`.
fn fields_texts(fields: &OrderedMap<Key, OrderedSet<Key>>) -> (r: Vec<String>)
    ensures
        views(r@) == fields_pieces(fields@),
{
    let mut out: Vec<String> = Vec::new();
    let mut i: usize = 0;
    while i < fields.len()
        invariant
            i <= fields@.len(),
            views(out@) == fields_pieces(fields@.subrange(0, i as int)),
        decreases fields@.len() - i,
    {
        let ghost prev = out@;
        proof {
            assert(fields@.subrange(0, i + 1).drop_last() =~= fields@.subrange(0, i as int));
        }
        let set = fields.value(i);
        if !set.is_empty() {
            let mut piece = String::new();
            piece.append("fields[");
            push_encoded(&mut piece, fields.key(i).as_str());
            piece.append("]=");
            let joined = join_keys(set);
            push_encoded(&mut piece, joined.as_str());
            out.push(piece);
            assert(views(out@) =~= views(prev).push(piece@));
        }
        i = i + 1;
    }
    assert(fields@.subrange(0, i as int) =~= fields@);
    out
}

/// The pieces for the filters of `filter`.
fn filter_texts(filter: &OrderedMap<Path, String>) -> (r: Vec<String>)
    ensures
        views(r@) == filter_pieces(filter@),
{
    let mut out: Vec<String> = Vec::new();
    let mut i: usize = 0;
    while i < filter.len()
        invariant
            i <= filter@.len(),
            views(out@) == filter_pieces(filter@.subrange(0, i as int)),
        decreases filter@.len() - i,
    {
        let ghost prev = out@;
        proof {
            assert(filter@.subrange(0, i + 1).drop_last() =~= filter@.subrange(0, i as int));
        }
        let mut piece = String::new();
        piece.append("filter[");
        let path = filter.key(i).to_text();
        push_encoded(&mut piece, path.as_str());
        piece.append("]=");
        push_encoded(&mut piece, filter.value(i).as_str());
        out.push(piece);
        assert(views(out@) =~= views(prev).push(piece@));
        i = i + 1;
    }
    assert(filter@.subrange(0, i as int) =~= filter@);
    out
}

/// The piece listing the embedded paths, if any.
fn incl_texts(paths: &OrderedSet<Path>) -> (r: Vec<String>)
    ensures
        views(r@) == list_pieces(incl_param(), path_texts(paths@)),
{
    let mut out: Vec<String> = Vec::new();
    if paths.is_empty() {
        assert(views(out@) =~= Seq::<Seq<char>>::empty());
        return out;
    }
    let mut texts: Vec<String> = Vec::new();
    let mut i: usize = 0;
    while i < paths.len()
        invariant
            i <= paths@.len(),
            views(texts@) == path_texts(paths@.subrange(0, i as int)),
        decreases paths@.len() - i,
    {
        let ghost prev = texts@;
        let t = paths.get(i).to_text();
        texts.push(t);
        assert(views(texts@) =~= views(prev).push(t@));
        assert(path_texts(paths@.subrange(0, i + 1)) =~= path_texts(
            paths@.subrange(0, i as int),
        ).push(join_on(paths@[i as int], '.')));
        i = i + 1;
    }
    assert(paths@.subrange(0, i as int) =~= paths@);
    let joined = join_strs(&texts, ',');
    let mut piece = String::new();
    push_char(&mut piece, 'i');
    push_char(&mut piece, 'n');
    push_char(&mut piece, 'c');
    push_char(&mut piece, 'l');
    push_char(&mut piece, 'u');
    push_char(&mut piece, 'd');
    push_char(&mut piece, 'e');
    push_char(&mut piece, '=');
    push_encoded(&mut piece, joined.as_str());
    assert(piece@ =~= incl_param() + seq!['='] + encode(join_on(path_texts(paths@), ',')));
    out.push(piece);
    assert(views(out@) =~= seq![piece@]);
    out
}

/// The piece listing the sort criteria, if any.
fn sort_texts(sort: &OrderedSet<Sort>) -> (r: Vec<String>)
    ensures
        views(r@) == list_pieces(
            "sort"@,
            sort@.map_values(|s: (Seq<Seq<char>>, Direction)| sort_piece_text(s)),
        ),
{
    let ghost all = sort@.map_values(|s: (Seq<Seq<char>>, Direction)| sort_piece_text(s));
    let mut out: Vec<String> = Vec::new();
    if sort.is_empty() {
        assert(views(out@) =~= Seq::<Seq<char>>::empty());
        return out;
    }
    let mut texts: Vec<String> = Vec::new();
    let mut i: usize = 0;
    while i < sort.len()
        invariant
            i <= sort@.len(),
            all == sort@.map_values(|s: (Seq<Seq<char>>, Direction)| sort_piece_text(s)),
            views(texts@) == all.subrange(0, i as int),
        decreases sort@.len() - i,
    {
        let ghost prev = texts@;
        let s = sort.get(i);
        let mut t = String::new();
        if s.is_desc() {
            push_char(&mut t, '-');
        }
        let p = s.field.to_text();
        t.append(p.as_str());
        assert(t@ == sort_piece_text(s@));
        texts.push(t);
        assert(views(texts@) =~= views(prev).push(t@));
        assert(all.subrange(0, i + 1) =~= all.subrange(0, i as int).push(all[i as int]));
        i = i + 1;
    }
    assert(all.subrange(0, i as int) =~= all);
    let joined = join_strs(&texts, ',');
    let mut piece = String::new();
    piece.append("sort=");
    push_encoded(&mut piece, joined.as_str());
    proof {
        reveal_strlit("sort=");
        reveal_strlit("sort");
        assert(piece@ =~= "sort"@ + seq!['='] + encode(join_on(all, ',')));
    }
    out.push(piece);
    assert(views(out@) =~= seq![piece@]);
    out
}

/// The pieces for a page.
fn page_texts(page: Option<Page>) -> (r: Vec<String>)
    ensures
        views(r@) == page_pieces(page),
{
    let mut out: Vec<String> = Vec::new();
    match page {
        None => {
            assert(views(out@) =~= Seq::<Seq<char>>::empty());
        },
        Some(p) => {
            if p.number != 1 {
                let mut piece = String::new();
                piece.append("page[number]=");
                push_decimal(&mut piece, p.number);
                out.push(piece);
            }
            let ghost numbers = views(out@);
            match p.size {
                None => {},
                Some(n) => {
                    let mut piece = String::new();
                    piece.append("page[size]=");
                    push_decimal(&mut piece, n);
                    out.push(piece);
                    assert(views(out@) =~= numbers.push(piece@));
                },
            }
            assert(views(out@) =~= page_pieces(page));
        },
    }
    out
}

/// Appends the pieces `more`.
fn push_all(pieces: &mut Vec<String>, more: Vec<String>)
    ensures
        views(final(pieces)@) == views(old(pieces)@) + views(more@),
{
    let mut more = more;
    let ghost start = old(pieces)@;
    let ghost m = more@;
    pieces.append(&mut more);
    assert(pieces@ == start + m);
    assert(views(pieces@) =~= views(start) + views(m));
}

/// Writes `q` as its canonical query string: defaults are left out, and
/// every collection keeps its order.
pub fn to_string(q: &Query) -> (r: String)
    ensures
        r@ == query_text(q@),
{
    let mut pieces = fields_texts(&q.fields);
    push_all(&mut pieces, filter_texts(&q.filter));
    push_all(&mut pieces, incl_texts(&q.includes));
    push_all(&mut pieces, page_texts(q.page));
    push_all(&mut pieces, sort_texts(&q.sort));
    join_strs(&pieces, '&')
}

/// Writes `q` as the UTF-8 bytes of its canonical query string.
pub fn to_vec(q: &Query) -> (r: Vec<u8>)
    ensures
        r@ == encode_utf8(query_text(q@)),
{
    let s = to_string(q);
    s.as_str().as_bytes_vec()
}

/// Relies on `std::str::from_utf8`: the text that valid UTF-8 bytes encode.
#[verifier::external_body]
fn utf8_text(b: &[u8]) -> (r: Option<&str>)
    ensures
        match r {
            Some(s) => valid_utf8(b@) && s@ == decode_utf8(b@),
            None => !valid_utf8(b@),
        },
{
    std::str::from_utf8(b).ok()
}

/// Parses a query string given as UTF-8 bytes.
pub fn from_slice(b: &[u8]) -> (r: Result<Query, Error>)
    ensures
        match r {
            Ok(q) => valid_utf8(b@) && parse_query(decode_utf8(b@)) == Some(q@),
            Err(e) => (!valid_utf8(b@) && e matches Error::Utf8(_)) || (valid_utf8(b@)
                && parse_query(decode_utf8(b@)) is None && exists|i: int|
                0 <= i < split_on(decode_utf8(b@), '&').len() && piece_error(
                #[trigger] split_on(decode_utf8(b@), '&')[i],
                e,
            )),
        },
{
    match utf8_text(b) {
        Some(s) => from_str(s),
        None => Err(Error::Utf8("invalid UTF-8".to_owned())),
    }
}

/// `p` put in front of the text that `o` holds, if any.
pub open spec fn prefixed(o: Option<Seq<char>>, p: Seq<char>) -> Option<Seq<char>> {
    match o {
        Some(t) => Some(p + t),
        None => None,
    }
}

proof fn lemma_decode_shift(x: Seq<char>, y: Seq<char>, i: int)
    requires
        0 <= i,
    ensures
        decode_bytes_from(x + y, x.len() + i) == decode_bytes_from(y, i),
    decreases y.len() - i,
{
    let z = x + y;
    let j = x.len() + i;
    if i < y.len() {
        assert(z[j] == y[i]);
        if y[i] == '%' {
            if i + 2 < y.len() {
                assert(z[j + 1] == y[i + 1] && z[j + 2] == y[i + 2]);
                lemma_decode_shift(x, y, i + 3);
            }
        } else {
            lemma_decode_shift(x, y, i + 1);
        }
    }
}

/// Text whose escapes are complete decodes the same before anything else.
pub proof fn lemma_decode_concat(x: Seq<char>, y: Seq<char>, i: int)
    requires
        0 <= i <= x.len(),
        decode_bytes_from(x, i) is Some,
    ensures
        decode_bytes_from(x + y, i) == match decode_bytes(y) {
            Some(t) => Some(decode_bytes_from(x, i)->0 + t),
            None => None,
        },
    decreases x.len() - i,
{
    let z = x + y;
    if i == x.len() {
        lemma_decode_shift(x, y, 0);
        match decode_bytes(y) {
            Some(t) => {
                assert(Seq::<u8>::empty() + t =~= t);
            },
            None => {},
        }
    } else {
        assert(z[i] == x[i]);
        if x[i] == '%' {
            assert(z[i + 1] == x[i + 1] && z[i + 2] == x[i + 2]);
            lemma_decode_concat(x, y, i + 3);
            match decode_bytes(y) {
                Some(t) => {
                    let b = escaped(x[i + 1], x[i + 2])->0;
                    assert(seq![b] + (decode_bytes_from(x, i + 3)->0 + t) =~= (seq![b]
                        + decode_bytes_from(x, i + 3)->0) + t);
                },
                None => {},
            }
        } else {
            lemma_decode_concat(x, y, i + 1);
            match decode_bytes(y) {
                Some(t) => {
                    let c = if x[i] == '+' {
                        ' '
                    } else {
                        x[i]
                    };
                    assert(encode_utf8(seq![c]) + (decode_bytes_from(x, i + 1)->0 + t) =~= (
                    encode_utf8(seq![c]) + decode_bytes_from(x, i + 1)->0) + t);
                },
                None => {},
            }
        }
    }
}

/// The UTF-8 encoding of two texts one after the other is the two encodings
/// one after the other.
pub proof fn lemma_utf8_concat(a: Seq<char>, b: Seq<char>)
    ensures
        encode_utf8(a + b) == encode_utf8(a) + encode_utf8(b),
    decreases a.len(),
{
    if a.len() == 0 {
        assert(a + b =~= b);
        assert(Seq::<u8>::empty() + encode_utf8(b) =~= encode_utf8(b));
    } else {
        assert((a + b)[0] == a[0]);
        assert((a + b).drop_first() =~= a.drop_first() + b);
        lemma_utf8_concat(a.drop_first(), b);
        assert(encode_scalar(a[0] as u32) + (encode_utf8(a.drop_first()) + encode_utf8(b)) =~= (
        encode_scalar(a[0] as u32) + encode_utf8(a.drop_first())) + encode_utf8(b));
    }
}

pub proof fn lemma_hex_char(n: int)
    requires
        0 <= n < 16,
    ensures
        is_hex(hex_char(n)),
        hex_value(hex_char(n)) == n,
        hex_char(n) != '&' && hex_char(n) != '=' && hex_char(n) != '%' && hex_char(n) != '+',
{
}

proof fn lemma_hex_bytes(b: Seq<u8>)
    ensures
        decode_bytes(hex_bytes(b)) == Some(b),
    decreases b.len(),
{
    if b.len() == 0 {
    } else {
        let init = b.drop_last();
        let x = b.last();
        lemma_hex_bytes(init);
        let tri = seq!['%', hex_char(x as int / 16), hex_char(x as int % 16)];
        lemma_hex_char(x as int / 16);
        lemma_hex_char(x as int % 16);
        assert(x as int == (x as int / 16) * 16 + x as int % 16);
        assert(escaped(tri[1], tri[2]) == Some(x));
        assert(decode_bytes_from(tri, 3) == Some(Seq::<u8>::empty()));
        assert(decode_bytes(tri) == Some(seq![x] + Seq::<u8>::empty()));
        assert(seq![x] + Seq::<u8>::empty() =~= seq![x]);
        lemma_decode_concat(hex_bytes(init), tri, 0);
        assert(init + seq![x] =~= b);
    }
}

proof fn lemma_escape_bytes(c: char)
    ensures
        decode_bytes(escape(c)) == Some(encode_utf8(seq![c])),
{
    if c == ' ' {
        assert(decode_bytes_from(seq!['+'], 1) == Some(Seq::<u8>::empty()));
        assert(encode_utf8(seq![c]) + Seq::<u8>::empty() =~= encode_utf8(seq![c]));
    } else if needs_escape(c) {
        lemma_hex_bytes(encode_utf8(seq![c]));
    } else {
        assert(decode_bytes_from(seq![c], 1) == Some(Seq::<u8>::empty()));
        assert(encode_utf8(seq![c]) + Seq::<u8>::empty() =~= encode_utf8(seq![c]));
    }
}

/// The bytes that escaped text stands for are the UTF-8 encoding of the text.
pub proof fn lemma_encode_bytes(s: Seq<char>)
    ensures
        decode_bytes(encode(s)) == Some(encode_utf8(s)),
    decreases s.len(),
{
    if s.len() > 0 {
        let init = s.drop_last();
        let l = s.last();
        lemma_encode_bytes(init);
        lemma_escape_bytes(l);
        lemma_decode_concat(encode(init), escape(l), 0);
        lemma_utf8_concat(init, seq![l]);
        assert(init + seq![l] =~= s);
    } else {
        assert(encode_utf8(s) =~= Seq::<u8>::empty());
    }
}

/// Text without `%` or `+` stands for its own UTF-8 encoding.
pub proof fn lemma_plain_bytes(p: Seq<char>)
    requires
        forall|i: int| 0 <= i < p.len() ==> #[trigger] p[i] != '%' && p[i] != '+',
    ensures
        decode_bytes(p) == Some(encode_utf8(p)),
    decreases p.len(),
{
    if p.len() > 0 {
        let init = p.drop_last();
        let l = p.last();
        lemma_plain_bytes(init);
        assert(decode_bytes_from(seq![l], 1) == Some(Seq::<u8>::empty()));
        assert(encode_utf8(seq![l]) + Seq::<u8>::empty() =~= encode_utf8(seq![l]));
        assert(decode_bytes(seq![l]) == Some(encode_utf8(seq![l])));
        lemma_decode_concat(init, seq![l], 0);
        lemma_utf8_concat(init, seq![l]);
        assert(init + seq![l] =~= p);
    } else {
        assert(encode_utf8(p) =~= Seq::<u8>::empty());
    }
}

/// Text that stands for the UTF-8 encoding of `t` decodes to `t`.
pub proof fn lemma_decode_text(x: Seq<char>, t: Seq<char>)
    requires
        decode_bytes(x) == Some(encode_utf8(t)),
    ensures
        decode(x) == Some(t),
{
    vstd::utf8::encode_utf8_valid_utf8(t);
    vstd::utf8::encode_utf8_decode_utf8(t);
}

/// Escaping a text and decoding it again gives the text back.
pub proof fn lemma_decode_encode(s: Seq<char>)
    ensures
        decode(encode(s)) == Some(s),
{
    lemma_encode_bytes(s);
    lemma_decode_text(encode(s), s);
}

} // verus!
