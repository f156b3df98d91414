//! The round-trip law of the query-string language.

use crate::collections::{has_key, key_index, map_get, map_put, seq_insert, seq_insert_all};
use crate::fields::{valid_key, valid_path};
use crate::page::{Direction, Page};
use crate::query::{
    all_keys, all_paths, all_sorts, sort_model, sort_text,
    apply_param, bracketed, decode, decode_bytes, empty_model, encode, escape, fields_piece,
    fields_pieces, filter_piece, filter_pieces, incl_param, hex_bytes, hex_char, lemma_decode_concat, lemma_decode_text, lemma_encode_bytes,
    lemma_hex_char, lemma_plain_bytes, lemma_utf8_concat, list_pieces, page_pieces, parse_param, parse_params, parse_query,
    path_texts, prefixed, query_text, sort_piece_text, QueryModel,
};
use crate::resource::{
    at_positions, found, hop, ident, included_positions, lemma_position_bounds, position_of, walk,
    Object,
};
use crate::text::{
    decimal, digits_value, join_on, lemma_decimal_round_trip, lemma_split_join,
    lemma_split_on_nonempty, split_on,
};
use vstd::prelude::*;

verus! {

/// Whether `c` occurs nowhere in `s`.
pub open spec fn lacks(s: Seq<char>, c: char) -> bool {
    forall|i: int| 0 <= i < s.len() ==> #[trigger] s[i] != c
}

proof fn lemma_hex_lacks(b: Seq<u8>)
    ensures
        lacks(hex_bytes(b), '&'),
        lacks(hex_bytes(b), '='),
    decreases b.len(),
{
    if b.len() > 0 {
        lemma_hex_lacks(b.drop_last());
        let a = hex_bytes(b.drop_last());
        let x = b.last();
        let e = seq!['%', hex_char(x as int / 16), hex_char(x as int % 16)];
        lemma_hex_char(x as int / 16);
        lemma_hex_char(x as int % 16);
        assert forall|i: int| 0 <= i < hex_bytes(b).len() implies #[trigger] hex_bytes(b)[i] != '&'
            && hex_bytes(b)[i] != '=' by {
            if i < a.len() {
                assert(hex_bytes(b)[i] == a[i]);
            } else {
                assert(hex_bytes(b)[i] == e[i - a.len()]);
            }
        };
    }
}

proof fn lemma_encode_lacks(s: Seq<char>)
    ensures
        lacks(encode(s), '&'),
        lacks(encode(s), '='),
    decreases s.len(),
{
    if s.len() > 0 {
        lemma_encode_lacks(s.drop_last());
        let a = encode(s.drop_last());
        let e = escape(s.last());
        lemma_hex_lacks(vstd::utf8::encode_utf8(seq![s.last()]));
        assert forall|i: int| 0 <= i < encode(s).len() implies #[trigger] encode(s)[i] != '&'
            && encode(s)[i] != '=' by {
            if i < a.len() {
                assert(encode(s)[i] == a[i]);
            } else {
                assert(encode(s)[i] == e[i - a.len()]);
            }
        };
    }
}

/// Text without escapes or `+` decodes to itself.
proof fn lemma_decode_plain_text(p: Seq<char>)
    requires
        lacks(p, '%'),
        lacks(p, '+'),
    ensures
        decode(p) == Some(p),
{
    lemma_plain_bytes(p);
    lemma_decode_text(p, p);
}

proof fn lemma_params_concat(m: QueryModel, a: Seq<Seq<char>>, b: Seq<Seq<char>>)
    ensures
        parse_params(m, a + b) == match parse_params(m, a) {
            Some(m2) => parse_params(m2, b),
            None => None,
        },
    decreases a.len(),
{
    if a.len() == 0 {
        assert(a + b =~= b);
    } else {
        assert((a + b)[0] == a[0]);
        assert((a + b).drop_first() =~= a.drop_first() + b);
        match parse_param(m, a[0]) {
            Some(m2) => {
                lemma_params_concat(m2, a.drop_first(), b);
            },
            None => {},
        }
    }
}

proof fn lemma_params_one(m: QueryModel, p: Seq<char>)
    ensures
        parse_params(m, seq![p]) == parse_param(m, p),
{
    assert(seq![p].drop_first() =~= Seq::<Seq<char>>::empty());
    assert(seq![p][0] == p);
    match parse_param(m, p) {
        Some(m2) => {
            assert(parse_params(m2, Seq::<Seq<char>>::empty()) == Some(m2));
        },
        None => {},
    }
}

/// One piece `ke=ve` whose key part holds no `=` is read as the decoded key
/// and value.
proof fn lemma_piece(m: QueryModel, ke: Seq<char>, ve: Seq<char>, k: Seq<char>, v: Seq<char>)
    requires
        lacks(ke, '='),
        decode(ke) == Some(k),
        decode(ve) == Some(v),
    ensures
        parse_param(m, ke + seq!['='] + ve) == apply_param(m, k, v),
{
    let p = ke + seq!['='] + ve;
    let i = ke.len() as int;
    assert(p[i] == '=');
    assert forall|j: int| 0 <= j < i implies p[j] != '=' by {
        assert(p[j] == ke[j]);
    };
    let w = crate::query::first_index(p, '=');
    assert(0 <= i < p.len() && p[i] == '=' && forall|j: int| 0 <= j < i ==> p[j] != '=');
    assert(0 <= w < p.len() && p[w] == '=' && forall|j: int| 0 <= j < w ==> p[j] != '=');
    if w < i {
        assert(p[w] != '=');
    }
    if i < w {
        assert(p[i] != '=');
    }
    assert(p.subrange(0, i) =~= ke);
    assert(p.subrange(i + 1, p.len() as int) =~= ve);
    assert(p.contains('='));
    assert(p.len() > 0);
}

/// Whether no item occurs twice.
pub open spec fn no_dup<A>(s: Seq<A>) -> bool {
    forall|a: int, b: int| 0 <= a < b < s.len() ==> s[a] != s[b]
}

proof fn lemma_insert_all_fresh<A>(s: Seq<A>, xs: Seq<A>)
    requires
        no_dup(s + xs),
    ensures
        seq_insert_all(s, xs) == s + xs,
    decreases xs.len(),
{
    if xs.len() > 0 {
        let x = xs[0];
        assert(!s.contains(x)) by {
            if s.contains(x) {
                let j = choose|j: int| 0 <= j < s.len() && s[j] == x;
                assert((s + xs)[j] == (s + xs)[s.len() as int]);
            }
        };
        assert(s.push(x) + xs.drop_first() =~= s + xs);
        lemma_insert_all_fresh(s.push(x), xs.drop_first());
    } else {
        assert(s + xs =~= s);
    }
}

/// Whether `p` is a path: non-empty, each segment a member name.
pub open spec fn wf_path(p: Seq<Seq<char>>) -> bool {
    p.len() > 0 && forall|i: int| 0 <= i < p.len() ==> valid_key(#[trigger] p[i])
}

proof fn lemma_key_lacks(k: Seq<char>, c: char)
    requires
        valid_key(k),
        c == ',' || c == '.' || c == '+' || c == '[' || c == ']',
    ensures
        lacks(k, c),
{
}

/// A path written with dots holds no comma and reads back as the path.
proof fn lemma_path_text(p: Seq<Seq<char>>)
    requires
        wf_path(p),
    ensures
        split_on(join_on(p, '.'), '.') == p,
        valid_path(join_on(p, '.')),
        lacks(join_on(p, '.'), ','),
        join_on(p, '.').len() > 0,
        join_on(p, '.')[0] == p[0][0],
{
    assert forall|i: int| 0 <= i < p.len() implies !(#[trigger] p[i]).contains('.') by {
        lemma_key_lacks(p[i], '.');
        if p[i].contains('.') {
            let j = choose|j: int| 0 <= j < p[i].len() && p[i][j] == '.';
        }
    };
    lemma_split_join(p, '.');
    lemma_join_lacks(p, '.', ',');
    lemma_join_first(p, '.');
}

proof fn lemma_join_lacks(p: Seq<Seq<char>>, sep: char, c: char)
    requires
        sep != c,
        forall|i: int| 0 <= i < p.len() ==> lacks(#[trigger] p[i], c) || valid_key(p[i]),
        c == ',' || c == '&' || c == '=',
        forall|i: int| 0 <= i < p.len() ==> lacks(#[trigger] p[i], c),
    ensures
        lacks(join_on(p, sep), c),
    decreases p.len(),
{
    if p.len() > 1 {
        lemma_join_lacks(p.drop_last(), sep, c);
        let a = join_on(p.drop_last(), sep).push(sep);
        assert forall|i: int| 0 <= i < join_on(p, sep).len() implies #[trigger] join_on(p, sep)[i]
            != c by {
            if i < a.len() - 1 {
                assert(join_on(p, sep)[i] == join_on(p.drop_last(), sep)[i]);
            } else if i == a.len() - 1 {
            } else {
                assert(join_on(p, sep)[i] == p.last()[i - a.len()]);
            }
        };
    }
}

proof fn lemma_join_first(p: Seq<Seq<char>>, sep: char)
    requires
        p.len() > 0,
        p[0].len() > 0,
    ensures
        join_on(p, sep).len() > 0,
        join_on(p, sep)[0] == p[0][0],
    decreases p.len(),
{
    if p.len() > 1 {
        assert(p.drop_last()[0] == p[0]);
        lemma_join_first(p.drop_last(), sep);
    }
}

proof fn lemma_lacks_contains(s: Seq<char>, c: char)
    requires
        lacks(s, c),
    ensures
        !s.contains(c),
{
    if s.contains(c) {
        let j = choose|j: int| 0 <= j < s.len() && s[j] == c;
    }
}

/// The member names joined with commas read back as the names.
proof fn lemma_keys_text(ks: Seq<Seq<char>>)
    requires
        ks.len() > 0,
        forall|j: int| 0 <= j < ks.len() ==> valid_key(#[trigger] ks[j]),
    ensures
        split_on(join_on(ks, ','), ',') == ks,
{
    assert forall|j: int| 0 <= j < ks.len() implies !(#[trigger] ks[j]).contains(',') by {
        lemma_key_lacks(ks[j], ',');
        lemma_lacks_contains(ks[j], ',');
    };
    lemma_split_join(ks, ',');
}

/// Decoding `lit`, then escaped `t`, then `]` gives `lit`, `t` and `]`.
proof fn lemma_decode_bracketed(lit: Seq<char>, t: Seq<char>)
    requires
        lacks(lit, '%'),
        lacks(lit, '+'),
    ensures
        decode(lit + encode(t) + seq![']']) == Some(lit + t + seq![']']),
{
    let close = seq![']'];
    lemma_plain_bytes(lit);
    lemma_plain_bytes(close);
    lemma_encode_bytes(t);
    lemma_decode_concat(lit, encode(t), 0);
    lemma_decode_concat(lit + encode(t), close, 0);
    lemma_utf8_concat(lit, t);
    lemma_utf8_concat(lit + t, close);
    assert(vstd::utf8::encode_utf8(lit) + vstd::utf8::encode_utf8(t) + vstd::utf8::encode_utf8(
        close,
    ) == vstd::utf8::encode_utf8(lit + t + close));
    lemma_decode_text(lit + encode(t) + close, lit + t + close);
}

/// Whether `f` is a fieldset map as parsing builds it.
pub open spec fn canonical_fields(f: Seq<(Seq<char>, Seq<Seq<char>>)>) -> bool {
    &&& forall|a: int, b: int| 0 <= a < b < f.len() ==> f[a].0 != f[b].0
    &&& forall|i: int|
        0 <= i < f.len() ==> {
            &&& valid_key(#[trigger] f[i].0)
            &&& f[i].1.len() > 0
            &&& no_dup(f[i].1)
            &&& forall|j: int| 0 <= j < f[i].1.len() ==> valid_key(#[trigger] f[i].1[j])
        }
}

#[verifier::rlimit(60)]
proof fn lemma_fields_apply(m1: QueryModel, t: Seq<char>, ks: Seq<Seq<char>>)
    requires
        valid_key(t),
        ks.len() > 0,
        no_dup(ks),
        forall|j: int| 0 <= j < ks.len() ==> valid_key(#[trigger] ks[j]),
        !has_key(m1.fields, t),
    ensures
        apply_param(m1, "fields["@ + t + seq![']'], join_on(ks, ',')) == Some(
            QueryModel { fields: m1.fields.push((t, ks)), ..m1 },
        ),
{
    reveal_strlit("fields[");
    reveal_strlit("sort");
    reveal_strlit("page[number]");
    reveal_strlit("page[size]");
    let lit = "fields["@;
    let k = lit + t + seq![']'];
    assert(k[0] == 'f');
    assert(k != incl_param());
    assert(k != "sort"@);
    assert(k != "page[number]"@);
    assert(k != "page[size]"@);
    assert(k.subrange(0, 7) =~= lit);
    assert(k.subrange(7, k.len() - 1) =~= t);
    assert(bracketed(k, lit) == Some(t));
    lemma_keys_text(ks);
    lemma_insert_all_fresh(Seq::<Seq<char>>::empty(), ks);
    assert(Seq::<Seq<char>>::empty() + ks =~= ks);
}

/// The piece of a fieldset is read as that fieldset.
proof fn lemma_fields_piece(m1: QueryModel, t: Seq<char>, ks: Seq<Seq<char>>)
    requires
        valid_key(t),
        ks.len() > 0,
        no_dup(ks),
        forall|j: int| 0 <= j < ks.len() ==> valid_key(#[trigger] ks[j]),
        !has_key(m1.fields, t),
    ensures
        parse_param(m1, fields_piece(t, ks)) == Some(
            QueryModel { fields: m1.fields.push((t, ks)), ..m1 },
        ),
{
    reveal_strlit("fields[");
    reveal_strlit("]=");
    let lit = "fields["@;
    let ke = lit + encode(t) + seq![']'];
    let v = join_on(ks, ',');
    assert(fields_piece(t, ks) =~= ke + seq!['='] + encode(v));
    lemma_encode_lacks(t);
    assert(lacks(ke, '=')) by {
        assert forall|i: int| 0 <= i < ke.len() implies #[trigger] ke[i] != '=' by {
            if 7 <= i < 7 + encode(t).len() {
                assert(ke[i] == encode(t)[i - 7]);
            }
        };
    };
    lemma_decode_bracketed(lit, t);
    crate::query::lemma_decode_encode(v);
    lemma_piece(m1, ke, encode(v), lit + t + seq![']'], v);
    lemma_fields_apply(m1, t, ks);
}

proof fn lemma_fields_section(m0: QueryModel, f: Seq<(Seq<char>, Seq<Seq<char>>)>)
    requires
        m0.fields == Seq::<(Seq<char>, Seq<Seq<char>>)>::empty(),
        canonical_fields(f),
    ensures
        parse_params(m0, fields_pieces(f)) == Some(QueryModel { fields: f, ..m0 }),
    decreases f.len(),
{
    if f.len() == 0 {
        assert(f =~= m0.fields);
    } else {
        let init = f.drop_last();
        let t = f.last().0;
        let ks = f.last().1;
        assert(canonical_fields(init)) by {
            assert forall|a: int, b: int| 0 <= a < b < init.len() implies init[a].0 != init[b].0 by {
                assert(init[a] == f[a] && init[b] == f[b]);
            };
            assert forall|i: int| 0 <= i < init.len() implies valid_key(#[trigger] init[i].0) by {
                assert(init[i] == f[i]);
            };
        };
        lemma_fields_section(m0, init);
        let m1 = QueryModel { fields: init, ..m0 };
        let piece = fields_piece(t, ks);
        assert(f[f.len() - 1] == f.last());
        assert(fields_pieces(f) =~= fields_pieces(init) + seq![piece]);
        lemma_params_concat(m0, fields_pieces(init), seq![piece]);
        lemma_params_one(m1, piece);
        assert(!has_key(init, t)) by {
            if has_key(init, t) {
                let j = choose|j: int| 0 <= j < init.len() && (#[trigger] init[j]).0 == t;
                assert(f[j].0 == f[f.len() - 1].0);
            }
        };
        lemma_fields_piece(m1, t, ks);
        assert(init.push((t, ks)) =~= f);
    }
}

#[verifier::rlimit(60)]
proof fn lemma_filter_apply(m1: QueryModel, p: Seq<Seq<char>>, v: Seq<char>)
    requires
        wf_path(p),
        !has_key(m1.filter, p),
    ensures
        apply_param(m1, "filter["@ + join_on(p, '.') + seq![']'], v) == Some(
            QueryModel { filter: m1.filter.push((p, v)), ..m1 },
        ),
{
    reveal_strlit("fields[");
    reveal_strlit("filter[");
    reveal_strlit("sort");
    reveal_strlit("page[number]");
    reveal_strlit("page[size]");
    let lit = "filter["@;
    let t = join_on(p, '.');
    let k = lit + t + seq![']'];
    assert(k[0] == 'f');
    assert(k != incl_param());
    assert(k != "sort"@);
    assert(k != "page[number]"@);
    assert(k != "page[size]"@);
    assert(k.subrange(0, 7)[2] != "fields["@[2]);
    assert(bracketed(k, "fields["@) is None);
    assert(k.subrange(0, 7) =~= lit);
    assert(k.subrange(7, k.len() - 1) =~= t);
    assert(bracketed(k, lit) == Some(t));
    lemma_path_text(p);
}

/// The piece of a filter is read as that filter.
proof fn lemma_filter_piece(m1: QueryModel, p: Seq<Seq<char>>, v: Seq<char>)
    requires
        wf_path(p),
        !has_key(m1.filter, p),
    ensures
        parse_param(m1, filter_piece(p, v)) == Some(
            QueryModel { filter: m1.filter.push((p, v)), ..m1 },
        ),
{
    reveal_strlit("filter[");
    reveal_strlit("]=");
    let lit = "filter["@;
    let t = join_on(p, '.');
    let ke = lit + encode(t) + seq![']'];
    assert(filter_piece(p, v) =~= ke + seq!['='] + encode(v));
    lemma_encode_lacks(t);
    assert(lacks(ke, '=')) by {
        assert forall|i: int| 0 <= i < ke.len() implies #[trigger] ke[i] != '=' by {
            if 7 <= i < 7 + encode(t).len() {
                assert(ke[i] == encode(t)[i - 7]);
            }
        };
    };
    lemma_decode_bracketed(lit, t);
    crate::query::lemma_decode_encode(v);
    lemma_piece(m1, ke, encode(v), lit + t + seq![']'], v);
    lemma_filter_apply(m1, p, v);
}

/// Whether `f` is a filter map as parsing builds it.
pub open spec fn canonical_filter(f: Seq<(Seq<Seq<char>>, Seq<char>)>) -> bool {
    &&& forall|a: int, b: int| 0 <= a < b < f.len() ==> f[a].0 != f[b].0
    &&& forall|i: int| 0 <= i < f.len() ==> wf_path(#[trigger] f[i].0)
}

proof fn lemma_filter_section(m0: QueryModel, f: Seq<(Seq<Seq<char>>, Seq<char>)>)
    requires
        m0.filter == Seq::<(Seq<Seq<char>>, Seq<char>)>::empty(),
        canonical_filter(f),
    ensures
        parse_params(m0, filter_pieces(f)) == Some(QueryModel { filter: f, ..m0 }),
    decreases f.len(),
{
    if f.len() == 0 {
        assert(f =~= m0.filter);
    } else {
        let init = f.drop_last();
        let p = f.last().0;
        let v = f.last().1;
        assert(canonical_filter(init)) by {
            assert forall|a: int, b: int| 0 <= a < b < init.len() implies init[a].0 != init[b].0 by {
                assert(init[a] == f[a] && init[b] == f[b]);
            };
            assert forall|i: int| 0 <= i < init.len() implies wf_path(#[trigger] init[i].0) by {
                assert(init[i] == f[i]);
            };
        };
        lemma_filter_section(m0, init);
        let m1 = QueryModel { filter: init, ..m0 };
        let piece = filter_piece(p, v);
        assert(f[f.len() - 1] == f.last());
        assert(filter_pieces(f) =~= filter_pieces(init) + seq![piece]);
        lemma_params_concat(m0, filter_pieces(init), seq![piece]);
        lemma_params_one(m1, piece);
        assert(!has_key(init, p)) by {
            if has_key(init, p) {
                let j = choose|j: int| 0 <= j < init.len() && (#[trigger] init[j]).0 == p;
                assert(f[j].0 == f[f.len() - 1].0);
            }
        };
        lemma_filter_piece(m1, p, v);
        assert(init.push((p, v)) =~= f);
    }
}

/// Whether `ps` is a list of embedded paths as parsing builds it.
pub open spec fn canonical_paths(ps: Seq<Seq<Seq<char>>>) -> bool {
    no_dup(ps) && forall|i: int| 0 <= i < ps.len() ==> wf_path(#[trigger] ps[i])
}

/// Whether `ss` is a list of sort criteria as parsing builds it: an
/// ascending path never starts with `-`.
pub open spec fn canonical_sort(ss: Seq<(Seq<Seq<char>>, Direction)>) -> bool {
    &&& no_dup(ss)
    &&& forall|i: int|
        0 <= i < ss.len() ==> wf_path(#[trigger] ss[i].0) && (ss[i].1 == Direction::Asc
            ==> ss[i].0[0][0] != '-')
}

/// A list piece `name=...` is read as `name` with the comma-joined items.
proof fn lemma_list_piece(m: QueryModel, name: Seq<char>, items: Seq<Seq<char>>)
    requires
        lacks(name, '='),
        lacks(name, '%'),
        lacks(name, '+'),
        items.len() > 0,
    ensures
        parse_params(m, list_pieces(name, items)) == apply_param(m, name, join_on(items, ',')),
{
    let v = join_on(items, ',');
    lemma_decode_plain_text(name);
    crate::query::lemma_decode_encode(v);
    lemma_piece(m, name, encode(v), name, v);
    lemma_params_one(m, name + seq!['='] + encode(v));
}

#[verifier::rlimit(60)]
proof fn lemma_paths_section(m: QueryModel, ps: Seq<Seq<Seq<char>>>)
    requires
        m.includes == Seq::<Seq<Seq<char>>>::empty(),
        canonical_paths(ps),
    ensures
        parse_params(m, list_pieces(incl_param(), path_texts(ps))) == Some(
            QueryModel { includes: ps, ..m },
        ),
{
    let texts = path_texts(ps);
    if ps.len() == 0 {
        assert(list_pieces(incl_param(), texts) =~= Seq::<Seq<char>>::empty());
        assert(ps =~= m.includes);
    } else {
        lemma_list_piece(m, incl_param(), texts);
        assert forall|i: int| 0 <= i < texts.len() implies !(#[trigger] texts[i]).contains(',')
            && valid_path(texts[i]) && split_on(texts[i], '.') == ps[i] by {
            lemma_path_text(ps[i]);
            lemma_lacks_contains(texts[i], ',');
        };
        lemma_split_join(texts, ',');
        assert(texts.map_values(|p: Seq<char>| split_on(p, '.')) =~= ps);
        lemma_insert_all_fresh(Seq::<Seq<Seq<char>>>::empty(), ps);
        assert(Seq::<Seq<Seq<char>>>::empty() + ps =~= ps);
    }
}

#[verifier::rlimit(60)]
proof fn lemma_sort_section(m: QueryModel, ss: Seq<(Seq<Seq<char>>, Direction)>)
    requires
        m.sort == Seq::<(Seq<Seq<char>>, Direction)>::empty(),
        canonical_sort(ss),
    ensures
        parse_params(
            m,
            list_pieces(
                "sort"@,
                ss.map_values(|s: (Seq<Seq<char>>, Direction)| sort_piece_text(s)),
            ),
        ) == Some(QueryModel { sort: ss, ..m }),
{
    reveal_strlit("sort");
    let texts = ss.map_values(|s: (Seq<Seq<char>>, Direction)| sort_piece_text(s));
    if ss.len() == 0 {
        assert(list_pieces("sort"@, texts) =~= Seq::<Seq<char>>::empty());
        assert(ss =~= m.sort);
    } else {
        lemma_list_piece(m, "sort"@, texts);
        assert("sort"@ != incl_param());
        assert forall|i: int| 0 <= i < texts.len() implies !(#[trigger] texts[i]).contains(',')
            && valid_path(crate::query::sort_text(texts[i])) && crate::query::sort_model(texts[i])
            == ss[i] by {
            let p = ss[i].0;
            let j = join_on(p, '.');
            lemma_path_text(p);
            match ss[i].1 {
                Direction::Desc => {
                    assert(texts[i] == seq!['-'] + j);
                    assert(texts[i].drop_first() =~= j);
                    assert forall|x: int| 0 <= x < texts[i].len() implies #[trigger] texts[i][x]
                        != ',' by {
                        if x > 0 {
                            assert(texts[i][x] == j[x - 1]);
                        }
                    };
                },
                Direction::Asc => {
                    assert(texts[i] == j);
                },
            }
            lemma_lacks_contains(texts[i], ',');
        };
        lemma_split_join(texts, ',');
        assert(texts.map_values(|p: Seq<char>| crate::query::sort_model(p)) =~= ss);
        lemma_insert_all_fresh(Seq::<(Seq<Seq<char>>, Direction)>::empty(), ss);
        assert(Seq::<(Seq<Seq<char>>, Direction)>::empty() + ss =~= ss);
    }
}

proof fn lemma_decimal_plain(n: nat)
    ensures
        decode(decimal(n)) == Some(decimal(n)),
        lacks(decimal(n), '&'),
        crate::query::is_u64_literal(decimal(n)) <==> n <= u64::MAX,
        digits_value(decimal(n)) == n,
{
    lemma_decimal_round_trip(n);
    let d = decimal(n);
    assert(lacks(d, '%') && lacks(d, '+') && lacks(d, '&')) by {
        assert forall|i: int| 0 <= i < d.len() implies #[trigger] d[i] != '%' && d[i] != '+'
            && d[i] != '&' by {
            assert('0' <= d[i] <= '9');
        };
    };
    lemma_decode_plain_text(d);
    assert forall|i: int| 0 <= i < d.len() implies crate::query::is_digit(#[trigger] d[i]) by {
        assert('0' <= d[i] <= '9');
    };
}

#[verifier::rlimit(60)]
proof fn lemma_page_piece(m: QueryModel, number: bool, n: u64)
    ensures
        parse_params(
            m,
            seq![
                (if number {
                    "page[number]="@
                } else {
                    "page[size]="@
                }) + decimal(n as nat),
            ],
        ) == Some(
            QueryModel {
                page: Some(
                    if number {
                        Page {
                            number: if n > 0 {
                                n
                            } else {
                                1
                            },
                            size: crate::query::page_size(m.page),
                        }
                    } else {
                        Page { number: crate::query::page_number(m.page), size: Some(n) }
                    },
                ),
                ..m
            },
        ),
{
    reveal_strlit("page[number]=");
    reveal_strlit("page[size]=");
    reveal_strlit("page[number]");
    reveal_strlit("page[size]");
    reveal_strlit("sort");
    let ke = if number {
        "page[number]"@
    } else {
        "page[size]"@
    };
    let d = decimal(n as nat);
    lemma_decimal_plain(n as nat);
    assert((if number {
        "page[number]="@
    } else {
        "page[size]="@
    }) + d =~= ke + seq!['='] + d);
    assert(lacks(ke, '%') && lacks(ke, '+'));
    lemma_decode_plain_text(ke);
    lemma_piece(m, ke, d, ke, d);
    lemma_params_one(m, ke + seq!['='] + d);
    assert(ke[0] == 'p');
    assert(ke != incl_param());
    assert(ke != "sort"@);
    assert("page[number]"@ != "page[size]"@);
}

proof fn lemma_page_section(m: QueryModel, page: Option<Page>)
    requires
        m.page is None,
        page matches Some(p) ==> p.number >= 1 && !(p.number == 1 && p.size is None),
    ensures
        parse_params(m, page_pieces(page)) == Some(QueryModel { page, ..m }),
        page is None <==> page_pieces(page).len() == 0,
        forall|i: int| 0 <= i < page_pieces(page).len() ==> lacks(#[trigger] page_pieces(page)[i], '&'),
{
    reveal_strlit("page[number]=");
    reveal_strlit("page[size]=");
    match page {
        None => {},
        Some(p) => {
            let a = if p.number == 1 {
                Seq::<Seq<char>>::empty()
            } else {
                seq!["page[number]="@ + decimal(p.number as nat)]
            };
            lemma_decimal_plain(p.number as nat);
            let m1 = if p.number == 1 {
                m
            } else {
                lemma_page_piece(m, true, p.number);
                QueryModel { page: Some(Page { number: p.number, size: None }), ..m }
            };
            assert(parse_params(m, a) == Some(m1));
            match p.size {
                None => {
                    assert(page_pieces(page) == a);
                },
                Some(z) => {
                    lemma_decimal_plain(z as nat);
                    lemma_page_piece(m1, false, z);
                    let b = seq!["page[size]="@ + decimal(z as nat)];
                    assert(page_pieces(page) =~= a + b);
                    lemma_params_concat(m, a, b);
                    assert forall|i: int| 0 <= i < page_pieces(page).len() implies lacks(
                        #[trigger] page_pieces(page)[i],
                        '&',
                    ) by {
                        let t = page_pieces(page)[i];
                        assert forall|x: int| 0 <= x < t.len() implies #[trigger] t[x] != '&' by {
                            if i == a.len() {
                                assert(t == "page[size]="@ + decimal(z as nat));
                                if x >= 11 {
                                    assert(t[x] == decimal(z as nat)[x - 11]);
                                }
                            } else {
                                assert(t == "page[number]="@ + decimal(p.number as nat));
                                if x >= 13 {
                                    assert(t[x] == decimal(p.number as nat)[x - 13]);
                                }
                            }
                        };
                    };
                },
            }
            assert forall|i: int| 0 <= i < page_pieces(page).len() implies lacks(
                #[trigger] page_pieces(page)[i],
                '&',
            ) by {
                let t = page_pieces(page)[i];
                assert forall|x: int| 0 <= x < t.len() implies #[trigger] t[x] != '&' by {
                    if t == "page[number]="@ + decimal(p.number as nat) && x >= 13 {
                        assert(t[x] == decimal(p.number as nat)[x - 13]);
                    }
                    if p.size is Some && t == "page[size]="@ + decimal(p.size->0 as nat) && x
                        >= 11 {
                        lemma_decimal_plain(p.size->0 as nat);
                        assert(t[x] == decimal(p.size->0 as nat)[x - 11]);
                    }
                };
            };
        },
    }
}

proof fn lemma_lacks_concat(a: Seq<char>, b: Seq<char>, c: char)
    requires
        lacks(a, c),
        lacks(b, c),
    ensures
        lacks(a + b, c),
{
    assert forall|i: int| 0 <= i < (a + b).len() implies #[trigger] (a + b)[i] != c by {
        if i >= a.len() {
            assert((a + b)[i] == b[i - a.len()]);
        }
    };
}

proof fn lemma_bracket_piece_lacks(lit: Seq<char>, t: Seq<char>, v: Seq<char>)
    requires
        lacks(lit, '&'),
    ensures
        lacks(lit + encode(t) + "]="@ + encode(v), '&'),
{
    reveal_strlit("]=");
    lemma_encode_lacks(t);
    lemma_encode_lacks(v);
    lemma_lacks_concat(lit, encode(t), '&');
    lemma_lacks_concat(lit + encode(t), "]="@, '&');
    lemma_lacks_concat(lit + encode(t) + "]="@, encode(v), '&');
}

proof fn lemma_fields_pieces_facts(f: Seq<(Seq<char>, Seq<Seq<char>>)>)
    requires
        canonical_fields(f),
    ensures
        fields_pieces(f).len() == f.len(),
        forall|i: int| 0 <= i < f.len() ==> lacks(#[trigger] fields_pieces(f)[i], '&'),
    decreases f.len(),
{
    if f.len() > 0 {
        let init = f.drop_last();
        assert(canonical_fields(init)) by {
            assert forall|a: int, b: int| 0 <= a < b < init.len() implies init[a].0 != init[b].0 by {
                assert(init[a] == f[a] && init[b] == f[b]);
            };
            assert forall|i: int| 0 <= i < init.len() implies valid_key(#[trigger] init[i].0) by {
                assert(init[i] == f[i]);
            };
        };
        lemma_fields_pieces_facts(init);
        assert(f[f.len() - 1] == f.last());
        reveal_strlit("fields[");
        lemma_bracket_piece_lacks("fields["@, f.last().0, join_on(f.last().1, ','));
    }
}

proof fn lemma_filter_pieces_facts(f: Seq<(Seq<Seq<char>>, Seq<char>)>)
    ensures
        filter_pieces(f).len() == f.len(),
        forall|i: int| 0 <= i < f.len() ==> lacks(#[trigger] filter_pieces(f)[i], '&'),
    decreases f.len(),
{
    if f.len() > 0 {
        lemma_filter_pieces_facts(f.drop_last());
        reveal_strlit("filter[");
        lemma_bracket_piece_lacks("filter["@, join_on(f.last().0, '.'), f.last().1);
    }
}

proof fn lemma_list_pieces_facts(name: Seq<char>, items: Seq<Seq<char>>)
    requires
        lacks(name, '&'),
    ensures
        list_pieces(name, items).len() == 0 <==> items.len() == 0,
        forall|i: int|
            0 <= i < list_pieces(name, items).len() ==> lacks(
                #[trigger] list_pieces(name, items)[i],
                '&',
            ),
{
    if items.len() > 0 {
        let v = join_on(items, ',');
        lemma_encode_lacks(v);
        lemma_lacks_concat(name, seq!['='], '&');
        lemma_lacks_concat(name + seq!['='], encode(v), '&');
        assert(list_pieces(name, items)[0] == name + seq!['='] + encode(v));
    }
}

/// Whether `m` is a query as parsing builds it.
pub open spec fn canonical(m: QueryModel) -> bool {
    &&& canonical_fields(m.fields)
    &&& canonical_filter(m.filter)
    &&& canonical_paths(m.includes)
    &&& canonical_sort(m.sort)
    &&& m.page matches Some(p) ==> p.number >= 1
}

/// The pieces of the canonical query string of `m`, in order.
pub open spec fn query_pieces(m: QueryModel) -> Seq<Seq<char>> {
    fields_pieces(m.fields) + filter_pieces(m.filter) + list_pieces(
        incl_param(),
        path_texts(m.includes),
    ) + page_pieces(m.page) + list_pieces(
        "sort"@,
        m.sort.map_values(|s: (Seq<Seq<char>>, Direction)| sort_piece_text(s)),
    )
}

#[verifier::rlimit(60)]
proof fn lemma_sections(m: QueryModel)
    requires
        canonical(m),
        m.page != Some(Page { number: 1, size: None }),
    ensures
        parse_params(empty_model(), query_pieces(m)) == Some(m),
{
    let e = empty_model();
    let f = fields_pieces(m.fields);
    let fl = filter_pieces(m.filter);
    let inc = list_pieces(incl_param(), path_texts(m.includes));
    let pg = page_pieces(m.page);
    let so = list_pieces(
        "sort"@,
        m.sort.map_values(|s: (Seq<Seq<char>>, Direction)| sort_piece_text(s)),
    );
    let m1 = QueryModel { fields: m.fields, ..e };
    let m2 = QueryModel { filter: m.filter, ..m1 };
    let m3 = QueryModel { includes: m.includes, ..m2 };
    let m4 = QueryModel { page: m.page, ..m3 };
    lemma_fields_section(e, m.fields);
    lemma_filter_section(m1, m.filter);
    lemma_paths_section(m2, m.includes);
    lemma_page_section(m3, m.page);
    lemma_sort_section(m4, m.sort);
    lemma_params_concat(e, f, fl);
    lemma_params_concat(e, f + fl, inc);
    lemma_params_concat(e, f + fl + inc, pg);
    lemma_params_concat(e, f + fl + inc + pg, so);
}

#[verifier::rlimit(60)]
proof fn lemma_pieces_facts(m: QueryModel)
    requires
        canonical(m),
        m.page != Some(Page { number: 1, size: None }),
    ensures
        query_pieces(m).len() == 0 ==> m == empty_model(),
        forall|i: int| 0 <= i < query_pieces(m).len() ==> lacks(#[trigger] query_pieces(m)[i], '&'),
{
    let f = fields_pieces(m.fields);
    let fl = filter_pieces(m.filter);
    let inc = list_pieces(incl_param(), path_texts(m.includes));
    let pg = page_pieces(m.page);
    let so = list_pieces(
        "sort"@,
        m.sort.map_values(|s: (Seq<Seq<char>>, Direction)| sort_piece_text(s)),
    );
    let all = query_pieces(m);
    lemma_fields_pieces_facts(m.fields);
    lemma_filter_pieces_facts(m.filter);
    lemma_list_pieces_facts(incl_param(), path_texts(m.includes));
    reveal_strlit("sort");
    lemma_list_pieces_facts(
        "sort"@,
        m.sort.map_values(|s: (Seq<Seq<char>>, Direction)| sort_piece_text(s)),
    );
    lemma_page_section(empty_model(), m.page);
    if all.len() == 0 {
        assert(m.fields =~= empty_model().fields);
        assert(m.filter =~= empty_model().filter);
        assert(m.includes =~= empty_model().includes);
        assert(m.sort =~= empty_model().sort);
    }
    assert forall|i: int| 0 <= i < all.len() implies lacks(#[trigger] all[i], '&') by {
        let a1 = f.len() as int;
        let a2 = a1 + fl.len();
        let a3 = a2 + inc.len();
        let a4 = a3 + pg.len();
        if i < a1 {
            assert(all[i] == f[i]);
        } else if i < a2 {
            assert(all[i] == fl[i - a1]);
        } else if i < a3 {
            assert(all[i] == inc[i - a2]);
        } else if i < a4 {
            assert(all[i] == pg[i - a3]);
        } else {
            assert(all[i] == so[i - a4]);
        }
    };
}

/// Writing a query as parsing builds it and parsing the text gives the query
/// back, unless its page is the default one, which is written as nothing.
pub proof fn lemma_canonical_round_trip(m: QueryModel)
    requires
        canonical(m),
        m.page != Some(Page { number: 1, size: None }),
    ensures
        parse_query(query_text(m)) == Some(m),
{
    let e = empty_model();
    let all = query_pieces(m);
    assert(query_text(m) == join_on(all, '&'));
    lemma_sections(m);
    lemma_pieces_facts(m);
    if all.len() == 0 {
        assert(join_on(all, '&') =~= Seq::<char>::empty());
        let one = seq![Seq::<char>::empty()];
        assert(split_on(Seq::<char>::empty(), '&') == one);
        assert(one[0] == Seq::<char>::empty());
        assert(one.drop_first() =~= Seq::<Seq<char>>::empty());
        assert(parse_param(e, Seq::<char>::empty()) == Some(e));
        assert(parse_params(e, Seq::<Seq<char>>::empty()) == Some(e));
    } else {
        assert forall|i: int| 0 <= i < all.len() implies !(#[trigger] all[i]).contains('&') by {
            lemma_lacks_contains(all[i], '&');
        };
        lemma_split_join(all, '&');
    }
}

proof fn lemma_insert_all_facts<A>(s: Seq<A>, xs: Seq<A>)
    ensures
        no_dup(s) ==> no_dup(seq_insert_all(s, xs)),
        forall|i: int|
            0 <= i < seq_insert_all(s, xs).len() ==> s.contains(#[trigger] seq_insert_all(s, xs)[i])
                || xs.contains(seq_insert_all(s, xs)[i]),
        forall|j: int| 0 <= j < xs.len() ==> seq_insert_all(s, xs).contains(#[trigger] xs[j]),
        forall|j: int| 0 <= j < s.len() ==> seq_insert_all(s, xs).contains(#[trigger] s[j]),
    decreases xs.len(),
{
    if xs.len() > 0 {
        let x = xs[0];
        let s1 = seq_insert(s, x);
        let rest = xs.drop_first();
        lemma_insert_all_facts(s1, rest);
        let r = seq_insert_all(s, xs);
        assert(r == seq_insert_all(s1, rest));
        if no_dup(s) {
            if !s.contains(x) {
                assert forall|a: int, b: int| 0 <= a < b < s1.len() implies s1[a] != s1[b] by {
                    if b == s.len() {
                        assert(s1[b] == x);
                        assert(s1[a] == s[a]);
                    }
                };
            }
        }
        assert forall|i: int| 0 <= i < r.len() implies s.contains(#[trigger] r[i]) || xs.contains(
            r[i],
        ) by {
            if s1.contains(r[i]) {
                let j = choose|j: int| 0 <= j < s1.len() && s1[j] == r[i];
                if j < s.len() {
                    assert(s[j] == s1[j]);
                } else {
                    assert(xs[0] == r[i]);
                }
            } else {
                let j = choose|j: int| 0 <= j < rest.len() && rest[j] == r[i];
                assert(xs[j + 1] == r[i]);
            }
        };
        assert forall|j: int| 0 <= j < xs.len() implies r.contains(#[trigger] xs[j]) by {
            if j == 0 {
                if s.contains(x) {
                    let q = choose|q: int| 0 <= q < s.len() && s[q] == x;
                    assert(s1[q] == x);
                } else {
                    assert(s1[s.len() as int] == x);
                }
            } else {
                assert(rest[j - 1] == xs[j]);
            }
        };
        assert forall|j: int| 0 <= j < s.len() implies r.contains(#[trigger] s[j]) by {
            assert(s1[j] == s[j]);
        };
    }
}

proof fn lemma_has_key_index<K, V>(s: Seq<(K, V)>, k: K)
    requires
        has_key(s, k),
    ensures
        0 <= key_index(s, k) < s.len(),
        s[key_index(s, k)].0 == k,
        forall|j: int| 0 <= j < key_index(s, k) ==> (#[trigger] s[j]).0 != k,
    decreases s.len(),
{
    if s[0].0 == k {
        assert(0 <= 0 < s.len() && s[0].0 == k && forall|j: int| 0 <= j < 0 ==> (#[trigger] s[j]).0 != k);
    } else {
        let t = s.drop_first();
        let w = choose|i: int| 0 <= i < s.len() && (#[trigger] s[i]).0 == k;
        assert(t[w - 1] == s[w]);
        assert(has_key(t, k));
        lemma_has_key_index(t, k);
        let i = key_index(t, k) + 1;
        assert(s[i] == t[i - 1]);
        assert forall|j: int| 0 <= j < i implies (#[trigger] s[j]).0 != k by {
            if j > 0 {
                assert(s[j] == t[j - 1]);
            }
        };
        assert(0 <= i < s.len() && s[i].0 == k && forall|j: int| 0 <= j < i ==> (#[trigger] s[j]).0 != k);
    }
}

/// Setting a key keeps the keys of a map distinct, and leaves the other
/// entries where they were.
proof fn lemma_map_put_facts<K, V>(s: Seq<(K, V)>, k: K, v: V)
    requires
        forall|a: int, b: int| 0 <= a < b < s.len() ==> s[a].0 != s[b].0,
    ensures
        forall|a: int, b: int|
            0 <= a < b < map_put(s, k, v).len() ==> map_put(s, k, v)[a].0 != map_put(s, k, v)[b].0,
        forall|i: int|
            0 <= i < map_put(s, k, v).len() ==> (#[trigger] map_put(s, k, v)[i] == (k, v) || (
            map_put(s, k, v)[i].0 != k && i < s.len() && map_put(s, k, v)[i] == s[i])),
{
    if has_key(s, k) {
        lemma_has_key_index(s, k);
    }
}

proof fn lemma_split_first(p: Seq<char>, c: char)
    requires
        p.len() > 0,
        p[0] != c,
    ensures
        split_on(p, c)[0].len() > 0,
        split_on(p, c)[0][0] == p[0],
    decreases p.len(),
{
    lemma_split_on_nonempty(p, c);
    if p.len() == 1 {
        assert(p.drop_last() =~= Seq::<char>::empty());
    } else {
        assert(p.drop_last()[0] == p[0]);
        lemma_split_first(p.drop_last(), c);
        lemma_split_on_nonempty(p.drop_last(), c);
    }
}

proof fn lemma_split_first_sep(p: Seq<char>, c: char)
    requires
        p.len() > 0,
        p[0] == c,
    ensures
        split_on(p, c).len() >= 2,
        split_on(p, c)[0].len() == 0,
    decreases p.len(),
{
    lemma_split_on_nonempty(p, c);
    if p.len() > 1 {
        assert(p.drop_last()[0] == p[0]);
        lemma_split_first_sep(p.drop_last(), c);
        let rest = split_on(p.drop_last(), c);
        if p.last() == c {
            assert(split_on(p, c) == rest.push(Seq::<char>::empty()));
        } else {
            assert(split_on(p, c) == rest.update(rest.len() - 1, rest.last().push(p.last())));
        }
    } else {
        assert(p.drop_last() =~= Seq::<char>::empty());
        assert(split_on(p.drop_last(), c) == seq![Seq::<char>::empty()]);
        assert(p.last() == c);
        assert(split_on(p, c) == seq![Seq::<char>::empty()].push(Seq::<char>::empty()));
    }
}

proof fn lemma_path_of_text(p: Seq<char>)
    requires
        valid_path(p),
    ensures
        wf_path(split_on(p, '.')),
{
    lemma_split_on_nonempty(p, '.');
}

proof fn lemma_paths_canonical(old: Seq<Seq<Seq<char>>>, pieces: Seq<Seq<char>>)
    requires
        canonical_paths(old),
        all_paths(pieces),
    ensures
        canonical_paths(seq_insert_all(old, pieces.map_values(|p: Seq<char>| split_on(p, '.')))),
{
    let xs = pieces.map_values(|p: Seq<char>| split_on(p, '.'));
    let r = seq_insert_all(old, xs);
    lemma_insert_all_facts(old, xs);
    assert forall|i: int| 0 <= i < r.len() implies wf_path(#[trigger] r[i]) by {
        if old.contains(r[i]) {
            let j = choose|j: int| 0 <= j < old.len() && old[j] == r[i];
        } else {
            let j = choose|j: int| 0 <= j < xs.len() && xs[j] == r[i];
            lemma_path_of_text(pieces[j]);
        }
    };
}

proof fn lemma_sort_canonical(old: Seq<(Seq<Seq<char>>, Direction)>, pieces: Seq<Seq<char>>)
    requires
        canonical_sort(old),
        all_sorts(pieces),
    ensures
        canonical_sort(seq_insert_all(old, pieces.map_values(|p: Seq<char>| sort_model(p)))),
{
    let xs = pieces.map_values(|p: Seq<char>| sort_model(p));
    let r = seq_insert_all(old, xs);
    lemma_insert_all_facts(old, xs);
    assert forall|i: int| 0 <= i < r.len() implies wf_path(#[trigger] r[i].0) && (r[i].1
        == Direction::Asc ==> r[i].0[0][0] != '-') by {
        if old.contains(r[i]) {
            let j = choose|j: int| 0 <= j < old.len() && old[j] == r[i];
        } else {
            let j = choose|j: int| 0 <= j < xs.len() && xs[j] == r[i];
            let p = pieces[j];
            lemma_path_of_text(sort_text(p));
            if r[i].1 == Direction::Asc {
                assert(sort_text(p) == p);
                assert(p.len() > 0) by {
                    lemma_split_on_nonempty(p, '.');
                    assert(valid_key(split_on(p, '.')[0]));
                    if p.len() == 0 {
                        assert(split_on(p, '.')[0].len() == 0);
                    }
                };
                lemma_split_on_nonempty(p, '.');
                assert(valid_key(split_on(p, '.')[0]));
                if p[0] != '.' {
                    lemma_split_first(p, '.');
                } else {
                    lemma_split_first_sep(p, '.');
                }
                assert(xs[j] == sort_model(p));
                assert(r[i].0 == split_on(p, '.'));
            }
        }
    };
}

proof fn lemma_fields_canonical(
    f: Seq<(Seq<char>, Seq<Seq<char>>)>,
    t: Seq<char>,
    pieces: Seq<Seq<char>>,
)
    requires
        canonical_fields(f),
        valid_key(t),
        all_keys(pieces),
        pieces.len() > 0,
    ensures
        canonical_fields(
            map_put(
                f,
                t,
                seq_insert_all(
                    match map_get(f, t) {
                        Some(set) => set,
                        None => Seq::empty(),
                    },
                    pieces,
                ),
            ),
        ),
{
    let base = match map_get(f, t) {
        Some(set) => set,
        None => Seq::<Seq<char>>::empty(),
    };
    if has_key(f, t) {
        lemma_has_key_index(f, t);
    }
    assert(no_dup(base) && forall|j: int| 0 <= j < base.len() ==> valid_key(#[trigger] base[j]));
    let set = seq_insert_all(base, pieces);
    lemma_insert_all_facts(base, pieces);
    assert(set.contains(pieces[0]));
    assert forall|j: int| 0 <= j < set.len() implies valid_key(#[trigger] set[j]) by {
        if base.contains(set[j]) {
            let q = choose|q: int| 0 <= q < base.len() && base[q] == set[j];
        } else {
            let q = choose|q: int| 0 <= q < pieces.len() && pieces[q] == set[j];
        }
    };
    lemma_map_put_facts(f, t, set);
    let r = map_put(f, t, set);
    assert forall|i: int| 0 <= i < r.len() implies valid_key(#[trigger] r[i].0) && r[i].1.len() > 0
        && no_dup(r[i].1) && forall|j: int| 0 <= j < r[i].1.len() ==> valid_key(
        #[trigger] r[i].1[j],
    ) by {
        if r[i] != (t, set) {
            assert(r[i] == f[i]);
        }
    };
}

proof fn lemma_filter_canonical(f: Seq<(Seq<Seq<char>>, Seq<char>)>, p: Seq<char>, v: Seq<char>)
    requires
        canonical_filter(f),
        valid_path(p),
    ensures
        canonical_filter(map_put(f, split_on(p, '.'), v)),
{
    lemma_path_of_text(p);
    lemma_map_put_facts(f, split_on(p, '.'), v);
    let r = map_put(f, split_on(p, '.'), v);
    assert forall|i: int| 0 <= i < r.len() implies wf_path(#[trigger] r[i].0) by {
        if r[i] != (split_on(p, '.'), v) {
            assert(r[i] == f[i]);
        }
    };
}

#[verifier::rlimit(60)]
proof fn lemma_apply_canonical(m: QueryModel, k: Seq<char>, v: Seq<char>)
    requires
        canonical(m),
        apply_param(m, k, v) is Some,
    ensures
        canonical(apply_param(m, k, v)->0),
{
    let pieces = split_on(v, ',');
    lemma_split_on_nonempty(v, ',');
    if k == incl_param() {
        lemma_paths_canonical(m.includes, pieces);
    } else if k == "sort"@ {
        lemma_sort_canonical(m.sort, pieces);
    } else if k == "page[number]"@ || k == "page[size]"@ {
    } else {
        match bracketed(k, "fields["@) {
            Some(t) => {
                lemma_fields_canonical(m.fields, t, pieces);
            },
            None => match bracketed(k, "filter["@) {
                Some(p) => {
                    lemma_filter_canonical(m.filter, p, v);
                },
                None => {},
            },
        }
    }
}

proof fn lemma_params_canonical(m: QueryModel, ps: Seq<Seq<char>>)
    requires
        canonical(m),
        parse_params(m, ps) is Some,
    ensures
        canonical(parse_params(m, ps)->0),
    decreases ps.len(),
{
    if ps.len() > 0 {
        let p = ps[0];
        if p.len() > 0 {
            let i = crate::query::first_index(p, '=');
            match (decode(p.subrange(0, i)), decode(p.subrange(i + 1, p.len() as int))) {
                (Some(k), Some(v)) => {
                    lemma_apply_canonical(m, k, v);
                },
                _ => {},
            }
        }
        lemma_params_canonical(parse_param(m, p)->0, ps.drop_first());
    }
}

/// Parsing the canonical query string of a parsed query gives the same
/// query, unless its page is the default one: that page is written as
/// nothing and read back as no page.
pub proof fn lemma_parse_serialize_parse(s: Seq<char>)
    requires
        parse_query(s) is Some,
        parse_query(s)->0.page != Some(Page { number: 1, size: None }),
    ensures
        parse_query(query_text(parse_query(s)->0)) == parse_query(s),
{
    assert(canonical(empty_model()));
    lemma_params_canonical(empty_model(), split_on(s, '&'));
    lemma_canonical_round_trip(parse_query(s)->0);
}

/// Whether `p` is the first position in `pool` of the identity of the object
/// there.
pub open spec fn first_pos(pool: Seq<Object>, p: int) -> bool {
    0 <= p < pool.len() && position_of(pool, ident(pool[p])) == p
}

proof fn lemma_found_first(pool: Seq<Object>, ids: Seq<(Seq<char>, Seq<char>)>)
    ensures
        forall|k: int| 0 <= k < found(pool, ids).len() ==> first_pos(pool, #[trigger] found(pool, ids)[k]),
    decreases ids.len(),
{
    if ids.len() > 0 {
        lemma_found_first(pool, ids.drop_last());
        lemma_position_bounds(pool, ids.last());
        let rest = found(pool, ids.drop_last());
        let p = position_of(pool, ids.last());
        let r = found(pool, ids);
        assert forall|k: int| 0 <= k < r.len() implies first_pos(pool, #[trigger] r[k]) by {
            if k < rest.len() {
                assert(r[k] == rest[k]);
            } else {
                assert(r[k] == p);
                assert(ident(pool[p]) == ids.last());
            }
        };
    }
}

proof fn lemma_walk_first(pool: Seq<Object>, start: Seq<Object>, path: Seq<Seq<char>>)
    ensures
        forall|k: int|
            0 <= k < walk(pool, start, path).len() ==> first_pos(pool, #[trigger] walk(pool, start, path)[k]),
    decreases path.len(),
{
    if path.len() > 0 {
        let ps = found(pool, hop(start, path[0]));
        lemma_found_first(pool, hop(start, path[0]));
        lemma_walk_first(pool, at_positions(pool, ps), path.drop_first());
        let w = walk(pool, start, path);
        assert forall|k: int| 0 <= k < w.len() implies first_pos(pool, #[trigger] w[k]) by {
            if k >= ps.len() {
                assert(w[k] == walk(pool, at_positions(pool, ps), path.drop_first())[k - ps.len()]);
            } else {
                assert(w[k] == ps[k]);
            }
        };
    }
}

proof fn lemma_included_first(pool: Seq<Object>, data: Seq<Object>, paths: Seq<Seq<Seq<char>>>)
    ensures
        no_dup(included_positions(pool, data, paths)),
        forall|k: int|
            0 <= k < included_positions(pool, data, paths).len() ==> first_pos(
                pool,
                #[trigger] included_positions(pool, data, paths)[k],
            ),
    decreases paths.len(),
{
    if paths.len() > 0 {
        let before = included_positions(pool, data, paths.drop_last());
        let w = walk(pool, data, paths.last());
        lemma_included_first(pool, data, paths.drop_last());
        lemma_walk_first(pool, data, paths.last());
        lemma_insert_all_facts(before, w);
        let r = included_positions(pool, data, paths);
        assert forall|k: int| 0 <= k < r.len() implies first_pos(pool, #[trigger] r[k]) by {
            if before.contains(r[k]) {
                let j = choose|j: int| 0 <= j < before.len() && before[j] == r[k];
            } else {
                let j = choose|j: int| 0 <= j < w.len() && w[j] == r[k];
            }
        };
    }
}

/// A parsed query whose page is the default one is written without the page
/// and reads back the same but with no page.
pub proof fn lemma_default_page_dropped(s: Seq<char>)
    requires
        parse_query(s) is Some,
        parse_query(s)->0.page == Some(Page { number: 1, size: None }),
    ensures
        parse_query(query_text(parse_query(s)->0)) == Some(
            QueryModel { page: None, ..parse_query(s)->0 },
        ),
{
    let m = parse_query(s)->0;
    assert(canonical(empty_model()));
    lemma_params_canonical(empty_model(), split_on(s, '&'));
    let m2 = QueryModel { page: None, ..m };
    assert(page_pieces(m.page) =~= page_pieces(m2.page));
    assert(query_text(m) == query_text(m2));
    lemma_canonical_round_trip(m2);
}

/// No resource is included twice: the included objects of a compound
/// document have pairwise distinct kind and id.
pub proof fn lemma_included_unique(pool: Seq<Object>, data: Seq<Object>, paths: Seq<Seq<Seq<char>>>)
    ensures
        forall|a: int, b: int|
            0 <= a < b < included_positions(pool, data, paths).len() ==> ident(
                #[trigger] at_positions(pool, included_positions(pool, data, paths))[a],
            ) != ident(#[trigger] at_positions(pool, included_positions(pool, data, paths))[b]),
{
    let r = included_positions(pool, data, paths);
    lemma_included_first(pool, data, paths);
    assert forall|a: int, b: int| 0 <= a < b < r.len() implies ident(
        #[trigger] at_positions(pool, r)[a],
    ) != ident(#[trigger] at_positions(pool, r)[b]) by {
        assert(first_pos(pool, r[a]) && first_pos(pool, r[b]));
        assert(r[a] != r[b]);
    };
}

} // verus!
