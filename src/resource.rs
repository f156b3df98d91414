//! Resource objects, relationships and compound-document assembly.

use crate::collections::{map_get, retain_keys, seq_insert_all, OrderedMap, OrderedSet};
use crate::doc::JsonApi;
use crate::fields::{Key, Path};
use crate::query::{Query, QueryModel};
use vstd::prelude::*;

verus! {

/// A JSON-like value, used for attributes and meta information.
#[derive(Debug, PartialEq)]
pub enum Value {
    Null,
    Bool(bool),
    Number(i64),
    String(String),
    Array(Vec<Value>),
    Object(Vec<(Key, Value)>),
}

impl View for Value {
    type V = Value;

    open spec fn view(&self) -> Value {
        *self
    }
}

/// The identity of a resource: its kind and id.
pub type Ident = (Seq<char>, Seq<char>);

/// A reference to a resource by kind and id.
#[derive(Debug, Clone, PartialEq)]
pub struct Identifier {
    pub kind: Key,
    pub id: String,
}

impl View for Identifier {
    type V = Ident;

    open spec fn view(&self) -> Ident {
        (self.kind@, self.id@)
    }
}

impl Identifier {
    /// A copy of this identifier.
    pub fn copy(&self) -> (r: Identifier)
        ensures
            r@ == self@,
    {
        Identifier { kind: self.kind.copy(), id: self.id.clone() }
    }
}

/// The linkage of a relationship: no target, one, or an ordered sequence.
#[derive(Debug, Clone, PartialEq)]
pub enum Linkage {
    Empty,
    One(Identifier),
    Many(Vec<Identifier>),
}

impl View for Linkage {
    type V = Seq<Ident>;

    open spec fn view(&self) -> Seq<Ident> {
        match self {
            Linkage::Empty => Seq::empty(),
            Linkage::One(i) => seq![i@],
            Linkage::Many(v) => v@.map_values(|i: Identifier| i@),
        }
    }
}

/// A resource object: kind, id, attributes and relationships, each map in
/// the order in which it was built.
#[derive(Debug, PartialEq)]
pub struct Object {
    pub kind: Key,
    pub id: String,
    pub attributes: OrderedMap<Key, Value>,
    pub relationships: OrderedMap<Key, Linkage>,
    pub links: OrderedMap<Key, String>,
    pub meta: OrderedMap<Key, Value>,
}

/// The resource object of a creation request, whose id the client may leave
/// to the server.
#[derive(Debug, PartialEq)]
pub struct NewObject {
    pub kind: Key,
    pub id: Option<String>,
    pub attributes: OrderedMap<Key, Value>,
    pub relationships: OrderedMap<Key, Linkage>,
    pub links: OrderedMap<Key, String>,
    pub meta: OrderedMap<Key, Value>,
}

/// The identity of an object.
pub open spec fn ident(o: Object) -> Ident {
    (o.kind@, o.id@)
}

/// The targets of the relationship `name` of `o`, in order.
pub open spec fn rel_targets(o: Object, name: Seq<char>) -> Seq<Ident> {
    match map_get(o.relationships@, name) {
        Some(ids) => ids,
        None => Seq::empty(),
    }
}

/// The targets of the relationship `name` of each object, in order.
pub open spec fn hop(objs: Seq<Object>, name: Seq<char>) -> Seq<Ident>
    decreases objs.len(),
{
    if objs.len() == 0 {
        Seq::empty()
    } else {
        hop(objs.drop_last(), name) + rel_targets(objs.last(), name)
    }
}

/// The position of the first object of `pool` with identity `id`, or -1.
pub open spec fn position_of(pool: Seq<Object>, id: Ident) -> int
    decreases pool.len(),
{
    if pool.len() == 0 {
        -1
    } else {
        let p = position_of(pool.drop_last(), id);
        if p >= 0 {
            p
        } else if ident(pool.last()) == id {
            pool.len() - 1
        } else {
            -1
        }
    }
}

/// The positions in `pool` of the identities of `ids` that it holds, in
/// order.
pub open spec fn found(pool: Seq<Object>, ids: Seq<Ident>) -> Seq<int>
    decreases ids.len(),
{
    if ids.len() == 0 {
        Seq::empty()
    } else {
        let rest = found(pool, ids.drop_last());
        let p = position_of(pool, ids.last());
        if p >= 0 {
            rest.push(p)
        } else {
            rest
        }
    }
}

/// The objects of `pool` at the positions `ps`.
pub open spec fn at_positions(pool: Seq<Object>, ps: Seq<int>) -> Seq<Object> {
    ps.map_values(|p: int| pool[p])
}

/// The positions reached from `start` by following `path` one relationship
/// at a time, each hop's targets in order.
pub open spec fn walk(pool: Seq<Object>, start: Seq<Object>, path: Seq<Seq<char>>) -> Seq<int>
    decreases path.len(),
{
    if path.len() == 0 {
        Seq::empty()
    } else {
        let ps = found(pool, hop(start, path[0]));
        ps + walk(pool, at_positions(pool, ps), path.drop_first())
    }
}

/// The positions of the included objects: those that the paths reach from
/// the primary data, first occurrence first, each once.
pub open spec fn included_positions(
    pool: Seq<Object>,
    data: Seq<Object>,
    paths: Seq<Seq<Seq<char>>>,
) -> Seq<int>
    decreases paths.len(),
{
    if paths.len() == 0 {
        Seq::empty()
    } else {
        seq_insert_all(
            included_positions(pool, data, paths.drop_last()),
            walk(pool, data, paths.last()),
        )
    }
}

/// The identities of a sequence of identifiers.
pub open spec fn ident_views(v: Seq<Identifier>) -> Seq<Ident> {
    v.map_values(|i: Identifier| i@)
}

/// The positions held by a vector, as integers.
pub open spec fn pos_views(v: Seq<usize>) -> Seq<int> {
    v.map_values(|p: usize| p as int)
}

/// Appends copies of the targets of the relationship `name` of `o`.
fn push_targets(out: &mut Vec<Identifier>, o: &Object, name: &Key)
    ensures
        ident_views(final(out)@) == ident_views(old(out)@) + rel_targets(*o, name@),
{
    let ghost start = ident_views(out@);
    match o.relationships.position(name) {
        None => {
            assert(ident_views(out@) =~= start + rel_targets(*o, name@));
        },
        Some(i) => {
            let link = o.relationships.value(i);
            assert(rel_targets(*o, name@) == link@);
            match link {
                Linkage::Empty => {
                    assert(ident_views(out@) =~= start + link@);
                },
                Linkage::One(id) => {
                    let c = id.copy();
                    out.push(c);
                    assert(ident_views(out@) =~= start + link@);
                },
                Linkage::Many(ids) => {
                    let mut j: usize = 0;
                    while j < ids.len()
                        invariant
                            j <= ids@.len(),
                            ident_views(out@) == start + ident_views(ids@).subrange(0, j as int),
                        decreases ids@.len() - j,
                    {
                        let ghost prev = out@;
                        let c = ids[j].copy();
                        out.push(c);
                        assert(ident_views(out@) =~= ident_views(prev).push(c@));
                        assert(ident_views(ids@).subrange(0, j + 1) =~= ident_views(ids@).subrange(
                            0,
                            j as int,
                        ).push(ids@[j as int]@));
                        j = j + 1;
                    }
                    assert(ident_views(ids@).subrange(0, j as int) =~= link@);
                },
            }
        },
    }
}

/// The targets of the relationship `name` of each object of `objs`.
fn hop_objects(objs: &Vec<Object>, name: &Key) -> (r: Vec<Identifier>)
    ensures
        ident_views(r@) == hop(objs@, name@),
{
    let mut out: Vec<Identifier> = Vec::new();
    let mut i: usize = 0;
    assert(ident_views(out@) =~= hop(objs@.subrange(0, 0), name@));
    while i < objs.len()
        invariant
            i <= objs@.len(),
            ident_views(out@) == hop(objs@.subrange(0, i as int), name@),
        decreases objs@.len() - i,
    {
        proof {
            assert(objs@.subrange(0, i + 1).drop_last() =~= objs@.subrange(0, i as int));
        }
        push_targets(&mut out, &objs[i], name);
        i = i + 1;
    }
    assert(objs@.subrange(0, i as int) =~= objs@);
    out
}

/// The targets of the relationship `name` of the objects of `pool` at the
/// positions `ps`.
fn hop_positions(pool: &Vec<Object>, ps: &Vec<usize>, name: &Key) -> (r: Vec<Identifier>)
    requires
        forall|k: int| 0 <= k < ps@.len() ==> (#[trigger] ps@[k]) < pool@.len(),
    ensures
        ident_views(r@) == hop(at_positions(pool@, pos_views(ps@)), name@),
{
    let ghost objs = at_positions(pool@, pos_views(ps@));
    let mut out: Vec<Identifier> = Vec::new();
    let mut i: usize = 0;
    assert(ident_views(out@) =~= hop(objs.subrange(0, 0), name@));
    while i < ps.len()
        invariant
            i <= ps@.len(),
            objs == at_positions(pool@, pos_views(ps@)),
            forall|k: int| 0 <= k < ps@.len() ==> (#[trigger] ps@[k]) < pool@.len(),
            ident_views(out@) == hop(objs.subrange(0, i as int), name@),
        decreases ps@.len() - i,
    {
        proof {
            assert(objs.subrange(0, i + 1).drop_last() =~= objs.subrange(0, i as int));
            assert(objs.subrange(0, i + 1).last() == pool@[ps@[i as int] as int]);
        }
        push_targets(&mut out, &pool[ps[i]], name);
        i = i + 1;
    }
    assert(objs.subrange(0, i as int) =~= objs);
    out
}

proof fn lemma_position_prefix(pool: Seq<Object>, id: Ident, k: int)
    requires
        0 <= k <= pool.len(),
        position_of(pool.subrange(0, k), id) >= 0,
    ensures
        position_of(pool, id) == position_of(pool.subrange(0, k), id),
    decreases pool.len(),
{
    if k < pool.len() {
        assert(pool.drop_last().subrange(0, k) =~= pool.subrange(0, k));
        lemma_position_prefix(pool.drop_last(), id, k);
    } else {
        assert(pool.subrange(0, k) =~= pool);
    }
}

pub proof fn lemma_position_bounds(pool: Seq<Object>, id: Ident)
    ensures
        -1 <= position_of(pool, id) < pool.len(),
        position_of(pool, id) >= 0 ==> ident(pool[position_of(pool, id)]) == id,
    decreases pool.len(),
{
    if pool.len() > 0 {
        lemma_position_bounds(pool.drop_last(), id);
    }
}

/// The position of the first object of `pool` with the identity of `id`.
fn find_object(pool: &Vec<Object>, id: &Identifier) -> (r: Option<usize>)
    ensures
        match r {
            Some(p) => p == position_of(pool@, id@) && p < pool@.len(),
            None => position_of(pool@, id@) == -1,
        },
{
    let mut i: usize = 0;
    assert(pool@.subrange(0, 0) =~= Seq::<Object>::empty());
    while i < pool.len()
        invariant
            i <= pool@.len(),
            position_of(pool@.subrange(0, i as int), id@) == -1,
        decreases pool@.len() - i,
    {
        proof {
            assert(pool@.subrange(0, i + 1).drop_last() =~= pool@.subrange(0, i as int));
        }
        if pool[i].kind.same(&id.kind) && crate::text::str_eq(pool[i].id.as_str(), id.id.as_str()) {
            proof {
                lemma_position_prefix(pool@, id@, i + 1);
            }
            return Some(i);
        }
        i = i + 1;
    }
    assert(pool@.subrange(0, i as int) =~= pool@);
    None
}

/// The positions in `pool` of the identifiers of `ids` that it holds.
fn found_positions(pool: &Vec<Object>, ids: &Vec<Identifier>) -> (r: Vec<usize>)
    ensures
        pos_views(r@) == found(pool@, ident_views(ids@)),
        forall|k: int| 0 <= k < r@.len() ==> (#[trigger] r@[k]) < pool@.len(),
{
    let ghost iv = ident_views(ids@);
    let mut out: Vec<usize> = Vec::new();
    let mut i: usize = 0;
    assert(pos_views(out@) =~= found(pool@, iv.subrange(0, 0)));
    while i < ids.len()
        invariant
            i <= ids@.len(),
            iv == ident_views(ids@),
            pos_views(out@) == found(pool@, iv.subrange(0, i as int)),
            forall|k: int| 0 <= k < out@.len() ==> (#[trigger] out@[k]) < pool@.len(),
        decreases ids@.len() - i,
    {
        proof {
            assert(iv.subrange(0, i + 1).drop_last() =~= iv.subrange(0, i as int));
            assert(iv.subrange(0, i + 1).last() == ids@[i as int]@);
        }
        let ghost prev = out@;
        match find_object(pool, &ids[i]) {
            Some(p) => {
                out.push(p);
                assert(pos_views(out@) =~= pos_views(prev).push(p as int));
            },
            None => {},
        }
        i = i + 1;
    }
    assert(iv.subrange(0, i as int) =~= iv);
    out
}

/// Whether no position occurs twice.
pub open spec fn distinct(v: Seq<usize>) -> bool {
    forall|a: int, b: int| 0 <= a < b < v.len() ==> v[a] != v[b]
}

/// Appends each position of `xs` that `acc` does not hold yet, in order.
fn insert_positions(acc: &mut Vec<usize>, xs: &Vec<usize>, bound: usize)
    requires
        forall|k: int| 0 <= k < old(acc)@.len() ==> (#[trigger] old(acc)@[k]) < bound,
        forall|k: int| 0 <= k < xs@.len() ==> (#[trigger] xs@[k]) < bound,
        distinct(old(acc)@),
    ensures
        pos_views(final(acc)@) == seq_insert_all(pos_views(old(acc)@), pos_views(xs@)),
        forall|k: int| 0 <= k < final(acc)@.len() ==> (#[trigger] final(acc)@[k]) < bound,
        distinct(final(acc)@),
{
    let ghost xv = pos_views(xs@);
    let mut i: usize = 0;
    assert(xv.subrange(0, xv.len() as int) =~= xv);
    while i < xs.len()
        invariant
            i <= xs@.len(),
            xv == pos_views(xs@),
            forall|k: int| 0 <= k < xs@.len() ==> (#[trigger] xs@[k]) < bound,
            forall|k: int| 0 <= k < acc@.len() ==> (#[trigger] acc@[k]) < bound,
            distinct(acc@),
            seq_insert_all(pos_views(old(acc)@), xv) == seq_insert_all(
                pos_views(acc@),
                xv.subrange(i as int, xv.len() as int),
            ),
        decreases xs@.len() - i,
    {
        let x = xs[i];
        let ghost before = pos_views(acc@);
        proof {
            let rest = xv.subrange(i as int, xv.len() as int);
            assert(rest[0] == x as int);
            assert(rest.drop_first() =~= xv.subrange(i + 1, xv.len() as int));
        }
        let mut j: usize = 0;
        let mut present = false;
        while j < acc.len() && !present
            invariant
                j <= acc@.len(),
                present ==> before.contains(x as int),
                !present ==> forall|k: int| 0 <= k < j ==> acc@[k] != x,
                before == pos_views(acc@),
            decreases acc@.len() - j + if present { 0int } else { 1int },
        {
            if acc[j] == x {
                assert(before[j as int] == x as int);
                present = true;
            } else {
                j = j + 1;
            }
        }
        if !present {
            proof {
                assert forall|k: int| 0 <= k < before.len() implies before[k] != x as int by {
                    assert(acc@[k] != x);
                };
            }
            acc.push(x);
            assert(pos_views(acc@) =~= before.push(x as int));
        }
        i = i + 1;
    }
}

/// The positions reached from `data` along `path`.
fn walk_path(pool: &Vec<Object>, data: &Vec<Object>, path: &Path) -> (r: Vec<usize>)
    ensures
        pos_views(r@) == walk(pool@, data@, path@),
        forall|k: int| 0 <= k < r@.len() ==> (#[trigger] r@[k]) < pool@.len(),
{
    let keys = path.keys();
    let n = keys.len();
    let ghost pv = path@;
    if n == 0 {
        let r: Vec<usize> = Vec::new();
        assert(pos_views(r@) =~= Seq::<int>::empty());
        return r;
    }
    assert(pv[0] == keys@[0]@);
    let mut cur = found_positions(pool, &hop_objects(data, &keys[0]));
    let mut acc: Vec<usize> = Vec::new();
    append_positions(&mut acc, &cur);
    assert(pv.drop_first() =~= pv.subrange(1, n as int));
    assert(pos_views(acc@) =~= Seq::<int>::empty() + pos_views(cur@));
    let mut j: usize = 1;
    while j < n
        invariant
            1 <= j <= n,
            n == pv.len(),
            pv == path@,
            key_views_at(keys@, pv),
            forall|k: int| 0 <= k < cur@.len() ==> (#[trigger] cur@[k]) < pool@.len(),
            forall|k: int| 0 <= k < acc@.len() ==> (#[trigger] acc@[k]) < pool@.len(),
            walk(pool@, data@, pv) == pos_views(acc@) + walk(
                pool@,
                at_positions(pool@, pos_views(cur@)),
                pv.subrange(j as int, n as int),
            ),
        decreases n - j,
    {
        let ghost before = pos_views(acc@);
        proof {
            let rest = pv.subrange(j as int, n as int);
            assert(rest[0] == keys@[j as int]@);
            assert(rest.drop_first() =~= pv.subrange(j + 1, n as int));
        }
        let next = found_positions(pool, &hop_positions(pool, &cur, &keys[j]));
        append_positions(&mut acc, &next);
        assert(pos_views(acc@) =~= before + pos_views(next@));
        cur = next;
        j = j + 1;
    }
    proof {
        assert(pv.subrange(n as int, n as int) =~= Seq::<Seq<char>>::empty());
        assert(pos_views(acc@) + Seq::<int>::empty() =~= pos_views(acc@));
    }
    acc
}

/// Whether each key of `keys` has the corresponding segment of `pv` as its name.
pub open spec fn key_views_at(keys: Seq<Key>, pv: Seq<Seq<char>>) -> bool {
    keys.len() == pv.len() && forall|k: int| 0 <= k < keys.len() ==> (#[trigger] keys[k])@ == pv[k]
}

/// Appends the positions `xs`.
fn append_positions(acc: &mut Vec<usize>, xs: &Vec<usize>)
    ensures
        pos_views(final(acc)@) == pos_views(old(acc)@) + pos_views(xs@),
        final(acc)@ == old(acc)@ + xs@,
{
    let mut i: usize = 0;
    while i < xs.len()
        invariant
            i <= xs@.len(),
            acc@ == old(acc)@ + xs@.subrange(0, i as int),
        decreases xs@.len() - i,
    {
        acc.push(xs[i]);
        assert(acc@ =~= old(acc)@ + xs@.subrange(0, i + 1));
        i = i + 1;
    }
    assert(xs@.subrange(0, i as int) =~= xs@);
    assert(pos_views(acc@) =~= pos_views(old(acc)@) + pos_views(xs@));
}

/// The positions in `pool` of the objects that `paths` reach from `data`,
/// first occurrence first, each once.
pub fn included_positions_of(pool: &Vec<Object>, data: &Vec<Object>, paths: &OrderedSet<Path>) -> (r:
    Vec<usize>)
    ensures
        pos_views(r@) == included_positions(pool@, data@, paths@),
        distinct(r@),
        forall|k: int| 0 <= k < r@.len() ==> (#[trigger] r@[k]) < pool@.len(),
{
    let mut acc: Vec<usize> = Vec::new();
    let mut i: usize = 0;
    assert(pos_views(acc@) =~= included_positions(pool@, data@, paths@.subrange(0, 0)));
    while i < paths.len()
        invariant
            i <= paths@.len(),
            pos_views(acc@) == included_positions(pool@, data@, paths@.subrange(0, i as int)),
            distinct(acc@),
            forall|k: int| 0 <= k < acc@.len() ==> (#[trigger] acc@[k]) < pool@.len(),
        decreases paths@.len() - i,
    {
        proof {
            assert(paths@.subrange(0, i + 1).drop_last() =~= paths@.subrange(0, i as int));
        }
        let w = walk_path(pool, data, paths.get(i));
        insert_positions(&mut acc, &w, pool.len());
        i = i + 1;
    }
    assert(paths@.subrange(0, i as int) =~= paths@);
    acc
}

/// Moves the objects of `pool` at the distinct positions `ps` out, in the
/// order of `ps`.
fn take_positions(pool: Vec<Object>, ps: &Vec<usize>) -> (r: Vec<Object>)
    requires
        distinct(ps@),
        forall|k: int| 0 <= k < ps@.len() ==> (#[trigger] ps@[k]) < pool@.len(),
    ensures
        r@ == at_positions(pool@, pos_views(ps@)),
{
    let ghost orig = pool@;
    let n = pool.len();
    let mut pool = pool;
    let mut slots: Vec<Option<Object>> = Vec::new();
    let mut k: usize = 0;
    while k < n
        invariant
            k <= n,
            n == orig.len(),
            pool@ == orig.subrange(k as int, n as int),
            slots@.len() == k,
            forall|q: int| 0 <= q < k ==> (#[trigger] slots@[q]) == Some(orig[q]),
        decreases n - k,
    {
        let o = pool.remove(0);
        slots.push(Some(o));
        assert(pool@ =~= orig.subrange(k + 1, n as int));
        k = k + 1;
    }
    let mut out: Vec<Object> = Vec::new();
    let mut i: usize = 0;
    while i < ps.len()
        invariant
            i <= ps@.len(),
            n == orig.len(),
            slots@.len() == n,
            distinct(ps@),
            forall|k: int| 0 <= k < ps@.len() ==> (#[trigger] ps@[k]) < n,
            forall|q: int|
                0 <= q < n && (forall|t: int| 0 <= t < i ==> ps@[t] != q) ==> (#[trigger] slots@[q])
                    == Some(orig[q]),
            out@ == at_positions(orig, pos_views(ps@)).subrange(0, i as int),
        decreases ps@.len() - i,
    {
        let p = ps[i];
        let ghost before = slots@;
        let slot = slots.remove(p);
        slots.insert(p, None);
        proof {
            assert forall|t: int| 0 <= t < i implies ps@[t] != p by {
                assert(ps@[t] != ps@[i as int]);
            };
            assert(slots@ =~= before.update(p as int, None));
        }
        match slot {
            Some(o) => {
                out.push(o);
                assert(out@ =~= at_positions(orig, pos_views(ps@)).subrange(0, i + 1));
            },
            None => {},
        }
        proof {
            assert forall|q: int|
                0 <= q < n && (forall|t: int| 0 <= t < i + 1 ==> ps@[t] != q) implies (
            #[trigger] slots@[q]) == Some(orig[q]) by {
                assert(ps@[i as int] != q);
            };
        }
        i = i + 1;
    }
    assert(at_positions(orig, pos_views(ps@)).subrange(0, i as int) =~= at_positions(
        orig,
        pos_views(ps@),
    ));
    out
}

/// The attributes of `o` under the fieldsets `fields`: those that the
/// fieldset of its kind names, or all where its kind has none.
pub open spec fn sparse_attributes(
    o: Object,
    fields: Seq<(Seq<char>, Seq<Seq<char>>)>,
) -> Seq<(Seq<char>, Value)> {
    match map_get(fields, o.kind@) {
        Some(names) => retain_keys(o.attributes@, names),
        None => o.attributes@,
    }
}

/// Whether `b` is `a` with its attributes cut to the fieldsets `fields`.
pub open spec fn sparse_of(a: Object, b: Object, fields: Seq<(Seq<char>, Seq<Seq<char>>)>) -> bool {
    &&& b.kind == a.kind
    &&& b.id == a.id
    &&& b.relationships == a.relationships
    &&& b.links == a.links
    &&& b.meta == a.meta
    &&& b.attributes@ == sparse_attributes(a, fields)
}

/// Whether each object of `b` is the one of `a` at its position with its
/// attributes cut to `fields`.
pub open spec fn all_sparse_of(
    a: Seq<Object>,
    b: Seq<Object>,
    fields: Seq<(Seq<char>, Seq<Seq<char>>)>,
) -> bool {
    a.len() == b.len() && forall|i: int| 0 <= i < a.len() ==> sparse_of(a[i], #[trigger] b[i], fields)
}

impl Object {
    /// Cuts the attributes to the fieldset of this object's kind, if
    /// `fields` has one.
    pub fn apply_fieldsets(&mut self, fields: &OrderedMap<Key, OrderedSet<Key>>)
        ensures
            sparse_of(*old(self), *final(self), fields@),
    {
        match fields.position(&self.kind) {
            Some(i) => {
                self.attributes.retain(fields.value(i));
            },
            None => {},
        }
    }
}

/// Cuts the attributes of each object to its kind's fieldset.
fn apply_all(objs: Vec<Object>, fields: &OrderedMap<Key, OrderedSet<Key>>) -> (r: Vec<Object>)
    ensures
        all_sparse_of(objs@, r@, fields@),
{
    let ghost orig = objs@;
    let n = objs.len();
    let mut objs = objs;
    let mut out: Vec<Object> = Vec::new();
    let mut k: usize = 0;
    while k < n
        invariant
            k <= n,
            n == orig.len(),
            objs@ == orig.subrange(k as int, n as int),
            out@.len() == k,
            forall|i: int| 0 <= i < k ==> sparse_of(orig[i], #[trigger] out@[i], fields@),
        decreases n - k,
    {
        let mut o = objs.remove(0);
        o.apply_fieldsets(fields);
        out.push(o);
        assert(objs@ =~= orig.subrange(k + 1, n as int));
        k = k + 1;
    }
    out
}

/// Where in the request an error was found.
#[derive(Debug, Clone, PartialEq)]
pub struct ErrorSource {
    /// A JSON pointer to the member that caused the error.
    pub pointer: Option<String>,
    /// The query parameter that caused the error.
    pub parameter: Option<String>,
}

/// One entry of the `errors` member of a failure document.
#[derive(Debug, PartialEq)]
pub struct ErrorObject {
    pub status: Option<String>,
    pub code: Option<String>,
    pub title: Option<String>,
    pub detail: Option<String>,
    pub source: Option<ErrorSource>,
    pub meta: OrderedMap<Key, Value>,
}

/// The primary data of a document: one resource object, or an ordered
/// sequence of them.
#[derive(Debug, PartialEq)]
pub enum Data {
    Member(Object),
    Collection(Vec<Object>),
}

/// A top-level document: primary data with its included resources, or
/// errors; never both.
#[derive(Debug, PartialEq)]
pub enum Document {
    Success {
        data: Data,
        included: Option<Vec<Object>>,
        links: OrderedMap<Key, String>,
        meta: OrderedMap<Key, Value>,
        jsonapi: JsonApi,
    },
    Failure {
        errors: Vec<ErrorObject>,
        links: OrderedMap<Key, String>,
        meta: OrderedMap<Key, Value>,
        jsonapi: JsonApi,
    },
}

/// Cuts the attributes of the primary `data` and of the related resources
/// `pool` to the query's fieldsets, and picks as included the resources that
/// its paths reach, each once, in the order in which they were first reached.
/// With no paths requested there is no included list.
pub fn assemble(data: Vec<Object>, pool: Vec<Object>, query: &Query) -> (r: (
    Vec<Object>,
    Option<Vec<Object>>,
))
    ensures
        compound_of(data@, pool@, query@, r.0@, r.1),
{
    let included = if query.includes.is_empty() {
        None
    } else {
        let ps = included_positions_of(&pool, &data, &query.includes);
        let objs = take_positions(pool, &ps);
        Some(apply_all(objs, &query.fields))
    };
    let data = apply_all(data, &query.fields);
    (data, included)
}

/// Assembles a compound document whose primary data is the sequence `data`;
/// `pool` holds the related resources (see `assemble`).
pub fn compound(data: Vec<Object>, pool: Vec<Object>, query: &Query) -> (r: Document)
    ensures
        r matches Document::Success {
            data: Data::Collection(d),
            included: inc,
            links: l,
            meta: m,
            jsonapi: j,
        } && compound_of(data@, pool@, query@, d@, inc) && plain_members(l, m, j),
{
    let (d, included) = assemble(data, pool, query);
    Document::Success {
        data: Data::Collection(d),
        included,
        links: OrderedMap::new(),
        meta: OrderedMap::new(),
        jsonapi: JsonApi::default(),
    }
}

/// Assembles a compound document whose primary data is the single object
/// `obj`; `pool` holds the related resources (see `assemble`).
pub fn compound_member(obj: Object, pool: Vec<Object>, query: &Query) -> (r: Document)
    ensures
        r matches Document::Success {
            data: Data::Member(o),
            included: inc,
            links: l,
            meta: m,
            jsonapi: j,
        } && compound_of(seq![obj], pool@, query@, seq![o], inc) && plain_members(l, m, j),
{
    let mut data: Vec<Object> = Vec::new();
    data.push(obj);
    assert(data@ =~= seq![obj]);
    let (d, included) = assemble(data, pool, query);
    let mut d = d;
    let ghost dv = d@;
    let o = d.remove(0);
    assert(dv =~= seq![o]);
    Document::Success {
        data: Data::Member(o),
        included,
        links: OrderedMap::new(),
        meta: OrderedMap::new(),
        jsonapi: JsonApi::default(),
    }
}

/// The capability set through which a domain type takes part in encoding.
/// Each method returns what its spec function names, so that encoding can be
/// stated over them; a verified impl defines the spec functions, and the
/// defaults leave them unknown.
pub trait Resource: Sized {
    /// The resource kind, the same for every value of the type.
    open spec fn spec_kind() -> Seq<char> {
        arbitrary()
    }

    /// The id of this resource.
    open spec fn spec_id(&self) -> Seq<char> {
        arbitrary()
    }

    /// The attributes, in order.
    open spec fn spec_attributes(&self) -> Seq<(Seq<char>, Value)> {
        arbitrary()
    }

    /// The relationships, in order, each with its targets.
    open spec fn spec_relationships(&self) -> Seq<(Seq<char>, Seq<Ident>)> {
        arbitrary()
    }

    /// The resource kind, the same for every value of the type.
    fn kind() -> (r: Key)
        ensures
            r@ == Self::spec_kind();

    /// The id of this resource.
    fn id(&self) -> (r: String)
        ensures
            r@ == self.spec_id();

    /// The attributes, in the order in which they are written out.
    fn attributes(&self) -> (r: OrderedMap<Key, Value>)
        ensures
            r@ == self.spec_attributes();

    /// The relationships, each with its linkage.
    fn relationships(&self) -> (r: OrderedMap<Key, Linkage>)
        ensures
            r@ == self.spec_relationships();
}

/// Whether `o` is the resource object of `r`.
pub open spec fn object_of<T: Resource>(o: Object, r: T) -> bool {
    &&& o.kind@ == T::spec_kind()
    &&& o.id@ == r.spec_id()
    &&& o.attributes@ == r.spec_attributes()
    &&& o.relationships@ == r.spec_relationships()
}

/// The resource object for `r`: its kind, id, attributes and relationships.
pub fn to_object<T: Resource>(r: &T) -> (o: Object)
    ensures
        object_of(o, *r),
{
    Object {
        kind: T::kind(),
        id: r.id(),
        attributes: r.attributes(),
        relationships: r.relationships(),
        links: OrderedMap::new(),
        meta: OrderedMap::new(),
    }
}

/// Whether `objs` are the resource objects of `items`, in order.
pub open spec fn objects_of<T: Resource>(objs: Seq<Object>, items: Seq<T>) -> bool {
    objs.len() == items.len() && forall|i: int| 0 <= i < items.len() ==> object_of(#[trigger] objs[i], items[i])
}

/// Whether a document carries no links and no meta, and the default
/// implementation information: version 1.0, no meta.
pub open spec fn plain_members(
    links: OrderedMap<Key, String>,
    meta: OrderedMap<Key, Value>,
    jsonapi: JsonApi,
) -> bool {
    &&& links@.len() == 0
    &&& meta@.len() == 0
    &&& jsonapi.version == crate::doc::Version::V1
    &&& jsonapi.meta@.len() == 0
}

/// What a compound document holds for the primary objects `objs`, the
/// related objects `pool` and the query `query`.
pub open spec fn compound_of(
    objs: Seq<Object>,
    pool: Seq<Object>,
    query: QueryModel,
    data: Seq<Object>,
    included: Option<Vec<Object>>,
) -> bool {
    &&& all_sparse_of(objs, data, query.fields)
    &&& query.includes.len() == 0 ==> included is None
    &&& query.includes.len() > 0 ==> (included matches Some(v) && all_sparse_of(
        at_positions(pool, included_positions(pool, objs, query.includes)),
        v@,
        query.fields,
    ))
}

/// Encodes `items` as the primary data of a compound document; `related`
/// holds the resource objects that relationships may reach.
pub fn to_doc<T: Resource>(items: &Vec<T>, related: Vec<Object>, query: &Query) -> (r: Document)
    ensures
        r matches Document::Success {
            data: Data::Collection(d),
            included: inc,
            links: l,
            meta: m,
            jsonapi: j,
        } && plain_members(l, m, j) && exists|
            objs: Seq<Object>,
        |
            objects_of(objs, items@) && #[trigger] compound_of(objs, related@, query@, d@, inc),
{
    let mut data: Vec<Object> = Vec::new();
    let mut i: usize = 0;
    while i < items.len()
        invariant
            i <= items@.len(),
            data@.len() == i,
            forall|k: int| 0 <= k < i ==> object_of(#[trigger] data@[k], items@[k]),
        decreases items@.len() - i,
    {
        data.push(to_object(&items[i]));
        i = i + 1;
    }
    let ghost objs = data@;
    let r = compound(data, related, query);
    assert(objects_of(objs, items@));
    r
}

/// Encodes the single resource `item` as the primary data of a compound
/// document; `related` holds the resource objects that relationships may
/// reach.
pub fn to_member_doc<T: Resource>(item: &T, related: Vec<Object>, query: &Query) -> (r: Document)
    ensures
        r matches Document::Success {
            data: Data::Member(o),
            included: inc,
            links: l,
            meta: m,
            jsonapi: j,
        } && plain_members(l, m, j) && exists|
            obj: Object,
        | object_of(obj, *item) && #[trigger] compound_of(seq![obj], related@, query@, seq![o], inc),
{
    let obj = to_object(item);
    let ghost g = obj;
    let r = compound_member(obj, related, query);
    assert(object_of(g, *item));
    r
}

} // verus!
