//! The structured-value serializer: an element tree rendered to a
//! schema-less value, with heuristic type guessing over attribute and text
//! content and grouping of repeated child tags.

use vstd::prelude::*;

verus! {

use crate::element::{Attr, Element, Xml};
use crate::lexical::{
    bool_lit_val, is_bool_lit, is_float, is_float_lit, is_u64_lit, parse_bool, parse_u64,
    split_tokens, tok_split, trim, trim_str, u64_lit_val,
};
use crate::text::lower;
use vstd::string::StringExecFns;

/// A schema-less structured value.  A floating-point result keeps the
/// literal text it was recognized from; turning it into a machine float is
/// the caller's concern.
#[derive(Debug)]
pub enum Value {
    /// An empty element's value.
    Unit,
    /// A boolean literal.
    Bool(bool),
    /// An unsigned integer literal.
    UInt(u64),
    /// A floating-point literal, kept as its text.
    Float(String),
    /// Plain text.
    Str(String),
    /// A sequence of values.
    List(Vec<Value>),
    /// An ordered mapping from keys to values.
    Object(Vec<(String, Value)>),
}

/// The mathematical shape of a structured value.
#[verifier::ext_equal]
pub enum ValueV {
    Unit,
    Bool(bool),
    UInt(u64),
    Float(Seq<char>),
    Str(Seq<char>),
    List(Seq<ValueV>),
    Object(Seq<(Seq<char>, ValueV)>),
}

/// The view of a structured value.
pub open spec fn value_view(v: Value) -> ValueV
    decreases v,
{
    match v {
        Value::Unit => ValueV::Unit,
        Value::Bool(b) => ValueV::Bool(b),
        Value::UInt(u) => ValueV::UInt(u),
        Value::Float(s) => ValueV::Float(s@),
        Value::Str(s) => ValueV::Str(s@),
        Value::List(l) => ValueV::List(values_view(l@)),
        Value::Object(o) => ValueV::Object(pairs_view(o@)),
    }
}

/// The views of a sequence of values.
pub open spec fn values_view(s: Seq<Value>) -> Seq<ValueV>
    decreases s,
{
    if s.len() == 0 {
        Seq::empty()
    } else {
        seq![value_view(s[0])] + values_view(s.drop_first())
    }
}

/// The views of a sequence of key-value entries.
pub open spec fn pairs_view(s: Seq<(String, Value)>) -> Seq<(Seq<char>, ValueV)>
    decreases s,
{
    if s.len() == 0 {
        Seq::empty()
    } else {
        seq![(s[0].0@, value_view(s[0].1))] + pairs_view(s.drop_first())
    }
}

impl View for Value {
    type V = ValueV;

    open spec fn view(&self) -> ValueV {
        value_view(*self)
    }
}

proof fn lemma_values_view_snoc(s: Seq<Value>, x: Value)
    ensures
        values_view(s.push(x)) == values_view(s).push(value_view(x)),
    decreases s.len(),
{
    if s.len() == 0 {
        assert(s.push(x).drop_first() =~= s);
        assert(values_view(s.push(x)) =~= values_view(s).push(value_view(x)));
    } else {
        assert(s.push(x).drop_first() =~= s.drop_first().push(x));
        lemma_values_view_snoc(s.drop_first(), x);
        assert(values_view(s.push(x)) =~= values_view(s).push(value_view(x)));
    }
}

proof fn lemma_values_view_len(s: Seq<Value>)
    ensures
        values_view(s).len() == s.len(),
    decreases s.len(),
{
    if s.len() > 0 {
        lemma_values_view_len(s.drop_first());
    }
}

proof fn lemma_pairs_view_snoc(s: Seq<(String, Value)>, x: (String, Value))
    ensures
        pairs_view(s.push(x)) == pairs_view(s).push((x.0@, value_view(x.1))),
    decreases s.len(),
{
    if s.len() == 0 {
        assert(s.push(x).drop_first() =~= s);
        assert(pairs_view(s.push(x)) =~= pairs_view(s).push((x.0@, value_view(x.1))));
    } else {
        assert(s.push(x).drop_first() =~= s.drop_first().push(x));
        lemma_pairs_view_snoc(s.drop_first(), x);
        assert(pairs_view(s.push(x)) =~= pairs_view(s).push((x.0@, value_view(x.1))));
    }
}

/// The value guessed from a lone text: a boolean, unsigned-integer or
/// floating-point literal, in that order, else the text unchanged.
pub open spec fn guess_v(s: Seq<char>) -> ValueV {
    if is_bool_lit(s) {
        ValueV::Bool(bool_lit_val(s))
    } else if is_u64_lit(s) {
        ValueV::UInt(u64_lit_val(s) as u64)
    } else if is_float_lit(s) {
        ValueV::Float(s)
    } else {
        ValueV::Str(s)
    }
}

/// The entries guessed from an attribute: the single guessed value, or, for
/// a text of exactly two whitespace-separated tokens whose first is a
/// floating-point literal, the number under the key and the folded second
/// token under `<key>_unit`.
pub open spec fn guess_entries(key: Seq<char>, val: Seq<char>) -> Seq<(Seq<char>, ValueV)> {
    if is_bool_lit(val) || is_u64_lit(val) || is_float_lit(val) {
        seq![(key, guess_v(val))]
    } else {
        let toks = tok_split(val);
        if toks.len() == 2 && is_float_lit(toks[0]) {
            seq![(key, ValueV::Float(toks[0])), (key + "_unit"@, ValueV::Str(lower(toks[1])))]
        } else {
            seq![(key, ValueV::Str(val))]
        }
    }
}

/// Guesses the type of a lone text value, as [`guess_v`] describes it.
pub fn type_guess_val(val: &str) -> (r: Value)
    ensures
        r@ == guess_v(val@),
{
    match parse_bool(val) {
        Some(b) => {
            return Value::Bool(b);
        },
        None => {},
    }
    let cs = crate::text::str_chars(val);
    match parse_u64(&cs) {
        Some(u) => {
            return Value::UInt(u);
        },
        None => {},
    }
    if is_float(&cs) {
        return Value::Float(val.to_owned());
    }
    Value::Str(val.to_owned())
}

/// Appends the entries guessed from an attribute, as [`guess_entries`]
/// describes them.
pub fn type_guess(key: &str, val: &str, map: &mut Vec<(String, Value)>)
    ensures
        pairs_view(final(map)@) == pairs_view(old(map)@) + guess_entries(key@, val@),
{
    let ghost mpre = map@;
    let cs = crate::text::str_chars(val);
    let single = parse_bool(val).is_some() || parse_u64(&cs).is_some() || is_float(&cs);
    if single {
        let v = type_guess_val(val);
        map.push((key.to_owned(), v));
        proof {
            lemma_pairs_view_snoc(mpre, (map@.last().0, map@.last().1));
            assert(map@ =~= mpre.push(map@.last()));
            assert(pairs_view(map@) =~= pairs_view(mpre) + guess_entries(key@, val@));
        }
        return ;
    }
    let toks = split_tokens(val);
    if toks.len() == 2 {
        let t0 = crate::text::str_chars(toks[0].as_str());
        proof {
            assert(toks@.map_values(|t: String| t@)[0] == tok_split(val@)[0]);
            assert(toks@.map_values(|t: String| t@)[1] == tok_split(val@)[1]);
        }
        if is_float(&t0) {
            let first = toks[0].clone();
            map.push((key.to_owned(), Value::Float(first)));
            proof {
                lemma_pairs_view_snoc(mpre, (map@.last().0, map@.last().1));
                assert(map@ =~= mpre.push(map@.last()));
            }
            let ghost mmid = map@;
            let mut k2 = key.to_owned();
            k2.append("_unit");
            let unit = crate::text::to_ascii_lower(toks[1].as_str());
            map.push((k2, Value::Str(unit)));
            proof {
                lemma_pairs_view_snoc(mmid, (map@.last().0, map@.last().1));
                assert(map@ =~= mmid.push(map@.last()));
                assert(pairs_view(map@) =~= pairs_view(mpre) + guess_entries(key@, val@));
            }
            return ;
        }
    }
    map.push((key.to_owned(), Value::Str(val.to_owned())));
    proof {
        lemma_pairs_view_snoc(mpre, (map@.last().0, map@.last().1));
        assert(map@ =~= mpre.push(map@.last()));
        assert(pairs_view(map@) =~= pairs_view(mpre) + guess_entries(key@, val@));
    }
}

/// Whether a group list already holds a group named `name`.
pub open spec fn group_has(g: Seq<(Seq<char>, Seq<ValueV>)>, name: Seq<char>) -> bool {
    exists|i: int| 0 <= i < g.len() && #[trigger] g[i].0 == name
}

/// The position of the group named `name`.
pub open spec fn group_idx(g: Seq<(Seq<char>, Seq<ValueV>)>, name: Seq<char>) -> int {
    choose|i: int| 0 <= i < g.len() && #[trigger] g[i].0 == name
}

/// The grouping invariant: group names are unique.
pub open spec fn groups_wf(g: Seq<(Seq<char>, Seq<ValueV>)>) -> bool {
    forall|i: int, j: int| 0 <= i < j < g.len() ==> #[trigger] g[i].0 != #[trigger] g[j].0
}

/// One named value folded into a group list: appended to its group when the
/// name is known, else opening a new group at the end.
pub open spec fn group_ins(g: Seq<(Seq<char>, Seq<ValueV>)>, name: Seq<char>, v: ValueV) -> Seq<
    (Seq<char>, Seq<ValueV>),
> {
    if group_has(g, name) {
        let i = group_idx(g, name);
        g.update(i, (name, g[i].1.push(v)))
    } else {
        g.push((name, seq![v]))
    }
}

/// Named values folded into a group list, left to right.
pub open spec fn groups_acc(g: Seq<(Seq<char>, Seq<ValueV>)>, ps: Seq<(Seq<char>, ValueV)>) -> Seq<
    (Seq<char>, Seq<ValueV>),
>
    decreases ps.len(),
{
    if ps.len() == 0 {
        g
    } else {
        groups_acc(group_ins(g, ps[0].0, ps[0].1), ps.drop_first())
    }
}

/// Named values grouped by name: groups in order of first appearance, each
/// group's members in document order.
pub open spec fn group_pairs(ps: Seq<(Seq<char>, ValueV)>) -> Seq<(Seq<char>, Seq<ValueV>)> {
    groups_acc(Seq::empty(), ps)
}

proof fn lemma_group_idx_unique(g: Seq<(Seq<char>, Seq<ValueV>)>, name: Seq<char>, i: int)
    requires
        groups_wf(g),
        0 <= i < g.len(),
        g[i].0 == name,
    ensures
        group_has(g, name),
        group_idx(g, name) == i,
{
    let j = group_idx(g, name);
    if i < j {
        assert(g[i].0 != g[j].0);
    } else if j < i {
        assert(g[j].0 != g[i].0);
    }
}

proof fn lemma_group_ins_wf(g: Seq<(Seq<char>, Seq<ValueV>)>, name: Seq<char>, v: ValueV)
    requires
        groups_wf(g),
    ensures
        groups_wf(group_ins(g, name, v)),
{
    let t = group_ins(g, name, v);
    if group_has(g, name) {
        assert(forall|k: int| 0 <= k < g.len() ==> #[trigger] t[k].0 == g[k].0);
    } else {
        assert forall|i: int, j: int| 0 <= i < j < t.len() implies #[trigger] t[i].0
            != #[trigger] t[j].0 by {
            if j == g.len() as int {
                if t[i].0 == t[j].0 {
                    assert(g[i].0 == name);
                }
            }
        }
    }
}

/// The values of the element children of `s`, each under its tag name, in
/// document order.
pub open spec fn child_values(s: Seq<Xml>) -> Seq<(Seq<char>, ValueV)>
    decreases s,
{
    if s.len() == 0 {
        Seq::empty()
    } else {
        let rest = child_values(s.drop_first());
        match s[0] {
            Xml::ElementNode(e) => seq![(e.name@, value_of_elem(e))] + rest,
            _ => rest,
        }
    }
}

/// The comment texts of `s`, in document order.
pub open spec fn comment_texts(s: Seq<Xml>) -> Seq<Seq<char>>
    decreases s,
{
    if s.len() == 0 {
        Seq::empty()
    } else {
        let rest = comment_texts(s.drop_first());
        match s[0] {
            Xml::CommentNode(c) => seq![c@] + rest,
            _ => rest,
        }
    }
}

/// The character and CDATA texts of `s`, trimmed of surrounding whitespace,
/// the empty ones dropped, in document order.
pub open spec fn body_texts(s: Seq<Xml>) -> Seq<Seq<char>>
    decreases s,
{
    if s.len() == 0 {
        Seq::empty()
    } else {
        let rest = body_texts(s.drop_first());
        match s[0] {
            Xml::CharacterNode(t) => if trim(t@).len() > 0 {
                seq![trim(t@)] + rest
            } else {
                rest
            },
            Xml::CDATANode(t) => if trim(t@).len() > 0 {
                seq![trim(t@)] + rest
            } else {
                rest
            },
            _ => rest,
        }
    }
}

/// The entries guessed from an attribute map, in insertion order.
pub open spec fn attr_entries_of(s: Seq<Attr>) -> Seq<(Seq<char>, ValueV)>
    decreases s,
{
    if s.len() == 0 {
        Seq::empty()
    } else {
        guess_entries(s[0].0.0@, s[0].1@) + attr_entries_of(s.drop_first())
    }
}

/// A single text, or a sequence of texts, as raw strings.
pub open spec fn single_or_list_str(ts: Seq<Seq<char>>) -> ValueV {
    if ts.len() == 1 {
        ValueV::Str(ts[0])
    } else {
        ValueV::List(ts.map_values(|t: Seq<char>| ValueV::Str(t)))
    }
}

/// One entry per group: the single member's value, or the members as a
/// sequence.
pub open spec fn group_entries(g: Seq<(Seq<char>, Seq<ValueV>)>) -> Seq<(Seq<char>, ValueV)> {
    g.map_values(
        |p: (Seq<char>, Seq<ValueV>)|
            (
                p.0,
                if p.1.len() == 1 {
                    p.1[0]
                } else {
                    ValueV::List(p.1)
                },
            ),
    )
}

/// The `_comment` entry, when any comments exist.
pub open spec fn comment_entry(c: Seq<Seq<char>>) -> Seq<(Seq<char>, ValueV)> {
    if c.len() == 0 {
        Seq::empty()
    } else {
        seq![("_comment"@, single_or_list_str(c))]
    }
}

/// The `_body` entry, when any text fragments survive trimming.
pub open spec fn body_entry(t: Seq<Seq<char>>) -> Seq<(Seq<char>, ValueV)> {
    if t.len() == 0 {
        Seq::empty()
    } else {
        seq![("_body"@, single_or_list_str(t))]
    }
}

/// The structured value of an element: a unit for an empty element; a lone
/// guessed text, or the raw texts, when there are no attributes, element
/// children or comments; else an object of attribute entries, grouped child
/// entries, `_comment` and `_body`.
pub open spec fn value_of_elem(e: Element) -> ValueV
    decreases e,
{
    if e.attributes@.len() == 0 && e.children@.len() == 0 {
        ValueV::Unit
    } else {
        let groups = group_pairs(child_values(e.children@));
        let comments = comment_texts(e.children@);
        let texts = body_texts(e.children@);
        if groups.len() == 0 && comments.len() == 0 && e.attributes@.len() == 0 {
            if texts.len() == 1 {
                guess_v(texts[0])
            } else {
                ValueV::List(texts.map_values(|t: Seq<char>| ValueV::Str(t)))
            }
        } else {
            ValueV::Object(
                attr_entries_of(e.attributes@) + group_entries(groups) + comment_entry(comments)
                    + body_entry(texts),
            )
        }
    }
}

/// The view of an in-progress group list.
pub open spec fn groups_view(m: Seq<(String, Vec<Value>)>) -> Seq<(Seq<char>, Seq<ValueV>)> {
    m.map_values(|p: (String, Vec<Value>)| (p.0@, values_view(p.1@)))
}

/// Folds one named value into a group list, as [`group_ins`] describes it:
/// a repeated name extends its group, a new name opens one.
pub fn map_collect(map: &mut Vec<(String, Vec<Value>)>, k: String, val: Value)
    requires
        groups_wf(groups_view(old(map)@)),
    ensures
        groups_view(final(map)@) == group_ins(groups_view(old(map)@), k@, val@),
        groups_wf(groups_view(final(map)@)),
{
    let ghost g0 = groups_view(map@);
    proof {
        lemma_group_ins_wf(g0, k@, value_view(val));
    }
    let mut i: usize = 0;
    while i < map.len()
        invariant
            i <= map@.len(),
            map@ == old(map)@,
            g0 == groups_view(map@),
            groups_wf(g0),
            forall|j: int| 0 <= j < i ==> #[trigger] g0[j].0 != k@,
        decreases map@.len() - i,
    {
        if crate::text::str_eq(map[i].0.as_str(), k.as_str()) {
            proof {
                assert(g0[i as int].0 == k@);
                lemma_group_idx_unique(g0, k@, i as int);
            }
            let mut entry = map.remove(i);
            let ghost epre = entry;
            entry.1.push(val);
            map.insert(i, entry);
            proof {
                lemma_values_view_snoc(epre.1@, val);
                assert(map@ =~= old(map)@.update(i as int, map@[i as int]));
                assert(values_view(map@[i as int].1@) == g0[i as int].1.push(value_view(val)));
                assert(groups_view(map@) =~~= group_ins(g0, k@, value_view(val)));
            }
            return ;
        }
        proof {
            assert(g0[i as int].0 == map@[i as int].0@);
        }
        i = i + 1;
    }
    proof {
        assert(!group_has(g0, k@));
    }
    let mut vs: Vec<Value> = Vec::new();
    vs.push(val);
    proof {
        assert(vs@.drop_first() =~= Seq::<Value>::empty());
        assert(values_view(vs@.drop_first()) == Seq::<ValueV>::empty());
        assert(values_view(vs@) =~= seq![value_view(val)]);
    }
    map.push((k, vs));
    proof {
        assert(groups_view(map@) =~~= group_ins(g0, k@, value_view(val)));
    }
}

proof fn lemma_groups_acc_snoc(
    g: Seq<(Seq<char>, Seq<ValueV>)>,
    ps: Seq<(Seq<char>, ValueV)>,
    p: (Seq<char>, ValueV),
)
    ensures
        groups_acc(g, ps.push(p)) == group_ins(groups_acc(g, ps), p.0, p.1),
    decreases ps.len(),
{
    let q = ps.push(p);
    if ps.len() == 0 {
        assert(q.drop_first() =~= ps);
        assert(q[0] == p);
        assert(groups_acc(g, q) == groups_acc(group_ins(g, q[0].0, q[0].1), q.drop_first()));
        assert(groups_acc(group_ins(g, p.0, p.1), ps) == group_ins(g, p.0, p.1));
    } else {
        assert(q.drop_first() =~= ps.drop_first().push(p));
        lemma_groups_acc_snoc(group_ins(g, ps[0].0, ps[0].1), ps.drop_first(), p);
        assert(groups_acc(g, q) == groups_acc(group_ins(g, q[0].0, q[0].1), q.drop_first()));
        assert(q[0] == ps[0]);
    }
}

proof fn lemma_child_values_snoc(s: Seq<Xml>, x: Xml)
    ensures
        child_values(s.push(x)) == child_values(s) + (match x {
            Xml::ElementNode(e) => seq![(e.name@, value_of_elem(e))],
            _ => Seq::empty(),
        }),
    decreases s.len(),
{
    let tail = (match x {
        Xml::ElementNode(e) => seq![(e.name@, value_of_elem(e))],
        _ => Seq::<(Seq<char>, ValueV)>::empty(),
    });
    if s.len() == 0 {
        assert(s.push(x).drop_first() =~= s);
        assert(child_values(s.push(x)) =~= child_values(s) + tail);
    } else {
        assert(s.push(x).drop_first() =~= s.drop_first().push(x));
        lemma_child_values_snoc(s.drop_first(), x);
        assert(child_values(s.push(x)) =~= child_values(s) + tail);
    }
}

proof fn lemma_comment_texts_snoc(s: Seq<Xml>, x: Xml)
    ensures
        comment_texts(s.push(x)) == comment_texts(s) + (match x {
            Xml::CommentNode(c) => seq![c@],
            _ => Seq::empty(),
        }),
    decreases s.len(),
{
    let tail = (match x {
        Xml::CommentNode(c) => seq![c@],
        _ => Seq::<Seq<char>>::empty(),
    });
    if s.len() == 0 {
        assert(s.push(x).drop_first() =~= s);
        assert(comment_texts(s.push(x)) =~= comment_texts(s) + tail);
    } else {
        assert(s.push(x).drop_first() =~= s.drop_first().push(x));
        lemma_comment_texts_snoc(s.drop_first(), x);
        assert(comment_texts(s.push(x)) =~= comment_texts(s) + tail);
    }
}

proof fn lemma_body_texts_snoc(s: Seq<Xml>, x: Xml)
    ensures
        body_texts(s.push(x)) == body_texts(s) + (match x {
            Xml::CharacterNode(t) => if trim(t@).len() > 0 {
                seq![trim(t@)]
            } else {
                Seq::empty()
            },
            Xml::CDATANode(t) => if trim(t@).len() > 0 {
                seq![trim(t@)]
            } else {
                Seq::empty()
            },
            _ => Seq::empty(),
        }),
    decreases s.len(),
{
    let tail = (match x {
        Xml::CharacterNode(t) => if trim(t@).len() > 0 {
            seq![trim(t@)]
        } else {
            Seq::<Seq<char>>::empty()
        },
        Xml::CDATANode(t) => if trim(t@).len() > 0 {
            seq![trim(t@)]
        } else {
            Seq::<Seq<char>>::empty()
        },
        _ => Seq::<Seq<char>>::empty(),
    });
    if s.len() == 0 {
        assert(s.push(x).drop_first() =~= s);
        assert(body_texts(s.push(x)) =~= body_texts(s) + tail);
    } else {
        assert(s.push(x).drop_first() =~= s.drop_first().push(x));
        lemma_body_texts_snoc(s.drop_first(), x);
        assert(body_texts(s.push(x)) =~= body_texts(s) + tail);
    }
}

proof fn lemma_attr_entries_snoc(s: Seq<Attr>, x: Attr)
    ensures
        attr_entries_of(s.push(x)) == attr_entries_of(s) + guess_entries(x.0.0@, x.1@),
    decreases s.len(),
{
    if s.len() == 0 {
        assert(s.push(x).drop_first() =~= s);
        assert(attr_entries_of(s.push(x)) =~= attr_entries_of(s) + guess_entries(x.0.0@, x.1@));
    } else {
        assert(s.push(x).drop_first() =~= s.drop_first().push(x));
        lemma_attr_entries_snoc(s.drop_first(), x);
        assert(attr_entries_of(s.push(x)) =~= attr_entries_of(s) + guess_entries(x.0.0@, x.1@));
    }
}

/// Turns texts into raw string values.
fn strs_to_values(ss: Vec<String>) -> (r: Vec<Value>)
    ensures
        values_view(r@) == ss@.map_values(|s: String| s@).map_values(
            |t: Seq<char>| ValueV::Str(t),
        ),
{
    let mut r: Vec<Value> = Vec::new();
    let mut rest = ss;
    let ghost all = rest@;
    proof {
        assert(values_view(r@) =~= Seq::<ValueV>::empty());
        assert(all.take(0).map_values(|s: String| s@).map_values(|t: Seq<char>| ValueV::Str(t))
            =~= Seq::<ValueV>::empty());
    }
    let mut i: usize = 0;
    while i < rest.len()
        invariant
            i <= rest@.len(),
            rest@ == all,
            values_view(r@) == all.take(i as int).map_values(|s: String| s@).map_values(
                |t: Seq<char>| ValueV::Str(t),
            ),
        decreases rest@.len() - i,
    {
        let ghost rpre = r@;
        let v = Value::Str(rest[i].clone());
        r.push(v);
        proof {
            lemma_values_view_snoc(rpre, r@.last());
            assert(all.take(i + 1 as int).map_values(|s: String| s@).map_values(
                |t: Seq<char>| ValueV::Str(t),
            ) =~= all.take(i as int).map_values(|s: String| s@).map_values(
                |t: Seq<char>| ValueV::Str(t),
            ).push(ValueV::Str(all[i as int]@)));
            assert(values_view(r@) =~= all.take(i + 1 as int).map_values(|s: String| s@).map_values(
                |t: Seq<char>| ValueV::Str(t),
            ));
        }
        i = i + 1;
    }
    proof {
        assert(all.take(all.len() as int) =~= all);
    }
    r
}

impl Element {
    /// The structured value of this element, as [`value_of_elem`] describes
    /// it.
    #[verifier::rlimit(100)]
    pub fn to_value(&self) -> (r: Value)
        ensures
            r@ == value_of_elem(*self),
        decreases *self,
    {
        if self.attributes.len() == 0 && self.children.len() == 0 {
            return Value::Unit;
        }
        let mut groups: Vec<(String, Vec<Value>)> = Vec::new();
        let mut comments: Vec<String> = Vec::new();
        let mut texts: Vec<String> = Vec::new();
        let mut i: usize = 0;
        proof {
            assert(self.children@.take(0) =~= Seq::<Xml>::empty());
            assert(groups_view(groups@) =~= Seq::<(Seq<char>, Seq<ValueV>)>::empty());
            assert(comments@.map_values(|c: String| c@) =~= Seq::<Seq<char>>::empty());
            assert(texts@.map_values(|c: String| c@) =~= Seq::<Seq<char>>::empty());
        }
        while i < self.children.len()
            invariant
                i <= self.children@.len(),
                groups_wf(groups_view(groups@)),
                groups_view(groups@) == group_pairs(child_values(self.children@.take(i as int))),
                comments@.map_values(|c: String| c@) == comment_texts(
                    self.children@.take(i as int),
                ),
                texts@.map_values(|c: String| c@) == body_texts(self.children@.take(i as int)),
            decreases self.children@.len() - i,
        {
            proof {
                assert(decreases_to!(*self => self.children));
                assert(self.children@.take(i + 1 as int) =~= self.children@.take(i as int).push(
                    self.children@[i as int],
                ));
                lemma_child_values_snoc(self.children@.take(i as int), self.children@[i as int]);
                lemma_comment_texts_snoc(self.children@.take(i as int), self.children@[i as int]);
                lemma_body_texts_snoc(self.children@.take(i as int), self.children@[i as int]);
            }
            match &self.children[i] {
                Xml::ElementNode(el) => {
                    let v = el.to_value();
                    map_collect(&mut groups, el.name.clone(), v);
                    proof {
                        lemma_groups_acc_snoc(
                            Seq::empty(),
                            child_values(self.children@.take(i as int)),
                            (el.name@, value_of_elem(*el)),
                        );
                        assert(child_values(self.children@.take(i + 1 as int)) =~= child_values(
                            self.children@.take(i as int),
                        ).push((el.name@, value_of_elem(*el))));
                    }
                },
                Xml::CommentNode(c) => {
                    let ghost cpre = comments@;
                    comments.push(c.clone());
                    proof {
                        assert(comments@.map_values(|c: String| c@) =~= cpre.map_values(
                            |c: String| c@,
                        ).push(self.children@[i as int]->CommentNode_0@));
                    }
                },
                Xml::CharacterNode(t) => {
                    let tr = trim_str(t.as_str());
                    if !tr.as_str().is_empty() {
                        let ghost tpre = texts@;
                        texts.push(tr);
                        proof {
                            assert(texts@.map_values(|c: String| c@) =~= tpre.map_values(
                                |c: String| c@,
                            ).push(trim(self.children@[i as int]->CharacterNode_0@)));
                        }
                    } else {
                        proof {
                            assert(trim(self.children@[i as int]->CharacterNode_0@).len() == 0);
                        }
                    }
                },
                Xml::CDATANode(t) => {
                    let tr = trim_str(t.as_str());
                    if !tr.as_str().is_empty() {
                        let ghost tpre = texts@;
                        texts.push(tr);
                        proof {
                            assert(texts@.map_values(|c: String| c@) =~= tpre.map_values(
                                |c: String| c@,
                            ).push(trim(self.children@[i as int]->CDATANode_0@)));
                        }
                    } else {
                        proof {
                            assert(trim(self.children@[i as int]->CDATANode_0@).len() == 0);
                        }
                    }
                },
                Xml::PINode(t) => {},
            }
            i = i + 1;
        }
        proof {
            assert(self.children@.take(self.children@.len() as int) =~= self.children@);
        }
        let ghost gspec = group_pairs(child_values(self.children@));
        let ghost cspec = comment_texts(self.children@);
        let ghost tspec = body_texts(self.children@);
        if groups.len() == 0 && comments.len() == 0 && self.attributes.len() == 0 {
            if texts.len() == 1 {
                let r = type_guess_val(texts[0].as_str());
                proof {
                    assert(texts@.map_values(|c: String| c@)[0] == tspec[0]);
                }
                return r;
            }
            let n = texts.len();
            let vs = strs_to_values(texts);
            let r = Value::List(vs);
            proof {
                assert(tspec.len() == n);
                assert(values_view(vs@) =~= tspec.map_values(|t: Seq<char>| ValueV::Str(t)));
            }
            return r;
        }
        let mut entries: Vec<(String, Value)> = Vec::new();
        proof {
            assert(pairs_view(entries@) =~= Seq::<(Seq<char>, ValueV)>::empty());
            assert(self.attributes@.take(0) =~= Seq::<Attr>::empty());
        }
        let mut ai: usize = 0;
        while ai < self.attributes.len()
            invariant
                ai <= self.attributes@.len(),
                pairs_view(entries@) == attr_entries_of(self.attributes@.take(ai as int)),
            decreases self.attributes@.len() - ai,
        {
            proof {
                assert(self.attributes@.take(ai + 1 as int) =~= self.attributes@.take(
                    ai as int,
                ).push(self.attributes@[ai as int]));
                lemma_attr_entries_snoc(
                    self.attributes@.take(ai as int),
                    self.attributes@[ai as int],
                );
            }
            type_guess(
                self.attributes[ai].0.0.as_str(),
                self.attributes[ai].1.as_str(),
                &mut entries,
            );
            ai = ai + 1;
        }
        proof {
            assert(self.attributes@.take(self.attributes@.len() as int) =~= self.attributes@);
        }
        let ghost gall = groups_view(groups@);
        let gcount = groups.len();
        let mut gi: usize = 0;
        let mut grest = groups;
        while grest.len() > 0
            invariant
                gall.len() == gcount,
                gi + grest@.len() == gall.len(),
                groups_view(grest@) == gall.skip(gi as int),
                pairs_view(entries@) == attr_entries_of(self.attributes@) + group_entries(
                    gall.take(gi as int),
                ),
            decreases grest@.len(),
        {
            let ghost epre = entries@;
            let ghost grpre = grest@;
            let (name, vs) = grest.remove(0);
            proof {
                assert(grest@ =~= grpre.drop_first());
                assert(groups_view(grest@) =~= groups_view(grpre).drop_first());
                assert(groups_view(grpre)[0] == gall[gi as int]);
                assert((name@, values_view(vs@)) == gall[gi as int]);
                lemma_values_view_len(vs@);
            }
            if vs.len() == 1 {
                let mut vs2 = vs;
                let ghost vsall = vs2@;
                let v = vs2.remove(0);
                proof {
                    assert(vsall =~= seq![v]);
                    assert(values_view(vsall.drop_first()) == Seq::<ValueV>::empty());
                    assert(values_view(vsall) =~= seq![value_view(v)]);
                    assert(value_view(v) == gall[gi as int].1[0]);
                }
                entries.push((name, v));
            } else {
                entries.push((name, Value::List(vs)));
            }
            proof {
                lemma_pairs_view_snoc(epre, entries@.last());
                assert(entries@ =~= epre.push(entries@.last()));
                assert(gall.take(gi + 1 as int) =~= gall.take(gi as int).push(gall[gi as int]));
                assert(group_entries(gall.take(gi + 1 as int)) =~= group_entries(
                    gall.take(gi as int),
                ).push(group_entries(gall)[gi as int]));
                assert(pairs_view(entries@) =~= attr_entries_of(self.attributes@) + group_entries(
                    gall.take(gi + 1 as int),
                ));
            }
            gi = gi + 1;
        }
        proof {
            assert(gall.take(gall.len() as int) =~= gall);
        }
        let ghost emid = entries@;
        if comments.len() == 1 {
            let mut cs2 = comments;
            let c = cs2.remove(0);
            proof {
                assert(cs2@ + seq![c] =~= seq![c]);
                assert((cs2@ + seq![c]).map_values(|x: String| x@) == cspec);
                assert(seq![c].map_values(|x: String| x@) =~= seq![c@]);
                assert(c@ == cspec[0]);
            }
            entries.push(("_comment".to_owned(), Value::Str(c)));
        } else if comments.len() > 1 {
            let n = comments.len();
            let vs = strs_to_values(comments);
            proof {
                assert(cspec.len() == n);
                assert(values_view(vs@) =~= cspec.map_values(|t: Seq<char>| ValueV::Str(t)));
            }
            entries.push(("_comment".to_owned(), Value::List(vs)));
        } else {
            proof {
                assert(cspec.len() == 0);
            }
        }
        proof {
            if cspec.len() > 0 {
                lemma_pairs_view_snoc(emid, entries@.last());
                assert(entries@ =~= emid.push(entries@.last()));
                assert(pairs_view(entries@) =~= pairs_view(emid) + comment_entry(cspec));
            } else {
                assert(pairs_view(entries@) =~= pairs_view(emid) + comment_entry(cspec));
            }
        }
        let ghost elast = entries@;
        if texts.len() == 1 {
            let mut ts2 = texts;
            let t = ts2.remove(0);
            proof {
                assert(ts2@ + seq![t] =~= seq![t]);
                assert((ts2@ + seq![t]).map_values(|x: String| x@) == tspec);
                assert(seq![t].map_values(|x: String| x@) =~= seq![t@]);
                assert(t@ == tspec[0]);
            }
            entries.push(("_body".to_owned(), Value::Str(t)));
        } else if texts.len() > 1 {
            let n = texts.len();
            let vs = strs_to_values(texts);
            proof {
                assert(tspec.len() == n);
                assert(values_view(vs@) =~= tspec.map_values(|t: Seq<char>| ValueV::Str(t)));
            }
            entries.push(("_body".to_owned(), Value::List(vs)));
        } else {
            proof {
                assert(tspec.len() == 0);
            }
        }
        proof {
            if tspec.len() > 0 {
                lemma_pairs_view_snoc(elast, entries@.last());
                assert(entries@ =~= elast.push(entries@.last()));
                assert(pairs_view(entries@) =~= pairs_view(elast) + body_entry(tspec));
            } else {
                assert(pairs_view(entries@) =~= pairs_view(elast) + body_entry(tspec));
            }
            assert(pairs_view(entries@) =~= attr_entries_of(self.attributes@) + group_entries(
                gspec,
            ) + comment_entry(cspec) + body_entry(tspec));
        }
        Value::Object(entries)
    }
}

} // verus!
