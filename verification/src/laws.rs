//! Laws of the library, stated and proved once for all inputs: namespace
//! scoping, empty-element equivalence, grouping cardinality, and both
//! halves of chunk-split invariance: a decided token, and a decided parse,
//! are stable under any further input.

use vstd::prelude::*;

verus! {

use crate::element::{elem_eq_spec, in_attrs, pair_eq, xml_eq_spec, Element, Xml};
use crate::text::opt_view;
use crate::element_builder::{
    attrs_view, brun, bstep, elem_view, node_view, nodes_view, resolve, BOut, FrameV, ParseOut,
};
use crate::parser::{
    cdata_open_prefix, comment_open_prefix, first2_at, first3_at, first_at, gtq, lex1, Lex1,
};
use crate::value::{group_entries, group_has, group_ins, group_pairs, groups_acc, value_of_elem, ValueV};

/// Namespace scoping.  A builder frame's binding table is the inherited
/// table extended by the element's own declarations, and closing an element
/// hands its parent's frame back untouched (both ensured by
/// `ElementBuilder::handle_event`).  This lemma supplies the resolution
/// half: a prefix declared in the extension is visible below it, shadowing
/// any inherited binding, and a prefix absent from the extension resolves
/// exactly as it did outside — so a binding made inside a child can never
/// be seen by its parent or by anything that resolved before it.
pub proof fn lemma_prefix_scoping(
    b: Seq<(Seq<char>, Seq<char>)>,
    ext: Seq<(Seq<char>, Seq<char>)>,
    p: Seq<char>,
)
    ensures
        resolve(ext, p) is Some ==> resolve(b + ext, p) == resolve(ext, p),
        resolve(ext, p) is None ==> resolve(b + ext, p) == resolve(b, p),
    decreases ext.len(),
{
    if ext.len() == 0 {
        assert(b + ext =~= b);
    } else {
        assert((b + ext).last() == ext.last());
        assert((b + ext).drop_last() =~= b + ext.drop_last());
        lemma_prefix_scoping(b, ext.drop_last(), p);
    }
}

/// Empty-element equivalence, tree half.  Two elements that agree on name,
/// namespace and resolved attributes and have no children are equal.  For a
/// given start tag the builder pins exactly those fields, and `<a/>` and
/// `<a></a>` lex to the same start and end events, so they build equal
/// elements.
pub proof fn lemma_empty_elements_eq(a: Element, b: Element)
    requires
        a.name@ == b.name@,
        opt_view(a.ns) == opt_view(b.ns),
        attrs_view(a.attributes@) == attrs_view(b.attributes@),
        a.children@.len() == 0,
        b.children@.len() == 0,
    ensures
        elem_eq_spec(a, b),
{
    assert(attrs_view(a.attributes@).len() == a.attributes@.len());
    assert(attrs_view(b.attributes@).len() == b.attributes@.len());
    assert forall|i: int| 0 <= i < a.attributes@.len() implies in_attrs(
        #[trigger] a.attributes@[i],
        b.attributes@,
    ) by {
        assert(attrs_view(a.attributes@)[i] == attrs_view(b.attributes@)[i]);
        assert(pair_eq(a.attributes@[i], b.attributes@[i]));
    }
    assert forall|i: int| 0 <= i < b.attributes@.len() implies in_attrs(
        #[trigger] b.attributes@[i],
        a.attributes@,
    ) by {
        assert(attrs_view(a.attributes@)[i] == attrs_view(b.attributes@)[i]);
        assert(pair_eq(b.attributes@[i], a.attributes@[i]));
    }
}

/// Empty-element equivalence, structured half.  An element with no
/// attributes and no children has the unit structured value, however it was
/// written down.
pub proof fn lemma_empty_element_value(e: Element)
    requires
        e.attributes@.len() == 0,
        e.children@.len() == 0,
    ensures
        value_of_elem(e) == ValueV::Unit,
{
}

/// Grouping cardinality.  In the serialized object, a group of exactly one
/// child carries that child's value alone, and a group of several carries
/// the sequence of their values, in document order.
pub proof fn lemma_grouping_cardinality(g: Seq<(Seq<char>, Seq<ValueV>)>, i: int)
    requires
        0 <= i < g.len(),
    ensures
        g[i].1.len() == 1 ==> group_entries(g)[i] == (g[i].0, g[i].1[0]),
        g[i].1.len() != 1 ==> group_entries(g)[i] == (g[i].0, ValueV::List(g[i].1)),
{
}

proof fn lex_first_at_bounds(s: Seq<char>, i: int, c: char)
    requires
        0 <= i,
    ensures
        first_at(s, i, c) <= s.len(),
        i <= s.len() ==> i <= first_at(s, i, c),
    decreases s.len() - i,
{
    if i < s.len() && s[i] != c {
        lex_first_at_bounds(s, i + 1, c);
    }
}

proof fn lex_first_at_ext(s: Seq<char>, ext: Seq<char>, i: int, c: char)
    requires
        0 <= i,
        first_at(s, i, c) < s.len(),
    ensures
        first_at(s + ext, i, c) == first_at(s, i, c),
    decreases s.len() - i,
{
    assert((s + ext)[i] == s[i]);
    if s[i] != c {
        lex_first_at_ext(s, ext, i + 1, c);
    }
}

proof fn lex_first2_bounds(s: Seq<char>, i: int, c0: char, c1: char)
    requires
        0 <= i,
    ensures
        first2_at(s, i, c0, c1) <= s.len(),
        i <= s.len() ==> i <= first2_at(s, i, c0, c1),
    decreases s.len() - i,
{
    if i + 2 <= s.len() && !(s[i] == c0 && s[i + 1] == c1) {
        lex_first2_bounds(s, i + 1, c0, c1);
    }
}

proof fn lex_first3_bounds(s: Seq<char>, i: int, c0: char, c1: char, c2: char)
    requires
        0 <= i,
    ensures
        first3_at(s, i, c0, c1, c2) <= s.len(),
        i <= s.len() ==> i <= first3_at(s, i, c0, c1, c2),
    decreases s.len() - i,
{
    if i + 3 <= s.len() && !(s[i] == c0 && s[i + 1] == c1 && s[i + 2] == c2) {
        lex_first3_bounds(s, i + 1, c0, c1, c2);
    }
}

proof fn lex_gtq_bounds(s: Seq<char>, i: int, q: Option<char>)
    requires
        0 <= i,
    ensures
        gtq(s, i, q) <= s.len(),
        i <= s.len() ==> i <= gtq(s, i, q),
    decreases s.len() - i,
{
    if i < s.len() {
        match q {
            Some(qc) => {
                if s[i] == qc {
                    lex_gtq_bounds(s, i + 1, None);
                } else {
                    lex_gtq_bounds(s, i + 1, q);
                }
            },
            None => {
                if s[i] == '\'' || s[i] == '"' {
                    lex_gtq_bounds(s, i + 1, Some(s[i]));
                } else if s[i] == '>' {
                } else {
                    lex_gtq_bounds(s, i + 1, None);
                }
            },
        }
    }
}

proof fn lex_first2_ext(s: Seq<char>, ext: Seq<char>, i: int, c0: char, c1: char)
    requires
        0 <= i,
        first2_at(s, i, c0, c1) < s.len(),
    ensures
        first2_at(s + ext, i, c0, c1) == first2_at(s, i, c0, c1),
    decreases s.len() - i,
{
    assert((s + ext)[i] == s[i] && (s + ext)[i + 1] == s[i + 1]);
    if !(s[i] == c0 && s[i + 1] == c1) {
        lex_first2_ext(s, ext, i + 1, c0, c1);
    }
}

proof fn lex_first3_ext(s: Seq<char>, ext: Seq<char>, i: int, c0: char, c1: char, c2: char)
    requires
        0 <= i,
        first3_at(s, i, c0, c1, c2) < s.len(),
    ensures
        first3_at(s + ext, i, c0, c1, c2) == first3_at(s, i, c0, c1, c2),
    decreases s.len() - i,
{
    assert((s + ext)[i] == s[i] && (s + ext)[i + 1] == s[i + 1] && (s + ext)[i + 2] == s[i + 2]);
    if !(s[i] == c0 && s[i + 1] == c1 && s[i + 2] == c2) {
        lex_first3_ext(s, ext, i + 1, c0, c1, c2);
    }
}

proof fn lex_gtq_ext(s: Seq<char>, ext: Seq<char>, i: int, q: Option<char>)
    requires
        0 <= i,
        gtq(s, i, q) < s.len(),
    ensures
        gtq(s + ext, i, q) == gtq(s, i, q),
    decreases s.len() - i,
{
    assert((s + ext)[i] == s[i]);
    match q {
        Some(qc) => {
            if s[i] == qc {
                lex_gtq_ext(s, ext, i + 1, None);
            } else {
                lex_gtq_ext(s, ext, i + 1, q);
            }
        },
        None => {
            if s[i] == '\'' || s[i] == '"' {
                lex_gtq_ext(s, ext, i + 1, Some(s[i]));
            } else if s[i] == '>' {
            } else {
                lex_gtq_ext(s, ext, i + 1, None);
            }
        },
    }
}

/// Chunk-split invariance.  Once the buffered text lexes to an event or an
/// error, feeding more text changes neither the result nor how many
/// characters it consumes.  `Parser::feed_str` only appends to the
/// unconsumed input and `Parser::next_event` leaves the tokenizer untouched
/// while no token is complete and follows `lex1` otherwise, so the event
/// sequence a feeding schedule drains is independent of where the input was
/// split.
pub proof fn lemma_lex1_extend(s: Seq<char>, ext: Seq<char>)
    requires
        !(lex1(s) is More),
    ensures
        lex1(s + ext) == lex1(s),
{
    let u = s + ext;
    assert(s.len() > 0);
    assert(forall|k: int| 0 <= k < s.len() ==> #[trigger] u[k] == s[k]);
    if s[0] != '<' {
        let lt = first_at(s, 0, '<');
        lex_first_at_bounds(s, 0, '<');
        assert(lt < s.len());
        lex_first_at_ext(s, ext, 0, '<');
        assert(u.take(lt) =~= s.take(lt));
    } else if s.len() > 3 && s[1] == '!' && s[2] == '-' && s[3] == '-' {
        let e = first3_at(s, 4, '-', '-', '>');
        lex_first3_bounds(s, 4, '-', '-', '>');
        assert(e < s.len());
        lex_first3_ext(s, ext, 4, '-', '-', '>');
        assert(u.subrange(4, e) =~= s.subrange(4, e));
    } else if s.len() > 8 && s[1] == '!' && s[2] == '[' && s[3] == 'C' && s[4] == 'D' && s[5] == 'A'
        && s[6] == 'T' && s[7] == 'A' && s[8] == '[' {
        let e = first3_at(s, 9, ']', ']', '>');
        lex_first3_bounds(s, 9, ']', ']', '>');
        assert(e < s.len());
        lex_first3_ext(s, ext, 9, ']', ']', '>');
        assert(u.subrange(9, e) =~= s.subrange(9, e));
    } else if s.len() > 1 && s[1] == '!' {
        // A complete but rejected construct: the deviation from both
        // openers is inside `s`, so it stays whatever follows.
        assert(!(comment_open_prefix(s) || cdata_open_prefix(s)));
        assert(!(u.len() > 3 && u[1] == '!' && u[2] == '-' && u[3] == '-')) by {
            if u.len() > 3 && u[1] == '!' && u[2] == '-' && u[3] == '-' {
                if s.len() > 3 {
                    assert(s[2] == '-' && s[3] == '-');
                } else {
                    assert(comment_open_prefix(s));
                }
            }
        }
        assert(!(u.len() > 8 && u[1] == '!' && u[2] == '[' && u[3] == 'C' && u[4] == 'D' && u[5]
            == 'A' && u[6] == 'T' && u[7] == 'A' && u[8] == '[')) by {
            if u.len() > 8 && u[2] == '[' && u[3] == 'C' && u[4] == 'D' && u[5] == 'A' && u[6]
                == 'T' && u[7] == 'A' && u[8] == '[' {
                if s.len() > 8 {
                    assert(s[2] == '[' && s[8] == '[');
                } else {
                    assert(cdata_open_prefix(s));
                }
            }
        }
        assert(!comment_open_prefix(u)) by {
            if comment_open_prefix(u) {
                assert(comment_open_prefix(s));
            }
        }
        assert(!cdata_open_prefix(u)) by {
            if cdata_open_prefix(u) {
                assert(cdata_open_prefix(s));
            }
        }
    } else if s.len() == 1 {
        assert(false);
    } else if s[1] == '?' {
        let e = first2_at(s, 2, '?', '>');
        lex_first2_bounds(s, 2, '?', '>');
        assert(e < s.len());
        lex_first2_ext(s, ext, 2, '?', '>');
        assert(u.subrange(2, e) =~= s.subrange(2, e));
    } else if s[1] == '/' {
        let e = first_at(s, 2, '>');
        lex_first_at_bounds(s, 2, '>');
        assert(e < s.len());
        lex_first_at_ext(s, ext, 2, '>');
        assert(u.subrange(2, e) =~= s.subrange(2, e));
    } else {
        let g = gtq(s, 1, None);
        lex_gtq_bounds(s, 1, None);
        assert(g < s.len());
        lex_gtq_ext(s, ext, 1, None);
        assert(u.subrange(1, g) =~= s.subrange(1, g));
    }
}

/// Grouping, single member.  One named child opens a group of exactly one
/// value, so it serializes under its tag name as a single value.
pub proof fn lemma_group_singleton(n: Seq<char>, v: ValueV)
    ensures
        group_pairs(seq![(n, v)]) == seq![(n, seq![v])],
        group_entries(seq![(n, seq![v])]) == seq![(n, v)],
{
    let ps = seq![(n, v)];
    assert(!group_has(Seq::empty(), n));
    assert(group_ins(Seq::empty(), n, v) =~= seq![(n, seq![v])]);
    assert(ps.drop_first() =~= Seq::<(Seq<char>, ValueV)>::empty());
    assert(groups_acc(group_ins(Seq::empty(), n, v), ps.drop_first()) == group_ins(
        Seq::empty(),
        n,
        v,
    ));
    assert(group_entries(seq![(n, seq![v])]) =~= seq![(n, v)]);
}

/// Grouping, repeated member.  A second child with the same name extends
/// the same group, keeping document order, so the two serialize under the
/// one name as a two-value sequence.
pub proof fn lemma_group_pair(n: Seq<char>, v1: ValueV, v2: ValueV)
    ensures
        group_pairs(seq![(n, v1), (n, v2)]) == seq![(n, seq![v1, v2])],
        group_entries(seq![(n, seq![v1, v2])]) == seq![(n, ValueV::List(seq![v1, v2]))],
{
    let ps = seq![(n, v1), (n, v2)];
    assert(!group_has(Seq::empty(), n));
    let g1 = group_ins(Seq::empty(), n, v1);
    assert(g1 =~= seq![(n, seq![v1])]);
    assert(ps.drop_first() =~= seq![(n, v2)]);
    assert(g1[0].0 == n);
    assert(group_has(g1, n));
    let g2 = group_ins(g1, n, v2);
    let gi = crate::value::group_idx(g1, n);
    assert(0 <= gi < g1.len() && g1[gi].0 == n);
    assert(gi == 0);
    assert(g1[0].1 =~= seq![v1]);
    assert(seq![v1].push(v2) =~= seq![v1, v2]);
    assert(g2 =~~= seq![(n, seq![v1, v2])]);
    assert(ps.drop_first().drop_first() =~= Seq::<(Seq<char>, ValueV)>::empty());
    assert(groups_acc(g2, ps.drop_first().drop_first()) == g2);
    assert(groups_acc(g1, ps.drop_first()) == g2);
    assert(group_pairs(ps) =~~= seq![(n, seq![v1, v2])]);
    assert(group_entries(seq![(n, seq![v1, v2])]) =~~= seq![(n, ValueV::List(seq![v1, v2]))]);
}


/// Chunk-split invariance, whole-document half.  Once the buffered text
/// decides the parse — a completed element or a structural error — feeding
/// any further text cannot change the outcome: the parse of the extended
/// text is the parse of the prefix.  `Element::parse_str` returns exactly
/// [`brun`] of its input, `Parser::feed_str` only appends, and
/// `Parser::next_event` follows [`crate::parser::lex1`], so a document
/// split into chunks in any way yields the same first element or error as
/// the same text fed whole.
pub proof fn lemma_brun_extend(
    s: Seq<char>,
    ext: Seq<char>,
    pend: Option<Seq<char>>,
    fs: Seq<FrameV>,
)
    requires
        !(brun(s, pend, fs) is NoDoc),
    ensures
        brun(s + ext, pend, fs) == brun(s, pend, fs),
    decreases s.len(), (if pend is Some {
        1int
    } else {
        0int
    }),
{
    match pend {
        Some(nm) => {
            let st = bstep(fs, crate::parser::EventV::ElementEnd(nm));
            match st.out {
                BOut::Quiet => {
                    lemma_brun_extend(s, ext, None, st.frames);
                },
                _ => {},
            }
        },
        None => {
            assert(lex1(s) is Tok);
            lemma_lex1_extend(s, ext);
            match lex1(s) {
                Lex1::Tok(ev, n, p2) => {
                    crate::parser::lemma_lex1_consumes(s);
                    let st = bstep(fs, ev);
                    match st.out {
                        BOut::Quiet => {
                            assert((s + ext).skip(n) =~= s.skip(n) + ext);
                            lemma_brun_extend(s.skip(n), ext, p2, st.frames);
                        },
                        _ => {},
                    }
                },
                _ => {},
            }
        },
    }
}


proof fn lemma_nodes_view_len(s: Seq<Xml>)
    ensures
        nodes_view(s).len() == s.len(),
    decreases s.len(),
{
    if s.len() > 0 {
        lemma_nodes_view_len(s.drop_first());
    }
}

proof fn lemma_nodes_view_index(s: Seq<Xml>, i: int)
    requires
        0 <= i < s.len(),
    ensures
        nodes_view(s).len() == s.len(),
        nodes_view(s)[i] == node_view(s[i]),
    decreases i,
{
    lemma_nodes_view_len(s);
    if i > 0 {
        lemma_nodes_view_index(s.drop_first(), i - 1);
    }
}

proof fn lemma_node_view_eq(x: Xml, y: Xml)
    requires
        node_view(x) == node_view(y),
    ensures
        xml_eq_spec(x, y),
    decreases x,
{
    match (x, y) {
        (Xml::ElementNode(a), Xml::ElementNode(b)) => {
            lemma_view_eq_elements_eq(a, b);
        },
        _ => {},
    }
}

/// Elements with the same mathematical shape are equal.  Together with
/// `Element::parse_str` returning exactly [`brun`] of its input, two texts
/// whose parses yield the same shape, `<a/>` and `<a></a>` among them,
/// parse to equal elements.
pub proof fn lemma_view_eq_elements_eq(a: Element, b: Element)
    requires
        elem_view(a) == elem_view(b),
    ensures
        elem_eq_spec(a, b),
    decreases a,
{
    assert(attrs_view(a.attributes@).len() == a.attributes@.len());
    assert(attrs_view(b.attributes@).len() == b.attributes@.len());
    assert forall|i: int| 0 <= i < a.attributes@.len() implies in_attrs(
        #[trigger] a.attributes@[i],
        b.attributes@,
    ) by {
        assert(attrs_view(a.attributes@)[i] == attrs_view(b.attributes@)[i]);
        assert(pair_eq(a.attributes@[i], b.attributes@[i]));
    }
    assert forall|i: int| 0 <= i < b.attributes@.len() implies in_attrs(
        #[trigger] b.attributes@[i],
        a.attributes@,
    ) by {
        assert(attrs_view(a.attributes@)[i] == attrs_view(b.attributes@)[i]);
        assert(pair_eq(b.attributes@[i], a.attributes@[i]));
    }
    lemma_nodes_view_len(a.children@);
    lemma_nodes_view_len(b.children@);
    assert forall|i: int| 0 <= i < a.children@.len() implies xml_eq_spec(
        #[trigger] a.children@[i],
        b.children@[i],
    ) by {
        lemma_nodes_view_index(a.children@, i);
        lemma_nodes_view_index(b.children@, i);
        lemma_node_view_eq(a.children@[i], b.children@[i]);
    }
}

} // verus!
