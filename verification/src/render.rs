//! Namespace-aware text rendering: an element tree back to XML text.  An
//! element is prefixed only where its namespace differs from the default in
//! scope, `xmlns` declarations are emitted where the default changes, and a
//! namespace without a prefix binding at render time is an error.

use vstd::prelude::*;

verus! {

use crate::element::{Attr, Element, Xml};
use crate::element_builder::{bsview, bview};
use crate::text::{escape_seq, opt_view};

/// A rendering failure.
#[derive(Clone, Copy, Debug, PartialEq, Eq, Structural)]
pub enum RenderError {
    /// A namespace in use with no prefix bound to it.
    UnboundPrefix,
}

/// The prefix for a namespace: the innermost binding of that namespace
/// wins.
pub open spec fn prefix_for(b: Seq<(Seq<char>, Seq<char>)>, uri: Seq<char>) -> Option<Seq<char>>
    decreases b.len(),
{
    if b.len() == 0 {
        None
    } else if b.last().1 == uri {
        Some(b.last().0)
    } else {
        prefix_for(b.drop_last(), uri)
    }
}

/// The namespace text an element's prefix is looked up under: its
/// namespace, or empty without one.
pub open spec fn ns_key(ns: Option<Seq<char>>) -> Seq<char> {
    match ns {
        Some(u) => u,
        None => Seq::empty(),
    }
}

/// Whether an attribute map holds an explicit `xmlns` attribute.
pub open spec fn has_xmlns_attr(s: Seq<Attr>) -> bool {
    exists|i: int| 0 <= i < s.len() && #[trigger] s[i].0.0@ == "xmlns"@
}

/// The rendered tag name, prefixed when the element's namespace differs
/// from its default namespace, or none when the prefix is unbound.
pub open spec fn tag_name(e: Element, all: Seq<(Seq<char>, Seq<char>)>) -> Option<Seq<char>> {
    if opt_view(e.ns) != opt_view(e.default_ns) {
        match prefix_for(all, ns_key(opt_view(e.ns))) {
            Some(p) => Some(p + seq![':'] + e.name@),
            None => None,
        }
    } else {
        Some(e.name@)
    }
}

/// The `xmlns` declaration an element carries, if any: only without an
/// explicit `xmlns` attribute, at the root with a namespace, or where the
/// default namespace differs from the parent's.
pub open spec fn xmlns_decl(e: Element, root: bool, pdef: Option<Seq<char>>) -> Seq<char> {
    if !has_xmlns_attr(e.attributes@) {
        if root {
            match opt_view(e.default_ns) {
                Some(d) => seq![' ', 'x', 'm', 'l', 'n', 's', '=', '\''] + d + seq!['\''],
                None => Seq::empty(),
            }
        } else if pdef != opt_view(e.default_ns) {
            seq![' ', 'x', 'm', 'l', 'n', 's', '=', '\''] + ns_key(opt_view(e.default_ns))
                + seq!['\'']
        } else {
            Seq::empty()
        }
    } else {
        Seq::empty()
    }
}

/// One rendered attribute, prefixed when it has a namespace, or none when
/// that prefix is unbound.
pub open spec fn attr_text(a: Attr, all: Seq<(Seq<char>, Seq<char>)>) -> Option<Seq<char>> {
    match opt_view(a.0.1) {
        Some(u) => match prefix_for(all, u) {
            Some(p) => Some(
                seq![' '] + p + seq![':'] + a.0.0@ + seq!['=', '\''] + escape_seq(a.1@)
                    + seq!['\''],
            ),
            None => None,
        },
        None => Some(seq![' '] + a.0.0@ + seq!['=', '\''] + escape_seq(a.1@) + seq!['\'']),
    }
}

/// The rendered attributes, folded left with failure.
pub open spec fn attrs_text_acc(
    acc: Option<Seq<char>>,
    s: Seq<Attr>,
    all: Seq<(Seq<char>, Seq<char>)>,
) -> Option<Seq<char>>
    decreases s.len(),
{
    if s.len() == 0 {
        acc
    } else {
        let a2 = (match (acc, attr_text(s[0], all)) {
            (Some(x), Some(y)) => Some(x + y),
            _ => None,
        });
        attrs_text_acc(a2, s.drop_first(), all)
    }
}

/// The rendered form of an element, or none where a needed prefix is
/// unbound.  The element's own bindings extend the inherited ones; an
/// empty element self-closes; children render in document order.
pub open spec fn render_elem(
    e: Element,
    root: bool,
    pdef: Option<Seq<char>>,
    inh: Seq<(Seq<char>, Seq<char>)>,
) -> Option<Seq<char>>
    decreases e,
{
    let all = inh + bsview(e.prefixes@);
    match tag_name(e, all) {
        None => None,
        Some(nm) => match attrs_text_acc(Some(Seq::empty()), e.attributes@, all) {
            None => None,
            Some(at) => {
                let head = seq!['<'] + nm + xmlns_decl(e, root, pdef) + at;
                if e.children@.len() == 0 {
                    Some(head + seq!['/', '>'])
                } else {
                    match nodes_text_acc(
                        Some(Seq::empty()),
                        e.children@,
                        opt_view(e.default_ns),
                        all,
                    ) {
                        None => None,
                        Some(kids) => Some(
                            head + seq!['>'] + kids + seq!['<', '/'] + nm + seq!['>'],
                        ),
                    }
                }
            },
        },
    }
}

/// One rendered child node.
pub open spec fn node_text(
    x: Xml,
    pdef: Option<Seq<char>>,
    all: Seq<(Seq<char>, Seq<char>)>,
) -> Option<Seq<char>>
    decreases x,
{
    match x {
        Xml::ElementNode(c) => render_elem(c, false, pdef, all),
        Xml::CharacterNode(t) => Some(escape_seq(t@)),
        Xml::CDATANode(t) => Some(
            seq!['<', '!', '[', 'C', 'D', 'A', 'T', 'A', '['] + t@ + seq![']', ']', '>'],
        ),
        Xml::CommentNode(t) => Some(seq!['<', '!', '-', '-'] + t@ + seq!['-', '-', '>']),
        Xml::PINode(t) => Some(seq!['<', '?'] + t@ + seq!['?', '>']),
    }
}

/// The rendered children, folded left with failure.
pub open spec fn nodes_text_acc(
    acc: Option<Seq<char>>,
    s: Seq<Xml>,
    pdef: Option<Seq<char>>,
    all: Seq<(Seq<char>, Seq<char>)>,
) -> Option<Seq<char>>
    decreases s,
{
    if s.len() == 0 {
        acc
    } else {
        let a2 = (match (acc, node_text(s[0], pdef, all)) {
            (Some(x), Some(y)) => Some(x + y),
            _ => None,
        });
        nodes_text_acc(a2, s.drop_first(), pdef, all)
    }
}

proof fn lemma_attrs_text_none(s: Seq<Attr>, all: Seq<(Seq<char>, Seq<char>)>)
    ensures
        attrs_text_acc(None, s, all) is None,
    decreases s.len(),
{
    if s.len() > 0 {
        lemma_attrs_text_none(s.drop_first(), all);
    }
}

proof fn lemma_nodes_text_none(s: Seq<Xml>, pdef: Option<Seq<char>>, all: Seq<(Seq<char>, Seq<char>)>)
    ensures
        nodes_text_acc(None, s, pdef, all) is None,
    decreases s.len(),
{
    if s.len() > 0 {
        lemma_nodes_text_none(s.drop_first(), pdef, all);
    }
}

/// Appends the characters of a string slice.
fn push_chars(out: &mut Vec<char>, s: &str)
    ensures
        final(out)@ == old(out)@ + s@,
{
    let mut cs = crate::text::str_chars(s);
    out.append(&mut cs);
}

/// Finds the prefix for a namespace, exactly as [`prefix_for`] describes
/// it.
fn prefix_for_exec(b: &Vec<(String, String)>, uri: &str) -> (r: Option<String>)
    ensures
        opt_view(r) == prefix_for(bview(*b), uri@),
{
    let mut i: usize = b.len();
    proof {
        assert(bview(*b).take(b@.len() as int) =~= bview(*b));
    }
    while i > 0
        invariant
            i <= b@.len(),
            prefix_for(bview(*b), uri@) == prefix_for(bview(*b).take(i as int), uri@),
        decreases i,
    {
        proof {
            assert(bview(*b).take(i as int).last() == (b@[i - 1].0@, b@[i - 1].1@));
            assert(bview(*b).take(i as int).drop_last() =~= bview(*b).take(i - 1));
        }
        if crate::text::str_eq(b[i - 1].1.as_str(), uri) {
            return Some(b[i - 1].0.clone());
        }
        i = i - 1;
    }
    proof {
        assert(bview(*b).take(0).len() == 0);
    }
    None
}

/// Whether the map holds an explicit `xmlns` attribute, exactly as
/// [`has_xmlns_attr`] describes it.
fn has_xmlns_exec(attrs: &Vec<Attr>) -> (r: bool)
    ensures
        r == has_xmlns_attr(attrs@),
{
    let mut i: usize = 0;
    while i < attrs.len()
        invariant
            i <= attrs@.len(),
            forall|k: int| 0 <= k < i ==> #[trigger] attrs@[k].0.0@ != "xmlns"@,
        decreases attrs@.len() - i,
    {
        if crate::text::str_eq(attrs[i].0.0.as_str(), "xmlns") {
            return true;
        }
        i = i + 1;
    }
    false
}

/// Renders an element's opening text into `out`: the angle bracket, the
/// possibly prefixed tag name, the `xmlns` declaration where one is owed,
/// and the attributes, exactly the head of [`render_elem`].
#[verifier::rlimit(100)]
fn render_open(
    e: &Element,
    root: bool,
    pdef: &Option<String>,
    all: &Vec<(String, String)>,
    out: &mut Vec<char>,
) -> (r: bool)
    ensures
        r ==> (tag_name(*e, bview(*all)) matches Some(nm) && attrs_text_acc(
            Some(Seq::empty()),
            e.attributes@,
            bview(*all),
        ) matches Some(at) && final(out)@ == old(out)@ + (seq!['<'] + nm + xmlns_decl(
            *e,
            root,
            opt_view(*pdef),
        ) + at)),
        !r ==> (tag_name(*e, bview(*all)) is None || attrs_text_acc(
            Some(Seq::empty()),
            e.attributes@,
            bview(*all),
        ) is None),
{
    let ghost allv = bview(*all);
    let ghost base = out@;
    // The tag name, prefixed where the namespace differs from the default.
    out.push('<');
    let ghost nm: Seq<char>;
    if !crate::text::opt_str_eq(&e.ns, &e.default_ns) {
        let key: &str = match &e.ns {
            Some(u) => u.as_str(),
            None => "",
        };
        proof {
            reveal_strlit("");
            assert(key@ =~= ns_key(opt_view(e.ns)));
        }
        match prefix_for_exec(all, key) {
            None => {
                proof {
                    assert(tag_name(*e, allv) is None);
                }
                return false;
            },
            Some(p) => {
                push_chars(out, p.as_str());
                out.push(':');
                push_chars(out, e.name.as_str());
                proof {
                    nm = p@ + seq![':'] + e.name@;
                    assert(tag_name(*e, allv) == Some(nm));
                    assert(out@ =~= base + seq!['<'] + nm);
                }
            },
        }
    } else {
        push_chars(out, e.name.as_str());
        proof {
            nm = e.name@;
            assert(tag_name(*e, allv) == Some(nm));
            assert(out@ =~= base + seq!['<'] + nm);
        }
    }
    // The xmlns declaration, where the default namespace changes.
    if !has_xmlns_exec(&e.attributes) {
        let emit: bool;
        let dtext: &str;
        if root {
            match &e.default_ns {
                Some(d) => {
                    emit = true;
                    dtext = d.as_str();
                },
                None => {
                    emit = false;
                    dtext = "";
                },
            }
        } else if !crate::text::opt_str_eq(pdef, &e.default_ns) {
            emit = true;
            dtext = match &e.default_ns {
                Some(d) => d.as_str(),
                None => "",
            };
        } else {
            emit = false;
            dtext = "";
        }
        if emit {
            push_chars(out, " xmlns='");
            push_chars(out, dtext);
            out.push('\'');
            proof {
                reveal_strlit(" xmlns='");
                reveal_strlit("");
                assert(" xmlns='"@ =~= seq![' ', 'x', 'm', 'l', 'n', 's', '=', '\'']);
                if !root {
                    assert(dtext@ =~= ns_key(opt_view(e.default_ns)));
                }
                assert(out@ =~= base + seq!['<'] + nm + xmlns_decl(*e, root, opt_view(*pdef)));
            }
        } else {
            proof {
                assert(xmlns_decl(*e, root, opt_view(*pdef)) =~= Seq::<char>::empty());
                assert(out@ =~= base + seq!['<'] + nm + xmlns_decl(*e, root, opt_view(*pdef)));
            }
        }
    } else {
        proof {
            assert(out@ =~= base + seq!['<'] + nm + xmlns_decl(*e, root, opt_view(*pdef)));
        }
    }
    // The attributes, in order.
    let ghost abase = out@;
    let mut ai: usize = 0;
    proof {
        assert(out@.skip(abase.len() as int) =~= Seq::<char>::empty());
        assert(e.attributes@.skip(0) =~= e.attributes@);
    }
    while ai < e.attributes.len()
        invariant
            ai <= e.attributes@.len(),
            allv == bview(*all),
            out@.len() >= abase.len(),
            out@.take(abase.len() as int) == abase,
            attrs_text_acc(Some(out@.skip(abase.len() as int)), e.attributes@.skip(ai as int), allv)
                == attrs_text_acc(Some(Seq::empty()), e.attributes@, allv),
        decreases e.attributes@.len() - ai,
    {
        let ghost acc0 = out@.skip(abase.len() as int);
        let ghost arest = e.attributes@.skip(ai as int);
        proof {
            assert(arest[0] == e.attributes@[ai as int]);
            assert(arest.drop_first() =~= e.attributes@.skip(ai + 1 as int));
        }
        out.push(' ');
        match &e.attributes[ai].0.1 {
            Some(u) => {
                match prefix_for_exec(all, u.as_str()) {
                    None => {
                        proof {
                            assert(attr_text(arest[0], allv) is None);
                            lemma_attrs_text_none(arest.drop_first(), allv);
                            assert(attrs_text_acc(Some(Seq::empty()), e.attributes@, allv)
                                is None);
                        }
                        return false;
                    },
                    Some(p) => {
                        push_chars(out, p.as_str());
                        out.push(':');
                    },
                }
            },
            None => {},
        }
        push_chars(out, e.attributes[ai].0.0.as_str());
        out.push('=');
        out.push('\'');
        crate::text::escape_into(e.attributes[ai].1.as_str(), out);
        out.push('\'');
        proof {
            let at = attr_text(arest[0], allv);
            assert(at is Some);
            assert(out@.skip(abase.len() as int) =~= acc0 + at->Some_0);
            assert(out@.take(abase.len() as int) =~= abase);
        }
        ai = ai + 1;
    }
    proof {
        assert(e.attributes@.skip(e.attributes@.len() as int).len() == 0);
        let at_all = out@.skip(abase.len() as int);
        assert(attrs_text_acc(Some(Seq::empty()), e.attributes@, allv) == Some(at_all));
        assert(out@ =~= out@.take(abase.len() as int) + out@.skip(abase.len() as int));
        assert(out@ =~= base + (seq!['<'] + nm + xmlns_decl(*e, root, opt_view(*pdef)) + at_all));
    }
    true
}

/// Renders an element into `out`, exactly as [`render_elem`] describes it;
/// a failed rendering reports an unbound prefix and may leave partial
/// output behind.
#[verifier::rlimit(100)]
fn render_into(
    e: &Element,
    root: bool,
    pdef: &Option<String>,
    inh: &Vec<(String, String)>,
    out: &mut Vec<char>,
) -> (r: bool)
    ensures
        r ==> (render_elem(*e, root, opt_view(*pdef), bview(*inh)) matches Some(s) && final(out)@
            == old(out)@ + s),
        !r ==> render_elem(*e, root, opt_view(*pdef), bview(*inh)) is None,
    decreases *e,
{
    let mut all = crate::element_builder::clone_bindings(inh);
    let mut i: usize = 0;
    proof {
        assert(bview(all) =~= bview(*inh) + bsview(e.prefixes@.take(0)));
    }
    while i < e.prefixes.len()
        invariant
            i <= e.prefixes@.len(),
            bview(all) == bview(*inh) + bsview(e.prefixes@.take(i as int)),
        decreases e.prefixes@.len() - i,
    {
        let k0 = e.prefixes[i].0.clone();
        let k1 = e.prefixes[i].1.clone();
        let ghost apre = all@;
        proof {
            assert(bsview(apre) == bview(*inh) + bsview(e.prefixes@.take(i as int)));
            assert(bsview(apre).len() == apre.len());
            assert(apre.len() == bview(*inh).len() + i);
        }
        all.push((k0, k1));
        proof {
            assert(all@ =~= apre.push((k0, k1)));
            assert(e.prefixes@.take(i + 1 as int) =~= e.prefixes@.take(i as int).push(
                e.prefixes@[i as int],
            ));
            assert forall|k: int| 0 <= k < all@.len() implies #[trigger] bsview(all@)[k] == (bview(
                *inh,
            ) + bsview(e.prefixes@.take(i + 1 as int)))[k] by {
                assert(bsview(all@)[k] == (all@[k].0@, all@[k].1@));
                if k < apre.len() {
                    assert(all@[k] == apre[k]);
                    assert(bsview(apre)[k] == (apre[k].0@, apre[k].1@));
                } else {
                    assert(all@[k] == (k0, k1));
                    assert(bsview(e.prefixes@.take(i + 1 as int))[i as int] == (
                        e.prefixes@[i as int].0@,
                        e.prefixes@[i as int].1@,
                    ));
                }
            }
            assert(bview(all) =~= bview(*inh) + bsview(e.prefixes@.take(i + 1 as int)));
        }
        i = i + 1;
    }
    proof {
        assert(e.prefixes@.take(e.prefixes@.len() as int) =~= e.prefixes@);
    }
    let ghost allv = bview(*inh) + bsview(e.prefixes@);
    proof {
        assert(bview(all) == allv);
    }
    let ghost base = out@;
    if !render_open(e, root, pdef, &all, out) {
        return false;
    }
    let ghost nm = tag_name(*e, allv)->Some_0;
    let ghost at_all = attrs_text_acc(Some(Seq::empty()), e.attributes@, allv)->Some_0;
    let ghost head = seq!['<'] + nm + xmlns_decl(*e, root, opt_view(*pdef)) + at_all;
    // The children, or a self-closing tag.
    if e.children.len() == 0 {
        out.push('/');
        out.push('>');
        proof {
            assert(out@ =~= base + (head + seq!['/', '>']));
        }
        return true;
    }
    out.push('>');
    let ghost kbase = out@;
    let mut ci: usize = 0;
    proof {
        assert(kbase =~= base + head + seq!['>']);
        assert(out@.skip(kbase.len() as int) =~= Seq::<char>::empty());
        assert(e.children@.skip(0) =~= e.children@);
    }
    while ci < e.children.len()
        invariant
            ci <= e.children@.len(),
            bview(all) == allv,
            allv == bview(*inh) + bsview(e.prefixes@),
            tag_name(*e, allv) == Some(nm),
            attrs_text_acc(Some(Seq::empty()), e.attributes@, allv) == Some(at_all),
            e.children@.len() > 0,
            out@.len() >= kbase.len(),
            out@.take(kbase.len() as int) == kbase,
            nodes_text_acc(
                Some(out@.skip(kbase.len() as int)),
                e.children@.skip(ci as int),
                opt_view(e.default_ns),
                allv,
            ) == nodes_text_acc(Some(Seq::empty()), e.children@, opt_view(e.default_ns), allv),
        decreases e.children@.len() - ci,
    {
        proof {
            assert(decreases_to!(*e => e.children));
        }
        let ghost acc0 = out@.skip(kbase.len() as int);
        let ghost crest = e.children@.skip(ci as int);
        proof {
            assert(crest[0] == e.children@[ci as int]);
            assert(crest.drop_first() =~= e.children@.skip(ci + 1 as int));
        }
        match &e.children[ci] {
            Xml::ElementNode(c) => {
                if !render_into(c, false, &e.default_ns, &all, out) {
                    proof {
                        assert(node_text(crest[0], opt_view(e.default_ns), allv) is None);
                        lemma_nodes_text_none(crest.drop_first(), opt_view(e.default_ns), allv);
                        assert(nodes_text_acc(
                            Some(Seq::empty()),
                            e.children@,
                            opt_view(e.default_ns),
                            allv,
                        ) is None);
                        assert(render_elem(*e, root, opt_view(*pdef), bview(*inh)) is None);
                    }
                    return false;
                }
            },
            Xml::CharacterNode(t) => {
                crate::text::escape_into(t.as_str(), out);
            },
            Xml::CDATANode(t) => {
                push_chars(out, "<![CDATA[");
                push_chars(out, t.as_str());
                push_chars(out, "]]>");
                proof {
                    reveal_strlit("<![CDATA[");
                    reveal_strlit("]]>");
                    assert("<![CDATA["@ =~= seq!['<', '!', '[', 'C', 'D', 'A', 'T', 'A', '[']);
                    assert("]]>"@ =~= seq![']', ']', '>']);
                }
            },
            Xml::CommentNode(t) => {
                push_chars(out, "<!--");
                push_chars(out, t.as_str());
                push_chars(out, "-->");
                proof {
                    reveal_strlit("<!--");
                    reveal_strlit("-->");
                    assert("<!--"@ =~= seq!['<', '!', '-', '-']);
                    assert("-->"@ =~= seq!['-', '-', '>']);
                }
            },
            Xml::PINode(t) => {
                push_chars(out, "<?");
                push_chars(out, t.as_str());
                push_chars(out, "?>");
                proof {
                    reveal_strlit("<?");
                    reveal_strlit("?>");
                    assert("<?"@ =~= seq!['<', '?']);
                    assert("?>"@ =~= seq!['?', '>']);
                }
            },
        }
        proof {
            let nt = node_text(crest[0], opt_view(e.default_ns), allv);
            assert(nt is Some);
            assert(out@.skip(kbase.len() as int) =~= acc0 + nt->Some_0);
            assert(out@.take(kbase.len() as int) =~= kbase);
        }
        ci = ci + 1;
    }
    proof {
        assert(e.children@.skip(e.children@.len() as int).len() == 0);
    }
    let ghost kids = out@.skip(kbase.len() as int);
    proof {
        assert(nodes_text_acc(Some(Seq::empty()), e.children@, opt_view(e.default_ns), allv)
            == Some(kids));
        assert(out@ =~= out@.take(kbase.len() as int) + out@.skip(kbase.len() as int));
        assert(out@ =~= kbase + kids);
    }
    // The closing tag, with the same prefix decision as the opening one.
    out.push('<');
    out.push('/');
    if !crate::text::opt_str_eq(&e.ns, &e.default_ns) {
        let key: &str = match &e.ns {
            Some(u) => u.as_str(),
            None => "",
        };
        proof {
            reveal_strlit("");
            assert(key@ =~= ns_key(opt_view(e.ns)));
        }
        match prefix_for_exec(&all, key) {
            None => {
                proof {
                    assert(false);
                }
                return false;
            },
            Some(p) => {
                push_chars(out, p.as_str());
                out.push(':');
                push_chars(out, e.name.as_str());
                proof {
                    assert(p@ + seq![':'] + e.name@ == nm);
                }
            },
        }
    } else {
        push_chars(out, e.name.as_str());
        proof {
            assert(e.name@ == nm);
        }
    }
    out.push('>');
    proof {
        assert(out@ =~= kbase + kids + seq!['<', '/'] + nm + seq!['>']);
        assert(out@ =~= base + (head + seq!['>'] + kids + seq!['<', '/'] + nm + seq!['>']));
        assert(render_elem(*e, root, opt_view(*pdef), bview(*inh)) == Some(
            head + seq!['>'] + kids + seq!['<', '/'] + nm + seq!['>'],
        ));
    }
    true
}

impl Element {
    /// Renders the element and its descendants to XML text, exactly as
    /// [`render_elem`] describes it; fails when a namespace in use has no
    /// prefix bound at render time.
    pub fn to_xml_string(&self) -> (r: Result<String, RenderError>)
        ensures
            match r {
                Ok(s) => render_elem(*self, true, None, Seq::empty()) == Some(s@),
                Err(_) => render_elem(*self, true, None, Seq::empty()) is None,
            },
    {
        let mut out: Vec<char> = Vec::new();
        let none: Option<String> = None;
        let empty: Vec<(String, String)> = Vec::new();
        proof {
            assert(bview(empty) =~= Seq::<(Seq<char>, Seq<char>)>::empty());
        }
        if render_into(self, true, &none, &empty, &mut out) {
            Ok(crate::text::chars_to_string(out.as_slice()))
        } else {
            Err(RenderError::UnboundPrefix)
        }
    }
}

} // verus!
