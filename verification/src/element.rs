//! The element tree: ordered child nodes, namespace-resolved attribute keys,
//! and the operations that preserve the attribute-map invariant (keys unique,
//! insertion order kept).

use vstd::prelude::*;
use vstd::assert_by_contradiction;
use vstd::string::StringExecFns;

use crate::text::{opt_ref_str_eq, opt_ref_view, opt_str_eq, opt_view, str_eq};

verus! {

/// An attribute entry: a `(local name, namespace)` key and a value.
pub type Attr = ((String, Option<String>), String);

/// One child node in an element's ordered child sequence.
#[derive(Debug)]
pub enum Xml {
    /// A child element.
    ElementNode(Element),
    /// Character data.
    CharacterNode(String),
    /// A CDATA section.
    CDATANode(String),
    /// A comment.
    CommentNode(String),
    /// A processing instruction.
    PINode(String),
}

/// An XML element with resolved namespaces.
#[derive(Debug)]
pub struct Element {
    /// The element's name.
    pub name: String,
    /// The element's namespace.
    pub ns: Option<String>,
    /// The element's attributes, in insertion order, with unique keys.
    pub attributes: Vec<Attr>,
    /// The element's child nodes, in document order.
    pub children: Vec<Xml>,
    /// Known namespace prefix bindings, as `(prefix, namespace)` pairs,
    /// outermost binding first.
    pub prefixes: Vec<(String, String)>,
    /// The element's default namespace.
    pub default_ns: Option<String>,
}

/// Whether two attribute keys denote the same qualified name.
pub open spec fn keys_eq(a: (String, Option<String>), b: (String, Option<String>)) -> bool {
    a.0@ == b.0@ && opt_view(a.1) == opt_view(b.1)
}

/// Whether an attribute key is the qualified name `(name, ns)`.
pub open spec fn key_matches(k: (String, Option<String>), name: Seq<char>, ns: Option<
    Seq<char>,
>) -> bool {
    k.0@ == name && opt_view(k.1) == ns
}

/// The attribute-map invariant: all keys distinct.
pub open spec fn attrs_wf(s: Seq<Attr>) -> bool {
    forall|i: int, j: int| 0 <= i < j < s.len() ==> !keys_eq(#[trigger] s[i].0, #[trigger] s[j].0)
}

/// Whether the map holds an attribute with the qualified name `(name, ns)`.
pub open spec fn has_attr(s: Seq<Attr>, name: Seq<char>, ns: Option<Seq<char>>) -> bool {
    exists|i: int| 0 <= i < s.len() && key_matches(#[trigger] s[i].0, name, ns)
}

/// The position of the attribute with the qualified name `(name, ns)`.
pub open spec fn attr_idx(s: Seq<Attr>, name: Seq<char>, ns: Option<Seq<char>>) -> int {
    choose|i: int| 0 <= i < s.len() && key_matches(#[trigger] s[i].0, name, ns)
}

/// The value bound to the qualified name `(name, ns)`, if any.
pub open spec fn attr_lookup(s: Seq<Attr>, name: Seq<char>, ns: Option<Seq<char>>) -> Option<
    Seq<char>,
> {
    if has_attr(s, name, ns) {
        Some(s[attr_idx(s, name, ns)].1@)
    } else {
        None
    }
}

/// One attribute triple folded into an attribute map: a new key is appended,
/// an existing key keeps its place and takes the new value.
pub open spec fn attrs_insert(s: Seq<Attr>, t: (String, Option<String>, String)) -> Seq<Attr> {
    if has_attr(s, t.0@, opt_view(t.1)) {
        let i = attr_idx(s, t.0@, opt_view(t.1));
        s.update(i, (s[i].0, t.2))
    } else {
        s.push(((t.0, t.1), t.2))
    }
}

/// A list of attribute triples folded into an attribute map, left to right.
pub open spec fn ins_all(s: Seq<Attr>, l: Seq<(String, Option<String>, String)>) -> Seq<Attr>
    decreases l.len(),
{
    if l.len() == 0 {
        s
    } else {
        ins_all(attrs_insert(s, l[0]), l.drop_first())
    }
}

/// The attribute map built from a list of attribute triples.
pub open spec fn attrs_from(l: Seq<(String, Option<String>, String)>) -> Seq<Attr> {
    ins_all(Seq::empty(), l)
}

/// The two standard prefix bindings every element starts with: `xml` and
/// `xmlns`, bound to their fixed namespaces.
pub open spec fn std_prefixes(p: Seq<(String, String)>) -> bool {
    &&& p.len() == 2
    &&& p[0].0@ == "xml"@
    &&& p[0].1@ == "http://www.w3.org/XML/1998/namespace"@
    &&& p[1].0@ == "xmlns"@
    &&& p[1].1@ == "http://www.w3.org/2000/xmlns/"@
}

impl Element {
    /// The element's internal invariant: its attribute keys are unique.
    pub open spec fn wf(&self) -> bool {
        attrs_wf(self.attributes@)
    }
}

/// Under the invariant, any two matching positions coincide.
proof fn lemma_match_unique(s: Seq<Attr>, name: Seq<char>, ns: Option<Seq<char>>, i: int, j: int)
    requires
        attrs_wf(s),
        0 <= i < s.len(),
        0 <= j < s.len(),
        key_matches(s[i].0, name, ns),
        key_matches(s[j].0, name, ns),
    ensures
        i == j,
{
    if i < j {
        assert(keys_eq(s[i].0, s[j].0));
    } else if j < i {
        assert(keys_eq(s[j].0, s[i].0));
    }
}

impl Element {
    /// Finds the position of the attribute with the given qualified name.
    fn find_attr(&self, name: &str, ns: Option<&str>) -> (r: Option<usize>)
        requires
            self.wf(),
        ensures
            match r {
                Some(i) => i < self.attributes@.len() && key_matches(
                    self.attributes@[i as int].0,
                    name@,
                    opt_ref_view(ns),
                ) && i == attr_idx(self.attributes@, name@, opt_ref_view(ns)),
                None => !has_attr(self.attributes@, name@, opt_ref_view(ns)),
            },
    {
        let mut i: usize = 0;
        while i < self.attributes.len()
            invariant
                self.wf(),
                i <= self.attributes@.len(),
                forall|j: int|
                    0 <= j < i ==> !key_matches(
                        #[trigger] self.attributes@[j].0,
                        name@,
                        opt_ref_view(ns),
                    ),
            decreases self.attributes@.len() - i,
        {
            let k = &self.attributes[i].0;
            if str_eq(k.0.as_str(), name) && opt_ref_str_eq(ns, &k.1) {
                proof {
                    let w = attr_idx(self.attributes@, name@, opt_ref_view(ns));
                    assert(key_matches(self.attributes@[i as int].0, name@, opt_ref_view(ns)));
                    lemma_match_unique(self.attributes@, name@, opt_ref_view(ns), i as int, w);
                }
                return Some(i);
            }
            i = i + 1;
        }
        None
    }

    /// Creates a new element with the given name and namespace.
    ///
    /// The namespace, when present, also becomes the element's default
    /// namespace, and the `xml` and `xmlns` prefixes are pre-bound to their
    /// standard namespaces.  Attributes are taken as `(name, namespace,
    /// value)` triples in order; a repeated qualified name replaces the
    /// earlier value in place.
    pub fn new(name: String, ns: Option<String>, attrs: Vec<(String, Option<String>, String)>) -> (
        r: Element)
        ensures
            r.wf(),
            r.name == name,
            opt_view(r.ns) == opt_view(ns),
            r.default_ns == ns,
            r.children@.len() == 0,
            r.attributes@ == attrs_from(attrs@),
            std_prefixes(r.prefixes@),
    {
        let mut prefixes: Vec<(String, String)> = Vec::new();
        prefixes.push(("xml".to_owned(), "http://www.w3.org/XML/1998/namespace".to_owned()));
        prefixes.push(("xmlns".to_owned(), "http://www.w3.org/2000/xmlns/".to_owned()));
        let mut e = Element {
            name,
            ns: clone_opt_string(&ns),
            attributes: Vec::new(),
            children: Vec::new(),
            prefixes,
            default_ns: ns,
        };
        let mut rest = attrs;
        let ghost all = rest@;
        proof {
            assert(e.attributes@ =~= Seq::<Attr>::empty());
        }
        while rest.len() > 0
            invariant
                e.wf(),
                e.name == name,
                opt_view(e.ns) == opt_view(ns),
                e.default_ns == ns,
                e.children@.len() == 0,
                std_prefixes(e.prefixes@),
                ins_all(e.attributes@, rest@) == attrs_from(all),
            decreases rest@.len(),
        {
            let ghost spre = e.attributes@;
            let ghost rpre = rest@;
            let (an, ax, av) = rest.remove(0);
            proof {
                assert(an == rpre[0].0 && ax == rpre[0].1 && av == rpre[0].2);
                assert(rest@ =~= rpre.drop_first());
            }
            e.set_attribute(an, ax, av);
            proof {
                assert(e.attributes@ == attrs_insert(spre, rpre[0]));
                assert(ins_all(spre, rpre) == ins_all(e.attributes@, rest@));
            }
        }
        e
    }

    /// Gets the attribute with the given name and namespace, or `None` when
    /// no such attribute exists.
    pub fn get_attribute<'a>(&'a self, name: &str, ns: Option<&str>) -> (r: Option<&'a str>)
        requires
            self.wf(),
        ensures
            match r {
                Some(v) => attr_lookup(self.attributes@, name@, opt_ref_view(ns)) == Some(v@),
                None => attr_lookup(self.attributes@, name@, opt_ref_view(ns)) is None,
            },
    {
        match self.find_attr(name, ns) {
            Some(i) => Some(self.attributes[i].1.as_str()),
            None => None,
        }
    }

    /// Sets the attribute with the given name and namespace and returns the
    /// value it replaces, if any.  A new key is appended at the end; an
    /// existing key keeps its position.
    pub fn set_attribute(&mut self, name: String, ns: Option<String>, value: String) -> (r: Option<
        String,
    >)
        requires
            old(self).wf(),
        ensures
            final(self).wf(),
            final(self).name == old(self).name,
            final(self).ns == old(self).ns,
            final(self).children == old(self).children,
            final(self).prefixes == old(self).prefixes,
            final(self).default_ns == old(self).default_ns,
            match r {
                Some(v) => attr_lookup(old(self).attributes@, name@, opt_view(ns)) == Some(v@),
                None => attr_lookup(old(self).attributes@, name@, opt_view(ns)) is None,
            },
            !has_attr(old(self).attributes@, name@, opt_view(ns)) ==> final(self).attributes@ == old(
                self,
            ).attributes@.push(((name, ns), value)),
            has_attr(old(self).attributes@, name@, opt_view(ns)) ==> final(self).attributes@ == old(
                self,
            ).attributes@.update(
                attr_idx(old(self).attributes@, name@, opt_view(ns)),
                (old(self).attributes@[attr_idx(old(self).attributes@, name@, opt_view(ns))].0,
                value),
            ),
            attr_lookup(final(self).attributes@, name@, opt_view(ns)) == Some(value@),
            forall|n: Seq<char>, x: Option<Seq<char>>|
                !(n == name@ && x == opt_view(ns)) ==> #[trigger] attr_lookup(
                    final(self).attributes@,
                    n,
                    x,
                ) == attr_lookup(old(self).attributes@, n, x),
    {
        let found = self.find_attr(name.as_str(), opt_as_deref(&ns));
        match found {
            Some(i) => {
                let old_pair = self.attributes.remove(i);
                self.attributes.insert(i, (old_pair.0, value));
                proof {
                    let s0 = old(self).attributes@;
                    let idx = attr_idx(s0, name@, opt_view(ns));
                    assert(self.attributes@ =~= s0.update(idx, (s0[idx].0, value)));
                    lemma_set_existing(s0, name@, opt_view(ns), value);
                }
                Some(old_pair.1)
            },
            None => {
                proof {
                    lemma_set_new(old(self).attributes@, name@, opt_view(ns), name, ns, value);
                }
                self.attributes.push(((name, ns), value));
                None
            },
        }
    }

    /// Removes the attribute with the given name and namespace and returns
    /// its value, if any.  The other attributes keep their order.
    pub fn remove_attribute(&mut self, name: &str, ns: Option<&str>) -> (r: Option<String>)
        requires
            old(self).wf(),
        ensures
            final(self).wf(),
            final(self).name == old(self).name,
            final(self).ns == old(self).ns,
            final(self).children == old(self).children,
            final(self).prefixes == old(self).prefixes,
            final(self).default_ns == old(self).default_ns,
            match r {
                Some(v) => attr_lookup(old(self).attributes@, name@, opt_ref_view(ns)) == Some(v@)
                    && final(self).attributes@ == old(self).attributes@.remove(
                    attr_idx(old(self).attributes@, name@, opt_ref_view(ns)),
                ),
                None => attr_lookup(old(self).attributes@, name@, opt_ref_view(ns)) is None
                    && final(self).attributes@ == old(self).attributes@,
            },
            attr_lookup(final(self).attributes@, name@, opt_ref_view(ns)) is None,
            forall|n: Seq<char>, x: Option<Seq<char>>|
                !(n == name@ && x == opt_ref_view(ns)) ==> #[trigger] attr_lookup(
                    final(self).attributes@,
                    n,
                    x,
                ) == attr_lookup(old(self).attributes@, n, x),
    {
        match self.find_attr(name, ns) {
            Some(i) => {
                proof {
                    lemma_remove(self.attributes@, name@, opt_ref_view(ns));
                }
                let pair = self.attributes.remove(i);
                Some(pair.1)
            },
            None => None,
        }
    }
}

/// Clones an optional string, keeping its characters.
pub fn clone_opt_string(o: &Option<String>) -> (r: Option<String>)
    ensures
        opt_view(r) == opt_view(*o),
{
    match o {
        Some(s) => Some(s.clone()),
        None => None,
    }
}

/// Borrows an optional string as an optional slice.
pub fn opt_as_deref(o: &Option<String>) -> (r: Option<&str>)
    ensures
        opt_ref_view(r) == opt_view(*o),
{
    match o {
        Some(s) => Some(s.as_str()),
        None => None,
    }
}

proof fn lemma_set_existing(s: Seq<Attr>, name: Seq<char>, ns: Option<Seq<char>>, value: String)
    requires
        attrs_wf(s),
        has_attr(s, name, ns),
    ensures
        ({
            let idx = attr_idx(s, name, ns);
            let t = s.update(idx, (s[idx].0, value));
            &&& attrs_wf(t)
            &&& attr_lookup(t, name, ns) == Some(value@)
            &&& forall|n: Seq<char>, x: Option<Seq<char>>|
                !(n == name && x == ns) ==> #[trigger] attr_lookup(t, n, x) == attr_lookup(s, n, x)
        }),
{
    let idx = attr_idx(s, name, ns);
    let t = s.update(idx, (s[idx].0, value));
    assert(forall|i: int| 0 <= i < s.len() ==> #[trigger] t[i].0 == s[i].0);
    assert(attrs_wf(t));
    assert(key_matches(t[idx].0, name, ns));
    lemma_match_unique(t, name, ns, idx, attr_idx(t, name, ns));
    assert(attr_lookup(t, name, ns) == Some(value@));
    assert forall|n: Seq<char>, x: Option<Seq<char>>| !(n == name && x == ns) implies #[trigger] attr_lookup(
        t,
        n,
        x,
    ) == attr_lookup(s, n, x) by {
        if has_attr(s, n, x) {
            let i = attr_idx(s, n, x);
            assert(key_matches(t[i].0, n, x));
            assert(has_attr(t, n, x));
            lemma_match_unique(t, n, x, i, attr_idx(t, n, x));
            if i == idx {
                assert(key_matches(s[idx].0, name, ns) && key_matches(s[idx].0, n, x));
                assert(n == name && x == ns);
            }
            assert(attr_lookup(t, n, x) == attr_lookup(s, n, x));
        } else {
            if has_attr(t, n, x) {
                let i = attr_idx(t, n, x);
                if i == idx {
                    assert(key_matches(s[idx].0, n, x));
                } else {
                    assert(key_matches(s[i].0, n, x));
                }
                assert(false);
            }
        }
    }
}

proof fn lemma_set_new(
    s: Seq<Attr>,
    name: Seq<char>,
    ns: Option<Seq<char>>,
    kname: String,
    kns: Option<String>,
    value: String,
)
    requires
        attrs_wf(s),
        !has_attr(s, name, ns),
        kname@ == name,
        opt_view(kns) == ns,
    ensures
        ({
            let t = s.push(((kname, kns), value));
            &&& attrs_wf(t)
            &&& attr_lookup(t, name, ns) == Some(value@)
            &&& forall|n: Seq<char>, x: Option<Seq<char>>|
                !(n == name && x == ns) ==> #[trigger] attr_lookup(t, n, x) == attr_lookup(s, n, x)
        }),
{
    let t = s.push(((kname, kns), value));
    assert forall|i: int, j: int| 0 <= i < j < t.len() implies !keys_eq(
        #[trigger] t[i].0,
        #[trigger] t[j].0,
    ) by {
        if j == s.len() as int {
            if keys_eq(t[i].0, t[j].0) {
                assert(key_matches(s[i].0, name, ns));
            }
        }
    }
    let j = s.len() as int;
    assert(key_matches(t[j].0, name, ns));
    lemma_match_unique(t, name, ns, j, attr_idx(t, name, ns));
    assert forall|n: Seq<char>, x: Option<Seq<char>>| !(n == name && x == ns) implies #[trigger] attr_lookup(
        t,
        n,
        x,
    ) == attr_lookup(s, n, x) by {
        if has_attr(s, n, x) {
            let i = attr_idx(s, n, x);
            assert(key_matches(t[i].0, n, x));
            lemma_match_unique(t, n, x, i, attr_idx(t, n, x));
        } else {
            if has_attr(t, n, x) {
                let i = attr_idx(t, n, x);
                if i < j {
                    assert(key_matches(s[i].0, n, x));
                } else {
                    assert(n == name && x == ns);
                }
                assert(false);
            }
        }
    }
}

proof fn lemma_remove(s: Seq<Attr>, name: Seq<char>, ns: Option<Seq<char>>)
    requires
        attrs_wf(s),
        has_attr(s, name, ns),
    ensures
        ({
            let idx = attr_idx(s, name, ns);
            let t = s.remove(idx);
            &&& attrs_wf(t)
            &&& attr_lookup(t, name, ns) is None
            &&& forall|n: Seq<char>, x: Option<Seq<char>>|
                !(n == name && x == ns) ==> #[trigger] attr_lookup(t, n, x) == attr_lookup(s, n, x)
        }),
{
    let idx = attr_idx(s, name, ns);
    let t = s.remove(idx);
    assert(forall|i: int| 0 <= i < idx ==> #[trigger] t[i] == s[i]);
    assert(forall|i: int| idx <= i < t.len() ==> #[trigger] t[i] == s[i + 1]);
    assert forall|i: int, j: int| 0 <= i < j < t.len() implies !keys_eq(
        #[trigger] t[i].0,
        #[trigger] t[j].0,
    ) by {
        let si = if i < idx {
            i
        } else {
            i + 1
        };
        let sj = if j < idx {
            j
        } else {
            j + 1
        };
        assert(t[i] == s[si] && t[j] == s[sj]);
    }
    if has_attr(t, name, ns) {
        let i = attr_idx(t, name, ns);
        let si = if i < idx {
            i
        } else {
            i + 1
        };
        assert(key_matches(s[si].0, name, ns));
        lemma_match_unique(s, name, ns, si, idx);
        assert(false);
    }
    assert forall|n: Seq<char>, x: Option<Seq<char>>| !(n == name && x == ns) implies #[trigger] attr_lookup(
        t,
        n,
        x,
    ) == attr_lookup(s, n, x) by {
        if has_attr(s, n, x) {
            let i = attr_idx(s, n, x);
            if i == idx {
                assert(key_matches(s[idx].0, name, ns) && key_matches(s[idx].0, n, x));
            } else {
                let ti = if i < idx {
                    i
                } else {
                    i - 1
                };
                assert(t[ti] == s[i]);
                assert(key_matches(t[ti].0, n, x));
                lemma_match_unique(t, n, x, ti, attr_idx(t, n, x));
            }
        } else {
            if has_attr(t, n, x) {
                let i = attr_idx(t, n, x);
                let si = if i < idx {
                    i
                } else {
                    i + 1
                };
                assert(t[i] == s[si]);
                assert(key_matches(s[si].0, n, x));
                assert(false);
            }
        }
    }
}


/// The text content of one node: character data and CDATA, elements
/// recursively, nothing for comments and processing instructions.
pub open spec fn node_content(x: Xml) -> Seq<char>
    decreases x,
{
    match x {
        Xml::ElementNode(e) => elem_content(e),
        Xml::CharacterNode(s) => s@,
        Xml::CDATANode(s) => s@,
        Xml::CommentNode(s) => Seq::empty(),
        Xml::PINode(s) => Seq::empty(),
    }
}

/// The concatenated text content of a node sequence, in document order.
pub open spec fn nodes_content(s: Seq<Xml>) -> Seq<char>
    decreases s,
{
    if s.len() == 0 {
        Seq::empty()
    } else {
        node_content(s[0]) + nodes_content(s.drop_first())
    }
}

/// The concatenated text content of an element's children.
pub open spec fn elem_content(e: Element) -> Seq<char>
    decreases e,
{
    nodes_content(e.children@)
}

proof fn lemma_nodes_content_snoc(s: Seq<Xml>, x: Xml)
    ensures
        nodes_content(s.push(x)) == nodes_content(s) + node_content(x),
    decreases s.len(),
{
    if s.len() == 0 {
        assert(s.push(x).drop_first() =~= s);
        assert(nodes_content(s.push(x)) =~= nodes_content(s) + node_content(x));
    } else {
        assert(s.push(x).drop_first() =~= s.drop_first().push(x));
        lemma_nodes_content_snoc(s.drop_first(), x);
        assert(nodes_content(s.push(x)) =~= nodes_content(s) + node_content(x));
    }
}

/// The element children of `s` whose name and namespace are `(name, ns)`,
/// in document order.
pub open spec fn matching_children(s: Seq<Xml>, name: Seq<char>, ns: Option<Seq<char>>) -> Seq<
    Element,
>
    decreases s.len(),
{
    if s.len() == 0 {
        Seq::empty()
    } else {
        let rest = matching_children(s.drop_first(), name, ns);
        match s[0] {
            Xml::ElementNode(e) => {
                if e.name@ == name && opt_view(e.ns) == ns {
                    seq![e] + rest
                } else {
                    rest
                }
            },
            _ => rest,
        }
    }
}

proof fn lemma_matching_snoc(s: Seq<Xml>, x: Xml, name: Seq<char>, ns: Option<Seq<char>>)
    ensures
        matching_children(s.push(x), name, ns) == matching_children(s, name, ns) + (match x {
            Xml::ElementNode(e) => if e.name@ == name && opt_view(e.ns) == ns {
                seq![e]
            } else {
                Seq::empty()
            },
            _ => Seq::empty(),
        }),
    decreases s.len(),
{
    let tail = (match x {
        Xml::ElementNode(e) => if e.name@ == name && opt_view(e.ns) == ns {
            seq![e]
        } else {
            Seq::empty()
        },
        _ => Seq::empty(),
    });
    if s.len() == 0 {
        assert(s.push(x).drop_first() =~= s);
        assert(matching_children(s.push(x), name, ns) =~= matching_children(s, name, ns) + tail);
    } else {
        assert(s.push(x).drop_first() =~= s.drop_first().push(x));
        lemma_matching_snoc(s.drop_first(), x, name, ns);
        assert(matching_children(s.push(x), name, ns) =~= matching_children(s, name, ns) + tail);
    }
}

/// The element children of another element, filtered by name and namespace.
pub struct ChildElements<'a> {
    elems: Vec<&'a Element>,
    at: usize,
}

impl<'a> ChildElements<'a> {
    /// The matching elements not yet handed out.
    pub closed spec fn remaining(&self) -> Seq<Element> {
        let m = self.elems@.map_values(|e: &Element| *e);
        if self.at as int <= m.len() {
            m.skip(self.at as int)
        } else {
            Seq::empty()
        }
    }

    /// Hands out the next matching element, front to back.
    pub fn next(&mut self) -> (r: Option<&'a Element>)
        ensures
            match r {
                Some(e) => old(self).remaining().len() > 0 && *e == old(self).remaining()[0]
                    && final(self).remaining() == old(self).remaining().drop_first(),
                None => old(self).remaining().len() == 0 && final(self).remaining() == old(
                    self,
                ).remaining(),
            },
    {
        if self.at < self.elems.len() {
            let e = self.elems[self.at];
            self.at = self.at + 1;
            proof {
                let m = self.elems@.map_values(|e: &Element| *e);
                assert(m.skip(self.at - 1).drop_first() =~= m.skip(self.at as int));
                assert(m.skip(self.at - 1)[0] == m[self.at - 1]);
            }
            Some(e)
        } else {
            proof {
                let m = self.elems@.map_values(|e: &Element| *e);
                if self.at as int <= m.len() {
                    assert(m.skip(self.at as int).len() == 0);
                }
            }
            None
        }
    }
}

impl Element {
    /// Returns the character data and CDATA contained in the element and
    /// its descendants, in document order.
    pub fn content_str(&self) -> (r: String)
        ensures
            r@ == elem_content(*self),
        decreases *self,
    {
        let mut res = String::new();
        let mut i: usize = 0;
        proof {
            assert(nodes_content(self.children@.subrange(0, 0)) =~= Seq::<char>::empty());
        }
        while i < self.children.len()
            invariant
                i <= self.children@.len(),
                res@ == nodes_content(self.children@.subrange(0, i as int)),
            decreases self.children@.len() - i,
        {
            proof {
                assert(decreases_to!(*self => self.children));
            }
            match &self.children[i] {
                Xml::ElementNode(e) => {
                    let sub = e.content_str();
                    res.append(sub.as_str());
                },
                Xml::CharacterNode(d) => {
                    res.append(d.as_str());
                },
                Xml::CDATANode(d) => {
                    res.append(d.as_str());
                },
                Xml::CommentNode(d) => {},
                Xml::PINode(d) => {},
            }
            proof {
                lemma_nodes_content_snoc(
                    self.children@.subrange(0, i as int),
                    self.children@[i as int],
                );
                assert(self.children@.subrange(0, i + 1 as int) =~= self.children@.subrange(
                    0,
                    i as int,
                ).push(self.children@[i as int]));
            }
            i = i + 1;
        }
        proof {
            assert(self.children@.subrange(0, self.children@.len() as int) =~= self.children@);
        }
        res
    }

    /// Gets the first child element with the given name and namespace, or
    /// `None` when no such child exists.
    pub fn get_child<'a>(&'a self, name: &str, ns: Option<&str>) -> (r: Option<&'a Element>)
        ensures
            match r {
                Some(e) => matching_children(self.children@, name@, opt_ref_view(ns)).len() > 0
                    && *e == matching_children(self.children@, name@, opt_ref_view(ns))[0],
                None => matching_children(self.children@, name@, opt_ref_view(ns)).len() == 0,
            },
    {
        let mut it = self.get_children(name, ns);
        it.next()
    }

    /// Gets all child elements with the given name and namespace, in
    /// document order.
    pub fn get_children<'a, 'b>(&'a self, name: &'b str, ns: Option<&'b str>) -> (r: ChildElements<
        'a,
    >)
        ensures
            r.remaining() == matching_children(self.children@, name@, opt_ref_view(ns)),
    {
        let mut elems: Vec<&'a Element> = Vec::new();
        let mut i: usize = 0;
        proof {
            assert(matching_children(self.children@.subrange(0, 0), name@, opt_ref_view(ns))
                =~= Seq::<Element>::empty());
            assert(elems@.map_values(|e: &Element| *e) =~= Seq::<Element>::empty());
        }
        while i < self.children.len()
            invariant
                i <= self.children@.len(),
                elems@.map_values(|e: &Element| *e) == matching_children(
                    self.children@.subrange(0, i as int),
                    name@,
                    opt_ref_view(ns),
                ),
            decreases self.children@.len() - i,
        {
            let ghost pre = elems@;
            match &self.children[i] {
                Xml::ElementNode(e) => {
                    if str_eq(e.name.as_str(), name) && opt_ref_str_eq(ns, &e.ns) {
                        elems.push(e);
                        proof {
                            assert(elems@.map_values(|e: &Element| *e) =~= pre.map_values(
                                |e: &Element| *e,
                            ).push(self.children@[i as int]->ElementNode_0));
                        }
                    }
                },
                _ => {},
            }
            proof {
                lemma_matching_snoc(
                    self.children@.subrange(0, i as int),
                    self.children@[i as int],
                    name@,
                    opt_ref_view(ns),
                );
                assert(self.children@.subrange(0, i + 1 as int) =~= self.children@.subrange(
                    0,
                    i as int,
                ).push(self.children@[i as int]));
                assert(elems@.map_values(|e: &Element| *e) =~= matching_children(
                    self.children@.subrange(0, i + 1 as int),
                    name@,
                    opt_ref_view(ns),
                ));
            }
            i = i + 1;
        }
        proof {
            assert(self.children@.subrange(0, self.children@.len() as int) =~= self.children@);
        }
        let r = ChildElements { elems, at: 0 };
        proof {
            assert(r.remaining() =~= r.elems@.map_values(|e: &Element| *e));
        }
        r
    }

    /// Appends a child element.
    pub fn tag(&mut self, child: Element)
        ensures
            final(self).children@ == old(self).children@.push(Xml::ElementNode(child)),
            unchanged_but_children(*old(self), *final(self)),
    {
        self.children.push(Xml::ElementNode(child));
    }

    /// Appends a child element, like [`Element::tag`].
    pub fn tag_stay(&mut self, child: Element)
        ensures
            final(self).children@ == old(self).children@.push(Xml::ElementNode(child)),
            unchanged_but_children(*old(self), *final(self)),
    {
        self.children.push(Xml::ElementNode(child));
    }

    /// Appends character data.
    pub fn text(&mut self, text: String)
        ensures
            final(self).children@ == old(self).children@.push(Xml::CharacterNode(text)),
            unchanged_but_children(*old(self), *final(self)),
    {
        self.children.push(Xml::CharacterNode(text));
    }

    /// Appends a CDATA section.
    pub fn cdata(&mut self, text: String)
        ensures
            final(self).children@ == old(self).children@.push(Xml::CDATANode(text)),
            unchanged_but_children(*old(self), *final(self)),
    {
        self.children.push(Xml::CDATANode(text));
    }

    /// Appends a comment.
    pub fn comment(&mut self, text: String)
        ensures
            final(self).children@ == old(self).children@.push(Xml::CommentNode(text)),
            unchanged_but_children(*old(self), *final(self)),
    {
        self.children.push(Xml::CommentNode(text));
    }

    /// Appends a processing instruction.
    pub fn pi(&mut self, text: String)
        ensures
            final(self).children@ == old(self).children@.push(Xml::PINode(text)),
            unchanged_but_children(*old(self), *final(self)),
    {
        self.children.push(Xml::PINode(text));
    }
}

/// Whether two elements agree on everything except their child sequence.
pub open spec fn unchanged_but_children(a: Element, b: Element) -> bool {
    &&& b.name == a.name
    &&& b.ns == a.ns
    &&& b.attributes == a.attributes
    &&& b.prefixes == a.prefixes
    &&& b.default_ns == a.default_ns
}

/// Whether two attribute entries agree as key-value pairs.
pub open spec fn pair_eq(x: Attr, y: Attr) -> bool {
    keys_eq(x.0, y.0) && x.1@ == y.1@
}

/// Whether an attribute entry stands in a map, as a key-value pair.
pub open spec fn in_attrs(x: Attr, b: Seq<Attr>) -> bool {
    exists|j: int| 0 <= j < b.len() && pair_eq(x, #[trigger] b[j])
}

/// Whether every entry of `a` also stands in `b`.
pub open spec fn attrs_sub(a: Seq<Attr>, b: Seq<Attr>) -> bool {
    forall|i: int| 0 <= i < a.len() ==> in_attrs(#[trigger] a[i], b)
}

/// Whether two attribute maps hold the same set of key-value pairs.
pub open spec fn attrs_equiv(a: Seq<Attr>, b: Seq<Attr>) -> bool {
    attrs_sub(a, b) && attrs_sub(b, a)
}

/// Structural equality of nodes: the kind and its text, or for elements
/// [`elem_eq_spec`].
pub open spec fn xml_eq_spec(a: Xml, b: Xml) -> bool
    decreases a,
{
    match (a, b) {
        (Xml::ElementNode(x), Xml::ElementNode(y)) => elem_eq_spec(x, y),
        (Xml::CharacterNode(x), Xml::CharacterNode(y)) => x@ == y@,
        (Xml::CDATANode(x), Xml::CDATANode(y)) => x@ == y@,
        (Xml::CommentNode(x), Xml::CommentNode(y)) => x@ == y@,
        (Xml::PINode(x), Xml::PINode(y)) => x@ == y@,
        _ => false,
    }
}

/// Element equality: name, namespace, attribute set (as a set of key-value
/// pairs) and child sequence.  Prefix bindings and the default namespace are
/// rendering metadata and play no part.
pub open spec fn elem_eq_spec(a: Element, b: Element) -> bool
    decreases a,
{
    &&& a.name@ == b.name@
    &&& opt_view(a.ns) == opt_view(b.ns)
    &&& attrs_equiv(a.attributes@, b.attributes@)
    &&& a.children@.len() == b.children@.len()
    &&& forall|i: int|
        0 <= i < a.children@.len() ==> xml_eq_spec(#[trigger] a.children@[i], b.children@[i])
}

fn attr_pair_eq(x: &Attr, y: &Attr) -> (r: bool)
    ensures
        r == pair_eq(*x, *y),
{
    str_eq(x.0.0.as_str(), y.0.0.as_str()) && opt_str_eq(&x.0.1, &y.0.1) && str_eq(
        x.1.as_str(),
        y.1.as_str(),
    )
}

fn attrs_sub_exec(a: &Vec<Attr>, b: &Vec<Attr>) -> (r: bool)
    ensures
        r == attrs_sub(a@, b@),
{
    let mut i: usize = 0;
    while i < a.len()
        invariant
            i <= a@.len(),
            forall|k: int| 0 <= k < i ==> in_attrs(#[trigger] a@[k], b@),
        decreases a@.len() - i,
    {
        let mut j: usize = 0;
        let mut found = false;
        while j < b.len() && !found
            invariant
                j <= b@.len(),
                i < a@.len(),
                !found ==> forall|l: int| 0 <= l < j ==> !pair_eq(a@[i as int], #[trigger] b@[l]),
                found ==> in_attrs(a@[i as int], b@),
            decreases (if found { 0int } else { 1int }), b@.len() - j,
        {
            if attr_pair_eq(&a[i], &b[j]) {
                found = true;
                proof {
                    assert(pair_eq(a@[i as int], b@[j as int]));
                }
            } else {
                j = j + 1;
            }
        }
        if !found {
            proof {
                assert_by_contradiction!(!in_attrs(a@[i as int], b@), {
                    let w = choose|l: int| 0 <= l < b@.len() && pair_eq(a@[i as int], #[trigger] b@[l]);
                    assert(!pair_eq(a@[i as int], b@[w]));
                });
                assert(!attrs_sub(a@, b@));
            }
            return false;
        }
        i = i + 1;
    }
    true
}

/// Structural equality of two elements, as [`elem_eq_spec`].
pub fn elem_eq(a: &Element, b: &Element) -> (r: bool)
    ensures
        r == elem_eq_spec(*a, *b),
    decreases *a,
{
    if !str_eq(a.name.as_str(), b.name.as_str()) {
        return false;
    }
    if !opt_str_eq(&a.ns, &b.ns) {
        return false;
    }
    if !attrs_sub_exec(&a.attributes, &b.attributes) {
        return false;
    }
    if !attrs_sub_exec(&b.attributes, &a.attributes) {
        return false;
    }
    if a.children.len() != b.children.len() {
        return false;
    }
    let mut i: usize = 0;
    while i < a.children.len()
        invariant
            i <= a.children@.len(),
            a.children@.len() == b.children@.len(),
            forall|k: int| 0 <= k < i ==> xml_eq_spec(#[trigger] a.children@[k], b.children@[k]),
        decreases a.children@.len() - i,
    {
        proof {
            assert(decreases_to!(*a => a.children));
        }
        if !xml_eq(&a.children[i], &b.children[i]) {
            return false;
        }
        i = i + 1;
    }
    true
}

/// Structural equality of two nodes, as [`xml_eq_spec`].
pub fn xml_eq(a: &Xml, b: &Xml) -> (r: bool)
    ensures
        r == xml_eq_spec(*a, *b),
    decreases *a,
{
    match (a, b) {
        (Xml::ElementNode(x), Xml::ElementNode(y)) => elem_eq(x, y),
        (Xml::CharacterNode(x), Xml::CharacterNode(y)) => str_eq(x.as_str(), y.as_str()),
        (Xml::CDATANode(x), Xml::CDATANode(y)) => str_eq(x.as_str(), y.as_str()),
        (Xml::CommentNode(x), Xml::CommentNode(y)) => str_eq(x.as_str(), y.as_str()),
        (Xml::PINode(x), Xml::PINode(y)) => str_eq(x.as_str(), y.as_str()),
        _ => false,
    }
}

impl PartialEq for Element {
    fn eq(&self, other: &Element) -> (r: bool) {
        elem_eq(self, other)
    }
}

impl vstd::std_specs::cmp::PartialEqSpecImpl for Element {
    open spec fn obeys_eq_spec() -> bool {
        true
    }

    open spec fn eq_spec(&self, other: &Element) -> bool {
        elem_eq_spec(*self, *other)
    }
}

impl PartialEq for Xml {
    fn eq(&self, other: &Xml) -> (r: bool) {
        xml_eq(self, other)
    }
}

impl vstd::std_specs::cmp::PartialEqSpecImpl for Xml {
    open spec fn obeys_eq_spec() -> bool {
        true
    }

    open spec fn eq_spec(&self, other: &Xml) -> bool {
        xml_eq_spec(*self, *other)
    }
}


} // verus!
