//! The tree builder: lexical events in, completed elements out.  It keeps
//! an open-element stack and, per frame, the namespace prefix bindings
//! inherited from the ancestors and extended by the frame's own `xmlns`
//! attributes.

use vstd::assert_by_contradiction;
use vstd::prelude::*;

verus! {

broadcast use vstd::string::group_string_axioms;

use crate::element::{attrs_wf, keys_eq, Attr, Element, Xml};
use crate::parser::{lex1, raw_pairs, EndTag, Event, EventV, Lex1, StartTag};
use crate::text::{all_ws, is_ws_char, opt_str_eq, opt_view, str_eq};

/// A structural error; fatal to the parse that raised it.
#[derive(Debug)]
pub enum BuilderError {
    /// A namespace prefix without a binding in scope.
    UnboundPrefix,
    /// An end tag that does not close the innermost open element: the
    /// expected name and the found name.
    MismatchedTag(String, String),
    /// An attribute whose qualified key repeats within one start tag.
    DuplicateAttribute(String),
    /// Non-whitespace character data, or any other non-element node,
    /// outside any open element.
    UnexpectedCharacterData,
    /// Input exhausted with no completed top-level element.
    NoElement,
}

/// One open element: the element under construction and the full prefix
/// binding table in scope for it, outermost binding first.
pub struct Frame {
    /// The element under construction.
    pub elem: Element,
    /// The bindings in scope: `(prefix, namespace)`, outermost first.
    pub bindings: Vec<(String, String)>,
}

/// The view of a binding list.
pub open spec fn bsview(s: Seq<(String, String)>) -> Seq<(Seq<char>, Seq<char>)> {
    s.map_values(|p: (String, String)| (p.0@, p.1@))
}

/// The view of a binding table.
pub open spec fn bview(v: Vec<(String, String)>) -> Seq<(Seq<char>, Seq<char>)> {
    bsview(v@)
}

/// Resolution of a prefix: the innermost binding wins.
pub open spec fn resolve(b: Seq<(Seq<char>, Seq<char>)>, p: Seq<char>) -> Option<Seq<char>>
    decreases b.len(),
{
    if b.len() == 0 {
        None
    } else if b.last().0 == p {
        Some(b.last().1)
    } else {
        resolve(b.drop_last(), p)
    }
}

/// The position of the first colon, or the length when there is none.
pub open spec fn colon_pos(s: Seq<char>) -> int
    decreases s.len(),
{
    if s.len() == 0 {
        0
    } else if s[0] == ':' {
        0
    } else {
        1 + colon_pos(s.drop_first())
    }
}

/// The prefix of a qualified name, when it has one.
pub open spec fn qprefix(s: Seq<char>) -> Option<Seq<char>> {
    if colon_pos(s) == s.len() {
        None
    } else {
        Some(s.take(colon_pos(s)))
    }
}

/// The local part of a qualified name.
pub open spec fn qlocal(s: Seq<char>) -> Seq<char> {
    if colon_pos(s) == s.len() {
        s
    } else {
        s.skip(colon_pos(s) + 1)
    }
}

/// Whether an attribute name declares a prefix: `xmlns:` and a prefix.
pub open spec fn is_xmlns_decl(n: Seq<char>) -> bool {
    n.len() > 6 && n.take(6) == "xmlns:"@
}

/// The prefix declarations among a start tag's raw attributes, in order.
pub open spec fn decls_of(attrs: Seq<(Seq<char>, Seq<char>)>) -> Seq<(Seq<char>, Seq<char>)>
    decreases attrs.len(),
{
    if attrs.len() == 0 {
        Seq::empty()
    } else {
        let rest = decls_of(attrs.drop_first());
        if is_xmlns_decl(attrs[0].0) {
            seq![(attrs[0].0.skip(6), attrs[0].1)] + rest
        } else {
            rest
        }
    }
}

/// The default namespace after a start tag's raw attributes: the last
/// `xmlns` attribute wins, an empty value clears it, none leaves the
/// inherited one.
pub open spec fn default_of(
    attrs: Seq<(Seq<char>, Seq<char>)>,
    inherited: Option<Seq<char>>,
) -> Option<Seq<char>>
    decreases attrs.len(),
{
    if attrs.len() == 0 {
        inherited
    } else if attrs.last().0 == "xmlns"@ {
        if attrs.last().1.len() == 0 {
            None
        } else {
            Some(attrs.last().1)
        }
    } else {
        default_of(attrs.drop_last(), inherited)
    }
}

/// A resolved attribute: its qualified key and its value.
pub type AttrView = ((Seq<char>, Option<Seq<char>>), Seq<char>);

/// The view of a resolved attribute map.
pub open spec fn attrs_view(s: Seq<Attr>) -> Seq<AttrView> {
    s.map_values(|a: Attr| ((a.0.0@, opt_view(a.0.1)), a.1@))
}

/// The resolved key of one raw attribute name, or none for an unbound
/// prefix.  `xmlns` itself keeps its name without a namespace; a prefix
/// declaration is keyed by its prefix under the `xmlns` namespace.
pub open spec fn attr_key_of(b: Seq<(Seq<char>, Seq<char>)>, n: Seq<char>) -> Option<
    (Seq<char>, Option<Seq<char>>),
> {
    if n == "xmlns"@ {
        Some((n, None))
    } else if is_xmlns_decl(n) {
        Some((n.skip(6), Some("http://www.w3.org/2000/xmlns/"@)))
    } else {
        match qprefix(n) {
            None => Some((n, None)),
            Some(p) => match resolve(b, p) {
                Some(u) => Some((qlocal(n), Some(u))),
                None => None,
            },
        }
    }
}

/// Whether a resolved key already stands among resolved attributes.
pub open spec fn rhas_key(acc: Seq<AttrView>, k: (Seq<char>, Option<Seq<char>>)) -> bool {
    exists|i: int| 0 <= i < acc.len() && #[trigger] acc[i].0 == k
}

/// The outcome of resolving a start tag's attributes.
pub enum AttrsResolved {
    /// All keys resolved and distinct.
    Done(Seq<AttrView>),
    /// Some attribute prefix had no binding in scope.
    Unbound,
    /// Some qualified key repeated; its local name.
    Duplicate(Seq<char>),
}

/// Resolution of raw attributes against a binding table, left to right,
/// stopping at the first unbound prefix or repeated key.
pub open spec fn resolve_attrs_acc(
    b: Seq<(Seq<char>, Seq<char>)>,
    acc: Seq<AttrView>,
    attrs: Seq<(Seq<char>, Seq<char>)>,
) -> AttrsResolved
    decreases attrs.len(),
{
    if attrs.len() == 0 {
        AttrsResolved::Done(acc)
    } else {
        match attr_key_of(b, attrs[0].0) {
            None => AttrsResolved::Unbound,
            Some(k) => if rhas_key(acc, k) {
                AttrsResolved::Duplicate(k.0)
            } else {
                resolve_attrs_acc(b, acc.push((k, attrs[0].1)), attrs.drop_first())
            },
        }
    }
}

/// The binding table in scope at the root: `xml` and `xmlns` bound to
/// their fixed namespaces.
pub open spec fn std_bindings() -> Seq<(Seq<char>, Seq<char>)> {
    seq![
        ("xml"@, "http://www.w3.org/XML/1998/namespace"@),
        ("xmlns"@, "http://www.w3.org/2000/xmlns/"@),
    ]
}

/// The raw-attribute view of a start tag's attribute list.
pub open spec fn raw_view(v: Vec<(String, String)>) -> Seq<(Seq<char>, Seq<char>)> {
    v@.map_values(|p: (String, String)| (p.0@, p.1@))
}

/// The tree builder.
pub struct ElementBuilder {
    frames: Vec<Frame>,
}

impl ElementBuilder {
    /// The open-element stack, outermost first.
    pub closed spec fn frames_view(&self) -> Seq<Frame> {
        self.frames@
    }

    /// How many elements are open.
    pub open spec fn depth(&self) -> nat {
        self.frames_view().len()
    }

    /// The binding table a new element would inherit.
    pub open spec fn inherited_bindings(&self) -> Seq<(Seq<char>, Seq<char>)> {
        if self.depth() == 0 {
            std_bindings()
        } else {
            bview(self.frames_view().last().bindings)
        }
    }

    /// The default namespace a new element would inherit.
    pub open spec fn inherited_default(&self) -> Option<Seq<char>> {
        if self.depth() == 0 {
            None
        } else {
            opt_view(self.frames_view().last().elem.default_ns)
        }
    }

    /// The open-element stack, as its mathematical shape.
    pub open spec fn model(&self) -> Seq<FrameV> {
        frames_vview(self.frames_view())
    }

    /// Creates a builder with nothing open.
    pub fn new() -> (r: ElementBuilder)
        ensures
            r.depth() == 0,
    {
        ElementBuilder { frames: Vec::new() }
    }
}

/// Finds the first colon, exactly as [`colon_pos`] describes it.
fn find_colon(cs: &Vec<char>) -> (r: usize)
    ensures
        0 <= r <= cs@.len(),
        colon_pos(cs@) == r,
{
    let mut i: usize = 0;
    while i < cs.len() && cs[i] != ':'
        invariant
            i <= cs@.len(),
            forall|k: int| 0 <= k < i ==> cs@[k] != ':',
        decreases cs@.len() - i,
    {
        i = i + 1;
    }
    proof {
        lemma_colon_pos(cs@, i as int);
    }
    i
}

proof fn lemma_colon_pos(s: Seq<char>, n: int)
    requires
        0 <= n <= s.len(),
        forall|k: int| 0 <= k < n ==> s[k] != ':',
        n == s.len() || s[n] == ':',
    ensures
        colon_pos(s) == n,
    decreases n,
{
    if n > 0 {
        assert(forall|k: int| 0 <= k < n - 1 ==> s.drop_first()[k] != ':');
        assert(n - 1 == s.drop_first().len() || s.drop_first()[n - 1] == ':');
        lemma_colon_pos(s.drop_first(), n - 1);
    }
}

/// Splits a qualified name, exactly as [`qprefix`] and [`qlocal`]
/// describe it.
fn split_qname(name: &str) -> (r: (Option<String>, String))
    ensures
        match r.0 {
            Some(p) => qprefix(name@) == Some(p@),
            None => qprefix(name@) is None,
        },
        r.1@ == qlocal(name@),
{
    let cs = crate::text::str_chars(name);
    let p = find_colon(&cs);
    if p == cs.len() {
        (None, name.to_owned())
    } else {
        let mut pre: Vec<char> = Vec::new();
        let mut i: usize = 0;
        while i < p
            invariant
                i <= p <= cs@.len(),
                cs@ == name@,
                pre@ == name@.subrange(0, i as int),
            decreases p - i,
        {
            pre.push(cs[i]);
            proof {
                assert(name@.subrange(0, i + 1 as int) =~= name@.subrange(0, i as int).push(
                    name@[i as int],
                ));
            }
            i = i + 1;
        }
        let mut loc: Vec<char> = Vec::new();
        let mut j: usize = p + 1;
        while j < cs.len()
            invariant
                p + 1 <= j <= cs@.len(),
                cs@ == name@,
                loc@ == name@.subrange(p + 1 as int, j as int),
            decreases cs@.len() - j,
        {
            loc.push(cs[j]);
            proof {
                assert(name@.subrange(p + 1 as int, j + 1 as int) =~= name@.subrange(
                    p + 1 as int,
                    j as int,
                ).push(name@[j as int]));
            }
            j = j + 1;
        }
        proof {
            assert(name@.subrange(0, p as int) =~= name@.take(p as int));
            assert(name@.subrange(p + 1 as int, name@.len() as int) =~= name@.skip(p + 1));
        }
        (Some(crate::text::chars_to_string(pre.as_slice())), crate::text::chars_to_string(
            loc.as_slice(),
        ))
    }
}

/// Resolves a prefix against a binding table, exactly as [`resolve`]
/// describes it: the innermost binding wins.
fn resolve_prefix(b: &Vec<(String, String)>, p: &str) -> (r: Option<String>)
    ensures
        opt_view(r) == resolve(bview(*b), p@),
{
    let mut i: usize = b.len();
    proof {
        assert(bview(*b).take(b@.len() as int) =~= bview(*b));
    }
    while i > 0
        invariant
            i <= b@.len(),
            resolve(bview(*b), p@) == resolve(bview(*b).take(i as int), p@),
        decreases i,
    {
        proof {
            assert(bview(*b).take(i as int).last() == (b@[i - 1].0@, b@[i - 1].1@));
            assert(bview(*b).take(i as int).drop_last() =~= bview(*b).take(i - 1));
        }
        if str_eq(b[i - 1].0.as_str(), p) {
            return Some(b[i - 1].1.clone());
        }
        i = i - 1;
    }
    proof {
        assert(bview(*b).take(0).len() == 0);
    }
    None
}

/// Clones a binding table, keeping its view.
pub(crate) fn clone_bindings(b: &Vec<(String, String)>) -> (r: Vec<(String, String)>)
    ensures
        bview(r) == bview(*b),
{
    let mut r: Vec<(String, String)> = Vec::new();
    let mut i: usize = 0;
    while i < b.len()
        invariant
            i <= b@.len(),
            bview(r) == bview(*b).take(i as int),
        decreases b@.len() - i,
    {
        let k0 = b[i].0.clone();
        let k1 = b[i].1.clone();
        let ghost rpre = r@;
        proof {
            assert(bsview(rpre) == bview(*b).take(i as int));
            assert(bsview(rpre).len() == rpre.len());
            assert(rpre.len() == i as int);
        }
        r.push((k0, k1));
        proof {
            assert(r@ == rpre.push((k0, k1)));
            assert forall|k: int| 0 <= k < r@.len() implies #[trigger] bsview(r@)[k] == bview(
                *b,
            ).take(i + 1 as int)[k] by {
                assert(bsview(r@)[k] == (r@[k].0@, r@[k].1@));
                if k < i as int {
                    assert(r@[k] == rpre[k]);
                    assert(bsview(rpre)[k] == (rpre[k].0@, rpre[k].1@));
                } else {
                    assert(r@[k] == (k0, k1));
                    assert(bview(*b)[k] == (b@[k].0@, b@[k].1@));
                }
            }
            assert(bview(r) =~= bview(*b).take(i + 1 as int));
        }
        i = i + 1;
    }
    proof {
        assert(bview(*b).take(b@.len() as int) =~= bview(*b));
    }
    r
}

/// Whether the text is whitespace only.
fn all_ws_exec(s: &str) -> (r: bool)
    ensures
        r == all_ws(s@),
{
    let cs = crate::text::str_chars(s);
    let mut i: usize = 0;
    while i < cs.len()
        invariant
            i <= cs@.len(),
            cs@ == s@,
            forall|k: int| 0 <= k < i ==> crate::text::is_ws(#[trigger] s@[k]),
        decreases cs@.len() - i,
    {
        if !is_ws_char(cs[i]) {
            return false;
        }
        i = i + 1;
    }
    true
}


/// The child node an event appends inside an open element, if any.
pub open spec fn depth_node(e: Event) -> Option<Xml> {
    match e {
        Event::Characters(t) => Some(Xml::CharacterNode(t)),
        Event::CDATA(t) => Some(Xml::CDATANode(t)),
        Event::Comment(t) => Some(Xml::CommentNode(t)),
        Event::PI(t) => Some(Xml::PINode(t)),
        _ => None,
    }
}

/// Compares an attribute key with a resolved key.
fn key_eq_exec(a: &(String, Option<String>), k: &(String, Option<String>)) -> (r: bool)
    ensures
        r == ((a.0@, opt_view(a.1)) == (k.0@, opt_view(k.1))),
{
    let r = str_eq(a.0.as_str(), k.0.as_str()) && opt_str_eq(&a.1, &k.1);
    proof {
        if r {
            assert((a.0@, opt_view(a.1)) == (k.0@, opt_view(k.1)));
        }
    }
    r
}

proof fn lemma_attrs_view_snoc(s: Seq<Attr>, x: Attr)
    ensures
        attrs_view(s.push(x)) == attrs_view(s).push(((x.0.0@, opt_view(x.0.1)), x.1@)),
{
    assert forall|k: int| 0 <= k < s.len() + 1 implies #[trigger] attrs_view(s.push(x))[k]
        == attrs_view(s).push(((x.0.0@, opt_view(x.0.1)), x.1@))[k] by {
        if k < s.len() {
            assert(s.push(x)[k] == s[k]);
        } else {
            assert(s.push(x)[k] == x);
        }
    }
    assert(attrs_view(s.push(x)) =~= attrs_view(s).push(((x.0.0@, opt_view(x.0.1)), x.1@)));
}

/// Resolves one raw attribute name against a binding table, exactly as
/// [`attr_key_of`] describes it.
fn resolve_key(b: &Vec<(String, String)>, name: &String) -> (r: Option<(String, Option<String>)>)
    ensures
        match r {
            Some(k) => attr_key_of(bview(*b), name@) == Some((k.0@, opt_view(k.1))),
            None => attr_key_of(bview(*b), name@) is None,
        },
{
    proof {
        reveal_strlit("xmlns");
        reveal_strlit("xmlns:");
    }
    if str_eq(name.as_str(), "xmlns") {
        return Some((name.clone(), None));
    }
    let cs = crate::text::str_chars(name.as_str());
    if cs.len() > 6 && cs[0] == 'x' && cs[1] == 'm' && cs[2] == 'l' && cs[3] == 'n' && cs[4] == 's'
        && cs[5] == ':' {
        proof {
            assert(name@.take(6) =~= "xmlns:"@);
        }
        let mut tail: Vec<char> = Vec::new();
        let mut i: usize = 6;
        while i < cs.len()
            invariant
                6 <= i <= cs@.len(),
                cs@ == name@,
                tail@ == name@.subrange(6, i as int),
            decreases cs@.len() - i,
        {
            tail.push(cs[i]);
            proof {
                assert(name@.subrange(6, i + 1 as int) =~= name@.subrange(6, i as int).push(
                    name@[i as int],
                ));
            }
            i = i + 1;
        }
        proof {
            assert(name@.subrange(6, name@.len() as int) =~= name@.skip(6));
        }
        return Some(
            (
                crate::text::chars_to_string(tail.as_slice()),
                Some("http://www.w3.org/2000/xmlns/".to_owned()),
            ),
        );
    }
    proof {
        assert_by_contradiction!(!is_xmlns_decl(name@), {
            reveal_strlit("xmlns:");
            assert(name@.take(6) == "xmlns:"@);
            assert(forall|j: int| 0 <= j < 6 ==> #[trigger] name@[j] == name@.take(6)[j]);
            assert(name@[0] == 'x' && name@[1] == 'm' && name@[2] == 'l' && name@[3] == 'n'
                && name@[4] == 's' && name@[5] == ':');
        });
    }
    let (pre, local) = split_qname(name.as_str());
    match pre {
        None => Some((local, None)),
        Some(p) => match resolve_prefix(b, p.as_str()) {
            Some(u) => Some((local, Some(u))),
            None => None,
        },
    }
}

/// Resolves a start tag's raw attributes against a binding table, exactly
/// as [`resolve_attrs_acc`] describes it, left to right: the first unbound
/// prefix or repeated key stops it.
fn resolve_attrs(b: &Vec<(String, String)>, attrs: &Vec<(String, String)>) -> (r: Result<
    Vec<Attr>,
    BuilderError,
>)
    ensures
        match r {
            Ok(el_attrs) => resolve_attrs_acc(bview(*b), Seq::empty(), raw_view(*attrs))
                == AttrsResolved::Done(attrs_view(el_attrs@)) && attrs_wf(el_attrs@),
            Err(e) => match e {
                BuilderError::UnboundPrefix => resolve_attrs_acc(
                    bview(*b),
                    Seq::empty(),
                    raw_view(*attrs),
                ) is Unbound,
                BuilderError::DuplicateAttribute(k) => resolve_attrs_acc(
                    bview(*b),
                    Seq::empty(),
                    raw_view(*attrs),
                ) == AttrsResolved::Duplicate(k@),
                _ => false,
            },
        },
{
    let mut el_attrs: Vec<Attr> = Vec::new();
    let mut i: usize = 0;
    proof {
        assert(attrs_view(el_attrs@) =~= Seq::<AttrView>::empty());
        assert(raw_view(*attrs).skip(0) =~= raw_view(*attrs));
    }
    while i < attrs.len()
        invariant
            i <= attrs@.len(),
            attrs_wf(el_attrs@),
            attrs_view(el_attrs@).len() == el_attrs@.len(),
            resolve_attrs_acc(bview(*b), attrs_view(el_attrs@), raw_view(*attrs).skip(i as int))
                == resolve_attrs_acc(bview(*b), Seq::empty(), raw_view(*attrs)),
        decreases attrs@.len() - i,
    {
        let ghost rawrest = raw_view(*attrs).skip(i as int);
        proof {
            assert(rawrest[0] == raw_view(*attrs)[i as int]);
            assert(rawrest[0] == (attrs@[i as int].0@, attrs@[i as int].1@));
            assert(rawrest.drop_first() =~= raw_view(*attrs).skip(i + 1 as int));
        }
        let key = match resolve_key(b, &attrs[i].0) {
            Some(k) => k,
            None => {
                proof {
                    assert(resolve_attrs_acc(bview(*b), attrs_view(el_attrs@), rawrest)
                        is Unbound);
                }
                return Err(BuilderError::UnboundPrefix);
            },
        };
        // The key must be new within this start tag.
        let mut j: usize = 0;
        let mut dup = false;
        while j < el_attrs.len() && !dup
            invariant
                j <= el_attrs@.len(),
                !dup ==> forall|l: int|
                    0 <= l < j ==> #[trigger] attrs_view(el_attrs@)[l].0 != (key.0@, opt_view(
                        key.1,
                    )),
                dup ==> rhas_key(attrs_view(el_attrs@), (key.0@, opt_view(key.1))),
            decreases (if dup { 0int } else { 1int }), el_attrs@.len() - j,
        {
            if key_eq_exec(&el_attrs[j].0, &key) {
                proof {
                    assert(attrs_view(el_attrs@)[j as int].0 == (key.0@, opt_view(key.1)));
                }
                dup = true;
            } else {
                proof {
                    assert(attrs_view(el_attrs@)[j as int].0 == (el_attrs@[j as int].0.0@,
                    opt_view(el_attrs@[j as int].0.1)));
                }
                j = j + 1;
            }
        }
        if dup {
            proof {
                assert(resolve_attrs_acc(bview(*b), attrs_view(el_attrs@), rawrest)
                    == AttrsResolved::Duplicate(key.0@));
            }
            return Err(BuilderError::DuplicateAttribute(key.0));
        }
        proof {
            assert_by_contradiction!(!rhas_key(attrs_view(el_attrs@), (key.0@, opt_view(key.1))), {
                let w = choose|l: int|
                    0 <= l < attrs_view(el_attrs@).len() && #[trigger] attrs_view(el_attrs@)[l].0
                        == (key.0@, opt_view(key.1));
                assert(attrs_view(el_attrs@)[w].0 != (key.0@, opt_view(key.1)));
            });
        }
        let ghost epre = el_attrs@;
        let value = attrs[i].1.clone();
        el_attrs.push(((key.0, key.1), value));
        proof {
            lemma_attrs_view_snoc(epre, el_attrs@.last());
            assert(el_attrs@ =~= epre.push(el_attrs@.last()));
            assert(attrs_view(el_attrs@) =~= attrs_view(epre).push(
                ((key.0@, opt_view(key.1)), attrs@[i as int].1@),
            ));
            assert forall|a: int, c: int| 0 <= a < c < el_attrs@.len() implies !keys_eq(
                #[trigger] el_attrs@[a].0,
                #[trigger] el_attrs@[c].0,
            ) by {
                if c == epre.len() as int {
                    if keys_eq(el_attrs@[a].0, el_attrs@[c].0) {
                        assert(attrs_view(el_attrs@)[a].0 == (key.0@, opt_view(key.1)));
                        assert(rhas_key(attrs_view(epre), (key.0@, opt_view(key.1))));
                    }
                } else {
                    assert(el_attrs@[a] == epre[a] && el_attrs@[c] == epre[c]);
                }
            }
        }
        i = i + 1;
    }
    proof {
        assert(raw_view(*attrs).skip(attrs@.len() as int).len() == 0);
    }
    Ok(el_attrs)
}

impl ElementBuilder {
    /// Consumes one event.  A start tag opens an element whose namespace
    /// and attribute keys are resolved against the inherited bindings
    /// extended by its own declarations; a matching end tag closes the
    /// innermost element, handing it out at depth zero and attaching it to
    /// its parent otherwise; any other node is appended to the innermost
    /// element.  Outside any element, whitespace character data is ignored
    /// and every other node is an error.  An error leaves the builder
    /// unusable for the parse that raised it.
    #[verifier::rlimit(100)]
    pub fn handle_event(&mut self, e: Event) -> (r: Option<Result<Element, BuilderError>>)
        ensures
            (e matches Event::ElementStart(st) ==> {
                let bnew = old(self).inherited_bindings() + decls_of(raw_view(st.attributes));
                let dnew = default_of(raw_view(st.attributes), old(self).inherited_default());
                match r {
                    None => {
                        &&& final(self).depth() == old(self).depth() + 1
                        &&& forall|i: int|
                            0 <= i < old(self).depth() ==> final(self).frames_view()[i] == old(
                                self,
                            ).frames_view()[i]
                        &&& bview(final(self).frames_view().last().bindings) == bnew
                        &&& final(self).frames_view().last().elem.name@ == qlocal(st.name@)
                        &&& opt_view(final(self).frames_view().last().elem.ns) == (
                        match qprefix(st.name@) {
                            Some(p) => resolve(bnew, p),
                            None => dnew,
                        })
                        &&& (qprefix(st.name@) matches Some(p) ==> resolve(bnew, p) is Some)
                        &&& opt_view(final(self).frames_view().last().elem.default_ns) == dnew
                        &&& final(self).frames_view().last().elem.children@.len() == 0
                        &&& resolve_attrs_acc(bnew, Seq::empty(), raw_view(st.attributes))
                            == AttrsResolved::Done(
                            attrs_view(final(self).frames_view().last().elem.attributes@),
                        )
                        &&& final(self).frames_view().last().elem.wf()
                        &&& bsview(final(self).frames_view().last().elem.prefixes@) == bnew
                    },
                    Some(Err(BuilderError::UnboundPrefix)) => (qprefix(st.name@) matches Some(p)
                        && resolve(bnew, p) is None) || resolve_attrs_acc(
                        bnew,
                        Seq::empty(),
                        raw_view(st.attributes),
                    ) is Unbound,
                    Some(Err(BuilderError::DuplicateAttribute(k))) => resolve_attrs_acc(
                        bnew,
                        Seq::empty(),
                        raw_view(st.attributes),
                    ) == AttrsResolved::Duplicate(k@) && (qprefix(st.name@) matches Some(p)
                        ==> resolve(bnew, p) is Some),
                    _ => false,
                }
            }),
            (e matches Event::ElementStart(st) && !(r is None)) ==> final(self).frames_view()
                == old(self).frames_view(),
            (e matches Event::ElementEnd(et) ==> {
                if old(self).depth() == 0 {
                    &&& final(self).frames_view() == old(self).frames_view()
                    &&& (r matches Some(Err(BuilderError::MismatchedTag(ex, f))) && ex@
                        == Seq::<char>::empty() && f@ == et.name@)
                } else {
                    let top = old(self).frames_view().last();
                    let ns_res = (match qprefix(et.name@) {
                        Some(p) => resolve(bview(top.bindings), p),
                        None => opt_view(top.elem.default_ns),
                    });
                    if (qprefix(et.name@) matches Some(p) && resolve(bview(top.bindings), p)
                        is None) {
                        &&& final(self).frames_view() == old(self).frames_view()
                        &&& r matches Some(Err(BuilderError::UnboundPrefix))
                    } else if qlocal(et.name@) == top.elem.name@ && ns_res == opt_view(
                        top.elem.ns,
                    ) {
                        &&& final(self).depth() == old(self).depth() - 1
                        &&& forall|i: int|
                            0 <= i < old(self).depth() - 2 ==> final(self).frames_view()[i]
                                == old(self).frames_view()[i]
                        &&& (if old(self).depth() == 1 {
                            r matches Some(Ok(el)) && el == top.elem
                        } else {
                            let par = old(self).frames_view()[old(self).depth() - 2];
                            let ntop = final(self).frames_view().last();
                            &&& r is None
                            &&& ntop.bindings == par.bindings
                            &&& ntop.elem.name == par.elem.name
                            &&& ntop.elem.ns == par.elem.ns
                            &&& ntop.elem.attributes == par.elem.attributes
                            &&& ntop.elem.prefixes == par.elem.prefixes
                            &&& ntop.elem.default_ns == par.elem.default_ns
                            &&& ntop.elem.children@ == par.elem.children@.push(
                                Xml::ElementNode(top.elem),
                            )
                        })
                    } else {
                        &&& final(self).frames_view() == old(self).frames_view()
                        &&& (r matches Some(Err(BuilderError::MismatchedTag(ex, f))) && ex@
                            == top.elem.name@ && f@ == et.name@)
                    }
                }
            }),
            (depth_node(e) matches Some(nd) ==> {
                if old(self).depth() == 0 {
                    &&& final(self).frames_view() == old(self).frames_view()
                    &&& (match e {
                        Event::Characters(t) => if all_ws(t@) {
                            r is None
                        } else {
                            r matches Some(Err(BuilderError::UnexpectedCharacterData))
                        },
                        _ => r matches Some(Err(BuilderError::UnexpectedCharacterData)),
                    })
                } else {
                    let par = old(self).frames_view().last();
                    let ntop = final(self).frames_view().last();
                    &&& r is None
                    &&& final(self).depth() == old(self).depth()
                    &&& forall|i: int|
                        0 <= i < old(self).depth() - 1 ==> final(self).frames_view()[i] == old(
                            self,
                        ).frames_view()[i]
                    &&& ntop.bindings == par.bindings
                    &&& ntop.elem.name == par.elem.name
                    &&& ntop.elem.ns == par.elem.ns
                    &&& ntop.elem.attributes == par.elem.attributes
                    &&& ntop.elem.prefixes == par.elem.prefixes
                    &&& ntop.elem.default_ns == par.elem.default_ns
                    &&& ntop.elem.children@ == par.elem.children@.push(nd)
                }
            }),
    {
        match e {
            Event::ElementStart(st) => {
                let StartTag { name, attributes } = st;
                // Extend the inherited bindings by this tag's declarations.
                let mut bnew: Vec<(String, String)>;
                let dinh: Option<String>;
                if self.frames.len() == 0 {
                    bnew = Vec::new();
                    bnew.push(
                        (
                            "xml".to_owned(),
                            "http://www.w3.org/XML/1998/namespace".to_owned(),
                        ),
                    );
                    bnew.push(("xmlns".to_owned(), "http://www.w3.org/2000/xmlns/".to_owned()));
                    dinh = None;
                    proof {
                        assert(bview(bnew) =~= std_bindings());
                    }
                } else {
                    bnew = clone_bindings(&self.frames[self.frames.len() - 1].bindings);
                    dinh = crate::element::clone_opt_string(
                        &self.frames[self.frames.len() - 1].elem.default_ns,
                    );
                }
                let mut dnew: Option<String> = dinh;
                let ghost binh = bview(bnew);
                let ghost raw = raw_view(attributes);
                let mut i: usize = 0;
                proof {
                    reveal_strlit("xmlns");
                    reveal_strlit("xmlns:");
                    assert(binh + decls_of(raw.take(0)) =~= binh);
                }
                while i < attributes.len()
                    invariant
                        i <= attributes@.len(),
                        raw == raw_view(attributes),
                        bview(bnew) == binh + decls_of(raw.take(i as int)),
                        opt_view(dnew) == default_of(raw.take(i as int), opt_view(dinh)),
                    decreases attributes@.len() - i,
                {
                    proof {
                        reveal_strlit("xmlns");
                        reveal_strlit("xmlns:");
                        assert(raw.take(i + 1 as int) =~= raw.take(i as int).push(
                            raw[i as int],
                        ));
                        assert(raw[i as int] == (attributes@[i as int].0@, attributes@[i as int].1@));
                        lemma_decls_snoc(raw.take(i as int), raw[i as int]);
                        lemma_default_snoc(raw.take(i as int), raw[i as int], opt_view(dinh));
                    }
                    let aname = &attributes[i].0;
                    let cs = crate::text::str_chars(aname.as_str());
                    if cs.len() > 6 && cs[0] == 'x' && cs[1] == 'm' && cs[2] == 'l' && cs[3] == 'n'
                        && cs[4] == 's' && cs[5] == ':' {
                        proof {
                            assert(aname@.take(6) =~= "xmlns:"@);
                        }
                        let mut tail: Vec<char> = Vec::new();
                        let mut t: usize = 6;
                        while t < cs.len()
                            invariant
                                6 <= t <= cs@.len(),
                                cs@ == aname@,
                                tail@ == aname@.subrange(6, t as int),
                            decreases cs@.len() - t,
                        {
                            tail.push(cs[t]);
                            proof {
                                assert(aname@.subrange(6, t + 1 as int) =~= aname@.subrange(
                                    6,
                                    t as int,
                                ).push(aname@[t as int]));
                            }
                            t = t + 1;
                        }
                        proof {
                            assert(aname@.subrange(6, aname@.len() as int) =~= aname@.skip(6));
                        }
                        let ghost bpre = bview(bnew);
                        bnew.push(
                            (
                                crate::text::chars_to_string(tail.as_slice()),
                                attributes[i].1.clone(),
                            ),
                        );
                        proof {
                            assert(bview(bnew) =~= bpre.push(
                                (aname@.skip(6), attributes@[i as int].1@),
                            ));
                            assert(bview(bnew) =~= binh + decls_of(raw.take(i + 1 as int)));
                        }
                    } else {
                        proof {
                            assert_by_contradiction!(!is_xmlns_decl(aname@), {
                                reveal_strlit("xmlns:");
                                assert(aname@.take(6) == "xmlns:"@);
                                assert(forall|j: int|
                                    0 <= j < 6 ==> #[trigger] aname@[j] == aname@.take(6)[j]);
                                assert(aname@[0] == 'x' && aname@[1] == 'm' && aname@[2] == 'l'
                                    && aname@[3] == 'n' && aname@[4] == 's' && aname@[5] == ':');
                            });
                        }
                        if str_eq(aname.as_str(), "xmlns") {
                            let v = &attributes[i].1;
                            if v.as_str().is_empty() {
                                dnew = None;
                            } else {
                                dnew = Some(v.clone());
                            }
                        }
                        proof {
                            assert(bview(bnew) =~= binh + decls_of(raw.take(i + 1 as int)));
                        }
                    }
                    i = i + 1;
                }
                proof {
                    assert(raw.take(raw.len() as int) =~= raw);
                }
                // Resolve the element's own namespace.
                let (pre, local) = split_qname(name.as_str());
                let ns: Option<String> = match pre {
                    Some(p) => match resolve_prefix(&bnew, p.as_str()) {
                        Some(u) => Some(u),
                        None => {
                            return Some(Err(BuilderError::UnboundPrefix));
                        },
                    },
                    None => crate::element::clone_opt_string(&dnew),
                };
                // Resolve the attributes.
                let el_attrs = match resolve_attrs(&bnew, &attributes) {
                    Ok(a) => a,
                    Err(er) => {
                        return Some(Err(er));
                    },
                };
                let prefixes = clone_bindings(&bnew);
                let elem = Element {
                    name: local,
                    ns,
                    attributes: el_attrs,
                    children: Vec::new(),
                    prefixes,
                    default_ns: dnew,
                };
                self.frames.push(Frame { elem, bindings: bnew });
                None
            },
            Event::ElementEnd(et) => {
                let EndTag { name } = et;
                let n = self.frames.len();
                if n == 0 {
                    return Some(
                        Err(BuilderError::MismatchedTag(String::new(), name)),
                    );
                }
                let (pre, local) = split_qname(name.as_str());
                let ns: Option<String> = match &pre {
                    Some(p) => match resolve_prefix(&self.frames[n - 1].bindings, p.as_str()) {
                        Some(u) => Some(u),
                        None => {
                            return Some(Err(BuilderError::UnboundPrefix));
                        },
                    },
                    None => crate::element::clone_opt_string(
                        &self.frames[n - 1].elem.default_ns,
                    ),
                };
                let top_ref = &self.frames[n - 1];
                if str_eq(local.as_str(), top_ref.elem.name.as_str()) && opt_str_eq(
                    &ns,
                    &top_ref.elem.ns,
                ) {
                    let fr = match self.frames.pop() {
                        Some(f) => f,
                        None => {
                            return None;  // unreachable: the stack is not empty
                        },
                    };
                    if self.frames.len() == 0 {
                        Some(Ok(fr.elem))
                    } else {
                        let mut parent = match self.frames.pop() {
                            Some(f) => f,
                            None => {
                                return None;  // unreachable: the stack is not empty
                            },
                        };
                        parent.elem.children.push(Xml::ElementNode(fr.elem));
                        self.frames.push(parent);
                        proof {
                            assert(self.frames@ =~= old(self).frames@.take(n - 2 as int).push(
                                self.frames@.last(),
                            ));
                        }
                        None
                    }
                } else {
                    Some(
                        Err(
                            BuilderError::MismatchedTag(
                                clone_str(&self.frames[n - 1].elem.name),
                                name,
                            ),
                        ),
                    )
                }
            },
            Event::Characters(text) => {
                if self.frames.len() == 0 {
                    if all_ws_exec(text.as_str()) {
                        None
                    } else {
                        Some(Err(BuilderError::UnexpectedCharacterData))
                    }
                } else {
                    self.push_node(Xml::CharacterNode(text));
                    None
                }
            },
            Event::CDATA(text) => {
                if self.frames.len() == 0 {
                    Some(Err(BuilderError::UnexpectedCharacterData))
                } else {
                    self.push_node(Xml::CDATANode(text));
                    None
                }
            },
            Event::Comment(text) => {
                if self.frames.len() == 0 {
                    Some(Err(BuilderError::UnexpectedCharacterData))
                } else {
                    self.push_node(Xml::CommentNode(text));
                    None
                }
            },
            Event::PI(text) => {
                if self.frames.len() == 0 {
                    Some(Err(BuilderError::UnexpectedCharacterData))
                } else {
                    self.push_node(Xml::PINode(text));
                    None
                }
            },
        }
    }

    /// Appends a node to the innermost open element.
    fn push_node(&mut self, nd: Xml)
        requires
            old(self).depth() > 0,
        ensures
            final(self).depth() == old(self).depth(),
            forall|i: int|
                0 <= i < old(self).depth() - 1 ==> final(self).frames_view()[i] == old(
                    self,
                ).frames_view()[i],
            final(self).frames_view().last().bindings == old(
                self,
            ).frames_view().last().bindings,
            final(self).frames_view().last().elem.name == old(
                self,
            ).frames_view().last().elem.name,
            final(self).frames_view().last().elem.ns == old(self).frames_view().last().elem.ns,
            final(self).frames_view().last().elem.attributes == old(
                self,
            ).frames_view().last().elem.attributes,
            final(self).frames_view().last().elem.prefixes == old(
                self,
            ).frames_view().last().elem.prefixes,
            final(self).frames_view().last().elem.default_ns == old(
                self,
            ).frames_view().last().elem.default_ns,
            final(self).frames_view().last().elem.children@ == old(
                self,
            ).frames_view().last().elem.children@.push(nd),
    {
        let mut top = match self.frames.pop() {
            Some(f) => f,
            None => {
                return ;  // unreachable: the stack is not empty
            },
        };
        top.elem.children.push(nd);
        self.frames.push(top);
        proof {
            assert(self.frames@ =~= old(self).frames@.drop_last().push(self.frames@.last()));
            assert(forall|i: int|
                0 <= i < old(self).frames@.len() - 1 ==> #[trigger] self.frames@[i] == old(
                    self,
                ).frames@[i]);
        }
    }
}

/// Clones a string, keeping its characters.
fn clone_str(s: &String) -> (r: String)
    ensures
        r@ == s@,
{
    s.clone()
}

proof fn lemma_decls_snoc(s: Seq<(Seq<char>, Seq<char>)>, x: (Seq<char>, Seq<char>))
    ensures
        decls_of(s.push(x)) == decls_of(s) + (if is_xmlns_decl(x.0) {
            seq![(x.0.skip(6), x.1)]
        } else {
            Seq::empty()
        }),
    decreases s.len(),
{
    let tail = (if is_xmlns_decl(x.0) {
        seq![(x.0.skip(6), x.1)]
    } else {
        Seq::<(Seq<char>, Seq<char>)>::empty()
    });
    if s.len() == 0 {
        assert(s.push(x).drop_first() =~= s);
        assert(decls_of(s.push(x)) =~= decls_of(s) + tail);
    } else {
        assert(s.push(x).drop_first() =~= s.drop_first().push(x));
        lemma_decls_snoc(s.drop_first(), x);
        assert(decls_of(s.push(x)) =~= decls_of(s) + tail);
    }
}

proof fn lemma_default_snoc(
    s: Seq<(Seq<char>, Seq<char>)>,
    x: (Seq<char>, Seq<char>),
    inh: Option<Seq<char>>,
)
    ensures
        default_of(s.push(x), inh) == (if x.0 == "xmlns"@ {
            if x.1.len() == 0 {
                None
            } else {
                Some(x.1)
            }
        } else {
            default_of(s, inh)
        }),
{
    assert(s.push(x).last() == x);
    assert(s.push(x).drop_last() =~= s);
}


/// The mathematical shape of an element.
#[verifier::ext_equal]
pub struct ElemV {
    /// The local name.
    pub name: Seq<char>,
    /// The resolved namespace.
    pub ns: Option<Seq<char>>,
    /// The resolved attributes, in order.
    pub attributes: Seq<AttrView>,
    /// The child nodes, in document order.
    pub children: Seq<NodeV>,
    /// The prefix bindings known for rendering.
    pub prefixes: Seq<(Seq<char>, Seq<char>)>,
    /// The default namespace.
    pub default_ns: Option<Seq<char>>,
}

/// The mathematical shape of a child node.
#[verifier::ext_equal]
pub enum NodeV {
    ElementNode(ElemV),
    CharacterNode(Seq<char>),
    CDATANode(Seq<char>),
    CommentNode(Seq<char>),
    PINode(Seq<char>),
}

/// The view of a child node.
pub open spec fn node_view(x: Xml) -> NodeV
    decreases x,
{
    match x {
        Xml::ElementNode(e) => NodeV::ElementNode(elem_view(e)),
        Xml::CharacterNode(t) => NodeV::CharacterNode(t@),
        Xml::CDATANode(t) => NodeV::CDATANode(t@),
        Xml::CommentNode(t) => NodeV::CommentNode(t@),
        Xml::PINode(t) => NodeV::PINode(t@),
    }
}

/// The views of a child sequence.
pub open spec fn nodes_view(s: Seq<Xml>) -> Seq<NodeV>
    decreases s,
{
    if s.len() == 0 {
        Seq::empty()
    } else {
        seq![node_view(s[0])] + nodes_view(s.drop_first())
    }
}

/// The view of an element.
pub open spec fn elem_view(e: Element) -> ElemV
    decreases e,
{
    ElemV {
        name: e.name@,
        ns: opt_view(e.ns),
        attributes: attrs_view(e.attributes@),
        children: nodes_view(e.children@),
        prefixes: bsview(e.prefixes@),
        default_ns: opt_view(e.default_ns),
    }
}

/// The mathematical shape of an open-element frame.
#[verifier::ext_equal]
pub struct FrameV {
    /// The element under construction.
    pub elem: ElemV,
    /// The bindings in scope, outermost first.
    pub bindings: Seq<(Seq<char>, Seq<char>)>,
}

proof fn lemma_push_node_view(bfr0: Seq<Frame>, bfr1: Seq<Frame>, nd: Xml)
    requires
        bfr0.len() > 0,
        bfr1.len() == bfr0.len(),
        forall|i: int| 0 <= i < bfr0.len() - 1 ==> #[trigger] bfr1[i] == bfr0[i],
        bfr1.last().bindings == bfr0.last().bindings,
        bfr1.last().elem.name == bfr0.last().elem.name,
        bfr1.last().elem.ns == bfr0.last().elem.ns,
        bfr1.last().elem.attributes == bfr0.last().elem.attributes,
        bfr1.last().elem.prefixes == bfr0.last().elem.prefixes,
        bfr1.last().elem.default_ns == bfr0.last().elem.default_ns,
        bfr1.last().elem.children@ == bfr0.last().elem.children@.push(nd),
    ensures
        frames_vview(bfr1) == push_top(frames_vview(bfr0), node_view(nd)),
{
    lemma_nodes_view_snoc(bfr0.last().elem.children@, nd);
    let fs0 = frames_vview(bfr0);
    let fs1 = frames_vview(bfr1);
    assert(fs0.len() == bfr0.len());
    assert(fs1.len() == bfr1.len());
    assert forall|k: int|
        0 <= k < fs1.len() implies #[trigger] fs1[k] =~~= push_top(fs0, node_view(nd))[k] by {
        assert(fs1[k] == frame_view(bfr1[k]));
        assert(fs0[k] == frame_view(bfr0[k]));
        if k < bfr0.len() - 1 {
            assert(bfr1[k] == bfr0[k]);
        } else {
            assert(bfr1[k] == bfr1.last() && bfr0[k] == bfr0.last());
        }
    }
    assert(frames_vview(bfr1) =~~= push_top(frames_vview(bfr0), node_view(nd)));
}

/// The view of a frame.
pub open spec fn frame_view(f: Frame) -> FrameV {
    FrameV { elem: elem_view(f.elem), bindings: bview(f.bindings) }
}

/// The views of a frame stack.
pub open spec fn frames_vview(fs: Seq<Frame>) -> Seq<FrameV> {
    fs.map_values(|f: Frame| frame_view(f))
}

proof fn lemma_nodes_view_snoc(s: Seq<Xml>, x: Xml)
    ensures
        nodes_view(s.push(x)) == nodes_view(s).push(node_view(x)),
    decreases s.len(),
{
    if s.len() == 0 {
        assert(s.push(x).drop_first() =~= s);
        assert(nodes_view(s.push(x)) =~= nodes_view(s).push(node_view(x)));
    } else {
        assert(s.push(x).drop_first() =~= s.drop_first().push(x));
        lemma_nodes_view_snoc(s.drop_first(), x);
        assert(nodes_view(s.push(x)) =~= nodes_view(s).push(node_view(x)));
    }
}

/// The mathematical shape of a structural error.
#[verifier::ext_equal]
pub enum BErrV {
    UnboundPrefix,
    MismatchedTag(Seq<char>, Seq<char>),
    DuplicateAttribute(Seq<char>),
    UnexpectedCharacterData,
}

/// Whether a structural error has the given shape.
pub open spec fn berr_matches(e: BuilderError, v: BErrV) -> bool {
    match e {
        BuilderError::UnboundPrefix => v == BErrV::UnboundPrefix,
        BuilderError::MismatchedTag(ex, f) => v == BErrV::MismatchedTag(ex@, f@),
        BuilderError::DuplicateAttribute(k) => v == BErrV::DuplicateAttribute(k@),
        BuilderError::UnexpectedCharacterData => v == BErrV::UnexpectedCharacterData,
        BuilderError::NoElement => false,
    }
}

/// What one builder step emits.
#[verifier::ext_equal]
pub enum BOut {
    /// Nothing yet.
    Quiet,
    /// A completed top-level element.
    Done(ElemV),
    /// A structural error.
    Fail(BErrV),
}

/// One builder step: the new stack and what it emits.
#[verifier::ext_equal]
pub struct BStep {
    /// The open-element stack afterwards.
    pub frames: Seq<FrameV>,
    /// What the step emits.
    pub out: BOut,
}

/// A node appended to the innermost open element.
pub open spec fn push_top(fs: Seq<FrameV>, nd: NodeV) -> Seq<FrameV> {
    let top = fs.last();
    fs.update(
        fs.len() - 1,
        FrameV { elem: ElemV { children: top.elem.children.push(nd), ..top.elem }, bindings: top.bindings },
    )
}

/// The builder's transition on one event: the single source of truth for
/// what `ElementBuilder::handle_event` does, over views.
pub open spec fn bstep(fs: Seq<FrameV>, ev: EventV) -> BStep {
    match ev {
        EventV::ElementStart(st) => {
            let binh = if fs.len() == 0 {
                std_bindings()
            } else {
                fs.last().bindings
            };
            let dinh = if fs.len() == 0 {
                None
            } else {
                fs.last().elem.default_ns
            };
            let bnew = binh + decls_of(st.attributes);
            let dnew = default_of(st.attributes, dinh);
            if (qprefix(st.name) matches Some(p) && resolve(bnew, p) is None) {
                BStep { frames: fs, out: BOut::Fail(BErrV::UnboundPrefix) }
            } else {
                match resolve_attrs_acc(bnew, Seq::empty(), st.attributes) {
                    AttrsResolved::Unbound => BStep {
                        frames: fs,
                        out: BOut::Fail(BErrV::UnboundPrefix),
                    },
                    AttrsResolved::Duplicate(k) => BStep {
                        frames: fs,
                        out: BOut::Fail(BErrV::DuplicateAttribute(k)),
                    },
                    AttrsResolved::Done(ats) => BStep {
                        frames: fs.push(
                            FrameV {
                                elem: ElemV {
                                    name: qlocal(st.name),
                                    ns: (match qprefix(st.name) {
                                        Some(p) => resolve(bnew, p),
                                        None => dnew,
                                    }),
                                    attributes: ats,
                                    children: Seq::empty(),
                                    prefixes: bnew,
                                    default_ns: dnew,
                                },
                                bindings: bnew,
                            },
                        ),
                        out: BOut::Quiet,
                    },
                }
            }
        },
        EventV::ElementEnd(nm) => {
            if fs.len() == 0 {
                BStep { frames: fs, out: BOut::Fail(BErrV::MismatchedTag(Seq::empty(), nm)) }
            } else {
                let top = fs.last();
                if (qprefix(nm) matches Some(p) && resolve(top.bindings, p) is None) {
                    BStep { frames: fs, out: BOut::Fail(BErrV::UnboundPrefix) }
                } else {
                    let nsr = (match qprefix(nm) {
                        Some(p) => resolve(top.bindings, p),
                        None => top.elem.default_ns,
                    });
                    if qlocal(nm) == top.elem.name && nsr == top.elem.ns {
                        if fs.len() == 1 {
                            BStep { frames: fs.drop_last(), out: BOut::Done(top.elem) }
                        } else {
                            BStep {
                                frames: push_top(
                                    fs.drop_last(),
                                    NodeV::ElementNode(top.elem),
                                ),
                                out: BOut::Quiet,
                            }
                        }
                    } else {
                        BStep {
                            frames: fs,
                            out: BOut::Fail(BErrV::MismatchedTag(top.elem.name, nm)),
                        }
                    }
                }
            }
        },
        EventV::Characters(t) => {
            if fs.len() == 0 {
                if all_ws(t) {
                    BStep { frames: fs, out: BOut::Quiet }
                } else {
                    BStep { frames: fs, out: BOut::Fail(BErrV::UnexpectedCharacterData) }
                }
            } else {
                BStep { frames: push_top(fs, NodeV::CharacterNode(t)), out: BOut::Quiet }
            }
        },
        EventV::CDATA(t) => {
            if fs.len() == 0 {
                BStep { frames: fs, out: BOut::Fail(BErrV::UnexpectedCharacterData) }
            } else {
                BStep { frames: push_top(fs, NodeV::CDATANode(t)), out: BOut::Quiet }
            }
        },
        EventV::Comment(t) => {
            if fs.len() == 0 {
                BStep { frames: fs, out: BOut::Fail(BErrV::UnexpectedCharacterData) }
            } else {
                BStep { frames: push_top(fs, NodeV::CommentNode(t)), out: BOut::Quiet }
            }
        },
        EventV::PI(t) => {
            if fs.len() == 0 {
                BStep { frames: fs, out: BOut::Fail(BErrV::UnexpectedCharacterData) }
            } else {
                BStep { frames: push_top(fs, NodeV::PINode(t)), out: BOut::Quiet }
            }
        },
    }
}

/// What parsing a whole document yields.
#[verifier::ext_equal]
pub enum ParseOut {
    /// Input exhausted, incomplete, or lexically malformed with no
    /// completed element.
    NoDoc,
    /// The first completed top-level element.
    Doc(ElemV),
    /// The structural error that stopped the parse.
    Errored(BErrV),
}

/// The whole-document parse: the builder transition folded over the
/// iterated token stream of the buffered text, a queued end tag first.
/// The single source of truth for `Element::parse_str`.
pub open spec fn brun(s: Seq<char>, pend: Option<Seq<char>>, fs: Seq<FrameV>) -> ParseOut
    decreases s.len(), (if pend is Some { 1int } else { 0int }) via brun_dec
{
    match pend {
        Some(nm) => {
            let st = bstep(fs, EventV::ElementEnd(nm));
            match st.out {
                BOut::Done(e) => ParseOut::Doc(e),
                BOut::Fail(er) => ParseOut::Errored(er),
                BOut::Quiet => brun(s, None, st.frames),
            }
        },
        None => match lex1(s) {
            Lex1::More => ParseOut::NoDoc,
            Lex1::Fail(k) => ParseOut::NoDoc,
            Lex1::Tok(ev, n, p2) => {
                let st = bstep(fs, ev);
                match st.out {
                    BOut::Done(e) => ParseOut::Doc(e),
                    BOut::Fail(er) => ParseOut::Errored(er),
                    BOut::Quiet => brun(s.skip(n), p2, st.frames),
                }
            },
        },
    }
}

#[via_fn]
proof fn brun_dec(s: Seq<char>, pend: Option<Seq<char>>, fs: Seq<FrameV>) {
    if pend is None {
        crate::parser::lemma_lex1_consumes(s);
    }
}

impl Element {
    /// Parses a document and returns the first completed top-level element,
    /// or the error that stopped the parse, exactly as [`brun`] describes
    /// it: the builder transition folded over the iterated token stream of
    /// the text.  Exhausted or incomplete input, and a lexical error, both
    /// surface as [`BuilderError::NoElement`]: either way no element was
    /// completed.
    #[verifier::rlimit(100)]
    pub fn parse_str(data: &str) -> (r: Result<Element, BuilderError>)
        ensures
            match brun(data@, None, Seq::empty()) {
                ParseOut::NoDoc => r matches Err(BuilderError::NoElement),
                ParseOut::Doc(dv) => r matches Ok(el) && elem_view(el) == dv,
                ParseOut::Errored(er) => r matches Err(e2) && berr_matches(e2, er),
            },
    {
        let mut p = crate::parser::Parser::new();
        let mut b = ElementBuilder::new();
        p.feed_str(data);
        proof {
            assert(p.remaining() =~= data@);
            assert(b.model() =~= Seq::<FrameV>::empty());
        }
        loop
            invariant
                p.wf(),
                brun(data@, None, Seq::empty()) == brun(
                    p.remaining(),
                    p.pending_end(),
                    b.model(),
                ),
            decreases p.remaining().len(), (if p.pending_end() is Some {
                1int
            } else {
                0int
            }),
        {
            let ghost rem0 = p.remaining();
            let ghost pend0 = p.pending_end();
            let ghost fs0 = b.model();
            match p.next_event() {
                None => {
                    proof {
                        assert(pend0 is None);
                        assert(lex1(rem0) is More);
                        assert(brun(rem0, pend0, fs0) == ParseOut::NoDoc);
                    }
                    return Err(BuilderError::NoElement);
                },
                Some(Err(_)) => {
                    proof {
                        assert(pend0 is None);
                        assert(lex1(rem0) is Fail);
                        assert(brun(rem0, pend0, fs0) == ParseOut::NoDoc);
                    }
                    return Err(BuilderError::NoElement);
                },
                Some(Ok((ev, _pos))) => {
                    let ghost evv = ev@;
                    let ghost evg = ev;
                    let ghost st = bstep(fs0, evv);
                    let ghost bfr0 = b.frames_view();
                    let out = b.handle_event(ev);
                    proof {
                        let bfr1 = b.frames_view();
                        let fs1 = b.model();
                        assert(fs0.len() == bfr0.len());
                        assert(fs1.len() == bfr1.len());
                        assert(forall|k: int|
                            0 <= k < bfr0.len() ==> #[trigger] fs0[k] == frame_view(bfr0[k]));
                        assert(forall|k: int|
                            0 <= k < bfr1.len() ==> #[trigger] fs1[k] == frame_view(bfr1[k]));
                        if bfr0.len() > 0 {
                            assert(fs0.last() == frame_view(bfr0.last()));
                        }
                        match evg {
                            Event::ElementStart(st0) => {
                                assert(evv == EventV::ElementStart(st0@));
                                assert(raw_view(st0.attributes) =~= raw_pairs(st0.attributes@));
                                match &out {
                                    None => {
                                        assert(fs1.last() == frame_view(bfr1.last()));
                                        assert(elem_view(bfr1.last().elem).children
                                            =~= Seq::<NodeV>::empty());
                                        assert forall|k: int|
                                            0 <= k < fs1.len() implies #[trigger] fs1[k]
                                            =~~= st.frames[k] by {
                                            if k < bfr0.len() {
                                                assert(bfr1[k] == bfr0[k]);
                                            }
                                        }
                                        assert(fs1 =~~= st.frames);
                                    },
                                    Some(Err(er)) => {
                                        assert(bfr1 == bfr0);
                                        assert(fs1 =~~= st.frames);
                                    },
                                    Some(Ok(e2)) => {
                                        assert(false);
                                    },
                                }
                            },
                            Event::ElementEnd(et0) => {
                                assert(evv == EventV::ElementEnd(et0.name@));
                                match &out {
                                    None => {
                                        assert(bfr0.len() >= 2);
                                        assert(frames_vview(bfr0.drop_last()) =~= fs0.drop_last());
                                        lemma_push_node_view(
                                            bfr0.drop_last(),
                                            bfr1,
                                            Xml::ElementNode(bfr0.last().elem),
                                        );
                                        assert(node_view(Xml::ElementNode(bfr0.last().elem))
                                            == NodeV::ElementNode(fs0.last().elem));
                                        assert(fs1 == st.frames);
                                    },
                                    Some(Ok(e2)) => {
                                        assert(elem_view(*e2) == fs0.last().elem);
                                        assert(fs1 =~~= fs0.drop_last());
                                        assert(fs1 =~~= st.frames);
                                    },
                                    Some(Err(er)) => {
                                        assert(bfr1 == bfr0);
                                        assert(fs1 =~~= st.frames);
                                    },
                                }
                            },
                            Event::Characters(t0) => {
                                assert(evv == EventV::Characters(t0@));
                                assert(depth_node(evg) == Some(Xml::CharacterNode(t0)));
                                if bfr0.len() == 0 {
                                    assert(bfr1 == bfr0);
                                    assert(fs1 =~~= st.frames);
                                } else {
                                    assert(out is None);
                                    lemma_push_node_view(bfr0, bfr1, Xml::CharacterNode(t0));
                                    assert(fs1 == st.frames);
                                }
                            },
                            Event::CDATA(t0) => {
                                assert(evv == EventV::CDATA(t0@));
                                assert(depth_node(evg) == Some(Xml::CDATANode(t0)));
                                if bfr0.len() == 0 {
                                    assert(bfr1 == bfr0);
                                    assert(fs1 =~~= st.frames);
                                } else {
                                    assert(out is None);
                                    lemma_push_node_view(bfr0, bfr1, Xml::CDATANode(t0));
                                    assert(fs1 == st.frames);
                                }
                            },
                            Event::Comment(t0) => {
                                assert(evv == EventV::Comment(t0@));
                                assert(depth_node(evg) == Some(Xml::CommentNode(t0)));
                                if bfr0.len() == 0 {
                                    assert(bfr1 == bfr0);
                                    assert(fs1 =~~= st.frames);
                                } else {
                                    assert(out is None);
                                    lemma_push_node_view(bfr0, bfr1, Xml::CommentNode(t0));
                                    assert(fs1 == st.frames);
                                }
                            },
                            Event::PI(t0) => {
                                assert(evv == EventV::PI(t0@));
                                assert(depth_node(evg) == Some(Xml::PINode(t0)));
                                if bfr0.len() == 0 {
                                    assert(bfr1 == bfr0);
                                    assert(fs1 =~~= st.frames);
                                } else {
                                    assert(out is None);
                                    lemma_push_node_view(bfr0, bfr1, Xml::PINode(t0));
                                    assert(fs1 == st.frames);
                                }
                            },
                        }
                        assert(b.model() == st.frames);
                        assert(match out {
                            None => st.out == BOut::Quiet,
                            Some(Ok(e2)) => st.out == BOut::Done(elem_view(e2)),
                            Some(Err(e2)) => st.out matches BOut::Fail(erv) && berr_matches(
                                e2,
                                erv,
                            ),
                        });
                    }
                    match out {
                        Some(Ok(el)) => {
                            proof {
                                assert(st.out == BOut::Done(elem_view(el)));
                                assert(brun(rem0, pend0, fs0) == ParseOut::Doc(elem_view(el)));
                            }
                            return Ok(el);
                        },
                        Some(Err(er)) => {
                            proof {
                                assert(st.out matches BOut::Fail(erv) && berr_matches(er, erv));
                                assert(brun(rem0, pend0, fs0) matches ParseOut::Errored(erv2)
                                    && berr_matches(er, erv2));
                            }
                            return Err(er);
                        },
                        None => {
                            proof {
                                assert(st.out == BOut::Quiet);
                                assert(b.model() == st.frames);
                                assert(brun(rem0, pend0, fs0) == brun(
                                    p.remaining(),
                                    p.pending_end(),
                                    b.model(),
                                ));
                            }
                        },
                    }
                },
            }
        }
    }
}

impl core::str::FromStr for Element {
    type Err = BuilderError;

    /// Parses the text as [`Element::parse_str`] does.
    fn from_str(data: &str) -> (r: Result<Element, BuilderError>) {
        Element::parse_str(data)
    }
}

} // verus!
