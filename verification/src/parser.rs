//! Recursive tree builder.
//!
//! [`Element::parse`] consumes leaves from a [`Syntaxer`] and builds the
//! element tree: an opening leaf starts an element, nested openings recurse,
//! text runs become [`Child::Text`] children unless they are whitespace-only,
//! and a closing leaf must carry the name of the element being closed.
//! Elements whose name is in the void set ([`is_void_name`]) never take
//! children. The spec functions [`build_children`] and [`build_root`] state
//! the exact tree (or error) built from a leaf stream; the exec functions are
//! proved equal to them.

use vstd::prelude::*;
use vstd::string::StrSliceExecFns;

use crate::error::{ErrorModel, ExpectedLeaves, ParseError};
use crate::lexer::is_space_char;
use crate::syntaxer::{
    initial_syn_state, leaf_stream_from, lemma_syn_next_stream, syn_measure, BodyModel,
    ElementBody, EndModel, Leaf, LeafModel, LeafStream, Syntaxer, Tag, TagModel, tag_seq_view,
};

verus! {

broadcast use vstd::seq::group_seq_axioms, vstd::std_specs::vec::group_vec_axioms;

/// Whether two string slices hold the same characters.
fn str_eq_chars(a: &str, b: &str) -> (r: bool)
    ensures
        r == (a@ == b@),
{
    let alen = a.unicode_len();
    let blen = b.unicode_len();
    if alen != blen {
        return false;
    }
    let mut i: usize = 0;
    while i < alen
        invariant
            i <= alen,
            alen == a@.len(),
            blen == b@.len(),
            alen == blen,
            forall|j: int| 0 <= j < i ==> a@[j] == b@[j],
        decreases alen - i,
    {
        if a.get_char(i) != b.get_char(i) {
            return false;
        }
        i = i + 1;
    }
    proof {
        assert(a@ =~= b@);
    }
    true
}

/// The void set: names of elements that never own children, even when their
/// opening tag is not self-closing.
pub open spec fn is_void_name(name: Seq<char>) -> bool {
    ||| name == "area"@
    ||| name == "base"@
    ||| name == "br"@
    ||| name == "col"@
    ||| name == "command"@
    ||| name == "embed"@
    ||| name == "hr"@
    ||| name == "img"@
    ||| name == "input"@
    ||| name == "keygen"@
    ||| name == "link"@
    ||| name == "meta"@
    ||| name == "param"@
    ||| name == "source"@
    ||| name == "track"@
    ||| name == "wbr"@
}

/// Membership in the void set.
pub fn is_void(name: &str) -> (r: bool)
    ensures
        r == is_void_name(name@),
{
    str_eq_chars(name, "area") || str_eq_chars(name, "base") || str_eq_chars(name, "br")
        || str_eq_chars(name, "col") || str_eq_chars(name, "command") || str_eq_chars(name, "embed")
        || str_eq_chars(name, "hr") || str_eq_chars(name, "img") || str_eq_chars(name, "input")
        || str_eq_chars(name, "keygen") || str_eq_chars(name, "link") || str_eq_chars(name, "meta")
        || str_eq_chars(name, "param") || str_eq_chars(name, "source") || str_eq_chars(
        name,
        "track",
    ) || str_eq_chars(name, "wbr")
}

/// Whether a text run consists of whitespace characters only.
pub open spec fn ws_only(s: Seq<char>) -> bool {
    forall|i: int| 0 <= i < s.len() ==> is_space_char(s[i])
}

/// Whether a text run consists of whitespace characters only.
pub fn is_ws_only(s: &str) -> (r: bool)
    ensures
        r == ws_only(s@),
{
    let len = s.unicode_len();
    let mut i: usize = 0;
    while i < len
        invariant
            i <= len,
            len == s@.len(),
            forall|j: int| 0 <= j < i ==> is_space_char(s@[j]),
        decreases len - i,
    {
        if !crate::lexer::is_space(s.get_char(i)) {
            return false;
        }
        i = i + 1;
    }
    true
}

/// A node of the element tree: a nested element or a text run.
#[derive(Debug)]
pub enum Child {
    Element(Element),
    Text(String),
}

/// A parsed element: its name, its attributes in order, and its children in
/// order.
#[derive(Debug)]
pub struct Element {
    pub name: String,
    pub tags: Vec<Tag>,
    pub children: Vec<Child>,
}

/// Mathematical mirror of [`Child`].
pub enum ChildModel {
    Element(ElementModel),
    Text(Seq<char>),
}

/// Mathematical mirror of [`Element`].
pub struct ElementModel {
    pub name: Seq<char>,
    pub tags: Seq<TagModel>,
    pub children: Seq<ChildModel>,
}

/// The tree a parsed element stands for.
pub open spec fn element_view(e: Element) -> ElementModel
    decreases e, 2int,
    via element_view_dec
{
    ElementModel {
        name: e.name@,
        tags: tag_seq_view(e.tags@),
        children: child_seq_view(e.children@),
    }
}

#[via_fn]
proof fn element_view_dec(e: Element) {
    assert(decreases_to!(e => e.children));
    assert(decreases_to!(e.children => e.children@));
}

/// The tree node a parsed child stands for.
pub open spec fn child_view(c: Child) -> ChildModel
    decreases c, 0int,
{
    match c {
        Child::Element(e) => ChildModel::Element(element_view(e)),
        Child::Text(s) => ChildModel::Text(s@),
    }
}

/// The tree nodes a vector of children stands for.
pub open spec fn child_seq_view(s: Seq<Child>) -> Seq<ChildModel>
    decreases s, 1int,
    via child_seq_view_dec
{
    if s.len() == 0 {
        Seq::empty()
    } else {
        seq![child_view(s[0])] + child_seq_view(s.subrange(1, s.len() as int))
    }
}

#[via_fn]
proof fn child_seq_view_dec(s: Seq<Child>) {
    if s.len() > 0 {
        assert(decreases_to!(s => s[0]));
        assert(decreases_to!(s => s.subrange(1, s.len() as int)));
    }
}

/// The node sequence a child vector stands for, pointwise.
pub proof fn lemma_child_seq_view(s: Seq<Child>)
    ensures
        child_seq_view(s).len() == s.len(),
        forall|i: int| 0 <= i < s.len() ==> child_seq_view(s)[i] == child_view(s[i]),
    decreases s.len(),
{
    if s.len() > 0 {
        let tail = s.subrange(1, s.len() as int);
        lemma_child_seq_view(tail);
        assert forall|i: int| 0 <= i < s.len() implies child_seq_view(s)[i] == child_view(s[i]) by {
            if i > 0 {
                assert(tail[i - 1] == s[i]);
                assert(child_seq_view(s)[i] == child_seq_view(tail)[i - 1]);
            }
        }
    }
}

/// The stream after its first leaf.
pub open spec fn stream_tail(ls: LeafStream) -> LeafStream {
    LeafStream { leaves: ls.leaves.drop_first(), err: ls.err }
}

/// The element a body leaf and a child sequence make.
pub open spec fn element_of(b: BodyModel, children: Seq<ChildModel>) -> ElementModel {
    ElementModel { name: b.name, tags: b.tags, children }
}

/// One round of child collection for the open element `b`, children so far
/// `acc`, consuming leaves from `ls`; `fuel` bounds the recursion and is
/// discharged by [`lemma_build_children_enough`].
///
/// A matching closing leaf completes the element and returns the unconsumed
/// remainder of the stream; a closing leaf with any other name is a
/// mismatched-end-tag error citing both names and both lines; a text run
/// becomes a child unless whitespace-only; an opening leaf builds a nested
/// element (childless at once when its name is void); end of the stream is
/// the stream's own error if it carries one, else an unterminated-element
/// error.
pub open spec fn build_children(
    b: BodyModel,
    acc: Seq<ChildModel>,
    ls: LeafStream,
    fuel: nat,
) -> Option<Result<(ElementModel, LeafStream), ErrorModel>>
    decreases fuel,
{
    if fuel == 0 {
        None
    } else if ls.leaves.len() == 0 {
        match ls.err {
            Some(e) => Some(Err(e)),
            None => Some(Err(ErrorModel::UnterminatedElement)),
        }
    } else {
        let f2 = (fuel - 1) as nat;
        match ls.leaves[0] {
            LeafModel::End(e) => if e.name == b.name {
                Some(Ok((element_of(b, acc), stream_tail(ls))))
            } else {
                Some(
                    Err(
                        ErrorModel::MismatchedEndTag {
                            expected_name: b.name,
                            expected_line: b.line,
                            found_name: e.name,
                            found_line: e.line,
                        },
                    ),
                )
            },
            LeafModel::Content(t) => if ws_only(t) {
                build_children(b, acc, stream_tail(ls), f2)
            } else {
                build_children(b, acc.push(ChildModel::Text(t)), stream_tail(ls), f2)
            },
            LeafModel::Body(b2) => if is_void_name(b2.name) {
                build_children(
                    b,
                    acc.push(ChildModel::Element(element_of(b2, Seq::empty()))),
                    stream_tail(ls),
                    f2,
                )
            } else {
                match build_children(b2, Seq::empty(), stream_tail(ls), f2) {
                    None => None,
                    Some(Err(e)) => Some(Err(e)),
                    Some(Ok((child, rest))) => build_children(
                        b,
                        acc.push(ChildModel::Element(child)),
                        rest,
                        f2,
                    ),
                }
            },
        }
    }
}

/// Child collection consumes at least one leaf and keeps the stream's error
/// tail.
pub proof fn lemma_build_children_range(b: BodyModel, acc: Seq<ChildModel>, ls: LeafStream, fuel: nat)
    ensures
        match build_children(b, acc, ls, fuel) {
            Some(Ok((_, rest))) => rest.leaves.len() < ls.leaves.len() && rest.err == ls.err,
            _ => true,
        },
    decreases fuel,
{
    if fuel > 0 && ls.leaves.len() > 0 {
        let f2 = (fuel - 1) as nat;
        match ls.leaves[0] {
            LeafModel::End(_) => {},
            LeafModel::Content(t) => if ws_only(t) {
                lemma_build_children_range(b, acc, stream_tail(ls), f2);
            } else {
                lemma_build_children_range(b, acc.push(ChildModel::Text(t)), stream_tail(ls), f2);
            },
            LeafModel::Body(b2) => if is_void_name(b2.name) {
                lemma_build_children_range(
                    b,
                    acc.push(ChildModel::Element(element_of(b2, Seq::empty()))),
                    stream_tail(ls),
                    f2,
                );
            } else {
                lemma_build_children_range(b2, Seq::empty(), stream_tail(ls), f2);
                match build_children(b2, Seq::empty(), stream_tail(ls), f2) {
                    Some(Ok((child, rest))) => {
                        lemma_build_children_range(
                            b,
                            acc.push(ChildModel::Element(child)),
                            rest,
                            f2,
                        );
                    },
                    _ => {},
                }
            },
        }
    }
}

/// Once the fuel suffices, more fuel does not change the result.
pub proof fn lemma_build_children_mono(
    b: BodyModel,
    acc: Seq<ChildModel>,
    ls: LeafStream,
    f1: nat,
    f2: nat,
)
    requires
        f1 <= f2,
        build_children(b, acc, ls, f1) is Some,
    ensures
        build_children(b, acc, ls, f2) == build_children(b, acc, ls, f1),
    decreases f1,
{
    if f1 > 0 && ls.leaves.len() > 0 {
        let g1 = (f1 - 1) as nat;
        let g2 = (f2 - 1) as nat;
        match ls.leaves[0] {
            LeafModel::End(_) => {},
            LeafModel::Content(t) => if ws_only(t) {
                lemma_build_children_mono(b, acc, stream_tail(ls), g1, g2);
            } else {
                lemma_build_children_mono(b, acc.push(ChildModel::Text(t)), stream_tail(ls), g1, g2);
            },
            LeafModel::Body(b2) => if is_void_name(b2.name) {
                lemma_build_children_mono(
                    b,
                    acc.push(ChildModel::Element(element_of(b2, Seq::empty()))),
                    stream_tail(ls),
                    g1,
                    g2,
                );
            } else {
                lemma_build_children_mono(b2, Seq::empty(), stream_tail(ls), g1, g2);
                match build_children(b2, Seq::empty(), stream_tail(ls), g1) {
                    Some(Ok((child, rest))) => {
                        lemma_build_children_mono(
                            b,
                            acc.push(ChildModel::Element(child)),
                            rest,
                            g1,
                            g2,
                        );
                    },
                    _ => {},
                }
            },
        }
    }
}

/// One leaf of fuel beyond the stream's length always suffices.
pub proof fn lemma_build_children_enough(b: BodyModel, acc: Seq<ChildModel>, ls: LeafStream, fuel: nat)
    requires
        fuel >= ls.leaves.len() + 1,
    ensures
        build_children(b, acc, ls, fuel) is Some,
    decreases fuel,
{
    if ls.leaves.len() > 0 {
        let f2 = (fuel - 1) as nat;
        match ls.leaves[0] {
            LeafModel::End(_) => {},
            LeafModel::Content(t) => if ws_only(t) {
                lemma_build_children_enough(b, acc, stream_tail(ls), f2);
            } else {
                lemma_build_children_enough(b, acc.push(ChildModel::Text(t)), stream_tail(ls), f2);
            },
            LeafModel::Body(b2) => if is_void_name(b2.name) {
                lemma_build_children_enough(
                    b,
                    acc.push(ChildModel::Element(element_of(b2, Seq::empty()))),
                    stream_tail(ls),
                    f2,
                );
            } else {
                lemma_build_children_enough(b2, Seq::empty(), stream_tail(ls), f2);
                lemma_build_children_range(b2, Seq::empty(), stream_tail(ls), f2);
                match build_children(b2, Seq::empty(), stream_tail(ls), f2) {
                    Some(Ok((child, rest))) => {
                        lemma_build_children_enough(
                            b,
                            acc.push(ChildModel::Element(child)),
                            rest,
                            f2,
                        );
                    },
                    _ => {},
                }
            },
        }
    }
}

/// [`build_children`] at always-sufficient fuel: the total child collector.
pub open spec fn children_total(b: BodyModel, acc: Seq<ChildModel>, ls: LeafStream) -> Result<
    (ElementModel, LeafStream),
    ErrorModel,
> {
    match build_children(b, acc, ls, (ls.leaves.len() + 1) as nat) {
        Some(r) => r,
        None => arbitrary(),
    }
}

/// The defining equations of [`children_total`], stated without fuel.
pub proof fn lemma_children_total_unfold(b: BodyModel, acc: Seq<ChildModel>, ls: LeafStream)
    ensures
        children_total(b, acc, ls) == (if ls.leaves.len() == 0 {
            match ls.err {
                Some(e) => Err::<(ElementModel, LeafStream), ErrorModel>(e),
                None => Err(ErrorModel::UnterminatedElement),
            }
        } else {
            match ls.leaves[0] {
                LeafModel::End(e) => if e.name == b.name {
                    Ok((element_of(b, acc), stream_tail(ls)))
                } else {
                    Err(
                        ErrorModel::MismatchedEndTag {
                            expected_name: b.name,
                            expected_line: b.line,
                            found_name: e.name,
                            found_line: e.line,
                        },
                    )
                },
                LeafModel::Content(t) => if ws_only(t) {
                    children_total(b, acc, stream_tail(ls))
                } else {
                    children_total(b, acc.push(ChildModel::Text(t)), stream_tail(ls))
                },
                LeafModel::Body(b2) => if is_void_name(b2.name) {
                    children_total(
                        b,
                        acc.push(ChildModel::Element(element_of(b2, Seq::empty()))),
                        stream_tail(ls),
                    )
                } else {
                    match children_total(b2, Seq::empty(), stream_tail(ls)) {
                        Err(e) => Err(e),
                        Ok((child, rest)) => children_total(
                            b,
                            acc.push(ChildModel::Element(child)),
                            rest,
                        ),
                    }
                },
            }
        }),
{
    let fuel = (ls.leaves.len() + 1) as nat;
    lemma_build_children_enough(b, acc, ls, fuel);
    if ls.leaves.len() > 0 {
        let f2 = (fuel - 1) as nat;
        let tail = stream_tail(ls);
        assert(tail.leaves.len() == ls.leaves.len() - 1);
        match ls.leaves[0] {
            LeafModel::End(_) => {},
            LeafModel::Content(t) => {
                let acc2 = if ws_only(t) {
                    acc
                } else {
                    acc.push(ChildModel::Text(t))
                };
                lemma_build_children_enough(b, acc2, tail, f2);
                lemma_build_children_mono(b, acc2, tail, f2, (tail.leaves.len() + 1) as nat);
            },
            LeafModel::Body(b2) => if is_void_name(b2.name) {
                let acc2 = acc.push(ChildModel::Element(element_of(b2, Seq::empty())));
                lemma_build_children_enough(b, acc2, tail, f2);
                lemma_build_children_mono(b, acc2, tail, f2, (tail.leaves.len() + 1) as nat);
            } else {
                lemma_build_children_enough(b2, Seq::empty(), tail, f2);
                lemma_build_children_mono(b2, Seq::empty(), tail, f2, (tail.leaves.len() + 1) as nat);
                lemma_build_children_range(b2, Seq::empty(), tail, f2);
                match build_children(b2, Seq::empty(), tail, f2) {
                    Some(Ok((child, rest))) => {
                        let acc2 = acc.push(ChildModel::Element(child));
                        lemma_build_children_enough(b, acc2, rest, (rest.leaves.len() + 1) as nat);
                        lemma_build_children_mono(b, acc2, rest, (rest.leaves.len() + 1) as nat, f2);
                    },
                    _ => {},
                }
            },
        }
    }
}

/// The element built from an opening leaf `b` already consumed, with the
/// remaining stream `ls` ahead: void names take no children at all, any
/// other name collects children until its matching closing leaf.
pub open spec fn elem_after_body(b: BodyModel, ls: LeafStream) -> Result<
    (ElementModel, LeafStream),
    ErrorModel,
> {
    if is_void_name(b.name) {
        Ok((element_of(b, Seq::empty()), ls))
    } else {
        children_total(b, Seq::empty(), ls)
    }
}

/// The root element built from a leaf stream: the first leaf must open an
/// element; anything else (or an empty stream) is an error. Leaves after the
/// root's closing tag are left unread.
pub open spec fn build_root(ls: LeafStream) -> Result<(ElementModel, LeafStream), ErrorModel> {
    if ls.leaves.len() == 0 {
        match ls.err {
            Some(e) => Err(e),
            None => Err(ErrorModel::UnexpectedLeaf { found: None, expected: ExpectedLeaves::Body }),
        }
    } else {
        match ls.leaves[0] {
            LeafModel::Body(b) => elem_after_body(b, stream_tail(ls)),
            other => Err(ErrorModel::UnexpectedLeaf {
                found: Some(other),
                expected: ExpectedLeaves::Body,
            }),
        }
    }
}

/// What parsing `text` yields: the root element, or the first error.
pub open spec fn parse_spec(text: Seq<char>) -> Result<ElementModel, ErrorModel> {
    match build_root(leaf_stream_from(text, initial_syn_state())) {
        Ok((em, _)) => Ok(em),
        Err(e) => Err(e),
    }
}

impl Child {
    /// Turn one consumed leaf into a child: a whitespace-only text run makes
    /// no child, any other text run a [`Child::Text`], an opening leaf a
    /// nested [`Child::Element`] (consuming that element's leaves), and a
    /// closing leaf is out of place here.
    pub fn parse(leaf: Leaf, leaves: &mut Syntaxer) -> (r: Result<Option<Child>, ParseError>)
        requires
            old(leaves).wf(),
        ensures
            final(leaves).wf(),
            final(leaves).input() == old(leaves).input(),
            r matches Ok(_) ==> syn_measure(final(leaves).input(), final(leaves).st())
                <= syn_measure(old(leaves).input(), old(leaves).st()),
            match leaf@ {
                LeafModel::Content(t) => {
                    &&& final(leaves).st() == old(leaves).st()
                    &&& if ws_only(t) {
                        r matches Ok(o) && o is None
                    } else {
                        r matches Ok(o) && o matches Some(c) && child_view(c) == ChildModel::Text(t)
                    }
                },
                LeafModel::Body(b) => match elem_after_body(
                    b,
                    leaf_stream_from(old(leaves).input(), old(leaves).st()),
                ) {
                    Ok((em, rest)) => {
                        &&& r matches Ok(o) && o matches Some(c) && child_view(c)
                            == ChildModel::Element(em)
                        &&& leaf_stream_from(final(leaves).input(), final(leaves).st()) == rest
                    },
                    Err(em) => r matches Err(e) && e@ == em,
                },
                LeafModel::End(_) => {
                    &&& r matches Err(e) && e@ == (ErrorModel::UnexpectedLeaf {
                        found: Some(leaf@),
                        expected: ExpectedLeaves::ContentOrBody,
                    })
                    &&& final(leaves).st() == old(leaves).st()
                },
            },
        decreases syn_measure(old(leaves).input(), old(leaves).st()), 1int,
    {
        match leaf {
            Leaf::Content(t) => {
                if is_ws_only(t.as_str()) {
                    Ok(None)
                } else {
                    Ok(Some(Child::Text(t)))
                }
            },
            Leaf::Body(b) => match Element::parse_after_body(b, leaves) {
                Ok(e) => Ok(Some(Child::Element(e))),
                Err(e) => Err(e),
            },
            Leaf::End(e) => Err(ParseError::UnexpectedLeaf {
                found: Some(Leaf::End(e)),
                expected: ExpectedLeaves::ContentOrBody,
            }),
        }
    }

    /// The nested element, if this child is one.
    pub fn element(&self) -> (r: Option<&Element>)
        ensures
            match r {
                Some(e) => child_view(*self) == ChildModel::Element(element_view(*e)),
                None => child_view(*self) matches ChildModel::Text(_),
            },
    {
        match self {
            Child::Element(e) => Some(e),
            Child::Text(_) => None,
        }
    }

    /// The text run, if this child is one.
    pub fn text(&self) -> (r: Option<&str>)
        ensures
            match r {
                Some(t) => child_view(*self) == ChildModel::Text(t@),
                None => child_view(*self) matches ChildModel::Element(_),
            },
    {
        match self {
            Child::Text(t) => Some(t.as_str()),
            Child::Element(_) => None,
        }
    }
}

impl Element {
    /// Parse the root element from the leaf stream; exactly [`build_root`]
    /// over the stream of leaves ahead. Leaves after the root's closing tag
    /// are left unread.
    pub fn parse(leaves: &mut Syntaxer) -> (r: Result<Element, ParseError>)
        requires
            old(leaves).wf(),
        ensures
            final(leaves).wf(),
            final(leaves).input() == old(leaves).input(),
            match build_root(leaf_stream_from(old(leaves).input(), old(leaves).st())) {
                Ok((em, rest)) => {
                    &&& r matches Ok(e) && element_view(e) == em
                    &&& leaf_stream_from(final(leaves).input(), final(leaves).st()) == rest
                },
                Err(em) => r matches Err(e) && e@ == em,
            },
    {
        proof {
            lemma_syn_next_stream(old(leaves).input(), old(leaves).st());
        }
        match leaves.next() {
            Err(e) => Err(e),
            Ok(None) => Err(ParseError::UnexpectedLeaf {
                found: None,
                expected: ExpectedLeaves::Body,
            }),
            Ok(Some(leaf)) => match leaf {
                Leaf::Body(b) => Self::parse_after_body(b, leaves),
                other => Err(ParseError::UnexpectedLeaf {
                    found: Some(other),
                    expected: ExpectedLeaves::Body,
                }),
            },
        }
    }

    /// Build the element whose opening leaf `body` has just been consumed;
    /// exactly [`elem_after_body`] over the stream of leaves ahead.
    fn parse_after_body(body: ElementBody, leaves: &mut Syntaxer) -> (r: Result<Element, ParseError>)
        requires
            old(leaves).wf(),
        ensures
            final(leaves).wf(),
            final(leaves).input() == old(leaves).input(),
            r matches Ok(_) ==> syn_measure(final(leaves).input(), final(leaves).st())
                <= syn_measure(old(leaves).input(), old(leaves).st()),
            match elem_after_body(body@, leaf_stream_from(old(leaves).input(), old(leaves).st())) {
                Ok((em, rest)) => {
                    &&& r matches Ok(e) && element_view(e) == em
                    &&& leaf_stream_from(final(leaves).input(), final(leaves).st()) == rest
                },
                Err(em) => r matches Err(e) && e@ == em,
            },
        decreases syn_measure(old(leaves).input(), old(leaves).st()), 0int,
    {
        let ghost text = leaves.input();
        let ghost ss0 = leaves.st();
        let ghost ls0 = leaf_stream_from(text, ss0);
        let ghost bm = body@;
        if is_void(body.name.as_str()) {
            let r = Element { name: body.name, tags: body.tags, children: Vec::new() };
            proof {
                assert(element_view(r).children =~= Seq::<ChildModel>::empty());
                assert(element_view(r) == element_of(bm, Seq::<ChildModel>::empty()));
            }
            return Ok(r);
        }
        let mut children: Vec<Child> = Vec::new();
        proof {
            assert(child_seq_view(children@) =~= Seq::<ChildModel>::empty());
        }
        loop
            invariant_except_break
                leaves.wf(),
                leaves.input() == text,
                text == old(leaves).input(),
                ss0 == old(leaves).st(),
                ls0 == leaf_stream_from(text, ss0),
                bm == body@,
                !is_void_name(body@.name),
                syn_measure(text, leaves.st()) <= syn_measure(text, ss0),
                children_total(body@, Seq::<ChildModel>::empty(), ls0) == children_total(
                    body@,
                    child_seq_view(children@),
                    leaf_stream_from(text, leaves.st()),
                ),
            decreases syn_measure(text, leaves.st()),
        {
            let ghost ss_h = leaves.st();
            let ghost cs_h = children@;
            let ghost acc_h = child_seq_view(children@);
            let ghost ls_h = leaf_stream_from(text, ss_h);
            proof {
                lemma_syn_next_stream(text, ss_h);
                lemma_children_total_unfold(body@, acc_h, ls_h);
                lemma_child_seq_view(cs_h);
            }
            match leaves.next() {
                Err(e) => {
                    return Err(e);
                },
                Ok(None) => {
                    return Err(ParseError::UnterminatedElement);
                },
                Ok(Some(leaf)) => match leaf {
                    Leaf::End(endv) => {
                        if endv.name == body.name {
                            let r = Element { name: body.name, tags: body.tags, children };
                            proof {
                                assert(element_view(r).name == bm.name);
                                assert(element_view(r).tags == bm.tags);
                                assert(element_view(r).children == acc_h);
                                assert(element_view(r) == element_of(bm, acc_h));
                            }
                            return Ok(r);
                        } else {
                            return Err(ParseError::MismatchedEndTag {
                                expected_name: body.name,
                                expected_line: body.line,
                                found_name: endv.name,
                                found_line: endv.line,
                            });
                        }
                    },
                    other => {
                        let child = match Child::parse(other, leaves) {
                            Ok(c) => c,
                            Err(e) => {
                                return Err(e);
                            },
                        };
                        if let Some(c) = child {
                            let ghost cm = child_view(c);
                            children.push(c);
                            proof {
                                lemma_child_seq_view(children@);
                                assert(child_seq_view(children@) =~= acc_h.push(cm));
                            }
                        }
                    },
                },
            }
        }
    }

    /// The first child element named `name`, if any.
    pub fn get_name(&self, name: &str) -> (r: Option<&Element>)
        ensures
            match r {
                Some(e) => find_named(element_view(*self).children, name@) == Some(element_view(*e)),
                None => find_named(element_view(*self).children, name@) is None,
            },
    {
        let ghost cs = element_view(*self).children;
        proof {
            lemma_child_seq_view(self.children@);
        }
        let n = self.children.len();
        let mut i: usize = 0;
        while i < n
            invariant
                i <= n,
                n == self.children@.len(),
                cs == element_view(*self).children,
                cs.len() == n,
                cs == child_seq_view(self.children@),
                find_named(cs, name@) == find_named_from(cs, name@, i as int),
            decreases n - i,
        {
            proof {
                lemma_child_seq_view(self.children@);
            }
            match &self.children[i] {
                Child::Element(e) => {
                    if str_eq_chars(e.name.as_str(), name) {
                        return Some(e);
                    }
                },
                Child::Text(_) => {},
            }
            i = i + 1;
        }
        None
    }

    /// The child at `index`, if it exists.
    pub fn get(&self, index: usize) -> (r: Option<&Child>)
        ensures
            match r {
                Some(c) => index < element_view(*self).children.len() && child_view(*c)
                    == element_view(*self).children[index as int],
                None => index >= element_view(*self).children.len(),
            },
    {
        proof {
            lemma_child_seq_view(self.children@);
        }
        if index < self.children.len() {
            Some(&self.children[index])
        } else {
            None
        }
    }

    /// The element's name.
    pub fn name(&self) -> (r: &str)
        ensures
            r@ == element_view(*self).name,
    {
        self.name.as_str()
    }

    /// The element's attributes, in source order.
    pub fn tags(&self) -> (r: &Vec<Tag>)
        ensures
            tag_seq_view(r@) == element_view(*self).tags,
    {
        &self.tags
    }

    /// The element's children, in source order.
    pub fn children(&self) -> (r: &Vec<Child>)
        ensures
            child_seq_view(r@) == element_view(*self).children,
    {
        &self.children
    }
}

/// The first child element named `name` among `children`, scanning from
/// index `i`.
pub open spec fn find_named_from(children: Seq<ChildModel>, name: Seq<char>, i: int) -> Option<
    ElementModel,
>
    decreases children.len() - i,
{
    if i < 0 || i >= children.len() {
        None
    } else {
        match children[i] {
            ChildModel::Element(e) => if e.name == name {
                Some(e)
            } else {
                find_named_from(children, name, i + 1)
            },
            ChildModel::Text(_) => find_named_from(children, name, i + 1),
        }
    }
}

/// The first child element named `name` among `children`, if any.
pub open spec fn find_named(children: Seq<ChildModel>, name: Seq<char>) -> Option<ElementModel> {
    find_named_from(children, name, 0)
}

/// A void-named opening leaf completes at once: the element gets the body's
/// name and attributes and zero children, and the leaves after it are left
/// untouched for the enclosing element — whatever follows becomes a sibling,
/// never a child.
pub proof fn lemma_void_takes_no_children(b: BodyModel, ls: LeafStream)
    requires
        is_void_name(b.name),
    ensures
        elem_after_body(b, ls) == Ok::<(ElementModel, LeafStream), ErrorModel>(
            (element_of(b, Seq::<ChildModel>::empty()), ls),
        ),
{
}

/// Inside any element, a void-named opening leaf becomes a childless element
/// child and the leaf after it is processed as the next sibling, at whatever
/// nesting level.
pub proof fn lemma_void_child_is_sibling(
    b: BodyModel,
    b2: BodyModel,
    acc: Seq<ChildModel>,
    ls: LeafStream,
)
    requires
        ls.leaves.len() > 0,
        ls.leaves[0] == LeafModel::Body(b2),
        is_void_name(b2.name),
    ensures
        children_total(b, acc, ls) == children_total(
            b,
            acc.push(ChildModel::Element(element_of(b2, Seq::<ChildModel>::empty()))),
            stream_tail(ls),
        ),
{
    lemma_children_total_unfold(b, acc, ls);
}

/// An opening leaf followed at once by a closing leaf of the same name —
/// exactly what a self-closing tag synthesizes — yields the element with the
/// body's name and attributes and zero children, whatever line the closing
/// leaf carries; so `<x a="v"/>` and `<x a="v"></x>` build the same element.
/// (For a void name the closing leaf is not even consumed.)
pub proof fn lemma_immediate_close(b: BodyModel, e: EndModel, ls: LeafStream)
    requires
        ls.leaves.len() > 0,
        ls.leaves[0] == LeafModel::End(e),
        e.name == b.name,
    ensures
        elem_after_body(b, ls) == Ok::<(ElementModel, LeafStream), ErrorModel>(
            (
                element_of(b, Seq::<ChildModel>::empty()),
                if is_void_name(b.name) {
                    ls
                } else {
                    stream_tail(ls)
                },
            ),
        ),
{
    if !is_void_name(b.name) {
        lemma_children_total_unfold(b, Seq::<ChildModel>::empty(), ls);
    }
}

/// A closing leaf whose name differs from the open element's name fails with
/// `MismatchedEndTag` citing the open tag's name and line and the close
/// tag's name and line — the error's lines are those of the two tags
/// involved, not of anything else.
pub proof fn lemma_mismatched_end(b: BodyModel, acc: Seq<ChildModel>, e: EndModel, ls: LeafStream)
    requires
        ls.leaves.len() > 0,
        ls.leaves[0] == LeafModel::End(e),
        e.name != b.name,
    ensures
        children_total(b, acc, ls) == Err::<(ElementModel, LeafStream), ErrorModel>(
            ErrorModel::MismatchedEndTag {
                expected_name: b.name,
                expected_line: b.line,
                found_name: e.name,
                found_line: e.line,
            },
        ),
{
    lemma_children_total_unfold(b, acc, ls);
}

/// A whitespace-only text run between tags produces no child at all: child
/// collection continues on the next leaf with the children unchanged.
pub proof fn lemma_whitespace_run_dropped(
    b: BodyModel,
    acc: Seq<ChildModel>,
    t: Seq<char>,
    ls: LeafStream,
)
    requires
        ls.leaves.len() > 0,
        ls.leaves[0] == LeafModel::Content(t),
        ws_only(t),
    ensures
        children_total(b, acc, ls) == children_total(b, acc, stream_tail(ls)),
{
    lemma_children_total_unfold(b, acc, ls);
}

/// The parser: scanner, leaf builder and tree builder chained over one
/// input.
pub struct Parser<'a> {
    pub syntaxer: Syntaxer<'a>,
}

impl<'a> Parser<'a> {
    /// A parser over `text`.
    ///
    /// The length bound is a machine limit inherited from [`crate::lexer::Lexer::new`].
    pub fn new(text: &'a str) -> (r: Parser<'a>)
        requires
            text@.len() < u64::MAX,
        ensures
            r.syntaxer.wf(),
            r.syntaxer.input() == text@,
            r.syntaxer.st() == initial_syn_state(),
    {
        Parser { syntaxer: Syntaxer::new(text) }
    }

    /// Parse the input into its root element; for a parser fresh from
    /// [`Parser::new`], exactly [`parse_spec`]. Content after the root
    /// element's closing tag is left unread.
    pub fn parse(self) -> (r: Result<Element, ParseError>)
        requires
            self.syntaxer.wf(),
        ensures
            match build_root(leaf_stream_from(self.syntaxer.input(), self.syntaxer.st())) {
                Ok((em, _)) => r matches Ok(e) && element_view(e) == em,
                Err(em) => r matches Err(e) && e@ == em,
            },
            self.syntaxer.st() == initial_syn_state() ==> match parse_spec(self.syntaxer.input()) {
                Ok(em) => r matches Ok(e) && element_view(e) == em,
                Err(em) => r matches Err(e) && e@ == em,
            },
    {
        let mut leaves = self.syntaxer;
        Element::parse(&mut leaves)
    }
}

} // verus!
