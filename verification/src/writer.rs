//! Rendering a parsed tree back into markup text.
//!
//! [`Element::to_markup`] prints an element in the markup grammar: the
//! opening tag with its attributes, the children in order (text verbatim,
//! nested elements recursively), and the closing tag — omitted for
//! void-named elements, which the grammar gives no children. The spec
//! function [`render_element`] states the exact character sequence produced.

use vstd::prelude::*;
use vstd::string::StringExecFns;

use crate::parser::{build_root, child_seq_view, child_view, children_total, element_of,
    element_view, is_void, is_void_name, lemma_child_seq_view, lemma_children_total_unfold,
    stream_tail, ws_only, Child, ChildModel, Element, ElementModel};
use crate::syntaxer::{BodyModel, EndModel, LeafModel, LeafStream, Tag, TagModel, tag_seq_view};
use crate::error::ErrorModel;

verus! {

broadcast use vstd::seq::group_seq_axioms, vstd::std_specs::vec::group_vec_axioms;

/// The text of one attribute: a leading space, the name, and `="value"`
/// when a value is present.
pub open spec fn render_tag(t: TagModel) -> Seq<char> {
    " "@ + t.name + (match t.content {
        Some(v) => "=\""@ + v + "\""@,
        None => Seq::<char>::empty(),
    })
}

/// The text of an attribute sequence, in order.
pub open spec fn render_tags(ts: Seq<TagModel>) -> Seq<char>
    decreases ts.len(),
{
    if ts.len() == 0 {
        Seq::empty()
    } else {
        render_tag(ts[0]) + render_tags(ts.subrange(1, ts.len() as int))
    }
}

/// Appending one attribute appends its text.
pub proof fn lemma_render_tags_snoc(ts: Seq<TagModel>, t: TagModel)
    ensures
        render_tags(ts.push(t)) == render_tags(ts) + render_tag(t),
    decreases ts.len(),
{
    let p = ts.push(t);
    assert(render_tags(p) == render_tag(p[0]) + render_tags(p.subrange(1, p.len() as int)));
    if ts.len() == 0 {
        assert(p[ts.len() as int] == t);
        assert(p.subrange(1, p.len() as int) =~= Seq::<TagModel>::empty());
        assert(render_tags(Seq::<TagModel>::empty()) == Seq::<char>::empty());
        assert(render_tags(p) =~= render_tag(t));
        assert(render_tags(ts) + render_tag(t) =~= render_tag(t));
    } else {
        assert(p[0] == ts[0]);
        assert(p.subrange(1, p.len() as int) =~= ts.subrange(1, ts.len() as int).push(t));
        lemma_render_tags_snoc(ts.subrange(1, ts.len() as int), t);
        assert(render_tags(p) =~= render_tags(ts) + render_tag(t));
    }
}

/// The text of an element: `<name attrs>`, then — except for void names —
/// the children in order and `</name>`.
pub open spec fn render_element(e: ElementModel) -> Seq<char>
    decreases e, 2int,
    via render_element_dec
{
    let opening = "<"@ + e.name + render_tags(e.tags) + ">"@;
    if is_void_name(e.name) {
        opening
    } else {
        opening + render_children(e.children) + "</"@ + e.name + ">"@
    }
}

#[via_fn]
proof fn render_element_dec(e: ElementModel) {
    assert(decreases_to!(e => e.children));
}

/// The text of a child: a text run verbatim, an element recursively.
pub open spec fn render_child(c: ChildModel) -> Seq<char>
    decreases c, 0int,
{
    match c {
        ChildModel::Element(e) => render_element(e),
        ChildModel::Text(t) => t,
    }
}

/// The text of a child sequence, in order.
pub open spec fn render_children(cs: Seq<ChildModel>) -> Seq<char>
    decreases cs, 1int,
    via render_children_dec
{
    if cs.len() == 0 {
        Seq::empty()
    } else {
        render_child(cs[0]) + render_children(cs.subrange(1, cs.len() as int))
    }
}

#[via_fn]
proof fn render_children_dec(cs: Seq<ChildModel>) {
    if cs.len() > 0 {
        assert(decreases_to!(cs => cs[0]));
        assert(decreases_to!(cs => cs.subrange(1, cs.len() as int)));
    }
}

/// Appending one child appends its text.
pub proof fn lemma_render_children_snoc(cs: Seq<ChildModel>, c: ChildModel)
    ensures
        render_children(cs.push(c)) == render_children(cs) + render_child(c),
    decreases cs.len(),
{
    let p = cs.push(c);
    assert(render_children(p) == render_child(p[0]) + render_children(p.subrange(1, p.len() as int)));
    if cs.len() == 0 {
        assert(p[cs.len() as int] == c);
        assert(p.subrange(1, p.len() as int) =~= Seq::<ChildModel>::empty());
        assert(render_children(Seq::<ChildModel>::empty()) == Seq::<char>::empty());
        assert(render_children(p) =~= render_child(c));
        assert(render_children(cs) + render_child(c) =~= render_child(c));
    } else {
        assert(p[0] == cs[0]);
        assert(p.subrange(1, p.len() as int) =~= cs.subrange(1, cs.len() as int).push(c));
        lemma_render_children_snoc(cs.subrange(1, cs.len() as int), c);
        assert(render_children(p) =~= render_children(cs) + render_child(c));
    }
}

/// The opening leaf of an element's markup.
pub open spec fn body_of(e: ElementModel) -> BodyModel {
    BodyModel { name: e.name, line: 1, tags: e.tags }
}

/// The leaf sequence of an element's markup, on one line: its opening leaf,
/// then — except for void names — each child's leaves and its closing leaf.
///
/// That the scanner and leaf builder produce exactly this sequence from
/// [`render_element`]'s text is exercised by tests; the round-trip law
/// [`lemma_leaves_round_trip`] is proved from the leaves on.
pub open spec fn leaves_of_element(e: ElementModel) -> Seq<LeafModel>
    decreases e, 2int,
    via leaves_of_element_dec
{
    if is_void_name(e.name) {
        seq![LeafModel::Body(body_of(e))]
    } else {
        seq![LeafModel::Body(body_of(e))] + leaves_of_children(e.children) + seq![
            LeafModel::End(EndModel { name: e.name, line: 1 }),
        ]
    }
}

#[via_fn]
proof fn leaves_of_element_dec(e: ElementModel) {
    assert(decreases_to!(e => e.children));
}

/// The leaf sequence of one child's markup.
pub open spec fn leaves_of_child(c: ChildModel) -> Seq<LeafModel>
    decreases c, 0int,
{
    match c {
        ChildModel::Element(e) => leaves_of_element(e),
        ChildModel::Text(t) => seq![LeafModel::Content(t)],
    }
}

/// The leaf sequence of a child sequence's markup, in order.
pub open spec fn leaves_of_children(cs: Seq<ChildModel>) -> Seq<LeafModel>
    decreases cs, 1int,
    via leaves_of_children_dec
{
    if cs.len() == 0 {
        Seq::empty()
    } else {
        leaves_of_child(cs[0]) + leaves_of_children(cs.subrange(1, cs.len() as int))
    }
}

#[via_fn]
proof fn leaves_of_children_dec(cs: Seq<ChildModel>) {
    if cs.len() > 0 {
        assert(decreases_to!(cs => cs[0]));
        assert(decreases_to!(cs => cs.subrange(1, cs.len() as int)));
    }
}

/// A tree the parser could have produced: void-named elements have no
/// children, and no text child is whitespace-only.
pub open spec fn wf_element(e: ElementModel) -> bool
    decreases e, 2int,
    via wf_element_dec
{
    &&& (is_void_name(e.name) ==> e.children.len() == 0)
    &&& wf_children(e.children)
}

#[via_fn]
proof fn wf_element_dec(e: ElementModel) {
    assert(decreases_to!(e => e.children));
}

/// Well-formedness of one child.
pub open spec fn wf_child(c: ChildModel) -> bool
    decreases c, 0int,
{
    match c {
        ChildModel::Element(e) => wf_element(e),
        ChildModel::Text(t) => !ws_only(t),
    }
}

/// Well-formedness of a child sequence.
pub open spec fn wf_children(cs: Seq<ChildModel>) -> bool
    decreases cs, 1int,
    via wf_children_dec
{
    if cs.len() == 0 {
        true
    } else {
        wf_child(cs[0]) && wf_children(cs.subrange(1, cs.len() as int))
    }
}

#[via_fn]
proof fn wf_children_dec(cs: Seq<ChildModel>) {
    if cs.len() > 0 {
        assert(decreases_to!(cs => cs[0]));
        assert(decreases_to!(cs => cs.subrange(1, cs.len() as int)));
    }
}

/// Child collection over the leaves of a well-formed child sequence followed
/// by a closing leaf: every child is rebuilt exactly, and then the closing
/// leaf either completes the element — when it carries the open element's
/// name — or fails with `MismatchedEndTag` citing the open tag's name and
/// line and the closing leaf's name and line. The stream beyond the closing
/// leaf is left untouched.
pub proof fn lemma_leaves_round_trip_children(
    b: BodyModel,
    acc: Seq<ChildModel>,
    cs: Seq<ChildModel>,
    end: EndModel,
    rest: LeafStream,
)
    requires
        !is_void_name(b.name),
        wf_children(cs),
    ensures
        children_total(
            b,
            acc,
            LeafStream {
                leaves: leaves_of_children(cs) + seq![LeafModel::End(end)] + rest.leaves,
                err: rest.err,
            },
        ) == (if end.name == b.name {
            Ok::<(ElementModel, LeafStream), ErrorModel>((element_of(b, acc + cs), rest))
        } else {
            Err(
                ErrorModel::MismatchedEndTag {
                    expected_name: b.name,
                    expected_line: b.line,
                    found_name: end.name,
                    found_line: end.line,
                },
            )
        }),
    decreases cs,
{
    let endleaf = seq![LeafModel::End(end)];
    let ls = LeafStream { leaves: leaves_of_children(cs) + endleaf + rest.leaves, err: rest.err };
    lemma_children_total_unfold(b, acc, ls);
    if cs.len() == 0 {
        assert(leaves_of_children(cs) =~= Seq::<LeafModel>::empty());
        assert(ls.leaves =~= endleaf + rest.leaves);
        assert(ls.leaves[0] == LeafModel::End(end));
        assert(stream_tail(ls).leaves =~= rest.leaves);
        assert(stream_tail(ls) == rest);
        assert(acc + cs =~= acc);
    } else {
        let c0 = cs[0];
        let cs1 = cs.subrange(1, cs.len() as int);
        assert(wf_child(c0) && wf_children(cs1));
        let rest2 = LeafStream {
            leaves: leaves_of_children(cs1) + endleaf + rest.leaves,
            err: rest.err,
        };
        assert(leaves_of_children(cs) == leaves_of_child(c0) + leaves_of_children(cs1));
        match c0 {
            ChildModel::Text(t) => {
                assert(leaves_of_child(c0) =~= seq![LeafModel::Content(t)]);
                assert(ls.leaves[0] == LeafModel::Content(t));
                assert(stream_tail(ls).leaves =~= rest2.leaves);
                assert(stream_tail(ls) == rest2);
                assert(!ws_only(t));
                lemma_leaves_round_trip_children(b, acc.push(ChildModel::Text(t)), cs1, end, rest);
                assert(acc.push(ChildModel::Text(t)) + cs1 =~= acc + cs);
            },
            ChildModel::Element(e2) => {
                assert(decreases_to!(cs => cs[0]));
                assert(decreases_to!(cs[0] => e2));
                assert(wf_element(e2));
                assert(leaves_of_child(c0) == leaves_of_element(e2));
                assert(leaves_of_element(e2)[0] == LeafModel::Body(body_of(e2)));
                assert(ls.leaves[0] == LeafModel::Body(body_of(e2)));
                if is_void_name(e2.name) {
                    assert(leaves_of_element(e2) =~= seq![LeafModel::Body(body_of(e2))]);
                    assert(stream_tail(ls).leaves =~= rest2.leaves);
                    assert(stream_tail(ls) == rest2);
                    assert(e2.children.len() == 0);
                    assert(element_of(body_of(e2), Seq::<ChildModel>::empty()).children
                        =~= e2.children);
                    assert(element_of(body_of(e2), Seq::<ChildModel>::empty()) == e2);
                    lemma_leaves_round_trip_children(b, acc.push(ChildModel::Element(e2)), cs1, end, rest);
                    assert(acc.push(ChildModel::Element(e2)) + cs1 =~= acc + cs);
                } else {
                    let end2 = seq![LeafModel::End(EndModel { name: e2.name, line: 1 })];
                    assert(leaves_of_element(e2) == seq![LeafModel::Body(body_of(e2))]
                        + leaves_of_children(e2.children) + end2);
                    assert(decreases_to!(e2 => e2.children));
                    assert(stream_tail(ls).leaves =~= leaves_of_children(e2.children) + end2
                        + rest2.leaves);
                    assert(stream_tail(ls) == LeafStream {
                        leaves: leaves_of_children(e2.children) + end2 + rest2.leaves,
                        err: rest2.err,
                    });
                    lemma_leaves_round_trip_children(
                        body_of(e2),
                        Seq::<ChildModel>::empty(),
                        e2.children,
                        EndModel { name: e2.name, line: 1 },
                        rest2,
                    );
                    assert(Seq::<ChildModel>::empty() + e2.children =~= e2.children);
                    assert(element_of(body_of(e2), Seq::<ChildModel>::empty() + e2.children) == e2);
                    lemma_leaves_round_trip_children(b, acc.push(ChildModel::Element(e2)), cs1, end, rest);
                    assert(acc.push(ChildModel::Element(e2)) + cs1 =~= acc + cs);
                }
            },
        }
    }
}

/// Round trip at the leaf level: rebuilding a well-formed tree from its own
/// leaf sequence yields exactly that tree, whatever the stream holds beyond
/// it — element names, attribute name/value pairs, and child order and kind
/// all come back unchanged, with whitespace-only runs never present.
pub proof fn lemma_leaves_round_trip(e: ElementModel, rest: LeafStream)
    requires
        wf_element(e),
    ensures
        build_root(LeafStream { leaves: leaves_of_element(e) + rest.leaves, err: rest.err })
            == Ok::<(ElementModel, LeafStream), ErrorModel>((e, rest)),
{
    let ls = LeafStream { leaves: leaves_of_element(e) + rest.leaves, err: rest.err };
    assert(leaves_of_element(e)[0] == LeafModel::Body(body_of(e)));
    assert(ls.leaves[0] == LeafModel::Body(body_of(e)));
    if is_void_name(e.name) {
        assert(leaves_of_element(e) =~= seq![LeafModel::Body(body_of(e))]);
        assert(stream_tail(ls).leaves =~= rest.leaves);
        assert(stream_tail(ls) == rest);
        assert(e.children.len() == 0);
        assert(element_of(body_of(e), Seq::<ChildModel>::empty()).children =~= e.children);
        assert(element_of(body_of(e), Seq::<ChildModel>::empty()) == e);
    } else {
        let endleaf = seq![LeafModel::End(EndModel { name: e.name, line: 1 })];
        assert(stream_tail(ls).leaves =~= leaves_of_children(e.children) + endleaf + rest.leaves);
        assert(stream_tail(ls) == LeafStream {
            leaves: leaves_of_children(e.children) + endleaf + rest.leaves,
            err: rest.err,
        });
        lemma_leaves_round_trip_children(
            body_of(e),
            Seq::<ChildModel>::empty(),
            e.children,
            EndModel { name: e.name, line: 1 },
            rest,
        );
        assert(Seq::<ChildModel>::empty() + e.children =~= e.children);
        assert(element_of(body_of(e), Seq::<ChildModel>::empty() + e.children) == e);
    }
}

/// A close tag whose name differs from the open element's fails with
/// `MismatchedEndTag` citing the open tag's name and line and the close
/// tag's name and line, however many well-formed child subtrees stand
/// between the opening and the mismatched close.
pub proof fn lemma_mismatched_end_after_children(
    b: BodyModel,
    cs: Seq<ChildModel>,
    end: EndModel,
    rest: LeafStream,
)
    requires
        !is_void_name(b.name),
        wf_children(cs),
        end.name != b.name,
    ensures
        children_total(
            b,
            Seq::<ChildModel>::empty(),
            LeafStream {
                leaves: leaves_of_children(cs) + seq![LeafModel::End(end)] + rest.leaves,
                err: rest.err,
            },
        ) == Err::<(ElementModel, LeafStream), ErrorModel>(
            ErrorModel::MismatchedEndTag {
                expected_name: b.name,
                expected_line: b.line,
                found_name: end.name,
                found_line: end.line,
            },
        ),
{
    lemma_leaves_round_trip_children(b, Seq::<ChildModel>::empty(), cs, end, rest);
}

/// Append one attribute's text to `out`.
fn push_tag(out: &mut String, t: &Tag)
    ensures
        final(out)@ == old(out)@ + render_tag(t@),
{
    out.append(" ");
    out.append(t.name.as_str());
    match &t.content {
        Some(v) => {
            out.append("=\"");
            out.append(v.as_str());
            out.append("\"");
        },
        None => {},
    }
    proof {
        assert(final(out)@ =~= old(out)@ + render_tag(t@));
    }
}

impl Element {
    /// Render this element as markup text; exactly [`render_element`] of its
    /// tree. Reparsing the result yields a structurally equivalent tree
    /// whenever the tree could have come from the parser (names intact,
    /// attribute values quotable, text children as scanned).
    pub fn to_markup(&self) -> (r: String)
        ensures
            r@ == render_element(element_view(*self)),
        decreases *self,
    {
        let ghost em = element_view(*self);
        let mut out = String::new();
        out.append("<");
        out.append(self.name.as_str());
        let ghost tsm = tag_seq_view(self.tags@);
        proof {
            assert(out@ =~= "<"@ + em.name + render_tags(tsm.subrange(0, 0)));
        }
        let n = self.tags.len();
        let mut i: usize = 0;
        while i < n
            invariant
                i <= n,
                n == self.tags@.len(),
                em == element_view(*self),
                tsm == tag_seq_view(self.tags@),
                tsm.len() == n,
                out@ == "<"@ + em.name + render_tags(tsm.subrange(0, i as int)),
            decreases n - i,
        {
            let ghost pre = tsm.subrange(0, i as int);
            push_tag(&mut out, &self.tags[i]);
            proof {
                assert(tsm[i as int] == self.tags@[i as int]@);
                assert(tsm.subrange(0, i as int + 1) =~= pre.push(tsm[i as int]));
                lemma_render_tags_snoc(pre, tsm[i as int]);
            }
            i = i + 1;
        }
        proof {
            assert(tsm.subrange(0, n as int) =~= tsm);
        }
        out.append(">");
        let ghost opening = "<"@ + em.name + render_tags(em.tags) + ">"@;
        proof {
            assert(out@ =~= opening);
        }
        if is_void(self.name.as_str()) {
            return out;
        }
        let ghost csm = child_seq_view(self.children@);
        proof {
            lemma_child_seq_view(self.children@);
            assert(out@ =~= opening + render_children(csm.subrange(0, 0)));
        }
        let k = self.children.len();
        let mut j: usize = 0;
        while j < k
            invariant
                j <= k,
                k == self.children@.len(),
                em == element_view(*self),
                csm == child_seq_view(self.children@),
                csm.len() == k,
                opening == "<"@ + em.name + render_tags(em.tags) + ">"@,
                out@ == opening + render_children(csm.subrange(0, j as int)),
            decreases k - j,
        {
            let ghost pre = csm.subrange(0, j as int);
            proof {
                lemma_child_seq_view(self.children@);
            }
            match &self.children[j] {
                Child::Text(t) => {
                    out.append(t.as_str());
                },
                Child::Element(e) => {
                    proof {
                        assert(decreases_to!(*self => self.children));
                        assert(decreases_to!(self.children => self.children@));
                        assert(decreases_to!(self.children@ => self.children@[j as int]));
                    }
                    let s = e.to_markup();
                    out.append(s.as_str());
                },
            }
            proof {
                assert(csm[j as int] == child_view(self.children@[j as int]));
                assert(csm.subrange(0, j as int + 1) =~= pre.push(csm[j as int]));
                lemma_render_children_snoc(pre, csm[j as int]);
                assert(out@ =~= opening + render_children(csm.subrange(0, j as int + 1)));
            }
            j = j + 1;
        }
        proof {
            assert(csm.subrange(0, k as int) =~= csm);
        }
        out.append("</");
        out.append(self.name.as_str());
        out.append(">");
        proof {
            assert(out@ =~= render_element(em));
        }
        out
    }
}

} // verus!

