//! Structural leaf recognizer.
//!
//! [`Syntaxer`] groups the scanner's lexemes into leaves: an element opening
//! ([`ElementBody`]: name, line, attributes), an element closing
//! ([`ElementEnd`]: name, line), or a raw text run. A tag body whose trailing
//! `/` immediately precedes `>` is self-closing: the opening leaf is produced
//! and a matching closing leaf is synthesized and cached, to be handed out on
//! the following call. The spec functions [`leaf_next_spec`] and
//! [`syn_next_spec`] state exactly what one call produces;
//! [`leaf_stream_from`] flattens the remaining calls into the sequence of
//! leaves they will yield, ending in the first error if one is ahead.

use vstd::prelude::*;

use crate::error::{ErrorModel, ExpectedLexemes, ParseError};
use crate::lexer::{
    lex_next, initial_scan_state, lemma_lex_next_progress, Lexeme, LexemeModel, LexemeType, Lexer,
    ScanState, TokenModel,
};

verus! {

/// An attribute: a name, optionally paired with a quoted value.
#[derive(Debug, Clone)]
pub struct Tag {
    pub name: String,
    pub content: Option<String>,
}

/// Mathematical mirror of [`Tag`].
pub struct TagModel {
    pub name: Seq<char>,
    pub content: Option<Seq<char>>,
}

impl View for Tag {
    type V = TagModel;

    open spec fn view(&self) -> TagModel {
        TagModel {
            name: self.name@,
            content: match &self.content {
                Some(v) => Some(v@),
                None => None,
            },
        }
    }
}

/// The attribute sequence a vector of tags stands for.
pub open spec fn tag_seq_view(v: Seq<Tag>) -> Seq<TagModel> {
    v.map_values(|t: Tag| t@)
}

/// An element opening: name, the line of its name lexeme, and its attributes.
#[derive(Debug, Clone)]
pub struct ElementBody {
    pub name: String,
    pub line: u64,
    pub tags: Vec<Tag>,
}

/// Mathematical mirror of [`ElementBody`].
pub struct BodyModel {
    pub name: Seq<char>,
    pub line: int,
    pub tags: Seq<TagModel>,
}

impl View for ElementBody {
    type V = BodyModel;

    open spec fn view(&self) -> BodyModel {
        BodyModel { name: self.name@, line: self.line as int, tags: tag_seq_view(self.tags@) }
    }
}

/// An element closing: name and the line of its name lexeme.
#[derive(Debug, Clone)]
pub struct ElementEnd {
    pub name: String,
    pub line: u64,
}

/// Mathematical mirror of [`ElementEnd`].
pub struct EndModel {
    pub name: Seq<char>,
    pub line: int,
}

impl View for ElementEnd {
    type V = EndModel;

    open spec fn view(&self) -> EndModel {
        EndModel { name: self.name@, line: self.line as int }
    }
}

impl ElementEnd {
    /// A closing leaf for `name` at `line`.
    pub fn new(name: String, line: u64) -> (r: ElementEnd)
        ensures
            r@ == (EndModel { name: name@, line: line as int }),
    {
        ElementEnd { name, line }
    }
}

/// A structural leaf: an element opening, a raw text run, or an element
/// closing.
#[derive(Debug, Clone)]
pub enum Leaf {
    Body(ElementBody),
    Content(String),
    End(ElementEnd),
}

/// Mathematical mirror of [`Leaf`].
pub enum LeafModel {
    Body(BodyModel),
    Content(Seq<char>),
    End(EndModel),
}

impl View for Leaf {
    type V = LeafModel;

    open spec fn view(&self) -> LeafModel {
        match self {
            Leaf::Body(b) => LeafModel::Body(b@),
            Leaf::Content(s) => LeafModel::Content(s@),
            Leaf::End(e) => LeafModel::End(e@),
        }
    }
}

/// The view of an optional lexeme.
pub open spec fn lexeme_opt_view(o: Option<Lexeme>) -> Option<LexemeModel> {
    match o {
        Some(l) => Some(l@),
        None => None,
    }
}

/// The view of an optional leaf.
pub open spec fn leaf_opt_view(o: Option<Leaf>) -> Option<LeafModel> {
    match o {
        Some(l) => Some(l@),
        None => None,
    }
}

/// What parsing one attribute whose name has already been read yields: the
/// attribute, the one lexeme of lookahead that was pulled but does not belong
/// to it (if any), and the scanner state left behind. The name may be
/// followed by `=` and then must come a quoted literal; anything else leaves
/// the attribute without a value.
pub open spec fn tag_parse_spec(text: Seq<char>, st: ScanState, name: Seq<char>) -> Result<
    (TagModel, Option<LexemeModel>, ScanState),
    ErrorModel,
> {
    match lex_next(text, st) {
        None => Ok((TagModel { name, content: None }, None, st)),
        Some((lx, st1)) => match lx.kind {
            TokenModel::Equals => match lex_next(text, st1) {
                None => Err(ErrorModel::UnexpectedToken { found: None, expected: ExpectedLexemes::Literal }),
                Some((l2, st2)) => match l2.kind {
                    TokenModel::Literal(v) => Ok((TagModel { name, content: Some(v) }, None, st2)),
                    _ => Err(ErrorModel::UnexpectedToken {
                        found: Some(l2),
                        expected: ExpectedLexemes::Literal,
                    }),
                },
            },
            _ => Ok((TagModel { name, content: None }, Some(lx), st1)),
        },
    }
}

/// Attribute parsing never moves the scanner backwards, and it stands still
/// only at end of input, where it carries no lookahead.
pub proof fn lemma_tag_parse_range(text: Seq<char>, st: ScanState, name: Seq<char>)
    requires
        0 <= st.pos <= text.len(),
    ensures
        match tag_parse_spec(text, st, name) {
            Ok((_, c2, st2)) => {
                &&& st.pos <= st2.pos <= text.len()
                &&& (st2.pos == st.pos ==> c2 is None)
            },
            Err(_) => true,
        },
{
    lemma_lex_next_progress(text, st);
    match lex_next(text, st) {
        None => {},
        Some((lx, st1)) => {
            lemma_lex_next_progress(text, st1);
        },
    }
}

/// What the attribute loop of a tag body yields: the attributes (appended to
/// `acc`), whether the body ended self-closing (`/` then `>`), and the
/// scanner state after the closing `>` (or at end of input, which also ends
/// the body). `carried` is the lookahead lexeme handed back by the previous
/// attribute, if any.
pub open spec fn tags_loop_spec(
    text: Seq<char>,
    st: ScanState,
    acc: Seq<TagModel>,
    carried: Option<LexemeModel>,
) -> Result<(Seq<TagModel>, bool, ScanState), ErrorModel>
    decreases text.len() - st.pos, (if carried is Some { 1int } else { 0int }),
    when 0 <= st.pos <= text.len()
    via tags_loop_spec_dec
{
    let pulled = match carried {
        Some(lm) => Some((lm, st)),
        None => lex_next(text, st),
    };
    match pulled {
        None => Ok((acc, false, st)),
        Some((lx, st1)) => match lx.kind {
            TokenModel::BracketRight => Ok((acc, false, st1)),
            TokenModel::EndSlash => match lex_next(text, st1) {
                None => Err(ErrorModel::UnexpectedToken {
                    found: None,
                    expected: ExpectedLexemes::BracketRight,
                }),
                Some((l2, st2)) => match l2.kind {
                    TokenModel::BracketRight => Ok((acc, true, st2)),
                    _ => Err(ErrorModel::UnexpectedToken {
                        found: Some(l2),
                        expected: ExpectedLexemes::BracketRight,
                    }),
                },
            },
            TokenModel::Identifier(tn) => match tag_parse_spec(text, st1, tn) {
                Err(e) => Err(e),
                Ok((tagm, c2, st2)) => tags_loop_spec(text, st2, acc.push(tagm), c2),
            },
            _ => Err(ErrorModel::UnexpectedToken {
                found: Some(lx),
                expected: ExpectedLexemes::Identifier,
            }),
        },
    }
}

#[via_fn]
proof fn tags_loop_spec_dec(
    text: Seq<char>,
    st: ScanState,
    acc: Seq<TagModel>,
    carried: Option<LexemeModel>,
) {
    match carried {
        Some(lm) => match lm.kind {
            TokenModel::Identifier(tn) => {
                lemma_tag_parse_range(text, st, tn);
            },
            _ => {},
        },
        None => {
            lemma_lex_next_progress(text, st);
            match lex_next(text, st) {
                Some((lx, st1)) => match lx.kind {
                    TokenModel::Identifier(tn) => {
                        lemma_tag_parse_range(text, st1, tn);
                    },
                    _ => {},
                },
                None => {},
            }
        },
    }
}

/// The attribute loop never moves the scanner backwards.
pub proof fn lemma_tags_loop_range(
    text: Seq<char>,
    st: ScanState,
    acc: Seq<TagModel>,
    carried: Option<LexemeModel>,
)
    requires
        0 <= st.pos <= text.len(),
    ensures
        match tags_loop_spec(text, st, acc, carried) {
            Ok((_, _, st2)) => st.pos <= st2.pos <= text.len(),
            Err(_) => true,
        },
    decreases text.len() - st.pos, (if carried is Some { 1int } else { 0int }),
{
    let pulled = match carried {
        Some(lm) => Some((lm, st)),
        None => lex_next(text, st),
    };
    lemma_lex_next_progress(text, st);
    match pulled {
        None => {},
        Some((lx, st1)) => match lx.kind {
            TokenModel::BracketRight => {},
            TokenModel::EndSlash => {
                lemma_lex_next_progress(text, st1);
            },
            TokenModel::Identifier(tn) => {
                lemma_tag_parse_range(text, st1, tn);
                match tag_parse_spec(text, st1, tn) {
                    Err(_) => {},
                    Ok((tagm, c2, st2)) => {
                        lemma_tags_loop_range(text, st2, acc.push(tagm), c2);
                    },
                }
            },
            _ => {},
        },
    }
}

/// The scanner state after discarding the remainder of a close tag: every
/// lexeme before the closing `>` is dropped, the `>` itself is consumed,
/// and end of input also ends the tag.
pub open spec fn drain_spec(text: Seq<char>, st: ScanState) -> ScanState
    decreases text.len() - st.pos,
    when 0 <= st.pos <= text.len()
    via drain_spec_dec
{
    match lex_next(text, st) {
        None => st,
        Some((lx, st1)) => match lx.kind {
            TokenModel::BracketRight => st1,
            _ => drain_spec(text, st1),
        },
    }
}

#[via_fn]
proof fn drain_spec_dec(text: Seq<char>, st: ScanState) {
    lemma_lex_next_progress(text, st);
}

/// Draining a close tag never moves the scanner backwards.
pub proof fn lemma_drain_range(text: Seq<char>, st: ScanState)
    requires
        0 <= st.pos <= text.len(),
    ensures
        st.pos <= drain_spec(text, st).pos <= text.len(),
    decreases text.len() - st.pos,
{
    lemma_lex_next_progress(text, st);
    match lex_next(text, st) {
        None => {},
        Some((lx, st1)) => match lx.kind {
            TokenModel::BracketRight => {},
            _ => {
                lemma_drain_range(text, st1);
            },
        },
    }
}

/// What parsing a close tag (the lexemes after `</`) yields: the closing
/// leaf, named by the identifier that must follow the `</`, with everything
/// else before the closing `>` discarded. A close tag never caches a leaf.
pub open spec fn ending_next_spec(text: Seq<char>, st: ScanState) -> Result<
    (LeafModel, Option<LeafModel>, ScanState),
    ErrorModel,
> {
    match lex_next(text, st) {
        None => Err(ErrorModel::UnexpectedToken { found: None, expected: ExpectedLexemes::Identifier }),
        Some((lx, st1)) => match lx.kind {
            TokenModel::Identifier(n) => Ok((
                LeafModel::End(EndModel { name: n, line: lx.line }),
                None,
                drain_spec(text, st1),
            )),
            _ => Err(ErrorModel::UnexpectedToken { found: Some(lx), expected: ExpectedLexemes::Identifier }),
        },
    }
}

/// What one [`Leaf::parse`] call yields from scanner state `st`: the leaf,
/// the synthesized closing leaf when a tag body ended self-closing, and the
/// scanner state left behind.
///
/// A bare identifier or text run becomes a [`LeafModel::Content`] leaf,
/// passed through verbatim. `<` followed by an identifier opens a tag body:
/// its attributes are read by [`tags_loop_spec`], and a self-closing body
/// additionally synthesizes a closing leaf with the body's name and line.
/// `<` followed by `/` is a close tag. Anything else is an error citing the
/// offending lexeme.
pub open spec fn leaf_next_spec(text: Seq<char>, st: ScanState) -> Result<
    (LeafModel, Option<LeafModel>, ScanState),
    ErrorModel,
> {
    match lex_next(text, st) {
        None => Err(ErrorModel::UnexpectedToken {
            found: None,
            expected: ExpectedLexemes::BracketLeftOrIdentifier,
        }),
        Some((l0, st1)) => match l0.kind {
            TokenModel::Identifier(t) => Ok((LeafModel::Content(t), None, st1)),
            TokenModel::BracketLeft => match lex_next(text, st1) {
                None => Err(ErrorModel::UnexpectedToken {
                    found: None,
                    expected: ExpectedLexemes::IdentifierOrEndSlash,
                }),
                Some((l1, st2)) => match l1.kind {
                    TokenModel::Identifier(n) => match tags_loop_spec(
                        text,
                        st2,
                        Seq::<TagModel>::empty(),
                        None,
                    ) {
                        Err(e) => Err(e),
                        Ok((tags, short, st3)) => {
                            let body = BodyModel { name: n, line: l1.line, tags };
                            if short {
                                Ok((
                                    LeafModel::Body(body),
                                    Some(LeafModel::End(EndModel { name: n, line: l1.line })),
                                    st3,
                                ))
                            } else {
                                Ok((LeafModel::Body(body), None, st3))
                            }
                        },
                    },
                    TokenModel::EndSlash => ending_next_spec(text, st2),
                    _ => Err(ErrorModel::UnexpectedToken {
                        found: Some(l1),
                        expected: ExpectedLexemes::IdentifierOrEndSlash,
                    }),
                },
            },
            _ => Err(ErrorModel::UnexpectedToken {
                found: Some(l0),
                expected: ExpectedLexemes::BracketLeftOrIdentifier,
            }),
        },
    }
}

/// Only a self-closing open tag fills the one-leaf cache: whenever a call
/// yields a leaf together with a cached one, the yielded leaf is an element
/// opening and the cached one is its synthesized closing leaf, carrying the
/// opening's own name and line. No other leaf ever leaves one behind.
pub proof fn lemma_cache_only_after_self_closing(text: Seq<char>, st: ScanState)
    ensures
        match leaf_next_spec(text, st) {
            Ok((leaf, synth, _)) => match synth {
                Some(s) => {
                    &&& leaf matches LeafModel::Body(b) && s == LeafModel::End(
                        EndModel { name: b.name, line: b.line },
                    )
                },
                None => true,
            },
            Err(_) => true,
        },
{
}

/// Producing a leaf consumes at least one character.
pub proof fn lemma_leaf_next_range(text: Seq<char>, st: ScanState)
    requires
        0 <= st.pos < text.len(),
    ensures
        match leaf_next_spec(text, st) {
            Ok((_, _, st2)) => st.pos < st2.pos <= text.len(),
            Err(_) => true,
        },
{
    lemma_lex_next_progress(text, st);
    match lex_next(text, st) {
        None => {},
        Some((l0, st1)) => {
            lemma_lex_next_progress(text, st1);
            match l0.kind {
                TokenModel::BracketLeft => match lex_next(text, st1) {
                    None => {},
                    Some((l1, st2)) => {
                        match l1.kind {
                            TokenModel::Identifier(_) => {
                                lemma_tags_loop_range(text, st2, Seq::<TagModel>::empty(), None);
                            },
                            TokenModel::EndSlash => {
                                lemma_lex_next_progress(text, st2);
                                match lex_next(text, st2) {
                                    Some((l2, st3)) => {
                                        lemma_drain_range(text, st3);
                                    },
                                    None => {},
                                }
                            },
                            _ => {},
                        }
                    },
                },
                _ => {},
            }
        },
    }
}

impl Tag {
    /// Parse one attribute whose name has already been read; exactly
    /// [`tag_parse_spec`]. Returns the attribute together with the lookahead
    /// lexeme that was pulled past it, if any.
    pub fn parse(name: String, lexer: &mut Lexer) -> (r: Result<(Tag, Option<Lexeme>), ParseError>)
        requires
            old(lexer).wf(),
        ensures
            final(lexer).wf(),
            final(lexer).input() == old(lexer).input(),
            match tag_parse_spec(old(lexer).input(), old(lexer).st(), name@) {
                Ok((tagm, c2, st2)) => {
                    &&& r matches Ok((tag, carried)) && tag@ == tagm && lexeme_opt_view(carried)
                        == c2
                    &&& final(lexer).st() == st2
                },
                Err(em) => r matches Err(e) && e@ == em,
            },
    {
        match lexer.next() {
            None => Ok((Tag { name, content: None }, None)),
            Some(lx) => match lx.kind {
                LexemeType::Equals => match lexer.next() {
                    None => Err(ParseError::UnexpectedToken {
                        found: None,
                        expected: ExpectedLexemes::Literal,
                    }),
                    Some(l2) => match l2.kind {
                        LexemeType::Literal(v) => Ok((Tag { name, content: Some(v) }, None)),
                        k => Err(ParseError::UnexpectedToken {
                            found: Some(Lexeme { line: l2.line, kind: k }),
                            expected: ExpectedLexemes::Literal,
                        }),
                    },
                },
                k => Ok((Tag { name, content: None }, Some(Lexeme { line: lx.line, kind: k }))),
            },
        }
    }

    /// The attribute's name.
    pub fn name(&self) -> (r: &str)
        ensures
            r@ == self@.name,
    {
        self.name.as_str()
    }

    /// The attribute's value, if one was given.
    pub fn content(&self) -> (r: &Option<String>)
        ensures
            match r {
                Some(v) => self@.content == Some(v@),
                None => self@.content is None,
            },
    {
        &self.content
    }
}

impl ElementBody {
    /// Parse the attributes and terminator of a tag body whose name has
    /// already been read; the attribute sequence is exactly
    /// [`tags_loop_spec`] from an empty accumulator. The `bool` says whether
    /// the body ended self-closing.
    pub fn parse(name: String, line: u64, lexer: &mut Lexer) -> (r: Result<
        (ElementBody, bool),
        ParseError,
    >)
        requires
            old(lexer).wf(),
        ensures
            final(lexer).wf(),
            final(lexer).input() == old(lexer).input(),
            match tags_loop_spec(
                old(lexer).input(),
                old(lexer).st(),
                Seq::<TagModel>::empty(),
                None,
            ) {
                Ok((tagsm, short, st2)) => {
                    &&& r matches Ok((body, s)) && body@ == (BodyModel {
                        name: name@,
                        line: line as int,
                        tags: tagsm,
                    }) && s == short
                    &&& final(lexer).st() == st2
                },
                Err(em) => r matches Err(e) && e@ == em,
            },
    {
        let ghost text = lexer.input();
        let ghost st0 = lexer.st();
        let mut tags: Vec<Tag> = Vec::new();
        let mut carried: Option<Lexeme> = None;
        proof {
            assert(tag_seq_view(tags@) =~= Seq::<TagModel>::empty());
        }
        loop
            invariant_except_break
                lexer.wf(),
                lexer.input() == text,
                text == old(lexer).input(),
                st0 == old(lexer).st(),
                0 <= st0.pos <= text.len(),
                tags_loop_spec(text, lexer.st(), tag_seq_view(tags@), lexeme_opt_view(carried))
                    == tags_loop_spec(text, st0, Seq::<TagModel>::empty(), None),
            decreases
                    2 * (lexer.len - lexer.pos) + (if carried is Some {
                        1int
                    } else {
                        0int
                    }),
        {
            let ghost st_h = lexer.st();
            let ghost tags_h = tag_seq_view(tags@);
            let ghost carried_h = lexeme_opt_view(carried);
            proof {
                lemma_lex_next_progress(text, st_h);
            }
            let taken = carried.take();
            let head = match taken {
                Some(l) => Some(l),
                None => lexer.next(),
            };
            match head {
                None => {
                    return Ok((ElementBody { name, line, tags }, false));
                },
                Some(lx) => match lx.kind {
                    LexemeType::BracketRight => {
                        return Ok((ElementBody { name, line, tags }, false));
                    },
                    LexemeType::EndSlash => match lexer.next() {
                        None => {
                            return Err(ParseError::UnexpectedToken {
                                found: None,
                                expected: ExpectedLexemes::BracketRight,
                            });
                        },
                        Some(l2) => match l2.kind {
                            LexemeType::BracketRight => {
                                return Ok((ElementBody { name, line, tags }, true));
                            },
                            k => {
                                return Err(ParseError::UnexpectedToken {
                                    found: Some(Lexeme { line: l2.line, kind: k }),
                                    expected: ExpectedLexemes::BracketRight,
                                });
                            },
                        },
                    },
                    LexemeType::Identifier(tn) => {
                        let ghost tn_m = tn@;
                        let ghost st1 = lexer.st();
                        let (tag, c2) = match Tag::parse(tn, lexer) {
                            Ok(x) => x,
                            Err(e) => {
                                return Err(e);
                            },
                        };
                        tags.push(tag);
                        carried = c2;
                        proof {
                            lemma_tag_parse_range(text, st1, tn_m);
                            assert(tag_seq_view(tags@) =~= tags_h.push(tags@[tags@.len() - 1]@));
                            assert(tags_loop_spec(text, st_h, tags_h, carried_h) == tags_loop_spec(
                                text,
                                lexer.st(),
                                tag_seq_view(tags@),
                                lexeme_opt_view(carried),
                            ));
                        }
                    },
                    k => {
                        return Err(ParseError::UnexpectedToken {
                            found: Some(Lexeme { line: lx.line, kind: k }),
                            expected: ExpectedLexemes::Identifier,
                        });
                    },
                },
            }
        }
    }
}

impl Leaf {
    /// Parse one leaf from the lexeme stream; exactly [`leaf_next_spec`].
    ///
    /// Returns the synthesized closing leaf (present when a tag body ended
    /// self-closing) and the leaf itself, in that order.
    pub fn parse(lexer: &mut Lexer) -> (r: Result<(Option<Leaf>, Leaf), ParseError>)
        requires
            old(lexer).wf(),
        ensures
            final(lexer).wf(),
            final(lexer).input() == old(lexer).input(),
            match leaf_next_spec(old(lexer).input(), old(lexer).st()) {
                Ok((lm, synth, st2)) => {
                    &&& r matches Ok((s, l)) && l@ == lm && leaf_opt_view(s) == synth
                    &&& final(lexer).st() == st2
                },
                Err(em) => r matches Err(e) && e@ == em,
            },
    {
        let l0 = match lexer.next() {
            Some(l) => l,
            None => {
                return Err(ParseError::UnexpectedToken {
                    found: None,
                    expected: ExpectedLexemes::BracketLeftOrIdentifier,
                });
            },
        };
        match l0.kind {
            LexemeType::Identifier(t) => Ok((None, Leaf::Content(t))),
            LexemeType::BracketLeft => {
                let l1 = match lexer.next() {
                    Some(l) => l,
                    None => {
                        return Err(ParseError::UnexpectedToken {
                            found: None,
                            expected: ExpectedLexemes::IdentifierOrEndSlash,
                        });
                    },
                };
                match l1.kind {
                    LexemeType::Identifier(n) => {
                        let (body, short) = match ElementBody::parse(n, l1.line, lexer) {
                            Ok(x) => x,
                            Err(e) => {
                                return Err(e);
                            },
                        };
                        if short {
                            let synth = ElementEnd { name: body.name.clone(), line: body.line };
                            Ok((Some(Leaf::End(synth)), Leaf::Body(body)))
                        } else {
                            Ok((None, Leaf::Body(body)))
                        }
                    },
                    LexemeType::EndSlash => Self::parse_ending(lexer),
                    k => Err(ParseError::UnexpectedToken {
                        found: Some(Lexeme { line: l1.line, kind: k }),
                        expected: ExpectedLexemes::IdentifierOrEndSlash,
                    }),
                }
            },
            k => Err(ParseError::UnexpectedToken {
                found: Some(Lexeme { line: l0.line, kind: k }),
                expected: ExpectedLexemes::BracketLeftOrIdentifier,
            }),
        }
    }

    /// Parse a close tag, the lexemes after `</`; exactly
    /// [`ending_next_spec`]. Lexemes before the closing `>` beyond the name
    /// are discarded.
    fn parse_ending(lexer: &mut Lexer) -> (r: Result<(Option<Leaf>, Leaf), ParseError>)
        requires
            old(lexer).wf(),
        ensures
            final(lexer).wf(),
            final(lexer).input() == old(lexer).input(),
            match ending_next_spec(old(lexer).input(), old(lexer).st()) {
                Ok((lm, synth, st2)) => {
                    &&& r matches Ok((s, l)) && l@ == lm && leaf_opt_view(s) == synth
                    &&& final(lexer).st() == st2
                },
                Err(em) => r matches Err(e) && e@ == em,
            },
    {
        let lx = match lexer.next() {
            Some(l) => l,
            None => {
                return Err(ParseError::UnexpectedToken {
                    found: None,
                    expected: ExpectedLexemes::Identifier,
                });
            },
        };
        let end = match lx.kind {
            LexemeType::Identifier(n) => ElementEnd::new(n, lx.line),
            k => {
                return Err(ParseError::UnexpectedToken {
                    found: Some(Lexeme { line: lx.line, kind: k }),
                    expected: ExpectedLexemes::Identifier,
                });
            },
        };
        let ghost text = lexer.input();
        let ghost st_d = lexer.st();
        loop
            invariant_except_break
                lexer.wf(),
                lexer.input() == text,
                text == old(lexer).input(),
                0 <= st_d.pos <= text.len(),
                drain_spec(text, lexer.st()) == drain_spec(text, st_d),
                ending_next_spec(text, old(lexer).st()) == Ok::<
                    (LeafModel, Option<LeafModel>, ScanState),
                    ErrorModel,
                >((LeafModel::End(end@), None, drain_spec(text, st_d))),
            decreases lexer.len - lexer.pos,
        {
            proof {
                lemma_lex_next_progress(text, lexer.st());
            }
            match lexer.next() {
                None => {
                    return Ok((None, Leaf::End(end)));
                },
                Some(l1) => match l1.kind {
                    LexemeType::BracketRight => {
                        return Ok((None, Leaf::End(end)));
                    },
                    _ => {},
                },
            }
        }
    }
}

/// The leaf builder's state: the cached synthesized closing leaf, if any,
/// and the scanner state.
pub struct SynState {
    pub cached: Option<LeafModel>,
    pub lex: ScanState,
}

/// Well-formedness of a leaf-builder state over `text`.
pub open spec fn syn_wf(text: Seq<char>, ss: SynState) -> bool {
    0 <= ss.lex.pos <= text.len()
}

/// What one [`Syntaxer::next`] call yields from state `ss`: the cached leaf
/// if one is waiting; `None` at end of input; otherwise the next leaf, with
/// any synthesized closing leaf moved into the cache.
pub open spec fn syn_next_spec(text: Seq<char>, ss: SynState) -> Result<
    Option<(LeafModel, SynState)>,
    ErrorModel,
> {
    match ss.cached {
        Some(l) => Ok(Some((l, SynState { cached: None, lex: ss.lex }))),
        None => if ss.lex.pos >= text.len() {
            Ok(None)
        } else {
            match leaf_next_spec(text, ss.lex) {
                Err(e) => Err(e),
                Ok((leaf, synth, st2)) => Ok(Some((leaf, SynState { cached: synth, lex: st2 }))),
            }
        },
    }
}

/// The leaf builder's starting state: nothing cached, the scanner at its
/// start.
pub open spec fn initial_syn_state() -> SynState {
    SynState { cached: None, lex: initial_scan_state() }
}

/// The sequence of leaves the remaining calls will yield, and the first
/// error if one lies ahead of end of input.
pub struct LeafStream {
    pub leaves: Seq<LeafModel>,
    pub err: Option<ErrorModel>,
}

/// A decreasing measure of the leaf builder's remaining work.
pub open spec fn syn_measure(text: Seq<char>, ss: SynState) -> int {
    2 * (text.len() - ss.lex.pos) + (if ss.cached is Some {
        1int
    } else {
        0int
    })
}

/// Flattens the remaining leaf-builder calls from state `ss` into the leaves
/// they will produce, ending at end of input (no error) or at the first
/// error.
pub open spec fn leaf_stream_from(text: Seq<char>, ss: SynState) -> LeafStream
    decreases syn_measure(text, ss),
    when syn_wf(text, ss)
    via leaf_stream_from_dec
{
    match syn_next_spec(text, ss) {
        Err(e) => LeafStream { leaves: Seq::empty(), err: Some(e) },
        Ok(None) => LeafStream { leaves: Seq::empty(), err: None },
        Ok(Some((l, ss2))) => {
            let rest = leaf_stream_from(text, ss2);
            LeafStream { leaves: seq![l] + rest.leaves, err: rest.err }
        },
    }
}

#[via_fn]
proof fn leaf_stream_from_dec(text: Seq<char>, ss: SynState) {
    match ss.cached {
        Some(_) => {},
        None => {
            if ss.lex.pos < text.len() {
                lemma_leaf_next_range(text, ss.lex);
            }
        },
    }
}

/// How one leaf-builder step relates to the flattened stream: a produced
/// leaf is the stream's head and the new state's stream is its tail; `None`
/// is an empty stream without error; an error is an empty stream carrying
/// exactly that error. A produced leaf strictly shrinks the measure.
pub proof fn lemma_syn_next_stream(text: Seq<char>, ss: SynState)
    requires
        syn_wf(text, ss),
    ensures
        match syn_next_spec(text, ss) {
            Ok(Some((l, ss2))) => {
                &&& syn_wf(text, ss2)
                &&& syn_measure(text, ss2) < syn_measure(text, ss)
                &&& 0 <= syn_measure(text, ss2)
                &&& leaf_stream_from(text, ss).leaves.len() >= 1
                &&& leaf_stream_from(text, ss).leaves[0] == l
                &&& leaf_stream_from(text, ss2).leaves == leaf_stream_from(
                    text,
                    ss,
                ).leaves.drop_first()
                &&& leaf_stream_from(text, ss2).err == leaf_stream_from(text, ss).err
            },
            Ok(None) => leaf_stream_from(text, ss) == (LeafStream {
                leaves: Seq::<LeafModel>::empty(),
                err: None,
            }),
            Err(e) => leaf_stream_from(text, ss) == (LeafStream {
                leaves: Seq::<LeafModel>::empty(),
                err: Some(e),
            }),
        },
{
    if ss.cached is None && ss.lex.pos < text.len() {
        lemma_leaf_next_range(text, ss.lex);
    }
    match syn_next_spec(text, ss) {
        Ok(Some((l, ss2))) => {
            assert(syn_wf(text, ss2));
            let rest = leaf_stream_from(text, ss2);
            assert(leaf_stream_from(text, ss) == LeafStream {
                leaves: seq![l] + rest.leaves,
                err: rest.err,
            });
            assert((seq![l] + rest.leaves).drop_first() =~= rest.leaves);
        },
        _ => {},
    }
}

/// The leaf builder: pulls lexemes on demand and keeps at most one cached
/// leaf of lookahead for self-closing tag synthesis.
pub struct Syntaxer<'a> {
    pub cached_leaf: Option<Leaf>,
    pub lexer: Lexer<'a>,
}

impl<'a> Syntaxer<'a> {
    /// The input being parsed.
    pub open spec fn input(&self) -> Seq<char> {
        self.lexer.input()
    }

    /// The leaf builder's current state.
    pub open spec fn st(&self) -> SynState {
        SynState { cached: leaf_opt_view(self.cached_leaf), lex: self.lexer.st() }
    }

    /// Well-formedness.
    pub open spec fn wf(&self) -> bool {
        self.lexer.wf()
    }

    /// A fresh leaf builder over `text`.
    ///
    /// The length bound is a machine limit inherited from [`Lexer::new`].
    pub fn new(text: &'a str) -> (r: Syntaxer<'a>)
        requires
            text@.len() < u64::MAX,
        ensures
            r.wf(),
            r.input() == text@,
            r.st() == (SynState { cached: None::<LeafModel>, lex: initial_scan_state() }),
    {
        Syntaxer { cached_leaf: None, lexer: Lexer::new(text) }
    }

    /// The next leaf, `None` at end of input, or the first error;
    /// exactly [`syn_next_spec`].
    pub fn next(&mut self) -> (r: Result<Option<Leaf>, ParseError>)
        requires
            old(self).wf(),
        ensures
            final(self).wf(),
            final(self).input() == old(self).input(),
            match syn_next_spec(old(self).input(), old(self).st()) {
                Ok(Some((lm, ss2))) => {
                    &&& r matches Ok(o) && o matches Some(l) && l@ == lm
                    &&& final(self).st() == ss2
                },
                Ok(None) => r matches Ok(o) && o is None && final(self).st() == old(self).st(),
                Err(em) => r matches Err(e) && e@ == em,
            },
    {
        let cached = self.cached_leaf.take();
        match cached {
            Some(leaf) => Ok(Some(leaf)),
            None => {
                if self.lexer.pos >= self.lexer.len {
                    return Ok(None);
                }
                match Leaf::parse(&mut self.lexer) {
                    Ok((synth, leaf)) => {
                        self.cached_leaf = synth;
                        Ok(Some(leaf))
                    },
                    Err(e) => Err(e),
                }
            },
        }
    }
}

} // verus!
