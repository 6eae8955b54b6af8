//! The markdown parser: a snapshot of a document version holds its blocks
//! (from the block scanner), its outline of headings, its HTML rendering
//! (comrak, with the GFM extensions) and what tree-sitter reports of its
//! syntax tree.
use crate::document::{DocVersion, DocumentId};
use crate::markdown::{
    blocks_view, scan_blocks, scan_blocks_spec, BlockView, HeadingEntry, KindView, MarkdownBlock,
    MarkdownBlockKind, SourceSpan,
};
use tree_sitter::{Language, LanguageError, Parser};
use vstd::prelude::*;

verus! {

#[verifier::external_type_specification]
#[verifier::external_body]
pub struct ExParser(Parser);

#[verifier::external_type_specification]
#[verifier::external_body]
pub struct ExLanguage(Language);

#[verifier::external_type_specification]
#[verifier::external_body]
pub struct ExLanguageError(LanguageError);

/// The markdown extensions that the HTML rendering turns on.
#[derive(Clone, Copy, Debug, PartialEq, Eq, Structural)]
pub struct HtmlExtensions {
    pub table: bool,
    pub tasklist: bool,
    pub strikethrough: bool,
    pub autolink: bool,
    pub footnotes: bool,
}

/// The HTML that comrak's `markdown_to_html` renders of a text, under its
/// default options with the given extensions turned on.
pub uninterp spec fn comrak_html(
    text: Seq<char>,
    table: bool,
    tasklist: bool,
    strikethrough: bool,
    autolink: bool,
    footnotes: bool,
) -> Seq<char>;

/// `comrak::markdown_to_html`, under the default options with the given
/// extensions turned on. Its result depends on the text and the options alone.
#[verifier::external_body]
fn markdown_to_html(text: &str, extensions: &HtmlExtensions) -> (html: String)
    ensures
        html@ == comrak_html(
            text@,
            extensions.table,
            extensions.tasklist,
            extensions.strikethrough,
            extensions.autolink,
            extensions.footnotes,
        ),
{
    let mut options = comrak::Options::default();
    options.extension.table = extensions.table;
    options.extension.tasklist = extensions.tasklist;
    options.extension.strikethrough = extensions.strikethrough;
    options.extension.autolink = extensions.autolink;
    options.extension.footnotes = extensions.footnotes;
    comrak::markdown_to_html(text, &options)
}

/// The GitHub-flavoured extensions: tables, task lists, strikethrough,
/// autolinks and footnotes.
fn markdown_options() -> (o: HtmlExtensions)
    ensures
        o == (HtmlExtensions {
            table: true,
            tasklist: true,
            strikethrough: true,
            autolink: true,
            footnotes: true,
        }),
{
    HtmlExtensions {
        table: true,
        tasklist: true,
        strikethrough: true,
        autolink: true,
        footnotes: true,
    }
}

/// The ABI version that a grammar was generated for (`Language::version`).
pub uninterp spec fn grammar_version(language: Language) -> usize;

/// The grammar that a parser is set to (`Parser::language`), if any.
pub uninterp spec fn parser_grammar(parser: Parser) -> Option<Language>;

/// The grammar is the one `tree_sitter_markdown::language` gives.
pub uninterp spec fn is_markdown_grammar(language: Language) -> bool;

/// `tree_sitter::Parser::new`: a parser with no language yet.
#[verifier::external_body]
fn new_tree_sitter_parser() -> Parser {
    Parser::new()
}

/// `tree_sitter_markdown::language`: the markdown grammar, generated for
/// ABI version 13 (its `parser.c` defines `LANGUAGE_VERSION` as 13).
#[verifier::external_body]
fn markdown_language() -> (l: Language)
    ensures
        is_markdown_grammar(l),
        grammar_version(l) == 13,
{
    tree_sitter_markdown::language()
}

/// `Parser::set_language`: it sets the grammar where the grammar's ABI
/// version lies between this tree-sitter's minimum compatible version and
/// its own version (both 13), and fails otherwise.
#[verifier::external_body]
fn set_parser_language(parser: &mut Parser, language: Language) -> (r: Result<(), LanguageError>)
    ensures
        match r {
            Ok(_) => 13 <= grammar_version(language) <= 13 && parser_grammar(*final(parser))
                == Some(language),
            Err(_) => !(13 <= grammar_version(language) <= 13),
        },
{
    parser.set_language(language)
}

#[derive(Debug)]
pub enum MarkdownError {
    TreeSitterLanguage(LanguageError),
}

/// The model of an outline entry.
pub struct HeadingView {
    pub level: u8,
    pub title: Seq<char>,
    pub span: SourceSpan,
}

impl View for HeadingEntry {
    type V = HeadingView;

    open spec fn view(&self) -> HeadingView {
        HeadingView { level: self.level, title: self.title@, span: self.source_span }
    }
}

/// The headings among the blocks, in order.
pub open spec fn outline_spec(bs: Seq<BlockView>) -> Seq<HeadingView>
    decreases bs.len(),
{
    if bs.len() == 0 {
        Seq::empty()
    } else {
        let rest = outline_spec(bs.drop_last());
        match bs.last().kind {
            KindView::Heading { level, title } => rest.push(
                HeadingView { level, title, span: bs.last().span },
            ),
            _ => rest,
        }
    }
}

pub open spec fn outline_view(v: Seq<HeadingEntry>) -> Seq<HeadingView> {
    v.map_values(|h: HeadingEntry| h@)
}

/// The outline entries of the heading blocks, in order.
fn outline_of(blocks: &Vec<MarkdownBlock>) -> (outline: Vec<HeadingEntry>)
    ensures
        outline_view(outline@) == outline_spec(blocks_view(blocks@)),
{
    let mut outline: Vec<HeadingEntry> = Vec::new();
    let mut i: usize = 0;
    while i < blocks.len()
        invariant
            i <= blocks.len(),
            outline_view(outline@) == outline_spec(blocks_view(blocks@).take(i as int)),
        decreases blocks.len() - i,
    {
        let ghost prefix = blocks_view(blocks@).take(i + 1);
        assert(prefix.drop_last() =~= blocks_view(blocks@).take(i as int));
        assert(prefix.last() == blocks@[i as int]@);
        match &blocks[i].kind {
            MarkdownBlockKind::Heading { level, title } => {
                let entry = HeadingEntry {
                    level: *level,
                    title: title.clone(),
                    source_span: blocks[i].source_span,
                };
                assert(outline_view(outline@.push(entry)) =~= outline_view(outline@).push(entry@));
                outline.push(entry);
            },
            _ => {},
        }
        i += 1;
    }
    assert(blocks_view(blocks@).take(blocks.len() as int) =~= blocks_view(blocks@));
    outline
}

#[derive(Clone, Debug, PartialEq, Eq)]
pub struct MarkdownSnapshot {
    pub document: DocumentId,
    pub version: DocVersion,
    pub blocks: Vec<MarkdownBlock>,
    pub outline: Vec<HeadingEntry>,
    pub html: String,
    pub tree_root_kind: String,
    pub parser_had_error: bool,
}

pub struct MarkdownParser {
    parser: Parser,
}

impl MarkdownParser {
    /// The parser is set to the markdown grammar.
    #[verifier::type_invariant]
    pub closed spec fn uses_markdown_grammar(self) -> bool {
        parser_grammar(self.parser) matches Some(l) && is_markdown_grammar(l)
    }
}

/// The kind of the root node of the tree that tree-sitter's markdown grammar
/// parses from a text, and whether that tree holds a syntax error; `None`
/// where the parser gives no tree.
pub uninterp spec fn markdown_tree_root(text: Seq<char>) -> Option<(Seq<char>, bool)>;

/// `Parser::parse` of a whole text with no earlier tree, then `Tree::root_node`,
/// `Node::kind` (as a `String`) and `Node::has_error` of the tree's root.
/// Parsing gives no tree only where the parser has no grammar, or a timeout
/// or cancellation flag (never set here) stops it; it leaves the grammar as
/// it was. With the markdown grammar, the result depends on the text alone.
#[verifier::external_body]
fn parse_root(parser: &mut MarkdownParser, text: &str) -> (r: Option<(String, bool)>)
    requires
        old(parser).uses_markdown_grammar(),
    ensures
        match r {
            Some((kind, error)) => markdown_tree_root(text@) == Some((kind@, error)),
            None => false,
        },
        parser_grammar(final(parser).parser) == parser_grammar(old(parser).parser),
{
    match parser.parser.parse(text, None) {
        Some(tree) => {
            let root = tree.root_node();
            Some((root.kind().to_string(), root.has_error()))
        },
        None => None,
    }
}

impl MarkdownParser {
    /// A parser set to the tree-sitter markdown grammar. The grammar's ABI
    /// version is one this tree-sitter accepts, so it succeeds.
    pub fn new() -> (r: Result<Self, MarkdownError>)
        ensures
            r matches Ok(p) && p.uses_markdown_grammar(),
    {
        let mut parser = new_tree_sitter_parser();
        match set_parser_language(&mut parser, markdown_language()) {
            Ok(()) => Ok(MarkdownParser { parser }),
            Err(e) => Err(MarkdownError::TreeSitterLanguage(e)),
        }
    }

    /// A snapshot of one version of a document: its blocks, its outline, its
    /// HTML, and the kind and error flag of tree-sitter's root node (`document`
    /// and `true` should tree-sitter give no tree, which it does not with the
    /// markdown grammar set).
    pub fn parse(&mut self, document: DocumentId, version: DocVersion, text: &str) -> (snapshot:
        MarkdownSnapshot)
        ensures
            snapshot.document == document,
            snapshot.version == version,
            blocks_view(snapshot.blocks@) == scan_blocks_spec(text@),
            outline_view(snapshot.outline@) == outline_spec(scan_blocks_spec(text@)),
            snapshot.html@ == comrak_html(text@, true, true, true, true, true),
            markdown_tree_root(text@) == Some(
                (snapshot.tree_root_kind@, snapshot.parser_had_error),
            ),
    {
        proof {
            use_type_invariant(&*self);
        }
        let (tree_root_kind, parser_had_error) = match parse_root(self, text) {
            Some(root) => root,
            None => (crate::text::string_from_chars(&['d', 'o', 'c', 'u', 'm', 'e', 'n', 't']), true),
        };
        let html = markdown_to_html(text, &markdown_options());
        let blocks = scan_blocks(text);
        let outline = outline_of(&blocks);
        MarkdownSnapshot {
            document,
            version,
            blocks,
            outline,
            html,
            tree_root_kind,
            parser_had_error,
        }
    }
}

/// The outline entry of a heading block: its level, title and span.
pub open spec fn heading_of(b: BlockView) -> HeadingView {
    match b.kind {
        KindView::Heading { level, title } => HeadingView { level, title, span: b.span },
        _ => HeadingView { level: 0, title: Seq::empty(), span: b.span },
    }
}

/// The outline holds one entry for each heading block, whatever its level,
/// in the order of the blocks, and no other entry: it is the heading blocks
/// each taken as its level, title and span.
pub proof fn law_outline_lists_every_heading(bs: Seq<BlockView>)
    ensures
        outline_spec(bs) == bs.filter(|b: BlockView| b.kind is Heading).map_values(
            |b: BlockView| heading_of(b),
        ),
    decreases bs.len(),
{
    let is_heading = |b: BlockView| b.kind is Heading;
    let entry = |b: BlockView| heading_of(b);
    reveal_with_fuel(Seq::filter, 1);
    if bs.len() == 0 {
        assert(bs.filter(is_heading).map_values(entry) =~= Seq::<HeadingView>::empty());
    } else {
        law_outline_lists_every_heading(bs.drop_last());
        let sub = bs.drop_last().filter(is_heading);
        if is_heading(bs.last()) {
            assert(bs.filter(is_heading) == sub.push(bs.last()));
            assert(sub.push(bs.last()).map_values(entry) =~= sub.map_values(entry).push(
                entry(bs.last()),
            ));
        } else {
            assert(bs.filter(is_heading) == sub);
        }
    }
}

} // verus!
