//! Streams of Rust tokens, and the pieces of code that bindings are put together from.

use proc_macro2::TokenStream;
use vstd::prelude::*;

verus! {

/// What encloses a group of tokens.
pub enum Delimiter {
    Parenthesis,
    Brace,
    Bracket,
    /// Nothing that is seen in source text.
    Invisible,
}

/// One tree of a token stream, as contracts speak of it.
pub enum Tree {
    /// An identifier or a keyword.
    Word(Seq<char>),
    /// A punctuation character, and whether it forms one operator with the next.
    Mark(char, bool),
    /// A literal, as it is written.
    Literal(Seq<char>),
    /// The trees between two delimiters.
    Group(Delimiter, Seq<Tree>),
}

/// `TokenStream` of the crate proc-macro2. Nothing is known of a value but the trees that it holds.
#[verifier::external_type_specification]
#[verifier::external_body]
pub struct ExTokenStream(proc_macro2::TokenStream);

/// The token trees that a stream holds, in order. Where they come from in a source file is no part
/// of them.
pub uninterp spec fn trees(stream: proc_macro2::TokenStream) -> Seq<Tree>;

/// The trees of several streams, one stream after the other.
pub open spec fn joined(streams: Seq<Seq<Tree>>) -> Seq<Tree>
    decreases streams.len(),
{
    if streams.len() == 0 {
        Seq::empty()
    } else {
        joined(streams.drop_last()) + streams.last()
    }
}

/// A name made of ASCII letters, digits and underscores that does not start with a digit.
pub open spec fn is_word(name: Seq<char>) -> bool {
    &&& name.len() > 0
    &&& forall|i: int| 0 <= i < name.len() ==> is_word_char(#[trigger] name[i])
    &&& !('0' <= name[0] <= '9')
}

pub open spec fn is_word_char(c: char) -> bool {
    ||| 'a' <= c <= 'z'
    ||| 'A' <= c <= 'Z'
    ||| '0' <= c <= '9'
    ||| c == '_'
}

/// The punctuation characters of the language.
pub open spec fn is_mark(c: char) -> bool {
    ||| c == '!' || c == '#' || c == '$' || c == '%' || c == '&' || c == '\'' || c == '*'
    ||| c == '+' || c == ',' || c == '-' || c == '.' || c == '/' || c == ':' || c == ';'
    ||| c == '<' || c == '=' || c == '>' || c == '?' || c == '@' || c == '^' || c == '|'
    ||| c == '~'
}

/// `::`
pub open spec fn path_separator() -> Seq<Tree> {
    seq![Tree::Mark(':', true), Tree::Mark(':', false)]
}

/// `::*;`
pub open spec fn glob_end() -> Seq<Tree> {
    path_separator() + seq![Tree::Mark('*', false), Tree::Mark(';', false)]
}

/// `pub use super::__shared_types::*;`, which reaches the shared types of the same file, or
/// `pub use super::super::shared_types::*;`, which reaches those of the file `shared_types.rs`.
pub open spec fn shared_import(single_file: bool) -> Seq<Tree> {
    let start = seq![Tree::Word("pub"@), Tree::Word("use"@), Tree::Word("super"@)] + path_separator();
    if single_file {
        start + seq![Tree::Word("__shared_types"@)] + glob_end()
    } else {
        start + seq![Tree::Word("super"@)] + path_separator() + seq![Tree::Word("shared_types"@)]
            + glob_end()
    }
}

/// `pub mod name { body }`
pub open spec fn public_module(name: Seq<Tree>, body: Seq<Tree>) -> Seq<Tree> {
    seq![Tree::Word("pub"@), Tree::Word("mod"@)] + name + seq![Tree::Group(Delimiter::Brace, body)]
}

/// `pub mod __shared_types { .. }` around the definitions of all shared types.
pub open spec fn shared_module(shared_types: Seq<Seq<Tree>>) -> Seq<Tree> {
    public_module(seq![Tree::Word("__shared_types"@)], joined(shared_types))
}

/// `#[allow(clippy::too_many_arguments, non_camel_case_types)]`
pub open spec fn allow_attribute() -> Seq<Tree> {
    let lints = seq![Tree::Word("clippy"@)] + path_separator() + seq![
        Tree::Word("too_many_arguments"@),
        Tree::Mark(',', false),
        Tree::Word("non_camel_case_types"@),
    ];
    seq![
        Tree::Mark('#', false),
        Tree::Group(
            Delimiter::Bracket,
            seq![Tree::Word("allow"@), Tree::Group(Delimiter::Parenthesis, lints)],
        ),
    ]
}

/// `TokenStream::new` returns a stream without tokens.
pub assume_specification[ proc_macro2::TokenStream::new ]() -> (stream: proc_macro2::TokenStream)
    ensures
        trees(stream) == Seq::<Tree>::empty(),
;

/// `TokenStreamExt::append` of an `Ident`: the identifier follows all other trees and carries
/// `name` unchanged. `Ident::new` panics on what is no identifier.
#[verifier::external_body]
fn push_word(stream: &mut TokenStream, name: &str)
    requires
        is_word(name@),
    ensures
        trees(*final(stream)) == trees(*old(stream)).push(Tree::Word(name@)),
{
    let word = proc_macro2::Ident::new(name, proc_macro2::Span::call_site());
    quote::TokenStreamExt::append(stream, word);
}

/// `TokenStreamExt::append` of a `Punct` that stands alone: the character follows all other
/// trees. `Punct::new` panics on what is no punctuation.
#[verifier::external_body]
fn push_mark(stream: &mut TokenStream, mark: char)
    requires
        is_mark(mark),
    ensures
        trees(*final(stream)) == trees(*old(stream)).push(Tree::Mark(mark, false)),
{
    quote::TokenStreamExt::append(stream, proc_macro2::Punct::new(mark, proc_macro2::Spacing::Alone));
}

/// `TokenStreamExt::append` of a `Punct` that is joined to the next: the character follows all
/// other trees. `Punct::new` panics on what is no punctuation.
#[verifier::external_body]
fn push_joint_mark(stream: &mut TokenStream, mark: char)
    requires
        is_mark(mark),
    ensures
        trees(*final(stream)) == trees(*old(stream)).push(Tree::Mark(mark, true)),
{
    quote::TokenStreamExt::append(stream, proc_macro2::Punct::new(mark, proc_macro2::Spacing::Joint));
}

/// `TokenStreamExt::append` of a `Group` in parentheses: one tree that holds the trees of `body`
/// follows all others.
#[verifier::external_body]
fn push_parenthesized(stream: &mut TokenStream, body: TokenStream)
    ensures
        trees(*final(stream)) == trees(*old(stream)).push(
            Tree::Group(Delimiter::Parenthesis, trees(body)),
        ),
{
    let group = proc_macro2::Group::new(proc_macro2::Delimiter::Parenthesis, body);
    quote::TokenStreamExt::append(stream, group);
}

/// `TokenStreamExt::append` of a `Group` in brackets: one tree that holds the trees of `body`
/// follows all others.
#[verifier::external_body]
fn push_bracketed(stream: &mut TokenStream, body: TokenStream)
    ensures
        trees(*final(stream)) == trees(*old(stream)).push(
            Tree::Group(Delimiter::Bracket, trees(body)),
        ),
{
    let group = proc_macro2::Group::new(proc_macro2::Delimiter::Bracket, body);
    quote::TokenStreamExt::append(stream, group);
}

/// `TokenStreamExt::append` of a `Group` in braces: one tree that holds the trees of `body`
/// follows all others.
#[verifier::external_body]
fn push_braced(stream: &mut TokenStream, body: TokenStream)
    ensures
        trees(*final(stream)) == trees(*old(stream)).push(
            Tree::Group(Delimiter::Brace, trees(body)),
        ),
{
    let group = proc_macro2::Group::new(proc_macro2::Delimiter::Brace, body);
    quote::TokenStreamExt::append(stream, group);
}

/// `ToTokens::to_tokens` of a whole stream: the trees of `more` follow all others.
#[verifier::external_body]
pub(crate) fn push_stream(stream: &mut TokenStream, more: &TokenStream)
    ensures
        trees(*final(stream)) == trees(*old(stream)) + trees(*more),
{
    quote::ToTokens::to_tokens(more, stream);
}

/// What trees read as in source text: one behind the other, apart by a space but for what follows
/// a punctuation character that forms one operator with the next.
pub open spec fn source_text(code: Seq<Tree>) -> Seq<char>
    decreases code,
{
    if code.len() == 0 {
        Seq::empty()
    } else {
        source_text(code.drop_last()) + gap(code.drop_last()) + tree_text(code.last())
    }
}

/// What stands between trees and the tree that follows them.
pub open spec fn gap(code: Seq<Tree>) -> Seq<char> {
    if code.len() == 0 || (code.last() matches Tree::Mark(_, joint) && joint) {
        Seq::empty()
    } else {
        seq![' ']
    }
}

/// What one tree reads as in source text.
pub open spec fn tree_text(tree: Tree) -> Seq<char>
    decreases tree,
{
    match tree {
        Tree::Word(name) => name,
        Tree::Mark(mark, _) => seq![mark],
        Tree::Literal(text) => text,
        Tree::Group(Delimiter::Parenthesis, body) => seq!['('] + source_text(body) + seq![')'],
        Tree::Group(Delimiter::Bracket, body) => seq!['['] + source_text(body) + seq![']'],
        Tree::Group(Delimiter::Brace, body) => seq!['{', ' '] + source_text(body) + (if body.len()
            == 0 {
            seq!['}']
        } else {
            seq![' ', '}']
        }),
        Tree::Group(Delimiter::Invisible, body) => source_text(body),
    }
}

/// Code that follows other code reads as it does alone, behind the gap between the two.
pub proof fn lemma_source_text(a: Seq<Tree>, b: Seq<Tree>)
    requires
        b.len() > 0,
    ensures
        source_text(a + b) == source_text(a) + gap(a) + source_text(b),
    decreases b.len(),
{
    let last = b.last();
    let rest = b.drop_last();
    assert((a + b).drop_last() =~= a + rest);
    assert((a + b).last() == last);
    if rest.len() == 0 {
        assert(a + rest =~= a);
        assert(source_text(rest) =~= Seq::<char>::empty());
        assert(source_text(a + b) =~= source_text(a) + gap(a) + source_text(b));
    } else {
        lemma_source_text(a, rest);
        assert((a + rest).last() == rest.last());
        assert(source_text(a + b) =~= source_text(a) + gap(a) + source_text(b));
    }
}

/// `Display` of a `TokenStream`, by `ToString::to_string`. The trees are printed in order, with a
/// space between two of them unless the first is a punctuation character that is joined to the
/// next; a group is printed between its delimiters, with spaces inside braces.
#[verifier::external_body]
pub(crate) fn to_source(stream: &TokenStream) -> (text: String)
    ensures
        text@ == source_text(trees(*stream)),
{
    stream.to_string()
}

/// A second stream with the same trees.
pub(crate) fn copied(stream: &TokenStream) -> (copy: TokenStream)
    ensures
        trees(copy) == trees(*stream),
{
    let mut copy = TokenStream::new();
    push_stream(&mut copy, stream);
    copy
}

/// The trees of all streams, as contracts speak of them.
pub open spec fn all_trees(streams: Seq<TokenStream>) -> Seq<Seq<Tree>> {
    streams.map_values(|s: TokenStream| trees(s))
}

/// Joins the streams in their order.
pub(crate) fn join(streams: &Vec<TokenStream>) -> (whole: TokenStream)
    ensures
        trees(whole) == joined(all_trees(streams@)),
{
    let mut whole = TokenStream::new();
    let mut i: usize = 0;
    while i < streams.len()
        invariant
            i <= streams@.len(),
            trees(whole) == joined(all_trees(streams@).take(i as int)),
        decreases streams@.len() - i,
    {
        push_stream(&mut whole, &streams[i]);
        proof {
            let next = all_trees(streams@).take(i + 1);
            assert(next.drop_last() =~= all_trees(streams@).take(i as int));
            assert(next.last() == trees(streams@[i as int]));
        }
        i += 1;
    }
    assert(all_trees(streams@).take(streams@.len() as int) =~= all_trees(streams@));
    whole
}

fn push_path_separator(stream: &mut TokenStream)
    ensures
        trees(*final(stream)) == trees(*old(stream)) + path_separator(),
{
    push_joint_mark(stream, ':');
    push_mark(stream, ':');
}

fn push_glob_end(stream: &mut TokenStream)
    ensures
        trees(*final(stream)) == trees(*old(stream)) + glob_end(),
{
    push_path_separator(stream);
    push_mark(stream, '*');
    push_mark(stream, ';');
}

/// The import that makes the shared types visible in a contract's module.
pub(crate) fn shared_import_tokens(single_file: bool) -> (import: TokenStream)
    ensures
        trees(import) == shared_import(single_file),
{
    proof {
        reveal_strlit("pub");
        reveal_strlit("use");
        reveal_strlit("super");
        reveal_strlit("__shared_types");
        reveal_strlit("shared_types");
    }
    let mut import = TokenStream::new();
    push_word(&mut import, "pub");
    push_word(&mut import, "use");
    push_word(&mut import, "super");
    push_path_separator(&mut import);
    if single_file {
        push_word(&mut import, "__shared_types");
    } else {
        push_word(&mut import, "super");
        push_path_separator(&mut import);
        push_word(&mut import, "shared_types");
    }
    push_glob_end(&mut import);
    import
}

/// Appends `pub mod name { body }`.
pub(crate) fn push_public_module(stream: &mut TokenStream, name: &TokenStream, body: TokenStream)
    ensures
        trees(*final(stream)) == trees(*old(stream)) + public_module(trees(*name), trees(body)),
{
    proof {
        reveal_strlit("pub");
        reveal_strlit("mod");
    }
    push_word(stream, "pub");
    push_word(stream, "mod");
    push_stream(stream, name);
    push_braced(stream, body);
}

/// Appends the module that holds the shared types of a single file.
pub(crate) fn push_shared_module(stream: &mut TokenStream, shared_types: &Vec<TokenStream>)
    ensures
        trees(*final(stream)) == trees(*old(stream)) + shared_module(all_trees(shared_types@)),
{
    proof {
        reveal_strlit("__shared_types");
    }
    let mut name = TokenStream::new();
    push_word(&mut name, "__shared_types");
    assert(trees(name) =~= seq![Tree::Word("__shared_types"@)]);
    push_public_module(stream, &name, join(shared_types));
}

/// Appends `pub use name::*;`.
pub(crate) fn push_public_glob(stream: &mut TokenStream, name: &TokenStream)
    ensures
        trees(*final(stream)) == trees(*old(stream)) + (seq![Tree::Word("pub"@), Tree::Word("use"@)]
            + trees(*name) + glob_end()),
{
    proof {
        reveal_strlit("pub");
        reveal_strlit("use");
    }
    push_word(stream, "pub");
    push_word(stream, "use");
    push_stream(stream, name);
    push_glob_end(stream);
}

/// Appends `#[allow(clippy::too_many_arguments, non_camel_case_types)]`.
pub(crate) fn push_allow_attribute(stream: &mut TokenStream)
    ensures
        trees(*final(stream)) == trees(*old(stream)) + allow_attribute(),
{
    proof {
        reveal_strlit("allow");
        reveal_strlit("clippy");
        reveal_strlit("too_many_arguments");
        reveal_strlit("non_camel_case_types");
    }
    let mut lints = TokenStream::new();
    push_word(&mut lints, "clippy");
    push_path_separator(&mut lints);
    push_word(&mut lints, "too_many_arguments");
    push_mark(&mut lints, ',');
    push_word(&mut lints, "non_camel_case_types");
    let mut body = TokenStream::new();
    push_word(&mut body, "allow");
    push_parenthesized(&mut body, lints);
    push_mark(stream, '#');
    push_bracketed(stream, body);
    proof {
        let bracketed = seq![Tree::Word("allow"@), Tree::Group(Delimiter::Parenthesis, trees(lints))];
        assert(trees(lints) =~= seq![Tree::Word("clippy"@)] + path_separator() + seq![
            Tree::Word("too_many_arguments"@),
            Tree::Mark(',', false),
            Tree::Word("non_camel_case_types"@),
        ]);
        assert(trees(body) =~= bracketed);
        assert(trees(*stream) =~= trees(*old(stream)) + seq![
            Tree::Mark('#', false),
            Tree::Group(Delimiter::Bracket, bracketed),
        ]);
    }
}

} // verus!
