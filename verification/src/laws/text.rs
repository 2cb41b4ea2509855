//! Laws of the source text: what stands in it to be read.

use crate::contract::ExpandedView;
use crate::tokens;
use crate::tokens::{Delimiter, Tree};
use vstd::prelude::*;

verus! {

/// Whether a text holds a part.
pub open spec fn holds(text: Seq<char>, part: Seq<char>) -> bool {
    exists|before: Seq<char>, after: Seq<char>| text == #[trigger] (before + part + after)
}

/// What `pub mod name { body }` reads as, up to the brace.
proof fn lemma_module_text(name: Seq<char>, body: Seq<Tree>) -> (after: Seq<char>)
    ensures
        tokens::source_text(tokens::public_module(seq![Tree::Word(name)], body)) == "pub mod "@ + name
            + " {"@ + after,
{
    let group = Tree::Group(Delimiter::Brace, body);
    let code = tokens::public_module(seq![Tree::Word(name)], body);
    let pub_word = Tree::Word("pub"@);
    let mod_word = Tree::Word("mod"@);
    reveal_strlit("pub");
    reveal_strlit("mod");
    reveal_strlit("pub mod ");
    reveal_strlit(" {");
    reveal_with_fuel(tokens::source_text, 5);
    assert(code =~= seq![pub_word, mod_word, Tree::Word(name), group]);
    assert(code.drop_last() =~= seq![pub_word, mod_word, Tree::Word(name)]);
    assert(code.drop_last().drop_last() =~= seq![pub_word, mod_word]);
    assert(code.drop_last().drop_last().drop_last() =~= seq![pub_word]);
    assert(code.drop_last().drop_last().drop_last().drop_last() =~= Seq::<Tree>::empty());
    let inside = tokens::tree_text(group);
    let after = inside.skip(1);
    assert(inside[0] == '{');
    assert(tokens::source_text(code) =~= "pub mod "@ + name + " {"@ + after);
    after
}

/// The source text of a contract declares its module: `pub mod name {`.
pub proof fn law_module_stands_in_its_source_text(expanded: ExpandedView, name: Seq<char>)
    requires
        expanded.module == seq![Tree::Word(name)],
    ensures
        holds(tokens::source_text(expanded.tokens()), "pub mod "@ + name + " {"@),
{
    let front = seq![Tree::Word("pub"@), Tree::Word("use"@)] + expanded.module + tokens::glob_end()
        + tokens::allow_attribute();
    let module = tokens::public_module(expanded.module, expanded.body());
    let after = lemma_module_text(name, expanded.body());
    tokens::lemma_source_text(front, module);
    assert(expanded.tokens() =~= front + module);
    let before = tokens::source_text(front) + tokens::gap(front);
    assert(tokens::source_text(expanded.tokens()) =~= before + ("pub mod "@ + name + " {"@) + after);
}

/// The source text of the shared types of a single file declares their module.
pub proof fn law_shared_module_stands_in_its_source_text(shared_types: Seq<Seq<Tree>>)
    ensures
        holds(
            tokens::source_text(tokens::shared_module(shared_types)),
            "pub mod "@ + "__shared_types"@ + " {"@,
        ),
{
    let after = lemma_module_text("__shared_types"@, tokens::joined(shared_types));
    let before = Seq::<char>::empty();
    assert(tokens::source_text(tokens::shared_module(shared_types)) =~= before + ("pub mod "@
        + "__shared_types"@ + " {"@) + after);
}

/// The source text of a contract is not empty.
pub proof fn law_source_text_is_not_empty(expanded: ExpandedView)
    ensures
        tokens::source_text(expanded.tokens()).len() > 0,
{
    let first = seq![Tree::Word("pub"@)];
    let rest = expanded.tokens().drop_first();
    reveal_strlit("pub");
    reveal_with_fuel(tokens::source_text, 2);
    assert(first.drop_last() =~= Seq::<Tree>::empty());
    assert(expanded.tokens() =~= first + rest);
    tokens::lemma_source_text(first, rest);
}

/// What each kind of tree reads as, alone.
pub proof fn law_text_of_one_tree(name: Seq<char>, mark: char, joint: bool, body: Seq<Tree>)
    ensures
        tokens::source_text(Seq::<Tree>::empty()) == Seq::<char>::empty(),
        tokens::source_text(seq![Tree::Word(name)]) == name,
        tokens::source_text(seq![Tree::Literal(name)]) == name,
        tokens::source_text(seq![Tree::Mark(mark, joint)]) == seq![mark],
        tokens::source_text(seq![Tree::Group(Delimiter::Parenthesis, body)]) == "("@
            + tokens::source_text(body) + ")"@,
        tokens::source_text(seq![Tree::Group(Delimiter::Bracket, body)]) == "["@ + tokens::source_text(
            body,
        ) + "]"@,
        tokens::source_text(seq![Tree::Group(Delimiter::Brace, body)]) == (if body.len() == 0 {
            "{ }"@
        } else {
            "{ "@ + tokens::source_text(body) + " }"@
        }),
{
    reveal_strlit("(");
    reveal_strlit(")");
    reveal_strlit("[");
    reveal_strlit("]");
    reveal_strlit("{ ");
    reveal_strlit(" }");
    reveal_strlit("{ }");
    lemma_one_tree(Tree::Word(name));
    lemma_one_tree(Tree::Literal(name));
    lemma_one_tree(Tree::Mark(mark, joint));
    lemma_one_tree(Tree::Group(Delimiter::Parenthesis, body));
    lemma_one_tree(Tree::Group(Delimiter::Bracket, body));
    lemma_one_tree(Tree::Group(Delimiter::Brace, body));
    assert("("@ =~= seq!['(']);
    assert(")"@ =~= seq![')']);
    assert("["@ =~= seq!['[']);
    assert("]"@ =~= seq![']']);
    assert("{ "@ =~= seq!['{', ' ']);
    assert(" }"@ =~= seq![' ', '}']);
    if body.len() == 0 {
        assert(tokens::source_text(body) =~= Seq::<char>::empty());
        assert("{ }"@ =~= seq!['{', ' '] + tokens::source_text(body) + seq!['}']);
    }
}

proof fn lemma_one_tree(tree: Tree)
    ensures
        tokens::source_text(seq![tree]) == tokens::tree_text(tree),
{
    reveal_with_fuel(tokens::source_text, 2);
    assert(seq![tree].drop_last() =~= Seq::<Tree>::empty());
    assert(tokens::source_text(seq![tree]) =~= tokens::tree_text(tree));
}

/// Two pieces of code read as one behind the other, with a space between them unless the first ends
/// in a punctuation character that is joined to the next.
pub proof fn law_text_of_two_pieces(a: Seq<Tree>, b: Seq<Tree>)
    requires
        a.len() > 0,
        b.len() > 0,
    ensures
        tokens::source_text(a + b) == tokens::source_text(a) + (if a.last() matches Tree::Mark(
            _,
            joint,
        ) && joint {
            Seq::empty()
        } else {
            seq![' ']
        }) + tokens::source_text(b),
{
    tokens::lemma_source_text(a, b);
}

} // verus!
