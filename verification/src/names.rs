//! The names of modules and of the files that hold them.

use vstd::prelude::*;
use vstd::string::*;

verus! {

/// What snake case makes of a name that is not ASCII.
pub uninterp spec fn unicode_snake_case(name: Seq<char>) -> Seq<char>;

pub open spec fn is_ascii(name: Seq<char>) -> bool {
    forall|i: int| 0 <= i < name.len() ==> #[trigger] name[i] <= '\x7f'
}

pub open spec fn is_lower(c: char) -> bool {
    'a' <= c <= 'z'
}

pub open spec fn is_upper(c: char) -> bool {
    'A' <= c <= 'Z'
}

pub open spec fn is_digit(c: char) -> bool {
    '0' <= c <= '9'
}

pub open spec fn is_alphanumeric(c: char) -> bool {
    is_lower(c) || is_upper(c) || is_digit(c)
}

pub open spec fn lower(c: char) -> char {
    if is_upper(c) {
        (c as int + 32) as char
    } else {
        c
    }
}

/// What snake case makes of the character at place `i` of an ASCII name. Inside a word, a capital
/// or a digit beside a small letter starts a new one; anything else than letters and digits only
/// ends a word.
pub open spec fn snake_piece(name: Seq<char>, i: int) -> Seq<char> {
    let c = name[i];
    let inside = i > 0 && is_alphanumeric(name[i - 1]);
    if !is_alphanumeric(c) {
        if inside {
            seq!['_']
        } else {
            Seq::empty()
        }
    } else if inside && !is_lower(c) && (is_lower(name[i - 1]) || (i + 1 < name.len() && is_lower(
        name[i + 1],
    ))) {
        seq!['_', lower(c)]
    } else {
        seq![lower(c)]
    }
}

/// What snake case makes of the first `n` characters of an ASCII name.
pub open spec fn snake_pieces(name: Seq<char>, n: nat) -> Seq<char>
    decreases n,
{
    if n == 0 {
        Seq::empty()
    } else {
        snake_pieces(name, (n - 1) as nat) + snake_piece(name, n - 1)
    }
}

/// How many characters are left when those at the end that are no letters and digits are dropped.
pub open spec fn trimmed(name: Seq<char>, n: nat) -> nat
    decreases n,
{
    if n == 0 || is_alphanumeric(name[n - 1]) {
        n
    } else {
        trimmed(name, (n - 1) as nat)
    }
}

/// What snake case makes of a name.
pub open spec fn snake_case(name: Seq<char>) -> Seq<char> {
    if is_ascii(name) {
        snake_pieces(name, trimmed(name, name.len()))
    } else {
        unicode_snake_case(name)
    }
}

/// Lower case ASCII words, joined by single underscores.
pub open spec fn is_snake_case(name: Seq<char>) -> bool {
    &&& forall|i: int| 0 <= i < name.len() ==> ('a' <= #[trigger] name[i] <= 'z' || name[i] == '_')
    &&& forall|i: int|
        0 <= i < name.len() && #[trigger] name[i] == '_' ==> {
            &&& 0 < i < name.len() - 1
            &&& name[i + 1] != '_'
        }
}

/// `to_snake_case` of the crate Inflector. Of an ASCII name every character but those at the end
/// that are no letters and digits gives its piece, in order. Of any other name the result depends
/// on the name alone.
#[verifier::external_body]
pub(crate) fn to_snake_case(name: &str) -> (r: String)
    ensures
        is_ascii(name@) ==> r@ == snake_pieces(name@, trimmed(name@, name@.len())),
        !is_ascii(name@) ==> r@ == unicode_snake_case(name@),
{
    inflector::cases::snakecase::to_snake_case(name)
}

/// A name that is in snake case already is kept.
pub proof fn law_snake_case_is_kept(name: Seq<char>)
    requires
        is_snake_case(name),
    ensures
        snake_case(name) == name,
{
    let n = name.len();
    if n > 0 {
        assert(name[n - 1] != '_');
    }
    assert(trimmed(name, n) == n);
    lemma_snake_pieces_kept(name, n);
    assert(name.take(n as int) =~= name);
}

proof fn lemma_snake_pieces_kept(name: Seq<char>, n: nat)
    requires
        is_snake_case(name),
        n <= name.len(),
    ensures
        snake_pieces(name, n) == name.take(n as int),
    decreases n,
{
    if n > 0 {
        let i = n - 1;
        lemma_snake_pieces_kept(name, (n - 1) as nat);
        if name[i] == '_' {
            assert(name[i - 1] != '_');
        }
        assert(snake_piece(name, i) =~= seq![name[i]]);
        assert(name.take(n as int) =~= name.take(i) + seq![name[i]]);
    }
}

/// The words that the language keeps for itself.
pub open spec fn is_reserved(word: Seq<char>) -> bool {
    ||| word == "_"@ || word == "abstract"@ || word == "as"@ || word == "async"@
    ||| word == "await"@ || word == "become"@ || word == "box"@ || word == "break"@
    ||| word == "const"@ || word == "continue"@ || word == "crate"@ || word == "do"@
    ||| word == "dyn"@ || word == "else"@ || word == "enum"@ || word == "extern"@
    ||| word == "false"@ || word == "final"@ || word == "fn"@ || word == "for"@
    ||| word == "if"@ || word == "impl"@ || word == "in"@ || word == "let"@
    ||| word == "loop"@ || word == "macro"@ || word == "match"@ || word == "mod"@
    ||| word == "move"@ || word == "mut"@ || word == "override"@ || word == "priv"@
    ||| word == "pub"@ || word == "ref"@ || word == "return"@ || word == "Self"@
    ||| word == "self"@ || word == "static"@ || word == "struct"@ || word == "super"@
    ||| word == "trait"@ || word == "true"@ || word == "try"@ || word == "type"@
    ||| word == "typeof"@ || word == "unsafe"@ || word == "unsized"@ || word == "use"@
    ||| word == "virtual"@ || word == "where"@ || word == "while"@ || word == "yield"@
}

/// The name of the module for a name in snake case: the name itself, or with a `_` behind it
/// where it is empty or a reserved word.
pub open spec fn safe_name(snake: Seq<char>) -> Seq<char> {
    if is_reserved(snake) || snake.len() == 0 {
        snake + "_"@
    } else {
        snake
    }
}

/// The name of the module that holds the bindings of a contract.
pub open spec fn module_name(contract: Seq<char>) -> Seq<char> {
    safe_name(snake_case(contract))
}

/// The name of the file that holds the bindings of a contract.
pub open spec fn file_name(contract: Seq<char>) -> Seq<char> {
    module_name(contract) + ".rs"@
}

/// Whether two strings are equal.
pub(crate) fn same(a: &str, b: &str) -> (r: bool)
    ensures
        r == (a@ == b@),
{
    let x = a.as_bytes();
    let y = b.as_bytes();
    proof {
        vstd::utf8::encode_utf8_decode_utf8(a@);
        vstd::utf8::encode_utf8_decode_utf8(b@);
    }
    same_bytes(x, y)
}

/// Whether two slices hold the same bytes.
pub(crate) fn same_bytes(x: &[u8], y: &[u8]) -> (r: bool)
    ensures
        r == (x@ == y@),
{
    if x.len() != y.len() {
        return false;
    }
    let mut i: usize = 0;
    while i < x.len()
        invariant
            i <= x@.len(),
            x@.len() == y@.len(),
            forall|j: int| 0 <= j < i ==> x@[j] == y@[j],
        decreases x@.len() - i,
    {
        if x[i] != y[i] {
            return false;
        }
        i += 1;
    }
    assert(x@ =~= y@);
    true
}

/// Whether the language keeps a word for itself.
fn reserved(word: &str) -> (r: bool)
    ensures
        r == is_reserved(word@),
{
    same(word, "_") || same(word, "abstract") || same(word, "as")
        || same(word, "async") || same(word, "await") || same(word, "become")
        || same(word, "box") || same(word, "break") || same(word, "const")
        || same(word, "continue") || same(word, "crate") || same(word, "do")
        || same(word, "dyn") || same(word, "else") || same(word, "enum")
        || same(word, "extern") || same(word, "false") || same(word, "final")
        || same(word, "fn") || same(word, "for") || same(word, "if")
        || same(word, "impl") || same(word, "in") || same(word, "let")
        || same(word, "loop") || same(word, "macro") || same(word, "match")
        || same(word, "mod") || same(word, "move") || same(word, "mut")
        || same(word, "override") || same(word, "priv") || same(word, "pub")
        || same(word, "ref") || same(word, "return") || same(word, "Self")
        || same(word, "self") || same(word, "static") || same(word, "struct")
        || same(word, "super") || same(word, "trait") || same(word, "true")
        || same(word, "try") || same(word, "type") || same(word, "typeof")
        || same(word, "unsafe") || same(word, "unsized") || same(word, "use")
        || same(word, "virtual") || same(word, "where") || same(word, "while")
        || same(word, "yield")
}

/// Makes a name in snake case fit for a module.
pub fn sanitize(snake: String) -> (name: String)
    ensures
        name@ == safe_name(snake@),
{
    if reserved(snake.as_str()) || snake.as_str().is_empty() {
        snake.concat("_")
    } else {
        snake
    }
}

/// The name of the module that holds the bindings of a contract: its name in snake case, with a
/// `_` behind it where that is a reserved word.
pub fn safe_module_name(contract: &str) -> (name: String)
    ensures
        name@ == module_name(contract@),
{
    sanitize(to_snake_case(contract))
}

/// The name of the file that holds the bindings of a contract.
pub fn module_filename(contract: &str) -> (name: String)
    ensures
        name@ == file_name(contract@),
{
    safe_module_name(contract).concat(".rs")
}

/// The module of the shared types keeps its name.
pub proof fn lemma_shared_types_name()
    ensures
        snake_case("shared_types"@) == "shared_types"@,
        module_name("shared_types"@) == "shared_types"@,
        file_name("shared_types"@) == "shared_types.rs"@,
{
    reveal_strlit("shared_types");
    reveal_strlit(".rs");
    reveal_strlit("shared_types.rs");
    law_snake_case_is_kept("shared_types"@);
    lemma_words();
    assert("shared_types"@ + ".rs"@ =~= "shared_types.rs"@);
}

/// A module gets a name that no reserved word is, and a name that is no reserved word is kept.
pub proof fn law_module_name_is_usable(snake: Seq<char>)
    requires
        snake.len() > 0,
    ensures
        !is_reserved(safe_name(snake)),
        !is_reserved(snake) ==> safe_name(snake) == snake,
{
    lemma_words();
    reveal_strlit("_");
    if is_reserved(snake) {
        let name = safe_name(snake);
        assert(name.len() >= 2 && name.last() == '_');
    }
}

/// What the reserved words have in common: their lengths, and that none but `_` ends in `_`.
proof fn lemma_words()
    ensures
        forall|word: Seq<char>| #[trigger]
            is_reserved(word) ==> 1 <= word.len() <= 8 && (word.last() == '_' ==> word.len() == 1),
{
    reveal_strlit("_");
    reveal_strlit("abstract");
    reveal_strlit("as");
    reveal_strlit("async");
    reveal_strlit("await");
    reveal_strlit("become");
    reveal_strlit("box");
    reveal_strlit("break");
    reveal_strlit("const");
    reveal_strlit("continue");
    reveal_strlit("crate");
    reveal_strlit("do");
    reveal_strlit("dyn");
    reveal_strlit("else");
    reveal_strlit("enum");
    reveal_strlit("extern");
    reveal_strlit("false");
    reveal_strlit("final");
    reveal_strlit("fn");
    reveal_strlit("for");
    reveal_strlit("if");
    reveal_strlit("impl");
    reveal_strlit("in");
    reveal_strlit("let");
    reveal_strlit("loop");
    reveal_strlit("macro");
    reveal_strlit("match");
    reveal_strlit("mod");
    reveal_strlit("move");
    reveal_strlit("mut");
    reveal_strlit("override");
    reveal_strlit("priv");
    reveal_strlit("pub");
    reveal_strlit("ref");
    reveal_strlit("return");
    reveal_strlit("Self");
    reveal_strlit("self");
    reveal_strlit("static");
    reveal_strlit("struct");
    reveal_strlit("super");
    reveal_strlit("trait");
    reveal_strlit("true");
    reveal_strlit("try");
    reveal_strlit("type");
    reveal_strlit("typeof");
    reveal_strlit("unsafe");
    reveal_strlit("unsized");
    reveal_strlit("use");
    reveal_strlit("virtual");
    reveal_strlit("where");
    reveal_strlit("while");
    reveal_strlit("yield");
}

} // verus!
