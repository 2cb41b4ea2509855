//! Laws of names: how they are ordered, and what becomes of them as names of modules and files.

use crate::names;
use crate::order;
use vstd::prelude::*;
use vstd::utf8::encode_utf8;

verus! {

/// `a` and `b` are equal up to byte `k`, where `a` ends and `b` goes on, or `a` has the smaller byte.
pub open spec fn differ_at(a: Seq<u8>, b: Seq<u8>, k: int) -> bool {
    &&& 0 <= k <= a.len()
    &&& k < b.len()
    &&& forall|i: int| 0 <= i < k ==> #[trigger] a[i] == b[i]
    &&& k == a.len() || a[k] < b[k]
}

/// A name comes before another if and only if it has the smaller byte where they first differ, or
/// the other goes on where it ends.
pub proof fn law_names_are_ordered_by_bytes(a: Seq<char>, b: Seq<char>)
    ensures
        order::before(a, b) <==> exists|k: int| #[trigger] differ_at(encode_utf8(a), encode_utf8(b), k),
{
    lemma_bytes_before(encode_utf8(a), encode_utf8(b));
}

proof fn lemma_bytes_before(a: Seq<u8>, b: Seq<u8>)
    ensures
        order::bytes_before(a, b) <==> exists|k: int| #[trigger] differ_at(a, b, k),
    decreases a.len(),
{
    if b.len() > 0 && a.len() == 0 {
        assert(differ_at(a, b, 0));
    } else if b.len() > 0 && a[0] == b[0] {
        let ra = a.drop_first();
        let rb = b.drop_first();
        lemma_bytes_before(ra, rb);
        if exists|k: int| #[trigger] differ_at(ra, rb, k) {
            let k = choose|k: int| #[trigger] differ_at(ra, rb, k);
            let m = k + 1;
            assert forall|i: int| 0 <= i < m implies #[trigger] a[i] == b[i] by {
                if i > 0 {
                    assert(ra[i - 1] == rb[i - 1]);
                }
            }
            assert(k < ra.len() ==> a[m] == ra[k] && b[m] == rb[k]);
            assert(differ_at(a, b, m));
        }
        if exists|k: int| #[trigger] differ_at(a, b, k) {
            let k = choose|k: int| #[trigger] differ_at(a, b, k);
            let m = k - 1;
            assert(k > 0);
            assert forall|i: int| 0 <= i < m implies #[trigger] ra[i] == rb[i] by {
                assert(a[i + 1] == b[i + 1]);
            }
            assert(differ_at(ra, rb, m));
        }
    } else if b.len() > 0 {
        if a[0] < b[0] {
            assert(differ_at(a, b, 0));
        }
        if exists|k: int| #[trigger] differ_at(a, b, k) {
            let k = choose|k: int| #[trigger] differ_at(a, b, k);
            if k > 0 {
                assert(a[0] == b[0]);
            }
        }
    }
}

/// The words that the language keeps for itself: those in use, those kept for later, and `_`.
pub open spec fn is_keyword(word: Seq<char>) -> bool {
    // In use in expressions and statements.
    ||| word == "as"@ || word == "async"@ || word == "await"@ || word == "break"@
    ||| word == "continue"@ || word == "else"@ || word == "false"@ || word == "for"@
    ||| word == "if"@ || word == "in"@ || word == "let"@ || word == "loop"@
    ||| word == "match"@ || word == "move"@ || word == "return"@ || word == "true"@
    ||| word == "while"@ || word == "_"@
    // In use in items, types and paths.
    ||| word == "const"@ || word == "crate"@ || word == "dyn"@ || word == "enum"@
    ||| word == "extern"@ || word == "fn"@ || word == "impl"@ || word == "mod"@
    ||| word == "mut"@ || word == "pub"@ || word == "ref"@ || word == "Self"@
    ||| word == "self"@ || word == "static"@ || word == "struct"@ || word == "super"@
    ||| word == "trait"@ || word == "type"@ || word == "unsafe"@ || word == "use"@
    ||| word == "where"@
    // Kept for later.
    ||| word == "abstract"@ || word == "become"@ || word == "box"@ || word == "do"@
    ||| word == "final"@ || word == "macro"@ || word == "override"@ || word == "priv"@
    ||| word == "try"@ || word == "typeof"@ || word == "unsized"@ || word == "virtual"@
    ||| word == "yield"@
}

/// The module of a contract has the contract's name in snake case, with a `_` behind it if and only
/// if that is empty or a keyword. Its file has the name of the module with `.rs` behind it.
pub proof fn law_names_of_a_contract(contract: Seq<char>)
    ensures
        ({
            let snake = names::snake_case(contract);
            names::module_name(contract) == (if snake.len() == 0 || is_keyword(snake) {
                snake + "_"@
            } else {
                snake
            })
        }),
        names::file_name(contract) == names::module_name(contract) + ".rs"@,
{
}

/// The letters and digits of an ASCII name, as small letters and digits, in their order.
pub open spec fn small_letters(name: Seq<char>) -> Seq<char> {
    name.filter(|c: char| 'a' <= c <= 'z' || 'A' <= c <= 'Z' || '0' <= c <= '9').map_values(
        |c: char|
            if 'A' <= c <= 'Z' {
                (c as int - 'A' as int + 'a' as int) as char
            } else {
                c
            },
    )
}

/// Snake case keeps the letters and digits of an ASCII name, as small letters, in their order, and
/// adds nothing but `_`.
pub proof fn law_snake_case_keeps_letters(name: Seq<char>)
    requires
        names::is_ascii(name),
    ensures
        names::snake_case(name).filter(|c: char| c != '_') == small_letters(name),
{
    let n = names::trimmed(name, name.len());
    lemma_trimmed(name, name.len());
    lemma_letters(name, n);
    lemma_tail_has_no_letters(name, n, name.len());
    assert(name.take(name.len() as int) =~= name);
}

proof fn lemma_trimmed(name: Seq<char>, n: nat)
    requires
        n <= name.len(),
    ensures
        names::trimmed(name, n) <= n,
        forall|i: int| names::trimmed(name, n) <= i < n ==> !names::is_alphanumeric(#[trigger] name[i]),
        names::trimmed(name, n) > 0 ==> names::is_alphanumeric(name[names::trimmed(name, n) - 1]),
    decreases n,
{
    if n > 0 && !names::is_alphanumeric(name[n - 1]) {
        lemma_trimmed(name, (n - 1) as nat);
    }
}

proof fn lemma_letters(name: Seq<char>, n: nat)
    requires
        n <= name.len(),
        names::is_ascii(name),
    ensures
        names::snake_pieces(name, n).filter(|c: char| c != '_') == small_letters(name.take(n as int)),
    decreases n,
{
    broadcast use Seq::filter_distributes_over_add;
    reveal(Seq::filter);
    let under = |c: char| c != '_';
    let letter = |c: char| 'a' <= c <= 'z' || 'A' <= c <= 'Z' || '0' <= c <= '9';
    let small = |c: char|
        if 'A' <= c <= 'Z' {
            (c as int - 'A' as int + 'a' as int) as char
        } else {
            c
        };
    if n == 0 {
        assert(name.take(0) =~= Seq::<char>::empty());
        assert(small_letters(name.take(0)) =~= Seq::<char>::empty());
    } else {
        let m = (n - 1) as nat;
        let c = name[n - 1];
        lemma_letters(name, m);
        let piece = names::snake_piece(name, n - 1);
        let before = name.take(m as int);
        let now = name.take(n as int);
        assert(now.drop_last() =~= before);
        assert(now.last() == c);
        Seq::filter_distributes_over_add(names::snake_pieces(name, m), piece, under);
        reveal_with_fuel(Seq::filter, 4);
        if names::is_alphanumeric(c) {
            let l = names::lower(c);
            assert(l != '_');
            if piece.len() == 1 {
                assert(piece.drop_last() =~= Seq::<char>::empty());
                assert(piece.filter(under) =~= seq![l]);
            } else {
                assert(piece.drop_last() =~= seq!['_']);
                assert(piece.drop_last().drop_last() =~= Seq::<char>::empty());
                assert(piece.filter(under) =~= seq![l]);
            }
            assert(now.filter(letter) =~= before.filter(letter).push(c));
            assert(small_letters(now) =~= small_letters(before).push(l));
        } else {
            if piece.len() == 1 {
                assert(piece.drop_last() =~= Seq::<char>::empty());
            }
            assert(piece.filter(under) =~= Seq::<char>::empty());
            assert(now.filter(letter) =~= before.filter(letter));
            assert(small_letters(now) =~= small_letters(before));
        }
    }
}

proof fn lemma_tail_has_no_letters(name: Seq<char>, n: nat, m: nat)
    requires
        n <= m <= name.len(),
        forall|i: int| n <= i < m ==> !names::is_alphanumeric(#[trigger] name[i]),
    ensures
        small_letters(name.take(m as int)) == small_letters(name.take(n as int)),
    decreases m,
{
    reveal(Seq::filter);
    if m > n {
        let k = (m - 1) as nat;
        lemma_tail_has_no_letters(name, n, k);
        assert(name.take(m as int).drop_last() =~= name.take(k as int));
        assert(name.take(m as int).last() == name[k as int]);
    }
}

/// In snake case no `_` of an ASCII name stands first, last or behind another.
pub proof fn law_snake_case_has_no_empty_words(name: Seq<char>)
    requires
        names::is_ascii(name),
    ensures
        ({
            let snake = names::snake_case(name);
            forall|i: int|
                0 <= i < snake.len() && #[trigger] snake[i] == '_' ==> {
                    &&& 0 < i < snake.len() - 1
                    &&& snake[i - 1] != '_'
                }
        }),
{
    let n = names::trimmed(name, name.len());
    lemma_trimmed(name, name.len());
    lemma_words(name, n);
    let snake = names::snake_case(name);
    if n > 0 {
        assert(snake.len() > 0 && snake.last() != '_');
    }
}

proof fn lemma_words(name: Seq<char>, n: nat)
    requires
        n <= name.len(),
        names::is_ascii(name),
    ensures
        ({
            let snake = names::snake_pieces(name, n);
            &&& forall|i: int|
                0 <= i < snake.len() && #[trigger] snake[i] == '_' ==> 0 < i && snake[i - 1] != '_'
            &&& n > 0 && names::is_alphanumeric(name[n - 1]) ==> snake.len() > 0 && snake.last() != '_'
        }),
    decreases n,
{
    if n > 0 {
        lemma_words(name, (n - 1) as nat);
        let before = names::snake_pieces(name, (n - 1) as nat);
        let piece = names::snake_piece(name, n - 1);
        let now = before + piece;
        assert(names::snake_pieces(name, n) == now);
        let c = name[n - 1];
        let inside = n - 1 > 0 && names::is_alphanumeric(name[n - 2]);
        assert(names::is_alphanumeric(c) ==> names::lower(c) != '_');
        assert forall|i: int| 0 <= i < now.len() && #[trigger] now[i] == '_' implies 0 < i && now[i - 1]
            != '_' by {
            if i < before.len() {
                assert(before[i] == '_');
            } else {
                assert(piece[i - before.len()] == '_');
                assert(inside);
                assert(before.len() > 0 && before.last() != '_');
            }
        }
    }
}

} // verus!
