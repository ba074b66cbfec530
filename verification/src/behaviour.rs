//! What the commands of a program do, stated on whole program texts: for
//! every value of the operands, one step of a program that applies a
//! command gives the program that holds the command's result.
use vstd::prelude::*;

use crate::chars::{spec_is_alphabetic, spec_is_numeric, spec_is_whitespace};
use crate::numbers::{int_text, lemma_int_text_first, lemma_int_text_shape};
use crate::parser::{command_of_word, is_lower, lemma_command_word_lower};
use crate::rewrite::{
    alpha_end, ident_end, lemma_run_ends, number_end, numeric_end,
    paren_end, paren_scan, scan_commands, spec_rewrite, spec_step, ws_end,
};

verus! {

/// The head of a program whose argument count is zero: `(postfix 0 `.
pub open spec fn zero_head() -> Seq<char> {
    seq!['(', 'p', 'o', 's', 't', 'f', 'i', 'x', ' ', '0', ' ']
}

/// Whether `g` is one parenthesised group: it starts with `(`, and that `(`
/// is balanced by its last character and by no earlier one.
pub open spec fn is_group(g: Seq<char>) -> bool {
    g.len() > 0 && g[0] == '(' && paren_scan(g, 0, 0) == Some(g.len() as int)
}

/// Whether `t` is the text of a command: the decimal text of the number
/// `x` where `x` is given, a group where it is not.
pub open spec fn is_command_text(t: Seq<char>, x: Option<isize>) -> bool {
    match x {
        Some(v) => t == int_text(v as int),
        None => is_group(t),
    }
}

/// A run of numeric characters from `a` that stops before `b`.
proof fn lemma_numeric_run(s: Seq<char>, a: int, b: int)
    requires
        0 <= a <= b < s.len(),
        forall|j: int| a <= j < b ==> spec_is_numeric(#[trigger] s[j]),
        !spec_is_numeric(s[b]),
    ensures
        numeric_end(s, a) == b,
    decreases b - a,
{
    if a < b {
        lemma_numeric_run(s, a + 1, b);
    }
}

/// A run of alphabetic characters from `a` that stops before `b`.
proof fn lemma_alpha_run(s: Seq<char>, a: int, b: int)
    requires
        0 <= a <= b < s.len(),
        forall|j: int| a <= j < b ==> spec_is_alphabetic(#[trigger] s[j]),
        !spec_is_alphabetic(s[b]),
    ensures
        alpha_end(s, a) == b,
    decreases b - a,
{
    if a < b {
        lemma_alpha_run(s, a + 1, b);
    }
}

/// A group scanned inside a longer text closes where it closes on its own.
proof fn lemma_paren_scan_embed(g: Seq<char>, s: Seq<char>, i: int, j: int, d: int)
    requires
        0 <= i,
        0 <= j,
        i + g.len() <= s.len(),
        s.subrange(i, i + g.len()) == g,
        paren_scan(g, j, d) is Some,
    ensures
        paren_scan(s, i + j, d) == Some(i + paren_scan(g, j, d)->Some_0),
    decreases g.len() - j,
{
    assert(s[i + j] == g[j]);
    let dd = if g[j] == '(' {
        d + 1
    } else if g[j] == ')' {
        d - 1
    } else {
        d
    };
    if dd != 0 {
        lemma_paren_scan_embed(g, s, i, j + 1, dd);
    }
}

/// A command text at `i`, followed by a space, is the first span that a
/// scan from `i` meets.
proof fn lemma_scan_command(s: Seq<char>, i: int, t: Seq<char>, x: Option<isize>)
    requires
        0 <= i,
        i + t.len() < s.len(),
        s.subrange(i, i + t.len()) == t,
        s[i + t.len()] == ' ',
        is_command_text(t, x),
    ensures
        t.len() > 0,
        !spec_is_whitespace(s[i]),
        scan_commands(s, i) == (
            seq![(i, i + t.len())] + scan_commands(s, i + t.len()).0,
            scan_commands(s, i + t.len()).1,
        ),
{
    let e = i + t.len();
    assert forall|k: int| 0 <= k < t.len() implies s[i + k] == t[k] by {
        assert(s.subrange(i, e)[k] == s[i + k]);
    }
    match x {
        Some(v) => {
            lemma_int_text_shape(v as int);
            lemma_int_text_first(v as int);
            assert(s[i] == t[0]);
            if t[0] != '0' {
                assert forall|j: int| i + 1 <= j < e implies spec_is_numeric(#[trigger] s[j]) by {
                    assert(s[j] == t[j - i]);
                }
                lemma_numeric_run(s, i + 1, e);
            }
            assert(number_end(s, i) == e);
        },
        None => {
            assert(s[i] == '(');
            lemma_paren_scan_embed(t, s, i, 0, 0);
            assert(number_end(s, i) == i);
            assert(paren_end(s, i) == e);
        },
    }
    lemma_run_ends(s, i);
    assert(ws_end(s, i) == i);
}

/// A space before a character that is not white space is passed over.
proof fn lemma_scan_space(s: Seq<char>, k: int)
    requires
        0 <= k,
        k + 1 < s.len(),
        s[k] == ' ',
        !spec_is_whitespace(s[k + 1]),
    ensures
        scan_commands(s, k) == scan_commands(s, k + 1),
{
    assert(ws_end(s, k + 1) == k + 1);
    assert(ws_end(s, k) == k + 1);
}

/// A command word at `q`, closed by `)`, stops the scan, and the word runs
/// up to the `)`.
proof fn lemma_scan_word(s: Seq<char>, q: int, w: Seq<char>)
    requires
        0 <= q,
        q + w.len() < s.len(),
        s.subrange(q, q + w.len()) == w,
        s[q + w.len()] == ')',
        command_of_word(w) is Some,
    ensures
        scan_commands(s, q) == (Seq::<(int, int)>::empty(), q),
        ident_end(s, q) == q + w.len(),
        !spec_is_whitespace(s[q]),
{
    lemma_command_word_lower(w);
    let e = q + w.len();
    assert forall|j: int| q <= j < e implies spec_is_alphabetic(#[trigger] s[j]) by {
        assert(s[j] == s.subrange(q, e)[j - q]);
        assert(is_lower(w[j - q]));
    }
    lemma_alpha_run(s, q, e);
    assert(s[q] == w[0]);
    lemma_run_ends(s, q);
    assert(ws_end(s, q) == q);
    assert(number_end(s, q) == q);
    assert(paren_end(s, q) == q);
}

/// The characters that can start a command text are not white space.
proof fn lemma_command_first(t: Seq<char>, x: Option<isize>)
    requires
        is_command_text(t, x),
    ensures
        t.len() > 0,
        !spec_is_whitespace(t[0]),
{
    if let Some(v) = x {
        lemma_int_text_shape(v as int);
    }
}

} // verus!

verus! {

/// The program `(postfix 0 t2 t1 w)`: two command texts, then a command
/// word.
#[verifier::opaque]
pub open spec fn program2(t2: Seq<char>, t1: Seq<char>, w: Seq<char>) -> Seq<char> {
    zero_head() + t2 + seq![' '] + t1 + seq![' '] + w + seq![')']
}

/// The program `(postfix 0 t3 t2 t1 w)`: three command texts, then a
/// command word.
#[verifier::opaque]
pub open spec fn program3(t3: Seq<char>, t2: Seq<char>, t1: Seq<char>, w: Seq<char>) -> Seq<
    char,
> {
    zero_head() + t3 + seq![' '] + t2 + seq![' '] + t1 + seq![' '] + w + seq![')']
}

/// The program `(postfix 0 t1 w)`: one command text, then a command word.
#[verifier::opaque]
pub open spec fn program1(t1: Seq<char>, w: Seq<char>) -> Seq<char> {
    zero_head() + t1 + seq![' '] + w + seq![')']
}

/// A program with the count zero and no arguments is rewritten by a step.
proof fn lemma_zero_head_rewritten(p: Seq<char>)
    requires
        p.len() >= 11,
        p.subrange(0, 11) == zero_head(),
    ensures
        spec_step(p, Seq::empty()) == spec_rewrite(p, Seq::empty(), 10),
{
    let tail = p.subrange(11, p.len() as int);
    let head = crate::rewrite::loaded_head(Seq::<isize>::empty());
    assert(Seq::<isize>::empty().reverse() =~= Seq::<isize>::empty());
    assert(Seq::<isize>::empty().reverse().map_values(|x: isize| int_text(x as int))
        =~= Seq::<Seq<char>>::empty());
    assert(head =~= zero_head());
    assert(p =~= head + tail);
    crate::rewrite::lemma_loaded_program_is_rewritten(Seq::empty(), tail);
}

/// How a step scans `program1`: one span, then the command word.
proof fn lemma_scan_program1(t1: Seq<char>, x1: Option<isize>, w: Seq<char>)
    requires
        is_command_text(t1, x1),
        command_of_word(w) is Some,
    ensures
        ({
            let p = program1(t1, w);
            let i1: int = 11;
            let e1: int = i1 + t1.len();
            let q: int = e1 + 1;
            &&& scan_commands(p, 10) == (seq![(i1, e1)], q)
            &&& ident_end(p, q) == q + w.len()
            &&& q + w.len() + 1 == p.len()
            &&& p.last() == ')'
            &&& p.subrange(q, q + w.len()) == w
            &&& p.subrange(i1, e1) == t1
            &&& spec_step(p, Seq::empty()) == spec_rewrite(p, Seq::empty(), 10)
            &&& forall|r: Seq<char>|
                #[trigger] crate::rewrite::splice(p, i1, q + w.len(), r) == zero_head() + r
                    + seq![')']
        }),
{
    reveal(program1);
    let p = program1(t1, w);
    let e1: int = 11 + t1.len() as int;
    let q: int = e1 + 1;
    lemma_command_first(t1, x1);
    lemma_command_word_lower(w);
    assert(p.subrange(0, 11) =~= zero_head());
    assert(p.subrange(11, e1) =~= t1);
    assert(p.subrange(q, q + w.len()) =~= w);
    assert(p[10] == ' ' && p[11] == t1[0] && p[e1] == ' ' && p[q] == w[0]);
    assert(p[q + w.len()] == ')');
    lemma_zero_head_rewritten(p);
    lemma_scan_space(p, 10);
    lemma_scan_command(p, 11, t1, x1);
    lemma_scan_space(p, e1);
    lemma_scan_word(p, q, w);
    assert(seq![(11int, e1)] + Seq::<(int, int)>::empty() =~= seq![(11int, e1)]);
    assert forall|r: Seq<char>|
        #[trigger] crate::rewrite::splice(p, 11, q + w.len(), r) == zero_head() + r + seq![
            ')',
        ] by {
        assert(p.subrange(q + w.len(), p.len() as int) =~= seq![')']);
    }
}

/// How a step scans `program2`: two spans, then the command word.
#[verifier::rlimit(80)]
proof fn lemma_scan_program2(
    t2: Seq<char>,
    x2: Option<isize>,
    t1: Seq<char>,
    x1: Option<isize>,
    w: Seq<char>,
)
    requires
        is_command_text(t2, x2),
        is_command_text(t1, x1),
        command_of_word(w) is Some,
    ensures
        ({
            let p = program2(t2, t1, w);
            let i2: int = 11int;
            let e2: int = i2 + t2.len();
            let i1: int = e2 + 1;
            let e1: int = i1 + t1.len();
            let q: int = e1 + 1;
            &&& scan_commands(p, 10) == (seq![(i2, e2), (i1, e1)], q)
            &&& ident_end(p, q) == q + w.len()
            &&& q + w.len() + 1 == p.len()
            &&& p.last() == ')'
            &&& p.subrange(q, q + w.len()) == w
            &&& p.subrange(i2, e2) == t2
            &&& p.subrange(i1, e1) == t1
            &&& spec_step(p, Seq::empty()) == spec_rewrite(p, Seq::empty(), 10)
            &&& forall|r: Seq<char>|
                #[trigger] crate::rewrite::splice(p, i2, q + w.len(), r) == zero_head() + r
                    + seq![')']
            &&& forall|r: Seq<char>|
                #[trigger] crate::rewrite::splice(p, i1, q + w.len(), r) == zero_head() + t2
                    + seq![' '] + r + seq![')']
        }),
{
    reveal(program2);
    let p = program2(t2, t1, w);
    let e2: int = 11 + t2.len() as int;
    let i1: int = e2 + 1;
    let e1: int = i1 + t1.len();
    let q: int = e1 + 1;
    lemma_command_first(t2, x2);
    lemma_command_first(t1, x1);
    lemma_command_word_lower(w);
    assert(p.subrange(0, 11) =~= zero_head());
    assert(p.subrange(11, e2) =~= t2);
    assert(p.subrange(i1, e1) =~= t1);
    assert(p.subrange(q, q + w.len()) =~= w);
    assert(p[10] == ' ' && p[11] == t2[0] && p[e2] == ' ' && p[i1] == t1[0] && p[e1] == ' '
        && p[q] == w[0]);
    assert(p[q + w.len()] == ')');
    lemma_zero_head_rewritten(p);
    lemma_scan_space(p, 10);
    lemma_scan_command(p, 11, t2, x2);
    lemma_scan_space(p, e2);
    lemma_scan_command(p, i1, t1, x1);
    lemma_scan_space(p, e1);
    lemma_scan_word(p, q, w);
    assert(seq![(11int, e2)] + (seq![(i1, e1)] + Seq::<(int, int)>::empty()) =~= seq![
        (11int, e2),
        (i1, e1),
    ]);
    assert forall|r: Seq<char>|
        #[trigger] crate::rewrite::splice(p, 11, q + w.len(), r) == zero_head() + r + seq![
            ')',
        ] by {
        assert(p.subrange(q + w.len(), p.len() as int) =~= seq![')']);
    }
    assert forall|r: Seq<char>|
        #[trigger] crate::rewrite::splice(p, i1, q + w.len(), r) == zero_head() + t2 + seq![
            ' ',
        ] + r + seq![')'] by {
        assert(p.subrange(q + w.len(), p.len() as int) =~= seq![')']);
        assert(p.subrange(0, i1) =~= zero_head() + t2 + seq![' ']);
    }
}

/// How a step scans `program3`: three spans, then the command word.
#[verifier::rlimit(80)]
proof fn lemma_scan_program3(
    t3: Seq<char>,
    x3: Option<isize>,
    t2: Seq<char>,
    x2: Option<isize>,
    t1: Seq<char>,
    x1: Option<isize>,
    w: Seq<char>,
)
    requires
        is_command_text(t3, x3),
        is_command_text(t2, x2),
        is_command_text(t1, x1),
        command_of_word(w) is Some,
    ensures
        ({
            let p = program3(t3, t2, t1, w);
            let i3: int = 11;
            let e3: int = i3 + t3.len();
            let i2: int = e3 + 1;
            let e2: int = i2 + t2.len();
            let i1: int = e2 + 1;
            let e1: int = i1 + t1.len();
            let q: int = e1 + 1;
            &&& scan_commands(p, 10) == (seq![(i3, e3), (i2, e2), (i1, e1)], q)
            &&& ident_end(p, q) == q + w.len()
            &&& q + w.len() + 1 == p.len()
            &&& p.last() == ')'
            &&& p.subrange(q, q + w.len()) == w
            &&& p.subrange(i3, e3) == t3
            &&& p.subrange(i2, e2) == t2
            &&& p.subrange(i1, e1) == t1
            &&& spec_step(p, Seq::empty()) == spec_rewrite(p, Seq::empty(), 10)
            &&& forall|r: Seq<char>|
                #[trigger] crate::rewrite::splice(p, i3, q + w.len(), r) == zero_head() + r
                    + seq![')']
        }),
{
    reveal(program3);
    let p = program3(t3, t2, t1, w);
    let e3: int = 11 + t3.len() as int;
    let i2: int = e3 + 1;
    let e2: int = i2 + t2.len();
    let i1: int = e2 + 1;
    let e1: int = i1 + t1.len();
    let q: int = e1 + 1;
    lemma_command_first(t3, x3);
    lemma_command_first(t2, x2);
    lemma_command_first(t1, x1);
    lemma_command_word_lower(w);
    assert(p.subrange(0, 11) =~= zero_head());
    assert(p.subrange(11, e3) =~= t3);
    assert(p.subrange(i2, e2) =~= t2);
    assert(p.subrange(i1, e1) =~= t1);
    assert(p.subrange(q, q + w.len()) =~= w);
    assert(p[10] == ' ' && p[11] == t3[0] && p[e3] == ' ' && p[i2] == t2[0] && p[e2] == ' '
        && p[i1] == t1[0] && p[e1] == ' ' && p[q] == w[0]);
    assert(p[q + w.len()] == ')');
    lemma_zero_head_rewritten(p);
    lemma_scan_space(p, 10);
    lemma_scan_command(p, 11, t3, x3);
    lemma_scan_space(p, e3);
    lemma_scan_command(p, i2, t2, x2);
    lemma_scan_space(p, e2);
    lemma_scan_command(p, i1, t1, x1);
    lemma_scan_space(p, e1);
    lemma_scan_word(p, q, w);
    assert(seq![(11int, e3)] + (seq![(i2, e2)] + (seq![(i1, e1)] + Seq::<(int, int)>::empty()))
        =~= seq![(11int, e3), (i2, e2), (i1, e1)]);
    assert forall|r: Seq<char>|
        #[trigger] crate::rewrite::splice(p, 11, q + w.len(), r) == zero_head() + r + seq![
            ')',
        ] by {
        assert(p.subrange(q + w.len(), p.len() as int) =~= seq![')']);
    }
}

} // verus!

verus! {

/// The rewriting part of a step on a program whose commands after the count
/// are two, followed by a word that names an arithmetic or comparison
/// operation.
proof fn lemma_rewrite_binary(
    p: Seq<char>,
    cmds: Seq<(int, int)>,
    q: int,
    w: Seq<char>,
    o: crate::postfix::BinaryOp,
)
    requires
        scan_commands(p, 10) == (cmds, q),
        cmds.len() == 2,
        q < p.len(),
        p.last() == ')',
        ident_end(p, q) != q,
        p.subrange(q, ident_end(p, q)) == w,
        command_of_word(w) == Some(crate::postfix::CommandModel::BinaryOp(o)),
    ensures
        spec_rewrite(p, Seq::empty(), 10) == match crate::rewrite::spec_binary_op(
            crate::postfix::CommandModel::BinaryOp(o),
            crate::rewrite::span_text(p, cmds[1]),
            crate::rewrite::span_text(p, cmds[0]),
        ) {
            Some(r) => Some(
                (crate::rewrite::splice(p, cmds[0].0, ident_end(p, q), r), Seq::<char>::empty()),
            ),
            None => None,
        },
{
}

/// The operation of an arithmetic or comparison command on the texts of two
/// numbers is its operation on the numbers, written back as text.
proof fn lemma_binary_op_numbers(o: crate::postfix::BinaryOp, b: isize, a: isize)
    ensures
        crate::rewrite::spec_binary_op(
            crate::postfix::CommandModel::BinaryOp(o),
            int_text(a as int),
            int_text(b as int),
        ) == match crate::rewrite::spec_arith(o, b, a) {
            Some(x) => Some(int_text(x as int)),
            None => None,
        },
{
    crate::numbers::lemma_parse_isize_of_text(b);
    crate::numbers::lemma_parse_isize_of_text(a);
}

/// A step of `(postfix 0 b a w)`, for a word `w` that names an arithmetic
/// or comparison operation, puts the operation's result on `b` and `a` in
/// place of the two numbers and the word.
#[verifier::rlimit(40)]
proof fn lemma_step_numbers(b: isize, a: isize, w: Seq<char>, o: crate::postfix::BinaryOp)
    requires
        command_of_word(w) == Some(crate::postfix::CommandModel::BinaryOp(o)),
    ensures
        spec_step(program2(int_text(b as int), int_text(a as int), w), Seq::empty()) == match
            crate::rewrite::spec_arith(o, b, a) {
            Some(x) => Some(
                (zero_head() + int_text(x as int) + seq![')'], Seq::<char>::empty()),
            ),
            None => None,
        },
{
    let tb = int_text(b as int);
    let ta = int_text(a as int);
    let p = program2(tb, ta, w);
    lemma_scan_program2(tb, Some(b), ta, Some(a), w);
    let (cmds, q) = scan_commands(p, 10);
    let e = ident_end(p, q);
    lemma_rewrite_binary(p, cmds, q, w, o);
    lemma_binary_op_numbers(o, b, a);
    assert(crate::rewrite::span_text(p, cmds[1]) == ta);
    assert(crate::rewrite::span_text(p, cmds[0]) == tb);
    assert(cmds[0].0 == 11);
    if let Some(x) = crate::rewrite::spec_arith(o, b, a) {
        let r = int_text(x as int);
        assert(crate::rewrite::splice(p, 11, e, r) == zero_head() + r + seq![')']);
    }
}

/// The words of the arithmetic and comparison commands.
pub open spec fn word_add() -> Seq<char> {
    seq!['a', 'd', 'd']
}

pub open spec fn word_sub() -> Seq<char> {
    seq!['s', 'u', 'b']
}

pub open spec fn word_mul() -> Seq<char> {
    seq!['m', 'u', 'l']
}

pub open spec fn word_lt() -> Seq<char> {
    seq!['l', 't']
}

pub open spec fn word_gt() -> Seq<char> {
    seq!['g', 't']
}

pub open spec fn word_eq() -> Seq<char> {
    seq!['e', 'q']
}

/// `add` on `b` and `a` gives their sum, for all values whose sum fits.
pub proof fn law_add(b: isize, a: isize)
    requires
        isize::MIN <= b + a <= isize::MAX,
    ensures
        spec_step(program2(int_text(b as int), int_text(a as int), word_add()), Seq::empty())
            == Some((zero_head() + int_text(b + a) + seq![')'], Seq::<char>::empty())),
{
    lemma_step_numbers(b, a, word_add(), crate::postfix::BinaryOp::Add);
}

/// `sub` on `b` (below) and `a` (on top) gives `b - a`, negative where `a`
/// is the larger, for all values whose difference fits.
pub proof fn law_sub(b: isize, a: isize)
    requires
        isize::MIN <= b - a <= isize::MAX,
    ensures
        spec_step(program2(int_text(b as int), int_text(a as int), word_sub()), Seq::empty())
            == Some((zero_head() + int_text(b - a) + seq![')'], Seq::<char>::empty())),
{
    lemma_step_numbers(b, a, word_sub(), crate::postfix::BinaryOp::Sub);
}

/// `mul` on `b` and `a` gives their product, for all values whose product
/// fits.
pub proof fn law_mul(b: isize, a: isize)
    requires
        isize::MIN <= b * a <= isize::MAX,
    ensures
        spec_step(program2(int_text(b as int), int_text(a as int), word_mul()), Seq::empty())
            == Some((zero_head() + int_text(b * a) + seq![')'], Seq::<char>::empty())),
{
    lemma_step_numbers(b, a, word_mul(), crate::postfix::BinaryOp::Mul);
}

/// `lt` on `b` (below) and `a` (on top) gives `1` exactly where `b < a`,
/// and `0` otherwise.
pub proof fn law_lt(b: isize, a: isize)
    ensures
        spec_step(program2(int_text(b as int), int_text(a as int), word_lt()), Seq::empty())
            == Some(
            (
                zero_head() + int_text(
                    if b < a {
                        1int
                    } else {
                        0int
                    },
                ) + seq![')'],
                Seq::<char>::empty(),
            ),
        ),
{
    lemma_step_numbers(b, a, word_lt(), crate::postfix::BinaryOp::LT);
}

/// `gt` on `b` (below) and `a` (on top) gives `1` exactly where `b > a`
/// strictly, and `0` otherwise; so it gives `0` on equal values.
pub proof fn law_gt(b: isize, a: isize)
    ensures
        spec_step(program2(int_text(b as int), int_text(a as int), word_gt()), Seq::empty())
            == Some(
            (
                zero_head() + int_text(
                    if b > a {
                        1int
                    } else {
                        0int
                    },
                ) + seq![')'],
                Seq::<char>::empty(),
            ),
        ),
{
    lemma_step_numbers(b, a, word_gt(), crate::postfix::BinaryOp::GT);
}

/// `eq` on `b` and `a` gives `1` exactly where they are equal, and `0`
/// otherwise.
pub proof fn law_eq(b: isize, a: isize)
    ensures
        spec_step(program2(int_text(b as int), int_text(a as int), word_eq()), Seq::empty())
            == Some(
            (
                zero_head() + int_text(
                    if b == a {
                        1int
                    } else {
                        0int
                    },
                ) + seq![')'],
                Seq::<char>::empty(),
            ),
        ),
{
    lemma_step_numbers(b, a, word_eq(), crate::postfix::BinaryOp::EQ);
}

} // verus!

verus! {

/// The rewriting part of a step on a program whose commands after the count
/// end with the operand of a command that takes one (`pop`, `exec`, `nget`).
proof fn lemma_rewrite_unary(
    p: Seq<char>,
    cmds: Seq<(int, int)>,
    q: int,
    w: Seq<char>,
    op: crate::postfix::CommandModel,
)
    requires
        scan_commands(p, 10) == (cmds, q),
        cmds.len() >= 1,
        q < p.len(),
        p.last() == ')',
        ident_end(p, q) != q,
        p.subrange(q, ident_end(p, q)) == w,
        command_of_word(w) == Some(op),
        op is Pop || op is Exec || op is Nget,
    ensures
        spec_rewrite(p, Seq::empty(), 10) == match crate::rewrite::spec_unary_op(
            op,
            crate::rewrite::span_text(p, cmds[cmds.len() - 1]),
            cmds.map_values(|s: (int, int)| crate::rewrite::span_text(p, s)),
        ) {
            Some(r) => Some(
                (
                    crate::rewrite::splice(p, cmds[cmds.len() - 1].0, ident_end(p, q), r),
                    Seq::<char>::empty(),
                ),
            ),
            None => None,
        },
{
}

/// The rewriting part of a step on a program whose two commands after the
/// count are followed by `swap`.
proof fn lemma_rewrite_swap(p: Seq<char>, cmds: Seq<(int, int)>, q: int, w: Seq<char>)
    requires
        scan_commands(p, 10) == (cmds, q),
        cmds.len() == 2,
        q < p.len(),
        p.last() == ')',
        ident_end(p, q) != q,
        p.subrange(q, ident_end(p, q)) == w,
        command_of_word(w) == Some(crate::postfix::CommandModel::Swap),
    ensures
        spec_rewrite(p, Seq::empty(), 10) == Some(
            (
                crate::rewrite::splice(
                    p,
                    cmds[0].0,
                    ident_end(p, q),
                    crate::rewrite::span_text(p, cmds[1]) + seq![' '] + crate::rewrite::span_text(
                        p,
                        cmds[0],
                    ),
                ),
                Seq::<char>::empty(),
            ),
        ),
{
}

/// The rewriting part of a step on a program whose three commands after the
/// count are followed by `sel`.
proof fn lemma_rewrite_sel(p: Seq<char>, cmds: Seq<(int, int)>, q: int, w: Seq<char>)
    requires
        scan_commands(p, 10) == (cmds, q),
        cmds.len() == 3,
        q < p.len(),
        p.last() == ')',
        ident_end(p, q) != q,
        p.subrange(q, ident_end(p, q)) == w,
        command_of_word(w) == Some(crate::postfix::CommandModel::Sel),
    ensures
        spec_rewrite(p, Seq::empty(), 10) == match crate::numbers::spec_parse_isize(
            crate::rewrite::span_text(p, cmds[0]),
        ) {
            Some(c) => Some(
                (
                    crate::rewrite::splice(
                        p,
                        cmds[0].0,
                        ident_end(p, q),
                        if c == 0 {
                            crate::rewrite::span_text(p, cmds[2])
                        } else {
                            crate::rewrite::span_text(p, cmds[1])
                        },
                    ),
                    Seq::<char>::empty(),
                ),
            ),
            None => None,
        },
{
}

/// A group is at least `()` long and ends with `)`.
proof fn lemma_group_ends(g: Seq<char>)
    requires
        is_group(g),
    ensures
        g.len() >= 2,
        g.last() == ')',
{
    assert(paren_scan(g, 0, 0) == paren_scan(g, 1, 1));
    crate::rewrite::lemma_paren_scan_close(g, 1, 1);
    crate::rewrite::lemma_paren_scan(g, 1, 1);
}

/// The words of the commands that rearrange the stack.
pub open spec fn word_exec() -> Seq<char> {
    seq!['e', 'x', 'e', 'c']
}

pub open spec fn word_sel() -> Seq<char> {
    seq!['s', 'e', 'l']
}

pub open spec fn word_swap() -> Seq<char> {
    seq!['s', 'w', 'a', 'p']
}

pub open spec fn word_pop() -> Seq<char> {
    seq!['p', 'o', 'p']
}

pub open spec fn word_nget() -> Seq<char> {
    seq!['n', 'g', 'e', 't']
}

/// `exec` on any group, nested groups inside it included, puts the inside
/// of the group, without white space at either end, in place of the group
/// and the word.
pub proof fn law_exec(g: Seq<char>)
    requires
        is_group(g),
    ensures
        spec_step(program1(g, word_exec()), Seq::empty()) == Some(
            (
                zero_head() + crate::rewrite::spec_trim(g.subrange(1, g.len() - 1)) + seq![')'],
                Seq::<char>::empty(),
            ),
        ),
{
    let p = program1(g, word_exec());
    lemma_scan_program1(g, None, word_exec());
    lemma_group_ends(g);
    let (cmds, q) = scan_commands(p, 10);
    lemma_rewrite_unary(p, cmds, q, word_exec(), crate::postfix::CommandModel::Exec);
    assert(crate::rewrite::span_text(p, cmds[0]) == g);
    assert(cmds[0].0 == 11);
}

/// `sel` on a number `c` and two commands below the word, `t2` then `t1`,
/// numbers or groups, puts `t1` in place of all four where `c` is zero, and
/// `t2` otherwise.
pub proof fn law_sel(c: isize, t2: Seq<char>, x2: Option<isize>, t1: Seq<char>, x1: Option<isize>)
    requires
        is_command_text(t2, x2),
        is_command_text(t1, x1),
    ensures
        spec_step(program3(int_text(c as int), t2, t1, word_sel()), Seq::empty()) == Some(
            (
                zero_head() + (if c == 0 {
                    t1
                } else {
                    t2
                }) + seq![')'],
                Seq::<char>::empty(),
            ),
        ),
{
    let tc = int_text(c as int);
    let p = program3(tc, t2, t1, word_sel());
    lemma_scan_program3(tc, Some(c), t2, x2, t1, x1, word_sel());
    crate::numbers::lemma_parse_isize_of_text(c);
    let (cmds, q) = scan_commands(p, 10);
    lemma_rewrite_sel(p, cmds, q, word_sel());
    assert(crate::rewrite::span_text(p, cmds[0]) == tc);
    assert(crate::rewrite::span_text(p, cmds[1]) == t2);
    assert(crate::rewrite::span_text(p, cmds[2]) == t1);
    assert(cmds[0].0 == 11);
}

/// `swap` on any two commands `t2` then `t1` puts them in the other order.
pub proof fn law_swap(t2: Seq<char>, x2: Option<isize>, t1: Seq<char>, x1: Option<isize>)
    requires
        is_command_text(t2, x2),
        is_command_text(t1, x1),
    ensures
        spec_step(program2(t2, t1, word_swap()), Seq::empty()) == Some(
            (zero_head() + t1 + seq![' '] + t2 + seq![')'], Seq::<char>::empty()),
        ),
{
    let p = program2(t2, t1, word_swap());
    lemma_scan_program2(t2, x2, t1, x1, word_swap());
    let (cmds, q) = scan_commands(p, 10);
    lemma_rewrite_swap(p, cmds, q, word_swap());
    assert(crate::rewrite::span_text(p, cmds[0]) == t2);
    assert(crate::rewrite::span_text(p, cmds[1]) == t1);
    assert(cmds[0].0 == 11);
    assert(zero_head() + (t1 + seq![' '] + t2) + seq![')'] =~= zero_head() + t1 + seq![' '] + t2
        + seq![')']);
}

/// `pop` on any command removes it and the word.
pub proof fn law_pop(t1: Seq<char>, x1: Option<isize>)
    requires
        is_command_text(t1, x1),
    ensures
        spec_step(program1(t1, word_pop()), Seq::empty()) == Some(
            (zero_head() + seq![')'], Seq::<char>::empty()),
        ),
{
    let p = program1(t1, word_pop());
    lemma_scan_program1(t1, x1, word_pop());
    let (cmds, q) = scan_commands(p, 10);
    lemma_rewrite_unary(p, cmds, q, word_pop(), crate::postfix::CommandModel::Pop);
    assert(cmds[0].0 == 11);
    assert(zero_head() + Seq::<char>::empty() + seq![')'] =~= zero_head() + seq![')']);
}

/// `nget` with the index `k` on top of a command `t2` copies the command
/// `k` places below the index (counting the index itself as place `0`):
/// the index where `k` is `0`, `t2` where `k` is `1`; any other index fails.
pub proof fn law_nget(t2: Seq<char>, x2: Option<isize>, k: isize)
    requires
        is_command_text(t2, x2),
    ensures
        spec_step(program2(t2, int_text(k as int), word_nget()), Seq::empty()) == if k == 0 {
            Some(
                (
                    zero_head() + t2 + seq![' '] + int_text(0) + seq![')'],
                    Seq::<char>::empty(),
                ),
            )
        } else if k == 1 {
            Some((zero_head() + t2 + seq![' '] + t2 + seq![')'], Seq::<char>::empty()))
        } else {
            None
        },
{
    let tk = int_text(k as int);
    let p = program2(t2, tk, word_nget());
    lemma_scan_program2(t2, x2, tk, Some(k), word_nget());
    crate::numbers::lemma_parse_isize_of_text(k);
    let (cmds, q) = scan_commands(p, 10);
    lemma_rewrite_unary(p, cmds, q, word_nget(), crate::postfix::CommandModel::Nget);
    let texts = cmds.map_values(|s: (int, int)| crate::rewrite::span_text(p, s));
    assert(texts[0] == t2);
    assert(texts[1] == tk);
    assert(cmds[1].0 == 12 + t2.len());
}

} // verus!

verus! {

/// Whether `q` is `b` divided by `a` rounded toward zero: the remainder
/// `b - q * a` is smaller than `a` in size, and is zero or has the sign of
/// `b`.
pub open spec fn is_truncated_quotient(b: int, a: int, q: int) -> bool {
    let r = b - q * a;
    &&& r == 0 || ((r > 0) == (b > 0))
    &&& if a > 0 {
        -a < r < a
    } else {
        a < r < -a
    }
}

/// Rust's checked division and remainder round toward zero.
proof fn lemma_checked_div_rem(b: isize, a: isize)
    requires
        a != 0,
        !(b == isize::MIN && a == -1),
    ensures
        b.checked_div(a) is Some,
        is_truncated_quotient(b as int, a as int, b.checked_div(a)->Some_0 as int),
        b.checked_rem(a) == Some((b - b.checked_div(a)->Some_0 * a) as isize),
{
    let x = b as int;
    let d = a as int;
    if x == 0 {
    } else if x > 0 && d > 0 {
        vstd::arithmetic::div_mod::lemma_fundamental_div_mod(x, d);
        vstd::arithmetic::div_mod::lemma_mod_pos_bound(x, d);
        let q = x / d;
        let m = x % d;
        assert(x - q * d == m) by (nonlinear_arith)
            requires
                x == d * q + m,
        ;
        assert(0 <= q <= x) by (nonlinear_arith)
            requires
                x == d * q + m,
                0 <= m < d,
                x > 0,
        ;
        assert(b.checked_div(a) == Some(q as isize));
        assert(is_truncated_quotient(x, d, q));
    } else if x < 0 && d < 0 {
        vstd::arithmetic::div_mod::lemma_fundamental_div_mod(-x, -d);
        vstd::arithmetic::div_mod::lemma_mod_pos_bound(-x, -d);
        let q = (-x) / (-d);
        let m = (-x) % (-d);
        assert(x - q * d == -m) by (nonlinear_arith)
            requires
                -x == (-d) * q + m,
        ;
        assert(0 <= q <= -x) by (nonlinear_arith)
            requires
                -x == (-d) * q + m,
                0 <= m < -d,
                x < 0,
        ;
        assert((x * -1) / (d * -1) == q);
        assert((x * -1) % (d * -1) == m);
        if d != -1 {
            assert(q * 2 <= -x) by (nonlinear_arith)
                requires
                    -x == (-d) * q + m,
                    0 <= m,
                    -d >= 2,
                    q >= 0,
            ;
        }
        assert(q <= isize::MAX);
        assert(b.checked_div(a) == Some(q as isize));
        assert(is_truncated_quotient(x, d, q));
    } else if x < 0 {
        vstd::arithmetic::div_mod::lemma_fundamental_div_mod(-x, d);
        vstd::arithmetic::div_mod::lemma_mod_pos_bound(-x, d);
        let q = (-x) / d;
        let m = (-x) % d;
        assert(x - (-q) * d == -m) by (nonlinear_arith)
            requires
                -x == d * q + m,
        ;
        assert(0 <= q <= -x) by (nonlinear_arith)
            requires
                -x == d * q + m,
                0 <= m < d,
                x < 0,
        ;
        assert((x * -1) / d == q);
        assert((x * -1) % d == m);
        assert(b.checked_div(a) == Some((-q) as isize));
        assert(is_truncated_quotient(x, d, -q));
    } else {
        vstd::arithmetic::div_mod::lemma_fundamental_div_mod(x, -d);
        vstd::arithmetic::div_mod::lemma_mod_pos_bound(x, -d);
        let q = x / (-d);
        let m = x % (-d);
        assert(x - (-q) * d == m) by (nonlinear_arith)
            requires
                x == (-d) * q + m,
        ;
        assert(0 <= q <= x) by (nonlinear_arith)
            requires
                x == (-d) * q + m,
                0 <= m < -d,
                x > 0,
        ;
        assert(x / (d * -1) == q);
        assert(b.checked_div(a) == Some((-q) as isize));
        assert(is_truncated_quotient(x, d, -q));
    }
}

pub open spec fn word_div() -> Seq<char> {
    seq!['d', 'i', 'v']
}

pub open spec fn word_rem() -> Seq<char> {
    seq!['r', 'e', 'm']
}

/// `div` on `b` (below) and `a` (on top) gives `b` divided by `a`, rounded
/// toward zero, wherever that quotient exists and fits.
pub proof fn law_div(b: isize, a: isize)
    requires
        a != 0,
        !(b == isize::MIN && a == -1),
    ensures
        exists|q: int|
            #![trigger is_truncated_quotient(b as int, a as int, q)]
            is_truncated_quotient(b as int, a as int, q) && spec_step(
                program2(int_text(b as int), int_text(a as int), word_div()),
                Seq::empty(),
            ) == Some((zero_head() + int_text(q) + seq![')'], Seq::<char>::empty())),
{
    lemma_checked_div_rem(b, a);
    lemma_step_numbers(b, a, word_div(), crate::postfix::BinaryOp::Div);
    let q = b.checked_div(a)->Some_0 as int;
    assert(is_truncated_quotient(b as int, a as int, q));
}

/// `rem` on `b` (below) and `a` (on top) gives what is left of `b` after
/// taking away `a` times the quotient rounded toward zero, wherever that
/// quotient exists and fits.
pub proof fn law_rem(b: isize, a: isize)
    requires
        a != 0,
        !(b == isize::MIN && a == -1),
    ensures
        exists|q: int|
            #![trigger is_truncated_quotient(b as int, a as int, q)]
            is_truncated_quotient(b as int, a as int, q) && spec_step(
                program2(int_text(b as int), int_text(a as int), word_rem()),
                Seq::empty(),
            ) == Some((zero_head() + int_text(b - q * a) + seq![')'], Seq::<char>::empty())),
{
    lemma_checked_div_rem(b, a);
    lemma_step_numbers(b, a, word_rem(), crate::postfix::BinaryOp::Rem);
    let q = b.checked_div(a)->Some_0 as int;
    assert(is_truncated_quotient(b as int, a as int, q));
}

} // verus!

verus! {

/// Going back from `j` over white space stops at a character that is not
/// white space, or at the start.
proof fn lemma_ws_start_back_stops(s: Seq<char>, j: int)
    requires
        0 <= j <= s.len(),
    ensures
        0 <= crate::rewrite::ws_start_back(s, j) <= j,
        forall|k: int|
            crate::rewrite::ws_start_back(s, j) <= k < j ==> spec_is_whitespace(#[trigger] s[k]),
        crate::rewrite::ws_start_back(s, j) > 0 ==> !spec_is_whitespace(
            s[crate::rewrite::ws_start_back(s, j) - 1],
        ),
    decreases j,
{
    if 0 < j && spec_is_whitespace(s[j - 1]) {
        lemma_ws_start_back_stops(s, j - 1);
    }
}

/// Trimming a text removes white space at its two ends and nothing else:
/// the result is a piece `t[lo..hi]` of `t`, everything outside it is white
/// space, and the result is empty or starts and ends with a character that
/// is not white space.
pub proof fn law_trim(t: Seq<char>)
    ensures
        exists|lo: int, hi: int|
            #![trigger t.subrange(lo, hi)]
            {
                &&& 0 <= lo <= hi <= t.len()
                &&& crate::rewrite::spec_trim(t) == t.subrange(lo, hi)
                &&& forall|k: int| 0 <= k < lo ==> spec_is_whitespace(#[trigger] t[k])
                &&& forall|k: int| hi <= k < t.len() ==> spec_is_whitespace(#[trigger] t[k])
                &&& hi > lo ==> !spec_is_whitespace(t[lo]) && !spec_is_whitespace(t[hi - 1])
            },
{
    lemma_run_ends(t, 0);
    let lo = ws_end(t, 0);
    let u = t.subrange(lo, t.len() as int);
    lemma_ws_start_back_stops(u, u.len() as int);
    let hu = crate::rewrite::ws_start_back(u, u.len() as int);
    let hi = lo + hu;
    assert(crate::rewrite::spec_trim(t) =~= t.subrange(lo, hi));
    assert forall|k: int| hi <= k < t.len() implies spec_is_whitespace(#[trigger] t[k]) by {
        assert(t[k] == u[k - lo]);
    }
    if hi > lo {
        assert(t[hi - 1] == u[hu - 1]);
    }
}

/// The value of each command on two numbers, `b` below and `a` on top, in
/// plain arithmetic: `add`, `sub` and `mul` give `b + a`, `b - a` (negative
/// where `a` is the larger) and `b * a` wherever the result fits; `lt`, `gt`
/// and `eq` give `1` exactly where `b < a`, `b > a` strictly and `b == a`,
/// and `0` otherwise.
pub proof fn law_arith(b: isize, a: isize)
    ensures
        isize::MIN <= b + a <= isize::MAX ==> crate::rewrite::spec_arith(
            crate::postfix::BinaryOp::Add,
            b,
            a,
        ) == Some((b + a) as isize),
        isize::MIN <= b - a <= isize::MAX ==> crate::rewrite::spec_arith(
            crate::postfix::BinaryOp::Sub,
            b,
            a,
        ) == Some((b - a) as isize),
        isize::MIN <= b * a <= isize::MAX ==> crate::rewrite::spec_arith(
            crate::postfix::BinaryOp::Mul,
            b,
            a,
        ) == Some((b * a) as isize),
        (crate::rewrite::spec_arith(crate::postfix::BinaryOp::LT, b, a) == Some(1isize)) <==> b < a,
        (crate::rewrite::spec_arith(crate::postfix::BinaryOp::LT, b, a) == Some(0isize)) <==> b >= a,
        (crate::rewrite::spec_arith(crate::postfix::BinaryOp::GT, b, a) == Some(1isize)) <==> b > a,
        (crate::rewrite::spec_arith(crate::postfix::BinaryOp::GT, b, a) == Some(0isize)) <==> b <= a,
        (crate::rewrite::spec_arith(crate::postfix::BinaryOp::EQ, b, a) == Some(1isize)) <==> b == a,
        (crate::rewrite::spec_arith(crate::postfix::BinaryOp::EQ, b, a) == Some(0isize)) <==> b != a,
{
}

/// Reading the argument count accepts every number that is not negative as
/// the count and goes on after it; a negative number is refused as a count.
pub proof fn law_argc(n: isize, ts: Seq<crate::parser::TokenModel>)
    ensures
        n >= 0 ==> crate::parser::spec_argc(seq![crate::parser::TokenModel::Number(n)] + ts) == (
            Ok::<usize, crate::parser::ParseError>(n as usize),
            ts,
        ),
        n < 0 ==> crate::parser::spec_argc(seq![crate::parser::TokenModel::Number(n)] + ts).0
            == Err::<usize, crate::parser::ParseError>(
            crate::parser::ParseError::InvalidArgumentCount,
        ),
{
    assert((seq![crate::parser::TokenModel::Number(n)] + ts).drop_first() =~= ts);
}

} // verus!
