//! One rewriting step of a Postfix program written as text.
use vstd::prelude::*;

use crate::chars::{
    is_alphabetic, is_numeric, is_whitespace, spec_is_alphabetic, spec_is_numeric,
    spec_is_whitespace,
};
use crate::text::to_chars;

verus! {

// ---------------------------------------------------------------------------
// Where the runs of a program text end.
// ---------------------------------------------------------------------------
/// The end of the run of white space that starts at `i`.
pub open spec fn ws_end(s: Seq<char>, i: int) -> int
    decreases s.len() - i,
{
    if 0 <= i < s.len() && spec_is_whitespace(s[i]) {
        ws_end(s, i + 1)
    } else {
        i
    }
}

/// The end of the run of characters other than white space that starts at `i`.
pub open spec fn non_ws_end(s: Seq<char>, i: int) -> int
    decreases s.len() - i,
{
    if 0 <= i < s.len() && !spec_is_whitespace(s[i]) {
        non_ws_end(s, i + 1)
    } else {
        i
    }
}

/// The end of the run of numeric characters that starts at `i`.
pub open spec fn numeric_end(s: Seq<char>, i: int) -> int
    decreases s.len() - i,
{
    if 0 <= i < s.len() && spec_is_numeric(s[i]) {
        numeric_end(s, i + 1)
    } else {
        i
    }
}

/// The end of the run of alphabetic characters that starts at `i`.
pub open spec fn alpha_end(s: Seq<char>, i: int) -> int
    decreases s.len() - i,
{
    if 0 <= i < s.len() && spec_is_alphabetic(s[i]) {
        alpha_end(s, i + 1)
    } else {
        i
    }
}

/// The end of the number that starts at `i`, or `i` where none does: a
/// single `0` that no ASCII digit follows; or one of `1` to `9` or `-`,
/// then a run of numeric characters.
pub open spec fn number_end(s: Seq<char>, i: int) -> int {
    if 0 <= i < s.len() && s[i] == '0' {
        if i + 1 < s.len() && '0' <= s[i + 1] && s[i + 1] <= '9' {
            i
        } else {
            i + 1
        }
    } else if 0 <= i < s.len() && (('1' <= s[i] && s[i] <= '9') || s[i] == '-') {
        numeric_end(s, i + 1)
    } else {
        i
    }
}

/// Scans `s` from `j` on, at parenthesis depth `depth` before `s[j]`: the
/// position just after the character that brings the depth to zero.
pub open spec fn paren_scan(s: Seq<char>, j: int, depth: int) -> Option<int>
    decreases s.len() - j,
{
    if j < 0 || j >= s.len() {
        None
    } else {
        let d = if s[j] == '(' {
            depth + 1
        } else if s[j] == ')' {
            depth - 1
        } else {
            depth
        };
        if d == 0 {
            Some(j + 1)
        } else {
            paren_scan(s, j + 1, d)
        }
    }
}

/// The end of the parenthesised group that starts at `i`, or `i` where no
/// group starts there or it is never closed.
pub open spec fn paren_end(s: Seq<char>, i: int) -> int {
    if 0 <= i < s.len() && s[i] == '(' {
        match paren_scan(s, i, 0) {
            Some(e) => e,
            None => i,
        }
    } else {
        i
    }
}

/// The end of the word of alphabetic characters that starts at `i`.
pub open spec fn ident_end(s: Seq<char>, i: int) -> int {
    alpha_end(s, i)
}

/// Each run end lies between its start and the end of the text.
pub proof fn lemma_run_ends(s: Seq<char>, i: int)
    requires
        0 <= i <= s.len(),
    ensures
        i <= ws_end(s, i) <= s.len(),
        i <= non_ws_end(s, i) <= s.len(),
        i <= numeric_end(s, i) <= s.len(),
        i <= alpha_end(s, i) <= s.len(),
        ws_end(s, i) < s.len() ==> !spec_is_whitespace(s[ws_end(s, i)]),
        non_ws_end(s, i) < s.len() ==> spec_is_whitespace(s[non_ws_end(s, i)]),
        forall|j: int| i <= j < ws_end(s, i) ==> spec_is_whitespace(#[trigger] s[j]),
        forall|j: int| i <= j < non_ws_end(s, i) ==> !spec_is_whitespace(#[trigger] s[j]),
        forall|j: int| i <= j < numeric_end(s, i) ==> spec_is_numeric(#[trigger] s[j]),
        forall|j: int| i <= j < alpha_end(s, i) ==> spec_is_alphabetic(#[trigger] s[j]),
    decreases s.len() - i,
{
    if i < s.len() {
        lemma_run_ends(s, i + 1);
    }
}

/// A scan for the closing parenthesis ends within the text.
pub proof fn lemma_paren_scan(s: Seq<char>, j: int, depth: int)
    requires
        0 <= j,
    ensures
        paren_scan(s, j, depth) matches Some(e) ==> j < e <= s.len(),
    decreases s.len() - j,
{
    if j < s.len() {
        let d = if s[j] == '(' {
            depth + 1
        } else if s[j] == ')' {
            depth - 1
        } else {
            depth
        };
        lemma_paren_scan(s, j + 1, d);
    }
}

/// The number, group and word ends lie between their start and the end of
/// the text.
pub proof fn lemma_token_ends(s: Seq<char>, i: int)
    requires
        0 <= i <= s.len(),
    ensures
        i <= number_end(s, i) <= s.len(),
        i <= paren_end(s, i) <= s.len(),
        i <= ident_end(s, i) <= s.len(),
{
    lemma_run_ends(s, i);
    if i < s.len() {
        lemma_run_ends(s, i + 1);
    }
    lemma_paren_scan(s, i, 0);
}

// ---------------------------------------------------------------------------
// The same ends, computed.
// ---------------------------------------------------------------------------
/// Computes `ws_end`.
fn ws_end_at(s: &Vec<char>, i: usize) -> (r: usize)
    requires
        i <= s.len(),
    ensures
        r == ws_end(s@, i as int),
{
    let mut j = i;
    while j < s.len() && is_whitespace(s[j])
        invariant
            i <= j <= s.len(),
            ws_end(s@, i as int) == ws_end(s@, j as int),
        decreases s.len() - j,
    {
        j = j + 1;
    }
    j
}

/// Computes `non_ws_end`.
fn non_ws_end_at(s: &Vec<char>, i: usize) -> (r: usize)
    requires
        i <= s.len(),
    ensures
        r == non_ws_end(s@, i as int),
{
    let mut j = i;
    while j < s.len() && !is_whitespace(s[j])
        invariant
            i <= j <= s.len(),
            non_ws_end(s@, i as int) == non_ws_end(s@, j as int),
        decreases s.len() - j,
    {
        j = j + 1;
    }
    j
}

/// Computes `numeric_end`.
fn numeric_end_at(s: &Vec<char>, i: usize) -> (r: usize)
    requires
        i <= s.len(),
    ensures
        r == numeric_end(s@, i as int),
{
    let mut j = i;
    while j < s.len() && is_numeric(s[j])
        invariant
            i <= j <= s.len(),
            numeric_end(s@, i as int) == numeric_end(s@, j as int),
        decreases s.len() - j,
    {
        j = j + 1;
    }
    j
}

/// Computes `alpha_end`.
fn alpha_end_at(s: &Vec<char>, i: usize) -> (r: usize)
    requires
        i <= s.len(),
    ensures
        r == alpha_end(s@, i as int),
{
    let mut j = i;
    while j < s.len() && is_alphabetic(s[j])
        invariant
            i <= j <= s.len(),
            alpha_end(s@, i as int) == alpha_end(s@, j as int),
        decreases s.len() - j,
    {
        j = j + 1;
    }
    j
}

/// Computes `number_end`.
fn number_end_at(s: &Vec<char>, i: usize) -> (r: usize)
    requires
        i <= s.len(),
    ensures
        r == number_end(s@, i as int),
{
    if i < s.len() && s[i] == '0' {
        if i + 1 < s.len() && '0' <= s[i + 1] && s[i + 1] <= '9' {
            i
        } else {
            i + 1
        }
    } else if i < s.len() && (('1' <= s[i] && s[i] <= '9') || s[i] == '-') {
        numeric_end_at(s, i + 1)
    } else {
        i
    }
}

/// Computes `paren_end`, counting the depth of parentheses.
fn paren_end_at(s: &Vec<char>, i: usize) -> (r: usize)
    requires
        i <= s.len(),
    ensures
        r == paren_end(s@, i as int),
{
    if i >= s.len() || s[i] != '(' {
        return i;
    }
    let mut depth: usize = 0;
    let mut j = i;
    while j < s.len()
        invariant
            i < s.len(),
            s@[i as int] == '(',
            i <= j <= s.len(),
            depth <= j - i,
            j > i ==> depth > 0,
            paren_scan(s@, i as int, 0) == paren_scan(s@, j as int, depth as int),
        decreases s.len() - j,
    {
        let c = s[j];
        if c == '(' {
            depth = depth + 1;
        } else if c == ')' {
            depth = depth - 1;
        }
        j = j + 1;
        if depth == 0 {
            return j;
        }
    }
    i
}

/// Computes `ident_end`.
fn ident_end_at(s: &Vec<char>, i: usize) -> (r: usize)
    requires
        i <= s.len(),
    ensures
        r == ident_end(s@, i as int),
{
    alpha_end_at(s, i)
}

// ---------------------------------------------------------------------------
// The same ends, on string slices.
// ---------------------------------------------------------------------------
/// Skips the white space at the start of `input`.
pub fn skip_whitespace(input: &str) -> (r: &str)
    ensures
        0 <= ws_end(input@, 0) <= input@.len(),
        r@ == input@.subrange(ws_end(input@, 0), input@.len() as int),
{
    let s = to_chars(input);
    let e = ws_end_at(&s, 0);
    proof {
        lemma_run_ends(s@, 0);
    }
    input.substring_char(e, s.len())
}

/// Skips the number at the start of `input`: a single `0` that no ASCII
/// digit follows, or one of `1` to `9` or `-` followed by numeric
/// characters; `input` itself where no number starts (so a number with a
/// leading zero is not recognised).
pub fn skip_number(input: &str) -> (r: &str)
    ensures
        0 <= number_end(input@, 0) <= input@.len(),
        r@ == input@.subrange(number_end(input@, 0), input@.len() as int),
{
    let s = to_chars(input);
    let e = number_end_at(&s, 0);
    proof {
        lemma_token_ends(s@, 0);
    }
    input.substring_char(e, s.len())
}

/// Skips the parenthesised group at the start of `input`, up to the `)` that
/// balances its first `(`; `input` itself where it does not start with `(`
/// or the group is never closed.
pub fn skip_paren(input: &str) -> (r: &str)
    ensures
        0 <= paren_end(input@, 0) <= input@.len(),
        r@ == input@.subrange(paren_end(input@, 0), input@.len() as int),
{
    let s = to_chars(input);
    let e = paren_end_at(&s, 0);
    proof {
        lemma_token_ends(s@, 0);
    }
    input.substring_char(e, s.len())
}

/// Skips the word of alphabetic characters at the start of `input`.
pub fn skip_identifier(input: &str) -> (r: &str)
    ensures
        0 <= ident_end(input@, 0) <= input@.len(),
        r@ == input@.subrange(ident_end(input@, 0), input@.len() as int),
{
    let s = to_chars(input);
    let e = ident_end_at(&s, 0);
    proof {
        lemma_token_ends(s@, 0);
    }
    input.substring_char(e, s.len())
}

} // verus!

verus! {

/// Skips the characters at the start of `s` for which `predicate` holds,
/// up to the first one for which it does not.
pub fn skip_while<'a, P: Fn(char) -> bool>(s: &'a str, predicate: P) -> (r: &'a str)
    requires
        forall|c: char| predicate.requires((c,)),
    ensures
        r@.len() <= s@.len(),
        r@ == s@.subrange(s@.len() - r@.len(), s@.len() as int),
        forall|j: int|
            0 <= j < s@.len() - r@.len() ==> predicate.ensures((#[trigger] s@[j],), true),
        r@.len() > 0 ==> predicate.ensures((s@[s@.len() - r@.len()],), false),
{
    let v = to_chars(s);
    let n = v.len();
    let mut i: usize = 0;
    while i < n
        invariant
            n == v.len(),
            v@ == s@,
            i <= n,
            forall|c: char| predicate.requires((c,)),
            forall|j: int| 0 <= j < i ==> predicate.ensures((#[trigger] s@[j],), true),
        ensures
            i <= n,
            forall|j: int| 0 <= j < i ==> predicate.ensures((#[trigger] s@[j],), true),
            i < n ==> predicate.ensures((s@[i as int],), false),
        decreases n - i,
    {
        let c = v[i];
        let keep = predicate(c);
        if !keep {
            break;
        }
        i = i + 1;
    }
    s.substring_char(i, n)
}

/// Splits `s` where `pat` stops skipping: the part that `pat` skipped and
/// the rest, or `None` where `pat` skipped nothing. `pat` gives back a suffix
/// of its argument.
pub fn split_prefix_pattern<'a, P: Fn(&'a str) -> &'a str>(s: &'a str, pat: P) -> (r: Option<
    (&'a str, &'a str),
>)
    requires
        pat.requires((s,)),
        forall|out: &'a str|
            #[trigger] pat.ensures((s,), out) ==> out@.len() <= s@.len() && out@ == s@.subrange(
                s@.len() - out@.len(),
                s@.len() as int,
            ),
    ensures
        match r {
            None => exists|out: &'a str| #[trigger] pat.ensures((s,), out) && out@ == s@,
            Some((prefix, rest)) => {
                &&& pat.ensures((s,), rest)
                &&& prefix@.len() > 0
                &&& prefix@ + rest@ == s@
            },
        },
{
    let rest = pat(s);
    let n = s.unicode_len();
    let m = rest.unicode_len();
    if m == n {
        assert(rest@ =~= s@);
        None
    } else {
        let prefix = s.substring_char(0, n - m);
        assert(prefix@ + rest@ =~= s@);
        Some((prefix, rest))
    }
}

} // verus!

verus! {

// ---------------------------------------------------------------------------
// What one step does.
// ---------------------------------------------------------------------------
/// The text that opens a program.
pub open spec fn postfix_open() -> Seq<char> {
    seq!['(', 'p', 'o', 's', 't', 'f', 'i', 'x']
}

/// The position after every copy of `(postfix` that follows from `i` on.
pub open spec fn strip_open_end(s: Seq<char>, i: int) -> int
    decreases s.len() - i,
{
    if 0 <= i && i + 8 <= s.len() && s.subrange(i, i + 8) == postfix_open() {
        strip_open_end(s, i + 8)
    } else {
        i
    }
}

/// The words of `a[i..]`, split at white space, each read as an `isize`;
/// `None` where one of them does not read as one.
pub open spec fn parse_args_from(a: Seq<char>, i: int) -> Option<Seq<isize>>
    decreases a.len() - i,
{
    let j = ws_end(a, i);
    if i < 0 || j >= a.len() {
        Some(Seq::empty())
    } else {
        let k = non_ws_end(a, j);
        proof {
            lemma_run_ends(a, i);
            lemma_run_ends(a, j + 1);
        }
        match crate::numbers::spec_parse_isize(a.subrange(j, k)) {
            None => None,
            Some(v) => match parse_args_from(a, k) {
                None => None,
                Some(vs) => Some(seq![v] + vs),
            },
        }
    }
}

/// The texts of `list` joined with `sep` between each two.
pub open spec fn seq_join(list: Seq<Seq<char>>, sep: Seq<char>) -> Seq<char>
    decreases list.len(),
{
    if list.len() == 0 {
        Seq::empty()
    } else if list.len() == 1 {
        list[0]
    } else {
        seq_join(list.drop_last(), sep) + sep + list.last()
    }
}

/// The program that takes in the arguments `argv`: `(postfix 0 `, then the
/// arguments, last first, in decimal and separated by single spaces.
pub open spec fn loaded_head(argv: Seq<isize>) -> Seq<char> {
    seq!['(', 'p', 'o', 's', 't', 'f', 'i', 'x', ' ', '0', ' '] + seq_join(
        argv.reverse().map_values(|x: isize| crate::numbers::int_text(x as int)),
        seq![' '],
    )
}

/// The spans of the commands met from `i` on, each a number or a
/// parenthesised group, with the white space between them passed over; and
/// the position where the first other character stands.
pub open spec fn scan_commands(s: Seq<char>, i: int) -> (Seq<(int, int)>, int)
    decreases s.len() - i,
{
    if i < 0 || i >= s.len() {
        (Seq::empty(), i)
    } else {
        proof {
            lemma_run_ends(s, i);
            lemma_token_ends(s, i);
        }
        let w = ws_end(s, i);
        let n = number_end(s, i);
        let p = paren_end(s, i);
        if w > i {
            scan_commands(s, w)
        } else if n > i {
            let r = scan_commands(s, n);
            (seq![(i, n)] + r.0, r.1)
        } else if p > i {
            let r = scan_commands(s, p);
            (seq![(i, p)] + r.0, r.1)
        } else {
            (Seq::empty(), i)
        }
    }
}

/// The text of a span of `s`.
pub open spec fn span_text(s: Seq<char>, p: (int, int)) -> Seq<char> {
    s.subrange(p.0, p.1)
}

/// `b op a` for an arithmetic or comparison command, where `a` is the value
/// on top and `b` the one below it; `None` where Rust's checked operation
/// fails. The comparisons `lt`, `gt` and `eq` give `1` where they hold and
/// `0` where they do not.
pub open spec fn spec_arith(op: crate::postfix::BinaryOp, b: isize, a: isize) -> Option<isize> {
    match op {
        crate::postfix::BinaryOp::Add => b.checked_add(a),
        crate::postfix::BinaryOp::Sub => b.checked_sub(a),
        crate::postfix::BinaryOp::Mul => b.checked_mul(a),
        crate::postfix::BinaryOp::Div => b.checked_div(a),
        crate::postfix::BinaryOp::Rem => b.checked_rem(a),
        crate::postfix::BinaryOp::LT => Some(if b < a { 1isize } else { 0isize }),
        crate::postfix::BinaryOp::GT => Some(if b > a { 1isize } else { 0isize }),
        crate::postfix::BinaryOp::EQ => Some(if b == a { 1isize } else { 0isize }),
    }
}

/// The text that a command taking two operands puts in place of them and
/// itself: `v1` is the operand on top, `v2` the one below it.
pub open spec fn spec_binary_op(op: crate::postfix::CommandModel, v1: Seq<char>, v2: Seq<char>) -> Option<Seq<char>> {
    match op {
        crate::postfix::CommandModel::Swap => Some(v1 + seq![' '] + v2),
        crate::postfix::CommandModel::BinaryOp(o) => match (
            crate::numbers::spec_parse_isize(v1),
            crate::numbers::spec_parse_isize(v2),
        ) {
            (Some(a), Some(b)) => match spec_arith(o, b, a) {
                Some(x) => Some(crate::numbers::int_text(x as int)),
                None => None,
            },
            _ => None,
        },
        _ => None,
    }
}

/// The start of the run of white space that ends at `j`.
pub open spec fn ws_start_back(s: Seq<char>, j: int) -> int
    decreases j,
{
    if 0 < j <= s.len() && spec_is_whitespace(s[j - 1]) {
        ws_start_back(s, j - 1)
    } else {
        j
    }
}

/// `t` without the white space at its start and at its end.
pub open spec fn spec_trim(t: Seq<char>) -> Seq<char> {
    let u = t.subrange(ws_end(t, 0), t.len() as int);
    u.subrange(0, ws_start_back(u, u.len() as int))
}

/// The text that a command taking one operand puts in place of it and
/// itself: `v` is the operand, and `texts` all the commands before the
/// command word, `v` the last of them.
pub open spec fn spec_unary_op(
    op: crate::postfix::CommandModel,
    v: Seq<char>,
    texts: Seq<Seq<char>>,
) -> Option<Seq<char>> {
    match op {
        crate::postfix::CommandModel::Pop => Some(Seq::empty()),
        crate::postfix::CommandModel::Exec => if v.len() > 0 && v[0] == '(' && v.last() == ')' {
            Some(spec_trim(v.subrange(1, v.len() - 1)))
        } else {
            None
        },
        crate::postfix::CommandModel::Nget => match crate::numbers::spec_parse_isize(v) {
            Some(k) => if 0 <= k < texts.len() {
                Some(texts[texts.len() - 1 - k])
            } else {
                None
            },
            None => None,
        },
        _ => None,
    }
}

/// `s` with `s[a..e]` replaced by `r`.
pub open spec fn splice(s: Seq<char>, a: int, e: int, r: Seq<char>) -> Seq<char> {
    s.subrange(0, a) + r + s.subrange(e, s.len() as int)
}

/// The rewriting part of a step on a program whose argument count is zero,
/// where `p2` is the position after the count.
///
/// The commands after the count are scanned; what follows them must end
/// with `)`. Where no word follows them, the program is final and is given
/// back with the arguments. Otherwise the word names the command to apply to
/// the last commands scanned, and the text from the first operand up to the
/// end of the word is replaced by what the command gives.
pub open spec fn spec_rewrite(s: Seq<char>, args: Seq<char>, p2: int) -> Option<
    (Seq<char>, Seq<char>),
> {
    let (cmds, q) = scan_commands(s, p2);
    let n = cmds.len();
    if !(q < s.len() && s.last() == ')') {
        None
    } else if ident_end(s, q) == q {
        Some((s, args))
    } else {
        let e = ident_end(s, q);
        let texts = cmds.map_values(|p: (int, int)| span_text(s, p));
        match crate::parser::command_of_word(s.subrange(q, e)) {
            Some(op) => match op {
                crate::postfix::CommandModel::Swap | crate::postfix::CommandModel::BinaryOp(_) => {
                    if n < 2 {
                        None
                    } else {
                        match spec_binary_op(op, texts[n - 1], texts[n - 2]) {
                            Some(r) => Some((splice(s, cmds[n - 2].0, e, r), Seq::empty())),
                            None => None,
                        }
                    }
                },
                crate::postfix::CommandModel::Pop | crate::postfix::CommandModel::Exec
                | crate::postfix::CommandModel::Nget => {
                    if n < 1 {
                        None
                    } else {
                        match spec_unary_op(op, texts[n - 1], texts) {
                            Some(r) => Some((splice(s, cmds[n - 1].0, e, r), Seq::empty())),
                            None => None,
                        }
                    }
                },
                crate::postfix::CommandModel::Sel => {
                    if n < 3 {
                        None
                    } else {
                        match crate::numbers::spec_parse_isize(texts[n - 3]) {
                            Some(c) => Some(
                                (
                                    splice(
                                        s,
                                        cmds[n - 3].0,
                                        e,
                                        if c == 0 {
                                            texts[n - 1]
                                        } else {
                                            texts[n - 2]
                                        },
                                    ),
                                    Seq::empty(),
                                ),
                            ),
                            None => None,
                        }
                    }
                },
                _ => None,
            },
            None => None,
        }
    }
}

/// The argument count at the head of a program `s`, and the position just
/// after it: the program starts with `(postfix` (repeated copies are passed
/// over), white space, and a number that reads as a `usize`.
pub open spec fn spec_count(s: Seq<char>) -> Option<(int, usize)> {
    let p0 = strip_open_end(s, 0);
    let p1 = ws_end(s, p0);
    let p2 = number_end(s, p1);
    if p2 == p1 {
        None
    } else {
        match crate::numbers::spec_parse_usize(s.subrange(p1, p2)) {
            None => None,
            Some(argc) => Some((p2, argc)),
        }
    }
}

/// One step of a program `s` run on the arguments `args`: the new program
/// and arguments, or `None` where the step fails.
///
/// The program must start with its argument count (see `spec_count`), and
/// the arguments must be as many numbers as the count says. Where the count
/// is not zero, the step moves the arguments into the program, last first,
/// and sets the count to zero; otherwise it rewrites the program (see
/// `spec_rewrite`).
pub open spec fn spec_step(s: Seq<char>, args: Seq<char>) -> Option<(Seq<char>, Seq<char>)> {
    match spec_count(s) {
        None => None,
        Some((p2, argc)) => match parse_args_from(args, 0) {
            None => None,
            Some(argv) => if argv.len() != argc {
                None
            } else if argc > 0 {
                Some((loaded_head(argv) + s.subrange(p2, s.len() as int), Seq::empty()))
            } else {
                spec_rewrite(s, args, p2)
            },
        },
    }
}

/// Whether `b op a` leaves the range of `isize` for an operation that the
/// rewriter computes without a check (`add`, `sub` and `mul`), where `v1` reads as `a` and `v2` as `b`.
pub open spec fn spec_arith_overflows(
    op: crate::postfix::BinaryOp,
    v1: Seq<char>,
    v2: Seq<char>,
) -> bool {
    match (crate::numbers::spec_parse_isize(v1), crate::numbers::spec_parse_isize(v2)) {
        (Some(a), Some(b)) => match op {
            crate::postfix::BinaryOp::Add => !(isize::MIN <= b + a <= isize::MAX),
            crate::postfix::BinaryOp::Sub => !(isize::MIN <= b - a <= isize::MAX),
            crate::postfix::BinaryOp::Mul => !(isize::MIN <= b * a <= isize::MAX),
            _ => false,
        },
        _ => false,
    }
}

/// Whether the rewriting part of a step on `s` (see `spec_rewrite`) reaches
/// an arithmetic overflow: an `add`, `sub` or `mul` whose result
/// leaves the range of `isize`, or an `nget` whose index is `isize::MAX`, so
/// that adding one to it overflows.
pub open spec fn spec_rewrite_overflows(s: Seq<char>, p2: int) -> bool {
    let (cmds, q) = scan_commands(s, p2);
    let n = cmds.len();
    let e = ident_end(s, q);
    let texts = cmds.map_values(|p: (int, int)| span_text(s, p));
    if !(q < s.len() && s.last() == ')') || e == q {
        false
    } else {
        match crate::parser::command_of_word(s.subrange(q, e)) {
            Some(crate::postfix::CommandModel::BinaryOp(o)) => n >= 2 && spec_arith_overflows(
                o,
                texts[n - 1],
                texts[n - 2],
            ),
            Some(crate::postfix::CommandModel::Nget) => n >= 1 && crate::numbers::spec_parse_isize(
                texts[n - 1],
            ) == Some(isize::MAX),
            _ => false,
        }
    }
}

/// Whether a step of `s` on `args` reaches an arithmetic overflow (see
/// `spec_rewrite_overflows`).
pub open spec fn spec_step_overflows(s: Seq<char>, args: Seq<char>) -> bool {
    match spec_count(s) {
        None => false,
        Some((p2, argc)) => match parse_args_from(args, 0) {
            None => false,
            Some(argv) => argv.len() == argc && argc == 0 && spec_rewrite_overflows(s, p2),
        },
    }
}

} // verus!

verus! {

// ---------------------------------------------------------------------------
// The parts of a step, computed.
// ---------------------------------------------------------------------------
/// Computes `strip_open_end`.
fn strip_open_end_at(s: &Vec<char>, i: usize) -> (r: usize)
    requires
        i <= s.len(),
    ensures
        r == strip_open_end(s@, i as int),
        i <= r <= s.len(),
{
    let open = ['(', 'p', 'o', 's', 't', 'f', 'i', 'x'];
    assert(open@ =~= postfix_open());
    let mut j = i;
    while s.len() - j >= 8 && crate::text::matches_at(s, j, j + 8, &open)
        invariant
            i <= j <= s.len(),
            open@ == postfix_open(),
            strip_open_end(s@, i as int) == strip_open_end(s@, j as int),
        decreases s.len() - j,
    {
        j = j + 8;
    }
    j
}

/// Splits `args` at white space and reads each word as an `isize`.
fn parse_args(args: &str) -> (r: Option<Vec<isize>>)
    ensures
        match r {
            Some(v) => parse_args_from(args@, 0) == Some(v@),
            None => parse_args_from(args@, 0) is None,
        },
{
    let a = to_chars(args);
    let n = a.len();
    let mut argv: Vec<isize> = Vec::new();
    let mut i: usize = 0;
    loop
        invariant
            n == a.len(),
            a@ == args@,
            i <= n,
            parse_args_from(a@, 0) == match parse_args_from(a@, i as int) {
                Some(vs) => Some(argv@ + vs),
                None => None::<Seq<isize>>,
            },
        decreases n - i,
    {
        let j = ws_end_at(&a, i);
        proof {
            lemma_run_ends(a@, i as int);
        }
        if j >= n {
            assert(argv@ + Seq::<isize>::empty() =~= argv@);
            return Some(argv);
        }
        let k = non_ws_end_at(&a, j);
        proof {
            lemma_run_ends(a@, j as int);
            lemma_run_ends(a@, j + 1);
        }
        match crate::numbers::parse_isize(&a, j, k) {
            None => {
                return None;
            },
            Some(v) => {
                let ghost before = argv@;
                argv.push(v);
                proof {
                    match parse_args_from(a@, k as int) {
                        Some(vs) => {
                            assert(before + (seq![v] + vs) =~= argv@ + vs);
                        },
                        None => {},
                    }
                }
                i = k;
            },
        }
    }
}

/// Writes the program that takes in the arguments `argv`, followed by
/// `input[p2..]`.
fn load_program(argv: &Vec<isize>, input: &str, p2: usize) -> (r: String)
    requires
        p2 <= input@.len(),
    ensures
        r@ == loaded_head(argv@) + input@.subrange(p2 as int, input@.len() as int),
{
    let ghost texts = argv@.reverse().map_values(|x: isize| crate::numbers::int_text(x as int));
    let mut out = String::new();
    proof {
        reveal_strlit("(postfix 0 ");
        reveal_strlit(" ");
    }
    out.append("(postfix 0 ");
    let ghost head = out@;
    assert(head =~= seq!['(', 'p', 'o', 's', 't', 'f', 'i', 'x', ' ', '0', ' ']);
    let n = argv.len();
    let mut j: usize = 0;
    while j < n
        invariant
            n == argv.len(),
            j <= n,
            texts == argv@.reverse().map_values(|x: isize| crate::numbers::int_text(x as int)),
            texts.len() == n,
            out@ == head + seq_join(texts.take(j as int), seq![' ']),
        decreases n - j,
    {
        proof {
            reveal_strlit(" ");
        }
        if j > 0 {
            out.append(" ");
        }
        crate::numbers::append_isize(&mut out, argv[n - 1 - j]);
        proof {
            let t = crate::numbers::int_text(argv@[n - 1 - j] as int);
            if j > 0 {
                assert(out@ =~= head + (seq_join(texts.take(j as int), seq![' ']) + seq![' '] + t));
            } else {
                assert(out@ =~= head + t);
            }
            assert(texts[j as int] == crate::numbers::int_text(argv@[n - 1 - j] as int));
            assert(texts.take(j + 1).drop_last() =~= texts.take(j as int));
            if j == 0 {
                assert(texts.take(1) =~= seq![texts[0]]);
            }
        }
        j = j + 1;
    }
    assert(texts.take(n as int) =~= texts);
    out.append(input.substring_char(p2, input.unicode_len()));
    out
}

} // verus!

verus! {

/// The spans of a vector, as integer pairs.
pub open spec fn spans_model(v: Seq<(usize, usize)>) -> Seq<(int, int)> {
    v.map_values(|p: (usize, usize)| (p.0 as int, p.1 as int))
}

/// Each span that a scan meets is non-empty and lies between where the scan
/// starts and where it stops, and it stops within the text.
pub proof fn lemma_scan_commands(s: Seq<char>, i: int)
    requires
        0 <= i <= s.len(),
    ensures
        i <= scan_commands(s, i).1 <= s.len(),
        forall|k: int|
            0 <= k < scan_commands(s, i).0.len() ==> i <= (#[trigger] scan_commands(s, i).0[k]).0
                < scan_commands(s, i).0[k].1 <= scan_commands(s, i).1,
    decreases s.len() - i,
{
    if i < s.len() {
        lemma_run_ends(s, i);
        lemma_token_ends(s, i);
        let w = ws_end(s, i);
        let n = number_end(s, i);
        let p = paren_end(s, i);
        if w > i {
            lemma_scan_commands(s, w);
        } else if n > i {
            lemma_scan_commands(s, n);
            let r = scan_commands(s, n);
            assert forall|k: int| 0 <= k < scan_commands(s, i).0.len() implies i <= (
            #[trigger] scan_commands(s, i).0[k]).0 < scan_commands(s, i).0[k].1
                <= scan_commands(s, i).1 by {
                if k > 0 {
                    assert(scan_commands(s, i).0[k] == r.0[k - 1]);
                }
            }
        } else if p > i {
            lemma_scan_commands(s, p);
            let r = scan_commands(s, p);
            assert forall|k: int| 0 <= k < scan_commands(s, i).0.len() implies i <= (
            #[trigger] scan_commands(s, i).0[k]).0 < scan_commands(s, i).0[k].1
                <= scan_commands(s, i).1 by {
                if k > 0 {
                    assert(scan_commands(s, i).0[k] == r.0[k - 1]);
                }
            }
        }
    }
}

/// Computes `scan_commands`.
fn scan_commands_at(s: &Vec<char>, start: usize) -> (r: (Vec<(usize, usize)>, usize))
    requires
        start <= s.len(),
    ensures
        spans_model(r.0@) == scan_commands(s@, start as int).0,
        r.1 == scan_commands(s@, start as int).1,
{
    let mut cmds: Vec<(usize, usize)> = Vec::new();
    let mut i = start;
    let n = s.len();
    loop
        invariant
            n == s.len(),
            start <= i <= n,
            scan_commands(s@, start as int) == (
                spans_model(cmds@) + scan_commands(s@, i as int).0,
                scan_commands(s@, i as int).1,
            ),
        decreases n - i,
    {
        proof {
            lemma_run_ends(s@, i as int);
            lemma_token_ends(s@, i as int);
        }
        let ghost before = cmds@;
        if i >= n {
            assert(spans_model(cmds@) + Seq::<(int, int)>::empty() =~= spans_model(cmds@));
            return (cmds, i);
        }
        let w = ws_end_at(s, i);
        if w > i {
            i = w;
        } else {
            let e = number_end_at(s, i);
            if e > i {
                cmds.push((i, e));
                proof {
                    let r = scan_commands(s@, e as int);
                    assert(spans_model(before) + (seq![(i as int, e as int)] + r.0) =~= spans_model(
                        cmds@,
                    ) + r.0);
                }
                i = e;
            } else {
                let p = paren_end_at(s, i);
                if p > i {
                    cmds.push((i, p));
                    proof {
                        let r = scan_commands(s@, p as int);
                        assert(spans_model(before) + (seq![(i as int, p as int)] + r.0)
                            =~= spans_model(cmds@) + r.0);
                    }
                    i = p;
                } else {
                    assert(spans_model(cmds@) + Seq::<(int, int)>::empty() =~= spans_model(
                        cmds@,
                    ));
                    return (cmds, i);
                }
            }
        }
    }
}

} // verus!

verus! {

/// A step that could not be taken.
#[derive(Clone, Copy, Debug, PartialEq, Eq, Structural)]
pub struct PostfixError {}

impl PostfixError {
    /// The message that describes this error, ending with a line break.
    pub fn message(&self) -> (r: &'static str)
        ensures
            r@ == "error occured!\n"@,
    {
        "error occured!\n"
    }
}

/// The characters of `t`, read as `str::parse::<isize>` does.
fn parse_isize_str(t: &str) -> (r: Option<isize>)
    ensures
        r == crate::numbers::spec_parse_isize(t@),
{
    let c = to_chars(t);
    assert(c@.subrange(0, c.len() as int) =~= t@);
    crate::numbers::parse_isize(&c, 0, c.len())
}

/// `t` without the white space at its start and at its end.
pub fn trim(t: &str) -> (r: &str)
    ensures
        r@ == spec_trim(t@),
{
    let c = to_chars(t);
    let lo = ws_end_at(&c, 0);
    proof {
        lemma_run_ends(c@, 0);
    }
    let u = t.substring_char(lo, c.len());
    let cu = to_chars(u);
    let mut hi = cu.len();
    while hi > 0 && is_whitespace(cu[hi - 1])
        invariant
            hi <= cu.len(),
            ws_start_back(cu@, cu@.len() as int) == ws_start_back(cu@, hi as int),
        decreases hi,
    {
        hi = hi - 1;
    }
    u.substring_char(0, hi)
}

/// What a command taking two operands puts in place of them and itself:
/// `v1` is the operand on top, `v2` the one below it.
fn binary_op(op: &crate::postfix::Command, v1: &str, v2: &str) -> (r: Result<String, PostfixError>)
    ensures
        match r {
            Ok(t) => spec_binary_op(op.model(), v1@, v2@) == Some(t@),
            Err(_) => spec_binary_op(op.model(), v1@, v2@) is None,
        },
{
    match op {
        crate::postfix::Command::Swap => {
            proof {
                reveal_strlit(" ");
            }
            let mut out = String::from_str(v1);
            out.append(" ");
            out.append(v2);
            Ok(out)
        },
        crate::postfix::Command::BinaryOp(o) => {
            let a = match parse_isize_str(v1) {
                Some(a) => a,
                None => {
                    return Err(PostfixError {});
                },
            };
            let b = match parse_isize_str(v2) {
                Some(b) => b,
                None => {
                    return Err(PostfixError {});
                },
            };
            let x = match o {
                crate::postfix::BinaryOp::Add => b.checked_add(a),
                crate::postfix::BinaryOp::Sub => b.checked_sub(a),
                crate::postfix::BinaryOp::Mul => b.checked_mul(a),
                crate::postfix::BinaryOp::Div => b.checked_div(a),
                crate::postfix::BinaryOp::Rem => b.checked_rem(a),
                crate::postfix::BinaryOp::LT => Some(if b < a { 1isize } else { 0isize }),
                crate::postfix::BinaryOp::GT => Some(if b > a { 1isize } else { 0isize }),
                crate::postfix::BinaryOp::EQ => Some(if b == a { 1isize } else { 0isize }),
            };
            match x {
                Some(x) => {
                    let mut out = String::new();
                    crate::numbers::append_isize(&mut out, x);
                    assert(out@ =~= crate::numbers::int_text(x as int));
                    Ok(out)
                },
                None => Err(PostfixError {}),
            }
        },
        _ => Err(PostfixError {}),
    }
}

/// The texts of a sequence of string slices.
pub open spec fn texts_model(v: Seq<&str>) -> Seq<Seq<char>> {
    v.map_values(|t: &str| t@)
}

/// What a command taking one operand puts in place of it and itself: `v`
/// is the operand, and `commands` all the commands before the command word.
fn unary_op(op: &crate::postfix::Command, v: &str, commands: &Vec<&str>) -> (r: Result<
    String,
    PostfixError,
>)
    ensures
        match r {
            Ok(t) => spec_unary_op(op.model(), v@, texts_model(commands@)) == Some(t@),
            Err(_) => spec_unary_op(op.model(), v@, texts_model(commands@)) is None,
        },
{
    match op {
        crate::postfix::Command::Pop => Ok(String::new()),
        crate::postfix::Command::Exec => {
            let c = to_chars(v);
            let n = c.len();
            if n > 0 && c[0] == '(' && c[n - 1] == ')' {
                let inner = v.substring_char(1, n - 1);
                Ok(String::from_str(trim(inner)))
            } else {
                Err(PostfixError {})
            }
        },
        crate::postfix::Command::Nget => {
            let index = match parse_isize_str(v) {
                Some(k) => k,
                None => {
                    return Err(PostfixError {});
                },
            };
            let m = commands.len();
            if index >= 0 && (index as usize) < m {
                let k = m - 1 - index as usize;
                Ok(String::from_str(commands[k]))
            } else {
                Err(PostfixError {})
            }
        },
        _ => Err(PostfixError {}),
    }
}

/// `input` with `input[a..e]` replaced by `r`.
fn splice_string(input: &str, a: usize, e: usize, r: &str) -> (out: String)
    requires
        a <= e <= input@.len(),
    ensures
        out@ == splice(input@, a as int, e as int, r@),
{
    let mut out = String::from_str(input.substring_char(0, a));
    out.append(r);
    out.append(input.substring_char(e, input.unicode_len()));
    out
}

} // verus!

verus! {

/// Where a rewrite applies in a program: the spans of the commands after
/// the count and their texts, the position `q` where the first other
/// character stands, and the end `e` of the word that starts there.
struct Site<'a> {
    cmds: Vec<(usize, usize)>,
    texts: Vec<&'a str>,
    q: usize,
    e: usize,
}

/// Scans the commands of `input` from `p2` on: `None` where what follows
/// them does not end with `)`.
fn locate<'a>(input: &'a str, s: &Vec<char>, p2: usize) -> (r: Option<Site<'a>>)
    requires
        s@ == input@,
        p2 <= s.len(),
    ensures
        ({
            let (cmds, q) = scan_commands(s@, p2 as int);
            &&& r is None <==> !(q < s@.len() && s@.last() == ')')
            &&& r matches Some(site) ==> {
                &&& site.q == q
                &&& site.e == ident_end(s@, q)
                &&& q <= site.e <= s@.len()
                &&& spans_model(site.cmds@) == cmds
                &&& texts_model(site.texts@) == cmds.map_values(
                    |p: (int, int)| span_text(s@, p),
                )
                &&& forall|k: int| 0 <= k < cmds.len() ==> (#[trigger] cmds[k]).0 < cmds[k].1 <= q
            }
        }),
{
    let n = s.len();
    let (cmds, q) = scan_commands_at(s, p2);
    proof {
        lemma_scan_commands(s@, p2 as int);
    }
    let ghost spans = scan_commands(s@, p2 as int).0;
    if !(q < n && s[n - 1] == ')') {
        return None;
    }
    let e = ident_end_at(s, q);
    proof {
        lemma_token_ends(s@, q as int);
    }
    let m = cmds.len();
    let ghost stexts = spans.map_values(|p: (int, int)| span_text(s@, p));
    let mut texts: Vec<&'a str> = Vec::new();
    let mut k: usize = 0;
    while k < m
        invariant
            m == cmds.len(),
            k <= m,
            n == s.len(),
            s@ == input@,
            spans == spans_model(cmds@),
            stexts == spans.map_values(|p: (int, int)| span_text(s@, p)),
            forall|j: int|
                0 <= j < spans.len() ==> (#[trigger] spans[j]).0 < spans[j].1 <= q,
            q < n,
            texts@.len() == k,
            forall|j: int| 0 <= j < k ==> (#[trigger] texts@[j])@ == stexts[j],
        decreases m - k,
    {
        assert(spans[k as int] == (cmds@[k as int].0 as int, cmds@[k as int].1 as int));
        texts.push(input.substring_char(cmds[k].0, cmds[k].1));
        k = k + 1;
    }
    assert(texts_model(texts@) =~= stexts);
    Some(Site { cmds, texts, q, e })
}

/// The rewriting part of a step on a program whose argument count is zero;
/// `p2` is the position after the count.
fn rewrite(input: &str, s: &Vec<char>, args: &str, p2: usize) -> (r: Result<
    (String, String),
    PostfixError,
>)
    requires
        s@ == input@,
        p2 <= s.len(),
    ensures
        match r {
            Ok((p, a)) => spec_rewrite(input@, args@, p2 as int) == Some((p@, a@)),
            Err(_) => spec_rewrite(input@, args@, p2 as int) is None,
        },
{
    let site = match locate(input, s, p2) {
        None => {
            return Err(PostfixError {});
        },
        Some(site) => site,
    };
    let ghost spans = scan_commands(s@, p2 as int).0;
    let e = site.e;
    if e == site.q {
        return Ok((String::from_str(input), String::from_str(args)));
    }
    let cmds = &site.cmds;
    let texts = &site.texts;
    let m = cmds.len();
    assert(texts_model(texts@).len() == m);
    match crate::parser::command_at(s, site.q, e) {
        None => Err(PostfixError {}),
        Some(op) => {
            match op {
                crate::postfix::Command::Swap | crate::postfix::Command::BinaryOp(_) => {
                    if m < 2 {
                        return Err(PostfixError {});
                    }
                    assert(texts_model(texts@)[m - 1] == texts@[m - 1]@);
                    assert(texts_model(texts@)[m - 2] == texts@[m - 2]@);
                    let t = binary_op(&op, texts[m - 1], texts[m - 2])?;
                    assert(spans[m - 2] == (cmds@[m - 2].0 as int, cmds@[m - 2].1 as int));
                    Ok((splice_string(input, cmds[m - 2].0, e, t.as_str()), String::new()))
                },
                crate::postfix::Command::Pop | crate::postfix::Command::Exec
                | crate::postfix::Command::Nget => {
                    if m < 1 {
                        return Err(PostfixError {});
                    }
                    assert(texts_model(texts@)[m - 1] == texts@[m - 1]@);
                    let t = unary_op(&op, texts[m - 1], texts)?;
                    assert(spans[m - 1] == (cmds@[m - 1].0 as int, cmds@[m - 1].1 as int));
                    Ok((splice_string(input, cmds[m - 1].0, e, t.as_str()), String::new()))
                },
                crate::postfix::Command::Sel => {
                    if m < 3 {
                        return Err(PostfixError {});
                    }
                    assert(texts_model(texts@)[m - 1] == texts@[m - 1]@);
                    assert(texts_model(texts@)[m - 2] == texts@[m - 2]@);
                    assert(texts_model(texts@)[m - 3] == texts@[m - 3]@);
                    let v3 = match parse_isize_str(texts[m - 3]) {
                        Some(v) => v,
                        None => {
                            return Err(PostfixError {});
                        },
                    };
                    let chosen = if v3 == 0 {
                        texts[m - 1]
                    } else {
                        texts[m - 2]
                    };
                    assert(spans[m - 3] == (cmds@[m - 3].0 as int, cmds@[m - 3].1 as int));
                    Ok((splice_string(input, cmds[m - 3].0, e, chosen), String::new()))
                },
                _ => Err(PostfixError {}),
            }
        },
    }
}

/// Reads the argument count at the head of a program (see `spec_count`).
fn read_count(s: &Vec<char>) -> (r: Option<(usize, usize)>)
    ensures
        match r {
            Some((p2, argc)) => spec_count(s@) == Some((p2 as int, argc)) && p2 <= s.len(),
            None => spec_count(s@) is None,
        },
{
    let p0 = strip_open_end_at(s, 0);
    let p1 = ws_end_at(s, p0);
    proof {
        lemma_run_ends(s@, p0 as int);
        lemma_token_ends(s@, p1 as int);
    }
    let p2 = number_end_at(s, p1);
    if p2 == p1 {
        return None;
    }
    match crate::numbers::parse_usize(s, p1, p2) {
        Some(argc) => Some((p2, argc)),
        None => None,
    }
}

/// Takes one step of the program `input` run on the arguments `args`: the
/// new program and arguments (see `spec_step`). A step that would overflow
/// (see `spec_step_overflows`) is not taken; `step_checked` tells it apart.
pub fn step(input: &str, args: &str) -> (r: Result<(String, String), PostfixError>)
    requires
        !spec_step_overflows(input@, args@),
    ensures
        match r {
            Ok((p, a)) => spec_step(input@, args@) == Some((p@, a@)),
            Err(_) => spec_step(input@, args@) is None,
        },
{
    let s = to_chars(input);
    let (p2, argc) = match read_count(&s) {
        Some(c) => c,
        None => {
            return Err(PostfixError {});
        },
    };
    let argv = match parse_args(args) {
        Some(v) => v,
        None => {
            return Err(PostfixError {});
        },
    };
    if argv.len() != argc {
        return Err(PostfixError {});
    }
    if argc > 0 {
        return Ok((load_program(&argv, input, p2), String::new()));
    }
    rewrite(input, &s, args, p2)
}

/// Whether `b op a` leaves the range of `isize` for `add`, `sub` or `mul`,
/// where `v1` reads as `a` and `v2` as `b`.
fn arith_overflows(op: crate::postfix::BinaryOp, v1: &str, v2: &str) -> (r: bool)
    ensures
        r == spec_arith_overflows(op, v1@, v2@),
{
    let a = match parse_isize_str(v1) {
        Some(a) => a,
        None => {
            return false;
        },
    };
    let b = match parse_isize_str(v2) {
        Some(b) => b,
        None => {
            return false;
        },
    };
    match op {
        crate::postfix::BinaryOp::Add => b.checked_add(a).is_none(),
        crate::postfix::BinaryOp::Sub => b.checked_sub(a).is_none(),
        crate::postfix::BinaryOp::Mul => b.checked_mul(a).is_none(),
        _ => false,
    }
}

/// Whether the rewriting part of a step on `input` reaches an arithmetic
/// overflow (see `spec_rewrite_overflows`).
fn rewrite_overflows(input: &str, s: &Vec<char>, p2: usize) -> (r: bool)
    requires
        s@ == input@,
        p2 <= s.len(),
    ensures
        r == spec_rewrite_overflows(input@, p2 as int),
{
    let site = match locate(input, s, p2) {
        None => {
            return false;
        },
        Some(site) => site,
    };
    if site.e == site.q {
        return false;
    }
    let texts = &site.texts;
    let m = texts.len();
    assert(texts_model(texts@).len() == m);
    match crate::parser::command_at(s, site.q, site.e) {
        Some(crate::postfix::Command::BinaryOp(o)) => {
            if m < 2 {
                return false;
            }
            assert(texts_model(texts@)[m - 1] == texts@[m - 1]@);
            assert(texts_model(texts@)[m - 2] == texts@[m - 2]@);
            arith_overflows(o, texts[m - 1], texts[m - 2])
        },
        Some(crate::postfix::Command::Nget) => {
            if m < 1 {
                return false;
            }
            assert(texts_model(texts@)[m - 1] == texts@[m - 1]@);
            match parse_isize_str(texts[m - 1]) {
                Some(k) => k == isize::MAX,
                None => false,
            }
        },
        _ => false,
    }
}

/// Whether a step of `input` on `args` reaches an arithmetic overflow (see
/// `spec_step_overflows`).
pub fn step_overflows(input: &str, args: &str) -> (r: bool)
    ensures
        r == spec_step_overflows(input@, args@),
{
    let s = to_chars(input);
    let (p2, argc) = match read_count(&s) {
        Some(c) => c,
        None => {
            return false;
        },
    };
    let argv = match parse_args(args) {
        Some(v) => v,
        None => {
            return false;
        },
    };
    argv.len() == argc && argc == 0 && rewrite_overflows(input, &s, p2)
}

/// Takes one step as `step` does, where it does not overflow: `None` where
/// it would (see `spec_step_overflows`), else `Some` of what `step` gives.
pub fn step_checked(input: &str, args: &str) -> (r: Option<Result<(String, String), PostfixError>>)
    ensures
        r is None <==> spec_step_overflows(input@, args@),
        r matches Some(res) ==> match res {
            Ok((p, a)) => spec_step(input@, args@) == Some((p@, a@)),
            Err(_) => spec_step(input@, args@) is None,
        },
{
    if step_overflows(input, args) {
        None
    } else {
        Some(step(input, args))
    }
}

} // verus!

verus! {

// ---------------------------------------------------------------------------
// Laws of stepping.
// ---------------------------------------------------------------------------
/// A program that has taken in its arguments has the count zero and is
/// rewritten by the next step: for every list of arguments and every rest
/// of the program, stepping `loaded_head(argv) + tail` with no arguments is
/// the rewriting part of a step, from just after the count.
pub proof fn lemma_loaded_program_is_rewritten(argv: Seq<isize>, tail: Seq<char>)
    ensures
        spec_step(loaded_head(argv) + tail, Seq::empty()) == spec_rewrite(
            loaded_head(argv) + tail,
            Seq::empty(),
            10,
        ),
{
    lemma_loaded_count(argv, tail);
    assert(parse_args_from(Seq::<char>::empty(), 0) == Some(Seq::<isize>::empty()));
}

/// The count of a program that has taken in its arguments is zero, and
/// ends at position 10.
pub(crate) proof fn lemma_loaded_count(argv: Seq<isize>, tail: Seq<char>)
    ensures
        spec_count(loaded_head(argv) + tail) == Some((10int, 0usize)),
{
    let p = loaded_head(argv) + tail;
    let head = seq!['(', 'p', 'o', 's', 't', 'f', 'i', 'x', ' ', '0', ' '];
    assert(p.subrange(0, 11) =~= head);
    assert(p[8] == ' ' && p[9] == '0' && p[10] == ' ');
    assert(p.subrange(0, 8) =~= postfix_open());
    assert(strip_open_end(p, 8) == 8);
    assert(strip_open_end(p, 0) == 8);
    assert(ws_end(p, 9) == 9);
    assert(ws_end(p, 8) == 9);
    assert(number_end(p, 9) == 10);
    let count = p.subrange(9, 10);
    assert(count =~= seq!['0']);
    assert(crate::numbers::digits_value(count.drop_last()) == 0);
    assert(crate::numbers::spec_parse_usize(count) == Some(0usize));
}

} // verus!

verus! {

/// Each span that a scan meets starts at a character that is not white
/// space.
proof fn lemma_scan_starts(s: Seq<char>, i: int)
    requires
        0 <= i <= s.len(),
    ensures
        forall|k: int|
            0 <= k < scan_commands(s, i).0.len() ==> !spec_is_whitespace(
                s[(#[trigger] scan_commands(s, i).0[k]).0],
            ),
    decreases s.len() - i,
{
    if i < s.len() {
        lemma_run_ends(s, i);
        lemma_token_ends(s, i);
        let w = ws_end(s, i);
        let n = number_end(s, i);
        let p = paren_end(s, i);
        if w > i {
            lemma_scan_starts(s, w);
            assert(scan_commands(s, i) == scan_commands(s, w));
        } else if n > i || p > i {
            let nxt = if n > i { n } else { p };
            lemma_scan_starts(s, nxt);
            let r = scan_commands(s, nxt);
            assert(!spec_is_whitespace(s[i]));
            assert(scan_commands(s, i).0 == seq![(i, nxt)] + r.0);
            assert forall|k: int| 0 <= k < scan_commands(s, i).0.len() implies !spec_is_whitespace(
                s[(#[trigger] scan_commands(s, i).0[k]).0],
            ) by {
                if k > 0 {
                    assert(scan_commands(s, i).0[k] == r.0[k - 1]);
                }
            }
        }
    }
}

/// Where `p` agrees with `s` up to position `m`, a run of white space in `s`
/// that stops at or before `m` is the same run in `p`.
proof fn lemma_ws_end_frame(s: Seq<char>, p: Seq<char>, i: int, m: int)
    requires
        0 <= i,
        m < s.len(),
        m < p.len(),
        forall|j: int| 0 <= j <= m ==> p[j] == s[j],
        ws_end(s, i) <= m,
    ensures
        ws_end(p, i) == ws_end(s, i),
    decreases s.len() - i,
{
    if i <= m {
        assert(p[i] == s[i]);
    }
    if i < s.len() && spec_is_whitespace(s[i]) {
        lemma_run_ends(s, i + 1);
        lemma_ws_end_frame(s, p, i + 1, m);
    }
}

/// Where `p` agrees with `s` up to position `m`, a run of numeric
/// characters in `s` that stops at or before `m` is the same run in `p`.
proof fn lemma_numeric_end_frame(s: Seq<char>, p: Seq<char>, i: int, m: int)
    requires
        0 <= i,
        m < s.len(),
        m < p.len(),
        forall|j: int| 0 <= j <= m ==> p[j] == s[j],
        numeric_end(s, i) <= m,
    ensures
        numeric_end(p, i) == numeric_end(s, i),
    decreases s.len() - i,
{
    if i <= m {
        assert(p[i] == s[i]);
    }
    if i < s.len() && spec_is_numeric(s[i]) {
        lemma_run_ends(s, i + 1);
        lemma_numeric_end_frame(s, p, i + 1, m);
    }
}

/// `strip_open_end` never goes back.
proof fn lemma_strip_open_end_grows(s: Seq<char>, i: int)
    requires
        0 <= i,
    ensures
        i <= strip_open_end(s, i),
    decreases s.len() - i,
{
    if i + 8 <= s.len() && s.subrange(i, i + 8) == postfix_open() {
        lemma_strip_open_end_grows(s, i + 8);
    }
}

/// Where `p` agrees with `s` up to position `m`, the copies of `(postfix`
/// passed over in `s` are passed over in `p`, provided the character where
/// `s` stops is within the agreement and is not `(`.
proof fn lemma_strip_open_end_frame(s: Seq<char>, p: Seq<char>, i: int, m: int)
    requires
        0 <= i,
        m < s.len(),
        m < p.len(),
        forall|j: int| 0 <= j <= m ==> p[j] == s[j],
        strip_open_end(s, i) <= m,
        s[strip_open_end(s, i)] != '(',
    ensures
        strip_open_end(p, i) == strip_open_end(s, i),
    decreases s.len() - i,
{
    if i + 8 <= s.len() && s.subrange(i, i + 8) == postfix_open() {
        lemma_strip_open_end_grows(s, i + 8);
        assert(p.subrange(i, i + 8) =~= s.subrange(i, i + 8));
        lemma_strip_open_end_frame(s, p, i + 8, m);
    } else {
        assert(s[i] != '(');
        if i + 8 <= p.len() {
            assert(p.subrange(i, i + 8)[0] != postfix_open()[0]);
        }
    }
}

/// Where `p` agrees with `s` up to the position just after the count of
/// `s`, and white space stands there, `p` has the same count as `s`.
proof fn lemma_count_frame(s: Seq<char>, p: Seq<char>, p2: int, argc: usize)
    requires
        spec_count(s) == Some((p2, argc)),
        p2 < s.len(),
        p2 < p.len(),
        spec_is_whitespace(s[p2]),
        forall|j: int| 0 <= j <= p2 ==> p[j] == s[j],
    ensures
        spec_count(p) == Some((p2, argc)),
{
    let p0 = strip_open_end(s, 0);
    let p1 = ws_end(s, p0);
    lemma_strip_open_end_grows(s, 0);
    if p0 <= s.len() {
        lemma_run_ends(s, p0);
    }
    lemma_token_ends(s, p1);
    assert(p1 < p2);
    if p0 < p1 {
        assert(spec_is_whitespace(s[p0]));
    }
    lemma_strip_open_end_frame(s, p, 0, p2);
    lemma_ws_end_frame(s, p, p0, p2);
    if s[p1] != '0' {
        lemma_numeric_end_frame(s, p, p1 + 1, p2);
    }
    assert(p.subrange(p1, p2) =~= s.subrange(p1, p2));
}

/// Once a program's count is zero and white space follows it, every
/// successful step keeps it so: the rewriting part of a step leaves the head
/// of the program, up to and including that white space, as it was, so the
/// next step rewrites again.
pub proof fn lemma_rewrite_keeps_count(s: Seq<char>, args: Seq<char>, p2: int)
    requires
        spec_count(s) == Some((p2, 0usize)),
        p2 < s.len(),
        spec_is_whitespace(s[p2]),
    ensures
        spec_rewrite(s, args, p2) matches Some((p, a)) ==> {
            &&& spec_count(p) == Some((p2, 0usize))
            &&& p2 < p.len()
            &&& spec_is_whitespace(p[p2])
        },
{
    let (cmds, q) = scan_commands(s, p2);
    lemma_strip_open_end_grows(s, 0);
    lemma_run_ends(s, strip_open_end(s, 0));
    lemma_token_ends(s, ws_end(s, strip_open_end(s, 0)));
    lemma_scan_commands(s, p2);
    lemma_scan_starts(s, p2);
    lemma_token_ends(s, q);
    let n = cmds.len();
    let e = ident_end(s, q);
    let texts = cmds.map_values(|p: (int, int)| span_text(s, p));
    if (q < s.len() && s.last() == ')') && e != q {
        // the first operand starts after the white space at `p2`
        let a0 = match crate::parser::command_of_word(s.subrange(q, e)) {
            Some(crate::postfix::CommandModel::Swap) | Some(
                crate::postfix::CommandModel::BinaryOp(_),
            ) => cmds[n - 2].0,
            Some(crate::postfix::CommandModel::Sel) => cmds[n - 3].0,
            _ => cmds[n - 1].0,
        };
        if let Some((p, a)) = spec_rewrite(s, args, p2) {
            assert(0 <= n - 3 ==> !spec_is_whitespace(s[cmds[n - 3].0]));
            assert(0 <= n - 2 ==> !spec_is_whitespace(s[cmds[n - 2].0]));
            assert(0 <= n - 1 ==> !spec_is_whitespace(s[cmds[n - 1].0]));
            assert(exists|r: Seq<char>| p == splice(s, a0, e, r));
            let r = choose|r: Seq<char>| p == splice(s, a0, e, r);
            assert(a0 > p2);
            assert forall|j: int| 0 <= j <= p2 implies p[j] == s[j] by {
                assert(p[j] == s.subrange(0, a0)[j]);
            }
            lemma_count_frame(s, p, p2, 0);
        }
    }
}

} // verus!

verus! {

/// Whether `c` can end the text of a command: a group ends with `)`, and a
/// number with a numeric character or `-`.
pub open spec fn ends_command(c: char) -> bool {
    c == ')' || c == '-' || spec_is_numeric(c)
}

/// A scan that starts inside a group ends just after a `)`.
pub(crate) proof fn lemma_paren_scan_close(s: Seq<char>, j: int, depth: int)
    requires
        0 <= j,
        depth > 0,
    ensures
        paren_scan(s, j, depth) matches Some(e) ==> 0 < e <= s.len() && s[e - 1] == ')',
    decreases s.len() - j,
{
    if j < s.len() {
        let d = if s[j] == '(' {
            depth + 1
        } else if s[j] == ')' {
            depth - 1
        } else {
            depth
        };
        if d != 0 {
            lemma_paren_scan_close(s, j + 1, d);
        }
    }
}

/// Each span that a scan meets ends with a character that can end a
/// command.
proof fn lemma_scan_ends(s: Seq<char>, i: int)
    requires
        0 <= i <= s.len(),
    ensures
        forall|k: int|
            0 <= k < scan_commands(s, i).0.len() ==> ends_command(
                s[(#[trigger] scan_commands(s, i).0[k]).1 - 1],
            ),
    decreases s.len() - i,
{
    if i < s.len() {
        lemma_run_ends(s, i);
        lemma_token_ends(s, i);
        let w = ws_end(s, i);
        let n = number_end(s, i);
        let p = paren_end(s, i);
        if w > i {
            lemma_scan_ends(s, w);
            assert(scan_commands(s, i) == scan_commands(s, w));
        } else if n > i || p > i {
            let nxt = if n > i { n } else { p };
            if n > i {
                if s[i] != '0' {
                    lemma_run_ends(s, i + 1);
                    if n > i + 1 {
                        assert(spec_is_numeric(s[n - 1]));
                    }
                }
            } else {
                lemma_paren_scan_close(s, i + 1, 1);
            }
            assert(ends_command(s[nxt - 1]));
            lemma_scan_ends(s, nxt);
            let r = scan_commands(s, nxt);
            assert(scan_commands(s, i).0 == seq![(i, nxt)] + r.0);
            assert forall|k: int| 0 <= k < scan_commands(s, i).0.len() implies ends_command(
                s[(#[trigger] scan_commands(s, i).0[k]).1 - 1],
            ) by {
                if k > 0 {
                    assert(scan_commands(s, i).0[k] == r.0[k - 1]);
                }
            }
        }
    }
}

/// The start of a run of white space found going back lies between the
/// start of the text and where the search began.
proof fn lemma_ws_start_back(s: Seq<char>, j: int)
    requires
        0 <= j <= s.len(),
    ensures
        0 <= ws_start_back(s, j) <= j,
    decreases j,
{
    if 0 < j && spec_is_whitespace(s[j - 1]) {
        lemma_ws_start_back(s, j - 1);
    }
}

/// Trimming never makes a text longer.
proof fn lemma_trim_len(t: Seq<char>)
    ensures
        spec_trim(t).len() <= t.len(),
{
    lemma_run_ends(t, 0);
    let u = t.subrange(ws_end(t, 0), t.len() as int);
    lemma_ws_start_back(u, u.len() as int);
}

/// Where replacing `s[a0..e]` by `r` gives `s` back, `r` is `s[a0..e]`.
proof fn lemma_splice_same(s: Seq<char>, a0: int, e: int, r: Seq<char>)
    requires
        0 <= a0 <= e <= s.len(),
        splice(s, a0, e, r) == s,
    ensures
        r == s.subrange(a0, e),
{
    let p = splice(s, a0, e, r);
    assert(r.len() == e - a0);
    assert forall|k: int| 0 <= k < r.len() implies r[k] == s.subrange(a0, e)[k] by {
        assert(p[a0 + k] == r[k]);
    }
    assert(r =~= s.subrange(a0, e));
}

/// Replacing `s[a0..e]` by a text that is shorter, or that ends with a
/// character that can end a command where `s[e - 1]` cannot, changes `s`.
proof fn lemma_splice_changes(s: Seq<char>, a0: int, e: int, r: Seq<char>)
    requires
        0 <= a0 < e <= s.len(),
        !ends_command(s[e - 1]),
        r.len() < e - a0 || (r.len() > 0 && ends_command(r.last())),
    ensures
        splice(s, a0, e, r) != s,
{
    if splice(s, a0, e, r) == s {
        lemma_splice_same(s, a0, e, r);
        assert(r.last() == s[e - 1]);
    }
}

/// What the rewriting part of a step puts in place of the text from the
/// first operand to the end of the command word, and where that text starts.
spec fn rewrite_parts(s: Seq<char>, p2: int) -> (int, Seq<char>) {
    let (cmds, q) = scan_commands(s, p2);
    let n = cmds.len();
    let e = ident_end(s, q);
    let texts = cmds.map_values(|p: (int, int)| span_text(s, p));
    let op = crate::parser::command_of_word(s.subrange(q, e))->Some_0;
    match op {
        crate::postfix::CommandModel::Swap | crate::postfix::CommandModel::BinaryOp(_) => (
            cmds[n - 2].0,
            spec_binary_op(op, texts[n - 1], texts[n - 2])->Some_0,
        ),
        crate::postfix::CommandModel::Sel => {
            let c = crate::numbers::spec_parse_isize(texts[n - 3])->Some_0;
            (cmds[n - 3].0, if c == 0 {
                texts[n - 1]
            } else {
                texts[n - 2]
            })
        },
        _ => (cmds[n - 1].0, spec_unary_op(op, texts[n - 1], texts)->Some_0),
    }
}

/// Where the rewriting part of a step applies a command, its result is
/// `rewrite_parts` spliced into the program, with no arguments.
proof fn lemma_rewrite_is_splice(s: Seq<char>, args: Seq<char>, p2: int)
    requires
        0 <= p2 <= s.len(),
        spec_rewrite(s, args, p2) is Some,
        ident_end(s, scan_commands(s, p2).1) != scan_commands(s, p2).1,
    ensures
        spec_rewrite(s, args, p2) == Some(
            (
                splice(
                    s,
                    rewrite_parts(s, p2).0,
                    ident_end(s, scan_commands(s, p2).1),
                    rewrite_parts(s, p2).1,
                ),
                Seq::<char>::empty(),
            ),
        ),
{
}

/// The text that the rewriting part of a step puts in place is shorter than
/// what it replaces, or ends with a character that can end a command.
#[verifier::rlimit(40)]
proof fn lemma_rewrite_parts_end(s: Seq<char>, args: Seq<char>, p2: int)
    requires
        0 <= p2 <= s.len(),
        spec_rewrite(s, args, p2) is Some,
        ident_end(s, scan_commands(s, p2).1) != scan_commands(s, p2).1,
    ensures
        ({
            let (cmds, q) = scan_commands(s, p2);
            let e = ident_end(s, q);
            let (a0, r) = rewrite_parts(s, p2);
            &&& 0 <= a0 < e <= s.len()
            &&& r.len() < e - a0 || (r.len() > 0 && ends_command(r.last()))
        }),
{
    let (cmds, q) = scan_commands(s, p2);
    lemma_scan_commands(s, p2);
    lemma_scan_ends(s, p2);
    lemma_token_ends(s, q);
    let n = cmds.len();
    let e = ident_end(s, q);
    let texts = cmds.map_values(|p: (int, int)| span_text(s, p));
    let op = crate::parser::command_of_word(s.subrange(q, e))->Some_0;
    let (a0, r) = rewrite_parts(s, p2);
    match op {
        crate::postfix::CommandModel::Swap => {
            assert(r == texts[n - 1] + seq![' '] + texts[n - 2]);
            assert(r.last() == s[cmds[n - 2].1 - 1]);
        },
        crate::postfix::CommandModel::BinaryOp(o) => {
            let x = spec_arith(
                o,
                crate::numbers::spec_parse_isize(texts[n - 2])->Some_0,
                crate::numbers::spec_parse_isize(texts[n - 1])->Some_0,
            )->Some_0;
            assert(r == crate::numbers::int_text(x as int));
            crate::numbers::lemma_int_text_shape(x as int);
        },
        crate::postfix::CommandModel::Exec => {
            let v = texts[n - 1];
            lemma_trim_len(v.subrange(1, v.len() - 1));
        },
        crate::postfix::CommandModel::Nget => {
            let k = crate::numbers::spec_parse_isize(texts[n - 1])->Some_0;
            let j = n - 1 - k;
            assert(r == texts[j]);
            assert(r.last() == s[cmds[j].1 - 1]);
        },
        crate::postfix::CommandModel::Sel => {
            let c = crate::numbers::spec_parse_isize(texts[n - 3])->Some_0;
            let j = if c == 0 {
                n - 1
            } else {
                n - 2
            };
            assert(r == texts[j]);
            assert(r.last() == s[cmds[j].1 - 1]);
        },
        _ => {},
    }
}

/// The rewriting part of a step either gives back the program and the
/// arguments as they were, or changes the program and leaves no arguments.
proof fn lemma_rewrite_changes(s: Seq<char>, args: Seq<char>, p2: int)
    requires
        0 <= p2 <= s.len(),
    ensures
        spec_rewrite(s, args, p2) matches Some((p, a)) ==> (p == s && a == args) || (p != s && a
            == Seq::<char>::empty()),
{
    let (cmds, q) = scan_commands(s, p2);
    lemma_scan_commands(s, p2);
    lemma_token_ends(s, q);
    let e = ident_end(s, q);
    if spec_rewrite(s, args, p2) is Some && e != q {
        let w = s.subrange(q, e);
        crate::parser::lemma_command_word_last(w);
        assert(w.last() == s[e - 1]);
        lemma_rewrite_is_splice(s, args, p2);
        lemma_rewrite_parts_end(s, args, p2);
        let (a0, r) = rewrite_parts(s, p2);
        lemma_splice_changes(s, a0, e, r);
    }
}

/// A successful step leaves arguments made of white space only. Where it
/// changes the program it leaves no arguments; where it leaves the program
/// as it was, it leaves the arguments as they were, and the program is a
/// fixed point: stepping it again gives the same program and arguments.
pub proof fn lemma_step_fixed_point(s: Seq<char>, args: Seq<char>)
    ensures
        spec_step(s, args) matches Some((p, a)) ==> {
            &&& forall|j: int| 0 <= j < a.len() ==> spec_is_whitespace(#[trigger] a[j])
            &&& p != s ==> a == Seq::<char>::empty()
            &&& p == s ==> a == args && spec_step(p, a) == Some((p, a))
        },
{
    if let Some((p2, argc)) = spec_count(s) {
        lemma_strip_open_end_grows(s, 0);
        lemma_run_ends(s, strip_open_end(s, 0));
        lemma_token_ends(s, ws_end(s, strip_open_end(s, 0)));
        if let Some(argv) = parse_args_from(args, 0) {
            if argv.len() == argc {
                if argc > 0 {
                    let tail = s.subrange(p2, s.len() as int);
                    lemma_loaded_count(argv, tail);
                } else {
                    lemma_args_all_white(args, 0);
                    lemma_rewrite_changes(s, args, p2);
                }
            }
        }
    }
}

/// Arguments that hold no number are white space only.
proof fn lemma_args_all_white(a: Seq<char>, i: int)
    requires
        0 <= i <= a.len(),
    ensures
        parse_args_from(a, i) == Some(Seq::<isize>::empty()) ==> forall|j: int|
            i <= j < a.len() ==> spec_is_whitespace(#[trigger] a[j]),
{
    lemma_run_ends(a, i);
    let j = ws_end(a, i);
    if j < a.len() {
        match parse_args_from(a, i) {
            Some(vs) => {
                assert(vs.len() > 0);
            },
            None => {},
        }
    }
}

} // verus!
