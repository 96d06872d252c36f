//! The concrete syntax of programs, as functions on the bytes of a text.
//!
//! ```text
//! program    ::= statement ( ';' statement )*
//! statement  ::= 'skip' | name ':=' aexp
//!              | 'if' bexp 'then' program 'else' program 'end'
//!              | 'while' bexp 'do' program 'end'
//! aexp       ::= '-' digits | sum
//! sum        ::= product ( '+' product )*
//! product    ::= factor ( '*' factor )*
//! factor     ::= digits | name | '(' aexp ')'
//! bexp       ::= '!' bexp | aexp '<=' aexp ( ( '&&' | '||' ) bexp )?
//! ```
//!
//! Blanks may stand around `;`, `:=`, `+`, `*`, `<=`, `&&` and `||` and
//! inside parentheses, and must stand between the words and the parts of a
//! conditional and of a loop. A name is a run of letters. Sums and products
//! group to the left, `&&` and `||` to the right, and `!` negates all that
//! follows it.

use vstd::prelude::*;
use crate::aexp::AExpView;
use crate::ast::AtomView;
use crate::bexp::BExpView;

verus! {

/// Whether the byte is a blank: a space, a tab, a line feed or a carriage
/// return.
pub open spec fn is_space(b: u8) -> bool {
    b == 32 || b == 9 || b == 10 || b == 13
}

/// Whether the byte is a letter.
pub open spec fn is_letter(b: u8) -> bool {
    (65 <= b && b <= 90) || (97 <= b && b <= 122)
}

/// Whether the byte is a decimal digit.
pub open spec fn is_digit(b: u8) -> bool {
    48 <= b && b <= 57
}

/// The number of blanks from position `i` on.
pub open spec fn spaces(s: Seq<u8>, i: int) -> nat
    decreases s.len() - i,
{
    if 0 <= i < s.len() && is_space(s[i]) {
        1 + spaces(s, i + 1)
    } else {
        0
    }
}

/// The number of letters from position `i` on.
pub open spec fn letters(s: Seq<u8>, i: int) -> nat
    decreases s.len() - i,
{
    if 0 <= i < s.len() && is_letter(s[i]) {
        1 + letters(s, i + 1)
    } else {
        0
    }
}

/// The number of digits from position `i` on.
pub open spec fn digits(s: Seq<u8>, i: int) -> nat
    decreases s.len() - i,
{
    if 0 <= i < s.len() && is_digit(s[i]) {
        1 + digits(s, i + 1)
    } else {
        0
    }
}

/// Whether the bytes `word` stand at position `i`.
#[verifier::opaque]
pub open spec fn at(s: Seq<u8>, i: int, word: Seq<u8>) -> bool {
    0 <= i && i + word.len() <= s.len() && s.subrange(i, i + word.len()) == word
}

/// The position after the word `word` at position `i`, if it stands there
/// and neither a letter nor a digit follows it.
pub open spec fn keyword(s: Seq<u8>, i: int, word: Seq<u8>) -> Option<int> {
    let j = i + word.len();
    if at(s, i, word) && !(j < s.len() && (is_letter(s[j]) || is_digit(s[j]))) {
        Some(j)
    } else {
        None
    }
}

/// The position after the operator `word` and the blanks around it, if it
/// is the next thing after the blanks at position `i`.
pub open spec fn operator(s: Seq<u8>, i: int, word: Seq<u8>) -> Option<int> {
    let j = i + spaces(s, i);
    let k = j + word.len() + spaces(s, j + word.len());
    if at(s, j, word) && k <= s.len() {
        Some(k)
    } else {
        None
    }
}

/// The position after the blanks at position `i`, if there is one at least.
pub open spec fn gap(s: Seq<u8>, i: int) -> Option<int> {
    if spaces(s, i) > 0 && i + spaces(s, i) <= s.len() {
        Some(i + spaces(s, i))
    } else {
        None
    }
}

/// The number that the `n` digits from position `i` on stand for.
pub open spec fn number(s: Seq<u8>, i: int, n: nat) -> nat
    decreases n,
{
    if n == 0 {
        0
    } else {
        (number(s, i, (n - 1) as nat) * 10 + (s[i + n - 1] - 48)) as nat
    }
}

/// The name that the `n` letters from position `i` on spell.
pub open spec fn name_at(s: Seq<u8>, i: int, n: nat) -> Seq<char> {
    Seq::new(n, |k: int| s[i + k] as char)
}

/// The result `r` of reading at position `i`, if it ends after `i` and
/// within the text: there is no empty expression, statement or program.
pub open spec fn past<T>(s: Seq<u8>, i: int, r: Option<(T, int)>) -> Option<(T, int)> {
    match r {
        Some((_, j)) => if i < j <= s.len() {
            r
        } else {
            None
        },
        None => None,
    }
}

/// The word `skip`.
pub open spec fn word_skip() -> Seq<u8> {
    seq![115u8, 107u8, 105u8, 112u8]
}

/// The word `if`.
pub open spec fn word_if() -> Seq<u8> {
    seq![105u8, 102u8]
}

/// The word `then`.
pub open spec fn word_then() -> Seq<u8> {
    seq![116u8, 104u8, 101u8, 110u8]
}

/// The word `else`.
pub open spec fn word_else() -> Seq<u8> {
    seq![101u8, 108u8, 115u8, 101u8]
}

/// The word `end`.
pub open spec fn word_end() -> Seq<u8> {
    seq![101u8, 110u8, 100u8]
}

/// The word `while`.
pub open spec fn word_while() -> Seq<u8> {
    seq![119u8, 104u8, 105u8, 108u8, 101u8]
}

/// The word `do`.
pub open spec fn word_do() -> Seq<u8> {
    seq![100u8, 111u8]
}

/// The operator `:=`.
pub open spec fn op_assign() -> Seq<u8> {
    seq![58u8, 61u8]
}

/// The operator `<=`.
pub open spec fn op_le() -> Seq<u8> {
    seq![60u8, 61u8]
}

/// The operator `&&`.
pub open spec fn op_and() -> Seq<u8> {
    seq![38u8, 38u8]
}

/// The operator `||`.
pub open spec fn op_or() -> Seq<u8> {
    seq![124u8, 124u8]
}

/// The operator `+`.
pub open spec fn op_plus() -> Seq<u8> {
    seq![43u8]
}

/// The operator `*`.
pub open spec fn op_times() -> Seq<u8> {
    seq![42u8]
}

/// The separator `;`.
pub open spec fn op_semi() -> Seq<u8> {
    seq![59u8]
}

/// The literal at position `i`: a run of digits whose number is an `i32`,
/// after a minus sign if `negative`.
pub open spec fn literal_at(s: Seq<u8>, i: int, negative: bool) -> Option<(AExpView, int)> {
    let n = digits(s, i);
    let v = number(s, i, n);
    if n == 0 {
        None
    } else if negative && v <= 0x8000_0000 {
        Some((AExpView::Num((-v) as i32), i + n))
    } else if !negative && v <= 0x7fff_ffff {
        Some((AExpView::Num(v as i32), i + n))
    } else {
        None
    }
}

/// The arithmetic expression at position `i` and the position after it: a
/// negative literal, or else a sum.
pub open spec fn aexp_at(s: Seq<u8>, i: int) -> Option<(AExpView, int)>
    decreases s.len() - i, 5int,
{
    let negative = if 0 <= i < s.len() && s[i] == 45 {
        literal_at(s, i + 1, true)
    } else {
        None
    };
    match negative {
        Some(r) => Some(r),
        None => sum_at(s, i),
    }
}

/// The sum at position `i`: one product, or several with `+` between them.
pub open spec fn sum_at(s: Seq<u8>, i: int) -> Option<(AExpView, int)>
    decreases s.len() - i, 4int,
{
    match past(s, i, product_at(s, i)) {
        Some((a, j)) => sum_rest(s, j, a),
        None => None,
    }
}

/// The sum of `acc` and the products that follow position `j`, each after
/// a `+`.
pub open spec fn sum_rest(s: Seq<u8>, j: int, acc: AExpView) -> Option<(AExpView, int)>
    decreases s.len() - j, 4int,
{
    match operator(s, j, op_plus()) {
        Some(k) => match past(s, k, product_at(s, k)) {
            Some((b, m)) => sum_rest(s, m, AExpView::Add(Box::new(acc), Box::new(b))),
            None => Some((acc, j)),
        },
        None => Some((acc, j)),
    }
}

/// The product at position `i`: one factor, or several with `*` between
/// them.
pub open spec fn product_at(s: Seq<u8>, i: int) -> Option<(AExpView, int)>
    decreases s.len() - i, 3int,
{
    match past(s, i, factor_at(s, i)) {
        Some((a, j)) => product_rest(s, j, a),
        None => None,
    }
}

/// The product of `acc` and the factors that follow position `j`, each
/// after a `*`.
pub open spec fn product_rest(s: Seq<u8>, j: int, acc: AExpView) -> Option<(AExpView, int)>
    decreases s.len() - j, 3int,
{
    match operator(s, j, op_times()) {
        Some(k) => match past(s, k, factor_at(s, k)) {
            Some((b, m)) => product_rest(s, m, AExpView::Mul(Box::new(acc), Box::new(b))),
            None => Some((acc, j)),
        },
        None => Some((acc, j)),
    }
}

/// The factor at position `i`: a literal, a name, or an arithmetic
/// expression in parentheses.
pub open spec fn factor_at(s: Seq<u8>, i: int) -> Option<(AExpView, int)>
    decreases s.len() - i, 2int,
{
    if digits(s, i) > 0 {
        literal_at(s, i, false)
    } else if letters(s, i) > 0 {
        Some((AExpView::Var(name_at(s, i, letters(s, i))), i + letters(s, i)))
    } else if 0 <= i < s.len() && s[i] == 40 && i + 1 + spaces(s, i + 1) <= s.len() {
        match aexp_at(s, i + 1 + spaces(s, i + 1)) {
            Some((a, k)) => {
                let m = k + spaces(s, k);
                if 0 <= m < s.len() && s[m] == 41 {
                    Some((a, m + 1))
                } else {
                    None
                }
            },
            None => None,
        }
    } else {
        None
    }
}

/// The comparison at position `i`: two arithmetic expressions with `<=`
/// between them.
pub open spec fn comparison_at(s: Seq<u8>, i: int) -> Option<(BExpView, int)> {
    match aexp_at(s, i) {
        Some((l, j)) => match operator(s, j, op_le()) {
            Some(k) => match aexp_at(s, k) {
                Some((r, m)) => Some((BExpView::LessEq(l, r), m)),
                None => None,
            },
            None => None,
        },
        None => None,
    }
}

/// The boolean expression at position `i`: a comparison, alone or joined
/// by `&&` or `||` to the boolean expression after it, or else the
/// negation of the boolean expression after a `!`.
#[verifier::opaque]
pub open spec fn bexp_at(s: Seq<u8>, i: int) -> Option<(BExpView, int)>
    decreases s.len() - i,
{
    match past(s, i, comparison_at(s, i)) {
        Some((c, j)) => match operator(s, j, op_and()) {
            Some(k) => match past(s, k, bexp_at(s, k)) {
                Some((d, m)) => Some((BExpView::And(Box::new(c), Box::new(d)), m)),
                None => Some((c, j)),
            },
            None => match operator(s, j, op_or()) {
                Some(k) => match past(s, k, bexp_at(s, k)) {
                    Some((d, m)) => Some((BExpView::Or(Box::new(c), Box::new(d)), m)),
                    None => Some((c, j)),
                },
                None => Some((c, j)),
            },
        },
        None => if 0 <= i < s.len() && s[i] == 33 {
            match bexp_at(s, i + 1) {
                Some((c, j)) => Some((BExpView::Neg(Box::new(c)), j)),
                None => None,
            }
        } else {
            None
        },
    }
}

/// The assignment at position `i`: a name, `:=` and an arithmetic
/// expression.
pub open spec fn assignment_at(s: Seq<u8>, i: int) -> Option<(AtomView, int)> {
    let n = letters(s, i);
    if n > 0 {
        match operator(s, i + n, op_assign()) {
            Some(k) => match aexp_at(s, k) {
                Some((a, m)) => Some((AtomView::Assign(name_at(s, i, n), a), m)),
                None => None,
            },
            None => None,
        }
    } else {
        None
    }
}

/// The position after the word `word` and the blanks before and after it,
/// of which there is one at least on each side.
pub open spec fn spaced_word(s: Seq<u8>, i: int, word: Seq<u8>) -> Option<int> {
    match gap(s, i) {
        Some(j) => match keyword(s, j, word) {
            Some(k) => gap(s, k),
            None => None,
        },
        None => None,
    }
}

/// The position after the word `end` and the blanks before it, of which
/// there is one at least.
pub open spec fn closing(s: Seq<u8>, i: int) -> Option<int> {
    match gap(s, i) {
        Some(j) => keyword(s, j, word_end()),
        None => None,
    }
}

/// The position after the word `word` at position `i` and the blanks
/// after it, of which there is one at least.
pub open spec fn opening(s: Seq<u8>, i: int, word: Seq<u8>) -> Option<int> {
    match keyword(s, i, word) {
        Some(j) => gap(s, j),
        None => None,
    }
}

/// The statement at position `i`: `skip`, or else an assignment, or else
/// a conditional, or else a loop.
pub open spec fn statement_at(s: Seq<u8>, i: int) -> Option<(AtomView, int)>
    decreases s.len() - i, 2int,
{
    match keyword(s, i, word_skip()) {
        Some(j) => Some((AtomView::Skip, j)),
        None => match assignment_at(s, i) {
            Some(r) => Some(r),
            None => match conditional_at(s, i) {
                Some(r) => Some(r),
                None => loop_at(s, i),
            },
        },
    }
}

/// The conditional at position `i`.
#[verifier::opaque]
pub open spec fn conditional_at(s: Seq<u8>, i: int) -> Option<(AtomView, int)>
    decreases s.len() - i, 1int,
{
    match opening(s, i, word_if()) {
        Some(i1) => match past(s, i1, bexp_at(s, i1)) {
            Some((b, i2)) => match spaced_word(s, i2, word_then()) {
                Some(i3) => match past(s, i3, program_at(s, i3)) {
                    Some((p, i4)) => match spaced_word(s, i4, word_else()) {
                        Some(i5) => match past(s, i5, program_at(s, i5)) {
                            Some((q, i6)) => match closing(s, i6) {
                                Some(i7) => Some((AtomView::Cond(b, p, q), i7)),
                                None => None,
                            },
                            None => None,
                        },
                        None => None,
                    },
                    None => None,
                },
                None => None,
            },
            None => None,
        },
        None => None,
    }
}

/// The loop at position `i`.
pub open spec fn loop_at(s: Seq<u8>, i: int) -> Option<(AtomView, int)>
    decreases s.len() - i, 1int,
{
    match opening(s, i, word_while()) {
        Some(i1) => match past(s, i1, bexp_at(s, i1)) {
            Some((b, i2)) => match spaced_word(s, i2, word_do()) {
                Some(i3) => match past(s, i3, program_at(s, i3)) {
                    Some((p, i4)) => match closing(s, i4) {
                        Some(i5) => Some((AtomView::While(b, p), i5)),
                        None => None,
                    },
                    None => None,
                },
                None => None,
            },
            None => None,
        },
        None => None,
    }
}

/// The program at position `i`: one statement, or several with `;`
/// between them.
pub open spec fn program_at(s: Seq<u8>, i: int) -> Option<(Seq<AtomView>, int)>
    decreases s.len() - i, 3int,
{
    match past(s, i, statement_at(s, i)) {
        Some((a, j)) => program_rest(s, j, seq![a]),
        None => None,
    }
}

/// The program of `acc` and the statements that follow position `j`, each
/// after a `;`.
pub open spec fn program_rest(s: Seq<u8>, j: int, acc: Seq<AtomView>) -> Option<(Seq<AtomView>, int)>
    decreases s.len() - j, 3int,
{
    match operator(s, j, op_semi()) {
        Some(k) => match past(s, k, statement_at(s, k)) {
            Some((b, m)) => program_rest(s, m, acc.push(b)),
            None => Some((acc, j)),
        },
        None => Some((acc, j)),
    }
}

/// The text `s` from position `i` on without its comments: a comment
/// starts with `#` and ends before the next line feed. `inside` says
/// whether position `i` is in a comment.
pub open spec fn uncomment(s: Seq<u8>, i: int, inside: bool) -> Seq<u8>
    decreases s.len() - i,
{
    if i < 0 || i >= s.len() {
        Seq::empty()
    } else if s[i] == 10 {
        seq![10u8] + uncomment(s, i + 1, false)
    } else if inside || s[i] == 35 {
        uncomment(s, i + 1, true)
    } else {
        seq![s[i]] + uncomment(s, i + 1, false)
    }
}

/// Whether the byte is a white-space character of one byte: a blank, a
/// vertical tab or a form feed.
pub open spec fn is_blank(b: u8) -> bool {
    is_space(b) || b == 11 || b == 12
}

/// Whether the two bytes encode a white-space character: the next-line
/// character or the no-break space.
pub open spec fn is_blank2(a: u8, b: u8) -> bool {
    a == 0xC2 && (b == 0x85 || b == 0xA0)
}

/// Whether the three bytes encode a white-space character: one of the
/// spaces and separators from U+1680 to U+3000 that Unicode lists as
/// white space.
pub open spec fn is_blank3(a: u8, b: u8, c: u8) -> bool {
    ||| a == 0xE1 && b == 0x9A && c == 0x80
    ||| a == 0xE2 && b == 0x80 && ((0x80 <= c && c <= 0x8A) || c == 0xA8 || c == 0xA9 || c == 0xAF)
    ||| a == 0xE2 && b == 0x81 && c == 0x9F
    ||| a == 0xE3 && b == 0x80 && c == 0x80
}

/// The number of bytes of the white-space character that is encoded at
/// position `i`, or 0 if none is.
pub open spec fn white_at(s: Seq<u8>, i: int) -> nat {
    if 0 <= i && i + 1 <= s.len() && is_blank(s[i]) {
        1
    } else if 0 <= i && i + 2 <= s.len() && is_blank2(s[i], s[i + 1]) {
        2
    } else if 0 <= i && i + 3 <= s.len() && is_blank3(s[i], s[i + 1], s[i + 2]) {
        3
    } else {
        0
    }
}

/// The number of bytes of the white-space character whose encoding ends
/// before position `n` and does not start before position `lo`, or 0 if
/// there is none.
pub open spec fn white_before(s: Seq<u8>, lo: int, n: int) -> nat {
    if 0 <= lo && lo + 1 <= n <= s.len() && is_blank(s[n - 1]) {
        1
    } else if 0 <= lo && lo + 2 <= n <= s.len() && is_blank2(s[n - 2], s[n - 1]) {
        2
    } else if 0 <= lo && lo + 3 <= n <= s.len() && is_blank3(s[n - 3], s[n - 2], s[n - 1]) {
        3
    } else {
        0
    }
}

/// The number of bytes of white space from position `i` on.
pub open spec fn blanks(s: Seq<u8>, i: int) -> nat
    decreases s.len() - i,
{
    let w = white_at(s, i);
    if w > 0 {
        w + blanks(s, i + w)
    } else {
        0
    }
}

/// The number of bytes of white space at the end of the bytes from
/// position `lo` to position `n`.
pub open spec fn blanks_before(s: Seq<u8>, lo: int, n: int) -> nat
    decreases n - lo,
{
    let w = white_before(s, lo, n);
    if w > 0 {
        w + blanks_before(s, lo, n - w)
    } else {
        0
    }
}

/// The text without the white space at its start and at its end, where
/// white space is what Unicode lists as such, in its encoding as UTF-8.
pub open spec fn trim(s: Seq<u8>) -> Seq<u8> {
    let a = blanks(s, 0);
    if a >= s.len() {
        Seq::empty()
    } else {
        s.subrange(a as int, s.len() - blanks_before(s, a as int, s.len() as int))
    }
}

/// The text that is parsed: the text without its comments and without the
/// white space around it.
pub open spec fn source(s: Seq<u8>) -> Seq<u8> {
    trim(uncomment(s, 0, false))
}

/// Why a text is not a program.
pub enum ParseErrorView {
    /// No program stands at the start of the text, which is given.
    NoProgram(Seq<u8>),
    /// A program stands at the start, and the rest of the text, which is
    /// given, follows it.
    Trailing(Seq<u8>),
}

/// The program that a text stands for: the program at the start of its
/// source, if nothing follows it.
pub open spec fn parsed(s: Seq<u8>) -> Result<Seq<AtomView>, ParseErrorView> {
    let t = source(s);
    match program_at(t, 0) {
        Some((p, j)) => if j == t.len() {
            Ok(p)
        } else {
            Err(ParseErrorView::Trailing(t.skip(j)))
        },
        None => Err(ParseErrorView::NoProgram(t)),
    }
}

} // verus!
