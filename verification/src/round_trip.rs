//! The text of a program stands for the program.

use vstd::prelude::*;
use crate::aexp::AExpView;
use crate::ast::AtomView;
use crate::bexp::BExpView;
use crate::grammar::{aexp_at, assignment_at, at, bexp_at, closing, comparison_at, conditional_at, digits, factor_at,
    is_blank, is_digit, is_letter, is_space, keyword, letters, loop_at, name_at, number, op_and,
    op_assign, op_le, op_or, op_plus, op_semi, op_times, opening, operator, parsed, product_at, product_rest,
    program_at, program_rest, source, spaced_word, spaces, statement_at, sum_at, sum_rest, trim, uncomment, word_do,
    word_else, word_end, word_if, word_skip, word_then, word_while, blanks, blanks_before, white_at, white_before,
    ParseErrorView};
use crate::text::{aexp_text, atom_text, bexp_text, digit_char, factor_text, nat_text, prog_text};

verus! {

/// The bytes of a text of characters of one byte each.
pub open spec fn enc(t: Seq<char>) -> Seq<u8> {
    Seq::new(t.len(), |i: int| t[i] as u8)
}

/// The bytes of two texts, one after the other.
proof fn lemma_enc_concat(a: Seq<char>, b: Seq<char>)
    ensures
        enc(a + b) == enc(a) + enc(b),
{
    assert(enc(a + b) =~= enc(a) + enc(b));
}

/// Two words stand one after the other where their concatenation stands.
proof fn lemma_at_concat(s: Seq<u8>, i: int, a: Seq<u8>, b: Seq<u8>)
    ensures
        at(s, i, a + b) <==> at(s, i, a) && at(s, i + a.len(), b),
{
    reveal(at);
    if at(s, i, a + b) {
        assert(s.subrange(i, i + a.len()) =~= (a + b).subrange(0, a.len() as int)) by {
            assert forall|k: int| 0 <= k < a.len() implies s.subrange(i, i + a.len())[k] == (a + b)[k] by {
                assert(s.subrange(i, i + (a + b).len())[k] == (a + b)[k]);
            }
        }
        assert((a + b).subrange(0, a.len() as int) =~= a);
        assert(s.subrange(i + a.len(), i + a.len() + b.len()) =~= b) by {
            assert forall|k: int| 0 <= k < b.len() implies s.subrange(i + a.len(), i + a.len() + b.len())[k]
                == b[k] by {
                assert(s.subrange(i, i + (a + b).len())[a.len() + k] == (a + b)[a.len() + k]);
            }
        }
    }
    if at(s, i, a) && at(s, i + a.len(), b) {
        assert(s.subrange(i, i + (a + b).len()) =~= a + b) by {
            assert forall|k: int| 0 <= k < (a + b).len() implies s.subrange(i, i + (a + b).len())[k] == (a + b)[k] by {
                if k < a.len() {
                    assert(s.subrange(i, i + a.len())[k] == a[k]);
                } else {
                    assert(s.subrange(i + a.len(), i + a.len() + b.len())[k - a.len()] == b[k - a.len()]);
                }
            }
        }
    }
}

/// The bytes of a word that stands in a text are bytes of the text.
proof fn lemma_at_byte(s: Seq<u8>, i: int, w: Seq<u8>, k: int)
    requires
        at(s, i, w),
        0 <= k < w.len(),
    ensures
        0 <= i,
        i + w.len() <= s.len(),
        0 <= i + k < s.len(),
        s[i + k] == w[k],
{
    reveal(at);
    assert(s.subrange(i, i + w.len())[k] == w[k]);
}

/// A word stands where its bytes stand.
proof fn lemma_at_bytes(s: Seq<u8>, i: int, w: Seq<u8>)
    requires
        0 <= i,
        i + w.len() <= s.len(),
        forall|k: int| 0 <= k < w.len() ==> #[trigger] s[i + k] == w[k],
    ensures
        at(s, i, w),
{
    reveal(at);
    assert(s.subrange(i, i + w.len()) =~= w) by {
        assert forall|k: int| 0 <= k < w.len() implies s.subrange(i, i + w.len())[k] == w[k] by {
            assert(s[i + k] == w[k]);
        }
    }
}

/// A word does not stand where it would pass the end of the text.
proof fn lemma_at_bound(s: Seq<u8>, i: int, w: Seq<u8>)
    requires
        at(s, i, w),
    ensures
        0 <= i,
        i + w.len() <= s.len(),
{
    reveal(at);
}

/// A text of two parts stands where its parts stand one after the other.
proof fn lemma_split(s: Seq<u8>, i: int, a: Seq<char>, b: Seq<char>)
    ensures
        at(s, i, enc(a + b)) <==> at(s, i, enc(a)) && at(s, i + a.len(), enc(b)),
        enc(a + b).len() == a.len() + b.len(),
{
    lemma_enc_concat(a, b);
    lemma_at_concat(s, i, enc(a), enc(b));
}

/// No blank stands at a position where a byte that is no blank stands.
proof fn lemma_no_space(s: Seq<u8>, i: int)
    requires
        i < 0 || i >= s.len() || !is_space(s[i]),
    ensures
        spaces(s, i) == 0,
{
}

/// One blank stands before a byte that is no blank.
proof fn lemma_one_space(s: Seq<u8>, i: int)
    requires
        0 <= i < s.len(),
        s[i] == 32,
        i + 1 >= s.len() || !is_space(s[i + 1]),
    ensures
        spaces(s, i) == 1,
{
    lemma_no_space(s, i + 1);
}

/// A run of `n` letters that no letter follows has the length `n`.
proof fn lemma_letters_run(s: Seq<u8>, i: int, n: nat)
    requires
        0 <= i,
        i + n <= s.len(),
        forall|k: int| 0 <= k < n ==> is_letter(#[trigger] s[i + k]),
        i + n == s.len() || !is_letter(s[i + n]),
    ensures
        letters(s, i) == n,
    decreases n,
{
    if n > 0 {
        assert(is_letter(s[i + 0]));
        assert forall|k: int| 0 <= k < n - 1 implies is_letter(#[trigger] s[i + 1 + k]) by {
            assert(is_letter(s[i + (k + 1)]));
        }
        lemma_letters_run(s, i + 1, (n - 1) as nat);
    }
}

/// A run of `n` digits that no digit follows has the length `n`.
proof fn lemma_digits_run(s: Seq<u8>, i: int, n: nat)
    requires
        0 <= i,
        i + n <= s.len(),
        forall|k: int| 0 <= k < n ==> is_digit(#[trigger] s[i + k]),
        i + n == s.len() || !is_digit(s[i + n]),
    ensures
        digits(s, i) == n,
    decreases n,
{
    if n > 0 {
        assert(is_digit(s[i + 0]));
        assert forall|k: int| 0 <= k < n - 1 implies is_digit(#[trigger] s[i + 1 + k]) by {
            assert(is_digit(s[i + (k + 1)]));
        }
        lemma_digits_run(s, i + 1, (n - 1) as nat);
    }
}

/// The position after the blanks at position `j`.
pub open spec fn after_spaces(s: Seq<u8>, j: int) -> int {
    j + spaces(s, j)
}

/// Whether what stands at position `j` ends what was read before it: the
/// text ends there, or a blank, a `;`, a `)` or a `*` stands there, and the
/// next byte after the blanks is none of `*` (from level 1 on), `+` (from
/// level 2 on), `&` and `|` (from level 3 on) and `;` (from level 4 on).
pub open spec fn halts(s: Seq<u8>, j: int, level: int) -> bool {
    let k = after_spaces(s, j);
    &&& 0 <= j <= s.len()
    &&& j < s.len() ==> s[j] == 32 || s[j] == 59 || s[j] == 41 || s[j] == 42
    &&& level >= 1 ==> !(k < s.len() && s[k] == 42)
    &&& level >= 2 ==> !(k < s.len() && s[k] == 43)
    &&& level >= 3 ==> !(k < s.len() && (s[k] == 38 || s[k] == 124))
    &&& level >= 4 ==> !(k < s.len() && s[k] == 59)
}

/// The decimal digits of a number are digits, and stand for the number.
proof fn lemma_nat_text(s: Seq<u8>, i: int, n: nat)
    requires
        at(s, i, enc(nat_text(n))),
    ensures
        nat_text(n).len() > 0,
        forall|k: int| 0 <= k < nat_text(n).len() ==> is_digit(#[trigger] s[i + k]),
        number(s, i, nat_text(n).len()) == n,
    decreases n,
{
    let t = nat_text(n);
    if n < 10 {
        lemma_at_byte(s, i, enc(t), 0);
        assert(t[0] == digit_char(n as int));
        assert(number(s, i, 0) == 0);
        assert(number(s, i, 1) == number(s, i, 0) * 10 + (s[i + 1 - 1] - 48));
    } else {
        let head = nat_text(n / 10);
        let last = seq![digit_char((n % 10) as int)];
        assert(t =~= head + last);
        lemma_split(s, i, head, last);
        lemma_nat_text(s, i, n / 10);
        lemma_at_byte(s, i + head.len(), enc(last), 0);
        assert forall|k: int| 0 <= k < t.len() implies is_digit(#[trigger] s[i + k]) by {
            if k < head.len() {
            } else {
                assert(s[i + head.len() + 0] == enc(last)[0]);
            }
        }
        assert(number(s, i, t.len()) == number(s, i, head.len()) * 10 + (s[i + t.len() - 1] - 48));
    }
}

/// Whether the characters spell a name: one letter at least, and letters
/// only.
pub open spec fn is_name(x: Seq<char>) -> bool {
    &&& x.len() > 0
    &&& forall|k: int| 0 <= k < x.len() ==> (#[trigger] x[k]) as int <= 127 && is_letter(x[k] as u8)
}

/// Where an expression stands in a larger one: in a sum or on its own,
/// as the right side of a sum, as the left side of a product, or as the
/// right side of a product.
pub enum Place {
    Sum,
    Term,
    Left,
    Right,
}

/// Whether an expression at the place `at` is read back as it is written:
/// its literals are not negative, its names are letters, no sum is the
/// right side of a sum and no product the right side of a product.
pub open spec fn canon(e: AExpView, place: Place) -> bool
    decreases e,
{
    match e {
        AExpView::Num(n) => n >= 0,
        AExpView::Var(x) => is_name(x),
        AExpView::Add(l, r) => !(place is Term) && canon(*l, Place::Sum) && canon(*r, Place::Term),
        AExpView::Mul(l, r) => !(place is Right) && canon(*l, Place::Left) && canon(*r, Place::Right),
    }
}

/// Whether an arithmetic expression is read back as it is written: it is
/// a negative literal, or its literals are not negative, its names are
/// letters, and its sums and products are grouped to the left.
pub open spec fn canon_aexp(e: AExpView) -> bool {
    (e matches AExpView::Num(n) && n < 0) || canon(e, Place::Sum)
}

/// An expression that is read back at one place is read back at every
/// place at which an expression of its kind may stand.
pub(crate) proof fn lemma_place(e: AExpView, from: Place, to: Place)
    requires
        canon(e, from),
        e is Add ==> !(to is Term),
        e is Mul ==> !(to is Right),
    ensures
        canon(e, to),
        from is Term ==> !(e is Add),
        from is Right ==> !(e is Mul),
{
}

/// Whether a byte can start a sum: a digit, a letter or `(`.
pub open spec fn starts_sum(b: u8) -> bool {
    is_digit(b) || is_letter(b) || b == 40
}

/// The first of the decimal digits of a number is a digit.
proof fn lemma_nat_text_first(n: nat)
    ensures
        nat_text(n).len() > 0,
        is_digit(nat_text(n)[0] as u8),
        forall|k: int| 0 <= k < nat_text(n).len() ==> is_digit(#[trigger] nat_text(n)[k] as u8) && nat_text(n)[k] as int <= 127,
    decreases n,
{
    if n >= 10 {
        lemma_nat_text_first(n / 10);
    }
}

/// A character of one byte is the character of its byte.
proof fn lemma_char_byte(c: char)
    requires
        c as int <= 127,
    ensures
        (c as u8) as char == c,
        (c as u8) as int == c as int,
{
    let u = c as u32;
    assert((u as u8) as u32 == u) by (bit_vector)
        requires
            u <= 127,
    ;
    vstd::utf8::char_u32_cast(c, u);
}

/// A name and what follows it where it stands in a text.
#[verifier::rlimit(50)]
#[verifier::spinoff_prover]
proof fn lemma_name(s: Seq<u8>, i: int, x: Seq<char>)
    requires
        is_name(x),
        at(s, i, enc(x)),
        i + x.len() == s.len() || !is_letter(s[i + x.len()]),
    ensures
        letters(s, i) == x.len(),
        digits(s, i) == 0,
        name_at(s, i, x.len()) == x,
        0 <= i < s.len(),
        is_letter(s[i]),
{
    lemma_at_bound(s, i, enc(x));
    assert forall|k: int| 0 <= k < x.len() implies is_letter(#[trigger] s[i + k]) && s[i + k] == x[k] as u8 by {
        lemma_at_byte(s, i, enc(x), k);
    }
    lemma_letters_run(s, i, x.len());
    assert(is_letter(s[i + 0]));
    assert(name_at(s, i, x.len()) =~= x) by {
        assert forall|k: int| 0 <= k < x.len() implies name_at(s, i, x.len())[k] == x[k] by {
            assert(s[i + k] == x[k] as u8);
            lemma_char_byte(x[k]);
        }
    }
}

/// The text of a sum starts with a digit, a letter or `(`, and so does
/// the text of a factor.
proof fn lemma_sum_start(e: AExpView, place: Place)
    requires
        canon(e, place),
    ensures
        aexp_text(e).len() > 0,
        factor_text(e).len() > 0,
        starts_sum(enc(aexp_text(e))[0]),
        starts_sum(enc(factor_text(e))[0]),
    decreases e,
{
    reveal_strlit("(");
    reveal_strlit(")");
    reveal_strlit(" + ");
    reveal_strlit("*");
    match e {
        AExpView::Num(n) => {
            lemma_nat_text_first(n as nat);
        },
        AExpView::Var(x) => {
            assert(x[0] as int <= 127 && is_letter(x[0] as u8));
        },
        AExpView::Add(l, r) => {
            lemma_sum_start(*l, Place::Sum);
            assert(aexp_text(e)[0] == aexp_text(*l)[0]);
            assert(factor_text(e)[0] == '(');
        },
        AExpView::Mul(l, r) => {
            lemma_sum_start(*l, Place::Left);
            assert(aexp_text(e)[0] == factor_text(*l)[0]);
        },
    }
}

/// An operator does not stand where the next byte after the blanks is
/// not its first byte.
proof fn lemma_no_operator(s: Seq<u8>, j: int, w: Seq<u8>)
    requires
        w.len() > 0,
        !(after_spaces(s, j) < s.len() && s[after_spaces(s, j)] == w[0]),
    ensures
        operator(s, j, w) is None,
{
    let k = after_spaces(s, j);
    if at(s, k, w) {
        lemma_at_byte(s, k, w, 0);
    }
}

/// What the grammar reads where the text of a factor stands.
#[verifier::rlimit(50)]
#[verifier::spinoff_prover]
proof fn lemma_factor(s: Seq<u8>, i: int, e: AExpView)
    requires
        canon(e, Place::Right),
        at(s, i, enc(factor_text(e))),
        halts(s, i + factor_text(e).len(), 0),
    ensures
        factor_at(s, i) == Some((e, i + factor_text(e).len())),
    decreases e, (if e is Add { 3int } else { 1int }),
{
    let n = factor_text(e).len() as int;
    match e {
        AExpView::Num(v) => {
            lemma_at_bound(s, i, enc(factor_text(e)));
            lemma_nat_text(s, i, v as nat);
            lemma_digits_run(s, i, n as nat);
        },
        AExpView::Var(x) => {
            lemma_name(s, i, x);
        },
        AExpView::Add(_, _) => {
            reveal_strlit("(");
            reveal_strlit(")");
            let t = aexp_text(e);
            assert(factor_text(e) == "("@ + t + ")"@);
            lemma_split(s, i, "("@ + t, ")"@);
            lemma_split(s, i, "("@, t);
            lemma_at_byte(s, i, enc("("@), 0);
            lemma_at_byte(s, i + 1 + t.len(), enc(")"@), 0);
            lemma_sum_start(e, Place::Right);
            lemma_at_byte(s, i + 1, enc(t), 0);
            let k = i + 1 + t.len();
            assert(s[i] == 40);
            assert(s[k] == 41);
            lemma_no_space(s, i + 1);
            lemma_no_space(s, k);
            lemma_place(e, Place::Right, Place::Sum);
            lemma_aexp(s, i + 1, e);
        },
        AExpView::Mul(_, _) => {},
    }
}

/// What the grammar reads where the text of a product stands.
#[verifier::rlimit(50)]
#[verifier::spinoff_prover]
proof fn lemma_product(s: Seq<u8>, i: int, e: AExpView)
    requires
        canon(e, Place::Left),
        at(s, i, enc(factor_text(e))),
        halts(s, i + factor_text(e).len(), 0),
    ensures
        product_at(s, i) == product_rest(s, i + factor_text(e).len(), e),
    decreases e, (if e is Add { 4int } else { 2int }),
{
    let end = i + factor_text(e).len();
    match e {
        AExpView::Mul(l, r) => {
            reveal_strlit("*");
            let tl = factor_text(*l);
            let tr = factor_text(*r);
            assert(factor_text(e) == tl + "*"@ + tr);
            lemma_split(s, i, tl + "*"@, tr);
            lemma_split(s, i, tl, "*"@);
            let j = i + tl.len();
            lemma_at_byte(s, j, enc("*"@), 0);
            assert(s[j] == 42);
            lemma_sum_start(*r, Place::Right);
            lemma_at_byte(s, j + 1, enc(tr), 0);
            lemma_no_space(s, j);
            lemma_no_space(s, j + 1);
            lemma_product(s, i, *l);
            assert(at(s, j, op_times())) by {
                assert(s[j + 0] == op_times()[0]);
                lemma_at_bytes(s, j, op_times());
            }
            assert(operator(s, j, op_times()) == Some(j + 1));
            lemma_factor(s, j + 1, *r);
        },
        _ => {
            lemma_place(e, Place::Left, Place::Right);
            lemma_factor(s, i, e);
            lemma_sum_start(e, Place::Left);
        },
    }
}

/// What the grammar reads where the text of a sum stands.
#[verifier::rlimit(50)]
#[verifier::spinoff_prover]
proof fn lemma_sum(s: Seq<u8>, i: int, e: AExpView)
    requires
        canon(e, Place::Sum),
        at(s, i, enc(aexp_text(e))),
        halts(s, i + aexp_text(e).len(), 1),
    ensures
        sum_at(s, i) == sum_rest(s, i + aexp_text(e).len(), e),
    decreases e, (if e is Add { 1int } else { 3int }),
{
    let end = i + aexp_text(e).len();
    match e {
        AExpView::Add(l, r) => {
            reveal_strlit(" + ");
            let tl = aexp_text(*l);
            let tr = aexp_text(*r);
            assert(aexp_text(e) == tl + " + "@ + tr);
            lemma_split(s, i, tl + " + "@, tr);
            lemma_split(s, i, tl, " + "@);
            let j = i + tl.len();
            lemma_at_byte(s, j, enc(" + "@), 0);
            lemma_at_byte(s, j, enc(" + "@), 1);
            lemma_at_byte(s, j, enc(" + "@), 2);
            assert(s[j] == 32 && s[j + 1] == 43 && s[j + 2] == 32);
            lemma_sum_start(*r, Place::Term);
            lemma_at_byte(s, j + 3, enc(tr), 0);
            lemma_one_space(s, j);
            lemma_one_space(s, j + 2);
            lemma_sum(s, i, *l);
            assert(at(s, j + 1, op_plus())) by {
                assert(s[j + 1 + 0] == op_plus()[0]);
                lemma_at_bytes(s, j + 1, op_plus());
            }
            assert(operator(s, j, op_plus()) == Some(j + 3));
            lemma_place(*r, Place::Term, Place::Left);
            assert(factor_text(*r) == tr);
            lemma_product(s, j + 3, *r);
            lemma_no_operator(s, end, op_times());
            assert(product_rest(s, end, *r) == Some((*r, end)));
        },
        _ => {
            lemma_place(e, Place::Sum, Place::Left);
            assert(factor_text(e) == aexp_text(e));
            lemma_product(s, i, e);
            lemma_no_operator(s, end, op_times());
            assert(product_rest(s, end, e) == Some((e, end)));
            lemma_sum_start(e, Place::Sum);
        },
    }
}

/// What the grammar reads where the text of an arithmetic expression
/// stands.
#[verifier::rlimit(50)]
#[verifier::spinoff_prover]
proof fn lemma_aexp(s: Seq<u8>, i: int, e: AExpView)
    requires
        canon_aexp(e),
        at(s, i, enc(aexp_text(e))),
        halts(s, i + aexp_text(e).len(), 2),
    ensures
        aexp_at(s, i) == Some((e, i + aexp_text(e).len())),
    decreases e, (if e is Add { 2int } else { 4int }),
{
    let end = i + aexp_text(e).len();
    if e matches AExpView::Num(w) && w < 0 {
        let v = e->Num_0;
        let t = nat_text((-v) as nat);
        assert(aexp_text(e) == seq!['-'] + t);
        lemma_split(s, i, seq!['-'], t);
        lemma_at_byte(s, i, enc(seq!['-']), 0);
        assert(s[i] == 45);
        lemma_at_bound(s, i + 1, enc(t));
        lemma_nat_text(s, i + 1, (-v) as nat);
        lemma_digits_run(s, i + 1, t.len());
    } else {
        lemma_sum_start(e, Place::Sum);
        lemma_at_byte(s, i, enc(aexp_text(e)), 0);
        assert(s[i] != 45);
        lemma_sum(s, i, e);
        lemma_no_operator(s, end, op_plus());
    }
}

/// Whether a boolean expression is read back as it is written: its
/// arithmetic expressions are, and the left side of every `&&` and `||`
/// is a comparison.
pub open spec fn canon_bexp(b: BExpView) -> bool
    decreases b,
{
    match b {
        BExpView::LessEq(l, r) => canon_aexp(l) && canon_aexp(r),
        BExpView::Neg(c) => canon_bexp(*c),
        BExpView::And(l, r) => *l is LessEq && canon_bexp(*l) && canon_bexp(*r),
        BExpView::Or(l, r) => *l is LessEq && canon_bexp(*l) && canon_bexp(*r),
    }
}

/// The text of an arithmetic expression starts with a byte that is no
/// blank, no `:` and no `!`.
proof fn lemma_aexp_start(e: AExpView)
    requires
        canon_aexp(e),
    ensures
        aexp_text(e).len() > 0,
        starts_sum(enc(aexp_text(e))[0]) || enc(aexp_text(e))[0] == 45,
{
    if e matches AExpView::Num(w) && w < 0 {
        assert(aexp_text(e)[0] == '-');
    } else {
        lemma_sum_start(e, Place::Sum);
    }
}

/// The text of a boolean expression starts with a byte that is no blank
/// and no `:`.
proof fn lemma_bexp_start(b: BExpView)
    requires
        canon_bexp(b),
    ensures
        bexp_text(b).len() > 0,
        starts_sum(enc(bexp_text(b))[0]) || enc(bexp_text(b))[0] == 45 || enc(bexp_text(b))[0] == 33,
    decreases b,
{
    reveal_strlit("!");
    match b {
        BExpView::LessEq(l, r) => {
            lemma_aexp_start(l);
            assert(bexp_text(b)[0] == aexp_text(l)[0]);
        },
        BExpView::Neg(c) => {
            assert(bexp_text(b)[0] == '!');
        },
        BExpView::And(l, r) => {
            lemma_bexp_start(*l);
            assert(bexp_text(b)[0] == bexp_text(*l)[0]);
        },
        BExpView::Or(l, r) => {
            lemma_bexp_start(*l);
            assert(bexp_text(b)[0] == bexp_text(*l)[0]);
        },
    }
}

/// Where a blank, an operator of two bytes and a blank stand before a
/// byte that is no blank, the operator is read, up to that byte.
proof fn lemma_operator2(s: Seq<u8>, j: int, w: Seq<u8>)
    requires
        w.len() == 2,
        0 <= j,
        j + 4 < s.len(),
        s[j] == 32,
        s[j + 1] == w[0],
        s[j + 2] == w[1],
        s[j + 3] == 32,
        !is_space(w[0]),
        !is_space(s[j + 4]),
    ensures
        operator(s, j, w) == Some(j + 4),
{
    lemma_one_space(s, j);
    lemma_one_space(s, j + 3);
    assert forall|k: int| 0 <= k < w.len() implies #[trigger] s[j + 1 + k] == w[k] by {
        if k == 0 {
        } else {
            assert(s[j + 1 + 1] == w[1]);
        }
    }
    lemma_at_bytes(s, j + 1, w);
}

/// What the grammar reads where the text of a comparison stands.
#[verifier::rlimit(50)]
#[verifier::spinoff_prover]
proof fn lemma_comparison(s: Seq<u8>, i: int, l: AExpView, r: AExpView)
    requires
        canon_aexp(l),
        canon_aexp(r),
        at(s, i, enc(bexp_text(BExpView::LessEq(l, r)))),
        halts(s, i + bexp_text(BExpView::LessEq(l, r)).len(), 2),
    ensures
        comparison_at(s, i) == Some((BExpView::LessEq(l, r), i + bexp_text(BExpView::LessEq(l, r)).len())),
{
    reveal_strlit(" <= ");
    let tl = aexp_text(l);
    let tr = aexp_text(r);
    assert(bexp_text(BExpView::LessEq(l, r)) == tl + " <= "@ + tr);
    lemma_split(s, i, tl + " <= "@, tr);
    lemma_split(s, i, tl, " <= "@);
    let j = i + tl.len();
    lemma_at_byte(s, j, enc(" <= "@), 0);
    lemma_at_byte(s, j, enc(" <= "@), 1);
    lemma_at_byte(s, j, enc(" <= "@), 2);
    lemma_at_byte(s, j, enc(" <= "@), 3);
    lemma_aexp_start(r);
    lemma_at_byte(s, j + 4, enc(tr), 0);
    lemma_one_space(s, j);
    lemma_aexp(s, i, l);
    lemma_operator2(s, j, op_le());
    lemma_aexp(s, j + 4, r);
}

/// The two sides of a comparison that is read back as written are.
proof fn lemma_canon_comparison(c: BExpView)
    requires
        canon_bexp(c),
        c is LessEq,
    ensures
        canon_aexp(c->LessEq_0),
        canon_aexp(c->LessEq_1),
        c == BExpView::LessEq(c->LessEq_0, c->LessEq_1),
{
}

/// No comparison stands at a `!`.
#[verifier::rlimit(50)]
#[verifier::spinoff_prover]
proof fn lemma_no_comparison(s: Seq<u8>, i: int)
    requires
        0 <= i < s.len(),
        s[i] == 33,
    ensures
        comparison_at(s, i) is None,
{
    assert(digits(s, i) == 0);
    assert(letters(s, i) == 0);
    assert(factor_at(s, i) is None);
    assert(product_at(s, i) is None);
    assert(sum_at(s, i) is None);
    assert(aexp_at(s, i) is None);
}

/// A comparison that neither `&&` nor `||` follows is a boolean
/// expression.
proof fn lemma_bexp_alone(s: Seq<u8>, i: int, c: BExpView, j: int)
    requires
        comparison_at(s, i) == Some((c, j)),
        i < j <= s.len(),
        operator(s, j, op_and()) is None,
        operator(s, j, op_or()) is None,
    ensures
        bexp_at(s, i) == Some((c, j)),
{
    reveal(bexp_at);
}

/// A comparison, `&&` and a boolean expression are a boolean expression.
proof fn lemma_bexp_and(s: Seq<u8>, i: int, c: BExpView, j: int, k: int, d: BExpView, end: int)
    requires
        comparison_at(s, i) == Some((c, j)),
        i < j <= s.len(),
        operator(s, j, op_and()) == Some(k),
        bexp_at(s, k) == Some((d, end)),
        k < end <= s.len(),
    ensures
        bexp_at(s, i) == Some((BExpView::And(Box::new(c), Box::new(d)), end)),
{
    reveal(bexp_at);
}

/// A comparison, `||` and a boolean expression are a boolean expression.
proof fn lemma_bexp_or(s: Seq<u8>, i: int, c: BExpView, j: int, k: int, d: BExpView, end: int)
    requires
        comparison_at(s, i) == Some((c, j)),
        i < j <= s.len(),
        operator(s, j, op_and()) is None,
        operator(s, j, op_or()) == Some(k),
        bexp_at(s, k) == Some((d, end)),
        k < end <= s.len(),
    ensures
        bexp_at(s, i) == Some((BExpView::Or(Box::new(c), Box::new(d)), end)),
{
    reveal(bexp_at);
}

/// A `!` and a boolean expression are a boolean expression.
proof fn lemma_bexp_neg(s: Seq<u8>, i: int, c: BExpView, end: int)
    requires
        0 <= i < s.len(),
        s[i] == 33,
        bexp_at(s, i + 1) == Some((c, end)),
    ensures
        bexp_at(s, i) == Some((BExpView::Neg(Box::new(c)), end)),
{
    reveal(bexp_at);
    lemma_no_comparison(s, i);
}

/// Where the two sides of a text with ` && ` or ` || ` between them
/// stand, and that the operator is read between them.
#[verifier::rlimit(50)]
#[verifier::spinoff_prover]
proof fn lemma_joined(s: Seq<u8>, i: int, tl: Seq<char>, op: Seq<char>, w: Seq<u8>, tr: Seq<char>)
    requires
        at(s, i, enc(tl + op + tr)),
        op.len() == 4,
        w.len() == 2,
        enc(op) =~= seq![32u8, w[0], w[1], 32u8],
        !is_space(w[0]),
        w[0] != 42,
        w[0] != 43,
        tr.len() > 0,
        !is_space(enc(tr)[0]),
    ensures
        at(s, i, enc(tl)),
        at(s, i + tl.len() + 4, enc(tr)),
        (tl + op + tr).len() == tl.len() + 4 + tr.len(),
        halts(s, i + tl.len(), 2),
        operator(s, i + tl.len(), w) == Some(i + tl.len() + 4),
        0 <= i,
        i + tl.len() + 4 + tr.len() <= s.len(),
        after_spaces(s, i + tl.len()) == i + tl.len() + 1,
        s[i + tl.len() + 1] == w[0],
{
    lemma_split(s, i, tl + op, tr);
    lemma_split(s, i, tl, op);
    let j = i + tl.len();
    lemma_at_byte(s, j, enc(op), 0);
    lemma_at_byte(s, j, enc(op), 1);
    lemma_at_byte(s, j, enc(op), 2);
    lemma_at_byte(s, j, enc(op), 3);
    lemma_at_byte(s, j + 4, enc(tr), 0);
    lemma_at_bound(s, i, enc(tl));
    lemma_at_bound(s, j + 4, enc(tr));
    lemma_one_space(s, j);
    lemma_operator2(s, j, w);
}

/// What the grammar reads where the text of a boolean expression stands.
#[verifier::rlimit(50)]
#[verifier::spinoff_prover]
proof fn lemma_bexp(s: Seq<u8>, i: int, b: BExpView)
    requires
        canon_bexp(b),
        at(s, i, enc(bexp_text(b))),
        halts(s, i + bexp_text(b).len(), 3),
    ensures
        bexp_at(s, i) == Some((b, i + bexp_text(b).len())),
    decreases b,
{
    let end = i + bexp_text(b).len();
    lemma_bexp_start(b);
    lemma_at_bound(s, i, enc(bexp_text(b)));
    match b {
        BExpView::LessEq(l, r) => {
            lemma_comparison(s, i, l, r);
            lemma_no_operator(s, end, op_and());
            lemma_no_operator(s, end, op_or());
            lemma_bexp_alone(s, i, b, end);
        },
        BExpView::Neg(c) => {
            reveal_strlit("!");
            let tc = bexp_text(*c);
            assert(bexp_text(b) == "!"@ + tc);
            lemma_split(s, i, "!"@, tc);
            lemma_at_byte(s, i, enc("!"@), 0);
            lemma_bexp(s, i + 1, *c);
            lemma_bexp_neg(s, i, *c, end);
        },
        BExpView::And(l, r) => {
            reveal_strlit(" && ");
            let tl = bexp_text(*l);
            let tr = bexp_text(*r);
            assert(bexp_text(b) == tl + " && "@ + tr);
            lemma_bexp_start(*r);
            lemma_joined(s, i, tl, " && "@, op_and(), tr);
            let j = i + tl.len();
            lemma_canon_comparison(*l);
            lemma_comparison(s, i, l->LessEq_0, l->LessEq_1);
            lemma_bexp(s, j + 4, *r);
            lemma_bexp_and(s, i, *l, j, j + 4, *r, end);
        },
        BExpView::Or(l, r) => {
            reveal_strlit(" || ");
            let tl = bexp_text(*l);
            let tr = bexp_text(*r);
            assert(bexp_text(b) == tl + " || "@ + tr);
            lemma_bexp_start(*r);
            lemma_joined(s, i, tl, " || "@, op_or(), tr);
            let j = i + tl.len();
            lemma_canon_comparison(*l);
            lemma_comparison(s, i, l->LessEq_0, l->LessEq_1);
            lemma_no_operator(s, j, op_and());
            lemma_bexp(s, j + 4, *r);
            lemma_bexp_or(s, i, *l, j, j + 4, *r, end);
        },
    }
}

/// Whether the statements of a program are read back as they are
/// written.
pub open spec fn canon_atoms(p: Seq<AtomView>) -> bool
    decreases p, 0int,
{
    if p.len() == 0 {
        true
    } else {
        canon_atoms(p.drop_last()) && canon_atom(p.last())
    }
}

/// Whether a statement is read back as it is written: its expressions
/// are, the programs in it are not empty, and it does not assign to a
/// variable with the name `skip`.
pub open spec fn canon_atom(a: AtomView) -> bool
    decreases a, 1int,
{
    match a {
        AtomView::Skip => true,
        AtomView::Assign(x, e) => is_name(x) && x != "skip"@ && canon_aexp(e),
        AtomView::Cond(b, p, q) => canon_bexp(b) && p.len() > 0 && canon_atoms(p) && q.len() > 0 && canon_atoms(q),
        AtomView::While(b, p) => canon_bexp(b) && p.len() > 0 && canon_atoms(p),
    }
}

/// Whether a program is read back as it is written: it is not empty, and
/// its statements are read back as they are written.
pub open spec fn canonical(p: Seq<AtomView>) -> bool {
    p.len() > 0 && canon_atoms(p)
}

/// A word of the grammar stands where a text with its bytes stands.
proof fn lemma_word(s: Seq<u8>, i: int, t: Seq<char>, w: Seq<u8>)
    requires
        at(s, i, enc(t)),
        enc(t) =~= w,
    ensures
        at(s, i, w),
        0 <= i,
        i + w.len() <= s.len(),
        forall|k: int| 0 <= k < w.len() ==> 0 <= i + k < s.len() && #[trigger] s[i + k] == w[k],
{
    lemma_at_bound(s, i, w);
    assert forall|k: int| 0 <= k < w.len() implies 0 <= i + k < s.len() && #[trigger] s[i + k] == w[k] by {
        lemma_at_byte(s, i, w, k);
    }
}

/// The text of a statement starts with a letter.
proof fn lemma_atom_start(a: AtomView)
    requires
        canon_atom(a),
    ensures
        atom_text(a).len() > 0,
        is_letter(enc(atom_text(a))[0]),
{
    reveal_strlit("skip");
    reveal_strlit("if ");
    reveal_strlit("while ");
    match a {
        AtomView::Skip => {},
        AtomView::Assign(x, e) => {
            assert(x[0] as int <= 127 && is_letter(x[0] as u8));
            assert(atom_text(a)[0] == x[0]);
        },
        AtomView::Cond(b, p, q) => {
            assert(atom_text(a)[0] == 'i');
        },
        AtomView::While(b, p) => {
            assert(atom_text(a)[0] == 'w');
        },
    }
}

/// The text of a program that is not empty starts with a letter.
proof fn lemma_prog_start(p: Seq<AtomView>)
    requires
        canonical(p),
    ensures
        prog_text(p).len() > 0,
        is_letter(enc(prog_text(p))[0]),
    decreases p.len(),
{
    if p.len() == 1 {
        lemma_atom_start(p[0]);
    } else {
        lemma_prog_start(p.drop_last());
        assert(prog_text(p)[0] == prog_text(p.drop_last())[0]);
    }
}

/// A word between two blanks is read where it stands before a byte that
/// is no blank.
proof fn lemma_spaced_word(s: Seq<u8>, j: int, w: Seq<u8>)
    requires
        0 <= j,
        w.len() > 0,
        j + w.len() + 2 < s.len(),
        s[j] == 32,
        at(s, j + 1, w),
        !is_space(w[0]),
        s[j + 1 + w.len()] == 32,
        !is_space(s[j + w.len() + 2]),
    ensures
        spaced_word(s, j, w) == Some(j + w.len() + 2),
{
    lemma_at_byte(s, j + 1, w, 0);
    lemma_one_space(s, j);
    lemma_one_space(s, j + 1 + w.len());
}

/// A word and the blank after it are read where they stand before a byte
/// that is no blank.
proof fn lemma_opening(s: Seq<u8>, i: int, w: Seq<u8>)
    requires
        0 <= i,
        w.len() > 0,
        i + w.len() + 1 < s.len(),
        at(s, i, w),
        s[i + w.len()] == 32,
        !is_space(s[i + w.len() + 1]),
    ensures
        opening(s, i, w) == Some(i + w.len() + 1),
{
    lemma_one_space(s, i + w.len());
}

/// A blank and the word `end` are read where they stand before the end of
/// the text, or before a byte that is neither a letter nor a digit.
proof fn lemma_closing(s: Seq<u8>, j: int)
    requires
        0 <= j,
        j + 4 <= s.len(),
        s[j] == 32,
        at(s, j + 1, word_end()),
        j + 4 == s.len() || !(is_letter(s[j + 4]) || is_digit(s[j + 4])),
    ensures
        closing(s, j) == Some(j + 4),
{
    lemma_at_byte(s, j + 1, word_end(), 0);
    lemma_one_space(s, j);
}

/// A statement that is no assignment to `skip` does not start with the
/// word `skip`.
#[verifier::rlimit(50)]
#[verifier::spinoff_prover]
proof fn lemma_not_skip(s: Seq<u8>, i: int, x: Seq<char>)
    requires
        is_name(x),
        x != "skip"@,
        at(s, i, enc(x)),
        i + x.len() < s.len(),
        s[i + x.len()] == 32,
    ensures
        keyword(s, i, word_skip()) is None,
{
    reveal_strlit("skip");
    if keyword(s, i, word_skip()) is Some {
        assert forall|k: int| 0 <= k < 4 implies #[trigger] s[i + k] == word_skip()[k] by {
            lemma_at_byte(s, i, word_skip(), k);
        }
        assert forall|k: int| 0 <= k < x.len() implies #[trigger] s[i + k] == x[k] as u8 && is_letter(s[i + k]) by {
            lemma_at_byte(s, i, enc(x), k);
        }
        if x.len() < 4 {
            assert(s[i + x.len()] == word_skip()[x.len() as int]);
        } else if x.len() > 4 {
            assert(is_letter(s[i + 4]));
        } else {
            assert(x =~= "skip"@) by {
                assert forall|k: int| 0 <= k < 4 implies x[k] == "skip"@[k] by {
                    assert(s[i + k] == word_skip()[k]);
                    assert(s[i + k] == x[k] as u8);
                    lemma_char_byte(x[k]);
                }
            }
        }
    }
}

/// Where the parts of the text of a conditional stand.
#[verifier::rlimit(50)]
#[verifier::spinoff_prover]
proof fn lemma_cond_layout(s: Seq<u8>, i: int, tb: Seq<char>, tp: Seq<char>, tq: Seq<char>)
    requires
        at(s, i, enc("if "@ + tb + " then "@ + tp + " else "@ + tq + " end"@)),
    ensures
        ({
            let i1 = i + 3;
            let i2 = i1 + tb.len();
            let i3 = i2 + 6;
            let i4 = i3 + tp.len();
            let i5 = i4 + 6;
            let i6 = i5 + tq.len();
            &&& 0 <= i
            &&& i6 + 4 <= s.len()
            &&& ("if "@ + tb + " then "@ + tp + " else "@ + tq + " end"@).len() == i6 + 4 - i
            &&& at(s, i, word_if())
            &&& s[i + 2] == 32
            &&& at(s, i1, enc(tb))
            &&& s[i2] == 32
            &&& at(s, i2 + 1, word_then())
            &&& s[i2 + 5] == 32
            &&& at(s, i3, enc(tp))
            &&& s[i4] == 32
            &&& at(s, i4 + 1, word_else())
            &&& s[i4 + 5] == 32
            &&& at(s, i5, enc(tq))
            &&& s[i6] == 32
            &&& at(s, i6 + 1, word_end())
        }),
{
    reveal_strlit("if ");
    reveal_strlit(" then ");
    reveal_strlit(" else ");
    reveal_strlit(" end");
    reveal_strlit("if");
    reveal_strlit(" ");
    reveal_strlit("then");
    reveal_strlit("else");
    reveal_strlit("end");
    lemma_split(s, i, "if "@ + tb + " then "@ + tp + " else "@ + tq, " end"@);
    lemma_split(s, i, "if "@ + tb + " then "@ + tp + " else "@, tq);
    lemma_split(s, i, "if "@ + tb + " then "@ + tp, " else "@);
    lemma_split(s, i, "if "@ + tb + " then "@, tp);
    lemma_split(s, i, "if "@ + tb, " then "@);
    lemma_split(s, i, "if "@, tb);
    let i1 = i + 3;
    let i2 = i1 + tb.len();
    let i3 = i2 + 6;
    let i4 = i3 + tp.len();
    let i5 = i4 + 6;
    let i6 = i5 + tq.len();
    assert("if "@ =~= "if"@ + " "@);
    lemma_split(s, i, "if"@, " "@);
    lemma_word(s, i, "if"@, word_if());
    lemma_at_byte(s, i + 2, enc(" "@), 0);
    assert(" then "@ =~= " "@ + "then"@ + " "@);
    lemma_split(s, i2, " "@ + "then"@, " "@);
    lemma_split(s, i2, " "@, "then"@);
    lemma_word(s, i2 + 1, "then"@, word_then());
    lemma_at_byte(s, i2, enc(" "@), 0);
    lemma_at_byte(s, i2 + 5, enc(" "@), 0);
    assert(" else "@ =~= " "@ + "else"@ + " "@);
    lemma_split(s, i4, " "@ + "else"@, " "@);
    lemma_split(s, i4, " "@, "else"@);
    lemma_word(s, i4 + 1, "else"@, word_else());
    lemma_at_byte(s, i4, enc(" "@), 0);
    lemma_at_byte(s, i4 + 5, enc(" "@), 0);
    assert(" end"@ =~= " "@ + "end"@);
    lemma_split(s, i6, " "@, "end"@);
    lemma_word(s, i6 + 1, "end"@, word_end());
    lemma_at_byte(s, i6, enc(" "@), 0);
}

/// Where the parts of the text of a loop stand.
#[verifier::rlimit(50)]
#[verifier::spinoff_prover]
proof fn lemma_loop_layout(s: Seq<u8>, i: int, tb: Seq<char>, tp: Seq<char>)
    requires
        at(s, i, enc("while "@ + tb + " do "@ + tp + " end"@)),
    ensures
        ({
            let i1 = i + 6;
            let i2 = i1 + tb.len();
            let i3 = i2 + 4;
            let i4 = i3 + tp.len();
            &&& 0 <= i
            &&& i4 + 4 <= s.len()
            &&& ("while "@ + tb + " do "@ + tp + " end"@).len() == i4 + 4 - i
            &&& at(s, i, word_while())
            &&& s[i + 5] == 32
            &&& at(s, i1, enc(tb))
            &&& s[i2] == 32
            &&& at(s, i2 + 1, word_do())
            &&& s[i2 + 3] == 32
            &&& at(s, i3, enc(tp))
            &&& s[i4] == 32
            &&& at(s, i4 + 1, word_end())
        }),
{
    reveal_strlit("while ");
    reveal_strlit(" do ");
    reveal_strlit(" end");
    reveal_strlit("while");
    reveal_strlit("do");
    reveal_strlit("end");
    reveal_strlit(" ");
    lemma_split(s, i, "while "@ + tb + " do "@ + tp, " end"@);
    lemma_split(s, i, "while "@ + tb + " do "@, tp);
    lemma_split(s, i, "while "@ + tb, " do "@);
    lemma_split(s, i, "while "@, tb);
    let i1 = i + 6;
    let i2 = i1 + tb.len();
    let i3 = i2 + 4;
    let i4 = i3 + tp.len();
    assert("while "@ =~= "while"@ + " "@);
    lemma_split(s, i, "while"@, " "@);
    lemma_word(s, i, "while"@, word_while());
    lemma_at_byte(s, i + 5, enc(" "@), 0);
    assert(" do "@ =~= " "@ + "do"@ + " "@);
    lemma_split(s, i2, " "@ + "do"@, " "@);
    lemma_split(s, i2, " "@, "do"@);
    lemma_word(s, i2 + 1, "do"@, word_do());
    lemma_at_byte(s, i2, enc(" "@), 0);
    lemma_at_byte(s, i2 + 3, enc(" "@), 0);
    assert(" end"@ =~= " "@ + "end"@);
    lemma_split(s, i4, " "@, "end"@);
    lemma_word(s, i4 + 1, "end"@, word_end());
    lemma_at_byte(s, i4, enc(" "@), 0);
}

/// Neither `skip` nor an assignment stands where a word stands before a
/// blank and an expression.
#[verifier::rlimit(50)]
#[verifier::spinoff_prover]
proof fn lemma_word_is_no_assignment(s: Seq<u8>, i: int, w: Seq<u8>)
    requires
        0 <= i,
        w.len() > 0,
        i + w.len() + 1 < s.len(),
        at(s, i, w),
        forall|k: int| 0 <= k < w.len() ==> is_letter(#[trigger] w[k]),
        w[0] != 115,
        s[i + w.len()] == 32,
        !is_space(s[i + w.len() + 1]),
        s[i + w.len() + 1] != 58,
    ensures
        keyword(s, i, word_skip()) is None,
        assignment_at(s, i) is None,
{
    lemma_at_byte(s, i, w, 0);
    if at(s, i, word_skip()) {
        lemma_at_byte(s, i, word_skip(), 0);
    }
    assert forall|k: int| 0 <= k < w.len() implies is_letter(#[trigger] s[i + k]) by {
        lemma_at_byte(s, i, w, k);
    }
    lemma_letters_run(s, i, w.len());
    lemma_one_space(s, i + w.len());
    lemma_no_operator(s, i + w.len(), op_assign());
}

/// What the grammar reads where the text of an assignment stands.
#[verifier::rlimit(50)]
#[verifier::spinoff_prover]
proof fn lemma_assignment(s: Seq<u8>, i: int, x: Seq<char>, e: AExpView)
    requires
        is_name(x),
        x != "skip"@,
        canon_aexp(e),
        at(s, i, enc(x + " := "@ + aexp_text(e))),
        halts(s, i + (x + " := "@ + aexp_text(e)).len(), 2),
    ensures
        keyword(s, i, word_skip()) is None,
        assignment_at(s, i) == Some((AtomView::Assign(x, e), i + (x + " := "@ + aexp_text(e)).len())),
{
    reveal_strlit(" := ");
    let te = aexp_text(e);
    lemma_split(s, i, x + " := "@, te);
    lemma_split(s, i, x, " := "@);
    let j = i + x.len();
    lemma_at_byte(s, j, enc(" := "@), 0);
    lemma_at_byte(s, j, enc(" := "@), 1);
    lemma_at_byte(s, j, enc(" := "@), 2);
    lemma_at_byte(s, j, enc(" := "@), 3);
    lemma_aexp_start(e);
    lemma_at_byte(s, j + 4, enc(te), 0);
    lemma_not_skip(s, i, x);
    lemma_name(s, i, x);
    lemma_operator2(s, j, op_assign());
    lemma_aexp(s, j + 4, e);
}

/// The parts of a conditional, one after the other, are a conditional.
proof fn lemma_conditional_parts(
    s: Seq<u8>,
    i: int,
    b: BExpView,
    p: Seq<AtomView>,
    q: Seq<AtomView>,
    at1: int,
    at2: int,
    at3: int,
    at4: int,
    at5: int,
    at6: int,
    end: int,
)
    requires
        opening(s, i, word_if()) == Some(at1),
        bexp_at(s, at1) == Some((b, at2)),
        at1 < at2 <= s.len(),
        spaced_word(s, at2, word_then()) == Some(at3),
        program_at(s, at3) == Some((p, at4)),
        at3 < at4 <= s.len(),
        spaced_word(s, at4, word_else()) == Some(at5),
        program_at(s, at5) == Some((q, at6)),
        at5 < at6 <= s.len(),
        closing(s, at6) == Some(end),
    ensures
        conditional_at(s, i) == Some((AtomView::Cond(b, p, q), end)),
{
    reveal(conditional_at);
}

/// The parts of a loop, one after the other, are a loop.
proof fn lemma_loop_parts(
    s: Seq<u8>,
    i: int,
    b: BExpView,
    p: Seq<AtomView>,
    at1: int,
    at2: int,
    at3: int,
    at4: int,
    end: int,
)
    requires
        opening(s, i, word_while()) == Some(at1),
        bexp_at(s, at1) == Some((b, at2)),
        at1 < at2 <= s.len(),
        spaced_word(s, at2, word_do()) == Some(at3),
        program_at(s, at3) == Some((p, at4)),
        at3 < at4 <= s.len(),
        closing(s, at4) == Some(end),
    ensures
        loop_at(s, i) == Some((AtomView::While(b, p), end)),
{
    reveal(conditional_at);
}

/// A blank before a letter ends what was read before it, whatever that
/// was.
proof fn lemma_halts_before_word(s: Seq<u8>, j: int)
    requires
        0 <= j,
        j + 1 < s.len(),
        s[j] == 32,
        is_letter(s[j + 1]),
    ensures
        halts(s, j, 4),
        operator(s, j, op_semi()) is None,
{
    lemma_one_space(s, j);
    lemma_no_operator(s, j, op_semi());
}

/// The program that the grammar reads where the text of a program stands
/// before a blank and a letter.
proof fn lemma_program_before_word(s: Seq<u8>, i: int, p: Seq<AtomView>)
    requires
        canonical(p),
        at(s, i, enc(prog_text(p))),
        i + prog_text(p).len() + 1 < s.len(),
        s[i + prog_text(p).len()] == 32,
        is_letter(s[i + prog_text(p).len() + 1]),
    ensures
        program_at(s, i) == Some((p, i + prog_text(p).len())),
        prog_text(p).len() > 0,
        !is_space(s[i]),
    decreases p, 3int,
{
    lemma_at_bound(s, i, enc(prog_text(p)));
    lemma_halts_before_word(s, i + prog_text(p).len());
    lemma_program(s, i, p);
    lemma_program_end(s, i + prog_text(p).len(), p);
    lemma_prog_start(p);
    lemma_at_byte(s, i, enc(prog_text(p)), 0);
}

/// The boolean expression that the grammar reads where the text of one
/// stands before a blank and a letter.
proof fn lemma_bexp_before_word(s: Seq<u8>, i: int, b: BExpView)
    requires
        canon_bexp(b),
        at(s, i, enc(bexp_text(b))),
        i + bexp_text(b).len() + 1 < s.len(),
        s[i + bexp_text(b).len()] == 32,
        is_letter(s[i + bexp_text(b).len() + 1]),
    ensures
        bexp_at(s, i) == Some((b, i + bexp_text(b).len())),
        bexp_text(b).len() > 0,
        !is_space(s[i]),
        s[i] != 58,
{
    lemma_at_bound(s, i, enc(bexp_text(b)));
    lemma_halts_before_word(s, i + bexp_text(b).len());
    lemma_bexp(s, i, b);
    lemma_bexp_start(b);
    lemma_at_byte(s, i, enc(bexp_text(b)), 0);
}

/// What the grammar reads where the text of a conditional stands.
#[verifier::rlimit(50)]
#[verifier::spinoff_prover]
proof fn lemma_conditional(s: Seq<u8>, i: int, a: AtomView)
    requires
        a is Cond,
        canon_atom(a),
        at(s, i, enc(atom_text(a))),
        halts(s, i + atom_text(a).len(), 3),
    ensures
        keyword(s, i, word_skip()) is None,
        assignment_at(s, i) is None,
        conditional_at(s, i) == Some((a, i + atom_text(a).len())),
    decreases a, 0int,
{
    let b = a->Cond_0;
    let p = a->Cond_1;
    let q = a->Cond_2;
    let tb = bexp_text(b);
    let tp = prog_text(p);
    let tq = prog_text(q);
    assert(atom_text(a) == "if "@ + tb + " then "@ + tp + " else "@ + tq + " end"@);
    lemma_cond_layout(s, i, tb, tp, tq);
    let i1 = i + 3;
    let i2 = i1 + tb.len();
    let i3 = i2 + 6;
    let i4 = i3 + tp.len();
    let i5 = i4 + 6;
    let i6 = i5 + tq.len();
    lemma_at_byte(s, i2 + 1, word_then(), 0);
    lemma_at_byte(s, i4 + 1, word_else(), 0);
    lemma_at_byte(s, i6 + 1, word_end(), 0);
    lemma_bexp_before_word(s, i1, b);
    lemma_program_before_word(s, i3, p);
    lemma_program_before_word(s, i5, q);
    lemma_word_is_no_assignment(s, i, word_if());
    lemma_opening(s, i, word_if());
    lemma_spaced_word(s, i2, word_then());
    lemma_spaced_word(s, i4, word_else());
    lemma_closing(s, i6);
    lemma_conditional_parts(s, i, b, p, q, i1, i2, i3, i4, i5, i6, i6 + 4);
}

/// No conditional stands where the word `while` stands.
proof fn lemma_no_conditional(s: Seq<u8>, i: int)
    requires
        at(s, i, word_while()),
    ensures
        conditional_at(s, i) is None,
{
    reveal(conditional_at);
    lemma_at_byte(s, i, word_while(), 0);
    if at(s, i, word_if()) {
        lemma_at_byte(s, i, word_if(), 0);
    }
}

/// What the grammar reads where the text of a loop stands.
#[verifier::rlimit(50)]
#[verifier::spinoff_prover]
proof fn lemma_loop(s: Seq<u8>, i: int, a: AtomView)
    requires
        a is While,
        canon_atom(a),
        at(s, i, enc(atom_text(a))),
        halts(s, i + atom_text(a).len(), 3),
    ensures
        keyword(s, i, word_skip()) is None,
        assignment_at(s, i) is None,
        conditional_at(s, i) is None,
        loop_at(s, i) == Some((a, i + atom_text(a).len())),
    decreases a, 0int,
{
    let b = a->While_0;
    let p = a->While_1;
    let tb = bexp_text(b);
    let tp = prog_text(p);
    assert(atom_text(a) == "while "@ + tb + " do "@ + tp + " end"@);
    lemma_loop_layout(s, i, tb, tp);
    let i1 = i + 6;
    let i2 = i1 + tb.len();
    let i3 = i2 + 4;
    let i4 = i3 + tp.len();
    lemma_at_byte(s, i2 + 1, word_do(), 0);
    lemma_at_byte(s, i4 + 1, word_end(), 0);
    lemma_bexp_before_word(s, i1, b);
    lemma_program_before_word(s, i3, p);
    lemma_word_is_no_assignment(s, i, word_while());
    lemma_no_conditional(s, i);
    lemma_opening(s, i, word_while());
    lemma_spaced_word(s, i2, word_do());
    lemma_closing(s, i4);
    lemma_loop_parts(s, i, b, p, i1, i2, i3, i4, i4 + 4);
}

/// The statement at a position is the first of `skip`, an assignment, a
/// conditional and a loop that stands there.
proof fn lemma_statement_parts(s: Seq<u8>, i: int)
    ensures
        statement_at(s, i) == match keyword(s, i, word_skip()) {
            Some(j) => Some((AtomView::Skip, j)),
            None => match assignment_at(s, i) {
                Some(r) => Some(r),
                None => match conditional_at(s, i) {
                    Some(r) => Some(r),
                    None => loop_at(s, i),
                },
            },
        },
{
    reveal(conditional_at);
}

/// The program at a position starts with the statement there.
proof fn lemma_program_parts(s: Seq<u8>, i: int, a: AtomView, j: int)
    requires
        statement_at(s, i) == Some((a, j)),
        i < j <= s.len(),
    ensures
        program_at(s, i) == program_rest(s, j, seq![a]),
{
    reveal(conditional_at);
}

/// The statements after a `;` go on a program.
proof fn lemma_program_step(s: Seq<u8>, j: int, acc: Seq<AtomView>, k: int, a: AtomView, m: int)
    requires
        operator(s, j, op_semi()) == Some(k),
        statement_at(s, k) == Some((a, m)),
        k < m <= s.len(),
    ensures
        program_rest(s, j, acc) == program_rest(s, m, acc.push(a)),
{
    reveal(conditional_at);
}

/// A program ends where no `;` follows.
proof fn lemma_program_end(s: Seq<u8>, j: int, acc: Seq<AtomView>)
    requires
        operator(s, j, op_semi()) is None,
    ensures
        program_rest(s, j, acc) == Some((acc, j)),
{
    reveal(conditional_at);
}

/// What the grammar reads where the text of a statement stands.
#[verifier::rlimit(50)]
#[verifier::spinoff_prover]
proof fn lemma_statement(s: Seq<u8>, i: int, a: AtomView)
    requires
        canon_atom(a),
        at(s, i, enc(atom_text(a))),
        halts(s, i + atom_text(a).len(), 3),
    ensures
        statement_at(s, i) == Some((a, i + atom_text(a).len())),
    decreases a, 1int,
{
    lemma_statement_parts(s, i);
    match a {
        AtomView::Skip => {
            reveal_strlit("skip");
            lemma_word(s, i, "skip"@, word_skip());
        },
        AtomView::Assign(x, e) => {
            lemma_assignment(s, i, x, e);
        },
        AtomView::Cond(b, p, q) => {
            lemma_conditional(s, i, a);
        },
        AtomView::While(b, p) => {
            lemma_loop(s, i, a);
        },
    }
}

/// Where the two parts of a text with `; ` between them stand, and that
/// the separator is read between them.
#[verifier::rlimit(50)]
#[verifier::spinoff_prover]
proof fn lemma_sequence_layout(s: Seq<u8>, i: int, tr: Seq<char>, ta: Seq<char>)
    requires
        at(s, i, enc(tr + "; "@ + ta)),
        ta.len() > 0,
        !is_space(enc(ta)[0]),
    ensures
        at(s, i, enc(tr)),
        at(s, i + tr.len() + 2, enc(ta)),
        (tr + "; "@ + ta).len() == tr.len() + 2 + ta.len(),
        halts(s, i + tr.len(), 3),
        operator(s, i + tr.len(), op_semi()) == Some(i + tr.len() + 2),
        0 <= i,
        i + tr.len() + 2 + ta.len() <= s.len(),
{
    reveal_strlit("; ");
    lemma_split(s, i, tr + "; "@, ta);
    lemma_split(s, i, tr, "; "@);
    let j = i + tr.len();
    lemma_at_byte(s, j, enc("; "@), 0);
    lemma_at_byte(s, j, enc("; "@), 1);
    lemma_at_byte(s, j + 2, enc(ta), 0);
    lemma_at_bound(s, i, enc(tr));
    lemma_at_bound(s, j + 2, enc(ta));
    lemma_no_space(s, j);
    lemma_one_space(s, j + 1);
    assert(at(s, j, op_semi())) by {
        assert(s[j + 0] == op_semi()[0]);
        lemma_at_bytes(s, j, op_semi());
    }
}

/// What the grammar reads where the text of a program stands.
#[verifier::rlimit(50)]
#[verifier::spinoff_prover]
proof fn lemma_program(s: Seq<u8>, i: int, p: Seq<AtomView>)
    requires
        canonical(p),
        at(s, i, enc(prog_text(p))),
        halts(s, i + prog_text(p).len(), 3),
    ensures
        program_at(s, i) == program_rest(s, i + prog_text(p).len(), p),
    decreases p, 2int,
{
    let end = i + prog_text(p).len();
    lemma_at_bound(s, i, enc(prog_text(p)));
    if p.len() == 1 {
        lemma_atom_start(p[0]);
        lemma_statement(s, i, p[0]);
        lemma_program_parts(s, i, p[0], end);
        assert(seq![p[0]] =~= p);
    } else {
        let rest = p.drop_last();
        let tr = prog_text(rest);
        let ta = atom_text(p.last());
        assert(prog_text(p) == tr + "; "@ + ta);
        lemma_atom_start(p.last());
        lemma_sequence_layout(s, i, tr, ta);
        let j = i + tr.len();
        lemma_program(s, i, rest);
        lemma_statement(s, j + 2, p.last());
        lemma_program_step(s, j, rest, j + 2, p.last(), end);
        assert(rest.push(p.last()) =~= p);
    }
}

/// Whether a text has characters of one byte only, none of them a `#`,
/// and ends with a character that is no white space.
pub open spec fn clean(t: Seq<char>) -> bool {
    &&& t.len() > 0
    &&& forall|k: int| 0 <= k < t.len() ==> (#[trigger] t[k]) as int <= 127 && t[k] != '#'
    &&& !is_blank(t.last() as u8)
}

/// Whether a text has characters of one byte only, none of them a `#`.
pub open spec fn plain(t: Seq<char>) -> bool {
    forall|k: int| 0 <= k < t.len() ==> (#[trigger] t[k]) as int <= 127 && t[k] != '#'
}

/// A clean text after a plain text is clean.
proof fn lemma_clean_concat(a: Seq<char>, b: Seq<char>)
    requires
        plain(a) || clean(a),
        clean(b),
    ensures
        clean(a + b),
{
    assert((a + b).last() == b.last());
    assert forall|k: int| 0 <= k < (a + b).len() implies (#[trigger] (a + b)[k]) as int <= 127 && (a + b)[k]
        != '#' by {
        if k < a.len() {
            assert((a + b)[k] == a[k]);
        } else {
            assert((a + b)[k] == b[k - a.len()]);
        }
    }
}

/// The digits of a number are a clean text.
proof fn lemma_nat_clean(n: nat)
    ensures
        clean(nat_text(n)),
{
    lemma_nat_text_first(n);
    let t = nat_text(n);
    assert(is_digit(t[t.len() - 1] as u8));
    assert forall|k: int| 0 <= k < t.len() implies (#[trigger] t[k]) as int <= 127 && t[k] != '#' by {
        assert(is_digit(t[k] as u8));
        lemma_char_byte(t[k]);
    }
    lemma_char_byte(t.last());
}

/// A name is a clean text.
proof fn lemma_name_clean(x: Seq<char>)
    requires
        is_name(x),
    ensures
        clean(x),
{
    assert forall|k: int| 0 <= k < x.len() implies (#[trigger] x[k]) as int <= 127 && x[k] != '#' by {
        assert(is_letter(x[k] as u8));
        lemma_char_byte(x[k]);
    }
    assert(is_letter(x[x.len() - 1] as u8));
    lemma_char_byte(x.last());
}

/// A plain text before a plain text and a clean text gives a clean text.
proof fn lemma_clean_join(a: Seq<char>, lit: Seq<char>, b: Seq<char>)
    requires
        plain(a) || clean(a),
        plain(lit),
        clean(b),
    ensures
        clean(a + lit + b),
{
    lemma_clean_concat(lit, b);
    lemma_clean_concat(a, lit + b);
    assert(a + (lit + b) =~= a + lit + b);
}

/// The words and operators of the texts are plain.
proof fn lemma_plain_words()
    ensures
        plain("("@),
        clean(")"@),
        plain(" + "@),
        plain("*"@),
        plain(" <= "@),
        plain("!"@),
        plain(" && "@),
        plain(" || "@),
        clean("skip"@),
        plain(" := "@),
        plain("if "@),
        plain(" then "@),
        plain(" else "@),
        clean(" end"@),
        plain("while "@),
        plain(" do "@),
        plain("; "@),
        plain(seq!['-']),
        plain(Seq::<char>::empty()),
{
    reveal_strlit("(");
    reveal_strlit(")");
    reveal_strlit(" + ");
    reveal_strlit("*");
    reveal_strlit(" <= ");
    reveal_strlit("!");
    reveal_strlit(" && ");
    reveal_strlit(" || ");
    reveal_strlit("skip");
    reveal_strlit(" := ");
    reveal_strlit("if ");
    reveal_strlit(" then ");
    reveal_strlit(" else ");
    reveal_strlit(" end");
    reveal_strlit("while ");
    reveal_strlit(" do ");
    reveal_strlit("; ");
}

/// The text of an arithmetic expression is clean.
proof fn lemma_sum_clean(e: AExpView, place: Place)
    requires
        canon(e, place),
    ensures
        clean(aexp_text(e)),
        clean(factor_text(e)),
    decreases e,
{
    lemma_plain_words();
    match e {
        AExpView::Num(n) => {
            lemma_nat_clean(n as nat);
        },
        AExpView::Var(x) => {
            lemma_name_clean(x);
        },
        AExpView::Add(l, r) => {
            lemma_sum_clean(*l, Place::Sum);
            lemma_sum_clean(*r, Place::Term);
            lemma_clean_join(aexp_text(*l), " + "@, aexp_text(*r));
            lemma_clean_join(Seq::<char>::empty(), "("@, aexp_text(e));
            assert(Seq::<char>::empty() + "("@ + aexp_text(e) =~= "("@ + aexp_text(e));
            lemma_clean_concat("("@ + aexp_text(e), ")"@);
        },
        AExpView::Mul(l, r) => {
            lemma_sum_clean(*l, Place::Left);
            lemma_sum_clean(*r, Place::Right);
            lemma_clean_join(factor_text(*l), "*"@, factor_text(*r));
        },
    }
}

/// The text of an arithmetic expression is clean.
proof fn lemma_aexp_clean(e: AExpView)
    requires
        canon_aexp(e),
    ensures
        clean(aexp_text(e)),
{
    lemma_plain_words();
    if e matches AExpView::Num(w) && w < 0 {
        let v = e->Num_0;
        lemma_nat_clean((-v) as nat);
        lemma_clean_concat(seq!['-'], nat_text((-v) as nat));
    } else {
        lemma_sum_clean(e, Place::Sum);
    }
}

/// The text of a boolean expression is clean.
proof fn lemma_bexp_clean(b: BExpView)
    requires
        canon_bexp(b),
    ensures
        clean(bexp_text(b)),
    decreases b,
{
    lemma_plain_words();
    match b {
        BExpView::LessEq(l, r) => {
            lemma_aexp_clean(l);
            lemma_aexp_clean(r);
            lemma_clean_join(aexp_text(l), " <= "@, aexp_text(r));
        },
        BExpView::Neg(c) => {
            lemma_bexp_clean(*c);
            lemma_clean_concat("!"@, bexp_text(*c));
        },
        BExpView::And(l, r) => {
            lemma_bexp_clean(*l);
            lemma_bexp_clean(*r);
            lemma_clean_join(bexp_text(*l), " && "@, bexp_text(*r));
        },
        BExpView::Or(l, r) => {
            lemma_bexp_clean(*l);
            lemma_bexp_clean(*r);
            lemma_clean_join(bexp_text(*l), " || "@, bexp_text(*r));
        },
    }
}

/// The text of a statement is clean.
proof fn lemma_atom_clean(a: AtomView)
    requires
        canon_atom(a),
    ensures
        clean(atom_text(a)),
    decreases a, 0int,
{
    lemma_plain_words();
    match a {
        AtomView::Skip => {},
        AtomView::Assign(x, e) => {
            lemma_name_clean(x);
            lemma_aexp_clean(e);
            lemma_clean_join(x, " := "@, aexp_text(e));
        },
        AtomView::Cond(b, p, q) => {
            lemma_bexp_clean(b);
            lemma_prog_clean(p);
            lemma_prog_clean(q);
            let t1 = "if "@ + bexp_text(b);
            lemma_clean_concat("if "@, bexp_text(b));
            lemma_clean_join(t1, " then "@, prog_text(p));
            let t2 = t1 + " then "@ + prog_text(p);
            lemma_clean_join(t2, " else "@, prog_text(q));
            lemma_clean_concat(t2 + " else "@ + prog_text(q), " end"@);
        },
        AtomView::While(b, p) => {
            lemma_bexp_clean(b);
            lemma_prog_clean(p);
            let t1 = "while "@ + bexp_text(b);
            lemma_clean_concat("while "@, bexp_text(b));
            lemma_clean_join(t1, " do "@, prog_text(p));
            lemma_clean_concat(t1 + " do "@ + prog_text(p), " end"@);
        },
    }
}

/// The text of a program is clean.
proof fn lemma_prog_clean(p: Seq<AtomView>)
    requires
        canonical(p),
    ensures
        clean(prog_text(p)),
    decreases p, 1int,
{
    lemma_plain_words();
    if p.len() == 1 {
        lemma_atom_clean(p[0]);
    } else {
        lemma_prog_clean(p.drop_last());
        lemma_atom_clean(p.last());
        lemma_clean_join(prog_text(p.drop_last()), "; "@, atom_text(p.last()));
    }
}

/// A text without `#` has no comments.
proof fn lemma_no_comments(s: Seq<u8>, i: int)
    requires
        0 <= i <= s.len(),
        forall|k: int| 0 <= k < s.len() ==> #[trigger] s[k] != 35,
    ensures
        uncomment(s, i, false) == s.subrange(i, s.len() as int),
    decreases s.len() - i,
{
    if i < s.len() {
        lemma_no_comments(s, i + 1);
        assert(seq![s[i]] + s.subrange(i + 1, s.len() as int) =~= s.subrange(i, s.len() as int));
    } else {
        assert(s.subrange(i, s.len() as int) =~= Seq::<u8>::empty());
    }
}

/// The text of a program that is read back as written stands for the
/// program: parsing the text gives the program.
#[verifier::rlimit(50)]
#[verifier::spinoff_prover]
pub proof fn lemma_round_trip(p: Seq<AtomView>)
    requires
        canonical(p),
    ensures
        parsed(enc(prog_text(p))) == Ok::<Seq<AtomView>, ParseErrorView>(p),
{
    let t = prog_text(p);
    let s = enc(t);
    lemma_prog_clean(p);
    lemma_prog_start(p);
    assert forall|k: int| 0 <= k < s.len() implies #[trigger] s[k] != 35 by {
        assert(t[k] as int <= 127 && t[k] != '#');
        lemma_char_byte(t[k]);
    }
    lemma_no_comments(s, 0);
    assert(s.subrange(0, s.len() as int) =~= s);
    assert(uncomment(s, 0, false) == s);
    assert(white_at(s, 0) == 0);
    assert(blanks(s, 0) == 0);
    assert(white_before(s, 0, s.len() as int) == 0) by {
        assert(s[s.len() - 1] == t.last() as u8);
        assert(t[t.len() - 1] as int <= 127);
        lemma_char_byte(t.last());
    }
    assert(blanks_before(s, 0, s.len() as int) == 0);
    assert(trim(s) =~= s);
    assert(source(s) == s);
    lemma_at_bytes(s, 0, s);
    lemma_program(s, 0, p);
    lemma_no_operator(s, s.len() as int, op_semi());
    lemma_program_end(s, s.len() as int, p);
}

/// The text of a program that is read back as written, encoded as a
/// string encodes it, stands for the program.
pub proof fn lemma_parse_text(p: Seq<AtomView>)
    requires
        canonical(p),
    ensures
        parsed(vstd::utf8::encode_utf8(prog_text(p))) == Ok::<Seq<AtomView>, ParseErrorView>(p),
{
    let t = prog_text(p);
    lemma_prog_clean(p);
    assert(vstd::utf8::is_ascii_chars(t)) by {
        assert forall|i: int| 0 <= i < t.len() implies '\0' <= #[trigger] t[i] <= '\u{7f}' by {
            let c = t[i];
            assert(c as int <= 127);
            lemma_char_byte(c);
        }
    }
    vstd::utf8::is_ascii_chars_encode_utf8(t);
    assert(vstd::utf8::encode_utf8(t) =~= enc(t));
    lemma_round_trip(p);
}

} // verus!
