//! Rendering to the canonical infix text form: a leading minus only when the
//! first coefficient is negative, plus or minus separators before later
//! terms, the absolute coefficient omitted when it is one unless the term is
//! constant, each factor as its base with a power marker when the power is
//! not one, and parenthesized sub-expressions unless they are bare symbols.
use vstd::prelude::*;
use vstd::string::StringExecFns;

use crate::model::{Base, BaseS, Factor, FactorS, Mono, MonoS, Poly, PolyS};
use crate::model::{lemma_view_factors, lemma_view_monos, view_factors, view_monos};
use crate::poly::poly_is_symbol;

verus! {

broadcast use vstd::seq::group_seq_axioms, vstd::std_specs::vec::group_vec_axioms;

/// The character of one decimal digit.
pub open spec fn digit_char(d: int) -> char {
    if d == 0 {
        '0'
    } else if d == 1 {
        '1'
    } else if d == 2 {
        '2'
    } else if d == 3 {
        '3'
    } else if d == 4 {
        '4'
    } else if d == 5 {
        '5'
    } else if d == 6 {
        '6'
    } else if d == 7 {
        '7'
    } else if d == 8 {
        '8'
    } else {
        '9'
    }
}

/// The decimal digits of a nonnegative number, most significant first.
pub open spec fn dec_digits(n: int) -> Seq<char>
    decreases n,
    when n >= 0
{
    if n < 10 {
        seq![digit_char(n)]
    } else {
        dec_digits(n / 10).push(digit_char(n % 10))
    }
}

/// The decimal form of a number, with a leading minus when negative.
pub open spec fn dec_int(n: int) -> Seq<char> {
    if n < 0 {
        seq!['-'] + dec_digits(-n)
    } else {
        dec_digits(n)
    }
}

/// The absolute value of a coefficient, as a mathematical integer.
pub open spec fn abs_coeff(c: i32) -> int {
    if c >= 0 {
        c as int
    } else {
        -(c as int)
    }
}

/// How a base prints: a symbol as its name; a derived term as its function
/// name followed by its parameter, parenthesized unless the parameter is a
/// bare symbol; a nested polynomial bare if it is a bare symbol, else
/// parenthesized.
pub open spec fn render_base(b: BaseS) -> Seq<char>
    decreases b,
{
    match b {
        BaseS::Sym { name } => name,
        BaseS::Der { func, param } => func + (if poly_is_symbol(param) {
            render_poly(param)
        } else {
            seq!['('] + render_poly(param) + seq![')']
        }),
        BaseS::Poly { poly } => if poly_is_symbol(poly) {
            render_poly(poly)
        } else {
            seq!['('] + render_poly(poly) + seq![')']
        },
    }
}

/// How a factor prints: its base, followed by a power marker when the power
/// is not one.
pub open spec fn render_factor(f: FactorS) -> Seq<char>
    decreases f,
{
    render_base(f.base) + (if f.power == 1 {
        Seq::<char>::empty()
    } else {
        seq!['^'] + dec_int(f.power as int)
    })
}

/// The factors of a term, printed in order with nothing between them.
pub open spec fn render_factors(s: Seq<FactorS>) -> Seq<char>
    decreases s,
{
    if s.len() == 0 {
        Seq::empty()
    } else {
        render_factor(s[0]) + render_factors(s.drop_first())
    }
}

/// How one term prints: its sign (a bare leading minus on a negative first
/// term, a plus or minus separator later), its absolute coefficient unless
/// that is one and factors follow, then its factors.
pub open spec fn render_term(m: MonoS, first: bool) -> Seq<char>
    decreases m,
{
    (if first {
        if m.coeff < 0 {
            seq!['-', ' ']
        } else {
            Seq::<char>::empty()
        }
    } else {
        if m.coeff > 0 {
            seq![' ', '+', ' ']
        } else {
            seq![' ', '-', ' ']
        }
    }) + (if abs_coeff(m.coeff) != 1 || m.factors.len() == 0 {
        dec_digits(abs_coeff(m.coeff))
    } else {
        Seq::<char>::empty()
    }) + render_factors(m.factors)
}

/// The terms of a polynomial, printed in order.
pub open spec fn render_terms(ts: Seq<MonoS>, first: bool) -> Seq<char>
    decreases ts,
{
    if ts.len() == 0 {
        Seq::empty()
    } else {
        render_term(ts[0], first) + render_terms(ts.drop_first(), false)
    }
}

/// How a polynomial prints.
pub open spec fn render_poly(p: PolyS) -> Seq<char>
    decreases p,
{
    render_terms(p.terms, true)
}

/// Appends the decimal digits of a nonnegative number.
fn digits_push(out: &mut String, n: i64)
    requires
        n >= 0,
    ensures
        final(out)@ == old(out)@ + dec_digits(n as int),
    decreases n,
{
    if n >= 10 {
        proof {
            assert(n / 10 < n) by (nonlinear_arith)
                requires
                    n >= 10,
            ;
        }
        digits_push(out, n / 10);
    }
    let d = n % 10;
    let ds: &str = if d == 0 {
        "0"
    } else if d == 1 {
        "1"
    } else if d == 2 {
        "2"
    } else if d == 3 {
        "3"
    } else if d == 4 {
        "4"
    } else if d == 5 {
        "5"
    } else if d == 6 {
        "6"
    } else if d == 7 {
        "7"
    } else if d == 8 {
        "8"
    } else {
        "9"
    };
    proof {
        reveal_strlit("0");
        reveal_strlit("1");
        reveal_strlit("2");
        reveal_strlit("3");
        reveal_strlit("4");
        reveal_strlit("5");
        reveal_strlit("6");
        reveal_strlit("7");
        reveal_strlit("8");
        reveal_strlit("9");
        assert(ds@ =~= seq![digit_char(n as int % 10)]);
    }
    out.append(ds);
    proof {
        if n < 10 {
            assert(final(out)@ =~= old(out)@ + dec_digits(n as int));
        } else {
            assert(final(out)@ =~= old(out)@ + dec_digits(n as int));
        }
    }
}

impl Base {
    /// The text form of this base.
    pub fn render(&self) -> (r: String)
        ensures
            r@ == render_base(self@),
        decreases *self, 0int,
    {
        match self {
            Base::Sym(sy) => sy.name.clone(),
            Base::Der(d) => {
                let mut out = d.func.clone();
                if d.param.is_symbol() {
                    let inner = d.param.render();
                    out.append(inner.as_str());
                } else {
                    let inner = d.param.render();
                    proof {
                        reveal_strlit("(");
                        reveal_strlit(")");
                        assert("("@ =~= seq!['(']);
                        assert(")"@ =~= seq![')']);
                    }
                    out.append("(");
                    out.append(inner.as_str());
                    out.append(")");
                }
                proof {
                    assert(out@ =~= render_base(self@));
                }
                out
            },
            Base::Poly(p) => {
                let mut out = String::new();
                if p.is_symbol() {
                    let inner = p.render();
                    out.append(inner.as_str());
                } else {
                    let inner = p.render();
                    proof {
                        reveal_strlit("(");
                        reveal_strlit(")");
                        assert("("@ =~= seq!['(']);
                        assert(")"@ =~= seq![')']);
                    }
                    out.append("(");
                    out.append(inner.as_str());
                    out.append(")");
                }
                proof {
                    assert(out@ =~= render_base(self@));
                }
                out
            },
        }
    }
}

impl Factor {
    /// The text form of this factor.
    pub fn render(&self) -> (r: String)
        ensures
            r@ == render_factor(self@),
        decreases *self, 0int,
    {
        let mut out = self.base.render();
        if self.power != 1 {
            proof {
                reveal_strlit("^");
                reveal_strlit("-");
                assert("^"@ =~= seq!['^']);
                assert("-"@ =~= seq!['-']);
            }
            out.append("^");
            if self.power < 0 {
                out.append("-");
                digits_push(&mut out, -(self.power as i64));
            } else {
                digits_push(&mut out, self.power as i64);
            }
            proof {
                assert(out@ =~= render_factor(self@));
            }
        } else {
            proof {
                assert(out@ =~= render_factor(self@));
            }
        }
        out
    }
}

/// Appends the factors from position `k` on.
fn render_factors_push(out: &mut String, v: &Vec<Factor>, k: usize)
    requires
        k <= v@.len(),
    ensures
        final(out)@ == old(out)@ + render_factors(view_factors(v@).skip(k as int)),
    decreases v@, v@.len() - k,
{
    let ghost s = view_factors(v@);
    proof {
        lemma_view_factors(v@);
    }
    if k == v.len() {
        proof {
            assert(s.skip(k as int).len() == 0);
            assert(final(out)@ =~= old(out)@ + render_factors(s.skip(k as int)));
        }
        return ;
    }
    proof {
        assert(s.skip(k as int)[0] == s[k as int]);
        assert(s.skip(k as int).drop_first() =~= s.skip(k + 1));
        assert(decreases_to!(v@ => v@[k as int]));
    }
    let piece = v[k].render();
    out.append(piece.as_str());
    render_factors_push(out, v, k + 1);
    proof {
        assert(final(out)@ =~= old(out)@ + render_factors(s.skip(k as int)));
    }
}

/// Appends the terms from position `k` on.
fn render_terms_push(out: &mut String, v: &Vec<Mono>, k: usize, first: bool)
    requires
        k <= v@.len(),
    ensures
        final(out)@ == old(out)@ + render_terms(view_monos(v@).skip(k as int), first),
    decreases v@, v@.len() - k,
{
    let ghost s = view_monos(v@);
    proof {
        lemma_view_monos(v@);
    }
    if k == v.len() {
        proof {
            assert(s.skip(k as int).len() == 0);
            assert(final(out)@ =~= old(out)@ + render_terms(s.skip(k as int), first));
        }
        return ;
    }
    proof {
        assert(s.skip(k as int)[0] == s[k as int]);
        assert(s.skip(k as int).drop_first() =~= s.skip(k + 1));
        lemma_view_factors(v@[k as int].factors@);
        reveal_strlit("- ");
        reveal_strlit(" + ");
        reveal_strlit(" - ");
        assert("- "@ =~= seq!['-', ' ']);
        assert(" + "@ =~= seq![' ', '+', ' ']);
        assert(" - "@ =~= seq![' ', '-', ' ']);
    }
    let ghost m = s[k as int];
    let ghost sign_part: Seq<char> = if first {
        if m.coeff < 0 {
            seq!['-', ' ']
        } else {
            Seq::<char>::empty()
        }
    } else {
        if m.coeff > 0 {
            seq![' ', '+', ' ']
        } else {
            seq![' ', '-', ' ']
        }
    };
    let ghost coeff_part: Seq<char> = if abs_coeff(m.coeff) != 1 || m.factors.len() == 0 {
        dec_digits(abs_coeff(m.coeff))
    } else {
        Seq::<char>::empty()
    };
    let ghost o0 = out@;
    let c = v[k].coeff;
    if first {
        if c < 0 {
            out.append("- ");
        }
    } else {
        if c > 0 {
            out.append(" + ");
        } else {
            out.append(" - ");
        }
    }
    proof {
        assert(out@ =~= o0 + sign_part);
    }
    let ghost o1 = out@;
    let mag: i64 = if c >= 0 {
        c as i64
    } else {
        -(c as i64)
    };
    if mag != 1 || v[k].factors.len() == 0 {
        digits_push(out, mag);
    }
    proof {
        assert(mag as int == abs_coeff(m.coeff));
        assert(out@ =~= o1 + coeff_part);
    }
    let ghost o2 = out@;
    proof {
        assert(decreases_to!(v@ => v@[k as int]));
        assert(decreases_to!(v@[k as int] => v@[k as int].factors));
        assert(decreases_to!(v@[k as int].factors => v@[k as int].factors@));
    }
    render_factors_push(out, &v[k].factors, 0);
    proof {
        assert(view_factors(v@[k as int].factors@).skip(0) =~= view_factors(
            v@[k as int].factors@,
        ));
        assert(out@ == o2 + render_factors(m.factors));
        assert(out@ =~= o0 + render_term(m, first));
    }
    let ghost o3 = out@;
    render_terms_push(out, v, k + 1, false);
    proof {
        assert(final(out)@ == o3 + render_terms(s.skip(k + 1), false));
        assert(final(out)@ =~= old(out)@ + (render_term(m, first) + render_terms(
            s.skip(k + 1),
            false,
        )));
        assert(final(out)@ =~= old(out)@ + render_terms(s.skip(k as int), first));
    }
}

impl Poly {
    /// The text form of this polynomial.
    pub fn render(&self) -> (r: String)
        ensures
            r@ == render_poly(self@),
        decreases *self, 0int,
    {
        let mut out = String::new();
        proof {
            assert(decreases_to!(*self => self.terms));
            assert(decreases_to!(self.terms => self.terms@));
        }
        render_terms_push(&mut out, &self.terms, 0, true);
        proof {
            assert(view_monos(self.terms@).skip(0) =~= view_monos(self.terms@));
        }
        out
    }
}

} // verus!
