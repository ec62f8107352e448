use vstd::prelude::*;

use crate::differentiation::{chalf, derivative_tree, rc};
use crate::expr::{node, Elementary};
use crate::number::Number;
use crate::series::{
    derivative_values, simplified_as, taylor_sum, tree_result, SeriesExpansion, MAX_ORDER,
};
use crate::simplify::{agree_on_probes, simplified_result};
use crate::Error;
use vstd::string::StringSliceAdditionalSpecFns;

verus! {

/// A function of one real variable, owning its expression.
#[derive(Debug)]
pub struct Function {
    pub func: Elementary,
}

impl Function {
    /// The identity `f(x) = x`.
    pub fn identity() -> (r: Function)
        ensures
            r.func == Elementary::X,
    {
        Function { func: Elementary::X }
    }

    pub fn from_elementary(func: Elementary) -> (r: Function)
        ensures
            r.func == func,
    {
        Function { func }
    }

    /// Parses a function from text.
    pub fn parse(text: &str) -> (r: Result<Function, Error>)
        ensures
            r matches Ok(f) ==> f.func.wf(),
            r matches Err(e) ==> e is ParseError,
            match r {
                Ok(f) => crate::parse::parsed(crate::parse::normalized(text.spec_bytes())) == Some(
                    f.func,
                ),
                Err(_) => crate::parse::parsed(crate::parse::normalized(text.spec_bytes())) is None,
            },
    {
        let func = crate::parse::parse(text)?;
        Ok(Function { func })
    }

    /// The expression.
    pub fn elementary(&self) -> (r: Elementary)
        ensures
            r == self.func,
    {
        self.func.clone()
    }

    /// Replaces the function by its simplified derivative; on failure it
    /// stays as it was.
    pub fn differentiate(&mut self) -> (r: Result<(), Error>)
        requires
            old(self).func.wf(),
        ensures
            r is Ok ==> final(self).func.wf() && agree_on_probes(
                derivative_tree(old(self).func),
                final(self).func,
            ),
            r is Err ==> final(self).func == old(self).func,
            simplified_result(
                derivative_tree(old(self).func),
                match r {
                    Ok(_) => Ok::<Elementary, Error>(final(self).func),
                    Err(e) => Err(e),
                },
            ),
    {
        let d = self.func.derivative()?;
        self.func = d;
        Ok(())
    }

    /// The Taylor expansion of order `order` centred at `a`.
    pub fn get_taylor_expansion(&self, order: u8, a: Number) -> (r: Result<SeriesExpansion, Error>)
        requires
            self.func.wf(),
            a.wf(),
        ensures
            order > MAX_ORDER ==> r is Err,
            derivative_values(self.func, a.ratio(), order as nat + 1) is None ==> r is Err,
            order <= MAX_ORDER && derivative_values(self.func, a.ratio(), order as nat + 1) is Some
                ==> simplified_result(
                taylor_sum(
                    derivative_values(self.func, a.ratio(), order as nat + 1)->0,
                    a.ratio(),
                    order as nat + 1,
                ),
                tree_result(r),
            ),
            r matches Ok(s) ==> s is Taylor && s.tree().wf() && derivative_values(
                self.func,
                a.ratio(),
                order as nat + 1,
            ) is Some && simplified_as(
                s.tree(),
                taylor_sum(
                    derivative_values(self.func, a.ratio(), order as nat + 1)->0,
                    a.ratio(),
                    order as nat + 1,
                ),
            ),
    {
        self.func.expand_taylor(order, a)
    }

    /// Replaces the function by its Taylor expansion; on failure it stays as
    /// it was.
    pub fn as_taylor_expansion(&mut self, order: u8, a: Number) -> (r: Result<(), Error>)
        requires
            old(self).func.wf(),
            a.wf(),
        ensures
            order > MAX_ORDER ==> r is Err,
            r is Ok ==> final(self).func.wf(),
            r is Err ==> final(self).func == old(self).func,
            order <= MAX_ORDER && derivative_values(old(self).func, a.ratio(), order as nat + 1)
                is Some ==> simplified_result(
                taylor_sum(
                    derivative_values(old(self).func, a.ratio(), order as nat + 1)->0,
                    a.ratio(),
                    order as nat + 1,
                ),
                match r {
                    Ok(_) => Ok::<Elementary, Error>(final(self).func),
                    Err(e) => Err(e),
                },
            ),
    {
        let s = self.func.expand_taylor(order, a)?;
        self.func = s.get_elementary();
        Ok(())
    }
}

impl Default for Function {
    /// The identity `f(x) = x`.
    fn default() -> (r: Function)
        ensures
            r.func == Elementary::X,
    {
        Function { func: Elementary::X }
    }
}

impl SeriesExpansion {
    /// The expansion as a function.
    pub fn get_function(self) -> (r: Function)
        ensures
            r.func == self.tree(),
    {
        Function { func: self.get_elementary() }
    }
}

impl Elementary {
    /// The derivative, simplified.
    pub fn derivative(&self) -> (r: Result<Elementary, Error>)
        requires
            self.wf(),
        ensures
            r matches Ok(t) ==> t.wf() && agree_on_probes(derivative_tree(*self), t),
            simplified_result(derivative_tree(*self), r),
    {
        proof {
            crate::differentiation::lemma_derivative_wf(*self);
        }
        self.differentiate().simplify()
    }
}

/// The unsimplified derivative of a function.
pub fn derivative_of(input_func: &Function) -> (r: Function)
    ensures
        r.func == derivative_tree(input_func.func),
{
    Function { func: input_func.func.differentiate() }
}

/// `sin(f)`
pub fn sin(func: Function) -> (r: Function)
    ensures
        r.func == Elementary::Sin(rc(func.func)),
{
    Function { func: Elementary::Sin(node(func.func)) }
}

/// `cos(f)`
pub fn cos(func: Function) -> (r: Function)
    ensures
        r.func == Elementary::Cos(rc(func.func)),
{
    Function { func: Elementary::Cos(node(func.func)) }
}

/// `tan(f)`
pub fn tan(func: Function) -> (r: Function)
    ensures
        r.func == Elementary::Tan(rc(func.func)),
{
    Function { func: Elementary::Tan(node(func.func)) }
}

/// `sec(f)`
pub fn sec(func: Function) -> (r: Function)
    ensures
        r.func == Elementary::Sec(rc(func.func)),
{
    Function { func: Elementary::Sec(node(func.func)) }
}

/// `csc(f)`
pub fn csc(func: Function) -> (r: Function)
    ensures
        r.func == Elementary::Csc(rc(func.func)),
{
    Function { func: Elementary::Csc(node(func.func)) }
}

/// `cot(f)`
pub fn cot(func: Function) -> (r: Function)
    ensures
        r.func == Elementary::Cot(rc(func.func)),
{
    Function { func: Elementary::Cot(node(func.func)) }
}

/// `asin(f)`
pub fn asin(func: Function) -> (r: Function)
    ensures
        r.func == Elementary::Asin(rc(func.func)),
{
    Function { func: Elementary::Asin(node(func.func)) }
}

/// `acos(f)`
pub fn acos(func: Function) -> (r: Function)
    ensures
        r.func == Elementary::Acos(rc(func.func)),
{
    Function { func: Elementary::Acos(node(func.func)) }
}

/// `atan(f)`
pub fn atan(func: Function) -> (r: Function)
    ensures
        r.func == Elementary::Atan(rc(func.func)),
{
    Function { func: Elementary::Atan(node(func.func)) }
}

/// `sinh(f)`
pub fn sinh(func: Function) -> (r: Function)
    ensures
        r.func == Elementary::Sinh(rc(func.func)),
{
    Function { func: Elementary::Sinh(node(func.func)) }
}

/// `cosh(f)`
pub fn cosh(func: Function) -> (r: Function)
    ensures
        r.func == Elementary::Cosh(rc(func.func)),
{
    Function { func: Elementary::Cosh(node(func.func)) }
}

/// `tanh(f)`
pub fn tanh(func: Function) -> (r: Function)
    ensures
        r.func == Elementary::Tanh(rc(func.func)),
{
    Function { func: Elementary::Tanh(node(func.func)) }
}

/// `|f|`
pub fn abs(func: Function) -> (r: Function)
    ensures
        r.func == Elementary::Abs(rc(func.func)),
{
    Function { func: Elementary::Abs(node(func.func)) }
}

/// `f^(1/2)`
pub fn sqrt(func: Function) -> (r: Function)
    ensures
        r.func == Elementary::Pow(rc(func.func), rc(chalf())),
{
    Function { func: Elementary::Pow(node(func.func), node(Elementary::half())) }
}

/// `f^(1/n)`
pub fn nth_root(func: Function, n: Number) -> (r: Function)
    ensures
        r.func == Elementary::Pow(
            rc(func.func),
            rc(Elementary::Div(rc(crate::differentiation::cint(1)), rc(Elementary::Con(n)))),
        ),
{
    Function {
        func: Elementary::Pow(
            node(func.func),
            node(Elementary::Div(node(Elementary::integer(1)), node(Elementary::Con(n)))),
        ),
    }
}

} // verus!
