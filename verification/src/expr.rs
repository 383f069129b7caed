use std::ops::{Add, Div, Mul, Sub};
use vstd::prelude::*;
use vstd::std_specs::convert::FromSpecImpl;
use vstd::std_specs::ops::{AddSpecImpl, DivSpecImpl, MulSpecImpl, SubSpecImpl};

verus! {

/// Working precision of a numeric evaluation, in significant bits: that of a double.
pub const EVALUATION_PRECISION: u64 = 53;

/// Rounding mode of a numeric evaluation: the engine's default.
pub const EVALUATION_ROUNDING: i32 = 0;

/// The engine's answer to an equality test when the two operands are equal.
pub const ANSWER_EQUAL: i32 = 1;

/// The engine's status after a call that went through.
pub const STATUS_DONE: i32 = 0;

/// A numeric literal, by the engine constructor that receives it.
#[derive(Clone, Copy, Debug, PartialEq, Eq, Structural)]
pub enum Literal {
    /// A signed machine integer.
    Signed(i64),
    /// An unsigned machine integer.
    Unsigned(u64),
    /// A double, held as its IEEE 754 bit pattern.
    Real(u64),
}

/// The four arithmetic operations on two expressions.
#[derive(Clone, Copy, Debug, PartialEq, Eq, Structural)]
pub enum BinaryOperator {
    Addition,
    Subtraction,
    Multiplication,
    Division,
}

/// The transforms of one expression.
#[derive(Clone, Copy, Debug, PartialEq, Eq, Structural)]
pub enum UnaryOperator {
    /// e raised to the expression.
    Exponential,
}

/// The mathematical model of an expression: the tree of engine operations that yields it.
pub enum Term {
    /// The engine's reading of a text.
    Parsed(Seq<char>),
    /// A numeric literal.
    Literal(Literal),
    /// An arithmetic operation on a left and a right operand.
    Binary(BinaryOperator, Box<Term>, Box<Term>),
    /// A transform of one operand.
    Unary(UnaryOperator, Box<Term>),
    /// The derivative of the first term with respect to the second.
    Derivative(Box<Term>, Box<Term>),
    /// The first term with every bound symbol replaced, all in one pass.
    Substitution(Box<Term>, Map<Seq<char>, Term>),
    /// The numeric value of a term at a precision in bits, under a rounding mode.
    Evaluation(Box<Term>, u64, i32),
    /// The fully distributed form of a term.
    Expansion(Box<Term>),
}

/// One entry of a substitution: a symbol's name and what replaces the symbol.
#[derive(Debug)]
pub struct Binding {
    pub name: String,
    pub value: Expression,
}

/// What the engine is asked for, one step at a time. The operands are expressions of
/// their own, to be obtained first.
#[derive(Debug)]
pub enum Request {
    /// Read an expression from text.
    Parse(String),
    /// Make a number from a literal.
    Literal(Literal),
    /// Combine a left and a right operand.
    Binary(BinaryOperator, Box<Expression>, Box<Expression>),
    /// Transform one operand.
    Unary(UnaryOperator, Box<Expression>),
    /// Differentiate the first operand with respect to the second.
    Differentiate(Box<Expression>, Box<Expression>),
    /// Replace, in one pass, every bound symbol of the operand. The bindings are entered
    /// in order, a later one for the same name replacing an earlier one.
    Substitute(Box<Expression>, Vec<Binding>),
    /// Evaluate the operand numerically at a precision in bits, under a rounding mode.
    Evaluate(Box<Expression>, u64, i32),
    /// Distribute the operand fully.
    Expand(Box<Expression>),
}

/// A symbolic value, held as the request that yields it.
#[derive(Debug)]
pub struct Expression {
    request: Request,
}

/// The two operands of an equality test: the expanded forms of the expressions compared.
#[derive(Debug)]
pub struct Comparison {
    pub lhs: Expression,
    pub rhs: Expression,
}

/// Whether a text holds no NUL character. Only such a text can be handed to the engine,
/// which takes a text to end at the first NUL.
pub open spec fn free_of_nul(text: Seq<char>) -> bool {
    forall|i: int| 0 <= i < text.len() ==> text[i] != '\0'
}

/// Whether a text holds no NUL character.
pub fn is_free_of_nul(text: &str) -> (free: bool)
    ensures
        free == free_of_nul(text@),
{
    let count = text.unicode_len();
    let mut at: usize = 0;
    while at < count
        invariant
            count == text@.len(),
            at <= count,
            forall|i: int| 0 <= i < at ==> text@[i] != '\0',
        decreases count - at,
    {
        if text.get_char(at) == '\0' {
            return false;
        }
        at += 1;
    }
    true
}

/// The substitution that a list of bindings stands for. Where a name occurs twice, the
/// later binding holds.
pub open spec fn bindings_term(list: Seq<Binding>) -> Map<Seq<char>, Term>
    decreases list,
{
    if list.len() == 0 {
        Map::empty()
    } else {
        bindings_term(list.drop_last()).insert(list.last().name@, list.last().value.term())
    }
}

/// Two lists that agree entry by entry, in names and in terms, stand for one substitution.
pub proof fn lemma_bindings_term_pointwise(a: Seq<Binding>, b: Seq<Binding>)
    requires
        a.len() == b.len(),
        forall|i: int|
            0 <= i < a.len() ==> (#[trigger] a[i]).name@ == b[i].name@ && a[i].value@
                == b[i].value@,
    ensures
        bindings_term(a) == bindings_term(b),
    decreases a.len(),
{
    if a.len() > 0 {
        lemma_bindings_term_pointwise(a.drop_last(), b.drop_last());
        assert(a.last().name@ == b.last().name@ && a.last().value@ == b.last().value@);
    }
}

impl Request {
    /// The term that the engine's answer to this request stands for.
    pub open spec fn term(&self) -> Term
        decreases self,
    {
        match self {
            Request::Parse(text) => Term::Parsed(text@),
            Request::Literal(value) => Term::Literal(*value),
            Request::Binary(op, lhs, rhs) => Term::Binary(
                *op,
                Box::new(lhs.term()),
                Box::new(rhs.term()),
            ),
            Request::Unary(op, operand) => Term::Unary(*op, Box::new(operand.term())),
            Request::Differentiate(operand, symbol) => Term::Derivative(
                Box::new(operand.term()),
                Box::new(symbol.term()),
            ),
            Request::Substitute(operand, bindings) => Term::Substitution(
                Box::new(operand.term()),
                bindings_term(bindings@),
            ),
            Request::Evaluate(operand, bits, rounding) => Term::Evaluation(
                Box::new(operand.term()),
                *bits,
                *rounding,
            ),
            Request::Expand(operand) => Term::Expansion(Box::new(operand.term())),
        }
    }

    fn duplicate(&self) -> (copy: Request)
        ensures
            copy.term() == self.term(),
        decreases self,
    {
        match self {
            Request::Parse(text) => Request::Parse(text.clone()),
            Request::Literal(value) => Request::Literal(*value),
            Request::Binary(op, lhs, rhs) => Request::Binary(
                *op,
                Box::new(lhs.duplicate()),
                Box::new(rhs.duplicate()),
            ),
            Request::Unary(op, operand) => Request::Unary(*op, Box::new(operand.duplicate())),
            Request::Differentiate(operand, symbol) => Request::Differentiate(
                Box::new(operand.duplicate()),
                Box::new(symbol.duplicate()),
            ),
            Request::Substitute(operand, bindings) => Request::Substitute(
                Box::new(operand.duplicate()),
                duplicate_bindings(bindings),
            ),
            Request::Evaluate(operand, bits, rounding) => Request::Evaluate(
                Box::new(operand.duplicate()),
                *bits,
                *rounding,
            ),
            Request::Expand(operand) => Request::Expand(Box::new(operand.duplicate())),
        }
    }
}

/// A copy of a list of bindings, entry by entry and in the same order.
pub(crate) fn duplicate_bindings(list: &Vec<Binding>) -> (copy: Vec<Binding>)
    ensures
        copy@.len() == list@.len(),
        forall|i: int|
            0 <= i < list@.len() ==> (#[trigger] copy@[i]).name@ == list@[i].name@ && copy@[i].value@
                == list@[i].value@,
        bindings_term(copy@) == bindings_term(list@),
    decreases list,
{
    let mut copy: Vec<Binding> = Vec::new();
    let mut at: usize = 0;
    while at < list.len()
        invariant
            at <= list@.len(),
            copy@.len() == at,
            forall|i: int|
                0 <= i < at ==> (#[trigger] copy@[i]).name@ == list@[i].name@ && copy@[i].value@
                    == list@[i].value@,
        decreases list@.len() - at,
    {
        let binding = &list[at];
        copy.push(Binding { name: binding.name.clone(), value: binding.value.duplicate() });
        at += 1;
    }
    proof {
        lemma_bindings_term_pointwise(copy@, list@);
    }
    copy
}

impl View for Expression {
    type V = Term;

    open spec fn view(&self) -> Term {
        self.term()
    }
}

impl Clone for Binding {
    fn clone(&self) -> (copy: Self)
        ensures
            copy.name@ == self.name@,
            copy.value@ == self.value@,
    {
        Binding { name: self.name.clone(), value: self.value.duplicate() }
    }
}

impl Clone for Expression {
    fn clone(&self) -> (copy: Self)
        ensures
            copy@ == self@,
    {
        self.duplicate()
    }
}

impl Expression {
    /// The term that this expression stands for.
    pub closed spec fn term(&self) -> Term
        decreases self,
    {
        self.request.term()
    }

    /// The expression that a numeric literal stands for.
    pub closed spec fn literal(value: Literal) -> Expression {
        Expression { request: Request::Literal(value) }
    }

    /// The term of the expression that a literal stands for.
    pub proof fn lemma_literal_term(value: Literal)
        ensures
            Expression::literal(value)@ == Term::Literal(value),
    {
    }

    fn duplicate(&self) -> (copy: Self)
        ensures
            copy@ == self@,
        decreases self,
    {
        Expression { request: self.request.duplicate() }
    }

    /// The expression that the engine reads from `expr`, a text without a NUL character.
    pub fn new(expr: &str) -> (made: Self)
        requires
            free_of_nul(expr@),
        ensures
            made@ == Term::Parsed(expr@),
    {
        Expression { request: Request::Parse(expr.to_owned()) }
    }

    /// Whether the engine's status after reading a text says that it read an expression.
    /// Where it does not, the text was malformed and no expression came of it.
    pub fn was_read(status: i32) -> (read: bool)
        ensures
            read == (status == STATUS_DONE),
    {
        status == STATUS_DONE
    }

    /// The number that a literal stands for, made by the engine constructor of its kind.
    fn from_value(value: Literal) -> (made: Self)
        ensures
            made == Expression::literal(value),
            made@ == Term::Literal(value),
    {
        Expression { request: Request::Literal(value) }
    }

    /// The double with the IEEE 754 bit pattern `bits`.
    pub fn from_real_bits(bits: u64) -> (made: Self)
        ensures
            made@ == Term::Literal(Literal::Real(bits)),
    {
        Self::from_value(Literal::Real(bits))
    }

    /// The request that yields this expression.
    pub fn request(&self) -> (request: &Request)
        ensures
            request.term() == self@,
    {
        &self.request
    }

    fn binary_op(self, rhs: Self, op: BinaryOperator) -> (out: Self)
        ensures
            out@ == Term::Binary(op, Box::new(self@), Box::new(rhs@)),
    {
        Expression { request: Request::Binary(op, Box::new(self), Box::new(rhs)) }
    }

    /// e raised to this expression.
    pub fn exp(self) -> (out: Self)
        ensures
            out@ == Term::Unary(UnaryOperator::Exponential, Box::new(self@)),
    {
        self.unary_op(UnaryOperator::Exponential)
    }

    /// The derivative of this expression with respect to `symbol`.
    pub fn diff(&self, symbol: &Expression) -> (out: Self)
        ensures
            out@ == Term::Derivative(Box::new(self@), Box::new(symbol@)),
    {
        Expression {
            request: Request::Differentiate(
                Box::new(self.duplicate()),
                Box::new(symbol.duplicate()),
            ),
        }
    }

    /// This expression with the symbols that `bindings` names replaced, all in one pass.
    pub(crate) fn substituted(&self, bindings: Vec<Binding>) -> (out: Self)
        ensures
            out@ == Term::Substitution(Box::new(self@), bindings_term(bindings@)),
    {
        Expression { request: Request::Substitute(Box::new(self.duplicate()), bindings) }
    }

    /// The numeric value of this expression, at the precision of a double and under the
    /// default rounding mode.
    pub fn evalf(&self) -> (out: Self)
        ensures
            out@ == Term::Evaluation(
                Box::new(self@),
                EVALUATION_PRECISION,
                EVALUATION_ROUNDING,
            ),
    {
        Expression {
            request: Request::Evaluate(
                Box::new(self.duplicate()),
                EVALUATION_PRECISION,
                EVALUATION_ROUNDING,
            ),
        }
    }

    /// The fully distributed form of this expression.
    fn expanded(&self) -> (out: Self)
        ensures
            out@ == Term::Expansion(Box::new(self@)),
    {
        Expression { request: Request::Expand(Box::new(self.duplicate())) }
    }

    /// What the engine compares to tell whether this expression equals `other`: the
    /// expanded form of each, so that equality goes by canonical form.
    pub fn comparison(&self, other: &Expression) -> (asked: Comparison)
        ensures
            asked.lhs@ == Term::Expansion(Box::new(self@)),
            asked.rhs@ == Term::Expansion(Box::new(other@)),
    {
        Comparison { lhs: self.expanded(), rhs: other.expanded() }
    }

    /// What the engine compares to tell whether this expression equals a literal: the
    /// literal is first made an expression.
    pub fn comparison_with<T: Symbol>(&self, other: T) -> (asked: Comparison)
        ensures
            asked.lhs@ == Term::Expansion(Box::new(self@)),
            asked.rhs@ == Term::Expansion(Box::new(Term::Literal(other.literal()))),
    {
        self.comparison(&other.lift())
    }
}

impl Comparison {
    /// Whether the engine's answer to the test says that the two operands are equal.
    pub fn holds(answer: i32) -> (equal: bool)
        ensures
            equal == (answer == ANSWER_EQUAL),
    {
        answer == ANSWER_EQUAL
    }
}

/// Applying a transform to a value.
pub trait UnaryOp: Sized {
    /// Apply a unary operation to the expression.
    fn unary_op(self, op: UnaryOperator) -> Self;
}

impl UnaryOp for Expression {
    fn unary_op(self, op: UnaryOperator) -> (out: Self)
        ensures
            out@ == Term::Unary(op, Box::new(self@)),
    {
        Expression { request: Request::Unary(op, Box::new(self)) }
    }
}

impl From<i64> for Expression {
    fn from(value: i64) -> (made: Self)
        ensures
            made@ == Term::Literal(Literal::Signed(value)),
    {
        Self::from_value(Literal::Signed(value))
    }
}

impl FromSpecImpl<i64> for Expression {
    open spec fn obeys_from_spec() -> bool {
        true
    }

    open spec fn from_spec(value: i64) -> Self {
        Expression::literal(Literal::Signed(value))
    }
}

impl From<u64> for Expression {
    fn from(value: u64) -> (made: Self)
        ensures
            made@ == Term::Literal(Literal::Unsigned(value)),
    {
        Self::from_value(Literal::Unsigned(value))
    }
}

impl FromSpecImpl<u64> for Expression {
    open spec fn obeys_from_spec() -> bool {
        true
    }

    open spec fn from_spec(value: u64) -> Self {
        Expression::literal(Literal::Unsigned(value))
    }
}

/// A numeric literal that stands for an expression.
pub trait Symbol: Into<Expression> {
    /// The literal that this value is.
    spec fn literal(self) -> Literal;

    /// The literal that this value is, by the engine constructor that receives it.
    fn to_literal(self) -> (literal: Literal)
        ensures
            literal == self.literal(),
    ;
}

impl Symbol for i64 {
    open spec fn literal(self) -> Literal {
        Literal::Signed(self)
    }

    fn to_literal(self) -> (literal: Literal) {
        Literal::Signed(self)
    }
}

impl Symbol for u64 {
    open spec fn literal(self) -> Literal {
        Literal::Unsigned(self)
    }

    fn to_literal(self) -> (literal: Literal) {
        Literal::Unsigned(self)
    }
}

/// A value that an arithmetic operator accepts as its right operand: an expression, or a
/// numeric literal, which is first made an expression.
pub trait Atomic: Into<Expression> {
    /// The term of the expression that this value becomes.
    spec fn lifted(self) -> Term;

    /// The expression that this value becomes.
    fn lift(self) -> (made: Expression)
        ensures
            made@ == self.lifted(),
    ;
}

impl<T: Symbol> Atomic for T {
    open spec fn lifted(self) -> Term {
        Term::Literal(self.literal())
    }

    fn lift(self) -> (made: Expression) {
        Expression::from_value(self.to_literal())
    }
}

impl Atomic for Expression {
    open spec fn lifted(self) -> Term {
        self@
    }

    fn lift(self) -> (made: Expression) {
        self
    }
}

impl<T: Atomic> Add<T> for Expression {
    type Output = Self;

    fn add(self, rhs: T) -> (out: Self)
        ensures
            out@ == Term::Binary(BinaryOperator::Addition, Box::new(self@), Box::new(rhs.lifted())),
    {
        self.binary_op(rhs.lift(), BinaryOperator::Addition)
    }
}

/// What the operator yields is stated on `add` itself, over terms: no expression is
/// singled out here as its result.
impl<T: Atomic> AddSpecImpl<T> for Expression {
    open spec fn obeys_add_spec() -> bool {
        false
    }

    open spec fn add_req(self, rhs: T) -> bool {
        true
    }

    open spec fn add_spec(self, rhs: T) -> Self {
        arbitrary()
    }
}

impl<T: Atomic> Sub<T> for Expression {
    type Output = Self;

    fn sub(self, rhs: T) -> (out: Self)
        ensures
            out@ == Term::Binary(BinaryOperator::Subtraction, Box::new(self@), Box::new(rhs.lifted())),
    {
        self.binary_op(rhs.lift(), BinaryOperator::Subtraction)
    }
}

/// What the operator yields is stated on `sub` itself, over terms: no expression is
/// singled out here as its result.
impl<T: Atomic> SubSpecImpl<T> for Expression {
    open spec fn obeys_sub_spec() -> bool {
        false
    }

    open spec fn sub_req(self, rhs: T) -> bool {
        true
    }

    open spec fn sub_spec(self, rhs: T) -> Self {
        arbitrary()
    }
}

impl<T: Atomic> Mul<T> for Expression {
    type Output = Self;

    fn mul(self, rhs: T) -> (out: Self)
        ensures
            out@ == Term::Binary(BinaryOperator::Multiplication, Box::new(self@), Box::new(rhs.lifted())),
    {
        self.binary_op(rhs.lift(), BinaryOperator::Multiplication)
    }
}

/// What the operator yields is stated on `mul` itself, over terms: no expression is
/// singled out here as its result.
impl<T: Atomic> MulSpecImpl<T> for Expression {
    open spec fn obeys_mul_spec() -> bool {
        false
    }

    open spec fn mul_req(self, rhs: T) -> bool {
        true
    }

    open spec fn mul_spec(self, rhs: T) -> Self {
        arbitrary()
    }
}

impl<T: Atomic> Div<T> for Expression {
    type Output = Self;

    fn div(self, rhs: T) -> (out: Self)
        ensures
            out@ == Term::Binary(BinaryOperator::Division, Box::new(self@), Box::new(rhs.lifted())),
    {
        self.binary_op(rhs.lift(), BinaryOperator::Division)
    }
}

/// What the operator yields is stated on `div` itself, over terms: no expression is
/// singled out here as its result.
impl<T: Atomic> DivSpecImpl<T> for Expression {
    open spec fn obeys_div_spec() -> bool {
        false
    }

    open spec fn div_req(self, rhs: T) -> bool {
        true
    }

    open spec fn div_spec(self, rhs: T) -> Self {
        arbitrary()
    }
}

} // verus!
