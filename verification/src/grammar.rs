//! The grammar that the interpreter runs: rules, their kinds, and the expression tree of
//! each rule, together with the mathematical model of each.

use vstd::prelude::*;

verus! {

/// How a rule behaves when it is entered: whether it emits a token, and what it does to
/// the atomicity of its body.
#[derive(Clone, Copy, Debug, PartialEq, Eq, Structural)]
pub enum RuleKind {
    /// Emits a token; the body inherits the caller's atomicity.
    Normal,
    /// Emits nothing; the body inherits the caller's atomicity.
    Silent,
    /// Emits a token; the body is atomic.
    Atomic,
    /// Emits a token even where the caller is atomic; the body is atomic.
    CompoundAtomic,
    /// Emits a token even where the caller is atomic; the body is not atomic.
    NonAtomic,
}

/// The atomicity in force at some point of a parse.
#[derive(Clone, Copy, Debug, PartialEq, Eq, Structural)]
pub enum Atomicity {
    /// No separator is skipped and no rule emits a token.
    Atomic,
    /// No separator is skipped; rules emit their tokens.
    CompoundAtomic,
    /// Separators are skipped between the parts of a sequence and the rounds of a
    /// repetition; rules emit their tokens.
    NonAtomic,
}

/// An expression of the grammar.
#[derive(Debug, PartialEq, Eq)]
pub enum Expr {
    /// The literal text, in escape syntax.
    Literal(String),
    /// The literal text, in escape syntax, matched without regard to ASCII case.
    LiteralInsensitive(String),
    /// One character between the two character literals, both included.
    CharRange(String, String),
    /// The rule of that name.
    RuleRef(String),
    /// Succeeds where the expression matches; consumes nothing.
    PositiveLookahead(Box<Expr>),
    /// Succeeds where the expression does not match; consumes nothing.
    NegativeLookahead(Box<Expr>),
    /// The first expression, then the second.
    Sequence(Box<Expr>, Box<Expr>),
    /// The first expression, or else the second.
    OrderedChoice(Box<Expr>, Box<Expr>),
    /// The expression, or nothing.
    Optional(Box<Expr>),
    /// The expression, any number of times.
    Repeat(Box<Expr>),
    /// The expression, once or more.
    RepeatOnce(Box<Expr>),
    /// The expression, the given number of times.
    RepeatExact(Box<Expr>, u32),
    /// The expression, at least the given number of times.
    RepeatMin(Box<Expr>, u32),
    /// The expression, at most the given number of times.
    RepeatMax(Box<Expr>, u32),
    /// The expression, between the first and the second number of times.
    RepeatMinMax(Box<Expr>, u32, u32),
    /// Advances to the nearest place where one of the texts stands.
    ScanToAny(Vec<String>),
    /// The expression; what it matched is pushed onto the capture stack.
    Capture(Box<Expr>),
}

/// A named rule of the grammar.
#[derive(Debug, PartialEq, Eq)]
pub struct Rule {
    /// The name by which expressions refer to the rule.
    pub name: String,
    /// The kind of the rule.
    pub kind: RuleKind,
    /// The body of the rule.
    pub body: Expr,
}

/// The model of an [`Expr`]: the same tree over sequences of characters.
pub enum ExprModel {
    Literal(Seq<char>),
    LiteralInsensitive(Seq<char>),
    CharRange(Seq<char>, Seq<char>),
    RuleRef(Seq<char>),
    PositiveLookahead(Box<ExprModel>),
    NegativeLookahead(Box<ExprModel>),
    Sequence(Box<ExprModel>, Box<ExprModel>),
    OrderedChoice(Box<ExprModel>, Box<ExprModel>),
    Optional(Box<ExprModel>),
    Repeat(Box<ExprModel>),
    RepeatOnce(Box<ExprModel>),
    RepeatExact(Box<ExprModel>, u32),
    RepeatMin(Box<ExprModel>, u32),
    RepeatMax(Box<ExprModel>, u32),
    RepeatMinMax(Box<ExprModel>, u32, u32),
    ScanToAny(Seq<Seq<char>>),
    Capture(Box<ExprModel>),
}

/// The model of a [`Rule`].
pub struct RuleModel {
    pub name: Seq<char>,
    pub kind: RuleKind,
    pub body: ExprModel,
}

/// A grammar: the rule that each name stands for.
pub type Grammar = Map<Seq<char>, RuleModel>;

/// The texts of `strings`, each as a sequence of characters.
pub open spec fn texts_of(strings: Seq<String>) -> Seq<Seq<char>> {
    Seq::new(strings.len(), |i: int| strings[i]@)
}

/// The model of `expr`.
pub open spec fn expr_model(expr: Expr) -> ExprModel
    decreases expr,
{
    match expr {
        Expr::Literal(text) => ExprModel::Literal(text@),
        Expr::LiteralInsensitive(text) => ExprModel::LiteralInsensitive(text@),
        Expr::CharRange(low, high) => ExprModel::CharRange(low@, high@),
        Expr::RuleRef(name) => ExprModel::RuleRef(name@),
        Expr::PositiveLookahead(inner) => ExprModel::PositiveLookahead(Box::new(expr_model(*inner))),
        Expr::NegativeLookahead(inner) => ExprModel::NegativeLookahead(Box::new(expr_model(*inner))),
        Expr::Sequence(lhs, rhs) => ExprModel::Sequence(
            Box::new(expr_model(*lhs)),
            Box::new(expr_model(*rhs)),
        ),
        Expr::OrderedChoice(lhs, rhs) => ExprModel::OrderedChoice(
            Box::new(expr_model(*lhs)),
            Box::new(expr_model(*rhs)),
        ),
        Expr::Optional(inner) => ExprModel::Optional(Box::new(expr_model(*inner))),
        Expr::Repeat(inner) => ExprModel::Repeat(Box::new(expr_model(*inner))),
        Expr::RepeatOnce(inner) => ExprModel::RepeatOnce(Box::new(expr_model(*inner))),
        Expr::RepeatExact(inner, count) => ExprModel::RepeatExact(Box::new(expr_model(*inner)), count),
        Expr::RepeatMin(inner, min) => ExprModel::RepeatMin(Box::new(expr_model(*inner)), min),
        Expr::RepeatMax(inner, max) => ExprModel::RepeatMax(Box::new(expr_model(*inner)), max),
        Expr::RepeatMinMax(inner, min, max) => ExprModel::RepeatMinMax(
            Box::new(expr_model(*inner)),
            min,
            max,
        ),
        Expr::ScanToAny(strings) => ExprModel::ScanToAny(texts_of(strings@)),
        Expr::Capture(inner) => ExprModel::Capture(Box::new(expr_model(*inner))),
    }
}

impl View for Expr {
    type V = ExprModel;

    open spec fn view(&self) -> ExprModel {
        expr_model(*self)
    }
}

impl View for Rule {
    type V = RuleModel;

    open spec fn view(&self) -> RuleModel {
        RuleModel { name: self.name@, kind: self.kind, body: self.body@ }
    }
}

/// The number of nodes of `expr`: at least one, and more than that of any part of it.
pub open spec fn expr_size(expr: ExprModel) -> nat
    decreases expr,
{
    match expr {
        ExprModel::Literal(_) => 1,
        ExprModel::LiteralInsensitive(_) => 1,
        ExprModel::CharRange(_, _) => 1,
        ExprModel::RuleRef(_) => 1,
        ExprModel::ScanToAny(_) => 1,
        ExprModel::PositiveLookahead(inner) => 1 + expr_size(*inner),
        ExprModel::NegativeLookahead(inner) => 1 + expr_size(*inner),
        ExprModel::Optional(inner) => 1 + expr_size(*inner),
        ExprModel::Repeat(inner) => 1 + expr_size(*inner),
        ExprModel::RepeatOnce(inner) => 1 + expr_size(*inner),
        ExprModel::RepeatExact(inner, _) => 1 + expr_size(*inner),
        ExprModel::RepeatMin(inner, _) => 1 + expr_size(*inner),
        ExprModel::RepeatMax(inner, _) => 1 + expr_size(*inner),
        ExprModel::RepeatMinMax(inner, _, _) => 1 + expr_size(*inner),
        ExprModel::Capture(inner) => 1 + expr_size(*inner),
        ExprModel::Sequence(lhs, rhs) => 1 + expr_size(*lhs) + expr_size(*rhs),
        ExprModel::OrderedChoice(lhs, rhs) => 1 + expr_size(*lhs) + expr_size(*rhs),
    }
}

/// A token: the rule that matched and the bytes of the input that it matched, from
/// `start` up to `end`.
#[derive(Clone, Debug, PartialEq, Eq)]
pub struct Token {
    /// The name of the rule.
    pub rule: String,
    /// The offset of the first byte matched.
    pub start: usize,
    /// The offset behind the last byte matched.
    pub end: usize,
}

/// The model of a [`Token`].
pub struct TokenModel {
    pub rule: Seq<char>,
    pub start: int,
    pub end: int,
}

impl View for Token {
    type V = TokenModel;

    open spec fn view(&self) -> TokenModel {
        TokenModel { rule: self.rule@, start: self.start as int, end: self.end as int }
    }
}

/// The models of `tokens`, in the same order.
pub open spec fn token_models(tokens: Seq<Token>) -> Seq<TokenModel> {
    Seq::new(tokens.len(), |i: int| tokens[i]@)
}

} // verus!
