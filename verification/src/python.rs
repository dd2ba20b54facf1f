//! Python expressions, as far as calls with constant arguments go.
use ruff_python_ast::Expr;
use vstd::prelude::*;
use vstd::utf8::encode_utf8;

verus! {

/// A Python number.
#[derive(Debug, PartialEq, Eq)]
pub enum PyNumber {
    /// An integer: its value where that fits, and its text.
    Integer { value: Option<u64>, text: String },
    /// Any other real number, as a decimal text that spells it.
    Float(String),
    Complex,
}

/// A Python expression.
#[derive(Debug, PartialEq, Eq)]
pub enum PyExpr {
    Boolean(bool),
    NoneLiteral,
    Number(PyNumber),
    Text(String),
    List(Vec<PyExpr>),
    Dict(Vec<PyItem>),
    Name(String),
    /// A call: the function, and the arguments that are given by name.
    Call(Box<PyExpr>, Vec<PyKeyword>),
    /// Any other expression.
    Other,
}

/// An item of a dictionary; one without a key unpacks its value.
#[derive(Debug, PartialEq, Eq)]
pub struct PyItem {
    pub key: Option<PyExpr>,
    pub value: PyExpr,
}

/// A named argument; one without a name unpacks its value.
#[derive(Debug, PartialEq, Eq)]
pub struct PyKeyword {
    pub arg: Option<String>,
    pub value: PyExpr,
}

/// What a [`PyNumber`] holds.
pub enum PyNumberModel {
    Integer { value: Option<u64>, text: Seq<char> },
    Float(Seq<char>),
    Complex,
}

/// What a [`PyExpr`] holds.
pub enum PyModel {
    Boolean(bool),
    NoneLiteral,
    Number(PyNumberModel),
    Text(Seq<char>),
    List(Seq<PyModel>),
    Dict(Seq<PyItemModel>),
    Name(Seq<char>),
    Call(Box<PyModel>, Seq<PyKeywordModel>),
    Other,
}

/// What a [`PyItem`] holds.
pub struct PyItemModel {
    pub key: Option<PyModel>,
    pub value: PyModel,
}

/// What a [`PyKeyword`] holds.
pub struct PyKeywordModel {
    pub arg: Option<Seq<char>>,
    pub value: PyModel,
}

impl PyNumber {
    pub open spec fn view(self) -> PyNumberModel {
        match self {
            PyNumber::Integer { value, text } => PyNumberModel::Integer { value, text: text@ },
            PyNumber::Float(text) => PyNumberModel::Float(text@),
            PyNumber::Complex => PyNumberModel::Complex,
        }
    }
}

impl PyExpr {
    pub open spec fn view(self) -> PyModel
        decreases self,
    {
        match self {
            PyExpr::Boolean(flag) => PyModel::Boolean(flag),
            PyExpr::NoneLiteral => PyModel::NoneLiteral,
            PyExpr::Number(number) => PyModel::Number(number.view()),
            PyExpr::Text(text) => PyModel::Text(text@),
            PyExpr::List(items) => PyModel::List(exprs_view(items@)),
            PyExpr::Dict(items) => PyModel::Dict(dict_view(items@)),
            PyExpr::Name(name) => PyModel::Name(name@),
            PyExpr::Call(function, keywords) => PyModel::Call(
                Box::new((*function).view()),
                keywords_view(keywords@),
            ),
            PyExpr::Other => PyModel::Other,
        }
    }
}

impl PyItem {
    pub open spec fn view(self) -> PyItemModel
        decreases self,
    {
        PyItemModel {
            key: match self.key {
                Some(key) => Some(key.view()),
                None => None,
            },
            value: self.value.view(),
        }
    }
}

impl PyKeyword {
    pub open spec fn view(self) -> PyKeywordModel
        decreases self,
    {
        PyKeywordModel {
            arg: match self.arg {
                Some(arg) => Some(arg@),
                None => None,
            },
            value: self.value.view(),
        }
    }
}

/// What a run of expressions holds.
pub open spec fn exprs_view(items: Seq<PyExpr>) -> Seq<PyModel>
    decreases items,
{
    if items.len() == 0 {
        Seq::empty()
    } else {
        exprs_view(items.drop_last()).push(items.last().view())
    }
}

/// What a run of dictionary items holds.
pub open spec fn dict_view(items: Seq<PyItem>) -> Seq<PyItemModel>
    decreases items,
{
    if items.len() == 0 {
        Seq::empty()
    } else {
        dict_view(items.drop_last()).push(items.last().view())
    }
}

/// What a run of named arguments holds.
pub open spec fn keywords_view(items: Seq<PyKeyword>) -> Seq<PyKeywordModel>
    decreases items,
{
    if items.len() == 0 {
        Seq::empty()
    } else {
        keywords_view(items.drop_last()).push(items.last().view())
    }
}

/// [`exprs_view`] goes expression by expression.
pub broadcast proof fn lemma_exprs_view(items: Seq<PyExpr>)
    ensures
        (#[trigger] exprs_view(items)).len() == items.len(),
        forall|k: int|
            0 <= k < items.len() ==> (#[trigger] exprs_view(items)[k]) == items[k].view(),
    decreases items.len(),
{
    if items.len() > 0 {
        lemma_exprs_view(items.drop_last());
    }
}

/// [`dict_view`] goes item by item.
pub broadcast proof fn lemma_dict_view(items: Seq<PyItem>)
    ensures
        (#[trigger] dict_view(items)).len() == items.len(),
        forall|k: int| 0 <= k < items.len() ==> (#[trigger] dict_view(items)[k]) == items[k].view(),
    decreases items.len(),
{
    if items.len() > 0 {
        lemma_dict_view(items.drop_last());
    }
}

/// [`keywords_view`] goes argument by argument.
pub broadcast proof fn lemma_keywords_view(items: Seq<PyKeyword>)
    ensures
        (#[trigger] keywords_view(items)).len() == items.len(),
        forall|k: int|
            0 <= k < items.len() ==> (#[trigger] keywords_view(items)[k]) == items[k].view(),
    decreases items.len(),
{
    if items.len() > 0 {
        lemma_keywords_view(items.drop_last());
    }
}

/// A [`ruff_python_ast::Expr`], of which nothing is known.
#[verifier::external_type_specification]
#[verifier::external_body]
pub struct ExPythonExpr(Expr);

/// A [`ruff_python_ast::Number`], of which nothing is known.
#[verifier::external_type_specification]
#[verifier::external_body]
pub struct ExPythonNumber(ruff_python_ast::Number);

/// A [`ruff_python_ast::ExprDict`], of which nothing is known.
#[verifier::external_type_specification]
#[verifier::external_body]
pub struct ExPythonDict(ruff_python_ast::ExprDict);

/// A [`ruff_python_ast::ExprCall`], of which nothing is known.
#[verifier::external_type_specification]
#[verifier::external_body]
pub struct ExPythonCall(ruff_python_ast::ExprCall);

/// The number of a [`ruff_python_ast::Number`] as a [`PyNumber`].
#[verifier::external_body]
fn from_number(number: &ruff_python_ast::Number) -> PyNumber {
    match number {
        ruff_python_ast::Number::Int(number) => PyNumber::Integer {
            value: number.as_u64(),
            text: number.to_string(),
        },
        ruff_python_ast::Number::Float(number) => PyNumber::Float(number.to_string()),
        ruff_python_ast::Number::Complex { .. } => PyNumber::Complex,
    }
}

/// The items of a [`ruff_python_ast::ExprDict`].
#[verifier::external_body]
fn from_dict(dict: &ruff_python_ast::ExprDict) -> Vec<PyItem> {
    dict.items.iter().map(
        |item| PyItem { key: item.key.as_ref().map(from_expr), value: from_expr(&item.value) },
    ).collect()
}

/// The named arguments of a [`ruff_python_ast::ExprCall`].
#[verifier::external_body]
fn from_keywords(call: &ruff_python_ast::ExprCall) -> Vec<PyKeyword> {
    call.arguments.keywords.iter().map(
        |keyword|
            PyKeyword {
                arg: keyword.arg.as_ref().map(|arg| arg.to_string()),
                value: from_expr(&keyword.value),
            },
    ).collect()
}

/// The expression of a [`ruff_python_ast::Expr`] that [`parse_python`] was given, as a
/// [`PyExpr`].
#[verifier::external_body]
fn from_expr(expr: &Expr) -> PyExpr {
    match expr {
        Expr::BooleanLiteral(literal) => PyExpr::Boolean(literal.value),
        Expr::NoneLiteral(_) => PyExpr::NoneLiteral,
        Expr::NumberLiteral(literal) => PyExpr::Number(from_number(&literal.value)),
        Expr::StringLiteral(literal) => PyExpr::Text(literal.value.to_str().into()),
        Expr::List(list) => PyExpr::List(list.elts.iter().map(from_expr).collect()),
        Expr::Dict(dict) => PyExpr::Dict(from_dict(dict)),
        Expr::Name(name) => PyExpr::Name(name.id.to_string()),
        Expr::Call(call) => {
            PyExpr::Call(Box::new(from_expr(&call.func)), from_keywords(call))
        },
        _ => PyExpr::Other,
    }
}

/// The expression that a Python text stands for, or why it is none: what ruff reads,
/// and what it says.
pub uninterp spec fn python_parsed(source: Seq<char>) -> Result<PyModel, Seq<char>>;

/// The expression that a Python text stands for, as
/// [`ruff_python_parser::parse_expression`] reads it, or its
/// [`ruff_python_parser::ParseError`] in words. Which texts are expressions, and what
/// the error says where one is not, is left to it. The lexer stops the program on a
/// source whose size in bytes does not fit 32 bits.
#[verifier::external_body]
pub(crate) fn parse_python(source: &str) -> (parsed: Result<PyExpr, String>)
    requires
        encode_utf8(source@).len() <= u32::MAX,
    ensures
        match parsed {
            Ok(expr) => python_parsed(source@) == Ok::<PyModel, Seq<char>>(expr@),
            Err(reason) => python_parsed(source@) == Err::<PyModel, Seq<char>>(reason@),
        },
{
    match ruff_python_parser::parse_expression(source) {
        Ok(parsed) => Ok(from_expr(parsed.expr())),
        Err(error) => Err(error.to_string()),
    }
}

} // verus!
