//! The syntax tree: one variant per node kind, each with the fields of that kind.
use vstd::prelude::*;

verus! {

/// The kind tag of a node.
#[derive(Clone, Copy, Debug, PartialEq, Eq, Structural)]
pub enum AstType {
    Var,
    Func,
    Class,
    Array,
    Dict,
    Number,
    String,
    Bool,
    BinOp,
    Return,
    If,
    Else,
    While,
    For,
    Attr,
    Call,
    Chain,
}

/// A numeric literal: an integer, or a decimal written with a point, kept
/// as its digits and a sign.
#[derive(Clone, Debug, PartialEq)]
pub enum Number {
    Int(isize),
    Float { negative: bool, literal: String },
}

/// A node of the syntax tree. A parent owns its children.
#[derive(Debug, PartialEq)]
pub enum Node {
    Var { name: String, value: Box<Node> },
    Func { name: String, params: Vec<String>, body: Vec<Node> },
    Class { name: String, methods: Vec<Node> },
    Array { items: Vec<Node> },
    /// Each key once, in the order in which keys first appeared.
    Dict { items: Vec<(String, Node)> },
    Number { value: Number },
    String { value: String },
    Bool { value: bool },
    BinOp { left: Box<Node>, right: Box<Node>, op: String, wrapped: bool },
    Return { value: Box<Node> },
    If { condition: Box<Node>, body: Vec<Node>, otherwise: Vec<Node> },
    Else { body: Vec<Node> },
    While { condition: Box<Node>, body: Vec<Node> },
    For { var: String, through: Vec<Node>, body: Vec<Node> },
    Attr { attr: String },
    Call { args: Vec<Node> },
    Chain { name: Box<Node>, chain: Vec<Node> },
}

/// What a number stands for in contracts.
pub enum NumberModel {
    Int(int),
    Float { negative: bool, literal: Seq<char> },
}

/// What a node stands for in contracts.
pub enum NodeModel {
    Var { name: Seq<char>, value: Box<NodeModel> },
    Func { name: Seq<char>, params: Seq<Seq<char>>, body: Seq<NodeModel> },
    Class { name: Seq<char>, methods: Seq<NodeModel> },
    Array { items: Seq<NodeModel> },
    Dict { items: Seq<(Seq<char>, NodeModel)> },
    Number { value: NumberModel },
    String { value: Seq<char> },
    Bool { value: bool },
    BinOp { left: Box<NodeModel>, right: Box<NodeModel>, op: Seq<char>, wrapped: bool },
    Return { value: Box<NodeModel> },
    If { condition: Box<NodeModel>, body: Seq<NodeModel>, otherwise: Seq<NodeModel> },
    Else { body: Seq<NodeModel> },
    While { condition: Box<NodeModel>, body: Seq<NodeModel> },
    For { var: Seq<char>, through: Seq<NodeModel>, body: Seq<NodeModel> },
    Attr { attr: Seq<char> },
    Call { args: Seq<NodeModel> },
    Chain { name: Box<NodeModel>, chain: Seq<NodeModel> },
}

impl View for Number {
    type V = NumberModel;

    open spec fn view(&self) -> NumberModel {
        match self {
            Number::Int(v) => NumberModel::Int(*v as int),
            Number::Float { negative, literal } => NumberModel::Float {
                negative: *negative,
                literal: literal@,
            },
        }
    }
}

pub open spec fn strings_view(s: Seq<String>) -> Seq<Seq<char>> {
    s.map_values(|x: String| x@)
}

impl Node {
    pub open spec fn model(&self) -> NodeModel
        decreases self,
    {
        match self {
            Node::Var { name, value } => NodeModel::Var { name: name@, value: Box::new(value.model()) },
            Node::Func { name, params, body } => NodeModel::Func {
                name: name@,
                params: strings_view(params@),
                body: models(body@),
            },
            Node::Class { name, methods } => NodeModel::Class { name: name@, methods: models(methods@) },
            Node::Array { items } => NodeModel::Array { items: models(items@) },
            Node::Dict { items } => NodeModel::Dict { items: entry_models(items@) },
            Node::Number { value } => NodeModel::Number { value: value@ },
            Node::String { value } => NodeModel::String { value: value@ },
            Node::Bool { value } => NodeModel::Bool { value: *value },
            Node::BinOp { left, right, op, wrapped } => NodeModel::BinOp {
                left: Box::new(left.model()),
                right: Box::new(right.model()),
                op: op@,
                wrapped: *wrapped,
            },
            Node::Return { value } => NodeModel::Return { value: Box::new(value.model()) },
            Node::If { condition, body, otherwise } => NodeModel::If {
                condition: Box::new(condition.model()),
                body: models(body@),
                otherwise: models(otherwise@),
            },
            Node::Else { body } => NodeModel::Else { body: models(body@) },
            Node::While { condition, body } => NodeModel::While {
                condition: Box::new(condition.model()),
                body: models(body@),
            },
            Node::For { var, through, body } => NodeModel::For {
                var: var@,
                through: models(through@),
                body: models(body@),
            },
            Node::Attr { attr } => NodeModel::Attr { attr: attr@ },
            Node::Call { args } => NodeModel::Call { args: models(args@) },
            Node::Chain { name, chain } => NodeModel::Chain {
                name: Box::new(name.model()),
                chain: models(chain@),
            },
        }
    }
}

/// The kind tag of a node.
pub open spec fn kind_of(m: NodeModel) -> AstType {
    match m {
        NodeModel::Var { .. } => AstType::Var,
        NodeModel::Func { .. } => AstType::Func,
        NodeModel::Class { .. } => AstType::Class,
        NodeModel::Array { .. } => AstType::Array,
        NodeModel::Dict { .. } => AstType::Dict,
        NodeModel::Number { .. } => AstType::Number,
        NodeModel::String { .. } => AstType::String,
        NodeModel::Bool { .. } => AstType::Bool,
        NodeModel::BinOp { .. } => AstType::BinOp,
        NodeModel::Return { .. } => AstType::Return,
        NodeModel::If { .. } => AstType::If,
        NodeModel::Else { .. } => AstType::Else,
        NodeModel::While { .. } => AstType::While,
        NodeModel::For { .. } => AstType::For,
        NodeModel::Attr { .. } => AstType::Attr,
        NodeModel::Call { .. } => AstType::Call,
        NodeModel::Chain { .. } => AstType::Chain,
    }
}

impl Node {
    /// The kind tag of this node.
    pub fn kind(&self) -> (r: AstType)
        ensures
            r == kind_of(self.model()),
    {
        match self {
            Node::Var { .. } => AstType::Var,
            Node::Func { .. } => AstType::Func,
            Node::Class { .. } => AstType::Class,
            Node::Array { .. } => AstType::Array,
            Node::Dict { .. } => AstType::Dict,
            Node::Number { .. } => AstType::Number,
            Node::String { .. } => AstType::String,
            Node::Bool { .. } => AstType::Bool,
            Node::BinOp { .. } => AstType::BinOp,
            Node::Return { .. } => AstType::Return,
            Node::If { .. } => AstType::If,
            Node::Else { .. } => AstType::Else,
            Node::While { .. } => AstType::While,
            Node::For { .. } => AstType::For,
            Node::Attr { .. } => AstType::Attr,
            Node::Call { .. } => AstType::Call,
            Node::Chain { .. } => AstType::Chain,
        }
    }
}

/// The models of a sequence of nodes.
pub open spec fn models(s: Seq<Node>) -> Seq<NodeModel>
    decreases s,
{
    if s.len() == 0 {
        seq![]
    } else {
        models(s.drop_last()).push(s.last().model())
    }
}

/// The models of a sequence of dictionary entries.
pub open spec fn entry_models(s: Seq<(String, Node)>) -> Seq<(Seq<char>, NodeModel)>
    decreases s,
{
    if s.len() == 0 {
        seq![]
    } else {
        entry_models(s.drop_last()).push((s.last().0@, s.last().1.model()))
    }
}

pub proof fn lemma_models_push(s: Seq<Node>, x: Node)
    ensures
        models(s.push(x)) == models(s).push(x.model()),
{
    assert(s.push(x).drop_last() =~= s);
}

pub proof fn lemma_entry_models(s: Seq<(String, Node)>)
    ensures
        entry_models(s).len() == s.len(),
        forall|i: int| 0 <= i < s.len() ==> #[trigger] entry_models(s)[i] == (s[i].0@, s[i].1.model()),
    decreases s.len(),
{
    if s.len() > 0 {
        lemma_entry_models(s.drop_last());
    }
}

pub proof fn lemma_entry_models_push(s: Seq<(String, Node)>, x: (String, Node))
    ensures
        entry_models(s.push(x)) == entry_models(s).push((x.0@, x.1.model())),
{
    assert(s.push(x).drop_last() =~= s);
}

/// No key appears twice among the entries.
pub open spec fn keys_unique(e: Seq<(Seq<char>, NodeModel)>) -> bool {
    forall|i: int, j: int| 0 <= i < j < e.len() ==> e[i].0 != e[j].0
}

/// A variable declaration; without a value, its value is the empty string.
pub fn new_var(name: String, value: Option<Node>) -> (r: Node)
    ensures
        r.model() == (NodeModel::Var {
            name: name@,
            value: Box::new(
                match value {
                    Some(v) => v.model(),
                    None => NodeModel::String { value: seq![] },
                },
            ),
        }),
{
    let value = match value {
        Some(v) => v,
        None => {
            let empty = Node::String { value: String::new() };
            assert(empty.model() == NodeModel::String { value: seq![] });
            empty
        },
    };
    Node::Var { name, value: Box::new(value) }
}

pub fn new_func(name: String, args: Vec<String>, body: Vec<Node>) -> (r: Node)
    ensures
        r.model() == (NodeModel::Func { name: name@, params: strings_view(args@), body: models(body@) }),
{
    Node::Func { name, params: args, body }
}

pub fn new_class(name: String, methods: Vec<Node>) -> (r: Node)
    ensures
        r.model() == (NodeModel::Class { name: name@, methods: models(methods@) }),
{
    Node::Class { name, methods }
}

/// A dictionary literal from entries with distinct keys.
pub fn new_dict(items: Vec<(String, Node)>) -> (r: Node)
    requires
        keys_unique(entry_models(items@)),
    ensures
        r.model() == (NodeModel::Dict { items: entry_models(items@) }),
{
    Node::Dict { items }
}

pub fn new_array(items: Vec<Node>) -> (r: Node)
    ensures
        r.model() == (NodeModel::Array { items: models(items@) }),
{
    Node::Array { items }
}

pub fn new_return(val: Node) -> (r: Node)
    ensures
        r.model() == (NodeModel::Return { value: Box::new(val.model()) }),
{
    Node::Return { value: Box::new(val) }
}

/// A conditional; without other branches, `otherwise` is empty.
pub fn new_if(condition: Node, body: Vec<Node>, otherwise: Option<Vec<Node>>) -> (r: Node)
    ensures
        r.model() == (NodeModel::If {
            condition: Box::new(condition.model()),
            body: models(body@),
            otherwise: match otherwise {
                Some(o) => models(o@),
                None => seq![],
            },
        }),
{
    let otherwise = match otherwise {
        Some(o) => o,
        None => {
            let o: Vec<Node> = Vec::new();
            assert(models(o@) =~= seq![]);
            o
        },
    };
    Node::If { condition: Box::new(condition), body, otherwise }
}

pub fn new_else(body: Vec<Node>) -> (r: Node)
    ensures
        r.model() == (NodeModel::Else { body: models(body@) }),
{
    Node::Else { body }
}

pub fn new_while(condition: Node, body: Vec<Node>) -> (r: Node)
    ensures
        r.model() == (NodeModel::While { condition: Box::new(condition.model()), body: models(body@) }),
{
    Node::While { condition: Box::new(condition), body }
}

pub fn new_for(var: String, through: Vec<Node>, body: Vec<Node>) -> (r: Node)
    ensures
        r.model() == (NodeModel::For { var: var@, through: models(through@), body: models(body@) }),
{
    Node::For { var, through, body }
}

pub fn new_number(val: Number) -> (r: Node)
    ensures
        r.model() == (NodeModel::Number { value: val@ }),
{
    Node::Number { value: val }
}

pub fn new_string(val: String) -> (r: Node)
    ensures
        r.model() == (NodeModel::String { value: val@ }),
{
    Node::String { value: val }
}

pub fn new_bool(val: bool) -> (r: Node)
    ensures
        r.model() == (NodeModel::Bool { value: val }),
{
    Node::Bool { value: val }
}

/// A binary operation; `wrapped` defaults to false.
pub fn new_binop(left: Node, right: Node, op: String, wrapped: Option<bool>) -> (r: Node)
    ensures
        r.model() == (NodeModel::BinOp {
            left: Box::new(left.model()),
            right: Box::new(right.model()),
            op: op@,
            wrapped: match wrapped {
                Some(w) => w,
                None => false,
            },
        }),
{
    let wrapped = match wrapped {
        Some(w) => w,
        None => false,
    };
    Node::BinOp { left: Box::new(left), right: Box::new(right), op, wrapped }
}

pub fn new_call(args: Vec<Node>) -> (r: Node)
    ensures
        r.model() == (NodeModel::Call { args: models(args@) }),
{
    Node::Call { args }
}

pub fn new_attr(attr: String) -> (r: Node)
    ensures
        r.model() == (NodeModel::Attr { attr: attr@ }),
{
    Node::Attr { attr }
}

pub fn new_chain(name: Node, chain: Vec<Node>) -> (r: Node)
    ensures
        r.model() == (NodeModel::Chain { name: Box::new(name.model()), chain: models(chain@) }),
{
    Node::Chain { name: Box::new(name), chain }
}

} // verus!
