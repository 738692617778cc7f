//! The data model of a TL schema: definitions, their parameters and types,
//! and the errors of parsing them. Each type has a view over `Seq<char>` in
//! which the contracts of the parser are written.

use vstd::prelude::*;

verus! {

/// Whether a definition declares a type constructor or a function.
#[derive(Clone, Copy, Debug, PartialEq, Eq, Structural)]
pub enum Category {
    Types,
    Functions,
}

/// A type reference such as `Vector<InputPeer>`, `!X` or `storage.FileType`.
#[derive(Debug, PartialEq, Eq)]
pub struct Type {
    /// The namespaces that precede the name (`storage` in `storage.FileType`).
    pub namespace: Vec<String>,
    /// The name of the type.
    pub name: String,
    /// A bare type starts with a lowercase letter.
    pub bare: bool,
    /// The type is a reference to a generic parameter (`!X`, or a name that a
    /// `{X:Type}` parameter declares).
    pub generic_ref: bool,
    /// The argument between `<` and `>`, if any.
    pub generic_arg: Option<Box<Type>>,
}

/// A conditional field: `flags.3` in `flags.3?int`.
#[derive(Debug, PartialEq, Eq)]
pub struct Flag {
    /// The name of the flags parameter.
    pub name: String,
    /// The bit that gates the field.
    pub index: u32,
}

/// The type of a parameter.
#[derive(Debug, PartialEq, Eq)]
pub enum ParameterType {
    /// The `#` type of a flags field.
    Flags,
    /// An ordinary type, possibly gated by a flag.
    Normal { ty: Type, flag: Option<Flag> },
}

/// A `name:type` parameter of a definition.
#[derive(Debug, PartialEq, Eq)]
pub struct Parameter {
    pub name: String,
    pub ty: ParameterType,
}

/// One definition of a TL schema, such as
/// `user#abcd flags:# id:long name:flags.0?string = User`.
#[derive(Debug, PartialEq, Eq)]
pub struct Definition {
    /// The namespaces that precede the name.
    pub namespace: Vec<String>,
    /// The name of the constructor or function.
    pub name: String,
    /// The constructor identifier.
    pub id: u32,
    /// The parameters, in order, without the `{X:Type}` declarations.
    pub params: Vec<Parameter>,
    /// The type that the definition produces.
    pub ty: Type,
    /// Whether the definition stands in the types or the functions section.
    pub category: Category,
}

/// Why a parameter could not be parsed.
#[derive(Debug, PartialEq, Eq)]
pub enum ParamParseError {
    /// The parameter or one of its names is empty.
    Empty,
    /// The flag part (`name.index`) is malformed.
    InvalidFlag,
    /// A `<` is not matched by a final `>`.
    InvalidGeneric,
    /// The parameter name is invalid.
    InvalidName,
    /// The parameter declares a generic type, `{name:Type}`.
    TypeDef { name: String },
    /// A generic or flag that the parameter uses is not declared, or a `{`
    /// parameter is not a type declaration.
    MissingDef,
    /// The parameter has a form that is not supported (such as `#` or `[`).
    NotImplemented,
}

/// Why a definition could not be parsed.
#[derive(Debug, PartialEq, Eq)]
pub enum ParseError {
    /// The definition is empty.
    Empty,
    /// The hexadecimal identifier after `#` is not a valid `u32`.
    InvalidId,
    /// One of the parameters is invalid.
    InvalidParam(ParamParseError),
    /// The name, or one of its namespaces, is missing.
    MissingName,
    /// The `= Type` part is missing or invalid.
    MissingType,
    /// The definition has a form that is not supported.
    NotImplemented,
    /// A section separator other than `---types---` and `---functions---`.
    UnknownSeparator,
}

/// The mathematical view of a [`Type`].
pub struct TypeView {
    pub namespace: Seq<Seq<char>>,
    pub name: Seq<char>,
    pub bare: bool,
    pub generic_ref: bool,
    pub generic_arg: Option<Box<TypeView>>,
}

/// The mathematical view of a [`Flag`].
pub struct FlagView {
    pub name: Seq<char>,
    pub index: u32,
}

/// The mathematical view of a [`ParameterType`].
pub enum ParameterTypeView {
    Flags,
    Normal { ty: TypeView, flag: Option<FlagView> },
}

/// The mathematical view of a [`Parameter`].
pub struct ParameterView {
    pub name: Seq<char>,
    pub ty: ParameterTypeView,
}

/// The mathematical view of a [`Definition`].
pub struct DefinitionView {
    pub namespace: Seq<Seq<char>>,
    pub name: Seq<char>,
    pub id: u32,
    pub params: Seq<ParameterView>,
    pub ty: TypeView,
    pub category: Category,
}

/// The mathematical view of a [`ParamParseError`].
pub enum ParamErrorView {
    Empty,
    InvalidFlag,
    InvalidGeneric,
    InvalidName,
    TypeDef { name: Seq<char> },
    MissingDef,
    NotImplemented,
}

/// The mathematical view of a [`ParseError`].
pub enum ParseErrorView {
    Empty,
    InvalidId,
    InvalidParam(ParamErrorView),
    MissingName,
    MissingType,
    NotImplemented,
    UnknownSeparator,
}

/// The views of a sequence of strings.
pub open spec fn string_views(v: Seq<String>) -> Seq<Seq<char>> {
    Seq::new(v.len(), |i: int| v[i]@)
}

impl View for Type {
    type V = TypeView;

    open spec fn view(&self) -> TypeView
        decreases self,
    {
        TypeView {
            namespace: string_views(self.namespace@),
            name: self.name@,
            bare: self.bare,
            generic_ref: self.generic_ref,
            generic_arg: match &self.generic_arg {
                Some(a) => Some(Box::new((**a).view())),
                None => None,
            },
        }
    }
}

impl View for Flag {
    type V = FlagView;

    open spec fn view(&self) -> FlagView {
        FlagView { name: self.name@, index: self.index }
    }
}

impl View for ParameterType {
    type V = ParameterTypeView;

    open spec fn view(&self) -> ParameterTypeView {
        match self {
            ParameterType::Flags => ParameterTypeView::Flags,
            ParameterType::Normal { ty, flag } => ParameterTypeView::Normal {
                ty: ty.view(),
                flag: match flag {
                    Some(f) => Some(f.view()),
                    None => None,
                },
            },
        }
    }
}

impl View for Parameter {
    type V = ParameterView;

    open spec fn view(&self) -> ParameterView {
        ParameterView { name: self.name@, ty: self.ty.view() }
    }
}

/// The views of a sequence of parameters.
pub open spec fn parameter_views(v: Seq<Parameter>) -> Seq<ParameterView> {
    Seq::new(v.len(), |i: int| v[i].view())
}

impl View for Definition {
    type V = DefinitionView;

    open spec fn view(&self) -> DefinitionView {
        DefinitionView {
            namespace: string_views(self.namespace@),
            name: self.name@,
            id: self.id,
            params: parameter_views(self.params@),
            ty: self.ty.view(),
            category: self.category,
        }
    }
}

impl View for ParamParseError {
    type V = ParamErrorView;

    open spec fn view(&self) -> ParamErrorView {
        match self {
            ParamParseError::Empty => ParamErrorView::Empty,
            ParamParseError::InvalidFlag => ParamErrorView::InvalidFlag,
            ParamParseError::InvalidGeneric => ParamErrorView::InvalidGeneric,
            ParamParseError::InvalidName => ParamErrorView::InvalidName,
            ParamParseError::TypeDef { name } => ParamErrorView::TypeDef { name: name@ },
            ParamParseError::MissingDef => ParamErrorView::MissingDef,
            ParamParseError::NotImplemented => ParamErrorView::NotImplemented,
        }
    }
}

impl View for ParseError {
    type V = ParseErrorView;

    open spec fn view(&self) -> ParseErrorView {
        match self {
            ParseError::Empty => ParseErrorView::Empty,
            ParseError::InvalidId => ParseErrorView::InvalidId,
            ParseError::InvalidParam(e) => ParseErrorView::InvalidParam(e.view()),
            ParseError::MissingName => ParseErrorView::MissingName,
            ParseError::MissingType => ParseErrorView::MissingType,
            ParseError::NotImplemented => ParseErrorView::NotImplemented,
            ParseError::UnknownSeparator => ParseErrorView::UnknownSeparator,
        }
    }
}

/// The view of a parse result.
pub open spec fn type_result_view(r: Result<Type, ParamParseError>) -> Result<TypeView, ParamErrorView> {
    match r {
        Ok(t) => Ok(t.view()),
        Err(e) => Err(e.view()),
    }
}

/// The view of a parse result.
pub open spec fn flag_result_view(r: Result<Flag, ParamParseError>) -> Result<FlagView, ParamErrorView> {
    match r {
        Ok(f) => Ok(f.view()),
        Err(e) => Err(e.view()),
    }
}

/// The view of a parse result.
pub open spec fn param_result_view(r: Result<Parameter, ParamParseError>) -> Result<ParameterView, ParamErrorView> {
    match r {
        Ok(p) => Ok(p.view()),
        Err(e) => Err(e.view()),
    }
}

/// The view of a parse result.
pub open spec fn def_result_view(r: Result<Definition, ParseError>) -> Result<DefinitionView, ParseErrorView> {
    match r {
        Ok(d) => Ok(d.view()),
        Err(e) => Err(e.view()),
    }
}

} // verus!
