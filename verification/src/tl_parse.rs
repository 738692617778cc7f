//! Parsing of single TL definitions, parameters and types.

use vstd::prelude::*;
use crate::text::{
    ends_with, first_index, is_ws, lemma_split_after_piece, lemma_split_single,
    lemma_trim_padded, all_digits, digit_value, non_ws_pred, has_suffix, is_char, lemma_first_index, parse_u32, parse_u32_radix,
    has_prefix, position_of, same_chars, split, split_slice, starts_with, string_of, tokens,
    tokens_of, trim, trim_slice, views, digits_value, decimal, law_decimal_reads_back,
    lemma_split_concat,
};
use crate::tl::{
    Category, Definition, DefinitionView, ParseError, ParseErrorView, def_result_view,
    parameter_views, Flag, FlagView, ParamErrorView, ParamParseError, Parameter, ParameterType,
    ParameterTypeView, ParameterView, Type, TypeView, flag_result_view, param_result_view,
    string_views, type_result_view,
};

verus! {

/// Whether `c` is an ASCII lowercase letter.
pub open spec fn is_ascii_lower(c: char) -> bool {
    'a' <= c <= 'z'
}

/// Whether one of `parts` is empty.
pub open spec fn has_empty(parts: Seq<Seq<char>>) -> bool {
    exists|i: int| 0 <= i < parts.len() && (#[trigger] parts[i]).len() == 0
}

/// The type named by the dotted path `base`: every dot-separated part must be
/// non-empty; the last part is the name, the others the namespace.
pub open spec fn named_type(
    base: Seq<char>,
    generic_ref: bool,
    arg: Option<Box<TypeView>>,
) -> Result<TypeView, ParamErrorView> {
    let parts = split(base, '.');
    if has_empty(parts) {
        Err(ParamErrorView::Empty)
    } else {
        Ok(
            TypeView {
                namespace: parts.drop_last(),
                name: parts.last(),
                bare: is_ascii_lower(parts.last()[0]),
                generic_ref,
                generic_arg: arg,
            },
        )
    }
}

/// The type that the text `s` denotes: an optional `!` (a reference to a
/// generic parameter), then a dotted name, then optionally a generic argument
/// between `<` and a final `>`.
pub open spec fn type_from(s: Seq<char>) -> Result<TypeView, ParamErrorView>
    decreases s.len(),
{
    let generic_ref = s.len() > 0 && s[0] == '!';
    let t = if generic_ref {
        s.drop_first()
    } else {
        s
    };
    let p = first_index(t, is_char('<'));
    if p < t.len() {
        if !(t.len() > 0 && t.last() == '>') {
            Err(ParamErrorView::InvalidGeneric)
        } else {
            proof {
                lemma_first_index(t, is_char('<'));
            }
            match type_from(t.subrange(p + 1, t.len() - 1)) {
                Ok(a) => named_type(t.subrange(0, p), generic_ref, Some(Box::new(a))),
                Err(e) => Err(e),
            }
        }
    } else {
        named_type(t, generic_ref, None)
    }
}

/// The strings of `parts`, in order.
fn strings_of(parts: &Vec<&[char]>, n: usize) -> (r: Vec<String>)
    requires
        n <= parts@.len(),
    ensures
        string_views(r@) == views(parts@).take(n as int),
{
    let mut out: Vec<String> = Vec::new();
    let mut i: usize = 0;
    while i < n
        invariant
            i <= n <= parts@.len(),
            string_views(out@) == views(parts@).take(i as int),
        decreases n - i,
    {
        let s = string_of(parts[i]);
        let ghost before = out@;
        out.push(s);
        assert(string_views(out@) =~= string_views(before).push(s@));
        assert(views(parts@).take(i + 1) =~= views(parts@).take(i as int).push(parts@[i as int]@));
        i = i + 1;
    }
    out
}

/// Whether one of `parts` is empty.
fn any_empty(parts: &Vec<&[char]>) -> (r: bool)
    ensures
        r == has_empty(views(parts@)),
{
    let mut i: usize = 0;
    while i < parts.len()
        invariant
            i <= parts@.len(),
            forall|j: int| 0 <= j < i ==> (#[trigger] views(parts@)[j]).len() != 0,
        decreases parts@.len() - i,
    {
        if parts[i].len() == 0 {
            assert(views(parts@)[i as int].len() == 0);
            return true;
        }
        i = i + 1;
    }
    false
}

fn make_named_type(base: &[char], generic_ref: bool, arg: Option<Box<Type>>) -> (r: Result<
    Type,
    ParamParseError,
>)
    ensures
        type_result_view(r) == named_type(
            base@,
            generic_ref,
            match arg {
                Some(a) => Some(Box::new((*a).view())),
                None => None,
            },
        ),
{
    let parts = split_slice(base, '.');
    if any_empty(&parts) {
        return Err(ParamParseError::Empty);
    }
    let n = parts.len();
    let namespace = strings_of(&parts, n - 1);
    let last = parts[n - 1];
    let name = string_of(last);
    assert(views(parts@)[n - 1].len() != 0);
    let first = last[0];
    let bare = 'a' <= first && first <= 'z';
    let ty = Type { namespace, name, bare, generic_ref, generic_arg: arg };
    assert(views(parts@).drop_last() =~= views(parts@).take(n - 1));
    Ok(ty)
}

/// Parses the type that the text `s` denotes.
pub fn parse_type(s: &[char]) -> (r: Result<Type, ParamParseError>)
    ensures
        type_result_view(r) == type_from(s@),
    decreases s@.len(),
{
    let generic_ref = s.len() > 0 && s[0] == '!';
    let t = if generic_ref {
        vstd::slice::slice_subrange(s, 1, s.len())
    } else {
        s
    };
    assert(t@ == (if generic_ref {
        s@.drop_first()
    } else {
        s@
    }));
    let p = position_of(t, '<');
    proof {
        lemma_first_index(t@, is_char('<'));
    }
    if p < t.len() {
        if !(t.len() > 0 && t[t.len() - 1] == '>') {
            return Err(ParamParseError::InvalidGeneric);
        }
        let inner = vstd::slice::slice_subrange(t, p + 1, t.len() - 1);
        match parse_type(inner) {
            Ok(a) => {
                let base = vstd::slice::slice_subrange(t, 0, p);
                make_named_type(base, generic_ref, Some(Box::new(a)))
            },
            Err(e) => Err(e),
        }
    } else {
        make_named_type(t, generic_ref, None)
    }
}


/// The flag that the text `s` denotes: `name.index`, cut at the first dot,
/// with a decimal index.
pub open spec fn flag_from(s: Seq<char>) -> Result<FlagView, ParamErrorView> {
    let p = first_index(s, is_char('.'));
    if p < s.len() {
        match parse_u32(s.subrange(p + 1, s.len() as int), 10) {
            Some(v) => Ok(FlagView { name: s.subrange(0, p), index: v }),
            None => Err(ParamErrorView::InvalidFlag),
        }
    } else {
        Err(ParamErrorView::InvalidFlag)
    }
}

/// Parses the flag that the text `s` denotes.
pub fn parse_flag(s: &[char]) -> (r: Result<Flag, ParamParseError>)
    ensures
        flag_result_view(r) == flag_from(s@),
{
    let p = position_of(s, '.');
    proof {
        lemma_first_index(s@, is_char('.'));
    }
    if p < s.len() {
        let digits = vstd::slice::slice_subrange(s, p + 1, s.len());
        match parse_u32_radix(digits, 10) {
            Some(v) => {
                let name = string_of(vstd::slice::slice_subrange(s, 0, p));
                Ok(Flag { name, index: v })
            },
            None => Err(ParamParseError::InvalidFlag),
        }
    } else {
        Err(ParamParseError::InvalidFlag)
    }
}

/// The suffix of a generic type declaration, `{X:Type}`.
pub open spec fn type_decl_suffix() -> Seq<char> {
    seq![':', 'T', 'y', 'p', 'e', '}']
}

/// The parameter that the word `s` denotes:
/// - `{X:Type}` declares the generic type `X` (reported as `TypeDef`), and any
///   other word that starts with `{` is `MissingDef`;
/// - otherwise the word is cut at `:` into a non-empty name and a type; a word
///   without `:` is not supported;
/// - the type `#` makes a flags field; a type `flag?ty` is gated by a flag.
#[verifier::opaque]
pub open spec fn parameter_from(s: Seq<char>) -> Result<ParameterView, ParamErrorView> {
    if s.len() > 0 && s[0] == '{' {
        let d = s.drop_first();
        if ends_with(d, type_decl_suffix()) {
            Err(ParamErrorView::TypeDef { name: d.subrange(0, d.len() - 6) })
        } else {
            Err(ParamErrorView::MissingDef)
        }
    } else {
        let parts = split(s, ':');
        if parts.len() < 2 {
            Err(ParamErrorView::NotImplemented)
        } else if parts[0].len() == 0 {
            Err(ParamErrorView::Empty)
        } else if parts[1] == seq!['#'] {
            Ok(ParameterView { name: parts[0], ty: ParameterTypeView::Flags })
        } else {
            let ty = parts[1];
            let q = first_index(ty, is_char('?'));
            if q < ty.len() {
                match flag_from(ty.subrange(0, q)) {
                    Err(e) => Err(e),
                    Ok(f) => match type_from(ty.subrange(q + 1, ty.len() as int)) {
                        Err(e) => Err(e),
                        Ok(t) => Ok(
                            ParameterView {
                                name: parts[0],
                                ty: ParameterTypeView::Normal { ty: t, flag: Some(f) },
                            },
                        ),
                    },
                }
            } else {
                match type_from(ty) {
                    Err(e) => Err(e),
                    Ok(t) => Ok(
                        ParameterView {
                            name: parts[0],
                            ty: ParameterTypeView::Normal { ty: t, flag: None },
                        },
                    ),
                }
            }
        }
    }
}

/// A word `name:#` with a non-empty name free of `:` declares the flags
/// field `name`.
pub proof fn law_flags_parameter(name: Seq<char>)
    requires
        name.len() > 0,
        !name.contains(':'),
        name[0] != '{',
    ensures
        parameter_from(name + seq![':', '#']) == Ok::<ParameterView, ParamErrorView>(
            ParameterView { name, ty: ParameterTypeView::Flags },
        ),
{
    reveal(parameter_from);
    let s = name + seq![':', '#'];
    assert(s =~= name + seq![':'] + seq!['#']);
    lemma_split_after_piece(name, ':', seq!['#']);
    lemma_first_index(seq!['#'], is_char(':'));
    assert(split(seq!['#'], ':') == seq![seq!['#']]);
    assert(split(s, ':') =~= seq![name, seq!['#']]);
}

/// A type written with a leading `!` is a reference to a generic parameter.
pub proof fn law_bang_marks_generic_ref(s: Seq<char>)
    ensures
        type_from(seq!['!'] + s) matches Ok(t) ==> t.generic_ref,
{
    let t = seq!['!'] + s;
    assert(t.drop_first() =~= s);
}

/// Parses the parameter that the word `s` denotes.
pub fn parse_parameter(s: &[char]) -> (r: Result<Parameter, ParamParseError>)
    ensures
        param_result_view(r) == parameter_from(s@),
{
    reveal(parameter_from);
    if s.len() > 0 && s[0] == '{' {
        let d = vstd::slice::slice_subrange(s, 1, s.len());
        assert(d@ == s@.drop_first());
        let suffix = [':', 'T', 'y', 'p', 'e', '}'];
        let suffix = suffix.as_slice();
        assert(suffix@ == type_decl_suffix());
        if has_suffix(d, suffix) {
            let name = string_of(vstd::slice::slice_subrange(d, 0, d.len() - 6));
            return Err(ParamParseError::TypeDef { name });
        } else {
            return Err(ParamParseError::MissingDef);
        }
    }
    let parts = split_slice(s, ':');
    if parts.len() < 2 {
        return Err(ParamParseError::NotImplemented);
    }
    assert(views(parts@)[0] == parts@[0]@);
    assert(views(parts@)[1] == parts@[1]@);
    if parts[0].len() == 0 {
        return Err(ParamParseError::Empty);
    }
    let name = string_of(parts[0]);
    let ty = parts[1];
    let hash = ['#'];
    let hash = hash.as_slice();
    assert(hash@ == seq!['#']);
    if same_chars(ty, hash) {
        return Ok(Parameter { name, ty: ParameterType::Flags });
    }
    let q = position_of(ty, '?');
    proof {
        lemma_first_index(ty@, is_char('?'));
    }
    if q < ty.len() {
        match parse_flag(vstd::slice::slice_subrange(ty, 0, q)) {
            Err(e) => Err(e),
            Ok(f) => match parse_type(vstd::slice::slice_subrange(ty, q + 1, ty.len())) {
                Err(e) => Err(e),
                Ok(t) => Ok(Parameter { name, ty: ParameterType::Normal { ty: t, flag: Some(f) } }),
            },
        }
    } else {
        match parse_type(ty) {
            Err(e) => Err(e),
            Ok(t) => Ok(Parameter { name, ty: ParameterType::Normal { ty: t, flag: None } }),
        }
    }
}


/// The CRC-32 (IEEE 802.3) checksum of the UTF-8 encoding of `s`.
pub uninterp spec fn crc32_ieee(s: Seq<char>) -> u32;

/// The CRC-32 checksum of the UTF-8 encoding of `s`, by `crc32fast::hash`.
/// The checksum is named, not stated: `crc32_ieee` stands for it.
#[verifier::external_body]
fn crc32_of(s: &[char]) -> (r: u32)
    ensures
        r == crc32_ieee(s@),
{
    let text: String = s.iter().collect();
    crc32fast::hash(text.as_bytes())
}

/// The text of a definition with `<` turned into a space and `>`, `{`, `}`
/// dropped, as the identifier of a definition is computed over it.
pub open spec fn id_chars(s: Seq<char>) -> Seq<char>
    decreases s.len(),
{
    if s.len() == 0 {
        seq![]
    } else {
        let prev = id_chars(s.drop_last());
        let c = s.last();
        if c == '<' {
            prev.push(' ')
        } else if c == '>' || c == '{' || c == '}' {
            prev
        } else {
            prev.push(c)
        }
    }
}

/// The suffix of a field whose flag alone carries it, `?true`.
pub open spec fn true_suffix() -> Seq<char> {
    seq!['?', 't', 'r', 'u', 'e']
}

/// Whether the word `t` is a `name:flags.N?true` field, which the identifier
/// does not cover.
pub open spec fn is_true_field(t: Seq<char>) -> bool {
    first_index(t, is_char(':')) < t.len() && ends_with(t, true_suffix())
}

/// The word `t` with a final `:bytes` or `?bytes` written as `string`, the
/// type that `bytes` stands for in identifiers.
pub open spec fn bytes_as_string(t: Seq<char>) -> Seq<char> {
    if ends_with(t, seq![':', 'b', 'y', 't', 'e', 's']) || ends_with(
        t,
        seq!['?', 'b', 'y', 't', 'e', 's'],
    ) {
        t.subrange(0, t.len() - 5) + seq!['s', 't', 'r', 'i', 'n', 'g']
    } else {
        t
    }
}

/// The words `toks`, without the `?true` fields and with `bytes` written as
/// `string`, joined by single spaces.
pub open spec fn id_text(toks: Seq<Seq<char>>) -> Seq<char>
    decreases toks.len(),
{
    if toks.len() == 0 {
        seq![]
    } else {
        let prev = id_text(toks.drop_last());
        let t = toks.last();
        if is_true_field(t) {
            prev
        } else if prev.len() == 0 {
            bytes_as_string(t)
        } else {
            prev + seq![' '] + bytes_as_string(t)
        }
    }
}

/// The identifier of a definition that states none: the CRC-32 of its
/// normalized text.
pub open spec fn inferred_id(def: Seq<char>) -> u32 {
    crc32_ieee(id_source(def))
}

/// Appends the characters of `t` to `v`.
fn append_chars(v: &mut Vec<char>, t: &[char])
    ensures
        final(v)@ == old(v)@ + t@,
{
    let n = t.len();
    let mut i: usize = 0;
    while i < n
        invariant
            i <= n,
            n == t@.len(),
            v@ == old(v)@ + t@.take(i as int),
        decreases n - i,
    {
        v.push(t[i]);
        assert(t@.take(i + 1) =~= t@.take(i as int).push(t@[i as int]));
        i = i + 1;
    }
    assert(t@.take(n as int) =~= t@);
}

/// The normalized text of the definition `def` over which its identifier
/// is computed.
pub open spec fn id_source(def: Seq<char>) -> Seq<char> {
    id_text(tokens(id_chars(def)))
}

/// Computes the identifier of the definition `def`, which states none.
pub fn infer_id(def: &[char]) -> (r: u32)
    ensures
        r == inferred_id(def@),
{
    let text = id_source_of(def);
    crc32_of(text.as_slice())
}

/// The normalized text of the definition `def` over which its identifier is
/// computed: `<` read as a space, `>`, `{` and `}` dropped, the `?true`
/// fields left out, `bytes` written as `string`, and the words joined by
/// single spaces.
pub fn id_source_of(def: &[char]) -> (r: Vec<char>)
    ensures
        r@ == id_source(def@),
{
    let mut mapped: Vec<char> = Vec::new();
    let n = def.len();
    let mut i: usize = 0;
    while i < n
        invariant
            i <= n,
            n == def@.len(),
            mapped@ == id_chars(def@.take(i as int)),
        decreases n - i,
    {
        let c = def[i];
        assert(def@.take(i + 1).drop_last() =~= def@.take(i as int));
        if c == '<' {
            mapped.push(' ');
        } else if c == '>' || c == '{' || c == '}' {
        } else {
            mapped.push(c);
        }
        i = i + 1;
    }
    assert(def@.take(n as int) =~= def@);
    let words = tokens_of(mapped.as_slice());
    let true_sfx = ['?', 't', 'r', 'u', 'e'];
    let true_sfx = true_sfx.as_slice();
    let colon_bytes = [':', 'b', 'y', 't', 'e', 's'];
    let colon_bytes = colon_bytes.as_slice();
    let q_bytes = ['?', 'b', 'y', 't', 'e', 's'];
    let q_bytes = q_bytes.as_slice();
    let string_word = ['s', 't', 'r', 'i', 'n', 'g'];
    let string_word = string_word.as_slice();
    let mut text: Vec<char> = Vec::new();
    let m = words.len();
    let mut k: usize = 0;
    while k < m
        invariant
            k <= m,
            m == words@.len(),
            true_sfx@ == true_suffix(),
            colon_bytes@ == seq![':', 'b', 'y', 't', 'e', 's'],
            q_bytes@ == seq!['?', 'b', 'y', 't', 'e', 's'],
            string_word@ == seq!['s', 't', 'r', 'i', 'n', 'g'],
            text@ == id_text(views(words@).take(k as int)),
        decreases m - k,
    {
        let w = words[k];
        let ghost toks = views(words@).take(k + 1);
        assert(toks.drop_last() =~= views(words@).take(k as int));
        assert(toks.last() == w@);
        let colon = position_of(w, ':');
        proof {
            lemma_first_index(w@, is_char(':'));
        }
        let is_true = colon < w.len() && has_suffix(w, true_sfx);
        if !is_true {
            let ghost before = text@;
            if text.len() > 0 {
                text.push(' ');
            }
            let ghost spaced = text@;
            if has_suffix(w, colon_bytes) || has_suffix(w, q_bytes) {
                append_chars(&mut text, vstd::slice::slice_subrange(w, 0, w.len() - 5));
                append_chars(&mut text, string_word);
            } else {
                append_chars(&mut text, w);
            }
            assert(text@ =~= spaced + bytes_as_string(w@));
            proof {
                if before.len() > 0 {
                    assert(spaced =~= before + seq![' ']);
                }
            }
        }
        k = k + 1;
    }
    assert(views(words@).take(m as int) =~= views(words@));
    text
}


/// What the parameters of a definition amount to: the parameters, in order,
/// the generic types that `{X:Type}` words declare, and the names of the
/// flags fields.
pub struct ParamsView {
    pub params: Seq<ParameterView>,
    pub type_defs: Seq<Seq<char>>,
    pub flag_defs: Seq<Seq<char>>,
}

/// The parameters that the words `toks` denote, or the error of the first
/// word that is not a parameter nor a type declaration.
pub open spec fn params_from(toks: Seq<Seq<char>>) -> Result<ParamsView, ParamErrorView>
    decreases toks.len(),
{
    if toks.len() == 0 {
        Ok(ParamsView { params: seq![], type_defs: seq![], flag_defs: seq![] })
    } else {
        match params_from(toks.drop_last()) {
            Err(e) => Err(e),
            Ok(acc) => match parameter_from(toks.last()) {
                Err(ParamErrorView::TypeDef { name }) => Ok(
                    ParamsView { type_defs: acc.type_defs.push(name), ..acc },
                ),
                Err(e) => Err(e),
                Ok(p) => Ok(
                    ParamsView {
                        params: acc.params.push(p),
                        flag_defs: if p.ty is Flags {
                            acc.flag_defs.push(p.name)
                        } else {
                            acc.flag_defs
                        },
                        ..acc
                    },
                ),
            },
        }
    }
}

/// Whether the parameter `p` uses a generic type or a flag that the
/// definition does not declare.
pub open spec fn uses_undeclared(
    p: ParameterView,
    type_defs: Seq<Seq<char>>,
    flag_defs: Seq<Seq<char>>,
) -> bool {
    match p.ty {
        ParameterTypeView::Flags => false,
        ParameterTypeView::Normal { ty, flag } => (ty.generic_ref && !type_defs.contains(ty.name))
            || (match flag {
            Some(f) => !flag_defs.contains(f.name),
            None => false,
        }),
    }
}

/// Whether some parameter uses a generic type or a flag that is not declared.
pub open spec fn some_undeclared(acc: ParamsView) -> bool {
    exists|i: int|
        0 <= i < acc.params.len() && uses_undeclared(
            #[trigger] acc.params[i],
            acc.type_defs,
            acc.flag_defs,
        )
}

/// The definition that the text `def` denotes:
/// `ns.name#id params = Type`. The text is cut at `=` into a left side and a
/// type; the left side is cut at its first space into the name and the
/// parameters; the name is cut at `#` into a dotted name and a hexadecimal
/// identifier, which when absent is inferred from the text. A result type
/// named by a `{X:Type}` declaration is a generic reference, and every generic
/// reference and flag that a parameter uses must be declared.
///
/// The parameter words are read first, all of them: the first word that is
/// neither a parameter nor a `{X:Type}` declaration decides the error. Only
/// then are the uses checked, against the declarations of the whole
/// definition, so a declaration may stand after the parameter that uses it.
/// The check covers the type of each parameter itself and its flag, not the
/// argument of a generic type: in `Vector<!X>` the `!X` is not checked.
#[verifier::opaque]
pub open spec fn definition_from(def: Seq<char>) -> Result<DefinitionView, ParseErrorView> {
    let parts = split(def, '=');
    if trim(def).len() == 0 {
        Err(ParseErrorView::Empty)
    } else if parts.len() < 2 {
        Err(ParseErrorView::MissingType)
    } else {
        let left = trim(parts[0]);
        match type_from(trim(parts[1])) {
            Err(_) => Err(ParseErrorView::MissingType),
            Ok(ty0) => {
                let sp = first_index(left, is_char(' '));
                let name_part = if sp < left.len() {
                    left.subrange(0, sp)
                } else {
                    trim(left)
                };
                let middle = if sp < left.len() {
                    trim(left.subrange(sp, left.len() as int))
                } else {
                    seq![]
                };
                let np = split(name_part, '#');
                let ns = split(np[0], '.');
                if has_empty(ns) {
                    Err(ParseErrorView::MissingName)
                } else {
                    let id = if np.len() >= 2 {
                        parse_u32(np[1], 16)
                    } else {
                        Some(inferred_id(def))
                    };
                    match id {
                        None => Err(ParseErrorView::InvalidId),
                        Some(id) => match params_from(tokens(middle)) {
                            Err(e) => Err(ParseErrorView::InvalidParam(e)),
                            Ok(acc) => {
                                let ty = if acc.type_defs.contains(ty0.name) {
                                    TypeView { generic_ref: true, ..ty0 }
                                } else {
                                    ty0
                                };
                                if some_undeclared(acc) {
                                    Err(ParseErrorView::InvalidParam(ParamErrorView::MissingDef))
                                } else {
                                    Ok(
                                        DefinitionView {
                                            namespace: ns.drop_last(),
                                            name: ns.last(),
                                            id,
                                            params: acc.params,
                                            ty,
                                            category: Category::Types,
                                        },
                                    )
                                }
                            },
                        },
                    }
                }
            },
        }
    }
}

/// Every definition that `definition_from` yields stands in the types section.
pub proof fn lemma_definition_in_types(def: Seq<char>)
    ensures
        definition_from(def) matches Ok(d) ==> d.category == Category::Types,
{
    reveal(definition_from);
}

/// Whether `h` is a number text that `parse_u32` reads: digits, after an
/// optional `+`.
proof fn lemma_number_chars(h: Seq<char>, radix: nat, i: int)
    requires
        radix <= 16,
        parse_u32(h, radix) is Some,
        0 <= i < h.len(),
    ensures
        h[i] != '=' && h[i] != ' ' && h[i] != '#' && !is_ws(h[i]),
{
    let digits = if h.len() > 0 && h[0] == '+' {
        h.drop_first()
    } else {
        h
    };
    if h[0] == '+' && i == 0 {
    } else {
        let j = if h[0] == '+' {
            i - 1
        } else {
            i
        };
        assert(digits[j] == h[i]);
        assert(digit_value(digits[j], radix) is Some);
    }
}

/// The steps that a definition `left = Type` without parameters goes
/// through: the text cuts at `=` into `left ` and ` Type`, it is not blank,
/// the two sides trim to `left` and `Type`, the left side has no space (so
/// the name part is all of it and there are no parameter words), and the
/// empty list of parameter words declares nothing.
proof fn lemma_parameterless_definition(left: Seq<char>, ty: Seq<char>, t: TypeView)
    requires
        left.len() > 0,
        !is_ws(left[0]),
        !is_ws(left.last()),
        !left.contains('='),
        !left.contains(' '),
        ty.len() > 0,
        !is_ws(ty[0]),
        !is_ws(ty.last()),
        !ty.contains('='),
    ensures
        ({
            let def = left + seq![' ', '=', ' '] + ty;
            &&& split(def, '=') == seq![left + seq![' '], seq![' '] + ty]
            &&& trim(def).len() != 0
            &&& trim(left + seq![' ']) == left
            &&& trim(seq![' '] + ty) == ty
            &&& trim(left) == left
            &&& first_index(left, is_char(' ')) == left.len()
            &&& tokens(Seq::<char>::empty()) == Seq::<Seq<char>>::empty()
            &&& params_from(Seq::<Seq<char>>::empty()) == Ok::<ParamsView, ParamErrorView>(
                ParamsView { params: seq![], type_defs: seq![], flag_defs: seq![] },
            )
            &&& !some_undeclared(ParamsView { params: seq![], type_defs: seq![], flag_defs: seq![] })
            &&& !seq![].contains(t.name)
        }),
{
    let def = left + seq![' ', '=', ' '] + ty;
    let a = left + seq![' '];
    let b = seq![' '] + ty;
    assert(def =~= a + seq!['='] + b);
    assert(!a.contains('=')) by {
        if a.contains('=') {
            let i = choose|i: int| 0 <= i < a.len() && a[i] == '=';
            assert(left[i] == a[i]);
        }
    }
    assert(!b.contains('=')) by {
        if b.contains('=') {
            let i = choose|i: int| 0 <= i < b.len() && b[i] == '=';
            assert(ty[i - 1] == b[i]);
        }
    }
    lemma_split_after_piece(a, '=', b);
    lemma_split_single(b, '=');
    assert(split(def, '=') =~= seq![a, b]);
    assert(def =~= Seq::<char>::empty() + def + Seq::<char>::empty());
    assert(def[0] == left[0]);
    assert(def.last() == ty.last());
    lemma_trim_padded(Seq::<char>::empty(), def, Seq::<char>::empty());
    assert(a =~= Seq::<char>::empty() + left + seq![' ']);
    lemma_trim_padded(Seq::<char>::empty(), left, seq![' ']);
    assert(b =~= seq![' '] + ty + Seq::<char>::empty());
    lemma_trim_padded(seq![' '], ty, Seq::<char>::empty());
    assert(left =~= Seq::<char>::empty() + left + Seq::<char>::empty());
    lemma_trim_padded(Seq::<char>::empty(), left, Seq::<char>::empty());
    lemma_first_index(left, is_char(' '));
    if first_index(left, is_char(' ')) < left.len() {
        assert(left[first_index(left, is_char(' '))] == ' ');
    }
    assert(tokens(Seq::<char>::empty()) =~= Seq::<Seq<char>>::empty()) by {
        lemma_first_index(Seq::<char>::empty(), non_ws_pred());
    }
}

/// A definition that states its identifier, `name#hex = Type`, is read with
/// that identifier, its name and its type, and no parameter.
pub proof fn law_stated_id(name: Seq<char>, hex: Seq<char>, ty: Seq<char>, t: TypeView, id: u32)
    requires
        name.len() > 0,
        !is_ws(name[0]),
        !name.contains('.'),
        !name.contains('#'),
        !name.contains('='),
        !name.contains(' '),
        parse_u32(hex, 16) == Some(id),
        ty.len() > 0,
        !is_ws(ty[0]),
        !is_ws(ty.last()),
        !ty.contains('='),
        type_from(ty) == Ok::<TypeView, ParamErrorView>(t),
    ensures
        definition_from(name + seq!['#'] + hex + seq![' ', '=', ' '] + ty) == Ok::<
            DefinitionView,
            ParseErrorView,
        >(
            DefinitionView {
                namespace: seq![],
                name,
                id,
                params: seq![],
                ty: t,
                category: Category::Types,
            },
        ),
{
    reveal(definition_from);
    let left = name + seq!['#'] + hex;
    assert forall|i: int| 0 <= i < hex.len() implies hex[i] != '=' && hex[i] != ' ' && hex[i]
        != '#' && !is_ws(#[trigger] hex[i]) by {
        lemma_number_chars(hex, 16, i);
    }
    assert(hex.len() > 0);
    assert forall|i: int| 0 <= i < left.len() implies left[i] != '=' && left[i] != ' ' by {
        if i < name.len() {
            assert(left[i] == name[i]);
        } else if i > name.len() {
            assert(left[i] == hex[i - name.len() - 1]);
        }
    }
    assert(left[0] == name[0]);
    assert(left.last() == hex.last());
    lemma_parameterless_definition(left, ty, t);
    assert(name + seq!['#'] + hex + seq![' ', '=', ' '] + ty =~= left + seq![' ', '=', ' '] + ty);
    lemma_split_after_piece(name, '#', hex);
    lemma_split_single(hex, '#');
    assert(split(left, '#') =~= seq![name, hex]);
    lemma_split_single(name, '.');
    assert(!has_empty(seq![name]));
    assert(seq![name].drop_last() =~= Seq::<Seq<char>>::empty());
}

/// A definition that states no identifier, `name = Type`, is read with the
/// identifier inferred from its text, its name and its type, and no
/// parameter.
pub proof fn law_inferred_id(name: Seq<char>, ty: Seq<char>, t: TypeView)
    requires
        name.len() > 0,
        !is_ws(name[0]),
        !is_ws(name.last()),
        !name.contains('.'),
        !name.contains('#'),
        !name.contains('='),
        !name.contains(' '),
        ty.len() > 0,
        !is_ws(ty[0]),
        !is_ws(ty.last()),
        !ty.contains('='),
        type_from(ty) == Ok::<TypeView, ParamErrorView>(t),
    ensures
        definition_from(name + seq![' ', '=', ' '] + ty) == Ok::<DefinitionView, ParseErrorView>(
            DefinitionView {
                namespace: seq![],
                name,
                id: inferred_id(name + seq![' ', '=', ' '] + ty),
                params: seq![],
                ty: t,
                category: Category::Types,
            },
        ),
{
    reveal(definition_from);
    lemma_parameterless_definition(name, ty, t);
    lemma_split_single(name, '#');
    lemma_split_single(name, '.');
    assert(!has_empty(seq![name]));
    assert(seq![name].drop_last() =~= Seq::<Seq<char>>::empty());
}

/// Whether `names` holds `name`.
fn holds_name(names: &Vec<String>, name: &String) -> (r: bool)
    ensures
        r == string_views(names@).contains(name@),
{
    let mut i: usize = 0;
    while i < names.len()
        invariant
            i <= names@.len(),
            forall|j: int| 0 <= j < i ==> (#[trigger] string_views(names@)[j]) != name@,
        decreases names@.len() - i,
    {
        if names[i] == *name {
            assert(string_views(names@)[i as int] == name@);
            return true;
        }
        i = i + 1;
    }
    false
}

/// Parses the parameter words `words`.
fn parse_params(words: &Vec<&[char]>) -> (r: Result<
    (Vec<Parameter>, Vec<String>, Vec<String>),
    ParamParseError,
>)
    ensures
        match r {
            Ok((ps, td, fd)) => params_from(views(words@)) == Ok::<
                ParamsView,
                ParamErrorView,
            >(
                ParamsView {
                    params: parameter_views(ps@),
                    type_defs: string_views(td@),
                    flag_defs: string_views(fd@),
                },
            ),
            Err(e) => params_from(views(words@)) == Err::<ParamsView, ParamErrorView>(e.view()),
        },
{
    let mut ps: Vec<Parameter> = Vec::new();
    let mut td: Vec<String> = Vec::new();
    let mut fd: Vec<String> = Vec::new();
    let n = words.len();
    let mut i: usize = 0;
    assert(views(words@).take(0) =~= Seq::<Seq<char>>::empty());
    assert(parameter_views(ps@) =~= Seq::<ParameterView>::empty());
    assert(string_views(td@) =~= Seq::<Seq<char>>::empty());
    assert(string_views(fd@) =~= Seq::<Seq<char>>::empty());
    while i < n
        invariant
            i <= n,
            n == words@.len(),
            params_from(views(words@).take(i as int)) == Ok::<ParamsView, ParamErrorView>(
                ParamsView {
                    params: parameter_views(ps@),
                    type_defs: string_views(td@),
                    flag_defs: string_views(fd@),
                },
            ),
        decreases n - i,
    {
        let ghost toks = views(words@).take(i + 1);
        assert(toks.drop_last() =~= views(words@).take(i as int));
        assert(toks.last() == words@[i as int]@);
        match parse_parameter(words[i]) {
            Err(ParamParseError::TypeDef { name }) => {
                let ghost before = td@;
                td.push(name);
                assert(string_views(td@) =~= string_views(before).push(name@));
            },
            Err(e) => {
                proof {
                    lemma_params_error_persists(views(words@), i + 1);
                }
                return Err(e);
            },
            Ok(p) => {
                let is_flags = match &p.ty {
                    ParameterType::Flags => true,
                    ParameterType::Normal { .. } => false,
                };
                if is_flags {
                    let ghost before = fd@;
                    let flag_name = p.name.clone();
                    fd.push(flag_name);
                    assert(string_views(fd@) =~= string_views(before).push(p.name@));
                }
                let ghost before = ps@;
                ps.push(p);
                assert(parameter_views(ps@) =~= parameter_views(before).push(p.view()));
            },
        }
        i = i + 1;
    }
    assert(views(words@).take(n as int) =~= views(words@));
    Ok((ps, td, fd))
}

/// Once a prefix of the words fails to parse, so do all the words.
proof fn lemma_params_error_persists(toks: Seq<Seq<char>>, k: int)
    requires
        0 <= k <= toks.len(),
        params_from(toks.take(k)) is Err,
    ensures
        params_from(toks) == params_from(toks.take(k)),
    decreases toks.len() - k,
{
    if k < toks.len() {
        assert(toks.take(k + 1).drop_last() =~= toks.take(k));
        lemma_params_error_persists(toks, k + 1);
    } else {
        assert(toks.take(k) =~= toks);
    }
}


/// Whether one of `params` uses a generic type or a flag that `type_defs`
/// and `flag_defs` do not declare.
fn any_undeclared(params: &Vec<Parameter>, type_defs: &Vec<String>, flag_defs: &Vec<String>) -> (r:
    bool)
    ensures
        r == exists|i: int|
            0 <= i < params@.len() && uses_undeclared(
                #[trigger] parameter_views(params@)[i],
                string_views(type_defs@),
                string_views(flag_defs@),
            ),
{
    let mut i: usize = 0;
    while i < params.len()
        invariant
            i <= params@.len(),
            forall|j: int|
                0 <= j < i ==> !uses_undeclared(
                    #[trigger] parameter_views(params@)[j],
                    string_views(type_defs@),
                    string_views(flag_defs@),
                ),
        decreases params@.len() - i,
    {
        let bad = match &params[i].ty {
            ParameterType::Flags => false,
            ParameterType::Normal { ty, flag } => {
                let undeclared_generic = ty.generic_ref && !holds_name(type_defs, &ty.name);
                let undeclared_flag = match flag {
                    Some(f) => !holds_name(flag_defs, &f.name),
                    None => false,
                };
                undeclared_generic || undeclared_flag
            },
        };
        assert(parameter_views(params@)[i as int] == params@[i as int].view());
        if bad {
            return true;
        }
        i = i + 1;
    }
    false
}

/// Parses the definition that the text `def` denotes.
pub fn parse_definition(def: &[char]) -> (r: Result<Definition, ParseError>)
    ensures
        def_result_view(r) == definition_from(def@),
{
    reveal(definition_from);
    let parts = split_slice(def, '=');
    if trim_slice(def).len() == 0 {
        return Err(ParseError::Empty);
    }
    if parts.len() < 2 {
        return Err(ParseError::MissingType);
    }
    assert(views(parts@)[0] == parts@[0]@);
    assert(views(parts@)[1] == parts@[1]@);
    let left = trim_slice(parts[0]);
    let ty0 = match parse_type(trim_slice(parts[1])) {
        Err(_) => {
            return Err(ParseError::MissingType);
        },
        Ok(t) => t,
    };
    let sp = position_of(left, ' ');
    proof {
        lemma_first_index(left@, is_char(' '));
    }
    let no_chars: [char; 0] = [];
    let (name_part, middle) = if sp < left.len() {
        (
            vstd::slice::slice_subrange(left, 0, sp),
            trim_slice(vstd::slice::slice_subrange(left, sp, left.len())),
        )
    } else {
        (trim_slice(left), no_chars.as_slice())
    };
    assert(middle@ == (if sp < left@.len() {
        trim(left@.subrange(sp as int, left@.len() as int))
    } else {
        seq![]
    }));
    let np = split_slice(name_part, '#');
    assert(views(np@)[0] == np@[0]@);
    let ns = split_slice(np[0], '.');
    if any_empty(&ns) {
        return Err(ParseError::MissingName);
    }
    let id = if np.len() >= 2 {
        assert(views(np@)[1] == np@[1]@);
        match parse_u32_radix(np[1], 16) {
            None => {
                return Err(ParseError::InvalidId);
            },
            Some(v) => v,
        }
    } else {
        infer_id(def)
    };
    let words = tokens_of(middle);
    let (params, type_defs, flag_defs) = match parse_params(&words) {
        Err(e) => {
            return Err(ParseError::InvalidParam(e));
        },
        Ok(x) => x,
    };
    let mut ty = ty0;
    if holds_name(&type_defs, &ty.name) {
        ty.generic_ref = true;
    }
    if any_undeclared(&params, &type_defs, &flag_defs) {
        proof {
            let acc = ParamsView {
                params: parameter_views(params@),
                type_defs: string_views(type_defs@),
                flag_defs: string_views(flag_defs@),
            };
            let i = choose|i: int|
                0 <= i < params@.len() && uses_undeclared(
                    #[trigger] parameter_views(params@)[i],
                    string_views(type_defs@),
                    string_views(flag_defs@),
                );
            assert(0 <= i < acc.params.len() && uses_undeclared(
                acc.params[i],
                acc.type_defs,
                acc.flag_defs,
            ));
            assert(some_undeclared(acc));
        }
        return Err(ParseError::InvalidParam(ParamParseError::MissingDef));
    }
    let n = ns.len();
    let namespace = strings_of(&ns, n - 1);
    let name = string_of(ns[n - 1]);
    assert(views(ns@).drop_last() =~= views(ns@).take(n - 1));
    assert(views(ns@).last() == ns@[n - 1]@);
    Ok(Definition { namespace, name, id, params, ty, category: Category::Types })
}


/// The index of a flag is the decimal number after its dot: for a name `n`
/// free of dots and decimal digits `d` denoting a 32-bit number, `n.d` is the
/// flag `n` with index the value of `d`.
pub proof fn law_flag_index_is_decimal(n: Seq<char>, d: Seq<char>)
    requires
        !n.contains('.'),
        d.len() > 0,
        all_digits(d, 10),
        digits_value(d, 10) <= u32::MAX,
    ensures
        flag_from(n + seq!['.'] + d) == Ok::<FlagView, ParamErrorView>(
            FlagView { name: n, index: digits_value(d, 10) as u32 },
        ),
{
    let s = n + seq!['.'] + d;
    lemma_first_index(s, is_char('.'));
    let p = first_index(s, is_char('.'));
    assert(s[n.len() as int] == '.');
    if p < n.len() {
        assert(s[p] == n[p]);
    }
    assert(p == n.len());
    assert(s.subrange(0, p) =~= n);
    assert(s.subrange(p + 1, s.len() as int) =~= d);
    assert(digit_value(d[0], 10) is Some);
}

/// Writing a 32-bit number in decimal after `n.` gives the flag `n` with that
/// number as its index.
pub proof fn law_flag_of_decimal(n: Seq<char>, v: u32)
    requires
        !n.contains('.'),
    ensures
        flag_from(n + seq!['.'] + decimal(v as nat)) == Ok::<FlagView, ParamErrorView>(
            FlagView { name: n, index: v },
        ),
{
    law_decimal_reads_back(v as nat);
    law_flag_index_is_decimal(n, decimal(v as nat));
}

/// The name of a parsed type is never empty, and the type is bare exactly
/// when its name (not its namespace) starts with an ASCII lowercase letter.
pub proof fn law_bare_follows_name(s: Seq<char>)
    ensures
        type_from(s) matches Ok(t) ==> t.name.len() > 0 && t.bare == ('a' <= t.name[0]
            && t.name[0] <= 'z'),
{
    let t = if s.len() > 0 && s[0] == '!' {
        s.drop_first()
    } else {
        s
    };
    let p = first_index(t, is_char('<'));
    lemma_first_index(t, is_char('<'));
    let base = if p < t.len() {
        t.subrange(0, p)
    } else {
        t
    };
    lemma_split_nonempty(base, '.');
    let parts = split(base, '.');
    if !has_empty(parts) {
        assert(parts[parts.len() - 1].len() != 0);
    }
}

/// Splitting yields at least one piece.
proof fn lemma_split_nonempty(s: Seq<char>, c: char)
    ensures
        split(s, c).len() >= 1,
{
    lemma_first_index(s, is_char(c));
}

/// A type written `ns.name`, with a `name` free of dots and no generic
/// argument, has the name `name`, the namespace of the parts of `ns`, and is
/// bare exactly when `name` starts with an ASCII lowercase letter, whatever
/// the namespace.
pub proof fn law_type_name_is_last_part(ns: Seq<char>, name: Seq<char>)
    requires
        name.len() > 0,
        !name.contains('.'),
        !name.contains('<'),
        !ns.contains('<'),
        ns.len() > 0 ==> ns[0] != '!',
    ensures
        type_from(ns + seq!['.'] + name) matches Ok(t) ==> {
            &&& t.name == name
            &&& t.namespace == split(ns, '.')
            &&& t.bare == ('a' <= name[0] && name[0] <= 'z')
            &&& !t.generic_ref
            &&& t.generic_arg is None
        },
{
    let s = ns + seq!['.'] + name;
    assert(s[0] != '!') by {
        if ns.len() > 0 {
            assert(s[0] == ns[0]);
        } else {
            assert(s[0] == '.');
        }
    }
    lemma_first_index(s, is_char('<'));
    let p = first_index(s, is_char('<'));
    if p < s.len() {
        assert(s[p] == '<');
        if p < ns.len() {
            assert(s[p] == ns[p]);
        } else if p > ns.len() {
            assert(s[p] == name[p - ns.len() - 1]);
        }
    }
    assert(p == s.len());
    lemma_split_concat(ns, '.', name);
    lemma_split_single(name, '.');
    let parts = split(s, '.');
    assert(parts == split(ns, '.') + seq![name]);
    assert(parts.last() == name);
    assert(parts.drop_last() =~= split(ns, '.'));
}

/// Every parameter word yields one parameter, in order: for words that all
/// parse as parameters (none a `{X:Type}` declaration), the parameters are
/// exactly those of the words, one each and in the same order.
pub proof fn law_one_parameter_per_word(toks: Seq<Seq<char>>)
    requires
        forall|i: int| 0 <= i < toks.len() ==> (#[trigger] parameter_from(toks[i])) is Ok,
    ensures
        params_from(toks) matches Ok(acc) && acc.params.len() == toks.len() && forall|i: int|
            0 <= i < toks.len() ==> Ok::<ParameterView, ParamErrorView>(#[trigger] acc.params[i])
                == parameter_from(toks[i]),
    decreases toks.len(),
{
    if toks.len() > 0 {
        let prev = toks.drop_last();
        assert forall|i: int| 0 <= i < prev.len() implies (#[trigger] parameter_from(prev[i])) is Ok by {
            assert(prev[i] == toks[i]);
            assert(parameter_from(toks[i]) is Ok);
        }
        law_one_parameter_per_word(prev);
        let last = toks[toks.len() - 1];
        assert(parameter_from(last) is Ok);
        assert(toks.last() == last);
        let acc = params_from(prev)->Ok_0;
        let p = parameter_from(last)->Ok_0;
        let acc2 = params_from(toks)->Ok_0;
        assert(acc2.params == acc.params.push(p));
        assert forall|i: int| 0 <= i < toks.len() implies Ok::<ParameterView, ParamErrorView>(
            #[trigger] acc2.params[i],
        ) == parameter_from(toks[i]) by {
            if i < prev.len() {
                assert(acc2.params[i] == acc.params[i]);
                assert(prev[i] == toks[i]);
            }
        }
    }
}

} // verus!
