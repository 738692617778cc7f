//! Reading a whole TL schema file: comments, the `;`-separated definitions,
//! and the `---types---` / `---functions---` sections.

use vstd::prelude::*;
use crate::text::{
    all_ws, is_ws, lemma_split_concat, lemma_split_prefix, lemma_trim_ws_prefix, non_ws_pred,
    chars_of, first_index, has_prefix, is_char, lemma_first_index, lemma_split_single,
    position_of, split,
    split_slice, starts_with, trim, trim_slice, views,
};
use crate::tl::{Category, Definition, DefinitionView, ParseError, ParseErrorView, def_result_view};
use crate::tl_parse::{definition_from, lemma_definition_in_types, parse_definition};

verus! {

/// `s` without its `//` comments: each comment runs up to, and not
/// including, the end of its line.
pub open spec fn strip_comments(s: Seq<char>) -> Seq<char>
    decreases s.len(),
{
    if s.len() == 0 {
        seq![]
    } else if s.len() >= 2 && s[0] == '/' && s[1] == '/' {
        proof {
            lemma_first_index(s, is_char('\n'));
        }
        strip_comments(s.subrange(first_index(s, is_char('\n')), s.len() as int))
    } else {
        seq![s[0]] + strip_comments(s.drop_first())
    }
}

/// Removes the `//` comments of `s`.
pub fn remove_tl_comments(s: &[char]) -> (r: Vec<char>)
    ensures
        r@ == strip_comments(s@),
{
    let mut out: Vec<char> = Vec::new();
    let mut rest: &[char] = s;
    loop
        invariant
            out@ + strip_comments(rest@) == strip_comments(s@),
        decreases rest@.len(),
    {
        if rest.len() == 0 {
            assert(out@ + strip_comments(rest@) =~= out@);
            return out;
        }
        if rest.len() >= 2 && rest[0] == '/' && rest[1] == '/' {
            let k = position_of(rest, '\n');
            proof {
                lemma_first_index(rest@, is_char('\n'));
            }
            rest = vstd::slice::slice_subrange(rest, k, rest.len());
        } else {
            let ghost before = out@;
            out.push(rest[0]);
            let next = vstd::slice::slice_subrange(rest, 1, rest.len());
            assert(next@ == rest@.drop_first());
            assert(out@ + strip_comments(next@) =~= before + strip_comments(rest@));
            rest = next;
        }
    }
}

/// The separator that opens the functions section.
pub open spec fn functions_separator() -> Seq<char> {
    seq!['-', '-', '-', 'f', 'u', 'n', 'c', 't', 'i', 'o', 'n', 's', '-', '-', '-']
}

/// The separator that opens the types section.
pub open spec fn types_separator() -> Seq<char> {
    seq!['-', '-', '-', 't', 'y', 'p', 'e', 's', '-', '-', '-']
}

/// The beginning of every separator.
pub open spec fn separator_start() -> Seq<char> {
    seq!['-', '-', '-']
}

/// What the chunks read so far amount to: the parse results, in order, and
/// the section that the next definition belongs to.
pub struct FileView {
    pub items: Seq<Result<DefinitionView, ParseErrorView>>,
    pub category: Category,
}

/// The parse result `r` with its definition placed in `category`.
pub open spec fn in_category(
    r: Result<DefinitionView, ParseErrorView>,
    category: Category,
) -> Result<DefinitionView, ParseErrorView> {
    match r {
        Ok(d) => Ok(DefinitionView { category, ..d }),
        Err(e) => Err(e),
    }
}

/// The state after the definition text `d` of the section `category`.
pub open spec fn emit(st: FileView, category: Category, d: Seq<char>) -> FileView {
    FileView { items: st.items.push(in_category(definition_from(d), category)), category }
}

/// The state after one `;`-terminated chunk: a blank chunk is skipped; a
/// chunk that opens with a separator switches the section and holds the
/// first definition of it, or is an unknown separator.
pub open spec fn after_chunk(st: FileView, chunk: Seq<char>) -> FileView {
    let d = trim(chunk);
    if d.len() == 0 {
        st
    } else if starts_with(d, separator_start()) {
        if starts_with(d, functions_separator()) {
            emit(st, Category::Functions, trim(d.subrange(15, d.len() as int)))
        } else if starts_with(d, types_separator()) {
            emit(st, Category::Types, trim(d.subrange(11, d.len() as int)))
        } else {
            FileView { items: st.items.push(Err(ParseErrorView::UnknownSeparator)), ..st }
        }
    } else {
        emit(st, st.category, d)
    }
}

/// The state after the chunks `chunks`, starting in the types section.
pub open spec fn after_chunks(chunks: Seq<Seq<char>>) -> FileView
    decreases chunks.len(),
{
    if chunks.len() == 0 {
        FileView { items: seq![], category: Category::Types }
    } else {
        after_chunk(after_chunks(chunks.drop_last()), chunks.last())
    }
}

/// The parse results of the TL schema `contents`, one per definition, in
/// the order of the file.
pub open spec fn tl_file(contents: Seq<char>) -> Seq<Result<DefinitionView, ParseErrorView>> {
    after_chunks(split(strip_comments(contents), ';')).items
}

/// The views of a sequence of parse results.
pub open spec fn results_view(v: Seq<Result<Definition, ParseError>>) -> Seq<
    Result<DefinitionView, ParseErrorView>,
> {
    Seq::new(v.len(), |i: int| def_result_view(v[i]))
}

/// Parses `d` and places the definition in `category`.
fn parse_in(d: &[char], category: Category) -> (r: Result<Definition, ParseError>)
    ensures
        def_result_view(r) == in_category(definition_from(d@), category),
{
    match parse_definition(d) {
        Ok(mut def) => {
            def.category = category;
            Ok(def)
        },
        Err(e) => Err(e),
    }
}

/// Parses every definition of the TL schema `contents`, in order. A
/// definition that cannot be parsed yields its error, and the reading goes on.
pub fn parse_tl_file(contents: &str) -> (r: Vec<Result<Definition, ParseError>>)
    ensures
        results_view(r@) == tl_file(contents@),
{
    let chars = chars_of(contents);
    let clean = remove_tl_comments(chars.as_slice());
    let chunks = split_slice(clean.as_slice(), ';');
    let functions_sep = [
        '-', '-', '-', 'f', 'u', 'n', 'c', 't', 'i', 'o', 'n', 's', '-', '-', '-',
    ];
    let functions_sep = functions_sep.as_slice();
    let types_sep = ['-', '-', '-', 't', 'y', 'p', 'e', 's', '-', '-', '-'];
    let types_sep = types_sep.as_slice();
    let sep_start = ['-', '-', '-'];
    let sep_start = sep_start.as_slice();
    let mut out: Vec<Result<Definition, ParseError>> = Vec::new();
    let mut category = Category::Types;
    let n = chunks.len();
    let mut i: usize = 0;
    assert(results_view(out@) =~= Seq::<Result<DefinitionView, ParseErrorView>>::empty());
    while i < n
        invariant
            i <= n,
            n == chunks@.len(),
            functions_sep@ == functions_separator(),
            types_sep@ == types_separator(),
            sep_start@ == separator_start(),
            after_chunks(views(chunks@).take(i as int)) == (FileView {
                items: results_view(out@),
                category,
            }),
        decreases n - i,
    {
        let ghost st = after_chunks(views(chunks@).take(i as int));
        assert(views(chunks@).take(i + 1).drop_last() =~= views(chunks@).take(i as int));
        assert(views(chunks@).take(i + 1).last() == chunks@[i as int]@);
        let d = trim_slice(chunks[i]);
        let ghost before = out@;
        if d.len() == 0 {
        } else if has_prefix(d, sep_start) {
            if has_prefix(d, functions_sep) {
                category = Category::Functions;
                let body = trim_slice(vstd::slice::slice_subrange(d, 15, d.len()));
                out.push(parse_in(body, category));
            } else if has_prefix(d, types_sep) {
                category = Category::Types;
                let body = trim_slice(vstd::slice::slice_subrange(d, 11, d.len()));
                out.push(parse_in(body, category));
            } else {
                out.push(Err(ParseError::UnknownSeparator));
            }
        } else {
            out.push(parse_in(d, category));
        }
        proof {
            if out@.len() > before.len() {
                assert(results_view(out@) =~= results_view(before).push(
                    def_result_view(out@.last()),
                ));
            } else {
                assert(out@ == before);
            }
        }
        i = i + 1;
    }
    assert(views(chunks@).take(n as int) =~= views(chunks@));
    out
}


/// Whether `s` holds no `//`.
pub open spec fn has_no_comment(s: Seq<char>) -> bool {
    forall|i: int| 0 <= i < s.len() - 1 ==> !(#[trigger] s[i] == '/' && s[i + 1] == '/')
}

proof fn lemma_strip_without_comment(s: Seq<char>)
    requires
        has_no_comment(s),
    ensures
        strip_comments(s) == s,
    decreases s.len(),
{
    if s.len() > 0 {
        let t = s.drop_first();
        assert forall|i: int| 0 <= i < t.len() - 1 implies !(#[trigger] t[i] == '/' && t[i + 1]
            == '/') by {
            assert(t[i] == s[i + 1] && t[i + 1] == s[i + 2]);
        }
        lemma_strip_without_comment(t);
        assert(seq![s[0]] + t =~= s);
    }
}

/// A file that holds a single definition, with no `;`, no comment and no
/// section separator, reads as that definition alone, in the types section.
pub proof fn law_single_definition_file(s: Seq<char>)
    requires
        !s.contains(';'),
        has_no_comment(s),
        trim(s).len() > 0,
        !starts_with(trim(s), separator_start()),
    ensures
        tl_file(s) == seq![definition_from(trim(s))],
{
    lemma_strip_without_comment(s);
    lemma_split_single(s, ';');
    let chunks = seq![s];
    assert(chunks.drop_last() =~= Seq::<Seq<char>>::empty());
    lemma_definition_in_types(trim(s));
    let empty = FileView { items: Seq::<Result<DefinitionView, ParseErrorView>>::empty(), category: Category::Types };
    assert(after_chunks(chunks.drop_last()) == empty);
    assert(chunks.last() == s);
    assert(after_chunks(chunks) == after_chunk(empty, s));
    assert(after_chunk(empty, s) == emit(empty, Category::Types, trim(s)));
    assert(after_chunks(chunks).items =~= seq![in_category(definition_from(trim(s)), Category::Types)]);
    assert(in_category(definition_from(trim(s)), Category::Types) == definition_from(trim(s)));
}


/// The number of chunks that are not blank.
pub open spec fn nonblank_count(chunks: Seq<Seq<char>>) -> nat
    decreases chunks.len(),
{
    if chunks.len() == 0 {
        0
    } else if trim(chunks.last()).len() == 0 {
        nonblank_count(chunks.drop_last())
    } else {
        nonblank_count(chunks.drop_last()) + 1
    }
}

/// Every chunk that is not blank yields exactly one result, a definition or
/// an error: an error does not end the reading, and nothing is dropped.
pub proof fn law_one_result_per_chunk(chunks: Seq<Seq<char>>)
    ensures
        after_chunks(chunks).items.len() == nonblank_count(chunks),
    decreases chunks.len(),
{
    if chunks.len() > 0 {
        law_one_result_per_chunk(chunks.drop_last());
    }
}


/// Chunks that open no section leave the section as it is, keep the results
/// read before them, and yield definitions of that section.
pub proof fn lemma_section_persists(pre: Seq<Seq<char>>, post: Seq<Seq<char>>)
    requires
        forall|i: int| 0 <= i < post.len() ==> !starts_with(#[trigger] trim(post[i]), separator_start()),
    ensures
        after_chunks(pre + post).category == after_chunks(pre).category,
        after_chunks(pre).items.len() <= after_chunks(pre + post).items.len(),
        after_chunks(pre + post).items.subrange(0, after_chunks(pre).items.len() as int)
            == after_chunks(pre).items,
        forall|j: int|
            after_chunks(pre).items.len() <= j < after_chunks(pre + post).items.len() ==> (
            #[trigger] after_chunks(pre + post).items[j] matches Ok(d) ==> d.category
                == after_chunks(pre).category),
    decreases post.len(),
{
    if post.len() == 0 {
        assert(pre + post =~= pre);
        assert(after_chunks(pre).items.subrange(0, after_chunks(pre).items.len() as int) =~= after_chunks(pre).items);
    } else {
        let shorter = post.drop_last();
        assert forall|i: int| 0 <= i < shorter.len() implies !starts_with(
            #[trigger] trim(shorter[i]),
            separator_start(),
        ) by {
            assert(shorter[i] == post[i]);
        }
        lemma_section_persists(pre, shorter);
        assert((pre + post).drop_last() =~= pre + shorter);
        assert((pre + post).last() == post.last());
        assert(!starts_with(trim(post[post.len() - 1]), separator_start()));
        let st = after_chunks(pre + shorter);
        let next = after_chunks(pre + post);
        assert(next == after_chunk(st, post.last()));
        if trim(post.last()).len() != 0 {
            assert(next.items == st.items.push(in_category(definition_from(trim(post.last())), st.category)));
            assert(next.items.subrange(0, after_chunks(pre).items.len() as int) =~= st.items.subrange(
                0,
                after_chunks(pre).items.len() as int,
            ));
        }
    }
}

/// Every definition read after a `---functions---` separator, up to the next
/// separator, is a function.
pub proof fn law_functions_section(pre: Seq<Seq<char>>, sep: Seq<char>, post: Seq<Seq<char>>)
    requires
        starts_with(trim(sep), functions_separator()),
        forall|i: int| 0 <= i < post.len() ==> !starts_with(#[trigger] trim(post[i]), separator_start()),
    ensures
        forall|j: int|
            after_chunks(pre).items.len() <= j < after_chunks(pre.push(sep) + post).items.len() ==> (
            #[trigger] after_chunks(pre.push(sep) + post).items[j] matches Ok(d) ==> d.category
                == Category::Functions),
{
    let with_sep = pre.push(sep);
    assert(with_sep.drop_last() =~= pre);
    assert(with_sep.last() == sep);
    let d = trim(sep);
    assert(d.len() >= 15);
    assert(starts_with(d, separator_start())) by {
        assert(d.subrange(0, 3) =~= d.subrange(0, 15).subrange(0, 3));
        assert(functions_separator().subrange(0, 3) =~= separator_start());
    }
    let st = after_chunks(pre);
    assert(after_chunks(with_sep) == emit(st, Category::Functions, trim(d.subrange(15, d.len() as int))));
    lemma_section_persists(with_sep, post);
    let n = after_chunks(pre).items.len();
    assert forall|j: int|
        n <= j < after_chunks(with_sep + post).items.len() implies (
        #[trigger] after_chunks(with_sep + post).items[j] matches Ok(d) ==> d.category
            == Category::Functions) by {
        if j == n {
            assert(after_chunks(with_sep + post).items[j] == after_chunks(with_sep + post).items.subrange(
                0,
                after_chunks(with_sep).items.len() as int,
            )[j]);
        }
    }
}


/// Before any separator, every definition read is a type.
pub proof fn law_types_by_default(chunks: Seq<Seq<char>>)
    requires
        forall|i: int| 0 <= i < chunks.len() ==> !starts_with(#[trigger] trim(chunks[i]), separator_start()),
    ensures
        forall|j: int|
            0 <= j < after_chunks(chunks).items.len() ==> (#[trigger] after_chunks(chunks).items[j] matches Ok(d)
                ==> d.category == Category::Types),
{
    let none = Seq::<Seq<char>>::empty();
    assert(none + chunks =~= chunks);
    lemma_section_persists(none, chunks);
}


/// Whether the chunks of `x` and `y` agree once trimmed.
pub open spec fn same_trims(x: Seq<Seq<char>>, y: Seq<Seq<char>>) -> bool {
    &&& x.len() == y.len()
    &&& forall|i: int| 0 <= i < x.len() ==> trim(#[trigger] x[i]) == trim(y[i])
}

/// Reading depends on each chunk only through its trim.
proof fn lemma_after_chunks_trims(x: Seq<Seq<char>>, y: Seq<Seq<char>>)
    requires
        same_trims(x, y),
    ensures
        after_chunks(x) == after_chunks(y),
    decreases x.len(),
{
    if x.len() > 0 {
        assert(same_trims(x.drop_last(), y.drop_last())) by {
            assert forall|i: int| 0 <= i < x.drop_last().len() implies trim(
                #[trigger] x.drop_last()[i],
            ) == trim(y.drop_last()[i]) by {
                assert(x.drop_last()[i] == x[i]);
                assert(trim(x[i]) == trim(y[i]));
            }
        }
        lemma_after_chunks_trims(x.drop_last(), y.drop_last());
        assert(trim(x[x.len() - 1]) == trim(y[y.len() - 1]));
    }
}

/// The chunks that a text `pre` ending a definition (empty, or ending with
/// `;`) leaves before the next chunk.
pub open spec fn chunks_before(pre: Seq<char>) -> Seq<Seq<char>> {
    if pre.len() == 0 {
        seq![]
    } else {
        split(pre.drop_last(), ';')
    }
}

/// Cutting at `;` a text that follows `pre` and the whitespace `w`: the
/// chunks of `pre`, then the first chunk of the rest with `w` in front.
proof fn lemma_split_after_definition(pre: Seq<char>, w: Seq<char>, m: Seq<char>)
    requires
        pre.len() == 0 || pre.last() == ';',
        all_ws(w),
    ensures
        split(pre + w + m, ';') == chunks_before(pre) + seq![w + split(m, ';')[0]] + split(
            m,
            ';',
        ).drop_first(),
{
    assert(!w.contains(';')) by {
        if w.contains(';') {
            let i = choose|i: int| 0 <= i < w.len() && w[i] == ';';
            assert(is_ws(w[i]));
        }
    }
    lemma_split_prefix(w, m, ';');
    if pre.len() == 0 {
        assert(pre + w + m =~= w + m);
        assert(chunks_before(pre) + seq![w + split(m, ';')[0]] + split(m, ';').drop_first()
            =~= seq![w + split(m, ';')[0]] + split(m, ';').drop_first());
    } else {
        assert(pre + w + m =~= pre.drop_last() + seq![';'] + (w + m));
        lemma_split_concat(pre.drop_last(), ';', w + m);
        assert(split(pre + w + m, ';') =~= chunks_before(pre) + seq![w + split(m, ';')[0]]
            + split(m, ';').drop_first());
    }
}

/// A text without a `//` whose last character is not `/` is kept whole by
/// comment removal, whatever follows it.
proof fn lemma_strip_plain_prefix(a: Seq<char>, r: Seq<char>)
    requires
        has_no_comment(a),
        a.len() == 0 || a.last() != '/',
    ensures
        strip_comments(a + r) == a + strip_comments(r),
    decreases a.len(),
{
    if a.len() == 0 {
        assert(a + r =~= r);
        assert(a + strip_comments(r) =~= strip_comments(r));
    } else {
        let t = a.drop_first();
        assert forall|i: int| 0 <= i < t.len() - 1 implies !(#[trigger] t[i] == '/' && t[i + 1]
            == '/') by {
            assert(t[i] == a[i + 1] && t[i + 1] == a[i + 2]);
        }
        if t.len() > 0 {
            assert(t.last() == a.last());
        }
        lemma_strip_plain_prefix(t, r);
        let s = a + r;
        assert(s[0] == a[0]);
        if a.len() >= 2 {
            assert(s[1] == a[1]);
        }
        assert(s.drop_first() =~= t + r);
        assert(a + strip_comments(r) =~= seq![a[0]] + (t + strip_comments(r)));
    }
}

/// A comment line, `//`, a text without a line break and a line break, is
/// removed up to its line break.
proof fn lemma_strip_comment_line(c: Seq<char>, b: Seq<char>)
    requires
        !c.contains('\n'),
    ensures
        strip_comments(seq!['/', '/'] + c + seq!['\n'] + b) == seq!['\n'] + strip_comments(b),
{
    let s = seq!['/', '/'] + c + seq!['\n'] + b;
    lemma_first_index(s, is_char('\n'));
    let k = first_index(s, is_char('\n'));
    assert(s[c.len() + 2int] == '\n');
    if k < c.len() + 2 {
        if k >= 2 {
            assert(s[k] == c[k - 2]);
        }
    }
    assert(k == c.len() + 2);
    let rest = s.subrange(k, s.len() as int);
    assert(rest =~= seq!['\n'] + b);
    assert(rest[0] == '\n');
    assert(rest.drop_first() =~= b);
    assert(s[0] == '/' && s[1] == '/');
    assert(strip_comments(s) == strip_comments(rest));
    assert(strip_comments(rest) == seq![rest[0]] + strip_comments(rest.drop_first()));
}

/// Whether every `//` comment of `s` ends within `s`, at a line break, and
/// `s` does not end with a `/` that a following `/` would turn into one.
pub open spec fn comments_closed(s: Seq<char>) -> bool
    decreases s.len(),
{
    if s.len() == 0 {
        true
    } else if s.len() >= 2 && s[0] == '/' && s[1] == '/' {
        proof {
            lemma_first_index(s, is_char('\n'));
        }
        first_index(s, is_char('\n')) < s.len() && comments_closed(
            s.subrange(first_index(s, is_char('\n')), s.len() as int),
        )
    } else if s.len() == 1 {
        s[0] != '/'
    } else {
        comments_closed(s.drop_first())
    }
}

/// Comment removal reads a text whose comments are closed apart from what
/// follows it.
proof fn lemma_strip_concat(a: Seq<char>, r: Seq<char>)
    requires
        comments_closed(a),
    ensures
        strip_comments(a + r) == strip_comments(a) + strip_comments(r),
    decreases a.len(),
{
    let s = a + r;
    if a.len() == 0 {
        assert(s =~= r);
        assert(strip_comments(a) =~= Seq::<char>::empty());
        assert(strip_comments(a) + strip_comments(r) =~= strip_comments(r));
    } else if a.len() >= 2 && a[0] == '/' && a[1] == '/' {
        lemma_first_index(a, is_char('\n'));
        lemma_first_index(s, is_char('\n'));
        let k = first_index(a, is_char('\n'));
        let ks = first_index(s, is_char('\n'));
        assert(s[k] == a[k]);
        if ks < k {
            assert(s[ks] == a[ks]);
        }
        assert(ks == k);
        assert(s[0] == '/' && s[1] == '/');
        let rest = a.subrange(k, a.len() as int);
        assert(s.subrange(k, s.len() as int) =~= rest + r);
        lemma_strip_concat(rest, r);
    } else if a.len() == 1 {
        assert(s[0] == a[0]);
        assert(s.drop_first() =~= r);
        assert(a.drop_first() =~= Seq::<char>::empty());
        assert(strip_comments(a.drop_first()) =~= Seq::<char>::empty());
        assert(strip_comments(a) =~= seq![a[0]]);
    } else {
        assert(s[0] == a[0] && s[1] == a[1]);
        assert(s.drop_first() =~= a.drop_first() + r);
        lemma_strip_concat(a.drop_first(), r);
        assert(strip_comments(s) =~= seq![a[0]] + (strip_comments(a.drop_first())
            + strip_comments(r)));
    }
}

/// A whole-line comment between two definitions changes no result: after a
/// text `a` whose comments are all closed and that, without its comments,
/// ends a definition (`pre + w`, with `pre` empty or ending with `;` and `w`
/// whitespace), the line `//c` (with `c` free of line breaks, and holding
/// anything else, `;` or separators included) can be added without changing
/// what the file reads as. Earlier comments, and anything after the line,
/// may be of any form.
pub proof fn law_comment_line_between_definitions(
    a: Seq<char>,
    pre: Seq<char>,
    w: Seq<char>,
    c: Seq<char>,
    b: Seq<char>,
)
    requires
        comments_closed(a),
        strip_comments(a) == pre + w,
        pre.len() == 0 || pre.last() == ';',
        all_ws(w),
        !c.contains('\n'),
    ensures
        tl_file(a + seq!['/', '/'] + c + seq!['\n'] + b) == tl_file(a + b),
{
    let with_comment = seq!['/', '/'] + c + seq!['\n'] + b;
    lemma_strip_concat(a, with_comment);
    lemma_strip_concat(a, b);
    lemma_strip_comment_line(c, b);
    let sb = strip_comments(b);
    assert(a + seq!['/', '/'] + c + seq!['\n'] + b =~= a + with_comment);
    assert(strip_comments(a + seq!['/', '/'] + c + seq!['\n'] + b) =~= pre + (w + seq!['\n'])
        + sb);
    assert(strip_comments(a + b) =~= pre + w + sb);
    let w2 = w + seq!['\n'];
    assert(all_ws(w2)) by {
        assert forall|i: int| 0 <= i < w2.len() implies is_ws(#[trigger] w2[i]) by {
            if i < w.len() {
                assert(w2[i] == w[i]);
            } else {
                assert(w2[i] == '\n');
            }
        }
    }
    lemma_split_after_definition(pre, w2, sb);
    lemma_split_after_definition(pre, w, sb);
    let first = split(sb, ';')[0];
    lemma_trim_ws_prefix(w2, first);
    lemma_trim_ws_prefix(w, first);
    let x = split(pre + w2 + sb, ';');
    let y = split(pre + w + sb, ';');
    assert(same_trims(x, y)) by {
        let n = chunks_before(pre).len();
        assert forall|i: int| 0 <= i < x.len() implies trim(#[trigger] x[i]) == trim(y[i]) by {
            if i != n {
                assert(x[i] == y[i]);
            } else {
                assert(x[i] == w2 + first);
                assert(y[i] == w + first);
            }
        }
    }
    lemma_after_chunks_trims(x, y);
}

/// The number of times `c` occurs in `s`.
pub open spec fn count_char(s: Seq<char>, c: char) -> nat
    decreases s.len(),
{
    if s.len() == 0 {
        0
    } else {
        (if s[0] == c {
            1nat
        } else {
            0nat
        }) + count_char(s.drop_first(), c)
    }
}

proof fn lemma_count_concat(x: Seq<char>, y: Seq<char>, c: char)
    ensures
        count_char(x + y, c) == count_char(x, c) + count_char(y, c),
    decreases x.len(),
{
    if x.len() == 0 {
        assert(x + y =~= y);
    } else {
        assert((x + y).drop_first() =~= x.drop_first() + y);
        assert((x + y)[0] == x[0]);
        lemma_count_concat(x.drop_first(), y, c);
    }
}

proof fn lemma_count_free(x: Seq<char>, c: char)
    requires
        !x.contains(c),
    ensures
        count_char(x, c) == 0,
    decreases x.len(),
{
    if x.len() > 0 {
        assert(x[0] != c);
        assert(!x.drop_first().contains(c)) by {
            if x.drop_first().contains(c) {
                let i = choose|i: int| 0 <= i < x.drop_first().len() && x.drop_first()[i] == c;
                assert(x[i + 1] == c);
            }
        }
        lemma_count_free(x.drop_first(), c);
    }
}

proof fn lemma_split_count(s: Seq<char>, c: char)
    ensures
        split(s, c).len() == count_char(s, c) + 1,
    decreases s.len(),
{
    lemma_first_index(s, is_char(c));
    let i = first_index(s, is_char(c));
    if i < s.len() {
        let x = s.subrange(0, i);
        let y = s.subrange(i + 1, s.len() as int);
        assert(!x.contains(c)) by {
            if x.contains(c) {
                let j = choose|j: int| 0 <= j < x.len() && x[j] == c;
                assert(s[j] == x[j]);
            }
        }
        assert(s =~= x + (seq![c] + y));
        lemma_count_concat(x, seq![c] + y, c);
        lemma_count_free(x, c);
        assert((seq![c] + y).drop_first() =~= y);
        lemma_split_count(y, c);
    } else {
        assert(!s.contains(c)) by {
            if s.contains(c) {
                let j = choose|j: int| 0 <= j < s.len() && s[j] == c;
            }
        }
        lemma_count_free(s, c);
    }
}

proof fn lemma_count_suffix(s: Seq<char>, k: int, c: char)
    requires
        0 <= k <= s.len(),
    ensures
        count_char(s.subrange(k, s.len() as int), c) <= count_char(s, c),
{
    assert(s =~= s.subrange(0, k) + s.subrange(k, s.len() as int));
    lemma_count_concat(s.subrange(0, k), s.subrange(k, s.len() as int), c);
}

proof fn lemma_strip_count(s: Seq<char>, c: char)
    ensures
        count_char(strip_comments(s), c) <= count_char(s, c),
    decreases s.len(),
{
    if s.len() == 0 {
    } else if s.len() >= 2 && s[0] == '/' && s[1] == '/' {
        lemma_first_index(s, is_char('\n'));
        let k = first_index(s, is_char('\n'));
        lemma_strip_count(s.subrange(k, s.len() as int), c);
        lemma_count_suffix(s, k, c);
        assert(strip_comments(s) == strip_comments(s.subrange(k, s.len() as int)));
    } else {
        lemma_strip_count(s.drop_first(), c);
        lemma_count_concat(seq![s[0]], strip_comments(s.drop_first()), c);
        assert(seq![s[0]].drop_first() =~= Seq::<char>::empty());
        assert(count_char(seq![s[0]], c) == (if s[0] == c { 1nat } else { 0nat }) + count_char(
            Seq::<char>::empty(),
            c,
        ));
        assert(strip_comments(s) == seq![s[0]] + strip_comments(s.drop_first()));
    }
}

proof fn lemma_nonblank_count_bound(chunks: Seq<Seq<char>>)
    ensures
        nonblank_count(chunks) <= chunks.len(),
    decreases chunks.len(),
{
    if chunks.len() > 0 {
        lemma_nonblank_count_bound(chunks.drop_last());
    }
}

/// Reading a file yields at most one result more than the file has `;`.
pub proof fn law_results_bounded_by_separators(contents: Seq<char>)
    ensures
        tl_file(contents).len() <= count_char(contents, ';') + 1,
{
    let chunks = split(strip_comments(contents), ';');
    law_one_result_per_chunk(chunks);
    lemma_nonblank_count_bound(chunks);
    lemma_split_count(strip_comments(contents), ';');
    lemma_strip_count(contents, ';');
}

/// The results that chunks free of separators yield, read in the types
/// section.
pub open spec fn plain_items(chunks: Seq<Seq<char>>) -> Seq<Result<DefinitionView, ParseErrorView>>
    decreases chunks.len(),
{
    if chunks.len() == 0 {
        seq![]
    } else if trim(chunks.last()).len() == 0 {
        plain_items(chunks.drop_last())
    } else {
        plain_items(chunks.drop_last()).push(
            in_category(definition_from(trim(chunks.last())), Category::Types),
        )
    }
}

/// Whether no chunk opens a section.
pub open spec fn no_separator_chunk(chunks: Seq<Seq<char>>) -> bool {
    forall|i: int| 0 <= i < chunks.len() ==> !starts_with(#[trigger] trim(chunks[i]), separator_start())
}

proof fn lemma_plain_reading(chunks: Seq<Seq<char>>)
    requires
        no_separator_chunk(chunks),
    ensures
        after_chunks(chunks) == (FileView { items: plain_items(chunks), category: Category::Types }),
    decreases chunks.len(),
{
    if chunks.len() > 0 {
        assert(no_separator_chunk(chunks.drop_last())) by {
            assert forall|i: int| 0 <= i < chunks.drop_last().len() implies !starts_with(
                #[trigger] trim(chunks.drop_last()[i]),
                separator_start(),
            ) by {
                assert(chunks.drop_last()[i] == chunks[i]);
            }
        }
        lemma_plain_reading(chunks.drop_last());
        assert(!starts_with(trim(chunks[chunks.len() - 1]), separator_start()));
    }
}

proof fn lemma_plain_items_concat(x: Seq<Seq<char>>, y: Seq<Seq<char>>)
    ensures
        plain_items(x + y) == plain_items(x) + plain_items(y),
    decreases y.len(),
{
    if y.len() == 0 {
        assert(x + y =~= x);
        assert(plain_items(x) + plain_items(y) =~= plain_items(x));
    } else {
        assert((x + y).drop_last() =~= x + y.drop_last());
        assert((x + y).last() == y.last());
        lemma_plain_items_concat(x, y.drop_last());
        assert(plain_items(x + y) =~= plain_items(x) + plain_items(y));
    }
}

/// Whether no chunk of the text `s` opens a section.
pub open spec fn opens_no_section(s: Seq<char>) -> bool {
    no_separator_chunk(split(strip_comments(s), ';'))
}

/// Definitions are read independently and in the order of the text: reading
/// `pre + w + b`, where `pre + w` ends a definition (`pre` empty or ending
/// with `;`, `w` whitespace), gives the results of `pre + w`, then those of
/// `b`, where neither text holds a comment nor opens a section.
pub proof fn law_concatenation(pre: Seq<char>, w: Seq<char>, b: Seq<char>)
    requires
        pre.len() == 0 || pre.last() == ';',
        all_ws(w),
        has_no_comment(pre + w),
        has_no_comment(b),
        opens_no_section(pre + w),
        opens_no_section(b),
    ensures
        tl_file(pre + w + b) == tl_file(pre + w) + tl_file(b),
{
    let a = pre + w;
    if a.len() > 0 {
        if w.len() > 0 {
            assert(a.last() == w.last());
            assert(is_ws(w[w.len() - 1]));
        } else {
            assert(a.last() == pre.last());
        }
    }
    lemma_strip_plain_prefix(a, b);
    lemma_strip_without_comment(b);
    lemma_strip_plain_prefix(a, Seq::<char>::empty());
    assert(strip_comments(Seq::<char>::empty()) =~= Seq::<char>::empty());
    assert(a + Seq::<char>::empty() =~= a);
    assert(strip_comments(a + b) == a + b);
    assert(strip_comments(a) == a);
    let e = Seq::<char>::empty();
    lemma_split_after_definition(pre, w, b);
    lemma_split_after_definition(pre, w, e);
    assert(pre + w + e =~= a);
    lemma_split_single(e, ';');
    let sb = split(b, ';');
    let p = chunks_before(pre);
    let joined = split(a + b, ';');
    assert(joined == p + seq![w + sb[0]] + sb.drop_first());
    assert(split(a, ';') =~= p + seq![w]);
    // the chunks of `a` and of `b` open no section
    assert(no_separator_chunk(p + seq![w])) by {
        assert(split(strip_comments(a), ';') == p + seq![w]);
    }
    assert(no_separator_chunk(sb)) by {
        assert(split(strip_comments(b), ';') == sb);
    }
    lemma_trim_ws_prefix(w, sb[0]);
    assert(sb =~= seq![sb[0]] + sb.drop_first());
    assert(no_separator_chunk(joined)) by {
        assert forall|i: int| 0 <= i < joined.len() implies !starts_with(
            #[trigger] trim(joined[i]),
            separator_start(),
        ) by {
            if i < p.len() {
                assert(joined[i] == (p + seq![w])[i]);
            } else if i == p.len() {
                assert(joined[i] == w + sb[0]);
                assert(trim(joined[i]) == trim(sb[0]));
            } else {
                assert(joined[i] == sb[i - p.len()]);
            }
        }
    }
    lemma_plain_reading(joined);
    lemma_plain_reading(p + seq![w]);
    lemma_plain_reading(sb);
    // reading the joined chunks piece by piece
    lemma_plain_items_concat(p + seq![w + sb[0]], sb.drop_first());
    lemma_plain_items_concat(p, seq![w + sb[0]]);
    lemma_plain_items_concat(p, seq![w]);
    lemma_plain_items_concat(seq![sb[0]], sb.drop_first());
    assert(seq![w + sb[0]].drop_last() =~= Seq::<Seq<char>>::empty());
    assert(seq![sb[0]].drop_last() =~= Seq::<Seq<char>>::empty());
    assert(seq![w].drop_last() =~= Seq::<Seq<char>>::empty());
    assert(plain_items(seq![w + sb[0]]) == plain_items(seq![sb[0]]));
    assert(trim(w).len() == 0) by {
        lemma_trim_ws_prefix(w, Seq::<char>::empty());
        assert(w + Seq::<char>::empty() =~= w);
        assert(trim(Seq::<char>::empty()) =~= Seq::<char>::empty()) by {
            lemma_first_index(Seq::<char>::empty(), non_ws_pred());
        }
    }
    assert(seq![w].last() == w);
    assert(plain_items(seq![w]) == plain_items(Seq::<Seq<char>>::empty()));
    assert(plain_items(seq![w]) =~= Seq::<Result<DefinitionView, ParseErrorView>>::empty());
    assert(plain_items(joined) =~= plain_items(p + seq![w]) + plain_items(sb));
}


/// Every definition read after a `---types---` separator, up to the next
/// separator, is a type: the separator switches the section back to types
/// for all that follows, not only for its own chunk.
pub proof fn law_types_section(pre: Seq<Seq<char>>, sep: Seq<char>, post: Seq<Seq<char>>)
    requires
        starts_with(trim(sep), types_separator()),
        forall|i: int| 0 <= i < post.len() ==> !starts_with(#[trigger] trim(post[i]), separator_start()),
    ensures
        after_chunks(pre.push(sep) + post).category == Category::Types,
        forall|j: int|
            after_chunks(pre).items.len() <= j < after_chunks(pre.push(sep) + post).items.len() ==> (
            #[trigger] after_chunks(pre.push(sep) + post).items[j] matches Ok(d) ==> d.category
                == Category::Types),
{
    let with_sep = pre.push(sep);
    assert(with_sep.drop_last() =~= pre);
    assert(with_sep.last() == sep);
    let d = trim(sep);
    assert(d.len() >= 11);
    assert(starts_with(d, separator_start())) by {
        assert(d.subrange(0, 3) =~= d.subrange(0, 11).subrange(0, 3));
        assert(types_separator().subrange(0, 3) =~= separator_start());
    }
    assert(!starts_with(d, functions_separator())) by {
        if starts_with(d, functions_separator()) {
            assert(d.subrange(0, 15)[3] == 'f');
            assert(d.subrange(0, 11)[3] == 't');
        }
    }
    let st = after_chunks(pre);
    assert(after_chunks(with_sep) == emit(st, Category::Types, trim(d.subrange(11, d.len() as int))));
    lemma_section_persists(with_sep, post);
    let n = after_chunks(pre).items.len();
    assert forall|j: int|
        n <= j < after_chunks(with_sep + post).items.len() implies (
        #[trigger] after_chunks(with_sep + post).items[j] matches Ok(d) ==> d.category
            == Category::Types) by {
        if j == n {
            assert(after_chunks(with_sep + post).items[j] == after_chunks(with_sep + post).items.subrange(
                0,
                after_chunks(with_sep).items.len() as int,
            )[j]);
        }
    }
}

/// The parse results that `parse_tl_file` yields after a `---types---`
/// separator are types, as the section law states of the chunks of the text.
pub proof fn law_types_section_of_text(contents: Seq<char>, k: int)
    requires
        0 <= k < split(strip_comments(contents), ';').len(),
        starts_with(trim(split(strip_comments(contents), ';')[k]), types_separator()),
        forall|i: int|
            k < i < split(strip_comments(contents), ';').len() ==> !starts_with(
                #[trigger] trim(split(strip_comments(contents), ';')[i]),
                separator_start(),
            ),
    ensures
        forall|j: int|
            after_chunks(split(strip_comments(contents), ';').take(k)).items.len() <= j
                < tl_file(contents).len() ==> (#[trigger] tl_file(contents)[j] matches Ok(d)
                ==> d.category == Category::Types),
{
    let chunks = split(strip_comments(contents), ';');
    let pre = chunks.take(k);
    let sep = chunks[k];
    let post = chunks.skip(k + 1);
    assert(pre.push(sep) + post =~= chunks);
    assert forall|i: int| 0 <= i < post.len() implies !starts_with(
        #[trigger] trim(post[i]),
        separator_start(),
    ) by {
        assert(post[i] == chunks[k + 1 + i]);
    }
    law_types_section(pre, sep, post);
}

} // verus!
