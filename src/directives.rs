//! Which directives of a parsed document are kept: `@catch`, `@throwOnFieldError` and
//! `@required(action: THROW)`. A throwing directive right below a line that reads
//! `# gql-safeguard-ignore` is dropped.
use vstd::prelude::*;
use crate::graphql::{Directive, DirectiveType};
use crate::text::chars_of;

verus! {

broadcast use vstd::std_specs::vec::group_vec_axioms, vstd::seq::group_seq_axioms;

/// A directive argument as written: its name, and its value when that value is an enum
/// literal (`action: THROW`).
#[derive(Clone, Debug)]
pub struct ArgumentSyntax {
    pub name: String,
    pub enum_value: Option<String>,
}

/// A directive as the document parser reports it; `line` and `column` are 1-based and
/// relative to the document.
#[derive(Clone, Debug)]
pub struct DirectiveSyntax {
    pub name: String,
    pub line: u32,
    pub column: u32,
    pub arguments: Vec<ArgumentSyntax>,
}

pub open spec fn is_throw_action(a: ArgumentSyntax) -> bool {
    a.name@ == "action"@ && match a.enum_value {
        Some(v) => v@ == "THROW"@,
        None => false,
    }
}

pub open spec fn throw_action(args: Seq<ArgumentSyntax>) -> bool {
    exists|i: int| 0 <= i < args.len() && is_throw_action(#[trigger] args[i])
}

/// Whether an argument list holds `action: THROW`.
pub fn has_throw_action(arguments: &Vec<ArgumentSyntax>) -> (r: bool)
    ensures
        r == throw_action(arguments@),
{
    let action = String::from_str("action");
    let throw = String::from_str("THROW");
    for i in 0..arguments.len()
        invariant
            action@ == "action"@,
            throw@ == "THROW"@,
            forall|j: int| 0 <= j < i ==> !is_throw_action(#[trigger] arguments@[j]),
    {
        let a = &arguments[i];
        if a.name == action {
            match &a.enum_value {
                Some(v) => {
                    if *v == throw {
                        assert(is_throw_action(arguments@[i as int]));
                        return true;
                    }
                },
                None => {},
            }
        }
    }
    false
}

/// Index of the first newline of `s`, or its length.
pub open spec fn first_newline(s: Seq<char>) -> int
    decreases s.len(),
{
    if s.len() == 0 {
        0
    } else if s[0] == '\n' {
        0
    } else {
        1 + first_newline(s.drop_first())
    }
}

/// The lines of `s` as `str::lines` gives them: split after each newline, a `\r` right
/// before a newline dropped, no empty last line after a final newline.
pub open spec fn lines_of(s: Seq<char>) -> Seq<Seq<char>>
    decreases s.len(),
{
    if s.len() == 0 {
        Seq::empty()
    } else {
        let k = first_newline(s);
        if k >= s.len() {
            seq![s]
        } else {
            let line = s.take(k);
            let line = if k > 0 && line.last() == '\r' {
                line.drop_last()
            } else {
                line
            };
            proof {
                lemma_first_newline_bounds(s);
            }
            seq![line] + lines_of(s.skip(k + 1))
        }
    }
}

pub proof fn lemma_first_newline_bounds(s: Seq<char>)
    ensures
        0 <= first_newline(s) <= s.len(),
        first_newline(s) < s.len() ==> s[first_newline(s)] == '\n',
        forall|j: int| 0 <= j < first_newline(s) ==> s[j] != '\n',
    decreases s.len(),
{
    if s.len() > 0 && s[0] != '\n' {
        lemma_first_newline_bounds(s.drop_first());
        assert forall|j: int| 0 <= j < first_newline(s) implies s[j] != '\n' by {
            if j > 0 {
                assert(s[j] == s.drop_first()[j - 1]);
            }
        }
    }
}

/// The characters `char::is_whitespace` accepts (Unicode White_Space).
pub open spec fn is_white_space(c: char) -> bool {
    ('\u{9}' <= c && c <= '\u{d}') || c == ' ' || c == '\u{85}' || c == '\u{a0}' || c == '\u{1680}'
        || ('\u{2000}' <= c && c <= '\u{200a}') || c == '\u{2028}' || c == '\u{2029}' || c == '\u{202f}'
        || c == '\u{205f}' || c == '\u{3000}'
}

/// `s` without leading and trailing white space, as `str::trim` gives it.
pub open spec fn trimmed(s: Seq<char>) -> Seq<char> {
    let a = leading_ws(s);
    let b = trailing_ws(s.skip(a));
    s.subrange(a, s.len() - b)
}

pub open spec fn leading_ws(s: Seq<char>) -> int
    decreases s.len(),
{
    if s.len() > 0 && is_white_space(s[0]) {
        1 + leading_ws(s.drop_first())
    } else {
        0
    }
}

pub open spec fn trailing_ws(s: Seq<char>) -> int
    decreases s.len(),
{
    if s.len() > 0 && is_white_space(s.last()) {
        1 + trailing_ws(s.drop_last())
    } else {
        0
    }
}

/// The comment line that silences the throwing directive on the line below it.
pub open spec fn ignore_marker() -> Seq<char> {
    "# gql-safeguard-ignore"@
}

/// Whether the line before 1-based line `line` of `content` reads the ignore marker,
/// white space around it aside.
pub open spec fn marked_ignored(content: Seq<char>, line: int) -> bool {
    let lines = lines_of(content);
    2 <= line <= lines.len() && trimmed(lines[line - 2]) == ignore_marker()
}

fn is_ws(c: char) -> (r: bool)
    ensures
        r == is_white_space(c),
{
    ('\u{9}' <= c && c <= '\u{d}') || c == ' ' || c == '\u{85}' || c == '\u{a0}' || c == '\u{1680}'
        || ('\u{2000}' <= c && c <= '\u{200a}') || c == '\u{2028}' || c == '\u{2029}' || c == '\u{202f}'
        || c == '\u{205f}' || c == '\u{3000}'
}

/// Whether `s[from..to]`, trimmed, is the ignore marker.
fn trimmed_is_marker(s: &Vec<char>, from: usize, to: usize) -> (r: bool)
    requires
        from <= to <= s@.len(),
    ensures
        r == (trimmed(s@.subrange(from as int, to as int)) == ignore_marker()),
{
    let ghost line = s@.subrange(from as int, to as int);
    let mut a = from;
    while a < to && is_ws(s[a])
        invariant
            from <= a <= to <= s@.len(),
            line == s@.subrange(from as int, to as int),
            leading_ws(line) == (a - from) + leading_ws(s@.subrange(a as int, to as int)),
        decreases to - a,
    {
        assert(s@.subrange(a as int, to as int).drop_first() =~= s@.subrange(a + 1, to as int));
        a = a + 1;
    }
    assert(line.skip(a - from) =~= s@.subrange(a as int, to as int));
    let mut b = to;
    while b > a && is_ws(s[b - 1])
        invariant
            from <= a <= b <= to <= s@.len(),
            line == s@.subrange(from as int, to as int),
            trailing_ws(line.skip(a - from)) == (to - b) + trailing_ws(s@.subrange(a as int, b as int)),
        decreases b - a,
    {
        assert(s@.subrange(a as int, b as int).drop_last() =~= s@.subrange(a as int, b - 1));
        b = b - 1;
    }
    assert(line.skip(a - from) =~= s@.subrange(a as int, to as int));
    let ghost t = s@.subrange(a as int, b as int);
    assert(trimmed(line) =~= t);
    let marker = chars_of("# gql-safeguard-ignore");
    assert(marker@ == ignore_marker());
    if b - a != marker.len() {
        assert(t.len() != ignore_marker().len());
        return false;
    }
    let mut k: usize = 0;
    while k < marker.len()
        invariant
            a + marker@.len() == b,
            b <= s@.len(),
            k <= marker@.len(),
            t == s@.subrange(a as int, b as int),
            line == s@.subrange(from as int, to as int),
            trimmed(line) == t,
            marker@ == ignore_marker(),
            forall|j: int| 0 <= j < k ==> t[j] == marker@[j],
        decreases marker@.len() - k,
    {
        if s[a + k] != marker[k] {
            assert(t[k as int] != ignore_marker()[k as int]);
            return false;
        }
        k = k + 1;
    }
    assert(t =~= ignore_marker());
    true
}

/// Whether the directive on 1-based line `directive_line` of `graphql_content` sits
/// right below an ignore comment.
pub fn should_ignore_directive(graphql_content: &str, directive_line: usize) -> (r: bool)
    ensures
        r == marked_ignored(graphql_content@, directive_line as int),
{
    let s = chars_of(graphql_content);
    let ghost all = lines_of(s@);
    let n = s.len();
    let mut pos: usize = 0;
    let mut index: usize = 0;
    assert(s@.skip(0) =~= s@);
    assert(all.skip(0) =~= all);
    while pos < n
        invariant
            n == s@.len(),
            pos <= n,
            s@ == graphql_content@,
            all == lines_of(s@),
            index <= all.len(),
            index <= pos,
            lines_of(s@.skip(pos as int)) == all.skip(index as int),
            directive_line < 2 || index <= directive_line - 2,
        decreases n - pos,
    {
        let ghost rest = s@.skip(pos as int);
        proof {
            lemma_first_newline_bounds(rest);
        }
        let mut k = pos;
        while k < n && s[k] != '\n'
            invariant
                pos <= k <= n,
                n == s@.len(),
                rest == s@.skip(pos as int),
                forall|j: int| pos <= j < k ==> s@[j] != '\n',
            decreases n - k,
        {
            k = k + 1;
        }
        proof {
            assert(first_newline(rest) == k - pos) by {
                if first_newline(rest) < k - pos {
                    assert(rest[first_newline(rest)] == s@[pos + first_newline(rest)]);
                }
                if first_newline(rest) > k - pos {
                    assert(rest[k - pos] == s@[k as int]);
                }
            }
            assert(rest.len() > 0);
        }
        let mut end = k;
        if k < n && k > pos && s[k - 1] == '\r' {
            end = k - 1;
        }
        proof {
            let line = if k < n { if k > pos && s@[k - 1] == '\r' { rest.take(k - pos).drop_last() } else { rest.take(k - pos) } } else { rest };
            assert(s@.subrange(pos as int, end as int) =~= line);
            if k < n {
                assert(rest.skip(k - pos + 1) =~= s@.skip(k + 1));
            }
            assert(all.skip(index as int)[0] == line);
            assert(all.skip(index as int).skip(1) =~= all.skip(index + 1));
        }
        assert(index < all.len());
        assert(all[index as int] == s@.subrange(pos as int, end as int));
        if directive_line >= 2 && index == directive_line - 2 {
            if k < n && k + 1 < n {
                proof {
                    let next = s@.skip(k + 1);
                    assert(next.len() > 0);
                    assert(all.skip(index + 1) == lines_of(next));
                    assert(lines_of(next).len() > 0);
                    assert(all.skip(index + 1).len() > 0);
                }
                return trimmed_is_marker(&s, pos, end);
            } else {
                proof {
                    if k < n {
                        assert(s@.skip(k + 1) =~= Seq::<char>::empty());
                        assert(all.skip(index + 1) == lines_of(s@.skip(k + 1)));
                    }
                }
                return false;
            }
        }
        index = index + 1;
        if k < n {
            pos = k + 1;
        } else {
            pos = n;
            assert(s@.skip(n as int) =~= Seq::<char>::empty());
        }
    }
    assert(s@.skip(n as int) =~= Seq::<char>::empty());
    assert(all.skip(index as int).len() == 0);
    false
}

/// The kind a written directive is kept as, if it is kept at all.
pub open spec fn kept_kind(d: DirectiveSyntax, content: Seq<char>) -> Option<DirectiveType> {
    if d.name@ == "catch"@ {
        Some(DirectiveType::Catch)
    } else if d.name@ == "throwOnFieldError"@ && !marked_ignored(content, d.line as int) {
        Some(DirectiveType::ThrowOnFieldError)
    } else if d.name@ == "required"@ && throw_action(d.arguments@) && !marked_ignored(content, d.line as int) {
        Some(DirectiveType::RequiredThrow)
    } else {
        None
    }
}

/// The directives kept from `ds`, in order, with lines made absolute by the line the
/// document starts on (`base`, 1-based).
pub open spec fn kept_directives(ds: Seq<DirectiveSyntax>, base: u32, content: Seq<char>) -> Seq<Directive>
    decreases ds.len(),
{
    if ds.len() == 0 {
        Seq::empty()
    } else {
        let d = ds.last();
        kept_directives(ds.drop_last(), base, content) + match kept_kind(d, content) {
            Some(k) => seq![Directive { directive_type: k, line: (base + d.line - 1) as u32, col: d.column }],
            None => Seq::empty(),
        }
    }
}

/// Keeps the directives that matter for error protection, dropping the rest.
pub fn extract_directives_from_directive_list(
    directives: &Vec<DirectiveSyntax>,
    base_line_number: u32,
    graphql_content: &str,
) -> (r: Vec<Directive>)
    requires
        forall|i: int| 0 <= i < directives@.len() ==> 1 <= (#[trigger] directives@[i]).line
            && base_line_number + directives@[i].line - 1 <= u32::MAX,
    ensures
        r@ == kept_directives(directives@, base_line_number, graphql_content@),
{
    let catch_name = String::from_str("catch");
    let throw_name = String::from_str("throwOnFieldError");
    let required_name = String::from_str("required");
    let mut out: Vec<Directive> = Vec::new();
    assert(directives@.take(0) =~= Seq::<DirectiveSyntax>::empty());
    for i in 0..directives.len()
        invariant
            catch_name@ == "catch"@,
            throw_name@ == "throwOnFieldError"@,
            required_name@ == "required"@,
            forall|j: int| 0 <= j < directives@.len() ==> 1 <= (#[trigger] directives@[j]).line
                && base_line_number + directives@[j].line - 1 <= u32::MAX,
            out@ == kept_directives(directives@.take(i as int), base_line_number, graphql_content@),
    {
        let d = &directives[i];
        assert(directives@.take(i + 1).drop_last() =~= directives@.take(i as int));
        assert(directives@.take(i + 1).last() == *d);
        let kind = if d.name == catch_name {
            Some(DirectiveType::Catch)
        } else if d.name == throw_name && !should_ignore_directive(graphql_content, d.line as usize) {
            Some(DirectiveType::ThrowOnFieldError)
        } else if d.name == required_name && has_throw_action(&d.arguments)
            && !should_ignore_directive(graphql_content, d.line as usize) {
            Some(DirectiveType::RequiredThrow)
        } else {
            None
        };
        assert(kind == kept_kind(*d, graphql_content@));
        match kind {
            Some(k) => {
                assert(1 <= directives@[i as int].line);
                let line = base_line_number + (d.line - 1);
                out.push(Directive { directive_type: k, line, col: d.column });
            },
            None => {
                assert(out@ =~= out@ + Seq::<Directive>::empty());
            },
        }
    }
    assert(directives@.take(directives@.len() as int) =~= directives@);
    out
}

} // verus!
