//! `${name}` substitution in text, used to emit trigger SQL. A placeholder
//! may hold blanks around the name; `\$` keeps the dollar sign that follows
//! it from opening a placeholder.
use vstd::prelude::*;
use vstd::string::*;

verus! {

#[verifier::external_type_specification]
#[verifier::external_body]
pub struct ExFmtError(core::fmt::Error);

/// What a placeholder's name stands for, supplied by the caller.
pub trait Lookup {
    /// Appends the value of `name` to `output`, or fails where `name` is unknown.
    fn replace(&self, name: &str, output: &mut String) -> core::fmt::Result;
}

/// A piece of a template, as the reader sees it.
pub ghost enum PartSpec {
    Text(Seq<char>),
    Name(Seq<char>),
}

/// A piece of a template: literal text, or the name in a placeholder.
#[derive(Clone, Debug)]
pub enum Part {
    Text(String),
    Name(String),
}

impl Part {
    pub open spec fn spec(&self) -> PartSpec {
        match self {
            Part::Text(s) => PartSpec::Text(s@),
            Part::Name(s) => PartSpec::Name(s@),
        }
    }
}

/// Why a template was refused.
#[derive(Clone, Copy, Debug, PartialEq, Eq, Structural)]
pub enum TemplateError {
    /// A placeholder at this character offset is not `${ name }`.
    Syntax(usize),
    /// The lookup knows no value for the name of the placeholder at this offset.
    Missing(usize),
}

pub open spec fn is_blank(c: char) -> bool {
    c == ' ' || c == '\t' || c == '\n' || c == '\r'
}

pub open spec fn is_name_start(c: char) -> bool {
    ('a' <= c && c <= 'z') || ('A' <= c && c <= 'Z') || c == '_'
}

pub open spec fn is_name_char(c: char) -> bool {
    is_name_start(c) || ('0' <= c && c <= '9')
}

/// First position from `p` on that holds no blank.
pub open spec fn blanks_end(s: Seq<char>, p: int) -> int
    decreases s.len() - p,
{
    if 0 <= p < s.len() && is_blank(s[p]) {
        blanks_end(s, p + 1)
    } else {
        p
    }
}

/// First position from `p` on that holds no name character.
pub open spec fn name_end(s: Seq<char>, p: int) -> int
    decreases s.len() - p,
{
    if 0 <= p < s.len() && is_name_char(s[p]) {
        name_end(s, p + 1)
    } else {
        p
    }
}

/// The name of the placeholder whose `${` stands at `p`, and the position
/// after its `}`.
pub open spec fn placeholder(s: Seq<char>, p: int) -> Option<(Seq<char>, int)> {
    let q = blanks_end(s, p + 2);
    if q < s.len() && is_name_start(s[q]) {
        let e = name_end(s, q + 1);
        let r = blanks_end(s, e);
        if r < s.len() && s[r] == '}' {
            Some((s.subrange(q, e), r + 1))
        } else {
            None
        }
    } else {
        None
    }
}

/// The literal text between `cur` and `p`, as a list of at most one piece.
pub open spec fn text_part(s: Seq<char>, cur: int, p: int) -> Seq<PartSpec> {
    if cur < p {
        seq![PartSpec::Text(s.subrange(cur, p))]
    } else {
        Seq::empty()
    }
}

/// The pieces of `s` from `p` on, where literal text has run since `cur`.
pub open spec fn parts_from(s: Seq<char>, p: int, cur: int) -> Option<Seq<PartSpec>>
    decreases s.len() - p,
{
    if p >= s.len() || p < 0 {
        Some(text_part(s, cur, s.len() as int))
    } else if s[p] == '\\' && p + 1 < s.len() && s[p + 1] == '$' {
        parts_from(s, p + 2, cur)
    } else if s[p] == '$' && p + 1 < s.len() && s[p + 1] == '{' {
        match placeholder(s, p) {
            Some((name, end)) => if p < end {
                match parts_from(s, end, end) {
                    Some(rest) => Some(text_part(s, cur, p) + seq![PartSpec::Name(name)] + rest),
                    None => None,
                }
            } else {
                None
            },
            None => None,
        }
    } else {
        parts_from(s, p + 1, cur)
    }
}

/// The pieces of a template, or `None` where a placeholder is malformed.
pub open spec fn template_parts(s: Seq<char>) -> Option<Seq<PartSpec>> {
    parts_from(s, 0, 0)
}

/// Number of names among the pieces.
pub open spec fn name_count(ps: Seq<PartSpec>) -> nat
    decreases ps.len(),
{
    if ps.len() == 0 {
        0
    } else {
        name_count(ps.drop_last()) + if ps.last() is Name {
            1nat
        } else {
            0nat
        }
    }
}

/// The pieces put together, the `k`-th name replaced by `values[k]`.
pub open spec fn render_spec(ps: Seq<PartSpec>, values: Seq<Seq<char>>) -> Seq<char>
    decreases ps.len(),
{
    if ps.len() == 0 {
        Seq::empty()
    } else {
        render_spec(ps.drop_last(), values) + match ps.last() {
            PartSpec::Text(t) => t,
            PartSpec::Name(_) => values[name_count(ps.drop_last()) as int],
        }
    }
}

fn blank(c: char) -> (r: bool)
    ensures
        r == is_blank(c),
{
    c == ' ' || c == '\t' || c == '\n' || c == '\r'
}

fn name_start(c: char) -> (r: bool)
    ensures
        r == is_name_start(c),
{
    ('a' <= c && c <= 'z') || ('A' <= c && c <= 'Z') || c == '_'
}

fn name_char(c: char) -> (r: bool)
    ensures
        r == is_name_char(c),
{
    name_start(c) || ('0' <= c && c <= '9')
}

fn skip_blanks(s: &str, len: usize, p: usize) -> (r: usize)
    requires
        len == s@.len(),
        p <= len,
    ensures
        r == blanks_end(s@, p as int),
        p <= r <= len,
    decreases len - p,
{
    if p < len && blank(s.get_char(p)) {
        skip_blanks(s, len, p + 1)
    } else {
        p
    }
}

fn skip_name(s: &str, len: usize, p: usize) -> (r: usize)
    requires
        len == s@.len(),
        p <= len,
    ensures
        r == name_end(s@, p as int),
        p <= r <= len,
    decreases len - p,
{
    if p < len && name_char(s.get_char(p)) {
        skip_name(s, len, p + 1)
    } else {
        p
    }
}

fn owned(s: &str) -> (r: String)
    ensures
        r@ == s@,
{
    let mut r = String::new();
    r.append(s);
    assert(r@ =~= s@);
    r
}

/// Splits a template into literal text and placeholder names.
pub fn parse_template(input: &str) -> (r: Result<Vec<Part>, TemplateError>)
    ensures
        r is Ok <==> template_parts(input@) is Some,
        r matches Ok(v) ==> v@.map_values(|p: Part| p.spec()) == template_parts(input@)->0,
        r matches Err(e) ==> e is Syntax,
{
    let len = input.unicode_len();
    let mut parts: Vec<Part> = Vec::new();
    let mut p: usize = 0;
    let mut cur: usize = 0;
    while p < len
        invariant
            len == input@.len(),
            cur <= p <= len,
            parts_from(input@, 0, 0) == match parts_from(input@, p as int, cur as int) {
                Some(rest) => Some(parts@.map_values(|q: Part| q.spec()) + rest),
                None => None,
            },
        decreases len - p,
    {
        let c = input.get_char(p);
        if c == '\\' && p + 1 < len && input.get_char(p + 1) == '$' {
            p = p + 2;
        } else if c == '$' && p + 1 < len && input.get_char(p + 1) == '{' {
            let q = skip_blanks(input, len, p + 2);
            if !(q < len && name_start(input.get_char(q))) {
                return Err(TemplateError::Syntax(p));
            }
            let e = skip_name(input, len, q + 1);
            let t = skip_blanks(input, len, e);
            if !(t < len && input.get_char(t) == '}') {
                return Err(TemplateError::Syntax(p));
            }
            let ghost before = parts@.map_values(|q: Part| q.spec());
            if cur < p {
                parts.push(Part::Text(owned(input.substring_char(cur, p))));
            }
            parts.push(Part::Name(owned(input.substring_char(q, e))));
            proof {
                assert(parts@.map_values(|q: Part| q.spec()) =~= before + text_part(
                    input@,
                    cur as int,
                    p as int,
                ) + seq![PartSpec::Name(input@.subrange(q as int, e as int))]);
                match parts_from(input@, (t + 1) as int, (t + 1) as int) {
                    Some(rest) => {
                        assert(before + text_part(input@, cur as int, p as int) + seq![
                            PartSpec::Name(input@.subrange(q as int, e as int)),
                        ] + rest =~= before + (text_part(input@, cur as int, p as int) + seq![
                            PartSpec::Name(input@.subrange(q as int, e as int)),
                        ] + rest));
                    },
                    None => {},
                }
            }
            p = t + 1;
            cur = p;
        } else {
            p = p + 1;
        }
    }
    let ghost before = parts@.map_values(|q: Part| q.spec());
    if cur < len {
        parts.push(Part::Text(owned(input.substring_char(cur, len))));
    }
    assert(parts@.map_values(|q: Part| q.spec()) =~= before + text_part(
        input@,
        cur as int,
        len as int,
    ));
    Ok(parts)
}

/// Puts the pieces together, the `k`-th name replaced by `values[k]`.
pub fn render(parts: &Vec<Part>, values: &Vec<String>) -> (r: String)
    requires
        name_count(parts@.map_values(|p: Part| p.spec())) <= values@.len(),
    ensures
        r@ == render_spec(
            parts@.map_values(|p: Part| p.spec()),
            values@.map_values(|v: String| v@),
        ),
{
    let ghost ps = parts@.map_values(|p: Part| p.spec());
    let ghost vs = values@.map_values(|v: String| v@);
    let mut out = String::new();
    let mut i: usize = 0;
    let mut k: usize = 0;
    let vlen = values.len();
    while i < parts.len()
        invariant
            vlen == values@.len(),
            i <= parts@.len(),
            ps == parts@.map_values(|p: Part| p.spec()),
            vs == values@.map_values(|v: String| v@),
            name_count(ps) <= values@.len(),
            k == name_count(ps.subrange(0, i as int)),
            out@ == render_spec(ps.subrange(0, i as int), vs),
        decreases parts@.len() - i,
    {
        proof {
            assert(ps.subrange(0, i + 1).drop_last() =~= ps.subrange(0, i as int));
            lemma_name_count_prefix(ps, i + 1);
        }
        match &parts[i] {
            Part::Text(t) => {
                out.append(t.as_str());
            },
            Part::Name(_) => {
                out.append(values[k].as_str());
                k = k + 1;
            },
        }
        i = i + 1;
    }
    assert(ps.subrange(0, parts@.len() as int) =~= ps);
    out
}

proof fn lemma_name_count_prefix(ps: Seq<PartSpec>, n: int)
    requires
        0 <= n <= ps.len(),
    ensures
        name_count(ps.subrange(0, n)) <= name_count(ps),
    decreases ps.len(),
{
    if n < ps.len() {
        assert(ps.drop_last().subrange(0, n) =~= ps.subrange(0, n));
        lemma_name_count_prefix(ps.drop_last(), n);
    } else {
        assert(ps.subrange(0, n) =~= ps);
    }
}

/// Substitutes every placeholder of `input` with what `lookup` gives for its
/// name.
pub fn replace<T: Lookup>(input: &str, lookup: &T) -> (r: Result<String, TemplateError>)
    ensures
        template_parts(input@) is None <==> r matches Err(TemplateError::Syntax(_)),
        r matches Err(TemplateError::Missing(_)) ==> name_count(template_parts(input@)->0) > 0,
        template_parts(input@) matches Some(ps) && name_count(ps) == 0 ==> r is Ok,
        r matches Ok(out) ==> exists|vs: Seq<Seq<char>>|
            name_count(template_parts(input@)->0) <= vs.len() && out@ == render_spec(
                template_parts(input@)->0,
                vs,
            ),
{
    let parts = match parse_template(input) {
        Ok(parts) => parts,
        Err(e) => {
            return Err(e);
        },
    };
    let ghost ps = parts@.map_values(|p: Part| p.spec());
    let mut values: Vec<String> = Vec::new();
    let mut i: usize = 0;
    while i < parts.len()
        invariant
            i <= parts@.len(),
            ps == parts@.map_values(|p: Part| p.spec()),
            values@.len() == name_count(ps.subrange(0, i as int)),
            template_parts(input@) is Some,
            ps == template_parts(input@)->0,
        decreases parts@.len() - i,
    {
        proof {
            assert(ps.subrange(0, i + 1).drop_last() =~= ps.subrange(0, i as int));
        }
        match &parts[i] {
            Part::Text(_) => {},
            Part::Name(name) => {
                let mut v = String::new();
                match lookup.replace(name.as_str(), &mut v) {
                    Ok(()) => {},
                    Err(_) => {
                        proof {
                            lemma_name_count_prefix(ps, i + 1);
                            assert(ps[i as int] == parts@[i as int].spec());
                            assert(ps.subrange(0, i + 1).last() == ps[i as int]);
                            assert(name_count(ps.subrange(0, i + 1)) >= 1);
                        }
                        return Err(TemplateError::Missing(i));
                    },
                }
                values.push(v);
            },
        }
        i = i + 1;
    }
    assert(ps.subrange(0, parts@.len() as int) =~= ps);
    let out = render(&parts, &values);
    Ok(out)
}

} // verus!
