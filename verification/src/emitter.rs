use vstd::prelude::*;
use vstd::string::StrSliceExecFns;
use vstd::string::StringExecFns;
use crate::options::CompileOptions;
use crate::parser::{Element, ElementContent, ElemV, ContentV, elem_view, elems_view, attrs_view};
use crate::strutil::{char_repeat, push_repeat, str_eq_str};
use crate::tokenizer::Indent;

verus! {

// ---------------------------------------------------------------------------
// The exact shape of the emitted text, as specification functions.
// ---------------------------------------------------------------------------

/// Tags that never receive a closing tag.
pub open spec fn is_void_tag(t: Seq<char>) -> bool {
    ||| t == seq!['b', 'r']
    ||| t == seq!['i', 'm', 'g']
    ||| t == seq!['m', 'e', 't', 'a']
    ||| t == seq!['w', 'b', 'r']
}

/// Tags whose inner text bypasses the document-text rendering step and is
/// emitted byte for byte.
pub open spec fn is_plaintext_tag(t: Seq<char>) -> bool {
    ||| t == seq!['s', 't', 'y', 'l', 'e']
    ||| t == seq!['c', 's', 's']
    ||| t == seq!['s', 'c', 'r', 'i', 'p', 't']
}

/// The pluggable document-text rendering step applied to the inner text of
/// ordinary tags. It is an identity pass; only the dispatch rule between it
/// and the plaintext tags is part of the contract.
pub open spec fn spec_render_markdown(t: Seq<char>) -> Seq<char> {
    t
}

/// `n` spaces.
pub open spec fn spaces(n: int) -> Seq<char> {
    char_repeat(' ', n)
}

/// The fixed document type declaration that opens every emitted document.
pub open spec fn doctype() -> Seq<char> {
    seq![
        '<',
        '!',
        'D',
        'O',
        'C',
        'T',
        'Y',
        'P',
        'E',
        ' ',
        'h',
        't',
        'm',
        'l',
        '>',
        '\n',
    ]
}

/// A Unicode whitespace character (the set that `char::is_whitespace`
/// recognizes).
pub open spec fn is_space_char(c: char) -> bool {
    ||| c == ' '
    ||| c == '\t'
    ||| c == '\n'
    ||| c == '\r'
    ||| c as u32 == 0x0B
    ||| c as u32 == 0x0C
    ||| c as u32 == 0x85
    ||| c as u32 == 0xA0
    ||| c as u32 == 0x1680
    ||| (0x2000 <= c as u32 && c as u32 <= 0x200A)
    ||| c as u32 == 0x2028
    ||| c as u32 == 0x2029
    ||| c as u32 == 0x202F
    ||| c as u32 == 0x205F
    ||| c as u32 == 0x3000
}

/// `s` with every whitespace character removed.
pub open spec fn nonws(s: Seq<char>) -> Seq<char>
    decreases s.len(),
{
    if s.len() == 0 {
        s
    } else if is_space_char(s[0]) {
        nonws(s.drop_first())
    } else {
        seq![s[0]] + nonws(s.drop_first())
    }
}

/// A raw attribute value with a wrapping pair of double quotes removed;
/// anything not wrapped in a matching pair stays as it is.
pub open spec fn strip_quotes(v: Seq<char>) -> Seq<char> {
    if v.len() >= 2 && v[0] == '"' && v[v.len() - 1] == '"' {
        v.subrange(1, v.len() - 1)
    } else {
        v
    }
}

/// The value of the first attribute in `attrs` (in source order) whose name
/// is `name` and which carries a value.
pub open spec fn attr_find(
    attrs: Seq<(Seq<char>, Option<Seq<char>>)>,
    name: Seq<char>,
) -> Option<Seq<char>>
    decreases attrs.len(),
{
    if attrs.len() == 0 {
        None
    } else if attrs[0].0 == name && attrs[0].1 is Some {
        Some(attrs[0].1.unwrap())
    } else {
        attr_find(attrs.drop_first(), name)
    }
}

/// The substitution for a variable: the first matching attribute value on
/// the current element or any ancestor, innermost first, with a wrapping
/// pair of double quotes stripped; the empty string when no attribute
/// matches.
pub open spec fn spec_lookup(stack: Seq<ElemV>, name: Seq<char>) -> Seq<char>
    decreases stack.len(),
{
    if stack.len() == 0 {
        Seq::empty()
    } else {
        match attr_find(stack.last().attrs, name) {
            Some(v) => strip_quotes(v),
            None => spec_lookup(stack.drop_last(), name),
        }
    }
}

/// The position of the first `'}'` at or after `p`, or the length of `v`
/// when none remains.
pub open spec fn close_pos(v: Seq<char>, p: int) -> int
    decreases v.len() - p,
{
    if p >= v.len() {
        v.len() as int
    } else if v[p] == '}' {
        p
    } else {
        close_pos(v, p + 1)
    }
}

pub proof fn lemma_close_pos_bounds(v: Seq<char>, p: int)
    requires
        0 <= p <= v.len(),
    ensures
        p <= close_pos(v, p) <= v.len(),
        close_pos(v, p) < v.len() ==> v[close_pos(v, p)] == '}',
    decreases v.len() - p,
{
    if p < v.len() && v[p] != '}' {
        lemma_close_pos_bounds(v, p + 1);
    }
}

/// An attribute value with its variables substituted: text outside `@{…}`
/// is copied unchanged, each `@{name}` becomes the looked-up value of
/// `name` (whitespace inside the braces is skipped), and an unterminated
/// `@{` is copied literally to the end.
pub open spec fn spec_interp(stack: Seq<ElemV>, v: Seq<char>) -> Seq<char>
    decreases v.len(),
{
    if v.len() == 0 {
        Seq::empty()
    } else if v.len() >= 2 && v[0] == '@' && v[1] == '{' {
        let j = close_pos(v, 2);
        if j < v.len() {
            proof {
                lemma_close_pos_bounds(v, 2);
            }
            spec_lookup(stack, nonws(v.subrange(2, j))) + spec_interp(
                stack,
                v.subrange(j + 1, v.len() as int),
            )
        } else {
            v
        }
    } else {
        seq![v[0]] + spec_interp(stack, v.drop_first())
    }
}

/// The attribute section of an opening tag: for each attribute a space and
/// its name, and `=` with the interpolated value where one is present.
pub open spec fn spec_attrs_emit(
    stack: Seq<ElemV>,
    attrs: Seq<(Seq<char>, Option<Seq<char>>)>,
) -> Seq<char>
    decreases attrs.len(),
{
    if attrs.len() == 0 {
        Seq::empty()
    } else {
        seq![' '] + attrs[0].0 + (match attrs[0].1 {
            Some(v) => seq!['='] + spec_interp(stack, v),
            None => Seq::empty(),
        }) + spec_attrs_emit(stack, attrs.drop_first())
    }
}

/// The class names joined with single spaces.
pub open spec fn classes_joined(cs: Seq<Seq<char>>) -> Seq<char>
    decreases cs.len(),
{
    if cs.len() == 0 {
        Seq::empty()
    } else if cs.len() == 1 {
        cs[0]
    } else {
        cs[0] + seq![' '] + classes_joined(cs.drop_first())
    }
}

/// The opening tag of `e`, interpolating attribute values against `stack`
/// (which has `e` itself as its last entry).
pub open spec fn spec_open_tag(stack: Seq<ElemV>, e: ElemV) -> Seq<char> {
    seq!['<'] + e.tag + (match e.id {
        Some(id) => seq![' ', 'i', 'd', '=', '"'] + id + seq!['"'],
        None => Seq::empty(),
    }) + spec_attrs_emit(stack, e.attrs) + (if e.classes.len() > 0 {
        seq![' ', 'c', 'l', 'a', 's', 's', '=', '"'] + classes_joined(e.classes) + seq!['"']
    } else {
        Seq::empty()
    }) + seq!['>']
}

/// The indentation depth of a child element.
pub open spec fn next_indent(d: int) -> int {
    if d + 2 <= usize::MAX {
        d + 2
    } else {
        d
    }
}

/// The text emitted for one element. `stack` holds the element itself as
/// its last entry, below its ancestors.
pub open spec fn spec_emit_one(stack: Seq<ElemV>, e: ElemV, pretty: bool, indent: int) -> Seq<char>
    decreases e,
{
    (if pretty {
        spaces(indent)
    } else {
        Seq::empty()
    }) + spec_open_tag(stack, e) + (match e.content {
        ContentV::Empty => Seq::empty(),
        ContentV::Text(t) => (if pretty {
            seq!['\n']
        } else {
            Seq::empty()
        }) + (if is_plaintext_tag(e.tag) {
            t
        } else {
            spec_render_markdown(t)
        }) + seq!['\n'],
        ContentV::Children(cs) => (if pretty {
            seq!['\n']
        } else {
            Seq::empty()
        }) + spec_emit_elems(stack, cs, pretty, next_indent(indent)),
    }) + (if !is_void_tag(e.tag) {
        (if pretty {
            spaces(indent)
        } else {
            Seq::empty()
        }) + seq!['<', '/'] + e.tag + seq!['>']
    } else {
        Seq::empty()
    }) + (if pretty {
        seq!['\n']
    } else {
        Seq::empty()
    })
}

/// The text emitted for a run of sibling elements, each with itself pushed
/// onto the ancestor stack.
pub open spec fn spec_emit_elems(
    stack: Seq<ElemV>,
    elems: Seq<ElemV>,
    pretty: bool,
    indent: int,
) -> Seq<char>
    decreases elems,
{
    if elems.len() == 0 {
        Seq::empty()
    } else {
        spec_emit_one(stack.push(elems.first()), elems.first(), pretty, indent) + spec_emit_elems(
            stack,
            elems.drop_first(),
            pretty,
            indent,
        )
    }
}

/// The whole emitted document: the document type declaration, then each
/// top-level element in order.
pub open spec fn spec_emit(elems: Seq<ElemV>, pretty: bool) -> Seq<char> {
    doctype() + spec_emit_elems(Seq::empty(), elems, pretty, 0)
}

/// The views of a stack of element references.
pub open spec fn stack_view(st: Seq<&Element>) -> Seq<ElemV> {
    st.map_values(|r: &Element| elem_view(*r))
}

// ---------------------------------------------------------------------------
// Executable helpers for the tag sets and whitespace.
// ---------------------------------------------------------------------------

fn is_void_tag_exec(t: &str) -> (r: bool)
    ensures
        r == is_void_tag(t@),
{
    let r = str_eq_str(t, "br") || str_eq_str(t, "img") || str_eq_str(t, "meta") || str_eq_str(
        t,
        "wbr",
    );
    proof {
        reveal_strlit("br");
        reveal_strlit("img");
        reveal_strlit("meta");
        reveal_strlit("wbr");
        assert("br"@ =~= seq!['b', 'r']);
        assert("img"@ =~= seq!['i', 'm', 'g']);
        assert("meta"@ =~= seq!['m', 'e', 't', 'a']);
        assert("wbr"@ =~= seq!['w', 'b', 'r']);
    }
    r
}

fn is_plaintext_tag_exec(t: &str) -> (r: bool)
    ensures
        r == is_plaintext_tag(t@),
{
    let r = str_eq_str(t, "style") || str_eq_str(t, "css") || str_eq_str(t, "script");
    proof {
        reveal_strlit("style");
        reveal_strlit("css");
        reveal_strlit("script");
        assert("style"@ =~= seq!['s', 't', 'y', 'l', 'e']);
        assert("css"@ =~= seq!['c', 's', 's']);
        assert("script"@ =~= seq!['s', 'c', 'r', 'i', 'p', 't']);
    }
    r
}

fn is_space_exec(c: char) -> (r: bool)
    ensures
        r == is_space_char(c),
{
    let u = c as u32;
    u == 0x20 || u == 0x09 || u == 0x0A || u == 0x0D || u == 0x0B || u == 0x0C || u == 0x85 || u
        == 0xA0 || u == 0x1680 || (0x2000 <= u && u <= 0x200A) || u == 0x2028 || u == 0x2029 || u
        == 0x202F || u == 0x205F || u == 0x3000
}

// ---------------------------------------------------------------------------
// The emitter.
// ---------------------------------------------------------------------------

/// Serializes a tree of elements into the final text.
pub struct Emitter {
    options: CompileOptions,
}

impl Emitter {
    /// Whether pretty-printing (indentation and line breaks) is on.
    pub closed spec fn pretty(self) -> bool {
        self.options.pretty
    }

    /// An emitter that serializes with the given options.
    pub fn new(options: CompileOptions) -> (e: Emitter)
        ensures
            e.pretty() == options.pretty,
    {
        Emitter { options }
    }

    /// Gets the value of a variable: the first attribute with that name and
    /// a value, on the innermost element first. If the variable is not
    /// found, an empty string is returned.
    #[verifier::loop_isolation(false)]
    fn get_variable_value<'e>(
        &self,
        var_name: &String,
        element_stack: &Vec<&'e Element>,
    ) -> (r: &'e str)
        ensures
            r@ == spec_lookup(stack_view(element_stack@), var_name@),
    {
        let ghost sv = stack_view(element_stack@);
        proof {
            assert(sv.subrange(0, sv.len() as int) =~= sv);
        }
        let mut fi = element_stack.len();
        while fi > 0
            invariant
                0 <= fi <= element_stack@.len(),
                spec_lookup(sv, var_name@) == spec_lookup(sv.subrange(0, fi as int), var_name@),
            decreases fi,
        {
            fi = fi - 1;
            let element: &Element = element_stack[fi];
            let ghost av = elem_view(*element).attrs;
            proof {
                assert(sv.subrange(0, fi as int + 1).last() == elem_view(*element));
                assert(sv.subrange(0, fi as int + 1).drop_last() =~= sv.subrange(0, fi as int));
                assert(av.subrange(0, av.len() as int) =~= av);
            }
            let mut ci: usize = 0;
            while ci < element.attributes.len()
                invariant
                    0 <= ci <= element.attributes@.len(),
                    attr_find(av, var_name@) == attr_find(
                        av.subrange(ci as int, av.len() as int),
                        var_name@,
                    ),
                decreases element.attributes@.len() - ci,
            {
                proof {
                    assert(av.subrange(ci as int, av.len() as int).drop_first() =~= av.subrange(
                        ci as int + 1,
                        av.len() as int,
                    ));
                }
                let is_match = str_eq_str(element.attributes[ci].0.as_str(), var_name.as_str())
                    && element.attributes[ci].1.is_some();
                if is_match {
                    let value: &'e String = match &element.attributes[ci].1 {
                        Some(v) => v,
                        None => unreached(),
                    };
                    let vl = value.as_str().unicode_len();
                    if vl >= 2 && value.as_str().get_char(0) == '"' && value.as_str().get_char(
                        vl - 1,
                    ) == '"' {
                        return value.as_str().substring_char(1, vl - 1);
                    } else {
                        return value.as_str();
                    }
                }
                ci = ci + 1;
            }
        }
        proof {
            reveal_strlit("");
        }
        ""
    }
}

/// Dropping a prefix shifts the position of the first closing brace.
pub proof fn lemma_close_pos_shift(s: Seq<char>, k: int, p: int)
    requires
        0 <= k <= s.len(),
        0 <= p,
    ensures
        close_pos(s.skip(k), p) == close_pos(s, k + p) - k,
    decreases s.len() - (k + p),
{
    if k + p >= s.len() {
        assert(s.skip(k).len() == s.len() - k);
    } else {
        assert(s.skip(k)[p] == s[k + p]);
        if s[k + p] != '}' {
            lemma_close_pos_shift(s, k, p + 1);
        }
    }
}

impl Emitter {
    /// Writes `emit_string` with each `@{name}` replaced by the variable's
    /// value, looked up on the current element and its ancestors.
    fn emit_with_vars(
        &self,
        element_stack: &Vec<&Element>,
        out_string: &mut String,
        emit_string: &String,
    )
        ensures
            final(out_string)@ == old(out_string)@ + spec_interp(
                stack_view(element_stack@),
                emit_string@,
            ),
    {
        let ghost st = stack_view(element_stack@);
        let ghost vs = emit_string@;
        let v = emit_string.as_str();
        let n = v.unicode_len();
        let mut i: usize = 0;
        proof {
            assert(vs.skip(0) =~= vs);
        }
        while i < n
            invariant
                st == stack_view(element_stack@),
                vs == emit_string@,
                v@ == vs,
                0 <= i <= n,
                n == vs.len(),
                out_string@ + spec_interp(st, vs.skip(i as int)) == old(out_string)@ + spec_interp(
                    st,
                    vs,
                ),
            decreases n - i,
        {
            let c = v.get_char(i);
            let ghost w = vs.skip(i as int);
            proof {
                assert(w[0] == vs[i as int]);
                assert(w.len() == n - i);
            }
            let open_var = c == '@' && i + 1 < n && v.get_char(i + 1) == '{';
            if open_var {
                proof {
                    assert(w[1] == vs[i as int + 1]);
                }
                let ghost cp = close_pos(vs, i as int + 2);
                proof {
                    lemma_close_pos_bounds(vs, i as int + 2);
                }
                let mut j = i + 2;
                let mut name = String::new();
                let mut found = false;
                proof {
                    assert(vs.subrange(i as int + 2, i as int + 2) =~= Seq::<char>::empty());
                }
                while j < n
                    invariant
                        vs == emit_string@,
                        v@ == vs,
                        n == vs.len(),
                        i + 2 <= j <= n,
                        cp == close_pos(vs, i as int + 2),
                        i as int + 2 <= cp <= n,
                        name@ == nonws(vs.subrange(i as int + 2, j as int)),
                        found ==> j < n && j as int == cp,
                        !found ==> close_pos(vs, j as int) == cp,
                    ensures
                        name@ == nonws(vs.subrange(i as int + 2, j as int)),
                        found ==> j < n && j as int == cp,
                        !found ==> j == n && cp == n,
                    decreases n - j, (if found { 0int } else { 1int }),
                {
                    if found {
                        break;
                    }
                    let c2 = v.get_char(j);
                    if c2 == '}' {
                        found = true;
                    } else {
                        if !is_space_exec(c2) {
                            name.push(c2);
                        }
                        proof {
                            assert(vs.subrange(i as int + 2, j as int + 1) =~= vs.subrange(
                                i as int + 2,
                                j as int,
                            ).push(vs[j as int]));
                            lemma_nonws_push(vs.subrange(i as int + 2, j as int), vs[j as int]);
                        }
                        j = j + 1;
                    }
                }
                if found {
                    let value = self.get_variable_value(&name, element_stack);
                    out_string.append(value);
                    proof {
                        lemma_close_pos_shift(vs, i as int, 2);
                        assert(close_pos(w, 2) == cp - i);
                        assert(cp - i < w.len());
                        assert(w.subrange(2, cp - i) =~= vs.subrange(i as int + 2, cp));
                        assert(w.subrange(cp - i + 1, w.len() as int) =~= vs.skip(cp + 1));
                        assert(spec_interp(st, w) == spec_lookup(
                            st,
                            nonws(vs.subrange(i as int + 2, cp)),
                        ) + spec_interp(st, vs.skip(cp + 1)));
                        assert(out_string@ + spec_interp(st, vs.skip(j as int + 1))
                            =~= old(out_string)@ + spec_interp(st, vs));
                    }
                    i = j + 1;
                } else {
                    let rest = v.substring_char(i, n);
                    out_string.append(rest);
                    proof {
                        lemma_close_pos_shift(vs, i as int, 2);
                        assert(close_pos(w, 2) == n - i);
                        assert(!(close_pos(w, 2) < w.len()));
                        assert(spec_interp(st, w) == w);
                        assert(vs.subrange(i as int, n as int) =~= w);
                        assert(vs.skip(n as int) =~= Seq::<char>::empty());
                        assert(out_string@ + spec_interp(st, vs.skip(n as int)) =~= old(
                            out_string,
                        )@ + spec_interp(st, vs));
                    }
                    i = n;
                }
            } else {
                out_string.push(c);
                proof {
                    assert(w.drop_first() =~= vs.skip(i as int + 1));
                    if w.len() >= 2 && w[0] == '@' && w[1] == '{' {
                        assert(vs[i as int + 1] == w[1]);
                        assert(false);
                    }
                    assert(spec_interp(st, w) == seq![w[0]] + spec_interp(
                        st,
                        vs.skip(i as int + 1),
                    ));
                    assert(out_string@ + spec_interp(st, vs.skip(i as int + 1)) =~= old(
                        out_string,
                    )@ + spec_interp(st, vs));
                }
                i = i + 1;
            }
        }
        proof {
            assert(vs.skip(n as int) =~= Seq::<char>::empty());
            assert(spec_interp(st, vs.skip(n as int)) =~= Seq::<char>::empty());
            assert(out_string@ =~= old(out_string)@ + spec_interp(st, vs));
        }
    }
}

/// The class names each followed by one space.
pub open spec fn classes_trailing(cs: Seq<Seq<char>>) -> Seq<char>
    decreases cs.len(),
{
    if cs.len() == 0 {
        Seq::empty()
    } else {
        cs[0] + seq![' '] + classes_trailing(cs.drop_first())
    }
}

/// Space-joined class names are the space-terminated ones with the final
/// space removed.
pub proof fn lemma_classes_trailing(cs: Seq<Seq<char>>)
    requires
        cs.len() > 0,
    ensures
        classes_trailing(cs) == classes_joined(cs).push(' '),
        classes_trailing(cs).len() > 0,
    decreases cs.len(),
{
    if cs.len() == 1 {
        assert(classes_trailing(cs.drop_first()) =~= Seq::<char>::empty());
        assert(classes_trailing(cs) =~= classes_joined(cs).push(' '));
    } else {
        lemma_classes_trailing(cs.drop_first());
        assert(classes_trailing(cs) =~= classes_joined(cs).push(' '));
    }
}

impl Emitter {
    /// Emits `indent` spaces.
    fn indent(&self, out_string: &mut String, indent: Indent)
        ensures
            final(out_string)@ == old(out_string)@ + spaces(indent as int),
    {
        push_repeat(out_string, ' ', indent);
    }

    /// Writes inner text through the document-text rendering step (an
    /// identity pass), followed by a line break.
    fn emit_markdown(
        &self,
        out_string: &mut String,
        md: &String,
        indent: Indent,
        element_stack: &mut Vec<&Element>,
    )
        ensures
            final(out_string)@ == old(out_string)@ + spec_render_markdown(md@) + seq!['\n'],
            final(element_stack)@ == old(element_stack)@,
    {
        out_string.append(md.as_str());
        out_string.push('\n');
        proof {
            assert(out_string@ =~= old(out_string)@ + spec_render_markdown(md@) + seq!['\n']);
        }
    }

    /// Writes inner text byte for byte, followed by a line break.
    fn emit_plaintext(&self, out_string: &mut String, plaintext: &String, indent: Indent)
        ensures
            final(out_string)@ == old(out_string)@ + plaintext@ + seq!['\n'],
    {
        out_string.append(plaintext.as_str());
        out_string.push('\n');
        proof {
            assert(out_string@ =~= old(out_string)@ + plaintext@ + seq!['\n']);
        }
    }

    /// Writes the indentation and the whole opening tag of `element`, which
    /// is the last entry of `element_stack`.
    #[verifier::rlimit(100)]
    #[verifier::spinoff_prover]
    fn emit_open_tag<'a>(
        &self,
        out_string: &mut String,
        element_stack: &Vec<&'a Element>,
        element: &'a Element,
        pretty: bool,
        indent: Indent,
    )
        ensures
            final(out_string)@ == old(out_string)@ + (if pretty {
                spaces(indent as int)
            } else {
                Seq::<char>::empty()
            }) + spec_open_tag(stack_view(element_stack@), elem_view(*element)),
    {
        let ghost base = old(out_string)@;
        let ghost st = stack_view(element_stack@);
        let ghost ev = elem_view(*element);
        // Indentation and the opening tag.
        if pretty {
            self.indent(out_string, indent);
        }
        let ghost p_ind = if pretty {
            spaces(indent as int)
        } else {
            Seq::<char>::empty()
        };
        out_string.push('<');
        out_string.append(element.tag_name.as_str());
        let ghost p_open = seq!['<'] + ev.tag;
        proof {
            assert(out_string@ =~= base + p_ind + p_open);
        }

        // Id.
        match &element.id {
            Some(id) => {
                out_string.append(" id=\"");
                out_string.append(id.as_str());
                out_string.push('"');
            },
            None => {},
        }
        let ghost p_id = match ev.id {
            Some(id) => seq![' ', 'i', 'd', '=', '"'] + id + seq!['"'],
            None => Seq::<char>::empty(),
        };
        proof {
            reveal_strlit(" id=\"");
            assert(" id=\""@ =~= seq![' ', 'i', 'd', '=', '"']);
            assert(out_string@ =~= base + p_ind + p_open + p_id);
        }

        // Attributes, with interpolated values.
        let ghost av = ev.attrs;
        let ghost base_attrs = out_string@;
        proof {
            assert(av.skip(0) =~= av);
        }
        let mut ai: usize = 0;
        while ai < element.attributes.len()
            invariant
                av == attrs_view(element.attributes@),
                st == stack_view(element_stack@),
                0 <= ai <= element.attributes@.len(),
                av.len() == element.attributes@.len(),
                out_string@ + spec_attrs_emit(st, av.skip(ai as int)) == base_attrs
                    + spec_attrs_emit(st, av),
            decreases element.attributes@.len() - ai,
        {
            out_string.push(' ');
            out_string.append(element.attributes[ai].0.as_str());
            let ghost mid = out_string@;
            match &element.attributes[ai].1 {
                Some(value) => {
                    out_string.push('=');
                    self.emit_with_vars(element_stack, out_string, value);
                    proof {
                        assert(out_string@ =~= mid + seq!['='] + spec_interp(st, value@));
                    }
                },
                None => {},
            }
            proof {
                assert(av.skip(ai as int)[0] == av[ai as int]);
                assert(av[ai as int] == crate::parser::attr_view(element.attributes@[ai as int]));
                assert(av.skip(ai as int).drop_first() =~= av.skip(ai as int + 1));
                assert(out_string@ + spec_attrs_emit(st, av.skip(ai as int + 1)) =~= base_attrs
                    + spec_attrs_emit(st, av));
            }
            ai = ai + 1;
        }
        proof {
            assert(av.skip(av.len() as int) =~= Seq::<(Seq<char>, Option<Seq<char>>)>::empty());
            assert(out_string@ =~= base + p_ind + p_open + p_id + spec_attrs_emit(st, av));
        }

        // Classes.
        if element.classes.len() > 0 {
            out_string.append(" class=\"");
            let ghost cv = ev.classes;
            let ghost base_cls = out_string@;
            proof {
                assert(cv.skip(0) =~= cv);
            }
            let mut ci: usize = 0;
            while ci < element.classes.len()
                invariant
                    cv == crate::parser::strs_view(element.classes@),
                    0 <= ci <= element.classes@.len(),
                    cv.len() == element.classes@.len(),
                    out_string@ + classes_trailing(cv.skip(ci as int)) == base_cls
                        + classes_trailing(cv),
                decreases element.classes@.len() - ci,
            {
                out_string.append(element.classes[ci].as_str());
                out_string.push(' ');
                proof {
                    assert(cv.skip(ci as int)[0] == cv[ci as int]);
                    assert(cv.skip(ci as int).drop_first() =~= cv.skip(ci as int + 1));
                    assert(out_string@ + classes_trailing(cv.skip(ci as int + 1)) =~= base_cls
                        + classes_trailing(cv));
                }
                ci = ci + 1;
            }
            proof {
                assert(cv.skip(cv.len() as int) =~= Seq::<Seq<char>>::empty());
                assert(out_string@ =~= base_cls + classes_trailing(cv));
                lemma_classes_trailing(cv);
            }
            out_string.pop();
            out_string.push('"');
            proof {
                reveal_strlit(" class=\"");
                assert(" class=\""@ =~= seq![' ', 'c', 'l', 'a', 's', 's', '=', '"']);
                assert((base_cls + classes_joined(cv).push(' ')).drop_last() =~= base_cls
                    + classes_joined(cv));
                assert(out_string@ =~= base + p_ind + p_open + p_id + spec_attrs_emit(st, av) + (
                seq![' ', 'c', 'l', 'a', 's', 's', '=', '"'] + classes_joined(cv) + seq!['"']));
            }
        }
        out_string.push('>');
        proof {
            assert(out_string@ =~= base + p_ind + spec_open_tag(st, ev));
        }
    }

    /// Serializes the element on top of `element_stack`; the rest of the
    /// stack holds its ancestors, for variable lookup.
    #[verifier::rlimit(100)]
    #[verifier::spinoff_prover]
    fn emit_single_element<'a>(
        &mut self,
        out_string: &mut String,
        element_stack: &mut Vec<&'a Element>,
        pretty: bool,
        indent: Indent,
    )
        requires
            old(element_stack)@.len() > 0,
            pretty == old(self).pretty(),
        ensures
            final(out_string)@ == old(out_string)@ + spec_emit_one(
                stack_view(old(element_stack)@),
                elem_view(*old(element_stack)@.last()),
                pretty,
                indent as int,
            ),
            final(element_stack)@ == old(element_stack)@,
            final(self).pretty() == old(self).pretty(),
        decreases *old(element_stack)@.last(), 0int,
    {
        let ghost base = old(out_string)@;
        let ghost st = stack_view(old(element_stack)@);
        let element: &'a Element = element_stack[element_stack.len() - 1];
        let ghost ev = elem_view(*element);
        let ghost p_ind = if pretty {
            spaces(indent as int)
        } else {
            Seq::<char>::empty()
        };
        self.emit_open_tag(out_string, element_stack, element, pretty, indent);
        proof {
            assert(out_string@ =~= base + p_ind + spec_open_tag(st, ev));
        }
        let ghost base_content = out_string@;

        // Content: nothing, inner text, or a nested block of children.
        match &element.content {
            ElementContent::Empty => {},
            ElementContent::InnerText(inner_text) => {
                if pretty {
                    out_string.push('\n');
                }
                if is_plaintext_tag_exec(element.tag_name.as_str()) {
                    self.emit_plaintext(out_string, inner_text, indent);
                } else {
                    self.emit_markdown(out_string, inner_text, indent, element_stack);
                }
            },
            ElementContent::Children(children) => {
                if pretty {
                    out_string.push('\n');
                }
                let child_indent: usize = if indent <= usize::MAX - 2 {
                    indent + 2
                } else {
                    indent
                };
                proof {
                    assert(child_indent as int == next_indent(indent as int));
                    let elem_val = *old(element_stack)@.last();
                    assert(elem_val.content == *(&element.content));
                    assert((elem_val.content)->Children_0 == *children);
                    assert(decreases_to!(elem_val => elem_val.content));
                    assert(decreases_to!(elem_val.content => (elem_val.content)->Children_0));
                    assert(decreases_to!(elem_val => *children));
                }
                self.emit_inner(out_string, element_stack, children, child_indent);
            },
        }
        proof {
            assert(out_string@ =~= base + p_ind + spec_open_tag(st, ev) + (match ev.content {
                ContentV::Empty => Seq::<char>::empty(),
                ContentV::Text(t) => (if pretty {
                    seq!['\n']
                } else {
                    Seq::<char>::empty()
                }) + (if is_plaintext_tag(ev.tag) {
                    t
                } else {
                    spec_render_markdown(t)
                }) + seq!['\n'],
                ContentV::Children(cs) => (if pretty {
                    seq!['\n']
                } else {
                    Seq::<char>::empty()
                }) + spec_emit_elems(st, cs, pretty, next_indent(indent as int)),
            }));
        }
        let ghost base_close = out_string@;

        // The closing tag, unless the tag is a void tag.
        if !is_void_tag_exec(element.tag_name.as_str()) {
            if pretty {
                self.indent(out_string, indent);
            }
            out_string.append("</");
            out_string.append(element.tag_name.as_str());
            out_string.push('>');
            proof {
                reveal_strlit("</");
                assert("</"@ =~= seq!['<', '/']);
                assert(out_string@ =~= base_close + ((if pretty {
                    spaces(indent as int)
                } else {
                    Seq::<char>::empty()
                }) + seq!['<', '/'] + ev.tag + seq!['>']));
            }
        }
        if pretty {
            out_string.push('\n');
        }
        proof {
            assert(out_string@ =~= base + spec_emit_one(st, ev, pretty, indent as int));
        }
    }

    /// Serializes a run of sibling elements, each pushed onto the ancestor
    /// stack while it is emitted.
    fn emit_inner<'a>(
        &mut self,
        out_string: &mut String,
        element_stack: &mut Vec<&'a Element>,
        elements: &'a Vec<Element>,
        indent: Indent,
    )
        ensures
            final(out_string)@ == old(out_string)@ + spec_emit_elems(
                stack_view(old(element_stack)@),
                elems_view(elements@),
                old(self).pretty(),
                indent as int,
            ),
            final(element_stack)@ == old(element_stack)@,
            final(self).pretty() == old(self).pretty(),
        decreases *elements, 1int,
    {
        let ghost st = stack_view(old(element_stack)@);
        let ghost evs = elems_view(elements@);
        let ghost base = old(out_string)@;
        let pretty = self.options.pretty;
        proof {
            broadcast use crate::parser::lemma_elems_view_len, crate::parser::lemma_elems_view_index;

            assert(evs.skip(0) =~= evs);
        }
        let mut i: usize = 0;
        while i < elements.len()
            invariant
                st == stack_view(element_stack@),
                evs == elems_view(elements@),
                evs.len() == elements@.len(),
                element_stack@ == old(element_stack)@,
                self.pretty() == old(self).pretty(),
                pretty == self.pretty(),
                0 <= i <= elements@.len(),
                out_string@ + spec_emit_elems(st, evs.skip(i as int), pretty, indent as int) == base
                    + spec_emit_elems(st, evs, pretty, indent as int),
            decreases elements@.len() - i,
        {
            element_stack.push(&elements[i]);
            proof {
                broadcast use crate::parser::lemma_elems_view_len, crate::parser::lemma_elems_view_index;

                assert(stack_view(element_stack@) =~= st.push(elem_view(elements@[i as int])));
                assert(decreases_to!(*elements => elements@));
                vstd::seq::axiom_seq_index_decreases(elements@, i as int);
                assert(decreases_to!(*elements => elements@[i as int]));
            }
            self.emit_single_element(out_string, element_stack, pretty, indent);
            element_stack.pop();
            proof {
                broadcast use crate::parser::lemma_elems_view_len, crate::parser::lemma_elems_view_index;

                assert(element_stack@ =~= old(element_stack)@);
                assert(evs.skip(i as int)[0] == evs[i as int]);
                assert(evs.skip(i as int).drop_first() =~= evs.skip(i as int + 1));
                assert(evs.skip(i as int).first() == elem_view(elements@[i as int]));
                assert(out_string@ + spec_emit_elems(st, evs.skip(i as int + 1), pretty, indent as int)
                    =~= base + spec_emit_elems(st, evs, pretty, indent as int));
            }
            i = i + 1;
        }
        proof {
            assert(evs.skip(evs.len() as int) =~= Seq::<ElemV>::empty());
            assert(out_string@ =~= base + spec_emit_elems(st, evs, pretty, indent as int));
        }
    }

    /// Serializes a whole document: the document type declaration followed
    /// by each top-level element in order.
    pub fn emit(&mut self, elements: Vec<Element>) -> (r: String)
        ensures
            r@ == spec_emit(elems_view(elements@), old(self).pretty()),
    {
        let mut out_string = String::from_str("<!DOCTYPE html>\n");
        proof {
            reveal_strlit("<!DOCTYPE html>\n");
            assert(out_string@ =~= doctype());
        }
        let mut element_stack: Vec<&Element> = Vec::new();
        proof {
            assert(stack_view(element_stack@) =~= Seq::<ElemV>::empty());
        }
        self.emit_inner(&mut out_string, &mut element_stack, &elements, 0);
        proof {
            assert(out_string@ =~= spec_emit(elems_view(elements@), old(self).pretty()));
        }
        out_string
    }
}

// ---------------------------------------------------------------------------
// Laws of the emitter.
// ---------------------------------------------------------------------------

/// A helper: the first closing brace of a value that opens with a variable
/// whose name holds no closing brace stands right after the name.
proof fn lemma_close_pos_first(v: Seq<char>, p: int, q: int)
    requires
        0 <= p <= q < v.len(),
        forall|k: int| p <= k < q ==> v[k] != '}',
        v[q] == '}',
    ensures
        close_pos(v, p) == q,
    decreases q - p,
{
    if p < q {
        lemma_close_pos_first(v, p + 1, q);
    }
}

/// Void tags never close: the text emitted for an element with a void tag
/// and no content is exactly the opening tag (with its indentation and line
/// break when pretty-printing) and nothing more — no closing tag follows.
pub proof fn lemma_void_tag_never_closes(stack: Seq<ElemV>, e: ElemV, pretty: bool, indent: int)
    requires
        is_void_tag(e.tag),
        e.content == ContentV::Empty,
    ensures
        spec_emit_one(stack, e, pretty, indent) == (if pretty {
            spaces(indent)
        } else {
            Seq::<char>::empty()
        }) + spec_open_tag(stack, e) + (if pretty {
            seq!['\n']
        } else {
            Seq::<char>::empty()
        }),
{
    assert(spec_emit_one(stack, e, pretty, indent) =~= (if pretty {
        spaces(indent)
    } else {
        Seq::<char>::empty()
    }) + spec_open_tag(stack, e) + (if pretty {
        seq!['\n']
    } else {
        Seq::<char>::empty()
    }));
}

/// Plaintext tags bypass rendering: the inner text of a `style`, `css` or
/// `script` element stands in the output byte for byte, between the opening
/// tag and a line break followed by the closing tag.
pub proof fn lemma_plaintext_bypass(
    stack: Seq<ElemV>,
    e: ElemV,
    pretty: bool,
    indent: int,
    t: Seq<char>,
)
    requires
        is_plaintext_tag(e.tag),
        e.content == ContentV::Text(t),
    ensures
        spec_emit_one(stack, e, pretty, indent) == (if pretty {
            spaces(indent)
        } else {
            Seq::<char>::empty()
        }) + spec_open_tag(stack, e) + (if pretty {
            seq!['\n']
        } else {
            Seq::<char>::empty()
        }) + t + seq!['\n'] + (if pretty {
            spaces(indent)
        } else {
            Seq::<char>::empty()
        }) + seq!['<', '/'] + e.tag + seq!['>'] + (if pretty {
            seq!['\n']
        } else {
            Seq::<char>::empty()
        }),
{
    assert(!is_void_tag(e.tag)) by {
        if e.tag == seq!['s', 't', 'y', 'l', 'e'] {
            assert(e.tag.len() == 5);
        } else if e.tag == seq!['c', 's', 's'] {
            assert(e.tag[0] == 'c');
        } else {
            assert(e.tag.len() == 6);
        }
    }
    assert(spec_emit_one(stack, e, pretty, indent) =~= (if pretty {
        spaces(indent)
    } else {
        Seq::<char>::empty()
    }) + spec_open_tag(stack, e) + (if pretty {
        seq!['\n']
    } else {
        Seq::<char>::empty()
    }) + t + seq!['\n'] + (if pretty {
        spaces(indent)
    } else {
        Seq::<char>::empty()
    }) + seq!['<', '/'] + e.tag + seq!['>'] + (if pretty {
        seq!['\n']
    } else {
        Seq::<char>::empty()
    }));
}

/// Attribute value interpolation: a value that opens with `@{name}` renders
/// as the looked-up value of the name (whitespace inside the braces
/// skipped), with the rest of the value interpolated after it and so
/// preserved around the substitution.
pub proof fn lemma_interp_variable(
    stack: Seq<ElemV>,
    name: Seq<char>,
    suffix: Seq<char>,
)
    requires
        forall|k: int| 0 <= k < name.len() ==> name[k] != '}',
    ensures
        spec_interp(stack, seq!['@', '{'] + name + seq!['}'] + suffix) == spec_lookup(
            stack,
            nonws(name),
        ) + spec_interp(stack, suffix),
{
    let v = seq!['@', '{'] + name + seq!['}'] + suffix;
    let q = 2 + name.len() as int;
    assert(v.len() == name.len() + suffix.len() + 3);
    assert(v[0] == '@');
    assert(v[1] == '{');
    assert(v[q] == '}');
    assert forall|k: int| 2 <= k < q implies v[k] != '}' by {
        assert(v[k] == name[k - 2]);
    }
    lemma_close_pos_first(v, 2, q);
    assert(v.subrange(2, q) =~= name);
    assert(v.subrange(q + 1, v.len() as int) =~= suffix);
}

/// An unresolved variable yields the empty string: when no element on the
/// stack carries an attribute with the given name and a value, the
/// substitution is empty.
pub proof fn lemma_unresolved_variable_empty(stack: Seq<ElemV>, name: Seq<char>)
    requires
        forall|i: int, j: int|
            0 <= i < stack.len() && 0 <= j < stack[i].attrs.len()
                ==> !((#[trigger] stack[i].attrs[j]).0 == name && stack[i].attrs[j].1 is Some),
    ensures
        spec_lookup(stack, name) == Seq::<char>::empty(),
    decreases stack.len(),
{
    if stack.len() > 0 {
        lemma_attr_find_none(stack.last().attrs, name, stack.len() - 1, stack);
        assert(forall|i: int, j: int|
            0 <= i < stack.drop_last().len() && 0 <= j < stack.drop_last()[i].attrs.len()
                ==> !((#[trigger] stack.drop_last()[i].attrs[j]).0 == name
                && stack.drop_last()[i].attrs[j].1 is Some));
        lemma_unresolved_variable_empty(stack.drop_last(), name);
    }
}

proof fn lemma_attr_find_none(
    attrs: Seq<(Seq<char>, Option<Seq<char>>)>,
    name: Seq<char>,
    i: int,
    stack: Seq<ElemV>,
)
    requires
        0 <= i < stack.len(),
        attrs.len() <= stack[i].attrs.len(),
        forall|j: int|
            0 <= j < attrs.len() ==> attrs[j] == stack[i].attrs[j + stack[i].attrs.len()
                - attrs.len()],
        forall|j: int|
            0 <= j < stack[i].attrs.len() ==> !((#[trigger] stack[i].attrs[j]).0 == name
                && stack[i].attrs[j].1 is Some),
    ensures
        attr_find(attrs, name) is None,
    decreases attrs.len(),
{
    if attrs.len() > 0 {
        let off = stack[i].attrs.len() - attrs.len();
        assert(attrs[0] == stack[i].attrs[off]);
        assert(attrs.drop_first() =~= attrs.subrange(1, attrs.len() as int));
        assert(forall|j: int|
            0 <= j < attrs.drop_first().len() ==> attrs.drop_first()[j] == attrs[j + 1]);
        lemma_attr_find_none(attrs.drop_first(), name, i, stack);
    }
}

/// Removing whitespace commutes with appending one character.
pub proof fn lemma_nonws_push(s: Seq<char>, c: char)
    ensures
        nonws(s.push(c)) == if is_space_char(c) {
            nonws(s)
        } else {
            nonws(s).push(c)
        },
    decreases s.len(),
{
    if s.len() == 0 {
        assert(s =~= Seq::<char>::empty());
        assert(s.push(c).len() == 1);
        assert(s.push(c)[0] == c);
        assert(s.push(c).drop_first() =~= s);
        if is_space_char(c) {
            assert(nonws(s.push(c)) =~= nonws(s));
        } else {
            assert(nonws(s.push(c)) =~= seq![c] + nonws(Seq::<char>::empty()));
            assert(nonws(s.push(c)) =~= nonws(s).push(c));
        }
    } else {
        assert(s.push(c)[0] == s[0]);
        assert(s.push(c).drop_first() =~= s.drop_first().push(c));
        lemma_nonws_push(s.drop_first(), c);
        if !is_space_char(s[0]) {
            if is_space_char(c) {
                assert(nonws(s.push(c)) =~= seq![s[0]] + nonws(s.drop_first().push(c)));
                assert(nonws(s.push(c)) =~= nonws(s));
            } else {
                assert(nonws(s.push(c)) =~= seq![s[0]] + nonws(s.drop_first()).push(c));
                assert(nonws(s.push(c)) =~= nonws(s).push(c));
            }
        }
    }
}

} // verus!
