use vstd::prelude::*;
use vstd::string::StrSliceExecFns;
use vstd::string::StringExecFns;
use crate::strutil::str_eq_str;
use crate::strutil::tok_is_char;
use crate::strutil::push_dec;
use crate::strutil::push_repeat;
use crate::strutil::dec_str;
use crate::error::CompilerError;
use crate::tokenizer::Indent;
use crate::tokenizer::Tokenizer;

verus! {

broadcast use
    vstd::seq::axiom_seq_index_decreases,
    vstd::seq::axiom_seq_subrange_decreases,
;

// ---------------------------------------------------------------------------
// The element tree and its mathematical view.
// ---------------------------------------------------------------------------

/// What one element holds: nothing, child elements, or raw inner text.
/// The three are mutually exclusive by construction.
#[derive(Debug)]
pub enum ElementContent {
    Empty,
    Children(Vec<Element>),
    InnerText(String),
}

/// One node of the parsed document tree.
#[derive(Debug)]
pub struct Element {
    /// Never empty; defaults to `"div"` when the source omits it.
    pub tag_name: String,
    /// At most one id; a later `#id` modifier overwrites an earlier one.
    pub id: Option<String>,
    /// Class names in source order, kept as written (no deduplication).
    pub classes: Vec<String>,
    /// (name, optional raw value) pairs in source order, duplicates kept.
    pub attributes: Vec<(String, Option<String>)>,
    pub content: ElementContent,
}

/// The mathematical view of an element's content.
pub enum ContentV {
    Empty,
    Children(Seq<ElemV>),
    Text(Seq<char>),
}

/// The mathematical view of an element.
pub struct ElemV {
    pub tag: Seq<char>,
    pub id: Option<Seq<char>>,
    pub classes: Seq<Seq<char>>,
    pub attrs: Seq<(Seq<char>, Option<Seq<char>>)>,
    pub content: ContentV,
}

pub open spec fn str_opt_view(o: Option<String>) -> Option<Seq<char>> {
    match o {
        Some(s) => Some(s@),
        None => None,
    }
}

pub open spec fn attr_view(a: (String, Option<String>)) -> (Seq<char>, Option<Seq<char>>) {
    (a.0@, str_opt_view(a.1))
}

pub open spec fn strs_view(v: Seq<String>) -> Seq<Seq<char>> {
    v.map_values(|s: String| s@)
}

pub open spec fn attrs_view(v: Seq<(String, Option<String>)>) -> Seq<
    (Seq<char>, Option<Seq<char>>),
> {
    v.map_values(|a: (String, Option<String>)| attr_view(a))
}

pub open spec fn elem_view(e: Element) -> ElemV
    decreases e,
{
    ElemV {
        tag: e.tag_name@,
        id: str_opt_view(e.id),
        classes: strs_view(e.classes@),
        attrs: attrs_view(e.attributes@),
        content: content_view(e.content),
    }
}

pub open spec fn content_view(c: ElementContent) -> ContentV
    decreases c,
{
    match c {
        ElementContent::Empty => ContentV::Empty,
        ElementContent::InnerText(t) => ContentV::Text(t@),
        ElementContent::Children(cs) => ContentV::Children(elems_view(cs@)),
    }
}

pub open spec fn elems_view(es: Seq<Element>) -> Seq<ElemV>
    decreases es,
{
    if es.len() == 0 {
        Seq::empty()
    } else {
        elems_view(es.drop_last()).push(elem_view(es.last()))
    }
}

pub broadcast proof fn lemma_elems_view_len(es: Seq<Element>)
    ensures
        #[trigger] elems_view(es).len() == es.len(),
    decreases es.len(),
{
    if es.len() > 0 {
        lemma_elems_view_len(es.drop_last());
    }
}

pub broadcast proof fn lemma_elems_view_index(es: Seq<Element>, i: int)
    requires
        0 <= i < es.len(),
    ensures
        #[trigger] elems_view(es)[i] == elem_view(es[i]),
    decreases es.len(),
{
    lemma_elems_view_len(es);
    if i < es.len() - 1 {
        lemma_elems_view_index(es.drop_last(), i);
    } else {
        lemma_elems_view_len(es.drop_last());
    }
}

// ---------------------------------------------------------------------------
// Deep copies. The tree is a recursive owned structure, so copying walks it.
// ---------------------------------------------------------------------------

fn clone_opt_string(o: &Option<String>) -> (r: Option<String>)
    ensures
        str_opt_view(r) == str_opt_view(*o),
{
    match o {
        Some(s) => Some(s.clone()),
        None => None,
    }
}

fn clone_string_vec(v: &Vec<String>) -> (r: Vec<String>)
    ensures
        strs_view(r@) == strs_view(v@),
{
    let mut out: Vec<String> = Vec::new();
    let mut i: usize = 0;
    while i < v.len()
        invariant
            0 <= i <= v@.len(),
            out@.len() == i,
            forall|j: int| 0 <= j < i ==> out@[j]@ == v@[j]@,
        decreases v@.len() - i,
    {
        out.push(v[i].clone());
        i = i + 1;
    }
    proof {
        assert(strs_view(out@) =~= strs_view(v@));
    }
    out
}

fn clone_attr_vec(v: &Vec<(String, Option<String>)>) -> (r: Vec<(String, Option<String>)>)
    ensures
        attrs_view(r@) == attrs_view(v@),
{
    let mut out: Vec<(String, Option<String>)> = Vec::new();
    let mut i: usize = 0;
    while i < v.len()
        invariant
            0 <= i <= v@.len(),
            out@.len() == i,
            forall|j: int| 0 <= j < i ==> attr_view(out@[j]) == attr_view(v@[j]),
        decreases v@.len() - i,
    {
        let name = v[i].0.clone();
        let value = clone_opt_string(&v[i].1);
        out.push((name, value));
        i = i + 1;
    }
    proof {
        assert(attrs_view(out@) =~= attrs_view(v@));
    }
    out
}

impl Element {
    /// A deep copy of this element.
    pub fn duplicate(&self) -> (r: Element)
        ensures
            elem_view(r) == elem_view(*self),
        decreases *self,
    {
        Element {
            tag_name: self.tag_name.clone(),
            id: clone_opt_string(&self.id),
            classes: clone_string_vec(&self.classes),
            attributes: clone_attr_vec(&self.attributes),
            content: duplicate_content(&self.content),
        }
    }
}

/// A deep copy of one element's content.
#[verifier::loop_isolation(false)]
pub fn duplicate_content(c: &ElementContent) -> (r: ElementContent)
    ensures
        content_view(r) == content_view(*c),
    decreases *c,
{
    match c {
        ElementContent::Empty => ElementContent::Empty,
        ElementContent::InnerText(t) => ElementContent::InnerText(t.clone()),
        ElementContent::Children(cs) => {
            let mut out: Vec<Element> = Vec::new();
            let mut i: usize = 0;
            while i < cs.len()
                invariant
                    0 <= i <= cs@.len(),
                    out@.len() == i,
                    forall|j: int| 0 <= j < i ==> elem_view(out@[j]) == elem_view(cs@[j]),
                decreases cs@.len() - i,
            {
                proof {
                    assert((*c)->Children_0 == *cs);
                    assert(decreases_to!(*c => (*c)->Children_0));
                    assert(decreases_to!(*cs => cs@));
                    vstd::seq::axiom_seq_index_decreases(cs@, i as int);
                    assert(decreases_to!(*c => cs@[i as int]));
                }
                out.push(cs[i].duplicate());
                i = i + 1;
            }
            proof {
                broadcast use lemma_elems_view_len, lemma_elems_view_index;

                assert(elems_view(out@) =~= elems_view(cs@));
            }
            ElementContent::Children(out)
        },
    }
}

// ---------------------------------------------------------------------------
// Set-union helpers used by hydration.
// ---------------------------------------------------------------------------

/// `s` with every later repetition of an element removed: each element keeps
/// only its first occurrence.
pub open spec fn dedup_first<T>(s: Seq<T>) -> Seq<T>
    decreases s.len(),
{
    if s.len() == 0 {
        s
    } else {
        let init = dedup_first(s.drop_last());
        if s.drop_last().contains(s.last()) {
            init
        } else {
            init.push(s.last())
        }
    }
}

fn vec_contains_str(v: &Vec<String>, x: &String) -> (r: bool)
    ensures
        r == strs_view(v@).contains(x@),
{
    let mut i: usize = 0;
    while i < v.len()
        invariant
            0 <= i <= v@.len(),
            forall|j: int| 0 <= j < i ==> v@[j]@ != x@,
        decreases v@.len() - i,
    {
        if str_eq_str(v[i].as_str(), x.as_str()) {
            assert(strs_view(v@)[i as int] == x@);
            return true;
        }
        i = i + 1;
    }
    assert(forall|j: int| 0 <= j < strs_view(v@).len() ==> strs_view(v@)[j] != x@);
    false
}

fn attr_eq(a: &(String, Option<String>), b: &(String, Option<String>)) -> (r: bool)
    ensures
        r == (attr_view(*a) == attr_view(*b)),
{
    if !str_eq_str(a.0.as_str(), b.0.as_str()) {
        return false;
    }
    match (&a.1, &b.1) {
        (Some(x), Some(y)) => str_eq_str(x.as_str(), y.as_str()),
        (None, None) => true,
        _ => false,
    }
}

fn vec_contains_attr(v: &Vec<(String, Option<String>)>, x: &(String, Option<String>)) -> (r: bool)
    ensures
        r == attrs_view(v@).contains(attr_view(*x)),
{
    let mut i: usize = 0;
    while i < v.len()
        invariant
            0 <= i <= v@.len(),
            forall|j: int| 0 <= j < i ==> attr_view(v@[j]) != attr_view(*x),
        decreases v@.len() - i,
    {
        if attr_eq(&v[i], x) {
            assert(attrs_view(v@)[i as int] == attr_view(*x));
            return true;
        }
        i = i + 1;
    }
    assert(forall|j: int| 0 <= j < attrs_view(v@).len() ==> attrs_view(v@)[j] != attr_view(*x));
    false
}

/// The set union of two class lists: every name of `a` then of `b`, each
/// kept at its first occurrence only.
pub fn combine_vecs(a: &Vec<String>, b: &Vec<String>) -> (r: Vec<String>)
    ensures
        strs_view(r@) == dedup_first(strs_view(a@) + strs_view(b@)),
{
    let ghost full = strs_view(a@) + strs_view(b@);
    let mut out: Vec<String> = Vec::new();
    let mut i: usize = 0;
    while i < a.len()
        invariant
            0 <= i <= a@.len(),
            full == strs_view(a@) + strs_view(b@),
            strs_view(out@) == dedup_first(full.subrange(0, i as int)),
        decreases a@.len() - i,
    {
        proof {
            assert(full.subrange(0, i as int + 1).drop_last() =~= full.subrange(0, i as int));
            assert(full.subrange(0, i as int + 1).last() == a@[i as int]@);
            lemma_dedup_membership(full.subrange(0, i as int));
        }
        if !vec_contains_str(&out, &a[i]) {
            out.push(a[i].clone());
            proof {
                assert(strs_view(out@) =~= dedup_first(full.subrange(0, i as int)).push(
                    a@[i as int]@,
                ));
            }
        }
        i = i + 1;
    }
    let mut k: usize = 0;
    while k < b.len()
        invariant
            0 <= k <= b@.len(),
            full == strs_view(a@) + strs_view(b@),
            strs_view(out@) == dedup_first(full.subrange(0, a@.len() + k as int)),
        decreases b@.len() - k,
    {
        let ghost pl = a@.len() + k as int;
        proof {
            assert(full.subrange(0, pl + 1).drop_last() =~= full.subrange(0, pl));
            assert(full.subrange(0, pl + 1).last() == b@[k as int]@);
            lemma_dedup_membership(full.subrange(0, pl));
        }
        if !vec_contains_str(&out, &b[k]) {
            out.push(b[k].clone());
            proof {
                assert(strs_view(out@) =~= dedup_first(full.subrange(0, pl)).push(b@[k as int]@));
            }
        }
        k = k + 1;
    }
    proof {
        assert(full.subrange(0, full.len() as int) =~= full);
    }
    out
}

/// The set union of two attribute lists: only byte-identical (name, value)
/// pairs collapse; each pair keeps its first occurrence.
pub fn combine_attr_vecs(
    a: &Vec<(String, Option<String>)>,
    b: &Vec<(String, Option<String>)>,
) -> (r: Vec<(String, Option<String>)>)
    ensures
        attrs_view(r@) == dedup_first(attrs_view(a@) + attrs_view(b@)),
{
    let ghost full = attrs_view(a@) + attrs_view(b@);
    let mut out: Vec<(String, Option<String>)> = Vec::new();
    let mut i: usize = 0;
    while i < a.len()
        invariant
            0 <= i <= a@.len(),
            full == attrs_view(a@) + attrs_view(b@),
            attrs_view(out@) == dedup_first(full.subrange(0, i as int)),
        decreases a@.len() - i,
    {
        proof {
            assert(full.subrange(0, i as int + 1).drop_last() =~= full.subrange(0, i as int));
            assert(full.subrange(0, i as int + 1).last() == attr_view(a@[i as int]));
            lemma_dedup_membership(full.subrange(0, i as int));
        }
        if !vec_contains_attr(&out, &a[i]) {
            let name = a[i].0.clone();
            let value = clone_opt_string(&a[i].1);
            out.push((name, value));
            proof {
                assert(attrs_view(out@) =~= dedup_first(full.subrange(0, i as int)).push(
                    attr_view(a@[i as int]),
                ));
            }
        }
        i = i + 1;
    }
    let mut k: usize = 0;
    while k < b.len()
        invariant
            0 <= k <= b@.len(),
            full == attrs_view(a@) + attrs_view(b@),
            attrs_view(out@) == dedup_first(full.subrange(0, a@.len() + k as int)),
        decreases b@.len() - k,
    {
        let ghost pl = a@.len() + k as int;
        proof {
            assert(full.subrange(0, pl + 1).drop_last() =~= full.subrange(0, pl));
            assert(full.subrange(0, pl + 1).last() == attr_view(b@[k as int]));
            lemma_dedup_membership(full.subrange(0, pl));
        }
        if !vec_contains_attr(&out, &b[k]) {
            let name = b[k].0.clone();
            let value = clone_opt_string(&b[k].1);
            out.push((name, value));
            proof {
                assert(attrs_view(out@) =~= dedup_first(full.subrange(0, pl)).push(
                    attr_view(b@[k as int]),
                ));
            }
        }
        k = k + 1;
    }
    proof {
        assert(full.subrange(0, full.len() as int) =~= full);
    }
    out
}

// ---------------------------------------------------------------------------
// Frames: lexical scopes for component templates.
// ---------------------------------------------------------------------------

/// A frame of the parser, holding the component templates defined in one
/// indentation block. Lookup runs from the innermost frame outward.
struct Frame {
    components: Vec<Element>,
}

/// The recursive-descent parser: a stack of frames, one per nested block
/// currently being parsed.
pub struct Parser {
    frames: Vec<Frame>,
}

/// The first element of `fr` (in insertion order) whose tag name is `name`.
pub open spec fn find_in_frame(fr: Seq<ElemV>, name: Seq<char>) -> Option<ElemV>
    decreases fr.len(),
{
    if fr.len() == 0 {
        None
    } else if fr[0].tag == name {
        Some(fr[0])
    } else {
        find_in_frame(fr.drop_first(), name)
    }
}

/// The template called `name`, searching the frames from the innermost
/// (last) outward.
pub open spec fn find_component(frames: Seq<Seq<ElemV>>, name: Seq<char>) -> Option<ElemV>
    decreases frames.len(),
{
    if frames.len() == 0 {
        None
    } else {
        match find_in_frame(frames.last(), name) {
            Some(e) => Some(e),
            None => find_component(frames.drop_last(), name),
        }
    }
}

impl Parser {
    /// The component templates currently in scope, one sequence per frame,
    /// outermost first.
    pub closed spec fn frames_view(self) -> Seq<Seq<ElemV>> {
        self.frames@.map_values(|f: Frame| elems_view(f.components@))
    }

    /// A parser with no open scopes.
    pub fn new() -> (p: Parser)
        ensures
            p.frames_view() == Seq::<Seq<ElemV>>::empty(),
    {
        let p = Parser { frames: Vec::new() };
        proof {
            assert(p.frames_view() =~= Seq::<Seq<ElemV>>::empty());
        }
        p
    }

    /// Adds a component template, which stays usable within the current
    /// scope and all scopes nested inside it.
    fn add_component(&mut self, component: Element)
        requires
            old(self).frames_view().len() > 0,
        ensures
            final(self).frames_view() == old(self).frames_view().update(
                old(self).frames_view().len() - 1,
                old(self).frames_view().last().push(elem_view(component)),
            ),
    {
        let ghost old_frames = self.frames_view();
        let ghost cv = elem_view(component);
        let mut last = self.frames.pop().unwrap();
        last.components.push(component);
        self.frames.push(last);
        proof {
            broadcast use lemma_elems_view_len, lemma_elems_view_index;

            assert(elems_view(last.components@) =~= old_frames.last().push(cv));
            assert(self.frames_view() =~= old_frames.update(
                old_frames.len() - 1,
                old_frames.last().push(cv),
            ));
        }
    }

    /// Looks up a component template by name and returns a deep copy of it,
    /// searching the innermost frame first.
    #[verifier::loop_isolation(false)]
    fn get_component(&self, name: &str) -> (r: Option<Element>)
        ensures
            match find_component(self.frames_view(), name@) {
                Some(ev) => r is Some && elem_view(r.unwrap()) == ev,
                None => r is None,
            },
    {
        let ghost fv = self.frames_view();
        proof {
            assert(fv.subrange(0, fv.len() as int) =~= fv);
        }
        let mut fi = self.frames.len();
        while fi > 0
            invariant
                0 <= fi <= self.frames@.len(),
                find_component(fv, name@) == find_component(fv.subrange(0, fi as int), name@),
            decreases fi,
        {
            fi = fi - 1;
            let ghost frame_v = elems_view(self.frames@[fi as int].components@);
            proof {
                assert(fv.subrange(0, fi as int + 1).last() == frame_v);
                assert(fv.subrange(0, fi as int + 1).drop_last() =~= fv.subrange(0, fi as int));
            }
            let components = &self.frames[fi].components;
            proof {
                assert(frame_v.subrange(0, frame_v.len() as int) =~= frame_v);
            }
            let mut ci: usize = 0;
            while ci < components.len()
                invariant
                    0 <= ci <= components@.len(),
                    find_in_frame(frame_v, name@) == find_in_frame(
                        frame_v.subrange(ci as int, frame_v.len() as int),
                        name@,
                    ),
                decreases components@.len() - ci,
            {
                proof {
                    broadcast use lemma_elems_view_len, lemma_elems_view_index;

                    assert(frame_v.subrange(ci as int, frame_v.len() as int).drop_first()
                        =~= frame_v.subrange(ci as int + 1, frame_v.len() as int));
                }
                if str_eq_str(components[ci].tag_name.as_str(), name) {
                    proof {
                        broadcast use lemma_elems_view_len, lemma_elems_view_index;
                    }
                    return Some(components[ci].duplicate());
                }
                ci = ci + 1;
            }
            proof {
                broadcast use lemma_elems_view_len;

                assert(frame_v.subrange(frame_v.len() as int, frame_v.len() as int).len() == 0);
            }
        }
        proof {
            assert(fv.subrange(0, 0).len() == 0);
        }
        None
    }
}

// ---------------------------------------------------------------------------
// Parsing.
// ---------------------------------------------------------------------------

/// Whether some attribute in `attrs` is named `name`.
pub open spec fn has_attr_named(attrs: Seq<(Seq<char>, Option<Seq<char>>)>, name: Seq<char>) -> bool {
    exists|i: int| 0 <= i < attrs.len() && attrs[i].0 == name
}

/// A well-formed element: its tag name is non-empty and a child list, when
/// present, is non-empty and holds well-formed elements only.
pub open spec fn elem_wf(e: ElemV) -> bool
    decreases e,
{
    e.tag.len() > 0 && content_wf(e.content)
}

pub open spec fn content_wf(c: ContentV) -> bool
    decreases c,
{
    match c {
        ContentV::Empty => true,
        ContentV::Text(_) => true,
        ContentV::Children(cs) => cs.len() > 0 && (forall|i: int|
            0 <= i < cs.len() ==> elem_wf(#[trigger] cs[i])),
    }
}

/// Every component template held by any frame is well formed.
pub open spec fn frames_wf(frames: Seq<Seq<ElemV>>) -> bool {
    forall|i: int, j: int|
        0 <= i < frames.len() && 0 <= j < frames[i].len() ==> elem_wf(#[trigger] frames[i][j])
}

/// A token that leaves the tag name defaulting to `"div"`.
pub open spec fn default_tag_token(t: Seq<char>) -> bool {
    t == seq!['.'] || t == seq!['#'] || t == seq!['(']
}

/// How an element's tag relates to the first token of its header, whose span
/// in the source `s` is `sp`.
pub open spec fn tag_rule(s: Seq<char>, sp: (int, int), tag: Seq<char>) -> bool {
    let t = s.subrange(sp.0, sp.1);
    if default_tag_token(t) {
        tag == seq!['d', 'i', 'v']
    } else {
        tag == t
    }
}

/// The diagnostic text of the indentation gate at the start of a document.
pub open spec fn indentation_message(n: int) -> Seq<char> {
    "Expected 0 indentation in start of file, found "@ + dec_str(n) + "."@
}

/// The diagnostic text of an attribute list still open at the end of input.
pub open spec fn unterminated_attrs_message() -> Seq<char> {
    "Unterminated attribute list at end of input."@
}

/// A template found through the frame stack is one of the stored templates,
/// so it is well formed whenever every stored template is.
proof fn lemma_find_in_frame_wf(fr: Seq<ElemV>, name: Seq<char>)
    requires
        forall|j: int| 0 <= j < fr.len() ==> elem_wf(#[trigger] fr[j]),
    ensures
        find_in_frame(fr, name) is Some ==> elem_wf(find_in_frame(fr, name).unwrap()),
    decreases fr.len(),
{
    if fr.len() > 0 && fr[0].tag != name {
        lemma_find_in_frame_wf(fr.drop_first(), name);
    }
}

proof fn lemma_find_component_wf(frames: Seq<Seq<ElemV>>, name: Seq<char>)
    requires
        frames_wf(frames),
    ensures
        find_component(frames, name) is Some ==> elem_wf(find_component(frames, name).unwrap()),
    decreases frames.len(),
{
    if frames.len() > 0 {
        lemma_find_in_frame_wf(frames.last(), name);
        if find_in_frame(frames.last(), name) is None {
            assert(frames_wf(frames.drop_last()));
            lemma_find_component_wf(frames.drop_last(), name);
        }
    }
}

// ---------------------------------------------------------------------------
// The specification-level parser: what tree a source text means.
// ---------------------------------------------------------------------------

/// The tokenizer's abstract state between parsing steps: the scan position,
/// and the pending indentation reading when one is cached (its characters
/// are already consumed).
pub struct ScanState {
    pub pos: int,
    pub reading: Option<(int, int)>,
}

/// The indentation reading a parsing step sees at `st`, with the state it
/// leaves behind: a cached reading is reused, otherwise a fresh scan runs.
pub open spec fn st_peek_indent(s: Seq<char>, st: ScanState) -> (ScanState, (int, int)) {
    match st.reading {
        Some(r) => (st, r),
        None => {
            let sc = crate::tokenizer::indent_scan(s, st.pos);
            (ScanState { pos: sc.2, reading: Some((sc.0, sc.1)) }, (sc.0, sc.1))
        },
    }
}

/// What one parsing step yields.
pub enum ElemStep {
    Element(ElemV),
    Component(ElemV),
    EndOfInput,
}

/// The outcome of a specification-level parsing step. `Diverge` marks a
/// step whose nested result failed to advance the scan; it only bounds the
/// recursion of the definitions below, and the verified parser proves that
/// it never arises.
pub enum Parsed<T> {
    Success(T),
    Error,
    Diverge,
}

/// What hydration makes of an instance and its template.
pub open spec fn spec_hydrate(instance: ElemV, template: ElemV) -> ElemV {
    ElemV {
        tag: seq!['d', 'i', 'v'],
        id: if instance.id is Some {
            instance.id
        } else {
            template.id
        },
        classes: dedup_first(instance.classes.push(instance.tag) + template.classes),
        attrs: dedup_first(instance.attrs + template.attrs),
        content: template.content,
    }
}

/// The result of one element header: the modifiers read, whether a literal
/// text block was taken, and the state left behind.
pub struct Header {
    pub id: Option<Seq<char>>,
    pub classes: Seq<Seq<char>>,
    pub attrs: Seq<(Seq<char>, Option<Seq<char>>)>,
    pub is_component: bool,
    pub content: ContentV,
    pub content_parsed: bool,
    pub state: ScanState,
}

/// A literal text block: the lines at a deeper indentation, joined by line
/// breaks, with indentation beyond the first content line's kept as literal
/// spaces. Yields the text and the position after the reading that ended
/// the block.
pub open spec fn spec_multiline(
    s: Seq<char>,
    pos: int,
    indent: int,
    normal: int,
    acc: Seq<char>,
) -> (Seq<char>, int)
    decreases s.len() - pos, 0int,
{
    let le = crate::tokenizer::line_end(s, pos);
    let acc1 = acc + s.subrange(pos, le);
    let sc = crate::tokenizer::indent_scan(s, le);
    if sc.0 <= indent {
        (acc1, sc.2)
    } else {
        let extra: int = if sc.0 > normal {
            sc.0 - normal
        } else {
            0
        };
        let acc2 = acc1 + crate::strutil::char_repeat('\n', sc.1) + crate::strutil::char_repeat(
            ' ',
            extra,
        );
        if pos < sc.2 && sc.2 <= s.len() {
            spec_multiline(s, sc.2, indent, normal, acc2)
        } else {
            (acc2, sc.2)
        }
    }
}

/// One attribute list, after its opening parenthesis: entries of a name and
/// an optional value, separated by commas, until the closing parenthesis.
/// The input ending before the parenthesis closes is the one parse failure.
/// Yields the entries, whether one was named `@`, and the position after
/// the closing parenthesis.
pub open spec fn spec_attr_list(
    s: Seq<char>,
    pos: int,
    attrs: Seq<(Seq<char>, Option<Seq<char>>)>,
    is_component: bool,
) -> Parsed<(Seq<(Seq<char>, Option<Seq<char>>)>, bool, int)>
    decreases s.len() - pos, 0int,
{
    match crate::tokenizer::next_token_ign(s, pos) {
        None => Parsed::Error,
        Some((a, b)) => {
            if s.subrange(a, b) == seq![')'] {
                Parsed::Success((attrs, is_component, crate::tokenizer::ws_end(s, b)))
            } else {
                let name = s.subrange(a, b);
                let p1 = crate::tokenizer::ws_end(s, b);
                let vp = match crate::tokenizer::next_token_ign(s, p1) {
                    Some((c, d)) => if s.subrange(c, d) == seq!['='] {
                        match crate::tokenizer::next_token_ign(
                            s,
                            crate::tokenizer::ws_end(s, d),
                        ) {
                            Some((e, f)) => (
                                Some(s.subrange(e, f)),
                                crate::tokenizer::ws_end(s, f),
                            ),
                            None => (None::<Seq<char>>, s.len() as int),
                        }
                    } else {
                        (None::<Seq<char>>, p1)
                    },
                    None => (None::<Seq<char>>, s.len() as int),
                };
                let p3 = match crate::tokenizer::next_token_ign(s, vp.1) {
                    Some((g, h)) => if s.subrange(g, h) == seq![','] {
                        crate::tokenizer::ws_end(s, h)
                    } else {
                        vp.1
                    },
                    None => vp.1,
                };
                if pos < p3 && p3 <= s.len() {
                    spec_attr_list(
                        s,
                        p3,
                        attrs.push((name, vp.0)),
                        is_component || name == seq!['@'],
                    )
                } else {
                    Parsed::Diverge
                }
            }
        },
    }
}

/// One element header: `#id` and `.class` modifiers, an attribute list, a
/// literal text block after a bare dot, or single-line inner text, until
/// the content begins or the line ends.
pub open spec fn spec_header(
    s: Seq<char>,
    pos: int,
    indent: int,
    id: Option<Seq<char>>,
    classes: Seq<Seq<char>>,
    attrs: Seq<(Seq<char>, Option<Seq<char>>)>,
    is_component: bool,
) -> Parsed<Header>
    decreases s.len() - pos, 1int,
{
    match crate::tokenizer::next_token(s, pos) {
        None => Parsed::Success(
            Header {
                id,
                classes,
                attrs,
                is_component,
                content: ContentV::Empty,
                content_parsed: false,
                state: ScanState {
                    pos: crate::tokenizer::pos_after_token(s, pos),
                    reading: None,
                },
            },
        ),
        Some((a, b)) => {
            let t = s.subrange(a, b);
            let p1 = crate::tokenizer::pos_after_token(s, pos);
            if t == seq!['#'] {
                let id1 = match crate::tokenizer::next_token(s, p1) {
                    Some((c, d)) => Some(s.subrange(c, d)),
                    None => None::<Seq<char>>,
                };
                let p2 = crate::tokenizer::pos_after_token(s, p1);
                if pos < p2 && p2 <= s.len() {
                    spec_header(s, p2, indent, id1, classes, attrs, is_component)
                } else {
                    Parsed::Diverge
                }
            } else if t == seq!['.'] {
                match crate::tokenizer::next_token(s, p1) {
                    Some((c, d)) => {
                        let p2 = crate::tokenizer::pos_after_token(s, p1);
                        if pos < p2 && p2 <= s.len() {
                            spec_header(
                                s,
                                p2,
                                indent,
                                id,
                                classes.push(s.subrange(c, d)),
                                attrs,
                                is_component,
                            )
                        } else {
                            Parsed::Diverge
                        }
                    },
                    None => {
                        // a bare trailing dot: a literal text block follows
                        let p2 = crate::tokenizer::pos_after_token(s, p1);
                        let sc = crate::tokenizer::indent_scan(s, p2);
                        if sc.0 <= indent {
                            Parsed::Success(
                                Header {
                                    id,
                                    classes,
                                    attrs,
                                    is_component,
                                    content: ContentV::Empty,
                                    content_parsed: true,
                                    state: ScanState { pos: sc.2, reading: Some((sc.0, sc.1)) },
                                },
                            )
                        } else if pos <= sc.2 && sc.2 <= s.len() {
                            let ml = spec_multiline(s, sc.2, indent, sc.0, Seq::empty());
                            let norm = crate::tokenizer::indent_scan(s, ml.1);
                            Parsed::Success(
                                Header {
                                    id,
                                    classes,
                                    attrs,
                                    is_component,
                                    content: ContentV::Text(ml.0),
                                    content_parsed: true,
                                    state: ScanState {
                                        pos: norm.2,
                                        reading: Some((norm.0, norm.1)),
                                    },
                                },
                            )
                        } else {
                            Parsed::Diverge
                        }
                    },
                }
            } else if t == seq!['('] {
                let listed = if pos <= p1 && p1 <= s.len() {
                    spec_attr_list(s, p1, attrs, is_component)
                } else {
                    Parsed::Diverge
                };
                match listed {
                    Parsed::Error => Parsed::Error,
                    Parsed::Diverge => Parsed::Diverge,
                    Parsed::Success((attrs1, comp1, p2)) => {
                        if pos < p2 && p2 <= s.len() {
                            spec_header(s, p2, indent, id, classes, attrs1, comp1)
                        } else {
                            Parsed::Diverge
                        }
                    },
                }
            } else {
                // any other token: the rest of the line is inner text
                let le = crate::tokenizer::line_end(s, p1);
                Parsed::Success(
                    Header {
                        id,
                        classes,
                        attrs,
                        is_component,
                        content: ContentV::Text(s.subrange(a, le)),
                        content_parsed: false,
                        state: ScanState { pos: le, reading: None },
                    },
                )
            }
        },
    }
}

/// One element: its tag (defaulting to `div` before a modifier), its
/// header, and then its content — a nested block at a deeper indentation,
/// unless a literal text block was already taken.
pub open spec fn spec_parse_element(
    s: Seq<char>,
    pos: int,
    indent: int,
    frames: Seq<Seq<ElemV>>,
) -> Parsed<(ElemStep, ScanState)>
    decreases s.len() - pos, 2int,
{
    match crate::tokenizer::next_token(s, pos) {
        None => Parsed::Success(
            (
                ElemStep::EndOfInput,
                ScanState { pos: crate::tokenizer::pos_after_token(s, pos), reading: None },
            ),
        ),
        Some((a, b)) => {
            let t = s.subrange(a, b);
            let tag = if default_tag_token(t) {
                seq!['d', 'i', 'v']
            } else {
                t
            };
            let hp = if default_tag_token(t) {
                pos
            } else {
                crate::tokenizer::pos_after_token(s, pos)
            };
            let header_res = if pos <= hp && hp <= s.len() {
                spec_header(s, hp, indent, None, Seq::empty(), Seq::empty(), false)
            } else {
                Parsed::Diverge
            };
            match header_res {
                Parsed::Error => Parsed::Error,
                Parsed::Diverge => Parsed::Diverge,
                Parsed::Success(h) => {
                    if h.content_parsed {
                        let e = ElemV {
                            tag,
                            id: h.id,
                            classes: h.classes,
                            attrs: h.attrs,
                            content: h.content,
                        };
                        Parsed::Success(
                            (
                                if h.is_component {
                                    ElemStep::Component(e)
                                } else {
                                    ElemStep::Element(e)
                                },
                                h.state,
                            ),
                        )
                    } else {
                        let stp = st_peek_indent(s, h.state);
                        if stp.1.0 > indent {
                            let block_res = if pos < stp.0.pos && stp.0.pos <= s.len() {
                                spec_parse_block(
                                    s,
                                    ScanState { pos: stp.0.pos, reading: None },
                                    stp.1.0,
                                    frames,
                                )
                            } else {
                                Parsed::Diverge
                            };
                            match block_res {
                                Parsed::Error => Parsed::Error,
                                Parsed::Diverge => Parsed::Diverge,
                                Parsed::Success((children, st2)) => {
                                    let content = if children.len() > 0 {
                                        ContentV::Children(children)
                                    } else {
                                        h.content
                                    };
                                    let e = ElemV {
                                        tag,
                                        id: h.id,
                                        classes: h.classes,
                                        attrs: h.attrs,
                                        content,
                                    };
                                    Parsed::Success(
                                        (
                                            if h.is_component {
                                                ElemStep::Component(e)
                                            } else {
                                                ElemStep::Element(e)
                                            },
                                            st2,
                                        ),
                                    )
                                },
                            }
                        } else {
                            let e = ElemV {
                                tag,
                                id: h.id,
                                classes: h.classes,
                                attrs: h.attrs,
                                content: h.content,
                            };
                            Parsed::Success(
                                (
                                    if h.is_component {
                                        ElemStep::Component(e)
                                    } else {
                                        ElemStep::Element(e)
                                    },
                                    stp.0,
                                ),
                            )
                        }
                    }
                },
            }
        },
    }
}

/// A run of sibling elements at one indentation level, parsed inside a
/// fresh component scope.
pub open spec fn spec_parse_block(
    s: Seq<char>,
    st: ScanState,
    indent: int,
    frames: Seq<Seq<ElemV>>,
) -> Parsed<(Seq<ElemV>, ScanState)>
    decreases s.len() - st.pos, 4int,
{
    spec_block_loop(s, st, indent, frames, Seq::empty(), Seq::empty())
}

/// The loop of a block: elements are appended in source order, a component
/// definition is registered in the innermost scope and not emitted, an
/// instantiation is hydrated from the scopes in reach or dropped silently,
/// until the indentation falls below the block's own or the input ends.
pub open spec fn spec_block_loop(
    s: Seq<char>,
    st: ScanState,
    indent: int,
    frames: Seq<Seq<ElemV>>,
    current: Seq<ElemV>,
    acc: Seq<ElemV>,
) -> Parsed<(Seq<ElemV>, ScanState)>
    decreases s.len() - st.pos, 3int,
{
    match spec_parse_element(s, st.pos, indent, frames.push(current)) {
        Parsed::Error => Parsed::Error,
        Parsed::Diverge => Parsed::Diverge,
        Parsed::Success((ElemStep::EndOfInput, st1)) => Parsed::Success((acc, st1)),
        Parsed::Success((step, st1)) => {
            let reg = match step {
                ElemStep::Element(e) => (acc.push(e), current),
                ElemStep::Component(c) => if c.content is Empty {
                    match find_component(frames.push(current), c.tag) {
                        Some(template) => (acc.push(spec_hydrate(c, template)), current),
                        None => (acc, current),
                    }
                } else {
                    (acc, current.push(c))
                },
                ElemStep::EndOfInput => (acc, current),
            };
            let stp = st_peek_indent(s, st1);
            if stp.1.0 < indent {
                Parsed::Success((reg.0, stp.0))
            } else if st.pos < stp.0.pos && stp.0.pos <= s.len() {
                spec_block_loop(s, stp.0, indent, frames, reg.1, reg.0)
            } else {
                Parsed::Diverge
            }
        },
    }
}

/// The whole document once the indentation gate has passed: the block at
/// indentation zero, with no component scope in reach.
pub open spec fn spec_parse(s: Seq<char>) -> Parsed<(Seq<ElemV>, ScanState)> {
    spec_parse_block(
        s,
        ScanState { pos: crate::tokenizer::indent_scan(s, 0).2, reading: None },
        0,
        Seq::empty(),
    )
}

/// What one step of element parsing yields: a plain element, an element
/// marked as a component, or the end of the input.
enum ElementReturn {
    Element(Element),
    Component(Element),
    EndOfFile,
}

impl Parser {
    /// Parses a whole document. The first line must start at indentation 0;
    /// any other value is an `IndentationError`.
    pub fn parse(&mut self, tokenizer: &mut Tokenizer) -> (r: Result<Vec<Element>, CompilerError>)
        requires
            old(tokenizer).wf(),
            frames_wf(old(self).frames_view()),
        ensures
            final(self).frames_view() == old(self).frames_view(),
            final(tokenizer).wf(),
            final(tokenizer).src() == old(tokenizer).src(),
            old(tokenizer).indent_reading().0 != 0 <==> r matches Err(
                CompilerError::IndentationError(_),
            ),
            match r {
                Ok(elements) => forall|i: int|
                    0 <= i < elements@.len() ==> elem_wf(elem_view(#[trigger] elements@[i])),
                Err(CompilerError::IndentationError(m)) => m@ == indentation_message(
                    old(tokenizer).indent_reading().0,
                ),
                Err(CompilerError::ParseError(m)) => m@ == unterminated_attrs_message(),
            },
            ({
                &&& old(tokenizer).held_token_view() is None
                &&& old(tokenizer).held_indent_view() is None
                &&& crate::tokenizer::indent_scan(old(tokenizer).src(), old(tokenizer).pos()).0
                    == 0
                &&& crate::tokenizer::indent_scan(old(tokenizer).src(), old(tokenizer).pos()).2
                    == old(tokenizer).src().len()
            }) ==> match r {
                Ok(elements) => elements@.len() == 0,
                Err(_) => false,
            },
            ({
                &&& old(tokenizer).held_token_view() is None
                &&& old(tokenizer).held_indent_view() is None
                &&& crate::tokenizer::indent_scan(old(tokenizer).src(), old(tokenizer).pos()).0
                    == 0
            }) ==> ({
                let outcome = spec_parse_block(
                    old(tokenizer).src(),
                    ScanState {
                        pos: crate::tokenizer::indent_scan(
                            old(tokenizer).src(),
                            old(tokenizer).pos(),
                        ).2,
                        reading: None,
                    },
                    0,
                    old(self).frames_view(),
                );
                match r {
                    Ok(elements) => outcome matches Parsed::Success(pr) && pr.0 == elems_view(
                        elements@,
                    ),
                    Err(e) => e is ParseError && outcome is Error,
                }
            }),
    {
        let start = tokenizer.consume_indent();
        let start_indent = start.0;
        if start_indent != 0 {
            let mut msg = String::from_str("Expected 0 indentation in start of file, found ");
            push_dec(start_indent, &mut msg);
            msg.push('.');
            proof {
                reveal_strlit(".");
                assert(msg@ =~= indentation_message(start_indent as int));
            }
            return Err(CompilerError::IndentationError(msg));
        }
        self.inner_parse(tokenizer, 0)
    }

    /// Parses a run of sibling elements at indentation level `indent`, inside
    /// a fresh frame that is dropped again when the run ends. When no token
    /// is cached, the result and the state left behind are exactly what
    /// `spec_parse_block` states.
    #[verifier::rlimit(100)]
    #[verifier::spinoff_prover]
    fn inner_parse(&mut self, tokenizer: &mut Tokenizer, indent: Indent) -> (r: Result<
        Vec<Element>,
        CompilerError,
    >)
        requires
            old(tokenizer).wf(),
            frames_wf(old(self).frames_view()),
        ensures
            final(self).frames_view() == old(self).frames_view(),
            final(tokenizer).wf(),
            final(tokenizer).src() == old(tokenizer).src(),
            old(tokenizer).eff_pos() <= final(tokenizer).eff_pos() <= final(tokenizer).src().len(),
            match r {
                Ok(elements) => forall|i: int|
                    0 <= i < elements@.len() ==> elem_wf(elem_view(#[trigger] elements@[i])),
                Err(CompilerError::ParseError(m)) => m@ == unterminated_attrs_message(),
                Err(CompilerError::IndentationError(_)) => false,
            },
            (old(tokenizer).pos() == old(tokenizer).src().len() && old(
                tokenizer,
            ).held_token_view() is None) ==> match r {
                Ok(elements) => elements@.len() == 0,
                Err(_) => false,
            },
            old(tokenizer).held_token_view() is None ==> ({
                let outcome = spec_parse_block(
                    old(tokenizer).src(),
                    ScanState {
                        pos: old(tokenizer).pos(),
                        reading: old(tokenizer).held_indent_view(),
                    },
                    indent as int,
                    old(self).frames_view(),
                );
                &&& final(tokenizer).held_token_view() is None
                &&& match r {
                    Ok(elements) => outcome == Parsed::Success(
                        (
                            elems_view(elements@),
                            ScanState {
                                pos: final(tokenizer).pos(),
                                reading: final(tokenizer).held_indent_view(),
                            },
                        ),
                    ),
                    Err(_) => outcome is Error,
                }
            }),
        decreases old(tokenizer).src().len() - old(tokenizer).eff_pos(), 1int,
    {
        let ghost s = old(tokenizer).src();
        let ghost eff0 = old(tokenizer).eff_pos();
        let ghost old_frames = old(self).frames_view();
        let ghost clean0 = old(tokenizer).held_token_view() is None;
        let ghost block_target = spec_parse_block(
            s,
            ScanState { pos: old(tokenizer).pos(), reading: old(tokenizer).held_indent_view() },
            indent as int,
            old_frames,
        );
        proof {
            Tokenizer::lemma_wf_bounds(*old(tokenizer));
        }
        self.frames.push(Frame { components: Vec::new() });
        proof {
            broadcast use lemma_elems_view_len, lemma_elems_view_index;

            assert(self.frames_view() =~= old_frames.push(Seq::empty()));
            assert(frames_wf(self.frames_view()));
        }
        let mut elements: Vec<Element> = Vec::new();
        proof {
            assert(elems_view(elements@) =~= Seq::<ElemV>::empty());
            assert(self.frames_view().last() =~= Seq::<ElemV>::empty());
        }
        loop
            invariant_except_break
                clean0 ==> {
                    &&& tokenizer.held_token_view() is None
                    &&& spec_block_loop(
                        s,
                        ScanState { pos: tokenizer.pos(), reading: tokenizer.held_indent_view() },
                        indent as int,
                        old_frames,
                        self.frames_view().last(),
                        elems_view(elements@),
                    ) == block_target
                },
            invariant
                s == old(tokenizer).src(),
                eff0 == old(tokenizer).eff_pos(),
                old_frames == old(self).frames_view(),
                frames_wf(old_frames),
                clean0 == (old(tokenizer).held_token_view() is None),
                block_target == spec_parse_block(
                    s,
                    ScanState {
                        pos: old(tokenizer).pos(),
                        reading: old(tokenizer).held_indent_view(),
                    },
                    indent as int,
                    old_frames,
                ),
                tokenizer.wf(),
                tokenizer.src() == s,
                eff0 <= tokenizer.eff_pos() <= s.len(),
                self.frames_view().len() == old_frames.len() + 1,
                self.frames_view().drop_last() == old_frames,
                frames_wf(self.frames_view()),
                forall|i: int|
                    0 <= i < elements@.len() ==> elem_wf(elem_view(#[trigger] elements@[i])),
                (old(tokenizer).pos() == s.len() && old(tokenizer).held_token_view() is None) ==> (
                elements@.len() == 0 && tokenizer.pos() == s.len() && tokenizer.held_token_view()
                    is None),
            ensures
                tokenizer.wf(),
                tokenizer.src() == s,
                eff0 <= tokenizer.eff_pos() <= s.len(),
                self.frames_view().len() == old_frames.len() + 1,
                self.frames_view().drop_last() == old_frames,
                forall|i: int|
                    0 <= i < elements@.len() ==> elem_wf(elem_view(#[trigger] elements@[i])),
                (old(tokenizer).pos() == s.len() && old(tokenizer).held_token_view() is None) ==> (
                elements@.len() == 0 && tokenizer.pos() == s.len() && tokenizer.held_token_view()
                    is None),
                clean0 ==> {
                    &&& tokenizer.held_token_view() is None
                    &&& block_target == Parsed::Success(
                        (
                            elems_view(elements@),
                            ScanState {
                                pos: tokenizer.pos(),
                                reading: tokenizer.held_indent_view(),
                            },
                        ),
                    )
                },
            decreases s.len() - tokenizer.eff_pos(),
        {
            let ghost eff_head = tokenizer.eff_pos();
            let ghost st_head = ScanState {
                pos: tokenizer.pos(),
                reading: tokenizer.held_indent_view(),
            };
            let ghost cur_head = self.frames_view().last();
            let ghost acc_head = elems_view(elements@);
            proof {
                if clean0 {
                    assert(self.frames_view() =~= old_frames.push(cur_head));
                }
            }
            let step = self.parse_single_element(tokenizer, indent);
            let ghost st1 = ScanState {
                pos: tokenizer.pos(),
                reading: tokenizer.held_indent_view(),
            };
            match step {
                Err(e) => {
                    proof {
                        if clean0 {
                            assert(block_target is Error);
                        }
                    }
                    self.frames.pop();
                    proof {
                        assert(self.frames_view() =~= old_frames);
                    }
                    return Err(e);
                },
                Ok(ElementReturn::EndOfFile) => {
                    proof {
                        if clean0 {
                            assert(block_target == Parsed::Success((acc_head, st1)));
                        }
                    }
                    break;
                },
                Ok(ElementReturn::Element(e)) => {
                    let ghost raw_head = elements@;
                    elements.push(e);
                    proof {
                        if clean0 {
                            assert(elements@.drop_last() =~= raw_head);
                            assert(elems_view(elements@) == acc_head.push(elem_view(e)));
                        }
                    }
                },
                Ok(ElementReturn::Component(c)) => {
                    let is_empty = match &c.content {
                        ElementContent::Empty => true,
                        _ => false,
                    };
                    proof {
                        if clean0 {
                            assert(is_empty == (elem_view(c).content is Empty));
                        }
                    }
                    if is_empty {
                        match self.get_component(c.tag_name.as_str()) {
                            Some(template) => {
                                proof {
                                    lemma_find_component_wf(self.frames_view(), c.tag_name@);
                                }
                                let ghost raw_head = elements@;
                                let hydrated = hydrate_component(c, &template);
                                elements.push(hydrated);
                                proof {
                                    if clean0 {
                                        assert(elements@.drop_last() =~= raw_head);
                                        assert(elems_view(elements@) == acc_head.push(
                                            elem_view(hydrated),
                                        ));
                                    }
                                }
                            },
                            None => {
                                // An unmatched instantiation is dropped silently:
                                // no element and no error.
                            },
                        }
                    } else {
                        self.add_component(c);
                        proof {
                            assert(self.frames_view().drop_last() =~= old_frames);
                            if clean0 {
                                assert(self.frames_view().last() =~= cur_head.push(elem_view(c)));
                            }
                        }
                    }
                },
            }
            let ghost pre_scan = tokenizer.pos();
            proof {
                if clean0 {
                    Tokenizer::lemma_wf_bounds(*tokenizer);
                    crate::tokenizer::lemma_indent_scan_bounds(s, pre_scan, 0);
                }
            }
            let reading = tokenizer.peek_indent();
            proof {
                if clean0 {
                    assert((reading.0 as int, reading.1 as int) == st_peek_indent(s, st1).1);
                    assert(st_peek_indent(s, st1).0 == ScanState {
                        pos: tokenizer.pos(),
                        reading: tokenizer.held_indent_view(),
                    });
                }
            }
            if reading.0 < indent {
                proof {
                    if clean0 {
                        assert(block_target == Parsed::Success(
                            (
                                elems_view(elements@),
                                ScanState {
                                    pos: tokenizer.pos(),
                                    reading: tokenizer.held_indent_view(),
                                },
                            ),
                        ));
                    }
                }
                break;
            }
            proof {
                if clean0 {
                    assert(spec_block_loop(
                        s,
                        ScanState { pos: tokenizer.pos(), reading: tokenizer.held_indent_view() },
                        indent as int,
                        old_frames,
                        self.frames_view().last(),
                        elems_view(elements@),
                    ) == block_target);
                }
            }
        }
        self.frames.pop();
        proof {
            assert(self.frames_view() =~= old_frames);
        }
        Ok(elements)
    }
}

impl Parser {
    /// Parses one element: its header (tag, `#id`, `.class`, attribute list)
    /// and then its content (a literal text block, single-line text, or a
    /// nested block of children). When no token is cached, the result and
    /// the state left behind are exactly what `spec_parse_element` states.
    #[verifier::rlimit(100)]
    #[verifier::spinoff_prover]
    fn parse_single_element(&mut self, tokenizer: &mut Tokenizer, indent: Indent) -> (r: Result<
        ElementReturn,
        CompilerError,
    >)
        requires
            old(tokenizer).wf(),
            frames_wf(old(self).frames_view()),
        ensures
            final(self).frames_view() == old(self).frames_view(),
            final(tokenizer).wf(),
            final(tokenizer).src() == old(tokenizer).src(),
            old(tokenizer).eff_pos() <= final(tokenizer).eff_pos() <= final(tokenizer).src().len(),
            old(tokenizer).peek_span() is None ==> r == Ok::<ElementReturn, CompilerError>(ElementReturn::EndOfFile),
            r == Ok::<ElementReturn, CompilerError>(ElementReturn::EndOfFile) ==> old(tokenizer).peek_span() is None,
            match r {
                Ok(ElementReturn::Element(e)) => {
                    &&& elem_wf(elem_view(e))
                    &&& !has_attr_named(elem_view(e).attrs, seq!['@'])
                    &&& tag_rule(
                        old(tokenizer).src(),
                        old(tokenizer).peek_span().unwrap(),
                        elem_view(e).tag,
                    )
                    &&& final(tokenizer).eff_pos() > old(tokenizer).eff_pos()
                },
                Ok(ElementReturn::Component(c)) => {
                    &&& elem_wf(elem_view(c))
                    &&& has_attr_named(elem_view(c).attrs, seq!['@'])
                    &&& tag_rule(
                        old(tokenizer).src(),
                        old(tokenizer).peek_span().unwrap(),
                        elem_view(c).tag,
                    )
                    &&& final(tokenizer).eff_pos() > old(tokenizer).eff_pos()
                },
                Ok(ElementReturn::EndOfFile) => true,
                Err(CompilerError::ParseError(m)) => m@ == unterminated_attrs_message(),
                Err(CompilerError::IndentationError(_)) => false,
            },
            old(tokenizer).held_token_view() is None ==> ({
                let outcome = spec_parse_element(
                    old(tokenizer).src(),
                    old(tokenizer).pos(),
                    indent as int,
                    old(self).frames_view(),
                );
                &&& final(tokenizer).held_token_view() is None
                &&& match r {
                    Ok(ElementReturn::EndOfFile) => outcome == Parsed::Success(
                        (
                            ElemStep::EndOfInput,
                            ScanState {
                                pos: final(tokenizer).pos(),
                                reading: final(tokenizer).held_indent_view(),
                            },
                        ),
                    ),
                    Ok(ElementReturn::Element(e)) => outcome == Parsed::Success(
                        (
                            ElemStep::Element(elem_view(e)),
                            ScanState {
                                pos: final(tokenizer).pos(),
                                reading: final(tokenizer).held_indent_view(),
                            },
                        ),
                    ),
                    Ok(ElementReturn::Component(c)) => outcome == Parsed::Success(
                        (
                            ElemStep::Component(elem_view(c)),
                            ScanState {
                                pos: final(tokenizer).pos(),
                                reading: final(tokenizer).held_indent_view(),
                            },
                        ),
                    ),
                    Err(_) => outcome is Error,
                }
            }),
        decreases old(tokenizer).src().len() - old(tokenizer).eff_pos(), 0int,
    {
        let ghost s = old(tokenizer).src();
        let ghost eff0 = old(tokenizer).eff_pos();
        let ghost entry_span = old(tokenizer).peek_span();
        let ghost clean0 = old(tokenizer).held_token_view() is None;
        let ghost pp0 = old(tokenizer).pos();
        let ghost fv = old(self).frames_view();
        let ghost outcome = spec_parse_element(s, pp0, indent as int, fv);
        proof {
            Tokenizer::lemma_wf_bounds(*old(tokenizer));
        }

        // Tag name: default to `div` when a modifier begins the header.
        let p0 = tokenizer.peek();
        let tag_name: String;
        let ghost mut hp: int = 0;
        match p0 {
            None => {
                proof {
                    if clean0 {
                        assert(outcome == Parsed::Success((
                            ElemStep::EndOfInput,
                            ScanState {
                                pos: crate::tokenizer::pos_after_token(s, pp0),
                                reading: None,
                            },
                        )));
                    }
                }
                return Ok(ElementReturn::EndOfFile);
            },
            Some(t) => {
                if tok_is_char(t, '.') || tok_is_char(t, '#') || tok_is_char(t, '(') {
                    tag_name = String::from_str("div");
                    proof {
                        reveal_strlit("div");
                        assert(tag_name@ =~= seq!['d', 'i', 'v']);
                        hp = pp0;
                    }
                } else {
                    let tk = tokenizer.consume();
                    tag_name = tk.unwrap().to_owned();
                    proof {
                        hp = crate::tokenizer::pos_after_token(s, pp0);
                    }
                }
            },
        }

        proof {
            let (a, b) = entry_span.unwrap();
            assert(s.subrange(a, b).len() == b - a);
        }
        let ghost hp0 = hp;
        let ghost header_target = spec_header(
            s,
            hp0,
            indent as int,
            None,
            Seq::empty(),
            Seq::empty(),
            false,
        );
        proof {
            if clean0 {
                crate::tokenizer::lemma_pos_after_token_bounds(s, pp0);
                assert(0 <= hp0 <= s.len());
                if header_target is Error {
                    assert(outcome is Error);
                }
            }
        }

        let mut content_parsed = false;
        let mut is_component = false;
        let mut id: Option<String> = None;
        let mut classes: Vec<String> = Vec::new();
        let mut attributes: Vec<(String, Option<String>)> = Vec::new();
        let mut content = ElementContent::Empty;

        // Header modifiers, until the content begins or the line ends.
        proof {
            assert(strs_view(classes@) =~= Seq::<Seq<char>>::empty());
            assert(attrs_view(attributes@) =~= Seq::<(Seq<char>, Option<Seq<char>>)>::empty());
        }
        loop
            invariant_except_break
                content_view(content) == ContentV::Empty,
                content_parsed == false,
                clean0 ==> {
                    &&& 0 <= hp <= s.len()
                    &&& tokenizer.held_indent_view() is None
                    &&& match tokenizer.held_token_view() {
                        None => tokenizer.pos() == hp,
                        Some((a2, b2)) => crate::tokenizer::next_token(s, hp) == Some((a2, b2))
                            && tokenizer.pos() == crate::tokenizer::pos_after_token(s, hp),
                    }
                    &&& spec_header(
                        s,
                        hp,
                        indent as int,
                        str_opt_view(id),
                        strs_view(classes@),
                        attrs_view(attributes@),
                        is_component,
                    ) == header_target
                },
            invariant
                s == old(tokenizer).src(),
                eff0 == old(tokenizer).eff_pos(),
                entry_span == old(tokenizer).peek_span(),
                entry_span is Some,
                frames_wf(old(self).frames_view()),
                tag_rule(s, entry_span.unwrap(), tag_name@),
                tag_name@.len() > 0,
                tokenizer.wf(),
                tokenizer.src() == s,
                eff0 <= tokenizer.eff_pos() <= s.len(),
                tokenizer.eff_pos() > eff0 || tokenizer.peek_span() is Some,
                self.frames_view() == old(self).frames_view(),
                is_component == has_attr_named(attrs_view(attributes@), seq!['@']),
                content_wf(content_view(content)),
                clean0 == (old(tokenizer).held_token_view() is None),
                pp0 == old(tokenizer).pos(),
                fv == old(self).frames_view(),
                outcome == spec_parse_element(s, pp0, indent as int, fv),
                clean0 ==> 0 <= pp0 <= s.len(),
                clean0 ==> hp0 == (if default_tag_token(
                    s.subrange(entry_span.unwrap().0, entry_span.unwrap().1),
                ) {
                    pp0
                } else {
                    crate::tokenizer::pos_after_token(s, pp0)
                }),
                clean0 && header_target is Error ==> outcome is Error,
                header_target == spec_header(
                    s,
                    hp0,
                    indent as int,
                    None,
                    Seq::empty(),
                    Seq::empty(),
                    false,
                ),
            ensures
                tokenizer.wf(),
                tokenizer.src() == s,
                eff0 < tokenizer.eff_pos() <= s.len(),
                self.frames_view() == old(self).frames_view(),
                is_component == has_attr_named(attrs_view(attributes@), seq!['@']),
                content_wf(content_view(content)),
                tag_rule(s, entry_span.unwrap(), tag_name@),
                tag_name@.len() > 0,
                clean0 ==> {
                    &&& tokenizer.held_token_view() is None
                    &&& header_target == Parsed::Success(
                        Header {
                            id: str_opt_view(id),
                            classes: strs_view(classes@),
                            attrs: attrs_view(attributes@),
                            is_component,
                            content: content_view(content),
                            content_parsed,
                            state: ScanState {
                                pos: tokenizer.pos(),
                                reading: tokenizer.held_indent_view(),
                            },
                        },
                    )
                },
            decreases s.len() - tokenizer.eff_pos(),
        {
            let ghost eff_head = tokenizer.eff_pos();
            let ghost hp_head = hp;
            let ghost id_head = str_opt_view(id);
            let ghost cls_head = strs_view(classes@);
            let ghost at_head = attrs_view(attributes@);
            let ghost comp_head = is_component;
            let pk = tokenizer.peek();
            proof {
                if clean0 {
                    crate::tokenizer::lemma_pos_after_token_bounds(s, hp);
                }
            }
            match pk {
                None => {
                    proof {
                        if clean0 {
                            hp = crate::tokenizer::pos_after_token(s, hp_head);
                            assert(spec_header(
                                s,
                                hp_head,
                                indent as int,
                                id_head,
                                cls_head,
                                at_head,
                                comp_head,
                            ) == Parsed::Success(
                                Header {
                                    id: id_head,
                                    classes: cls_head,
                                    attrs: at_head,
                                    is_component: comp_head,
                                    content: ContentV::Empty,
                                    content_parsed: false,
                                    state: ScanState { pos: hp, reading: None },
                                },
                            ));
                        }
                    }
                    break;
                },
                Some(t) => {
                    proof {
                        if clean0 {
                            assert(tokenizer.held_token_view() == crate::tokenizer::next_token(
                                s,
                                hp_head,
                            ));
                        }
                    }
                    if tok_is_char(t, '#') {
                        // Id modifier; a later one overwrites an earlier one.
                        tokenizer.consume();
                        let ghost q1 = crate::tokenizer::pos_after_token(s, hp_head);
                        proof {
                            if clean0 {
                                crate::tokenizer::lemma_pos_after_token_bounds(s, q1);
                            }
                        }
                        match tokenizer.consume() {
                            Some(x) => {
                                id = Some(x.to_owned());
                            },
                            None => {
                                id = None;
                            },
                        }
                        proof {
                            if clean0 {
                                hp = crate::tokenizer::pos_after_token(s, q1);
                                assert(spec_header(
                                    s,
                                    hp_head,
                                    indent as int,
                                    id_head,
                                    cls_head,
                                    at_head,
                                    comp_head,
                                ) == spec_header(
                                    s,
                                    hp,
                                    indent as int,
                                    str_opt_view(id),
                                    cls_head,
                                    at_head,
                                    comp_head,
                                ));
                            }
                        }
                    } else if tok_is_char(t, '.') {
                        tokenizer.consume();
                        let ghost q1 = crate::tokenizer::pos_after_token(s, hp_head);
                        proof {
                            if clean0 {
                                crate::tokenizer::lemma_pos_after_token_bounds(s, q1);
                            }
                        }
                        match tokenizer.consume() {
                            Some(c) => {
                                // Class modifier.
                                classes.push(c.to_owned());
                                proof {
                                    if clean0 {
                                        hp = crate::tokenizer::pos_after_token(s, q1);
                                        assert(strs_view(classes@) =~= cls_head.push(c@));
                                        assert(spec_header(
                                            s,
                                            hp_head,
                                            indent as int,
                                            id_head,
                                            cls_head,
                                            at_head,
                                            comp_head,
                                        ) == spec_header(
                                            s,
                                            hp,
                                            indent as int,
                                            id_head,
                                            strs_view(classes@),
                                            at_head,
                                            comp_head,
                                        ));
                                    }
                                }
                            },
                            None => {
                                // A bare trailing dot: a literal multi-line
                                // text block follows, indented deeper.
                                content_parsed = true;
                                let ghost q2 = crate::tokenizer::pos_after_token(s, q1);
                                let ghost scan_start = tokenizer.pos();
                                proof {
                                    Tokenizer::lemma_wf_bounds(*tokenizer);
                                    crate::tokenizer::lemma_indent_scan_bounds(s, scan_start, 0);
                                }
                                let first = tokenizer.peek_indent();
                                if first.0 <= indent {
                                    // Not indented deeper: empty content.
                                    proof {
                                        if clean0 {
                                            assert(spec_header(
                                                s,
                                                hp_head,
                                                indent as int,
                                                id_head,
                                                cls_head,
                                                at_head,
                                                comp_head,
                                            ) == Parsed::Success(
                                                Header {
                                                    id: id_head,
                                                    classes: cls_head,
                                                    attrs: at_head,
                                                    is_component: comp_head,
                                                    content: ContentV::Empty,
                                                    content_parsed: true,
                                                    state: ScanState {
                                                        pos: tokenizer.pos(),
                                                        reading: tokenizer.held_indent_view(),
                                                    },
                                                },
                                            ));
                                        }
                                    }
                                    break;
                                }
                                let normal_indent = tokenizer.consume_indent().0;
                                let ghost ml_start = tokenizer.pos();
                                let ghost ml_target = spec_multiline(
                                    s,
                                    ml_start,
                                    indent as int,
                                    normal_indent as int,
                                    Seq::empty(),
                                );
                                let mut inner_text = String::new();
                                proof {
                                    assert(inner_text@ =~= Seq::<char>::empty());
                                }
                                loop
                                    invariant_except_break
                                        tokenizer.pos() < s.len() && !crate::tokenizer::is_newline(
                                            s[tokenizer.pos()],
                                        ) && !crate::tokenizer::is_line_ws(s[tokenizer.pos()]),
                                        tokenizer.eff_pos() == tokenizer.pos(),
                                        spec_multiline(
                                            s,
                                            tokenizer.pos(),
                                            indent as int,
                                            normal_indent as int,
                                            inner_text@,
                                        ) == ml_target,
                                    invariant
                                        s == old(tokenizer).src(),
                                        eff0 == old(tokenizer).eff_pos(),
                                        tokenizer.wf(),
                                        tokenizer.src() == s,
                                        tokenizer.held_token_view() is None,
                                        eff0 < tokenizer.eff_pos() <= s.len(),
                                        ml_target == spec_multiline(
                                            s,
                                            ml_start,
                                            indent as int,
                                            normal_indent as int,
                                            Seq::empty(),
                                        ),
                                    ensures
                                        tokenizer.wf(),
                                        tokenizer.src() == s,
                                        eff0 < tokenizer.eff_pos() <= s.len(),
                                        tokenizer.held_token_view() is None,
                                        ml_target == (inner_text@, tokenizer.pos()),
                                        tokenizer.held_indent_view() is Some,
                                    decreases s.len() - tokenizer.pos(),
                                {
                                    let ghost lp = tokenizer.pos();
                                    let ghost acc_in = inner_text@;
                                    proof {
                                        Tokenizer::lemma_wf_bounds(*tokenizer);
                                    }
                                    let line = tokenizer.consume_line().unwrap();
                                    inner_text.append(line);
                                    let ghost le = crate::tokenizer::line_end(s, lp);
                                    proof {
                                        assert(inner_text@ =~= acc_in + s.subrange(lp, le));
                                        crate::tokenizer::lemma_line_end_bounds(s, lp + 1);
                                        assert(le >= lp + 1);
                                    }
                                    let ghost line_scan = tokenizer.pos();
                                    proof {
                                        Tokenizer::lemma_wf_bounds(*tokenizer);
                                        crate::tokenizer::lemma_indent_scan_bounds(s, line_scan, 0);
                                    }
                                    let next_reading = tokenizer.peek_indent();
                                    if next_reading.0 <= indent {
                                        proof {
                                            assert(spec_multiline(
                                                s,
                                                lp,
                                                indent as int,
                                                normal_indent as int,
                                                acc_in,
                                            ) == (inner_text@, tokenizer.pos()));
                                        }
                                        break;
                                    }
                                    let extra = if next_reading.0 > normal_indent {
                                        next_reading.0 - normal_indent
                                    } else {
                                        0
                                    };
                                    push_repeat(&mut inner_text, '\n', next_reading.1);
                                    push_repeat(&mut inner_text, ' ', extra);
                                    proof {
                                        assert(inner_text@ =~= acc_in + s.subrange(lp, le)
                                            + crate::strutil::char_repeat(
                                            '\n',
                                            next_reading.1 as int,
                                        ) + crate::strutil::char_repeat(' ', extra as int));
                                        assert(spec_multiline(
                                            s,
                                            lp,
                                            indent as int,
                                            normal_indent as int,
                                            acc_in,
                                        ) == spec_multiline(
                                            s,
                                            tokenizer.pos(),
                                            indent as int,
                                            normal_indent as int,
                                            inner_text@,
                                        ));
                                    }
                                }
                                // Normalize the pending indentation reading.
                                tokenizer.consume_indent();
                                proof {
                                    Tokenizer::lemma_wf_bounds(*tokenizer);
                                }
                                tokenizer.peek_indent();
                                content = ElementContent::InnerText(inner_text);
                                proof {
                                    if clean0 {
                                        assert(spec_header(
                                            s,
                                            hp_head,
                                            indent as int,
                                            id_head,
                                            cls_head,
                                            at_head,
                                            comp_head,
                                        ) == Parsed::Success(
                                            Header {
                                                id: id_head,
                                                classes: cls_head,
                                                attrs: at_head,
                                                is_component: comp_head,
                                                content: ContentV::Text(inner_text@),
                                                content_parsed: true,
                                                state: ScanState {
                                                    pos: tokenizer.pos(),
                                                    reading: tokenizer.held_indent_view(),
                                                },
                                            },
                                        ));
                                    }
                                }
                                break;
                            },
                        }
                    } else if tok_is_char(t, '(') {
                        // Attribute list; newlines are allowed inside it.
                        tokenizer.consume_ignore_newline();
                        let ghost ap0: int = crate::tokenizer::pos_after_token(s, hp_head);
                        let ghost mut ap: int = ap0;
                        let ghost at_target = spec_attr_list(
                            s,
                            ap,
                            attrs_view(attributes@),
                            is_component,
                        );
                        proof {
                            if clean0 {
                                crate::tokenizer::lemma_pos_after_token_bounds(s, hp_head);
                                if at_target is Error {
                                    assert(spec_header(
                                        s,
                                        hp_head,
                                        indent as int,
                                        id_head,
                                        cls_head,
                                        at_head,
                                        comp_head,
                                    ) is Error);
                                }
                            }
                        }
                        loop
                            invariant
                                s == old(tokenizer).src(),
                                eff0 == old(tokenizer).eff_pos(),
                                entry_span == old(tokenizer).peek_span(),
                                entry_span is Some,
                                tokenizer.wf(),
                                tokenizer.src() == s,
                                eff0 < tokenizer.eff_pos() <= s.len(),
                                eff_head < tokenizer.eff_pos(),
                                self.frames_view() == old(self).frames_view(),
                                is_component == has_attr_named(attrs_view(attributes@), seq!['@']),
                                clean0 == (old(tokenizer).held_token_view() is None),
                                pp0 == old(tokenizer).pos(),
                                fv == old(self).frames_view(),
                                outcome == spec_parse_element(s, pp0, indent as int, fv),
                                clean0 ==> {
                                    &&& 0 <= ap0 <= ap <= s.len()
                                    &&& tokenizer.held_indent_view() is None
                                    &&& match tokenizer.held_token_view() {
                                        None => tokenizer.pos() == ap || (
                                        crate::tokenizer::next_token_ign(s, ap) is None
                                            && tokenizer.pos() == s.len()),
                                        Some((a2, b2)) => crate::tokenizer::next_token_ign(s, ap)
                                            == Some((a2, b2)) && tokenizer.pos()
                                            == crate::tokenizer::ws_end(s, b2),
                                    }
                                    &&& spec_attr_list(
                                        s,
                                        ap,
                                        attrs_view(attributes@),
                                        is_component,
                                    ) == at_target
                                },
                                clean0 && at_target is Error ==> outcome is Error,
                            ensures
                                tokenizer.wf(),
                                tokenizer.src() == s,
                                eff0 < tokenizer.eff_pos() <= s.len(),
                                eff_head < tokenizer.eff_pos(),
                                self.frames_view() == old(self).frames_view(),
                                is_component == has_attr_named(attrs_view(attributes@), seq!['@']),
                                clean0 ==> {
                                    &&& tokenizer.held_token_view() is Some
                                    &&& tokenizer.held_indent_view() is None
                                    &&& ap0 <= tokenizer.pos() <= s.len()
                                    &&& at_target == Parsed::Success(
                                        (
                                            attrs_view(attributes@),
                                            is_component,
                                            tokenizer.pos(),
                                        ),
                                    )
                                },
                            decreases s.len() - tokenizer.eff_pos(),
                        {
                            let ghost ap_head = ap;
                            let ghost av_it = attrs_view(attributes@);
                            let ghost comp_it = is_component;
                            let pa = tokenizer.peek_ignore_newline();
                            proof {
                                if clean0 {
                                    crate::tokenizer::lemma_ign_result(s, ap_head);
                                    if crate::tokenizer::next_token_ign(s, ap_head) is Some {
                                        crate::tokenizer::lemma_ws_end_bounds(
                                            s,
                                            crate::tokenizer::next_token_ign(
                                                s,
                                                ap_head,
                                            ).unwrap().1,
                                        );
                                    }
                                }
                            }
                            match pa {
                                Some(tp) => {
                                    if tok_is_char(tp, ')') {
                                        proof {
                                            if clean0 {
                                                assert(spec_attr_list(
                                                    s,
                                                    ap_head,
                                                    attrs_view(attributes@),
                                                    is_component,
                                                ) == Parsed::Success(
                                                    (
                                                        attrs_view(attributes@),
                                                        is_component,
                                                        tokenizer.pos(),
                                                    ),
                                                ));
                                            }
                                        }
                                        break;
                                    }
                                },
                                None => {
                                    // The list never closes: the input ended.
                                    proof {
                                        if clean0 {
                                            assert(at_target is Error);
                                            assert(outcome is Error);
                                        }
                                    }
                                    return Err(
                                        CompilerError::ParseError(
                                            String::from_str(
                                                "Unterminated attribute list at end of input.",
                                            ),
                                        ),
                                    );
                                },
                            }
                            let name = tokenizer.consume_ignore_newline().unwrap();
                            let ghost p1 = tokenizer.pos();
                            proof {
                                if clean0 {
                                    let tok = crate::tokenizer::next_token_ign(s, ap_head);
                                    assert(p1 == crate::tokenizer::ws_end(s, tok.unwrap().1));
                                    assert(name@ == s.subrange(tok.unwrap().0, tok.unwrap().1));
                                }
                            }
                            let value: Option<String> = {
                                let pv = tokenizer.peek_ignore_newline();
                                proof {
                                    if clean0 {
                                        crate::tokenizer::lemma_ign_result(s, p1);
                                        if crate::tokenizer::next_token_ign(s, p1) is Some {
                                            crate::tokenizer::lemma_ws_end_bounds(
                                                s,
                                                crate::tokenizer::next_token_ign(
                                                    s,
                                                    p1,
                                                ).unwrap().1,
                                            );
                                        }
                                    }
                                }
                                let is_eq = match pv {
                                    Some(tv) => tok_is_char(tv, '='),
                                    None => false,
                                };
                                if is_eq {
                                    tokenizer.consume_ignore_newline();
                                    let ghost p2 = tokenizer.pos();
                                    proof {
                                        if clean0 {
                                            assert(p2 == crate::tokenizer::ws_end(
                                                s,
                                                crate::tokenizer::next_token_ign(
                                                    s,
                                                    p1,
                                                ).unwrap().1,
                                            ));
                                            crate::tokenizer::lemma_ign_result(s, p2);
                                            if crate::tokenizer::next_token_ign(s, p2) is Some {
                                                crate::tokenizer::lemma_ws_end_bounds(
                                                    s,
                                                    crate::tokenizer::next_token_ign(
                                                        s,
                                                        p2,
                                                    ).unwrap().1,
                                                );
                                            }
                                        }
                                    }
                                    match tokenizer.consume_ignore_newline() {
                                        Some(v) => Some(v.to_owned()),
                                        None => None,
                                    }
                                } else {
                                    None
                                }
                            };
                            let ghost vv = str_opt_view(value);
                            let ghost vpos: int = if !clean0 {
                                0
                            } else if tokenizer.held_token_view() is Some {
                                p1
                            } else {
                                tokenizer.pos()
                            };
                            // `@` marks a component; it stays an attribute too.
                            let at_name = tok_is_char(name, '@');
                            if at_name {
                                is_component = true;
                            }
                            let ghost av0 = attrs_view(attributes@);
                            attributes.push((name.to_owned(), value));
                            proof {
                                assert(attrs_view(attributes@) =~= av0.push(
                                    attrs_view(attributes@).last(),
                                ));
                                let newa = attrs_view(attributes@);
                                assert(newa.last().0 == name@);
                                if at_name {
                                    assert(newa[newa.len() - 1].0 == seq!['@']);
                                    assert(has_attr_named(newa, seq!['@']));
                                } else {
                                    if has_attr_named(av0, seq!['@']) {
                                        let i = choose|i: int|
                                            0 <= i < av0.len() && av0[i].0 == seq!['@'];
                                        assert(newa[i].0 == seq!['@']);
                                        assert(has_attr_named(newa, seq!['@']));
                                    }
                                    if has_attr_named(newa, seq!['@']) {
                                        let i = choose|i: int|
                                            0 <= i < newa.len() && newa[i].0 == seq!['@'];
                                        assert(i < av0.len());
                                        assert(has_attr_named(av0, seq!['@']));
                                    }
                                }
                            }
                            let pc = tokenizer.peek_ignore_newline();
                            proof {
                                if clean0 {
                                    crate::tokenizer::lemma_ign_result(s, vpos);
                                    if crate::tokenizer::next_token_ign(s, vpos) is Some {
                                        crate::tokenizer::lemma_ws_end_bounds(
                                            s,
                                            crate::tokenizer::next_token_ign(
                                                s,
                                                vpos,
                                            ).unwrap().1,
                                        );
                                    }
                                }
                            }
                            let is_comma = match pc {
                                Some(tc) => tok_is_char(tc, ','),
                                None => false,
                            };
                            if is_comma {
                                tokenizer.consume_ignore_newline();
                            }
                            proof {
                                if clean0 {
                                    ap = if is_comma {
                                        tokenizer.pos()
                                    } else {
                                        vpos
                                    };
                                    assert(attrs_view(attributes@) =~= av_it.push((name@, vv)));
                                    assert(spec_attr_list(s, ap_head, av_it, comp_it)
                                        == spec_attr_list(
                                        s,
                                        ap,
                                        attrs_view(attributes@),
                                        is_component,
                                    ));
                                }
                            }
                        }
                        tokenizer.consume();
                        proof {
                            if clean0 {
                                hp = tokenizer.pos();
                                assert(spec_header(
                                    s,
                                    hp_head,
                                    indent as int,
                                    id_head,
                                    cls_head,
                                    at_head,
                                    comp_head,
                                ) == spec_header(
                                    s,
                                    hp,
                                    indent as int,
                                    id_head,
                                    cls_head,
                                    attrs_view(attributes@),
                                    is_component,
                                ));
                            }
                        }
                    } else {
                        // Any other token: the rest of the line is this
                        // element's single-line inner text.
                        let line = tokenizer.consume_line().unwrap();
                        proof {
                            Tokenizer::lemma_wf_bounds(*tokenizer);
                        }
                        content = ElementContent::InnerText(line.to_owned());
                        proof {
                            if clean0 {
                                assert(header_target == Parsed::Success(
                                    Header {
                                        id: id_head,
                                        classes: cls_head,
                                        attrs: at_head,
                                        is_component: comp_head,
                                        content: content_view(content),
                                        content_parsed: false,
                                        state: ScanState {
                                            pos: tokenizer.pos(),
                                            reading: tokenizer.held_indent_view(),
                                        },
                                    },
                                ));
                            }
                        }
                        break;
                    }
                },
            }
        }

        // Children: a deeper block, unless a literal text block was taken.
        let ghost hstate = ScanState {
            pos: tokenizer.pos(),
            reading: tokenizer.held_indent_view(),
        };
        let ghost hview = Header {
            id: str_opt_view(id),
            classes: strs_view(classes@),
            attrs: attrs_view(attributes@),
            is_component,
            content: content_view(content),
            content_parsed,
            state: hstate,
        };
        proof {
            if clean0 {
                assert(header_target == Parsed::Success(hview));
                crate::tokenizer::lemma_pos_after_token_bounds(s, pp0);
            }
        }
        let ghost mut final_state = hstate;
        let ghost mut block_content = content_view(content);
        if !content_parsed {
            let ghost pre_pos = tokenizer.pos();
            proof {
                if clean0 {
                    Tokenizer::lemma_wf_bounds(*tokenizer);
                    crate::tokenizer::lemma_indent_scan_bounds(s, pre_pos, 0);
                }
            }
            let reading = tokenizer.peek_indent();
            proof {
                if clean0 {
                    final_state = st_peek_indent(s, hstate).0;
                    assert((reading.0 as int, reading.1 as int) == st_peek_indent(s, hstate).1);
                    assert(final_state == ScanState {
                        pos: tokenizer.pos(),
                        reading: tokenizer.held_indent_view(),
                    });
                }
            }
            if reading.0 > indent {
                let inner_indent = tokenizer.consume_indent().0;
                proof {
                    Tokenizer::lemma_wf_bounds(*tokenizer);
                    if clean0 {
                        assert(inner_indent as int == st_peek_indent(s, hstate).1.0);
                        assert(tokenizer.pos() == final_state.pos);
                        assert(tokenizer.held_indent_view() is None);
                        assert(pp0 < final_state.pos);
                    }
                }
                let ghost block_spec = spec_parse_block(
                    s,
                    ScanState { pos: final_state.pos, reading: None },
                    inner_indent as int,
                    fv,
                );
                match self.inner_parse(tokenizer, inner_indent) {
                    Ok(inner_elements) => {
                        proof {
                            if clean0 {
                                assert(block_spec == Parsed::Success(
                                    (
                                        elems_view(inner_elements@),
                                        ScanState {
                                            pos: tokenizer.pos(),
                                            reading: tokenizer.held_indent_view(),
                                        },
                                    ),
                                ));
                            }
                        }
                        if inner_elements.len() > 0 {
                            proof {
                                broadcast use lemma_elems_view_len, lemma_elems_view_index;

                                assert forall|i: int|
                                    0 <= i < elems_view(inner_elements@).len() implies elem_wf(
                                    #[trigger] elems_view(inner_elements@)[i],
                                ) by {}
                                assert(elems_view(inner_elements@).len() > 0);
                                assert(content_wf(
                                    ContentV::Children(elems_view(inner_elements@)),
                                ));
                                if clean0 {
                                    block_content = ContentV::Children(
                                        elems_view(inner_elements@),
                                    );
                                }
                            }
                            content = ElementContent::Children(inner_elements);
                        } else {
                            proof {
                                broadcast use lemma_elems_view_len;

                            }
                        }
                        proof {
                            if clean0 {
                                final_state = ScanState {
                                    pos: tokenizer.pos(),
                                    reading: tokenizer.held_indent_view(),
                                };
                                assert(content_view(content) == block_content);
                            }
                        }
                    },
                    Err(e) => {
                        proof {
                            if clean0 {
                                assert(block_spec is Error);
                                assert(outcome is Error);
                            }
                        }
                        return Err(e);
                    },
                }
            }
        }

        proof {
            assert(content_wf(content_view(content)));
        }
        let element = Element { tag_name, id, classes, attributes, content };
        proof {
            assert(elem_wf(elem_view(element)));
            if clean0 {
                let stepv = if is_component {
                    ElemStep::Component(elem_view(element))
                } else {
                    ElemStep::Element(elem_view(element))
                };
                assert(elem_view(element) == ElemV {
                    tag: tag_name@,
                    id: hview.id,
                    classes: hview.classes,
                    attrs: hview.attrs,
                    content: content_view(content),
                });
                assert(final_state == ScanState {
                    pos: tokenizer.pos(),
                    reading: tokenizer.held_indent_view(),
                });
                assert(outcome == Parsed::Success((stepv, final_state)));
            }
        }
        if is_component {
            Ok(ElementReturn::Component(element))
        } else {
            Ok(ElementReturn::Element(element))
        }
    }
}

/// Puts the information from a component instance into a copy of the
/// component template. The tag name becomes `"div"`; the instance's id wins
/// over the template's; the classes are the set union of the instance's
/// classes, the instance's original tag name and the template's classes; the
/// attributes are the set union of both attribute lists (only byte-identical
/// pairs collapse); the content is a deep copy of the template's content.
pub fn hydrate_component(instance: Element, template: &Element) -> (r: Element)
    ensures
        ({
            let iv = elem_view(instance);
            let tv = elem_view(*template);
            let rv = elem_view(r);
            &&& rv.tag == seq!['d', 'i', 'v']
            &&& rv.id == if iv.id is Some {
                iv.id
            } else {
                tv.id
            }
            &&& rv.classes == dedup_first(iv.classes.push(iv.tag) + tv.classes)
            &&& rv.attrs == dedup_first(iv.attrs + tv.attrs)
            &&& rv.content == tv.content
            &&& rv == spec_hydrate(iv, tv)
        }),
{
    let mut instance = instance;
    let ghost classes0 = strs_view(instance.classes@);
    let ghost tag0 = instance.tag_name@;
    let tag_copy = instance.tag_name.clone();
    instance.classes.push(tag_copy);
    proof {
        assert(strs_view(instance.classes@) =~= classes0.push(tag0));
    }
    let id = match instance.id {
        Some(id) => Some(id),
        None => clone_opt_string(&template.id),
    };
    let tag_name = String::from_str("div");
    proof {
        reveal_strlit("div");
        assert(tag_name@ =~= seq!['d', 'i', 'v']);
    }
    Element {
        tag_name,
        id,
        classes: combine_vecs(&instance.classes, &template.classes),
        attributes: combine_attr_vecs(&instance.attributes, &template.attributes),
        content: duplicate_content(&template.content),
    }
}

/// Component hydration union: the classes of a hydrated element hold the
/// instance's original tag name, every class of the instance and every
/// class of the template (`hydrate_component` makes its classes exactly
/// the deduplication this lemma speaks of).
pub proof fn lemma_hydration_classes(
    instance_classes: Seq<Seq<char>>,
    instance_tag: Seq<char>,
    template_classes: Seq<Seq<char>>,
)
    ensures
        ({
            let u = dedup_first(instance_classes.push(instance_tag) + template_classes);
            &&& u.contains(instance_tag)
            &&& forall|c: Seq<char>| instance_classes.contains(c) ==> u.contains(c)
            &&& forall|c: Seq<char>| template_classes.contains(c) ==> u.contains(c)
        }),
{
    let s = instance_classes.push(instance_tag) + template_classes;
    lemma_dedup_membership(s);
    assert(s[instance_classes.len() as int] == instance_tag);
    assert(s.contains(instance_tag));
    assert forall|c: Seq<char>| instance_classes.contains(c) implies dedup_first(s).contains(
        c,
    ) by {
        let k = choose|k: int| 0 <= k < instance_classes.len() && instance_classes[k] == c;
        assert(s[k] == c);
        assert(s.contains(c));
    }
    assert forall|c: Seq<char>| template_classes.contains(c) implies dedup_first(s).contains(
        c,
    ) by {
        let k = choose|k: int| 0 <= k < template_classes.len() && template_classes[k] == c;
        assert(s[k + instance_classes.len() + 1] == c);
        assert(s.contains(c));
    }
}

/// What `dedup_first` keeps is exactly what the input holds: membership is
/// preserved in both directions.
pub proof fn lemma_dedup_membership<T>(s: Seq<T>)
    ensures
        forall|x: T| s.contains(x) <==> #[trigger] dedup_first(s).contains(x),
    decreases s.len(),
{
    if s.len() > 0 {
        lemma_dedup_membership(s.drop_last());
        assert forall|x: T| s.contains(x) implies #[trigger] dedup_first(s).contains(x) by {
            if s.drop_last().contains(x) {
                assert(dedup_first(s.drop_last()).contains(x));
                if !s.drop_last().contains(s.last()) {
                    let j = choose|j: int|
                        0 <= j < dedup_first(s.drop_last()).len() && dedup_first(s.drop_last())[j]
                            == x;
                    assert(dedup_first(s)[j] == x);
                }
            } else {
                let j = choose|j: int| 0 <= j < s.len() && s[j] == x;
                if j < s.len() - 1 {
                    assert(s.drop_last()[j] == x);
                    assert(s.drop_last().contains(x));
                }
                assert(j == s.len() - 1);
                if s.drop_last().contains(s.last()) {
                    assert(s.drop_last().contains(x));
                } else {
                    assert(dedup_first(s).last() == x);
                }
            }
        }
        assert forall|x: T| #[trigger] dedup_first(s).contains(x) implies s.contains(x) by {
            let j = choose|j: int| 0 <= j < dedup_first(s).len() && dedup_first(s)[j] == x;
            if !s.drop_last().contains(s.last()) && j == dedup_first(s).len() - 1 {
                assert(x == s.last());
                assert(s[s.len() - 1] == x);
            } else {
                assert(dedup_first(s.drop_last()).contains(x));
                assert(s.drop_last().contains(x));
                let k = choose|k: int| 0 <= k < s.drop_last().len() && s.drop_last()[k] == x;
                assert(s[k] == x);
            }
        }
    }
}

} // verus!
