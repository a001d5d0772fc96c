//! Hierarchical actor addresses and the automaton that governs how an
//! address may grow.
//!
//! A `BastionPath` is a chain of identifiers ending, except at the system
//! root, in a kinded element: a supervisor, a children group, or a child.
//! `append` enforces the legal transitions: a supervisor may follow the root
//! or another supervisor, a children group may follow a supervisor, and a
//! child may follow a children group; nothing may follow a child.

use vstd::prelude::*;
use vstd::string::StringExecFns;

verus! {

/// Identifier of an actor, supervisor or children group: an opaque name.
#[derive(Debug)]
pub struct BastionId {
    name: String,
}

impl View for BastionId {
    type V = Seq<char>;

    closed spec fn view(&self) -> Seq<char> {
        self.name@
    }
}

impl BastionId {
    /// A fresh identifier; callers that need distinct identifiers supply
    /// names through `named`, the default name is empty.
    pub fn new() -> (r: BastionId)
        ensures
            r@ == Seq::<char>::empty(),
    {
        BastionId { name: String::new() }
    }

    /// An identifier carrying the given name.
    pub fn named(name: String) -> (r: BastionId)
        ensures
            r@ == name@,
    {
        BastionId { name }
    }

    /// The name of this identifier.
    pub fn as_str(&self) -> (r: &str)
        ensures
            r@ == self@,
    {
        self.name.as_str()
    }
}

impl Clone for BastionId {
    fn clone(&self) -> (r: BastionId)
        ensures
            r@ == self@,
    {
        BastionId { name: self.name.clone() }
    }
}

impl PartialEq for BastionId {
    fn eq(&self, other: &BastionId) -> (r: bool) {
        self.name == other.name
    }
}

impl vstd::std_specs::cmp::PartialEqSpecImpl for BastionId {
    open spec fn obeys_eq_spec() -> bool {
        true
    }

    open spec fn eq_spec(&self, other: &BastionId) -> bool {
        self@ == other@
    }
}

/// The kind of the element that terminates a path.
#[derive(Clone, Copy, Debug, PartialEq, Eq, Structural)]
pub enum ElementKind {
    Supervisor,
    Children,
    Child,
}

/// One element of a path: an identifier together with its kind.
#[derive(Debug)]
pub enum BastionPathElement {
    Supervisor(BastionId),
    Children(BastionId),
    Child(BastionId),
}

impl BastionPathElement {
    /// The identifier this element carries, in the model.
    pub open spec fn id_spec(&self) -> Seq<char> {
        match self {
            BastionPathElement::Supervisor(id) => id@,
            BastionPathElement::Children(id) => id@,
            BastionPathElement::Child(id) => id@,
        }
    }

    /// The kind of this element, in the model.
    pub open spec fn kind_spec(&self) -> ElementKind {
        match self {
            BastionPathElement::Supervisor(_) => ElementKind::Supervisor,
            BastionPathElement::Children(_) => ElementKind::Children,
            BastionPathElement::Child(_) => ElementKind::Child,
        }
    }

    /// The identifier this element carries.
    pub fn id(&self) -> (r: &BastionId)
        ensures
            r@ == self.id_spec(),
    {
        match self {
            BastionPathElement::Supervisor(id) => id,
            BastionPathElement::Children(id) => id,
            BastionPathElement::Child(id) => id,
        }
    }
}

impl Clone for BastionPathElement {
    fn clone(&self) -> (r: BastionPathElement)
        ensures
            r.kind_spec() == self.kind_spec(),
            r.id_spec() == self.id_spec(),
    {
        match self {
            BastionPathElement::Supervisor(id) => BastionPathElement::Supervisor(id.clone()),
            BastionPathElement::Children(id) => BastionPathElement::Children(id.clone()),
            BastionPathElement::Child(id) => BastionPathElement::Child(id.clone()),
        }
    }
}

/// A hierarchical actor address: the identifiers of all ancestors, and the
/// kinded element this path points at (`None` for the system root).
#[derive(Debug)]
pub struct BastionPath {
    parent_chain: Vec<BastionId>,
    this: Option<BastionPathElement>,
}

impl BastionPath {
    /// The identifiers of the ancestors, in order from the root.
    pub closed spec fn chain_ids(&self) -> Seq<Seq<char>> {
        self.parent_chain@.map_values(|id: BastionId| id@)
    }

    /// The kind of the terminal element, `None` at the root.
    pub closed spec fn this_kind(&self) -> Option<ElementKind> {
        match self.this {
            Some(el) => Some(el.kind_spec()),
            None => None,
        }
    }

    /// The identifier of the terminal element; meaningful only when
    /// `this_kind` is `Some`.
    pub closed spec fn this_id(&self) -> Seq<char> {
        match self.this {
            Some(el) => el.id_spec(),
            None => Seq::empty(),
        }
    }

    /// All identifiers on this path, ancestors first, terminal element last.
    pub open spec fn id_seq(&self) -> Seq<Seq<char>> {
        self.chain_ids() + if self.this_kind() is Some {
            seq![self.this_id()]
        } else {
            Seq::<Seq<char>>::empty()
        }
    }

    /// The automaton's transition relation: which element may legally be
    /// appended to this path.
    pub open spec fn can_append(&self, el: &BastionPathElement) -> bool {
        match (self.this_kind(), el.kind_spec()) {
            (Option::None, ElementKind::Supervisor) => true,
            (Option::Some(ElementKind::Supervisor), ElementKind::Supervisor) => true,
            (Option::Some(ElementKind::Supervisor), ElementKind::Children) => true,
            (Option::Some(ElementKind::Children), ElementKind::Child) => true,
            _ => false,
        }
    }

    /// Shapes reachable from the root by legal appends: a children group has
    /// at least a supervisor above it, a child additionally a children group.
    pub open spec fn wf(&self) -> bool {
        match self.this_kind() {
            Option::None => self.chain_ids().len() == 0,
            Option::Some(ElementKind::Supervisor) => true,
            Option::Some(ElementKind::Children) => self.chain_ids().len() >= 1,
            Option::Some(ElementKind::Child) => self.chain_ids().len() >= 2,
        }
    }

    /// The system root: the empty path.
    pub fn root() -> (r: BastionPath)
        ensures
            r.this_kind() is None,
            r.chain_ids() == Seq::<Seq<char>>::empty(),
            r.id_seq() == Seq::<Seq<char>>::empty(),
            r.wf(),
    {
        let r = BastionPath { parent_chain: Vec::new(), this: None };
        proof {
            assert(r.chain_ids() =~= Seq::<Seq<char>>::empty());
            assert(r.id_seq() =~= Seq::<Seq<char>>::empty());
        }
        r
    }

    /// All identifiers on this path, ancestors first, terminal element last.
    pub fn iter(&self) -> (r: Vec<BastionId>)
        ensures
            r@.map_values(|id: BastionId| id@) == self.id_seq(),
            r@.len() == self.id_seq().len(),
    {
        let mut out: Vec<BastionId> = Vec::new();
        let mut i: usize = 0;
        while i < self.parent_chain.len()
            invariant
                i <= self.parent_chain.len(),
                out@.len() == i,
                out@.map_values(|id: BastionId| id@) == self.chain_ids().take(i as int),
            decreases self.parent_chain.len() - i,
        {
            out.push(self.parent_chain[i].clone());
            proof {
                assert(out@.map_values(|id: BastionId| id@) =~= self.chain_ids().take(
                    i as int + 1,
                ));
            }
            i = i + 1;
        }
        proof {
            assert(self.chain_ids().take(self.parent_chain@.len() as int) =~= self.chain_ids());
        }
        match &self.this {
            Some(el) => {
                out.push(el.id().clone());
                proof {
                    assert(out@.map_values(|id: BastionId| id@) =~= self.id_seq());
                }
            },
            None => {
                proof {
                    assert(out@.map_values(|id: BastionId| id@) =~= self.id_seq());
                }
            },
        }
        out
    }
}

impl Clone for BastionPath {
    fn clone(&self) -> (r: BastionPath)
        ensures
            r.chain_ids() == self.chain_ids(),
            r.this_kind() == self.this_kind(),
            r.this_id() == self.this_id(),
            r.id_seq() == self.id_seq(),
    {
        let chain = self.parent_chain.clone();
        proof {
            assert(chain@.map_values(|id: BastionId| id@) =~= self.chain_ids());
        }
        let this = match &self.this {
            Some(el) => Some(el.clone()),
            None => None,
        };
        let r = BastionPath { parent_chain: chain, this };
        proof {
            assert(r.id_seq() =~= self.id_seq());
        }
        r
    }
}

/// An append the automaton rejects; carries the path as it was and the
/// element that was refused.
#[derive(Debug, Clone)]
pub struct AppendError {
    pub path: BastionPath,
    pub element: BastionPathElement,
}

impl BastionPath {
    /// Grow the path by one element, when the automaton allows it: a
    /// supervisor after the root or a supervisor, a children group after a
    /// supervisor, a child after a children group. On success the previous
    /// terminal identifier joins the ancestor chain and the new element
    /// becomes terminal; on rejection the error returns the path unchanged
    /// together with the offending element.
    pub fn append(self, el: BastionPathElement) -> (r: Result<BastionPath, AppendError>)
        ensures
            r is Ok <==> self.can_append(&el),
            r is Ok ==> r->Ok_0.id_seq() == self.id_seq() + seq![el.id_spec()],
            r is Ok ==> r->Ok_0.chain_ids() == self.id_seq(),
            r is Ok ==> r->Ok_0.this_kind() == Some(el.kind_spec()),
            r is Ok ==> r->Ok_0.this_id() == el.id_spec(),
            r is Ok && self.wf() ==> r->Ok_0.wf(),
            r is Err ==> r->Err_0.path.chain_ids() == self.chain_ids(),
            r is Err ==> r->Err_0.path.this_kind() == self.this_kind(),
            r is Err ==> r->Err_0.path.this_id() == self.this_id(),
            r is Err ==> r->Err_0.path.id_seq() == self.id_seq(),
            r is Err ==> r->Err_0.element.kind_spec() == el.kind_spec(),
            r is Err ==> r->Err_0.element.id_spec() == el.id_spec(),
    {
        let ghost old_self = self;
        match el {
            BastionPathElement::Supervisor(sv_id) => match self.this {
                None => {
                    let r = BastionPath {
                        parent_chain: self.parent_chain,
                        this: Some(BastionPathElement::Supervisor(sv_id)),
                    };
                    proof {
                        assert(r.id_seq() =~= old_self.id_seq() + seq![r.this_id()]);
                        assert(r.chain_ids() =~= old_self.id_seq());
                    }
                    Ok(r)
                },
                Some(BastionPathElement::Supervisor(prev_id)) => {
                    let mut path = BastionPath {
                        parent_chain: self.parent_chain,
                        this: Some(BastionPathElement::Supervisor(sv_id)),
                    };
                    path.parent_chain.push(prev_id);
                    proof {
                        assert(path.chain_ids() =~= old_self.id_seq());
                        assert(path.id_seq() =~= old_self.id_seq() + seq![path.this_id()]);
                    }
                    Ok(path)
                },
                this => Err(AppendError {
                    path: BastionPath { parent_chain: self.parent_chain, this },
                    element: BastionPathElement::Supervisor(sv_id),
                }),
            },
            BastionPathElement::Children(ch_id) => match self.this {
                Some(BastionPathElement::Supervisor(prev_id)) => {
                    let mut path = BastionPath {
                        parent_chain: self.parent_chain,
                        this: Some(BastionPathElement::Children(ch_id)),
                    };
                    path.parent_chain.push(prev_id);
                    proof {
                        assert(path.chain_ids() =~= old_self.id_seq());
                        assert(path.id_seq() =~= old_self.id_seq() + seq![path.this_id()]);
                    }
                    Ok(path)
                },
                this => Err(AppendError {
                    path: BastionPath { parent_chain: self.parent_chain, this },
                    element: BastionPathElement::Children(ch_id),
                }),
            },
            BastionPathElement::Child(c_id) => match self.this {
                Some(BastionPathElement::Children(prev_id)) => {
                    let mut path = BastionPath {
                        parent_chain: self.parent_chain,
                        this: Some(BastionPathElement::Child(c_id)),
                    };
                    path.parent_chain.push(prev_id);
                    proof {
                        assert(path.chain_ids() =~= old_self.id_seq());
                        assert(path.id_seq() =~= old_self.id_seq() + seq![path.this_id()]);
                    }
                    Ok(path)
                },
                this => Err(AppendError {
                    path: BastionPath { parent_chain: self.parent_chain, this },
                    element: BastionPathElement::Child(c_id),
                }),
            },
        }
    }
}

/// The textual body of a sequence of segments: `/seg1/seg2/.../segN`, empty
/// when there are no segments.
pub open spec fn rendered(segs: Seq<Seq<char>>) -> Seq<char>
    decreases segs.len(),
{
    if segs.len() == 0 {
        Seq::empty()
    } else {
        "/"@ + segs.first() + rendered(segs.drop_first())
    }
}

/// The display form of a path with the given identifiers: `/` at the root,
/// `/id1/id2/.../idN` otherwise.
pub open spec fn display_of(segs: Seq<Seq<char>>) -> Seq<char> {
    if segs.len() == 0 {
        "/"@
    } else {
        rendered(segs)
    }
}

proof fn lemma_rendered_snoc(segs: Seq<Seq<char>>, seg: Seq<char>)
    ensures
        rendered(segs.push(seg)) == rendered(segs) + "/"@ + seg,
    decreases segs.len(),
{
    if segs.len() == 0 {
        assert(segs.push(seg).drop_first() =~= Seq::<Seq<char>>::empty());
        assert(rendered(Seq::<Seq<char>>::empty()) == Seq::<char>::empty());
        assert(rendered(segs.push(seg)) == "/"@ + seg + Seq::<char>::empty());
        assert(rendered(segs.push(seg)) =~= rendered(segs) + "/"@ + seg);
    } else {
        assert(segs.push(seg).first() == segs.first());
        assert(segs.push(seg).drop_first() =~= segs.drop_first().push(seg));
        lemma_rendered_snoc(segs.drop_first(), seg);
        assert(rendered(segs.push(seg)) == "/"@ + segs.first() + rendered(
            segs.drop_first().push(seg),
        ));
        assert(rendered(segs.drop_first().push(seg)) == rendered(segs.drop_first()) + "/"@
            + seg);
        assert("/"@ + segs.first() + (rendered(segs.drop_first()) + "/"@ + seg) =~= rendered(
            segs,
        ) + "/"@ + seg);
    }
}

impl BastionPath {
    /// The display form: `/` at the root, the identifiers joined by `/` and
    /// led by `/` otherwise.
    pub fn display_string(&self) -> (r: String)
        ensures
            r@ == display_of(self.id_seq()),
    {
        let ids = self.iter();
        let ghost segs = self.id_seq();
        if ids.len() == 0 {
            return String::from_str("/");
        }
        let mut s = String::new();
        let mut i: usize = 0;
        while i < ids.len()
            invariant
                i <= ids@.len(),
                ids@.map_values(|id: BastionId| id@) == segs,
                ids@.len() == segs.len(),
                s@ == rendered(segs.take(i as int)),
            decreases ids@.len() - i,
        {
            s.append("/");
            s.append(ids[i].as_str());
            proof {
                assert(segs.take(i as int + 1) =~= segs.take(i as int).push(segs[i as int]));
                lemma_rendered_snoc(segs.take(i as int), segs[i as int]);
            }
            i = i + 1;
        }
        proof {
            assert(segs.take(segs.len() as int) =~= segs);
        }
        s
    }
}

/// The tag that the debug form puts before a supervisor's identifier.
pub open spec fn supervisor_tag() -> Seq<char> {
    "supervisor#"@
}

/// The tag that the debug form puts before a children group's identifier.
pub open spec fn children_tag() -> Seq<char> {
    "children#"@
}

/// The tag that the debug form puts before a child's identifier.
pub open spec fn child_tag() -> Seq<char> {
    "child#"@
}

impl BastionPath {
    /// The segments of the debug form, each identifier prefixed with its
    /// inferred kind: ancestors of a supervisor or children group are all
    /// supervisors; the parent of a child is a children group and its
    /// further ancestors supervisors.
    pub open spec fn debug_segments(&self) -> Seq<Seq<char>> {
        match self.this_kind() {
            Option::None => Seq::empty(),
            Option::Some(ElementKind::Supervisor) => self.chain_ids().map_values(
                |id: Seq<char>| supervisor_tag() + id,
            ).push(supervisor_tag() + self.this_id()),
            Option::Some(ElementKind::Children) => self.chain_ids().map_values(
                |id: Seq<char>| supervisor_tag() + id,
            ).push(children_tag() + self.this_id()),
            Option::Some(ElementKind::Child) => Seq::new(
                self.chain_ids().len(),
                |i: int|
                    if i + 1 == self.chain_ids().len() {
                        children_tag() + self.chain_ids()[i]
                    } else {
                        supervisor_tag() + self.chain_ids()[i]
                    },
            ).push(child_tag() + self.this_id()),
        }
    }

    /// The debug form: `/` at the root, otherwise the display form with each
    /// identifier prefixed by its inferred kind tag.
    pub fn debug_string(&self) -> (r: String)
        ensures
            r@ == display_of(self.debug_segments()),
    {
        let ghost segs = self.debug_segments();
        match &self.this {
            None => String::from_str("/"),
            Some(el) => {
                let is_child = match el {
                    BastionPathElement::Child(_) => true,
                    _ => false,
                };
                let mut s = String::new();
                let mut i: usize = 0;
                while i < self.parent_chain.len()
                    invariant
                        i <= self.parent_chain@.len(),
                        self.this_kind() is Some,
                        is_child == (self.this_kind() == Some(ElementKind::Child)),
                        segs == self.debug_segments(),
                        self.parent_chain@.len() + 1 == segs.len(),
                        s@ == rendered(segs.take(i as int)),
                    decreases self.parent_chain@.len() - i,
                {
                    s.append("/");
                    if is_child && i + 1 == self.parent_chain.len() {
                        s.append("children#");
                    } else {
                        s.append("supervisor#");
                    }
                    s.append(self.parent_chain[i].as_str());
                    proof {
                        assert(segs.take(i as int + 1) =~= segs.take(i as int).push(
                            segs[i as int],
                        ));
                        lemma_rendered_snoc(segs.take(i as int), segs[i as int]);
                        assert(s@ == rendered(segs.take(i as int + 1)));
                    }
                    i = i + 1;
                }
                s.append("/");
                match el {
                    BastionPathElement::Supervisor(_) => s.append("supervisor#"),
                    BastionPathElement::Children(_) => s.append("children#"),
                    BastionPathElement::Child(_) => s.append("child#"),
                }
                s.append(el.id().as_str());
                proof {
                    assert(segs =~= segs.take(segs.len() - 1).push(segs.last()));
                    lemma_rendered_snoc(segs.take(segs.len() - 1), segs.last());
                    assert(segs.take(self.parent_chain@.len() as int) =~= segs.take(
                        segs.len() - 1,
                    ));
                }
                s
            },
        }
    }
}

/// Index of the first `/` in `s`, or `s.len()` if there is none.
pub open spec fn first_slash(s: Seq<char>) -> int
    decreases s.len(),
{
    if s.len() == 0 {
        0
    } else if s.first() == '/' {
        0
    } else {
        1 + first_slash(s.drop_first())
    }
}

/// The segments between the `/` separators of `s`, reading `s` as
/// `/seg1/seg2/.../segN`.
pub open spec fn slash_split(s: Seq<char>) -> Seq<Seq<char>>
    decreases s.len(),
    via slash_split_decreases
{
    if s.len() == 0 {
        Seq::empty()
    } else {
        let rest = s.drop_first();
        let k = first_slash(rest);
        seq![rest.take(k)] + slash_split(rest.skip(k))
    }
}

#[via_fn]
proof fn slash_split_decreases(s: Seq<char>) {
    if s.len() != 0 {
        lemma_first_slash_bounds(s.drop_first());
    }
}

proof fn lemma_first_slash_bounds(s: Seq<char>)
    ensures
        0 <= first_slash(s) <= s.len(),
    decreases s.len(),
{
    if s.len() == 0 {
    } else if s.first() == '/' {
    } else {
        lemma_first_slash_bounds(s.drop_first());
    }
}

proof fn lemma_first_slash_concat(a: Seq<char>, b: Seq<char>)
    requires
        !a.contains('/'),
        b.len() == 0 || b.first() == '/',
    ensures
        first_slash(a + b) == a.len(),
    decreases a.len(),
{
    if a.len() == 0 {
        assert(a + b =~= b);
    } else {
        assert(a[0] == a.first());
        assert(a.first() != '/') by {
            if a.first() == '/' {
                assert(a[0] == '/');
                assert(a.contains('/'));
            }
        }
        assert((a + b).first() == a.first());
        assert((a + b).drop_first() =~= a.drop_first() + b);
        assert(!a.drop_first().contains('/')) by {
            if a.drop_first().contains('/') {
                let i = choose|i: int|
                    0 <= i < a.drop_first().len() && a.drop_first()[i] == '/';
                assert(a[i + 1] == '/');
                assert(a.contains('/'));
            }
        }
        lemma_first_slash_concat(a.drop_first(), b);
    }
}

proof fn lemma_rendered_first_slash(segs: Seq<Seq<char>>)
    requires
        segs.len() > 0,
    ensures
        rendered(segs).len() > 0,
        rendered(segs).first() == '/',
    decreases segs.len(),
{
    reveal_strlit("/");
    assert(rendered(segs) == "/"@ + segs.first() + rendered(segs.drop_first()));
    assert(("/"@).len() == 1);
    assert(rendered(segs).first() == ("/"@)[0]);
}

/// The display form can be read back: for a non-root path whose identifiers
/// contain no `/`, splitting the display form on `/` yields exactly the
/// path's identifiers, in order.
pub proof fn lemma_display_round_trip(segs: Seq<Seq<char>>)
    requires
        segs.len() > 0,
        forall|i: int| 0 <= i < segs.len() ==> !(#[trigger] segs[i]).contains('/'),
    ensures
        slash_split(display_of(segs)) == segs,
    decreases segs.len(),
{
    reveal_strlit("/");
    let s = rendered(segs);
    let tail = rendered(segs.drop_first());
    lemma_rendered_first_slash(segs);
    assert(s == "/"@ + segs.first() + tail);
    assert(s.drop_first() =~= segs.first() + tail);
    if segs.len() > 1 {
        lemma_rendered_first_slash(segs.drop_first());
    }
    assert(!segs.first().contains('/')) by {
        assert(segs[0] == segs.first());
    }
    lemma_first_slash_concat(segs.first(), tail);
    let k = first_slash(s.drop_first());
    assert(k == segs.first().len());
    assert(s.drop_first().take(k) =~= segs.first());
    assert(s.drop_first().skip(k) =~= tail);
    if segs.len() == 1 {
        assert(tail =~= Seq::<char>::empty());
        assert(slash_split(tail) =~= Seq::<Seq<char>>::empty());
        assert(slash_split(s) == seq![s.drop_first().take(k)] + slash_split(
            s.drop_first().skip(k),
        ));
        assert(slash_split(s) =~= seq![segs.first()]);
        assert(slash_split(s) =~= segs);
    } else {
        assert(forall|i: int|
            0 <= i < segs.drop_first().len() ==> !(#[trigger] segs.drop_first()[i]).contains(
                '/',
            )) by {
            assert(forall|i: int|
                0 <= i < segs.drop_first().len() ==> segs.drop_first()[i] == segs[i + 1]);
        }
        lemma_display_round_trip(segs.drop_first());
        assert(slash_split(s) =~= seq![segs.first()] + slash_split(tail));
        assert(slash_split(s) =~= segs);
    }
}

/// For a non-root path whose identifiers contain no `/`, the identifiers
/// that `iter` produces are exactly the segments between the `/` separators
/// of the display form.
pub proof fn lemma_path_display_round_trip(p: &BastionPath)
    requires
        p.id_seq().len() > 0,
        forall|i: int| 0 <= i < p.id_seq().len() ==> !(#[trigger] p.id_seq()[i]).contains('/'),
    ensures
        slash_split(display_of(p.id_seq())) == p.id_seq(),
{
    lemma_display_round_trip(p.id_seq());
}

/// Nothing may follow a child: every append to a child-terminated path is
/// rejected by the automaton, whatever the element.
pub proof fn lemma_append_to_child_rejected(p: BastionPath, el: BastionPathElement)
    requires
        p.this_kind() == Some(ElementKind::Child),
    ensures
        !p.can_append(&el),
{
}

} // verus!
