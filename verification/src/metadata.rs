//! Descriptions of declaratively defined UI components: their fields,
//! events, accessors, and visibility, as recorded in a crate's exported
//! component metadata.

use vstd::prelude::*;

verus! {

/// The name of an item.
pub type Ident = String;

/// The root of an absolute path.
#[derive(Debug, Clone, Copy, PartialEq, Eq, Structural)]
pub enum PathRoot {
    Crate,
}

/// The absolute path to an item.
#[derive(Debug, Clone)]
pub struct Path {
    pub root: PathRoot,
    pub idents: Vec<Ident>,
}

/// The borrowed version of [`Path`]: the prefix of length `len` of a
/// borrowed identifier list.
#[derive(Debug, Clone, Copy)]
pub struct PathRef<'a> {
    root: PathRoot,
    idents: &'a Vec<Ident>,
    len: usize,
}

/// The visibility of an item.
#[derive(Debug, Clone)]
pub enum Visibility {
    Private,
    /// Visible within the named module of the current crate.
    Restricted(Path),
    Public,
}

/// The borrowed version of [`Visibility`].
#[derive(Debug, Clone)]
pub enum VisibilityRef<'a> {
    Private,
    Restricted(PathRef<'a>),
    Public,
}

/// The mathematical value of a visibility: private, restricted to a
/// path given by its root and identifiers, or public.
pub enum VisModel {
    Private,
    Restricted(PathRoot, Seq<Seq<char>>),
    Public,
}

impl Path {
    /// The identifiers of the path, as sequences of characters.
    pub open spec fn spec_idents(self) -> Seq<Seq<char>> {
        self.idents.deep_view()
    }

    pub fn as_ref(&self) -> (r: PathRef<'_>)
        ensures
            r.wf(),
            r.spec_root() == self.root,
            r.spec_idents() == self.spec_idents(),
    {
        PathRef { root: self.root, idents: &self.idents, len: self.idents.len() }
    }
}

/// The length of the longest common prefix of two identifier lists.
pub open spec fn common_prefix_len(a: Seq<Seq<char>>, b: Seq<Seq<char>>) -> int
    decreases a.len(),
{
    if a.len() == 0 || b.len() == 0 || a[0] != b[0] {
        0
    } else {
        1 + common_prefix_len(a.skip(1), b.skip(1))
    }
}

/// The longest common prefix is characterized by agreement below its
/// length and disagreement (or exhaustion) at it.
pub proof fn lemma_common_prefix_len(a: Seq<Seq<char>>, b: Seq<Seq<char>>, n: int)
    requires
        0 <= n <= a.len(),
        n <= b.len(),
        forall|q: int| 0 <= q < n ==> a[q] == b[q],
        n == a.len() || n == b.len() || a[n] != b[n],
    ensures
        common_prefix_len(a, b) == n,
    decreases n,
{
    if n == 0 {
    } else {
        assert(a[0] == b[0]);
        let a2 = a.skip(1);
        let b2 = b.skip(1);
        assert(forall|q: int| 0 <= q < n - 1 ==> a2[q] == b2[q] && a2[q] == a[q + 1]);
        if n - 1 < a2.len() && n - 1 < b2.len() {
            assert(a2[n - 1] == a[n as int] && b2[n - 1] == b[n as int]);
        }
        lemma_common_prefix_len(a2, b2, n - 1);
    }
}

impl<'a> PathRef<'a> {
    /// The designated prefix stays within the borrowed list.
    pub closed spec fn wf(self) -> bool {
        self.len <= self.idents@.len()
    }

    /// The root of the path.
    pub closed spec fn spec_root(self) -> PathRoot {
        self.root
    }

    /// The identifiers of the path, as sequences of characters.
    pub closed spec fn spec_idents(self) -> Seq<Seq<char>> {
        self.idents.deep_view().take(self.len as int)
    }

    pub fn to_owned(&self) -> (r: Path)
        requires
            self.wf(),
        ensures
            r.root == self.spec_root(),
            r.spec_idents() == self.spec_idents(),
    {
        let mut idents: Vec<Ident> = Vec::new();
        let mut j: usize = 0;
        while j < self.len
            invariant
                self.wf(),
                0 <= j <= self.len,
                idents@.len() == j,
                idents.deep_view() == self.idents.deep_view().take(j as int),
            decreases self.len - j,
        {
            let ghost prev = idents@;
            let ghost prev_dv = idents.deep_view();
            let cloned = self.idents[j].clone();
            proof {
                assert(cloned@ == self.idents@[j as int]@);
            }
            idents.push(cloned);
            proof {
                assert(idents@.len() == j + 1);
                assert forall|q: int| 0 <= q < j + 1 implies idents.deep_view()[q]
                    == self.idents.deep_view()[q] by {
                    assert(idents.deep_view()[q] == idents@[q]@);
                    if q < j {
                        assert(idents@[q] == prev[q]);
                        assert(prev_dv[q] == prev[q]@);
                        assert(prev_dv[q] == self.idents.deep_view().take(j as int)[q]);
                    } else {
                        assert(idents@[q]@ == self.idents@[j as int]@);
                        assert(self.idents.deep_view()[q] == self.idents@[q]@);
                    }
                }
                assert(idents.deep_view() =~= self.idents.deep_view().take(j + 1));
            }
            j = j + 1;
        }
        proof {
            assert(idents.deep_view() =~= self.spec_idents());
        }
        Path { root: self.root, idents }
    }

    /// The path with its last identifier removed; `None` at the root.
    pub fn parent(&self) -> (r: Option<PathRef<'a>>)
        requires
            self.wf(),
        ensures
            self.spec_idents().len() == 0 <==> r is None,
            r matches Some(p) ==> p.wf() && p.spec_root() == self.spec_root() && p.spec_idents()
                == self.spec_idents().drop_last(),
    {
        if self.len == 0 {
            None
        } else {
            let p = PathRef { root: self.root, idents: self.idents, len: self.len - 1 };
            proof {
                assert(p.spec_idents() =~= self.spec_idents().drop_last());
            }
            Some(p)
        }
    }

    /// Whether `other` is a prefix of `self` with the same root.
    pub fn starts_with(&self, other: &PathRef<'_>) -> (r: bool)
        requires
            self.wf(),
            other.wf(),
        ensures
            r == (self.spec_root() == other.spec_root() && other.spec_idents().is_prefix_of(
                self.spec_idents(),
            )),
    {
        match (self.root, other.root) {
            (PathRoot::Crate, PathRoot::Crate) => {},
        }
        if other.len > self.len {
            proof {
                assert(!other.spec_idents().is_prefix_of(self.spec_idents()));
            }
            return false;
        }
        let mut j: usize = 0;
        while j < other.len
            invariant
                self.wf(),
                other.wf(),
                other.len <= self.len,
                0 <= j <= other.len,
                forall|q: int| 0 <= q < j ==> self.spec_idents()[q] == other.spec_idents()[q],
            decreases other.len - j,
        {
            if !string_eq(&self.idents[j], &other.idents[j]) {
                proof {
                    assert(self.spec_idents()[j as int] != other.spec_idents()[j as int]);
                    assert(!other.spec_idents().is_prefix_of(self.spec_idents()));
                }
                return false;
            }
            j = j + 1;
        }
        proof {
            assert(other.spec_idents() =~= self.spec_idents().take(other.len as int));
        }
        true
    }

    /// The longest path of which both `self` and `other` are
    /// extensions; `None` when the roots differ.
    pub fn lowest_common_ancestor(&self, other: &Self) -> (r: Option<Self>)
        requires
            self.wf(),
            other.wf(),
        ensures
            self.spec_root() == other.spec_root() <==> r is Some,
            r matches Some(p) ==> p.wf() && p.spec_root() == self.spec_root() && p.spec_idents()
                == self.spec_idents().take(
                common_prefix_len(self.spec_idents(), other.spec_idents()),
            ),
    {
        match (self.root, other.root) {
            (PathRoot::Crate, PathRoot::Crate) => {},
        }
        let n = if self.len < other.len {
            self.len
        } else {
            other.len
        };
        let mut j: usize = 0;
        while j < n
            invariant
                self.wf(),
                other.wf(),
                n <= self.len,
                n <= other.len,
                0 <= j <= n,
                forall|q: int| 0 <= q < j ==> self.spec_idents()[q] == other.spec_idents()[q],
            decreases n - j,
        {
            if !string_eq(&self.idents[j], &other.idents[j]) {
                proof {
                    lemma_common_prefix_len(self.spec_idents(), other.spec_idents(), j as int);
                }
                return Some(PathRef { root: self.root, idents: self.idents, len: j });
            }
            j = j + 1;
        }
        proof {
            lemma_common_prefix_len(self.spec_idents(), other.spec_idents(), n as int);
        }
        Some(PathRef { root: self.root, idents: self.idents, len: n })
    }
}

/// Compare two identifiers by their characters.
fn string_eq(a: &String, b: &String) -> (r: bool)
    ensures
        r == (a@ == b@),
{
    a.eq(b)
}

impl Visibility {
    /// The mathematical value of this visibility.
    pub open spec fn model(self) -> VisModel {
        match self {
            Visibility::Private => VisModel::Private,
            Visibility::Restricted(p) => VisModel::Restricted(p.root, p.spec_idents()),
            Visibility::Public => VisModel::Public,
        }
    }

    pub fn as_ref(&self) -> (r: VisibilityRef<'_>)
        ensures
            r.wf(),
            r.model() == self.model(),
    {
        match self {
            Visibility::Private => VisibilityRef::Private,
            Visibility::Restricted(p) => VisibilityRef::Restricted(p.as_ref()),
            Visibility::Public => VisibilityRef::Public,
        }
    }
}

/// The meet of two visibilities: the strictest of the two, restricted
/// paths meeting in their lowest common ancestor.
pub open spec fn vis_meet(a: VisModel, b: VisModel) -> VisModel {
    match (a, b) {
        (VisModel::Private, _) => VisModel::Private,
        (_, VisModel::Private) => VisModel::Private,
        (VisModel::Restricted(r, p), VisModel::Public) => VisModel::Restricted(r, p),
        (VisModel::Public, VisModel::Restricted(r, p)) => VisModel::Restricted(r, p),
        (VisModel::Restricted(r1, p1), VisModel::Restricted(r2, p2)) => {
            if r1 == r2 {
                VisModel::Restricted(r1, p1.take(common_prefix_len(p1, p2)))
            } else {
                VisModel::Private
            }
        },
        (VisModel::Public, VisModel::Public) => VisModel::Public,
    }
}

impl<'a> VisibilityRef<'a> {
    /// Any restricted path is well formed.
    pub open spec fn wf(self) -> bool {
        self matches VisibilityRef::Restricted(p) ==> p.wf()
    }

    /// The mathematical value of this visibility.
    pub open spec fn model(self) -> VisModel {
        match self {
            VisibilityRef::Private => VisModel::Private,
            VisibilityRef::Restricted(p) => VisModel::Restricted(p.spec_root(), p.spec_idents()),
            VisibilityRef::Public => VisModel::Public,
        }
    }

    /// The strictest of two visibilities.
    pub fn strictest(self, other: Self) -> (r: Self)
        requires
            self.wf(),
            other.wf(),
        ensures
            r.wf(),
            r.model() == vis_meet(self.model(), other.model()),
    {
        match (self, other) {
            (Self::Private, _) => Self::Private,
            (_, Self::Private) => Self::Private,
            (Self::Restricted(p), Self::Public) => Self::Restricted(p),
            (Self::Public, Self::Restricted(p)) => Self::Restricted(p),
            (Self::Restricted(p1), Self::Restricted(p2)) => {
                if let Some(p) = p1.lowest_common_ancestor(&p2) {
                    Self::Restricted(p)
                } else {
                    Self::Private
                }
            },
            (Self::Public, Self::Public) => Self::Public,
        }
    }
}

/// Attributes of a component definition.
#[derive(Debug, Clone, Copy, PartialEq, Eq, Structural)]
pub struct CompFlags {
    /// Do not generate implementation code.
    pub prototype_only: bool,
    /// The component represents a widget.
    pub widget: bool,
}

/// Attributes of a field definition.
#[derive(Debug, Clone, Copy, PartialEq, Eq, Structural)]
pub struct FieldFlags {
    pub inject: bool,
    /// Only valid on constant fields.
    pub optional: bool,
}

/// The kind of a component field.
#[derive(Debug, PartialEq, Eq, Clone, Copy, Structural)]
pub enum FieldType {
    Prop,
    Const,
    Wire,
}

/// References a component definition within its crate.
pub type CompRef = usize;

/// The setter accessor of a field.
#[derive(Debug, Clone)]
pub struct FieldSetter {
    pub vis: Visibility,
}

/// How a getter hands the field value out.
#[derive(Debug, Clone, Copy)]
pub enum FieldGetMode {
    /// The getter returns a borrow of the value.
    Borrow,
    /// The getter returns a copy of the value.
    Clone,
}

/// The getter accessor of a field.
#[derive(Debug, Clone)]
pub struct FieldGetter {
    pub vis: Visibility,
    pub mode: FieldGetMode,
}

/// The watcher accessor of a field; `event` names an event of the same
/// component.
#[derive(Debug, Clone)]
pub struct FieldWatcher {
    pub vis: Visibility,
    pub event: Ident,
}

/// The accessors a field offers.
#[derive(Debug, Clone)]
pub struct FieldAccessors {
    /// Valid only for props.
    pub set: Option<FieldSetter>,
    /// Valid for all field kinds.
    pub get: Option<FieldGetter>,
    /// Valid only for props and wires.
    pub watch: Option<FieldWatcher>,
}

/// One field of a component.
#[derive(Debug, Clone)]
pub struct FieldDef {
    pub field_ty: FieldType,
    pub flags: FieldFlags,
    pub ident: Ident,
    pub accessors: FieldAccessors,
    /// `Some` if the field type refers to a component.
    pub ty: Option<CompRef>,
}

/// One event of a component.
#[derive(Debug, Clone)]
pub struct EventDef {
    pub vis: Visibility,
    pub ident: Ident,
    pub inputs: Vec<Ident>,
}

/// One item of a component: a field or an event.
#[derive(Debug, Clone)]
pub enum CompItemDef {
    Field(FieldDef),
    Event(EventDef),
}

/// One component definition.
#[derive(Debug, Clone)]
pub struct CompDef {
    pub flags: CompFlags,
    pub vis: Visibility,
    /// The paths of the component's type; a component can have aliases.
    pub paths: Vec<Path>,
    pub items: Vec<CompItemDef>,
}

/// The component definitions exported by one crate.
#[derive(Debug, Clone)]
pub struct Crate {
    pub comps: Vec<CompDef>,
}

/// Compare two names by their characters. Relies on the `PartialEq`
/// implementation of `str`, which compares the underlying text.
#[verifier::external_body]
fn str_eq(a: &str, b: &str) -> (r: bool)
    ensures
        r == (a@ == b@),
{
    a == b
}

impl CompItemDef {
    /// The name of the item.
    pub open spec fn spec_ident(self) -> Seq<char> {
        match self {
            CompItemDef::Field(f) => f.ident@,
            CompItemDef::Event(e) => e.ident@,
        }
    }

    /// The event this item defines, if it is one.
    pub fn event(&self) -> (r: Option<&EventDef>)
        ensures
            r is Some <==> self is Event,
            r matches Some(e) ==> *self == CompItemDef::Event(*e),
    {
        match self {
            CompItemDef::Event(e) => Some(e),
            CompItemDef::Field(_) => None,
        }
    }

    /// The name of the item.
    pub fn ident(&self) -> (r: &Ident)
        ensures
            r@ == self.spec_ident(),
    {
        match self {
            CompItemDef::Field(f) => &f.ident,
            CompItemDef::Event(e) => &e.ident,
        }
    }
}

/// Whether an item constrains the visibility of the component's builder:
/// a constant, non-optional field with a setter must be settable by
/// whoever builds the component.
pub open spec fn constrains_builder(item: CompItemDef) -> bool {
    &&& item matches CompItemDef::Field(f)
    &&& f.field_ty == FieldType::Const
    &&& !f.flags.optional
    &&& f.accessors.set is Some
}

/// The visibility such an item demands of the builder.
pub open spec fn builder_constraint(item: CompItemDef) -> VisModel
    recommends
        constrains_builder(item),
{
    match item {
        CompItemDef::Field(f) => f.accessors.set.unwrap().vis.model(),
        CompItemDef::Event(_) => VisModel::Public,
    }
}

/// The meet of the builder constraints of a list of items, starting
/// from public.
pub open spec fn fold_builder_vis(items: Seq<CompItemDef>) -> VisModel
    decreases items.len(),
{
    if items.len() == 0 {
        VisModel::Public
    } else {
        let rest = fold_builder_vis(items.drop_last());
        if constrains_builder(items.last()) {
            vis_meet(rest, builder_constraint(items.last()))
        } else {
            rest
        }
    }
}

impl CompDef {
    /// The widest visibility the component's builder type can usefully
    /// have: anything wider could not set some mandatory constant field.
    pub fn builder_vis(&self) -> (r: VisibilityRef<'_>)
        ensures
            r.wf(),
            r.model() == fold_builder_vis(self.items@),
    {
        let n = self.items.len();
        let mut acc = VisibilityRef::Public;
        let mut j: usize = 0;
        while j < n
            invariant
                n == self.items@.len(),
                0 <= j <= n,
                acc.wf(),
                acc.model() == fold_builder_vis(self.items@.take(j as int)),
            decreases n - j,
        {
            proof {
                assert(self.items@.take(j + 1).drop_last() =~= self.items@.take(j as int));
                assert(self.items@.take(j + 1).last() == self.items@[j as int]);
            }
            let item = &self.items[j];
            match item {
                CompItemDef::Field(f) => {
                    if matches!(f.field_ty, FieldType::Const) && !f.flags.optional {
                        if let Some(setter) = &f.accessors.set {
                            acc = acc.strictest(setter.vis.as_ref());
                        }
                    }
                },
                CompItemDef::Event(_) => {},
            }
            j = j + 1;
        }
        proof {
            assert(self.items@.take(n as int) =~= self.items@);
        }
        acc
    }

    /// The first item with the given name, with its position.
    pub fn find_item_by_ident(&self, ident: &str) -> (r: Option<(usize, &CompItemDef)>)
        ensures
            r matches Some((i, item)) ==> {
                &&& i < self.items@.len()
                &&& *item == self.items@[i as int]
                &&& self.items@[i as int].spec_ident() == ident@
                &&& forall|q: int| 0 <= q < i ==> self.items@[q].spec_ident() != ident@
            },
            r is None ==> forall|q: int|
                0 <= q < self.items@.len() ==> self.items@[q].spec_ident() != ident@,
    {
        let n = self.items.len();
        let mut j: usize = 0;
        while j < n
            invariant
                n == self.items@.len(),
                0 <= j <= n,
                forall|q: int| 0 <= q < j ==> self.items@[q].spec_ident() != ident@,
            decreases n - j,
        {
            let item = &self.items[j];
            if str_eq(item.ident().as_str(), ident) {
                return Some((j, item));
            }
            j = j + 1;
        }
        None
    }
}

} // verus!
