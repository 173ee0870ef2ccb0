//! Paths as sequences of components.
//!
//! A path is held the way a file system reads it: repeated separators and inner `.`
//! are gone, and two paths are the same exactly when their components are.

use vstd::prelude::*;
use vstd::relations::*;

use crate::order::Comparison;
use crate::order::{compares, lemma_lex_le_is_total_ordering, lex_le, lex_le_at};

verus! {

/// One component of a path, with names of type `N`.
#[derive(Debug, PartialEq, Eq)]
pub enum Component<N> {
    /// A drive or share, as Windows paths may begin with.
    Prefix(N),
    /// The root directory.
    RootDir,
    /// A leading `.`.
    CurDir,
    /// A `..`.
    ParentDir,
    /// The name of a file or directory.
    Normal(N),
}

/// What a component means: its name is a sequence of bytes.
pub type PartView = Component<Seq<u8>>;

/// What a path means: the sequence of its components.
pub type PathView = Seq<PartView>;

impl Component<Vec<u8>> {
    pub open spec fn view(&self) -> PartView {
        match self {
            Component::Prefix(n) => Component::Prefix(n@),
            Component::RootDir => Component::RootDir,
            Component::CurDir => Component::CurDir,
            Component::ParentDir => Component::ParentDir,
            Component::Normal(n) => Component::Normal(n@),
        }
    }
}

/// The components that the sequence `s` holds.
pub open spec fn parts_view(s: Seq<Component<Vec<u8>>>) -> PathView {
    s.map_values(|c: Component<Vec<u8>>| c@)
}

/// Where a kind of component stands among the kinds.
pub open spec fn part_rank(p: PartView) -> int {
    match p {
        Component::Prefix(_) => 0,
        Component::RootDir => 1,
        Component::CurDir => 2,
        Component::ParentDir => 3,
        Component::Normal(_) => 4,
    }
}

/// The name that a component carries, empty where it carries none.
pub open spec fn part_name(p: PartView) -> Seq<u8> {
    match p {
        Component::Prefix(n) => n,
        Component::Normal(n) => n,
        _ => Seq::empty(),
    }
}

/// Bytes by value.
pub open spec fn byte_order() -> spec_fn(u8, u8) -> bool {
    |x: u8, y: u8| x <= y
}

/// Components by kind, then by name.
pub open spec fn part_le(p: PartView, q: PartView) -> bool {
    ||| part_rank(p) < part_rank(q)
    ||| part_rank(p) == part_rank(q) && lex_le(part_name(p), part_name(q), byte_order())
}

pub open spec fn part_order() -> spec_fn(PartView, PartView) -> bool {
    |p: PartView, q: PartView| part_le(p, q)
}

/// Paths component by component.
pub open spec fn path_le(a: PathView, b: PathView) -> bool {
    lex_le(a, b, part_order())
}

pub open spec fn path_order() -> spec_fn(PathView, PathView) -> bool {
    |a: PathView, b: PathView| path_le(a, b)
}

/// A name that can stand between two separators.
pub open spec fn valid_name(n: Seq<u8>) -> bool {
    &&& n.len() > 0
    &&& !n.contains(0x2f)
    &&& n != seq![0x2eu8]
    &&& n != seq![0x2eu8, 0x2eu8]
}

/// Component `i` of `p` may stand where it does.
pub open spec fn well_placed(p: PathView, i: int) -> bool {
    match p[i] {
        Component::Prefix(_) => i == 0,
        Component::RootDir | Component::CurDir => i == 0 || (i == 1 && p[0] is Prefix),
        Component::ParentDir => true,
        Component::Normal(n) => valid_name(n),
    }
}

/// `p` is how some path reads: a prefix, a root and a `.` only lead, and names are names.
pub open spec fn wf_path(p: PathView) -> bool {
    forall|i: int| 0 <= i < p.len() ==> #[trigger] well_placed(p, i)
}

/// `p` descends from wherever it is joined to, by names and `..` alone.
pub open spec fn descends(p: PathView) -> bool {
    forall|i: int| 0 <= i < p.len() ==> (#[trigger] p[i] is Normal || p[i] is ParentDir)
}

/// `b` as seen from `a`. A `b` with a prefix stands for itself; one with a root keeps only
/// the prefix of `a`; any other is appended, without its leading `.` unless that leads the
/// result too.
pub open spec fn join_view(a: PathView, b: PathView) -> PathView {
    if b.len() > 0 && b[0] is Prefix {
        b
    } else if b.len() > 0 && b[0] is RootDir {
        if a.len() > 0 && a[0] is Prefix {
            seq![a[0]] + b
        } else {
            b
        }
    } else if b.len() > 0 && b[0] is CurDir && a.len() > 0 && !(a.len() == 1 && a[0] is Prefix) {
        a + b.skip(1)
    } else {
        a + b
    }
}

/// The path without its last component. A path that ends in a root or a prefix, and the
/// empty path, have no parent.
pub open spec fn parent_view(p: PathView) -> Option<PathView> {
    if p.len() == 0 || p.last() is Prefix || p.last() is RootDir {
        None
    } else {
        Some(p.drop_last())
    }
}

pub proof fn lemma_byte_order_is_total()
    ensures
        total_ordering(byte_order()),
{
}

/// The order of components is total.
pub proof fn lemma_part_order_is_total()
    ensures
        total_ordering(part_order()),
{
    lemma_byte_order_is_total();
    let names = |m: Seq<u8>, n: Seq<u8>| lex_le(m, n, byte_order());
    lemma_lex_le_is_total_ordering(byte_order(), names);
    let le = part_order();
    assert forall|p: PartView| #[trigger] le(p, p) by {
        assert(names(part_name(p), part_name(p)));
    }
    assert forall|p: PartView, q: PartView| #[trigger] le(p, q) && #[trigger] le(q, p) implies p
        == q by {
        assert(names(part_name(p), part_name(q)) && names(part_name(q), part_name(p)));
    }
    assert forall|p: PartView, q: PartView, r: PartView| #[trigger] le(p, q) && #[trigger] le(
        q,
        r,
    ) implies le(p, r) by {
        if part_rank(p) == part_rank(r) {
            assert(names(part_name(p), part_name(q)) && names(part_name(q), part_name(r)));
            assert(names(part_name(p), part_name(r)));
        }
    }
    assert forall|p: PartView, q: PartView| #[trigger] le(p, q) || #[trigger] le(q, p) by {
        assert(names(part_name(p), part_name(q)) || names(part_name(q), part_name(p)));
    }
}

/// The order of paths is total.
pub proof fn lemma_path_order_is_total()
    ensures
        total_ordering(path_order()),
{
    lemma_part_order_is_total();
    lemma_lex_le_is_total_ordering(part_order(), path_order());
}

/// Compares two names byte by byte.
fn compare_names(a: &Vec<u8>, b: &Vec<u8>) -> (c: Comparison)
    ensures
        compares(c, a@, b@, |m: Seq<u8>, n: Seq<u8>| lex_le(m, n, byte_order())),
{
    let mut i: usize = 0;
    while i < a.len() && i < b.len()
        invariant
            i <= a.len(),
            i <= b.len(),
            forall|j: int| 0 <= j < i ==> a@[j] == b@[j],
        decreases a.len() - i,
    {
        if a[i] < b[i] {
            assert(lex_le_at(a@, b@, byte_order(), i as int));
            return Comparison::Before;
        }
        if b[i] < a[i] {
            assert(lex_le_at(b@, a@, byte_order(), i as int));
            return Comparison::After;
        }
        i += 1;
    }
    if i < b.len() {
        assert(lex_le_at(a@, b@, byte_order(), i as int));
        Comparison::Before
    } else if i < a.len() {
        assert(lex_le_at(b@, a@, byte_order(), i as int));
        Comparison::After
    } else {
        assert(a@ =~= b@);
        Comparison::Same
    }
}

impl Component<Vec<u8>> {
    /// The number of this kind of component.
    fn rank(&self) -> (r: u8)
        ensures
            r == part_rank(self@),
    {
        match self {
            Component::Prefix(_) => 0,
            Component::RootDir => 1,
            Component::CurDir => 2,
            Component::ParentDir => 3,
            Component::Normal(_) => 4,
        }
    }

    /// Compares two components by kind, then by name.
    fn compare(&self, other: &Self) -> (c: Comparison)
        ensures
            compares(c, self@, other@, part_order()),
    {
        let (r, s) = (self.rank(), other.rank());
        if r < s {
            return Comparison::Before;
        }
        if s < r {
            return Comparison::After;
        }
        match (self, other) {
            (Component::Prefix(m), Component::Prefix(n)) => compare_names(m, n),
            (Component::Normal(m), Component::Normal(n)) => compare_names(m, n),
            _ => Comparison::Same,
        }
    }
}

impl Clone for Component<Vec<u8>> {
    fn clone(&self) -> (r: Self)
        ensures
            r@ == self@,
    {
        match self {
            Component::Prefix(n) => {
                let m = n.clone();
                assert(m@ =~= n@);
                Component::Prefix(m)
            },
            Component::RootDir => Component::RootDir,
            Component::CurDir => Component::CurDir,
            Component::ParentDir => Component::ParentDir,
            Component::Normal(n) => {
                let m = n.clone();
                assert(m@ =~= n@);
                Component::Normal(m)
            },
        }
    }
}

/// Whether `n` can stand between two separators.
fn is_valid_name(n: &Vec<u8>) -> (r: bool)
    ensures
        r == valid_name(n@),
{
    let mut i: usize = 0;
    while i < n.len()
        invariant
            i <= n.len(),
            forall|j: int| 0 <= j < i ==> n@[j] != 0x2f,
        decreases n.len() - i,
    {
        if n[i] == 0x2f {
            assert(n@.contains(0x2f));
            return false;
        }
        i += 1;
    }
    if n.len() == 0 {
        return false;
    }
    if n.len() == 1 && n[0] == 0x2e {
        assert(n@ =~= seq![0x2eu8]);
        return false;
    }
    if n.len() == 2 && n[0] == 0x2e && n[1] == 0x2e {
        assert(n@ =~= seq![0x2eu8, 0x2eu8]);
        return false;
    }
    true
}

/// A path.
#[derive(Debug, PartialEq, Eq)]
pub struct SyncPath {
    parts: Vec<Component<Vec<u8>>>,
}

impl View for SyncPath {
    type V = PathView;

    closed spec fn view(&self) -> PathView {
        parts_view(self.parts@)
    }
}

impl Clone for SyncPath {
    fn clone(&self) -> (r: Self)
        ensures
            r@ == self@,
    {
        proof {
            use_type_invariant(self);
        }
        let mut parts: Vec<Component<Vec<u8>>> = Vec::new();
        append_parts(&mut parts, &self.parts, 0);
        assert(parts_view(parts@) =~= self@);
        SyncPath { parts }
    }
}

/// Appends the components of `from`, from position `start` on.
fn append_parts(
    to: &mut Vec<Component<Vec<u8>>>,
    from: &Vec<Component<Vec<u8>>>,
    start: usize,
)
    requires
        start <= from.len(),
    ensures
        parts_view(final(to)@) == parts_view(old(to)@) + parts_view(from@).skip(start as int),
{
    let ghost before = parts_view(to@);
    let mut i: usize = start;
    while i < from.len()
        invariant
            start <= i <= from.len(),
            parts_view(to@) == before + parts_view(from@).subrange(start as int, i as int),
        decreases from.len() - i,
    {
        let part = from[i].clone();
        let ghost held = to@;
        to.push(part);
        assert(parts_view(to@) =~= parts_view(held).push(part@));
        assert(parts_view(from@).subrange(start as int, i + 1) =~= parts_view(from@).subrange(
            start as int,
            i as int,
        ).push(parts_view(from@)[i as int]));
        assert(parts_view(to@) =~= before + parts_view(from@).subrange(start as int, i + 1));
        i += 1;
    }
    assert(parts_view(from@).skip(start as int) =~= parts_view(from@).subrange(
        start as int,
        i as int,
    ));
}

impl SyncPath {
    /// The components are how some path reads.
    #[verifier::type_invariant]
    pub open spec fn inv(&self) -> bool {
        wf_path(self@)
    }

    /// The empty path.
    pub fn empty() -> (r: SyncPath)
        ensures
            r@ == PathView::empty(),
            wf_path(r@),
    {
        let parts: Vec<Component<Vec<u8>>> = Vec::new();
        assert(parts_view(parts@) =~= PathView::empty());
        SyncPath { parts }
    }

    /// The path of these components, where they can be one.
    pub fn from_components(parts: Vec<Component<Vec<u8>>>) -> (r: Option<SyncPath>)
        ensures
            r is Some <==> wf_path(parts_view(parts@)),
            r matches Some(p) ==> p@ == parts_view(parts@),
    {
        let ghost v = parts_view(parts@);
        let mut i: usize = 0;
        while i < parts.len()
            invariant
                i <= parts.len(),
                v == parts_view(parts@),
                forall|j: int| 0 <= j < i ==> #[trigger] well_placed(v, j),
            decreases parts.len() - i,
        {
            let placed = match &parts[i] {
                Component::Prefix(_) => i == 0,
                Component::RootDir | Component::CurDir => i == 0 || (i == 1 && matches!(
                    parts[0],
                    Component::Prefix(_)
                )),
                Component::ParentDir => true,
                Component::Normal(n) => is_valid_name(n),
            };
            assert(v[i as int] == parts@[i as int]@ && v[0] == parts@[0]@);
            assert(placed == well_placed(v, i as int));
            if !placed {
                return None;
            }
            i += 1;
        }
        Some(SyncPath { parts })
    }

    /// The components, in order.
    pub fn components(&self) -> (r: &Vec<Component<Vec<u8>>>)
        ensures
            parts_view(r@) == self@,
            wf_path(self@),
    {
        proof {
            use_type_invariant(self);
        }
        &self.parts
    }

    /// Where this path stands relative to `other`.
    pub fn compare(&self, other: &SyncPath) -> (c: Comparison)
        ensures
            compares(c, self@, other@, path_order()),
            c is Same <==> self@ == other@,
            c is Before ==> path_le(self@, other@),
            c is After ==> path_le(other@, self@),
    {
        let mut i: usize = 0;
        while i < self.parts.len() && i < other.parts.len()
            invariant
                i <= self.parts.len(),
                i <= other.parts.len(),
                forall|j: int| 0 <= j < i ==> #[trigger] self@[j] == other@[j],
            decreases self.parts.len() - i,
        {
            let c = self.parts[i].compare(&other.parts[i]);
            assert(self@[i as int] == self.parts@[i as int]@);
            assert(other@[i as int] == other.parts@[i as int]@);
            match c {
                Comparison::Before => {
                    assert(lex_le_at(self@, other@, part_order(), i as int));
                    return c;
                },
                Comparison::After => {
                    assert(lex_le_at(other@, self@, part_order(), i as int));
                    return c;
                },
                Comparison::Same => {},
            }
            i += 1;
        }
        if i < other.parts.len() {
            assert(lex_le_at(self@, other@, part_order(), i as int));
            Comparison::Before
        } else if i < self.parts.len() {
            assert(lex_le_at(other@, self@, part_order(), i as int));
            Comparison::After
        } else {
            assert(self@ =~= other@);
            Comparison::Same
        }
    }

    /// Whether this is the same path as `other`.
    pub fn same_as(&self, other: &SyncPath) -> (r: bool)
        ensures
            r == (self@ == other@),
    {
        match self.compare(other) {
            Comparison::Same => true,
            _ => false,
        }
    }

    /// `rel` as seen from this path.
    pub fn join(&self, rel: &SyncPath) -> (r: SyncPath)
        ensures
            r@ == join_view(self@, rel@),
            wf_path(r@),
    {
        proof {
            use_type_invariant(self);
            use_type_invariant(rel);
            lemma_join_is_well_formed(self@, rel@);
        }
        if rel.parts.len() == 0 {
            assert(join_view(self@, rel@) =~= self@);
            return self.clone();
        }
        assert(rel@[0] == rel.parts@[0]@);
        let mut parts: Vec<Component<Vec<u8>>> = Vec::new();
        assert(parts_view(parts@) =~= PathView::empty());
        let mut start: usize = 0;
        match &rel.parts[0] {
            Component::Prefix(_) => {},
            Component::RootDir => {
                if self.parts.len() > 0 && matches!(self.parts[0], Component::Prefix(_)) {
                    let prefix = self.parts[0].clone();
                    parts.push(prefix);
                    assert(parts_view(parts@) =~= seq![self@[0]]);
                }
            },
            Component::CurDir => {
                append_parts(&mut parts, &self.parts, 0);
                let alone = self.parts.len() == 1 && matches!(self.parts[0], Component::Prefix(_));
                if self.parts.len() > 0 && !alone {
                    start = 1;
                }
            },
            Component::ParentDir | Component::Normal(_) => {
                append_parts(&mut parts, &self.parts, 0);
            },
        }
        let ghost head = parts_view(parts@);
        assert(self.parts.len() > 0 ==> self@[0] == self.parts@[0]@);
        append_parts(&mut parts, &rel.parts, start);
        assert(parts_view(parts@) =~= join_view(self@, rel@));
        SyncPath { parts }
    }

    /// The path of the first `n` components.
    pub(crate) fn start(&self, n: usize) -> (r: SyncPath)
        requires
            n <= self@.len(),
        ensures
            r@ == self@.take(n as int),
            wf_path(r@),
    {
        proof {
            use_type_invariant(self);
        }
        let mut parts: Vec<Component<Vec<u8>>> = Vec::new();
        let mut i: usize = 0;
        while i < n
            invariant
                i <= n <= self.parts.len(),
                parts_view(parts@) =~= self@.take(i as int),
            decreases n - i,
        {
            let part = self.parts[i].clone();
            let ghost held = parts@;
            parts.push(part);
            assert(parts_view(parts@) =~= parts_view(held).push(part@));
            assert(self@[i as int] == self.parts@[i as int]@);
            i += 1;
        }
        proof {
            lemma_start_is_well_formed(self@, n as int);
        }
        SyncPath { parts }
    }

    /// The path that holds this one, if there is one.
    pub fn parent(&self) -> (r: Option<SyncPath>)
        ensures
            match (r, parent_view(self@)) {
                (Some(p), Some(v)) => p@ == v && wf_path(v),
                (None, None) => true,
                _ => false,
            },
    {
        if self.parts.len() == 0 {
            return None;
        }
        let last: usize = self.parts.len() - 1;
        assert(self@.last() == self.parts@[last as int]@);
        match &self.parts[last] {
            Component::Prefix(_) | Component::RootDir => None,
            _ => {
                assert(self@.take(last as int) =~= self@.drop_last());
                Some(self.start(last))
            },
        }
    }
}

proof fn lemma_join_is_well_formed(a: PathView, b: PathView)
    requires
        wf_path(a),
        wf_path(b),
    ensures
        wf_path(join_view(a, b)),
{
    let r = join_view(a, b);
    assert forall|i: int| 0 <= i < r.len() implies #[trigger] well_placed(r, i) by {
        if b.len() > 0 && b[0] is Prefix {
            assert(well_placed(b, i));
        } else if b.len() > 0 && b[0] is RootDir {
            if a.len() > 0 && a[0] is Prefix {
                if i > 0 {
                    assert(r[i] == b[i - 1]);
                    assert(well_placed(b, i - 1));
                }
            } else {
                assert(well_placed(b, i));
            }
        } else if i < a.len() {
            assert(r[i] == a[i] && r[0] == a[0]);
            assert(well_placed(a, i));
        } else if b[0] is CurDir && a.len() > 0 && !(a.len() == 1 && a[0] is Prefix) {
            assert(r[i] == b[i - a.len() + 1]);
            assert(well_placed(b, i - a.len() + 1));
        } else {
            assert(r[i] == b[i - a.len()]);
            assert(well_placed(b, i - a.len()));
            assert(well_placed(b, 0));
            if a.len() > 0 {
                assert(r[0] == a[0]);
                assert(well_placed(a, 0));
            }
        }
    }
}

/// The path does not lie under the root that it was to be relative to.
#[derive(Debug, Clone, Copy, PartialEq, Eq, Structural)]
pub struct NotUnderRoot;

/// `path` as seen from `root`: what is left of it behind the components of `root`.
pub fn relative_path(root: &SyncPath, path: &SyncPath) -> (r: Result<SyncPath, NotUnderRoot>)
    ensures
        r is Ok <==> root@.is_prefix_of(path@),
        r matches Ok(rel) ==> {
            &&& rel@ == path@.skip(root@.len() as int)
            &&& wf_path(rel@)
        },
        wf_path(root@),
        wf_path(path@),
{
    proof {
        use_type_invariant(root);
        use_type_invariant(path);
    }
    let n = root.parts.len();
    if n > path.parts.len() {
        return Err(NotUnderRoot);
    }
    let mut i: usize = 0;
    while i < n
        invariant
            i <= n,
            n == root.parts.len(),
            n <= path.parts.len(),
            wf_path(root@),
            wf_path(path@),
            forall|j: int| 0 <= j < i ==> #[trigger] root@[j] == path@[j],
        decreases n - i,
    {
        let c = root.parts[i].compare(&path.parts[i]);
        assert(root@[i as int] == root.parts@[i as int]@);
        assert(path@[i as int] == path.parts@[i as int]@);
        match c {
            Comparison::Same => {},
            _ => {
                assert(path@.subrange(0, n as int)[i as int] == path@[i as int]);
                return Err(NotUnderRoot);
            },
        }
        i += 1;
    }
    assert(root@ =~= path@.subrange(0, n as int));
    let mut parts: Vec<Component<Vec<u8>>> = Vec::new();
    append_parts(&mut parts, &path.parts, n);
    assert(parts_view(parts@) =~= path@.skip(n as int));
    proof {
        lemma_rest_is_well_formed(path@, n as int);
    }
    Ok(SyncPath { parts })
}

proof fn lemma_start_is_well_formed(p: PathView, n: int)
    requires
        wf_path(p),
        0 <= n <= p.len(),
    ensures
        wf_path(p.take(n)),
{
    let r = p.take(n);
    assert forall|i: int| 0 <= i < r.len() implies #[trigger] well_placed(r, i) by {
        assert(r[i] == p[i] && r[0] == p[0]);
        assert(well_placed(p, i));
    }
}

proof fn lemma_rest_is_well_formed(p: PathView, n: int)
    requires
        wf_path(p),
        0 <= n <= p.len(),
    ensures
        wf_path(p.skip(n)),
{
    let r = p.skip(n);
    assert forall|i: int| 0 <= i < r.len() implies #[trigger] well_placed(r, i) by {
        assert(r[i] == p[n + i]);
        assert(well_placed(p, n + i));
    }
}

/// Whether `path` lies below `root`, and is not `root` itself.
pub(crate) fn is_above(root: &SyncPath, path: &SyncPath) -> (r: bool)
    ensures
        r == (root@.is_prefix_of(path@) && root@ != path@),
{
    match relative_path(root, path) {
        Ok(rel) => {
            assert(rel@.len() == 0 ==> root@ =~= path@);
            rel.parts.len() > 0
        },
        Err(_) => false,
    }
}

/// The number of components of `path`.
pub fn path_depth(path: &SyncPath) -> (r: usize)
    ensures
        r == path@.len(),
{
    path.parts.len()
}

/// Joining the relative path onto the root gives the path back.
pub proof fn law_relative_path_joins_back(root: PathView, path: PathView)
    requires
        wf_path(root),
        wf_path(path),
        root.is_prefix_of(path),
    ensures
        join_view(root, path.skip(root.len() as int)) == path,
{
    let rel = path.skip(root.len() as int);
    assert(path =~= root + rel);
    if rel.len() > 0 {
        assert(rel[0] == path[root.len() as int]);
        assert(well_placed(path, root.len() as int));
        if root.len() > 0 {
            assert(path[0] == root[0]);
        }
    }
    assert(join_view(root, rel) =~= path);
}

/// A descending path joined onto a root is relative to that root as itself, and lies under it.
pub proof fn law_join_is_under_root(root: PathView, rel: PathView)
    requires
        descends(rel),
    ensures
        root.is_prefix_of(join_view(root, rel)),
        join_view(root, rel).skip(root.len() as int) == rel,
        join_view(root, rel) == root + rel,
{
    assert(join_view(root, rel) =~= root + rel);
    assert((root + rel).subrange(0, root.len() as int) =~= root);
    assert((root + rel).skip(root.len() as int) =~= rel);
}

/// Joining descending paths onto one root keeps their order.
pub proof fn law_join_keeps_order(root: PathView, a: PathView, b: PathView)
    requires
        descends(a),
        descends(b),
    ensures
        path_le(join_view(root, a), join_view(root, b)) <==> path_le(a, b),
{
    law_join_is_under_root(root, a);
    law_join_is_under_root(root, b);
    let (ra, rb) = (root + a, root + b);
    let n = root.len() as int;
    if path_le(a, b) {
        let k = choose|k: int| lex_le_at(a, b, part_order(), k);
        assert(lex_le_at(ra, rb, part_order(), n + k));
    }
    if path_le(ra, rb) {
        let k = choose|k: int| lex_le_at(ra, rb, part_order(), k);
        if k < n {
            assert(ra[k] == rb[k]);
        }
        assert forall|i: int| 0 <= i < k - n implies a[i] == b[i] by {
            assert(ra[n + i] == rb[n + i]);
        }
        assert(lex_le_at(a, b, part_order(), k - n));
    }
}

/// What can be a path, component by component: a prefix only leads; a root directory and a `.`
/// only lead or follow a prefix; a name is not empty, holds no separator, and is neither `.` nor
/// `..`.
pub proof fn law_what_can_be_a_path(p: PathView)
    ensures
        wf_path(p) <==> forall|i: int|
            0 <= i < p.len() ==> match #[trigger] p[i] {
                Component::Prefix(_) => i == 0,
                Component::RootDir | Component::CurDir => i == 0 || (i == 1 && p[0] is Prefix),
                Component::ParentDir => true,
                Component::Normal(n) => {
                    &&& n.len() > 0
                    &&& forall|j: int| 0 <= j < n.len() ==> #[trigger] n[j] != 0x2f
                    &&& !(n.len() == 1 && n[0] == 0x2e)
                    &&& !(n.len() == 2 && n[0] == 0x2e && n[1] == 0x2e)
                },
            },
{
    assert forall|n: Seq<u8>| #[trigger] valid_name(n) <==> {
        &&& n.len() > 0
        &&& forall|j: int| 0 <= j < n.len() ==> #[trigger] n[j] != 0x2f
        &&& !(n.len() == 1 && n[0] == 0x2e)
        &&& !(n.len() == 2 && n[0] == 0x2e && n[1] == 0x2e)
    } by {
        if n.contains(0x2f) {
            let j = choose|j: int| 0 <= j < n.len() && n[j] == 0x2f;
            assert(n[j] == 0x2f);
        }
        if n.len() == 1 && n[0] == 0x2e {
            assert(n =~= seq![0x2eu8]);
        }
        if n.len() == 2 && n[0] == 0x2e && n[1] == 0x2e {
            assert(n =~= seq![0x2eu8, 0x2eu8]);
        }
        if n.len() > 0 && forall|j: int| 0 <= j < n.len() ==> #[trigger] n[j] != 0x2f {
            assert(!n.contains(0x2f));
        }
    }
    if wf_path(p) {
        assert forall|i: int| 0 <= i < p.len() implies match #[trigger] p[i] {
            Component::Prefix(_) => i == 0,
            Component::RootDir | Component::CurDir => i == 0 || (i == 1 && p[0] is Prefix),
            Component::ParentDir => true,
            Component::Normal(n) => valid_name(n),
        } by {
            assert(well_placed(p, i));
        }
    }
}

/// Joining one path after another is joining their join, and the empty path joins to nothing.
pub proof fn law_join_is_associative(a: PathView, b: PathView, c: PathView)
    requires
        wf_path(a),
        wf_path(b),
        wf_path(c),
    ensures
        join_view(join_view(a, b), c) == join_view(a, join_view(b, c)),
        join_view(a, PathView::empty()) == a,
        join_view(PathView::empty(), a) == a,
{
    if a.len() > 0 {
        assert(well_placed(a, 0));
    }
    if b.len() > 0 {
        assert(well_placed(b, 0));
    }
    if c.len() > 0 {
        assert(well_placed(c, 0));
    }
    assert(join_view(join_view(a, b), c) =~= join_view(a, join_view(b, c)));
    assert(join_view(a, PathView::empty()) =~= a);
    assert(join_view(PathView::empty(), a) =~= a);
}

/// A path with a root directory, or with a prefix, does not depend on where it is seen from, but
/// for the prefix there.
pub proof fn law_absolute_paths_stand_for_themselves(a: PathView, b: PathView)
    requires
        b.len() > 0,
        b[0] is RootDir || b[0] is Prefix,
    ensures
        !(a.len() > 0 && a[0] is Prefix) || b[0] is Prefix ==> join_view(a, b) == b,
        a.len() > 0 && a[0] is Prefix && b[0] is RootDir ==> join_view(a, b).drop_first() == b
            && join_view(a, b)[0] == a[0],
{
    if a.len() > 0 && a[0] is Prefix && b[0] is RootDir {
        assert(join_view(a, b).drop_first() =~= b);
    }
}

/// A leading `.` is dropped where something is joined in front of it, and kept where it leads.
pub proof fn law_a_leading_dot_leads_nowhere(a: PathView, rest: PathView)
    requires
        a.len() > 0,
    ensures
        !(a.len() == 1 && a[0] is Prefix) ==> join_view(a, seq![Component::CurDir] + rest) == a
            + rest,
        a.len() == 1 && a[0] is Prefix ==> join_view(a, seq![Component::CurDir] + rest) == a.push(
            Component::CurDir,
        ) + rest,
{
    let b = seq![Component::<Seq<u8>>::CurDir] + rest;
    assert(b.skip(1) =~= rest);
    assert(a + b =~= a.push(Component::CurDir) + rest);
}

/// The parent of what a directory holds is the directory, and what has a parent is held by it.
pub proof fn law_parent_holds_its_children(p: PathView, child: PartView)
    requires
        child is Normal || child is ParentDir || child is CurDir,
    ensures
        parent_view(p.push(child)) == Some(p),
        parent_view(p) is None <==> p.len() == 0 || p[p.len() - 1] is RootDir || p[p.len() - 1]
            is Prefix,
        parent_view(p) matches Some(q) ==> q.len() + 1 == p.len() && q == p.take(q.len() as int),
{
    assert(p.push(child).drop_last() =~= p);
    if p.len() > 0 {
        assert(p.drop_last() =~= p.take(p.len() - 1));
    }
}

/// The first component in which two paths differ decides their order: a prefix stands before a
/// root directory, that before `.`, that before `..`, that before a name, and names go byte by
/// byte. A path stands before what it holds.
pub proof fn law_path_order_goes_by_the_first_difference(
    start: PathView,
    x: PartView,
    y: PartView,
    a: PathView,
    b: PathView,
)
    requires
        x != y,
    ensures
        path_le(start, start + a),
        path_le(start.push(x) + a, start.push(y) + b) <==> match (x, y) {
            (Component::Prefix(m), Component::Prefix(n)) => bytes_before(m, n),
            (Component::Normal(m), Component::Normal(n)) => bytes_before(m, n),
            (Component::Prefix(_), _) => true,
            (_, Component::Prefix(_)) => false,
            (Component::RootDir, _) => true,
            (_, Component::RootDir) => false,
            (Component::CurDir, _) => true,
            (_, Component::CurDir) => false,
            (Component::ParentDir, _) => true,
            (_, Component::ParentDir) => false,
        },
{
    let (p, q) = (start.push(x) + a, start.push(y) + b);
    let n = start.len() as int;
    assert(lex_le_at(start, start + a, part_order(), n));
    assert(p[n] == x && q[n] == y);
    assert forall|i: int| 0 <= i < n implies p[i] == q[i] by {}
    lemma_part_order_is_total();
    let le = part_order();
    if path_le(p, q) {
        let k = choose|k: int| lex_le_at(p, q, part_order(), k);
        if k < n {
            assert(p[k] == q[k]);
        }
        if k > n {
            assert(p[n] == q[n]);
        }
        assert(le(x, y));
    }
    if le(x, y) {
        assert(lex_le_at(p, q, part_order(), n));
    }
    assert(le(x, y) == part_le(x, y));
    assert(part_le(x, y) <==> path_le(p, q));
    let (m, o) = (part_name(x), part_name(y));
    assert(lex_le(m, o, byte_order()) <==> bytes_before(m, o)) by {
        if lex_le(m, o, byte_order()) {
            let k = choose|k: int| lex_le_at(m, o, byte_order(), k);
            assert(bytes_before_at(m, o, k));
        }
        if bytes_before(m, o) {
            let k = choose|k: int| bytes_before_at(m, o, k);
            assert(lex_le_at(m, o, byte_order(), k));
        }
    }
}

/// The bytes agree before position `k`; there `m` ends or has the smaller byte.
pub open spec fn bytes_before_at(m: Seq<u8>, n: Seq<u8>, k: int) -> bool {
    &&& 0 <= k <= m.len()
    &&& k <= n.len()
    &&& forall|i: int| 0 <= i < k ==> m[i] == n[i]
    &&& k == m.len() || (k < n.len() && m[k] < n[k])
}

/// `m` is the start of `n`, or has the smaller byte where they first differ.
pub open spec fn bytes_before(m: Seq<u8>, n: Seq<u8>) -> bool {
    exists|k: int| bytes_before_at(m, n, k)
}

} // verus!
