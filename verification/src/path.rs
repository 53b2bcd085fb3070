//! Unix paths as byte strings, read component by component.

use crate::lex::{
    byte_order, bytes_at_most, bytes_le, lemma_byte_order, lemma_lex_antisymmetric, lemma_lex_skip,
    lemma_lex_total, lemma_lex_transitive, lex_le, same_bytes,
};
use crate::order::SortKey;
use vstd::prelude::*;
use vstd::relations::total_ordering;
use vstd::slice::{slice_subrange, slice_to_vec};

verus! {

/// The byte that separates the names of a path.
pub const SLASH: u8 = 0x2f;

/// The byte of a full stop.
pub const DOT: u8 = 0x2e;

/// A path: any byte string.
pub struct FilePath {
    pub bytes: Vec<u8>,
}

impl View for FilePath {
    type V = Seq<u8>;

    open spec fn view(&self) -> Seq<u8> {
        self.bytes@
    }
}

impl Clone for FilePath {
    fn clone(&self) -> (r: Self)
        ensures
            r@ == self@,
    {
        FilePath { bytes: slice_to_vec(self.bytes.as_slice()) }
    }
}

/// The byte strings that paths stand for.
pub open spec fn path_views(s: Seq<FilePath>) -> Seq<Seq<u8>> {
    Seq::new(s.len(), |i: int| s[i]@)
}

/// One step of a path.
pub enum Component {
    /// The slash that an absolute path begins with.
    RootDir,
    /// A leading `.`.
    CurDir,
    /// `..`.
    ParentDir,
    /// A name.
    Normal(Seq<u8>),
}

/// The pieces between the slashes, empty ones too.
pub open spec fn segments(p: Seq<u8>) -> Seq<Seq<u8>>
    decreases p.len(),
{
    if p.len() == 0 {
        seq![Seq::empty()]
    } else {
        let front = segments(p.drop_last());
        if p.last() == SLASH {
            front.push(Seq::empty())
        } else {
            front.drop_last().push(front.last().push(p.last()))
        }
    }
}

/// What a piece contributes: nothing where it is empty or `.`.
pub open spec fn step(segment: Seq<u8>) -> Seq<Component> {
    if segment.len() == 0 || segment == seq![DOT] {
        Seq::empty()
    } else if segment == seq![DOT, DOT] {
        seq![Component::ParentDir]
    } else {
        seq![Component::Normal(segment)]
    }
}

/// What the pieces contribute, one after the other.
pub open spec fn steps(segments: Seq<Seq<u8>>) -> Seq<Component>
    decreases segments.len(),
{
    if segments.len() == 0 {
        Seq::empty()
    } else {
        steps(segments.drop_last()) + step(segments.last())
    }
}

/// The root of an absolute path, or the `.` that a relative one begins with.
pub open spec fn lead(p: Seq<u8>) -> Seq<Component> {
    if p.len() > 0 && p[0] == SLASH {
        seq![Component::RootDir]
    } else if p.len() > 0 && p[0] == DOT && (p.len() == 1 || p[1] == SLASH) {
        seq![Component::CurDir]
    } else {
        Seq::empty()
    }
}

/// The components of a path. Repeated and trailing slashes do not count, nor does
/// a `.` that is not at the beginning.
pub open spec fn components(p: Seq<u8>) -> Seq<Component> {
    lead(p) + steps(segments(p))
}

/// Whether two byte strings are the same path.
pub open spec fn same_path(a: Seq<u8>, b: Seq<u8>) -> bool {
    components(a) == components(b)
}

/// Whether the path `p` is `base` or lies below it.
pub open spec fn path_starts_with(p: Seq<u8>, base: Seq<u8>) -> bool {
    components(base).is_prefix_of(components(p))
}

/// The last component, where it is a name.
pub open spec fn file_name_of(p: Seq<u8>) -> Option<Seq<u8>> {
    let c = components(p);
    if c.len() == 0 {
        None
    } else {
        match c.last() {
            Component::Normal(name) => Some(name),
            _ => None,
        }
    }
}

/// A component of a path, as it is read.
pub enum Part {
    RootDir,
    CurDir,
    ParentDir,
    Normal(Vec<u8>),
}

impl View for Part {
    type V = Component;

    open spec fn view(&self) -> Component {
        match self {
            Part::RootDir => Component::RootDir,
            Part::CurDir => Component::CurDir,
            Part::ParentDir => Component::ParentDir,
            Part::Normal(name) => Component::Normal(name@),
        }
    }
}

/// The components that parts stand for.
pub open spec fn part_views(s: Seq<Part>) -> Seq<Component> {
    Seq::new(s.len(), |i: int| s[i]@)
}

/// The kind of a component, in the order of the kinds.
pub open spec fn component_rank(c: Component) -> int {
    match c {
        Component::RootDir => 0,
        Component::CurDir => 1,
        Component::ParentDir => 2,
        Component::Normal(_) => 3,
    }
}

/// The order of components: by kind, and names as byte strings.
pub open spec fn component_le(a: Component, b: Component) -> bool {
    match (a, b) {
        (Component::Normal(x), Component::Normal(y)) => bytes_le(x, y),
        _ => component_rank(a) <= component_rank(b),
    }
}

/// `component_le` as a value.
pub open spec fn component_order() -> spec_fn(Component, Component) -> bool {
    |a: Component, b: Component| component_le(a, b)
}

/// The order of paths: component by component.
pub open spec fn path_le(a: Seq<Component>, b: Seq<Component>) -> bool {
    lex_le(a, b, component_order())
}

pub proof fn lemma_component_order()
    ensures
        total_ordering(component_order()),
{
    let le = component_order();
    lemma_byte_order();
    assert forall|x: Component| #[trigger] le(x, x) by {
        if let Component::Normal(n) = x {
            lemma_lex_total(n, n, byte_order());
        }
    }
    assert forall|x: Component, y: Component| #[trigger] le(x, y) && #[trigger] le(y, x) implies x
        == y by {
        if let (Component::Normal(m), Component::Normal(n)) = (x, y) {
            lemma_lex_antisymmetric(m, n, byte_order());
        }
    }
    assert forall|x: Component, y: Component, z: Component| #[trigger]
        le(x, y) && #[trigger] le(y, z) implies le(x, z) by {
        if let (Component::Normal(l), Component::Normal(m)) = (x, y) {
            if let Component::Normal(n) = z {
                lemma_lex_transitive(l, m, n, byte_order());
            }
        }
    }
    assert forall|x: Component, y: Component| #[trigger] le(x, y) || #[trigger] le(y, x) by {
        if let (Component::Normal(m), Component::Normal(n)) = (x, y) {
            lemma_lex_total(m, n, byte_order());
        }
    }
}

impl Part {
    /// Whether two parts are the same component.
    pub fn same(&self, other: &Part) -> (r: bool)
        ensures
            r == (self@ == other@),
    {
        match (self, other) {
            (Part::RootDir, Part::RootDir) => true,
            (Part::CurDir, Part::CurDir) => true,
            (Part::ParentDir, Part::ParentDir) => true,
            (Part::Normal(a), Part::Normal(b)) => same_bytes(a.as_slice(), b.as_slice()),
            _ => false,
        }
    }

    fn rank(&self) -> (r: u8)
        ensures
            r == component_rank(self@),
    {
        match self {
            Part::RootDir => 0,
            Part::CurDir => 1,
            Part::ParentDir => 2,
            Part::Normal(_) => 3,
        }
    }

    /// Whether this part does not come after `other`.
    pub fn at_most(&self, other: &Part) -> (r: bool)
        ensures
            r == component_le(self@, other@),
    {
        match (self, other) {
            (Part::Normal(a), Part::Normal(b)) => bytes_at_most(a.as_slice(), b.as_slice()),
            _ => self.rank() <= other.rank(),
        }
    }
}

/// A path as a key: its components.
pub struct PathKey {
    pub parts: Vec<Part>,
}

impl SortKey for PathKey {
    type Value = Seq<Component>;

    open spec fn value(&self) -> Seq<Component> {
        part_views(self.parts@)
    }

    open spec fn le(a: Seq<Component>, b: Seq<Component>) -> bool {
        path_le(a, b)
    }

    proof fn le_total(a: Seq<Component>, b: Seq<Component>) {
        lemma_component_order();
        lemma_lex_total(a, b, component_order());
    }

    proof fn le_transitive(a: Seq<Component>, b: Seq<Component>, c: Seq<Component>) {
        lemma_component_order();
        lemma_lex_transitive(a, b, c, component_order());
    }

    proof fn le_antisymmetric(a: Seq<Component>, b: Seq<Component>) {
        lemma_component_order();
        lemma_lex_antisymmetric(a, b, component_order());
    }

    fn at_most(&self, other: &Self) -> (r: bool) {
        let ghost a = self.value();
        let ghost b = other.value();
        let mut i: usize = 0;
        while i < self.parts.len() && i < other.parts.len()
            invariant
                a == part_views(self.parts@),
                b == part_views(other.parts@),
                i <= a.len(),
                i <= b.len(),
                forall|j: int| 0 <= j < i ==> a[j] == b[j],
                a == self.value(),
                b == other.value(),
            decreases self.parts@.len() - i,
        {
            if !self.parts[i].same(&other.parts[i]) {
                proof {
                    lemma_lex_skip(a, b, i as int, component_order());
                    assert(a.skip(i as int)[0] == a[i as int]);
                    assert(b.skip(i as int)[0] == b[i as int]);
                }
                return self.parts[i].at_most(&other.parts[i]);
            }
            i = i + 1;
        }
        proof {
            lemma_lex_skip(a, b, i as int, component_order());
        }
        i == self.parts.len()
    }
}

/// Appends what a piece of a path contributes.
fn push_step(parts: &mut Vec<Part>, segment: &[u8])
    ensures
        part_views(final(parts)@) == part_views(old(parts)@) + step(segment@),
{
    let ghost before = part_views(parts@);
    let n: usize = segment.len();
    if n == 0 {
        assert(before + step(segment@) =~= before);
        return ;
    }
    if segment[0] == DOT {
        if n == 1 {
            assert(segment@ =~= seq![DOT]);
            assert(before + step(segment@) =~= before);
            return ;
        }
        if n == 2 && segment[1] == DOT {
            assert(segment@ =~= seq![DOT, DOT]);
            parts.push(Part::ParentDir);
            assert(part_views(parts@) =~= before + step(segment@));
            return ;
        }
    }
    parts.push(Part::Normal(slice_to_vec(segment)));
    assert(part_views(parts@) =~= before + step(segment@));
}

impl FilePath {
    /// The components of the path.
    pub fn key(&self) -> (r: PathKey)
        ensures
            r.value() == components(self@),
    {
        let bytes = self.bytes.as_slice();
        let ghost p = self@;
        let mut parts: Vec<Part> = Vec::new();
        if bytes.len() > 0 {
            if bytes[0] == SLASH {
                parts.push(Part::RootDir);
            } else if bytes[0] == DOT && (bytes.len() == 1 || bytes[1] == SLASH) {
                parts.push(Part::CurDir);
            }
        }
        assert(part_views(parts@) =~= lead(p));
        let mut start: usize = 0;
        let mut i: usize = 0;
        proof {
            assert(p.take(0) =~= Seq::empty());
            assert(p.subrange(0, 0) =~= Seq::empty());
            assert(segments(p.take(0)).drop_last() =~= Seq::empty());
            assert(part_views(parts@) =~= lead(p) + steps(segments(p.take(0)).drop_last()));
        }
        while i < bytes.len()
            invariant
                bytes@ == p,
                start <= i <= p.len(),
                segments(p.take(i as int)).len() > 0,
                segments(p.take(i as int)).last() == p.subrange(start as int, i as int),
                part_views(parts@) == lead(p) + steps(segments(p.take(i as int)).drop_last()),
            decreases p.len() - i,
        {
            let ghost before = segments(p.take(i as int));
            let ghost after = segments(p.take(i + 1));
            assert(p.take(i + 1).drop_last() =~= p.take(i as int));
            assert(p.take(i + 1).last() == p[i as int]);
            if bytes[i] == SLASH {
                push_step(&mut parts, slice_subrange(bytes, start, i));
                start = i + 1;
                proof {
                    assert(after.drop_last() =~= before);
                    assert(p.subrange(i + 1, i + 1) =~= Seq::empty());
                    assert(lead(p) + steps(before.drop_last()) + step(before.last()) =~= lead(p)
                        + steps(before));
                }
            } else {
                proof {
                    assert(after.drop_last() =~= before.drop_last());
                    assert(p.subrange(start as int, i + 1) =~= before.last().push(p[i as int]));
                }
            }
            i = i + 1;
        }
        push_step(&mut parts, slice_subrange(bytes, start, i));
        proof {
            assert(p.take(i as int) =~= p);
            assert(lead(p) + steps(segments(p).drop_last()) + step(segments(p).last()) =~= lead(p)
                + steps(segments(p)));
        }
        PathKey { parts }
    }

    /// Whether this is the same path as `other`.
    pub fn same(&self, other: &FilePath) -> (r: bool)
        ensures
            r == same_path(self@, other@),
    {
        let a = self.key();
        let b = other.key();
        let ghost x = a.value();
        let ghost y = b.value();
        let n: usize = a.parts.len();
        if n != b.parts.len() {
            return false;
        }
        let mut i: usize = 0;
        while i < n
            invariant
                x == part_views(a.parts@),
                y == part_views(b.parts@),
                x == components(self@),
                y == components(other@),
                n == x.len(),
                n == y.len(),
                i <= n,
                forall|j: int| 0 <= j < i ==> x[j] == y[j],
            decreases n - i,
        {
            if !a.parts[i].same(&b.parts[i]) {
                assert(x[i as int] != y[i as int]);
                return false;
            }
            assert(x[i as int] == y[i as int]);
            i = i + 1;
        }
        assert(x =~= y);
        true
    }

    /// Whether this path is `base` or lies below it.
    pub fn starts_with(&self, base: &FilePath) -> (r: bool)
        ensures
            r == path_starts_with(self@, base@),
    {
        let a = base.key();
        let b = self.key();
        let ghost x = a.value();
        let ghost y = b.value();
        let n: usize = a.parts.len();
        if n > b.parts.len() {
            return false;
        }
        let mut i: usize = 0;
        while i < n
            invariant
                x == part_views(a.parts@),
                y == part_views(b.parts@),
                x == components(base@),
                y == components(self@),
                n == x.len(),
                n <= y.len(),
                i <= n,
                forall|j: int| 0 <= j < i ==> x[j] == y[j],
            decreases n - i,
        {
            if !a.parts[i].same(&b.parts[i]) {
                assert(x[i as int] != y[i as int]);
                assert(y.subrange(0, x.len() as int)[i as int] == y[i as int]);
                return false;
            }
            assert(x[i as int] == y[i as int]);
            i = i + 1;
        }
        assert(x =~= y.subrange(0, x.len() as int));
        true
    }

    /// The last component, where it is a name.
    pub fn file_name(&self) -> (r: Option<Vec<u8>>)
        ensures
            match r {
                Some(name) => file_name_of(self@) == Some(name@),
                None => file_name_of(self@) is None,
            },
    {
        let mut key = self.key();
        let ghost c = key.value();
        match key.parts.pop() {
            Some(last) => {
                assert(c.last() == last@);
                match last {
                    Part::Normal(name) => Some(name),
                    _ => None,
                }
            },
            None => None,
        }
    }
}

/// The place of the last full stop of a name, or -1.
pub open spec fn last_dot(name: Seq<u8>) -> int
    decreases name.len(),
{
    if name.len() == 0 {
        -1
    } else if name.last() == DOT {
        name.len() - 1
    } else {
        last_dot(name.drop_last())
    }
}

/// A name without its extension: what stands before the last full stop, or the
/// whole name where there is none but at its beginning.
pub open spec fn stem_of(name: Seq<u8>) -> Seq<u8> {
    if last_dot(name) <= 0 {
        name
    } else {
        name.take(last_dot(name))
    }
}

/// The extension of a name: what stands behind the last full stop, where there is
/// one not at its beginning.
pub open spec fn extension_of(name: Seq<u8>) -> Option<Seq<u8>> {
    if last_dot(name) <= 0 {
        None
    } else {
        Some(name.skip(last_dot(name) + 1))
    }
}

/// A name put below a directory; an absolute one stands for itself.
pub open spec fn join(dir: Seq<u8>, name: Seq<u8>) -> Seq<u8> {
    if name.len() > 0 && name[0] == SLASH {
        name
    } else if dir.len() == 0 || dir.last() == SLASH {
        dir + name
    } else {
        dir.push(SLASH) + name
    }
}

pub proof fn lemma_last_dot(name: Seq<u8>)
    ensures
        -1 <= last_dot(name) < name.len(),
        last_dot(name) >= 0 ==> name[last_dot(name)] == DOT,
        forall|i: int| last_dot(name) < i < name.len() ==> name[i] != DOT,
    decreases name.len(),
{
    if name.len() > 0 && name.last() != DOT {
        lemma_last_dot(name.drop_last());
        assert forall|i: int| last_dot(name) < i < name.len() implies name[i] != DOT by {
            if i < name.len() - 1 {
                assert(name.drop_last()[i] == name[i]);
            }
        }
    }
}

/// Splits a name into stem and extension.
pub fn split_name(name: &[u8]) -> (r: (Vec<u8>, Option<Vec<u8>>))
    ensures
        r.0@ == stem_of(name@),
        match r.1 {
            Some(extension) => extension_of(name@) == Some(extension@),
            None => extension_of(name@) is None,
        },
{
    let n: usize = name.len();
    let mut end: usize = n;
    while end > 0 && name[end - 1] != DOT
        invariant
            end <= n,
            n == name@.len(),
            forall|i: int| end <= i < n ==> name@[i] != DOT,
        decreases end,
    {
        end = end - 1;
    }
    proof {
        lemma_last_dot(name@);
        assert(last_dot(name@) == end - 1);
    }
    if end <= 1 {
        (slice_to_vec(name), None)
    } else {
        assert(name@.subrange(0, end - 1) =~= name@.take(end - 1));
        assert(name@.subrange(end as int, n as int) =~= name@.skip(end as int));
        (
            slice_to_vec(slice_subrange(name, 0, end - 1)),
            Some(slice_to_vec(slice_subrange(name, end, n))),
        )
    }
}

/// Appends the bytes of a slice.
pub fn append_bytes(to: &mut Vec<u8>, bytes: &[u8])
    ensures
        final(to)@ == old(to)@ + bytes@,
{
    let mut more = slice_to_vec(bytes);
    to.append(&mut more);
}

impl FilePath {
    /// This directory with a name below it.
    pub fn join(&self, name: &[u8]) -> (r: FilePath)
        ensures
            r@ == join(self@, name@),
    {
        if name.len() > 0 && name[0] == SLASH {
            return FilePath { bytes: slice_to_vec(name) };
        }
        let mut bytes = slice_to_vec(self.bytes.as_slice());
        let n: usize = bytes.len();
        if n > 0 && bytes[n - 1] != SLASH {
            bytes.push(SLASH);
        }
        append_bytes(&mut bytes, name);
        FilePath { bytes }
    }
}

proof fn lemma_segments_nonempty(p: Seq<u8>)
    ensures
        segments(p).len() > 0,
    decreases p.len(),
{
    if p.len() > 0 {
        lemma_segments_nonempty(p.drop_last());
    }
}

proof fn lemma_segments_add(a: Seq<u8>, b: Seq<u8>)
    ensures
        segments(a.push(SLASH) + b) == segments(a) + segments(b),
    decreases b.len(),
{
    let p = a.push(SLASH) + b;
    if b.len() == 0 {
        assert(p =~= a.push(SLASH));
        assert(p.drop_last() =~= a);
        assert(segments(p) =~= segments(a) + segments(b));
    } else {
        assert(p.drop_last() =~= a.push(SLASH) + b.drop_last());
        lemma_segments_add(a, b.drop_last());
        lemma_segments_nonempty(b.drop_last());
        assert(segments(p) =~= segments(a) + segments(b));
    }
}

proof fn lemma_steps_one(segment: Seq<u8>)
    ensures
        steps(seq![segment]) == step(segment),
{
    assert(seq![segment].drop_last() =~= Seq::empty());
    assert(steps(seq![segment].drop_last()) =~= Seq::empty());
    assert(steps(seq![segment]) =~= step(segment));
}

proof fn lemma_steps_add(a: Seq<Seq<u8>>, b: Seq<Seq<u8>>)
    ensures
        steps(a + b) == steps(a) + steps(b),
    decreases b.len(),
{
    if b.len() == 0 {
        assert(a + b =~= a);
        assert(steps(a) + steps(b) =~= steps(a));
    } else {
        assert((a + b).drop_last() =~= a + b.drop_last());
        lemma_steps_add(a, b.drop_last());
        assert(steps(a + b) =~= steps(a) + steps(b));
    }
}

/// A relative path put below a non-empty directory adds its pieces to the
/// components of the directory.
pub proof fn lemma_join_components(dir: Seq<u8>, name: Seq<u8>)
    requires
        dir.len() > 0,
        name.len() == 0 || name[0] != SLASH,
    ensures
        components(join(dir, name)) == components(dir) + steps(segments(name)),
{
    let p = join(dir, name);
    let none: Seq<u8> = Seq::empty();
    assert(segments(none) =~= seq![none]);
    lemma_steps_one(none);
    if dir.last() == SLASH {
        let base = dir.drop_last();
        assert(dir =~= base.push(SLASH) + none);
        assert(p =~= base.push(SLASH) + name);
        lemma_segments_add(base, none);
        lemma_segments_add(base, name);
        lemma_steps_add(segments(base), segments(none));
        lemma_steps_add(segments(base), segments(name));
        assert(steps(segments(dir)) =~= steps(segments(base)));
    } else {
        assert(p =~= dir.push(SLASH) + name);
        lemma_segments_add(dir, name);
        lemma_steps_add(segments(dir), segments(name));
    }
    assert(lead(p) =~= lead(dir));
    assert(components(p) =~= components(dir) + steps(segments(name)));
}

/// A relative path put below a directory stays below it.
pub proof fn lemma_join_starts_with(dir: Seq<u8>, name: Seq<u8>)
    requires
        name.len() == 0 || name[0] != SLASH,
    ensures
        path_starts_with(join(dir, name), dir),
{
    if dir.len() > 0 {
        lemma_join_components(dir, name);
        let c = components(dir);
        assert(c =~= components(join(dir, name)).subrange(0, c.len() as int));
    } else {
        let none: Seq<u8> = Seq::empty();
        assert(segments(dir) =~= seq![none]);
        lemma_steps_one(none);
        assert(components(dir) =~= Seq::empty());
        assert(components(dir) =~= components(join(dir, name)).subrange(0, 0));
    }
}

/// Being below carries over: what is below a path below `base` is below `base`.
pub proof fn lemma_starts_with_transitive(p: Seq<u8>, mid: Seq<u8>, base: Seq<u8>)
    requires
        path_starts_with(p, mid),
        path_starts_with(mid, base),
    ensures
        path_starts_with(p, base),
{
    let c = components(base);
    assert(c =~= components(p).subrange(0, c.len() as int)) by {
        assert forall|i: int| 0 <= i < c.len() implies c[i] == components(p)[i] by {
            assert(components(mid).subrange(0, c.len() as int)[i] == components(mid)[i]);
            assert(components(p).subrange(0, components(mid).len() as int)[i] == components(p)[i]);
        }
    }
}

/// Two paths come in both orders exactly where they are the same path, and the
/// same path lies below the same directories.
pub proof fn lemma_same_path(a: Seq<u8>, b: Seq<u8>)
    ensures
        same_path(a, b) <==> path_le(components(a), components(b)) && path_le(
            components(b),
            components(a),
        ),
        same_path(a, b) ==> forall|base: Seq<u8>| #[trigger]
            path_starts_with(a, base) == path_starts_with(b, base),
        same_path(a, b) <==> path_starts_with(a, b) && path_starts_with(b, a),
{
    lemma_component_order();
    if path_le(components(a), components(b)) && path_le(components(b), components(a)) {
        lemma_lex_antisymmetric(components(a), components(b), component_order());
    }
    lemma_lex_total(components(a), components(a), component_order());
    if same_path(a, b) {
        assert(components(a) =~= components(a).subrange(0, components(a).len() as int));
    }
    if path_starts_with(a, b) && path_starts_with(b, a) {
        assert(components(a) =~= components(a).subrange(0, components(a).len() as int));
    }
}

proof fn lemma_segments_plain(name: Seq<u8>)
    requires
        forall|i: int| 0 <= i < name.len() ==> name[i] != SLASH,
    ensures
        segments(name) == seq![name],
    decreases name.len(),
{
    if name.len() > 0 {
        let front = name.drop_last();
        assert forall|i: int| 0 <= i < front.len() implies front[i] != SLASH by {
            assert(front[i] == name[i]);
        }
        lemma_segments_plain(front);
        assert(segments(name) =~= seq![front.push(name.last())]);
        assert(front.push(name.last()) =~= name);
    } else {
        assert(name =~= Seq::empty());
        assert(segments(name) =~= seq![name]);
    }
}

/// A name put below a directory stands behind the directory and a slash, and is one more
/// component, the last one. A name is any byte string without a slash but the empty one,
/// `.` and `..`.
pub proof fn lemma_name_below(dir: Seq<u8>, name: Seq<u8>)
    requires
        dir.len() > 0,
        name.len() > 0,
        forall|i: int| 0 <= i < name.len() ==> name[i] != 0x2f,
        name != seq![0x2eu8],
        name != seq![0x2eu8, 0x2eu8],
    ensures
        join(dir, name) == if dir.last() == 0x2f {
            dir + name
        } else {
            dir + seq![0x2fu8] + name
        },
        components(join(dir, name)) == components(dir).push(Component::Normal(name)),
        file_name_of(join(dir, name)) == Some(name),
{
    assert(name[0] != SLASH);
    lemma_join_components(dir, name);
    lemma_segments_plain(name);
    lemma_steps_one(name);
    assert(components(join(dir, name)) =~= components(dir).push(Component::Normal(name)));
    assert(dir.push(SLASH) + name =~= dir + seq![0x2fu8] + name);
}

/// Below a directory, `.` and a slash add nothing to its components, and `..` adds the
/// step up. What is absolute stands for itself.
pub proof fn lemma_steps_below(dir: Seq<u8>, path: Seq<u8>)
    requires
        dir.len() > 0,
    ensures
        components(dir.push(0x2f)) == components(dir),
        components(join(dir, seq![0x2eu8])) == components(dir),
        components(join(dir, seq![0x2eu8, 0x2eu8])) == components(dir).push(Component::ParentDir),
        path.len() > 0 && path[0] == 0x2f ==> join(dir, path) == path,
{
    let none: Seq<u8> = Seq::empty();
    let here = seq![0x2eu8];
    let up = seq![0x2eu8, 0x2eu8];
    lemma_segments_plain(none);
    lemma_segments_plain(here);
    lemma_segments_plain(up);
    lemma_steps_one(none);
    lemma_steps_one(here);
    lemma_steps_one(up);
    lemma_join_components(dir, here);
    lemma_join_components(dir, up);
    assert(components(join(dir, here)) =~= components(dir));
    assert(up != seq![DOT]) by {
        assert(up.len() == 2);
    }
    assert(components(join(dir, up)) =~= components(dir).push(Component::ParentDir));
    lemma_segments_add(dir, none);
    assert(dir.push(SLASH) + none =~= dir.push(0x2f));
    lemma_steps_add(segments(dir), segments(none));
    assert(lead(dir.push(0x2f)) =~= lead(dir));
    assert(components(dir.push(0x2f)) =~= components(dir));
}

/// What a path begins with: a slash is the root, `.` and `..` stand for themselves, and a
/// name is a name.
pub proof fn lemma_first_step(name: Seq<u8>)
    requires
        name.len() > 0,
        forall|i: int| 0 <= i < name.len() ==> name[i] != 0x2f,
    ensures
        components(Seq::<u8>::empty()) == Seq::<Component>::empty(),
        components(seq![0x2fu8]) == seq![Component::RootDir],
        components(name) == if name == seq![0x2eu8] {
            seq![Component::CurDir]
        } else if name == seq![0x2eu8, 0x2eu8] {
            seq![Component::ParentDir]
        } else {
            seq![Component::Normal(name)]
        },
{
    let none: Seq<u8> = Seq::empty();
    lemma_segments_plain(none);
    lemma_steps_one(none);
    assert(components(none) =~= Seq::<Component>::empty());
    lemma_segments_add(none, none);
    assert(none.push(SLASH) + none =~= seq![0x2fu8]);
    lemma_steps_add(segments(none), segments(none));
    assert(components(seq![0x2fu8]) =~= seq![Component::RootDir]);
    lemma_segments_plain(name);
    lemma_steps_one(name);
    assert(name[0] != SLASH);
    if name == seq![0x2eu8] {
        assert(components(name) =~= seq![Component::CurDir]);
    } else if name == seq![0x2eu8, 0x2eu8] {
        assert(name.len() == 2 && name[1] == 0x2e);
        assert(components(name) =~= seq![Component::ParentDir]);
    } else {
        if name.len() == 1 && name[0] == DOT {
            assert(name =~= seq![0x2eu8]);
        }
        assert(lead(name) =~= Seq::empty());
        assert(components(name) =~= seq![Component::Normal(name)]);
    }
}

/// A path is the same as another where all their components are, and lies below it where
/// it has the components of the other one first.
pub proof fn lemma_paths_by_components(p: Seq<u8>, base: Seq<u8>)
    ensures
        same_path(p, base) <==> components(p).len() == components(base).len() && forall|i: int|
            0 <= i < components(p).len() ==> #[trigger] components(p)[i] == components(base)[i],
        path_starts_with(p, base) <==> components(base).len() <= components(p).len() && forall|
            i: int,
        |
            0 <= i < components(base).len() ==> #[trigger] components(base)[i] == components(p)[i],
{
    let a = components(p);
    let b = components(base);
    if a.len() == b.len() && forall|i: int| 0 <= i < a.len() ==> #[trigger] a[i] == b[i] {
        assert(a =~= b);
    }
    if b.len() <= a.len() && forall|i: int| 0 <= i < b.len() ==> #[trigger] b[i] == a[i] {
        assert(b =~= a.subrange(0, b.len() as int));
    }
    if path_starts_with(p, base) {
        assert forall|i: int| 0 <= i < b.len() implies #[trigger] b[i] == a[i] by {
            assert(a.subrange(0, b.len() as int)[i] == a[i]);
        }
    }
}

/// The first difference of two byte strings decides which comes first, and what goes on
/// comes behind what ends.
pub proof fn lemma_bytes_first_difference(a: Seq<u8>, b: Seq<u8>, n: int)
    requires
        0 <= n <= a.len(),
        n < b.len(),
        forall|i: int| 0 <= i < n ==> a[i] == b[i],
        n < a.len() ==> a[n] < b[n],
    ensures
        bytes_le(a, b),
        !bytes_le(b, a),
{
    lemma_lex_skip(a, b, n, byte_order());
    lemma_lex_skip(b, a, n, byte_order());
    if n < a.len() {
        assert(a.skip(n)[0] == a[n]);
        assert(b.skip(n)[0] == b[n]);
    }
}

/// The first difference of two paths decides which comes first: a root comes before `.`,
/// that before `..`, that before a name, and of two names the smaller byte string comes
/// first. What goes on comes behind what ends.
pub proof fn lemma_paths_first_difference(a: Seq<Component>, b: Seq<Component>, n: int, m: int)
    requires
        0 <= n <= a.len(),
        n < b.len(),
        forall|i: int| 0 <= i < n ==> a[i] == b[i],
        n < a.len() ==> match (a[n], b[n]) {
            (Component::Normal(x), Component::Normal(y)) => 0 <= m <= x.len() && m < y.len() && (
            forall|i: int| 0 <= i < m ==> x[i] == y[i]) && (m < x.len() ==> x[m] < y[m]),
            (Component::RootDir, other) => !(other is RootDir),
            (Component::CurDir, other) => other is ParentDir || other is Normal,
            (Component::ParentDir, other) => other is Normal,
            (Component::Normal(_), _) => false,
        },
    ensures
        path_le(a, b),
        !path_le(b, a),
{
    lemma_lex_skip(a, b, n, component_order());
    lemma_lex_skip(b, a, n, component_order());
    if n < a.len() {
        assert(a.skip(n)[0] == a[n]);
        assert(b.skip(n)[0] == b[n]);
        if let (Component::Normal(x), Component::Normal(y)) = (a[n], b[n]) {
            lemma_bytes_first_difference(x, y, m);
            lemma_byte_order();
            lemma_lex_total(x, x, byte_order());
        }
        assert(component_le(a[n], b[n]) && !component_le(b[n], a[n]));
    }
}

/// A name ends in its extension where there is a full stop in it that is not its first
/// byte: the extension is what stands behind the last one, the stem what stands before.
pub proof fn lemma_stem_and_extension(stem: Seq<u8>, extension: Seq<u8>)
    requires
        stem.len() > 0,
        forall|i: int| 0 <= i < extension.len() ==> extension[i] != 0x2e,
    ensures
        stem_of(stem + seq![0x2eu8] + extension) == stem,
        extension_of(stem + seq![0x2eu8] + extension) == Some(extension),
{
    let name = stem + seq![0x2eu8] + extension;
    lemma_last_dot(name);
    assert(name[stem.len() as int] == 0x2e);
    assert forall|i: int| stem.len() < i < name.len() implies name[i] != DOT by {
        assert(name[i] == extension[i - stem.len() - 1]);
    }
    assert(last_dot(name) == stem.len());
    assert(name.take(stem.len() as int) =~= stem);
    assert(name.skip((stem.len() + 1) as int) =~= extension);
}

/// A name without a full stop, or with one at its beginning only, has no extension and is
/// its own stem.
pub proof fn lemma_stem_alone(name: Seq<u8>)
    requires
        forall|i: int| 0 < i < name.len() ==> name[i] != 0x2e,
    ensures
        stem_of(name) == name,
        extension_of(name) is None,
{
    lemma_last_dot(name);
}

} // verus!
