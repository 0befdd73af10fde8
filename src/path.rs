//! Paths: sequences of byte-string components, bounded by a deployment's limits.
use vstd::prelude::*;
use core::cmp::Ordering;
use crate::order::{Least, Ordered};
use vstd::string::StringSliceAdditionalSpecFns;

verus! {

/// Lexicographic order of two sequences, given an order `le` on their elements: the first
/// position where the elements are not equivalent decides, and a proper prefix comes first.
pub open spec fn lex_le<T>(a: Seq<T>, b: Seq<T>, le: spec_fn(T, T) -> bool) -> bool
    decreases a.len(),
{
    if a.len() == 0 {
        true
    } else if b.len() == 0 {
        false
    } else if le(a[0], b[0]) && !le(b[0], a[0]) {
        true
    } else if le(b[0], a[0]) && !le(a[0], b[0]) {
        false
    } else {
        lex_le(a.drop_first(), b.drop_first(), le)
    }
}

/// `le` is a total preorder.
pub open spec fn total_preorder<T>(le: spec_fn(T, T) -> bool) -> bool {
    &&& forall|x: T| #[trigger] le(x, x)
    &&& forall|x: T, y: T| #[trigger] le(x, y) || #[trigger] le(y, x)
    &&& forall|x: T, y: T, z: T| #[trigger] le(x, y) && #[trigger] le(y, z) ==> le(x, z)
}

/// The lexicographic order of a total preorder is a total preorder.
pub proof fn lemma_lex_total<T>(a: Seq<T>, b: Seq<T>, c: Seq<T>, le: spec_fn(T, T) -> bool)
    requires
        total_preorder(le),
    ensures
        lex_le(a, a, le),
        lex_le(a, b, le) || lex_le(b, a, le),
        lex_le(a, b, le) && lex_le(b, c, le) ==> lex_le(a, c, le),
    decreases a.len(),
{
    if a.len() > 0 && b.len() > 0 && c.len() > 0 {
        lemma_lex_total(a.drop_first(), b.drop_first(), c.drop_first(), le);
        assert(le(a[0], b[0]) && le(b[0], c[0]) ==> le(a[0], c[0]));
        assert(le(b[0], c[0]) && le(c[0], a[0]) ==> le(b[0], a[0]));
        assert(le(c[0], a[0]) && le(a[0], b[0]) ==> le(c[0], b[0]));
        assert(le(a[0], c[0]) && le(c[0], b[0]) ==> le(a[0], b[0]));
        assert(le(b[0], a[0]) && le(a[0], c[0]) ==> le(b[0], c[0]));
        assert(le(c[0], b[0]) && le(b[0], a[0]) ==> le(c[0], a[0]));
    } else if a.len() > 0 && b.len() > 0 {
        lemma_lex_total(a.drop_first(), b.drop_first(), b.drop_first(), le);
        assert(le(a[0], b[0]) || le(b[0], a[0]));
    } else if a.len() > 0 {
        lemma_lex_total(a.drop_first(), a.drop_first(), a.drop_first(), le);
        assert(le(a[0], a[0]));
    }
}

/// Dropping a common position whose elements are equivalent leaves the order unchanged.
proof fn lemma_lex_step<T>(a: Seq<T>, b: Seq<T>, i: int, le: spec_fn(T, T) -> bool)
    requires
        0 <= i < a.len(),
        i < b.len(),
        le(a[i], b[i]),
        le(b[i], a[i]),
    ensures
        lex_le(a.skip(i), b.skip(i), le) == lex_le(a.skip(i + 1), b.skip(i + 1), le),
        lex_le(b.skip(i), a.skip(i), le) == lex_le(b.skip(i + 1), a.skip(i + 1), le),
{
    assert(a.skip(i).drop_first() =~= a.skip(i + 1));
    assert(b.skip(i).drop_first() =~= b.skip(i + 1));
}

/// The order of bytes.
pub open spec fn byte_le(x: u8, y: u8) -> bool {
    x <= y
}

/// The order of byte strings: lexicographic over bytes.
pub open spec fn bytes_le(a: Seq<u8>, b: Seq<u8>) -> bool {
    lex_le(a, b, |x: u8, y: u8| byte_le(x, y))
}

/// The order of paths: lexicographic over components, each ordered by `bytes_le`.
pub open spec fn path_le(a: Seq<Seq<u8>>, b: Seq<Seq<u8>>) -> bool {
    lex_le(a, b, |x: Seq<u8>, y: Seq<u8>| bytes_le(x, y))
}

proof fn lemma_bytes_order()
    ensures
        total_preorder(|x: u8, y: u8| byte_le(x, y)),
{
}

/// `bytes_le` is a total preorder.
pub proof fn lemma_bytes_total(a: Seq<u8>, b: Seq<u8>, c: Seq<u8>)
    ensures
        bytes_le(a, a),
        bytes_le(a, b) || bytes_le(b, a),
        bytes_le(a, b) && bytes_le(b, c) ==> bytes_le(a, c),
{
    lemma_bytes_order();
    lemma_lex_total(a, b, c, |x: u8, y: u8| byte_le(x, y));
}

proof fn lemma_component_order()
    ensures
        total_preorder(|x: Seq<u8>, y: Seq<u8>| bytes_le(x, y)),
{
    assert forall|x: Seq<u8>, y: Seq<u8>, z: Seq<u8>|
        bytes_le(x, y) && bytes_le(y, z) implies bytes_le(x, z) by {
        lemma_bytes_total(x, y, z);
    }
    assert forall|x: Seq<u8>, y: Seq<u8>| bytes_le(x, y) || bytes_le(y, x) by {
        lemma_bytes_total(x, y, x);
    }
}

/// `path_le` is a total preorder.
pub proof fn lemma_path_total(a: Seq<Seq<u8>>, b: Seq<Seq<u8>>, c: Seq<Seq<u8>>)
    ensures
        path_le(a, a),
        path_le(a, b) || path_le(b, a),
        path_le(a, b) && path_le(b, c) ==> path_le(a, c),
{
    lemma_component_order();
    lemma_lex_total(a, b, c, |x: Seq<u8>, y: Seq<u8>| bytes_le(x, y));
}

/// Equal sequences are equivalent in `bytes_le`, both ways.
pub proof fn lemma_bytes_eq_equiv(a: Seq<u8>, b: Seq<u8>)
    requires
        a == b,
    ensures
        bytes_le(a, b) && bytes_le(b, a),
{
    lemma_bytes_total(a, a, a);
}

/// Two byte strings that are equivalent in `bytes_le` are equal.
pub proof fn lemma_bytes_antisymmetric(a: Seq<u8>, b: Seq<u8>)
    requires
        bytes_le(a, b),
        bytes_le(b, a),
    ensures
        a == b,
    decreases a.len(),
{
    if a.len() > 0 && b.len() > 0 {
        lemma_bytes_antisymmetric(a.drop_first(), b.drop_first());
        assert(a =~= seq![a[0]] + a.drop_first());
        assert(b =~= seq![b[0]] + b.drop_first());
    }
}

/// Two paths that are equivalent in `path_le` are equal.
pub proof fn lemma_path_antisymmetric(a: Seq<Seq<u8>>, b: Seq<Seq<u8>>)
    requires
        path_le(a, b),
        path_le(b, a),
    ensures
        a == b,
    decreases a.len(),
{
    if a.len() > 0 && b.len() > 0 {
        lemma_bytes_total(a[0], b[0], a[0]);
        if bytes_le(a[0], b[0]) && bytes_le(b[0], a[0]) {
            lemma_bytes_antisymmetric(a[0], b[0]);
        }
        lemma_path_antisymmetric(a.drop_first(), b.drop_first());
        assert(a =~= seq![a[0]] + a.drop_first());
        assert(b =~= seq![b[0]] + b.drop_first());
    }
}

/// Compares two byte strings in `bytes_le`.
fn compare_bytes(a: &[u8], b: &[u8]) -> (r: Ordering)
    ensures
        r == Ordering::Less <==> bytes_le(a@, b@) && !bytes_le(b@, a@),
        r == Ordering::Equal <==> bytes_le(a@, b@) && bytes_le(b@, a@),
        r == Ordering::Greater <==> bytes_le(b@, a@) && !bytes_le(a@, b@),
{
    let mut i: usize = 0;
    proof {
        assert(a@.skip(0) =~= a@);
        assert(b@.skip(0) =~= b@);
    }
    while i < a.len() && i < b.len()
        invariant
            0 <= i <= a@.len(),
            i <= b@.len(),
            bytes_le(a@, b@) == bytes_le(a@.skip(i as int), b@.skip(i as int)),
            bytes_le(b@, a@) == bytes_le(b@.skip(i as int), a@.skip(i as int)),
        decreases a@.len() - i,
    {
        if a[i] < b[i] {
            return Ordering::Less;
        }
        if a[i] > b[i] {
            return Ordering::Greater;
        }
        proof {
            lemma_lex_step(a@, b@, i as int, |x: u8, y: u8| byte_le(x, y));
        }
        i = i + 1;
    }
    if a.len() < b.len() {
        Ordering::Less
    } else if a.len() == b.len() {
        Ordering::Equal
    } else {
        Ordering::Greater
    }
}

/// A single component of a path: a byte string.
#[derive(Clone, Debug, Eq, PartialOrd, Ord)]
pub struct Component {
    inner: Vec<u8>,
}

impl View for Component {
    type V = Seq<u8>;

    closed spec fn view(&self) -> Seq<u8> {
        self.inner@
    }
}

impl Component {
    /// The component that consists of `bytes`.
    pub fn new(bytes: Vec<u8>) -> (r: Component)
        ensures
            r@ == bytes@,
    {
        Component { inner: bytes }
    }

    /// The bytes of this component.
    pub fn bytes(&self) -> (r: &[u8])
        ensures
            r@ == self@,
    {
        self.inner.as_slice()
    }
}

impl Ordered for Component {
    open spec fn ordered_le(self, other: Component) -> bool {
        bytes_le(self@, other@)
    }

    proof fn lemma_total_order(a: Component, b: Component, c: Component) {
        lemma_bytes_total(a@, b@, c@);
    }

    fn compare(&self, other: &Component) -> (r: Ordering) {
        compare_bytes(self.inner.as_slice(), other.inner.as_slice())
    }

    fn duplicate(&self) -> (r: Component) {
        let inner = self.inner.clone();
        proof {
            assert(inner@ =~= self.inner@);
            lemma_bytes_eq_equiv(inner@, self@);
        }
        Component { inner }
    }
}

impl PartialEq for Component {
    fn eq(&self, other: &Component) -> (r: bool) {
        let r = match compare_bytes(self.inner.as_slice(), other.inner.as_slice()) {
            Ordering::Equal => true,
            _ => false,
        };
        proof {
            if r {
                lemma_bytes_antisymmetric(self@, other@);
            } else {
                lemma_bytes_total(self@, self@, self@);
            }
        }
        r
    }
}

impl vstd::std_specs::cmp::PartialEqSpecImpl for Component {
    open spec fn obeys_eq_spec() -> bool {
        true
    }

    open spec fn eq_spec(&self, other: &Component) -> bool {
        self@ == other@
    }
}

/// Declares std's `Utf8Error`, which a failed UTF-8 decoding gives.
#[verifier::external_type_specification]
#[verifier::external_body]
pub struct ExUtf8Error(core::str::Utf8Error);

/// Relies on `core::str::from_utf8`: it succeeds exactly when the bytes are UTF-8, and the
/// string it gives holds those bytes.
#[verifier::external_body]
fn decode_utf8(bytes: &[u8]) -> (r: Result<&str, core::str::Utf8Error>)
    ensures
        r is Ok <==> vstd::utf8::valid_utf8(bytes@),
        r matches Ok(s) ==> s.spec_bytes() == bytes@,
{
    core::str::from_utf8(bytes)
}

/// A component whose bytes are UTF-8, as a string.
#[derive(Copy, Clone, Debug, PartialEq, Eq, PartialOrd, Ord, Hash)]
pub struct StrComponent<'l> {
    /// The component's bytes, as a string.
    pub str: &'l str,
}

impl<'l> StrComponent<'l> {
    /// The string that `bytes` encode, or the decoding error when they are not UTF-8.
    pub fn try_from_bytes(bytes: &'l [u8]) -> (r: Result<StrComponent<'l>, core::str::Utf8Error>)
        ensures
            r is Ok <==> vstd::utf8::valid_utf8(bytes@),
            r matches Ok(c) ==> c.str.spec_bytes() == bytes@,
    {
        match decode_utf8(bytes) {
            Ok(s) => Ok(StrComponent { str: s }),
            Err(e) => Err(e),
        }
    }

    /// The string of `component`, or the decoding error when its bytes are not UTF-8.
    pub fn try_from_component(component: &'l Component) -> (r: Result<
        StrComponent<'l>,
        core::str::Utf8Error,
    >)
        ensures
            r is Ok <==> vstd::utf8::valid_utf8(component@),
            r matches Ok(c) ==> c.str.spec_bytes() == component@,
    {
        StrComponent::try_from_bytes(component.bytes())
    }

    /// The component's bytes.
    pub fn as_bytes(&self) -> (r: &'l [u8])
        ensures
            r@ == self.str.spec_bytes(),
    {
        self.str.as_bytes()
    }
}

/// The view of a component list.
pub open spec fn components_view(cs: Seq<Component>) -> Seq<Seq<u8>> {
    cs.map_values(|c: Component| c@)
}

/// The bytes of a path's components, in order.
#[derive(Clone, Debug, Eq, PartialOrd, Ord)]
pub struct Path {
    components: Vec<Component>,
}

impl View for Path {
    type V = Seq<Seq<u8>>;

    closed spec fn view(&self) -> Seq<Seq<u8>> {
        components_view(self.components@)
    }
}

/// `a` is a prefix of `b`: the first components of `b` are exactly those of `a`.
pub open spec fn is_prefix(a: Seq<Seq<u8>>, b: Seq<Seq<u8>>) -> bool {
    a.len() <= b.len() && b.subrange(0, a.len() as int) == a
}

/// Compares two component lists in `path_le`.
fn compare_components(a: &Vec<Component>, b: &Vec<Component>) -> (r: Ordering)
    ensures
        r == Ordering::Less <==> path_le(components_view(a@), components_view(b@))
            && !path_le(components_view(b@), components_view(a@)),
        r == Ordering::Equal <==> path_le(components_view(a@), components_view(b@))
            && path_le(components_view(b@), components_view(a@)),
        r == Ordering::Greater <==> path_le(components_view(b@), components_view(a@))
            && !path_le(components_view(a@), components_view(b@)),
{
    let ghost va = components_view(a@);
    let ghost vb = components_view(b@);
    let mut i: usize = 0;
    proof {
        assert(va.skip(0) =~= va);
        assert(vb.skip(0) =~= vb);
    }
    while i < a.len() && i < b.len()
        invariant
            0 <= i <= a@.len(),
            i <= b@.len(),
            va == components_view(a@),
            vb == components_view(b@),
            path_le(va, vb) == path_le(va.skip(i as int), vb.skip(i as int)),
            path_le(vb, va) == path_le(vb.skip(i as int), va.skip(i as int)),
        decreases a@.len() - i,
    {
        let c = a[i].compare(&b[i]);
        proof {
            assert(va.skip(i as int)[0] == a@[i as int]@);
            assert(vb.skip(i as int)[0] == b@[i as int]@);
        }
        match c {
            Ordering::Less => {
                return Ordering::Less;
            },
            Ordering::Greater => {
                return Ordering::Greater;
            },
            Ordering::Equal => {},
        }
        proof {
            lemma_lex_step(va, vb, i as int, |x: Seq<u8>, y: Seq<u8>| bytes_le(x, y));
        }
        i = i + 1;
    }
    if a.len() < b.len() {
        Ordering::Less
    } else if a.len() == b.len() {
        Ordering::Equal
    } else {
        Ordering::Greater
    }
}

impl Ordered for Path {
    open spec fn ordered_le(self, other: Path) -> bool {
        path_le(self@, other@)
    }

    proof fn lemma_total_order(a: Path, b: Path, c: Path) {
        lemma_path_total(a@, b@, c@);
    }

    fn compare(&self, other: &Path) -> (r: Ordering) {
        compare_components(&self.components, &other.components)
    }

    fn duplicate(&self) -> (r: Path) {
        let r = self.duplicate_path();
        proof {
            lemma_path_total(r@, r@, r@);
        }
        r
    }
}

impl Least for Path {
    fn least() -> (r: Path) {
        let r = Path::empty();
        proof {
            assert forall|v: Path| #[trigger] Path::ordered_le(r, v) by {
                assert(r@.len() == 0);
            }
        }
        r
    }
}

impl PartialEq for Path {
    fn eq(&self, other: &Path) -> (r: bool) {
        self.eq_components(other)
    }
}

impl vstd::std_specs::cmp::PartialEqSpecImpl for Path {
    open spec fn obeys_eq_spec() -> bool {
        true
    }

    open spec fn eq_spec(&self, other: &Path) -> bool {
        self@ == other@
    }
}

/// The limits that a deployment puts on paths.
#[derive(Copy, Clone, Debug, PartialEq, Eq, Hash)]
pub struct PathLimits {
    /// The most bytes that one component may hold.
    pub max_component_length: usize,
    /// The most components that a path may hold.
    pub max_component_count: usize,
    /// The most bytes that all components of a path may hold together.
    pub max_path_length: usize,
}

/// Which limits the component at `index` breaks, for the first component that breaks one.
#[derive(Copy, Clone, Debug, PartialEq, Eq, Hash)]
pub struct PathLimitError {
    /// The position of the first component that breaks a limit.
    pub index: usize,
    /// That component is within the component-length limit.
    pub within_max_component_length: bool,
    /// That component's position is within the component-count limit.
    pub within_max_component_count: bool,
    /// The bytes up to and including that component are within the path-length limit.
    pub within_max_path_length: bool,
}

/// The number of bytes in the first `n` components of `cs`.
pub open spec fn total_length(cs: Seq<Seq<u8>>, n: nat) -> nat
    decreases n,
{
    if n == 0 || n > cs.len() {
        0
    } else {
        total_length(cs, (n - 1) as nat) + cs[n - 1].len()
    }
}

/// The component at index `i` is within the component-length limit.
pub open spec fn length_ok(cs: Seq<Seq<u8>>, limits: PathLimits, i: int) -> bool {
    cs[i].len() <= limits.max_component_length
}

/// Position `i` is within the component-count limit.
pub open spec fn count_ok(limits: PathLimits, i: int) -> bool {
    i < limits.max_component_count
}

/// The components up to and including index `i` are within the path-length limit.
pub open spec fn total_ok(cs: Seq<Seq<u8>>, limits: PathLimits, i: int) -> bool {
    total_length(cs, (i + 1) as nat) <= limits.max_path_length
}

/// The component at index `i` keeps every limit.
pub open spec fn within_limits_at(cs: Seq<Seq<u8>>, limits: PathLimits, i: int) -> bool {
    length_ok(cs, limits, i) && count_ok(limits, i) && total_ok(cs, limits, i)
}

/// Every component of `cs` keeps every limit.
pub open spec fn within_limits(cs: Seq<Seq<u8>>, limits: PathLimits) -> bool {
    forall|i: int| 0 <= i < cs.len() ==> #[trigger] within_limits_at(cs, limits, i)
}

/// The view of a list of byte vectors.
pub open spec fn vecs_view(vs: Seq<Vec<u8>>) -> Seq<Seq<u8>> {
    vs.map_values(|v: Vec<u8>| v@)
}

impl Path {
    /// `self` is ordered at or before the path `p`.
    pub open spec fn le_path(self, p: Seq<Seq<u8>>) -> bool {
        path_le(self@, p)
    }

    /// The empty path, with no components.
    pub fn empty() -> (r: Path)
        ensures
            r@ == Seq::<Seq<u8>>::empty(),
    {
        let r = Path { components: Vec::new() };
        proof {
            assert(r@ =~= Seq::<Seq<u8>>::empty());
        }
        r
    }

    /// The path whose components are `components`, in order, with no limit applied.
    pub fn from_components(components: Vec<Vec<u8>>) -> (r: Path)
        ensures
            r@ == vecs_view(components@),
    {
        let mut out: Vec<Component> = Vec::new();
        let ghost all = vecs_view(components@);
        let mut i: usize = 0;
        while i < components.len()
            invariant
                i <= components@.len(),
                all == vecs_view(components@),
                out@.len() == i,
                components_view(out@) =~= all.subrange(0, i as int),
            decreases components@.len() - i,
        {
            let c = components[i].clone();
            proof {
                assert(c@ =~= components@[i as int]@);
            }
            let comp = Component::new(c);
            out.push(comp);
            proof {
                assert(out@[i as int]@ == all[i as int]);
            }
            i = i + 1;
            proof {
                assert(components_view(out@) =~= all.subrange(0, i as int));
            }
        }
        proof {
            assert(all.subrange(0, i as int) =~= all);
        }
        Path { components: out }
    }

    /// Like `from_components`, but each component must keep the deployment's limits: the
    /// error names the first component that does not, and which limits it breaks.
    pub fn from_path_limited(limits: PathLimits, components: Vec<Vec<u8>>) -> (r: Result<
        Path,
        PathLimitError,
    >)
        ensures
            match r {
                Ok(p) => p@ == vecs_view(components@) && within_limits(
                    vecs_view(components@),
                    limits,
                ),
                Err(e) => {
                    let cs = vecs_view(components@);
                    &&& 0 <= e.index < cs.len()
                    &&& forall|j: int| 0 <= j < e.index ==> #[trigger] within_limits_at(
                        cs,
                        limits,
                        j,
                    )
                    &&& e.within_max_component_length == length_ok(cs, limits, e.index as int)
                    &&& e.within_max_component_count == count_ok(limits, e.index as int)
                    &&& e.within_max_path_length == total_ok(cs, limits, e.index as int)
                    &&& !within_limits_at(cs, limits, e.index as int)
                },
            },
    {
        let ghost cs = vecs_view(components@);
        let mut total: usize = 0;
        let mut i: usize = 0;
        while i < components.len()
            invariant
                cs == vecs_view(components@),
                i <= components@.len(),
                total as nat == total_length(cs, i as nat),
                forall|j: int| 0 <= j < i ==> #[trigger] within_limits_at(cs, limits, j),
            decreases components@.len() - i,
        {
            let c_sz = components[i].len();
            proof {
                assert(cs[i as int].len() == c_sz);
            }
            let within_max_component_length = c_sz <= limits.max_component_length;
            let within_max_component_count = i < limits.max_component_count;
            let within_max_path_length = match total.checked_add(c_sz) {
                Some(t) => {
                    total = t;
                    t <= limits.max_path_length
                },
                None => false,
            };
            if !(within_max_component_length && within_max_component_count
                && within_max_path_length) {
                return Err(
                    PathLimitError {
                        index: i,
                        within_max_component_length,
                        within_max_component_count,
                        within_max_path_length,
                    },
                );
            }
            i = i + 1;
        }
        Ok(Path::from_components(components))
    }

    /// A copy of this path.
    pub fn duplicate_path(&self) -> (r: Path)
        ensures
            r@ == self@,
    {
        let mut out: Vec<Component> = Vec::new();
        let mut i: usize = 0;
        while i < self.components.len()
            invariant
                i <= self.components@.len(),
                out@.len() == i,
                components_view(out@) =~= self@.subrange(0, i as int),
            decreases self.components@.len() - i,
        {
            let c = self.components[i].duplicate();
            proof {
                lemma_bytes_antisymmetric(c@, self.components@[i as int]@);
            }
            out.push(c);
            proof {
                assert(out@[i as int]@ == self@[i as int]);
            }
            i = i + 1;
            proof {
                assert(components_view(out@) =~= self@.subrange(0, i as int));
            }
        }
        proof {
            assert(self@.subrange(0, i as int) =~= self@);
        }
        Path { components: out }
    }

    /// The number of components.
    pub fn component_count(&self) -> (r: usize)
        ensures
            r == self@.len(),
    {
        self.components.len()
    }

    /// The component at `index`.
    pub fn component(&self, index: usize) -> (r: &Component)
        requires
            index < self@.len(),
        ensures
            r@ == self@[index as int],
    {
        &self.components[index]
    }

    /// `self` is a prefix of `other`: the first components of `other` are exactly those of
    /// `self`. `["a"]` prefixes `["a"]` and `["a", "b"]`, but not `["ab"]`.
    pub fn is_prefix_of(&self, other: &Path) -> (r: bool)
        ensures
            r == is_prefix(self@, other@),
    {
        let n = self.components.len();
        if n > other.components.len() {
            return false;
        }
        let mut i: usize = 0;
        while i < n
            invariant
                n == self@.len(),
                n <= other@.len(),
                i <= n,
                forall|j: int| 0 <= j < i ==> #[trigger] self@[j] == other@[j],
            decreases n - i,
        {
            let ord = compare_bytes(self.components[i].bytes(), other.components[i].bytes());
            match ord {
                Ordering::Equal => {},
                _ => {
                    proof {
                        assert(other@.subrange(0, n as int)[i as int] == other@[i as int]);
                    }
                    return false;
                },
            }
            proof {
                lemma_bytes_antisymmetric(self@[i as int], other@[i as int]);
            }
            i = i + 1;
        }
        proof {
            assert(other@.subrange(0, n as int) =~= self@);
        }
        true
    }

    /// `self` and `other` have the same components.
    pub fn eq_components(&self, other: &Path) -> (r: bool)
        ensures
            r == (self@ == other@),
    {
        match compare_components(&self.components, &other.components) {
            Ordering::Equal => {
                proof {
                    lemma_path_antisymmetric(self@, other@);
                }
                true
            },
            _ => {
                proof {
                    lemma_path_total(self@, self@, self@);
                }
                false
            },
        }
    }

    /// Compares `self` and `other` lexicographically by components.
    pub fn cmp_components(&self, other: &Path) -> (r: Ordering)
        ensures
            r == Ordering::Less <==> path_le(self@, other@) && self@ != other@,
            r == Ordering::Equal <==> self@ == other@,
            r == Ordering::Greater <==> path_le(other@, self@) && self@ != other@,
    {
        let r = compare_components(&self.components, &other.components);
        proof {
            lemma_path_total(self@, other@, self@);
            lemma_path_total(self@, self@, self@);
            if path_le(self@, other@) && path_le(other@, self@) {
                lemma_path_antisymmetric(self@, other@);
            }
        }
        r
    }
}

} // verus!
