use super::tree::Applier;
use crate::traits::monoid::{is_identity, Monoid};
use crate::traits::semigroup::{fold1, Semigroup};
use vstd::prelude::*;

verus! {

/// A set of colors `0..128`, one bit per color.
#[derive(Clone, Copy, PartialEq, Eq, Debug)]
pub struct Mask(pub u128);

/// Color `c` is in the set `m`.
pub open spec fn has_color(m: u128, c: int) -> bool {
    0 <= c < 128 && (m >> (c as u128)) & 1u128 == 1u128
}

/// The set of the single color `t`; empty when `t` names no color.
pub open spec fn color_bit(t: int) -> u128 {
    if 0 <= t < 128 {
        1u128 << (t as u128)
    } else {
        0u128
    }
}

/// The colors that `map` sends the colors of `m` below `k` to.
pub open spec fn image_below(map: Seq<u8>, m: u128, k: nat) -> u128
    decreases k,
{
    if k == 0 {
        0u128
    } else {
        image_below(map, m, (k - 1) as nat) | (if has_color(m, k - 1) {
            color_bit(map[k - 1] as int)
        } else {
            0u128
        })
    }
}

/// The colors that `map` sends the colors of `m` to.
pub open spec fn image(map: Seq<u8>, m: u128) -> u128 {
    image_below(map, m, 128)
}

/// The bits of `m` below `k`.
pub open spec fn low_bits(m: u128, k: nat) -> u128 {
    if k < 128 {
        m & !(u128::MAX << (k as u128))
    } else {
        m
    }
}

impl Semigroup for Mask {
    open spec fn spec_merge(self, other: Self) -> Self {
        Mask(self.0 | other.0)
    }

    proof fn lemma_merge_assoc(a: Self, b: Self, c: Self) {
        let (x, y, z) = (a.0, b.0, c.0);
        assert(x | (y | z) == (x | y) | z) by (bit_vector);
    }

    fn merge(self, other: Self) -> (r: Self) {
        Mask(self.0 | other.0)
    }

    fn duplicate(&self) -> (r: Self) {
        *self
    }

    fn merge_assign(&mut self, other: &Self)
        where Self: Clone,
    {
        self.0 = self.0 | other.0;
    }
}

impl Monoid for Mask {
    open spec fn spec_empty() -> Self {
        Mask(0)
    }

    proof fn lemma_empty_identity(a: Self) {
        let x = a.0;
        assert(0u128 | x == x && x | 0u128 == x) by (bit_vector);
    }

    fn empty() -> (r: Self) {
        Mask(0)
    }
}

/// Union of bit sets: exchange, identity, idempotence, associativity, commutativity.
proof fn lemma_or_facts(a: u128, b: u128, c: u128, d: u128)
    ensures
        (a | b) | (c | d) == (a | c) | (b | d),
        a | 0u128 == a,
        0u128 | a == a,
        a | a == a,
        (a | b) | c == a | (b | c),
        a | b == b | a,
        0u128 | 0u128 == 0u128,
{
    assert((a | b) | (c | d) == (a | c) | (b | d)) by (bit_vector);
    assert(a | 0u128 == a && 0u128 | a == a && a | a == a) by (bit_vector);
    assert((a | b) | c == a | (b | c)) by (bit_vector);
    assert(a | b == b | a) by (bit_vector);
    assert(0u128 | 0u128 == 0u128) by (bit_vector);
}

/// The colors of a union are those of either part.
proof fn lemma_has_color_or(a: u128, b: u128, c: int)
    ensures
        has_color(a | b, c) == (has_color(a, c) || has_color(b, c)),
{
    if 0 <= c < 128 {
        let k = c as u128;
        assert(((a | b) >> k) & 1u128 == 1u128 <==> ((a >> k) & 1u128 == 1u128 || (b >> k) & 1u128 == 1u128)) by (bit_vector);
    }
}

/// The image of a union is the union of the images.
pub proof fn lemma_image_or(map: Seq<u8>, a: u128, b: u128, k: nat)
    ensures
        image_below(map, a | b, k) == image_below(map, a, k) | image_below(map, b, k),
    decreases k,
{
    if k > 0 {
        let c = k - 1;
        lemma_image_or(map, a, b, c as nat);
        lemma_has_color_or(a, b, c);
        let ia = image_below(map, a, c as nat);
        let ib = image_below(map, b, c as nat);
        let bit = color_bit(map[c] as int);
        let ta: u128 = if has_color(a, c) { bit } else { 0u128 };
        let tb: u128 = if has_color(b, c) { bit } else { 0u128 };
        lemma_or_facts(ia, ib, ta, tb);
        lemma_or_facts(bit, 0u128, 0u128, 0u128);
        let tab: u128 = if has_color(a | b, c) { bit } else { 0u128 };
        assert(tab == ta | tb);
        assert(image_below(map, a | b, k) == (ia | ib) | tab);
        assert(image_below(map, a, k) == ia | ta);
        assert(image_below(map, b, k) == ib | tb);
        assert((ia | ib) | (ta | tb) == (ia | ta) | (ib | tb));
    } else {
        lemma_or_facts(0u128, 0u128, 0u128, 0u128);
    }
}

/// Nothing has no image.
proof fn lemma_image_zero(map: Seq<u8>, k: nat)
    ensures
        image_below(map, 0u128, k) == 0u128,
    decreases k,
{
    if k > 0 {
        let c = k - 1;
        lemma_image_zero(map, c as nat);
        if c < 128 {
            let cu = c as u128;
            assert((0u128 >> cu) & 1u128 == 0u128) by (bit_vector);
        }
        lemma_or_facts(0u128, 0u128, 0u128, 0u128);
    }
}

/// A single color goes to the single color it is sent to.
proof fn lemma_image_single(map: Seq<u8>, d: int, k: nat)
    requires
        0 <= d < 128,
    ensures
        image_below(map, color_bit(d), k) == if d < k { color_bit(map[d] as int) } else { 0u128 },
    decreases k,
{
    if k > 0 {
        let c = k - 1;
        lemma_image_single(map, d, c as nat);
        if c < 128 {
            let cu = c as u128;
            let du = d as u128;
            assert(((1u128 << du) >> cu) & 1u128 == 1u128 <==> cu == du) by (bit_vector)
                requires
                    du < 128,
                    cu < 128,
            ;
        }
        lemma_or_facts(color_bit(map[d] as int), 0u128, 0u128, 0u128);
    }
}

/// A map that keeps every color of `m` sends `m` to itself.
proof fn lemma_image_fixed(map: Seq<u8>, m: u128, k: nat)
    requires
        k <= 128,
        forall|c: int| 0 <= c < 128 && has_color(m, c) ==> map[c] == c,
    ensures
        image_below(map, m, k) == low_bits(m, k),
    decreases k,
{
    if k == 0 {
        assert(m & !(u128::MAX << 0u128) == 0u128) by (bit_vector);
    } else {
        let c = k - 1;
        lemma_image_fixed(map, m, c as nat);
        let cu = c as u128;
        let cu1 = k as u128;
        if has_color(m, c) {
            assert(map[c] == c);
        }
        assert((m & !(u128::MAX << cu)) | (if (m >> cu) & 1u128 == 1u128 { 1u128 << cu } else { 0u128 }) == (if cu1 < 128 {
            m & !(u128::MAX << cu1)
        } else {
            m
        })) by (bit_vector)
            requires
                cu < 128,
                cu1 == cu + 1,
        ;
    }
}

/// The number of zero bits below the lowest one bit of `m`; 128 for zero.
///
/// Calls `u128::trailing_zeros`. Stated: the count as its documentation defines it, so that
/// bit `r` of a non-zero `m` is set and every bit below it is clear.
#[verifier::external_body]
fn trailing_zeros(m: u128) -> (r: u32)
    ensures
        r <= 128,
        (r == 128) == (m == 0),
        r < 128 ==> (m >> (r as u128)) & 1u128 == 1u128,
        r < 128 ==> m & !(u128::MAX << (r as u128)) == 0u128,
{
    m.trailing_zeros()
}

/// Clearing the lowest set bit `t` of `m`: what is left and `t` make `m` again, and what is
/// left holds the other bits of `m`.
proof fn lemma_lowest_bit_bits(m: u128, r1: u128, t: u128)
    by (bit_vector)
    requires
        m != 0u128,
        r1 == m - 1,
        t < 128,
        (m >> t) & 1u128 == 1u128,
        m & !(u128::MAX << t) == 0u128,
    ensures
        m == (m & r1) | (1u128 << t),
        (m & r1) < m,
        forall|j: u128| j < 128 ==> ((((m & r1) >> j) & 1u128 == 1u128) <==> ((m >> j) & 1u128 == 1u128 && j != t)),
{
}

/// The colors of `m` with its lowest color `t` removed.
proof fn lemma_lowest_color(m: u128, r1: u128, t: u128)
    requires
        m != 0u128,
        r1 == m - 1,
        t < 128,
        (m >> t) & 1u128 == 1u128,
        m & !(u128::MAX << t) == 0u128,
    ensures
        m == (m & r1) | color_bit(t as int),
        (m & r1) < m,
        forall|c: int| #[trigger] has_color(m & r1, c) == (has_color(m, c) && c != t),
        has_color(m, t as int),
{
    lemma_lowest_bit_bits(m, r1, t);
    assert forall|c: int| #[trigger] has_color(m & r1, c) == (has_color(m, c) && c != t) by {
        if 0 <= c < 128 {
            let j = c as u128;
            assert(j < 128);
        }
    }
}

/// The colors of an element of a sequence of masks are among the colors of their merge.
proof fn lemma_fold1_colors(s: Seq<Mask>, i: int, c: int)
    requires
        0 <= i < s.len(),
        has_color(s[i].0, c),
    ensures
        has_color(fold1(s).0, c),
    decreases s.len(),
{
    if s.len() > 1 {
        let d = s.drop_last();
        lemma_has_color_or(fold1(d).0, s.last().0, c);
        if i < s.len() - 1 {
            assert(d[i] == s[i]);
            lemma_fold1_colors(d, i, c);
        }
    }
}

/// A map of colors taken after another.
proof fn lemma_image_compose(outer: Seq<u8>, inner: Seq<u8>, v: u128, k: nat)
    requires
        k <= 128,
        outer.len() == 128,
        inner.len() == 128,
    ensures
        image_below(compose_maps(outer, inner), v, k) == image(outer, image_below(inner, v, k)),
    decreases k,
{
    if k == 0 {
        lemma_image_zero(outer, 128);
    } else {
        let c = k - 1;
        lemma_image_compose(outer, inner, v, c as nat);
        let p = image_below(inner, v, c as nat);
        let t: u128 = if has_color(v, c) { color_bit(inner[c] as int) } else { 0u128 };
        lemma_image_or(outer, p, t, 128);
        let comp = compose_maps(outer, inner);
        let lhs_t: u128 = if has_color(v, c) { color_bit(comp[c] as int) } else { 0u128 };
        if has_color(v, c) && inner[c] < 128 {
            lemma_image_single(outer, inner[c] as int, 128);
        } else {
            lemma_image_zero(outer, 128);
        }
        assert(image(outer, t) == lhs_t);
    }
}

/// A recoloring of the colors `0..128`: color `c` becomes `map[c]`. An entry of 128 or more
/// names no color, and a color sent there leaves the sets the map is applied to.
#[derive(Clone)]
pub struct ByteMap {
    map: [u8; 128],
}

/// The map that keeps every color.
pub open spec fn identity_map() -> Seq<u8> {
    Seq::new(128, |i: int| i as u8)
}

/// `outer` after `inner`; an entry of `inner` that names no color stays as it is.
pub open spec fn compose_maps(outer: Seq<u8>, inner: Seq<u8>) -> Seq<u8> {
    Seq::new(128, |i: int| if inner[i] < 128 { outer[inner[i] as int] } else { inner[i] })
}

/// `map` with each entry `from` replaced by `to`.
pub open spec fn replace_entries(map: Seq<u8>, from: u8, to: u8) -> Seq<u8> {
    Seq::new(map.len(), |i: int| if map[i] == from { to } else { map[i] })
}

/// The array whose first `k` entries are those of `s` and whose others are zero.
spec fn array_prefix(s: Seq<u8>, k: nat) -> [u8; 128]
    decreases k,
{
    if k == 0 {
        vstd::array::spec_array_fill_for_copy_type::<u8, 128>(0u8)
    } else {
        vstd::array::spec_array_update(array_prefix(s, (k - 1) as nat), k - 1, s[k - 1])
    }
}

/// The array that holds `s`.
spec fn array_of(s: Seq<u8>) -> [u8; 128] {
    array_prefix(s, 128)
}

/// The first `k` entries of `array_prefix(s, k)` are those of `s`.
proof fn lemma_array_prefix(s: Seq<u8>, k: nat)
    requires
        k <= 128,
    ensures
        forall|i: int| 0 <= i < k ==> #[trigger] array_prefix(s, k)@[i] == s[i],
    decreases k,
{
    if k > 0 {
        lemma_array_prefix(s, (k - 1) as nat);
        let a = array_prefix(s, (k - 1) as nat);
        assert(array_prefix(s, k)@ == a@.update(k - 1, s[k - 1]));
    }
}

/// The array made from 128 entries holds them.
proof fn lemma_array_of(s: Seq<u8>)
    requires
        s.len() == 128,
    ensures
        array_of(s)@ == s,
{
    lemma_array_prefix(s, 128);
    assert(array_of(s)@ =~= s);
}

/// An array is the array made from its own entries.
proof fn lemma_array_of_view(a: [u8; 128])
    ensures
        array_of(a@) == a,
{
    lemma_array_of(a@);
    assert(array_of(a@) =~= a);
}

impl ByteMap {
    /// Where the map sends each color.
    pub closed spec fn spec_map(&self) -> Seq<u8> {
        self.map@
    }

    /// The map that keeps every color.
    pub fn identity() -> (r: Self)
        ensures
            r.spec_map() == identity_map(),
    {
        let mut map = [0u8; 128];
        let mut i: usize = 0;
        while i < 128
            invariant
                i <= 128,
                forall|j: int| 0 <= j < i ==> #[trigger] map@[j] == j as u8,
            decreases 128 - i,
        {
            map[i] = i as u8;
            i = i + 1;
        }
        assert(map@ =~= identity_map());
        ByteMap { map }
    }

    /// The map that sends `from` to `to` and keeps every other color.
    pub fn replace(from: u8, to: u8) -> (r: Self)
        ensures
            r.spec_map() == replace_entries(identity_map(), from, to),
    {
        let mut map = Self::identity();
        map.apply_pair(from, to);
        map
    }

    /// Sends every color that the map sends to `from` to `to` instead.
    pub fn apply_pair(&mut self, from: u8, to: u8)
        ensures
            final(self).spec_map() == replace_entries(old(self).spec_map(), from, to),
    {
        if from == to {
            assert(replace_entries(self.map@, from, to) =~= self.map@);
            return;
        }
        let ghost old_map = self.map@;
        let mut i: usize = 0;
        while i < 128
            invariant
                i <= 128,
                old_map.len() == 128,
                forall|j: int| 0 <= j < i ==> #[trigger] self.map@[j] == if old_map[j] == from { to } else { old_map[j] },
                forall|j: int| i <= j < 128 ==> #[trigger] self.map@[j] == old_map[j],
            decreases 128 - i,
        {
            if self.map[i] == from {
                self.map[i] = to;
            }
            i = i + 1;
        }
        assert(self.map@ =~= replace_entries(old_map, from, to));
    }

    /// The set of the colors that the colors of `mask` are sent to.
    pub fn apply_to_mask(&self, mask: Mask) -> (r: Mask)
        ensures
            r.0 == image(self.spec_map(), mask.0),
    {
        let ghost map = self.map@;
        let mut next: u128 = 0;
        let mut rest: u128 = mask.0;
        proof {
            lemma_or_facts(image(map, rest), 0u128, 0u128, 0u128);
        }
        while rest != 0
            invariant
                map == self.map@,
                next | image(map, rest) == image(map, mask.0),
            decreases rest,
        {
            let color = trailing_zeros(rest);
            let target = self.map[color as usize];
            let ghost old_rest = rest;
            let ghost old_next = next;
            proof {
                lemma_lowest_color(rest, (rest - 1) as u128, color as u128);
            }
            if target < 128 {
                next = next | (1u128 << target);
            } else {
                proof {
                    lemma_or_facts(next, 0u128, 0u128, 0u128);
                }
            }
            rest = rest & (rest - 1);
            proof {
                let cb = color_bit(map[color as int] as int);
                assert(next == old_next | cb);
                lemma_image_or(map, rest, color_bit(color as int), 128);
                lemma_image_single(map, color as int, 128);
                lemma_or_facts(old_next, cb, image(map, rest), 0u128);
                lemma_or_facts(image(map, rest), cb, 0u128, 0u128);
                assert(old_next | image(map, old_rest) == image(map, mask.0));
                assert(image(map, old_rest) == image(map, rest) | cb);
            }
        }
        proof {
            lemma_image_zero(map, 128);
            lemma_or_facts(next, 0u128, 0u128, 0u128);
        }
        Mask(next)
    }
}

impl Semigroup for ByteMap {
    closed spec fn spec_merge(self, other: Self) -> Self {
        ByteMap { map: array_of(compose_maps(self.map@, other.map@)) }
    }

    proof fn lemma_merge_assoc(a: Self, b: Self, c: Self) {
        let ab = compose_maps(a.map@, b.map@);
        let bc = compose_maps(b.map@, c.map@);
        lemma_array_of(ab);
        lemma_array_of(bc);
        assert(compose_maps(a.map@, array_of(bc)@) =~= compose_maps(array_of(ab)@, c.map@));
    }

    fn merge(self, other: Self) -> (r: Self) {
        let mut map = [0u8; 128];
        let mut i: usize = 0;
        while i < 128
            invariant
                i <= 128,
                forall|j: int| 0 <= j < i ==> #[trigger] map@[j] == compose_maps(self.map@, other.map@)[j],
            decreases 128 - i,
        {
            let inner = other.map[i];
            map[i] = if inner < 128 {
                self.map[inner as usize]
            } else {
                inner
            };
            i = i + 1;
        }
        proof {
            lemma_array_of(compose_maps(self.map@, other.map@));
            assert(map =~= array_of(compose_maps(self.map@, other.map@)));
        }
        ByteMap { map }
    }

    fn duplicate(&self) -> (r: Self) {
        ByteMap { map: self.map }
    }

    fn prepend_assign(&mut self, other: &Self)
        where Self: Clone,
    {
        let ghost old_map = self.map@;
        let mut i: usize = 0;
        while i < 128
            invariant
                i <= 128,
                old_map.len() == 128,
                forall|j: int| 0 <= j < i ==> #[trigger] self.map@[j] == compose_maps(other.map@, old_map)[j],
                forall|j: int| i <= j < 128 ==> #[trigger] self.map@[j] == old_map[j],
            decreases 128 - i,
        {
            let value = self.map[i];
            if value < 128 {
                self.map[i] = other.map[value as usize];
            }
            i = i + 1;
        }
        proof {
            lemma_array_of(compose_maps(other.map@, old_map));
            assert(self.map =~= array_of(compose_maps(other.map@, old_map)));
        }
    }
}

impl Monoid for ByteMap {
    closed spec fn spec_empty() -> Self {
        ByteMap { map: array_of(identity_map()) }
    }

    proof fn lemma_empty_identity(a: Self) {
        lemma_array_of(identity_map());
        lemma_array_of_view(a.map);
        assert(compose_maps(array_of(identity_map())@, a.map@) =~= a.map@);
        assert(compose_maps(a.map@, array_of(identity_map())@) =~= a.map@);
    }

    fn empty() -> (r: Self) {
        let r = Self::identity();
        proof {
            lemma_array_of(identity_map());
            assert(r.map =~= array_of(identity_map()));
        }
        r
    }

    /// Whether the map keeps every color.
    fn is_empty(&self) -> (r: bool)
        ensures
            r == (self.spec_map() == identity_map()),
    {
        let mut i: usize = 0;
        while i < 128
            invariant
                i <= 128,
                forall|j: int| 0 <= j < i ==> #[trigger] self.map@[j] == j as u8,
            decreases 128 - i,
        {
            if self.map[i] != i as u8 {
                proof {
                    assert(self.spec_map()[i as int] != identity_map()[i as int]);
                }
                return false;
            }
            i = i + 1;
        }
        proof {
            lemma_array_of(identity_map());
            assert(self.map =~= array_of(identity_map()));
        }
        true
    }
}

impl ByteMap {
    /// What merging and the identity mean for the maps: `a.merge(b)` sends each color where
    /// `b` and then `a` send it, the identity keeps every color, and a map is fixed by where
    /// it sends the colors.
    pub proof fn lemma_maps(a: Self, b: Self)
        ensures
            a.spec_merge(b).spec_map() == compose_maps(a.spec_map(), b.spec_map()),
            Self::spec_empty().spec_map() == identity_map(),
            a.spec_map().len() == 128,
            a.spec_map() == b.spec_map() ==> a == b,
    {
        lemma_array_of(compose_maps(a.map@, b.map@));
        lemma_array_of(identity_map());
        if a.spec_map() == b.spec_map() {
            assert(a.map =~= b.map);
        }
    }
}

impl ByteMap {
    /// An identity map keeps every color.
    proof fn lemma_identity_keeps(m: Self)
        requires
            is_identity(m),
        ensures
            forall|c: int| 0 <= c < 128 ==> #[trigger] m.map@[c] == c,
    {
        let e = Self::spec_empty();
        assert(m.spec_merge(e) == e);
        lemma_array_of(identity_map());
        lemma_array_of(compose_maps(m.map@, e.map@));
        assert(compose_maps(m.map@, e.map@) == identity_map());
        assert forall|c: int| 0 <= c < 128 implies #[trigger] m.map@[c] == c by {
            assert(compose_maps(m.map@, e.map@)[c] == identity_map()[c]);
        }
    }
}

impl Applier<Mask> for ByteMap {
    open spec fn spec_apply(&self, to: Mask) -> Mask {
        Mask(image(self.spec_map(), to.0))
    }

    proof fn lemma_apply_merge(&self, a: Mask, b: Mask) {
        lemma_image_or(self.map@, a.0, b.0, 128);
    }

    proof fn lemma_apply_identity(&self, a: Mask) {
        assert(a.spec_merge(Mask(0)) == Mask(0));
        let x = a.0;
        assert(x | 0u128 == 0u128 ==> x == 0u128) by (bit_vector);
        lemma_image_zero(self.map@, 128);
    }

    proof fn lemma_apply_compose(m1: Self, m2: Self, v: Mask) {
        let comp = compose_maps(m1.map@, m2.map@);
        lemma_array_of(comp);
        lemma_image_compose(m1.map@, m2.map@, v.0, 128);
    }

    proof fn lemma_identity_applies_nothing(&self, v: Mask) {
        Self::lemma_identity_keeps(*self);
        lemma_image_fixed(self.map@, v.0, 128);
    }

    fn apply(&self, to: &mut Mask) {
        *to = self.apply_to_mask(*to);
    }

    /// Whether some color of `value` is sent elsewhere.
    fn affects(&self, value: &Mask) -> (r: bool)
        ensures
            r == exists|c: int| 0 <= c < 128 && has_color(value.0, c) && #[trigger] self.spec_map()[c] != c,
    {
        let ghost map = self.map@;
        let mut rest: u128 = value.0;
        while rest != 0
            invariant
                map == self.map@,
                forall|c: int| has_color(value.0, c) && !has_color(rest, c) ==> map[c] == c,
                forall|c: int| #[trigger] has_color(rest, c) ==> has_color(value.0, c),
            decreases rest,
        {
            let color = trailing_zeros(rest);
            proof {
                lemma_lowest_color(rest, (rest - 1) as u128, color as u128);
            }
            if self.map[color as usize] != color as u8 {
                proof {
                    assert(self.spec_map()[color as int] != color as int);
                }
                return true;
            }
            rest = rest & (rest - 1);
        }
        proof {
            assert forall|s: Seq<Mask>| s.len() > 0 && #[trigger] fold1(s) == *value implies forall|i: int|
                0 <= i < s.len() ==> self.spec_apply(#[trigger] s[i]) == s[i] by {
                assert forall|i: int| 0 <= i < s.len() implies self.spec_apply(#[trigger] s[i]) == s[i] by {
                    assert forall|c: int| 0 <= c < 128 && has_color(s[i].0, c) implies map[c] == c by {
                        lemma_fold1_colors(s, i, c);
                        let cu = c as u128;
                        assert((0u128 >> cu) & 1u128 == 0u128) by (bit_vector);
                        assert(!has_color(rest, c));
                        assert(has_color(value.0, c));
                    }
                    lemma_image_fixed(map, s[i].0, 128);
                }
            }
            assert forall|c: int| 0 <= c < 128 && has_color(value.0, c) implies #[trigger] self.spec_map()[c] == c by {
                let cu = c as u128;
                assert((0u128 >> cu) & 1u128 == 0u128) by (bit_vector);
                assert(!has_color(rest, c));
            }
        }
        false
    }

    fn apply_slice(&self, to: &mut [Mask]) {
        let mut i: usize = 0;
        while i < to.len()
            invariant
                i <= to@.len(),
                to@.len() == old(to)@.len(),
                forall|j: int| 0 <= j < i ==> to@[j] == self.spec_apply(old(to)@[j]),
                forall|j: int| i <= j < to@.len() ==> to@[j] == old(to)@[j],
            decreases to@.len() - i,
        {
            let value = self.apply_to_mask(to[i]);
            to[i] = value;
            i = i + 1;
        }
        assert(to@ =~= old(to)@.map_values(|v: Mask| self.spec_apply(v)));
    }
}

} // verus!
