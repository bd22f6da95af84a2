use vstd::prelude::*;

verus! {

/// The integer type that holds one bit per registered component.
pub type MaskType = usize;

/// Whether `x` has exactly one bit set.
pub open spec fn is_single_bit(x: usize) -> bool {
    x != 0 && x & ((x - 1) as usize) == 0
}

/// Two different single bits have no bit in common: the masks of two
/// registered component types never overlap.
pub proof fn lemma_single_bits_disjoint(a: usize, b: usize)
    requires
        is_single_bit(a),
        is_single_bit(b),
        a != b,
    ensures
        a & b == 0,
{
    assert(a & b == 0) by (bit_vector)
        requires
            a != 0,
            a & ((a - 1) as usize) == 0,
            b != 0,
            b & ((b - 1) as usize) == 0,
            a != b,
    ;
}

/// Hands out one fresh bit per registered component, lowest bit first.
pub struct NextMask {
    next: usize,
}

impl NextMask {
    /// The bit that the next call of `next` returns.
    pub closed spec fn spec_get(&self) -> usize {
        self.next
    }

    /// The generator only ever holds a single bit.
    pub closed spec fn wf(&self) -> bool {
        is_single_bit(self.next)
    }

    pub fn new() -> (r: NextMask)
        ensures
            r.wf(),
            r.spec_get() == 1,
    {
        assert(is_single_bit(1usize)) by (bit_vector);
        NextMask { next: 1 }
    }

    /// Returns the current bit and moves on to the next one.
    /// Handing out a bit once the top bit has been reached is refused.
    pub fn next(&mut self) -> (r: MaskType)
        requires
            old(self).wf(),
            old(self).spec_get() <= isize::MAX,
        ensures
            r == old(self).spec_get(),
            is_single_bit(r),
            final(self).spec_get() == 2 * old(self).spec_get(),
            final(self).wf(),
    {
        let ret = self.next;
        let doubled = self.next * 2;
        assert(is_single_bit(doubled)) by (bit_vector)
            requires
                ret != 0,
                ret & ((ret - 1) as usize) == 0,
                doubled == ret * 2,
        ;
        self.next = doubled;
        ret
    }

    pub fn get(&self) -> (r: MaskType)
        ensures
            r == self.spec_get(),
    {
        self.next
    }
}

/// A filter over the component mask of an entity: the components it must
/// have, the components it must not have all of, and the components of
/// which it must have at least one.
#[derive(Clone, Copy, PartialEq, Eq, Structural, Hash, Debug)]
pub enum Bitmask {
    All,
    Has(MaskType),
    Not(MaskType),
    Or(MaskType),
    HasNot(MaskType, MaskType),
    HasOr(MaskType, MaskType),
    NotOr(MaskType, MaskType),
    HasNotOr(MaskType, MaskType, MaskType),
}

/// The `has` part of a filter, if it has one.
pub open spec fn has_part(b: Bitmask) -> Option<usize> {
    match b {
        Bitmask::Has(h) => Some(h),
        Bitmask::HasNot(h, _) => Some(h),
        Bitmask::HasOr(h, _) => Some(h),
        Bitmask::HasNotOr(h, _, _) => Some(h),
        _ => None,
    }
}

/// The `not` part of a filter, if it has one.
pub open spec fn not_part(b: Bitmask) -> Option<usize> {
    match b {
        Bitmask::Not(n) => Some(n),
        Bitmask::HasNot(_, n) => Some(n),
        Bitmask::NotOr(n, _) => Some(n),
        Bitmask::HasNotOr(_, n, _) => Some(n),
        _ => None,
    }
}

/// The `or` part of a filter, if it has one.
pub open spec fn or_part(b: Bitmask) -> Option<usize> {
    match b {
        Bitmask::Or(o) => Some(o),
        Bitmask::HasOr(_, o) => Some(o),
        Bitmask::NotOr(_, o) => Some(o),
        Bitmask::HasNotOr(_, _, o) => Some(o),
        _ => None,
    }
}

/// The filter made of the given parts: each combination of present parts
/// is exactly one variant.
pub open spec fn from_parts(h: Option<usize>, n: Option<usize>, o: Option<usize>) -> Bitmask {
    match (h, n, o) {
        (None, None, None) => Bitmask::All,
        (Some(h), None, None) => Bitmask::Has(h),
        (None, Some(n), None) => Bitmask::Not(n),
        (None, None, Some(o)) => Bitmask::Or(o),
        (Some(h), Some(n), None) => Bitmask::HasNot(h, n),
        (Some(h), None, Some(o)) => Bitmask::HasOr(h, o),
        (None, Some(n), Some(o)) => Bitmask::NotOr(n, o),
        (Some(h), Some(n), Some(o)) => Bitmask::HasNotOr(h, n, o),
    }
}

/// Unites two optional masks bit by bit; an absent mask leaves the other.
pub open spec fn union_part(a: Option<usize>, b: Option<usize>) -> Option<usize> {
    match (a, b) {
        (Some(x), Some(y)) => Some(x | y),
        (Some(x), None) => Some(x),
        (None, y) => y,
    }
}

/// How two `not` parts combine: by intersection, except when both filters
/// have a `has` part and one of them an `or` part, where they are united.
pub open spec fn combine_not(a: Bitmask, b: Bitmask) -> Option<usize> {
    match (not_part(a), not_part(b)) {
        (Some(x), Some(y)) => if has_part(a) is Some && has_part(b) is Some && (or_part(a) is Some
            || or_part(b) is Some) {
            Some(x | y)
        } else {
            Some(x & y)
        },
        (Some(x), None) => Some(x),
        (None, y) => y,
    }
}

/// Whether an entity with component mask `mask` passes the filter.
pub open spec fn accepts(b: Bitmask, mask: usize) -> bool {
    &&& (has_part(b) matches Some(h) ==> mask & h == h)
    &&& (not_part(b) matches Some(n) ==> mask & n != n)
    &&& (or_part(b) matches Some(o) ==> mask & o != 0)
}

/// The filter that `a.bitor(b)` builds.
pub open spec fn combined(a: Bitmask, b: Bitmask) -> Bitmask {
    from_parts(
        union_part(has_part(a), has_part(b)),
        combine_not(a, b),
        union_part(or_part(a), or_part(b)),
    )
}

/// Whether `bitor` answers the pair without first swapping it.
pub closed spec fn direct_pair(a: Bitmask, b: Bitmask) -> bool {
    match (a, b) {
        (Bitmask::Has(_), _) => true,
        (Bitmask::Not(_), Bitmask::Has(_)) => false,
        (Bitmask::Not(_), _) => true,
        (Bitmask::HasNot(_, _), Bitmask::Has(_)) => false,
        (Bitmask::HasNot(_, _), Bitmask::Not(_)) => false,
        (Bitmask::HasNot(_, _), _) => true,
        (Bitmask::Or(_), Bitmask::Or(_)) => true,
        (Bitmask::Or(_), Bitmask::HasOr(_, _)) => true,
        (Bitmask::Or(_), Bitmask::NotOr(_, _)) => true,
        (Bitmask::Or(_), Bitmask::HasNotOr(_, _, _)) => true,
        (Bitmask::Or(_), Bitmask::All) => true,
        (Bitmask::HasOr(_, _), Bitmask::HasOr(_, _)) => true,
        (Bitmask::HasOr(_, _), Bitmask::NotOr(_, _)) => true,
        (Bitmask::HasOr(_, _), Bitmask::HasNotOr(_, _, _)) => true,
        (Bitmask::HasOr(_, _), Bitmask::All) => true,
        (Bitmask::NotOr(_, _), Bitmask::NotOr(_, _)) => true,
        (Bitmask::NotOr(_, _), Bitmask::HasNotOr(_, _, _)) => true,
        (Bitmask::NotOr(_, _), Bitmask::All) => true,
        (Bitmask::HasNotOr(_, _, _), Bitmask::HasNotOr(_, _, _)) => true,
        (Bitmask::HasNotOr(_, _, _), Bitmask::All) => true,
        (Bitmask::All, Bitmask::All) => true,
        _ => false,
    }
}

pub closed spec fn bitor_rank(a: Bitmask, b: Bitmask) -> nat {
    if direct_pair(a, b) {
        0
    } else {
        1
    }
}

proof fn lemma_or_commutes(x: usize, y: usize)
    ensures
        x | y == y | x,
        x & y == y & x,
{
    assert(x | y == y | x) by (bit_vector);
    assert(x & y == y & x) by (bit_vector);
}

impl Bitmask {
    pub fn all() -> (r: Bitmask)
        ensures
            r == Bitmask::All,
    {
        Bitmask::All
    }

    pub fn has(has: MaskType) -> (r: Bitmask)
        ensures
            r == Bitmask::Has(has),
    {
        Bitmask::Has(has)
    }

    pub fn not(not: MaskType) -> (r: Bitmask)
        ensures
            r == Bitmask::Not(not),
    {
        Bitmask::Not(not)
    }

    pub fn has_not(has: MaskType, not: MaskType) -> (r: Bitmask)
        ensures
            r == Bitmask::HasNot(has, not),
    {
        Bitmask::HasNot(has, not)
    }

    pub fn or(or: MaskType) -> (r: Bitmask)
        ensures
            r == Bitmask::Or(or),
    {
        Bitmask::Or(or)
    }

    /// Whether an entity whose component mask is `mask` passes this filter.
    pub fn check(&self, mask: MaskType) -> (r: bool)
        ensures
            r == accepts(*self, mask),
    {
        match *self {
            Bitmask::HasNot(has, not) => mask & has == has && mask & not != not,
            Bitmask::Has(has) => mask & has == has,
            Bitmask::Not(not) => mask & not != not,
            Bitmask::Or(or) => mask & or != 0,
            Bitmask::HasOr(has, or) => mask & has == has && mask & or != 0,
            Bitmask::NotOr(not, or) => mask & not != not && mask & or != 0,
            Bitmask::HasNotOr(has, not, or) => mask & has == has && mask & not != not && mask
                & or != 0,
            Bitmask::All => true,
        }
    }

    /// Combines two filters into one.
    pub fn bitor(self, rhs: Bitmask) -> (r: Bitmask)
        ensures
            r == combined(self, rhs),
        decreases bitor_rank(self, rhs),
    {
        match (self, rhs) {
            (Bitmask::Has(has), Bitmask::Has(r)) => Bitmask::Has(has | r),
            (Bitmask::Has(has), Bitmask::Not(r)) => Bitmask::HasNot(has, r),
            (Bitmask::Has(has), Bitmask::HasNot(r, r_not)) => Bitmask::HasNot(has | r, r_not),
            (Bitmask::Has(has), Bitmask::Or(r)) => Bitmask::HasOr(has, r),
            (Bitmask::Has(has), Bitmask::HasOr(r, r_or)) => Bitmask::HasOr(has | r, r_or),
            (Bitmask::Has(has), Bitmask::NotOr(r_not, r_or)) => Bitmask::HasNotOr(has, r_not, r_or),
            (Bitmask::Has(has), Bitmask::HasNotOr(r, r_not, r_or)) => Bitmask::HasNotOr(
                has | r,
                r_not,
                r_or,
            ),
            (Bitmask::Has(has), Bitmask::All) => Bitmask::Has(has),
            (Bitmask::Not(not), Bitmask::Not(r)) => Bitmask::Not(not & r),
            (Bitmask::Not(not), Bitmask::HasNot(r, r_not)) => Bitmask::HasNot(r, not & r_not),
            (Bitmask::Not(not), Bitmask::Or(r)) => Bitmask::NotOr(not, r),
            (Bitmask::Not(not), Bitmask::HasOr(r, r_or)) => Bitmask::HasNotOr(r, not, r_or),
            (Bitmask::Not(not), Bitmask::NotOr(r_not, r_or)) => Bitmask::NotOr(not & r_not, r_or),
            (Bitmask::Not(not), Bitmask::HasNotOr(r, r_not, r_or)) => Bitmask::HasNotOr(
                r,
                not & r_not,
                r_or,
            ),
            (Bitmask::Not(not), Bitmask::All) => Bitmask::Not(not),
            (Bitmask::HasNot(has, not), Bitmask::HasNot(r, r_not)) => Bitmask::HasNot(
                has | r,
                not & r_not,
            ),
            (Bitmask::HasNot(has, not), Bitmask::Or(r)) => Bitmask::HasNotOr(has, not, r),
            (Bitmask::HasNot(has, not), Bitmask::HasOr(r, r_or)) => Bitmask::HasNotOr(
                has | r,
                not,
                r_or,
            ),
            (Bitmask::HasNot(has, not), Bitmask::NotOr(r_not, r_or)) => Bitmask::HasNotOr(
                has,
                not & r_not,
                r_or,
            ),
            (Bitmask::HasNot(has, not), Bitmask::HasNotOr(r, r_not, r_or)) => Bitmask::HasNotOr(
                has | r,
                not | r_not,
                r_or,
            ),
            (Bitmask::HasNot(has, not), Bitmask::All) => Bitmask::HasNot(has, not),
            (Bitmask::Or(or), Bitmask::Or(r)) => Bitmask::Or(or | r),
            (Bitmask::Or(or), Bitmask::HasOr(r, r_or)) => Bitmask::HasOr(r, or | r_or),
            (Bitmask::Or(or), Bitmask::NotOr(r_not, r_or)) => Bitmask::NotOr(r_not, or | r_or),
            (Bitmask::Or(or), Bitmask::HasNotOr(r, r_not, r_or)) => Bitmask::HasNotOr(
                r,
                r_not,
                or | r_or,
            ),
            (Bitmask::Or(or), Bitmask::All) => Bitmask::Or(or),
            (Bitmask::HasOr(has, or), Bitmask::HasOr(r, r_or)) => Bitmask::HasOr(
                has | r,
                or | r_or,
            ),
            (Bitmask::HasOr(has, or), Bitmask::NotOr(r_not, r_or)) => Bitmask::HasNotOr(
                has,
                r_not,
                or | r_or,
            ),
            (Bitmask::HasOr(has, or), Bitmask::HasNotOr(r, r_not, r_or)) => Bitmask::HasNotOr(
                has | r,
                r_not,
                or | r_or,
            ),
            (Bitmask::HasOr(has, or), Bitmask::All) => Bitmask::HasOr(has, or),
            (Bitmask::NotOr(not, or), Bitmask::NotOr(r_not, r_or)) => Bitmask::NotOr(
                not & r_not,
                or | r_or,
            ),
            (Bitmask::NotOr(not, or), Bitmask::HasNotOr(r, r_not, r_or)) => Bitmask::HasNotOr(
                r,
                not & r_not,
                or | r_or,
            ),
            (Bitmask::NotOr(not, or), Bitmask::All) => Bitmask::NotOr(not, or),
            (Bitmask::HasNotOr(has, not, or), Bitmask::HasNotOr(r, r_not, r_or)) => {
                Bitmask::HasNotOr(has | r, not | r_not, or | r_or)
            },
            (Bitmask::HasNotOr(has, not, or), Bitmask::All) => Bitmask::HasNotOr(has, not, or),
            (Bitmask::All, Bitmask::All) => Bitmask::All,
            (lhs, rhs) => {
                proof {
                    assert(direct_pair(rhs, lhs));
                    match (has_part(lhs), has_part(rhs)) {
                        (Some(x), Some(y)) => lemma_or_commutes(x, y),
                        _ => {},
                    }
                    match (not_part(lhs), not_part(rhs)) {
                        (Some(x), Some(y)) => lemma_or_commutes(x, y),
                        _ => {},
                    }
                    match (or_part(lhs), or_part(rhs)) {
                        (Some(x), Some(y)) => lemma_or_commutes(x, y),
                        _ => {},
                    }
                }
                rhs.bitor(lhs)
            },
        }
    }
}

/// Combining filters does not depend on their order.
pub proof fn lemma_bitor_commutative(a: Bitmask, b: Bitmask)
    ensures
        combined(a, b) == combined(b, a),
{
    match (has_part(a), has_part(b)) {
        (Some(x), Some(y)) => lemma_or_commutes(x, y),
        _ => {},
    }
    match (not_part(a), not_part(b)) {
        (Some(x), Some(y)) => lemma_or_commutes(x, y),
        _ => {},
    }
    match (or_part(a), or_part(b)) {
        (Some(x), Some(y)) => lemma_or_commutes(x, y),
        _ => {},
    }
}

/// The filter that accepts everything changes nothing when combined in.
pub proof fn lemma_bitor_all_identity(a: Bitmask)
    ensures
        combined(a, Bitmask::All) == a,
{
}

proof fn lemma_has_union(m: usize, x: usize, y: usize)
    ensures
        (m & (x | y) == (x | y)) == (m & x == x && m & y == y),
{
    assert((m & (x | y) == (x | y)) == (m & x == x && m & y == y)) by (bit_vector);
}

proof fn lemma_or_union(m: usize, x: usize, y: usize)
    ensures
        (m & (x | y) != 0) == (m & x != 0 || m & y != 0),
{
    assert((m & (x | y) != 0) == (m & x != 0 || m & y != 0)) by (bit_vector);
}

/// What a combined filter asks of an entity's component mask `m`, part by
/// part. It has a `has`, `not` or `or` part exactly when one of the two
/// filters has one. Its `has` part asks for every component that either
/// filter asks for. Its `or` part is met by an entity that meets the `or`
/// part of either filter: the two sets of alternatives are united. A `not`
/// part that only one filter has is kept unchanged; two `not` parts are
/// intersected, except that they are united when both filters have a `has`
/// part and one of them an `or` part.
pub proof fn lemma_bitor_parts(a: Bitmask, b: Bitmask, m: usize)
    ensures
        (has_part(combined(a, b)) is Some) == (has_part(a) is Some || has_part(b) is Some),
        (not_part(combined(a, b)) is Some) == (not_part(a) is Some || not_part(b) is Some),
        (or_part(combined(a, b)) is Some) == (or_part(a) is Some || or_part(b) is Some),
        has_part(combined(a, b)) is Some ==> ((m & has_part(combined(a, b))->0 == has_part(combined(a, b))->0) == ((
        has_part(a) is Some ==> m & has_part(a)->0 == has_part(a)->0) && (has_part(b) is Some ==> m & has_part(b)->0
            == has_part(b)->0))),
        or_part(combined(a, b)) is Some ==> ((m & or_part(combined(a, b))->0 != 0) == ((or_part(a) is Some && m
            & or_part(a)->0 != 0) || (or_part(b) is Some && m & or_part(b)->0 != 0))),
        not_part(a) is None ==> not_part(combined(a, b)) == not_part(b),
        not_part(b) is None ==> not_part(combined(a, b)) == not_part(a),
        not_part(a) is Some && not_part(b) is Some ==> not_part(combined(a, b)) == Some(
            if has_part(a) is Some && has_part(b) is Some && (or_part(a) is Some || or_part(b) is Some) {
                not_part(a)->0 | not_part(b)->0
            } else {
                not_part(a)->0 & not_part(b)->0
            },
        ),
{
    let c = combined(a, b);
    assert(has_part(c) == union_part(has_part(a), has_part(b)));
    assert(not_part(c) == combine_not(a, b));
    assert(or_part(c) == union_part(or_part(a), or_part(b)));
    match (has_part(a), has_part(b)) {
        (Some(x), Some(y)) => lemma_has_union(m, x, y),
        _ => {},
    }
    match (or_part(a), or_part(b)) {
        (Some(x), Some(y)) => lemma_or_union(m, x, y),
        _ => {},
    }
}

/// Two filters that each ask for at least one of some components combine
/// into a filter that accepts exactly the entities accepted by either: an
/// entity needs at least one component of the union.
pub proof fn lemma_or_filters_unite(x: MaskType, y: MaskType, m: MaskType)
    ensures
        combined(Bitmask::Or(x), Bitmask::Or(y)) is Or,
        accepts(combined(Bitmask::Or(x), Bitmask::Or(y)), m) == (accepts(Bitmask::Or(x), m) || accepts(
            Bitmask::Or(y),
            m,
        )),
        accepts(combined(Bitmask::Or(x), Bitmask::Or(y)), m) == (m & (x | y) != 0),
{
    lemma_bitor_parts(Bitmask::Or(x), Bitmask::Or(y), m);
    lemma_or_union(m, x, y);
}

/// Filters that each ask only for components to have combine into the
/// filter that asks for all of them.
pub proof fn lemma_has_filters_conjoin(x: MaskType, y: MaskType, m: MaskType)
    ensures
        combined(Bitmask::Has(x), Bitmask::Has(y)) is Has,
        accepts(combined(Bitmask::Has(x), Bitmask::Has(y)), m) == (accepts(Bitmask::Has(x), m) && accepts(
            Bitmask::Has(y),
            m,
        )),
{
    lemma_bitor_parts(Bitmask::Has(x), Bitmask::Has(y), m);
}

/// Combining two filters asks an entity to pass both, as long as at most
/// one of them carries a `not` part and at most one an `or` part.
pub proof fn lemma_bitor_conjunction(a: Bitmask, b: Bitmask, mask: usize)
    requires
        !(not_part(a) is Some && not_part(b) is Some),
        !(or_part(a) is Some && or_part(b) is Some),
    ensures
        accepts(combined(a, b), mask) == (accepts(a, mask) && accepts(b, mask)),
{
    let c = combined(a, b);
    assert(has_part(c) == union_part(has_part(a), has_part(b)));
    assert(not_part(c) == combine_not(a, b));
    assert(or_part(c) == union_part(or_part(a), or_part(b)));
    match (has_part(a), has_part(b)) {
        (Some(x), Some(y)) => lemma_has_union(mask, x, y),
        _ => {},
    }
}

} // verus!
