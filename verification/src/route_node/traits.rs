use crate::route_node::RouteNode;
use crate::route_node::model::{lex_less, slot_precedes};
use std::cmp::Ordering;
use vstd::prelude::*;

verus! {

/// Of two sequences exactly one thing holds: the first is less, they are equal, or the
/// second is less.
pub proof fn lemma_lex_less_total(a: Seq<char>, b: Seq<char>)
    ensures
        lex_less(a, b) || a == b || lex_less(b, a),
        !(lex_less(a, b) && lex_less(b, a)),
        !(lex_less(a, b) && a == b),
    decreases a.len(),
{
    if a.len() == 0 || b.len() == 0 {
        if a.len() == 0 && b.len() == 0 {
            assert(a =~= b);
        }
    } else if a[0] == b[0] {
        lemma_lex_less_total(a.drop_first(), b.drop_first());
        if a.drop_first() == b.drop_first() {
            assert(a =~= seq![a[0]] + a.drop_first());
            assert(b =~= seq![b[0]] + b.drop_first());
        }
    } else {
    }
}

/// Lexicographic order is transitive.
pub proof fn lemma_lex_less_transitive(a: Seq<char>, b: Seq<char>, c: Seq<char>)
    requires
        lex_less(a, b),
        lex_less(b, c),
    ensures
        lex_less(a, c),
    decreases a.len(),
{
    if a.len() > 0 && a[0] == b[0] && b[0] == c[0] {
        lemma_lex_less_transitive(a.drop_first(), b.drop_first(), c.drop_first());
    }
}

/// Sibling order is a strict total order on slots.
pub proof fn lemma_slot_order_total(a: Seq<char>, pa: bool, b: Seq<char>, pb: bool)
    ensures
        slot_precedes(a, pa, b, pb) || (a == b && pa == pb) || slot_precedes(b, pb, a, pa),
        !(slot_precedes(a, pa, b, pb) && slot_precedes(b, pb, a, pa)),
        !(slot_precedes(a, pa, b, pb) && a == b && pa == pb),
{
    lemma_lex_less_total(a, b);
}

/// Sibling order is transitive.
pub proof fn lemma_slot_order_transitive(
    a: Seq<char>,
    pa: bool,
    b: Seq<char>,
    pb: bool,
    c: Seq<char>,
    pc: bool,
)
    requires
        slot_precedes(a, pa, b, pb),
        slot_precedes(b, pb, c, pc),
    ensures
        slot_precedes(a, pa, c, pc),
{
    if a.len() == b.len() && b.len() == c.len() && pa == pb && pb == pc {
        lemma_lex_less_transitive(a, b, c);
    }
}

/// Whether `a` comes before `b` in lexicographic order.
pub fn lex_less_exec(a: &[char], b: &[char]) -> (less: bool)
    ensures
        less == lex_less(a@, b@),
{
    let mut i: usize = 0;
    assert(a@.skip(0) =~= a@ && b@.skip(0) =~= b@);
    while i < a.len() && i < b.len() && a[i] == b[i]
        invariant
            i <= a@.len(),
            i <= b@.len(),
            lex_less(a@, b@) == lex_less(a@.skip(i as int), b@.skip(i as int)),
        decreases a@.len() - i,
    {
        proof {
            assert(a@.skip(i as int).drop_first() =~= a@.skip(i + 1));
            assert(b@.skip(i as int).drop_first() =~= b@.skip(i + 1));
        }
        i += 1;
    }
    if i >= b.len() {
        false
    } else if i >= a.len() {
        true
    } else {
        a[i] < b[i]
    }
}

/// Whether the slot `(a, pa)` comes before the slot `(b, pb)` in sibling order.
pub fn slot_precedes_exec(a: &[char], pa: bool, b: &[char], pb: bool) -> (precedes: bool)
    ensures
        precedes == slot_precedes(a@, pa, b@, pb),
{
    if a.len() != b.len() {
        a.len() > b.len()
    } else if pa != pb {
        !pa
    } else {
        lex_less_exec(a, b)
    }
}

/// Whether two slices hold the same characters.
pub fn chars_equal(a: &[char], b: &[char]) -> (equal: bool)
    ensures
        equal == (a@ == b@),
{
    if a.len() != b.len() {
        return false;
    }
    let mut i: usize = 0;
    while i < a.len() && a[i] == b[i]
        invariant
            i <= a@.len(),
            a@.len() == b@.len(),
            forall|j: int| 0 <= j < i ==> a@[j] == b@[j],
        decreases a@.len() - i,
    {
        i += 1;
    }
    proof {
        if i == a@.len() {
            assert(a@ =~= b@);
        }
    }
    i == a.len()
}

/// Where `a` stands to `b` in sibling order.
pub open spec fn slot_order(a: Seq<char>, pa: bool, b: Seq<char>, pb: bool) -> Ordering {
    if slot_precedes(a, pa, b, pb) {
        Ordering::Less
    } else if slot_precedes(b, pb, a, pa) {
        Ordering::Greater
    } else {
        Ordering::Equal
    }
}

/// Two nodes are equal when they take the same slot: they have the same anchor and both
/// have a parameter or both have none. The routes they carry play no part.
impl<K> PartialEq for RouteNode<K> {
    fn eq(&self, other: &Self) -> (equal: bool) {
        chars_equal(self.anchor().as_slice(), other.anchor().as_slice()) && self.has_parameter()
            == other.has_parameter()
    }
}

impl<K> vstd::std_specs::cmp::PartialEqSpecImpl for RouteNode<K> {
    open spec fn obeys_eq_spec() -> bool {
        true
    }

    open spec fn eq_spec(&self, other: &Self) -> bool {
        self@.anchor == other@.anchor && self@.has_parameter == other@.has_parameter
    }
}

/// Nodes are ordered as siblings are: the longer anchor first, then the node without a
/// parameter, then the anchors in lexicographic order.
impl<K> PartialOrd for RouteNode<K> {
    fn partial_cmp(&self, other: &Self) -> (order: Option<Ordering>) {
        if slot_precedes_exec(
            self.anchor().as_slice(),
            self.has_parameter(),
            other.anchor().as_slice(),
            other.has_parameter(),
        ) {
            Some(Ordering::Less)
        } else if slot_precedes_exec(
            other.anchor().as_slice(),
            other.has_parameter(),
            self.anchor().as_slice(),
            self.has_parameter(),
        ) {
            Some(Ordering::Greater)
        } else {
            Some(Ordering::Equal)
        }
    }
}

impl<K> vstd::std_specs::cmp::PartialOrdSpecImpl for RouteNode<K> {
    open spec fn obeys_partial_cmp_spec() -> bool {
        true
    }

    open spec fn partial_cmp_spec(&self, other: &Self) -> Option<Ordering> {
        Some(
            slot_order(self@.anchor, self@.has_parameter, other@.anchor, other@.has_parameter),
        )
    }
}

/// Two nodes compare as equal exactly when they are equal.
pub proof fn lemma_order_agrees_with_equality(a: Seq<char>, pa: bool, b: Seq<char>, pb: bool)
    ensures
        slot_order(a, pa, b, pb) == Ordering::Equal <==> a == b && pa == pb,
{
    lemma_slot_order_total(a, pa, b, pb);
}

} // verus!
