//! The unification table: a substitution kept as a union-find over type
//! variables, each class carrying the type it stands for.

use super::Type;
use crate::error::Error;
use crate::text::push_str;
use crate::types::{self, types_view, SType, TyVar};
use crate::union_find::{DisjointSet, Value};
use std::collections::HashMap;
use vstd::prelude::*;

verus! {

broadcast use vstd::std_specs::hash::group_hash_axioms;

/// Classes of variables keep the type they were last bound to: merging
/// two classes keeps the value of the class that becomes the root.
impl Value for Type {
    open spec fn spec_unify(val1: Type, val2: Type) -> Option<Type> {
        None
    }

    fn unify(val1: &Type, val2: &Type) -> (r: Option<Type>) {
        None
    }
}

/// The value of a type over unification variables.
pub type SType_ = SType<TyVar>;

/// Every variable in `t` is one of `d`.
pub open spec fn vars_within(t: SType_, d: Set<u32>) -> bool
    decreases t,
{
    match t {
        SType::App(f, args) => vars_within(*f, d) && vars_within_seq(args, d),
        SType::Con(_, _) => true,
        SType::Var(v) => d.contains(v.id),
    }
}

pub open spec fn vars_within_seq(s: Seq<SType_>, d: Set<u32>) -> bool
    decreases s,
{
    if s.len() == 0 {
        true
    } else {
        vars_within_seq(s.drop_last(), d) && vars_within(s.last(), d)
    }
}

/// Two types have one shape: a variable on either side fits anything,
/// constructors are equal, and applications have equal arity, heads of one
/// shape and arguments of one shape, pairwise.
pub open spec fn same_shape(a: SType_, b: SType_) -> bool
    decreases a,
{
    match a {
        SType::Var(_) => true,
        SType::Con(c1, k1) => match b {
            SType::Var(_) => true,
            SType::Con(c2, k2) => c1 == c2 && k1 == k2,
            SType::App(_, _) => false,
        },
        SType::App(f1, a1) => match b {
            SType::Var(_) => true,
            SType::Con(_, _) => false,
            SType::App(f2, a2) => a1.len() == a2.len() && same_shape(*f1, *f2) && same_shape_seq(
                a1,
                a2,
            ),
        },
    }
}

pub open spec fn same_shape_seq(s1: Seq<SType_>, s2: Seq<SType_>) -> bool
    decreases s1,
{
    if s1.len() == 0 {
        true
    } else {
        same_shape_seq(s1.drop_last(), s2.drop_last()) && same_shape(s1.last(), s2.last())
    }
}

pub proof fn lemma_same_shape_seq(s1: Seq<SType_>, s2: Seq<SType_>)
    requires
        s1.len() == s2.len(),
    ensures
        same_shape_seq(s1, s2) <==> forall|i: int|
            0 <= i < s1.len() ==> same_shape(#[trigger] s1[i], s2[i]),
    decreases s1.len(),
{
    if s1.len() > 0 {
        lemma_same_shape_seq(s1.drop_last(), s2.drop_last());
        assert forall|i: int| 0 <= i < s1.len() - 1 implies s1.drop_last()[i] == s1[i]
            && s2.drop_last()[i] == s2[i] by {}
    }
}

/// Variable `v` occurs in `t`.
pub open spec fn occurs_in(v: TyVar, t: SType_) -> bool
    decreases t,
{
    match t {
        SType::Var(w) => w == v,
        SType::Con(_, _) => false,
        SType::App(f, args) => occurs_in(v, *f) || occurs_in_seq(v, args),
    }
}

pub open spec fn occurs_in_seq(v: TyVar, s: Seq<SType_>) -> bool
    decreases s,
{
    if s.len() == 0 {
        false
    } else {
        occurs_in_seq(v, s.drop_last()) || occurs_in(v, s.last())
    }
}

pub proof fn lemma_occurs_in_seq(v: TyVar, s: Seq<SType_>)
    ensures
        occurs_in_seq(v, s) <==> exists|i: int| 0 <= i < s.len() && occurs_in(v, #[trigger] s[i]),
    decreases s.len(),
{
    if s.len() > 0 {
        lemma_occurs_in_seq(v, s.drop_last());
        if occurs_in_seq(v, s.drop_last()) {
            let i = choose|i: int| 0 <= i < s.len() - 1 && occurs_in(v, #[trigger] s.drop_last()[i]);
            assert(s[i] == s.drop_last()[i]);
        }
        if exists|i: int| 0 <= i < s.len() && occurs_in(v, #[trigger] s[i]) {
            let i = choose|i: int| 0 <= i < s.len() && occurs_in(v, #[trigger] s[i]);
            if i < s.len() - 1 {
                assert(s.drop_last()[i] == s[i]);
            }
        }
    }
}

/// A variable occurring in a type within `d` is one of `d`.
proof fn lemma_occurs_within(v: TyVar, t: SType_, d: Set<u32>)
    requires
        vars_within(t, d),
        occurs_in(v, t),
    ensures
        d.contains(v.id),
    decreases t,
{
    if let SType::App(f, args) = t {
        if occurs_in(v, *f) {
            lemma_occurs_within(v, *f, d);
        } else {
            lemma_occurs_in_seq(v, args);
            lemma_vars_within_seq(args, d);
            let i = choose|i: int| 0 <= i < args.len() && occurs_in(v, #[trigger] args[i]);
            lemma_occurs_within(v, args[i], d);
        }
    }
}

/// Every type has its own shape.
pub proof fn lemma_same_shape_refl(t: SType_)
    ensures
        same_shape(t, t),
    decreases t,
{
    if let SType::App(f, args) = t {
        lemma_same_shape_refl(*f);
        lemma_same_shape_seq(args, args);
        assert forall|i: int| 0 <= i < args.len() implies same_shape(#[trigger] args[i], args[i]) by {
            lemma_same_shape_refl(args[i]);
        }
    }
}

/// Adding variables keeps a type within them.
pub proof fn lemma_vars_within_mono(t: SType_, d1: Set<u32>, d2: Set<u32>)
    requires
        vars_within(t, d1),
        d1.subset_of(d2),
    ensures
        vars_within(t, d2),
    decreases t,
{
    if let SType::App(f, args) = t {
        lemma_vars_within_mono(*f, d1, d2);
        lemma_vars_within_seq(args, d1);
        lemma_vars_within_seq(args, d2);
        assert forall|i: int| 0 <= i < args.len() implies vars_within(#[trigger] args[i], d2) by {
            lemma_vars_within_mono(args[i], d1, d2);
        }
    }
}

pub proof fn lemma_vars_within_seq(s: Seq<SType_>, d: Set<u32>)
    ensures
        vars_within_seq(s, d) <==> forall|i: int| 0 <= i < s.len() ==> vars_within(#[trigger] s[i], d),
    decreases s.len(),
{
    if s.len() > 0 {
        lemma_vars_within_seq(s.drop_last(), d);
        assert forall|i: int| 0 <= i < s.len() - 1 implies s.drop_last()[i] == s[i] by {}
    }
}

/// The levels after the occurs check of `id` in `t`, and whether it found
/// `id` below the top of `t`. The check walks `t` from left to right and
/// stops at the first occurrence; every other variable it meets is moved
/// down to the level of `id` where that is lower.
pub open spec fn occurs_walk(id: u32, t: SType_, top: bool, lv: Map<u32, u32>) -> (bool, Map<
    u32,
    u32,
>)
    decreases t,
{
    match t {
        SType::Con(_, _) => (false, lv),
        SType::Var(v) => {
            if id == v.id && !top {
                (true, lv)
            } else {
                let l = if lv[id] <= lv[v.id] {
                    lv[id]
                } else {
                    lv[v.id]
                };
                (false, lv.insert(v.id, l))
            }
        },
        SType::App(f, args) => {
            let (b, l1) = occurs_walk(id, *f, false, lv);
            if b {
                (true, l1)
            } else {
                occurs_walk_seq(id, args, l1)
            }
        },
    }
}

pub open spec fn occurs_walk_seq(id: u32, s: Seq<SType_>, lv: Map<u32, u32>) -> (bool, Map<
    u32,
    u32,
>)
    decreases s,
{
    if s.len() == 0 {
        (false, lv)
    } else {
        let (b, l1) = occurs_walk(id, s[0], false, lv);
        if b {
            (true, l1)
        } else {
            occurs_walk_seq(id, s.subrange(1, s.len() as int), l1)
        }
    }
}

/// The height of a type: the depth of nested applications.
pub open spec fn height(t: SType_) -> nat
    decreases t,
{
    match t {
        SType::App(f, args) => {
            let a = height(*f);
            let b = height_seq(args);
            1 + if a >= b {
                a
            } else {
                b
            }
        },
        _ => 0,
    }
}

pub open spec fn height_seq(s: Seq<SType_>) -> nat
    decreases s,
{
    if s.len() == 0 {
        0
    } else {
        let a = height_seq(s.drop_last());
        let b = height(s.last());
        if a >= b {
            a
        } else {
            b
        }
    }
}

proof fn lemma_height_seq(s: Seq<SType_>, i: int)
    requires
        0 <= i < s.len(),
    ensures
        height(s[i]) <= height_seq(s),
    decreases s.len(),
{
    if i < s.len() - 1 {
        lemma_height_seq(s.drop_last(), i);
        assert(s.drop_last()[i] == s[i]);
    }
}

/// The parts of an application are lower than it, and have no more
/// variables than it.
proof fn lemma_app_parts(f: SType_, args: Seq<SType_>, d: Set<u32>)
    ensures
        height(f) < height(SType::App(Box::new(f), args)),
        forall|i: int|
            0 <= i < args.len() ==> height(#[trigger] args[i]) < height(
                SType::App(Box::new(f), args),
            ),
        vars_within(SType::App(Box::new(f), args), d) ==> vars_within(f, d) && forall|i: int|
            0 <= i < args.len() ==> vars_within(#[trigger] args[i], d),
{
    assert forall|i: int| 0 <= i < args.len() implies height(#[trigger] args[i]) < height(
        SType::App(Box::new(f), args),
    ) by {
        lemma_height_seq(args, i);
    }
    lemma_vars_within_seq(args, d);
}

/// The occurs check changes nothing and finds nothing in a type without
/// variables.
proof fn lemma_occurs_ground(id: u32, t: SType_, top: bool, lv: Map<u32, u32>)
    requires
        vars_within(t, Set::empty()),
    ensures
        occurs_walk(id, t, top, lv) == (false, lv),
    decreases t,
{
    if let SType::App(f, args) = t {
        lemma_occurs_ground(id, *f, false, lv);
        lemma_occurs_ground_seq(id, args, lv);
    }
}

proof fn lemma_occurs_ground_seq(id: u32, s: Seq<SType_>, lv: Map<u32, u32>)
    requires
        vars_within_seq(s, Set::empty()),
    ensures
        occurs_walk_seq(id, s, lv) == (false, lv),
    decreases s,
{
    if s.len() > 0 {
        lemma_vars_within_seq(s, Set::empty());
        lemma_occurs_ground(id, s[0], false, lv);
        let t = s.subrange(1, s.len() as int);
        lemma_vars_within_seq(t, Set::empty());
        assert forall|i: int| 0 <= i < t.len() implies vars_within(#[trigger] t[i], Set::empty()) by {
            assert(t[i] == s[i + 1]);
        }
        lemma_occurs_ground_seq(id, t, lv);
    }
}

pub struct UnificationTable {
    subst: DisjointSet<u32, Type>,
    /// The node of each variable in `subst`.
    indices: HashMap<u32, u32>,
    /// The current level of each variable.
    levels: HashMap<u32, u32>,
}

/// What the first step of unifying `lhs` with `rhs` decides, from table
/// `t0` to table `t1` with result `r`: constructors unify when they are
/// equal and leave the table as it was; applications of different arity
/// and a constructor against an application do not unify; two variables
/// unify, and their classes are merged; a variable against a type it
/// occurs in does not unify. Each refusal carries the message that writes
/// the two types (for the occurs check, the variable first).
pub open spec fn unify_first_step(
    t0: UnificationTable,
    lhs: SType_,
    rhs: SType_,
    r: Result<(), Error>,
    t1: UnificationTable,
) -> bool {
    let refused = r matches Err(e) && e.spec_msg() == cannot_unify_text(lhs, rhs);
    match (lhs, rhs) {
        (SType::Con(c1, k1), SType::Con(c2, k2)) => (if c1 == c2 && k1 == k2 {
            r is Ok
        } else {
            refused
        }) && t1 == t0,
        (SType::App(f1, a1), SType::App(f2, a2)) => {
            &&& a1.len() != a2.len() ==> refused && t1 == t0
            &&& r is Ok ==> vars_joined(t1, *f1, *f2) && forall|j: int|
                0 <= j < a1.len() ==> vars_joined(t1, #[trigger] a1[j], a2[j])
        },
        (SType::Con(_, _), SType::App(_, _)) => refused && t1 == t0,
        (SType::App(_, _), SType::Con(_, _)) => refused && t1 == t0,
        (SType::Var(a), SType::Var(b)) => {
            let va = t0.class_value(a.id);
            let vb = t0.class_value(b.id);
            let joined = |x: u32, y: u32|
                t0.same_class(x, y) || (t0.same_class(x, a.id) && t0.same_class(y, b.id)) || (
                t0.same_class(x, b.id) && t0.same_class(y, a.id));
            &&& t1.same_class(a.id, b.id)
            &&& t0.same_class(a.id, b.id) ==> r is Ok && t1 == t0
            &&& va is Var || vb is Var ==> {
                &&& r is Ok
                &&& forall|x: u32, y: u32|
                    t0.dom().contains(x) && t0.dom().contains(y) ==> (#[trigger] t1.same_class(
                        x,
                        y,
                    ) <==> joined(x, y))
                &&& !(va is Var) ==> t1.class_value(a.id) == va
                &&& va is Var && !(vb is Var) ==> t1.class_value(a.id) == vb
                &&& va is Var && vb is Var ==> t1.class_value(a.id) is Var
            }
            &&& !(va is Var) && !(vb is Var) ==> {
                &&& forall|x: u32, y: u32|
                    t0.dom().contains(x) && t0.dom().contains(y) && joined(x, y)
                        ==> #[trigger] t1.same_class(x, y)
                &&& r is Ok ==> same_shape(va, vb)
                &&& vars_within(va, Set::empty()) && vars_within(vb, Set::empty()) && r is Ok
                    ==> va == vb
            }
        },
        (SType::Var(a), t) => occurs_walk(a.id, t, true, t0.levels()).0 ==> (r matches Err(e)
            && e.spec_msg() == cannot_unify_text(SType::Var(a), t)),
        (t, SType::Var(a)) => occurs_walk(a.id, t, true, t0.levels()).0 ==> (r matches Err(e)
            && e.spec_msg() == cannot_unify_text(SType::Var(a), t)),
    }
}

/// Where `a` and `b` are both variables, `t` has them in one class.
pub open spec fn vars_joined(t: UnificationTable, a: SType_, b: SType_) -> bool {
    a is Var && b is Var ==> t.same_class(a->0.id, b->0.id)
}

/// Variables in one class in `t0` are in one class in `t1`.
pub open spec fn classes_grow(t0: UnificationTable, t1: UnificationTable) -> bool {
    forall|x: u32, y: u32|
        t0.dom().contains(x) && t0.dom().contains(y) && t0.same_class(x, y)
            ==> #[trigger] t1.same_class(x, y)
}

/// Variable `v` stands, in table `t0`, for a type with no variable that is
/// no variable itself, and meets type `t`, which has no variable either.
pub open spec fn bound_meets_ground(t0: UnificationTable, v: TyVar, t: SType_) -> bool {
    &&& vars_within(t0.class_value(v.id), Set::empty())
    &&& !(t0.class_value(v.id) is Var)
    &&& vars_within(t, Set::empty())
    &&& !(t is Var)
}

/// Variable `v` meets type `t`, which is no variable and in which `v` does
/// not occur, while the class of `v` stands for `v` itself or for `t`,
/// with enough steps left.
pub open spec fn binds_ground(t0: UnificationTable, v: TyVar, t: SType_, fuel: int) -> bool {
    &&& !(t is Var)
    &&& !occurs_walk(v.id, t, true, t0.levels()).0
    &&& ((t0.class_value(v.id) == t && fuel > height(t) + 1) || (t0.class_value(v.id)
        == SType_::Var(v) && fuel > height(t) + 2))
}

/// From `t0` to `t1` only the class of `v` changed what it stands for: the
/// same variables, in the same classes, and every other class stands for
/// what it stood for.
pub open spec fn only_class_changed(t0: UnificationTable, t1: UnificationTable, v: TyVar) -> bool {
    &&& t1.dom() == t0.dom()
    &&& forall|x: u32, y: u32|
        t0.dom().contains(x) && t0.dom().contains(y) ==> (#[trigger] t1.same_class(x, y)
            <==> t0.same_class(x, y))
    &&& forall|x: u32| #[trigger]
        t0.dom().contains(x) && !t0.same_class(x, v.id) ==> t1.class_value(x) == t0.class_value(x)
}

/// A variable with identifier `id` occurs somewhere in `t`.
pub open spec fn id_occurs(id: u32, t: SType_) -> bool
    decreases t,
{
    match t {
        SType::Var(v) => v.id == id,
        SType::Con(_, _) => false,
        SType::App(f, args) => id_occurs(id, *f) || exists|j: int|
            0 <= j < args.len() && id_occurs(id, #[trigger] args[j]),
    }
}

/// The occurs check finds `id` exactly where a variable with that
/// identifier occurs in the type, except a lone variable at the top.
pub proof fn law_occurs_check(id: u32, t: SType_, top: bool, lv: Map<u32, u32>)
    ensures
        occurs_walk(id, t, top, lv).0 == (id_occurs(id, t) && !(top && t is Var)),
    decreases t,
{
    if let SType::App(f, args) = t {
        law_occurs_check(id, *f, false, lv);
        let l1 = occurs_walk(id, *f, false, lv).1;
        lemma_occurs_check_seq(id, args, l1);
    }
}

proof fn lemma_occurs_check_seq(id: u32, s: Seq<SType_>, lv: Map<u32, u32>)
    ensures
        occurs_walk_seq(id, s, lv).0 == exists|j: int| 0 <= j < s.len() && id_occurs(id, #[trigger] s[j]),
    decreases s,
{
    if s.len() > 0 {
        law_occurs_check(id, s[0], false, lv);
        let l1 = occurs_walk(id, s[0], false, lv).1;
        let rest = s.subrange(1, s.len() as int);
        lemma_occurs_check_seq(id, rest, l1);
        if exists|j: int| 0 <= j < rest.len() && id_occurs(id, #[trigger] rest[j]) {
            let j = choose|j: int| 0 <= j < rest.len() && id_occurs(id, #[trigger] rest[j]);
            assert(s[j + 1] == rest[j]);
        }
        if exists|j: int| 0 <= j < s.len() && id_occurs(id, #[trigger] s[j]) {
            let j = choose|j: int| 0 <= j < s.len() && id_occurs(id, #[trigger] s[j]);
            if j > 0 {
                assert(rest[j - 1] == s[j]);
            }
        }
    }
}

/// Whether the occurs check finds `id` does not depend on the levels.
proof fn lemma_occurs_found(id: u32, t: SType_, top: bool, l1: Map<u32, u32>, l2: Map<u32, u32>)
    ensures
        occurs_walk(id, t, top, l1).0 == occurs_walk(id, t, top, l2).0,
    decreases t,
{
    if let SType::App(f, args) = t {
        lemma_occurs_found(id, *f, false, l1, l2);
        let m1 = occurs_walk(id, *f, false, l1).1;
        let m2 = occurs_walk(id, *f, false, l2).1;
        lemma_occurs_found_seq(id, args, m1, m2);
    }
}

proof fn lemma_occurs_found_seq(id: u32, s: Seq<SType_>, l1: Map<u32, u32>, l2: Map<u32, u32>)
    ensures
        occurs_walk_seq(id, s, l1).0 == occurs_walk_seq(id, s, l2).0,
    decreases s,
{
    if s.len() > 0 {
        lemma_occurs_found(id, s[0], false, l1, l2);
        let m1 = occurs_walk(id, s[0], false, l1).1;
        let m2 = occurs_walk(id, s[0], false, l2).1;
        lemma_occurs_found_seq(id, s.subrange(1, s.len() as int), m1, m2);
    }
}

/// The message for two types that do not unify.
pub open spec fn cannot_unify_text(lhs: SType_, rhs: SType_) -> Seq<char> {
    "Can not unify "@ + types::type_text(lhs) + " with "@ + types::type_text(rhs)
}

fn cannot_unify(lhs: &Type, rhs: &Type) -> (r: Result<(), Error>)
    ensures
        r matches Err(e) && e.spec_msg() == cannot_unify_text(lhs@, rhs@),
{
    let mut s = String::new();
    push_str(&mut s, "Can not unify ");
    lhs.push_text(&mut s);
    push_str(&mut s, " with ");
    rhs.push_text(&mut s);
    assert(s@ =~= cannot_unify_text(lhs@, rhs@));
    Err(Error::new(s))
}

impl UnificationTable {
    pub closed spec fn wf(&self) -> bool {
        &&& self.subst.wf()
        &&& self.subst.len() <= u32::MAX
        &&& forall|id: u32| #[trigger]
            self.indices@.contains_key(id) ==> (self.indices@[id] as int) < self.subst.len()
        &&& self.levels@.dom() == self.indices@.dom()
        &&& forall|i: int|
            0 <= i < self.subst.len() ==> vars_within(
                #[trigger] self.subst.node_value(i)@,
                self.indices@.dom(),
            )
    }

    /// A class that stands for a variable stands for one of its own
    /// members.
    pub closed spec fn own_vars(&self) -> bool {
        forall|id: u32| #[trigger]
            self.indices@.contains_key(id) ==> (self.class_value(id) matches SType::Var(w) ==> (
            self.indices@.contains_key(w.id) && self.same_class(id, w.id)))
    }

    /// The variables known to the table.
    pub closed spec fn dom(&self) -> Set<u32> {
        self.indices@.dom()
    }

    /// The number of variables the table can still take.
    pub closed spec fn room(&self) -> int {
        u32::MAX - self.subst.len()
    }

    /// The type the class of variable `id` stands for.
    pub closed spec fn class_value(&self, id: u32) -> SType_ {
        self.subst.value_of(self.indices@[id] as int)@
    }

    /// Variables `a` and `b` are in one class.
    pub closed spec fn same_class(&self, a: u32, b: u32) -> bool {
        self.subst.same(self.indices@[a] as int, self.indices@[b] as int)
    }

    /// The current level of variable `id`.
    pub closed spec fn level(&self, id: u32) -> u32 {
        self.levels@[id]
    }

    pub closed spec fn levels(&self) -> Map<u32, u32> {
        self.levels@
    }

    /// `t` with the substitution applied. A variable whose class stands for
    /// a variable becomes that variable; one whose class stands for another
    /// type becomes that type, itself substituted. A variable met again
    /// inside its own expansion is left as it is.
    spec fn resolve(&self, t: SType_, seen: Set<u32>) -> SType_
        decreases self.indices@.dom().difference(seen).len(), t,
    {
        match t {
            SType::Con(c, k) => SType::Con(c, k),
            SType::App(f, args) => SType::App(
                Box::new(self.resolve(*f, seen)),
                self.resolve_seq(args, seen),
            ),
            SType::Var(v) => {
                if self.indices@.dom().contains(v.id) && !seen.contains(v.id) {
                    match self.class_value(v.id) {
                        SType::Var(w) => SType::Var(w),
                        other => {
                            proof {
                                self.lemma_seen_grows(seen, v.id);
                            }
                            self.resolve(other, seen.insert(v.id))
                        },
                    }
                } else {
                    SType::Var(v)
                }
            },
        }
    }

    spec fn resolve_seq(&self, s: Seq<SType_>, seen: Set<u32>) -> Seq<SType_>
        decreases self.indices@.dom().difference(seen).len(), s,
    {
        if s.len() == 0 {
            Seq::empty()
        } else {
            self.resolve_seq(s.drop_last(), seen).push(self.resolve(s.last(), seen))
        }
    }

    proof fn lemma_seen_grows(&self, seen: Set<u32>, id: u32)
        requires
            self.indices@.dom().contains(id),
            !seen.contains(id),
        ensures
            self.indices@.dom().difference(seen.insert(id)).len() < self.indices@.dom().difference(
                seen,
            ).len(),
    {
        let d = self.indices@.dom();
        assert(d.finite()) by {
            vstd::std_specs::hash::axiom_hashmap_view_finite_dom(self.indices);
        }
        assert(d.difference(seen.insert(id)) =~= d.difference(seen).remove(id));
    }

    proof fn lemma_resolve_seq(&self, s: Seq<SType_>, seen: Set<u32>)
        ensures
            self.resolve_seq(s, seen).len() == s.len(),
            forall|i: int|
                0 <= i < s.len() ==> #[trigger] self.resolve_seq(s, seen)[i] == self.resolve(
                    s[i],
                    seen,
                ),
        decreases s.len(),
    {
        if s.len() > 0 {
            self.lemma_resolve_seq(s.drop_last(), seen);
        }
    }

    /// Resolving `t`, with the variables of `seen` already entered, never
    /// meets a variable of `s`: no binding reached from `t` leads to one.
    pub closed spec fn avoids(&self, t: SType_, seen: Set<u32>, s: Set<u32>) -> bool
        decreases self.dom().difference(seen).len(), t,
    {
        match t {
            SType::Con(_, _) => true,
            SType::App(f, args) => self.avoids(*f, seen, s) && forall|j: int|
                0 <= j < args.len() ==> self.avoids(#[trigger] args[j], seen, s),
            SType::Var(v) => !s.contains(v.id) && (if self.indices@.dom().contains(v.id)
                && !seen.contains(v.id) {
                match self.class_value(v.id) {
                    SType::Var(_) => true,
                    other => {
                        proof {
                            self.lemma_seen_grows(seen, v.id);
                        }
                        self.avoids(other, seen.insert(v.id), s)
                    },
                }
            } else {
                true
            }),
        }
    }

    /// Variables that resolving `t` never meets may be counted as entered
    /// without changing the result.
    proof fn lemma_resolve_extra(&self, t: SType_, seen: Set<u32>, extra: Set<u32>)
        requires
            self.avoids(t, seen, extra),
        ensures
            self.resolve(t, seen.union(extra)) == self.resolve(t, seen),
        decreases self.indices@.dom().difference(seen).len(), t,
    {
        match t {
            SType::Con(_, _) => {},
            SType::App(f, args) => {
                self.lemma_resolve_extra(*f, seen, extra);
                self.lemma_resolve_seq(args, seen);
                self.lemma_resolve_seq(args, seen.union(extra));
                assert forall|j: int| 0 <= j < args.len() implies self.resolve(
                    #[trigger] args[j],
                    seen.union(extra),
                ) == self.resolve(args[j], seen) by {
                    self.lemma_resolve_extra(args[j], seen, extra);
                }
                assert(self.resolve_seq(args, seen.union(extra)) =~= self.resolve_seq(args, seen));
            },
            SType::Var(v) => {
                if self.indices@.dom().contains(v.id) && !seen.contains(v.id) {
                    match self.class_value(v.id) {
                        SType::Var(_) => {},
                        other => {
                            self.lemma_seen_grows(seen, v.id);
                            self.lemma_resolve_extra(other, seen.insert(v.id), extra);
                            assert(seen.union(extra).insert(v.id) =~= seen.insert(v.id).union(
                                extra,
                            ));
                        },
                    }
                }
            },
        }
    }

    /// Applying the substitution keeps constructors, and applies itself to
    /// the head and to each argument of an application.
    pub proof fn law_applied_parts(&self, t: SType_)
        ensures
            t matches SType::Con(_, _) ==> self.applied(t) == t,
            t matches SType::App(f, args) ==> self.applied(t) == SType::App(
                Box::new(self.applied(*f)),
                args.map_values(|a: SType_| self.applied(a)),
            ),
    {
        if let SType::App(f, args) = t {
            self.lemma_resolve_seq(args, Set::empty());
            assert(self.resolve_seq(args, Set::empty()) =~= args.map_values(
                |a: SType_| self.applied(a),
            ));
        }
    }

    /// Applying the substitution resolves through bindings: where the type
    /// that the class of `v` stands for is no variable and its resolution
    /// does not lead back to `v`, the substitution of `v` is the
    /// substitution of that type.
    pub proof fn law_applied_through_binding(&self, v: TyVar)
        requires
            self.dom().contains(v.id),
            !(self.class_value(v.id) is Var),
            self.avoids(self.class_value(v.id), Set::empty(), Set::empty().insert(v.id)),
        ensures
            self.applied(SType::Var(v)) == self.applied(self.class_value(v.id)),
    {
        let c = self.class_value(v.id);
        self.lemma_resolve_extra(c, Set::empty(), Set::empty().insert(v.id));
        assert(Set::<u32>::empty().union(Set::empty().insert(v.id)) =~= Set::<u32>::empty().insert(
            v.id,
        ));
    }

    /// `t` with the substitution applied.
    pub closed spec fn applied(&self, t: SType_) -> SType_ {
        self.resolve(t, Set::empty())
    }

    proof fn lemma_ground(&self, t: SType_, seen: Set<u32>)
        requires
            vars_within(t, Set::empty()),
        ensures
            self.resolve(t, seen) == t,
        decreases t,
    {
        if let SType::App(f, args) = t {
            self.lemma_ground(*f, seen);
            self.lemma_ground_seq(args, seen);
        }
    }

    proof fn lemma_ground_seq(&self, s: Seq<SType_>, seen: Set<u32>)
        requires
            vars_within_seq(s, Set::empty()),
        ensures
            self.resolve_seq(s, seen) == s,
        decreases s,
    {
        if s.len() > 0 {
            self.lemma_ground_seq(s.drop_last(), seen);
            self.lemma_ground(s.last(), seen);
            assert(s.drop_last().push(s.last()) =~= s);
        }
    }

    /// The substitution leaves a type without variables as it is.
    pub proof fn law_ground_type_unchanged(&self, t: SType_)
        requires
            vars_within(t, Set::empty()),
        ensures
            self.applied(t) == t,
    {
        self.lemma_ground(t, Set::empty());
    }

    /// Applying the substitution a second time changes nothing, in a table
    /// whose classes stand for variables or for types without variables.
    pub proof fn law_apply_idempotent(&self, t: SType_)
        requires
            self.wf(),
            self.own_vars(),
            self.ground_bound(),
            vars_within(t, self.dom()),
        ensures
            self.applied(self.applied(t)) == self.applied(t),
        decreases t,
    {
        match t {
            SType::Var(u) => {
                self.lemma_applied_var(u);
                let c = self.class_value(u.id);
                if let SType::Var(w) = c {
                    self.lemma_applied_var(w);
                    let ku = self.indices@[u.id] as int;
                    let kw = self.indices@[w.id] as int;
                    assert(self.subst.repr(ku) == self.subst.repr(kw));
                } else {
                    self.lemma_ground(c, Set::empty());
                }
            },
            SType::Con(_, _) => {},
            SType::App(f, args) => {
                self.lemma_resolve_seq(args, Set::empty());
                lemma_vars_within_seq(args, self.dom());
                self.law_apply_idempotent(*f);
                let a1 = self.resolve_seq(args, Set::empty());
                self.lemma_resolve_seq(a1, Set::empty());
                assert forall|i: int| 0 <= i < args.len() implies self.resolve(
                    #[trigger] a1[i],
                    Set::empty(),
                ) == a1[i] by {
                    self.law_apply_idempotent(args[i]);
                }
                assert(self.resolve_seq(a1, Set::empty()) =~= a1);
            },
        }
    }

    /// A variable alone in its class, standing for itself, is its own
    /// substitution.
    pub proof fn law_unbound_var_unchanged(&self, v: TyVar)
        requires
            self.dom().contains(v.id),
            self.class_value(v.id) == SType_::Var(v),
        ensures
            self.applied(SType_::Var(v)) == SType_::Var(v),
    {
    }

    /// Every class stands for a variable or for a type with no variable.
    pub closed spec fn ground_bound(&self) -> bool {
        forall|id: u32| #[trigger]
            self.dom().contains(id) ==> (self.class_value(id) is Var || vars_within(
                self.class_value(id),
                Set::empty(),
            ))
    }

    /// `other` knows the same variables, and every class that stands for a
    /// type other than a variable here stands for the same type there.
    pub closed spec fn keeps_bindings(&self, other: UnificationTable) -> bool {
        &&& other.dom() == self.dom()
        &&& forall|id: u32| #[trigger]
            self.dom().contains(id) && !(self.class_value(id) is Var) ==> other.class_value(id)
                == self.class_value(id)
    }

    /// A variable whose class stands for a variable or for a type without
    /// variables has that for its substitution.
    pub proof fn lemma_applied_var(&self, u: TyVar)
        requires
            self.dom().contains(u.id),
            self.class_value(u.id) is Var || vars_within(self.class_value(u.id), Set::empty()),
        ensures
            self.applied(SType::Var(u)) == self.class_value(u.id),
    {
        let c = self.class_value(u.id);
        if !(c is Var) {
            self.lemma_ground(c, Set::empty().insert(u.id));
        }
    }

    /// Between ground-bound tables that keep bindings, a type whose
    /// substitution has no variable keeps its substitution.
    proof fn lemma_applied_kept(&self, other: UnificationTable, t: SType_)
        requires
            self.ground_bound(),
            other.ground_bound(),
            self.keeps_bindings(other),
            vars_within(t, self.dom()),
            vars_within(self.applied(t), Set::empty()),
        ensures
            other.applied(t) == self.applied(t),
        decreases t,
    {
        match t {
            SType::Var(u) => {
                self.lemma_applied_var(u);
                other.lemma_applied_var(u);
            },
            SType::Con(_, _) => {},
            SType::App(f, args) => {
                self.lemma_resolve_seq(args, Set::empty());
                other.lemma_resolve_seq(args, Set::empty());
                lemma_app_parts(
                    self.resolve(*f, Set::empty()),
                    self.resolve_seq(args, Set::empty()),
                    Set::empty(),
                );
                lemma_vars_within_seq(args, self.dom());
                self.lemma_applied_kept(other, *f);
                assert forall|i: int| 0 <= i < args.len() implies other.resolve(
                    #[trigger] args[i],
                    Set::empty(),
                ) == self.resolve(args[i], Set::empty()) by {
                    assert(self.resolve_seq(args, Set::empty())[i] == self.resolve(
                        args[i],
                        Set::empty(),
                    ));
                    self.lemma_applied_kept(other, args[i]);
                }
                assert(other.resolve_seq(args, Set::empty()) =~= self.resolve_seq(
                    args,
                    Set::empty(),
                ));
            },
        }
    }

    pub fn new() -> (r: Self)
        ensures
            r.wf(),
            r.dom() == Set::<u32>::empty(),
            r.room() == u32::MAX,
            r.ground_bound(),
            r.own_vars(),
    {
        let subst = DisjointSet::with_capacity(100);
        let indices = HashMap::new();
        let levels = HashMap::new();
        UnificationTable { subst, indices, levels }
    }

    /// Registers `tyvar`, alone in its class, at its own level.
    pub fn add(&mut self, tyvar: TyVar)
        requires
            old(self).wf(),
            old(self).room() > 0,
        ensures
            final(self).wf(),
            final(self).dom() == old(self).dom().insert(tyvar.id),
            final(self).room() == old(self).room() - 1,
            final(self).class_value(tyvar.id) == SType_::Var(tyvar),
            old(self).ground_bound() ==> final(self).ground_bound(),
            !old(self).dom().contains(tyvar.id) && old(self).own_vars() ==> final(self).own_vars(),
            final(self).level(tyvar.id) == tyvar.inner.level,
            forall|id: u32| #[trigger]
                old(self).dom().contains(id) && id != tyvar.id ==> final(self).class_value(id)
                    == old(self).class_value(id) && final(self).level(id) == old(self).level(id),
            forall|a: u32, b: u32|
                old(self).dom().contains(a) && old(self).dom().contains(b) && a != tyvar.id && b
                    != tyvar.id ==> (#[trigger] final(self).same_class(a, b) <==> old(
                    self,
                ).same_class(a, b)),
            forall|a: u32| #[trigger]
                old(self).dom().contains(a) && a != tyvar.id ==> !final(self).same_class(
                    a,
                    tyvar.id,
                ),
    {
        let ghost old_self = *self;
        let key: u32 = self.subst.add(Type::Var(tyvar));
        self.indices.insert(tyvar.id, key);
        self.levels.insert(tyvar.id, tyvar.inner.level);
        proof {
            assert forall|id: u32| #[trigger]
                self.indices@.contains_key(id) implies (self.indices@[id] as int)
                < self.subst.len() by {
                if id != tyvar.id {
                    assert(old(self).indices@.contains_key(id));
                }
            }
            assert(self.levels@.dom() =~= self.indices@.dom());
            assert forall|id: u32| #[trigger]
                old_self.dom().contains(id) && id != tyvar.id implies self.class_value(id)
                == old_self.class_value(id) && self.level(id) == old_self.level(id)
                && !self.same_class(id, tyvar.id) by {
                let k = old_self.indices@[id] as int;
                assert(self.indices@[id] as int == k);
                old_self.subst.lemma_repr(k);
            }
            assert forall|i: int| 0 <= i < self.subst.len() implies vars_within(
                #[trigger] self.subst.node_value(i)@,
                self.indices@.dom(),
            ) by {
                if i < old(self).subst.len() {
                    lemma_vars_within_mono(
                        old(self).subst.node_value(i)@,
                        old(self).indices@.dom(),
                        self.indices@.dom(),
                    );
                }
            }
            if old_self.ground_bound() {
                assert forall|id: u32| #[trigger] self.dom().contains(id) implies (self.class_value(
                    id,
                ) is Var || vars_within(self.class_value(id), Set::empty())) by {
                    if id != tyvar.id {
                        assert(old_self.dom().contains(id));
                    }
                }
            }
        }
    }

    /// `ty` with the substitution applied.
    pub fn apply_subst(&mut self, ty: &Type) -> (r: Type)
        requires
            old(self).wf(),
            vars_within(ty@, old(self).dom()),
        ensures
            *final(self) == *old(self),
            r@ == old(self).applied(ty@),
    {
        let seen: Vec<u32> = Vec::new();
        assert(seen@.to_set() =~= Set::<u32>::empty());
        self.resolve_in(ty, &seen)
    }

    fn resolve_all(&self, args: &Vec<Type>, seen: &Vec<u32>) -> (r: Vec<Type>)
        requires
            self.wf(),
            vars_within_seq(types_view(args@), self.dom()),
        ensures
            types_view(r@) == self.resolve_seq(types_view(args@), seen@.to_set()),
        decreases self.indices@.dom().difference(seen@.to_set()).len(), *args,
    {
        proof {
            broadcast use types::lemma_types_view;

            lemma_vars_within_seq(types_view(args@), self.dom());
            self.lemma_resolve_seq(types_view(args@), seen@.to_set());
            assert forall|j: int| 0 <= j < args@.len() implies vars_within(
                #[trigger] args@[j]@,
                self.dom(),
            ) by {
                assert(types_view(args@)[j] == args@[j]@);
            }
        }
        let mut args2: Vec<Type> = Vec::new();
        let mut i: usize = 0;
        while i < args.len()
            invariant
                self.wf(),
                i <= args@.len(),
                args2@.len() == i,
                forall|j: int| 0 <= j < args@.len() ==> vars_within(#[trigger] args@[j]@, self.dom()),
                forall|j: int|
                    0 <= j < i ==> #[trigger] args2@[j]@ == self.resolve(
                        args@[j]@,
                        seen@.to_set(),
                    ),
            decreases args@.len() - i,
        {
            proof {
                broadcast use vstd::std_specs::vec::axiom_vec_index_decreases;

                assert(decreases_to!(*args => args[i as int]));
            }
            let a = self.resolve_in(&args[i], seen);
            args2.push(a);
            i = i + 1;
        }
        proof {
            broadcast use types::lemma_types_view;

            self.lemma_resolve_seq(types_view(args@), seen@.to_set());
            types::lemma_types_view(args2@);
            types::lemma_types_view(args@);
            assert forall|j: int| 0 <= j < args@.len() implies #[trigger] types_view(args2@)[j]
                == self.resolve_seq(types_view(args@), seen@.to_set())[j] by {
                assert(types_view(args@)[j] == args@[j]@);
                assert(types_view(args2@)[j] == args2@[j]@);
                assert(args2@[j]@ == self.resolve(args@[j]@, seen@.to_set()));
            }
            assert(types_view(args2@) =~= self.resolve_seq(types_view(args@), seen@.to_set()));
        }
        args2
    }

    fn resolve_in(&self, ty: &Type, seen: &Vec<u32>) -> (r: Type)
        requires
            self.wf(),
            vars_within(ty@, self.dom()),
        ensures
            r@ == self.resolve(ty@, seen@.to_set()),
        decreases self.indices@.dom().difference(seen@.to_set()).len(), *ty,
    {
        match ty {
            types::Type::Con(con, kind) => types::Type::Con(con.clone(), kind.clone()),
            types::Type::App(con, args) => {
                proof {
                    assert(decreases_to!(*ty => *args));
                }
                let con2 = self.resolve_in(con, seen);
                let args2 = self.resolve_all(args, seen);
                types::Type::App(Box::new(con2), args2)
            },
            types::Type::Var(tv) => {
                let mut on_path = false;
                let mut j: usize = 0;
                while j < seen.len()
                    invariant
                        j <= seen@.len(),
                        on_path == exists|k: int| 0 <= k < j && seen@[k] == tv.id,
                    decreases seen@.len() - j,
                {
                    if seen[j] == tv.id {
                        on_path = true;
                    }
                    j = j + 1;
                }
                if on_path {
                    return types::Type::Var(*tv);
                }
                let key = match self.indices.get(&tv.id) {
                    Some(k) => *k,
                    None => {
                        return types::Type::Var(*tv);
                    },
                };
                let bound = self.subst.get(key).clone();
                match bound {
                    types::Type::Var(w) => types::Type::Var(w),
                    other => {
                        let mut seen2: Vec<u32> = Vec::new();
                        let mut k: usize = 0;
                        while k < seen.len()
                            invariant
                                k <= seen@.len(),
                                seen2@ == seen@.subrange(0, k as int),
                            decreases seen@.len() - k,
                        {
                            seen2.push(seen[k]);
                            k = k + 1;
                            assert(seen2@ =~= seen@.subrange(0, k as int));
                        }
                        assert(seen2@ =~= seen@);
                        seen2.push(tv.id);
                        proof {
                            assert forall|x: u32| seen2@.contains(x) <==> (seen@.contains(x) || x
                                == tv.id) by {
                                if seen@.contains(x) {
                                    let k = choose|k: int| 0 <= k < seen@.len() && seen@[k] == x;
                                    assert(seen2@[k] == x);
                                }
                                if seen2@.contains(x) && x != tv.id {
                                    let k = choose|k: int| 0 <= k < seen2@.len() && seen2@[k] == x;
                                    assert(seen@[k] == x);
                                }
                                if x == tv.id {
                                    assert(seen2@[seen@.len() as int] == x);
                                }
                            }
                            assert(seen2@.to_set() =~= seen@.to_set().insert(tv.id));
                            self.lemma_seen_grows(seen@.to_set(), tv.id);
                            self.subst.lemma_repr(key as int);
                        }
                        self.resolve_in(&other, &seen2)
                    },
                }
            },
        }
    }

    /// The occurs check: whether `tv1` occurs in `ty` below its top. On
    /// the way, every variable met is moved down to the level of `tv1`.
    fn occurs(&mut self, tv1: &TyVar, ty: &Type, top_level: bool) -> (r: bool)
        requires
            old(self).wf(),
            vars_within(ty@, old(self).dom()),
            old(self).dom().contains(tv1.id),
            top_level ==> !(ty@ matches SType::Var(v) && v.id == tv1.id),
        ensures
            final(self).wf(),
            final(self).subst == old(self).subst,
            final(self).indices@ == old(self).indices@,
            (r, final(self).levels@) == occurs_walk(tv1.id, ty@, top_level, old(self).levels@),
        decreases *ty,
    {
        match ty {
            types::Type::Con(_, _) => false,
            types::Type::Var(tv2) => {
                if tv1.id == tv2.id && !top_level {
                    true
                } else {
                    let l1 = match self.levels.get(&tv1.id) {
                        Some(l) => *l,
                        None => 0,
                    };
                    let l2 = match self.levels.get(&tv2.id) {
                        Some(l) => *l,
                        None => 0,
                    };
                    let level = if l1 <= l2 {
                        l1
                    } else {
                        l2
                    };
                    self.levels.insert(tv2.id, level);
                    proof {
                        assert(self.levels@.dom() =~= self.indices@.dom());
                    }
                    false
                }
            },
            types::Type::App(con, args) => {
                proof {
                    assert(decreases_to!(*ty => *args));
                }
                if self.occurs(tv1, con, false) {
                    true
                } else {
                    self.occurs_all(tv1, args)
                }
            },
        }
    }

    fn occurs_all(&mut self, tv1: &TyVar, args: &Vec<Type>) -> (r: bool)
        requires
            old(self).wf(),
            vars_within_seq(types_view(args@), old(self).dom()),
            old(self).dom().contains(tv1.id),
        ensures
            final(self).wf(),
            final(self).subst == old(self).subst,
            final(self).indices@ == old(self).indices@,
            (r, final(self).levels@) == occurs_walk_seq(
                tv1.id,
                types_view(args@),
                old(self).levels@,
            ),
        decreases *args,
    {
        let ghost s = types_view(args@);
        proof {
            types::lemma_types_view(args@);
            lemma_vars_within_seq(s, self.dom());
        }
        let n = args.len();
        let mut i: usize = 0;
        assert(s.subrange(0, n as int) =~= s);
        while i < n
            invariant
                self.wf(),
                self.dom().contains(tv1.id),
                self.subst == old(self).subst,
                self.indices@ == old(self).indices@,
                n == args@.len(),
                s == types_view(args@),
                s.len() == n,
                forall|j: int| 0 <= j < n ==> #[trigger] s[j] == args@[j]@,
                forall|j: int| 0 <= j < n ==> vars_within(#[trigger] s[j], self.dom()),
                i <= n,
                occurs_walk_seq(tv1.id, s, old(self).levels@) == occurs_walk_seq(
                    tv1.id,
                    s.subrange(i as int, n as int),
                    self.levels@,
                ),
            decreases n - i,
        {
            proof {
                broadcast use vstd::std_specs::vec::axiom_vec_index_decreases;

                assert(decreases_to!(*args => args[i as int]));
                assert(s.subrange(i as int, n as int)[0] == s[i as int]);
                assert(s.subrange(i as int, n as int).subrange(1, n - i) =~= s.subrange(
                    i + 1,
                    n as int,
                ));
            }
            if self.occurs(tv1, &args[i], false) {
                return true;
            }
            i = i + 1;
        }
        false
    }

    /// Unifies `lhs` and `rhs`, with at most `fuel` steps.
    fn unify_in(&mut self, lhs: &Type, rhs: &Type, fuel: u64) -> (r: Result<(), Error>)
        requires
            old(self).wf(),
            vars_within(lhs@, old(self).dom()),
            vars_within(rhs@, old(self).dom()),
        ensures
            final(self).wf(),
            final(self).dom() == old(self).dom(),
            final(self).room() == old(self).room(),
            fuel > 0 ==> unify_first_step(*old(self), lhs@, rhs@, r, *final(self)),
            fuel == 0 ==> r is Err,
            r is Ok ==> same_shape(lhs@, rhs@),
            fuel > height(lhs@) && lhs@ == rhs@ ==> r is Ok
                && *final(self) == *old(self),
            lhs@ matches SType::Var(v) ==> (binds_ground(*old(self), v, rhs@, fuel as int) ==> r is Ok
                && final(self).class_value(v.id) == rhs@ && only_class_changed(
                *old(self),
                *final(self),
                v,
            )),
            rhs@ matches SType::Var(v) ==> (binds_ground(*old(self), v, lhs@, fuel as int) ==> r is Ok
                && final(self).class_value(v.id) == lhs@ && only_class_changed(
                *old(self),
                *final(self),
                v,
            )),
            vars_within(lhs@, Set::empty()) && vars_within(rhs@, Set::empty()) && r is Ok ==> lhs@
                == rhs@,
            lhs@ matches SType::Var(v) ==> (bound_meets_ground(*old(self), v, rhs@) && r is Ok
                ==> old(self).class_value(v.id) == rhs@),
            rhs@ matches SType::Var(v) ==> (bound_meets_ground(*old(self), v, lhs@) && r is Ok
                ==> old(self).class_value(v.id) == lhs@),
            old(self).ground_bound() && (vars_within(lhs@, Set::empty()) || vars_within(
                rhs@,
                Set::empty(),
            )) ==> final(self).ground_bound() && (r is Ok ==> old(self).keeps_bindings(*final(self))),
            classes_grow(*old(self), *final(self)),
            old(self).own_vars() ==> final(self).own_vars(),
            old(self).ground_bound() && lhs@ is Var && rhs@ is Var ==> final(self).ground_bound()
                && (r is Ok ==> old(self).keeps_bindings(*final(self)) && final(self).applied(lhs@)
                == final(self).applied(rhs@)),
            old(self).ground_bound() && vars_within(lhs@, Set::empty()) && r is Ok
                ==> final(self).applied(rhs@) == lhs@,
            old(self).ground_bound() && vars_within(rhs@, Set::empty()) && r is Ok
                ==> final(self).applied(lhs@) == rhs@,
        decreases fuel,
    {
        if fuel == 0 {
            return Err(Error::new("unification does not come to an end".to_owned()));
        }
        match (lhs, rhs) {
            (types::Type::Con(l, lk), types::Type::Con(r, rk)) => {
                if !l.same(r) || !lk.same(rk) {
                    return cannot_unify(lhs, rhs);
                }
                Ok(())
            },
            (types::Type::App(lty, largs), types::Type::App(rty, rargs)) => {
                let ghost same = fuel > height(lhs@) && lhs@ == rhs@;
                proof {
                    types::lemma_types_view(largs@);
                    types::lemma_types_view(rargs@);
                    lemma_app_parts(lty@, types_view(largs@), Set::empty());
                    if same {
                        assert(types_view(largs@) == types_view(rargs@));
                        assert forall|j: int| 0 <= j < largs@.len() implies #[trigger] largs@[j]@
                            == rargs@[j]@ && height(largs@[j]@) < fuel - 1 by {
                            assert(types_view(largs@)[j] == largs@[j]@);
                            assert(types_view(rargs@)[j] == rargs@[j]@);
                        }
                    }
                }
                if largs.len() != rargs.len() {
                    return cannot_unify(lhs, rhs);
                }
                proof {
                    types::lemma_types_view(largs@);
                    types::lemma_types_view(rargs@);
                    lemma_vars_within_seq(types_view(largs@), self.dom());
                    lemma_vars_within_seq(types_view(rargs@), self.dom());
                    assert forall|j: int| 0 <= j < largs@.len() implies vars_within(
                        #[trigger] largs@[j]@,
                        old(self).dom(),
                    ) by {
                        assert(types_view(largs@)[j] == largs@[j]@);
                    }
                    assert forall|j: int| 0 <= j < rargs@.len() implies vars_within(
                        #[trigger] rargs@[j]@,
                        old(self).dom(),
                    ) by {
                        assert(types_view(rargs@)[j] == rargs@[j]@);
                    }
                }
                let ghost ground = vars_within(lhs@, Set::empty()) && vars_within(
                    rhs@,
                    Set::empty(),
                );
                proof {
                    if ground {
                        lemma_app_parts(lty@, types_view(largs@), Set::empty());
                        lemma_app_parts(rty@, types_view(rargs@), Set::empty());
                        assert forall|j: int| 0 <= j < largs@.len() implies vars_within(
                            #[trigger] largs@[j]@,
                            Set::empty(),
                        ) && vars_within(rargs@[j]@, Set::empty()) by {
                            assert(types_view(largs@)[j] == largs@[j]@);
                            assert(types_view(rargs@)[j] == rargs@[j]@);
                        }
                    }
                }
                let ghost lg = old(self).ground_bound() && vars_within(lhs@, Set::empty());
                let ghost rg = old(self).ground_bound() && vars_within(rhs@, Set::empty());
                proof {
                    if lg {
                        lemma_app_parts(lty@, types_view(largs@), Set::empty());
                        assert forall|j: int| 0 <= j < largs@.len() implies vars_within(
                            #[trigger] largs@[j]@,
                            Set::empty(),
                        ) by {
                            assert(types_view(largs@)[j] == largs@[j]@);
                        }
                    }
                    if rg {
                        lemma_app_parts(rty@, types_view(rargs@), Set::empty());
                        assert forall|j: int| 0 <= j < rargs@.len() implies vars_within(
                            #[trigger] rargs@[j]@,
                            Set::empty(),
                        ) by {
                            assert(types_view(rargs@)[j] == rargs@[j]@);
                        }
                    }
                }
                match self.unify_in(lty, rty, fuel - 1) {
                    Ok(()) => {},
                    Err(e) => {
                        return Err(e);
                    },
                }
                let mut i: usize = 0;
                while i < largs.len()
                    invariant
                        self.wf(),
                        self.dom() == old(self).dom(),
                        self.room() == old(self).room(),
                        largs@.len() == rargs@.len(),
                        i <= largs@.len(),
                        forall|j: int|
                            0 <= j < largs@.len() ==> vars_within(
                                #[trigger] largs@[j]@,
                                old(self).dom(),
                            ),
                        forall|j: int|
                            0 <= j < rargs@.len() ==> vars_within(
                                #[trigger] rargs@[j]@,
                                old(self).dom(),
                            ),
                        fuel > 0,
                        lhs@ matches SType::App(_, a1) && rhs@ matches SType::App(_, a2) && a1.len()
                            == a2.len(),
                        same == (fuel > height(lhs@) && lhs@ == rhs@),
                        same ==> *self == *old(self),
                        same_shape(lty@, rty@),
                        forall|j: int|
                            0 <= j < i ==> same_shape(#[trigger] largs@[j]@, rargs@[j]@),
                        ground ==> lty@ == rty@,
                        ground ==> forall|j: int|
                            0 <= j < largs@.len() ==> vars_within(#[trigger] largs@[j]@, Set::empty())
                                && vars_within(rargs@[j]@, Set::empty()),
                        ground ==> forall|j: int| 0 <= j < i ==> #[trigger] largs@[j]@ == rargs@[j]@,
                        same ==> forall|j: int|
                            0 <= j < largs@.len() ==> #[trigger] largs@[j]@ == rargs@[j]@
                                && height(largs@[j]@) < fuel - 1,
                        lg == (old(self).ground_bound() && vars_within(lhs@, Set::empty())),
                        rg == (old(self).ground_bound() && vars_within(rhs@, Set::empty())),
                        lg || rg ==> self.ground_bound() && old(self).keeps_bindings(*self),
                        lg ==> vars_within(lty@, Set::empty()) && forall|j: int|
                            0 <= j < largs@.len() ==> vars_within(#[trigger] largs@[j]@, Set::empty()),
                        rg ==> vars_within(rty@, Set::empty()) && forall|j: int|
                            0 <= j < rargs@.len() ==> vars_within(#[trigger] rargs@[j]@, Set::empty()),
                        lg ==> self.applied(rty@) == lty@ && forall|j: int|
                            0 <= j < i ==> self.applied(#[trigger] rargs@[j]@) == largs@[j]@,
                        rg ==> self.applied(lty@) == rty@ && forall|j: int|
                            0 <= j < i ==> self.applied(#[trigger] largs@[j]@) == rargs@[j]@,
                        vars_within(lty@, old(self).dom()),
                        vars_within(rty@, old(self).dom()),
                        classes_grow(*old(self), *self),
                        old(self).own_vars() ==> self.own_vars(),
                        vars_joined(*self, lty@, rty@),
                        forall|j: int| 0 <= j < i ==> vars_joined(*self, #[trigger] largs@[j]@, rargs@[j]@),
                    decreases largs@.len() - i,
                {
                    let ghost prev = *self;
                    let res = self.unify_in(&largs[i], &rargs[i], fuel - 1);
                    proof {
                        assert forall|x: u32, y: u32|
                            old(self).dom().contains(x) && old(self).dom().contains(y) && old(
                                self,
                            ).same_class(x, y) implies #[trigger] self.same_class(x, y) by {
                            assert(prev.same_class(x, y));
                        }
                    }
                    match res {
                        Ok(()) => {},
                        Err(e) => {
                            return Err(e);
                        },
                    }
                    proof {
                        if lty@ is Var && rty@ is Var {
                            assert(prev.same_class(lty@->0.id, rty@->0.id));
                        }
                        assert forall|j: int| 0 <= j < i + 1 implies vars_joined(
                            *self,
                            #[trigger] largs@[j]@,
                            rargs@[j]@,
                        ) by {
                            if j < i && largs@[j]@ is Var && rargs@[j]@ is Var {
                                assert(prev.same_class(largs@[j]@->0.id, rargs@[j]@->0.id));
                            }
                        }
                    }
                    proof {
                        if lg || rg {
                            assert forall|id: u32| #[trigger]
                                old(self).dom().contains(id) && !(old(self).class_value(id) is Var)
                                implies self.class_value(id) == old(self).class_value(id) by {
                                assert(prev.dom().contains(id));
                            }
                            if lg {
                                prev.lemma_applied_kept(*self, rty@);
                                assert forall|j: int| 0 <= j < i + 1 implies self.applied(
                                    #[trigger] rargs@[j]@,
                                ) == largs@[j]@ by {
                                    if j < i {
                                        prev.lemma_applied_kept(*self, rargs@[j]@);
                                    }
                                }
                            }
                            if rg {
                                prev.lemma_applied_kept(*self, lty@);
                                assert forall|j: int| 0 <= j < i + 1 implies self.applied(
                                    #[trigger] largs@[j]@,
                                ) == rargs@[j]@ by {
                                    if j < i {
                                        prev.lemma_applied_kept(*self, largs@[j]@);
                                    }
                                }
                            }
                        }
                    }
                    i = i + 1;
                }
                proof {
                    types::lemma_types_view(largs@);
                    types::lemma_types_view(rargs@);
                    lemma_same_shape_seq(types_view(largs@), types_view(rargs@));
                    assert forall|j: int| 0 <= j < largs@.len() implies same_shape(
                        #[trigger] types_view(largs@)[j],
                        types_view(rargs@)[j],
                    ) by {
                        assert(types_view(largs@)[j] == largs@[j]@);
                        assert(types_view(rargs@)[j] == rargs@[j]@);
                    }
                    if ground {
                        assert(types_view(largs@) =~= types_view(rargs@)) by {
                            assert forall|j: int| 0 <= j < largs@.len() implies types_view(
                                largs@,
                            )[j] == types_view(rargs@)[j] by {
                                assert(types_view(largs@)[j] == largs@[j]@);
                                assert(types_view(rargs@)[j] == rargs@[j]@);
                            }
                        }
                    }
                    assert forall|j: int| 0 <= j < largs@.len() implies vars_joined(
                        *self,
                        #[trigger] types_view(largs@)[j],
                        types_view(rargs@)[j],
                    ) by {
                        assert(types_view(largs@)[j] == largs@[j]@);
                        assert(types_view(rargs@)[j] == rargs@[j]@);
                    }
                    if lg {
                        self.lemma_resolve_seq(types_view(rargs@), Set::empty());
                        assert(self.resolve_seq(types_view(rargs@), Set::empty()) =~= types_view(
                            largs@,
                        )) by {
                            assert forall|j: int| 0 <= j < largs@.len() implies self.resolve_seq(
                                types_view(rargs@),
                                Set::empty(),
                            )[j] == types_view(largs@)[j] by {
                                assert(types_view(largs@)[j] == largs@[j]@);
                                assert(types_view(rargs@)[j] == rargs@[j]@);
                                assert(self.applied(rargs@[j]@) == largs@[j]@);
                            }
                        }
                    }
                    if rg {
                        self.lemma_resolve_seq(types_view(largs@), Set::empty());
                        assert(self.resolve_seq(types_view(largs@), Set::empty()) =~= types_view(
                            rargs@,
                        )) by {
                            assert forall|j: int| 0 <= j < largs@.len() implies self.resolve_seq(
                                types_view(largs@),
                                Set::empty(),
                            )[j] == types_view(rargs@)[j] by {
                                assert(types_view(largs@)[j] == largs@[j]@);
                                assert(types_view(rargs@)[j] == rargs@[j]@);
                                assert(self.applied(largs@[j]@) == rargs@[j]@);
                            }
                        }
                    }
                }
                Ok(())
            },
            (types::Type::Var(tyvar1), types::Type::Var(tyvar2)) => self.join(tyvar1, tyvar2, fuel),
            (types::Type::Var(tyvar), ty) => self.bind(tyvar, ty, fuel),
            (ty, types::Type::Var(tyvar)) => self.bind(tyvar, ty, fuel),
            _ => cannot_unify(lhs, rhs),
        }
    }

    /// Unifies two variables: merges their classes. Where one class stands
    /// for a type other than a variable, the merged class stands for it;
    /// where both do, the merged class stands for the first, and the two
    /// types are unified.
    fn join(&mut self, tv1: &TyVar, tv2: &TyVar, fuel: u64) -> (r: Result<(), Error>)
        requires
            old(self).wf(),
            fuel > 0,
            old(self).dom().contains(tv1.id),
            old(self).dom().contains(tv2.id),
        ensures
            final(self).wf(),
            final(self).dom() == old(self).dom(),
            final(self).room() == old(self).room(),
            unify_first_step(*old(self), SType::Var(*tv1), SType::Var(*tv2), r, *final(self)),
            classes_grow(*old(self), *final(self)),
            old(self).own_vars() ==> final(self).own_vars(),
            old(self).ground_bound() ==> final(self).ground_bound(),
            old(self).ground_bound() && r is Ok ==> old(self).keeps_bindings(*final(self)),
            old(self).ground_bound() && r is Ok
                ==> final(self).applied(SType::Var(*tv1)) == final(self).applied(SType::Var(*tv2)),
        decreases fuel, 0nat,
    {
        let key1 = self.key(tv1.id);
        let key2 = self.key(tv2.id);
        if self.subst.same_class(key1, key2) {
            proof {
                lemma_same_shape_refl(self.class_value(tv1.id));
                if self.ground_bound() {
                    self.lemma_applied_var(*tv1);
                    self.lemma_applied_var(*tv2);
                }
            }
            return Ok(());
        }
        proof {
            self.subst.lemma_repr(key1 as int);
            self.subst.lemma_repr(key2 as int);
        }
        let v1 = self.subst.get(key1).clone();
        let v2 = self.subst.get(key2).clone();
        let var1 = match v1 {
            types::Type::Var(_) => true,
            _ => false,
        };
        let var2 = match v2 {
            types::Type::Var(_) => true,
            _ => false,
        };
        let ghost before = *self;
        self.subst.merge(key1, key2);
        let ghost merged = *self;
        let ghost k1 = key1 as int;
        let ghost k2 = key2 as int;
        proof {
            assert forall|i: int| 0 <= i < self.subst.len() implies vars_within(
                #[trigger] self.subst.node_value(i)@,
                self.indices@.dom(),
            ) by {
                assert(before.subst.len() == self.subst.len());
            }
            assert forall|id: u32| #[trigger]
                self.indices@.contains_key(id) implies (self.indices@[id] as int)
                < self.subst.len() by {}
            // What each class stands for after the merge.
            assert(merged.class_value(tv1.id) == v1@ || merged.class_value(tv1.id) == v2@);
            assert(merged.same_class(tv1.id, tv2.id));
            assert forall|id: u32| #[trigger]
                before.dom().contains(id) implies merged.class_value(id) == (if before.same_class(
                id,
                tv1.id,
            ) || before.same_class(id, tv2.id) {
                merged.class_value(tv1.id)
            } else {
                before.class_value(id)
            }) && (merged.same_class(id, tv1.id) <==> (before.same_class(id, tv1.id)
                || before.same_class(id, tv2.id))) by {
                let k = before.indices@[id] as int;
                before.subst.lemma_repr(k);
            }
            assert forall|x: u32, y: u32|
                before.dom().contains(x) && before.dom().contains(y) && before.same_class(
                    x,
                    y,
                ) implies #[trigger] merged.same_class(x, y) by {
                before.subst.lemma_repr(before.indices@[x] as int);
                before.subst.lemma_repr(before.indices@[y] as int);
            }
            if before.ground_bound() {
                assert forall|id: u32| #[trigger] merged.dom().contains(id) implies (
                merged.class_value(id) is Var || vars_within(merged.class_value(id), Set::empty())) by {
                    assert(before.dom().contains(id));
                }
            }
        }
        if var1 && var2 {
            proof {
                if before.ground_bound() {
                    assert(merged.ground_bound());
                    self.lemma_applied_var(*tv1);
                    self.lemma_applied_var(*tv2);
                }
            }
            return Ok(());
        }
        let chosen = if var1 {
            v2.clone()
        } else {
            v1.clone()
        };
        let ghost mid0 = *self;
        proof {
            self.subst.lemma_repr(key1 as int);
        }
        let slot = self.subst.find(key1);
        *slot = chosen;
        proof {
            assert forall|i: int| 0 <= i < self.subst.len() implies vars_within(
                #[trigger] self.subst.node_value(i)@,
                self.indices@.dom(),
            ) by {
                if i != mid0.subst.repr(key1 as int) {
                    assert(self.subst.node_value(i) == mid0.subst.node_value(i));
                }
            }
            assert(self.subst.node_value(mid0.subst.repr(k1))@ == chosen@);
            assert forall|id: u32| #[trigger]
                before.dom().contains(id) implies self.class_value(id) == (if before.same_class(
                id,
                tv1.id,
            ) || before.same_class(id, tv2.id) {
                chosen@
            } else {
                before.class_value(id)
            }) && (self.same_class(id, tv1.id) <==> merged.same_class(id, tv1.id)) by {
                let k = before.indices@[id] as int;
                mid0.subst.lemma_repr(k);
                assert(self.subst.repr(k) == mid0.subst.repr(k));
                if !(before.same_class(id, tv1.id) || before.same_class(id, tv2.id)) {
                    assert(self.subst.node_value(mid0.subst.repr(k)) == mid0.subst.node_value(
                        mid0.subst.repr(k),
                    ));
                }
            }
            assert forall|x: u32, y: u32|
                before.dom().contains(x) && before.dom().contains(y) && merged.same_class(
                    x,
                    y,
                ) implies #[trigger] self.same_class(x, y) by {
                assert(self.subst.repr(before.indices@[x] as int) == mid0.subst.repr(
                    before.indices@[x] as int,
                ));
                assert(self.subst.repr(before.indices@[y] as int) == mid0.subst.repr(
                    before.indices@[y] as int,
                ));
            }
            if before.ground_bound() {
                assert forall|id: u32| #[trigger] self.dom().contains(id) implies (
                self.class_value(id) is Var || vars_within(self.class_value(id), Set::empty())) by {
                    assert(before.dom().contains(id));
                }
                assert(self.ground_bound());
            }
        }
        if var1 || var2 {
            proof {
                if before.ground_bound() {
                    self.lemma_applied_var(*tv1);
                    self.lemma_applied_var(*tv2);
                }
            }
            return Ok(());
        }
        let ghost mid = *self;
        let r = self.unify_in(&v1, &v2, fuel - 1);
        proof {
            assert forall|x: u32, y: u32|
                before.dom().contains(x) && before.dom().contains(y) && merged.same_class(
                    x,
                    y,
                ) implies #[trigger] self.same_class(x, y) by {
                assert(mid.same_class(x, y));
            }
            if before.ground_bound() && r is Ok {
                assert forall|id: u32| #[trigger]
                    before.dom().contains(id) && !(before.class_value(id) is Var) implies self.class_value(
                    id,
                ) == before.class_value(id) by {
                    assert(mid.dom().contains(id));
                }
                self.lemma_applied_var(*tv1);
                self.lemma_applied_var(*tv2);
            }
        }
        r
    }

    /// The node of a registered variable.
    fn key(&self, id: u32) -> (k: u32)
        requires
            self.wf(),
            self.dom().contains(id),
        ensures
            k == self.indices@[id],
            (k as int) < self.subst.len(),
    {
        match self.indices.get(&id) {
            Some(k) => *k,
            None => 0,
        }
    }

    /// Binds the class of `tyvar` to `ty`, which is no variable, after the
    /// occurs check, and unifies the type the class stood for with `ty`.
    fn bind(&mut self, tyvar: &TyVar, ty: &Type, fuel: u64) -> (r: Result<(), Error>)
        requires
            old(self).wf(),
            fuel > 0,
            !(ty@ is Var),
            old(self).dom().contains(tyvar.id),
            vars_within(ty@, old(self).dom()),
        ensures
            final(self).wf(),
            final(self).dom() == old(self).dom(),
            final(self).room() == old(self).room(),
            occurs_walk(tyvar.id, ty@, true, old(self).levels@).0 ==> (r matches Err(e)
                && e.spec_msg() == cannot_unify_text(SType::Var(*tyvar), ty@)),
            binds_ground(*old(self), *tyvar, ty@, fuel as int) ==> r is Ok
                && final(self).class_value(tyvar.id) == ty@ && only_class_changed(
                *old(self),
                *final(self),
                *tyvar,
            ),
            bound_meets_ground(*old(self), *tyvar, ty@) && r is Ok ==> old(self).class_value(
                tyvar.id,
            ) == ty@,
            classes_grow(*old(self), *final(self)),
            old(self).own_vars() ==> final(self).own_vars(),
            old(self).ground_bound() && vars_within(ty@, Set::empty()) ==> final(self).ground_bound()
                && (r is Ok ==> old(self).keeps_bindings(*final(self)) && final(self).applied(
                SType::Var(*tyvar),
            ) == ty@),
        decreases fuel, 0nat,
    {
        proof {
            if vars_within(ty@, Set::empty()) {
                lemma_occurs_ground(tyvar.id, ty@, true, self.levels@);
            }
        }
        if self.occurs(tyvar, ty, true) {
            return cannot_unify(&types::Type::Var(*tyvar), ty);
        }
        let key = self.key(tyvar.id);
        let ghost before = *self;
        proof {
            self.subst.lemma_repr(key as int);
        }
        let old_ty = self.subst.get(key).clone();
        let slot = self.subst.find(key);
        *slot = ty.clone();
        proof {
            assert forall|id: u32| #[trigger]
                self.indices@.contains_key(id) implies (self.indices@[id] as int)
                < self.subst.len() by {
                assert(before.indices@.contains_key(id));
            }
            assert forall|i: int| 0 <= i < self.subst.len() implies vars_within(
                #[trigger] self.subst.node_value(i)@,
                self.indices@.dom(),
            ) by {
                if i != before.subst.repr(key as int) {
                    assert(self.subst.node_value(i) == before.subst.node_value(i));
                }
            }
            assert(self.subst.node_value(before.subst.repr(key as int))@ == ty@);
            assert forall|id: u32| #[trigger]
                self.dom().contains(id) implies self.class_value(id) == (if before.subst.repr(
                before.indices@[id] as int,
            ) == before.subst.repr(key as int) {
                ty@
            } else {
                before.class_value(id)
            }) by {
                assert(before.indices@.contains_key(id));
                let k = before.indices@[id] as int;
                assert(self.subst.repr(k) == before.subst.repr(k));
                if before.subst.repr(k) != before.subst.repr(key as int) {
                    before.subst.lemma_repr(k);
                    assert(self.subst.node_value(before.subst.repr(k)) == before.subst.node_value(
                        before.subst.repr(k),
                    ));
                }
            }
            assert(old_ty@ == before.class_value(tyvar.id));
            assert forall|x: u32, y: u32|
                before.dom().contains(x) && before.dom().contains(y) implies (#[trigger] self.same_class(
                x,
                y,
            ) <==> before.same_class(x, y)) by {
                assert(self.subst.repr(before.indices@[x] as int) == before.subst.repr(
                    before.indices@[x] as int,
                ));
                assert(self.subst.repr(before.indices@[y] as int) == before.subst.repr(
                    before.indices@[y] as int,
                ));
            }
            if before.own_vars() {
            assert forall|id: u32| #[trigger]
                self.indices@.contains_key(id) implies (self.class_value(id) matches SType::Var(w)
                ==> (self.indices@.contains_key(w.id) && self.same_class(id, w.id))) by {
                assert(before.dom().contains(id));
                assert(before.indices@.contains_key(id));
                assert(self.dom().contains(id));
                if let SType::Var(w) = self.class_value(id) {
                    if before.subst.repr(before.indices@[id] as int) == before.subst.repr(
                        key as int,
                    ) {
                        assert(self.class_value(id) == ty@);
                    }
                    assert(before.subst.repr(before.indices@[id] as int) != before.subst.repr(
                        key as int,
                    ));
                    assert(before.class_value(id) == SType_::Var(w));
                    assert(before.own_vars());
                    assert(before.indices@.contains_key(w.id) && before.same_class(id, w.id));
                    assert(self.same_class(id, w.id));
                }
            }
            assert(self.own_vars());
            }
            assert(only_class_changed(*old(self), *self, *tyvar));
        }
        let ghost mid = *self;
        proof {
            if before.ground_bound() && vars_within(ty@, Set::empty()) {
                assert forall|id: u32| #[trigger] mid.dom().contains(id) implies (mid.class_value(
                    id,
                ) is Var || vars_within(mid.class_value(id), Set::empty())) by {
                    assert(before.dom().contains(id));
                }
                assert(mid.ground_bound());
            }
        }
        proof {
            lemma_occurs_found(tyvar.id, ty@, true, old(self).levels@, mid.levels@);
        }
        let r = self.unify_in(&old_ty, ty, fuel - 1);
        proof {
            if binds_ground(*old(self), *tyvar, ty@, fuel as int) {
                if old(self).class_value(tyvar.id) == SType_::Var(*tyvar) {
                    assert(binds_ground(mid, *tyvar, ty@, fuel - 1));
                    assert forall|x: u32| #[trigger]
                        old(self).dom().contains(x) && !old(self).same_class(
                            x,
                            tyvar.id,
                        ) implies self.class_value(x) == old(self).class_value(x) by {
                        assert(!mid.same_class(x, tyvar.id));
                    }
                }
            }
            if before.ground_bound() && vars_within(ty@, Set::empty()) && r is Ok {
                assert(mid.keeps_bindings(*self));
                assert forall|id: u32| #[trigger]
                    before.dom().contains(id) && !(before.class_value(id) is Var) implies self.class_value(
                    id,
                ) == before.class_value(id) by {
                    assert(mid.dom().contains(id));
                    if before.subst.repr(before.indices@[id] as int) == before.subst.repr(
                        key as int,
                    ) {
                        assert(before.class_value(id) == old_ty@);
                        self.law_ground_type_unchanged(old_ty@);
                        assert(old_ty@ == ty@);
                    }
                }
                assert(mid.class_value(tyvar.id) == ty@);
                self.lemma_applied_var(*tyvar);
            }
        }
        r
    }

    /// The current level of a known variable.
    fn level_of(&self, id: u32) -> (l: u32)
        requires
            self.wf(),
            self.dom().contains(id),
        ensures
            l == self.level(id),
    {
        match self.levels.get(&id) {
            Some(l) => *l,
            None => 0,
        }
    }

    /// Unifies `lhs` and `rhs`: makes the substitution take both to one
    /// type, or fails.
    pub fn unify(&mut self, lhs: &Type, rhs: &Type) -> (r: Result<(), Error>)
        requires
            old(self).wf(),
            vars_within(lhs@, old(self).dom()),
            vars_within(rhs@, old(self).dom()),
        ensures
            final(self).wf(),
            final(self).dom() == old(self).dom(),
            final(self).room() == old(self).room(),
            unify_first_step(*old(self), lhs@, rhs@, r, *final(self)),
            r is Ok ==> same_shape(lhs@, rhs@),
            vars_within(lhs@, Set::empty()) && lhs@ == rhs@ && height(lhs@) < u64::MAX ==> r is Ok
                && *final(self) == *old(self),
            lhs@ matches SType::Var(v) ==> (old(self).class_value(v.id) == lhs@ && !(rhs@ is Var)
                && vars_within(rhs@, Set::empty()) && height(rhs@) + 2 < u64::MAX ==> r is Ok
                && final(self).applied(lhs@) == rhs@),
            lhs@ matches SType::Var(v) ==> (old(self).class_value(v.id) == lhs@ && !(rhs@ is Var)
                && !occurs_walk(v.id, rhs@, true, old(self).levels()).0 && height(rhs@) + 2
                < u64::MAX ==> r is Ok && final(self).class_value(v.id) == rhs@
                && only_class_changed(*old(self), *final(self), v)),
            lhs@ matches SType::Var(v) ==> (!(rhs@ is Var) && id_occurs(v.id, rhs@) ==> r is Err),
            rhs@ matches SType::Var(v) ==> (!(lhs@ is Var) && id_occurs(v.id, lhs@) ==> r is Err),
            rhs@ matches SType::Var(v) ==> (old(self).class_value(v.id) == rhs@ && !(lhs@ is Var)
                && !occurs_walk(v.id, lhs@, true, old(self).levels()).0 && height(lhs@) + 2
                < u64::MAX ==> r is Ok && final(self).class_value(v.id) == lhs@
                && only_class_changed(*old(self), *final(self), v)),
            rhs@ matches SType::Var(v) ==> (old(self).class_value(v.id) == rhs@ && !(lhs@ is Var)
                && vars_within(lhs@, Set::empty()) && height(lhs@) + 2 < u64::MAX ==> r is Ok
                && final(self).applied(rhs@) == lhs@),
            vars_within(lhs@, Set::empty()) && vars_within(rhs@, Set::empty()) && r is Ok ==> lhs@
                == rhs@,
            lhs@ matches SType::Var(v) ==> (bound_meets_ground(*old(self), v, rhs@) && r is Ok
                ==> old(self).class_value(v.id) == rhs@),
            rhs@ matches SType::Var(v) ==> (bound_meets_ground(*old(self), v, lhs@) && r is Ok
                ==> old(self).class_value(v.id) == lhs@),
            old(self).ground_bound() && (vars_within(lhs@, Set::empty()) || vars_within(
                rhs@,
                Set::empty(),
            ) || (lhs@ is Var && rhs@ is Var)) ==> final(self).ground_bound() && (r is Ok ==> old(
                self,
            ).keeps_bindings(*final(self)) && final(self).applied(lhs@) == final(self).applied(rhs@)),
    {
        proof {
            if let SType::Var(v) = lhs@ {
                law_occurs_check(v.id, rhs@, true, self.levels@);
                if vars_within(rhs@, Set::empty()) {
                    lemma_occurs_ground(v.id, rhs@, true, self.levels@);
                }
            }
            if let SType::Var(v) = rhs@ {
                law_occurs_check(v.id, lhs@, true, self.levels@);
            }
            if let SType::Var(v) = rhs@ {
                if vars_within(lhs@, Set::empty()) {
                    lemma_occurs_ground(v.id, lhs@, true, self.levels@);
                }
            }
        }
        let r = self.unify_in(lhs, rhs, u64::MAX);
        proof {
            if vars_within(lhs@, Set::empty()) {
                self.law_ground_type_unchanged(lhs@);
            }
            if vars_within(rhs@, Set::empty()) {
                self.law_ground_type_unchanged(rhs@);
            }
        }
        proof {
            if let SType::Var(v) = lhs@ {
                if vars_within(rhs@, Set::empty()) && !(rhs@ is Var) {
                    self.lemma_ground(rhs@, Set::empty().insert(v.id));
                }
            }
            if let SType::Var(v) = rhs@ {
                if vars_within(lhs@, Set::empty()) && !(lhs@ is Var) {
                    self.lemma_ground(lhs@, Set::empty().insert(v.id));
                }
            }
        }
        r
    }
}

/// Variables `a` and `b` are the same.
fn same_tyvar(a: &TyVar, b: &TyVar) -> (r: bool)
    ensures
        r == (*a == *b),
{
    a.id == b.id && a.inner.level == b.inner.level
}

/// Whether `v` is in `s`.
fn contains_tyvar(s: &Vec<TyVar>, v: &TyVar) -> (r: bool)
    ensures
        r == s@.contains(*v),
{
    let mut i: usize = 0;
    while i < s.len()
        invariant
            i <= s@.len(),
            forall|j: int| 0 <= j < i ==> s@[j] != *v,
        decreases s@.len() - i,
    {
        if same_tyvar(&s[i], v) {
            return true;
        }
        i = i + 1;
    }
    false
}

/// Variable `v` of `ty` may be generalized at `level`: its current level in
/// `table` is at most `level`.
pub open spec fn generalizable(table: UnificationTable, ty: SType_, level: u32, v: TyVar) -> bool {
    occurs_in(v, ty) && table.level(v.id) <= level
}

impl types::Type<TyVar> {
    /// Adds to `res` the variables of this type whose current level in
    /// `table` is at most `curr_level`, each once, keeping what `res` held.
    #[verifier::loop_isolation(false)]
    fn free_tyvars(&self, curr_level: u32, table: &UnificationTable, res: &mut Vec<TyVar>)
        requires
            table.wf(),
            vars_within(self@, table.dom()),
            old(res)@.no_duplicates(),
        ensures
            final(res)@.no_duplicates(),
            old(res)@.len() <= final(res)@.len(),
            forall|i: int| 0 <= i < old(res)@.len() ==> #[trigger] final(res)@[i] == old(res)@[i],
            forall|v: TyVar|
                #[trigger] final(res)@.contains(v) <==> (old(res)@.contains(v) || generalizable(
                    *table,
                    self@,
                    curr_level,
                    v,
                )),
        decreases self,
    {
        match self {
            types::Type::Con(_, _) => {
                assert(forall|v: TyVar| !occurs_in(v, self@));
                assert(res@ =~= old(res)@);
            },
            types::Type::Var(v) => {
                if table.level_of(v.id) <= curr_level {
                    if !contains_tyvar(res, v) {
                        res.push(*v);
                        proof {
                            assert forall|u: TyVar| #[trigger] res@.contains(u) <==> (old(res)@.contains(
                                u,
                            ) || u == *v) by {
                                if u == *v {
                                    assert(res@[res@.len() - 1] == u);
                                }
                                if res@.contains(u) && u != *v {
                                    let x = choose|x: int| 0 <= x < res@.len() && res@[x] == u;
                                    assert(old(res)@[x] == u);
                                }
                                if old(res)@.contains(u) {
                                    let x = choose|x: int| 0 <= x < old(res)@.len() && old(res)@[x] == u;
                                    assert(res@[x] == u);
                                }
                            }
                        }
                    }
                }
                assert(forall|u: TyVar| occurs_in(u, self@) <==> u == *v);
            },
            types::Type::App(con, args) => {
                proof {
                    types::lemma_types_view(args@);
                    lemma_vars_within_seq(types_view(args@), table.dom());
                    lemma_occurs_in_seq_view(args@);
                    assert forall|j: int| 0 <= j < args@.len() implies vars_within(
                        #[trigger] args@[j]@,
                        table.dom(),
                    ) by {
                        assert(types_view(args@)[j] == args@[j]@);
                    }
                }
                let ghost r0 = res@;
                con.free_tyvars(curr_level, table, res);
                let mut i: usize = 0;
                while i < args.len()
                    invariant
                        table.wf(),
                        i <= args@.len(),
                        forall|j: int|
                            0 <= j < args@.len() ==> vars_within(
                                #[trigger] args@[j]@,
                                table.dom(),
                            ),
                        res@.no_duplicates(),
                        r0.len() <= res@.len(),
                        forall|x: int| 0 <= x < r0.len() ==> #[trigger] res@[x] == r0[x],
                        forall|v: TyVar|
                            #[trigger] res@.contains(v) <==> (r0.contains(v) || (table.level(v.id)
                                <= curr_level && (occurs_in(v, con@) || exists|j: int|
                                0 <= j < i && occurs_in(v, #[trigger] args@[j]@)))),
                    decreases args@.len() - i,
                {
                    proof {
                        assert(decreases_to!(*self => *args));
                        broadcast use vstd::std_specs::vec::axiom_vec_index_decreases;

                        assert(decreases_to!(*args => args@[i as int]));
                    }
                    let ghost r1 = res@;
                    args[i].free_tyvars(curr_level, table, res);
                    proof {
                        assert forall|v: TyVar| #[trigger] res@.contains(v) <==> (r0.contains(v) || (
                        table.level(v.id) <= curr_level && (occurs_in(v, con@) || exists|j: int|
                            0 <= j < i + 1 && occurs_in(v, #[trigger] args@[j]@)))) by {
                            if exists|j: int| 0 <= j < i + 1 && occurs_in(v, #[trigger] args@[j]@) {
                                let j = choose|j: int|
                                    0 <= j < i + 1 && occurs_in(v, #[trigger] args@[j]@);
                                if j < i {
                                    assert(exists|j: int| 0 <= j < i && occurs_in(v, #[trigger] args@[j]@));
                                }
                            }
                            if exists|j: int| 0 <= j < i && occurs_in(v, #[trigger] args@[j]@) {
                                let j = choose|j: int| 0 <= j < i && occurs_in(v, #[trigger] args@[j]@);
                                assert(0 <= j < i + 1 && occurs_in(v, args@[j]@));
                            }
                        }
                    }
                    i = i + 1;
                }
                proof {
                    assert forall|v: TyVar| #[trigger] res@.contains(v) <==> (old(res)@.contains(v)
                        || generalizable(*table, self@, curr_level, v)) by {
                        assert(occurs_in(v, self@) <==> (occurs_in(v, con@) || occurs_in_seq(
                            v,
                            types_view(args@),
                        )));
                    }
                }
            },
        }
    }

    /// The scheme that binds the variables of this type whose current level
    /// in `table` is at most `level`, each once.
    pub fn generalize(&self, level: u32, table: &UnificationTable) -> (r: types::ForAll<TyVar>)
        requires
            table.wf(),
            vars_within(self@, table.dom()),
        ensures
            r.spec_ty()@ == self@,
            r.spec_bound_vars().no_duplicates(),
            forall|v: TyVar|
                #[trigger] r.spec_bound_vars().contains(v) <==> generalizable(*table, self@, level, v),
    {
        let mut tyvars: Vec<TyVar> = Vec::new();
        self.free_tyvars(level, table, &mut tyvars);
        types::ForAll::new(tyvars, self.clone())
    }
}

/// A variable occurs in an application's arguments where it occurs in one
/// of them.
proof fn lemma_occurs_in_seq_view(args: Seq<types::Type<TyVar>>)
    ensures
        forall|v: TyVar|
            #[trigger] occurs_in_seq(v, types_view(args)) <==> exists|j: int|
                0 <= j < args.len() && occurs_in(v, #[trigger] args[j]@),
{
    types::lemma_types_view(args);
    assert forall|v: TyVar| #[trigger] occurs_in_seq(v, types_view(args)) <==> exists|j: int|
        0 <= j < args.len() && occurs_in(v, #[trigger] args[j]@) by {
        lemma_occurs_in_seq(v, types_view(args));
        if exists|j: int| 0 <= j < args.len() && occurs_in(v, #[trigger] args[j]@) {
            let j = choose|j: int| 0 <= j < args.len() && occurs_in(v, #[trigger] args[j]@);
            assert(types_view(args)[j] == args[j]@);
        }
        if occurs_in_seq(v, types_view(args)) {
            let j = choose|j: int| 0 <= j < types_view(args).len() && occurs_in(v, #[trigger] types_view(args)[j]);
            assert(types_view(args)[j] == args[j]@);
        }
    }
}

} // verus!
