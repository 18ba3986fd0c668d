//! What the outlives collector finds, as a set: every component that the
//! types reachable from the start contribute, whatever the visiting order;
//! and that keeping the callable interface (static identity) only adds
//! components.
use vstd::prelude::*;

use crate::outlives::{col_push, col_region, Collected, ComponentView, alias_collected, outlives_collected};
use crate::ty::{AliasTy, Const, GenericArg, PatternKind, RefinementDefinition, Region, Term, TyCtxt, TyId, TyKind};

verus! {

/// The component that a region gives: none for a bound one.
pub open spec fn region_set(r: Region) -> Set<ComponentView> {
    if r is Bound {
        Set::empty()
    } else {
        set![ComponentView::Region(r)]
    }
}

impl TyCtxt {
    /// The components that the types reachable from `t` contribute, with the
    /// signatures of callable types only where `p`.
    pub open spec fn allc_ty(&self, t: TyId, p: bool) -> Set<ComponentView>
        decreases t + 1, 0int, 0int, 0int, 0int,
    {
        if t >= self.types@.len() {
            Set::empty()
        } else {
            match self.types@[t as int] {
                TyKind::FnDef(_, a, l) => if self.esc_args(a, t as int, 0, None, 0) == Some(true) {
                    Set::empty()
                } else {
                    self.allc_args(a, t as int, p, true, 0) + if p {
                        self.allc_list(l, t as int, p, 0)
                    } else {
                        Set::empty()
                    }
                },
                TyKind::Closure(_, c) => if c.sig_as_fn_ptr < t && c.upvars < t {
                    self.allc_ty(c.upvars, p) + if p {
                        self.allc_ty(c.sig_as_fn_ptr, p)
                    } else {
                        Set::empty()
                    }
                } else {
                    Set::empty()
                },
                TyKind::CoroutineClosure(_, c) => if c.signature_parts < t && c.upvars < t && c.captures_by_ref < t {
                    self.allc_ty(c.upvars, p) + if p {
                        self.allc_ty(c.signature_parts, p) + self.allc_ty(c.captures_by_ref, p)
                    } else {
                        Set::empty()
                    }
                } else {
                    Set::empty()
                },
                TyKind::Coroutine(_, c) => if c.resume < t && c.yield_ty < t && c.return_ty < t && c.upvars < t {
                    self.allc_ty(c.upvars, p) + self.allc_ty(c.resume, p) + if p {
                        self.allc_ty(c.yield_ty, p) + self.allc_ty(c.return_ty, p)
                    } else {
                        Set::empty()
                    }
                } else {
                    Set::empty()
                },
                TyKind::Param(i) => set![ComponentView::Param(i)],
                TyKind::Placeholder(i) => set![ComponentView::Placeholder(i)],
                TyKind::Infer(i) => set![ComponentView::UnresolvedInferenceVariable(i)],
                TyKind::Alias(rigid, alias) => if self.esc_args(alias.args, t as int, 0, None, 0) == Some(true) {
                    set![
                        ComponentView::EscapingAlias(
                            self.col_alias_args((Seq::empty(), self.fresh_visited(), false), alias, t as int, p, 0).0,
                        ),
                    ]
                } else {
                    set![ComponentView::Alias(rigid, alias)]
                },
                TyKind::Adt(_, a) => self.allc_args(a, t as int, p, false, 0),
                TyKind::Array(ty, c) => if ty < t {
                    self.allc_ty(ty, p) + match c {
                        Const::Alias(b) => self.allc_args(b, t as int, p, false, 0),
                        _ => Set::empty(),
                    }
                } else {
                    Set::empty()
                },
                TyKind::Pat(ty, q) => if ty < t {
                    self.allc_ty(ty, p) + self.allc_pat(q, t as int, p)
                } else {
                    Set::empty()
                },
                TyKind::Slice(ty) | TyKind::RawPtr(ty, _) | TyKind::UnsafeBinder(ty) => if ty < t {
                    self.allc_ty(ty, p)
                } else {
                    Set::empty()
                },
                TyKind::Ref(r, ty, _) => if ty < t {
                    region_set(r) + self.allc_ty(ty, p)
                } else {
                    Set::empty()
                },
                TyKind::FnPtr(l) | TyKind::Tuple(l) => self.allc_list(l, t as int, p, 0),
                TyKind::Dynamic(d, r) => self.allc_dyn(d, t as int, p) + region_set(r),
                TyKind::Refined(ty, key) => if ty < t {
                    self.allc_ty(ty, p) + match key.0 {
                        RefinementDefinition::Pattern(q) => self.allc_pat(q, t as int, p),
                        RefinementDefinition::Constructor { .. } => Set::empty(),
                    }
                } else {
                    Set::empty()
                },
                _ => Set::empty(),
            }
        }
    }

    pub open spec fn allc_arg_at(&self, a: usize, bound: int, p: bool, skip: bool, k: int) -> Set<ComponentView>
        decreases bound, 1int, a, self.arg_lists@[a as int]@.len() - k, 1int,
    {
        if a >= self.arg_lists@.len() || k < 0 || k >= self.arg_lists@[a as int]@.len() {
            Set::empty()
        } else {
            match self.arg_lists@[a as int]@[k] {
                GenericArg::Lifetime(r) => if skip {
                    Set::empty()
                } else {
                    region_set(r)
                },
                GenericArg::Type(ty) => if ty < bound {
                    self.allc_ty(ty, p)
                } else {
                    Set::empty()
                },
                GenericArg::Const(Const::Alias(b)) => if b < a {
                    self.allc_args(b, bound, p, false, 0)
                } else {
                    Set::empty()
                },
                GenericArg::Const(_) => Set::empty(),
            }
        }
    }

    pub open spec fn allc_args(&self, a: usize, bound: int, p: bool, skip: bool, k: int) -> Set<ComponentView>
        decreases bound, 1int, a, self.arg_lists@[a as int]@.len() - k + 1, 0int,
    {
        if a >= self.arg_lists@.len() || k < 0 || k >= self.arg_lists@[a as int]@.len() {
            Set::empty()
        } else {
            self.allc_arg_at(a, bound, p, skip, k) + self.allc_args(a, bound, p, skip, k + 1)
        }
    }

    pub open spec fn allc_alias_args(&self, alias: AliasTy, bound: int, p: bool, k: int) -> Set<ComponentView>
        decreases bound, 1int, alias.args, self.arg_lists@[alias.args as int]@.len() - k + 1, 0int,
    {
        let a = alias.args;
        if a >= self.arg_lists@.len() || k < 0 || k >= self.arg_lists@[a as int]@.len() {
            Set::empty()
        } else if self.skips_arg(alias, k) {
            self.allc_alias_args(alias, bound, p, k + 1)
        } else {
            self.allc_arg_at(a, bound, p, false, k) + self.allc_alias_args(alias, bound, p, k + 1)
        }
    }

    pub open spec fn allc_list(&self, l: usize, bound: int, p: bool, k: int) -> Set<ComponentView>
        decreases bound, 1int, 0int, self.ty_lists@[l as int]@.len() - k, 0int,
    {
        if l >= self.ty_lists@.len() || k < 0 || k >= self.ty_lists@[l as int]@.len() {
            Set::empty()
        } else {
            let ty = self.ty_lists@[l as int]@[k];
            (if ty < bound {
                self.allc_ty(ty, p)
            } else {
                Set::empty()
            }) + self.allc_list(l, bound, p, k + 1)
        }
    }

    pub open spec fn allc_pat(&self, q: usize, bound: int, p: bool) -> Set<ComponentView>
        decreases bound, 2int, q, self.pat_alternatives(q) + 1, 0int,
    {
        if q >= self.patterns@.len() {
            Set::empty()
        } else {
            match self.patterns@[q as int] {
                PatternKind::Range { start, end } => (match start {
                    Const::Alias(b) => self.allc_args(b, bound, p, false, 0),
                    _ => Set::empty(),
                }) + (match end {
                    Const::Alias(b) => self.allc_args(b, bound, p, false, 0),
                    _ => Set::empty(),
                }),
                PatternKind::NotNull => Set::empty(),
                PatternKind::Or(_) => self.allc_pats(q, bound, p, 0),
            }
        }
    }

    pub open spec fn allc_pats(&self, q: usize, bound: int, p: bool, k: int) -> Set<ComponentView>
        decreases bound, 2int, q, self.pat_alternatives(q) - k, 0int,
    {
        if q >= self.patterns@.len() || k < 0 {
            Set::empty()
        } else {
            match self.patterns@[q as int] {
                PatternKind::Or(ps) => if k >= ps@.len() {
                    Set::empty()
                } else {
                    (if ps@[k] < q {
                        self.allc_pat(ps@[k], bound, p)
                    } else {
                        Set::empty()
                    }) + self.allc_pats(q, bound, p, k + 1)
                },
                _ => Set::empty(),
            }
        }
    }

    pub open spec fn allc_dyn(&self, d: usize, bound: int, p: bool) -> Set<ComponentView>
        decreases bound, 4int, 0int, 0int, 0int,
    {
        if d >= self.dyns@.len() {
            Set::empty()
        } else {
            (match self.dyns@[d as int].principal {
                Some(a) => self.allc_args(a, bound, p, false, 0),
                None => Set::empty(),
            }) + self.allc_projections(d, bound, p, 0)
        }
    }

    pub open spec fn allc_projections(&self, d: usize, bound: int, p: bool, k: int) -> Set<ComponentView>
        decreases bound, 3int, 0int, self.dyns@[d as int].projections@.len() - k, 0int,
    {
        if d >= self.dyns@.len() || k < 0 || k >= self.dyns@[d as int].projections@.len() {
            Set::empty()
        } else {
            let proj = self.dyns@[d as int].projections@[k];
            self.allc_args(proj.args, bound, p, false, 0) + (match proj.term {
                Term::Ty(ty) => if ty < bound {
                    self.allc_ty(ty, p)
                } else {
                    Set::empty()
                },
                Term::Const(Const::Alias(b)) => self.allc_args(b, bound, p, false, 0),
                Term::Const(_) => Set::empty(),
            }) + self.allc_projections(d, bound, p, k + 1)
        }
    }
}

/// `r` came from `s` by collecting: it keeps what `s` found and visited,
/// newly visits only types below `lim`, and what it found besides is exactly
/// covered by `a`, all of which it holds.
pub open spec fn grew(s: Collected, r: Collected, lim: int, a: Set<ComponentView>) -> bool {
    &&& r.1.len() == s.1.len()
    &&& forall|c: ComponentView| #[trigger] s.0.contains(c) ==> r.0.contains(c)
    &&& forall|u: int| 0 <= u < s.1.len() && #[trigger] s.1[u] ==> r.1[u]
    &&& forall|u: int| 0 <= u < r.1.len() && #[trigger] r.1[u] && !s.1[u] ==> u < lim
    &&& forall|c: ComponentView| #[trigger] r.0.contains(c) ==> s.0.contains(c) || a.contains(c)
    &&& forall|c: ComponentView| #[trigger] a.contains(c) ==> r.0.contains(c)
}

pub proof fn lemma_grew_refl(s: Collected, lim: int)
    ensures
        grew(s, s, lim, Set::empty()),
{
}

pub proof fn lemma_grew_trans(s: Collected, r1: Collected, r2: Collected, lim: int, a: Set<ComponentView>, b: Set<ComponentView>)
    requires
        grew(s, r1, lim, a),
        grew(r1, r2, lim, b),
    ensures
        grew(s, r2, lim, a + b),
{
    assert forall|u: int| 0 <= u < r2.1.len() && #[trigger] r2.1[u] && !s.1[u] implies u < lim by {
        if !r1.1[u] {
        } else {
        }
    }
}

pub proof fn lemma_grew_weaken(s: Collected, r: Collected, l1: int, l2: int, a: Set<ComponentView>)
    requires
        grew(s, r, l1, a),
        l1 <= l2,
    ensures
        grew(s, r, l2, a),
{
}

pub proof fn lemma_grew_same(s: Collected, r: Collected, lim: int, a: Set<ComponentView>, b: Set<ComponentView>)
    requires
        grew(s, r, lim, a),
        a =~= b,
    ensures
        grew(s, r, lim, b),
{
}

impl TyCtxt {
    /// Every type below `lim` that `s` has visited has all it contributes
    /// among what `s` found.
    pub open spec fn covered(&self, s: Collected, lim: int, p: bool) -> bool {
        &&& s.1.len() == self.types@.len()
        &&& forall|u: TyId, c: ComponentView|
            u < lim && u < s.1.len() && #[trigger] s.1[u as int] && #[trigger] self.allc_ty(u, p).contains(c)
                ==> s.0.contains(c)
    }

    pub proof fn lemma_covered_push(&self, s: Collected, c: ComponentView, lim: int, p: bool)
        requires
            self.covered(s, lim, p),
        ensures
            grew(s, col_push(s, c), lim, set![c]),
            self.covered(col_push(s, c), lim, p),
    {
        let r = col_push(s, c);
        assert(r.0[s.0.len() as int] == c);
        assert forall|x: ComponentView| #[trigger] s.0.contains(x) implies r.0.contains(x) by {
            let i = choose|i: int| 0 <= i < s.0.len() && s.0[i] == x;
            assert(r.0[i] == x);
        }
        assert forall|x: ComponentView| #[trigger] r.0.contains(x) implies s.0.contains(x) || set![c].contains(x) by {
            let i = choose|i: int| 0 <= i < r.0.len() && r.0[i] == x;
            if i < s.0.len() {
                assert(s.0[i] == x);
            }
        }
    }

    pub proof fn lemma_covered_region(&self, s: Collected, r: Region, lim: int, p: bool)
        requires
            self.covered(s, lim, p),
        ensures
            grew(s, col_region(s, r), lim, region_set(r)),
            self.covered(col_region(s, r), lim, p),
    {
        if r is Bound {
            lemma_grew_refl(s, lim);
            assert(region_set(r) =~= Set::empty());
        } else {
            self.lemma_covered_push(s, ComponentView::Region(r), lim, p);
        }
    }

    /// Marking `t` visited keeps every other visited type below `t` covered.
    pub proof fn lemma_covered_mark(&self, s: Collected, t: TyId, lim: int, p: bool)
        requires
            self.covered(s, lim, p),
            t < lim,
            t < self.types@.len(),
        ensures
            self.covered((s.0, s.1.update(t as int, true), s.2), t as int, p),
    {
        let s1 = (s.0, s.1.update(t as int, true), s.2);
        assert forall|u: TyId, c: ComponentView|
            u < t && u < s1.1.len() && #[trigger] s1.1[u as int] && #[trigger] self.allc_ty(u, p).contains(c)
                implies s1.0.contains(c) by {
            assert(s.1[u as int]);
        }
    }

    /// After the types below `t` that visiting `t` met are done, `t` is
    /// covered too, and so is every type below `lim` that was visited before.
    pub proof fn lemma_covered_finish(&self, s: Collected, r: Collected, t: TyId, lim: int, p: bool)
        requires
            self.covered(s, lim, p),
            t < lim,
            t < self.types@.len(),
            !s.1[t as int],
            grew((s.0, s.1.update(t as int, true), s.2), r, t as int, self.allc_ty(t, p)),
            self.covered(r, t as int, p),
        ensures
            grew(s, r, t + 1, self.allc_ty(t, p)),
            self.covered(r, lim, p),
    {
        let s1 = (s.0, s.1.update(t as int, true), s.2);
        assert(s1.0 == s.0);
        assert(r.1.len() == s.1.len());
        assert forall|c: ComponentView| #[trigger] s.0.contains(c) implies r.0.contains(c) by {
            assert(s1.0.contains(c));
        }
        assert forall|c: ComponentView| #[trigger] r.0.contains(c) implies s.0.contains(c) || self.allc_ty(t, p).contains(c) by {
            assert(s1.0.contains(c) || self.allc_ty(t, p).contains(c));
        }
        assert forall|u: int| 0 <= u < s.1.len() && #[trigger] s.1[u] implies r.1[u] by {
            assert(s1.1[u]);
        }
        assert forall|u: int| 0 <= u < r.1.len() && #[trigger] r.1[u] && !s.1[u] implies u < t + 1 by {
            if u != t as int {
                assert(!s1.1[u]);
            }
        }
        assert forall|u: TyId, c: ComponentView|
            u < lim && u < r.1.len() && #[trigger] r.1[u as int] && #[trigger] self.allc_ty(u, p).contains(c)
                implies r.0.contains(c) by {
            if u == t {
                assert(self.allc_ty(t, p).contains(c));
            } else if u < t {
            } else {
                if !s1.1[u as int] {
                    assert(u < t);
                }
                assert(s1.1[u as int]);
                assert(s.1[u as int]);
                assert(s.0.contains(c));
                assert(s1.0.contains(c));
            }
        }
    }
}

pub proof fn lemma_grew_keep(s: Collected, r: Collected, lim: int, a: Set<ComponentView>)
    requires
        r.0 == s.0,
        r.1 == s.1,
        forall|c: ComponentView| #[trigger] a.contains(c) ==> s.0.contains(c),
    ensures
        grew(s, r, lim, a),
{
}

impl TyCtxt {
    pub proof fn lemma_region_step(&self, base: Collected, x: Collected, r: Region, lim: int, p: bool, a: Set<ComponentView>)
        requires
            self.covered(x, lim, p),
            grew(base, x, lim, a),
        ensures
            grew(base, col_region(x, r), lim, a + region_set(r)),
            self.covered(col_region(x, r), lim, p),
    {
        self.lemma_covered_region(x, r, lim, p);
        lemma_grew_trans(base, x, col_region(x, r), lim, a, region_set(r));
    }

    pub proof fn lemma_push_step(&self, base: Collected, x: Collected, c: ComponentView, lim: int, p: bool, a: Set<ComponentView>)
        requires
            self.covered(x, lim, p),
            grew(base, x, lim, a),
        ensures
            grew(base, col_push(x, c), lim, a + set![c]),
            self.covered(col_push(x, c), lim, p),
    {
        self.lemma_covered_push(x, c, lim, p);
        lemma_grew_trans(base, x, col_push(x, c), lim, a, set![c]);
    }

    pub proof fn lemma_ty_step(&self, base: Collected, x: Collected, child: TyId, p: bool, lim: int, a: Set<ComponentView>)
        requires
            self.covered(x, lim, p),
            child < lim,
            grew(base, x, lim, a),
        ensures
            grew(base, self.col_ty(x, child, p), lim, a + self.allc_ty(child, p)),
            self.covered(self.col_ty(x, child, p), lim, p),
        decreases child + 1, 0int, 0int, 0int, 1int,
    {
        let y = self.col_ty(x, child, p);
        self.lemma_col_ty(x, child, p, lim);
        lemma_grew_weaken(x, y, child + 1, lim, self.allc_ty(child, p));
        lemma_grew_trans(base, x, y, lim, a, self.allc_ty(child, p));
    }

    pub proof fn lemma_args_step(
        &self, base: Collected, x: Collected, b: usize, bound: int, p: bool, skip: bool, k: int, a: Set<ComponentView>,
    )
        requires
            self.covered(x, bound, p),
            grew(base, x, bound, a),
        ensures
            grew(base, self.col_args(x, b, bound, p, skip, k), bound, a + self.allc_args(b, bound, p, skip, k)),
            self.covered(self.col_args(x, b, bound, p, skip, k), bound, p),
        decreases bound, 1int, b, self.arg_lists@[b as int]@.len() - k + 1, 1int,
    {
        self.lemma_col_args(x, b, bound, p, skip, k);
        lemma_grew_trans(base, x, self.col_args(x, b, bound, p, skip, k), bound, a, self.allc_args(b, bound, p, skip, k));
    }

    pub proof fn lemma_list_step(&self, base: Collected, x: Collected, l: usize, bound: int, p: bool, k: int, a: Set<ComponentView>)
        requires
            self.covered(x, bound, p),
            grew(base, x, bound, a),
        ensures
            grew(base, self.col_list(x, l, bound, p, k), bound, a + self.allc_list(l, bound, p, k)),
            self.covered(self.col_list(x, l, bound, p, k), bound, p),
        decreases bound, 1int, 0int, self.ty_lists@[l as int]@.len() - k, 1int,
    {
        self.lemma_col_list(x, l, bound, p, k);
        lemma_grew_trans(base, x, self.col_list(x, l, bound, p, k), bound, a, self.allc_list(l, bound, p, k));
    }

    pub proof fn lemma_pat_step(&self, base: Collected, x: Collected, q: usize, bound: int, p: bool, a: Set<ComponentView>)
        requires
            self.covered(x, bound, p),
            grew(base, x, bound, a),
        ensures
            grew(base, self.col_pat(x, q, bound, p), bound, a + self.allc_pat(q, bound, p)),
            self.covered(self.col_pat(x, q, bound, p), bound, p),
        decreases bound, 2int, q, self.pat_alternatives(q) + 1, 1int,
    {
        self.lemma_col_pat(x, q, bound, p);
        lemma_grew_trans(base, x, self.col_pat(x, q, bound, p), bound, a, self.allc_pat(q, bound, p));
    }

    pub proof fn lemma_dyn_step(&self, base: Collected, x: Collected, d: usize, bound: int, p: bool, a: Set<ComponentView>)
        requires
            self.covered(x, bound, p),
            grew(base, x, bound, a),
        ensures
            grew(base, self.col_dyn(x, d, bound, p), bound, a + self.allc_dyn(d, bound, p)),
            self.covered(self.col_dyn(x, d, bound, p), bound, p),
        decreases bound, 4int, 0int, 0int, 1int,
    {
        self.lemma_col_dyn(x, d, bound, p);
        lemma_grew_trans(base, x, self.col_dyn(x, d, bound, p), bound, a, self.allc_dyn(d, bound, p));
    }

    /// What visiting `t` from `s` finds is what the types reachable from it
    /// contribute, together with what `s` had.
    pub proof fn lemma_col_ty(&self, s: Collected, t: TyId, p: bool, lim: int)
        requires
            self.covered(s, lim, p),
            t < lim,
        ensures
            grew(s, self.col_ty(s, t, p), t + 1, self.allc_ty(t, p)),
            self.covered(self.col_ty(s, t, p), lim, p),
        decreases t + 1, 0int, 0int, 0int, 0int,
    {
        let r = self.col_ty(s, t, p);
        let a = self.allc_ty(t, p);
        if t >= self.types@.len() {
            lemma_grew_keep(s, r, t + 1, a);
        } else if s.1[t as int] {
            assert forall|c: ComponentView| #[trigger] a.contains(c) implies s.0.contains(c) by {
                assert(self.allc_ty(t, p).contains(c));
            }
            lemma_grew_keep(s, r, t + 1, a);
        } else {
            let s1 = (s.0, s.1.update(t as int, true), s.2);
            let ti = t as int;
            self.lemma_covered_mark(s, t, lim, p);
            lemma_grew_refl(s1, ti);
            let e = Set::<ComponentView>::empty();
            match self.types@[t as int] {
                TyKind::FnDef(_, args, l) => if self.esc_args(args, ti, 0, None, 0) == Some(true) {
                    lemma_grew_keep(s1, r, ti, a);
                } else {
                    self.lemma_args_step(s1, s1, args, ti, p, true, 0, e);
                    let s2 = self.col_args(s1, args, ti, p, true, 0);
                    if p {
                        self.lemma_list_step(s1, s2, l, ti, p, 0, e + self.allc_args(args, ti, p, true, 0));
                        lemma_grew_same(s1, r, ti, e + self.allc_args(args, ti, p, true, 0) + self.allc_list(l, ti, p, 0), a);
                    } else {
                        lemma_grew_same(s1, r, ti, e + self.allc_args(args, ti, p, true, 0), a);
                    }
                },
                TyKind::Closure(_, c) => if c.sig_as_fn_ptr < t && c.upvars < t {
                    self.lemma_ty_step(s1, s1, c.upvars, p, ti, e);
                    let s2 = self.col_ty(s1, c.upvars, p);
                    if p {
                        self.lemma_ty_step(s1, s2, c.sig_as_fn_ptr, p, ti, e + self.allc_ty(c.upvars, p));
                        lemma_grew_same(s1, r, ti, e + self.allc_ty(c.upvars, p) + self.allc_ty(c.sig_as_fn_ptr, p), a);
                    } else {
                        lemma_grew_same(s1, r, ti, e + self.allc_ty(c.upvars, p), a);
                    }
                } else {
                    lemma_grew_same(s1, r, ti, e, a);
                },
                TyKind::CoroutineClosure(_, c) => if c.signature_parts < t && c.upvars < t && c.captures_by_ref < t {
                    self.lemma_ty_step(s1, s1, c.upvars, p, ti, e);
                    let s2 = self.col_ty(s1, c.upvars, p);
                    let a2 = e + self.allc_ty(c.upvars, p);
                    if p {
                        self.lemma_ty_step(s1, s2, c.signature_parts, p, ti, a2);
                        let s3 = self.col_ty(s2, c.signature_parts, p);
                        let a3 = a2 + self.allc_ty(c.signature_parts, p);
                        self.lemma_ty_step(s1, s3, c.captures_by_ref, p, ti, a3);
                        lemma_grew_same(s1, r, ti, a3 + self.allc_ty(c.captures_by_ref, p), a);
                    } else {
                        lemma_grew_same(s1, r, ti, a2, a);
                    }
                } else {
                    lemma_grew_same(s1, r, ti, e, a);
                },
                TyKind::Coroutine(_, c) => if c.resume < t && c.yield_ty < t && c.return_ty < t && c.upvars < t {
                    self.lemma_ty_step(s1, s1, c.upvars, p, ti, e);
                    let s2 = self.col_ty(s1, c.upvars, p);
                    let a2 = e + self.allc_ty(c.upvars, p);
                    self.lemma_ty_step(s1, s2, c.resume, p, ti, a2);
                    let s3 = self.col_ty(s2, c.resume, p);
                    let a3 = a2 + self.allc_ty(c.resume, p);
                    if p {
                        self.lemma_ty_step(s1, s3, c.yield_ty, p, ti, a3);
                        let s4 = self.col_ty(s3, c.yield_ty, p);
                        let a4 = a3 + self.allc_ty(c.yield_ty, p);
                        self.lemma_ty_step(s1, s4, c.return_ty, p, ti, a4);
                        lemma_grew_same(s1, r, ti, a4 + self.allc_ty(c.return_ty, p), a);
                    } else {
                        lemma_grew_same(s1, r, ti, a3, a);
                    }
                } else {
                    lemma_grew_same(s1, r, ti, e, a);
                },
                TyKind::CoroutineWitness(_) => {
                    lemma_grew_same(s1, r, ti, e, a);
                },
                TyKind::Param(i) => {
                    self.lemma_push_step(s1, s1, ComponentView::Param(i), ti, p, e);
                    lemma_grew_same(s1, r, ti, e + set![ComponentView::Param(i)], a);
                },
                TyKind::Placeholder(i) => {
                    self.lemma_push_step(s1, s1, ComponentView::Placeholder(i), ti, p, e);
                    lemma_grew_same(s1, r, ti, e + set![ComponentView::Placeholder(i)], a);
                },
                TyKind::Infer(i) => {
                    self.lemma_push_step(s1, s1, ComponentView::UnresolvedInferenceVariable(i), ti, p, e);
                    lemma_grew_same(s1, r, ti, e + set![ComponentView::UnresolvedInferenceVariable(i)], a);
                },
                TyKind::Alias(rigid, alias) => if self.esc_args(alias.args, ti, 0, None, 0) == Some(true) {
                    let inner = self.col_alias_args((Seq::empty(), self.fresh_visited(), false), alias, ti, p, 0);
                    let c = ComponentView::EscapingAlias(inner.0);
                    self.lemma_push_step(s1, s1, c, ti, p, e);
                    assert(r.0 == col_push(s1, c).0 && r.1 == col_push(s1, c).1);
                    lemma_grew_same(s1, col_push(s1, c), ti, e + set![c], a);
                } else {
                    let c = ComponentView::Alias(rigid, alias);
                    self.lemma_push_step(s1, s1, c, ti, p, e);
                    lemma_grew_same(s1, r, ti, e + set![c], a);
                },
                TyKind::Adt(_, args) => {
                    self.lemma_args_step(s1, s1, args, ti, p, false, 0, e);
                    lemma_grew_same(s1, r, ti, e + self.allc_args(args, ti, p, false, 0), a);
                },
                TyKind::Array(ty, c) => if ty < t {
                    self.lemma_ty_step(s1, s1, ty, p, ti, e);
                    let s2 = self.col_ty(s1, ty, p);
                    let a2 = e + self.allc_ty(ty, p);
                    match c {
                        Const::Alias(b) => {
                            self.lemma_args_step(s1, s2, b, ti, p, false, 0, a2);
                            lemma_grew_same(s1, r, ti, a2 + self.allc_args(b, ti, p, false, 0), a);
                        },
                        _ => {
                            lemma_grew_same(s1, r, ti, a2, a);
                        },
                    }
                } else {
                    lemma_grew_same(s1, r, ti, e, a);
                },
                TyKind::Pat(ty, q) => if ty < t {
                    self.lemma_ty_step(s1, s1, ty, p, ti, e);
                    let s2 = self.col_ty(s1, ty, p);
                    let a2 = e + self.allc_ty(ty, p);
                    self.lemma_pat_step(s1, s2, q, ti, p, a2);
                    lemma_grew_same(s1, r, ti, a2 + self.allc_pat(q, ti, p), a);
                } else {
                    lemma_grew_same(s1, r, ti, e, a);
                },
                TyKind::Slice(ty) | TyKind::RawPtr(ty, _) | TyKind::UnsafeBinder(ty) => if ty < t {
                    self.lemma_ty_step(s1, s1, ty, p, ti, e);
                    lemma_grew_same(s1, r, ti, e + self.allc_ty(ty, p), a);
                } else {
                    lemma_grew_same(s1, r, ti, e, a);
                },
                TyKind::Ref(rg, ty, _) => if ty < t {
                    self.lemma_region_step(s1, s1, rg, ti, p, e);
                    let s2 = col_region(s1, rg);
                    let a2 = e + region_set(rg);
                    self.lemma_ty_step(s1, s2, ty, p, ti, a2);
                    lemma_grew_same(s1, r, ti, a2 + self.allc_ty(ty, p), a);
                } else {
                    lemma_grew_same(s1, r, ti, e, a);
                },
                TyKind::FnPtr(l) | TyKind::Tuple(l) => {
                    self.lemma_list_step(s1, s1, l, ti, p, 0, e);
                    lemma_grew_same(s1, r, ti, e + self.allc_list(l, ti, p, 0), a);
                },
                TyKind::Dynamic(d, rg) => {
                    self.lemma_dyn_step(s1, s1, d, ti, p, e);
                    let s2 = self.col_dyn(s1, d, ti, p);
                    let a2 = e + self.allc_dyn(d, ti, p);
                    self.lemma_region_step(s1, s2, rg, ti, p, a2);
                    lemma_grew_same(s1, r, ti, a2 + region_set(rg), a);
                },
                TyKind::Refined(ty, key) => if ty < t {
                    self.lemma_ty_step(s1, s1, ty, p, ti, e);
                    let s2 = self.col_ty(s1, ty, p);
                    let a2 = e + self.allc_ty(ty, p);
                    match key.0 {
                        RefinementDefinition::Pattern(q) => {
                            self.lemma_pat_step(s1, s2, q, ti, p, a2);
                            lemma_grew_same(s1, r, ti, a2 + self.allc_pat(q, ti, p), a);
                        },
                        RefinementDefinition::Constructor { .. } => {
                            lemma_grew_same(s1, r, ti, a2, a);
                        },
                    }
                } else {
                    lemma_grew_same(s1, r, ti, e, a);
                },
                _ => {
                    lemma_grew_same(s1, r, ti, e, a);
                },
            }
            self.lemma_covered_finish(s, r, t, lim, p);
        }
    }
}

impl TyCtxt {
    pub proof fn lemma_col_arg_at(&self, s: Collected, a: usize, bound: int, p: bool, skip: bool, k: int)
        requires
            self.covered(s, bound, p),
        ensures
            grew(s, self.col_arg_at(s, a, bound, p, skip, k), bound, self.allc_arg_at(a, bound, p, skip, k)),
            self.covered(self.col_arg_at(s, a, bound, p, skip, k), bound, p),
        decreases bound, 1int, a, self.arg_lists@[a as int]@.len() - k, 1int,
    {
        let r = self.col_arg_at(s, a, bound, p, skip, k);
        let all = self.allc_arg_at(a, bound, p, skip, k);
        let e = Set::<ComponentView>::empty();
        lemma_grew_refl(s, bound);
        if a >= self.arg_lists@.len() || k < 0 || k >= self.arg_lists@[a as int]@.len() {
            lemma_grew_same(s, r, bound, e, all);
        } else {
            match self.arg_lists@[a as int]@[k] {
                GenericArg::Lifetime(rg) => if skip {
                    lemma_grew_same(s, r, bound, e, all);
                } else {
                    self.lemma_region_step(s, s, rg, bound, p, e);
                    lemma_grew_same(s, r, bound, e + region_set(rg), all);
                },
                GenericArg::Type(ty) => if ty < bound {
                    self.lemma_ty_step(s, s, ty, p, bound, e);
                    lemma_grew_same(s, r, bound, e + self.allc_ty(ty, p), all);
                } else {
                    lemma_grew_same(s, r, bound, e, all);
                },
                GenericArg::Const(Const::Alias(b)) => if b < a {
                    self.lemma_args_step(s, s, b, bound, p, false, 0, e);
                    lemma_grew_same(s, r, bound, e + self.allc_args(b, bound, p, false, 0), all);
                } else {
                    lemma_grew_same(s, r, bound, e, all);
                },
                GenericArg::Const(_) => {
                    lemma_grew_same(s, r, bound, e, all);
                },
            }
        }
    }

    pub proof fn lemma_col_args(&self, s: Collected, a: usize, bound: int, p: bool, skip: bool, k: int)
        requires
            self.covered(s, bound, p),
        ensures
            grew(s, self.col_args(s, a, bound, p, skip, k), bound, self.allc_args(a, bound, p, skip, k)),
            self.covered(self.col_args(s, a, bound, p, skip, k), bound, p),
        decreases bound, 1int, a, self.arg_lists@[a as int]@.len() - k + 1, 0int,
    {
        let r = self.col_args(s, a, bound, p, skip, k);
        let all = self.allc_args(a, bound, p, skip, k);
        let e = Set::<ComponentView>::empty();
        lemma_grew_refl(s, bound);
        if a >= self.arg_lists@.len() || k < 0 || k >= self.arg_lists@[a as int]@.len() {
            lemma_grew_same(s, r, bound, e, all);
        } else {
            self.lemma_col_arg_at(s, a, bound, p, skip, k);
            let s2 = self.col_arg_at(s, a, bound, p, skip, k);
            let a2 = self.allc_arg_at(a, bound, p, skip, k);
            self.lemma_args_step(s, s2, a, bound, p, skip, k + 1, a2);
            lemma_grew_same(s, r, bound, a2 + self.allc_args(a, bound, p, skip, k + 1), all);
        }
    }

    pub proof fn lemma_col_alias_args(&self, s: Collected, alias: AliasTy, bound: int, p: bool, k: int)
        requires
            self.covered(s, bound, p),
        ensures
            grew(s, self.col_alias_args(s, alias, bound, p, k), bound, self.allc_alias_args(alias, bound, p, k)),
            self.covered(self.col_alias_args(s, alias, bound, p, k), bound, p),
        decreases bound, 1int, alias.args, self.arg_lists@[alias.args as int]@.len() - k + 1, 0int,
    {
        let a = alias.args;
        let r = self.col_alias_args(s, alias, bound, p, k);
        let all = self.allc_alias_args(alias, bound, p, k);
        let e = Set::<ComponentView>::empty();
        lemma_grew_refl(s, bound);
        if a >= self.arg_lists@.len() || k < 0 || k >= self.arg_lists@[a as int]@.len() {
            lemma_grew_same(s, r, bound, e, all);
        } else if self.skips_arg(alias, k) {
            self.lemma_col_alias_args(s, alias, bound, p, k + 1);
        } else {
            self.lemma_col_arg_at(s, a, bound, p, false, k);
            let s2 = self.col_arg_at(s, a, bound, p, false, k);
            let a2 = self.allc_arg_at(a, bound, p, false, k);
            self.lemma_col_alias_args(s2, alias, bound, p, k + 1);
            lemma_grew_trans(s, s2, r, bound, a2, self.allc_alias_args(alias, bound, p, k + 1));
        }
    }

    pub proof fn lemma_col_list(&self, s: Collected, l: usize, bound: int, p: bool, k: int)
        requires
            self.covered(s, bound, p),
        ensures
            grew(s, self.col_list(s, l, bound, p, k), bound, self.allc_list(l, bound, p, k)),
            self.covered(self.col_list(s, l, bound, p, k), bound, p),
        decreases bound, 1int, 0int, self.ty_lists@[l as int]@.len() - k, 0int,
    {
        let r = self.col_list(s, l, bound, p, k);
        let all = self.allc_list(l, bound, p, k);
        let e = Set::<ComponentView>::empty();
        lemma_grew_refl(s, bound);
        if l >= self.ty_lists@.len() || k < 0 || k >= self.ty_lists@[l as int]@.len() {
            lemma_grew_same(s, r, bound, e, all);
        } else {
            let ty = self.ty_lists@[l as int]@[k];
            if ty < bound {
                self.lemma_ty_step(s, s, ty, p, bound, e);
                let s2 = self.col_ty(s, ty, p);
                let a2 = e + self.allc_ty(ty, p);
                self.lemma_col_list(s2, l, bound, p, k + 1);
                lemma_grew_trans(s, s2, r, bound, a2, self.allc_list(l, bound, p, k + 1));
                lemma_grew_same(s, r, bound, a2 + self.allc_list(l, bound, p, k + 1), all);
            } else {
                self.lemma_col_list(s, l, bound, p, k + 1);
                lemma_grew_same(s, r, bound, self.allc_list(l, bound, p, k + 1), all);
            }
        }
    }

    pub proof fn lemma_col_pat(&self, s: Collected, q: usize, bound: int, p: bool)
        requires
            self.covered(s, bound, p),
        ensures
            grew(s, self.col_pat(s, q, bound, p), bound, self.allc_pat(q, bound, p)),
            self.covered(self.col_pat(s, q, bound, p), bound, p),
        decreases bound, 2int, q, self.pat_alternatives(q) + 1, 0int,
    {
        let r = self.col_pat(s, q, bound, p);
        let all = self.allc_pat(q, bound, p);
        let e = Set::<ComponentView>::empty();
        lemma_grew_refl(s, bound);
        if q >= self.patterns@.len() {
            lemma_grew_same(s, r, bound, e, all);
        } else {
            match self.patterns@[q as int] {
                PatternKind::Range { start, end } => {
                    let (s2, a2) = match start {
                        Const::Alias(b) => {
                            self.lemma_args_step(s, s, b, bound, p, false, 0, e);
                            (self.col_args(s, b, bound, p, false, 0), e + self.allc_args(b, bound, p, false, 0))
                        },
                        _ => (s, e),
                    };
                    match end {
                        Const::Alias(b) => {
                            self.lemma_args_step(s, s2, b, bound, p, false, 0, a2);
                            lemma_grew_same(s, r, bound, a2 + self.allc_args(b, bound, p, false, 0), all);
                        },
                        _ => {
                            lemma_grew_same(s, r, bound, a2, all);
                        },
                    }
                },
                PatternKind::NotNull => {
                    lemma_grew_same(s, r, bound, e, all);
                },
                PatternKind::Or(_) => {
                    self.lemma_col_pats(s, q, bound, p, 0);
                },
            }
        }
    }

    pub proof fn lemma_col_pats(&self, s: Collected, q: usize, bound: int, p: bool, k: int)
        requires
            self.covered(s, bound, p),
        ensures
            grew(s, self.col_pats(s, q, bound, p, k), bound, self.allc_pats(q, bound, p, k)),
            self.covered(self.col_pats(s, q, bound, p, k), bound, p),
        decreases bound, 2int, q, self.pat_alternatives(q) - k, 0int,
    {
        let r = self.col_pats(s, q, bound, p, k);
        let all = self.allc_pats(q, bound, p, k);
        let e = Set::<ComponentView>::empty();
        lemma_grew_refl(s, bound);
        if q >= self.patterns@.len() || k < 0 {
            lemma_grew_same(s, r, bound, e, all);
        } else {
            match self.patterns@[q as int] {
                PatternKind::Or(ps) => if k >= ps@.len() {
                    lemma_grew_same(s, r, bound, e, all);
                } else {
                    if ps@[k] < q {
                        self.lemma_pat_step(s, s, ps@[k], bound, p, e);
                        let s2 = self.col_pat(s, ps@[k], bound, p);
                        let a2 = e + self.allc_pat(ps@[k], bound, p);
                        self.lemma_col_pats(s2, q, bound, p, k + 1);
                        lemma_grew_trans(s, s2, r, bound, a2, self.allc_pats(q, bound, p, k + 1));
                        lemma_grew_same(s, r, bound, a2 + self.allc_pats(q, bound, p, k + 1), all);
                    } else {
                        self.lemma_col_pats(s, q, bound, p, k + 1);
                        lemma_grew_same(s, r, bound, self.allc_pats(q, bound, p, k + 1), all);
                    }
                },
                _ => {
                    lemma_grew_same(s, r, bound, e, all);
                },
            }
        }
    }

    pub proof fn lemma_col_dyn(&self, s: Collected, d: usize, bound: int, p: bool)
        requires
            self.covered(s, bound, p),
        ensures
            grew(s, self.col_dyn(s, d, bound, p), bound, self.allc_dyn(d, bound, p)),
            self.covered(self.col_dyn(s, d, bound, p), bound, p),
        decreases bound, 4int, 0int, 0int, 0int,
    {
        let r = self.col_dyn(s, d, bound, p);
        let all = self.allc_dyn(d, bound, p);
        let e = Set::<ComponentView>::empty();
        lemma_grew_refl(s, bound);
        if d >= self.dyns@.len() {
            lemma_grew_same(s, r, bound, e, all);
        } else {
            let (s2, a2) = match self.dyns@[d as int].principal {
                Some(a) => {
                    self.lemma_args_step(s, s, a, bound, p, false, 0, e);
                    (self.col_args(s, a, bound, p, false, 0), e + self.allc_args(a, bound, p, false, 0))
                },
                None => (s, e),
            };
            self.lemma_col_projections(s2, d, bound, p, 0);
            lemma_grew_trans(s, s2, r, bound, a2, self.allc_projections(d, bound, p, 0));
            lemma_grew_same(s, r, bound, a2 + self.allc_projections(d, bound, p, 0), all);
        }
    }

    pub proof fn lemma_col_projections(&self, s: Collected, d: usize, bound: int, p: bool, k: int)
        requires
            self.covered(s, bound, p),
        ensures
            grew(s, self.col_projections(s, d, bound, p, k), bound, self.allc_projections(d, bound, p, k)),
            self.covered(self.col_projections(s, d, bound, p, k), bound, p),
        decreases bound, 3int, 0int, self.dyns@[d as int].projections@.len() - k, 0int,
    {
        let r = self.col_projections(s, d, bound, p, k);
        let all = self.allc_projections(d, bound, p, k);
        let e = Set::<ComponentView>::empty();
        lemma_grew_refl(s, bound);
        if d >= self.dyns@.len() || k < 0 || k >= self.dyns@[d as int].projections@.len() {
            lemma_grew_same(s, r, bound, e, all);
        } else {
            let proj = self.dyns@[d as int].projections@[k];
            self.lemma_args_step(s, s, proj.args, bound, p, false, 0, e);
            let s2 = self.col_args(s, proj.args, bound, p, false, 0);
            let a2 = e + self.allc_args(proj.args, bound, p, false, 0);
            let (s3, a3) = match proj.term {
                Term::Ty(ty) => if ty < bound {
                    self.lemma_ty_step(s, s2, ty, p, bound, a2);
                    (self.col_ty(s2, ty, p), a2 + self.allc_ty(ty, p))
                } else {
                    (s2, a2 + Set::empty())
                },
                Term::Const(Const::Alias(b)) => {
                    self.lemma_args_step(s, s2, b, bound, p, false, 0, a2);
                    (self.col_args(s2, b, bound, p, false, 0), a2 + self.allc_args(b, bound, p, false, 0))
                },
                Term::Const(_) => (s2, a2 + Set::empty()),
            };
            if a3 =~= a2 {
            }
            lemma_grew_same(s, s3, bound, a3, a3);
            self.lemma_col_projections(s3, d, bound, p, k + 1);
            lemma_grew_trans(s, s3, r, bound, a3, self.allc_projections(d, bound, p, k + 1));
            lemma_grew_same(s, r, bound, a3 + self.allc_projections(d, bound, p, k + 1), all);
        }
    }
}

/// Every component of `a` is in `b`, but for those of aliases with escaping
/// bound variables, which list what their arguments give and so depend on
/// the mode.
pub open spec fn found_in(a: Set<ComponentView>, b: Set<ComponentView>) -> bool {
    forall|c: ComponentView| #[trigger] a.contains(c) ==> c is EscapingAlias || b.contains(c)
}

impl TyCtxt {
    pub proof fn lemma_modes_ty(&self, t: TyId)
        ensures
            found_in(self.allc_ty(t, false), self.allc_ty(t, true)),
        decreases t + 1, 0int, 0int, 0int, 0int,
    {
        if t < self.types@.len() {
            match self.types@[t as int] {
                TyKind::FnDef(_, a, l) => {
                    self.lemma_modes_args(a, t as int, true, 0);
                },
                TyKind::Closure(_, c) => if c.sig_as_fn_ptr < t && c.upvars < t {
                    self.lemma_modes_ty(c.upvars);
                },
                TyKind::CoroutineClosure(_, c) => if c.signature_parts < t && c.upvars < t && c.captures_by_ref < t {
                    self.lemma_modes_ty(c.upvars);
                },
                TyKind::Coroutine(_, c) => if c.resume < t && c.yield_ty < t && c.return_ty < t && c.upvars < t {
                    self.lemma_modes_ty(c.upvars);
                    self.lemma_modes_ty(c.resume);
                },
                TyKind::Adt(_, a) => self.lemma_modes_args(a, t as int, false, 0),
                TyKind::Array(ty, c) => if ty < t {
                    self.lemma_modes_ty(ty);
                    if let Const::Alias(b) = c {
                        self.lemma_modes_args(b, t as int, false, 0);
                    }
                },
                TyKind::Pat(ty, q) => if ty < t {
                    self.lemma_modes_ty(ty);
                    self.lemma_modes_pat(q, t as int);
                },
                TyKind::Slice(ty) | TyKind::RawPtr(ty, _) | TyKind::UnsafeBinder(ty) => if ty < t {
                    self.lemma_modes_ty(ty);
                },
                TyKind::Ref(_, ty, _) => if ty < t {
                    self.lemma_modes_ty(ty);
                },
                TyKind::FnPtr(l) | TyKind::Tuple(l) => self.lemma_modes_list(l, t as int, 0),
                TyKind::Dynamic(d, _) => self.lemma_modes_dyn(d, t as int),
                TyKind::Refined(ty, key) => if ty < t {
                    self.lemma_modes_ty(ty);
                    if let RefinementDefinition::Pattern(q) = key.0 {
                        self.lemma_modes_pat(q, t as int);
                    }
                },
                _ => {},
            }
        }
    }

    pub proof fn lemma_modes_arg_at(&self, a: usize, bound: int, skip: bool, k: int)
        ensures
            found_in(self.allc_arg_at(a, bound, false, skip, k), self.allc_arg_at(a, bound, true, skip, k)),
        decreases bound, 1int, a, self.arg_lists@[a as int]@.len() - k, 1int,
    {
        if a < self.arg_lists@.len() && 0 <= k < self.arg_lists@[a as int]@.len() {
            match self.arg_lists@[a as int]@[k] {
                GenericArg::Type(ty) => if ty < bound {
                    self.lemma_modes_ty(ty);
                },
                GenericArg::Const(Const::Alias(b)) => if b < a {
                    self.lemma_modes_args(b, bound, false, 0);
                },
                _ => {},
            }
        }
    }

    pub proof fn lemma_modes_args(&self, a: usize, bound: int, skip: bool, k: int)
        ensures
            found_in(self.allc_args(a, bound, false, skip, k), self.allc_args(a, bound, true, skip, k)),
        decreases bound, 1int, a, self.arg_lists@[a as int]@.len() - k + 1, 0int,
    {
        if a < self.arg_lists@.len() && 0 <= k < self.arg_lists@[a as int]@.len() {
            self.lemma_modes_arg_at(a, bound, skip, k);
            self.lemma_modes_args(a, bound, skip, k + 1);
        }
    }

    pub proof fn lemma_modes_alias_args(&self, alias: AliasTy, bound: int, k: int)
        ensures
            found_in(self.allc_alias_args(alias, bound, false, k), self.allc_alias_args(alias, bound, true, k)),
        decreases bound, 1int, alias.args, self.arg_lists@[alias.args as int]@.len() - k + 1, 0int,
    {
        let a = alias.args;
        if a < self.arg_lists@.len() && 0 <= k < self.arg_lists@[a as int]@.len() {
            if !self.skips_arg(alias, k) {
                self.lemma_modes_arg_at(a, bound, false, k);
            }
            self.lemma_modes_alias_args(alias, bound, k + 1);
        }
    }

    pub proof fn lemma_modes_list(&self, l: usize, bound: int, k: int)
        ensures
            found_in(self.allc_list(l, bound, false, k), self.allc_list(l, bound, true, k)),
        decreases bound, 1int, 0int, self.ty_lists@[l as int]@.len() - k, 0int,
    {
        if l < self.ty_lists@.len() && 0 <= k < self.ty_lists@[l as int]@.len() {
            let ty = self.ty_lists@[l as int]@[k];
            if ty < bound {
                self.lemma_modes_ty(ty);
            }
            self.lemma_modes_list(l, bound, k + 1);
        }
    }

    pub proof fn lemma_modes_pat(&self, q: usize, bound: int)
        ensures
            found_in(self.allc_pat(q, bound, false), self.allc_pat(q, bound, true)),
        decreases bound, 2int, q, self.pat_alternatives(q) + 1, 0int,
    {
        if q < self.patterns@.len() {
            match self.patterns@[q as int] {
                PatternKind::Range { start, end } => {
                    if let Const::Alias(b) = start {
                        self.lemma_modes_args(b, bound, false, 0);
                    }
                    if let Const::Alias(b) = end {
                        self.lemma_modes_args(b, bound, false, 0);
                    }
                },
                PatternKind::NotNull => {},
                PatternKind::Or(_) => self.lemma_modes_pats(q, bound, 0),
            }
        }
    }

    pub proof fn lemma_modes_pats(&self, q: usize, bound: int, k: int)
        ensures
            found_in(self.allc_pats(q, bound, false, k), self.allc_pats(q, bound, true, k)),
        decreases bound, 2int, q, self.pat_alternatives(q) - k, 0int,
    {
        if q < self.patterns@.len() && k >= 0 {
            if let PatternKind::Or(ps) = self.patterns@[q as int] {
                if k < ps@.len() {
                    if ps@[k] < q {
                        self.lemma_modes_pat(ps@[k], bound);
                    }
                    self.lemma_modes_pats(q, bound, k + 1);
                }
            }
        }
    }

    pub proof fn lemma_modes_dyn(&self, d: usize, bound: int)
        ensures
            found_in(self.allc_dyn(d, bound, false), self.allc_dyn(d, bound, true)),
        decreases bound, 4int, 0int, 0int, 0int,
    {
        if d < self.dyns@.len() {
            if let Some(a) = self.dyns@[d as int].principal {
                self.lemma_modes_args(a, bound, false, 0);
            }
            self.lemma_modes_projections(d, bound, 0);
        }
    }

    pub proof fn lemma_modes_projections(&self, d: usize, bound: int, k: int)
        ensures
            found_in(self.allc_projections(d, bound, false, k), self.allc_projections(d, bound, true, k)),
        decreases bound, 3int, 0int, self.dyns@[d as int].projections@.len() - k, 0int,
    {
        if d < self.dyns@.len() && 0 <= k < self.dyns@[d as int].projections@.len() {
            let proj = self.dyns@[d as int].projections@[k];
            self.lemma_modes_args(proj.args, bound, false, 0);
            match proj.term {
                Term::Ty(ty) => if ty < bound {
                    self.lemma_modes_ty(ty);
                },
                Term::Const(Const::Alias(b)) => self.lemma_modes_args(b, bound, false, 0),
                Term::Const(_) => {},
            }
            self.lemma_modes_projections(d, bound, k + 1);
        }
    }
}

impl TyCtxt {
    pub proof fn lemma_fresh_covered(&self, lim: int, p: bool)
        ensures
            self.covered((Seq::empty(), self.fresh_visited(), false), lim, p),
    {
    }
}

/// A fresh collector finds, for `ty`, exactly the components that the types
/// reachable from `ty` contribute: which order it visits them in, and which
/// types it skips as met before, change nothing of that set.
pub proof fn lemma_collected_components(tcx: &TyCtxt, ty: TyId, p: bool)
    ensures
        forall|c: ComponentView| #[trigger] outlives_collected(tcx, ty, p).0.contains(c) <==> tcx.allc_ty(ty, p).contains(c),
{
    let s = (Seq::<ComponentView>::empty(), tcx.fresh_visited(), false);
    tcx.lemma_fresh_covered(ty + 1, p);
    tcx.lemma_col_ty(s, ty, p, ty + 1);
}

/// The same for the arguments of an alias.
pub proof fn lemma_alias_collected_components(tcx: &TyCtxt, alias: AliasTy, p: bool)
    ensures
        forall|c: ComponentView| #[trigger] alias_collected(tcx, alias, p).0.contains(c) <==> tcx.allc_alias_args(
            alias,
            tcx.types@.len() as int,
            p,
            0,
        ).contains(c),
{
    let s = (Seq::<ComponentView>::empty(), tcx.fresh_visited(), false);
    tcx.lemma_fresh_covered(tcx.types@.len() as int, p);
    tcx.lemma_col_alias_args(s, alias, tcx.types@.len() as int, p, 0);
}

/// Keeping the callable interface only adds components: every component
/// that `push_outlives_components` finds for `ty`,
/// `push_static_outlives_components` finds too, but for those of aliases with
/// escaping bound variables, whose listed arguments depend on the mode.
pub proof fn lemma_static_identity_finds_more(tcx: &TyCtxt, ty: TyId)
    ensures
        forall|c: ComponentView| #[trigger] outlives_collected(tcx, ty, false).0.contains(c) ==> c is EscapingAlias
            || outlives_collected(tcx, ty, true).0.contains(c),
{
    lemma_collected_components(tcx, ty, false);
    lemma_collected_components(tcx, ty, true);
    tcx.lemma_modes_ty(ty);
    assert forall|c: ComponentView| #[trigger] outlives_collected(tcx, ty, false).0.contains(c) implies c is EscapingAlias
        || outlives_collected(tcx, ty, true).0.contains(c) by {
        assert(tcx.allc_ty(ty, false).contains(c));
    }
}

/// The same for the arguments of an alias: every component that
/// `compute_alias_components_recursive` finds,
/// `compute_alias_components_recursive_for_static` finds too, but for those of
/// aliases with escaping bound variables.
pub proof fn lemma_static_identity_finds_more_for_alias(tcx: &TyCtxt, alias: AliasTy)
    ensures
        forall|c: ComponentView| #[trigger] alias_collected(tcx, alias, false).0.contains(c) ==> c is EscapingAlias
            || alias_collected(tcx, alias, true).0.contains(c),
{
    lemma_alias_collected_components(tcx, alias, false);
    lemma_alias_collected_components(tcx, alias, true);
    tcx.lemma_modes_alias_args(alias, tcx.types@.len() as int, 0);
    assert forall|c: ComponentView| #[trigger] alias_collected(tcx, alias, false).0.contains(c) implies c is EscapingAlias
        || alias_collected(tcx, alias, true).0.contains(c) by {
        assert(tcx.allc_alias_args(alias, tcx.types@.len() as int, false, 0).contains(c));
    }
}

} // verus!
